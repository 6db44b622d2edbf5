use wyrd::cluster::{cluster_terms, TermKey};
use wyrd::ranking::{lex_less_exec, sort_entries, RankKey};
use wyrd::scores::score_key;

fn mock_embedding(text: &str) -> Vec<f32> {
    let lowered = text.to_lowercase();
    if lowered.contains("auth") || lowered.contains("login") || lowered.contains("signin") {
        vec![1.0, 0.0, 0.0]
    } else if lowered.contains("billing") || lowered.contains("invoice") {
        vec![0.0, 1.0, 0.0]
    } else {
        vec![0.0, 0.0, 1.0]
    }
}

fn cosine(a: &[f32], b: &[f32]) -> f64 {
    a.iter().zip(b.iter()).map(|(&l, &r)| l as f64 * r as f64).sum()
}

fn similarity_graph(terms: &[&str], threshold: f64) -> Vec<Vec<bool>> {
    let embeddings: Vec<Vec<f32>> = terms.iter().map(|t| mock_embedding(t)).collect();
    (0..terms.len())
        .map(|i| (0..terms.len()).map(|j| cosine(&embeddings[i], &embeddings[j]) >= threshold).collect())
        .collect()
}

fn term(term: &str, score: f64, count: usize) -> TermKey {
    TermKey { score_key: score_key(score.to_bits()), count, term: term.to_string() }
}

fn names(terms: &[TermKey], clusters: &[Vec<usize>]) -> Vec<Vec<String>> {
    clusters.iter().map(|c| c.iter().map(|&i| terms[i].term.clone()).collect()).collect()
}

#[test]
fn cluster_groups_semantic_neighbors() {
    let terms = vec![term("login", 5.0, 10), term("signin", 4.0, 8), term("invoice", 3.0, 6)];
    let adj = similarity_graph(&["login", "signin", "invoice"], 0.8);
    let clusters = cluster_terms(&terms, &adj);
    assert_eq!(clusters.len(), 2);
    assert_eq!(clusters[0].len(), 2);
    assert_eq!(terms[clusters[0][0]].term, "login");
}

#[test]
fn cluster_vocabulary_fixture_groups_login_and_signin() {
    let words = ["invoice", "signin", "login"];
    let terms = vec![term("invoice", 3.0, 6), term("signin", 4.0, 8), term("login", 5.0, 10)];
    let adj = similarity_graph(&words, 0.8);
    let clusters = cluster_terms(&terms, &adj);
    assert_eq!(clusters.len(), 2);
    assert_eq!(clusters[0].len(), 2);
    assert_eq!(terms[clusters[0][0]].term, "login");
    assert_eq!(terms[clusters[0][1]].term, "signin");
}

#[test]
fn clusters_are_connected_components() {
    // 0-2-4 is a chain, 1-3 a pair, 5 alone.
    let n = 6;
    let mut adj = vec![vec![false; n]; n];
    for (a, b) in [(0, 2), (2, 4), (1, 3)] {
        adj[a][b] = true;
        adj[b][a] = true;
    }
    let terms: Vec<TermKey> = (0..n).map(|i| term(&format!("t{}", i), 1.0, 1)).collect();
    let clusters = cluster_terms(&terms, &adj);
    assert_eq!(names(&terms, &clusters), vec![vec!["t0", "t2", "t4"], vec!["t1", "t3"], vec!["t5"]]);
}

#[test]
fn cluster_members_and_clusters_are_ordered() {
    let terms = vec![
        term("beta", 1.0, 1),
        term("alpha", 1.0, 1),
        term("gamma", 2.0, 1),
        term("delta", 1.0, 5),
        term("alpha", 1.0, 1),
    ];
    let mut adj = vec![vec![false; 5]; 5];
    for (a, b) in [(0, 1), (2, 3)] {
        adj[a][b] = true;
        adj[b][a] = true;
    }
    let clusters = cluster_terms(&terms, &adj);
    assert_eq!(clusters, vec![vec![2, 3], vec![1, 0], vec![4]]);
}

#[test]
fn string_order_matches_string_ord() {
    let words = ["", "a", "ab", "b", "B", "ä", "zz", "z", "a\u{0}"];
    for x in words {
        for y in words {
            let xv: Vec<char> = x.chars().collect();
            let yv: Vec<char> = y.chars().collect();
            assert_eq!(lex_less_exec(&xv, &yv), x < y, "{:?} {:?}", x, y);
        }
    }
}

#[test]
fn sort_entries_orders_by_key_then_tie() {
    let k = |p: u64, s: u64, f: &str| RankKey { primary: p, secondary: s, first: f.chars().collect(), second: Vec::new() };
    let keys = vec![k(1, 0, "b"), k(3, 0, "a"), k(1, 0, "a"), k(1, 2, "z"), k(1, 0, "b")];
    let entries = vec![(0, 0), (1, 1), (2, 2), (3, 3), (4, 4)];
    let sorted = sort_entries(&keys, &entries);
    let order: Vec<usize> = sorted.iter().map(|e| e.1).collect();
    assert_eq!(order, vec![1, 3, 2, 0, 4]);
}

#[test]
fn same_cluster_exactly_when_connected() {
    // Two chains joined only through term 3.
    let n = 7;
    let mut adj = vec![vec![false; n]; n];
    for (a, b) in [(0, 1), (1, 3), (3, 5), (2, 6)] {
        adj[a][b] = true;
        adj[b][a] = true;
    }
    let terms: Vec<TermKey> = (0..n).map(|i| term(&format!("w{}", i), i as f64, 1)).collect();
    let clusters = cluster_terms(&terms, &adj);
    let cluster_of = |t: usize| clusters.iter().position(|c| c.contains(&t)).expect("every term is clustered");
    assert_eq!(cluster_of(0), cluster_of(5));
    assert_eq!(cluster_of(2), cluster_of(6));
    assert_ne!(cluster_of(0), cluster_of(2));
    assert_ne!(cluster_of(4), cluster_of(0));
    assert_eq!(clusters.iter().map(|c| c.len()).sum::<usize>(), n);
    // Highest score first: w6 leads its cluster, and that cluster comes first.
    assert_eq!(clusters[0], vec![6, 2]);
    assert_eq!(clusters[1], vec![5, 3, 1, 0]);
    assert_eq!(clusters[2], vec![4]);
}

#[test]
fn raising_the_threshold_only_splits_clusters() {
    let words = ["login", "signin", "auth", "invoice", "billing", "readme"];
    let terms: Vec<TermKey> = words.iter().enumerate().map(|(i, w)| term(w, 10.0 - i as f64, 1)).collect();
    // Dense graph: the auth words and the billing words are each joined.
    let mut dense = vec![vec![false; 6]; 6];
    // Sparse graph: a subset of those edges.
    let mut sparse = vec![vec![false; 6]; 6];
    for (a, b) in [(0, 1), (1, 2), (3, 4), (4, 5)] {
        dense[a][b] = true;
        dense[b][a] = true;
    }
    for (a, b) in [(0, 1), (3, 4)] {
        sparse[a][b] = true;
        sparse[b][a] = true;
    }
    let coarse = cluster_terms(&terms, &dense);
    let fine = cluster_terms(&terms, &sparse);
    assert_eq!(coarse, vec![vec![0, 1, 2], vec![3, 4, 5]]);
    assert_eq!(fine, vec![vec![0, 1], vec![2], vec![3, 4], vec![5]]);
    assert!(fine.len() >= coarse.len());
    for cluster in &fine {
        assert!(coarse.iter().any(|c| cluster.iter().all(|t| c.contains(t))));
    }
}

#[test]
fn term_order_does_not_change_clusters() {
    let words = ["login", "signin", "invoice", "billing", "readme"];
    let scores = [5.0, 4.0, 3.0, 3.0, 1.0];
    let counts = [10, 8, 6, 7, 1];
    let edges = [(0, 1), (2, 3)];
    let build = |order: &[usize]| {
        let terms: Vec<TermKey> = order.iter().map(|&i| term(words[i], scores[i], counts[i])).collect();
        let mut adj = vec![vec![false; order.len()]; order.len()];
        for (x, &i) in order.iter().enumerate() {
            for (y, &j) in order.iter().enumerate() {
                if edges.contains(&(i, j)) || edges.contains(&(j, i)) {
                    adj[x][y] = true;
                }
            }
        }
        let clusters = cluster_terms(&terms, &adj);
        names(&terms, &clusters)
    };
    let original = build(&[0, 1, 2, 3, 4]);
    assert_eq!(original, vec![vec!["login", "signin"], vec!["billing", "invoice"], vec!["readme"]]);
    assert_eq!(build(&[4, 3, 2, 1, 0]), original);
    assert_eq!(build(&[2, 0, 4, 1, 3]), original);
}

#[test]
fn clustering_is_determined_by_terms_and_graph() {
    let terms = vec![term("b", 2.0, 1), term("a", 2.0, 1), term("c", 1.0, 3), term("d", 1.0, 3)];
    let mut adj = vec![vec![false; 4]; 4];
    for (a, b) in [(0, 3), (1, 2)] {
        adj[a][b] = true;
        adj[b][a] = true;
    }
    let first = cluster_terms(&terms, &adj);
    let second = cluster_terms(&terms, &adj.clone());
    assert_eq!(first, second);
    assert_eq!(first, vec![vec![1, 2], vec![0, 3]]);
}

#[test]
fn equal_members_keep_search_order() {
    // Two entries for one term whose scores compare equal (0.0 and -0.0):
    // the search from "auth" pushes 1 then 2, so it reaches 2 first.
    let terms = vec![term("auth", 2.0, 1), term("login", 0.0, 3), term("login", -0.0, 3)];
    let mut adj = vec![vec![false; 3]; 3];
    for (a, b) in [(0, 1), (0, 2), (1, 2)] {
        adj[a][b] = true;
        adj[b][a] = true;
    }
    let clusters = cluster_terms(&terms, &adj);
    assert_eq!(clusters, vec![vec![0, 2, 1]]);
}
