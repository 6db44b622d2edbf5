use std::path::Path;

use wyrd::ops::{
    document_warning, embed_input_texts, embed_output, missing_model_message, pair_warning,
    path_candidates, path_to_read, refine_order, required_stdin, rerank_order, rerank_query, resolve_path,
    vocabulary_window, EmbeddedText, InputError, RefineCandidate, DEFAULT_DOC_MAX_CHARS,
};
use wyrd::scores::score_key;

fn key(value: f64) -> u64 {
    score_key(value.to_bits())
}

fn normalized(scores: &[f64]) -> Vec<f64> {
    let min = scores.iter().copied().fold(f64::INFINITY, f64::min);
    let max = scores.iter().copied().fold(f64::NEG_INFINITY, f64::max);
    if (max - min).abs() < f64::EPSILON {
        return vec![1.0; scores.len()];
    }
    scores.iter().map(|s| (s - min) / (max - min)).collect()
}

#[test]
fn rerank_prefers_semantic_match() {
    // billing.md (yore score 10) and auth.md (yore score 5), query "auth":
    // the keyword embedder puts auth.md on the query's axis and billing.md off it.
    let lexical = normalized(&[10.0, 5.0]);
    let semantic = [0.0f64, 1.0];
    let w = 0.65;
    let combined: Vec<u64> = (0..2).map(|i| key((1.0 - w) * lexical[i] + w * semantic[i])).collect();
    let order = rerank_order(&combined, None);
    let paths = ["docs/billing.md", "docs/auth.md"];
    assert_eq!(paths[order[0].index], "docs/auth.md");
    assert_eq!(order[0].original_rank, 2);
    assert_eq!(order[0].reranked_rank, 1);
    assert_eq!(order[1].reranked_rank, 2);
}

#[test]
fn rerank_order_ties_and_limit() {
    let keys = vec![5, 9, 5, 9, 1];
    let order = rerank_order(&keys, None);
    let idx: Vec<usize> = order.iter().map(|s| s.index).collect();
    assert_eq!(idx, vec![1, 3, 0, 2, 4]);
    let top = rerank_order(&keys, Some(2));
    assert_eq!(top.len(), 2);
    assert_eq!(top[1].index, 3);
    assert_eq!(top[1].original_rank, 4);
    assert_eq!(rerank_order(&keys, Some(10)).len(), 5);
    assert!(rerank_order(&Vec::new(), Some(3)).is_empty());
}

#[test]
fn refine_filters_low_semantic_pairs() {
    // (auth, login) are both on the auth axis; (auth, billing) are orthogonal.
    let threshold = 0.75;
    let w = 0.55;
    let refined = |lexical: f64, semantic: f64| (1.0 - w) * lexical + w * semantic.clamp(0.0, 1.0);
    let scores = [refined(0.8, 1.0), refined(0.8, 0.0)];
    let candidates = vec![
        RefineCandidate {
            score_key: key(scores[0]),
            file1: "docs/auth.md".into(),
            file2: "docs/login.md".into(),
            retained: scores[0] >= threshold,
        },
        RefineCandidate {
            score_key: key(scores[1]),
            file1: "docs/auth.md".into(),
            file2: "docs/billing.md".into(),
            retained: scores[1] >= threshold,
        },
    ];
    let order = refine_order(&candidates);
    assert_eq!(order.len(), 1);
    assert_eq!(candidates[order[0]].file2, "docs/login.md");
}

#[test]
fn refine_order_sorts_by_score_then_files() {
    let c = |k: u64, f1: &str, f2: &str, retained: bool| RefineCandidate {
        score_key: k,
        file1: f1.into(),
        file2: f2.into(),
        retained,
    };
    let candidates = vec![
        c(5, "b", "x", true),
        c(7, "z", "z", true),
        c(5, "a", "y", true),
        c(5, "a", "x", true),
        c(9, "q", "q", false),
        c(5, "a", "x", true),
    ];
    assert_eq!(refine_order(&candidates), vec![1, 3, 5, 2, 0]);
}

#[test]
fn score_keys_follow_float_order() {
    let values = [
        f64::NEG_INFINITY,
        -1e300,
        -2.5,
        -1.0,
        -1e-300,
        -0.0,
        0.0,
        1e-300,
        0.5,
        1.0,
        2.5,
        1e300,
        f64::INFINITY,
    ];
    for a in values {
        for b in values {
            assert_eq!(key(a) < key(b), a < b, "{} {}", a, b);
            assert_eq!(key(a) == key(b), a == b, "{} {}", a, b);
        }
    }
}

#[test]
fn paths_resolve_like_path_join() {
    let cases = [("/tmp/root", "docs/a.md"), ("/tmp/root/", "docs/a.md"), (".", "a"), ("", "a"), ("/r", "/abs/x"), ("r", "")];
    for (root, value) in cases {
        let expected = Path::new(root).join(value).to_string_lossy().to_string();
        assert_eq!(resolve_path(root, value), expected, "{} {}", root, value);
    }
    assert_eq!(path_candidates(".", "home/user/a.md"), vec!["./home/user/a.md", "/home/user/a.md"]);
    assert_eq!(path_candidates(".", "/home/user/a.md"), vec!["/home/user/a.md"]);
}

#[test]
fn warnings_and_messages() {
    assert_eq!(document_warning("docs/a.md", "failed to read docs/a.md"), "docs/a.md: failed to read docs/a.md");
    assert_eq!(pair_warning("a", "b", "boom"), "a <-> b: boom");
    assert!(missing_model_message().starts_with("embeddings are unavailable."));
    assert_eq!(
        InputError::NothingToEmbed.message(),
        format!("embed expects text arguments or piped stdin. {}", missing_model_message())
    );
    assert_eq!(InputError::StdinIsTerminal.message(), "this subcommand expects JSON on stdin");
    assert_eq!(DEFAULT_DOC_MAX_CHARS, 4000);
}

#[test]
fn stdin_and_embed_inputs() {
    assert!(matches!(required_stdin("  \n".to_string()), Err(InputError::StdinEmpty)));
    assert_eq!(required_stdin(" {} ".to_string()).expect("ok"), " {} ");
    assert_eq!(embed_input_texts("auth\n\n  billing \n", true).expect("texts"), vec!["auth", "billing"]);
    assert_eq!(embed_input_texts("  auth flow \n", false).expect("text"), vec!["auth flow"]);
    assert!(matches!(embed_input_texts(" \n\t", true), Err(InputError::NoTextToEmbed)));
}

#[test]
fn embed_returns_all_requested_texts() {
    let record = |text: &str, v: [f32; 3]| EmbeddedText {
        text: text.into(),
        embedding: v.iter().map(|x| x.to_bits()).collect(),
    };
    let output = embed_output(vec![record("auth", [1.0, 0.0, 0.0]), record("billing", [0.0, 1.0, 0.0])]);
    assert_eq!(output.total_texts, 2);
    assert_eq!(output.embedding_dim, 3);
    assert_eq!(output.command, "embed");
    assert_eq!(embed_output(Vec::new()).embedding_dim, 0);
}

#[test]
fn query_and_window_choice() {
    assert_eq!(rerank_query(Some("q".into()), Some("p".into())), Some("q".to_string()));
    assert_eq!(rerank_query(None, Some("p".into())), Some("p".to_string()));
    assert_eq!(rerank_query(None, None), None);
    assert_eq!(vocabulary_window(10, Some(3)), 3);
    assert_eq!(vocabulary_window(2, Some(3)), 2);
    assert_eq!(vocabulary_window(4, None), 4);
}

#[test]
fn limit_keeps_prefix_of_full_ranking() {
    let keys = vec![3, 8, 8, 1, 5, 3, 9];
    let full: Vec<(usize, usize, usize)> = rerank_order(&keys, None)
        .iter()
        .map(|s| (s.index, s.original_rank, s.reranked_rank))
        .collect();
    for limit in 0..10 {
        let cut: Vec<(usize, usize, usize)> = rerank_order(&keys, Some(limit))
            .iter()
            .map(|s| (s.index, s.original_rank, s.reranked_rank))
            .collect();
        assert_eq!(cut, full[..limit.min(keys.len())].to_vec());
    }
}

#[test]
fn read_path_is_first_existing_candidate() {
    assert_eq!(path_to_read(".", "home/user/doc.md", &vec![false, true]), "/home/user/doc.md");
    assert_eq!(path_to_read(".", "home/user/doc.md", &vec![true, true]), "./home/user/doc.md");
    assert_eq!(path_to_read(".", "home/user/doc.md", &vec![false, false]), "./home/user/doc.md");
    assert_eq!(path_to_read("/r", "doc.md", &vec![]), "/r/doc.md");
    assert_eq!(path_to_read("/r", "/abs/doc.md", &vec![false]), "/abs/doc.md");
}

#[test]
fn stricter_refine_threshold_keeps_a_subsequence() {
    let scores = [0.9, 0.62, 0.75, 0.81, 0.7, 0.75];
    let files = [("a", "b"), ("a", "c"), ("b", "d"), ("c", "d"), ("a", "d"), ("a", "a")];
    let candidates = |threshold: f64| -> Vec<RefineCandidate> {
        scores
            .iter()
            .zip(files.iter())
            .map(|(&s, &(f1, f2))| RefineCandidate {
                score_key: key(s),
                file1: f1.into(),
                file2: f2.into(),
                retained: s >= threshold,
            })
            .collect()
    };
    let loose = candidates(0.7);
    let strict = candidates(0.8);
    let loose_order = refine_order(&loose);
    let strict_order = refine_order(&strict);
    assert_eq!(loose_order, vec![0, 3, 5, 2, 4]);
    assert_eq!(strict_order, vec![0, 3]);
    let kept: Vec<usize> = loose_order.iter().copied().filter(|&i| strict[i].retained).collect();
    assert_eq!(strict_order, kept);
}
