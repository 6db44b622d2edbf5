//! Grouping vocabulary terms into clusters: the connected components of the
//! similarity graph, found by depth-first search from each term in turn.
use vstd::prelude::*;

use crate::ranking::{
    RankKey, entries_wf, entry_before, lemma_entry_order, lemma_lex_less_order, lemma_sorted_unique, lex_less,
    sort_entries, sorted_by,
};

verus! {

/// Terms `i` and `j` are similar enough to share a cluster.
pub open spec fn edge(adj: Seq<Vec<bool>>, i: int, j: int) -> bool {
    adj[i]@[j]
}

/// The similarity graph is an `n` by `n` symmetric relation.
pub open spec fn graph_wf(adj: Seq<Vec<bool>>) -> bool {
    &&& forall|i: int| 0 <= i < adj.len() ==> (#[trigger] adj[i])@.len() == adj.len()
    &&& forall|i: int, j: int|
        0 <= i < adj.len() && 0 <= j < adj.len() ==> #[trigger] edge(adj, i, j) == edge(adj, j, i)
}

/// The terms reachable from `s` in at most `k` steps along the graph.
pub open spec fn reach_within(adj: Seq<Vec<bool>>, s: int, k: nat) -> Set<int>
    decreases k,
{
    if k == 0 {
        set![s]
    } else {
        let prev = reach_within(adj, s, (k - 1) as nat);
        prev.union(
            Set::new(
                |j: int|
                    0 <= j < adj.len() && exists|i: int|
                        0 <= i < adj.len() && #[trigger] prev.contains(i) && edge(adj, i, j),
            ),
        )
    }
}

/// Term `t` can be reached from term `s` along the graph.
pub open spec fn connected(adj: Seq<Vec<bool>>, s: int, t: int) -> bool {
    exists|k: nat| #[trigger] reach_within(adj, s, k).contains(t)
}

proof fn lemma_reach_step(adj: Seq<Vec<bool>>, s: int, k: nat, i: int, j: int)
    requires
        reach_within(adj, s, k).contains(i),
        0 <= i < adj.len(),
        0 <= j < adj.len(),
        edge(adj, i, j),
    ensures
        reach_within(adj, s, k + 1).contains(j),
{
    let prev = reach_within(adj, s, k);
    assert(reach_within(adj, s, k + 1) == prev.union(
        Set::new(
            |j: int|
                0 <= j < adj.len() && exists|i: int|
                    0 <= i < adj.len() && #[trigger] prev.contains(i) && edge(adj, i, j),
        ),
    ));
}

proof fn lemma_reach_monotone(adj: Seq<Vec<bool>>, s: int, k: nat, m: nat)
    requires
        k <= m,
    ensures
        reach_within(adj, s, k).subset_of(reach_within(adj, s, m)),
    decreases m - k,
{
    if k < m {
        lemma_reach_monotone(adj, s, k, (m - 1) as nat);
    }
}

proof fn lemma_reach_in_range(adj: Seq<Vec<bool>>, s: int, k: nat, t: int)
    requires
        0 <= s < adj.len(),
        reach_within(adj, s, k).contains(t),
    ensures
        0 <= t < adj.len(),
    decreases k,
{
    if k > 0 {
        let prev = reach_within(adj, s, (k - 1) as nat);
        if prev.contains(t) {
            lemma_reach_in_range(adj, s, (k - 1) as nat, t);
        }
    }
}

proof fn lemma_reach_concat(adj: Seq<Vec<bool>>, a: int, b: int, c: int, m: nat, n: nat)
    requires
        0 <= a < adj.len(),
        0 <= b < adj.len(),
        reach_within(adj, a, m).contains(b),
        reach_within(adj, b, n).contains(c),
    ensures
        reach_within(adj, a, m + n).contains(c),
    decreases n,
{
    if n == 0 {
        assert(c == b);
        lemma_reach_monotone(adj, a, m, m + n);
    } else {
        let prev = reach_within(adj, b, (n - 1) as nat);
        if prev.contains(c) {
            lemma_reach_concat(adj, a, b, c, m, (n - 1) as nat);
            lemma_reach_monotone(adj, a, (m + n - 1) as nat, m + n);
        } else {
            let i = choose|i: int| 0 <= i < adj.len() && #[trigger] prev.contains(i) && edge(adj, i, c);
            lemma_reach_concat(adj, a, b, i, m, (n - 1) as nat);
            lemma_reach_in_range(adj, b, n, c);
            lemma_reach_step(adj, a, (m + n - 1) as nat, i, c);
        }
    }
}

proof fn lemma_reach_symmetric(adj: Seq<Vec<bool>>, s: int, t: int, k: nat)
    requires
        graph_wf(adj),
        0 <= s < adj.len(),
        reach_within(adj, s, k).contains(t),
    ensures
        reach_within(adj, t, k).contains(s),
    decreases k,
{
    lemma_reach_in_range(adj, s, k, t);
    if k == 0 {
    } else {
        let prev = reach_within(adj, s, (k - 1) as nat);
        if prev.contains(t) {
            lemma_reach_symmetric(adj, s, t, (k - 1) as nat);
            lemma_reach_monotone(adj, t, (k - 1) as nat, k);
        } else {
            let i = choose|i: int| 0 <= i < adj.len() && #[trigger] prev.contains(i) && edge(adj, i, t);
            lemma_reach_symmetric(adj, s, i, (k - 1) as nat);
            assert(edge(adj, t, i));
            assert(reach_within(adj, t, 0).contains(t));
            lemma_reach_step(adj, t, 0, t, i);
            lemma_reach_concat(adj, t, i, s, 1, (k - 1) as nat);
        }
    }
}

/// Connectedness is symmetric and transitive.
pub proof fn lemma_connected(adj: Seq<Vec<bool>>, a: int, b: int, c: int)
    requires
        graph_wf(adj),
        0 <= a < adj.len(),
        0 <= b < adj.len(),
    ensures
        connected(adj, a, a),
        connected(adj, a, b) ==> connected(adj, b, a),
        connected(adj, a, b) && connected(adj, b, c) ==> connected(adj, a, c),
{
    assert(reach_within(adj, a, 0).contains(a));
    if connected(adj, a, b) {
        let k = choose|k: nat| #[trigger] reach_within(adj, a, k).contains(b);
        lemma_reach_symmetric(adj, a, b, k);
        if connected(adj, b, c) {
            let m = choose|m: nat| #[trigger] reach_within(adj, b, m).contains(c);
            lemma_reach_concat(adj, a, b, c, k, m);
        }
    }
}

proof fn lemma_distinct_bounded(s: Seq<usize>, n: nat)
    requires
        s.no_duplicates(),
        forall|i: int| 0 <= i < s.len() ==> #[trigger] s[i] < n,
    ensures
        s.len() <= n,
    decreases n,
{
    if n == 0 {
        if s.len() > 0 {
            assert(s[0] < n);
        }
    } else if s.contains((n - 1) as usize) {
        let k = choose|k: int| 0 <= k < s.len() && s[k] == (n - 1) as usize;
        let s2 = s.remove(k);
        s.remove_ensures(k);
        assert forall|i: int| 0 <= i < s2.len() implies #[trigger] s2[i] < n - 1 by {
            if i < k {
                assert(s2[i] == s[i]);
            } else {
                assert(s2[i] == s[i + 1]);
            }
        }
        assert(s2.no_duplicates()) by {
            assert forall|a: int, b: int| 0 <= a < s2.len() && 0 <= b < s2.len() && a != b implies s2[a] != s2[b] by {
                let a2 = if a < k { a } else { a + 1 };
                let b2 = if b < k { b } else { b + 1 };
                assert(s2[a] == s[a2]);
                assert(s2[b] == s[b2]);
            }
        }
        lemma_distinct_bounded(s2, (n - 1) as nat);
    } else {
        assert forall|i: int| 0 <= i < s.len() implies #[trigger] s[i] < n - 1 by {
            assert(s[i] != (n - 1) as usize);
        }
        lemma_distinct_bounded(s, (n - 1) as nat);
    }
}

/// Term `t` is in one of the groups.
pub open spec fn in_groups(g: Seq<Vec<usize>>, t: int) -> bool {
    exists|c: int, p: int| 0 <= c < g.len() && 0 <= p < g[c]@.len() && #[trigger] g[c]@[p] == t
}

/// The groups split the terms `0..n` into disjoint, non-empty groups, each
/// closed under the graph's edges and connected through its first member,
/// which is its smallest; groups come in the order of their first members.
pub open spec fn components_wf(adj: Seq<Vec<bool>>, g: Seq<Vec<usize>>) -> bool {
    &&& forall|c: int| 0 <= c < g.len() ==> (#[trigger] g[c])@.len() > 0
    &&& forall|c: int, p: int| 0 <= c < g.len() && 0 <= p < g[c]@.len() ==> #[trigger] g[c]@[p] < adj.len()
    &&& forall|c: int, p: int, q: int|
        0 <= c < g.len() && 0 <= p < g[c]@.len() && 0 <= q < g[c]@.len() && p != q ==> #[trigger] g[c]@[p]
            != #[trigger] g[c]@[q]
    &&& forall|c1: int, c2: int, p: int, q: int|
        0 <= c1 < g.len() && 0 <= c2 < g.len() && c1 != c2 && 0 <= p < g[c1]@.len() && 0 <= q
            < g[c2]@.len() ==> #[trigger] g[c1]@[p] != #[trigger] g[c2]@[q]
    &&& forall|c: int, p: int| 0 <= c < g.len() && 0 <= p < g[c]@.len() ==> g[c]@[0] <= #[trigger] g[c]@[p]
    &&& forall|c1: int, c2: int| 0 <= c1 < c2 < g.len() ==> (#[trigger] g[c1])@[0] < (#[trigger] g[c2])@[0]
    &&& forall|c: int, p: int|
        0 <= c < g.len() && 0 <= p < g[c]@.len() ==> connected(adj, g[c]@[0] as int, #[trigger] g[c]@[p] as int)
    &&& forall|c: int, p: int, j: int|
        0 <= c < g.len() && 0 <= p < g[c]@.len() && 0 <= j < adj.len() && #[trigger] edge(adj, g[c]@[p] as int, j)
            ==> g[c]@.contains(j as usize)
}

/// How many terms are not yet marked as reached.
pub open spec fn unmarked(v: Seq<bool>) -> nat
    decreases v.len(),
{
    if v.len() == 0 {
        0
    } else {
        unmarked(v.drop_last()) + if v.last() {
            0nat
        } else {
            1nat
        }
    }
}

/// Marking an unmarked term leaves one fewer unmarked.
pub proof fn lemma_unmarked_update(v: Seq<bool>, j: int)
    requires
        0 <= j < v.len(),
        !v[j],
    ensures
        unmarked(v.update(j, true)) + 1 == unmarked(v),
    decreases v.len(),
{
    let w = v.update(j, true);
    if j < v.len() - 1 {
        assert(w.drop_last() =~= v.drop_last().update(j, true));
        lemma_unmarked_update(v.drop_last(), j);
    } else {
        assert(w.drop_last() =~= v.drop_last());
    }
}

/// One scan of the search: the neighbors `j..n` of term `index`, in
/// increasing order, that are not yet marked (and are not `index` itself)
/// are marked and pushed on the stack. Gives the new marks and stack.
pub open spec fn dfs_scan(adj: Seq<Vec<bool>>, index: int, j: int, visited: Seq<bool>, stack: Seq<usize>) -> (
    Seq<bool>,
    Seq<usize>,
)
    decreases adj.len() - j,
{
    if j >= adj.len() {
        (visited, stack)
    } else if 0 <= j < visited.len() && !visited[j] && index != j && edge(adj, index, j) {
        dfs_scan(adj, index, j + 1, visited.update(j, true), stack.push(j as usize))
    } else {
        dfs_scan(adj, index, j + 1, visited, stack)
    }
}

/// A scan marks exactly as many terms as it pushes.
pub proof fn lemma_dfs_scan(adj: Seq<Vec<bool>>, index: int, j: int, visited: Seq<bool>, stack: Seq<usize>)
    ensures
        dfs_scan(adj, index, j, visited, stack).0.len() == visited.len(),
        dfs_scan(adj, index, j, visited, stack).1.len() >= stack.len(),
        unmarked(dfs_scan(adj, index, j, visited, stack).0) + dfs_scan(adj, index, j, visited, stack).1.len()
            == unmarked(visited) + stack.len(),
    decreases adj.len() - j,
{
    if j < adj.len() {
        if 0 <= j < visited.len() && !visited[j] && index != j && edge(adj, index, j) {
            lemma_unmarked_update(visited, j);
            lemma_dfs_scan(adj, index, j + 1, visited.update(j, true), stack.push(j as usize));
        } else {
            lemma_dfs_scan(adj, index, j + 1, visited, stack);
        }
    }
}

/// The depth-first search from a stack: take the top term, record it in
/// the component, scan its neighbors, and go on until the stack is empty.
/// Gives the final marks and the component, in the order its terms were
/// taken from the stack.
pub open spec fn dfs_drain(adj: Seq<Vec<bool>>, visited: Seq<bool>, stack: Seq<usize>, component: Seq<usize>) -> (
    Seq<bool>,
    Seq<usize>,
)
    decreases unmarked(visited), stack.len(),
{
    if stack.len() == 0 {
        (visited, component)
    } else {
        let index = stack.last();
        let next = dfs_scan(adj, index as int, 0, visited, stack.drop_last());
        proof {
            lemma_dfs_scan(adj, index as int, 0, visited, stack.drop_last());
        }
        dfs_drain(adj, next.0, next.1, component.push(index))
    }
}

/// The components that depth-first searches find, starting from each term
/// from `start` on that is not yet marked.
pub open spec fn dfs_components_from(adj: Seq<Vec<bool>>, start: int, visited: Seq<bool>) -> Seq<Seq<usize>>
    decreases adj.len() - start,
{
    if start >= adj.len() {
        Seq::empty()
    } else if 0 <= start < visited.len() && visited[start] {
        dfs_components_from(adj, start + 1, visited)
    } else {
        let run = dfs_drain(adj, visited.update(start, true), seq![start as usize], Seq::empty());
        seq![run.1] + dfs_components_from(adj, start + 1, run.0)
    }
}

/// The components of the graph as depth-first search finds them: from each
/// term in turn that no earlier search reached, each listing its terms in
/// the order the search reached them.
pub open spec fn dfs_components(adj: Seq<Vec<bool>>) -> Seq<Seq<usize>> {
    dfs_components_from(adj, 0, Seq::new(adj.len(), |i: int| false))
}

/// The position of term `t` in its component of `dfs_components(adj)`:
/// how many terms of that component the search reached before it.
pub open spec fn dfs_rank(adj: Seq<Vec<bool>>, t: int) -> int {
    let d = dfs_components(adj);
    (choose|c: int, p: int| 0 <= c < d.len() && 0 <= p < d[c].len() && d[c][p] == t).1
}

/// The connected components of the graph, in the order a depth-first search
/// from each not yet reached term finds them.
fn components(adj: &Vec<Vec<bool>>) -> (res: Vec<Vec<usize>>)
    requires
        graph_wf(adj@),
    ensures
        components_wf(adj@, res@),
        forall|t: int| 0 <= t < adj@.len() ==> #[trigger] in_groups(res@, t),
        res@.map_values(|v: Vec<usize>| v@) == dfs_components(adj@),
{
    let n = adj.len();
    let mut visited: Vec<bool> = Vec::new();
    while visited.len() < n
        invariant
            visited@.len() <= n,
            forall|t: int| 0 <= t < visited@.len() ==> !(#[trigger] visited@[t]),
        decreases n - visited@.len(),
    {
        visited.push(false);
    }
    let mut comps: Vec<Vec<usize>> = Vec::new();
    let mut start: usize = 0;
    proof {
        assert(visited@ =~= Seq::new(adj@.len(), |i: int| false));
        assert(comps@.map_values(|v: Vec<usize>| v@) =~= Seq::<Seq<usize>>::empty());
        assert(Seq::<Seq<usize>>::empty() + dfs_components(adj@) =~= dfs_components(adj@));
    }
    while start < n
        invariant
            n == adj@.len(),
            graph_wf(adj@),
            visited@.len() == n,
            start <= n,
            comps@.map_values(|v: Vec<usize>| v@) + dfs_components_from(adj@, start as int, visited@) == dfs_components(
                adj@,
            ),
            components_wf(adj@, comps@),
            forall|t: int| 0 <= t < n ==> (#[trigger] visited@[t] <==> in_groups(comps@, t)),
            forall|t: int| 0 <= t < start ==> #[trigger] visited@[t],
            forall|c: int| 0 <= c < comps@.len() ==> (#[trigger] comps@[c])@[0] < start,
        decreases n - start,
    {
        if visited[start] {
            start = start + 1;
            continue;
        }
        let mut stack: Vec<usize> = Vec::new();
        let mut component: Vec<usize> = Vec::new();
        stack.push(start);
        assert(!in_groups(comps@, start as int));
        let ghost v0 = visited@;
        visited.set(start, true);
        let ghost run0 = dfs_drain(adj@, visited@, stack@, component@);
        proof {
            assert(stack@ =~= seq![start]);
            assert(component@ =~= Seq::<usize>::empty());
            assert(dfs_components_from(adj@, start as int, v0) == seq![run0.1] + dfs_components_from(
                adj@,
                start as int + 1,
                run0.0,
            ));
        }
        assert(reach_within(adj@, start as int, 0).contains(start as int));
        proof {
            assert(stack@[0] == start);
            assert forall|t: int| 0 <= t < n implies (#[trigger] visited@[t] <==> (in_groups(comps@, t)
                || component@.contains(t as usize) || stack@.contains(t as usize))) by {
                if stack@.contains(t as usize) {
                    let q = choose|q: int| 0 <= q < stack@.len() && stack@[q] == t as usize;
                    assert(q == 0);
                }
            }
        }
        while stack.len() > 0
            invariant
                n == adj@.len(),
                graph_wf(adj@),
                visited@.len() == n,
                start < n,
                components_wf(adj@, comps@),
                forall|t: int| 0 <= t < start ==> #[trigger] visited@[t],
                forall|c: int| 0 <= c < comps@.len() ==> (#[trigger] comps@[c])@[0] < start,
                forall|t: int|
                    0 <= t < n ==> (#[trigger] visited@[t] <==> (in_groups(comps@, t) || component@.contains(
                        t as usize,
                    ) || stack@.contains(t as usize))),
                forall|p: int|
                    0 <= p < component@.len() ==> !in_groups(comps@, #[trigger] component@[p] as int)
                        && component@[p] < n && start <= component@[p] && connected(
                        adj@,
                        start as int,
                        component@[p] as int,
                    ),
                forall|p: int|
                    0 <= p < stack@.len() ==> !in_groups(comps@, #[trigger] stack@[p] as int) && stack@[p] < n
                        && start <= stack@[p] && connected(adj@, start as int, stack@[p] as int),
                component@.no_duplicates(),
                stack@.no_duplicates(),
                forall|p: int, q: int|
                    0 <= p < component@.len() && 0 <= q < stack@.len() ==> #[trigger] component@[p]
                        != #[trigger] stack@[q],
                forall|p: int, j: int|
                    0 <= p < component@.len() && 0 <= j < n && #[trigger] edge(adj@, component@[p] as int, j)
                        ==> visited@[j],
                component@.len() == 0 ==> stack@ == seq![start],
                component@.len() > 0 ==> component@[0] == start,
                component@.len() <= n,
                dfs_drain(adj@, visited@, stack@, component@) == run0,
            decreases n - component@.len(),
        {
            let ghost old_component = component@;
            let ghost old_stack = stack@;
            let ghost old_visited = visited@;
            let index = stack.pop().unwrap();
            component.push(index);
            proof {
                assert(old_stack.last() == index);
                assert(stack@ =~= old_stack.drop_last());
                assert forall|p: int, q: int|
                    0 <= p < component@.len() && 0 <= q < stack@.len() implies #[trigger] component@[p]
                        != #[trigger] stack@[q] by {
                    if p < old_component.len() {
                        assert(component@[p] == old_component[p]);
                        assert(stack@[q] == old_stack[q]);
                    } else {
                        assert(stack@[q] == old_stack[q]);
                        assert(old_stack[old_stack.len() - 1] == index);
                    }
                }
                assert forall|a: int, b: int| 0 <= a < b < component@.len() implies component@[a] != component@[b] by {
                    if b == component@.len() - 1 {
                        assert(old_stack[old_stack.len() - 1] == index);
                    } else {
                        assert(old_component[a] != old_component[b]);
                    }
                }
                assert(component@.no_duplicates());
                lemma_distinct_bounded(component@, n as nat);
                assert forall|t: int| 0 <= t < n implies (#[trigger] visited@[t] <==> (in_groups(comps@, t)
                    || component@.contains(t as usize) || stack@.contains(t as usize))) by {
                    if old_stack.contains(t as usize) {
                        let q = choose|q: int| 0 <= q < old_stack.len() && old_stack[q] == t as usize;
                        if q == old_stack.len() - 1 {
                            assert(component@[component@.len() - 1] == t as usize);
                        } else {
                            assert(stack@[q] == t as usize);
                        }
                    }
                    if old_component.contains(t as usize) {
                        let q = choose|q: int| 0 <= q < old_component.len() && old_component[q] == t as usize;
                        assert(component@[q] == t as usize);
                    }
                    if component@.contains(t as usize) {
                        let q = choose|q: int| 0 <= q < component@.len() && component@[q] == t as usize;
                        if q < old_component.len() {
                            assert(old_component[q] == t as usize);
                        } else {
                            assert(old_stack[old_stack.len() - 1] == t as usize);
                        }
                    }
                    if stack@.contains(t as usize) {
                        let q = choose|q: int| 0 <= q < stack@.len() && stack@[q] == t as usize;
                        assert(old_stack[q] == t as usize);
                    }
                }
            }
            let mut neighbor: usize = 0;
            while neighbor < n
                invariant
                    n == adj@.len(),
                    graph_wf(adj@),
                    visited@.len() == n,
                    start < n,
                    neighbor <= n,
                    index < n,
                    components_wf(adj@, comps@),
                    forall|t: int| 0 <= t < start ==> #[trigger] visited@[t],
                    forall|c: int| 0 <= c < comps@.len() ==> (#[trigger] comps@[c])@[0] < start,
                    forall|t: int|
                        0 <= t < n ==> (#[trigger] visited@[t] <==> (in_groups(comps@, t) || component@.contains(
                            t as usize,
                        ) || stack@.contains(t as usize))),
                    forall|p: int|
                        0 <= p < component@.len() ==> !in_groups(comps@, #[trigger] component@[p] as int)
                            && component@[p] < n && start <= component@[p] && connected(
                            adj@,
                            start as int,
                            component@[p] as int,
                        ),
                    forall|p: int|
                        0 <= p < stack@.len() ==> !in_groups(comps@, #[trigger] stack@[p] as int) && stack@[p]
                            < n && start <= stack@[p] && connected(adj@, start as int, stack@[p] as int),
                    component@.no_duplicates(),
                    stack@.no_duplicates(),
                    forall|p: int, q: int|
                        0 <= p < component@.len() && 0 <= q < stack@.len() ==> #[trigger] component@[p]
                            != #[trigger] stack@[q],
                    component@.len() > 0,
                    component@[component@.len() - 1] == index,
                    forall|p: int, j: int|
                        0 <= p < component@.len() - 1 && 0 <= j < n && #[trigger] edge(
                            adj@,
                            component@[p] as int,
                            j,
                        ) ==> visited@[j],
                    forall|j: int| 0 <= j < neighbor && #[trigger] edge(adj@, index as int, j) ==> visited@[j],
                    component@[0] == start,
                    dfs_scan(adj@, index as int, neighbor as int, visited@, stack@) == dfs_scan(
                        adj@,
                        index as int,
                        0,
                        old_visited,
                        old_stack.drop_last(),
                    ),
                    dfs_drain(adj@, old_visited, old_stack, old_component) == run0,
                    old_stack.len() > 0,
                    index == old_stack.last(),
                    component@ == old_component.push(index),
                decreases n - neighbor,
            {
                if visited[neighbor] || index == neighbor {
                    proof {
                        if index == neighbor {
                            assert(component@.contains(neighbor));
                        }
                    }
                    neighbor = neighbor + 1;
                    continue;
                }
                if adj[index][neighbor] {
                    let ghost pre_stack = stack@;
                    proof {
                        assert(!component@.contains(neighbor));
                        assert(!stack@.contains(neighbor));
                        assert(!in_groups(comps@, neighbor as int));
                        assert(connected(adj@, start as int, index as int));
                        let k = choose|k: nat| #[trigger] reach_within(adj@, start as int, k).contains(index as int);
                        lemma_reach_step(adj@, start as int, k, index as int, neighbor as int);
                        assert(reach_within(adj@, start as int, k + 1).contains(neighbor as int));
                    }
                    visited.set(neighbor, true);
                    stack.push(neighbor);
                    proof {
                        assert forall|p: int, q: int|
                            0 <= p < component@.len() && 0 <= q < stack@.len() implies #[trigger] component@[p]
                                != #[trigger] stack@[q] by {
                            if q < pre_stack.len() {
                                assert(stack@[q] == pre_stack[q]);
                            }
                        }
                        assert forall|t: int| 0 <= t < n implies (#[trigger] visited@[t] <==> (in_groups(
                            comps@,
                            t,
                        ) || component@.contains(t as usize) || stack@.contains(t as usize))) by {
                            if stack@.contains(t as usize) && t != neighbor {
                                let q = choose|q: int| 0 <= q < stack@.len() && stack@[q] == t as usize;
                                assert(pre_stack[q] == t as usize);
                            }
                            if pre_stack.contains(t as usize) {
                                let q = choose|q: int| 0 <= q < pre_stack.len() && pre_stack[q] == t as usize;
                                assert(stack@[q] == t as usize);
                            }
                            if t == neighbor {
                                assert(stack@[stack@.len() - 1] == t as usize);
                            }
                        }
                    }
                }
                neighbor = neighbor + 1;
            }
            proof {
                assert(dfs_scan(adj@, index as int, n as int, visited@, stack@) == (visited@, stack@));
            }
        }
        proof {
            assert(stack@.len() == 0);
            assert((visited@, component@) == run0);
            assert forall|p: int, j: int|
                0 <= p < component@.len() && 0 <= j < n && #[trigger] edge(adj@, component@[p] as int, j)
                    implies component@.contains(j as usize) by {
                let x = component@[p];
                assert(visited@[j]);
                if in_groups(comps@, j) {
                    let (c, q) = choose|c: int, q: int|
                        0 <= c < comps@.len() && 0 <= q < comps@[c]@.len() && #[trigger] comps@[c]@[q] == j;
                    assert(edge(adj@, j, x as int));
                    assert(comps@[c]@.contains(x));
                    let r = choose|r: int| 0 <= r < comps@[c]@.len() && comps@[c]@[r] == x;
                    assert(in_groups(comps@, x as int));
                }
            }
        }
        let ghost old_comps = comps@;
        comps.push(component);
        proof {
            let pre = old_comps.map_values(|v: Vec<usize>| v@);
            let rest = dfs_components_from(adj@, start as int + 1, visited@);
            assert(comps@.map_values(|v: Vec<usize>| v@) =~= pre.push(component@));
            assert(pre.push(component@) + rest =~= pre + (seq![component@] + rest));
            let g = comps@;
            let last = g.len() - 1;
            assert(g[last] == component);
            assert forall|c: int| 0 <= c < old_comps.len() implies #[trigger] g[c] == old_comps[c] by {}
            assert forall|t: int| 0 <= t < n implies (#[trigger] visited@[t] <==> in_groups(g, t)) by {
                if in_groups(old_comps, t) {
                    let (c, q) = choose|c: int, q: int|
                        0 <= c < old_comps.len() && 0 <= q < old_comps[c]@.len() && #[trigger] old_comps[c]@[q] == t;
                    assert(g[c]@[q] == t);
                }
                if component@.contains(t as usize) {
                    let q = choose|q: int| 0 <= q < component@.len() && component@[q] == t as usize;
                    assert(g[last]@[q] == t);
                }
                if in_groups(g, t) {
                    let (c, q) = choose|c: int, q: int|
                        0 <= c < g.len() && 0 <= q < g[c]@.len() && #[trigger] g[c]@[q] == t;
                    if c < last {
                        assert(old_comps[c]@[q] == t);
                    } else {
                        assert(component@[q] == t);
                    }
                }
            }
            assert(components_wf(adj@, g)) by {
                assert forall|c: int, p: int, q: int|
                    0 <= c < g.len() && 0 <= p < g[c]@.len() && 0 <= q < g[c]@.len() && p != q implies #[trigger] g[c]@[p]
                        != #[trigger] g[c]@[q] by {
                    if c == last {
                        assert(component@.no_duplicates());
                    }
                }
                assert forall|c1: int, c2: int, p: int, q: int|
                    0 <= c1 < g.len() && 0 <= c2 < g.len() && c1 != c2 && 0 <= p < g[c1]@.len() && 0 <= q
                        < g[c2]@.len() implies #[trigger] g[c1]@[p] != #[trigger] g[c2]@[q] by {
                    if c1 == last {
                        assert(!in_groups(old_comps, component@[p] as int));
                    } else if c2 == last {
                        assert(!in_groups(old_comps, component@[q] as int));
                    }
                }
            }
        }
        start = start + 1;
    }
    assert forall|t: int| 0 <= t < adj@.len() implies #[trigger] in_groups(comps@, t) by {
        assert(visited@[t]);
    }
    comps
}

/// A vocabulary term as clustering orders it: its score as an
/// order-preserving integer key, its count and its text.
pub struct TermKey {
    pub score_key: u64,
    pub count: usize,
    pub term: String,
}

/// Term `i`'s key ranks strictly before term `j`'s: higher score, then
/// higher count, then the term text in string order.
pub open spec fn term_key_precedes(t: Seq<TermKey>, i: int, j: int) -> bool {
    ||| t[i].score_key > t[j].score_key
    ||| t[i].score_key == t[j].score_key && t[i].count > t[j].count
    ||| t[i].score_key == t[j].score_key && t[i].count == t[j].count && lex_less(t[i].term@, t[j].term@)
}

/// Terms `i` and `j` have equal keys.
pub open spec fn term_same(t: Seq<TermKey>, i: int, j: int) -> bool {
    t[i].score_key == t[j].score_key && t[i].count == t[j].count && t[i].term@ == t[j].term@
}

/// Term `i` is listed before term `j` within a cluster: its key ranks
/// first, or the keys are equal and the depth-first search over `adj`
/// reached it first (the order a stable sort of the search's order keeps).
pub open spec fn member_before(t: Seq<TermKey>, adj: Seq<Vec<bool>>, i: int, j: int) -> bool {
    term_key_precedes(t, i, j) || (term_same(t, i, j) && dfs_rank(adj, i) < dfs_rank(adj, j))
}

/// Cluster `a` is listed before cluster `b`: the key of its best (first)
/// member ranks first, or those keys are equal and `a` holds a smaller
/// vocabulary index than every member of `b` (the search found `a` first).
pub open spec fn cluster_before(t: Seq<TermKey>, a: Seq<usize>, b: Seq<usize>) -> bool {
    ||| term_key_precedes(t, a[0] as int, b[0] as int)
    ||| term_same(t, a[0] as int, b[0] as int) && exists|p: int|
        0 <= p < a.len() && forall|q: int| 0 <= q < b.len() ==> #[trigger] a[p] < #[trigger] b[q]
}

/// Term `t` is a member of one of the clusters.
pub open spec fn clusters_hold(cl: Seq<Vec<usize>>, t: int) -> bool {
    exists|c: int, p: int| 0 <= c < cl.len() && 0 <= p < cl[c]@.len() && #[trigger] cl[c]@[p] == t
}

/// `rkeys` ranks as `terms` do.
pub open spec fn keys_match(terms: Seq<TermKey>, rkeys: Seq<RankKey>) -> bool {
    &&& rkeys.len() == terms.len()
    &&& forall|i: int|
        0 <= i < terms.len() ==> {
            &&& (#[trigger] rkeys[i]).primary == terms[i].score_key
            &&& rkeys[i].secondary == terms[i].count as u64
            &&& rkeys[i].first@ == terms[i].term@
            &&& rkeys[i].second@ == Seq::<char>::empty()
        }
}

proof fn lemma_keys_match(terms: Seq<TermKey>, rkeys: Seq<RankKey>, a: (usize, usize), b: (usize, usize))
    requires
        keys_match(terms, rkeys),
        a.0 < terms.len(),
        b.0 < terms.len(),
    ensures
        entry_before(rkeys, a, b) == (term_key_precedes(terms, a.0 as int, b.0 as int) || (term_same(
            terms,
            a.0 as int,
            b.0 as int,
        ) && a.1 < b.1)),
{
    let ka = rkeys[a.0 as int];
    let kb = rkeys[b.0 as int];
    lemma_lex_less_order(ka.first@, kb.first@, kb.first@);
    lemma_lex_less_order(ka.second@, kb.second@, kb.second@);
}

fn copy_indices(v: &Vec<usize>) -> (res: Vec<usize>)
    ensures
        res@ == v@,
{
    let mut res: Vec<usize> = Vec::new();
    let mut i: usize = 0;
    while i < v.len()
        invariant
            i <= v@.len(),
            res@ == v@.take(i as int),
        decreases v@.len() - i,
    {
        res.push(v[i]);
        i = i + 1;
        assert(res@ =~= v@.take(i as int));
    }
    assert(v@.take(v@.len() as int) =~= v@);
    res
}

fn sort_members(terms: &Vec<TermKey>, rkeys: &Vec<RankKey>, comp: &Vec<usize>, Ghost(adj): Ghost<Seq<Vec<bool>>>) -> (res: Vec<
    usize,
>)
    requires
        keys_match(terms@, rkeys@),
        forall|p: int| 0 <= p < comp@.len() ==> #[trigger] comp@[p] < terms@.len(),
        comp@.no_duplicates(),
        forall|p: int| 0 <= p < comp@.len() ==> dfs_rank(adj, #[trigger] comp@[p] as int) == p,
    ensures
        res@.len() == comp@.len(),
        forall|p: int| 0 <= p < res@.len() ==> comp@.contains(#[trigger] res@[p]),
        forall|p: int| 0 <= p < comp@.len() ==> res@.contains(#[trigger] comp@[p]),
        forall|p: int, q: int|
            0 <= p < q < res@.len() ==> member_before(terms@, adj, #[trigger] res@[p] as int, #[trigger] res@[q] as int),
{
    let mut entries: Vec<(usize, usize)> = Vec::new();
    let mut i: usize = 0;
    while i < comp.len()
        invariant
            i <= comp@.len(),
            entries@.len() == i,
            forall|k: int| 0 <= k < i ==> #[trigger] entries@[k] == (comp@[k], k as usize),
        decreases comp@.len() - i,
    {
        entries.push((comp[i], i));
        i = i + 1;
    }
    assert(entries_wf(rkeys@, entries@)) by {
        assert forall|a: int, b: int| 0 <= a < entries@.len() && 0 <= b < entries@.len() && a != b implies
            (#[trigger] entries@[a]).1 != (#[trigger] entries@[b]).1 by {}
    }
    let sorted = sort_entries(rkeys, &entries);
    let mut res: Vec<usize> = Vec::new();
    let mut p: usize = 0;
    while p < sorted.len()
        invariant
            p <= sorted@.len(),
            res@.len() == p,
            forall|a: int| 0 <= a < p ==> #[trigger] res@[a] == sorted@[a].0,
        decreases sorted@.len() - p,
    {
        res.push(sorted[p].0);
        p = p + 1;
    }
    proof {
        assert forall|a: int| 0 <= a < sorted@.len() implies (#[trigger] sorted@[a]).1 < comp@.len() && comp@[sorted@[a].1 as int]
            == sorted@[a].0 && comp@.contains(sorted@[a].0) by {
            assert(entries@.contains(sorted@[a]));
            let k = choose|k: int| 0 <= k < entries@.len() && entries@[k] == sorted@[a];
            assert(comp@[k] == sorted@[a].0);
        }
        assert forall|a: int| 0 <= a < res@.len() implies comp@.contains(#[trigger] res@[a]) by {
            assert(sorted@[a].0 == res@[a]);
        }
        assert forall|k: int| 0 <= k < comp@.len() implies res@.contains(#[trigger] comp@[k]) by {
            assert(sorted@.contains(entries@[k]));
            let a = choose|a: int| 0 <= a < sorted@.len() && sorted@[a] == entries@[k];
            assert(res@[a] == comp@[k]);
        }
        assert forall|x: int, y: int| 0 <= x < y < res@.len() implies member_before(
            terms@, adj,
            #[trigger] res@[x] as int,
            #[trigger] res@[y] as int,
        ) by {
            assert(entry_before(rkeys@, sorted@[x], sorted@[y]));
            let k1 = sorted@[x].1 as int;
            let k2 = sorted@[y].1 as int;
            assert(dfs_rank(adj, comp@[k1] as int) == k1);
            assert(dfs_rank(adj, comp@[k2] as int) == k2);
            lemma_keys_match(terms@, rkeys@, sorted@[x], sorted@[y]);
        }
    }
    res
}

/// Term `t` is a member of one of the clusters `cl`.
pub open spec fn in_clustering(cl: Seq<Seq<usize>>, t: int) -> bool {
    exists|c: int, p: int| 0 <= c < cl.len() && 0 <= p < cl[c].len() && #[trigger] cl[c][p] == t
}

/// `cl` is the clustering of the vocabulary `terms` under the similarity
/// graph `adj`, as lists of term indices: every term lies in exactly one
/// non-empty cluster, two terms share a cluster exactly when a path of
/// edges joins them (so no edge joins two clusters), each cluster lists its
/// members by `member_before` and the clusters come by `cluster_before`.
pub open spec fn is_clustering(terms: Seq<TermKey>, adj: Seq<Vec<bool>>, cl: Seq<Seq<usize>>) -> bool {
    &&& forall|c: int| 0 <= c < cl.len() ==> (#[trigger] cl[c]).len() > 0
    &&& forall|c: int, p: int| 0 <= c < cl.len() && 0 <= p < cl[c].len() ==> #[trigger] cl[c][p] < terms.len()
    &&& forall|t: int| 0 <= t < terms.len() ==> #[trigger] in_clustering(cl, t)
    &&& forall|c1: int, c2: int, p: int, q: int|
        0 <= c1 < cl.len() && 0 <= c2 < cl.len() && c1 != c2 && 0 <= p < cl[c1].len() && 0 <= q < cl[c2].len()
            ==> #[trigger] cl[c1][p] != #[trigger] cl[c2][q]
    &&& forall|c1: int, c2: int, p: int, q: int|
        0 <= c1 < cl.len() && 0 <= c2 < cl.len() && c1 != c2 && 0 <= p < cl[c1].len() && 0 <= q < cl[c2].len()
            ==> !edge(adj, #[trigger] cl[c1][p] as int, #[trigger] cl[c2][q] as int)
    &&& forall|c: int, p: int, q: int|
        0 <= c < cl.len() && 0 <= p < cl[c].len() && 0 <= q < cl[c].len() ==> connected(
            adj,
            #[trigger] cl[c][p] as int,
            #[trigger] cl[c][q] as int,
        )
    &&& forall|c1: int, c2: int, p: int, q: int|
        0 <= c1 < cl.len() && 0 <= c2 < cl.len() && 0 <= p < cl[c1].len() && 0 <= q < cl[c2].len() ==> (connected(
            adj,
            #[trigger] cl[c1][p] as int,
            #[trigger] cl[c2][q] as int,
        ) <==> c1 == c2)
    &&& forall|c: int, p: int, q: int|
        0 <= c < cl.len() && 0 <= p < q < cl[c].len() ==> member_before(
            terms, adj,
            #[trigger] cl[c][p] as int,
            #[trigger] cl[c][q] as int,
        )
    &&& forall|c1: int, c2: int| 0 <= c1 < c2 < cl.len() ==> cluster_before(terms, #[trigger] cl[c1], #[trigger] cl[c2])
}

proof fn lemma_clustering_view(terms: Seq<TermKey>, adj: Seq<Vec<bool>>, res: Seq<Vec<usize>>)
    requires
        forall|c: int| 0 <= c < res.len() ==> (#[trigger] res[c])@.len() > 0,
        forall|c: int, p: int| 0 <= c < res.len() && 0 <= p < res[c]@.len() ==> #[trigger] res[c]@[p] < terms.len(),
        forall|t: int| 0 <= t < terms.len() ==> #[trigger] clusters_hold(res, t),
        forall|c1: int, c2: int, p: int, q: int|
            0 <= c1 < res.len() && 0 <= c2 < res.len() && c1 != c2 && 0 <= p < res[c1]@.len() && 0 <= q
                < res[c2]@.len() ==> #[trigger] res[c1]@[p] != #[trigger] res[c2]@[q],
        forall|c1: int, c2: int, p: int, q: int|
            0 <= c1 < res.len() && 0 <= c2 < res.len() && c1 != c2 && 0 <= p < res[c1]@.len() && 0 <= q
                < res[c2]@.len() ==> !edge(adj, #[trigger] res[c1]@[p] as int, #[trigger] res[c2]@[q] as int),
        forall|c: int, p: int, q: int|
            0 <= c < res.len() && 0 <= p < res[c]@.len() && 0 <= q < res[c]@.len() ==> connected(
                adj,
                #[trigger] res[c]@[p] as int,
                #[trigger] res[c]@[q] as int,
            ),
        forall|c1: int, c2: int, p: int, q: int|
            0 <= c1 < res.len() && 0 <= c2 < res.len() && 0 <= p < res[c1]@.len() && 0 <= q < res[c2]@.len()
                ==> (connected(adj, #[trigger] res[c1]@[p] as int, #[trigger] res[c2]@[q] as int) <==> c1 == c2),
        forall|c: int, p: int, q: int|
            0 <= c < res.len() && 0 <= p < q < res[c]@.len() ==> member_before(
                terms, adj,
                #[trigger] res[c]@[p] as int,
                #[trigger] res[c]@[q] as int,
            ),
        forall|c1: int, c2: int|
            0 <= c1 < c2 < res.len() ==> cluster_before(terms, (#[trigger] res[c1])@, (#[trigger] res[c2])@),
    ensures
        is_clustering(terms, adj, res.map_values(|v: Vec<usize>| v@)),
{
    let cl = res.map_values(|v: Vec<usize>| v@);
    assert forall|c: int| 0 <= c < res.len() implies #[trigger] cl[c] == res[c]@ by {}
    assert forall|t: int| 0 <= t < terms.len() implies #[trigger] in_clustering(cl, t) by {
        assert(clusters_hold(res, t));
        let (c, p) = choose|c: int, p: int| 0 <= c < res.len() && 0 <= p < res[c]@.len() && #[trigger] res[c]@[p] == t;
        assert(cl[c][p] == t);
    }
}

/// The clusters of the vocabulary, as lists of term indices: the connected
/// components of the similarity graph `adj`. Each cluster lists its members
/// by `member_before`, and the clusters are listed by `cluster_before`, which
/// is how `wyrd cluster` reports them.
pub fn cluster_terms(terms: &Vec<TermKey>, adj: &Vec<Vec<bool>>) -> (res: Vec<Vec<usize>>)
    requires
        adj@.len() == terms@.len(),
        graph_wf(adj@),
    ensures
        is_clustering(terms@, adj@, res@.map_values(|v: Vec<usize>| v@)),
{
    let n = terms.len();
    let mut rkeys: Vec<RankKey> = Vec::new();
    let mut i: usize = 0;
    while i < n
        invariant
            i <= n == terms@.len(),
            rkeys@.len() == i,
            forall|k: int| 0 <= k < i ==> {
                &&& (#[trigger] rkeys@[k]).primary == terms@[k].score_key
                &&& rkeys@[k].secondary == terms@[k].count as u64
                &&& rkeys@[k].first@ == terms@[k].term@
                &&& rkeys@[k].second@ == Seq::<char>::empty()
            },
        decreases n - i,
    {
        let t = &terms[i];
        rkeys.push(
            RankKey {
                primary: t.score_key,
                secondary: t.count as u64,
                first: crate::text::chars_of(t.term.as_str()),
                second: Vec::new(),
            },
        );
        i = i + 1;
    }
    assert(keys_match(terms@, rkeys@));
    let g = components(adj);
    let m = g.len();
    let mut sc: Vec<Vec<usize>> = Vec::new();
    let mut c: usize = 0;
    while c < m
        invariant
            c <= m == g@.len(),
            n == terms@.len() == adj@.len(),
            keys_match(terms@, rkeys@),
            components_wf(adj@, g@),
            g@.map_values(|v: Vec<usize>| v@) == dfs_components(adj@),
            sc@.len() == c,
            forall|k: int| 0 <= k < c ==> (#[trigger] sc@[k])@.len() == g@[k]@.len(),
            forall|k: int, p: int| 0 <= k < c && 0 <= p < sc@[k]@.len() ==> g@[k]@.contains(#[trigger] sc@[k]@[p]),
            forall|k: int, p: int| 0 <= k < c && 0 <= p < g@[k]@.len() ==> sc@[k]@.contains(#[trigger] g@[k]@[p]),
            forall|k: int, p: int, q: int|
                0 <= k < c && 0 <= p < q < sc@[k]@.len() ==> member_before(
                    terms@, adj@,
                    #[trigger] sc@[k]@[p] as int,
                    #[trigger] sc@[k]@[q] as int,
                ),
        decreases m - c,
    {
        proof {
            assert forall|a: int, b: int| 0 <= a < g@[c as int]@.len() && 0 <= b < g@[c as int]@.len() && a != b implies
                g@[c as int]@[a] != g@[c as int]@[b] by {}
        }
        proof {
            let d = dfs_components(adj@);
            assert(d.len() == g@.len());
            assert(d[c as int] == g@[c as int]@);
            assert forall|p: int| 0 <= p < g@[c as int]@.len() implies dfs_rank(adj@, #[trigger] g@[c as int]@[p] as int) == p by {
                let t = g@[c as int]@[p] as int;
                assert(d[c as int][p] == t);
                let (c2, p2) = choose|c2: int, p2: int| 0 <= c2 < d.len() && 0 <= p2 < d[c2].len() && d[c2][p2] == t;
                assert(d[c2] == g@[c2]@);
                assert(g@[c2]@[p2] == t);
                assert(g@[c2]@[p2] == g@[c as int]@[p]);
            }
        }
        let members = sort_members(terms, &rkeys, &g[c], Ghost(adj@));
        sc.push(members);
        c = c + 1;
    }
    let mut centries: Vec<(usize, usize)> = Vec::new();
    let mut k: usize = 0;
    while k < m
        invariant
            k <= m == g@.len() == sc@.len(),
            n == terms@.len(),
            components_wf(adj@, g@),
            forall|j: int| 0 <= j < m ==> (#[trigger] sc@[j])@.len() == g@[j]@.len(),
            forall|j: int, p: int| 0 <= j < m && 0 <= p < sc@[j]@.len() ==> g@[j]@.contains(#[trigger] sc@[j]@[p]),
            centries@.len() == k,
            forall|j: int| 0 <= j < k ==> #[trigger] centries@[j] == (sc@[j]@[0], j as usize),
        decreases m - k,
    {
        assert(sc@[k as int]@.len() > 0);
        centries.push((sc[k][0], k));
        k = k + 1;
    }
    proof {
        assert forall|j: int| 0 <= j < m implies (#[trigger] centries@[j]).0 < rkeys@.len() by {
            assert(g@[j]@.contains(sc@[j]@[0]));
        }
    }
    let corder = sort_entries(&rkeys, &centries);
    let mut res: Vec<Vec<usize>> = Vec::new();
    let mut r: usize = 0;
    while r < m
        invariant
            r <= m == corder@.len() == sc@.len(),
            centries@.len() == m,
            forall|j: int| 0 <= j < m ==> #[trigger] centries@[j] == (sc@[j]@[0], j as usize),
            forall|a: int| 0 <= a < corder@.len() ==> centries@.contains(#[trigger] corder@[a]),
            res@.len() == r,
            forall|a: int| 0 <= a < r ==> (#[trigger] res@[a])@ == sc@[corder@[a].1 as int]@,
        decreases m - r,
    {
        assert(centries@.contains(corder@[r as int]));
        let cidx = corder[r].1;
        res.push(copy_indices(&sc[cidx]));
        r = r + 1;
    }
    proof {
        // Each output cluster is the member-sorted component `owner(a)`.
        assert forall|a: int| 0 <= a < m implies (#[trigger] corder@[a]).1 < m && corder@[a] == centries@[corder@[a].1 as int] by {
            assert(centries@.contains(corder@[a]));
            let j = choose|j: int| 0 <= j < m && centries@[j] == corder@[a];
        }
        assert forall|a: int, b: int| 0 <= a < m && 0 <= b < m && a != b implies (#[trigger] corder@[a]).1
            != (#[trigger] corder@[b]).1 by {
            if a < b {
                lemma_entry_order(rkeys@, corder@[a], corder@[b], corder@[b]);
                assert(entry_before(rkeys@, corder@[a], corder@[b]));
            } else {
                lemma_entry_order(rkeys@, corder@[b], corder@[a], corder@[a]);
                assert(entry_before(rkeys@, corder@[b], corder@[a]));
            }
        }
        assert forall|c1: int| 0 <= c1 < res@.len() implies (#[trigger] res@[c1])@.len() > 0 by {
            assert(g@[corder@[c1].1 as int]@.len() > 0);
        }
        assert forall|c1: int, p: int| 0 <= c1 < res@.len() && 0 <= p < res@[c1]@.len() implies #[trigger] res@[c1]@[p]
            < terms@.len() && g@[corder@[c1].1 as int]@.contains(res@[c1]@[p]) by {
            let j = corder@[c1].1 as int;
            assert(sc@[j]@[p] == res@[c1]@[p]);
            assert(g@[j]@.contains(sc@[j]@[p]));
        }
        assert forall|t: int| 0 <= t < terms@.len() implies #[trigger] clusters_hold(res@, t) by {
            assert(in_groups(g@, t));
            let (j, p) = choose|j: int, p: int| 0 <= j < g@.len() && 0 <= p < g@[j]@.len() && #[trigger] g@[j]@[p] == t;
            assert(sc@[j]@.contains(g@[j]@[p]));
            let q = choose|q: int| 0 <= q < sc@[j]@.len() && sc@[j]@[q] == g@[j]@[p];
            assert(corder@.contains(centries@[j]));
            let a = choose|a: int| 0 <= a < corder@.len() && corder@[a] == centries@[j];
            assert(res@[a]@[q] == t);
        }
        assert forall|c1: int, c2: int, p: int, q: int|
            0 <= c1 < res@.len() && 0 <= c2 < res@.len() && c1 != c2 && 0 <= p < res@[c1]@.len() && 0 <= q
                < res@[c2]@.len() implies #[trigger] res@[c1]@[p] != #[trigger] res@[c2]@[q] && !edge(
                adj@,
                res@[c1]@[p] as int,
                res@[c2]@[q] as int,
            ) by {
            let j1 = corder@[c1].1 as int;
            let j2 = corder@[c2].1 as int;
            let x = res@[c1]@[p];
            let y = res@[c2]@[q];
            assert(g@[j1]@.contains(x));
            assert(g@[j2]@.contains(y));
            let p1 = choose|p1: int| 0 <= p1 < g@[j1]@.len() && g@[j1]@[p1] == x;
            let q2 = choose|q2: int| 0 <= q2 < g@[j2]@.len() && g@[j2]@[q2] == y;
            assert(g@[j1]@[p1] != g@[j2]@[q2]);
            if edge(adj@, x as int, y as int) {
                assert(g@[j1]@.contains(y));
                let r1 = choose|r1: int| 0 <= r1 < g@[j1]@.len() && g@[j1]@[r1] == y;
                assert(g@[j1]@[r1] != g@[j2]@[q2]);
            }
        }
        assert forall|c1: int, p: int, q: int|
            0 <= c1 < res@.len() && 0 <= p < res@[c1]@.len() && 0 <= q < res@[c1]@.len() implies connected(
                adj@,
                #[trigger] res@[c1]@[p] as int,
                #[trigger] res@[c1]@[q] as int,
            ) by {
            let j = corder@[c1].1 as int;
            let x = res@[c1]@[p];
            let y = res@[c1]@[q];
            assert(g@[j]@.contains(x));
            assert(g@[j]@.contains(y));
            let px = choose|px: int| 0 <= px < g@[j]@.len() && g@[j]@[px] == x;
            let py = choose|py: int| 0 <= py < g@[j]@.len() && g@[j]@[py] == y;
            assert(connected(adj@, g@[j]@[0] as int, g@[j]@[px] as int));
            assert(connected(adj@, g@[j]@[0] as int, g@[j]@[py] as int));
            lemma_connected(adj@, g@[j]@[0] as int, x as int, y as int);
            lemma_connected(adj@, x as int, g@[j]@[0] as int, y as int);
        }
        assert forall|c1: int, p: int, q: int|
            0 <= c1 < res@.len() && 0 <= p < q < res@[c1]@.len() implies member_before(
                terms@, adj@,
                #[trigger] res@[c1]@[p] as int,
                #[trigger] res@[c1]@[q] as int,
            ) by {
            let j = corder@[c1].1 as int;
            assert(res@[c1]@[p] == sc@[j]@[p]);
            assert(res@[c1]@[q] == sc@[j]@[q]);
        }
        assert forall|c1: int, c2: int| 0 <= c1 < c2 < res@.len() implies cluster_before(
            terms@,
            (#[trigger] res@[c1])@,
            (#[trigger] res@[c2])@,
        ) by {
            let j1 = corder@[c1].1 as int;
            let j2 = corder@[c2].1 as int;
            assert(entry_before(rkeys@, corder@[c1], corder@[c2]));
            assert(g@[j1]@.contains(res@[c1]@[0]));
            assert(g@[j2]@.contains(res@[c2]@[0]));
            lemma_keys_match(terms@, rkeys@, corder@[c1], corder@[c2]);
            if !term_key_precedes(terms@, res@[c1]@[0] as int, res@[c2]@[0] as int) {
                assert(j1 < j2);
                assert(sc@[j1]@.contains(g@[j1]@[0]));
                let pw = choose|pw: int| 0 <= pw < sc@[j1]@.len() && sc@[j1]@[pw] == g@[j1]@[0];
                assert forall|q: int| 0 <= q < res@[c2]@.len() implies #[trigger] res@[c1]@[pw] < #[trigger] res@[c2]@[q] by {
                    assert(res@[c2]@[q] == sc@[j2]@[q]);
                    assert(g@[j2]@.contains(sc@[j2]@[q]));
                    let r2 = choose|r2: int| 0 <= r2 < g@[j2]@.len() && g@[j2]@[r2] == sc@[j2]@[q];
                    assert(g@[j2]@[0] <= g@[j2]@[r2]);
                    assert(g@[j1]@[0] < g@[j2]@[0]);
                }
            }
        }
    }
    proof {
        assert forall|c1: int, c2: int, p: int, q: int|
            0 <= c1 < res@.len() && 0 <= c2 < res@.len() && 0 <= p < res@[c1]@.len() && 0 <= q < res@[c2]@.len()
                implies (connected(adj@, #[trigger] res@[c1]@[p] as int, #[trigger] res@[c2]@[q] as int) <==> c1 == c2) by {
            if c1 != c2 && connected(adj@, res@[c1]@[p] as int, res@[c2]@[q] as int) {
                let k = choose|k: nat| #[trigger] reach_within(adj@, res@[c1]@[p] as int, k).contains(res@[c2]@[q] as int);
                lemma_reach_stays(adj@, res@, c1, res@[c1]@[p] as int, k, res@[c2]@[q] as int);
            }
        }
    }
    proof {
        lemma_clustering_view(terms@, adj@, res@);
    }
    res
}

/// A walk along the graph from a member of cluster `c` stays in `c` when no
/// edge leaves it.
proof fn lemma_reach_stays(adj: Seq<Vec<bool>>, cl: Seq<Vec<usize>>, c: int, s: int, k: nat, t: int)
    requires
        0 <= c < cl.len(),
        cl[c]@.contains(s as usize),
        0 <= s < adj.len(),
        adj.len() <= usize::MAX,
        forall|t: int| 0 <= t < adj.len() ==> #[trigger] clusters_hold(cl, t),
        forall|c1: int, p: int| 0 <= c1 < cl.len() && 0 <= p < cl[c1]@.len() ==> #[trigger] cl[c1]@[p] < adj.len(),
        forall|c1: int, c2: int, p: int, q: int|
            0 <= c1 < cl.len() && 0 <= c2 < cl.len() && c1 != c2 && 0 <= p < cl[c1]@.len() && 0 <= q
                < cl[c2]@.len() ==> #[trigger] cl[c1]@[p] != #[trigger] cl[c2]@[q],
        forall|c1: int, c2: int, p: int, q: int|
            0 <= c1 < cl.len() && 0 <= c2 < cl.len() && c1 != c2 && 0 <= p < cl[c1]@.len() && 0 <= q
                < cl[c2]@.len() ==> !edge(adj, #[trigger] cl[c1]@[p] as int, #[trigger] cl[c2]@[q] as int),
        reach_within(adj, s, k).contains(t),
    ensures
        cl[c]@.contains(t as usize),
        forall|c2: int, q: int| 0 <= c2 < cl.len() && c2 != c && 0 <= q < cl[c2]@.len() ==> #[trigger] cl[c2]@[q] != t,
    decreases k,
{
    lemma_reach_in_range(adj, s, k, t);
    if k == 0 {
        assert(t == s);
    } else {
        let prev = reach_within(adj, s, (k - 1) as nat);
        if prev.contains(t) {
            lemma_reach_stays(adj, cl, c, s, (k - 1) as nat, t);
        } else {
            let i = choose|i: int| 0 <= i < adj.len() && #[trigger] prev.contains(i) && edge(adj, i, t);
            lemma_reach_stays(adj, cl, c, s, (k - 1) as nat, i);
            assert(clusters_hold(cl, t));
            let (c2, q) = choose|c2: int, q: int| 0 <= c2 < cl.len() && 0 <= q < cl[c2]@.len() && #[trigger] cl[c2]@[q] == t;
            assert(cl[c]@.contains(i as usize));
            let pi = choose|pi: int| 0 <= pi < cl[c]@.len() && cl[c]@[pi] == i as usize;
            assert(cl[c]@[pi] as int == i);
            assert(cl[c2]@[q] as int == t);
            if c2 != c {
                assert(!edge(adj, cl[c]@[pi] as int, cl[c2]@[q] as int));
                assert(false);
            }
            assert(cl[c]@[q] == t as usize);
        }
    }
    assert forall|c2: int, q: int| 0 <= c2 < cl.len() && c2 != c && 0 <= q < cl[c2]@.len() implies #[trigger] cl[c2]@[q] != t by {
        assert(cl[c]@.contains(t as usize));
        let pt = choose|pt: int| 0 <= pt < cl[c]@.len() && cl[c]@[pt] == t as usize;
        assert(cl[c]@[pt] != cl[c2]@[q]);
        assert(cl[c]@[pt] as int == t);
    }
}

/// A walk in `from` carries over to `to` through a map `m` of terms that
/// keeps every edge.
proof fn lemma_reach_map(from: Seq<Vec<bool>>, to: Seq<Vec<bool>>, m: spec_fn(int) -> int, s: int, k: nat, t: int)
    requires
        forall|i: int| 0 <= i < from.len() ==> 0 <= #[trigger] m(i) < to.len(),
        forall|i: int, j: int|
            0 <= i < from.len() && 0 <= j < from.len() && #[trigger] edge(from, i, j) ==> edge(to, m(i), m(j)),
        reach_within(from, s, k).contains(t),
    ensures
        reach_within(to, m(s), k).contains(m(t)),
    decreases k,
{
    if k > 0 {
        let prev = reach_within(from, s, (k - 1) as nat);
        if prev.contains(t) {
            lemma_reach_map(from, to, m, s, (k - 1) as nat, t);
            lemma_reach_monotone(to, m(s), (k - 1) as nat, k);
        } else {
            let i = choose|i: int| 0 <= i < from.len() && #[trigger] prev.contains(i) && edge(from, i, t);
            lemma_reach_map(from, to, m, s, (k - 1) as nat, i);
            lemma_reach_step(to, m(s), (k - 1) as nat, m(i), m(t));
        }
    }
}

proof fn lemma_connected_map(from: Seq<Vec<bool>>, to: Seq<Vec<bool>>, m: spec_fn(int) -> int, s: int, t: int)
    requires
        forall|i: int| 0 <= i < from.len() ==> 0 <= #[trigger] m(i) < to.len(),
        forall|i: int, j: int|
            0 <= i < from.len() && 0 <= j < from.len() && #[trigger] edge(from, i, j) ==> edge(to, m(i), m(j)),
        connected(from, s, t),
    ensures
        connected(to, m(s), m(t)),
{
    let k = choose|k: nat| #[trigger] reach_within(from, s, k).contains(t);
    lemma_reach_map(from, to, m, s, k, t);
}

proof fn lemma_member_before_asymmetric(t: Seq<TermKey>, adj: Seq<Vec<bool>>, i: int, j: int)
    ensures
        member_before(t, adj, i, j) ==> !member_before(t, adj, j, i),
{
    lemma_lex_less_order(t[i].term@, t[j].term@, t[j].term@);
}

proof fn lemma_cluster_before_asymmetric(t: Seq<TermKey>, a: Seq<usize>, b: Seq<usize>)
    ensures
        cluster_before(t, a, b) ==> !cluster_before(t, b, a),
{
    lemma_lex_less_order(t[a[0] as int].term@, t[b[0] as int].term@, t[b[0] as int].term@);
    if cluster_before(t, a, b) && cluster_before(t, b, a) && !term_key_precedes(t, a[0] as int, b[0] as int) {
        let p = choose|p: int| 0 <= p < a.len() && forall|q: int| 0 <= q < b.len() ==> #[trigger] a[p] < #[trigger] b[q];
        let q = choose|q: int| 0 <= q < b.len() && forall|r: int| 0 <= r < a.len() ==> #[trigger] b[q] < #[trigger] a[r];
        assert(a[p] < b[q]);
        assert(b[q] < a[p]);
    }
}

/// Every cluster of `x` is a cluster of `y` when both cluster the same
/// terms under the same graph.
proof fn lemma_clustering_cover(terms: Seq<TermKey>, adj: Seq<Vec<bool>>, x: Seq<Seq<usize>>, y: Seq<Seq<usize>>)
    requires
        is_clustering(terms, adj, x),
        is_clustering(terms, adj, y),
    ensures
        forall|s: Seq<usize>| x.contains(s) ==> y.contains(s),
{
    let tb = |i: usize, j: usize| member_before(terms, adj, i as int, j as int);
    assert forall|i: usize, j: usize| #[trigger] tb(i, j) implies !tb(j, i) by {
        lemma_member_before_asymmetric(terms, adj, i as int, j as int);
    }
    assert forall|s: Seq<usize>| x.contains(s) implies y.contains(s) by {
        let c = choose|c: int| 0 <= c < x.len() && x[c] == s;
        let z0 = x[c][0];
        assert(in_clustering(y, z0 as int));
        let (d, r) = choose|d: int, r: int| 0 <= d < y.len() && 0 <= r < y[d].len() && #[trigger] y[d][r] == z0 as int;
        assert forall|z: usize| x[c].contains(z) <==> y[d].contains(z) by {
            if x[c].contains(z) {
                let p = choose|p: int| 0 <= p < x[c].len() && x[c][p] == z;
                assert(connected(adj, x[c][0] as int, x[c][p] as int));
                assert(in_clustering(y, z as int));
                let (d2, r2) = choose|d2: int, r2: int| 0 <= d2 < y.len() && 0 <= r2 < y[d2].len() && #[trigger] y[d2][r2] == z as int;
                assert(connected(adj, y[d][r] as int, y[d2][r2] as int));
                assert(y[d][r2] == z);
            }
            if y[d].contains(z) {
                let r2 = choose|r2: int| 0 <= r2 < y[d].len() && y[d][r2] == z;
                assert(connected(adj, y[d][r] as int, y[d][r2] as int));
                assert(in_clustering(x, z as int));
                let (c2, p2) = choose|c2: int, p2: int| 0 <= c2 < x.len() && 0 <= p2 < x[c2].len() && #[trigger] x[c2][p2] == z as int;
                assert(connected(adj, x[c][0] as int, x[c2][p2] as int));
                assert(x[c][p2] == z);
            }
        }
        assert(sorted_by(x[c], tb)) by {
            assert forall|i: int, j: int| 0 <= i < j < x[c].len() implies tb(#[trigger] x[c][i], #[trigger] x[c][j]) by {
                assert(member_before(terms, adj, x[c][i] as int, x[c][j] as int));
            }
        }
        assert(sorted_by(y[d], tb)) by {
            assert forall|i: int, j: int| 0 <= i < j < y[d].len() implies tb(#[trigger] y[d][i], #[trigger] y[d][j]) by {
                assert(member_before(terms, adj, y[d][i] as int, y[d][j] as int));
            }
        }
        lemma_sorted_unique(x[c], y[d], tb);
        assert(y[d] == s);
    }
}

/// The clustering of given terms under a given graph is unique: two
/// clusterings of the same terms and graph are equal.
pub proof fn lemma_clustering_unique(terms: Seq<TermKey>, adj: Seq<Vec<bool>>, x: Seq<Seq<usize>>, y: Seq<Seq<usize>>)
    requires
        is_clustering(terms, adj, x),
        is_clustering(terms, adj, y),
    ensures
        x == y,
{
    lemma_clustering_cover(terms, adj, x, y);
    lemma_clustering_cover(terms, adj, y, x);
    let cb = |a: Seq<usize>, b: Seq<usize>| cluster_before(terms, a, b);
    assert forall|a: Seq<usize>, b: Seq<usize>| #[trigger] cb(a, b) implies !cb(b, a) by {
        lemma_cluster_before_asymmetric(terms, a, b);
    }
    assert(sorted_by(x, cb)) by {
        assert forall|i: int, j: int| 0 <= i < j < x.len() implies cb(#[trigger] x[i], #[trigger] x[j]) by {
            assert(cluster_before(terms, x[i], x[j]));
        }
    }
    assert(sorted_by(y, cb)) by {
        assert forall|i: int, j: int| 0 <= i < j < y.len() implies cb(#[trigger] y[i], #[trigger] y[j]) by {
            assert(cluster_before(terms, y[i], y[j]));
        }
    }
    lemma_sorted_unique(x, y, cb);
}

/// Every member of `s` lies in one and the same cluster of `cl`.
pub open spec fn lies_within(cl: Seq<Seq<usize>>, s: Seq<usize>) -> bool {
    exists|c: int| #![trigger cl[c]] 0 <= c < cl.len() && forall|q: int| 0 <= q < s.len() ==> #[trigger] cl[c].contains(s[q])
}

/// Raising the similarity threshold only splits clusters: where every edge
/// of the sparser graph `adj2` is an edge of `adj1`, each cluster under
/// `adj2` lies within one cluster under `adj1`, and there are at least as
/// many clusters under `adj2`.
pub proof fn lemma_sparser_graph_splits_clusters(
    terms: Seq<TermKey>,
    adj1: Seq<Vec<bool>>,
    adj2: Seq<Vec<bool>>,
    a: Seq<Seq<usize>>,
    b: Seq<Seq<usize>>,
)
    requires
        adj1.len() == terms.len(),
        adj2.len() == terms.len(),
        graph_wf(adj1),
        graph_wf(adj2),
        forall|i: int, j: int|
            0 <= i < terms.len() && 0 <= j < terms.len() && #[trigger] edge(adj2, i, j) ==> edge(adj1, i, j),
        is_clustering(terms, adj1, a),
        is_clustering(terms, adj2, b),
    ensures
        forall|c2: int| 0 <= c2 < b.len() ==> lies_within(a, #[trigger] b[c2]),
        a.len() <= b.len(),
{
    let id = |i: int| i;
    assert forall|x: int, y: int| 0 <= x < terms.len() && 0 <= y < terms.len() && connected(adj2, x, y) implies connected(
        adj1,
        x,
        y,
    ) by {
        lemma_connected_map(adj2, adj1, id, x, y);
    }
    assert forall|c2: int| 0 <= c2 < b.len() implies lies_within(a, #[trigger] b[c2]) by {
        let x = b[c2][0];
        assert(in_clustering(a, x as int));
        let (c1, p) = choose|c1: int, p: int| 0 <= c1 < a.len() && 0 <= p < a[c1].len() && #[trigger] a[c1][p] == x as int;
        assert forall|q: int| 0 <= q < b[c2].len() implies #[trigger] a[c1].contains(b[c2][q]) by {
            let y = b[c2][q];
            assert(connected(adj2, b[c2][0] as int, b[c2][q] as int));
            assert(connected(adj1, x as int, y as int));
            assert(in_clustering(a, y as int));
            let (c3, r) = choose|c3: int, r: int| 0 <= c3 < a.len() && 0 <= r < a[c3].len() && #[trigger] a[c3][r] == y as int;
            assert(connected(adj1, a[c1][p] as int, a[c3][r] as int));
            assert(a[c1][r] == y);
        }
    }
    // Each cluster of `a` goes to the cluster of `b` that holds its first
    // member; no two go to the same one.
    let f = |c1: int| choose|c2: int| 0 <= c2 < b.len() && b[c2].contains(a[c1][0]);
    assert forall|c1: int| 0 <= c1 < a.len() implies 0 <= #[trigger] f(c1) < b.len() && b[f(c1)].contains(a[c1][0]) by {
        assert(in_clustering(b, a[c1][0] as int));
        let (c2, q) = choose|c2: int, q: int| 0 <= c2 < b.len() && 0 <= q < b[c2].len() && #[trigger] b[c2][q] == a[c1][0] as int;
        assert(b[c2].contains(a[c1][0]));
    }
    let dom = vstd::set_lib::set_int_range(0, a.len() as int);
    assert(vstd::relations::injective_on(f, dom)) by {
        assert forall|c1: int, c3: int| dom.contains(c1) && dom.contains(c3) && #[trigger] f(c1) == #[trigger] f(c3) implies c1
            == c3 by {
            let c2 = f(c1);
            assert(b[c2].contains(a[c1][0]));
            assert(b[c2].contains(a[c3][0]));
            let p = choose|p: int| 0 <= p < b[c2].len() && b[c2][p] == a[c1][0];
            let q = choose|q: int| 0 <= q < b[c2].len() && b[c2][q] == a[c3][0];
            assert(connected(adj2, b[c2][p] as int, b[c2][q] as int));
            assert(connected(adj1, a[c1][0] as int, a[c3][0] as int));
        }
    }
    let img = dom.map(f);
    vstd::set_lib::lemma_int_range(0, a.len() as int);
    vstd::set_lib::lemma_map_size(dom, img, f);
    let range = vstd::set_lib::set_int_range(0, b.len() as int);
    vstd::set_lib::lemma_int_range(0, b.len() as int);
    assert(img.subset_of(range));
    vstd::set_lib::lemma_len_subset(img, range);
}

/// The terms of `terms2` are those of `terms1` listed by `sigma`, a
/// permutation of the indices: term `i` of `terms2` is term `sigma[i]` of
/// `terms1`, and the graph `adj2` joins two terms when `adj1` joins them.
pub open spec fn relisted(
    terms1: Seq<TermKey>,
    adj1: Seq<Vec<bool>>,
    terms2: Seq<TermKey>,
    adj2: Seq<Vec<bool>>,
    sigma: Seq<usize>,
) -> bool {
    &&& adj1.len() == terms1.len()
    &&& terms2.len() == terms1.len()
    &&& adj2.len() == terms1.len()
    &&& sigma.len() == terms1.len()
    &&& forall|i: int| 0 <= i < sigma.len() ==> #[trigger] sigma[i] < sigma.len()
    &&& forall|i: int, j: int|
        0 <= i < sigma.len() && 0 <= j < sigma.len() && i != j ==> #[trigger] sigma[i] != #[trigger] sigma[j]
    &&& forall|i: int|
        0 <= i < terms2.len() ==> {
            &&& (#[trigger] terms2[i]).score_key == terms1[sigma[i] as int].score_key
            &&& terms2[i].count == terms1[sigma[i] as int].count
            &&& terms2[i].term@ == terms1[sigma[i] as int].term@
        }
    &&& forall|i: int, j: int|
        0 <= i < terms1.len() && 0 <= j < terms1.len() ==> #[trigger] edge(adj2, i, j) == edge(
            adj1,
            sigma[i] as int,
            sigma[j] as int,
        )
}

/// Relisting the terms relists the clustering: the clusters of the
/// relisted terms, each member taken back through `sigma`, are a clustering
/// of the original terms, provided no two terms have the same text.
proof fn lemma_relisted_clustering(
    terms1: Seq<TermKey>,
    adj1: Seq<Vec<bool>>,
    terms2: Seq<TermKey>,
    adj2: Seq<Vec<bool>>,
    sigma: Seq<usize>,
    b: Seq<Seq<usize>>,
)
    requires
        relisted(terms1, adj1, terms2, adj2, sigma),
        forall|i: int, j: int|
            0 <= i < terms1.len() && 0 <= j < terms1.len() && i != j ==> (#[trigger] terms1[i]).term@
                != (#[trigger] terms1[j]).term@,
        is_clustering(terms2, adj2, b),
    ensures
        is_clustering(terms1, adj1, b.map_values(|m: Seq<usize>| m.map_values(|x: usize| sigma[x as int]))),
{
    let n = terms1.len();
    let fwd = |i: int| sigma[i] as int;
    // `sigma` is onto, so it has an inverse `bwd`.
    let dom = vstd::set_lib::set_int_range(0, n as int);
    assert(vstd::relations::injective_on(fwd, dom)) by {
        assert forall|i: int, j: int| dom.contains(i) && dom.contains(j) && #[trigger] fwd(i) == #[trigger] fwd(j) implies i
            == j by {
            if i != j {
                assert(sigma[i] != sigma[j]);
            }
        }
    }
    let img = dom.map(fwd);
    vstd::set_lib::lemma_int_range(0, n as int);
    vstd::set_lib::lemma_map_size(dom, img, fwd);
    assert(img.subset_of(dom)) by {
        assert forall|t: int| img.contains(t) implies dom.contains(t) by {
            let i = choose|i: int| dom.contains(i) && t == fwd(i);
            assert(sigma[i] < n);
        }
    }
    vstd::set_lib::lemma_subset_equality(img, dom);
    let bwd = |t: int| choose|i: int| 0 <= i < n && sigma[i] as int == t;
    assert forall|t: int| 0 <= t < n implies 0 <= #[trigger] bwd(t) < n && sigma[bwd(t)] as int == t by {
        assert(img.contains(t));
        let i = choose|i: int| dom.contains(i) && t == fwd(i);
        assert(0 <= i < n && sigma[i] as int == t);
    }
    assert forall|x: int| 0 <= x < n implies 0 <= #[trigger] fwd(x) < n by {
        assert(sigma[x] < n);
    }
    assert forall|i: int| 0 <= i < n implies #[trigger] bwd(fwd(i)) == i by {
        let j = bwd(fwd(i));
        if j != i {
            assert(sigma[j] != sigma[i]);
        }
    }
    assert forall|i: int, j: int| 0 <= i < n && 0 <= j < n && #[trigger] edge(adj2, i, j) implies edge(
        adj1,
        fwd(i),
        fwd(j),
    ) by {}
    assert forall|u: int, v: int| 0 <= u < n && 0 <= v < n && #[trigger] edge(adj1, u, v) implies edge(
        adj2,
        bwd(u),
        bwd(v),
    ) by {
        assert(edge(adj2, bwd(u), bwd(v)) == edge(adj1, sigma[bwd(u)] as int, sigma[bwd(v)] as int));
    }
    assert forall|x: int, y: int| 0 <= x < n && 0 <= y < n implies (connected(adj2, x, y) <==> connected(
        adj1,
        #[trigger] fwd(x),
        #[trigger] fwd(y),
    )) by {
        if connected(adj2, x, y) {
            lemma_connected_map(adj2, adj1, fwd, x, y);
        }
        if connected(adj1, fwd(x), fwd(y)) {
            lemma_connected_map(adj1, adj2, bwd, fwd(x), fwd(y));
        }
    }
    let bm = b.map_values(|m: Seq<usize>| m.map_values(|x: usize| sigma[x as int]));
    assert forall|c: int| 0 <= c < b.len() implies (#[trigger] bm[c]).len() == b[c].len() && forall|p: int|
        0 <= p < b[c].len() ==> #[trigger] bm[c][p] == sigma[b[c][p] as int] by {}
    assert forall|c: int, p: int| 0 <= c < bm.len() && 0 <= p < bm[c].len() implies #[trigger] bm[c][p] < terms1.len() by {
        assert(b[c][p] < n);
        assert(sigma[b[c][p] as int] < n);
    }
    assert forall|t: int| 0 <= t < n implies #[trigger] in_clustering(bm, t) by {
        let i = bwd(t);
        assert(in_clustering(b, i));
        let (c, p) = choose|c: int, p: int| 0 <= c < b.len() && 0 <= p < b[c].len() && #[trigger] b[c][p] == i;
        assert(bm[c][p] == t);
    }
    assert forall|c1: int, c2: int, p: int, q: int|
        0 <= c1 < bm.len() && 0 <= c2 < bm.len() && 0 <= p < bm[c1].len() && 0 <= q < bm[c2].len() implies {
            &&& c1 != c2 ==> #[trigger] bm[c1][p] != #[trigger] bm[c2][q]
            &&& c1 != c2 ==> !edge(adj1, bm[c1][p] as int, bm[c2][q] as int)
            &&& (connected(adj1, bm[c1][p] as int, bm[c2][q] as int) <==> c1 == c2)
        } by {
        let x = b[c1][p] as int;
        let y = b[c2][q] as int;
        assert(x < n && y < n);
        assert(bm[c1][p] as int == fwd(x));
        assert(bm[c2][q] as int == fwd(y));
        if c1 != c2 {
            assert(b[c1][p] != b[c2][q]);
            assert(sigma[x] != sigma[y]);
            assert(!edge(adj2, x, y));
        }
        assert(connected(adj2, b[c1][p] as int, b[c2][q] as int) <==> c1 == c2);
    }
    assert forall|c: int, p: int, q: int| 0 <= c < bm.len() && 0 <= p < bm[c].len() && 0 <= q < bm[c].len() implies connected(
        adj1,
        #[trigger] bm[c][p] as int,
        #[trigger] bm[c][q] as int,
    ) by {
        let x = b[c][p] as int;
        let y = b[c][q] as int;
        assert(connected(adj2, b[c][p] as int, b[c][q] as int));
        assert(bm[c][p] as int == fwd(x));
        assert(bm[c][q] as int == fwd(y));
    }
    assert forall|c: int, p: int, q: int| 0 <= c < bm.len() && 0 <= p < q < bm[c].len() implies member_before(
        terms1, adj1,
        #[trigger] bm[c][p] as int,
        #[trigger] bm[c][q] as int,
    ) by {
        let x = b[c][p] as int;
        let y = b[c][q] as int;
        assert(member_before(terms2, adj2, b[c][p] as int, b[c][q] as int));
        assert(x < n && y < n);
        let t2x = terms2[x];
        let t2y = terms2[y];
        lemma_lex_less_order(t2x.term@, t2y.term@, t2y.term@);
        if x != y {
            assert(sigma[x] != sigma[y]);
            assert(terms1[sigma[x] as int].term@ != terms1[sigma[y] as int].term@);
        }
    }
    assert forall|c1: int, c2: int| 0 <= c1 < c2 < bm.len() implies cluster_before(terms1, #[trigger] bm[c1], #[trigger] bm[c2]) by {
        let x = b[c1][0] as int;
        let y = b[c2][0] as int;
        assert(b[c1][0] != b[c2][0]);
        assert(cluster_before(terms2, b[c1], b[c2]));
        assert(x < n && y < n);
        let t2x = terms2[x];
        let t2y = terms2[y];
        assert(sigma[x] != sigma[y]);
        assert(terms1[sigma[x] as int].term@ != terms1[sigma[y] as int].term@);
        assert(bm[c1][0] == sigma[x]);
        assert(bm[c2][0] == sigma[y]);
    }
}

/// Listing the vocabulary in another order does not change the clusters
/// when no two terms have the same text: the clusters of the relisted terms
/// hold the same terms, cluster by cluster and member by member, in the
/// same order.
pub proof fn lemma_term_order_irrelevant(
    terms1: Seq<TermKey>,
    adj1: Seq<Vec<bool>>,
    a: Seq<Seq<usize>>,
    terms2: Seq<TermKey>,
    adj2: Seq<Vec<bool>>,
    b: Seq<Seq<usize>>,
    sigma: Seq<usize>,
)
    requires
        relisted(terms1, adj1, terms2, adj2, sigma),
        graph_wf(adj1),
        graph_wf(adj2),
        forall|i: int, j: int|
            0 <= i < terms1.len() && 0 <= j < terms1.len() && i != j ==> (#[trigger] terms1[i]).term@
                != (#[trigger] terms1[j]).term@,
        is_clustering(terms1, adj1, a),
        is_clustering(terms2, adj2, b),
    ensures
        a.len() == b.len(),
        forall|c: int| 0 <= c < a.len() ==> (#[trigger] a[c]).len() == b[c].len(),
        forall|c: int, p: int| 0 <= c < a.len() && 0 <= p < a[c].len() ==> #[trigger] a[c][p] == sigma[b[c][p] as int],
{
    lemma_relisted_clustering(terms1, adj1, terms2, adj2, sigma, b);
    let bm = b.map_values(|m: Seq<usize>| m.map_values(|x: usize| sigma[x as int]));
    lemma_clustering_unique(terms1, adj1, a, bm);
    assert forall|c: int, p: int| 0 <= c < a.len() && 0 <= p < a[c].len() implies #[trigger] a[c][p] == sigma[b[c][p] as int] by {
        assert(a[c] == bm[c]);
    }
}

} // verus!
