//! Orders on ranking keys and a verified sort of entries by them.
//!
//! A `RankKey` holds what the commands order by: two integer keys compared
//! from high to low (scores and counts, with each floating-point score given
//! as an order-preserving integer), then two strings compared from low to
//! high by code point (as `String`'s `Ord` does, since UTF-8 keeps code
//! point order). An entry names a key and a distinct tie-breaker that orders
//! entries with equal keys from low to high.
use vstd::prelude::*;

verus! {

/// `a` sorts strictly before `b` in code point order (`String`'s `<`).
pub open spec fn lex_less(a: Seq<char>, b: Seq<char>) -> bool
    decreases a.len(),
{
    if a.len() == 0 {
        b.len() > 0
    } else if b.len() == 0 {
        false
    } else if a[0] != b[0] {
        (a[0] as int) < (b[0] as int)
    } else {
        lex_less(a.drop_first(), b.drop_first())
    }
}

/// `lex_less` is a strict total order.
pub proof fn lemma_lex_less_order(a: Seq<char>, b: Seq<char>, c: Seq<char>)
    ensures
        !lex_less(a, a),
        lex_less(a, b) ==> !lex_less(b, a),
        a != b ==> lex_less(a, b) || lex_less(b, a),
        lex_less(a, b) && lex_less(b, c) ==> lex_less(a, c),
    decreases a.len(),
{
    if a.len() > 0 {
        lemma_lex_less_order(a.drop_first(), a.drop_first(), a.drop_first());
        if b.len() > 0 {
            lemma_lex_less_order(a.drop_first(), b.drop_first(), b.drop_first());
            if c.len() > 0 {
                lemma_lex_less_order(a.drop_first(), b.drop_first(), c.drop_first());
            }
            if a[0] != b[0] {
                assert((a[0] as int) != (b[0] as int));
            }
            if a != b && a[0] == b[0] {
                assert(a.drop_first() != b.drop_first()) by {
                    if a.drop_first() == b.drop_first() {
                        assert(a =~= seq![a[0]] + a.drop_first());
                        assert(b =~= seq![b[0]] + b.drop_first());
                    }
                }
            }
        }
    } else {
        if b.len() == 0 {
            assert(a =~= b);
        }
    }
}

/// Whether `a` sorts strictly before `b` in code point order.
pub fn lex_less_exec(a: &Vec<char>, b: &Vec<char>) -> (r: bool)
    ensures
        r == lex_less(a@, b@),
{
    let mut i: usize = 0;
    assert(a@.skip(0) =~= a@);
    assert(b@.skip(0) =~= b@);
    loop
        invariant
            i <= a@.len(),
            i <= b@.len(),
            lex_less(a@, b@) == lex_less(a@.skip(i as int), b@.skip(i as int)),
        decreases a@.len() - i,
    {
        if i == a.len() {
            return i < b.len();
        }
        if i == b.len() {
            return false;
        }
        let x = a[i];
        let y = b[i];
        assert(a@.skip(i as int)[0] == x);
        assert(b@.skip(i as int)[0] == y);
        if x != y {
            return x < y;
        }
        assert(a@.skip(i as int).drop_first() =~= a@.skip(i + 1));
        assert(b@.skip(i as int).drop_first() =~= b@.skip(i + 1));
        i = i + 1;
    }
}

/// A ranking key: `primary` and `secondary` rank high before low, then
/// `first` and `second` rank in code point order.
pub struct RankKey {
    pub primary: u64,
    pub secondary: u64,
    pub first: Vec<char>,
    pub second: Vec<char>,
}

/// `a` ranks strictly before `b`.
pub open spec fn key_precedes(a: RankKey, b: RankKey) -> bool {
    ||| a.primary > b.primary
    ||| a.primary == b.primary && a.secondary > b.secondary
    ||| a.primary == b.primary && a.secondary == b.secondary && lex_less(a.first@, b.first@)
    ||| a.primary == b.primary && a.secondary == b.secondary && a.first@ == b.first@ && lex_less(
        a.second@,
        b.second@,
    )
}

/// `a` and `b` rank equally.
pub open spec fn key_same(a: RankKey, b: RankKey) -> bool {
    a.primary == b.primary && a.secondary == b.secondary && a.first@ == b.first@ && a.second@
        == b.second@
}

/// Exactly one of `key_precedes(a, b)`, `key_precedes(b, a)` and
/// `key_same(a, b)` holds, and `key_precedes` is transitive.
pub proof fn lemma_key_order(a: RankKey, b: RankKey, c: RankKey)
    ensures
        !key_precedes(a, a),
        key_same(a, a),
        key_precedes(a, b) ==> !key_precedes(b, a) && !key_same(a, b),
        key_precedes(a, b) || key_precedes(b, a) || key_same(a, b),
        key_precedes(a, b) && key_precedes(b, c) ==> key_precedes(a, c),
        key_precedes(a, b) && key_same(b, c) ==> key_precedes(a, c),
        key_same(a, b) && key_precedes(b, c) ==> key_precedes(a, c),
        key_same(a, b) && key_same(b, c) ==> key_same(a, c),
        key_same(a, b) ==> key_same(b, a),
{
    lemma_lex_less_order(a.first@, b.first@, c.first@);
    lemma_lex_less_order(a.second@, b.second@, c.second@);
    lemma_lex_less_order(b.first@, a.first@, c.first@);
    lemma_lex_less_order(b.second@, a.second@, c.second@);
}

/// Whether key `a` ranks strictly before key `b`.
pub fn key_precedes_exec(a: &RankKey, b: &RankKey) -> (r: bool)
    ensures
        r == key_precedes(*a, *b),
{
    proof {
        lemma_lex_less_order(a.first@, b.first@, b.first@);
    }
    if a.primary != b.primary {
        return a.primary > b.primary;
    }
    if a.secondary != b.secondary {
        return a.secondary > b.secondary;
    }
    if lex_less_exec(&a.first, &b.first) {
        return true;
    }
    if lex_less_exec(&b.first, &a.first) {
        return false;
    }
    lex_less_exec(&a.second, &b.second)
}

/// Whether keys `a` and `b` rank equally.
pub fn key_same_exec(a: &RankKey, b: &RankKey) -> (r: bool)
    ensures
        r == key_same(*a, *b),
{
    proof {
        lemma_key_order(*a, *b, *b);
    }
    !key_precedes_exec(a, b) && !key_precedes_exec(b, a)
}

/// Entry `a` (a key index and a tie-breaker) sorts before entry `b`: its key
/// ranks first, or the keys rank equally and its tie-breaker is smaller.
pub open spec fn entry_before(keys: Seq<RankKey>, a: (usize, usize), b: (usize, usize)) -> bool {
    ||| key_precedes(keys[a.0 as int], keys[b.0 as int])
    ||| key_same(keys[a.0 as int], keys[b.0 as int]) && a.1 < b.1
}

/// Every pair of positions in `s` is in `entry_before` order.
pub open spec fn entries_sorted(keys: Seq<RankKey>, s: Seq<(usize, usize)>) -> bool {
    forall|i: int, j: int| 0 <= i < j < s.len() ==> entry_before(keys, #[trigger] s[i], #[trigger] s[j])
}

/// Every element of `s` is one of the first `i` entries.
pub open spec fn drawn_from(s: Seq<(usize, usize)>, entries: Seq<(usize, usize)>, i: int) -> bool {
    forall|a: int| 0 <= a < s.len() ==> exists|j: int| 0 <= j < i && #[trigger] s[a] == entries[j]
}

/// Entries name keys that exist and carry pairwise distinct tie-breakers.
pub open spec fn entries_wf(keys: Seq<RankKey>, s: Seq<(usize, usize)>) -> bool {
    &&& forall|i: int| 0 <= i < s.len() ==> (#[trigger] s[i]).0 < keys.len()
    &&& forall|i: int, j: int| 0 <= i < s.len() && 0 <= j < s.len() && i != j ==> (#[trigger] s[i]).1 != (#[trigger] s[j]).1
}

/// `entry_before` is a strict total order on entries with distinct
/// tie-breakers.
pub proof fn lemma_entry_order(keys: Seq<RankKey>, a: (usize, usize), b: (usize, usize), c: (usize, usize))
    ensures
        !entry_before(keys, a, a),
        entry_before(keys, a, b) ==> !entry_before(keys, b, a),
        a.1 != b.1 ==> entry_before(keys, a, b) || entry_before(keys, b, a),
        entry_before(keys, a, b) && entry_before(keys, b, c) ==> entry_before(keys, a, c),
{
    let ka = keys[a.0 as int];
    let kb = keys[b.0 as int];
    let kc = keys[c.0 as int];
    lemma_key_order(ka, kb, kc);
    lemma_key_order(kb, ka, kc);
    lemma_key_order(ka, ka, ka);
}

/// Whether entry `a` sorts before entry `b`.
pub fn entry_before_exec(keys: &Vec<RankKey>, a: (usize, usize), b: (usize, usize)) -> (r: bool)
    requires
        a.0 < keys@.len(),
        b.0 < keys@.len(),
    ensures
        r == entry_before(keys@, a, b),
{
    let ka = &keys[a.0];
    let kb = &keys[b.0];
    if key_precedes_exec(ka, kb) {
        return true;
    }
    key_same_exec(ka, kb) && a.1 < b.1
}

/// The entries sorted by `entry_before` (an insertion sort). With distinct
/// tie-breakers the order is total, so the result is the one sorted
/// arrangement of the entries.
pub fn sort_entries(keys: &Vec<RankKey>, entries: &Vec<(usize, usize)>) -> (res: Vec<(usize, usize)>)
    requires
        entries_wf(keys@, entries@),
    ensures
        res@.len() == entries@.len(),
        forall|i: int| 0 <= i < res@.len() ==> entries@.contains(#[trigger] res@[i]),
        forall|j: int| 0 <= j < entries@.len() ==> res@.contains(#[trigger] entries@[j]),
        entries_sorted(keys@, res@),
{
    let n = entries.len();
    let mut res: Vec<(usize, usize)> = Vec::new();
    let mut i: usize = 0;
    while i < n
        invariant
            i <= n == entries@.len(),
            entries_wf(keys@, entries@),
            res@.len() == i,
            drawn_from(res@, entries@, i as int),
            forall|j: int| 0 <= j < i ==> res@.contains(#[trigger] entries@[j]),
            entries_sorted(keys@, res@),
        decreases n - i,
    {
        let e = entries[i];
        let mut p: usize = 0;
        while p < res.len() && !entry_before_exec(keys, e, res[p])
            invariant
                p <= res@.len(),
                i < n == entries@.len(),
                e == entries@[i as int],
                entries_wf(keys@, entries@),
                drawn_from(res@, entries@, i as int),
                forall|a: int| 0 <= a < p ==> !entry_before(keys@, e, #[trigger] res@[a]),
            decreases res@.len() - p,
        {
            p = p + 1;
        }
        let ghost old_res = res@;
        proof {
            assert forall|a: int| 0 <= a < p implies entry_before(keys@, #[trigger] old_res[a], e) by {
                let j = choose|j: int| 0 <= j < i && old_res[a] == entries@[j];
                lemma_entry_order(keys@, old_res[a], e, e);
                assert(entries@[j].1 != entries@[i as int].1);
            }
            assert forall|a: int| p <= a < old_res.len() implies entry_before(keys@, e, #[trigger] old_res[a]) by {
                if a > p {
                    lemma_entry_order(keys@, e, old_res[p as int], old_res[a]);
                }
            }
        }
        res.insert(p, e);
        proof {
            old_res.insert_ensures(p as int, e);
            assert forall|x: int, y: int| 0 <= x < y < res@.len() implies entry_before(
                keys@,
                #[trigger] res@[x],
                #[trigger] res@[y],
            ) by {
                if y < p {
                } else if y == p {
                } else if x < p {
                    assert(res@[y] == old_res[y - 1]);
                } else if x == p {
                    assert(res@[y] == old_res[y - 1]);
                } else {
                    assert(res@[x] == old_res[x - 1]);
                    assert(res@[y] == old_res[y - 1]);
                }
            }
            assert forall|a: int| 0 <= a < res@.len() implies exists|j: int|
                0 <= j < i + 1 && #[trigger] res@[a] == entries@[j] by {
                assert(drawn_from(old_res, entries@, i as int));
                if a < p {
                    assert(res@[a] == old_res[a]);
                } else if a == p {
                    assert(res@[a] == entries@[i as int]);
                } else {
                    assert(res@[a] == old_res[a - 1]);
                }
            }
            assert forall|j: int| 0 <= j < i + 1 implies res@.contains(#[trigger] entries@[j]) by {
                if j == i {
                    assert(res@[p as int] == entries@[j]);
                } else {
                    assert(old_res.contains(entries@[j]));
                    let a = choose|a: int| 0 <= a < old_res.len() && old_res[a] == entries@[j];
                    if a < p {
                        assert(res@[a] == old_res[a]);
                    } else {
                        assert(res@[a + 1] == old_res[a]);
                    }
                }
            }
        }
        assert(drawn_from(res@, entries@, i + 1));
        i = i + 1;
    }
    proof {
        assert forall|a: int| 0 <= a < res@.len() implies entries@.contains(#[trigger] res@[a]) by {
            assert(drawn_from(res@, entries@, n as int));
            let j = choose|j: int| 0 <= j < n && res@[a] == entries@[j];
        }
    }
    res
}

/// Every pair of positions in `s` is in `before` order.
pub open spec fn sorted_by<A>(s: Seq<A>, before: spec_fn(A, A) -> bool) -> bool {
    forall|i: int, j: int| 0 <= i < j < s.len() ==> before(#[trigger] s[i], #[trigger] s[j])
}

proof fn lemma_sorted_prefix<A>(s: Seq<A>, t: Seq<A>, before: spec_fn(A, A) -> bool, p: int)
    requires
        forall|x: A, y: A| #[trigger] before(x, y) ==> !before(y, x),
        sorted_by(s, before),
        sorted_by(t, before),
        forall|x: A| s.contains(x) <==> t.contains(x),
        0 <= p < s.len(),
        p < t.len(),
    ensures
        forall|q: int| 0 <= q <= p ==> #[trigger] s[q] == t[q],
    decreases p,
{
    if p > 0 {
        lemma_sorted_prefix(s, t, before, p - 1);
    }
    let x = s[p];
    let y = t[p];
    if x != y {
        assert(s.contains(x));
        assert(t.contains(x));
        let r = choose|r: int| 0 <= r < t.len() && t[r] == x;
        assert(t.contains(y));
        assert(s.contains(y));
        let q = choose|q: int| 0 <= q < s.len() && s[q] == y;
        if r < p {
            assert(s[r] == t[r]);
            assert(before(s[r], s[p]));
        } else if q < p {
            assert(s[q] == t[q]);
            assert(before(t[q], t[p]));
        } else {
            assert(before(t[p], t[r]));
            assert(before(s[p], s[q]));
        }
    }
}

/// Two sequences sorted by the same asymmetric order, holding the same
/// elements, are equal.
pub proof fn lemma_sorted_unique<A>(s: Seq<A>, t: Seq<A>, before: spec_fn(A, A) -> bool)
    requires
        forall|x: A, y: A| #[trigger] before(x, y) ==> !before(y, x),
        sorted_by(s, before),
        sorted_by(t, before),
        forall|x: A| s.contains(x) <==> t.contains(x),
    ensures
        s == t,
{
    let m = if s.len() < t.len() { s.len() } else { t.len() };
    if m > 0 {
        lemma_sorted_prefix(s, t, before, m - 1);
    }
    if s.len() > t.len() {
        let x = s[m as int];
        assert(s.contains(x));
        let r = choose|r: int| 0 <= r < t.len() && t[r] == x;
        assert(s[r] == t[r]);
        assert(before(s[r], s[m as int]));
    } else if t.len() > s.len() {
        let x = t[m as int];
        assert(t.contains(x));
        let r = choose|r: int| 0 <= r < s.len() && s[r] == x;
        assert(s[r] == t[r]);
        assert(before(t[r], t[m as int]));
    }
    assert(s =~= t);
}

/// Keeping the elements of a sorted sequence that satisfy `keep` leaves a
/// sorted sequence.
pub proof fn lemma_filter_sorted<A>(s: Seq<A>, keep: spec_fn(A) -> bool, before: spec_fn(A, A) -> bool)
    requires
        sorted_by(s, before),
    ensures
        sorted_by(s.filter(keep), before),
    decreases s.len(),
{
    reveal(Seq::filter);
    if s.len() > 0 {
        let rest = s.drop_last();
        assert(sorted_by(rest, before)) by {
            assert forall|i: int, j: int| 0 <= i < j < rest.len() implies before(#[trigger] rest[i], #[trigger] rest[j]) by {
                assert(rest[i] == s[i] && rest[j] == s[j]);
            }
        }
        lemma_filter_sorted(rest, keep, before);
        let f = rest.filter(keep);
        if keep(s.last()) {
            let g = f.push(s.last());
            assert(s.filter(keep) == g);
            assert forall|i: int, j: int| 0 <= i < j < g.len() implies before(#[trigger] g[i], #[trigger] g[j]) by {
                if j == g.len() - 1 {
                    assert(g[i] == f[i]);
                    assert(f.contains(f[i]));
                    rest.lemma_filter_contains_rev(keep, f[i]);
                    let k = choose|k: int| 0 <= k < rest.len() && rest[k] == f[i];
                    assert(s[k] == rest[k]);
                    assert(before(s[k], s[s.len() - 1]));
                } else {
                    assert(g[i] == f[i] && g[j] == f[j]);
                }
            }
        }
    }
}

} // verus!
