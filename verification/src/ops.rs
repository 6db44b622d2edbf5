//! The rules of `wyrd`'s commands that stand apart from embeddings and
//! floating point: path resolution, document excerpts, warnings and the
//! ordering of reranked results and refined duplicate pairs.
use vstd::prelude::*;

use crate::ranking::{RankKey, entry_before, lex_less, sort_entries};
use crate::text::chars_of;

pub use crate::text::normalize_excerpt;

verus! {

/// Maximum normalized characters embedded per document by default.
pub const DEFAULT_DOC_MAX_CHARS: usize = 4000;

/// The message shown when no embedding model is configured.
pub fn missing_model_message() -> (res: &'static str)
    ensures
        res@ == "embeddings are unavailable. Set WYRD_EMBEDDING_MODEL to the ONNX file and optionally WYRD_EMBEDDING_TOKENIZER to tokenizer.json."@,
{
    "embeddings are unavailable. Set WYRD_EMBEDDING_MODEL to the ONNX file and optionally WYRD_EMBEDDING_TOKENIZER to tokenizer.json."
}

/// Whether a (Unix) path is absolute: it starts at the root `/`.
pub open spec fn is_absolute_path(p: Seq<char>) -> bool {
    p.len() > 0 && p[0] == '/'
}

/// `root.join(value)` for Unix paths: an absolute `value` replaces `root`;
/// otherwise `value` is appended, with a `/` between the two unless `root`
/// is empty or already ends in one.
pub open spec fn joined_path(root: Seq<char>, value: Seq<char>) -> Seq<char> {
    if is_absolute_path(value) {
        value
    } else if root.len() > 0 && root.last() != '/' {
        root + seq!['/'] + value
    } else {
        root + value
    }
}

/// The places a result path is looked for, in order: `value` joined to
/// `root`, then, for a relative `value`, `value` under `/` (the rootless
/// absolute-style paths that `yore` can emit).
pub open spec fn candidate_paths(root: Seq<char>, value: Seq<char>) -> Seq<Seq<char>> {
    if is_absolute_path(value) {
        seq![value]
    } else {
        seq![joined_path(root, value), seq!['/'] + value]
    }
}

/// Resolves a result path against `root`: absolute paths stand as they are,
/// relative ones are joined to `root`.
pub fn resolve_path(root: &str, value: &str) -> (res: String)
    ensures
        res@ == joined_path(root@, value@),
{
    let root_chars = crate::text::chars_of(root);
    let value_chars = crate::text::chars_of(value);
    if value_chars.len() > 0 && value_chars[0] == '/' {
        return value.to_owned();
    }
    let mut res = root.to_owned();
    if root_chars.len() > 0 && root_chars[root_chars.len() - 1] != '/' {
        res.append("/");
        proof {
            reveal_strlit("/");
        }
    }
    res.append(value);
    res
}

/// The candidate read: the first of the `count` candidates, from `from` on,
/// whose flag says it exists (a missing flag counts as "does not exist"), or
/// the first candidate (`0`) when none does.
pub open spec fn first_existing(exists: Seq<bool>, from: int, count: int) -> int
    decreases count - from,
{
    if from >= count {
        0
    } else if from < exists.len() && exists[from] {
        from
    } else {
        first_existing(exists, from + 1, count)
    }
}

/// The path a result file is read from: the first of `path_candidates`
/// that exists (`exists[k]` tells whether candidate `k` does), else the
/// first candidate, whose read then fails.
pub fn path_to_read(root: &str, value: &str, exists: &Vec<bool>) -> (res: String)
    ensures
        res@ == candidate_paths(root@, value@)[first_existing(exists@, 0, candidate_paths(root@, value@).len() as int)],
{
    let candidates = path_candidates(root, value);
    let count = candidates.len();
    let ghost cands = candidate_paths(root@, value@);
    let mut k: usize = 0;
    while k < count
        invariant
            count == candidates@.len() == cands.len(),
            cands == candidate_paths(root@, value@),
            count > 0,
            k <= count,
            forall|j: int| 0 <= j < count ==> #[trigger] candidates@[j]@ == cands[j],
            first_existing(exists@, 0, count as int) == first_existing(exists@, k as int, count as int),
        decreases count - k,
    {
        if k < exists.len() && exists[k] {
            assert(first_existing(exists@, k as int, count as int) == k);
            let chosen = candidates[k].clone();
            assert(chosen@ == cands[k as int]);
            return chosen;
        }
        k = k + 1;
    }
    assert(first_existing(exists@, count as int, count as int) == 0);
    let chosen = candidates[0].clone();
    assert(chosen@ == cands[0]);
    chosen
}

/// Every path at which a result file is looked for, in the order tried.
pub fn path_candidates(root: &str, value: &str) -> (res: Vec<String>)
    ensures
        res@.len() == candidate_paths(root@, value@).len(),
        forall|k: int| 0 <= k < res@.len() ==> #[trigger] res@[k]@ == candidate_paths(root@, value@)[k],
{
    let mut res: Vec<String> = Vec::new();
    let first = resolve_path(root, value);
    let value_chars = crate::text::chars_of(value);
    res.push(first);
    if !(value_chars.len() > 0 && value_chars[0] == '/') {
        let mut under_root = "/".to_owned();
        proof {
            reveal_strlit("/");
        }
        under_root.append(value);
        res.push(under_root);
    }
    res
}

/// Reranked result `i` ranks before result `j`: its combined-score key is
/// higher, or the keys are equal and it came first in `yore`'s order.
pub open spec fn rerank_before(keys: Seq<u64>, i: int, j: int) -> bool {
    keys[i] > keys[j] || (keys[i] == keys[j] && i < j)
}

/// A result's place after reranking: `index` into the input results, its
/// 1-based rank in the input and its 1-based rank in the output.
pub struct RankedSlot {
    pub index: usize,
    pub original_rank: usize,
    pub reranked_rank: usize,
}

/// Some slot of `slots` holds result `i`.
pub open spec fn slots_hold(slots: Seq<RankedSlot>, i: int) -> bool {
    exists|p: int| 0 <= p < slots.len() && slots[p].index == i
}

fn plain_key(primary: u64) -> (res: RankKey)
    ensures
        res.primary == primary,
        res.secondary == 0,
        res.first@ == Seq::<char>::empty(),
        res.second@ == Seq::<char>::empty(),
{
    RankKey { primary, secondary: 0, first: Vec::new(), second: Vec::new() }
}

/// How many results reranking keeps: all `n`, or `limit` when that is less.
pub open spec fn kept_count(n: nat, limit: Option<usize>) -> nat {
    match limit {
        Some(l) => if l < n { l as nat } else { n },
        None => n,
    }
}

/// `slots` is the reranking of the results with combined-score keys `keys`
/// under `limit`: `kept_count` slots, each naming a result with its input
/// and output ranks, in `rerank_before` order, holding the results that rank
/// first (every result left out ranks after every result kept), and all of
/// them when nothing is cut.
pub open spec fn is_reranking(keys: Seq<u64>, limit: Option<usize>, slots: Seq<RankedSlot>) -> bool {
    &&& slots.len() == kept_count(keys.len(), limit)
    &&& forall|p: int|
        0 <= p < slots.len() ==> {
            &&& (#[trigger] slots[p]).index < keys.len()
            &&& slots[p].original_rank == slots[p].index + 1
            &&& slots[p].reranked_rank == p + 1
        }
    &&& forall|p: int, q: int|
        0 <= p < q < slots.len() ==> rerank_before(
            keys,
            (#[trigger] slots[p]).index as int,
            (#[trigger] slots[q]).index as int,
        )
    &&& forall|i: int|
        0 <= i < keys.len() && !#[trigger] slots_hold(slots, i) ==> forall|p: int|
            0 <= p < slots.len() ==> rerank_before(keys, (#[trigger] slots[p]).index as int, i)
    &&& slots.len() == keys.len() ==> forall|i: int| 0 <= i < keys.len() ==> #[trigger] slots_hold(slots, i)
}

/// The order of reranked results: by combined-score key from high to low,
/// ties kept in input order, cut to `limit` results when one is given; each
/// slot carries its input and output ranks.
pub fn rerank_order(keys: &Vec<u64>, limit: Option<usize>) -> (res: Vec<RankedSlot>)
    ensures
        is_reranking(keys@, limit, res@),
        res@.len() == match limit {
            Some(l) => if (l as int) < keys@.len() {
                l as int
            } else {
                keys@.len() as int
            },
            None => keys@.len() as int,
        },
        forall|p: int, q: int|
            0 <= p < q < res@.len() ==> {
                let a = (#[trigger] res@[p]).index as int;
                let b = (#[trigger] res@[q]).index as int;
                keys@[a] > keys@[b] || (keys@[a] == keys@[b] && a < b)
            },
{
    let n = keys.len();
    let mut rkeys: Vec<RankKey> = Vec::new();
    let mut entries: Vec<(usize, usize)> = Vec::new();
    let mut i: usize = 0;
    while i < n
        invariant
            i <= n == keys@.len(),
            rkeys@.len() == i,
            entries@.len() == i,
            forall|k: int| 0 <= k < i ==> {
                &&& (#[trigger] rkeys@[k]).primary == keys@[k]
                &&& rkeys@[k].secondary == 0
                &&& rkeys@[k].first@ == Seq::<char>::empty()
                &&& rkeys@[k].second@ == Seq::<char>::empty()
            },
            forall|k: int| 0 <= k < i ==> #[trigger] entries@[k] == (k as usize, k as usize),
        decreases n - i,
    {
        rkeys.push(plain_key(keys[i]));
        entries.push((i, i));
        i = i + 1;
    }
    let sorted = sort_entries(&rkeys, &entries);
    proof {
        assert forall|a: (usize, usize), b: (usize, usize)|
            a.0 < n && b.0 < n && a.0 == a.1 && b.0 == b.1 implies #[trigger] entry_before(rkeys@, a, b)
            == rerank_before(keys@, a.0 as int, b.0 as int) by {
            let ka = rkeys@[a.0 as int];
            let kb = rkeys@[b.0 as int];
            crate::ranking::lemma_lex_less_order(ka.first@, kb.first@, kb.first@);
            crate::ranking::lemma_lex_less_order(ka.second@, kb.second@, kb.second@);
        }
    }
    let m = match limit {
        Some(l) => if l < n { l } else { n },
        None => n,
    };
    let mut res: Vec<RankedSlot> = Vec::new();
    let mut p: usize = 0;
    while p < m
        invariant
            p <= m <= n == keys@.len() == sorted@.len(),
            res@.len() == p,
            forall|a: int| 0 <= a < p ==> {
                &&& (#[trigger] res@[a]).index == sorted@[a].0
                &&& res@[a].original_rank == res@[a].index + 1
                &&& res@[a].reranked_rank == a + 1
            },
            entries@.len() == n,
            forall|a: int| 0 <= a < sorted@.len() ==> entries@.contains(#[trigger] sorted@[a]),
            forall|k: int| 0 <= k < n ==> #[trigger] entries@[k] == (k as usize, k as usize),
        decreases m - p,
    {
        let (idx, _tie) = sorted[p];
        assert(entries@.contains(sorted@[p as int]));
        assert(idx < n);
        res.push(RankedSlot { index: idx, original_rank: idx + 1, reranked_rank: p + 1 });
        p = p + 1;
    }
    proof {
        assert forall|a: int| 0 <= a < sorted@.len() implies (#[trigger] sorted@[a]).0 < n && sorted@[a].0
            == sorted@[a].1 by {
            assert(entries@.contains(sorted@[a]));
        }
        assert forall|x: int, y: int| 0 <= x < y < res@.len() implies rerank_before(
            keys@,
            (#[trigger] res@[x]).index as int,
            (#[trigger] res@[y]).index as int,
        ) by {
            assert(entry_before(rkeys@, sorted@[x], sorted@[y]));
        }
        assert forall|k: int| 0 <= k < n && m == n implies #[trigger] slots_hold(res@, k) by {
            assert(sorted@.contains(entries@[k]));
            let a = choose|a: int| 0 <= a < sorted@.len() && sorted@[a] == entries@[k];
            assert(res@[a].index == k);
        }
        assert forall|k: int| 0 <= k < n && !#[trigger] slots_hold(res@, k) implies forall|q: int|
            0 <= q < res@.len() ==> rerank_before(keys@, (#[trigger] res@[q]).index as int, k) by {
            assert(sorted@.contains(entries@[k]));
            let a = choose|a: int| 0 <= a < sorted@.len() && sorted@[a] == entries@[k];
            if a < m {
                assert(res@[a].index == k);
            } else {
                assert forall|q: int| 0 <= q < res@.len() implies rerank_before(keys@, (#[trigger] res@[q]).index as int, k) by {
                    assert(entry_before(rkeys@, sorted@[q], sorted@[a]));
                }
            }
        }
    }
    res
}

/// A duplicate pair after scoring: its refined-score key, its two files and
/// whether its score reached the threshold.
pub struct RefineCandidate {
    pub score_key: u64,
    pub file1: String,
    pub file2: String,
    pub retained: bool,
}

/// Pair `i` sorts before pair `j`: higher refined-score key, then `file1`,
/// then `file2` in string order, then input order.
pub open spec fn refine_before(c: Seq<RefineCandidate>, i: int, j: int) -> bool {
    ||| c[i].score_key > c[j].score_key
    ||| c[i].score_key == c[j].score_key && lex_less(c[i].file1@, c[j].file1@)
    ||| c[i].score_key == c[j].score_key && c[i].file1@ == c[j].file1@ && lex_less(c[i].file2@, c[j].file2@)
    ||| c[i].score_key == c[j].score_key && c[i].file1@ == c[j].file1@ && c[i].file2@ == c[j].file2@ && i < j
}

/// `res` lists the retained pairs of `c` as indices in output order: each
/// retained pair, none of the others, sorted by `refine_before` (so each
/// once).
pub open spec fn is_refine_order(c: Seq<RefineCandidate>, res: Seq<usize>) -> bool {
    &&& forall|p: int| 0 <= p < res.len() ==> (#[trigger] res[p]) < c.len() && c[res[p] as int].retained
    &&& forall|i: int| 0 <= i < c.len() && (#[trigger] c[i]).retained ==> res.contains(i as usize)
    &&& forall|p: int, q: int|
        0 <= p < q < res.len() ==> refine_before(c, #[trigger] res[p] as int, #[trigger] res[q] as int)
}

/// The retained duplicate pairs, as indices into `candidates`, in output
/// order: each retained pair exactly once, none of the others, sorted by
/// `refine_before`.
pub fn refine_order(candidates: &Vec<RefineCandidate>) -> (res: Vec<usize>)
    ensures
        is_refine_order(candidates@, res@),
{
    let n = candidates.len();
    let mut rkeys: Vec<RankKey> = Vec::new();
    let mut entries: Vec<(usize, usize)> = Vec::new();
    let mut i: usize = 0;
    while i < n
        invariant
            i <= n == candidates@.len(),
            rkeys@.len() == i,
            forall|k: int| 0 <= k < i ==> {
                &&& (#[trigger] rkeys@[k]).primary == candidates@[k].score_key
                &&& rkeys@[k].secondary == 0
                &&& rkeys@[k].first@ == candidates@[k].file1@
                &&& rkeys@[k].second@ == candidates@[k].file2@
            },
            forall|a: int| 0 <= a < entries@.len() ==> (#[trigger] entries@[a]).0 == entries@[a].1 && entries@[a].0 < i
                && candidates@[entries@[a].0 as int].retained,
            forall|a: int, b: int| 0 <= a < b < entries@.len() ==> (#[trigger] entries@[a]).0 < (#[trigger] entries@[b]).0,
            forall|k: int| 0 <= k < i && (#[trigger] candidates@[k]).retained ==> entries@.contains((k as usize, k as usize)),
        decreases n - i,
    {
        let c = &candidates[i];
        rkeys.push(RankKey { primary: c.score_key, secondary: 0, first: chars_of(c.file1.as_str()), second: chars_of(c.file2.as_str()) });
        if c.retained {
            let ghost old_entries = entries@;
            entries.push((i, i));
            proof {
                assert forall|k: int| 0 <= k < i + 1 && (#[trigger] candidates@[k]).retained implies entries@.contains((k as usize, k as usize)) by {
                    if k < i {
                        let a = choose|a: int| 0 <= a < old_entries.len() && old_entries[a] == (k as usize, k as usize);
                        assert(entries@[a] == old_entries[a]);
                    } else {
                        assert(entries@[entries@.len() - 1] == (k as usize, k as usize));
                    }
                }
            }
        }
        i = i + 1;
    }
    proof {
        assert forall|a: int, b: int| 0 <= a < entries@.len() && 0 <= b < entries@.len() && a != b implies
            (#[trigger] entries@[a]).1 != (#[trigger] entries@[b]).1 by {
            if a < b {
                assert(entries@[a].0 < entries@[b].0);
            } else {
                assert(entries@[b].0 < entries@[a].0);
            }
        }
    }
    let sorted = sort_entries(&rkeys, &entries);
    let mut res: Vec<usize> = Vec::new();
    let mut p: usize = 0;
    while p < sorted.len()
        invariant
            p <= sorted@.len() == entries@.len(),
            res@.len() == p,
            forall|a: int| 0 <= a < p ==> #[trigger] res@[a] == sorted@[a].0,
        decreases sorted@.len() - p,
    {
        res.push(sorted[p].0);
        p = p + 1;
    }
    proof {
        assert forall|a: int| 0 <= a < sorted@.len() implies (#[trigger] sorted@[a]).0 == sorted@[a].1 && sorted@[a].0 < n
            && candidates@[sorted@[a].0 as int].retained by {
            assert(entries@.contains(sorted@[a]));
        }
        assert forall|x: int, y: int| 0 <= x < y < res@.len() implies refine_before(
            candidates@,
            #[trigger] res@[x] as int,
            #[trigger] res@[y] as int,
        ) by {
            assert(entry_before(rkeys@, sorted@[x], sorted@[y]));
        }
        assert forall|k: int| 0 <= k < n && (#[trigger] candidates@[k]).retained implies res@.contains(k as usize) by {
            assert(entries@.contains((k as usize, k as usize)));
            assert(sorted@.contains((k as usize, k as usize)));
            let a = choose|a: int| 0 <= a < sorted@.len() && sorted@[a] == (k as usize, k as usize);
            assert(res@[a] == k);
        }
    }
    res
}

/// Raising the refine threshold keeps a subsequence of the retained pairs,
/// in the same order: where two runs score the same pairs alike and every
/// pair that the stricter run keeps the other keeps too, the stricter
/// output is the other output with the pairs it drops taken out.
pub proof fn lemma_stricter_threshold_keeps_subsequence(
    c1: Seq<RefineCandidate>,
    c2: Seq<RefineCandidate>,
    r1: Seq<usize>,
    r2: Seq<usize>,
)
    requires
        c1.len() == c2.len(),
        forall|i: int|
            0 <= i < c1.len() ==> {
                &&& (#[trigger] c1[i]).score_key == c2[i].score_key
                &&& c1[i].file1@ == c2[i].file1@
                &&& c1[i].file2@ == c2[i].file2@
                &&& c2[i].retained ==> c1[i].retained
            },
        is_refine_order(c1, r1),
        is_refine_order(c2, r2),
    ensures
        r2 == r1.filter(|i: usize| c2[i as int].retained),
        r2.len() <= r1.len(),
{
    let keep = |i: usize| c2[i as int].retained;
    let before = |a: usize, b: usize| refine_before(c2, a as int, b as int);
    assert forall|x: usize, y: usize| #[trigger] before(x, y) implies !before(y, x) by {
        crate::ranking::lemma_lex_less_order(c2[x as int].file1@, c2[y as int].file1@, c2[y as int].file1@);
        crate::ranking::lemma_lex_less_order(c2[x as int].file2@, c2[y as int].file2@, c2[y as int].file2@);
    }
    assert(crate::ranking::sorted_by(r1, before)) by {
        assert forall|p: int, q: int| 0 <= p < q < r1.len() implies before(#[trigger] r1[p], #[trigger] r1[q]) by {
            assert(refine_before(c1, r1[p] as int, r1[q] as int));
            assert(c1[r1[p] as int].score_key == c2[r1[p] as int].score_key);
            assert(c1[r1[q] as int].score_key == c2[r1[q] as int].score_key);
        }
    }
    assert(crate::ranking::sorted_by(r2, before));
    crate::ranking::lemma_filter_sorted(r1, keep, before);
    let f = r1.filter(keep);
    assert forall|x: usize| f.contains(x) <==> r2.contains(x) by {
        if f.contains(x) {
            r1.lemma_filter_contains_rev(keep, x);
            let p = choose|p: int| 0 <= p < f.len() && f[p] == x;
            r1.lemma_filter_pred(keep, p);
            let q = choose|q: int| 0 <= q < r1.len() && r1[q] == x;
            assert(r1[q] < c1.len());
            assert(c2[x as int].retained);
        }
        if r2.contains(x) {
            let q = choose|q: int| 0 <= q < r2.len() && r2[q] == x;
            assert(r2[q] < c2.len() && c2[r2[q] as int].retained);
            assert(c1[x as int].retained);
            assert(r1.contains((x as int) as usize));
            let p = choose|p: int| 0 <= p < r1.len() && r1[p] == x;
            r1.lemma_filter_contains(keep, p);
        }
    }
    crate::ranking::lemma_sorted_unique(f, r2, before);
    r1.lemma_filter_len(keep);
}

/// The warning for a result document that could not be read or embedded.
pub fn document_warning(path: &str, detail: &str) -> (res: String)
    ensures
        res@ == path@ + ": "@ + detail@,
{
    let mut s = path.to_owned();
    s.append(": ");
    s.append(detail);
    s
}

/// The warning for a duplicate pair whose files could not be read or
/// embedded.
pub fn pair_warning(file1: &str, file2: &str, detail: &str) -> (res: String)
    ensures
        res@ == file1@ + " <-> "@ + file2@ + ": "@ + detail@,
{
    let mut s = file1.to_owned();
    s.append(" <-> ");
    s.append(file2);
    s.append(": ");
    s.append(detail);
    s
}

/// How many of the `total` vocabulary terms are clustered: all of them, or
/// the first `limit` when a limit is given.
pub fn vocabulary_window(total: usize, limit: Option<usize>) -> (res: usize)
    ensures
        res == match limit {
            Some(l) => if l < total { l } else { total },
            None => total,
        },
{
    match limit {
        Some(l) => if l < total { l } else { total },
        None => total,
    }
}

/// The query that results are reranked against: the one given on the
/// command line, else the one the payload carries.
pub fn rerank_query(given: Option<String>, carried: Option<String>) -> (res: Option<String>)
    ensures
        res == (match given {
            Some(q) => Some(q),
            None => carried,
        }),
{
    match given {
        Some(q) => Some(q),
        None => carried,
    }
}

/// Why the command line's input was refused.
#[derive(Debug)]
pub enum InputError {
    /// A command that reads JSON found a terminal on stdin.
    StdinIsTerminal,
    /// Stdin held nothing but whitespace.
    StdinEmpty,
    /// `embed` got neither text arguments nor piped input.
    NothingToEmbed,
    /// The piped input held no text to embed.
    NoTextToEmbed,
    /// `rerank` got no query text and the payload carries none.
    MissingQuery,
}

/// The text an `InputError` is reported with.
pub open spec fn input_error_text(e: InputError) -> Seq<char> {
    match e {
        InputError::StdinIsTerminal => "this subcommand expects JSON on stdin"@,
        InputError::StdinEmpty => "stdin was empty"@,
        InputError::NothingToEmbed => "embed expects text arguments or piped stdin. "@
            + "embeddings are unavailable. Set WYRD_EMBEDDING_MODEL to the ONNX file and optionally WYRD_EMBEDDING_TOKENIZER to tokenizer.json."@,
        InputError::NoTextToEmbed => "no text was provided to embed"@,
        InputError::MissingQuery => "no query text: pass --query, or pipe yore query --json output that carries the query"@,
    }
}

impl InputError {
    /// The text this error is reported with.
    pub fn message(&self) -> (res: String)
        ensures
            res@ == input_error_text(*self),
    {
        match self {
            InputError::StdinIsTerminal => "this subcommand expects JSON on stdin".to_owned(),
            InputError::StdinEmpty => "stdin was empty".to_owned(),
            InputError::NothingToEmbed => {
                let mut s = "embed expects text arguments or piped stdin. ".to_owned();
                s.append(missing_model_message());
                s
            },
            InputError::NoTextToEmbed => "no text was provided to embed".to_owned(),
            InputError::MissingQuery => "no query text: pass --query, or pipe yore query --json output that carries the query".to_owned(),
        }
    }
}

/// Checks text read from stdin: input holding nothing but whitespace is
/// refused.
pub fn required_stdin(buffer: String) -> (res: Result<String, InputError>)
    ensures
        crate::text::trim(buffer@).len() == 0 <==> res is Err,
        res matches Ok(s) ==> s == buffer,
        res matches Err(e) ==> e is StdinEmpty,
{
    if crate::text::is_blank(buffer.as_str()) {
        Err(InputError::StdinEmpty)
    } else {
        Ok(buffer)
    }
}

/// The texts `wyrd embed` embeds from piped input (see
/// `crate::text::input_texts`); input with no text in it is refused.
pub fn embed_input_texts(input: &str, lines: bool) -> (res: Result<Vec<String>, InputError>)
    ensures
        crate::text::input_texts(input@, lines).len() == 0 <==> res is Err,
        res matches Err(e) ==> e is NoTextToEmbed,
        res matches Ok(v) ==> v@.len() == crate::text::input_texts(input@, lines).len() && forall|k: int|
            0 <= k < v@.len() ==> #[trigger] v@[k]@ == crate::text::input_texts(input@, lines)[k],
{
    let texts = crate::text::texts_from_input(input, lines);
    if texts.len() == 0 {
        Err(InputError::NoTextToEmbed)
    } else {
        Ok(texts)
    }
}

/// One embedded text: the text and the bit patterns of its embedding's
/// values.
pub struct EmbeddedText {
    pub text: String,
    pub embedding: Vec<u32>,
}

/// The result of `wyrd embed`.
pub struct EmbedOutput {
    pub command: &'static str,
    pub total_texts: usize,
    pub embedding_dim: usize,
    pub embeddings: Vec<EmbeddedText>,
}

/// Assembles the `embed` output: the count of texts, and the dimension of
/// the first embedding (0 when there is none).
pub fn embed_output(embeddings: Vec<EmbeddedText>) -> (res: EmbedOutput)
    ensures
        res.command@ == "embed"@,
        res.total_texts == embeddings@.len(),
        res.embedding_dim == (if embeddings@.len() > 0 { embeddings@[0].embedding@.len() } else { 0 }),
        res.embeddings@ == embeddings@,
{
    let embedding_dim = if embeddings.len() > 0 { embeddings[0].embedding.len() } else { 0 };
    EmbedOutput { command: "embed", total_texts: embeddings.len(), embedding_dim, embeddings }
}

proof fn lemma_prefix_agrees(keys: Seq<u64>, l: usize, a: Seq<RankedSlot>, b: Seq<RankedSlot>, p: int)
    requires
        is_reranking(keys, Some(l), a),
        is_reranking(keys, None, b),
        0 <= p < a.len(),
    ensures
        forall|q: int| 0 <= q <= p ==> #[trigger] a[q].index == b[q].index,
    decreases p,
{
    if p > 0 {
        lemma_prefix_agrees(keys, l, a, b, p - 1);
    }
    let x = a[p].index as int;
    let y = b[p].index as int;
    if x != y {
        assert(slots_hold(b, x));
        let r = choose|r: int| 0 <= r < b.len() && b[r].index == x;
        if r < p {
            assert(a[r].index == b[r].index);
            assert(rerank_before(keys, a[r].index as int, a[p].index as int));
        }
        assert(r > p);
        assert(rerank_before(keys, y, x));
        if slots_hold(a, y) {
            let q = choose|q: int| 0 <= q < a.len() && a[q].index == y;
            if q < p {
                assert(a[q].index == b[q].index);
                assert(rerank_before(keys, b[q].index as int, b[p].index as int));
            }
            assert(q > p);
            assert(rerank_before(keys, x, y));
        } else {
            assert(rerank_before(keys, a[p].index as int, y));
        }
    }
}

/// Reranking with a limit keeps the top of the full reranking: its slots
/// are the first slots of the reranking without a limit.
pub proof fn lemma_limit_keeps_prefix(keys: Seq<u64>, l: usize, a: Seq<RankedSlot>, b: Seq<RankedSlot>)
    requires
        is_reranking(keys, Some(l), a),
        is_reranking(keys, None, b),
    ensures
        a.len() <= b.len(),
        a == b.take(a.len() as int),
{
    if a.len() > 0 {
        lemma_prefix_agrees(keys, l, a, b, a.len() - 1);
    }
    assert forall|p: int| 0 <= p < a.len() implies #[trigger] a[p] == b.take(a.len() as int)[p] by {
        assert(a[p].index == b[p].index);
    }
    assert(a =~= b.take(a.len() as int));
}

/// A limit trims the reranking to the top `l` results: with `Some(l)` it
/// has `l` slots, or one per result when fewer than `l` came in; with no
/// limit it has one per result. The slots run from the highest key down,
/// equal keys in input order, and no result left out has a higher key than
/// one kept.
pub proof fn lemma_limit_trims_to_top(keys: Seq<u64>, limit: Option<usize>, slots: Seq<RankedSlot>)
    requires
        is_reranking(keys, limit, slots),
    ensures
        limit matches Some(l) ==> ((l as int) < keys.len() ==> slots.len() == l),
        limit matches Some(l) ==> ((l as int) >= keys.len() ==> slots.len() == keys.len()),
        limit is None ==> slots.len() == keys.len(),
        forall|p: int, q: int|
            0 <= p < q < slots.len() ==> {
                let a = (#[trigger] slots[p]).index as int;
                let b = (#[trigger] slots[q]).index as int;
                keys[a] > keys[b] || (keys[a] == keys[b] && a < b)
            },
        forall|p: int, i: int|
            0 <= p < slots.len() && 0 <= i < keys.len() && keys[i] > keys[(#[trigger] slots[p]).index as int]
                ==> #[trigger] slots_hold(slots, i),
{
    assert forall|p: int, i: int|
        0 <= p < slots.len() && 0 <= i < keys.len() && keys[i] > keys[(#[trigger] slots[p]).index as int]
            implies #[trigger] slots_hold(slots, i) by {
        if !slots_hold(slots, i) {
            assert(rerank_before(keys, slots[p].index as int, i));
        }
    }
}

} // verus!
