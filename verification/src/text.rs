//! Character-level text rules: Unicode whitespace, trimming, whitespace
//! collapsing and line splitting, each stated over `Seq<char>`.
use vstd::prelude::*;

verus! {

/// The Unicode `White_Space` property (the set that `char::is_whitespace`,
/// `str::trim` and `str::split_whitespace` use).
pub open spec fn is_ws(c: char) -> bool {
    let u = c as int;
    ||| 9 <= u <= 13
    ||| u == 32
    ||| u == 0x85
    ||| u == 0xA0
    ||| u == 0x1680
    ||| 0x2000 <= u <= 0x200A
    ||| u == 0x2028
    ||| u == 0x2029
    ||| u == 0x202F
    ||| u == 0x205F
    ||| u == 0x3000
}

/// Whether `c` is Unicode whitespace.
pub fn is_unicode_whitespace(c: char) -> (r: bool)
    ensures
        r == is_ws(c),
{
    let u = c as u32;
    (9 <= u && u <= 13) || u == 32 || u == 0x85 || u == 0xA0 || u == 0x1680 || (0x2000 <= u && u
        <= 0x200A) || u == 0x2028 || u == 0x2029 || u == 0x202F || u == 0x205F || u == 0x3000
}

/// The characters of `s`, in order.
pub fn chars_of(s: &str) -> (res: Vec<char>)
    ensures
        res@ == s@,
{
    let mut res: Vec<char> = Vec::new();
    for c in it: s.chars()
        invariant
            it.seq() == s@,
            res@ == s@.take(it.index() as int),
    {
        res.push(c);
    }
    assert(res@ =~= s@);
    res
}

/// Collects characters into a `String` (`String::from_iter`).
#[verifier::external_body]
fn chars_to_string(chars: &Vec<char>) -> (res: String)
    ensures
        res@ == chars@,
{
    chars.iter().collect()
}

/// `s` with its leading whitespace removed.
pub open spec fn trim_start(s: Seq<char>) -> Seq<char>
    decreases s.len(),
{
    if s.len() > 0 && is_ws(s[0]) {
        trim_start(s.drop_first())
    } else {
        s
    }
}

/// `s` with its trailing whitespace removed.
pub open spec fn trim_end(s: Seq<char>) -> Seq<char>
    decreases s.len(),
{
    if s.len() > 0 && is_ws(s.last()) {
        trim_end(s.drop_last())
    } else {
        s
    }
}

/// `s` with leading and trailing whitespace removed (`str::trim`).
pub open spec fn trim(s: Seq<char>) -> Seq<char> {
    trim_end(trim_start(s))
}

/// The bounds `lo..hi` of `s` that `str::trim` keeps.
pub fn trim_bounds(s: &Vec<char>) -> (res: (usize, usize))
    ensures
        res.0 <= res.1 <= s@.len(),
        s@.subrange(res.0 as int, res.1 as int) == trim(s@),
{
    let n = s.len();
    let mut lo: usize = 0;
    assert(s@.skip(0) =~= s@);
    while lo < n && is_unicode_whitespace(s[lo])
        invariant
            lo <= n == s@.len(),
            trim_start(s@) == trim_start(s@.skip(lo as int)),
        decreases n - lo,
    {
        assert(s@.skip(lo as int).drop_first() =~= s@.skip(lo + 1));
        lo = lo + 1;
    }
    let ghost rest = s@.skip(lo as int);
    assert(trim_start(s@) == rest) by {
        if lo < n {
            assert(rest[0] == s@[lo as int]);
        } else {
            assert(rest.len() == 0);
        }
    }
    let mut hi: usize = n;
    while hi > lo && is_unicode_whitespace(s[hi - 1])
        invariant
            lo <= hi <= n == s@.len(),
            rest == s@.skip(lo as int),
            trim_end(rest) == trim_end(s@.subrange(lo as int, hi as int)),
        decreases hi,
    {
        assert(s@.subrange(lo as int, hi as int).drop_last() =~= s@.subrange(lo as int, hi - 1));
        hi = hi - 1;
    }
    assert(s@.subrange(lo as int, n as int) =~= rest);
    let ghost kept = s@.subrange(lo as int, hi as int);
    assert(trim_end(kept) == kept) by {
        if hi > lo {
            assert(kept.last() == s@[hi - 1]);
        } else {
            assert(kept.len() == 0);
        }
    }
    (lo, hi)
}

/// `chars` with leading and trailing whitespace removed.
pub fn trim_chars(chars: &Vec<char>) -> (res: Vec<char>)
    ensures
        res@ == trim(chars@),
{
    let (lo, hi) = trim_bounds(chars);
    let mut kept: Vec<char> = Vec::new();
    let mut i = lo;
    assert(chars@.subrange(lo as int, lo as int) =~= Seq::<char>::empty());
    while i < hi
        invariant
            lo <= i <= hi <= chars@.len(),
            kept@ == chars@.subrange(lo as int, i as int),
        decreases hi - i,
    {
        kept.push(chars[i]);
        i = i + 1;
        assert(kept@ =~= chars@.subrange(lo as int, i as int));
    }
    kept
}

/// `s` with leading and trailing whitespace removed.
pub fn trimmed(s: &str) -> (res: String)
    ensures
        res@ == trim(s@),
{
    let chars = chars_of(s);
    let kept = trim_chars(&chars);
    chars_to_string(&kept)
}

/// Whether `s` holds nothing but whitespace.
pub fn is_blank(s: &str) -> (res: bool)
    ensures
        res == (trim(s@).len() == 0),
{
    let chars = chars_of(s);
    let (lo, hi) = trim_bounds(&chars);
    lo == hi
}

/// The whitespace-separated words of `s` (`str::split_whitespace`): the
/// maximal runs of non-whitespace characters, in order.
pub open spec fn words(s: Seq<char>) -> Seq<Seq<char>>
    decreases s.len(),
{
    if s.len() == 0 {
        seq![]
    } else {
        let w = words(s.drop_last());
        let c = s.last();
        if is_ws(c) {
            w
        } else if s.len() >= 2 && !is_ws(s[s.len() - 2]) {
            w.update(w.len() - 1, w.last().push(c))
        } else {
            w.push(seq![c])
        }
    }
}

/// The words joined by single spaces.
pub open spec fn join_words(w: Seq<Seq<char>>) -> Seq<char>
    decreases w.len(),
{
    if w.len() == 0 {
        seq![]
    } else if w.len() == 1 {
        w[0]
    } else {
        join_words(w.drop_last()) + seq![' '] + w.last()
    }
}

/// `s` with every run of whitespace collapsed to one space and no
/// whitespace at either end.
pub open spec fn collapse_ws(s: Seq<char>) -> Seq<char> {
    join_words(words(s))
}

/// The excerpt embedded for a document: its whitespace collapsed, cut to
/// at most `max_chars` characters.
pub open spec fn excerpt(s: Seq<char>, max_chars: nat) -> Seq<char> {
    let c = collapse_ws(s);
    if c.len() <= max_chars {
        c
    } else {
        c.take(max_chars as int)
    }
}

proof fn lemma_join_extend_last(w: Seq<Seq<char>>, c: char)
    requires
        w.len() > 0,
    ensures
        join_words(w.update(w.len() - 1, w.last().push(c))) == join_words(w).push(c),
{
    let w2 = w.update(w.len() - 1, w.last().push(c));
    if w.len() == 1 {
        assert(w2[0] == w[0].push(c));
    } else {
        assert(w2.drop_last() =~= w.drop_last());
        assert(w2.last() == w.last().push(c));
        assert(join_words(w2) =~= join_words(w).push(c));
    }
}

proof fn lemma_join_push(w: Seq<Seq<char>>, c: char)
    ensures
        join_words(w.push(seq![c])) == (if w.len() == 0 {
            seq![c]
        } else {
            join_words(w) + seq![' ', c]
        }),
{
    let w2 = w.push(seq![c]);
    assert(w2.drop_last() =~= w);
    if w.len() == 0 {
        assert(w2.len() == 1);
    } else {
        assert(join_words(w2) =~= join_words(w) + seq![' ', c]);
    }
}

/// `s` with its whitespace collapsed as `collapse_ws` states.
pub fn collapse_whitespace(s: &Vec<char>) -> (res: Vec<char>)
    ensures
        res@ == collapse_ws(s@),
{
    let n = s.len();
    let mut out: Vec<char> = Vec::new();
    let mut in_word = false;
    let mut i: usize = 0;
    assert(s@.take(0) =~= Seq::<char>::empty());
    while i < n
        invariant
            i <= n == s@.len(),
            out@ == join_words(words(s@.take(i as int))),
            (out@.len() == 0) == (words(s@.take(i as int)).len() == 0),
            in_word == (i > 0 && !is_ws(s@[i - 1])),
            in_word ==> words(s@.take(i as int)).len() > 0,
        decreases n - i,
    {
        let c = s[i];
        let ghost p = s@.take(i as int);
        let ghost p2 = s@.take(i + 1);
        assert(p2.drop_last() =~= p);
        assert(p2.last() == c);
        let ghost w = words(p);
        if is_unicode_whitespace(c) {
            assert(words(p2) == w);
            in_word = false;
        } else if in_word {
            assert(p2[p2.len() - 2] == s@[i - 1]);
            assert(words(p2) == w.update(w.len() - 1, w.last().push(c)));
            proof {
                lemma_join_extend_last(w, c);
            }
            out.push(c);
        } else {
            assert(words(p2) == w.push(seq![c]));
            proof {
                lemma_join_push(w, c);
            }
            if out.len() > 0 {
                out.push(' ');
            }
            out.push(c);
            in_word = true;
        }
        i = i + 1;
    }
    assert(s@.take(n as int) =~= s@);
    out
}

/// The excerpt of `text` that is embedded: whitespace collapsed to single
/// spaces, then cut to at most `max_chars` characters.
pub fn normalize_excerpt(text: &str, max_chars: usize) -> (res: String)
    ensures
        res@ == excerpt(text@, max_chars as nat),
        res@.len() <= max_chars,
        res@ == collapse_ws(text@).take(res@.len() as int),
        res@.len() == if collapse_ws(text@).len() < max_chars {
            collapse_ws(text@).len()
        } else {
            max_chars as nat
        },
{
    let chars = chars_of(text);
    let mut collapsed = collapse_whitespace(&chars);
    if collapsed.len() > max_chars {
        collapsed.truncate(max_chars);
    }
    chars_to_string(&collapsed)
}

/// The pieces of `s` between `'\n'` characters (one more piece than there
/// are newlines).
pub open spec fn split_lines(s: Seq<char>) -> Seq<Seq<char>>
    decreases s.len(),
{
    if s.len() == 0 {
        seq![seq![]]
    } else {
        let w = split_lines(s.drop_last());
        if s.last() == '\n' {
            w.push(seq![])
        } else {
            w.update(w.len() - 1, w.last().push(s.last()))
        }
    }
}

/// Each piece trimmed, with the pieces that trim to nothing left out.
pub open spec fn nonblank_trimmed(pieces: Seq<Seq<char>>) -> Seq<Seq<char>>
    decreases pieces.len(),
{
    if pieces.len() == 0 {
        seq![]
    } else {
        let rest = nonblank_trimmed(pieces.drop_last());
        let t = trim(pieces.last());
        if t.len() > 0 {
            rest.push(t)
        } else {
            rest
        }
    }
}

/// The texts that `wyrd embed` takes from piped input: with `lines`, each
/// non-blank line trimmed; otherwise the whole input trimmed, if anything is
/// left of it. (`str::lines` also drops a final empty line and a `'\r'`
/// before `'\n'`; both vanish in the trimming and the filtering here.)
pub open spec fn input_texts(s: Seq<char>, lines: bool) -> Seq<Seq<char>> {
    if lines {
        nonblank_trimmed(split_lines(s))
    } else if trim(s).len() == 0 {
        seq![]
    } else {
        seq![trim(s)]
    }
}

proof fn lemma_split_lines_nonempty(s: Seq<char>)
    ensures
        split_lines(s).len() > 0,
    decreases s.len(),
{
    if s.len() > 0 {
        lemma_split_lines_nonempty(s.drop_last());
    }
}

/// The excerpt is the collapsed text cut to `max_chars` characters: its
/// first `min(len, max_chars)` characters, no fewer.
pub proof fn lemma_excerpt_is_cut(s: Seq<char>, max_chars: nat)
    ensures
        excerpt(s, max_chars).len() == if collapse_ws(s).len() < max_chars {
            collapse_ws(s).len()
        } else {
            max_chars
        },
        excerpt(s, max_chars) == collapse_ws(s).take(excerpt(s, max_chars).len() as int),
{
    let c = collapse_ws(s);
    if c.len() <= max_chars {
        assert(c.take(c.len() as int) =~= c);
    }
}

/// Text with no `'\n'` is one piece.
proof fn lemma_split_lines_single(s: Seq<char>)
    requires
        !s.contains('\n'),
    ensures
        split_lines(s) == seq![s],
    decreases s.len(),
{
    if s.len() > 0 {
        let t = s.drop_last();
        assert(!t.contains('\n')) by {
            if t.contains('\n') {
                let k = choose|k: int| 0 <= k < t.len() && t[k] == '\n';
                assert(s[k] == '\n');
            }
        }
        lemma_split_lines_single(t);
        assert(s.last() != '\n') by {
            assert(s[s.len() - 1] == s.last());
        }
        assert(t.push(s.last()) =~= s);
        assert(seq![t].update(0, t.push(s.last())) =~= seq![s]);
    } else {
        assert(s =~= Seq::<char>::empty());
    }
}

/// Splitting at a `'\n'` gives the pieces before it, then those after it.
proof fn lemma_split_lines_concat(a: Seq<char>, b: Seq<char>)
    ensures
        split_lines(a + seq!['\n'] + b) == split_lines(a) + split_lines(b),
    decreases b.len(),
{
    let s = a + seq!['\n'] + b;
    if b.len() == 0 {
        assert(s.drop_last() =~= a);
        assert(b =~= Seq::<char>::empty());
        assert(split_lines(a).push(seq![]) =~= split_lines(a) + seq![seq![]]);
    } else {
        let b2 = b.drop_last();
        assert(s.drop_last() =~= a + seq!['\n'] + b2);
        assert(s.last() == b.last());
        lemma_split_lines_concat(a, b2);
        let x = split_lines(a);
        let y = split_lines(b2);
        lemma_split_lines_nonempty(b2);
        if b.last() == '\n' {
            assert((x + y).push(seq![]) =~= x + y.push(seq![]));
        } else {
            assert((x + y).update((x + y).len() - 1, (x + y).last().push(b.last())) =~= x + y.update(
                y.len() - 1,
                y.last().push(b.last()),
            ));
        }
    }
}

proof fn lemma_nonblank_trimmed_concat(x: Seq<Seq<char>>, y: Seq<Seq<char>>)
    ensures
        nonblank_trimmed(x + y) == nonblank_trimmed(x) + nonblank_trimmed(y),
    decreases y.len(),
{
    if y.len() == 0 {
        assert(x + y =~= x);
        assert(nonblank_trimmed(x) + nonblank_trimmed(y) =~= nonblank_trimmed(x));
    } else {
        assert((x + y).drop_last() =~= x + y.drop_last());
        assert((x + y).last() == y.last());
        lemma_nonblank_trimmed_concat(x, y.drop_last());
        let t = trim(y.last());
        if t.len() > 0 {
            assert((nonblank_trimmed(x) + nonblank_trimmed(y.drop_last())).push(t) =~= nonblank_trimmed(x)
                + nonblank_trimmed(y.drop_last()).push(t));
        }
    }
}

/// With `lines`, input holding no `'\n'` gives what the whole input gives:
/// its trim, as one text, unless it is blank. Lines are cut at `'\n'` only.
pub proof fn lemma_one_line_is_one_text(s: Seq<char>)
    requires
        !s.contains('\n'),
    ensures
        input_texts(s, true) == input_texts(s, false),
        input_texts(s, true) == (if trim(s).len() == 0 {
            Seq::<Seq<char>>::empty()
        } else {
            seq![trim(s)]
        }),
{
    lemma_split_lines_single(s);
    let p = seq![s];
    assert(p.drop_last() =~= Seq::<Seq<char>>::empty());
    assert(p.last() == s);
    assert(nonblank_trimmed(p.drop_last()) == Seq::<Seq<char>>::empty());
    if trim(s).len() > 0 {
        assert(Seq::<Seq<char>>::empty().push(trim(s)) =~= seq![trim(s)]);
    }
}

/// With `lines`, the texts of two parts joined by a `'\n'` are the texts of
/// the first part, then those of the second.
pub proof fn lemma_lines_concat(a: Seq<char>, b: Seq<char>)
    ensures
        input_texts(a + seq!['\n'] + b, true) == input_texts(a, true) + input_texts(b, true),
{
    lemma_split_lines_concat(a, b);
    lemma_nonblank_trimmed_concat(split_lines(a), split_lines(b));
}

/// The texts to embed from piped input, as `input_texts` states.
pub fn texts_from_input(input: &str, lines: bool) -> (res: Vec<String>)
    ensures
        res@.len() == input_texts(input@, lines).len(),
        forall|k: int| 0 <= k < res@.len() ==> #[trigger] res@[k]@ == input_texts(input@, lines)[k],
{
    let chars = chars_of(input);
    let mut res: Vec<String> = Vec::new();
    if !lines {
        let t = trim_chars(&chars);
        if t.len() > 0 {
            res.push(chars_to_string(&t));
        }
        return res;
    }
    let n = chars.len();
    let mut cur: Vec<char> = Vec::new();
    let mut i: usize = 0;
    assert(chars@.take(0) =~= Seq::<char>::empty());
    while i < n
        invariant
            i <= n == chars@.len(),
            chars@ == input@,
            lines,
            cur@ == split_lines(chars@.take(i as int)).last(),
            res@.len() == nonblank_trimmed(split_lines(chars@.take(i as int)).drop_last()).len(),
            forall|k: int|
                0 <= k < res@.len() ==> #[trigger] res@[k]@ == nonblank_trimmed(
                    split_lines(chars@.take(i as int)).drop_last(),
                )[k],
        decreases n - i,
    {
        let c = chars[i];
        let ghost p = chars@.take(i as int);
        let ghost p2 = chars@.take(i + 1);
        assert(p2.drop_last() =~= p);
        assert(p2.last() == c);
        let ghost sp = split_lines(p);
        proof {
            lemma_split_lines_nonempty(p);
        }
        if c == '\n' {
            assert(split_lines(p2) == sp.push(seq![]));
            assert(split_lines(p2).drop_last() =~= sp);
            let t = trim_chars(&cur);
            if t.len() > 0 {
                res.push(chars_to_string(&t));
            }
            cur = Vec::new();
        } else {
            assert(split_lines(p2) == sp.update(sp.len() - 1, sp.last().push(c)));
            assert(split_lines(p2).drop_last() =~= sp.drop_last());
            cur.push(c);
        }
        i = i + 1;
    }
    assert(chars@.take(n as int) =~= chars@);
    proof {
        lemma_split_lines_nonempty(chars@);
    }
    let t = trim_chars(&cur);
    if t.len() > 0 {
        res.push(chars_to_string(&t));
    }
    res
}

/// The decimal digit for `d` (`d < 10`).
pub open spec fn digit_char(d: nat) -> char {
    (48 + d) as char
}

/// The decimal representation of `n`, without leading zeros.
pub open spec fn decimal(n: nat) -> Seq<char>
    decreases n,
{
    if n < 10 {
        seq![digit_char(n)]
    } else {
        decimal(n / 10) + seq![digit_char(n % 10)]
    }
}

fn push_decimal(n: usize, out: &mut Vec<char>)
    ensures
        final(out)@ == old(out)@ + decimal(n as nat),
    decreases n,
{
    if n >= 10 {
        push_decimal(n / 10, out);
    }
    let d = (n % 10) as u8;
    let c = (48u8 + d) as char;
    assert(c == digit_char((n % 10) as nat));
    out.push(c);
}

/// The decimal representation of `n` (`usize::to_string`).
pub fn decimal_string(n: usize) -> (res: String)
    ensures
        res@ == decimal(n as nat),
{
    let mut digits: Vec<char> = Vec::new();
    push_decimal(n, &mut digits);
    assert(digits@ =~= decimal(n as nat));
    chars_to_string(&digits)
}

} // verus!
