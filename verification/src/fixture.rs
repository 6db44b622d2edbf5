//! The keyword embedder that `wyrd` offers for tests of its command line
//! (`WYRD_TEST_EMBEDDER=keyword-fixture`): a text is placed on one of three
//! axes by the keywords its lowercase form contains.
use vstd::prelude::*;

use crate::text::chars_of;

verus! {

/// The lowercase form of a text, as `str::to_lowercase` gives it.
pub uninterp spec fn lowercase(s: Seq<char>) -> Seq<char>;

/// `str::to_lowercase`: each character mapped to its Unicode lowercase
/// form. Its result depends on the text alone, and is named `lowercase`.
#[verifier::external_body]
fn to_lowercase(s: &str) -> (res: String)
    ensures
        res@ == lowercase(s@),
{
    s.to_lowercase()
}

/// `needle` occurs in `hay` as a run of consecutive characters.
pub open spec fn contains_text(hay: Seq<char>, needle: Seq<char>) -> bool {
    exists|i: int| 0 <= i <= hay.len() - needle.len() && #[trigger] hay.subrange(i, i + needle.len()) == needle
}

/// The axis of a lowercase text: 0 for authentication words, 1 for billing
/// words, 2 for anything else.
pub open spec fn keyword_axis(lowered: Seq<char>) -> usize {
    if contains_text(lowered, "auth"@) || contains_text(lowered, "login"@) || contains_text(lowered, "signin"@) {
        0
    } else if contains_text(lowered, "billing"@) || contains_text(lowered, "invoice"@) {
        1
    } else {
        2
    }
}

fn matches_at(hay: &Vec<char>, needle: &Vec<char>, i: usize) -> (r: bool)
    requires
        i + needle@.len() <= hay@.len(),
    ensures
        r == (hay@.subrange(i as int, i + needle@.len()) == needle@),
{
    let hay_len = hay.len();
    let mut k: usize = 0;
    while k < needle.len()
        invariant
            i + needle@.len() <= hay@.len(),
            hay_len == hay@.len(),
            k <= needle@.len(),
            forall|j: int| 0 <= j < k ==> hay@[i + j] == needle@[j],
        decreases needle@.len() - k,
    {
        if hay[i + k] != needle[k] {
            assert(hay@.subrange(i as int, i + needle@.len())[k as int] != needle@[k as int]);
            return false;
        }
        k = k + 1;
    }
    assert(hay@.subrange(i as int, i + needle@.len()) =~= needle@);
    true
}

/// Whether `needle` occurs in `hay`.
pub fn contains_chars(hay: &Vec<char>, needle: &Vec<char>) -> (r: bool)
    ensures
        r == contains_text(hay@, needle@),
{
    if needle.len() > hay.len() {
        return false;
    }
    let last = hay.len() - needle.len();
    let mut i: usize = 0;
    while i < last
        invariant
            i <= last,
            last == hay@.len() - needle@.len(),
            needle@.len() <= hay@.len(),
            forall|j: int| 0 <= j < i ==> #[trigger] hay@.subrange(j, j + needle@.len()) != needle@,
        decreases last - i,
    {
        if matches_at(hay, needle, i) {
            return true;
        }
        i = i + 1;
    }
    matches_at(hay, needle, last)
}

/// The axis of a text that is already lowercase.
pub fn keyword_axis_of_lowered(lowered: &str) -> (res: usize)
    ensures
        res == keyword_axis(lowered@),
{
    let hay = chars_of(lowered);
    if contains_chars(&hay, &chars_of("auth")) || contains_chars(&hay, &chars_of("login")) || contains_chars(
        &hay,
        &chars_of("signin"),
    ) {
        0
    } else if contains_chars(&hay, &chars_of("billing")) || contains_chars(&hay, &chars_of("invoice")) {
        1
    } else {
        2
    }
}

/// The axis the keyword embedder places `text` on.
pub fn keyword_axis_of(text: &str) -> (res: usize)
    ensures
        res == keyword_axis(lowercase(text@)),
        res < 3,
{
    let lowered = to_lowercase(text);
    keyword_axis_of_lowered(lowered.as_str())
}

} // verus!
