//! Rules for naming and nesting modules.
use vstd::prelude::*;
use crate::text::{chars_of, chars_eq, slice_chars};

verus! {

/// What `str::to_lowercase` returns for a text: the Unicode lowercase mapping
/// of each of its characters.
pub uninterp spec fn lowercase(s: Seq<char>) -> Seq<char>;

/// `str::to_lowercase`. Its result is named `lowercase`; nothing more is
/// claimed of the Unicode case mapping.
#[verifier::external_body]
fn to_lowercase(s: &str) -> (r: String)
    ensures
        r@ == lowercase(s@),
{
    s.to_lowercase()
}

/// `s` contains `p` as a contiguous part.
pub open spec fn contains_text(s: Seq<char>, p: Seq<char>) -> bool {
    exists|i: int| 0 <= i && i + p.len() <= s.len() && #[trigger] s.subrange(i, i + p.len()) == p
}

/// The words that show a module has more than one concern.
pub open spec fn concern_words() -> Seq<Seq<char>> {
    seq!["and"@, "or"@, "misc"@, "util"@, "stuff"@, "common"@]
}

/// `s` contains one of the words that show more than one concern.
pub open spec fn mentions_several_concerns(s: Seq<char>) -> bool {
    exists|i: int| 0 <= i < concern_words().len() && contains_text(s, #[trigger] concern_words()[i])
}

fn contains_chars(v: &Vec<char>, p: &str) -> (r: bool)
    ensures
        r == contains_text(v@, p@),
{
    let pv = chars_of(p);
    if pv.len() > v.len() {
        assert forall|i: int| 0 <= i && i + p@.len() <= v@.len() implies #[trigger] v@.subrange(
            i,
            i + p@.len(),
        ) != p@ by {}
        return false;
    }
    if pv.len() == 0 {
        assert(v@.subrange(0int, 0int + p@.len()) =~= p@);
        return true;
    }
    let mut i: usize = 0;
    while i <= v.len() - pv.len()
        invariant
            pv@ == p@,
            1 <= pv.len() <= v.len(),
            i <= v.len() - pv.len() + 1,
            forall|j: int| 0 <= j < i && j + p@.len() <= v@.len() ==> #[trigger] v@.subrange(
                j,
                j + p@.len(),
            ) != p@,
        decreases v.len() - i,
    {
        let piece = slice_chars(v, i, i + pv.len());
        if chars_eq(&piece, &pv) {
            assert(v@.subrange(i as int, i + p@.len()) == p@);
            return true;
        }
        i += 1;
    }
    false
}

/// Whether a lowercased module name contains one of the words that show more
/// than one concern: "and", "or", "misc", "util", "stuff", "common".
pub fn mentions_several_concerns_exec(lowered: &str) -> (r: bool)
    ensures
        r == mentions_several_concerns(lowered@),
{
    let v = chars_of(lowered);
    let found = contains_chars(&v, "and") || contains_chars(&v, "or") || contains_chars(&v, "misc")
        || contains_chars(&v, "util") || contains_chars(&v, "stuff") || contains_chars(
        &v,
        "common",
    );
    assert(concern_words()[0] == "and"@);
    assert(concern_words()[1] == "or"@);
    assert(concern_words()[2] == "misc"@);
    assert(concern_words()[3] == "util"@);
    assert(concern_words()[4] == "stuff"@);
    assert(concern_words()[5] == "common"@);
    found
}

/// A module has a single clear responsibility when its lowercased name
/// contains none of the words that show several concerns.
pub fn is_single_responsibility(module_name: &str) -> (r: bool)
    ensures
        r == !mentions_several_concerns(lowercase(module_name@)),
{
    let lowered = to_lowercase(module_name);
    !mentions_several_concerns_exec(lowered.as_str())
}

/// At most 4 levels of module nesting.
pub fn is_acceptable_depth(depth: usize) -> (r: bool)
    ensures
        r == (depth <= 4),
{
    depth <= 4
}

} // verus!
