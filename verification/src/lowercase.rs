//! Unicode lower-casing, as `str::to_lowercase` performs it.
use vstd::prelude::*;

verus! {

/// What `str::to_lowercase` returns for a text: each character mapped to its
/// Unicode lowercase form (some map to several characters).
pub uninterp spec fn lowercase(s: Seq<char>) -> Seq<char>;

/// ASCII case folding of a single character.
pub open spec fn ascii_lower_char(c: char) -> char {
    if 'A' <= c && c <= 'Z' {
        ((c as u32) + 32) as char
    } else {
        c
    }
}

pub open spec fn all_ascii(s: Seq<char>) -> bool {
    forall|i: int| 0 <= i < s.len() ==> (#[trigger] s[i] as u32) < 128
}

/// Lower-cases a text with `str::to_lowercase`.  The contract names the result
/// `lowercase`; for an all-ASCII text it also states that only `A`-`Z` change,
/// each to its lowercase letter, which the standard library documents for the
/// ASCII range.  Nothing else about other scripts is stated.
#[verifier::external_body]
pub fn to_lowercase(s: &str) -> (r: String)
    ensures
        r@ == lowercase(s@),
        all_ascii(s@) ==> r@ == s@.map_values(|c: char| ascii_lower_char(c)),
{
    s.to_lowercase()
}

} // verus!
