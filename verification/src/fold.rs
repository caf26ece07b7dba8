//! Unicode-to-ASCII folding, done by an outside transliteration crate.

use vstd::prelude::*;

verus! {

/// The ASCII approximation that the transliteration produces for `s`: a
/// function of the characters alone.
pub uninterp spec fn ascii_fold(s: Seq<char>) -> Seq<char>;

/// Relies on `unidecode::unidecode`: transliterates a string to ASCII, one
/// output piece per input character, concatenated in order; the result
/// depends on the characters alone. Its documentation further guarantees
/// that the output is valid ASCII and that every ASCII character is mapped
/// to itself, so an all-ASCII string comes back unchanged.
#[verifier::external_body]
pub(crate) fn fold_to_ascii(s: &String) -> (r: String)
    ensures
        r@ == ascii_fold(s@),
        s@.len() == 0 ==> r@.len() == 0,
        forall|i: int| 0 <= i < r@.len() ==> (#[trigger] r@[i] as u32) < 0x80,
        (forall|i: int| 0 <= i < s@.len() ==> (#[trigger] s@[i] as u32) < 0x80) ==> r@ == s@,
{
    unidecode::unidecode(s.as_str())
}

} // verus!
