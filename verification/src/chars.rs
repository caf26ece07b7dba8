//! The whitespace predicate used by the whole crate, and small helpers on
//! character sequences.
//!
//! Whitespace is the Unicode `White_Space` property, the same predicate that
//! the host environment's generic per-character whitespace test uses.

use vstd::prelude::*;

verus! {

/// A character has the Unicode `White_Space` property.
pub open spec fn is_ws_char(c: char) -> bool {
    let u = c as u32;
    ||| (0x09 <= u && u <= 0x0D)
    ||| u == 0x20
    ||| u == 0x85
    ||| u == 0xA0
    ||| u == 0x1680
    ||| (0x2000 <= u && u <= 0x200A)
    ||| u == 0x2028
    ||| u == 0x2029
    ||| u == 0x202F
    ||| u == 0x205F
    ||| u == 0x3000
}

/// Executable form of the whitespace predicate.
pub fn char_is_whitespace(c: char) -> (r: bool)
    ensures
        r == is_ws_char(c),
{
    let u = c as u32;
    (0x09 <= u && u <= 0x0D) || u == 0x20 || u == 0x85 || u == 0xA0 || u == 0x1680
        || (0x2000 <= u && u <= 0x200A) || u == 0x2028 || u == 0x2029 || u == 0x202F || u == 0x205F
        || u == 0x3000
}

/// No two adjacent characters of `s` are both an ASCII space.
pub open spec fn no_double_space(s: Seq<char>) -> bool {
    forall|i: int| 0 < i < s.len() ==> !(s[i - 1] == ' ' && #[trigger] s[i] == ' ')
}

/// `s` does not begin with whitespace.
pub open spec fn no_leading_ws(s: Seq<char>) -> bool {
    s.len() > 0 ==> !is_ws_char(s[0])
}

/// Every whitespace character of `s` is an ASCII space.
pub open spec fn ws_is_space(s: Seq<char>) -> bool {
    forall|i: int| 0 <= i < s.len() && is_ws_char(#[trigger] s[i]) ==> s[i] == ' '
}

/// `s` holds no whitespace character at all.
pub open spec fn ws_free(s: Seq<char>) -> bool {
    forall|i: int| 0 <= i < s.len() ==> !is_ws_char(#[trigger] s[i])
}

/// Relies on `String::push` of std: appends exactly one character at the
/// end. A `String` holds fewer than `usize::MAX` bytes (std caps capacity
/// at `isize::MAX`), and it has no more characters than bytes, so on return
/// the old character count was below `usize::MAX`.
#[verifier::external_body]
pub(crate) fn push_char(s: &mut String, c: char)
    ensures
        final(s)@ == old(s)@.push(c),
        old(s)@.len() < usize::MAX,
{
    s.push(c)
}

} // verus!
