//! Display widths of characters and strings, as the `unicode-width` crate
//! measures them.
use vstd::prelude::*;

verus! {

/// What `UnicodeWidthChar::width` returns for `c`: the number of terminal
/// columns it takes, or `None` for a control character.
pub uninterp spec fn char_width_of(c: char) -> Option<usize>;

/// Calls `UnicodeWidthChar::width` on `c`. Its result is named
/// `char_width_of`; beyond that the contract states what the crate's
/// `single_char_width` shows: printable ASCII takes one column, the C0 and
/// C1 control characters have no width, and every other character has one.
#[verifier::external_body]
pub(crate) fn char_width(c: char) -> (w: Option<usize>)
    ensures
        w == char_width_of(c),
        0x20 <= c as u32 && (c as u32) < 0x7F ==> w == Some(1usize),
        (c as u32) < 0x20 || (0x7F <= c as u32 && (c as u32) < 0xA0) ==> w is None,
        0xA0 <= c as u32 ==> w is Some,
{
    unicode_width::UnicodeWidthChar::width(c)
}

/// The columns that `c` takes, a control character counting as none
/// (`c.width().unwrap_or(0)`).
pub open spec fn columns(c: char) -> nat {
    match char_width_of(c) {
        Some(w) => w as nat,
        None => 0,
    }
}

/// The sum of the columns of the characters of `s`.
pub open spec fn text_columns(s: Seq<char>) -> nat
    decreases s.len(),
{
    if s.len() == 0 {
        0
    } else {
        text_columns(s.drop_last()) + columns(s.last())
    }
}

/// The columns that `c` takes, a control character counting as none.
pub fn columns_of(c: char) -> (w: usize)
    ensures
        w == columns(c),
{
    match char_width(c) {
        Some(w) => w,
        None => 0,
    }
}

/// What `UnicodeWidthStr::width` returns for a string with the
/// characters `s`.
pub uninterp spec fn str_width_of(s: Seq<char>) -> usize;

/// Calls `UnicodeWidthStr::width` on `s`. Its result is named
/// `str_width_of`; the contract adds what the crate's `str_width` and
/// `width_in_str` show for a string of printable ASCII characters only:
/// each of them adds one column, so the width is the length.
#[verifier::external_body]
pub(crate) fn str_width(s: &str) -> (w: usize)
    ensures
        w == str_width_of(s@),
        (forall|i: int|
            0 <= i < s@.len() ==> 0x20 <= #[trigger] s@[i] as u32 && (s@[i] as u32) < 0x7F)
            ==> w == s@.len(),
{
    unicode_width::UnicodeWidthStr::width(s)
}

} // verus!
