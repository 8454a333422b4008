//! The number of terminal columns that text takes up.

use vstd::prelude::*;

use unicode_width::UnicodeWidthStr;

use crate::protocol::CellData;

verus! {

/// What [`UnicodeWidthStr::width`] returns for a string of these characters: its
/// width in columns by the rules of Unicode Standard Annex 11, with ambiguous
/// characters counted as narrow.
pub uninterp spec fn display_width(text: Seq<char>) -> nat;

/// Every character is printable ASCII.
pub open spec fn printable_ascii(text: Seq<char>) -> bool {
    forall|i: int| 0 <= i < text.len() ==> ' ' <= #[trigger] text[i] <= '~'
}

/// Calls [`UnicodeWidthStr::width`] of the `unicode-width` crate.
///
/// Taken on trust: the width depends on the characters alone, and printable ASCII
/// takes one column per character.
#[verifier::external_body]
fn text_width(text: &str) -> (width: usize)
    ensures
        width == display_width(text@),
        printable_ascii(text@) ==> width == text@.len(),
{
    UnicodeWidthStr::width(text)
}

/// The number of columns that a cell's symbol takes up.
pub fn cell_width(cell: &CellData) -> (width: usize)
    ensures
        width == display_width(cell@.symbol),
        printable_ascii(cell@.symbol) ==> width == cell@.symbol.len(),
{
    text_width(cell.symbol.as_str())
}

} // verus!
