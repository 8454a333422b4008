//! The instructions that a frame is painted with, and the bytes of each.
//!
//! A byte stream is specified as a sequence of instructions. What the instructions
//! do to a screen is the subject of [`crate::screen`].

use vstd::prelude::*;

use crate::decimal;
use crate::decimal::push_u16_dec;
use crate::sgr;
use crate::sgr::SEMICOLON;

verus! {

/// One instruction to the terminal. Positions count columns and rows from 0.
pub enum Op {
    HideCursor,
    ShowCursor,
    /// Begin synchronized output.
    BeginSync,
    /// End synchronized output.
    EndSync,
    /// Clear the screen and move to its top-left corner.
    ClearScreen,
    MoveTo { x: u16, y: u16 },
    /// Set the cursor shape (DECSCUSR).
    CursorShape(u8),
    Style { fg: u32, bg: u32, modifier: u16 },
    ResetStyle,
    OpenLink(Seq<char>),
    CloseLink,
    Text(Seq<char>),
}

/// The UTF-8 bytes of a string.
pub open spec fn utf8(text: Seq<char>) -> Seq<u8> {
    vstd::utf8::encode_utf8(text)
}

/// `ESC [ row ; column H`, both counted from 1.
pub open spec fn move_bytes(x: int, y: int) -> Seq<u8> {
    utf8("\x1b["@) + decimal::decimal((y + 1) as nat) + seq![SEMICOLON] + decimal::decimal(
        (x + 1) as nat,
    ) + seq![0x48]
}

/// The bytes of one instruction.
pub open spec fn op_bytes(op: Op) -> Seq<u8> {
    match op {
        Op::HideCursor => utf8("\x1b[?25l"@),
        Op::ShowCursor => utf8("\x1b[?25h"@),
        Op::BeginSync => utf8("\x1b[?2026h"@),
        Op::EndSync => utf8("\x1b[?2026l"@),
        Op::ClearScreen => utf8("\x1b[2J\x1b[H"@),
        Op::MoveTo { x, y } => move_bytes(x as int, y as int),
        Op::CursorShape(shape) => utf8("\x1b["@) + decimal::decimal(shape as nat) + utf8(" q"@),
        Op::Style { fg, bg, modifier } => sgr::sgr_bytes(fg, bg, modifier),
        Op::ResetStyle => utf8("\x1b[0m"@),
        Op::OpenLink(uri) => utf8("\x1b]8;;"@) + utf8(uri) + utf8("\x1b\\"@),
        Op::CloseLink => utf8("\x1b]8;;\x1b\\"@),
        Op::Text(text) => utf8(text),
    }
}

/// The bytes of a sequence of instructions.
pub open spec fn ops_bytes(ops: Seq<Op>) -> Seq<u8>
    decreases ops.len(),
{
    if ops.len() == 0 {
        Seq::empty()
    } else {
        ops_bytes(ops.drop_last()) + op_bytes(ops.last())
    }
}

/// One more instruction adds its bytes at the end.
pub proof fn lemma_ops_bytes_push(ops: Seq<Op>, op: Op)
    ensures
        ops_bytes(ops.push(op)) == ops_bytes(ops) + op_bytes(op),
{
    assert(ops.push(op).drop_last() =~= ops);
}

/// The bytes of one instruction alone.
pub proof fn lemma_ops_bytes_one(op: Op)
    ensures
        ops_bytes(seq![op]) == op_bytes(op),
{
    lemma_ops_bytes_push(Seq::empty(), op);
    assert(Seq::<Op>::empty().push(op) =~= seq![op]);
    assert(ops_bytes(Seq::<Op>::empty()) =~= Seq::<u8>::empty());
    assert(Seq::<u8>::empty() + op_bytes(op) =~= op_bytes(op));
}

/// The bytes of instructions in sequence are their bytes in sequence.
pub proof fn lemma_ops_bytes_add(a: Seq<Op>, b: Seq<Op>)
    ensures
        ops_bytes(a + b) == ops_bytes(a) + ops_bytes(b),
    decreases b.len(),
{
    if b.len() == 0 {
        assert(a + b =~= a);
        assert(ops_bytes(a) + Seq::<u8>::empty() =~= ops_bytes(a));
    } else {
        lemma_ops_bytes_add(a, b.drop_last());
        assert((a + b).drop_last() =~= a + b.drop_last());
        assert((a + b).last() == b.last());
        assert(ops_bytes(a) + ops_bytes(b.drop_last()) + op_bytes(b.last()) =~= ops_bytes(a) + (
        ops_bytes(b.drop_last()) + op_bytes(b.last())));
    }
}

/// Appends a string's UTF-8 bytes.
pub fn push_str(out: &mut Vec<u8>, text: &str)
    ensures
        final(out)@ == old(out)@ + utf8(text@),
{
    out.extend_from_slice(text.as_bytes());
    assert(out@ =~= old(out)@ + utf8(text@));
}

/// Appends the move to column `x` of row `y`: `ESC [ y+1 ; x+1 H`.
pub fn write_cursor_position(out: &mut Vec<u8>, position: (u16, u16))
    requires
        position.0 < u16::MAX,
        position.1 < u16::MAX,
    ensures
        final(out)@ == old(out)@ + op_bytes(Op::MoveTo { x: position.0, y: position.1 }),
{
    let (x, y) = position;
    push_str(out, "\x1b[");
    push_u16_dec(out, y + 1);
    out.push(SEMICOLON);
    push_u16_dec(out, x + 1);
    out.push(0x48);
    assert(out@ =~= old(out)@ + op_bytes(Op::MoveTo { x, y }));
}

} // verus!
