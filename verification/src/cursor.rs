//! Where the host cursor goes at the end of a frame.

use vstd::prelude::*;

use crate::decimal::push_u8_dec;
use crate::ops;
use crate::ops::{push_str, write_cursor_position, Op};
use crate::protocol::{CursorState, FrameData, FrameView};

verus! {

/// The final state of the host cursor for one frame.
#[derive(Clone, Copy, Debug)]
pub struct HostCursorState {
    /// Column and row, counted from 0.
    pub position: (u16, u16),
    pub visible: bool,
    /// DECSCUSR parameter, 0 to 6; 0 is the terminal's default.
    pub shape: u8,
}

/// The last of `n` indices, or 0 if there are none.
pub open spec fn last_index(n: u16) -> u16 {
    if n == 0 {
        0
    } else {
        (n - 1) as u16
    }
}

/// The position of the frame nearest to column `x`, row `y`.
pub open spec fn clamped(frame: FrameView, x: u16, y: u16) -> (u16, u16) {
    (
        if x <= last_index(frame.width) {
            x
        } else {
            last_index(frame.width)
        },
        if y <= last_index(frame.height) {
            y
        } else {
            last_index(frame.height)
        },
    )
}

/// The bottom-right corner of the frame.
pub open spec fn bottom_right(frame: FrameView) -> (u16, u16) {
    (last_index(frame.width), last_index(frame.height))
}

/// A valid cursor shape; an invalid one becomes the default.
pub open spec fn valid_shape(shape: u8) -> u8 {
    if shape <= 6 {
        shape
    } else {
        0
    }
}

/// The host cursor for a frame, given where a cursor was last visible.
///
/// A frame's own cursor decides position, visibility and shape. A frame without one
/// hides the host cursor and parks it where a cursor was last visible, or in the
/// bottom-right corner if none ever was.
pub open spec fn host_cursor(frame: FrameView, last_visible: Option<(u16, u16)>) -> HostCursorState {
    match frame.cursor {
        Some(cursor) => HostCursorState {
            position: clamped(frame, cursor.x, cursor.y),
            visible: cursor.visible,
            shape: valid_shape(cursor.shape),
        },
        None => HostCursorState {
            position: match last_visible {
                Some((x, y)) => clamped(frame, x, y),
                None => bottom_right(frame),
            },
            visible: false,
            shape: 0,
        },
    }
}

/// Where a cursor was last visible once the frame has been shown.
pub open spec fn remembered(frame: FrameView, last_visible: Option<(u16, u16)>) -> Option<
    (u16, u16),
> {
    match frame.cursor {
        Some(cursor) => if cursor.visible {
            Some(clamped(frame, cursor.x, cursor.y))
        } else {
            last_visible
        },
        None => last_visible,
    }
}

/// The shape itself if it is a DECSCUSR parameter, else 0.
pub fn normalize_cursor_shape(shape: u8) -> (res: u8)
    ensures
        res == valid_shape(shape),
{
    if shape <= 6 {
        shape
    } else {
        0
    }
}

/// Where the cursor is parked when nothing else is known: the bottom-right corner.
pub fn default_hidden_cursor_position(frame: &FrameData) -> (res: (u16, u16))
    ensures
        res == bottom_right(frame@),
{
    (frame.width.saturating_sub(1), frame.height.saturating_sub(1))
}

/// The position of the frame nearest to column `x`, row `y`.
pub fn clamp_cursor_position(frame: &FrameData, x: u16, y: u16) -> (res: (u16, u16))
    ensures
        res == clamped(frame@, x, y),
{
    let (right, bottom) = default_hidden_cursor_position(frame);
    (
        if x <= right {
            x
        } else {
            right
        },
        if y <= bottom {
            y
        } else {
            bottom
        },
    )
}

/// Decides the host cursor for a frame, and remembers where it was visible.
pub fn resolve_host_cursor_state(
    frame: &FrameData,
    last_visible_cursor: &mut Option<(u16, u16)>,
) -> (res: HostCursorState)
    ensures
        res == host_cursor(frame@, *old(last_visible_cursor)),
        *final(last_visible_cursor) == remembered(frame@, *old(last_visible_cursor)),
{
    if let Some(cursor) = frame.cursor {
        let position = clamp_cursor_position(frame, cursor.x, cursor.y);
        if cursor.visible {
            *last_visible_cursor = Some(position);
        }
        return HostCursorState {
            position,
            visible: cursor.visible,
            shape: normalize_cursor_shape(cursor.shape),
        };
    }
    let position = match *last_visible_cursor {
        Some((x, y)) => clamp_cursor_position(frame, x, y),
        None => default_hidden_cursor_position(frame),
    };
    HostCursorState { position, visible: false, shape: 0 }
}

/// The instruction that makes the cursor visible or not.
pub open spec fn visibility_op(visible: bool) -> Op {
    if visible {
        Op::ShowCursor
    } else {
        Op::HideCursor
    }
}

/// The instructions that move the cursor to its final position, set its shape if that
/// is not `last_shape`, and only then show or hide it.
pub open spec fn cursor_ops(cursor: HostCursorState, last_shape: u8) -> Seq<Op> {
    seq![Op::MoveTo { x: cursor.position.0, y: cursor.position.1 }] + (if cursor.shape
        != last_shape {
        seq![Op::CursorShape(cursor.shape)]
    } else {
        Seq::empty()
    }) + seq![visibility_op(cursor.visible)]
}

/// The instructions that repeat the final position and visibility, and nothing else.
pub open spec fn anchor_ops(cursor: HostCursorState) -> Seq<Op> {
    seq![
        Op::MoveTo { x: cursor.position.0, y: cursor.position.1 },
        visibility_op(cursor.visible),
    ]
}

/// Shows or hides the cursor.
fn write_visibility(out: &mut Vec<u8>, visible: bool)
    ensures
        final(out)@ == old(out)@ + ops::op_bytes(visibility_op(visible)),
{
    if visible {
        push_str(out, "\x1b[?25h");
    } else {
        push_str(out, "\x1b[?25l");
    }
}

/// Writes the final cursor state, the shape only if it is not `last_shape`, and
/// remembers the shape.
pub fn write_host_cursor_state(out: &mut Vec<u8>, cursor: HostCursorState, last_shape: &mut u8)
    requires
        cursor.position.0 < u16::MAX,
        cursor.position.1 < u16::MAX,
    ensures
        final(out)@ == old(out)@ + ops::ops_bytes(cursor_ops(cursor, *old(last_shape))),
        *final(last_shape) == cursor.shape,
{
    let ghost start = out@;
    let ghost move_op = Op::MoveTo { x: cursor.position.0, y: cursor.position.1 };
    let ghost shape_op = Op::CursorShape(cursor.shape);
    let ghost shape_ops = if cursor.shape != *last_shape {
        seq![shape_op]
    } else {
        Seq::empty()
    };
    let ghost see_op = visibility_op(cursor.visible);
    proof {
        ops::lemma_ops_bytes_one(move_op);
        ops::lemma_ops_bytes_one(shape_op);
        ops::lemma_ops_bytes_one(see_op);
        ops::lemma_ops_bytes_add(seq![move_op], shape_ops);
        ops::lemma_ops_bytes_add(seq![move_op] + shape_ops, seq![see_op]);
    }
    write_cursor_position(out, cursor.position);
    if cursor.shape != *last_shape {
        push_str(out, "\x1b[");
        push_u8_dec(out, cursor.shape);
        push_str(out, " q");
        *last_shape = cursor.shape;
    }
    write_visibility(out, cursor.visible);
    assert(out@ =~= start + ops::ops_bytes(seq![move_op] + shape_ops + seq![see_op]));
}

/// Writes the final cursor position and visibility again, without the shape.
pub fn write_ime_anchor_cursor_state(out: &mut Vec<u8>, cursor: HostCursorState)
    requires
        cursor.position.0 < u16::MAX,
        cursor.position.1 < u16::MAX,
    ensures
        final(out)@ == old(out)@ + ops::ops_bytes(anchor_ops(cursor)),
{
    let ghost start = out@;
    let ghost move_op = Op::MoveTo { x: cursor.position.0, y: cursor.position.1 };
    let ghost see_op = visibility_op(cursor.visible);
    proof {
        ops::lemma_ops_bytes_one(move_op);
        ops::lemma_ops_bytes_one(see_op);
        ops::lemma_ops_bytes_add(seq![move_op], seq![see_op]);
        assert(anchor_ops(cursor) =~= seq![move_op] + seq![see_op]);
    }
    write_cursor_position(out, cursor.position);
    write_visibility(out, cursor.visible);
    assert(out@ =~= start + ops::ops_bytes(anchor_ops(cursor)));
}

/// The host cursor of a frame that has a cell lies on one of its cells, and its shape
/// is a DECSCUSR parameter.
pub proof fn law_host_cursor_lies_in_frame(frame: FrameView, last_visible: Option<(u16, u16)>)
    ensures
        frame.width > 0 ==> host_cursor(frame, last_visible).position.0 < frame.width,
        frame.height > 0 ==> host_cursor(frame, last_visible).position.1 < frame.height,
        host_cursor(frame, last_visible).shape <= 6,
{
}

/// A frame without a cursor that follows a frame with a visible one hides the host
/// cursor and leaves it where it was, as far as that lies in the frame.
pub proof fn law_hidden_cursor_parks_at_last_visible(
    shown: FrameView,
    cursor: CursorState,
    next: FrameView,
    last_visible: Option<(u16, u16)>,
)
    requires
        shown.cursor == Some(cursor),
        cursor.visible,
        next.cursor is None,
    ensures
        ({
            let before = host_cursor(shown, last_visible);
            let after = host_cursor(next, remembered(shown, last_visible));
            &&& before.visible && !after.visible
            &&& after.position == clamped(next, before.position.0, before.position.1)
            &&& next.same_size(shown) ==> after.position == before.position
            &&& remembered(next, remembered(shown, last_visible)) == remembered(shown, last_visible)
        }),
{
}

/// The distance between two indices.
pub open spec fn apart(a: u16, b: u16) -> int {
    if a <= b {
        b - a
    } else {
        a - b
    }
}

/// A position in the frame stays as it is. Any other goes to the position of the frame
/// that is nearest to it, in its column and in its row.
pub proof fn law_clamped_is_nearest(frame: FrameView, x: u16, y: u16, a: u16, b: u16)
    requires
        a < frame.width,
        b < frame.height,
    ensures
        x < frame.width ==> clamped(frame, x, y).0 == x,
        y < frame.height ==> clamped(frame, x, y).1 == y,
        clamped(frame, x, y).0 < frame.width,
        clamped(frame, x, y).1 < frame.height,
        apart(clamped(frame, x, y).0, x) <= apart(a, x),
        apart(clamped(frame, x, y).1, y) <= apart(b, y),
{
}

/// A frame that has a cursor decides the host cursor: its position if that is in the
/// frame, its visibility, and its shape if that is a valid one. Where a cursor was last
/// visible makes no difference.
pub proof fn law_frame_cursor_decides(
    frame: FrameView,
    cursor: CursorState,
    last_visible: Option<(u16, u16)>,
    other: Option<(u16, u16)>,
)
    requires
        frame.cursor == Some(cursor),
    ensures
        host_cursor(frame, last_visible) == host_cursor(frame, other),
        cursor.x < frame.width ==> host_cursor(frame, last_visible).position.0 == cursor.x,
        cursor.y < frame.height ==> host_cursor(frame, last_visible).position.1 == cursor.y,
        cursor.x >= frame.width && frame.width > 0 ==> host_cursor(frame, last_visible).position.0
            == frame.width - 1,
        cursor.y >= frame.height && frame.height > 0 ==> host_cursor(
            frame,
            last_visible,
        ).position.1 == frame.height - 1,
        frame.width == 0 ==> host_cursor(frame, last_visible).position.0 == 0,
        frame.height == 0 ==> host_cursor(frame, last_visible).position.1 == 0,
        host_cursor(frame, last_visible).visible == cursor.visible,
        cursor.shape <= 6 ==> host_cursor(frame, last_visible).shape == cursor.shape,
        cursor.shape > 6 ==> host_cursor(frame, last_visible).shape == 0,
{
}

/// A frame without a cursor hides the host cursor, in the default shape, and parks it
/// where one was last visible if that is in the frame. If none ever was, it is parked in
/// the last column and row.
pub proof fn law_missing_cursor_is_parked(frame: FrameView, x: u16, y: u16)
    requires
        frame.cursor is None,
        frame.width > 0,
        frame.height > 0,
    ensures
        !host_cursor(frame, None).visible && !host_cursor(frame, Some((x, y))).visible,
        host_cursor(frame, None).shape == 0 && host_cursor(frame, Some((x, y))).shape == 0,
        host_cursor(frame, None).position.0 == frame.width - 1,
        host_cursor(frame, None).position.1 == frame.height - 1,
        x < frame.width ==> host_cursor(frame, Some((x, y))).position.0 == x,
        y < frame.height ==> host_cursor(frame, Some((x, y))).position.1 == y,
        x >= frame.width ==> host_cursor(frame, Some((x, y))).position.0 == frame.width - 1,
        y >= frame.height ==> host_cursor(frame, Some((x, y))).position.1 == frame.height - 1,
{
}

/// What is remembered changes with a visible cursor only, to where the host cursor is.
pub proof fn law_visible_cursor_is_remembered(frame: FrameView, last_visible: Option<(u16, u16)>)
    ensures
        host_cursor(frame, last_visible).visible ==> remembered(frame, last_visible) == Some(
            host_cursor(frame, last_visible).position,
        ),
        !host_cursor(frame, last_visible).visible ==> remembered(frame, last_visible)
            == last_visible,
{
}

/// The cursor is moved first and shown or hidden last. Its shape is told in between, and
/// only if it is not the one that the terminal was told last. Repeating the anchor never
/// tells it.
pub proof fn law_shape_is_told_on_change_only(cursor: HostCursorState, last_shape: u8)
    ensures
        ({
            let ops = cursor_ops(cursor, last_shape);
            &&& ops[0] == (Op::MoveTo { x: cursor.position.0, y: cursor.position.1 })
            &&& cursor.visible ==> ops.last() is ShowCursor
            &&& !cursor.visible ==> ops.last() is HideCursor
            &&& cursor.shape == last_shape ==> ops.len() == 2
            &&& cursor.shape != last_shape ==> ops.len() == 3 && ops[1] == Op::CursorShape(
                cursor.shape,
            )
        }),
        ({
            let ops = anchor_ops(cursor);
            &&& ops.len() == 2
            &&& ops[0] == (Op::MoveTo { x: cursor.position.0, y: cursor.position.1 })
            &&& cursor.visible ==> ops[1] is ShowCursor
            &&& !cursor.visible ==> ops[1] is HideCursor
        }),
{
}

} // verus!
