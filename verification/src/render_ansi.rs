//! Frame blitting: turns frames into terminal bytes, by diffs where it can.
//!
//! 1. The first frame, and the first after a change of size, is written whole.
//! 2. Later frames are compared with the last one, and only the cells that changed
//!    are written.
//! 3. Each frame is wrapped in synchronized output, so that terminals which support
//!    it never show a half-painted frame.
//! 4. The cursor is hidden before any cell is written.
//! 5. After the cells, the cursor's final position and visibility are restored.
//! 6. Where asked for, the final cursor anchor is repeated after the end of
//!    synchronized output, for input methods that track the cursor.

use vstd::prelude::*;

use crate::cursor;
use crate::cursor::{
    resolve_host_cursor_state, write_host_cursor_state, write_ime_anchor_cursor_state,
};
use crate::hyperlink;
use crate::hyperlink::{
    cell_hyperlink_uri, same_text, sanitized_cell_hyperlink_uri, sanitized_frame_hyperlinks,
    sanitized_hyperlink_uri,
};
use crate::ops;
use crate::ops::{push_str, write_cursor_position, Op};
use crate::protocol;
use crate::protocol::{cell_index, CellData, CellView, FrameData, FrameView};
use crate::sgr::build_sgr_into;
use crate::width;
use crate::width::cell_width;

verus! {

// ---------------------------------------------------------------------------
// Cell comparison
// ---------------------------------------------------------------------------

/// Two cells hold the same, apart from the `skip` flag.
pub open spec fn alike(a: CellView, b: CellView) -> bool {
    a == CellView { skip: a.skip, ..b }
}

/// Whether two cells hold the same symbol, colors, modifiers and hyperlink index.
/// The `skip` flag is not visual and is ignored.
pub fn cells_equal(a: &CellData, b: &CellData) -> (res: bool)
    ensures
        res == (a@ == CellView { skip: a@.skip, ..b@ }),
        res == alike(a@, b@),
{
    a.symbol == b.symbol && a.fg == b.fg && a.bg == b.bg && a.modifier == b.modifier && a.hyperlink
        == b.hyperlink
}

/// Whether two cells of two frames look the same: symbol, colors, modifiers and the
/// hyperlink target that is written for them.
pub open spec fn looks_same(
    frame: FrameView,
    cell: CellView,
    prev: FrameView,
    prev_cell: CellView,
) -> bool {
    &&& cell.symbol == prev_cell.symbol
    &&& cell.fg == prev_cell.fg
    &&& cell.bg == prev_cell.bg
    &&& cell.modifier == prev_cell.modifier
    &&& hyperlink::cell_link(frame, cell) == hyperlink::cell_link(prev, prev_cell)
}

/// Whether two cells look the same, given the sanitized hyperlink tables of their
/// frames.
pub fn cells_visually_equal(
    sanitized_hyperlinks: &[Option<String>],
    cell: &CellData,
    prev_sanitized_hyperlinks: &[Option<String>],
    prev_cell: &CellData,
) -> (res: bool)
    ensures
        res == {
            &&& cell@.symbol == prev_cell@.symbol
            &&& cell@.fg == prev_cell@.fg
            &&& cell@.bg == prev_cell@.bg
            &&& cell@.modifier == prev_cell@.modifier
            &&& hyperlink::table_link(hyperlink::text_options(sanitized_hyperlinks@), cell@)
                == hyperlink::table_link(
                hyperlink::text_options(prev_sanitized_hyperlinks@),
                prev_cell@,
            )
        },
{
    cell.symbol == prev_cell.symbol && cell.fg == prev_cell.fg && cell.bg == prev_cell.bg
        && cell.modifier == prev_cell.modifier && same_text(
        sanitized_cell_hyperlink_uri(sanitized_hyperlinks, cell),
        sanitized_cell_hyperlink_uri(prev_sanitized_hyperlinks, prev_cell),
    )
}

// ---------------------------------------------------------------------------
// Which cells are painted
// ---------------------------------------------------------------------------

/// The width in columns of the cell at a position.
pub open spec fn width_at(frame: FrameView, row: int, col: int) -> nat {
    width::display_width(frame.at(row, col).symbol)
}

/// How many columns beyond its own a cell of width `w` covers.
pub open spec fn tail(w: nat) -> nat {
    if w == 0 {
        0
    } else {
        (w - 1) as nat
    }
}

/// In a full redraw, how many columns from `col` on are covered by a symbol that was
/// painted to the left of `col`.
pub open spec fn covered(frame: FrameView, row: int, col: nat) -> nat
    decreases col,
{
    if col == 0 {
        0
    } else {
        let before = covered(frame, row, (col - 1) as nat);
        if before > 0 {
            (before - 1) as nat
        } else if frame.at(row, col - 1).skip {
            0
        } else {
            tail(width_at(frame, row, col - 1))
        }
    }
}

/// Whether a full redraw paints the cell at a position.
pub open spec fn full_paints(frame: FrameView, row: int, col: nat) -> bool {
    covered(frame, row, col) == 0 && !frame.at(row, col as int).skip
}

/// The cells (row, column) of one row that a full redraw paints, left of `n`.
pub open spec fn full_row(frame: FrameView, row: int, n: nat) -> Seq<(int, int)>
    decreases n,
{
    if n == 0 {
        Seq::empty()
    } else {
        let left = full_row(frame, row, (n - 1) as nat);
        if full_paints(frame, row, (n - 1) as nat) {
            left.push((row, n - 1))
        } else {
            left
        }
    }
}

/// The cells that a full redraw paints in the rows above `n`, in the order in which
/// it paints them.
pub open spec fn full_cells(frame: FrameView, n: nat) -> Seq<(int, int)>
    decreases n,
{
    if n == 0 {
        Seq::empty()
    } else {
        full_cells(frame, (n - 1) as nat) + full_row(frame, n - 1, frame.width as nat)
    }
}

/// How many columns from `col` on may have been disturbed because a symbol to the
/// left of `col`, of either frame, reaches into them.
pub open spec fn disturbed(frame: FrameView, prev: FrameView, row: int, col: nat) -> nat
    decreases col,
{
    if col == 0 {
        0
    } else {
        let before = disturbed(frame, prev, row, (col - 1) as nat);
        let new = width_at(frame, row, col - 1);
        let old_width = width_at(prev, row, col - 1);
        let widest = if old_width > new {
            old_width
        } else {
            new
        };
        tail(
            if before > widest {
                before
            } else {
                widest
            },
        )
    }
}

/// How many columns from `col` on the symbols to the left of `col` reach into. A symbol
/// reaches over all the columns it takes up, however many cells they are.
pub open spec fn reaching(frame: FrameView, row: int, col: nat) -> nat
    decreases col,
{
    if col == 0 {
        0
    } else {
        let before = reaching(frame, row, (col - 1) as nat);
        let width = width_at(frame, row, col - 1);
        tail(
            if before > width {
                before
            } else {
                width
            },
        )
    }
}

/// Whether a diff paints the cell at a position: it looks different or was disturbed,
/// and no symbol to its left reaches over it.
pub open spec fn diff_paints(frame: FrameView, prev: FrameView, row: int, col: nat) -> bool {
    &&& !frame.at(row, col as int).skip
    &&& {
        ||| !looks_same(frame, frame.at(row, col as int), prev, prev.at(row, col as int))
        ||| disturbed(frame, prev, row, col) > 0
    }
    &&& reaching(frame, row, col) == 0
}

/// The cells (row, column) of one row that a diff paints, left of `n`.
pub open spec fn diff_row(frame: FrameView, prev: FrameView, row: int, n: nat) -> Seq<(int, int)>
    decreases n,
{
    if n == 0 {
        Seq::empty()
    } else {
        let left = diff_row(frame, prev, row, (n - 1) as nat);
        if diff_paints(frame, prev, row, (n - 1) as nat) {
            left.push((row, n - 1))
        } else {
            left
        }
    }
}

/// The cells that a diff paints in the rows above `n`, in the order in which it
/// paints them.
pub open spec fn diff_cells(frame: FrameView, prev: FrameView, n: nat) -> Seq<(int, int)>
    decreases n,
{
    if n == 0 {
        Seq::empty()
    } else {
        diff_cells(frame, prev, (n - 1) as nat) + diff_row(
            frame,
            prev,
            n - 1,
            frame.width as nat,
        )
    }
}

// ---------------------------------------------------------------------------
// The instructions for a list of cells
// ---------------------------------------------------------------------------

/// A style: foreground, background, modifiers.
pub type Style = (u32, u32, u16);

pub open spec fn style_of(cell: CellView) -> Style {
    (cell.fg, cell.bg, cell.modifier)
}

/// The instructions that go from one active style to another; `None` is unknown.
pub open spec fn style_change(from: Option<Style>, to: Style) -> Seq<Op> {
    if from == Some(to) {
        Seq::empty()
    } else {
        seq![Op::Style { fg: to.0, bg: to.1, modifier: to.2 }]
    }
}

/// The instructions that go from one active hyperlink to another.
pub open spec fn link_change(from: Option<Seq<char>>, to: Option<Seq<char>>) -> Seq<Op> {
    if from == to {
        Seq::empty()
    } else {
        (if from is Some {
            seq![Op::CloseLink]
        } else {
            Seq::empty()
        }) + (match to {
            Some(uri) => seq![Op::OpenLink(uri)],
            None => Seq::empty(),
        })
    }
}

/// The instructions that paint one cell, given the active style and hyperlink.
pub open spec fn cell_ops(
    frame: FrameView,
    row: int,
    col: int,
    cell: CellView,
    style: Option<Style>,
    link: Option<Seq<char>>,
) -> Seq<Op> {
    seq![Op::MoveTo { x: col as u16, y: row as u16 }] + style_change(style, style_of(cell))
        + link_change(link, hyperlink::cell_link(frame, cell)) + seq![Op::Text(cell.symbol)]
}

/// The style that is active after `cells` were painted; none is known before.
pub open spec fn style_after(frame: FrameView, cells: Seq<(int, int)>) -> Option<Style> {
    if cells.len() == 0 {
        None
    } else {
        Some(style_of(frame.at(cells.last().0, cells.last().1)))
    }
}

/// The hyperlink that is active after `cells` were painted.
pub open spec fn link_after(frame: FrameView, cells: Seq<(int, int)>) -> Option<Seq<char>> {
    if cells.len() == 0 {
        None
    } else {
        hyperlink::cell_link(frame, frame.at(cells.last().0, cells.last().1))
    }
}

/// The instructions that paint `cells` one after the other. With `dedup`, a style
/// that is active already is not set again.
pub open spec fn paint_ops(frame: FrameView, cells: Seq<(int, int)>, dedup: bool) -> Seq<Op>
    decreases cells.len(),
{
    if cells.len() == 0 {
        Seq::empty()
    } else {
        let before = cells.drop_last();
        let (row, col) = cells.last();
        paint_ops(frame, before, dedup) + cell_ops(
            frame,
            row,
            col,
            frame.at(row, col),
            if dedup {
                style_after(frame, before)
            } else {
                None
            },
            link_after(frame, before),
        )
    }
}

/// The instructions of a full redraw after the screen was cleared.
pub open spec fn all_cells_ops(frame: FrameView) -> Seq<Op> {
    let cells = full_cells(frame, frame.height as nat);
    paint_ops(frame, cells, false) + link_change(link_after(frame, cells), None)
        + seq![Op::ResetStyle]
}

/// The instructions of a diff.
pub open spec fn changed_cells_ops(frame: FrameView, prev: FrameView) -> Seq<Op> {
    let cells = diff_cells(frame, prev, frame.height as nat);
    paint_ops(frame, cells, true) + link_change(link_after(frame, cells), None) + (if cells.len()
        > 0 {
        seq![Op::ResetStyle]
    } else {
        Seq::empty()
    })
}

/// Switches the active hyperlink to the sanitized `requested` one, if it differs.
pub fn write_hyperlink_if_changed(
    out: &mut Vec<u8>,
    active: &mut Option<String>,
    requested: Option<&str>,
)
    ensures
        hyperlink::text_option(*final(active)) == (match requested {
            Some(uri) => hyperlink::sanitized(uri@),
            None => None,
        }),
        final(out)@ == old(out)@ + ops::ops_bytes(
            link_change(
                hyperlink::text_option(*old(active)),
                hyperlink::text_option(*final(active)),
            ),
        ),
{
    let ghost start = out@;
    let ghost from = hyperlink::text_option(*active);
    let wanted: Option<String> = match requested {
        Some(uri) => sanitized_hyperlink_uri(uri),
        None => None,
    };
    let ghost to = hyperlink::text_option(wanted);
    let same = match (&*active, &wanted) {
        (Some(a), Some(b)) => *a == *b,
        (None, None) => true,
        _ => false,
    };
    if same {
        assert(out@ =~= start + ops::ops_bytes(link_change(from, to)));
        return;
    }
    proof {
        ops::lemma_ops_bytes_one(Op::CloseLink);
        if to is Some {
            ops::lemma_ops_bytes_one(Op::OpenLink(to.unwrap()));
        }
        ops::lemma_ops_bytes_add(
            if from is Some {
                seq![Op::CloseLink]
            } else {
                Seq::empty()
            },
            match to {
                Some(uri) => seq![Op::OpenLink(uri)],
                None => Seq::empty(),
            },
        );
    }
    if active.is_some() {
        push_str(out, "\x1b]8;;\x1b\\");
    }
    if let Some(uri) = &wanted {
        push_str(out, "\x1b]8;;");
        push_str(out, uri.as_str());
        push_str(out, "\x1b\\");
    }
    *active = wanted;
    assert(out@ =~= start + ops::ops_bytes(link_change(from, to)));
}

/// Closes the active hyperlink, if there is one.
pub fn close_hyperlink(out: &mut Vec<u8>, active: &mut Option<String>)
    ensures
        *final(active) is None,
        final(out)@ == old(out)@ + ops::ops_bytes(
            link_change(hyperlink::text_option(*old(active)), None),
        ),
{
    let ghost start = out@;
    let ghost from = hyperlink::text_option(*active);
    proof {
        ops::lemma_ops_bytes_one(Op::CloseLink);
        assert(seq![Op::CloseLink] + Seq::empty() =~= seq![Op::CloseLink]);
    }
    if active.take().is_some() {
        push_str(out, "\x1b]8;;\x1b\\");
    }
    assert(out@ =~= start + ops::ops_bytes(link_change(from, None)));
}

/// Paints one cell unless it is marked `skip`. The style is set only if it is not
/// `last_style`; `sgr_buf` is a scratch buffer.
pub fn write_cell(
    out: &mut Vec<u8>,
    row: u16,
    col: u16,
    cell: &CellData,
    last_style: &mut Option<Style>,
    sgr_buf: &mut Vec<u8>,
    active_hyperlink: &mut Option<String>,
    frame: &FrameData,
)
    requires
        row < u16::MAX,
        col < u16::MAX,
    ensures
        final(sgr_buf)@ == if cell@.skip || *old(last_style) == Some(style_of(cell@)) {
            old(sgr_buf)@
        } else {
            crate::sgr::sgr_bytes(cell@.fg, cell@.bg, cell@.modifier)
        },
        cell@.skip ==> {
            &&& final(out)@ == old(out)@
            &&& *final(last_style) == *old(last_style)
            &&& *final(active_hyperlink) == *old(active_hyperlink)
        },
        !cell@.skip ==> {
            &&& final(out)@ == old(out)@ + ops::ops_bytes(
                cell_ops(
                    frame@,
                    row as int,
                    col as int,
                    cell@,
                    *old(last_style),
                    hyperlink::text_option(*old(active_hyperlink)),
                ),
            )
            &&& *final(last_style) == Some(style_of(cell@))
            &&& hyperlink::text_option(*final(active_hyperlink)) == hyperlink::cell_link(
                frame@,
                cell@,
            )
        },
{
    if cell.skip {
        return;
    }
    let ghost start = out@;
    let ghost style_ops = style_change(*last_style, style_of(cell@));
    let ghost link_ops = link_change(
        hyperlink::text_option(*active_hyperlink),
        hyperlink::cell_link(frame@, cell@),
    );
    let ghost move_op = Op::MoveTo { x: col, y: row };
    let ghost text_op = Op::Text(cell@.symbol);
    proof {
        ops::lemma_ops_bytes_one(move_op);
        ops::lemma_ops_bytes_one(text_op);
        ops::lemma_ops_bytes_one(Op::Style { fg: cell.fg, bg: cell.bg, modifier: cell.modifier });
        ops::lemma_ops_bytes_add(seq![move_op], style_ops);
        ops::lemma_ops_bytes_add(seq![move_op] + style_ops, link_ops);
        ops::lemma_ops_bytes_add(seq![move_op] + style_ops + link_ops, seq![text_op]);
    }
    write_cursor_position(out, (col, row));
    let style: Style = (cell.fg, cell.bg, cell.modifier);
    let unchanged = match *last_style {
        Some(active) => active.0 == style.0 && active.1 == style.1 && active.2 == style.2,
        None => false,
    };
    if !unchanged {
        sgr_buf.clear();
        build_sgr_into(sgr_buf, cell.fg, cell.bg, cell.modifier);
        assert(sgr_buf@ =~= crate::sgr::sgr_bytes(cell.fg, cell.bg, cell.modifier));
        out.extend_from_slice(sgr_buf.as_slice());
        *last_style = Some(style);
    }
    assert(out@ =~= start + ops::op_bytes(move_op) + ops::ops_bytes(style_ops));
    write_hyperlink_if_changed(out, active_hyperlink, cell_hyperlink_uri(frame, cell));
    push_str(out, cell.symbol.as_str());
    assert(out@ =~= start + ops::ops_bytes(
        seq![move_op] + style_ops + link_ops + seq![text_op],
    ));
}

/// Painting one more cell adds its instructions at the end.
proof fn lemma_paint_ops_push(
    frame: FrameView,
    cells: Seq<(int, int)>,
    row: int,
    col: int,
    dedup: bool,
)
    ensures
        ops::ops_bytes(paint_ops(frame, cells.push((row, col)), dedup)) == ops::ops_bytes(
            paint_ops(frame, cells, dedup),
        ) + ops::ops_bytes(
            cell_ops(
                frame,
                row,
                col,
                frame.at(row, col),
                if dedup {
                    style_after(frame, cells)
                } else {
                    None
                },
                link_after(frame, cells),
            ),
        ),
        style_after(frame, cells.push((row, col))) == Some(style_of(frame.at(row, col))),
        link_after(frame, cells.push((row, col))) == hyperlink::cell_link(
            frame,
            frame.at(row, col),
        ),
{
    assert(cells.push((row, col)).drop_last() =~= cells);
    ops::lemma_ops_bytes_add(
        paint_ops(frame, cells, dedup),
        cell_ops(
            frame,
            row,
            col,
            frame.at(row, col),
            if dedup {
                style_after(frame, cells)
            } else {
                None
            },
            link_after(frame, cells),
        ),
    );
}

/// The larger of two widths.
pub(crate) fn wider(a: usize, b: usize) -> (res: usize)
    ensures
        res == if a > b {
            a
        } else {
            b
        },
{
    if a > b {
        a
    } else {
        b
    }
}

/// Writes every cell of the frame, skipping the columns that wide symbols cover.
pub fn write_all_cells(out: &mut Vec<u8>, frame: &FrameData)
    requires
        frame@.covers_grid(),
    ensures
        final(out)@ == old(out)@ + ops::ops_bytes(all_cells_ops(frame@)),
{
    let ghost start = out@;
    let ghost view = frame@;
    let mut active_hyperlink: Option<String> = None;
    let mut sgr_buf: Vec<u8> = Vec::new();
    let ghost mut painted: Seq<(int, int)> = Seq::empty();
    assert(out@ =~= start + ops::ops_bytes(paint_ops(view, painted, false)));
    for row in 0..frame.height
        invariant
            view == frame@,
            view.covers_grid(),
            painted == full_cells(view, row as nat),
            hyperlink::text_option(active_hyperlink) == link_after(view, painted),
            out@ == start + ops::ops_bytes(paint_ops(view, painted, false)),
    {
        let mut to_skip: usize = 0;
        let ghost above = painted;
        assert(painted =~= above + full_row(view, row as int, 0));
        for col in 0..frame.width
            invariant
                view == frame@,
                view.covers_grid(),
                row < frame.height,
                above == full_cells(view, row as nat),
                painted == above + full_row(view, row as int, col as nat),
                to_skip == covered(view, row as int, col as nat),
                hyperlink::text_option(active_hyperlink) == link_after(view, painted),
                out@ == start + ops::ops_bytes(paint_ops(view, painted, false)),
        {
            if to_skip > 0 {
                to_skip -= 1;
            } else {
                let idx = cell_index(frame.width, frame.height, row, col);
                let cell = &frame.cells[idx];
                assert(cell@ == view.at(row as int, col as int));
                if !cell.skip {
                    // Every cell carries its own style here.
                    let mut no_style: Option<Style> = None;
                    write_cell(
                        out,
                        row,
                        col,
                        cell,
                        &mut no_style,
                        &mut sgr_buf,
                        &mut active_hyperlink,
                        frame,
                    );
                    to_skip = cell_width(cell).saturating_sub(1);
                    proof {
                        lemma_paint_ops_push(view, painted, row as int, col as int, false);
                        let next = painted.push((row as int, col as int));
                        assert(out@ =~= start + ops::ops_bytes(paint_ops(view, next, false)));
                        assert(next =~= above + full_row(view, row as int, (col + 1) as nat));
                        painted = next;
                    }
                }
            }
        }
    }
    let ghost linked = out@;
    close_hyperlink(out, &mut active_hyperlink);
    push_str(out, "\x1b[0m");
    proof {
        let paint = paint_ops(view, painted, false);
        let close = link_change(link_after(view, painted), None);
        ops::lemma_ops_bytes_one(Op::ResetStyle);
        ops::lemma_ops_bytes_add(paint, close);
        ops::lemma_ops_bytes_add(paint + close, seq![Op::ResetStyle]);
        assert(out@ =~= start + ops::ops_bytes(paint + close + seq![Op::ResetStyle]));
    }
}

/// Writes only the cells that changed since `prev`.
pub fn write_changed_cells(out: &mut Vec<u8>, frame: &FrameData, prev: &FrameData)
    requires
        frame@.covers_grid(),
        prev@.covers_grid(),
        frame@.same_size(prev@),
    ensures
        final(out)@ == old(out)@ + ops::ops_bytes(changed_cells_ops(frame@, prev@)),
{
    let ghost start = out@;
    let ghost view = frame@;
    let ghost prev_view = prev@;
    let mut last_style: Option<Style> = None;
    let mut sgr_buf: Vec<u8> = Vec::new();
    let mut active_hyperlink: Option<String> = None;
    let sanitized_hyperlinks = sanitized_frame_hyperlinks(frame);
    let prev_sanitized_hyperlinks = sanitized_frame_hyperlinks(prev);
    let ghost mut painted: Seq<(int, int)> = Seq::empty();
    assert(out@ =~= start + ops::ops_bytes(paint_ops(view, painted, true)));
    for row in 0..frame.height
        invariant
            view == frame@,
            prev_view == prev@,
            view.covers_grid(),
            prev_view.covers_grid(),
            view.same_size(prev_view),
            hyperlink::text_options(sanitized_hyperlinks@) == hyperlink::sanitized_table(
                view.hyperlinks,
            ),
            hyperlink::text_options(prev_sanitized_hyperlinks@) == hyperlink::sanitized_table(
                prev_view.hyperlinks,
            ),
            painted == diff_cells(view, prev_view, row as nat),
            last_style == style_after(view, painted),
            hyperlink::text_option(active_hyperlink) == link_after(view, painted),
            out@ == start + ops::ops_bytes(paint_ops(view, painted, true)),
    {
        let mut invalidated: usize = 0;
        let mut to_skip: usize = 0;
        let ghost above = painted;
        assert(painted =~= above + diff_row(view, prev_view, row as int, 0));
        for col in 0..frame.width
            invariant
                view == frame@,
                prev_view == prev@,
                view.covers_grid(),
                prev_view.covers_grid(),
                view.same_size(prev_view),
                hyperlink::text_options(sanitized_hyperlinks@) == hyperlink::sanitized_table(
                    view.hyperlinks,
                ),
                hyperlink::text_options(prev_sanitized_hyperlinks@) == hyperlink::sanitized_table(
                    prev_view.hyperlinks,
                ),
                row < frame.height,
                above == diff_cells(view, prev_view, row as nat),
                painted == above + diff_row(view, prev_view, row as int, col as nat),
                invalidated == disturbed(view, prev_view, row as int, col as nat),
                to_skip == reaching(view, row as int, col as nat),
                last_style == style_after(view, painted),
                hyperlink::text_option(active_hyperlink) == link_after(view, painted),
                out@ == start + ops::ops_bytes(paint_ops(view, painted, true)),
        {
            let idx = cell_index(frame.width, frame.height, row, col);
            let cell = &frame.cells[idx];
            let prev_cell = &prev.cells[idx];
            assert(cell@ == view.at(row as int, col as int));
            assert(prev_cell@ == prev_view.at(row as int, col as int));
            proof {
                hyperlink::law_table_link_is_cell_link(view, cell@);
                hyperlink::law_table_link_is_cell_link(prev_view, prev_cell@);
            }
            if !cell.skip && (!cells_visually_equal(
                sanitized_hyperlinks.as_slice(),
                cell,
                prev_sanitized_hyperlinks.as_slice(),
                prev_cell,
            ) || invalidated > 0) && to_skip == 0 {
                write_cell(
                    out,
                    row,
                    col,
                    cell,
                    &mut last_style,
                    &mut sgr_buf,
                    &mut active_hyperlink,
                    frame,
                );
                proof {
                    lemma_paint_ops_push(view, painted, row as int, col as int, true);
                    let next = painted.push((row as int, col as int));
                    assert(out@ =~= start + ops::ops_bytes(paint_ops(view, next, true)));
                    assert(next =~= above + diff_row(
                        view,
                        prev_view,
                        row as int,
                        (col + 1) as nat,
                    ));
                    painted = next;
                }
            }
            to_skip = wider(to_skip, cell_width(cell)).saturating_sub(1);
            let affected_width = wider(cell_width(cell), cell_width(prev_cell));
            invalidated = wider(affected_width, invalidated).saturating_sub(1);
        }
    }
    close_hyperlink(out, &mut active_hyperlink);
    if last_style.is_some() {
        push_str(out, "\x1b[0m");
    }
    proof {
        let paint = paint_ops(view, painted, true);
        let close = link_change(link_after(view, painted), None);
        let reset = if painted.len() > 0 {
            seq![Op::ResetStyle]
        } else {
            Seq::empty()
        };
        ops::lemma_ops_bytes_one(Op::ResetStyle);
        ops::lemma_ops_bytes_add(paint, close);
        ops::lemma_ops_bytes_add(paint + close, reset);
        assert(out@ =~= start + ops::ops_bytes(paint + close + reset));
    }
}

// ---------------------------------------------------------------------------
// Whole frames
// ---------------------------------------------------------------------------

/// Whether a frame is written whole: there is no previous frame, or its size differs.
pub open spec fn full_redraw(frame: FrameView, prev: Option<FrameView>) -> bool {
    match prev {
        Some(p) => !p.same_size(frame),
        None => true,
    }
}

/// Whether a frame can be written against a previous one: every cell that is read
/// exists.
pub open spec fn blit_ready(frame: FrameView, prev: Option<FrameView>) -> bool {
    &&& frame.covers_grid()
    &&& !full_redraw(frame, prev) ==> prev.unwrap().covers_grid()
}

/// The host cursor that a blit ends with.
pub open spec fn final_cursor(
    frame: FrameView,
    last_visible: Option<(u16, u16)>,
    suppress: bool,
) -> cursor::HostCursorState {
    let resolved = cursor::host_cursor(frame, last_visible);
    cursor::HostCursorState { visible: resolved.visible && !suppress, ..resolved }
}

/// The instructions that paint the cells of a frame.
pub open spec fn body_ops(frame: FrameView, prev: Option<FrameView>) -> Seq<Op> {
    if full_redraw(frame, prev) {
        seq![Op::ClearScreen] + all_cells_ops(frame)
    } else {
        changed_cells_ops(frame, prev.unwrap())
    }
}

/// The instructions of a frame up to the end of synchronized output: hide the cursor,
/// begin synchronized output, drop any hyperlink that was left open, paint, and place
/// the cursor.
pub open spec fn synced_ops(
    frame: FrameView,
    prev: Option<FrameView>,
    last_visible: Option<(u16, u16)>,
    last_shape: u8,
    suppress: bool,
) -> Seq<Op> {
    seq![Op::HideCursor, Op::BeginSync, Op::CloseLink] + body_ops(frame, prev)
        + cursor::cursor_ops(final_cursor(frame, last_visible, suppress), last_shape)
}

/// All instructions of a frame.
pub open spec fn blit_ops(
    frame: FrameView,
    prev: Option<FrameView>,
    last_visible: Option<(u16, u16)>,
    last_shape: u8,
    repeat: bool,
    suppress: bool,
) -> Seq<Op> {
    synced_ops(frame, prev, last_visible, last_shape, suppress) + seq![Op::EndSync] + (if repeat {
        cursor::anchor_ops(final_cursor(frame, last_visible, suppress))
    } else {
        Seq::empty()
    })
}

/// Appends the bytes of a frame, diffed against `prev` where that has the same size.
///
/// `last_visible_cursor` and `last_cursor_shape` are what the terminal was last told,
/// and are brought up to date. With `repeat_ime_anchor` the final cursor position is
/// repeated after the end of synchronized output. With `suppress_visible_cursor` the
/// cursor stays hidden.
pub fn blit_frame_to_with_cursor_memory_and_policy(
    out: &mut Vec<u8>,
    frame: &FrameData,
    prev: Option<&FrameData>,
    last_visible_cursor: &mut Option<(u16, u16)>,
    last_cursor_shape: &mut u8,
    repeat_ime_anchor: bool,
    suppress_visible_cursor: bool,
)
    requires
        blit_ready(frame@, protocol::frame_option(prev)),
    ensures
        final(out)@ == old(out)@ + ops::ops_bytes(
            blit_ops(
                frame@,
                protocol::frame_option(prev),
                *old(last_visible_cursor),
                *old(last_cursor_shape),
                repeat_ime_anchor,
                suppress_visible_cursor,
            ),
        ),
        *final(last_visible_cursor) == cursor::remembered(frame@, *old(last_visible_cursor)),
        *final(last_cursor_shape) == cursor::host_cursor(frame@, *old(last_visible_cursor)).shape,
{
    let ghost start = out@;
    let ghost prev_view = protocol::frame_option(prev);
    let ghost visible_before = *last_visible_cursor;
    let ghost shape_before = *last_cursor_shape;
    push_str(out, "\x1b[?25l");
    push_str(out, "\x1b[?2026h");
    push_str(out, "\x1b]8;;\x1b\\");
    let ghost opening = ops::op_bytes(Op::HideCursor) + ops::op_bytes(Op::BeginSync)
        + ops::op_bytes(Op::CloseLink);
    assert(out@ =~= start + opening);
    write_body(out, frame, prev);
    let mut host_cursor = resolve_host_cursor_state(frame, last_visible_cursor);
    if suppress_visible_cursor && host_cursor.visible {
        host_cursor.visible = false;
    }
    write_host_cursor_state(out, host_cursor, last_cursor_shape);
    push_str(out, "\x1b[?2026l");
    let ghost unanchored = out@;
    if repeat_ime_anchor {
        write_ime_anchor_cursor_state(out, host_cursor);
    }
    proof {
        let anchor = if repeat_ime_anchor {
            cursor::anchor_ops(host_cursor)
        } else {
            Seq::empty()
        };
        assert(out@ =~= unanchored + ops::ops_bytes(anchor));
        lemma_blit_ops_bytes(
            frame@,
            prev_view,
            visible_before,
            shape_before,
            repeat_ime_anchor,
            suppress_visible_cursor,
        );
        lemma_regroup(
            start,
            opening,
            ops::ops_bytes(body_ops(frame@, prev_view)),
            ops::ops_bytes(cursor::cursor_ops(host_cursor, shape_before)),
            ops::op_bytes(Op::EndSync),
            ops::ops_bytes(anchor),
        );
    }
}

/// Appends the bytes that paint the cells of a frame.
fn write_body(out: &mut Vec<u8>, frame: &FrameData, prev: Option<&FrameData>)
    requires
        blit_ready(frame@, protocol::frame_option(prev)),
    ensures
        final(out)@ == old(out)@ + ops::ops_bytes(
            body_ops(frame@, protocol::frame_option(prev)),
        ),
{
    let ghost start = out@;
    if let Some(p) = prev {
        if p.width == frame.width && p.height == frame.height {
            write_changed_cells(out, frame, p);
            return;
        }
    }
    push_str(out, "\x1b[2J\x1b[H");
    write_all_cells(out, frame);
    proof {
        ops::lemma_ops_bytes_one(Op::ClearScreen);
        ops::lemma_ops_bytes_add(seq![Op::ClearScreen], all_cells_ops(frame@));
        assert(out@ =~= start + ops::ops_bytes(seq![Op::ClearScreen] + all_cells_ops(frame@)));
    }
}

/// The bytes of a frame are those of its parts.
proof fn lemma_blit_ops_bytes(
    frame: FrameView,
    prev: Option<FrameView>,
    last_visible: Option<(u16, u16)>,
    last_shape: u8,
    repeat: bool,
    suppress: bool,
)
    ensures
        ({
            let cursor = final_cursor(frame, last_visible, suppress);
            &&& ops::ops_bytes(synced_ops(frame, prev, last_visible, last_shape, suppress)) == (
            ops::op_bytes(Op::HideCursor) + ops::op_bytes(Op::BeginSync) + ops::op_bytes(
                Op::CloseLink,
            )) + ops::ops_bytes(body_ops(frame, prev)) + ops::ops_bytes(
                cursor::cursor_ops(cursor, last_shape),
            )
            &&& ops::ops_bytes(blit_ops(frame, prev, last_visible, last_shape, repeat, suppress))
                == ops::ops_bytes(synced_ops(frame, prev, last_visible, last_shape, suppress))
                + ops::op_bytes(Op::EndSync) + ops::ops_bytes(
                if repeat {
                    cursor::anchor_ops(cursor)
                } else {
                    Seq::empty()
                },
            )
        }),
{
    let opening = seq![Op::HideCursor, Op::BeginSync, Op::CloseLink];
    let body = body_ops(frame, prev);
    let host = final_cursor(frame, last_visible, suppress);
    let placing = cursor::cursor_ops(host, last_shape);
    let anchor = if repeat {
        cursor::anchor_ops(host)
    } else {
        Seq::empty()
    };
    lemma_three_ops(Op::HideCursor, Op::BeginSync, Op::CloseLink);
    ops::lemma_ops_bytes_one(Op::EndSync);
    ops::lemma_ops_bytes_add(opening, body);
    ops::lemma_ops_bytes_add(opening + body, placing);
    ops::lemma_ops_bytes_add(opening + body + placing, seq![Op::EndSync]);
    ops::lemma_ops_bytes_add(opening + body + placing + seq![Op::EndSync], anchor);
}

proof fn lemma_regroup(
    s: Seq<u8>,
    a: Seq<u8>,
    b: Seq<u8>,
    c: Seq<u8>,
    d: Seq<u8>,
    e: Seq<u8>,
)
    ensures
        s + a + b + c + d + e == s + (a + b + c + d + e),
{
    assert(s + a + b + c + d + e =~= s + (a + b + c + d + e));
}

proof fn lemma_three_ops(a: Op, b: Op, c: Op)
    ensures
        ops::ops_bytes(seq![a, b, c]) == ops::op_bytes(a) + ops::op_bytes(b) + ops::op_bytes(c),
{
    ops::lemma_ops_bytes_one(a);
    ops::lemma_ops_bytes_push(seq![a], b);
    ops::lemma_ops_bytes_push(seq![a].push(b), c);
    assert(seq![a].push(b).push(c) =~= seq![a, b, c]);
}

/// The final cursor anchor is repeated after synchronized output.
pub open spec fn repeats_anchor(windows: bool) -> bool {
    !windows
}

/// The bytes of a frame for a terminal that never showed a cursor.
pub open spec fn plain_blit(frame: FrameView, prev: Option<FrameView>, windows: bool) -> Seq<u8> {
    ops::ops_bytes(blit_ops(frame, prev, None, 0, repeats_anchor(windows), false))
}

/// Whether the final cursor anchor is repeated after synchronized output. Windows
/// Terminal shows the repeat as cursor movement, so Windows skips it.
pub fn repeat_ime_anchor_after_sync(windows: bool) -> (res: bool)
    ensures
        res == !windows,
        res == repeats_anchor(windows),
{
    !windows
}

/// Appends the bytes of a frame under the anchor policy of the platform.
pub fn blit_frame_to_with_cursor_memory(
    out: &mut Vec<u8>,
    frame: &FrameData,
    prev: Option<&FrameData>,
    last_visible_cursor: &mut Option<(u16, u16)>,
    last_cursor_shape: &mut u8,
    suppress_visible_cursor: bool,
    windows: bool,
)
    requires
        blit_ready(frame@, protocol::frame_option(prev)),
    ensures
        final(out)@ == old(out)@ + ops::ops_bytes(
            blit_ops(
                frame@,
                protocol::frame_option(prev),
                *old(last_visible_cursor),
                *old(last_cursor_shape),
                !windows,
                suppress_visible_cursor,
            ),
        ),
        *final(last_visible_cursor) == cursor::remembered(frame@, *old(last_visible_cursor)),
        *final(last_cursor_shape) == cursor::host_cursor(frame@, *old(last_visible_cursor)).shape,
{
    blit_frame_to_with_cursor_memory_and_policy(
        out,
        frame,
        prev,
        last_visible_cursor,
        last_cursor_shape,
        repeat_ime_anchor_after_sync(windows),
        suppress_visible_cursor,
    );
}

/// Appends the bytes of a frame as for a terminal that never showed a cursor.
pub fn blit_frame_to(
    out: &mut Vec<u8>,
    frame: &FrameData,
    prev: Option<&FrameData>,
    windows: bool,
)
    requires
        blit_ready(frame@, protocol::frame_option(prev)),
    ensures
        final(out)@ == old(out)@ + ops::ops_bytes(
            blit_ops(frame@, protocol::frame_option(prev), None, 0, !windows, false),
        ),
        final(out)@ == old(out)@ + plain_blit(frame@, protocol::frame_option(prev), windows),
{
    let mut last_visible_cursor: Option<(u16, u16)> = None;
    let mut last_cursor_shape: u8 = 0;
    blit_frame_to_with_cursor_memory(
        out,
        frame,
        prev,
        &mut last_visible_cursor,
        &mut last_cursor_shape,
        false,
        windows,
    );
}

/// A full redraw paints exactly the cells of the frame that are not marked `skip` and
/// that no symbol to their left covers.
pub proof fn law_full_redraw_paints_uncovered_cells(frame: FrameView, row: int, col: int)
    ensures
        full_cells(frame, frame.height as nat).contains((row, col)) <==> 0 <= row < frame.height
            && 0 <= col < frame.width && full_paints(frame, row, col as nat),
{
    lemma_full_cells_contain(frame, frame.height as nat, row, col);
}

/// A diff paints exactly the cells of the frame that look different or were disturbed,
/// that are not marked `skip`, and over which no symbol to their left reaches.
pub proof fn law_diff_paints_changed_cells(frame: FrameView, prev: FrameView, row: int, col: int)
    ensures
        diff_cells(frame, prev, frame.height as nat).contains((row, col)) <==> 0 <= row
            < frame.height && 0 <= col < frame.width && diff_paints(frame, prev, row, col as nat),
{
    lemma_diff_cells_contain(frame, prev, frame.height as nat, row, col);
}

/// Where no symbol takes up more than two columns, the cell directly to the left alone
/// decides whether a column is reached over.
pub proof fn law_two_columns_reach_over_one(frame: FrameView, row: int, col: nat)
    requires
        0 < col,
        forall|c: int| 0 <= c < col ==> #[trigger] width_at(frame, row, c) <= 2,
    ensures
        reaching(frame, row, col) == tail(width_at(frame, row, col - 1)),
    decreases col,
{
    assert(width_at(frame, row, col - 1) <= 2);
    assert(reaching(frame, row, 0) == 0);
    if col > 1 {
        law_two_columns_reach_over_one(frame, row, (col - 1) as nat);
        assert(width_at(frame, row, col - 2) <= 2);
    }
}

/// What two lists together hold.
proof fn lemma_contains_add(a: Seq<(int, int)>, b: Seq<(int, int)>, cell: (int, int))
    ensures
        (a + b).contains(cell) <==> a.contains(cell) || b.contains(cell),
{
    if a.contains(cell) {
        let i = choose|i: int| 0 <= i < a.len() && a[i] == cell;
        assert((a + b)[i] == cell);
    }
    if b.contains(cell) {
        let i = choose|i: int| 0 <= i < b.len() && b[i] == cell;
        assert((a + b)[a.len() + i] == cell);
    }
}

/// What a list with one more cell holds.
proof fn lemma_contains_push(a: Seq<(int, int)>, last: (int, int), cell: (int, int))
    ensures
        a.push(last).contains(cell) <==> a.contains(cell) || cell == last,
{
    if a.contains(cell) {
        let i = choose|i: int| 0 <= i < a.len() && a[i] == cell;
        assert(a.push(last)[i] == cell);
    }
    assert(a.push(last)[a.len() as int] == last);
}

proof fn lemma_full_row_contains(frame: FrameView, y: int, n: nat, row: int, col: int)
    ensures
        full_row(frame, y, n).contains((row, col)) <==> row == y && 0 <= col < n && full_paints(
            frame,
            y,
            col as nat,
        ),
    decreases n,
{
    if n > 0 {
        lemma_full_row_contains(frame, y, (n - 1) as nat, row, col);
        lemma_contains_push(full_row(frame, y, (n - 1) as nat), (y, n - 1), (row, col));
    }
}

proof fn lemma_full_cells_contain(frame: FrameView, n: nat, row: int, col: int)
    ensures
        full_cells(frame, n).contains((row, col)) <==> 0 <= row < n && 0 <= col < frame.width
            && full_paints(frame, row, col as nat),
    decreases n,
{
    if n > 0 {
        lemma_full_cells_contain(frame, (n - 1) as nat, row, col);
        lemma_full_row_contains(frame, n - 1, frame.width as nat, row, col);
        lemma_contains_add(
            full_cells(frame, (n - 1) as nat),
            full_row(frame, n - 1, frame.width as nat),
            (row, col),
        );
    }
}

proof fn lemma_diff_row_contains(
    frame: FrameView,
    prev: FrameView,
    y: int,
    n: nat,
    row: int,
    col: int,
)
    ensures
        diff_row(frame, prev, y, n).contains((row, col)) <==> row == y && 0 <= col < n
            && diff_paints(frame, prev, y, col as nat),
    decreases n,
{
    if n > 0 {
        lemma_diff_row_contains(frame, prev, y, (n - 1) as nat, row, col);
        lemma_contains_push(diff_row(frame, prev, y, (n - 1) as nat), (y, n - 1), (row, col));
    }
}

proof fn lemma_diff_cells_contain(frame: FrameView, prev: FrameView, n: nat, row: int, col: int)
    ensures
        diff_cells(frame, prev, n).contains((row, col)) <==> 0 <= row < n && 0 <= col < frame.width
            && diff_paints(frame, prev, row, col as nat),
    decreases n,
{
    if n > 0 {
        lemma_diff_cells_contain(frame, prev, (n - 1) as nat, row, col);
        lemma_diff_row_contains(frame, prev, n - 1, frame.width as nat, row, col);
        lemma_contains_add(
            diff_cells(frame, prev, (n - 1) as nat),
            diff_row(frame, prev, n - 1, frame.width as nat),
            (row, col),
        );
    }
}

// ---------------------------------------------------------------------------
// Laws: which cells are painted, said of the symbols themselves
// ---------------------------------------------------------------------------

/// The symbol at column `c` of a row takes up column `col`, which is to its right.
pub open spec fn takes_up(frame: FrameView, row: int, c: int, col: int) -> bool {
    &&& 0 <= c < col
    &&& col < c + width::display_width(frame.cells[row * frame.width + c].symbol)
}

/// A column is reached over exactly if some symbol to its left takes it up, and by as
/// many columns as the symbol that goes farthest.
pub proof fn law_reached_column_is_taken_up(frame: FrameView, row: int, col: nat)
    ensures
        reaching(frame, row, col) > 0 <==> exists|c: int| takes_up(frame, row, c, col as int),
        forall|c: int| #[trigger]
            takes_up(frame, row, c, col as int) ==> c + width::display_width(
                frame.cells[row * frame.width + c].symbol,
            ) - col <= reaching(frame, row, col),
    decreases col,
{
    if col > 0 {
        let before = (col - 1) as nat;
        law_reached_column_is_taken_up(frame, row, before);
        assert forall|c: int| #[trigger] takes_up(frame, row, c, col as int) implies c
            + width::display_width(frame.cells[row * frame.width + c].symbol) - col <= reaching(
            frame,
            row,
            col,
        ) by {
            if c < before {
                assert(takes_up(frame, row, c, before as int));
            }
            assert(width_at(frame, row, c) == width::display_width(
                frame.cells[row * frame.width + c].symbol,
            ));
        }
        if reaching(frame, row, col) > 0 {
            if width_at(frame, row, before as int) >= 2 {
                assert(takes_up(frame, row, before as int, col as int));
            } else {
                lemma_farthest(frame, row, before);
                let c = choose|c: int|
                    takes_up(frame, row, c, before as int) && c + width::display_width(
                        frame.cells[row * frame.width + c].symbol,
                    ) - before == reaching(frame, row, before);
                assert(takes_up(frame, row, c, col as int));
            }
        }
    }
}

/// Some symbol goes as far as a column is reached over.
proof fn lemma_farthest(frame: FrameView, row: int, col: nat)
    requires
        reaching(frame, row, col) > 0,
    ensures
        exists|c: int|
            takes_up(frame, row, c, col as int) && c + width::display_width(
                frame.cells[row * frame.width + c].symbol,
            ) - col == reaching(frame, row, col),
    decreases col,
{
    let before = (col - 1) as nat;
    let width = width_at(frame, row, before as int);
    if reaching(frame, row, before) > width {
        lemma_farthest(frame, row, before);
        let c = choose|c: int|
            takes_up(frame, row, c, before as int) && c + width::display_width(
                frame.cells[row * frame.width + c].symbol,
            ) - before == reaching(frame, row, before);
        assert(takes_up(frame, row, c, col as int));
    } else {
        assert(takes_up(frame, row, before as int, col as int));
    }
}

/// The columns that were disturbed are those that the symbols of either frame reach
/// over, whichever reaches farther.
proof fn lemma_disturbed_is_reach(frame: FrameView, prev: FrameView, row: int, col: nat)
    ensures
        disturbed(frame, prev, row, col) == if reaching(frame, row, col) > reaching(
            prev,
            row,
            col,
        ) {
            reaching(frame, row, col)
        } else {
            reaching(prev, row, col)
        },
    decreases col,
{
    if col > 0 {
        lemma_disturbed_is_reach(frame, prev, row, (col - 1) as nat);
    }
}

/// A column was disturbed exactly if a symbol to its left, of either frame, takes it up.
pub proof fn law_disturbed_column_is_taken_up(
    frame: FrameView,
    prev: FrameView,
    row: int,
    col: nat,
)
    ensures
        disturbed(frame, prev, row, col) > 0 <==> (exists|c: int|
            takes_up(frame, row, c, col as int)) || (exists|c: int|
            takes_up(prev, row, c, col as int)),
{
    lemma_disturbed_is_reach(frame, prev, row, col);
    law_reached_column_is_taken_up(frame, row, col);
    law_reached_column_is_taken_up(prev, row, col);
}

/// A diff paints a cell of the frame exactly if it is not marked `skip`, its symbol, a
/// color, the modifiers or the target changed or a symbol of the previous frame took up
/// its column, and no symbol of the new frame takes up its column.
pub proof fn law_diff_paints_what_changed(
    frame: FrameView,
    prev: FrameView,
    row: int,
    col: int,
)
    requires
        frame.width == prev.width,
        0 <= row < frame.height,
        0 <= col < frame.width,
    ensures
        ({
            let cell = frame.cells[row * frame.width + col];
            let old_cell = prev.cells[row * frame.width + col];
            diff_cells(frame, prev, frame.height as nat).contains((row, col)) <==> {
                &&& !cell.skip
                &&& {
                    ||| cell.symbol != old_cell.symbol
                    ||| cell.fg != old_cell.fg
                    ||| cell.bg != old_cell.bg
                    ||| cell.modifier != old_cell.modifier
                    ||| hyperlink::target(frame, cell) != hyperlink::target(prev, old_cell)
                    ||| exists|c: int| takes_up(prev, row, c, col)
                }
                &&& forall|c: int| !takes_up(frame, row, c, col)
            }
        }),
{
    let cell = frame.cells[row * frame.width + col];
    let old_cell = prev.cells[row * frame.width + col];
    law_diff_paints_changed_cells(frame, prev, row, col);
    law_reached_column_is_taken_up(frame, row, col as nat);
    law_disturbed_column_is_taken_up(frame, prev, row, col as nat);
    hyperlink::law_cell_link_is_target(frame, cell);
    hyperlink::law_cell_link_is_target(prev, old_cell);
    let new_target = hyperlink::target(frame, cell);
    let old_target = hyperlink::target(prev, old_cell);
    if new_target.len() == 0 && old_target.len() == 0 {
        assert(new_target =~= old_target);
    }
}

/// No cell outside the frame is painted, by a diff or by a full redraw.
pub proof fn law_only_cells_of_the_frame_are_painted(
    frame: FrameView,
    prev: FrameView,
    row: int,
    col: int,
)
    ensures
        diff_cells(frame, prev, frame.height as nat).contains((row, col)) || full_cells(
            frame,
            frame.height as nat,
        ).contains((row, col)) ==> 0 <= row < frame.height && 0 <= col < frame.width,
{
    law_diff_paints_changed_cells(frame, prev, row, col);
    law_full_redraw_paints_uncovered_cells(frame, row, col);
}

/// Where no symbol to the left takes up a column, a full redraw paints its cell exactly
/// if it is not marked `skip`.
pub proof fn law_full_redraw_paints_free_column(frame: FrameView, row: int, col: int)
    requires
        0 <= row < frame.height,
        0 <= col < frame.width,
        forall|c: int| !takes_up(frame, row, c, col),
    ensures
        full_cells(frame, frame.height as nat).contains((row, col)) <==> !frame.cells[row
            * frame.width + col].skip,
{
    law_full_redraw_paints_uncovered_cells(frame, row, col);
    law_reached_column_is_taken_up(frame, row, col as nat);
    lemma_covered_is_reached(frame, row, col as nat);
}

proof fn lemma_covered_is_reached(frame: FrameView, row: int, col: nat)
    ensures
        covered(frame, row, col) <= reaching(frame, row, col),
    decreases col,
{
    if col > 0 {
        lemma_covered_is_reached(frame, row, (col - 1) as nat);
    }
}

/// A full redraw leaves a column to the symbol of a cell that it paints to the left and
/// that takes it up, and it paints a cell exactly if it is not marked `skip` and there
/// is no such symbol.
pub proof fn law_full_redraw_leaves_taken_columns(frame: FrameView, row: int, col: int)
    requires
        0 <= row < frame.height,
        0 <= col < frame.width,
    ensures
        full_cells(frame, frame.height as nat).contains((row, col)) <==> {
            &&& !frame.cells[row * frame.width + col].skip
            &&& forall|c: int| #[trigger]
                takes_up(frame, row, c, col) ==> !full_cells(frame, frame.height as nat).contains(
                    (row, c),
                )
        },
{
    law_full_redraw_paints_uncovered_cells(frame, row, col);
    let cells = full_cells(frame, frame.height as nat);
    assert forall|c: int| #[trigger] takes_up(frame, row, c, col) && cells.contains(
        (row, c),
    ) implies covered(frame, row, col as nat) > 0 by {
        law_full_redraw_paints_uncovered_cells(frame, row, c);
        lemma_covered_by(frame, row, c as nat, col as nat);
    }
    if covered(frame, row, col as nat) > 0 {
        let c = lemma_covering(frame, row, col as nat);
        law_full_redraw_paints_uncovered_cells(frame, row, c as int);
        assert(takes_up(frame, row, c as int, col));
    }
}

/// A symbol that is painted covers what it takes up.
pub proof fn lemma_covered_by(frame: FrameView, row: int, c: nat, col: nat)
    requires
        full_paints(frame, row, c),
        takes_up(frame, row, c as int, col as int),
    ensures
        covered(frame, row, col) == c + width_at(frame, row, c as int) - col,
    decreases col,
{
    if col > c + 1 {
        lemma_covered_by(frame, row, c, (col - 1) as nat);
    }
}

/// A covered column is covered by a symbol that is painted.
proof fn lemma_covering(frame: FrameView, row: int, col: nat) -> (c: nat)
    requires
        covered(frame, row, col) > 0,
    ensures
        full_paints(frame, row, c),
        takes_up(frame, row, c as int, col as int),
    decreases col,
{
    let before = (col - 1) as nat;
    if covered(frame, row, before) > 0 {
        let c = lemma_covering(frame, row, before);
        lemma_covered_by(frame, row, c, before);
        c
    } else {
        before
    }
}

/// Cells row by row, and from left to right in each row.
pub open spec fn in_reading_order(cells: Seq<(int, int)>) -> bool {
    forall|i: int, j: int|
        0 <= i < j < cells.len() ==> {
            let (a, b) = (#[trigger] cells[i], #[trigger] cells[j]);
            a.0 < b.0 || (a.0 == b.0 && a.1 < b.1)
        }
}

/// Cells are painted in reading order, each at most once.
pub proof fn law_cells_are_painted_in_reading_order(frame: FrameView, prev: FrameView)
    ensures
        in_reading_order(full_cells(frame, frame.height as nat)),
        in_reading_order(diff_cells(frame, prev, frame.height as nat)),
{
    lemma_full_order(frame, frame.height as nat);
    lemma_diff_order(frame, prev, frame.height as nat);
}

proof fn lemma_full_row_order(frame: FrameView, row: int, n: nat)
    ensures
        in_reading_order(full_row(frame, row, n)),
        forall|i: int|
            0 <= i < full_row(frame, row, n).len() ==> (#[trigger] full_row(frame, row, n)[i]).0
                == row && full_row(frame, row, n)[i].1 < n,
    decreases n,
{
    if n > 0 {
        lemma_full_row_order(frame, row, (n - 1) as nat);
    }
}

proof fn lemma_full_order(frame: FrameView, n: nat)
    ensures
        in_reading_order(full_cells(frame, n)),
        forall|i: int|
            0 <= i < full_cells(frame, n).len() ==> (#[trigger] full_cells(frame, n)[i]).0 < n,
    decreases n,
{
    if n > 0 {
        lemma_full_order(frame, (n - 1) as nat);
        lemma_full_row_order(frame, n - 1, frame.width as nat);
    }
}

proof fn lemma_diff_row_order(frame: FrameView, prev: FrameView, row: int, n: nat)
    ensures
        in_reading_order(diff_row(frame, prev, row, n)),
        forall|i: int|
            0 <= i < diff_row(frame, prev, row, n).len() ==> (#[trigger] diff_row(
                frame,
                prev,
                row,
                n,
            )[i]).0 == row && diff_row(frame, prev, row, n)[i].1 < n,
    decreases n,
{
    if n > 0 {
        lemma_diff_row_order(frame, prev, row, (n - 1) as nat);
    }
}

proof fn lemma_diff_order(frame: FrameView, prev: FrameView, n: nat)
    ensures
        in_reading_order(diff_cells(frame, prev, n)),
        forall|i: int|
            0 <= i < diff_cells(frame, prev, n).len() ==> (#[trigger] diff_cells(
                frame,
                prev,
                n,
            )[i]).0 < n,
    decreases n,
{
    if n > 0 {
        lemma_diff_order(frame, prev, (n - 1) as nat);
        lemma_diff_row_order(frame, prev, n - 1, frame.width as nat);
    }
}

/// What one cell more adds to what is painted before it: a move to its column and row
/// first and its symbol last. In between a full redraw sets its style, and a diff does
/// so unless the cell before it has the same style. Where the cell before it has the
/// same target the hyperlink is left alone.
pub proof fn law_cell_adds_only_what_changes(
    frame: FrameView,
    cells: Seq<(int, int)>,
    row: int,
    col: int,
    dedup: bool,
)
    requires
        0 <= row < frame.height,
        0 <= col < frame.width,
    ensures
        ({
            let before = paint_ops(frame, cells, dedup);
            let after = paint_ops(frame, cells.push((row, col)), dedup);
            let added = after.skip(before.len() as int);
            let cell = frame.cells[row * frame.width + col];
            let last = frame.cells[cells.last().0 * frame.width + cells.last().1];
            let restyled = !dedup || cells.len() == 0 || cell.fg != last.fg || cell.bg != last.bg
                || cell.modifier != last.modifier;
            &&& after.len() >= before.len() + 2
            &&& after.take(before.len() as int) == before
            &&& added[0] == (Op::MoveTo { x: col as u16, y: row as u16 })
            &&& added.last() == Op::Text(cell.symbol)
            &&& restyled ==> added[1] == (Op::Style {
                fg: cell.fg,
                bg: cell.bg,
                modifier: cell.modifier,
            })
            &&& forall|i: int|
                0 <= i < added.len() && (#[trigger] added[i]) is Style ==> restyled && i == 1
            &&& forall|i: int|
                0 <= i < added.len() - 1 ==> !((#[trigger] added[i]) is Text) && !(added[i]
                    is ResetStyle)
            &&& cells.len() > 0 && hyperlink::target(frame, cell) == hyperlink::target(frame, last)
                ==> forall|i: int|
                0 <= i < added.len() ==> !((#[trigger] added[i]) is OpenLink) && !(added[i]
                    is CloseLink)
        }),
{
    let before = paint_ops(frame, cells, dedup);
    let after = paint_ops(frame, cells.push((row, col)), dedup);
    let cell = frame.cells[row * frame.width + col];
    let last = frame.cells[cells.last().0 * frame.width + cells.last().1];
    assert(cells.push((row, col)).drop_last() =~= cells);
    let style = if dedup {
        style_after(frame, cells)
    } else {
        None
    };
    let added = cell_ops(frame, row, col, cell, style, link_after(frame, cells));
    assert(after == before + added);
    assert(after.skip(before.len() as int) =~= added);
    assert(after.take(before.len() as int) =~= before);
    hyperlink::law_cell_link_is_target(frame, cell);
    if cells.len() > 0 {
        hyperlink::law_cell_link_is_target(frame, last);
    }
}

/// Cells are alike exactly if symbol, colors, modifiers and hyperlink index are the same,
/// whether they are marked `skip` or not.
pub proof fn law_alike_cells_agree_in_each_field(a: CellView, b: CellView)
    ensures
        alike(a, b) <==> a.symbol == b.symbol && a.fg == b.fg && a.bg == b.bg && a.modifier
            == b.modifier && a.hyperlink == b.hyperlink,
{
}

/// Cells look the same exactly if symbol, colors, modifiers and target are the same,
/// whatever their hyperlink indices are.
pub proof fn law_same_looks_agree_in_each_field(
    frame: FrameView,
    cell: CellView,
    prev: FrameView,
    prev_cell: CellView,
)
    ensures
        looks_same(frame, cell, prev, prev_cell) <==> cell.symbol == prev_cell.symbol && cell.fg
            == prev_cell.fg && cell.bg == prev_cell.bg && cell.modifier == prev_cell.modifier
            && hyperlink::target(frame, cell) == hyperlink::target(prev, prev_cell),
{
    hyperlink::law_cell_link_is_target(frame, cell);
    hyperlink::law_cell_link_is_target(prev, prev_cell);
    let (a, b) = (hyperlink::target(frame, cell), hyperlink::target(prev, prev_cell));
    if a.len() == 0 && b.len() == 0 {
        assert(a =~= b);
    }
}

/// The anchor is repeated everywhere but on Windows.
pub proof fn law_anchor_is_repeated_but_on_windows(windows: bool)
    ensures
        repeats_anchor(windows) <==> windows == false,
{
}

/// What paints a frame: a full redraw clears the screen and paints its cells, a diff
/// paints its cells. After the last one the hyperlink is closed and the style reset, and
/// a diff that paints nothing does not even that.
pub proof fn law_body_paints_its_cells(frame: FrameView, prev: Option<FrameView>)
    ensures
        ({
            let ops = body_ops(frame, prev);
            let diffed = prev matches Some(p) && p.width == frame.width && p.height
                == frame.height;
            let head = if diffed {
                paint_ops(
                    frame,
                    diff_cells(frame, prev.unwrap(), frame.height as nat),
                    true,
                )
            } else {
                seq![Op::ClearScreen] + paint_ops(
                    frame,
                    full_cells(frame, frame.height as nat),
                    false,
                )
            };
            &&& head.len() <= ops.len()
            &&& ops.take(head.len() as int) == head
            &&& forall|i: int|
                head.len() <= i < ops.len() ==> (#[trigger] ops[i]) is CloseLink || ops[i]
                    is ResetStyle
            &&& diffed && diff_cells(frame, prev.unwrap(), frame.height as nat).len() == 0
                ==> ops.len() == 0
            &&& ops.len() > head.len() ==> ops.last() is ResetStyle
            &&& !diffed ==> ops.len() > head.len()
            &&& diffed && diff_cells(frame, prev.unwrap(), frame.height as nat).len() > 0
                ==> ops.len() > head.len()
        }),
{
    let ops = body_ops(frame, prev);
    let diffed = prev matches Some(p) && p.width == frame.width && p.height == frame.height;
    if diffed {
        let cells = diff_cells(frame, prev.unwrap(), frame.height as nat);
        let head = paint_ops(frame, cells, true);
        assert(ops.take(head.len() as int) =~= head);
    } else {
        let cells = full_cells(frame, frame.height as nat);
        let head = seq![Op::ClearScreen] + paint_ops(frame, cells, false);
        assert(ops.take(head.len() as int) =~= head);
    }
}

/// A suppressed cursor is hidden, and nothing else of it changes.
pub proof fn law_suppressed_cursor_is_hidden(
    frame: FrameView,
    last_visible: Option<(u16, u16)>,
    suppress: bool,
)
    ensures
        final_cursor(frame, last_visible, suppress).visible <==> cursor::host_cursor(
            frame,
            last_visible,
        ).visible && !suppress,
        final_cursor(frame, last_visible, suppress).position == cursor::host_cursor(
            frame,
            last_visible,
        ).position,
        final_cursor(frame, last_visible, suppress).shape == cursor::host_cursor(
            frame,
            last_visible,
        ).shape,
{
}

/// A target that stays is not written again. One that changes is closed before the next
/// is opened, and none is closed or opened that is not there.
pub proof fn law_link_is_closed_before_next(from: Seq<char>, to: Seq<char>)
    ensures
        link_change(Some(from), Some(from)).len() == 0,
        link_change(None, None).len() == 0,
        from != to ==> link_change(Some(from), Some(to)) == seq![Op::CloseLink, Op::OpenLink(to)],
        link_change(None, Some(to)) == seq![Op::OpenLink(to)],
        link_change(Some(from), None) == seq![Op::CloseLink],
{
    assert(link_change(Some(from), None) =~= seq![Op::CloseLink]);
    assert(link_change(None, Some(to)) =~= seq![Op::OpenLink(to)]);
    if from != to {
        assert(link_change(Some(from), Some(to)) =~= seq![Op::CloseLink, Op::OpenLink(to)]);
    }
}

/// A frame can be written exactly if it has a cell for every position, and so has the
/// previous one if that has the same size.
pub proof fn law_frame_with_all_cells_is_ready(frame: FrameView, prev: Option<FrameView>)
    ensures
        blit_ready(frame, prev) <==> {
            &&& frame.width * frame.height <= frame.cells.len()
            &&& prev matches Some(p) ==> (p.width == frame.width && p.height == frame.height
                ==> p.width * p.height <= p.cells.len())
        },
{
}

} // verus!
