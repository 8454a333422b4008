//! What the instructions of [`crate::ops`] do to a terminal screen, and the laws that
//! follow for whole frames.
//!
//! The screen is a grid of slots. A symbol occupies one slot per column: its first
//! holds the glyph and the others are tails. Writing over part of a symbol erases the
//! rest of it.
//!
//! The model takes every symbol to be a glyph, that is, to hold no control characters.
//! The bytes of a symbol are written as they are, so a terminal would obey control
//! characters in one, and the laws say nothing of that.

use vstd::prelude::*;

use crate::cursor;
use crate::encoder;
use crate::hyperlink;
use crate::ops::Op;
use crate::protocol::{FrameView, MessageView};
use crate::render_ansi;
use crate::render_ansi::Style;
use crate::render_stream;
use crate::render_stream::StateView;
use crate::width;

verus! {

/// How a symbol looks: its characters, its style and its hyperlink target.
pub struct Look {
    pub symbol: Seq<char>,
    pub style: Option<Style>,
    pub link: Option<Seq<char>>,
}

/// One column of one row of the screen.
pub enum Slot {
    Blank,
    /// The first column of a symbol.
    Glyph(Look),
    /// A further column of the symbol to the left.
    Tail,
}

/// A terminal. `style` is `None` for the default style.
pub struct Screen {
    pub rows: Seq<Seq<Slot>>,
    /// Column and row of the cursor.
    pub cursor: (int, int),
    pub visible: bool,
    pub shape: u8,
    pub style: Option<Style>,
    pub link: Option<Seq<char>>,
    /// Synchronized output is active: nothing is presented until it ends.
    pub synced: bool,
}

/// The slots right of `a` up to `b` continue the symbol that `a` belongs to.
pub open spec fn joined(row: Seq<Slot>, a: int, b: int) -> bool {
    forall|k: int| a < k <= b ==> #[trigger] row[k] is Tail
}

/// A row after a symbol was written at column `x`. A symbol of no width leaves the row
/// as it is. Symbols that are overwritten in part are erased. What does not fit into
/// the row is cut off.
pub open spec fn put(row: Seq<Slot>, x: int, look: Look) -> Seq<Slot> {
    let w = width::display_width(look.symbol);
    if w == 0 || x < 0 || x >= row.len() {
        row
    } else {
        Seq::new(
            row.len(),
            |j: int|
                if j == x {
                    Slot::Glyph(look)
                } else if x < j < x + w {
                    Slot::Tail
                } else if j < x {
                    if joined(row, j, x) {
                        Slot::Blank
                    } else {
                        row[j]
                    }
                } else {
                    if joined(row, x + w - 1, j) {
                        Slot::Blank
                    } else {
                        row[j]
                    }
                },
        )
    }
}

/// The rows of a screen after one of them changed. A row that the screen does not have
/// changes nothing.
pub open spec fn with_row(rows: Seq<Seq<Slot>>, y: int, row: Seq<Slot>) -> Seq<Seq<Slot>> {
    if 0 <= y < rows.len() {
        rows.update(y, row)
    } else {
        rows
    }
}

/// A screen of the same size with nothing on it.
pub open spec fn blank_rows(rows: Seq<Seq<Slot>>) -> Seq<Seq<Slot>> {
    Seq::new(rows.len(), |y: int| Seq::new(rows[y].len(), |x: int| Slot::Blank))
}

/// The screen after one instruction.
pub open spec fn step(screen: Screen, op: Op) -> Screen {
    match op {
        Op::HideCursor => Screen { visible: false, ..screen },
        Op::ShowCursor => Screen { visible: true, ..screen },
        Op::BeginSync => Screen { synced: true, ..screen },
        Op::EndSync => Screen { synced: false, ..screen },
        Op::ClearScreen => Screen { rows: blank_rows(screen.rows), cursor: (0, 0), ..screen },
        Op::MoveTo { x, y } => Screen { cursor: (x as int, y as int), ..screen },
        Op::CursorShape(shape) => Screen { shape, ..screen },
        Op::Style { fg, bg, modifier } => Screen { style: Some((fg, bg, modifier)), ..screen },
        Op::ResetStyle => Screen { style: None, ..screen },
        Op::OpenLink(uri) => Screen { link: Some(uri), ..screen },
        Op::CloseLink => Screen { link: None, ..screen },
        Op::Text(symbol) => {
            let (x, y) = screen.cursor;
            Screen {
                rows: with_row(
                    screen.rows,
                    y,
                    put(
                        screen.rows[y],
                        x,
                        Look { symbol, style: screen.style, link: screen.link },
                    ),
                ),
                cursor: (x + width::display_width(symbol), y),
                ..screen
            }
        },
    }
}

/// The screen after a sequence of instructions.
pub open spec fn run(screen: Screen, ops: Seq<Op>) -> Screen
    decreases ops.len(),
{
    if ops.len() == 0 {
        screen
    } else {
        step(run(screen, ops.drop_last()), ops.last())
    }
}

/// Instructions in sequence act in sequence.
pub proof fn lemma_run_add(screen: Screen, a: Seq<Op>, b: Seq<Op>)
    ensures
        run(screen, a + b) == run(run(screen, a), b),
    decreases b.len(),
{
    if b.len() == 0 {
        assert(a + b =~= a);
    } else {
        lemma_run_add(screen, a, b.drop_last());
        assert((a + b).drop_last() =~= a + b.drop_last());
    }
}

/// One instruction alone.
pub proof fn lemma_run_one(screen: Screen, op: Op)
    ensures
        run(screen, seq![op]) == step(screen, op),
{
    assert(seq![op].drop_last() =~= Seq::<Op>::empty());
    reveal_with_fuel(run, 2);
}

// ---------------------------------------------------------------------------
// What a frame looks like on a screen
// ---------------------------------------------------------------------------

/// How the cell at a position looks.
pub open spec fn look_at(frame: FrameView, row: int, col: int) -> Look {
    let cell = frame.at(row, col);
    Look {
        symbol: cell.symbol,
        style: Some((cell.fg, cell.bg, cell.modifier)),
        link: hyperlink::cell_link(frame, cell),
    }
}

/// A cell that puts nothing on the screen: it is marked `skip` or has no width.
pub open spec fn inert(frame: FrameView, row: int, col: int) -> bool {
    frame.at(row, col).skip || render_ansi::width_at(frame, row, col) == 0
}

/// A slot shows what the frame has at a position: a further column of the symbol that
/// covers the position, or else the cell's own symbol. Nothing is asked of the slot of
/// a cell that puts nothing on the screen.
pub open spec fn slot_shows(slot: Slot, frame: FrameView, row: int, col: int) -> bool {
    if render_ansi::covered(frame, row, col as nat) > 0 {
        slot is Tail
    } else {
        inert(frame, row, col) || slot == Slot::Glyph(look_at(frame, row, col))
    }
}

/// The slot at `j` continues the symbol whose first column is `i`.
pub open spec fn belongs(row: Seq<Slot>, i: int, j: int) -> bool {
    &&& 0 <= i < j < row.len()
    &&& row[i] matches Slot::Glyph(look) && j - i < width::display_width(look.symbol)
    &&& joined(row, i, j)
}

/// Every tail belongs to a symbol.
pub open spec fn row_whole(row: Seq<Slot>) -> bool {
    forall|j: int|
        0 <= j < row.len() && (#[trigger] row[j]) is Tail ==> exists|i: int| belongs(row, i, j)
}

/// A row of the screen shows a row of the frame.
pub open spec fn row_shows(slots: Seq<Slot>, frame: FrameView, row: int) -> bool {
    &&& slots.len() == frame.width
    &&& row_whole(slots)
    &&& forall|col: int|
        0 <= col < frame.width ==> slot_shows(#[trigger] slots[col], frame, row, col)
}

/// The screen has the size of the frame and shows it.
pub open spec fn shows(screen: Screen, frame: FrameView) -> bool {
    &&& screen.rows.len() == frame.height
    &&& forall|row: int|
        0 <= row < frame.height ==> row_shows(#[trigger] screen.rows[row], frame, row)
}

/// The screen has the size of the frame.
pub open spec fn fits(screen: Screen, frame: FrameView) -> bool {
    &&& screen.rows.len() == frame.height
    &&& forall|row: int|
        0 <= row < frame.height ==> (#[trigger] screen.rows[row]).len() == frame.width
}

/// One row of a frame is tidy: a cell that a symbol covers does not itself reach beyond
/// that symbol, and a cell marked `skip` that none covers does not reach beyond its own
/// column.
pub open spec fn row_tidy(frame: FrameView, row: int) -> bool {
    forall|col: int|
        0 <= col < frame.width ==> {
            let w = #[trigger] render_ansi::width_at(frame, row, col);
            let covers = render_ansi::covered(frame, row, col as nat);
            &&& covers > 0 ==> w <= covers
            &&& covers == 0 && frame.at(row, col).skip ==> w <= 1
        }
}

/// Every row is tidy.
pub open spec fn tidy(frame: FrameView) -> bool {
    forall|row: int| 0 <= row < frame.height ==> #[trigger] row_tidy(frame, row)
}

/// A cell that the previous frame marked `skip` is marked so again, or looks
/// different now.
pub open spec fn row_skips_kept(frame: FrameView, prev: FrameView, row: int) -> bool {
    forall|col: int|
        0 <= col < frame.width && (#[trigger] prev.at(row, col)).skip ==> frame.at(row, col).skip
            || !render_ansi::looks_same(frame, frame.at(row, col), prev, prev.at(row, col))
}

/// As [`row_skips_kept`], for every row.
pub open spec fn skips_kept(frame: FrameView, prev: FrameView) -> bool {
    forall|row: int| 0 <= row < frame.height ==> #[trigger] row_skips_kept(frame, prev, row)
}

// ---------------------------------------------------------------------------
// Painting one row
// ---------------------------------------------------------------------------

/// A row of the screen after a diff painted the cells left of `n`.
pub open spec fn diffed_row(
    slots: Seq<Slot>,
    frame: FrameView,
    prev: FrameView,
    row: int,
    n: nat,
) -> Seq<Slot>
    decreases n,
{
    if n == 0 {
        slots
    } else {
        let left = diffed_row(slots, frame, prev, row, (n - 1) as nat);
        if render_ansi::diff_paints(frame, prev, row, (n - 1) as nat) {
            put(left, n - 1, look_at(frame, row, n - 1))
        } else {
            left
        }
    }
}

/// A row of the screen after a full redraw painted the cells left of `n`.
pub open spec fn redrawn_row(slots: Seq<Slot>, frame: FrameView, row: int, n: nat) -> Seq<Slot>
    decreases n,
{
    if n == 0 {
        slots
    } else {
        let left = redrawn_row(slots, frame, row, (n - 1) as nat);
        if render_ansi::full_paints(frame, row, (n - 1) as nat) {
            put(left, n - 1, look_at(frame, row, n - 1))
        } else {
            left
        }
    }
}

/// Writing a symbol into a row of whole symbols: the row stays whole, the symbol and
/// its tails are there, and a slot elsewhere changes only if it and all slots between
/// belong to a symbol that was overwritten in part.
proof fn lemma_put(row: Seq<Slot>, x: int, look: Look)
    requires
        0 <= x < row.len(),
        row_whole(row),
        1 <= width::display_width(look.symbol),
    ensures
        ({
            let w = width::display_width(look.symbol);
            let after = put(row, x, look);
            &&& after.len() == row.len()
            &&& row_whole(after)
            &&& after[x] == Slot::Glyph(look)
            &&& forall|j: int| x < j < x + w && j < row.len() ==> (#[trigger] after[j]) is Tail
            &&& forall|j: int| 0 <= j < x && !joined(row, j, x) ==> #[trigger] after[j] == row[j]
            &&& forall|j: int|
                x + w <= j < row.len() ==> #[trigger] after[j] == if joined(row, x + w - 1, j) {
                    Slot::Blank
                } else {
                    row[j]
                }
        }),
{
    let w = width::display_width(look.symbol);
    let after = put(row, x, look);
    assert forall|j: int| 0 <= j < after.len() && (#[trigger] after[j]) is Tail implies exists|i: int|
        belongs(after, i, j) by {
        if j < x {
            assert(row[j] is Tail);
            let i = choose|i: int| belongs(row, i, j);
            assert forall|k: int| i <= k <= j implies #[trigger] after[k] == row[k] by {
                if joined(row, k, x) {
                    assert(joined(row, j, x));
                }
            }
            assert(belongs(after, i, j));
        } else if j < x + w {
            assert(belongs(after, x, j));
        } else {
            assert(row[j] is Tail);
            let i = choose|i: int| belongs(row, i, j);
            assert(i >= x + w) by {
                if i < x + w {
                    assert(joined(row, x + w - 1, j));
                }
            }
            assert forall|k: int| i <= k <= j implies #[trigger] after[k] == row[k] by {
                if joined(row, x + w - 1, k) {
                    assert(row[i] is Tail);
                }
            }
            assert(belongs(after, i, j));
        }
    }
}

/// The columns that a symbol covers count down to its end.
proof fn lemma_covered_run(frame: FrameView, row: int, col: nat, i: nat)
    requires
        i <= render_ansi::covered(frame, row, col),
    ensures
        render_ansi::covered(frame, row, col + i) == render_ansi::covered(frame, row, col) - i,
    decreases i,
{
    if i > 0 {
        lemma_covered_run(frame, row, col, (i - 1) as nat);
    }
}

/// A symbol that a full redraw paints at `start` covers the columns it takes up.
proof fn lemma_covered_from(frame: FrameView, row: int, start: nat, col: nat)
    requires
        render_ansi::full_paints(frame, row, start),
        start < col < start + render_ansi::width_at(frame, row, start as int),
    ensures
        render_ansi::covered(frame, row, col) == start + render_ansi::width_at(
            frame,
            row,
            start as int,
        ) - col,
{
    lemma_covered_run(frame, row, start + 1, (col - start - 1) as nat);
}

/// A covered column has a symbol that covers it.
proof fn lemma_covered_start(frame: FrameView, row: int, col: nat) -> (start: nat)
    requires
        render_ansi::covered(frame, row, col) > 0,
    ensures
        start < col,
        render_ansi::full_paints(frame, row, start),
        col < start + render_ansi::width_at(frame, row, start as int),
        forall|k: int|
            start < k <= col ==> #[trigger] render_ansi::covered(frame, row, k as nat) > 0,
    decreases col,
{
    let before = (col - 1) as nat;
    if render_ansi::covered(frame, row, before) > 0 {
        let start = lemma_covered_start(frame, row, before);
        lemma_covered_from(frame, row, start, before);
        start
    } else {
        before
    }
}

/// Symbols reach at least as far as they cover.
proof fn lemma_covered_within_reach(frame: FrameView, row: int, col: nat)
    ensures
        render_ansi::covered(frame, row, col) <= render_ansi::reaching(frame, row, col),
    decreases col,
{
    if col > 0 {
        lemma_covered_within_reach(frame, row, (col - 1) as nat);
    }
}

/// In a tidy row symbols reach exactly as far as they cover.
proof fn lemma_tidy_reach(frame: FrameView, row: int, col: nat)
    requires
        row_tidy(frame, row),
        col <= frame.width,
    ensures
        render_ansi::covered(frame, row, col) == render_ansi::reaching(frame, row, col),
    decreases col,
{
    if col > 0 {
        lemma_tidy_reach(frame, row, (col - 1) as nat);
    }
}

/// What is disturbed is what the symbols of either frame reach into.
proof fn lemma_disturbed(frame: FrameView, prev: FrameView, row: int, col: nat)
    ensures
        ({
            let new = render_ansi::reaching(frame, row, col);
            let old_reach = render_ansi::reaching(prev, row, col);
            render_ansi::disturbed(frame, prev, row, col) == if new > old_reach {
                new
            } else {
                old_reach
            }
        }),
    decreases col,
{
    if col > 0 {
        lemma_disturbed(frame, prev, row, (col - 1) as nat);
    }
}

/// The first column from `n` on of which a diff that went through the columns left of
/// `n` can have changed nothing: those that the symbol before `n` covers, and those
/// that the old symbol at the end of that one covered, come before it.
spec fn untouched(frame: FrameView, prev: FrameView, row: int, n: int) -> int {
    let end = (n + render_ansi::covered(frame, row, n as nat)) as nat;
    (end + render_ansi::covered(prev, row, end)) as int
}

/// What holds of a row of the screen once a diff has been through the columns left of
/// `n`: those show the new frame, the symbol before `n` has all its columns, and the
/// untouched columns show the old frame.
spec fn diff_progress(
    slots: Seq<Slot>,
    frame: FrameView,
    prev: FrameView,
    row: int,
    n: int,
) -> bool {
    &&& slots.len() == frame.width
    &&& row_whole(slots)
    &&& forall|j: int| 0 <= j < n ==> slot_shows(#[trigger] slots[j], frame, row, j)
    &&& forall|j: int|
        n <= j < n + render_ansi::covered(frame, row, n as nat) && j < frame.width ==> (
        #[trigger] slots[j]) is Tail
    &&& forall|j: int|
        untouched(frame, prev, row, n) <= j < frame.width ==> slot_shows(
            #[trigger] slots[j],
            prev,
            row,
            j,
        )
}

/// Where an uncovered column holds the tail of an old symbol, that symbol starts at a
/// cell that puts nothing on the screen, and so are all cells between.
proof fn lemma_old_tail(
    slots: Seq<Slot>,
    frame: FrameView,
    prev: FrameView,
    row: int,
    n: int,
    j: int,
)
    requires
        diff_progress(slots, frame, prev, row, n),
        0 <= j < n < slots.len(),
        render_ansi::covered(frame, row, n as nat) == 0,
        joined(slots, j, n),
    ensures
        render_ansi::covered(frame, row, j as nat) == 0,
        inert(frame, row, j),
{
    assert(slots[n] is Tail);
    let i = choose|i: int| belongs(slots, i, n);
    assert(i <= j) by {
        if j < i {
            assert(slots[i] is Tail);
        }
    }
    assert(slot_shows(slots[i], frame, row, i));
    assert(slot_shows(slots[j], frame, row, j));
    if !inert(frame, row, i) {
        lemma_covered_from(frame, row, i as nat, n as nat);
    }
    if render_ansi::covered(frame, row, j as nat) > 0 {
        let start = lemma_covered_start(frame, row, j as nat) as int;
        assert(slot_shows(slots[start], frame, row, start));
        if start < i {
            assert(render_ansi::covered(frame, row, i as nat) > 0);
        } else if start > i {
            assert(slots[start] is Tail);
        }
    } else if i < j {
        assert(slots[j] is Tail);
    }
}

/// Where overwriting a symbol in part erases an untouched column, nothing was to be
/// shown there.
proof fn lemma_erased(
    slots: Seq<Slot>,
    frame: FrameView,
    prev: FrameView,
    row: int,
    n: int,
    end: int,
    j: int,
)
    requires
        diff_progress(slots, frame, prev, row, n),
        n < end,
        untouched(frame, prev, row, n) <= end + render_ansi::covered(prev, row, end as nat) <= j
            < slots.len(),
        0 <= n,
        joined(slots, end - 1, j),
    ensures
        render_ansi::covered(prev, row, j as nat) == 0,
        inert(prev, row, j),
{
    let free = end + render_ansi::covered(prev, row, end as nat);
    lemma_covered_run(prev, row, end as nat, render_ansi::covered(prev, row, end as nat));
    assert(slots[j] is Tail);
    assert(slot_shows(slots[j], prev, row, j));
    if render_ansi::covered(prev, row, j as nat) > 0 {
        let start = lemma_covered_start(prev, row, j as nat) as int;
        assert(free <= start) by {
            if start < free {
                assert(render_ansi::covered(prev, row, free as nat) > 0);
            }
        }
        assert(slot_shows(slots[start], prev, row, start));
        assert(slots[start] is Tail);
    }
}

/// Writing the cell at column `c` of a row keeps a diff going.
proof fn lemma_diff_paint(
    before: Seq<Slot>,
    frame: FrameView,
    prev: FrameView,
    row: int,
    c: int,
)
    requires
        diff_progress(before, frame, prev, row, c),
        0 <= c < frame.width,
        render_ansi::full_paints(frame, row, c as nat),
        render_ansi::width_at(frame, row, c) > 0,
    ensures
        diff_progress(put(before, c, look_at(frame, row, c)), frame, prev, row, c + 1),
{
    let look = look_at(frame, row, c);
    let after = put(before, c, look);
    let w = render_ansi::width_at(frame, row, c);
    let end = c + w;
    lemma_put(before, c, look);
    assert(render_ansi::covered(frame, row, (c + 1) as nat) == w - 1);
    let over = render_ansi::covered(prev, row, c as nat);
    if over > w {
        lemma_covered_run(prev, row, c as nat, w);
    }
    assert(untouched(frame, prev, row, c + 1) == end + render_ansi::covered(
        prev,
        row,
        end as nat,
    ));
    assert(untouched(frame, prev, row, c) == c + over);
    assert forall|j: int| 0 <= j < c + 1 implies slot_shows(#[trigger] after[j], frame, row, j) by {
        if j < c {
            assert(slot_shows(before[j], frame, row, j));
            if joined(before, j, c) {
                lemma_old_tail(before, frame, prev, row, c, j);
            }
        }
    }
    assert forall|j: int|
        untouched(frame, prev, row, c + 1) <= j < frame.width implies slot_shows(
        #[trigger] after[j],
        prev,
        row,
        j,
    ) by {
        assert(slot_shows(before[j], prev, row, j));
        if joined(before, end - 1, j) {
            lemma_erased(before, frame, prev, row, c, end, j);
        }
    }
}

/// Leaving the cell at column `c` of a row as it is keeps a diff going.
proof fn lemma_diff_pass(
    slots: Seq<Slot>,
    frame: FrameView,
    prev: FrameView,
    row: int,
    c: int,
)
    requires
        row_skips_kept(frame, prev, row),
        diff_progress(slots, frame, prev, row, c),
        0 <= c < frame.width,
        render_ansi::covered(frame, row, c as nat) == 0 && !inert(frame, row, c) ==> {
            &&& render_ansi::looks_same(frame, frame.at(row, c), prev, prev.at(row, c))
            &&& render_ansi::covered(prev, row, c as nat) == 0
        },
        frame.at(row, c).skip && render_ansi::covered(frame, row, c as nat) == 0
            ==> render_ansi::width_at(frame, row, c) <= 1,
    ensures
        diff_progress(slots, frame, prev, row, c + 1),
{
    let covers = render_ansi::covered(frame, row, c as nat);
    let over = render_ansi::covered(prev, row, c as nat);
    if covers > 0 {
        assert(untouched(frame, prev, row, c + 1) == untouched(frame, prev, row, c));
        assert(slots[c] is Tail);
    } else if inert(frame, row, c) {
        assert(render_ansi::covered(frame, row, (c + 1) as nat) == 0);
        assert(untouched(frame, prev, row, c) <= untouched(frame, prev, row, c + 1));
    } else {
        let w = render_ansi::width_at(frame, row, c);
        assert(render_ansi::width_at(prev, row, c) == w);
        assert(prev.at(row, c).skip ==> frame.at(row, c).skip || !render_ansi::looks_same(
            frame,
            frame.at(row, c),
            prev,
            prev.at(row, c),
        ));
        assert(untouched(frame, prev, row, c) == c);
        assert(slot_shows(slots[c], prev, row, c));
        assert(render_ansi::covered(frame, row, (c + 1) as nat) == w - 1);
        assert forall|j: int|
            c + 1 <= j < c + 1 + render_ansi::covered(frame, row, (c + 1) as nat) && j
                < frame.width implies (#[trigger] slots[j]) is Tail by {
            lemma_covered_from(prev, row, c as nat, j as nat);
            assert(slot_shows(slots[j], prev, row, j));
        }
    }
}

proof fn lemma_diff_progress(
    slots: Seq<Slot>,
    frame: FrameView,
    prev: FrameView,
    row: int,
    n: nat,
)
    requires
        frame.same_size(prev),
        row_tidy(frame, row),
        row_skips_kept(frame, prev, row),
        row_shows(slots, prev, row),
        n <= frame.width,
    ensures
        diff_progress(diffed_row(slots, frame, prev, row, n), frame, prev, row, n as int),
    decreases n,
{
    if n == 0 {
        assert forall|j: int| 0 <= j < frame.width implies slot_shows(
            #[trigger] slots[j],
            prev,
            row,
            j,
        ) by {}
    } else {
        let c = n - 1;
        let before = diffed_row(slots, frame, prev, row, c as nat);
        lemma_diff_progress(slots, frame, prev, row, c as nat);
        lemma_disturbed(frame, prev, row, c as nat);
        lemma_tidy_reach(frame, row, c as nat);
        lemma_covered_within_reach(prev, row, c as nat);
        let w = render_ansi::width_at(frame, row, c);
        if render_ansi::diff_paints(frame, prev, row, c as nat) && w > 0 {
            lemma_diff_paint(before, frame, prev, row, c);
        } else {
            lemma_diff_pass(before, frame, prev, row, c);
        }
    }
}

/// What holds of an empty row once a full redraw has been through the columns left of
/// `n`: those show the frame, the symbol before `n` has all its columns, and the rest
/// is blank.
spec fn redraw_progress(slots: Seq<Slot>, frame: FrameView, row: int, n: int) -> bool {
    let end = n + render_ansi::covered(frame, row, n as nat);
    &&& slots.len() == frame.width
    &&& row_whole(slots)
    &&& forall|j: int| 0 <= j < n ==> slot_shows(#[trigger] slots[j], frame, row, j)
    &&& forall|j: int| n <= j < end && j < frame.width ==> (#[trigger] slots[j]) is Tail
    &&& forall|j: int| end <= j < frame.width ==> (#[trigger] slots[j]) is Blank
}

proof fn lemma_redraw_progress(slots: Seq<Slot>, frame: FrameView, row: int, n: nat)
    requires
        slots.len() == frame.width,
        forall|j: int| 0 <= j < frame.width ==> (#[trigger] slots[j]) is Blank,
        n <= frame.width,
    ensures
        redraw_progress(redrawn_row(slots, frame, row, n), frame, row, n as int),
    decreases n,
{
    if n > 0 {
        let c = n - 1;
        let before = redrawn_row(slots, frame, row, c as nat);
        let after = redrawn_row(slots, frame, row, n);
        lemma_redraw_progress(slots, frame, row, c as nat);
        let w = render_ansi::width_at(frame, row, c);
        if render_ansi::full_paints(frame, row, c as nat) && w > 0 {
            lemma_put(before, c, look_at(frame, row, c));
            assert(before[c] is Blank);
            assert forall|j: int| 0 <= j < n implies slot_shows(
                #[trigger] after[j],
                frame,
                row,
                j,
            ) by {
                if j < c {
                    assert(slot_shows(before[j], frame, row, j));
                    assert(!joined(before, j, c));
                }
            }
            assert forall|j: int| c + w <= j < frame.width implies (#[trigger] after[j]) is Blank by {
                assert(before[j] is Blank);
            }
        } else {
            assert(after == before);
        }
    }
}

// ---------------------------------------------------------------------------
// Painting a list of cells
// ---------------------------------------------------------------------------

/// The rows of the screen after cells were painted one after the other.
pub open spec fn painted_rows(
    rows: Seq<Seq<Slot>>,
    frame: FrameView,
    cells: Seq<(int, int)>,
) -> Seq<Seq<Slot>>
    decreases cells.len(),
{
    if cells.len() == 0 {
        rows
    } else {
        let before = painted_rows(rows, frame, cells.drop_last());
        let (row, col) = cells.last();
        with_row(before, row, put(before[row], col, look_at(frame, row, col)))
    }
}

/// Every cell of a list lies in the frame.
pub open spec fn cells_in(frame: FrameView, cells: Seq<(int, int)>) -> bool {
    forall|i: int|
        0 <= i < cells.len() ==> 0 <= (#[trigger] cells[i]).0 < frame.height && 0 <= cells[i].1
            < frame.width
}

proof fn lemma_cell_ops(
    screen: Screen,
    frame: FrameView,
    row: int,
    col: int,
    style: Option<Style>,
    link: Option<Seq<char>>,
)
    requires
        0 <= row < frame.height,
        0 <= col < frame.width,
        style is Some ==> screen.style == style,
        screen.link == link,
    ensures
        ({
            let cell = frame.at(row, col);
            let after = run(screen, render_ansi::cell_ops(frame, row, col, cell, style, link));
            &&& after.rows == with_row(
                screen.rows,
                row,
                put(screen.rows[row], col, look_at(frame, row, col)),
            )
            &&& after.style == Some(render_ansi::style_of(cell))
            &&& after.link == hyperlink::cell_link(frame, cell)
            &&& after.shape == screen.shape
        }),
{
    let cell = frame.at(row, col);
    let to = hyperlink::cell_link(frame, cell);
    let move_op = Op::MoveTo { x: col as u16, y: row as u16 };
    let style_ops = render_ansi::style_change(style, render_ansi::style_of(cell));
    let link_ops = render_ansi::link_change(link, to);
    let text_op = Op::Text(cell.symbol);
    lemma_run_add(screen, seq![move_op] + style_ops + link_ops, seq![text_op]);
    lemma_run_add(screen, seq![move_op] + style_ops, link_ops);
    lemma_run_add(screen, seq![move_op], style_ops);
    lemma_run_one(screen, move_op);
    let moved = run(screen, seq![move_op]);
    if style_ops.len() > 0 {
        lemma_run_one(moved, style_ops[0]);
        assert(style_ops =~= seq![style_ops[0]]);
    }
    let styled = run(moved, style_ops);
    lemma_link_change(styled, link, to);
    let linked = run(styled, link_ops);
    lemma_run_one(linked, text_op);
}

/// Changing the hyperlink changes nothing else.
proof fn lemma_link_change(screen: Screen, from: Option<Seq<char>>, to: Option<Seq<char>>)
    requires
        screen.link == from,
    ensures
        run(screen, render_ansi::link_change(from, to)) == (Screen { link: to, ..screen }),
{
    let close = if from is Some {
        seq![Op::CloseLink]
    } else {
        Seq::empty()
    };
    let open = match to {
        Some(uri) => seq![Op::OpenLink(uri)],
        None => Seq::empty(),
    };
    if from != to {
        lemma_run_add(screen, close, open);
        lemma_run_one(screen, Op::CloseLink);
        let closed = run(screen, close);
        if to is Some {
            lemma_run_one(closed, Op::OpenLink(to.unwrap()));
        }
    }
}

/// Painting a list of cells paints each of them with its own look.
proof fn lemma_paint_ops(screen: Screen, frame: FrameView, cells: Seq<(int, int)>, dedup: bool)
    requires
        cells_in(frame, cells),
        screen.link is None,
    ensures
        ({
            let after = run(screen, render_ansi::paint_ops(frame, cells, dedup));
            &&& after.rows == painted_rows(screen.rows, frame, cells)
            &&& after.link == render_ansi::link_after(frame, cells)
            &&& cells.len() > 0 ==> after.style == render_ansi::style_after(frame, cells)
            &&& after.shape == screen.shape
        }),
    decreases cells.len(),
{
    if cells.len() > 0 {
        let before = cells.drop_last();
        let (row, col) = cells.last();
        assert(cells[cells.len() - 1] == (row, col));
        lemma_paint_ops(screen, frame, before, dedup);
        let left = run(screen, render_ansi::paint_ops(frame, before, dedup));
        let style = if dedup {
            render_ansi::style_after(frame, before)
        } else {
            None
        };
        let link = render_ansi::link_after(frame, before);
        lemma_cell_ops(left, frame, row, col, style, link);
        lemma_run_add(
            screen,
            render_ansi::paint_ops(frame, before, dedup),
            render_ansi::cell_ops(frame, row, col, frame.at(row, col), style, link),
        );
    }
}

proof fn lemma_painted_rows_add(
    rows: Seq<Seq<Slot>>,
    frame: FrameView,
    a: Seq<(int, int)>,
    b: Seq<(int, int)>,
)
    ensures
        painted_rows(rows, frame, a + b) == painted_rows(painted_rows(rows, frame, a), frame, b),
    decreases b.len(),
{
    if b.len() == 0 {
        assert(a + b =~= a);
    } else {
        lemma_painted_rows_add(rows, frame, a, b.drop_last());
        assert((a + b).drop_last() =~= a + b.drop_last());
    }
}

proof fn lemma_diff_row(
    rows: Seq<Seq<Slot>>,
    frame: FrameView,
    prev: FrameView,
    row: int,
    n: nat,
)
    requires
        0 <= row < rows.len(),
        0 <= row < frame.height,
        n <= frame.width,
    ensures
        cells_in(frame, render_ansi::diff_row(frame, prev, row, n)),
        painted_rows(rows, frame, render_ansi::diff_row(frame, prev, row, n)) == rows.update(
            row,
            diffed_row(rows[row], frame, prev, row, n),
        ),
    decreases n,
{
    let cells = render_ansi::diff_row(frame, prev, row, n);
    if n == 0 {
        assert(rows =~= rows.update(row, rows[row]));
    } else {
        lemma_diff_row(rows, frame, prev, row, (n - 1) as nat);
        let left = render_ansi::diff_row(frame, prev, row, (n - 1) as nat);
        if render_ansi::diff_paints(frame, prev, row, (n - 1) as nat) {
            assert(cells.drop_last() =~= left);
            assert(cells.last() == (row, n - 1));
            assert(painted_rows(rows, frame, cells) =~= rows.update(
                row,
                diffed_row(rows[row], frame, prev, row, n),
            ));
        }
    }
}

proof fn lemma_diff_cells(rows: Seq<Seq<Slot>>, frame: FrameView, prev: FrameView, n: nat)
    requires
        rows.len() == frame.height,
        n <= frame.height,
    ensures
        cells_in(frame, render_ansi::diff_cells(frame, prev, n)),
        painted_rows(rows, frame, render_ansi::diff_cells(frame, prev, n)) == Seq::new(
            rows.len(),
            |y: int|
                if y < n {
                    diffed_row(rows[y], frame, prev, y, frame.width as nat)
                } else {
                    rows[y]
                },
        ),
    decreases n,
{
    let painted = painted_rows(rows, frame, render_ansi::diff_cells(frame, prev, n));
    if n > 0 {
        let above = render_ansi::diff_cells(frame, prev, (n - 1) as nat);
        let last = render_ansi::diff_row(frame, prev, n - 1, frame.width as nat);
        lemma_diff_cells(rows, frame, prev, (n - 1) as nat);
        lemma_painted_rows_add(rows, frame, above, last);
        lemma_diff_row(
            painted_rows(rows, frame, above),
            frame,
            prev,
            n - 1,
            frame.width as nat,
        );
        assert forall|i: int| 0 <= i < (above + last).len() implies 0 <= (#[trigger] (above
            + last)[i]).0 < frame.height && 0 <= (above + last)[i].1 < frame.width by {
            if i < above.len() {
                assert((above + last)[i] == above[i]);
            } else {
                assert((above + last)[i] == last[i - above.len()]);
            }
        }
    }
    assert(painted =~= Seq::new(
        rows.len(),
        |y: int|
            if y < n {
                diffed_row(rows[y], frame, prev, y, frame.width as nat)
            } else {
                rows[y]
            },
    ));
}

proof fn lemma_full_row(rows: Seq<Seq<Slot>>, frame: FrameView, row: int, n: nat)
    requires
        0 <= row < rows.len(),
        0 <= row < frame.height,
        n <= frame.width,
    ensures
        cells_in(frame, render_ansi::full_row(frame, row, n)),
        painted_rows(rows, frame, render_ansi::full_row(frame, row, n)) == rows.update(
            row,
            redrawn_row(rows[row], frame, row, n),
        ),
    decreases n,
{
    let cells = render_ansi::full_row(frame, row, n);
    if n == 0 {
        assert(rows =~= rows.update(row, rows[row]));
    } else {
        lemma_full_row(rows, frame, row, (n - 1) as nat);
        let left = render_ansi::full_row(frame, row, (n - 1) as nat);
        if render_ansi::full_paints(frame, row, (n - 1) as nat) {
            assert(cells.drop_last() =~= left);
            assert(cells.last() == (row, n - 1));
            assert(painted_rows(rows, frame, cells) =~= rows.update(
                row,
                redrawn_row(rows[row], frame, row, n),
            ));
        }
    }
}

proof fn lemma_full_cells(rows: Seq<Seq<Slot>>, frame: FrameView, n: nat)
    requires
        rows.len() == frame.height,
        n <= frame.height,
    ensures
        cells_in(frame, render_ansi::full_cells(frame, n)),
        painted_rows(rows, frame, render_ansi::full_cells(frame, n)) == Seq::new(
            rows.len(),
            |y: int|
                if y < n {
                    redrawn_row(rows[y], frame, y, frame.width as nat)
                } else {
                    rows[y]
                },
        ),
    decreases n,
{
    let painted = painted_rows(rows, frame, render_ansi::full_cells(frame, n));
    if n > 0 {
        let above = render_ansi::full_cells(frame, (n - 1) as nat);
        let last = render_ansi::full_row(frame, n - 1, frame.width as nat);
        lemma_full_cells(rows, frame, (n - 1) as nat);
        lemma_painted_rows_add(rows, frame, above, last);
        lemma_full_row(painted_rows(rows, frame, above), frame, n - 1, frame.width as nat);
        assert forall|i: int| 0 <= i < (above + last).len() implies 0 <= (#[trigger] (above
            + last)[i]).0 < frame.height && 0 <= (above + last)[i].1 < frame.width by {
            if i < above.len() {
                assert((above + last)[i] == above[i]);
            } else {
                assert((above + last)[i] == last[i - above.len()]);
            }
        }
    }
    assert(painted =~= Seq::new(
        rows.len(),
        |y: int|
            if y < n {
                redrawn_row(rows[y], frame, y, frame.width as nat)
            } else {
                rows[y]
            },
    ));
}

// ---------------------------------------------------------------------------
// A whole frame
// ---------------------------------------------------------------------------

/// Instructions that leave the cursor's visibility and synchronized output alone.
pub open spec fn quiet(ops: Seq<Op>) -> bool {
    forall|i: int|
        0 <= i < ops.len() ==> !((#[trigger] ops[i]) is HideCursor || ops[i] is ShowCursor || ops[i]
            is BeginSync || ops[i] is EndSync)
}

proof fn lemma_quiet_run(screen: Screen, ops: Seq<Op>)
    requires
        quiet(ops),
    ensures
        run(screen, ops).visible == screen.visible,
        run(screen, ops).synced == screen.synced,
    decreases ops.len(),
{
    if ops.len() > 0 {
        assert(quiet(ops.drop_last())) by {
            assert forall|i: int| 0 <= i < ops.len() - 1 implies !((
            #[trigger] ops.drop_last()[i]) is HideCursor || ops.drop_last()[i] is ShowCursor
                || ops.drop_last()[i] is BeginSync || ops.drop_last()[i] is EndSync) by {
                assert(ops.drop_last()[i] == ops[i]);
            }
        }
        lemma_quiet_run(screen, ops.drop_last());
        assert(ops.last() == ops[ops.len() - 1]);
    }
}

proof fn lemma_quiet_paint(frame: FrameView, cells: Seq<(int, int)>, dedup: bool)
    ensures
        quiet(render_ansi::paint_ops(frame, cells, dedup)),
    decreases cells.len(),
{
    if cells.len() > 0 {
        lemma_quiet_paint(frame, cells.drop_last(), dedup);
    }
}

proof fn lemma_quiet_body(frame: FrameView, prev: Option<FrameView>)
    ensures
        quiet(render_ansi::body_ops(frame, prev)),
{
    if render_ansi::full_redraw(frame, prev) {
        lemma_quiet_paint(frame, render_ansi::full_cells(frame, frame.height as nat), false);
    } else {
        lemma_quiet_paint(
            frame,
            render_ansi::diff_cells(frame, prev.unwrap(), frame.height as nat),
            true,
        );
    }
}

/// The cells that a blit paints.
pub open spec fn body_cells(frame: FrameView, prev: Option<FrameView>) -> Seq<(int, int)> {
    if render_ansi::full_redraw(frame, prev) {
        render_ansi::full_cells(frame, frame.height as nat)
    } else {
        render_ansi::diff_cells(frame, prev.unwrap(), frame.height as nat)
    }
}

/// The rows that a blit starts from.
pub open spec fn body_base(
    rows: Seq<Seq<Slot>>,
    frame: FrameView,
    prev: Option<FrameView>,
) -> Seq<Seq<Slot>> {
    if render_ansi::full_redraw(frame, prev) {
        blank_rows(rows)
    } else {
        rows
    }
}

proof fn lemma_body(screen: Screen, frame: FrameView, prev: Option<FrameView>)
    requires
        screen.link is None,
    ensures
        ({
            let after = run(screen, render_ansi::body_ops(frame, prev));
            &&& after.rows == painted_rows(
                body_base(screen.rows, frame, prev),
                frame,
                body_cells(frame, prev),
            )
            &&& after.link is None
            &&& after.shape == screen.shape
            &&& after.visible == screen.visible
            &&& after.synced == screen.synced
            &&& screen.style is None ==> after.style is None
        }),
{
    let full = render_ansi::full_redraw(frame, prev);
    let cells = body_cells(frame, prev);
    let grid: Seq<Seq<Slot>> = Seq::new(frame.height as nat, |y: int| Seq::empty());
    if full {
        lemma_full_cells(grid, frame, frame.height as nat);
    } else {
        lemma_diff_cells(grid, frame, prev.unwrap(), frame.height as nat);
    }
    let opening = if full {
        seq![Op::ClearScreen]
    } else {
        Seq::empty()
    };
    let paint = render_ansi::paint_ops(frame, cells, !full);
    let unlink = render_ansi::link_change(render_ansi::link_after(frame, cells), None);
    let reset = if full || cells.len() > 0 {
        seq![Op::ResetStyle]
    } else {
        Seq::empty()
    };
    assert(render_ansi::body_ops(frame, prev) =~= opening + (paint + unlink + reset));
    lemma_run_add(screen, opening, paint + unlink + reset);
    lemma_run_one(screen, Op::ClearScreen);
    let opened = run(screen, opening);
    lemma_run_add(opened, paint + unlink, reset);
    lemma_run_add(opened, paint, unlink);
    lemma_paint_ops(opened, frame, cells, !full);
    let painted = run(opened, paint);
    lemma_link_change(painted, painted.link, None);
    let unlinked = run(painted, unlink);
    lemma_run_one(unlinked, Op::ResetStyle);
    lemma_quiet_body(frame, prev);
    lemma_quiet_run(screen, render_ansi::body_ops(frame, prev));
}

/// A blit opens by hiding the cursor, beginning synchronized output and dropping any
/// hyperlink.
proof fn lemma_opening(screen: Screen)
    ensures
        run(screen, seq![Op::HideCursor, Op::BeginSync, Op::CloseLink]) == (Screen {
            visible: false,
            synced: true,
            link: None,
            ..screen
        }),
{
    let rest = seq![Op::BeginSync] + seq![Op::CloseLink];
    assert(seq![Op::HideCursor, Op::BeginSync, Op::CloseLink] =~= seq![Op::HideCursor] + rest);
    lemma_run_add(screen, seq![Op::HideCursor], rest);
    lemma_run_one(screen, Op::HideCursor);
    let hidden = run(screen, seq![Op::HideCursor]);
    lemma_run_add(hidden, seq![Op::BeginSync], seq![Op::CloseLink]);
    lemma_run_one(hidden, Op::BeginSync);
    lemma_run_one(run(hidden, seq![Op::BeginSync]), Op::CloseLink);
}

/// The screen as a blit leaves it, apart from what its rows show.
pub open spec fn settled(after: Screen, cursor: cursor::HostCursorState) -> bool {
    &&& after.cursor == (cursor.position.0 as int, cursor.position.1 as int)
    &&& after.visible == cursor.visible
    &&& after.shape == cursor.shape
    &&& after.link is None
    &&& !after.synced
}

/// Whatever the screen was like, a blit ends synchronized output, leaves no hyperlink
/// open, and leaves the cursor at the final position and in the final visibility of
/// the frame. It leaves the cursor in the frame's shape on a terminal whose cursor has
/// the shape that the blit was told. Where the style was the default one it is again.
pub proof fn law_blit_settles_cursor(
    screen: Screen,
    frame: FrameView,
    prev: Option<FrameView>,
    last_visible: Option<(u16, u16)>,
    repeat: bool,
    suppress: bool,
)
    ensures
        ({
            let after = run(
                screen,
                render_ansi::blit_ops(
                    frame,
                    prev,
                    last_visible,
                    screen.shape,
                    repeat,
                    suppress,
                ),
            );
            &&& settled(after, render_ansi::final_cursor(frame, last_visible, suppress))
            &&& after.rows == painted_rows(
                body_base(screen.rows, frame, prev),
                frame,
                body_cells(frame, prev),
            )
            &&& screen.style is None ==> after.style is None
        }),
{
    let cursor = render_ansi::final_cursor(frame, last_visible, suppress);
    let opening = seq![Op::HideCursor, Op::BeginSync, Op::CloseLink];
    let body = render_ansi::body_ops(frame, prev);
    let place = cursor::cursor_ops(cursor, screen.shape);
    let anchor = if repeat {
        cursor::anchor_ops(cursor)
    } else {
        Seq::empty()
    };
    lemma_run_add(screen, opening + body + place + seq![Op::EndSync], anchor);
    lemma_run_add(screen, opening + body + place, seq![Op::EndSync]);
    lemma_run_add(screen, opening + body, place);
    lemma_run_add(screen, opening, body);
    let opened = run(screen, opening);
    lemma_opening(screen);
    lemma_body(opened, frame, prev);
    let painted = run(opened, body);
    lemma_place(painted, cursor, screen.shape);
    let placed = run(painted, place);
    lemma_run_one(placed, Op::EndSync);
    let ended = run(placed, seq![Op::EndSync]);
    lemma_anchor(ended, cursor);
}

proof fn lemma_place(screen: Screen, cursor: cursor::HostCursorState, last_shape: u8)
    ensures
        run(screen, cursor::cursor_ops(cursor, last_shape)) == (Screen {
            cursor: (cursor.position.0 as int, cursor.position.1 as int),
            shape: if cursor.shape != last_shape {
                cursor.shape
            } else {
                screen.shape
            },
            visible: cursor.visible,
            ..screen
        }),
{
    let move_op = Op::MoveTo { x: cursor.position.0, y: cursor.position.1 };
    let shape_ops = if cursor.shape != last_shape {
        seq![Op::CursorShape(cursor.shape)]
    } else {
        Seq::empty()
    };
    let see_op = cursor::visibility_op(cursor.visible);
    lemma_run_add(screen, seq![move_op] + shape_ops, seq![see_op]);
    lemma_run_add(screen, seq![move_op], shape_ops);
    lemma_run_one(screen, move_op);
    let moved = run(screen, seq![move_op]);
    lemma_run_one(moved, Op::CursorShape(cursor.shape));
    lemma_run_one(run(moved, shape_ops), see_op);
}

proof fn lemma_anchor(screen: Screen, cursor: cursor::HostCursorState)
    ensures
        run(screen, cursor::anchor_ops(cursor)) == (Screen {
            cursor: (cursor.position.0 as int, cursor.position.1 as int),
            visible: cursor.visible,
            ..screen
        }),
{
    let move_op = Op::MoveTo { x: cursor.position.0, y: cursor.position.1 };
    let see_op = cursor::visibility_op(cursor.visible);
    assert(cursor::anchor_ops(cursor) =~= seq![move_op] + seq![see_op]);
    lemma_run_add(screen, seq![move_op], seq![see_op]);
    lemma_run_one(screen, move_op);
    lemma_run_one(run(screen, seq![move_op]), see_op);
}

/// A frame that is written whole is shown, whatever the screen showed before.
pub proof fn law_full_redraw_shows_frame(
    screen: Screen,
    frame: FrameView,
    prev: Option<FrameView>,
    last_visible: Option<(u16, u16)>,
    last_shape: u8,
    repeat: bool,
    suppress: bool,
)
    requires
        render_ansi::full_redraw(frame, prev),
        fits(screen, frame),
    ensures
        shows(
            run(
                screen,
                render_ansi::blit_ops(frame, prev, last_visible, last_shape, repeat, suppress),
            ),
            frame,
        ),
{
    let ops = render_ansi::blit_ops(frame, prev, last_visible, last_shape, repeat, suppress);
    let after = run(screen, ops);
    lemma_blit_rows(screen, frame, prev, last_visible, last_shape, repeat, suppress);
    let base = blank_rows(screen.rows);
    lemma_full_cells(base, frame, frame.height as nat);
    assert forall|row: int| 0 <= row < frame.height implies row_shows(
        #[trigger] after.rows[row],
        frame,
        row,
    ) by {
        assert(screen.rows[row].len() == frame.width);
        lemma_redraw_progress(base[row], frame, row, frame.width as nat);
    }
}

/// Where a frame is shown, each column that a symbol covers belongs to that symbol: it
/// starts at the nearest column to the left that is not covered, takes up the column,
/// and is shown from its start to there.
pub proof fn law_covered_column_belongs_to_its_symbol(
    screen: Screen,
    frame: FrameView,
    row: int,
    col: int,
)
    requires
        shows(screen, frame),
        0 <= row < frame.height,
        0 <= col < frame.width,
        render_ansi::covered(frame, row, col as nat) > 0,
    ensures
        exists|start: int|
            {
                &&& #[trigger] belongs(screen.rows[row], start, col)
                &&& screen.rows[row][start] == Slot::Glyph(look_at(frame, row, start))
                &&& render_ansi::full_paints(frame, row, start as nat)
                &&& col < start + render_ansi::width_at(frame, row, start)
            },
{
    let slots = screen.rows[row];
    assert(row_shows(slots, frame, row));
    let start = lemma_covered_start(frame, row, col as nat) as int;
    assert(slot_shows(slots[start], frame, row, start));
    assert forall|k: int| start < k <= col implies #[trigger] slots[k] is Tail by {
        assert(render_ansi::covered(frame, row, k as nat) > 0);
        assert(slot_shows(slots[k], frame, row, k));
    }
    assert(belongs(slots, start, col));
}

/// In a row of the screen that shows the previous frame, a diff shows the new one, if
/// the new row is tidy and keeps its skips, whatever the other rows hold.
pub proof fn law_diff_shows_tidy_row(
    screen: Screen,
    frame: FrameView,
    prev: FrameView,
    last_visible: Option<(u16, u16)>,
    last_shape: u8,
    repeat: bool,
    suppress: bool,
    row: int,
)
    requires
        frame.same_size(prev),
        screen.rows.len() == frame.height,
        0 <= row < frame.height,
        row_shows(screen.rows[row], prev, row),
        row_tidy(frame, row),
        row_skips_kept(frame, prev, row),
    ensures
        row_shows(
            run(
                screen,
                render_ansi::blit_ops(
                    frame,
                    Some(prev),
                    last_visible,
                    last_shape,
                    repeat,
                    suppress,
                ),
            ).rows[row],
            frame,
            row,
        ),
{
    lemma_blit_rows(screen, frame, Some(prev), last_visible, last_shape, repeat, suppress);
    lemma_diff_cells(screen.rows, frame, prev, frame.height as nat);
    lemma_diff_progress(screen.rows[row], frame, prev, row, frame.width as nat);
}

/// On a screen that shows the previous frame, a diff shows the new one: every cell
/// that changed is written, and so is every cell that a wide symbol covered or that
/// was damaged by overwriting one.
pub proof fn law_diff_shows_frame(
    screen: Screen,
    frame: FrameView,
    prev: FrameView,
    last_visible: Option<(u16, u16)>,
    last_shape: u8,
    repeat: bool,
    suppress: bool,
)
    requires
        frame.same_size(prev),
        shows(screen, prev),
        tidy(frame),
        skips_kept(frame, prev),
    ensures
        shows(
            run(
                screen,
                render_ansi::blit_ops(
                    frame,
                    Some(prev),
                    last_visible,
                    last_shape,
                    repeat,
                    suppress,
                ),
            ),
            frame,
        ),
{
    let ops = render_ansi::blit_ops(
        frame,
        Some(prev),
        last_visible,
        last_shape,
        repeat,
        suppress,
    );
    let after = run(screen, ops);
    lemma_blit_rows(screen, frame, Some(prev), last_visible, last_shape, repeat, suppress);
    lemma_diff_cells(screen.rows, frame, prev, frame.height as nat);
    assert forall|row: int| 0 <= row < frame.height implies row_shows(
        #[trigger] after.rows[row],
        frame,
        row,
    ) by {
        assert(row_tidy(frame, row));
        assert(row_skips_kept(frame, prev, row));
        assert(row_shows(screen.rows[row], prev, row));
        law_diff_shows_tidy_row(
            screen,
            frame,
            prev,
            last_visible,
            last_shape,
            repeat,
            suppress,
            row,
        );
    }
}

/// What a blit does to the rows does not depend on the cursor shape.
proof fn lemma_blit_rows(
    screen: Screen,
    frame: FrameView,
    prev: Option<FrameView>,
    last_visible: Option<(u16, u16)>,
    last_shape: u8,
    repeat: bool,
    suppress: bool,
)
    ensures
        run(
            screen,
            render_ansi::blit_ops(frame, prev, last_visible, last_shape, repeat, suppress),
        ).rows == painted_rows(
            body_base(screen.rows, frame, prev),
            frame,
            body_cells(frame, prev),
        ),
{
    let told = Screen { shape: last_shape, ..screen };
    let ops = render_ansi::blit_ops(frame, prev, last_visible, last_shape, repeat, suppress);
    law_blit_settles_cursor(told, frame, prev, last_visible, repeat, suppress);
    lemma_shape_is_apart(screen, last_shape, ops);
}

/// The shape of the cursor has no effect on the rest of the screen.
proof fn lemma_shape_is_apart(screen: Screen, shape: u8, ops: Seq<Op>)
    ensures
        ({
            let a = run(screen, ops);
            let b = run(Screen { shape, ..screen }, ops);
            b == (Screen { shape: b.shape, ..a })
        }),
    decreases ops.len(),
{
    if ops.len() > 0 {
        lemma_shape_is_apart(screen, shape, ops.drop_last());
    }
}

/// Text reaches the screen only while the cursor is hidden and synchronized output is
/// active, so that a half-painted frame is never presented.
pub proof fn law_text_is_written_hidden_and_synced(
    screen: Screen,
    frame: FrameView,
    prev: Option<FrameView>,
    last_visible: Option<(u16, u16)>,
    last_shape: u8,
    repeat: bool,
    suppress: bool,
    i: int,
)
    requires
        0 <= i < render_ansi::blit_ops(
            frame,
            prev,
            last_visible,
            last_shape,
            repeat,
            suppress,
        ).len(),
        render_ansi::blit_ops(frame, prev, last_visible, last_shape, repeat, suppress)[i] is Text,
    ensures
        ({
            let ops = render_ansi::blit_ops(
                frame,
                prev,
                last_visible,
                last_shape,
                repeat,
                suppress,
            );
            let at = run(screen, ops.take(i));
            !at.visible && at.synced
        }),
{
    let ops = render_ansi::blit_ops(frame, prev, last_visible, last_shape, repeat, suppress);
    let opening = seq![Op::HideCursor, Op::BeginSync, Op::CloseLink];
    let body = render_ansi::body_ops(frame, prev);
    let cursor = render_ansi::final_cursor(frame, last_visible, suppress);
    let rest = cursor::cursor_ops(cursor, last_shape) + seq![Op::EndSync] + (if repeat {
        cursor::anchor_ops(cursor)
    } else {
        Seq::empty()
    });
    assert(ops =~= opening + body + rest);
    assert(3 <= i < 3 + body.len()) by {
        if i >= 3 + body.len() {
            assert(ops[i] == rest[i - 3 - body.len()]);
        } else if i < 3 {
            assert(ops[i] == opening[i]);
        }
    }
    let part = body.take(i - 3);
    assert(ops.take(i) =~= opening + part);
    lemma_run_add(screen, opening, part);
    lemma_quiet_body(frame, prev);
    assert(quiet(part)) by {
        assert forall|j: int| 0 <= j < part.len() implies !((#[trigger] part[j]) is HideCursor
            || part[j] is ShowCursor || part[j] is BeginSync || part[j] is EndSync) by {
            assert(part[j] == body[j]);
        }
    }
    let opened = run(screen, opening);
    lemma_opening(screen);
    lemma_quiet_run(opened, part);
}

/// The cursor is shown only where it stays: at its final position.
pub proof fn law_cursor_is_shown_at_its_final_position(
    screen: Screen,
    frame: FrameView,
    prev: Option<FrameView>,
    last_visible: Option<(u16, u16)>,
    last_shape: u8,
    repeat: bool,
    suppress: bool,
    i: int,
)
    requires
        0 <= i < render_ansi::blit_ops(
            frame,
            prev,
            last_visible,
            last_shape,
            repeat,
            suppress,
        ).len(),
        render_ansi::blit_ops(
            frame,
            prev,
            last_visible,
            last_shape,
            repeat,
            suppress,
        )[i] is ShowCursor,
    ensures
        ({
            let ops = render_ansi::blit_ops(
                frame,
                prev,
                last_visible,
                last_shape,
                repeat,
                suppress,
            );
            let position = render_ansi::final_cursor(frame, last_visible, suppress).position;
            run(screen, ops.take(i)).cursor == (position.0 as int, position.1 as int)
        }),
{
    let ops = render_ansi::blit_ops(frame, prev, last_visible, last_shape, repeat, suppress);
    let cursor = render_ansi::final_cursor(frame, last_visible, suppress);
    let opening = seq![Op::HideCursor, Op::BeginSync, Op::CloseLink];
    let body = render_ansi::body_ops(frame, prev);
    let move_op = Op::MoveTo { x: cursor.position.0, y: cursor.position.1 };
    let shape_ops = if cursor.shape != last_shape {
        seq![Op::CursorShape(cursor.shape)]
    } else {
        Seq::empty()
    };
    let see_op = cursor::visibility_op(cursor.visible);
    let head = opening + body;
    let placed = seq![move_op] + shape_ops;
    let anchor = if repeat {
        seq![move_op, see_op]
    } else {
        Seq::empty()
    };
    assert(ops =~= head + placed + seq![see_op, Op::EndSync] + anchor);
    lemma_quiet_body(frame, prev);
    if i < head.len() {
        assert(ops[i] == head[i]);
        if i >= 3 {
            assert(head[i] == body[i - 3]);
        }
    } else if i == head.len() + placed.len() {
        assert(ops.take(i) =~= head + placed);
        lemma_run_add(screen, head, placed);
        let before = run(screen, head);
        lemma_run_add(before, seq![move_op], shape_ops);
        lemma_run_one(before, move_op);
        lemma_run_one(run(before, seq![move_op]), Op::CursorShape(cursor.shape));
    } else {
        let tail_start = head.len() + placed.len() + 2;
        if i < head.len() + placed.len() {
            assert(ops[i] == placed[i - head.len()]);
        } else if i < tail_start {
            assert(ops[i] == Op::EndSync);
        } else {
            assert(ops[i] == anchor[i - tail_start]);
            let rest = head + placed + seq![see_op, Op::EndSync];
            assert(ops.take(i) =~= rest + seq![move_op]);
            lemma_run_add(screen, rest, seq![move_op]);
            lemma_run_one(run(screen, rest), move_op);
        }
    }
}

/// A frame that is diffed against itself paints nothing.
pub proof fn law_unchanged_frame_paints_nothing(frame: FrameView)
    ensures
        render_ansi::body_ops(frame, Some(frame)) == Seq::<Op>::empty(),
{
    lemma_unchanged(frame, frame.height as nat);
    assert(render_ansi::body_ops(frame, Some(frame)) =~= Seq::<Op>::empty());
}

proof fn lemma_unchanged(frame: FrameView, n: nat)
    ensures
        render_ansi::diff_cells(frame, frame, n) == Seq::<(int, int)>::empty(),
    decreases n,
{
    if n > 0 {
        lemma_unchanged(frame, (n - 1) as nat);
        lemma_unchanged_row(frame, n - 1, frame.width as nat);
    }
}

proof fn lemma_unchanged_row(frame: FrameView, row: int, n: nat)
    ensures
        render_ansi::diff_row(frame, frame, row, n) == Seq::<(int, int)>::empty(),
    decreases n,
{
    if n > 0 {
        lemma_unchanged_row(frame, row, (n - 1) as nat);
        lemma_disturbed(frame, frame, row, (n - 1) as nat);
    }
}

// ---------------------------------------------------------------------------
// A stream of frames
// ---------------------------------------------------------------------------

/// The terminal shows what the encoder believes it shows.
pub open spec fn in_sync(screen: Screen, encoder: encoder::EncoderView) -> bool {
    &&& screen.shape == encoder.last_cursor_shape
    &&& encoder.last_frame matches Some(last) ==> shows(screen, last)
}

/// A frame that an encoder can carry over to a terminal in sync with it.
pub open spec fn carries_over(
    screen: Screen,
    encoder: encoder::EncoderView,
    frame: FrameView,
    force_full: bool,
) -> bool {
    let prev = encoder::baseline(encoder, force_full);
    &&& fits(screen, frame)
    &&& !render_ansi::full_redraw(frame, prev) ==> tidy(frame) && skips_kept(frame, prev.unwrap())
}

/// Encoding a frame, sending it and committing it shows the frame on the terminal and
/// keeps terminal and encoder in sync, so that the next frame can be diffed again.
pub proof fn law_committed_blit_keeps_terminal_in_sync(
    screen: Screen,
    encoder: encoder::EncoderView,
    frame: FrameView,
    force_full: bool,
    repeat: bool,
)
    requires
        in_sync(screen, encoder),
        carries_over(screen, encoder, frame, force_full),
    ensures
        ({
            let sent = encoder::encoded(encoder, frame, force_full, repeat);
            let ops = render_ansi::blit_ops(
                frame,
                encoder::baseline(encoder, force_full),
                encoder.last_visible_cursor,
                encoder.last_cursor_shape,
                repeat,
                false,
            );
            let after = run(screen, ops);
            &&& sent.bytes == crate::ops::ops_bytes(ops)
            &&& shows(after, frame)
            &&& in_sync(after, encoder::committed(frame, sent))
            &&& settled(after, cursor::host_cursor(frame, encoder.last_visible_cursor))
        }),
{
    let prev = encoder::baseline(encoder, force_full);
    law_blit_settles_cursor(screen, frame, prev, encoder.last_visible_cursor, repeat, false);
    if render_ansi::full_redraw(frame, prev) {
        law_full_redraw_shows_frame(
            screen,
            frame,
            prev,
            encoder.last_visible_cursor,
            encoder.last_cursor_shape,
            repeat,
            false,
        );
    } else {
        law_diff_shows_frame(
            screen,
            frame,
            prev.unwrap(),
            encoder.last_visible_cursor,
            encoder.last_cursor_shape,
            repeat,
            false,
        );
    }
}

/// A terminal client whose terminal is in sync shows each frame it is sent: either it
/// gets the bytes of the frame, with the graphics in their place, and is in sync after
/// the commit, or there is nothing to send because it shows the frame already.
pub proof fn law_terminal_client_stays_in_sync(
    screen: Screen,
    encoder: encoder::EncoderView,
    seq: u64,
    frame: FrameView,
    repeat: bool,
)
    requires
        in_sync(screen, encoder),
        carries_over(screen, encoder, frame, false),
    ensures
        ({
            let state = StateView::TerminalAnsi { encoder, seq };
            let ops = render_ansi::blit_ops(
                frame,
                encoder.last_frame,
                encoder.last_visible_cursor,
                encoder.last_cursor_shape,
                repeat,
                false,
            );
            let after = run(screen, ops);
            match render_stream::prepared(state, frame, repeat) {
                Some(sent) => {
                    &&& render_stream::message_of(sent) matches MessageView::Terminal(terminal)
                        && terminal.bytes == render_stream::with_graphics(
                        crate::ops::ops_bytes(ops),
                        frame.graphics,
                    )
                    &&& shows(after, frame)
                    &&& render_stream::after_commit(state, sent) matches StateView::TerminalAnsi {
                        encoder: next,
                        ..
                    } && in_sync(after, next)
                },
                None => shows(screen, frame),
            }
        }),
{
    if encoder.last_frame != Some(frame) {
        law_committed_blit_keeps_terminal_in_sync(screen, encoder, frame, false, repeat);
    }
}

/// A terminal and the encoder that serves it, after a stream of frames was encoded,
/// sent and committed one after the other.
pub open spec fn terminal_stream(screen: Screen, frames: Seq<FrameView>, repeat: bool) -> (
    Screen,
    encoder::EncoderView,
)
    decreases frames.len(),
{
    if frames.len() == 0 {
        (screen, encoder::fresh_encoder())
    } else {
        let (before, enc) = terminal_stream(screen, frames.drop_last(), repeat);
        let frame = frames.last();
        (
            run(
                before,
                render_ansi::blit_ops(
                    frame,
                    enc.last_frame,
                    enc.last_visible_cursor,
                    enc.last_cursor_shape,
                    repeat,
                    false,
                ),
            ),
            encoder::committed(frame, encoder::encoded(enc, frame, false, repeat)),
        )
    }
}

/// However many frames are streamed to a terminal of their size, whatever it showed at
/// first, a row shows the last one if that row stayed tidy and kept its skips from the
/// second frame on, whatever the other rows hold.
pub proof fn law_terminal_stream_shows_tidy_row(
    screen: Screen,
    frames: Seq<FrameView>,
    repeat: bool,
    row: int,
)
    requires
        frames.len() > 0,
        0 <= row < screen.rows.len(),
        forall|i: int| 0 <= i < frames.len() ==> fits(screen, #[trigger] frames[i]),
        forall|i: int| 0 < i < frames.len() ==> row_tidy(#[trigger] frames[i], row),
        forall|i: int|
            0 < i < frames.len() ==> row_skips_kept(#[trigger] frames[i], frames[i - 1], row),
    ensures
        terminal_stream(screen, frames, repeat).0.rows.len() == screen.rows.len(),
        row_shows(terminal_stream(screen, frames, repeat).0.rows[row], frames.last(), row),
        terminal_stream(screen, frames, repeat).1.last_frame == Some(frames.last()),
    decreases frames.len(),
{
    let before = frames.drop_last();
    let frame = frames.last();
    assert(frame == frames[frames.len() - 1]);
    let (shown, enc) = terminal_stream(screen, before, repeat);
    let (visible, shape) = (enc.last_visible_cursor, enc.last_cursor_shape);
    assert(screen.rows[row].len() == frame.width);
    if before.len() > 0 {
        assert forall|i: int| 0 <= i < before.len() implies fits(screen, #[trigger] before[i]) by {
            assert(before[i] == frames[i]);
        }
        assert forall|i: int| 0 < i < before.len() implies row_tidy(#[trigger] before[i], row) by {
            assert(before[i] == frames[i]);
        }
        assert forall|i: int| 0 < i < before.len() implies row_skips_kept(
            #[trigger] before[i],
            before[i - 1],
            row,
        ) by {
            assert(before[i] == frames[i]);
        }
        law_terminal_stream_shows_tidy_row(screen, before, repeat, row);
        let prev = before.last();
        assert(prev == frames[frames.len() - 2]);
        assert(screen.rows[row].len() == prev.width);
        lemma_blit_rows(shown, frame, Some(prev), visible, shape, repeat, false);
        lemma_diff_cells(shown.rows, frame, prev, frame.height as nat);
        law_diff_shows_tidy_row(shown, frame, prev, visible, shape, repeat, false, row);
    } else {
        law_full_redraw_shows_frame(screen, frame, None, visible, shape, repeat, false);
    }
}

/// However many frames are streamed to a terminal of their size, whatever it showed at
/// first, it shows the last one.
pub proof fn law_terminal_stream_shows_last_frame(
    screen: Screen,
    frames: Seq<FrameView>,
    repeat: bool,
)
    requires
        frames.len() > 0,
        screen.shape == 0,
        forall|i: int| 0 <= i < frames.len() ==> fits(screen, #[trigger] frames[i]),
        forall|i: int| 0 < i < frames.len() ==> tidy(#[trigger] frames[i]),
        forall|i: int|
            0 < i < frames.len() ==> skips_kept(#[trigger] frames[i], frames[i - 1]),
    ensures
        shows(terminal_stream(screen, frames, repeat).0, frames.last()),
        in_sync(
            terminal_stream(screen, frames, repeat).0,
            terminal_stream(screen, frames, repeat).1,
        ),
        terminal_stream(screen, frames, repeat).1.last_frame == Some(frames.last()),
    decreases frames.len(),
{
    let before = frames.drop_last();
    let frame = frames.last();
    assert(frame == frames[frames.len() - 1]);
    let (shown, enc) = terminal_stream(screen, before, repeat);
    if before.len() > 0 {
        assert forall|i: int| 0 <= i < before.len() implies fits(screen, #[trigger] before[i]) by {
            assert(before[i] == frames[i]);
        }
        assert forall|i: int| 0 < i < before.len() implies tidy(#[trigger] before[i]) by {
            assert(before[i] == frames[i]);
        }
        assert forall|i: int| 0 < i < before.len() implies skips_kept(
            #[trigger] before[i],
            before[i - 1],
        ) by {
            assert(before[i] == frames[i]);
        }
        law_terminal_stream_shows_last_frame(screen, before, repeat);
        let prev = before.last();
        assert(prev == frames[frames.len() - 2]);
        assert(fits(screen, prev));
        assert(fits(screen, frame));
        assert(prev.height == frame.height);
        assert forall|row: int| 0 <= row < frame.height implies (#[trigger] shown.rows[row]).len()
            == frame.width by {
            assert(row_shows(shown.rows[row], prev, row));
            assert(screen.rows[row].len() == prev.width);
            assert(screen.rows[row].len() == frame.width);
        }
    }
    law_committed_blit_keeps_terminal_in_sync(shown, enc, frame, false, repeat);
}

} // verus!
