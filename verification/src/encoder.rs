//! The stateful encoder: diffs each frame against the one that was last committed.

use vstd::prelude::*;

use crate::cursor;
use crate::hyperlink;
use crate::hyperlink::sanitized_frame_hyperlinks;
use crate::ops;
use crate::protocol;
use crate::protocol::{cell_index, CellData, CellView, FrameData, FrameView};
use crate::render_ansi;
use crate::render_ansi::{
    blit_frame_to_with_cursor_memory_and_policy, cells_visually_equal,
    repeat_ime_anchor_after_sync, wider,
};
use crate::render_prof;
use crate::render_prof::{note, ProfNote};
use crate::width::cell_width;

verus! {

/// What one blit did, for profiling.
#[derive(Clone, Copy, Debug)]
pub struct ProfBlitStats {
    /// Cells that were looked at.
    pub scanned_cells: u64,
    /// Cells that were written.
    pub changed_cells: u64,
    /// Runs of adjacent cells that were written.
    pub changed_runs: u64,
}

/// The number of cells that are not marked `skip`.
pub open spec fn unskipped(cells: Seq<CellView>) -> nat {
    cells.filter(|cell: CellView| !cell.skip).len()
}

/// Whether a diff starts a run at a position: it paints the cell there and not the
/// one to its left.
pub open spec fn starts_run(frame: FrameView, prev: FrameView, row: int, col: nat) -> bool {
    render_ansi::diff_paints(frame, prev, row, col) && (col == 0 || !render_ansi::diff_paints(
        frame,
        prev,
        row,
        (col - 1) as nat,
    ))
}

/// The number of runs that a diff starts in one row, left of `n`.
pub open spec fn row_runs(frame: FrameView, prev: FrameView, row: int, n: nat) -> nat
    decreases n,
{
    if n == 0 {
        0
    } else {
        row_runs(frame, prev, row, (n - 1) as nat) + if starts_run(
            frame,
            prev,
            row,
            (n - 1) as nat,
        ) {
            1nat
        } else {
            0
        }
    }
}

/// The number of runs that a diff starts in the rows above `n`.
pub open spec fn diff_runs(frame: FrameView, prev: FrameView, n: nat) -> nat
    decreases n,
{
    if n == 0 {
        0
    } else {
        diff_runs(frame, prev, (n - 1) as nat) + row_runs(
            frame,
            prev,
            n - 1,
            frame.width as nat,
        )
    }
}

/// Whether a blit counts as a diff in the profile.
pub open spec fn counts_as_diff(frame: FrameView, prev: Option<FrameView>, full: bool) -> bool {
    !full && !render_ansi::full_redraw(frame, prev)
}

/// The statistics of a blit. A full redraw counts every cell that is not marked
/// `skip`, and each as a run of its own.
pub open spec fn stats_match(
    stats: ProfBlitStats,
    frame: FrameView,
    prev: Option<FrameView>,
    full: bool,
) -> bool {
    &&& stats.scanned_cells == frame.cells.len()
    &&& stats.changed_cells == if counts_as_diff(frame, prev, full) {
        render_ansi::diff_cells(frame, prev.unwrap(), frame.height as nat).len()
    } else {
        unskipped(frame.cells)
    }
    &&& stats.changed_runs == if counts_as_diff(frame, prev, full) {
        diff_runs(frame, prev.unwrap(), frame.height as nat)
    } else {
        unskipped(frame.cells)
    }
}

/// The statistics of a blit as one value.
pub open spec fn blit_stats(frame: FrameView, prev: Option<FrameView>, full: bool) -> ProfBlitStats {
    choose|stats: ProfBlitStats| stats_match(stats, frame, prev, full)
}

/// A diff paints no more cells than there are, and starts no more runs than it paints
/// cells.
pub proof fn lemma_row_counts(frame: FrameView, prev: FrameView, row: int, n: nat)
    ensures
        render_ansi::diff_row(frame, prev, row, n).len() <= n,
        row_runs(frame, prev, row, n) <= render_ansi::diff_row(frame, prev, row, n).len(),
    decreases n,
{
    if n > 0 {
        lemma_row_counts(frame, prev, row, (n - 1) as nat);
    }
}

/// As [`lemma_row_counts`], for the rows above `n`.
pub proof fn lemma_diff_counts(frame: FrameView, prev: FrameView, n: nat)
    ensures
        render_ansi::diff_cells(frame, prev, n).len() <= n * frame.width,
        diff_runs(frame, prev, n) <= render_ansi::diff_cells(frame, prev, n).len(),
    decreases n,
{
    if n > 0 {
        lemma_diff_counts(frame, prev, (n - 1) as nat);
        lemma_row_counts(frame, prev, n - 1, frame.width as nat);
        assert(n * frame.width == (n - 1) * frame.width + frame.width) by (nonlinear_arith)
            requires
                n > 0,
        ;
    }
}

/// Counts the cells that are not marked `skip`.
fn count_unskipped(cells: &Vec<CellData>) -> (res: u64)
    ensures
        res == unskipped(protocol::cell_views(cells@)),
{
    let ghost views = protocol::cell_views(cells@);
    let ghost keep = |cell: CellView| !cell.skip;
    let mut count: u64 = 0;
    for i in 0..cells.len()
        invariant
            views == protocol::cell_views(cells@),
            keep == |cell: CellView| !cell.skip,
            count == views.take(i as int).filter(keep).len(),
            count <= i,
    {
        proof {
            reveal_with_fuel(Seq::filter, 1);
            assert(views.take(i + 1).drop_last() =~= views.take(i as int));
            assert(views.take(i + 1).last() == cells@[i as int]@);
        }
        if !cells[i].skip {
            count += 1;
        }
    }
    assert(views.take(cells@.len() as int) =~= views);
    count
}

/// Counts what a blit of `frame` against `prev` scans and writes. `full` forces the
/// count of a full redraw.
pub fn compute_prof_blit_stats(frame: &FrameData, prev: Option<&FrameData>, full: bool) -> (res:
    ProfBlitStats)
    requires
        counts_as_diff(frame@, protocol::frame_option(prev), full) ==> {
            frame@.covers_grid() && protocol::frame_option(prev).unwrap().covers_grid()
        },
    ensures
        stats_match(res, frame@, protocol::frame_option(prev), full),
        res == blit_stats(frame@, protocol::frame_option(prev), full),
{
    if !full {
        if let Some(p) = prev {
            if p.width == frame.width && p.height == frame.height {
                let stats = diff_stats(frame, p);
                assert(stats_match(stats, frame@, protocol::frame_option(prev), full));
                return stats;
            }
        }
    }
    let changed_cells = count_unskipped(&frame.cells);
    let stats = ProfBlitStats {
        scanned_cells: frame.cells.len() as u64,
        changed_cells,
        changed_runs: changed_cells,
    };
    assert(stats_match(stats, frame@, protocol::frame_option(prev), full));
    stats
}

/// Counts what a diff scans and writes.
fn diff_stats(frame: &FrameData, prev: &FrameData) -> (res: ProfBlitStats)
    requires
        frame@.covers_grid(),
        prev@.covers_grid(),
        frame@.same_size(prev@),
    ensures
        stats_match(res, frame@, Some(prev@), false),
{
    let ghost view = frame@;
    let ghost prev_view = prev@;
    let sanitized_hyperlinks = sanitized_frame_hyperlinks(frame);
    let prev_sanitized_hyperlinks = sanitized_frame_hyperlinks(prev);
    let mut changed_cells: u64 = 0;
    let mut changed_runs: u64 = 0;
    for row in 0..frame.height
        invariant
            view == frame@,
            prev_view == prev@,
            view.covers_grid(),
            prev_view.covers_grid(),
            view.same_size(prev_view),
            hyperlink::text_options(sanitized_hyperlinks@) == hyperlink::sanitized_table(
                view.hyperlinks,
            ),
            hyperlink::text_options(prev_sanitized_hyperlinks@) == hyperlink::sanitized_table(
                prev_view.hyperlinks,
            ),
            changed_cells == render_ansi::diff_cells(view, prev_view, row as nat).len(),
            changed_runs == diff_runs(view, prev_view, row as nat),
    {
        let mut in_run = false;
        let mut invalidated: usize = 0;
        let mut to_skip: usize = 0;
        let ghost cells_above = changed_cells;
        let ghost runs_above = changed_runs;
        proof {
            lemma_diff_counts(view, prev_view, row as nat);
            protocol::lemma_grid_row(view.width as int, view.height as int, row as int);
            protocol::lemma_grid_bound(view.width, view.height);
        }
        for col in 0..frame.width
            invariant
                view == frame@,
                prev_view == prev@,
                view.covers_grid(),
                prev_view.covers_grid(),
                view.same_size(prev_view),
                hyperlink::text_options(sanitized_hyperlinks@) == hyperlink::sanitized_table(
                    view.hyperlinks,
                ),
                hyperlink::text_options(prev_sanitized_hyperlinks@) == hyperlink::sanitized_table(
                    prev_view.hyperlinks,
                ),
                row < frame.height,
                cells_above <= 0xffff_ffff,
                runs_above <= cells_above,
                changed_cells == cells_above + render_ansi::diff_row(
                    view,
                    prev_view,
                    row as int,
                    col as nat,
                ).len(),
                changed_runs == runs_above + row_runs(view, prev_view, row as int, col as nat),
                in_run == (col > 0 && render_ansi::diff_paints(
                    view,
                    prev_view,
                    row as int,
                    (col - 1) as nat,
                )),
                invalidated == render_ansi::disturbed(view, prev_view, row as int, col as nat),
                to_skip == render_ansi::reaching(view, row as int, col as nat),
        {
            let idx = cell_index(frame.width, frame.height, row, col);
            let cell = &frame.cells[idx];
            let prev_cell = &prev.cells[idx];
            assert(cell@ == view.at(row as int, col as int));
            assert(prev_cell@ == prev_view.at(row as int, col as int));
            proof {
                hyperlink::law_table_link_is_cell_link(view, cell@);
                hyperlink::law_table_link_is_cell_link(prev_view, prev_cell@);
                lemma_row_counts(view, prev_view, row as int, col as nat);
            }
            let changed = !cell.skip && (!cells_visually_equal(
                sanitized_hyperlinks.as_slice(),
                cell,
                prev_sanitized_hyperlinks.as_slice(),
                prev_cell,
            ) || invalidated > 0) && to_skip == 0;
            if changed {
                changed_cells += 1;
                if !in_run {
                    changed_runs += 1;
                    in_run = true;
                }
            } else {
                in_run = false;
            }
            to_skip = wider(to_skip, cell_width(cell)).saturating_sub(1);
            let affected_width = wider(cell_width(cell), cell_width(prev_cell));
            invalidated = wider(affected_width, invalidated).saturating_sub(1);
        }
    }
    ProfBlitStats { scanned_cells: frame.cells.len() as u64, changed_cells, changed_runs }
}

/// Bytes produced by a [`BlitEncoder`] for one frame.
#[derive(Debug)]
pub struct EncodedBlit {
    /// Escape bytes ready to be written to the terminal.
    pub bytes: Vec<u8>,
    /// Whether the frame was written whole.
    pub full: bool,
    /// Where a cursor was last visible once the bytes have been shown.
    pub next_last_visible_cursor: Option<(u16, u16)>,
    /// The cursor shape once the bytes have been shown.
    pub next_last_cursor_shape: u8,
}

/// The value of an [`EncodedBlit`].
#[verifier::ext_equal]
pub struct EncodedView {
    pub bytes: Seq<u8>,
    pub full: bool,
    pub next_last_visible_cursor: Option<(u16, u16)>,
    pub next_last_cursor_shape: u8,
}

impl View for EncodedBlit {
    type V = EncodedView;

    open spec fn view(&self) -> EncodedView {
        EncodedView {
            bytes: self.bytes@,
            full: self.full,
            next_last_visible_cursor: self.next_last_visible_cursor,
            next_last_cursor_shape: self.next_last_cursor_shape,
        }
    }
}

/// Diffs frames into terminal bytes. What the terminal shows is what was last
/// committed; encoding alone changes nothing.
#[derive(Debug)]
pub struct BlitEncoder {
    last_frame: Option<FrameData>,
    last_visible_cursor: Option<(u16, u16)>,
    last_cursor_shape: u8,
}

/// The value of a [`BlitEncoder`].
#[verifier::ext_equal]
pub struct EncoderView {
    pub last_frame: Option<FrameView>,
    pub last_visible_cursor: Option<(u16, u16)>,
    pub last_cursor_shape: u8,
}

impl View for BlitEncoder {
    type V = EncoderView;

    closed spec fn view(&self) -> EncoderView {
        EncoderView {
            last_frame: match self.last_frame {
                Some(f) => Some(f@),
                None => None,
            },
            last_visible_cursor: self.last_visible_cursor,
            last_cursor_shape: self.last_cursor_shape,
        }
    }
}

/// The state of an encoder that has committed nothing.
pub open spec fn fresh_encoder() -> EncoderView {
    EncoderView { last_frame: None, last_visible_cursor: None, last_cursor_shape: 0 }
}

/// The frame that the next one is diffed against.
pub open spec fn baseline(encoder: EncoderView, force_full: bool) -> Option<FrameView> {
    if force_full {
        None
    } else {
        encoder.last_frame
    }
}

/// What an encoder makes of a frame.
pub open spec fn encoded(
    encoder: EncoderView,
    frame: FrameView,
    force_full: bool,
    repeat_ime_anchor: bool,
) -> EncodedView {
    let prev = baseline(encoder, force_full);
    EncodedView {
        bytes: ops::ops_bytes(
            render_ansi::blit_ops(
                frame,
                prev,
                encoder.last_visible_cursor,
                encoder.last_cursor_shape,
                repeat_ime_anchor,
                false,
            ),
        ),
        full: render_ansi::full_redraw(frame, prev),
        next_last_visible_cursor: cursor::remembered(frame, encoder.last_visible_cursor),
        next_last_cursor_shape: cursor::host_cursor(frame, encoder.last_visible_cursor).shape,
    }
}

/// The state of an encoder after a frame and what it was encoded to were committed.
pub open spec fn committed(frame: FrameView, encoded: EncodedView) -> EncoderView {
    EncoderView {
        last_frame: Some(frame),
        last_visible_cursor: encoded.next_last_visible_cursor,
        last_cursor_shape: encoded.next_last_cursor_shape,
    }
}

/// The counters that encoding a frame adds to.
pub open spec fn encode_notes(stats: ProfBlitStats, blit: EncodedView) -> Seq<(Seq<char>, u64)> {
    seq![
        ("ansi_encode.bytes"@, blit.bytes.len() as u64),
        ("ansi_encode.scanned_cells"@, stats.scanned_cells),
        ("ansi_encode.changed_cells"@, stats.changed_cells),
        ("ansi_encode.changed_runs"@, stats.changed_runs),
        (
            if blit.full {
                "ansi_encode.full"@
            } else {
                "ansi_encode.partial"@
            },
            1,
        ),
    ]
}

impl Default for BlitEncoder {
    fn default() -> (res: Self)
        ensures
            res@ == fresh_encoder(),
    {
        BlitEncoder { last_frame: None, last_visible_cursor: None, last_cursor_shape: 0 }
    }
}

impl BlitEncoder {
    pub fn new() -> (res: Self)
        ensures
            res@ == fresh_encoder(),
    {
        BlitEncoder { last_frame: None, last_visible_cursor: None, last_cursor_shape: 0 }
    }

    /// Encodes a frame against the last committed one, or whole with `force_full`,
    /// under the anchor policy of the platform.
    pub fn encode(&self, frame: &FrameData, force_full: bool, windows: bool) -> (res: EncodedBlit)
        requires
            render_ansi::blit_ready(frame@, baseline(self@, force_full)),
        ensures
            res@ == encoded(self@, frame@, force_full, !windows),
            res@ == encoded(self@, frame@, force_full, render_ansi::repeats_anchor(windows)),
    {
        let mut unread: Vec<ProfNote> = Vec::new();
        let repeat = repeat_ime_anchor_after_sync(windows);
        self.encode_inner(frame, force_full, repeat, false, &mut unread)
    }

    /// Encodes a frame under a given anchor policy. With `profile`, appends to `notes`
    /// what the profile counts of it.
    pub fn encode_inner(
        &self,
        frame: &FrameData,
        force_full: bool,
        repeat_ime_anchor: bool,
        profile: bool,
        notes: &mut Vec<ProfNote>,
    ) -> (res: EncodedBlit)
        requires
            render_ansi::blit_ready(frame@, baseline(self@, force_full)),
        ensures
            res@ == encoded(self@, frame@, force_full, repeat_ime_anchor),
            !profile ==> final(notes)@ == old(notes)@,
            profile ==> render_prof::note_views(final(notes)@) == render_prof::note_views(
                old(notes)@,
            ) + encode_notes(
                blit_stats(frame@, baseline(self@, force_full), res@.full),
                res@,
            ),
    {
        let prev: Option<&FrameData> = if force_full {
            None
        } else {
            self.last_frame.as_ref()
        };
        assert(protocol::frame_option(prev) == baseline(self@, force_full));
        let full = match prev {
            Some(p) => p.width != frame.width || p.height != frame.height,
            None => true,
        };
        let mut bytes: Vec<u8> = Vec::new();
        let mut next_last_visible_cursor = self.last_visible_cursor;
        let mut next_last_cursor_shape = self.last_cursor_shape;
        blit_frame_to_with_cursor_memory_and_policy(
            &mut bytes,
            frame,
            prev,
            &mut next_last_visible_cursor,
            &mut next_last_cursor_shape,
            repeat_ime_anchor,
            false,
        );
        let res = EncodedBlit { bytes, full, next_last_visible_cursor, next_last_cursor_shape };
        assert(res@ =~= encoded(self@, frame@, force_full, repeat_ime_anchor));
        if profile {
            let ghost before = render_prof::note_views(notes@);
            let stats = compute_prof_blit_stats(frame, prev, full);
            note(notes, "ansi_encode.bytes", res.bytes.len() as u64);
            note(notes, "ansi_encode.scanned_cells", stats.scanned_cells);
            note(notes, "ansi_encode.changed_cells", stats.changed_cells);
            note(notes, "ansi_encode.changed_runs", stats.changed_runs);
            if full {
                note(notes, "ansi_encode.full", 1);
            } else {
                note(notes, "ansi_encode.partial", 1);
            }
            assert(stats == blit_stats(frame@, baseline(self@, force_full), res@.full));
            assert(render_prof::note_views(notes@) =~= before + encode_notes(stats, res@));
        }
        res
    }

    /// Records that a frame has been sent as `encoded`.
    pub fn commit(&mut self, frame: FrameData, encoded: EncodedBlit)
        ensures
            final(self)@ == committed(frame@, encoded@),
    {
        self.last_visible_cursor = encoded.next_last_visible_cursor;
        self.last_cursor_shape = encoded.next_last_cursor_shape;
        self.last_frame = Some(frame);
    }

    /// Whether `frame` is the one that was last committed.
    pub fn is_current(&self, frame: &FrameData) -> (res: bool)
        ensures
            res == (self@.last_frame == Some(frame@)),
    {
        match &self.last_frame {
            Some(last) => *last == *frame,
            None => false,
        }
    }

    /// The frame that was last committed.
    pub fn last_frame(&self) -> (res: Option<&FrameData>)
        ensures
            protocol::frame_option(res) == self@.last_frame,
    {
        self.last_frame.as_ref()
    }
}

// ---------------------------------------------------------------------------
// Laws
// ---------------------------------------------------------------------------

/// A frame is written whole exactly if that is forced, if nothing was committed, or if
/// the committed frame has another width or height. It is then that the screen is
/// cleared.
pub proof fn law_whole_frame_clears_screen(
    encoder: EncoderView,
    frame: FrameView,
    force_full: bool,
    repeat: bool,
)
    ensures
        encoded(encoder, frame, force_full, repeat).full <==> force_full || (
        encoder.last_frame matches Some(last) ==> last.width != frame.width || last.height
            != frame.height),
        encoded(encoder, frame, force_full, repeat).full <==> exists|i: int|
            0 <= i < render_ansi::body_ops(frame, baseline(encoder, force_full)).len() && (
            #[trigger] render_ansi::body_ops(frame, baseline(encoder, force_full))[i])
                is ClearScreen,
{
    let prev = baseline(encoder, force_full);
    let ops = render_ansi::body_ops(frame, prev);
    if render_ansi::full_redraw(frame, prev) {
        assert(ops[0] is ClearScreen);
    } else {
        let cells = render_ansi::diff_cells(frame, prev.unwrap(), frame.height as nat);
        lemma_painting_clears_nothing(frame, cells, true);
    }
}

proof fn lemma_painting_clears_nothing(frame: FrameView, cells: Seq<(int, int)>, dedup: bool)
    ensures
        forall|i: int|
            0 <= i < render_ansi::paint_ops(frame, cells, dedup).len() ==> !((
            #[trigger] render_ansi::paint_ops(frame, cells, dedup)[i]) is ClearScreen),
    decreases cells.len(),
{
    if cells.len() > 0 {
        lemma_painting_clears_nothing(frame, cells.drop_last(), dedup);
    }
}

/// A frame that is forced whole does not depend on what was committed.
pub proof fn law_forced_frame_ignores_committed(
    encoder: EncoderView,
    other: EncoderView,
    frame: FrameView,
    repeat: bool,
)
    requires
        encoder.last_visible_cursor == other.last_visible_cursor,
        encoder.last_cursor_shape == other.last_cursor_shape,
    ensures
        encoded(encoder, frame, true, repeat) == encoded(other, frame, true, repeat),
{
}

/// What is committed is the frame, and what the terminal was told of the cursor: where a
/// cursor was last visible, and its shape.
pub proof fn law_commit_remembers_what_was_sent(
    encoder: EncoderView,
    frame: FrameView,
    force_full: bool,
    repeat: bool,
)
    ensures
        ({
            let next = committed(frame, encoded(encoder, frame, force_full, repeat));
            &&& next.last_frame == Some(frame)
            &&& frame.cursor matches Some(cursor) ==> {
                &&& cursor.visible && cursor.x < frame.width && cursor.y < frame.height
                    ==> next.last_visible_cursor == Some((cursor.x, cursor.y))
                &&& !cursor.visible ==> next.last_visible_cursor == encoder.last_visible_cursor
                &&& cursor.shape <= 6 ==> next.last_cursor_shape == cursor.shape
                &&& cursor.shape > 6 ==> next.last_cursor_shape == 0
            }
            &&& frame.cursor is None ==> next.last_visible_cursor == encoder.last_visible_cursor
                && next.last_cursor_shape == 0
        }),
{
}

/// The next frame is diffed against the one that was committed, unless it is forced
/// whole.
pub proof fn law_committed_frame_is_baseline(
    encoder: EncoderView,
    frame: FrameView,
    repeat: bool,
)
    ensures
        baseline(committed(frame, encoded(encoder, frame, false, repeat)), false) == Some(frame),
        baseline(committed(frame, encoded(encoder, frame, false, repeat)), true) is None,
{
}

/// The cells that are not marked `skip` are counted one by one.
pub proof fn law_unskipped_counts_one_by_one(a: Seq<CellView>, b: Seq<CellView>)
    ensures
        unskipped(a + b) == unskipped(a) + unskipped(b),
        forall|cell: CellView| #[trigger]
            unskipped(seq![cell]) == if cell.skip {
                0nat
            } else {
                1nat
            },
        unskipped(Seq::empty()) == 0,
{
    let keep = |cell: CellView| !cell.skip;
    Seq::filter_distributes_over_add(a, b, keep);
    reveal_with_fuel(Seq::filter, 2);
    assert forall|cell: CellView| #[trigger] unskipped(seq![cell]) == if cell.skip {
        0nat
    } else {
        1nat
    } by {
        assert(seq![cell].drop_last() =~= Seq::empty());
    }
}

/// The statistics of a diff count the cells that it paints, and a run for each of them
/// whose left neighbour it does not paint.
pub proof fn law_runs_start_where_left_is_not_painted(
    frame: FrameView,
    prev: FrameView,
    row: int,
    col: nat,
)
    requires
        0 <= row < frame.height,
        col < frame.width,
    ensures
        ({
            let cells = render_ansi::diff_cells(frame, prev, frame.height as nat);
            let starts = cells.contains((row, col as int)) && !cells.contains((row, col - 1));
            &&& row_runs(frame, prev, row, 0) == 0
            &&& row_runs(frame, prev, row, col + 1) - row_runs(frame, prev, row, col) == if starts {
                1int
            } else {
                0int
            }
            &&& diff_runs(frame, prev, 0) == 0
            &&& diff_runs(frame, prev, (row + 1) as nat) - diff_runs(frame, prev, row as nat)
                == row_runs(frame, prev, row, frame.width as nat)
        }),
{
    render_ansi::law_diff_paints_changed_cells(frame, prev, row, col as int);
    render_ansi::law_diff_paints_changed_cells(frame, prev, row, col - 1);
}

/// The statistics: every cell is looked at. A diff writes the cells that it paints, each
/// of which is one text of its instructions. A frame that is written whole counts the
/// cells that are not marked `skip`.
pub proof fn law_statistics_count_cells(
    stats: ProfBlitStats,
    frame: FrameView,
    prev: Option<FrameView>,
)
    requires
        stats_match(stats, frame, prev, render_ansi::full_redraw(frame, prev)),
    ensures
        stats.scanned_cells == frame.cells.len(),
        prev matches Some(p) ==> (p.width == frame.width && p.height == frame.height ==> {
            &&& stats.changed_cells == render_ansi::body_ops(frame, prev).filter(
                |op: ops::Op| op is Text,
            ).len()
            &&& stats.changed_runs == diff_runs(frame, p, frame.height as nat)
        }),
        (prev matches Some(p) ==> p.width != frame.width || p.height != frame.height) ==> {
            &&& stats.changed_cells == unskipped(frame.cells)
            &&& stats.changed_runs == unskipped(frame.cells)
        },
{
    if let Some(p) = prev {
        if p.width == frame.width && p.height == frame.height {
            let text = |op: ops::Op| op is Text;
            let cells = render_ansi::diff_cells(frame, p, frame.height as nat);
            let paint = render_ansi::paint_ops(frame, cells, true);
            let close = render_ansi::link_change(render_ansi::link_after(frame, cells), None);
            let reset = if cells.len() > 0 {
                seq![ops::Op::ResetStyle]
            } else {
                Seq::empty()
            };
            lemma_texts_painted(frame, cells, true);
            Seq::filter_distributes_over_add(paint, close, text);
            Seq::filter_distributes_over_add(paint + close, reset, text);
            lemma_no_text(close);
            lemma_no_text(reset);
        }
    }
}

proof fn lemma_no_text(ops: Seq<ops::Op>)
    requires
        forall|i: int| 0 <= i < ops.len() ==> !((#[trigger] ops[i]) is Text),
    ensures
        ops.filter(|op: ops::Op| op is Text).len() == 0,
    decreases ops.len(),
{
    reveal_with_fuel(Seq::filter, 1);
    if ops.len() > 0 {
        lemma_no_text(ops.drop_last());
        assert(!(ops[ops.len() - 1] is Text));
    }
}

/// The instructions of one cell hold one text.
proof fn lemma_texts_of_cell(
    frame: FrameView,
    row: int,
    col: int,
    cell: CellView,
    style: Option<render_ansi::Style>,
    link: Option<Seq<char>>,
)
    ensures
        render_ansi::cell_ops(frame, row, col, cell, style, link).filter(
            |op: ops::Op| op is Text,
        ).len() == 1,
{
    let text = |op: ops::Op| op is Text;
    let head = seq![ops::Op::MoveTo { x: col as u16, y: row as u16 }] + render_ansi::style_change(
        style,
        render_ansi::style_of(cell),
    ) + render_ansi::link_change(link, hyperlink::cell_link(frame, cell));
    let last = seq![ops::Op::Text(cell.symbol)];
    assert(render_ansi::cell_ops(frame, row, col, cell, style, link) == head + last);
    lemma_no_text(head);
    Seq::filter_distributes_over_add(head, last, text);
    assert(last.filter(text).len() == 1) by {
        assert(last.drop_last() =~= Seq::empty());
        reveal_with_fuel(Seq::filter, 2);
    }
}

proof fn lemma_texts_painted(frame: FrameView, cells: Seq<(int, int)>, dedup: bool)
    ensures
        render_ansi::paint_ops(frame, cells, dedup).filter(|op: ops::Op| op is Text).len()
            == cells.len(),
    decreases cells.len(),
{
    let text = |op: ops::Op| op is Text;
    if cells.len() > 0 {
        let before = cells.drop_last();
        let (row, col) = cells.last();
        lemma_texts_painted(frame, before, dedup);
        let cell = frame.at(row, col);
        let style = if dedup {
            render_ansi::style_after(frame, before)
        } else {
            None
        };
        let link = render_ansi::link_after(frame, before);
        lemma_texts_of_cell(frame, row, col, cell, style, link);
        Seq::filter_distributes_over_add(
            render_ansi::paint_ops(frame, before, dedup),
            render_ansi::cell_ops(frame, row, col, cell, style, link),
            text,
        );
    } else {
        lemma_no_text(render_ansi::paint_ops(frame, cells, dedup));
    }
}

/// What is counted of an encoded frame: its bytes, the cells that were looked at and
/// written, the runs of them, and whether the screen is cleared, each under its name.
pub proof fn law_encode_notes_count_statistics(stats: ProfBlitStats, blit: EncodedView)
    ensures
        ({
            let notes = encode_notes(stats, blit);
            &&& notes.len() == 5
            &&& notes[0].0 == "ansi_encode.bytes"@
            &&& blit.bytes.len() <= u64::MAX ==> notes[0].1 == blit.bytes.len()
            &&& notes[1] == ("ansi_encode.scanned_cells"@, stats.scanned_cells)
            &&& notes[2] == ("ansi_encode.changed_cells"@, stats.changed_cells)
            &&& notes[3] == ("ansi_encode.changed_runs"@, stats.changed_runs)
            &&& blit.full ==> notes[4] == ("ansi_encode.full"@, 1u64)
            &&& !blit.full ==> notes[4] == ("ansi_encode.partial"@, 1u64)
        }),
{
}

} // verus!
