//! Frame types shared by the renderer and its clients, and row diffs.
//!
//! A frame is a grid of cells in row-major order together with the cursor, the
//! table of hyperlink targets that cells point into, and a blob of graphics
//! bytes. Each type has a mathematical value (`@`) in which strings are
//! sequences of characters; contracts speak of those values only.

use vstd::prelude::*;

verus! {

/// Where a frame wants the host cursor, and how it looks.
#[derive(Clone, Copy, Debug, PartialEq, Eq, Structural)]
pub struct CursorState {
    pub x: u16,
    pub y: u16,
    pub visible: bool,
    /// DECSCUSR parameter; 0 is the terminal's default.
    pub shape: u8,
}

/// One cell of a frame.
///
/// Colors are packed: the top byte selects named (0), indexed (1) or RGB (2).
#[derive(Debug)]
pub struct CellData {
    pub symbol: String,
    pub fg: u32,
    pub bg: u32,
    pub modifier: u16,
    /// Cells marked `skip` are never painted.
    pub skip: bool,
    /// Index into the frame's table of hyperlink targets.
    pub hyperlink: Option<u32>,
}

/// The value of a [`CellData`].
#[verifier::ext_equal]
pub struct CellView {
    pub symbol: Seq<char>,
    pub fg: u32,
    pub bg: u32,
    pub modifier: u16,
    pub skip: bool,
    pub hyperlink: Option<u32>,
}

impl View for CellData {
    type V = CellView;

    open spec fn view(&self) -> CellView {
        CellView {
            symbol: self.symbol@,
            fg: self.fg,
            bg: self.bg,
            modifier: self.modifier,
            skip: self.skip,
            hyperlink: self.hyperlink,
        }
    }
}

impl Clone for CellData {
    fn clone(&self) -> (res: Self)
        ensures
            res@ == self@,
    {
        CellData {
            symbol: self.symbol.clone(),
            fg: self.fg,
            bg: self.bg,
            modifier: self.modifier,
            skip: self.skip,
            hyperlink: self.hyperlink,
        }
    }
}

impl vstd::std_specs::cmp::PartialEqSpecImpl for CellData {
    open spec fn obeys_eq_spec() -> bool {
        true
    }

    open spec fn eq_spec(&self, other: &CellData) -> bool {
        self@ == other@
    }
}

impl PartialEq for CellData {
    fn eq(&self, other: &CellData) -> (res: bool) {
        self.symbol == other.symbol && self.fg == other.fg && self.bg == other.bg && self.modifier
            == other.modifier && self.skip == other.skip && self.hyperlink == other.hyperlink
    }
}

impl Eq for CellData {

}

/// The values of a sequence of cells.
pub open spec fn cell_views(cells: Seq<CellData>) -> Seq<CellView> {
    Seq::new(cells.len(), |i: int| cells[i]@)
}

/// The values of a sequence of strings.
pub open spec fn string_views(strings: Seq<String>) -> Seq<Seq<char>> {
    Seq::new(strings.len(), |i: int| strings[i]@)
}

/// A complete frame.
#[derive(Debug)]
pub struct FrameData {
    /// Cells in row-major order.
    pub cells: Vec<CellData>,
    pub width: u16,
    pub height: u16,
    pub cursor: Option<CursorState>,
    pub hyperlinks: Vec<String>,
    pub graphics: Vec<u8>,
}

/// The value of a [`FrameData`].
#[verifier::ext_equal]
pub struct FrameView {
    pub cells: Seq<CellView>,
    pub width: u16,
    pub height: u16,
    pub cursor: Option<CursorState>,
    pub hyperlinks: Seq<Seq<char>>,
    pub graphics: Seq<u8>,
}

impl View for FrameData {
    type V = FrameView;

    open spec fn view(&self) -> FrameView {
        FrameView {
            cells: cell_views(self.cells@),
            width: self.width,
            height: self.height,
            cursor: self.cursor,
            hyperlinks: string_views(self.hyperlinks@),
            graphics: self.graphics@,
        }
    }
}

/// The value of an optional frame.
pub open spec fn frame_option(frame: Option<&FrameData>) -> Option<FrameView> {
    match frame {
        Some(f) => Some(f@),
        None => None,
    }
}

impl FrameView {
    /// The number of cells in the grid that `width` and `height` span.
    pub open spec fn grid_len(self) -> int {
        self.width * self.height
    }

    /// There is a cell for every position of the grid.
    pub open spec fn covers_grid(self) -> bool {
        self.grid_len() <= self.cells.len()
    }

    /// There is a cell for every position of the grid, and no other.
    pub open spec fn is_grid(self) -> bool {
        self.grid_len() == self.cells.len()
    }

    pub open spec fn same_size(self, other: FrameView) -> bool {
        self.width == other.width && self.height == other.height
    }

    /// The cell at a position of the grid.
    pub open spec fn at(self, row: int, col: int) -> CellView {
        self.cells[row * self.width + col]
    }

    /// The cells of row `y`, or as many of them as the frame holds.
    pub open spec fn row(self, y: int) -> Seq<CellView> {
        clipped(self.cells, y * self.width, y * self.width + self.width)
    }
}

/// A position of the grid has an index inside it.
pub proof fn lemma_grid_index(width: int, height: int, row: int, col: int)
    requires
        0 <= row < height,
        0 <= col < width,
    ensures
        0 <= row * width + col < width * height,
        row * width + width <= width * height,
        0 <= row * width,
{
    assert(0 <= row * width + col < width * height && row * width + width <= width * height && 0
        <= row * width) by (nonlinear_arith)
        requires
            0 <= row < height,
            0 <= col < width,
    ;
}

/// A row of the grid lies inside it.
pub proof fn lemma_grid_row(width: int, height: int, row: int)
    requires
        0 <= width,
        0 <= row < height,
    ensures
        0 <= row * width <= width * height - width,
{
    assert(0 <= row * width <= width * height - width) by (nonlinear_arith)
        requires
            0 <= width,
            0 <= row < height,
    ;
}

/// Grid sizes fit in 32 bits.
pub proof fn lemma_grid_bound(width: u16, height: u16)
    ensures
        0 <= width * height <= 0xfffe_0001,
{
    assert(0 <= width * height <= 0xfffe_0001) by (nonlinear_arith)
        requires
            0 <= width <= 0xffff,
            0 <= height <= 0xffff,
    ;
}

/// The index of the cell at (`row`, `col`) in a grid `width` cells wide.
pub fn cell_index(width: u16, height: u16, row: u16, col: u16) -> (idx: usize)
    requires
        row < height,
        col < width,
    ensures
        idx == row * width + col,
        idx < width * height,
{
    proof {
        lemma_grid_index(width as int, height as int, row as int, col as int);
        lemma_grid_bound(width, height);
    }
    (row as usize) * (width as usize) + (col as usize)
}

/// Whether two lists of cells hold the same values.
pub(crate) fn same_cells(a: &Vec<CellData>, b: &Vec<CellData>) -> (res: bool)
    ensures
        res == (cell_views(a@) == cell_views(b@)),
{
    if a.len() != b.len() {
        assert(cell_views(a@).len() != cell_views(b@).len());
        return false;
    }
    for i in 0..a.len()
        invariant
            a@.len() == b@.len(),
            forall|j: int| 0 <= j < i ==> a@[j]@ == b@[j]@,
    {
        if a[i] != b[i] {
            assert(cell_views(a@)[i as int] != cell_views(b@)[i as int]);
            return false;
        }
    }
    assert(cell_views(a@) =~= cell_views(b@));
    true
}

/// Whether two lists of strings hold the same strings.
pub(crate) fn same_strings(a: &Vec<String>, b: &Vec<String>) -> (res: bool)
    ensures
        res == (string_views(a@) == string_views(b@)),
{
    if a.len() != b.len() {
        assert(string_views(a@).len() != string_views(b@).len());
        return false;
    }
    for i in 0..a.len()
        invariant
            a@.len() == b@.len(),
            forall|j: int| 0 <= j < i ==> a@[j]@ == b@[j]@,
    {
        if a[i] != b[i] {
            assert(string_views(a@)[i as int] != string_views(b@)[i as int]);
            return false;
        }
    }
    assert(string_views(a@) =~= string_views(b@));
    true
}

/// Whether two byte strings are equal.
pub(crate) fn same_bytes(a: &[u8], b: &[u8]) -> (res: bool)
    ensures
        res == (a@ == b@),
{
    if a.len() != b.len() {
        return false;
    }
    for i in 0..a.len()
        invariant
            a@.len() == b@.len(),
            forall|j: int| 0 <= j < i ==> a@[j] == b@[j],
    {
        if a[i] != b[i] {
            return false;
        }
    }
    assert(a@ =~= b@);
    true
}

impl Clone for FrameData {
    fn clone(&self) -> (res: Self)
        ensures
            res@ == self@,
    {
        let res = FrameData {
            cells: self.cells.clone(),
            width: self.width,
            height: self.height,
            cursor: self.cursor,
            hyperlinks: self.hyperlinks.clone(),
            graphics: self.graphics.clone(),
        };
        assert(res@ =~= self@);
        res
    }
}

impl vstd::std_specs::cmp::PartialEqSpecImpl for FrameData {
    open spec fn obeys_eq_spec() -> bool {
        true
    }

    open spec fn eq_spec(&self, other: &FrameData) -> bool {
        self@ == other@
    }
}

impl PartialEq for FrameData {
    fn eq(&self, other: &FrameData) -> (res: bool) {
        self.width == other.width && self.height == other.height && self.cursor == other.cursor
            && same_cells(&self.cells, &other.cells) && same_strings(
            &self.hyperlinks,
            &other.hyperlinks,
        ) && same_bytes(self.graphics.as_slice(), other.graphics.as_slice())
    }
}

impl Eq for FrameData {

}

/// The changes that turn one frame into another of the same size: whole rows of
/// cells, and everything that is not a cell.
#[derive(Clone, Debug)]
pub struct FrameDiffData {
    pub width: u16,
    pub height: u16,
    pub cursor: Option<CursorState>,
    /// Row index and the cells of that row.
    pub rows: Vec<(u16, Vec<CellData>)>,
    pub hyperlinks: Vec<String>,
    pub graphics: Vec<u8>,
}

/// The value of a [`FrameDiffData`].
#[verifier::ext_equal]
pub struct FrameDiffView {
    pub width: u16,
    pub height: u16,
    pub cursor: Option<CursorState>,
    pub rows: Seq<(u16, Seq<CellView>)>,
    pub hyperlinks: Seq<Seq<char>>,
    pub graphics: Seq<u8>,
}

/// The values of the rows of a diff.
pub open spec fn row_views(rows: Seq<(u16, Vec<CellData>)>) -> Seq<(u16, Seq<CellView>)> {
    Seq::new(rows.len(), |i: int| (rows[i].0, cell_views(rows[i].1@)))
}

impl View for FrameDiffData {
    type V = FrameDiffView;

    open spec fn view(&self) -> FrameDiffView {
        FrameDiffView {
            width: self.width,
            height: self.height,
            cursor: self.cursor,
            rows: row_views(self.rows@),
            hyperlinks: string_views(self.hyperlinks@),
            graphics: self.graphics@,
        }
    }
}

/// The rows below `n` in which two frames differ, with the cells of the newer one.
pub open spec fn changed_rows(next: FrameView, prev: FrameView, n: nat) -> Seq<
    (u16, Seq<CellView>),
>
    decreases n,
{
    if n == 0 {
        Seq::empty()
    } else {
        let y = (n - 1) as nat;
        let above = changed_rows(next, prev, y);
        if next.row(y as int) == prev.row(y as int) {
            above
        } else {
            above.push((y as u16, next.row(y as int)))
        }
    }
}

/// The diff from `prev` to `next`; there is one only between frames of one size.
pub open spec fn frame_diff(next: FrameView, prev: FrameView) -> Option<FrameDiffView> {
    if next.same_size(prev) {
        Some(
            FrameDiffView {
                width: next.width,
                height: next.height,
                cursor: next.cursor,
                rows: changed_rows(next, prev, next.height as nat),
                hyperlinks: next.hyperlinks,
                graphics: next.graphics,
            },
        )
    } else {
        None
    }
}

/// Whether a diff fits a frame: one size, a cell for every position, and each of
/// the diff's rows a complete row of that size.
pub open spec fn diff_fits(base: FrameView, diff: FrameDiffView) -> bool {
    &&& base.width == diff.width
    &&& base.height == diff.height
    &&& base.covers_grid()
    &&& forall|i: int|
        0 <= i < diff.rows.len() ==> (#[trigger] diff.rows[i]).0 < base.height
            && diff.rows[i].1.len() == base.width
}

/// `cells` with `run` written over them from index `start` on.
pub open spec fn overwrite(cells: Seq<CellView>, start: int, run: Seq<CellView>) -> Seq<CellView> {
    Seq::new(
        cells.len(),
        |i: int|
            if start <= i < start + run.len() {
                run[i - start]
            } else {
                cells[i]
            },
    )
}

/// `cells` after each of `rows` was written over them in turn.
pub open spec fn overwrite_rows(
    cells: Seq<CellView>,
    width: u16,
    rows: Seq<(u16, Seq<CellView>)>,
) -> Seq<CellView>
    decreases rows.len(),
{
    if rows.len() == 0 {
        cells
    } else {
        overwrite(
            overwrite_rows(cells, width, rows.drop_last()),
            rows.last().0 * width,
            rows.last().1,
        )
    }
}

/// The frame that a diff turns `base` into.
pub open spec fn patched(base: FrameView, diff: FrameDiffView) -> FrameView {
    FrameView {
        cells: overwrite_rows(base.cells, base.width, diff.rows),
        width: base.width,
        height: base.height,
        cursor: diff.cursor,
        hyperlinks: diff.hyperlinks,
        graphics: diff.graphics,
    }
}

/// A copy of the cells from `start` to `end`.
fn copy_cells(cells: &Vec<CellData>, start: usize, end: usize) -> (res: Vec<CellData>)
    requires
        start <= end <= cells@.len(),
    ensures
        cell_views(res@) == cell_views(cells@).subrange(start as int, end as int),
{
    let mut res: Vec<CellData> = Vec::new();
    for i in start..end
        invariant
            start <= i <= end <= cells@.len(),
            res@.len() == i - start,
            forall|j: int| 0 <= j < res@.len() ==> (#[trigger] res@[j])@ == cells@[start + j]@,
    {
        res.push(cells[i].clone());
    }
    assert(cell_views(res@) =~= cell_views(cells@).subrange(start as int, end as int));
    res
}

/// Whether two lists of cells agree on each index from `start` to `end` that they hold.
fn same_run(a: &Vec<CellData>, b: &Vec<CellData>, start: usize, end: usize) -> (res: bool)
    requires
        start <= end,
    ensures
        res == (clipped(cell_views(a@), start as int, end as int) == clipped(
            cell_views(b@),
            start as int,
            end as int,
        )),
{
    let a_end: usize = if end < a.len() { end } else { a.len() };
    let b_end: usize = if end < b.len() { end } else { b.len() };
    let ghost a_run = clipped(cell_views(a@), start as int, end as int);
    let ghost b_run = clipped(cell_views(b@), start as int, end as int);
    if a_end != b_end && (start < a_end || start < b_end) {
        assert(a_run.len() != b_run.len());
        return false;
    }
    let mut i: usize = start;
    while i < a_end && i < b_end
        invariant
            start <= i,
            a_end <= a@.len(),
            b_end <= b@.len(),
            a_end <= end,
            b_end <= end,
            a_end == if end < a@.len() { end as int } else { a@.len() as int },
            b_end == if end < b@.len() { end as int } else { b@.len() as int },
            a_run == clipped(cell_views(a@), start as int, end as int),
            b_run == clipped(cell_views(b@), start as int, end as int),
            forall|j: int| start <= j < i && j < a_end && j < b_end ==> a@[j]@ == b@[j]@,
        decreases a_end - i,
    {
        if a[i] != b[i] {
            assert(a_run[i - start] != b_run[i - start]);
            return false;
        }
        i += 1;
    }
    assert(a_run =~= b_run);
    true
}

/// The part of `cells` from `start` to `end` that exists.
pub open spec fn clipped(cells: Seq<CellView>, start: int, end: int) -> Seq<CellView> {
    let len = cells.len() as int;
    cells.subrange(if start < len { start } else { len }, if end < len { end } else { len })
}

impl FrameData {
    /// The diff that turns `prev` into this frame, or `None` if their sizes differ.
    pub fn diff_from(&self, prev: &FrameData) -> (res: Option<FrameDiffData>)
        ensures
            match res {
                Some(diff) => frame_diff(self@, prev@) == Some(diff@),
                None => frame_diff(self@, prev@) is None,
            },
    {
        if self.width != prev.width || self.height != prev.height {
            return None;
        }
        let mut rows: Vec<(u16, Vec<CellData>)> = Vec::new();
        for y in 0..self.height
            invariant
                self.width == prev.width,
                self.height == prev.height,
                row_views(rows@) == changed_rows(self@, prev@, y as nat),
        {
            proof {
                lemma_grid_row(self.width as int, self.height as int, y as int);
                lemma_grid_bound(self.width, self.height);
            }
            let start: usize = (y as usize) * (self.width as usize);
            let end: usize = start + self.width as usize;
            assert(self@.row(y as int) == clipped(self@.cells, start as int, end as int));
            if !same_run(&self.cells, &prev.cells, start, end) {
                let from: usize = if start < self.cells.len() { start } else { self.cells.len() };
                let to: usize = if end < self.cells.len() { end } else { self.cells.len() };
                let ghost before = row_views(rows@);
                let copy = copy_cells(&self.cells, from, to);
                rows.push((y, copy));
                assert(row_views(rows@) =~= before.push((y, self@.row(y as int))));
            }
        }
        let diff = FrameDiffData {
            width: self.width,
            height: self.height,
            cursor: self.cursor,
            rows,
            hyperlinks: self.hyperlinks.clone(),
            graphics: self.graphics.clone(),
        };
        assert(diff@.hyperlinks =~= self@.hyperlinks);
        assert(diff@.graphics =~= self@.graphics);
        Some(diff)
    }

    /// Applies a diff in place. A diff that does not fit is rejected and leaves the
    /// frame as it was.
    pub fn apply_diff(&mut self, diff: &FrameDiffData) -> (applied: bool)
        ensures
            applied == diff_fits(old(self)@, diff@),
            final(self)@ == if applied {
                patched(old(self)@, diff@)
            } else {
                old(self)@
            },
    {
        let ghost base = self@;
        proof {
            lemma_grid_bound(self.width, self.height);
        }
        let grid: usize = (self.width as usize) * (self.height as usize);
        if self.width != diff.width || self.height != diff.height || self.cells.len() < grid {
            return false;
        }
        for i in 0..diff.rows.len()
            invariant
                self@ == base,
                forall|j: int|
                    0 <= j < i ==> (#[trigger] diff@.rows[j]).0 < self.height
                        && diff@.rows[j].1.len() == self.width,
        {
            assert(diff@.rows[i as int] == (diff.rows@[i as int].0, cell_views(
                diff.rows@[i as int].1@,
            )));
            if diff.rows[i].0 >= self.height || diff.rows[i].1.len() != self.width as usize {
                return false;
            }
        }
        let width: u16 = self.width;
        for i in 0..diff.rows.len()
            invariant
                width == self.width,
                diff_fits(base, diff@),
                self.width == base.width,
                self.height == base.height,
                cell_views(self.cells@) == overwrite_rows(
                    base.cells,
                    base.width,
                    diff@.rows.take(i as int),
                ),
                self@.hyperlinks == base.hyperlinks,
                self.graphics@ == base.graphics,
                self.cells@.len() == base.cells.len(),
        {
            let ghost before = cell_views(self.cells@);
            let ghost run = cell_views(diff.rows@[i as int].1@);
            let y: u16 = diff.rows[i].0;
            assert(diff@.rows[i as int] == (y, run));
            proof {
                lemma_grid_bound(self.width, self.height);
                lemma_grid_row(self.width as int, self.height as int, y as int);
            }
            let start: usize = (y as usize) * (self.width as usize);
            for k in 0..width
                invariant
                    width == self.width,
                    i < diff.rows@.len(),
                    self.width == base.width,
                    self.height == base.height,
                    run == cell_views(diff.rows@[i as int].1@),
                    run.len() == self.width,
                    start + self.width <= self.cells@.len(),
                    start + self.width <= usize::MAX,
                    before.len() == self.cells@.len(),
                    cell_views(self.cells@) =~= overwrite(
                        before,
                        start as int,
                        run.take(k as int),
                    ),
                    self@.hyperlinks == base.hyperlinks,
                    self.graphics@ == base.graphics,
                    self.cells@.len() == base.cells.len(),
            {
                let ghost partial = cell_views(self.cells@);
                let cell = diff.rows[i].1[k as usize].clone();
                assert(cell@ == run[k as int]);
                self.cells[start + k as usize] = cell;
                assert(cell_views(self.cells@) =~= partial.update(start + k, run[k as int]));
            }
            assert(run.take(run.len() as int) =~= run);
            assert(diff@.rows.take(i + 1).drop_last() =~= diff@.rows.take(i as int));
        }
        assert(diff@.rows.take(diff@.rows.len() as int) =~= diff@.rows);
        self.cursor = diff.cursor;
        self.hyperlinks = diff.hyperlinks.clone();
        self.graphics = diff.graphics.clone();
        assert(self@.hyperlinks =~= diff@.hyperlinks);
        assert(self@.graphics =~= diff@.graphics);
        true
    }
}

/// The rows below `n` in which two frames differ, in the order of the grid: each
/// entry is the newer frame's row where the two differ, no row comes twice, and
/// each row in which they differ is there.
pub proof fn lemma_changed_rows(next: FrameView, prev: FrameView, n: nat)
    requires
        n <= u16::MAX,
    ensures
        forall|i: int|
            0 <= i < changed_rows(next, prev, n).len() ==> {
                let (y, cells) = #[trigger] changed_rows(next, prev, n)[i];
                y < n && cells == next.row(y as int) && cells != prev.row(y as int)
            },
        forall|i: int, j: int|
            0 <= i < j < changed_rows(next, prev, n).len() ==> (#[trigger] changed_rows(
                next,
                prev,
                n,
            )[i]).0 < (#[trigger] changed_rows(next, prev, n)[j]).0,
        forall|y: u16|
            y < n && #[trigger] next.row(y as int) != prev.row(y as int) ==> changed_rows(
                next,
                prev,
                n,
            ).contains((y, next.row(y as int))),
    decreases n,
{
    if n > 0 {
        let above = changed_rows(next, prev, (n - 1) as nat);
        let rows = changed_rows(next, prev, n);
        lemma_changed_rows(next, prev, (n - 1) as nat);
        assert forall|y: u16|
            y < n && #[trigger] next.row(y as int) != prev.row(y as int) implies rows.contains(
            (y, next.row(y as int)),
        ) by {
            if y == n - 1 {
                assert(rows[rows.len() - 1] == (y, next.row(y as int)));
            } else {
                let i = choose|i: int|
                    0 <= i < above.len() && above[i] == (y, next.row(y as int));
                assert(rows[i] == (y, next.row(y as int)));
            }
        }
    }
}

/// A diff carries exactly the rows in which the two frames differ, in the order of
/// the grid, and the cells of the newer frame for each.
pub proof fn law_diff_carries_only_changed_rows(next: FrameView, prev: FrameView)
    requires
        next.same_size(prev),
    ensures
        frame_diff(next, prev) is Some,
        ({
            let rows = frame_diff(next, prev).unwrap().rows;
            &&& forall|i: int|
                0 <= i < rows.len() ==> {
                    let (y, cells) = #[trigger] rows[i];
                    y < next.height && cells == next.row(y as int) && cells != prev.row(y as int)
                }
            &&& forall|i: int, j: int|
                0 <= i < j < rows.len() ==> (#[trigger] rows[i]).0 < (#[trigger] rows[j]).0
            &&& forall|y: u16|
                y < next.height && #[trigger] next.row(y as int) != prev.row(y as int)
                    ==> rows.contains((y, next.row(y as int)))
        }),
{
    lemma_changed_rows(next, prev, next.height as nat);
}

proof fn lemma_overwrite_changed_rows(next: FrameView, prev: FrameView, n: nat)
    requires
        next.same_size(prev),
        next.is_grid(),
        prev.is_grid(),
        n <= next.height,
    ensures
        overwrite_rows(prev.cells, prev.width, changed_rows(next, prev, n)) == Seq::new(
            prev.cells.len(),
            |i: int|
                if i < n * next.width {
                    next.cells[i]
                } else {
                    prev.cells[i]
                },
        ),
    decreases n,
{
    let goal = Seq::new(
        prev.cells.len(),
        |i: int|
            if i < n * next.width {
                next.cells[i]
            } else {
                prev.cells[i]
            },
    );
    let rows = changed_rows(next, prev, n);
    let result = overwrite_rows(prev.cells, prev.width, rows);
    if n == 0 {
        assert(n * next.width == 0) by (nonlinear_arith)
            requires
                n == 0,
        ;
        assert(result =~= goal);
    } else {
        let y = n - 1;
        let w = next.width as int;
        lemma_overwrite_changed_rows(next, prev, y as nat);
        lemma_grid_row(w, next.height as int, y);
        let above = changed_rows(next, prev, y as nat);
        let before = overwrite_rows(prev.cells, prev.width, above);
        assert(n * w == y * w + w) by (nonlinear_arith)
            requires
                n == y + 1,
        ;
        if next.row(y) == prev.row(y) {
            assert forall|i: int| 0 <= i < result.len() implies result[i] == goal[i] by {
                if y * w <= i < y * w + w {
                    assert(next.row(y)[i - y * w] == prev.row(y)[i - y * w]);
                }
            }
            assert(result =~= goal);
        } else {
            assert(rows.drop_last() =~= above);
            assert(rows.last() == (y as u16, next.row(y)));
            assert(result =~= goal);
        }
    }
}

/// Applying the diff between two frames to the older one gives the newer one.
pub proof fn law_diff_restores_frame(next: FrameView, prev: FrameView)
    requires
        next.same_size(prev),
        next.is_grid(),
        prev.is_grid(),
    ensures
        frame_diff(next, prev) is Some,
        diff_fits(prev, frame_diff(next, prev).unwrap()),
        patched(prev, frame_diff(next, prev).unwrap()) == next,
{
    let diff = frame_diff(next, prev).unwrap();
    lemma_changed_rows(next, prev, next.height as nat);
    lemma_overwrite_changed_rows(next, prev, next.height as nat);
    assert forall|i: int| 0 <= i < diff.rows.len() implies (#[trigger] diff.rows[i]).0
        < prev.height && diff.rows[i].1.len() == prev.width by {
        lemma_grid_row(next.width as int, next.height as int, diff.rows[i].0 as int);
    }
    assert(next.height * next.width == next.width * next.height) by (nonlinear_arith);
    assert(patched(prev, diff) =~= next);
}

/// A frame differs from itself in no row.
pub proof fn law_diff_of_equal_frames_is_empty(frame: FrameView)
    ensures
        frame_diff(frame, frame) is Some,
        frame_diff(frame, frame).unwrap().rows.len() == 0,
{
    lemma_changed_rows(frame, frame, frame.height as nat);
    let rows = frame_diff(frame, frame).unwrap().rows;
    if rows.len() > 0 {
        let (y, cells) = rows[0];
        assert(cells != frame.row(y as int));
    }
}

/// A frame as bytes for a terminal.
#[derive(Clone, Debug)]
pub struct TerminalFrame {
    /// Counts the frames of a client from 1.
    pub seq: u64,
    pub width: u16,
    pub height: u16,
    /// Whether the frame was written whole.
    pub full: bool,
    pub bytes: Vec<u8>,
}

/// The value of a [`TerminalFrame`].
#[verifier::ext_equal]
pub struct TerminalFrameView {
    pub seq: u64,
    pub width: u16,
    pub height: u16,
    pub full: bool,
    pub bytes: Seq<u8>,
}

impl View for TerminalFrame {
    type V = TerminalFrameView;

    open spec fn view(&self) -> TerminalFrameView {
        TerminalFrameView {
            seq: self.seq,
            width: self.width,
            height: self.height,
            full: self.full,
            bytes: self.bytes@,
        }
    }
}

/// What a client is sent.
#[derive(Clone, Debug)]
pub enum ServerMessage {
    /// A whole frame.
    Frame(FrameData),
    /// The changes against the client's last frame.
    FrameDiff(FrameDiffData),
    /// Bytes for the client's terminal.
    Terminal(TerminalFrame),
}

/// The value of a [`ServerMessage`].
#[verifier::ext_equal]
pub enum MessageView {
    Frame(FrameView),
    FrameDiff(FrameDiffView),
    Terminal(TerminalFrameView),
}

impl View for ServerMessage {
    type V = MessageView;

    open spec fn view(&self) -> MessageView {
        match self {
            ServerMessage::Frame(frame) => MessageView::Frame(frame@),
            ServerMessage::FrameDiff(diff) => MessageView::FrameDiff(diff@),
            ServerMessage::Terminal(frame) => MessageView::Terminal(frame@),
        }
    }
}

/// How a client wants its frames.
#[derive(Clone, Copy, Debug, PartialEq, Eq, Structural)]
pub enum RenderEncoding {
    SemanticFrame,
    TerminalAnsi,
}

// ---------------------------------------------------------------------------
// Laws: frames and diffs, said of single cells
// ---------------------------------------------------------------------------

/// A row of a frame holds its cells, one for each column, and rows follow each other in
/// the list of cells.
pub proof fn law_row_holds_its_cells(frame: FrameView, y: int, x: int)
    requires
        frame.width * frame.height <= frame.cells.len(),
        0 <= y < frame.height,
        0 <= x < frame.width,
    ensures
        frame.row(y).len() == frame.width,
        frame.row(y)[x] == frame.cells[y * frame.width + x],
        frame.at(y, x) == frame.cells[y * frame.width + x],
        0 <= y * frame.width + x < frame.cells.len(),
{
    lemma_grid_index(frame.width as int, frame.height as int, y, x);
}

/// There is a diff exactly between frames of one size. It carries the size, and the
/// cursor, the targets and the graphics of the newer frame.
pub proof fn law_diff_carries_newer_frame(next: FrameView, prev: FrameView)
    ensures
        frame_diff(next, prev) is Some <==> next.width == prev.width && next.height == prev.height,
        frame_diff(next, prev) matches Some(diff) ==> {
            &&& diff.width == next.width && diff.height == next.height
            &&& diff.cursor == next.cursor
            &&& diff.hyperlinks == next.hyperlinks
            &&& diff.graphics == next.graphics
        },
{
}

/// A row is in a diff exactly if one of its cells differs, and then with the newer cells.
pub proof fn law_row_is_sent_if_a_cell_differs(next: FrameView, prev: FrameView, y: u16)
    requires
        next.width == prev.width && next.height == prev.height,
        next.width * next.height <= next.cells.len(),
        next.width * next.height <= prev.cells.len(),
        y < next.height,
    ensures
        ({
            let rows = frame_diff(next, prev).unwrap().rows;
            let differs = exists|x: int|
                0 <= x < next.width && #[trigger] next.cells[y * next.width + x]
                    != prev.cells[y * next.width + x];
            &&& differs <==> exists|i: int| 0 <= i < rows.len() && (#[trigger] rows[i]).0 == y
            &&& forall|i: int, x: int|
                0 <= i < rows.len() && (#[trigger] rows[i]).0 == y && 0 <= x < next.width
                    ==> #[trigger] rows[i].1[x] == next.cells[y * next.width + x]
        }),
{
    let rows = frame_diff(next, prev).unwrap().rows;
    law_diff_carries_only_changed_rows(next, prev);
    assert forall|x: int| 0 <= x < next.width implies next.row(y as int)[x] == #[trigger] next.cells[
        y * next.width + x] && prev.row(y as int)[x] == prev.cells[y * next.width + x] by {
        law_row_holds_its_cells(next, y as int, x);
        law_row_holds_its_cells(prev, y as int, x);
    }
    assert(next.row(y as int).len() == next.width && prev.row(y as int).len() == next.width) by {
        lemma_grid_row(next.width as int, next.height as int, y as int);
    }
    assert forall|i: int, x: int|
        0 <= i < rows.len() && (#[trigger] rows[i]).0 == y && 0 <= x < next.width implies
        #[trigger] rows[i].1[x] == next.cells[y * next.width + x] by {
        assert(rows[i].1 == next.row(y as int));
    }
    if next.row(y as int) != prev.row(y as int) {
        assert(rows.contains((y, next.row(y as int))));
        if forall|x: int|
            0 <= x < next.width ==> #[trigger] next.cells[y * next.width + x] == prev.cells[y
                * next.width + x] {
            assert(next.row(y as int) =~= prev.row(y as int));
        }
    }
}

/// A diff is turned down exactly if it has another width or height, if the frame has
/// fewer cells than positions, or if one of the diff's rows lies outside the frame or
/// does not have a cell for each column.
pub proof fn law_misfit_is_turned_down(base: FrameView, diff: FrameDiffView)
    ensures
        !diff_fits(base, diff) <==> {
            ||| base.width != diff.width
            ||| base.height != diff.height
            ||| base.width * base.height > base.cells.len()
            ||| exists|i: int|
                0 <= i < diff.rows.len() && ((#[trigger] diff.rows[i]).0 >= base.height
                    || diff.rows[i].1.len() != base.width)
        },
{
}

/// What a diff leaves as it is: the size of the frame and the number of its cells, the
/// cells of the rows that it does not list, and the cells beyond the grid. Cursor,
/// targets and graphics are those of the diff.
pub proof fn law_patch_keeps_other_rows(base: FrameView, diff: FrameDiffView, i: int)
    requires
        diff_fits(base, diff),
        0 <= i < base.cells.len(),
        forall|k: int|
            0 <= k < diff.rows.len() ==> !((#[trigger] diff.rows[k]).0 * base.width <= i
                < diff.rows[k].0 * base.width + base.width),
    ensures
        patched(base, diff).cells.len() == base.cells.len(),
        patched(base, diff).cells[i] == base.cells[i],
        patched(base, diff).width == base.width,
        patched(base, diff).height == base.height,
        patched(base, diff).cursor == diff.cursor,
        patched(base, diff).hyperlinks == diff.hyperlinks,
        patched(base, diff).graphics == diff.graphics,
{
    lemma_overwrite_elsewhere(base.cells, base.width, diff.rows, i);
}

proof fn lemma_overwrite_elsewhere(
    cells: Seq<CellView>,
    width: u16,
    rows: Seq<(u16, Seq<CellView>)>,
    i: int,
)
    requires
        0 <= i < cells.len(),
        forall|k: int|
            0 <= k < rows.len() ==> !((#[trigger] rows[k]).0 * width <= i < rows[k].0 * width
                + rows[k].1.len()),
    ensures
        overwrite_rows(cells, width, rows).len() == cells.len(),
        overwrite_rows(cells, width, rows)[i] == cells[i],
    decreases rows.len(),
{
    if rows.len() > 0 {
        let before = rows.drop_last();
        assert forall|k: int| 0 <= k < before.len() implies !((#[trigger] before[k]).0 * width <= i
            < before[k].0 * width + before[k].1.len()) by {
            assert(before[k] == rows[k]);
        }
        lemma_overwrite_elsewhere(cells, width, before, i);
        assert(rows[rows.len() - 1] == rows.last());
    }
}

proof fn lemma_overwrite_len(
    cells: Seq<CellView>,
    width: u16,
    rows: Seq<(u16, Seq<CellView>)>,
)
    ensures
        overwrite_rows(cells, width, rows).len() == cells.len(),
    decreases rows.len(),
{
    if rows.len() > 0 {
        lemma_overwrite_len(cells, width, rows.drop_last());
    }
}

/// A row that a diff lists takes the diff's cells, those of its last entry if it is
/// listed more than once.
pub proof fn law_patch_takes_listed_rows(base: FrameView, diff: FrameDiffView, k: int, x: int)
    requires
        diff_fits(base, diff),
        0 <= k < diff.rows.len(),
        forall|j: int| k < j < diff.rows.len() ==> (#[trigger] diff.rows[j]).0 != diff.rows[k].0,
        0 <= x < base.width,
    ensures
        patched(base, diff).cells[diff.rows[k].0 * base.width + x] == diff.rows[k].1[x],
{
    let y = diff.rows[k].0;
    lemma_grid_index(base.width as int, base.height as int, y as int, x);
    lemma_overwrite_listed(base.cells, base.width, diff.rows, k, x);
}

proof fn lemma_overwrite_listed(
    cells: Seq<CellView>,
    width: u16,
    rows: Seq<(u16, Seq<CellView>)>,
    k: int,
    x: int,
)
    requires
        0 <= k < rows.len(),
        forall|j: int| k < j < rows.len() ==> (#[trigger] rows[j]).0 != rows[k].0,
        forall|j: int| 0 <= j < rows.len() ==> (#[trigger] rows[j]).1.len() == width,
        0 <= x < width,
        0 <= rows[k].0 * width + x < cells.len(),
    ensures
        overwrite_rows(cells, width, rows)[rows[k].0 * width + x] == rows[k].1[x],
    decreases rows.len(),
{
    let before = rows.drop_last();
    let last = rows.last();
    assert(rows[rows.len() - 1] == last);
    lemma_overwrite_len(cells, width, before);
    if k < rows.len() - 1 {
        assert(before[k] == rows[k]);
        assert forall|j: int| 0 <= j < before.len() implies (#[trigger] before[j]).1.len()
            == width && (k < j ==> before[j].0 != before[k].0) by {
            assert(before[j] == rows[j]);
        }
        lemma_overwrite_listed(cells, width, before, k, x);
        let (y, z, w) = (rows[k].0 as int, last.0 as int, width as int);
        assert(!(z * w <= y * w + x < z * w + w)) by (nonlinear_arith)
            requires
                y != z,
                0 <= x < w,
                0 <= y,
                0 <= z,
        ;
    }
}

} // verus!
