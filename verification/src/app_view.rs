//! What rendering reads of the application: a snapshot in plain values.

use std::collections::BTreeMap;

use vstd::prelude::*;

use crate::protocol::CursorState;

verus! {

/// Identifies a pane.
#[derive(Clone, Copy, Debug, PartialEq, Eq, Structural)]
pub struct PaneId(pub u32);

impl PaneId {
    pub fn raw(self) -> (res: u32)
        ensures
            res == self.0,
    {
        self.0
    }
}

/// A kind of agent that can be detected in a terminal.
#[derive(Clone, Copy, Debug, PartialEq, Eq, Structural)]
pub struct Agent(pub u32);

/// What the keyboard is attached to.
#[derive(Clone, Copy, Debug, PartialEq, Eq, Structural)]
pub enum Mode {
    /// The focused pane's terminal.
    Terminal,
    /// Anything else: navigation, menus, dialogs.
    Other,
}

/// A rectangle of cells.
#[derive(Clone, Copy, Debug, PartialEq, Eq, Structural)]
pub struct Rect {
    pub x: u16,
    pub y: u16,
    pub width: u16,
    pub height: u16,
}

/// A pane as it was last laid out.
#[derive(Clone, Copy, Debug)]
pub struct PaneInfo {
    pub id: PaneId,
    /// The pane without its border.
    pub inner_rect: Rect,
    pub is_focused: bool,
}

/// A pane of a tab.
#[derive(Clone, Copy, Debug)]
pub struct TabPane {
    pub id: PaneId,
    /// The terminal that is attached to the pane.
    pub terminal_id: u64,
    /// Whether the terminal's cursor may become the host cursor.
    pub exposes_host_cursor: bool,
}

/// A tab.
#[derive(Debug)]
pub struct Tab {
    pub panes: Vec<TabPane>,
}

/// A workspace.
#[derive(Debug)]
pub struct Workspace {
    pub tabs: Vec<Tab>,
    /// The index of the active tab.
    pub active_tab: usize,
}

/// What is known of a terminal.
#[derive(Clone, Copy, Debug)]
pub struct TerminalInfo {
    pub detected_agent: Option<Agent>,
}

/// The application.
#[derive(Debug)]
pub struct AppState {
    pub mode: Mode,
    /// The index of the active workspace.
    pub active: Option<usize>,
    pub workspaces: Vec<Workspace>,
    pub pane_infos: Vec<PaneInfo>,
    pub terminals: BTreeMap<u64, TerminalInfo>,
    /// Expose a cursor that the pane hides, so that input methods can follow it.
    pub reveal_hidden_cursor_for_cjk_ime: bool,
    /// Expose it for `cjk_ime_agents` only.
    pub cjk_ime_agent_filter_configured: bool,
    pub cjk_ime_agents: Vec<Agent>,
    /// The shape of a cursor that is exposed so.
    pub cjk_ime_cursor_shape: u8,
}

/// A linked cell as a terminal reports it: column and row, and the two texts that
/// describe the link.
pub type LinkedCell = ((u16, u16), String, String);

/// A running terminal as it is seen in one rectangle.
#[derive(Debug)]
pub struct TerminalView {
    pub rect: Rect,
    /// The terminal's cursor, if it has a position in the rectangle.
    pub cursor: Option<CursorState>,
    /// The linked cells in the rectangle.
    pub hyperlinks: Vec<LinkedCell>,
}

/// A running terminal.
#[derive(Debug)]
pub struct TerminalRuntime {
    /// The terminal is in the middle of a synchronized update.
    pub synchronized_output_active: bool,
    /// The pane shows the history and not the screen.
    pub scrolled_back: bool,
    /// The terminal in each rectangle that it is seen in.
    pub views: Vec<TerminalView>,
}

/// The running terminals by their number.
#[derive(Debug)]
pub struct TerminalRuntimeRegistry {
    pub runtimes: BTreeMap<u64, TerminalRuntime>,
}

/// The first element that satisfies `p`.
pub open spec fn first<T>(s: Seq<T>, p: spec_fn(T) -> bool) -> Option<T>
    decreases s.len(),
{
    if s.len() == 0 {
        None
    } else if p(s[0]) {
        Some(s[0])
    } else {
        first(s.drop_first(), p)
    }
}

/// An element that satisfies `p` where no earlier one does is the first.
pub proof fn lemma_first_at<T>(s: Seq<T>, p: spec_fn(T) -> bool, i: int)
    requires
        0 <= i < s.len(),
        p(s[i]),
        forall|j: int| 0 <= j < i ==> !p(#[trigger] s[j]),
    ensures
        first(s, p) == Some(s[i]),
    decreases s.len(),
{
    if i > 0 {
        let rest = s.drop_first();
        assert(!p(s[0]));
        assert forall|j: int| 0 <= j < i - 1 implies !p(#[trigger] rest[j]) by {
            assert(rest[j] == s[j + 1]);
        }
        lemma_first_at(rest, p, i - 1);
    }
}

/// Where no element satisfies `p` there is no first one.
pub proof fn lemma_first_none<T>(s: Seq<T>, p: spec_fn(T) -> bool)
    requires
        forall|j: int| 0 <= j < s.len() ==> !p(#[trigger] s[j]),
    ensures
        first(s, p) is None,
    decreases s.len(),
{
    if s.len() > 0 {
        let rest = s.drop_first();
        assert(!p(s[0]));
        assert forall|j: int| 0 <= j < rest.len() implies !p(#[trigger] rest[j]) by {
            assert(rest[j] == s[j + 1]);
        }
        lemma_first_none(rest, p);
    }
}

/// A terminal as it is seen in a rectangle, if it is seen there.
pub open spec fn view_in(runtime: TerminalRuntime, rect: Rect) -> Option<TerminalView> {
    first(runtime.views@, |view: TerminalView| view.rect == rect)
}

/// The cursor of a terminal in a rectangle.
pub open spec fn cursor_in(runtime: TerminalRuntime, rect: Rect) -> Option<CursorState> {
    match view_in(runtime, rect) {
        Some(view) => view.cursor,
        None => None,
    }
}

/// The linked cells of a terminal in a rectangle.
pub open spec fn links_in(runtime: TerminalRuntime, rect: Rect) -> Seq<LinkedCell> {
    match view_in(runtime, rect) {
        Some(view) => view.hyperlinks@,
        None => Seq::empty(),
    }
}

impl TerminalRuntime {
    /// The terminal as it is seen in a rectangle.
    pub fn view_in(&self, rect: Rect) -> (res: Option<&TerminalView>)
        ensures
            res == (match view_in(*self, rect) {
                Some(view) => Some(&view),
                None => None,
            }),
    {
        let ghost p = |view: TerminalView| view.rect == rect;
        for i in 0..self.views.len()
            invariant
                p == |view: TerminalView| view.rect == rect,
                forall|j: int| 0 <= j < i ==> !p(#[trigger] self.views@[j]),
        {
            if self.views[i].rect == rect {
                proof {
                    lemma_first_at(self.views@, p, i as int);
                }
                return Some(&self.views[i]);
            }
        }
        proof {
            lemma_first_none(self.views@, p);
        }
        None
    }

    /// The cursor of the terminal in a rectangle.
    pub fn cursor_state(&self, rect: Rect) -> (res: Option<CursorState>)
        ensures
            res == cursor_in(*self, rect),
    {
        match self.view_in(rect) {
            Some(view) => view.cursor,
            None => None,
        }
    }
}

/// The pane of a tab that has an identifier.
pub open spec fn tab_pane(tab: Tab, id: PaneId) -> Option<TabPane> {
    first(tab.panes@, |pane: TabPane| pane.id == id)
}

/// The pane of a workspace that has an identifier, in the first tab that has one.
pub open spec fn workspace_pane(workspace: Workspace, id: PaneId) -> Option<TabPane> {
    match first(workspace.tabs@, |tab: Tab| tab_pane(tab, id) is Some) {
        Some(tab) => tab_pane(tab, id),
        None => None,
    }
}

/// The pane of the workspace with an index.
pub open spec fn app_pane(app: AppState, ws_idx: usize, id: PaneId) -> Option<TabPane> {
    if ws_idx < app.workspaces@.len() {
        workspace_pane(app.workspaces@[ws_idx as int], id)
    } else {
        None
    }
}

impl Tab {
    /// The pane that has an identifier.
    pub fn pane(&self, id: PaneId) -> (res: Option<TabPane>)
        ensures
            res == tab_pane(*self, id),
    {
        let ghost p = |pane: TabPane| pane.id == id;
        for i in 0..self.panes.len()
            invariant
                p == |pane: TabPane| pane.id == id,
                forall|j: int| 0 <= j < i ==> !p(#[trigger] self.panes@[j]),
        {
            if self.panes[i].id == id {
                proof {
                    lemma_first_at(self.panes@, p, i as int);
                }
                return Some(self.panes[i]);
            }
        }
        proof {
            lemma_first_none(self.panes@, p);
        }
        None
    }

    /// The terminal of a pane.
    pub fn terminal_id(&self, id: PaneId) -> (res: Option<u64>)
        ensures
            res == (match tab_pane(*self, id) {
                Some(pane) => Some(pane.terminal_id),
                None => None,
            }),
    {
        match self.pane(id) {
            Some(pane) => Some(pane.terminal_id),
            None => None,
        }
    }
}

impl Workspace {
    /// The active tab.
    pub fn active_tab(&self) -> (res: Option<&Tab>)
        ensures
            res == if self.active_tab < self.tabs@.len() {
                Some(&self.tabs@[self.active_tab as int])
            } else {
                None
            },
    {
        if self.active_tab < self.tabs.len() {
            Some(&self.tabs[self.active_tab])
        } else {
            None
        }
    }

    /// The pane that has an identifier.
    pub fn pane(&self, id: PaneId) -> (res: Option<TabPane>)
        ensures
            res == workspace_pane(*self, id),
    {
        let ghost p = |tab: Tab| tab_pane(tab, id) is Some;
        for i in 0..self.tabs.len()
            invariant
                p == |tab: Tab| tab_pane(tab, id) is Some,
                forall|j: int| 0 <= j < i ==> !p(#[trigger] self.tabs@[j]),
        {
            let found = self.tabs[i].pane(id);
            if found.is_some() {
                proof {
                    lemma_first_at(self.tabs@, p, i as int);
                }
                return found;
            }
            assert(!p(self.tabs@[i as int]));
        }
        proof {
            lemma_first_none(self.tabs@, p);
        }
        None
    }
}

/// The running terminal that has a number.
pub open spec fn runtime_of(registry: TerminalRuntimeRegistry, id: u64) -> Option<TerminalRuntime> {
    if registry.runtimes@.dom().contains(id) {
        Some(registry.runtimes@[id])
    } else {
        None
    }
}

/// The running terminal of a pane.
pub open spec fn pane_runtime(
    app: AppState,
    registry: TerminalRuntimeRegistry,
    ws_idx: usize,
    id: PaneId,
) -> Option<TerminalRuntime> {
    match app_pane(app, ws_idx, id) {
        Some(pane) => runtime_of(registry, pane.terminal_id),
        None => None,
    }
}

/// The cursor of a pane's terminal may become the host cursor.
pub open spec fn exposes(app: AppState, ws_idx: usize, id: PaneId) -> bool {
    app_pane(app, ws_idx, id) matches Some(pane) && pane.exposes_host_cursor
}

impl TerminalRuntimeRegistry {
    pub fn new() -> (res: Self)
        ensures
            res.runtimes@ == Map::<u64, TerminalRuntime>::empty(),
    {
        TerminalRuntimeRegistry { runtimes: BTreeMap::new() }
    }

    /// The running terminal that has a number.
    pub fn get(&self, id: u64) -> (res: Option<&TerminalRuntime>)
        ensures
            res == (match runtime_of(*self, id) {
                Some(runtime) => Some(&runtime),
                None => None,
            }),
    {
        self.runtimes.get(&id)
    }
}

impl AppState {
    /// The pane of a workspace that has an identifier.
    pub fn pane(&self, ws_idx: usize, id: PaneId) -> (res: Option<TabPane>)
        ensures
            res == app_pane(*self, ws_idx, id),
    {
        if ws_idx < self.workspaces.len() {
            self.workspaces[ws_idx].pane(id)
        } else {
            None
        }
    }

    /// Whether the cursor of a pane's terminal may become the host cursor.
    pub fn pane_exposes_host_cursor(&self, ws_idx: usize, id: PaneId) -> (res: bool)
        ensures
            res == (app_pane(*self, ws_idx, id) matches Some(pane) && pane.exposes_host_cursor),
            res == exposes(*self, ws_idx, id),
    {
        match self.pane(ws_idx, id) {
            Some(pane) => pane.exposes_host_cursor,
            None => false,
        }
    }

    /// The running terminal of a pane.
    pub fn runtime_for_pane_in_workspace<'a>(
        &self,
        terminal_runtimes: &'a TerminalRuntimeRegistry,
        ws_idx: usize,
        id: PaneId,
    ) -> (res: Option<&'a TerminalRuntime>)
        ensures
            res == (match pane_runtime(*self, *terminal_runtimes, ws_idx, id) {
                Some(runtime) => Some(&runtime),
                None => None,
            }),
    {
        match self.pane(ws_idx, id) {
            Some(pane) => terminal_runtimes.get(pane.terminal_id),
            None => None,
        }
    }
}

// ---------------------------------------------------------------------------
// Laws
// ---------------------------------------------------------------------------

/// The first view of a terminal that has a rectangle has index `v`.
pub open spec fn seen_at(runtime: TerminalRuntime, rect: Rect, v: int) -> bool {
    &&& 0 <= v < runtime.views@.len()
    &&& runtime.views@[v].rect == rect
    &&& forall|j: int| 0 <= j < v ==> (#[trigger] runtime.views@[j]).rect != rect
}

/// The first pane of a tab that has an identifier has index `k`.
pub open spec fn paned_at(tab: Tab, id: PaneId, k: int) -> bool {
    &&& 0 <= k < tab.panes@.len()
    &&& tab.panes@[k].id == id
    &&& forall|j: int| 0 <= j < k ==> (#[trigger] tab.panes@[j]).id != id
}

/// No pane of a tab has an identifier.
pub open spec fn pane_absent(tab: Tab, id: PaneId) -> bool {
    forall|j: int| 0 <= j < tab.panes@.len() ==> (#[trigger] tab.panes@[j]).id != id
}

/// The first pane of a workspace that has an identifier is in the tab with index `t`,
/// and has index `k` there.
pub open spec fn placed_at(workspace: Workspace, id: PaneId, t: int, k: int) -> bool {
    &&& 0 <= t < workspace.tabs@.len()
    &&& paned_at(workspace.tabs@[t], id, k)
    &&& forall|j: int| 0 <= j < t ==> pane_absent(#[trigger] workspace.tabs@[j], id)
}

/// A terminal is seen in a rectangle through its first view of it: that view's cursor
/// and links are the terminal's in the rectangle. Without such a view it has neither.
pub proof fn law_first_view_is_seen(runtime: TerminalRuntime, rect: Rect)
    ensures
        forall|v: int| #[trigger]
            seen_at(runtime, rect, v) ==> {
                &&& view_in(runtime, rect) == Some(runtime.views@[v])
                &&& cursor_in(runtime, rect) == runtime.views@[v].cursor
                &&& links_in(runtime, rect) == runtime.views@[v].hyperlinks@
            },
        (forall|v: int| 0 <= v < runtime.views@.len() ==> (#[trigger] runtime.views@[v]).rect != rect)
            ==> view_in(runtime, rect) is None && cursor_in(runtime, rect) is None && links_in(
            runtime,
            rect,
        ).len() == 0,
{
    let p = |view: TerminalView| view.rect == rect;
    assert forall|v: int| #[trigger] seen_at(runtime, rect, v) implies view_in(runtime, rect)
        == Some(runtime.views@[v]) by {
        lemma_first_at(runtime.views@, p, v);
    }
    if forall|v: int| 0 <= v < runtime.views@.len() ==> (#[trigger] runtime.views@[v]).rect != rect {
        lemma_first_none(runtime.views@, p);
    }
}

/// A tab finds the first of its panes that has an identifier, and none if none has it.
pub proof fn law_first_pane_of_tab(tab: Tab, id: PaneId)
    ensures
        forall|k: int| #[trigger]
            paned_at(tab, id, k) ==> tab_pane(tab, id) == Some(tab.panes@[k]),
        pane_absent(tab, id) <==> tab_pane(tab, id) is None,
{
    let p = |pane: TabPane| pane.id == id;
    assert forall|k: int| #[trigger] paned_at(tab, id, k) implies tab_pane(tab, id) == Some(
        tab.panes@[k],
    ) by {
        lemma_first_at(tab.panes@, p, k);
    }
    if pane_absent(tab, id) {
        lemma_first_none(tab.panes@, p);
    } else {
        let k = lemma_first_index(tab.panes@, p);
        assert(forall|j: int| 0 <= j < k ==> !p(#[trigger] tab.panes@[j]));
        assert(paned_at(tab, id, k));
    }
}

/// Where an element satisfies `p` one of them is the first.
pub proof fn lemma_first_index<T>(s: Seq<T>, p: spec_fn(T) -> bool) -> (i: int)
    requires
        exists|j: int| 0 <= j < s.len() && p(#[trigger] s[j]),
    ensures
        0 <= i < s.len(),
        p(s[i]),
        forall|j: int| 0 <= j < i ==> !p(#[trigger] s[j]),
    decreases s.len(),
{
    if p(s[0]) {
        0
    } else {
        let j = choose|j: int| 0 <= j < s.len() && p(#[trigger] s[j]);
        let rest = s.drop_first();
        assert(rest[j - 1] == s[j]);
        let i = 1 + lemma_first_index(rest, p);
        assert forall|j: int| 0 <= j < i implies !p(#[trigger] s[j]) by {
            if j > 0 {
                assert(rest[j - 1] == s[j]);
            }
        }
        i
    }
}

/// A workspace finds the first of its panes that has an identifier, tab by tab, and none
/// if no tab has one. An index that no workspace has finds no pane.
pub proof fn law_first_pane_of_workspace(app: AppState, ws_idx: usize, id: PaneId)
    ensures
        ws_idx >= app.workspaces@.len() ==> app_pane(app, ws_idx, id) is None,
        ws_idx < app.workspaces@.len() ==> {
            let workspace = app.workspaces@[ws_idx as int];
            &&& forall|t: int, k: int| #[trigger]
                placed_at(workspace, id, t, k) ==> app_pane(app, ws_idx, id) == Some(
                    workspace.tabs@[t].panes@[k],
                )
            &&& (forall|t: int|
                0 <= t < workspace.tabs@.len() ==> pane_absent(#[trigger] workspace.tabs@[t], id))
                ==> app_pane(app, ws_idx, id) is None
        },
{
    if ws_idx < app.workspaces@.len() {
        let workspace = app.workspaces@[ws_idx as int];
        let p = |tab: Tab| tab_pane(tab, id) is Some;
        assert forall|t: int, k: int| #[trigger] placed_at(workspace, id, t, k) implies app_pane(
            app,
            ws_idx,
            id,
        ) == Some(workspace.tabs@[t].panes@[k]) by {
            law_first_pane_of_tab(workspace.tabs@[t], id);
            assert forall|j: int| 0 <= j < t implies !p(#[trigger] workspace.tabs@[j]) by {
                law_first_pane_of_tab(workspace.tabs@[j], id);
            }
            lemma_first_at(workspace.tabs@, p, t);
        }
        if forall|t: int|
            0 <= t < workspace.tabs@.len() ==> pane_absent(#[trigger] workspace.tabs@[t], id) {
            assert forall|j: int| 0 <= j < workspace.tabs@.len() implies !p(
                #[trigger] workspace.tabs@[j],
            ) by {
                law_first_pane_of_tab(workspace.tabs@[j], id);
            }
            lemma_first_none(workspace.tabs@, p);
        }
    }
}

/// A terminal runs exactly if the registry has its number, and is the one that is there.
pub proof fn law_runtime_is_registered(registry: TerminalRuntimeRegistry, id: u64)
    ensures
        runtime_of(registry, id) is Some <==> registry.runtimes@.dom().contains(id),
        registry.runtimes@.dom().contains(id) ==> runtime_of(registry, id) == Some(
            registry.runtimes@[id],
        ),
{
}

/// The running terminal of a pane is the one that the registry has under the number of
/// the terminal that is attached to the pane. A pane that the workspace does not have,
/// and one whose terminal is not registered, has none.
pub proof fn law_pane_runs_its_terminal(
    app: AppState,
    registry: TerminalRuntimeRegistry,
    ws_idx: usize,
    id: PaneId,
)
    ensures
        ws_idx >= app.workspaces@.len() ==> pane_runtime(app, registry, ws_idx, id) is None,
        ws_idx < app.workspaces@.len() ==> {
            let workspace = app.workspaces@[ws_idx as int];
            &&& forall|t: int, k: int| #[trigger]
                placed_at(workspace, id, t, k) ==> {
                    let number = workspace.tabs@[t].panes@[k].terminal_id;
                    &&& registry.runtimes@.dom().contains(number) ==> pane_runtime(
                        app,
                        registry,
                        ws_idx,
                        id,
                    ) == Some(registry.runtimes@[number])
                    &&& !registry.runtimes@.dom().contains(number) ==> pane_runtime(
                        app,
                        registry,
                        ws_idx,
                        id,
                    ) is None
                }
            &&& (forall|t: int|
                0 <= t < workspace.tabs@.len() ==> pane_absent(#[trigger] workspace.tabs@[t], id))
                ==> pane_runtime(app, registry, ws_idx, id) is None
        },
{
    law_first_pane_of_workspace(app, ws_idx, id);
}

/// A pane exposes its cursor exactly if the workspace has it and it is marked so there.
pub proof fn law_marked_pane_exposes_cursor(
    app: AppState,
    ws_idx: usize,
    id: PaneId,
    t: int,
    k: int,
)
    ensures
        ws_idx >= app.workspaces@.len() ==> !exposes(app, ws_idx, id),
        ws_idx < app.workspaces@.len() && placed_at(app.workspaces@[ws_idx as int], id, t, k) ==> (
        exposes(app, ws_idx, id)
            <==> app.workspaces@[ws_idx as int].tabs@[t].panes@[k].exposes_host_cursor),
{
    law_first_pane_of_workspace(app, ws_idx, id);
}

} // verus!
