//! Which cursor a rendered frame carries, and which hyperlinks it shows.

use vstd::prelude::*;

use crate::app_view;
use crate::app_view::{
    Agent, AppState, LinkedCell, Mode, PaneInfo, Rect, TerminalRuntime, TerminalRuntimeRegistry,
};
use crate::protocol::CursorState;

verus! {

// ---------------------------------------------------------------------------
// The focused terminal
// ---------------------------------------------------------------------------

/// The focused pane: the first that is marked so.
pub open spec fn focused_pane(app: AppState) -> Option<PaneInfo> {
    app_view::first(app.pane_infos@, |info: PaneInfo| info.is_focused)
}

/// The workspace index, the pane and the running terminal that the host cursor belongs
/// to, if it belongs to any: those of the focused pane, while the keyboard is attached
/// to its terminal and the pane exposes its cursor.
pub open spec fn focused_terminal(app: AppState, registry: TerminalRuntimeRegistry) -> Option<
    (usize, PaneInfo, TerminalRuntime),
> {
    match (app.active, focused_pane(app)) {
        (Some(ws_idx), Some(info)) => {
            let exposed = app_view::app_pane(app, ws_idx, info.id) matches Some(pane)
                && pane.exposes_host_cursor;
            match app_view::pane_runtime(app, registry, ws_idx, info.id) {
                Some(runtime) => if app.mode == Mode::Terminal && exposed {
                    Some((ws_idx, info, runtime))
                } else {
                    None
                },
                None => None,
            }
        },
        _ => None,
    }
}

/// The agent that was detected in a pane's terminal.
pub open spec fn pane_agent(app: AppState, ws_idx: usize, info: PaneInfo) -> Option<Agent> {
    match app_view::app_pane(app, ws_idx, info.id) {
        Some(pane) => if app.terminals@.dom().contains(pane.terminal_id) {
            app.terminals@[pane.terminal_id].detected_agent
        } else {
            None
        },
        None => None,
    }
}

/// The cursor of a pane is exposed for input methods even if its terminal hides it:
/// that is switched on, and applies to every pane or to the agent in this one.
pub open spec fn reveals(app: AppState, ws_idx: usize, info: PaneInfo) -> bool {
    &&& app.reveal_hidden_cursor_for_cjk_ime
    &&& app.cjk_ime_agent_filter_configured ==> (pane_agent(app, ws_idx, info) matches Some(agent)
        && app.cjk_ime_agents@.contains(agent))
}

/// The host cursor of a terminal, given whether its pane reveals it.
///
/// A terminal that shows its history hides the cursor. A revealed cursor that has no
/// position stands in the top-left corner of the pane.
pub open spec fn terminal_cursor(
    runtime: TerminalRuntime,
    info: PaneInfo,
    reveal: bool,
    reveal_shape: u8,
) -> Option<CursorState> {
    let shown = !runtime.scrolled_back;
    match app_view::cursor_in(runtime, info.inner_rect) {
        Some(cursor) => {
            let visible = (reveal || cursor.visible) && shown;
            Some(
                CursorState {
                    x: cursor.x,
                    y: cursor.y,
                    visible,
                    shape: if reveal && visible {
                        reveal_shape
                    } else {
                        cursor.shape
                    },
                },
            )
        },
        None => if reveal && shown {
            Some(
                CursorState {
                    x: info.inner_rect.x,
                    y: info.inner_rect.y,
                    visible: true,
                    shape: reveal_shape,
                },
            )
        } else {
            None
        },
    }
}

/// The host cursor of the focused terminal. In the middle of a synchronized update
/// there is none.
pub open spec fn focused_cursor(app: AppState, registry: TerminalRuntimeRegistry) -> Option<
    CursorState,
> {
    match focused_terminal(app, registry) {
        Some((ws_idx, info, runtime)) => if runtime.synchronized_output_active {
            None
        } else {
            terminal_cursor(
                runtime,
                info,
                reveals(app, ws_idx, info),
                app.cjk_ime_cursor_shape,
            )
        },
        None => None,
    }
}

/// Finds the focused pane.
fn find_focused(app_state: &AppState) -> (res: Option<PaneInfo>)
    ensures
        res == focused_pane(*app_state),
{
    let ghost p = |info: PaneInfo| info.is_focused;
    for i in 0..app_state.pane_infos.len()
        invariant
            p == |info: PaneInfo| info.is_focused,
            forall|j: int| 0 <= j < i ==> !p(#[trigger] app_state.pane_infos@[j]),
    {
        if app_state.pane_infos[i].is_focused {
            proof {
                app_view::lemma_first_at(app_state.pane_infos@, p, i as int);
            }
            return Some(app_state.pane_infos[i]);
        }
    }
    proof {
        app_view::lemma_first_none(app_state.pane_infos@, p);
    }
    None
}

/// Finds the terminal that the host cursor belongs to.
fn find_focused_terminal<'a>(
    app_state: &AppState,
    terminal_runtimes: &'a TerminalRuntimeRegistry,
) -> (res: Option<(usize, PaneInfo, &'a TerminalRuntime)>)
    ensures
        (match res {
            Some((ws_idx, info, runtime)) => Some((ws_idx, info, *runtime)),
            None => None,
        }) == focused_terminal(*app_state, *terminal_runtimes),
{
    if app_state.mode != Mode::Terminal {
        return None;
    }
    let ws_idx: usize = match app_state.active {
        Some(ws_idx) => ws_idx,
        None => {
            return None;
        },
    };
    let info = match find_focused(app_state) {
        Some(info) => info,
        None => {
            return None;
        },
    };
    if !app_state.pane_exposes_host_cursor(ws_idx, info.id) {
        return None;
    }
    match app_state.runtime_for_pane_in_workspace(terminal_runtimes, ws_idx, info.id) {
        Some(runtime) => Some((ws_idx, info, runtime)),
        None => None,
    }
}

/// Whether a list of agents holds an agent.
fn lists_agent(agents: &Vec<Agent>, agent: Agent) -> (res: bool)
    ensures
        res == agents@.contains(agent),
{
    for i in 0..agents.len()
        invariant
            forall|j: int| 0 <= j < i ==> agents@[j] != agent,
    {
        if agents[i] == agent {
            assert(agents@[i as int] == agent);
            return true;
        }
    }
    false
}

/// Whether the cursor of a pane is exposed even if its terminal hides it.
fn pane_reveals_cursor(app_state: &AppState, ws_idx: usize, info: PaneInfo) -> (res: bool)
    ensures
        res == reveals(*app_state, ws_idx, info),
{
    if !app_state.reveal_hidden_cursor_for_cjk_ime {
        return false;
    }
    if !app_state.cjk_ime_agent_filter_configured {
        return true;
    }
    let detected: Option<Agent> = match app_state.pane(ws_idx, info.id) {
        Some(pane) => match app_state.terminals.get(&pane.terminal_id) {
            Some(terminal) => terminal.detected_agent,
            None => None,
        },
        None => None,
    };
    match detected {
        Some(agent) => lists_agent(&app_state.cjk_ime_agents, agent),
        None => false,
    }
}

/// The host cursor that the focused terminal asks for.
pub fn focused_terminal_cursor(
    app_state: &AppState,
    terminal_runtimes: &TerminalRuntimeRegistry,
) -> (res: Option<CursorState>)
    ensures
        res == focused_cursor(*app_state, *terminal_runtimes),
{
    let (ws_idx, info, runtime) = match find_focused_terminal(app_state, terminal_runtimes) {
        Some(found) => found,
        None => {
            return None;
        },
    };
    if runtime.synchronized_output_active {
        return None;
    }
    let scrolled_back = runtime.scrolled_back;
    let reveal = pane_reveals_cursor(app_state, ws_idx, info);
    match runtime.cursor_state(info.inner_rect) {
        Some(cursor) => {
            let visible = if reveal {
                !scrolled_back
            } else {
                cursor.visible && !scrolled_back
            };
            Some(
                CursorState {
                    x: cursor.x,
                    y: cursor.y,
                    visible,
                    shape: if reveal && visible {
                        app_state.cjk_ime_cursor_shape
                    } else {
                        cursor.shape
                    },
                },
            )
        },
        None => {
            if reveal && !scrolled_back {
                Some(
                    CursorState {
                        x: info.inner_rect.x,
                        y: info.inner_rect.y,
                        visible: true,
                        shape: app_state.cjk_ime_cursor_shape,
                    },
                )
            } else {
                None
            }
        },
    }
}

/// Whether the host cursor belongs to a terminal.
pub fn focused_terminal_owns_host_cursor(
    app_state: &AppState,
    terminal_runtimes: &TerminalRuntimeRegistry,
) -> (res: bool)
    ensures
        res == (focused_terminal(*app_state, *terminal_runtimes) is Some),
{
    find_focused_terminal(app_state, terminal_runtimes).is_some()
}

/// The host cursor belongs to a terminal that is in the middle of a synchronized update.
pub open spec fn suppresses(app: AppState, registry: TerminalRuntimeRegistry) -> bool {
    focused_terminal(app, registry) matches Some((_, _, runtime))
        && runtime.synchronized_output_active
}

/// Whether the host cursor belongs to a terminal that is in the middle of a
/// synchronized update.
pub fn focused_terminal_suppresses_host_cursor(
    app_state: &AppState,
    terminal_runtimes: &TerminalRuntimeRegistry,
) -> (res: bool)
    ensures
        res == (focused_terminal(*app_state, *terminal_runtimes) matches Some((_, _, runtime))
            && runtime.synchronized_output_active),
        res == suppresses(*app_state, *terminal_runtimes),
{
    match find_focused_terminal(app_state, terminal_runtimes) {
        Some((_, _, runtime)) => runtime.synchronized_output_active,
        None => false,
    }
}

// ---------------------------------------------------------------------------
// The cursor of a frame
// ---------------------------------------------------------------------------

/// The cursor of a frame of the whole application: none if the focused terminal
/// suppressed the host cursor before the layout or after it, else that of the focused
/// terminal, else the one that was drawn, unless the host cursor belongs to a terminal.
pub open spec fn app_frame_cursor(
    suppressed_before: bool,
    suppressed_after: bool,
    app: AppState,
    registry: TerminalRuntimeRegistry,
    rendered: Option<CursorState>,
) -> Option<CursorState> {
    if suppressed_before || suppressed_after {
        None
    } else {
        match focused_cursor(app, registry) {
            Some(cursor) => Some(cursor),
            None => if focused_terminal(app, registry) is Some {
                None
            } else {
                rendered
            },
        }
    }
}

/// Chooses the cursor of a frame of the whole application, given whether the focused
/// terminal suppressed the host cursor before the layout and after it. `rendered` is the
/// cursor that was drawn.
pub fn select_frame_cursor(
    suppressed_before: bool,
    suppressed_after: bool,
    app_state: &AppState,
    terminal_runtimes: &TerminalRuntimeRegistry,
    rendered: Option<CursorState>,
) -> (res: Option<CursorState>)
    ensures
        res == app_frame_cursor(
            suppressed_before,
            suppressed_after,
            *app_state,
            *terminal_runtimes,
            rendered,
        ),
{
    if suppressed_before || suppressed_after {
        return None;
    }
    let focused = focused_terminal_cursor(app_state, terminal_runtimes);
    if focused.is_some() {
        return focused;
    }
    if focused_terminal_owns_host_cursor(app_state, terminal_runtimes) {
        None
    } else {
        rendered
    }
}

/// The cursor of a frame of one terminal: none while it is suppressed, else the
/// terminal's own, hidden while the history is shown, else the one that was drawn.
pub open spec fn attached_cursor(
    suppressed: bool,
    runtime: TerminalRuntime,
    area: Rect,
    rendered: Option<CursorState>,
) -> Option<CursorState> {
    if suppressed {
        None
    } else {
        match app_view::cursor_in(runtime, area) {
            Some(cursor) => Some(
                CursorState { visible: cursor.visible && !runtime.scrolled_back, ..cursor },
            ),
            None => rendered,
        }
    }
}

/// Chooses the cursor of a frame of one terminal. `suppressed` says whether the terminal
/// was in the middle of a synchronized update before it was drawn.
pub fn select_attached_cursor(
    suppressed: bool,
    runtime: &TerminalRuntime,
    area: Rect,
    rendered: Option<CursorState>,
) -> (res: Option<CursorState>)
    ensures
        res == attached_cursor(suppressed, *runtime, area, rendered),
{
    if suppressed {
        return None;
    }
    match runtime.cursor_state(area) {
        Some(cursor) => Some(
            CursorState {
                x: cursor.x,
                y: cursor.y,
                visible: cursor.visible && !runtime.scrolled_back,
                shape: cursor.shape,
            },
        ),
        None => rendered,
    }
}

/// What happens to the cursor in a drawing.
pub enum CursorStep {
    /// A new drawing begins.
    Reset,
    Hide,
    SetTo(u16, u16),
}

/// Where the cursor was drawn, after one step more.
pub open spec fn drawn_after(rendered: Option<(u16, u16)>, step: CursorStep) -> Option<(u16, u16)> {
    match step {
        CursorStep::SetTo(x, y) => Some((x, y)),
        _ => None,
    }
}

/// The cursor that was drawn at a position, if it was.
pub open spec fn drawn_cursor(rendered: Option<(u16, u16)>) -> Option<CursorState> {
    match rendered {
        Some((x, y)) => Some(CursorState { x, y, visible: true, shape: 0 }),
        None => None,
    }
}

/// Follows the cursor through one drawing of the screen.
#[derive(Clone, Copy, Debug)]
pub struct CursorTracker {
    /// Column and row where a cursor was drawn.
    pub rendered: Option<(u16, u16)>,
}

impl CursorTracker {
    pub fn new() -> (res: Self)
        ensures
            res.rendered is None,
    {
        CursorTracker { rendered: None }
    }

    /// Forgets the cursor before a new drawing, which may set none.
    pub fn reset_cursor(&mut self)
        ensures
            final(self).rendered is None,
            final(self).rendered == drawn_after(old(self).rendered, CursorStep::Reset),
    {
        self.rendered = None;
    }

    /// The cursor is hidden.
    pub fn hide_cursor(&mut self)
        ensures
            final(self).rendered is None,
            final(self).rendered == drawn_after(old(self).rendered, CursorStep::Hide),
    {
        self.rendered = None;
    }

    /// The cursor is set.
    pub fn set_cursor_position(&mut self, x: u16, y: u16)
        ensures
            final(self).rendered == Some((x, y)),
            final(self).rendered == drawn_after(old(self).rendered, CursorStep::SetTo(x, y)),
    {
        self.rendered = Some((x, y));
    }

    /// The cursor that was drawn: a visible one of the default shape.
    pub fn rendered_cursor(&self) -> (res: Option<CursorState>)
        ensures
            res == (match self.rendered {
                Some((x, y)) => Some(CursorState { x, y, visible: true, shape: 0 }),
                None => None,
            }),
            res == drawn_cursor(self.rendered),
    {
        match self.rendered {
            Some((x, y)) => Some(CursorState { x, y, visible: true, shape: 0 }),
            None => None,
        }
    }
}

/// A pooled screen can serve for a size: it is there and has that size.
pub open spec fn serves(pooled: Option<(u16, u16)>, width: u16, height: u16) -> bool {
    pooled == Some((width, height))
}

/// Whether a pooled screen of some size, if there is one, can serve for another size.
pub fn pooled_screen_fits(pooled: Option<(u16, u16)>, width: u16, height: u16) -> (res: bool)
    ensures
        res == (pooled == Some((width, height))),
        res == serves(pooled, width, height),
{
    match pooled {
        Some((pooled_width, pooled_height)) => pooled_width == width && pooled_height == height,
        None => false,
    }
}

// ---------------------------------------------------------------------------
// Hyperlinks
// ---------------------------------------------------------------------------

/// The value of a cell that holds a hyperlink.
pub open spec fn link_view(link: LinkedCell) -> ((u16, u16), Seq<char>, Seq<char>) {
    (link.0, link.1@, link.2@)
}

/// The values of a list of such cells.
pub open spec fn link_views(links: Seq<LinkedCell>) -> Seq<((u16, u16), Seq<char>, Seq<char>)> {
    Seq::new(links.len(), |i: int| link_view(links[i]))
}

/// The linked cells of the first `n` panes, in the order of the panes: of each the
/// links that the terminal which the active tab attaches to it has in its rectangle.
pub open spec fn pane_links(
    infos: Seq<PaneInfo>,
    tab: app_view::Tab,
    registry: TerminalRuntimeRegistry,
    n: nat,
) -> Seq<((u16, u16), Seq<char>, Seq<char>)>
    decreases n,
{
    if n == 0 {
        Seq::empty()
    } else {
        let before = pane_links(infos, tab, registry, (n - 1) as nat);
        match app_view::tab_pane(tab, infos[n - 1].id) {
            Some(pane) => match app_view::runtime_of(registry, pane.terminal_id) {
                Some(runtime) => before + link_views(
                    app_view::links_in(runtime, infos[n - 1].inner_rect),
                ),
                None => before,
            },
            None => before,
        }
    }
}

/// The active tab of the active workspace.
pub open spec fn active_tab(app: AppState) -> Option<app_view::Tab> {
    match app.active {
        Some(ws_idx) => if ws_idx < app.workspaces@.len() {
            let workspace = app.workspaces@[ws_idx as int];
            if workspace.active_tab < workspace.tabs@.len() {
                Some(workspace.tabs@[workspace.active_tab as int])
            } else {
                None
            }
        } else {
            None
        },
        None => None,
    }
}

/// The linked cells of the panes of the active tab.
pub open spec fn visible_links(app: AppState, registry: TerminalRuntimeRegistry) -> Seq<
    ((u16, u16), Seq<char>, Seq<char>),
> {
    match active_tab(app) {
        Some(tab) => pane_links(app.pane_infos@, tab, registry, app.pane_infos@.len()),
        None => Seq::empty(),
    }
}

/// Appends copies of linked cells.
fn append_links(links: &mut Vec<LinkedCell>, more: &Vec<LinkedCell>)
    ensures
        link_views(final(links)@) == link_views(old(links)@) + link_views(more@),
{
    let ghost before = link_views(links@);
    for i in 0..more.len()
        invariant
            link_views(links@) == before + link_views(more@).take(i as int),
    {
        let ghost so_far = link_views(links@);
        let link = &more[i];
        links.push(((link.0.0, link.0.1), link.1.clone(), link.2.clone()));
        assert(link_views(links@) =~= so_far.push(link_view(more@[i as int])));
        assert(link_views(links@) =~= before + link_views(more@).take(i + 1));
    }
    assert(link_views(more@).take(more@.len() as int) =~= link_views(more@));
}

/// The linked cells of the panes of the active tab.
pub fn visible_hyperlinks(
    app_state: &AppState,
    terminal_runtimes: &TerminalRuntimeRegistry,
) -> (res: Vec<LinkedCell>)
    ensures
        link_views(res@) == visible_links(*app_state, *terminal_runtimes),
        link_views(res@) == (match active_tab(*app_state) {
            Some(tab) => pane_links(
                app_state.pane_infos@,
                tab,
                *terminal_runtimes,
                app_state.pane_infos@.len(),
            ),
            None => Seq::empty(),
        }),
{
    let mut links: Vec<LinkedCell> = Vec::new();
    assert(link_views(links@) =~= Seq::empty());
    let ws_idx: usize = match app_state.active {
        Some(ws_idx) => ws_idx,
        None => {
            return links;
        },
    };
    if ws_idx >= app_state.workspaces.len() {
        return links;
    }
    let tab = match app_state.workspaces[ws_idx].active_tab() {
        Some(tab) => tab,
        None => {
            return links;
        },
    };
    for i in 0..app_state.pane_infos.len()
        invariant
            link_views(links@) == pane_links(
                app_state.pane_infos@,
                *tab,
                *terminal_runtimes,
                i as nat,
            ),
    {
        let info = app_state.pane_infos[i];
        if let Some(terminal_id) = tab.terminal_id(info.id) {
            if let Some(runtime) = terminal_runtimes.get(terminal_id) {
                match runtime.view_in(info.inner_rect) {
                    Some(view) => append_links(&mut links, &view.hyperlinks),
                    None => {
                        assert(link_views(Seq::empty()) =~= Seq::empty());
                        assert(link_views(links@) =~= link_views(links@) + link_views(
                            Seq::empty(),
                        ));
                    },
                }
            }
        }
    }
    links
}

// ---------------------------------------------------------------------------
// Laws
// ---------------------------------------------------------------------------

/// A terminal in the middle of a synchronized update gives no cursor, and a cursor of
/// the focused terminal is there only if the host cursor belongs to it.
pub proof fn law_cursor_only_from_owning_terminal(
    app: AppState,
    registry: TerminalRuntimeRegistry,
)
    ensures
        focused_cursor(app, registry) is Some ==> (focused_terminal(app, registry) matches Some(
            (_, _, runtime),
        ) && !runtime.synchronized_output_active),
{
}

/// A terminal that shows its history never has a visible cursor, revealed or not.
pub proof fn law_scrolled_back_cursor_is_hidden(
    runtime: TerminalRuntime,
    info: PaneInfo,
    reveal: bool,
    reveal_shape: u8,
)
    requires
        runtime.scrolled_back,
    ensures
        terminal_cursor(runtime, info, reveal, reveal_shape) matches Some(cursor)
            ==> !cursor.visible,
{
}

/// A revealed terminal that shows its screen always gives a visible cursor in the shape
/// for input methods, whatever the terminal asks for.
pub proof fn law_revealed_cursor_is_visible(
    runtime: TerminalRuntime,
    info: PaneInfo,
    reveal_shape: u8,
)
    requires
        !runtime.scrolled_back,
    ensures
        terminal_cursor(runtime, info, true, reveal_shape) matches Some(cursor) && cursor.visible
            && cursor.shape == reveal_shape,
{
}

/// While the host cursor belongs to a terminal, the cursor that was drawn is never
/// shown in its place.
pub proof fn law_drawn_cursor_yields_to_terminal(
    suppressed_before: bool,
    suppressed_after: bool,
    app: AppState,
    registry: TerminalRuntimeRegistry,
    rendered: Option<CursorState>,
)
    requires
        focused_terminal(app, registry) is Some,
    ensures
        app_frame_cursor(suppressed_before, suppressed_after, app, registry, rendered)
            == app_frame_cursor(suppressed_before, suppressed_after, app, registry, None),
{
}

/// The cursor of a frame of one terminal. While it is suppressed there is none. A
/// terminal without a cursor leaves the one that was drawn. Else the cursor stands where
/// the terminal has it, in the terminal's shape, and is visible exactly if the terminal
/// shows it and does not show its history.
pub proof fn law_attached_cursor_is_the_terminals(
    suppressed: bool,
    runtime: TerminalRuntime,
    area: Rect,
    rendered: Option<CursorState>,
    v: int,
)
    requires
        app_view::seen_at(runtime, area, v),
    ensures
        suppressed ==> attached_cursor(suppressed, runtime, area, rendered) is None,
        !suppressed && runtime.views@[v].cursor is None ==> attached_cursor(
            suppressed,
            runtime,
            area,
            rendered,
        ) == rendered,
        !suppressed && runtime.views@[v].cursor is Some ==> {
            let own = runtime.views@[v].cursor.unwrap();
            &&& attached_cursor(suppressed, runtime, area, rendered) matches Some(cursor)
            &&& cursor.x == own.x && cursor.y == own.y && cursor.shape == own.shape
            &&& cursor.visible <==> own.visible && !runtime.scrolled_back
        },
{
    app_view::law_first_view_is_seen(runtime, area);
}

/// A terminal that is not seen in the area of a frame leaves the cursor that was drawn,
/// unless it is suppressed.
pub proof fn law_unseen_terminal_leaves_drawn_cursor(
    suppressed: bool,
    runtime: TerminalRuntime,
    area: Rect,
    rendered: Option<CursorState>,
)
    requires
        forall|v: int|
            0 <= v < runtime.views@.len() ==> (#[trigger] runtime.views@[v]).rect != area,
    ensures
        attached_cursor(suppressed, runtime, area, rendered) == if suppressed {
            None
        } else {
            rendered
        },
{
    app_view::law_first_view_is_seen(runtime, area);
}

/// The cursor of a terminal in its pane. It stands where the terminal has it. It is
/// visible exactly if the terminal shows it or it is revealed, and the terminal does not
/// show its history. It has the terminal's shape, unless it is revealed and visible.
pub proof fn law_terminal_cursor_is_the_terminals(
    runtime: TerminalRuntime,
    info: PaneInfo,
    reveal: bool,
    reveal_shape: u8,
    v: int,
)
    requires
        app_view::seen_at(runtime, info.inner_rect, v),
        runtime.views@[v].cursor is Some,
    ensures
        ({
            let own = runtime.views@[v].cursor.unwrap();
            &&& terminal_cursor(runtime, info, reveal, reveal_shape) matches Some(cursor)
            &&& cursor.x == own.x && cursor.y == own.y
            &&& cursor.visible <==> !runtime.scrolled_back && (own.visible || reveal)
            &&& !(reveal && !runtime.scrolled_back) ==> cursor.shape == own.shape
            &&& reveal && !runtime.scrolled_back ==> cursor.shape == reveal_shape
        }),
{
    app_view::law_first_view_is_seen(runtime, info.inner_rect);
}

/// A terminal that has no cursor in its pane gives none, unless it is revealed and shows
/// its screen: then the cursor stands in the first column and row of the pane.
pub proof fn law_missing_cursor_stands_in_corner(
    runtime: TerminalRuntime,
    info: PaneInfo,
    reveal: bool,
    reveal_shape: u8,
)
    requires
        forall|v: int| #[trigger]
            app_view::seen_at(runtime, info.inner_rect, v) ==> runtime.views@[v].cursor is None,
    ensures
        !reveal || runtime.scrolled_back ==> terminal_cursor(
            runtime,
            info,
            reveal,
            reveal_shape,
        ) is None,
        reveal && !runtime.scrolled_back ==> (terminal_cursor(
            runtime,
            info,
            reveal,
            reveal_shape,
        ) matches Some(cursor) && cursor.x == info.inner_rect.x && cursor.y == info.inner_rect.y
            && cursor.visible && cursor.shape == reveal_shape),
{
    app_view::law_first_view_is_seen(runtime, info.inner_rect);
    let p = |view: app_view::TerminalView| view.rect == info.inner_rect;
    if exists|v: int| 0 <= v < runtime.views@.len() && p(#[trigger] runtime.views@[v]) {
        let v = app_view::lemma_first_index(runtime.views@, p);
        assert forall|j: int| 0 <= j < v implies (#[trigger] runtime.views@[j]).rect
            != info.inner_rect by {
            assert(!p(runtime.views@[j]));
        }
        assert(app_view::seen_at(runtime, info.inner_rect, v));
    } else {
        assert forall|v: int| 0 <= v < runtime.views@.len() implies (#[trigger] runtime.views@[v]).rect
            != info.inner_rect by {
            assert(!p(runtime.views@[v]));
        }
    }
}

/// The first pane that is marked as focused has index `i`.
pub open spec fn focused_at(app: AppState, i: int) -> bool {
    &&& 0 <= i < app.pane_infos@.len()
    &&& app.pane_infos@[i].is_focused
    &&& forall|j: int| 0 <= j < i ==> !(#[trigger] app.pane_infos@[j]).is_focused
}

/// The focused pane is the first that is marked so, and there is none if none is.
pub proof fn law_first_focused_pane(app: AppState)
    ensures
        forall|i: int| #[trigger]
            focused_at(app, i) ==> focused_pane(app) == Some(app.pane_infos@[i]),
        (forall|i: int|
            0 <= i < app.pane_infos@.len() ==> !(#[trigger] app.pane_infos@[i]).is_focused)
            ==> focused_pane(app) is None,
{
    let p = |info: PaneInfo| info.is_focused;
    assert forall|i: int| #[trigger] focused_at(app, i) implies focused_pane(app) == Some(
        app.pane_infos@[i],
    ) by {
        app_view::lemma_first_at(app.pane_infos@, p, i);
    }
    if forall|i: int|
        0 <= i < app.pane_infos@.len() ==> !(#[trigger] app.pane_infos@[i]).is_focused {
        app_view::lemma_first_none(app.pane_infos@, p);
    }
}

/// The host cursor belongs to the terminal of the focused pane in the active workspace
/// exactly if the keyboard is attached to it, the pane exposes its cursor and the
/// terminal runs.
pub proof fn law_host_cursor_belongs_to_focused_pane(
    app: AppState,
    registry: TerminalRuntimeRegistry,
    ws_idx: usize,
    i: int,
    t: int,
    k: int,
)
    requires
        app.active == Some(ws_idx),
        ws_idx < app.workspaces@.len(),
        focused_at(app, i),
        app_view::placed_at(app.workspaces@[ws_idx as int], app.pane_infos@[i].id, t, k),
    ensures
        ({
            let pane = app.workspaces@[ws_idx as int].tabs@[t].panes@[k];
            let runs = registry.runtimes@.dom().contains(pane.terminal_id);
            &&& app.mode == Mode::Terminal && pane.exposes_host_cursor && runs
                ==> focused_terminal(app, registry) == Some(
                (ws_idx, app.pane_infos@[i], registry.runtimes@[pane.terminal_id]),
            )
            &&& app.mode != Mode::Terminal || !pane.exposes_host_cursor || !runs
                ==> focused_terminal(app, registry) is None
        }),
{
    law_first_focused_pane(app);
    app_view::law_first_pane_of_workspace(app, ws_idx, app.pane_infos@[i].id);
}

/// The host cursor belongs to no terminal if no workspace is active, if no pane has the
/// focus, or if the active workspace does not have the focused pane.
pub proof fn law_host_cursor_belongs_to_none(
    app: AppState,
    registry: TerminalRuntimeRegistry,
    id: app_view::PaneId,
)
    requires
        ({
            ||| app.active is None
            ||| forall|i: int|
                0 <= i < app.pane_infos@.len() ==> !(#[trigger] app.pane_infos@[i]).is_focused
            ||| app.active matches Some(ws_idx) && ws_idx >= app.workspaces@.len()
            ||| app.active matches Some(ws_idx) && (exists|i: int|
                focused_at(app, i) && app.pane_infos@[i].id == id) && forall|t: int|
                0 <= t < app.workspaces@[ws_idx as int].tabs@.len() ==> app_view::pane_absent(
                    #[trigger] app.workspaces@[ws_idx as int].tabs@[t],
                    id,
                )
        }),
    ensures
        focused_terminal(app, registry) is None,
        focused_cursor(app, registry) is None,
{
    law_first_focused_pane(app);
    if let Some(ws_idx) = app.active {
        if let Some(info) = focused_pane(app) {
            app_view::law_first_pane_of_workspace(app, ws_idx, info.id);
        }
    }
}

/// Whether a pane's cursor is revealed: never while that is switched off; always while it
/// is switched on without a filter; with a filter, exactly if the terminal of the pane
/// has a detected agent that the filter lists.
pub proof fn law_filter_decides_reveal(
    app: AppState,
    ws_idx: usize,
    info: PaneInfo,
    t: int,
    k: int,
)
    requires
        ws_idx < app.workspaces@.len(),
        app_view::placed_at(app.workspaces@[ws_idx as int], info.id, t, k),
    ensures
        !app.reveal_hidden_cursor_for_cjk_ime ==> !reveals(app, ws_idx, info),
        app.reveal_hidden_cursor_for_cjk_ime && !app.cjk_ime_agent_filter_configured ==> reveals(
            app,
            ws_idx,
            info,
        ),
        app.reveal_hidden_cursor_for_cjk_ime && app.cjk_ime_agent_filter_configured ==> {
            let id = app.workspaces@[ws_idx as int].tabs@[t].panes@[k].terminal_id;
            reveals(app, ws_idx, info) <==> app.terminals@.dom().contains(id) && exists|j: int|
                0 <= j < app.cjk_ime_agents@.len() && app.terminals@[id].detected_agent == Some(
                    #[trigger] app.cjk_ime_agents@[j],
                )
        },
{
    app_view::law_first_pane_of_workspace(app, ws_idx, info.id);
}

/// The cursor of a frame of the whole application: none while it is suppressed, before or
/// after the layout; the one that was drawn if the host cursor belongs to no terminal;
/// none if it belongs to one in the middle of a synchronized update; else that of the
/// terminal it belongs to.
pub proof fn law_frame_cursor_cases(
    suppressed_before: bool,
    suppressed_after: bool,
    app: AppState,
    registry: TerminalRuntimeRegistry,
    rendered: Option<CursorState>,
)
    ensures
        suppressed_before || suppressed_after ==> app_frame_cursor(
            suppressed_before,
            suppressed_after,
            app,
            registry,
            rendered,
        ) is None,
        !suppressed_before && !suppressed_after && focused_terminal(app, registry) is None
            ==> app_frame_cursor(suppressed_before, suppressed_after, app, registry, rendered)
            == rendered,
        !suppressed_before && !suppressed_after && focused_terminal(app, registry) is Some ==> {
            let (ws_idx, info, runtime) = focused_terminal(app, registry).unwrap();
            let cursor = app_frame_cursor(
                suppressed_before,
                suppressed_after,
                app,
                registry,
                rendered,
            );
            &&& runtime.synchronized_output_active ==> cursor is None
            &&& !runtime.synchronized_output_active ==> cursor == terminal_cursor(
                runtime,
                info,
                reveals(app, ws_idx, info),
                app.cjk_ime_cursor_shape,
            )
        },
{
}

/// The links that are visible depend on the active workspace alone: two applications
/// with the same panes, whose active workspaces are the same, have the same links,
/// whatever their other workspaces hold and wherever the active one stands.
pub proof fn law_links_of_active_workspace_only(
    app: AppState,
    other: AppState,
    registry: TerminalRuntimeRegistry,
    i: usize,
    j: usize,
)
    requires
        app.active == Some(i),
        other.active == Some(j),
        i < app.workspaces@.len(),
        j < other.workspaces@.len(),
        app.workspaces@[i as int] == other.workspaces@[j as int],
        app.pane_infos@ == other.pane_infos@,
    ensures
        visible_links(app, registry) == visible_links(other, registry),
{
}

/// No links are visible without an active workspace, with an index that no workspace
/// has, or with an active tab that the workspace does not have.
pub proof fn law_no_active_tab_has_no_links(app: AppState, registry: TerminalRuntimeRegistry)
    requires
        app.active matches Some(i) ==> i < app.workspaces@.len()
            ==> app.workspaces@[i as int].active_tab >= app.workspaces@[i as int].tabs@.len(),
    ensures
        visible_links(app, registry) == Seq::<((u16, u16), Seq<char>, Seq<char>)>::empty(),
{
}

/// The links that a pane contributes: those of the first view, in the pane's rectangle,
/// of the running terminal of the first pane of the tab that has the identifier.
pub open spec fn contributes(
    tab: app_view::Tab,
    registry: TerminalRuntimeRegistry,
    info: PaneInfo,
    k: int,
    v: int,
) -> bool {
    &&& app_view::paned_at(tab, info.id, k)
    &&& registry.runtimes@.dom().contains(tab.panes@[k].terminal_id)
    &&& app_view::seen_at(registry.runtimes@[tab.panes@[k].terminal_id], info.inner_rect, v)
}

/// The linked cells behind [`contributes`].
pub open spec fn contributed(
    tab: app_view::Tab,
    registry: TerminalRuntimeRegistry,
    k: int,
    v: int,
) -> Seq<LinkedCell> {
    registry.runtimes@[tab.panes@[k].terminal_id].views@[v].hyperlinks@
}

/// One pane more adds exactly the links that it contributes, behind those of the panes
/// before it; a pane that contributes nothing adds nothing.
pub proof fn law_links_follow_panes(
    infos: Seq<PaneInfo>,
    tab: app_view::Tab,
    registry: TerminalRuntimeRegistry,
    n: nat,
)
    requires
        n < infos.len(),
    ensures
        pane_links(infos, tab, registry, 0).len() == 0,
        forall|k: int, v: int| #[trigger]
            contributes(tab, registry, infos[n as int], k, v) ==> {
                let before = pane_links(infos, tab, registry, n);
                let after = pane_links(infos, tab, registry, n + 1);
                let links = contributed(tab, registry, k, v);
                &&& after.len() == before.len() + links.len()
                &&& after.take(before.len() as int) == before
                &&& forall|l: int|
                    0 <= l < links.len() ==> #[trigger] after[before.len() + l] == (
                        links[l].0,
                        links[l].1@,
                        links[l].2@,
                    )
            },
        (forall|k: int, v: int| !contributes(tab, registry, infos[n as int], k, v)) ==> pane_links(
            infos,
            tab,
            registry,
            n + 1,
        ) == pane_links(infos, tab, registry, n),
{
    let info = infos[n as int];
    let before = pane_links(infos, tab, registry, n);
    let after = pane_links(infos, tab, registry, n + 1);
    app_view::law_first_pane_of_tab(tab, info.id);
    assert forall|k: int, v: int| #[trigger]
        contributes(tab, registry, infos[n as int], k, v) implies after == before + link_views(
        contributed(tab, registry, k, v),
    ) && after.take(before.len() as int) == before by {
        let runtime = registry.runtimes@[tab.panes@[k].terminal_id];
        app_view::law_first_view_is_seen(runtime, info.inner_rect);
        assert(after.take(before.len() as int) =~= before);
    }
    if forall|k: int, v: int| !contributes(tab, registry, infos[n as int], k, v) {
        lemma_no_contribution(infos, tab, registry, n);
    }
}

proof fn lemma_no_contribution(
    infos: Seq<PaneInfo>,
    tab: app_view::Tab,
    registry: TerminalRuntimeRegistry,
    n: nat,
)
    requires
        n < infos.len(),
        forall|k: int, v: int| !contributes(tab, registry, infos[n as int], k, v),
    ensures
        pane_links(infos, tab, registry, n + 1) == pane_links(infos, tab, registry, n),
{
    let info = infos[n as int];
    let before = pane_links(infos, tab, registry, n);
    app_view::law_first_pane_of_tab(tab, info.id);
    let same_id = |pane: app_view::TabPane| pane.id == info.id;
    if !app_view::pane_absent(tab, info.id) {
        let k = app_view::lemma_first_index(tab.panes@, same_id);
        assert forall|j: int| 0 <= j < k implies (#[trigger] tab.panes@[j]).id != info.id by {
            assert(!same_id(tab.panes@[j]));
        }
        assert(app_view::paned_at(tab, info.id, k));
        let id = tab.panes@[k].terminal_id;
        if registry.runtimes@.dom().contains(id) {
            let runtime = registry.runtimes@[id];
            app_view::law_first_view_is_seen(runtime, info.inner_rect);
            let same_rect = |view: app_view::TerminalView| view.rect == info.inner_rect;
            if exists|v: int| 0 <= v < runtime.views@.len() && same_rect(#[trigger] runtime.views@[v]) {
                let v = app_view::lemma_first_index(runtime.views@, same_rect);
                assert forall|j: int| 0 <= j < v implies (#[trigger] runtime.views@[j]).rect
                    != info.inner_rect by {
                    assert(!same_rect(runtime.views@[j]));
                }
                assert(app_view::seen_at(runtime, info.inner_rect, v));
                assert(contributes(tab, registry, infos[n as int], k, v));
            } else {
                assert forall|v: int| 0 <= v < runtime.views@.len() implies (
                #[trigger] runtime.views@[v]).rect != info.inner_rect by {
                    assert(!same_rect(runtime.views@[v]));
                }
                assert(before + link_views(app_view::links_in(runtime, info.inner_rect))
                    =~= before);
            }
        }
    }
}

proof fn lemma_pane_links_contain(
    infos: Seq<PaneInfo>,
    tab: app_view::Tab,
    registry: TerminalRuntimeRegistry,
    n: nat,
    p: int,
    k: int,
    v: int,
    l: int,
)
    requires
        0 <= p < n <= infos.len(),
        contributes(tab, registry, infos[p], k, v),
        0 <= l < contributed(tab, registry, k, v).len(),
    ensures
        pane_links(infos, tab, registry, n).contains(
            link_view(contributed(tab, registry, k, v)[l]),
        ),
    decreases n,
{
    let link = contributed(tab, registry, k, v)[l];
    let before = pane_links(infos, tab, registry, (n - 1) as nat);
    let after = pane_links(infos, tab, registry, n);
    if p == n - 1 {
        law_links_follow_panes(infos, tab, registry, p as nat);
        assert(after[before.len() + l] == link_view(link));
    } else {
        lemma_pane_links_contain(infos, tab, registry, (n - 1) as nat, p, k, v, l);
        let at = choose|at: int| 0 <= at < before.len() && before[at] == link_view(link);
        assert(after[at] == before[at]);
    }
}

/// Every link of a terminal that the active tab of the active workspace attaches to a
/// listed pane is visible, if the terminal is seen in the pane's rectangle.
pub proof fn law_attached_links_are_visible(
    app: AppState,
    registry: TerminalRuntimeRegistry,
    i: usize,
    p: int,
    k: int,
    v: int,
    l: int,
)
    requires
        app.active == Some(i),
        i < app.workspaces@.len(),
        app.workspaces@[i as int].active_tab < app.workspaces@[i as int].tabs@.len(),
        0 <= p < app.pane_infos@.len(),
        ({
            let workspace = app.workspaces@[i as int];
            let tab = workspace.tabs@[workspace.active_tab as int];
            &&& contributes(tab, registry, app.pane_infos@[p], k, v)
            &&& 0 <= l < contributed(tab, registry, k, v).len()
        }),
    ensures
        ({
            let workspace = app.workspaces@[i as int];
            let tab = workspace.tabs@[workspace.active_tab as int];
            let link = contributed(tab, registry, k, v)[l];
            visible_links(app, registry).contains((link.0, link.1@, link.2@))
        }),
{
    let workspace = app.workspaces@[i as int];
    let tab = workspace.tabs@[workspace.active_tab as int];
    lemma_pane_links_contain(
        app.pane_infos@,
        tab,
        registry,
        app.pane_infos@.len(),
        p,
        k,
        v,
        l,
    );
}

/// The visible links are those of all listed panes in the active tab of the active
/// workspace.
pub proof fn law_visible_links_are_those_of_all_panes(
    app: AppState,
    registry: TerminalRuntimeRegistry,
    i: usize,
)
    requires
        app.active == Some(i),
        i < app.workspaces@.len(),
        app.workspaces@[i as int].active_tab < app.workspaces@[i as int].tabs@.len(),
    ensures
        visible_links(app, registry) == pane_links(
            app.pane_infos@,
            app.workspaces@[i as int].tabs@[app.workspaces@[i as int].active_tab as int],
            registry,
            app.pane_infos@.len(),
        ),
{
}

/// The host cursor is suppressed exactly while the terminal that it belongs to is in the
/// middle of a synchronized update, and then there is no cursor of the focused terminal.
pub proof fn law_synchronized_terminal_suppresses(
    app: AppState,
    registry: TerminalRuntimeRegistry,
    ws_idx: usize,
    i: int,
    t: int,
    k: int,
)
    requires
        app.active == Some(ws_idx),
        ws_idx < app.workspaces@.len(),
        focused_at(app, i),
        app_view::placed_at(app.workspaces@[ws_idx as int], app.pane_infos@[i].id, t, k),
    ensures
        ({
            let pane = app.workspaces@[ws_idx as int].tabs@[t].panes@[k];
            &&& suppresses(app, registry) <==> app.mode == Mode::Terminal
                && pane.exposes_host_cursor && registry.runtimes@.dom().contains(pane.terminal_id)
                && registry.runtimes@[pane.terminal_id].synchronized_output_active
            &&& suppresses(app, registry) ==> focused_cursor(app, registry) is None
        }),
{
    law_host_cursor_belongs_to_focused_pane(app, registry, ws_idx, i, t, k);
}

/// The cursor that was drawn is where it was last set, visible and in the default shape.
/// Once it was hidden, or a new drawing began, there is none until it is set again.
pub proof fn law_drawn_cursor_is_last_set(rendered: Option<(u16, u16)>, x: u16, y: u16)
    ensures
        drawn_cursor(drawn_after(rendered, CursorStep::SetTo(x, y))) matches Some(cursor) && cursor.x
            == x && cursor.y == y && cursor.visible && cursor.shape == 0,
        drawn_cursor(drawn_after(rendered, CursorStep::Hide)) is None,
        drawn_cursor(drawn_after(rendered, CursorStep::Reset)) is None,
        drawn_cursor(None) is None,
{
}

/// A pooled screen serves its own width and height and no other.
pub proof fn law_pooled_screen_serves_own_size(
    pooled_width: u16,
    pooled_height: u16,
    width: u16,
    height: u16,
)
    ensures
        serves(Some((pooled_width, pooled_height)), width, height) <==> pooled_width == width
            && pooled_height == height,
        !serves(None, width, height),
{
}

} // verus!
