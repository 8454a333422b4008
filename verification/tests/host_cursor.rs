//! Tests of the choice of the host cursor and of visible hyperlinks.

use std::collections::BTreeMap;

use herdr_render::app_view::{
    Agent, AppState, Mode, PaneId, PaneInfo, Rect, Tab, TabPane, TerminalInfo, TerminalRuntime,
    TerminalRuntimeRegistry, TerminalView, Workspace,
};
use herdr_render::host_cursor::{
    focused_terminal_cursor, focused_terminal_owns_host_cursor,
    focused_terminal_suppresses_host_cursor, pooled_screen_fits, select_attached_cursor,
    select_frame_cursor, visible_hyperlinks, CursorTracker,
};
use herdr_render::protocol::CursorState;

const EDITOR: Agent = Agent(1);
const SHELL: Agent = Agent(2);
const INNER: Rect = Rect { x: 10, y: 20, width: 30, height: 5 };

fn tab_pane(id: u32, terminal_id: u64) -> TabPane {
    TabPane { id: PaneId(id), terminal_id, exposes_host_cursor: true }
}

fn pane_info(id: u32, is_focused: bool) -> PaneInfo {
    PaneInfo {
        id: PaneId(id),
        inner_rect: INNER,
        is_focused,
    }
}

fn app() -> AppState {
    let mut terminals = BTreeMap::new();
    terminals.insert(100, TerminalInfo { detected_agent: Some(EDITOR) });
    terminals.insert(200, TerminalInfo { detected_agent: None });
    AppState {
        mode: Mode::Terminal,
        active: Some(0),
        workspaces: vec![Workspace {
            tabs: vec![
                Tab { panes: vec![tab_pane(1, 100), tab_pane(2, 200)] },
                Tab { panes: vec![tab_pane(3, 300)] },
            ],
            active_tab: 0,
        }],
        pane_infos: vec![pane_info(1, false), pane_info(2, false), pane_info(1, true)],
        terminals,
        reveal_hidden_cursor_for_cjk_ime: false,
        cjk_ime_agent_filter_configured: false,
        cjk_ime_agents: Vec::new(),
        cjk_ime_cursor_shape: 6,
    }
}

fn runtime(cursor: Option<CursorState>) -> TerminalRuntime {
    TerminalRuntime {
        synchronized_output_active: false,
        scrolled_back: false,
        views: vec![TerminalView { rect: INNER, cursor, hyperlinks: Vec::new() }],
    }
}

fn registry(runtime: TerminalRuntime) -> TerminalRuntimeRegistry {
    let mut runtimes = TerminalRuntimeRegistry::new();
    runtimes.runtimes.insert(100, runtime);
    runtimes
}

fn cursor(visible: bool) -> CursorState {
    CursorState { x: 12, y: 21, visible, shape: 2 }
}

#[test]
fn focused_terminal_gives_its_cursor() {
    let app = app();
    let runtimes = registry(runtime(Some(cursor(true))));
    assert_eq!(focused_terminal_cursor(&app, &runtimes), Some(cursor(true)));
    assert!(focused_terminal_owns_host_cursor(&app, &runtimes));
    assert!(!focused_terminal_suppresses_host_cursor(&app, &runtimes));
}

#[test]
fn a_hidden_cursor_stays_hidden_unless_revealed() {
    let mut app = app();
    let runtimes = registry(runtime(Some(cursor(false))));
    assert_eq!(focused_terminal_cursor(&app, &runtimes), Some(cursor(false)));
    app.reveal_hidden_cursor_for_cjk_ime = true;
    assert_eq!(
        focused_terminal_cursor(&app, &runtimes),
        Some(CursorState { x: 12, y: 21, visible: true, shape: 6 })
    );
}

#[test]
fn the_agent_filter_limits_what_is_revealed() {
    let mut app = app();
    let runtimes = registry(runtime(Some(cursor(false))));
    app.reveal_hidden_cursor_for_cjk_ime = true;
    app.cjk_ime_agent_filter_configured = true;
    assert_eq!(focused_terminal_cursor(&app, &runtimes), Some(cursor(false)));
    app.cjk_ime_agents = vec![SHELL];
    assert_eq!(focused_terminal_cursor(&app, &runtimes), Some(cursor(false)));
    app.cjk_ime_agents = vec![SHELL, EDITOR];
    assert!(focused_terminal_cursor(&app, &runtimes).unwrap().visible);
    app.terminals.insert(100, TerminalInfo { detected_agent: None });
    assert_eq!(focused_terminal_cursor(&app, &runtimes), Some(cursor(false)));
    app.terminals.clear();
    assert_eq!(focused_terminal_cursor(&app, &runtimes), Some(cursor(false)));
}

#[test]
fn history_hides_the_cursor_even_when_revealed() {
    let mut app = app();
    let mut scrolled = runtime(Some(cursor(true)));
    scrolled.scrolled_back = true;
    let runtimes = registry(scrolled);
    assert_eq!(focused_terminal_cursor(&app, &runtimes), Some(cursor(false)));
    app.reveal_hidden_cursor_for_cjk_ime = true;
    assert_eq!(focused_terminal_cursor(&app, &runtimes), Some(cursor(false)));
}

#[test]
fn a_revealed_cursor_without_position_stands_in_the_corner() {
    let mut app = app();
    let runtimes = registry(runtime(None));
    assert_eq!(focused_terminal_cursor(&app, &runtimes), None);
    app.reveal_hidden_cursor_for_cjk_ime = true;
    assert_eq!(
        focused_terminal_cursor(&app, &runtimes),
        Some(CursorState { x: 10, y: 20, visible: true, shape: 6 })
    );
    let mut scrolled = runtime(None);
    scrolled.scrolled_back = true;
    assert_eq!(focused_terminal_cursor(&app, &registry(scrolled)), None);
}

#[test]
fn no_terminal_owns_the_cursor_without_mode_workspace_focus_exposure_or_runtime() {
    let running = || registry(runtime(Some(cursor(true))));

    let mut other_mode = app();
    other_mode.mode = Mode::Other;
    let mut inactive = app();
    inactive.active = None;
    let mut missing_workspace = app();
    missing_workspace.active = Some(1);
    let mut unfocused = app();
    unfocused.pane_infos.pop();
    let mut unexposed = app();
    unexposed.workspaces[0].tabs[0].panes[0].exposes_host_cursor = false;
    let mut not_running = app();
    not_running.workspaces[0].tabs[0].panes[0].terminal_id = 101;

    for app in [&other_mode, &inactive, &missing_workspace, &unfocused, &unexposed, &not_running] {
        assert!(!focused_terminal_owns_host_cursor(app, &running()));
        assert!(!focused_terminal_suppresses_host_cursor(app, &running()));
        assert_eq!(focused_terminal_cursor(app, &running()), None);
        let drawn = Some(CursorState { x: 1, y: 1, visible: true, shape: 0 });
        assert_eq!(select_frame_cursor(false, false, app, &running(), drawn), drawn);
    }
}

#[test]
fn a_synchronized_update_suppresses_the_cursor() {
    let app = app();
    let mut updating = runtime(Some(cursor(true)));
    updating.synchronized_output_active = true;
    let runtimes = registry(updating);
    assert!(focused_terminal_owns_host_cursor(&app, &runtimes));
    assert!(focused_terminal_suppresses_host_cursor(&app, &runtimes));
    assert_eq!(focused_terminal_cursor(&app, &runtimes), None);
    let drawn = Some(cursor(true));
    assert_eq!(select_frame_cursor(true, false, &app, &runtimes, drawn), None);
    assert_eq!(select_frame_cursor(false, true, &app, &runtimes, drawn), None);
    assert_eq!(select_frame_cursor(false, false, &app, &runtimes, drawn), None);
}

#[test]
fn frame_cursor_prefers_the_terminal() {
    let app = app();
    let drawn = Some(CursorState { x: 0, y: 0, visible: true, shape: 0 });
    let runtimes = registry(runtime(Some(cursor(true))));
    assert_eq!(select_frame_cursor(false, false, &app, &runtimes, drawn), Some(cursor(true)));
    assert_eq!(select_frame_cursor(true, false, &app, &runtimes, drawn), None);
    assert_eq!(select_frame_cursor(false, true, &app, &runtimes, drawn), None);
    let positionless = registry(runtime(None));
    assert_eq!(select_frame_cursor(false, false, &app, &positionless, drawn), None);
}

#[test]
fn attached_terminal_gives_its_cursor_or_the_drawn_one() {
    let drawn = Some(CursorState { x: 3, y: 4, visible: true, shape: 0 });
    let mut terminal = runtime(Some(cursor(true)));
    assert_eq!(select_attached_cursor(false, &terminal, INNER, drawn), Some(cursor(true)));
    terminal.scrolled_back = true;
    assert_eq!(select_attached_cursor(false, &terminal, INNER, drawn), Some(cursor(false)));
    assert_eq!(select_attached_cursor(true, &terminal, INNER, drawn), None);
    terminal.views[0].cursor = None;
    assert_eq!(select_attached_cursor(false, &terminal, INNER, drawn), drawn);
    let elsewhere = Rect { x: 0, ..INNER };
    assert_eq!(select_attached_cursor(false, &terminal, elsewhere, drawn), drawn);
}

#[test]
fn a_terminal_in_two_panes_is_seen_in_each_by_itself() {
    let left = Rect { x: 0, y: 0, width: 5, height: 2 };
    let link = |x: u16| ((x, 0), "text".to_owned(), "target".to_owned());
    let mut terminal = runtime(Some(cursor(true)));
    terminal.views[0].hyperlinks = vec![link(10)];
    terminal.views.push(TerminalView {
        rect: left,
        cursor: Some(CursorState { x: 1, y: 1, visible: true, shape: 3 }),
        hyperlinks: vec![link(0), link(1)],
    });
    let mut app = app();
    app.workspaces[0].tabs[0].panes[1].terminal_id = 100;
    app.pane_infos = vec![
        PaneInfo { inner_rect: left, ..pane_info(2, true) },
        pane_info(1, false),
    ];
    let runtimes = registry(terminal);
    assert_eq!(
        focused_terminal_cursor(&app, &runtimes),
        Some(CursorState { x: 1, y: 1, visible: true, shape: 3 })
    );
    assert_eq!(visible_hyperlinks(&app, &runtimes), vec![link(0), link(1), link(10)]);
    app.pane_infos[0].is_focused = false;
    app.pane_infos[1].is_focused = true;
    assert_eq!(focused_terminal_cursor(&app, &runtimes), Some(cursor(true)));
    app.pane_infos[0].inner_rect.width = 6;
    assert_eq!(visible_hyperlinks(&app, &runtimes), vec![link(10)]);
}

#[test]
fn drawn_cursor_is_followed() {
    let mut tracker = CursorTracker::new();
    assert_eq!(tracker.rendered_cursor(), None);
    tracker.set_cursor_position(7, 8);
    assert_eq!(
        tracker.rendered_cursor(),
        Some(CursorState { x: 7, y: 8, visible: true, shape: 0 })
    );
    tracker.hide_cursor();
    assert_eq!(tracker.rendered_cursor(), None);
    tracker.set_cursor_position(1, 2);
    tracker.reset_cursor();
    assert_eq!(tracker.rendered_cursor(), None);
}

#[test]
fn pooled_screens_serve_their_own_size_only() {
    assert!(pooled_screen_fits(Some((80, 24)), 80, 24));
    assert!(!pooled_screen_fits(Some((80, 24)), 24, 80));
    assert!(!pooled_screen_fits(Some((80, 24)), 80, 25));
    assert!(!pooled_screen_fits(None, 80, 24));
}

#[test]
fn hyperlinks_come_from_the_panes_of_the_active_tab() {
    let mut app = app();
    app.pane_infos = vec![pane_info(2, false), pane_info(3, false), pane_info(1, true)];
    let link = |x: u16, text: &str| ((x, 0), text.to_owned(), format!("https://{text}"));
    let mut runtimes = TerminalRuntimeRegistry::new();
    for (id, text) in [(100, "first"), (200, "second"), (300, "third")] {
        let mut running = runtime(None);
        running.views[0].hyperlinks = vec![link(0, text), link(1, text)];
        runtimes.runtimes.insert(id, running);
    }
    assert_eq!(
        visible_hyperlinks(&app, &runtimes),
        vec![link(0, "second"), link(1, "second"), link(0, "first"), link(1, "first")]
    );
    app.workspaces[0].active_tab = 1;
    assert_eq!(visible_hyperlinks(&app, &runtimes), vec![link(0, "third"), link(1, "third")]);
    app.workspaces[0].active_tab = 2;
    assert!(visible_hyperlinks(&app, &runtimes).is_empty());
    app.active = Some(7);
    assert!(visible_hyperlinks(&app, &runtimes).is_empty());
    app.active = None;
    assert!(visible_hyperlinks(&app, &runtimes).is_empty());
}
