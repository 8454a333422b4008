//! Tests of the profiler.

use herdr_render::app_view::PaneId;
use herdr_render::render_prof::{
    counter, duration, duration_since, enabled, event, flush_if_due, pane_counter, pane_duration,
    pane_duration_since, pane_event, timer, ProfState, ProfUpdate, RenderProfiler, WINDOW_NS,
};

const SECOND: u128 = 1_000_000_000;

#[test]
fn settings_that_turn_profiling_on() {
    for setting in ["1", "true", "yes", "on"] {
        assert!(enabled(Some(setting)));
    }
    for setting in ["", "0", "2", "TRUE", "True", "On", "yes ", "off", "no", "11"] {
        assert!(!enabled(Some(setting)), "{setting:?}");
    }
    assert!(!enabled(None));
}

#[test]
fn report_lists_entries_in_the_order_of_their_names() {
    let mut profiler = RenderProfiler::new(5);
    profiler.increment("b", 2);
    profiler.increment("a.z", 1);
    profiler.increment("a", 40);
    profiler.increment("b", 3);
    profiler.increment_pane(10, "x", 1);
    profiler.increment_pane(9, "y", 7);
    profiler.increment_pane(9, "x", 6);
    assert!(profiler.flush_if_due(SECOND + 4).is_none());
    let report = profiler.flush_if_due(SECOND + 5).expect("the window is over");
    assert_eq!(report.window_ms, 1000);
    assert_eq!(report.counters, "a=40,a.z=1,b=5");
    assert_eq!(report.pane_counters, "pane.9.x=6,pane.9.y=7,pane.10.x=1");
    assert_eq!(report.durations, "");
    assert_eq!(report.pane_durations, "");
}

#[test]
fn report_gives_average_and_maximum_in_microseconds() {
    let mut profiler = RenderProfiler::new(0);
    profiler.duration("encode", 1_500);
    profiler.duration("encode", 4_000);
    profiler.duration("encode", 2_499);
    profiler.duration("blit", 999);
    profiler.pane_duration(3, "draw", 7_000_000);
    let report = profiler.flush_if_due(1_234_567_890).expect("the window is over");
    assert_eq!(report.window_ms, 1234);
    assert_eq!(
        report.durations,
        "blit=count:1 avg_us:0 max_us:0,encode=count:3 avg_us:2 max_us:4"
    );
    assert_eq!(report.pane_durations, "pane.3.draw=count:1 avg_us:7000 max_us:7000");
    assert_eq!(report.counters, "");
}

#[test]
fn reporting_starts_an_empty_window() {
    let mut profiler = RenderProfiler::new(0);
    profiler.increment("a", 1);
    profiler.duration("d", 1);
    assert!(profiler.flush_if_due(2 * SECOND).is_some());
    assert!(profiler.flush_if_due(3 * SECOND - 1).is_none());
    let report = profiler.flush_if_due(3 * SECOND).expect("the next window is over");
    assert_eq!(report.window_ms, 1000);
    assert_eq!(report.counters, "");
    assert_eq!(report.durations, "");

    profiler.restart_window(10 * SECOND);
    assert!(profiler.flush_if_due(11 * SECOND - 1).is_none());
    assert!(profiler.flush_if_due(11 * SECOND).is_some());
    assert_eq!(WINDOW_NS, SECOND);
}

#[test]
fn a_clock_that_runs_backwards_is_not_due() {
    let mut profiler = RenderProfiler::new(5 * SECOND);
    assert!(profiler.flush_if_due(0).is_none());
}

#[test]
fn nothing_is_recorded_unless_enabled() {
    let mut state = ProfState::new(false);
    assert!(!state.is_enabled());
    assert_eq!(timer(&state, 7), None);
    counter(&mut state, "a", 1, 0);
    event(&mut state, "a", 0);
    duration(&mut state, "d", 5, 0);
    assert!(flush_if_due(&mut state, 9 * SECOND).is_none());
    assert!(state.accepts(ProfUpdate::Counter { name: "a", value: u64::MAX }, 0));
}

#[test]
fn enabled_state_records_everything() {
    let mut state = ProfState::new(true);
    assert!(state.is_enabled());
    assert_eq!(timer(&state, 7), Some(7));
    event(&mut state, "e", 100);
    event(&mut state, "e", 200);
    counter(&mut state, "c", 5, 200);
    pane_counter(&mut state, PaneId(4), "c", 6, 200);
    pane_event(&mut state, PaneId(4), "e", 200);
    duration(&mut state, "d", 3_000, 200);
    pane_duration(&mut state, PaneId(4), "d", 4_000, 200);
    duration_since(&mut state, "s", Some(1_000), 6_000);
    duration_since(&mut state, "never", None, 6_000);
    pane_duration_since(&mut state, PaneId(5), "s", Some(9_000), 8_000);
    pane_duration_since(&mut state, PaneId(5), "never", None, 8_000);
    assert!(flush_if_due(&mut state, SECOND + 99).is_none());
    let report = flush_if_due(&mut state, SECOND + 100).expect("the window is over");
    assert_eq!(report.counters, "c=5,e=2");
    assert_eq!(report.pane_counters, "pane.4.c=6,pane.4.e=1");
    assert_eq!(
        report.durations,
        "d=count:1 avg_us:3 max_us:3,s=count:1 avg_us:5 max_us:5"
    );
    assert_eq!(
        report.pane_durations,
        "pane.4.d=count:1 avg_us:4 max_us:4,pane.5.s=count:1 avg_us:0 max_us:0"
    );
}

#[test]
fn adding_nothing_does_not_even_create_a_counter() {
    let mut state = ProfState::new(true);
    counter(&mut state, "zero", 0, 50);
    pane_counter(&mut state, PaneId(1), "zero", 0, 50);
    // The first window starts with the first thing recorded.
    event(&mut state, "one", 100);
    assert!(flush_if_due(&mut state, SECOND + 50).is_none());
    let report = flush_if_due(&mut state, SECOND + 100).expect("the window is over");
    assert_eq!(report.counters, "one=1");
    assert_eq!(report.pane_counters, "");
}

#[test]
fn a_flush_can_start_the_first_window() {
    let mut state = ProfState::new(true);
    assert!(flush_if_due(&mut state, 9 * SECOND).is_none());
    assert!(flush_if_due(&mut state, 10 * SECOND).is_some());
    state.restart_window(20 * SECOND);
    assert!(flush_if_due(&mut state, 21 * SECOND - 1).is_none());
}

#[test]
fn overflow_is_foreseen() {
    let mut state = ProfState::new(true);
    counter(&mut state, "c", u64::MAX - 1, 0);
    assert!(state.accepts(ProfUpdate::Counter { name: "c", value: 1 }, 0));
    assert!(!state.accepts(ProfUpdate::Counter { name: "c", value: 2 }, 0));
    assert!(state.accepts(ProfUpdate::Counter { name: "other", value: u64::MAX }, 0));
    duration(&mut state, "d", u128::MAX, 0);
    assert!(!state.accepts(ProfUpdate::Duration { name: "d", ns: 1 }, 0));
    assert!(state.accepts(ProfUpdate::Duration { name: "d", ns: 0 }, 0));
    assert!(state.accepts(ProfUpdate::PaneDuration { pane_id: 1, name: "d", ns: 1 }, 0));
    assert!(state.accepts(ProfUpdate::PaneCounter { pane_id: 1, name: "c", value: 9 }, 0));
}

#[test]
fn names_are_ordered_by_their_bytes() {
    let mut profiler = RenderProfiler::new(0);
    for name in ["z", "é", "A", "a", "aa", "漢", "~", ""] {
        profiler.increment(name, 1);
    }
    let mut names = vec!["z", "é", "A", "a", "aa", "漢", "~", ""];
    names.sort();
    let expected: Vec<String> = names.iter().map(|name| format!("{name}=1")).collect();
    let report = profiler.flush_if_due(SECOND).expect("the window is over");
    assert_eq!(report.counters, expected.join(","));
}
