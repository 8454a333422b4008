//! Lightweight opt-in render profiling.
//!
//! The state is a plain value, and the clock is read by the caller: every time is a
//! number of nanoseconds since some fixed start.

use vstd::prelude::*;

use crate::app_view::PaneId;
use crate::decimal;
use crate::decimal::append_dec;
use crate::hyperlink::same_str;
use crate::table;
use crate::table::{Key, Table};

verus! {

/// How long a window lasts, in nanoseconds.
pub const WINDOW_NS: u128 = 1_000_000_000;

/// An amount to add to a named counter.
#[derive(Clone, Copy, Debug)]
pub struct ProfNote {
    pub name: &'static str,
    pub value: u64,
}

impl View for ProfNote {
    type V = (Seq<char>, u64);

    open spec fn view(&self) -> (Seq<char>, u64) {
        (self.name@, self.value)
    }
}

/// The values of a list of notes.
pub open spec fn note_views(notes: Seq<ProfNote>) -> Seq<(Seq<char>, u64)> {
    Seq::new(notes.len(), |i: int| notes[i]@)
}

/// Appends a note.
pub(crate) fn note(notes: &mut Vec<ProfNote>, name: &'static str, value: u64)
    ensures
        note_views(final(notes)@) == note_views(old(notes)@).push((name@, value)),
{
    let ghost before = note_views(notes@);
    notes.push(ProfNote { name, value });
    assert(note_views(notes@) =~= before.push((name@, value)));
}

/// What is known of the durations under one name.
#[derive(Clone, Copy, Debug)]
pub struct DurationStats {
    pub count: u64,
    pub total_ns: u128,
    pub max_ns: u128,
}

/// No duration at all.
pub open spec fn no_durations() -> DurationStats {
    DurationStats { count: 0, total_ns: 0, max_ns: 0 }
}

/// One more duration.
pub open spec fn with_duration(stats: DurationStats, ns: u128) -> DurationStats {
    DurationStats {
        count: (stats.count + 1) as u64,
        total_ns: (stats.total_ns + ns) as u128,
        max_ns: if ns > stats.max_ns {
            ns
        } else {
            stats.max_ns
        },
    }
}

impl Default for DurationStats {
    fn default() -> (res: Self)
        ensures
            res == no_durations(),
    {
        DurationStats { count: 0, total_ns: 0, max_ns: 0 }
    }
}

/// The counts and durations of the current window, in the order of their names, and of
/// their panes first where they belong to one.
#[derive(Debug)]
pub struct RenderProfiler {
    window_started: u128,
    counters: Table<u64>,
    pane_counters: Table<u64>,
    durations: Table<DurationStats>,
    pane_durations: Table<DurationStats>,
}

/// The value of a [`RenderProfiler`]. What belongs to no pane has the number 0.
#[verifier::ext_equal]
pub struct ProfilerView {
    pub window_started: u128,
    pub counters: Seq<(Key, u64)>,
    pub pane_counters: Seq<(Key, u64)>,
    pub durations: Seq<(Key, DurationStats)>,
    pub pane_durations: Seq<(Key, DurationStats)>,
}

impl View for RenderProfiler {
    type V = ProfilerView;

    closed spec fn view(&self) -> ProfilerView {
        ProfilerView {
            window_started: self.window_started,
            counters: self.counters@,
            pane_counters: self.pane_counters@,
            durations: self.durations@,
            pane_durations: self.pane_durations@,
        }
    }
}

/// Every table of a profiler is in the order of its keys.
pub open spec fn in_order(view: ProfilerView) -> bool {
    &&& table::ascending(view.counters)
    &&& table::ascending(view.pane_counters)
    &&& table::ascending(view.durations)
    &&& table::ascending(view.pane_durations)
}

/// A profiler whose window starts at `now_ns`.
pub open spec fn empty_window(now_ns: u128) -> ProfilerView {
    ProfilerView {
        window_started: now_ns,
        counters: Seq::empty(),
        pane_counters: Seq::empty(),
        durations: Seq::empty(),
        pane_durations: Seq::empty(),
    }
}

/// The count under a key, 0 if there is none.
pub open spec fn count_of(entries: Seq<(Key, u64)>, key: Key) -> u64 {
    match table::lookup(entries, key) {
        Some(value) => value,
        None => 0,
    }
}

/// The durations under a key.
pub open spec fn stats_of(entries: Seq<(Key, DurationStats)>, key: Key) -> DurationStats {
    match table::lookup(entries, key) {
        Some(stats) => stats,
        None => no_durations(),
    }
}

/// The counts with `value` added under a key.
pub open spec fn counted(entries: Seq<(Key, u64)>, key: Key, value: u64) -> Seq<(Key, u64)> {
    table::upserted(entries, key, (count_of(entries, key) + value) as u64)
}

/// The durations with one more under a key.
pub open spec fn timed(entries: Seq<(Key, DurationStats)>, key: Key, ns: u128) -> Seq<
    (Key, DurationStats),
> {
    table::upserted(entries, key, with_duration(stats_of(entries, key), ns))
}

/// A count can be added without overflow.
pub open spec fn countable(entries: Seq<(Key, u64)>, key: Key, value: u64) -> bool {
    count_of(entries, key) + value <= u64::MAX
}

/// A duration can be added without overflow.
pub open spec fn timeable(entries: Seq<(Key, DurationStats)>, key: Key, ns: u128) -> bool {
    stats_of(entries, key).count < u64::MAX && stats_of(entries, key).total_ns + ns <= u128::MAX
}

/// Adds to a count.
fn add_count(counts: &mut Table<u64>, number: u32, name: &'static str, value: u64)
    requires
        old(counts).wf(),
        countable(old(counts)@, (number, name@), value),
    ensures
        final(counts).wf(),
        final(counts)@ == counted(old(counts)@, (number, name@), value),
{
    let old_value: u64 = match counts.get(number, name) {
        Some(found) => found,
        None => 0,
    };
    counts.set(number, name, old_value + value);
}

/// Adds a duration.
fn add_duration(times: &mut Table<DurationStats>, number: u32, name: &'static str, ns: u128)
    requires
        old(times).wf(),
        timeable(old(times)@, (number, name@), ns),
    ensures
        final(times).wf(),
        final(times)@ == timed(old(times)@, (number, name@), ns),
{
    let stats = match times.get(number, name) {
        Some(found) => found,
        None => DurationStats::default(),
    };
    let max_ns: u128 = if ns > stats.max_ns {
        ns
    } else {
        stats.max_ns
    };
    times.set(
        number,
        name,
        DurationStats { count: stats.count + 1, total_ns: stats.total_ns + ns, max_ns },
    );
}

// ---------------------------------------------------------------------------
// The report of a window
// ---------------------------------------------------------------------------

/// What is reported of a window.
#[derive(Debug)]
pub struct ProfReport {
    pub window_ms: u64,
    pub counters: String,
    pub pane_counters: String,
    pub durations: String,
    pub pane_durations: String,
}

/// The value of a [`ProfReport`].
#[verifier::ext_equal]
pub struct ReportView {
    pub window_ms: u64,
    pub counters: Seq<char>,
    pub pane_counters: Seq<char>,
    pub durations: Seq<char>,
    pub pane_durations: Seq<char>,
}

impl View for ProfReport {
    type V = ReportView;

    open spec fn view(&self) -> ReportView {
        ReportView {
            window_ms: self.window_ms,
            counters: self.counters@,
            pane_counters: self.pane_counters@,
            durations: self.durations@,
            pane_durations: self.pane_durations@,
        }
    }
}

/// Texts with a comma between each two.
pub open spec fn joined(parts: Seq<Seq<char>>) -> Seq<char>
    decreases parts.len(),
{
    if parts.len() == 0 {
        Seq::empty()
    } else if parts.len() == 1 {
        parts[0]
    } else {
        joined(parts.drop_last()) + ","@ + parts.last()
    }
}

/// `name`, or `pane.<number>.<name>`.
pub open spec fn label(key: Key, of_pane: bool) -> Seq<char> {
    if of_pane {
        "pane."@ + decimal::decimal_text(key.0 as nat) + "."@ + key.1
    } else {
        key.1
    }
}

/// `<label>=<count>`.
pub open spec fn count_text(entry: (Key, u64), of_pane: bool) -> Seq<char> {
    label(entry.0, of_pane) + "="@ + decimal::decimal_text(entry.1 as nat)
}

/// The average of the durations in microseconds, rounded down.
pub open spec fn average_us(stats: DurationStats) -> nat {
    if stats.count == 0 {
        0
    } else {
        stats.total_ns as nat / stats.count as nat / 1_000
    }
}

/// `=count:<n> avg_us:<n> max_us:<n>`.
pub open spec fn stats_text(stats: DurationStats) -> Seq<char> {
    "=count:"@ + decimal::decimal_text(stats.count as nat) + " avg_us:"@ + decimal::decimal_text(
        average_us(stats),
    ) + " max_us:"@ + decimal::decimal_text(stats.max_ns as nat / 1_000)
}

/// `<label>=count:<n> avg_us:<n> max_us:<n>`.
pub open spec fn duration_text(entry: (Key, DurationStats), of_pane: bool) -> Seq<char> {
    label(entry.0, of_pane) + stats_text(entry.1)
}

/// One line for all counts.
pub open spec fn counts_line(entries: Seq<(Key, u64)>, of_pane: bool) -> Seq<char> {
    joined(Seq::new(entries.len(), |i: int| count_text(entries[i], of_pane)))
}

/// One line for all durations.
pub open spec fn durations_line(entries: Seq<(Key, DurationStats)>, of_pane: bool) -> Seq<char> {
    joined(Seq::new(entries.len(), |i: int| duration_text(entries[i], of_pane)))
}

/// How much time of a window has passed.
pub open spec fn elapsed(window_started: u128, now_ns: u128) -> u128 {
    if now_ns > window_started {
        (now_ns - window_started) as u128
    } else {
        0
    }
}

/// A window is over after a second.
pub open spec fn due(view: ProfilerView, now_ns: u128) -> bool {
    elapsed(view.window_started, now_ns) >= WINDOW_NS
}

/// The report of a window.
pub open spec fn report(view: ProfilerView, now_ns: u128) -> ReportView {
    ReportView {
        window_ms: (elapsed(view.window_started, now_ns) / 1_000_000) as u64,
        counters: counts_line(view.counters, false),
        pane_counters: counts_line(view.pane_counters, true),
        durations: durations_line(view.durations, false),
        pane_durations: durations_line(view.pane_durations, true),
    }
}

/// The value of an optional report.
pub open spec fn report_option(report: Option<ProfReport>) -> Option<ReportView> {
    match report {
        Some(r) => Some(r@),
        None => None,
    }
}

/// The report that is due, if one is.
pub open spec fn flushed(view: ProfilerView, now_ns: u128) -> Option<ReportView> {
    if due(view, now_ns) {
        Some(report(view, now_ns))
    } else {
        None
    }
}

/// The profiler after it was asked for the report that is due.
pub open spec fn after_flush(view: ProfilerView, now_ns: u128) -> ProfilerView {
    if due(view, now_ns) {
        empty_window(now_ns)
    } else {
        view
    }
}

/// Writes the separator before all but the first entry, and the label.
fn append_label(text: &mut String, first: bool, of_pane: bool, number: u32, name: &str)
    ensures
        final(text)@ == old(text)@ + (if first {
            Seq::empty()
        } else {
            ","@
        }) + label((number, name@), of_pane),
{
    let ghost before = text@;
    if !first {
        text.append(",");
    }
    if of_pane {
        text.append("pane.");
        append_dec(text, number as u128);
        text.append(".");
    }
    text.append(name);
    assert(text@ =~= before + (if first {
        Seq::empty()
    } else {
        ","@
    }) + label((number, name@), of_pane));
}

proof fn lemma_joined_push(parts: Seq<Seq<char>>, part: Seq<char>)
    ensures
        joined(parts.push(part)) == joined(parts) + (if parts.len() == 0 {
            Seq::empty()
        } else {
            ","@
        }) + part,
{
    if parts.len() == 0 {
        assert(joined(parts.push(part)) =~= joined(parts) + Seq::empty() + part);
    } else {
        assert(parts.push(part).drop_last() =~= parts);
    }
}

/// One line for all counts.
fn format_counts(counts: &Table<u64>, of_pane: bool) -> (res: String)
    ensures
        res@ == counts_line(counts@, of_pane),
{
    let mut text = String::new();
    let len: usize = counts.len();
    let ghost parts = Seq::new(counts@.len(), |i: int| count_text(counts@[i], of_pane));
    assert(parts.take(0) =~= Seq::empty());
    assert(text@ =~= Seq::empty());
    for i in 0..len
        invariant
            len == counts@.len(),
            parts == Seq::new(counts@.len(), |i: int| count_text(counts@[i], of_pane)),
            text@ == joined(parts.take(i as int)),
    {
        let ghost before = text@;
        let entry = counts.entry(i);
        append_label(&mut text, i == 0, of_pane, entry.number, entry.name);
        text.append("=");
        append_dec(&mut text, entry.value as u128);
        proof {
            lemma_joined_push(parts.take(i as int), parts[i as int]);
            assert(parts.take(i as int).push(parts[i as int]) =~= parts.take(i + 1));
            assert(text@ =~= before + (if i == 0 {
                Seq::empty()
            } else {
                ","@
            }) + parts[i as int]);
        }
    }
    assert(parts.take(len as int) =~= parts);
    text
}

/// Writes the statistics of one entry.
fn append_stats(text: &mut String, stats: DurationStats)
    ensures
        final(text)@ == old(text)@ + stats_text(stats),
{
    let ghost before = text@;
    let avg_us: u128 = if stats.count == 0 {
        0
    } else {
        stats.total_ns / stats.count as u128 / 1_000
    };
    assert(avg_us as nat == average_us(stats));
    text.append("=count:");
    append_dec(text, stats.count as u128);
    text.append(" avg_us:");
    append_dec(text, avg_us);
    text.append(" max_us:");
    append_dec(text, stats.max_ns / 1_000);
    assert(text@ =~= before + stats_text(stats));
}

/// One line for all durations.
fn format_durations(times: &Table<DurationStats>, of_pane: bool) -> (res: String)
    ensures
        res@ == durations_line(times@, of_pane),
{
    let mut text = String::new();
    let len: usize = times.len();
    let ghost parts = Seq::new(times@.len(), |i: int| duration_text(times@[i], of_pane));
    assert(parts.take(0) =~= Seq::empty());
    assert(text@ =~= Seq::empty());
    for i in 0..len
        invariant
            len == times@.len(),
            parts == Seq::new(times@.len(), |i: int| duration_text(times@[i], of_pane)),
            text@ == joined(parts.take(i as int)),
    {
        let ghost before = text@;
        let entry = times.entry(i);
        append_label(&mut text, i == 0, of_pane, entry.number, entry.name);
        append_stats(&mut text, entry.value);
        proof {
            lemma_joined_push(parts.take(i as int), parts[i as int]);
            assert(parts.take(i as int).push(parts[i as int]) =~= parts.take(i + 1));
            assert(text@ =~= before + (if i == 0 {
                Seq::empty()
            } else {
                ","@
            }) + parts[i as int]);
        }
    }
    assert(parts.take(len as int) =~= parts);
    text
}

impl RenderProfiler {
    /// Every table is in order.
    pub open spec fn wf(&self) -> bool {
        in_order(self@)
    }

    /// A profiler whose window starts at `now_ns`.
    pub fn new(now_ns: u128) -> (res: Self)
        ensures
            res.wf(),
            res@ == empty_window(now_ns),
    {
        RenderProfiler {
            window_started: now_ns,
            counters: Table::new(),
            pane_counters: Table::new(),
            durations: Table::new(),
            pane_durations: Table::new(),
        }
    }

    /// Adds to a counter.
    pub fn increment(&mut self, name: &'static str, value: u64)
        requires
            old(self).wf(),
            countable(old(self)@.counters, (0, name@), value),
        ensures
            final(self).wf(),
            final(self)@ == (ProfilerView {
                counters: counted(old(self)@.counters, (0, name@), value),
                ..old(self)@
            }),
    {
        add_count(&mut self.counters, 0, name, value);
    }

    /// Adds to a counter of a pane.
    pub fn increment_pane(&mut self, pane_id: u32, name: &'static str, value: u64)
        requires
            old(self).wf(),
            countable(old(self)@.pane_counters, (pane_id, name@), value),
        ensures
            final(self).wf(),
            final(self)@ == (ProfilerView {
                pane_counters: counted(old(self)@.pane_counters, (pane_id, name@), value),
                ..old(self)@
            }),
    {
        add_count(&mut self.pane_counters, pane_id, name, value);
    }

    /// Adds a duration.
    pub fn duration(&mut self, name: &'static str, ns: u128)
        requires
            old(self).wf(),
            timeable(old(self)@.durations, (0, name@), ns),
        ensures
            final(self).wf(),
            final(self)@ == (ProfilerView {
                durations: timed(old(self)@.durations, (0, name@), ns),
                ..old(self)@
            }),
    {
        add_duration(&mut self.durations, 0, name, ns);
    }

    /// Adds a duration of a pane.
    pub fn pane_duration(&mut self, pane_id: u32, name: &'static str, ns: u128)
        requires
            old(self).wf(),
            timeable(old(self)@.pane_durations, (pane_id, name@), ns),
        ensures
            final(self).wf(),
            final(self)@ == (ProfilerView {
                pane_durations: timed(old(self)@.pane_durations, (pane_id, name@), ns),
                ..old(self)@
            }),
    {
        add_duration(&mut self.pane_durations, pane_id, name, ns);
    }

    /// The report of the window if that is over, in which case the next one starts
    /// empty.
    pub fn flush_if_due(&mut self, now_ns: u128) -> (res: Option<ProfReport>)
        requires
            old(self).wf(),
        ensures
            final(self).wf(),
            report_option(res) == flushed(old(self)@, now_ns),
            final(self)@ == after_flush(old(self)@, now_ns),
    {
        let elapsed_ns: u128 = elapsed_since(self.window_started, now_ns);
        if elapsed_ns < WINDOW_NS {
            return None;
        }
        let res = ProfReport {
            window_ms: #[verifier::truncate]
            ((elapsed_ns / 1_000_000) as u64),
            counters: format_counts(&self.counters, false),
            pane_counters: format_counts(&self.pane_counters, true),
            durations: format_durations(&self.durations, false),
            pane_durations: format_durations(&self.pane_durations, true),
        };
        *self = RenderProfiler::new(now_ns);
        Some(res)
    }

    /// Moves the start of the window to `now_ns`.
    pub fn restart_window(&mut self, now_ns: u128)
        ensures
            final(self).wf() == old(self).wf(),
            final(self)@ == (ProfilerView { window_started: now_ns, ..old(self)@ }),
    {
        self.window_started = now_ns;
    }
}

// ---------------------------------------------------------------------------
// The profiling state of a process
// ---------------------------------------------------------------------------

/// Something to record.
#[derive(Clone, Copy, Debug)]
pub enum ProfUpdate {
    Counter { name: &'static str, value: u64 },
    PaneCounter { pane_id: u32, name: &'static str, value: u64 },
    Duration { name: &'static str, ns: u128 },
    PaneDuration { pane_id: u32, name: &'static str, ns: u128 },
}

/// An update can be recorded without overflow.
pub open spec fn recordable(view: ProfilerView, update: ProfUpdate) -> bool {
    match update {
        ProfUpdate::Counter { name, value } => countable(view.counters, (0, name@), value),
        ProfUpdate::PaneCounter { pane_id, name, value } => countable(
            view.pane_counters,
            (pane_id, name@),
            value,
        ),
        ProfUpdate::Duration { name, ns } => timeable(view.durations, (0, name@), ns),
        ProfUpdate::PaneDuration { pane_id, name, ns } => timeable(
            view.pane_durations,
            (pane_id, name@),
            ns,
        ),
    }
}

/// The profiler after an update.
pub open spec fn recorded(view: ProfilerView, update: ProfUpdate) -> ProfilerView {
    match update {
        ProfUpdate::Counter { name, value } => ProfilerView {
            counters: counted(view.counters, (0, name@), value),
            ..view
        },
        ProfUpdate::PaneCounter { pane_id, name, value } => ProfilerView {
            pane_counters: counted(view.pane_counters, (pane_id, name@), value),
            ..view
        },
        ProfUpdate::Duration { name, ns } => ProfilerView {
            durations: timed(view.durations, (0, name@), ns),
            ..view
        },
        ProfUpdate::PaneDuration { pane_id, name, ns } => ProfilerView {
            pane_durations: timed(view.pane_durations, (pane_id, name@), ns),
            ..view
        },
    }
}

/// The profiling state of a process: whether it profiles, and the profiler once that
/// was needed.
#[derive(Debug)]
pub struct ProfState {
    enabled: bool,
    profiler: Option<RenderProfiler>,
}

/// The value of a [`ProfState`].
#[verifier::ext_equal]
pub struct ProfStateView {
    pub enabled: bool,
    pub profiler: Option<ProfilerView>,
}

impl View for ProfState {
    type V = ProfStateView;

    closed spec fn view(&self) -> ProfStateView {
        ProfStateView {
            enabled: self.enabled,
            profiler: match self.profiler {
                Some(profiler) => Some(profiler@),
                None => None,
            },
        }
    }
}

/// The profiler of a state; its first window starts when it is first needed.
pub open spec fn profiler_at(state: ProfStateView, now_ns: u128) -> ProfilerView {
    match state.profiler {
        Some(profiler) => profiler,
        None => empty_window(now_ns),
    }
}

/// The state after an update: nothing is recorded unless profiling is enabled.
pub open spec fn state_recorded(
    state: ProfStateView,
    update: ProfUpdate,
    now_ns: u128,
) -> ProfStateView {
    if state.enabled {
        ProfStateView {
            enabled: true,
            profiler: Some(recorded(profiler_at(state, now_ns), update)),
        }
    } else {
        state
    }
}

/// An update can be recorded in a state without overflow.
pub open spec fn state_recordable(state: ProfStateView, update: ProfUpdate, now_ns: u128) -> bool {
    state.enabled ==> recordable(profiler_at(state, now_ns), update)
}

/// Whether a setting turns profiling on.
pub open spec fn turns_on(setting: Seq<char>) -> bool {
    setting == "1"@ || setting == "true"@ || setting == "yes"@ || setting == "on"@
}

/// Profiling is on, given the setting if there is one.
pub open spec fn enabled_by(setting: Option<Seq<char>>) -> bool {
    setting matches Some(value) && turns_on(value)
}

/// Whether profiling is on, given the setting if there is one.
pub fn enabled(setting: Option<&str>) -> (res: bool)
    ensures
        res == (setting matches Some(value) && turns_on(value@)),
        res == enabled_by(
            match setting {
                Some(value) => Some(value@),
                None => None,
            },
        ),
{
    match setting {
        Some(value) => {
            same_str(value, "1") || same_str(value, "true") || same_str(value, "yes") || same_str(
                value,
                "on",
            )
        },
        None => false,
    }
}

impl ProfState {
    /// The tables of the profiler are in order.
    pub open spec fn wf(&self) -> bool {
        self@.profiler matches Some(profiler) ==> in_order(profiler)
    }

    pub fn new(enabled: bool) -> (res: Self)
        ensures
            res.wf(),
            res@ == (ProfStateView { enabled, profiler: None }),
    {
        ProfState { enabled, profiler: None }
    }

    /// Whether anything is recorded.
    pub fn is_enabled(&self) -> (res: bool)
        ensures
            res == self@.enabled,
    {
        self.enabled
    }

    /// Whether an update can be recorded without overflow.
    pub fn accepts(&self, update: ProfUpdate, now_ns: u128) -> (res: bool)
        requires
            self.wf(),
        ensures
            res == state_recordable(self@, update, now_ns),
    {
        if !self.enabled {
            return true;
        }
        match &self.profiler {
            None => {
                assert(forall|key: Key, i: int| !table::has_key(Seq::<(Key, u64)>::empty(), key, i));
                assert(forall|key: Key, i: int|
                    !table::has_key(Seq::<(Key, DurationStats)>::empty(), key, i));
                true
            },
            Some(profiler) => match update {
                ProfUpdate::Counter { name, value } => count_fits(
                    &profiler.counters,
                    0,
                    name,
                    value,
                ),
                ProfUpdate::PaneCounter { pane_id, name, value } => count_fits(
                    &profiler.pane_counters,
                    pane_id,
                    name,
                    value,
                ),
                ProfUpdate::Duration { name, ns } => duration_fits(&profiler.durations, 0, name, ns),
                ProfUpdate::PaneDuration { pane_id, name, ns } => duration_fits(
                    &profiler.pane_durations,
                    pane_id,
                    name,
                    ns,
                ),
            },
        }
    }

    /// Moves the start of the window to `now_ns`.
    pub fn restart_window(&mut self, now_ns: u128)
        requires
            old(self).wf(),
        ensures
            final(self).wf(),
            final(self)@ == (ProfStateView {
                profiler: match old(self)@.profiler {
                    Some(profiler) => Some(ProfilerView { window_started: now_ns, ..profiler }),
                    None => None,
                },
                ..old(self)@
            }),
            final(self)@ == state_restarted(old(self)@, now_ns),
    {
        if let Some(profiler) = &mut self.profiler {
            profiler.restart_window(now_ns);
        }
    }
}

/// Whether a count can be added without overflow.
fn count_fits(counts: &Table<u64>, number: u32, name: &str, value: u64) -> (res: bool)
    requires
        counts.wf(),
    ensures
        res == countable(counts@, (number, name@), value),
{
    match counts.get(number, name) {
        Some(found) => found <= u64::MAX - value,
        None => true,
    }
}

/// Whether a duration can be added without overflow.
fn duration_fits(times: &Table<DurationStats>, number: u32, name: &str, ns: u128) -> (res: bool)
    requires
        times.wf(),
    ensures
        res == timeable(times@, (number, name@), ns),
{
    match times.get(number, name) {
        Some(found) => found.count < u64::MAX && found.total_ns <= u128::MAX - ns,
        None => true,
    }
}

/// Records an update if profiling is enabled, creating the profiler on first use.
pub fn with_profiler(state: &mut ProfState, update: ProfUpdate, now_ns: u128)
    requires
        old(state).wf(),
        state_recordable(old(state)@, update, now_ns),
    ensures
        final(state).wf(),
        final(state)@ == state_recorded(old(state)@, update, now_ns),
{
    if !state.enabled {
        return;
    }
    if state.profiler.is_none() {
        state.profiler = Some(RenderProfiler::new(now_ns));
    }
    if let Some(profiler) = &mut state.profiler {
        match update {
            ProfUpdate::Counter { name, value } => profiler.increment(name, value),
            ProfUpdate::PaneCounter { pane_id, name, value } => {
                profiler.increment_pane(pane_id, name, value)
            },
            ProfUpdate::Duration { name, ns } => profiler.duration(name, ns),
            ProfUpdate::PaneDuration { pane_id, name, ns } => {
                profiler.pane_duration(pane_id, name, ns)
            },
        }
    }
}

/// The state after an amount was added to a counter, of a pane if there is one.
pub open spec fn state_counted(
    state: ProfStateView,
    pane: Option<PaneId>,
    name: &'static str,
    value: u64,
    now_ns: u128,
) -> ProfStateView {
    if value == 0 {
        state
    } else {
        match pane {
            Some(pane_id) => state_recorded(
                state,
                ProfUpdate::PaneCounter { pane_id: pane_id.0, name, value },
                now_ns,
            ),
            None => state_recorded(state, ProfUpdate::Counter { name, value }, now_ns),
        }
    }
}

/// The state after a duration was added, of a pane if there is one.
pub open spec fn state_timed(
    state: ProfStateView,
    pane: Option<PaneId>,
    name: &'static str,
    ns: u128,
    now_ns: u128,
) -> ProfStateView {
    match pane {
        Some(pane_id) => state_recorded(
            state,
            ProfUpdate::PaneDuration { pane_id: pane_id.0, name, ns },
            now_ns,
        ),
        None => state_recorded(state, ProfUpdate::Duration { name, ns }, now_ns),
    }
}

/// The state after the time since a measurement started was added, if it did.
pub open spec fn state_measured(
    state: ProfStateView,
    pane: Option<PaneId>,
    name: &'static str,
    started: Option<u128>,
    now_ns: u128,
) -> ProfStateView {
    match started {
        Some(start) => state_timed(state, pane, name, elapsed(start, now_ns), now_ns),
        None => state,
    }
}

/// When a measurement starts, if it does.
pub open spec fn measured_from(enabled: bool, now_ns: u128) -> Option<u128> {
    if enabled {
        Some(now_ns)
    } else {
        None
    }
}

/// The report of a state that is due, if one is.
pub open spec fn state_report(state: ProfStateView, now_ns: u128) -> Option<ReportView> {
    if state.enabled {
        flushed(profiler_at(state, now_ns), now_ns)
    } else {
        None
    }
}

/// The state after it was asked for the report that is due.
pub open spec fn state_flushed(state: ProfStateView, now_ns: u128) -> ProfStateView {
    if state.enabled {
        ProfStateView {
            enabled: true,
            profiler: Some(after_flush(profiler_at(state, now_ns), now_ns)),
        }
    } else {
        state
    }
}

/// The state with the start of the window moved.
pub open spec fn state_restarted(state: ProfStateView, now_ns: u128) -> ProfStateView {
    match state.profiler {
        Some(profiler) => ProfStateView {
            profiler: Some(ProfilerView { window_started: now_ns, ..profiler }),
            ..state
        },
        None => state,
    }
}

/// Adds to a counter; adding 0 does nothing, not even create the counter.
pub fn counter(state: &mut ProfState, name: &'static str, value: u64, now_ns: u128)
    requires
        old(state).wf(),
        value > 0 ==> state_recordable(old(state)@, ProfUpdate::Counter { name, value }, now_ns),
    ensures
        final(state).wf(),
        final(state)@ == if value == 0 {
            old(state)@
        } else {
            state_recorded(old(state)@, ProfUpdate::Counter { name, value }, now_ns)
        },
        final(state)@ == state_counted(old(state)@, None, name, value, now_ns),
{
    if value == 0 {
        return;
    }
    with_profiler(state, ProfUpdate::Counter { name, value }, now_ns);
}

/// Adds to a counter of a pane; adding 0 does nothing.
pub fn pane_counter(
    state: &mut ProfState,
    pane_id: PaneId,
    name: &'static str,
    value: u64,
    now_ns: u128,
)
    requires
        old(state).wf(),
        value > 0 ==> state_recordable(
            old(state)@,
            ProfUpdate::PaneCounter { pane_id: pane_id.0, name, value },
            now_ns,
        ),
    ensures
        final(state).wf(),
        final(state)@ == if value == 0 {
            old(state)@
        } else {
            state_recorded(
                old(state)@,
                ProfUpdate::PaneCounter { pane_id: pane_id.0, name, value },
                now_ns,
            )
        },
        final(state)@ == state_counted(old(state)@, Some(pane_id), name, value, now_ns),
{
    if value == 0 {
        return;
    }
    with_profiler(state, ProfUpdate::PaneCounter { pane_id: pane_id.raw(), name, value }, now_ns);
}

/// Counts one event.
pub fn event(state: &mut ProfState, name: &'static str, now_ns: u128)
    requires
        old(state).wf(),
        state_recordable(old(state)@, ProfUpdate::Counter { name, value: 1 }, now_ns),
    ensures
        final(state).wf(),
        final(state)@ == state_recorded(
            old(state)@,
            ProfUpdate::Counter { name, value: 1 },
            now_ns,
        ),
        final(state)@ == state_counted(old(state)@, None, name, 1, now_ns),
{
    counter(state, name, 1, now_ns);
}

/// Counts one event of a pane.
pub fn pane_event(state: &mut ProfState, pane_id: PaneId, name: &'static str, now_ns: u128)
    requires
        old(state).wf(),
        state_recordable(
            old(state)@,
            ProfUpdate::PaneCounter { pane_id: pane_id.0, name, value: 1 },
            now_ns,
        ),
    ensures
        final(state).wf(),
        final(state)@ == state_recorded(
            old(state)@,
            ProfUpdate::PaneCounter { pane_id: pane_id.0, name, value: 1 },
            now_ns,
        ),
        final(state)@ == state_counted(old(state)@, Some(pane_id), name, 1, now_ns),
{
    pane_counter(state, pane_id, name, 1, now_ns);
}

/// Adds a duration.
pub fn duration(state: &mut ProfState, name: &'static str, ns: u128, now_ns: u128)
    requires
        old(state).wf(),
        state_recordable(old(state)@, ProfUpdate::Duration { name, ns }, now_ns),
    ensures
        final(state).wf(),
        final(state)@ == state_recorded(old(state)@, ProfUpdate::Duration { name, ns }, now_ns),
        final(state)@ == state_timed(old(state)@, None, name, ns, now_ns),
{
    with_profiler(state, ProfUpdate::Duration { name, ns }, now_ns);
}

/// Adds a duration of a pane.
pub fn pane_duration(
    state: &mut ProfState,
    pane_id: PaneId,
    name: &'static str,
    ns: u128,
    now_ns: u128,
)
    requires
        old(state).wf(),
        state_recordable(
            old(state)@,
            ProfUpdate::PaneDuration { pane_id: pane_id.0, name, ns },
            now_ns,
        ),
    ensures
        final(state).wf(),
        final(state)@ == state_recorded(
            old(state)@,
            ProfUpdate::PaneDuration { pane_id: pane_id.0, name, ns },
            now_ns,
        ),
        final(state)@ == state_timed(old(state)@, Some(pane_id), name, ns, now_ns),
{
    with_profiler(state, ProfUpdate::PaneDuration { pane_id: pane_id.raw(), name, ns }, now_ns);
}

/// When a measurement starts: now, or never unless profiling is enabled.
pub fn timer(state: &ProfState, now_ns: u128) -> (res: Option<u128>)
    ensures
        res == if state@.enabled {
            Some(now_ns)
        } else {
            None
        },
        res == measured_from(state@.enabled, now_ns),
{
    if state.enabled {
        Some(now_ns)
    } else {
        None
    }
}

/// Adds the duration since a measurement started, if it did.
pub fn duration_since(
    state: &mut ProfState,
    name: &'static str,
    started: Option<u128>,
    now_ns: u128,
)
    requires
        old(state).wf(),
        started matches Some(start) ==> state_recordable(
            old(state)@,
            ProfUpdate::Duration { name, ns: elapsed(start, now_ns) },
            now_ns,
        ),
    ensures
        final(state).wf(),
        final(state)@ == match started {
            Some(start) => state_recorded(
                old(state)@,
                ProfUpdate::Duration { name, ns: elapsed(start, now_ns) },
                now_ns,
            ),
            None => old(state)@,
        },
        final(state)@ == state_measured(old(state)@, None, name, started, now_ns),
{
    if let Some(start) = started {
        duration(state, name, elapsed_since(start, now_ns), now_ns);
    }
}

/// Adds the duration of a pane since a measurement started, if it did.
pub fn pane_duration_since(
    state: &mut ProfState,
    pane_id: PaneId,
    name: &'static str,
    started: Option<u128>,
    now_ns: u128,
)
    requires
        old(state).wf(),
        started matches Some(start) ==> state_recordable(
            old(state)@,
            ProfUpdate::PaneDuration { pane_id: pane_id.0, name, ns: elapsed(start, now_ns) },
            now_ns,
        ),
    ensures
        final(state).wf(),
        final(state)@ == match started {
            Some(start) => state_recorded(
                old(state)@,
                ProfUpdate::PaneDuration { pane_id: pane_id.0, name, ns: elapsed(start, now_ns) },
                now_ns,
            ),
            None => old(state)@,
        },
        final(state)@ == state_measured(old(state)@, Some(pane_id), name, started, now_ns),
{
    if let Some(start) = started {
        pane_duration(state, pane_id, name, elapsed_since(start, now_ns), now_ns);
    }
}

/// The time from `start` to `now_ns`; 0 if `start` is not before that.
pub fn elapsed_since(start: u128, now_ns: u128) -> (res: u128)
    ensures
        res == elapsed(start, now_ns),
{
    if now_ns > start {
        now_ns - start
    } else {
        0
    }
}

/// The report of the window, if profiling is enabled and the window is over.
pub fn flush_if_due(state: &mut ProfState, now_ns: u128) -> (res: Option<ProfReport>)
    requires
        old(state).wf(),
    ensures
        final(state).wf(),
        report_option(res) == if old(state)@.enabled {
            flushed(profiler_at(old(state)@, now_ns), now_ns)
        } else {
            None
        },
        final(state)@ == if old(state)@.enabled {
            ProfStateView {
                enabled: true,
                profiler: Some(after_flush(profiler_at(old(state)@, now_ns), now_ns)),
            }
        } else {
            old(state)@
        },
        report_option(res) == state_report(old(state)@, now_ns),
        final(state)@ == state_flushed(old(state)@, now_ns),
{
    if !state.enabled {
        return None;
    }
    if state.profiler.is_none() {
        state.profiler = Some(RenderProfiler::new(now_ns));
    }
    match &mut state.profiler {
        Some(profiler) => profiler.flush_if_due(now_ns),
        None => None,
    }
}

// ---------------------------------------------------------------------------
// Laws
// ---------------------------------------------------------------------------

/// Adding to a counter adds to that counter and to no other.
pub proof fn law_counter_adds_to_its_name(
    entries: Seq<(Key, u64)>,
    key: Key,
    value: u64,
    other: Key,
)
    requires
        table::ascending(entries),
        countable(entries, key, value),
    ensures
        table::ascending(counted(entries, key, value)),
        count_of(counted(entries, key, value), other) == count_of(entries, other) + (if other
            == key {
            value as int
        } else {
            0
        }),
{
    let total = (count_of(entries, key) + value) as u64;
    table::law_upserted_is_ascending(entries, key, total);
    table::law_lookup_after_upsert(entries, key, total, other);
}

/// Adding twice under a name is adding the sum.
pub proof fn law_counts_sum_up(entries: Seq<(Key, u64)>, key: Key, a: u64, b: u64)
    requires
        table::ascending(entries),
        count_of(entries, key) + a + b <= u64::MAX,
    ensures
        counted(counted(entries, key, a), key, b) == counted(entries, key, (a + b) as u64),
{
    law_counter_adds_to_its_name(entries, key, a, key);
    table::law_second_upsert_wins(
        entries,
        key,
        (count_of(entries, key) + a) as u64,
        (count_of(entries, key) + a + b) as u64,
    );
}

/// A duration is counted, added to the total and kept as the maximum if it is the
/// longest; the durations under other names stay as they are.
pub proof fn law_duration_adds_to_its_name(
    entries: Seq<(Key, DurationStats)>,
    key: Key,
    ns: u128,
    other: Key,
)
    requires
        table::ascending(entries),
        timeable(entries, key, ns),
    ensures
        table::ascending(timed(entries, key, ns)),
        ({
            let before = stats_of(entries, other);
            let after = stats_of(timed(entries, key, ns), other);
            if other == key {
                &&& after.count == before.count + 1
                &&& after.total_ns == before.total_ns + ns
                &&& after.max_ns >= ns && after.max_ns >= before.max_ns
                &&& after.max_ns == ns || after.max_ns == before.max_ns
            } else {
                after == before
            }
        }),
{
    let stats = with_duration(stats_of(entries, key), ns);
    table::law_upserted_is_ascending(entries, key, stats);
    table::law_lookup_after_upsert(entries, key, stats, other);
}

/// Statistics that some durations can have: there is at least one, none is longer than
/// the longest, and the longest is one of them.
pub open spec fn plausible(stats: DurationStats) -> bool {
    &&& stats.count >= 1
    &&& stats.max_ns <= stats.total_ns <= stats.count * stats.max_ns
}

/// All statistics of a profiler are plausible.
pub open spec fn all_plausible(view: ProfilerView) -> bool {
    &&& forall|i: int| 0 <= i < view.durations.len() ==> plausible((#[trigger] view.durations[i]).1)
    &&& forall|i: int|
        0 <= i < view.pane_durations.len() ==> plausible((#[trigger] view.pane_durations[i]).1)
}

/// One more duration keeps plausible statistics so, and is plausible by itself.
proof fn lemma_with_duration(stats: DurationStats, ns: u128)
    requires
        plausible(stats) || stats == no_durations(),
        stats.count < u64::MAX,
        stats.total_ns + ns <= u128::MAX,
    ensures
        plausible(with_duration(stats, ns)),
{
    let after = with_duration(stats, ns);
    let (count, most, longest) = (stats.count as int, stats.max_ns as int, after.max_ns as int);
    assert(count * most <= count * longest) by (nonlinear_arith)
        requires
            0 <= count,
            0 <= most <= longest,
    ;
    assert((count + 1) * longest == count * longest + longest) by (nonlinear_arith);
}

/// Adding a duration to a table keeps all its statistics plausible.
proof fn lemma_timed_plausible(entries: Seq<(Key, DurationStats)>, key: Key, ns: u128)
    requires
        timeable(entries, key, ns),
        forall|i: int| 0 <= i < entries.len() ==> plausible((#[trigger] entries[i]).1),
    ensures
        forall|i: int|
            0 <= i < timed(entries, key, ns).len() ==> plausible(
                (#[trigger] timed(entries, key, ns)[i]).1,
            ),
{
    let before = stats_of(entries, key);
    let added = with_duration(before, ns);
    if exists|i: int| table::has_key(entries, key, i) {
        let i = choose|i: int| table::has_key(entries, key, i);
        assert(plausible(entries[i].1));
    }
    lemma_with_duration(before, ns);
    let is_below = |e: (Key, DurationStats)| table::key_before(e.0, key);
    let is_above = |e: (Key, DurationStats)| table::key_before(key, e.0);
    let below = entries.filter(is_below);
    let above = entries.filter(is_above);
    let after = timed(entries, key, ns);
    assert(after == below + seq![(key, added)] + above);
    assert forall|i: int| 0 <= i < after.len() implies plausible((#[trigger] after[i]).1) by {
        if i < below.len() {
            assert(after[i] == below[i]);
            entries.lemma_filter_contains_rev(is_below, below[i]);
        } else if i > below.len() {
            assert(after[i] == above[i - below.len() - 1]);
            entries.lemma_filter_contains_rev(is_above, above[i - below.len() - 1]);
        }
    }
}

/// Whatever is recorded, the tables of a profiler stay in order and its durations
/// plausible: under each name there is at least one, and the longest is at most the
/// total, which is at most as much as if all were as long. An empty window is so.
pub proof fn law_recording_keeps_profiler_plausible(
    view: ProfilerView,
    update: ProfUpdate,
    now_ns: u128,
)
    requires
        in_order(view),
        all_plausible(view),
        recordable(view, update),
    ensures
        in_order(recorded(view, update)),
        all_plausible(recorded(view, update)),
        in_order(empty_window(now_ns)),
        all_plausible(empty_window(now_ns)),
{
    match update {
        ProfUpdate::Counter { name, value } => {
            law_counter_adds_to_its_name(view.counters, (0, name@), value, (0, name@));
        },
        ProfUpdate::PaneCounter { pane_id, name, value } => {
            law_counter_adds_to_its_name(view.pane_counters, (pane_id, name@), value, (0, name@));
        },
        ProfUpdate::Duration { name, ns } => {
            law_duration_adds_to_its_name(view.durations, (0, name@), ns, (0, name@));
            lemma_timed_plausible(view.durations, (0, name@), ns);
        },
        ProfUpdate::PaneDuration { pane_id, name, ns } => {
            law_duration_adds_to_its_name(view.pane_durations, (pane_id, name@), ns, (0, name@));
            lemma_timed_plausible(view.pane_durations, (pane_id, name@), ns);
        },
    }
}

/// Unless profiling is enabled, nothing is ever recorded and no measurement starts.
pub proof fn law_disabled_state_never_changes(
    state: ProfStateView,
    update: ProfUpdate,
    now_ns: u128,
)
    requires
        !state.enabled,
    ensures
        state_recordable(state, update, now_ns),
        state_recorded(state, update, now_ns) == state,
{
}

/// A report ends its window: the next one starts empty at that time, and no report is
/// due before another second has passed.
pub proof fn law_report_starts_new_window(view: ProfilerView, now_ns: u128, later_ns: u128)
    requires
        flushed(view, now_ns) is Some,
    ensures
        after_flush(view, now_ns) == empty_window(now_ns),
        later_ns < now_ns + WINDOW_NS ==> flushed(after_flush(view, now_ns), later_ns) is None,
        later_ns >= now_ns + WINDOW_NS ==> flushed(after_flush(view, now_ns), later_ns) is Some,
{
}

/// The time of a window is what the clock went on by, and none if it did not.
pub proof fn law_elapsed_is_difference(start: u128, now_ns: u128)
    ensures
        start <= now_ns ==> start + elapsed(start, now_ns) == now_ns,
        now_ns <= start ==> elapsed(start, now_ns) == 0,
{
}

/// A report is due exactly if a thousand million nanoseconds have passed since the window
/// started.
pub proof fn law_report_is_due_after_a_second(view: ProfilerView, now_ns: u128)
    ensures
        flushed(view, now_ns) is Some <==> now_ns >= view.window_started + 1_000_000_000,
        flushed(view, now_ns) is None ==> after_flush(view, now_ns) == view,
{
}

/// A report gives the whole milliseconds of its window.
pub proof fn law_report_gives_milliseconds(view: ProfilerView, now_ns: u128)
    requires
        view.window_started <= now_ns,
        now_ns - view.window_started <= 1_000_000 * u64::MAX,
    ensures
        ({
            let ms = report(view, now_ns).window_ms;
            ms * 1_000_000 <= now_ns - view.window_started < (ms + 1) * 1_000_000
        }),
{
}

/// The average is the total shared out evenly, in whole microseconds.
pub proof fn law_average_shares_total(stats: DurationStats)
    ensures
        stats.count == 0 ==> average_us(stats) == 0,
        stats.count > 0 ==> average_us(stats) * 1_000 * stats.count <= stats.total_ns,
        stats.count > 0 ==> stats.total_ns < (average_us(stats) + 1) * 1_000 * stats.count,
{
    if stats.count > 0 {
        let (total, count) = (stats.total_ns as int, stats.count as int);
        let each = total / count;
        let avg = each / 1_000;
        assert(each * count <= total < (each + 1) * count) by (nonlinear_arith)
            requires
                count > 0,
                total >= 0,
                each == total / count,
        ;
        assert(avg * 1_000 <= each < (avg + 1) * 1_000);
        assert(avg * 1_000 * count <= each * count) by (nonlinear_arith)
            requires
                avg * 1_000 <= each,
                count > 0,
        ;
        assert((each + 1) * count <= (avg + 1) * 1_000 * count) by (nonlinear_arith)
            requires
                each + 1 <= (avg + 1) * 1_000,
                count > 0,
        ;
    }
}

/// Profiling is turned on by `1`, `true`, `yes` and `on`, in these letters, and by nothing
/// else.
pub proof fn law_four_settings_turn_on(setting: Seq<char>)
    ensures
        turns_on(setting) <==> {
            ||| setting == seq!['1']
            ||| setting == seq!['t', 'r', 'u', 'e']
            ||| setting == seq!['y', 'e', 's']
            ||| setting == seq!['o', 'n']
        },
{
    reveal_strlit("1");
    reveal_strlit("true");
    reveal_strlit("yes");
    reveal_strlit("on");
    assert("1"@ =~= seq!['1']);
    assert("true"@ =~= seq!['t', 'r', 'u', 'e']);
    assert("yes"@ =~= seq!['y', 'e', 's']);
    assert("on"@ =~= seq!['o', 'n']);
}

/// An update goes to the table that it is for, under its pane and name, and leaves the
/// other tables and the window as they are.
pub proof fn law_update_reaches_its_table(view: ProfilerView, update: ProfUpdate)
    requires
        in_order(view),
        recordable(view, update),
    ensures
        ({
            let after = recorded(view, update);
            &&& after.window_started == view.window_started
            &&& !(update is Counter) ==> after.counters == view.counters
            &&& !(update is PaneCounter) ==> after.pane_counters == view.pane_counters
            &&& !(update is Duration) ==> after.durations == view.durations
            &&& !(update is PaneDuration) ==> after.pane_durations == view.pane_durations
            &&& update matches ProfUpdate::Counter { name, value } ==> count_of(
                after.counters,
                (0, name@),
            ) == count_of(view.counters, (0, name@)) + value
            &&& update matches ProfUpdate::PaneCounter { pane_id, name, value } ==> count_of(
                after.pane_counters,
                (pane_id, name@),
            ) == count_of(view.pane_counters, (pane_id, name@)) + value
            &&& update matches ProfUpdate::Duration { name, ns } ==> {
                let (old_stats, stats) = (
                    stats_of(view.durations, (0, name@)),
                    stats_of(after.durations, (0, name@)),
                );
                stats.total_ns == old_stats.total_ns + ns && stats.count == old_stats.count + 1
            }
            &&& update matches ProfUpdate::PaneDuration { pane_id, name, ns } ==> {
                let (old_stats, stats) = (
                    stats_of(view.pane_durations, (pane_id, name@)),
                    stats_of(after.pane_durations, (pane_id, name@)),
                );
                stats.total_ns == old_stats.total_ns + ns && stats.count == old_stats.count + 1
            }
        }),
{
    match update {
        ProfUpdate::Counter { name, value } => {
            law_counter_adds_to_its_name(view.counters, (0, name@), value, (0, name@));
        },
        ProfUpdate::PaneCounter { pane_id, name, value } => {
            let key = (pane_id, name@);
            law_counter_adds_to_its_name(view.pane_counters, key, value, key);
        },
        ProfUpdate::Duration { name, ns } => {
            law_duration_adds_to_its_name(view.durations, (0, name@), ns, (0, name@));
        },
        ProfUpdate::PaneDuration { pane_id, name, ns } => {
            let key = (pane_id, name@);
            law_duration_adds_to_its_name(view.pane_durations, key, ns, key);
        },
    }
}

/// A count under a key is the number of its entry, and 0 without one.
pub proof fn law_count_is_that_of_entry(entries: Seq<(Key, u64)>, key: Key)
    requires
        table::ascending(entries),
    ensures
        forall|i: int|
            0 <= i < entries.len() && (#[trigger] entries[i]).0 == key ==> count_of(entries, key)
                == entries[i].1,
        (forall|i: int| 0 <= i < entries.len() ==> (#[trigger] entries[i]).0 != key) ==> count_of(
            entries,
            key,
        ) == 0,
{
    table::law_lookup_finds_entry(entries, key);
}

/// The first update starts the window, at its own time; later ones keep it. Profiling
/// stays enabled.
pub proof fn law_first_update_starts_window(
    state: ProfStateView,
    update: ProfUpdate,
    now_ns: u128,
)
    requires
        state.enabled,
    ensures
        ({
            let after = state_recorded(state, update, now_ns);
            &&& after.enabled
            &&& after.profiler matches Some(profiler) && {
                &&& state.profiler is None ==> profiler.window_started == now_ns
                &&& state.profiler matches Some(before) ==> profiler.window_started
                    == before.window_started
            }
            &&& state.profiler matches Some(before) ==> after.profiler == Some(
                recorded(before, update),
            )
        }),
{
}

/// A line joins texts with commas: the line of two lists in a row is the line of the
/// first, a comma, and the line of the second. One text alone is its own line.
pub proof fn law_lines_are_joined_with_commas(a: Seq<Seq<char>>, b: Seq<Seq<char>>)
    ensures
        a.len() > 0 && b.len() > 0 ==> joined(a + b) == joined(a) + seq![','] + joined(b),
        forall|part: Seq<char>| #[trigger] joined(seq![part]) == part,
        joined(Seq::empty()).len() == 0,
    decreases b.len(),
{
    reveal_strlit(",");
    assert(","@ =~= seq![',']);
    if a.len() > 0 && b.len() > 0 {
        let before = b.drop_last();
        assert((a + b).drop_last() =~= a + before);
        assert((a + b).last() == b.last());
        if before.len() > 0 {
            law_lines_are_joined_with_commas(a, before);
            assert(joined(a + b) =~= joined(a) + seq![','] + joined(b));
        } else {
            assert(a + before =~= a);
            assert(joined(a + b) =~= joined(a) + seq![','] + joined(b));
        }
    }
}

/// One entry more adds its text to the line, after a comma unless it is the first.
pub proof fn law_entry_adds_its_text(
    counts: Seq<(Key, u64)>,
    count: (Key, u64),
    times: Seq<(Key, DurationStats)>,
    time: (Key, DurationStats),
    of_pane: bool,
)
    ensures
        counts.len() == 0 ==> counts_line(counts.push(count), of_pane) == count_text(
            count,
            of_pane,
        ),
        counts.len() > 0 ==> counts_line(counts.push(count), of_pane) == counts_line(
            counts,
            of_pane,
        ) + seq![','] + count_text(count, of_pane),
        times.len() == 0 ==> durations_line(times.push(time), of_pane) == duration_text(
            time,
            of_pane,
        ),
        times.len() > 0 ==> durations_line(times.push(time), of_pane) == durations_line(
            times,
            of_pane,
        ) + seq![','] + duration_text(time, of_pane),
{
    let a = Seq::new(counts.len(), |i: int| count_text(counts[i], of_pane));
    let b = Seq::new(times.len(), |i: int| duration_text(times[i], of_pane));
    let more_counts = counts.push(count);
    let more_times = times.push(time);
    assert(Seq::new(more_counts.len(), |i: int| count_text(more_counts[i], of_pane)) =~= a.push(
        count_text(count, of_pane),
    ));
    assert(Seq::new(more_times.len(), |i: int| duration_text(more_times[i], of_pane)) =~= b.push(
        duration_text(time, of_pane),
    ));
    lemma_joined_push(a, count_text(count, of_pane));
    lemma_joined_push(b, duration_text(time, of_pane));
    reveal_strlit(",");
    assert(","@ =~= seq![',']);
    if counts.len() == 0 {
        assert(counts_line(more_counts, of_pane) =~= count_text(count, of_pane));
    }
    if times.len() == 0 {
        assert(durations_line(more_times, of_pane) =~= duration_text(time, of_pane));
    }
}

/// An entry that belongs to no pane is labelled with its name. One that belongs to a pane
/// is labelled `pane.`, a numeral of the pane's number, a dot and its name.
pub proof fn law_label_names_pane(key: Key)
    ensures
        label(key, false) == key.1,
        ({
            let digits = decimal::decimal_text(key.0 as nat);
            &&& label(key, true) == seq!['p', 'a', 'n', 'e', '.'] + digits + seq!['.'] + key.1
            &&& decimal::text_value(digits) == key.0
        }),
{
    reveal_strlit("pane.");
    reveal_strlit(".");
    assert("pane."@ =~= seq!['p', 'a', 'n', 'e', '.']);
    assert("."@ =~= seq!['.']);
    decimal::law_decimal_text_denotes_number(key.0 as nat);
}

/// A count is written as its label, an equals sign and a numeral of the count.
pub proof fn law_count_text_denotes_count(entry: (Key, u64), of_pane: bool)
    ensures
        ({
            let digits = decimal::decimal_text(entry.1 as nat);
            &&& count_text(entry, of_pane) == label(entry.0, of_pane) + seq!['='] + digits
            &&& decimal::text_value(digits) == entry.1
        }),
{
    reveal_strlit("=");
    assert("="@ =~= seq!['=']);
    decimal::law_decimal_text_denotes_number(entry.1 as nat);
}

/// The statistics of durations are written as numerals of how many there are, of their
/// average and of the longest, the latter two in whole microseconds.
pub proof fn law_stats_text_denotes_stats(stats: DurationStats)
    ensures
        ({
            let count = decimal::decimal_text(stats.count as nat);
            let average = decimal::decimal_text(average_us(stats));
            let longest = decimal::decimal_text(stats.max_ns as nat / 1_000);
            &&& stats_text(stats) == seq!['=', 'c', 'o', 'u', 'n', 't', ':'] + count + seq![
                ' ',
                'a',
                'v',
                'g',
                '_',
                'u',
                's',
                ':',
            ] + average + seq![' ', 'm', 'a', 'x', '_', 'u', 's', ':'] + longest
            &&& decimal::text_value(count) == stats.count
            &&& decimal::text_value(average) == average_us(stats)
            &&& decimal::text_value(longest) * 1_000 <= stats.max_ns < (decimal::text_value(longest)
                + 1) * 1_000
        }),
{
    reveal_strlit("=count:");
    reveal_strlit(" avg_us:");
    reveal_strlit(" max_us:");
    assert("=count:"@ =~= seq!['=', 'c', 'o', 'u', 'n', 't', ':']);
    assert(" avg_us:"@ =~= seq![' ', 'a', 'v', 'g', '_', 'u', 's', ':']);
    assert(" max_us:"@ =~= seq![' ', 'm', 'a', 'x', '_', 'u', 's', ':']);
    decimal::law_decimal_text_denotes_number(stats.count as nat);
    decimal::law_decimal_text_denotes_number(average_us(stats));
    decimal::law_decimal_text_denotes_number(stats.max_ns as nat / 1_000);
}

/// Each line of a report is that of its own table: it does not change with the others.
pub proof fn law_report_lines_are_apart(view: ProfilerView, other: ProfilerView, now_ns: u128)
    ensures
        view.counters == other.counters ==> report(view, now_ns).counters == report(
            other,
            now_ns,
        ).counters && report(view, now_ns).counters == counts_line(other.counters, false),
        view.pane_counters == other.pane_counters ==> report(view, now_ns).pane_counters == report(
            other,
            now_ns,
        ).pane_counters && report(view, now_ns).pane_counters == counts_line(
            other.pane_counters,
            true,
        ),
        view.durations == other.durations ==> report(view, now_ns).durations == report(
            other,
            now_ns,
        ).durations && report(view, now_ns).durations == durations_line(other.durations, false),
        view.pane_durations == other.pane_durations ==> report(view, now_ns).pane_durations
            == report(other, now_ns).pane_durations && report(view, now_ns).pane_durations
            == durations_line(other.pane_durations, true),
{
}

/// Once a window was reported nothing of it is left.
pub proof fn law_new_window_holds_nothing(view: ProfilerView, now_ns: u128, key: Key)
    requires
        flushed(view, now_ns) is Some,
    ensures
        count_of(after_flush(view, now_ns).counters, key) == 0,
        count_of(after_flush(view, now_ns).pane_counters, key) == 0,
        stats_of(after_flush(view, now_ns).durations, key).count == 0,
        stats_of(after_flush(view, now_ns).pane_durations, key).count == 0,
        after_flush(view, now_ns).window_started == now_ns,
{
    assert(forall|i: int| !table::has_key(Seq::<(Key, u64)>::empty(), key, i));
    assert(forall|i: int| !table::has_key(Seq::<(Key, DurationStats)>::empty(), key, i));
}

/// While profiling is enabled an amount is added to its counter and to nothing else,
/// whatever the amount; adding 0 leaves everything as it was. A count of one event is an
/// amount of 1.
pub proof fn law_amount_is_added_to_its_counter(
    state: ProfStateView,
    pane: Option<PaneId>,
    name: &'static str,
    value: u64,
    now_ns: u128,
)
    requires
        state.enabled,
        in_order(profiler_at(state, now_ns)),
        pane matches Some(id) ==> countable(
            profiler_at(state, now_ns).pane_counters,
            (id.0, name@),
            value,
        ),
        pane is None ==> countable(profiler_at(state, now_ns).counters, (0, name@), value),
    ensures
        ({
            let before = profiler_at(state, now_ns);
            let after = profiler_at(state_counted(state, pane, name, value, now_ns), now_ns);
            &&& value == 0 ==> state_counted(state, pane, name, value, now_ns) == state
            &&& after.window_started == before.window_started
            &&& after.durations == before.durations
            &&& after.pane_durations == before.pane_durations
            &&& pane is None ==> after.pane_counters == before.pane_counters && count_of(
                after.counters,
                (0, name@),
            ) == count_of(before.counters, (0, name@)) + value
            &&& pane matches Some(id) ==> after.counters == before.counters && count_of(
                after.pane_counters,
                (id.0, name@),
            ) == count_of(before.pane_counters, (id.0, name@)) + value
        }),
{
    let before = profiler_at(state, now_ns);
    if value > 0 {
        match pane {
            Some(id) => law_update_reaches_its_table(
                before,
                ProfUpdate::PaneCounter { pane_id: id.0, name, value },
            ),
            None => law_update_reaches_its_table(before, ProfUpdate::Counter { name, value }),
        }
    }
}

/// While profiling is enabled a measurement adds the time from its start to now under its
/// name. A measurement that never started adds nothing, and none starts unless profiling
/// is enabled.
pub proof fn law_measurement_adds_elapsed_time(
    state: ProfStateView,
    pane: Option<PaneId>,
    name: &'static str,
    start: u128,
    now_ns: u128,
)
    requires
        state.enabled,
        start <= now_ns,
        in_order(profiler_at(state, now_ns)),
        pane matches Some(id) ==> timeable(
            profiler_at(state, now_ns).pane_durations,
            (id.0, name@),
            (now_ns - start) as u128,
        ),
        pane is None ==> timeable(
            profiler_at(state, now_ns).durations,
            (0, name@),
            (now_ns - start) as u128,
        ),
    ensures
        measured_from(true, start) == Some(start),
        measured_from(false, start) is None,
        state_measured(state, pane, name, None, now_ns) == state,
        ({
            let before = profiler_at(state, now_ns);
            let after = profiler_at(
                state_measured(state, pane, name, Some(start), now_ns),
                now_ns,
            );
            &&& after.counters == before.counters && after.pane_counters == before.pane_counters
            &&& pane is None ==> after.pane_durations == before.pane_durations && stats_of(
                after.durations,
                (0, name@),
            ).total_ns == stats_of(before.durations, (0, name@)).total_ns + now_ns - start
            &&& pane matches Some(id) ==> after.durations == before.durations && stats_of(
                after.pane_durations,
                (id.0, name@),
            ).total_ns == stats_of(before.pane_durations, (id.0, name@)).total_ns + now_ns - start
        }),
{
    let before = profiler_at(state, now_ns);
    let ns = elapsed(start, now_ns);
    assert(ns == now_ns - start);
    match pane {
        Some(id) => law_update_reaches_its_table(
            before,
            ProfUpdate::PaneDuration { pane_id: id.0, name, ns },
        ),
        None => law_update_reaches_its_table(before, ProfUpdate::Duration { name, ns }),
    }
}

/// A state reports exactly if profiling is enabled and a second has passed since its
/// window started. It is empty then, and the next window starts. A state that recorded
/// nothing yet reports nothing and starts its window.
pub proof fn law_state_reports_once_a_second(state: ProfStateView, now_ns: u128)
    ensures
        state_report(state, now_ns) is Some <==> state.enabled && (state.profiler matches Some(
            profiler,
        ) && now_ns >= profiler.window_started + 1_000_000_000),
        state_report(state, now_ns) is Some ==> state_flushed(state, now_ns).profiler == Some(
            empty_window(now_ns),
        ),
        !state.enabled ==> state_flushed(state, now_ns) == state,
        state.enabled && state.profiler is None ==> state_flushed(state, now_ns).profiler == Some(
            empty_window(now_ns),
        ),
        state.profiler is Some && state_report(state, now_ns) is None ==> state_flushed(
            state,
            now_ns,
        ) == state,
        state_flushed(state, now_ns).enabled == state.enabled,
{
}

/// Moving the start of the window moves nothing else.
pub proof fn law_restart_keeps_tables(state: ProfStateView, now_ns: u128)
    ensures
        state_restarted(state, now_ns).enabled == state.enabled,
        state.profiler is None ==> state_restarted(state, now_ns).profiler is None,
        state.profiler matches Some(before) ==> (state_restarted(state, now_ns).profiler matches
            Some(after) && after.window_started == now_ns && after.counters == before.counters
            && after.pane_counters == before.pane_counters && after.durations == before.durations
            && after.pane_durations == before.pane_durations),
{
}

/// While profiling is enabled an update is accepted exactly if what it adds up to can
/// still be counted. Otherwise every update is accepted.
pub proof fn law_update_is_accepted_if_it_fits(
    state: ProfStateView,
    update: ProfUpdate,
    now_ns: u128,
)
    ensures
        ({
            let view = profiler_at(state, now_ns);
            state_recordable(state, update, now_ns) <==> !state.enabled || match update {
                ProfUpdate::Counter { name, value } => count_of(view.counters, (0, name@)) + value
                    <= 0xffff_ffff_ffff_ffff,
                ProfUpdate::PaneCounter { pane_id, name, value } => count_of(
                    view.pane_counters,
                    (pane_id, name@),
                ) + value <= 0xffff_ffff_ffff_ffff,
                ProfUpdate::Duration { name, ns } => {
                    let stats = stats_of(view.durations, (0, name@));
                    stats.count < 0xffff_ffff_ffff_ffff && stats.total_ns + ns <= u128::MAX
                },
                ProfUpdate::PaneDuration { pane_id, name, ns } => {
                    let stats = stats_of(view.pane_durations, (pane_id, name@));
                    stats.count < 0xffff_ffff_ffff_ffff && stats.total_ns + ns <= u128::MAX
                },
            }
        }),
{
}

/// The durations under a key are those of its entry, and none without one.
pub proof fn law_durations_are_those_of_entry(entries: Seq<(Key, DurationStats)>, key: Key)
    requires
        table::ascending(entries),
    ensures
        forall|i: int|
            0 <= i < entries.len() && (#[trigger] entries[i]).0 == key ==> stats_of(entries, key)
                == entries[i].1,
        (forall|i: int| 0 <= i < entries.len() ==> (#[trigger] entries[i]).0 != key) ==> stats_of(
            entries,
            key,
        ).count == 0 && stats_of(entries, key).total_ns == 0 && stats_of(entries, key).max_ns == 0,
{
    table::law_lookup_finds_entry(entries, key);
}

/// Profiling is off without a setting.
pub proof fn law_profiling_is_opt_in(setting: Seq<char>)
    ensures
        !enabled_by(None),
        enabled_by(Some(setting)) <==> {
            ||| setting == seq!['1']
            ||| setting == seq!['t', 'r', 'u', 'e']
            ||| setting == seq!['y', 'e', 's']
            ||| setting == seq!['o', 'n']
        },
{
    law_four_settings_turn_on(setting);
}

} // verus!
