//! Decisions of the headless run: when to print a progress report and when
//! the run is over. The application feeds the current tick count in and
//! performs the printing, saving and exiting that the answer asks for.
use vstd::prelude::*;

verus! {

/// What the headless monitor remembers between frames.
#[derive(Debug, Clone, Copy, PartialEq, Eq)]
pub struct MonitorState {
    /// Tick count at which the run ends.
    pub target_ticks: u64,
    /// Report progress every this many ticks (0 = final report only).
    pub report_every: u64,
    /// Tick count of the last progress report.
    pub last_report_tick: u64,
}

/// What the monitor asks for on one frame.
#[derive(Debug, Clone, Copy, PartialEq, Eq)]
pub struct MonitorStep {
    /// A progress report is due.
    pub report: bool,
    /// The target tick count is reached: write the final output and exit.
    pub finish: bool,
}

/// A progress report is due at `tick`.
pub open spec fn report_due(state: MonitorState, tick: u64) -> bool {
    state.report_every > 0 && tick > 0 && tick - state.last_report_tick >= state.report_every
}

/// The monitor after a frame at tick count `tick`.
pub open spec fn monitor_next(state: MonitorState, tick: u64) -> MonitorState {
    if report_due(state, tick) {
        MonitorState { last_report_tick: tick, ..state }
    } else {
        state
    }
}

impl MonitorState {
    /// A fresh monitor: nothing reported yet.
    pub fn new(target_ticks: u64, report_every: u64) -> (r: Self)
        ensures
            r.target_ticks == target_ticks,
            r.report_every == report_every,
            r.last_report_tick == 0,
    {
        MonitorState { target_ticks, report_every, last_report_tick: 0 }
    }

    /// Decide what to do at tick count `tick`, remembering a report when one
    /// is due.
    pub fn step(&mut self, tick: u64) -> (r: MonitorStep)
        requires
            old(self).report_every > 0 && tick > 0 ==> old(self).last_report_tick <= tick,
        ensures
            r.report == report_due(*old(self), tick),
            r.finish == (tick >= old(self).target_ticks),
            *final(self) == monitor_next(*old(self), tick),
    {
        let report = self.report_every > 0 && tick > 0 && tick - self.last_report_tick
            >= self.report_every;
        if report {
            self.last_report_tick = tick;
        }
        MonitorStep { report, finish: tick >= self.target_ticks }
    }
}

/// Fed non-decreasing tick counts, the monitor keeps its last report at or
/// behind the current tick, never moves it backwards, and spaces reports at
/// least `report_every` ticks apart.
pub proof fn lemma_reports_spaced(state: MonitorState, tick: u64, later: u64)
    requires
        state.last_report_tick <= tick,
        tick <= later,
    ensures
        state.last_report_tick <= monitor_next(state, tick).last_report_tick <= tick,
        monitor_next(state, tick).last_report_tick <= later,
        report_due(state, tick) ==> tick >= state.last_report_tick + state.report_every
            && state.report_every > 0,
        report_due(monitor_next(state, tick), later) && report_due(state, tick) ==> later >= tick
            + state.report_every,
{
}

/// With reports switched on, a report falls due exactly when `report_every`
/// ticks have passed since the last one: not one tick earlier, and at every
/// tick from then on; a monitor with reports switched off never reports.
pub proof fn lemma_report_due_when_interval_passed(state: MonitorState, tick: u64)
    requires
        state.last_report_tick <= tick,
    ensures
        state.report_every == 0 ==> !report_due(state, tick),
        state.report_every > 0 && tick > 0 ==> (report_due(state, tick) <==> tick >= state.last_report_tick
            + state.report_every),
        report_due(state, tick) ==> monitor_next(state, tick).last_report_tick == tick,
        !report_due(state, tick) ==> monitor_next(state, tick) == state,
        monitor_next(state, tick).target_ticks == state.target_ticks,
        monitor_next(state, tick).report_every == state.report_every,
{
}

} // verus!
