//! The persistence scheduler: it decides when the layout is written to
//! storage.
//!
//! Changes of the layout arm a timer; a burst of changes keeps pushing the
//! deadline back, so that one write follows the burst. When the timer runs
//! out, the layout is written unless it is what was written last. At
//! shutdown the layout is written whatever the timer says.
//!
//! The scheduler does no work of its own: each of its functions takes what
//! has happened and says what is to be done.

use crate::codec::{PersistedState, PersistedStateView};
use crate::dock::{snapshot_of, DockArea};
use vstd::prelude::*;

verus! {

/// The quiet time that has to follow a change before the layout is written.
pub const DEBOUNCE_WINDOW: u64 = 10;

/// The state of the scheduler.
#[derive(Clone, Copy, Debug, PartialEq, Eq, Structural)]
pub enum SchedulerState {
    /// Nothing is pending.
    Idle,
    /// A change waits to be written once `deadline` is reached.
    Armed { deadline: u64 },
    /// A write is under way.
    Writing,
    /// The last write of the session has been asked for.
    Flushed,
}

/// What is to be done, as a mathematical value.
pub enum ActionView {
    Nothing,
    ArmTimer { deadline: u64 },
    Write { snapshot: PersistedStateView },
    ReportFailure,
}

/// What the application is to do next.
#[derive(Debug, PartialEq, Eq)]
pub enum SchedulerAction {
    /// Nothing.
    Nothing,
    /// Cancel the timer that is pending, if any, and start one that runs out
    /// at `deadline`.
    ArmTimer { deadline: u64 },
    /// Replace what is in storage by `snapshot`, and say how it went.
    Write { snapshot: PersistedState },
    /// Report that the layout could not be saved.
    ReportFailure,
}

impl View for SchedulerAction {
    type V = ActionView;

    open spec fn view(&self) -> ActionView {
        match self {
            SchedulerAction::Nothing => ActionView::Nothing,
            SchedulerAction::ArmTimer { deadline } => ActionView::ArmTimer { deadline: *deadline },
            SchedulerAction::Write { snapshot } => ActionView::Write { snapshot: snapshot@ },
            SchedulerAction::ReportFailure => ActionView::ReportFailure,
        }
    }
}

/// What a scheduler is, as a mathematical value.
pub struct SchedulerView {
    pub state: SchedulerState,
    /// What was written last with success.
    pub last: Option<PersistedStateView>,
    /// What the write under way is writing.
    pub in_flight: Option<PersistedStateView>,
}

/// The scheduler of one dock area.
pub struct Scheduler {
    state: SchedulerState,
    last: Option<PersistedState>,
    in_flight: Option<PersistedState>,
}

/// The view of a stored state that may be absent.
pub open spec fn state_view(state: Option<PersistedState>) -> Option<PersistedStateView> {
    match state {
        Some(s) => Some(s@),
        None => None,
    }
}

impl View for Scheduler {
    type V = SchedulerView;

    closed spec fn view(&self) -> SchedulerView {
        SchedulerView {
            state: self.state,
            last: state_view(self.last),
            in_flight: state_view(self.in_flight),
        }
    }
}

/// The scheduler before anything has happened: idle, with nothing written.
pub open spec fn idle_scheduler() -> SchedulerView {
    SchedulerView { state: SchedulerState::Idle, last: None, in_flight: None }
}

/// The time at which a timer armed at `now` runs out.
pub open spec fn deadline_after(now: u64) -> u64 {
    if now + DEBOUNCE_WINDOW > u64::MAX {
        u64::MAX
    } else {
        (now + DEBOUNCE_WINDOW) as u64
    }
}

/// What a change of the layout at the time `now` leads to: while the
/// scheduler is idle or armed, the timer is armed anew; otherwise nothing.
pub open spec fn after_change(s: SchedulerView, now: u64) -> (SchedulerView, ActionView) {
    match s.state {
        SchedulerState::Idle | SchedulerState::Armed { .. } => (
            SchedulerView { state: SchedulerState::Armed { deadline: deadline_after(now) }, ..s },
            ActionView::ArmTimer { deadline: deadline_after(now) },
        ),
        _ => (s, ActionView::Nothing),
    }
}

/// What the running out of a timer at the time `now` leads to, where
/// `snapshot` is the layout at that time: while the scheduler is armed and
/// its deadline is reached, the snapshot is written, unless it is what was
/// written last; otherwise nothing.
pub open spec fn after_expiry(s: SchedulerView, now: u64, snapshot: PersistedStateView) -> (
    SchedulerView,
    ActionView,
) {
    match s.state {
        SchedulerState::Armed { deadline } => if now < deadline {
            (s, ActionView::Nothing)
        } else if s.last == Some(snapshot) {
            (SchedulerView { state: SchedulerState::Idle, ..s }, ActionView::Nothing)
        } else {
            (
                SchedulerView { state: SchedulerState::Writing, in_flight: Some(snapshot), ..s },
                ActionView::Write { snapshot },
            )
        },
        _ => (s, ActionView::Nothing),
    }
}

/// What the end of a write leads to: the scheduler is idle again; what was
/// written is remembered where the write succeeded, and the failure is
/// reported where it did not.
pub open spec fn after_write(s: SchedulerView, succeeded: bool) -> (SchedulerView, ActionView) {
    match s.state {
        SchedulerState::Writing => if succeeded {
            (
                SchedulerView { state: SchedulerState::Idle, last: s.in_flight, in_flight: None },
                ActionView::Nothing,
            )
        } else {
            (
                SchedulerView { state: SchedulerState::Idle, in_flight: None, ..s },
                ActionView::ReportFailure,
            )
        },
        _ => (s, ActionView::Nothing),
    }
}

/// What shutdown leads to, where `snapshot` is the layout at that time: the
/// snapshot is written, whatever the state of the timer and whatever was
/// written last. A scheduler that has flushed does nothing more.
pub open spec fn after_shutdown(s: SchedulerView, snapshot: PersistedStateView) -> (
    SchedulerView,
    ActionView,
) {
    match s.state {
        SchedulerState::Flushed => (s, ActionView::Nothing),
        _ => (
            SchedulerView { state: SchedulerState::Flushed, last: None, in_flight: None },
            ActionView::Write { snapshot },
        ),
    }
}

/// The scheduler after the first `n` of a run of changes at the given times.
pub open spec fn after_changes(s: SchedulerView, times: Seq<u64>, n: nat) -> SchedulerView
    decreases n,
{
    if n == 0 || n > times.len() {
        s
    } else {
        after_change(after_changes(s, times, (n - 1) as nat), times[n - 1]).0
    }
}

/// A burst of changes leaves one timer pending, that of the last change: the
/// scheduler is armed with the deadline of the last change, and remembers
/// what it remembered before.
pub proof fn lemma_burst_arms_once(s: SchedulerView, times: Seq<u64>, n: nat)
    requires
        s.state is Idle || s.state is Armed,
        1 <= n <= times.len(),
    ensures
        after_changes(s, times, n) == (SchedulerView {
            state: SchedulerState::Armed { deadline: deadline_after(times[n - 1]) },
            ..s
        }),
    decreases n,
{
    if n > 1 {
        lemma_burst_arms_once(s, times, (n - 1) as nat);
    } else {
        assert(after_changes(s, times, 0) == s);
    }
}

/// However many changes a burst has, exactly one write follows it: no timer
/// that runs out before the deadline of the last change leads to a write; the
/// first one that runs out at or after it leads to one write, where the
/// layout is not what was written last; and no timer that runs out after
/// that leads to another.
pub proof fn lemma_burst_is_one_write(
    s: SchedulerView,
    times: Seq<u64>,
    early: u64,
    due: u64,
    late: u64,
    snapshot: PersistedStateView,
    other: PersistedStateView,
)
    requires
        s.state is Idle || s.state is Armed,
        times.len() >= 1,
        early < deadline_after(times.last()) <= due,
        s.last != Some(snapshot),
    ensures
        ({
            let armed = after_changes(s, times, times.len());
            let waiting = after_expiry(armed, early, other);
            let written = after_expiry(waiting.0, due, snapshot);
            let after = after_expiry(written.0, late, other);
            &&& waiting.1 == ActionView::Nothing
            &&& waiting.0 == armed
            &&& written.1 == (ActionView::Write { snapshot })
            &&& written.0.state == SchedulerState::Writing
            &&& after.1 == ActionView::Nothing
            &&& after.0 == written.0
        }),
{
    lemma_burst_arms_once(s, times, times.len());
}

/// Nothing is written twice in a row: once a snapshot has been written with
/// success, a change followed by the running out of its timer leads to no
/// write where the layout is still that snapshot.
pub proof fn lemma_unchanged_is_not_written(
    s: SchedulerView,
    snapshot: PersistedStateView,
    changed_at: u64,
    now: u64,
)
    requires
        s.state is Writing,
        s.in_flight == Some(snapshot),
    ensures
        ({
            let written = after_write(s, true).0;
            let armed = after_change(written, changed_at).0;
            let expired = after_expiry(armed, now, snapshot);
            &&& written.last == Some(snapshot)
            &&& expired.1 == ActionView::Nothing
            &&& now >= deadline_after(changed_at) ==> expired.0.state == SchedulerState::Idle
        }),
{
}

/// A change is not lost at shutdown: where shutdown follows a change before
/// its timer has run out, the layout as it is at shutdown is written.
pub proof fn lemma_shutdown_flushes(s: SchedulerView, changed_at: u64, snapshot: PersistedStateView)
    requires
        !(s.state is Flushed),
    ensures
        after_shutdown(after_change(s, changed_at).0, snapshot).1 == (ActionView::Write {
            snapshot,
        }),
        after_shutdown(after_change(s, changed_at).0, snapshot).0.state == SchedulerState::Flushed,
        after_shutdown(s, snapshot).1 == (ActionView::Write { snapshot }),
{
}

impl Scheduler {
    /// A scheduler that is idle and has written nothing yet.
    pub fn new() -> (r: Scheduler)
        ensures
            r@ == idle_scheduler(),
    {
        Scheduler { state: SchedulerState::Idle, last: None, in_flight: None }
    }

    /// The state of the scheduler.
    pub fn state(&self) -> (r: SchedulerState)
        ensures
            r == self@.state,
    {
        self.state
    }

    /// What was written last with success.
    pub fn last_persisted(&self) -> (r: Option<&PersistedState>)
        ensures
            match r {
                Some(s) => self@.last == Some(s@),
                None => self@.last is None,
            },
    {
        self.last.as_ref()
    }

    /// The layout has changed at the time `now`.
    pub fn layout_changed(&mut self, now: u64) -> (r: SchedulerAction)
        ensures
            final(self)@ == after_change(old(self)@, now).0,
            r@ == after_change(old(self)@, now).1,
    {
        match self.state {
            SchedulerState::Idle | SchedulerState::Armed { .. } => {
                let deadline: u64 = if now > u64::MAX - DEBOUNCE_WINDOW {
                    u64::MAX
                } else {
                    now + DEBOUNCE_WINDOW
                };
                self.state = SchedulerState::Armed { deadline };
                SchedulerAction::ArmTimer { deadline }
            },
            _ => SchedulerAction::Nothing,
        }
    }

    /// A timer has run out at the time `now`. The layout of `area` is what
    /// is written, where anything is.
    pub fn timer_expired(&mut self, now: u64, area: &DockArea) -> (r: SchedulerAction)
        ensures
            final(self)@ == after_expiry(old(self)@, now, snapshot_of(area@)).0,
            r@ == after_expiry(old(self)@, now, snapshot_of(area@)).1,
    {
        match self.state {
            SchedulerState::Armed { deadline } => {
                if now < deadline {
                    return SchedulerAction::Nothing;
                }
                let snapshot = area.dump();
                let unchanged: bool = match &self.last {
                    Some(last) => last.same_as(&snapshot),
                    None => false,
                };
                if unchanged {
                    self.state = SchedulerState::Idle;
                    SchedulerAction::Nothing
                } else {
                    self.state = SchedulerState::Writing;
                    self.in_flight = Some(snapshot.duplicate());
                    SchedulerAction::Write { snapshot }
                }
            },
            _ => SchedulerAction::Nothing,
        }
    }

    /// The write that was under way has ended.
    pub fn write_finished(&mut self, succeeded: bool) -> (r: SchedulerAction)
        ensures
            final(self)@ == after_write(old(self)@, succeeded).0,
            r@ == after_write(old(self)@, succeeded).1,
    {
        match self.state {
            SchedulerState::Writing => {
                self.state = SchedulerState::Idle;
                let written = self.in_flight.take();
                if succeeded {
                    self.last = written;
                    SchedulerAction::Nothing
                } else {
                    SchedulerAction::ReportFailure
                }
            },
            _ => SchedulerAction::Nothing,
        }
    }

    /// The application shuts down. The layout of `area` is what is written.
    pub fn shutdown(&mut self, area: &DockArea) -> (r: SchedulerAction)
        ensures
            final(self)@ == after_shutdown(old(self)@, snapshot_of(area@)).0,
            r@ == after_shutdown(old(self)@, snapshot_of(area@)).1,
    {
        match self.state {
            SchedulerState::Flushed => SchedulerAction::Nothing,
            _ => {
                self.state = SchedulerState::Flushed;
                self.last = None;
                self.in_flight = None;
                SchedulerAction::Write { snapshot: area.dump() }
            },
        }
    }
}

} // verus!
