//! The sampling loop of one run, as a machine that is told what happened and
//! answers what to do.
//!
//! The machine runs until it is told that the exit flag was seen raised, and
//! is stopped from then on. While it runs, each reading of the counters that
//! gave a sample is recorded, and each that gave none is passed over.

use crate::memory::{MemoryError, TopicalUsage};
use crate::profile::{blank, sample_row, Profile};
use crate::tsv::{encoded, Value};
use vstd::prelude::*;

verus! {

/// The state of the sampling loop.
#[derive(Clone, Copy, Debug, PartialEq, Eq)]
pub enum State {
    /// The child runs, and samples are taken.
    Running,
    /// The child was seen to have exited. Nothing is done any more.
    Stopped,
}

/// What happened in one turn of the sampling loop.
#[derive(Debug)]
pub enum Event {
    /// The exit flag was seen raised.
    Exit,
    /// The counters were read, at this time in millionths of a second since
    /// the run began.
    Reading(Result<TopicalUsage, MemoryError>, u64),
}

/// What to do after one turn of the sampling loop.
#[derive(Clone, Debug, PartialEq, Eq)]
pub enum Action {
    /// Append this line to the text of the profile.
    Append(String),
    /// Nothing: the reading gave no sample.
    Skip,
    /// Leave the loop, and report this summary of the run.
    Finish(Profile),
    /// Nothing: the loop was left before.
    Halted,
}

/// What one turn of the sampling loop comes to.
pub ghost enum Effect {
    /// The row of a sample is appended to the profile.
    Append(Seq<Value>),
    /// Nothing: the reading gave no sample.
    Skip,
    /// The loop is left, with this summary of the run.
    Finish(Profile),
    /// Nothing: the loop was left before.
    Halted,
}

/// The sampling loop of one run.
pub struct Sampler {
    state: State,
    profile: Profile,
}

/// What a sampler holds: its state, and the summary of the run so far.
pub ghost struct Machine {
    /// The state of the loop.
    pub state: State,
    /// The summary of the run so far.
    pub profile: Profile,
}

impl View for Sampler {
    type V = Machine;

    closed spec fn view(&self) -> Machine {
        Machine { state: self.state, profile: self.profile }
    }
}

/// The machine at the start of a run whose summary is `profile`.
pub open spec fn started(profile: Profile) -> Machine {
    Machine { state: State::Running, profile }
}

/// One turn: the machine after `event`, and what the turn comes to.
///
/// A stopped machine stays as it is. A running machine stops when the exit
/// flag was seen, records a reading that gave a sample, and passes over one
/// that gave none.
pub open spec fn next(m: Machine, event: Event) -> (Machine, Effect) {
    match m.state {
        State::Stopped => (m, Effect::Halted),
        State::Running => match event {
            Event::Exit => (
                Machine { state: State::Stopped, profile: m.profile },
                Effect::Finish(m.profile),
            ),
            Event::Reading(Ok(data), elapsed) => (
                Machine { state: State::Running, profile: m.profile.after(elapsed, data) },
                Effect::Append(sample_row(elapsed, data)),
            ),
            Event::Reading(Err(_), _) => (m, Effect::Skip),
        },
    }
}

/// Whether `action` says to do what `effect` is.
pub open spec fn conveys(action: Action, effect: Effect) -> bool {
    match effect {
        Effect::Append(r) => action matches Action::Append(line) && line@ == encoded(r),
        Effect::Skip => action is Skip,
        Effect::Finish(profile) => action == Action::Finish(profile),
        Effect::Halted => action is Halted,
    }
}

/// The machine after all of `events`, in order, from `start`.
pub open spec fn run(start: Machine, events: Seq<Event>) -> Machine
    decreases events.len(),
{
    if events.len() == 0 {
        start
    } else {
        next(run(start, events.drop_last()), events.last()).0
    }
}

/// What the turn of the event at `i` comes to, in a run of `events` from
/// `start`.
pub open spec fn effect_at(start: Machine, events: Seq<Event>, i: int) -> Effect {
    next(run(start, events.take(i)), events[i]).1
}

/// The rows appended to the profile in a run of `events` from `start`, in
/// order.
pub open spec fn recorded(start: Machine, events: Seq<Event>) -> Seq<Seq<Value>>
    decreases events.len(),
{
    if events.len() == 0 {
        Seq::empty()
    } else {
        let before = recorded(start, events.drop_last());
        match next(run(start, events.drop_last()), events.last()).1 {
            Effect::Append(r) => before.push(r),
            _ => before,
        }
    }
}

/// Whether none of the first `i` of `events` is the exit.
pub open spec fn no_exit_before(events: Seq<Event>, i: int) -> bool {
    forall|j: int| 0 <= j < i && j < events.len() ==> !((#[trigger] events[j]) is Exit)
}

/// The time at which the counters were read, for the event of a reading.
pub open spec fn stamp(event: Event) -> u64 {
    match event {
        Event::Reading(_, elapsed) => elapsed,
        Event::Exit => 0,
    }
}

/// Whether the times of the readings among `events` never go back.
pub open spec fn steady_clock(events: Seq<Event>) -> bool {
    forall|i: int, j: int|
        0 <= i <= j < events.len() && (#[trigger] events[i]) is Reading && (
        #[trigger] events[j]) is Reading ==> stamp(events[i]) <= stamp(events[j])
}

/// The time of a row of a sample.
pub open spec fn time_of(r: Seq<Value>) -> u64 {
    crate::tsv::millionths_of(r[0])
}

/// The high-water mark of the resident size in a row of a sample.
pub open spec fn real_peak_of(r: Seq<Value>) -> u64 {
    crate::tsv::whole_of(r[2])
}

/// The high-water mark of the virtual size in a row of a sample.
pub open spec fn virtual_peak_of(r: Seq<Value>) -> u64 {
    crate::tsv::whole_of(r[4])
}

/// A machine that ran from the running state is stopped exactly when one of
/// the events was the exit.
pub proof fn lemma_stopped_by_exit(profile: Profile, events: Seq<Event>)
    ensures
        run(started(profile), events).state is Stopped <==> !no_exit_before(
            events,
            events.len() as int,
        ),
    decreases events.len(),
{
    if events.len() > 0 {
        let init = events.drop_last();
        lemma_stopped_by_exit(profile, init);
        if no_exit_before(init, init.len() as int) {
            if events.last() is Exit {
                assert(events[events.len() - 1] is Exit);
            } else {
                assert forall|j: int| 0 <= j < events.len() implies !((#[trigger] events[j])
                    is Exit) by {
                    if j < init.len() {
                        assert(init[j] == events[j]);
                    }
                }
            }
        } else {
            let j = choose|j: int| 0 <= j < init.len() && (#[trigger] init[j]) is Exit;
            assert(events[j] is Exit);
        }
    }
}

/// Exactly-once termination. In a run from the running state, a turn leaves
/// the loop exactly when its event is the first exit: only once the exit flag
/// was seen, at the first turn that saw it, and at no turn after that, however
/// many more exits follow.
pub proof fn lemma_finishes_once(profile: Profile, events: Seq<Event>, i: int)
    requires
        0 <= i < events.len(),
    ensures
        effect_at(started(profile), events, i) is Finish <==> events[i] is Exit && no_exit_before(
            events,
            i,
        ),
        !no_exit_before(events, i) <==> effect_at(started(profile), events, i) is Halted,
{
    let before = events.take(i);
    lemma_stopped_by_exit(profile, before);
    if no_exit_before(before, i) {
        assert forall|j: int| 0 <= j < i && j < events.len() implies !((#[trigger] events[j])
            is Exit) by {
            assert(before[j] == events[j]);
        }
    } else {
        let j = choose|j: int| 0 <= j < i && j < before.len() && (#[trigger] before[j]) is Exit;
        assert(events[j] is Exit);
    }
}

/// No two turns of a run leave the loop.
pub proof fn lemma_finish_is_unique(profile: Profile, events: Seq<Event>, i: int, j: int)
    requires
        0 <= i < events.len(),
        0 <= j < events.len(),
        effect_at(started(profile), events, i) is Finish,
        effect_at(started(profile), events, j) is Finish,
    ensures
        i == j,
{
    lemma_finishes_once(profile, events, i);
    lemma_finishes_once(profile, events, j);
    if i < j {
        assert(events[i] is Exit);
    } else if j < i {
        assert(events[j] is Exit);
    }
}

/// Once the exit flag was seen, the loop was left: at the turn that saw it, or
/// at one before.
pub proof fn lemma_exit_finishes(profile: Profile, events: Seq<Event>, k: int)
    requires
        0 <= k < events.len(),
        events[k] is Exit,
    ensures
        exists|i: int| 0 <= i <= k && #[trigger] effect_at(started(profile), events, i) is Finish,
    decreases k,
{
    lemma_finishes_once(profile, events, k);
    if no_exit_before(events, k) {
        assert(effect_at(started(profile), events, k) is Finish);
    } else {
        let j = choose|j: int| 0 <= j < k && j < events.len() && (#[trigger] events[j]) is Exit;
        lemma_exit_finishes(profile, events, j);
    }
}

/// The time of each row recorded in a run is the time of one of the readings.
pub proof fn lemma_recorded_times_read(profile: Profile, events: Seq<Event>)
    ensures
        forall|k: int|
            0 <= k < recorded(started(profile), events).len() ==> exists|i: int|
                0 <= i < events.len() && (#[trigger] events[i]) is Reading && stamp(events[i])
                    == time_of(#[trigger] recorded(started(profile), events)[k]),
    decreases events.len(),
{
    if events.len() > 0 {
        let init = events.drop_last();
        let before = recorded(started(profile), init);
        let rows = recorded(started(profile), events);
        lemma_recorded_times_read(profile, init);
        assert forall|k: int| 0 <= k < rows.len() implies exists|i: int|
            0 <= i < events.len() && (#[trigger] events[i]) is Reading && stamp(events[i])
                == time_of(#[trigger] rows[k]) by {
            if k < before.len() {
                assert(rows[k] == before[k]);
                let i = choose|i: int|
                    0 <= i < init.len() && (#[trigger] init[i]) is Reading && stamp(init[i])
                        == time_of(before[k]);
                assert(events[i] == init[i]);
            } else {
                let i = events.len() - 1;
                assert(events[i] is Reading && stamp(events[i]) == time_of(rows[k]));
            }
        }
    }
}

/// Monotonicity. Where the times of the readings never go back, the times of
/// the rows recorded in a run never go back either.
pub proof fn lemma_recorded_times_steady(profile: Profile, events: Seq<Event>)
    requires
        steady_clock(events),
    ensures
        forall|a: int, b: int|
            0 <= a <= b < recorded(started(profile), events).len() ==> time_of(
                #[trigger] recorded(started(profile), events)[a],
            ) <= time_of(#[trigger] recorded(started(profile), events)[b]),
    decreases events.len(),
{
    if events.len() > 0 {
        let init = events.drop_last();
        let before = recorded(started(profile), init);
        let rows = recorded(started(profile), events);
        assert(steady_clock(init)) by {
            assert forall|i: int, j: int|
                0 <= i <= j < init.len() && (#[trigger] init[i]) is Reading && (
                #[trigger] init[j]) is Reading implies stamp(init[i]) <= stamp(init[j]) by {
                assert(init[i] == events[i] && init[j] == events[j]);
            }
        }
        lemma_recorded_times_steady(profile, init);
        lemma_recorded_times_read(profile, init);
        assert forall|a: int, b: int| 0 <= a <= b < rows.len() implies time_of(#[trigger] rows[a])
            <= time_of(#[trigger] rows[b]) by {
            if b < before.len() {
                assert(rows[a] == before[a] && rows[b] == before[b]);
            } else if a < before.len() {
                assert(rows[a] == before[a]);
                let i = choose|i: int|
                    0 <= i < init.len() && (#[trigger] init[i]) is Reading && stamp(init[i])
                        == time_of(before[a]);
                assert(events[i] == init[i]);
                assert(events[events.len() - 1] is Reading);
            }
        }
    }
}

/// The summary of a run from a blank profile: each peak is the largest
/// high-water mark among the rows recorded, and the time is that of the last
/// row; all are zero where no row was recorded.
pub proof fn lemma_summary_of_run(events: Seq<Event>)
    ensures
        ({
            let rows = recorded(started(blank()), events);
            let summary = run(started(blank()), events).profile;
            &&& rows.len() == 0 ==> summary == blank()
            &&& rows.len() > 0 ==> summary.elapsed == time_of(rows.last())
            &&& forall|k: int| 0 <= k < rows.len() ==> real_peak_of(#[trigger] rows[k]) <= summary.real_peak
            &&& forall|k: int|
                0 <= k < rows.len() ==> virtual_peak_of(#[trigger] rows[k]) <= summary.virtual_peak
            &&& rows.len() > 0 ==> exists|k: int|
                0 <= k < rows.len() && real_peak_of(#[trigger] rows[k]) == summary.real_peak
            &&& rows.len() > 0 ==> exists|k: int|
                0 <= k < rows.len() && virtual_peak_of(#[trigger] rows[k]) == summary.virtual_peak
        }),
    decreases events.len(),
{
    if events.len() > 0 {
        let init = events.drop_last();
        lemma_summary_of_run(init);
        let before = recorded(started(blank()), init);
        let rows = recorded(started(blank()), events);
        let m = run(started(blank()), init);
        let summary = run(started(blank()), events).profile;
        match next(m, events.last()).1 {
            Effect::Append(r) => {
                assert(rows == before.push(r));
                assert(rows.last() == r);
                assert forall|k: int| 0 <= k < rows.len() implies real_peak_of(#[trigger] rows[k])
                    <= summary.real_peak && virtual_peak_of(rows[k]) <= summary.virtual_peak by {
                    if k < before.len() {
                        assert(rows[k] == before[k]);
                    }
                }
                if real_peak_of(r) == summary.real_peak {
                    assert(real_peak_of(rows[rows.len() - 1]) == summary.real_peak);
                } else {
                    let k = choose|k: int|
                        0 <= k < before.len() && real_peak_of(#[trigger] before[k])
                            == m.profile.real_peak;
                    assert(rows[k] == before[k]);
                }
                if virtual_peak_of(r) == summary.virtual_peak {
                    assert(virtual_peak_of(rows[rows.len() - 1]) == summary.virtual_peak);
                } else {
                    let k = choose|k: int|
                        0 <= k < before.len() && virtual_peak_of(#[trigger] before[k])
                            == m.profile.virtual_peak;
                    assert(rows[k] == before[k]);
                }
            },
            _ => {
                assert(rows == before);
            },
        }
    }
}

impl Sampler {
    /// The sampler of a run that begins, with the summary `profile`.
    pub fn new(profile: Profile) -> (sampler: Sampler)
        ensures
            sampler@ == started(profile),
    {
        Sampler { state: State::Running, profile }
    }

    /// The state of the loop.
    pub fn state(&self) -> (state: State)
        ensures
            state == self@.state,
    {
        self.state
    }

    /// The summary of the run so far.
    pub fn profile(&self) -> (profile: Profile)
        ensures
            profile == self@.profile,
    {
        self.profile
    }

    /// Takes one turn: moves on by `event`, and says what to do.
    pub fn step(&mut self, event: Event) -> (action: Action)
        ensures
            final(self)@ == next(old(self)@, event).0,
            conveys(action, next(old(self)@, event).1),
    {
        match self.state {
            State::Stopped => Action::Halted,
            State::Running => match event {
                Event::Exit => {
                    self.state = State::Stopped;
                    Action::Finish(self.profile)
                },
                Event::Reading(Ok(data), elapsed) => {
                    let line = self.profile.record(data, elapsed);
                    Action::Append(line)
                },
                Event::Reading(Err(_), _) => Action::Skip,
            },
        }
    }
}

} // verus!
