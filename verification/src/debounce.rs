//! The reconcile loop's decisions: when a burst of pod events leads to a
//! scheduling pass, and that passes never overlap.
//!
//! Times are milliseconds on a clock that never runs backwards. The caller turns
//! watch events, timer expiries and finished passes into `Event`s and performs the
//! `Action` that each one yields.

use vstd::prelude::*;

verus! {

/// A pass that has been asked for and has not started.
#[derive(Debug, Clone, Copy, PartialEq, Eq, Structural)]
pub struct Pending {
    /// When the pass is to start.
    pub fire_at: u64,
    /// When the earliest event that no pass has served yet arrived.
    pub first_event: u64,
}

/// What the loop remembers between events.
#[derive(Debug, Clone, Copy, PartialEq, Eq, Structural)]
pub struct Debouncer {
    /// How long after an event a pass starts, unless another event follows.
    pub debounce: u64,
    /// How long an event waits for a pass at most, however many events follow.
    pub timeout: u64,
    /// When a debounce window was last opened.
    pub last_run: u64,
    pub pending: Option<Pending>,
    /// Whether a pass is running.
    pub running: bool,
}

/// What happened.
#[derive(Debug, Clone, Copy, PartialEq, Eq, Structural)]
pub enum Event {
    /// An unscheduled pod was added or changed.
    PodChanged { at: u64 },
    /// The timer that the last `SetTimer` asked for ran out.
    TimerFired { at: u64 },
    /// The running pass came to its end.
    PassFinished { at: u64 },
}

/// What the caller is to do.
#[derive(Debug, Clone, Copy, PartialEq, Eq, Structural)]
pub enum Action {
    Nothing,
    /// Forget any earlier timer and wake the loop at `fire_at`.
    SetTimer { fire_at: u64 },
    /// Start a pass now.
    StartPass,
}

/// `a + b`, held at the largest time.
pub open spec fn later(a: u64, b: u64) -> u64 {
    if a + b > u64::MAX {
        u64::MAX
    } else {
        (a + b) as u64
    }
}

impl Debouncer {
    /// The longest that an event waits for a pass to be started.
    pub open spec fn patience(self) -> u64 {
        if self.debounce >= self.timeout {
            self.debounce
        } else {
            self.timeout
        }
    }

    /// When the pass for an event at `now` is to start: a debounce after `now`, and
    /// no later than `patience` after the earliest event not yet served.
    pub open spec fn fire_time(self, now: u64) -> u64 {
        let first = match self.pending {
            Some(p) => p.first_event,
            None => now,
        };
        let slid = later(now, self.debounce);
        let deadline = later(first, self.patience());
        if slid <= deadline {
            slid
        } else {
            deadline
        }
    }

    /// Whether a pass is pending and due at `now`.
    pub open spec fn due(self, now: u64) -> bool {
        match self.pending {
            Some(p) => now >= p.fire_at,
            None => false,
        }
    }

    /// The state after an event.
    pub open spec fn next(self, event: Event) -> Debouncer {
        match event {
            Event::PodChanged { at } => Debouncer {
                last_run: if at >= self.last_run && at - self.last_run >= self.debounce {
                    at
                } else {
                    self.last_run
                },
                pending: Some(
                    Pending {
                        fire_at: self.fire_time(at),
                        first_event: match self.pending {
                            Some(p) => p.first_event,
                            None => at,
                        },
                    },
                ),
                ..self
            },
            Event::TimerFired { at } => if self.due(at) && !self.running {
                Debouncer { pending: None, running: true, ..self }
            } else {
                self
            },
            Event::PassFinished { at } => if self.due(at) {
                Debouncer { pending: None, running: true, ..self }
            } else {
                Debouncer { running: false, ..self }
            },
        }
    }

    /// What the caller is to do after an event.
    pub open spec fn reaction(self, event: Event) -> Action {
        match event {
            Event::PodChanged { at } => Action::SetTimer { fire_at: self.fire_time(at) },
            Event::TimerFired { at } => if self.due(at) && !self.running {
                Action::StartPass
            } else {
                Action::Nothing
            },
            Event::PassFinished { at } => if self.due(at) {
                Action::StartPass
            } else {
                Action::Nothing
            },
        }
    }

    /// A pending pass starts within `patience` of the earliest event that it is to
    /// serve, and not before that event.
    pub open spec fn well_formed(self) -> bool {
        match self.pending {
            Some(p) => p.first_event <= p.fire_at <= p.first_event + self.patience(),
            None => true,
        }
    }

    /// The state after the events, one after the other.
    pub open spec fn run(self, events: Seq<Event>) -> Debouncer
        decreases events.len(),
    {
        if events.len() == 0 {
            self
        } else {
            self.run(events.drop_last()).next(events.last())
        }
    }

    /// How many passes the events start.
    pub open spec fn starts(self, events: Seq<Event>) -> nat
        decreases events.len(),
    {
        if events.len() == 0 {
            0
        } else {
            let before = self.starts(events.drop_last());
            if self.run(events.drop_last()).reaction(events.last()) == Action::StartPass {
                before + 1
            } else {
                before
            }
        }
    }

    /// A loop that starts at `now` with nothing pending and nothing running.
    pub fn new(debounce: u64, timeout: u64, now: u64) -> (state: Debouncer)
        ensures
            state == (Debouncer {
                debounce,
                timeout,
                last_run: now,
                pending: None,
                running: false,
            }),
            state.well_formed(),
    {
        Debouncer { debounce, timeout, last_run: now, pending: None, running: false }
    }

    /// Takes in one event and says what to do.
    pub fn step(&mut self, event: Event) -> (action: Action)
        ensures
            *final(self) == old(self).next(event),
            action == old(self).reaction(event),
            old(self).well_formed() && event_in_order(*old(self), event)
                ==> final(self).well_formed(),
    {
        match event {
            Event::PodChanged { at } => {
                let first: u64 = match self.pending {
                    Some(p) => p.first_event,
                    None => at,
                };
                let patience: u64 = if self.debounce >= self.timeout {
                    self.debounce
                } else {
                    self.timeout
                };
                let slid: u64 = at.saturating_add(self.debounce);
                let deadline: u64 = first.saturating_add(patience);
                let fire_at: u64 = if slid <= deadline {
                    slid
                } else {
                    deadline
                };
                if at >= self.last_run && at - self.last_run >= self.debounce {
                    self.last_run = at;
                }
                self.pending = Some(Pending { fire_at, first_event: first });
                Action::SetTimer { fire_at }
            },
            Event::TimerFired { at } => {
                let due: bool = match self.pending {
                    Some(p) => at >= p.fire_at,
                    None => false,
                };
                if due && !self.running {
                    self.pending = None;
                    self.running = true;
                    Action::StartPass
                } else {
                    Action::Nothing
                }
            },
            Event::PassFinished { at } => {
                let due: bool = match self.pending {
                    Some(p) => at >= p.fire_at,
                    None => false,
                };
                if due {
                    self.pending = None;
                    self.running = true;
                    Action::StartPass
                } else {
                    self.running = false;
                    Action::Nothing
                }
            },
        }
    }
}

/// Whether the event comes no earlier than the earliest event still to be served.
pub open spec fn event_in_order(state: Debouncer, event: Event) -> bool {
    match (state.pending, event) {
        (Some(p), Event::PodChanged { at }) => at >= p.first_event,
        _ => true,
    }
}

/// The time of an event.
pub open spec fn event_time(event: Event) -> u64 {
    match event {
        Event::PodChanged { at } => at,
        Event::TimerFired { at } => at,
        Event::PassFinished { at } => at,
    }
}

/// Whether the events come in the order of their times.
pub open spec fn in_order(events: Seq<Event>) -> bool {
    forall|i: int, j: int|
        0 <= i <= j < events.len() ==> event_time(#[trigger] events[i]) <= event_time(
            #[trigger] events[j],
        )
}

/// How many of the events say that a pass came to its end.
pub open spec fn finishes(events: Seq<Event>) -> nat
    decreases events.len(),
{
    if events.len() == 0 {
        0
    } else {
        finishes(events.drop_last()) + if events.last() is PassFinished {
            1nat
        } else {
            0nat
        }
    }
}

/// Whether every pending pass that the events lead to serves an event that is
/// among them or was pending before, and none later than `latest`.
proof fn lemma_first_event_bounded(state: Debouncer, events: Seq<Event>, latest: u64)
    requires
        in_order(events),
        forall|i: int| 0 <= i < events.len() ==> event_time(#[trigger] events[i]) <= latest,
        match state.pending {
            Some(p) => p.first_event <= latest,
            None => true,
        },
    ensures
        match state.run(events).pending {
            Some(p) => p.first_event <= latest,
            None => true,
        },
    decreases events.len(),
{
    if events.len() > 0 {
        assert forall|i: int, j: int| 0 <= i <= j < events.drop_last().len() implies event_time(
            #[trigger] events.drop_last()[i],
        ) <= event_time(#[trigger] events.drop_last()[j]) by {
            assert(events.drop_last()[i] == events[i]);
            assert(events.drop_last()[j] == events[j]);
        }
        assert forall|i: int| 0 <= i < events.drop_last().len() implies event_time(
            #[trigger] events.drop_last()[i],
        ) <= latest by {
            assert(events.drop_last()[i] == events[i]);
        }
        lemma_first_event_bounded(state, events.drop_last(), latest);
        assert(event_time(events[events.len() - 1]) <= latest);
    }
}

/// Whatever events arrive, in the order of their times: a pass that is pending
/// is due no later than `patience`, the larger of the debounce and the timeout,
/// after the earliest event that no pass has served. It starts when its timer
/// runs out or, where a pass is running then, when that pass ends.
pub proof fn lemma_pass_fires_in_time(state: Debouncer, events: Seq<Event>)
    requires
        state.well_formed(),
        in_order(events),
        match state.pending {
            Some(p) => events.len() > 0 ==> p.first_event <= event_time(events[0]),
            None => true,
        },
    ensures
        state.run(events).well_formed(),
        state.run(events).debounce == state.debounce,
        state.run(events).timeout == state.timeout,
    decreases events.len(),
{
    if events.len() > 0 {
        let earlier = events.drop_last();
        let last = events.last();
        assert forall|i: int, j: int| 0 <= i <= j < earlier.len() implies event_time(
            #[trigger] earlier[i],
        ) <= event_time(#[trigger] earlier[j]) by {
            assert(earlier[i] == events[i]);
            assert(earlier[j] == events[j]);
        }
        if earlier.len() > 0 {
            assert(earlier[0] == events[0]);
        }
        lemma_pass_fires_in_time(state, earlier);
        assert forall|i: int| 0 <= i < earlier.len() implies event_time(#[trigger] earlier[i])
            <= event_time(last) by {
            assert(earlier[i] == events[i]);
            assert(last == events[events.len() - 1]);
        }
        if earlier.len() > 0 {
            assert(event_time(events[0]) <= event_time(events[events.len() - 1]));
            lemma_first_event_bounded(state, earlier, event_time(last));
        }
        assert(event_in_order(state.run(earlier), last));
    }
}

/// The events of a burst: a pod changed at each of the times.
pub open spec fn pod_events(times: Seq<u64>) -> Seq<Event> {
    times.map_values(|at: u64| Event::PodChanged { at })
}

/// A burst of pod events that meets a loop with nothing pending leads to one
/// pending pass. It serves the first event of the burst and is to start a
/// debounce after the last, yet no later than `patience` after the first; the
/// timer that runs out then starts it, unless a pass is running.
pub proof fn lemma_burst_is_served_in_time(state: Debouncer, times: Seq<u64>)
    requires
        state.pending is None,
        times.len() > 0,
        forall|i: int, j: int| 0 <= i <= j < times.len() ==> times[i] <= times[j],
    ensures
        ({
            let after = state.run(pod_events(times));
            let slid = later(times.last(), state.debounce);
            let deadline = later(times[0], state.patience());
            &&& after.pending matches Some(p) && p.first_event == times[0] && p.fire_at == (if slid
                <= deadline {
                slid
            } else {
                deadline
            }) && times[0] <= p.fire_at <= times[0] + state.patience()
            &&& after.running == state.running
            &&& after.debounce == state.debounce && after.timeout == state.timeout
            &&& !after.running ==> after.reaction(
                Event::TimerFired { at: after.pending.unwrap().fire_at },
            ) == Action::StartPass
        }),
    decreases times.len(),
{
    let events = pod_events(times);
    assert(events.last() == Event::PodChanged { at: times.last() });
    if times.len() == 1 {
        assert(events.drop_last() =~= Seq::<Event>::empty());
        assert(state.run(events.drop_last()) == state);
    } else {
        let earlier = times.drop_last();
        assert(events.drop_last() =~= pod_events(earlier));
        assert(earlier[0] == times[0]);
        assert(earlier.last() == times[times.len() - 2]);
        lemma_burst_is_served_in_time(state, earlier);
    }
}

/// Whatever events arrive: a pass starts only when none is running. Counted
/// over any stream of events, the passes started are at most one more than the
/// passes that came to their end, and no more than those where a pass was running
/// at the outset.
pub proof fn lemma_one_pass_at_a_time(state: Debouncer, events: Seq<Event>)
    ensures
        state.starts(events) + (if state.running {
            1nat
        } else {
            0nat
        }) <= finishes(events) + if state.run(events).running {
            1nat
        } else {
            0nat
        },
        state.run(events).running ==> state.running || state.starts(events) > 0,
    decreases events.len(),
{
    if events.len() > 0 {
        lemma_one_pass_at_a_time(state, events.drop_last());
    }
}

} // verus!
