//! Bringing the costmap node up: waiting for its service, configuring and
//! activating it, and then watching the clouds.

use vstd::prelude::*;

verus! {

/// How often the service is looked for.
pub const MAX_TRIES: u32 = 150;

/// Milliseconds between two looks.
pub const RETRY_MS: u64 = 200;

/// Milliseconds between configuring and activating.
pub const SETTLE_MS: u64 = 500;

/// The transition that configures the node.
pub const TRANSITION_CONFIGURE: u8 = 1;

/// The transition that activates it.
pub const TRANSITION_ACTIVATE: u8 = 3;

/// How far the node has been brought.
#[derive(Clone, Copy, PartialEq, Eq, Debug, Structural)]
pub enum Phase {
    /// The service is being looked for; so many looks found nothing.
    Waiting(u32),
    /// A look found nothing; the next one comes after a pause.
    Retrying(u32),
    /// The node has been asked to configure.
    Configuring,
    /// It is configured and settling.
    Settling,
    /// It has been asked to activate.
    Activating,
    /// It is active.
    Monitoring,
    /// It refused a transition, or could not be asked.
    Failed,
    /// Its service was not found.
    TimedOut,
}

/// What happened.
#[derive(Clone, Copy, PartialEq, Eq, Debug, Structural)]
pub enum Event {
    /// A look at the service: whether it is ready.
    Looked(bool),
    /// A pause is over.
    Rested,
    /// A transition was answered: whether it succeeded.
    Answered(bool),
}

/// What is to be done next.
#[derive(Clone, Copy, PartialEq, Eq, Debug, Structural)]
pub enum Action {
    /// Look whether the service is ready.
    Look,
    /// Pause for so many milliseconds.
    Rest(u64),
    /// Request a transition.
    Request(u8),
    /// Watch the clouds.
    Watch,
    /// Stop: a transition failed.
    Fail,
    /// Stop: the service was not found in time.
    GiveUp,
}

/// The phase after an event. An event that does not belong to the phase
/// changes nothing.
pub open spec fn next_phase(p: Phase, e: Event) -> Phase {
    match (p, e) {
        (Phase::Waiting(n), Event::Looked(ready)) => if ready {
            Phase::Configuring
        } else {
            Phase::Retrying(n)
        },
        (Phase::Retrying(n), Event::Rested) => if n + 1 >= MAX_TRIES {
            Phase::TimedOut
        } else {
            Phase::Waiting((n + 1) as u32)
        },
        (Phase::Configuring, Event::Answered(success)) => if success {
            Phase::Settling
        } else {
            Phase::Failed
        },
        (Phase::Settling, Event::Rested) => Phase::Activating,
        (Phase::Activating, Event::Answered(success)) => if success {
            Phase::Monitoring
        } else {
            Phase::Failed
        },
        _ => p,
    }
}

/// What a phase asks for.
pub open spec fn action_of(p: Phase) -> Action {
    match p {
        Phase::Waiting(_) => Action::Look,
        Phase::Retrying(_) => Action::Rest(RETRY_MS),
        Phase::Configuring => Action::Request(TRANSITION_CONFIGURE),
        Phase::Settling => Action::Rest(SETTLE_MS),
        Phase::Activating => Action::Request(TRANSITION_ACTIVATE),
        Phase::Monitoring => Action::Watch,
        Phase::Failed => Action::Fail,
        Phase::TimedOut => Action::GiveUp,
    }
}

impl Phase {
    /// Whether the number of looks is below the limit.
    pub open spec fn wf(self) -> bool {
        match self {
            Phase::Waiting(n) => n < MAX_TRIES,
            Phase::Retrying(n) => n < MAX_TRIES,
            _ => true,
        }
    }

    /// Before the first look.
    pub fn start() -> (p: Self)
        ensures
            p == Phase::Waiting(0),
            p.wf(),
    {
        Phase::Waiting(0)
    }

    /// What is to be done next.
    pub fn action(self) -> (a: Action)
        ensures
            a == action_of(self),
    {
        match self {
            Phase::Waiting(_) => Action::Look,
            Phase::Retrying(_) => Action::Rest(RETRY_MS),
            Phase::Configuring => Action::Request(TRANSITION_CONFIGURE),
            Phase::Settling => Action::Rest(SETTLE_MS),
            Phase::Activating => Action::Request(TRANSITION_ACTIVATE),
            Phase::Monitoring => Action::Watch,
            Phase::Failed => Action::Fail,
            Phase::TimedOut => Action::GiveUp,
        }
    }

    /// The phase after an event.
    pub fn step(self, e: Event) -> (p: Self)
        requires
            self.wf(),
        ensures
            p == next_phase(self, e),
            p.wf(),
    {
        match (self, e) {
            (Phase::Waiting(n), Event::Looked(ready)) => if ready {
                Phase::Configuring
            } else {
                Phase::Retrying(n)
            },
            (Phase::Retrying(n), Event::Rested) => if n + 1 >= MAX_TRIES {
                Phase::TimedOut
            } else {
                Phase::Waiting(n + 1)
            },
            (Phase::Configuring, Event::Answered(success)) => if success {
                Phase::Settling
            } else {
                Phase::Failed
            },
            (Phase::Settling, Event::Rested) => Phase::Activating,
            (Phase::Activating, Event::Answered(success)) => if success {
                Phase::Monitoring
            } else {
                Phase::Failed
            },
            _ => self,
        }
    }
}

/// The label of a transition.
pub open spec fn label_of(id: u8) -> Seq<char> {
    if id == TRANSITION_CONFIGURE {
        "configure"@
    } else {
        "activate"@
    }
}

/// The label of a transition that is requested.
pub fn transition_label(id: u8) -> (r: &'static str)
    requires
        id == TRANSITION_CONFIGURE || id == TRANSITION_ACTIVATE,
    ensures
        r@ == label_of(id),
{
    if id == TRANSITION_CONFIGURE {
        "configure"
    } else {
        "activate"
    }
}

/// Points of a cloud of the given size.
pub fn point_count(width: u32, height: u32) -> (r: u64)
    ensures
        r == width * height,
{
    assert(width * height <= 0xffff_ffff * 0xffff_ffff) by (nonlinear_arith)
        requires
            0 <= width <= 0xffff_ffff,
            0 <= height <= 0xffff_ffff,
    ;
    width as u64 * height as u64
}

/// The phase after a sequence of events.
pub open spec fn phase_after(p: Phase, events: Seq<Event>) -> Phase
    decreases events.len(),
{
    if events.len() == 0 {
        p
    } else {
        next_phase(phase_after(p, events.drop_last()), events.last())
    }
}

/// `n` looks that find nothing, each with its pause.
pub open spec fn empty_looks(n: nat) -> Seq<Event>
    decreases n,
{
    if n == 0 {
        Seq::empty()
    } else {
        empty_looks((n - 1) as nat).push(Event::Looked(false)).push(Event::Rested)
    }
}

/// The service is looked for again as long as fewer than the most looks found
/// nothing, and is given up after exactly that many.
pub proof fn gives_up_after_all_looks(n: nat)
    requires
        n <= MAX_TRIES,
    ensures
        phase_after(Phase::Waiting(0), empty_looks(n)) == if n < MAX_TRIES {
            Phase::Waiting(n as u32)
        } else {
            Phase::TimedOut
        },
    decreases n,
{
    if n > 0 {
        gives_up_after_all_looks((n - 1) as nat);
        let before = empty_looks((n - 1) as nat);
        let looked = before.push(Event::Looked(false));
        assert(looked.drop_last() =~= before);
        assert(looked.push(Event::Rested).drop_last() =~= looked);
        assert(phase_after(Phase::Waiting(0), looked) == Phase::Retrying((n - 1) as u32));
    }
}

/// The node is only active after the service was found ready, and after it
/// answered both transitions with success: first the configuring one, then,
/// behind a pause, the activating one.
pub proof fn active_only_after_success(events: Seq<Event>)
    requires
        phase_after(Phase::Waiting(0), events) == Phase::Monitoring,
    ensures
        exists|i: int, j: int, k: int, l: int|
            {
                &&& 0 <= i < j < k < l < events.len()
                &&& #[trigger] events[i] == Event::Looked(true)
                &&& #[trigger] events[j] == Event::Answered(true)
                &&& #[trigger] events[k] == Event::Rested
                &&& #[trigger] events[l] == Event::Answered(true)
            },
{
    let l = reached(events, Phase::Monitoring);
    let k = reached(events.take(l), Phase::Activating);
    assert(events.take(l).take(k) =~= events.take(k));
    let j = reached(events.take(k), Phase::Settling);
    assert(events.take(k).take(j) =~= events.take(j));
    let i = reached(events.take(j), Phase::Configuring);
    assert(events[i] == Event::Looked(true) && events[j] == Event::Answered(true) && events[k]
        == Event::Rested && events[l] == Event::Answered(true));
}

/// The event that last brought the given phase about, and the phase before it.
proof fn reached(events: Seq<Event>, p: Phase) -> (at: int)
    requires
        phase_after(Phase::Waiting(0), events) == p,
        p is Configuring || p is Settling || p is Activating || p is Monitoring,
    ensures
        0 <= at < events.len(),
        ({
            let before = phase_after(Phase::Waiting(0), events.take(at));
            &&& before != p
            &&& next_phase(before, events[at]) == p
        }),
    decreases events.len(),
{
    let before = phase_after(Phase::Waiting(0), events.drop_last());
    let n = events.len() - 1;
    if events.len() == 0 {
        0
    } else if before == p {
        let at = reached(events.drop_last(), p);
        assert(events.drop_last().take(at) =~= events.take(at));
        at
    } else {
        assert(events.take(n) =~= events.drop_last());
        n
    }
}

/// Once a run has ended, or the node is active, nothing that happens changes
/// that.
pub proof fn end_is_final(p: Phase, e: Event)
    requires
        p is Monitoring || p is Failed || p is TimedOut,
    ensures
        next_phase(p, e) == p,
{
}

/// What each phase asks for: a look while the service is waited for, a pause of
/// 200 milliseconds after one that found nothing, the transitions 1 and 3 with
/// a pause of 500 milliseconds between them, and then to watch.
pub proof fn phases_ask_for_their_actions(n: u32)
    ensures
        action_of(Phase::Waiting(n)) == Action::Look,
        action_of(Phase::Retrying(n)) == Action::Rest(200),
        action_of(Phase::Configuring) == Action::Request(1),
        action_of(Phase::Settling) == Action::Rest(500),
        action_of(Phase::Activating) == Action::Request(3),
        action_of(Phase::Monitoring) == Action::Watch,
        action_of(Phase::Failed) == Action::Fail,
        action_of(Phase::TimedOut) == Action::GiveUp,
{
}

/// A run in which the service is found, after fewer than 150 looks that found
/// nothing, goes on with the two transitions: it ends with an active node where
/// both succeed, and fails with the first one that does not. After 150 looks
/// that found nothing it has given up.
pub proof fn a_found_service_is_configured_and_activated(n: nat, first: bool, second: bool)
    requires
        n <= 150,
    ensures
        ({
            let looks = empty_looks(n);
            let found = looks.push(Event::Looked(true));
            let answered = found.push(Event::Answered(first));
            let settled = answered.push(Event::Rested);
            let start = Phase::Waiting(0);
            if n == 150 {
                phase_after(start, looks) == Phase::TimedOut
            } else {
                &&& phase_after(start, found) == Phase::Configuring
                &&& phase_after(start, answered) == if first {
                    Phase::Settling
                } else {
                    Phase::Failed
                }
                &&& first ==> phase_after(start, settled) == Phase::Activating
                &&& first ==> phase_after(start, settled.push(Event::Answered(second))) == if second {
                    Phase::Monitoring
                } else {
                    Phase::Failed
                }
            }
        }),
{
    gives_up_after_all_looks(n);
    let looks = empty_looks(n);
    let found = looks.push(Event::Looked(true));
    let answered = found.push(Event::Answered(first));
    let settled = answered.push(Event::Rested);
    let last = settled.push(Event::Answered(second));
    assert(found.drop_last() =~= looks);
    assert(answered.drop_last() =~= found);
    assert(settled.drop_last() =~= answered);
    assert(last.drop_last() =~= settled);
}

/// An event that a phase did not ask for changes nothing.
pub proof fn unasked_events_change_nothing(p: Phase, e: Event)
    requires
        match action_of(p) {
            Action::Look => !(e is Looked),
            Action::Rest(_) => !(e is Rested),
            Action::Request(_) => !(e is Answered),
            _ => true,
        },
    ensures
        next_phase(p, e) == p,
{
}

/// The labels of the two transitions.
pub proof fn transitions_have_their_labels(id: u8)
    ensures
        id == 1 ==> label_of(id) == "configure"@,
        id == 3 ==> label_of(id) == "activate"@,
{
}

} // verus!
