//! The dispatch decisions for one inbound connection, as a state machine. The
//! caller performs each returned action (connect, probe, relay, close) and
//! reports its outcome as the next event; the registry is updated here, so that
//! every assignment that a selection counts is ended exactly once.
use vstd::prelude::*;
use crate::endpoint::Endpoint;
use crate::workers::{Workers, WorkersView, random_draw};
use crate::theorems::{lemma_next_effect, lemma_slot_of};

verus! {

/// Where one inbound connection stands.
#[derive(Clone, Copy, Debug, PartialEq, Eq, Structural)]
pub enum Stage {
    /// Accepted; no backend chosen yet.
    Fresh,
    /// Waiting for the outbound connection to `endpoint`; `retried` tells
    /// whether this is the second selection.
    Connecting { endpoint: Endpoint, retried: bool },
    /// Waiting for a probe sweep, after which selection is tried once more.
    ProbingBeforeRetry,
    /// Waiting for a probe sweep, after which the connection is dropped.
    ProbingBeforeDrop,
    /// Bytes flow between the client and `endpoint`.
    Relaying { endpoint: Endpoint },
    /// Nothing more happens for this connection.
    Closed,
}

/// What happened since the last action.
#[derive(Debug)]
pub enum Event {
    /// The inbound connection was accepted.
    Arrived,
    /// The outbound connection was opened.
    Connected,
    /// The outbound connection could not be opened.
    ConnectFailed,
    /// A probe sweep finished, with the health of each backend in configured order.
    Probed(Vec<bool>),
    /// The relay ended, normally or with an error.
    RelayEnded,
}

/// What the caller does next.
#[derive(Clone, Copy, Debug, PartialEq, Eq, Structural)]
pub enum Action {
    /// Open an outbound connection to the endpoint.
    Connect(Endpoint),
    /// Probe every backend and report the result.
    Probe,
    /// Relay bytes between the client and the endpoint until both sides close.
    Relay(Endpoint),
    /// Drop the inbound connection, if it is still held; this connection is done.
    Close,
    /// The event does not apply to the stage; nothing changed.
    Ignore,
}

/// The effect of a selection: connect to the pick, else probe and drop (on the
/// first try) or drop (on the retry).
pub open spec fn after_selection(w: WorkersView, r: Option<Endpoint>, retried: bool) -> (Stage, WorkersView, Action) {
    match r {
        Some(e) => (Stage::Connecting { endpoint: e, retried }, w, Action::Connect(e)),
        None => if retried {
            (Stage::Closed, w, Action::Close)
        } else {
            (Stage::ProbingBeforeDrop, w, Action::Probe)
        },
    }
}

/// One transition: the next stage, the registry after it, and the action.
pub open spec fn step_spec(stage: Stage, w: WorkersView, event: Event, draw: int) -> (Stage, WorkersView, Action) {
    match (stage, event) {
        (Stage::Fresh, Event::Arrived) => {
            let (w2, r) = w.next(draw);
            after_selection(w2, r, false)
        },
        (Stage::Connecting { endpoint, retried: _ }, Event::Connected) => (
            Stage::Relaying { endpoint },
            w,
            Action::Relay(endpoint),
        ),
        (Stage::Connecting { endpoint, retried }, Event::ConnectFailed) => (
            if retried {
                Stage::ProbingBeforeDrop
            } else {
                Stage::ProbingBeforeRetry
            },
            w.release(endpoint),
            Action::Probe,
        ),
        (Stage::ProbingBeforeRetry, Event::Probed(h)) => {
            let (w2, r) = w.with_health(h@).next(draw);
            after_selection(w2, r, true)
        },
        (Stage::ProbingBeforeDrop, Event::Probed(h)) => (
            Stage::Closed,
            w.with_health(h@),
            Action::Close,
        ),
        (Stage::Relaying { endpoint }, Event::RelayEnded) => (
            Stage::Closed,
            w.release(endpoint),
            Action::Close,
        ),
        _ => (stage, w, Action::Ignore),
    }
}

/// The backend whose load counts this connection, if any.
pub open spec fn held(stage: Stage) -> Option<Endpoint> {
    match stage {
        Stage::Connecting { endpoint, retried: _ } => Some(endpoint),
        Stage::Relaying { endpoint } => Some(endpoint),
        _ => None,
    }
}

pub open spec fn count_if(b: bool) -> int {
    if b {
        1
    } else {
        0
    }
}

/// Per-connection accounting: a step moves each backend's load by exactly the
/// change in what the connection holds, up by one where it starts holding the
/// backend and down by one where it stops. So every assignment that a selection
/// counts is ended exactly once, and a closed connection holds none.
pub proof fn theorem_step_accounting(stage: Stage, w: WorkersView, event: Event, draw: int)
    requires
        w.wf(),
        held(stage) matches Some(e) ==> w.registered(e) && w.load_of(e) > 0,
        forall|x: Endpoint| w.registered(x) ==> #[trigger] w.load_of(x) < usize::MAX,
    ensures
        ({
            let (s2, w2, _) = step_spec(stage, w, event, draw);
            &&& w2.wf()
            &&& w2.endpoints == w.endpoints
            &&& (held(s2) matches Some(e) ==> w2.registered(e) && w2.load_of(e) > 0)
            &&& forall|x: Endpoint|
                w.registered(x) ==> #[trigger] w2.load_of(x) - count_if(held(s2) == Some(x))
                    == w.load_of(x) - count_if(held(stage) == Some(x))
        }),
{
    match (stage, event) {
        (Stage::Fresh, Event::Arrived) => {
            lemma_next_effect(w, draw);
            if let Some(e) = w.next(draw).1 {
                lemma_slot_of(w, e);
                assert forall|x: Endpoint| w.registered(x) implies #[trigger] w.next(draw).0.load_of(x)
                    - count_if(Some(e) == Some(x)) == w.load_of(x) by {
                    lemma_slot_of(w, x);
                    if x != e {
                        assert(w.slot(x) != w.slot(e));
                    }
                }
            }
        },
        (Stage::Connecting { endpoint, retried }, Event::ConnectFailed) => {
            lemma_slot_of(w, endpoint);
            assert forall|x: Endpoint| w.registered(x) implies #[trigger] w.release(endpoint).load_of(x)
                == w.load_of(x) - count_if(Some(endpoint) == Some(x)) by {
                lemma_slot_of(w, x);
                if x != endpoint {
                    assert(w.slot(x) != w.slot(endpoint));
                }
            }
        },
        (Stage::ProbingBeforeRetry, Event::Probed(h)) => {
            let w1 = w.with_health(h@);
            lemma_next_effect(w1, draw);
            if let Some(e) = w1.next(draw).1 {
                lemma_slot_of(w1, e);
                assert forall|x: Endpoint| w.registered(x) implies #[trigger] w1.next(draw).0.load_of(x)
                    - count_if(Some(e) == Some(x)) == w.load_of(x) by {
                    lemma_slot_of(w1, x);
                    if x != e {
                        assert(w1.slot(x) != w1.slot(e));
                    }
                }
            }
        },
        (Stage::Relaying { endpoint }, Event::RelayEnded) => {
            lemma_slot_of(w, endpoint);
            assert forall|x: Endpoint| w.registered(x) implies #[trigger] w.release(endpoint).load_of(x)
                == w.load_of(x) - count_if(Some(endpoint) == Some(x)) by {
                lemma_slot_of(w, x);
                if x != endpoint {
                    assert(w.slot(x) != w.slot(endpoint));
                }
            }
        },
        _ => {},
    }
}

impl Stage {
    /// Takes one event; `draw` is the random draw that a selection uses.
    pub fn step_with(self, workers: &mut Workers, event: Event, draw: u64) -> (r: (Stage, Action))
        ensures
            (r.0, final(workers)@, r.1) == step_spec(self, old(workers)@, event, draw as int),
    {
        match (self, event) {
            (Stage::Fresh, Event::Arrived) => {
                let r = workers.get_next_with(draw);
                match r {
                    Some(e) => (Stage::Connecting { endpoint: e, retried: false }, Action::Connect(e)),
                    None => (Stage::ProbingBeforeDrop, Action::Probe),
                }
            },
            (Stage::Connecting { endpoint, retried: _ }, Event::Connected) => (
                Stage::Relaying { endpoint },
                Action::Relay(endpoint),
            ),
            (Stage::Connecting { endpoint, retried }, Event::ConnectFailed) => {
                workers.decrease_worker_count(endpoint);
                if retried {
                    (Stage::ProbingBeforeDrop, Action::Probe)
                } else {
                    (Stage::ProbingBeforeRetry, Action::Probe)
                }
            },
            (Stage::ProbingBeforeRetry, Event::Probed(h)) => {
                workers.update_healthy_workers(h);
                let r = workers.get_next_with(draw);
                match r {
                    Some(e) => (Stage::Connecting { endpoint: e, retried: true }, Action::Connect(e)),
                    None => (Stage::Closed, Action::Close),
                }
            },
            (Stage::ProbingBeforeDrop, Event::Probed(h)) => {
                workers.update_healthy_workers(h);
                (Stage::Closed, Action::Close)
            },
            (Stage::Relaying { endpoint }, Event::RelayEnded) => {
                workers.decrease_worker_count(endpoint);
                (Stage::Closed, Action::Close)
            },
            (stage, _) => (stage, Action::Ignore),
        }
    }

    /// Takes one event, with a uniformly random draw for a selection.
    pub fn step(self, workers: &mut Workers, event: Event) -> (r: (Stage, Action))
        ensures
            exists|d: u64|
                (r.0, final(workers)@, r.1) == #[trigger] step_spec(self, old(workers)@, event, d as int),
    {
        let draw = random_draw();
        self.step_with(workers, event, draw)
    }
}

} // verus!
