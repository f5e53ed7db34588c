//! The handler task that owns an established chat connection.
//!
//! The handler serves queued requests one at a time: at most one request is
//! in flight, a fresh inactivity deadline is armed whenever the handler goes
//! idle, and the task shuts down when the deadline passes with no request,
//! when the request channel closes, or when the connection's disconnect
//! signal fires. The decisions are a pure step function from state and
//! event to the next state and the actions to perform; the embedding
//! application owns the actual connection, timers and channels and carries
//! the actions out in order.

use vstd::prelude::*;

use crate::racer::{sat_add, spec_sat_add};

verus! {

/// How long the handler waits after the last activity before disconnecting.
pub const INACTIVITY_TIMEOUT_MS: u64 = 90000;

/// How long each request to the chat server is allowed to take, not
/// counting connection establishment.
pub const REQUEST_TIMEOUT_MS: u64 = 30000;

/// The maximum number of requests that can be queued but not yet taken by
/// the handler. Registration traffic is serialised, so one is enough.
pub const MAX_PENDING_REQUESTS: usize = 1;

/// Where the handler stands.
#[derive(Clone, Copy, Debug, PartialEq, Eq, Structural)]
pub enum HandlerState {
    /// No request in flight; the handler shuts down at the deadline unless
    /// work arrives first.
    Idle { idle_deadline_ms: u64 },
    /// Exactly one request is being sent on the connection.
    InFlight,
    /// The handler has stopped; no further work is accepted.
    ShutDown,
}

/// What the handler reacts to.
#[derive(Clone, Copy, Debug, PartialEq, Eq, Structural)]
pub enum HandlerEvent {
    /// A queued request was taken from the channel; the submitter's
    /// responder may already have been dropped.
    Incoming { responder_open: bool },
    /// The request channel closed: the service handle was dropped.
    IncomingClosed,
    /// The in-flight send concluded and its result is ready to deliver.
    SendFinished,
    /// The submitter dropped its responder before anything was written to
    /// the socket.
    ResponderDroppedBeforeSend,
    /// The connection's disconnect signal fired.
    Disconnected,
    /// The timer fired.
    TimerFired,
}

/// What the embedding application must do, in order.
#[derive(Clone, Copy, Debug, PartialEq, Eq, Structural)]
pub enum HandlerAction {
    /// Start sending the taken request on the chat connection.
    StartSend,
    /// Deliver the send result — response or send error — to the
    /// responder.
    DeliverResult,
    /// Resolve the responder with a disconnection error.
    DeliverDisconnected,
    /// Abandon the in-flight send; nothing has been written to the socket
    /// and nothing may be.
    CancelSend,
    /// Close the socket cleanly and drop the incoming stream.
    Disconnect,
}

/// Whether an action resolves the in-flight request's responder.
pub open spec fn is_disposition(a: HandlerAction) -> bool {
    match a {
        HandlerAction::DeliverResult => true,
        HandlerAction::DeliverDisconnected => true,
        HandlerAction::CancelSend => true,
        _ => false,
    }
}

/// How many of the actions resolve the in-flight request.
pub open spec fn disposition_count(actions: Seq<HandlerAction>) -> nat
    decreases actions.len(),
{
    if actions.len() == 0 {
        0
    } else {
        disposition_count(actions.drop_last()) + (if is_disposition(actions.last()) {
            1nat
        } else {
            0nat
        })
    }
}

/// The state a freshly spawned handler starts in: idle, with the full
/// inactivity budget ahead of it.
pub fn initial_handler_state(now_ms: u64) -> (r: HandlerState)
    ensures
        r == (HandlerState::Idle { idle_deadline_ms: spec_sat_add(now_ms, INACTIVITY_TIMEOUT_MS) }),
{
    HandlerState::Idle { idle_deadline_ms: sat_add(now_ms, INACTIVITY_TIMEOUT_MS) }
}

/// The next state and actions for one handler event.
///
/// Guarantees, stated in the contract:
/// - an in-flight request is resolved exactly once: a step out of
///   `InFlight` performs exactly one disposition, a step that stays in
///   `InFlight` performs none, and no disposition happens outside
///   `InFlight`;
/// - on a disconnect with a request in flight, the responder is resolved
///   with the disconnection error before the socket is closed;
/// - a request whose responder is already gone when the handler takes it
///   causes no action at all — nothing reaches the wire;
/// - an idle handler shuts down on a timer tick exactly when the
///   inactivity deadline has passed.
pub fn handler_step(state: HandlerState, event: HandlerEvent, now_ms: u64) -> (r: (
    HandlerState,
    Vec<HandlerAction>,
))
    ensures
        r.0 == spec_handler_step(state, event, now_ms).0,
        r.1@ == spec_handler_step(state, event, now_ms).1,
        state is InFlight ==> {
            ||| (r.0 is InFlight && disposition_count(r.1@) == 0)
            ||| (!(r.0 is InFlight) && disposition_count(r.1@) == 1)
        },
        !(state is InFlight) ==> disposition_count(r.1@) == 0,
        state is InFlight && event is Disconnected ==> r.1@ =~= seq![
            HandlerAction::DeliverDisconnected,
            HandlerAction::Disconnect,
        ],
        state is Idle && event == (HandlerEvent::Incoming { responder_open: false }) ==> r.1@
            =~= Seq::<HandlerAction>::empty(),
        forall|dl: u64|
            state == (HandlerState::Idle { idle_deadline_ms: dl }) && event is TimerFired ==> (
            (r.0 is ShutDown) <==> now_ms >= dl),
{
    let r = match (state, event) {
        (HandlerState::Idle { idle_deadline_ms }, HandlerEvent::Incoming { responder_open }) => {
            if responder_open {
                (HandlerState::InFlight, vec![HandlerAction::StartSend])
            } else {
                // The submitter has already walked away: consume the
                // request without any observable effect and re-arm the
                // inactivity deadline.
                (
                    HandlerState::Idle {
                        idle_deadline_ms: sat_add(now_ms, INACTIVITY_TIMEOUT_MS),
                    },
                    Vec::new(),
                )
            }
        },
        (HandlerState::Idle { .. }, HandlerEvent::IncomingClosed) => (
            HandlerState::ShutDown,
            vec![HandlerAction::Disconnect],
        ),
        (HandlerState::Idle { idle_deadline_ms }, HandlerEvent::TimerFired) => {
            if now_ms >= idle_deadline_ms {
                (HandlerState::ShutDown, vec![HandlerAction::Disconnect])
            } else {
                (HandlerState::Idle { idle_deadline_ms }, Vec::new())
            }
        },
        (HandlerState::Idle { .. }, HandlerEvent::Disconnected) => (
            HandlerState::ShutDown,
            Vec::new(),
        ),
        (HandlerState::Idle { idle_deadline_ms }, _) => (
            HandlerState::Idle { idle_deadline_ms },
            Vec::new(),
        ),
        (HandlerState::InFlight, HandlerEvent::SendFinished) => (
            HandlerState::Idle { idle_deadline_ms: sat_add(now_ms, INACTIVITY_TIMEOUT_MS) },
            vec![HandlerAction::DeliverResult],
        ),
        (HandlerState::InFlight, HandlerEvent::ResponderDroppedBeforeSend) => (
            HandlerState::Idle { idle_deadline_ms: sat_add(now_ms, INACTIVITY_TIMEOUT_MS) },
            vec![HandlerAction::CancelSend],
        ),
        (HandlerState::InFlight, HandlerEvent::Disconnected) => (
            HandlerState::ShutDown,
            vec![HandlerAction::DeliverDisconnected, HandlerAction::Disconnect],
        ),
        (HandlerState::InFlight, _) => (HandlerState::InFlight, Vec::new()),
        (HandlerState::ShutDown, _) => (HandlerState::ShutDown, Vec::new()),
    };
    proof {
        reveal_disposition_counts();
        assert(r.1@ =~= spec_handler_step(state, event, now_ms).1);
    }
    r
}

/// The transition `handler_step` computes.
pub open spec fn spec_handler_step(state: HandlerState, event: HandlerEvent, now_ms: u64) -> (
    HandlerState,
    Seq<HandlerAction>,
) {
    match (state, event) {
        (HandlerState::Idle { idle_deadline_ms }, HandlerEvent::Incoming { responder_open }) => {
            if responder_open {
                (HandlerState::InFlight, seq![HandlerAction::StartSend])
            } else {
                (
                    HandlerState::Idle {
                        idle_deadline_ms: spec_sat_add(now_ms, INACTIVITY_TIMEOUT_MS),
                    },
                    Seq::empty(),
                )
            }
        },
        (HandlerState::Idle { .. }, HandlerEvent::IncomingClosed) => (
            HandlerState::ShutDown,
            seq![HandlerAction::Disconnect],
        ),
        (HandlerState::Idle { idle_deadline_ms }, HandlerEvent::TimerFired) => {
            if now_ms >= idle_deadline_ms {
                (HandlerState::ShutDown, seq![HandlerAction::Disconnect])
            } else {
                (HandlerState::Idle { idle_deadline_ms }, Seq::empty())
            }
        },
        (HandlerState::Idle { .. }, HandlerEvent::Disconnected) => (
            HandlerState::ShutDown,
            Seq::empty(),
        ),
        (HandlerState::Idle { idle_deadline_ms }, _) => (
            HandlerState::Idle { idle_deadline_ms },
            Seq::empty(),
        ),
        (HandlerState::InFlight, HandlerEvent::SendFinished) => (
            HandlerState::Idle { idle_deadline_ms: spec_sat_add(now_ms, INACTIVITY_TIMEOUT_MS) },
            seq![HandlerAction::DeliverResult],
        ),
        (HandlerState::InFlight, HandlerEvent::ResponderDroppedBeforeSend) => (
            HandlerState::Idle { idle_deadline_ms: spec_sat_add(now_ms, INACTIVITY_TIMEOUT_MS) },
            seq![HandlerAction::CancelSend],
        ),
        (HandlerState::InFlight, HandlerEvent::Disconnected) => (
            HandlerState::ShutDown,
            seq![HandlerAction::DeliverDisconnected, HandlerAction::Disconnect],
        ),
        (HandlerState::InFlight, _) => (HandlerState::InFlight, Seq::empty()),
        (HandlerState::ShutDown, _) => (HandlerState::ShutDown, Seq::empty()),
    }
}

/// Disposition count of a one-action sequence.
proof fn lemma_count_one(a: HandlerAction)
    ensures
        disposition_count(seq![a]) == (if is_disposition(a) {
            1nat
        } else {
            0nat
        }),
{
    let s = seq![a];
    assert(s.drop_last() =~= Seq::<HandlerAction>::empty());
    assert(disposition_count(s.drop_last()) == 0);
    assert(s.last() == a);
    assert(disposition_count(s) == disposition_count(s.drop_last()) + (if is_disposition(s.last()) {
        1nat
    } else {
        0nat
    }));
}

/// Disposition count of a two-action sequence.
proof fn lemma_count_two(a: HandlerAction, b: HandlerAction)
    ensures
        disposition_count(seq![a, b]) == (if is_disposition(a) {
            1nat
        } else {
            0nat
        }) + (if is_disposition(b) {
            1nat
        } else {
            0nat
        }),
{
    assert(seq![a, b].drop_last() =~= seq![a]);
    lemma_count_one(a);
}

/// Disposition counts of every action sequence the step function can
/// produce.
proof fn reveal_disposition_counts()
    ensures
        disposition_count(Seq::<HandlerAction>::empty()) == 0,
        disposition_count(seq![HandlerAction::StartSend]) == 0,
        disposition_count(seq![HandlerAction::Disconnect]) == 0,
        disposition_count(seq![HandlerAction::DeliverResult]) == 1,
        disposition_count(seq![HandlerAction::CancelSend]) == 1,
        disposition_count(seq![HandlerAction::DeliverDisconnected, HandlerAction::Disconnect])
            == 1,
{
    lemma_count_one(HandlerAction::StartSend);
    lemma_count_one(HandlerAction::Disconnect);
    lemma_count_one(HandlerAction::DeliverResult);
    lemma_count_one(HandlerAction::CancelSend);
    lemma_count_two(HandlerAction::DeliverDisconnected, HandlerAction::Disconnect);
}

/// An in-flight request is resolved exactly once: whatever event arrives,
/// either the handler stays in flight and resolves nothing, or it leaves
/// the in-flight state having resolved the responder exactly once — with
/// the result, with the disconnection error, or by honouring the
/// submitter's cancellation.
pub proof fn lemma_in_flight_request_resolved_once(event: HandlerEvent, now_ms: u64)
    ensures
        ({
            let r = spec_handler_step(HandlerState::InFlight, event, now_ms);
            (r.0 is InFlight && disposition_count(r.1) == 0) || (!(r.0 is InFlight)
                && disposition_count(r.1) == 1)
        }),
{
    reveal_disposition_counts();
}

/// No disposition ever happens without a request in flight.
pub proof fn lemma_no_spurious_disposition(state: HandlerState, event: HandlerEvent, now_ms: u64)
    requires
        !(state is InFlight),
    ensures
        disposition_count(spec_handler_step(state, event, now_ms).1) == 0,
{
    reveal_disposition_counts();
}

} // verus!
