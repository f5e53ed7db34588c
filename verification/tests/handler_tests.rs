use connect_core::handler::{
    handler_step, initial_handler_state, HandlerAction, HandlerEvent, HandlerState,
    INACTIVITY_TIMEOUT_MS,
};

#[test]
fn idle_handler_shuts_down_at_exactly_inactivity_timeout() {
    let state = initial_handler_state(0);
    assert_eq!(state, HandlerState::Idle { idle_deadline_ms: 90_000 });
    assert_eq!(INACTIVITY_TIMEOUT_MS, 90_000);

    // One tick before the deadline: still idle, nothing to do.
    let (state2, actions) = handler_step(state, HandlerEvent::TimerFired, 89_999);
    assert_eq!(state2, HandlerState::Idle { idle_deadline_ms: 90_000 });
    assert!(actions.is_empty());

    // At the deadline: shut down and close the socket.
    let (state3, actions) = handler_step(state2, HandlerEvent::TimerFired, 90_000);
    assert_eq!(state3, HandlerState::ShutDown);
    assert_eq!(actions, vec![HandlerAction::Disconnect]);
}

#[test]
fn request_with_closed_responder_has_no_observable_effect() {
    let state = initial_handler_state(0);
    let (next, actions) = handler_step(state, HandlerEvent::Incoming { responder_open: false }, 10);
    // Nothing reaches the wire; the handler stays idle with a fresh
    // deadline.
    assert!(actions.is_empty());
    assert_eq!(next, HandlerState::Idle { idle_deadline_ms: 10 + 90_000 });
}

#[test]
fn request_is_sent_and_result_delivered_once() {
    let state = initial_handler_state(0);
    let (in_flight, actions) =
        handler_step(state, HandlerEvent::Incoming { responder_open: true }, 10);
    assert_eq!(in_flight, HandlerState::InFlight);
    assert_eq!(actions, vec![HandlerAction::StartSend]);

    let (idle, actions) = handler_step(in_flight, HandlerEvent::SendFinished, 2_000);
    assert_eq!(idle, HandlerState::Idle { idle_deadline_ms: 2_000 + 90_000 });
    assert_eq!(actions, vec![HandlerAction::DeliverResult]);
}

#[test]
fn disconnect_resolves_outstanding_responder_before_closing() {
    let state = HandlerState::InFlight;
    let (next, actions) = handler_step(state, HandlerEvent::Disconnected, 500);
    assert_eq!(next, HandlerState::ShutDown);
    assert_eq!(
        actions,
        vec![HandlerAction::DeliverDisconnected, HandlerAction::Disconnect]
    );
}

#[test]
fn responder_dropped_before_send_cancels_without_wire_effect() {
    let state = HandlerState::InFlight;
    let (next, actions) = handler_step(state, HandlerEvent::ResponderDroppedBeforeSend, 700);
    assert_eq!(next, HandlerState::Idle { idle_deadline_ms: 700 + 90_000 });
    assert_eq!(actions, vec![HandlerAction::CancelSend]);
}

#[test]
fn closed_request_channel_shuts_the_handler_down() {
    let state = initial_handler_state(0);
    let (next, actions) = handler_step(state, HandlerEvent::IncomingClosed, 100);
    assert_eq!(next, HandlerState::ShutDown);
    assert_eq!(actions, vec![HandlerAction::Disconnect]);
}

#[test]
fn idle_disconnect_needs_no_action() {
    let state = initial_handler_state(0);
    let (next, actions) = handler_step(state, HandlerEvent::Disconnected, 100);
    assert_eq!(next, HandlerState::ShutDown);
    assert!(actions.is_empty());
}

#[test]
fn shut_down_handler_ignores_everything() {
    for event in [
        HandlerEvent::Incoming { responder_open: true },
        HandlerEvent::IncomingClosed,
        HandlerEvent::SendFinished,
        HandlerEvent::ResponderDroppedBeforeSend,
        HandlerEvent::Disconnected,
        HandlerEvent::TimerFired,
    ] {
        let (next, actions) = handler_step(HandlerState::ShutDown, event, 1_000);
        assert_eq!(next, HandlerState::ShutDown);
        assert!(actions.is_empty());
    }
}
