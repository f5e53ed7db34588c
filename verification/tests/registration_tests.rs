use connect_core::chat::{frame_request, ChatResponse, RequestMux};
use connect_core::errors::SendError;
use connect_core::registration::classify_send_result;
use connect_core::errors::{ChatConnectError, ConnectFailure, TransportError};
use connect_core::registration::{
    connect_with_retry, create_session_request, request_error_of_fatal, resume_session_request,
    send_request_loop, session_scoped_request, ConnectRunResult, CreateSession, FatalConnectError,
    RegistrationService, RegistrationSession, RequestError, SendAttemptOutcome, SessionId,
};
use connect_core::session_json::{encode_session_json, parse_session_json, RegistrationResponse};

fn server_response(session_id: &str, session: RegistrationSession) -> ChatResponse {
    let body = encode_session_json(&RegistrationResponse {
        session_id: session_id.as_bytes().to_vec(),
        session,
    });
    ChatResponse { status: 200, message: None, body: Some(body), headers: vec![] }
}

#[test]
fn create_session_sends_the_documented_request() {
    let cs = CreateSession { number: "+18005550101".to_owned() };
    let req = create_session_request(&cs);
    assert_eq!(req.method, "POST");
    assert_eq!(req.path, "/v1/verification/session");
    assert_eq!(req.body.as_deref(), Some(b"{\"number\":\"+18005550101\"}".as_slice()));
    assert_eq!(req.headers, vec!["content-type: application/json".to_owned()]);

    // The first request on a fresh connection carries ID 0.
    let mut mux = RequestMux::new();
    let (_bytes, id) = frame_request(&req, &mut mux);
    assert_eq!(id, 0);
}

#[test]
fn create_session_binds_the_reported_session() {
    let cs = CreateSession { number: "+18005550101".to_owned() };
    let _req = create_session_request(&cs);
    let session = RegistrationSession { allowed_to_request_code: true, verified: false };
    let response = server_response("sessionId", session);
    let service = RegistrationService::from_session_response(&response).expect("can create session");
    assert_eq!(service.session_id().as_bytes().as_slice(), b"sessionId");
    assert!(service.session_state().allowed_to_request_code);
    assert!(!service.session_state().verified);
    assert_eq!(*service.session_state(), session);
}

#[test]
fn resume_session_sends_the_documented_request() {
    let session_id = SessionId::from_text("abcabc").expect("valid id");
    let req = resume_session_request(&session_id);
    assert_eq!(req.method, "GET");
    assert_eq!(req.path, "/v1/verification/session/abcabc");
    assert!(req.body.is_none());
    assert!(req.headers.is_empty());

    let mut mux = RequestMux::new();
    let (_bytes, id) = frame_request(&req, &mut mux);
    assert_eq!(id, 0);

    let session = RegistrationSession { allowed_to_request_code: true, verified: false };
    let response = server_response("abcabc", session);
    let service = RegistrationService::from_session_response(&response).expect("resumed session");
    assert_eq!(service.session_id(), &SessionId::from_text("abcabc").unwrap());
}

#[test]
fn session_json_round_trips() {
    for (allowed, verified) in [(false, false), (false, true), (true, false), (true, true)] {
        let resp = RegistrationResponse {
            session_id: b"abc-DEF_123".to_vec(),
            session: RegistrationSession { allowed_to_request_code: allowed, verified },
        };
        let body = encode_session_json(&resp);
        let parsed = parse_session_json(&body).expect("canonical body parses");
        assert_eq!(parsed, resp);
    }
}

#[test]
fn session_json_exact_bytes() {
    let resp = RegistrationResponse {
        session_id: b"sessionId".to_vec(),
        session: RegistrationSession { allowed_to_request_code: true, verified: false },
    };
    let body = encode_session_json(&resp);
    assert_eq!(
        body,
        b"{\"session_id\":\"sessionId\",\"session\":{\"allowed_to_request_code\":true,\"verified\":false}}"
            .to_vec()
    );
}

#[test]
fn malformed_session_bodies_are_rejected() {
    assert!(parse_session_json(b"").is_none());
    assert!(parse_session_json(b"{}").is_none());
    assert!(parse_session_json(b"{\"session_id\":\"\",\"session\":{\"allowed_to_request_code\":true,\"verified\":false}}").is_none());
    assert!(parse_session_json(b"{\"session_id\":\"a b\",\"session\":{\"allowed_to_request_code\":true,\"verified\":false}}").is_none());
    // Trailing bytes are rejected.
    assert!(parse_session_json(b"{\"session_id\":\"abc\",\"session\":{\"allowed_to_request_code\":true,\"verified\":false}}x").is_none());
}

#[test]
fn non_success_responses_are_unexpected() {
    let session = RegistrationSession::default();
    let mut response = server_response("abcabc", session);
    response.status = 500;
    assert!(matches!(
        RegistrationService::from_session_response(&response),
        Err(RequestError::UnexpectedResponse)
    ));

    let empty = ChatResponse { status: 200, message: None, body: None, headers: vec![] };
    assert!(matches!(
        RegistrationService::from_session_response(&empty),
        Err(RequestError::UnexpectedResponse)
    ));

    let garbage =
        ChatResponse { status: 200, message: None, body: Some(b"nope".to_vec()), headers: vec![] };
    assert!(matches!(
        RegistrationService::from_session_response(&garbage),
        Err(RequestError::UnexpectedResponse)
    ));
}

#[test]
fn submit_updates_the_session_state() {
    let first = server_response(
        "abcabc",
        RegistrationSession { allowed_to_request_code: true, verified: false },
    );
    let mut service = RegistrationService::from_session_response(&first).expect("bound");

    let later = server_response(
        "abcabc",
        RegistrationSession { allowed_to_request_code: false, verified: true },
    );
    service.apply_session_response(&later).expect("applied");
    assert!(service.session_state().verified);
    assert!(!service.session_state().allowed_to_request_code);
    assert_eq!(service.session_id().as_bytes().as_slice(), b"abcabc");
}

#[test]
fn session_scoped_requests_target_the_bound_session() {
    let session_id = SessionId::from_text("abcabc").expect("valid id");
    let req = session_scoped_request(&session_id, "PATCH", Some(b"{}".to_vec()));
    assert_eq!(req.method, "PATCH");
    assert_eq!(req.path, "/v1/verification/session/abcabc");
    assert_eq!(req.body.as_deref(), Some(b"{}".as_slice()));
    assert_eq!(req.headers, vec!["content-type: application/json".to_owned()]);

    let bare = session_scoped_request(&session_id, "GET", None);
    assert!(bare.headers.is_empty());
    assert!(bare.body.is_none());
}

#[test]
fn session_ids_must_be_url_safe() {
    assert!(SessionId::from_text("abcabc").is_ok());
    assert!(SessionId::from_text("abc-DEF_123").is_ok());
    assert!(SessionId::from_text("").is_err());
    assert!(SessionId::from_text("a b").is_err());
    assert!(SessionId::from_text("a/b").is_err());
}

#[test]
fn connect_retries_transient_failures_and_succeeds_on_third_attempt() {
    let outcomes = vec![
        Some(ChatConnectError::Timeout),
        Some(ChatConnectError::Timeout),
        None,
    ];
    assert_eq!(connect_with_retry(&outcomes, 0), ConnectRunResult::Connected { attempts: 3 });
}

#[test]
fn connect_stops_on_fatal_failures() {
    let outcomes = vec![
        Some(ChatConnectError::WebSocket(ConnectFailure::Transport(
            TransportError::TcpConnectionFailed,
        ))),
        Some(ChatConnectError::RetryLater { retry_after_s: 42 }),
        None,
    ];
    assert_eq!(
        connect_with_retry(&outcomes, 0),
        ConnectRunResult::GaveUp(FatalConnectError::RetryLater { retry_after_s: 42 })
    );
    assert_eq!(
        request_error_of_fatal(&FatalConnectError::RetryLater { retry_after_s: 42 }),
        RequestError::RetryLater { retry_after_s: 42 }
    );
}

#[test]
fn unexpected_server_signals_surface_as_unknown() {
    let outcomes = vec![Some(ChatConnectError::AppExpired)];
    assert_eq!(
        connect_with_retry(&outcomes, 0),
        ConnectRunResult::GaveUp(FatalConnectError::UnexpectedAppExpired)
    );
    let err = request_error_of_fatal(&FatalConnectError::UnexpectedAppExpired);
    assert_eq!(
        err,
        RequestError::Unknown(
            "unexpected error: unauthenticated socket signaled app expired".to_owned()
        )
    );
    assert_eq!(
        request_error_of_fatal(&FatalConnectError::InvalidConfiguration),
        RequestError::Unknown("invalid chat client configuration".to_owned())
    );
}

#[test]
fn send_loop_reconnects_after_lost_connections() {
    let ok = ChatResponse { status: 200, message: None, body: None, headers: vec![] };
    let outcomes = vec![
        SendAttemptOutcome::ConnectionLost,
        SendAttemptOutcome::ConnectionLost,
        SendAttemptOutcome::Delivered(ok),
    ];
    let delivered = send_request_loop(outcomes).expect("delivered after reconnects");
    assert_eq!(delivered.status, 200);
}

#[test]
fn send_loop_surfaces_timeouts_and_unknown_failures() {
    assert_eq!(
        send_request_loop(vec![SendAttemptOutcome::RequestTimedOut]),
        Err(RequestError::Timeout)
    );
    assert_eq!(
        send_request_loop(vec![
            SendAttemptOutcome::ConnectionLost,
            SendAttemptOutcome::Unknown("websocket error".to_owned()),
        ]),
        Err(RequestError::Unknown("websocket error".to_owned()))
    );
}

#[test]
fn resume_keeps_the_resumed_identifier() {
    // Even when the response body reports a different identifier, the
    // client stays bound to the one it resumed.
    let resumed = SessionId::from_text("abcabc").expect("valid id");
    let response = server_response(
        "somethingElse",
        RegistrationSession { allowed_to_request_code: true, verified: false },
    );
    let service =
        RegistrationService::from_resume_response(resumed, &response).expect("resumed session");
    assert_eq!(service.session_id().as_bytes().as_slice(), b"abcabc");
    assert!(service.session_state().allowed_to_request_code);
}

#[test]
fn send_results_classify_the_way_the_loop_retries() {
    let ok = ChatResponse { status: 200, message: None, body: None, headers: vec![] };
    assert!(matches!(
        classify_send_result(Ok(ok)),
        SendAttemptOutcome::Delivered(resp) if resp.status == 200
    ));
    assert!(matches!(
        classify_send_result(Err(SendError::Disconnected)),
        SendAttemptOutcome::ConnectionLost
    ));
    assert!(matches!(
        classify_send_result(Err(SendError::RequestTimedOut)),
        SendAttemptOutcome::RequestTimedOut
    ));
    assert!(matches!(
        classify_send_result(Err(SendError::WebSocket)),
        SendAttemptOutcome::Unknown(m) if m == "websocket error"
    ));
    assert!(matches!(
        classify_send_result(Err(SendError::IncomingDataInvalid)),
        SendAttemptOutcome::Unknown(m) if m == "received invalid response"
    ));
    assert!(matches!(
        classify_send_result(Err(SendError::RequestHasInvalidHeader)),
        SendAttemptOutcome::Unknown(m) if m == "request had invalid header"
    ));
}
