use connect_core::connect_state::{
    chat_connect_error_of_race, suggested_connect_config, ConnectState, ThrottleState,
    TimeoutOrRace,
};
use connect_core::errors::{ChatConnectError, ConnectFailure, TransportError};
use connect_core::outcome::{OutcomeParams, OutcomeRegistry};
use connect_core::racer::{RaceFailure, RaceStatus};
use connect_core::route::{HttpFragment, TcpTarget, TransportRoute, WsFragment, WsRoute};
use connect_core::sim::{run_race, AttemptBehavior};

fn sim_params() -> OutcomeParams {
    OutcomeParams {
        age_cutoff_ms: 300_000,
        cooldown_growth_permille: 10_000,
        count_growth_permille: 10_000,
        max_count: 5,
        max_delay_ms: 30_000,
    }
}

fn sim_route(sni: &str, port: u16, front: Option<&str>) -> WsRoute {
    WsRoute {
        ws: WsFragment {
            endpoint: "/v1/websocket".to_owned(),
            headers: vec![],
            config: connect_core::route::suggested_ws_config(),
        },
        http: HttpFragment {
            host_header: sni.to_owned(),
            path_prefix: String::new(),
            front_name: front.map(|f| f.to_owned()),
        },
        transport: TransportRoute {
            sni: sni.to_owned(),
            target: TcpTarget { host: sni.to_owned(), port },
            proxied: front.is_some(),
        },
    }
}

fn staging_like_routes() -> Vec<WsRoute> {
    vec![
        sim_route("direct-host", 443, None),
        sim_route("front-one", 443, Some("proxyf")),
        sim_route("front-two", 443, Some("proxyg")),
    ]
}

#[test]
fn one_route_hanging_times_out_at_exactly_connect_timeout() {
    let reg = OutcomeRegistry::new(sim_params());
    let routes = vec![sim_route("direct-host", 443, None)];
    let behaviors = vec![AttemptBehavior::Hang];
    let outcome = run_race(routes, &behaviors, &reg, 0, 31_000);
    assert!(outcome.timed_out);
    assert_eq!(outcome.elapsed_ms, 31_000);
    assert!(outcome.conclusion.is_none());
}

#[test]
fn all_routes_hang_times_out_after_whole_attempt_budget() {
    let reg = OutcomeRegistry::new(sim_params());
    let routes = staging_like_routes();
    let behaviors = vec![AttemptBehavior::Hang, AttemptBehavior::Hang, AttemptBehavior::Hang];
    let outcome = run_race(routes, &behaviors, &reg, 0, 60_000);
    assert!(outcome.timed_out);
    assert_eq!(outcome.elapsed_ms, 60_000);
    assert_eq!(
        chat_connect_error_of_race(&TimeoutOrRace::Timeout { attempt_duration_ms: 60_000 }),
        ChatConnectError::Timeout
    );
}

#[test]
fn only_proxies_reachable_connects_after_first_stagger() {
    let reg = OutcomeRegistry::new(sim_params());
    let routes = staging_like_routes();
    let behaviors = vec![
        AttemptBehavior::FailAfter {
            delay_ms: 0,
            failure: ConnectFailure::Transport(TransportError::TcpConnectionFailed),
        },
        AttemptBehavior::SucceedAfter { delay_ms: 0 },
        AttemptBehavior::SucceedAfter { delay_ms: 0 },
    ];
    let outcome = run_race(routes, &behaviors, &reg, 0, 60_000);
    assert!(!outcome.timed_out);
    assert_eq!(outcome.elapsed_ms, 500);
    let conclusion = outcome.conclusion.expect("concluded");
    assert_eq!(conclusion.status, RaceStatus::Connected(1));
    let info = conclusion.route_info.expect("winner");
    assert_eq!(info.front_name.as_deref(), Some("proxyf"));
}

#[test]
fn slow_direct_failure_does_not_delay_proxy() {
    let reg = OutcomeRegistry::new(sim_params());
    let routes = staging_like_routes();
    // The direct route hangs for 30 s before failing, but the fronted
    // routes were scheduled in parallel.
    let behaviors = vec![
        AttemptBehavior::FailAfter {
            delay_ms: 30_000,
            failure: ConnectFailure::Transport(TransportError::TcpConnectionFailed),
        },
        AttemptBehavior::SucceedAfter { delay_ms: 0 },
        AttemptBehavior::SucceedAfter { delay_ms: 0 },
    ];
    let outcome = run_race(routes, &behaviors, &reg, 0, 60_000);
    assert!(!outcome.timed_out);
    assert_eq!(outcome.elapsed_ms, 500);
    assert_eq!(outcome.conclusion.expect("concluded").status, RaceStatus::Connected(1));
}

#[test]
fn slow_handshakes_win_at_their_delay() {
    let reg = OutcomeRegistry::new(sim_params());
    let routes = staging_like_routes();
    let behaviors = vec![
        AttemptBehavior::SucceedAfter { delay_ms: 5_000 },
        AttemptBehavior::SucceedAfter { delay_ms: 5_000 },
        AttemptBehavior::SucceedAfter { delay_ms: 5_000 },
    ];
    let outcome = run_race(routes, &behaviors, &reg, 0, 60_000);
    assert!(!outcome.timed_out);
    assert_eq!(outcome.elapsed_ms, 5_000);
    assert_eq!(outcome.conclusion.expect("concluded").status, RaceStatus::Connected(0));
}

#[test]
fn one_tls_handshake_at_a_time() {
    let mut throttle = ThrottleState::new(1);
    // Three TCP connections complete and contend for the TLS stage; only
    // one handshake may run at a time.
    assert!(throttle.try_acquire());
    assert!(!throttle.try_acquire());
    assert!(!throttle.try_acquire());
    throttle.release();
    assert!(throttle.try_acquire());
}

#[test]
fn client_abort_surfaces_as_fatal_connect() {
    let reg = OutcomeRegistry::new(sim_params());
    let routes = vec![sim_route("direct-host", 443, None)];
    let behaviors = vec![AttemptBehavior::FailAfter {
        delay_ms: 0,
        failure: ConnectFailure::Transport(TransportError::ClientAbort),
    }];
    let outcome = run_race(routes, &behaviors, &reg, 0, 31_000);
    assert!(!outcome.timed_out);
    let conclusion = outcome.conclusion.expect("concluded");
    assert_eq!(
        conclusion.status,
        RaceStatus::Failed(RaceFailure::FatalConnect(ConnectFailure::Transport(
            TransportError::ClientAbort
        )))
    );
    assert_eq!(
        chat_connect_error_of_race(&TimeoutOrRace::Other(RaceFailure::FatalConnect(
            ConnectFailure::Transport(TransportError::ClientAbort)
        ))),
        ChatConnectError::WebSocket(ConnectFailure::Transport(TransportError::ClientAbort))
    );
}

#[test]
fn second_race_learns_from_first() {
    let config = suggested_connect_config();
    let mut state = ConnectState::new(config);
    let behaviors = vec![
        AttemptBehavior::FailAfter {
            delay_ms: 0,
            failure: ConnectFailure::Transport(TransportError::TcpConnectionFailed),
        },
        AttemptBehavior::SucceedAfter { delay_ms: 0 },
        AttemptBehavior::SucceedAfter { delay_ms: 0 },
    ];

    let first = run_race(staging_like_routes(), &behaviors, state.registry(), 0, 60_000);
    assert!(!first.timed_out);
    assert_eq!(first.elapsed_ms, 500);
    let conclusion = first.conclusion.expect("concluded");
    state.apply_race_conclusion(&conclusion);

    // The second attempt starts no earlier attempts on the transport the
    // first learned to be failing: the fronted route now goes first and
    // wins immediately.
    let second = run_race(staging_like_routes(), &behaviors, state.registry(), 1_000, 60_000);
    assert!(!second.timed_out);
    assert_eq!(second.conclusion.expect("concluded").status, RaceStatus::Connected(1));
    assert!(second.elapsed_ms <= first.elapsed_ms);
    assert_eq!(second.elapsed_ms, 0);
}
