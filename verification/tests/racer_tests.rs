use connect_core::errors::{ConnectFailure, TransportError};
use connect_core::outcome::{OutcomeParams, OutcomeRegistry};
use connect_core::racer::{RaceFailure, RaceStatus, RouteRace};
use connect_core::route::{HttpFragment, TcpTarget, TransportRoute, WsFragment, WsRoute};

fn race_params() -> OutcomeParams {
    OutcomeParams {
        age_cutoff_ms: 300_000,
        cooldown_growth_permille: 10_000,
        count_growth_permille: 10_000,
        max_count: 5,
        max_delay_ms: 30_000,
    }
}

fn route_with(sni: &str, port: u16, front: Option<&str>) -> WsRoute {
    WsRoute {
        ws: WsFragment {
            endpoint: "/v1/websocket".to_owned(),
            headers: vec![],
            config: connect_core::route::suggested_ws_config(),
        },
        http: HttpFragment {
            host_header: sni.to_owned(),
            path_prefix: String::new(),
            front_name: front.map(|f| f.to_owned()),
        },
        transport: TransportRoute {
            sni: sni.to_owned(),
            target: TcpTarget { host: sni.to_owned(), port },
            proxied: front.is_some(),
        },
    }
}

#[test]
fn zero_routes_no_resolved_routes_immediately() {
    let reg = OutcomeRegistry::new(race_params());
    let race = RouteRace::new(Vec::new(), &reg, 0);
    assert_eq!(race.status(), RaceStatus::Failed(RaceFailure::NoResolvedRoutes));
}

#[test]
fn fresh_routes_start_in_list_order_with_stagger() {
    let reg = OutcomeRegistry::new(race_params());
    let routes = vec![route_with("a", 443, None), route_with("b", 443, None)];
    let race = RouteRace::new(routes, &reg, 1_000);
    // The first route is due immediately; the second follows after the
    // base stagger.
    assert_eq!(race.next_ready(1_000), Some(0));
    assert_eq!(race.next_ready(999), None);
    let mut race = race;
    race.launch(0, 1_000);
    assert_eq!(race.next_start_time(), Some(1_500));
    assert_eq!(race.next_ready(1_499), None);
    assert_eq!(race.next_ready(1_500), Some(1));
}

#[test]
fn learned_failure_deprioritizes_route() {
    let mut reg = OutcomeRegistry::new(race_params());
    let failing = route_with("fail", 443, None);
    let good = route_with("good", 443, Some("proxyf"));
    reg.record(&failing.transport, false, 10_000);
    // The failing transport sorts after the fresh one even though it is
    // listed first.
    let race = RouteRace::new(vec![failing, good], &reg, 10_500);
    assert_eq!(race.next_ready(10_500), Some(1));
}

#[test]
fn successful_race_describes_winning_route() {
    let reg = OutcomeRegistry::new(race_params());
    let routes = vec![route_with("a", 1234, None), route_with("b", 4321, Some("proxyf"))];
    let mut race = RouteRace::new(routes, &reg, 0);
    race.launch(0, 0);
    race.on_resolved(0, 1);
    race.on_attempt_success(0);
    assert_eq!(race.status(), RaceStatus::Connected(0));
    let conclusion = race.conclude(250);
    let info = conclusion.route_info.expect("winner described");
    assert_eq!(info.port, 1234);
    assert_eq!(info.front_name, None);
    assert_eq!(info.description(), "REDACTED:1234");
    // The only success outcome recorded is the winner's.
    assert_eq!(conclusion.updates.len(), 1);
    assert!(conclusion.updates[0].1);
    assert_eq!(conclusion.updates[0].0.sni, "a");
    assert_eq!(conclusion.finished_at_ms, 250);
}

#[test]
fn fatal_error_ends_race() {
    let reg = OutcomeRegistry::new(race_params());
    let routes = vec![route_with("a", 443, None), route_with("b", 443, None)];
    let mut race = RouteRace::new(routes, &reg, 0);
    race.launch(0, 0);
    race.on_resolved(0, 1);
    race.on_fatal(0, ConnectFailure::Transport(TransportError::ClientAbort));
    assert_eq!(
        race.status(),
        RaceStatus::Failed(RaceFailure::FatalConnect(ConnectFailure::Transport(
            TransportError::ClientAbort
        )))
    );
    // The fatally cancelled race records no outcome.
    let conclusion = race.conclude(10);
    assert!(conclusion.updates.is_empty());
    assert!(conclusion.route_info.is_none());
}

#[test]
fn address_fan_out_fails_only_when_all_addresses_fail() {
    let reg = OutcomeRegistry::new(race_params());
    let routes = vec![route_with("a", 443, None)];
    let mut race = RouteRace::new(routes, &reg, 0);
    race.launch(0, 0);
    race.on_resolved(0, 2);
    race.on_attempt_failure(0, None, 5);
    // One address left: the race keeps running and no outcome is
    // recorded yet.
    assert_eq!(race.status(), RaceStatus::Running);
    race.on_attempt_failure(0, None, 9);
    let mut race = race;
    race.conclude_if_exhausted();
    assert_eq!(race.status(), RaceStatus::Failed(RaceFailure::AllAttemptsFailed));
    let conclusion = race.conclude(9);
    assert_eq!(conclusion.updates.len(), 1);
    assert!(!conclusion.updates[0].1);
}

#[test]
fn empty_resolution_counts_as_intermittent_failure() {
    let reg = OutcomeRegistry::new(race_params());
    let routes = vec![route_with("a", 443, None)];
    let mut race = RouteRace::new(routes, &reg, 0);
    race.launch(0, 0);
    race.on_resolved(0, 0);
    race.conclude_if_exhausted();
    assert_eq!(race.status(), RaceStatus::Failed(RaceFailure::AllAttemptsFailed));
    let conclusion = race.conclude(3);
    assert_eq!(conclusion.updates.len(), 1);
    assert!(!conclusion.updates[0].1);
}

#[test]
fn retry_hint_pushes_back_same_transport_routes() {
    let reg = OutcomeRegistry::new(race_params());
    // Two routes on the same transport; the second is still pending when
    // the first fails with a retry-after hint.
    let routes = vec![route_with("a", 443, None), route_with("a", 443, None)];
    let mut race = RouteRace::new(routes, &reg, 0);
    race.launch(0, 0);
    race.on_resolved(0, 1);
    race.on_attempt_failure(0, Some(42), 100);
    // The pending same-transport route moves to no earlier than
    // now + 42 s.
    assert_eq!(race.next_start_time(), Some(42_100));
}
