use connect_core::connect_state::{suggested_connect_config, ConnectState, PreconnectCache};
use connect_core::errors::{classify_failure, ConnectFailure, ErrorClass, TransportError};
use connect_core::monitor::{
    classify_monitored_failure, fingerprint_changed, resolve_monitored_failure, InterfaceChangedOr,
};
use connect_core::route::{
    decimal_string, suggested_ws_config, with_auth_header, HttpFragment, RouteInfo, TcpTarget,
    TransportRoute, WsFragment, WsRoute,
};

fn plain_transport(sni: &str, port: u16) -> TransportRoute {
    TransportRoute {
        sni: sni.to_owned(),
        target: TcpTarget { host: sni.to_owned(), port },
        proxied: false,
    }
}

#[test]
fn decimal_rendering_is_exact() {
    assert_eq!(decimal_string(0), "0");
    assert_eq!(decimal_string(9), "9");
    assert_eq!(decimal_string(10), "10");
    assert_eq!(decimal_string(1234), "1234");
    assert_eq!(decimal_string(u64::MAX), "18446744073709551615");
}

#[test]
fn route_info_redacts_the_host() {
    let fronted = RouteInfo { port: 1234, front_name: Some("proxyf".to_owned()) };
    assert_eq!(fronted.description(), "REDACTED:1234 fronted by proxyf");
    let direct = RouteInfo { port: 443, front_name: None };
    assert_eq!(direct.description(), "REDACTED:443");
}

#[test]
fn transport_identity_compares_every_part() {
    let a = plain_transport("host", 443);
    assert!(a.transport_eq(&plain_transport("host", 443)));
    assert!(!a.transport_eq(&plain_transport("host", 444)));
    assert!(!a.transport_eq(&plain_transport("other", 443)));
    let mut proxied = plain_transport("host", 443);
    proxied.proxied = true;
    assert!(!a.transport_eq(&proxied));
}

#[test]
fn network_change_cancellation_is_never_a_success() {
    let cancelled = InterfaceChangedOr::InterfaceChanged;
    assert_eq!(
        resolve_monitored_failure(&cancelled),
        ConnectFailure::Transport(TransportError::ClientAbort)
    );
    assert_eq!(
        classify_monitored_failure(&cancelled),
        ErrorClass::Fatal(ConnectFailure::Transport(TransportError::ClientAbort))
    );
    // A genuine transport failure passes through and stays retryable.
    let failed = InterfaceChangedOr::Other(ConnectFailure::Transport(
        TransportError::TcpConnectionFailed,
    ));
    assert_eq!(classify_monitored_failure(&failed), ErrorClass::Intermittent);
}

#[test]
fn fingerprint_probe_detects_changes() {
    assert!(!fingerprint_changed(7, 7));
    assert!(fingerprint_changed(7, 8));
}

#[test]
fn preconnect_cache_serves_fresh_entries_once() {
    let mut cache = PreconnectCache::new(1_500);
    let route = plain_transport("host", 443);
    cache.save_preconnected(route.clone(), 11, 1_000);
    // Within the lifetime: the entry is yielded and consumed.
    assert_eq!(cache.take_if_fresh(&route, 2_000), Some(11));
    assert_eq!(cache.take_if_fresh(&route, 2_000), None);
}

#[test]
fn preconnect_cache_drops_expired_entries_lazily() {
    let mut cache = PreconnectCache::new(1_500);
    let route = plain_transport("host", 443);
    cache.save_preconnected(route.clone(), 11, 1_000);
    assert_eq!(cache.take_if_fresh(&route, 2_500), None);
    assert_eq!(cache.take_if_fresh(&route, 2_000), None);
}

#[test]
fn preconnect_cache_keeps_entries_for_other_routes() {
    let mut cache = PreconnectCache::new(1_500);
    let cached = plain_transport("host", 443);
    let other = plain_transport("elsewhere", 443);
    cache.save_preconnected(cached.clone(), 11, 1_000);
    assert_eq!(cache.take_if_fresh(&other, 1_200), None);
    assert_eq!(cache.take_if_fresh(&cached, 1_200), Some(11));
}

#[test]
fn connect_state_wipes_history_on_network_change() {
    let mut state = ConnectState::new(suggested_connect_config());
    let route = plain_transport("host", 443);
    let updates = vec![(route.clone(), false), (route.clone(), false)];
    state.apply_race_conclusion(&connect_core::racer::RaceConclusion {
        status: connect_core::racer::RaceStatus::Failed(
            connect_core::racer::RaceFailure::AllAttemptsFailed,
        ),
        route_info: None,
        updates,
        finished_at_ms: 1_000,
    });
    assert!(state.registry().compute_delay_for(&route, 1_500) > 0);
    state.network_changed(2_000);
    assert_eq!(state.registry().compute_delay_for(&route, 2_500), 0);
}

#[test]
fn preconnect_tokens_flow_through_connect_state() {
    let mut state = ConnectState::new(suggested_connect_config());
    let route = plain_transport("host", 443);
    state.save_preconnected(route.clone(), 99, 1_000);
    assert_eq!(state.take_preconnected(&route, 1_200), Some(99));
    assert_eq!(state.take_preconnected(&route, 1_200), None);
}

#[test]
fn server_rejections_follow_their_retry_hint() {
    let hinted = ConnectFailure::RejectedByServer { status: 429, retry_after_s: Some(42) };
    assert_eq!(classify_failure(&hinted), ErrorClass::RetryAt { delay_s: 42 });
    let unhinted = ConnectFailure::RejectedByServer { status: 403, retry_after_s: None };
    assert_eq!(classify_failure(&unhinted), ErrorClass::Fatal(unhinted));
}

#[test]
fn auth_header_extends_the_upgrade_headers() {
    let route = WsRoute {
        ws: WsFragment {
            endpoint: "/v1/websocket".to_owned(),
            headers: vec!["x-forwarded-for: unknown".to_owned()],
            config: suggested_ws_config(),
        },
        http: HttpFragment {
            host_header: "host".to_owned(),
            path_prefix: String::new(),
            front_name: None,
        },
        transport: plain_transport("host", 443),
    };
    let extended = with_auth_header(&route, "authorization: SECRET-REDACTED");
    assert_eq!(extended.ws.headers.len(), 2);
    assert_eq!(extended.ws.headers[0], "x-forwarded-for: unknown");
    assert_eq!(extended.ws.headers[1], "authorization: SECRET-REDACTED");
    assert!(extended.transport.transport_eq(&route.transport));
    assert_eq!(extended.ws.endpoint, route.ws.endpoint);
}
