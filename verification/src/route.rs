//! Data model for connection routes.
//!
//! A route describes an intent to connect: the transport part (TLS server
//! name and the TCP target, optionally behind a proxy), the HTTP part (host
//! header, path prefix, optional fronting proxy name) and the WebSocket part
//! (endpoint path). Routes are plain cloneable values with no hidden state.
//! The transport part is the identity used by the outcome registry.

use vstd::prelude::*;

verus! {

/// A TCP endpoint: a host name (or address text) and a port.
#[derive(Debug)]
pub struct TcpTarget {
    pub host: String,
    pub port: u16,
}

impl Clone for TcpTarget {
    fn clone(&self) -> (r: Self)
        ensures
            r == *self,
    {
        TcpTarget { host: self.host.clone(), port: self.port }
    }
}

/// The subset of a route that determines TCP/TLS identity; the key for
/// outcome memory.
#[derive(Debug)]
pub struct TransportRoute {
    /// TLS server name presented during the handshake.
    pub sni: String,
    /// Target of the TCP leg: the destination itself, or the proxy hop.
    pub target: TcpTarget,
    /// Whether the TCP leg runs through an intermediary proxy.
    pub proxied: bool,
}

impl Clone for TransportRoute {
    fn clone(&self) -> (r: Self)
        ensures
            r == *self,
    {
        TransportRoute { sni: self.sni.clone(), target: self.target.clone(), proxied: self.proxied }
    }
}

/// Duplicates an optional string, keeping its value.
pub fn clone_opt_string(s: &Option<String>) -> (r: Option<String>)
    ensures
        r == *s,
{
    match s {
        Option::Some(v) => Option::Some(v.clone()),
        Option::None => Option::None,
    }
}

/// The HTTP-level fragment of a route.
#[derive(Debug)]
pub struct HttpFragment {
    pub host_header: String,
    pub path_prefix: String,
    /// Name of the fronting proxy, when traffic is routed through a CDN
    /// whose TLS name masks the true destination.
    pub front_name: Option<String>,
}

impl Clone for HttpFragment {
    fn clone(&self) -> (r: Self)
        ensures
            r == *self,
    {
        HttpFragment {
            host_header: self.host_header.clone(),
            path_prefix: self.path_prefix.clone(),
            front_name: clone_opt_string(&self.front_name),
        }
    }
}

/// Timing of the WebSocket framing layer.
#[derive(Clone, Copy, Debug, PartialEq, Eq, Structural)]
pub struct WsConfig {
    /// Idle time after which this side pings.
    pub local_idle_timeout_ms: u64,
    /// Idle time after which the remote is expected to have pinged.
    pub remote_idle_ping_timeout_ms: u64,
    /// Idle time after which the connection is dropped.
    pub remote_idle_disconnect_timeout_ms: u64,
}

/// Suggested WebSocket framing timing: 10-second local and ping idle,
/// 30-second disconnect idle.
pub fn suggested_ws_config() -> (r: WsConfig)
    ensures
        r == (WsConfig {
            local_idle_timeout_ms: 10000,
            remote_idle_ping_timeout_ms: 10000,
            remote_idle_disconnect_timeout_ms: 30000,
        }),
{
    WsConfig {
        local_idle_timeout_ms: 10000,
        remote_idle_ping_timeout_ms: 10000,
        remote_idle_disconnect_timeout_ms: 30000,
    }
}

/// The WebSocket-level fragment of a route.
#[derive(Debug)]
pub struct WsFragment {
    /// Path requested during the WebSocket upgrade.
    pub endpoint: String,
    /// `"Name: value"` header lines sent with the upgrade request.
    pub headers: Vec<String>,
    /// Timing of the framing layer once the socket is up.
    pub config: WsConfig,
}

impl Clone for WsFragment {
    fn clone(&self) -> (r: Self)
        ensures
            r.endpoint == self.endpoint,
            r.config == self.config,
            r.headers@.len() == self.headers@.len(),
            forall|i: int|
                0 <= i < self.headers@.len() ==> #[trigger] r.headers@[i] == self.headers@[i],
    {
        WsFragment {
            endpoint: self.endpoint.clone(),
            headers: crate::chat::clone_strings(&self.headers),
            config: self.config,
        }
    }
}

/// A fully specified path to the server: transport, HTTP and WebSocket
/// layers.
#[derive(Debug)]
pub struct WsRoute {
    pub ws: WsFragment,
    pub http: HttpFragment,
    pub transport: TransportRoute,
}

impl Clone for WsRoute {
    fn clone(&self) -> (r: Self)
        ensures
            r.ws.endpoint == self.ws.endpoint,
            r.ws.config == self.ws.config,
            r.ws.headers@.len() == self.ws.headers@.len(),
            forall|i: int|
                0 <= i < self.ws.headers@.len() ==> #[trigger] r.ws.headers@[i]
                    == self.ws.headers@[i],
            r.http == self.http,
            r.transport == self.transport,
    {
        WsRoute {
            ws: self.ws.clone(),
            http: self.http.clone(),
            transport: self.transport.clone(),
        }
    }
}

/// The same route with one more WebSocket upgrade header line, as an
/// authenticated connect adds its credential header before racing.
pub fn with_auth_header(route: &WsRoute, header_line: &str) -> (r: WsRoute)
    ensures
        r.transport == route.transport,
        r.http == route.http,
        r.ws.endpoint == route.ws.endpoint,
        r.ws.config == route.ws.config,
        r.ws.headers@.len() == route.ws.headers@.len() + 1,
        forall|i: int|
            0 <= i < route.ws.headers@.len() ==> #[trigger] r.ws.headers@[i]
                == route.ws.headers@[i],
        r.ws.headers@.last()@ == header_line@,
{
    let mut extended = route.clone();
    extended.ws.headers.push(String::from_str(header_line));
    extended
}

/// Whether two transport routes denote the same TCP/TLS identity.
pub open spec fn same_transport(a: TransportRoute, b: TransportRoute) -> bool {
    &&& a.sni@ == b.sni@
    &&& a.target.host@ == b.target.host@
    &&& a.target.port == b.target.port
    &&& a.proxied == b.proxied
}

impl TransportRoute {
    /// Decides transport identity, the equivalence used as the outcome
    /// registry's key.
    pub fn transport_eq(&self, other: &TransportRoute) -> (r: bool)
        ensures
            r == same_transport(*self, *other),
    {
        self.sni == other.sni && self.target.host == other.target.host
            && self.target.port == other.target.port && self.proxied == other.proxied
    }
}

/// The decimal digit character for `d`.
pub open spec fn spec_digit(d: nat) -> char
    recommends
        d < 10,
{
    if d == 0 { '0' } else if d == 1 { '1' } else if d == 2 { '2' } else if d == 3 { '3' }
    else if d == 4 { '4' } else if d == 5 { '5' } else if d == 6 { '6' } else if d == 7 { '7' }
    else if d == 8 { '8' } else { '9' }
}

/// The decimal representation of `n`, most significant digit first.
pub open spec fn spec_decimal(n: nat) -> Seq<char>
    decreases n,
{
    if n < 10 {
        seq![spec_digit(n)]
    } else {
        spec_decimal(n / 10).push(spec_digit(n % 10))
    }
}

fn digit_str(d: u64) -> (r: &'static str)
    requires
        d < 10,
    ensures
        r@ == seq![spec_digit(d as nat)],
{
    proof {
        reveal_strlit("0");
        reveal_strlit("1");
        reveal_strlit("2");
        reveal_strlit("3");
        reveal_strlit("4");
        reveal_strlit("5");
        reveal_strlit("6");
        reveal_strlit("7");
        reveal_strlit("8");
        reveal_strlit("9");
    }
    let r = match d {
        0 => "0",
        1 => "1",
        2 => "2",
        3 => "3",
        4 => "4",
        5 => "5",
        6 => "6",
        7 => "7",
        8 => "8",
        _ => "9",
    };
    proof {
        assert(r@ =~= seq![spec_digit(d as nat)]);
    }
    r
}

/// Renders `n` in decimal.
pub fn decimal_string(n: u64) -> (r: String)
    ensures
        r@ == spec_decimal(n as nat),
    decreases n,
{
    if n < 10 {
        let r = digit_str(n).to_owned();
        r
    } else {
        let mut r = decimal_string(n / 10);
        r.append(digit_str(n % 10));
        proof {
            assert(r@ =~= spec_decimal(n as nat));
        }
        r
    }
}

/// An opaque, log-safe description of which route a successful connection
/// used: the target host is redacted, leaving the port and the fronting
/// proxy name.
#[derive(Debug)]
pub struct RouteInfo {
    pub port: u16,
    pub front_name: Option<String>,
}

/// The log-safe text for a route with the given port and fronting name.
pub open spec fn spec_describe(port: u16, front_name: Option<Seq<char>>) -> Seq<char> {
    let base = "REDACTED:"@ + spec_decimal(port as nat);
    match front_name {
        Option::Some(f) => base + " fronted by "@ + f,
        Option::None => base,
    }
}

impl Clone for RouteInfo {
    fn clone(&self) -> (r: Self)
        ensures
            r == *self,
    {
        RouteInfo { port: self.port, front_name: clone_opt_string(&self.front_name) }
    }
}

impl RouteInfo {
    /// The log-safe description of the route used for a connection.
    pub open spec fn spec_description(self) -> Seq<char> {
        spec_describe(self.port, match self.front_name {
            Option::Some(f) => Option::Some(f@),
            Option::None => Option::None,
        })
    }

    /// Builds the log-safe summary of a route.
    pub fn of_route(route: &WsRoute) -> (r: RouteInfo)
        ensures
            r.port == route.transport.target.port,
            r.front_name == route.http.front_name,
    {
        RouteInfo {
            port: route.transport.target.port,
            front_name: clone_opt_string(&route.http.front_name),
        }
    }

    /// Renders the log-safe description: the target is redacted, the port
    /// and any fronting proxy name are kept.
    pub fn description(&self) -> (r: String)
        ensures
            r@ == self.spec_description(),
    {
        let mut r = String::new();
        r.append("REDACTED:");
        let port_text = decimal_string(self.port as u64);
        r.append(port_text.as_str());
        match &self.front_name {
            Option::Some(f) => {
                r.append(" fronted by ");
                r.append(f.as_str());
            },
            Option::None => {},
        }
        proof {
            assert(r@ =~= self.spec_description());
        }
        r
    }
}

} // verus!
