//! The error taxonomy, stable across bindings.
//!
//! Transport-level intermittent errors are swallowed by the route racer and
//! recorded as outcomes; fatal connect errors bubble up. Each failure path
//! yields a single enumerated kind.

use vstd::prelude::*;

verus! {

/// A failure of the transport leg of a connection attempt.
#[derive(Clone, Copy, Debug, PartialEq, Eq, Structural)]
pub enum TransportError {
    /// The TCP connection could not be established.
    TcpConnectionFailed,
    /// The TLS handshake failed.
    TlsHandshakeFailed,
    /// The attempt was cancelled on purpose by this client, for example
    /// after a network-interface change; not an external failure.
    ClientAbort,
}

/// A failure to establish a WebSocket-framed connection over one route.
#[derive(Clone, Copy, Debug, PartialEq, Eq, Structural)]
pub enum ConnectFailure {
    /// The transport below the WebSocket failed before the HTTP upgrade.
    Transport(TransportError),
    /// The WebSocket upgrade or protocol handshake failed.
    WebSocketProtocol,
    /// The server answered the upgrade with a rejection status; a
    /// retry-after hint in seconds may accompany it.
    RejectedByServer { status: u16, retry_after_s: Option<u64> },
}

/// How the race treats a failed attempt.
#[derive(Clone, Copy, Debug, PartialEq, Eq, Structural)]
pub enum ErrorClass {
    /// Record a failure outcome for the transport and continue with the
    /// next scheduled route.
    Intermittent,
    /// Cancel in-flight attempts and surface the error.
    Fatal(ConnectFailure),
    /// Like `Intermittent`, but future attempts on the same transport must
    /// not start for this many seconds.
    RetryAt { delay_s: u64 },
}

/// Classifies a connect failure the way the chat service treats it: normal
/// transport and protocol errors are intermittent, a deliberate client
/// abort is fatal, and a server rejection is fatal unless it carries a
/// retry-after hint.
pub fn classify_failure(f: &ConnectFailure) -> (r: ErrorClass)
    ensures
        r == spec_classify(*f),
        *f == ConnectFailure::Transport(TransportError::ClientAbort) ==> r == ErrorClass::Fatal(
            *f,
        ),
{
    match f {
        ConnectFailure::Transport(TransportError::ClientAbort) => ErrorClass::Fatal(*f),
        ConnectFailure::Transport(_) => ErrorClass::Intermittent,
        ConnectFailure::WebSocketProtocol => ErrorClass::Intermittent,
        ConnectFailure::RejectedByServer { status: _, retry_after_s } => match retry_after_s {
            Option::Some(s) => ErrorClass::RetryAt { delay_s: *s },
            Option::None => ErrorClass::Fatal(*f),
        },
    }
}

/// The classification `classify_failure` computes.
pub open spec fn spec_classify(f: ConnectFailure) -> ErrorClass {
    match f {
        ConnectFailure::Transport(TransportError::ClientAbort) => ErrorClass::Fatal(f),
        ConnectFailure::Transport(_) => ErrorClass::Intermittent,
        ConnectFailure::WebSocketProtocol => ErrorClass::Intermittent,
        ConnectFailure::RejectedByServer { status: _, retry_after_s } => match retry_after_s {
            Option::Some(s) => ErrorClass::RetryAt { delay_s: s },
            Option::None => ErrorClass::Fatal(f),
        },
    }
}

/// Why a whole chat connect attempt failed.
#[derive(Clone, Copy, Debug, PartialEq, Eq, Structural)]
pub enum ChatConnectError {
    /// Transport error before the HTTP upgrade; retryable.
    WebSocket(ConnectFailure),
    /// The server signalled that this client version is sunset.
    AppExpired,
    /// The server signalled that this device was revoked.
    DeviceDeregistered,
    /// The whole-attempt timer elapsed.
    Timeout,
    /// The racer exhausted all routes.
    AllAttemptsFailed,
    /// Misconfigured at the call site.
    InvalidConnectionConfiguration,
    /// The server asks for a delay, in seconds, before the next attempt.
    RetryLater { retry_after_s: u64 },
}

/// Why sending one request on an established chat connection failed.
#[derive(Clone, Copy, Debug, PartialEq, Eq, Structural)]
pub enum SendError {
    /// The per-request timer elapsed.
    RequestTimedOut,
    /// The chat socket dropped mid-request.
    Disconnected,
    /// An I/O error on the underlying WebSocket.
    WebSocket,
    /// Malformed incoming frame or response ID mismatch.
    IncomingDataInvalid,
    /// The request carried a header the wire format cannot represent.
    RequestHasInvalidHeader,
}

} // verus!
