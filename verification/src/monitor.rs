//! Interface-change monitoring around in-flight connection attempts.
//!
//! When the host's active network interface changes, in-flight attempts are
//! cancelled with a distinguished `ClientAbort`. The cancellation is fatal
//! at the route level — it is never a user-visible success — and the outer
//! orchestrator re-plans with a fresh, shorter timeout.

use vstd::prelude::*;

use crate::errors::{classify_failure, spec_classify, ConnectFailure, ErrorClass, TransportError};

verus! {

/// What a monitored connection attempt produced: either the interface
/// changed underneath it, or the attempt itself concluded.
#[derive(Clone, Copy, Debug, PartialEq, Eq, Structural)]
pub enum InterfaceChangedOr {
    /// The active network interface changed; the attempt was cancelled.
    InterfaceChanged,
    /// The attempt concluded with this failure of its own.
    Other(ConnectFailure),
}

/// Turns a monitored failure into the connect failure the race sees: a
/// cancellation after an interface change becomes the distinguished
/// `ClientAbort`, any other failure passes through.
pub fn resolve_monitored_failure(e: &InterfaceChangedOr) -> (r: ConnectFailure)
    ensures
        r == spec_resolve_monitored(*e),
{
    match e {
        InterfaceChangedOr::InterfaceChanged => ConnectFailure::Transport(
            TransportError::ClientAbort,
        ),
        InterfaceChangedOr::Other(f) => *f,
    }
}

/// The failure `resolve_monitored_failure` produces.
pub open spec fn spec_resolve_monitored(e: InterfaceChangedOr) -> ConnectFailure {
    match e {
        InterfaceChangedOr::InterfaceChanged => ConnectFailure::Transport(
            TransportError::ClientAbort,
        ),
        InterfaceChangedOr::Other(f) => f,
    }
}

/// A network-change cancellation is never classified as anything but a
/// fatal error: it can never be mistaken for a successful attempt, nor
/// even for a retryable one.
pub proof fn lemma_interface_change_is_fatal()
    ensures
        spec_classify(spec_resolve_monitored(InterfaceChangedOr::InterfaceChanged))
            == ErrorClass::Fatal(ConnectFailure::Transport(TransportError::ClientAbort)),
{
}

/// Classifies what a monitored attempt produced, in one step.
pub fn classify_monitored_failure(e: &InterfaceChangedOr) -> (r: ErrorClass)
    ensures
        r == spec_classify(spec_resolve_monitored(*e)),
        *e == InterfaceChangedOr::InterfaceChanged ==> r == ErrorClass::Fatal(
            ConnectFailure::Transport(TransportError::ClientAbort),
        ),
{
    let f = resolve_monitored_failure(e);
    classify_failure(&f)
}

/// A periodic probe of the local interface fingerprint: the attempt sampled
/// `at_start` when it began and `current` now; a difference means the
/// interface changed while the attempt ran.
pub fn fingerprint_changed(at_start: u64, current: u64) -> (r: bool)
    ensures
        r == (at_start != current),
{
    at_start != current
}

} // verus!
