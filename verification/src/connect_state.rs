//! Endpoint-agnostic state for establishing connections.
//!
//! One `ConnectState` holds what every connection attempt shares: the
//! timeouts, the outcome registry, and the cache of a recently
//! preconnected transport stream. A race reads a snapshot of the registry
//! and hands back a batch of outcome updates that is applied in one step
//! when the race concludes; a network-interface change wipes the
//! registry.

use vstd::prelude::*;

use crate::errors::{ChatConnectError, ConnectFailure};
use crate::outcome::{OutcomeParams, OutcomeRegistry};
use crate::racer::{RaceConclusion, RaceFailure, RouteRace, RaceStatus};
use crate::route::{same_transport, TransportRoute, WsRoute};

verus! {

/// Suggested outcome tuning: five-minute age cutoff, x10 growth factors,
/// five counted failures, 30-second delay ceiling.
pub fn suggested_connect_params() -> (r: OutcomeParams)
    ensures
        r == (OutcomeParams {
            age_cutoff_ms: 300000,
            cooldown_growth_permille: 10000,
            count_growth_permille: 10000,
            max_count: 5,
            max_delay_ms: 30000,
        }),
        r.wf(),
{
    OutcomeParams {
        age_cutoff_ms: 300000,
        cooldown_growth_permille: 10000,
        count_growth_permille: 10000,
        max_count: 5,
        max_delay_ms: 30000,
    }
}

/// Top-level connection configuration.
#[derive(Clone, Copy, Debug)]
pub struct Config {
    pub connect_params: OutcomeParams,
    /// The amount of time allowed for each connection attempt.
    pub connect_timeout_ms: u64,
    /// The budget for the whole connect, aggregating the per-attempt
    /// races and any post-network-change re-planning.
    pub whole_attempt_timeout_ms: u64,
    /// How often to check whether the network interface changed, absent
    /// other signals.
    pub network_interface_poll_interval_ms: u64,
    /// The amount of time allowed for a connection attempt right after a
    /// network change.
    pub post_route_change_connect_timeout_ms: u64,
}

/// Suggested configuration: 30-second per-attempt timeout aggregated
/// into a 60-second whole-attempt budget, one-second interface poll,
/// five-second post-change timeout.
pub fn suggested_connect_config() -> (r: Config)
    ensures
        r.connect_params == suggested_connect_params_spec(),
        r.connect_params.wf(),
        r.connect_timeout_ms == 30000,
        r.whole_attempt_timeout_ms == 60000,
        r.network_interface_poll_interval_ms == 1000,
        r.post_route_change_connect_timeout_ms == 5000,
{
    Config {
        connect_params: suggested_connect_params(),
        connect_timeout_ms: 30000,
        whole_attempt_timeout_ms: 60000,
        network_interface_poll_interval_ms: 1000,
        post_route_change_connect_timeout_ms: 5000,
    }
}

/// The suggested outcome tuning, as a spec value.
pub open spec fn suggested_connect_params_spec() -> OutcomeParams {
    OutcomeParams {
        age_cutoff_ms: 300000,
        cooldown_growth_permille: 10000,
        count_growth_permille: 10000,
        max_count: 5,
        max_delay_ms: 30000,
    }
}

/// Suggested lifetime for a cached preconnected stream that has already
/// done up to a TLS handshake.
pub const SUGGESTED_TLS_PRECONNECT_LIFETIME_MS: u64 = 1500;

/// A cached preconnected transport stream, stood for by an opaque token
/// the embedding application maps to the live stream.
#[derive(Debug)]
pub struct PreconnectEntry {
    pub route: TransportRoute,
    pub token: u64,
    pub saved_at_ms: u64,
}

/// Caches at most one successfully connected transport stream, keyed by
/// its route and good for a bounded lifetime.
#[derive(Debug)]
pub struct PreconnectCache {
    lifetime_ms: u64,
    entry: Option<PreconnectEntry>,
}

impl PreconnectCache {
    pub closed spec fn spec_lifetime_ms(self) -> u64 {
        self.lifetime_ms
    }

    pub closed spec fn spec_entry_route(self) -> Option<TransportRoute> {
        match self.entry {
            Option::Some(e) => Option::Some(e.route),
            Option::None => Option::None,
        }
    }

    pub closed spec fn spec_entry_token(self) -> Option<u64> {
        match self.entry {
            Option::Some(e) => Option::Some(e.token),
            Option::None => Option::None,
        }
    }

    pub closed spec fn spec_entry_saved_at(self) -> Option<u64> {
        match self.entry {
            Option::Some(e) => Option::Some(e.saved_at_ms),
            Option::None => Option::None,
        }
    }

    /// An empty cache with the given entry lifetime.
    pub fn new(lifetime_ms: u64) -> (r: PreconnectCache)
        ensures
            r.spec_lifetime_ms() == lifetime_ms,
            r.spec_entry_token() is None,
    {
        PreconnectCache { lifetime_ms, entry: Option::None }
    }

    /// Saves a freshly connected stream for `route`, replacing whatever
    /// was cached.
    pub fn save_preconnected(&mut self, route: TransportRoute, token: u64, at_ms: u64)
        ensures
            final(self).spec_lifetime_ms() == old(self).spec_lifetime_ms(),
            final(self).spec_entry_route() == Option::Some(route),
            final(self).spec_entry_token() == Option::Some(token),
            final(self).spec_entry_saved_at() == Option::Some(at_ms),
    {
        self.entry = Option::Some(PreconnectEntry { route, token, saved_at_ms: at_ms });
    }

    /// Whether a cached entry saved at `saved_at` is still usable at
    /// `now`.
    pub open spec fn spec_fresh(self, saved_at: u64, now_ms: u64) -> bool {
        now_ms >= saved_at && now_ms - saved_at < self.spec_lifetime_ms()
    }

    /// Takes the cached stream for `route` if one is cached for the same
    /// route and still within its lifetime; the entry is removed either
    /// way it is touched — a hit consumes it, an expired entry is dropped
    /// lazily. A cached entry for a different route stays.
    pub fn take_if_fresh(&mut self, route: &TransportRoute, now_ms: u64) -> (r: Option<u64>)
        ensures
            final(self).spec_lifetime_ms() == old(self).spec_lifetime_ms(),
            match old(self).spec_entry_route() {
                Option::Some(cached) => {
                    if same_transport(cached, *route) {
                        if old(self).spec_fresh(old(self).spec_entry_saved_at().unwrap(), now_ms) {
                            r == old(self).spec_entry_token() && final(self).spec_entry_token()
                                is None
                        } else {
                            r is None && final(self).spec_entry_token() is None
                        }
                    } else {
                        r is None && final(self).spec_entry_token() == old(self).spec_entry_token()
                            && final(self).spec_entry_route() == old(self).spec_entry_route()
                    }
                },
                Option::None => r is None && final(self).spec_entry_token() is None,
            },
    {
        let entry = self.entry.take();
        match entry {
            Option::None => Option::None,
            Option::Some(e) => {
                if e.route.transport_eq(route) {
                    if now_ms >= e.saved_at_ms && now_ms - e.saved_at_ms < self.lifetime_ms {
                        Option::Some(e.token)
                    } else {
                        Option::None
                    }
                } else {
                    self.entry = Option::Some(e);
                    Option::None
                }
            },
        }
    }
}

/// A counting semaphore that caps how many attempts run a guarded stage
/// at once; with a cap of one it serialises TLS handshakes.
#[derive(Clone, Copy, Debug)]
pub struct ThrottleState {
    cap: usize,
    in_use: usize,
}

impl ThrottleState {
    pub closed spec fn spec_cap(self) -> usize {
        self.cap
    }

    pub closed spec fn spec_in_use(self) -> usize {
        self.in_use
    }

    /// The cap is never exceeded.
    pub open spec fn wf(self) -> bool {
        self.spec_in_use() <= self.spec_cap()
    }

    /// A semaphore with `cap` slots, all free.
    pub fn new(cap: usize) -> (r: ThrottleState)
        ensures
            r.wf(),
            r.spec_cap() == cap,
            r.spec_in_use() == 0,
    {
        ThrottleState { cap, in_use: 0 }
    }

    /// Takes a slot when one is free: granted exactly when a slot was
    /// available.
    pub fn try_acquire(&mut self) -> (granted: bool)
        requires
            old(self).wf(),
        ensures
            final(self).wf(),
            final(self).spec_cap() == old(self).spec_cap(),
            granted == (old(self).spec_in_use() < old(self).spec_cap()),
            final(self).spec_in_use() == if granted {
                old(self).spec_in_use() + 1
            } else {
                old(self).spec_in_use() as int
            },
    {
        if self.in_use < self.cap {
            self.in_use = self.in_use + 1;
            true
        } else {
            false
        }
    }

    /// Returns a slot; every exit path of a guarded stage must do this.
    pub fn release(&mut self)
        requires
            old(self).wf(),
            old(self).spec_in_use() >= 1,
        ensures
            final(self).wf(),
            final(self).spec_cap() == old(self).spec_cap(),
            final(self).spec_in_use() == old(self).spec_in_use() - 1,
    {
        self.in_use = self.in_use - 1;
    }
}

/// A race result wrapped by the whole-attempt timer.
#[derive(Clone, Copy, Debug, PartialEq, Eq, Structural)]
pub enum TimeoutOrRace {
    /// The whole-attempt timer elapsed first.
    Timeout { attempt_duration_ms: u64 },
    /// The race concluded on its own.
    Other(RaceFailure),
}

/// Maps a failed, possibly timed-out race to the chat-level connect
/// error: a timeout stays a timeout, an exhausted or empty route set is
/// `AllAttemptsFailed`, and a fatal connect failure is surfaced as a
/// WebSocket-level error.
pub fn chat_connect_error_of_race(e: &TimeoutOrRace) -> (r: ChatConnectError)
    ensures
        r == spec_chat_connect_error_of_race(*e),
{
    match e {
        TimeoutOrRace::Timeout { .. } => ChatConnectError::Timeout,
        TimeoutOrRace::Other(RaceFailure::NoResolvedRoutes) => ChatConnectError::AllAttemptsFailed,
        TimeoutOrRace::Other(RaceFailure::AllAttemptsFailed) => ChatConnectError::AllAttemptsFailed,
        TimeoutOrRace::Other(RaceFailure::FatalConnect(f)) => ChatConnectError::WebSocket(*f),
    }
}

/// The mapping `chat_connect_error_of_race` computes.
pub open spec fn spec_chat_connect_error_of_race(e: TimeoutOrRace) -> ChatConnectError {
    match e {
        TimeoutOrRace::Timeout { .. } => ChatConnectError::Timeout,
        TimeoutOrRace::Other(RaceFailure::NoResolvedRoutes) => ChatConnectError::AllAttemptsFailed,
        TimeoutOrRace::Other(RaceFailure::AllAttemptsFailed) => ChatConnectError::AllAttemptsFailed,
        TimeoutOrRace::Other(RaceFailure::FatalConnect(f)) => ChatConnectError::WebSocket(f),
    }
}

/// How connecting an attested channel failed.
#[derive(Clone, Copy, Debug, PartialEq, Eq, Structural)]
pub enum AttestedConnectError {
    /// The attempt timed out, found no route, or exhausted every route.
    ConnectionTimedOut,
    /// A route failed with a fatal WebSocket-level error.
    WebSocketConnect(ConnectFailure),
}

/// Maps a failed, possibly timed-out race to the attested-channel error:
/// timeouts, empty route sets and exhausted races all surface as a
/// connection timeout; only a fatal connect failure keeps its identity.
pub fn attested_error_of_race(e: &TimeoutOrRace) -> (r: AttestedConnectError)
    ensures
        match *e {
            TimeoutOrRace::Timeout { .. } => r == AttestedConnectError::ConnectionTimedOut,
            TimeoutOrRace::Other(RaceFailure::NoResolvedRoutes) => r
                == AttestedConnectError::ConnectionTimedOut,
            TimeoutOrRace::Other(RaceFailure::AllAttemptsFailed) => r
                == AttestedConnectError::ConnectionTimedOut,
            TimeoutOrRace::Other(RaceFailure::FatalConnect(f)) => r
                == AttestedConnectError::WebSocketConnect(f),
        },
{
    match e {
        TimeoutOrRace::Timeout { .. } => AttestedConnectError::ConnectionTimedOut,
        TimeoutOrRace::Other(RaceFailure::NoResolvedRoutes) => AttestedConnectError::ConnectionTimedOut,
        TimeoutOrRace::Other(RaceFailure::AllAttemptsFailed) => AttestedConnectError::ConnectionTimedOut,
        TimeoutOrRace::Other(RaceFailure::FatalConnect(f)) => AttestedConnectError::WebSocketConnect(
            *f,
        ),
    }
}

/// Endpoint-agnostic state shared by all connection attempts.
pub struct ConnectState {
    connect_timeout_ms: u64,
    whole_attempt_timeout_ms: u64,
    network_interface_poll_interval_ms: u64,
    post_route_change_connect_timeout_ms: u64,
    attempts_record: OutcomeRegistry,
    preconnect: PreconnectCache,
}

impl ConnectState {
    pub closed spec fn spec_registry(self) -> OutcomeRegistry {
        self.attempts_record
    }

    pub closed spec fn spec_preconnect(self) -> PreconnectCache {
        self.preconnect
    }

    /// The amount of time allowed for each connection attempt.
    pub closed spec fn spec_connect_timeout_ms(self) -> u64 {
        self.connect_timeout_ms
    }

    /// How often to check whether the network interface changed.
    pub closed spec fn spec_poll_interval_ms(self) -> u64 {
        self.network_interface_poll_interval_ms
    }

    /// The attempt timeout right after a network change.
    pub closed spec fn spec_post_change_timeout_ms(self) -> u64 {
        self.post_route_change_connect_timeout_ms
    }

    /// The whole-attempt budget.
    pub closed spec fn spec_whole_attempt_timeout_ms(self) -> u64 {
        self.whole_attempt_timeout_ms
    }

    /// The per-attempt timeout.
    pub fn connect_timeout_ms(&self) -> (r: u64)
        ensures
            r == self.spec_connect_timeout_ms(),
    {
        self.connect_timeout_ms
    }

    /// The whole-attempt budget.
    pub fn whole_attempt_timeout_ms(&self) -> (r: u64)
        ensures
            r == self.spec_whole_attempt_timeout_ms(),
    {
        self.whole_attempt_timeout_ms
    }

    /// The interface poll interval.
    pub fn network_interface_poll_interval_ms(&self) -> (r: u64)
        ensures
            r == self.spec_poll_interval_ms(),
    {
        self.network_interface_poll_interval_ms
    }

    /// The post-network-change attempt timeout.
    pub fn post_route_change_connect_timeout_ms(&self) -> (r: u64)
        ensures
            r == self.spec_post_change_timeout_ms(),
    {
        self.post_route_change_connect_timeout_ms
    }

    pub open spec fn wf(self) -> bool {
        self.spec_registry().wf()
    }

    /// Builds the shared state from a configuration; the registry starts
    /// empty and the preconnect cache uses the suggested TLS lifetime.
    pub fn new(config: Config) -> (r: ConnectState)
        requires
            config.connect_params.wf(),
        ensures
            r.wf(),
            r.spec_connect_timeout_ms() == config.connect_timeout_ms,
            r.spec_whole_attempt_timeout_ms() == config.whole_attempt_timeout_ms,
            r.spec_poll_interval_ms() == config.network_interface_poll_interval_ms,
            r.spec_post_change_timeout_ms() == config.post_route_change_connect_timeout_ms,
            r.spec_registry().spec_params() == config.connect_params,
            r.spec_registry().entries_seq().len() == 0,
            r.spec_preconnect().spec_entry_token() is None,
    {
        ConnectState {
            connect_timeout_ms: config.connect_timeout_ms,
            whole_attempt_timeout_ms: config.whole_attempt_timeout_ms,
            network_interface_poll_interval_ms: config.network_interface_poll_interval_ms,
            post_route_change_connect_timeout_ms: config.post_route_change_connect_timeout_ms,
            attempts_record: OutcomeRegistry::new(config.connect_params),
            preconnect: PreconnectCache::new(SUGGESTED_TLS_PRECONNECT_LIFETIME_MS),
        }
    }

    /// Forgets all outcome history: on a network-interface change every
    /// failure counter is zeroed.
    pub fn network_changed(&mut self, network_change_at_ms: u64)
        requires
            old(self).wf(),
        ensures
            final(self).wf(),
            forall|t: TransportRoute| final(self).spec_registry().spec_count_of(t) == 0,
            forall|t: TransportRoute|
                final(self).spec_registry().spec_delay_for(t, network_change_at_ms) == 0,
            final(self).spec_registry().spec_params() == old(self).spec_registry().spec_params(),
            final(self).spec_connect_timeout_ms() == old(self).spec_connect_timeout_ms(),
            final(self).spec_whole_attempt_timeout_ms() == old(
                self,
            ).spec_whole_attempt_timeout_ms(),
            final(self).spec_poll_interval_ms() == old(self).spec_poll_interval_ms(),
            final(self).spec_post_change_timeout_ms() == old(self).spec_post_change_timeout_ms(),
            final(self).spec_preconnect() == old(self).spec_preconnect(),
    {
        self.attempts_record.reset(network_change_at_ms);
    }

    /// Starts a race over the given routes against a read-only snapshot
    /// of the registry, scheduled at `now`.
    pub fn start_race(&self, routes: Vec<WsRoute>, now_ms: u64) -> (r: RouteRace)
        requires
            self.wf(),
        ensures
            r.wf(),
            r.routes_seq() == routes@,
            r.updates_seq().len() == 0,
            r.spec_status() == if routes@.len() == 0 {
                RaceStatus::Failed(RaceFailure::NoResolvedRoutes)
            } else {
                RaceStatus::Running
            },
            forall|i: int|
                0 <= i < routes@.len() ==> #[trigger] r.delays_seq()[i]
                    == self.spec_registry().spec_delay_for(routes@[i].transport, now_ms),
            forall|i: int|
                0 <= i < routes@.len() ==> #[trigger] r.starts_seq()[i]
                    == crate::racer::spec_sat_add(
                    crate::racer::spec_sat_add(now_ms, r.delays_seq()[i]),
                    crate::racer::spec_stagger(crate::racer::spec_rank(r.delays_seq(), i)),
                ),
            forall|i: int| 0 <= i < routes@.len() ==> #[trigger] r.states_seq()[i] is Pending,
            // No route starts before the policy delay the registry
            // prescribes for its transport.
            forall|i: int|
                0 <= i < routes@.len() ==> #[trigger] r.starts_seq()[i]
                    == crate::racer::spec_sat_add(
                    crate::racer::spec_sat_add(now_ms, r.delays_seq()[i]),
                    crate::racer::spec_stagger(crate::racer::spec_rank(r.delays_seq(), i)),
                ) >= crate::racer::spec_sat_add(
                    now_ms,
                    self.spec_registry().spec_delay_for(routes@[i].transport, now_ms),
                ),
            // The schedule respects the learned delays: a route with a
            // smaller policy delay (ties broken by enumeration order)
            // starts no later.
            forall|i: int, j: int|
                0 <= i < routes@.len() && 0 <= j < routes@.len() && crate::racer::key_lt(
                    r.delays_seq()[i],
                    i,
                    r.delays_seq()[j],
                    j,
                ) ==> #[trigger] r.starts_seq()[i] <= #[trigger] r.starts_seq()[j],
    {
        let snapshot = self.attempts_record.duplicate();
        proof {
            assert forall|t: TransportRoute| snapshot.spec_delay_for(t, now_ms)
                == self.spec_registry().spec_delay_for(t, now_ms) by {
                lemma_snapshot_lookup_agrees(snapshot, self.spec_registry(), t);
            }
        }
        RouteRace::new(routes, &snapshot, now_ms)
    }

    /// Applies a concluded race's outcome updates to the registry, in one
    /// batch under the writer's hands.
    pub fn apply_race_conclusion(&mut self, conclusion: &RaceConclusion)
        requires
            old(self).wf(),
        ensures
            final(self).wf(),
            final(self).spec_connect_timeout_ms() == old(self).spec_connect_timeout_ms(),
            final(self).spec_whole_attempt_timeout_ms() == old(
                self,
            ).spec_whole_attempt_timeout_ms(),
            final(self).spec_poll_interval_ms() == old(self).spec_poll_interval_ms(),
            final(self).spec_post_change_timeout_ms() == old(self).spec_post_change_timeout_ms(),
            final(self).spec_preconnect() == old(self).spec_preconnect(),
            final(self).spec_registry().spec_params() == old(self).spec_registry().spec_params(),
            // The race's batch is merged into the registry: every
            // transport afterwards holds the fold of the conclusion's
            // outcomes over its old record.
            forall|t: TransportRoute|
                final(self).spec_registry().spec_lookup(t) == crate::outcome::spec_fold_updates(
                    old(self).spec_registry().spec_params(),
                    old(self).spec_registry().spec_lookup(t),
                    conclusion.updates@,
                    t,
                    conclusion.finished_at_ms,
                ),
    {
        self.attempts_record.apply_outcome_updates(&conclusion.updates, conclusion.finished_at_ms);
    }

    /// Saves a preconnected stream for later reuse.
    pub fn save_preconnected(&mut self, route: TransportRoute, token: u64, at_ms: u64)
        requires
            old(self).wf(),
        ensures
            final(self).wf(),
            final(self).spec_preconnect().spec_entry_token() == Option::Some(token),
            final(self).spec_preconnect().spec_entry_route() == Option::Some(route),
            final(self).spec_preconnect().spec_entry_saved_at() == Option::Some(at_ms),
            final(self).spec_preconnect().spec_lifetime_ms() == old(
                self,
            ).spec_preconnect().spec_lifetime_ms(),
            final(self).spec_registry() == old(self).spec_registry(),
            final(self).spec_connect_timeout_ms() == old(self).spec_connect_timeout_ms(),
            final(self).spec_whole_attempt_timeout_ms() == old(
                self,
            ).spec_whole_attempt_timeout_ms(),
            final(self).spec_poll_interval_ms() == old(self).spec_poll_interval_ms(),
            final(self).spec_post_change_timeout_ms() == old(self).spec_post_change_timeout_ms(),
    {
        self.preconnect.save_preconnected(route, token, at_ms);
    }

    /// Takes the cached preconnected stream for `route` when it is still
    /// fresh.
    pub fn take_preconnected(&mut self, route: &TransportRoute, now_ms: u64) -> (r: Option<u64>)
        requires
            old(self).wf(),
        ensures
            final(self).wf(),
            final(self).spec_registry() == old(self).spec_registry(),
            final(self).spec_connect_timeout_ms() == old(self).spec_connect_timeout_ms(),
            final(self).spec_whole_attempt_timeout_ms() == old(
                self,
            ).spec_whole_attempt_timeout_ms(),
            final(self).spec_poll_interval_ms() == old(self).spec_poll_interval_ms(),
            final(self).spec_post_change_timeout_ms() == old(self).spec_post_change_timeout_ms(),
            final(self).spec_preconnect().spec_lifetime_ms() == old(
                self,
            ).spec_preconnect().spec_lifetime_ms(),
            // The cache hit is owed: a same-transport entry still within
            // its lifetime is yielded and consumed; an expired or foreign
            // touch behaves as the cache states.
            ({
                let before = old(self).spec_preconnect();
                let after = final(self).spec_preconnect();
                match before.spec_entry_route() {
                    Option::Some(cached) => {
                        if same_transport(cached, *route) {
                            if before.spec_fresh(before.spec_entry_saved_at().unwrap(), now_ms) {
                                r == before.spec_entry_token() && after.spec_entry_token() is None
                            } else {
                                r is None && after.spec_entry_token() is None
                            }
                        } else {
                            r is None && after.spec_entry_token() == before.spec_entry_token()
                                && after.spec_entry_route() == before.spec_entry_route()
                        }
                    },
                    Option::None => r is None && after.spec_entry_token() is None,
                }
            }),
    {
        self.preconnect.take_if_fresh(route, now_ms)
    }

    /// Read access to the outcome registry.
    pub fn registry(&self) -> (r: &OutcomeRegistry)
        ensures
            r == self.spec_registry(),
    {
        &self.attempts_record
    }
}

} // verus!

verus! {

/// Registries with equal parameters and entries agree on every lookup
/// and delay.
proof fn lemma_snapshot_lookup_agrees(
    a: OutcomeRegistry,
    b: OutcomeRegistry,
    t: TransportRoute,
)
    requires
        a.spec_params() == b.spec_params(),
        a.entries_seq() == b.entries_seq(),
    ensures
        a.spec_lookup(t) == b.spec_lookup(t),
        forall|now: u64| a.spec_delay_for(t, now) == b.spec_delay_for(t, now),
{
    assert(a.spec_has(t) == b.spec_has(t));
    if a.spec_has(t) {
        assert(a.spec_index_of(t) == b.spec_index_of(t));
    }
}

} // verus!
