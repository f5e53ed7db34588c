//! The route racing engine.
//!
//! Given a finite list of candidate routes, the racer schedules one attempt
//! per route: each route's start time is its policy delay (from the outcome
//! registry) plus a stagger that grows with the route's rank in the
//! schedule, so that attempts overlap without starting all at once. Ties in
//! the schedule are broken by the original enumeration order. The racer is
//! driven by events — resolution results, per-address successes and
//! failures — and concludes with the first success or a classified terminal
//! error, together with the batch of per-transport outcome updates to merge
//! into the registry.
//!
//! The racer itself is a deterministic state machine; the embedding
//! application performs the DNS lookups and connect attempts and reports
//! their outcomes.

use vstd::prelude::*;

use crate::errors::ConnectFailure;
use crate::outcome::OutcomeRegistry;
use crate::route::{same_transport, RouteInfo, TransportRoute, WsRoute};

verus! {

/// The stagger between the first and the second scheduled route start.
pub const ROUTE_STAGGER_BASE_MS: u64 = 500;

/// The stagger step never grows beyond this.
pub const ROUTE_STAGGER_STEP_CAP_MS: u64 = 60000;

/// `a + b`, saturating at the largest representable instant.
pub open spec fn spec_sat_add(a: u64, b: u64) -> u64 {
    if a + b > u64::MAX {
        u64::MAX
    } else {
        (a + b) as u64
    }
}

/// Saturating addition of millisecond instants and durations.
pub fn sat_add(a: u64, b: u64) -> (r: u64)
    ensures
        r == spec_sat_add(a, b),
{
    if a > u64::MAX - b {
        u64::MAX
    } else {
        a + b
    }
}

/// `s` seconds as milliseconds, saturating.
pub open spec fn spec_secs_to_ms(s: u64) -> u64 {
    if s * 1000 > u64::MAX {
        u64::MAX
    } else {
        (s * 1000) as u64
    }
}

/// Converts a seconds hint to the millisecond clock, saturating.
pub fn secs_to_ms(s: u64) -> (r: u64)
    ensures
        r == spec_secs_to_ms(s),
{
    if s > u64::MAX / 1000 {
        proof {
            assert(s * 1000 > u64::MAX) by (nonlinear_arith)
                requires
                    s > u64::MAX / 1000,
            ;
        }
        u64::MAX
    } else {
        proof {
            assert(s * 1000 <= u64::MAX) by (nonlinear_arith)
                requires
                    s <= u64::MAX / 1000,
            ;
        }
        s * 1000
    }
}

/// The gap between the `k`-th and the `k+1`-th scheduled start: it begins
/// at the base stagger and doubles per rank, up to a cap.
pub open spec fn spec_stagger_step(k: nat) -> u64
    decreases k,
{
    if k == 0 {
        ROUTE_STAGGER_BASE_MS
    } else {
        let prev = spec_stagger_step((k - 1) as nat);
        if prev * 2 > ROUTE_STAGGER_STEP_CAP_MS {
            ROUTE_STAGGER_STEP_CAP_MS
        } else {
            (prev * 2) as u64
        }
    }
}

/// The total stagger before the `k`-th scheduled route start: 0 for the
/// first, then the accumulated doubling gaps.
pub open spec fn spec_stagger(k: nat) -> u64
    decreases k,
{
    if k == 0 {
        0
    } else {
        spec_sat_add(spec_stagger((k - 1) as nat), spec_stagger_step((k - 1) as nat))
    }
}

proof fn lemma_stagger_step_bounded(k: nat)
    ensures
        spec_stagger_step(k) <= ROUTE_STAGGER_STEP_CAP_MS,
    decreases k,
{
    if k > 0 {
        lemma_stagger_step_bounded((k - 1) as nat);
    }
}

/// The stagger grows with the rank.
pub proof fn lemma_stagger_monotone(k1: nat, k2: nat)
    requires
        k1 <= k2,
    ensures
        spec_stagger(k1) <= spec_stagger(k2),
    decreases k2,
{
    if k1 < k2 {
        lemma_stagger_monotone(k1, (k2 - 1) as nat);
    }
}

/// Computes the total stagger for rank `k`.
fn stagger_for_rank(k: usize) -> (r: u64)
    ensures
        r == spec_stagger(k as nat),
{
    let mut acc: u64 = 0;
    let mut step: u64 = ROUTE_STAGGER_BASE_MS;
    let mut j: usize = 0;
    while j < k
        invariant
            j <= k,
            acc == spec_stagger(j as nat),
            step == spec_stagger_step(j as nat),
        decreases k - j,
    {
        proof {
            lemma_stagger_step_bounded(j as nat);
        }
        acc = sat_add(acc, step);
        step = if step * 2 > ROUTE_STAGGER_STEP_CAP_MS {
            ROUTE_STAGGER_STEP_CAP_MS
        } else {
            step * 2
        };
        j = j + 1;
    }
    acc
}

/// Strict order on schedule keys: a route with the smaller policy delay is
/// scheduled first; ties are broken by the original enumeration order.
pub open spec fn key_lt(d1: u64, i1: int, d2: u64, i2: int) -> bool {
    d1 < d2 || (d1 == d2 && i1 < i2)
}

/// How many routes are scheduled strictly before route `i`, looking at the
/// first `m` routes.
pub open spec fn spec_rank_upto(delays: Seq<u64>, i: int, m: int) -> nat
    decreases m,
{
    if m <= 0 {
        0
    } else {
        spec_rank_upto(delays, i, m - 1) + (if key_lt(delays[m - 1], m - 1, delays[i], i) {
            1nat
        } else {
            0nat
        })
    }
}

/// The rank of route `i` in the schedule: the number of routes scheduled
/// strictly before it.
pub open spec fn spec_rank(delays: Seq<u64>, i: int) -> nat {
    spec_rank_upto(delays, i, delays.len() as int)
}

proof fn lemma_rank_upto_monotone(delays: Seq<u64>, i: int, j: int, m: int)
    requires
        0 <= i < delays.len(),
        0 <= j < delays.len(),
        key_lt(delays[i], i, delays[j], j),
        0 <= m <= delays.len(),
    ensures
        spec_rank_upto(delays, i, m) + (if i < m {
            1nat
        } else {
            0nat
        }) <= spec_rank_upto(delays, j, m),
    decreases m,
{
    if m > 0 {
        lemma_rank_upto_monotone(delays, i, j, m - 1);
    }
}

/// A route scheduled strictly before another has the strictly smaller
/// rank.
pub proof fn lemma_rank_respects_keys(delays: Seq<u64>, i: int, j: int)
    requires
        0 <= i < delays.len(),
        0 <= j < delays.len(),
        key_lt(delays[i], i, delays[j], j),
    ensures
        spec_rank(delays, i) < spec_rank(delays, j),
{
    lemma_rank_upto_monotone(delays, i, j, delays.len() as int);
}

/// Counts the routes scheduled strictly before route `i`.
fn rank_of(delays: &Vec<u64>, i: usize) -> (r: usize)
    requires
        i < delays@.len(),
    ensures
        r == spec_rank(delays@, i as int),
{
    let n = delays.len();
    let mut count: usize = 0;
    let mut m: usize = 0;
    while m < n
        invariant
            i < n,
            n == delays@.len(),
            m <= n,
            count == spec_rank_upto(delays@, i as int, m as int),
            count <= m,
        decreases n - m,
    {
        let before = delays[m] < delays[i] || (delays[m] == delays[i] && m < i);
        if before {
            count = count + 1;
        }
        m = m + 1;
    }
    count
}

/// Progress of the attempt for one route.
#[derive(Clone, Copy, Debug, PartialEq, Eq, Structural)]
pub enum AttemptState {
    /// Not launched yet; waits for its scheduled start.
    Pending,
    /// Launched; the host name is being resolved.
    Resolving,
    /// Resolved to this many addresses; that many sub-attempts are
    /// outstanding.
    Connecting(u32),
    /// Concluded, one way or the other.
    Done,
}

/// A terminal failure of a whole race.
#[derive(Clone, Copy, Debug, PartialEq, Eq, Structural)]
pub enum RaceFailure {
    /// The route sequence was empty after resolution.
    NoResolvedRoutes,
    /// Every route was tried and none connected.
    AllAttemptsFailed,
    /// An attempt failed with an error classified as fatal.
    FatalConnect(ConnectFailure),
}

/// Where a race stands.
#[derive(Clone, Copy, Debug, PartialEq, Eq, Structural)]
pub enum RaceStatus {
    /// Attempts may still be launched or concluded.
    Running,
    /// The route with this index connected; all other attempts are
    /// cancelled.
    Connected(usize),
    /// The race concluded without a connection.
    Failed(RaceFailure),
}

/// The race state machine over a materialised route list.
pub struct RouteRace {
    routes: Vec<WsRoute>,
    delays_ms: Vec<u64>,
    starts_ms: Vec<u64>,
    states: Vec<AttemptState>,
    status: RaceStatus,
    updates: Vec<(usize, bool)>,
}

impl RouteRace {
    pub closed spec fn routes_seq(self) -> Seq<WsRoute> {
        self.routes@
    }

    pub closed spec fn delays_seq(self) -> Seq<u64> {
        self.delays_ms@
    }

    pub closed spec fn starts_seq(self) -> Seq<u64> {
        self.starts_ms@
    }

    pub closed spec fn states_seq(self) -> Seq<AttemptState> {
        self.states@
    }

    pub closed spec fn spec_status(self) -> RaceStatus {
        self.status
    }

    pub closed spec fn updates_seq(self) -> Seq<(usize, bool)> {
        self.updates@
    }

    /// Internal consistency of the race state.
    pub open spec fn wf(self) -> bool {
        let n = self.routes_seq().len();
        &&& self.delays_seq().len() == n
        &&& self.starts_seq().len() == n
        &&& self.states_seq().len() == n
        &&& match self.spec_status() {
            RaceStatus::Connected(i) => i < n,
            _ => true,
        }
        &&& forall|k: int|
            0 <= k < self.updates_seq().len() ==> (#[trigger] self.updates_seq()[k]).0 < n
        &&& forall|k: int|
            0 <= k < self.updates_seq().len() ==> self.states_seq()[(
            #[trigger] self.updates_seq()[k]).0 as int] is Done
        &&& forall|a: int, b: int|
            0 <= a < b < self.updates_seq().len() ==> (#[trigger] self.updates_seq()[a]).0 != (
            #[trigger] self.updates_seq()[b]).0
        &&& forall|k: int|
            0 <= k < self.updates_seq().len() && (#[trigger] self.updates_seq()[k]).1
                ==> self.spec_status() == RaceStatus::Connected(self.updates_seq()[k].0)
        &&& forall|i: int|
            0 <= i < n ==> match #[trigger] self.states_seq()[i] {
                AttemptState::Connecting(r) => r >= 1,
                _ => true,
            }
    }

    /// Builds the race: materialises the routes, computes each route's
    /// policy delay from the outcome registry, and schedules each route's
    /// start at `now + delay + stagger(rank)` where the rank orders routes
    /// by (delay, enumeration index).
    ///
    /// With no routes at all the race concludes immediately with
    /// `NoResolvedRoutes`.
    pub fn new(routes: Vec<WsRoute>, registry: &OutcomeRegistry, now_ms: u64) -> (r: RouteRace)
        requires
            registry.wf(),
        ensures
            r.wf(),
            r.routes_seq() == routes@,
            r.updates_seq().len() == 0,
            r.spec_status() == if routes@.len() == 0 {
                RaceStatus::Failed(RaceFailure::NoResolvedRoutes)
            } else {
                RaceStatus::Running
            },
            forall|i: int|
                0 <= i < routes@.len() ==> #[trigger] r.delays_seq()[i]
                    == registry.spec_delay_for(routes@[i].transport, now_ms),
            forall|i: int|
                0 <= i < routes@.len() ==> #[trigger] r.starts_seq()[i] == spec_sat_add(
                    spec_sat_add(now_ms, r.delays_seq()[i]),
                    spec_stagger(spec_rank(r.delays_seq(), i)),
                ),
            forall|i: int| 0 <= i < routes@.len() ==> #[trigger] r.states_seq()[i] is Pending,
            // No route starts before the policy delay the registry prescribes.
            forall|i: int|
                0 <= i < routes@.len() ==> #[trigger] r.starts_seq()[i] >= spec_sat_add(
                    now_ms,
                    registry.spec_delay_for(routes@[i].transport, now_ms),
                ),
            // The schedule respects the learned delays: a route with a
            // smaller policy delay (ties broken by enumeration order)
            // starts no later.
            forall|i: int, j: int|
                0 <= i < routes@.len() && 0 <= j < routes@.len() && key_lt(
                    r.delays_seq()[i],
                    i,
                    r.delays_seq()[j],
                    j,
                ) ==> #[trigger] r.starts_seq()[i] <= #[trigger] r.starts_seq()[j],
    {
        let n = routes.len();
        let mut delays_ms: Vec<u64> = Vec::new();
        let mut i: usize = 0;
        while i < n
            invariant
                registry.wf(),
                n == routes@.len(),
                i <= n,
                delays_ms@.len() == i,
                forall|k: int|
                    0 <= k < i ==> #[trigger] delays_ms@[k] == registry.spec_delay_for(
                        routes@[k].transport,
                        now_ms,
                    ),
            decreases n - i,
        {
            let d = registry.compute_delay_for(&routes[i].transport, now_ms);
            delays_ms.push(d);
            i = i + 1;
        }

        let mut starts_ms: Vec<u64> = Vec::new();
        let mut states: Vec<AttemptState> = Vec::new();
        let mut i: usize = 0;
        while i < n
            invariant
                n == routes@.len(),
                delays_ms@.len() == n,
                i <= n,
                starts_ms@.len() == i,
                states@.len() == i,
                forall|k: int|
                    0 <= k < i ==> #[trigger] starts_ms@[k] == spec_sat_add(
                        spec_sat_add(now_ms, delays_ms@[k]),
                        spec_stagger(spec_rank(delays_ms@, k)),
                    ),
                forall|k: int| 0 <= k < i ==> #[trigger] states@[k] is Pending,
            decreases n - i,
        {
            let rk = rank_of(&delays_ms, i);
            let st = stagger_for_rank(rk);
            starts_ms.push(sat_add(sat_add(now_ms, delays_ms[i]), st));
            states.push(AttemptState::Pending);
            i = i + 1;
        }

        let status = if n == 0 {
            RaceStatus::Failed(RaceFailure::NoResolvedRoutes)
        } else {
            RaceStatus::Running
        };
        let r = RouteRace { routes, delays_ms, starts_ms, states, status, updates: Vec::new() };
        proof {
            assert forall|i: int, j: int|
                0 <= i < r.routes_seq().len() && 0 <= j < r.routes_seq().len() && key_lt(
                    r.delays_seq()[i],
                    i,
                    r.delays_seq()[j],
                    j,
                ) implies #[trigger] r.starts_seq()[i] <= #[trigger] r.starts_seq()[j] by {
                lemma_rank_respects_keys(r.delays_seq(), i, j);
                lemma_stagger_monotone(spec_rank(r.delays_seq(), i), spec_rank(r.delays_seq(), j));
            }
        }
        r
    }

    /// The current status.
    pub fn status(&self) -> (r: RaceStatus)
        ensures
            r == self.spec_status(),
    {
        self.status
    }

    /// The route due to launch now, if any: among the pending routes whose
    /// scheduled start has arrived, the one scheduled first, with ties
    /// broken by enumeration order.
    pub fn next_ready(&self, now_ms: u64) -> (r: Option<usize>)
        requires
            self.wf(),
        ensures
            match r {
                Option::Some(i) => {
                    &&& i < self.routes_seq().len()
                    &&& self.states_seq()[i as int] is Pending
                    &&& self.starts_seq()[i as int] <= now_ms
                    &&& forall|j: int|
                        0 <= j < self.routes_seq().len() && #[trigger] self.states_seq()[j]
                            is Pending && j != i ==> key_lt(
                            self.starts_seq()[i as int],
                            i as int,
                            self.starts_seq()[j],
                            j,
                        )
                },
                Option::None => forall|j: int|
                    0 <= j < self.routes_seq().len() && #[trigger] self.states_seq()[j] is Pending
                        ==> self.starts_seq()[j] > now_ms,
            },
    {
        let n = self.routes.len();
        let mut best: Option<usize> = Option::None;
        let mut j: usize = 0;
        while j < n
            invariant
                self.wf(),
                n == self.routes_seq().len(),
                j <= n,
                match best {
                    Option::Some(b) => {
                        &&& b < j
                        &&& self.states_seq()[b as int] is Pending
                        &&& forall|k: int|
                            0 <= k < j && #[trigger] self.states_seq()[k] is Pending && k != b
                                ==> key_lt(
                                self.starts_seq()[b as int],
                                b as int,
                                self.starts_seq()[k],
                                k,
                            )
                    },
                    Option::None => forall|k: int|
                        0 <= k < j ==> !(#[trigger] self.states_seq()[k] is Pending),
                },
            decreases n - j,
        {
            let pending = match self.states[j] {
                AttemptState::Pending => true,
                _ => false,
            };
            if pending {
                best = match best {
                    Option::Some(b) => {
                        if self.starts_ms[j] < self.starts_ms[b] {
                            Option::Some(j)
                        } else {
                            Option::Some(b)
                        }
                    },
                    Option::None => Option::Some(j),
                };
            }
            j = j + 1;
        }
        match best {
            Option::Some(b) => {
                if self.starts_ms[b] <= now_ms {
                    Option::Some(b)
                } else {
                    Option::None
                }
            },
            Option::None => Option::None,
        }
    }

    /// The earliest scheduled start among the pending routes, if any.
    pub fn next_start_time(&self) -> (r: Option<u64>)
        requires
            self.wf(),
        ensures
            match r {
                Option::Some(t) => {
                    &&& exists|j: int|
                        0 <= j < self.routes_seq().len() && #[trigger] self.states_seq()[j]
                            is Pending && self.starts_seq()[j] == t
                    &&& forall|j: int|
                        0 <= j < self.routes_seq().len() && #[trigger] self.states_seq()[j]
                            is Pending ==> self.starts_seq()[j] >= t
                },
                Option::None => forall|j: int|
                    0 <= j < self.routes_seq().len() ==> !(#[trigger] self.states_seq()[j]
                        is Pending),
            },
    {
        let n = self.routes.len();
        let mut best: Option<u64> = Option::None;
        let mut j: usize = 0;
        while j < n
            invariant
                self.wf(),
                n == self.routes_seq().len(),
                j <= n,
                match best {
                    Option::Some(t) => {
                        &&& exists|k: int|
                            0 <= k < j && #[trigger] self.states_seq()[k] is Pending
                                && self.starts_seq()[k] == t
                        &&& forall|k: int|
                            0 <= k < j && #[trigger] self.states_seq()[k] is Pending
                                ==> self.starts_seq()[k] >= t
                    },
                    Option::None => forall|k: int|
                        0 <= k < j ==> !(#[trigger] self.states_seq()[k] is Pending),
                },
            decreases n - j,
        {
            let pending = match self.states[j] {
                AttemptState::Pending => true,
                _ => false,
            };
            if pending {
                best = match best {
                    Option::Some(t) => {
                        if self.starts_ms[j] < t {
                            Option::Some(self.starts_ms[j])
                        } else {
                            Option::Some(t)
                        }
                    },
                    Option::None => Option::Some(self.starts_ms[j]),
                };
            }
            j = j + 1;
        }
        best
    }

    /// Launches the attempt for route `i`: its scheduled start has arrived
    /// and host-name resolution begins.
    pub fn launch(&mut self, i: usize, now_ms: u64)
        requires
            old(self).wf(),
            old(self).spec_status() is Running,
            i < old(self).routes_seq().len(),
            old(self).states_seq()[i as int] is Pending,
            old(self).starts_seq()[i as int] <= now_ms,
        ensures
            final(self).wf(),
            final(self).routes_seq() == old(self).routes_seq(),
            final(self).delays_seq() == old(self).delays_seq(),
            final(self).starts_seq() == old(self).starts_seq(),
            final(self).spec_status() == old(self).spec_status(),
            final(self).updates_seq() == old(self).updates_seq(),
            final(self).states_seq() == old(self).states_seq().update(
                i as int,
                AttemptState::Resolving,
            ),
    {
        self.states.set(i, AttemptState::Resolving);
    }

    /// Reports the resolution of route `i`'s host name to `n_addresses`
    /// addresses. Address fan-out: the route now has that many sub-attempts
    /// sharing one outcome slot. Zero addresses conclude the route as one
    /// failed (intermittent) attempt.
    pub fn on_resolved(&mut self, i: usize, n_addresses: u32)
        requires
            old(self).wf(),
            old(self).spec_status() is Running,
            i < old(self).routes_seq().len(),
            old(self).states_seq()[i as int] is Resolving,
        ensures
            final(self).wf(),
            final(self).routes_seq() == old(self).routes_seq(),
            final(self).delays_seq() == old(self).delays_seq(),
            final(self).starts_seq() == old(self).starts_seq(),
            final(self).spec_status() == old(self).spec_status(),
            if n_addresses == 0 {
                final(self).states_seq() == old(self).states_seq().update(
                    i as int,
                    AttemptState::Done,
                ) && final(self).updates_seq() == old(self).updates_seq().push((i, false))
            } else {
                final(self).states_seq() == old(self).states_seq().update(
                    i as int,
                    AttemptState::Connecting(n_addresses),
                ) && final(self).updates_seq() == old(self).updates_seq()
            },
    {
        if n_addresses == 0 {
            self.states.set(i, AttemptState::Done);
            self.updates.push((i, false));
            proof {
                assert forall|k: int|
                    0 <= k < self.updates_seq().len() implies self.states_seq()[(
                #[trigger] self.updates_seq()[k]).0 as int] is Done by {
                    if k < self.updates_seq().len() - 1 {
                        assert(old(self).states_seq()[old(self).updates_seq()[k].0 as int]
                            is Done);
                    }
                }
            }
        } else {
            self.states.set(i, AttemptState::Connecting(n_addresses));
        }
    }

    /// Reports a fatal error on route `i`'s attempt (during resolution or
    /// connection): the race concludes with `FatalConnect` and in-flight
    /// attempts are abandoned; no outcome is recorded for any of them.
    pub fn on_fatal(&mut self, i: usize, err: ConnectFailure)
        requires
            old(self).wf(),
            old(self).spec_status() is Running,
            i < old(self).routes_seq().len(),
            old(self).states_seq()[i as int] is Resolving || old(self).states_seq()[i as int]
                is Connecting,
        ensures
            final(self).wf(),
            final(self).routes_seq() == old(self).routes_seq(),
            final(self).delays_seq() == old(self).delays_seq(),
            final(self).starts_seq() == old(self).starts_seq(),
            final(self).updates_seq() == old(self).updates_seq(),
            final(self).spec_status() == RaceStatus::Failed(RaceFailure::FatalConnect(err)),
            final(self).states_seq() == old(self).states_seq().update(
                i as int,
                AttemptState::Done,
            ),
    {
        self.states.set(i, AttemptState::Done);
        self.status = RaceStatus::Failed(RaceFailure::FatalConnect(err));
        proof {
            assert forall|k: int|
                0 <= k < self.updates_seq().len() implies self.states_seq()[(
            #[trigger] self.updates_seq()[k]).0 as int] is Done by {
                assert(old(self).states_seq()[old(self).updates_seq()[k].0 as int] is Done);
            }
        }
    }

    /// Reports that one of route `i`'s sub-attempts connected: the race is
    /// won by route `i`, a success outcome is recorded for its transport,
    /// and all other in-flight attempts are cancelled without an outcome.
    pub fn on_attempt_success(&mut self, i: usize)
        requires
            old(self).wf(),
            old(self).spec_status() is Running,
            i < old(self).routes_seq().len(),
            old(self).states_seq()[i as int] is Connecting,
        ensures
            final(self).wf(),
            final(self).routes_seq() == old(self).routes_seq(),
            final(self).delays_seq() == old(self).delays_seq(),
            final(self).starts_seq() == old(self).starts_seq(),
            final(self).spec_status() == RaceStatus::Connected(i),
            final(self).states_seq() == old(self).states_seq().update(
                i as int,
                AttemptState::Done,
            ),
            final(self).updates_seq() == old(self).updates_seq().push((i, true)),
    {
        self.states.set(i, AttemptState::Done);
        self.status = RaceStatus::Connected(i);
        self.updates.push((i, true));
        proof {
            assert forall|k: int|
                0 <= k < self.updates_seq().len() implies self.states_seq()[(
            #[trigger] self.updates_seq()[k]).0 as int] is Done by {
                if k < self.updates_seq().len() - 1 {
                    assert(old(self).states_seq()[old(self).updates_seq()[k].0 as int] is Done);
                }
            }
            assert forall|a: int, b: int|
                0 <= a < b < self.updates_seq().len() implies (
            #[trigger] self.updates_seq()[a]).0 != (#[trigger] self.updates_seq()[b]).0 by {
                if b == self.updates_seq().len() - 1 {
                    assert(old(self).states_seq()[old(self).updates_seq()[a].0 as int] is Done);
                }
            }
        }
    }

    /// Reports that one of route `i`'s sub-attempts failed with an error
    /// classified as retryable. When it was the route's last outstanding
    /// sub-attempt the route concludes and a failure outcome is recorded
    /// for its transport — the slot records failure only when all its
    /// addresses failed. A retry-after hint additionally pushes back the
    /// scheduled start of every pending route on the same transport.
    pub fn on_attempt_failure(&mut self, i: usize, retry_delay_s: Option<u64>, now_ms: u64)
        requires
            old(self).wf(),
            old(self).spec_status() is Running,
            i < old(self).routes_seq().len(),
            old(self).states_seq()[i as int] is Connecting,
        ensures
            final(self).wf(),
            final(self).routes_seq() == old(self).routes_seq(),
            final(self).delays_seq() == old(self).delays_seq(),
            final(self).spec_status() == old(self).spec_status(),
            match old(self).states_seq()[i as int] {
                AttemptState::Connecting(r) => if r == 1 {
                    final(self).states_seq() == old(self).states_seq().update(
                        i as int,
                        AttemptState::Done,
                    ) && final(self).updates_seq() == old(self).updates_seq().push((i, false))
                } else {
                    final(self).states_seq() == old(self).states_seq().update(
                        i as int,
                        AttemptState::Connecting((r - 1) as u32),
                    ) && final(self).updates_seq() == old(self).updates_seq()
                },
                _ => false,
            },
            // Without a hint the schedule is untouched; with one, pending
            // routes on the same transport move to at least `now + hint`,
            // and nothing else changes.
            final(self).starts_seq().len() == old(self).starts_seq().len(),
            forall|j: int|
                0 <= j < old(self).starts_seq().len() ==> #[trigger] final(self).starts_seq()[j]
                    == match retry_delay_s {
                    Option::Some(d) => if old(self).states_seq()[j] is Pending && same_transport(
                        old(self).routes_seq()[j].transport,
                        old(self).routes_seq()[i as int].transport,
                    ) && old(self).starts_seq()[j] < spec_sat_add(now_ms, spec_secs_to_ms(d)) {
                        spec_sat_add(now_ms, spec_secs_to_ms(d))
                    } else {
                        old(self).starts_seq()[j]
                    },
                    Option::None => old(self).starts_seq()[j],
                },
    {
        let remaining = match self.states[i] {
            AttemptState::Connecting(r) => r,
            _ => 1,
        };
        if remaining == 1 {
            self.states.set(i, AttemptState::Done);
            self.updates.push((i, false));
            proof {
                assert forall|k: int|
                    0 <= k < self.updates_seq().len() implies self.states_seq()[(
                #[trigger] self.updates_seq()[k]).0 as int] is Done by {
                    if k < self.updates_seq().len() - 1 {
                        assert(old(self).states_seq()[old(self).updates_seq()[k].0 as int]
                            is Done);
                    }
                }
                assert forall|a: int, b: int|
                    0 <= a < b < self.updates_seq().len() implies (
                #[trigger] self.updates_seq()[a]).0 != (#[trigger] self.updates_seq()[b]).0 by {
                    if b == self.updates_seq().len() - 1 {
                        assert(old(self).states_seq()[old(self).updates_seq()[a].0 as int]
                            is Done);
                    }
                }
            }
        } else {
            self.states.set(i, AttemptState::Connecting(remaining - 1));
        }
        match retry_delay_s {
            Option::Some(d) => {
                let not_before = sat_add(now_ms, secs_to_ms(d));
                let n = self.routes.len();
                let ghost before_bump = *self;
                let mut j: usize = 0;
                while j < n
                    invariant
                        self.wf(),
                        n == self.routes_seq().len(),
                        j <= n,
                        self.routes_seq() == before_bump.routes_seq(),
                        self.delays_seq() == before_bump.delays_seq(),
                        self.states_seq() == before_bump.states_seq(),
                        self.spec_status() == before_bump.spec_status(),
                        self.updates_seq() == before_bump.updates_seq(),
                        i < n,
                        not_before == spec_sat_add(now_ms, spec_secs_to_ms(d)),
                        self.starts_seq().len() == n,
                        forall|k: int|
                            j <= k < n ==> #[trigger] self.starts_seq()[k]
                                == before_bump.starts_seq()[k],
                        forall|k: int|
                            0 <= k < j ==> #[trigger] self.starts_seq()[k] == if before_bump.states_seq()[k]
                                is Pending && same_transport(
                                before_bump.routes_seq()[k].transport,
                                before_bump.routes_seq()[i as int].transport,
                            ) && before_bump.starts_seq()[k] < not_before {
                                not_before
                            } else {
                                before_bump.starts_seq()[k]
                            },
                    decreases n - j,
                {
                    let is_pending = match self.states[j] {
                        AttemptState::Pending => true,
                        _ => false,
                    };
                    if is_pending && self.routes[j].transport.transport_eq(&self.routes[i].transport)
                        && self.starts_ms[j] < not_before {
                        self.starts_ms.set(j, not_before);
                    }
                    j = j + 1;
                }
            },
            Option::None => {},
        }
    }

    /// Concludes the race as `AllAttemptsFailed` when every route has been
    /// tried and none connected; otherwise leaves it untouched.
    pub fn conclude_if_exhausted(&mut self)
        requires
            old(self).wf(),
        ensures
            final(self).wf(),
            final(self).routes_seq() == old(self).routes_seq(),
            final(self).delays_seq() == old(self).delays_seq(),
            final(self).starts_seq() == old(self).starts_seq(),
            final(self).states_seq() == old(self).states_seq(),
            final(self).updates_seq() == old(self).updates_seq(),
            final(self).spec_status() == if old(self).spec_status() is Running && (forall|j: int|
                0 <= j < old(self).routes_seq().len() ==> #[trigger] old(self).states_seq()[j]
                    is Done) {
                RaceStatus::Failed(RaceFailure::AllAttemptsFailed)
            } else {
                old(self).spec_status()
            },
    {
        let running = match self.status {
            RaceStatus::Running => true,
            _ => false,
        };
        if !running {
            return ;
        }
        let n = self.routes.len();
        let mut j: usize = 0;
        while j < n
            invariant
                self.wf(),
                n == self.routes_seq().len(),
                j <= n,
                forall|k: int| 0 <= k < j ==> #[trigger] self.states_seq()[k] is Done,
            decreases n - j,
        {
            let done = match self.states[j] {
                AttemptState::Done => true,
                _ => false,
            };
            if !done {
                return ;
            }
            j = j + 1;
        }
        self.status = RaceStatus::Failed(RaceFailure::AllAttemptsFailed);
    }

    /// Concludes the race: the final status, the log-safe description of
    /// the winning route when there is one, and the batch of per-transport
    /// outcome updates to merge into the registry. After a successful race
    /// the description is that of one of the input routes — the winner —
    /// and the only success outcome recorded is the winner's.
    pub fn conclude(self, finished_at_ms: u64) -> (r: RaceConclusion)
        requires
            self.wf(),
            !(self.spec_status() is Running),
        ensures
            r.status == self.spec_status(),
            r.finished_at_ms == finished_at_ms,
            match self.spec_status() {
                RaceStatus::Connected(w) => match r.route_info {
                    Option::Some(info) => {
                        &&& w < self.routes_seq().len()
                        &&& info.port == self.routes_seq()[w as int].transport.target.port
                        &&& info.front_name == self.routes_seq()[w as int].http.front_name
                    },
                    Option::None => false,
                },
                _ => r.route_info is None,
            },
            r.updates@.len() == self.updates_seq().len(),
            forall|k: int|
                0 <= k < r.updates@.len() ==> #[trigger] r.updates@[k].0
                    == self.routes_seq()[self.updates_seq()[k].0 as int].transport && r.updates@[k].1
                    == self.updates_seq()[k].1,
            // A success outcome is recorded only for the winning route.
            forall|k: int|
                0 <= k < r.updates@.len() && (#[trigger] r.updates@[k]).1 ==> self.spec_status()
                    == RaceStatus::Connected(self.updates_seq()[k].0),
    {
        let route_info = match self.status {
            RaceStatus::Connected(w) => Option::Some(RouteInfo::of_route(&self.routes[w])),
            _ => Option::None,
        };
        let mut updates: Vec<(TransportRoute, bool)> = Vec::new();
        let n = self.updates.len();
        let mut k: usize = 0;
        while k < n
            invariant
                self.wf(),
                n == self.updates_seq().len(),
                k <= n,
                updates@.len() == k,
                forall|m: int|
                    0 <= m < k ==> #[trigger] updates@[m].0
                        == self.routes_seq()[self.updates_seq()[m].0 as int].transport
                        && updates@[m].1 == self.updates_seq()[m].1,
            decreases n - k,
        {
            let (idx, ok) = self.updates[k];
            updates.push((self.routes[idx].transport.clone(), ok));
            k = k + 1;
        }
        proof {
            assert forall|m: int| 0 <= m < updates@.len() && (#[trigger] updates@[m]).1 implies self
                .spec_status() == RaceStatus::Connected(self.updates_seq()[m].0) by {
                assert(#[trigger] updates@[m].0 == self.routes_seq()[self.updates_seq()[m].0 as int].transport);
                assert((#[trigger] self.updates_seq()[m]).1);
            }
        }
        RaceConclusion { status: self.status, route_info, updates, finished_at_ms }
    }
}

/// What a concluded race hands back to its caller.
pub struct RaceConclusion {
    /// How the race ended.
    pub status: RaceStatus,
    /// The log-safe description of the winning route, for a successful
    /// race.
    pub route_info: Option<RouteInfo>,
    /// Per-transport outcomes to merge into the registry under the writer
    /// lock.
    pub updates: Vec<(TransportRoute, bool)>,
    /// When the race concluded.
    pub finished_at_ms: u64,
}

} // verus!

verus! {

/// Outcome learning orders the schedule: in any race whose delays come
/// from the outcome registry and whose starts respect the schedule keys —
/// as `RouteRace::new` guarantees — a route whose transport has no
/// recorded history starts no later than a route whose transport failed
/// recently. A later race therefore starts no earlier attempts on the
/// transports the earlier race learned to be failing.
pub proof fn lemma_learning_deprioritizes_failed_route(
    reg: crate::outcome::OutcomeRegistry,
    routes: Seq<WsRoute>,
    delays: Seq<u64>,
    starts: Seq<u64>,
    now_ms: u64,
    i: int,
    j: int,
)
    requires
        reg.wf(),
        reg.spec_params().max_delay_ms >= 1,
        reg.spec_params().max_count >= 1,
        delays.len() == routes.len(),
        starts.len() == routes.len(),
        0 <= i < routes.len(),
        0 <= j < routes.len(),
        forall|k: int|
            0 <= k < routes.len() ==> #[trigger] delays[k] == reg.spec_delay_for(
                routes[k].transport,
                now_ms,
            ),
        forall|a: int, b: int|
            0 <= a < routes.len() && 0 <= b < routes.len() && key_lt(delays[a], a, delays[b], b)
                ==> #[trigger] starts[a] <= #[trigger] starts[b],
        reg.spec_lookup(routes[i].transport) is None,
        ({
            let looked = reg.spec_lookup(routes[j].transport);
            looked matches Option::Some(rec) && rec.count >= 1 && now_ms
                >= rec.last_attempt_at_ms && now_ms - rec.last_attempt_at_ms
                < reg.spec_params().age_cutoff_ms
        }),
    ensures
        delays[i] == 0,
        delays[j] >= 1,
        starts[i] <= starts[j],
{
    assert(delays[i] == 0);
    let rec = reg.spec_lookup(routes[j].transport)->Some_0;
    let since = (now_ms - rec.last_attempt_at_ms) as u64;
    reg.spec_params().lemma_delay_positive(since, rec.count);
    assert(delays[j] >= 1);
    assert(key_lt(delays[i], i, delays[j], j));
}

} // verus!
