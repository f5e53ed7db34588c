//! A deterministic executor for route races over a virtual clock.
//!
//! Each route's single resolved attempt behaves as scripted: it succeeds
//! after a delay, fails after a delay with a given connect failure, or
//! hangs forever. The executor drives the race state machine from event
//! to event — launches at their scheduled starts, completions when their
//! delays elapse — under a whole-attempt timeout, and reports how the
//! race ended and how much virtual time passed. Cancelled attempts (those
//! still in flight when the race concludes or times out) contribute no
//! outcome.

use vstd::prelude::*;

use crate::errors::{classify_failure, spec_classify, ConnectFailure, ErrorClass};
use crate::outcome::OutcomeRegistry;
use crate::racer::{sat_add, AttemptState, RaceConclusion, RaceFailure, RaceStatus, RouteRace};
use crate::route::WsRoute;

verus! {

/// What one route's resolved attempt does.
#[derive(Clone, Copy, Debug, PartialEq, Eq, Structural)]
pub enum AttemptBehavior {
    /// The attempt connects this long after it starts.
    SucceedAfter { delay_ms: u64 },
    /// The attempt fails this long after it starts, with this failure.
    FailAfter { delay_ms: u64, failure: ConnectFailure },
    /// The attempt never completes.
    Hang,
}

/// The policy delay of each route at the start of the race.
pub open spec fn spec_policy_delays(
    routes: Seq<WsRoute>,
    registry: OutcomeRegistry,
    start_ms: u64,
) -> Seq<u64> {
    Seq::new(routes.len(), |i: int| registry.spec_delay_for(routes[i].transport, start_ms))
}

/// The scheduled start of route `i`: the race's start plus the route's
/// policy delay plus the stagger of its rank.
pub open spec fn spec_scheduled_start(
    routes: Seq<WsRoute>,
    registry: OutcomeRegistry,
    start_ms: u64,
    i: int,
) -> u64 {
    let delays = spec_policy_delays(routes, registry, start_ms);
    crate::racer::spec_sat_add(
        crate::racer::spec_sat_add(start_ms, delays[i]),
        crate::racer::spec_stagger(crate::racer::spec_rank(delays, i)),
    )
}

/// Whether no scripted failure carries a retry-after hint; without one
/// the schedule computed at the start never moves.
pub open spec fn spec_no_retry_hints(behaviors: Seq<AttemptBehavior>) -> bool {
    forall|k: int|
        0 <= k < behaviors.len() ==> !((#[trigger] behaviors[k])
            matches AttemptBehavior::FailAfter { delay_ms: _, failure } && spec_classify(failure)
            is RetryAt)
}

/// How many routes still wait for their scheduled start.
pub open spec fn spec_count_pending(states: Seq<AttemptState>) -> nat
    decreases states.len(),
{
    if states.len() == 0 {
        0
    } else {
        spec_count_pending(states.drop_last()) + (if states.last() is Pending {
            1nat
        } else {
            0nat
        })
    }
}

/// How many launched attempts still have a completion outstanding.
pub open spec fn spec_count_outstanding(completion: Seq<Option<u64>>) -> nat
    decreases completion.len(),
{
    if completion.len() == 0 {
        0
    } else {
        spec_count_outstanding(completion.drop_last()) + (if completion.last() is Some {
            1nat
        } else {
            0nat
        })
    }
}

proof fn lemma_count_pending_update(s: Seq<AttemptState>, i: int, v: AttemptState)
    requires
        0 <= i < s.len(),
    ensures
        spec_count_pending(s.update(i, v)) + (if s[i] is Pending {
            1nat
        } else {
            0nat
        }) == spec_count_pending(s) + (if v is Pending {
            1nat
        } else {
            0nat
        }),
    decreases s.len(),
{
    if i == s.len() - 1 {
        assert(s.update(i, v).drop_last() =~= s.drop_last());
        assert(s.update(i, v).last() == v);
        assert(s.last() == s[i]);
    } else {
        assert(s.update(i, v).drop_last() =~= s.drop_last().update(i, v));
        lemma_count_pending_update(s.drop_last(), i, v);
        assert(s.update(i, v).last() == s.last());
        assert(s.drop_last()[i] == s[i]);
    }
}

proof fn lemma_count_outstanding_update(s: Seq<Option<u64>>, i: int, v: Option<u64>)
    requires
        0 <= i < s.len(),
    ensures
        spec_count_outstanding(s.update(i, v)) + (if s[i] is Some {
            1nat
        } else {
            0nat
        }) == spec_count_outstanding(s) + (if v is Some {
            1nat
        } else {
            0nat
        }),
    decreases s.len(),
{
    if i == s.len() - 1 {
        assert(s.update(i, v).drop_last() =~= s.drop_last());
        assert(s.update(i, v).last() == v);
        assert(s.last() == s[i]);
    } else {
        assert(s.update(i, v).drop_last() =~= s.drop_last().update(i, v));
        lemma_count_outstanding_update(s.drop_last(), i, v);
        assert(s.update(i, v).last() == s.last());
        assert(s.drop_last()[i] == s[i]);
    }
}

proof fn lemma_count_pending_all(s: Seq<AttemptState>)
    requires
        forall|k: int| 0 <= k < s.len() ==> (#[trigger] s[k]) is Pending,
    ensures
        spec_count_pending(s) == s.len(),
    decreases s.len(),
{
    if s.len() > 0 {
        assert forall|k: int| 0 <= k < s.drop_last().len() implies (#[trigger] s.drop_last()[k])
            is Pending by {
            assert(s[k] is Pending);
        }
        lemma_count_pending_all(s.drop_last());
        assert(s.last() == s[s.len() - 1]);
    }
}

proof fn lemma_count_outstanding_none(s: Seq<Option<u64>>)
    requires
        forall|k: int| 0 <= k < s.len() ==> (#[trigger] s[k]) is None,
    ensures
        spec_count_outstanding(s) == 0,
    decreases s.len(),
{
    if s.len() > 0 {
        assert forall|k: int| 0 <= k < s.drop_last().len() implies (#[trigger] s.drop_last()[k])
            is None by {
            assert(s[k] is None);
        }
        lemma_count_outstanding_none(s.drop_last());
        assert(s.last() == s[s.len() - 1]);
    }
}

/// How a simulated race ended.
pub struct SimOutcome {
    /// The whole-attempt timer elapsed before the race concluded; the
    /// race's outcome updates are discarded in that case.
    pub timed_out: bool,
    /// Virtual time from the start of the race to its end.
    pub elapsed_ms: u64,
    /// The race's conclusion, absent on a timeout.
    pub conclusion: Option<RaceConclusion>,
}

/// Runs a race over the given routes, with one scripted attempt per
/// route, against a snapshot of the outcome registry, bounded by
/// `timeout_ms` of virtual time.
pub fn run_race(
    routes: Vec<WsRoute>,
    behaviors: &Vec<AttemptBehavior>,
    registry: &OutcomeRegistry,
    start_ms: u64,
    timeout_ms: u64,
) -> (r: SimOutcome)
    requires
        registry.wf(),
        behaviors@.len() == routes@.len(),
        // Two events per route plus one must fit the event counter.
        routes@.len() < usize::MAX / 2,
    ensures
        r.elapsed_ms <= timeout_ms,
        r.timed_out ==> r.elapsed_ms == timeout_ms && r.conclusion is None,
        !r.timed_out ==> r.conclusion is Some,
        // An empty route list concludes immediately, with no time spent.
        behaviors@.len() == 0 ==> !r.timed_out && r.elapsed_ms == 0 && (r.conclusion
            matches Option::Some(c) && c.status == RaceStatus::Failed(
            RaceFailure::NoResolvedRoutes,
        )),
        // A timeout is owed when every attempt hangs: nothing else can
        // ever conclude such a race.
        (behaviors@.len() >= 1 && (forall|k: int|
            0 <= k < behaviors@.len() ==> (#[trigger] behaviors@[k]) is Hang)) ==> r.timed_out,
        // Success is owed: without retry hints and with no fatally
        // classified failure, a succeeding attempt whose completion falls
        // inside the budget concludes the race in time.
        (spec_no_retry_hints(behaviors@) && (forall|k: int|
            0 <= k < behaviors@.len() ==> !((#[trigger] behaviors@[k])
                matches AttemptBehavior::FailAfter { delay_ms: _, failure } && spec_classify(
                failure,
            ) is Fatal)) && (exists|i: int|
            0 <= i < behaviors@.len() && ((#[trigger] behaviors@[i])
                matches AttemptBehavior::SucceedAfter { delay_ms } && crate::racer::spec_sat_add(
                spec_scheduled_start(routes@, *registry, start_ms, i),
                delay_ms,
            ) < crate::racer::spec_sat_add(start_ms, timeout_ms)))) ==> !r.timed_out,
        // Success happens on schedule: without retry hints, a connected
        // race ends exactly when the winner's attempt completes — its
        // scheduled start plus its scripted delay.
        spec_no_retry_hints(behaviors@) ==> match r.conclusion {
            Option::Some(c) => match c.status {
                RaceStatus::Connected(w) => (behaviors@[w as int]
                    matches AttemptBehavior::SucceedAfter { delay_ms } && start_ms + r.elapsed_ms
                    == crate::racer::spec_sat_add(
                    spec_scheduled_start(routes@, *registry, start_ms, w as int),
                    delay_ms,
                )),
                _ => true,
            },
            Option::None => true,
        },
        match r.conclusion {
            Option::Some(c) => !(c.status is Running) && match c.status {
                // Only a route whose attempt succeeds can win.
                RaceStatus::Connected(w) => w < behaviors@.len() && behaviors@[w as int]
                    is SucceedAfter,
                // Exhaustion cannot swallow a reachable route: with any
                // succeeding attempt in the script, the race never ends
                // with every attempt failed.
                RaceStatus::Failed(RaceFailure::AllAttemptsFailed) => forall|k: int|
                    0 <= k < behaviors@.len() ==> !((#[trigger] behaviors@[k]) is SucceedAfter),
                // A fatal conclusion names a scripted failure that
                // classifies as exactly that fatal error.
                RaceStatus::Failed(RaceFailure::FatalConnect(err)) => exists|k: int|
                    0 <= k < behaviors@.len() && ((#[trigger] behaviors@[k])
                        matches AttemptBehavior::FailAfter { delay_ms: _, failure }
                        && spec_classify(failure) == ErrorClass::Fatal(err)),
                _ => true,
            },
            Option::None => true,
        },
{
    let n = routes.len();
    let deadline = sat_add(start_ms, timeout_ms);
    let mut race = RouteRace::new(routes, registry, start_ms);
    proof {
        assert(race.delays_seq() =~= spec_policy_delays(routes@, *registry, start_ms));
    }
    // Completion time of each launched attempt; hanging or finished
    // attempts have none.
    let mut completion: Vec<Option<u64>> = Vec::new();
    let mut i: usize = 0;
    while i < n
        invariant
            i <= n,
            completion@.len() == i,
            forall|k: int| 0 <= k < i ==> (#[trigger] completion@[k]) is None,
        decreases n - i,
    {
        completion.push(Option::None);
        i = i + 1;
    }
    let mut now = start_ms;
    // Each iteration launches one attempt or completes one, so twice the
    // route count bounds the number of events.
    let mut events_left: usize = 2 * n + 1;
    proof {
        lemma_count_pending_all(race.states_seq());
        lemma_count_outstanding_none(completion@);
    }
    while events_left > 0
        invariant_except_break
            // Each route launches once and completes at most once, so the
            // event counter covers everything that can still happen.
            events_left >= 2 * spec_count_pending(race.states_seq()) + spec_count_outstanding(
                completion@,
            ) + 1,
        invariant
            race.wf(),
            race.routes_seq().len() == n,
            completion@.len() == n,
            behaviors@.len() == n,
            start_ms <= now <= deadline,
            deadline == crate::racer::spec_sat_add(start_ms, timeout_ms),
            forall|k: int|
                0 <= k < n && (#[trigger] completion@[k]) is Some ==> race.states_seq()[k]
                    is Connecting,
            n == 0 ==> race.spec_status() == RaceStatus::Failed(RaceFailure::NoResolvedRoutes)
                && now == start_ms,
            (n >= 1 && (forall|k: int| 0 <= k < n ==> (#[trigger] behaviors@[k]) is Hang)) ==> (
            race.spec_status() is Running && (forall|k: int|
                0 <= k < n ==> (#[trigger] completion@[k]) is None) && (forall|k: int|
                0 <= k < n ==> !((#[trigger] race.states_seq()[k]) is Done))),
            forall|k: int|
                0 <= k < n && (#[trigger] behaviors@[k]) is SucceedAfter && race.states_seq()[k]
                    is Done ==> race.spec_status() == RaceStatus::Connected(k as usize),
            race.spec_status() == RaceStatus::Failed(RaceFailure::AllAttemptsFailed) ==> (forall|
                k: int,
            |
                0 <= k < n ==> !((#[trigger] behaviors@[k]) is SucceedAfter)),
            match race.spec_status() {
                RaceStatus::Connected(w) => w < n && behaviors@[w as int] is SucceedAfter,
                RaceStatus::Failed(RaceFailure::FatalConnect(err)) => exists|k: int|
                    0 <= k < n && ((#[trigger] behaviors@[k])
                        matches AttemptBehavior::FailAfter { delay_ms: _, failure }
                        && spec_classify(failure) == ErrorClass::Fatal(err)),
                _ => true,
            },
            // Virtual time never passes a pending launch or an
            // outstanding completion.
            forall|k: int|
                0 <= k < n && race.states_seq()[k] is Pending ==> now
                    <= #[trigger] race.starts_seq()[k],
            forall|k: int|
                0 <= k < n ==> match #[trigger] completion@[k] {
                    Option::Some(ct) => now <= ct,
                    Option::None => true,
                },
            // A launched, unconcluded attempt completes exactly its
            // scripted delay after its start.
            forall|k: int|
                0 <= k < n ==> match #[trigger] completion@[k] {
                    Option::Some(ct) => match behaviors@[k] {
                        AttemptBehavior::SucceedAfter { delay_ms } => ct
                            == crate::racer::spec_sat_add(race.starts_seq()[k], delay_ms),
                        AttemptBehavior::FailAfter { delay_ms, failure: _ } => ct
                            == crate::racer::spec_sat_add(race.starts_seq()[k], delay_ms),
                        AttemptBehavior::Hang => false,
                    },
                    Option::None => true,
                },
            // Without retry hints the schedule never moves.
            spec_no_retry_hints(behaviors@) ==> (race.delays_seq() == spec_policy_delays(
                routes@,
                *registry,
                start_ms,
            ) && (forall|i: int|
                0 <= i < n ==> #[trigger] race.starts_seq()[i] == spec_scheduled_start(
                    routes@,
                    *registry,
                    start_ms,
                    i,
                ))),
            // A connected race's clock reads the winner's completion.
            match race.spec_status() {
                RaceStatus::Connected(w) => (behaviors@[w as int]
                    matches AttemptBehavior::SucceedAfter { delay_ms } && now
                    == crate::racer::spec_sat_add(race.starts_seq()[w as int], delay_ms)),
                _ => true,
            },
            // Resolution is immediate here, and every launched attempt
            // that can complete has a completion recorded.
            forall|k: int| 0 <= k < n ==> !((#[trigger] race.states_seq()[k]) is Resolving),
            forall|k: int|
                0 <= k < n && (#[trigger] race.states_seq()[k]) is Connecting && !(behaviors@[k]
                    is Hang) ==> completion@[k] is Some,
            // One resolved address per route here.
            forall|k: int|
                0 <= k < n ==> match #[trigger] race.states_seq()[k] {
                    AttemptState::Connecting(r) => r == 1,
                    _ => true,
                },
        ensures
            !(race.spec_status() is Running),
        decreases events_left,
    {
        events_left = events_left - 1;
        let running = match race.status() {
            RaceStatus::Running => true,
            _ => false,
        };
        if !running {
            break ;
        }
        // The next event: the earliest pending launch or in-flight
        // completion.
        let next_launch: Option<u64> = race.next_start_time();
        let mut next_completion: Option<u64> = Option::None;
        let mut k: usize = 0;
        while k < n
            invariant
                n == completion@.len(),
                k <= n,
                match next_completion {
                    Option::Some(t) => (exists|m: int|
                        0 <= m < k && (#[trigger] completion@[m]) == Option::Some(t)) && (forall|
                        m: int,
                    |
                        0 <= m < k ==> match #[trigger] completion@[m] {
                            Option::Some(ct) => ct >= t,
                            Option::None => true,
                        }),
                    Option::None => forall|m: int|
                        0 <= m < k ==> (#[trigger] completion@[m]) is None,
                },
            decreases n - k,
        {
            match completion[k] {
                Option::Some(t) => {
                    next_completion = match next_completion {
                        Option::Some(cur) => if t < cur {
                            Option::Some(t)
                        } else {
                            Option::Some(cur)
                        },
                        Option::None => Option::Some(t),
                    };
                },
                Option::None => {},
            }
            k = k + 1;
        }
        let next_event: Option<u64> = match (next_launch, next_completion) {
            (Option::Some(a), Option::Some(b)) => Option::Some(
                if a <= b {
                    a
                } else {
                    b
                },
            ),
            (Option::Some(a), Option::None) => Option::Some(a),
            (Option::None, Option::Some(b)) => Option::Some(b),
            (Option::None, Option::None) => Option::None,
        };
        let t = match next_event {
            Option::None => {
                // Nothing will ever happen again: only the timeout is
                // left.
                return SimOutcome {
                    timed_out: true,
                    elapsed_ms: timeout_ms,
                    conclusion: Option::None,
                };
            },
            Option::Some(t) => t,
        };
        if t >= deadline {
            return SimOutcome {
                timed_out: true,
                elapsed_ms: timeout_ms,
                conclusion: Option::None,
            };
        }
        if t > now {
            now = t;
        }
        // Launches first at a tied instant, then completions.
        match race.next_ready(now) {
            Option::Some(idx) => {
                proof {
                    // The launch is due and time has not passed it, so it
                    // happens exactly at the scheduled start.
                    assert(now == race.starts_seq()[idx as int]);
                }
                let ghost st0 = race.states_seq();
                let ghost cp0 = completion@;
                race.launch(idx, now);
                race.on_resolved(idx, 1);
                match behaviors[idx] {
                    AttemptBehavior::SucceedAfter { delay_ms } => {
                        completion.set(idx, Option::Some(sat_add(now, delay_ms)));
                    },
                    AttemptBehavior::FailAfter { delay_ms, failure: _ } => {
                        completion.set(idx, Option::Some(sat_add(now, delay_ms)));
                    },
                    AttemptBehavior::Hang => {
                        completion.set(idx, Option::None);
                    },
                }
                proof {
                    assert forall|m: int|
                        0 <= m < n && (#[trigger] completion@[m]) is Some implies race.states_seq()[m]
                        is Connecting by {}
                    // One launch: one fewer pending, at most one more
                    // outstanding completion.
                    assert(race.states_seq() =~= st0.update(
                        idx as int,
                        AttemptState::Connecting(1),
                    ));
                    lemma_count_pending_update(st0, idx as int, AttemptState::Connecting(1));
                    lemma_count_outstanding_update(cp0, idx as int, completion@[idx as int]);
                    assert(completion@ =~= cp0.update(idx as int, completion@[idx as int]));
                }
            },
            Option::None => {
                // Complete the attempt whose completion time is due.
                let mut idx: usize = n;
                let mut k: usize = 0;
                while k < n
                    invariant
                        n == completion@.len(),
                        k <= n,
                        idx == n || (idx < n && completion@[idx as int] == Option::Some(t)),
                        idx == n ==> forall|m: int|
                            0 <= m < k ==> (#[trigger] completion@[m]) != Option::Some(t),
                    decreases n - k,
                {
                    match completion[k] {
                        Option::Some(ct) => {
                            if ct == t && idx == n {
                                idx = k;
                            }
                        },
                        Option::None => {},
                    }
                    k = k + 1;
                }
                proof {
                    // The chosen event is due now, and it cannot be a
                    // launch (none is ready), so it is an outstanding
                    // completion the scan above found.
                    assert(t <= now);
                    if idx == n {
                        match next_launch {
                            Option::Some(a) => {
                                if t == a {
                                    let j = choose|j: int|
                                        0 <= j < race.routes_seq().len()
                                            && (#[trigger] race.states_seq()[j]) is Pending
                                            && race.starts_seq()[j] == a;
                                    assert(race.starts_seq()[j] > now);
                                    assert(false);
                                } else {
                                    let m = choose|m: int|
                                        0 <= m < n && (#[trigger] completion@[m]) == Option::Some(
                                            t,
                                        );
                                    assert(completion@[m] != Option::Some(t));
                                    assert(false);
                                }
                            },
                            Option::None => {
                                let m = choose|m: int|
                                    0 <= m < n && (#[trigger] completion@[m]) == Option::Some(t);
                                assert(completion@[m] != Option::Some(t));
                                assert(false);
                            },
                        }
                    }
                }
                let ghost st0 = race.states_seq();
                let ghost cp0 = completion@;
                completion.set(idx, Option::None);
                match behaviors[idx] {
                    AttemptBehavior::SucceedAfter { .. } => {
                        race.on_attempt_success(idx);
                    },
                    AttemptBehavior::FailAfter { delay_ms: _, failure } => {
                        match classify_failure(&failure) {
                            ErrorClass::Fatal(err) => {
                                race.on_fatal(idx, err);
                            },
                            ErrorClass::Intermittent => {
                                race.on_attempt_failure(idx, Option::None, now);
                            },
                            ErrorClass::RetryAt { delay_s } => {
                                race.on_attempt_failure(idx, Option::Some(delay_s), now);
                            },
                        }
                    },
                    AttemptBehavior::Hang => {},
                }
                proof {
                    assert forall|m: int|
                        0 <= m < n && (#[trigger] completion@[m]) is Some implies race.states_seq()[m]
                        is Connecting by {
                        assert(m != idx);
                    }
                }
                proof {
                    // One completion: one fewer outstanding, pendings
                    // untouched.
                    lemma_count_outstanding_update(cp0, idx as int, Option::None);
                    assert(completion@ =~= cp0.update(idx as int, Option::None));
                    assert(race.states_seq() =~= st0.update(idx as int, AttemptState::Done));
                    lemma_count_pending_update(st0, idx as int, AttemptState::Done);
                }
                let ghost pre_conclude = race;
                race.conclude_if_exhausted();
                proof {
                    assert forall|m: int|
                        0 <= m < n && (#[trigger] completion@[m]) is Some implies race.states_seq()[m]
                        is Connecting by {}
                    // When exhaustion concludes the race, the status was
                    // still running with every route done, so no
                    // succeeding attempt can be among them.
                    if race.spec_status() == RaceStatus::Failed(RaceFailure::AllAttemptsFailed)
                        && pre_conclude.spec_status() is Running {
                        assert forall|m: int| 0 <= m < n implies !((#[trigger] behaviors@[m])
                            is SucceedAfter) by {
                            if behaviors@[m] is SucceedAfter {
                                assert(pre_conclude.states_seq()[m] is Done);
                            }
                        }
                    }
                }
            },
        }
    }
    let still_running = match race.status() {
        RaceStatus::Running => true,
        _ => false,
    };
    if still_running {
        proof {
            // Unreachable: a running race always has events left in its
            // budget, so the loop can only be left once it concluded.
            assert(false);
        }
        return SimOutcome { timed_out: true, elapsed_ms: timeout_ms, conclusion: Option::None };
    }
    proof {
        // A race over hanging attempts never leaves the running state,
        // so this path cannot be reached for an all-hang script.
        if n >= 1 && (forall|k: int| 0 <= k < n ==> (#[trigger] behaviors@[k]) is Hang) {
            assert(race.spec_status() is Running);
            assert(false);
        }
    }
    let elapsed = now - start_ms;
    SimOutcome {
        timed_out: false,
        elapsed_ms: elapsed,
        conclusion: Option::Some(race.conclude(now)),
    }
}

} // verus!
