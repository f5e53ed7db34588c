//! Outcome memory and the delay policy derived from it.
//!
//! Every connection attempt leaves a per-transport record: the timestamp of
//! the last attempt and a monotonically capped failure counter. The registry
//! of such records is consulted read-only while racing routes, and a batch of
//! updates is applied once when the race concludes. The delay policy turns a
//! record into a scheduling delay: zero for stale or clean history, growing
//! exponentially with consecutive failures, and never above a hard bound.

use vstd::prelude::*;

use crate::route::{same_transport, TransportRoute};

verus! {

/// A last attempt was "very recent" when it finished less than this many
/// milliseconds ago; the secondary growth factor then applies.
pub const VERY_RECENT_MS: u64 = 1000;

/// The seed of the delay curve, in milliseconds: the delay after a single
/// failure, before any growth factor applies.
pub const DELAY_SEED_MS: u64 = 1000;

/// Tuning for the outcome records and the delay curve computed from them.
///
/// Growth factors are rationals held in thousandths: `1500` means x1.5 per
/// consecutive failure.
#[derive(Clone, Copy, Debug)]
pub struct OutcomeParams {
    /// Outcomes older than this are treated as absent.
    pub age_cutoff_ms: u64,
    /// Base of the exponential delay growth, in thousandths.
    pub cooldown_growth_permille: u64,
    /// Secondary growth factor applied when the last attempt was very
    /// recent, in thousandths.
    pub count_growth_permille: u64,
    /// Saturation point for the failure counter.
    pub max_count: u8,
    /// Hard upper bound on any computed delay.
    pub max_delay_ms: u64,
}

impl OutcomeParams {
    /// Well-formedness: growth factors do not shrink delays, and one growth
    /// step from a bounded delay cannot overflow.
    pub open spec fn wf(self) -> bool {
        &&& self.cooldown_growth_permille >= 1000
        &&& self.count_growth_permille >= 1000
        &&& self.max_delay_ms * self.cooldown_growth_permille <= u64::MAX
        &&& self.max_delay_ms * self.count_growth_permille <= u64::MAX
        &&& DELAY_SEED_MS * self.cooldown_growth_permille <= u64::MAX
        &&& DELAY_SEED_MS * self.count_growth_permille <= u64::MAX
    }

    /// One growth step: multiply by `g` thousandths, capped at the maximum
    /// delay.
    pub open spec fn spec_grow(self, d: u64, g: u64) -> u64 {
        let grown = (d * g) / 1000;
        if grown > self.max_delay_ms {
            self.max_delay_ms
        } else {
            grown as u64
        }
    }

    /// `k` growth steps from `d` with factor `g`.
    pub open spec fn spec_pow(self, d: u64, g: u64, k: nat) -> u64
        decreases k,
    {
        if k == 0 {
            d
        } else {
            self.spec_grow(self.spec_pow(d, g, (k - 1) as nat), g)
        }
    }

    /// The seed of the curve, already capped at the maximum delay.
    pub open spec fn spec_seed(self) -> u64 {
        if DELAY_SEED_MS > self.max_delay_ms {
            self.max_delay_ms
        } else {
            DELAY_SEED_MS
        }
    }

    /// The delay prescribed for a transport whose last attempt finished
    /// `since_ms` ago with `failure_count` consecutive failures.
    ///
    /// The curve: zero for stale history (older than the age cutoff) and for
    /// a clean record; otherwise the seed grown once per failure beyond the
    /// first by the cooldown factor, grown once more per failure by the
    /// secondary factor when the last attempt was very recent, capped at the
    /// maximum delay at every step. The counter saturates at `max_count`.
    pub open spec fn spec_delay(self, since_ms: u64, failure_count: u8) -> u64 {
        let n = if failure_count > self.max_count {
            self.max_count as nat
        } else {
            failure_count as nat
        };
        if since_ms >= self.age_cutoff_ms || n == 0 {
            0
        } else {
            let base = self.spec_pow(self.spec_seed(), self.cooldown_growth_permille, (n - 1) as nat);
            if since_ms < VERY_RECENT_MS {
                self.spec_pow(base, self.count_growth_permille, n)
            } else {
                base
            }
        }
    }

    /// One growth step stays within the maximum delay and cannot overflow.
    proof fn lemma_grow_bounded(self, d: u64, g: u64)
        requires
            self.wf(),
            d <= self.max_delay_ms || d <= DELAY_SEED_MS,
            g == self.cooldown_growth_permille || g == self.count_growth_permille,
        ensures
            self.spec_grow(d, g) <= self.max_delay_ms,
            d * g <= u64::MAX,
    {
        assert(d * g <= u64::MAX) by (nonlinear_arith)
            requires
                d <= self.max_delay_ms && self.max_delay_ms * g <= u64::MAX || d <= DELAY_SEED_MS
                    && DELAY_SEED_MS * g <= u64::MAX,
        ;
    }

    /// Every point of the growth curve is within the maximum delay.
    pub proof fn lemma_pow_bounded(self, d: u64, g: u64, k: nat)
        requires
            self.wf(),
            d <= self.max_delay_ms,
            g == self.cooldown_growth_permille || g == self.count_growth_permille,
        ensures
            self.spec_pow(d, g, k) <= self.max_delay_ms,
        decreases k,
    {
        if k > 0 {
            self.lemma_pow_bounded(d, g, (k - 1) as nat);
            self.lemma_grow_bounded(self.spec_pow(d, g, (k - 1) as nat), g);
        }
    }

    /// The delay policy never exceeds the maximum delay.
    pub proof fn lemma_delay_bounded(self, since_ms: u64, failure_count: u8)
        requires
            self.wf(),
        ensures
            self.spec_delay(since_ms, failure_count) <= self.max_delay_ms,
    {
        let n = if failure_count > self.max_count {
            self.max_count as nat
        } else {
            failure_count as nat
        };
        if !(since_ms >= self.age_cutoff_ms || n == 0) {
            self.lemma_pow_bounded(self.spec_seed(), self.cooldown_growth_permille, (n - 1) as nat);
            let base = self.spec_pow(self.spec_seed(), self.cooldown_growth_permille, (n - 1) as nat);
            self.lemma_pow_bounded(base, self.count_growth_permille, n);
        }
    }

    /// A growth step never shrinks a delay that is within bounds.
    proof fn lemma_grow_increasing(self, d: u64, g: u64)
        requires
            self.wf(),
            d <= self.max_delay_ms,
            g == self.cooldown_growth_permille || g == self.count_growth_permille,
        ensures
            self.spec_grow(d, g) >= d,
    {
        assert((d * g) / 1000 >= d) by (nonlinear_arith)
            requires
                g >= 1000,
        ;
    }

    /// Growth steps are monotone in their starting point.
    proof fn lemma_grow_monotone(self, d1: u64, d2: u64, g: u64)
        requires
            self.wf(),
            d1 <= d2,
        ensures
            self.spec_grow(d1, g) <= self.spec_grow(d2, g),
    {
        assert((d1 * g) / 1000 <= (d2 * g) / 1000) by (nonlinear_arith)
            requires
                d1 <= d2,
        ;
    }

    /// The growth curve is monotone in the number of steps.
    proof fn lemma_pow_monotone_steps(self, d: u64, g: u64, k1: nat, k2: nat)
        requires
            self.wf(),
            d <= self.max_delay_ms,
            g == self.cooldown_growth_permille || g == self.count_growth_permille,
            k1 <= k2,
        ensures
            self.spec_pow(d, g, k1) <= self.spec_pow(d, g, k2),
        decreases k2,
    {
        if k1 < k2 {
            self.lemma_pow_monotone_steps(d, g, k1, (k2 - 1) as nat);
            self.lemma_pow_bounded(d, g, (k2 - 1) as nat);
            self.lemma_grow_increasing(self.spec_pow(d, g, (k2 - 1) as nat), g);
        }
    }

    /// The growth curve is monotone in its starting point.
    proof fn lemma_pow_monotone_start(self, d1: u64, d2: u64, g: u64, k: nat)
        requires
            self.wf(),
            d1 <= d2,
        ensures
            self.spec_pow(d1, g, k) <= self.spec_pow(d2, g, k),
        decreases k,
    {
        if k > 0 {
            self.lemma_pow_monotone_start(d1, d2, g, (k - 1) as nat);
            self.lemma_grow_monotone(
                self.spec_pow(d1, g, (k - 1) as nat),
                self.spec_pow(d2, g, (k - 1) as nat),
                g,
            );
        }
    }

    /// The delay policy is monotone: more consecutive failures never
    /// prescribe a shorter delay.
    pub proof fn lemma_delay_monotone(self, since_ms: u64, c1: u8, c2: u8)
        requires
            self.wf(),
            c1 <= c2,
        ensures
            self.spec_delay(since_ms, c1) <= self.spec_delay(since_ms, c2),
    {
        let n1 = if c1 > self.max_count {
            self.max_count as nat
        } else {
            c1 as nat
        };
        let n2 = if c2 > self.max_count {
            self.max_count as nat
        } else {
            c2 as nat
        };
        if since_ms < self.age_cutoff_ms && n1 > 0 {
            let seed = self.spec_seed();
            let g = self.cooldown_growth_permille;
            let base1 = self.spec_pow(seed, g, (n1 - 1) as nat);
            let base2 = self.spec_pow(seed, g, (n2 - 1) as nat);
            self.lemma_pow_monotone_steps(seed, g, (n1 - 1) as nat, (n2 - 1) as nat);
            if since_ms < VERY_RECENT_MS {
                self.lemma_pow_bounded(seed, g, (n1 - 1) as nat);
                self.lemma_pow_bounded(seed, g, (n2 - 1) as nat);
                self.lemma_pow_monotone_steps(base1, self.count_growth_permille, n1, n2);
                self.lemma_pow_monotone_start(base1, base2, self.count_growth_permille, n2);
            }
        }
    }

    /// A failure within the age cutoff always prescribes a positive delay,
    /// as long as the policy allows any delay at all.
    pub proof fn lemma_delay_positive(self, since_ms: u64, failure_count: u8)
        requires
            self.wf(),
            self.max_delay_ms >= 1,
            self.max_count >= 1,
            since_ms < self.age_cutoff_ms,
            failure_count >= 1,
        ensures
            self.spec_delay(since_ms, failure_count) >= 1,
    {
        let n = if failure_count > self.max_count {
            self.max_count as nat
        } else {
            failure_count as nat
        };
        let seed = self.spec_seed();
        let g = self.cooldown_growth_permille;
        self.lemma_pow_positive(seed, g, (n - 1) as nat);
        if since_ms < VERY_RECENT_MS {
            let base = self.spec_pow(seed, g, (n - 1) as nat);
            self.lemma_pow_bounded(seed, g, (n - 1) as nat);
            self.lemma_pow_positive_from(base, self.count_growth_permille, n);
        }
    }

    proof fn lemma_pow_positive(self, d: u64, g: u64, k: nat)
        requires
            self.wf(),
            self.max_delay_ms >= 1,
            d == self.spec_seed(),
            g == self.cooldown_growth_permille || g == self.count_growth_permille,
        ensures
            self.spec_pow(d, g, k) >= 1,
        decreases k,
    {
        self.lemma_pow_positive_from(d, g, k);
    }

    proof fn lemma_pow_positive_from(self, d: u64, g: u64, k: nat)
        requires
            self.wf(),
            d >= 1,
            d <= self.max_delay_ms,
            g == self.cooldown_growth_permille || g == self.count_growth_permille,
        ensures
            self.spec_pow(d, g, k) >= 1,
        decreases k,
    {
        if k > 0 {
            self.lemma_pow_positive_from(d, g, (k - 1) as nat);
            self.lemma_pow_bounded(d, g, (k - 1) as nat);
            self.lemma_grow_increasing(self.spec_pow(d, g, (k - 1) as nat), g);
        }
    }

    /// `k` growth steps from `d` with factor `g`, executable.
    fn grow_pow(&self, d: u64, g: u64, k: u8) -> (r: u64)
        requires
            self.wf(),
            d <= self.max_delay_ms,
            g == self.cooldown_growth_permille || g == self.count_growth_permille,
        ensures
            r == self.spec_pow(d, g, k as nat),
    {
        let mut acc: u64 = d;
        let mut i: u8 = 0;
        while i < k
            invariant
                self.wf(),
                d <= self.max_delay_ms,
                g == self.cooldown_growth_permille || g == self.count_growth_permille,
                i <= k,
                acc == self.spec_pow(d, g, i as nat),
                acc <= self.max_delay_ms,
            decreases k - i,
        {
            proof {
                self.lemma_grow_bounded(acc, g);
            }
            let grown = (acc * g) / 1000;
            acc = if grown > self.max_delay_ms {
                self.max_delay_ms
            } else {
                grown
            };
            i = i + 1;
        }
        acc
    }

    /// Computes the scheduling delay for a transport whose last attempt
    /// finished `since_ms` ago with `failure_count` consecutive failures.
    pub fn compute_delay(&self, since_ms: u64, failure_count: u8) -> (r: u64)
        requires
            self.wf(),
        ensures
            r == self.spec_delay(since_ms, failure_count),
            r <= self.max_delay_ms,
    {
        proof {
            self.lemma_delay_bounded(since_ms, failure_count);
        }
        let n: u8 = if failure_count > self.max_count {
            self.max_count
        } else {
            failure_count
        };
        if since_ms >= self.age_cutoff_ms || n == 0 {
            return 0;
        }
        let seed: u64 = if DELAY_SEED_MS > self.max_delay_ms {
            self.max_delay_ms
        } else {
            DELAY_SEED_MS
        };
        let base = self.grow_pow(seed, self.cooldown_growth_permille, n - 1);
        if since_ms < VERY_RECENT_MS {
            proof {
                self.lemma_pow_bounded(seed, self.cooldown_growth_permille, (n - 1) as nat);
            }
            self.grow_pow(base, self.count_growth_permille, n)
        } else {
            base
        }
    }
}

/// The record kept for one transport: the timestamp of the last attempt and
/// a capped count of consecutive failures.
#[derive(Clone, Copy, Debug)]
pub struct OutcomeRecord {
    pub last_attempt_at_ms: u64,
    pub count: u8,
}

/// The outcome registry: a mapping from transport identity to its record,
/// with unique keys and counters capped at `max_count`.
pub struct OutcomeRegistry {
    params: OutcomeParams,
    entries: Vec<(TransportRoute, OutcomeRecord)>,
}

impl OutcomeRegistry {
    /// The entries as a sequence of key/record pairs.
    pub closed spec fn entries_seq(self) -> Seq<(TransportRoute, OutcomeRecord)> {
        self.entries@
    }

    pub closed spec fn spec_params(self) -> OutcomeParams {
        self.params
    }

    /// Well-formedness: parameters are sane, transport keys are unique, and
    /// every counter is capped.
    pub open spec fn wf(self) -> bool {
        &&& self.spec_params().wf()
        &&& forall|i: int, j: int|
            0 <= i < j < self.entries_seq().len() ==> !same_transport(
                self.entries_seq()[i].0,
                self.entries_seq()[j].0,
            )
        &&& forall|i: int|
            0 <= i < self.entries_seq().len() ==> (#[trigger] self.entries_seq()[i]).1.count
                <= self.spec_params().max_count
    }

    /// Whether the registry holds a record for transport `t`.
    pub open spec fn spec_has(self, t: TransportRoute) -> bool {
        exists|i: int|
            0 <= i < self.entries_seq().len() && same_transport(
                (#[trigger] self.entries_seq()[i]).0,
                t,
            )
    }

    /// The index of the record for transport `t`, when one exists.
    pub open spec fn spec_index_of(self, t: TransportRoute) -> int {
        choose|i: int|
            0 <= i < self.entries_seq().len() && same_transport(
                (#[trigger] self.entries_seq()[i]).0,
                t,
            )
    }

    /// The record held for transport `t`, if any.
    pub open spec fn spec_lookup(self, t: TransportRoute) -> Option<OutcomeRecord> {
        if self.spec_has(t) {
            Option::Some(self.entries_seq()[self.spec_index_of(t)].1)
        } else {
            Option::None
        }
    }

    /// The failure count remembered for transport `t`: zero when no record
    /// is held.
    pub open spec fn spec_count_of(self, t: TransportRoute) -> u8 {
        match self.spec_lookup(t) {
            Option::Some(rec) => rec.count,
            Option::None => 0,
        }
    }

    /// The scheduling delay the registry prescribes for transport `t` at
    /// time `now_ms`.
    pub open spec fn spec_delay_for(self, t: TransportRoute, now_ms: u64) -> u64 {
        match self.spec_lookup(t) {
            Option::Some(rec) => {
                let since = if now_ms >= rec.last_attempt_at_ms {
                    (now_ms - rec.last_attempt_at_ms) as u64
                } else {
                    0
                };
                self.spec_params().spec_delay(since, rec.count)
            },
            Option::None => 0,
        }
    }

    /// An empty registry with the given tuning.
    pub fn new(params: OutcomeParams) -> (r: OutcomeRegistry)
        requires
            params.wf(),
        ensures
            r.wf(),
            r.spec_params() == params,
            r.entries_seq().len() == 0,
            forall|t: TransportRoute| r.spec_count_of(t) == 0,
    {
        let r = OutcomeRegistry { params, entries: Vec::new() };
        proof {
            assert(forall|t: TransportRoute| !r.spec_has(t));
        }
        r
    }

    /// Forgets all history: every counter is zero afterwards. Called when
    /// the host's active network interface changes.
    pub fn reset(&mut self, _network_change_at_ms: u64)
        requires
            old(self).wf(),
        ensures
            final(self).wf(),
            final(self).spec_params() == old(self).spec_params(),
            final(self).entries_seq().len() == 0,
            forall|t: TransportRoute| final(self).spec_count_of(t) == 0,
    {
        self.entries.clear();
        proof {
            assert(forall|t: TransportRoute| !self.spec_has(t));
        }
    }

    /// Looks up the record for transport `t`.
    fn find(&self, t: &TransportRoute) -> (r: Option<usize>)
        ensures
            match r {
                Option::Some(i) => i < self.entries_seq().len() && same_transport(
                    self.entries_seq()[i as int].0,
                    *t,
                ),
                Option::None => !self.spec_has(*t),
            },
    {
        let n = self.entries.len();
        let mut i: usize = 0;
        while i < n
            invariant
                n == self.entries_seq().len(),
                i <= n,
                forall|k: int| 0 <= k < i ==> !same_transport((#[trigger] self.entries_seq()[k]).0, *t),
            decreases n - i,
        {
            if self.entries[i].0.transport_eq(t) {
                return Option::Some(i);
            }
            i = i + 1;
        }
        Option::None
    }

    /// The record a single update leaves for its transport.
    pub open spec fn spec_updated_record(
        params: OutcomeParams,
        prev: Option<OutcomeRecord>,
        success: bool,
        at_ms: u64,
    ) -> OutcomeRecord {
        if success {
            OutcomeRecord { last_attempt_at_ms: at_ms, count: 0 }
        } else {
            let prev_count = match prev {
                Option::Some(rec) => rec.count,
                Option::None => 0,
            };
            let bumped = if prev_count >= params.max_count {
                params.max_count
            } else {
                (prev_count + 1) as u8
            };
            OutcomeRecord { last_attempt_at_ms: at_ms, count: bumped }
        }
    }

    /// Records one attempt outcome for transport `t` at `at_ms`: success
    /// clears the failure counter, failure bumps it up to the cap; either
    /// way the timestamp is refreshed. Other transports are untouched.
    pub fn record(&mut self, t: &TransportRoute, success: bool, at_ms: u64)
        requires
            old(self).wf(),
        ensures
            final(self).wf(),
            final(self).spec_params() == old(self).spec_params(),
            final(self).spec_lookup(*t) == Option::Some(
                Self::spec_updated_record(
                    old(self).spec_params(),
                    old(self).spec_lookup(*t),
                    success,
                    at_ms,
                ),
            ),
            forall|t2: TransportRoute|
                !same_transport(t2, *t) ==> final(self).spec_lookup(t2) == old(self).spec_lookup(
                    t2,
                ),
    {
        let ghost old_self = *self;
        match self.find(t) {
            Option::Some(i) => {
                let prev = self.entries[i].1;
                proof {
                    lemma_lookup_at_index(*self, *t, i as int);
                }
                let rec = if success {
                    OutcomeRecord { last_attempt_at_ms: at_ms, count: 0 }
                } else {
                    let bumped = if prev.count >= self.params.max_count {
                        self.params.max_count
                    } else {
                        prev.count + 1
                    };
                    OutcomeRecord { last_attempt_at_ms: at_ms, count: bumped }
                };
                let key = self.entries[i].0.clone();
                self.entries.set(i, (key, rec));
                proof {
                    lemma_record_update_ok(old_self, *self, *t, i as int, rec);
                }
            },
            Option::None => {
                let rec = if success {
                    OutcomeRecord { last_attempt_at_ms: at_ms, count: 0 }
                } else {
                    OutcomeRecord {
                        last_attempt_at_ms: at_ms,
                        count: if self.params.max_count == 0 {
                            0
                        } else {
                            1
                        },
                    }
                };
                self.entries.push((t.clone(), rec));
                proof {
                    lemma_record_push_ok(old_self, *self, *t, rec);
                }
            },
        }
    }

    /// Applies a concluded race's batch of per-transport outcomes, in order.
    pub fn apply_outcome_updates(&mut self, updates: &Vec<(TransportRoute, bool)>, finished_at_ms: u64)
        requires
            old(self).wf(),
        ensures
            final(self).wf(),
            final(self).spec_params() == old(self).spec_params(),
            // The batch is merged: afterwards every transport holds the
            // fold of the batch's outcomes over its old record. A
            // transport the batch never names keeps its record.
            forall|t2: TransportRoute|
                final(self).spec_lookup(t2) == spec_fold_updates(
                    old(self).spec_params(),
                    old(self).spec_lookup(t2),
                    updates@,
                    t2,
                    finished_at_ms,
                ),
    {
        proof {
            assert forall|t2: TransportRoute|
                self.spec_lookup(t2) == spec_fold_updates(
                    old(self).spec_params(),
                    old(self).spec_lookup(t2),
                    updates@.take(0),
                    t2,
                    finished_at_ms,
                ) by {
                assert(updates@.take(0).len() == 0);
            }
        }
        let n = updates.len();
        let mut i: usize = 0;
        while i < n
            invariant
                n == updates@.len(),
                i <= n,
                self.wf(),
                self.spec_params() == old(self).spec_params(),
                forall|t2: TransportRoute|
                    self.spec_lookup(t2) == spec_fold_updates(
                        old(self).spec_params(),
                        old(self).spec_lookup(t2),
                        updates@.take(i as int),
                        t2,
                        finished_at_ms,
                    ),
            decreases n - i,
        {
            let ghost pre = *self;
            self.record(&updates[i].0, updates[i].1, finished_at_ms);
            proof {
                assert forall|t2: TransportRoute|
                    self.spec_lookup(t2) == spec_fold_updates(
                        old(self).spec_params(),
                        old(self).spec_lookup(t2),
                        updates@.take(i + 1),
                        t2,
                        finished_at_ms,
                    ) by {
                    lemma_fold_updates_snoc(
                        old(self).spec_params(),
                        old(self).spec_lookup(t2),
                        updates@.take(i + 1),
                        t2,
                        finished_at_ms,
                    );
                    assert(updates@.take(i + 1).drop_last() =~= updates@.take(i as int));
                    assert(updates@.take(i + 1).last() == updates@[i as int]);
                    if same_transport(updates@[i as int].0, t2) {
                        assert(same_transport(t2, updates@[i as int].0));
                        assert(self.spec_lookup(t2) == self.spec_lookup(updates@[i as int].0))
                            by {
                            lemma_lookup_respects_transport(*self, t2, updates@[i as int].0);
                        }
                        assert(pre.spec_lookup(t2) == pre.spec_lookup(updates@[i as int].0)) by {
                            lemma_lookup_respects_transport(pre, t2, updates@[i as int].0);
                        }
                    } else {
                        assert(!same_transport(t2, updates@[i as int].0));
                    }
                }
            }
            i = i + 1;
        }
        proof {
            assert(updates@.take(n as int) =~= updates@);
        }
    }

    /// The delay the registry prescribes for transport `t` at `now_ms`:
    /// zero for unknown or stale transports, bounded by the configured
    /// maximum always.
    pub fn compute_delay_for(&self, t: &TransportRoute, now_ms: u64) -> (r: u64)
        requires
            self.wf(),
        ensures
            r == self.spec_delay_for(*t, now_ms),
            r <= self.spec_params().max_delay_ms,
    {
        match self.find(t) {
            Option::Some(i) => {
                proof {
                    lemma_lookup_at_index(*self, *t, i as int);
                }
                let rec = self.entries[i].1;
                let since = if now_ms >= rec.last_attempt_at_ms {
                    now_ms - rec.last_attempt_at_ms
                } else {
                    0
                };
                self.params.compute_delay(since, rec.count)
            },
            Option::None => {
                proof {
                    self.params.lemma_delay_bounded(0, 0);
                }
                0
            },
        }
    }

    /// Read access to the tuning parameters.
    pub fn params(&self) -> (r: OutcomeParams)
        ensures
            r == self.spec_params(),
    {
        self.params
    }
}

/// In a well-formed registry, an index whose key matches `t` is the index
/// `spec_lookup` speaks of.
proof fn lemma_lookup_at_index(r: OutcomeRegistry, t: TransportRoute, i: int)
    requires
        r.wf(),
        0 <= i < r.entries_seq().len(),
        same_transport(r.entries_seq()[i].0, t),
    ensures
        r.spec_has(t),
        r.spec_index_of(t) == i,
        r.spec_lookup(t) == Option::Some(r.entries_seq()[i].1),
{
    assert(r.spec_has(t));
    let j = r.spec_index_of(t);
    if i != j {
        if i < j {
            assert(!same_transport(r.entries_seq()[i].0, r.entries_seq()[j].0));
        } else {
            assert(!same_transport(r.entries_seq()[j].0, r.entries_seq()[i].0));
        }
        assert(false);
    }
}

/// Updating the record at `t`'s index leaves a well-formed registry whose
/// lookups change only at `t`.
proof fn lemma_record_update_ok(
    old_r: OutcomeRegistry,
    new_r: OutcomeRegistry,
    t: TransportRoute,
    i: int,
    rec: OutcomeRecord,
)
    requires
        old_r.wf(),
        0 <= i < old_r.entries_seq().len(),
        same_transport(old_r.entries_seq()[i].0, t),
        rec.count <= old_r.spec_params().max_count,
        new_r.spec_params() == old_r.spec_params(),
        new_r.entries_seq().len() == old_r.entries_seq().len(),
        same_transport(new_r.entries_seq()[i].0, old_r.entries_seq()[i].0),
        new_r.entries_seq()[i].1 == rec,
        forall|k: int|
            0 <= k < old_r.entries_seq().len() && k != i ==> new_r.entries_seq()[k]
                == old_r.entries_seq()[k],
    ensures
        new_r.wf(),
        new_r.spec_lookup(t) == Option::Some(rec),
        forall|t2: TransportRoute|
            !same_transport(t2, t) ==> new_r.spec_lookup(t2) == old_r.spec_lookup(t2),
{
    assert forall|a: int, b: int| 0 <= a < b < new_r.entries_seq().len() implies !same_transport(
        new_r.entries_seq()[a].0,
        new_r.entries_seq()[b].0,
    ) by {
        assert(!same_transport(old_r.entries_seq()[a].0, old_r.entries_seq()[b].0));
    }
    assert(same_transport(new_r.entries_seq()[i].0, t));
    lemma_lookup_at_index(new_r, t, i);
    assert forall|t2: TransportRoute| !same_transport(t2, t) implies new_r.spec_lookup(t2)
        == old_r.spec_lookup(t2) by {
        lemma_lookup_same(old_r, new_r, t, i, t2);
    }
}

proof fn lemma_lookup_same(
    old_r: OutcomeRegistry,
    new_r: OutcomeRegistry,
    t: TransportRoute,
    i: int,
    t2: TransportRoute,
)
    requires
        old_r.wf(),
        new_r.wf(),
        0 <= i < old_r.entries_seq().len(),
        new_r.entries_seq().len() == old_r.entries_seq().len(),
        same_transport(old_r.entries_seq()[i].0, t),
        same_transport(new_r.entries_seq()[i].0, t),
        !same_transport(t2, t),
        forall|k: int|
            0 <= k < old_r.entries_seq().len() && k != i ==> new_r.entries_seq()[k]
                == old_r.entries_seq()[k],
    ensures
        new_r.spec_lookup(t2) == old_r.spec_lookup(t2),
{
    if old_r.spec_has(t2) {
        let j = old_r.spec_index_of(t2);
        assert(j != i);
        assert(same_transport(new_r.entries_seq()[j].0, t2));
        lemma_lookup_at_index(new_r, t2, j);
    } else {
        if new_r.spec_has(t2) {
            let j = new_r.spec_index_of(t2);
            assert(j != i);
            assert(same_transport(old_r.entries_seq()[j].0, t2));
            assert(false);
        }
    }
}

/// Pushing a fresh record for an absent transport leaves a well-formed
/// registry whose lookups change only at `t`.
proof fn lemma_record_push_ok(
    old_r: OutcomeRegistry,
    new_r: OutcomeRegistry,
    t: TransportRoute,
    rec: OutcomeRecord,
)
    requires
        old_r.wf(),
        !old_r.spec_has(t),
        rec.count <= old_r.spec_params().max_count,
        new_r.spec_params() == old_r.spec_params(),
        new_r.entries_seq().len() == old_r.entries_seq().len() + 1,
        same_transport(new_r.entries_seq()[old_r.entries_seq().len() as int].0, t),
        new_r.entries_seq()[old_r.entries_seq().len() as int].1 == rec,
        forall|k: int|
            0 <= k < old_r.entries_seq().len() ==> new_r.entries_seq()[k] == old_r.entries_seq()[k],
    ensures
        new_r.wf(),
        new_r.spec_lookup(t) == Option::Some(rec),
        forall|t2: TransportRoute|
            !same_transport(t2, t) ==> new_r.spec_lookup(t2) == old_r.spec_lookup(t2),
{
    let n = old_r.entries_seq().len() as int;
    assert forall|a: int, b: int| 0 <= a < b < new_r.entries_seq().len() implies !same_transport(
        new_r.entries_seq()[a].0,
        new_r.entries_seq()[b].0,
    ) by {
        if b == n {
            if same_transport(new_r.entries_seq()[a].0, new_r.entries_seq()[b].0) {
                assert(same_transport(old_r.entries_seq()[a].0, t));
                assert(old_r.spec_has(t));
                assert(false);
            }
        }
    }
    lemma_lookup_at_index(new_r, t, n);
    assert forall|t2: TransportRoute| !same_transport(t2, t) implies new_r.spec_lookup(t2)
        == old_r.spec_lookup(t2) by {
        if old_r.spec_has(t2) {
            let j = old_r.spec_index_of(t2);
            assert(same_transport(new_r.entries_seq()[j].0, t2));
            lemma_lookup_at_index(new_r, t2, j);
        } else {
            if new_r.spec_has(t2) {
                let j = new_r.spec_index_of(t2);
                assert(j != n);
                assert(same_transport(old_r.entries_seq()[j].0, t2));
                assert(false);
            }
        }
    }
}

} // verus!

verus! {

impl OutcomeRegistry {
    /// A copy of the registry, for a race's read-only snapshot.
    pub fn duplicate(&self) -> (r: OutcomeRegistry)
        ensures
            r.spec_params() == self.spec_params(),
            r.entries_seq() == self.entries_seq(),
    {
        let n = self.entries.len();
        let mut entries: Vec<(TransportRoute, OutcomeRecord)> = Vec::new();
        let mut i: usize = 0;
        while i < n
            invariant
                n == self.entries_seq().len(),
                i <= n,
                entries@.len() == i,
                forall|k: int| 0 <= k < i ==> #[trigger] entries@[k] == self.entries_seq()[k],
            decreases n - i,
        {
            let (route, rec) = &self.entries[i];
            entries.push((route.clone(), *rec));
            i = i + 1;
        }
        let r = OutcomeRegistry { params: self.params, entries };
        proof {
            assert(r.entries_seq() =~= self.entries_seq());
        }
        r
    }
}

} // verus!

verus! {

/// Stale history prescribes no delay: outcomes older than the age cutoff
/// are treated as absent.
pub proof fn lemma_delay_stale_zero(params: OutcomeParams, since_ms: u64, failure_count: u8)
    requires
        since_ms >= params.age_cutoff_ms,
    ensures
        params.spec_delay(since_ms, failure_count) == 0,
{
}

/// In any well-formed registry snapshot, no transport's failure counter
/// exceeds the saturation point.
pub proof fn lemma_registry_count_capped(reg: OutcomeRegistry, t: TransportRoute)
    requires
        reg.wf(),
    ensures
        reg.spec_count_of(t) <= reg.spec_params().max_count,
{
    if reg.spec_has(t) {
        let i = reg.spec_index_of(t);
        assert(reg.entries_seq()[i].1.count <= reg.spec_params().max_count);
    }
}

/// In any well-formed registry snapshot, no transport's prescribed delay
/// exceeds the configured maximum.
pub proof fn lemma_registry_delay_capped(reg: OutcomeRegistry, t: TransportRoute, now_ms: u64)
    requires
        reg.wf(),
    ensures
        reg.spec_delay_for(t, now_ms) <= reg.spec_params().max_delay_ms,
{
    match reg.spec_lookup(t) {
        Option::Some(rec) => {
            let since = if now_ms >= rec.last_attempt_at_ms {
                (now_ms - rec.last_attempt_at_ms) as u64
            } else {
                0
            };
            reg.spec_params().lemma_delay_bounded(since, rec.count);
        },
        Option::None => {},
    }
}

} // verus!

verus! {

/// The record a batch of outcomes leaves for transport `t`: each entry
/// naming `t`'s transport applies `spec_updated_record` in turn; entries
/// for other transports pass by.
pub open spec fn spec_fold_updates(
    params: OutcomeParams,
    prev: Option<OutcomeRecord>,
    updates: Seq<(TransportRoute, bool)>,
    t: TransportRoute,
    at_ms: u64,
) -> Option<OutcomeRecord>
    decreases updates.len(),
{
    if updates.len() == 0 {
        prev
    } else {
        let after_first = if same_transport(updates[0].0, t) {
            Option::Some(
                OutcomeRegistry::spec_updated_record(params, prev, updates[0].1, at_ms),
            )
        } else {
            prev
        };
        spec_fold_updates(params, after_first, updates.drop_first(), t, at_ms)
    }
}

/// Folding one more entry applies it after the rest.
proof fn lemma_fold_updates_snoc(
    params: OutcomeParams,
    prev: Option<OutcomeRecord>,
    updates: Seq<(TransportRoute, bool)>,
    t: TransportRoute,
    at_ms: u64,
)
    requires
        updates.len() > 0,
    ensures
        spec_fold_updates(params, prev, updates, t, at_ms) == (if same_transport(
            updates.last().0,
            t,
        ) {
            Option::Some(
                OutcomeRegistry::spec_updated_record(
                    params,
                    spec_fold_updates(params, prev, updates.drop_last(), t, at_ms),
                    updates.last().1,
                    at_ms,
                ),
            )
        } else {
            spec_fold_updates(params, prev, updates.drop_last(), t, at_ms)
        }),
    decreases updates.len(),
{
    if updates.len() == 1 {
        assert(updates.drop_first() =~= Seq::<(TransportRoute, bool)>::empty());
        assert(updates.drop_last() =~= Seq::<(TransportRoute, bool)>::empty());
        assert(updates.last() == updates[0]);
    } else {
        let after_first = if same_transport(updates[0].0, t) {
            Option::Some(
                OutcomeRegistry::spec_updated_record(params, prev, updates[0].1, at_ms),
            )
        } else {
            prev
        };
        lemma_fold_updates_snoc(params, after_first, updates.drop_first(), t, at_ms);
        assert(updates.drop_first().last() == updates.last());
        assert(updates.drop_first().drop_last() =~= updates.drop_last().drop_first());
        assert(updates.drop_last()[0] == updates[0]);
        assert(updates.drop_last().len() > 0);
    }
}

/// Lookups agree on transports with the same identity.
proof fn lemma_lookup_respects_transport(r: OutcomeRegistry, t1: TransportRoute, t2: TransportRoute)
    requires
        r.wf(),
        same_transport(t1, t2),
    ensures
        r.spec_lookup(t1) == r.spec_lookup(t2),
{
    if r.spec_has(t1) {
        let i = r.spec_index_of(t1);
        assert(same_transport(r.entries_seq()[i].0, t2));
        lemma_lookup_at_index(r, t2, i);
        lemma_lookup_at_index(r, t1, i);
    }
    if r.spec_has(t2) {
        let i = r.spec_index_of(t2);
        assert(same_transport(r.entries_seq()[i].0, t1));
        lemma_lookup_at_index(r, t1, i);
        lemma_lookup_at_index(r, t2, i);
    }
}

} // verus!
