use connect_core::outcome::{OutcomeParams, OutcomeRegistry};
use connect_core::route::{TcpTarget, TransportRoute};

fn outcome_params() -> OutcomeParams {
    OutcomeParams {
        age_cutoff_ms: 300_000,
        cooldown_growth_permille: 2000,
        count_growth_permille: 10_000,
        max_count: 5,
        max_delay_ms: 30_000,
    }
}

fn transport_named(sni: &str) -> TransportRoute {
    TransportRoute {
        sni: sni.to_owned(),
        target: TcpTarget { host: sni.to_owned(), port: 443 },
        proxied: false,
    }
}

#[test]
fn delay_is_zero_for_stale_history() {
    let p = outcome_params();
    assert_eq!(p.compute_delay(300_000, 5), 0);
    assert_eq!(p.compute_delay(u64::MAX, 5), 0);
}

#[test]
fn delay_is_zero_for_clean_record() {
    let p = outcome_params();
    assert_eq!(p.compute_delay(5_000, 0), 0);
}

#[test]
fn delay_exact_values_on_doubling_curve() {
    let p = outcome_params();
    // Seed of 1 s, doubled per failure beyond the first; 5 s since the
    // last attempt, so the secondary factor does not apply.
    assert_eq!(p.compute_delay(5_000, 1), 1_000);
    assert_eq!(p.compute_delay(5_000, 2), 2_000);
    assert_eq!(p.compute_delay(5_000, 3), 4_000);
    assert_eq!(p.compute_delay(5_000, 4), 8_000);
}

#[test]
fn delay_never_exceeds_max_delay() {
    let p = outcome_params();
    for count in 0..=u8::MAX {
        assert!(p.compute_delay(5_000, count) <= p.max_delay_ms);
        assert!(p.compute_delay(0, count) <= p.max_delay_ms);
    }
}

#[test]
fn delay_monotone_in_failure_count() {
    let p = outcome_params();
    let mut last = 0;
    for count in 0..20 {
        let d = p.compute_delay(5_000, count);
        assert!(d >= last);
        last = d;
    }
}

#[test]
fn very_recent_failures_grow_faster() {
    let p = outcome_params();
    // 1 failure, 100 ms ago: seed of 1 s times the x10 secondary factor.
    assert_eq!(p.compute_delay(100, 1), 10_000);
    assert!(p.compute_delay(100, 2) >= p.compute_delay(5_000, 2));
}

#[test]
fn registry_records_failures_and_successes() {
    let mut reg = OutcomeRegistry::new(outcome_params());
    let t = transport_named("direct-host");
    assert_eq!(reg.compute_delay_for(&t, 10_000), 0);

    reg.record(&t, false, 10_000);
    assert!(reg.compute_delay_for(&t, 15_000) > 0);

    reg.record(&t, true, 20_000);
    assert_eq!(reg.compute_delay_for(&t, 25_000), 0);
}

#[test]
fn registry_counter_saturates_at_max_count() {
    let p = outcome_params();
    let mut reg = OutcomeRegistry::new(p);
    let t = transport_named("direct-host");
    let mut at = 10_000u64;
    for _ in 0..20 {
        reg.record(&t, false, at);
        at += 5_000;
    }
    // Count capped at max_count, so the delay equals the capped curve
    // point and the bound holds.
    let d = reg.compute_delay_for(&t, at);
    assert_eq!(d, p.compute_delay(5_000, p.max_count));
    assert!(d <= p.max_delay_ms);
}

#[test]
fn registry_reset_zeroes_every_counter() {
    let mut reg = OutcomeRegistry::new(outcome_params());
    let t1 = transport_named("one");
    let t2 = transport_named("two");
    reg.record(&t1, false, 10_000);
    reg.record(&t2, false, 10_000);
    reg.reset(11_000);
    assert_eq!(reg.compute_delay_for(&t1, 11_500), 0);
    assert_eq!(reg.compute_delay_for(&t2, 11_500), 0);
}

#[test]
fn registry_updates_apply_in_one_batch() {
    let mut reg = OutcomeRegistry::new(outcome_params());
    let t1 = transport_named("one");
    let t2 = transport_named("two");
    let updates = vec![(t1.clone(), false), (t2.clone(), true)];
    reg.apply_outcome_updates(&updates, 10_000);
    assert!(reg.compute_delay_for(&t1, 10_500) > 0);
    assert_eq!(reg.compute_delay_for(&t2, 10_500), 0);
}

#[test]
fn distinct_transports_do_not_share_records() {
    let mut reg = OutcomeRegistry::new(outcome_params());
    let t1 = transport_named("one");
    let t2 = transport_named("two");
    reg.record(&t1, false, 10_000);
    assert_eq!(reg.compute_delay_for(&t2, 10_500), 0);
}

#[test]
fn later_updates_in_a_batch_override_earlier_ones() {
    let mut reg = OutcomeRegistry::new(outcome_params());
    let t = transport_named("flaky");
    // A failure followed by a success in the same batch leaves a clean
    // record; the other order leaves one counted failure.
    reg.apply_outcome_updates(&vec![(t.clone(), false), (t.clone(), true)], 10_000);
    assert_eq!(reg.compute_delay_for(&t, 10_500), 0);

    reg.apply_outcome_updates(&vec![(t.clone(), true), (t.clone(), false)], 20_000);
    assert!(reg.compute_delay_for(&t, 20_500) > 0);
}
