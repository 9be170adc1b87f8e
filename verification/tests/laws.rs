use std::collections::VecDeque;
use txingest_classifier::classification::{Classification, TimestampedValue};
use txingest_classifier::clock::{tick_due, Clock};
use txingest_classifier::config::{Config, Metric};
use txingest_classifier::decision::{Decision, MembershipChange};
use txingest_classifier::group::{Group, Groups};
use txingest_classifier::key::{IpAddr, Key, Pubkey, Signature};
use txingest_classifier::state::{Fee, State, Tx};
use txingest_classifier::table::Table;
use txingest_classifier::threshold::{Threshold, ThresholdType, ValueOperation};

fn law_ip(d: u8) -> IpAddr {
    IpAddr::V4(u32::from_be_bytes([9, 9, 9, d]))
}

fn law_threshold(op: ValueOperation, threshold_type: ThresholdType, value: u64) -> Threshold {
    Threshold {
        group_name: Some("g".to_string()),
        group_expiration_seconds: Some(1),
        low_stake: None,
        high_stake: None,
        min_value_count: None,
        value_operation: op,
        threshold_type,
        value,
        duration_ms: 100,
        continue_after_match: None,
    }
}

fn law_series(values: &[(u64, u64)]) -> VecDeque<TimestampedValue> {
    values.iter().map(|&(timestamp, value)| TimestampedValue { timestamp, value }).collect()
}

fn law_holds(t: &Threshold, stake: Option<u64>, now: u64, values: &[(u64, u64)]) -> bool {
    let ip = law_ip(1);
    let mut stakes: Table<IpAddr, u64> = Table::new();
    if let Some(stake) = stake {
        stakes.insert(ip, stake);
    }
    let mut groups = Groups::new();
    let mut log = Vec::new();
    let stop = t.stop_after_exceeded(&stakes, now, &ip, &law_series(values), &mut groups, &mut log);
    let joined = groups.expiry_of(&"g".to_string(), &ip).is_some();
    assert_eq!(joined, !log.is_empty());
    assert_eq!(stop, joined && t.continue_after_match != Some(true));
    if joined {
        assert_eq!(groups.expiry_of(&"g".to_string(), &ip), Some(now + 1000));
    }
    joined
}

fn law_empty_config() -> Config {
    Config {
        known_pubkeys: None,
        failed_exceeded_quic_connections: None,
        useless_quic_connection_duration_ms: None,
        useless_quic_connections: None,
        fee_lamports_submitted: None,
        fee_microlamports_per_cu_limit: None,
        fee_microlamports_per_cu_used: None,
        outside_leader_slots: None,
    }
}

#[test]
fn the_clock_never_runs_backwards() {
    let mut clock = Clock::new();
    let reported = [50u64, 40, 60, 60, 10, 61, 0, 1000, 999];
    let mut last = 0;
    for r in reported {
        let now = clock.advance(r);
        assert!(now >= last);
        assert!(now >= r);
        last = now;
    }
    assert_eq!(last, 1000);
}

#[test]
fn the_hundredth_event_moves_a_standing_clock() {
    let mut clock = Clock::new();
    assert_eq!(clock.advance(500), 500);
    for _ in 0..99 {
        assert_eq!(clock.peek(500), 500);
        assert_eq!(clock.advance(500), 500);
    }
    assert_eq!(clock.peek(400), 501);
    assert_eq!(clock.advance(400), 501);
    assert_eq!(clock.event_count, 0);
    for _ in 0..99 {
        assert_eq!(clock.advance(501), 501);
    }
    assert_eq!(clock.advance(3), 502);
    assert_eq!(clock.advance(503), 503);
    assert_eq!(clock.event_count, 0);
}

#[test]
fn a_clock_at_the_last_instant_is_exhausted_by_the_hundredth_event() {
    let mut clock = Clock::new();
    assert_eq!(clock.advance(u64::MAX), u64::MAX);
    for _ in 0..99 {
        assert!(!clock.is_exhausted(5));
        assert_eq!(clock.advance(5), u64::MAX);
    }
    assert!(clock.is_exhausted(5));
    assert!(clock.is_exhausted(u64::MAX));
}

#[test]
fn a_tick_is_due_after_a_second() {
    assert!(!tick_due(999, 0));
    assert!(tick_due(1000, 0));
    assert!(!tick_due(5999, 5000));
    assert!(tick_due(6000, 5000));
    assert!(!tick_due(u64::MAX, u64::MAX));
    assert!(!tick_due(3, u64::MAX - 2));
}

#[test]
fn old_values_are_dropped_and_empty_series_forgotten() {
    let mut t = law_threshold(ValueOperation::Sum, ThresholdType::GreaterThan, 1_000);
    t.duration_ms = 100;
    let mut c = Classification::new(None, None, None, vec![t]);
    assert!(c.validate("metric").is_ok());
    c.add_value(law_ip(1), 10, 1);
    c.add_value(law_ip(2), 899, 1);
    c.add_value(law_ip(1), 900, 2);
    c.add_value(law_ip(3), 950, 3);
    c.add_value(law_ip(1), 950, 4);
    c.expire_values(1000);
    assert_eq!(c.recent_values.len(), 2);
    assert_eq!(c.recent_values.get(&law_ip(2)), None);
    assert_eq!(c.recent_values.get(&law_ip(1)), Some(&law_series(&[(900, 2), (950, 4)])));
    assert_eq!(c.recent_values.get(&law_ip(3)), Some(&law_series(&[(950, 3)])));
    for entry in c.recent_values.entries.iter() {
        assert!(!entry.value.is_empty());
        assert!(entry.value.iter().all(|tv| tv.timestamp >= 900));
    }
    c.expire_values(50);
    assert_eq!(c.recent_values.len(), 2);
}

#[test]
fn only_leading_old_values_are_dropped() {
    let t = law_threshold(ValueOperation::Sum, ThresholdType::GreaterThan, 1_000);
    let mut c = Classification::new(None, None, None, vec![t]);
    assert!(c.validate("metric").is_ok());
    c.add_value(law_ip(1), 950, 1);
    c.add_value(law_ip(1), 10, 2);
    c.expire_values(1000);
    assert_eq!(c.recent_values.get(&law_ip(1)), Some(&law_series(&[(950, 1), (10, 2)])));
}

#[test]
fn an_added_expiry_is_never_lowered() {
    let ip = law_ip(1);
    let mut group = Group::new("g".to_string());
    assert_eq!(group.add(ip, 500), MembershipChange::Added);
    assert_eq!(group.add(ip, 400), MembershipChange::Unchanged);
    assert_eq!(group.expiry_of(&ip), Some(500));
    assert_eq!(group.add(ip, 500), MembershipChange::Unchanged);
    assert_eq!(group.add(ip, 501), MembershipChange::Updated);
    assert_eq!(group.expiry_of(&ip), Some(501));
    assert_eq!(group.add(law_ip(2), 1), MembershipChange::Added);
    assert_eq!(group.expiry_of(&ip), Some(501));
    assert_eq!(group.periodic(2), vec![law_ip(2)]);
    assert_eq!(group.expiry_of(&ip), Some(501));
    assert_eq!(group.expiry_of(&law_ip(2)), None);
}

#[test]
fn memberships_end_group_by_group_in_joining_order() {
    let mut groups = Groups::new();
    let a = "a".to_string();
    let b = "b".to_string();
    groups.add(&a, law_ip(1), 10);
    groups.add(&b, law_ip(2), 10);
    groups.add(&a, law_ip(3), 99);
    groups.add(&a, law_ip(4), 5);
    groups.add(&b, law_ip(1), 7);
    let mut log = Vec::new();
    groups.periodic(11, &mut log);
    assert_eq!(
        log,
        vec![
            Decision::Remove { ip: law_ip(1), group: "a".to_string() },
            Decision::Remove { ip: law_ip(4), group: "a".to_string() },
            Decision::Remove { ip: law_ip(2), group: "b".to_string() },
            Decision::Remove { ip: law_ip(1), group: "b".to_string() },
        ]
    );
    assert_eq!(groups.expiry_of(&a, &law_ip(3)), Some(99));
    assert_eq!(groups.expiry_of(&b, &law_ip(3)), None);
}

#[test]
fn a_threshold_holds_only_inside_its_stake_band() {
    let mut t = law_threshold(ValueOperation::Sum, ThresholdType::GreaterThan, 0);
    t.low_stake = Some(10);
    t.high_stake = Some(20);
    let values = [(1000u64, 5u64)];
    assert!(!law_holds(&t, Some(9), 1000, &values));
    assert!(law_holds(&t, Some(10), 1000, &values));
    assert!(law_holds(&t, Some(20), 1000, &values));
    assert!(!law_holds(&t, Some(21), 1000, &values));
    assert!(!law_holds(&t, None, 1000, &values));
}

#[test]
fn an_upper_stake_bound_alone_gates_and_unknown_stake_is_zero() {
    let mut t = law_threshold(ValueOperation::Sum, ThresholdType::GreaterThan, 0);
    t.high_stake = Some(0);
    let values = [(1000u64, 5u64)];
    assert!(law_holds(&t, None, 1000, &values));
    assert!(law_holds(&t, Some(0), 1000, &values));
    assert!(!law_holds(&t, Some(1), 1000, &values));
    let mut t = law_threshold(ValueOperation::Sum, ThresholdType::GreaterThan, 0);
    t.low_stake = Some(1);
    assert!(!law_holds(&t, None, 1000, &values));
}

#[test]
fn a_sum_is_taken_over_the_window() {
    let t = law_threshold(ValueOperation::Sum, ThresholdType::GreaterThanOrEqual, 7);
    let values = [(899u64, 100u64), (900, 3), (950, 4)];
    assert!(law_holds(&t, None, 1000, &values));
    let t = law_threshold(ValueOperation::Sum, ThresholdType::GreaterThan, 7);
    assert!(!law_holds(&t, None, 1000, &values));
    assert!(law_holds(&t, None, 999, &values));
    assert_eq!(t.sum_and_count(1000, &law_series(&values)), (7, 2));
    assert_eq!(t.sum_and_count(999, &law_series(&values)), (107, 3));
    assert_eq!(t.sum_and_count(50, &law_series(&values)), (107, 3));
    let big = [(1000u64, u64::MAX), (1000, u64::MAX)];
    assert_eq!(t.sum_and_count(1000, &law_series(&big)), (2 * (u64::MAX as u128), 2));
    assert!(law_holds(&t, None, 1000, &big));
}

#[test]
fn an_average_is_rounded_down() {
    let values = [(900u64, 3u64), (950, 4)];
    let t = law_threshold(ValueOperation::Average, ThresholdType::GreaterThanOrEqual, 3);
    assert!(law_holds(&t, None, 1000, &values));
    let t = law_threshold(ValueOperation::Average, ThresholdType::GreaterThan, 3);
    assert!(!law_holds(&t, None, 1000, &values));
    let t = law_threshold(ValueOperation::Average, ThresholdType::LessThanOrEqual, 3);
    assert!(law_holds(&t, None, 1000, &values));
    let t = law_threshold(ValueOperation::Average, ThresholdType::LessThan, 4);
    assert!(law_holds(&t, None, 1000, &values));
    let t = law_threshold(ValueOperation::Average, ThresholdType::LessThan, 3);
    assert!(!law_holds(&t, None, 1000, &values));
}

#[test]
fn the_average_of_no_values_never_holds() {
    let old = [(10u64, 3u64)];
    let t = law_threshold(ValueOperation::Average, ThresholdType::LessThan, 5);
    assert!(!law_holds(&t, None, 1000, &old));
    assert!(!law_holds(&t, None, 1000, &[]));
    let t = law_threshold(ValueOperation::Sum, ThresholdType::LessThan, 5);
    assert!(law_holds(&t, None, 1000, &old));
}

#[test]
fn too_few_values_never_hold() {
    let values = [(900u64, 3u64), (950, 4), (10, 100)];
    let mut t = law_threshold(ValueOperation::Sum, ThresholdType::GreaterThan, 0);
    t.min_value_count = Some(3);
    assert!(!law_holds(&t, None, 1000, &values));
    t.min_value_count = Some(2);
    assert!(law_holds(&t, None, 1000, &values));
    t.min_value_count = Some(0);
    assert!(law_holds(&t, None, 1000, &values));
}

#[test]
fn a_threshold_that_continues_does_not_stop() {
    let mut t = law_threshold(ValueOperation::Sum, ThresholdType::GreaterThan, 0);
    t.continue_after_match = Some(true);
    assert!(law_holds(&t, None, 1000, &[(1000, 1)]));
    t.continue_after_match = Some(false);
    assert!(law_holds(&t, None, 1000, &[(1000, 1)]));
}

#[test]
fn a_membership_that_would_end_too_late_does_not_fit() {
    let mut t = law_threshold(ValueOperation::Sum, ThresholdType::GreaterThan, 0);
    t.group_expiration_seconds = Some(2);
    assert!(t.fits_at(u64::MAX - 2000));
    assert!(!t.fits_at(u64::MAX - 1999));
    t.group_expiration_seconds = Some(u64::MAX);
    assert!(!t.fits_at(0));
}

#[test]
fn submitting_again_changes_nothing() {
    let mut tx = Tx::new(100, law_ip(1));
    tx.submitted(200, law_ip(2));
    let before: Vec<(u64, IpAddr)> = tx.submissions.iter().map(|s| (s.timestamp, s.submitter)).collect();
    tx.submitted(300, law_ip(1));
    tx.submitted(400, law_ip(2));
    let after: Vec<(u64, IpAddr)> = tx.submissions.iter().map(|s| (s.timestamp, s.submitter)).collect();
    assert_eq!(before, after);
    assert_eq!(after, vec![(100, law_ip(1)), (200, law_ip(2))]);
    assert!(tx.has_submitter(&law_ip(1)));
    assert!(tx.has_submitter(&law_ip(2)));
    assert!(!tx.has_submitter(&law_ip(3)));
    tx.submitted(500, law_ip(3));
    assert!(tx.has_submitter(&law_ip(3)));
    assert_eq!(tx.submissions.len(), 3);
}

#[test]
fn attributions_credit_the_first_submitter_alone() {
    let mut tx = Tx::new(100, law_ip(1));
    tx.submitted(200, law_ip(2));
    tx.submitted(300, law_ip(3));
    let mut out = Vec::new();
    tx.attribute(&mut out);
    assert_eq!(out.len(), 3);
    assert!(out.iter().all(|a| a.fee == Fee { total: 0, cu_limit: 1, cu_used: 1 }));
    tx.fee = Some(Fee { total: 9000, cu_limit: 3, cu_used: 2 });
    let mut out = Vec::new();
    tx.attribute(&mut out);
    assert_eq!(out[0].fee, Fee { total: 9000, cu_limit: 3, cu_used: 2 });
    assert_eq!((out[0].submitter, out[0].timestamp), (law_ip(1), 100));
    assert_eq!(out[1].fee, Fee::zero());
    assert_eq!((out[1].submitter, out[1].timestamp), (law_ip(2), 200));
    assert_eq!(out[2].fee, Fee::zero());
    assert_eq!((out[2].submitter, out[2].timestamp), (law_ip(3), 300));
}

#[test]
fn a_fee_is_measured_per_compute_unit() {
    let limit = Metric::FeeMicrolamportsPerCuLimit;
    let used = Metric::FeeMicrolamportsPerCuUsed;
    let fee = Fee { total: 5000, cu_limit: 1000, cu_used: 800 };
    assert!(fee.is_measurable_for(limit) && fee.is_measurable_for(used));
    assert_eq!(fee.measure(Metric::FeeLamportsSubmitted), 5000);
    assert_eq!(fee.measure(limit), 5000);
    assert_eq!(fee.measure(used), 6250);
    let fee = Fee { total: 7, cu_limit: 3000, cu_used: 2000 };
    assert_eq!(fee.measure(limit), 2);
    assert_eq!(fee.measure(used), 3);
    assert_eq!(fee.measure(Metric::UselessQuicConnections), 0);
    let no_limit = Fee { total: 1, cu_limit: 0, cu_used: 1 };
    assert!(!no_limit.is_measurable_for(limit));
    assert!(no_limit.is_measurable_for(used));
    assert!(no_limit.is_measurable_for(Metric::FeeLamportsSubmitted));
    assert_eq!(no_limit.measure(used), 1000);
    assert_eq!(no_limit.measure(Metric::FeeLamportsSubmitted), 1);
    let unused = Fee { total: 1, cu_limit: 1, cu_used: 0 };
    assert!(unused.is_measurable_for(limit));
    assert!(!unused.is_measurable_for(used));
    let over = Fee { total: u64::MAX, cu_limit: 999, cu_used: 1000 };
    assert!(!over.is_measurable_for(limit));
    assert!(over.is_measurable_for(used));
    assert!(over.is_measurable_for(Metric::FeeLamportsSubmitted));
    let large = Fee { total: u64::MAX, cu_limit: 1000, cu_used: 2000 };
    assert!(large.is_measurable_for(limit) && large.is_measurable_for(used));
    assert_eq!(large.measure(limit), u64::MAX);
    assert_eq!(large.measure(used), u64::MAX / 2);
    assert!(Fee::zero().is_measurable_for(limit) && Fee::zero().is_measurable_for(used));
    assert_eq!(Fee::zero().measure(used), 0);
}

#[test]
fn peers_not_seen_for_three_days_are_forgotten_with_their_stakes() {
    let mut state = State::new(law_empty_config());
    let mut log = Vec::new();
    let day = 86_400_000u64;
    state.started(1000, law_ip(1), None, 11, &mut log);
    state.started(2000, law_ip(2), None, 22, &mut log);
    state.started(3000, law_ip(3), None, 33, &mut log);
    state.votetx(3 * day, law_ip(2));
    state.periodic(3 * day + 1000, &mut log);
    assert_eq!(state.peers.len(), 3);
    assert_eq!(state.stakes.len(), 3);
    state.periodic(3 * day + 1001, &mut log);
    assert_eq!(state.peers.len(), 2);
    assert!(state.peers.get(&law_ip(1)).is_none());
    assert_eq!(state.stakes.get(&law_ip(1)), None);
    assert_eq!(state.stakes.get(&law_ip(2)), Some(&22));
    assert_eq!(state.stakes.get(&law_ip(3)), Some(&33));
    state.periodic(3 * day + 3001, &mut log);
    assert_eq!(state.peers.len(), 1);
    assert_eq!(state.stakes.len(), 1);
    assert_eq!(state.peers.get(&law_ip(2)).map(|p| p.most_recent_timestamp), Some(3 * day));
    for entry in state.peers.entries.iter() {
        assert!(entry.value.most_recent_timestamp + 3 * day >= 3 * day + 3001);
    }
}

#[test]
fn a_table_keeps_the_order_of_insertion() {
    let mut table: Table<IpAddr, u64> = Table::new();
    table.insert(law_ip(3), 30);
    table.insert(law_ip(1), 10);
    table.insert(law_ip(2), 20);
    table.insert(law_ip(1), 11);
    assert_eq!(table.len(), 3);
    assert_eq!(table.find(&law_ip(1)), Some(1));
    assert_eq!(table.get(&law_ip(1)), Some(&11));
    assert!(table.contains_key(&law_ip(2)));
    assert_eq!(table.entry_at(0).key, law_ip(3));
    *table.value_mut_at(2) = 21;
    assert_eq!(table.remove(&law_ip(3)), Some(30));
    assert_eq!(table.remove(&law_ip(3)), None);
    assert_eq!(table.find(&law_ip(1)), Some(0));
    assert_eq!(table.get(&law_ip(2)), Some(&21));
    table.insert(law_ip(4), 40);
    table.remove_all(&vec![law_ip(1), law_ip(9), law_ip(4)]);
    assert_eq!(table.len(), 1);
    let rest = table.take_entries();
    assert_eq!(rest.len(), 1);
    assert_eq!((rest[0].key, rest[0].value), (law_ip(2), 21));
    assert_eq!(table.len(), 0);
}

#[test]
fn keys_are_the_same_where_their_bytes_are() {
    let mut a = [0u8; 64];
    let mut b = [0u8; 64];
    assert!(Signature { bytes: a }.same(&Signature { bytes: b }));
    b[63] = 1;
    assert!(!Signature { bytes: a }.same(&Signature { bytes: b }));
    a[63] = 1;
    a[0] = 2;
    assert!(!Signature { bytes: a }.same(&Signature { bytes: b }));
    let mut p = [5u8; 32];
    assert!(Pubkey { bytes: p }.same(&Pubkey { bytes: [5u8; 32] }));
    p[31] = 6;
    assert!(!Pubkey { bytes: p }.same(&Pubkey { bytes: [5u8; 32] }));
    assert!(IpAddr::V4(1).same(&IpAddr::V4(1)));
    assert!(!IpAddr::V4(1).same(&IpAddr::V6(1)));
    assert!(!IpAddr::V6(1).same(&IpAddr::V6(2)));
}
