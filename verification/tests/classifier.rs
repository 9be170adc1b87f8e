use txingest_classifier::classification::{Classification, TimestampedValue};
use txingest_classifier::config::Config;
use txingest_classifier::decision::{Decision, MembershipChange};
use txingest_classifier::group::Groups;
use txingest_classifier::key::{IpAddr, Signature};
use txingest_classifier::state::{Event, LeaderStatus, State};
use txingest_classifier::table::Table;
use txingest_classifier::threshold::{Threshold, ThresholdType, ValueOperation};

fn flow_ip(a: u8, b: u8, c: u8, d: u8) -> IpAddr {
    IpAddr::V4(u32::from_be_bytes([a, b, c, d]))
}

fn flow_threshold(group: &str, threshold_type: ThresholdType, value: u64) -> Threshold {
    Threshold {
        group_name: Some(group.to_string()),
        group_expiration_seconds: Some(60),
        low_stake: None,
        high_stake: None,
        min_value_count: None,
        value_operation: ValueOperation::Sum,
        threshold_type,
        value,
        duration_ms: 6000,
        continue_after_match: None,
    }
}

fn flow_empty_config() -> Config {
    Config {
        known_pubkeys: None,
        failed_exceeded_quic_connections: None,
        useless_quic_connection_duration_ms: None,
        useless_quic_connections: None,
        fee_lamports_submitted: None,
        fee_microlamports_per_cu_limit: None,
        fee_microlamports_per_cu_used: None,
        outside_leader_slots: None,
    }
}

fn flow_failed_state(threshold: Threshold) -> State {
    let mut config = flow_empty_config();
    config.failed_exceeded_quic_connections =
        Some(Classification::new(None, None, None, vec![threshold]));
    assert!(config.validate().is_ok());
    State::new(config)
}

fn flow_values(state: &State, which: usize, ip: IpAddr) -> Vec<(u64, u64)> {
    let classification = match which {
        0 => state.config.fee_lamports_submitted.as_ref(),
        1 => state.config.fee_microlamports_per_cu_limit.as_ref(),
        _ => state.config.fee_microlamports_per_cu_used.as_ref(),
    }
    .unwrap();
    match classification.recent_values.get(&ip) {
        Some(series) => series.iter().map(|tv| (tv.timestamp, tv.value)).collect(),
        None => Vec::new(),
    }
}

#[test]
fn eleven_failures_exceed_a_sum_of_ten() {
    let mut state = flow_failed_state(flow_threshold(
        "bad_quic",
        ThresholdType::GreaterThan,
        10,
    ));
    let ip = flow_ip(1, 1, 1, 1);
    for t in 1000..=1010u64 {
        state.failed(t, ip);
    }
    let mut log = Vec::new();
    assert!(state.can_tick(6000));
    state.periodic(6000, &mut log);
    assert_eq!(
        log,
        vec![
            Decision::NotLeader,
            Decision::Add { ip, group: "bad_quic".to_string(), expiration: 66000 },
        ]
    );
    assert_eq!(state.classification_groups.expiry_of(&"bad_quic".to_string(), &ip), Some(66000));
}

#[test]
fn ten_failures_do_not_exceed_a_sum_of_ten() {
    let mut state = flow_failed_state(flow_threshold(
        "bad_quic",
        ThresholdType::GreaterThan,
        10,
    ));
    let ip = flow_ip(1, 1, 1, 1);
    for t in 1000..1010u64 {
        state.failed(t, ip);
    }
    let mut log = Vec::new();
    state.periodic(6000, &mut log);
    assert_eq!(log, vec![Decision::NotLeader]);
    assert_eq!(state.classification_groups.expiry_of(&"bad_quic".to_string(), &ip), None);
}

#[test]
fn ten_failures_reach_a_sum_of_ten() {
    let mut state = flow_failed_state(flow_threshold(
        "bad_quic",
        ThresholdType::GreaterThanOrEqual,
        10,
    ));
    let ip = flow_ip(1, 1, 1, 1);
    for t in 1000..1010u64 {
        state.failed(t, ip);
    }
    let mut log = Vec::new();
    state.periodic(6000, &mut log);
    assert_eq!(
        log,
        vec![
            Decision::NotLeader,
            Decision::Add { ip, group: "bad_quic".to_string(), expiration: 66000 },
        ]
    );
}

#[test]
fn stake_below_the_band_gates_the_threshold() {
    let mut threshold = flow_threshold("bad_quic", ThresholdType::GreaterThan, 10);
    threshold.low_stake = Some(1000);
    let mut state = flow_failed_state(threshold);
    let ip = flow_ip(2, 2, 2, 2);
    let mut log = Vec::new();
    state.started(1000, ip, None, 500, &mut log);
    for t in 1001..=1020u64 {
        state.failed(t, ip);
    }
    state.periodic(2000, &mut log);
    assert_eq!(log, vec![Decision::NotLeader]);
    assert_eq!(state.classification_groups.expiry_of(&"bad_quic".to_string(), &ip), None);

    log.clear();
    state.exceeded(3000, ip, None, 2000, &mut log);
    for t in 3001..=3010u64 {
        state.failed(t, ip);
    }
    state.periodic(4000, &mut log);
    assert_eq!(
        log,
        vec![Decision::Add { ip, group: "bad_quic".to_string(), expiration: 64000 }]
    );
}

#[test]
fn only_the_first_submitter_is_credited_with_the_fee() {
    let mut config = flow_empty_config();
    let mut wide = flow_threshold("payers", ThresholdType::GreaterThan, 1_000_000_000);
    wide.duration_ms = 600_000;
    let make = |t: &Threshold| {
        Classification::new(
            None,
            None,
            None,
            vec![Threshold {
                group_name: t.group_name.clone(),
                group_expiration_seconds: t.group_expiration_seconds,
                low_stake: t.low_stake,
                high_stake: t.high_stake,
                min_value_count: t.min_value_count,
                value_operation: t.value_operation,
                threshold_type: t.threshold_type,
                value: t.value,
                duration_ms: t.duration_ms,
                continue_after_match: t.continue_after_match,
            }],
        )
    };
    config.fee_lamports_submitted = Some(make(&wide));
    config.fee_microlamports_per_cu_limit = Some(make(&wide));
    config.fee_microlamports_per_cu_used = Some(make(&wide));
    assert!(config.validate().is_ok());
    let mut state = State::new(config);
    let a = flow_ip(10, 0, 0, 1);
    let b = flow_ip(10, 0, 0, 2);
    let s = Signature { bytes: [7u8; 64] };
    state.usertx(100, a, s);
    state.usertx(200, b, s);
    state.usertx(300, a, s);
    state.fee(400, s, 1000, 800, 5000);
    assert_eq!(state.current_tx.len(), 1);
    let tx = state.current_tx.get(&s).unwrap();
    assert_eq!(tx.submissions.len(), 2);

    let mut log = Vec::new();
    state.periodic(200_000, &mut log);
    assert_eq!(state.current_tx.len(), 0);
    assert_eq!(flow_values(&state, 0, a), vec![(100, 5000)]);
    assert_eq!(flow_values(&state, 1, a), vec![(100, 5000)]);
    assert_eq!(flow_values(&state, 2, a), vec![(100, 6250)]);
    assert_eq!(flow_values(&state, 0, b), vec![(200, 0)]);
    assert_eq!(flow_values(&state, 1, b), vec![(200, 0)]);
    assert_eq!(flow_values(&state, 2, b), vec![(200, 0)]);
}

#[test]
fn a_transaction_stays_in_the_ledger_for_two_minutes() {
    let mut config = flow_empty_config();
    let mut wide = flow_threshold("payers", ThresholdType::GreaterThan, 1_000_000_000);
    wide.duration_ms = 600_000;
    config.fee_lamports_submitted = Some(Classification::new(None, None, None, vec![wide]));
    assert!(config.validate().is_ok());
    let mut state = State::new(config);
    let a = flow_ip(10, 0, 0, 1);
    let s = Signature { bytes: [9u8; 64] };
    state.usertx(1000, a, s);
    let mut log = Vec::new();
    state.periodic(121_000, &mut log);
    assert_eq!(state.current_tx.len(), 1);
    assert_eq!(flow_values(&state, 0, a), Vec::<(u64, u64)>::new());
    state.periodic(121_001, &mut log);
    assert_eq!(state.current_tx.len(), 0);
    assert_eq!(flow_values(&state, 0, a), vec![(1000, 0)]);
}

#[test]
fn a_membership_lasts_until_its_expiry() {
    let ip = flow_ip(3, 3, 3, 3);
    let name = "g".to_string();
    let mut groups = Groups::new();
    assert_eq!(groups.add(&name, ip, 10_000), MembershipChange::Added);
    let mut log = Vec::new();
    groups.periodic(9_999, &mut log);
    assert!(log.is_empty());
    assert_eq!(groups.expiry_of(&name, &ip), Some(10_000));
    groups.periodic(10_000, &mut log);
    assert!(log.is_empty());
    groups.periodic(10_001, &mut log);
    assert_eq!(log, vec![Decision::Remove { ip, group: "g".to_string() }]);
    assert_eq!(groups.expiry_of(&name, &ip), None);
}

#[test]
fn an_added_member_with_a_later_expiry_survives() {
    let ip = flow_ip(3, 3, 3, 3);
    let name = "g".to_string();
    let mut groups = Groups::new();
    assert_eq!(groups.add(&name, ip, 10_000), MembershipChange::Added);
    let mut log = Vec::new();
    groups.periodic(5_000, &mut log);
    assert_eq!(groups.add(&name, ip, 20_000), MembershipChange::Updated);
    groups.periodic(10_001, &mut log);
    assert!(log.is_empty());
    assert_eq!(groups.expiry_of(&name, &ip), Some(20_000));
    groups.periodic(20_001, &mut log);
    assert_eq!(log, vec![Decision::Remove { ip, group: "g".to_string() }]);
}

fn flow_two_thresholds(evaluate_all: Option<bool>) -> (Groups, Vec<Decision>) {
    let first = flow_threshold("first", ThresholdType::GreaterThanOrEqual, 1);
    let second = flow_threshold("second", ThresholdType::GreaterThanOrEqual, 1);
    let mut classification = Classification::new(None, None, evaluate_all, vec![first, second]);
    assert!(classification.validate("metric").is_ok());
    let ip = flow_ip(4, 4, 4, 4);
    classification.add_value(ip, 1000, 1);
    let stakes: Table<IpAddr, u64> = Table::new();
    let mut groups = Groups::new();
    let mut log = Vec::new();
    classification.periodic(&stakes, &mut groups, 2000, &mut log);
    (groups, log)
}

#[test]
fn the_first_threshold_that_holds_stops_the_evaluation() {
    let ip = flow_ip(4, 4, 4, 4);
    let (groups, log) = flow_two_thresholds(None);
    assert_eq!(
        log,
        vec![Decision::Add { ip, group: "first".to_string(), expiration: 62_000 }]
    );
    assert_eq!(groups.expiry_of(&"first".to_string(), &ip), Some(62_000));
    assert_eq!(groups.expiry_of(&"second".to_string(), &ip), None);
    let (groups, _) = flow_two_thresholds(Some(false));
    assert_eq!(groups.expiry_of(&"second".to_string(), &ip), None);
}

#[test]
fn every_threshold_is_evaluated_where_asked() {
    let ip = flow_ip(4, 4, 4, 4);
    let (groups, log) = flow_two_thresholds(Some(true));
    assert_eq!(
        log,
        vec![
            Decision::Add { ip, group: "first".to_string(), expiration: 62_000 },
            Decision::Add { ip, group: "second".to_string(), expiration: 62_000 },
        ]
    );
    assert_eq!(groups.expiry_of(&"first".to_string(), &ip), Some(62_000));
    assert_eq!(groups.expiry_of(&"second".to_string(), &ip), Some(62_000));
}

#[test]
fn a_threshold_that_continues_lets_the_next_one_run() {
    let mut first = flow_threshold("first", ThresholdType::GreaterThanOrEqual, 1);
    first.continue_after_match = Some(true);
    let second = flow_threshold("second", ThresholdType::GreaterThanOrEqual, 1);
    let third = flow_threshold("third", ThresholdType::GreaterThanOrEqual, 1);
    let mut classification = Classification::new(None, None, None, vec![first, second, third]);
    assert!(classification.validate("metric").is_ok());
    let ip = flow_ip(4, 4, 4, 4);
    classification.add_value(ip, 1000, 1);
    let stakes: Table<IpAddr, u64> = Table::new();
    let mut groups = Groups::new();
    let mut log = Vec::new();
    classification.periodic(&stakes, &mut groups, 2000, &mut log);
    assert_eq!(groups.expiry_of(&"first".to_string(), &ip), Some(62_000));
    assert_eq!(groups.expiry_of(&"second".to_string(), &ip), Some(62_000));
    assert_eq!(groups.expiry_of(&"third".to_string(), &ip), None);
}

#[test]
fn the_tick_turns_an_unknown_leader_state() {
    let mut state = State::new(flow_empty_config());
    assert_eq!(state.leader_status, LeaderStatus::Unknown);
    let mut log = Vec::new();
    state.periodic(1000, &mut log);
    assert_eq!(log, vec![Decision::NotLeader]);
    assert_eq!(state.leader_status, LeaderStatus::NotLeader);
    log.clear();
    state.periodic(2000, &mut log);
    assert!(log.is_empty());
    assert_eq!(state.leader_status, LeaderStatus::NotLeader);
    state.begin_leader(2500, &mut log);
    assert_eq!(log, vec![Decision::Leader]);
    assert_eq!(state.leader_status, LeaderStatus::Leader);
    log.clear();
    state.periodic(3000, &mut log);
    assert!(log.is_empty());
    assert_eq!(state.leader_status, LeaderStatus::Leader);
}

#[test]
fn events_are_handed_to_their_operations() {
    let mut state = flow_failed_state(flow_threshold(
        "bad_quic",
        ThresholdType::GreaterThan,
        2,
    ));
    let ip = flow_ip(5, 5, 5, 5);
    let mut log = Vec::new();
    let events = [
        Event::Started { timestamp: 10, peer_addr: ip, peer_pubkey: None, stake: 7 },
        Event::Failed { timestamp: 11, peer_addr: ip },
        Event::Exceeded { timestamp: 12, peer_addr: ip, peer_pubkey: None, stake: 8 },
        Event::Failed { timestamp: 13, peer_addr: ip },
        Event::VoteTx { timestamp: 14, peer_addr: ip },
        Event::UserTx { timestamp: 15, peer_addr: ip, signature: Signature { bytes: [1u8; 64] } },
        Event::Forwarded { timestamp: 16, signature: Signature { bytes: [1u8; 64] } },
        Event::BadFee { timestamp: 17, signature: Signature { bytes: [1u8; 64] } },
        Event::Fee {
            timestamp: 18,
            signature: Signature { bytes: [1u8; 64] },
            cu_limit: 10,
            cu_used: 5,
            fee: 100,
        },
        Event::Finished { timestamp: 19, peer_addr: ip },
        Event::Deprecated,
    ];
    for event in events.iter() {
        assert!(state.accepts(event));
        state.handle(*event, &mut log);
    }
    assert!(log.is_empty());
    assert_eq!(state.clock.most_recent_timestamp, 19);
    let peer = state.peers.get(&ip).unwrap();
    assert_eq!(peer.first_timestamp, 10);
    assert_eq!(peer.most_recent_timestamp, 19);
    assert_eq!(peer.tx_submitted, 2);
    assert_eq!(state.stakes.get(&ip), Some(&8));
    let series = state
        .config
        .failed_exceeded_quic_connections
        .as_ref()
        .unwrap()
        .recent_values
        .get(&ip)
        .unwrap();
    let seen: Vec<TimestampedValue> = series.iter().copied().collect();
    assert_eq!(
        seen,
        vec![
            TimestampedValue { timestamp: 11, value: 1 },
            TimestampedValue { timestamp: 12, value: 1 },
            TimestampedValue { timestamp: 13, value: 1 },
        ]
    );
    let tx = state.current_tx.get(&Signature { bytes: [1u8; 64] }).unwrap();
    assert_eq!(tx.fee.map(|f| (f.total, f.cu_limit, f.cu_used)), Some((100, 10, 5)));
    state.periodic(1000, &mut log);
    assert_eq!(
        log,
        vec![
            Decision::NotLeader,
            Decision::Add { ip, group: "bad_quic".to_string(), expiration: 61_000 },
        ]
    );
}
