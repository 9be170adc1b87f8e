use txingest_classifier::classification::Classification;
use txingest_classifier::config::{Config, KnownPubkey, LeaderSlotsClassification};
use txingest_classifier::decision::Decision;
use txingest_classifier::key::{IpAddr, Pubkey, Signature};
use txingest_classifier::state::{Event, LeaderStatus, State};
use txingest_classifier::threshold::{Threshold, ThresholdType, ValueOperation};

fn event_ip(d: u8) -> IpAddr {
    IpAddr::V6(0x2001_0db8_0000_0000_0000_0000_0000_0000u128 + d as u128)
}

fn event_config() -> Config {
    Config {
        known_pubkeys: None,
        failed_exceeded_quic_connections: None,
        useless_quic_connection_duration_ms: None,
        useless_quic_connections: None,
        fee_lamports_submitted: None,
        fee_microlamports_per_cu_limit: None,
        fee_microlamports_per_cu_used: None,
        outside_leader_slots: None,
    }
}

fn event_threshold(group: &str) -> Threshold {
    Threshold {
        group_name: Some(group.to_string()),
        group_expiration_seconds: Some(60),
        low_stake: None,
        high_stake: None,
        min_value_count: None,
        value_operation: ValueOperation::Sum,
        threshold_type: ThresholdType::GreaterThanOrEqual,
        value: 1,
        duration_ms: 60_000,
        continue_after_match: None,
    }
}

fn event_useless_state(after: Option<u64>) -> State {
    let mut config = event_config();
    config.useless_quic_connection_duration_ms = after;
    config.useless_quic_connections =
        Some(Classification::new(None, None, None, vec![event_threshold("useless")]));
    assert!(config.validate().is_ok());
    State::new(config)
}

fn event_useless_values(state: &State, ip: IpAddr) -> Vec<(u64, u64)> {
    match state.config.useless_quic_connections.as_ref().unwrap().recent_values.get(&ip) {
        Some(series) => series.iter().map(|tv| (tv.timestamp, tv.value)).collect(),
        None => Vec::new(),
    }
}

#[test]
fn a_connection_without_transactions_is_useless_after_two_seconds() {
    let mut state = event_useless_state(None);
    let mut log = Vec::new();
    state.started(1000, event_ip(1), None, 0, &mut log);
    state.finished(2999, event_ip(1));
    assert_eq!(event_useless_values(&state, event_ip(1)), Vec::<(u64, u64)>::new());
    state.finished(3000, event_ip(1));
    assert_eq!(event_useless_values(&state, event_ip(1)), vec![(3000, 1)]);
    assert_eq!(state.peers.get(&event_ip(1)).unwrap().most_recent_timestamp, 3000);
}

#[test]
fn the_useless_connection_duration_can_be_configured() {
    let mut state = event_useless_state(Some(10));
    let mut log = Vec::new();
    state.started(1000, event_ip(1), None, 0, &mut log);
    state.finished(1009, event_ip(1));
    assert_eq!(event_useless_values(&state, event_ip(1)), Vec::<(u64, u64)>::new());
    state.finished(1010, event_ip(1));
    assert_eq!(event_useless_values(&state, event_ip(1)), vec![(1010, 1)]);
}

#[test]
fn a_connection_that_brought_a_transaction_is_not_useless() {
    let mut state = event_useless_state(None);
    let mut log = Vec::new();
    state.started(1000, event_ip(1), None, 0, &mut log);
    state.votetx(1500, event_ip(1));
    state.finished(9000, event_ip(1));
    assert_eq!(event_useless_values(&state, event_ip(1)), Vec::<(u64, u64)>::new());
    state.started(1000, event_ip(2), None, 0, &mut log);
    state.usertx(9100, event_ip(2), Signature { bytes: [3u8; 64] });
    state.finished(20_000, event_ip(2));
    assert_eq!(event_useless_values(&state, event_ip(2)), Vec::<(u64, u64)>::new());
}

#[test]
fn events_of_unknown_peers_are_dropped() {
    let mut state = event_useless_state(None);
    state.finished(5000, event_ip(1));
    state.votetx(5001, event_ip(1));
    assert_eq!(state.peers.len(), 0);
    assert_eq!(event_useless_values(&state, event_ip(1)), Vec::<(u64, u64)>::new());
    state.usertx(5002, event_ip(1), Signature { bytes: [3u8; 64] });
    assert_eq!(state.peers.len(), 0);
    assert_eq!(state.current_tx.len(), 1);
    assert_eq!(state.clock.most_recent_timestamp, 5002);
}

#[test]
fn a_started_connection_enters_the_peer_and_its_stake() {
    let mut state = State::new(event_config());
    let mut log = Vec::new();
    state.started(1000, event_ip(1), None, 5, &mut log);
    state.started(900, event_ip(1), None, 6, &mut log);
    state.started(2000, event_ip(1), None, 7, &mut log);
    let peer = state.peers.get(&event_ip(1)).unwrap();
    assert_eq!((peer.first_timestamp, peer.most_recent_timestamp, peer.tx_submitted), (1000, 2000, 0));
    assert_eq!(state.stakes.get(&event_ip(1)), Some(&7));
    assert!(log.is_empty());
}

#[test]
fn an_exceeded_attempt_moves_the_clock_twice() {
    let mut state = State::new(event_config());
    let mut log = Vec::new();
    state.started(1000, event_ip(1), None, 5, &mut log);
    for _ in 0..49 {
        state.exceeded(1000, event_ip(1), None, 5, &mut log);
    }
    assert_eq!(state.clock.most_recent_timestamp, 1000);
    assert_eq!(state.clock.event_count, 98);
    state.exceeded(1000, event_ip(1), None, 5, &mut log);
    assert_eq!(state.clock.most_recent_timestamp, 1001);
    assert_eq!(state.clock.event_count, 0);
    assert_eq!(state.peers.get(&event_ip(1)).unwrap().most_recent_timestamp, 1001);
}

#[test]
fn the_last_fee_of_a_transaction_is_kept() {
    let mut state = State::new(event_config());
    let s = Signature { bytes: [4u8; 64] };
    state.fee(10, s, 1, 1, 1);
    assert_eq!(state.current_tx.len(), 0);
    state.usertx(20, event_ip(1), s);
    state.fee(30, s, 10, 10, 100);
    state.fee(40, s, 20, 20, 200);
    let tx = state.current_tx.get(&s).unwrap();
    assert_eq!(tx.fee.map(|f| (f.total, f.cu_limit, f.cu_used)), Some((200, 20, 20)));
    assert_eq!(state.clock.most_recent_timestamp, 40);
}

#[test]
fn forwarded_and_dropped_transactions_change_nothing() {
    let mut state = State::new(event_config());
    let s = Signature { bytes: [4u8; 64] };
    state.usertx(20, event_ip(1), s);
    state.forwarded(5000, s);
    state.badfee(6000, s);
    assert_eq!(state.clock.most_recent_timestamp, 20);
    assert_eq!(state.current_tx.len(), 1);
}

#[test]
fn an_event_that_cannot_be_taken_in_is_not_accepted() {
    let mut state = State::new(event_config());
    let s = Signature { bytes: [4u8; 64] };
    assert!(state.accepts(&Event::Fee { timestamp: 1, signature: s, cu_limit: 0, cu_used: 0, fee: 1 }));
    state.usertx(0, event_ip(7), s);
    assert!(state.accepts(&Event::Fee { timestamp: 1, signature: s, cu_limit: 0, cu_used: 1, fee: 1 }));
    assert!(state.accepts(&Event::Fee { timestamp: 1, signature: s, cu_limit: 1, cu_used: 0, fee: 1 }));
    assert!(state.accepts(&Event::Fee { timestamp: 1, signature: s, cu_limit: 1, cu_used: 1, fee: u64::MAX }));
    assert!(state.accepts(&Event::Failed { timestamp: u64::MAX, peer_addr: event_ip(1) }));
    let mut log = Vec::new();
    state.started(u64::MAX, event_ip(1), None, 0, &mut log);
    for _ in 0..98 {
        state.failed(0, event_ip(1));
    }
    assert!(state.accepts(&Event::Failed { timestamp: 0, peer_addr: event_ip(1) }));
    assert!(!state.accepts(&Event::Exceeded { timestamp: 0, peer_addr: event_ip(1), peer_pubkey: None, stake: 0 }));
    assert!(state.can_tick(7));
    state.failed(0, event_ip(1));
    assert!(!state.accepts(&Event::Failed { timestamp: 0, peer_addr: event_ip(1) }));
    assert!(!state.accepts(&Event::VoteTx { timestamp: 0, peer_addr: event_ip(1) }));
    assert!(!state.can_tick(7));
    assert!(state.accepts(&Event::BeginLeader { timestamp: 0 }));
    assert!(state.accepts(&Event::Deprecated));
}

#[test]
fn a_tick_whose_memberships_would_end_too_late_cannot_be_done() {
    let mut config = event_config();
    config.failed_exceeded_quic_connections =
        Some(Classification::new(None, None, None, vec![event_threshold("g")]));
    assert!(config.validate().is_ok());
    let state = State::new(config);
    assert!(state.can_tick(u64::MAX - 60_000));
    assert!(!state.can_tick(u64::MAX - 59_999));
}

#[test]
fn without_leader_slots_every_announcement_declares_the_leader_state() {
    let mut state = State::new(event_config());
    let mut log = Vec::new();
    state.will_be_leader(1, 200, &mut log);
    state.end_leader(2, &mut log);
    state.begin_leader(3, &mut log);
    assert_eq!(log, vec![Decision::Leader, Decision::Leader, Decision::Leader]);
    assert_eq!(state.leader_status, LeaderStatus::Leader);
    assert_eq!(state.clock.most_recent_timestamp, 0);
}

#[test]
fn with_leader_slots_only_changes_are_declared() {
    let mut config = event_config();
    config.outside_leader_slots =
        Some(LeaderSlotsClassification { group_name: Some("outside".to_string()), leader_slots: 10 });
    assert!(config.validate().is_ok());
    let mut state = State::new(config);
    let mut log = Vec::new();
    state.will_be_leader(1, 10, &mut log);
    assert_eq!(log, vec![Decision::NotLeader]);
    assert_eq!(state.leader_status, LeaderStatus::NotLeader);
    state.will_be_leader(2, 11, &mut log);
    state.end_leader(3, &mut log);
    assert_eq!(log, vec![Decision::NotLeader]);
    state.will_be_leader(4, 9, &mut log);
    assert_eq!(log, vec![Decision::NotLeader, Decision::Leader]);
    state.begin_leader(5, &mut log);
    state.will_be_leader(6, 0, &mut log);
    assert_eq!(log, vec![Decision::NotLeader, Decision::Leader]);
    state.end_leader(7, &mut log);
    assert_eq!(log, vec![Decision::NotLeader, Decision::Leader, Decision::NotLeader]);
}

#[test]
fn the_tick_turns_away_from_the_leader_state_where_slots_are_watched() {
    let mut config = event_config();
    config.outside_leader_slots = Some(LeaderSlotsClassification { group_name: None, leader_slots: 10 });
    assert!(config.validate().is_ok());
    let mut state = State::new(config);
    let mut log = Vec::new();
    state.periodic(1000, &mut log);
    assert_eq!(log, vec![Decision::NotLeader]);
    assert_eq!(state.leader_status, LeaderStatus::NotLeader);
    let mut state = State::new(event_config());
    let mut log = Vec::new();
    state.handle(Event::BeginLeader { timestamp: 1 }, &mut log);
    state.handle(Event::WillBeLeader { timestamp: 1, slots: 3 }, &mut log);
    state.handle(Event::EndLeader { timestamp: 1 }, &mut log);
    assert_eq!(log.len(), 3);
}

#[test]
fn the_address_of_a_known_identity_joins_its_group() {
    let known = solana_sdk::pubkey::Pubkey::new_from_array([
        1, 2, 3, 4, 5, 6, 7, 8, 9, 10, 11, 12, 13, 14, 15, 16, 17, 18, 19, 20, 21, 22, 23, 24, 25,
        26, 27, 28, 29, 30, 31, 32,
    ]);
    let other = solana_sdk::pubkey::Pubkey::new_from_array([9u8; 32]);
    let mut config = event_config();
    config.known_pubkeys = Some(vec![
        KnownPubkey { pubkey: "not a key".to_string(), group_name: Some("never".to_string()), group_expiration_seconds: None },
        KnownPubkey { pubkey: known.to_string(), group_name: None, group_expiration_seconds: None },
        KnownPubkey { pubkey: "11111111111111111111111111111111".to_string(), group_name: Some("system".to_string()), group_expiration_seconds: Some(2) },
        KnownPubkey { pubkey: other.to_string(), group_name: Some("first".to_string()), group_expiration_seconds: Some(1) },
        KnownPubkey { pubkey: other.to_string(), group_name: Some("second".to_string()), group_expiration_seconds: Some(3) },
    ]);
    assert!(config.validate().is_ok());
    let mut state = State::new(config);
    assert_eq!(state.pubkey_classifications.len(), 3);
    let rule = state.pubkey_classifications.get(&Pubkey { bytes: known.to_bytes() }).unwrap();
    assert_eq!((rule.group_name.as_str(), rule.group_expiration_seconds), ("known_pubkeys", 86_400));
    let rule = state.pubkey_classifications.get(&Pubkey { bytes: [9u8; 32] }).unwrap();
    assert_eq!((rule.group_name.as_str(), rule.group_expiration_seconds), ("second", 3));
    assert!(state.pubkey_classifications.get(&Pubkey { bytes: [8u8; 32] }).is_none());

    let mut log = Vec::new();
    let ip = event_ip(1);
    state.started(1000, ip, Some(Pubkey { bytes: [8u8; 32] }), 0, &mut log);
    assert!(log.is_empty());
    state.started(2000, ip, Some(Pubkey { bytes: known.to_bytes() }), 0, &mut log);
    assert_eq!(
        log,
        vec![Decision::Add { ip, group: "known_pubkeys".to_string(), expiration: 86_402_000 }]
    );
    log.clear();
    state.started(2000, ip, Some(Pubkey { bytes: known.to_bytes() }), 0, &mut log);
    assert!(log.is_empty());
    state.exceeded(3000, ip, Some(Pubkey { bytes: known.to_bytes() }), 0, &mut log);
    assert_eq!(
        log,
        vec![Decision::Update { ip, group: "known_pubkeys".to_string(), expiration: 86_403_000 }]
    );
    log.clear();
    state.started(4000, event_ip(2), Some(Pubkey { bytes: [0u8; 32] }), 0, &mut log);
    assert_eq!(
        log,
        vec![Decision::Add { ip: event_ip(2), group: "system".to_string(), expiration: 6000 }]
    );
    log.clear();
    state.periodic(6000, &mut log);
    assert_eq!(log, vec![Decision::NotLeader]);
    log.clear();
    state.periodic(6001, &mut log);
    assert_eq!(log, vec![Decision::Remove { ip: event_ip(2), group: "system".to_string() }]);
    assert_eq!(state.pubkey_groups.expiry_of(&"system".to_string(), &event_ip(2)), None);
    assert_eq!(state.pubkey_groups.expiry_of(&"known_pubkeys".to_string(), &ip), Some(86_403_000));
    assert!(state.accepts(&Event::Started { timestamp: 7000, peer_addr: ip, peer_pubkey: Some(Pubkey { bytes: [0u8; 32] }), stake: 0 }));
    assert!(!state.accepts(&Event::Started { timestamp: u64::MAX - 1999, peer_addr: ip, peer_pubkey: Some(Pubkey { bytes: [0u8; 32] }), stake: 0 }));
    assert!(state.accepts(&Event::Started { timestamp: u64::MAX - 2000, peer_addr: ip, peer_pubkey: Some(Pubkey { bytes: [0u8; 32] }), stake: 0 }));
    assert!(state.accepts(&Event::Started { timestamp: u64::MAX - 1999, peer_addr: ip, peer_pubkey: Some(Pubkey { bytes: [8u8; 32] }), stake: 0 }));
}

fn event_fee_state(lamports: bool, per_limit: bool, per_used: bool) -> State {
    let mut wide = event_threshold("payers");
    wide.duration_ms = 600_000;
    wide.value = u64::MAX;
    let make = |wanted: bool| {
        if wanted {
            Some(Classification::new(
                None,
                None,
                None,
                vec![Threshold {
                    group_name: wide.group_name.clone(),
                    group_expiration_seconds: wide.group_expiration_seconds,
                    low_stake: None,
                    high_stake: None,
                    min_value_count: None,
                    value_operation: ValueOperation::Sum,
                    threshold_type: ThresholdType::GreaterThan,
                    value: wide.value,
                    duration_ms: wide.duration_ms,
                    continue_after_match: None,
                }],
            ))
        } else {
            None
        }
    };
    let mut config = event_config();
    config.fee_lamports_submitted = make(lamports);
    config.fee_microlamports_per_cu_limit = make(per_limit);
    config.fee_microlamports_per_cu_used = make(per_used);
    assert!(config.validate().is_ok());
    State::new(config)
}

fn event_fee_values(c: &Option<Classification>, ip: IpAddr) -> Vec<(u64, u64)> {
    match c.as_ref().unwrap().recent_values.get(&ip) {
        Some(series) => series.iter().map(|tv| (tv.timestamp, tv.value)).collect(),
        None => Vec::new(),
    }
}

#[test]
fn any_fee_is_attached_and_counted_in_lamports() {
    let mut state = event_fee_state(true, false, false);
    let s = Signature { bytes: [5u8; 64] };
    state.usertx(100, event_ip(1), s);
    state.fee(200, s, 0, 0, u64::MAX);
    let tx = state.current_tx.get(&s).unwrap();
    assert_eq!(tx.fee.map(|f| (f.total, f.cu_limit, f.cu_used)), Some((u64::MAX, 0, 0)));
    assert!(state.can_tick(200_000));
    let mut log = Vec::new();
    state.periodic(200_000, &mut log);
    assert_eq!(state.current_tx.len(), 0);
    assert_eq!(event_fee_values(&state.config.fee_lamports_submitted, event_ip(1)), vec![(100, u64::MAX)]);
}

#[test]
fn a_fee_without_compute_units_stops_the_tick_that_divides_by_them() {
    let s = Signature { bytes: [5u8; 64] };
    let mut state = event_fee_state(true, true, false);
    state.usertx(100, event_ip(1), s);
    state.fee(200, s, 10, 0, 7);
    assert!(state.can_tick(200_000));
    let mut log = Vec::new();
    state.periodic(200_000, &mut log);
    assert_eq!(event_fee_values(&state.config.fee_microlamports_per_cu_limit, event_ip(1)), vec![(100, 700)]);

    let mut state = event_fee_state(true, true, true);
    state.usertx(100, event_ip(1), s);
    state.fee(200, s, 10, 0, 7);
    assert!(state.can_tick(120_100));
    assert!(!state.can_tick(120_101));
    assert!(!state.can_tick(200_000));
    state.fee(300, s, 10, 1, 7);
    assert!(state.can_tick(200_000));

    let mut state = event_fee_state(false, true, false);
    state.usertx(100, event_ip(1), s);
    state.fee(200, s, 999, 1, u64::MAX);
    assert!(!state.can_tick(200_000));
    state.fee(200, s, 1000, 1, u64::MAX);
    assert!(state.can_tick(200_000));
}
