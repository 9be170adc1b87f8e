use txingest_classifier::classification::Classification;
use txingest_classifier::config::{Config, LeaderSlotsClassification, Metric};
use txingest_classifier::error::{ConfigError, Fault};
use txingest_classifier::threshold::{Threshold, ThresholdType, ValueOperation};

fn plain_threshold() -> Threshold {
    Threshold {
        group_name: None,
        group_expiration_seconds: None,
        low_stake: None,
        high_stake: None,
        min_value_count: None,
        value_operation: ValueOperation::Sum,
        threshold_type: ThresholdType::GreaterThan,
        value: 10,
        duration_ms: 6000,
        continue_after_match: None,
    }
}

fn plain_config() -> Config {
    Config {
        known_pubkeys: None,
        failed_exceeded_quic_connections: None,
        useless_quic_connection_duration_ms: None,
        useless_quic_connections: None,
        fee_lamports_submitted: None,
        fee_microlamports_per_cu_limit: None,
        fee_microlamports_per_cu_used: None,
        outside_leader_slots: None,
    }
}

fn rejected(section: &str, threshold: Option<usize>, fault: Fault) -> Result<(), ConfigError> {
    Err(ConfigError { section: section.to_string(), threshold, fault })
}

#[test]
fn a_threshold_inherits_group_and_expiration() {
    let mut t = plain_threshold();
    assert_eq!(t.validate("metric", 0, "inherited", 77), Ok(()));
    assert_eq!(t.group_name, Some("inherited".to_string()));
    assert_eq!(t.group_expiration_seconds, Some(77));
    assert_eq!(t.duration_ms, 6000);
    assert_eq!(t.value, 10);
}

#[test]
fn a_threshold_keeps_its_own_group_and_expiration() {
    let mut t = plain_threshold();
    t.group_name = Some("own".to_string());
    t.group_expiration_seconds = Some(5);
    assert_eq!(t.validate("metric", 0, "inherited", 77), Ok(()));
    assert_eq!(t.group_name, Some("own".to_string()));
    assert_eq!(t.group_expiration_seconds, Some(5));
}

#[test]
fn a_threshold_with_high_stake_below_low_stake_is_rejected() {
    let mut t = plain_threshold();
    t.low_stake = Some(10);
    t.high_stake = Some(9);
    t.duration_ms = 0;
    assert_eq!(
        t.validate("metric", 3, "inherited", 77),
        rejected("metric", Some(3), Fault::HighStakeBelowLowStake)
    );
    assert_eq!(t.group_name, None);
    let mut t = plain_threshold();
    t.low_stake = Some(10);
    t.high_stake = Some(10);
    assert_eq!(t.validate("metric", 3, "inherited", 77), Ok(()));
}

#[test]
fn a_threshold_with_zero_duration_is_rejected() {
    let mut t = plain_threshold();
    t.duration_ms = 0;
    assert_eq!(
        t.validate("metric", 1, "", 77),
        rejected("metric", Some(1), Fault::ZeroDuration)
    );
}

#[test]
fn a_threshold_with_an_empty_group_name_is_rejected() {
    let mut t = plain_threshold();
    t.group_name = Some(String::new());
    assert_eq!(
        t.validate("metric", 2, "inherited", 0),
        rejected("metric", Some(2), Fault::EmptyGroupName)
    );
    let mut t = plain_threshold();
    assert_eq!(
        t.validate("metric", 2, "", 77),
        rejected("metric", Some(2), Fault::EmptyGroupName)
    );
}

#[test]
fn a_threshold_with_zero_expiration_is_rejected() {
    let mut t = plain_threshold();
    t.group_expiration_seconds = Some(0);
    assert_eq!(
        t.validate("metric", 4, "inherited", 77),
        rejected("metric", Some(4), Fault::ZeroGroupExpiration)
    );
    let mut t = plain_threshold();
    assert_eq!(
        t.validate("metric", 4, "inherited", 0),
        rejected("metric", Some(4), Fault::ZeroGroupExpiration)
    );
}

#[test]
fn a_classification_without_thresholds_is_rejected() {
    let mut c = Classification::new(Some(String::new()), Some(0), None, vec![]);
    assert_eq!(c.validate("metric"), rejected("metric", None, Fault::NoThresholds));
}

#[test]
fn a_classification_with_an_empty_group_name_is_rejected() {
    let mut own = plain_threshold();
    own.group_name = Some("own".to_string());
    let mut c = Classification::new(Some(String::new()), Some(0), None, vec![own]);
    assert_eq!(c.validate("metric"), rejected("metric", None, Fault::EmptyGroupName));
}

#[test]
fn a_classification_with_zero_expiration_is_rejected() {
    let mut own = plain_threshold();
    own.group_expiration_seconds = Some(5);
    let mut c = Classification::new(None, Some(0), None, vec![own]);
    assert_eq!(c.validate("metric"), rejected("metric", None, Fault::ZeroGroupExpiration));
}

#[test]
fn the_first_threshold_at_fault_is_reported() {
    let good = plain_threshold();
    let mut zero = plain_threshold();
    zero.duration_ms = 0;
    let mut band = plain_threshold();
    band.low_stake = Some(2);
    band.high_stake = Some(1);
    let mut c = Classification::new(None, None, None, vec![good, zero, band]);
    assert_eq!(c.validate("metric"), rejected("metric", Some(1), Fault::ZeroDuration));
    assert_eq!(c.thresholds[0].group_name, Some("metric".to_string()));
    assert_eq!(c.thresholds[1].group_name, None);
}

#[test]
fn a_classification_fills_in_its_name_and_one_day() {
    let mut longer = plain_threshold();
    longer.duration_ms = 9000;
    let mut own = plain_threshold();
    own.group_name = Some("own".to_string());
    own.group_expiration_seconds = Some(3);
    let mut c = Classification::new(None, None, None, vec![plain_threshold(), longer, own]);
    assert_eq!(c.validate("metric"), Ok(()));
    assert_eq!(c.max_duration_ms, 9000);
    assert_eq!(c.thresholds[0].group_name, Some("metric".to_string()));
    assert_eq!(c.thresholds[0].group_expiration_seconds, Some(86_400));
    assert_eq!(c.thresholds[2].group_name, Some("own".to_string()));
    assert_eq!(c.thresholds[2].group_expiration_seconds, Some(3));
    let mut c = Classification::new(Some("shared".to_string()), Some(9), None, vec![plain_threshold()]);
    assert_eq!(c.validate("metric"), Ok(()));
    assert_eq!(c.thresholds[0].group_name, Some("shared".to_string()));
    assert_eq!(c.thresholds[0].group_expiration_seconds, Some(9));
}

#[test]
fn leader_slots_are_at_most_those_of_an_epoch() {
    let ok = LeaderSlotsClassification { group_name: Some("outside".to_string()), leader_slots: 432_000 };
    assert_eq!(ok.validate(), Ok(()));
    let unnamed = LeaderSlotsClassification { group_name: None, leader_slots: 0 };
    assert_eq!(unnamed.validate(), Ok(()));
    let many = LeaderSlotsClassification { group_name: Some("outside".to_string()), leader_slots: 432_001 };
    assert_eq!(many.validate(), rejected("outside_leader_slots", None, Fault::TooManyLeaderSlots));
    let blank = LeaderSlotsClassification { group_name: Some(String::new()), leader_slots: 432_001 };
    assert_eq!(blank.validate(), rejected("outside_leader_slots", None, Fault::EmptyGroupName));
}

#[test]
fn an_empty_configuration_is_valid() {
    let mut config = plain_config();
    assert_eq!(config.validate(), Ok(()));
}

#[test]
fn a_configuration_names_each_classification_by_its_key() {
    let mut config = plain_config();
    config.failed_exceeded_quic_connections = Some(Classification::new(None, None, None, vec![plain_threshold()]));
    config.useless_quic_connections = Some(Classification::new(None, None, None, vec![plain_threshold()]));
    config.fee_lamports_submitted = Some(Classification::new(None, None, None, vec![plain_threshold()]));
    config.fee_microlamports_per_cu_limit = Some(Classification::new(None, None, None, vec![plain_threshold()]));
    config.fee_microlamports_per_cu_used = Some(Classification::new(None, None, None, vec![plain_threshold()]));
    config.useless_quic_connection_duration_ms = Some(1);
    config.outside_leader_slots = Some(LeaderSlotsClassification { group_name: None, leader_slots: 4 });
    assert_eq!(config.validate(), Ok(()));
    let name = |c: &Option<Classification>| c.as_ref().unwrap().thresholds[0].group_name.clone().unwrap();
    assert_eq!(name(&config.failed_exceeded_quic_connections), "failed_exceeded_quic_connections");
    assert_eq!(name(&config.useless_quic_connections), "useless_quic_connections");
    assert_eq!(name(&config.fee_lamports_submitted), "fee_lamports_submitted");
    assert_eq!(name(&config.fee_microlamports_per_cu_limit), "fee_microlamports_per_cu_limit");
    assert_eq!(name(&config.fee_microlamports_per_cu_used), "fee_microlamports_per_cu_used");
    assert_eq!(Metric::FailedExceededQuicConnections.name(), "failed_exceeded_quic_connections");
    assert_eq!(Metric::FeeMicrolamportsPerCuUsed.name(), "fee_microlamports_per_cu_used");
}

#[test]
fn a_zero_useless_connection_duration_is_rejected() {
    let mut config = plain_config();
    config.useless_quic_connection_duration_ms = Some(0);
    config.useless_quic_connections = Some(Classification::new(None, None, None, vec![]));
    assert_eq!(
        config.validate(),
        rejected("useless_quic_connection_duration_ms", None, Fault::ZeroUselessConnectionDuration)
    );
}

#[test]
fn the_parts_of_a_configuration_are_checked_in_order() {
    let mut config = plain_config();
    config.fee_microlamports_per_cu_used = Some(Classification::new(None, None, None, vec![]));
    config.outside_leader_slots = Some(LeaderSlotsClassification { group_name: None, leader_slots: 500_000 });
    assert_eq!(
        config.validate(),
        rejected("fee_microlamports_per_cu_used", None, Fault::NoThresholds)
    );
    let mut config = plain_config();
    config.outside_leader_slots = Some(LeaderSlotsClassification { group_name: None, leader_slots: 500_000 });
    assert_eq!(
        config.validate(),
        rejected("outside_leader_slots", None, Fault::TooManyLeaderSlots)
    );
    let mut config = plain_config();
    let mut zero = plain_threshold();
    zero.duration_ms = 0;
    config.failed_exceeded_quic_connections = Some(Classification::new(None, None, None, vec![zero]));
    config.useless_quic_connection_duration_ms = Some(0);
    assert_eq!(
        config.validate(),
        rejected("failed_exceeded_quic_connections", Some(0), Fault::ZeroDuration)
    );
}
