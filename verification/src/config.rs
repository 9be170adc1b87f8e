//! The configuration: which classifications are applied, and the checks
//! that a configuration has to pass before it is used.

use vstd::prelude::*;
use crate::classification::{recent, recorded, timely, Classification, TimestampedValue};
use crate::error::{ConfigError, ConfigErrorView, Fault};
use crate::key::IpAddr;

verus! {

/// The largest number of leader slots that can be configured: the slots of an epoch.
pub const MAX_LEADER_SLOTS: u64 = 432_000;

/// After how many milliseconds a connection without transactions counts as
/// useless, where the configuration does not say.
pub const DEFAULT_USELESS_QUIC_CONNECTION_DURATION_MS: u64 = 2_000;

/// The metrics that can be classified.
#[derive(Clone, Copy, Debug, PartialEq, Eq, Structural)]
pub enum Metric {
    /// Connection attempts that failed or exceeded a limit.
    FailedExceededQuicConnections,
    /// Connections that were closed without having brought a transaction.
    UselessQuicConnections,
    /// The fee of each submitted transaction, in lamports.
    FeeLamportsSubmitted,
    /// The fee per compute unit of the declared limit, in microlamports.
    FeeMicrolamportsPerCuLimit,
    /// The fee per compute unit used, in microlamports.
    FeeMicrolamportsPerCuUsed,
}

impl Metric {
    /// The configuration key of the metric, which is also the name of the
    /// group that its classification uses where it configures none.
    pub open spec fn key(self) -> Seq<char> {
        match self {
            Metric::FailedExceededQuicConnections => "failed_exceeded_quic_connections"@,
            Metric::UselessQuicConnections => "useless_quic_connections"@,
            Metric::FeeLamportsSubmitted => "fee_lamports_submitted"@,
            Metric::FeeMicrolamportsPerCuLimit => "fee_microlamports_per_cu_limit"@,
            Metric::FeeMicrolamportsPerCuUsed => "fee_microlamports_per_cu_used"@,
        }
    }

    /// The configuration key of the metric.
    pub fn name(self) -> (s: &'static str)
        ensures
            s@ == self.key(),
    {
        match self {
            Metric::FailedExceededQuicConnections => "failed_exceeded_quic_connections",
            Metric::UselessQuicConnections => "useless_quic_connections",
            Metric::FeeLamportsSubmitted => "fee_lamports_submitted",
            Metric::FeeMicrolamportsPerCuLimit => "fee_microlamports_per_cu_limit",
            Metric::FeeMicrolamportsPerCuUsed => "fee_microlamports_per_cu_used",
        }
    }
}

/// A validator identity whose addresses are put in a group.
#[derive(Debug)]
pub struct KnownPubkey {
    /// The identity in base 58.
    pub pubkey: String,
    /// The group; `known_pubkeys` where absent.
    pub group_name: Option<String>,
    /// How long an address stays in the group, in seconds; one day where absent.
    pub group_expiration_seconds: Option<u64>,
}

/// The classification of peers outside the validator's leader slots.
#[derive(Debug)]
pub struct LeaderSlotsClassification {
    /// The group of that classification.
    pub group_name: Option<String>,
    /// How many slots before the leader slots the classification ends.
    pub leader_slots: u64,
}

impl LeaderSlotsClassification {
    /// The first thing wrong with this part of the configuration, if anything is.
    pub open spec fn fault(&self) -> Option<Fault> {
        if self.group_name is Some && self.group_name->0@.len() == 0 {
            Some(Fault::EmptyGroupName)
        } else if self.leader_slots > MAX_LEADER_SLOTS {
            Some(Fault::TooManyLeaderSlots)
        } else {
            None
        }
    }

    /// Rejects an empty group name and more leader slots than an epoch has.
    pub fn validate(&self) -> (r: Result<(), ConfigError>)
        ensures
            match r {
                Ok(_) => self.fault() is None,
                Err(e) => self.fault() == Some(e.fault) && e@.section == "outside_leader_slots"@
                    && e@.threshold is None,
            },
    {
        if let Some(group) = &self.group_name {
            if group.as_str().is_empty() {
                return Err(ConfigError::new("outside_leader_slots", None, Fault::EmptyGroupName));
            }
        }
        if self.leader_slots > MAX_LEADER_SLOTS {
            return Err(ConfigError::new("outside_leader_slots", None, Fault::TooManyLeaderSlots));
        }
        Ok(())
    }
}

/// A classification that may be left out is well formed where it is there.
pub open spec fn slot_wf(slot: Option<Classification>) -> bool {
    slot is Some ==> slot->0.wf()
}

/// A classification that may be left out has passed validation where it is there.
pub open spec fn slot_valid(slot: Option<Classification>) -> bool {
    slot is Some ==> slot->0.valid()
}

/// A classification that may be left out grants, where it is there, no
/// membership at `now` that ends after the last instant that a timestamp can hold.
pub open spec fn slot_fits(slot: Option<Classification>, now: u64) -> bool {
    slot is Some ==> slot->0.fits(now)
}

/// `after` is what validation leaves of the classification `before` of
/// `metric`, if one is configured: settled where validation came as far as
/// this classification, as it was where validation stopped before.
pub open spec fn slot_settles(
    after: Option<Classification>,
    before: Option<Classification>,
    metric: Metric,
    reached: bool,
) -> bool {
    match before {
        Some(c) => after is Some && if reached {
            after->0.settles(c, metric.key())
        } else {
            after->0 == c
        },
        None => after is None,
    }
}

/// The values of a classification that may be left out are, where it is
/// there, in time order for every peer and none is later than `now`.
pub open spec fn slot_timely(slot: Option<Classification>, now: u64) -> bool {
    slot is Some ==> timely(slot->0.series(), now)
}

/// The values of a classification that may be left out are, where it is
/// there, not older than its longest window before `now`.
pub open spec fn slot_bounded(slot: Option<Classification>, now: u64) -> bool {
    slot is Some ==> recent(slot->0.series(), now - slot->0.max_duration_ms)
}

/// Whether `slot_fits` holds of `slot` at `now`.
pub fn slot_fits_at(slot: &Option<Classification>, now: u64) -> (r: bool)
    requires
        slot_valid(*slot),
    ensures
        r == slot_fits(*slot, now),
{
    match slot {
        Some(c) => c.fits_at(now),
        None => true,
    }
}

/// The whole configuration.
#[derive(Debug)]
pub struct Config {
    /// The validator identities whose addresses are put in groups.
    pub known_pubkeys: Option<Vec<KnownPubkey>>,
    /// The classification of failed connection attempts.
    pub failed_exceeded_quic_connections: Option<Classification>,
    /// After how many milliseconds a connection that brought no transaction
    /// counts as useless; two seconds where absent.
    pub useless_quic_connection_duration_ms: Option<u64>,
    /// The classification of useless connections.
    pub useless_quic_connections: Option<Classification>,
    /// The classification of fees in lamports.
    pub fee_lamports_submitted: Option<Classification>,
    /// The classification of fees per compute unit of the declared limit.
    pub fee_microlamports_per_cu_limit: Option<Classification>,
    /// The classification of fees per compute unit used.
    pub fee_microlamports_per_cu_used: Option<Classification>,
    /// The classification of peers outside leader slots.
    pub outside_leader_slots: Option<LeaderSlotsClassification>,
}

impl Config {
    /// The classification of `metric`, if one is configured.
    pub open spec fn classification(&self, metric: Metric) -> Option<Classification> {
        match metric {
            Metric::FailedExceededQuicConnections => self.failed_exceeded_quic_connections,
            Metric::UselessQuicConnections => self.useless_quic_connections,
            Metric::FeeLamportsSubmitted => self.fee_lamports_submitted,
            Metric::FeeMicrolamportsPerCuLimit => self.fee_microlamports_per_cu_limit,
            Metric::FeeMicrolamportsPerCuUsed => self.fee_microlamports_per_cu_used,
        }
    }

    /// After how many milliseconds a connection without transactions counts as useless.
    pub open spec fn useless_after_ms(&self) -> u64 {
        match self.useless_quic_connection_duration_ms {
            Some(ms) => ms,
            None => DEFAULT_USELESS_QUIC_CONNECTION_DURATION_MS,
        }
    }

    /// Something is wrong with the classification of `metric`.
    pub open spec fn faulty(&self, metric: Metric) -> bool {
        self.classification(metric) is Some && !self.classification(metric)->0.accepts(
            metric.key(),
        )
    }

    /// Nothing is wrong with the configuration.
    pub open spec fn accepts(&self) -> bool {
        &&& forall|metric: Metric| !self.faulty(metric)
        &&& self.useless_quic_connection_duration_ms != Some(0u64)
        &&& self.outside_leader_slots is Some ==> self.outside_leader_slots->0.fault() is None
    }

    /// `e` is the first thing wrong with the configuration, its parts taken
    /// in the order in which the configuration lists them.
    pub open spec fn rejects(&self, e: ConfigErrorView) -> bool {
        if self.faulty(Metric::FailedExceededQuicConnections) {
            self.failed_exceeded_quic_connections->0.rejects(
                Metric::FailedExceededQuicConnections.key(),
                e,
            )
        } else if self.useless_quic_connection_duration_ms == Some(0u64) {
            e == (ConfigErrorView {
                section: "useless_quic_connection_duration_ms"@,
                threshold: None,
                fault: Fault::ZeroUselessConnectionDuration,
            })
        } else if self.faulty(Metric::UselessQuicConnections) {
            self.useless_quic_connections->0.rejects(Metric::UselessQuicConnections.key(), e)
        } else if self.faulty(Metric::FeeLamportsSubmitted) {
            self.fee_lamports_submitted->0.rejects(Metric::FeeLamportsSubmitted.key(), e)
        } else if self.faulty(Metric::FeeMicrolamportsPerCuLimit) {
            self.fee_microlamports_per_cu_limit->0.rejects(
                Metric::FeeMicrolamportsPerCuLimit.key(),
                e,
            )
        } else if self.faulty(Metric::FeeMicrolamportsPerCuUsed) {
            self.fee_microlamports_per_cu_used->0.rejects(
                Metric::FeeMicrolamportsPerCuUsed.key(),
                e,
            )
        } else {
            &&& self.outside_leader_slots is Some
            &&& self.outside_leader_slots->0.fault() == Some(e.fault)
            &&& e.section == "outside_leader_slots"@
            &&& e.threshold is None
        }
    }

    /// This configuration is `before` after validation: every configured
    /// classification is completed, and everything else is as it was.
    pub open spec fn completes(&self, before: Config) -> bool {
        &&& self.known_pubkeys == before.known_pubkeys
        &&& self.useless_quic_connection_duration_ms == before.useless_quic_connection_duration_ms
        &&& self.outside_leader_slots == before.outside_leader_slots
        &&& forall|metric: Metric|
            match #[trigger] before.classification(metric) {
                Some(c) => self.classification(metric) is Some && self.classification(
                    metric,
                )->0.completes(c, metric.key()),
                None => self.classification(metric) is None,
            }
    }

    /// This configuration is what validation leaves of `before`: the
    /// classifications up to the first part at fault are settled, and
    /// everything else is as it was.
    pub open spec fn settles(&self, before: Config) -> bool {
        let first = true;
        let second = first && !before.faulty(Metric::FailedExceededQuicConnections)
            && before.useless_quic_connection_duration_ms != Some(0u64);
        let third = second && !before.faulty(Metric::UselessQuicConnections);
        let fourth = third && !before.faulty(Metric::FeeLamportsSubmitted);
        let fifth = fourth && !before.faulty(Metric::FeeMicrolamportsPerCuLimit);
        &&& self.known_pubkeys == before.known_pubkeys
        &&& self.useless_quic_connection_duration_ms == before.useless_quic_connection_duration_ms
        &&& self.outside_leader_slots == before.outside_leader_slots
        &&& slot_settles(
            self.failed_exceeded_quic_connections,
            before.failed_exceeded_quic_connections,
            Metric::FailedExceededQuicConnections,
            first,
        )
        &&& slot_settles(
            self.useless_quic_connections,
            before.useless_quic_connections,
            Metric::UselessQuicConnections,
            second,
        )
        &&& slot_settles(
            self.fee_lamports_submitted,
            before.fee_lamports_submitted,
            Metric::FeeLamportsSubmitted,
            third,
        )
        &&& slot_settles(
            self.fee_microlamports_per_cu_limit,
            before.fee_microlamports_per_cu_limit,
            Metric::FeeMicrolamportsPerCuLimit,
            fourth,
        )
        &&& slot_settles(
            self.fee_microlamports_per_cu_used,
            before.fee_microlamports_per_cu_used,
            Metric::FeeMicrolamportsPerCuUsed,
            fifth,
        )
    }

    /// The configuration has passed validation.
    pub open spec fn valid(&self) -> bool {
        &&& slot_valid(self.failed_exceeded_quic_connections)
        &&& slot_valid(self.useless_quic_connections)
        &&& slot_valid(self.fee_lamports_submitted)
        &&& slot_valid(self.fee_microlamports_per_cu_limit)
        &&& slot_valid(self.fee_microlamports_per_cu_used)
        &&& self.useless_quic_connection_duration_ms != Some(0u64)
        &&& self.outside_leader_slots is Some ==> self.outside_leader_slots->0.fault() is None
    }

    /// Every configured classification is well formed.
    pub open spec fn wf(&self) -> bool {
        &&& slot_wf(self.failed_exceeded_quic_connections)
        &&& slot_wf(self.useless_quic_connections)
        &&& slot_wf(self.fee_lamports_submitted)
        &&& slot_wf(self.fee_microlamports_per_cu_limit)
        &&& slot_wf(self.fee_microlamports_per_cu_used)
    }

    /// No membership that a classification grants at `now` ends after the
    /// last instant that a timestamp can hold.
    pub open spec fn fits(&self, now: u64) -> bool {
        &&& slot_fits(self.failed_exceeded_quic_connections, now)
        &&& slot_fits(self.useless_quic_connections, now)
        &&& slot_fits(self.fee_lamports_submitted, now)
        &&& slot_fits(self.fee_microlamports_per_cu_limit, now)
        &&& slot_fits(self.fee_microlamports_per_cu_used, now)
    }

    /// The values of the two classifications of connections are in time
    /// order for every peer, and none is later than `now`. The fee
    /// classifications take in values at the times of the submissions that
    /// they are for, which need not be in order.
    pub open spec fn timely(&self, now: u64) -> bool {
        &&& slot_timely(self.failed_exceeded_quic_connections, now)
        &&& slot_timely(self.useless_quic_connections, now)
    }

    /// No value of the two classifications of connections is older than
    /// the longest window of its classification before `now`.
    pub open spec fn bounded(&self, now: u64) -> bool {
        &&& slot_bounded(self.failed_exceeded_quic_connections, now)
        &&& slot_bounded(self.useless_quic_connections, now)
    }

    /// Whether no membership that a classification grants at `now` ends
    /// after the last instant that a timestamp can hold.
    pub fn fits_at(&self, now: u64) -> (r: bool)
        requires
            self.valid(),
        ensures
            r == self.fits(now),
    {
        slot_fits_at(&self.failed_exceeded_quic_connections, now) && slot_fits_at(
            &self.useless_quic_connections,
            now,
        ) && slot_fits_at(&self.fee_lamports_submitted, now) && slot_fits_at(
            &self.fee_microlamports_per_cu_limit,
            now,
        ) && slot_fits_at(&self.fee_microlamports_per_cu_used, now)
    }

    /// This configuration is `before` with `tv` appended to the values that
    /// the classification of `metric`, if one is configured, holds for `ip`.
    pub open spec fn records(
        &self,
        before: Config,
        metric: Metric,
        ip: IpAddr,
        tv: TimestampedValue,
    ) -> bool {
        &&& self.known_pubkeys == before.known_pubkeys
        &&& self.useless_quic_connection_duration_ms == before.useless_quic_connection_duration_ms
        &&& self.outside_leader_slots == before.outside_leader_slots
        &&& forall|other: Metric|
            other != metric ==> #[trigger] self.classification(other) == before.classification(
                other,
            )
        &&& match before.classification(metric) {
            Some(c) => {
                &&& self.classification(metric) is Some
                &&& self.classification(metric)->0.keeps_rules(c)
                &&& self.classification(metric)->0.series() == recorded(c.series(), ip, tv)
            },
            None => self.classification(metric) is None,
        }
    }

    /// Appends the value `value`, measured at `timestamp`, to the values
    /// that the classification of `metric` holds for `ip`. Nothing happens
    /// where no such classification is configured.
    pub fn record(&mut self, metric: Metric, ip: IpAddr, timestamp: u64, value: u64)
        requires
            old(self).wf(),
        ensures
            final(self).wf(),
            old(self).valid() ==> final(self).valid(),
            final(self).records(*old(self), metric, ip, TimestampedValue { timestamp, value }),
    {
        match metric {
            Metric::FailedExceededQuicConnections => {
                if let Some(c) = &mut self.failed_exceeded_quic_connections {
                    c.add_value(ip, timestamp, value);
                }
            },
            Metric::UselessQuicConnections => {
                if let Some(c) = &mut self.useless_quic_connections {
                    c.add_value(ip, timestamp, value);
                }
            },
            Metric::FeeLamportsSubmitted => {
                if let Some(c) = &mut self.fee_lamports_submitted {
                    c.add_value(ip, timestamp, value);
                }
            },
            Metric::FeeMicrolamportsPerCuLimit => {
                if let Some(c) = &mut self.fee_microlamports_per_cu_limit {
                    c.add_value(ip, timestamp, value);
                }
            },
            Metric::FeeMicrolamportsPerCuUsed => {
                if let Some(c) = &mut self.fee_microlamports_per_cu_used {
                    c.add_value(ip, timestamp, value);
                }
            },
        }
    }

    /// Validates the parts of the configuration in the order in which it
    /// lists them and stops at the first fault. The classifications that
    /// were validated up to then stay as validation left them.
    pub fn validate(&mut self) -> (r: Result<(), ConfigError>)
        ensures
            final(self).settles(*old(self)),
            match r {
                Ok(_) => {
                    &&& old(self).accepts()
                    &&& final(self).completes(*old(self))
                    &&& final(self).valid()
                },
                Err(e) => old(self).rejects(e@),
            },
    {
        if let Some(c) = &mut self.failed_exceeded_quic_connections {
            match c.validate("failed_exceeded_quic_connections") {
                Err(e) => {
                    return Err(e);
                },
                Ok(_) => {},
            }
        }
        if let Some(ms) = self.useless_quic_connection_duration_ms {
            if ms == 0 {
                return Err(
                    ConfigError::new(
                        "useless_quic_connection_duration_ms",
                        None,
                        Fault::ZeroUselessConnectionDuration,
                    ),
                );
            }
        }
        if let Some(c) = &mut self.useless_quic_connections {
            match c.validate("useless_quic_connections") {
                Err(e) => {
                    return Err(e);
                },
                Ok(_) => {},
            }
        }
        if let Some(c) = &mut self.fee_lamports_submitted {
            match c.validate("fee_lamports_submitted") {
                Err(e) => {
                    return Err(e);
                },
                Ok(_) => {},
            }
        }
        if let Some(c) = &mut self.fee_microlamports_per_cu_limit {
            match c.validate("fee_microlamports_per_cu_limit") {
                Err(e) => {
                    return Err(e);
                },
                Ok(_) => {},
            }
        }
        if let Some(c) = &mut self.fee_microlamports_per_cu_used {
            match c.validate("fee_microlamports_per_cu_used") {
                Err(e) => {
                    return Err(e);
                },
                Ok(_) => {},
            }
        }
        if let Some(outside_leader_slots) = &self.outside_leader_slots {
            match outside_leader_slots.validate() {
                Err(e) => {
                    return Err(e);
                },
                Ok(_) => {},
            }
        }
        proof {
            assert forall|metric: Metric| !old(self).faulty(metric) by {}
        }
        Ok(())
    }
}

} // verus!
