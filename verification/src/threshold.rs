//! A threshold: one predicate over the recent values of a peer. It holds for
//! a peer whose stake lies in the threshold's band and whose values, summed
//! or averaged over the threshold's window, compare as asked with the
//! threshold's value. A peer for which it holds joins the threshold's group.

use vstd::prelude::*;
use std::collections::VecDeque;
use crate::classification::TimestampedValue;
use crate::decision::{declare, declared, decisions, Decision, DecisionView};
use crate::error::{ConfigError, Fault};
use crate::group::{
    expiry_in, lemma_add_never_lowers, registry_add, registry_change, registry_wf, Groups, Registry,
};
use crate::key::IpAddr;
use crate::table::{has_key, value_of, Entry, Table};

verus! {

/// How the aggregated value is compared with the threshold's value.
#[derive(Clone, Copy, Debug, PartialEq, Eq, Structural)]
pub enum ThresholdType {
    /// The threshold holds for a value above the threshold's.
    GreaterThan,
    /// The threshold holds for a value at or above the threshold's.
    GreaterThanOrEqual,
    /// The threshold holds for a value below the threshold's.
    LessThan,
    /// The threshold holds for a value at or below the threshold's.
    LessThanOrEqual,
}

/// How the values in the window are aggregated.
#[derive(Clone, Copy, Debug, PartialEq, Eq, Structural)]
pub enum ValueOperation {
    /// The sum of the values.
    Sum,
    /// The sum of the values divided by their number, rounded down.
    Average,
}

/// One threshold of a classification.
#[derive(Debug)]
pub struct Threshold {
    /// The group that peers join for which the threshold holds; the
    /// classification's group where absent.
    pub group_name: Option<String>,
    /// How long such a peer stays in the group; the classification's
    /// expiration where absent.
    pub group_expiration_seconds: Option<u64>,
    /// The threshold is for peers with at least this stake.
    pub low_stake: Option<u64>,
    /// The threshold is for peers with at most this stake.
    pub high_stake: Option<u64>,
    /// The least number of values in the window for the threshold to hold.
    pub min_value_count: Option<u64>,
    /// How the values in the window are aggregated.
    pub value_operation: ValueOperation,
    /// How the aggregated value is compared with `value`.
    pub threshold_type: ThresholdType,
    /// The value that the aggregated value is compared with.
    pub value: u64,
    /// The length of the window in milliseconds.
    pub duration_ms: u64,
    /// Whether later thresholds are still evaluated for a peer for which
    /// this one holds.
    pub continue_after_match: Option<bool>,
}

/// The stake of `ip`: what `stakes` holds for it, and 0 for a peer of which
/// no stake is known.
pub open spec fn stake_of(stakes: Seq<Entry<IpAddr, u64>>, ip: IpAddr) -> u64 {
    if has_key(stakes, ip) {
        value_of(stakes, ip)
    } else {
        0
    }
}

/// The sum of the values of `s`.
pub open spec fn total(s: Seq<TimestampedValue>) -> nat
    decreases s.len(),
{
    if s.len() == 0 {
        0
    } else {
        total(s.drop_last()) + s.last().value as nat
    }
}

/// The measurements taken at or after `cutoff`.
pub open spec fn since(cutoff: int) -> spec_fn(TimestampedValue) -> bool {
    |tv: TimestampedValue| tv.timestamp >= cutoff
}

impl Threshold {
    /// The group name in force: the threshold's own, or else `inherited`.
    pub open spec fn name_or(&self, inherited: Seq<char>) -> Seq<char> {
        match self.group_name {
            Some(name) => name@,
            None => inherited,
        }
    }

    /// The group expiration in force: the threshold's own, or else `inherited`.
    pub open spec fn expiration_or(&self, inherited: u64) -> u64 {
        match self.group_expiration_seconds {
            Some(seconds) => seconds,
            None => inherited,
        }
    }

    /// The first thing wrong with this threshold, given what it inherits
    /// from its classification; `None` for a threshold that is in order.
    pub open spec fn fault(&self, inherited_name: Seq<char>, inherited_expiration: u64) -> Option<
        Fault,
    > {
        if self.low_stake is Some && self.high_stake is Some && self.high_stake->0
            < self.low_stake->0 {
            Some(Fault::HighStakeBelowLowStake)
        } else if self.duration_ms == 0 {
            Some(Fault::ZeroDuration)
        } else if self.name_or(inherited_name).len() == 0 {
            Some(Fault::EmptyGroupName)
        } else if self.expiration_or(inherited_expiration) == 0 {
            Some(Fault::ZeroGroupExpiration)
        } else {
            None
        }
    }

    /// This threshold is `before` with the group name and the group
    /// expiration filled in where `before` left them out.
    pub open spec fn completes(
        &self,
        before: Threshold,
        inherited_name: Seq<char>,
        inherited_expiration: u64,
    ) -> bool {
        &&& self.group_name is Some
        &&& self.group_name->0@ == before.name_or(inherited_name)
        &&& self.group_expiration_seconds == Some(before.expiration_or(inherited_expiration))
        &&& self.low_stake == before.low_stake
        &&& self.high_stake == before.high_stake
        &&& self.min_value_count == before.min_value_count
        &&& self.value_operation == before.value_operation
        &&& self.threshold_type == before.threshold_type
        &&& self.value == before.value
        &&& self.duration_ms == before.duration_ms
        &&& self.continue_after_match == before.continue_after_match
    }

    /// The threshold has passed validation: its group and expiration are
    /// filled in and nothing is wrong with it.
    pub open spec fn valid(&self) -> bool {
        &&& self.group_name is Some
        &&& self.group_expiration_seconds is Some
        &&& self.fault(Seq::empty(), 0) is None
    }

    /// The name of the group that peers join for which the threshold holds.
    pub open spec fn group(&self) -> Seq<char> {
        self.group_name->0@
    }

    /// How long such a peer stays in the group, in milliseconds.
    pub open spec fn group_expiration_ms(&self) -> int {
        self.group_expiration_seconds->0 * 1000
    }

    /// The expiry of a membership that begins at `now`.
    pub open spec fn expiry(&self, now: u64) -> int {
        now + self.group_expiration_ms()
    }

    /// Whether `stake` lies in the threshold's stake band.
    pub open spec fn in_stake_band(&self, stake: u64) -> bool {
        &&& self.low_stake is Some ==> self.low_stake->0 <= stake
        &&& self.high_stake is Some ==> stake <= self.high_stake->0
    }

    /// The values of `series` that lie in the threshold's window at `now`:
    /// those not older than `duration_ms`.
    pub open spec fn window(&self, now: u64, series: Seq<TimestampedValue>) -> Seq<
        TimestampedValue,
    > {
        series.filter(since(now - self.duration_ms))
    }

    /// Whether `count` values are enough for the threshold to be applied.
    pub open spec fn enough(&self, count: nat) -> bool {
        self.min_value_count is Some ==> self.min_value_count->0 <= count
    }

    /// The aggregate of `count` values whose sum is `sum`; the average of no
    /// values is undefined.
    pub open spec fn aggregate(&self, sum: nat, count: nat) -> Option<nat> {
        match self.value_operation {
            ValueOperation::Sum => Some(sum),
            ValueOperation::Average => if count > 0 {
                Some(sum / count)
            } else {
                None
            },
        }
    }

    /// Whether the aggregated value `x` compares with the threshold's value as asked.
    pub open spec fn compares(&self, x: nat) -> bool {
        match self.threshold_type {
            ThresholdType::GreaterThan => x > self.value,
            ThresholdType::GreaterThanOrEqual => x >= self.value,
            ThresholdType::LessThan => x < self.value,
            ThresholdType::LessThanOrEqual => x <= self.value,
        }
    }

    /// Whether the threshold holds at `now` for a peer with `stake` and the
    /// recent values `series`.
    pub open spec fn holds(&self, stake: u64, now: u64, series: Seq<TimestampedValue>) -> bool {
        let w = self.window(now, series);
        &&& self.in_stake_band(stake)
        &&& self.enough(w.len())
        &&& self.aggregate(total(w), w.len()) is Some
        &&& self.compares(self.aggregate(total(w), w.len())->0)
    }

    /// Whether later thresholds are skipped for a peer for which this one holds.
    pub open spec fn stops(&self) -> bool {
        self.continue_after_match != Some(true)
    }

    /// The registry after this threshold was evaluated for `ip`.
    pub open spec fn registry_after(
        &self,
        registry: Registry,
        stake: u64,
        now: u64,
        ip: IpAddr,
        series: Seq<TimestampedValue>,
    ) -> Registry {
        if self.holds(stake, now, series) {
            registry_add(registry, self.group(), ip, self.expiry(now) as u64)
        } else {
            registry
        }
    }

    /// What evaluating this threshold for `ip` declares.
    pub open spec fn declares(
        &self,
        registry: Registry,
        stake: u64,
        now: u64,
        ip: IpAddr,
        series: Seq<TimestampedValue>,
    ) -> Seq<DecisionView> {
        if self.holds(stake, now, series) {
            let expiry = self.expiry(now) as u64;
            declared(registry_change(registry, self.group(), ip, expiry), ip, self.group(), expiry)
        } else {
            Seq::empty()
        }
    }

    /// Validates the threshold and fills in, from the classification called
    /// `classification_name`, the group name and the group expiration that
    /// the threshold leaves out. A threshold that is rejected is left as it was.
    pub fn validate(
        &mut self,
        classification_name: &str,
        threshold_index: usize,
        classification_group_name: &str,
        classification_group_expiration_seconds: u64,
    ) -> (r: Result<(), ConfigError>)
        ensures
            match r {
                Ok(_) => {
                    &&& old(self).fault(
                        classification_group_name@,
                        classification_group_expiration_seconds,
                    ) is None
                    &&& final(self).completes(
                        *old(self),
                        classification_group_name@,
                        classification_group_expiration_seconds,
                    )
                    &&& final(self).valid()
                },
                Err(e) => {
                    &&& old(self).fault(
                        classification_group_name@,
                        classification_group_expiration_seconds,
                    ) == Some(e.fault)
                    &&& e@.section == classification_name@
                    &&& e@.threshold == Some(threshold_index)
                    &&& *final(self) == *old(self)
                },
            },
    {
        if let Some(low_stake) = self.low_stake {
            if let Some(high_stake) = self.high_stake {
                if high_stake < low_stake {
                    return Err(
                        ConfigError::new(
                            classification_name,
                            Some(threshold_index),
                            Fault::HighStakeBelowLowStake,
                        ),
                    );
                }
            }
        }
        if self.duration_ms == 0 {
            return Err(
                ConfigError::new(classification_name, Some(threshold_index), Fault::ZeroDuration),
            );
        }
        let name_is_empty = match &self.group_name {
            Some(name) => name.as_str().is_empty(),
            None => classification_group_name.is_empty(),
        };
        if name_is_empty {
            return Err(
                ConfigError::new(classification_name, Some(threshold_index), Fault::EmptyGroupName),
            );
        }
        let expiration = match self.group_expiration_seconds {
            Some(seconds) => seconds,
            None => classification_group_expiration_seconds,
        };
        if expiration == 0 {
            return Err(
                ConfigError::new(
                    classification_name,
                    Some(threshold_index),
                    Fault::ZeroGroupExpiration,
                ),
            );
        }
        if self.group_name.is_none() {
            self.group_name = Some(classification_group_name.to_owned());
        }
        self.group_expiration_seconds = Some(expiration);
        Ok(())
    }

    /// Evaluates the threshold at `now` for the peer `ip_addr` with the
    /// recent values `recent_values`. Where it holds, the peer joins the
    /// threshold's group until `now` plus the group expiration, and what that
    /// changed is appended to `log`. Returns whether the thresholds that
    /// follow are to be skipped for this peer.
    pub fn stop_after_exceeded(
        &self,
        stakes: &Table<IpAddr, u64>,
        now: u64,
        ip_addr: &IpAddr,
        recent_values: &VecDeque<TimestampedValue>,
        groups: &mut Groups,
        log: &mut Vec<Decision>,
    ) -> (stop: bool)
        requires
            self.valid(),
            stakes.wf(),
            old(groups).wf(),
            self.holds(stake_of(stakes@, *ip_addr), now, recent_values@) ==> self.expiry(now)
                <= u64::MAX,
        ensures
            final(groups).wf(),
            stop == (self.holds(stake_of(stakes@, *ip_addr), now, recent_values@) && self.stops()),
            stop ==> self.in_stake_band(stake_of(stakes@, *ip_addr)),
            final(groups)@ == self.registry_after(
                old(groups)@,
                stake_of(stakes@, *ip_addr),
                now,
                *ip_addr,
                recent_values@,
            ),
            decisions(final(log)@) == decisions(old(log)@) + self.declares(
                old(groups)@,
                stake_of(stakes@, *ip_addr),
                now,
                *ip_addr,
                recent_values@,
            ),
    {
        let stake = match stakes.get(ip_addr) {
            Some(s) => *s,
            None => 0,
        };
        assert(decisions(log@) =~= decisions(old(log)@) + Seq::<DecisionView>::empty());
        if let Some(low_stake) = self.low_stake {
            if stake < low_stake {
                return false;
            }
        }
        if let Some(high_stake) = self.high_stake {
            if stake > high_stake {
                return false;
            }
        }
        let (sum, count) = self.sum_and_count(now, recent_values);
        if let Some(min_value_count) = self.min_value_count {
            if count < min_value_count {
                return false;
            }
        }
        let aggregated: u128 = match self.value_operation {
            ValueOperation::Sum => sum,
            ValueOperation::Average => {
                if count == 0 {
                    return false;
                }
                sum / (count as u128)
            },
        };
        let threshold_value: u128 = self.value as u128;
        let is_in_group = match self.threshold_type {
            ThresholdType::GreaterThan => aggregated > threshold_value,
            ThresholdType::GreaterThanOrEqual => aggregated >= threshold_value,
            ThresholdType::LessThan => aggregated < threshold_value,
            ThresholdType::LessThanOrEqual => aggregated <= threshold_value,
        };
        if !is_in_group {
            return false;
        }
        match (&self.group_name, self.group_expiration_seconds) {
            (Some(group_name), Some(seconds)) => {
                let expiry: u64 = now + seconds * 1000;
                let change = groups.add(group_name, *ip_addr, expiry);
                declare(log, change, *ip_addr, group_name, expiry);
                match self.continue_after_match {
                    Some(true) => false,
                    _ => true,
                }
            },
            _ => false,
        }
    }

    /// Whether a membership that this threshold grants at `now` ends no
    /// later than the last instant that a timestamp can hold.
    pub fn fits_at(&self, now: u64) -> (r: bool)
        requires
            self.valid(),
        ensures
            r == (self.expiry(now) <= u64::MAX),
    {
        match self.group_expiration_seconds {
            Some(seconds) => now as u128 + seconds as u128 * 1000 <= u64::MAX as u128,
            None => true,
        }
    }

    /// The sum and the number of the values of `series` in the window at `now`.
    pub fn sum_and_count(&self, now: u64, series: &VecDeque<TimestampedValue>) -> (r: (u128, u64))
        ensures
            r.0 == total(self.window(now, series@)),
            r.1 == self.window(now, series@).len(),
    {
        let ghost cutoff: int = now - self.duration_ms;
        let ghost all = series@;
        let mut sum: u128 = 0;
        let mut count: u64 = 0;
        let mut i: usize = 0;
        assert(all.take(0) =~= Seq::<TimestampedValue>::empty());
        while i < series.len()
            invariant
                i <= all.len(),
                all == series@,
                cutoff == now - self.duration_ms,
                sum == total(all.take(i as int).filter(since(cutoff))),
                count == all.take(i as int).filter(since(cutoff)).len(),
                count <= i,
                sum <= i * u64::MAX,
            decreases all.len() - i,
        {
            let tv = series[i];
            proof {
                reveal(Seq::filter);
                assert(all.take(i + 1).drop_last() =~= all.take(i as int));
                assert(all.take(i + 1).last() == all[i as int]);
                let w = all.take(i as int).filter(since(cutoff));
                assert(w.push(tv).drop_last() =~= w);
            }
            let inside = if now >= self.duration_ms {
                tv.timestamp >= now - self.duration_ms
            } else {
                true
            };
            if inside {
                sum = sum + tv.value as u128;
                count = count + 1;
            }
            i += 1;
        }
        assert(all.take(all.len() as int) =~= all);
        (sum, count)
    }
}

/// A threshold holds for a peer only if the stake of the peer lies in the
/// threshold's stake band; for a peer outside the band it changes nothing
/// and declares nothing.
pub proof fn lemma_holds_only_in_stake_band(
    threshold: Threshold,
    registry: Registry,
    stake: u64,
    now: u64,
    ip: IpAddr,
    series: Seq<TimestampedValue>,
)
    ensures
        threshold.holds(stake, now, series) ==> (threshold.low_stake is Some
            ==> threshold.low_stake->0 <= stake) && (threshold.high_stake is Some ==> stake
            <= threshold.high_stake->0),
        !threshold.in_stake_band(stake) ==> threshold.registry_after(
            registry,
            stake,
            now,
            ip,
            series,
        ) == registry && threshold.declares(registry, stake, now, ip, series)
            == Seq::<DecisionView>::empty(),
{
}

/// A membership that a validated threshold grants ends after the instant
/// at which it is granted.
pub proof fn lemma_membership_outlasts_now(threshold: Threshold, now: u64)
    requires
        threshold.valid(),
    ensures
        threshold.expiry(now) > now,
        threshold.group().len() > 0,
{
}

/// What a threshold compares with its value: under `Sum` the sum of the
/// values in its window, under `Average` that sum divided by the number of
/// those values and rounded down, which takes at least one value.
pub proof fn lemma_aggregation(
    threshold: Threshold,
    stake: u64,
    now: u64,
    series: Seq<TimestampedValue>,
)
    ensures
        threshold.value_operation == ValueOperation::Sum ==> (threshold.holds(stake, now, series)
            <==> threshold.in_stake_band(stake) && threshold.enough(
            threshold.window(now, series).len(),
        ) && threshold.compares(total(threshold.window(now, series)))),
        threshold.value_operation == ValueOperation::Average ==> (threshold.holds(
            stake,
            now,
            series,
        ) <==> threshold.in_stake_band(stake) && threshold.enough(
            threshold.window(now, series).len(),
        ) && threshold.window(now, series).len() > 0 && threshold.compares(
            total(threshold.window(now, series)) / threshold.window(now, series).len(),
        )),
        forall|i: int|
            0 <= i < threshold.window(now, series).len() ==> (#[trigger] threshold.window(
                now,
                series,
            )[i]).timestamp >= now - threshold.duration_ms,
{
    assert forall|i: int| 0 <= i < threshold.window(now, series).len() implies (
    #[trigger] threshold.window(now, series)[i]).timestamp >= now - threshold.duration_ms by {
        series.lemma_filter_pred(since(now - threshold.duration_ms), i);
    }
}

/// The evaluation of a threshold for a peer, whether or not the threshold
/// holds, ends no membership and lowers no expiry, and leaves the
/// memberships of every other peer as they are.
pub proof fn lemma_threshold_never_lowers(
    threshold: Threshold,
    registry: Registry,
    stake: u64,
    now: u64,
    ip: IpAddr,
    series: Seq<TimestampedValue>,
    name: Seq<char>,
    member: IpAddr,
)
    requires
        registry_wf(registry),
    ensures
        registry_wf(threshold.registry_after(registry, stake, now, ip, series)),
        expiry_in(registry, name, member) is Some ==> expiry_in(
            threshold.registry_after(registry, stake, now, ip, series),
            name,
            member,
        ) is Some && expiry_in(
            threshold.registry_after(registry, stake, now, ip, series),
            name,
            member,
        )->0 >= expiry_in(registry, name, member)->0,
        member != ip || name != threshold.group() ==> expiry_in(
            threshold.registry_after(registry, stake, now, ip, series),
            name,
            member,
        ) == expiry_in(registry, name, member),
{
    if threshold.holds(stake, now, series) {
        lemma_add_never_lowers(
            registry,
            threshold.group(),
            ip,
            threshold.expiry(now) as u64,
            name,
            member,
        );
    }
}

} // verus!
