//! A classification: an ordered list of thresholds over one metric, with the
//! recent values of that metric for each peer.

use vstd::prelude::*;
use std::collections::VecDeque;
use crate::decision::{decisions, Decision, DecisionView};
use crate::error::{ConfigError, ConfigErrorView, Fault};
use crate::group::{
    expiry_in, lemma_add_never_lowers, registry_wf, Groups, Registry,
    DEFAULT_GROUP_EXPIRATION_SECONDS,
};
use crate::key::IpAddr;
use crate::table::{
    distinct_keys, has_key, lemma_position, lemma_same_keys, lemma_upsert, position, upsert,
    value_of, Entry, Table,
};
use crate::threshold::{stake_of, Threshold};

verus! {

/// One measurement of a metric for one peer.
#[derive(Clone, Copy, Debug, PartialEq, Eq, Structural)]
pub struct TimestampedValue {
    pub timestamp: u64,
    pub value: u64,
}

/// The recent values of one peer, oldest first.
pub type Series = Seq<TimestampedValue>;

/// The recent values of every peer that has any, in the order in which the
/// peers were first seen.
pub type SeriesTable = Seq<Entry<IpAddr, Series>>;

/// The stored deques as sequences.
pub open spec fn series_of(entries: Seq<Entry<IpAddr, VecDeque<TimestampedValue>>>) -> SeriesTable {
    entries.map_values(
        |e: Entry<IpAddr, VecDeque<TimestampedValue>>| Entry { key: e.key, value: e.value@ },
    )
}

/// The recent values of `ip`; none for a peer without an entry.
pub open spec fn values_for(s: SeriesTable, ip: IpAddr) -> Series {
    if has_key(s, ip) {
        value_of(s, ip)
    } else {
        Seq::empty()
    }
}

/// `s` with `tv` appended to the values of `ip`.
pub open spec fn recorded(s: SeriesTable, ip: IpAddr, tv: TimestampedValue) -> SeriesTable {
    upsert(s, ip, values_for(s, ip).push(tv))
}

/// `series` without its leading values older than `cutoff`: values are
/// dropped from the front until the first one that is not older.
pub open spec fn drop_old(series: Series, cutoff: int) -> Series
    decreases series.len(),
{
    if series.len() > 0 && series[0].timestamp < cutoff {
        drop_old(series.drop_first(), cutoff)
    } else {
        series
    }
}

/// Drops the leading old values of one peer.
pub open spec fn sweep_one(cutoff: int) -> spec_fn(Entry<IpAddr, Series>) -> Entry<IpAddr, Series> {
    |e: Entry<IpAddr, Series>| Entry { key: e.key, value: drop_old(e.value, cutoff) }
}

/// The peers that have a value left.
pub open spec fn nonempty() -> spec_fn(Entry<IpAddr, Series>) -> bool {
    |e: Entry<IpAddr, Series>| e.value.len() > 0
}

/// `s` after the leading old values of every peer were dropped and the
/// peers left without a value were forgotten.
pub open spec fn swept(s: SeriesTable, cutoff: int) -> SeriesTable {
    s.map_values(sweep_one(cutoff)).filter(nonempty())
}

/// The values of `series` are in the order of their timestamps.
pub open spec fn in_time_order(series: Series) -> bool {
    forall|i: int, j: int| 0 <= i <= j < series.len() ==> series[i].timestamp <= series[j].timestamp
}

/// The values of every peer are in time order and none is later than `now`.
pub open spec fn timely(s: SeriesTable, now: u64) -> bool {
    forall|i: int|
        0 <= i < s.len() ==> in_time_order((#[trigger] s[i]).value) && forall|j: int|
            0 <= j < s[i].value.len() ==> (#[trigger] s[i].value[j]).timestamp <= now
}

/// The values of every peer are in time order and none is older than `cutoff`.
pub open spec fn recent(s: SeriesTable, cutoff: int) -> bool {
    forall|i: int|
        0 <= i < s.len() ==> in_time_order((#[trigger] s[i]).value) && forall|j: int|
            0 <= j < s[i].value.len() ==> (#[trigger] s[i].value[j]).timestamp >= cutoff
}

/// The longest window of `thresholds`; 0 where there are none.
pub open spec fn longest_window(thresholds: Seq<Threshold>) -> u64
    decreases thresholds.len(),
{
    if thresholds.len() == 0 {
        0
    } else {
        let rest = longest_window(thresholds.drop_last());
        if thresholds.last().duration_ms > rest {
            thresholds.last().duration_ms
        } else {
            rest
        }
    }
}

/// A registry together with what was declared on the way to it.
pub struct Outcome {
    pub registry: Registry,
    pub declared: Seq<DecisionView>,
}

/// The outcome of evaluating, for one peer, the thresholds from index
/// `from` on, in order. Where a threshold holds that stops, the thresholds
/// after it are skipped unless `evaluate_all` is set.
pub open spec fn evaluate_thresholds(
    thresholds: Seq<Threshold>,
    from: int,
    evaluate_all: bool,
    stake: u64,
    now: u64,
    ip: IpAddr,
    series: Series,
    registry: Registry,
) -> Outcome
    decreases thresholds.len() - from,
{
    if from < 0 || from >= thresholds.len() {
        Outcome { registry, declared: Seq::empty() }
    } else {
        let t = thresholds[from];
        let next = t.registry_after(registry, stake, now, ip, series);
        let said = t.declares(registry, stake, now, ip, series);
        if t.holds(stake, now, series) && t.stops() && !evaluate_all {
            Outcome { registry: next, declared: said }
        } else {
            let rest = evaluate_thresholds(
                thresholds,
                from + 1,
                evaluate_all,
                stake,
                now,
                ip,
                series,
                next,
            );
            Outcome { registry: rest.registry, declared: said + rest.declared }
        }
    }
}

/// The outcome of evaluating the thresholds for every peer of `s`, peer by
/// peer in the order of `s`.
pub open spec fn evaluate_peers(
    s: SeriesTable,
    thresholds: Seq<Threshold>,
    evaluate_all: bool,
    stakes: Seq<Entry<IpAddr, u64>>,
    now: u64,
    registry: Registry,
) -> Outcome
    decreases s.len(),
{
    if s.len() == 0 {
        Outcome { registry, declared: Seq::empty() }
    } else {
        let before = evaluate_peers(s.drop_last(), thresholds, evaluate_all, stakes, now, registry);
        let peer = s.last();
        let this = evaluate_thresholds(
            thresholds,
            0,
            evaluate_all,
            stake_of(stakes, peer.key),
            now,
            peer.key,
            peer.value,
            before.registry,
        );
        Outcome { registry: this.registry, declared: before.declared + this.declared }
    }
}

/// An ordered list of thresholds over one metric.
#[derive(Debug)]
pub struct Classification {
    /// The group of the thresholds that name none; the classification's own
    /// name where absent.
    pub group_name: Option<String>,
    /// The group expiration of the thresholds that give none; one day where absent.
    pub group_expiration_seconds: Option<u64>,
    /// Whether every threshold is evaluated for a peer, however many hold.
    pub evaluate_all_thresholds: Option<bool>,
    /// The thresholds, in the order in which they are evaluated.
    pub thresholds: Vec<Threshold>,
    /// The longest window of the thresholds, set by validation.
    pub max_duration_ms: u64,
    /// The recent values of each peer that has any.
    pub recent_values: Table<IpAddr, VecDeque<TimestampedValue>>,
}

impl Classification {
    /// The recent values of every peer, as sequences.
    pub open spec fn series(&self) -> SeriesTable {
        series_of(self.recent_values@)
    }

    /// No peer has two entries, and every peer that has an entry has a value.
    pub open spec fn wf(&self) -> bool {
        &&& self.recent_values.wf()
        &&& forall|i: int|
            0 <= i < self.recent_values@.len() ==> (#[trigger] self.recent_values@[i]).value@.len()
                > 0
    }

    /// The classification has passed validation.
    pub open spec fn valid(&self) -> bool {
        &&& self.thresholds@.len() > 0
        &&& forall|i: int|
            0 <= i < self.thresholds@.len() ==> (#[trigger] self.thresholds@[i]).valid()
        &&& self.max_duration_ms == longest_window(self.thresholds@)
    }

    /// Whether every threshold is evaluated for a peer, however many hold.
    pub open spec fn evaluates_all(&self) -> bool {
        self.evaluate_all_thresholds == Some(true)
    }

    /// The group name that thresholds inherit in a classification called `name`.
    pub open spec fn inherited_name(&self, name: Seq<char>) -> Seq<char> {
        match self.group_name {
            Some(group) => group@,
            None => name,
        }
    }

    /// The group expiration that thresholds inherit.
    pub open spec fn inherited_expiration(&self) -> u64 {
        match self.group_expiration_seconds {
            Some(seconds) => seconds,
            None => DEFAULT_GROUP_EXPIRATION_SECONDS,
        }
    }

    /// Nothing is wrong with the classification, called `name`, or with any
    /// of its thresholds.
    pub open spec fn accepts(&self, name: Seq<char>) -> bool {
        &&& self.thresholds@.len() > 0
        &&& !(self.group_name is Some && self.group_name->0@.len() == 0)
        &&& self.group_expiration_seconds != Some(0u64)
        &&& forall|i: int|
            0 <= i < self.thresholds@.len() ==> (#[trigger] self.thresholds@[i]).fault(
                self.inherited_name(name),
                self.inherited_expiration(),
            ) is None
    }

    /// `e` is the first thing wrong with the classification called `name`:
    /// that it has no thresholds, then its own group name, then its own
    /// group expiration, then the first fault of the first threshold at fault.
    pub open spec fn rejects(&self, name: Seq<char>, e: ConfigErrorView) -> bool {
        &&& e.section == name
        &&& if self.thresholds@.len() == 0 {
            e.threshold is None && e.fault == Fault::NoThresholds
        } else if self.group_name is Some && self.group_name->0@.len() == 0 {
            e.threshold is None && e.fault == Fault::EmptyGroupName
        } else if self.group_expiration_seconds == Some(0u64) {
            e.threshold is None && e.fault == Fault::ZeroGroupExpiration
        } else {
            &&& e.threshold is Some
            &&& e.threshold->0 < self.thresholds@.len()
            &&& self.thresholds@[e.threshold->0 as int].fault(
                self.inherited_name(name),
                self.inherited_expiration(),
            ) == Some(e.fault)
            &&& forall|j: int|
                0 <= j < e.threshold->0 ==> (#[trigger] self.thresholds@[j]).fault(
                    self.inherited_name(name),
                    self.inherited_expiration(),
                ) is None
        }
    }

    /// The configuration and the thresholds are those of `before`; only the
    /// recent values may differ.
    pub open spec fn keeps_rules(&self, before: Classification) -> bool {
        &&& self.group_name == before.group_name
        &&& self.group_expiration_seconds == before.group_expiration_seconds
        &&& self.evaluate_all_thresholds == before.evaluate_all_thresholds
        &&& self.thresholds == before.thresholds
        &&& self.max_duration_ms == before.max_duration_ms
    }

    /// This classification is `before`, called `name`, after validation:
    /// each threshold has what it inherits filled in and the longest window
    /// is recorded.
    pub open spec fn completes(&self, before: Classification, name: Seq<char>) -> bool {
        &&& self.group_name == before.group_name
        &&& self.group_expiration_seconds == before.group_expiration_seconds
        &&& self.evaluate_all_thresholds == before.evaluate_all_thresholds
        &&& self.recent_values == before.recent_values
        &&& self.thresholds@.len() == before.thresholds@.len()
        &&& forall|i: int|
            0 <= i < before.thresholds@.len() ==> (#[trigger] self.thresholds@[i]).completes(
                before.thresholds@[i],
                before.inherited_name(name),
                before.inherited_expiration(),
            )
        &&& self.valid()
    }

    /// The classification itself is in order: it has a threshold, and its
    /// own group name and group expiration, where given, are not empty or zero.
    pub open spec fn in_order(&self) -> bool {
        &&& self.thresholds@.len() > 0
        &&& !(self.group_name is Some && self.group_name->0@.len() == 0)
        &&& self.group_expiration_seconds != Some(0u64)
    }

    /// The classification, called `name`, and its thresholds up to index
    /// `i` are in order.
    pub open spec fn in_order_up_to(&self, name: Seq<char>, i: int) -> bool {
        &&& self.in_order()
        &&& forall|j: int|
            0 <= j <= i && j < self.thresholds@.len() ==> (#[trigger] self.thresholds@[j]).fault(
                self.inherited_name(name),
                self.inherited_expiration(),
            ) is None
    }

    /// This classification is what validation leaves of `before`, called
    /// `name`: the thresholds up to the first one at fault are completed,
    /// the others are as they were, and the longest window is recorded
    /// where nothing was at fault.
    pub open spec fn settles(&self, before: Classification, name: Seq<char>) -> bool {
        &&& self.group_name == before.group_name
        &&& self.group_expiration_seconds == before.group_expiration_seconds
        &&& self.evaluate_all_thresholds == before.evaluate_all_thresholds
        &&& self.recent_values == before.recent_values
        &&& self.thresholds@.len() == before.thresholds@.len()
        &&& forall|i: int|
            0 <= i < before.thresholds@.len() ==> if before.in_order_up_to(name, i) {
                (#[trigger] self.thresholds@[i]).completes(
                    before.thresholds@[i],
                    before.inherited_name(name),
                    before.inherited_expiration(),
                )
            } else {
                self.thresholds@[i] == before.thresholds@[i]
            }
        &&& self.max_duration_ms == if before.accepts(name) {
            longest_window(self.thresholds@)
        } else {
            before.max_duration_ms
        }
    }

    /// No membership that a threshold grants at `now` ends after the last
    /// instant that a timestamp can hold.
    pub open spec fn fits(&self, now: u64) -> bool {
        forall|i: int|
            0 <= i < self.thresholds@.len() ==> (#[trigger] self.thresholds@[i]).expiry(now)
                <= u64::MAX
    }

    /// Whether every membership that a threshold grants at `now` ends no
    /// later than the last instant that a timestamp can hold.
    pub fn fits_at(&self, now: u64) -> (r: bool)
        requires
            self.valid(),
        ensures
            r == self.fits(now),
    {
        let mut i: usize = 0;
        while i < self.thresholds.len()
            invariant
                i <= self.thresholds@.len(),
                self.valid(),
                forall|j: int|
                    0 <= j < i ==> (#[trigger] self.thresholds@[j]).expiry(now) <= u64::MAX,
            decreases self.thresholds@.len() - i,
        {
            if !self.thresholds[i].fits_at(now) {
                return false;
            }
            i += 1;
        }
        true
    }

    /// A classification as configured: not yet validated, without values.
    pub fn new(
        group_name: Option<String>,
        group_expiration_seconds: Option<u64>,
        evaluate_all_thresholds: Option<bool>,
        thresholds: Vec<Threshold>,
    ) -> (c: Self)
        ensures
            c.group_name == group_name,
            c.group_expiration_seconds == group_expiration_seconds,
            c.evaluate_all_thresholds == evaluate_all_thresholds,
            c.thresholds == thresholds,
            c.max_duration_ms == 0,
            c.series() == Seq::<Entry<IpAddr, Series>>::empty(),
            c.wf(),
    {
        let c = Classification {
            group_name,
            group_expiration_seconds,
            evaluate_all_thresholds,
            thresholds,
            max_duration_ms: 0,
            recent_values: Table::new(),
        };
        assert(c.series() =~= Seq::<Entry<IpAddr, Series>>::empty());
        c
    }

    /// Validates the classification, called `name`, and its thresholds in
    /// order, fills in what the thresholds inherit, and records the longest
    /// window. The thresholds before the first one at fault stay filled in;
    /// a classification that is itself at fault is left as it was.
    pub fn validate(&mut self, name: &str) -> (r: Result<(), ConfigError>)
        ensures
            final(self).settles(*old(self), name@),
            match r {
                Ok(_) => old(self).accepts(name@) && final(self).completes(*old(self), name@),
                Err(e) => old(self).rejects(name@, e@),
            },
    {
        let n = self.thresholds.len();
        if n == 0 {
            return Err(ConfigError::new(name, None, Fault::NoThresholds));
        }
        if let Some(group) = &self.group_name {
            if group.as_str().is_empty() {
                return Err(ConfigError::new(name, None, Fault::EmptyGroupName));
            }
        }
        let expiration = match self.group_expiration_seconds {
            Some(seconds) => seconds,
            None => DEFAULT_GROUP_EXPIRATION_SECONDS,
        };
        if expiration == 0 {
            return Err(ConfigError::new(name, None, Fault::ZeroGroupExpiration));
        }
        let ghost before = self.thresholds@;
        let ghost inherited = self.inherited_name(name@);
        let mut longest: u64 = 0;
        let mut index: usize = 0;
        assert(self.thresholds@.take(0) =~= Seq::<Threshold>::empty());
        while index < n
            invariant
                index <= n,
                n == before.len(),
                self.thresholds@.len() == n,
                before == old(self).thresholds@,
                self.group_name == old(self).group_name,
                self.group_expiration_seconds == old(self).group_expiration_seconds,
                self.evaluate_all_thresholds == old(self).evaluate_all_thresholds,
                self.recent_values == old(self).recent_values,
                self.max_duration_ms == old(self).max_duration_ms,
                inherited == old(self).inherited_name(name@),
                expiration == old(self).inherited_expiration(),
                n > 0,
                expiration != 0,
                !(self.group_name is Some && self.group_name->0@.len() == 0),
                forall|j: int|
                    0 <= j < index ==> (#[trigger] self.thresholds@[j]).completes(
                        before[j],
                        inherited,
                        expiration,
                    ),
                forall|j: int| 0 <= j < index ==> (#[trigger] self.thresholds@[j]).valid(),
                forall|j: int|
                    0 <= j < index ==> (#[trigger] before[j]).fault(inherited, expiration) is None,
                forall|j: int| index <= j < n ==> (#[trigger] self.thresholds@[j]) == before[j],
                longest == longest_window(self.thresholds@.take(index as int)),
            decreases n - index,
        {
            let ghost mid = self.thresholds@;
            let inherited_name: &str = match &self.group_name {
                Some(group) => group.as_str(),
                None => name,
            };
            let threshold = &mut self.thresholds[index];
            match threshold.validate(name, index, inherited_name, expiration) {
                Err(e) => {
                    proof {
                        assert(mid[index as int] == before[index as int]);
                        assert(self.thresholds@ =~= mid);
                        assert forall|j: int| 0 <= j < n implies if old(self).in_order_up_to(
                            name@,
                            j,
                        ) {
                            (#[trigger] self.thresholds@[j]).completes(
                                before[j],
                                inherited,
                                expiration,
                            )
                        } else {
                            self.thresholds@[j] == before[j]
                        } by {
                            if j >= index {
                                assert(before[index as int].fault(inherited, expiration) is Some);
                            }
                        }
                    }
                    return Err(e);
                },
                Ok(_) => {},
            }
            if threshold.duration_ms > longest {
                longest = threshold.duration_ms;
            }
            proof {
                let done = self.thresholds@;
                assert(mid[index as int] == before[index as int]);
                assert(done.take(index + 1).drop_last() =~= mid.take(index as int));
                assert(done.take(index + 1).last() == done[index as int]);
                assert forall|j: int| 0 <= j < index + 1 implies (#[trigger] done[j]).completes(
                    before[j],
                    inherited,
                    expiration,
                ) && done[j].valid() by {
                    if j < index {
                        assert(done[j] == mid[j]);
                    }
                }
                assert forall|j: int| index + 1 <= j < n implies (#[trigger] done[j])
                    == before[j] by {
                    assert(done[j] == mid[j]);
                }
            }
            index += 1;
        }
        assert(self.thresholds@.take(n as int) =~= self.thresholds@);
        self.max_duration_ms = longest;
        proof {
            assert forall|j: int| 0 <= j < n implies old(self).in_order_up_to(name@, j) by {
                assert forall|k: int| 0 <= k <= j implies (#[trigger] before[k]).fault(
                    inherited,
                    expiration,
                ) is None by {}
            }
        }
        Ok(())
    }

    /// Appends the value `value`, measured at `timestamp`, to the recent
    /// values of `ip_addr`.
    pub fn add_value(&mut self, ip_addr: IpAddr, timestamp: u64, value: u64)
        requires
            old(self).wf(),
        ensures
            final(self).wf(),
            final(self).series() == recorded(
                old(self).series(),
                ip_addr,
                TimestampedValue { timestamp, value },
            ),
            final(self).keeps_rules(*old(self)),
    {
        let tv = TimestampedValue { timestamp, value };
        let ghost before = self.recent_values@;
        proof {
            lemma_same_keys(before, series_of(before));
        }
        match self.recent_values.find(&ip_addr) {
            Some(i) => {
                proof {
                    lemma_position(series_of(before), i as int);
                }
                let series = self.recent_values.value_mut_at(i);
                series.push_back(tv);
            },
            None => {
                let mut series: VecDeque<TimestampedValue> = VecDeque::new();
                series.push_back(tv);
                self.recent_values.entries.push(Entry { key: ip_addr, value: series });
            },
        }
        proof {
            let after = self.recent_values@;
            assert(self.series() =~= recorded(old(self).series(), ip_addr, tv));
            lemma_upsert(
                series_of(before),
                ip_addr,
                values_for(series_of(before), ip_addr).push(tv),
            );
            lemma_same_keys(after, series_of(after));
        }
    }

    /// Drops, for every peer, the leading values older than the longest
    /// window before `now`, and forgets the peers left without a value.
    pub fn expire_values(&mut self, now: u64)
        requires
            old(self).wf(),
        ensures
            final(self).wf(),
            final(self).series() == swept(old(self).series(), now - old(self).max_duration_ms),
            final(self).keeps_rules(*old(self)),
    {
        let cutoff: u64 = if now >= self.max_duration_ms {
            now - self.max_duration_ms
        } else {
            0
        };
        let ghost c: int = now - self.max_duration_ms;
        let ghost before = self.recent_values@;
        let all = self.recent_values.take_entries();
        let mut kept: Vec<Entry<IpAddr, VecDeque<TimestampedValue>>> = Vec::new();
        assert(series_of(before.take(0)) =~= Seq::<Entry<IpAddr, Series>>::empty());
        assert(series_of(kept@) =~= swept(series_of(before.take(0)), c));
        for e in it: all
            invariant
                it.seq() == before,
                distinct_keys(before),
                c == now - self.max_duration_ms,
                cutoff == if c >= 0 { c } else { 0 },
                series_of(kept@) == swept(series_of(before.take(it.index())), c),
                distinct_keys(kept@),
                forall|j: int|
                    0 <= j < kept@.len() ==> has_key(
                        before.take(it.index()),
                        (#[trigger] kept@[j]).key,
                    ),
                forall|j: int| 0 <= j < kept@.len() ==> (#[trigger] kept@[j]).value@.len() > 0,
                self.group_name == old(self).group_name,
                self.group_expiration_seconds == old(self).group_expiration_seconds,
                self.evaluate_all_thresholds == old(self).evaluate_all_thresholds,
                self.thresholds == old(self).thresholds,
                self.max_duration_ms == old(self).max_duration_ms,
        {
            let ghost i = it.index();
            let mut entry = e;
            let ghost whole = entry.value@;
            while entry.value.len() > 0 && entry.value[0].timestamp < cutoff
                invariant
                    drop_old(entry.value@, c) == drop_old(whole, c),
                    entry.key == e.key,
                    cutoff == if c >= 0 { c } else { 0 },
                decreases entry.value@.len(),
            {
                proof {
                    assert(entry.value@.drop_first() =~= entry.value@.subrange(
                        1,
                        entry.value@.len() as int,
                    ));
                }
                entry.value.pop_front();
            }
            proof {
                let s = series_of(before.take(i + 1));
                assert(s.drop_last() =~= series_of(before.take(i)));
                assert(s.last() == Entry { key: e.key, value: whole });
                lemma_swept_step(s, c);
                assert(sweep_one(c)(s.last()) == Entry { key: e.key, value: entry.value@ });
                let old_kept = kept@;
                assert forall|j: int| 0 <= j < old_kept.len() implies has_key(
                    before.take(i + 1),
                    (#[trigger] old_kept[j]).key,
                ) && old_kept[j].key != e.key by {
                    let k = old_kept[j].key;
                    let p = position(before.take(i), k);
                    assert(before.take(i + 1)[p].key == k);
                    assert(before[p].key != before[i].key);
                }
            }
            if entry.value.len() > 0 {
                let ghost old_kept = kept@;
                kept.push(entry);
                proof {
                    assert(series_of(kept@) =~= series_of(old_kept).push(
                        Entry { key: e.key, value: entry.value@ },
                    ));
                    assert(before.take(i + 1)[i].key == e.key);
                    assert forall|a: int, b: int| 0 <= a < b < kept@.len() implies kept@[a].key
                        != kept@[b].key by {
                        if b == old_kept.len() {
                            assert(old_kept[a].key != e.key);
                        } else {
                            assert(old_kept[a].key != old_kept[b].key);
                        }
                    }
                }
            }
        }
        proof {
            assert(before.take(before.len() as int) =~= before);
        }
        self.recent_values.entries = kept;
    }

    /// Evaluates the thresholds, in order, for the peer at index `k` of the
    /// recent values.
    pub fn evaluate_peer(
        &self,
        stakes: &Table<IpAddr, u64>,
        groups: &mut Groups,
        now: u64,
        k: usize,
        log: &mut Vec<Decision>,
    )
        requires
            self.valid(),
            self.fits(now),
            stakes.wf(),
            old(groups).wf(),
            k < self.recent_values@.len(),
        ensures
            final(groups).wf(),
            final(groups)@ == evaluate_thresholds(
                self.thresholds@,
                0,
                self.evaluates_all(),
                stake_of(stakes@, self.series()[k as int].key),
                now,
                self.series()[k as int].key,
                self.series()[k as int].value,
                old(groups)@,
            ).registry,
            decisions(final(log)@) == decisions(old(log)@) + evaluate_thresholds(
                self.thresholds@,
                0,
                self.evaluates_all(),
                stake_of(stakes@, self.series()[k as int].key),
                now,
                self.series()[k as int].key,
                self.series()[k as int].value,
                old(groups)@,
            ).declared,
    {
        let peer = self.recent_values.entry_at(k);
        let evaluate_all = match self.evaluate_all_thresholds {
            Some(true) => true,
            _ => false,
        };
        let ghost ts = self.thresholds@;
        let ghost stake = stake_of(stakes@, peer.key);
        let ghost base = decisions(log@);
        let ghost goal = evaluate_thresholds(
            ts,
            0,
            evaluate_all,
            stake,
            now,
            peer.key,
            peer.value@,
            groups@,
        );
        let n = self.thresholds.len();
        let mut index: usize = 0;
        let mut done = false;
        assert(base + goal.declared =~= decisions(log@) + goal.declared);
        while index < n && !done
            invariant
                index <= n,
                n == ts.len(),
                ts == self.thresholds@,
                self.valid(),
                self.fits(now),
                stakes.wf(),
                groups.wf(),
                stake == stake_of(stakes@, peer.key),
                done ==> groups@ == goal.registry && decisions(log@) == base + goal.declared,
                !done ==> evaluate_thresholds(
                    ts,
                    index as int,
                    evaluate_all,
                    stake,
                    now,
                    peer.key,
                    peer.value@,
                    groups@,
                ).registry == goal.registry,
                !done ==> decisions(log@) + evaluate_thresholds(
                    ts,
                    index as int,
                    evaluate_all,
                    stake,
                    now,
                    peer.key,
                    peer.value@,
                    groups@,
                ).declared == base + goal.declared,
            decreases
                    (if done {
                        0
                    } else {
                        n - index + 1
                    }),
        {
            let ghost log_then = decisions(log@);
            let ghost registry_then = groups@;
            let ghost here = evaluate_thresholds(
                ts,
                index as int,
                evaluate_all,
                stake,
                now,
                peer.key,
                peer.value@,
                registry_then,
            );
            let threshold = &self.thresholds[index];
            let stop = threshold.stop_after_exceeded(
                stakes,
                now,
                &peer.key,
                &peer.value,
                groups,
                log,
            );
            proof {
                let said = threshold.declares(registry_then, stake, now, peer.key, peer.value@);
                if stop && !evaluate_all {
                    assert(here.declared == said);
                } else {
                    let rest = evaluate_thresholds(
                        ts,
                        index + 1,
                        evaluate_all,
                        stake,
                        now,
                        peer.key,
                        peer.value@,
                        groups@,
                    );
                    assert(here.declared == said + rest.declared);
                    assert((log_then + said) + rest.declared =~= log_then + (said + rest.declared));
                }
            }
            if stop && !evaluate_all {
                done = true;
            } else {
                index += 1;
            }
        }
        proof {
            if !done {
                assert(decisions(log@) + Seq::<DecisionView>::empty() =~= decisions(log@));
            }
        }
    }

    /// The work of one tick: drops the values that are too old for any
    /// window, then evaluates the thresholds for every peer that still has
    /// values, in the order in which the peers were first seen.
    pub fn periodic(
        &mut self,
        stakes: &Table<IpAddr, u64>,
        groups: &mut Groups,
        now: u64,
        log: &mut Vec<Decision>,
    )
        requires
            old(self).wf(),
            old(self).valid(),
            old(self).fits(now),
            stakes.wf(),
            old(groups).wf(),
        ensures
            final(self).wf(),
            final(self).valid(),
            final(self).series() == swept(old(self).series(), now - old(self).max_duration_ms),
            final(self).keeps_rules(*old(self)),
            final(groups).wf(),
            final(groups)@ == evaluate_peers(
                final(self).series(),
                old(self).thresholds@,
                old(self).evaluates_all(),
                stakes@,
                now,
                old(groups)@,
            ).registry,
            decisions(final(log)@) == decisions(old(log)@) + evaluate_peers(
                final(self).series(),
                old(self).thresholds@,
                old(self).evaluates_all(),
                stakes@,
                now,
                old(groups)@,
            ).declared,
    {
        self.expire_values(now);
        let ghost s = self.series();
        let ghost ts = self.thresholds@;
        let ghost all = self.evaluates_all();
        let ghost base = decisions(log@);
        let ghost start = groups@;
        let n = self.recent_values.len();
        let mut k: usize = 0;
        assert(s.take(0) =~= Seq::<Entry<IpAddr, Series>>::empty());
        assert(decisions(log@) =~= base + Seq::<DecisionView>::empty());
        while k < n
            invariant
                k <= n,
                n == s.len(),
                s == self.series(),
                ts == self.thresholds@,
                all == self.evaluates_all(),
                self.valid(),
                self.fits(now),
                stakes.wf(),
                groups.wf(),
                groups@ == evaluate_peers(s.take(k as int), ts, all, stakes@, now, start).registry,
                decisions(log@) == base + evaluate_peers(
                    s.take(k as int),
                    ts,
                    all,
                    stakes@,
                    now,
                    start,
                ).declared,
            decreases n - k,
        {
            let ghost log_then = decisions(log@);
            let ghost so_far = evaluate_peers(s.take(k as int), ts, all, stakes@, now, start);
            self.evaluate_peer(stakes, groups, now, k, log);
            proof {
                assert(s.take(k + 1).drop_last() =~= s.take(k as int));
                assert(s.take(k + 1).last() == s[k as int]);
                let this = evaluate_thresholds(
                    ts,
                    0,
                    all,
                    stake_of(stakes@, s[k as int].key),
                    now,
                    s[k as int].key,
                    s[k as int].value,
                    so_far.registry,
                );
                assert((base + so_far.declared) + this.declared =~= base + (so_far.declared
                    + this.declared));
            }
            k += 1;
        }
        assert(s.take(n as int) =~= s);
    }
}

/// Sweeping a table is sweeping all but its last peer, and then the last.
pub proof fn lemma_swept_step(s: SeriesTable, cutoff: int)
    requires
        s.len() > 0,
    ensures
        swept(s, cutoff) == if drop_old(s.last().value, cutoff).len() > 0 {
            swept(s.drop_last(), cutoff).push(sweep_one(cutoff)(s.last()))
        } else {
            swept(s.drop_last(), cutoff)
        },
{
    reveal(Seq::filter);
    let m = s.map_values(sweep_one(cutoff));
    assert(m.drop_last() =~= s.drop_last().map_values(sweep_one(cutoff)));
    assert(m.last() == sweep_one(cutoff)(s.last()));
}

/// What is left of a series in time order holds no value older than `cutoff`.
pub proof fn lemma_drop_old_leaves_recent(series: Series, cutoff: int)
    requires
        in_time_order(series),
    ensures
        in_time_order(drop_old(series, cutoff)),
        forall|i: int|
            0 <= i < drop_old(series, cutoff).len() ==> (#[trigger] drop_old(
                series,
                cutoff,
            )[i]).timestamp >= cutoff,
    decreases series.len(),
{
    if series.len() > 0 && series[0].timestamp < cutoff {
        let rest = series.drop_first();
        assert forall|i: int, j: int| 0 <= i <= j < rest.len() implies rest[i].timestamp
            <= rest[j].timestamp by {
            assert(series[i + 1].timestamp <= series[j + 1].timestamp);
        }
        lemma_drop_old_leaves_recent(rest, cutoff);
    } else if series.len() > 0 {
        assert forall|i: int| 0 <= i < series.len() implies (#[trigger] series[i]).timestamp
            >= cutoff by {
            assert(series[0].timestamp <= series[i].timestamp);
        }
    }
}

/// After a sweep every peer that still has an entry has a value. Where the
/// values of each peer were in time order before, they are so after, and
/// none of them is older than `cutoff`.
pub proof fn lemma_swept_series_are_recent(s: SeriesTable, cutoff: int)
    ensures
        forall|i: int|
            0 <= i < swept(s, cutoff).len() ==> (#[trigger] swept(s, cutoff)[i]).value.len() > 0,
        (forall|i: int| 0 <= i < s.len() ==> in_time_order((#[trigger] s[i]).value)) ==> recent(
            swept(s, cutoff),
            cutoff,
        ),
    decreases s.len(),
{
    if s.len() == 0 {
        reveal(Seq::filter);
    } else {
        lemma_swept_step(s, cutoff);
        lemma_swept_series_are_recent(s.drop_last(), cutoff);
        let rest = swept(s.drop_last(), cutoff);
        let t = swept(s, cutoff);
        if forall|i: int| 0 <= i < s.len() ==> in_time_order((#[trigger] s[i]).value) {
            assert forall|i: int| 0 <= i < s.drop_last().len() implies in_time_order(
                (#[trigger] s.drop_last()[i]).value,
            ) by {
                assert(in_time_order(s[i].value));
            }
            assert(in_time_order(s[s.len() - 1].value));
            lemma_drop_old_leaves_recent(s.last().value, cutoff);
            assert forall|i: int| 0 <= i < t.len() implies in_time_order((#[trigger] t[i]).value)
                && forall|j: int|
                0 <= j < t[i].value.len() ==> (#[trigger] t[i].value[j]).timestamp >= cutoff by {
                if i < rest.len() {
                    assert(t[i] == rest[i]);
                }
            }
        }
        assert forall|i: int| 0 <= i < t.len() implies (#[trigger] t[i]).value.len() > 0 by {
            if i < rest.len() {
                assert(t[i] == rest[i]);
            }
        }
    }
}

/// The evaluation of the thresholds for one peer ends no membership and
/// lowers no expiry.
pub proof fn lemma_thresholds_never_lower(
    thresholds: Seq<Threshold>,
    from: int,
    evaluate_all: bool,
    stake: u64,
    now: u64,
    ip: IpAddr,
    series: Series,
    registry: Registry,
    name: Seq<char>,
    member: IpAddr,
)
    requires
        registry_wf(registry),
    ensures
        registry_wf(
            evaluate_thresholds(
                thresholds,
                from,
                evaluate_all,
                stake,
                now,
                ip,
                series,
                registry,
            ).registry,
        ),
        expiry_in(registry, name, member) is Some ==> expiry_in(
            evaluate_thresholds(
                thresholds,
                from,
                evaluate_all,
                stake,
                now,
                ip,
                series,
                registry,
            ).registry,
            name,
            member,
        ) is Some && expiry_in(
            evaluate_thresholds(
                thresholds,
                from,
                evaluate_all,
                stake,
                now,
                ip,
                series,
                registry,
            ).registry,
            name,
            member,
        )->0 >= expiry_in(registry, name, member)->0,
    decreases thresholds.len() - from,
{
    if 0 <= from < thresholds.len() {
        let t = thresholds[from];
        let next = t.registry_after(registry, stake, now, ip, series);
        if t.holds(stake, now, series) {
            lemma_add_never_lowers(
                registry,
                t.group(),
                ip,
                t.expiry(now) as u64,
                name,
                member,
            );
        }
        if !(t.holds(stake, now, series) && t.stops() && !evaluate_all) {
            lemma_thresholds_never_lower(
                thresholds,
                from + 1,
                evaluate_all,
                stake,
                now,
                ip,
                series,
                next,
                name,
                member,
            );
        }
    }
}

/// The evaluation of the thresholds for every peer ends no membership and
/// lowers no expiry.
pub proof fn lemma_evaluation_never_lowers(
    s: SeriesTable,
    thresholds: Seq<Threshold>,
    evaluate_all: bool,
    stakes: Seq<Entry<IpAddr, u64>>,
    now: u64,
    registry: Registry,
    name: Seq<char>,
    member: IpAddr,
)
    requires
        registry_wf(registry),
    ensures
        registry_wf(
            evaluate_peers(s, thresholds, evaluate_all, stakes, now, registry).registry,
        ),
        expiry_in(registry, name, member) is Some ==> expiry_in(
            evaluate_peers(s, thresholds, evaluate_all, stakes, now, registry).registry,
            name,
            member,
        ) is Some && expiry_in(
            evaluate_peers(s, thresholds, evaluate_all, stakes, now, registry).registry,
            name,
            member,
        )->0 >= expiry_in(registry, name, member)->0,
    decreases s.len(),
{
    if s.len() > 0 {
        lemma_evaluation_never_lowers(
            s.drop_last(),
            thresholds,
            evaluate_all,
            stakes,
            now,
            registry,
            name,
            member,
        );
        let before = evaluate_peers(s.drop_last(), thresholds, evaluate_all, stakes, now, registry);
        lemma_thresholds_never_lower(
            thresholds,
            0,
            evaluate_all,
            stake_of(stakes, s.last().key),
            now,
            s.last().key,
            s.last().value,
            before.registry,
            name,
            member,
        );
    }
}

/// Values that are timely at one instant are timely at every later one.
pub proof fn lemma_timely_later(s: SeriesTable, now: u64, later: u64)
    requires
        timely(s, now),
        now <= later,
    ensures
        timely(s, later),
{
    assert forall|i: int| 0 <= i < s.len() implies in_time_order((#[trigger] s[i]).value)
        && forall|j: int|
        0 <= j < s[i].value.len() ==> (#[trigger] s[i].value[j]).timestamp <= later by {
        assert forall|j: int| 0 <= j < s[i].value.len() implies (
        #[trigger] s[i].value[j]).timestamp <= later by {
            assert(s[i].value[j].timestamp <= now);
        }
    }
}

/// A value that is appended at the latest instant so far keeps the values timely.
pub proof fn lemma_recorded_timely(s: SeriesTable, ip: IpAddr, tv: TimestampedValue)
    requires
        distinct_keys(s),
        timely(s, tv.timestamp),
    ensures
        timely(recorded(s, ip, tv), tv.timestamp),
{
    let t = recorded(s, ip, tv);
    let grown = values_for(s, ip).push(tv);
    lemma_upsert(s, ip, grown);
    if has_key(s, ip) {
        let p = position(s, ip);
        assert(in_time_order(s[p].value));
        assert forall|a: int, b: int| 0 <= a <= b < grown.len() implies grown[a].timestamp
            <= grown[b].timestamp by {
            if b < s[p].value.len() {
                assert(s[p].value[a].timestamp <= s[p].value[b].timestamp);
            } else if a < s[p].value.len() {
                assert(s[p].value[a].timestamp <= tv.timestamp);
            }
        }
        assert forall|i: int| 0 <= i < t.len() implies in_time_order((#[trigger] t[i]).value)
            && forall|j: int|
            0 <= j < t[i].value.len() ==> (#[trigger] t[i].value[j]).timestamp <= tv.timestamp by {
            if i != p {
                assert(t[i] == s[i]);
            } else {
                assert forall|j: int| 0 <= j < t[i].value.len() implies (
                #[trigger] t[i].value[j]).timestamp <= tv.timestamp by {
                    if j < s[p].value.len() {
                        assert(s[p].value[j].timestamp <= tv.timestamp);
                    }
                }
            }
        }
    } else {
        assert forall|i: int| 0 <= i < t.len() implies in_time_order((#[trigger] t[i]).value)
            && forall|j: int|
            0 <= j < t[i].value.len() ==> (#[trigger] t[i].value[j]).timestamp <= tv.timestamp by {
            if i < s.len() {
                assert(t[i] == s[i]);
            }
        }
    }
}

/// Sweeping timely values leaves timely values, none older than `cutoff`.
pub proof fn lemma_swept_timely(s: SeriesTable, cutoff: int, now: u64)
    requires
        timely(s, now),
    ensures
        timely(swept(s, cutoff), now),
        recent(swept(s, cutoff), cutoff),
    decreases s.len(),
{
    if s.len() == 0 {
        reveal(Seq::filter);
    } else {
        lemma_swept_step(s, cutoff);
        let front = s.drop_last();
        assert forall|i: int| 0 <= i < front.len() implies in_time_order(
            (#[trigger] front[i]).value,
        ) && forall|j: int|
            0 <= j < front[i].value.len() ==> (#[trigger] front[i].value[j]).timestamp <= now by {
            assert(front[i] == s[i]);
        }
        lemma_swept_timely(front, cutoff, now);
        let rest = swept(front, cutoff);
        let t = swept(s, cutoff);
        let last = s.last();
        assert(last == s[s.len() - 1]);
        lemma_drop_old_leaves_recent(last.value, cutoff);
        lemma_drop_old_is_a_suffix(last.value, cutoff);
        let kept = drop_old(last.value, cutoff);
        assert forall|i: int| 0 <= i < t.len() implies in_time_order((#[trigger] t[i]).value) && (
        forall|j: int| 0 <= j < t[i].value.len() ==> (#[trigger] t[i].value[j]).timestamp <= now)
            && (forall|j: int|
            0 <= j < t[i].value.len() ==> (#[trigger] t[i].value[j]).timestamp >= cutoff) by {
            if i < rest.len() {
                assert(t[i] == rest[i]);
            } else {
                assert(t[i].value == kept);
                assert forall|j: int| 0 <= j < kept.len() implies (#[trigger] kept[j]).timestamp
                    <= now by {
                    let k = last.value.len() - kept.len();
                    assert(kept[j] == last.value[j + k]);
                }
            }
        }
    }
}

/// What is left of a series after its leading old values were dropped is
/// the end of the series.
pub proof fn lemma_drop_old_is_a_suffix(series: Series, cutoff: int)
    ensures
        drop_old(series, cutoff).len() <= series.len(),
        forall|j: int|
            0 <= j < drop_old(series, cutoff).len() ==> (#[trigger] drop_old(series, cutoff)[j])
                == series[j + series.len() - drop_old(series, cutoff).len()],
    decreases series.len(),
{
    if series.len() > 0 && series[0].timestamp < cutoff {
        lemma_drop_old_is_a_suffix(series.drop_first(), cutoff);
    }
}

/// Where none of the thresholds from `from` on holds for a peer, their
/// evaluation changes nothing and declares nothing.
pub proof fn lemma_no_threshold_holds(
    thresholds: Seq<Threshold>,
    from: int,
    evaluate_all: bool,
    stake: u64,
    now: u64,
    ip: IpAddr,
    series: Series,
    registry: Registry,
)
    requires
        forall|i: int|
            from <= i < thresholds.len() && 0 <= i ==> !(#[trigger] thresholds[i]).holds(
                stake,
                now,
                series,
            ),
    ensures
        evaluate_thresholds(thresholds, from, evaluate_all, stake, now, ip, series, registry)
            == (Outcome { registry, declared: Seq::empty() }),
    decreases thresholds.len() - from,
{
    if 0 <= from < thresholds.len() {
        assert(!thresholds[from].holds(stake, now, series));
        lemma_no_threshold_holds(
            thresholds,
            from + 1,
            evaluate_all,
            stake,
            now,
            ip,
            series,
            registry,
        );
        assert(Seq::<DecisionView>::empty() + Seq::<DecisionView>::empty() =~= Seq::<
            DecisionView,
        >::empty());
    }
}

/// Where not every threshold is to be evaluated, the first threshold that
/// holds for a peer decides, if it stops: the peer joins the group of that
/// threshold, and no later threshold is evaluated for it.
pub proof fn lemma_first_threshold_that_holds_decides(
    thresholds: Seq<Threshold>,
    from: int,
    first: int,
    stake: u64,
    now: u64,
    ip: IpAddr,
    series: Series,
    registry: Registry,
)
    requires
        0 <= from <= first < thresholds.len(),
        thresholds[first].holds(stake, now, series),
        thresholds[first].stops(),
        forall|i: int| from <= i < first ==> !(#[trigger] thresholds[i]).holds(stake, now, series),
    ensures
        evaluate_thresholds(thresholds, from, false, stake, now, ip, series, registry) == (Outcome {
            registry: thresholds[first].registry_after(registry, stake, now, ip, series),
            declared: thresholds[first].declares(registry, stake, now, ip, series),
        }),
    decreases first - from,
{
    if from < first {
        assert(!thresholds[from].holds(stake, now, series));
        lemma_first_threshold_that_holds_decides(
            thresholds,
            from + 1,
            first,
            stake,
            now,
            ip,
            series,
            registry,
        );
        assert(Seq::<DecisionView>::empty() + thresholds[first].declares(
            registry,
            stake,
            now,
            ip,
            series,
        ) =~= thresholds[first].declares(registry, stake, now, ip, series));
    }
}

/// The evaluation of the thresholds for one peer changes the memberships
/// of that peer alone.
pub proof fn lemma_thresholds_touch_one_peer(
    thresholds: Seq<Threshold>,
    from: int,
    evaluate_all: bool,
    stake: u64,
    now: u64,
    ip: IpAddr,
    series: Series,
    registry: Registry,
    name: Seq<char>,
    member: IpAddr,
)
    requires
        registry_wf(registry),
        member != ip,
    ensures
        expiry_in(
            evaluate_thresholds(
                thresholds,
                from,
                evaluate_all,
                stake,
                now,
                ip,
                series,
                registry,
            ).registry,
            name,
            member,
        ) == expiry_in(registry, name, member),
    decreases thresholds.len() - from,
{
    if 0 <= from < thresholds.len() {
        let t = thresholds[from];
        let next = t.registry_after(registry, stake, now, ip, series);
        if t.holds(stake, now, series) {
            lemma_add_never_lowers(
                registry,
                t.group(),
                ip,
                t.expiry(now) as u64,
                name,
                member,
            );
        }
        if !(t.holds(stake, now, series) && t.stops() && !evaluate_all) {
            lemma_thresholds_touch_one_peer(
                thresholds,
                from + 1,
                evaluate_all,
                stake,
                now,
                ip,
                series,
                next,
                name,
                member,
            );
        }
    }
}

/// The evaluation of the thresholds for the peers that have values leaves
/// the memberships of every other peer as they are.
pub proof fn lemma_evaluation_touches_only_its_peers(
    s: SeriesTable,
    thresholds: Seq<Threshold>,
    evaluate_all: bool,
    stakes: Seq<Entry<IpAddr, u64>>,
    now: u64,
    registry: Registry,
    name: Seq<char>,
    member: IpAddr,
)
    requires
        registry_wf(registry),
        !has_key(s, member),
    ensures
        expiry_in(
            evaluate_peers(s, thresholds, evaluate_all, stakes, now, registry).registry,
            name,
            member,
        ) == expiry_in(registry, name, member),
    decreases s.len(),
{
    if s.len() > 0 {
        let front = s.drop_last();
        assert(!has_key(front, member)) by {
            if has_key(front, member) {
                let i = position(front, member);
                assert(s[i].key == member);
            }
        }
        assert(s[s.len() - 1].key != member);
        lemma_evaluation_touches_only_its_peers(
            front,
            thresholds,
            evaluate_all,
            stakes,
            now,
            registry,
            name,
            member,
        );
        lemma_evaluation_never_lowers(
            front,
            thresholds,
            evaluate_all,
            stakes,
            now,
            registry,
            name,
            member,
        );
        let before = evaluate_peers(front, thresholds, evaluate_all, stakes, now, registry);
        lemma_thresholds_touch_one_peer(
            thresholds,
            0,
            evaluate_all,
            stake_of(stakes, s.last().key),
            now,
            s.last().key,
            s.last().value,
            before.registry,
            name,
            member,
        );
    }
}

} // verus!
