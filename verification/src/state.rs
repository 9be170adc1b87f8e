//! The state of the classifier and the events that change it: the table of
//! peers with their stakes, the ledger of the transactions that were
//! recently submitted, the classifications, and the groups that result.

use vstd::prelude::*;
use crate::classification::{
    evaluate_peers, lemma_evaluation_never_lowers, lemma_recorded_timely, lemma_swept_timely,
    lemma_timely_later, recorded, swept, Classification, Outcome, SeriesTable, TimestampedValue,
};
use crate::clock::{lemma_step_never_goes_back, Clock};
use crate::config::{
    slot_fits, Config, KnownPubkey, Metric, DEFAULT_USELESS_QUIC_CONNECTION_DURATION_MS,
};
use crate::decision::{declare, declared, decisions, Decision, DecisionView};
use crate::group::{
    expiry_in, lemma_add_never_lowers, lemma_reaping_keeps_the_rest, reaped, registry_add,
    registry_change, registry_wf, removals, Groups, Registry, DEFAULT_GROUP_EXPIRATION_SECONDS,
};
use crate::key::{parse_pubkey, pubkey_from_base58, IpAddr, Pubkey, Signature};
use crate::table::{
    distinct_keys, has_key, keys, lemma_filter, lemma_position, lemma_same_keys, lemma_upsert,
    lemma_without_all, position, upsert, value_of, without_all, Entry, Table,
};

verus! {

/// How long a transaction is kept after its first submission: two minutes.
pub const TX_RETENTION_DURATION_MS: u64 = 120_000;

/// How long a peer is kept after its last event: three days.
pub const PEER_RETENTION_DURATION_MS: u64 = 259_200_000;

/// What is known of one peer.
#[derive(Clone, Copy, Debug, PartialEq, Eq, Structural)]
pub struct Peer {
    /// The effective timestamp of the first event of this peer.
    pub first_timestamp: u64,
    /// The effective timestamp of the latest event of this peer.
    pub most_recent_timestamp: u64,
    /// How many transactions, votes included, the peer has submitted.
    pub tx_submitted: u64,
}

impl Peer {
    /// The peer was first seen no later than last, and last no later than `now`.
    pub open spec fn wf_at(&self, now: u64) -> bool {
        self.first_timestamp <= self.most_recent_timestamp <= now
    }
}

/// The peers in the order in which they were first seen.
pub type Peers = Seq<Entry<IpAddr, Peer>>;

/// The peers after a connection of `ip` started at `t`: a new peer is
/// entered, a known one was last seen at `t`.
pub open spec fn greeted(peers: Peers, ip: IpAddr, t: u64) -> Peers {
    upsert(
        peers,
        ip,
        if has_key(peers, ip) {
            Peer {
                first_timestamp: value_of(peers, ip).first_timestamp,
                most_recent_timestamp: t,
                tx_submitted: value_of(peers, ip).tx_submitted,
            }
        } else {
            Peer { first_timestamp: t, most_recent_timestamp: t, tx_submitted: 0 }
        },
    )
}

/// The peers after an event of `ip` at `t` that brought `submitted`
/// transactions. An event of an unknown peer changes nothing.
pub open spec fn heard(peers: Peers, ip: IpAddr, t: u64, submitted: int) -> Peers {
    if has_key(peers, ip) {
        upsert(
            peers,
            ip,
            Peer {
                first_timestamp: value_of(peers, ip).first_timestamp,
                most_recent_timestamp: t,
                tx_submitted: (value_of(peers, ip).tx_submitted + submitted) as u64,
            },
        )
    } else {
        peers
    }
}

/// What a transaction paid and what it was allowed to use and used.
#[derive(Clone, Copy, Debug, PartialEq, Eq, Structural)]
pub struct Fee {
    /// The fee in lamports.
    pub total: u64,
    /// The compute units that the transaction declared as its limit.
    pub cu_limit: u64,
    /// The compute units that the transaction used.
    pub cu_used: u64,
}

impl Fee {
    /// The fee of a transaction that did not land, and of every submission
    /// but the first: nothing paid, with one compute unit so that the fee
    /// per compute unit is defined.
    pub open spec fn zero_fee() -> Fee {
        Fee { total: 0, cu_limit: 1, cu_used: 1 }
    }

    /// The fee in microlamports per compute unit of the declared limit.
    pub open spec fn per_cu_limit(&self) -> int {
        (self.total * 1000) / (self.cu_limit as int)
    }

    /// The fee in microlamports per compute unit used.
    pub open spec fn per_cu_used(&self) -> int {
        (self.total * 1000) / (self.cu_used as int)
    }

    /// The value of this fee for `metric` is defined and is a value that a
    /// classification can hold: the compute units that a fee per compute
    /// unit is divided by are not zero, and the quotient fits. The fee in
    /// lamports is always such a value.
    pub open spec fn measurable_for(&self, metric: Metric) -> bool {
        match metric {
            Metric::FeeMicrolamportsPerCuLimit => self.cu_limit > 0 && self.per_cu_limit()
                <= u64::MAX,
            Metric::FeeMicrolamportsPerCuUsed => self.cu_used > 0 && self.per_cu_used() <= u64::MAX,
            _ => true,
        }
    }

    /// The value of this fee for a fee metric; 0 for any other metric.
    pub open spec fn value(&self, metric: Metric) -> int {
        match metric {
            Metric::FeeLamportsSubmitted => self.total as int,
            Metric::FeeMicrolamportsPerCuLimit => self.per_cu_limit(),
            Metric::FeeMicrolamportsPerCuUsed => self.per_cu_used(),
            _ => 0,
        }
    }

    /// The fee of a transaction that paid nothing.
    pub fn zero() -> (fee: Fee)
        ensures
            fee == Fee::zero_fee(),
            forall|metric: Metric| #[trigger] fee.measurable_for(metric),
    {
        Fee { total: 0, cu_limit: 1, cu_used: 1 }
    }

    /// Whether the value of this fee for `metric` is defined and fits a value.
    pub fn is_measurable_for(&self, metric: Metric) -> (r: bool)
        ensures
            r == self.measurable_for(metric),
    {
        let scaled: u128 = self.total as u128 * 1000;
        match metric {
            Metric::FeeMicrolamportsPerCuLimit => self.cu_limit > 0 && scaled / (
            self.cu_limit as u128) <= u64::MAX as u128,
            Metric::FeeMicrolamportsPerCuUsed => self.cu_used > 0 && scaled / (
            self.cu_used as u128) <= u64::MAX as u128,
            _ => true,
        }
    }

    /// The value of this fee for `metric`.
    pub fn measure(&self, metric: Metric) -> (v: u64)
        requires
            self.measurable_for(metric),
        ensures
            v == self.value(metric),
    {
        let scaled: u128 = self.total as u128 * 1000;
        match metric {
            Metric::FeeLamportsSubmitted => self.total,
            Metric::FeeMicrolamportsPerCuLimit => (scaled / (self.cu_limit as u128)) as u64,
            Metric::FeeMicrolamportsPerCuUsed => (scaled / (self.cu_used as u128)) as u64,
            _ => 0,
        }
    }
}

/// One submission of a transaction.
#[derive(Clone, Copy, Debug, PartialEq, Eq, Structural)]
pub struct SubmittedTx {
    /// The effective timestamp of the submission.
    pub timestamp: u64,
    /// The peer that submitted the transaction.
    pub submitter: IpAddr,
}

/// A transaction that was submitted recently.
#[derive(Debug)]
pub struct Tx {
    /// The first submission of each peer that submitted the transaction, in
    /// the order in which they came.
    pub submissions: Vec<SubmittedTx>,
    /// The fee that the transaction paid, once it is known to have landed.
    pub fee: Option<Fee>,
}

/// A transaction with its submissions as a sequence.
pub struct TxView {
    pub submissions: Seq<SubmittedTx>,
    pub fee: Option<Fee>,
}

impl TxView {
    /// Whether `ip` has submitted the transaction.
    pub open spec fn submitted_by(&self, ip: IpAddr) -> bool {
        exists|i: int|
            0 <= i < self.submissions.len() && (#[trigger] self.submissions[i]).submitter == ip
    }

    /// The peers that have submitted the transaction.
    pub open spec fn submitters(&self) -> Set<IpAddr> {
        Set::new(|ip: IpAddr| self.submitted_by(ip))
    }

    /// The transaction has a first submission, and no peer occurs twice
    /// among its submitters.
    pub open spec fn wf(&self) -> bool {
        &&& self.submissions.len() > 0
        &&& forall|i: int, j: int|
            0 <= i < j < self.submissions.len() ==> self.submissions[i].submitter
                != self.submissions[j].submitter
    }

    /// The transaction after `ip` submitted it at `t`: the first submission
    /// of a peer is appended, a further one changes nothing.
    pub open spec fn resubmitted(&self, t: u64, ip: IpAddr) -> TxView {
        if self.submitted_by(ip) {
            *self
        } else {
            TxView {
                submissions: self.submissions.push(SubmittedTx { timestamp: t, submitter: ip }),
                fee: self.fee,
            }
        }
    }

    /// A transaction that `ip` submitted at `t` and nobody else has yet.
    pub open spec fn first(t: u64, ip: IpAddr) -> TxView {
        TxView { submissions: seq![SubmittedTx { timestamp: t, submitter: ip }], fee: None }
    }
}

impl View for Tx {
    type V = TxView;

    open spec fn view(&self) -> TxView {
        TxView { submissions: self.submissions@, fee: self.fee }
    }
}

impl Tx {
    /// A transaction first submitted by `first_submitter` at `timestamp`.
    pub fn new(timestamp: u64, first_submitter: IpAddr) -> (tx: Self)
        ensures
            tx@ == TxView::first(timestamp, first_submitter),
            tx@.wf(),
    {
        let mut submissions: Vec<SubmittedTx> = Vec::new();
        submissions.push(SubmittedTx { timestamp, submitter: first_submitter });
        let tx = Tx { submissions, fee: None };
        assert(tx@.submissions =~= seq![SubmittedTx { timestamp, submitter: first_submitter }]);
        tx
    }

    /// Whether `ip` has submitted the transaction.
    pub fn has_submitter(&self, ip: &IpAddr) -> (r: bool)
        ensures
            r == self@.submitted_by(*ip),
    {
        let mut i: usize = 0;
        while i < self.submissions.len()
            invariant
                i <= self.submissions@.len(),
                forall|j: int| 0 <= j < i ==> self.submissions@[j].submitter != *ip,
            decreases self.submissions@.len() - i,
        {
            if self.submissions[i].submitter == *ip {
                return true;
            }
            i += 1;
        }
        false
    }

    /// Records that `submitter` submitted the transaction at `timestamp`.
    /// Only the first submission of a peer is recorded: a peer that submits
    /// the transaction again leaves the submissions and the submitters as
    /// they are.
    pub fn submitted(&mut self, timestamp: u64, submitter: IpAddr)
        requires
            old(self)@.wf(),
        ensures
            final(self)@.wf(),
            final(self)@ == old(self)@.resubmitted(timestamp, submitter),
            final(self)@.submitters() == old(self)@.submitters().insert(submitter),
            old(self)@.submitted_by(submitter) ==> final(self)@.submissions
                == old(self)@.submissions && final(self)@.submitters() == old(self)@.submitters(),
    {
        if !self.has_submitter(&submitter) {
            self.submissions.push(SubmittedTx { timestamp, submitter });
        }
        proof {
            let before = old(self)@;
            let after = self@;
            assert forall|ip: IpAddr| after.submitted_by(ip) == (before.submitted_by(ip) || ip
                == submitter) by {
                if before.submitted_by(ip) {
                    let i = choose|i: int|
                        0 <= i < before.submissions.len() && (
                        #[trigger] before.submissions[i]).submitter == ip;
                    assert(after.submissions[i].submitter == ip);
                }
                if after.submitted_by(ip) {
                    let i = choose|i: int|
                        0 <= i < after.submissions.len() && (
                        #[trigger] after.submissions[i]).submitter == ip;
                    if i < before.submissions.len() {
                        assert(before.submissions[i].submitter == ip);
                    }
                }
                if ip == submitter && !before.submitted_by(submitter) {
                    assert(after.submissions[before.submissions.len() as int].submitter == ip);
                }
            }
            assert(after.submitters() =~= before.submitters().insert(submitter));
            assert forall|i: int, j: int|
                0 <= i < j < after.submissions.len() implies after.submissions[i].submitter
                != after.submissions[j].submitter by {
                if j == before.submissions.len() {
                    assert(before.submissions[i].submitter != submitter);
                }
            }
        }
    }
}

/// What one submission of a transaction brings its submitter: the fee that
/// is put down to the submitter for it.
#[derive(Clone, Copy, Debug, PartialEq, Eq, Structural)]
pub struct Attribution {
    /// The peer that submitted the transaction.
    pub submitter: IpAddr,
    /// The effective timestamp of the submission.
    pub timestamp: u64,
    /// The fee that is put down to the submitter.
    pub fee: Fee,
}

/// The fee that is put down to the submitter at index `i` of `tx`: what the
/// transaction paid for the first submitter of a transaction that landed,
/// and nothing for everybody else.
pub open spec fn credited(tx: TxView, i: int) -> Fee {
    if i == 0 && tx.fee is Some {
        tx.fee->0
    } else {
        Fee::zero_fee()
    }
}

/// The attributions of a transaction, one for each submission, in order.
pub open spec fn attributions(tx: TxView) -> Seq<Attribution> {
    Seq::new(
        tx.submissions.len(),
        |i: int|
            Attribution {
                submitter: tx.submissions[i].submitter,
                timestamp: tx.submissions[i].timestamp,
                fee: credited(tx, i),
            },
    )
}

impl Tx {
    /// Appends the attributions of the transaction to `out`.
    pub fn attribute(&self, out: &mut Vec<Attribution>)
        requires
            self@.wf(),
        ensures
            final(out)@ == old(out)@ + attributions(self@),
    {
        let n = self.submissions.len();
        let mut i: usize = 0;
        assert(out@ =~= old(out)@ + attributions(self@).take(0));
        while i < n
            invariant
                i <= n,
                n == self.submissions@.len(),
                self@.wf(),
                out@ == old(out)@ + attributions(self@).take(i as int),
            decreases n - i,
        {
            let submission = self.submissions[i];
            let fee = if i == 0 {
                match self.fee {
                    Some(fee) => fee,
                    None => Fee::zero(),
                }
            } else {
                Fee::zero()
            };
            out.push(
                Attribution {
                    submitter: submission.submitter,
                    timestamp: submission.timestamp,
                    fee,
                },
            );
            assert(out@ =~= old(out)@ + attributions(self@).take(i + 1));
            i += 1;
        }
        assert(attributions(self@).take(n as int) =~= attributions(self@));
    }
}

/// Of the attributions of a transaction, the first carries the fee that the
/// transaction paid, if it landed, and every other one carries the fee of a
/// transaction that paid nothing, whose value is 0 for every metric; there
/// is one attribution for each submission, to its submitter and at its
/// time, and no submitter has two.
pub proof fn lemma_first_submitter_is_credited(tx: TxView)
    requires
        tx.wf(),
    ensures
        attributions(tx).len() == tx.submissions.len(),
        tx.fee is Some ==> attributions(tx)[0].fee == tx.fee->0,
        tx.fee is None ==> attributions(tx)[0].fee == Fee::zero_fee(),
        forall|i: int|
            1 <= i < attributions(tx).len() ==> (#[trigger] attributions(tx)[i]).fee
                == Fee::zero_fee(),
        forall|i: int|
            0 <= i < attributions(tx).len() ==> (#[trigger] attributions(tx)[i]).submitter
                == tx.submissions[i].submitter && attributions(tx)[i].timestamp
                == tx.submissions[i].timestamp,
        forall|i: int, j: int|
            0 <= i < j < attributions(tx).len() ==> attributions(tx)[i].submitter != attributions(
                tx,
            )[j].submitter,
        attributions(tx)[0].fee.value(Metric::FeeLamportsSubmitted) == if tx.fee is Some {
            tx.fee->0.total
        } else {
            0
        },
        forall|i: int, metric: Metric|
            1 <= i < attributions(tx).len() ==> #[trigger] attributions(tx)[i].fee.value(metric)
                == 0,
{
    assert forall|metric: Metric| #[trigger] Fee::zero_fee().value(metric) == 0 by {}
}

/// The transactions that were recently submitted, by signature, in the
/// order of their first submission.
pub type Ledger = Seq<Entry<Signature, TxView>>;

/// The stored transactions as views.
pub open spec fn ledger_of(entries: Seq<Entry<Signature, Tx>>) -> Ledger {
    entries.map_values(|e: Entry<Signature, Tx>| Entry { key: e.key, value: e.value@ })
}

/// The ledger after `ip` submitted the transaction `signature` at `t`.
pub open spec fn posted(ledger: Ledger, signature: Signature, t: u64, ip: IpAddr) -> Ledger {
    upsert(
        ledger,
        signature,
        if has_key(ledger, signature) {
            value_of(ledger, signature).resubmitted(t, ip)
        } else {
            TxView::first(t, ip)
        },
    )
}

/// The ledger after the transaction `signature` is known to have paid `fee`.
/// The fee of a transaction that is not in the ledger is dropped.
pub open spec fn landed(ledger: Ledger, signature: Signature, fee: Fee) -> Ledger {
    if has_key(ledger, signature) {
        upsert(
            ledger,
            signature,
            TxView { submissions: value_of(ledger, signature).submissions, fee: Some(fee) },
        )
    } else {
        ledger
    }
}

/// The transactions first submitted before `cutoff`.
pub open spec fn outdated(cutoff: int) -> spec_fn(Entry<Signature, TxView>) -> bool {
    |e: Entry<Signature, TxView>| e.value.submissions[0].timestamp < cutoff
}

/// The transactions first submitted at `cutoff` or later.
pub open spec fn retained(cutoff: int) -> spec_fn(Entry<Signature, TxView>) -> bool {
    |e: Entry<Signature, TxView>| e.value.submissions[0].timestamp >= cutoff
}

/// The attributions of the transactions of `ledger` that were first
/// submitted before `cutoff`: transaction by transaction in the order of the
/// ledger, within a transaction in the order of its submissions.
pub open spec fn drained(ledger: Ledger, cutoff: int) -> Seq<Attribution>
    decreases ledger.len(),
{
    if ledger.len() == 0 {
        Seq::empty()
    } else if outdated(cutoff)(ledger.last()) {
        drained(ledger.drop_last(), cutoff) + attributions(ledger.last().value)
    } else {
        drained(ledger.drop_last(), cutoff)
    }
}

/// `s` after each of `attributed` brought its submitter the value of its
/// fee for `metric`, at the time of the submission.
pub open spec fn fed(s: SeriesTable, attributed: Seq<Attribution>, metric: Metric) -> SeriesTable
    decreases attributed.len(),
{
    if attributed.len() == 0 {
        s
    } else {
        recorded(
            fed(s, attributed.drop_last(), metric),
            attributed.last().submitter,
            TimestampedValue {
                timestamp: attributed.last().timestamp,
                value: attributed.last().fee.value(metric) as u64,
            },
        )
    }
}

/// What the classification of `metric` takes in at a tick: the fee
/// classifications take in the attributions of the drained transactions,
/// the others nothing.
pub open spec fn supplied(
    s: SeriesTable,
    attributed: Seq<Attribution>,
    metric: Metric,
) -> SeriesTable {
    match metric {
        Metric::FeeLamportsSubmitted => fed(s, attributed, metric),
        Metric::FeeMicrolamportsPerCuLimit => fed(s, attributed, metric),
        Metric::FeeMicrolamportsPerCuUsed => fed(s, attributed, metric),
        _ => s,
    }
}

/// `after` is the classification `before` of `metric`, if one is
/// configured, after the tick at `now`: it has taken in what `attributed`
/// supplies, and has then dropped the values that are too old for its
/// longest window.
pub open spec fn slot_ticked(
    after: Option<Classification>,
    before: Option<Classification>,
    attributed: Seq<Attribution>,
    metric: Metric,
    now: u64,
) -> bool {
    match before {
        Some(c) => {
            &&& after is Some
            &&& after->0.keeps_rules(c)
            &&& after->0.series() == swept(
                supplied(c.series(), attributed, metric),
                now - c.max_duration_ms,
            )
        },
        None => after is None,
    }
}

/// The outcome of evaluating one classification, if configured, at `now`.
pub open spec fn ticked(
    c: Option<Classification>,
    stakes: Seq<Entry<IpAddr, u64>>,
    now: u64,
    registry: Registry,
) -> Outcome {
    match c {
        Some(c) => evaluate_peers(
            c.series(),
            c.thresholds@,
            c.evaluates_all(),
            stakes,
            now,
            registry,
        ),
        None => Outcome { registry, declared: Seq::empty() },
    }
}

/// The outcome of evaluating the classifications of `config`, one after
/// the other in the order in which the configuration lists them.
pub open spec fn tick_outcome(
    config: Config,
    stakes: Seq<Entry<IpAddr, u64>>,
    now: u64,
    registry: Registry,
) -> Outcome {
    let a = ticked(config.failed_exceeded_quic_connections, stakes, now, registry);
    let b = ticked(config.useless_quic_connections, stakes, now, a.registry);
    let c = ticked(config.fee_lamports_submitted, stakes, now, b.registry);
    let d = ticked(config.fee_microlamports_per_cu_limit, stakes, now, c.registry);
    let e = ticked(config.fee_microlamports_per_cu_used, stakes, now, d.registry);
    Outcome {
        registry: e.registry,
        declared: a.declared + b.declared + c.declared + d.declared + e.declared,
    }
}

/// The peers last seen before `cutoff`.
pub open spec fn stale(cutoff: int) -> spec_fn(Entry<IpAddr, Peer>) -> bool {
    |e: Entry<IpAddr, Peer>| e.value.most_recent_timestamp < cutoff
}

/// The peers last seen at `cutoff` or later.
pub open spec fn fresh(cutoff: int) -> spec_fn(Entry<IpAddr, Peer>) -> bool {
    |e: Entry<IpAddr, Peer>| e.value.most_recent_timestamp >= cutoff
}

/// The fee of each of `attributed` has a value for `metric`.
pub open spec fn fees_measurable(attributed: Seq<Attribution>, metric: Metric) -> bool {
    forall|i: int|
        0 <= i < attributed.len() ==> (#[trigger] attributed[i]).fee.measurable_for(metric)
}

/// The fee of every transaction of `ledger` that was first submitted
/// before `cutoff` and has landed has a value for `metric`.
pub open spec fn ledger_fits(ledger: Ledger, cutoff: int, metric: Metric) -> bool {
    forall|i: int|
        0 <= i < ledger.len() && outdated(cutoff)(#[trigger] ledger[i]) && ledger[i].value.fee
            is Some ==> ledger[i].value.fee->0.measurable_for(metric)
}

/// Where the fees of the transactions that leave the ledger have a value
/// for `metric`, the fee of each of their attributions has one.
pub proof fn lemma_drained_fees_fit(ledger: Ledger, cutoff: int, metric: Metric)
    requires
        ledger_fits(ledger, cutoff, metric),
    ensures
        fees_measurable(drained(ledger, cutoff), metric),
    decreases ledger.len(),
{
    if ledger.len() > 0 {
        let front = ledger.drop_last();
        let last = ledger.last();
        assert(last == ledger[ledger.len() - 1]);
        assert forall|i: int|
            0 <= i < front.len() && outdated(cutoff)(#[trigger] front[i]) && front[i].value.fee
                is Some implies front[i].value.fee->0.measurable_for(metric) by {
            assert(front[i] == ledger[i]);
        }
        lemma_drained_fees_fit(front, cutoff, metric);
        let d = drained(front, cutoff);
        let all = drained(ledger, cutoff);
        if outdated(cutoff)(last) {
            let a = attributions(last.value);
            assert forall|i: int| 0 <= i < all.len() implies (#[trigger] all[i]).fee.measurable_for(
                metric,
            ) by {
                if i < d.len() {
                    assert(all[i] == d[i]);
                } else {
                    assert(all[i] == a[i - d.len()]);
                }
            }
        }
    }
}

/// Feeds a classification, if configured, the value of each attribution
/// for `metric`.
pub fn feed(slot: &mut Option<Classification>, attributed: &Vec<Attribution>, metric: Metric)
    requires
        *old(slot) is Some ==> (*old(slot))->0.wf(),
        *old(slot) is Some ==> fees_measurable(attributed@, metric),
    ensures
        match *old(slot) {
            Some(c) => {
                &&& *final(slot) is Some
                &&& (*final(slot))->0.wf()
                &&& (*final(slot))->0.keeps_rules(c)
                &&& (*final(slot))->0.series() == fed(c.series(), attributed@, metric)
            },
            None => *final(slot) is None,
        },
{
    if let Some(c) = slot {
        let ghost start = *c;
        let mut i: usize = 0;
        assert(attributed@.take(0) =~= Seq::<Attribution>::empty());
        while i < attributed.len()
            invariant
                i <= attributed@.len(),
                c.wf(),
                c.keeps_rules(start),
                c.series() == fed(start.series(), attributed@.take(i as int), metric),
                fees_measurable(attributed@, metric),
            decreases attributed@.len() - i,
        {
            let a = attributed[i];
            let value = a.fee.measure(metric);
            c.add_value(a.submitter, a.timestamp, value);
            proof {
                assert(attributed@.take(i + 1).drop_last() =~= attributed@.take(i as int));
                assert(attributed@.take(i + 1).last() == a);
            }
            i += 1;
        }
        assert(attributed@.take(attributed@.len() as int) =~= attributed@);
    }
}

/// The tick of one classification, if configured: see `Classification::periodic`.
pub fn tick(
    slot: &mut Option<Classification>,
    stakes: &Table<IpAddr, u64>,
    groups: &mut Groups,
    now: u64,
    log: &mut Vec<Decision>,
)
    requires
        *old(slot) is Some ==> (*old(slot))->0.wf() && (*old(slot))->0.valid() && (*old(
            slot,
        ))->0.fits(now),
        stakes.wf(),
        old(groups).wf(),
    ensures
        match *old(slot) {
            Some(c) => {
                &&& *final(slot) is Some
                &&& (*final(slot))->0.wf()
                &&& (*final(slot))->0.valid()
                &&& (*final(slot))->0.keeps_rules(c)
                &&& (*final(slot))->0.series() == swept(c.series(), now - c.max_duration_ms)
            },
            None => *final(slot) is None,
        },
        final(groups).wf(),
        final(groups)@ == ticked(*final(slot), stakes@, now, old(groups)@).registry,
        decisions(final(log)@) == decisions(old(log)@) + ticked(
            *final(slot),
            stakes@,
            now,
            old(groups)@,
        ).declared,
{
    match slot {
        Some(c) => {
            c.periodic(stakes, groups, now, log);
        },
        None => {
            assert(decisions(log@) =~= decisions(old(log)@) + Seq::<DecisionView>::empty());
        },
    }
}

/// The leader state, as far as it is known.
#[derive(Clone, Copy, Debug, PartialEq, Eq, Structural)]
pub enum LeaderStatus {
    /// Nothing has been heard of leader slots yet.
    Unknown,
    /// In or near the validator's leader slots.
    Leader,
    /// Outside the validator's leader slots.
    NotLeader,
}

/// A leader state together with what was declared on reaching it.
pub struct Turn {
    pub status: LeaderStatus,
    pub declared: Seq<DecisionView>,
}

/// The turn to the leader state. Where leader slots are watched it is
/// declared only on a change; where they are not, every time.
pub open spec fn begun(watched: bool, status: LeaderStatus) -> Turn {
    if !watched || status != LeaderStatus::Leader {
        Turn { status: LeaderStatus::Leader, declared: seq![DecisionView::Leader] }
    } else {
        Turn { status, declared: Seq::empty() }
    }
}

/// The turn away from the leader state. Where leader slots are not watched,
/// peers are always classified as during leader slots.
pub open spec fn ended(watched: bool, status: LeaderStatus) -> Turn {
    if !watched {
        begun(watched, status)
    } else if status != LeaderStatus::NotLeader {
        Turn { status: LeaderStatus::NotLeader, declared: seq![DecisionView::NotLeader] }
    } else {
        Turn { status, declared: Seq::empty() }
    }
}

/// The group that the addresses of one validator identity are put in.
#[derive(Debug)]
pub struct PubkeyGroup {
    /// The name of the group.
    pub group_name: String,
    /// How long an address stays in the group, in seconds.
    pub group_expiration_seconds: u64,
}

/// A pubkey group with its name as a sequence of characters.
pub struct PubkeyGroupView {
    pub group_name: Seq<char>,
    pub group_expiration_seconds: u64,
}

impl View for PubkeyGroup {
    type V = PubkeyGroupView;

    open spec fn view(&self) -> PubkeyGroupView {
        PubkeyGroupView {
            group_name: self.group_name@,
            group_expiration_seconds: self.group_expiration_seconds,
        }
    }
}

impl PubkeyGroupView {
    /// The expiry of a membership that begins at `t`.
    pub open spec fn expiry(&self, t: u64) -> int {
        t + self.group_expiration_seconds * 1000
    }
}

/// The groups of the known validator identities.
pub type Rules = Seq<Entry<Pubkey, PubkeyGroupView>>;

/// The stored pubkey groups as views.
pub open spec fn rules_of(entries: Seq<Entry<Pubkey, PubkeyGroup>>) -> Rules {
    entries.map_values(|e: Entry<Pubkey, PubkeyGroup>| Entry { key: e.key, value: e.value@ })
}

/// The group that the configuration gives to one known identity: its own
/// name and expiration, or else `known_pubkeys` and one day.
pub open spec fn rule_of(known: KnownPubkey) -> PubkeyGroupView {
    PubkeyGroupView {
        group_name: match known.group_name {
            Some(name) => name@,
            None => "known_pubkeys"@,
        },
        group_expiration_seconds: match known.group_expiration_seconds {
            Some(seconds) => seconds,
            None => DEFAULT_GROUP_EXPIRATION_SECONDS,
        },
    }
}

/// `rules` with the group of `known` entered under `parsed`, the identity
/// that its string stands for. An entry whose string stands for no identity
/// is passed over.
pub open spec fn with_rule(rules: Rules, parsed: Option<Pubkey>, known: KnownPubkey) -> Rules {
    match parsed {
        Some(pubkey) => upsert(rules, pubkey, rule_of(known)),
        None => rules,
    }
}

/// The groups of the known identities of a configuration, entered in order.
pub open spec fn known_rules(known: Seq<KnownPubkey>) -> Rules
    decreases known.len(),
{
    if known.len() == 0 {
        Seq::empty()
    } else {
        with_rule(
            known_rules(known.drop_last()),
            pubkey_from_base58(known.last().pubkey@),
            known.last(),
        )
    }
}

/// The group that `rules` gives to the identity `pubkey`, if it is a known one.
pub open spec fn rule_for(rules: Rules, pubkey: Option<Pubkey>) -> Option<PubkeyGroupView> {
    match pubkey {
        Some(k) => if has_key(rules, k) {
            Some(value_of(rules, k))
        } else {
            None
        },
        None => None,
    }
}

/// The registry of pubkey groups after `ip` showed an identity with the
/// group `rule` at `t`.
pub open spec fn identified_registry(
    registry: Registry,
    rule: Option<PubkeyGroupView>,
    ip: IpAddr,
    t: u64,
) -> Registry {
    match rule {
        Some(r) => registry_add(registry, r.group_name, ip, r.expiry(t) as u64),
        None => registry,
    }
}

/// What is declared when `ip` shows an identity with the group `rule` at `t`.
pub open spec fn identified_declared(
    registry: Registry,
    rule: Option<PubkeyGroupView>,
    ip: IpAddr,
    t: u64,
) -> Seq<DecisionView> {
    match rule {
        Some(r) => declared(
            registry_change(registry, r.group_name, ip, r.expiry(t) as u64),
            ip,
            r.group_name,
            r.expiry(t) as u64,
        ),
        None => Seq::empty(),
    }
}

/// Enters the group of `known` in `table` under `parsed`, the identity that
/// the string of `known` was read as; an entry that was read as no identity
/// is passed over.
pub fn add_rule(table: &mut Table<Pubkey, PubkeyGroup>, parsed: Option<Pubkey>, known: &KnownPubkey)
    requires
        old(table).wf(),
    ensures
        final(table).wf(),
        rules_of(final(table)@) == with_rule(rules_of(old(table)@), parsed, *known),
{
    match parsed {
        Some(pubkey) => {
            let group_name = match &known.group_name {
                Some(name) => name.clone(),
                None => "known_pubkeys".to_owned(),
            };
            let group_expiration_seconds = match known.group_expiration_seconds {
                Some(seconds) => seconds,
                None => DEFAULT_GROUP_EXPIRATION_SECONDS,
            };
            let group = PubkeyGroup { group_name, group_expiration_seconds };
            assert(group@ == rule_of(*known));
            proof {
                lemma_same_keys(old(table)@, rules_of(old(table)@));
            }
            table.insert(pubkey, group);
            assert(rules_of(table@) =~= with_rule(rules_of(old(table)@), parsed, *known));
        },
        None => {},
    }
}

/// The turn that an announcement of leader slots `slots` slots ahead
/// brings, where `limit` is the configured number of slots, if any: away
/// from the leader state where the slots are at least that far off, else to it.
pub open spec fn foreseen(limit: Option<u64>, slots: u8, status: LeaderStatus) -> Turn {
    if limit is Some && slots >= limit->0 {
        ended(true, status)
    } else {
        begun(limit is Some, status)
    }
}

/// Whether the connection of `ip` that finished at `t` was useless: the
/// peer is known, has submitted no transaction, and was first seen at least
/// `after` milliseconds before.
pub open spec fn was_useless(peers: Peers, ip: IpAddr, t: u64, after: u64) -> bool {
    &&& has_key(peers, ip)
    &&& value_of(peers, ip).tx_submitted == 0
    &&& t - value_of(peers, ip).first_timestamp >= after
}

/// An event of the transaction-ingest path.
#[derive(Clone, Copy, Debug, PartialEq, Eq)]
pub enum Event {
    /// A connection attempt failed.
    Failed { timestamp: u64, peer_addr: IpAddr },
    /// A connection attempt exceeded a limit.
    Exceeded { timestamp: u64, peer_addr: IpAddr, peer_pubkey: Option<Pubkey>, stake: u64 },
    /// A connection started.
    Started { timestamp: u64, peer_addr: IpAddr, peer_pubkey: Option<Pubkey>, stake: u64 },
    /// A connection finished.
    Finished { timestamp: u64, peer_addr: IpAddr },
    /// A peer submitted a vote.
    VoteTx { timestamp: u64, peer_addr: IpAddr },
    /// A peer submitted a transaction.
    UserTx { timestamp: u64, peer_addr: IpAddr, signature: Signature },
    /// A transaction was forwarded.
    Forwarded { timestamp: u64, signature: Signature },
    /// A transaction was dropped for its fee.
    BadFee { timestamp: u64, signature: Signature },
    /// A transaction landed and paid a fee.
    Fee { timestamp: u64, signature: Signature, cu_limit: u64, cu_used: u64, fee: u64 },
    /// Leader slots are announced some slots ahead.
    WillBeLeader { timestamp: u64, slots: u8 },
    /// The leader slots begin.
    BeginLeader { timestamp: u64 },
    /// The leader slots end.
    EndLeader { timestamp: u64 },
    /// An event that is no longer in use.
    Deprecated,
}

/// The state of the classifier.
#[derive(Debug)]
pub struct State {
    /// The validated configuration with the recent values of each classification.
    pub config: Config,
    /// The groups of the known validator identities.
    pub pubkey_classifications: Table<Pubkey, PubkeyGroup>,
    /// The clock of the event stream.
    pub clock: Clock,
    /// The leader state.
    pub leader_status: LeaderStatus,
    /// The peers by address.
    pub peers: Table<IpAddr, Peer>,
    /// The stake of each peer by address.
    pub stakes: Table<IpAddr, u64>,
    /// The transactions that were recently submitted, by signature.
    pub current_tx: Table<Signature, Tx>,
    /// The groups that peers are in for their identity.
    pub pubkey_groups: Groups,
    /// The groups that peers are in for what they did.
    pub classification_groups: Groups,
}

impl State {
    /// The transactions of the ledger as views.
    pub open spec fn ledger(&self) -> Ledger {
        ledger_of(self.current_tx@)
    }

    /// The groups of the known identities as views.
    pub open spec fn rules(&self) -> Rules {
        rules_of(self.pubkey_classifications@)
    }

    /// Whether leader slots are watched.
    pub open spec fn tracks_leader(&self) -> bool {
        self.config.outside_leader_slots is Some
    }

    /// The tables are well formed, the configuration is validated, the
    /// values of the classifications of connections are in time order and
    /// not later than the clock's time, no peer was seen after the clock's
    /// time or before it was first seen, and every transaction of the
    /// ledger is well formed.
    pub open spec fn wf(&self) -> bool {
        &&& self.clock.wf()
        &&& self.config.wf()
        &&& self.config.valid()
        &&& self.config.timely(self.clock.most_recent_timestamp)
        &&& self.pubkey_classifications.wf()
        &&& self.peers.wf()
        &&& self.stakes.wf()
        &&& self.current_tx.wf()
        &&& self.pubkey_groups.wf()
        &&& self.classification_groups.wf()
        &&& forall|i: int|
            0 <= i < self.peers@.len() ==> (#[trigger] self.peers@[i]).value.wf_at(
                self.clock.most_recent_timestamp,
            )
        &&& forall|i: int|
            0 <= i < self.current_tx@.len() ==> (#[trigger] self.current_tx@[i]).value@.wf()
    }

    /// Everything but the clock and the configuration is as in `before`.
    pub open spec fn keeps_tables(&self, before: State) -> bool {
        &&& self.pubkey_classifications == before.pubkey_classifications
        &&& self.leader_status == before.leader_status
        &&& self.peers == before.peers
        &&& self.stakes == before.stakes
        &&& self.current_tx == before.current_tx
        &&& self.pubkey_groups == before.pubkey_groups
        &&& self.classification_groups == before.classification_groups
    }

    /// Everything but the leader state is as in `before`.
    pub open spec fn keeps_all_but_leader(&self, before: State) -> bool {
        &&& self.config == before.config
        &&& self.clock == before.clock
        &&& self.pubkey_classifications == before.pubkey_classifications
        &&& self.peers == before.peers
        &&& self.stakes == before.stakes
        &&& self.current_tx == before.current_tx
        &&& self.pubkey_groups == before.pubkey_groups
        &&& self.classification_groups == before.classification_groups
    }

    /// Everything but the ledger is as in `before`.
    pub open spec fn keeps_all_but_ledger(&self, before: State) -> bool {
        &&& self.config == before.config
        &&& self.clock == before.clock
        &&& self.pubkey_classifications == before.pubkey_classifications
        &&& self.leader_status == before.leader_status
        &&& self.peers == before.peers
        &&& self.stakes == before.stakes
        &&& self.pubkey_groups == before.pubkey_groups
        &&& self.classification_groups == before.classification_groups
    }

    /// Everything but the peers and their stakes is as in `before`.
    pub open spec fn keeps_all_but_peers(&self, before: State) -> bool {
        &&& self.config == before.config
        &&& self.clock == before.clock
        &&& self.pubkey_classifications == before.pubkey_classifications
        &&& self.leader_status == before.leader_status
        &&& self.current_tx == before.current_tx
        &&& self.pubkey_groups == before.pubkey_groups
        &&& self.classification_groups == before.classification_groups
    }

    /// The configuration of this state is that of `before` after the tick
    /// at `now`, at which the classifications took in `attributed`.
    pub open spec fn config_ticked(
        &self,
        before: State,
        attributed: Seq<Attribution>,
        now: u64,
    ) -> bool {
        &&& self.config.known_pubkeys == before.config.known_pubkeys
        &&& self.config.useless_quic_connection_duration_ms
            == before.config.useless_quic_connection_duration_ms
        &&& self.config.outside_leader_slots == before.config.outside_leader_slots
        &&& forall|metric: Metric|
            slot_ticked(
                #[trigger] self.config.classification(metric),
                before.config.classification(metric),
                attributed,
                metric,
                now,
            )
    }

    /// The turn that a tick brings: where the leader state is unknown, away
    /// from the leader state, whether or not leader slots are watched;
    /// where it is known, none.
    pub open spec fn tick_turn(&self) -> Turn {
        if self.leader_status == LeaderStatus::Unknown {
            Turn { status: LeaderStatus::NotLeader, declared: seq![DecisionView::NotLeader] }
        } else {
            Turn { status: self.leader_status, declared: Seq::empty() }
        }
    }

    /// The fees of the transactions that a tick at `now` takes out of the
    /// ledger have a value for each fee per compute unit that is classified.
    pub open spec fn fees_fit(&self, now: u64) -> bool {
        &&& self.config.fee_microlamports_per_cu_limit is Some ==> ledger_fits(
            self.ledger(),
            self.clock.effective(now) - TX_RETENTION_DURATION_MS,
            Metric::FeeMicrolamportsPerCuLimit,
        )
        &&& self.config.fee_microlamports_per_cu_used is Some ==> ledger_fits(
            self.ledger(),
            self.clock.effective(now) - TX_RETENTION_DURATION_MS,
            Metric::FeeMicrolamportsPerCuUsed,
        )
    }

    /// The fee of each of `attributed` has a value for each fee metric that
    /// is classified.
    pub open spec fn can_feed(&self, attributed: Seq<Attribution>) -> bool {
        &&& self.config.fee_microlamports_per_cu_limit is Some ==> fees_measurable(
            attributed,
            Metric::FeeMicrolamportsPerCuLimit,
        )
        &&& self.config.fee_microlamports_per_cu_used is Some ==> fees_measurable(
            attributed,
            Metric::FeeMicrolamportsPerCuUsed,
        )
    }

    /// The membership that the identity `pubkey`, shown in an event that
    /// reports `timestamp`, would bring does not end after the last instant
    /// that a timestamp can hold.
    pub open spec fn fits_identity(&self, timestamp: u64, pubkey: Option<Pubkey>) -> bool {
        rule_for(self.rules(), pubkey) is Some ==> rule_for(self.rules(), pubkey)->0.expiry(
            self.clock.effective(timestamp),
        ) <= u64::MAX
    }

    /// The count of the transactions of `ip` can take one more.
    pub open spec fn can_count(&self, ip: IpAddr) -> bool {
        has_key(self.peers@, ip) ==> value_of(self.peers@, ip).tx_submitted < u64::MAX
    }

    /// The state at the start: the validated configuration `config`, the
    /// groups of its known identities, a clock at 0, no peers, no
    /// transactions, no members, and an unknown leader state. A
    /// configuration that was just read holds no values; one that holds
    /// values of connections already must hold them for the instant 0.
    pub fn new(config: Config) -> (state: Self)
        requires
            config.wf(),
            config.valid(),
            config.timely(0),
        ensures
            state.wf(),
            state.config == config,
            state.rules() == known_rules(
                match config.known_pubkeys {
                    Some(known) => known@,
                    None => Seq::empty(),
                },
            ),
            state.clock == (Clock { most_recent_timestamp: 0, event_count: 0 }),
            state.leader_status == LeaderStatus::Unknown,
            state.peers@.len() == 0,
            state.stakes@.len() == 0,
            state.current_tx@.len() == 0,
            state.pubkey_groups@.len() == 0,
            state.classification_groups@.len() == 0,
    {
        let mut pubkey_classifications: Table<Pubkey, PubkeyGroup> = Table::new();
        assert(rules_of(pubkey_classifications@) =~= known_rules(Seq::empty()));
        if let Some(known_pubkeys) = &config.known_pubkeys {
            let mut i: usize = 0;
            assert(known_pubkeys@.take(0) =~= Seq::<KnownPubkey>::empty());
            while i < known_pubkeys.len()
                invariant
                    i <= known_pubkeys@.len(),
                    pubkey_classifications.wf(),
                    rules_of(pubkey_classifications@) == known_rules(known_pubkeys@.take(i as int)),
                decreases known_pubkeys@.len() - i,
            {
                let known = &known_pubkeys[i];
                let parsed = parse_pubkey(known.pubkey.as_str());
                add_rule(&mut pubkey_classifications, parsed, known);
                proof {
                    assert(known_pubkeys@.take(i + 1).drop_last() =~= known_pubkeys@.take(
                        i as int,
                    ));
                    assert(known_pubkeys@.take(i + 1).last() == known_pubkeys@[i as int]);
                }
                i += 1;
            }
            assert(known_pubkeys@.take(known_pubkeys@.len() as int) =~= known_pubkeys@);
        }
        State {
            config,
            pubkey_classifications,
            clock: Clock::new(),
            leader_status: LeaderStatus::Unknown,
            peers: Table::new(),
            stakes: Table::new(),
            current_tx: Table::new(),
            pubkey_groups: Groups::new(),
            classification_groups: Groups::new(),
        }
    }

    /// The effective timestamp of an event that reports `timestamp`.
    pub fn get_timestamp(&mut self, timestamp: u64) -> (now: u64)
        requires
            old(self).wf(),
            !old(self).clock.exhausted(timestamp),
        ensures
            final(self).wf(),
            final(self).clock == old(self).clock.step(timestamp),
            now == old(self).clock.effective(timestamp),
            final(self).config == old(self).config,
            final(self).keeps_tables(*old(self)),
    {
        let ghost before = self.clock.most_recent_timestamp;
        let now = self.clock.advance(timestamp);
        proof {
            if self.config.failed_exceeded_quic_connections is Some {
                lemma_timely_later(
                    self.config.failed_exceeded_quic_connections->0.series(),
                    before,
                    now,
                );
            }
            if self.config.useless_quic_connections is Some {
                lemma_timely_later(self.config.useless_quic_connections->0.series(), before, now);
            }
        }
        now
    }

    /// A connection attempt of `peer_addr` failed: the classification of
    /// failed connections, if configured, gets the value 1 for the peer.
    pub fn failed(&mut self, timestamp: u64, peer_addr: IpAddr)
        requires
            old(self).wf(),
            !old(self).clock.exhausted(timestamp),
        ensures
            final(self).wf(),
            final(self).clock == old(self).clock.step(timestamp),
            final(self).keeps_tables(*old(self)),
            final(self).config.records(
                old(self).config,
                Metric::FailedExceededQuicConnections,
                peer_addr,
                TimestampedValue { timestamp: old(self).clock.effective(timestamp), value: 1 },
            ),
    {
        let timestamp = self.get_timestamp(timestamp);
        let ghost before = self.config;
        self.config.record(Metric::FailedExceededQuicConnections, peer_addr, timestamp, 1);
        proof {
            let metric = Metric::FailedExceededQuicConnections;
            assert(self.config.classification(Metric::UselessQuicConnections)
                == before.classification(Metric::UselessQuicConnections));
            if before.classification(metric) is Some {
                let series = before.classification(metric)->0.series();
                lemma_same_keys(
                    before.classification(metric)->0.recent_values@,
                    series,
                );
                lemma_recorded_timely(
                    series,
                    peer_addr,
                    TimestampedValue { timestamp, value: 1 },
                );
            }
        }
    }

    /// A connection attempt of `peer_addr` exceeded a limit: it counts as a
    /// failed attempt, and then as a connection that started. Each of the
    /// two is an event for the clock.
    pub fn exceeded(
        &mut self,
        timestamp: u64,
        peer_addr: IpAddr,
        peer_pubkey: Option<Pubkey>,
        stake: u64,
        log: &mut Vec<Decision>,
    )
        requires
            old(self).wf(),
            !old(self).clock.exhausted(timestamp),
            !old(self).clock.step(timestamp).exhausted(timestamp),
            old(self).rule_for_identity(peer_pubkey) is Some ==> old(self).rule_for_identity(
                peer_pubkey,
            )->0.expiry(old(self).clock.step(timestamp).effective(timestamp)) <= u64::MAX,
        ensures
            final(self).wf(),
            final(self).clock == old(self).clock.step(timestamp).step(timestamp),
            final(self).config.records(
                old(self).config,
                Metric::FailedExceededQuicConnections,
                peer_addr,
                TimestampedValue { timestamp: old(self).clock.effective(timestamp), value: 1 },
            ),
            final(self).pubkey_classifications == old(self).pubkey_classifications,
            final(self).leader_status == old(self).leader_status,
            final(self).current_tx == old(self).current_tx,
            final(self).classification_groups == old(self).classification_groups,
            final(self).peers@ == greeted(
                old(self).peers@,
                peer_addr,
                old(self).clock.step(timestamp).effective(timestamp),
            ),
            final(self).stakes@ == upsert(old(self).stakes@, peer_addr, stake),
            final(self).pubkey_groups@ == identified_registry(
                old(self).pubkey_groups@,
                old(self).rule_for_identity(peer_pubkey),
                peer_addr,
                old(self).clock.step(timestamp).effective(timestamp),
            ),
            decisions(final(log)@) == decisions(old(log)@) + identified_declared(
                old(self).pubkey_groups@,
                old(self).rule_for_identity(peer_pubkey),
                peer_addr,
                old(self).clock.step(timestamp).effective(timestamp),
            ),
    {
        self.failed(timestamp, peer_addr);
        self.started(timestamp, peer_addr, peer_pubkey, stake, log);
    }

    /// A connection of `peer_addr` started: the peer is entered or was last
    /// seen now, its stake is `stake`, and where it showed a known identity
    /// its address joins the group of that identity.
    pub fn started(
        &mut self,
        timestamp: u64,
        peer_addr: IpAddr,
        peer_pubkey: Option<Pubkey>,
        stake: u64,
        log: &mut Vec<Decision>,
    )
        requires
            old(self).wf(),
            !old(self).clock.exhausted(timestamp),
            old(self).fits_identity(timestamp, peer_pubkey),
        ensures
            final(self).wf(),
            final(self).clock == old(self).clock.step(timestamp),
            final(self).config == old(self).config,
            final(self).pubkey_classifications == old(self).pubkey_classifications,
            final(self).leader_status == old(self).leader_status,
            final(self).current_tx == old(self).current_tx,
            final(self).classification_groups == old(self).classification_groups,
            final(self).peers@ == greeted(
                old(self).peers@,
                peer_addr,
                old(self).clock.effective(timestamp),
            ),
            final(self).stakes@ == upsert(old(self).stakes@, peer_addr, stake),
            final(self).pubkey_groups@ == identified_registry(
                old(self).pubkey_groups@,
                old(self).rule_for_identity(peer_pubkey),
                peer_addr,
                old(self).clock.effective(timestamp),
            ),
            decisions(final(log)@) == decisions(old(log)@) + identified_declared(
                old(self).pubkey_groups@,
                old(self).rule_for_identity(peer_pubkey),
                peer_addr,
                old(self).clock.effective(timestamp),
            ),
    {
        let now = self.get_timestamp(timestamp);
        let ghost before = self.peers@;
        proof {
            lemma_upsert(
                before,
                peer_addr,
                if has_key(before, peer_addr) {
                    Peer {
                        first_timestamp: value_of(before, peer_addr).first_timestamp,
                        most_recent_timestamp: now,
                        tx_submitted: value_of(before, peer_addr).tx_submitted,
                    }
                } else {
                    Peer { first_timestamp: now, most_recent_timestamp: now, tx_submitted: 0 }
                },
            );
        }
        match self.peers.find(&peer_addr) {
            Some(i) => {
                let peer = self.peers.value_mut_at(i);
                peer.most_recent_timestamp = now;
            },
            None => {
                self.peers.entries.push(
                    Entry {
                        key: peer_addr,
                        value: Peer {
                            first_timestamp: now,
                            most_recent_timestamp: now,
                            tx_submitted: 0,
                        },
                    },
                );
            },
        }
        assert(self.peers@ =~= greeted(before, peer_addr, now));
        proof {
            assert forall|i: int| 0 <= i < self.peers@.len() implies (
            #[trigger] self.peers@[i]).value.wf_at(self.clock.most_recent_timestamp) by {
                if i < before.len() {
                    assert(before[i].value.wf_at(self.clock.most_recent_timestamp));
                }
            }
        }
        self.stakes.insert(peer_addr, stake);
        assert(decisions(log@) =~= decisions(old(log)@) + Seq::<DecisionView>::empty());
        if let Some(pubkey) = peer_pubkey {
            proof {
                lemma_same_keys(self.pubkey_classifications@, self.rules());
            }
            if let Some(rule) = self.pubkey_classifications.get(&pubkey) {
                assert(rule@ == value_of(self.rules(), pubkey)) by {
                    let p = position(self.pubkey_classifications@, pubkey);
                    assert(self.rules()[p].value == self.pubkey_classifications@[p].value@);
                }
                let expiry: u64 = now + rule.group_expiration_seconds * 1000;
                let change = self.pubkey_groups.add(&rule.group_name, peer_addr, expiry);
                declare(log, change, peer_addr, &rule.group_name, expiry);
            }
        }
    }

    /// The group of the identity `pubkey`, if it is a known one.
    pub open spec fn rule_for_identity(&self, pubkey: Option<Pubkey>) -> Option<PubkeyGroupView> {
        rule_for(self.rules(), pubkey)
    }

    /// A connection of `peer_addr` finished. Where the peer is known it was
    /// last seen now, and where it has submitted no transaction since it was
    /// first seen, at least the configured time ago, the classification of
    /// useless connections, if configured, gets the value 1 for the peer.
    pub fn finished(&mut self, timestamp: u64, peer_addr: IpAddr)
        requires
            old(self).wf(),
            !old(self).clock.exhausted(timestamp),
        ensures
            final(self).wf(),
            final(self).clock == old(self).clock.step(timestamp),
            final(self).pubkey_classifications == old(self).pubkey_classifications,
            final(self).leader_status == old(self).leader_status,
            final(self).stakes == old(self).stakes,
            final(self).current_tx == old(self).current_tx,
            final(self).pubkey_groups == old(self).pubkey_groups,
            final(self).classification_groups == old(self).classification_groups,
            final(self).peers@ == heard(
                old(self).peers@,
                peer_addr,
                old(self).clock.effective(timestamp),
                0,
            ),
            if was_useless(
                old(self).peers@,
                peer_addr,
                old(self).clock.effective(timestamp),
                old(self).config.useless_after_ms(),
            ) {
                final(self).config.records(
                    old(self).config,
                    Metric::UselessQuicConnections,
                    peer_addr,
                    TimestampedValue { timestamp: old(self).clock.effective(timestamp), value: 1 },
                )
            } else {
                final(self).config == old(self).config
            },
    {
        let now = self.get_timestamp(timestamp);
        let ghost before = self.peers@;
        match self.peers.find(&peer_addr) {
            Some(i) => {
                proof {
                    lemma_upsert(
                        before,
                        peer_addr,
                        Peer {
                            first_timestamp: value_of(before, peer_addr).first_timestamp,
                            most_recent_timestamp: now,
                            tx_submitted: value_of(before, peer_addr).tx_submitted,
                        },
                    );
                    assert(before[i as int].value.wf_at(old(self).clock.most_recent_timestamp));
                }
                let peer = self.peers.value_mut_at(i);
                peer.most_recent_timestamp = now;
                let first = peer.first_timestamp;
                let idle = peer.tx_submitted == 0;
                assert(self.peers@ =~= heard(before, peer_addr, now, 0));
                proof {
                    assert forall|j: int| 0 <= j < self.peers@.len() implies (
                    #[trigger] self.peers@[j]).value.wf_at(self.clock.most_recent_timestamp) by {
                        assert(before[j].value.wf_at(self.clock.most_recent_timestamp));
                    }
                }
                let after = match self.config.useless_quic_connection_duration_ms {
                    Some(ms) => ms,
                    None => DEFAULT_USELESS_QUIC_CONNECTION_DURATION_MS,
                };
                if idle && now - first >= after {
                    let ghost before_config = self.config;
                    self.config.record(Metric::UselessQuicConnections, peer_addr, now, 1);
                    proof {
                        let metric = Metric::UselessQuicConnections;
                        assert(self.config.classification(Metric::FailedExceededQuicConnections)
                            == before_config.classification(
                            Metric::FailedExceededQuicConnections,
                        ));
                        if before_config.classification(metric) is Some {
                            let series = before_config.classification(metric)->0.series();
                            lemma_same_keys(
                                before_config.classification(metric)->0.recent_values@,
                                series,
                            );
                            lemma_recorded_timely(
                                series,
                                peer_addr,
                                TimestampedValue { timestamp: now, value: 1 },
                            );
                        }
                    }
                }
            },
            None => {},
        }
    }

    /// `peer_addr` submitted a vote: where the peer is known it was last
    /// seen now and has submitted one transaction more.
    pub fn votetx(&mut self, timestamp: u64, peer_addr: IpAddr)
        requires
            old(self).wf(),
            !old(self).clock.exhausted(timestamp),
            old(self).can_count(peer_addr),
        ensures
            final(self).wf(),
            final(self).clock == old(self).clock.step(timestamp),
            final(self).config == old(self).config,
            final(self).pubkey_classifications == old(self).pubkey_classifications,
            final(self).leader_status == old(self).leader_status,
            final(self).stakes == old(self).stakes,
            final(self).current_tx == old(self).current_tx,
            final(self).pubkey_groups == old(self).pubkey_groups,
            final(self).classification_groups == old(self).classification_groups,
            final(self).peers@ == heard(
                old(self).peers@,
                peer_addr,
                old(self).clock.effective(timestamp),
                1,
            ),
    {
        let now = self.get_timestamp(timestamp);
        self.count_tx(now, peer_addr);
    }

    /// Where `peer_addr` is known: it was last seen at `now` and has
    /// submitted one transaction more.
    pub fn count_tx(&mut self, now: u64, peer_addr: IpAddr)
        requires
            old(self).wf(),
            old(self).can_count(peer_addr),
            now == old(self).clock.most_recent_timestamp,
        ensures
            final(self).wf(),
            final(self).clock == old(self).clock,
            final(self).config == old(self).config,
            final(self).pubkey_classifications == old(self).pubkey_classifications,
            final(self).leader_status == old(self).leader_status,
            final(self).stakes == old(self).stakes,
            final(self).current_tx == old(self).current_tx,
            final(self).pubkey_groups == old(self).pubkey_groups,
            final(self).classification_groups == old(self).classification_groups,
            final(self).peers@ == heard(old(self).peers@, peer_addr, now, 1),
    {
        let ghost before = self.peers@;
        match self.peers.find(&peer_addr) {
            Some(i) => {
                proof {
                    lemma_upsert(
                        before,
                        peer_addr,
                        Peer {
                            first_timestamp: value_of(before, peer_addr).first_timestamp,
                            most_recent_timestamp: now,
                            tx_submitted: (value_of(before, peer_addr).tx_submitted + 1) as u64,
                        },
                    );
                    assert(before[i as int].value.wf_at(old(self).clock.most_recent_timestamp));
                }
                let peer = self.peers.value_mut_at(i);
                peer.most_recent_timestamp = now;
                peer.tx_submitted = peer.tx_submitted + 1;
                assert(self.peers@ =~= heard(before, peer_addr, now, 1));
                proof {
                    assert forall|j: int| 0 <= j < self.peers@.len() implies (
                    #[trigger] self.peers@[j]).value.wf_at(self.clock.most_recent_timestamp) by {
                        assert(before[j].value.wf_at(self.clock.most_recent_timestamp));
                    }
                }
            },
            None => {},
        }
    }

    /// `peer_addr` submitted the transaction `signature`: the peer is
    /// counted as for a vote, and the submission enters the ledger. A
    /// transaction that the peer had submitted before stays as it is.
    pub fn usertx(&mut self, timestamp: u64, peer_addr: IpAddr, signature: Signature)
        requires
            old(self).wf(),
            !old(self).clock.exhausted(timestamp),
            old(self).can_count(peer_addr),
        ensures
            final(self).wf(),
            final(self).clock == old(self).clock.step(timestamp),
            final(self).config == old(self).config,
            final(self).pubkey_classifications == old(self).pubkey_classifications,
            final(self).leader_status == old(self).leader_status,
            final(self).stakes == old(self).stakes,
            final(self).pubkey_groups == old(self).pubkey_groups,
            final(self).classification_groups == old(self).classification_groups,
            final(self).peers@ == heard(
                old(self).peers@,
                peer_addr,
                old(self).clock.effective(timestamp),
                1,
            ),
            final(self).ledger() == posted(
                old(self).ledger(),
                signature,
                old(self).clock.effective(timestamp),
                peer_addr,
            ),
    {
        let now = self.get_timestamp(timestamp);
        self.count_tx(now, peer_addr);
        let ghost before = self.current_tx@;
        proof {
            lemma_same_keys(before, ledger_of(before));
        }
        match self.current_tx.find(&signature) {
            Some(i) => {
                proof {
                    lemma_position(ledger_of(before), i as int);
                    assert(before[i as int].value@.wf());
                }
                let tx = self.current_tx.value_mut_at(i);
                tx.submitted(now, peer_addr);
            },
            None => {
                self.current_tx.entries.push(
                    Entry { key: signature, value: Tx::new(now, peer_addr) },
                );
            },
        }
        proof {
            let after = self.current_tx@;
            assert(ledger_of(after) =~= posted(ledger_of(before), signature, now, peer_addr));
            lemma_upsert(
                ledger_of(before),
                signature,
                if has_key(ledger_of(before), signature) {
                    value_of(ledger_of(before), signature).resubmitted(now, peer_addr)
                } else {
                    TxView::first(now, peer_addr)
                },
            );
            lemma_same_keys(after, ledger_of(after));
            assert forall|j: int| 0 <= j < after.len() implies (
            #[trigger] after[j]).value@.wf() by {
                if j < before.len() {
                    assert(before[j].value@.wf());
                }
            }
        }
    }

    /// The transaction `_signature` was forwarded. Nothing is made of it.
    pub fn forwarded(&mut self, _timestamp: u64, _signature: Signature)
        ensures
            *final(self) == *old(self),
    {
    }

    /// The transaction `_signature` was dropped for its fee. Nothing is made of it.
    pub fn badfee(&mut self, _timestamp: u64, _signature: Signature)
        ensures
            *final(self) == *old(self),
    {
    }

    /// The transaction `signature` landed and paid `fee` lamports with the
    /// compute units `cu_limit` declared and `cu_used` used. The fee is
    /// attached to the transaction if it is in the ledger, in place of any
    /// fee attached before, whatever the fee is: its values are taken when
    /// the transaction leaves the ledger.
    pub fn fee(
        &mut self,
        timestamp: u64,
        signature: Signature,
        cu_limit: u64,
        cu_used: u64,
        fee: u64,
    )
        requires
            old(self).wf(),
            !old(self).clock.exhausted(timestamp),
        ensures
            final(self).wf(),
            final(self).clock == old(self).clock.step(timestamp),
            final(self).config == old(self).config,
            final(self).pubkey_classifications == old(self).pubkey_classifications,
            final(self).leader_status == old(self).leader_status,
            final(self).peers == old(self).peers,
            final(self).stakes == old(self).stakes,
            final(self).pubkey_groups == old(self).pubkey_groups,
            final(self).classification_groups == old(self).classification_groups,
            final(self).ledger() == landed(
                old(self).ledger(),
                signature,
                Fee { total: fee, cu_limit, cu_used },
            ),
    {
        self.get_timestamp(timestamp);
        let ghost before = self.current_tx@;
        proof {
            lemma_same_keys(before, ledger_of(before));
        }
        match self.current_tx.find(&signature) {
            Some(i) => {
                proof {
                    lemma_position(ledger_of(before), i as int);
                    assert(before[i as int].value@.wf());
                    lemma_upsert(
                        ledger_of(before),
                        signature,
                        TxView {
                            submissions: value_of(ledger_of(before), signature).submissions,
                            fee: Some(Fee { total: fee, cu_limit, cu_used }),
                        },
                    );
                }
                let tx = self.current_tx.value_mut_at(i);
                tx.fee = Some(Fee { total: fee, cu_limit, cu_used });
                proof {
                    let after = self.current_tx@;
                    assert(ledger_of(after) =~= landed(
                        ledger_of(before),
                        signature,
                        Fee { total: fee, cu_limit, cu_used },
                    ));
                    lemma_same_keys(after, ledger_of(after));
                    assert forall|j: int| 0 <= j < after.len() implies (
                    #[trigger] after[j]).value@.wf() by {
                        assert(before[j].value@.wf());
                    }
                }
            },
            None => {},
        }
    }

    /// Leader slots are announced `slots` slots ahead. Where leader slots
    /// are watched and the announced ones are at least the configured
    /// number of slots off, this turns away from the leader state, else to it.
    pub fn will_be_leader(&mut self, timestamp: u64, slots: u8, log: &mut Vec<Decision>)
        ensures
            final(self).keeps_all_but_leader(*old(self)),
            final(self).leader_status == foreseen(
                old(self).leader_slots(),
                slots,
                old(self).leader_status,
            ).status,
            decisions(final(log)@) == decisions(old(log)@) + foreseen(
                old(self).leader_slots(),
                slots,
                old(self).leader_status,
            ).declared,
    {
        if let Some(outside_leader_slots) = &self.config.outside_leader_slots {
            if slots as u64 >= outside_leader_slots.leader_slots {
                self.end_leader(timestamp, log);
                return ;
            }
        }
        self.begin_leader(timestamp, log);
    }

    /// The configured number of leader slots, where leader slots are watched.
    pub open spec fn leader_slots(&self) -> Option<u64> {
        match self.config.outside_leader_slots {
            Some(outside) => Some(outside.leader_slots),
            None => None,
        }
    }

    /// The leader slots begin.
    pub fn begin_leader(&mut self, _timestamp: u64, log: &mut Vec<Decision>)
        ensures
            final(self).keeps_all_but_leader(*old(self)),
            final(self).leader_status == begun(
                old(self).tracks_leader(),
                old(self).leader_status,
            ).status,
            decisions(final(log)@) == decisions(old(log)@) + begun(
                old(self).tracks_leader(),
                old(self).leader_status,
            ).declared,
    {
        let is_leader = match self.leader_status {
            LeaderStatus::Leader => true,
            _ => false,
        };
        if self.config.outside_leader_slots.is_none() || !is_leader {
            log.push(Decision::Leader);
            self.leader_status = LeaderStatus::Leader;
            assert(decisions(log@) =~= decisions(old(log)@) + seq![DecisionView::Leader]);
        } else {
            assert(decisions(log@) =~= decisions(old(log)@) + Seq::<DecisionView>::empty());
        }
    }

    /// The leader slots end.
    pub fn end_leader(&mut self, timestamp: u64, log: &mut Vec<Decision>)
        ensures
            final(self).keeps_all_but_leader(*old(self)),
            final(self).leader_status == ended(
                old(self).tracks_leader(),
                old(self).leader_status,
            ).status,
            decisions(final(log)@) == decisions(old(log)@) + ended(
                old(self).tracks_leader(),
                old(self).leader_status,
            ).declared,
    {
        if self.config.outside_leader_slots.is_some() {
            let is_not_leader = match self.leader_status {
                LeaderStatus::NotLeader => true,
                _ => false,
            };
            if !is_not_leader {
                log.push(Decision::NotLeader);
                self.leader_status = LeaderStatus::NotLeader;
                assert(decisions(log@) =~= decisions(old(log)@) + seq![DecisionView::NotLeader]);
            } else {
                assert(decisions(log@) =~= decisions(old(log)@) + Seq::<DecisionView>::empty());
            }
        } else {
            self.begin_leader(timestamp, log);
        }
    }

    /// Takes the transactions that were first submitted more than the
    /// retention time before `now` out of the ledger, and returns their
    /// attributions: transaction by transaction in the order of the ledger,
    /// within a transaction in the order of its submissions.
    pub fn drain_ledger(&mut self, now: u64) -> (attributed: Vec<Attribution>)
        requires
            old(self).wf(),
        ensures
            final(self).wf(),
            final(self).keeps_all_but_ledger(*old(self)),
            final(self).ledger() == old(self).ledger().filter(
                retained(now - TX_RETENTION_DURATION_MS),
            ),
            attributed@ == drained(old(self).ledger(), now - TX_RETENTION_DURATION_MS),
    {
        let cutoff: u64 = if now >= TX_RETENTION_DURATION_MS {
            now - TX_RETENTION_DURATION_MS
        } else {
            0
        };
        let ghost c: int = now - TX_RETENTION_DURATION_MS;
        let ghost before = self.current_tx@;
        let all = self.current_tx.take_entries();
        let mut kept: Vec<Entry<Signature, Tx>> = Vec::new();
        let mut attributed: Vec<Attribution> = Vec::new();
        assert(ledger_of(before.take(0)) =~= Seq::<Entry<Signature, TxView>>::empty());
        assert(ledger_of(kept@) =~= ledger_of(before.take(0)).filter(retained(c)));
        for e in it: all
            invariant
                it.seq() == before,
                distinct_keys(before),
                forall|j: int| 0 <= j < before.len() ==> (#[trigger] before[j]).value@.wf(),
                c == now - TX_RETENTION_DURATION_MS,
                cutoff == if c >= 0 { c } else { 0 },
                ledger_of(kept@) == ledger_of(before.take(it.index())).filter(retained(c)),
                attributed@ == drained(ledger_of(before.take(it.index())), c),
                distinct_keys(kept@),
                forall|j: int|
                    0 <= j < kept@.len() ==> has_key(
                        before.take(it.index()),
                        (#[trigger] kept@[j]).key,
                    ),
                forall|j: int| 0 <= j < kept@.len() ==> (#[trigger] kept@[j]).value@.wf(),
        {
            let ghost i = it.index();
            let ghost old_kept = kept@;
            proof {
                reveal(Seq::filter);
                let s = ledger_of(before.take(i + 1));
                assert(s.drop_last() =~= ledger_of(before.take(i)));
                assert(s.last() == Entry { key: e.key, value: e.value@ });
                assert(before[i].value@.wf());
                assert forall|j: int| 0 <= j < old_kept.len() implies has_key(
                    before.take(i + 1),
                    (#[trigger] old_kept[j]).key,
                ) && old_kept[j].key != e.key by {
                    let k = old_kept[j].key;
                    let p = position(before.take(i), k);
                    assert(before.take(i + 1)[p].key == k);
                    assert(before[p].key != before[i].key);
                }
            }
            if e.value.submissions[0].timestamp < cutoff {
                e.value.attribute(&mut attributed);
            } else {
                kept.push(e);
                proof {
                    assert(ledger_of(kept@) =~= ledger_of(old_kept).push(
                        Entry { key: e.key, value: e.value@ },
                    ));
                    assert(before.take(i + 1)[i].key == e.key);
                    assert forall|a: int, b: int| 0 <= a < b < kept@.len() implies kept@[a].key
                        != kept@[b].key by {
                        if b == old_kept.len() {
                            assert(old_kept[a].key != e.key);
                        } else {
                            assert(old_kept[a].key != old_kept[b].key);
                        }
                    }
                }
            }
        }
        proof {
            assert(before.take(before.len() as int) =~= before);
        }
        self.current_tx.entries = kept;
        attributed
    }

    /// Forgets the peers that were last seen more than the retention time
    /// before `now`, and their stakes with them.
    pub fn reap_peers(&mut self, now: u64)
        requires
            old(self).wf(),
        ensures
            final(self).wf(),
            final(self).keeps_all_but_peers(*old(self)),
            final(self).peers@ == old(self).peers@.filter(fresh(now - PEER_RETENTION_DURATION_MS)),
            final(self).stakes@ == without_all(
                old(self).stakes@,
                keys(old(self).peers@.filter(stale(now - PEER_RETENTION_DURATION_MS))),
            ),
    {
        let cutoff: u64 = if now >= PEER_RETENTION_DURATION_MS {
            now - PEER_RETENTION_DURATION_MS
        } else {
            0
        };
        let ghost c: int = now - PEER_RETENTION_DURATION_MS;
        let ghost before = self.peers@;
        let ghost t = self.clock.most_recent_timestamp;
        let all = self.peers.take_entries();
        let mut kept: Vec<Entry<IpAddr, Peer>> = Vec::new();
        let mut gone: Vec<IpAddr> = Vec::new();
        assert(before.take(0) =~= Seq::<Entry<IpAddr, Peer>>::empty());
        assert(gone@ =~= keys(before.take(0).filter(stale(c))));
        for e in it: all
            invariant
                it.seq() == before,
                forall|j: int| 0 <= j < before.len() ==> (#[trigger] before[j]).value.wf_at(t),
                c == now - PEER_RETENTION_DURATION_MS,
                cutoff == if c >= 0 { c } else { 0 },
                kept@ == before.take(it.index()).filter(fresh(c)),
                gone@ == keys(before.take(it.index()).filter(stale(c))),
                forall|j: int| 0 <= j < kept@.len() ==> (#[trigger] kept@[j]).value.wf_at(t),
        {
            proof {
                reveal(Seq::filter);
                let i = it.index();
                assert(before.take(i + 1).drop_last() =~= before.take(i));
                assert(before.take(i + 1).last() == before[i]);
                assert(before[i].value.wf_at(t));
            }
            if e.value.most_recent_timestamp < cutoff {
                gone.push(e.key);
                assert(gone@ =~= keys(before.take(it.index() + 1).filter(stale(c))));
            } else {
                kept.push(e);
            }
        }
        proof {
            assert(before.take(before.len() as int) =~= before);
            lemma_filter(before, fresh(c));
        }
        self.peers.entries = kept;
        self.stakes.remove_all(&gone);
    }

    /// Everything but the configuration is as in `before`.
    pub open spec fn keeps_all_but_config(&self, before: State) -> bool {
        &&& self.clock == before.clock
        &&& self.pubkey_classifications == before.pubkey_classifications
        &&& self.leader_status == before.leader_status
        &&& self.peers == before.peers
        &&& self.stakes == before.stakes
        &&& self.current_tx == before.current_tx
        &&& self.pubkey_groups == before.pubkey_groups
        &&& self.classification_groups == before.classification_groups
    }

    /// Everything but the configuration and the classification groups is
    /// as in `before`.
    pub open spec fn keeps_all_but_classifications(&self, before: State) -> bool {
        &&& self.clock == before.clock
        &&& self.pubkey_classifications == before.pubkey_classifications
        &&& self.leader_status == before.leader_status
        &&& self.peers == before.peers
        &&& self.stakes == before.stakes
        &&& self.current_tx == before.current_tx
        &&& self.pubkey_groups == before.pubkey_groups
    }

    /// The configuration of this state is that of `before` after the fee
    /// classifications took in `attributed`.
    pub open spec fn config_fed(&self, before: State, attributed: Seq<Attribution>) -> bool {
        &&& self.config.known_pubkeys == before.config.known_pubkeys
        &&& self.config.useless_quic_connection_duration_ms
            == before.config.useless_quic_connection_duration_ms
        &&& self.config.outside_leader_slots == before.config.outside_leader_slots
        &&& forall|metric: Metric|
            match before.config.classification(metric) {
                Some(c) => {
                    &&& (#[trigger] self.config.classification(metric)) is Some
                    &&& self.config.classification(metric)->0.keeps_rules(c)
                    &&& self.config.classification(metric)->0.series() == supplied(
                        c.series(),
                        attributed,
                        metric,
                    )
                },
                None => (#[trigger] self.config.classification(metric)) is None,
            }
    }

    /// The configuration of this state is that of `before` after every
    /// classification dropped the values that are too old at `now`.
    pub open spec fn config_swept(&self, before: State, now: u64) -> bool {
        &&& self.config.known_pubkeys == before.config.known_pubkeys
        &&& self.config.useless_quic_connection_duration_ms
            == before.config.useless_quic_connection_duration_ms
        &&& self.config.outside_leader_slots == before.config.outside_leader_slots
        &&& forall|metric: Metric|
            match before.config.classification(metric) {
                Some(c) => {
                    &&& (#[trigger] self.config.classification(metric)) is Some
                    &&& self.config.classification(metric)->0.keeps_rules(c)
                    &&& self.config.classification(metric)->0.series() == swept(
                        c.series(),
                        now - c.max_duration_ms,
                    )
                },
                None => (#[trigger] self.config.classification(metric)) is None,
            }
    }

    /// Feeds the fee classifications the attributions of the transactions
    /// that left the ledger.
    pub fn feed_fees(&mut self, attributed: &Vec<Attribution>)
        requires
            old(self).wf(),
            old(self).can_feed(attributed@),
        ensures
            final(self).wf(),
            final(self).keeps_all_but_config(*old(self)),
            final(self).config_fed(*old(self), attributed@),
    {
        feed(&mut self.config.fee_lamports_submitted, attributed, Metric::FeeLamportsSubmitted);
        feed(
            &mut self.config.fee_microlamports_per_cu_limit,
            attributed,
            Metric::FeeMicrolamportsPerCuLimit,
        );
        feed(
            &mut self.config.fee_microlamports_per_cu_used,
            attributed,
            Metric::FeeMicrolamportsPerCuUsed,
        );
    }

    /// The ticks of the classifications, one after the other in the order
    /// in which the configuration lists them.
    #[verifier::rlimit(40)]
    pub fn tick_classifications(&mut self, now: u64, log: &mut Vec<Decision>)
        requires
            old(self).wf(),
            old(self).config.fits(now),
        ensures
            final(self).wf(),
            final(self).keeps_all_but_classifications(*old(self)),
            final(self).config_swept(*old(self), now),
            final(self).config.bounded(now),
            final(self).classification_groups@ == tick_outcome(
                final(self).config,
                old(self).stakes@,
                now,
                old(self).classification_groups@,
            ).registry,
            decisions(final(log)@) == decisions(old(log)@) + tick_outcome(
                final(self).config,
                old(self).stakes@,
                now,
                old(self).classification_groups@,
            ).declared,
    {
        let ghost log0 = decisions(log@);
        proof {
            let t = self.clock.most_recent_timestamp;
            if self.config.failed_exceeded_quic_connections is Some {
                let c = self.config.failed_exceeded_quic_connections->0;
                lemma_swept_timely(c.series(), now - c.max_duration_ms, t);
            }
            if self.config.useless_quic_connections is Some {
                let c = self.config.useless_quic_connections->0;
                lemma_swept_timely(c.series(), now - c.max_duration_ms, t);
            }
        }
        tick(
            &mut self.config.failed_exceeded_quic_connections,
            &self.stakes,
            &mut self.classification_groups,
            now,
            log,
        );
        tick(
            &mut self.config.useless_quic_connections,
            &self.stakes,
            &mut self.classification_groups,
            now,
            log,
        );
        tick(
            &mut self.config.fee_lamports_submitted,
            &self.stakes,
            &mut self.classification_groups,
            now,
            log,
        );
        tick(
            &mut self.config.fee_microlamports_per_cu_limit,
            &self.stakes,
            &mut self.classification_groups,
            now,
            log,
        );
        tick(
            &mut self.config.fee_microlamports_per_cu_used,
            &self.stakes,
            &mut self.classification_groups,
            now,
            log,
        );
        proof {
            let outcome = tick_outcome(
                self.config,
                old(self).stakes@,
                now,
                old(self).classification_groups@,
            );
            assert(decisions(log@) =~= log0 + outcome.declared);
        }
    }

    /// The work of one tick, to be done once a second. The clock takes
    /// `now` as it takes the timestamp of an event. An unknown leader state
    /// becomes the state outside leader slots, which is declared, whether
    /// or not leader slots are watched. The transactions that are old
    /// enough leave the ledger and bring their submitters their fees. Every
    /// classification drops its old values, so that no value of a
    /// connection is left that is older than the longest window, and
    /// evaluates its thresholds.
    /// Then the memberships that have run out end, first in the groups of
    /// the classifications and then in those of the known identities, and
    /// the peers that were not seen for long are forgotten. What was
    /// declared on the way is appended to `log`.
    pub fn periodic(&mut self, now: u64, log: &mut Vec<Decision>)
        requires
            old(self).wf(),
            !old(self).clock.exhausted(now),
            old(self).config.fits(old(self).clock.effective(now)),
            old(self).fees_fit(now),
        ensures
            final(self).wf(),
            final(self).clock == old(self).clock.step(now),
            final(self).pubkey_classifications == old(self).pubkey_classifications,
            final(self).leader_status == old(self).tick_turn().status,
            final(self).ledger() == old(self).ledger().filter(
                retained(old(self).clock.effective(now) - TX_RETENTION_DURATION_MS),
            ),
            final(self).config_ticked(
                *old(self),
                drained(
                    old(self).ledger(),
                    old(self).clock.effective(now) - TX_RETENTION_DURATION_MS,
                ),
                old(self).clock.effective(now),
            ),
            final(self).config.bounded(old(self).clock.effective(now)),
            final(self).classification_groups@ == reaped(
                tick_outcome(
                    final(self).config,
                    old(self).stakes@,
                    old(self).clock.effective(now),
                    old(self).classification_groups@,
                ).registry,
                old(self).clock.effective(now),
            ),
            final(self).pubkey_groups@ == reaped(
                old(self).pubkey_groups@,
                old(self).clock.effective(now),
            ),
            decisions(final(log)@) == decisions(old(log)@) + old(self).tick_turn().declared
                + tick_outcome(
                final(self).config,
                old(self).stakes@,
                old(self).clock.effective(now),
                old(self).classification_groups@,
            ).declared + removals(
                tick_outcome(
                    final(self).config,
                    old(self).stakes@,
                    old(self).clock.effective(now),
                    old(self).classification_groups@,
                ).registry,
                old(self).clock.effective(now),
            ) + removals(old(self).pubkey_groups@, old(self).clock.effective(now)),
            final(self).peers@ == old(self).peers@.filter(
                fresh(old(self).clock.effective(now) - PEER_RETENTION_DURATION_MS),
            ),
            final(self).stakes@ == without_all(
                old(self).stakes@,
                keys(
                    old(self).peers@.filter(
                        stale(old(self).clock.effective(now) - PEER_RETENTION_DURATION_MS),
                    ),
                ),
            ),
    {
        let now = self.get_timestamp(now);
        let ghost log0 = decisions(log@);
        let ghost turn = old(self).tick_turn();
        let unknown = match self.leader_status {
            LeaderStatus::Unknown => true,
            _ => false,
        };
        if unknown {
            log.push(Decision::NotLeader);
            self.leader_status = LeaderStatus::NotLeader;
            assert(decisions(log@) =~= log0 + seq![DecisionView::NotLeader]);
        } else {
            assert(decisions(log@) =~= log0 + Seq::<DecisionView>::empty());
        }
        proof {
            let cutoff = now - TX_RETENTION_DURATION_MS;
            if self.config.fee_microlamports_per_cu_limit is Some {
                lemma_drained_fees_fit(self.ledger(), cutoff, Metric::FeeMicrolamportsPerCuLimit);
            }
            if self.config.fee_microlamports_per_cu_used is Some {
                lemma_drained_fees_fit(self.ledger(), cutoff, Metric::FeeMicrolamportsPerCuUsed);
            }
        }
        let attributed = self.drain_ledger(now);
        let ghost s1 = *self;
        self.feed_fees(&attributed);
        let ghost s2 = *self;
        proof {
            assert(s2.config.fits(now)) by {
                assert(s1.config.fits(now));
                assert(s2.config_fed(s1, attributed@));
                lemma_rules_fit(s1.config, s2.config, now);
            }
        }
        self.tick_classifications(now, log);
        let ghost s3 = *self;
        let ghost outcome = tick_outcome(s3.config, s1.stakes@, now, s1.classification_groups@);
        proof {
            assert forall|m: Metric|
                slot_ticked(
                    #[trigger] s3.config.classification(m),
                    old(self).config.classification(m),
                    attributed@,
                    m,
                    now,
                ) by {
                assert(s1.config.classification(m) == old(self).config.classification(m));
                let after_feed = s2.config.classification(m);
                let after_tick = s3.config.classification(m);
                if s1.config.classification(m) is Some {
                    assert(after_feed is Some);
                    assert(after_tick is Some);
                }
            }
        }
        self.classification_groups.periodic(now, log);
        self.pubkey_groups.periodic(now, log);
        self.reap_peers(now);
        proof {
            assert(decisions(log@) =~= decisions(old(log)@) + turn.declared + outcome.declared
                + removals(outcome.registry, now) + removals(old(self).pubkey_groups@, now));
        }
    }

    /// The event can be taken in: no timestamp or count that it leads to
    /// is beyond what its type can hold.
    pub open spec fn admits(&self, event: Event) -> bool {
        match event {
            Event::Failed { timestamp, .. } => !self.clock.exhausted(timestamp),
            Event::Exceeded { timestamp, peer_pubkey, .. } => {
                &&& !self.clock.exhausted(timestamp)
                &&& !self.clock.step(timestamp).exhausted(timestamp)
                &&& self.rule_for_identity(peer_pubkey) is Some ==> self.rule_for_identity(
                    peer_pubkey,
                )->0.expiry(self.clock.step(timestamp).effective(timestamp)) <= u64::MAX
            },
            Event::Started { timestamp, peer_pubkey, .. } => {
                &&& !self.clock.exhausted(timestamp)
                &&& self.fits_identity(timestamp, peer_pubkey)
            },
            Event::Finished { timestamp, .. } => !self.clock.exhausted(timestamp),
            Event::VoteTx { timestamp, peer_addr } => {
                &&& !self.clock.exhausted(timestamp)
                &&& self.can_count(peer_addr)
            },
            Event::UserTx { timestamp, peer_addr, .. } => {
                &&& !self.clock.exhausted(timestamp)
                &&& self.can_count(peer_addr)
            },
            Event::Fee { timestamp, .. } => !self.clock.exhausted(timestamp),
            _ => true,
        }
    }

    /// The clock after `event`. Events without a peer or a transaction in
    /// them leave the clock alone; an attempt that exceeded a limit moves it twice.
    pub open spec fn clock_after(&self, event: Event) -> Clock {
        match event {
            Event::Failed { timestamp, .. } => self.clock.step(timestamp),
            Event::Exceeded { timestamp, .. } => self.clock.step(timestamp).step(timestamp),
            Event::Started { timestamp, .. } => self.clock.step(timestamp),
            Event::Finished { timestamp, .. } => self.clock.step(timestamp),
            Event::VoteTx { timestamp, .. } => self.clock.step(timestamp),
            Event::UserTx { timestamp, .. } => self.clock.step(timestamp),
            Event::Fee { timestamp, .. } => self.clock.step(timestamp),
            _ => self.clock,
        }
    }

    /// Whether the membership that the identity `pubkey` would bring at
    /// `now` ends no later than the last instant that a timestamp can hold.
    pub fn identity_fits_at(&self, now: u64, pubkey: Option<Pubkey>) -> (r: bool)
        requires
            self.wf(),
        ensures
            r == (self.rule_for_identity(pubkey) is Some ==> self.rule_for_identity(
                pubkey,
            )->0.expiry(now) <= u64::MAX),
    {
        match pubkey {
            Some(k) => {
                proof {
                    lemma_same_keys(self.pubkey_classifications@, self.rules());
                }
                match self.pubkey_classifications.get(&k) {
                    Some(rule) => {
                        assert(rule@ == value_of(self.rules(), k)) by {
                            let p = position(self.pubkey_classifications@, k);
                            assert(self.rules()[p].value == self.pubkey_classifications@[p].value@);
                        }
                        now as u128 + rule.group_expiration_seconds as u128 * 1000
                            <= u64::MAX as u128
                    },
                    None => true,
                }
            },
            None => true,
        }
    }

    /// Whether the count of the transactions of `ip` can take one more.
    pub fn can_count_at(&self, ip: &IpAddr) -> (r: bool)
        requires
            self.wf(),
        ensures
            r == self.can_count(*ip),
    {
        match self.peers.get(ip) {
            Some(peer) => peer.tx_submitted < u64::MAX,
            None => true,
        }
    }

    /// Whether `event` can be taken in.
    pub fn accepts(&self, event: &Event) -> (r: bool)
        requires
            self.wf(),
        ensures
            r == self.admits(*event),
    {
        match *event {
            Event::Failed { timestamp, .. } => !self.clock.is_exhausted(timestamp),
            Event::Exceeded { timestamp, peer_pubkey, .. } => {
                if self.clock.is_exhausted(timestamp) {
                    return false;
                }
                let mut clock = self.clock;
                clock.advance(timestamp);
                if clock.is_exhausted(timestamp) {
                    return false;
                }
                let now = clock.peek(timestamp);
                self.identity_fits_at(now, peer_pubkey)
            },
            Event::Started { timestamp, peer_pubkey, .. } => {
                if self.clock.is_exhausted(timestamp) {
                    return false;
                }
                let now = self.clock.peek(timestamp);
                self.identity_fits_at(now, peer_pubkey)
            },
            Event::Finished { timestamp, .. } => !self.clock.is_exhausted(timestamp),
            Event::VoteTx { timestamp, peer_addr } => {
                !self.clock.is_exhausted(timestamp) && self.can_count_at(&peer_addr)
            },
            Event::UserTx { timestamp, peer_addr, .. } => {
                !self.clock.is_exhausted(timestamp) && self.can_count_at(&peer_addr)
            },
            Event::Fee { timestamp, .. } => !self.clock.is_exhausted(timestamp),
            _ => true,
        }
    }

    /// Whether the fee of every transaction of the ledger that was first
    /// submitted more than the retention time before `now` and has landed
    /// has a value for `metric`.
    pub fn ledger_fits_at(&self, now: u64, metric: Metric) -> (r: bool)
        requires
            self.wf(),
        ensures
            r == ledger_fits(self.ledger(), now - TX_RETENTION_DURATION_MS, metric),
    {
        let cutoff: u64 = if now >= TX_RETENTION_DURATION_MS {
            now - TX_RETENTION_DURATION_MS
        } else {
            0
        };
        let ghost c: int = now - TX_RETENTION_DURATION_MS;
        let ghost ledger = self.ledger();
        let mut i: usize = 0;
        while i < self.current_tx.len()
            invariant
                i <= self.current_tx@.len(),
                self.wf(),
                ledger == self.ledger(),
                c == now - TX_RETENTION_DURATION_MS,
                cutoff == if c >= 0 { c } else { 0 },
                forall|j: int|
                    0 <= j < i && outdated(c)(#[trigger] ledger[j]) && ledger[j].value.fee is Some
                        ==> ledger[j].value.fee->0.measurable_for(metric),
            decreases self.current_tx@.len() - i,
        {
            let entry = self.current_tx.entry_at(i);
            proof {
                assert(self.current_tx@[i as int].value@.wf());
                assert(ledger[i as int].value == entry.value@);
            }
            if entry.value.submissions[0].timestamp < cutoff {
                if let Some(fee) = entry.value.fee {
                    if !fee.is_measurable_for(metric) {
                        assert(outdated(c)(ledger[i as int]));
                        return false;
                    }
                }
            }
            i += 1;
        }
        true
    }

    /// Whether a tick at `now` can be done: the clock is not exhausted by
    /// it, no membership that a classification grants at its effective
    /// time ends after the last instant that a timestamp can hold, and the
    /// fees of the transactions that leave the ledger have a value for each
    /// fee per compute unit that is classified.
    pub fn can_tick(&self, now: u64) -> (r: bool)
        requires
            self.wf(),
        ensures
            r == (!self.clock.exhausted(now) && self.config.fits(self.clock.effective(now))
                && self.fees_fit(now)),
    {
        if self.clock.is_exhausted(now) {
            return false;
        }
        let effective = self.clock.peek(now);
        if !self.config.fits_at(effective) {
            return false;
        }
        if self.config.fee_microlamports_per_cu_limit.is_some() && !self.ledger_fits_at(
            effective,
            Metric::FeeMicrolamportsPerCuLimit,
        ) {
            return false;
        }
        if self.config.fee_microlamports_per_cu_used.is_some() && !self.ledger_fits_at(
            effective,
            Metric::FeeMicrolamportsPerCuUsed,
        ) {
            return false;
        }
        true
    }

    /// Takes in `event`: hands it to the operation that is named after it,
    /// whose contract says what it does. Forwarded and dropped transactions
    /// and events that are no longer in use are passed over.
    pub fn handle(&mut self, event: Event, log: &mut Vec<Decision>)
        requires
            old(self).wf(),
            old(self).admits(event),
        ensures
            final(self).wf(),
            final(self).clock == old(self).clock_after(event),
            final(self).clock.most_recent_timestamp >= old(self).clock.most_recent_timestamp,
            final(self).pubkey_classifications == old(self).pubkey_classifications,
            final(self).classification_groups == old(self).classification_groups,
            match event {
                Event::Failed { timestamp, peer_addr } => {
                    &&& final(self).keeps_tables(*old(self))
                    &&& final(self).config.records(
                        old(self).config,
                        Metric::FailedExceededQuicConnections,
                        peer_addr,
                        TimestampedValue {
                            timestamp: old(self).clock.effective(timestamp),
                            value: 1,
                        },
                    )
                    &&& final(log)@ == old(log)@
                },
                Event::Exceeded { timestamp, peer_addr, peer_pubkey, stake } => {
                    &&& final(self).config.records(
                        old(self).config,
                        Metric::FailedExceededQuicConnections,
                        peer_addr,
                        TimestampedValue {
                            timestamp: old(self).clock.effective(timestamp),
                            value: 1,
                        },
                    )
                    &&& final(self).leader_status == old(self).leader_status
                    &&& final(self).current_tx == old(self).current_tx
                    &&& final(self).peers@ == greeted(
                        old(self).peers@,
                        peer_addr,
                        old(self).clock.step(timestamp).effective(timestamp),
                    )
                    &&& final(self).stakes@ == upsert(old(self).stakes@, peer_addr, stake)
                    &&& final(self).pubkey_groups@ == identified_registry(
                        old(self).pubkey_groups@,
                        old(self).rule_for_identity(peer_pubkey),
                        peer_addr,
                        old(self).clock.step(timestamp).effective(timestamp),
                    )
                    &&& decisions(final(log)@) == decisions(old(log)@) + identified_declared(
                        old(self).pubkey_groups@,
                        old(self).rule_for_identity(peer_pubkey),
                        peer_addr,
                        old(self).clock.step(timestamp).effective(timestamp),
                    )
                },
                Event::Started { timestamp, peer_addr, peer_pubkey, stake } => {
                    &&& final(self).config == old(self).config
                    &&& final(self).leader_status == old(self).leader_status
                    &&& final(self).current_tx == old(self).current_tx
                    &&& final(self).peers@ == greeted(
                        old(self).peers@,
                        peer_addr,
                        old(self).clock.effective(timestamp),
                    )
                    &&& final(self).stakes@ == upsert(old(self).stakes@, peer_addr, stake)
                    &&& final(self).pubkey_groups@ == identified_registry(
                        old(self).pubkey_groups@,
                        old(self).rule_for_identity(peer_pubkey),
                        peer_addr,
                        old(self).clock.effective(timestamp),
                    )
                    &&& decisions(final(log)@) == decisions(old(log)@) + identified_declared(
                        old(self).pubkey_groups@,
                        old(self).rule_for_identity(peer_pubkey),
                        peer_addr,
                        old(self).clock.effective(timestamp),
                    )
                },
                Event::Finished { timestamp, peer_addr } => {
                    &&& final(self).leader_status == old(self).leader_status
                    &&& final(self).stakes == old(self).stakes
                    &&& final(self).current_tx == old(self).current_tx
                    &&& final(self).pubkey_groups == old(self).pubkey_groups
                    &&& final(self).peers@ == heard(
                        old(self).peers@,
                        peer_addr,
                        old(self).clock.effective(timestamp),
                        0,
                    )
                    &&& if was_useless(
                        old(self).peers@,
                        peer_addr,
                        old(self).clock.effective(timestamp),
                        old(self).config.useless_after_ms(),
                    ) {
                        final(self).config.records(
                            old(self).config,
                            Metric::UselessQuicConnections,
                            peer_addr,
                            TimestampedValue {
                                timestamp: old(self).clock.effective(timestamp),
                                value: 1,
                            },
                        )
                    } else {
                        final(self).config == old(self).config
                    }
                    &&& final(log)@ == old(log)@
                },
                Event::VoteTx { timestamp, peer_addr } => {
                    &&& final(self).config == old(self).config
                    &&& final(self).leader_status == old(self).leader_status
                    &&& final(self).stakes == old(self).stakes
                    &&& final(self).current_tx == old(self).current_tx
                    &&& final(self).pubkey_groups == old(self).pubkey_groups
                    &&& final(self).peers@ == heard(
                        old(self).peers@,
                        peer_addr,
                        old(self).clock.effective(timestamp),
                        1,
                    )
                    &&& final(log)@ == old(log)@
                },
                Event::UserTx { timestamp, peer_addr, signature } => {
                    &&& final(self).config == old(self).config
                    &&& final(self).leader_status == old(self).leader_status
                    &&& final(self).stakes == old(self).stakes
                    &&& final(self).pubkey_groups == old(self).pubkey_groups
                    &&& final(self).peers@ == heard(
                        old(self).peers@,
                        peer_addr,
                        old(self).clock.effective(timestamp),
                        1,
                    )
                    &&& final(self).ledger() == posted(
                        old(self).ledger(),
                        signature,
                        old(self).clock.effective(timestamp),
                        peer_addr,
                    )
                    &&& final(log)@ == old(log)@
                },
                Event::Fee { timestamp, signature, cu_limit, cu_used, fee } => {
                    &&& final(self).config == old(self).config
                    &&& final(self).leader_status == old(self).leader_status
                    &&& final(self).peers == old(self).peers
                    &&& final(self).stakes == old(self).stakes
                    &&& final(self).pubkey_groups == old(self).pubkey_groups
                    &&& final(self).ledger() == landed(
                        old(self).ledger(),
                        signature,
                        Fee { total: fee, cu_limit, cu_used },
                    )
                    &&& final(log)@ == old(log)@
                },
                Event::WillBeLeader { slots, .. } => {
                    &&& final(self).keeps_all_but_leader(*old(self))
                    &&& final(self).leader_status == foreseen(
                        old(self).leader_slots(),
                        slots,
                        old(self).leader_status,
                    ).status
                    &&& decisions(final(log)@) == decisions(old(log)@) + foreseen(
                        old(self).leader_slots(),
                        slots,
                        old(self).leader_status,
                    ).declared
                },
                Event::BeginLeader { .. } => {
                    &&& final(self).keeps_all_but_leader(*old(self))
                    &&& final(self).leader_status == begun(
                        old(self).tracks_leader(),
                        old(self).leader_status,
                    ).status
                    &&& decisions(final(log)@) == decisions(old(log)@) + begun(
                        old(self).tracks_leader(),
                        old(self).leader_status,
                    ).declared
                },
                Event::EndLeader { .. } => {
                    &&& final(self).keeps_all_but_leader(*old(self))
                    &&& final(self).leader_status == ended(
                        old(self).tracks_leader(),
                        old(self).leader_status,
                    ).status
                    &&& decisions(final(log)@) == decisions(old(log)@) + ended(
                        old(self).tracks_leader(),
                        old(self).leader_status,
                    ).declared
                },
                _ => *final(self) == *old(self) && final(log)@ == old(log)@,
            },
    {
        proof {
            match event {
                Event::Exceeded { timestamp, .. } => {
                    lemma_step_never_goes_back(self.clock, timestamp);
                    lemma_step_never_goes_back(self.clock.step(timestamp), timestamp);
                },
                Event::Failed { timestamp, .. }
                | Event::Started { timestamp, .. }
                | Event::Finished { timestamp, .. }
                | Event::VoteTx { timestamp, .. }
                | Event::UserTx { timestamp, .. }
                | Event::Fee { timestamp, .. } => {
                    lemma_step_never_goes_back(self.clock, timestamp);
                },
                _ => {},
            }
        }
        match event {
            Event::Failed { timestamp, peer_addr } => self.failed(timestamp, peer_addr),
            Event::Exceeded { timestamp, peer_addr, peer_pubkey, stake } => self.exceeded(
                timestamp,
                peer_addr,
                peer_pubkey,
                stake,
                log,
            ),
            Event::Started { timestamp, peer_addr, peer_pubkey, stake } => self.started(
                timestamp,
                peer_addr,
                peer_pubkey,
                stake,
                log,
            ),
            Event::Finished { timestamp, peer_addr } => self.finished(timestamp, peer_addr),
            Event::VoteTx { timestamp, peer_addr } => self.votetx(timestamp, peer_addr),
            Event::UserTx { timestamp, peer_addr, signature } => self.usertx(
                timestamp,
                peer_addr,
                signature,
            ),
            Event::Forwarded { timestamp, signature } => self.forwarded(timestamp, signature),
            Event::BadFee { timestamp, signature } => self.badfee(timestamp, signature),
            Event::Fee { timestamp, signature, cu_limit, cu_used, fee } => self.fee(
                timestamp,
                signature,
                cu_limit,
                cu_used,
                fee,
            ),
            Event::WillBeLeader { timestamp, slots } => self.will_be_leader(timestamp, slots, log),
            Event::BeginLeader { timestamp } => self.begin_leader(timestamp, log),
            Event::EndLeader { timestamp } => self.end_leader(timestamp, log),
            Event::Deprecated => {},
        }
    }
}

/// A configuration whose classifications keep the rules of another grants
/// memberships that fit wherever those of the other do.
pub proof fn lemma_rules_fit(before: Config, after: Config, now: u64)
    requires
        before.fits(now),
        forall|metric: Metric|
            match before.classification(metric) {
                Some(c) => (#[trigger] after.classification(metric)) is Some
                    && after.classification(metric)->0.keeps_rules(c),
                None => (#[trigger] after.classification(metric)) is None,
            },
    ensures
        after.fits(now),
{
    lemma_slot_fits(before, after, Metric::FailedExceededQuicConnections, now);
    lemma_slot_fits(before, after, Metric::UselessQuicConnections, now);
    lemma_slot_fits(before, after, Metric::FeeLamportsSubmitted, now);
    lemma_slot_fits(before, after, Metric::FeeMicrolamportsPerCuLimit, now);
    lemma_slot_fits(before, after, Metric::FeeMicrolamportsPerCuUsed, now);
}

/// A classification that keeps the rules of another grants memberships
/// that fit wherever those of the other do.
pub proof fn lemma_slot_fits(before: Config, after: Config, metric: Metric, now: u64)
    requires
        before.fits(now),
        match before.classification(metric) {
            Some(c) => after.classification(metric) is Some && after.classification(
                metric,
            )->0.keeps_rules(c),
            None => after.classification(metric) is None,
        },
    ensures
        slot_fits(after.classification(metric), now),
{
    assert(slot_fits(before.classification(metric), now));
    if before.classification(metric) is Some {
        let b = before.classification(metric)->0;
        let a = after.classification(metric)->0;
        assert(b.fits(now));
        assert(a.thresholds@ == b.thresholds@);
        assert forall|i: int| 0 <= i < a.thresholds@.len() implies (
        #[trigger] a.thresholds@[i]).expiry(now) <= u64::MAX by {
            assert(b.thresholds@[i].expiry(now) <= u64::MAX);
        }
    }
}

/// A peer that submits a transaction again changes nothing in the ledger:
/// neither the submissions of the transaction nor its submitters.
pub proof fn lemma_resubmission_changes_nothing(
    ledger: Ledger,
    signature: Signature,
    t: u64,
    ip: IpAddr,
)
    requires
        distinct_keys(ledger),
        has_key(ledger, signature),
        value_of(ledger, signature).submitted_by(ip),
    ensures
        posted(ledger, signature, t, ip) == ledger,
        value_of(posted(ledger, signature, t, ip), signature).submissions == value_of(
            ledger,
            signature,
        ).submissions,
        value_of(posted(ledger, signature, t, ip), signature).submitters() == value_of(
            ledger,
            signature,
        ).submitters(),
{
    let p = position(ledger, signature);
    lemma_position(ledger, p);
    assert(posted(ledger, signature, t, ip) =~= ledger);
}

/// After the peers were reaped at `cutoff`, no peer is left that was last
/// seen before `cutoff`, and a peer that was reaped has no stake left. The
/// peers that are left, and the stakes of the peers that were not reaped,
/// are as they were.
pub proof fn lemma_reaped_peers_are_gone(
    peers: Peers,
    stakes: Seq<Entry<IpAddr, u64>>,
    cutoff: int,
    ip: IpAddr,
)
    requires
        distinct_keys(peers),
        distinct_keys(stakes),
    ensures
        has_key(peers.filter(fresh(cutoff)), ip) <==> has_key(peers, ip) && value_of(
            peers,
            ip,
        ).most_recent_timestamp >= cutoff,
        has_key(peers.filter(fresh(cutoff)), ip) ==> value_of(peers.filter(fresh(cutoff)), ip)
            == value_of(peers, ip),
        has_key(peers, ip) && value_of(peers, ip).most_recent_timestamp < cutoff ==> !has_key(
            without_all(stakes, keys(peers.filter(stale(cutoff)))),
            ip,
        ),
        has_key(stakes, ip) && !(has_key(peers, ip) && value_of(peers, ip).most_recent_timestamp
            < cutoff) ==> has_key(without_all(stakes, keys(peers.filter(stale(cutoff)))), ip)
            && value_of(without_all(stakes, keys(peers.filter(stale(cutoff)))), ip) == value_of(
            stakes,
            ip,
        ),
{
    lemma_filter(peers, fresh(cutoff));
    lemma_filter(peers, stale(cutoff));
    let gone = keys(peers.filter(stale(cutoff)));
    let old_peers = peers.filter(stale(cutoff));
    lemma_without_all(stakes, gone);
    if has_key(peers, ip) {
        lemma_position(peers, position(peers, ip));
    }
    if has_key(old_peers, ip) {
        let i = position(old_peers, ip);
        assert(gone[i] == ip);
    }
    if gone.contains(ip) {
        let i = choose|i: int| 0 <= i < gone.len() && gone[i] == ip;
        assert(old_peers[i].key == ip);
        assert(has_key(old_peers, ip));
        assert(has_key(peers, ip) && stale(cutoff)(peers[position(peers, ip)]));
        assert(value_of(peers, ip).most_recent_timestamp < cutoff);
    }
    assert(has_key(without_all(stakes, gone), ip) <==> has_key(stakes, ip) && !gone.contains(ip));
}

/// The evaluation of one classification ends no membership and lowers no expiry.
pub proof fn lemma_ticked_never_lowers(
    c: Option<Classification>,
    stakes: Seq<Entry<IpAddr, u64>>,
    now: u64,
    registry: Registry,
    name: Seq<char>,
    member: IpAddr,
)
    requires
        registry_wf(registry),
    ensures
        registry_wf(ticked(c, stakes, now, registry).registry),
        expiry_in(registry, name, member) is Some ==> expiry_in(
            ticked(c, stakes, now, registry).registry,
            name,
            member,
        ) is Some && expiry_in(ticked(c, stakes, now, registry).registry, name, member)->0
            >= expiry_in(registry, name, member)->0,
{
    if c is Some {
        lemma_evaluation_never_lowers(
            c->0.series(),
            c->0.thresholds@,
            c->0.evaluates_all(),
            stakes,
            now,
            registry,
            name,
            member,
        );
    }
}

/// Over a tick the expiry of a membership never decreases, and a membership
/// ends only when its expiry lies before the time of the tick: whoever is
/// a member of a group before the tick is, after it, either a member until
/// the same time or later, or no member because that time has passed.
pub proof fn lemma_tick_never_lowers(
    config: Config,
    stakes: Seq<Entry<IpAddr, u64>>,
    now: u64,
    registry: Registry,
    name: Seq<char>,
    member: IpAddr,
)
    requires
        registry_wf(registry),
        expiry_in(registry, name, member) is Some,
    ensures
        match expiry_in(
            reaped(tick_outcome(config, stakes, now, registry).registry, now),
            name,
            member,
        ) {
            Some(expiry) => expiry >= expiry_in(registry, name, member)->0 && expiry >= now,
            None => expiry_in(tick_outcome(config, stakes, now, registry).registry, name, member)
                is Some && expiry_in(
                tick_outcome(config, stakes, now, registry).registry,
                name,
                member,
            )->0 < now,
        },
{
    let a = ticked(config.failed_exceeded_quic_connections, stakes, now, registry);
    let b = ticked(config.useless_quic_connections, stakes, now, a.registry);
    let c = ticked(config.fee_lamports_submitted, stakes, now, b.registry);
    let d = ticked(config.fee_microlamports_per_cu_limit, stakes, now, c.registry);
    let e = ticked(config.fee_microlamports_per_cu_used, stakes, now, d.registry);
    lemma_ticked_never_lowers(
        config.failed_exceeded_quic_connections,
        stakes,
        now,
        registry,
        name,
        member,
    );
    lemma_ticked_never_lowers(
        config.useless_quic_connections,
        stakes,
        now,
        a.registry,
        name,
        member,
    );
    lemma_ticked_never_lowers(
        config.fee_lamports_submitted,
        stakes,
        now,
        b.registry,
        name,
        member,
    );
    lemma_ticked_never_lowers(
        config.fee_microlamports_per_cu_limit,
        stakes,
        now,
        c.registry,
        name,
        member,
    );
    lemma_ticked_never_lowers(
        config.fee_microlamports_per_cu_used,
        stakes,
        now,
        d.registry,
        name,
        member,
    );
    lemma_reaping_keeps_the_rest(e.registry, now, name, member);
}

/// An address that shows a known identity joins the group of that identity
/// until the later of the new expiry and the expiry that it had there: its
/// membership is only ever prolonged. Every other membership is as it was,
/// and an identity that is not known changes nothing.
pub proof fn lemma_identity_only_raises(
    registry: Registry,
    rule: Option<PubkeyGroupView>,
    ip: IpAddr,
    t: u64,
    name: Seq<char>,
    member: IpAddr,
)
    requires
        registry_wf(registry),
    ensures
        registry_wf(identified_registry(registry, rule, ip, t)),
        rule is None ==> identified_registry(registry, rule, ip, t) == registry,
        rule is Some ==> expiry_in(
            identified_registry(registry, rule, ip, t),
            rule->0.group_name,
            ip,
        ) == Some(
            if expiry_in(registry, rule->0.group_name, ip) is Some && expiry_in(
                registry,
                rule->0.group_name,
                ip,
            )->0 >= rule->0.expiry(t) as u64 {
                expiry_in(registry, rule->0.group_name, ip)->0
            } else {
                rule->0.expiry(t) as u64
            },
        ),
        expiry_in(registry, name, member) is Some ==> expiry_in(
            identified_registry(registry, rule, ip, t),
            name,
            member,
        ) is Some && expiry_in(identified_registry(registry, rule, ip, t), name, member)->0
            >= expiry_in(registry, name, member)->0,
        rule is Some && (member != ip || name != rule->0.group_name) ==> expiry_in(
            identified_registry(registry, rule, ip, t),
            name,
            member,
        ) == expiry_in(registry, name, member),
{
    if rule is Some {
        lemma_add_never_lowers(
            registry,
            rule->0.group_name,
            ip,
            rule->0.expiry(t) as u64,
            name,
            member,
        );
    }
}

} // verus!
