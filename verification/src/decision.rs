//! What the classifier declares: changes of group membership and of the
//! leader state. The caller prints or forwards them; nothing here writes.

use vstd::prelude::*;
use crate::key::IpAddr;

verus! {

/// What adding a peer to a group did to the group.
#[derive(Clone, Copy, Debug, PartialEq, Eq, Structural)]
pub enum MembershipChange {
    /// The peer was not a member and is one now.
    Added,
    /// The peer was a member and its expiry was raised.
    Updated,
    /// The peer was a member with an expiry at least as late.
    Unchanged,
}

/// One declared decision.
#[derive(Debug, PartialEq, Eq)]
pub enum Decision {
    /// `ip` joined `group` until `expiration`.
    Add { ip: IpAddr, group: String, expiration: u64 },
    /// The membership of `ip` in `group` now lasts until `expiration`.
    Update { ip: IpAddr, group: String, expiration: u64 },
    /// The membership of `ip` in `group` ran out.
    Remove { ip: IpAddr, group: String },
    /// Peers are classified as during leader slots.
    Leader,
    /// Peers are classified as outside leader slots.
    NotLeader,
}

/// A decision with the group's name as a sequence of characters.
pub enum DecisionView {
    Add { ip: IpAddr, group: Seq<char>, expiration: u64 },
    Update { ip: IpAddr, group: Seq<char>, expiration: u64 },
    Remove { ip: IpAddr, group: Seq<char> },
    Leader,
    NotLeader,
}

impl View for Decision {
    type V = DecisionView;

    open spec fn view(&self) -> DecisionView {
        match *self {
            Decision::Add { ip, group, expiration } => DecisionView::Add {
                ip,
                group: group@,
                expiration,
            },
            Decision::Update { ip, group, expiration } => DecisionView::Update {
                ip,
                group: group@,
                expiration,
            },
            Decision::Remove { ip, group } => DecisionView::Remove { ip, group: group@ },
            Decision::Leader => DecisionView::Leader,
            Decision::NotLeader => DecisionView::NotLeader,
        }
    }
}

/// The views of a sequence of decisions, in order.
pub open spec fn decisions(log: Seq<Decision>) -> Seq<DecisionView> {
    log.map_values(|d: Decision| d@)
}

/// What is declared when adding `ip` to `group` with `expiration` had the
/// effect `change`: one decision, or none where nothing changed.
pub open spec fn declared(
    change: MembershipChange,
    ip: IpAddr,
    group: Seq<char>,
    expiration: u64,
) -> Seq<DecisionView> {
    match change {
        MembershipChange::Added => seq![DecisionView::Add { ip, group, expiration }],
        MembershipChange::Updated => seq![DecisionView::Update { ip, group, expiration }],
        MembershipChange::Unchanged => Seq::empty(),
    }
}

/// Appends to `log` what `declared` says of `change`.
pub fn declare(
    log: &mut Vec<Decision>,
    change: MembershipChange,
    ip: IpAddr,
    group: &String,
    expiration: u64,
)
    ensures
        decisions(final(log)@) == decisions(old(log)@) + declared(change, ip, group@, expiration),
{
    match change {
        MembershipChange::Added => {
            log.push(Decision::Add { ip, group: group.clone(), expiration });
        },
        MembershipChange::Updated => {
            log.push(Decision::Update { ip, group: group.clone(), expiration });
        },
        MembershipChange::Unchanged => {},
    }
    assert(decisions(log@) =~= decisions(old(log)@) + declared(change, ip, group@, expiration));
}

} // verus!
