//! Groups of peers. A group is a named set of peer addresses, each with the
//! time at which its membership runs out; the registry holds the groups by
//! name and is the one place that says who is classified.

use vstd::prelude::*;
use crate::decision::{decisions, Decision, DecisionView, MembershipChange};
use crate::key::IpAddr;
use crate::table::{
    as_map, distinct_keys, has_key, lemma_filter, lemma_position, lemma_upsert, position, upsert,
    value_of, Entry, Table,
};

verus! {

/// How long a peer stays in a group for which no expiration is configured: one day.
pub const DEFAULT_GROUP_EXPIRATION_SECONDS: u64 = 86_400;

/// The members of a group in the order in which they joined, each with its expiry.
pub type Members = Seq<Entry<IpAddr, u64>>;

/// What adding `ip` with `expiry` does to the members `m`.
pub open spec fn member_change(m: Members, ip: IpAddr, expiry: u64) -> MembershipChange {
    if !has_key(m, ip) {
        MembershipChange::Added
    } else if value_of(m, ip) < expiry {
        MembershipChange::Updated
    } else {
        MembershipChange::Unchanged
    }
}

/// The members after adding `ip` with `expiry`: a new member joins, the
/// expiry of a present one is raised, never lowered.
pub open spec fn member_add(m: Members, ip: IpAddr, expiry: u64) -> Members {
    if member_change(m, ip, expiry) is Unchanged {
        m
    } else {
        upsert(m, ip, expiry)
    }
}

/// The memberships that have not run out at `now`.
pub open spec fn alive(now: u64) -> spec_fn(Entry<IpAddr, u64>) -> bool {
    |e: Entry<IpAddr, u64>| e.value >= now
}

/// The memberships that have run out at `now`.
pub open spec fn lapsed(now: u64) -> spec_fn(Entry<IpAddr, u64>) -> bool {
    |e: Entry<IpAddr, u64>| e.value < now
}

/// The addresses of the entries of `m`, in order.
pub open spec fn addresses(m: Members) -> Seq<IpAddr> {
    m.map_values(|e: Entry<IpAddr, u64>| e.key)
}

/// A named group of peers.
#[derive(Debug)]
pub struct Group {
    pub name: String,
    pub members: Table<IpAddr, u64>,
}

/// A group as its name and its members in joining order.
pub struct GroupView {
    pub name: Seq<char>,
    pub members: Members,
}

impl View for Group {
    type V = GroupView;

    open spec fn view(&self) -> GroupView {
        GroupView { name: self.name@, members: self.members@ }
    }
}

impl Group {
    /// No peer is a member twice.
    pub open spec fn wf(&self) -> bool {
        self.members.wf()
    }

    /// A group without members.
    pub fn new(name: String) -> (g: Self)
        ensures
            g@ == (GroupView { name: name@, members: Seq::empty() }),
            g.wf(),
    {
        Group { name, members: Table::new() }
    }

    /// Makes `ip` a member until `expiry`, or raises the expiry of its
    /// membership to `expiry`. An expiry that is not later than the present
    /// one changes nothing.
    pub fn add(&mut self, ip: IpAddr, expiry: u64) -> (change: MembershipChange)
        requires
            old(self).wf(),
        ensures
            final(self).wf(),
            final(self)@.name == old(self)@.name,
            final(self)@.members == member_add(old(self)@.members, ip, expiry),
            change == member_change(old(self)@.members, ip, expiry),
            forall|k: IpAddr| #[trigger]
                has_key(old(self)@.members, k) ==> has_key(final(self)@.members, k) && value_of(
                    final(self)@.members,
                    k,
                ) >= value_of(old(self)@.members, k),
    {
        proof {
            lemma_member_add(self@.members, ip, expiry);
        }
        match self.members.get(&ip) {
            None => {
                self.members.insert(ip, expiry);
                MembershipChange::Added
            },
            Some(present) => {
                if *present < expiry {
                    self.members.insert(ip, expiry);
                    MembershipChange::Updated
                } else {
                    MembershipChange::Unchanged
                }
            },
        }
    }

    /// The expiry of the membership of `ip`, if it is a member.
    pub fn expiry_of(&self, ip: &IpAddr) -> (r: Option<u64>)
        requires
            self.wf(),
        ensures
            match r {
                Some(e) => has_key(self@.members, *ip) && e == value_of(self@.members, *ip),
                None => !has_key(self@.members, *ip),
            },
    {
        match self.members.get(ip) {
            Some(e) => Some(*e),
            None => None,
        }
    }

    /// Ends every membership whose expiry lies before `now` and returns the
    /// addresses that left, in joining order.
    pub fn periodic(&mut self, now: u64) -> (removed: Vec<IpAddr>)
        requires
            old(self).wf(),
        ensures
            final(self).wf(),
            final(self)@.name == old(self)@.name,
            final(self)@.members == old(self)@.members.filter(alive(now)),
            removed@ == addresses(old(self)@.members.filter(lapsed(now))),
    {
        let ghost before = self.members@;
        let all = self.members.take_entries();
        let mut kept: Vec<Entry<IpAddr, u64>> = Vec::new();
        let mut removed: Vec<IpAddr> = Vec::new();
        for e in it: all
            invariant
                it.seq() == before,
                kept@ == before.take(it.index()).filter(alive(now)),
                removed@ == addresses(before.take(it.index()).filter(lapsed(now))),
        {
            proof {
                reveal(Seq::filter);
                let i = it.index();
                assert(before.take(i + 1).drop_last() =~= before.take(i));
                assert(before.take(i + 1).last() == before[i]);
            }
            if e.value >= now {
                kept.push(e);
            } else {
                removed.push(e.key);
                assert(removed@ =~= addresses(before.take(it.index() + 1).filter(lapsed(now))));
            }
        }
        proof {
            assert(before.take(before.len() as int) =~= before);
            lemma_filter(before, alive(now));
        }
        self.members.entries = kept;
        removed
    }
}

/// Adding a member keeps the members distinct and lowers no expiry.
pub proof fn lemma_member_add(m: Members, ip: IpAddr, expiry: u64)
    requires
        distinct_keys(m),
    ensures
        distinct_keys(member_add(m, ip, expiry)),
        has_key(member_add(m, ip, expiry), ip),
        value_of(member_add(m, ip, expiry), ip) >= expiry,
        value_of(member_add(m, ip, expiry), ip) == if has_key(m, ip) && value_of(m, ip)
            >= expiry {
            value_of(m, ip)
        } else {
            expiry
        },
        forall|k: IpAddr| #[trigger]
            has_key(m, k) ==> has_key(member_add(m, ip, expiry), k) && value_of(
                member_add(m, ip, expiry),
                k,
            ) >= value_of(m, k),
        forall|k: IpAddr|
            k != ip ==> (#[trigger] has_key(member_add(m, ip, expiry), k) <==> has_key(m, k)),
        forall|k: IpAddr|
            k != ip && has_key(m, k) ==> #[trigger] value_of(member_add(m, ip, expiry), k)
                == value_of(m, k),
{
    lemma_upsert(m, ip, expiry);
    let t = upsert(m, ip, expiry);
    assert forall|k: IpAddr| true implies (has_key(t, k) <==> has_key(m, k) || k == ip) && (k != ip
        && has_key(m, k) ==> value_of(t, k) == value_of(m, k)) by {
        assert(as_map(t).contains_key(k) <==> as_map(m).insert(
            ip,
            expiry,
        ).contains_key(k));
        if k != ip && has_key(m, k) {
            assert(as_map(t)[k] == as_map(m).insert(ip, expiry)[k]);
        }
    }
}


/// The groups of a registry in the order in which they were created.
pub type Registry = Seq<GroupView>;

/// No two groups of `s` have the same name.
pub open spec fn distinct_names(s: Registry) -> bool {
    forall|i: int, j: int| 0 <= i < j < s.len() ==> s[i].name != s[j].name
}

/// `s` has a group called `name`.
pub open spec fn has_group(s: Registry, name: Seq<char>) -> bool {
    exists|i: int| 0 <= i < s.len() && (#[trigger] s[i]).name == name
}

/// The index of the group called `name`, where there is one.
pub open spec fn group_index(s: Registry, name: Seq<char>) -> int {
    choose|i: int| 0 <= i < s.len() && (#[trigger] s[i]).name == name
}

/// The members of the group called `name`; none where there is no such group.
pub open spec fn members_of(s: Registry, name: Seq<char>) -> Members {
    if has_group(s, name) {
        s[group_index(s, name)].members
    } else {
        Seq::empty()
    }
}

/// The expiry of the membership of `ip` in the group called `name`, if it is a member.
pub open spec fn expiry_in(s: Registry, name: Seq<char>, ip: IpAddr) -> Option<u64> {
    if has_key(members_of(s, name), ip) {
        Some(value_of(members_of(s, name), ip))
    } else {
        None
    }
}

/// What adding `ip` with `expiry` to the group called `name` does.
pub open spec fn registry_change(
    s: Registry,
    name: Seq<char>,
    ip: IpAddr,
    expiry: u64,
) -> MembershipChange {
    member_change(members_of(s, name), ip, expiry)
}

/// The registry after adding `ip` with `expiry` to the group called `name`.
/// A group that does not exist yet is created at the end.
pub open spec fn registry_add(s: Registry, name: Seq<char>, ip: IpAddr, expiry: u64) -> Registry {
    let joined = GroupView { name, members: member_add(members_of(s, name), ip, expiry) };
    if has_group(s, name) {
        s.update(group_index(s, name), joined)
    } else {
        s.push(joined)
    }
}

/// The registry after every membership that ran out before `now` has ended.
pub open spec fn reaped(s: Registry, now: u64) -> Registry {
    s.map_values(|g: GroupView| GroupView { name: g.name, members: g.members.filter(alive(now)) })
}

/// One `Remove` for each of `ips`, in order, all for the group called `name`.
pub open spec fn removal_notices(ips: Seq<IpAddr>, name: Seq<char>) -> Seq<DecisionView> {
    ips.map_values(|ip: IpAddr| DecisionView::Remove { ip, group: name })
}

/// The removals that `now` brings to one group, in joining order.
pub open spec fn group_removals(g: GroupView, now: u64) -> Seq<DecisionView> {
    removal_notices(addresses(g.members.filter(lapsed(now))), g.name)
}

/// The removals that `now` brings to a registry: group by group in creation
/// order, within a group in joining order.
pub open spec fn removals(s: Registry, now: u64) -> Seq<DecisionView>
    decreases s.len(),
{
    if s.len() == 0 {
        Seq::empty()
    } else {
        removals(s.drop_last(), now) + group_removals(s.last(), now)
    }
}

/// The groups by name.
#[derive(Debug)]
pub struct Groups {
    pub groups: Vec<Group>,
}

impl View for Groups {
    type V = Registry;

    open spec fn view(&self) -> Registry {
        self.groups@.map_values(|g: Group| g@)
    }
}

impl Groups {
    /// Every group is well formed and no name is used twice.
    pub open spec fn wf(&self) -> bool {
        &&& forall|i: int| 0 <= i < self.groups@.len() ==> (#[trigger] self.groups@[i]).wf()
        &&& distinct_names(self@)
    }

    /// A registry without groups.
    pub fn new() -> (r: Self)
        ensures
            r@ == Seq::<GroupView>::empty(),
            r.wf(),
    {
        let r = Groups { groups: Vec::new() };
        assert(r@ =~= Seq::<GroupView>::empty());
        r
    }

    /// The index of the group called `name`, if there is one.
    pub fn find(&self, name: &String) -> (r: Option<usize>)
        ensures
            match r {
                Some(i) => i < self@.len() && self@[i as int].name == name@ && has_group(
                    self@,
                    name@,
                ),
                None => !has_group(self@, name@),
            },
            self.wf() && r is Some ==> r->0 == group_index(self@, name@),
    {
        let mut i: usize = 0;
        while i < self.groups.len()
            invariant
                i <= self@.len(),
                self@.len() == self.groups@.len(),
                forall|j: int| 0 <= j < i ==> self@[j].name != name@,
            decreases self@.len() - i,
        {
            if self.groups[i].name == *name {
                proof {
                    assert(self@[i as int].name == name@);
                    if self.wf() {
                        lemma_group_index(self@, i as int);
                    }
                }
                return Some(i);
            }
            i += 1;
        }
        None
    }

    /// The expiry of the membership of `ip` in the group called `name`, if
    /// it is a member of that group.
    pub fn expiry_of(&self, name: &String, ip: &IpAddr) -> (r: Option<u64>)
        requires
            self.wf(),
        ensures
            r == expiry_in(self@, name@, *ip),
    {
        match self.find(name) {
            Some(i) => self.groups[i].expiry_of(ip),
            None => None,
        }
    }

    /// Adds `ip` to the group called `name` with `expiry`, creating the
    /// group where it does not exist. The expiry of a present membership is
    /// raised to `expiry`, never lowered.
    pub fn add(&mut self, name: &String, ip: IpAddr, expiry: u64) -> (change: MembershipChange)
        requires
            old(self).wf(),
        ensures
            final(self).wf(),
            final(self)@ == registry_add(old(self)@, name@, ip, expiry),
            change == registry_change(old(self)@, name@, ip, expiry),
    {
        match self.find(name) {
            Some(i) => {
                let ghost before = self.groups@;
                let group = &mut self.groups[i];
                let change = group.add(ip, expiry);
                proof {
                    assert(self@ =~= registry_add(old(self)@, name@, ip, expiry));
                    assert forall|a: int, b: int| 0 <= a < b < self@.len() implies self@[a].name
                        != self@[b].name by {
                        assert(old(self)@[a].name != old(self)@[b].name);
                    }
                    assert forall|j: int| 0 <= j < self.groups@.len() implies (
                    #[trigger] self.groups@[j]).wf() by {
                        if j != i {
                            assert(before[j].wf());
                        }
                    }
                }
                change
            },
            None => {
                let mut group = Group::new(name.clone());
                let change = group.add(ip, expiry);
                self.groups.push(group);
                proof {
                    assert(self@ =~= registry_add(old(self)@, name@, ip, expiry));
                    assert forall|a: int, b: int| 0 <= a < b < self@.len() implies self@[a].name
                        != self@[b].name by {
                        if b == old(self)@.len() {
                            assert(old(self)@[a].name != name@);
                        } else {
                            assert(old(self)@[a].name != old(self)@[b].name);
                        }
                    }
                    assert forall|j: int| 0 <= j < self.groups@.len() implies (
                    #[trigger] self.groups@[j]).wf() by {
                        if j < old(self).groups@.len() {
                            assert(old(self).groups@[j].wf());
                        }
                    }
                }
                change
            },
        }
    }

    /// Ends, in every group, the memberships whose expiry lies before `now`,
    /// and appends one `Remove` to `log` for each.
    pub fn periodic(&mut self, now: u64, log: &mut Vec<Decision>)
        requires
            old(self).wf(),
        ensures
            final(self).wf(),
            final(self)@ == reaped(old(self)@, now),
            decisions(final(log)@) == decisions(old(log)@) + removals(old(self)@, now),
    {
        let ghost before = self.groups@;
        let ghost start = self@;
        let mut i: usize = 0;
        assert(start.take(0) =~= Seq::<GroupView>::empty());
        assert(decisions(log@) =~= decisions(old(log)@) + removals(start.take(0), now));
        while i < self.groups.len()
            invariant
                i <= self.groups@.len(),
                self.groups@.len() == before.len(),
                start.len() == before.len(),
                start == old(self)@,
                forall|j: int| 0 <= j < before.len() ==> (#[trigger] before[j])@ == start[j],
                forall|j: int| i <= j < before.len() ==> (#[trigger] self.groups@[j]) == before[j],
                forall|j: int| 0 <= j < i ==> (#[trigger] self@[j]) == reaped(start, now)[j],
                forall|j: int| 0 <= j < before.len() ==> (#[trigger] self.groups@[j]).wf(),
                forall|j: int|
                    0 <= j < before.len() ==> (#[trigger] self@[j]).name == start[j].name,
                distinct_names(start),
                decisions(log@) == decisions(old(log)@) + removals(start.take(i as int), now),
            decreases before.len() - i,
        {
            let ghost mid = self.groups@;
            let ghost log_before = decisions(log@);
            assert forall|k: int| 0 <= k < before.len() implies (#[trigger] mid[k])@.name
                == start[k].name && (k < i ==> mid[k]@ == reaped(start, now)[k]) by {
                assert(self@[k] == mid[k]@);
            }
            let group = &mut self.groups[i];
            let removed = group.periodic(now);
            let name = group.name.clone();
            let mut j: usize = 0;
            assert(removed@.take(0) =~= Seq::<IpAddr>::empty());
            assert(decisions(log@) =~= log_before + removal_notices(removed@.take(0), name@));
            while j < removed.len()
                invariant
                    j <= removed@.len(),
                    decisions(log@) == log_before + removal_notices(removed@.take(j as int), name@),
                decreases removed@.len() - j,
            {
                let ghost log_then = log@;
                let notice = Decision::Remove { ip: removed[j], group: name.clone() };
                assert(notice@ == DecisionView::Remove { ip: removed@[j as int], group: name@ });
                log.push(notice);
                proof {
                    assert(removed@.take(j + 1) =~= removed@.take(j as int).push(
                        removed@[j as int],
                    ));
                    assert(decisions(log@) =~= decisions(log_then).push(notice@));
                    assert(removal_notices(removed@.take(j + 1), name@) =~= removal_notices(
                        removed@.take(j as int),
                        name@,
                    ).push(notice@));
                    assert(decisions(log@) =~= log_before + removal_notices(
                        removed@.take(j + 1),
                        name@,
                    ));
                }
                j += 1;
            }
            proof {
                assert(removed@.take(removed@.len() as int) =~= removed@);
                assert(start.take(i + 1).drop_last() =~= start.take(i as int));
                assert(start.take(i + 1).last() == start[i as int]);
                assert(mid[i as int] == before[i as int]);
                assert(group_removals(start[i as int], now) == removal_notices(removed@, name@));
                assert(decisions(log@) =~= decisions(old(log)@) + removals(
                    start.take(i + 1),
                    now,
                ));
                assert forall|k: int| 0 <= k < before.len() implies (
                #[trigger] self.groups@[k]).wf() by {
                    if k != i {
                        assert(mid[k].wf());
                    }
                }
                let ghost after = self.groups@;
                assert(after[i as int]@.name == mid[i as int]@.name);
                assert(after[i as int]@.members == mid[i as int]@.members.filter(alive(now)));
                assert forall|k: int| 0 <= k < before.len() implies (#[trigger] self@[k]).name
                    == start[k].name by {
                    if k != i {
                        assert(after[k] == mid[k]);
                        assert(mid[k]@.name == start[k].name);
                    } else {
                        assert(self@[k] == after[k]@);
                    }
                }
                assert forall|k: int| 0 <= k < i + 1 implies (#[trigger] self@[k]) == reaped(
                    start,
                    now,
                )[k] by {
                    if k != i {
                        assert(after[k] == mid[k]);
                        assert(mid[k]@ == reaped(start, now)[k]);
                    } else {
                        assert(self@[k] == after[k]@);
                        assert(before[k]@ == start[k]);
                    }
                }
            }
            i += 1;
        }
        proof {
            assert(start.take(start.len() as int) =~= start);
            assert(self@ =~= reaped(start, now));
            assert forall|a: int, b: int| 0 <= a < b < self@.len() implies self@[a].name
                != self@[b].name by {
                assert(start[a].name != start[b].name);
            }
        }
    }
}

/// Among distinct names, the group at `i` is the one found for its name.
pub proof fn lemma_group_index(s: Registry, i: int)
    requires
        distinct_names(s),
        0 <= i < s.len(),
    ensures
        has_group(s, s[i].name),
        group_index(s, s[i].name) == i,
        members_of(s, s[i].name) == s[i].members,
{
    let name = s[i].name;
    assert(has_group(s, name));
    let p = group_index(s, name);
    if p < i {
        assert(s[p].name != s[i].name);
    } else if i < p {
        assert(s[i].name != s[p].name);
    }
}

/// No two groups share a name and no group has a member twice.
pub open spec fn registry_wf(s: Registry) -> bool {
    &&& distinct_names(s)
    &&& forall|i: int| 0 <= i < s.len() ==> distinct_keys((#[trigger] s[i]).members)
}

/// A membership never ends by an addition and its expiry is never lowered
/// by one: whoever is a member of the group `other` before `ip` is added to
/// the group `name` is a member of it afterwards, until the same time or
/// later. The peer that was added is a member until the later of `expiry`
/// and the expiry that it had, and every other membership is as it was.
pub proof fn lemma_add_never_lowers(
    s: Registry,
    name: Seq<char>,
    ip: IpAddr,
    expiry: u64,
    other: Seq<char>,
    member: IpAddr,
)
    requires
        registry_wf(s),
    ensures
        registry_wf(registry_add(s, name, ip, expiry)),
        expiry_in(registry_add(s, name, ip, expiry), name, ip) is Some,
        expiry_in(registry_add(s, name, ip, expiry), name, ip)->0 >= expiry,
        expiry_in(registry_add(s, name, ip, expiry), name, ip) == Some(
            if expiry_in(s, name, ip) is Some && expiry_in(s, name, ip)->0 >= expiry {
                expiry_in(s, name, ip)->0
            } else {
                expiry
            },
        ),
        expiry_in(s, other, member) is Some ==> expiry_in(
            registry_add(s, name, ip, expiry),
            other,
            member,
        ) is Some && expiry_in(registry_add(s, name, ip, expiry), other, member)->0 >= expiry_in(
            s,
            other,
            member,
        )->0,
        other != name || member != ip ==> expiry_in(
            registry_add(s, name, ip, expiry),
            other,
            member,
        ) == expiry_in(s, other, member),
{
    let t = registry_add(s, name, ip, expiry);
    let joined = GroupView { name, members: member_add(members_of(s, name), ip, expiry) };
    if has_group(s, name) {
        let i = group_index(s, name);
        lemma_group_index(s, i);
        lemma_member_add(s[i].members, ip, expiry);
        assert(forall|j: int| 0 <= j < s.len() ==> (#[trigger] t[j]).name == s[j].name);
        assert forall|a: int, b: int| 0 <= a < b < t.len() implies t[a].name != t[b].name by {
            assert(s[a].name != s[b].name);
        }
        assert forall|j: int| 0 <= j < t.len() implies distinct_keys((#[trigger] t[j]).members) by {
            if j != i {
                assert(distinct_keys(s[j].members));
            }
        }
        lemma_group_index(t, i);
        if has_group(s, other) {
            let j = group_index(s, other);
            lemma_group_index(s, j);
            lemma_group_index(t, j);
        } else if has_group(t, other) {
            let j = group_index(t, other);
            assert(s[j].name == other);
        }
    } else {
        lemma_member_add(Seq::empty(), ip, expiry);
        let n = s.len() as int;
        assert(forall|j: int| 0 <= j < n ==> (#[trigger] t[j]) == s[j]);
        assert forall|a: int, b: int| 0 <= a < b < t.len() implies t[a].name != t[b].name by {
            if b == n {
                assert(s[a].name != name);
            } else {
                assert(s[a].name != s[b].name);
            }
        }
        assert forall|j: int| 0 <= j < t.len() implies distinct_keys((#[trigger] t[j]).members) by {
            if j < n {
                assert(distinct_keys(s[j].members));
            }
        }
        lemma_group_index(t, n);
        if has_group(s, other) {
            let j = group_index(s, other);
            lemma_group_index(s, j);
            lemma_group_index(t, j);
        } else if has_group(t, other) {
            let j = group_index(t, other);
            if j < n {
                assert(s[j].name == other);
            }
        }
    }
}

/// What the end of the memberships that have run out leaves: a peer is a
/// member of a group after it exactly if it was one before with an expiry
/// that is not before `now`, and it is one until the same time as before.
pub proof fn lemma_reaping_keeps_the_rest(s: Registry, now: u64, name: Seq<char>, member: IpAddr)
    requires
        registry_wf(s),
    ensures
        registry_wf(reaped(s, now)),
        expiry_in(reaped(s, now), name, member) == if expiry_in(s, name, member) is Some
            && expiry_in(s, name, member)->0 >= now {
            expiry_in(s, name, member)
        } else {
            None
        },
{
    let t = reaped(s, now);
    assert(forall|j: int| 0 <= j < s.len() ==> (#[trigger] t[j]).name == s[j].name);
    assert forall|a: int, b: int| 0 <= a < b < t.len() implies t[a].name != t[b].name by {
        assert(s[a].name != s[b].name);
    }
    assert forall|j: int| 0 <= j < t.len() implies distinct_keys((#[trigger] t[j]).members) by {
        assert(distinct_keys(s[j].members));
        lemma_filter(s[j].members, alive(now));
    }
    if has_group(s, name) {
        let i = group_index(s, name);
        lemma_group_index(s, i);
        lemma_group_index(t, i);
        lemma_filter(s[i].members, alive(now));
        assert(distinct_keys(s[i].members));
        if has_key(s[i].members, member) {
            lemma_position(s[i].members, position(s[i].members, member));
        }
    } else if has_group(t, name) {
        let j = group_index(t, name);
        assert(s[j].name == name);
    }
}

} // verus!
