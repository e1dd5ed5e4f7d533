//! The lease manager: allocation and release of hosts under per-user
//! quota rules.
//!
//! A quota is resolved from the user's external group memberships: the
//! maximum over all matching per-group limits, falling back to the
//! service's default limit when none matches. Allocation rejects requests
//! that include a host the user already holds (`AlreadyLeased`), requests
//! that would carry the user past the quota (`LeaseLimit`), and random
//! allocation from a group with no free host (`ThereIsNoFreeHosts`).

use vstd::prelude::*;

use crate::models::{owned_by, AdGroupLeaseLimit, GroupId, Host, HostId, LeasedHost, UserId};
use crate::registry::{
    any_row_matches, available_group_rows, available_rows, has_host, has_user, host_ids_unique,
    hosts_after_free_all, hosts_after_free_for_user, hosts_after_lease, lease_mark,
    leased_count, leased_rows_ordered, leased_rows_with_ids, lemma_leased_rows_ordered_props,
    matching_limits, pick_available, user_owns_id, Registry, RegistryContents,
};

verus! {

/// Why a lease-manager operation failed.
#[derive(Debug)]
pub enum HostError {
    /// The store rejected an update, as a relational store would on a
    /// constraint violation.
    DatabaseError,
    /// A random lease found no free host in the requested group.
    ThereIsNoFreeHosts,
    /// The request names hosts the user already holds; the payload lists
    /// the offending identifiers.
    AlreadyLeased(Vec<HostId>),
    /// Granting the request would carry the user past the quota.
    LeaseLimit,
    /// Lease deadline arithmetic left the representable range.
    UnexpectedError,
}

/// The requested identifiers the user already holds, each once, in
/// request order.
pub open spec fn conflict_ids(hosts: Seq<Host>, u: UserId, ids: Seq<HostId>) -> Seq<HostId>
    decreases ids.len(),
{
    if ids.len() == 0 {
        Seq::empty()
    } else {
        let rest = conflict_ids(hosts, u, ids.drop_last());
        if user_owns_id(hosts, u, ids.last()) && !rest.contains(ids.last()) {
            rest.push(ids.last())
        } else {
            rest
        }
    }
}

/// The requested identifiers, each once, in request order.
pub open spec fn distinct_ids(ids: Seq<HostId>) -> Seq<HostId>
    decreases ids.len(),
{
    if ids.len() == 0 {
        Seq::empty()
    } else {
        let rest = distinct_ids(ids.drop_last());
        if !rest.contains(ids.last()) {
            rest.push(ids.last())
        } else {
            rest
        }
    }
}

/// The largest limit among `ms` (zero when `ms` is empty).
pub open spec fn max_limit_of(ms: Seq<AdGroupLeaseLimit>) -> usize
    decreases ms.len(),
{
    if ms.len() == 0 {
        0
    } else {
        let rest = max_limit_of(ms.drop_last());
        if ms.last().limit > rest {
            ms.last().limit
        } else {
            rest
        }
    }
}

/// The quota of a user whose external groups are `names`: the maximum
/// over all matching per-group limits, or `default_limit` when none
/// matches.
pub open spec fn resolve_limit(
    limits: Seq<AdGroupLeaseLimit>,
    names: Seq<Seq<char>>,
    default_limit: usize,
) -> usize {
    let ms = matching_limits(limits, names);
    if ms.len() == 0 {
        default_limit
    } else {
        max_limit_of(ms)
    }
}

/// How many rows of `hosts` carry an identifier from `s`.
pub open spec fn matched_count(hosts: Seq<Host>, s: Set<HostId>) -> nat
    decreases hosts.len(),
{
    if hosts.len() == 0 {
        0
    } else {
        matched_count(hosts.drop_last(), s) + if s.contains(hosts.last().id) {
            1nat
        } else {
            0nat
        }
    }
}

/// Rows never matching `x` count the same against `s` and `s` without
/// `x`.
proof fn lemma_matched_count_excl(hosts: Seq<Host>, s: Set<HostId>, x: HostId)
    requires
        forall|i: int| 0 <= i < hosts.len() ==> (#[trigger] hosts[i]).id != x,
    ensures
        matched_count(hosts, s) == matched_count(hosts, s.remove(x)),
    decreases hosts.len(),
{
    if hosts.len() > 0 {
        lemma_matched_count_excl(hosts.drop_last(), s, x);
    }
}

/// With pairwise-distinct row identifiers, at most `|s|` rows carry an
/// identifier from `s`.
pub proof fn lemma_matched_count_le(hosts: Seq<Host>, s: Set<HostId>)
    requires
        host_ids_unique(hosts),
        s.finite(),
    ensures
        matched_count(hosts, s) <= s.len(),
    decreases hosts.len(),
{
    if hosts.len() > 0 {
        let rest = hosts.drop_last();
        assert(host_ids_unique(rest));
        if s.contains(hosts.last().id) {
            let x = hosts.last().id;
            assert(forall|i: int| 0 <= i < rest.len() ==> (#[trigger] rest[i]).id != x);
            lemma_matched_count_excl(rest, s, x);
            lemma_matched_count_le(rest, s.remove(x));
        } else {
            lemma_matched_count_le(rest, s);
        }
    }
}

/// Leasing the rows named by `ids` adds at most one held row per matched
/// row.
proof fn lemma_lease_count_bound(hosts: Seq<Host>, ids: Seq<HostId>, u: UserId, until: i64)
    ensures
        leased_count(hosts_after_lease(hosts, ids, u, until), u) <= leased_count(hosts, u)
            + matched_count(hosts, ids.to_set()),
    decreases hosts.len(),
{
    if hosts.len() > 0 {
        let after = hosts_after_lease(hosts, ids, u, until);
        assert(after.drop_last() =~= hosts_after_lease(hosts.drop_last(), ids, u, until));
        lemma_lease_count_bound(hosts.drop_last(), ids, u, until);
        assert(after.last() == if ids.contains(hosts.last().id) {
            lease_mark(hosts.last(), u, until)
        } else {
            hosts.last()
        });
        assert(ids.contains(hosts.last().id) == ids.to_set().contains(hosts.last().id));
    }
}

/// With every identifier of `s` naming a row and the rows' identifiers
/// distinct, at least `|s|` rows carry an identifier from `s`.
pub proof fn lemma_matched_count_ge(hosts: Seq<Host>, s: Set<HostId>)
    requires
        host_ids_unique(hosts),
        s.finite(),
        forall|id: HostId| #[trigger] s.contains(id) ==> has_host(hosts, id),
    ensures
        matched_count(hosts, s) >= s.len(),
    decreases hosts.len(),
{
    if hosts.len() == 0 {
        if s.len() > 0 {
            assert(exists|x: HostId| s.contains(x)) by {
                if forall|x: HostId| !(#[trigger] s.contains(x)) {
                    assert(s =~= Set::<HostId>::empty());
                }
            }
            let x = choose|x: HostId| s.contains(x);
            assert(has_host(hosts, x));
            let w = choose|w: int| 0 <= w < hosts.len() && hosts[w].id == x;
        }
    } else {
        let rest = hosts.drop_last();
        assert(host_ids_unique(rest));
        let x = hosts.last().id;
        if s.contains(x) {
            assert(forall|i: int| 0 <= i < rest.len() ==> (#[trigger] rest[i]).id != x);
            lemma_matched_count_excl(rest, s, x);
            assert forall|id: HostId| #[trigger] s.remove(x).contains(id) implies has_host(
                rest,
                id,
            ) by {
                assert(s.contains(id));
                let w = choose|w: int| 0 <= w < hosts.len() && hosts[w].id == id;
                assert(w < hosts.len() - 1) by {
                    if w == hosts.len() - 1 {
                        assert(id == x);
                    }
                }
                assert(rest[w].id == id);
            }
            lemma_matched_count_ge(rest, s.remove(x));
        } else {
            assert forall|id: HostId| #[trigger] s.contains(id) implies has_host(rest, id) by {
                let w = choose|w: int| 0 <= w < hosts.len() && hosts[w].id == id;
                assert(w < hosts.len() - 1) by {
                    if w == hosts.len() - 1 {
                        assert(id == x);
                    }
                }
                assert(rest[w].id == id);
            }
            lemma_matched_count_ge(rest, s);
        }
    }
}

/// With no requested identifier already held by `u`, leasing adds
/// exactly one held row per matched row.
pub proof fn lemma_lease_count_exact(hosts: Seq<Host>, ids: Seq<HostId>, u: UserId, until: i64)
    requires
        forall|k: int| 0 <= k < ids.len() ==> !user_owns_id(hosts, u, #[trigger] ids[k]),
    ensures
        leased_count(hosts_after_lease(hosts, ids, u, until), u) == leased_count(hosts, u)
            + matched_count(hosts, ids.to_set()),
    decreases hosts.len(),
{
    if hosts.len() > 0 {
        let after = hosts_after_lease(hosts, ids, u, until);
        assert(after.drop_last() =~= hosts_after_lease(hosts.drop_last(), ids, u, until));
        assert forall|k: int|
            0 <= k < ids.len() implies !user_owns_id(hosts.drop_last(), u, #[trigger] ids[k]) by {
            if user_owns_id(hosts.drop_last(), u, ids[k]) {
                let w = choose|w: int|
                    0 <= w < hosts.drop_last().len() && (#[trigger] hosts.drop_last()[w]).id
                        == ids[k] && owned_by(hosts.drop_last()[w], u);
                assert((#[trigger] hosts[w]).id == ids[k] && owned_by(hosts[w], u));
            }
        }
        lemma_lease_count_exact(hosts.drop_last(), ids, u, until);
        assert(after.last() == if ids.contains(hosts.last().id) {
            lease_mark(hosts.last(), u, until)
        } else {
            hosts.last()
        });
        if ids.contains(hosts.last().id) && owned_by(hosts.last(), u) {
            let k = choose|k: int| 0 <= k < ids.len() && ids[k] == hosts.last().id;
            assert((#[trigger] hosts[hosts.len() - 1]).id == ids[k] && owned_by(
                hosts[hosts.len() - 1],
                u,
            ));
            assert(user_owns_id(hosts, u, ids[k]));
        }
        assert(ids.contains(hosts.last().id) == ids.to_set().contains(hosts.last().id));
    }
}

/// Pushing an element inserts it into the sequence's set of values.
proof fn lemma_push_to_set(s: Seq<HostId>, x: HostId)
    ensures
        s.push(x).to_set() =~= s.to_set().insert(x),
{
    let p = s.push(x);
    assert forall|a: HostId| p.to_set().contains(a) implies s.to_set().insert(x).contains(a) by {
        let k = choose|k: int| 0 <= k < p.len() && p[k] == a;
        if k < s.len() {
            assert(s[k] == a);
            assert(s.contains(a));
        }
    }
    assert forall|a: HostId| s.to_set().insert(x).contains(a) implies p.to_set().contains(a) by {
        if a == x {
            assert(p[s.len() as int] == a);
        } else {
            let k = choose|k: int| 0 <= k < s.len() && s[k] == a;
            assert(p[k] == a);
        }
        assert(p.contains(a));
    }
}

/// The dedup of a request has no duplicates and keeps membership.
pub proof fn lemma_distinct_ids_props(ids: Seq<HostId>)
    ensures
        distinct_ids(ids).no_duplicates(),
        distinct_ids(ids).to_set() == ids.to_set(),
    decreases ids.len(),
{
    if ids.len() > 0 {
        let prev = ids.drop_last();
        let x = ids.last();
        lemma_distinct_ids_props(prev);
        let rest = distinct_ids(prev);
        assert(ids =~= prev.push(x));
        lemma_push_to_set(prev, x);
        if !rest.contains(x) {
            lemma_push_to_set(rest, x);
            let p = rest.push(x);
            assert forall|i: int, j: int|
                0 <= i < p.len() && 0 <= j < p.len() && i != j implies p[i] != p[j] by {
                if i < rest.len() && j == rest.len() {
                    if rest[i] == x {
                        assert(rest.contains(x));
                    }
                } else if j < rest.len() && i == rest.len() {
                    if rest[j] == x {
                        assert(rest.contains(x));
                    }
                }
            }
            assert(distinct_ids(ids).to_set() =~= ids.to_set());
        } else {
            assert(rest.to_set().contains(x));
            assert(distinct_ids(ids).to_set() =~= ids.to_set());
        }
    }
}

/// The outcome of one bulk lease request, relating the store before the
/// call, the store after it, and the result. `until` is the lease
/// deadline written on success.
pub open spec fn lease_spec(
    pre: RegistryContents,
    post: RegistryContents,
    u: UserId,
    names: Seq<Seq<char>>,
    ids: Seq<HostId>,
    default_limit: usize,
    until: i64,
    r: Result<Vec<LeasedHost>, HostError>,
) -> bool {
    let cs = conflict_ids(pre.hosts, u, ids);
    let lim = resolve_limit(pre.lease_limits, names, default_limit);
    let over = leased_count(pre.hosts, u) + distinct_ids(ids).len() > lim;
    let fk = !has_user(pre.users, u) && any_row_matches(pre.hosts, ids);
    &&& post.users == pre.users
    &&& post.groups == pre.groups
    &&& post.lease_limits == pre.lease_limits
    &&& (r matches Err(HostError::AlreadyLeased(v)) ==> v@ == cs)
    &&& ((r matches Err(HostError::AlreadyLeased(v))) <==> cs.len() > 0)
    &&& ((r matches Err(HostError::LeaseLimit)) <==> (cs.len() == 0 && over))
    &&& ((r matches Err(HostError::DatabaseError)) <==> (cs.len() == 0 && !over && fk))
    &&& (r is Err ==> post.hosts == pre.hosts)
    &&& ((r is Ok) <==> (cs.len() == 0 && !over && !fk))
    &&& (r matches Ok(v) ==> post.hosts == hosts_after_lease(pre.hosts, ids, u, until) && v@
        == leased_rows_with_ids(post.hosts, post.users, ids))
    &&& (r is Ok ==> leased_count(post.hosts, u) <= lim)
}

/// The outcome of one random-lease request from group `gid`.
pub open spec fn lease_random_spec(
    pre: RegistryContents,
    post: RegistryContents,
    u: UserId,
    names: Seq<Seq<char>>,
    gid: GroupId,
    default_limit: usize,
    until: i64,
    r: Result<LeasedHost, HostError>,
) -> bool {
    let lim = resolve_limit(pre.lease_limits, names, default_limit);
    let at_limit = leased_count(pre.hosts, u) >= lim;
    let pick = pick_available(pre.hosts, gid);
    let fk = !has_user(pre.users, u);
    &&& post.users == pre.users
    &&& post.groups == pre.groups
    &&& post.lease_limits == pre.lease_limits
    &&& ((r matches Err(HostError::LeaseLimit)) <==> at_limit)
    &&& ((r matches Err(HostError::ThereIsNoFreeHosts)) <==> (!at_limit && pick is None))
    &&& ((r matches Err(HostError::DatabaseError)) <==> (!at_limit && pick is Some && fk))
    &&& (r is Err ==> post.hosts == pre.hosts)
    &&& ((r is Ok) <==> (!at_limit && pick is Some && !fk))
    &&& (r matches Ok(lh) ==> post.hosts == hosts_after_lease(
        pre.hosts,
        seq![pick->0.id],
        u,
        until,
    ) && lh == crate::registry::leased_join(pre.users, lease_mark(pick->0, u, until)))
    &&& (r is Ok ==> leased_count(post.hosts, u) <= lim)
}

/// The lease manager. It owns the store; callers reach the store's rows
/// through the service's operations.
pub struct HostsService {
    /// The underlying store.
    pub registry: Registry,
    /// The quota used when no per-group limit matches.
    pub lease_limit: usize,
}

impl HostsService {
    /// The service is well formed when its store is.
    pub open spec fn wf(&self) -> bool {
        self.registry.wf()
    }

    /// The quota used when no per-group limit matches.
    pub open spec fn default_limit(&self) -> usize {
        self.lease_limit
    }

    pub fn new(registry: Registry, lease_limit: usize) -> (r: HostsService)
        ensures
            r.registry == registry,
            r.default_limit() == lease_limit,
    {
        HostsService { registry, lease_limit }
    }

    /// All host rows, in ascending address order.
    pub fn get_all_hosts(&self) -> (r: Result<Vec<Host>, HostError>)
        requires
            self.wf(),
        ensures
            r matches Ok(v) && v@ == self.registry@.hosts
                && crate::registry::hosts_sorted_by_ip(v@),
    {
        Ok(self.registry.get_all_hosts())
    }

    /// The hosts of `group_id` with no owner, in ascending address
    /// order: leased hosts never appear among the available ones.
    pub fn get_available_group_hosts(&self, group_id: &GroupId) -> (r: Result<
        Vec<Host>,
        HostError,
    >)
        requires
            self.wf(),
        ensures
            r matches Ok(v) && v@ == available_group_rows(self.registry@.hosts, *group_id)
                && crate::registry::hosts_sorted_by_ip(v@),
    {
        Ok(self.registry.get_available_group_hosts(group_id))
    }

    /// The hosts with no owner, in ascending address order: leased hosts
    /// never appear among the available ones.
    pub fn get_available_hosts(&self) -> (r: Result<Vec<Host>, HostError>)
        requires
            self.wf(),
        ensures
            r matches Ok(v) && v@ == available_rows(self.registry@.hosts)
                && crate::registry::hosts_sorted_by_ip(v@),
    {
        Ok(self.registry.get_available_hosts())
    }

    /// The rows leased by `user_id`, joined with the user, ordered by
    /// deadline, then address.
    pub fn get_leased_hosts(&self, user_id: &UserId) -> (r: Result<Vec<LeasedHost>, HostError>)
        requires
            self.wf(),
        ensures
            r matches Ok(v) && v@ == leased_rows_ordered(
                self.registry@.hosts,
                self.registry@.users,
                *user_id,
            ) && crate::registry::leased_sorted(v@),
    {
        Ok(self.registry.get_leased_hosts(user_id))
    }

    /// The quota of a user whose external group names are `groups`: the
    /// maximum matching per-group limit, or the default when none
    /// matches.
    pub fn get_lease_limit(&self, groups: &Vec<String>) -> (r: usize)
        ensures
            r == resolve_limit(self.registry@.lease_limits, groups.deep_view(), self.default_limit()),
    {
        let ms = self.registry.get_ad_groups_lease_limits(groups);
        if ms.len() == 0 {
            return self.lease_limit;
        }
        let ghost msv = ms@;
        let n = ms.len();
        let mut cur: usize = ms[0].limit;
        proof {
            assert(max_limit_of(msv.take(0)) == 0);
            assert(msv.take(1).drop_last() =~= msv.take(0));
            assert(msv.take(1).last() == msv[0]);
            assert(cur == max_limit_of(msv.take(1)));
        }
        for i in 1..n
            invariant
                n == ms.len(),
                msv == ms@,
                1 <= i <= n,
                cur == max_limit_of(msv.take(i as int)),
        {
            proof {
                assert(msv.take(i as int + 1).drop_last() =~= msv.take(i as int));
                assert(msv.take(i as int + 1).last() == msv[i as int]);
            }
            if ms[i].limit > cur {
                cur = ms[i].limit;
            }
        }
        proof {
            assert(msv.take(n as int) =~= msv);
        }
        cur
    }

    /// Clear the lease of every requested host that `user_id` holds.
    /// Rows held by other users are untouched, and releasing a host the
    /// user does not hold is a silent no-op for that host.
    pub fn free(&mut self, user_id: &UserId, hosts_ids: &[HostId]) -> (r: Result<(), HostError>)
        requires
            old(self).wf(),
        ensures
            final(self).wf(),
            final(self).default_limit() == old(self).default_limit(),
            final(self).registry@.users == old(self).registry@.users,
            final(self).registry@.groups == old(self).registry@.groups,
            final(self).registry@.lease_limits == old(self).registry@.lease_limits,
            final(self).registry@.hosts == hosts_after_free_for_user(
                old(self).registry@.hosts,
                hosts_ids@,
                *user_id,
            ),
            r is Ok,
    {
        self.registry.free_hosts_for_user(hosts_ids, user_id);
        Ok(())
    }

    /// Clear the lease of every host that `user_id` holds.
    pub fn free_all(&mut self, user_id: &UserId) -> (r: Result<(), HostError>)
        requires
            old(self).wf(),
        ensures
            final(self).wf(),
            final(self).default_limit() == old(self).default_limit(),
            final(self).registry@.users == old(self).registry@.users,
            final(self).registry@.groups == old(self).registry@.groups,
            final(self).registry@.lease_limits == old(self).registry@.lease_limits,
            final(self).registry@.hosts == hosts_after_free_all(
                old(self).registry@.hosts,
                *user_id,
            ),
            r is Ok,
    {
        self.registry.free_all(user_id);
        Ok(())
    }

    /// Lease the requested hosts for `user_id` with the deadline
    /// `now + lease_for` (seconds), returning the freshly leased rows
    /// joined with the user (an empty request is a no-op returning an
    /// empty result). The request is rejected whole when it names a host
    /// the user already holds, or when granting it would carry the user
    /// past the quota resolved from `user_groups`.
    pub fn lease_at(
        &mut self,
        user_id: &UserId,
        user_groups: &Vec<String>,
        hosts_ids: &[HostId],
        now: i64,
        lease_for: i64,
    ) -> (r: Result<Vec<LeasedHost>, HostError>)
        requires
            old(self).wf(),
            i64::MIN <= now + lease_for <= i64::MAX,
        ensures
            final(self).wf(),
            final(self).lease_limit == old(self).lease_limit,
            lease_spec(
                old(self).registry@,
                final(self).registry@,
                *user_id,
                user_groups.deep_view(),
                hosts_ids@,
                old(self).lease_limit,
                (now + lease_for) as i64,
                r,
            ),
    {
        let ghost pre = self.registry@;
        let n = hosts_ids.len();
        let mut conflicts: Vec<HostId> = Vec::new();
        for i in 0..n
            invariant
                self.wf(),
                self.registry@ == pre,
                self.lease_limit == old(self).lease_limit,
                n == hosts_ids@.len(),
                conflicts@ == conflict_ids(pre.hosts, *user_id, hosts_ids@.take(i as int)),
        {
            proof {
                assert(hosts_ids@.take(i as int + 1).drop_last() =~= hosts_ids@.take(i as int));
                assert(hosts_ids@.take(i as int + 1).last() == hosts_ids@[i as int]);
            }
            if self.registry.user_owns_host(user_id, hosts_ids[i])
                && !crate::registry::ids_contain(conflicts.as_slice(), hosts_ids[i]) {
                conflicts.push(hosts_ids[i]);
            }
        }
        proof {
            assert(hosts_ids@.take(n as int) =~= hosts_ids@);
        }
        if conflicts.len() > 0 {
            return Err(HostError::AlreadyLeased(conflicts));
        }
        let limit = self.get_lease_limit(user_groups);
        let leased_before = self.registry.get_leased_hosts(user_id);
        proof {
            lemma_leased_rows_ordered_props(pre.hosts, pre.users, *user_id);
        }
        let mut distinct: Vec<HostId> = Vec::new();
        for i in 0..n
            invariant
                self.wf(),
                self.registry@ == pre,
                self.lease_limit == old(self).lease_limit,
                n == hosts_ids@.len(),
                distinct@ == distinct_ids(hosts_ids@.take(i as int)),
        {
            proof {
                assert(hosts_ids@.take(i as int + 1).drop_last() =~= hosts_ids@.take(i as int));
                assert(hosts_ids@.take(i as int + 1).last() == hosts_ids@[i as int]);
            }
            if !crate::registry::ids_contain(distinct.as_slice(), hosts_ids[i]) {
                distinct.push(hosts_ids[i]);
            }
        }
        proof {
            assert(hosts_ids@.take(n as int) =~= hosts_ids@);
        }
        let over = if distinct.len() > limit {
            true
        } else {
            leased_before.len() > limit - distinct.len()
        };
        if over {
            return Err(HostError::LeaseLimit);
        }
        let until = now + lease_for;
        match self.registry.lease_hosts(user_id, hosts_ids, until) {
            Err(_) => Err(HostError::DatabaseError),
            Ok(()) => {
                let freshly_leased = self.registry.get_leased_hosts_by_ids(hosts_ids);
                proof {
                    broadcast use vstd::seq_lib::seq_to_set_is_finite;

                    lemma_lease_count_bound(pre.hosts, hosts_ids@, *user_id, until);
                    lemma_distinct_ids_props(hosts_ids@);
                    distinct_ids(hosts_ids@).unique_seq_to_set();
                    lemma_matched_count_le(pre.hosts, hosts_ids@.to_set());
                }
                Ok(freshly_leased)
            },
        }
    }

    /// Lease the requested hosts for `user_id` for `lease_for` seconds
    /// from the current wall-clock time.
    pub fn lease(
        &mut self,
        user_id: &UserId,
        user_groups: &Vec<String>,
        hosts_ids: &[HostId],
        lease_for: i64,
    ) -> (r: Result<Vec<LeasedHost>, HostError>)
        requires
            old(self).wf(),
        ensures
            final(self).wf(),
            final(self).lease_limit == old(self).lease_limit,
            r matches Err(HostError::UnexpectedError) ==> final(self).registry@ == old(
                self,
            ).registry@,
            !(r matches Err(HostError::UnexpectedError)) ==> exists|t: i64|
                lease_spec(
                    old(self).registry@,
                    final(self).registry@,
                    *user_id,
                    user_groups.deep_view(),
                    hosts_ids@,
                    old(self).lease_limit,
                    t,
                    r,
                ),
            r is Ok ==> leased_count(final(self).registry@.hosts, *user_id) <= resolve_limit(
                old(self).registry@.lease_limits,
                user_groups.deep_view(),
                old(self).lease_limit,
            ),
    {
        let now = now_timestamp();
        match now.checked_add(lease_for) {
            None => Err(HostError::UnexpectedError),
            Some(_) => {
                let r = self.lease_at(user_id, user_groups, hosts_ids, now, lease_for);
                proof {
                    let t = (now + lease_for) as i64;
                    assert(lease_spec(
                        old(self).registry@,
                        self.registry@,
                        *user_id,
                        user_groups.deep_view(),
                        hosts_ids@,
                        old(self).lease_limit,
                        t,
                        r,
                    ));
                }
                r
            },
        }
    }

    /// Lease one free host of `group_id` for `user_id` with the deadline
    /// `now + lease_for`: the free host with the smallest address, for
    /// deterministic behaviour. Rejected when the user already sits at
    /// the quota, or when the group has no free host.
    pub fn lease_random_at(
        &mut self,
        user_id: &UserId,
        user_groups: &Vec<String>,
        now: i64,
        lease_for: i64,
        group_id: &GroupId,
    ) -> (r: Result<LeasedHost, HostError>)
        requires
            old(self).wf(),
            i64::MIN <= now + lease_for <= i64::MAX,
        ensures
            final(self).wf(),
            final(self).lease_limit == old(self).lease_limit,
            lease_random_spec(
                old(self).registry@,
                final(self).registry@,
                *user_id,
                user_groups.deep_view(),
                *group_id,
                old(self).lease_limit,
                (now + lease_for) as i64,
                r,
            ),
    {
        let ghost pre = self.registry@;
        let limit = self.get_lease_limit(user_groups);
        let leased_before = self.registry.get_leased_hosts(user_id);
        proof {
            lemma_leased_rows_ordered_props(pre.hosts, pre.users, *user_id);
        }
        if leased_before.len() >= limit {
            return Err(HostError::LeaseLimit);
        }
        let picked = match self.registry.get_first_available_group_host(group_id) {
            None => {
                return Err(HostError::ThereIsNoFreeHosts);
            },
            Some(h) => h,
        };
        let until = now + lease_for;
        let ids: Vec<HostId> = vec![picked.id];
        proof {
            lemma_pick_available_in_table(pre.hosts, *group_id);
            let w = choose|w: int|
                0 <= w < pre.hosts.len() && pre.hosts[w] == pick_available(pre.hosts, *group_id)->0
                    && crate::models::host_free(pick_available(pre.hosts, *group_id)->0)
                    && pick_available(pre.hosts, *group_id)->0.group_id == *group_id;
            assert(ids@[0] == picked.id);
            assert(ids@.contains((#[trigger] pre.hosts[w]).id));
            assert(any_row_matches(pre.hosts, ids@));
        }
        match self.registry.lease_hosts(user_id, ids.as_slice(), until) {
            Err(_) => Err(HostError::DatabaseError),
            Ok(()) => {
                proof {
                    broadcast use vstd::seq_lib::seq_to_set_is_finite;

                    let w = choose|w: int|
                        0 <= w < pre.hosts.len() && pre.hosts[w] == pick_available(
                            pre.hosts,
                            *group_id,
                        )->0 && crate::models::host_free(pick_available(pre.hosts, *group_id)->0)
                            && pick_available(pre.hosts, *group_id)->0.group_id == *group_id;
                    assert(self.registry@.hosts[w] == lease_mark(picked, *user_id, until));
                    assert(has_host(self.registry@.hosts, picked.id));
                    assert forall|k: int|
                        0 <= k < self.registry@.hosts.len() && self.registry@.hosts[k].id
                            == picked.id implies k == w by {
                        assert(pre.hosts[k].id == self.registry@.hosts[k].id);
                        assert(pre.hosts[w].id == self.registry@.hosts[w].id);
                    }
                    let c = choose|c: int|
                        0 <= c < self.registry@.hosts.len() && self.registry@.hosts[c].id
                            == picked.id;
                    assert(c == w);
                    assert(crate::registry::host_with_id(self.registry@.hosts, picked.id)
                        == lease_mark(picked, *user_id, until));
                    lemma_lease_count_bound(pre.hosts, ids@, *user_id, until);
                    assert(ids@.to_set() =~= Set::empty().insert(picked.id));
                    lemma_matched_count_le(pre.hosts, ids@.to_set());
                    assert(ids@ =~= seq![picked.id]);
                }
                match self.registry.get_leased_host(&picked.id) {
                    Some(lh) => Ok(lh),
                    None => vstd::pervasive::unreached(),
                }
            },
        }
    }

    /// Lease one free host of `group_id` for `user_id` for `lease_for`
    /// seconds from the current wall-clock time.
    pub fn lease_random(
        &mut self,
        user_id: &UserId,
        user_groups: &Vec<String>,
        lease_for: i64,
        group_id: &GroupId,
    ) -> (r: Result<LeasedHost, HostError>)
        requires
            old(self).wf(),
        ensures
            final(self).wf(),
            final(self).lease_limit == old(self).lease_limit,
            r matches Err(HostError::UnexpectedError) ==> final(self).registry@ == old(
                self,
            ).registry@,
            !(r matches Err(HostError::UnexpectedError)) ==> exists|t: i64|
                lease_random_spec(
                    old(self).registry@,
                    final(self).registry@,
                    *user_id,
                    user_groups.deep_view(),
                    *group_id,
                    old(self).lease_limit,
                    t,
                    r,
                ),
    {
        let now = now_timestamp();
        match now.checked_add(lease_for) {
            None => Err(HostError::UnexpectedError),
            Some(_) => {
                let r = self.lease_random_at(user_id, user_groups, now, lease_for, group_id);
                proof {
                    let t = (now + lease_for) as i64;
                    assert(lease_random_spec(
                        old(self).registry@,
                        self.registry@,
                        *user_id,
                        user_groups.deep_view(),
                        *group_id,
                        old(self).lease_limit,
                        t,
                        r,
                    ));
                }
                r
            },
        }
    }
}

/// The deterministic pick is one of the table's rows.
proof fn lemma_pick_available_in_table(hosts: Seq<Host>, gid: GroupId)
    ensures
        pick_available(hosts, gid) matches Some(h) ==> exists|i: int|
            0 <= i < hosts.len() && hosts[i] == h && crate::models::host_free(h) && h.group_id
                == gid,
    decreases hosts.len(),
{
    if hosts.len() > 0 {
        lemma_pick_available_in_table(hosts.drop_last(), gid);
        if pick_available(hosts, gid) is Some {
            let h = pick_available(hosts, gid)->0;
            if pick_available(hosts.drop_last(), gid) == Some(h) {
                let w = choose|w: int|
                    0 <= w < hosts.drop_last().len() && hosts.drop_last()[w] == h
                        && crate::models::host_free(h) && h.group_id == gid;
                assert(hosts[w] == h);
            } else {
                assert(hosts[hosts.len() - 1] == h);
            }
        }
    }
}

/// Relies on `chrono::Utc::now` for the current wall-clock time, read as
/// whole seconds since the Unix epoch; chrono documents the value as
/// nonnegative (it refuses to represent a pre-epoch system clock).
#[verifier::external_body]
fn now_timestamp() -> (r: i64)
    ensures
        r >= 0,
{
    chrono::Utc::now().timestamp()
}

} // verus!
