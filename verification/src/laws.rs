//! System-wide guarantees of the lease manager and the release timer,
//! stated and proved over the specification functions that the
//! operations' contracts use.

use vstd::prelude::*;

use crate::hosts::{
    conflict_ids, distinct_ids, lease_random_spec, lease_spec, lemma_distinct_ids_props,
    lemma_lease_count_exact, lemma_matched_count_ge, lemma_matched_count_le, max_limit_of,
    resolve_limit, HostError,
};
use crate::models::{expires_before, owned_by, AdGroupLeaseLimit, Host, HostId, LeasedHost, User,
    UserId};
use crate::registry::{
    available_rows, expiring_rows, has_host, host_ids_unique, hosts_after_free_for_user,
    hosts_after_lease, lease_mark, leased_count, matching_limits, registry_wf, user_owns_id,
    RegistryContents,
};
use crate::release::{
    hosts_after_expiry, insert_sorted, lemma_insert_sorted_contains, lemma_row_ids_len,
    lemma_user_soon_ids_sorted, lemma_user_soon_ids_sub, lookup_entry, row_ids, sends_of,
    should_send, soon_sends, sorted_ids, user_order, user_soon_ids, DebounceEntry,
};

verus! {

/// A host row is either free or leased: it carries an owner exactly when
/// it carries a lease deadline, in every well-formed store.
pub proof fn lemma_owner_iff_deadline(v: RegistryContents, k: int)
    requires
        registry_wf(v),
        0 <= k < v.hosts.len(),
    ensures
        v.hosts[k].user_id is Some <==> v.hosts[k].leased_until is Some,
{
}

proof fn lemma_conflict_ids_member(hosts: Seq<Host>, u: UserId, ids: Seq<HostId>, id: HostId)
    requires
        ids.contains(id),
        user_owns_id(hosts, u, id),
    ensures
        conflict_ids(hosts, u, ids).contains(id),
    decreases ids.len(),
{
    let full = conflict_ids(hosts, u, ids);
    let rest = conflict_ids(hosts, u, ids.drop_last());
    if id == ids.last() {
        if rest.contains(id) {
            if user_owns_id(hosts, u, ids.last()) && !rest.contains(ids.last()) {
            } else {
                assert(full == rest);
            }
        } else {
            assert(full == rest.push(id));
            assert(full[full.len() - 1] == id);
        }
    } else {
        assert(ids.drop_last().contains(id)) by {
            let w = choose|w: int| 0 <= w < ids.len() && ids[w] == id;
            assert(ids.drop_last()[w] == id);
        }
        lemma_conflict_ids_member(hosts, u, ids.drop_last(), id);
        let w = choose|w: int| 0 <= w < rest.len() && rest[w] == id;
        if user_owns_id(hosts, u, ids.last()) && !rest.contains(ids.last()) {
            assert(full[w] == id);
        } else {
            assert(full[w] == id);
        }
    }
}

/// Requesting a host again, by the user who already holds it from an
/// earlier granted request, is rejected as a conflict naming that host.
pub proof fn lemma_second_lease_conflicts(
    pre: RegistryContents,
    mid: RegistryContents,
    post: RegistryContents,
    u: UserId,
    names1: Seq<Seq<char>>,
    names2: Seq<Seq<char>>,
    ids1: Seq<HostId>,
    ids2: Seq<HostId>,
    default_limit: usize,
    t1: i64,
    t2: i64,
    r1: Result<Vec<LeasedHost>, HostError>,
    r2: Result<Vec<LeasedHost>, HostError>,
    id: HostId,
)
    requires
        lease_spec(pre, mid, u, names1, ids1, default_limit, t1, r1),
        r1 is Ok,
        has_host(pre.hosts, id),
        ids1.contains(id),
        ids2.contains(id),
        lease_spec(mid, post, u, names2, ids2, default_limit, t2, r2),
    ensures
        r2 matches Err(HostError::AlreadyLeased(v)) && v@.contains(id),
{
    let w = choose|w: int| 0 <= w < pre.hosts.len() && pre.hosts[w].id == id;
    assert(mid.hosts == hosts_after_lease(pre.hosts, ids1, u, t1));
    assert(mid.hosts[w] == lease_mark(pre.hosts[w], u, t1));
    assert(user_owns_id(mid.hosts, u, id)) by {
        assert((#[trigger] mid.hosts[w]).id == id && owned_by(mid.hosts[w], u));
    }
    lemma_conflict_ids_member(mid.hosts, u, ids2, id);
    let cs = conflict_ids(mid.hosts, u, ids2);
    assert(cs.len() > 0) by {
        let k = choose|k: int| 0 <= k < cs.len() && cs[k] == id;
    }
}

/// A host with an owner never appears among the available hosts: the
/// availability listing shows exactly the free rows.
pub proof fn lemma_available_hosts_are_free(hosts: Seq<Host>, k: int)
    requires
        0 <= k < available_rows(hosts).len(),
    ensures
        available_rows(hosts)[k].user_id is None,
    decreases hosts.len(),
{
    if hosts.len() > 0 {
        let rest = available_rows(hosts.drop_last());
        if crate::models::host_free(hosts.last()) && k == rest.len() {
        } else {
            lemma_available_hosts_are_free(hosts.drop_last(), k);
        }
    }
}

/// A granted bulk lease never carries the user past the quota resolved
/// for the request: after every successful call, the user's held count
/// stays within the limit.
pub proof fn lemma_lease_respects_quota(
    pre: RegistryContents,
    post: RegistryContents,
    u: UserId,
    names: Seq<Seq<char>>,
    ids: Seq<HostId>,
    default_limit: usize,
    t: i64,
    r: Result<Vec<LeasedHost>, HostError>,
)
    requires
        lease_spec(pre, post, u, names, ids, default_limit, t, r),
        r is Ok,
    ensures
        leased_count(post.hosts, u) <= resolve_limit(pre.lease_limits, names, default_limit),
{
}

/// A granted random lease never carries the user past the quota either.
pub proof fn lemma_lease_random_respects_quota(
    pre: RegistryContents,
    post: RegistryContents,
    u: UserId,
    names: Seq<Seq<char>>,
    gid: crate::models::GroupId,
    default_limit: usize,
    t: i64,
    r: Result<LeasedHost, HostError>,
)
    requires
        lease_random_spec(pre, post, u, names, gid, default_limit, t, r),
        r is Ok,
    ensures
        leased_count(post.hosts, u) <= resolve_limit(pre.lease_limits, names, default_limit),
{
}

/// With every requested host present in the table, a granted request
/// raises the user's held count by exactly the number of distinct
/// requested hosts.
pub proof fn lemma_lease_exact_increment(
    pre: RegistryContents,
    post: RegistryContents,
    u: UserId,
    names: Seq<Seq<char>>,
    ids: Seq<HostId>,
    default_limit: usize,
    t: i64,
    r: Result<Vec<LeasedHost>, HostError>,
)
    requires
        lease_spec(pre, post, u, names, ids, default_limit, t, r),
        r is Ok,
        host_ids_unique(pre.hosts),
        forall|k: int| 0 <= k < ids.len() ==> has_host(pre.hosts, #[trigger] ids[k]),
    ensures
        leased_count(post.hosts, u) == leased_count(pre.hosts, u) + distinct_ids(ids).len(),
{
    broadcast use vstd::seq_lib::seq_to_set_is_finite;

    assert forall|k: int|
        0 <= k < ids.len() implies !user_owns_id(pre.hosts, u, #[trigger] ids[k]) by {
        if user_owns_id(pre.hosts, u, ids[k]) {
            assert(ids.contains(ids[k]));
            lemma_conflict_ids_member(pre.hosts, u, ids, ids[k]);
            let cs = conflict_ids(pre.hosts, u, ids);
            let w = choose|w: int| 0 <= w < cs.len() && cs[w] == ids[k];
        }
    }
    lemma_lease_count_exact(pre.hosts, ids, u, t);
    assert forall|id: HostId| #[trigger] ids.to_set().contains(id) implies has_host(
        pre.hosts,
        id,
    ) by {
        let k = choose|k: int| 0 <= k < ids.len() && ids[k] == id;
    }
    lemma_matched_count_ge(pre.hosts, ids.to_set());
    lemma_matched_count_le(pre.hosts, ids.to_set());
    lemma_distinct_ids_props(ids);
    distinct_ids(ids).unique_seq_to_set();
}

/// Releasing hosts on behalf of one user leaves every row held by
/// another user untouched, whatever identifiers the request names.
pub proof fn lemma_free_leaves_other_owners(
    hosts: Seq<Host>,
    ids: Seq<HostId>,
    u: UserId,
    k: int,
)
    requires
        0 <= k < hosts.len(),
        !owned_by(hosts[k], u),
    ensures
        hosts_after_free_for_user(hosts, ids, u)[k] == hosts[k],
{
}

proof fn lemma_max_limit_of_bounds(ms: Seq<AdGroupLeaseLimit>)
    ensures
        forall|k: int| 0 <= k < ms.len() ==> (#[trigger] ms[k]).limit <= max_limit_of(ms),
        ms.len() > 0 ==> exists|k: int|
            0 <= k < ms.len() && (#[trigger] ms[k]).limit == max_limit_of(ms),
    decreases ms.len(),
{
    if ms.len() > 0 {
        lemma_max_limit_of_bounds(ms.drop_last());
        assert forall|k: int|
            0 <= k < ms.len() implies (#[trigger] ms[k]).limit <= max_limit_of(ms) by {
            if k < ms.len() - 1 {
                assert(ms.drop_last()[k] == ms[k]);
            }
        }
        if ms.last().limit > max_limit_of(ms.drop_last()) {
            assert((#[trigger] ms[ms.len() - 1]).limit == max_limit_of(ms));
        } else {
            if ms.drop_last().len() > 0 {
                let k = choose|k: int|
                    0 <= k < ms.drop_last().len() && (#[trigger] ms.drop_last()[k]).limit
                        == max_limit_of(ms.drop_last());
                assert((#[trigger] ms[k]).limit == max_limit_of(ms));
            }
        }
    }
}

/// The resolved quota is the maximum over the matching per-group limits:
/// no matching limit exceeds it, it is one of them whenever any matches,
/// and it falls back to the default when none does.
pub proof fn lemma_resolve_limit_is_max(
    limits: Seq<AdGroupLeaseLimit>,
    names: Seq<Seq<char>>,
    default_limit: usize,
)
    ensures
        forall|k: int|
            0 <= k < matching_limits(limits, names).len() ==> (#[trigger] matching_limits(
                limits,
                names,
            )[k]).limit <= resolve_limit(limits, names, default_limit),
        matching_limits(limits, names).len() == 0 ==> resolve_limit(limits, names, default_limit)
            == default_limit,
        matching_limits(limits, names).len() > 0 ==> exists|k: int|
            0 <= k < matching_limits(limits, names).len() && (#[trigger] matching_limits(
                limits,
                names,
            )[k]).limit == resolve_limit(limits, names, default_limit),
{
    lemma_max_limit_of_bounds(matching_limits(limits, names));
}

proof fn lemma_expiring_rows_none(hosts: Seq<Host>, users: Seq<User>, now: i64)
    requires
        forall|k: int| 0 <= k < hosts.len() ==> !expires_before(#[trigger] hosts[k], now),
    ensures
        expiring_rows(hosts, users, now) == Seq::<LeasedHost>::empty(),
    decreases hosts.len(),
{
    if hosts.len() == 0 {
        assert(expiring_rows(hosts, users, now) =~= Seq::<LeasedHost>::empty());
    } else {
        assert forall|k: int|
            0 <= k < hosts.drop_last().len() implies !expires_before(
            #[trigger] hosts.drop_last()[k],
            now,
        ) by {
            assert(hosts.drop_last()[k] == hosts[k]);
        }
        lemma_expiring_rows_none(hosts.drop_last(), users, now);
    }
}

/// Reclaiming is idempotent: a second sweep at or before the first
/// sweep's time finds nothing expired, so it reclaims nothing and has
/// nobody to notify.
pub proof fn lemma_sweep_idempotent(
    hosts: Seq<Host>,
    users: Seq<User>,
    now: i64,
    now2: i64,
)
    requires
        now2 <= now,
    ensures
        expiring_rows(hosts_after_expiry(hosts, now), users, now2) == Seq::<LeasedHost>::empty(),
        user_order(expiring_rows(hosts_after_expiry(hosts, now), users, now2)) == Seq::<
            UserId,
        >::empty(),
{
    let after = hosts_after_expiry(hosts, now);
    assert forall|k: int| 0 <= k < after.len() implies !expires_before(
        #[trigger] after[k],
        now2,
    ) by {
        if expires_before(hosts[k], now) {
            assert(after[k] == crate::registry::lease_clear(hosts[k]));
        } else {
            assert(after[k] == hosts[k]);
        }
    }
    lemma_expiring_rows_none(after, users, now2);
}

/// Whether one sweep warns user `u`, and what the warning names.
proof fn lemma_sends_of_user(
    entries: Seq<DebounceEntry>,
    rows: Seq<LeasedHost>,
    us: Seq<UserId>,
    now: i64,
    delay: i64,
    u: UserId,
)
    ensures
        (exists|k: int|
            0 <= k < sends_of(entries, rows, us, now, delay).len() && (#[trigger] sends_of(
                entries,
                rows,
                us,
                now,
                delay,
            )[k]).0 == u) <==> (us.contains(u) && should_send(
            lookup_entry(entries, u),
            now as int,
            user_soon_ids(rows, u),
            delay as int,
        )),
        forall|k: int|
            0 <= k < sends_of(entries, rows, us, now, delay).len() && (#[trigger] sends_of(
                entries,
                rows,
                us,
                now,
                delay,
            )[k]).0 == u ==> sends_of(entries, rows, us, now, delay)[k].1 == user_soon_ids(
                rows,
                u,
            ),
    decreases us.len(),
{
    let full = sends_of(entries, rows, us, now, delay);
    if us.len() > 0 {
        lemma_sends_of_user(entries, rows, us.drop_last(), now, delay, u);
        let rest = sends_of(entries, rows, us.drop_last(), now, delay);
        let lu = us.last();
        let lids = user_soon_ids(rows, lu);
        let pushed = should_send(lookup_entry(entries, lu), now as int, lids, delay as int);
        assert(us.contains(lu)) by {
            assert(us[us.len() - 1] == lu);
        }
        assert forall|w: int|
            0 <= w < us.drop_last().len() && us.drop_last()[w] == u implies us.contains(u) by {
            assert(us[w] == u);
        }
        if us.contains(u) && u != lu {
            assert(us.drop_last().contains(u)) by {
                let w = choose|w: int| 0 <= w < us.len() && us[w] == u;
                assert(us.drop_last()[w] == u);
            }
        }
        if pushed {
            assert(full == rest.push((lu, lids)));
            if u == lu {
                assert(full[full.len() - 1].0 == u);
            }
            if exists|k: int| 0 <= k < full.len() && (#[trigger] full[k]).0 == u {
                let k = choose|k: int| 0 <= k < full.len() && (#[trigger] full[k]).0 == u;
                if k < rest.len() {
                    assert(rest[k].0 == u);
                }
            }
            if exists|k: int| 0 <= k < rest.len() && (#[trigger] rest[k]).0 == u {
                let k = choose|k: int| 0 <= k < rest.len() && (#[trigger] rest[k]).0 == u;
                assert(full[k].0 == u);
            }
        } else {
            assert(full == rest);
        }
    }
}

/// Debounce, first half: a user warned at `now1` about batch `s` is not
/// warned again by a sweep within the warning window whose batch for the
/// user is still `s`.
pub proof fn lemma_warn_once_within_window(
    entries: Seq<DebounceEntry>,
    rows2: Seq<LeasedHost>,
    now1: i64,
    now2: i64,
    delay: i64,
    u: UserId,
    s: Seq<HostId>,
)
    requires
        lookup_entry(entries, u) == Some((now1, s)),
        user_soon_ids(rows2, u) == s,
        now2 - now1 < delay,
    ensures
        forall|k: int|
            0 <= k < soon_sends(entries, rows2, now2, delay).len() ==> (#[trigger] soon_sends(
                entries,
                rows2,
                now2,
                delay,
            )[k]).0 != u,
{
    lemma_sends_of_user(entries, rows2, user_order(rows2), now2, delay, u);
    assert(!should_send(lookup_entry(entries, u), now2 as int, user_soon_ids(rows2, u),
        delay as int));
}

/// Debounce, second half: once the user's batch changes, the next sweep
/// warns again at once, whatever the time, naming the new batch.
pub proof fn lemma_warn_again_on_change(
    entries: Seq<DebounceEntry>,
    rows2: Seq<LeasedHost>,
    now1: i64,
    now2: i64,
    delay: i64,
    u: UserId,
    s: Seq<HostId>,
)
    requires
        lookup_entry(entries, u) == Some((now1, s)),
        user_soon_ids(rows2, u) != s,
        user_order(rows2).contains(u),
    ensures
        exists|k: int|
            0 <= k < soon_sends(entries, rows2, now2, delay).len() && (#[trigger] soon_sends(
                entries,
                rows2,
                now2,
                delay,
            )[k]).0 == u && soon_sends(entries, rows2, now2, delay)[k].1 == user_soon_ids(
                rows2,
                u,
            ),
{
    lemma_sends_of_user(entries, rows2, user_order(rows2), now2, delay, u);
    assert(should_send(lookup_entry(entries, u), now2 as int, user_soon_ids(rows2, u),
        delay as int));
    let sends = soon_sends(entries, rows2, now2, delay);
    let k = choose|k: int| 0 <= k < sends.len() && (#[trigger] sends[k]).0 == u;
    assert(sends[k].1 == user_soon_ids(rows2, u));
}

/// The set of host identifiers of `u`'s rows.
pub open spec fn user_ids_set(rows: Seq<LeasedHost>, u: UserId) -> Set<HostId>
    decreases rows.len(),
{
    if rows.len() == 0 {
        Set::empty()
    } else {
        let rest = user_ids_set(rows.drop_last(), u);
        if rows.last().user.id == u {
            rest.insert(rows.last().id)
        } else {
            rest
        }
    }
}

proof fn lemma_insert_sorted_to_set(s: Seq<HostId>, x: HostId)
    ensures
        insert_sorted(s, x).to_set() =~= s.to_set().insert(x),
{
    assert forall|a: HostId|
        insert_sorted(s, x).to_set().contains(a) implies s.to_set().insert(x).contains(a) by {
        lemma_insert_sorted_contains(s, x, a);
    }
    assert forall|a: HostId|
        s.to_set().insert(x).contains(a) implies insert_sorted(s, x).to_set().contains(a) by {
        lemma_insert_sorted_contains(s, x, a);
    }
}

proof fn lemma_user_soon_ids_to_set(rows: Seq<LeasedHost>, u: UserId)
    ensures
        user_soon_ids(rows, u).to_set() =~= user_ids_set(rows, u),
    decreases rows.len(),
{
    if rows.len() > 0 {
        lemma_user_soon_ids_to_set(rows.drop_last(), u);
        if rows.last().user.id == u {
            lemma_insert_sorted_to_set(user_soon_ids(rows.drop_last(), u), rows.last().id);
        }
    }
}

proof fn lemma_insert_sorted_nodup(s: Seq<HostId>, x: HostId)
    requires
        s.no_duplicates(),
        !s.contains(x),
    ensures
        insert_sorted(s, x).no_duplicates(),
    decreases s.len(),
{
    let r = insert_sorted(s, x);
    if s.len() == 0 {
    } else if s.last().0 <= x.0 {
        assert forall|i: int, j: int|
            0 <= i < r.len() && 0 <= j < r.len() && i != j implies r[i] != r[j] by {
            if j == s.len() && i < s.len() {
                if s[i] == x {
                    assert(s.contains(x));
                }
            } else if i == s.len() && j < s.len() {
                if s[j] == x {
                    assert(s.contains(x));
                }
            }
        }
    } else {
        assert(s.drop_last().no_duplicates()) by {
            assert forall|i: int, j: int|
                0 <= i < s.drop_last().len() && 0 <= j < s.drop_last().len() && i != j
                implies s.drop_last()[i] != s.drop_last()[j] by {
                assert(s.drop_last()[i] == s[i]);
                assert(s.drop_last()[j] == s[j]);
            }
        }
        assert(!s.drop_last().contains(x)) by {
            if s.drop_last().contains(x) {
                let w = choose|w: int| 0 <= w < s.drop_last().len() && s.drop_last()[w] == x;
                assert(s[w] == x);
                assert(s.contains(x));
            }
        }
        lemma_insert_sorted_nodup(s.drop_last(), x);
        let inner = insert_sorted(s.drop_last(), x);
        assert forall|i: int, j: int|
            0 <= i < r.len() && 0 <= j < r.len() && i != j implies r[i] != r[j] by {
            if j == inner.len() && i < inner.len() {
                if inner[i] == s.last() {
                    assert(inner.contains(s.last()));
                    lemma_insert_sorted_contains(s.drop_last(), x, s.last());
                    if s.drop_last().contains(s.last()) {
                        let w = choose|w: int|
                            0 <= w < s.drop_last().len() && s.drop_last()[w] == s.last();
                        assert(s[w] == s[s.len() - 1]);
                    }
                }
            } else if i == inner.len() && j < inner.len() {
                if inner[j] == s.last() {
                    assert(inner.contains(s.last()));
                    lemma_insert_sorted_contains(s.drop_last(), x, s.last());
                    if s.drop_last().contains(s.last()) {
                        let w = choose|w: int|
                            0 <= w < s.drop_last().len() && s.drop_last()[w] == s.last();
                        assert(s[w] == s[s.len() - 1]);
                    }
                }
            }
        }
    }
}

proof fn lemma_user_soon_ids_nodup(rows: Seq<LeasedHost>, u: UserId)
    requires
        forall|i: int, j: int| 0 <= i < j < rows.len() ==> rows[i].id != rows[j].id,
    ensures
        user_soon_ids(rows, u).no_duplicates(),
    decreases rows.len(),
{
    if rows.len() > 0 {
        assert forall|i: int, j: int|
            0 <= i < j < rows.drop_last().len() implies rows.drop_last()[i].id != rows.drop_last(
        )[j].id by {
            assert(rows.drop_last()[i] == rows[i]);
            assert(rows.drop_last()[j] == rows[j]);
        }
        lemma_user_soon_ids_nodup(rows.drop_last(), u);
        if rows.last().user.id == u {
            let rest = user_soon_ids(rows.drop_last(), u);
            assert(!rest.contains(rows.last().id)) by {
                if rest.contains(rows.last().id) {
                    lemma_user_soon_ids_sub(rows.drop_last(), u, rows.last().id);
                    lemma_row_ids_len(rows.drop_last());
                    let w = choose|w: int|
                        0 <= w < row_ids(rows.drop_last()).len() && row_ids(rows.drop_last())[w]
                            == rows.last().id;
                    assert(rows.drop_last()[w].id == rows.last().id);
                    assert(rows.drop_last()[w] == rows[w]);
                    assert(rows[w].id == rows[rows.len() - 1].id);
                }
            }
            lemma_insert_sorted_nodup(rest, rows.last().id);
        }
    }
}

proof fn lemma_sorted_nodup_set_unique(a: Seq<HostId>, b: Seq<HostId>)
    requires
        sorted_ids(a),
        sorted_ids(b),
        a.no_duplicates(),
        b.no_duplicates(),
        a.to_set() == b.to_set(),
    ensures
        a == b,
    decreases a.len(),
{
    broadcast use vstd::seq_lib::seq_to_set_is_finite;

    a.unique_seq_to_set();
    b.unique_seq_to_set();
    if a.len() == 0 {
        assert(a =~= b);
    } else {
        let la = a.last();
        let lb = b.last();
        assert(a.contains(la)) by {
            assert(a[a.len() - 1] == la);
        }
        assert(b.contains(lb)) by {
            assert(b[b.len() - 1] == lb);
        }
        assert(a.to_set().contains(la));
        assert(b.to_set().contains(la));
        assert(b.contains(la));
        assert(b.to_set().contains(lb));
        assert(a.to_set().contains(lb));
        assert(a.contains(lb));
        let wa = choose|w: int| 0 <= w < a.len() && a[w] == lb;
        let wb = choose|w: int| 0 <= w < b.len() && b[w] == la;
        assert(lb.0 <= la.0) by {
            if wa < a.len() - 1 {
                assert(a[wa].0 <= a[a.len() - 1].0);
            }
        }
        assert(la.0 <= lb.0) by {
            if wb < b.len() - 1 {
                assert(b[wb].0 <= b[b.len() - 1].0);
            }
        }
        assert(la == lb);
        assert(a.drop_last().to_set() =~= a.to_set().remove(la)) by {
            lemma_drop_last_to_set(a);
        }
        assert(b.drop_last().to_set() =~= b.to_set().remove(lb)) by {
            lemma_drop_last_to_set(b);
        }
        assert(sorted_ids(a.drop_last()) && a.drop_last().no_duplicates()) by {
            lemma_drop_last_props(a);
        }
        assert(sorted_ids(b.drop_last()) && b.drop_last().no_duplicates()) by {
            lemma_drop_last_props(b);
        }
        lemma_sorted_nodup_set_unique(a.drop_last(), b.drop_last());
        assert(a.len() == b.len());
        assert forall|k: int| 0 <= k < a.len() implies a[k] == b[k] by {
            if k < a.len() - 1 {
                assert(a.drop_last()[k] == b.drop_last()[k]);
            }
        }
        assert(a =~= b);
    }
}

proof fn lemma_drop_last_props(a: Seq<HostId>)
    requires
        a.len() > 0,
        sorted_ids(a),
        a.no_duplicates(),
    ensures
        sorted_ids(a.drop_last()),
        a.drop_last().no_duplicates(),
{
    assert forall|i: int, j: int|
        0 <= i < j < a.drop_last().len() implies a.drop_last()[i].0 <= a.drop_last()[j].0 by {
        assert(a.drop_last()[i] == a[i]);
        assert(a.drop_last()[j] == a[j]);
    }
    assert forall|i: int, j: int|
        0 <= i < a.drop_last().len() && 0 <= j < a.drop_last().len() && i != j
        implies a.drop_last()[i] != a.drop_last()[j] by {
        assert(a.drop_last()[i] == a[i]);
        assert(a.drop_last()[j] == a[j]);
    }
}

proof fn lemma_drop_last_to_set(a: Seq<HostId>)
    requires
        a.len() > 0,
        a.no_duplicates(),
    ensures
        a.drop_last().to_set() =~= a.to_set().remove(a.last()),
{
    let la = a.last();
    assert forall|x: HostId|
        a.drop_last().to_set().contains(x) implies a.to_set().remove(la).contains(x) by {
        let w = choose|w: int| 0 <= w < a.drop_last().len() && a.drop_last()[w] == x;
        assert(a[w] == x);
        assert(a.contains(x));
        assert(x != la) by {
            if x == la {
                assert(a[w] == a[a.len() - 1]);
            }
        }
    }
    assert forall|x: HostId|
        a.to_set().remove(la).contains(x) implies a.drop_last().to_set().contains(x) by {
        let w = choose|w: int| 0 <= w < a.len() && a[w] == x;
        assert(w < a.len() - 1) by {
            if w == a.len() - 1 {
                assert(x == la);
            }
        }
        assert(a.drop_last()[w] == x);
        assert(a.drop_last().contains(x));
    }
}

/// Two sweeps whose rows give user `u` the same set of expiring hosts
/// give the user the same batch, whatever order the rows came in.
pub proof fn lemma_same_set_same_batch(rows1: Seq<LeasedHost>, rows2: Seq<LeasedHost>, u: UserId)
    requires
        forall|i: int, j: int| 0 <= i < j < rows1.len() ==> rows1[i].id != rows1[j].id,
        forall|i: int, j: int| 0 <= i < j < rows2.len() ==> rows2[i].id != rows2[j].id,
        user_ids_set(rows1, u) == user_ids_set(rows2, u),
    ensures
        user_soon_ids(rows1, u) == user_soon_ids(rows2, u),
{
    lemma_user_soon_ids_sorted(rows1, u);
    lemma_user_soon_ids_sorted(rows2, u);
    lemma_user_soon_ids_nodup(rows1, u);
    lemma_user_soon_ids_nodup(rows2, u);
    lemma_user_soon_ids_to_set(rows1, u);
    lemma_user_soon_ids_to_set(rows2, u);
    lemma_sorted_nodup_set_unique(user_soon_ids(rows1, u), user_soon_ids(rows2, u));
}

} // verus!
