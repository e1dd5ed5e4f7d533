//! The release timer's sweep logic: reclaiming hosts whose lease has
//! expired, and warning users whose leases expire soon, with one batched
//! notification per user and a per-user debounce so an unchanged warning
//! is not repeated within the warning window.
//!
//! The perpetual loop itself (poll, sweep, sleep) is plain plumbing and
//! lives with the embedding program; this module holds the verified
//! decisions of one sweep.

use vstd::prelude::*;

use crate::models::{expires_before, Host, HostId, LeasedHost, UserId};
use crate::notifications::{Notification, Notifier, SendMessage};
use crate::registry::{
    expiring_rows, host_ids_unique, lease_clear, rows_with_ids, Registry,
};

verus! {

/// What the timer remembers of the last expiration warning sent to one
/// user: when it was sent and which hosts it named.
pub struct DebounceEntry {
    pub user: UserId,
    pub notified_at: i64,
    pub host_ids: Vec<HostId>,
}

/// One user's batch of a sweep: the hosts the user is told about in a
/// single message.
pub struct NotificationGroup {
    pub user: UserId,
    pub host_ids: Vec<HostId>,
}

/// The host table after reclaiming every row whose lease deadline lies
/// strictly before `now`.
pub open spec fn hosts_after_expiry(hosts: Seq<Host>, now: i64) -> Seq<Host> {
    Seq::new(
        hosts.len(),
        |i: int|
            if expires_before(hosts[i], now) {
                lease_clear(hosts[i])
            } else {
                hosts[i]
            },
    )
}

/// The identifiers of the rows whose lease deadline lies strictly before
/// `now`, in table order.
pub open spec fn expired_ids(hosts: Seq<Host>, now: i64) -> Seq<HostId>
    decreases hosts.len(),
{
    if hosts.len() == 0 {
        Seq::empty()
    } else {
        let rest = expired_ids(hosts.drop_last(), now);
        if expires_before(hosts.last(), now) {
            rest.push(hosts.last().id)
        } else {
            rest
        }
    }
}

/// The identifiers of `rows`, in order.
pub open spec fn row_ids(rows: Seq<LeasedHost>) -> Seq<HostId>
    decreases rows.len(),
{
    if rows.len() == 0 {
        Seq::empty()
    } else {
        row_ids(rows.drop_last()).push(rows.last().id)
    }
}

proof fn lemma_row_ids_expiring(hosts: Seq<Host>, users: Seq<crate::models::User>, t: i64)
    ensures
        row_ids(expiring_rows(hosts, users, t)) == expired_ids(hosts, t),
    decreases hosts.len(),
{
    if hosts.len() > 0 {
        lemma_row_ids_expiring(hosts.drop_last(), users, t);
        if expires_before(hosts.last(), t) {
            assert(expiring_rows(hosts, users, t).drop_last() =~= expiring_rows(
                hosts.drop_last(),
                users,
                t,
            ));
        }
    }
}

/// An identifier listed as expired belongs to some expiring row.
proof fn lemma_expired_ids_to_row(hosts: Seq<Host>, t: i64, id: HostId)
    requires
        expired_ids(hosts, t).contains(id),
    ensures
        exists|k: int|
            0 <= k < hosts.len() && (#[trigger] hosts[k]).id == id && expires_before(hosts[k], t),
    decreases hosts.len(),
{
    if hosts.len() > 0 {
        let rest = expired_ids(hosts.drop_last(), t);
        if expires_before(hosts.last(), t) && id == hosts.last().id {
            assert((#[trigger] hosts[hosts.len() - 1]).id == id);
        } else {
            assert(rest.contains(id)) by {
                let w = choose|w: int|
                    0 <= w < expired_ids(hosts, t).len() && expired_ids(hosts, t)[w] == id;
                assert(rest[w] == id);
            }
            lemma_expired_ids_to_row(hosts.drop_last(), t, id);
            let k = choose|k: int|
                0 <= k < hosts.drop_last().len() && (#[trigger] hosts.drop_last()[k]).id == id
                    && expires_before(hosts.drop_last()[k], t);
            assert(hosts[k] == hosts.drop_last()[k]);
        }
    }
}

/// With pairwise-distinct row identifiers, a row's identifier is listed
/// as expired exactly when the row's lease deadline lies before `now`.
pub proof fn lemma_expired_ids_membership(hosts: Seq<Host>, now: i64, k: int)
    requires
        host_ids_unique(hosts),
        0 <= k < hosts.len(),
    ensures
        expired_ids(hosts, now).contains(hosts[k].id) <==> expires_before(hosts[k], now),
{
    if expired_ids(hosts, now).contains(hosts[k].id) {
        lemma_expired_ids_to_row(hosts, now, hosts[k].id);
        let w = choose|w: int|
            0 <= w < hosts.len() && (#[trigger] hosts[w]).id == hosts[k].id && expires_before(
                hosts[w],
                now,
            );
        assert(w == k);
    }
    if expires_before(hosts[k], now) {
        lemma_expired_contains(hosts, now, k);
    }
}

proof fn lemma_expired_contains(hosts: Seq<Host>, now: i64, k: int)
    requires
        0 <= k < hosts.len(),
        expires_before(hosts[k], now),
    ensures
        expired_ids(hosts, now).contains(hosts[k].id),
    decreases hosts.len(),
{
    if k == hosts.len() - 1 {
        let e = expired_ids(hosts, now);
        assert(e[e.len() - 1] == hosts[k].id);
    } else {
        lemma_expired_contains(hosts.drop_last(), now, k);
        let rest = expired_ids(hosts.drop_last(), now);
        let w = choose|w: int| 0 <= w < rest.len() && rest[w] == hosts.drop_last()[k].id;
        assert(expired_ids(hosts, now)[w] == hosts[k].id);
    }
}

/// `s` with `x` placed after every element not greater than it.
pub open spec fn insert_sorted(s: Seq<HostId>, x: HostId) -> Seq<HostId>
    decreases s.len(),
{
    if s.len() == 0 {
        seq![x]
    } else if s.last().0 <= x.0 {
        s.push(x)
    } else {
        insert_sorted(s.drop_last(), x).push(s.last())
    }
}

/// The identifiers are in nondecreasing order.
pub open spec fn sorted_ids(s: Seq<HostId>) -> bool {
    forall|i: int, j: int| 0 <= i < j < s.len() ==> s[i].0 <= s[j].0
}

/// The owners of `rows`, in order of first appearance, each once.
pub open spec fn user_order(rows: Seq<LeasedHost>) -> Seq<UserId>
    decreases rows.len(),
{
    if rows.len() == 0 {
        Seq::empty()
    } else {
        let rest = user_order(rows.drop_last());
        if rest.contains(rows.last().user.id) {
            rest
        } else {
            rest.push(rows.last().user.id)
        }
    }
}

/// The identifiers of the rows of `rows` owned by `u`, in ascending
/// order.
pub open spec fn user_soon_ids(rows: Seq<LeasedHost>, u: UserId) -> Seq<HostId>
    decreases rows.len(),
{
    if rows.len() == 0 {
        Seq::empty()
    } else {
        let rest = user_soon_ids(rows.drop_last(), u);
        if rows.last().user.id == u {
            insert_sorted(rest, rows.last().id)
        } else {
            rest
        }
    }
}

/// The per-user batches of `rows`: owners in order of first appearance,
/// each with the ascending identifiers of its rows.
pub open spec fn group_views(groups: Seq<NotificationGroup>) -> Seq<(UserId, Seq<HostId>)>
    decreases groups.len(),
{
    if groups.len() == 0 {
        Seq::empty()
    } else {
        group_views(groups.drop_last()).push(
            (groups.last().user, groups.last().host_ids@),
        )
    }
}

/// The users of `groups`, in order.
pub open spec fn group_users(groups: Seq<NotificationGroup>) -> Seq<UserId>
    decreases groups.len(),
{
    if groups.len() == 0 {
        Seq::empty()
    } else {
        group_users(groups.drop_last()).push(groups.last().user)
    }
}

proof fn lemma_group_views_len(groups: Seq<NotificationGroup>)
    ensures
        group_views(groups).len() == groups.len(),
        group_users(groups).len() == groups.len(),
    decreases groups.len(),
{
    if groups.len() > 0 {
        lemma_group_views_len(groups.drop_last());
    }
}

proof fn lemma_group_users_index(groups: Seq<NotificationGroup>, k: int)
    requires
        0 <= k < groups.len(),
    ensures
        group_users(groups).len() == groups.len(),
        group_users(groups)[k] == groups[k].user,
    decreases groups.len(),
{
    lemma_group_views_len(groups);
    if k < groups.len() - 1 {
        lemma_group_users_index(groups.drop_last(), k);
        assert(groups.drop_last()[k] == groups[k]);
    }
}

/// Membership in an ordered insert.
pub proof fn lemma_insert_sorted_contains(s: Seq<HostId>, x: HostId, y: HostId)
    ensures
        insert_sorted(s, x).contains(y) <==> (s.contains(y) || y == x),
    decreases s.len(),
{
    let r = insert_sorted(s, x);
    if s.len() == 0 {
        assert(r =~= seq![x]);
        if y == x {
            assert(r[0] == y);
        }
        if r.contains(y) {
            let w = choose|w: int| 0 <= w < r.len() && r[w] == y;
        }
    } else if s.last().0 <= x.0 {
        assert(r == s.push(x));
        if s.contains(y) {
            let w = choose|w: int| 0 <= w < s.len() && s[w] == y;
            assert(r[w] == y);
        }
        if y == x {
            assert(r[s.len() as int] == y);
        }
        if r.contains(y) {
            let w = choose|w: int| 0 <= w < r.len() && r[w] == y;
            if w < s.len() {
                assert(s[w] == y);
            }
        }
    } else {
        lemma_insert_sorted_contains(s.drop_last(), x, y);
        let inner = insert_sorted(s.drop_last(), x);
        assert(r == inner.push(s.last()));
        if r.contains(y) {
            let w = choose|w: int| 0 <= w < r.len() && r[w] == y;
            if w < inner.len() {
                assert(inner[w] == y);
                if s.drop_last().contains(y) {
                    let v = choose|v: int|
                        0 <= v < s.drop_last().len() && s.drop_last()[v] == y;
                    assert(s[v] == y);
                }
            } else {
                assert(s[s.len() - 1] == y);
            }
        }
        if s.contains(y) {
            let w = choose|w: int| 0 <= w < s.len() && s[w] == y;
            if w < s.len() - 1 {
                assert(s.drop_last()[w] == y);
                assert(inner.contains(y));
                let v = choose|v: int| 0 <= v < inner.len() && inner[v] == y;
                assert(r[v] == y);
            } else {
                assert(r[r.len() - 1] == y);
            }
        }
        if y == x {
            assert(inner.contains(y));
            let v = choose|v: int| 0 <= v < inner.len() && inner[v] == y;
            assert(r[v] == y);
        }
    }
}

/// A user's batch only names identifiers of the sweep's rows.
pub proof fn lemma_user_soon_ids_sub(rows: Seq<LeasedHost>, u: UserId, id: HostId)
    requires
        user_soon_ids(rows, u).contains(id),
    ensures
        row_ids(rows).contains(id),
    decreases rows.len(),
{
    if rows.len() > 0 {
        let rest = user_soon_ids(rows.drop_last(), u);
        if rows.last().user.id == u {
            lemma_insert_sorted_contains(rest, rows.last().id, id);
            if id == rows.last().id {
                let r = row_ids(rows);
                assert(r[r.len() - 1] == id);
            } else {
                lemma_user_soon_ids_sub(rows.drop_last(), u, id);
                lemma_row_ids_push(rows, id);
            }
        } else {
            lemma_user_soon_ids_sub(rows.drop_last(), u, id);
            lemma_row_ids_push(rows, id);
        }
    }
}

proof fn lemma_row_ids_push(rows: Seq<LeasedHost>, id: HostId)
    requires
        rows.len() > 0,
        row_ids(rows.drop_last()).contains(id),
    ensures
        row_ids(rows).contains(id),
{
    let w = choose|w: int|
        0 <= w < row_ids(rows.drop_last()).len() && row_ids(rows.drop_last())[w] == id;
    lemma_row_ids_len(rows.drop_last());
    lemma_row_ids_len(rows);
    assert(row_ids(rows)[w] == id);
}

pub proof fn lemma_row_ids_len(rows: Seq<LeasedHost>)
    ensures
        row_ids(rows).len() == rows.len(),
        forall|k: int| 0 <= k < rows.len() ==> row_ids(rows)[k] == (#[trigger] rows[k]).id,
    decreases rows.len(),
{
    if rows.len() > 0 {
        lemma_row_ids_len(rows.drop_last());
        assert forall|k: int|
            0 <= k < rows.len() implies row_ids(rows)[k] == (#[trigger] rows[k]).id by {
            if k < rows.len() - 1 {
                assert(rows.drop_last()[k] == rows[k]);
            }
        }
    }
}

/// Owners appear at most once in a sweep's batch order.
pub proof fn lemma_user_order_nodup(rows: Seq<LeasedHost>)
    ensures
        user_order(rows).no_duplicates(),
    decreases rows.len(),
{
    if rows.len() > 0 {
        lemma_user_order_nodup(rows.drop_last());
        let rest = user_order(rows.drop_last());
        let u = rows.last().user.id;
        if !rest.contains(u) {
            assert forall|i: int, j: int|
                0 <= i < rest.push(u).len() && 0 <= j < rest.push(u).len() && i != j
                implies rest.push(u)[i] != rest.push(u)[j] by {
                if j == rest.len() && i < rest.len() {
                    if rest[i] == u {
                        assert(rest.contains(u));
                    }
                } else if i == rest.len() && j < rest.len() {
                    if rest[j] == u {
                        assert(rest.contains(u));
                    }
                }
            }
        }
    }
}

/// A user outside the batch order has an empty batch.
proof fn lemma_user_soon_ids_absent(rows: Seq<LeasedHost>, u: UserId)
    requires
        !user_order(rows).contains(u),
    ensures
        user_soon_ids(rows, u) == Seq::<HostId>::empty(),
    decreases rows.len(),
{
    if rows.len() > 0 {
        let rest = user_order(rows.drop_last());
        let lu = rows.last().user.id;
        assert(!rest.contains(u)) by {
            if rest.contains(u) {
                let w = choose|w: int| 0 <= w < rest.len() && rest[w] == u;
                if rest.contains(lu) {
                    assert(user_order(rows)[w] == u);
                } else {
                    assert(user_order(rows)[w] == u);
                }
            }
        }
        lemma_user_soon_ids_absent(rows.drop_last(), u);
        if lu == u {
            if rest.contains(lu) {
                assert(user_order(rows).contains(u));
            } else {
                assert(user_order(rows)[rest.len() as int] == u);
            }
        }
    }
}

/// An ordered insert into a nondecreasing sequence keeps it
/// nondecreasing.
proof fn lemma_insert_sorted_sorted(s: Seq<HostId>, x: HostId)
    requires
        sorted_ids(s),
    ensures
        sorted_ids(insert_sorted(s, x)),
    decreases s.len(),
{
    let r = insert_sorted(s, x);
    if s.len() == 0 {
    } else if s.last().0 <= x.0 {
        assert forall|i: int, j: int| 0 <= i < j < r.len() implies r[i].0 <= r[j].0 by {
            if j == s.len() {
                assert(s[i].0 <= s.last().0);
            }
        }
    } else {
        assert(sorted_ids(s.drop_last()));
        lemma_insert_sorted_sorted(s.drop_last(), x);
        let inner = insert_sorted(s.drop_last(), x);
        assert forall|i: int, j: int| 0 <= i < j < r.len() implies r[i].0 <= r[j].0 by {
            if j == inner.len() {
                assert(inner.contains(inner[i]));
                lemma_insert_sorted_contains(s.drop_last(), x, inner[i]);
                if s.drop_last().contains(inner[i]) {
                    let w = choose|w: int|
                        0 <= w < s.drop_last().len() && s.drop_last()[w] == inner[i];
                    assert(s[w].0 <= s.last().0);
                }
            }
        }
    }
}

/// A user's batch identifiers are in nondecreasing order.
pub proof fn lemma_user_soon_ids_sorted(rows: Seq<LeasedHost>, u: UserId)
    ensures
        sorted_ids(user_soon_ids(rows, u)),
    decreases rows.len(),
{
    if rows.len() > 0 {
        lemma_user_soon_ids_sorted(rows.drop_last(), u);
        if rows.last().user.id == u {
            lemma_insert_sorted_sorted(user_soon_ids(rows.drop_last(), u), rows.last().id);
        }
    }
}

/// Where an ordered insert places the new element in a nondecreasing
/// sequence: after the `p` elements not greater than it.
proof fn lemma_insert_sorted_split(s: Seq<HostId>, x: HostId, p: int)
    requires
        sorted_ids(s),
        0 <= p <= s.len(),
        forall|k: int| 0 <= k < p ==> (#[trigger] s[k]).0 <= x.0,
        forall|k: int| p <= k < s.len() ==> (#[trigger] s[k]).0 > x.0,
    ensures
        insert_sorted(s, x) == s.take(p) + seq![x] + s.skip(p),
    decreases s.len(),
{
    if s.len() == 0 {
        assert(insert_sorted(s, x) =~= s.take(p) + seq![x] + s.skip(p));
    } else if s.last().0 <= x.0 {
        assert(p == s.len());
        assert(insert_sorted(s, x) =~= s.take(p) + seq![x] + s.skip(p));
    } else {
        assert(p < s.len());
        assert(sorted_ids(s.drop_last()));
        lemma_insert_sorted_split(s.drop_last(), x, p);
        assert(insert_sorted(s, x) =~= s.take(p) + seq![x] + s.skip(p));
    }
}

/// An element of the filtered host table is one of the table's rows and
/// carries a requested identifier.
proof fn lemma_rows_with_ids_elem(hosts: Seq<Host>, ids: Seq<HostId>, k: int)
    requires
        0 <= k < rows_with_ids(hosts, ids).len(),
    ensures
        ids.contains(rows_with_ids(hosts, ids)[k].id),
        exists|w: int| 0 <= w < hosts.len() && #[trigger] hosts[w] == rows_with_ids(hosts, ids)[k],
    decreases hosts.len(),
{
    if hosts.len() > 0 {
        let rest = rows_with_ids(hosts.drop_last(), ids);
        if ids.contains(hosts.last().id) && k == rest.len() {
            assert(hosts[hosts.len() - 1] == rows_with_ids(hosts, ids)[k]);
        } else {
            lemma_rows_with_ids_elem(hosts.drop_last(), ids, k);
            let w = choose|w: int|
                0 <= w < hosts.drop_last().len() && #[trigger] hosts.drop_last()[w] == rest[k];
            assert(hosts[w] == rows_with_ids(hosts, ids)[k]);
        }
    }
}

/// A sweep over a table with no expiring row changes nothing.
proof fn lemma_expiring_rows_empty(
    hosts: Seq<Host>,
    users: Seq<crate::models::User>,
    now: i64,
    k: int,
)
    requires
        expiring_rows(hosts, users, now).len() == 0,
        0 <= k < hosts.len(),
    ensures
        !expires_before(hosts[k], now),
    decreases hosts.len(),
{
    if hosts.len() > 0 {
        if k < hosts.len() - 1 {
            lemma_expiring_rows_empty(hosts.drop_last(), users, now, k);
            assert(hosts.drop_last()[k] == hosts[k]);
        }
    }
}

/// What the timer remembers, looked up by user: the first entry carrying
/// `u`, as a time and an identifier sequence.
pub open spec fn lookup_entry(entries: Seq<DebounceEntry>, u: UserId) -> Option<(i64, Seq<HostId>)>
    decreases entries.len(),
{
    if entries.len() == 0 {
        None
    } else if entries.first().user == u {
        Some((entries.first().notified_at, entries.first().host_ids@))
    } else {
        lookup_entry(entries.drop_first(), u)
    }
}

/// Debounce-state users are pairwise distinct.
pub open spec fn entry_users_unique(entries: Seq<DebounceEntry>) -> bool {
    forall|i: int, j: int| 0 <= i < j < entries.len() ==> entries[i].user != entries[j].user
}

proof fn lemma_lookup_found(entries: Seq<DebounceEntry>, i: int)
    requires
        0 <= i < entries.len(),
        forall|k: int| 0 <= k < i ==> (#[trigger] entries[k]).user != entries[i].user,
    ensures
        lookup_entry(entries, entries[i].user) == Some(
            (entries[i].notified_at, entries[i].host_ids@),
        ),
    decreases i,
{
    if i > 0 {
        assert(entries.drop_first()[i - 1] == entries[i]);
        lemma_lookup_found(entries.drop_first(), i - 1);
    }
}

proof fn lemma_lookup_none(entries: Seq<DebounceEntry>, u: UserId)
    requires
        forall|k: int| 0 <= k < entries.len() ==> (#[trigger] entries[k]).user != u,
    ensures
        lookup_entry(entries, u) is None,
    decreases entries.len(),
{
    if entries.len() > 0 {
        lemma_lookup_none(entries.drop_first(), u);
    }
}

proof fn lemma_lookup_covers(entries: Seq<DebounceEntry>, k: int)
    requires
        0 <= k < entries.len(),
    ensures
        lookup_entry(entries, entries[k].user) is Some,
    decreases entries.len(),
{
    if entries.len() > 0 && entries.first().user != entries[k].user {
        assert(entries.drop_first()[k - 1] == entries[k]);
        lemma_lookup_covers(entries.drop_first(), k - 1);
    }
}

proof fn lemma_lookup_update(entries: Seq<DebounceEntry>, i: int, e: DebounceEntry, u: UserId)
    requires
        entry_users_unique(entries),
        0 <= i < entries.len(),
        entries[i].user == e.user,
    ensures
        lookup_entry(entries.update(i, e), u) == (if u == e.user {
            Some((e.notified_at, e.host_ids@))
        } else {
            lookup_entry(entries, u)
        }),
        entry_users_unique(entries.update(i, e)),
    decreases entries.len(),
{
    let upd = entries.update(i, e);
    assert forall|k: int| 0 <= k < upd.len() implies (#[trigger] upd[k]).user
        == entries[k].user by {}
    if i == 0 {
        assert(upd.first() == e);
        if u != e.user {
            assert(upd.drop_first() =~= entries.drop_first());
        }
    } else {
        assert(upd.first() == entries.first());
        assert(upd.drop_first() =~= entries.drop_first().update(i - 1, e));
        assert(entry_users_unique(entries.drop_first())) by {
            assert forall|a: int, b: int|
                0 <= a < b < entries.drop_first().len() implies entries.drop_first()[a].user
                != entries.drop_first()[b].user by {
                assert(entries.drop_first()[a] == entries[a + 1]);
                assert(entries.drop_first()[b] == entries[b + 1]);
            }
        }
        assert(entries.drop_first()[i - 1] == entries[i]);
        lemma_lookup_update(entries.drop_first(), i - 1, e, u);
        if u == entries.first().user {
            assert(entries[0].user != entries[i].user);
        }
    }
}

proof fn lemma_lookup_push(entries: Seq<DebounceEntry>, e: DebounceEntry, u: UserId)
    ensures
        lookup_entry(entries.push(e), u) == (if lookup_entry(entries, u) is Some {
            lookup_entry(entries, u)
        } else if u == e.user {
            Some((e.notified_at, e.host_ids@))
        } else {
            None
        }),
    decreases entries.len(),
{
    if entries.len() == 0 {
        assert(entries.push(e).first() == e);
        assert(entries.push(e).drop_first() =~= Seq::<DebounceEntry>::empty());
        assert(lookup_entry(Seq::<DebounceEntry>::empty(), u) is None);
        if u != e.user {
            assert(lookup_entry(entries.push(e), u) == lookup_entry(
                Seq::<DebounceEntry>::empty(),
                u,
            ));
        }
    } else {
        assert(entries.push(e).first() == entries.first());
        assert(entries.push(e).drop_first() =~= entries.drop_first().push(e));
        lemma_lookup_push(entries.drop_first(), e, u);
        if entries.first().user == u {
            assert(lookup_entry(entries.push(e), u) == Some(
                (entries.first().notified_at, entries.first().host_ids@),
            ));
            assert(lookup_entry(entries, u) == Some(
                (entries.first().notified_at, entries.first().host_ids@),
            ));
        }
    }
}

proof fn lemma_push_unique(entries: Seq<DebounceEntry>, e: DebounceEntry)
    requires
        entry_users_unique(entries),
        lookup_entry(entries, e.user) is None,
    ensures
        entry_users_unique(entries.push(e)),
{
    assert forall|i: int, j: int|
        0 <= i < j < entries.push(e).len() implies entries.push(e)[i].user != entries.push(
        e,
    )[j].user by {
        if j == entries.len() {
            if entries[i].user == e.user {
                lemma_lookup_covers(entries, i);
            }
        }
    }
}

/// Whether a warning naming `ids` should be sent at `now`, given what
/// was last sent to the user: always when nothing was sent before, and
/// otherwise only when the batch changed or the last warning is at least
/// a window old.
pub open spec fn should_send(
    prev: Option<(i64, Seq<HostId>)>,
    now: int,
    ids: Seq<HostId>,
    delay: int,
) -> bool {
    match prev {
        None => true,
        Some(p) => !(now - p.0 < delay && p.1 == ids),
    }
}

/// The warnings one sweep sends, given the debounce state `entries`, the
/// sweep's rows and the users `us` still to consider.
pub open spec fn sends_of(
    entries: Seq<DebounceEntry>,
    rows: Seq<LeasedHost>,
    us: Seq<UserId>,
    now: i64,
    delay: i64,
) -> Seq<(UserId, Seq<HostId>)>
    decreases us.len(),
{
    if us.len() == 0 {
        Seq::empty()
    } else {
        let rest = sends_of(entries, rows, us.drop_last(), now, delay);
        let u = us.last();
        let ids = user_soon_ids(rows, u);
        if should_send(lookup_entry(entries, u), now as int, ids, delay as int) {
            rest.push((u, ids))
        } else {
            rest
        }
    }
}

/// The warnings one sweep sends: one per owner of an expiring host whose
/// batch is new, changed, or older than the warning window.
pub open spec fn soon_sends(
    entries: Seq<DebounceEntry>,
    rows: Seq<LeasedHost>,
    now: i64,
    delay: i64,
) -> Seq<(UserId, Seq<HostId>)> {
    sends_of(entries, rows, user_order(rows), now, delay)
}

/// The release timer's in-process state: the per-user record of the last
/// expiration warning, and the warning window in seconds.
pub struct ReleaseTimer {
    pub last_expiration_soon_notification: Vec<DebounceEntry>,
    pub expiration_notify_delay_time: i64,
}

impl ReleaseTimer {
    /// The debounce entries.
    pub open spec fn entries(&self) -> Seq<DebounceEntry> {
        self.last_expiration_soon_notification@
    }

    /// Users are recorded at most once, and warning times are
    /// nonnegative timestamps.
    pub open spec fn wf(&self) -> bool {
        &&& entry_users_unique(self.entries())
        &&& self.expiration_notify_delay_time >= 0
        &&& forall|k: int|
            0 <= k < self.entries().len() ==> (#[trigger] self.entries()[k]).notified_at >= 0
    }

    /// A timer with an empty debounce record and the given warning
    /// window in seconds.
    pub fn new(expiration_notify_delay_time: i64) -> (r: ReleaseTimer)
        requires
            expiration_notify_delay_time >= 0,
        ensures
            r.wf(),
            r.entries().len() == 0,
            r.expiration_notify_delay_time == expiration_notify_delay_time,
    {
        ReleaseTimer {
            last_expiration_soon_notification: Vec::new(),
            expiration_notify_delay_time,
        }
    }

    /// Reclaim every host whose lease deadline lies before `now`,
    /// returning exactly the reclaimed rows joined with their former
    /// owners. A tick with nothing expired changes nothing.
    pub fn release(&self, registry: &mut Registry, now: i64) -> (r: Vec<LeasedHost>)
        requires
            old(registry).wf(),
        ensures
            final(registry).wf(),
            final(registry)@.users == old(registry)@.users,
            final(registry)@.groups == old(registry)@.groups,
            final(registry)@.lease_limits == old(registry)@.lease_limits,
            r@ == expiring_rows(old(registry)@.hosts, old(registry)@.users, now),
            final(registry)@.hosts == hosts_after_expiry(old(registry)@.hosts, now),
    {
        let ghost hosts0 = registry@.hosts;
        let expired = registry.get_leased_until_hosts(now);
        if expired.len() > 0 {
            let mut ids: Vec<HostId> = Vec::new();
            let n = expired.len();
            for i in 0..n
                invariant
                    n == expired.len(),
                    ids@ == row_ids(expired@.take(i as int)),
            {
                proof {
                    assert(expired@.take(i as int + 1).drop_last() =~= expired@.take(i as int));
                    assert(expired@.take(i as int + 1).last() == expired@[i as int]);
                }
                ids.push(expired[i].id);
            }
            proof {
                assert(expired@.take(n as int) =~= expired@);
                lemma_row_ids_expiring(hosts0, registry@.users, now);
            }
            registry.free_hosts(ids.as_slice());
            proof {
                assert forall|k: int|
                    0 <= k < hosts0.len() implies (ids@.contains(hosts0[k].id) <==> expires_before(
                    hosts0[k],
                    now,
                )) by {
                    lemma_expired_ids_membership(hosts0, now, k);
                }
                assert(registry@.hosts =~= hosts_after_expiry(hosts0, now));
            }
        } else {
            proof {
                assert forall|k: int|
                    0 <= k < hosts0.len() implies !expires_before(hosts0[k], now) by {
                    lemma_expiring_rows_empty(hosts0, registry@.users, now, k);
                }
                assert(registry@.hosts =~= hosts_after_expiry(hosts0, now));
            }
        }
        expired
    }
}

impl ReleaseTimer {
    /// Tell each former owner of the `released_hosts` once which of its
    /// hosts were reclaimed: one batched message per owner, never one
    /// per host. Returns the dispatched batches — owners in order of
    /// first appearance, each with the ascending identifiers of its
    /// reclaimed hosts. A delivery failure is non-fatal and does not
    /// undo the reclamation.
    pub fn notify_released_hosts<T: SendMessage>(
        &self,
        notifier: &mut Notifier<T>,
        registry: &Registry,
        released_hosts: &Vec<LeasedHost>,
    ) -> (sent: Vec<NotificationGroup>)
        requires
            registry.wf(),
        ensures
            group_users(sent@) == user_order(released_hosts@),
            forall|k: int|
                0 <= k < sent@.len() ==> (#[trigger] sent@[k]).host_ids@ == user_soon_ids(
                    released_hosts@,
                    sent@[k].user,
                ),
    {
        let groups = group_notifications(released_hosts);
        let n = groups.len();
        for j in 0..n
            invariant
                n == groups.len(),
                registry.wf(),
                group_users(groups@) == user_order(released_hosts@),
                forall|k: int|
                    0 <= k < groups@.len() ==> (#[trigger] groups@[k]).host_ids@ == user_soon_ids(
                        released_hosts@,
                        groups@[k].user,
                    ),
        {
            let ids = clone_ids(&groups[j].host_ids);
            let outcome = notifier.notify(
                registry,
                groups[j].user,
                &Notification::HostsReleased(ids),
                0,
            );
            if outcome.is_err() {
                // A user that cannot be told still loses the expired
                // lease; the failure is the transport's to report.
            }
        }
        groups
    }

    /// Warn each owner of a host whose lease deadline lies before
    /// `now` plus the warning window, skipping owners whose unchanged
    /// batch was already warned about within the window, and remember
    /// what was sent. Returns the warnings sent this sweep.
    pub fn notify_soon_release<T: SendMessage>(
        &mut self,
        notifier: &mut Notifier<T>,
        registry: &Registry,
        now: i64,
    ) -> (sent: Vec<NotificationGroup>)
        requires
            registry.wf(),
            old(self).wf(),
            now >= 0,
            now + old(self).expiration_notify_delay_time <= i64::MAX,
        ensures
            final(self).wf(),
            final(self).expiration_notify_delay_time == old(self).expiration_notify_delay_time,
            ({
                let delay = old(self).expiration_notify_delay_time;
                let rows = expiring_rows(
                    registry@.hosts,
                    registry@.users,
                    (now + delay) as i64,
                );
                &&& group_views(sent@) == soon_sends(old(self).entries(), rows, now, delay)
                &&& forall|u: UserId|
                    #![trigger lookup_entry(final(self).entries(), u)]
                    lookup_entry(final(self).entries(), u) == (if user_order(rows).contains(u)
                        && should_send(
                        lookup_entry(old(self).entries(), u),
                        now as int,
                        user_soon_ids(rows, u),
                        delay as int,
                    ) {
                        Some((now, user_soon_ids(rows, u)))
                    } else {
                        lookup_entry(old(self).entries(), u)
                    })
            }),
    {
        let ghost e0 = self.last_expiration_soon_notification@;
        let delay = self.expiration_notify_delay_time;
        let rows = registry.get_leased_until_hosts(now + delay);
        let ghost rv = rows@;
        let groups = group_notifications(&rows);
        proof {
            lemma_user_order_nodup(rv);
            lemma_group_views_len(groups@);
        }
        let mut sent: Vec<NotificationGroup> = Vec::new();
        let n = groups.len();
        for j in 0..n
            invariant
                n == groups.len(),
                registry.wf(),
                rv == rows@,
                rv == expiring_rows(registry@.hosts, registry@.users, (now + delay) as i64),
                now >= 0,
                delay >= 0,
                now + delay <= i64::MAX,
                self.expiration_notify_delay_time == delay,
                entry_users_unique(self.last_expiration_soon_notification@),
                forall|k: int|
                    0 <= k < self.last_expiration_soon_notification@.len() ==> (
                #[trigger] self.last_expiration_soon_notification@[k]).notified_at >= 0,
                group_users(groups@) == user_order(rv),
                user_order(rv).no_duplicates(),
                forall|k: int|
                    0 <= k < groups@.len() ==> (#[trigger] groups@[k]).host_ids@ == user_soon_ids(
                        rv,
                        groups@[k].user,
                    ),
                group_views(sent@) == sends_of(
                    e0,
                    rv,
                    group_users(groups@).take(j as int),
                    now,
                    delay,
                ),
                forall|u: UserId|
                    #![trigger lookup_entry(self.last_expiration_soon_notification@, u)]
                    #![trigger lookup_entry(e0, u)]
                    lookup_entry(self.last_expiration_soon_notification@, u) == (if group_users(
                        groups@,
                    ).take(j as int).contains(u) && should_send(
                        lookup_entry(e0, u),
                        now as int,
                        user_soon_ids(rv, u),
                        delay as int,
                    ) {
                        Some((now, user_soon_ids(rv, u)))
                    } else {
                        lookup_entry(e0, u)
                    }),
        {
            let u = groups[j].user;
            let ghost gu = group_users(groups@);
            proof {
                lemma_group_users_index(groups@, j as int);
                assert(gu.take(j as int + 1).drop_last() =~= gu.take(j as int));
                assert(gu.take(j as int + 1).last() == u);
                assert(!gu.take(j as int).contains(u)) by {
                    if gu.take(j as int).contains(u) {
                        let w = choose|w: int|
                            0 <= w < j && gu.take(j as int)[w] == u;
                        assert(gu[w] == gu[j as int]);
                    }
                }
                assert(lookup_entry(self.last_expiration_soon_notification@, u) == lookup_entry(
                    e0,
                    u,
                ));
            }
            let idx = find_entry(&self.last_expiration_soon_notification, u);
            let skip = match idx {
                Some(k) => {
                    proof {
                        lemma_lookup_found(self.last_expiration_soon_notification@, k as int);
                    }
                    now - self.last_expiration_soon_notification[k].notified_at < delay
                        && ids_match(
                        &groups[j].host_ids,
                        &self.last_expiration_soon_notification[k].host_ids,
                    )
                },
                None => {
                    proof {
                        lemma_lookup_none(self.last_expiration_soon_notification@, u);
                    }
                    false
                },
            };
            proof {
                assert(skip == !should_send(
                    lookup_entry(e0, u),
                    now as int,
                    user_soon_ids(rv, u),
                    delay as int,
                ));
            }
            if !skip {
                let ids = clone_ids(&groups[j].host_ids);
                proof {
                    assert forall|k2: int|
                        0 <= k2 < rows_with_ids(registry@.hosts, ids@).len() implies (
                    #[trigger] rows_with_ids(registry@.hosts, ids@)[k2]).leased_until is Some by {
                        lemma_rows_with_ids_elem(registry@.hosts, ids@, k2);
                        let h = rows_with_ids(registry@.hosts, ids@)[k2];
                        let w = choose|w: int|
                            0 <= w < registry@.hosts.len() && #[trigger] registry@.hosts[w] == h;
                        lemma_user_soon_ids_sub(rv, u, h.id);
                        lemma_row_ids_expiring(
                            registry@.hosts,
                            registry@.users,
                            (now + delay) as i64,
                        );
                        lemma_expired_ids_membership(registry@.hosts, (now + delay) as i64, w);
                    }
                }
                let outcome = notifier.notify(
                    registry,
                    u,
                    &Notification::ExpirationSoon(ids),
                    now,
                );
                if outcome.is_err() {
                    // A failed warning is logged by the embedding
                    // program; the debounce record still advances so the
                    // loop is not retried every tick.
                }
                let entry = DebounceEntry {
                    user: u,
                    notified_at: now,
                    host_ids: clone_ids(&groups[j].host_ids),
                };
                let ghost cur = self.last_expiration_soon_notification@;
                match idx {
                    Some(k) => {
                        proof {
                            lemma_lookup_update(cur, k as int, entry, u);
                        }
                        self.last_expiration_soon_notification.set(k, entry);
                        proof {
                            assert forall|u2: UserId|
                                #![trigger lookup_entry(self.last_expiration_soon_notification@, u2)]
                                u2 != u implies lookup_entry(
                                self.last_expiration_soon_notification@,
                                u2,
                            ) == lookup_entry(cur, u2) by {
                                lemma_lookup_update(cur, k as int, entry, u2);
                            }
                            assert(lookup_entry(self.last_expiration_soon_notification@, u)
                                == Some((now, user_soon_ids(rv, u))));
                        }
                    },
                    None => {
                        proof {
                            lemma_lookup_push(cur, entry, u);
                            lemma_lookup_none(cur, u);
                            lemma_push_unique(cur, entry);
                        }
                        self.last_expiration_soon_notification.push(entry);
                        proof {
                            assert forall|u2: UserId|
                                #![trigger lookup_entry(self.last_expiration_soon_notification@, u2)]
                                u2 != u implies lookup_entry(
                                self.last_expiration_soon_notification@,
                                u2,
                            ) == lookup_entry(cur, u2) by {
                                lemma_lookup_push(cur, entry, u2);
                            }
                            assert(lookup_entry(self.last_expiration_soon_notification@, u)
                                == Some((now, user_soon_ids(rv, u))));
                        }
                    },
                }
                let ghost old_sent = sent@;
                sent.push(NotificationGroup { user: u, host_ids: clone_ids(&groups[j].host_ids) });
                proof {
                    assert(sent@.drop_last() =~= old_sent);
                    assert(group_views(sent@) =~= sends_of(
                        e0,
                        rv,
                        gu.take(j as int + 1),
                        now,
                        delay,
                    ));
                }
            } else {
                proof {
                    assert(group_views(sent@) =~= sends_of(
                        e0,
                        rv,
                        gu.take(j as int + 1),
                        now,
                        delay,
                    ));
                }
            }
            proof {
                assert forall|u2: UserId|
                    #![trigger lookup_entry(self.last_expiration_soon_notification@, u2)]
                    lookup_entry(self.last_expiration_soon_notification@, u2) == (if gu.take(
                        j as int + 1,
                    ).contains(u2) && should_send(
                        lookup_entry(e0, u2),
                        now as int,
                        user_soon_ids(rv, u2),
                        delay as int,
                    ) {
                        Some((now, user_soon_ids(rv, u2)))
                    } else {
                        lookup_entry(e0, u2)
                    }) by {
                    assert(gu.take(j as int + 1)[j as int] == u);
                    assert((#[trigger] groups@[j as int]).host_ids@ == user_soon_ids(rv, u));
                    if u2 != u {
                        if gu.take(j as int + 1).contains(u2) {
                            let w = choose|w: int|
                                0 <= w < j + 1 && #[trigger] gu.take(j as int + 1)[w] == u2;
                            assert(gu.take(j as int)[w] == u2);
                        }
                        if gu.take(j as int).contains(u2) {
                            let w = choose|w: int|
                                0 <= w < j && #[trigger] gu.take(j as int)[w] == u2;
                            assert(gu.take(j as int + 1)[w] == u2);
                        }
                    }
                }
            }
        }
        proof {
            assert(group_users(groups@).take(n as int) =~= user_order(rv));
        }
        sent
    }

    /// One sweep: reclaim expired hosts and tell their former owners,
    /// then warn owners of soon-expiring hosts under the debounce.
    /// Returns the reclaimed rows and the warnings sent.
    pub fn tick<T: SendMessage>(
        &mut self,
        notifier: &mut Notifier<T>,
        registry: &mut Registry,
        now: i64,
    ) -> (r: (Vec<LeasedHost>, Vec<NotificationGroup>))
        requires
            old(registry).wf(),
            old(self).wf(),
            now >= 0,
            now + old(self).expiration_notify_delay_time <= i64::MAX,
        ensures
            final(registry).wf(),
            final(self).wf(),
            final(self).expiration_notify_delay_time == old(self).expiration_notify_delay_time,
            final(registry)@.users == old(registry)@.users,
            final(registry)@.groups == old(registry)@.groups,
            final(registry)@.lease_limits == old(registry)@.lease_limits,
            final(registry)@.hosts == hosts_after_expiry(old(registry)@.hosts, now),
            r.0@ == expiring_rows(old(registry)@.hosts, old(registry)@.users, now),
            ({
                let delay = old(self).expiration_notify_delay_time;
                let rows = expiring_rows(
                    hosts_after_expiry(old(registry)@.hosts, now),
                    old(registry)@.users,
                    (now + delay) as i64,
                );
                &&& group_views(r.1@) == soon_sends(old(self).entries(), rows, now, delay)
                &&& forall|u: UserId|
                    #![trigger lookup_entry(final(self).entries(), u)]
                    lookup_entry(final(self).entries(), u) == (if user_order(rows).contains(u)
                        && should_send(
                        lookup_entry(old(self).entries(), u),
                        now as int,
                        user_soon_ids(rows, u),
                        delay as int,
                    ) {
                        Some((now, user_soon_ids(rows, u)))
                    } else {
                        lookup_entry(old(self).entries(), u)
                    })
            }),
    {
        let released = self.release(registry, now);
        if released.len() > 0 {
            self.notify_released_hosts(notifier, registry, &released);
        }
        let warned = self.notify_soon_release(notifier, registry, now);
        (released, warned)
    }
}

/// Whether two identifier lists hold the same identifiers in the same
/// order.
fn ids_match(a: &Vec<HostId>, b: &Vec<HostId>) -> (r: bool)
    ensures
        r == (a@ == b@),
{
    if a.len() != b.len() {
        proof {
            assert(a@ != b@);
        }
        return false;
    }
    let n = a.len();
    for i in 0..n
        invariant
            n == a.len(),
            n == b.len(),
            forall|k: int| 0 <= k < i ==> a@[k] == b@[k],
    {
        if a[i].0 != b[i].0 {
            proof {
                assert(a@[i as int] != b@[i as int]);
            }
            return false;
        }
    }
    proof {
        assert(a@ =~= b@);
    }
    true
}

/// The index of the debounce entry of user `u`, if one exists.
fn find_entry(entries: &Vec<DebounceEntry>, u: UserId) -> (r: Option<usize>)
    ensures
        match r {
            Some(k) => k < entries@.len() && entries@[k as int].user == u && forall|k2: int|
                0 <= k2 < k ==> (#[trigger] entries@[k2]).user != u,
            None => forall|k: int| 0 <= k < entries@.len() ==> (#[trigger] entries@[k]).user != u,
        },
{
    let n = entries.len();
    for i in 0..n
        invariant
            n == entries.len(),
            forall|k: int| 0 <= k < i ==> (#[trigger] entries@[k]).user != u,
    {
        if entries[i].user == u {
            return Some(i);
        }
    }
    None
}

/// Copy a list of host identifiers.
fn clone_ids(v: &Vec<HostId>) -> (r: Vec<HostId>)
    ensures
        r@ == v@,
{
    let mut r: Vec<HostId> = Vec::new();
    let n = v.len();
    for i in 0..n
        invariant
            n == v.len(),
            r@ == v@.take(i as int),
    {
        r.push(v[i]);
        proof {
            assert(v@.take(i as int + 1) =~= v@.take(i as int).push(v@[i as int]));
        }
    }
    proof {
        assert(v@.take(n as int) =~= v@);
    }
    r
}

/// Group a sweep's rows per owning user: owners in order of first
/// appearance, each batch listing its host identifiers in ascending
/// order.
pub fn group_notifications(rows: &Vec<LeasedHost>) -> (groups: Vec<NotificationGroup>)
    ensures
        group_users(groups@) == user_order(rows@),
        forall|k: int|
            0 <= k < groups@.len() ==> (#[trigger] groups@[k]).host_ids@ == user_soon_ids(
                rows@,
                groups@[k].user,
            ),
{
    let ghost rv = rows@;
    let mut groups: Vec<NotificationGroup> = Vec::new();
    let n = rows.len();
    for i in 0..n
        invariant
            n == rows.len(),
            rv == rows@,
            group_users(groups@) == user_order(rv.take(i as int)),
            forall|k: int|
                0 <= k < groups@.len() ==> (#[trigger] groups@[k]).host_ids@ == user_soon_ids(
                    rv.take(i as int),
                    groups@[k].user,
                ),
    {
        proof {
            assert(rv.take(i as int + 1).drop_last() =~= rv.take(i as int));
            assert(rv.take(i as int + 1).last() == rv[i as int]);
            lemma_user_order_nodup(rv.take(i as int));
            lemma_group_views_len(groups@);
        }
        let u = rows[i].user.id;
        let idx = find_group(&groups, u);
        match idx {
            Some(j) => {
                proof {
                    lemma_group_users_index(groups@, j as int);
                    assert(user_order(rv.take(i as int)).contains(u)) by {
                        assert(group_users(groups@)[j as int] == u);
                    }
                    lemma_user_soon_ids_sorted(rv.take(i as int), u);
                }
                let new_ids = insert_id_sorted(&groups[j].host_ids, rows[i].id);
                let ghost old_groups = groups@;
                groups.set(j, NotificationGroup { user: u, host_ids: new_ids });
                proof {
                    assert(group_users(groups@) =~= group_users(old_groups)) by {
                        lemma_group_users_pointwise(old_groups, groups@);
                    }
                    assert forall|k: int|
                        0 <= k < groups@.len() implies (#[trigger] groups@[k]).host_ids@
                        == user_soon_ids(rv.take(i as int + 1), groups@[k].user) by {
                        lemma_group_users_index(old_groups, k);
                        lemma_group_users_index(old_groups, j as int);
                        if k != j {
                            assert(groups@[k] == old_groups[k]);
                            assert(old_groups[k].user != u);
                        }
                    }
                }
            },
            None => {
                proof {
                    assert(!user_order(rv.take(i as int)).contains(u)) by {
                        if user_order(rv.take(i as int)).contains(u) {
                            let w = choose|w: int|
                                0 <= w < user_order(rv.take(i as int)).len() && user_order(
                                    rv.take(i as int),
                                )[w] == u;
                            lemma_group_users_index(groups@, w);
                        }
                    }
                    lemma_user_soon_ids_absent(rv.take(i as int), u);
                }
                let ghost old_groups = groups@;
                groups.push(NotificationGroup { user: u, host_ids: vec![rows[i].id] });
                proof {
                    assert(groups@.drop_last() =~= old_groups);
                    assert(group_users(groups@) =~= user_order(rv.take(i as int + 1)));
                    assert forall|k: int|
                        0 <= k < groups@.len() implies (#[trigger] groups@[k]).host_ids@
                        == user_soon_ids(rv.take(i as int + 1), groups@[k].user) by {
                        if k < old_groups.len() {
                            lemma_group_users_index(old_groups, k);
                            assert(groups@[k] == old_groups[k]);
                            assert(user_order(rv.take(i as int)).contains(old_groups[k].user))
                                by {
                                assert(group_users(old_groups)[k] == old_groups[k].user);
                            }
                            assert(old_groups[k].user != u);
                        } else {
                            assert(groups@[k].host_ids@ =~= seq![rv[i as int].id]);
                            assert(user_soon_ids(rv.take(i as int + 1), u) == insert_sorted(
                                Seq::<HostId>::empty(),
                                rv[i as int].id,
                            ));
                            assert(insert_sorted(Seq::<HostId>::empty(), rv[i as int].id)
                                =~= seq![rv[i as int].id]);
                        }
                    }
                }
            },
        }
    }
    proof {
        assert(rv.take(n as int) =~= rv);
    }
    groups
}

/// Users of two group lists with pointwise-equal users are equal.
proof fn lemma_group_users_pointwise(a: Seq<NotificationGroup>, b: Seq<NotificationGroup>)
    requires
        a.len() == b.len(),
        forall|k: int| 0 <= k < a.len() ==> (#[trigger] a[k]).user == b[k].user,
    ensures
        group_users(a) == group_users(b),
    decreases a.len(),
{
    if a.len() > 0 {
        assert forall|k: int|
            0 <= k < a.drop_last().len() implies (#[trigger] a.drop_last()[k]).user
            == b.drop_last()[k].user by {
            assert(a.drop_last()[k] == a[k]);
            assert(b.drop_last()[k] == b[k]);
        }
        lemma_group_users_pointwise(a.drop_last(), b.drop_last());
    }
}

/// The index of the group of user `u`, if one exists.
fn find_group(groups: &Vec<NotificationGroup>, u: UserId) -> (r: Option<usize>)
    ensures
        match r {
            Some(j) => j < groups@.len() && groups@[j as int].user == u,
            None => forall|k: int| 0 <= k < groups@.len() ==> (#[trigger] groups@[k]).user != u,
        },
{
    let n = groups.len();
    for i in 0..n
        invariant
            n == groups.len(),
            forall|k: int| 0 <= k < i ==> (#[trigger] groups@[k]).user != u,
    {
        if groups[i].user == u {
            return Some(i);
        }
    }
    None
}

/// Insert `x` into the nondecreasing list `v`, keeping the order.
fn insert_id_sorted(v: &Vec<HostId>, x: HostId) -> (r: Vec<HostId>)
    requires
        sorted_ids(v@),
    ensures
        r@ == insert_sorted(v@, x),
{
    let n = v.len();
    let mut r: Vec<HostId> = Vec::new();
    let mut p: usize = 0;
    while p < n && v[p].0 <= x.0
        invariant
            n == v.len(),
            0 <= p <= n,
            forall|k: int| 0 <= k < p ==> (#[trigger] v@[k]).0 <= x.0,
        decreases n - p,
    {
        p += 1;
    }
    for i in 0..p
        invariant
            p <= n,
            n == v.len(),
            r@ == v@.take(i as int),
    {
        r.push(v[i]);
        proof {
            assert(v@.take(i as int + 1) =~= v@.take(i as int).push(v@[i as int]));
        }
    }
    r.push(x);
    for i in p..n
        invariant
            p <= n,
            n == v.len(),
            r@ == v@.take(p as int) + seq![x] + v@.subrange(p as int, i as int),
    {
        r.push(v[i]);
        proof {
            assert(v@.subrange(p as int, i as int + 1) =~= v@.subrange(p as int, i as int).push(
                v@[i as int],
            ));
            assert((v@.take(p as int) + seq![x] + v@.subrange(p as int, i as int)).push(
                v@[i as int],
            ) =~= v@.take(p as int) + seq![x] + v@.subrange(p as int, i as int + 1));
        }
    }
    proof {
        assert(forall|k: int| p <= k < n ==> (#[trigger] v@[k]).0 > x.0) by {
            assert forall|k: int| p <= k < n implies (#[trigger] v@[k]).0 > x.0 by {
                if k == p {
                } else {
                    assert(v@[p as int].0 <= v@[k].0);
                }
            }
        }
        lemma_insert_sorted_split(v@, x, p as int);
        assert(v@.skip(p as int) =~= v@.subrange(p as int, n as int));
        assert(r@ =~= v@.take(p as int) + seq![x] + v@.skip(p as int));
    }
    r
}

} // verus!
