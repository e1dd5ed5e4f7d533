//! The resource store: host, user, group and lease-limit rows, with the
//! read and write operations the lease manager and the release timer need.
//!
//! Every operation keeps the store well formed: host and user identifiers
//! are unique, every host is either free or leased with a deadline
//! ([`crate::models::host_wf`]), and every owner recorded on a host refers
//! to an existing user, so leased rows can always be joined with their
//! owner.

use vstd::prelude::*;

use crate::models::{
    expires_before, host_free, host_wf, owned_by, AdGroupLeaseLimit, Group, GroupId, Host,
    HostId, LeasedHost, User, UserId,
};

verus! {

/// A constraint violation, mirroring what a relational store would reject.
#[derive(Clone, Copy, PartialEq, Eq, Structural, Debug)]
pub enum DbError {
    /// A row with this identifier already exists.
    DuplicateId,
    /// The owner recorded on a host row does not refer to any user.
    UnknownUser,
    /// The row breaks the free-or-leased shape of a host.
    InvalidRow,
    /// No fresh identifier can be generated.
    IdsExhausted,
}

/// The abstract contents of the store.
pub ghost struct RegistryContents {
    pub hosts: Seq<Host>,
    pub users: Seq<User>,
    pub groups: Seq<Group>,
    pub lease_limits: Seq<AdGroupLeaseLimit>,
}

/// Some host row carries identifier `id`.
pub open spec fn has_host(hosts: Seq<Host>, id: HostId) -> bool {
    exists|i: int| 0 <= i < hosts.len() && hosts[i].id == id
}

/// The host row carrying identifier `id` (meaningful when unique).
pub open spec fn host_with_id(hosts: Seq<Host>, id: HostId) -> Host {
    hosts[choose|i: int| 0 <= i < hosts.len() && hosts[i].id == id]
}

/// Some user row carries identifier `u`.
pub open spec fn has_user(users: Seq<User>, u: UserId) -> bool {
    exists|i: int| 0 <= i < users.len() && users[i].id == u
}

/// The user row carrying identifier `u` (meaningful when unique).
pub open spec fn user_for(users: Seq<User>, u: UserId) -> User {
    users[choose|i: int| 0 <= i < users.len() && users[i].id == u]
}

/// Host identifiers are pairwise distinct.
pub open spec fn host_ids_unique(hosts: Seq<Host>) -> bool {
    forall|i: int, j: int| 0 <= i < j < hosts.len() ==> hosts[i].id != hosts[j].id
}

/// User identifiers are pairwise distinct.
pub open spec fn user_ids_unique(users: Seq<User>) -> bool {
    forall|i: int, j: int| 0 <= i < j < users.len() ==> users[i].id != users[j].id
}

/// Every owner recorded on a host refers to an existing user.
pub open spec fn owners_exist(hosts: Seq<Host>, users: Seq<User>) -> bool {
    forall|i: int|
        0 <= i < hosts.len() && (#[trigger] hosts[i]).user_id is Some ==> has_user(
            users,
            hosts[i].user_id->0,
        )
}

/// The rows are in ascending address order (the listings' order).
pub open spec fn hosts_sorted_by_ip(hosts: Seq<Host>) -> bool {
    forall|i: int, j: int|
        0 <= i < j < hosts.len() ==> hosts[i].ip_address <= hosts[j].ip_address
}

/// Well-formedness of the whole store.
pub open spec fn registry_wf(v: RegistryContents) -> bool {
    &&& host_ids_unique(v.hosts)
    &&& user_ids_unique(v.users)
    &&& forall|i: int| 0 <= i < v.hosts.len() ==> host_wf(#[trigger] v.hosts[i])
    &&& owners_exist(v.hosts, v.users)
    &&& hosts_sorted_by_ip(v.hosts)
}

/// `s` with `h` placed after every row whose address is not greater: the
/// store keeps its rows in ascending address order.
pub open spec fn insert_host_by_ip(s: Seq<Host>, h: Host) -> Seq<Host>
    decreases s.len(),
{
    if s.len() == 0 {
        seq![h]
    } else if s.last().ip_address <= h.ip_address {
        s.push(h)
    } else {
        insert_host_by_ip(s.drop_last(), h).push(s.last())
    }
}

/// Where the ordered insert places the new row in a sorted table.
proof fn lemma_insert_host_split(s: Seq<Host>, h: Host, p: int)
    requires
        hosts_sorted_by_ip(s),
        0 <= p <= s.len(),
        forall|k: int| 0 <= k < p ==> (#[trigger] s[k]).ip_address <= h.ip_address,
        forall|k: int| p <= k < s.len() ==> (#[trigger] s[k]).ip_address > h.ip_address,
    ensures
        insert_host_by_ip(s, h) == s.take(p) + seq![h] + s.skip(p),
    decreases s.len(),
{
    if s.len() == 0 {
        assert(insert_host_by_ip(s, h) =~= s.take(p) + seq![h] + s.skip(p));
    } else if s.last().ip_address <= h.ip_address {
        assert(p == s.len());
        assert(insert_host_by_ip(s, h) =~= s.take(p) + seq![h] + s.skip(p));
    } else {
        assert(p < s.len());
        assert(hosts_sorted_by_ip(s.drop_last())) by {
            assert forall|i: int, j: int|
                0 <= i < j < s.drop_last().len() implies (#[trigger] s.drop_last()[i]).ip_address
                <= (#[trigger] s.drop_last()[j]).ip_address by {
                assert(s.drop_last()[i] == s[i]);
                assert(s.drop_last()[j] == s[j]);
            }
        }
        lemma_insert_host_split(s.drop_last(), h, p);
        assert(insert_host_by_ip(s, h) =~= s.take(p) + seq![h] + s.skip(p));
    }
}

/// The leased-host row for `h`, joined with its owning user.
pub open spec fn leased_join(users: Seq<User>, h: Host) -> LeasedHost {
    LeasedHost {
        id: h.id,
        hostname: h.hostname,
        ip_address: h.ip_address,
        leased_until: h.leased_until->0,
        user: user_for(users, h.user_id->0),
    }
}

/// The hosts without an owner, in table order.
pub open spec fn available_rows(hosts: Seq<Host>) -> Seq<Host>
    decreases hosts.len(),
{
    if hosts.len() == 0 {
        Seq::empty()
    } else {
        let rest = available_rows(hosts.drop_last());
        if host_free(hosts.last()) {
            rest.push(hosts.last())
        } else {
            rest
        }
    }
}

/// The hosts of group `gid` without an owner, in table order.
pub open spec fn available_group_rows(hosts: Seq<Host>, gid: GroupId) -> Seq<Host>
    decreases hosts.len(),
{
    if hosts.len() == 0 {
        Seq::empty()
    } else {
        let rest = available_group_rows(hosts.drop_last(), gid);
        if host_free(hosts.last()) && hosts.last().group_id == gid {
            rest.push(hosts.last())
        } else {
            rest
        }
    }
}

/// An available row is one of the table's rows.
proof fn lemma_available_rows_from(hosts: Seq<Host>, k: int)
    requires
        0 <= k < available_rows(hosts).len(),
    ensures
        exists|w: int| 0 <= w < hosts.len() && #[trigger] hosts[w] == available_rows(hosts)[k],
    decreases hosts.len(),
{
    if hosts.len() > 0 {
        let rest = available_rows(hosts.drop_last());
        if host_free(hosts.last()) && k == rest.len() {
            assert(hosts[hosts.len() - 1] == available_rows(hosts)[k]);
        } else {
            lemma_available_rows_from(hosts.drop_last(), k);
            let w = choose|w: int|
                0 <= w < hosts.drop_last().len() && #[trigger] hosts.drop_last()[w] == rest[k];
            assert(hosts[w] == available_rows(hosts)[k]);
        }
    }
}

/// Filtering a sorted table keeps the rows in ascending address order.
proof fn lemma_available_rows_sorted(hosts: Seq<Host>)
    requires
        hosts_sorted_by_ip(hosts),
    ensures
        hosts_sorted_by_ip(available_rows(hosts)),
    decreases hosts.len(),
{
    if hosts.len() > 0 {
        assert(hosts_sorted_by_ip(hosts.drop_last())) by {
            assert forall|i: int, j: int|
                0 <= i < j < hosts.drop_last().len() implies (#[trigger] hosts.drop_last()[i]).ip_address
                <= (#[trigger] hosts.drop_last()[j]).ip_address by {
                assert(hosts.drop_last()[i] == hosts[i]);
                assert(hosts.drop_last()[j] == hosts[j]);
            }
        }
        lemma_available_rows_sorted(hosts.drop_last());
        let rest = available_rows(hosts.drop_last());
        if host_free(hosts.last()) {
            assert forall|i: int, j: int|
                0 <= i < j < available_rows(hosts).len() implies (
            #[trigger] available_rows(hosts)[i]).ip_address <= (
            #[trigger] available_rows(hosts)[j]).ip_address by {
                if j == rest.len() {
                    lemma_available_rows_from(hosts.drop_last(), i);
                    let w = choose|w: int|
                        0 <= w < hosts.drop_last().len() && #[trigger] hosts.drop_last()[w]
                            == rest[i];
                    assert(hosts[w].ip_address <= hosts[hosts.len() - 1].ip_address);
                }
            }
        }
    }
}

/// A group's available row is one of the table's rows.
proof fn lemma_available_group_rows_from(hosts: Seq<Host>, gid: GroupId, k: int)
    requires
        0 <= k < available_group_rows(hosts, gid).len(),
    ensures
        exists|w: int|
            0 <= w < hosts.len() && #[trigger] hosts[w] == available_group_rows(hosts, gid)[k],
    decreases hosts.len(),
{
    if hosts.len() > 0 {
        let rest = available_group_rows(hosts.drop_last(), gid);
        if host_free(hosts.last()) && hosts.last().group_id == gid && k == rest.len() {
            assert(hosts[hosts.len() - 1] == available_group_rows(hosts, gid)[k]);
        } else {
            lemma_available_group_rows_from(hosts.drop_last(), gid, k);
            let w = choose|w: int|
                0 <= w < hosts.drop_last().len() && #[trigger] hosts.drop_last()[w] == rest[k];
            assert(hosts[w] == available_group_rows(hosts, gid)[k]);
        }
    }
}

/// Filtering a sorted table to one group keeps ascending address order.
proof fn lemma_available_group_rows_sorted(hosts: Seq<Host>, gid: GroupId)
    requires
        hosts_sorted_by_ip(hosts),
    ensures
        hosts_sorted_by_ip(available_group_rows(hosts, gid)),
    decreases hosts.len(),
{
    if hosts.len() > 0 {
        assert(hosts_sorted_by_ip(hosts.drop_last())) by {
            assert forall|i: int, j: int|
                0 <= i < j < hosts.drop_last().len() implies (#[trigger] hosts.drop_last()[i]).ip_address
                <= (#[trigger] hosts.drop_last()[j]).ip_address by {
                assert(hosts.drop_last()[i] == hosts[i]);
                assert(hosts.drop_last()[j] == hosts[j]);
            }
        }
        lemma_available_group_rows_sorted(hosts.drop_last(), gid);
        let rest = available_group_rows(hosts.drop_last(), gid);
        if host_free(hosts.last()) && hosts.last().group_id == gid {
            assert forall|i: int, j: int|
                0 <= i < j < available_group_rows(hosts, gid).len() implies (
            #[trigger] available_group_rows(hosts, gid)[i]).ip_address <= (
            #[trigger] available_group_rows(hosts, gid)[j]).ip_address by {
                if j == rest.len() {
                    lemma_available_group_rows_from(hosts.drop_last(), gid, i);
                    let w = choose|w: int|
                        0 <= w < hosts.drop_last().len() && #[trigger] hosts.drop_last()[w]
                            == rest[i];
                    assert(hosts[w].ip_address <= hosts[hosts.len() - 1].ip_address);
                }
            }
        }
    }
}

/// The hosts whose identifier occurs in `ids`, in table order.
pub open spec fn rows_with_ids(hosts: Seq<Host>, ids: Seq<HostId>) -> Seq<Host>
    decreases hosts.len(),
{
    if hosts.len() == 0 {
        Seq::empty()
    } else {
        let rest = rows_with_ids(hosts.drop_last(), ids);
        if ids.contains(hosts.last().id) {
            rest.push(hosts.last())
        } else {
            rest
        }
    }
}

/// The lease listing's order: earlier deadline first, smaller address
/// on ties.
pub open spec fn lease_key_le(a: LeasedHost, b: LeasedHost) -> bool {
    a.leased_until < b.leased_until || (a.leased_until == b.leased_until && a.ip_address
        <= b.ip_address)
}

/// The rows are ordered by deadline, then address.
pub open spec fn leased_sorted(s: Seq<LeasedHost>) -> bool {
    forall|i: int, j: int| 0 <= i < j < s.len() ==> lease_key_le(#[trigger] s[i], #[trigger] s[j])
}

/// `s` with `x` placed after every row not ordered after it.
pub open spec fn insert_leased(s: Seq<LeasedHost>, x: LeasedHost) -> Seq<LeasedHost>
    decreases s.len(),
{
    if s.len() == 0 {
        seq![x]
    } else if lease_key_le(s.last(), x) {
        s.push(x)
    } else {
        insert_leased(s.drop_last(), x).push(s.last())
    }
}

/// The rows leased by `u`, joined with the user, ordered by deadline,
/// then address.
pub open spec fn leased_rows_ordered(hosts: Seq<Host>, users: Seq<User>, u: UserId) -> Seq<
    LeasedHost,
>
    decreases hosts.len(),
{
    if hosts.len() == 0 {
        Seq::empty()
    } else {
        let rest = leased_rows_ordered(hosts.drop_last(), users, u);
        if owned_by(hosts.last(), u) {
            insert_leased(rest, leased_join(users, hosts.last()))
        } else {
            rest
        }
    }
}

proof fn lemma_insert_leased_len(s: Seq<LeasedHost>, x: LeasedHost)
    ensures
        insert_leased(s, x).len() == s.len() + 1,
    decreases s.len(),
{
    if s.len() > 0 && !lease_key_le(s.last(), x) {
        lemma_insert_leased_len(s.drop_last(), x);
    }
}

proof fn lemma_insert_leased_contains(s: Seq<LeasedHost>, x: LeasedHost, y: LeasedHost)
    ensures
        insert_leased(s, x).contains(y) <==> (s.contains(y) || y == x),
    decreases s.len(),
{
    let r = insert_leased(s, x);
    if s.len() == 0 {
        assert(r =~= seq![x]);
        if y == x {
            assert(r[0] == y);
        }
        if r.contains(y) {
            let w = choose|w: int| 0 <= w < r.len() && r[w] == y;
        }
    } else if lease_key_le(s.last(), x) {
        assert(r == s.push(x));
        if s.contains(y) {
            let w = choose|w: int| 0 <= w < s.len() && s[w] == y;
            assert(r[w] == y);
        }
        if y == x {
            assert(r[s.len() as int] == y);
        }
        if r.contains(y) {
            let w = choose|w: int| 0 <= w < r.len() && r[w] == y;
            if w < s.len() {
                assert(s[w] == y);
            }
        }
    } else {
        lemma_insert_leased_contains(s.drop_last(), x, y);
        let inner = insert_leased(s.drop_last(), x);
        assert(r == inner.push(s.last()));
        if r.contains(y) {
            let w = choose|w: int| 0 <= w < r.len() && r[w] == y;
            if w < inner.len() {
                assert(inner[w] == y);
                if s.drop_last().contains(y) {
                    let v = choose|v: int| 0 <= v < s.drop_last().len() && s.drop_last()[v] == y;
                    assert(s[v] == y);
                }
            } else {
                assert(s[s.len() - 1] == y);
            }
        }
        if s.contains(y) {
            let w = choose|w: int| 0 <= w < s.len() && s[w] == y;
            if w < s.len() - 1 {
                assert(s.drop_last()[w] == y);
                assert(inner.contains(y));
                let v = choose|v: int| 0 <= v < inner.len() && inner[v] == y;
                assert(r[v] == y);
            } else {
                assert(r[r.len() - 1] == y);
            }
        }
        if y == x {
            assert(inner.contains(y));
            let v = choose|v: int| 0 <= v < inner.len() && inner[v] == y;
            assert(r[v] == y);
        }
    }
}

proof fn lemma_insert_leased_sorted(s: Seq<LeasedHost>, x: LeasedHost)
    requires
        leased_sorted(s),
    ensures
        leased_sorted(insert_leased(s, x)),
    decreases s.len(),
{
    let r = insert_leased(s, x);
    if s.len() == 0 {
    } else if lease_key_le(s.last(), x) {
        assert forall|i: int, j: int|
            0 <= i < j < r.len() implies lease_key_le(#[trigger] r[i], #[trigger] r[j]) by {
            if j == s.len() {
                if i < s.len() - 1 {
                    assert(lease_key_le(s[i], s[s.len() - 1]));
                }
            }
        }
    } else {
        assert(leased_sorted(s.drop_last())) by {
            assert forall|i: int, j: int|
                0 <= i < j < s.drop_last().len() implies lease_key_le(
                #[trigger] s.drop_last()[i],
                #[trigger] s.drop_last()[j],
            ) by {
                assert(s.drop_last()[i] == s[i]);
                assert(s.drop_last()[j] == s[j]);
            }
        }
        lemma_insert_leased_sorted(s.drop_last(), x);
        let inner = insert_leased(s.drop_last(), x);
        assert forall|i: int, j: int|
            0 <= i < j < r.len() implies lease_key_le(#[trigger] r[i], #[trigger] r[j]) by {
            if j == inner.len() {
                assert(inner.contains(inner[i]));
                lemma_insert_leased_contains(s.drop_last(), x, inner[i]);
                if s.drop_last().contains(inner[i]) {
                    let w = choose|w: int| 0 <= w < s.drop_last().len() && s.drop_last()[w]
                        == inner[i];
                    assert(lease_key_le(s[w], s[s.len() - 1]));
                }
            }
        }
    }
}

/// The ordered lease listing is ordered and counts the held rows.
pub proof fn lemma_leased_rows_ordered_props(hosts: Seq<Host>, users: Seq<User>, u: UserId)
    ensures
        leased_sorted(leased_rows_ordered(hosts, users, u)),
        leased_rows_ordered(hosts, users, u).len() == leased_count(hosts, u),
    decreases hosts.len(),
{
    if hosts.len() > 0 {
        lemma_leased_rows_ordered_props(hosts.drop_last(), users, u);
        if owned_by(hosts.last(), u) {
            let rest = leased_rows_ordered(hosts.drop_last(), users, u);
            lemma_insert_leased_sorted(rest, leased_join(users, hosts.last()));
            lemma_insert_leased_len(rest, leased_join(users, hosts.last()));
        }
    }
}

/// Where the ordered insert places the new row in an ordered listing.
proof fn lemma_insert_leased_split(s: Seq<LeasedHost>, x: LeasedHost, p: int)
    requires
        leased_sorted(s),
        0 <= p <= s.len(),
        forall|k: int| 0 <= k < p ==> lease_key_le(#[trigger] s[k], x),
        forall|k: int| p <= k < s.len() ==> !lease_key_le(#[trigger] s[k], x),
    ensures
        insert_leased(s, x) == s.take(p) + seq![x] + s.skip(p),
    decreases s.len(),
{
    if s.len() == 0 {
        assert(insert_leased(s, x) =~= s.take(p) + seq![x] + s.skip(p));
    } else if lease_key_le(s.last(), x) {
        assert(p == s.len());
        assert(insert_leased(s, x) =~= s.take(p) + seq![x] + s.skip(p));
    } else {
        assert(p < s.len());
        assert(leased_sorted(s.drop_last())) by {
            assert forall|i: int, j: int|
                0 <= i < j < s.drop_last().len() implies lease_key_le(
                #[trigger] s.drop_last()[i],
                #[trigger] s.drop_last()[j],
            ) by {
                assert(s.drop_last()[i] == s[i]);
                assert(s.drop_last()[j] == s[j]);
            }
        }
        lemma_insert_leased_split(s.drop_last(), x, p);
        assert(insert_leased(s, x) =~= s.take(p) + seq![x] + s.skip(p));
    }
}

/// How many rows are leased by `u`.
pub open spec fn leased_count(hosts: Seq<Host>, u: UserId) -> nat
    decreases hosts.len(),
{
    if hosts.len() == 0 {
        0
    } else {
        leased_count(hosts.drop_last(), u) + if owned_by(hosts.last(), u) {
            1nat
        } else {
            0nat
        }
    }
}

/// The leased rows whose identifier occurs in `ids`, joined with their
/// users, in table order.
pub open spec fn leased_rows_with_ids(
    hosts: Seq<Host>,
    users: Seq<User>,
    ids: Seq<HostId>,
) -> Seq<LeasedHost>
    decreases hosts.len(),
{
    if hosts.len() == 0 {
        Seq::empty()
    } else {
        let rest = leased_rows_with_ids(hosts.drop_last(), users, ids);
        if ids.contains(hosts.last().id) && hosts.last().user_id is Some {
            rest.push(leased_join(users, hosts.last()))
        } else {
            rest
        }
    }
}

/// The rows whose lease deadline lies strictly before `t`, joined with
/// their users, in table order.
pub open spec fn expiring_rows(hosts: Seq<Host>, users: Seq<User>, t: i64) -> Seq<LeasedHost>
    decreases hosts.len(),
{
    if hosts.len() == 0 {
        Seq::empty()
    } else {
        let rest = expiring_rows(hosts.drop_last(), users, t);
        if expires_before(hosts.last(), t) {
            rest.push(leased_join(users, hosts.last()))
        } else {
            rest
        }
    }
}

/// The first free host of group `gid` among those with the smallest
/// address: the deterministic pick for a random-lease request.
pub open spec fn pick_available(hosts: Seq<Host>, gid: GroupId) -> Option<Host>
    decreases hosts.len(),
{
    if hosts.len() == 0 {
        None
    } else {
        let prev = pick_available(hosts.drop_last(), gid);
        let h = hosts.last();
        if host_free(h) && h.group_id == gid {
            match prev {
                None => Some(h),
                Some(b) => if h.ip_address < b.ip_address {
                    Some(h)
                } else {
                    Some(b)
                },
            }
        } else {
            prev
        }
    }
}

/// `h` leased to `u` until `until`.
pub open spec fn lease_mark(h: Host, u: UserId, until: i64) -> Host {
    Host { user_id: Some(u), leased_until: Some(until), ..h }
}

/// `h` with owner and deadline cleared.
pub open spec fn lease_clear(h: Host) -> Host {
    Host { user_id: None, leased_until: None, ..h }
}

/// The host table after leasing every row whose identifier is in `ids`
/// to `u` until `until`.
pub open spec fn hosts_after_lease(
    hosts: Seq<Host>,
    ids: Seq<HostId>,
    u: UserId,
    until: i64,
) -> Seq<Host> {
    Seq::new(
        hosts.len(),
        |i: int|
            if ids.contains(hosts[i].id) {
                lease_mark(hosts[i], u, until)
            } else {
                hosts[i]
            },
    )
}

/// The host table after freeing every row whose identifier is in `ids`
/// and whose owner is `u`.
pub open spec fn hosts_after_free_for_user(
    hosts: Seq<Host>,
    ids: Seq<HostId>,
    u: UserId,
) -> Seq<Host> {
    Seq::new(
        hosts.len(),
        |i: int|
            if ids.contains(hosts[i].id) && owned_by(hosts[i], u) {
                lease_clear(hosts[i])
            } else {
                hosts[i]
            },
    )
}

/// The host table after freeing every row whose identifier is in `ids`.
pub open spec fn hosts_after_free(hosts: Seq<Host>, ids: Seq<HostId>) -> Seq<Host> {
    Seq::new(
        hosts.len(),
        |i: int|
            if ids.contains(hosts[i].id) {
                lease_clear(hosts[i])
            } else {
                hosts[i]
            },
    )
}

/// The host table after freeing every row owned by `u`.
pub open spec fn hosts_after_free_all(hosts: Seq<Host>, u: UserId) -> Seq<Host> {
    Seq::new(
        hosts.len(),
        |i: int|
            if owned_by(hosts[i], u) {
                lease_clear(hosts[i])
            } else {
                hosts[i]
            },
    )
}

/// Some row of `hosts` carries an identifier from `ids`.
pub open spec fn any_row_matches(hosts: Seq<Host>, ids: Seq<HostId>) -> bool {
    exists|i: int| 0 <= i < hosts.len() && ids.contains((#[trigger] hosts[i]).id)
}

/// Which column a user lookup matches against.
#[derive(Clone, Copy, PartialEq, Eq, Structural, Debug)]
pub enum UserField {
    /// The external directory identity.
    Login,
    /// The mail address.
    Email,
    /// The account-linking token.
    Link,
}

/// The value of the chosen column of a user row.
pub open spec fn user_field(us: User, field: UserField) -> Option<Seq<char>> {
    match field {
        UserField::Login => Some(us.login@),
        UserField::Email => match us.email {
            Some(e) => Some(e@),
            None => None,
        },
        UserField::Link => Some(us.link@),
    }
}

/// The first user row, in table order, whose chosen column equals `val`.
pub open spec fn first_user_matching(users: Seq<User>, field: UserField, val: Seq<char>) -> Option<
    User,
>
    decreases users.len(),
{
    if users.len() == 0 {
        None
    } else if user_field(users.first(), field) == Some(val) {
        Some(users.first())
    } else {
        first_user_matching(users.drop_first(), field, val)
    }
}

proof fn lemma_first_user_matching_found(users: Seq<User>, field: UserField, val: Seq<char>, i: int)
    requires
        0 <= i < users.len(),
        user_field(users[i], field) == Some(val),
        forall|k: int| 0 <= k < i ==> user_field(#[trigger] users[k], field) != Some(val),
    ensures
        first_user_matching(users, field, val) == Some(users[i]),
    decreases i,
{
    if i > 0 {
        lemma_first_user_matching_found(users.drop_first(), field, val, i - 1);
    }
}

proof fn lemma_first_user_matching_none(users: Seq<User>, field: UserField, val: Seq<char>)
    requires
        forall|k: int| 0 <= k < users.len() ==> user_field(#[trigger] users[k], field) != Some(val),
    ensures
        first_user_matching(users, field, val) is None,
    decreases users.len(),
{
    if users.len() > 0 {
        lemma_first_user_matching_none(users.drop_first(), field, val);
    }
}

/// The store.
pub struct Registry {
    hosts: Vec<Host>,
    users: Vec<User>,
    groups: Vec<Group>,
    lease_limits: Vec<AdGroupLeaseLimit>,
}

impl View for Registry {
    type V = RegistryContents;

    closed spec fn view(&self) -> RegistryContents {
        RegistryContents {
            hosts: self.hosts@,
            users: self.users@,
            groups: self.groups@,
            lease_limits: self.lease_limits@,
        }
    }
}

impl Registry {
    /// The store is well formed.
    pub open spec fn wf(&self) -> bool {
        registry_wf(self@)
    }

    /// An empty store.
    pub fn new() -> (r: Registry)
        ensures
            r.wf(),
            r@.hosts.len() == 0,
            r@.users.len() == 0,
            r@.groups.len() == 0,
            r@.lease_limits.len() == 0,
    {
        Registry {
            hosts: Vec::new(),
            users: Vec::new(),
            groups: Vec::new(),
            lease_limits: Vec::new(),
        }
    }

    /// Insert a host row, enforcing the store's constraints.
    pub fn add_host(&mut self, host: Host) -> (r: Result<(), DbError>)
        requires
            old(self).wf(),
        ensures
            final(self).wf(),
            final(self)@.users == old(self)@.users,
            final(self)@.groups == old(self)@.groups,
            final(self)@.lease_limits == old(self)@.lease_limits,
            !host_wf(host) ==> r == Result::<(), DbError>::Err(DbError::InvalidRow),
            host_wf(host) && has_host(old(self)@.hosts, host.id) ==> r == Result::<
                (),
                DbError,
            >::Err(DbError::DuplicateId),
            host_wf(host) && !has_host(old(self)@.hosts, host.id) && host.user_id is Some
                && !has_user(old(self)@.users, host.user_id->0) ==> r == Result::<(), DbError>::Err(
                DbError::UnknownUser,
            ),
            r is Err ==> final(self)@ == old(self)@,
            r is Ok <==> host_wf(host) && !has_host(old(self)@.hosts, host.id) && (
            host.user_id is Some ==> has_user(old(self)@.users, host.user_id->0)),
            r is Ok ==> final(self)@.hosts == insert_host_by_ip(old(self)@.hosts, host),
    {
        let leased_shape = host.leased_until.is_some();
        if host.user_id.is_some() != leased_shape {
            return Err(DbError::InvalidRow);
        }
        if self.contains_host_id(host.id) {
            return Err(DbError::DuplicateId);
        }
        if let Some(owner) = host.user_id {
            if self.get_user_by_id(&owner).is_none() {
                return Err(DbError::UnknownUser);
            }
        }
        let ghost old_hosts = self.hosts@;
        let n = self.hosts.len();
        let mut p: usize = 0;
        while p < n && self.hosts[p].ip_address <= host.ip_address
            invariant
                n == self.hosts.len(),
                old_hosts == self.hosts@,
                0 <= p <= n,
                forall|k: int| 0 <= k < p ==> (#[trigger] old_hosts[k]).ip_address
                    <= host.ip_address,
            decreases n - p,
        {
            p += 1;
        }
        proof {
            assert forall|k: int|
                p <= k < old_hosts.len() implies (#[trigger] old_hosts[k]).ip_address
                > host.ip_address by {
                if k > p {
                    assert(old_hosts[p as int].ip_address <= old_hosts[k].ip_address);
                }
            }
            lemma_insert_host_split(old_hosts, host, p as int);
        }
        self.hosts.insert(p, host);
        proof {
            assert(self.hosts@ =~= old_hosts.take(p as int) + seq![host] + old_hosts.skip(
                p as int,
            ));
            assert forall|k: int|
                0 <= k < self.hosts@.len() implies self.hosts@[k] == (if k < p {
                old_hosts[k]
            } else if k == p {
                host
            } else {
                old_hosts[k - 1]
            }) by {}
            assert forall|i: int, j: int|
                0 <= i < j < self.hosts@.len() implies self.hosts@[i].id != self.hosts@[j].id by {
                if self.hosts@[i].id == host.id && i != p {
                    assert(has_host(old_hosts, host.id));
                }
                if self.hosts@[j].id == host.id && j != p {
                    assert(has_host(old_hosts, host.id));
                }
            }
            assert forall|i: int|
                0 <= i < self.hosts@.len() implies host_wf(#[trigger] self.hosts@[i]) by {}
            assert forall|i: int|
                0 <= i < self.hosts@.len() && (#[trigger] self.hosts@[i]).user_id is Some
                implies has_user(self.users@, self.hosts@[i].user_id->0) by {}
            assert forall|i: int, j: int|
                0 <= i < j < self.hosts@.len() implies self.hosts@[i].ip_address
                <= self.hosts@[j].ip_address by {}
        }
        Ok(())
    }

    /// Insert a group row.
    pub fn add_group(&mut self, group: Group)
        requires
            old(self).wf(),
        ensures
            final(self).wf(),
            final(self)@.groups == old(self)@.groups.push(group),
            final(self)@.hosts == old(self)@.hosts,
            final(self)@.users == old(self)@.users,
            final(self)@.lease_limits == old(self)@.lease_limits,
    {
        self.groups.push(group);
    }

    /// Insert a lease-limit override row.
    pub fn add_lease_limit(&mut self, limit: AdGroupLeaseLimit)
        requires
            old(self).wf(),
        ensures
            final(self).wf(),
            final(self)@.lease_limits == old(self)@.lease_limits.push(limit),
            final(self)@.hosts == old(self)@.hosts,
            final(self)@.users == old(self)@.users,
            final(self)@.groups == old(self)@.groups,
    {
        self.lease_limits.push(limit);
    }

    /// Whether some host row carries identifier `id`.
    fn contains_host_id(&self, id: HostId) -> (r: bool)
        ensures
            r == has_host(self@.hosts, id),
    {
        let n = self.hosts.len();
        for i in 0..n
            invariant
                n == self.hosts.len(),
                forall|k: int| 0 <= k < i ==> self.hosts@[k].id != id,
        {
            if self.hosts[i].id == id {
                return true;
            }
        }
        false
    }

    /// The user with identifier `user_id`, if any: the single user row
    /// carrying `user_id`, identifiers being unique.
    pub fn get_user_by_id(&self, user_id: &UserId) -> (r: Option<User>)
        requires
            self.wf(),
        ensures
            r == if has_user(self@.users, *user_id) {
                Some(user_for(self@.users, *user_id))
            } else {
                None::<User>
            },
    {
        let n = self.users.len();
        for i in 0..n
            invariant
                self.wf(),
                n == self.users.len(),
                forall|k: int| 0 <= k < i ==> self.users@[k].id != *user_id,
        {
            if self.users[i].id == *user_id {
                let r = self.users[i].clone();
                proof {
                    assert(has_user(self@.users, *user_id));
                    let j = choose|j: int|
                        0 <= j < self.users@.len() && self.users@[j].id == *user_id;
                    assert(j == i);
                }
                return Some(r);
            }
        }
        None
    }

    /// All host rows, in ascending address order.
    pub fn get_all_hosts(&self) -> (r: Vec<Host>)
        requires
            self.wf(),
        ensures
            r@ == self@.hosts,
            hosts_sorted_by_ip(r@),
    {
        let ghost hs = self.hosts@;
        let n = self.hosts.len();
        let mut r: Vec<Host> = Vec::new();
        for i in 0..n
            invariant
                n == self.hosts.len(),
                hs == self.hosts@,
                r@ == hs.take(i as int),
        {
            r.push(self.hosts[i].clone());
            proof {
                assert(hs.take(i as int + 1) =~= hs.take(i as int).push(hs[i as int]));
            }
        }
        proof {
            assert(hs.take(n as int) =~= hs);
        }
        r
    }

    /// The hosts without an owner, in ascending address order.
    pub fn get_available_hosts(&self) -> (r: Vec<Host>)
        requires
            self.wf(),
        ensures
            r@ == available_rows(self@.hosts),
            hosts_sorted_by_ip(r@),
    {
        let ghost hs = self.hosts@;
        let n = self.hosts.len();
        let mut r: Vec<Host> = Vec::new();
        for i in 0..n
            invariant
                n == self.hosts.len(),
                hs == self.hosts@,
                r@ == available_rows(hs.take(i as int)),
        {
            proof {
                assert(hs.take(i as int + 1).drop_last() =~= hs.take(i as int));
                assert(hs.take(i as int + 1).last() == hs[i as int]);
            }
            if self.hosts[i].user_id.is_none() {
                r.push(self.hosts[i].clone());
            }
        }
        proof {
            assert(hs.take(n as int) =~= hs);
            lemma_available_rows_sorted(hs);
        }
        r
    }

    /// The hosts of `group_id` without an owner, in ascending address
    /// order.
    pub fn get_available_group_hosts(&self, group_id: &GroupId) -> (r: Vec<Host>)
        requires
            self.wf(),
        ensures
            r@ == available_group_rows(self@.hosts, *group_id),
            hosts_sorted_by_ip(r@),
    {
        let ghost hs = self.hosts@;
        let n = self.hosts.len();
        let mut r: Vec<Host> = Vec::new();
        for i in 0..n
            invariant
                n == self.hosts.len(),
                hs == self.hosts@,
                r@ == available_group_rows(hs.take(i as int), *group_id),
        {
            proof {
                assert(hs.take(i as int + 1).drop_last() =~= hs.take(i as int));
                assert(hs.take(i as int + 1).last() == hs[i as int]);
            }
            if self.hosts[i].user_id.is_none() && self.hosts[i].group_id == *group_id {
                r.push(self.hosts[i].clone());
            }
        }
        proof {
            assert(hs.take(n as int) =~= hs);
            lemma_available_group_rows_sorted(hs, *group_id);
        }
        r
    }

    /// The free host of `group_id` with the smallest address, earliest
    /// row first on ties: the deterministic pick for a random lease.
    pub fn get_first_available_group_host(&self, group_id: &GroupId) -> (r: Option<Host>)
        ensures
            r == pick_available(self@.hosts, *group_id),
    {
        let ghost hs = self.hosts@;
        let n = self.hosts.len();
        let mut best: Option<Host> = None;
        for i in 0..n
            invariant
                n == self.hosts.len(),
                hs == self.hosts@,
                best == pick_available(hs.take(i as int), *group_id),
        {
            proof {
                assert(hs.take(i as int + 1).drop_last() =~= hs.take(i as int));
                assert(hs.take(i as int + 1).last() == hs[i as int]);
            }
            if self.hosts[i].user_id.is_none() && self.hosts[i].group_id == *group_id {
                let replace = match &best {
                    None => true,
                    Some(b) => self.hosts[i].ip_address < b.ip_address,
                };
                if replace {
                    best = Some(self.hosts[i].clone());
                }
            }
        }
        proof {
            assert(hs.take(n as int) =~= hs);
        }
        best
    }

    /// The host row with identifier `host_id`, if any.
    pub fn get_host(&self, host_id: &HostId) -> (r: Option<Host>)
        requires
            self.wf(),
        ensures
            r == if has_host(self@.hosts, *host_id) {
                Some(host_with_id(self@.hosts, *host_id))
            } else {
                None::<Host>
            },
    {
        let n = self.hosts.len();
        for i in 0..n
            invariant
                self.wf(),
                n == self.hosts.len(),
                forall|k: int| 0 <= k < i ==> self.hosts@[k].id != *host_id,
        {
            if self.hosts[i].id == *host_id {
                let r = self.hosts[i].clone();
                proof {
                    assert(has_host(self@.hosts, *host_id));
                    let j = choose|j: int|
                        0 <= j < self.hosts@.len() && self.hosts@[j].id == *host_id;
                    assert(j == i);
                }
                return Some(r);
            }
        }
        None
    }

    /// The host rows whose identifier occurs in `hosts_ids`, in table
    /// order.
    pub fn get_hosts(&self, hosts_ids: &[HostId]) -> (r: Vec<Host>)
        ensures
            r@ == rows_with_ids(self@.hosts, hosts_ids@),
    {
        let ghost hs = self.hosts@;
        let n = self.hosts.len();
        let mut r: Vec<Host> = Vec::new();
        for i in 0..n
            invariant
                n == self.hosts.len(),
                hs == self.hosts@,
                r@ == rows_with_ids(hs.take(i as int), hosts_ids@),
        {
            proof {
                assert(hs.take(i as int + 1).drop_last() =~= hs.take(i as int));
                assert(hs.take(i as int + 1).last() == hs[i as int]);
            }
            if ids_contain(hosts_ids, self.hosts[i].id) {
                r.push(self.hosts[i].clone());
            }
        }
        proof {
            assert(hs.take(n as int) =~= hs);
        }
        r
    }

    /// The leased host with identifier `host_id`, joined with its owning
    /// user; absent when there is no such row or it is not leased.
    pub fn get_leased_host(&self, host_id: &HostId) -> (r: Option<LeasedHost>)
        requires
            self.wf(),
        ensures
            r == if has_host(self@.hosts, *host_id) && host_with_id(
                self@.hosts,
                *host_id,
            ).user_id is Some {
                Some(leased_join(self@.users, host_with_id(self@.hosts, *host_id)))
            } else {
                None::<LeasedHost>
            },
    {
        let n = self.hosts.len();
        for i in 0..n
            invariant
                self.wf(),
                n == self.hosts.len(),
                forall|k: int| 0 <= k < i ==> self.hosts@[k].id != *host_id,
        {
            if self.hosts[i].id == *host_id {
                proof {
                    assert(has_host(self@.hosts, *host_id));
                    let j = choose|j: int|
                        0 <= j < self.hosts@.len() && self.hosts@[j].id == *host_id;
                    assert(j == i);
                }
                match self.hosts[i].user_id {
                    None => {
                        return None;
                    },
                    Some(owner) => {
                        proof {
                            assert(self@.hosts[i as int].user_id is Some);
                        }
                        let us = match self.get_user_by_id(&owner) {
                            Some(us) => us,
                            None => vstd::pervasive::unreached(),
                        };
                        let until = match self.hosts[i].leased_until {
                            Some(t) => t,
                            None => vstd::pervasive::unreached(),
                        };
                        return Some(
                            LeasedHost {
                                id: self.hosts[i].id,
                                hostname: self.hosts[i].hostname.clone(),
                                ip_address: self.hosts[i].ip_address,
                                leased_until: until,
                                user: us,
                            },
                        );
                    },
                }
            }
        }
        None
    }

    /// The rows leased by `user_id`, joined with the user, ordered by
    /// deadline, then address.
    pub fn get_leased_hosts(&self, user_id: &UserId) -> (r: Vec<LeasedHost>)
        requires
            self.wf(),
        ensures
            r@ == leased_rows_ordered(self@.hosts, self@.users, *user_id),
            leased_sorted(r@),
    {
        let ghost hs = self.hosts@;
        let n = self.hosts.len();
        let mut r: Vec<LeasedHost> = Vec::new();
        for i in 0..n
            invariant
                self.wf(),
                n == self.hosts.len(),
                hs == self.hosts@,
                r@ == leased_rows_ordered(hs.take(i as int), self@.users, *user_id),
                leased_sorted(r@),
        {
            proof {
                assert(hs.take(i as int + 1).drop_last() =~= hs.take(i as int));
                assert(hs.take(i as int + 1).last() == hs[i as int]);
            }
            if let Some(owner) = self.hosts[i].user_id {
                if owner == *user_id {
                    proof {
                        assert(self@.hosts[i as int].user_id is Some);
                    }
                    let us = match self.get_user_by_id(&owner) {
                        Some(us) => us,
                        None => vstd::pervasive::unreached(),
                    };
                    let until = match self.hosts[i].leased_until {
                        Some(t) => t,
                        None => vstd::pervasive::unreached(),
                    };
                    let row = LeasedHost {
                        id: self.hosts[i].id,
                        hostname: self.hosts[i].hostname.clone(),
                        ip_address: self.hosts[i].ip_address,
                        leased_until: until,
                        user: us,
                    };
                    proof {
                        lemma_insert_leased_sorted(r@, row);
                    }
                    insert_leased_row(&mut r, row);
                }
            }
        }
        proof {
            assert(hs.take(n as int) =~= hs);
        }
        r
    }

    /// The leased rows whose identifier occurs in `hosts_ids`, joined
    /// with their users, in table order.
    pub fn get_leased_hosts_by_ids(&self, hosts_ids: &[HostId]) -> (r: Vec<LeasedHost>)
        requires
            self.wf(),
        ensures
            r@ == leased_rows_with_ids(self@.hosts, self@.users, hosts_ids@),
    {
        let ghost hs = self.hosts@;
        let n = self.hosts.len();
        let mut r: Vec<LeasedHost> = Vec::new();
        for i in 0..n
            invariant
                self.wf(),
                n == self.hosts.len(),
                hs == self.hosts@,
                r@ == leased_rows_with_ids(hs.take(i as int), self@.users, hosts_ids@),
        {
            proof {
                assert(hs.take(i as int + 1).drop_last() =~= hs.take(i as int));
                assert(hs.take(i as int + 1).last() == hs[i as int]);
            }
            if ids_contain(hosts_ids, self.hosts[i].id) {
                if let Some(owner) = self.hosts[i].user_id {
                    proof {
                        assert(self@.hosts[i as int].user_id is Some);
                        assert(host_wf(self@.hosts[i as int]));
                    }
                    let us = match self.get_user_by_id(&owner) {
                        Some(us) => us,
                        None => vstd::pervasive::unreached(),
                    };
                    let until = match self.hosts[i].leased_until {
                        Some(t) => t,
                        None => vstd::pervasive::unreached(),
                    };
                    r.push(
                        LeasedHost {
                            id: self.hosts[i].id,
                            hostname: self.hosts[i].hostname.clone(),
                            ip_address: self.hosts[i].ip_address,
                            leased_until: until,
                            user: us,
                        },
                    );
                }
            }
        }
        proof {
            assert(hs.take(n as int) =~= hs);
        }
        r
    }

    /// The rows whose lease deadline lies strictly before `until`, joined
    /// with their users, in table order.
    pub fn get_leased_until_hosts(&self, until: i64) -> (r: Vec<LeasedHost>)
        requires
            self.wf(),
        ensures
            r@ == expiring_rows(self@.hosts, self@.users, until),
    {
        let ghost hs = self.hosts@;
        let n = self.hosts.len();
        let mut r: Vec<LeasedHost> = Vec::new();
        for i in 0..n
            invariant
                self.wf(),
                n == self.hosts.len(),
                hs == self.hosts@,
                r@ == expiring_rows(hs.take(i as int), self@.users, until),
        {
            proof {
                assert(hs.take(i as int + 1).drop_last() =~= hs.take(i as int));
                assert(hs.take(i as int + 1).last() == hs[i as int]);
            }
            if let Some(deadline) = self.hosts[i].leased_until {
                if deadline < until {
                    proof {
                        assert(host_wf(self@.hosts[i as int]));
                    }
                    let owner = match self.hosts[i].user_id {
                        Some(owner) => owner,
                        None => vstd::pervasive::unreached(),
                    };
                    let us = match self.get_user_by_id(&owner) {
                        Some(us) => us,
                        None => vstd::pervasive::unreached(),
                    };
                    r.push(
                        LeasedHost {
                            id: self.hosts[i].id,
                            hostname: self.hosts[i].hostname.clone(),
                            ip_address: self.hosts[i].ip_address,
                            leased_until: deadline,
                            user: us,
                        },
                    );
                }
            }
        }
        proof {
            assert(hs.take(n as int) =~= hs);
        }
        r
    }
}

impl Registry {
    /// Lease every host whose identifier is in `hosts_ids` to `user_id`
    /// until `until`, in one bulk update. As in the store, the update does
    /// not itself check that the rows were free; it fails only when it
    /// would record an owner that no user row carries.
    pub fn lease_hosts(&mut self, user_id: &UserId, hosts_ids: &[HostId], until: i64) -> (r:
        Result<(), DbError>)
        requires
            old(self).wf(),
        ensures
            final(self).wf(),
            final(self)@.users == old(self)@.users,
            final(self)@.groups == old(self)@.groups,
            final(self)@.lease_limits == old(self)@.lease_limits,
            r is Ok <==> has_user(old(self)@.users, *user_id) || !any_row_matches(
                old(self)@.hosts,
                hosts_ids@,
            ),
            r is Err ==> r == Result::<(), DbError>::Err(DbError::UnknownUser) && final(self)@
                == old(self)@,
            r is Ok ==> final(self)@.hosts == hosts_after_lease(
                old(self)@.hosts,
                hosts_ids@,
                *user_id,
                until,
            ),
    {
        let ghost old_hosts = self.hosts@;
        let user_known = self.get_user_by_id(user_id).is_some();
        if !user_known {
            let mut touched = false;
            let n = self.hosts.len();
            for i in 0..n
                invariant
                    n == self.hosts.len(),
                    old_hosts == self.hosts@,
                    touched == any_row_matches(old_hosts.take(i as int), hosts_ids@),
            {
                proof {
                    assert(old_hosts.take(i as int + 1) =~= old_hosts.take(i as int).push(
                        old_hosts[i as int],
                    ));
                    if hosts_ids@.contains(old_hosts[i as int].id) {
                        assert(old_hosts.take(i as int + 1)[i as int] == old_hosts[i as int]);
                        assert(any_row_matches(old_hosts.take(i as int + 1), hosts_ids@));
                    } else {
                        if any_row_matches(old_hosts.take(i as int + 1), hosts_ids@) {
                            let w = choose|w: int|
                                0 <= w < old_hosts.take(i as int + 1).len() && hosts_ids@.contains(
                                    (#[trigger] old_hosts.take(i as int + 1)[w]).id,
                                );
                            if w < i {
                                assert(any_row_matches(old_hosts.take(i as int), hosts_ids@));
                            }
                        }
                    }
                }
                if ids_contain(hosts_ids, self.hosts[i].id) {
                    touched = true;
                }
            }
            proof {
                assert(old_hosts.take(n as int) =~= old_hosts);
            }
            if touched {
                return Err(DbError::UnknownUser);
            }
        }
        let n = self.hosts.len();
        for i in 0..n
            invariant
                n == self.hosts@.len(),
                self.hosts@.len() == old_hosts.len(),
                self.users@ == old(self)@.users,
                self.groups@ == old(self)@.groups,
                self.lease_limits@ == old(self)@.lease_limits,
                user_known == has_user(old(self)@.users, *user_id),
                user_known || !any_row_matches(old_hosts, hosts_ids@),
                forall|k: int|
                    0 <= k < i ==> self.hosts@[k] == (if hosts_ids@.contains(old_hosts[k].id) {
                        lease_mark(old_hosts[k], *user_id, until)
                    } else {
                        old_hosts[k]
                    }),
                forall|k: int| i <= k < n ==> self.hosts@[k] == old_hosts[k],
        {
            if ids_contain(hosts_ids, self.hosts[i].id) {
                proof {
                    assert(any_row_matches(old_hosts, hosts_ids@));
                }
                let mut h = self.hosts[i].clone();
                h.user_id = Some(*user_id);
                h.leased_until = Some(until);
                self.hosts.set(i, h);
            }
        }
        proof {
            assert(self.hosts@ =~= hosts_after_lease(old_hosts, hosts_ids@, *user_id, until));
            assert forall|i: int, j: int|
                0 <= i < j < self.hosts@.len() implies self.hosts@[i].id != self.hosts@[j].id by {
                assert(old_hosts[i].id != old_hosts[j].id);
            }
            assert forall|i: int|
                0 <= i < self.hosts@.len() && (#[trigger] self.hosts@[i]).user_id is Some
                implies has_user(self.users@, self.hosts@[i].user_id->0) by {
                if !hosts_ids@.contains(old_hosts[i].id) {
                    assert(self.hosts@[i] == old_hosts[i]);
                }
            }
        }
        Ok(())
    }

    /// Free every host whose identifier is in `hosts_ids` and whose
    /// owner is `user_id`; rows held by other users are untouched.
    pub fn free_hosts_for_user(&mut self, hosts_ids: &[HostId], user_id: &UserId)
        requires
            old(self).wf(),
        ensures
            final(self).wf(),
            final(self)@.users == old(self)@.users,
            final(self)@.groups == old(self)@.groups,
            final(self)@.lease_limits == old(self)@.lease_limits,
            final(self)@.hosts == hosts_after_free_for_user(
                old(self)@.hosts,
                hosts_ids@,
                *user_id,
            ),
    {
        let ghost old_hosts = self.hosts@;
        let n = self.hosts.len();
        for i in 0..n
            invariant
                n == self.hosts@.len(),
                self.hosts@.len() == old_hosts.len(),
                self.users@ == old(self)@.users,
                self.groups@ == old(self)@.groups,
                self.lease_limits@ == old(self)@.lease_limits,
                forall|k: int|
                    0 <= k < i ==> self.hosts@[k] == (if hosts_ids@.contains(old_hosts[k].id)
                        && owned_by(old_hosts[k], *user_id) {
                        lease_clear(old_hosts[k])
                    } else {
                        old_hosts[k]
                    }),
                forall|k: int| i <= k < n ==> self.hosts@[k] == old_hosts[k],
        {
            let owned = match self.hosts[i].user_id {
                Some(owner) => owner == *user_id,
                None => false,
            };
            if owned && ids_contain(hosts_ids, self.hosts[i].id) {
                let mut h = self.hosts[i].clone();
                h.user_id = None;
                h.leased_until = None;
                self.hosts.set(i, h);
            }
        }
        proof {
            assert(self.hosts@ =~= hosts_after_free_for_user(old_hosts, hosts_ids@, *user_id));
            assert forall|i: int, j: int|
                0 <= i < j < self.hosts@.len() implies self.hosts@[i].id != self.hosts@[j].id by {
                assert(old_hosts[i].id != old_hosts[j].id);
            }
            assert forall|i: int|
                0 <= i < self.hosts@.len() && (#[trigger] self.hosts@[i]).user_id is Some
                implies has_user(self.users@, self.hosts@[i].user_id->0) by {
                assert(self.hosts@[i] == old_hosts[i]);
            }
        }
    }

    /// Free every host whose identifier is in `hosts_ids`, whoever holds
    /// it.
    pub fn free_hosts(&mut self, hosts_ids: &[HostId])
        requires
            old(self).wf(),
        ensures
            final(self).wf(),
            final(self)@.users == old(self)@.users,
            final(self)@.groups == old(self)@.groups,
            final(self)@.lease_limits == old(self)@.lease_limits,
            final(self)@.hosts == hosts_after_free(old(self)@.hosts, hosts_ids@),
    {
        let ghost old_hosts = self.hosts@;
        let n = self.hosts.len();
        for i in 0..n
            invariant
                n == self.hosts@.len(),
                self.hosts@.len() == old_hosts.len(),
                self.users@ == old(self)@.users,
                self.groups@ == old(self)@.groups,
                self.lease_limits@ == old(self)@.lease_limits,
                forall|k: int|
                    0 <= k < i ==> self.hosts@[k] == (if hosts_ids@.contains(old_hosts[k].id) {
                        lease_clear(old_hosts[k])
                    } else {
                        old_hosts[k]
                    }),
                forall|k: int| i <= k < n ==> self.hosts@[k] == old_hosts[k],
        {
            if ids_contain(hosts_ids, self.hosts[i].id) {
                let mut h = self.hosts[i].clone();
                h.user_id = None;
                h.leased_until = None;
                self.hosts.set(i, h);
            }
        }
        proof {
            assert(self.hosts@ =~= hosts_after_free(old_hosts, hosts_ids@));
            assert forall|i: int, j: int|
                0 <= i < j < self.hosts@.len() implies self.hosts@[i].id != self.hosts@[j].id by {
                assert(old_hosts[i].id != old_hosts[j].id);
            }
            assert forall|i: int|
                0 <= i < self.hosts@.len() && (#[trigger] self.hosts@[i]).user_id is Some
                implies has_user(self.users@, self.hosts@[i].user_id->0) by {
                assert(self.hosts@[i] == old_hosts[i]);
            }
        }
    }

    /// Free every host owned by `user_id`.
    pub fn free_all(&mut self, user_id: &UserId)
        requires
            old(self).wf(),
        ensures
            final(self).wf(),
            final(self)@.users == old(self)@.users,
            final(self)@.groups == old(self)@.groups,
            final(self)@.lease_limits == old(self)@.lease_limits,
            final(self)@.hosts == hosts_after_free_all(old(self)@.hosts, *user_id),
    {
        let ghost old_hosts = self.hosts@;
        let n = self.hosts.len();
        for i in 0..n
            invariant
                n == self.hosts@.len(),
                self.hosts@.len() == old_hosts.len(),
                self.users@ == old(self)@.users,
                self.groups@ == old(self)@.groups,
                self.lease_limits@ == old(self)@.lease_limits,
                forall|k: int|
                    0 <= k < i ==> self.hosts@[k] == (if owned_by(old_hosts[k], *user_id) {
                        lease_clear(old_hosts[k])
                    } else {
                        old_hosts[k]
                    }),
                forall|k: int| i <= k < n ==> self.hosts@[k] == old_hosts[k],
        {
            let owned = match self.hosts[i].user_id {
                Some(owner) => owner == *user_id,
                None => false,
            };
            if owned {
                let mut h = self.hosts[i].clone();
                h.user_id = None;
                h.leased_until = None;
                self.hosts.set(i, h);
            }
        }
        proof {
            assert(self.hosts@ =~= hosts_after_free_all(old_hosts, *user_id));
            assert forall|i: int, j: int|
                0 <= i < j < self.hosts@.len() implies self.hosts@[i].id != self.hosts@[j].id by {
                assert(old_hosts[i].id != old_hosts[j].id);
            }
            assert forall|i: int|
                0 <= i < self.hosts@.len() && (#[trigger] self.hosts@[i]).user_id is Some
                implies has_user(self.users@, self.hosts@[i].user_id->0) by {
                assert(self.hosts@[i] == old_hosts[i]);
            }
        }
    }

    /// The first user, in table order, whose mail address is `mail`.
    pub fn get_user_by_mail(&self, mail: &str) -> (r: Option<User>)
        ensures
            r == first_user_matching(self@.users, UserField::Email, mail@),
    {
        self.find_user(UserField::Email, mail)
    }

    /// The first user, in table order, whose directory identity is `dn`.
    pub fn get_user_by_dn(&self, dn: &str) -> (r: Option<User>)
        ensures
            r == first_user_matching(self@.users, UserField::Login, dn@),
    {
        self.find_user(UserField::Login, dn)
    }

    /// The first user, in table order, whose linking token is `link`.
    pub fn get_user_by_link(&self, link: &str) -> (r: Option<User>)
        ensures
            r == first_user_matching(self@.users, UserField::Link, link@),
    {
        self.find_user(UserField::Link, link)
    }

    /// The first user, in table order, whose chosen column equals `val`.
    fn find_user(&self, field: UserField, val: &str) -> (r: Option<User>)
        ensures
            r == first_user_matching(self@.users, field, val@),
    {
        let wanted = val.to_owned();
        let n = self.users.len();
        for i in 0..n
            invariant
                n == self.users.len(),
                wanted@ == val@,
                forall|k: int|
                    0 <= k < i ==> user_field(#[trigger] self.users@[k], field) != Some(val@),
        {
            let matched = match field {
                UserField::Login => self.users[i].login == wanted,
                UserField::Email => match &self.users[i].email {
                    Some(e) => *e == wanted,
                    None => false,
                },
                UserField::Link => self.users[i].link == wanted,
            };
            if matched {
                proof {
                    lemma_first_user_matching_found(self@.users, field, val@, i as int);
                }
                return Some(self.users[i].clone());
            }
        }
        proof {
            lemma_first_user_matching_none(self@.users, field, val@);
        }
        None
    }

    /// Record `tg_handle` as the notification handle of `user_id`; a
    /// no-op when no user row carries `user_id`.
    pub fn set_user_tg_handle(&mut self, user_id: &UserId, tg_handle: &str)
        requires
            old(self).wf(),
        ensures
            final(self).wf(),
            final(self)@.hosts == old(self)@.hosts,
            final(self)@.groups == old(self)@.groups,
            final(self)@.lease_limits == old(self)@.lease_limits,
            final(self)@.users.len() == old(self)@.users.len(),
            forall|k: int|
                0 <= k < old(self)@.users.len() && (#[trigger] old(self)@.users[k]).id != *user_id
                    ==> final(self)@.users[k] == old(self)@.users[k],
            forall|k: int|
                0 <= k < old(self)@.users.len() && (#[trigger] old(self)@.users[k]).id == *user_id
                    ==> user_with_handle(old(self)@.users[k], final(self)@.users[k], tg_handle@),
    {
        let ghost old_users = self.users@;
        let n = self.users.len();
        for i in 0..n
            invariant
                n == self.users@.len(),
                self.users@.len() == old_users.len(),
                self.hosts@ == old(self)@.hosts,
                self.groups@ == old(self)@.groups,
                self.lease_limits@ == old(self)@.lease_limits,
                forall|k: int|
                    0 <= k < i && (#[trigger] old_users[k]).id != *user_id ==> self.users@[k]
                        == old_users[k],
                forall|k: int|
                    0 <= k < i && (#[trigger] old_users[k]).id == *user_id ==> user_with_handle(
                        old_users[k],
                        self.users@[k],
                        tg_handle@,
                    ),
                forall|k: int| i <= k < n ==> self.users@[k] == old_users[k],
        {
            if self.users[i].id == *user_id {
                let mut us = self.users[i].clone();
                us.tg_handle = Some(tg_handle.to_owned());
                self.users.set(i, us);
            }
        }
        proof {
            assert forall|i: int, j: int|
                0 <= i < j < self.users@.len() implies self.users@[i].id != self.users@[j].id by {
                assert(self.users@[i].id == old_users[i].id);
                assert(self.users@[j].id == old_users[j].id);
            }
            assert forall|i: int|
                0 <= i < self.hosts@.len() && (#[trigger] self.hosts@[i]).user_id is Some
                implies has_user(self.users@, self.hosts@[i].user_id->0) by {
                let w = choose|w: int|
                    0 <= w < old_users.len() && old_users[w].id == self.hosts@[i].user_id->0;
                assert(self.users@[w].id == old_users[w].id);
            }
        }
    }

    /// Insert a user row with a freshly generated identifier, the given
    /// directory identity, optional notification handle and mail address,
    /// and an empty linking token.
    pub fn add_user(&mut self, dn: &str, tg_handle: Option<&str>, email: &str) -> (r: Result<
        UserId,
        DbError,
    >)
        requires
            old(self).wf(),
        ensures
            final(self).wf(),
            final(self)@.hosts == old(self)@.hosts,
            final(self)@.groups == old(self)@.groups,
            final(self)@.lease_limits == old(self)@.lease_limits,
            r is Err <==> has_user(old(self)@.users, UserId(i32::MAX)),
            r is Err ==> r == Result::<UserId, DbError>::Err(DbError::IdsExhausted)
                && final(self)@ == old(self)@,
            r matches Ok(uid) ==> !has_user(old(self)@.users, uid) && final(self)@.users.len()
                == old(self)@.users.len() + 1 && final(self)@.users == old(self)@.users.push(
                final(self)@.users.last(),
            ) && fresh_user_row(
                final(self)@.users.last(),
                uid,
                dn@,
                match tg_handle {
                    Some(t) => Some(t@),
                    None => None,
                },
                email@,
            ),
    {
        let mut max_id: i32 = 0;
        let n = self.users.len();
        for i in 0..n
            invariant
                n == self.users.len(),
                max_id >= 0,
                forall|k: int| 0 <= k < i ==> (#[trigger] self.users@[k]).id.0 <= max_id,
                max_id == 0 || exists|k: int|
                    0 <= k < i && (#[trigger] self.users@[k]).id.0 == max_id,
        {
            if self.users[i].id.0 > max_id {
                max_id = self.users[i].id.0;
            }
        }
        proof {
            if has_user(self@.users, UserId(i32::MAX)) {
                let w = choose|w: int|
                    0 <= w < self.users@.len() && self.users@[w].id == UserId(i32::MAX);
                assert(self.users@[w].id.0 <= max_id);
            }
            if max_id == i32::MAX {
                let w = choose|w: int|
                    0 <= w < self.users@.len() && (#[trigger] self.users@[w]).id.0 == max_id;
                assert(has_user(self@.users, UserId(i32::MAX))) by {
                    assert(self.users@[w].id == UserId(i32::MAX));
                }
            }
        }
        if max_id == i32::MAX {
            return Err(DbError::IdsExhausted);
        }
        let uid = UserId(max_id + 1);
        let us = User {
            id: uid,
            login: dn.to_owned(),
            tg_handle: match tg_handle {
                Some(t) => Some(t.to_owned()),
                None => None,
            },
            email: Some(email.to_owned()),
            link: String::new(),
        };
        let ghost old_users = self.users@;
        proof {
            if has_user(old_users, uid) {
                let w = choose|w: int| 0 <= w < old_users.len() && old_users[w].id == uid;
                assert(old_users[w].id.0 <= max_id);
            }
        }
        self.users.push(us);
        proof {
            assert forall|i: int, j: int|
                0 <= i < j < self.users@.len() implies self.users@[i].id != self.users@[j].id by {
                if j == old_users.len() {
                    assert(old_users[i].id.0 <= max_id);
                }
            }
            assert forall|i: int|
                0 <= i < self.hosts@.len() && (#[trigger] self.hosts@[i]).user_id is Some
                implies has_user(self.users@, self.hosts@[i].user_id->0) by {
                let w = choose|w: int|
                    0 <= w < old_users.len() && old_users[w].id == self.hosts@[i].user_id->0;
                assert(self.users@[w].id == old_users[w].id);
            }
        }
        Ok(uid)
    }

    /// All group rows, in table order.
    pub fn get_groups(&self) -> (r: Vec<Group>)
        ensures
            r@ == self@.groups,
    {
        let ghost gs = self.groups@;
        let n = self.groups.len();
        let mut r: Vec<Group> = Vec::new();
        for i in 0..n
            invariant
                n == self.groups.len(),
                gs == self.groups@,
                r@ == gs.take(i as int),
        {
            r.push(self.groups[i].clone());
            proof {
                assert(gs.take(i as int + 1) =~= gs.take(i as int).push(gs[i as int]));
            }
        }
        proof {
            assert(gs.take(n as int) =~= gs);
        }
        r
    }

    /// All user rows, in table order.
    pub fn get_all_users(&self) -> (r: Vec<User>)
        ensures
            r@ == self@.users,
    {
        let ghost us = self.users@;
        let n = self.users.len();
        let mut r: Vec<User> = Vec::new();
        for i in 0..n
            invariant
                n == self.users.len(),
                us == self.users@,
                r@ == us.take(i as int),
        {
            r.push(self.users[i].clone());
            proof {
                assert(us.take(i as int + 1) =~= us.take(i as int).push(us[i as int]));
            }
        }
        proof {
            assert(us.take(n as int) =~= us);
        }
        r
    }

    /// The lease-limit rows whose group name occurs in `groups`, in
    /// table order.
    pub fn get_ad_groups_lease_limits(&self, groups: &Vec<String>) -> (r: Vec<AdGroupLeaseLimit>)
        ensures
            r@ == matching_limits(self@.lease_limits, groups.deep_view()),
    {
        let ghost ls = self.lease_limits@;
        let n = self.lease_limits.len();
        let mut r: Vec<AdGroupLeaseLimit> = Vec::new();
        for i in 0..n
            invariant
                n == self.lease_limits.len(),
                ls == self.lease_limits@,
                r@ == matching_limits(ls.take(i as int), groups.deep_view()),
        {
            proof {
                assert(ls.take(i as int + 1).drop_last() =~= ls.take(i as int));
                assert(ls.take(i as int + 1).last() == ls[i as int]);
            }
            if names_contain(groups, &self.lease_limits[i].group) {
                r.push(self.lease_limits[i].clone());
            }
        }
        proof {
            assert(ls.take(n as int) =~= ls);
        }
        r
    }
}

/// A user row updated to carry `handle` as its notification handle.
pub open spec fn user_with_handle(ou: User, nu: User, handle: Seq<char>) -> bool {
    &&& nu.id == ou.id
    &&& nu.login == ou.login
    &&& nu.tg_handle is Some
    &&& nu.tg_handle->0@ == handle
    &&& nu.email == ou.email
    &&& nu.link == ou.link
}

/// A freshly inserted user row.
pub open spec fn fresh_user_row(
    nu: User,
    uid: UserId,
    dn: Seq<char>,
    tg: Option<Seq<char>>,
    email: Seq<char>,
) -> bool {
    &&& nu.id == uid
    &&& nu.login@ == dn
    &&& match tg {
        Some(t) => nu.tg_handle is Some && nu.tg_handle->0@ == t,
        None => nu.tg_handle is None,
    }
    &&& nu.email is Some
    &&& nu.email->0@ == email
    &&& nu.link@ == Seq::<char>::empty()
}

/// The lease-limit rows whose group name occurs in `names`, in table
/// order.
pub open spec fn matching_limits(
    limits: Seq<AdGroupLeaseLimit>,
    names: Seq<Seq<char>>,
) -> Seq<AdGroupLeaseLimit>
    decreases limits.len(),
{
    if limits.len() == 0 {
        Seq::empty()
    } else {
        let rest = matching_limits(limits.drop_last(), names);
        if names.contains(limits.last().group@) {
            rest.push(limits.last())
        } else {
            rest
        }
    }
}

/// Whether the character sequence of `name` occurs among those of
/// `names`.
fn names_contain(names: &Vec<String>, name: &String) -> (r: bool)
    ensures
        r == names.deep_view().contains(name@),
{
    let n = names.len();
    for i in 0..n
        invariant
            n == names.len(),
            forall|k: int| 0 <= k < i ==> names.deep_view()[k] != name@,
    {
        proof {
            assert(names.deep_view()[i as int] == names@[i as int].deep_view());
            assert(names@[i as int].deep_view() == names@[i as int]@);
        }
        if names[i] == *name {
            assert(names.deep_view()[i as int] == name@);
            return true;
        }
    }
    false
}

/// Some row of `hosts` carries identifier `id` and is leased by `u`.
pub open spec fn user_owns_id(hosts: Seq<Host>, u: UserId, id: HostId) -> bool {
    exists|i: int|
        0 <= i < hosts.len() && (#[trigger] hosts[i]).id == id && owned_by(hosts[i], u)
}

impl Registry {
    /// Whether the host row carrying `host_id` is currently leased by
    /// `user_id`.
    pub fn user_owns_host(&self, user_id: &UserId, host_id: HostId) -> (r: bool)
        ensures
            r == user_owns_id(self@.hosts, *user_id, host_id),
    {
        let n = self.hosts.len();
        for i in 0..n
            invariant
                n == self.hosts.len(),
                forall|k: int|
                    0 <= k < i ==> !((#[trigger] self.hosts@[k]).id == host_id && owned_by(
                        self.hosts@[k],
                        *user_id,
                    )),
        {
            let hit = match self.hosts[i].user_id {
                Some(owner) => owner == *user_id && self.hosts[i].id == host_id,
                None => false,
            };
            if hit {
                assert(user_owns_id(self@.hosts, *user_id, host_id));
                return true;
            }
        }
        false
    }
}

/// Insert `x` into the ordered lease listing `v`, keeping the order.
fn insert_leased_row(v: &mut Vec<LeasedHost>, x: LeasedHost)
    requires
        leased_sorted(old(v)@),
    ensures
        final(v)@ == insert_leased(old(v)@, x),
{
    let ghost s = v@;
    let n = v.len();
    let mut p: usize = 0;
    while p < n && (v[p].leased_until < x.leased_until || (v[p].leased_until == x.leased_until
        && v[p].ip_address <= x.ip_address))
        invariant
            n == v.len(),
            s == v@,
            0 <= p <= n,
            forall|k: int| 0 <= k < p ==> lease_key_le(#[trigger] s[k], x),
        decreases n - p,
    {
        p += 1;
    }
    proof {
        assert forall|k: int| p <= k < s.len() implies !lease_key_le(#[trigger] s[k], x) by {
            if k > p {
                assert(lease_key_le(s[p as int], s[k]));
            }
        }
        lemma_insert_leased_split(s, x, p as int);
    }
    v.insert(p, x);
    proof {
        assert(v@ =~= s.take(p as int) + seq![x] + s.skip(p as int));
    }
}

/// Whether `id` occurs in `ids`.
pub(crate) fn ids_contain(ids: &[HostId], id: HostId) -> (r: bool)
    ensures
        r == ids@.contains(id),
{
    let n = ids.len();
    for i in 0..n
        invariant
            n == ids@.len(),
            forall|k: int| 0 <= k < i ==> ids@[k] != id,
    {
        if ids[i] == id {
            assert(ids@[i as int] == id);
            return true;
        }
    }
    false
}

} // verus!
