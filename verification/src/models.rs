//! The data model: entity identifiers (opaque integer handles, equality by
//! value) and the rows the lease manager operates on.
//!
//! The central invariant of a host row is that it is either free (no owner,
//! no deadline) or leased (both present); see [`host_wf`].

use vstd::prelude::*;

verus! {

/// Identifier of a user; equality and hashing by the underlying value.
#[derive(Clone, Copy, PartialEq, Eq, Structural, Hash, Debug)]
pub struct UserId(pub i32);

/// Identifier of a host; equality and hashing by the underlying value.
#[derive(Clone, Copy, PartialEq, Eq, Structural, Hash, Debug)]
pub struct HostId(pub i32);

/// Identifier of a host group; equality and hashing by the underlying value.
#[derive(Clone, Copy, PartialEq, Eq, Structural, Hash, Debug)]
pub struct GroupId(pub i32);

/// A host row. `ip_address` is the numeric IPv4 address, which also serves
/// as the stable ordering key for deterministic "first available" picks.
/// Timestamps are seconds since the Unix epoch.
#[derive(Debug)]
pub struct Host {
    pub id: HostId,
    pub hostname: String,
    pub ip_address: u32,
    pub leased_until: Option<i64>,
    pub user_id: Option<UserId>,
    pub group_id: GroupId,
}

/// A leased host row joined with its owning user.
#[derive(Debug)]
pub struct LeasedHost {
    pub id: HostId,
    pub hostname: String,
    pub ip_address: u32,
    pub leased_until: i64,
    pub user: User,
}

/// A group of hosts; a static partition used to scope random leases.
#[derive(Debug)]
pub struct Group {
    pub id: GroupId,
    pub name: String,
}

/// A user; `tg_handle` is the opaque notification address and may be absent.
#[derive(Debug)]
pub struct User {
    pub id: UserId,
    pub login: String,
    pub tg_handle: Option<String>,
    pub email: Option<String>,
    pub link: String,
}

/// A per-directory-group lease-limit override: members of the external
/// group named `group` may hold up to `limit` concurrent leases.
#[derive(Debug)]
pub struct AdGroupLeaseLimit {
    pub group: String,
    pub limit: usize,
}

/// A host is well formed when it is either free (no owner and no deadline)
/// or leased (owner and deadline both present).
pub open spec fn host_wf(h: Host) -> bool {
    h.user_id is Some <==> h.leased_until is Some
}

/// The host has no owner.
pub open spec fn host_free(h: Host) -> bool {
    h.user_id is None
}

/// The host is currently leased by user `u`.
pub open spec fn owned_by(h: Host, u: UserId) -> bool {
    h.user_id == Some(u)
}

/// The host is leased and its lease deadline lies strictly before `t`.
pub open spec fn expires_before(h: Host, t: i64) -> bool {
    h.leased_until is Some && h.leased_until->0 < t
}


/// Clone an optional string, field for field.
fn clone_opt_string(s: &Option<String>) -> (r: Option<String>)
    ensures
        r == *s,
{
    match s {
        Some(v) => Some(v.clone()),
        None => None,
    }
}

impl Clone for Host {
    fn clone(&self) -> (r: Self)
        ensures
            r == *self,
    {
        Host {
            id: self.id,
            hostname: self.hostname.clone(),
            ip_address: self.ip_address,
            leased_until: self.leased_until,
            user_id: self.user_id,
            group_id: self.group_id,
        }
    }
}

impl Clone for User {
    fn clone(&self) -> (r: Self)
        ensures
            r == *self,
    {
        User {
            id: self.id,
            login: self.login.clone(),
            tg_handle: clone_opt_string(&self.tg_handle),
            email: clone_opt_string(&self.email),
            link: self.link.clone(),
        }
    }
}

impl Clone for LeasedHost {
    fn clone(&self) -> (r: Self)
        ensures
            r == *self,
    {
        LeasedHost {
            id: self.id,
            hostname: self.hostname.clone(),
            ip_address: self.ip_address,
            leased_until: self.leased_until,
            user: self.user.clone(),
        }
    }
}

impl Clone for Group {
    fn clone(&self) -> (r: Self)
        ensures
            r == *self,
    {
        Group { id: self.id, name: self.name.clone() }
    }
}

impl Clone for AdGroupLeaseLimit {
    fn clone(&self) -> (r: Self)
        ensures
            r == *self,
    {
        AdGroupLeaseLimit { group: self.group.clone(), limit: self.limit }
    }
}

impl HostId {
    /// Read a host identifier from text: a signed decimal numeral in
    /// 32-bit range; anything else is rejected with a message.
    pub fn try_from(value: String) -> (r: Result<HostId, String>)
        ensures
            crate::text::is_signed_numeral(value@) && -0x8000_0000 <= crate::text::numeral_val(
                value@,
            ) <= 0x7fff_ffff ==> (r matches Ok(h) && h.0 == crate::text::numeral_val(value@)),
            !(crate::text::is_signed_numeral(value@) && -0x8000_0000 <= crate::text::numeral_val(
                value@,
            ) <= 0x7fff_ffff) ==> (r matches Err(m) && m@ == "Wrong value "@ + value@
                + ", can not parse to as i32"@),
    {
        match crate::text::parse_signed(value.as_str(), 0x7fff_ffff, 0x8000_0000) {
            Some(v) => Ok(HostId(v as i32)),
            None => {
                let mut m = String::from_str("Wrong value ");
                m.append(value.as_str());
                m.append(", can not parse to as i32");
                Err(m)
            },
        }
    }
}

impl GroupId {
    /// Read a group identifier from text: a signed decimal numeral in
    /// 32-bit range; anything else is rejected with a message.
    pub fn from_str(s: &str) -> (r: Result<GroupId, String>)
        ensures
            crate::text::is_signed_numeral(s@) && -0x8000_0000 <= crate::text::numeral_val(s@)
                <= 0x7fff_ffff ==> (r matches Ok(g) && g.0 == crate::text::numeral_val(s@)),
            !(crate::text::is_signed_numeral(s@) && -0x8000_0000 <= crate::text::numeral_val(s@)
                <= 0x7fff_ffff) ==> (r matches Err(m) && m@ == "Wrong value "@ + s@
                + ", can not parse to as i32"@),
    {
        match crate::text::parse_signed(s, 0x7fff_ffff, 0x8000_0000) {
            Some(v) => Ok(GroupId(v as i32)),
            None => {
                let mut m = String::from_str("Wrong value ");
                m.append(s);
                m.append(", can not parse to as i32");
                Err(m)
            },
        }
    }
}

impl From<i32> for UserId {
    fn from(value: i32) -> (r: UserId) {
        UserId(value)
    }
}

impl vstd::std_specs::convert::FromSpecImpl<i32> for UserId {
    open spec fn obeys_from_spec() -> bool {
        true
    }

    open spec fn from_spec(value: i32) -> UserId {
        UserId(value)
    }
}

impl From<i32> for HostId {
    fn from(value: i32) -> (r: HostId) {
        HostId(value)
    }
}

impl vstd::std_specs::convert::FromSpecImpl<i32> for HostId {
    open spec fn obeys_from_spec() -> bool {
        true
    }

    open spec fn from_spec(value: i32) -> HostId {
        HostId(value)
    }
}

impl From<i32> for GroupId {
    fn from(value: i32) -> (r: GroupId) {
        GroupId(value)
    }
}

impl vstd::std_specs::convert::FromSpecImpl<i32> for GroupId {
    open spec fn obeys_from_spec() -> bool {
        true
    }

    open spec fn from_spec(value: i32) -> GroupId {
        GroupId(value)
    }
}

} // verus!
