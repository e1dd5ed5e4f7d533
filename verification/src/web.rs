//! Plain values the web layer exchanges with the core: validated lease
//! durations, query payloads, and the display records the page templates
//! are filled from.

use vstd::prelude::*;

use crate::models::{Group, GroupId, Host, HostId, LeasedHost, User};
use crate::text::{
    digits_val, duration_chars, format_duration, format_ip, ip_chars, is_unsigned_numeral,
    numeral_body, parse_unsigned,
};

verus! {

/// A whole number of days of lease time, between 0 and 63.
#[derive(Debug)]
pub struct Days(pub i64);

impl Days {
    /// Read a day count from form text: an unsigned numeral no larger
    /// than 63; anything else is rejected with a message.
    pub fn try_from(value: String) -> (r: Result<Days, String>)
        ensures
            is_unsigned_numeral(value@) && digits_val(numeral_body(value@)) <= 63 ==> (r
                matches Ok(d) && d.0 == digits_val(numeral_body(value@))),
            is_unsigned_numeral(value@) && 63 < digits_val(numeral_body(value@)) <= 255 ==> (r
                matches Err(m) && m@ == "Value must be between 0 and 63"@),
            !(is_unsigned_numeral(value@) && digits_val(numeral_body(value@)) <= 255) ==> (r
                matches Err(m) && m@ == "Wrong value "@ + value@ + ", can not parse as u8"@),
    {
        proof {
            if is_unsigned_numeral(value@) {
                crate::text::lemma_digits_val_nonneg(numeral_body(value@));
            }
        }
        match parse_unsigned(value.as_str(), 255) {
            Some(v) => {
                if v <= 63 {
                    Ok(Days(v as i64))
                } else {
                    Err(String::from_str("Value must be between 0 and 63"))
                }
            },
            None => {
                let mut m = String::from_str("Wrong value ");
                m.append(value.as_str());
                m.append(", can not parse as u8");
                Err(m)
            },
        }
    }
}

/// A whole number of hours of lease time, between 0 and 23.
#[derive(Debug)]
pub struct Hours(pub i64);

impl Hours {
    /// Read an hour count from form text: an unsigned numeral no larger
    /// than 23; anything else is rejected with a message.
    pub fn try_from(value: String) -> (r: Result<Hours, String>)
        ensures
            is_unsigned_numeral(value@) && digits_val(numeral_body(value@)) <= 23 ==> (r
                matches Ok(h) && h.0 == digits_val(numeral_body(value@))),
            is_unsigned_numeral(value@) && 23 < digits_val(numeral_body(value@)) <= 255 ==> (r
                matches Err(m) && m@ == "Value must be between 0 and 23"@),
            !(is_unsigned_numeral(value@) && digits_val(numeral_body(value@)) <= 255) ==> (r
                matches Err(m) && m@ == "Wrong value "@ + value@ + ", can not parse as u8"@),
    {
        proof {
            if is_unsigned_numeral(value@) {
                crate::text::lemma_digits_val_nonneg(numeral_body(value@));
            }
        }
        match parse_unsigned(value.as_str(), 255) {
            Some(v) => {
                if v <= 23 {
                    Ok(Hours(v as i64))
                } else {
                    Err(String::from_str("Value must be between 0 and 23"))
                }
            },
            None => {
                let mut m = String::from_str("Wrong value ");
                m.append(value.as_str());
                m.append(", can not parse as u8");
                Err(m)
            },
        }
    }
}

/// The query payload asking for one user's leased hosts.
pub struct GetHostsQuery {
    pub login: String,
}

/// The address users are sent to for account linking.
pub struct AuthLink(pub String);

/// What the page header shows of the signed-in user.
pub struct UserInfo {
    pub login: String,
    pub tg_linked: bool,
    pub link: String,
}

impl From<User> for UserInfo {
    fn from(value: User) -> (r: UserInfo) {
        UserInfo {
            login: value.login,
            tg_linked: value.tg_handle.is_some(),
            link: value.link,
        }
    }
}

impl vstd::std_specs::convert::FromSpecImpl<User> for UserInfo {
    open spec fn obeys_from_spec() -> bool {
        true
    }

    open spec fn from_spec(value: User) -> UserInfo {
        UserInfo {
            login: value.login,
            tg_linked: value.tg_handle is Some,
            link: value.link,
        }
    }
}

/// What a group picker shows of one group.
pub struct GroupInfo {
    pub id: GroupId,
    pub name: String,
}

impl From<Group> for GroupInfo {
    fn from(value: Group) -> (r: GroupInfo) {
        GroupInfo { id: value.id, name: value.name }
    }
}

impl vstd::std_specs::convert::FromSpecImpl<Group> for GroupInfo {
    open spec fn obeys_from_spec() -> bool {
        true
    }

    open spec fn from_spec(value: Group) -> GroupInfo {
        GroupInfo { id: value.id, name: value.name }
    }
}

/// What the all-hosts page shows of one lease: the deadline, the time
/// left rendered for reading, and who holds it.
pub struct LeaseInfo {
    pub leased_until: i64,
    pub valid_for: String,
    pub leased_by: String,
}

impl LeaseInfo {
    /// The display record for a lease held by `user` until
    /// `leased_until`, rendered at time `now`.
    pub fn new(user: User, leased_until: i64, now: i64) -> (r: LeaseInfo)
        requires
            i64::MIN <= leased_until - now <= i64::MAX,
        ensures
            r.leased_until == leased_until,
            r.valid_for@ == duration_chars(leased_until - now),
            user.email matches Some(e) ==> r.leased_by == e,
            user.email is None ==> r.leased_by@ == Seq::<char>::empty(),
    {
        LeaseInfo {
            leased_until,
            valid_for: format_duration(leased_until - now),
            leased_by: match user.email {
                Some(e) => e,
                None => String::new(),
            },
        }
    }
}

/// What a host list shows of one host: name, readable address, and the
/// lease on it, if any.
pub struct HostInfo {
    pub id: HostId,
    pub hostname: String,
    pub ip_address: String,
    pub lease_info: Option<LeaseInfo>,
}

impl HostInfo {
    /// The display record of a host row; a free host shows no lease.
    pub fn from_host(value: Host) -> (r: HostInfo)
        ensures
            r.id == value.id,
            r.hostname == value.hostname,
            r.ip_address@ == ip_chars(value.ip_address as int),
            r.lease_info is None,
    {
        HostInfo {
            id: value.id,
            hostname: value.hostname,
            ip_address: format_ip(value.ip_address),
            lease_info: None,
        }
    }

    /// The display record of a leased row, rendered at time `now`.
    pub fn from_leased(value: LeasedHost, now: i64) -> (r: HostInfo)
        requires
            i64::MIN <= value.leased_until - now <= i64::MAX,
        ensures
            r.id == value.id,
            r.hostname == value.hostname,
            r.ip_address@ == ip_chars(value.ip_address as int),
            r.lease_info matches Some(li) && li.leased_until == value.leased_until && li.valid_for@
                == duration_chars(value.leased_until - now),
    {
        HostInfo {
            id: value.id,
            hostname: value.hostname,
            ip_address: format_ip(value.ip_address),
            lease_info: Some(LeaseInfo::new(value.user, value.leased_until, now)),
        }
    }
}

} // verus!
