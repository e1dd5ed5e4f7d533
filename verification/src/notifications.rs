//! User notifications: resolving a user's delivery handle, formatting
//! one batched human-readable message per notification, and dispatching
//! it through a pluggable transport.
//!
//! The transport is the one outbound primitive the core needs: a single
//! `send_message` call per notification, so many hosts changing state at
//! once cost the user one message, not one per host.

use vstd::prelude::*;

use crate::models::{Host, HostId, UserId};
use crate::registry::{has_user, rows_with_ids, user_for, Registry};
use crate::text::{dec_digits, int_chars, ip_chars, minutes_left};

verus! {

/// What a user is told about a batch of hosts.
#[derive(Debug)]
pub enum Notification {
    /// The named hosts were reclaimed after their leases expired.
    HostsReleased(Vec<HostId>),
    /// The named hosts' leases expire soon.
    ExpirationSoon(Vec<HostId>),
}

/// Why a notification was not delivered.
#[derive(Clone, Copy, PartialEq, Eq, Structural, Debug)]
pub enum NotifyError {
    /// No user row carries the given identifier.
    UserNotFound,
    /// The user has no notification handle on record.
    NoHandle,
    /// The transport refused the message.
    SendFailed,
}

/// The outbound message primitive. Implementations deliver `text` to
/// `destination` (an opaque delivery handle) and report failure without
/// panicking; the core never needs a richer transport.
pub trait SendMessage {
    fn send_message(&mut self, destination: &str, text: String) -> Result<(), String>;
}

/// The transport selected when message delivery is switched off: every
/// send fails, and callers treat that as a logged, non-fatal event.
pub struct DisabledMessageSender;

impl SendMessage for DisabledMessageSender {
    fn send_message(&mut self, destination: &str, text: String) -> (r: Result<(), String>)
        ensures
            r is Err,
    {
        Err("Message sending disabled".to_owned())
    }
}

/// One numbered line of a notification message: the host's name and
/// address.
pub open spec fn host_line(idx: int, h: Host) -> Seq<char> {
    "\n"@ + dec_digits(idx) + ". "@ + h.hostname@ + " ("@ + ip_chars(h.ip_address as int) + ")"@
}

/// The numbered lines for `hosts`, first line numbered `idx0`.
pub open spec fn released_lines(hosts: Seq<Host>, idx0: int) -> Seq<char>
    decreases hosts.len(),
{
    if hosts.len() == 0 {
        Seq::empty()
    } else {
        released_lines(hosts.drop_last(), idx0) + host_line(
            idx0 + hosts.len() - 1,
            hosts.last(),
        )
    }
}

/// The message telling a user that `hosts` were released.
pub open spec fn released_message(hosts: Seq<Host>) -> Seq<char> {
    "Hosts released:"@ + released_lines(hosts, 1)
}

/// One numbered line of an expiration warning: the host's name, address
/// and minutes left on the lease at time `now`.
pub open spec fn expiring_line(idx: int, h: Host, now: int) -> Seq<char> {
    host_line(idx, h) + " - "@ + int_chars(minutes_left(h.leased_until->0 as int, now))
        + " minutes left"@
}

/// The numbered warning lines for `hosts`, first line numbered `idx0`.
pub open spec fn expiring_lines(hosts: Seq<Host>, now: int, idx0: int) -> Seq<char>
    decreases hosts.len(),
{
    if hosts.len() == 0 {
        Seq::empty()
    } else {
        expiring_lines(hosts.drop_last(), now, idx0) + expiring_line(
            idx0 + hosts.len() - 1,
            hosts.last(),
            now,
        )
    }
}

/// The message warning a user that the leases on `hosts` expire soon,
/// with minutes computed at time `now`.
pub open spec fn expiring_message(hosts: Seq<Host>, now: int) -> Seq<char> {
    "Hosts expiring soon:"@ + expiring_lines(hosts, now, 1)
}

/// Format the released-hosts message for `hosts`, line `k` naming host
/// `k` of the batch.
pub fn format_released_message(hosts: &Vec<Host>) -> (r: String)
    ensures
        r@ == released_message(hosts@),
{
    let ghost hs = hosts@;
    let mut s = String::from_str("Hosts released:");
    let n = hosts.len();
    for i in 0..n
        invariant
            n == hosts.len(),
            hs == hosts@,
            s@ == "Hosts released:"@ + released_lines(hs.take(i as int), 1),
    {
        proof {
            assert(hs.take(i as int + 1).drop_last() =~= hs.take(i as int));
            assert(hs.take(i as int + 1).last() == hs[i as int]);
        }
        s.append("\n");
        push_line_index(&mut s, i);
        s.append(". ");
        s.append(hosts[i].hostname.as_str());
        s.append(" (");
        crate::text::push_ip(&mut s, hosts[i].ip_address);
        s.append(")");
        proof {
            assert(s@ =~= "Hosts released:"@ + released_lines(hs.take(i as int + 1), 1));
        }
    }
    proof {
        assert(hs.take(n as int) =~= hs);
    }
    s
}

/// Format the expiring-soon message for `hosts` at time `now`.
#[verifier::rlimit(60)]
pub fn format_expiring_message(hosts: &Vec<Host>, now: i64) -> (r: String)
    requires
        forall|k: int| 0 <= k < hosts@.len() ==> (#[trigger] hosts@[k]).leased_until is Some,
    ensures
        r@ == expiring_message(hosts@, now as int),
{
    let ghost hs = hosts@;
    let mut s = String::from_str("Hosts expiring soon:");
    let n = hosts.len();
    for i in 0..n
        invariant
            n == hosts.len(),
            hs == hosts@,
            forall|k: int| 0 <= k < hs.len() ==> (#[trigger] hs[k]).leased_until is Some,
            s@ == "Hosts expiring soon:"@ + expiring_lines(hs.take(i as int), now as int, 1),
    {
        proof {
            assert(hs.take(i as int + 1).drop_last() =~= hs.take(i as int));
            assert(hs.take(i as int + 1).last() == hs[i as int]);
        }
        s.append("\n");
        push_line_index(&mut s, i);
        s.append(". ");
        s.append(hosts[i].hostname.as_str());
        s.append(" (");
        crate::text::push_ip(&mut s, hosts[i].ip_address);
        s.append(")");
        s.append(" - ");
        let until = match hosts[i].leased_until {
            Some(t) => t,
            None => vstd::pervasive::unreached(),
        };
        let m = crate::text::compute_minutes_left(until, now);
        crate::text::push_dec_i64(&mut s, m);
        s.append(" minutes left");
        proof {
            assert(s@ =~= "Hosts expiring soon:"@ + expiring_lines(
                hs.take(i as int + 1),
                now as int,
                1,
            ));
        }
    }
    proof {
        assert(hs.take(n as int) =~= hs);
    }
    s
}

/// Append the one-based line number for batch position `i`.
fn push_line_index(s: &mut String, i: usize)
    requires
        i < usize::MAX,
    ensures
        final(s)@ == old(s)@ + dec_digits(i + 1),
{
    crate::text::push_dec_u64(s, (i + 1) as u64);
}

/// The notifier: resolves a user to a delivery handle and dispatches one
/// formatted message per notification through the transport `T`.
pub struct Notifier<T> {
    /// The transport messages are dispatched through.
    pub msg_sender: T,
}

impl<T: SendMessage> Notifier<T> {
    pub fn new(msg_sender: T) -> (r: Notifier<T>) {
        Notifier { msg_sender }
    }

    /// Send `notification` to `user_id`, formatting one message naming
    /// every host of the batch (`now` dates the expiration warnings).
    ///
    /// Fails with `UserNotFound` when no user row carries `user_id`,
    /// with `NoHandle` when the user has no notification handle, and
    /// with `SendFailed` when the transport refuses; an empty batch is
    /// delivered to nobody and succeeds. Delivery itself is the
    /// transport's affair: on a nonempty batch with a resolvable handle
    /// the result is the transport's.
    pub fn notify(
        &mut self,
        registry: &Registry,
        user_id: UserId,
        notification: &Notification,
        now: i64,
    ) -> (r: Result<(), NotifyError>)
        requires
            registry.wf(),
            notification matches Notification::ExpirationSoon(ids) ==> forall|k: int|
                0 <= k < rows_with_ids(registry@.hosts, ids@).len() ==> (#[trigger] rows_with_ids(
                    registry@.hosts,
                    ids@,
                )[k]).leased_until is Some,
        ensures
            (r == Result::<(), NotifyError>::Err(NotifyError::UserNotFound)) <==> !has_user(
                registry@.users,
                user_id,
            ),
            (r == Result::<(), NotifyError>::Err(NotifyError::NoHandle)) <==> (has_user(
                registry@.users,
                user_id,
            ) && user_for(registry@.users, user_id).tg_handle is None),
            has_user(registry@.users, user_id) && user_for(
                registry@.users,
                user_id,
            ).tg_handle is Some && notification_ids(notification)@.len() == 0 ==> r is Ok,
            r is Ok || r == Result::<(), NotifyError>::Err(NotifyError::UserNotFound) || r
                == Result::<(), NotifyError>::Err(NotifyError::NoHandle) || r == Result::<
                (),
                NotifyError,
            >::Err(NotifyError::SendFailed),
    {
        let user = match registry.get_user_by_id(&user_id) {
            Some(user) => user,
            None => {
                return Err(NotifyError::UserNotFound);
            },
        };
        let handle = match user.tg_handle {
            Some(handle) => handle,
            None => {
                return Err(NotifyError::NoHandle);
            },
        };
        let msg = match notification {
            Notification::HostsReleased(hosts_ids) => {
                if hosts_ids.len() == 0 {
                    return Ok(());
                }
                let hosts = registry.get_hosts(hosts_ids.as_slice());
                format_released_message(&hosts)
            },
            Notification::ExpirationSoon(hosts_ids) => {
                if hosts_ids.len() == 0 {
                    return Ok(());
                }
                let hosts = registry.get_hosts(hosts_ids.as_slice());
                format_expiring_message(&hosts, now)
            },
        };
        match self.msg_sender.send_message(handle.as_str(), msg) {
            Ok(()) => Ok(()),
            Err(_) => Err(NotifyError::SendFailed),
        }
    }
}

/// The host identifiers a notification names.
pub open spec fn notification_ids(notification: &Notification) -> Vec<HostId> {
    match notification {
        Notification::HostsReleased(ids) => *ids,
        Notification::ExpirationSoon(ids) => *ids,
    }
}

} // verus!
