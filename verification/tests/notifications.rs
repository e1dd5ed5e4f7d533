use stand_control_bot::models::{GroupId, Host, HostId};
use stand_control_bot::notifications::{
    DisabledMessageSender, Notification, Notifier, NotifyError, SendMessage,
};
use stand_control_bot::registry::Registry;

struct TestAdapter {
    pub sent: Vec<(String, String)>,
}

impl SendMessage for TestAdapter {
    fn send_message(&mut self, destination: &str, text: String) -> Result<(), String> {
        self.sent.push((destination.to_string(), text));
        Ok(())
    }
}

fn host(id: i32, ip: u32, until: Option<i64>, owner: Option<i32>) -> Host {
    Host {
        id: HostId(id),
        hostname: format!("host{id}"),
        ip_address: ip,
        leased_until: until,
        user_id: owner.map(stand_control_bot::models::UserId),
        group_id: GroupId(1),
    }
}

#[test]
fn release_notification_send() {
    let mut registry = Registry::new();
    let user = registry.add_user("user", Some("4242"), "user@example.org").unwrap();
    registry.add_host(host(1, 10, None, None)).unwrap();

    let mut notifier = Notifier::new(TestAdapter { sent: Vec::new() });

    notifier
        .notify(&registry, user, &Notification::HostsReleased(vec![HostId(1)]), 0)
        .unwrap();
    let (destination, _) = notifier
        .msg_sender
        .sent
        .pop()
        .expect("Failed receive expected message");
    assert_eq!(destination, "4242");
}

#[test]
fn released_message_lists_hosts_in_order() {
    let mut registry = Registry::new();
    let user = registry.add_user("user", Some("77"), "user@example.org").unwrap();
    registry.add_host(host(1, 0x0A000001, None, None)).unwrap();
    registry.add_host(host(2, 0x0A000002, None, None)).unwrap();

    let mut notifier = Notifier::new(TestAdapter { sent: Vec::new() });
    notifier
        .notify(
            &registry,
            user,
            &Notification::HostsReleased(vec![HostId(1), HostId(2)]),
            0,
        )
        .unwrap();

    let (_, text) = notifier.msg_sender.sent.pop().unwrap();
    assert_eq!(
        text,
        "Hosts released:\n1. host1 (10.0.0.1)\n2. host2 (10.0.0.2)"
    );
}

#[test]
fn expiring_message_reports_minutes_left() {
    let mut registry = Registry::new();
    let user = registry.add_user("user", Some("77"), "user@example.org").unwrap();
    registry
        .add_host(host(1, 0x0A000001, Some(600), Some(user.0)))
        .unwrap();

    let mut notifier = Notifier::new(TestAdapter { sent: Vec::new() });
    notifier
        .notify(
            &registry,
            user,
            &Notification::ExpirationSoon(vec![HostId(1)]),
            0,
        )
        .unwrap();

    let (_, text) = notifier.msg_sender.sent.pop().unwrap();
    assert_eq!(text, "Hosts expiring soon:\n1. host1 (10.0.0.1) - 10 minutes left");
}

#[test]
fn notify_unknown_user_fails() {
    let registry = Registry::new();
    let mut notifier = Notifier::new(TestAdapter { sent: Vec::new() });
    let r = notifier.notify(
        &registry,
        stand_control_bot::models::UserId(1),
        &Notification::HostsReleased(vec![HostId(1)]),
        0,
    );
    assert_eq!(r, Err(NotifyError::UserNotFound));
}

#[test]
fn notify_without_handle_fails() {
    let mut registry = Registry::new();
    let user = registry.add_user("user", None, "user@example.org").unwrap();
    let mut notifier = Notifier::new(TestAdapter { sent: Vec::new() });
    let r = notifier.notify(&registry, user, &Notification::HostsReleased(vec![HostId(1)]), 0);
    assert_eq!(r, Err(NotifyError::NoHandle));
}

#[test]
fn disabled_sender_fails_delivery() {
    let mut registry = Registry::new();
    let user = registry.add_user("user", Some("77"), "user@example.org").unwrap();
    registry.add_host(host(1, 10, None, None)).unwrap();
    let mut notifier = Notifier::new(DisabledMessageSender);
    let r = notifier.notify(&registry, user, &Notification::HostsReleased(vec![HostId(1)]), 0);
    assert_eq!(r, Err(NotifyError::SendFailed));
}

#[test]
fn empty_batch_is_delivered_to_nobody() {
    let mut registry = Registry::new();
    let user = registry.add_user("user", Some("77"), "user@example.org").unwrap();
    let mut notifier = Notifier::new(TestAdapter { sent: Vec::new() });
    let r = notifier.notify(&registry, user, &Notification::HostsReleased(Vec::new()), 0);
    assert_eq!(r, Ok(()));
    assert!(notifier.msg_sender.sent.is_empty());
}
