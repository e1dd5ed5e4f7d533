use stand_control_bot::hosts::HostsService;
use stand_control_bot::models::{Group, GroupId, Host, HostId};
use stand_control_bot::notifications::{Notifier, SendMessage};
use stand_control_bot::registry::Registry;
use stand_control_bot::release::ReleaseTimer;

struct TestAdapter {
    pub sent: Vec<(String, String)>,
}

impl SendMessage for TestAdapter {
    fn send_message(&mut self, destination: &str, text: String) -> Result<(), String> {
        self.sent.push((destination.to_string(), text));
        Ok(())
    }
}

fn host(id: i32, ip: u32, group: i32) -> Host {
    Host {
        id: HostId(id),
        hostname: format!("h{id}"),
        ip_address: ip,
        leased_until: None,
        user_id: None,
        group_id: GroupId(group),
    }
}

const WARN_WINDOW: i64 = 30 * 60;

#[test]
fn sweep_reclaims_expired_hosts_once() {
    // A second sweep right after the first finds nothing newly expired
    // and produces no further notification.
    let mut service = HostsService::new(Registry::new(), 2);
    service.registry.add_host(host(1, 10, 1)).unwrap();
    let user = service
        .registry
        .add_user("user", Some("77"), "user@example.org")
        .unwrap();
    service
        .lease_at(&user, &Vec::new(), &[HostId(1)], 0, 42)
        .unwrap();

    let mut notifier = Notifier::new(TestAdapter { sent: Vec::new() });
    let mut timer = ReleaseTimer::new(WARN_WINDOW);

    let (released, _) = timer.tick(&mut notifier, &mut service.registry, 43);
    assert_eq!(released.len(), 1);
    assert_eq!(released[0].id, HostId(1));
    assert_eq!(notifier.msg_sender.sent.len(), 1);

    let (released, _) = timer.tick(&mut notifier, &mut service.registry, 43);
    assert!(released.is_empty());
    assert_eq!(notifier.msg_sender.sent.len(), 1);
}

#[test]
fn expiration_warning_is_debounced() {
    // Two sweeps 10 seconds apart over an unchanged expiring set warn
    // once; a changed set is warned about at once.
    let mut service = HostsService::new(Registry::new(), 5);
    service.registry.add_host(host(1, 10, 1)).unwrap();
    service.registry.add_host(host(2, 11, 1)).unwrap();
    let user = service
        .registry
        .add_user("user", Some("77"), "user@example.org")
        .unwrap();
    service
        .lease_at(&user, &Vec::new(), &[HostId(1)], 0, 600)
        .unwrap();

    let mut notifier = Notifier::new(TestAdapter { sent: Vec::new() });
    let mut timer = ReleaseTimer::new(WARN_WINDOW);

    let sent = timer.notify_soon_release(&mut notifier, &service.registry, 100);
    assert_eq!(sent.len(), 1);
    assert_eq!(notifier.msg_sender.sent.len(), 1);

    let sent = timer.notify_soon_release(&mut notifier, &service.registry, 110);
    assert!(sent.is_empty());
    assert_eq!(notifier.msg_sender.sent.len(), 1);

    // The user leases another soon-expiring host: the set changes and a
    // fresh warning goes out at once.
    service
        .lease_at(&user, &Vec::new(), &[HostId(2)], 120, 600)
        .unwrap();
    let sent = timer.notify_soon_release(&mut notifier, &service.registry, 130);
    assert_eq!(sent.len(), 1);
    assert_eq!(sent[0].host_ids, vec![HostId(1), HostId(2)]);
    assert_eq!(notifier.msg_sender.sent.len(), 2);
}

#[test]
fn lease_then_expire_returns_host_to_pool() {
    // Group G has H1 and H2; the user leases H1 for 42 seconds; once it
    // expires, one sweep frees it and tells the user once, naming H1.
    let mut service = HostsService::new(Registry::new(), 2);
    service.registry.add_group(Group { id: GroupId(7), name: "G".to_string() });
    service.registry.add_host(host(1, 0x0A000001, 7)).unwrap();
    service.registry.add_host(host(2, 0x0A000002, 7)).unwrap();
    let user = service
        .registry
        .add_user("user", Some("77"), "user@example.org")
        .unwrap();

    service
        .lease_at(&user, &Vec::new(), &[HostId(1)], 0, 42)
        .unwrap();
    let available: Vec<i32> = service
        .get_available_hosts()
        .unwrap()
        .into_iter()
        .map(|h| h.id.0)
        .collect();
    assert_eq!(available, vec![2]);

    let mut notifier = Notifier::new(TestAdapter { sent: Vec::new() });
    let mut timer = ReleaseTimer::new(WARN_WINDOW);
    let (released, _) = timer.tick(&mut notifier, &mut service.registry, 43);
    assert_eq!(released.len(), 1);

    // The listing comes back in ascending address order: H1 then H2.
    let available: Vec<i32> = service
        .get_available_hosts()
        .unwrap()
        .into_iter()
        .map(|h| h.id.0)
        .collect();
    assert_eq!(available, vec![1, 2]);

    let released_messages: Vec<&(String, String)> = notifier
        .msg_sender
        .sent
        .iter()
        .filter(|(_, text)| text.starts_with("Hosts released:"))
        .collect();
    assert_eq!(released_messages.len(), 1);
    assert_eq!(released_messages[0].1, "Hosts released:\n1. h1 (10.0.0.1)");
}

#[test]
fn conflict_then_quota_rejection() {
    // With quota 2 and H1..H3 free: [H1,H2] is granted, [H2,H3] is a
    // conflict on H2, and [H3] alone runs into the quota.
    let mut service = HostsService::new(Registry::new(), 2);
    service.registry.add_host(host(1, 10, 1)).unwrap();
    service.registry.add_host(host(2, 11, 1)).unwrap();
    service.registry.add_host(host(3, 12, 1)).unwrap();
    let user = service
        .registry
        .add_user("user", Some("77"), "user@example.org")
        .unwrap();

    service
        .lease_at(&user, &Vec::new(), &[HostId(1), HostId(2)], 0, 60)
        .unwrap();

    match service.lease_at(&user, &Vec::new(), &[HostId(2), HostId(3)], 0, 60) {
        Err(stand_control_bot::hosts::HostError::AlreadyLeased(ids)) => {
            assert_eq!(ids, vec![HostId(2)]);
        },
        _ => panic!("expected a conflict on an already-held host"),
    }

    match service.lease_at(&user, &Vec::new(), &[HostId(3)], 0, 60) {
        Err(stand_control_bot::hosts::HostError::LeaseLimit) => (),
        _ => panic!("expected the quota to reject a third lease"),
    }
}

#[test]
fn reclaim_notifies_each_owner_once() {
    // Two owners lose two hosts each in one sweep: each is told once,
    // in one batched message.
    let mut service = HostsService::new(Registry::new(), 5);
    for id in 1..=4 {
        service.registry.add_host(host(id, 10 + id as u32, 1)).unwrap();
    }
    let user1 = service.registry.add_user("u1", Some("11"), "u1@example.org").unwrap();
    let user2 = service.registry.add_user("u2", Some("22"), "u2@example.org").unwrap();
    service
        .lease_at(&user1, &Vec::new(), &[HostId(1), HostId(3)], 0, 10)
        .unwrap();
    service
        .lease_at(&user2, &Vec::new(), &[HostId(2), HostId(4)], 0, 10)
        .unwrap();

    let mut notifier = Notifier::new(TestAdapter { sent: Vec::new() });
    let timer = ReleaseTimer::new(WARN_WINDOW);
    let released = timer.release(&mut service.registry, 11);
    assert_eq!(released.len(), 4);
    let batches = timer.notify_released_hosts(&mut notifier, &service.registry, &released);

    assert_eq!(batches.len(), 2);
    assert_eq!(batches[0].host_ids, vec![HostId(1), HostId(3)]);
    assert_eq!(batches[1].host_ids, vec![HostId(2), HostId(4)]);
    assert_eq!(notifier.msg_sender.sent.len(), 2);
    let destinations: Vec<&str> = notifier
        .msg_sender
        .sent
        .iter()
        .map(|(d, _)| d.as_str())
        .collect();
    assert!(destinations.contains(&"11"));
    assert!(destinations.contains(&"22"));
}
