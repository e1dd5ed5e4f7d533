use stand_control_bot::hosts::{HostError, HostsService};
use stand_control_bot::models::{Group, GroupId, Host, HostId, UserId};
use stand_control_bot::registry::Registry;

fn host(id: i32, ip: u32, group: i32) -> Host {
    Host {
        id: HostId(id),
        hostname: format!("host{id}"),
        ip_address: ip,
        leased_until: None,
        user_id: None,
        group_id: GroupId(group),
    }
}

fn add_user(registry: &mut Registry, name: &str) -> UserId {
    registry
        .add_user(name, Some("handle"), &format!("{name}@example.org"))
        .unwrap()
}

fn create_service() -> HostsService {
    HostsService::new(Registry::new(), 9999)
}

fn create_service_with_limit(limit: usize) -> HostsService {
    HostsService::new(Registry::new(), limit)
}

#[test]
fn hosts_leasing_host_adds_them_to_user_leased_hosts() {
    let mut service = create_service();
    service.registry.add_host(host(1, 10, 1)).unwrap();
    service.registry.add_host(host(2, 11, 1)).unwrap();
    let user = add_user(&mut service.registry, "user");
    let before = chrono::Utc::now().timestamp();

    let leased = service
        .lease(&user, &Vec::new(), &[HostId(1)], 42)
        .unwrap();

    assert_eq!(leased.len(), 1);
    assert_eq!(leased[0].id, HostId(1));
    assert_eq!(leased[0].user.id, user);
    assert!(before < leased[0].leased_until);

    let available_hosts = service.get_available_hosts().unwrap();

    assert_eq!(available_hosts.len(), 1);
    assert_eq!(HostId(2), available_hosts[0].id);
    assert!(available_hosts[0].leased_until.is_none());
}

#[test]
fn hosts_leasing_random_host_leases_one_host() {
    let mut service = create_service();
    let group = Group { id: GroupId(7), name: "g".to_string() };
    service.registry.add_group(group);
    service.registry.add_host(host(1, 10, 7)).unwrap();
    service.registry.add_host(host(2, 11, 7)).unwrap();
    let user = add_user(&mut service.registry, "user");

    let leased = service
        .lease_random(&user, &Vec::new(), 42, &GroupId(7))
        .unwrap();

    assert!([HostId(1), HostId(2)].contains(&leased.id));
}

#[test]
fn leasing_multiple_hosts() {
    let mut service = create_service();
    service.registry.add_group(Group { id: GroupId(7), name: "g".to_string() });
    service.registry.add_host(host(1, 10, 7)).unwrap();
    service.registry.add_host(host(2, 11, 7)).unwrap();
    service.registry.add_host(host(3, 12, 7)).unwrap();
    let user = add_user(&mut service.registry, "user");

    service
        .lease(&user, &Vec::new(), &[HostId(1), HostId(2)], 42)
        .unwrap();

    service
        .lease_random(&user, &Vec::new(), 42, &GroupId(7))
        .unwrap();

    let available = service.get_available_hosts().unwrap();
    assert!(available.is_empty());

    let leased = service.get_leased_hosts(&user).unwrap();

    let mut got: Vec<i32> = leased.into_iter().map(|h| h.id.0).collect();
    got.sort();
    assert_eq!(got, vec![1, 2, 3]);
}

#[test]
fn freeing_host_makes_it_available_for_lease() {
    let mut service = create_service();
    service.registry.add_host(host(1, 10, 1)).unwrap();
    service.registry.add_host(host(2, 11, 1)).unwrap();
    let user = add_user(&mut service.registry, "user");

    let available = service.get_available_hosts().unwrap();
    assert_eq!(available.len(), 2);

    service.lease(&user, &Vec::new(), &[HostId(1)], 42).unwrap();

    let available = service.get_available_hosts().unwrap();
    assert_eq!(available.len(), 1);
    assert_eq!(available[0].id, HostId(2));

    service.free(&user, &[HostId(1)]).unwrap();

    let available = service.get_available_hosts().unwrap();
    assert_eq!(available.len(), 2);
    let mut got: Vec<i32> = available.into_iter().map(|h| h.id.0).collect();
    got.sort();
    assert_eq!(got, vec![1, 2]);
}

#[test]
fn free_all_frees_hosts_only_for_one_user() {
    let mut service = create_service();
    service.registry.add_host(host(1, 10, 1)).unwrap();
    service.registry.add_host(host(2, 11, 1)).unwrap();
    service.registry.add_host(host(3, 12, 1)).unwrap();
    let user1 = add_user(&mut service.registry, "user1");
    let user2 = add_user(&mut service.registry, "user2");

    service
        .lease(&user1, &Vec::new(), &[HostId(1), HostId(2)], 42)
        .unwrap();

    service.lease(&user2, &Vec::new(), &[HostId(3)], 42).unwrap();

    let available = service.get_available_hosts().unwrap();
    assert!(available.is_empty());

    service.free_all(&user1).unwrap();

    let available = service.get_available_hosts().unwrap();
    assert_eq!(available.len(), 2);
    let leased_u1 = service.get_leased_hosts(&user1).unwrap();
    assert!(leased_u1.is_empty());

    let leased_u2 = service.get_leased_hosts(&user2).unwrap();
    assert_eq!(leased_u2.len(), 1);
}

#[test]
fn leased_until_read() {
    let mut registry = Registry::new();
    registry.add_host(host(1, 10, 1)).unwrap();
    let user = add_user(&mut registry, "user");

    let date = 1_000_000;
    let lease_time = 30;

    registry
        .lease_hosts(&user, &[HostId(1)], date + lease_time)
        .unwrap();

    let hosts_ids = registry.get_leased_until_hosts(date + lease_time - 1);
    assert!(hosts_ids.is_empty());

    let hosts_ids: Vec<HostId> = registry
        .get_leased_until_hosts(date + lease_time + 1)
        .into_iter()
        .map(|h| h.id)
        .collect();
    assert_eq!(hosts_ids, vec![HostId(1)]);
}

#[test]
fn lease_limit() {
    let mut service = create_service_with_limit(2);
    service.registry.add_group(Group { id: GroupId(7), name: "g".to_string() });
    service.registry.add_host(host(1, 10, 7)).unwrap();
    service.registry.add_host(host(2, 11, 7)).unwrap();
    service.registry.add_host(host(3, 12, 7)).unwrap();
    let user = add_user(&mut service.registry, "user");

    // lease too many at once
    match service.lease(&user, &Vec::new(), &[HostId(1), HostId(2), HostId(3)], 42) {
        Ok(_) => panic!("Didn't error on lease limit"),
        Err(e) => match e {
            HostError::LeaseLimit => (),
            _ => panic!("Wrong error type on lease error"),
        },
    };

    service.lease(&user, &Vec::new(), &[HostId(1)], 42).unwrap();

    // leasing 2 will go over the limit
    match service.lease(&user, &Vec::new(), &[HostId(2), HostId(3)], 42) {
        Ok(_) => panic!("Didn't error on lease limit"),
        Err(e) => match e {
            HostError::LeaseLimit => (),
            _ => panic!("Wrong error type on lease error"),
        },
    };

    // leasing 2, but one of them is already leased
    match service.lease(&user, &Vec::new(), &[HostId(1), HostId(2)], 42) {
        Ok(_) => panic!("Didn't error on lease limit"),
        Err(e) => match e {
            HostError::AlreadyLeased(_) => (),
            _ => panic!("Wrong error type on lease error"),
        },
    };

    service.lease(&user, &Vec::new(), &[HostId(2)], 42).unwrap();

    // leasing random when at limit
    match service.lease_random(&user, &Vec::new(), 42, &GroupId(7)) {
        Ok(_) => panic!("Didn't error on lease limit"),
        Err(e) => match e {
            HostError::LeaseLimit => (),
            _ => panic!("Wrong error type on lease error"),
        },
    };
}

#[test]
fn leasing_for_unknown_user_is_a_storage_failure() {
    let mut service = create_service();
    service.registry.add_host(host(1, 10, 1)).unwrap();

    match service.lease(&UserId(99), &Vec::new(), &[HostId(1)], 42) {
        Err(HostError::DatabaseError) => (),
        _ => panic!("expected the store to reject an unknown owner"),
    }
}

#[test]
fn lease_random_without_free_hosts_fails() {
    let mut service = create_service();
    service.registry.add_group(Group { id: GroupId(7), name: "g".to_string() });
    let user = add_user(&mut service.registry, "user");

    match service.lease_random(&user, &Vec::new(), 42, &GroupId(7)) {
        Err(HostError::ThereIsNoFreeHosts) => (),
        _ => panic!("expected an empty group to have no free host"),
    }
}

#[test]
fn lease_deadline_overflow_is_rejected() {
    let mut service = create_service();
    service.registry.add_host(host(1, 10, 1)).unwrap();
    let user = add_user(&mut service.registry, "user");

    match service.lease(&user, &Vec::new(), &[HostId(1)], i64::MAX) {
        Err(HostError::UnexpectedError) => (),
        _ => panic!("expected deadline arithmetic to be rejected"),
    }
}

#[test]
fn leasing_returns_only_the_freshly_leased_rows() {
    let mut service = create_service();
    service.registry.add_host(host(1, 10, 1)).unwrap();
    service.registry.add_host(host(2, 11, 1)).unwrap();
    let user = add_user(&mut service.registry, "user");

    service.lease(&user, &Vec::new(), &[HostId(1)], 42).unwrap();
    let leased = service.lease(&user, &Vec::new(), &[HostId(2)], 42).unwrap();

    assert_eq!(leased.len(), 1);
    assert_eq!(leased[0].id, HostId(2));
    assert_eq!(service.get_leased_hosts(&user).unwrap().len(), 2);
}

#[test]
fn empty_lease_request_is_a_no_op() {
    let mut service = create_service();
    service.registry.add_host(host(1, 10, 1)).unwrap();
    let user = add_user(&mut service.registry, "user");
    service.lease(&user, &Vec::new(), &[HostId(1)], 42).unwrap();

    let leased = service.lease(&user, &Vec::new(), &[], 42).unwrap();

    assert!(leased.is_empty());
    assert_eq!(service.get_leased_hosts(&user).unwrap().len(), 1);
}

#[test]
fn listings_are_ordered_by_ascending_address() {
    let mut service = create_service();
    // Inserted with descending addresses; every listing comes back
    // ascending.
    service.registry.add_host(host(1, 30, 1)).unwrap();
    service.registry.add_host(host(2, 10, 1)).unwrap();
    service.registry.add_host(host(3, 20, 1)).unwrap();

    let all: Vec<u32> = service
        .get_all_hosts()
        .unwrap()
        .into_iter()
        .map(|h| h.ip_address)
        .collect();
    assert_eq!(all, vec![10, 20, 30]);

    let available: Vec<u32> = service
        .get_available_hosts()
        .unwrap()
        .into_iter()
        .map(|h| h.ip_address)
        .collect();
    assert_eq!(available, vec![10, 20, 30]);

    let in_group: Vec<u32> = service
        .get_available_group_hosts(&GroupId(1))
        .unwrap()
        .into_iter()
        .map(|h| h.ip_address)
        .collect();
    assert_eq!(in_group, vec![10, 20, 30]);
}

#[test]
fn leased_hosts_are_ordered_by_deadline_then_address() {
    let mut service = create_service();
    service.registry.add_host(host(1, 10, 1)).unwrap();
    service.registry.add_host(host(2, 11, 1)).unwrap();
    service.registry.add_host(host(3, 12, 1)).unwrap();
    let user = add_user(&mut service.registry, "user");

    // The host with the larger address expires first; a third shares its
    // deadline with the first and breaks the tie by address.
    service.lease_at(&user, &Vec::new(), &[HostId(2)], 0, 50).unwrap();
    service.lease_at(&user, &Vec::new(), &[HostId(1)], 0, 100).unwrap();
    service.lease_at(&user, &Vec::new(), &[HostId(3)], 0, 50).unwrap();

    let leased: Vec<(i64, u32)> = service
        .get_leased_hosts(&user)
        .unwrap()
        .into_iter()
        .map(|h| (h.leased_until, h.ip_address))
        .collect();
    assert_eq!(leased, vec![(50, 11), (50, 12), (100, 10)]);
}
