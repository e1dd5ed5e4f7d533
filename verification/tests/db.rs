use stand_control_bot::hosts::HostsService;
use stand_control_bot::models::{GroupId, Host, HostId, UserId};
use stand_control_bot::registry::Registry;

fn host(id: i32, ip: u32) -> Host {
    Host {
        id: HostId(id),
        hostname: format!("host{id}"),
        ip_address: ip,
        leased_until: None,
        user_id: None,
        group_id: GroupId(1),
    }
}

fn add_user(registry: &mut Registry, name: &str) -> UserId {
    registry
        .add_user(name, Some("handle"), &format!("{name}@example.org"))
        .unwrap()
}

#[test]
fn main_leasing_host_adds_them_to_user_leased_hosts() {
    let mut service = HostsService::new(Registry::new(), 9999);
    service.registry.add_host(host(1, 10)).unwrap();
    service.registry.add_host(host(2, 11)).unwrap();
    let user_id = add_user(&mut service.registry, "user");
    let before = chrono::Utc::now().timestamp();

    let leased = service
        .lease(&user_id, &Vec::new(), &[HostId(1)], 42)
        .unwrap();

    assert_eq!(leased.len(), 1);
    assert_eq!(leased[0].id, HostId(1));
    assert_eq!(leased[0].user.id, user_id);
    assert!(before < leased[0].leased_until);

    let available_hosts = service.get_available_hosts().unwrap();

    assert_eq!(available_hosts.len(), 1);
    assert_eq!(HostId(2), available_hosts[0].id);
    assert!(available_hosts[0].leased_until.is_none());
}

#[test]
fn main_leasing_random_host_leases_one_host() {
    let mut service = HostsService::new(Registry::new(), 9999);
    service.registry.add_host(host(1, 10)).unwrap();
    service.registry.add_host(host(2, 11)).unwrap();
    let user_id = add_user(&mut service.registry, "user");

    let leased = service
        .lease_random(&user_id, &Vec::new(), 42, &GroupId(1))
        .unwrap();

    assert!([HostId(1), HostId(2)].contains(&leased.id));
}
