use stand_control_bot::hosts::HostsService;
use stand_control_bot::models::AdGroupLeaseLimit;
use stand_control_bot::registry::Registry;

fn limit(group: &str, limit: usize) -> AdGroupLeaseLimit {
    AdGroupLeaseLimit { group: group.to_string(), limit }
}

#[test]
fn quota_is_max_over_matching_group_limits() {
    // Limits {G1: 2, G2: 5}; a member of both resolves to 5.
    let mut registry = Registry::new();
    registry.add_lease_limit(limit("G1", 2));
    registry.add_lease_limit(limit("G2", 5));
    let service = HostsService::new(registry, 1);

    let groups = vec!["G1".to_string(), "G2".to_string()];
    assert_eq!(service.get_lease_limit(&groups), 5);

    let groups = vec!["G1".to_string()];
    assert_eq!(service.get_lease_limit(&groups), 2);
}

#[test]
fn quota_falls_back_to_default_without_matches() {
    let mut registry = Registry::new();
    registry.add_lease_limit(limit("G1", 2));
    let service = HostsService::new(registry, 7);

    let groups = vec!["other".to_string()];
    assert_eq!(service.get_lease_limit(&groups), 7);

    let groups: Vec<String> = Vec::new();
    assert_eq!(service.get_lease_limit(&groups), 7);
}

#[test]
fn quota_ignores_non_member_limits() {
    let mut registry = Registry::new();
    registry.add_lease_limit(limit("G1", 2));
    registry.add_lease_limit(limit("G2", 50));
    let service = HostsService::new(registry, 1);

    let groups = vec!["G1".to_string()];
    assert_eq!(service.get_lease_limit(&groups), 2);
}
