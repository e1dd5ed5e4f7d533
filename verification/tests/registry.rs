use stand_control_bot::configuration::Environment;
use stand_control_bot::groups::GroupsService;
use stand_control_bot::ldap::{parse_group_cn, AdUserInfo, LdapAttr};
use stand_control_bot::models::{Group, GroupId, Host, HostId, UserId};
use stand_control_bot::registry::{DbError, Registry};
use stand_control_bot::users::UsersService;
use stand_control_bot::web::{HostInfo, UserInfo};

fn host(id: i32, ip: u32) -> Host {
    Host {
        id: HostId(id),
        hostname: format!("host{id}"),
        ip_address: ip,
        leased_until: None,
        user_id: None,
        group_id: GroupId(1),
    }
}

#[test]
fn duplicate_host_id_is_rejected() {
    let mut registry = Registry::new();
    registry.add_host(host(1, 10)).unwrap();
    assert_eq!(registry.add_host(host(1, 11)), Err(DbError::DuplicateId));
}

#[test]
fn host_with_unknown_owner_is_rejected() {
    let mut registry = Registry::new();
    let mut h = host(1, 10);
    h.user_id = Some(UserId(9));
    h.leased_until = Some(100);
    assert_eq!(registry.add_host(h), Err(DbError::UnknownUser));
}

#[test]
fn host_with_owner_but_no_deadline_is_rejected() {
    let mut registry = Registry::new();
    let user = registry.add_user("u", None, "u@example.org").unwrap();
    let mut h = host(1, 10);
    h.user_id = Some(user);
    assert_eq!(registry.add_host(h), Err(DbError::InvalidRow));
}

#[test]
fn leasing_to_unknown_user_is_rejected() {
    let mut registry = Registry::new();
    registry.add_host(host(1, 10)).unwrap();
    assert_eq!(
        registry.lease_hosts(&UserId(9), &[HostId(1)], 100),
        Err(DbError::UnknownUser)
    );
    // With no matching row the update touches nothing and goes through.
    assert_eq!(registry.lease_hosts(&UserId(9), &[HostId(5)], 100), Ok(()));
}

#[test]
fn users_are_found_by_their_columns() {
    let mut registry = Registry::new();
    let user = registry.add_user("cn=u,dc=org", Some("44"), "u@example.org").unwrap();
    assert_eq!(registry.get_user_by_dn("cn=u,dc=org").unwrap().id, user);
    assert_eq!(registry.get_user_by_mail("u@example.org").unwrap().id, user);
    assert!(registry.get_user_by_mail("missing@example.org").is_none());
}

#[test]
fn link_user_records_the_handle() {
    let mut registry = Registry::new();
    let user = registry.add_user("u", None, "u@example.org").unwrap();
    // A fresh user carries an empty linking token.
    let service = UsersService::new();
    let linked = service.link_user(&mut registry, "", "12345").unwrap().unwrap();
    assert_eq!(linked.id, user);
    assert_eq!(linked.tg_handle.as_deref(), Some("12345"));

    assert!(service
        .link_user(&mut registry, "unknown-token", "1")
        .unwrap()
        .is_none());
}

#[test]
fn groups_are_listed_in_order() {
    let mut registry = Registry::new();
    registry.add_group(Group { id: GroupId(1), name: "a".to_string() });
    registry.add_group(Group { id: GroupId(2), name: "b".to_string() });
    let names: Vec<String> = GroupsService::new()
        .get_all_groups(&registry)
        .unwrap()
        .into_iter()
        .map(|g| g.name)
        .collect();
    assert_eq!(names, vec!["a".to_string(), "b".to_string()]);
}

#[test]
fn environment_names_parse_case_insensitively() {
    assert!(matches!(
        Environment::try_from("local".to_string()),
        Ok(Environment::Local)
    ));
    assert!(matches!(
        Environment::try_from("LOCAL".to_string()),
        Ok(Environment::Local)
    ));
    assert!(matches!(
        Environment::try_from("Production".to_string()),
        Ok(Environment::Production)
    ));
    assert_eq!(
        Environment::try_from("staging".to_string()).unwrap_err(),
        "Unsupported environment type: staging. Use `local` or `production`"
    );
    assert_eq!(Environment::Local.as_str(), "local");
    assert_eq!(Environment::Production.as_str(), "production");
}

#[test]
fn host_and_group_ids_parse_from_text() {
    assert!(matches!(HostId::try_from("42".to_string()), Ok(HostId(42))));
    assert!(matches!(HostId::try_from("-7".to_string()), Ok(HostId(-7))));
    assert_eq!(
        HostId::try_from("x".to_string()).unwrap_err(),
        "Wrong value x, can not parse to as i32"
    );
    assert_eq!(
        HostId::try_from("2147483648".to_string()).unwrap_err(),
        "Wrong value 2147483648, can not parse to as i32"
    );
    assert!(matches!(HostId::try_from("-2147483648".to_string()), Ok(HostId(i32::MIN))));
    assert!(matches!(GroupId::from_str("5"), Ok(GroupId(5))));
    assert_eq!(
        GroupId::from_str("").unwrap_err(),
        "Wrong value , can not parse to as i32"
    );
}

#[test]
fn group_common_names_come_from_distinguished_names() {
    assert_eq!(
        parse_group_cn("CN=devs,OU=groups,DC=example,DC=org").as_deref(),
        Some("devs")
    );
    assert_eq!(parse_group_cn("OU=groups,CN=late,DC=org").as_deref(), Some("late"));
    assert_eq!(parse_group_cn("OU=groups,DC=org"), None);
    assert_eq!(parse_group_cn("").as_deref(), None);
}

#[test]
fn directory_entry_parses_into_user_info() {
    let attrs = vec![
        LdapAttr { name: "mail".to_string(), values: vec!["u@example.org".to_string()] },
        LdapAttr {
            name: "memberOf".to_string(),
            values: vec![
                "CN=G1,DC=org".to_string(),
                "OU=none,DC=org".to_string(),
                "CN=G2,DC=org".to_string(),
            ],
        },
    ];
    let info = AdUserInfo::try_from("cn=u,dc=org".to_string(), &attrs).unwrap();
    assert_eq!(info.dn, "cn=u,dc=org");
    assert_eq!(info.email, "u@example.org");
    assert_eq!(info.groups, vec!["G1".to_string(), "G2".to_string()]);

    let no_mail = vec![LdapAttr { name: "memberOf".to_string(), values: Vec::new() }];
    assert_eq!(
        AdUserInfo::try_from("dn".to_string(), &no_mail).unwrap_err(),
        "Unable to parse SearchEntry"
    );
}

#[test]
fn display_records_render_plain_values() {
    let h = host(3, 0x7F000001);
    let info = HostInfo::from_host(h);
    assert_eq!(info.ip_address, "127.0.0.1");
    assert_eq!(info.hostname, "host3");
    assert!(info.lease_info.is_none());

    let mut registry = Registry::new();
    let uid = registry.add_user("u", Some("9"), "u@example.org").unwrap();
    let user = registry.get_user_by_id(&uid).unwrap();
    let shown = UserInfo::from(user);
    assert_eq!(shown.login, "u");
    assert!(shown.tg_linked);
}
