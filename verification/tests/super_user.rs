use gauge::group_graph::{GraphSnapshot, GroupPrincipalRecord, GroupRecord, UserPrincipalRecord};
use gauge::model::{Actor, RecordId};
use gauge::super_user::{
    actor_is_super_user, actor_user_candidates, classify_seed_result, count_foreign_super_user_groups,
    group_has_recursive_member, no_user_found_message, principal_kind_label, seed_email_target,
    seed_super_user_members_from_emails, super_group_edges_to_add, ensure_super_user_group, ensure_user_in_super_group, EmailSeedResult,
    SeedOutcome, SuperUserGroupRow, SuperUserSeedStats, SUPER_USER_GROUP_ID, SUPER_USER_GROUP_NAME,
};

fn rid(table: &str, id: &str) -> RecordId {
    RecordId::new(table, id)
}

fn user_principal(id: &str, user: &str) -> UserPrincipalRecord {
    UserPrincipalRecord { id: id.to_string(), user: rid("user", user) }
}

fn group_principal(id: &str, group: &str) -> GroupPrincipalRecord {
    GroupPrincipalRecord { id: id.to_string(), group: rid("permission_group", group) }
}

fn group(id: &str, owners: Vec<RecordId>, members: Vec<RecordId>) -> GroupRecord {
    GroupRecord { id: id.to_string(), owners, members }
}

fn up(id: &str) -> RecordId {
    rid("permission_user_principal", id)
}

fn gp(id: &str) -> RecordId {
    rid("permission_group_principal", id)
}

/// Super User group owned by alice; bob is a member of "ops", which is a member of the
/// Super User group; carol only belongs to a duplicate group named like it.
fn graph() -> GraphSnapshot {
    GraphSnapshot {
        groups: vec![
            group(SUPER_USER_GROUP_ID, vec![up("user:alice")], vec![gp("permission_group:ops")]),
            group("ops", vec![], vec![up("user:bob")]),
            group("dup_super", vec![up("user:carol")], vec![up("user:carol")]),
        ],
        user_principals: vec![
            user_principal("user:alice", "alice"),
            user_principal("user:bob", "bob"),
            user_principal("user:carol", "carol"),
        ],
        group_principals: vec![group_principal("permission_group:ops", "ops")],
    }
}

fn user(id: &str) -> Actor {
    Actor::User { user_id: id.to_string() }
}

#[test]
fn system_actor_is_always_super_user() {
    let empty = GraphSnapshot { groups: vec![], user_principals: vec![], group_principals: vec![] };
    assert!(actor_is_super_user(&Actor::System { operation: "boot".into() }, &empty));
    assert!(!actor_is_super_user(&Actor::Anonymous, &graph()));
}

#[test]
fn direct_owner_and_nested_member_are_super_users() {
    let g = graph();
    assert!(actor_is_super_user(&user("alice"), &g));
    assert!(actor_is_super_user(&user("user:alice"), &g));
    assert!(actor_is_super_user(&user("bob"), &g));
}

#[test]
fn duplicate_named_group_grants_nothing() {
    let g = graph();
    assert!(!actor_is_super_user(&user("carol"), &g));
    assert!(!actor_is_super_user(&user("dave"), &g));
}

#[test]
fn missing_super_user_group_grants_nothing() {
    let mut g = graph();
    g.groups.remove(0);
    assert!(!actor_is_super_user(&user("alice"), &g));
}

#[test]
fn empty_member_edge_is_not_followed() {
    let g = GraphSnapshot {
        groups: vec![group("root", vec![], vec![up("")])],
        user_principals: vec![user_principal("", "ghost")],
        group_principals: vec![],
    };
    assert!(!group_has_recursive_member(&g, 0, &vec!["ghost".to_string()]));
    let g2 = GraphSnapshot {
        groups: vec![group("root", vec![up("")], vec![])],
        user_principals: vec![user_principal("", "ghost")],
        group_principals: vec![],
    };
    assert!(group_has_recursive_member(&g2, 0, &vec!["ghost".to_string()]));
}

#[test]
fn group_cycles_terminate() {
    let g = GraphSnapshot {
        groups: vec![
            group("a", vec![gp("permission_group:b")], vec![]),
            group("b", vec![], vec![gp("permission_group:a")]),
        ],
        user_principals: vec![],
        group_principals: vec![group_principal("permission_group:a", "a"), group_principal("permission_group:b", "b")],
    };
    assert!(!group_has_recursive_member(&g, 0, &vec!["x".to_string()]));
}

#[test]
fn actor_candidates_hold_full_and_bare_ids() {
    let c = actor_user_candidates("user:alice");
    assert_eq!(c.len(), 2);
    assert!(c.contains(&"user:alice".to_string()));
    assert!(c.contains(&"alice".to_string()));
    assert_eq!(actor_user_candidates("alice"), vec!["alice".to_string()]);
}

#[test]
fn principal_kind_labels() {
    assert_eq!(principal_kind_label(&up("user:a")), Some("user"));
    assert_eq!(principal_kind_label(&gp("permission_group:a")), Some("group"));
    assert_eq!(principal_kind_label(&rid("user", "a")), None);
}

#[test]
fn seed_stats_count_each_address_once() {
    let results = vec![
        EmailSeedResult { email: "ops@example.com".into(), result: Ok(()) },
        EmailSeedResult { email: "   ".into(), result: Ok(()) },
        EmailSeedResult {
            email: "ghost@example.com".into(),
            result: Err(no_user_found_message("ghost@example.com")),
        },
        EmailSeedResult { email: "err@example.com".into(), result: Err("database down".into()) },
    ];
    let stats = seed_super_user_members_from_emails(&results);
    assert_eq!(
        stats,
        SuperUserSeedStats { configured: 4, seeded: 1, missing_user: 2, failed: 1 }
    );
    assert_eq!(stats.configured, stats.seeded + stats.missing_user + stats.failed);
}

#[test]
fn seed_stats_default_is_zero() {
    assert_eq!(
        SuperUserSeedStats::default(),
        SuperUserSeedStats { configured: 0, seeded: 0, missing_user: 0, failed: 0 }
    );
    assert_eq!(seed_super_user_members_from_emails(&vec![]).configured, 0);
}

#[test]
fn no_user_message_and_classification() {
    assert_eq!(no_user_found_message("a@b.c"), "no user found for email a@b.c");
    let r = EmailSeedResult { email: "a@b.c".into(), result: Err(no_user_found_message("a@b.c")) };
    assert_eq!(classify_seed_result(&r), SeedOutcome::MissingUser);
}

#[test]
fn seed_target_trims_or_skips() {
    assert_eq!(seed_email_target("  ops@example.com "), Some("ops@example.com".to_string()));
    assert_eq!(seed_email_target(" \t "), None);
}

#[test]
fn super_group_edges_are_added_once() {
    let owners = vec![up("user:alice"), gp("user:bob")];
    let members = vec![gp("user:bob")];
    assert_eq!(super_group_edges_to_add(&owners, &members, "user:alice"), (false, true));
    assert_eq!(super_group_edges_to_add(&owners, &members, "user:bob"), (true, false));
    let owners2 = vec![up("user:carol")];
    let members2 = vec![up("user:carol")];
    assert_eq!(super_group_edges_to_add(&owners2, &members2, "user:carol"), (false, false));
}

#[test]
fn foreign_super_user_groups_are_counted() {
    let ids = vec![Some(SUPER_USER_GROUP_ID.to_string()), Some("dup".to_string()), None];
    assert_eq!(count_foreign_super_user_groups(&ids), 2);
}

#[test]
fn joining_the_super_group_plans_principal_and_missing_edges() {
    let owners = vec![up("user:alice")];
    let members = vec![gp("permission_group:ops")];
    let plan = ensure_user_in_super_group(&owners, &members, &rid("user", "bob"));
    assert_eq!(plan.principal, up("user:bob"));
    assert_eq!(plan.user, rid("user", "bob"));
    assert_eq!(plan.user_key, "bob");
    assert!(plan.add_owner);
    assert!(plan.add_member);
    let alice = ensure_user_in_super_group(&owners, &members, &rid("user", "alice"));
    assert!(!alice.add_owner);
    assert!(alice.add_member);
    let owners2 = vec![up("user:alice"), up("user:bob")];
    let members2 = vec![gp("permission_group:ops"), up("user:bob")];
    let again = ensure_user_in_super_group(&owners2, &members2, &rid("user", "bob"));
    assert!(!again.add_owner);
    assert!(!again.add_member);
}

#[test]
fn super_group_principal_links_the_users_own_record() {
    let user = rid("user", "legacy:erin");
    let plan = ensure_user_in_super_group(&vec![], &vec![], &user);
    assert_eq!(plan.user, user);
    assert_eq!(plan.principal, up("user:erin"));
    assert_eq!(plan.user_key, "erin");
}

#[test]
fn super_group_row_is_created_only_when_missing() {
    let (created, write) = ensure_super_user_group(None, 1_700);
    assert!(write);
    assert_eq!(
        created,
        SuperUserGroupRow {
            id: SUPER_USER_GROUP_ID.to_string(),
            name: SUPER_USER_GROUP_NAME.to_string(),
            description: Some("Hard-coded singleton super-user group".to_string()),
            created_at: 1_700,
            updated_at: 1_700,
        }
    );
    let stored = SuperUserGroupRow {
        id: SUPER_USER_GROUP_ID.to_string(),
        name: "Renamed".to_string(),
        description: None,
        created_at: 5,
        updated_at: 6,
    };
    let (kept, write_again) = ensure_super_user_group(Some(stored.clone()), 1_700);
    assert!(!write_again);
    assert_eq!(kept, stored);
}
