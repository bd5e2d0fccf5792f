use gauge::migrate_principal_connections::{
    list_group_record_ids, list_permission_record_ids,
    migrate_permission_principal_connections_with_valence, Edge, MigrationError, MigrationOp,
    MigrationStore,
};
use gauge::model::RecordId;

fn rid(t: &str, i: &str) -> RecordId {
    RecordId::new(t, i)
}

fn edge(t: &str, from: RecordId, to: RecordId) -> Edge {
    Edge { table: t.into(), from, to }
}

fn store() -> MigrationStore {
    MigrationStore {
        users: vec!["alice".into(), "bob".into()],
        groups: vec!["g1".into()],
        user_principals: vec!["user:bob".into()],
        group_principals: vec![],
        edges: vec![
            edge("permission_allowed_user", rid("permission", "p1"), rid("user", "alice")),
            edge("permission_allowed_user", rid("permission", "p1"), rid("account", "x")),
            edge("permission_allowed_user", rid("permission", "p1"), rid("user", "")),
            edge("permission_allowed_group", rid("permission", "p1"), rid("permission_group", "g1")),
            edge("permission_group_member_user", rid("permission_group", "g1"), rid("user", "bob")),
        ],
    }
}

#[test]
fn migration_copies_legacy_edges_and_creates_principals() {
    let mut st = store();
    let perms = vec![rid("permission", "p1")];
    let groups = vec![rid("permission_group", "g1")];
    let plan = migrate_permission_principal_connections_with_valence(&perms, &groups, &mut st);
    assert_eq!(plan.error, None);
    assert_eq!(
        plan.ops,
        vec![
            MigrationOp::UpsertUserPrincipal {
                principal_id: "user:alice".into(),
                user: rid("user", "alice"),
                user_key: "alice".into(),
            },
            MigrationOp::RelateEdge {
                table: "permission_allowed_principal".into(),
                from: rid("permission", "p1"),
                to: rid("permission_user_principal", "user:alice"),
            },
            MigrationOp::UpsertGroupPrincipal {
                principal_id: "permission_group:g1".into(),
                group: rid("permission_group", "g1"),
                group_id: "g1".into(),
            },
            MigrationOp::RelateEdge {
                table: "permission_allowed_principal".into(),
                from: rid("permission", "p1"),
                to: rid("permission_group_principal", "permission_group:g1"),
            },
            MigrationOp::RelateEdge {
                table: "permission_group_member_principal".into(),
                from: rid("permission_group", "g1"),
                to: rid("permission_user_principal", "user:bob"),
            },
        ]
    );
    let again = migrate_permission_principal_connections_with_valence(&perms, &groups, &mut st);
    assert_eq!(again.error, None);
    assert!(again.ops.is_empty());
}

#[test]
fn missing_user_stops_the_migration_after_earlier_writes() {
    let mut st = store();
    st.edges.push(edge("permission_group_owner_user", rid("permission_group", "g1"), rid("user", "ghost")));
    let plan = migrate_permission_principal_connections_with_valence(
        &vec![rid("permission", "p1")],
        &vec![rid("permission_group", "g1")],
        &mut st,
    );
    assert_eq!(plan.error, Some(MigrationError::UserNotFound("ghost".into())));
    assert_eq!(plan.ops.len(), 4);
    assert_eq!(
        plan.error.unwrap().message(),
        "User not found during migration: ghost"
    );
}

#[test]
fn missing_group_is_reported() {
    let mut st = store();
    st.groups.clear();
    let plan = migrate_permission_principal_connections_with_valence(&vec![rid("permission", "p1")], &vec![], &mut st);
    assert_eq!(plan.error, Some(MigrationError::GroupNotFound("g1".into())));
    assert_eq!(
        MigrationError::GroupNotFound("g1".into()).message(),
        "Permission group not found during migration: g1"
    );
}

#[test]
fn record_id_lists_skip_rows_without_id() {
    let rows = vec![Some(rid("permission", "a")), None, Some(rid("permission", "b"))];
    assert_eq!(list_permission_record_ids(&rows), vec![rid("permission", "a"), rid("permission", "b")]);
    assert_eq!(list_group_record_ids(&vec![None]), vec![]);
}
