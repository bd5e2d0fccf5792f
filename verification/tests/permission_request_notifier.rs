use gauge::group_graph::{GraphSnapshot, GroupPrincipalRecord, GroupRecord, UserPrincipalRecord};
use gauge::model::RecordId;
use gauge::permission_request_notifier::{
    collect_owner_user_ids_from_group, sort_dedup_records, status_changed_to_terminal, target_owner_user_ids,
    MutationKind, Notification, PermissionOwners, PermissionRequest, PermissionRequestNotifier,
    PermissionRequestStatus,
};

fn rid(t: &str, i: &str) -> RecordId {
    RecordId::new(t, i)
}

fn request(status: PermissionRequestStatus) -> PermissionRequest {
    PermissionRequest {
        id: Some(rid("permission_request", "r1")),
        target: rid("permission", "p1"),
        requestor: rid("user", "req"),
        status,
    }
}

/// Permission p1 is owned by group "owners" (owner alice, nested owner group "leads"
/// owned by bob and alice again); group "solo" is owned by carol; group "pair" by zed,
/// amy and zed again.
fn graph() -> GraphSnapshot {
    GraphSnapshot {
        groups: vec![
            GroupRecord {
                id: "owners".into(),
                owners: vec![
                    rid("permission_user_principal", "user:alice"),
                    rid("permission_group_principal", "permission_group:leads"),
                ],
                members: vec![rid("permission_user_principal", "user:dave")],
            },
            GroupRecord {
                id: "leads".into(),
                owners: vec![
                    rid("permission_user_principal", "user:bob"),
                    rid("permission_user_principal", "user:alice"),
                ],
                members: vec![],
            },
            GroupRecord {
                id: "solo".into(),
                owners: vec![rid("permission_user_principal", "user:carol")],
                members: vec![],
            },
            GroupRecord {
                id: "pair".into(),
                owners: vec![
                    rid("permission_user_principal", "user:zed"),
                    rid("permission_user_principal", "user:amy"),
                    rid("permission_user_principal", "user:zed"),
                ],
                members: vec![],
            },
        ],
        user_principals: vec![
            UserPrincipalRecord { id: "user:alice".into(), user: rid("user", "alice") },
            UserPrincipalRecord { id: "user:bob".into(), user: rid("user", "bob") },
            UserPrincipalRecord { id: "user:carol".into(), user: rid("user", "carol") },
            UserPrincipalRecord { id: "user:dave".into(), user: rid("user", "dave") },
            UserPrincipalRecord { id: "user:zed".into(), user: rid("user", "zed") },
            UserPrincipalRecord { id: "user:amy".into(), user: rid("user", "amy") },
        ],
        group_principals: vec![GroupPrincipalRecord {
            id: "permission_group:leads".into(),
            group: rid("permission_group", "leads"),
        }],
    }
}

fn perms() -> Vec<PermissionOwners> {
    vec![PermissionOwners { id: "p1".into(), owners_group: "owners".into() }]
}

#[test]
fn terminal_change_detection() {
    let p = request(PermissionRequestStatus::Pending);
    let a = request(PermissionRequestStatus::Approved);
    let d = request(PermissionRequestStatus::Denied);
    assert!(status_changed_to_terminal(Some(&p), Some(&a)));
    assert!(status_changed_to_terminal(None, Some(&d)));
    assert!(status_changed_to_terminal(Some(&a), Some(&d)));
    assert!(!status_changed_to_terminal(Some(&a), Some(&a)));
    assert!(!status_changed_to_terminal(Some(&a), Some(&p)));
    assert!(!status_changed_to_terminal(Some(&a), None));
}

#[test]
fn owners_are_collected_once_per_owner_edge_in_walk_order() {
    let g = graph();
    let owners: Vec<String> = collect_owner_user_ids_from_group(&g, 0)
        .into_iter()
        .map(|r| r.id)
        .collect();
    assert_eq!(owners, vec!["alice".to_string(), "bob".to_string(), "alice".to_string()]);
    let pair: Vec<String> = collect_owner_user_ids_from_group(&g, 3).into_iter().map(|r| r.id).collect();
    assert_eq!(pair, vec!["zed".to_string(), "amy".to_string(), "zed".to_string()]);
}

#[test]
fn target_owner_lookup_by_target_table() {
    let g = graph();
    let for_perm = target_owner_user_ids(&rid("permission", "p1"), &perms(), &g).expect("ok");
    assert_eq!(for_perm, vec![rid("user", "alice"), rid("user", "bob")]);
    let sorted = target_owner_user_ids(&rid("permission_group", "pair"), &perms(), &g).expect("ok");
    assert_eq!(sorted, vec![rid("user", "amy"), rid("user", "zed")]);
    let for_group = target_owner_user_ids(&rid("permission_group", "solo"), &perms(), &g).expect("ok");
    assert_eq!(for_group, vec![rid("user", "carol")]);
    assert!(target_owner_user_ids(&rid("permission", "nope"), &perms(), &g).expect("ok").is_empty());
    assert!(target_owner_user_ids(&rid("other", "p1"), &perms(), &g).expect("ok").is_empty());
    let broken = vec![PermissionOwners { id: "p1".into(), owners_group: "gone".into() }];
    assert_eq!(
        target_owner_user_ids(&rid("permission", "p1"), &broken, &g),
        Err("owners group not found for permission p1".to_string())
    );
}

#[test]
fn create_notifies_each_owner() {
    let n = PermissionRequestNotifier;
    let req = request(PermissionRequestStatus::Pending);
    let out = n
        .on_mutation(MutationKind::Create, None, Some(&req), &perms(), &graph())
        .expect("ok");
    assert_eq!(out.len(), 2);
    for note in &out {
        assert_eq!(note.kind, "permission_request");
        assert_eq!(note.title, "Permission request submitted");
        assert_eq!(note.message, "A new request is waiting for review for permission:p1.");
        assert_eq!(note.url, Some("/permission/requests/r1".to_string()));
    }
    let users: Vec<String> = out.into_iter().map(|n| n.user_id.id).collect();
    assert_eq!(users, vec!["alice".to_string(), "bob".to_string()]);
}

#[test]
fn decision_notifies_requestor_once() {
    let n = PermissionRequestNotifier;
    let before = request(PermissionRequestStatus::Pending);
    let after = request(PermissionRequestStatus::Denied);
    let out = n
        .on_mutation(MutationKind::Update, Some(&before), Some(&after), &perms(), &graph())
        .expect("ok");
    assert_eq!(
        out,
        vec![Notification {
            user_id: rid("user", "req"),
            kind: "permission_request".into(),
            title: "Permission request updated".into(),
            message: "Your permission request was denied.".into(),
            url: Some("/permission/requests/r1".into()),
        }]
    );
    let again = n
        .on_mutation(MutationKind::Update, Some(&after), Some(&after), &perms(), &graph())
        .expect("ok");
    assert!(again.is_empty());
}

#[test]
fn delete_and_idless_rows_notify_nobody() {
    let n = PermissionRequestNotifier;
    let req = request(PermissionRequestStatus::Approved);
    assert!(n.on_mutation(MutationKind::Delete, Some(&req), None, &perms(), &graph()).expect("ok").is_empty());
    let mut idless = request(PermissionRequestStatus::Pending);
    idless.id = None;
    assert!(n.on_mutation(MutationKind::Create, None, Some(&idless), &perms(), &graph()).expect("ok").is_empty());
    assert!(n.on_mutation(MutationKind::Create, None, None, &perms(), &graph()).expect("ok").is_empty());
}

#[test]
fn create_notifies_owners_in_record_text_order() {
    let n = PermissionRequestNotifier;
    let mut req = request(PermissionRequestStatus::Pending);
    req.target = rid("permission_group", "pair");
    let out = n
        .on_mutation(MutationKind::Create, None, Some(&req), &perms(), &graph())
        .expect("ok");
    let users: Vec<RecordId> = out.iter().map(|n| n.user_id.clone()).collect();
    assert_eq!(users, vec![rid("user", "amy"), rid("user", "zed")]);
    assert_eq!(out[0].message, "A new request is waiting for review for permission_group:pair.");
}

#[test]
fn records_sort_by_text_and_repeat_once() {
    let v = vec![rid("user", "b"), rid("user", "a"), rid("user", "b"), rid("team", "z")];
    assert_eq!(sort_dedup_records(&v), vec![rid("team", "z"), rid("user", "a"), rid("user", "b")]);
    assert!(sort_dedup_records(&vec![]).is_empty());
}

#[test]
fn equal_texts_keep_their_order_and_only_neighbours_merge() {
    let a = rid("a:b", "c");
    let b = rid("a", "b:c");
    assert_eq!(sort_dedup_records(&vec![a.clone(), b.clone(), a.clone()]), vec![a.clone(), b.clone(), a.clone()]);
    assert_eq!(sort_dedup_records(&vec![b.clone(), a.clone(), a.clone()]), vec![b.clone(), a.clone()]);
}

#[test]
fn missing_owners_group_error_is_passed_on() {
    let n = PermissionRequestNotifier;
    let req = request(PermissionRequestStatus::Pending);
    let broken = vec![PermissionOwners { id: "p1".into(), owners_group: "gone".into() }];
    assert_eq!(
        n.on_mutation(MutationKind::Create, None, Some(&req), &broken, &graph()),
        Err("owners group not found for permission p1".to_string())
    );
}
