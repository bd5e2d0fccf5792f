use gauge::model::{Actor, RecordId};
use gauge::revoke_umbrella_grants::{revoke_group_from_permission, revoke_umbrella_grants, PermissionGrants};

fn rid(t: &str, i: &str) -> RecordId {
    RecordId::new(t, i)
}

fn gp(g: &str) -> RecordId {
    rid("permission_group_principal", &format!("permission_group:{g}"))
}

fn grants(id: &str, name: &str, allowed: Vec<RecordId>) -> PermissionGrants {
    PermissionGrants { id: id.into(), name: name.into(), allowed }
}

fn system() -> Actor {
    Actor::System { operation: "revoke".into() }
}

fn snapshot() -> Vec<PermissionGrants> {
    vec![
        grants("p1", "doc.read", vec![gp("readers"), rid("permission_user_principal", "user:alice")]),
        grants("p2", "doc.write", vec![gp("writers"), gp("readers")]),
        grants("p3", "other.read", vec![gp("readers")]),
        grants("p4", "docs.read", vec![gp("readers")]),
    ]
}

fn principals() -> Vec<String> {
    vec!["permission_group:readers".into(), "permission_group:writers".into()]
}

#[test]
fn non_system_actor_is_refused() {
    let r = revoke_umbrella_grants(
        &Actor::User { user_id: "alice".into() },
        "doc",
        &snapshot(),
        &vec!["readers".into()],
        &principals(),
    );
    assert_eq!(r.err(), Some("revoke_umbrella_grants requires System actor (Chronon/bootstrap)"));
}

#[test]
fn revokes_only_kind_permissions_and_given_groups() {
    let r = revoke_umbrella_grants(&system(), "doc", &snapshot(), &vec!["readers".into()], &principals())
        .expect("system");
    let got: Vec<(String, String)> = r.iter().map(|x| (x.permission_id.clone(), x.group_id.clone())).collect();
    assert_eq!(got, vec![("p1".to_string(), "readers".to_string()), ("p2".to_string(), "readers".to_string())]);
    assert!(r.iter().all(|x| x.principal == gp("readers")));
    assert_eq!(r[0].permission_name, "doc.read");
}

#[test]
fn missing_group_principal_revokes_nothing() {
    let r = revoke_umbrella_grants(&system(), "doc", &snapshot(), &vec!["ghosts".into()], &principals())
        .expect("system");
    assert!(r.is_empty());
}

#[test]
fn second_pass_revokes_nothing() {
    let mut snap = snapshot();
    let groups = vec!["readers".to_string(), "writers".to_string(), "readers".to_string()];
    let first = revoke_umbrella_grants(&system(), "doc", &snap, &groups, &principals()).expect("system");
    assert_eq!(first.len(), 3);
    for rev in &first {
        for p in snap.iter_mut() {
            if p.id == rev.permission_id {
                p.allowed.retain(|a| a != &rev.principal);
                break;
            }
        }
    }
    let second = revoke_umbrella_grants(&system(), "doc", &snap, &groups, &principals()).expect("system");
    assert!(second.is_empty());
}

#[test]
fn revoke_group_from_permission_edits_the_working_lists() {
    let snap = snapshot();
    let mut allowed: Vec<Vec<RecordId>> = snap.iter().map(|p| p.allowed.clone()).collect();
    assert_eq!(revoke_group_from_permission(&snap, &mut allowed, &principals(), "p2", "readers"), Some(1));
    assert_eq!(allowed[1], vec![gp("writers")]);
    assert_eq!(revoke_group_from_permission(&snap, &mut allowed, &principals(), "p2", "readers"), None);
    assert_eq!(revoke_group_from_permission(&snap, &mut allowed, &principals(), "nope", "readers"), None);
}
