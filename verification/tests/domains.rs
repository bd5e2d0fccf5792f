use gauge::domains::{
    add_domain_owner_user, create_domain, delete_domain, domain_to_list_detail, get_domain_detail,
    last_owner_guard, list_domains, remove_domain_owner_user, require_user_id, update_domain,
    DomainCreation, GaugeServiceError, NewPermissionDomain, PermissionDomain,
    PermissionDomainCreateInput, PermissionDomainDetailDto, PrincipalKind, PrincipalRef,
};
use gauge::model::Actor;

fn domain(id: &str, name: &str, description: Option<&str>, scoped: bool) -> PermissionDomain {
    PermissionDomain {
        id: id.to_string(),
        name: name.to_string(),
        description: description.map(|d| d.to_string()),
        resource_scoped: scoped,
        created_at: 1_000,
        updated_at: 2_000,
    }
}

fn user(id: &str) -> Actor {
    Actor::User { user_id: id.to_string() }
}

fn not_found(id: &str) -> GaugeServiceError {
    GaugeServiceError::NotFound { entity: "Permission domain".into(), id: id.into() }
}

#[test]
fn list_detail_has_no_owners_and_default_description() {
    let d = domain("d1", "Billing", None, false);
    assert_eq!(
        domain_to_list_detail(&d),
        PermissionDomainDetailDto {
            id: "d1".into(),
            name: "Billing".into(),
            description: String::new(),
            owner_users: vec![],
            resource_scoped: false,
        }
    );
}

#[test]
fn list_domains_filters_case_insensitively() {
    let ds = vec![
        domain("a", "Alpha Domain", None, false),
        domain("b", "Beta", Some("Holds ALPHA things"), true),
        domain("c", "Gamma", Some("other"), false),
    ];
    let hits = list_domains(&ds, Some("  ALPHA ".to_string()));
    let ids: Vec<&str> = hits.iter().map(|d| d.id.as_str()).collect();
    assert_eq!(ids, vec!["a", "b"]);
    assert!(hits.iter().all(|d| d.owner_users.is_empty()));
}

#[test]
fn list_domains_without_term_lists_all() {
    let ds = vec![domain("a", "Alpha", None, false), domain("b", "Beta", None, false)];
    assert_eq!(list_domains(&ds, None).len(), 2);
    assert_eq!(list_domains(&ds, Some("   ".to_string())).len(), 2);
    assert_eq!(list_domains(&ds, Some("zzz".to_string())).len(), 0);
}

#[test]
fn create_domain_drops_blank_description() {
    let r = create_domain(
        &user("user:alice"),
        PermissionDomainCreateInput { name: "Ops".into(), description: "  ".into() },
        42,
    );
    assert_eq!(
        r,
        Ok(DomainCreation {
            domain: NewPermissionDomain {
                name: "Ops".into(),
                description: None,
                resource_scoped: false,
                created_at: 42,
                updated_at: 42,
            },
            owner_principal: "user:alice".into(),
        })
    );
    let r2 = create_domain(
        &user("alice"),
        PermissionDomainCreateInput { name: "Ops".into(), description: " x ".into() },
        7,
    )
    .expect("user actor");
    assert_eq!(r2.domain.description, Some(" x ".to_string()));
    assert_eq!(r2.owner_principal, "user:alice".to_string());
}

#[test]
fn create_domain_needs_a_signed_in_user() {
    let input = || PermissionDomainCreateInput { name: "Ops".into(), description: String::new() };
    assert_eq!(create_domain(&Actor::Anonymous, input(), 1), Err(GaugeServiceError::Unauthenticated));
    assert_eq!(
        create_domain(&Actor::System { operation: "boot".into() }, input(), 1),
        Err(GaugeServiceError::Unauthenticated)
    );
    assert_eq!(
        create_domain(&Actor::ServiceUser { service_name: "svc".into() }, input(), 1),
        Err(GaugeServiceError::Unauthenticated)
    );
    let owner = create_domain(&user("user:ghost"), input(), 1).expect("user actor");
    assert_eq!(owner.owner_principal, "user:ghost".to_string());
    assert_eq!(require_user_id(&user("user:bob")), Ok("user:bob".to_string()));
    assert_eq!(require_user_id(&Actor::Anonymous), Err(GaugeServiceError::Unauthenticated));
}

#[test]
fn update_domain_checks_in_order() {
    let scoped = domain("s", "S", None, true);
    let plain = domain("p", "P", Some("old"), false);
    assert_eq!(update_domain("x", None, true, "n", String::new(), 9).err(), Some(not_found("x")));
    assert_eq!(
        update_domain("s", Some(&scoped), false, "", String::new(), 9).err(),
        Some(GaugeServiceError::Validation("Cannot rename a resource-scoped permission domain".into()))
    );
    assert_eq!(
        update_domain("p", Some(&plain), false, "n", String::new(), 9).err(),
        Some(GaugeServiceError::NotAuthorized("edit domain".into()))
    );
    assert_eq!(
        update_domain("p", Some(&plain), true, "  ", String::new(), 9).err(),
        Some(GaugeServiceError::Validation("Domain name is required".into()))
    );
    let renamed = update_domain("p", Some(&plain), true, "  New name ", " kept as is ".into(), 9);
    assert_eq!(
        renamed,
        Ok(PermissionDomain {
            id: "p".into(),
            name: "New name".into(),
            description: Some(" kept as is ".into()),
            resource_scoped: false,
            created_at: 1_000,
            updated_at: 9,
        })
    );
    let blank = update_domain("p", Some(&plain), true, "N", "\n".into(), 9).expect("allowed");
    assert_eq!(blank.name, "N");
    assert_eq!(blank.description, Some("old".to_string()));
    assert_eq!(blank.created_at, 1_000);
    assert_eq!(blank.updated_at, 9);
}

#[test]
fn delete_and_owner_gates() {
    let scoped = domain("s", "S", None, true);
    let plain = domain("p", "P", None, false);
    assert_eq!(delete_domain("x", None, true), Err(not_found("x")));
    assert_eq!(
        delete_domain("s", Some(&scoped), true),
        Err(GaugeServiceError::Validation(
            "Cannot delete a resource-scoped permission domain from the taxonomy UI".into()
        ))
    );
    assert_eq!(
        delete_domain("p", Some(&plain), false),
        Err(GaugeServiceError::NotAuthorized("delete domain".into()))
    );
    assert_eq!(delete_domain("p", Some(&plain), true), Ok(()));
    assert_eq!(
        add_domain_owner_user("s", Some(&scoped), true, "user:bob"),
        Err(GaugeServiceError::Validation("Cannot change owners on a resource-scoped permission domain".into()))
    );
    assert_eq!(
        add_domain_owner_user("p", Some(&plain), false, "user:bob"),
        Err(GaugeServiceError::NotAuthorized("edit domain ownership".into()))
    );
    assert_eq!(add_domain_owner_user("p", Some(&plain), true, "user:bob"), Ok("user:bob".to_string()));
    assert_eq!(add_domain_owner_user("p", Some(&plain), true, "bob"), Ok("user:bob".to_string()));
    let owners = vec!["user:carol".to_string(), "user:dave".to_string()];
    assert_eq!(
        remove_domain_owner_user("p", Some(&plain), false, true, "carol", &owners),
        Ok("user:carol".to_string())
    );
    assert_eq!(
        remove_domain_owner_user("p", Some(&plain), true, false, "user:carol", &owners),
        Ok("user:carol".to_string())
    );
    assert_eq!(
        remove_domain_owner_user("p", Some(&plain), false, false, "carol", &owners),
        Err(GaugeServiceError::NotAuthorized("edit domain ownership".into()))
    );
    assert_eq!(remove_domain_owner_user("q", None, true, true, "carol", &owners), Err(not_found("q")));
}

#[test]
fn owner_removal_refuses_the_last_owner() {
    let plain = domain("p", "P", None, false);
    let last = vec!["user:carol".to_string()];
    let last_owner = Err(GaugeServiceError::Validation("Cannot remove the last owner from a domain".into()));
    assert_eq!(remove_domain_owner_user("p", Some(&plain), true, false, "carol", &last), last_owner);
    assert_eq!(remove_domain_owner_user("p", Some(&plain), true, false, "user:carol", &last), last_owner);
    assert_eq!(
        remove_domain_owner_user("p", Some(&plain), true, false, "dave", &last),
        Ok("user:dave".to_string())
    );
    assert_eq!(
        remove_domain_owner_user("p", Some(&plain), false, false, "carol", &last),
        Err(GaugeServiceError::NotAuthorized("edit domain ownership".into()))
    );
}

#[test]
fn last_owner_cannot_be_removed() {
    let one = vec!["user:a".to_string()];
    let two = vec!["user:a".to_string(), "user:b".to_string()];
    assert_eq!(
        last_owner_guard(&one, "user:a"),
        Err(GaugeServiceError::Validation("Cannot remove the last owner from a domain".into()))
    );
    assert_eq!(last_owner_guard(&one, "user:z"), Ok(()));
    assert_eq!(last_owner_guard(&two, "user:a"), Ok(()));
}

fn pref(kind: PrincipalKind, id: &str) -> PrincipalRef {
    PrincipalRef { kind, id: id.to_string(), label: format!("label-{id}") }
}

#[test]
fn domain_detail_shows_distinct_user_owners_to_editors() {
    let d = domain("d", "D", Some("desc"), false);
    let owners = vec![
        pref(PrincipalKind::User, "a"),
        pref(PrincipalKind::Group, "g"),
        pref(PrincipalKind::User, "a"),
        pref(PrincipalKind::User, "b"),
    ];
    let shown = get_domain_detail(Some(&d), true, &owners).expect("exists");
    let ids: Vec<&str> = shown.owner_users.iter().map(|o| o.id.as_str()).collect();
    assert_eq!(ids, vec!["a", "b"]);
    assert_eq!(shown.description, "desc");
    let hidden = get_domain_detail(Some(&d), false, &owners).expect("exists");
    assert!(hidden.owner_users.is_empty());
    assert_eq!(get_domain_detail(None, true, &owners), None);
}

#[test]
fn a_search_only_narrows_the_list() {
    let ds = vec![
        domain("a", "Alpha", None, false),
        domain("b", "Beta", Some("about alpha"), false),
        domain("c", "Gamma", None, true),
    ];
    let all = list_domains(&ds, None);
    let some = list_domains(&ds, Some("ALP".to_string()));
    let mut rest = all.iter();
    for entry in &some {
        assert!(entry.owner_users.is_empty());
        assert!(rest.any(|x| x == entry));
    }
    assert_eq!(some.len(), 2);
}
