use gauge::actor_id::{canonical_user_id, ActorId};
use gauge::model::Actor;

fn user(id: &str) -> Actor {
    Actor::User { user_id: id.to_string() }
}

fn system() -> Actor {
    Actor::System { operation: "boot".to_string() }
}

#[test]
fn from_valence_user_and_rejects_system_forge() {
    let user_v = user("user:alice");
    assert_eq!(
        ActorId::from_valence(&user_v),
        Some(ActorId::User("alice".into()))
    );

    let forged = ActorId::user_for_system(&user_v, "bob");
    assert!(forged.is_err());

    let system_v = system();
    let ok = ActorId::user_for_system(&system_v, "bob").expect("system ok");
    assert_eq!(ok, ActorId::User("bob".into()));
}

#[test]
fn from_valence_service_trims_name() {
    let v = Actor::ServiceUser { service_name: "  indexer \t".to_string() };
    assert_eq!(ActorId::from_valence(&v), Some(ActorId::Service("indexer".into())));
}

#[test]
fn from_valence_rejects_blank_and_non_identities() {
    assert_eq!(ActorId::from_valence(&user("user:   ")), None);
    assert_eq!(ActorId::from_valence(&user("")), None);
    let blank_service = Actor::ServiceUser { service_name: " \n ".to_string() };
    assert_eq!(ActorId::from_valence(&blank_service), None);
    assert_eq!(ActorId::from_valence(&system()), None);
    assert_eq!(ActorId::from_valence(&Actor::Anonymous), None);
}

#[test]
fn user_for_system_errors_name_the_cause() {
    assert_eq!(
        ActorId::user_for_system(&user("alice"), "bob"),
        Err("ActorId::user_for_system requires a System Valence actor")
    );
    assert_eq!(
        ActorId::user_for_system(&system(), "user:  "),
        Err("user_id is empty")
    );
    assert_eq!(
        ActorId::user_for_system(&system(), "user:carol "),
        Ok(ActorId::User("carol".into()))
    );
}

#[test]
fn service_for_system_checks_actor_and_name() {
    assert_eq!(
        ActorId::service_for_system(&Actor::Anonymous, "bot"),
        Err("ActorId::service_for_system requires a System Valence actor")
    );
    assert_eq!(
        ActorId::service_for_system(&system(), "   "),
        Err("service_name is empty")
    );
    assert_eq!(
        ActorId::service_for_system(&system(), " bot "),
        Ok(ActorId::Service("bot".into()))
    );
}

#[test]
fn as_user_id_only_for_users() {
    assert_eq!(ActorId::User("alice".into()).as_user_id(), Some("alice"));
    assert_eq!(ActorId::Service("bot".into()).as_user_id(), None);
}

#[test]
fn matches_valence_user_compares_canonical_ids() {
    let alice = ActorId::User("alice".into());
    assert!(alice.matches_valence_user(&user("user:alice")));
    assert!(alice.matches_valence_user(&user(" alice ")));
    assert!(!alice.matches_valence_user(&user("user:bob")));
    assert!(!alice.matches_valence_user(&system()));
    assert!(!ActorId::Service("alice".into()).matches_valence_user(&user("alice")));
}

#[test]
fn canonical_user_id_strips_one_prefix_then_trims() {
    assert_eq!(canonical_user_id("user:alice"), "alice");
    assert_eq!(canonical_user_id("user:user:alice"), "user:alice");
    assert_eq!(canonical_user_id("  alice\u{3000}"), "alice");
    assert_eq!(canonical_user_id(" user:alice"), "user:alice");
}
