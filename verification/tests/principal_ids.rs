use gauge::principal_ids::{canonical_user_id, group_principal_id, user_principal_id};

#[test]
fn canonical_user_id_takes_key_after_first_colon() {
    assert_eq!(canonical_user_id("user:bob"), "bob");
    assert_eq!(canonical_user_id("bob"), "bob");
    assert_eq!(canonical_user_id("a:b:c"), "b:c");
    assert_eq!(canonical_user_id(":x"), "x");
}

#[test]
fn principal_ids_are_prefixed_keys() {
    assert_eq!(user_principal_id("bob"), "user:bob");
    assert_eq!(user_principal_id("user:bob"), "user:bob");
    assert_eq!(user_principal_id(&user_principal_id("a:b")), user_principal_id("a:b"));
    assert_eq!(group_principal_id("ops"), "permission_group:ops");
}
