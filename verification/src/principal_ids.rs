//! Record keys of permission principals.
use vstd::prelude::*;

use crate::text::{join2, lemma_first_index_prefix, split_once, split_once_spec};

verus! {

/// The key part of a `table:key` user id: what follows the first `:`, or the whole id
/// when there is none.
pub open spec fn canonical_key(user_id: Seq<char>) -> Seq<char> {
    match split_once_spec(user_id, ':') {
        Some((_, key)) => key,
        None => user_id,
    }
}

/// Key of the user principal of a user.
pub open spec fn user_principal_key(user_id: Seq<char>) -> Seq<char> {
    "user:"@ + canonical_key(user_id)
}

/// Key of the group principal of a permission group.
pub open spec fn group_principal_key(group_id: Seq<char>) -> Seq<char> {
    "permission_group:"@ + group_id
}

/// Bare user key: the part after the first `:`, or the whole id.
pub fn canonical_user_id(user_id: &str) -> (r: String)
    ensures
        r@ == canonical_key(user_id@),
{
    match split_once(user_id, ':') {
        Some((_, key)) => key,
        None => {
            let r = user_id.to_string();
            proof {
                vstd::string::to_string_from_display_ensures_for_str(user_id, r);
            }
            r
        },
    }
}

/// `user:{canonical key}`.
pub fn user_principal_id(user_id: &str) -> (r: String)
    ensures
        r@ == user_principal_key(user_id@),
{
    let key = canonical_user_id(user_id);
    join2("user:", key.as_str())
}

/// `permission_group:{group_id}`.
pub fn group_principal_id(group_id: &str) -> (r: String)
    ensures
        r@ == group_principal_key(group_id@),
{
    join2("permission_group:", group_id)
}

/// A user principal key names the same user as the id it was made from: its canonical
/// key is the canonical key of that id, so making a principal key from a principal key
/// gives it back unchanged.
pub proof fn lemma_user_principal_key_fixed_point(user_id: Seq<char>)
    ensures
        canonical_key(user_principal_key(user_id)) == canonical_key(user_id),
        user_principal_key(user_principal_key(user_id)) == user_principal_key(user_id),
{
    reveal_strlit("user:");
    let p = user_principal_key(user_id);
    let k = canonical_key(user_id);
    assert(p[4] == ':');
    assert forall|j: int| 0 <= j < 4 implies p[j] != ':' by {}
    lemma_first_index_prefix(p, ':', 4);
    assert(p.subrange(5, p.len() as int) =~= k);
}

} // verus!
