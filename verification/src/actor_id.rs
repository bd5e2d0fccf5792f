//! Typed actor identity for resource permission bundles.
//!
//! Provenance is enforced by construction: ordinary callers use
//! [`ActorId::from_valence`]. Explicit user/service ids for bootstrap are accepted
//! only when the live actor is already [`Actor::System`].
use vstd::prelude::*;

use crate::model::{Actor, ActorView};
use crate::text::{has_prefix, strip_prefix, trim, trim_str, str_eq};

verus! {

/// Person or service identity used as a resource-permission maintainer.
#[derive(Debug, Clone, PartialEq, Eq)]
pub enum ActorId {
    /// A user (bare id or `user:…`, stored canonicalized without prefix).
    User(String),
    /// A non-human service / bot.
    Service(String),
}

/// Mathematical view of [`ActorId`].
pub enum ActorIdView {
    User(Seq<char>),
    Service(Seq<char>),
}

impl View for ActorId {
    type V = ActorIdView;

    open spec fn view(&self) -> ActorIdView {
        match self {
            ActorId::User(id) => ActorIdView::User(id@),
            ActorId::Service(name) => ActorIdView::Service(name@),
        }
    }
}

/// Bare user id: a leading `user:` removed, then whitespace trimmed.
pub open spec fn canonical_actor_user_id(user_id: Seq<char>) -> Seq<char> {
    trim(
        if has_prefix(user_id, "user:"@) {
            user_id.subrange("user:"@.len() as int, user_id.len() as int)
        } else {
            user_id
        },
    )
}

/// The identity derived from a live actor: users by canonical id, services by trimmed
/// name; nothing for system and anonymous actors or when the id is blank.
pub open spec fn identity_of(actor: ActorView) -> Option<ActorIdView> {
    match actor {
        ActorView::User { user_id } => {
            let bare = canonical_actor_user_id(user_id);
            if bare.len() == 0 {
                None
            } else {
                Some(ActorIdView::User(bare))
            }
        },
        ActorView::ServiceUser { service_name } => {
            let name = trim(service_name);
            if name.len() == 0 {
                None
            } else {
                Some(ActorIdView::Service(name))
            }
        },
        _ => None,
    }
}

/// Whether an identity is the user identity of a live user actor.
pub open spec fn matches_user(id: ActorIdView, actor: ActorView) -> bool {
    match (id, actor) {
        (ActorIdView::User(expected), ActorView::User { user_id }) => canonical_actor_user_id(user_id)
            == expected,
        _ => false,
    }
}

/// Only a signed-in user or a service yields an identity, and the identity derived from a
/// user actor matches that actor.
pub proof fn lemma_identity_provenance(actor: ActorView)
    ensures
        identity_of(actor) is Some ==> (actor is User || actor is ServiceUser),
        identity_of(actor) matches Some(id) ==> (actor is User <==> matches_user(id, actor)),
{
}

/// Canonical bare user id: strip one `user:` prefix, then trim whitespace.
pub fn canonical_user_id(user_id: &str) -> (r: String)
    ensures
        r@ == canonical_actor_user_id(user_id@),
{
    match strip_prefix(user_id, "user:") {
        Some(rest) => trim_str(rest.as_str()),
        None => trim_str(user_id),
    }
}

impl ActorId {
    /// Derive identity from the live actor.
    ///
    /// Returns [`None`] for Anonymous or System (System must use
    /// [`Self::user_for_system`] / [`Self::service_for_system`]).
    pub fn from_valence(v: &Actor) -> (r: Option<ActorId>)
        ensures
            match identity_of(v@) {
                Some(id) => r matches Some(a) && a@ == id,
                None => r is None,
            },
    {
        match v {
            Actor::User { user_id } => {
                let bare = canonical_user_id(user_id.as_str());
                if bare.unicode_len() == 0 {
                    None
                } else {
                    Some(ActorId::User(bare))
                }
            },
            Actor::ServiceUser { service_name } => {
                let name = trim_str(service_name.as_str());
                if name.unicode_len() == 0 {
                    None
                } else {
                    Some(ActorId::Service(name))
                }
            },
            _ => None,
        }
    }

    /// Explicit user maintainer for System/bootstrap callers only.
    ///
    /// Fails when `v` is not a System actor, or when `user_id` is blank once canonicalized.
    pub fn user_for_system(v: &Actor, user_id: &str) -> (r: Result<ActorId, &'static str>)
        ensures
            !(v@ is System) ==> (r matches Err(e) && e@
                == "ActorId::user_for_system requires a System Valence actor"@),
            v@ is System && canonical_actor_user_id(user_id@).len() == 0 ==> (r matches Err(e)
                && e@ == "user_id is empty"@),
            v@ is System && canonical_actor_user_id(user_id@).len() > 0 ==> (r matches Ok(a)
                && a@ == ActorIdView::User(canonical_actor_user_id(user_id@))),
    {
        if !v.is_system() {
            return Err("ActorId::user_for_system requires a System Valence actor");
        }
        let bare = canonical_user_id(user_id);
        if bare.unicode_len() == 0 {
            return Err("user_id is empty");
        }
        Ok(ActorId::User(bare))
    }

    /// Explicit service maintainer for System/bootstrap callers only.
    ///
    /// Fails when `v` is not a System actor, or when `service_name` is blank.
    pub fn service_for_system(v: &Actor, service_name: &str) -> (r: Result<ActorId, &'static str>)
        ensures
            !(v@ is System) ==> (r matches Err(e) && e@
                == "ActorId::service_for_system requires a System Valence actor"@),
            v@ is System && trim(service_name@).len() == 0 ==> (r matches Err(e) && e@
                == "service_name is empty"@),
            v@ is System && trim(service_name@).len() > 0 ==> (r matches Ok(a) && a@
                == ActorIdView::Service(trim(service_name@))),
    {
        if !v.is_system() {
            return Err("ActorId::service_for_system requires a System Valence actor");
        }
        let name = trim_str(service_name);
        if name.unicode_len() == 0 {
            return Err("service_name is empty");
        }
        Ok(ActorId::Service(name))
    }

    /// Canonical bare user id when this is a [`Self::User`].
    pub fn as_user_id(&self) -> (r: Option<&str>)
        ensures
            match self@ {
                ActorIdView::User(id) => r matches Some(s) && s@ == id,
                ActorIdView::Service(_) => r is None,
            },
    {
        match self {
            ActorId::User(id) => Some(id.as_str()),
            ActorId::Service(_) => None,
        }
    }

    /// True when this id matches the live user actor (same bare id).
    pub fn matches_valence_user(&self, v: &Actor) -> (b: bool)
        ensures
            b == matches_user(self@, v@),
    {
        let expected = match self {
            ActorId::User(expected) => expected,
            ActorId::Service(_) => {
                return false;
            },
        };
        let uid = match v.user_id() {
            Some(uid) => uid,
            None => {
                return false;
            },
        };
        let bare = canonical_user_id(uid);
        str_eq(bare.as_str(), expected.as_str())
    }
}

} // verus!
