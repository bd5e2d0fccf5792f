//! Plain-value models of the request actor and of record ids, as the permission
//! logic reads them.
use vstd::prelude::*;

use crate::text::str_eq;

verus! {

/// The identity a request runs as.
#[derive(Debug, Clone, PartialEq, Eq)]
pub enum Actor {
    /// A signed-in user; `user_id` may carry a `user:` prefix.
    User { user_id: String },
    /// A non-human service account.
    ServiceUser { service_name: String },
    /// An internal system operation (bootstrap, scheduled jobs).
    System { operation: String },
    /// No identity.
    Anonymous,
}

/// Mathematical view of [`Actor`].
pub enum ActorView {
    User { user_id: Seq<char> },
    ServiceUser { service_name: Seq<char> },
    System { operation: Seq<char> },
    Anonymous,
}

impl View for Actor {
    type V = ActorView;

    open spec fn view(&self) -> ActorView {
        match self {
            Actor::User { user_id } => ActorView::User { user_id: user_id@ },
            Actor::ServiceUser { service_name } => ActorView::ServiceUser {
                service_name: service_name@,
            },
            Actor::System { operation } => ActorView::System { operation: operation@ },
            Actor::Anonymous => ActorView::Anonymous,
        }
    }
}

impl Actor {
    /// Whether this is a system actor.
    pub fn is_system(&self) -> (b: bool)
        ensures
            b == (self@ is System),
    {
        match self {
            Actor::System { .. } => true,
            _ => false,
        }
    }

    /// The user id of a user actor; `None` for every other actor.
    pub fn user_id(&self) -> (r: Option<&str>)
        ensures
            match self@ {
                ActorView::User { user_id } => r matches Some(u) && u@ == user_id,
                _ => r is None,
            },
    {
        match self {
            Actor::User { user_id } => Some(user_id.as_str()),
            _ => None,
        }
    }
}

/// A `table:id` record reference.
#[derive(Debug, Clone, PartialEq, Eq)]
pub struct RecordId {
    pub table: String,
    pub id: String,
}

/// Mathematical view of [`RecordId`].
pub struct RecordIdView {
    pub table: Seq<char>,
    pub id: Seq<char>,
}

impl View for RecordId {
    type V = RecordIdView;

    open spec fn view(&self) -> RecordIdView {
        RecordIdView { table: self.table@, id: self.id@ }
    }
}

impl RecordId {
    /// A record reference with the given table and id.
    pub fn new(table: &str, id: &str) -> (r: RecordId)
        ensures
            r@.table == table@,
            r@.id == id@,
    {
        let t = table.to_string();
        let i = id.to_string();
        proof {
            vstd::string::to_string_from_display_ensures_for_str(table, t);
            vstd::string::to_string_from_display_ensures_for_str(id, i);
        }
        RecordId { table: t, id: i }
    }

    /// An independent copy.
    pub fn duplicate(&self) -> (r: RecordId)
        ensures
            r@ == self@,
    {
        RecordId { table: self.table.clone(), id: self.id.clone() }
    }

    /// Whether both references name the same table and id.
    pub fn same_as(&self, other: &RecordId) -> (b: bool)
        ensures
            b == (self@ == other@),
    {
        str_eq(self.table.as_str(), other.table.as_str()) && str_eq(
            self.id.as_str(),
            other.id.as_str(),
        )
    }
}

/// Views of a vector of strings.
pub open spec fn string_views(v: Seq<String>) -> Seq<Seq<char>> {
    v.map_values(|s: String| s@)
}

/// Views of a vector of record references.
pub open spec fn record_views(v: Seq<RecordId>) -> Seq<RecordIdView> {
    v.map_values(|r: RecordId| r@)
}

/// Whether `v` already holds a reference equal to `r`.
pub fn holds_record(v: &Vec<RecordId>, r: &RecordId) -> (b: bool)
    ensures
        b == record_views(v@).contains(r@),
{
    let ghost w = record_views(v@);
    let mut i: usize = 0;
    while i < v.len()
        invariant
            i <= v.len(),
            w == record_views(v@),
            forall|j: int| 0 <= j < i ==> w[j] != r@,
        decreases v.len() - i,
    {
        assert(w[i as int] == v@[i as int]@);
        if v[i].same_as(r) {
            return true;
        }
        i = i + 1;
    }
    false
}

} // verus!
