//! Decisions of the taxonomy permission-domain service: validation and authorization
//! order, owner-list rules, and the search filter of the domain list.
use vstd::prelude::*;

use crate::model::{Actor, ActorView};
use crate::principal_ids::{user_principal_id, user_principal_key};
use crate::text::{contains, contains_seq, lowercase, str_eq, to_lowercase, trim, trim_str};

verus! {

/// Error of a permission-domain operation.
#[derive(Debug, PartialEq, Eq)]
pub enum GaugeServiceError {
    /// No `entity` row with this id.
    NotFound { entity: String, id: String },
    /// The request breaks a rule of the service.
    Validation(String),
    /// The actor may not perform `action`.
    NotAuthorized(String),
    /// The request actor is not a signed-in user.
    Unauthenticated,
}

pub enum GaugeServiceErrorView {
    NotFound { entity: Seq<char>, id: Seq<char> },
    Validation(Seq<char>),
    NotAuthorized(Seq<char>),
    Unauthenticated,
}

impl View for GaugeServiceError {
    type V = GaugeServiceErrorView;

    open spec fn view(&self) -> GaugeServiceErrorView {
        match self {
            GaugeServiceError::NotFound { entity, id } => GaugeServiceErrorView::NotFound {
                entity: entity@,
                id: id@,
            },
            GaugeServiceError::Validation(m) => GaugeServiceErrorView::Validation(m@),
            GaugeServiceError::NotAuthorized(a) => GaugeServiceErrorView::NotAuthorized(a@),
            GaugeServiceError::Unauthenticated => GaugeServiceErrorView::Unauthenticated,
        }
    }
}

/// A taxonomy permission domain.
#[derive(Debug, Clone, PartialEq, Eq)]
pub struct PermissionDomain {
    pub id: String,
    pub name: String,
    pub description: Option<String>,
    pub resource_scoped: bool,
    /// Creation time, Unix milliseconds.
    pub created_at: i64,
    /// Last update time, Unix milliseconds.
    pub updated_at: i64,
}

pub struct DomainView {
    pub id: Seq<char>,
    pub name: Seq<char>,
    pub description: Option<Seq<char>>,
    pub resource_scoped: bool,
    pub created_at: i64,
    pub updated_at: i64,
}

impl View for PermissionDomain {
    type V = DomainView;

    open spec fn view(&self) -> DomainView {
        DomainView {
            id: self.id@,
            name: self.name@,
            description: match &self.description {
                Some(d) => Some(d@),
                None => None,
            },
            resource_scoped: self.resource_scoped,
            created_at: self.created_at,
            updated_at: self.updated_at,
        }
    }
}

/// Kind of a permission principal.
#[derive(Clone, Copy, Debug, PartialEq, Eq, Structural)]
pub enum PrincipalKind {
    User,
    Group,
}

/// A principal as shown on a domain detail.
#[derive(Debug, Clone, PartialEq, Eq)]
pub struct PrincipalRef {
    pub kind: PrincipalKind,
    pub id: String,
    pub label: String,
}

pub struct PrincipalRefView {
    pub kind: PrincipalKind,
    pub id: Seq<char>,
    pub label: Seq<char>,
}

impl View for PrincipalRef {
    type V = PrincipalRefView;

    open spec fn view(&self) -> PrincipalRefView {
        PrincipalRefView { kind: self.kind, id: self.id@, label: self.label@ }
    }
}

/// A domain as listed or shown.
#[derive(Debug, Clone, PartialEq, Eq)]
pub struct PermissionDomainDetailDto {
    pub id: String,
    pub name: String,
    pub description: String,
    pub owner_users: Vec<PrincipalRef>,
    pub resource_scoped: bool,
}

pub struct DetailView {
    pub id: Seq<char>,
    pub name: Seq<char>,
    pub description: Seq<char>,
    pub owner_users: Seq<PrincipalRefView>,
    pub resource_scoped: bool,
}

impl View for PermissionDomainDetailDto {
    type V = DetailView;

    open spec fn view(&self) -> DetailView {
        DetailView {
            id: self.id@,
            name: self.name@,
            description: self.description@,
            owner_users: self.owner_users@.map_values(|p: PrincipalRef| p@),
            resource_scoped: self.resource_scoped,
        }
    }
}

/// Input of a domain creation.
pub struct PermissionDomainCreateInput {
    pub name: String,
    pub description: String,
}

/// The row a domain creation writes.
#[derive(Debug, Clone, PartialEq, Eq)]
pub struct NewPermissionDomain {
    pub name: String,
    pub description: Option<String>,
    pub resource_scoped: bool,
    pub created_at: i64,
    pub updated_at: i64,
}

/// What creating a domain writes: the row, and the key of the user principal that becomes
/// its first owner.
#[derive(Debug, Clone, PartialEq, Eq)]
pub struct DomainCreation {
    pub domain: NewPermissionDomain,
    pub owner_principal: String,
}

/// A description as stored: absent when blank.
pub open spec fn stored_description(description: Seq<char>) -> Option<Seq<char>> {
    if trim(description).len() == 0 {
        None
    } else {
        Some(description)
    }
}

/// A stored description as shown: empty when absent.
pub open spec fn shown_description(description: Option<Seq<char>>) -> Seq<char> {
    match description {
        Some(d) => d,
        None => Seq::empty(),
    }
}

/// The list entry of a domain: no owners.
pub open spec fn list_detail(d: DomainView) -> DetailView {
    DetailView {
        id: d.id,
        name: d.name,
        description: shown_description(d.description),
        owner_users: Seq::empty(),
        resource_scoped: d.resource_scoped,
    }
}

/// The error, if any, of the checks every edit of a domain runs in order: the domain
/// exists, is not resource-scoped, and the actor may edit it.
pub open spec fn gate_error(
    id: Seq<char>,
    existing: Option<DomainView>,
    allowed: bool,
    scoped_message: Seq<char>,
    action: Seq<char>,
) -> Option<GaugeServiceErrorView> {
    match existing {
        None => Some(GaugeServiceErrorView::NotFound { entity: "Permission domain"@, id }),
        Some(d) => if d.resource_scoped {
            Some(GaugeServiceErrorView::Validation(scoped_message))
        } else if !allowed {
            Some(GaugeServiceErrorView::NotAuthorized(action))
        } else {
            None
        },
    }
}

pub open spec fn opt_domain(d: Option<&PermissionDomain>) -> Option<DomainView> {
    match d {
        Some(x) => Some(x@),
        None => None,
    }
}

fn own(s: &str) -> (r: String)
    ensures
        r@ == s@,
{
    let r = s.to_string();
    proof {
        vstd::string::to_string_from_display_ensures_for_str(s, r);
    }
    r
}

fn domain_gate(
    id: &str,
    existing: Option<&PermissionDomain>,
    allowed: bool,
    scoped_message: &str,
    action: &str,
) -> (r: Result<(), GaugeServiceError>)
    ensures
        match gate_error(id@, opt_domain(existing), allowed, scoped_message@, action@) {
            Some(e) => r matches Err(x) && x@ == e,
            None => r is Ok,
        },
{
    match existing {
        None => Err(GaugeServiceError::NotFound { entity: own("Permission domain"), id: own(id) }),
        Some(d) => {
            if d.resource_scoped {
                Err(GaugeServiceError::Validation(own(scoped_message)))
            } else if !allowed {
                Err(GaugeServiceError::NotAuthorized(own(action)))
            } else {
                Ok(())
            }
        },
    }
}

/// The list entry of a domain: its id, name, description (empty when absent), no owners.
pub fn domain_to_list_detail(domain: &PermissionDomain) -> (r: PermissionDomainDetailDto)
    ensures
        r@ == list_detail(domain@),
        r.id@ == domain.id@,
        r.name@ == domain.name@,
        r.resource_scoped == domain.resource_scoped,
        r.owner_users.len() == 0,
        match domain.description {
            Some(x) => r.description@ == x@,
            None => r.description@.len() == 0,
        },
{
    proof {
        lemma_details_show_their_domain(domain@, Seq::empty());
    }
    let description = match &domain.description {
        Some(d) => d.clone(),
        None => String::new(),
    };
    let r = PermissionDomainDetailDto {
        id: domain.id.clone(),
        name: domain.name.clone(),
        description,
        owner_users: Vec::new(),
        resource_scoped: domain.resource_scoped,
    };
    assert(r@.owner_users =~= Seq::<PrincipalRefView>::empty());
    r
}

/// The user id every domain operation starts from: that of a signed-in user actor;
/// refused for any other actor.
pub fn require_user_id(actor: &Actor) -> (r: Result<String, GaugeServiceError>)
    ensures
        match actor@ {
            ActorView::User { user_id } => r matches Ok(u) && u@ == user_id,
            _ => r matches Err(e) && e@ == GaugeServiceErrorView::Unauthenticated,
        },
{
    match actor.user_id() {
        Some(u) => Ok(own(u)),
        None => Err(GaugeServiceError::Unauthenticated),
    }
}

/// Create a taxonomy domain as `actor` at time `now`. Refused when the actor is not a
/// signed-in user. The row is not resource-scoped, has the given name, the description
/// only when it is not blank, and equal creation and update times; the actor's user
/// principal becomes its first owner.
pub fn create_domain(actor: &Actor, input: PermissionDomainCreateInput, now: i64) -> (r: Result<
    DomainCreation,
    GaugeServiceError,
>)
    ensures
        match actor@ {
            ActorView::User { user_id } => r matches Ok(c) && {
                &&& c.domain.name@ == input.name@
                &&& !c.domain.resource_scoped
                &&& c.domain.created_at == now
                &&& c.domain.updated_at == now
                &&& match stored_description(input.description@) {
                    Some(d) => c.domain.description matches Some(x) && x@ == d,
                    None => c.domain.description is None,
                }
                &&& c.owner_principal@ == user_principal_key(user_id)
            },
            _ => r matches Err(e) && e@ == GaugeServiceErrorView::Unauthenticated,
        },
{
    let actor_user_id = match require_user_id(actor) {
        Err(e) => {
            return Err(e);
        },
        Ok(u) => u,
    };
    let blank = trim_str(input.description.as_str()).unicode_len() == 0;
    Ok(
        DomainCreation {
            domain: NewPermissionDomain {
                name: input.name,
                description: if blank {
                    None
                } else {
                    Some(input.description)
                },
                resource_scoped: false,
                created_at: now,
                updated_at: now,
            },
            owner_principal: user_principal_id(actor_user_id.as_str()),
        },
    )
}

/// The domain after a rename / re-describe at time `now`: trimmed name, the new
/// description unless it is blank (then the stored one stays), everything else kept.
pub open spec fn updated_domain(e: DomainView, name: Seq<char>, description: Seq<char>, now: i64) -> DomainView {
    DomainView {
        id: e.id,
        name: trim(name),
        description: match stored_description(description) {
            Some(d) => Some(d),
            None => e.description,
        },
        resource_scoped: e.resource_scoped,
        created_at: e.created_at,
        updated_at: now,
    }
}

/// Rename / re-describe a taxonomy domain at time `now`.
///
/// Checks in order: the domain exists, it is not resource-scoped, the actor may edit it
/// (`can_edit`), and the trimmed name is not empty. Returns the domain as stored after
/// the update.
pub fn update_domain(
    id: &str,
    existing: Option<&PermissionDomain>,
    can_edit: bool,
    name: &str,
    description: String,
    now: i64,
) -> (r: Result<PermissionDomain, GaugeServiceError>)
    ensures
        match gate_error(
            id@,
            opt_domain(existing),
            can_edit,
            "Cannot rename a resource-scoped permission domain"@,
            "edit domain"@,
        ) {
            Some(e) => r matches Err(x) && x@ == e,
            None => if trim(name@).len() == 0 {
                r matches Err(x) && x@ == GaugeServiceErrorView::Validation(
                    "Domain name is required"@,
                )
            } else {
                r matches Ok(d) && existing matches Some(e) && d@ == updated_domain(
                    e@,
                    name@,
                    description@,
                    now,
                )
            },
        },
{
    match domain_gate(
        id,
        existing,
        can_edit,
        "Cannot rename a resource-scoped permission domain",
        "edit domain",
    ) {
        Err(e) => {
            return Err(e);
        },
        Ok(()) => {},
    }
    let e = match existing {
        Some(e) => e,
        None => {
            return Err(GaugeServiceError::NotFound { entity: own("Permission domain"), id: own(id) });
        },
    };
    let next_name = trim_str(name);
    if next_name.unicode_len() == 0 {
        return Err(GaugeServiceError::Validation(own("Domain name is required")));
    }
    let blank = trim_str(description.as_str()).unicode_len() == 0;
    Ok(
        PermissionDomain {
            id: e.id.clone(),
            name: next_name,
            description: if blank {
                e.description.clone()
            } else {
                Some(description)
            },
            resource_scoped: e.resource_scoped,
            created_at: e.created_at,
            updated_at: now,
        },
    )
}

/// Whether a taxonomy domain may be deleted: it exists, is not resource-scoped, and the
/// actor may edit it.
pub fn delete_domain(id: &str, existing: Option<&PermissionDomain>, can_edit: bool) -> (r: Result<
    (),
    GaugeServiceError,
>)
    ensures
        match gate_error(
            id@,
            opt_domain(existing),
            can_edit,
            "Cannot delete a resource-scoped permission domain from the taxonomy UI"@,
            "delete domain"@,
        ) {
            Some(e) => r matches Err(x) && x@ == e,
            None => r is Ok,
        },
{
    domain_gate(
        id,
        existing,
        can_edit,
        "Cannot delete a resource-scoped permission domain from the taxonomy UI",
        "delete domain",
    )
}

/// Add `user_id` as an owner of a domain: allowed when the domain exists, is not
/// resource-scoped, and the actor may edit it. Returns the key of the user principal whose
/// owner edge to write.
pub fn add_domain_owner_user(
    domain_id: &str,
    existing: Option<&PermissionDomain>,
    can_edit: bool,
    user_id: &str,
) -> (r: Result<String, GaugeServiceError>)
    ensures
        match gate_error(
            domain_id@,
            opt_domain(existing),
            can_edit,
            "Cannot change owners on a resource-scoped permission domain"@,
            "edit domain ownership"@,
        ) {
            Some(e) => r matches Err(x) && x@ == e,
            None => r matches Ok(k) && k@ == user_principal_key(user_id@),
        },
{
    match domain_gate(
        domain_id,
        existing,
        can_edit,
        "Cannot change owners on a resource-scoped permission domain",
        "edit domain ownership",
    ) {
        Err(e) => Err(e),
        Ok(()) => Ok(user_principal_id(user_id)),
    }
}

/// Whether removing `target` would take away the last owner: it is one of the owner
/// edges, and there is at most one.
pub open spec fn removes_last_owner(owner_ids: Seq<Seq<char>>, target: Seq<char>) -> bool {
    owner_ids.contains(target) && owner_ids.len() <= 1
}

/// Remove `user_id` as an owner of a domain whose owner edges name `owner_ids`: allowed
/// when the domain exists, is not resource-scoped, the actor owns it or is a super user,
/// and the user's principal is not the last owner. Returns the key of the user principal
/// whose owner edge to delete.
pub fn remove_domain_owner_user(
    domain_id: &str,
    existing: Option<&PermissionDomain>,
    actor_owns_domain: bool,
    actor_is_super_user: bool,
    user_id: &str,
    owner_ids: &Vec<String>,
) -> (r: Result<String, GaugeServiceError>)
    ensures
        match gate_error(
            domain_id@,
            opt_domain(existing),
            actor_owns_domain || actor_is_super_user,
            "Cannot change owners on a resource-scoped permission domain"@,
            "edit domain ownership"@,
        ) {
            Some(e) => r matches Err(x) && x@ == e,
            None => if removes_last_owner(
                owner_ids@.map_values(|s: String| s@),
                user_principal_key(user_id@),
            ) {
                r matches Err(x) && x@ == GaugeServiceErrorView::Validation(
                    "Cannot remove the last owner from a domain"@,
                )
            } else {
                r matches Ok(k) && k@ == user_principal_key(user_id@)
            },
        },
{
    match domain_gate(
        domain_id,
        existing,
        actor_owns_domain || actor_is_super_user,
        "Cannot change owners on a resource-scoped permission domain",
        "edit domain ownership",
    ) {
        Err(e) => {
            return Err(e);
        },
        Ok(()) => {},
    }
    let key = user_principal_id(user_id);
    match last_owner_guard(owner_ids, key.as_str()) {
        Err(e) => Err(e),
        Ok(()) => Ok(key),
    }
}

/// Refuses removing `target` when it is an owner and at most one owner edge exists.
pub fn last_owner_guard(owner_ids: &Vec<String>, target: &str) -> (r: Result<(), GaugeServiceError>)
    ensures
        (owner_ids@.map_values(|s: String| s@).contains(target@) && owner_ids.len() <= 1) ==> (
        r matches Err(x) && x@ == GaugeServiceErrorView::Validation(
            "Cannot remove the last owner from a domain"@,
        )),
        !(owner_ids@.map_values(|s: String| s@).contains(target@) && owner_ids.len() <= 1)
            ==> r is Ok,
{
    let ghost v = owner_ids@.map_values(|s: String| s@);
    let mut found = false;
    let mut i: usize = 0;
    while i < owner_ids.len()
        invariant
            i <= owner_ids.len(),
            v == owner_ids@.map_values(|s: String| s@),
            found == exists|j: int| 0 <= j < i && #[trigger] v[j] == target@,
        decreases owner_ids.len() - i,
    {
        assert(v[i as int] == owner_ids@[i as int]@);
        if str_eq(owner_ids[i].as_str(), target) {
            found = true;
        }
        i = i + 1;
    }
    if found && owner_ids.len() <= 1 {
        Err(GaugeServiceError::Validation(own("Cannot remove the last owner from a domain")))
    } else {
        Ok(())
    }
}

/// Removing an owner that the guard lets through leaves at least one owner, when the
/// owner edges name each principal once.
pub proof fn lemma_guarded_removal_keeps_an_owner(owner_ids: Seq<Seq<char>>, target: Seq<char>)
    requires
        owner_ids.no_duplicates(),
        owner_ids.len() > 0,
        !(owner_ids.contains(target) && owner_ids.len() <= 1),
    ensures
        owner_ids.filter(|x: Seq<char>| x != target).len() > 0,
{
    let f = |x: Seq<char>| x != target;
    let rest = owner_ids.filter(f);
    if owner_ids.contains(target) {
        let k = choose|k: int| 0 <= k < owner_ids.len() && owner_ids[k] == target;
        let other = if k == 0 {
            1int
        } else {
            0int
        };
        assert(owner_ids[other] != target);
        owner_ids.filter_lemma(f);
        assert(rest.contains(owner_ids[other]));
    } else {
        owner_ids.filter_lemma(f);
        assert(f(owner_ids[0]));
        assert(rest.contains(owner_ids[0]));
    }
}

/// Owner users of a domain detail, each principal once, in first-seen order.
pub open spec fn distinct_owner_users(refs: Seq<PrincipalRefView>) -> Seq<PrincipalRefView>
    decreases refs.len(),
{
    if refs.len() == 0 {
        Seq::empty()
    } else {
        let prev = distinct_owner_users(refs.drop_last());
        let r = refs.last();
        if r.kind is User && !prev.map_values(|p: PrincipalRefView| p.id).contains(r.id) {
            prev.push(r)
        } else {
            prev
        }
    }
}

/// The full detail of a domain.
pub open spec fn full_detail(d: DomainView, owners: Seq<PrincipalRefView>) -> DetailView {
    DetailView {
        id: d.id,
        name: d.name,
        description: shown_description(d.description),
        owner_users: owners,
        resource_scoped: d.resource_scoped,
    }
}

/// A domain's list entry and its detail show that domain: its own id, name and
/// resource-scoped flag, and its stored description (empty when it has none); the list
/// entry has no owners, the detail exactly the owners it is given.
pub proof fn lemma_details_show_their_domain(d: DomainView, owners: Seq<PrincipalRefView>)
    ensures
        list_detail(d).id == d.id,
        list_detail(d).name == d.name,
        list_detail(d).resource_scoped == d.resource_scoped,
        list_detail(d).owner_users.len() == 0,
        d.description matches Some(x) ==> list_detail(d).description == x,
        d.description is None ==> list_detail(d).description.len() == 0,
        full_detail(d, owners).id == d.id,
        full_detail(d, owners).name == d.name,
        full_detail(d, owners).resource_scoped == d.resource_scoped,
        full_detail(d, owners).owner_users == owners,
        d.description matches Some(x) ==> full_detail(d, owners).description == x,
        d.description is None ==> full_detail(d, owners).description.len() == 0,
{
}

fn copy_ref(r: &PrincipalRef) -> (c: PrincipalRef)
    ensures
        c@ == r@,
{
    PrincipalRef { kind: r.kind, id: r.id.clone(), label: r.label.clone() }
}

/// The detail of a domain, or `None` when it does not exist. Owners are shown only to
/// editors (`can_edit`): the user principals among `owner_refs`, each once.
pub fn get_domain_detail(
    existing: Option<&PermissionDomain>,
    can_edit: bool,
    owner_refs: &Vec<PrincipalRef>,
) -> (r: Option<PermissionDomainDetailDto>)
    ensures
        match opt_domain(existing) {
            None => r is None,
            Some(d) => r matches Some(x) && x@ == full_detail(
                d,
                if can_edit {
                    distinct_owner_users(owner_refs@.map_values(|p: PrincipalRef| p@))
                } else {
                    Seq::empty()
                },
            ) && x.id@ == d.id && x.name@ == d.name && x.resource_scoped == d.resource_scoped && (
            match d.description {
                Some(t) => x.description@ == t,
                None => x.description@.len() == 0,
            }) && (!can_edit ==> x.owner_users.len() == 0),
        },
{
    proof {
        if let Some(d) = opt_domain(existing) {
            lemma_details_show_their_domain(
                d,
                if can_edit {
                    distinct_owner_users(owner_refs@.map_values(|p: PrincipalRef| p@))
                } else {
                    Seq::empty()
                },
            );
        }
    }
    let domain = match existing {
        None => {
            return None;
        },
        Some(d) => d,
    };
    let ghost all = owner_refs@.map_values(|p: PrincipalRef| p@);
    let mut owner_users: Vec<PrincipalRef> = Vec::new();
    if can_edit {
        let mut i: usize = 0;
        while i < owner_refs.len()
            invariant
                i <= owner_refs.len(),
                all == owner_refs@.map_values(|p: PrincipalRef| p@),
                owner_users@.map_values(|p: PrincipalRef| p@) == distinct_owner_users(
                    all.take(i as int),
                ),
            decreases owner_refs.len() - i,
        {
            let ghost prev = owner_users@.map_values(|p: PrincipalRef| p@);
            proof {
                assert(all.take(i + 1).drop_last() =~= all.take(i as int));
                assert(all.take(i + 1).last() == owner_refs@[i as int]@);
            }
            let r = &owner_refs[i];
            if r.kind == PrincipalKind::User {
                let mut seen = false;
                let mut j: usize = 0;
                while j < owner_users.len()
                    invariant
                        j <= owner_users.len(),
                        prev == owner_users@.map_values(|p: PrincipalRef| p@),
                        seen == exists|q: int| #![trigger prev[q]] 0 <= q < j && prev[q].id == r.id@,
                    decreases owner_users.len() - j,
                {
                    assert(prev[j as int] == owner_users@[j as int]@);
                    if str_eq(owner_users[j].id.as_str(), r.id.as_str()) {
                        seen = true;
                    }
                    j = j + 1;
                }
                proof {
                    let ids = prev.map_values(|p: PrincipalRefView| p.id);
                    if seen {
                        let q = choose|q: int| #![trigger prev[q]] 0 <= q < prev.len() && prev[q].id == r.id@;
                        assert(ids[q] == r.id@);
                    } else {
                        assert forall|q: int| 0 <= q < ids.len() implies ids[q] != r.id@ by {
                            assert(ids[q] == prev[q].id);
                        }
                    }
                }
                if !seen {
                    owner_users.push(copy_ref(r));
                    assert(owner_users@.map_values(|p: PrincipalRef| p@) =~= prev.push(r@));
                }
            }
            i = i + 1;
        }
        assert(all.take(owner_refs.len() as int) =~= all);
    } else {
        assert(owner_users@.map_values(|p: PrincipalRef| p@) =~= Seq::<PrincipalRefView>::empty());
    }
    let description = match &domain.description {
        Some(d) => d.clone(),
        None => String::new(),
    };
    Some(
        PermissionDomainDetailDto {
            id: domain.id.clone(),
            name: domain.name.clone(),
            description,
            owner_users,
            resource_scoped: domain.resource_scoped,
        },
    )
}

/// The search term of a domain list: the trimmed, lowercased term, unless empty.
pub open spec fn search_needle(search: Option<Seq<char>>) -> Option<Seq<char>> {
    match search {
        Some(s) => {
            let n = lowercase(trim(s));
            if n.len() > 0 {
                Some(n)
            } else {
                None
            }
        },
        None => None,
    }
}

/// Whether a domain is listed for a search term: always without one; otherwise when its
/// lowercased name or description contains the term.
pub open spec fn domain_matches(d: DomainView, needle: Option<Seq<char>>) -> bool {
    match needle {
        None => true,
        Some(n) => contains_seq(lowercase(d.name), n) || contains_seq(
            match d.description {
                Some(x) => lowercase(x),
                None => Seq::empty(),
            },
            n,
        ),
    }
}

/// The list entries of the domains that match, in order.
pub open spec fn listed(ds: Seq<DomainView>, needle: Option<Seq<char>>) -> Seq<DetailView>
    decreases ds.len(),
{
    if ds.len() == 0 {
        Seq::empty()
    } else {
        let prev = listed(ds.drop_last(), needle);
        if domain_matches(ds.last(), needle) {
            prev.push(list_detail(ds.last()))
        } else {
            prev
        }
    }
}

fn search_term(search: &Option<String>) -> (r: Option<String>)
    ensures
        match search_needle(
            match search {
                Some(s) => Some(s@),
                None => None,
            },
        ) {
            Some(n) => r matches Some(x) && x@ == n,
            None => r is None,
        },
        match search {
            Some(s) => trim(s@).len() == 0 ==> r is None,
            None => true,
        },
{
    match search {
        Some(s) => {
            let t = trim_str(s.as_str());
            let n = to_lowercase(t.as_str());
            if n.unicode_len() > 0 {
                Some(n)
            } else {
                None
            }
        },
        None => None,
    }
}

fn matches_search(d: &PermissionDomain, needle: &Option<String>) -> (b: bool)
    ensures
        b == domain_matches(
            d@,
            match needle {
                Some(s) => Some(s@),
                None => None,
            },
        ),
{
    match needle {
        None => true,
        Some(n) => {
            let name = to_lowercase(d.name.as_str());
            let description = match &d.description {
                Some(x) => to_lowercase(x.as_str()),
                None => String::new(),
            };
            contains(name.as_str(), n.as_str()) || contains(description.as_str(), n.as_str())
        },
    }
}

/// List permission domains, keeping those whose lowercased name or description contains
/// the trimmed, lowercased `search` term (all of them when the term is absent or blank).
/// Owner lists are always empty on list entries.
pub fn list_domains(domains: &Vec<PermissionDomain>, search: Option<String>) -> (r: Vec<
    PermissionDomainDetailDto,
>)
    ensures
        r@.map_values(|x: PermissionDomainDetailDto| x@) == listed(
            domains@.map_values(|d: PermissionDomain| d@),
            search_needle(
                match search {
                    Some(s) => Some(s@),
                    None => None,
                },
            ),
        ),
        (match search {
            Some(s) => trim(s@).len() == 0,
            None => true,
        }) ==> r@.map_values(|x: PermissionDomainDetailDto| x@) == listed(
            domains@.map_values(|d: PermissionDomain| d@),
            None,
        ),
{
    let needle = search_term(&search);
    let ghost n = search_needle(
        match search {
            Some(s) => Some(s@),
            None => None,
        },
    );
    let ghost all = domains@.map_values(|d: PermissionDomain| d@);
    let mut out: Vec<PermissionDomainDetailDto> = Vec::new();
    let mut i: usize = 0;
    while i < domains.len()
        invariant
            i <= domains.len(),
            all == domains@.map_values(|d: PermissionDomain| d@),
            n == match needle {
                Some(s) => Some(s@),
                None => None::<Seq<char>>,
            },
            out@.map_values(|x: PermissionDomainDetailDto| x@) == listed(all.take(i as int), n),
        decreases domains.len() - i,
    {
        proof {
            assert(all.take(i + 1).drop_last() =~= all.take(i as int));
            assert(all.take(i + 1).last() == domains@[i as int]@);
        }
        let ghost prev = out@.map_values(|x: PermissionDomainDetailDto| x@);
        if matches_search(&domains[i], &needle) {
            let entry = domain_to_list_detail(&domains[i]);
            out.push(entry);
            assert(out@.map_values(|x: PermissionDomainDetailDto| x@) =~= prev.push(
                list_detail(domains@[i as int]@),
            ));
        }
        i = i + 1;
    }
    assert(all.take(domains.len() as int) =~= all);
    out
}

/// `a` is `b` with some entries left out, order kept.
pub open spec fn is_subsequence(a: Seq<DetailView>, b: Seq<DetailView>) -> bool {
    exists|idx: Seq<int>|
        #![trigger idx.len()]
        idx.len() == a.len() && (forall|k: int|
            0 <= k < a.len() ==> 0 <= idx[k] < b.len() && a[k] == b[#[trigger] idx[k]]) && (forall|
            k1: int,
            k2: int,
        | 0 <= k1 < k2 < a.len() ==> #[trigger] idx[k1] < #[trigger] idx[k2])
}

proof fn lemma_listed_all(ds: Seq<DomainView>)
    ensures
        listed(ds, None).len() == ds.len(),
        forall|k: int| 0 <= k < ds.len() ==> #[trigger] listed(ds, None)[k] == list_detail(ds[k]),
    decreases ds.len(),
{
    if ds.len() > 0 {
        lemma_listed_all(ds.drop_last());
        assert forall|k: int| 0 <= k < ds.len() implies #[trigger] listed(ds, None)[k] == list_detail(ds[k]) by {
            if k < ds.len() - 1 {
                assert(ds.drop_last()[k] == ds[k]);
            }
        }
    }
}

proof fn subsequence_witness(ds: Seq<DomainView>, needle: Option<Seq<char>>) -> (idx: Seq<int>)
    ensures
        idx.len() == listed(ds, needle).len(),
        forall|k: int|
            0 <= k < idx.len() ==> 0 <= idx[k] < ds.len() && listed(ds, needle)[k] == list_detail(
                ds[#[trigger] idx[k]],
            ),
        forall|k1: int, k2: int| 0 <= k1 < k2 < idx.len() ==> #[trigger] idx[k1] < #[trigger] idx[k2],
    decreases ds.len(),
{
    if ds.len() == 0 {
        Seq::empty()
    } else {
        let d = ds.drop_last();
        let prev = subsequence_witness(d, needle);
        assert forall|k: int| 0 <= k < prev.len() implies ds[#[trigger] prev[k]] == d[prev[k]] by {}
        if domain_matches(ds.last(), needle) {
            let idx = prev.push(ds.len() - 1);
            assert forall|k: int|
                0 <= k < idx.len() implies 0 <= idx[k] < ds.len() && listed(ds, needle)[k]
                == list_detail(ds[#[trigger] idx[k]]) by {
                if k < prev.len() {
                    assert(idx[k] == prev[k]);
                    assert(ds[prev[k]] == d[prev[k]]);
                }
            }
            assert forall|k1: int, k2: int| 0 <= k1 < k2 < idx.len() implies #[trigger] idx[k1]
                < #[trigger] idx[k2] by {
                if k2 < prev.len() {
                    assert(idx[k1] == prev[k1] && idx[k2] == prev[k2]);
                } else {
                    assert(idx[k1] == prev[k1]);
                }
            }
            idx
        } else {
            assert forall|k: int|
                0 <= k < prev.len() implies 0 <= prev[k] < ds.len() && listed(ds, needle)[k]
                == list_detail(ds[#[trigger] prev[k]]) by {
                assert(ds[prev[k]] == d[prev[k]]);
            }
            prev
        }
    }
}

/// Without a search term the list has one entry per domain, in order, each showing its
/// domain's id, name, resource-scoped flag and stored description (empty when it has none).
pub proof fn lemma_list_shows_each_domain(ds: Seq<DomainView>)
    ensures
        listed(ds, None).len() == ds.len(),
        forall|k: int|
            0 <= k < ds.len() ==> {
                let e = #[trigger] listed(ds, None)[k];
                &&& e.id == ds[k].id
                &&& e.name == ds[k].name
                &&& e.resource_scoped == ds[k].resource_scoped
                &&& e.owner_users.len() == 0
                &&& (ds[k].description matches Some(x) ==> e.description == x)
                &&& (ds[k].description is None ==> e.description.len() == 0)
            },
{
    lemma_listed_all(ds);
    assert forall|k: int| 0 <= k < ds.len() implies {
        let e = #[trigger] listed(ds, None)[k];
        &&& e.id == ds[k].id
        &&& e.name == ds[k].name
        &&& e.resource_scoped == ds[k].resource_scoped
        &&& e.owner_users.len() == 0
        &&& (ds[k].description matches Some(x) ==> e.description == x)
        &&& (ds[k].description is None ==> e.description.len() == 0)
    } by {
        lemma_details_show_their_domain(ds[k], Seq::empty());
    }
}

/// Every list entry has no owners, and a list with a search term is the list without one
/// with some entries left out, in the same order.
pub proof fn lemma_search_narrows_list(ds: Seq<DomainView>, needle: Option<Seq<char>>)
    ensures
        forall|k: int|
            0 <= k < listed(ds, needle).len() ==> (#[trigger] listed(ds, needle)[k]).owner_users.len()
                == 0,
        is_subsequence(listed(ds, needle), listed(ds, None)),
{
    let idx = subsequence_witness(ds, needle);
    lemma_listed_all(ds);
    let a = listed(ds, needle);
    let b = listed(ds, None);
    assert forall|k: int| 0 <= k < a.len() implies 0 <= idx[k] < b.len() && a[k] == b[#[trigger] idx[k]] by {
        assert(b[idx[k]] == list_detail(ds[idx[k]]));
    }
    assert forall|k: int| 0 <= k < a.len() implies (#[trigger] a[k]).owner_users.len() == 0 by {
        assert(a[k] == list_detail(ds[idx[k]]));
    }
    assert(idx.len() == a.len());
}

} // verus!
