//! Super-user capability checks and bootstrap decisions.
//!
//! The singleton Super User group is resolved by its well-known id only; groups that
//! merely reuse its display name never grant privileges.
use vstd::prelude::*;

use crate::group_graph::{
    find_group, first_index, group_ids, reachable_groups, resolve_user, resolve_user_link,
    walk_set, GraphSnapshot, GraphView, WalkMode, GROUP_PRINCIPAL_TABLE, USER_PRINCIPAL_TABLE,
};
use crate::model::{Actor, ActorView, RecordId, RecordIdView};
use crate::principal_ids::{canonical_key, canonical_user_id, user_principal_id, user_principal_key};
use crate::text::{contains_string, contains, contains_seq, join2, split_once, split_once_spec, str_eq, trim,
    trim_str};

verus! {

/// Display name of the hard-coded, singleton Super User permission group.
pub const SUPER_USER_GROUP_NAME: &'static str = "Super User";

/// Well-known record id for the singleton Super User permission group.
pub const SUPER_USER_GROUP_ID: &'static str = "super_user_group";

/// Text that marks a seed failure as "no such user".
pub const NO_USER_FOUND: &'static str = "no user found for email";

/// The ids under which an actor's user id is compared: the id itself and, when it has a
/// `table:` part, the key after the first `:`.
pub open spec fn is_candidate(user_id: Seq<char>, x: Seq<char>) -> bool {
    ||| x == user_id
    ||| (split_once_spec(user_id, ':') matches Some((_, bare)) && x == bare)
}

/// Whether a group directly names, among the edges a membership walk follows, a user
/// principal of a user whose id is in `user_ids`.
pub open spec fn group_names_user(g: GraphView, i: int, user_ids: Seq<Seq<char>>) -> bool {
    ||| exists|t: int|
        0 <= t < g.groups[i].owners.len() && (resolve_user(g, #[trigger] g.groups[i].owners[t]) matches Some(
            u,
        ) && user_ids.contains(u.id))
    ||| exists|t: int|
        0 <= t < g.groups[i].members.len() && g.groups[i].members[t].id.len() > 0 && (resolve_user(
            g,
            #[trigger] g.groups[i].members[t],
        ) matches Some(u) && user_ids.contains(u.id))
}

/// Some group reachable from `start` (through owner edges and non-empty member edges)
/// names one of `user_ids` as owner or member.
pub open spec fn has_recursive_member(g: GraphView, start: int, user_ids: Seq<Seq<char>>) -> bool {
    exists|j: int| walk_set(g, WalkMode::Membership, start, j) && group_names_user(g, j, user_ids)
}

/// Whether the actor counts as a super user in the snapshot `g`.
pub open spec fn is_super_user(actor: ActorView, g: GraphView) -> bool {
    match actor {
        ActorView::System { .. } => true,
        ActorView::User { user_id } => match first_index(group_ids(g), SUPER_USER_GROUP_ID@) {
            Some(start) => exists|j: int|
                walk_set(g, WalkMode::Membership, start, j) && group_names_user_candidate(
                    g,
                    j,
                    user_id,
                ),
            None => false,
        },
        _ => false,
    }
}

/// Only the system actor and users are super users: a system actor always is; a user is
/// exactly when a group reachable (through owner edges and non-empty member edges) from the
/// group keyed [`SUPER_USER_GROUP_ID`] names the user's id, or its bare key, as owner or
/// member; a service account or an anonymous actor never is.
pub proof fn lemma_super_user_is_system_or_member(actor: ActorView, g: GraphView)
    ensures
        actor is System ==> is_super_user(actor, g),
        (actor is ServiceUser || actor is Anonymous) ==> !is_super_user(actor, g),
        actor matches ActorView::User { user_id } ==> (is_super_user(actor, g) <==> (first_index(
            group_ids(g),
            "super_user_group"@,
        ) matches Some(start) && exists|j: int|
            walk_set(g, WalkMode::Membership, start, j) && group_names_user_candidate(g, j, user_id))),
{
}

/// Like [`group_names_user`], with the candidate ids of `user_id`.
pub open spec fn group_names_user_candidate(g: GraphView, i: int, user_id: Seq<char>) -> bool {
    ||| exists|t: int|
        0 <= t < g.groups[i].owners.len() && (resolve_user(g, #[trigger] g.groups[i].owners[t]) matches Some(
            u,
        ) && is_candidate(user_id, u.id))
    ||| exists|t: int|
        0 <= t < g.groups[i].members.len() && g.groups[i].members[t].id.len() > 0 && (resolve_user(
            g,
            #[trigger] g.groups[i].members[t],
        ) matches Some(u) && is_candidate(user_id, u.id))
}

/// The ids an actor's user id is compared under, each once.
pub fn actor_user_candidates(actor_user_id: &str) -> (r: Vec<String>)
    ensures
        forall|x: Seq<char>| is_candidate(actor_user_id@, x) <==> r@.map_values(|s: String| s@).contains(x),
        r@.map_values(|s: String| s@).no_duplicates(),
{
    let mut r: Vec<String> = Vec::new();
    let first = actor_user_id.to_string();
    proof {
        vstd::string::to_string_from_display_ensures_for_str(actor_user_id, first);
    }
    r.push(first);
    match split_once(actor_user_id, ':') {
        Some((_, bare)) => {
            if !str_eq(bare.as_str(), actor_user_id) {
                r.push(bare);
            }
        },
        None => {},
    }
    proof {
        let v = r@.map_values(|s: String| s@);
        assert(v[0] == actor_user_id@);
        if r.len() == 2 {
            assert(v[1] == r@[1]@);
        }
        assert forall|x: Seq<char>| is_candidate(actor_user_id@, x) implies v.contains(x) by {
            if x == actor_user_id@ {
                assert(v[0] == x);
            } else {
                assert(v[1] == x);
            }
        }
    }
    r
}

/// Whether group `i` directly names one of `user_ids` among the edges a membership walk
/// follows.
fn group_has_direct_member(g: &GraphSnapshot, i: usize, user_ids: &Vec<String>) -> (b: bool)
    requires
        i < g.groups.len(),
    ensures
        b == group_names_user(g@, i as int, user_ids@.map_values(|s: String| s@)),
{
    let ghost ids = user_ids@.map_values(|s: String| s@);
    let owners = &g.groups[i].owners;
    let mut t: usize = 0;
    while t < owners.len()
        invariant
            i < g.groups.len(),
            owners == g.groups[i as int].owners,
            ids == user_ids@.map_values(|s: String| s@),
            t <= owners.len(),
            forall|u: int|
                0 <= u < t ==> !(resolve_user(g@, #[trigger] g@.groups[i as int].owners[u]) matches Some(x)
                    && ids.contains(x.id)),
        decreases owners.len() - t,
    {
        assert(g@.groups[i as int].owners[t as int] == owners[t as int]@);
        match resolve_user_link(g, &owners[t]) {
            Some(u) => {
                if contains_string(user_ids, u.id.as_str()) {
                    return true;
                }
            },
            None => {},
        }
        t = t + 1;
    }
    let members = &g.groups[i].members;
    let mut t: usize = 0;
    while t < members.len()
        invariant
            i < g.groups.len(),
            members == g.groups[i as int].members,
            ids == user_ids@.map_values(|s: String| s@),
            t <= members.len(),
            forall|u: int|
                0 <= u < g@.groups[i as int].owners.len() ==> !(resolve_user(
                    g@,
                    #[trigger] g@.groups[i as int].owners[u],
                ) matches Some(x) && ids.contains(x.id)),
            forall|u: int|
                0 <= u < t ==> !(g@.groups[i as int].members[u].id.len() > 0 && (resolve_user(
                    g@,
                    #[trigger] g@.groups[i as int].members[u],
                ) matches Some(x) && ids.contains(x.id))),
        decreases members.len() - t,
    {
        assert(g@.groups[i as int].members[t as int] == members[t as int]@);
        if members[t].id.unicode_len() > 0 {
            match resolve_user_link(g, &members[t]) {
                Some(u) => {
                    if contains_string(user_ids, u.id.as_str()) {
                        return true;
                    }
                },
                None => {},
            }
        }
        t = t + 1;
    }
    false
}

/// Whether any group reachable from `start` through owner edges and non-empty member
/// edges names one of `user_ids` as an owner or member user.
pub fn group_has_recursive_member(g: &GraphSnapshot, start: usize, user_ids: &Vec<String>) -> (b:
    bool)
    requires
        start < g.groups.len(),
    ensures
        b == has_recursive_member(g@, start as int, user_ids@.map_values(|s: String| s@)),
{
    let visited = reachable_groups(g, start, WalkMode::Membership);
    let ghost ids = user_ids@.map_values(|s: String| s@);
    let mut k: usize = 0;
    while k < visited.len()
        invariant
            k <= visited.len(),
            ids == user_ids@.map_values(|s: String| s@),
            forall|q: int| 0 <= q < visited.len() ==> visited[q] < g.groups.len(),
            forall|q: int|
                0 <= q < visited.len() ==> walk_set(
                    g@,
                    WalkMode::Membership,
                    start as int,
                    #[trigger] visited[q] as int,
                ),
            forall|j: int|
                #[trigger] walk_set(g@, WalkMode::Membership, start as int, j) ==> visited@.contains(
                    j as usize,
                ),
            forall|q: int| 0 <= q < k ==> !group_names_user(g@, visited[q] as int, ids),
        decreases visited.len() - k,
    {
        if group_has_direct_member(g, visited[k], user_ids) {
            assert(walk_set(g@, WalkMode::Membership, start as int, visited[k as int] as int));
            return true;
        }
        k = k + 1;
    }
    assert forall|j: int|
        walk_set(g@, WalkMode::Membership, start as int, j) implies !group_names_user(g@, j, ids) by {
        assert(visited@.contains(j as usize));
        let q = choose|q: int| 0 <= q < visited.len() && visited@[q] == j as usize;
        assert(!group_names_user(g@, visited[q] as int, ids));
    }
    false
}

/// `true` when the actor is a system actor or a (possibly transitive) owner or member of
/// the well-known [`SUPER_USER_GROUP_ID`] group in the snapshot `g`.
///
/// Membership in any other group that happens to be named [`SUPER_USER_GROUP_NAME`]
/// is ignored (fail closed against duplicate-name privilege escalation).
pub fn actor_is_super_user(actor: &Actor, g: &GraphSnapshot) -> (b: bool)
    ensures
        b == is_super_user(actor@, g@),
        actor@ is System ==> b,
        (actor@ is ServiceUser || actor@ is Anonymous) ==> !b,
{
    proof {
        lemma_super_user_is_system_or_member(actor@, g@);
    }
    if actor.is_system() {
        return true;
    }
    let actor_user_id = match actor.user_id() {
        Some(u) => u,
        None => {
            return false;
        },
    };
    let user_ids = actor_user_candidates(actor_user_id);
    let start = match find_group(g, SUPER_USER_GROUP_ID) {
        Some(s) => s,
        None => {
            return false;
        },
    };
    let b = group_has_recursive_member(g, start, &user_ids);
    proof {
        let ids = user_ids@.map_values(|s: String| s@);
        let uid = actor_user_id@;
        assert forall|j: int| 0 <= j < g@.groups.len() implies group_names_user(g@, j, ids)
            == group_names_user_candidate(g@, j, uid) by {
            assert forall|x: Seq<char>| ids.contains(x) == is_candidate(uid, x) by {}
        }
    }
    b
}

/// Principal kind named by a record's table: `"user"`, `"group"`, or nothing.
pub fn principal_kind_label(r: &RecordId) -> (l: Option<&'static str>)
    ensures
        r@.table == USER_PRINCIPAL_TABLE@ ==> (l matches Some(s) && s@ == "user"@),
        r@.table == GROUP_PRINCIPAL_TABLE@ ==> (l matches Some(s) && s@ == "group"@),
        r@.table != USER_PRINCIPAL_TABLE@ && r@.table != GROUP_PRINCIPAL_TABLE@ ==> l is None,
{
    proof {
        crate::group_graph::lemma_principal_tables_differ();
    }
    if str_eq(r.table.as_str(), USER_PRINCIPAL_TABLE) {
        Some("user")
    } else if str_eq(r.table.as_str(), GROUP_PRINCIPAL_TABLE) {
        Some("group")
    } else {
        None
    }
}

/// Counts from a best-effort multi-email Super User seed pass.
///
/// Hosts log these fields (never the email list) after boot bootstrap.
#[derive(Clone, Debug, PartialEq, Eq)]
pub struct SuperUserSeedStats {
    /// Number of email addresses supplied to the seed call.
    pub configured: usize,
    /// Addresses that resolved to a user and were ensured as members.
    pub seeded: usize,
    /// Addresses with no matching user (safe to retry after signup).
    pub missing_user: usize,
    /// Addresses that failed for another reason.
    pub failed: usize,
}

impl Default for SuperUserSeedStats {
    fn default() -> (r: SuperUserSeedStats)
        ensures
            r.configured == 0 && r.seeded == 0 && r.missing_user == 0 && r.failed == 0,
    {
        SuperUserSeedStats { configured: 0, seeded: 0, missing_user: 0, failed: 0 }
    }
}

/// How one configured address ended.
#[derive(Clone, Copy, Debug, PartialEq, Eq)]
pub enum SeedOutcome {
    Seeded,
    MissingUser,
    Failed,
}

/// One configured address and what seeding it (its trimmed form) returned; the result of
/// a blank address is never looked at.
pub struct EmailSeedResult {
    pub email: String,
    pub result: Result<(), String>,
}

pub struct EmailSeedView {
    pub email: Seq<char>,
    pub result: Result<(), Seq<char>>,
}

impl View for EmailSeedResult {
    type V = EmailSeedView;

    open spec fn view(&self) -> EmailSeedView {
        EmailSeedView {
            email: self.email@,
            result: match &self.result {
                Ok(()) => Ok(()),
                Err(m) => Err(m@),
            },
        }
    }
}

/// Outcome of one address: blank addresses count as missing users; a failure whose
/// message carries [`NO_USER_FOUND`] is a missing user; other failures are failures.
pub open spec fn seed_outcome(r: EmailSeedView) -> SeedOutcome {
    if trim(r.email).len() == 0 {
        SeedOutcome::MissingUser
    } else {
        match r.result {
            Ok(()) => SeedOutcome::Seeded,
            Err(msg) => if contains_seq(msg, NO_USER_FOUND@) {
                SeedOutcome::MissingUser
            } else {
                SeedOutcome::Failed
            },
        }
    }
}

/// Number of results with outcome `o`.
pub open spec fn count_outcome(rs: Seq<EmailSeedView>, o: SeedOutcome) -> nat
    decreases rs.len(),
{
    if rs.len() == 0 {
        0
    } else {
        count_outcome(rs.drop_last(), o) + (if seed_outcome(rs.last()) == o {
            1nat
        } else {
            0nat
        })
    }
}

/// The message of a seed attempt for an address with no user.
pub open spec fn no_user_found_text(email: Seq<char>) -> Seq<char> {
    NO_USER_FOUND@ + " "@ + email
}

/// `no user found for email {email}`.
pub fn no_user_found_message(email: &str) -> (m: String)
    ensures
        m@ == no_user_found_text(email@),
{
    let head = join2(NO_USER_FOUND, " ");
    join2(head.as_str(), email)
}

/// What trimmed address to seed for a configured one, or `None` when it is blank.
pub fn seed_email_target(email: &str) -> (r: Option<String>)
    ensures
        trim(email@).len() == 0 ==> r is None,
        trim(email@).len() > 0 ==> (r matches Some(t) && t@ == trim(email@)),
{
    let t = trim_str(email);
    if t.unicode_len() == 0 {
        None
    } else {
        Some(t)
    }
}

/// Outcome of one configured address.
pub fn classify_seed_result(r: &EmailSeedResult) -> (o: SeedOutcome)
    ensures
        o == seed_outcome(r@),
{
    let t = trim_str(r.email.as_str());
    if t.unicode_len() == 0 {
        return SeedOutcome::MissingUser;
    }
    match &r.result {
        Ok(()) => SeedOutcome::Seeded,
        Err(msg) => if contains(msg.as_str(), NO_USER_FOUND) {
            SeedOutcome::MissingUser
        } else {
            SeedOutcome::Failed
        },
    }
}

/// Tally a multi-email seed pass: every configured address counts once, as seeded,
/// missing user (blank, or no user for it) or failed.
pub fn seed_super_user_members_from_emails(results: &Vec<EmailSeedResult>) -> (stats:
    SuperUserSeedStats)
    ensures
        stats.configured == results.len(),
        stats.seeded == count_outcome(results@.map_values(|r: EmailSeedResult| r@), SeedOutcome::Seeded),
        stats.missing_user == count_outcome(
            results@.map_values(|r: EmailSeedResult| r@),
            SeedOutcome::MissingUser,
        ),
        stats.failed == count_outcome(results@.map_values(|r: EmailSeedResult| r@), SeedOutcome::Failed),
{
    let ghost all = results@.map_values(|r: EmailSeedResult| r@);
    let mut stats = SuperUserSeedStats {
        configured: results.len(),
        seeded: 0,
        missing_user: 0,
        failed: 0,
    };
    let mut i: usize = 0;
    while i < results.len()
        invariant
            i <= results.len(),
            all == results@.map_values(|r: EmailSeedResult| r@),
            stats.configured == results.len(),
            stats.seeded == count_outcome(all.take(i as int), SeedOutcome::Seeded),
            stats.missing_user == count_outcome(all.take(i as int), SeedOutcome::MissingUser),
            stats.failed == count_outcome(all.take(i as int), SeedOutcome::Failed),
            stats.seeded + stats.missing_user + stats.failed == i,
        decreases results.len() - i,
    {
        let o = classify_seed_result(&results[i]);
        proof {
            assert(all.take(i + 1).drop_last() =~= all.take(i as int));
            assert(all.take(i + 1).last() == results@[i as int]@);
        }
        match o {
            SeedOutcome::Seeded => {
                stats.seeded = stats.seeded + 1;
            },
            SeedOutcome::MissingUser => {
                stats.missing_user = stats.missing_user + 1;
            },
            SeedOutcome::Failed => {
                stats.failed = stats.failed + 1;
            },
        }
        i = i + 1;
    }
    assert(all.take(results.len() as int) =~= all);
    stats
}

/// Every configured address lands in exactly one counter.
pub proof fn lemma_seed_counts_partition(rs: Seq<EmailSeedView>)
    ensures
        count_outcome(rs, SeedOutcome::Seeded) + count_outcome(rs, SeedOutcome::MissingUser)
            + count_outcome(rs, SeedOutcome::Failed) == rs.len(),
    decreases rs.len(),
{
    if rs.len() > 0 {
        lemma_seed_counts_partition(rs.drop_last());
    }
}

/// A seed attempt that fails with the no-user message is counted as a missing user.
pub proof fn lemma_no_user_message_is_missing_user(email: Seq<char>, address: Seq<char>)
    requires
        trim(address).len() > 0,
    ensures
        seed_outcome(EmailSeedView { email: address, result: Err(no_user_found_text(email)) })
            == SeedOutcome::MissingUser,
{
    let m = no_user_found_text(email);
    assert(m.subrange(0, NO_USER_FOUND@.len() as int) =~= NO_USER_FOUND@);
    assert(crate::text::occurs_at(m, NO_USER_FOUND@, 0));
}

/// Whether the owner edges already hold a user principal keyed `principal_id`.
pub open spec fn owners_hold_user_principal(owners: Seq<RecordIdView>, principal_id: Seq<char>) -> bool {
    exists|t: int|
        #![trigger owners[t]]
        0 <= t < owners.len() && owners[t].table == USER_PRINCIPAL_TABLE@ && owners[t].id
            == principal_id
}

/// Whether the member edges already hold a principal keyed `principal_id` (of any table).
pub open spec fn members_hold_principal(members: Seq<RecordIdView>, principal_id: Seq<char>) -> bool {
    exists|t: int| #![trigger members[t]] 0 <= t < members.len() && members[t].id == principal_id
}

/// Which edges to write so a user principal is both owner and member of the Super User
/// group: `(owner edge missing, member edge missing)`.
pub fn super_group_edges_to_add(
    owners: &Vec<RecordId>,
    members: &Vec<RecordId>,
    principal_id: &str,
) -> (r: (bool, bool))
    ensures
        r.0 == !owners_hold_user_principal(owners@.map_values(|x: RecordId| x@), principal_id@),
        r.1 == !members_hold_principal(members@.map_values(|x: RecordId| x@), principal_id@),
{
    let ghost ov = owners@.map_values(|x: RecordId| x@);
    let ghost mv = members@.map_values(|x: RecordId| x@);
    let mut owner_found = false;
    let mut t: usize = 0;
    while t < owners.len()
        invariant
            t <= owners.len(),
            ov == owners@.map_values(|x: RecordId| x@),
            owner_found == exists|u: int|
                #![trigger ov[u]]
                0 <= u < t && ov[u].table == USER_PRINCIPAL_TABLE@ && ov[u].id == principal_id@,
        decreases owners.len() - t,
    {
        assert(ov[t as int] == owners@[t as int]@);
        if str_eq(owners[t].table.as_str(), USER_PRINCIPAL_TABLE) && str_eq(
            owners[t].id.as_str(),
            principal_id,
        ) {
            owner_found = true;
        }
        t = t + 1;
    }
    let mut member_found = false;
    let mut t: usize = 0;
    while t < members.len()
        invariant
            t <= members.len(),
            mv == members@.map_values(|x: RecordId| x@),
            member_found == exists|u: int| #![trigger mv[u]] 0 <= u < t && mv[u].id == principal_id@,
        decreases members.len() - t,
    {
        assert(mv[t as int] == members@[t as int]@);
        if str_eq(members[t].id.as_str(), principal_id) {
            member_found = true;
        }
        t = t + 1;
    }
    (!owner_found, !member_found)
}

/// What adding a user to the Super User group as owner and member writes: the user
/// principal (created when missing, linked to `user` and keyed `user_key`) and the owner
/// and member edges that are not there yet.
#[derive(Debug, Clone, PartialEq, Eq)]
pub struct SuperGroupMembership {
    pub principal: RecordId,
    pub user: RecordId,
    pub user_key: String,
    pub add_owner: bool,
    pub add_member: bool,
}

/// The user principal record of a user: `permission_user_principal:user:{key}`.
pub open spec fn user_principal_record(user_id: Seq<char>) -> RecordIdView {
    RecordIdView { table: USER_PRINCIPAL_TABLE@, id: user_principal_key(user_id) }
}

/// Plan the writes that make the user with record `user` both an owner and a member of the
/// Super User group, given the group's current owner and member edges. The principal is
/// keyed from the user's id and linked to `user` itself. Nothing is removed.
pub fn ensure_user_in_super_group(
    owners: &Vec<RecordId>,
    members: &Vec<RecordId>,
    user: &RecordId,
) -> (r: SuperGroupMembership)
    ensures
        r.principal@ == user_principal_record(user@.id),
        r.user@ == user@,
        r.user_key@ == canonical_key(user@.id),
        r.add_owner == !owners_hold_user_principal(
            owners@.map_values(|x: RecordId| x@),
            user_principal_key(user@.id),
        ),
        r.add_member == !members_hold_principal(
            members@.map_values(|x: RecordId| x@),
            user_principal_key(user@.id),
        ),
{
    let user_id = user.id.as_str();
    let key = canonical_user_id(user_id);
    let principal_id = user_principal_id(user_id);
    let (add_owner, add_member) = super_group_edges_to_add(owners, members, principal_id.as_str());
    let principal = RecordId::new(USER_PRINCIPAL_TABLE, principal_id.as_str());
    SuperGroupMembership { principal, user: user.duplicate(), user_key: key, add_owner, add_member }
}

/// Description stored on the Super User group row.
pub const SUPER_USER_GROUP_DESCRIPTION: &'static str = "Hard-coded singleton super-user group";

/// A permission group row as the Super User bootstrap reads and writes it (times in Unix
/// milliseconds).
#[derive(Debug, Clone, PartialEq, Eq)]
pub struct SuperUserGroupRow {
    pub id: String,
    pub name: String,
    pub description: Option<String>,
    pub created_at: i64,
    pub updated_at: i64,
}

/// Mathematical view of [`SuperUserGroupRow`].
pub struct SuperUserGroupRowView {
    pub id: Seq<char>,
    pub name: Seq<char>,
    pub description: Option<Seq<char>>,
    pub created_at: i64,
    pub updated_at: i64,
}

impl View for SuperUserGroupRow {
    type V = SuperUserGroupRowView;

    open spec fn view(&self) -> SuperUserGroupRowView {
        SuperUserGroupRowView {
            id: self.id@,
            name: self.name@,
            description: match self.description {
                Some(d) => Some(d@),
                None => None,
            },
            created_at: self.created_at,
            updated_at: self.updated_at,
        }
    }
}

/// The Super User group row written when it is missing, at time `now`.
pub open spec fn new_super_user_group(now: i64) -> SuperUserGroupRowView {
    SuperUserGroupRowView {
        id: SUPER_USER_GROUP_ID@,
        name: SUPER_USER_GROUP_NAME@,
        description: Some(SUPER_USER_GROUP_DESCRIPTION@),
        created_at: now,
        updated_at: now,
    }
}

/// Get or create the singleton Super User group: the row stored under
/// [`SUPER_USER_GROUP_ID`] when there is one, else a new row to write (`.1` is `true`
/// exactly when the row must be written).
pub fn ensure_super_user_group(existing: Option<SuperUserGroupRow>, now: i64) -> (r: (
    SuperUserGroupRow,
    bool,
))
    ensures
        match existing {
            Some(g) => r.0@ == g@ && !r.1,
            None => r.0@ == new_super_user_group(now) && r.1,
        },
{
    match existing {
        Some(g) => (g, false),
        None => {
            let id = SUPER_USER_GROUP_ID.to_string();
            let name = SUPER_USER_GROUP_NAME.to_string();
            let description = SUPER_USER_GROUP_DESCRIPTION.to_string();
            proof {
                vstd::string::to_string_from_display_ensures_for_str(SUPER_USER_GROUP_ID, id);
                vstd::string::to_string_from_display_ensures_for_str(SUPER_USER_GROUP_NAME, name);
                vstd::string::to_string_from_display_ensures_for_str(
                    SUPER_USER_GROUP_DESCRIPTION,
                    description,
                );
            }
            (
                SuperUserGroupRow {
                    id,
                    name,
                    description: Some(description),
                    created_at: now,
                    updated_at: now,
                },
                true,
            )
        },
    }
}

/// Once the owner and member edges for a user principal are written, a second pass adds
/// nothing.
pub proof fn lemma_super_group_edges_idempotent(
    owners: Seq<RecordIdView>,
    members: Seq<RecordIdView>,
    principal_id: Seq<char>,
)
    ensures
        owners_hold_user_principal(
            owners.push(RecordIdView { table: USER_PRINCIPAL_TABLE@, id: principal_id }),
            principal_id,
        ),
        members_hold_principal(
            members.push(RecordIdView { table: USER_PRINCIPAL_TABLE@, id: principal_id }),
            principal_id,
        ),
{
    let e = RecordIdView { table: USER_PRINCIPAL_TABLE@, id: principal_id };
    assert(owners.push(e)[owners.len() as int] == e);
    assert(members.push(e)[members.len() as int] == e);
}

/// Number of ids other than the well-known Super User id (an absent id counts).
pub open spec fn count_foreign(ids: Seq<Option<Seq<char>>>) -> nat
    decreases ids.len(),
{
    if ids.len() == 0 {
        0
    } else {
        count_foreign(ids.drop_last()) + (if ids.last() == Some(SUPER_USER_GROUP_ID@) {
            0nat
        } else {
            1nat
        })
    }
}

/// How many groups named like the Super User group are not the well-known one
/// (those are logged and ignored).
pub fn count_foreign_super_user_groups(ids: &Vec<Option<String>>) -> (n: usize)
    ensures
        n == count_foreign(ids@.map_values(|o: Option<String>| match o {
            Some(s) => Some(s@),
            None => None,
        })),
{
    let ghost v = ids@.map_values(|o: Option<String>| match o {
        Some(s) => Some(s@),
        None => None,
    });
    let mut n: usize = 0;
    let mut i: usize = 0;
    while i < ids.len()
        invariant
            i <= ids.len(),
            n <= i,
            v == ids@.map_values(|o: Option<String>| match o {
                Some(s) => Some(s@),
                None => None,
            }),
            n == count_foreign(v.take(i as int)),
        decreases ids.len() - i,
    {
        proof {
            assert(v.take(i + 1).drop_last() =~= v.take(i as int));
            assert(v.take(i + 1).last() == v[i as int]);
        }
        let foreign = match &ids[i] {
            Some(s) => !str_eq(s.as_str(), SUPER_USER_GROUP_ID),
            None => true,
        };
        if foreign {
            n = n + 1;
        }
        i = i + 1;
    }
    assert(v.take(ids.len() as int) =~= v);
    n
}

} // verus!
