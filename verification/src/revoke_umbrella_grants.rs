//! Revoke standing umbrella group grants for every permission of a resource kind.
//!
//! Deployments seeded under the old umbrella policy carry kind-wide group grants on
//! per-resource permissions. The plan computed here removes exactly those edges: only
//! permissions named `{prefix}.…`, only the group principals of the given groups, and
//! nothing else (creators, other kinds and per-user grants are untouched).
use vstd::prelude::*;

use crate::group_graph::{first_index, lemma_first_index_unique, GROUP_PRINCIPAL_TABLE};
use crate::model::{string_views, holds_record, record_views, Actor, RecordId, RecordIdView};
use crate::principal_ids::{group_principal_id, group_principal_key};
use crate::text::{contains_string, has_prefix, join2, starts_with, str_eq};

verus! {

/// A permission with the principals it is granted to.
#[derive(Debug, Clone, PartialEq, Eq)]
pub struct PermissionGrants {
    pub id: String,
    pub name: String,
    pub allowed: Vec<RecordId>,
}

pub struct GrantsView {
    pub id: Seq<char>,
    pub name: Seq<char>,
    pub allowed: Seq<RecordIdView>,
}

impl View for PermissionGrants {
    type V = GrantsView;

    open spec fn view(&self) -> GrantsView {
        GrantsView { id: self.id@, name: self.name@, allowed: record_views(self.allowed@) }
    }
}

/// One grant edge to delete.
#[derive(Debug, Clone, PartialEq, Eq)]
pub struct UmbrellaRevocation {
    pub permission_id: String,
    pub permission_name: String,
    pub group_id: String,
    pub principal: RecordId,
}

pub struct RevocationView {
    pub permission_id: Seq<char>,
    pub permission_name: Seq<char>,
    pub group_id: Seq<char>,
    pub principal: RecordIdView,
}

impl View for UmbrellaRevocation {
    type V = RevocationView;

    open spec fn view(&self) -> RevocationView {
        RevocationView {
            permission_id: self.permission_id@,
            permission_name: self.permission_name@,
            group_id: self.group_id@,
            principal: self.principal@,
        }
    }
}

/// A (permission, group) pair the revocation pass examines.
pub struct Pair {
    pub perm_id: Seq<char>,
    pub perm_name: Seq<char>,
    pub group_id: Seq<char>,
}

/// `s` without any entry equal to `x`.
pub open spec fn without(s: Seq<RecordIdView>, x: RecordIdView) -> Seq<RecordIdView>
    decreases s.len(),
{
    if s.len() == 0 {
        s
    } else if s.last() == x {
        without(s.drop_last(), x)
    } else {
        without(s.drop_last(), x).push(s.last())
    }
}

/// The group principal record of a group.
pub open spec fn group_principal_record(group_id: Seq<char>) -> RecordIdView {
    RecordIdView { table: GROUP_PRINCIPAL_TABLE@, id: group_principal_key(group_id) }
}

/// Which permission row loses which grant edge when `group_id` is revoked from
/// `perm_id`: the first permission keyed `perm_id`, when the group's principal exists and
/// the permission is granted to it.
pub open spec fn revoke_target(
    ids: Seq<Seq<char>>,
    allowed: Seq<Seq<RecordIdView>>,
    principals: Seq<Seq<char>>,
    perm_id: Seq<char>,
    group_id: Seq<char>,
) -> Option<int> {
    match first_index(ids, perm_id) {
        None => None,
        Some(k) => if principals.contains(group_principal_key(group_id)) && allowed[k].contains(
            group_principal_record(group_id),
        ) {
            Some(k)
        } else {
            None
        },
    }
}

/// The pairs a pass examines, in order: for each permission named `{prefix}.…`, each
/// group.
pub open spec fn pairs(ps: Seq<GrantsView>, dotted: Seq<char>, groups: Seq<Seq<char>>) -> Seq<Pair>
    decreases ps.len(),
{
    if ps.len() == 0 {
        Seq::empty()
    } else {
        let prev = pairs(ps.drop_last(), dotted, groups);
        if has_prefix(ps.last().name, dotted) {
            prev + groups.map_values(
                |g: Seq<char>| Pair { perm_id: ps.last().id, perm_name: ps.last().name, group_id: g },
            )
        } else {
            prev
        }
    }
}

/// The revocation a pair makes when it finds a grant.
pub open spec fn revocation_of(p: Pair) -> RevocationView {
    RevocationView {
        permission_id: p.perm_id,
        permission_name: p.perm_name,
        group_id: p.group_id,
        principal: group_principal_record(p.group_id),
    }
}

/// Grant lists and revocations after running over `prs` in order.
pub open spec fn run(
    ids: Seq<Seq<char>>,
    allowed: Seq<Seq<RecordIdView>>,
    principals: Seq<Seq<char>>,
    prs: Seq<Pair>,
) -> (Seq<Seq<RecordIdView>>, Seq<RevocationView>)
    decreases prs.len(),
{
    if prs.len() == 0 {
        (allowed, Seq::empty())
    } else {
        let (a, revs) = run(ids, allowed, principals, prs.drop_last());
        let p = prs.last();
        match revoke_target(ids, a, principals, p.perm_id, p.group_id) {
            Some(k) => (
                a.update(k, without(a[k], group_principal_record(p.group_id))),
                revs.push(revocation_of(p)),
            ),
            None => (a, revs),
        }
    }
}

pub open spec fn grant_ids(ps: Seq<GrantsView>) -> Seq<Seq<char>> {
    ps.map_values(|p: GrantsView| p.id)
}

pub open spec fn grant_lists(ps: Seq<GrantsView>) -> Seq<Seq<RecordIdView>> {
    ps.map_values(|p: GrantsView| p.allowed)
}

/// The revocations of a whole pass over a snapshot.
pub open spec fn planned_revocations(
    ps: Seq<GrantsView>,
    prefix: Seq<char>,
    groups: Seq<Seq<char>>,
    principals: Seq<Seq<char>>,
) -> Seq<RevocationView> {
    run(grant_ids(ps), grant_lists(ps), principals, pairs(ps, prefix + "."@, groups)).1
}

/// The snapshot after a pass.
pub open spec fn revoked_snapshot(
    ps: Seq<GrantsView>,
    prefix: Seq<char>,
    groups: Seq<Seq<char>>,
    principals: Seq<Seq<char>>,
) -> Seq<GrantsView> {
    let a = run(grant_ids(ps), grant_lists(ps), principals, pairs(ps, prefix + "."@, groups)).0;
    Seq::new(ps.len(), |k: int| GrantsView { id: ps[k].id, name: ps[k].name, allowed: a[k] })
}

proof fn lemma_without_excludes(s: Seq<RecordIdView>, x: RecordIdView)
    ensures
        !without(s, x).contains(x),
        forall|y: RecordIdView| #[trigger] without(s, x).contains(y) ==> s.contains(y),
    decreases s.len(),
{
    if s.len() > 0 {
        lemma_without_excludes(s.drop_last(), x);
        let w = without(s, x);
        let w0 = without(s.drop_last(), x);
        assert forall|y: RecordIdView| #[trigger] w.contains(y) implies s.contains(y) by {
            let i = choose|i: int| 0 <= i < w.len() && w[i] == y;
            if s.last() != x && i == w.len() - 1 {
                assert(s[s.len() - 1] == y);
            } else {
                assert(w0[i] == y);
                assert(w0.contains(y));
                let j = choose|j: int| 0 <= j < s.drop_last().len() && s.drop_last()[j] == y;
                assert(s[j] == y);
            }
        }
        if w.contains(x) {
            let i = choose|i: int| 0 <= i < w.len() && w[i] == x;
            if s.last() != x && i == w.len() - 1 {
            } else {
                assert(w0[i] == x);
            }
        }
    }
}

/// Running over pairs only removes grant edges, never changes list count.
proof fn lemma_run_shrinks(
    ids: Seq<Seq<char>>,
    allowed: Seq<Seq<RecordIdView>>,
    principals: Seq<Seq<char>>,
    prs: Seq<Pair>,
)
    requires
        ids.len() == allowed.len(),
    ensures
        run(ids, allowed, principals, prs).0.len() == allowed.len(),
        forall|k: int, y: RecordIdView|
            0 <= k < allowed.len() && #[trigger] run(ids, allowed, principals, prs).0[k].contains(y)
                ==> allowed[k].contains(y),
    decreases prs.len(),
{
    if prs.len() > 0 {
        lemma_run_shrinks(ids, allowed, principals, prs.drop_last());
        let (a, revs) = run(ids, allowed, principals, prs.drop_last());
        let p = prs.last();
        let fin = run(ids, allowed, principals, prs).0;
        match revoke_target(ids, a, principals, p.perm_id, p.group_id) {
            Some(k) => {
                crate::group_graph::lemma_first_index_range(ids, p.perm_id);
                let rec = group_principal_record(p.group_id);
                lemma_without_excludes(a[k], rec);
                assert(fin == a.update(k, without(a[k], rec)));
                assert forall|j: int, y: RecordIdView|
                    0 <= j < allowed.len() && #[trigger] fin[j].contains(y) implies allowed[j].contains(y) by {
                    if j == k {
                        assert(a[k].contains(y));
                    } else {
                        assert(fin[j] == a[j]);
                    }
                }
            },
            None => {},
        }
    }
}

/// After a run over `prs`, every pair of `prs` finds nothing left to revoke.
proof fn lemma_run_settles(
    ids: Seq<Seq<char>>,
    allowed: Seq<Seq<RecordIdView>>,
    principals: Seq<Seq<char>>,
    prs: Seq<Pair>,
)
    requires
        ids.len() == allowed.len(),
    ensures
        forall|i: int|
            0 <= i < prs.len() ==> revoke_target(
                ids,
                run(ids, allowed, principals, prs).0,
                principals,
                #[trigger] prs[i].perm_id,
                prs[i].group_id,
            ) is None,
    decreases prs.len(),
{
    if prs.len() > 0 {
        let q = prs.drop_last();
        lemma_run_settles(ids, allowed, principals, q);
        lemma_run_shrinks(ids, allowed, principals, q);
        let (a, revs) = run(ids, allowed, principals, q);
        let p = prs.last();
        let fin = run(ids, allowed, principals, prs).0;
        let rec = group_principal_record(p.group_id);
        match revoke_target(ids, a, principals, p.perm_id, p.group_id) {
            Some(k) => {
                lemma_without_excludes(a[k], rec);
                assert(fin == a.update(k, without(a[k], rec)));
            },
            None => {
                assert(fin == a);
            },
        }
        assert forall|i: int| 0 <= i < prs.len() implies revoke_target(
            ids,
            fin,
            principals,
            #[trigger] prs[i].perm_id,
            prs[i].group_id,
        ) is None by {
            if i < prs.len() - 1 {
                assert(prs[i] == q[i]);
                assert(revoke_target(ids, a, principals, q[i].perm_id, q[i].group_id) is None);
                match first_index(ids, prs[i].perm_id) {
                    Some(j) => {
                        crate::group_graph::lemma_first_index_range(ids, prs[i].perm_id);
                        let r = group_principal_record(prs[i].group_id);
                        if fin[j].contains(r) {
                            match revoke_target(ids, a, principals, p.perm_id, p.group_id) {
                                Some(k) => {
                                    if j == k {
                                        assert(without(a[k], rec).contains(r));
                                    }
                                },
                                None => {},
                            }
                        }
                    },
                    None => {},
                }
            } else {
                crate::group_graph::lemma_first_index_range(ids, p.perm_id);
            }
        }
    }
}

/// A run over pairs that find nothing to revoke changes nothing.
proof fn lemma_run_quiet(
    ids: Seq<Seq<char>>,
    allowed: Seq<Seq<RecordIdView>>,
    principals: Seq<Seq<char>>,
    prs: Seq<Pair>,
)
    requires
        forall|i: int|
            0 <= i < prs.len() ==> revoke_target(
                ids,
                allowed,
                principals,
                #[trigger] prs[i].perm_id,
                prs[i].group_id,
            ) is None,
    ensures
        run(ids, allowed, principals, prs) == (allowed, Seq::<RevocationView>::empty()),
    decreases prs.len(),
{
    if prs.len() > 0 {
        let q = prs.drop_last();
        assert forall|i: int| 0 <= i < q.len() implies revoke_target(
            ids,
            allowed,
            principals,
            #[trigger] q[i].perm_id,
            q[i].group_id,
        ) is None by {
            assert(q[i] == prs[i]);
        }
        lemma_run_quiet(ids, allowed, principals, q);
        let k = prs.len() - 1;
        assert(prs[k] == prs.last());
    }
}

/// The pairs of a pass depend on the permissions' ids and names only.
proof fn lemma_pairs_same(
    ps1: Seq<GrantsView>,
    ps2: Seq<GrantsView>,
    dotted: Seq<char>,
    groups: Seq<Seq<char>>,
)
    requires
        ps1.len() == ps2.len(),
        forall|k: int| 0 <= k < ps1.len() ==> ps1[k].id == ps2[k].id && ps1[k].name == ps2[k].name,
    ensures
        pairs(ps1, dotted, groups) == pairs(ps2, dotted, groups),
    decreases ps1.len(),
{
    if ps1.len() > 0 {
        lemma_pairs_same(ps1.drop_last(), ps2.drop_last(), dotted, groups);
    }
}

/// Revoking umbrella grants is idempotent: a second pass over the snapshot a first pass
/// leaves revokes nothing.
pub proof fn lemma_revocation_idempotent(
    ps: Seq<GrantsView>,
    prefix: Seq<char>,
    groups: Seq<Seq<char>>,
    principals: Seq<Seq<char>>,
)
    ensures
        planned_revocations(revoked_snapshot(ps, prefix, groups, principals), prefix, groups, principals).len()
            == 0,
{
    let dotted = prefix + "."@;
    let prs = pairs(ps, dotted, groups);
    let ids = grant_ids(ps);
    let lists = grant_lists(ps);
    let after = revoked_snapshot(ps, prefix, groups, principals);
    lemma_run_shrinks(ids, lists, principals, prs);
    let fin = run(ids, lists, principals, prs).0;
    lemma_run_settles(ids, lists, principals, prs);
    lemma_pairs_same(after, ps, dotted, groups);
    assert(grant_ids(after) =~= ids);
    assert(grant_lists(after) =~= fin);
    lemma_run_quiet(ids, fin, principals, prs);
}

/// Every pair of a pass concerns a permission named `{prefix}.…` and one of the groups.
proof fn lemma_pairs_scoped(ps: Seq<GrantsView>, dotted: Seq<char>, groups: Seq<Seq<char>>)
    ensures
        forall|i: int|
            0 <= i < pairs(ps, dotted, groups).len() ==> has_prefix(
                #[trigger] pairs(ps, dotted, groups)[i].perm_name,
                dotted,
            ) && groups.contains(pairs(ps, dotted, groups)[i].group_id),
    decreases ps.len(),
{
    if ps.len() > 0 {
        lemma_pairs_scoped(ps.drop_last(), dotted, groups);
        let prev = pairs(ps.drop_last(), dotted, groups);
        let cur = pairs(ps, dotted, groups);
        if has_prefix(ps.last().name, dotted) {
            let block = groups.map_values(
                |g: Seq<char>| Pair { perm_id: ps.last().id, perm_name: ps.last().name, group_id: g },
            );
            assert forall|i: int| 0 <= i < cur.len() implies has_prefix(#[trigger] cur[i].perm_name, dotted)
                && groups.contains(cur[i].group_id) by {
                if i < prev.len() {
                    assert(cur[i] == prev[i]);
                } else {
                    assert(cur[i] == block[i - prev.len()]);
                    assert(groups[i - prev.len()] == cur[i].group_id);
                }
            }
        }
    }
}

/// Every revocation of a run comes from one of its pairs and removes that group's
/// principal.
proof fn lemma_run_scoped(
    ids: Seq<Seq<char>>,
    allowed: Seq<Seq<RecordIdView>>,
    principals: Seq<Seq<char>>,
    prs: Seq<Pair>,
)
    ensures
        forall|i: int|
            0 <= i < run(ids, allowed, principals, prs).1.len() ==> exists|j: int|
                0 <= j < prs.len() && #[trigger] run(ids, allowed, principals, prs).1[i]
                    == revocation_of(prs[j]),
    decreases prs.len(),
{
    if prs.len() > 0 {
        let q = prs.drop_last();
        lemma_run_scoped(ids, allowed, principals, q);
        let revs0 = run(ids, allowed, principals, q).1;
        let revs = run(ids, allowed, principals, prs).1;
        assert forall|i: int| 0 <= i < revs.len() implies exists|j: int|
            0 <= j < prs.len() && #[trigger] revs[i] == revocation_of(prs[j]) by {
            if i < revs0.len() {
                assert(revs[i] == revs0[i]);
                let j = choose|j: int|
                    0 <= j < q.len() && #[trigger] revs0[i] == revocation_of(q[j]);
                assert(q[j] == prs[j]);
            } else {
                assert(prs[prs.len() - 1] == prs.last());
            }
        }
    }
}

/// A pass revokes only grants of permissions named `{prefix}.…`, and each only for one of
/// the given groups, by deleting that group's principal edge.
pub proof fn lemma_revocations_scoped(
    ps: Seq<GrantsView>,
    prefix: Seq<char>,
    groups: Seq<Seq<char>>,
    principals: Seq<Seq<char>>,
)
    ensures
        forall|i: int|
            0 <= i < planned_revocations(ps, prefix, groups, principals).len() ==> {
                let r = #[trigger] planned_revocations(ps, prefix, groups, principals)[i];
                &&& has_prefix(r.permission_name, prefix + "."@)
                &&& groups.contains(r.group_id)
                &&& r.principal == group_principal_record(r.group_id)
            },
{
    let dotted = prefix + "."@;
    let prs = pairs(ps, dotted, groups);
    lemma_pairs_scoped(ps, dotted, groups);
    lemma_run_scoped(grant_ids(ps), grant_lists(ps), principals, prs);
    let revs = planned_revocations(ps, prefix, groups, principals);
    assert forall|i: int| 0 <= i < revs.len() implies {
        let r = #[trigger] revs[i];
        &&& has_prefix(r.permission_name, dotted)
        &&& groups.contains(r.group_id)
        &&& r.principal == group_principal_record(r.group_id)
    } by {
        let j = choose|j: int|
            0 <= j < prs.len() && #[trigger] revs[i] == revocation_of(prs[j]);
        assert(has_prefix(prs[j].perm_name, dotted));
    }
}

/// Copy of `v` without any entry equal to `x`.
fn without_record(v: &Vec<RecordId>, x: &RecordId) -> (r: Vec<RecordId>)
    ensures
        record_views(r@) == without(record_views(v@), x@),
{
    let ghost all = record_views(v@);
    let mut r: Vec<RecordId> = Vec::new();
    let mut i: usize = 0;
    while i < v.len()
        invariant
            i <= v.len(),
            all == record_views(v@),
            record_views(r@) == without(all.take(i as int), x@),
        decreases v.len() - i,
    {
        proof {
            assert(all.take(i + 1).drop_last() =~= all.take(i as int));
            assert(all.take(i + 1).last() == v@[i as int]@);
        }
        if !v[i].same_as(x) {
            let ghost prev = record_views(r@);
            r.push(v[i].duplicate());
            assert(record_views(r@) =~= prev.push(v@[i as int]@));
        }
        i = i + 1;
    }
    assert(all.take(v.len() as int) =~= all);
    r
}

pub open spec fn list_views(a: Seq<Vec<RecordId>>) -> Seq<Seq<RecordIdView>> {
    a.map_values(|v: Vec<RecordId>| record_views(v@))
}

fn find_permission_row(ps: &Vec<PermissionGrants>, id: &str) -> (r: Option<usize>)
    ensures
        r matches Some(k) ==> first_index(grant_ids(ps@.map_values(|p: PermissionGrants| p@)), id@)
            == Some(k as int) && k < ps.len(),
        r is None ==> first_index(grant_ids(ps@.map_values(|p: PermissionGrants| p@)), id@) is None,
{
    let ghost ids = grant_ids(ps@.map_values(|p: PermissionGrants| p@));
    let mut i: usize = 0;
    while i < ps.len()
        invariant
            i <= ps.len(),
            ids == grant_ids(ps@.map_values(|p: PermissionGrants| p@)),
            forall|j: int| 0 <= j < i ==> ids[j] != id@,
        decreases ps.len() - i,
    {
        assert(ids[i as int] == ps@[i as int].id@);
        if str_eq(ps[i].id.as_str(), id) {
            proof {
                lemma_first_index_unique(ids, id@, i as int);
            }
            return Some(i);
        }
        i = i + 1;
    }
    None
}

/// Revoke `group_id` from the permission keyed `permission_id` in the working grant lists
/// `allowed` (one per row of `permissions`): only when the group's principal exists and
/// the permission is granted to it. Returns the row that lost the grant.
pub fn revoke_group_from_permission(
    permissions: &Vec<PermissionGrants>,
    allowed: &mut Vec<Vec<RecordId>>,
    group_principals: &Vec<String>,
    permission_id: &str,
    group_id: &str,
) -> (r: Option<usize>)
    requires
        old(allowed).len() == permissions.len(),
    ensures
        final(allowed).len() == permissions.len(),
        match revoke_target(
            grant_ids(permissions@.map_values(|p: PermissionGrants| p@)),
            list_views(old(allowed)@),
            string_views(group_principals@),
            permission_id@,
            group_id@,
        ) {
            Some(k) => r == Some(k as usize) && list_views(final(allowed)@) == list_views(
                old(allowed)@,
            ).update(
                k,
                without(list_views(old(allowed)@)[k], group_principal_record(group_id@)),
            ),
            None => r is None && list_views(final(allowed)@) == list_views(old(allowed)@),
        },
{
    let k = match find_permission_row(permissions, permission_id) {
        None => {
            return None;
        },
        Some(k) => k,
    };
    let principal_id = group_principal_id(group_id);
    if !contains_string(group_principals, principal_id.as_str()) {
        return None;
    }
    let rid = RecordId::new(GROUP_PRINCIPAL_TABLE, principal_id.as_str());
    assert(rid@ == group_principal_record(group_id@));
    assert(list_views(allowed@)[k as int] == record_views(allowed@[k as int]@));
    if !holds_record(&allowed[k], &rid) {
        return None;
    }
    let rest = without_record(&allowed[k], &rid);
    let ghost before = list_views(allowed@);
    allowed.set(k, rest);
    assert(list_views(allowed@) =~= before.update(
        k as int,
        without(before[k as int], group_principal_record(group_id@)),
    ));
    Some(k)
}

/// Revoke umbrella group grants from every permission whose name starts with
/// `{kind_prefix}.`: for each such permission (in order) and each of `group_ids`, the grant
/// to that group's principal is removed when present. Requires a system actor.
///
/// Returns the revocations to carry out, in order.
pub fn revoke_umbrella_grants(
    actor: &Actor,
    kind_prefix: &str,
    permissions: &Vec<PermissionGrants>,
    group_ids: &Vec<String>,
    group_principals: &Vec<String>,
) -> (r: Result<Vec<UmbrellaRevocation>, &'static str>)
    ensures
        !(actor@ is System) ==> (r matches Err(e) && e@
            == "revoke_umbrella_grants requires System actor (Chronon/bootstrap)"@),
        actor@ is System ==> (r matches Ok(v) && v@.map_values(|x: UmbrellaRevocation| x@)
            == planned_revocations(
            permissions@.map_values(|p: PermissionGrants| p@),
            kind_prefix@,
            string_views(group_ids@),
            string_views(group_principals@),
        )),
{
    if !actor.is_system() {
        return Err("revoke_umbrella_grants requires System actor (Chronon/bootstrap)");
    }
    let ghost ps = permissions@.map_values(|p: PermissionGrants| p@);
    let ghost groups = string_views(group_ids@);
    let ghost principals = string_views(group_principals@);
    let ghost ids = grant_ids(ps);
    let ghost lists = grant_lists(ps);
    let dotted = join2(kind_prefix, ".");
    let n = permissions.len();
    let mut allowed: Vec<Vec<RecordId>> = Vec::new();
    let mut c: usize = 0;
    while c < n
        invariant
            c <= n,
            n == permissions.len(),
            ps == permissions@.map_values(|p: PermissionGrants| p@),
            allowed.len() == c,
            forall|j: int| 0 <= j < c ==> #[trigger] list_views(allowed@)[j] == ps[j].allowed,
        decreases n - c,
    {
        let ghost before = allowed@;
        let mut copy: Vec<RecordId> = Vec::new();
        let src = &permissions[c].allowed;
        let mut d: usize = 0;
        while d < src.len()
            invariant
                d <= src.len(),
                copy.len() == d,
                forall|e: int| 0 <= e < d ==> copy@[e]@ == src@[e]@,
            decreases src.len() - d,
        {
            copy.push(src[d].duplicate());
            d = d + 1;
        }
        assert(record_views(copy@) =~= record_views(src@));
        allowed.push(copy);
        assert(list_views(allowed@)[c as int] == record_views(allowed@[c as int]@));
        assert forall|j: int| 0 <= j < c implies #[trigger] list_views(allowed@)[j] == ps[j].allowed by {
            assert(allowed@[j] == before[j]);
            assert(list_views(before)[j] == ps[j].allowed);
        }
        c = c + 1;
    }
    assert(list_views(allowed@) =~= lists);
    let mut out: Vec<UmbrellaRevocation> = Vec::new();
    let mut k: usize = 0;
    while k < n
        invariant
            k <= n,
            n == permissions.len(),
            ps == permissions@.map_values(|p: PermissionGrants| p@),
            groups == string_views(group_ids@),
            principals == string_views(group_principals@),
            ids == grant_ids(ps),
            lists == grant_lists(ps),
            dotted@ == kind_prefix@ + "."@,
            allowed.len() == n,
            (list_views(allowed@), out@.map_values(|x: UmbrellaRevocation| x@)) == run(
                ids,
                lists,
                principals,
                pairs(ps.take(k as int), dotted@, groups),
            ),
        decreases n - k,
    {
        let ghost base = pairs(ps.take(k as int), dotted@, groups);
        let ghost block = groups.map_values(
            |g: Seq<char>| Pair { perm_id: ps[k as int].id, perm_name: ps[k as int].name, group_id: g },
        );
        proof {
            assert(ps.take(k + 1).drop_last() =~= ps.take(k as int));
            assert(ps.take(k + 1).last() == ps[k as int]);
        }
        let perm = &permissions[k];
        if starts_with(perm.name.as_str(), dotted.as_str()) {
            let mut t: usize = 0;
            while t < group_ids.len()
                invariant
                    k < n,
                    n == permissions.len(),
                    perm == permissions[k as int],
                    ps == permissions@.map_values(|p: PermissionGrants| p@),
                    groups == string_views(group_ids@),
                    principals == string_views(group_principals@),
                    ids == grant_ids(ps),
                    lists == grant_lists(ps),
                    block == groups.map_values(
                        |g: Seq<char>| Pair {
                            perm_id: ps[k as int].id,
                            perm_name: ps[k as int].name,
                            group_id: g,
                        },
                    ),
                    t <= group_ids.len(),
                    allowed.len() == n,
                    (list_views(allowed@), out@.map_values(|x: UmbrellaRevocation| x@)) == run(
                        ids,
                        lists,
                        principals,
                        base + block.take(t as int),
                    ),
                decreases group_ids.len() - t,
            {
                let ghost cur = base + block.take(t as int);
                let ghost nxt = base + block.take(t + 1);
                proof {
                    assert(nxt.drop_last() =~= cur);
                    assert(nxt.last() == block[t as int]);
                    assert(block[t as int].group_id == group_ids@[t as int]@);
                    assert(ps[k as int].id == perm.id@);
                }
                let ghost prev_out = out@.map_values(|x: UmbrellaRevocation| x@);
                match revoke_group_from_permission(
                    permissions,
                    &mut allowed,
                    group_principals,
                    perm.id.as_str(),
                    group_ids[t].as_str(),
                ) {
                    Some(_) => {
                        let principal_id = group_principal_id(group_ids[t].as_str());
                        let rev = UmbrellaRevocation {
                            permission_id: perm.id.clone(),
                            permission_name: perm.name.clone(),
                            group_id: group_ids[t].clone(),
                            principal: RecordId::new(GROUP_PRINCIPAL_TABLE, principal_id.as_str()),
                        };
                        out.push(rev);
                        assert(out@.map_values(|x: UmbrellaRevocation| x@) =~= prev_out.push(
                            rev@,
                        ));
                    },
                    None => {},
                }
                t = t + 1;
            }
            proof {
                assert(block.take(group_ids.len() as int) =~= block);
                assert(pairs(ps.take(k + 1), dotted@, groups) == base + block);
            }
        } else {
            assert(pairs(ps.take(k + 1), dotted@, groups) == base);
        }
        k = k + 1;
    }
    assert(ps.take(n as int) =~= ps);
    Ok(out)
}

} // verus!
