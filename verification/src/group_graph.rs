//! Permission-group graph: groups own and contain principals; a group principal
//! links back to a nested group. This module models a snapshot of that graph and
//! proves the walk that collects every group reachable from a start group.
use vstd::prelude::*;

use crate::model::{RecordId, RecordIdView};
use crate::text::str_eq;

verus! {

/// Table of user principals.
pub const USER_PRINCIPAL_TABLE: &'static str = "permission_user_principal";

/// Table of group principals.
pub const GROUP_PRINCIPAL_TABLE: &'static str = "permission_group_principal";

/// The two principal tables are different tables.
pub proof fn lemma_principal_tables_differ()
    ensures
        USER_PRINCIPAL_TABLE@ != GROUP_PRINCIPAL_TABLE@,
{
    reveal_strlit("permission_user_principal");
    reveal_strlit("permission_group_principal");
    assert(USER_PRINCIPAL_TABLE@.len() != GROUP_PRINCIPAL_TABLE@.len());
}

/// A permission group with its owner and member edges.
#[derive(Debug, Clone, PartialEq, Eq)]
pub struct GroupRecord {
    pub id: String,
    pub owners: Vec<RecordId>,
    pub members: Vec<RecordId>,
}

pub struct GroupView {
    pub id: Seq<char>,
    pub owners: Seq<RecordIdView>,
    pub members: Seq<RecordIdView>,
}

impl View for GroupRecord {
    type V = GroupView;

    open spec fn view(&self) -> GroupView {
        GroupView {
            id: self.id@,
            owners: self.owners@.map_values(|r: RecordId| r@),
            members: self.members@.map_values(|r: RecordId| r@),
        }
    }
}

/// A user principal row: its id and the user record it stands for.
#[derive(Debug, Clone, PartialEq, Eq)]
pub struct UserPrincipalRecord {
    pub id: String,
    pub user: RecordId,
}

pub struct UserPrincipalView {
    pub id: Seq<char>,
    pub user: RecordIdView,
}

impl View for UserPrincipalRecord {
    type V = UserPrincipalView;

    open spec fn view(&self) -> UserPrincipalView {
        UserPrincipalView { id: self.id@, user: self.user@ }
    }
}

/// A group principal row: its id and the group record it stands for.
#[derive(Debug, Clone, PartialEq, Eq)]
pub struct GroupPrincipalRecord {
    pub id: String,
    pub group: RecordId,
}

pub struct GroupPrincipalView {
    pub id: Seq<char>,
    pub group: RecordIdView,
}

impl View for GroupPrincipalRecord {
    type V = GroupPrincipalView;

    open spec fn view(&self) -> GroupPrincipalView {
        GroupPrincipalView { id: self.id@, group: self.group@ }
    }
}

/// The rows of the three tables that group walks read.
#[derive(Debug, Clone, PartialEq, Eq)]
pub struct GraphSnapshot {
    pub groups: Vec<GroupRecord>,
    pub user_principals: Vec<UserPrincipalRecord>,
    pub group_principals: Vec<GroupPrincipalRecord>,
}

pub struct GraphView {
    pub groups: Seq<GroupView>,
    pub user_principals: Seq<UserPrincipalView>,
    pub group_principals: Seq<GroupPrincipalView>,
}

impl View for GraphSnapshot {
    type V = GraphView;

    open spec fn view(&self) -> GraphView {
        GraphView {
            groups: self.groups@.map_values(|g: GroupRecord| g@),
            user_principals: self.user_principals@.map_values(|p: UserPrincipalRecord| p@),
            group_principals: self.group_principals@.map_values(|p: GroupPrincipalRecord| p@),
        }
    }
}

/// Which edges a walk follows.
#[derive(Clone, Copy)]
pub enum WalkMode {
    /// Owner edges and member edges with a non-empty id (membership checks).
    Membership,
    /// Owner edges only; groups with an empty id are skipped (owner notification).
    Ownership,
}

/// `i` is the first position of `id` in `ids`.
pub open spec fn is_first(ids: Seq<Seq<char>>, id: Seq<char>, i: int) -> bool {
    &&& 0 <= i < ids.len()
    &&& ids[i] == id
    &&& forall|j: int| 0 <= j < i ==> ids[j] != id
}

/// Position of the first row keyed `id` (a lookup by primary key).
pub open spec fn first_index(ids: Seq<Seq<char>>, id: Seq<char>) -> Option<int> {
    if exists|i: int| is_first(ids, id, i) {
        Some(choose|i: int| is_first(ids, id, i))
    } else {
        None
    }
}

pub open spec fn group_ids(g: GraphView) -> Seq<Seq<char>> {
    g.groups.map_values(|x: GroupView| x.id)
}

pub open spec fn user_principal_ids(g: GraphView) -> Seq<Seq<char>> {
    g.user_principals.map_values(|x: UserPrincipalView| x.id)
}

pub open spec fn group_principal_ids(g: GraphView) -> Seq<Seq<char>> {
    g.group_principals.map_values(|x: GroupPrincipalView| x.id)
}

/// The user record a principal edge stands for, when it names an existing user principal.
pub open spec fn resolve_user(g: GraphView, link: RecordIdView) -> Option<RecordIdView> {
    if link.table == USER_PRINCIPAL_TABLE@ {
        match first_index(user_principal_ids(g), link.id) {
            Some(k) => Some(g.user_principals[k].user),
            None => None,
        }
    } else {
        None
    }
}

/// The group a principal edge leads to, when it names an existing group principal whose
/// group exists.
pub open spec fn resolve_group(g: GraphView, link: RecordIdView) -> Option<int> {
    if link.table == GROUP_PRINCIPAL_TABLE@ {
        match first_index(group_principal_ids(g), link.id) {
            Some(k) => first_index(group_ids(g), g.group_principals[k].group.id),
            None => None,
        }
    } else {
        None
    }
}

/// Whether a walk expands group `i` at all.
pub open spec fn live(g: GraphView, mode: WalkMode, i: int) -> bool {
    mode is Ownership ==> g.groups[i].id.len() > 0
}

/// The `t`-th member edge of a group is followed by a walk in `mode`.
pub open spec fn member_followed(mode: WalkMode, m: RecordIdView) -> bool {
    mode is Membership && m.id.len() > 0
}

/// Group `j` is a direct child of group `i` for a walk in `mode`.
pub open spec fn child(g: GraphView, mode: WalkMode, i: int, j: int) -> bool {
    &&& 0 <= i < g.groups.len()
    &&& 0 <= j < g.groups.len()
    &&& live(g, mode, i)
    &&& {
        ||| exists|t: int|
            0 <= t < g.groups[i].owners.len() && resolve_group(g, g.groups[i].owners[t]) == Some(j)
        ||| exists|t: int|
            0 <= t < g.groups[i].members.len() && member_followed(mode, g.groups[i].members[t])
                && resolve_group(g, g.groups[i].members[t]) == Some(j)
    }
}

/// `p` is a chain of child steps.
pub open spec fn is_path(g: GraphView, mode: WalkMode, p: Seq<int>) -> bool {
    &&& p.len() > 0
    &&& forall|k: int| 0 <= k < p.len() - 1 ==> #[trigger] child(g, mode, p[k], p[k + 1])
}

/// Group `j` can be reached from `start` by child steps.
pub open spec fn reachable(g: GraphView, mode: WalkMode, start: int, j: int) -> bool {
    exists|p: Seq<int>| is_path(g, mode, p) && p[0] == start && p.last() == j
}

/// The groups a walk from `start` visits: those reachable and expanded.
pub open spec fn walk_set(g: GraphView, mode: WalkMode, start: int, j: int) -> bool {
    &&& 0 <= j < g.groups.len()
    &&& reachable(g, mode, start, j)
    &&& live(g, mode, j)
}

pub proof fn lemma_first_index_unique(ids: Seq<Seq<char>>, id: Seq<char>, i: int)
    requires
        is_first(ids, id, i),
    ensures
        first_index(ids, id) == Some(i),
{
    let k = choose|k: int| is_first(ids, id, k);
    if k < i {
        assert(ids[k] == id);
    } else if k > i {
        assert(ids[i] == id);
    }
}

pub proof fn lemma_first_index_none(ids: Seq<Seq<char>>, id: Seq<char>)
    requires
        forall|j: int| 0 <= j < ids.len() ==> ids[j] != id,
    ensures
        first_index(ids, id) is None,
{
}

pub proof fn lemma_first_index_range(ids: Seq<Seq<char>>, id: Seq<char>)
    ensures
        first_index(ids, id) matches Some(i) ==> is_first(ids, id, i),
{
}

proof fn lemma_reachable_start(g: GraphView, mode: WalkMode, start: int)
    ensures
        reachable(g, mode, start, start),
{
    let p = seq![start];
    assert(is_path(g, mode, p));
    assert(p[0] == start && p.last() == start);
}

proof fn lemma_reachable_step(g: GraphView, mode: WalkMode, start: int, i: int, j: int)
    requires
        reachable(g, mode, start, i),
        child(g, mode, i, j),
    ensures
        reachable(g, mode, start, j),
{
    let p = choose|p: Seq<int>| is_path(g, mode, p) && p[0] == start && p.last() == i;
    let q = p.push(j);
    assert forall|k: int| 0 <= k < q.len() - 1 implies #[trigger] child(g, mode, q[k], q[k + 1]) by {
        if k < p.len() - 1 {
            assert(q[k] == p[k] && q[k + 1] == p[k + 1]);
        } else {
            assert(q[k] == i && q[k + 1] == j);
        }
    }
    assert(is_path(g, mode, q));
    assert(q[0] == start && q.last() == j);
}

/// A set of groups that holds the start (when expanded) and is closed under child steps
/// holds every visited group.
proof fn lemma_closed_holds_path(
    g: GraphView,
    mode: WalkMode,
    start: int,
    vis: Seq<bool>,
    p: Seq<int>,
)
    requires
        vis.len() == g.groups.len(),
        0 <= start < g.groups.len(),
        vis[start] || !live(g, mode, start),
        forall|i: int, j: int|
            0 <= i < g.groups.len() && vis[i] && #[trigger] child(g, mode, i, j) ==> vis[j] || !live(
                g,
                mode,
                j,
            ),
        is_path(g, mode, p),
        p[0] == start,
        0 <= p.last() < g.groups.len(),
        live(g, mode, p.last()),
    ensures
        vis[p.last()],
    decreases p.len(),
{
    if p.len() > 1 {
        let q = p.drop_last();
        let k = p.len() - 2;
        assert(child(g, mode, p[k], p[k + 1]));
        assert forall|k: int| 0 <= k < q.len() - 1 implies #[trigger] child(g, mode, q[k], q[k + 1]) by {
            assert(child(g, mode, p[k], p[k + 1]));
        }
        lemma_closed_holds_path(g, mode, start, vis, q);
    }
}

/// Number of `false` entries.
pub open spec fn count_false(s: Seq<bool>) -> nat
    decreases s.len(),
{
    if s.len() == 0 {
        0
    } else {
        (if s.last() {
            0nat
        } else {
            1nat
        }) + count_false(s.drop_last())
    }
}

pub proof fn lemma_count_false_update(s: Seq<bool>, i: int)
    requires
        0 <= i < s.len(),
        !s[i],
    ensures
        count_false(s.update(i, true)) + 1 == count_false(s),
    decreases s.len(),
{
    let t = s.update(i, true);
    if i == s.len() - 1 {
        assert(t.drop_last() =~= s.drop_last());
    } else {
        assert(t.drop_last() =~= s.drop_last().update(i, true));
        lemma_count_false_update(s.drop_last(), i);
    }
}

/// Groups the edges lead to, in edge order (edges that lead nowhere are dropped).
pub open spec fn resolved_groups(g: GraphView, links: Seq<RecordIdView>) -> Seq<int>
    decreases links.len(),
{
    if links.len() == 0 {
        Seq::empty()
    } else {
        let p = resolved_groups(g, links.drop_last());
        match resolve_group(g, links.last()) {
            Some(j) => p.push(j),
            None => p,
        }
    }
}

/// Groups the member edges with a non-empty id lead to, in edge order.
pub open spec fn resolved_followed_members(g: GraphView, links: Seq<RecordIdView>) -> Seq<int>
    decreases links.len(),
{
    if links.len() == 0 {
        Seq::empty()
    } else {
        let p = resolved_followed_members(g, links.drop_last());
        if links.last().id.len() > 0 {
            match resolve_group(g, links.last()) {
                Some(j) => p.push(j),
                None => p,
            }
        } else {
            p
        }
    }
}

/// The groups a walk pushes when it expands group `i`, in push order.
pub open spec fn children(g: GraphView, mode: WalkMode, i: int) -> Seq<int> {
    resolved_groups(g, g.groups[i].owners) + if mode is Membership {
        resolved_followed_members(g, g.groups[i].members)
    } else {
        Seq::empty()
    }
}

/// The order in which a depth-first walk with stack `stack` and visited marks `vis`
/// expands groups: it pops the top of the stack, skips it when visited or not expanded,
/// and otherwise expands it and pushes its children.
pub open spec fn walk_from(g: GraphView, mode: WalkMode, stack: Seq<int>, vis: Seq<bool>) -> Seq<int>
    decreases count_false(vis), stack.len(),
{
    if stack.len() == 0 {
        Seq::empty()
    } else {
        let cur = stack.last();
        let rest = stack.drop_last();
        if !(0 <= cur < vis.len()) || vis[cur] || !live(g, mode, cur) {
            walk_from(g, mode, rest, vis)
        } else {
            proof {
                lemma_count_false_update(vis, cur);
            }
            seq![cur] + walk_from(g, mode, rest + children(g, mode, cur), vis.update(cur, true))
        }
    }
}

/// The expansion order of a walk from `start` over `n` groups.
pub open spec fn walk_order(g: GraphView, mode: WalkMode, start: int) -> Seq<int> {
    walk_from(g, mode, seq![start], Seq::new(g.groups.len(), |i: int| false))
}

pub open spec fn ints(s: Seq<usize>) -> Seq<int> {
    s.map_values(|x: usize| x as int)
}

/// Position of the first group keyed `id`.
pub fn find_group(g: &GraphSnapshot, id: &str) -> (r: Option<usize>)
    ensures
        r matches Some(i) ==> first_index(group_ids(g@), id@) == Some(i as int) && i
            < g.groups.len(),
        r is None ==> first_index(group_ids(g@), id@) is None,
{
    let mut i: usize = 0;
    while i < g.groups.len()
        invariant
            i <= g.groups.len(),
            forall|j: int| 0 <= j < i ==> group_ids(g@)[j] != id@,
        decreases g.groups.len() - i,
    {
        if str_eq(g.groups[i].id.as_str(), id) {
            proof {
                lemma_first_index_unique(group_ids(g@), id@, i as int);
            }
            return Some(i);
        }
        i = i + 1;
    }
    proof {
        lemma_first_index_none(group_ids(g@), id@);
    }
    None
}

/// Position of the first user principal keyed `id`.
pub fn find_user_principal(g: &GraphSnapshot, id: &str) -> (r: Option<usize>)
    ensures
        r matches Some(i) ==> first_index(user_principal_ids(g@), id@) == Some(i as int) && i
            < g.user_principals.len(),
        r is None ==> first_index(user_principal_ids(g@), id@) is None,
{
    let mut i: usize = 0;
    while i < g.user_principals.len()
        invariant
            i <= g.user_principals.len(),
            forall|j: int| 0 <= j < i ==> user_principal_ids(g@)[j] != id@,
        decreases g.user_principals.len() - i,
    {
        if str_eq(g.user_principals[i].id.as_str(), id) {
            proof {
                lemma_first_index_unique(user_principal_ids(g@), id@, i as int);
            }
            return Some(i);
        }
        i = i + 1;
    }
    proof {
        lemma_first_index_none(user_principal_ids(g@), id@);
    }
    None
}

/// Position of the first group principal keyed `id`.
pub fn find_group_principal(g: &GraphSnapshot, id: &str) -> (r: Option<usize>)
    ensures
        r matches Some(i) ==> first_index(group_principal_ids(g@), id@) == Some(i as int) && i
            < g.group_principals.len(),
        r is None ==> first_index(group_principal_ids(g@), id@) is None,
{
    let mut i: usize = 0;
    while i < g.group_principals.len()
        invariant
            i <= g.group_principals.len(),
            forall|j: int| 0 <= j < i ==> group_principal_ids(g@)[j] != id@,
        decreases g.group_principals.len() - i,
    {
        if str_eq(g.group_principals[i].id.as_str(), id) {
            proof {
                lemma_first_index_unique(group_principal_ids(g@), id@, i as int);
            }
            return Some(i);
        }
        i = i + 1;
    }
    proof {
        lemma_first_index_none(group_principal_ids(g@), id@);
    }
    None
}

/// The group a principal edge leads to, if any.
pub fn resolve_group_link(g: &GraphSnapshot, link: &RecordId) -> (r: Option<usize>)
    ensures
        r matches Some(j) ==> resolve_group(g@, link@) == Some(j as int) && j < g.groups.len(),
        r is None ==> resolve_group(g@, link@) is None,
{
    if !str_eq(link.table.as_str(), GROUP_PRINCIPAL_TABLE) {
        return None;
    }
    match find_group_principal(g, link.id.as_str()) {
        None => None,
        Some(k) => find_group(g, g.group_principals[k].group.id.as_str()),
    }
}

/// The user record a principal edge stands for, if any.
pub fn resolve_user_link(g: &GraphSnapshot, link: &RecordId) -> (r: Option<RecordId>)
    ensures
        match resolve_user(g@, link@) {
            Some(u) => r matches Some(x) && x@ == u,
            None => r is None,
        },
{
    if !str_eq(link.table.as_str(), USER_PRINCIPAL_TABLE) {
        return None;
    }
    match find_user_principal(g, link.id.as_str()) {
        None => None,
        Some(k) => Some(g.user_principals[k].user.duplicate()),
    }
}

/// Every group a walk from `start` visits, each once, in visiting order.
///
/// A group is visited when it can be reached from `start` through owner edges (and, for
/// [`WalkMode::Membership`], member edges with a non-empty id) that name an existing
/// group principal of an existing group; under [`WalkMode::Ownership`] a group with an
/// empty id is neither visited nor expanded.
pub fn reachable_groups(g: &GraphSnapshot, start: usize, mode: WalkMode) -> (r: Vec<usize>)
    requires
        start < g.groups.len(),
    ensures
        r@.no_duplicates(),
        forall|k: int| 0 <= k < r.len() ==> r[k] < g.groups.len(),
        forall|k: int| 0 <= k < r.len() ==> walk_set(g@, mode, start as int, #[trigger] r[k] as int),
        forall|j: int| #[trigger] walk_set(g@, mode, start as int, j) ==> r@.contains(j as usize),
        ints(r@) == walk_order(g@, mode, start as int),
{
    let ghost w0 = walk_order(g@, mode, start as int);
    let n = g.groups.len();
    let mut visited: Vec<bool> = Vec::new();
    while visited.len() < n
        invariant
            visited.len() <= n,
            forall|i: int| 0 <= i < visited.len() ==> !visited[i],
        decreases n - visited.len(),
    {
        visited.push(false);
    }
    let mut order: Vec<usize> = Vec::new();
    let mut queue: Vec<usize> = Vec::new();
    queue.push(start);
    assert(queue@[0] == start);
    assert(visited@ =~= Seq::new(n as nat, |i: int| false));
    assert(ints(queue@) =~= seq![start as int]);
    assert(ints(order@) + walk_from(g@, mode, ints(queue@), visited@) =~= w0);
    proof {
        lemma_reachable_start(g@, mode, start as int);
    }
    loop
        invariant
            n == g.groups.len(),
            start < n,
            visited.len() == n,
            forall|i: int| 0 <= i < n ==> (visited[i] <==> order@.contains(i as usize)),
            order@.no_duplicates(),
            forall|k: int|
                0 <= k < order.len() ==> order[k] < n && walk_set(
                    g@,
                    mode,
                    start as int,
                    order[k] as int,
                ),
            forall|k: int|
                0 <= k < queue.len() ==> queue[k] < n && reachable(
                    g@,
                    mode,
                    start as int,
                    queue[k] as int,
                ),
            forall|i: int, j: int|
                0 <= i < n && visited[i] && #[trigger] child(g@, mode, i, j) ==> visited[j]
                    || queue@.contains(j as usize) || !live(g@, mode, j),
            visited[start as int] || queue@.contains(start) || !live(g@, mode, start as int),
            w0 == walk_order(g@, mode, start as int),
            ints(order@) + walk_from(g@, mode, ints(queue@), visited@) == w0,
        ensures
            visited.len() == n,
            forall|i: int| 0 <= i < n ==> (visited[i] <==> order@.contains(i as usize)),
            order@.no_duplicates(),
            forall|k: int|
                0 <= k < order.len() ==> order[k] < n && walk_set(
                    g@,
                    mode,
                    start as int,
                    order[k] as int,
                ),
            forall|i: int, j: int|
                0 <= i < n && visited[i] && #[trigger] child(g@, mode, i, j) ==> visited[j]
                    || !live(g@, mode, j),
            visited[start as int] || !live(g@, mode, start as int),
            ints(order@) == w0,
        decreases count_false(visited@), queue.len(),
    {
        let ghost old_queue = queue@;
        let popped = queue.pop();
        let cur = match popped {
            None => {
                assert(ints(queue@) =~= Seq::<int>::empty());
                assert(ints(order@) + Seq::<int>::empty() =~= ints(order@));
                break;
            },
            Some(c) => c,
        };
        assert(old_queue == queue@.push(cur));
        assert(ints(old_queue) =~= ints(queue@).push(cur as int));
        assert(ints(old_queue).drop_last() =~= ints(queue@));
        assert forall|x: usize| old_queue.contains(x) && x != cur implies queue@.contains(x) by {
            let k = choose|k: int| 0 <= k < old_queue.len() && old_queue[k] == x;
            assert(queue@[k] == x);
        }
        assert(old_queue[old_queue.len() - 1] == cur);
        if visited[cur] {
            continue;
        }
        let skip = match mode {
            WalkMode::Ownership => g.groups[cur].id.unicode_len() == 0,
            WalkMode::Membership => false,
        };
        if skip {
            continue;
        }
        let ghost old_visited = visited@;
        proof {
            lemma_count_false_update(visited@, cur as int);
        }
        let ghost old_order = order@;
        visited.set(cur, true);
        order.push(cur);
        assert(order@ == old_order.push(cur));
        assert(order@[order.len() - 1] == cur);
        assert forall|i: int| 0 <= i < n implies (visited[i] <==> order@.contains(i as usize)) by {
            if i != cur {
                if order@.contains(i as usize) {
                    let k = choose|k: int| 0 <= k < order.len() && order@[k] == i as usize;
                    assert(k < old_order.len());
                    assert(old_order[k] == i);
                }
                if old_visited[i] {
                    assert(old_order.contains(i as usize));
                    let k = choose|k: int| 0 <= k < old_order.len() && old_order[k] == i as usize;
                    assert(order@[k] == i);
                }
            }
        }
        assert(order@.no_duplicates()) by {
            assert(!old_order.contains(cur));
            assert forall|a: int, b: int| 0 <= a < order.len() && 0 <= b < order.len() && a != b implies order@[a] != order@[b] by {
                if a < old_order.len() && b < old_order.len() {
                    assert(old_order[a] == order@[a] && old_order[b] == order@[b]);
                } else if a < old_order.len() {
                    assert(old_order[a] == order@[a]);
                } else if b < old_order.len() {
                    assert(old_order[b] == order@[b]);
                }
            }
        }
        let ghost pushed_from = queue@;
        let ghost w_cur = walk_from(g@, mode, ints(pushed_from) + children(g@, mode, cur as int), visited@);
        assert(ints(old_order) + walk_from(g@, mode, ints(old_queue), old_visited) == w0);
        assert(walk_from(g@, mode, ints(old_queue), old_visited) == seq![cur as int] + w_cur);
        assert(ints(order@) =~= ints(old_order).push(cur as int));
        assert(ints(order@) + w_cur =~= ints(old_order) + (seq![cur as int] + w_cur));
        let owners = &g.groups[cur].owners;
        let mut t: usize = 0;
        while t < owners.len()
            invariant
                n == g.groups.len(),
                cur < n,
                owners == g.groups[cur as int].owners,
                live(g@, mode, cur as int),
                reachable(g@, mode, start as int, cur as int),
                t <= owners.len(),
                forall|x: usize| pushed_from.contains(x) ==> queue@.contains(x),
                forall|k: int|
                    0 <= k < queue.len() ==> queue[k] < n && reachable(
                        g@,
                        mode,
                        start as int,
                        queue[k] as int,
                    ),
                forall|u: int, j: int|
                    0 <= u < t && resolve_group(g@, g@.groups[cur as int].owners[u]) == Some(j)
                        ==> queue@.contains(j as usize),
                ints(queue@) == ints(pushed_from) + resolved_groups(
                    g@,
                    g@.groups[cur as int].owners.take(t as int),
                ),
            decreases owners.len() - t,
        {
            let ghost before = queue@;
            proof {
                let ov = g@.groups[cur as int].owners;
                assert(ov.take(t + 1).drop_last() =~= ov.take(t as int));
                assert(ov.take(t + 1).last() == owners[t as int]@);
            }
            match resolve_group_link(g, &owners[t]) {
                Some(j) => {
                    assert(g@.groups[cur as int].owners[t as int] == owners[t as int]@);
                    proof {
                        lemma_reachable_step(g@, mode, start as int, cur as int, j as int);
                    }
                    queue.push(j);
                    assert(queue@[queue.len() - 1] == j);
                    assert(ints(queue@) =~= ints(before).push(j as int));
                },
                None => {},
            }
            assert forall|x: usize| before.contains(x) implies queue@.contains(x) by {
                let k = choose|k: int| 0 <= k < before.len() && before[k] == x;
                assert(queue@[k] == x);
            }
            assert(g@.groups[cur as int].owners[t as int] == owners[t as int]@);
            t = t + 1;
        }
        assert(g@.groups[cur as int].owners.take(owners.len() as int) =~= g@.groups[cur as int].owners);
        let is_membership = match mode {
            WalkMode::Membership => true,
            WalkMode::Ownership => false,
        };
        if is_membership {
            let members = &g.groups[cur].members;
            let mut t: usize = 0;
            assert(g@.groups[cur as int].members.take(0) =~= Seq::<RecordIdView>::empty());
            assert(ints(queue@) =~= ints(pushed_from) + resolved_groups(g@, g@.groups[cur as int].owners)
                + resolved_followed_members(g@, g@.groups[cur as int].members.take(0)));
            while t < members.len()
                invariant
                    n == g.groups.len(),
                    cur < n,
                    members == g.groups[cur as int].members,
                    mode is Membership,
                    live(g@, mode, cur as int),
                    reachable(g@, mode, start as int, cur as int),
                    t <= members.len(),
                    forall|x: usize| pushed_from.contains(x) ==> queue@.contains(x),
                    forall|k: int|
                        0 <= k < queue.len() ==> queue[k] < n && reachable(
                            g@,
                            mode,
                            start as int,
                            queue[k] as int,
                        ),
                    forall|u: int, j: int|
                        0 <= u < g@.groups[cur as int].owners.len() && resolve_group(
                            g@,
                            g@.groups[cur as int].owners[u],
                        ) == Some(j) ==> queue@.contains(j as usize),
                    forall|u: int, j: int|
                        0 <= u < t && member_followed(mode, g@.groups[cur as int].members[u])
                            && resolve_group(g@, g@.groups[cur as int].members[u]) == Some(j)
                            ==> queue@.contains(j as usize),
                    ints(queue@) == ints(pushed_from) + resolved_groups(
                        g@,
                        g@.groups[cur as int].owners,
                    ) + resolved_followed_members(g@, g@.groups[cur as int].members.take(t as int)),
                decreases members.len() - t,
            {
                let ghost before = queue@;
                proof {
                    let mv = g@.groups[cur as int].members;
                    assert(mv.take(t + 1).drop_last() =~= mv.take(t as int));
                    assert(mv.take(t + 1).last() == members[t as int]@);
                }
                assert(g@.groups[cur as int].members[t as int] == members[t as int]@);
                if members[t].id.unicode_len() > 0 {
                    match resolve_group_link(g, &members[t]) {
                        Some(j) => {
                            proof {
                                lemma_reachable_step(g@, mode, start as int, cur as int, j as int);
                            }
                            queue.push(j);
                            assert(queue@[queue.len() - 1] == j);
                            assert(ints(queue@) =~= ints(before).push(j as int));
                        },
                        None => {},
                    }
                }
                assert forall|x: usize| before.contains(x) implies queue@.contains(x) by {
                    let k = choose|k: int| 0 <= k < before.len() && before[k] == x;
                    assert(queue@[k] == x);
                }
                t = t + 1;
            }
        }
        proof {
            let own = resolved_groups(g@, g@.groups[cur as int].owners);
            if is_membership {
                assert(g@.groups[cur as int].members.take(g@.groups[cur as int].members.len() as int)
                    =~= g@.groups[cur as int].members);
                assert(ints(queue@) =~= ints(pushed_from) + children(g@, mode, cur as int));
            } else {
                assert(ints(queue@) =~= ints(pushed_from) + children(g@, mode, cur as int));
            }
        }
        assert forall|i: int, j: int|
            0 <= i < n && visited[i] && #[trigger] child(g@, mode, i, j) implies visited[j]
                || queue@.contains(j as usize) || !live(g@, mode, j) by {
            if i == cur {
            } else {
                assert(old_visited[i]);
                if !old_visited[j] && old_queue.contains(j as usize) && live(g@, mode, j) {
                    if j != cur {
                        assert(pushed_from.contains(j as usize));
                    }
                }
            }
        }
    }
    proof {
        assert forall|j: int| #[trigger] walk_set(g@, mode, start as int, j) implies order@.contains(
            j as usize,
        ) by {
            let p = choose|p: Seq<int>| is_path(g@, mode, p) && p[0] == start && p.last() == j;
            lemma_closed_holds_path(g@, mode, start as int, visited@, p);
        }
    }
    order
}

} // verus!
