//! Who to notify about permission requests, and with what.
//!
//! Target owners are told when a request is submitted; the requestor is told when
//! their request is approved or denied.
use vstd::prelude::*;

use crate::group_graph::{
    ints, walk_order, find_group, first_index, group_ids, reachable_groups, resolve_user, resolve_user_link,
    walk_set, GraphSnapshot, GraphView, WalkMode,
};
use crate::model::{record_views, RecordId, RecordIdView};
use crate::text::{join2, lemma_seq_lt_irreflexive, lemma_seq_lt_transitive, seq_lt, str_eq, str_lt};

verus! {

/// Lifecycle state of a permission request.
#[derive(Clone, Copy, Debug, PartialEq, Eq, Structural)]
pub enum PermissionRequestStatus {
    Pending,
    Approved,
    Denied,
}

/// A permission request as the notifier reads it.
#[derive(Debug, Clone, PartialEq, Eq)]
pub struct PermissionRequest {
    pub id: Option<RecordId>,
    pub target: RecordId,
    pub requestor: RecordId,
    pub status: PermissionRequestStatus,
}

pub struct PermissionRequestView {
    pub id: Option<RecordIdView>,
    pub target: RecordIdView,
    pub requestor: RecordIdView,
    pub status: PermissionRequestStatus,
}

impl View for PermissionRequest {
    type V = PermissionRequestView;

    open spec fn view(&self) -> PermissionRequestView {
        PermissionRequestView {
            id: match &self.id {
                Some(r) => Some(r@),
                None => None,
            },
            target: self.target@,
            requestor: self.requestor@,
            status: self.status,
        }
    }
}

/// What a mutation did to a row.
#[derive(Clone, Copy, Debug, PartialEq, Eq, Structural)]
pub enum MutationKind {
    Create,
    Update,
    Delete,
}

/// A permission and the id of the group that owns it.
pub struct PermissionOwners {
    pub id: String,
    pub owners_group: String,
}

/// A notification to send.
#[derive(Debug, Clone, PartialEq, Eq)]
pub struct Notification {
    pub user_id: RecordId,
    pub kind: String,
    pub title: String,
    pub message: String,
    pub url: Option<String>,
}

pub struct NotificationView {
    pub user_id: RecordIdView,
    pub kind: Seq<char>,
    pub title: Seq<char>,
    pub message: Seq<char>,
    pub url: Option<Seq<char>>,
}

impl View for Notification {
    type V = NotificationView;

    open spec fn view(&self) -> NotificationView {
        NotificationView {
            user_id: self.user_id@,
            kind: self.kind@,
            title: self.title@,
            message: self.message@,
            url: match &self.url {
                Some(u) => Some(u@),
                None => None,
            },
        }
    }
}

/// Whether an update moved a request into approved or denied.
pub open spec fn changed_to_terminal(
    before: Option<PermissionRequestView>,
    after: Option<PermissionRequestView>,
) -> bool {
    match after {
        None => false,
        Some(a) => (a.status is Approved || a.status is Denied) && match before {
            Some(b) => b.status != a.status,
            None => true,
        },
    }
}

/// Saving a request again without changing its status notifies nobody: only a change
/// into approved or denied counts.
pub proof fn lemma_same_status_is_no_decision(
    before: PermissionRequestView,
    after: PermissionRequestView,
)
    requires
        before.status == after.status,
    ensures
        !changed_to_terminal(Some(before), Some(after)),
{
}

/// Whether user record `x` is an owner user of a group reachable from `start` through
/// owner edges (groups with an empty id are skipped).
pub open spec fn is_owner_user(g: GraphView, start: int, x: RecordIdView) -> bool {
    exists|j: int|
        walk_set(g, WalkMode::Ownership, start, j) && exists|t: int|
            #![trigger g.groups[j].owners[t]]
            0 <= t < g.groups[j].owners.len() && resolve_user(g, g.groups[j].owners[t]) == Some(x)
}

pub open spec fn permission_ids(ps: Seq<PermissionOwners>) -> Seq<Seq<char>> {
    ps.map_values(|p: PermissionOwners| p.id@)
}

/// The group whose owners are the owners of a request target: the owners group of a
/// permission target, or the target group itself.
pub enum OwnerSource {
    NoOwners,
    Group(int),
    MissingOwnersGroup,
}

pub open spec fn owner_source(
    target: RecordIdView,
    ps: Seq<PermissionOwners>,
    g: GraphView,
) -> OwnerSource {
    if target.table == "permission"@ {
        match first_index(permission_ids(ps), target.id) {
            Some(k) => match first_index(group_ids(g), ps[k].owners_group@) {
                Some(i) => OwnerSource::Group(i),
                None => OwnerSource::MissingOwnersGroup,
            },
            None => OwnerSource::NoOwners,
        }
    } else if target.table == "permission_group"@ {
        match first_index(group_ids(g), target.id) {
            Some(i) => OwnerSource::Group(i),
            None => OwnerSource::NoOwners,
        }
    } else {
        OwnerSource::NoOwners
    }
}

/// Whether an owner change to a request is terminal: it is approved or denied now, and
/// was not in that same state before.
pub fn status_changed_to_terminal(
    before: Option<&PermissionRequest>,
    after: Option<&PermissionRequest>,
) -> (b: bool)
    ensures
        b == changed_to_terminal(
            match before {
                Some(r) => Some(r@),
                None => None,
            },
            match after {
                Some(r) => Some(r@),
                None => None,
            },
        ),
{
    let after = match after {
        Some(a) => a,
        None => {
            return false;
        },
    };
    let status = after.status;
    let is_terminal = match status {
        PermissionRequestStatus::Approved | PermissionRequestStatus::Denied => true,
        PermissionRequestStatus::Pending => false,
    };
    if !is_terminal {
        return false;
    }
    match before {
        Some(b) => b.status != status,
        None => true,
    }
}

/// Owner users named by user-principal edges among `links`, one per edge, in edge order.
pub open spec fn owner_users_in(g: GraphView, links: Seq<RecordIdView>) -> Seq<RecordIdView>
    decreases links.len(),
{
    if links.len() == 0 {
        Seq::empty()
    } else {
        let p = owner_users_in(g, links.drop_last());
        match resolve_user(g, links.last()) {
            Some(u) => p.push(u),
            None => p,
        }
    }
}

/// Owner users of the groups in `order`, group by group.
pub open spec fn owner_users_along(g: GraphView, order: Seq<int>) -> Seq<RecordIdView>
    decreases order.len(),
{
    if order.len() == 0 {
        Seq::empty()
    } else {
        owner_users_along(g, order.drop_last()) + owner_users_in(g, g.groups[order.last()].owners)
    }
}

/// The owner users of every group a walk from `start` through owner edges expands: one
/// entry per user-principal owner edge, in walk order (a user owning several groups
/// appears once per edge).
pub fn collect_owner_user_ids_from_group(g: &GraphSnapshot, start: usize) -> (out: Vec<RecordId>)
    requires
        start < g.groups.len(),
    ensures
        record_views(out@) == owner_users_along(g@, walk_order(g@, WalkMode::Ownership, start as int)),
        forall|x: RecordIdView|
            is_owner_user(g@, start as int, x) <==> #[trigger] record_views(out@).contains(x),
{
    let visited = reachable_groups(g, start, WalkMode::Ownership);
    let ghost order = ints(visited@);
    let mut out: Vec<RecordId> = Vec::new();
    let mut k: usize = 0;
    while k < visited.len()
        invariant
            k <= visited.len(),
            order == ints(visited@),
            forall|q: int| 0 <= q < visited.len() ==> visited[q] < g.groups.len(),
            forall|q: int|
                0 <= q < visited.len() ==> walk_set(
                    g@,
                    WalkMode::Ownership,
                    start as int,
                    #[trigger] visited[q] as int,
                ),
            forall|j: int|
                #[trigger] walk_set(g@, WalkMode::Ownership, start as int, j) ==> visited@.contains(
                    j as usize,
                ),
            record_views(out@) == owner_users_along(g@, order.take(k as int)),
            forall|x: RecordIdView|
                #[trigger] record_views(out@).contains(x) <==> exists|q: int, t: int|
                    #![trigger g@.groups[visited[q] as int].owners[t]]
                    0 <= q < k && 0 <= t < g@.groups[visited[q] as int].owners.len()
                        && resolve_user(g@, g@.groups[visited[q] as int].owners[t]) == Some(x),
        decreases visited.len() - k,
    {
        let i = visited[k];
        let owners = &g.groups[i].owners;
        let ghost before_k = record_views(out@);
        let ghost ov = g@.groups[i as int].owners;
        let mut t: usize = 0;
        while t < owners.len()
            invariant
                k < visited.len(),
                i == visited[k as int],
                i < g.groups.len(),
                owners == g.groups[i as int].owners,
                ov == g@.groups[i as int].owners,
                t <= owners.len(),
                record_views(out@) == before_k + owner_users_in(g@, ov.take(t as int)),
                forall|x: RecordIdView|
                    #[trigger] record_views(out@).contains(x) <==> (before_k.contains(x)
                        || exists|u: int|
                        #![trigger g@.groups[i as int].owners[u]]
                        0 <= u < t && resolve_user(g@, g@.groups[i as int].owners[u]) == Some(x)),
            decreases owners.len() - t,
        {
            assert(g@.groups[i as int].owners[t as int] == owners[t as int]@);
            proof {
                assert(ov.take(t + 1).drop_last() =~= ov.take(t as int));
                assert(ov.take(t + 1).last() == owners[t as int]@);
            }
            let ghost prev = record_views(out@);
            match resolve_user_link(g, &owners[t]) {
                Some(u) => {
                    let ghost uv = u@;
                    out.push(u);
                    proof {
                        let now = record_views(out@);
                        assert(now =~= prev.push(uv));
                        assert forall|x: RecordIdView| now.contains(x) <==> (prev.contains(x)
                            || x == uv) by {
                            if now.contains(x) {
                                let a = choose|a: int| 0 <= a < now.len() && now[a] == x;
                                if a < prev.len() {
                                    assert(prev[a] == x);
                                }
                            }
                            if prev.contains(x) {
                                let a = choose|a: int| 0 <= a < prev.len() && prev[a] == x;
                                assert(now[a] == x);
                            }
                            if x == uv {
                                assert(now[prev.len() as int] == x);
                            }
                        }
                    }
                },
                None => {},
            }
            t = t + 1;
        }
        proof {
            assert(ov.take(owners.len() as int) =~= ov);
            assert(order.take(k + 1).drop_last() =~= order.take(k as int));
            assert(order.take(k + 1).last() == i as int);
            let now = record_views(out@);
            assert forall|x: RecordIdView| now.contains(x) <==> exists|q: int, u: int|
                #![trigger g@.groups[visited[q] as int].owners[u]]
                0 <= q < k + 1 && 0 <= u < g@.groups[visited[q] as int].owners.len()
                    && resolve_user(g@, g@.groups[visited[q] as int].owners[u]) == Some(x) by {
                if now.contains(x) && !before_k.contains(x) {
                    let u = choose|u: int|
                        #![trigger g@.groups[i as int].owners[u]]
                        0 <= u < owners.len() && resolve_user(g@, g@.groups[i as int].owners[u])
                            == Some(x);
                    assert(g@.groups[visited[k as int] as int].owners[u] == g@.groups[i as int].owners[u]);
                }
                if exists|q: int, u: int|
                    #![trigger g@.groups[visited[q] as int].owners[u]]
                    0 <= q < k + 1 && 0 <= u < g@.groups[visited[q] as int].owners.len()
                        && resolve_user(g@, g@.groups[visited[q] as int].owners[u]) == Some(x) {
                    let (q, u) = choose|q: int, u: int|
                        #![trigger g@.groups[visited[q] as int].owners[u]]
                        0 <= q < k + 1 && 0 <= u < g@.groups[visited[q] as int].owners.len()
                            && resolve_user(g@, g@.groups[visited[q] as int].owners[u]) == Some(x);
                    if q == k {
                        assert(g@.groups[i as int].owners[u] == g@.groups[visited[q] as int].owners[u]);
                    }
                }
            }
        }
        k = k + 1;
    }
    proof {
        assert(order.take(visited.len() as int) =~= order);
        let now = record_views(out@);
        assert forall|x: RecordIdView| is_owner_user(g@, start as int, x) <==> now.contains(x) by {
            if is_owner_user(g@, start as int, x) {
                let j = choose|j: int|
                    walk_set(g@, WalkMode::Ownership, start as int, j) && exists|t: int|
                        #![trigger g@.groups[j].owners[t]]
                        0 <= t < g@.groups[j].owners.len() && resolve_user(
                            g@,
                            g@.groups[j].owners[t],
                        ) == Some(x);
                assert(visited@.contains(j as usize));
                let q = choose|q: int| 0 <= q < visited.len() && visited@[q] == j as usize;
                let t = choose|t: int|
                    #![trigger g@.groups[j].owners[t]]
                    0 <= t < g@.groups[j].owners.len() && resolve_user(g@, g@.groups[j].owners[t])
                        == Some(x);
                assert(g@.groups[visited[q] as int].owners[t] == g@.groups[j].owners[t]);
            }
            if now.contains(x) {
                let (q, t) = choose|q: int, t: int|
                    #![trigger g@.groups[visited[q] as int].owners[t]]
                    0 <= q < visited.len() && 0 <= t < g@.groups[visited[q] as int].owners.len()
                        && resolve_user(g@, g@.groups[visited[q] as int].owners[t]) == Some(x);
                assert(walk_set(g@, WalkMode::Ownership, start as int, visited[q] as int));
            }
        }
    }
    out
}

/// The text of a record reference, `table:id`, by which owner lists are ordered.
pub open spec fn record_text(r: RecordIdView) -> Seq<char> {
    r.table + ":"@ + r.id
}

/// Ordered by record text (equal texts in any order).
pub open spec fn sorted_by_text(s: Seq<RecordIdView>) -> bool {
    forall|i: int, j: int|
        0 <= i < j < s.len() ==> !seq_lt(record_text(#[trigger] s[j]), record_text(#[trigger] s[i]))
}

fn text_of(r: &RecordId) -> (t: String)
    ensures
        t@ == record_text(r@),
{
    let head = join2(r.table.as_str(), ":");
    join2(head.as_str(), r.id.as_str())
}

/// `x` placed into `s` just before the first entry whose text sorts after its own: the
/// step of a stable insertion sort by record text.
pub open spec fn insert_by_text(s: Seq<RecordIdView>, x: RecordIdView) -> Seq<RecordIdView>
    decreases s.len(),
{
    if s.len() == 0 {
        seq![x]
    } else if seq_lt(record_text(x), record_text(s[0])) {
        seq![x] + s
    } else {
        seq![s[0]] + insert_by_text(s.drop_first(), x)
    }
}

/// `s` sorted by record text, stably: entries with equal text keep their order in `s`.
pub open spec fn sort_by_text(s: Seq<RecordIdView>) -> Seq<RecordIdView>
    decreases s.len(),
{
    if s.len() == 0 {
        Seq::empty()
    } else {
        insert_by_text(sort_by_text(s.drop_last()), s.last())
    }
}

/// `s` without each entry that equals the one just before it.
pub open spec fn dedup_adjacent(s: Seq<RecordIdView>) -> Seq<RecordIdView>
    decreases s.len(),
{
    if s.len() == 0 {
        Seq::empty()
    } else if s.len() >= 2 && s[s.len() - 2] == s.last() {
        dedup_adjacent(s.drop_last())
    } else {
        dedup_adjacent(s.drop_last()).push(s.last())
    }
}

proof fn lemma_insert_by_text_at(s: Seq<RecordIdView>, x: RecordIdView, p: int)
    requires
        0 <= p <= s.len(),
        forall|q: int| 0 <= q < p ==> !seq_lt(record_text(x), record_text(#[trigger] s[q])),
        p < s.len() ==> seq_lt(record_text(x), record_text(s[p])),
    ensures
        insert_by_text(s, x) == s.insert(p, x),
    decreases s.len(),
{
    if p == 0 {
        assert(insert_by_text(s, x) =~= s.insert(p, x));
    } else {
        let d = s.drop_first();
        assert(!seq_lt(record_text(x), record_text(s[0])));
        assert forall|q: int| 0 <= q < p - 1 implies !seq_lt(record_text(x), record_text(#[trigger] d[q])) by {
            assert(d[q] == s[q + 1]);
        }
        if p - 1 < d.len() {
            assert(d[p - 1] == s[p]);
        }
        lemma_insert_by_text_at(d, x, p - 1);
        assert(insert_by_text(s, x) =~= s.insert(p, x));
    }
}

proof fn lemma_insert_by_text_permutes(s: Seq<RecordIdView>, x: RecordIdView)
    ensures
        insert_by_text(s, x).to_multiset() == s.to_multiset().insert(x),
    decreases s.len(),
{
    broadcast use vstd::seq_lib::group_to_multiset_ensures;

    if s.len() == 0 {
        assert(insert_by_text(s, x) =~= s.insert(0, x));
    } else if seq_lt(record_text(x), record_text(s[0])) {
        assert(insert_by_text(s, x) =~= s.insert(0, x));
    } else {
        let d = s.drop_first();
        let r = insert_by_text(d, x);
        lemma_insert_by_text_permutes(d, x);
        assert(insert_by_text(s, x) =~= r.insert(0, s[0]));
        assert(s =~= d.insert(0, s[0]));
        assert(insert_by_text(s, x).to_multiset() =~= s.to_multiset().insert(x));
    }
}

proof fn lemma_insert_by_text_sorted(s: Seq<RecordIdView>, x: RecordIdView)
    requires
        sorted_by_text(s),
    ensures
        sorted_by_text(insert_by_text(s, x)),
    decreases s.len(),
{
    broadcast use vstd::seq_lib::group_to_multiset_ensures;

    let t = insert_by_text(s, x);
    if s.len() == 0 {
    } else if seq_lt(record_text(x), record_text(s[0])) {
        assert forall|a: int, b: int| 0 <= a < b < t.len() implies !seq_lt(
            record_text(#[trigger] t[b]),
            record_text(#[trigger] t[a]),
        ) by {
            if a == 0 {
                assert(t[b] == s[b - 1]);
                if seq_lt(record_text(s[b - 1]), record_text(x)) {
                    lemma_seq_lt_transitive(record_text(s[b - 1]), record_text(x), record_text(s[0]));
                    if b - 1 == 0 {
                        lemma_seq_lt_irreflexive(record_text(s[0]));
                    }
                }
            } else {
                assert(t[a] == s[a - 1] && t[b] == s[b - 1]);
            }
        }
    } else {
        let d = s.drop_first();
        let r = insert_by_text(d, x);
        assert forall|a: int, b: int| 0 <= a < b < d.len() implies !seq_lt(
            record_text(#[trigger] d[b]),
            record_text(#[trigger] d[a]),
        ) by {
            assert(d[a] == s[a + 1] && d[b] == s[b + 1]);
        }
        lemma_insert_by_text_sorted(d, x);
        lemma_insert_by_text_permutes(d, x);
        assert forall|a: int, b: int| 0 <= a < b < t.len() implies !seq_lt(
            record_text(#[trigger] t[b]),
            record_text(#[trigger] t[a]),
        ) by {
            if a == 0 {
                let y = t[b];
                assert(y == r[b - 1]);
                assert(r.to_multiset().count(y) > 0);
                if y != x {
                    assert(d.to_multiset().count(y) > 0);
                    let k = choose|k: int| 0 <= k < d.len() && d[k] == y;
                    assert(s[k + 1] == y);
                }
            } else {
                assert(t[a] == r[a - 1] && t[b] == r[b - 1]);
            }
        }
    }
}

/// A stable sort by text orders its result by text and only rearranges its input.
pub proof fn lemma_sort_by_text(s: Seq<RecordIdView>)
    ensures
        sorted_by_text(sort_by_text(s)),
        sort_by_text(s).to_multiset() == s.to_multiset(),
    decreases s.len(),
{
    broadcast use vstd::seq_lib::group_to_multiset_ensures;

    if s.len() > 0 {
        let d = s.drop_last();
        lemma_sort_by_text(d);
        lemma_insert_by_text_sorted(sort_by_text(d), s.last());
        lemma_insert_by_text_permutes(sort_by_text(d), s.last());
        assert(s =~= d.push(s.last()));
    }
}

/// Dropping repeated neighbours keeps every entry's presence, and keeps a list sorted.
pub proof fn lemma_dedup_adjacent(s: Seq<RecordIdView>)
    ensures
        forall|y: RecordIdView| #[trigger] dedup_adjacent(s).contains(y) <==> s.contains(y),
        sorted_by_text(s) ==> sorted_by_text(dedup_adjacent(s)),
    decreases s.len(),
{
    if s.len() > 0 {
        let d = s.drop_last();
        let p = dedup_adjacent(d);
        let t = dedup_adjacent(s);
        lemma_dedup_adjacent(d);
        assert forall|y: RecordIdView| t.contains(y) <==> s.contains(y) by {
            if s.contains(y) {
                let k = choose|k: int| 0 <= k < s.len() && s[k] == y;
                if k < s.len() - 1 {
                    assert(d[k] == y);
                    assert(d.contains(y));
                    assert(p.contains(y));
                    if !(s.len() >= 2 && s[s.len() - 2] == s.last()) {
                        let j = choose|j: int| 0 <= j < p.len() && p[j] == y;
                        assert(t[j] == y);
                    }
                } else if s.len() >= 2 && s[s.len() - 2] == s.last() {
                    assert(d[s.len() - 2] == y);
                    assert(d.contains(y));
                    assert(p.contains(y));
                } else {
                    assert(t[p.len() as int] == y);
                }
            }
            if t.contains(y) {
                let j = choose|j: int| 0 <= j < t.len() && t[j] == y;
                if j < p.len() {
                    assert(p[j] == y);
                    assert(p.contains(y));
                    assert(d.contains(y));
                    let k = choose|k: int| 0 <= k < d.len() && d[k] == y;
                    assert(s[k] == y);
                } else {
                    assert(s[s.len() - 1] == y);
                }
            }
        }
        if sorted_by_text(s) {
            assert forall|a: int, b: int| 0 <= a < b < d.len() implies !seq_lt(
                record_text(#[trigger] d[b]),
                record_text(#[trigger] d[a]),
            ) by {
                assert(d[a] == s[a] && d[b] == s[b]);
            }
            assert forall|a: int, b: int| 0 <= a < b < t.len() implies !seq_lt(
                record_text(#[trigger] t[b]),
                record_text(#[trigger] t[a]),
            ) by {
                if b < p.len() {
                    assert(t[a] == p[a] && t[b] == p[b]);
                } else {
                    assert(t[a] == p[a]);
                    assert(p.contains(p[a]));
                    assert(d.contains(p[a]));
                    let k = choose|k: int| 0 <= k < d.len() && d[k] == p[a];
                    assert(s[k] == t[a]);
                    assert(t[b] == s[s.len() - 1]);
                }
            }
        }
    }
}

/// `v` sorted stably by record text, then without entries equal to their neighbour before.
pub fn sort_dedup_records(v: &Vec<RecordId>) -> (r: Vec<RecordId>)
    ensures
        record_views(r@) == dedup_adjacent(sort_by_text(record_views(v@))),
        sorted_by_text(record_views(r@)),
        forall|x: RecordIdView| #[trigger] record_views(r@).contains(x) <==> record_views(v@).contains(x),
{
    let ghost all = record_views(v@);
    let mut sorted: Vec<RecordId> = Vec::new();
    let mut i: usize = 0;
    while i < v.len()
        invariant
            i <= v.len(),
            all == record_views(v@),
            record_views(sorted@) == sort_by_text(all.take(i as int)),
        decreases v.len() - i,
    {
        let ghost prev = record_views(sorted@);
        let ghost x = v@[i as int]@;
        proof {
            assert(all.take(i + 1).drop_last() =~= all.take(i as int));
            assert(all.take(i + 1).last() == x);
        }
        let key = text_of(&v[i]);
        let mut p: usize = 0;
        while p < sorted.len()
            invariant
                p <= sorted.len(),
                prev == record_views(sorted@),
                key@ == record_text(x),
                forall|q: int| 0 <= q < p ==> !seq_lt(record_text(x), record_text(#[trigger] prev[q])),
            ensures
                p <= sorted.len(),
                forall|q: int| 0 <= q < p ==> !seq_lt(record_text(x), record_text(#[trigger] prev[q])),
                p < sorted.len() ==> seq_lt(record_text(x), record_text(prev[p as int])),
            decreases sorted.len() - p,
        {
            let other = text_of(&sorted[p]);
            assert(prev[p as int] == sorted@[p as int]@);
            if str_lt(key.as_str(), other.as_str()) {
                break;
            }
            p = p + 1;
        }
        sorted.insert(p, v[i].duplicate());
        proof {
            assert(record_views(sorted@) =~= prev.insert(p as int, x));
            lemma_insert_by_text_at(prev, x, p as int);
        }
        i = i + 1;
    }
    proof {
        assert(all.take(v.len() as int) =~= all);
    }
    let ghost srt = record_views(sorted@);
    let mut out: Vec<RecordId> = Vec::new();
    let mut k: usize = 0;
    while k < sorted.len()
        invariant
            k <= sorted.len(),
            srt == record_views(sorted@),
            record_views(out@) == dedup_adjacent(srt.take(k as int)),
        decreases sorted.len() - k,
    {
        proof {
            assert(srt.take(k + 1).drop_last() =~= srt.take(k as int));
            assert(srt.take(k + 1).last() == sorted@[k as int]@);
            if k >= 1 {
                assert(srt.take(k + 1)[k - 1] == sorted@[k - 1]@);
            }
        }
        if k == 0 || !sorted[k].same_as(&sorted[k - 1]) {
            let ghost before = record_views(out@);
            out.push(sorted[k].duplicate());
            assert(record_views(out@) =~= before.push(sorted@[k as int]@));
        }
        k = k + 1;
    }
    proof {
        assert(srt.take(sorted.len() as int) =~= srt);
        lemma_sort_by_text(all);
        lemma_dedup_adjacent(srt);
        broadcast use vstd::seq_lib::group_to_multiset_ensures;
        assert forall|x: RecordIdView| #[trigger] srt.contains(x) <==> all.contains(x) by {
            assert(srt.to_multiset().count(x) == all.to_multiset().count(x));
        }
    }
    out
}

/// Position of the first permission keyed `id`.
fn find_permission(ps: &Vec<PermissionOwners>, id: &str) -> (r: Option<usize>)
    ensures
        r matches Some(k) ==> first_index(permission_ids(ps@), id@) == Some(k as int) && k
            < ps.len(),
        r is None ==> first_index(permission_ids(ps@), id@) is None,
{
    let mut i: usize = 0;
    while i < ps.len()
        invariant
            i <= ps.len(),
            forall|j: int| 0 <= j < i ==> permission_ids(ps@)[j] != id@,
        decreases ps.len() - i,
    {
        if str_eq(ps[i].id.as_str(), id) {
            proof {
                crate::group_graph::lemma_first_index_unique(permission_ids(ps@), id@, i as int);
            }
            return Some(i);
        }
        i = i + 1;
    }
    None
}

/// The owner list a request on a group's owners is notified in: the owner users the walk
/// from group `i` collects, stably sorted by record text, repeated neighbours dropped.
pub open spec fn notified_owners(g: GraphView, i: int) -> Seq<RecordIdView> {
    dedup_adjacent(sort_by_text(owner_users_along(g, walk_order(g, WalkMode::Ownership, i))))
}

/// The error of an owner lookup whose permission's owners group is missing.
pub open spec fn missing_owners_group_error(permission_id: Seq<char>) -> Seq<char> {
    "owners group not found for permission "@ + permission_id
}

/// The owner users of a request target, ordered by record text: the owners (through nested
/// owner groups) of a permission's owners group, or of a target group. Fails when a target
/// permission's owners group is missing.
pub fn target_owner_user_ids(
    target: &RecordId,
    ps: &Vec<PermissionOwners>,
    g: &GraphSnapshot,
) -> (r: Result<Vec<RecordId>, String>)
    ensures
        match owner_source(target@, ps@, g@) {
            OwnerSource::NoOwners => r matches Ok(v) && v.len() == 0,
            OwnerSource::Group(i) => r matches Ok(v) && record_views(v@) == notified_owners(g@, i)
                && sorted_by_text(record_views(v@)) && (forall|x: RecordIdView|
                is_owner_user(g@, i, x) <==> #[trigger] record_views(v@).contains(x)),
            OwnerSource::MissingOwnersGroup => r matches Err(e) && e@ == missing_owners_group_error(
                target@.id,
            ),
        },
{
    let start = if str_eq(target.table.as_str(), "permission") {
        match find_permission(ps, target.id.as_str()) {
            Some(k) => match find_group(g, ps[k].owners_group.as_str()) {
                Some(i) => i,
                None => {
                    return Err(join2("owners group not found for permission ", target.id.as_str()));
                },
            },
            None => {
                return Ok(Vec::new());
            },
        }
    } else if str_eq(target.table.as_str(), "permission_group") {
        match find_group(g, target.id.as_str()) {
            Some(i) => i,
            None => {
                return Ok(Vec::new());
            },
        }
    } else {
        return Ok(Vec::new());
    };
    proof {
        reveal_strlit("permission");
        reveal_strlit("permission_group");
        assert("permission"@.len() != "permission_group"@.len());
    }
    let owners = collect_owner_user_ids_from_group(g, start);
    Ok(sort_dedup_records(&owners))
}

/// Notice to a target owner that a request is waiting.
pub open spec fn submitted_notice(
    owner: RecordIdView,
    target: RecordIdView,
    request_id: Seq<char>,
) -> NotificationView {
    NotificationView {
        user_id: owner,
        kind: "permission_request"@,
        title: "Permission request submitted"@,
        message: "A new request is waiting for review for "@ + target.table + ":"@ + target.id
            + "."@,
        url: Some("/permission/requests/"@ + request_id),
    }
}

/// Word for a terminal decision.
pub open spec fn decision_word(s: PermissionRequestStatus) -> Seq<char> {
    if s is Approved {
        "approved"@
    } else {
        "denied"@
    }
}

/// Notice to a requestor that their request was decided.
pub open spec fn decision_notice(
    requestor: RecordIdView,
    status: PermissionRequestStatus,
    request_id: Seq<char>,
) -> NotificationView {
    NotificationView {
        user_id: requestor,
        kind: "permission_request"@,
        title: "Permission request updated"@,
        message: "Your permission request was "@ + decision_word(status) + "."@,
        url: Some("/permission/requests/"@ + request_id),
    }
}

/// A decision notice goes to the requestor and names the outcome: "approved" for an
/// approved request, "denied" for a denied one, so the two outcomes never read alike.
pub proof fn lemma_decision_notice_names_outcome(requestor: RecordIdView, request_id: Seq<char>)
    ensures
        decision_notice(requestor, PermissionRequestStatus::Approved, request_id).message
            == "Your permission request was approved."@,
        decision_notice(requestor, PermissionRequestStatus::Denied, request_id).message
            == "Your permission request was denied."@,
        decision_notice(requestor, PermissionRequestStatus::Approved, request_id).message
            != decision_notice(requestor, PermissionRequestStatus::Denied, request_id).message,
        decision_notice(requestor, PermissionRequestStatus::Approved, request_id).user_id == requestor,
        decision_notice(requestor, PermissionRequestStatus::Denied, request_id).user_id == requestor,
        decision_notice(requestor, PermissionRequestStatus::Approved, request_id).url == Some(
            "/permission/requests/"@ + request_id,
        ),
{
    reveal_strlit("Your permission request was ");
    reveal_strlit("approved");
    reveal_strlit("denied");
    reveal_strlit(".");
    reveal_strlit("Your permission request was approved.");
    reveal_strlit("Your permission request was denied.");
    assert("Your permission request was "@ + "approved"@ + "."@ =~= "Your permission request was approved."@);
    assert("Your permission request was "@ + "denied"@ + "."@ =~= "Your permission request was denied."@);
}

pub open spec fn opt_view(r: Option<&PermissionRequest>) -> Option<PermissionRequestView> {
    match r {
        Some(x) => Some(x@),
        None => None,
    }
}

/// Notifies target owners when a request is submitted, and notifies the requestor
/// when their request is approved or denied.
pub struct PermissionRequestNotifier;

fn requests_url(request_id: &str) -> (r: String)
    ensures
        r@ == "/permission/requests/"@ + request_id@,
{
    join2("/permission/requests/", request_id)
}

impl PermissionRequestNotifier {
    /// The notifications a mutation of a permission request calls for.
    ///
    /// Create: one "submitted" notice per entry of the target's owner list
    /// ([`target_owner_user_ids`]), in that list's order (none when the new row or its id
    /// is absent). Update: one "updated" notice to the requestor when the request just
    /// became approved or denied. Delete: nothing. Fails only when a target permission's
    /// owners group is missing, with the owner lookup's error.
    pub fn on_mutation(
        &self,
        kind: MutationKind,
        before: Option<&PermissionRequest>,
        after: Option<&PermissionRequest>,
        ps: &Vec<PermissionOwners>,
        g: &GraphSnapshot,
    ) -> (r: Result<Vec<Notification>, String>)
        ensures
            kind is Delete ==> (r matches Ok(v) && v.len() == 0),
            kind is Create ==> match opt_view(after) {
                Some(a) => match a.id {
                    Some(rid) => match owner_source(a.target, ps@, g@) {
                        OwnerSource::NoOwners => r matches Ok(v) && v.len() == 0,
                        OwnerSource::MissingOwnersGroup => r matches Err(e) && e@
                            == missing_owners_group_error(a.target.id),
                        OwnerSource::Group(i) => r matches Ok(v) && v.len() == notified_owners(
                            g@,
                            i,
                        ).len() && (forall|k: int|
                            0 <= k < v.len() ==> #[trigger] v[k]@ == submitted_notice(
                                notified_owners(g@, i)[k],
                                a.target,
                                rid.id,
                            )) && (forall|x: RecordIdView|
                            is_owner_user(g@, i, x) <==> exists|k: int|
                                0 <= k < v.len() && #[trigger] v[k]@.user_id == x) && (forall|k1: int, k2: int|
                            0 <= k1 < k2 < v.len() ==> !seq_lt(
                                record_text(#[trigger] v[k2]@.user_id),
                                record_text(#[trigger] v[k1]@.user_id),
                            )),
                    },
                    None => r matches Ok(v) && v.len() == 0,
                },
                None => r matches Ok(v) && v.len() == 0,
            },
            kind is Update ==> if changed_to_terminal(opt_view(before), opt_view(after)) {
                match opt_view(after) {
                    Some(a) => match a.id {
                        Some(rid) => r matches Ok(v) && v.len() == 1 && v[0]@ == decision_notice(
                            a.requestor,
                            a.status,
                            rid.id,
                        ) && v[0]@.user_id == a.requestor && v[0]@.message == (if a.status is Approved {
                            "Your permission request was approved."@
                        } else {
                            "Your permission request was denied."@
                        }),
                        None => r matches Ok(v) && v.len() == 0,
                    },
                    None => false,
                }
            } else {
                r matches Ok(v) && v.len() == 0
            },
    {
        match kind {
            MutationKind::Create => {
                let after = match after {
                    Some(a) => a,
                    None => {
                        return Ok(Vec::new());
                    },
                };
                let rid = match &after.id {
                    Some(rid) => rid,
                    None => {
                        return Ok(Vec::new());
                    },
                };
                let target = &after.target;
                let owners = match target_owner_user_ids(target, ps, g) {
                    Ok(o) => o,
                    Err(e) => {
                        return Err(e);
                    },
                };
                let head = join2("A new request is waiting for review for ", target.table.as_str());
                let mid = join2(head.as_str(), ":");
                let body = join2(mid.as_str(), target.id.as_str());
                let mut out: Vec<Notification> = Vec::new();
                let mut k: usize = 0;
                while k < owners.len()
                    invariant
                        k <= owners.len(),
                        out.len() == k,
                        body@ == "A new request is waiting for review for "@ + target@.table
                            + ":"@ + target@.id,
                        forall|q: int| 0 <= q < k ==> #[trigger] out[q]@ == submitted_notice(
                            owners[q]@,
                            target@,
                            rid@.id,
                        ),
                    decreases owners.len() - k,
                {
                    let kind_text = "permission_request".to_string();
                    let title = "Permission request submitted".to_string();
                    let message = join2(body.as_str(), ".");
                    let url = requests_url(rid.id.as_str());
                    proof {
                        vstd::string::to_string_from_display_ensures_for_str(
                            "permission_request",
                            kind_text,
                        );
                        vstd::string::to_string_from_display_ensures_for_str(
                            "Permission request submitted",
                            title,
                        );
                    }
                    out.push(
                        Notification {
                            user_id: owners[k].duplicate(),
                            kind: kind_text,
                            title,
                            message,
                            url: Some(url),
                        },
                    );
                    k = k + 1;
                }
                proof {
                    assert forall|k1: int| 0 <= k1 < out.len() implies out[k1]@.user_id
                        == record_views(owners@)[k1] by {}
                    assert forall|x: RecordIdView|
                        record_views(owners@).contains(x) <==> exists|k: int|
                            0 <= k < out.len() && #[trigger] out[k]@.user_id == x by {
                        if record_views(owners@).contains(x) {
                            let k = choose|k: int|
                                0 <= k < owners.len() && record_views(owners@)[k] == x;
                            assert(out[k]@.user_id == x);
                        }
                        if exists|k: int| 0 <= k < out.len() && #[trigger] out[k]@.user_id == x {
                            let k = choose|k: int| 0 <= k < out.len() && #[trigger] out[k]@.user_id == x;
                            assert(record_views(owners@)[k] == x);
                        }
                    }
                    assert forall|k1: int, k2: int|
                        0 <= k1 < k2 < out.len() implies !seq_lt(
                        record_text(#[trigger] out[k2]@.user_id),
                        record_text(#[trigger] out[k1]@.user_id),
                    ) by {
                        assert(out[k1]@.user_id == record_views(owners@)[k1]);
                        assert(out[k2]@.user_id == record_views(owners@)[k2]);
                    }
                    match owner_source(target@, ps@, g@) {
                        OwnerSource::Group(i) => {
                            assert forall|x: RecordIdView|
                                is_owner_user(g@, i, x) <==> exists|k: int|
                                    0 <= k < out.len() && #[trigger] out[k]@.user_id == x by {
                                assert(is_owner_user(g@, i, x) <==> record_views(owners@).contains(x));
                            }
                        },
                        _ => {},
                    }
                }
                Ok(out)
            },
            MutationKind::Update => {
                if !status_changed_to_terminal(before, after) {
                    return Ok(Vec::new());
                }
                let after = match after {
                    Some(a) => a,
                    None => {
                        return Ok(Vec::new());
                    },
                };
                let rid = match &after.id {
                    Some(rid) => rid,
                    None => {
                        return Ok(Vec::new());
                    },
                };
                let decision = match after.status {
                    PermissionRequestStatus::Approved => "approved",
                    PermissionRequestStatus::Denied => "denied",
                    PermissionRequestStatus::Pending => {
                        return Ok(Vec::new());
                    },
                };
                let head = join2("Your permission request was ", decision);
                let message = join2(head.as_str(), ".");
                let kind_text = "permission_request".to_string();
                let title = "Permission request updated".to_string();
                proof {
                    vstd::string::to_string_from_display_ensures_for_str(
                        "permission_request",
                        kind_text,
                    );
                    vstd::string::to_string_from_display_ensures_for_str(
                        "Permission request updated",
                        title,
                    );
                }
                let mut out: Vec<Notification> = Vec::new();
                out.push(
                    Notification {
                        user_id: after.requestor.duplicate(),
                        kind: kind_text,
                        title,
                        message,
                        url: Some(requests_url(rid.id.as_str())),
                    },
                );
                proof {
                    lemma_decision_notice_names_outcome(after.requestor@, rid.id@);
                }
                Ok(out)
            },
            MutationKind::Delete => Ok(Vec::new()),
        }
    }
}

} // verus!
