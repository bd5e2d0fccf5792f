//! Migration of legacy per-kind principal connection edges (e.g.
//! `permission_allowed_user`) onto the unified `*_principal` edges.
//!
//! The migration runs over a model of the store it reads: the users and permission
//! groups that exist, the user and group principals that exist, and the graph edges.
//! Each step updates that model as the store would be updated and records the write to
//! perform, so that carrying out the recorded writes in order has the effect of the
//! migration.
use vstd::prelude::*;

use crate::model::{string_views, record_views, RecordId, RecordIdView};
use crate::principal_ids::{
    canonical_key, canonical_user_id, group_principal_id, group_principal_key, user_principal_id,
    user_principal_key,
};
use crate::text::{contains_string, join2, str_eq};

verus! {

/// A graph edge `from -[table]-> to`.
#[derive(Debug, Clone, PartialEq, Eq)]
pub struct Edge {
    pub table: String,
    pub from: RecordId,
    pub to: RecordId,
}

pub struct EdgeView {
    pub table: Seq<char>,
    pub from: RecordIdView,
    pub to: RecordIdView,
}

impl View for Edge {
    type V = EdgeView;

    open spec fn view(&self) -> EdgeView {
        EdgeView { table: self.table@, from: self.from@, to: self.to@ }
    }
}

/// What the migration reads and writes.
#[derive(Debug, Clone, PartialEq, Eq)]
pub struct MigrationStore {
    /// Ids of existing users.
    pub users: Vec<String>,
    /// Ids of existing permission groups.
    pub groups: Vec<String>,
    /// Ids of existing user principals.
    pub user_principals: Vec<String>,
    /// Ids of existing group principals.
    pub group_principals: Vec<String>,
    /// All graph edges, in store order.
    pub edges: Vec<Edge>,
}

pub struct StoreView {
    pub users: Seq<Seq<char>>,
    pub groups: Seq<Seq<char>>,
    pub user_principals: Seq<Seq<char>>,
    pub group_principals: Seq<Seq<char>>,
    pub edges: Seq<EdgeView>,
}

pub open spec fn edge_views(v: Seq<Edge>) -> Seq<EdgeView> {
    v.map_values(|e: Edge| e@)
}

impl View for MigrationStore {
    type V = StoreView;

    open spec fn view(&self) -> StoreView {
        StoreView {
            users: string_views(self.users@),
            groups: string_views(self.groups@),
            user_principals: string_views(self.user_principals@),
            group_principals: string_views(self.group_principals@),
            edges: edge_views(self.edges@),
        }
    }
}

/// A write the migration performs.
#[derive(Debug, Clone, PartialEq, Eq)]
pub enum MigrationOp {
    /// Create the user principal `principal_id` for `user`, keyed `user_key`.
    UpsertUserPrincipal { principal_id: String, user: RecordId, user_key: String },
    /// Create the group principal `principal_id` for `group`.
    UpsertGroupPrincipal { principal_id: String, group: RecordId, group_id: String },
    /// Create the edge `from -[table]-> to`.
    RelateEdge { table: String, from: RecordId, to: RecordId },
}

pub enum OpView {
    UpsertUserPrincipal { principal_id: Seq<char>, user: RecordIdView, user_key: Seq<char> },
    UpsertGroupPrincipal { principal_id: Seq<char>, group: RecordIdView, group_id: Seq<char> },
    RelateEdge { table: Seq<char>, from: RecordIdView, to: RecordIdView },
}

impl View for MigrationOp {
    type V = OpView;

    open spec fn view(&self) -> OpView {
        match self {
            MigrationOp::UpsertUserPrincipal { principal_id, user, user_key } => {
                OpView::UpsertUserPrincipal {
                    principal_id: principal_id@,
                    user: user@,
                    user_key: user_key@,
                }
            },
            MigrationOp::UpsertGroupPrincipal { principal_id, group, group_id } => {
                OpView::UpsertGroupPrincipal {
                    principal_id: principal_id@,
                    group: group@,
                    group_id: group_id@,
                }
            },
            MigrationOp::RelateEdge { table, from, to } => OpView::RelateEdge {
                table: table@,
                from: from@,
                to: to@,
            },
        }
    }
}

pub open spec fn op_views(v: Seq<MigrationOp>) -> Seq<OpView> {
    v.map_values(|o: MigrationOp| o@)
}

/// Why the migration stopped.
#[derive(Debug, PartialEq, Eq)]
pub enum MigrationError {
    /// A legacy edge names a user that does not exist.
    UserNotFound(String),
    /// A legacy edge names a permission group that does not exist.
    GroupNotFound(String),
}

pub enum MigrationErrorView {
    UserNotFound(Seq<char>),
    GroupNotFound(Seq<char>),
}

impl View for MigrationError {
    type V = MigrationErrorView;

    open spec fn view(&self) -> MigrationErrorView {
        match self {
            MigrationError::UserNotFound(u) => MigrationErrorView::UserNotFound(u@),
            MigrationError::GroupNotFound(g) => MigrationErrorView::GroupNotFound(g@),
        }
    }
}

impl MigrationError {
    /// The error text.
    pub fn message(&self) -> (m: String)
        ensures
            m@ == match self@ {
                MigrationErrorView::UserNotFound(u) => "User not found during migration: "@ + u,
                MigrationErrorView::GroupNotFound(g) => "Permission group not found during migration: "@
                    + g,
            },
    {
        match self {
            MigrationError::UserNotFound(u) => join2(
                "User not found during migration: ",
                u.as_str(),
            ),
            MigrationError::GroupNotFound(g) => join2(
                "Permission group not found during migration: ",
                g.as_str(),
            ),
        }
    }
}

/// Which legacy edges a pass copies: those to users or those to permission groups.
#[derive(Clone, Copy)]
pub enum LegacyKind {
    User,
    Group,
}

/// Table a legacy edge of this kind points into.
pub open spec fn kind_table(kind: LegacyKind) -> Seq<char> {
    match kind {
        LegacyKind::User => "user"@,
        LegacyKind::Group => "permission_group"@,
    }
}

/// Table of the principal of this kind.
pub open spec fn principal_table(kind: LegacyKind) -> Seq<char> {
    match kind {
        LegacyKind::User => "permission_user_principal"@,
        LegacyKind::Group => "permission_group_principal"@,
    }
}

/// Key of the principal of `id`.
pub open spec fn principal_key(kind: LegacyKind, id: Seq<char>) -> Seq<char> {
    match kind {
        LegacyKind::User => user_principal_key(id),
        LegacyKind::Group => group_principal_key(id),
    }
}

/// The write that creates the principal of `id`.
pub open spec fn upsert_op(kind: LegacyKind, id: Seq<char>) -> OpView {
    match kind {
        LegacyKind::User => OpView::UpsertUserPrincipal {
            principal_id: user_principal_key(id),
            user: RecordIdView { table: "user"@, id },
            user_key: canonical_key(id),
        },
        LegacyKind::Group => OpView::UpsertGroupPrincipal {
            principal_id: group_principal_key(id),
            group: RecordIdView { table: "permission_group"@, id },
            group_id: id,
        },
    }
}

/// The "not found" error of `id`.
pub open spec fn missing_error(kind: LegacyKind, id: Seq<char>) -> MigrationErrorView {
    match kind {
        LegacyKind::User => MigrationErrorView::UserNotFound(id),
        LegacyKind::Group => MigrationErrorView::GroupNotFound(id),
    }
}

/// Existing rows of the kind's source table.
pub open spec fn rows_of(kind: LegacyKind, st: StoreView) -> Seq<Seq<char>> {
    match kind {
        LegacyKind::User => st.users,
        LegacyKind::Group => st.groups,
    }
}

/// Existing principals of the kind.
pub open spec fn principals_of(kind: LegacyKind, st: StoreView) -> Seq<Seq<char>> {
    match kind {
        LegacyKind::User => st.user_principals,
        LegacyKind::Group => st.group_principals,
    }
}

/// `st` with one more principal of the kind.
pub open spec fn add_principal(kind: LegacyKind, st: StoreView, key: Seq<char>) -> StoreView {
    match kind {
        LegacyKind::User => StoreView { user_principals: st.user_principals.push(key), ..st },
        LegacyKind::Group => StoreView { group_principals: st.group_principals.push(key), ..st },
    }
}

/// Result of ensuring the principal of `id`: the store after, the writes, and the
/// principal record.
pub struct EnsureView {
    pub store: StoreView,
    pub ops: Seq<OpView>,
    pub principal: RecordIdView,
}

/// Ensure the principal of `id` exists: fails when `id` names no row; creates the
/// principal when it is missing.
pub open spec fn ensure_principal_step(kind: LegacyKind, st: StoreView, id: Seq<char>) -> Result<
    EnsureView,
    MigrationErrorView,
> {
    if !rows_of(kind, st).contains(id) {
        Err(missing_error(kind, id))
    } else {
        let key = principal_key(kind, id);
        let principal = RecordIdView { table: principal_table(kind), id: key };
        if principals_of(kind, st).contains(key) {
            Ok(EnsureView { store: st, ops: Seq::empty(), principal })
        } else {
            Ok(
                EnsureView {
                    store: add_principal(kind, st, key),
                    ops: seq![upsert_op(kind, id)],
                    principal,
                },
            )
        }
    }
}

/// Targets of `from` along `table`, in store order.
pub open spec fn targets_of(edges: Seq<EdgeView>, table: Seq<char>, from: RecordIdView) -> Seq<
    RecordIdView,
>
    decreases edges.len(),
{
    if edges.len() == 0 {
        Seq::empty()
    } else {
        let prev = targets_of(edges.drop_last(), table, from);
        let e = edges.last();
        if e.table == table && e.from == from {
            prev.push(e.to)
        } else {
            prev
        }
    }
}

/// Whether some target has the table and id of `to`.
pub open spec fn has_target(ts: Seq<RecordIdView>, to: RecordIdView) -> bool {
    exists|i: int| 0 <= i < ts.len() && #[trigger] ts[i] == to
}

/// Ensure the edge `from -[table]-> to` exists.
pub open spec fn ensure_edge_step(
    st: StoreView,
    table: Seq<char>,
    from: RecordIdView,
    to: RecordIdView,
) -> (StoreView, Seq<OpView>) {
    if has_target(targets_of(st.edges, table, from), to) {
        (st, Seq::empty())
    } else {
        (
            StoreView {
                edges: st.edges.push(EdgeView { table, from, to }),
                ..st
            },
            seq![OpView::RelateEdge { table, from, to }],
        )
    }
}

/// State of a migration run: store, writes so far, and the error that stopped it.
pub struct Outcome {
    pub store: StoreView,
    pub ops: Seq<OpView>,
    pub err: Option<MigrationErrorView>,
}

/// Copy one legacy target of `from` onto the unified edge `target_table`: targets of
/// other tables and with an empty id are skipped.
pub open spec fn target_step(
    kind: LegacyKind,
    st: StoreView,
    target_table: Seq<char>,
    from: RecordIdView,
    out: RecordIdView,
) -> Outcome {
    if out.table != kind_table(kind) || out.id.len() == 0 {
        Outcome { store: st, ops: Seq::empty(), err: None }
    } else {
        match ensure_principal_step(kind, st, out.id) {
            Err(e) => Outcome { store: st, ops: Seq::empty(), err: Some(e) },
            Ok(en) => {
                let (st2, ops2) = ensure_edge_step(en.store, target_table, from, en.principal);
                Outcome { store: st2, ops: en.ops + ops2, err: None }
            },
        }
    }
}

/// Run `target_step` over `outs` in order, stopping at the first error.
pub open spec fn run_targets(
    kind: LegacyKind,
    st: StoreView,
    target_table: Seq<char>,
    from: RecordIdView,
    outs: Seq<RecordIdView>,
) -> Outcome
    decreases outs.len(),
{
    if outs.len() == 0 {
        Outcome { store: st, ops: Seq::empty(), err: None }
    } else {
        let o = run_targets(kind, st, target_table, from, outs.drop_last());
        if o.err is Some {
            o
        } else {
            let o2 = target_step(kind, o.store, target_table, from, outs.last());
            Outcome { store: o2.store, ops: o.ops + o2.ops, err: o2.err }
        }
    }
}

/// Copy the legacy `source_table` edges of every source onto `target_table`, stopping
/// at the first error.
pub open spec fn run_sources(
    kind: LegacyKind,
    st: StoreView,
    sources: Seq<RecordIdView>,
    source_table: Seq<char>,
    target_table: Seq<char>,
) -> Outcome
    decreases sources.len(),
{
    if sources.len() == 0 {
        Outcome { store: st, ops: Seq::empty(), err: None }
    } else {
        let o = run_sources(kind, st, sources.drop_last(), source_table, target_table);
        if o.err is Some {
            o
        } else {
            let from = sources.last();
            let o2 = run_targets(
                kind,
                o.store,
                target_table,
                from,
                targets_of(o.store.edges, source_table, from),
            );
            Outcome { store: o2.store, ops: o.ops + o2.ops, err: o2.err }
        }
    }
}

/// Continue a run with one more pass, unless it already stopped.
pub open spec fn then_pass(
    o: Outcome,
    kind: LegacyKind,
    sources: Seq<RecordIdView>,
    source_table: Seq<char>,
    target_table: Seq<char>,
) -> Outcome {
    if o.err is Some {
        o
    } else {
        let o2 = run_sources(kind, o.store, sources, source_table, target_table);
        Outcome { store: o2.store, ops: o.ops + o2.ops, err: o2.err }
    }
}

/// The whole migration: permission grants to users and groups, then group owners and
/// members that are users, then group members that are groups.
pub open spec fn migration(st: StoreView, perms: Seq<RecordIdView>, groups: Seq<RecordIdView>) -> Outcome {
    let o0 = Outcome { store: st, ops: Seq::empty(), err: None };
    let o1 = then_pass(
        o0,
        LegacyKind::User,
        perms,
        "permission_allowed_user"@,
        "permission_allowed_principal"@,
    );
    let o2 = then_pass(
        o1,
        LegacyKind::Group,
        perms,
        "permission_allowed_group"@,
        "permission_allowed_principal"@,
    );
    let o3 = then_pass(
        o2,
        LegacyKind::User,
        groups,
        "permission_group_owner_user"@,
        "permission_group_owner_principal"@,
    );
    let o4 = then_pass(
        o3,
        LegacyKind::User,
        groups,
        "permission_group_member_user"@,
        "permission_group_member_principal"@,
    );
    then_pass(
        o4,
        LegacyKind::Group,
        groups,
        "permission_group_member_group"@,
        "permission_group_member_principal"@,
    )
}

fn own(s: &str) -> (r: String)
    ensures
        r@ == s@,
{
    let r = s.to_string();
    proof {
        vstd::string::to_string_from_display_ensures_for_str(s, r);
    }
    r
}

/// Ensure the user principal of `user_id` exists, recording its creation in `ops`.
pub fn ensure_user_principal(
    user_id: &str,
    store: &mut MigrationStore,
    ops: &mut Vec<MigrationOp>,
) -> (r: Result<RecordId, MigrationError>)
    ensures
        match ensure_principal_step(LegacyKind::User, old(store)@, user_id@) {
            Err(e) => r matches Err(x) && x@ == e && final(store)@ == old(store)@ && final(ops)@
                == old(ops)@,
            Ok(en) => r matches Ok(p) && p@ == en.principal && final(store)@ == en.store
                && op_views(final(ops)@) == op_views(old(ops)@) + en.ops,
        },
{
    if !contains_string(&store.users, user_id) {
        return Err(MigrationError::UserNotFound(own(user_id)));
    }
    let principal_id = user_principal_id(user_id);
    let table = own("permission_user_principal");
    if !contains_string(&store.user_principals, principal_id.as_str()) {
        let ghost before = op_views(ops@);
        let op = MigrationOp::UpsertUserPrincipal {
            principal_id: principal_id.clone(),
            user: RecordId::new("user", user_id),
            user_key: canonical_user_id(user_id),
        };
        ops.push(op);
        assert(op_views(ops@) =~= before + seq![upsert_op(LegacyKind::User, user_id@)]);
        let ghost ups = store.user_principals@;
        store.user_principals.push(principal_id.clone());
        assert(string_views(store.user_principals@) =~= string_views(ups).push(principal_id@));
    }
    Ok(RecordId { table, id: principal_id })
}

/// Ensure the group principal of `group_id` exists, recording its creation in `ops`.
pub fn ensure_group_principal(
    group_id: &str,
    store: &mut MigrationStore,
    ops: &mut Vec<MigrationOp>,
) -> (r: Result<RecordId, MigrationError>)
    ensures
        match ensure_principal_step(LegacyKind::Group, old(store)@, group_id@) {
            Err(e) => r matches Err(x) && x@ == e && final(store)@ == old(store)@ && final(ops)@
                == old(ops)@,
            Ok(en) => r matches Ok(p) && p@ == en.principal && final(store)@ == en.store
                && op_views(final(ops)@) == op_views(old(ops)@) + en.ops,
        },
{
    if !contains_string(&store.groups, group_id) {
        return Err(MigrationError::GroupNotFound(own(group_id)));
    }
    let principal_id = group_principal_id(group_id);
    let table = own("permission_group_principal");
    if !contains_string(&store.group_principals, principal_id.as_str()) {
        let ghost before = op_views(ops@);
        let op = MigrationOp::UpsertGroupPrincipal {
            principal_id: principal_id.clone(),
            group: RecordId::new("permission_group", group_id),
            group_id: own(group_id),
        };
        ops.push(op);
        assert(op_views(ops@) =~= before + seq![upsert_op(LegacyKind::Group, group_id@)]);
        let ghost gps = store.group_principals@;
        store.group_principals.push(principal_id.clone());
        assert(string_views(store.group_principals@) =~= string_views(gps).push(principal_id@));
    }
    Ok(RecordId { table, id: principal_id })
}

/// Targets of `from` along `table`, in store order.
pub fn edge_targets(store: &MigrationStore, table: &str, from: &RecordId) -> (r: Vec<RecordId>)
    ensures
        record_views(r@) == targets_of(store@.edges, table@, from@),
{
    let ghost all = store@.edges;
    let mut r: Vec<RecordId> = Vec::new();
    let mut i: usize = 0;
    while i < store.edges.len()
        invariant
            i <= store.edges.len(),
            all == store@.edges,
            record_views(r@) == targets_of(all.take(i as int), table@, from@),
        decreases store.edges.len() - i,
    {
        proof {
            assert(all.take(i + 1).drop_last() =~= all.take(i as int));
            assert(all.take(i + 1).last() == store.edges@[i as int]@);
        }
        let e = &store.edges[i];
        if str_eq(e.table.as_str(), table) && e.from.same_as(from) {
            let ghost prev = record_views(r@);
            r.push(e.to.duplicate());
            assert(record_views(r@) =~= prev.push(e.to@));
        }
        i = i + 1;
    }
    assert(all.take(store.edges.len() as int) =~= all);
    r
}

/// Ensure the edge `from -[edge_table]-> to` exists, recording its creation in `ops`.
pub fn ensure_edge(
    edge_table: &str,
    from: &RecordId,
    to: &RecordId,
    store: &mut MigrationStore,
    ops: &mut Vec<MigrationOp>,
)
    ensures
        final(store)@ == ensure_edge_step(old(store)@, edge_table@, from@, to@).0,
        op_views(final(ops)@) == op_views(old(ops)@) + ensure_edge_step(
            old(store)@,
            edge_table@,
            from@,
            to@,
        ).1,
{
    let existing = edge_targets(store, edge_table, from);
    let ghost ts = record_views(existing@);
    let mut already = false;
    let mut i: usize = 0;
    while i < existing.len()
        invariant
            i <= existing.len(),
            ts == record_views(existing@),
            already == exists|j: int| 0 <= j < i && #[trigger] ts[j] == to@,
        decreases existing.len() - i,
    {
        assert(ts[i as int] == existing@[i as int]@);
        if existing[i].same_as(to) {
            already = true;
        }
        i = i + 1;
    }
    if !already {
        let ghost before = op_views(ops@);
        let ghost es = store.edges@;
        let op = MigrationOp::RelateEdge { table: own(edge_table), from: from.duplicate(), to: to.duplicate() };
        ops.push(op);
        assert(op_views(ops@) =~= before + seq![OpView::RelateEdge { table: edge_table@, from: from@, to: to@ }]);
        store.edges.push(Edge { table: own(edge_table), from: from.duplicate(), to: to.duplicate() });
        assert(edge_views(store.edges@) =~= edge_views(es).push(EdgeView { table: edge_table@, from: from@, to: to@ }));
    }
}

/// Copy the legacy `source_edge_table` edges of every source onto `target_edge_table`,
/// stopping at the first principal that cannot be ensured.
#[verifier::loop_isolation(false)]
fn migrate_edges_from(
    kind: LegacyKind,
    sources: &Vec<RecordId>,
    source_edge_table: &str,
    target_edge_table: &str,
    store: &mut MigrationStore,
    ops: &mut Vec<MigrationOp>,
) -> (r: Result<(), MigrationError>)
    ensures
        ({
            let o = run_sources(
                kind,
                old(store)@,
                record_views(sources@),
                source_edge_table@,
                target_edge_table@,
            );
            &&& final(store)@ == o.store
            &&& op_views(final(ops)@) == op_views(old(ops)@) + o.ops
            &&& match o.err {
                Some(e) => r matches Err(x) && x@ == e,
                None => r is Ok,
            }
        }),
{
    let ghost st0 = store@;
    let ghost ops0 = op_views(ops@);
    let ghost srcs = record_views(sources@);
    let mut s: usize = 0;
    while s < sources.len()
        invariant
            s <= sources.len(),
            srcs == record_views(sources@),
            ({
                let o = run_sources(kind, st0, srcs.take(s as int), source_edge_table@, target_edge_table@);
                &&& o.err is None
                &&& store@ == o.store
                &&& op_views(ops@) == ops0 + o.ops
            }),
        decreases sources.len() - s,
    {
        proof {
            assert(srcs.take(s + 1).drop_last() =~= srcs.take(s as int));
            assert(srcs.take(s + 1).last() == sources@[s as int]@);
        }
        let ghost o_prev = run_sources(kind, st0, srcs.take(s as int), source_edge_table@, target_edge_table@);
        let from = &sources[s];
        let targets = edge_targets(store, source_edge_table, from);
        let ghost outs = record_views(targets@);
        let ghost st1 = store@;
        let ghost ops1 = op_views(ops@);
        let mut t: usize = 0;
        while t < targets.len()
            invariant
                t <= targets.len(),
                outs == record_views(targets@),
                ({
                    let o = run_targets(kind, st1, target_edge_table@, from@, outs.take(t as int));
                    &&& o.err is None
                    &&& store@ == o.store
                    &&& op_views(ops@) == ops1 + o.ops
                }),
            decreases targets.len() - t,
        {
            proof {
                assert(outs.take(t + 1).drop_last() =~= outs.take(t as int));
                assert(outs.take(t + 1).last() == targets@[t as int]@);
            }
            let ghost o_t = run_targets(kind, st1, target_edge_table@, from@, outs.take(t as int));
            let ghost ops_t = op_views(ops@);
            let out = &targets[t];
            let wanted = match kind {
                LegacyKind::User => "user",
                LegacyKind::Group => "permission_group",
            };
            if !str_eq(out.table.as_str(), wanted) || out.id.unicode_len() == 0 {
                assert(ops1 + o_t.ops + Seq::<OpView>::empty() =~= ops1 + o_t.ops);
            } else {
                let ghost st_t = store@;
                let principal = match kind {
                    LegacyKind::User => ensure_user_principal(out.id.as_str(), store, ops),
                    LegacyKind::Group => ensure_group_principal(out.id.as_str(), store, ops),
                };
                match principal {
                    Err(e) => {
                        proof {
                            let o_full = run_targets(kind, st1, target_edge_table@, from@, outs);
                            lemma_run_targets_stops(kind, st1, target_edge_table@, from@, outs, t as int);
                            assert(o_full == run_targets(kind, st1, target_edge_table@, from@, outs.take(t + 1)));
                                        lemma_run_sources_stops(kind, st0, srcs, source_edge_table@, target_edge_table@, s as int);
                            assert(ops0 + o_prev.ops + (o_t.ops + Seq::<OpView>::empty()) =~= ops0 + (o_prev.ops + o_t.ops));
                            assert(targets_of(o_prev.store.edges, source_edge_table@, srcs[s as int]) == outs);
                            assert(outs.take(targets.len() as int) =~= outs);
                        }
                        return Err(e);
                    },
                    Ok(p) => {
                        let ghost ops_p = op_views(ops@);
                        ensure_edge(target_edge_table, from, &p, store, ops);
                        proof {
                            let o_step = target_step(kind, st_t, target_edge_table@, from@, out@);
                            assert(ops1 + o_t.ops + o_step.ops =~= ops1 + (o_t.ops + o_step.ops));
                        }
                    },
                }
            }
            t = t + 1;
        }
        proof {
            assert(outs.take(targets.len() as int) =~= outs);
            let o_all = run_targets(kind, st1, target_edge_table@, from@, outs);
            assert(ops0 + o_prev.ops + o_all.ops =~= ops0 + (o_prev.ops + o_all.ops));
        }
        s = s + 1;
    }
    assert(srcs.take(sources.len() as int) =~= srcs);
    Ok(())
}

/// A stopped run over targets stays stopped: the outcome over all targets is the
/// outcome up to the one that failed.
proof fn lemma_run_targets_stops(
    kind: LegacyKind,
    st: StoreView,
    target_table: Seq<char>,
    from: RecordIdView,
    outs: Seq<RecordIdView>,
    t: int,
)
    requires
        0 <= t < outs.len(),
        run_targets(kind, st, target_table, from, outs.take(t + 1)).err is Some,
    ensures
        run_targets(kind, st, target_table, from, outs) == run_targets(
            kind,
            st,
            target_table,
            from,
            outs.take(t + 1),
        ),
    decreases outs.len() - t,
{
    if t + 1 < outs.len() {
        assert(outs.drop_last().take(t + 1) =~= outs.take(t + 1));
        lemma_run_targets_stops(kind, st, target_table, from, outs.drop_last(), t);
    } else {
        assert(outs.take(t + 1) =~= outs);
    }
}

/// A stopped run over sources stays stopped.
proof fn lemma_run_sources_stops(
    kind: LegacyKind,
    st: StoreView,
    sources: Seq<RecordIdView>,
    source_table: Seq<char>,
    target_table: Seq<char>,
    s: int,
)
    requires
        0 <= s < sources.len(),
        run_sources(kind, st, sources.take(s + 1), source_table, target_table).err is Some,
    ensures
        run_sources(kind, st, sources, source_table, target_table) == run_sources(
            kind,
            st,
            sources.take(s + 1),
            source_table,
            target_table,
        ),
    decreases sources.len() - s,
{
    if s + 1 < sources.len() {
        assert(sources.drop_last().take(s + 1) =~= sources.take(s + 1));
        lemma_run_sources_stops(kind, st, sources.drop_last(), source_table, target_table, s);
    } else {
        assert(sources.take(s + 1) =~= sources);
    }
}

/// Copy legacy edges from each source to users onto the unified edge table.
pub fn migrate_user_edges_from(
    sources: &Vec<RecordId>,
    source_edge_table: &str,
    target_edge_table: &str,
    store: &mut MigrationStore,
    ops: &mut Vec<MigrationOp>,
) -> (r: Result<(), MigrationError>)
    ensures
        ({
            let o = run_sources(
                LegacyKind::User,
                old(store)@,
                record_views(sources@),
                source_edge_table@,
                target_edge_table@,
            );
            &&& final(store)@ == o.store
            &&& op_views(final(ops)@) == op_views(old(ops)@) + o.ops
            &&& match o.err {
                Some(e) => r matches Err(x) && x@ == e,
                None => r is Ok,
            }
        }),
{
    migrate_edges_from(LegacyKind::User, sources, source_edge_table, target_edge_table, store, ops)
}

/// Copy legacy edges from each source to permission groups onto the unified edge table.
pub fn migrate_group_edges_from(
    sources: &Vec<RecordId>,
    source_edge_table: &str,
    target_edge_table: &str,
    store: &mut MigrationStore,
    ops: &mut Vec<MigrationOp>,
) -> (r: Result<(), MigrationError>)
    ensures
        ({
            let o = run_sources(
                LegacyKind::Group,
                old(store)@,
                record_views(sources@),
                source_edge_table@,
                target_edge_table@,
            );
            &&& final(store)@ == o.store
            &&& op_views(final(ops)@) == op_views(old(ops)@) + o.ops
            &&& match o.err {
                Some(e) => r matches Err(x) && x@ == e,
                None => r is Ok,
            }
        }),
{
    migrate_edges_from(LegacyKind::Group, sources, source_edge_table, target_edge_table, store, ops)
}

/// The ids of the rows that have one, in order.
pub open spec fn present_ids(rows: Seq<Option<RecordIdView>>) -> Seq<RecordIdView>
    decreases rows.len(),
{
    if rows.len() == 0 {
        Seq::empty()
    } else {
        let prev = present_ids(rows.drop_last());
        match rows.last() {
            Some(r) => prev.push(r),
            None => prev,
        }
    }
}

pub open spec fn opt_record_views(rows: Seq<Option<RecordId>>) -> Seq<Option<RecordIdView>> {
    rows.map_values(|o: Option<RecordId>| match o {
        Some(r) => Some(r@),
        None => None,
    })
}

fn present_record_ids(rows: &Vec<Option<RecordId>>) -> (r: Vec<RecordId>)
    ensures
        record_views(r@) == present_ids(opt_record_views(rows@)),
{
    let ghost all = opt_record_views(rows@);
    let mut r: Vec<RecordId> = Vec::new();
    let mut i: usize = 0;
    while i < rows.len()
        invariant
            i <= rows.len(),
            all == opt_record_views(rows@),
            record_views(r@) == present_ids(all.take(i as int)),
        decreases rows.len() - i,
    {
        proof {
            assert(all.take(i + 1).drop_last() =~= all.take(i as int));
            assert(all.take(i + 1).last() == all[i as int]);
        }
        match &rows[i] {
            Some(id) => {
                let ghost prev = record_views(r@);
                r.push(id.duplicate());
                assert(record_views(r@) =~= prev.push(id@));
            },
            None => {},
        }
        i = i + 1;
    }
    assert(all.take(rows.len() as int) =~= all);
    r
}

/// Record ids of the listed permissions (rows without an id are left out).
pub fn list_permission_record_ids(rows: &Vec<Option<RecordId>>) -> (r: Vec<RecordId>)
    ensures
        record_views(r@) == present_ids(opt_record_views(rows@)),
{
    present_record_ids(rows)
}

/// Record ids of the listed permission groups (rows without an id are left out).
pub fn list_group_record_ids(rows: &Vec<Option<RecordId>>) -> (r: Vec<RecordId>)
    ensures
        record_views(r@) == present_ids(opt_record_views(rows@)),
{
    present_record_ids(rows)
}

/// The writes of a migration run, and the error that stopped it, if any.
#[derive(Debug, PartialEq, Eq)]
pub struct MigrationPlan {
    pub ops: Vec<MigrationOp>,
    pub error: Option<MigrationError>,
}

/// Run the principal-connection migration over `store`: copy legacy per-kind edges of
/// every permission (to users, then to groups) and of every group (owner users, member
/// users, member groups) onto the unified `*_principal` edges, creating missing
/// principals on the way. Stops at the first legacy edge naming a missing user or group;
/// the writes recorded before it stand.
pub fn migrate_permission_principal_connections_with_valence(
    permissions: &Vec<RecordId>,
    groups: &Vec<RecordId>,
    store: &mut MigrationStore,
) -> (r: MigrationPlan)
    ensures
        ({
            let o = migration(old(store)@, record_views(permissions@), record_views(groups@));
            &&& final(store)@ == o.store
            &&& op_views(r.ops@) == o.ops
            &&& match o.err {
                Some(e) => r.error matches Some(x) && x@ == e,
                None => r.error is None,
            }
        }),
{
    let ghost st0 = store@;
    let ghost perms = record_views(permissions@);
    let ghost grps = record_views(groups@);
    let mut ops: Vec<MigrationOp> = Vec::new();
    let ghost o0 = Outcome { store: st0, ops: Seq::empty(), err: None };
    assert(op_views(ops@) =~= Seq::<OpView>::empty());
    let ghost o1 = then_pass(
        o0,
        LegacyKind::User,
        perms,
        "permission_allowed_user"@,
        "permission_allowed_principal"@,
    );
    let r1 = migrate_user_edges_from(
        permissions,
        "permission_allowed_user",
        "permission_allowed_principal",
        store,
        &mut ops,
    );
    assert(o1.ops =~= Seq::<OpView>::empty() + o1.ops);
    if let Err(e) = r1 {
        return MigrationPlan { ops, error: Some(e) };
    }
    let ghost o2 = then_pass(
        o1,
        LegacyKind::Group,
        perms,
        "permission_allowed_group"@,
        "permission_allowed_principal"@,
    );
    let r2 = migrate_group_edges_from(
        permissions,
        "permission_allowed_group",
        "permission_allowed_principal",
        store,
        &mut ops,
    );
    if let Err(e) = r2 {
        return MigrationPlan { ops, error: Some(e) };
    }
    let ghost o3 = then_pass(
        o2,
        LegacyKind::User,
        grps,
        "permission_group_owner_user"@,
        "permission_group_owner_principal"@,
    );
    let r3 = migrate_user_edges_from(
        groups,
        "permission_group_owner_user",
        "permission_group_owner_principal",
        store,
        &mut ops,
    );
    if let Err(e) = r3 {
        return MigrationPlan { ops, error: Some(e) };
    }
    let ghost o4 = then_pass(
        o3,
        LegacyKind::User,
        grps,
        "permission_group_member_user"@,
        "permission_group_member_principal"@,
    );
    let r4 = migrate_user_edges_from(
        groups,
        "permission_group_member_user",
        "permission_group_member_principal",
        store,
        &mut ops,
    );
    if let Err(e) = r4 {
        return MigrationPlan { ops, error: Some(e) };
    }
    let r5 = migrate_group_edges_from(
        groups,
        "permission_group_member_group",
        "permission_group_member_principal",
        store,
        &mut ops,
    );
    if let Err(e) = r5 {
        return MigrationPlan { ops, error: Some(e) };
    }
    MigrationPlan { ops, error: None }
}

/// The unified edge tables the migration writes.
pub open spec fn is_target_table(t: Seq<char>) -> bool {
    ||| t == "permission_allowed_principal"@
    ||| t == "permission_group_owner_principal"@
    ||| t == "permission_group_member_principal"@
}

/// `b` is `a` with principals and unified edges added, and nothing else changed.
pub open spec fn extends(a: StoreView, b: StoreView) -> bool {
    &&& b.users == a.users
    &&& b.groups == a.groups
    &&& forall|x: Seq<char>| a.user_principals.contains(x) ==> #[trigger] b.user_principals.contains(x)
    &&& forall|x: Seq<char>| a.group_principals.contains(x) ==> #[trigger] b.group_principals.contains(
        x,
    )
    &&& a.edges.len() <= b.edges.len()
    &&& b.edges.take(a.edges.len() as int) == a.edges
    &&& forall|i: int| a.edges.len() <= i < b.edges.len() ==> is_target_table(#[trigger] b.edges[i].table)
}

/// Copying `out` again from `from` onto `target_table` would change nothing.
pub open spec fn settled(
    kind: LegacyKind,
    st: StoreView,
    target_table: Seq<char>,
    from: RecordIdView,
    out: RecordIdView,
) -> bool {
    ||| out.table != kind_table(kind)
    ||| out.id.len() == 0
    ||| {
        &&& rows_of(kind, st).contains(out.id)
        &&& principals_of(kind, st).contains(principal_key(kind, out.id))
        &&& st.edges.contains(
            EdgeView {
                table: target_table,
                from,
                to: RecordIdView { table: principal_table(kind), id: principal_key(kind, out.id) },
            },
        )
    }
}

proof fn lemma_has_target_contains(edges: Seq<EdgeView>, table: Seq<char>, from: RecordIdView, to: RecordIdView)
    ensures
        has_target(targets_of(edges, table, from), to) <==> edges.contains(EdgeView { table, from, to }),
    decreases edges.len(),
{
    let e = EdgeView { table, from, to };
    if edges.len() > 0 {
        let d = edges.drop_last();
        lemma_has_target_contains(d, table, from, to);
        let prev = targets_of(d, table, from);
        let cur = targets_of(edges, table, from);
        if has_target(cur, to) {
            let i = choose|i: int| 0 <= i < cur.len() && #[trigger] cur[i] == to;
            if i < prev.len() {
                assert(prev[i] == to);
                let j = choose|j: int| 0 <= j < d.len() && d[j] == e;
                assert(edges[j] == e);
            } else {
                assert(edges[edges.len() - 1] == e);
            }
        }
        if edges.contains(e) {
            let j = choose|j: int| 0 <= j < edges.len() && edges[j] == e;
            if j < d.len() {
                assert(d[j] == e);
                let i = choose|i: int| 0 <= i < prev.len() && #[trigger] prev[i] == to;
                assert(cur[i] == to);
            } else {
                assert(cur[cur.len() - 1] == to);
            }
        }
    }
}

proof fn lemma_extends_refl(a: StoreView)
    ensures
        extends(a, a),
{
    assert(a.edges.take(a.edges.len() as int) =~= a.edges);
}

proof fn lemma_extends_trans(a: StoreView, b: StoreView, c: StoreView)
    requires
        extends(a, b),
        extends(b, c),
    ensures
        extends(a, c),
{
    assert(c.edges.take(a.edges.len() as int) =~= b.edges.take(a.edges.len() as int)) by {
        assert forall|i: int| 0 <= i < a.edges.len() implies c.edges[i] == b.edges[i] by {
            assert(c.edges.take(b.edges.len() as int)[i] == b.edges[i]);
        }
    }
    assert forall|i: int| a.edges.len() <= i < c.edges.len() implies is_target_table(
        #[trigger] c.edges[i].table,
    ) by {
        if i < b.edges.len() {
            assert(c.edges.take(b.edges.len() as int)[i] == b.edges[i]);
            assert(is_target_table(b.edges[i].table));
        }
    }
}

proof fn lemma_settled_monotone(
    kind: LegacyKind,
    a: StoreView,
    b: StoreView,
    target_table: Seq<char>,
    from: RecordIdView,
    out: RecordIdView,
)
    requires
        extends(a, b),
        settled(kind, a, target_table, from, out),
    ensures
        settled(kind, b, target_table, from, out),
{
    if out.table == kind_table(kind) && out.id.len() > 0 {
        let e = EdgeView {
            table: target_table,
            from,
            to: RecordIdView { table: principal_table(kind), id: principal_key(kind, out.id) },
        };
        let j = choose|j: int| 0 <= j < a.edges.len() && a.edges[j] == e;
        assert(b.edges.take(a.edges.len() as int)[j] == e);
        assert(b.edges[j] == e);
        match kind {
            LegacyKind::User => {
                assert(b.user_principals.contains(principal_key(kind, out.id)));
            },
            LegacyKind::Group => {
                assert(b.group_principals.contains(principal_key(kind, out.id)));
            },
        }
    }
}

/// Edges appended with other tables leave the targets along `table` unchanged.
proof fn lemma_targets_stable(a: StoreView, b: StoreView, table: Seq<char>, from: RecordIdView)
    requires
        extends(a, b),
        !is_target_table(table),
    ensures
        targets_of(b.edges, table, from) == targets_of(a.edges, table, from),
    decreases b.edges.len() - a.edges.len(),
{
    if b.edges.len() > a.edges.len() {
        let c = StoreView { edges: b.edges.drop_last(), ..b };
        assert(c.edges.take(a.edges.len() as int) =~= b.edges.take(a.edges.len() as int));
        assert forall|i: int| a.edges.len() <= i < c.edges.len() implies is_target_table(
            #[trigger] c.edges[i].table,
        ) by {
            assert(c.edges[i] == b.edges[i]);
        }
        lemma_targets_stable(a, c, table, from);
        assert(is_target_table(b.edges[b.edges.len() - 1].table));
    } else {
        assert(b.edges =~= b.edges.take(a.edges.len() as int));
    }
}

/// One copy step adds only principals and an edge of `target_table`, and afterwards
/// that copy is settled.
proof fn lemma_target_step(
    kind: LegacyKind,
    st: StoreView,
    target_table: Seq<char>,
    from: RecordIdView,
    out: RecordIdView,
)
    requires
        is_target_table(target_table),
    ensures
        extends(st, target_step(kind, st, target_table, from, out).store),
        target_step(kind, st, target_table, from, out).err is None ==> settled(
            kind,
            target_step(kind, st, target_table, from, out).store,
            target_table,
            from,
            out,
        ),
{
    lemma_extends_refl(st);
    if out.table == kind_table(kind) && out.id.len() > 0 {
        match ensure_principal_step(kind, st, out.id) {
            Err(e) => {},
            Ok(en) => {
                let key = principal_key(kind, out.id);
                let st1 = en.store;
                assert(extends(st, st1)) by {
                    if !principals_of(kind, st).contains(key) {
                        match kind {
                            LegacyKind::User => {
                                assert forall|x: Seq<char>| st.user_principals.contains(x) implies #[trigger] st1.user_principals.contains(x) by {
                                    let i = choose|i: int| 0 <= i < st.user_principals.len() && st.user_principals[i] == x;
                                    assert(st1.user_principals[i] == x);
                                }
                            },
                            LegacyKind::Group => {
                                assert forall|x: Seq<char>| st.group_principals.contains(x) implies #[trigger] st1.group_principals.contains(x) by {
                                    let i = choose|i: int| 0 <= i < st.group_principals.len() && st.group_principals[i] == x;
                                    assert(st1.group_principals[i] == x);
                                }
                            },
                        }
                    }
                    assert(st1.edges.take(st.edges.len() as int) =~= st.edges);
                }
                assert(principals_of(kind, st1).contains(key)) by {
                    if !principals_of(kind, st).contains(key) {
                        match kind {
                            LegacyKind::User => {
                                assert(st1.user_principals[st1.user_principals.len() - 1] == key);
                            },
                            LegacyKind::Group => {
                                assert(st1.group_principals[st1.group_principals.len() - 1] == key);
                            },
                        }
                    }
                }
                let (st2, ops2) = ensure_edge_step(st1, target_table, from, en.principal);
                let e = EdgeView { table: target_table, from, to: en.principal };
                lemma_has_target_contains(st1.edges, target_table, from, en.principal);
                if !has_target(targets_of(st1.edges, target_table, from), en.principal) {
                    assert(st2.edges.take(st1.edges.len() as int) =~= st1.edges);
                    assert(st2.edges[st2.edges.len() - 1] == e);
                    assert(extends(st1, st2));
                    lemma_extends_trans(st, st1, st2);
                    match kind {
                        LegacyKind::User => {
                            assert(st2.user_principals.contains(key));
                        },
                        LegacyKind::Group => {
                            assert(st2.group_principals.contains(key));
                        },
                    }
                } else {
                    assert(st2 == st1);
                }
            },
        }
    }
}

proof fn lemma_run_targets(
    kind: LegacyKind,
    st: StoreView,
    target_table: Seq<char>,
    from: RecordIdView,
    outs: Seq<RecordIdView>,
)
    requires
        is_target_table(target_table),
    ensures
        extends(st, run_targets(kind, st, target_table, from, outs).store),
        run_targets(kind, st, target_table, from, outs).err is None ==> forall|i: int|
            0 <= i < outs.len() ==> settled(
                kind,
                run_targets(kind, st, target_table, from, outs).store,
                target_table,
                from,
                #[trigger] outs[i],
            ),
    decreases outs.len(),
{
    if outs.len() == 0 {
        lemma_extends_refl(st);
    } else {
        let d = outs.drop_last();
        lemma_run_targets(kind, st, target_table, from, d);
        let o = run_targets(kind, st, target_table, from, d);
        if o.err is None {
            let last = outs.last();
            lemma_target_step(kind, o.store, target_table, from, last);
            let o2 = target_step(kind, o.store, target_table, from, last);
            lemma_extends_trans(st, o.store, o2.store);
            if o2.err is None {
                assert forall|i: int| 0 <= i < outs.len() implies settled(
                    kind,
                    o2.store,
                    target_table,
                    from,
                    #[trigger] outs[i],
                ) by {
                    if i < d.len() {
                        assert(outs[i] == d[i]);
                        lemma_settled_monotone(kind, o.store, o2.store, target_table, from, d[i]);
                    }
                }
            }
        }
    }
}

/// Whether every legacy target of every source is settled in `st`.
pub open spec fn pass_settled(
    kind: LegacyKind,
    st: StoreView,
    sources: Seq<RecordIdView>,
    source_table: Seq<char>,
    target_table: Seq<char>,
    base: StoreView,
) -> bool {
    forall|j: int, i: int|
        0 <= j < sources.len() && 0 <= i < targets_of(base.edges, source_table, sources[j]).len()
            ==> settled(
            kind,
            st,
            target_table,
            sources[j],
            #[trigger] targets_of(base.edges, source_table, sources[j])[i],
        )
}

proof fn lemma_run_sources(
    kind: LegacyKind,
    st: StoreView,
    sources: Seq<RecordIdView>,
    source_table: Seq<char>,
    target_table: Seq<char>,
)
    requires
        is_target_table(target_table),
        !is_target_table(source_table),
    ensures
        extends(st, run_sources(kind, st, sources, source_table, target_table).store),
        run_sources(kind, st, sources, source_table, target_table).err is None ==> pass_settled(
            kind,
            run_sources(kind, st, sources, source_table, target_table).store,
            sources,
            source_table,
            target_table,
            st,
        ),
    decreases sources.len(),
{
    if sources.len() == 0 {
        lemma_extends_refl(st);
    } else {
        let d = sources.drop_last();
        lemma_run_sources(kind, st, d, source_table, target_table);
        let o = run_sources(kind, st, d, source_table, target_table);
        if o.err is None {
            let from = sources.last();
            lemma_targets_stable(st, o.store, source_table, from);
            let outs = targets_of(o.store.edges, source_table, from);
            lemma_run_targets(kind, o.store, target_table, from, outs);
            let o2 = run_targets(kind, o.store, target_table, from, outs);
            lemma_extends_trans(st, o.store, o2.store);
            if o2.err is None {
                assert forall|j: int, i: int|
                    0 <= j < sources.len() && 0 <= i < targets_of(st.edges, source_table, sources[j]).len()
                        implies settled(
                    kind,
                    o2.store,
                    target_table,
                    sources[j],
                    #[trigger] targets_of(st.edges, source_table, sources[j])[i],
                ) by {
                    if j < d.len() {
                        assert(sources[j] == d[j]);
                        lemma_settled_monotone(
                            kind,
                            o.store,
                            o2.store,
                            target_table,
                            sources[j],
                            targets_of(st.edges, source_table, d[j])[i],
                        );
                    } else {
                        assert(outs[i] == targets_of(st.edges, source_table, sources[j])[i]);
                    }
                }
            }
        }
    }
}

proof fn lemma_quiet_targets(
    kind: LegacyKind,
    st: StoreView,
    target_table: Seq<char>,
    from: RecordIdView,
    outs: Seq<RecordIdView>,
)
    requires
        forall|i: int| 0 <= i < outs.len() ==> settled(kind, st, target_table, from, #[trigger] outs[i]),
    ensures
        run_targets(kind, st, target_table, from, outs) == (Outcome {
            store: st,
            ops: Seq::empty(),
            err: None,
        }),
    decreases outs.len(),
{
    if outs.len() > 0 {
        let d = outs.drop_last();
        assert forall|i: int| 0 <= i < d.len() implies settled(kind, st, target_table, from, #[trigger] d[i]) by {
            assert(d[i] == outs[i]);
        }
        lemma_quiet_targets(kind, st, target_table, from, d);
        let last = outs.last();
        assert(settled(kind, st, target_table, from, outs[outs.len() - 1]));
        if last.table == kind_table(kind) && last.id.len() > 0 {
            let key = principal_key(kind, last.id);
            let pr = RecordIdView { table: principal_table(kind), id: key };
            lemma_has_target_contains(st.edges, target_table, from, pr);
            assert(Seq::<OpView>::empty() + Seq::<OpView>::empty() =~= Seq::<OpView>::empty());
        }
        assert(Seq::<OpView>::empty() + Seq::<OpView>::empty() =~= Seq::<OpView>::empty());
    }
}

proof fn lemma_quiet_sources(
    kind: LegacyKind,
    st: StoreView,
    sources: Seq<RecordIdView>,
    source_table: Seq<char>,
    target_table: Seq<char>,
)
    requires
        pass_settled(kind, st, sources, source_table, target_table, st),
    ensures
        run_sources(kind, st, sources, source_table, target_table) == (Outcome {
            store: st,
            ops: Seq::empty(),
            err: None,
        }),
    decreases sources.len(),
{
    if sources.len() > 0 {
        let d = sources.drop_last();
        assert forall|j: int, i: int|
            0 <= j < d.len() && 0 <= i < targets_of(st.edges, source_table, d[j]).len() implies settled(
            kind,
            st,
            target_table,
            d[j],
            #[trigger] targets_of(st.edges, source_table, d[j])[i],
        ) by {
            assert(d[j] == sources[j]);
        }
        lemma_quiet_sources(kind, st, d, source_table, target_table);
        let from = sources.last();
        let outs = targets_of(st.edges, source_table, from);
        assert forall|i: int| 0 <= i < outs.len() implies settled(kind, st, target_table, from, #[trigger] outs[i]) by {
            assert(sources[sources.len() - 1] == from);
        }
        lemma_quiet_targets(kind, st, target_table, from, outs);
        assert(Seq::<OpView>::empty() + Seq::<OpView>::empty() =~= Seq::<OpView>::empty());
    }
}

proof fn lemma_tables()
    ensures
        is_target_table("permission_allowed_principal"@),
        is_target_table("permission_group_owner_principal"@),
        is_target_table("permission_group_member_principal"@),
        !is_target_table("permission_allowed_user"@),
        !is_target_table("permission_allowed_group"@),
        !is_target_table("permission_group_owner_user"@),
        !is_target_table("permission_group_member_user"@),
        !is_target_table("permission_group_member_group"@),
{
    reveal_strlit("permission_allowed_principal");
    reveal_strlit("permission_group_owner_principal");
    reveal_strlit("permission_group_member_principal");
    reveal_strlit("permission_allowed_user");
    reveal_strlit("permission_allowed_group");
    reveal_strlit("permission_group_owner_user");
    reveal_strlit("permission_group_member_user");
    reveal_strlit("permission_group_member_group");
    assert("permission_allowed_user"@.len() != "permission_allowed_principal"@.len());
    assert("permission_allowed_user"@.len() != "permission_group_owner_principal"@.len());
    assert("permission_allowed_user"@.len() != "permission_group_member_principal"@.len());
    assert("permission_allowed_group"@.len() != "permission_allowed_principal"@.len());
    assert("permission_allowed_group"@.len() != "permission_group_owner_principal"@.len());
    assert("permission_allowed_group"@.len() != "permission_group_member_principal"@.len());
    assert("permission_group_owner_user"@.len() != "permission_allowed_principal"@.len());
    assert("permission_group_owner_user"@.len() != "permission_group_owner_principal"@.len());
    assert("permission_group_owner_user"@.len() != "permission_group_member_principal"@.len());
    assert("permission_group_member_user"@[11] != "permission_allowed_principal"@[11]);
    assert("permission_group_member_user"@.len() != "permission_group_owner_principal"@.len());
    assert("permission_group_member_user"@.len() != "permission_group_member_principal"@.len());
    assert("permission_group_member_group"@.len() != "permission_allowed_principal"@.len());
    assert("permission_group_member_group"@.len() != "permission_group_owner_principal"@.len());
    assert("permission_group_member_group"@.len() != "permission_group_member_principal"@.len());
}

/// One pass of a successful first run leaves its copies settled in any later store that
/// extends it.
proof fn lemma_pass_holds(
    kind: LegacyKind,
    before: StoreView,
    sources: Seq<RecordIdView>,
    source_table: Seq<char>,
    target_table: Seq<char>,
    fin: StoreView,
)
    requires
        is_target_table(target_table),
        !is_target_table(source_table),
        run_sources(kind, before, sources, source_table, target_table).err is None,
        extends(run_sources(kind, before, sources, source_table, target_table).store, fin),
    ensures
        extends(before, fin),
        pass_settled(kind, fin, sources, source_table, target_table, fin),
{
    lemma_run_sources(kind, before, sources, source_table, target_table);
    let after = run_sources(kind, before, sources, source_table, target_table).store;
    lemma_extends_trans(before, after, fin);
    assert forall|j: int, i: int|
        0 <= j < sources.len() && 0 <= i < targets_of(fin.edges, source_table, sources[j]).len()
            implies settled(
        kind,
        fin,
        target_table,
        sources[j],
        #[trigger] targets_of(fin.edges, source_table, sources[j])[i],
    ) by {
        lemma_targets_stable(before, fin, source_table, sources[j]);
        lemma_settled_monotone(
            kind,
            after,
            fin,
            target_table,
            sources[j],
            targets_of(before.edges, source_table, sources[j])[i],
        );
    }
}

proof fn lemma_then_pass_extends(
    o: Outcome,
    kind: LegacyKind,
    sources: Seq<RecordIdView>,
    source_table: Seq<char>,
    target_table: Seq<char>,
)
    requires
        is_target_table(target_table),
        !is_target_table(source_table),
    ensures
        extends(o.store, then_pass(o, kind, sources, source_table, target_table).store),
{
    if o.err is Some {
        lemma_extends_refl(o.store);
    } else {
        lemma_run_sources(kind, o.store, sources, source_table, target_table);
    }
}

/// The migration only adds to the store, whether it succeeds or stops at a missing row:
/// users and groups stay as they were, every principal stays, the existing edges stay in
/// place, and every added edge is a unified principal edge.
pub proof fn lemma_migration_only_grows(
    st: StoreView,
    perms: Seq<RecordIdView>,
    groups: Seq<RecordIdView>,
)
    ensures
        extends(st, migration(st, perms, groups).store),
{
    lemma_tables();
    let o0 = Outcome { store: st, ops: Seq::empty(), err: None };
    let o1 = then_pass(o0, LegacyKind::User, perms, "permission_allowed_user"@, "permission_allowed_principal"@);
    let o2 = then_pass(o1, LegacyKind::Group, perms, "permission_allowed_group"@, "permission_allowed_principal"@);
    let o3 = then_pass(o2, LegacyKind::User, groups, "permission_group_owner_user"@, "permission_group_owner_principal"@);
    let o4 = then_pass(o3, LegacyKind::User, groups, "permission_group_member_user"@, "permission_group_member_principal"@);
    let o5 = then_pass(o4, LegacyKind::Group, groups, "permission_group_member_group"@, "permission_group_member_principal"@);
    lemma_then_pass_extends(o0, LegacyKind::User, perms, "permission_allowed_user"@, "permission_allowed_principal"@);
    lemma_then_pass_extends(o1, LegacyKind::Group, perms, "permission_allowed_group"@, "permission_allowed_principal"@);
    lemma_then_pass_extends(o2, LegacyKind::User, groups, "permission_group_owner_user"@, "permission_group_owner_principal"@);
    lemma_then_pass_extends(o3, LegacyKind::User, groups, "permission_group_member_user"@, "permission_group_member_principal"@);
    lemma_then_pass_extends(o4, LegacyKind::Group, groups, "permission_group_member_group"@, "permission_group_member_principal"@);
    lemma_extends_trans(st, o1.store, o2.store);
    lemma_extends_trans(st, o2.store, o3.store);
    lemma_extends_trans(st, o3.store, o4.store);
    lemma_extends_trans(st, o4.store, o5.store);
}

proof fn lemma_pass_carries(
    kind: LegacyKind,
    st: StoreView,
    fin: StoreView,
    sources: Seq<RecordIdView>,
    legacy: Seq<char>,
    unified: Seq<char>,
)
    requires
        extends(st, fin),
        pass_settled(kind, fin, sources, legacy, unified, fin),
    ensures
        forall|j: int, id: Seq<char>|
            0 <= j < sources.len() && id.len() > 0 && #[trigger] st.edges.contains(
                EdgeView { table: legacy, from: sources[j], to: RecordIdView { table: kind_table(kind), id } },
            ) ==> fin.edges.contains(
                EdgeView {
                    table: unified,
                    from: sources[j],
                    to: RecordIdView { table: principal_table(kind), id: principal_key(kind, id) },
                },
            ),
{
    assert forall|j: int, id: Seq<char>|
        0 <= j < sources.len() && id.len() > 0 && #[trigger] st.edges.contains(
            EdgeView { table: legacy, from: sources[j], to: RecordIdView { table: kind_table(kind), id } },
        ) implies fin.edges.contains(
        EdgeView {
            table: unified,
            from: sources[j],
            to: RecordIdView { table: principal_table(kind), id: principal_key(kind, id) },
        },
    ) by {
        let to = RecordIdView { table: kind_table(kind), id };
        let e = EdgeView { table: legacy, from: sources[j], to };
        let k = choose|k: int| 0 <= k < st.edges.len() && st.edges[k] == e;
        assert(fin.edges.take(st.edges.len() as int)[k] == e);
        assert(fin.edges[k] == e);
        lemma_has_target_contains(fin.edges, legacy, sources[j], to);
        let ts = targets_of(fin.edges, legacy, sources[j]);
        let i = choose|i: int| 0 <= i < ts.len() && #[trigger] ts[i] == to;
        assert(settled(kind, fin, unified, sources[j], ts[i]));
    }
}

/// A migration that finishes carries every legacy edge from a migrated permission or group
/// to a user or group onto the unified table paired with the legacy one, pointing at that
/// user's or group's principal: allowed user and allowed group onto allowed principal,
/// owner user onto owner principal, member user and member group onto member principal.
pub proof fn lemma_migration_carries_legacy_edges(
    st: StoreView,
    perms: Seq<RecordIdView>,
    groups: Seq<RecordIdView>,
)
    requires
        migration(st, perms, groups).err is None,
    ensures
        forall|j: int, u: Seq<char>|
            0 <= j < perms.len() && u.len() > 0 && #[trigger] st.edges.contains(
                EdgeView {
                    table: "permission_allowed_user"@,
                    from: perms[j],
                    to: RecordIdView { table: "user"@, id: u },
                },
            ) ==> migration(st, perms, groups).store.edges.contains(
                EdgeView {
                    table: "permission_allowed_principal"@,
                    from: perms[j],
                    to: RecordIdView { table: "permission_user_principal"@, id: user_principal_key(u) },
                },
            ),
        forall|j: int, h: Seq<char>|
            0 <= j < perms.len() && h.len() > 0 && #[trigger] st.edges.contains(
                EdgeView {
                    table: "permission_allowed_group"@,
                    from: perms[j],
                    to: RecordIdView { table: "permission_group"@, id: h },
                },
            ) ==> migration(st, perms, groups).store.edges.contains(
                EdgeView {
                    table: "permission_allowed_principal"@,
                    from: perms[j],
                    to: RecordIdView { table: "permission_group_principal"@, id: group_principal_key(h) },
                },
            ),
        forall|j: int, u: Seq<char>|
            0 <= j < groups.len() && u.len() > 0 && #[trigger] st.edges.contains(
                EdgeView {
                    table: "permission_group_owner_user"@,
                    from: groups[j],
                    to: RecordIdView { table: "user"@, id: u },
                },
            ) ==> migration(st, perms, groups).store.edges.contains(
                EdgeView {
                    table: "permission_group_owner_principal"@,
                    from: groups[j],
                    to: RecordIdView { table: "permission_user_principal"@, id: user_principal_key(u) },
                },
            ),
        forall|j: int, u: Seq<char>|
            0 <= j < groups.len() && u.len() > 0 && #[trigger] st.edges.contains(
                EdgeView {
                    table: "permission_group_member_user"@,
                    from: groups[j],
                    to: RecordIdView { table: "user"@, id: u },
                },
            ) ==> migration(st, perms, groups).store.edges.contains(
                EdgeView {
                    table: "permission_group_member_principal"@,
                    from: groups[j],
                    to: RecordIdView { table: "permission_user_principal"@, id: user_principal_key(u) },
                },
            ),
        forall|j: int, h: Seq<char>|
            0 <= j < groups.len() && h.len() > 0 && #[trigger] st.edges.contains(
                EdgeView {
                    table: "permission_group_member_group"@,
                    from: groups[j],
                    to: RecordIdView { table: "permission_group"@, id: h },
                },
            ) ==> migration(st, perms, groups).store.edges.contains(
                EdgeView {
                    table: "permission_group_member_principal"@,
                    from: groups[j],
                    to: RecordIdView { table: "permission_group_principal"@, id: group_principal_key(h) },
                },
            ),
{
    lemma_tables();
    let o0 = Outcome { store: st, ops: Seq::empty(), err: None };
    let o1 = then_pass(o0, LegacyKind::User, perms, "permission_allowed_user"@, "permission_allowed_principal"@);
    let o2 = then_pass(o1, LegacyKind::Group, perms, "permission_allowed_group"@, "permission_allowed_principal"@);
    let o3 = then_pass(o2, LegacyKind::User, groups, "permission_group_owner_user"@, "permission_group_owner_principal"@);
    let o4 = then_pass(o3, LegacyKind::User, groups, "permission_group_member_user"@, "permission_group_member_principal"@);
    let o5 = then_pass(o4, LegacyKind::Group, groups, "permission_group_member_group"@, "permission_group_member_principal"@);
    let fin = o5.store;
    assert(o4.err is None && o3.err is None && o2.err is None && o1.err is None);
    lemma_extends_refl(fin);
    lemma_pass_holds(LegacyKind::Group, o4.store, groups, "permission_group_member_group"@, "permission_group_member_principal"@, fin);
    lemma_pass_holds(LegacyKind::User, o3.store, groups, "permission_group_member_user"@, "permission_group_member_principal"@, fin);
    lemma_pass_holds(LegacyKind::User, o2.store, groups, "permission_group_owner_user"@, "permission_group_owner_principal"@, fin);
    lemma_pass_holds(LegacyKind::Group, o1.store, perms, "permission_allowed_group"@, "permission_allowed_principal"@, fin);
    lemma_pass_holds(LegacyKind::User, st, perms, "permission_allowed_user"@, "permission_allowed_principal"@, fin);
    lemma_pass_carries(LegacyKind::User, st, fin, perms, "permission_allowed_user"@, "permission_allowed_principal"@);
    lemma_pass_carries(LegacyKind::Group, st, fin, perms, "permission_allowed_group"@, "permission_allowed_principal"@);
    lemma_pass_carries(LegacyKind::User, st, fin, groups, "permission_group_owner_user"@, "permission_group_owner_principal"@);
    lemma_pass_carries(LegacyKind::User, st, fin, groups, "permission_group_member_user"@, "permission_group_member_principal"@);
    lemma_pass_carries(LegacyKind::Group, st, fin, groups, "permission_group_member_group"@, "permission_group_member_principal"@);
}

/// Running the migration again over the store a successful run leaves writes nothing and
/// changes nothing.
pub proof fn lemma_migration_idempotent(
    st: StoreView,
    perms: Seq<RecordIdView>,
    groups: Seq<RecordIdView>,
)
    requires
        migration(st, perms, groups).err is None,
    ensures
        migration(migration(st, perms, groups).store, perms, groups) == (Outcome {
            store: migration(st, perms, groups).store,
            ops: Seq::empty(),
            err: None,
        }),
{
    lemma_tables();
    let o0 = Outcome { store: st, ops: Seq::empty(), err: None };
    let o1 = then_pass(o0, LegacyKind::User, perms, "permission_allowed_user"@, "permission_allowed_principal"@);
    let o2 = then_pass(o1, LegacyKind::Group, perms, "permission_allowed_group"@, "permission_allowed_principal"@);
    let o3 = then_pass(o2, LegacyKind::User, groups, "permission_group_owner_user"@, "permission_group_owner_principal"@);
    let o4 = then_pass(o3, LegacyKind::User, groups, "permission_group_member_user"@, "permission_group_member_principal"@);
    let o5 = then_pass(o4, LegacyKind::Group, groups, "permission_group_member_group"@, "permission_group_member_principal"@);
    let fin = o5.store;
    assert(o4.err is None && o3.err is None && o2.err is None && o1.err is None);
    lemma_extends_refl(fin);
    lemma_extends_refl(o4.store);
    lemma_extends_refl(o3.store);
    lemma_extends_refl(o2.store);
    lemma_extends_refl(o1.store);
    lemma_pass_holds(LegacyKind::Group, o4.store, groups, "permission_group_member_group"@, "permission_group_member_principal"@, fin);
    lemma_pass_holds(LegacyKind::User, o3.store, groups, "permission_group_member_user"@, "permission_group_member_principal"@, o4.store);
    lemma_pass_holds(LegacyKind::User, o3.store, groups, "permission_group_member_user"@, "permission_group_member_principal"@, fin);
    lemma_pass_holds(LegacyKind::User, o2.store, groups, "permission_group_owner_user"@, "permission_group_owner_principal"@, o3.store);
    lemma_pass_holds(LegacyKind::User, o2.store, groups, "permission_group_owner_user"@, "permission_group_owner_principal"@, fin);
    lemma_pass_holds(LegacyKind::Group, o1.store, perms, "permission_allowed_group"@, "permission_allowed_principal"@, o2.store);
    lemma_pass_holds(LegacyKind::Group, o1.store, perms, "permission_allowed_group"@, "permission_allowed_principal"@, fin);
    lemma_pass_holds(LegacyKind::User, st, perms, "permission_allowed_user"@, "permission_allowed_principal"@, o1.store);
    lemma_pass_holds(LegacyKind::User, st, perms, "permission_allowed_user"@, "permission_allowed_principal"@, fin);
    lemma_quiet_sources(LegacyKind::User, fin, perms, "permission_allowed_user"@, "permission_allowed_principal"@);
    lemma_quiet_sources(LegacyKind::Group, fin, perms, "permission_allowed_group"@, "permission_allowed_principal"@);
    lemma_quiet_sources(LegacyKind::User, fin, groups, "permission_group_owner_user"@, "permission_group_owner_principal"@);
    lemma_quiet_sources(LegacyKind::User, fin, groups, "permission_group_member_user"@, "permission_group_member_principal"@);
    lemma_quiet_sources(LegacyKind::Group, fin, groups, "permission_group_member_group"@, "permission_group_member_principal"@);
    assert(Seq::<OpView>::empty() + Seq::<OpView>::empty() =~= Seq::<OpView>::empty());
}

} // verus!
