use vstd::prelude::*;
use crate::ids::RIdV;
use crate::statements::StmtV;

verus! {

/// A resource record of the graph model: the first-seen/last-seen pair and
/// the merged attribute map.
pub struct ResourceRec {
    pub first_seen_at: i64,
    pub last_seen_at: i64,
    pub attrs: Map<Seq<u8>, Seq<u8>>,
}

/// An edge record (containment or event): its own first-seen/last-seen pair,
/// independent of the records it connects.
pub struct EdgeRec {
    pub first_seen_at: i64,
    pub last_seen_at: i64,
}

/// A report-key record.
pub struct KeyRec {
    pub description: Option<Seq<u8>>,
    pub created_by: u128,
    pub revoked_at: Option<i64>,
    pub revoked_by: Option<u128>,
}

/// One tenant's graph state as the backing store holds it. The meaning of a
/// compiled statement list is a transformation of this state.
pub struct GraphState {
    pub resources: Map<RIdV, ResourceRec>,
    pub contains: Map<(RIdV, RIdV), EdgeRec>,
    pub events: Map<(RIdV, RIdV, Seq<u8>), EdgeRec>,
    pub report_keys: Map<u32, KeyRec>,
}

/// Attribute pairs as a map, later pairs overwriting earlier ones per key.
pub open spec fn attrs_map(attrs: Seq<(Seq<u8>, Seq<u8>)>) -> Map<Seq<u8>, Seq<u8>> {
    crate::assoc::pairs_to_map(attrs)
}

/// Whether a statement fails against state `g`: only a create on an existing
/// key id does; every upsert succeeds.
pub open spec fn stmt_fails(g: GraphState, s: StmtV) -> bool {
    match s {
        StmtV::CreateReportKey { key_id, .. } => g.report_keys.dom().contains(key_id),
        _ => false,
    }
}

/// The effect of one successfully executed statement: `last_seen_at` is
/// overwritten on every upsert of an existing record, `first_seen_at` is
/// never modified after creation, attribute maps are merged per key, and a
/// merge against an absent record changes nothing (the compilers only emit a
/// merge after the record's own upsert). A failing create leaves the state
/// unchanged.
pub open spec fn apply_stmt(g: GraphState, s: StmtV) -> GraphState {
    match s {
        StmtV::UpsertResource { id, first_seen_at, last_seen_at } => {
            if g.resources.dom().contains(id) {
                GraphState {
                    resources: g.resources.insert(
                        id,
                        ResourceRec {
                            first_seen_at: g.resources[id].first_seen_at,
                            last_seen_at,
                            attrs: g.resources[id].attrs,
                        },
                    ),
                    ..g
                }
            } else {
                GraphState {
                    resources: g.resources.insert(
                        id,
                        ResourceRec {
                            first_seen_at,
                            last_seen_at,
                            attrs: Map::<Seq<u8>, Seq<u8>>::empty(),
                        },
                    ),
                    ..g
                }
            }
        },
        StmtV::MergeResourceAttributes { id, attributes } => {
            if g.resources.dom().contains(id) {
                GraphState {
                    resources: g.resources.insert(
                        id,
                        ResourceRec {
                            first_seen_at: g.resources[id].first_seen_at,
                            last_seen_at: g.resources[id].last_seen_at,
                            attrs: g.resources[id].attrs.union_prefer_right(attrs_map(attributes)),
                        },
                    ),
                    ..g
                }
            } else {
                g
            }
        },
        StmtV::UpsertContainsEdge { parent, child, first_seen_at, last_seen_at } => {
            let k = (parent, child);
            if g.contains.dom().contains(k) {
                GraphState {
                    contains: g.contains.insert(
                        k,
                        EdgeRec { first_seen_at: g.contains[k].first_seen_at, last_seen_at },
                    ),
                    ..g
                }
            } else {
                GraphState {
                    contains: g.contains.insert(k, EdgeRec { first_seen_at, last_seen_at }),
                    ..g
                }
            }
        },
        StmtV::UpsertEventEdge { principal, target, event_type, first_seen_at, last_seen_at } => {
            let k = (principal, target, event_type);
            if g.events.dom().contains(k) {
                GraphState {
                    events: g.events.insert(
                        k,
                        EdgeRec { first_seen_at: g.events[k].first_seen_at, last_seen_at },
                    ),
                    ..g
                }
            } else {
                GraphState {
                    events: g.events.insert(k, EdgeRec { first_seen_at, last_seen_at }),
                    ..g
                }
            }
        },
        StmtV::CreateReportKey { key_id, description, created_by } => {
            if g.report_keys.dom().contains(key_id) {
                g
            } else {
                GraphState {
                    report_keys: g.report_keys.insert(
                        key_id,
                        KeyRec { description, created_by, revoked_at: None, revoked_by: None },
                    ),
                    ..g
                }
            }
        },
    }
}

/// State after executing `ss[i..]` in order.
pub open spec fn apply_stmts(g: GraphState, ss: Seq<StmtV>, i: int) -> GraphState
    decreases ss.len() - i,
{
    if i < 0 || i >= ss.len() {
        g
    } else {
        apply_stmts(apply_stmt(g, ss[i]), ss, i + 1)
    }
}

/// Index and offending key id of the first failing statement of `ss[i..]`
/// when executed from `g`, if any.
pub open spec fn first_failure(g: GraphState, ss: Seq<StmtV>, i: int) -> Option<(int, u32)>
    decreases ss.len() - i,
{
    if i < 0 || i >= ss.len() {
        None
    } else if stmt_fails(g, ss[i]) {
        match ss[i] {
            StmtV::CreateReportKey { key_id, .. } => Some((i, key_id)),
            _ => None,
        }
    } else {
        first_failure(apply_stmt(g, ss[i]), ss, i + 1)
    }
}

// Per-key projections of the state.

pub open spec fn res_of(g: GraphState, k: RIdV) -> Option<ResourceRec> {
    if g.resources.dom().contains(k) {
        Some(g.resources[k])
    } else {
        None
    }
}

pub open spec fn cont_of(g: GraphState, k: (RIdV, RIdV)) -> Option<EdgeRec> {
    if g.contains.dom().contains(k) {
        Some(g.contains[k])
    } else {
        None
    }
}

pub open spec fn ev_of(g: GraphState, k: (RIdV, RIdV, Seq<u8>)) -> Option<EdgeRec> {
    if g.events.dom().contains(k) {
        Some(g.events[k])
    } else {
        None
    }
}

// Per-key summaries of what a statement suffix writes.

pub open spec fn is_res_upsert(s: StmtV, k: RIdV) -> bool {
    match s {
        StmtV::UpsertResource { id, .. } => id == k,
        _ => false,
    }
}

pub open spec fn is_res_merge(s: StmtV, k: RIdV) -> bool {
    match s {
        StmtV::MergeResourceAttributes { id, .. } => id == k,
        _ => false,
    }
}

/// Whether `ss[i..]` upserts the resource record `k`.
pub open spec fn res_writes(ss: Seq<StmtV>, i: int, k: RIdV) -> bool
    decreases ss.len() - i,
{
    if i < 0 || i >= ss.len() {
        false
    } else {
        is_res_upsert(ss[i], k) || res_writes(ss, i + 1, k)
    }
}

/// `first_seen_at` of the first resource upsert of `k` in `ss[i..]`.
pub open spec fn res_first_write(ss: Seq<StmtV>, i: int, k: RIdV) -> i64
    decreases ss.len() - i,
{
    if i < 0 || i >= ss.len() {
        0
    } else if is_res_upsert(ss[i], k) {
        ss[i]->UpsertResource_first_seen_at
    } else {
        res_first_write(ss, i + 1, k)
    }
}

/// `last_seen_at` of the last resource upsert of `k` in `ss[i..]`.
pub open spec fn res_last_write(ss: Seq<StmtV>, i: int, k: RIdV) -> i64
    decreases ss.len() - i,
{
    if i < 0 || i >= ss.len() {
        0
    } else if is_res_upsert(ss[i], k) && !res_writes(ss, i + 1, k) {
        ss[i]->UpsertResource_last_seen_at
    } else {
        res_last_write(ss, i + 1, k)
    }
}

/// The combined attribute map of every merge for `k` in `ss[i..]`, later
/// merges overwriting earlier ones per attribute key.
pub open spec fn res_merges(ss: Seq<StmtV>, i: int, k: RIdV) -> Map<Seq<u8>, Seq<u8>>
    decreases ss.len() - i,
{
    if i < 0 || i >= ss.len() {
        Map::<Seq<u8>, Seq<u8>>::empty()
    } else if is_res_merge(ss[i], k) {
        attrs_map(ss[i]->MergeResourceAttributes_attributes).union_prefer_right(
            res_merges(ss, i + 1, k),
        )
    } else {
        res_merges(ss, i + 1, k)
    }
}

/// The combined attribute map of the merges for `k` at or after the first
/// upsert of `k` in `ss[i..]` (merges before it find no record and are
/// dropped).
pub open spec fn res_merges_after(ss: Seq<StmtV>, i: int, k: RIdV) -> Map<Seq<u8>, Seq<u8>>
    decreases ss.len() - i,
{
    if i < 0 || i >= ss.len() {
        Map::<Seq<u8>, Seq<u8>>::empty()
    } else if is_res_upsert(ss[i], k) {
        res_merges(ss, i + 1, k)
    } else {
        res_merges_after(ss, i + 1, k)
    }
}

/// Closed form of the resource record `k` after `ss[i..]`, starting from
/// `cur`: `first_seen_at` is kept from the oldest observation, `last_seen_at`
/// is the newest write's, and attributes accumulate per key.
pub open spec fn res_result(ss: Seq<StmtV>, i: int, k: RIdV, cur: Option<ResourceRec>) -> Option<
    ResourceRec,
> {
    match cur {
        None => {
            if res_writes(ss, i, k) {
                Some(
                    ResourceRec {
                        first_seen_at: res_first_write(ss, i, k),
                        last_seen_at: res_last_write(ss, i, k),
                        attrs: res_merges_after(ss, i, k),
                    },
                )
            } else {
                None
            }
        },
        Some(r) => Some(
            ResourceRec {
                first_seen_at: r.first_seen_at,
                last_seen_at: if res_writes(ss, i, k) {
                    res_last_write(ss, i, k)
                } else {
                    r.last_seen_at
                },
                attrs: r.attrs.union_prefer_right(res_merges(ss, i, k)),
            },
        ),
    }
}

/// Characterization: executing `ss[i..]` acts on each resource record as its
/// closed form says.
pub proof fn lemma_res_char(g: GraphState, ss: Seq<StmtV>, i: int, k: RIdV)
    ensures
        res_of(apply_stmts(g, ss, i), k) == res_result(ss, i, k, res_of(g, k)),
    decreases ss.len() - i,
{
    if i < 0 || i >= ss.len() {
        match res_of(g, k) {
            None => {
            },
            Some(r) => {
                assert(r.attrs.union_prefer_right(Map::<Seq<u8>, Seq<u8>>::empty()) =~= r.attrs);
            },
        }
    } else {
        let g2 = apply_stmt(g, ss[i]);
        lemma_res_char(g2, ss, i + 1, k);
        match ss[i] {
            StmtV::UpsertResource { id, first_seen_at, last_seen_at } => {
                if id == k {
                    match res_of(g, k) {
                        None => {
                            assert(res_of(g2, k) == Some(
                                ResourceRec {
                                    first_seen_at,
                                    last_seen_at,
                                    attrs: Map::<Seq<u8>, Seq<u8>>::empty(),
                                },
                            ));
                            assert(Map::<Seq<u8>, Seq<u8>>::empty().union_prefer_right(
                                res_merges(ss, i + 1, k),
                            ) =~= res_merges(ss, i + 1, k));
                        },
                        Some(r) => {
                        },
                    }
                } else {
                    assert(res_of(g2, k) == res_of(g, k));
                }
            },
            StmtV::MergeResourceAttributes { id, attributes } => {
                if id == k {
                    match res_of(g, k) {
                        None => {
                            assert(res_of(g2, k) == res_of(g, k));
                        },
                        Some(r) => {
                            assert(r.attrs.union_prefer_right(attrs_map(attributes)).union_prefer_right(
                                res_merges(ss, i + 1, k),
                            ) =~= r.attrs.union_prefer_right(
                                attrs_map(attributes).union_prefer_right(res_merges(ss, i + 1, k)),
                            ));
                        },
                    }
                } else {
                    assert(res_of(g2, k) == res_of(g, k));
                }
            },
            StmtV::UpsertContainsEdge { .. } => {
                assert(res_of(g2, k) == res_of(g, k));
            },
            StmtV::UpsertEventEdge { .. } => {
                assert(res_of(g2, k) == res_of(g, k));
            },
            StmtV::CreateReportKey { .. } => {
                assert(res_of(g2, k) == res_of(g, k));
            },
        }
    }
}

// The same, for containment and event edges.

pub open spec fn is_cont_upsert(s: StmtV, k: (RIdV, RIdV)) -> bool {
    match s {
        StmtV::UpsertContainsEdge { parent, child, .. } => (parent, child) == k,
        _ => false,
    }
}

pub open spec fn is_ev_upsert(s: StmtV, k: (RIdV, RIdV, Seq<u8>)) -> bool {
    match s {
        StmtV::UpsertEventEdge { principal, target, event_type, .. } => (
        principal,
        target,
        event_type,
        ) == k,
        _ => false,
    }
}

pub open spec fn stmt_first_seen(s: StmtV) -> i64 {
    match s {
        StmtV::UpsertResource { first_seen_at, .. } => first_seen_at,
        StmtV::UpsertContainsEdge { first_seen_at, .. } => first_seen_at,
        StmtV::UpsertEventEdge { first_seen_at, .. } => first_seen_at,
        _ => 0,
    }
}

pub open spec fn stmt_last_seen(s: StmtV) -> i64 {
    match s {
        StmtV::UpsertResource { last_seen_at, .. } => last_seen_at,
        StmtV::UpsertContainsEdge { last_seen_at, .. } => last_seen_at,
        StmtV::UpsertEventEdge { last_seen_at, .. } => last_seen_at,
        _ => 0,
    }
}

pub open spec fn cont_writes(ss: Seq<StmtV>, i: int, k: (RIdV, RIdV)) -> bool
    decreases ss.len() - i,
{
    if i < 0 || i >= ss.len() {
        false
    } else {
        is_cont_upsert(ss[i], k) || cont_writes(ss, i + 1, k)
    }
}

pub open spec fn cont_first_write(ss: Seq<StmtV>, i: int, k: (RIdV, RIdV)) -> i64
    decreases ss.len() - i,
{
    if i < 0 || i >= ss.len() {
        0
    } else if is_cont_upsert(ss[i], k) {
        stmt_first_seen(ss[i])
    } else {
        cont_first_write(ss, i + 1, k)
    }
}

pub open spec fn cont_last_write(ss: Seq<StmtV>, i: int, k: (RIdV, RIdV)) -> i64
    decreases ss.len() - i,
{
    if i < 0 || i >= ss.len() {
        0
    } else if is_cont_upsert(ss[i], k) && !cont_writes(ss, i + 1, k) {
        stmt_last_seen(ss[i])
    } else {
        cont_last_write(ss, i + 1, k)
    }
}

pub open spec fn edge_result(writes: bool, first: i64, last: i64, cur: Option<EdgeRec>) -> Option<
    EdgeRec,
> {
    match cur {
        None => {
            if writes {
                Some(EdgeRec { first_seen_at: first, last_seen_at: last })
            } else {
                None
            }
        },
        Some(e) => Some(
            EdgeRec {
                first_seen_at: e.first_seen_at,
                last_seen_at: if writes {
                    last
                } else {
                    e.last_seen_at
                },
            },
        ),
    }
}

pub proof fn lemma_cont_char(g: GraphState, ss: Seq<StmtV>, i: int, k: (RIdV, RIdV))
    ensures
        cont_of(apply_stmts(g, ss, i), k) == edge_result(
            cont_writes(ss, i, k),
            cont_first_write(ss, i, k),
            cont_last_write(ss, i, k),
            cont_of(g, k),
        ),
    decreases ss.len() - i,
{
    if i < 0 || i >= ss.len() {
    } else {
        let g2 = apply_stmt(g, ss[i]);
        lemma_cont_char(g2, ss, i + 1, k);
    }
}

pub open spec fn ev_writes(ss: Seq<StmtV>, i: int, k: (RIdV, RIdV, Seq<u8>)) -> bool
    decreases ss.len() - i,
{
    if i < 0 || i >= ss.len() {
        false
    } else {
        is_ev_upsert(ss[i], k) || ev_writes(ss, i + 1, k)
    }
}

pub open spec fn ev_first_write(ss: Seq<StmtV>, i: int, k: (RIdV, RIdV, Seq<u8>)) -> i64
    decreases ss.len() - i,
{
    if i < 0 || i >= ss.len() {
        0
    } else if is_ev_upsert(ss[i], k) {
        stmt_first_seen(ss[i])
    } else {
        ev_first_write(ss, i + 1, k)
    }
}

pub open spec fn ev_last_write(ss: Seq<StmtV>, i: int, k: (RIdV, RIdV, Seq<u8>)) -> i64
    decreases ss.len() - i,
{
    if i < 0 || i >= ss.len() {
        0
    } else if is_ev_upsert(ss[i], k) && !ev_writes(ss, i + 1, k) {
        stmt_last_seen(ss[i])
    } else {
        ev_last_write(ss, i + 1, k)
    }
}

pub proof fn lemma_ev_char(g: GraphState, ss: Seq<StmtV>, i: int, k: (RIdV, RIdV, Seq<u8>))
    ensures
        ev_of(apply_stmts(g, ss, i), k) == edge_result(
            ev_writes(ss, i, k),
            ev_first_write(ss, i, k),
            ev_last_write(ss, i, k),
            ev_of(g, k),
        ),
    decreases ss.len() - i,
{
    if i < 0 || i >= ss.len() {
    } else {
        let g2 = apply_stmt(g, ss[i]);
        lemma_ev_char(g2, ss, i + 1, k);
    }
}

/// Whether every statement of `ss[i..]` is an ingestion upsert or merge.
pub open spec fn ingestion_only(ss: Seq<StmtV>, i: int) -> bool {
    forall|j: int| i <= j < ss.len() ==> !((#[trigger] ss[j]) is CreateReportKey)
}

/// No merge for `k` stands before the first upsert of `k` in `ss[i..]` - the
/// shape every compiled ingestion list has, since a merge is only emitted
/// right after its record's upsert.
pub open spec fn res_covered(ss: Seq<StmtV>, i: int, k: RIdV) -> bool
    decreases ss.len() - i,
{
    if i < 0 || i >= ss.len() {
        true
    } else if is_res_upsert(ss[i], k) {
        true
    } else if is_res_merge(ss[i], k) {
        false
    } else {
        res_covered(ss, i + 1, k)
    }
}

proof fn lemma_covered_merges(ss: Seq<StmtV>, i: int, k: RIdV)
    requires
        res_covered(ss, i, k),
    ensures
        res_merges_after(ss, i, k) == res_merges(ss, i, k),
    decreases ss.len() - i,
{
    if i < 0 || i >= ss.len() {
    } else if is_res_upsert(ss[i], k) {
    } else {
        lemma_covered_merges(ss, i + 1, k);
    }
}

proof fn lemma_res_replay(ss: Seq<StmtV>, k: RIdV, cur: Option<ResourceRec>)
    requires
        res_covered(ss, 0, k),
    ensures
        res_result(ss, 0, k, res_result(ss, 0, k, cur)) == res_result(ss, 0, k, cur),
{
    lemma_covered_merges(ss, 0, k);
    let a = res_merges(ss, 0, k);
    match cur {
        None => {
            if res_writes(ss, 0, k) {
                assert(a.union_prefer_right(a) =~= a);
            }
        },
        Some(r) => {
            assert(r.attrs.union_prefer_right(a).union_prefer_right(a) =~= r.attrs.union_prefer_right(
                a,
            ));
        },
    }
}

proof fn lemma_edge_replay(writes: bool, first: i64, last: i64, cur: Option<EdgeRec>)
    ensures
        edge_result(writes, first, last, edge_result(writes, first, last, cur)) == edge_result(
            writes,
            first,
            last,
            cur,
        ),
{
}

/// Law (idempotence of replay): executing an ingestion statement list twice
/// from any state leaves exactly the state of executing it once - the
/// first-seen fields and merged attributes are unchanged, and the last-seen
/// fields take the (identical) second submission's values.
pub proof fn lemma_replay_idempotent(g: GraphState, ss: Seq<StmtV>)
    requires
        ingestion_only(ss, 0),
        forall|k: RIdV| res_covered(ss, 0, k),
    ensures
        apply_stmts(apply_stmts(g, ss, 0), ss, 0) == apply_stmts(g, ss, 0),
{
    let g1 = apply_stmts(g, ss, 0);
    let g2 = apply_stmts(g1, ss, 0);
    assert forall|k: RIdV| #[trigger] res_of(g2, k) == res_of(g1, k) by {
        lemma_res_char(g, ss, 0, k);
        lemma_res_char(g1, ss, 0, k);
        assert(res_covered(ss, 0, k));
        lemma_res_replay(ss, k, res_of(g, k));
    }
    assert(g2.resources =~= g1.resources) by {
        assert forall|k: RIdV| #[trigger] g2.resources.dom().contains(k)
            <==> g1.resources.dom().contains(k) by {
            assert(res_of(g2, k) == res_of(g1, k));
        }
        assert forall|k: RIdV| g1.resources.dom().contains(k) implies #[trigger] g2.resources[k]
            == g1.resources[k] by {
            assert(res_of(g2, k) == res_of(g1, k));
        }
    }
    assert forall|k: (RIdV, RIdV)| #[trigger] cont_of(g2, k) == cont_of(g1, k) by {
        lemma_cont_char(g, ss, 0, k);
        lemma_cont_char(g1, ss, 0, k);
        lemma_edge_replay(
            cont_writes(ss, 0, k),
            cont_first_write(ss, 0, k),
            cont_last_write(ss, 0, k),
            cont_of(g, k),
        );
    }
    assert(g2.contains =~= g1.contains) by {
        assert forall|k: (RIdV, RIdV)| #[trigger] g2.contains.dom().contains(k)
            <==> g1.contains.dom().contains(k) by {
            assert(cont_of(g2, k) == cont_of(g1, k));
        }
        assert forall|k: (RIdV, RIdV)| g1.contains.dom().contains(k) implies #[trigger] g2.contains[k]
            == g1.contains[k] by {
            assert(cont_of(g2, k) == cont_of(g1, k));
        }
    }
    assert forall|k: (RIdV, RIdV, Seq<u8>)| #[trigger] ev_of(g2, k) == ev_of(g1, k) by {
        lemma_ev_char(g, ss, 0, k);
        lemma_ev_char(g1, ss, 0, k);
        lemma_edge_replay(
            ev_writes(ss, 0, k),
            ev_first_write(ss, 0, k),
            ev_last_write(ss, 0, k),
            ev_of(g, k),
        );
    }
    assert(g2.events =~= g1.events) by {
        assert forall|k: (RIdV, RIdV, Seq<u8>)| #[trigger] g2.events.dom().contains(k)
            <==> g1.events.dom().contains(k) by {
            assert(ev_of(g2, k) == ev_of(g1, k));
        }
        assert forall|k: (RIdV, RIdV, Seq<u8>)| g1.events.dom().contains(k)
            implies #[trigger] g2.events[k] == g1.events[k] by {
            assert(ev_of(g2, k) == ev_of(g1, k));
        }
    }
    lemma_ingestion_preserves_report_keys(g, ss, 0);
    lemma_ingestion_preserves_report_keys(g1, ss, 0);
}

/// Concatenation keeps the merge-after-upsert shape.
pub proof fn lemma_covered_concat(a: Seq<StmtV>, b: Seq<StmtV>, k: RIdV)
    requires
        res_covered(a, 0, k),
        res_covered(b, 0, k),
    ensures
        res_covered(a + b, 0, k),
{
    lemma_covered_concat_aux(a, b, 0, k);
}

proof fn lemma_covered_concat_aux(a: Seq<StmtV>, b: Seq<StmtV>, i: int, k: RIdV)
    requires
        0 <= i <= a.len(),
        res_covered(a, i, k),
        res_covered(b, 0, k),
    ensures
        res_covered(a + b, i, k),
    decreases a.len() - i,
{
    if i == a.len() {
        lemma_covered_shift(a, b, 0, k);
    } else {
        assert((a + b)[i] == a[i]);
        if is_res_upsert(a[i], k) {
        } else if is_res_merge(a[i], k) {
        } else {
            lemma_covered_concat_aux(a, b, i + 1, k);
        }
    }
}

proof fn lemma_covered_shift(a: Seq<StmtV>, b: Seq<StmtV>, j: int, k: RIdV)
    requires
        0 <= j <= b.len(),
        res_covered(b, j, k),
    ensures
        res_covered(a + b, a.len() + j, k),
    decreases b.len() - j,
{
    if j == b.len() {
    } else {
        assert((a + b)[a.len() + j] == b[j]);
        if is_res_upsert(b[j], k) {
        } else if is_res_merge(b[j], k) {
        } else {
            lemma_covered_shift(a, b, j + 1, k);
        }
    }
}

/// A list without merges for `k` trivially has the merge-after-upsert shape.
pub proof fn lemma_covered_no_merge(ss: Seq<StmtV>, i: int, k: RIdV)
    requires
        forall|j: int| i <= j < ss.len() ==> !is_res_merge(#[trigger] ss[j], k),
    ensures
        res_covered(ss, i, k),
    decreases ss.len() - i,
{
    if i < 0 || i >= ss.len() {
    } else if is_res_upsert(ss[i], k) {
    } else {
        lemma_covered_no_merge(ss, i + 1, k);
    }
}

pub proof fn lemma_ingestion_preserves_report_keys(g: GraphState, ss: Seq<StmtV>, i: int)
    requires
        ingestion_only(ss, i),
    ensures
        apply_stmts(g, ss, i).report_keys == g.report_keys,
    decreases ss.len() - i,
{
    if i < 0 || i >= ss.len() {
    } else {
        lemma_ingestion_preserves_report_keys(apply_stmt(g, ss[i]), ss, i + 1);
    }
}

/// An ingestion statement list cannot fail: every statement is a
/// conflict-free upsert or merge.
pub proof fn lemma_ingestion_no_failure(g: GraphState, ss: Seq<StmtV>, i: int)
    requires
        ingestion_only(ss, i),
    ensures
        first_failure(g, ss, i) is None,
    decreases ss.len() - i,
{
    if i < 0 || i >= ss.len() {
    } else {
        assert(!stmt_fails(g, ss[i]));
        lemma_ingestion_no_failure(apply_stmt(g, ss[i]), ss, i + 1);
    }
}

} // verus!
