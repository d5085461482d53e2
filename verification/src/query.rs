use vstd::prelude::*;
use vstd::string::StrSliceExecFns;
use vstd::string::StringSliceAdditionalSpecFns;
use crate::assoc::lemma_filter_one;
use crate::graph::{attrs_map, EdgeRec, ResourceRec};
use crate::ids::{attrs_v, bytes_eq, copy_attrs, copy_bytes, copy_id, id_eq, RIdV, ResourceId};
use crate::store::{cont_pairs, ev_pairs, res_pairs, MemStore};

verus! {

/// The request shapes of the read path: the full graph, or a typed subset.
#[derive(Debug, PartialEq, Eq, Structural)]
pub enum QueryType {
    All,
    Secrets,
}

/// A resource's type is the type tag of its leaf segment.
pub open spec fn resource_type_of(id: RIdV) -> Seq<u8> {
    id.last().0
}

/// Whether a resource identity matches the query's type filter. A filter may
/// expand to several underlying type names: the secrets filter also pulls
/// the related secret-value type.
pub open spec fn matches_filter(qt: QueryType, id: RIdV) -> bool {
    match qt {
        QueryType::All => true,
        QueryType::Secrets => id.len() > 0 && (resource_type_of(id) == "Secret".spec_bytes()
            || resource_type_of(id) == "Secret Value".spec_bytes()),
    }
}

/// Whether an event edge belongs to the result: every edge for the full
/// query; for a typed filter, exactly the edges whose endpoint set
/// intersects the fetched resource id set `rids`, in either direction.
pub open spec fn event_kept(qt: QueryType, rids: Seq<RIdV>, principal: RIdV, target: RIdV) -> bool {
    match qt {
        QueryType::All => true,
        QueryType::Secrets => rids.contains(principal) || rids.contains(target),
    }
}

fn matches_filter_exec(qt: &QueryType, id: &ResourceId) -> (r: bool)
    ensures
        r == matches_filter(*qt, id@),
{
    match qt {
        QueryType::All => true,
        QueryType::Secrets => {
            let n = id.segments.len();
            if n == 0 {
                false
            } else {
                let secret = "Secret".as_bytes_vec();
                let secret_value = "Secret Value".as_bytes_vec();
                let leaf = &id.segments[n - 1].rtype;
                proof {
                    assert(id@.last() == crate::ids::seg_v(id.segments@[n - 1]));
                }
                bytes_eq(leaf, &secret) || bytes_eq(leaf, &secret_value)
            }
        },
    }
}

/// One resource of a query response.
#[derive(Debug, PartialEq, Eq)]
pub struct ResourceOut {
    pub id: ResourceId,
    pub first_seen_at: i64,
    pub last_seen_at: i64,
    pub attributes: Vec<(Vec<u8>, Vec<u8>)>,
}

pub open spec fn res_out_v(r: ResourceOut) -> (RIdV, ResourceRec) {
    (
        r.id@,
        ResourceRec {
            first_seen_at: r.first_seen_at,
            last_seen_at: r.last_seen_at,
            attrs: attrs_map(attrs_v(r.attributes)),
        },
    )
}

/// One event edge of a query response.
#[derive(Debug, PartialEq, Eq)]
pub struct EventOut {
    pub principal: ResourceId,
    pub target: ResourceId,
    pub event_type: Vec<u8>,
    pub first_seen_at: i64,
    pub last_seen_at: i64,
}

pub open spec fn ev_out_v(e: EventOut) -> ((RIdV, RIdV, Seq<u8>), EdgeRec) {
    (
        (e.principal@, e.target@, e.event_type@),
        EdgeRec { first_seen_at: e.first_seen_at, last_seen_at: e.last_seen_at },
    )
}

/// A query response: the matching resources, the matching event edges when
/// any, and the global container closure of everything touched.
#[derive(Debug, PartialEq, Eq)]
pub struct QueryResponse {
    pub resources: Vec<ResourceOut>,
    pub events: Option<Vec<EventOut>>,
    pub global_containers: Vec<ResourceId>,
}

// The global container closure: ancestors reachable by walking containment
// edges upward from the touched identities.

pub open spec fn seq_contains_id(s: Seq<ResourceId>, y: RIdV) -> bool {
    exists|j: int| 0 <= j < s.len() && (#[trigger] s[j])@ == y
}

pub open spec fn touched_views(s: Seq<ResourceId>) -> Seq<RIdV> {
    s.map_values(|r: ResourceId| r@)
}

/// Whether the containment edges hold `parent -> contains -> child`.
pub open spec fn is_parent(cp: Seq<((RIdV, RIdV), EdgeRec)>, p: RIdV, c: RIdV) -> bool {
    exists|i: int| 0 <= i < cp.len() && (#[trigger] cp[i]).0 == (p, c)
}

/// Whether `y` stands as the parent of at least one containment edge.
pub open spec fn parent_of_some_edge(cp: Seq<((RIdV, RIdV), EdgeRec)>, y: RIdV) -> bool {
    exists|i: int| 0 <= i < cp.len() && (#[trigger] cp[i]).0.0 == y
}

/// Whether `y` is reachable from `x` by walking `n` containment edges
/// upward.
pub open spec fn reach_up(cp: Seq<((RIdV, RIdV), EdgeRec)>, x: RIdV, y: RIdV, n: nat) -> bool
    decreases n,
{
    if n == 0 {
        x == y
    } else {
        exists|z: RIdV| is_parent(cp, z, x) && reach_up(cp, z, y, (n - 1) as nat)
    }
}

/// Whether `y` is an ancestor container of some touched identity: reachable
/// upward in at least one step.
pub open spec fn in_closure(cp: Seq<((RIdV, RIdV), EdgeRec)>, touched: Seq<RIdV>, y: RIdV) -> bool {
    exists|x: RIdV, n: nat| touched.contains(x) && n >= 1 && reach_up(cp, x, y, n)
}

proof fn lemma_reach_up_extend(cp: Seq<((RIdV, RIdV), EdgeRec)>, x: RIdV, y: RIdV, n: nat, p: RIdV)
    requires
        reach_up(cp, x, y, n),
        is_parent(cp, p, y),
    ensures
        reach_up(cp, x, p, (n + 1) as nat),
    decreases n,
{
    if n == 0 {
        assert(reach_up(cp, p, p, 0));
    } else {
        let z = choose|z: RIdV| is_parent(cp, z, x) && reach_up(cp, z, y, (n - 1) as nat);
        lemma_reach_up_extend(cp, z, y, (n - 1) as nat, p);
        assert(is_parent(cp, z, x) && reach_up(cp, z, p, n));
    }
}

proof fn lemma_closure_complete(
    cp: Seq<((RIdV, RIdV), EdgeRec)>,
    tv: Seq<RIdV>,
    outs: Seq<ResourceId>,
    x: RIdV,
    y: RIdV,
    n: nat,
)
    requires
        n >= 1,
        reach_up(cp, x, y, n),
        tv.contains(x) || seq_contains_id(outs, x),
        forall|i: int|
            0 <= i < cp.len() && (tv.contains((#[trigger] cp[i]).0.1) || seq_contains_id(
                outs,
                cp[i].0.1,
            )) ==> seq_contains_id(outs, cp[i].0.0),
    ensures
        seq_contains_id(outs, y),
    decreases n,
{
    let z = choose|z: RIdV| is_parent(cp, z, x) && reach_up(cp, z, y, (n - 1) as nat);
    let i = choose|i: int| 0 <= i < cp.len() && (#[trigger] cp[i]).0 == (z, x);
    assert(seq_contains_id(outs, z));
    if n == 1 {
        assert(y == z);
    } else {
        lemma_closure_complete(cp, tv, outs, z, y, (n - 1) as nat);
    }
}

fn contains_id(v: &Vec<ResourceId>, x: &ResourceId) -> (r: bool)
    ensures
        r == seq_contains_id(v@, x@),
{
    let n = v.len();
    let mut i: usize = 0;
    while i < n
        invariant
            n == v@.len(),
            i <= n,
            forall|j: int| 0 <= j < i ==> (#[trigger] v@[j])@ != x@,
        decreases n - i,
    {
        if id_eq(&v[i], x) {
            return true;
        }
        i += 1;
    }
    false
}

/// Compute the global container closure: every identity reachable from a
/// touched identity by walking containment edges upward at least once,
/// deduplicated.
#[verifier::rlimit(60)]
pub fn global_containers(store: &MemStore, touched: &Vec<ResourceId>) -> (out: Vec<ResourceId>)
    ensures
        forall|j1: int, j2: int|
            0 <= j1 < j2 < out@.len() ==> (#[trigger] out@[j1])@ != (#[trigger] out@[j2])@,
        forall|j: int|
            0 <= j < out@.len() ==> in_closure(
                cont_pairs(store.contains@),
                touched_views(touched@),
                (#[trigger] out@[j])@,
            ),
        forall|y: RIdV|
            #[trigger] in_closure(cont_pairs(store.contains@), touched_views(touched@), y)
                ==> seq_contains_id(out@, y),
{
    let ghost cp = cont_pairs(store.contains@);
    let ghost tv = touched_views(touched@);

    let mut out: Vec<ResourceId> = Vec::new();
    let mut work: Vec<ResourceId> = Vec::new();
    let tn = touched.len();
    let mut t: usize = 0;
    while t < tn
        invariant
            tn == touched@.len(),
            t <= tn,
            work@.len() == t,
            forall|j: int| 0 <= j < t ==> (#[trigger] work@[j])@ == touched@[j]@,
        decreases tn - t,
    {
        work.push(copy_id(&touched[t]));
        t += 1;
    }
    proof {
        assert forall|j: int|
            0 <= j < work@.len() implies tv.contains((#[trigger] work@[j])@) || seq_contains_id(
            out@,
            work@[j]@,
        ) by {
            assert(tv[j] == touched@[j]@);
        }
        assert forall|i: int|
            0 <= i < cp.len() && (tv.contains((#[trigger] cp[i]).0.1) || seq_contains_id(
                out@,
                cp[i].0.1,
            )) && !seq_contains_id(work@, cp[i].0.1) implies seq_contains_id(out@, cp[i].0.0) by {
            let c = cp[i].0.1;
            if tv.contains(c) {
                let k = choose|k: int| 0 <= k < tv.len() && tv[k] == c;
                assert(tv[k] == touched@[k]@);
                assert(work@[k]@ == c);
            }
        }
    }

    while work.len() > 0
        invariant
            cp == cont_pairs(store.contains@),
            tv == touched_views(touched@),
            out@.len() <= cp.len(),
            forall|j1: int, j2: int|
                0 <= j1 < j2 < out@.len() ==> (#[trigger] out@[j1])@ != (#[trigger] out@[j2])@,
            forall|j: int|
                0 <= j < out@.len() ==> in_closure(cp, tv, (#[trigger] out@[j])@)
                    && parent_of_some_edge(cp, out@[j]@),
            forall|j: int|
                0 <= j < work@.len() ==> tv.contains((#[trigger] work@[j])@) || seq_contains_id(
                    out@,
                    work@[j]@,
                ),
            forall|i: int|
                0 <= i < cp.len() && (tv.contains((#[trigger] cp[i]).0.1) || seq_contains_id(
                    out@,
                    cp[i].0.1,
                )) && !seq_contains_id(work@, cp[i].0.1) ==> seq_contains_id(out@, cp[i].0.0),
        decreases cp.len() - out@.len(), work@.len(),
    {
        let ghost work_pre = work@;
        let x = work.pop().unwrap();
        proof {
            assert(work_pre[work_pre.len() - 1] == x);
            assert(tv.contains(x@) || seq_contains_id(out@, x@));
        }
        let ghost out_entry = out@;
        proof {
            // Every edge into an identity other than the popped one keeps
            // its exposure status: the popped entry was the only one removed
            // from the worklist.
            assert forall|i: int|
                0 <= i < cp.len() && (tv.contains((#[trigger] cp[i]).0.1) || seq_contains_id(
                    out@,
                    cp[i].0.1,
                )) && !seq_contains_id(work@, cp[i].0.1) && (cp[i].0.1 != x@ || i < 0)
                    implies seq_contains_id(out@, cp[i].0.0) by {
                let c = cp[i].0.1;
                assert(c != x@);
                if seq_contains_id(work_pre, c) {
                    let j = choose|j: int|
                        0 <= j < work_pre.len() && (#[trigger] work_pre[j])@ == c;
                    assert(j < work_pre.len() - 1);
                    assert(work@[j] == work_pre[j]);
                    assert(seq_contains_id(work@, c));
                }
            }
            assert forall|j: int|
                0 <= j < out@.len() implies in_closure(cp, tv, (#[trigger] out@[j])@)
                && parent_of_some_edge(cp, out@[j]@) by {}
            assert forall|j: int|
                0 <= j < work@.len() implies tv.contains((#[trigger] work@[j])@)
                || seq_contains_id(out@, work@[j]@) by {
                assert(work@[j] == work_pre[j]);
            }
        }

        let en = store.contains.len();
        let mut e: usize = 0;
        while e < en
            invariant
                en == store.contains@.len(),
                e <= en,
                cp == cont_pairs(store.contains@),
                tv == touched_views(touched@),
                tv.contains(x@) || seq_contains_id(out_entry, x@),
                out@.len() <= cp.len(),
                out_entry.len() <= out@.len(),
                work@.len() + out_entry.len() == work_pre.len() - 1 + out@.len(),
                forall|j: int| 0 <= j < out_entry.len() ==> out@[j] == out_entry[j],
                forall|j1: int, j2: int|
                    0 <= j1 < j2 < out@.len() ==> (#[trigger] out@[j1])@ != (#[trigger] out@[j2])@,
                forall|j: int|
                    0 <= j < out@.len() ==> in_closure(cp, tv, (#[trigger] out@[j])@)
                        && parent_of_some_edge(cp, out@[j]@),
                forall|j: int|
                    0 <= j < work@.len() ==> tv.contains((#[trigger] work@[j])@)
                        || seq_contains_id(out@, work@[j]@),
                forall|i: int|
                    0 <= i < cp.len() && (tv.contains((#[trigger] cp[i]).0.1) || seq_contains_id(
                        out@,
                        cp[i].0.1,
                    )) && !seq_contains_id(work@, cp[i].0.1) && (cp[i].0.1 != x@ || i < e)
                        ==> seq_contains_id(out@, cp[i].0.0),
            decreases en - e,
        {
            let child = &store.contains[e].1;
            if id_eq(child, &x) {
                let parent = &store.contains[e].0;
                proof {
                    assert(cp[e as int].0 == (parent@, child@));
                    assert(is_parent(cp, parent@, x@));
                }
                let in_out_already = contains_id(&out, parent);
                if !in_out_already {
                    proof {
                        // The pushed parent is in the closure.
                        if tv.contains(x@) {
                            assert(reach_up(cp, parent@, parent@, 0));
                            assert(reach_up(cp, x@, parent@, 1));
                            assert(in_closure(cp, tv, parent@));
                        } else {
                            let j = choose|j: int|
                                0 <= j < out_entry.len() && (#[trigger] out_entry[j])@ == x@;
                            assert(out@[j] == out_entry[j]);
                            assert(in_closure(cp, tv, x@));
                            let (x0, n0) = choose|x0: RIdV, n0: nat|
                                tv.contains(x0) && n0 >= 1 && reach_up(cp, x0, x@, n0);
                            lemma_reach_up_extend(cp, x0, x@, n0, parent@);
                            assert(in_closure(cp, tv, parent@));
                        }
                    }
                    let ghost out_pre = out@;
                    let ghost work_mid = work@;
                    out.push(copy_id(parent));
                    work.push(copy_id(parent));
                    proof {
                        assert(out@[out@.len() - 1]@ == parent@);
                        assert(work@[work@.len() - 1]@ == parent@);
                        assert(seq_contains_id(out@, parent@));
                        assert(seq_contains_id(work@, parent@));
                        // Distinctness.
                        assert forall|j1: int, j2: int|
                            0 <= j1 < j2 < out@.len() implies (#[trigger] out@[j1])@ != (
                        #[trigger] out@[j2])@ by {
                            if j2 == out@.len() - 1 {
                                assert(out@[j1] == out_pre[j1]);
                                assert(!seq_contains_id(out_pre, parent@));
                            } else {
                                assert(out@[j1] == out_pre[j1] && out@[j2] == out_pre[j2]);
                            }
                        }
                        // Soundness of the grown result.
                        assert forall|j: int|
                            0 <= j < out@.len() implies in_closure(cp, tv, (#[trigger] out@[j])@)
                            && parent_of_some_edge(cp, out@[j]@) by {
                            if j < out_pre.len() {
                                assert(out@[j] == out_pre[j]);
                            } else {
                                assert(out@[j]@ == parent@);
                                assert(cp[e as int].0.0 == parent@);
                            }
                        }
                        // Soundness of the grown worklist.
                        assert forall|j: int|
                            0 <= j < work@.len() implies tv.contains((#[trigger] work@[j])@)
                            || seq_contains_id(out@, work@[j]@) by {
                            if j < work_mid.len() {
                                assert(work@[j] == work_mid[j]);
                                if seq_contains_id(out_pre, work_mid[j]@) {
                                    let j2 = choose|j2: int|
                                        0 <= j2 < out_pre.len() && (#[trigger] out_pre[j2])@
                                            == work_mid[j]@;
                                    assert(out@[j2] == out_pre[j2]);
                                }
                            }
                        }
                        // The result stays within the set of edge parents,
                        // so it cannot outgrow the edge list.
                        let views = out@.map_values(|r: ResourceId| r@);
                        let parents = cp.map_values(|p: ((RIdV, RIdV), EdgeRec)| p.0.0);
                        assert forall|j: int| 0 <= j < views.len() implies parents.to_set().contains(
                            #[trigger] views[j],
                        ) by {
                            assert(views[j] == out@[j]@);
                            if j == out@.len() - 1 {
                                assert(parents[e as int] == out@[j]@);
                            } else {
                                assert(out@[j] == out_pre[j]);
                                assert(parent_of_some_edge(cp, out@[j]@));
                                let i = choose|i: int|
                                    0 <= i < cp.len() && (#[trigger] cp[i]).0.0 == out@[j]@;
                                assert(parents[i] == out@[j]@);
                            }
                        }
                        assert(views.to_set().subset_of(parents.to_set()));
                        assert forall|j1: int, j2: int|
                            0 <= j1 < j2 < views.len() implies views[j1] != views[j2] by {
                            assert(views[j1] == out@[j1]@ && views[j2] == out@[j2]@);
                        }
                        views.unique_seq_to_set();
                        parents.lemma_cardinality_of_set();
                        vstd::seq_lib::seq_to_set_is_finite(parents);
                        vstd::set_lib::lemma_len_subset(views.to_set(), parents.to_set());
                        assert(out@.len() <= cp.len());
                        // Exposure carries over.
                        assert forall|i: int|
                            0 <= i < cp.len() && (tv.contains((#[trigger] cp[i]).0.1)
                                || seq_contains_id(out@, cp[i].0.1)) && !seq_contains_id(
                            work@,
                            cp[i].0.1,
                        ) && (cp[i].0.1 != x@ || i < e + 1) implies seq_contains_id(
                        out@,
                        cp[i].0.0,
                        ) by {
                            let c = cp[i].0.1;
                            assert(c != parent@);
                            if seq_contains_id(out@, c) {
                                let j = choose|j: int|
                                    0 <= j < out@.len() && (#[trigger] out@[j])@ == c;
                                assert(j < out_pre.len());
                                assert(out_pre[j] == out@[j]);
                                assert(seq_contains_id(out_pre, c));
                            }
                            if i == e {
                                assert(seq_contains_id(out@, cp[i].0.0));
                            } else {
                                assert(!seq_contains_id(work_mid, c)) by {
                                    if seq_contains_id(work_mid, c) {
                                        let j = choose|j: int|
                                            0 <= j < work_mid.len() && (#[trigger] work_mid[j])@
                                                == c;
                                        assert(work@[j] == work_mid[j]);
                                    }
                                }
                                assert(seq_contains_id(out_pre, cp[i].0.0));
                                let j = choose|j: int|
                                    0 <= j < out_pre.len() && (#[trigger] out_pre[j])@
                                        == cp[i].0.0;
                                assert(out@[j] == out_pre[j]);
                            }
                        }
                    }
                } else {
                    proof {
                        assert(seq_contains_id(out@, cp[e as int].0.0));
                        assert forall|i: int|
                            0 <= i < cp.len() && (tv.contains((#[trigger] cp[i]).0.1)
                                || seq_contains_id(out@, cp[i].0.1)) && !seq_contains_id(
                            work@,
                            cp[i].0.1,
                        ) && (cp[i].0.1 != x@ || i < e + 1) implies seq_contains_id(
                        out@,
                        cp[i].0.0,
                        ) by {}
                    }
                }
            }
            e += 1;
        }
        proof {
            if out@.len() == out_entry.len() {
                assert(work@.len() < work_pre.len());
            }
            assert forall|j: int|
                0 <= j < out@.len() implies in_closure(cp, tv, (#[trigger] out@[j])@)
                && parent_of_some_edge(cp, out@[j]@) by {}
        }
    }
    proof {
        assert forall|y: RIdV| #[trigger] in_closure(cp, tv, y) implies seq_contains_id(
            out@,
            y,
        ) by {
            let (x0, n0) = choose|x0: RIdV, n0: nat|
                tv.contains(x0) && n0 >= 1 && reach_up(cp, x0, y, n0);
            lemma_closure_complete(cp, tv, out@, x0, y, n0);
        }
    }
    out
}

/// The resource filter of a query, as a predicate value so that every use
/// names the same function.
pub open spec fn res_pred(qt: QueryType) -> spec_fn((RIdV, ResourceRec)) -> bool {
    |p: (RIdV, ResourceRec)| matches_filter(qt, p.0)
}

pub open spec fn ev_pred(qt: QueryType, rids: Seq<RIdV>) -> spec_fn(
    ((RIdV, RIdV, Seq<u8>), EdgeRec),
) -> bool {
    |p: ((RIdV, RIdV, Seq<u8>), EdgeRec)| event_kept(qt, rids, p.0.0, p.0.1)
}

/// The resources a query returns: the store's records matching the filter,
/// in store order.
pub open spec fn filtered_resources(qt: QueryType, store: MemStore) -> Seq<(RIdV, ResourceRec)> {
    res_pairs(store.resources@).filter(res_pred(qt))
}

/// The ids of the resources a query returns - the fetched resource id set
/// the event fetch intersects with.
pub open spec fn resource_ids_spec(qt: QueryType, store: MemStore) -> Seq<RIdV> {
    filtered_resources(qt, store).map_values(|p: (RIdV, ResourceRec)| p.0)
}

/// The event edges a query returns, in store order: every edge for the full
/// query, and for a typed filter only those with an endpoint among the
/// fetched resource ids.
pub open spec fn filtered_events(qt: QueryType, store: MemStore) -> Seq<
    ((RIdV, RIdV, Seq<u8>), EdgeRec),
> {
    ev_pairs(store.events@).filter(ev_pred(qt, resource_ids_spec(qt, store)))
}

/// Every identity the query touches: the ids of the returned resources and
/// both endpoints of the returned event edges.
pub open spec fn touched_spec(qt: QueryType, store: MemStore) -> Seq<RIdV> {
    resource_ids_spec(qt, store) + filtered_events(qt, store).map_values(
        |p: ((RIdV, RIdV, Seq<u8>), EdgeRec)| p.0.0,
    ) + filtered_events(qt, store).map_values(|p: ((RIdV, RIdV, Seq<u8>), EdgeRec)| p.0.1)
}

/// Whether one of the returned resources carries the identity `x`.
fn result_contains_id(rs: &Vec<ResourceOut>, x: &ResourceId) -> (r: bool)
    ensures
        r == (exists|k: int| 0 <= k < rs@.len() && (#[trigger] rs@[k]).id@ == x@),
{
    let n = rs.len();
    let mut k: usize = 0;
    while k < n
        invariant
            n == rs@.len(),
            k <= n,
            forall|j: int| 0 <= j < k ==> (#[trigger] rs@[j]).id@ != x@,
        decreases n - k,
    {
        if id_eq(&rs[k].id, x) {
            return true;
        }
        k += 1;
    }
    false
}

/// Membership in the fetched resource id set is membership among the
/// returned resources.
proof fn lemma_contains_bridge(qt: QueryType, store: MemStore, rs: Seq<ResourceOut>, x: RIdV)
    requires
        rs.map_values(|o: ResourceOut| res_out_v(o)) == filtered_resources(qt, store),
    ensures
        resource_ids_spec(qt, store).contains(x) <==> (exists|k: int|
            0 <= k < rs.len() && (#[trigger] rs[k]).id@ == x),
{
    let rids = resource_ids_spec(qt, store);
    assert(rids.len() == rs.len());
    assert forall|k: int| 0 <= k < rs.len() implies rids[k] == (#[trigger] rs[k]).id@ by {
        assert(filtered_resources(qt, store)[k] == res_out_v(rs[k]));
    }
    if rids.contains(x) {
        let k = choose|k: int| 0 <= k < rids.len() && rids[k] == x;
        assert(rs[k].id@ == x);
    }
    if exists|k: int| 0 <= k < rs.len() && (#[trigger] rs[k]).id@ == x {
        let k = choose|k: int| 0 <= k < rs.len() && (#[trigger] rs[k]).id@ == x;
        assert(rids[k] == x);
    }
}

/// The Query Compiler's read path against the model store: fetch the
/// resources matching the request's type filter, fetch the event edges whose
/// endpoints intersect them (every edge for the full query), and compute the
/// global container closure of everything touched. The event list is omitted
/// when empty.
#[verifier::rlimit(60)]
pub fn run_query(store: &MemStore, qt: &QueryType) -> (r: QueryResponse)
    ensures
        r.resources@.map_values(|o: ResourceOut| res_out_v(o)) == filtered_resources(*qt, *store),
        match r.events {
            Some(es) => es@.map_values(|o: EventOut| ev_out_v(o)) == filtered_events(*qt, *store)
                && es@.len() > 0,
            None => filtered_events(*qt, *store).len() == 0,
        },
        forall|j1: int, j2: int|
            0 <= j1 < j2 < r.global_containers@.len() ==> (#[trigger] r.global_containers@[j1])@
                != (#[trigger] r.global_containers@[j2])@,
        forall|y: RIdV|
            seq_contains_id(r.global_containers@, y) <==> #[trigger] in_closure(
                cont_pairs(store.contains@),
                touched_spec(*qt, *store),
                y,
            ),
{
    let ghost rp = res_pred(*qt);
    let ghost ep = ev_pred(*qt, resource_ids_spec(*qt, *store));

    let mut resources: Vec<ResourceOut> = Vec::new();
    let n = store.resources.len();
    let mut i: usize = 0;
    while i < n
        invariant
            n == store.resources@.len(),
            i <= n,
            rp == res_pred(*qt),
            resources@.map_values(|o: ResourceOut| res_out_v(o)) == res_pairs(
                store.resources@,
            ).take(i as int).filter(rp),
        decreases n - i,
    {
        let ghost pre = resources@.map_values(|o: ResourceOut| res_out_v(o));
        let ghost pairs = res_pairs(store.resources@);
        proof {
            assert(pairs.take(i + 1) =~= pairs.take(i as int) + seq![pairs[i as int]]);
            lemma_filter_one(pairs.take(i as int), pairs[i as int], rp);
        }
        let keep = matches_filter_exec(qt, &store.resources[i].0);
        proof {
            assert(pairs[i as int].0 == store.resources@[i as int].0@);
            assert(rp(pairs[i as int]) == keep);
        }
        if keep {
            let o = ResourceOut {
                id: copy_id(&store.resources[i].0),
                first_seen_at: store.resources[i].1.first_seen_at,
                last_seen_at: store.resources[i].1.last_seen_at,
                attributes: copy_attrs(&store.resources[i].1.attributes),
            };
            let ghost ov = res_out_v(o);
            resources.push(o);
            proof {
                assert(ov == pairs[i as int]);
                assert(resources@.map_values(|o: ResourceOut| res_out_v(o)) =~= pre.push(ov));
            }
        }
        i += 1;
    }
    proof {
        assert(res_pairs(store.resources@).take(n as int) =~= res_pairs(store.resources@));
    }

    let mut events: Vec<EventOut> = Vec::new();
    let m = store.events.len();
    let mut j: usize = 0;
    while j < m
        invariant
            m == store.events@.len(),
            j <= m,
            ep == ev_pred(*qt, resource_ids_spec(*qt, *store)),
            resources@.map_values(|o: ResourceOut| res_out_v(o)) == filtered_resources(
                *qt,
                *store,
            ),
            events@.map_values(|o: EventOut| ev_out_v(o)) == ev_pairs(store.events@).take(
                j as int,
            ).filter(ep),
        decreases m - j,
    {
        let ghost pre = events@.map_values(|o: EventOut| ev_out_v(o));
        let ghost pairs = ev_pairs(store.events@);
        proof {
            assert(pairs.take(j + 1) =~= pairs.take(j as int) + seq![pairs[j as int]]);
            lemma_filter_one(pairs.take(j as int), pairs[j as int], ep);
        }
        let keep = match qt {
            QueryType::All => true,
            QueryType::Secrets => result_contains_id(&resources, &store.events[j].0)
                || result_contains_id(&resources, &store.events[j].1),
        };
        proof {
            assert(pairs[j as int].0 == (
                store.events@[j as int].0@,
                store.events@[j as int].1@,
                store.events@[j as int].2@,
            ));
            lemma_contains_bridge(*qt, *store, resources@, store.events@[j as int].0@);
            lemma_contains_bridge(*qt, *store, resources@, store.events@[j as int].1@);
            assert(ep(pairs[j as int]) == keep);
        }
        if keep {
            let o = EventOut {
                principal: copy_id(&store.events[j].0),
                target: copy_id(&store.events[j].1),
                event_type: copy_bytes(&store.events[j].2),
                first_seen_at: store.events[j].3,
                last_seen_at: store.events[j].4,
            };
            let ghost ov = ev_out_v(o);
            events.push(o);
            proof {
                assert(ov == pairs[j as int]);
                assert(events@.map_values(|o: EventOut| ev_out_v(o)) =~= pre.push(ov));
            }
        }
        j += 1;
    }
    proof {
        assert(ev_pairs(store.events@).take(m as int) =~= ev_pairs(store.events@));
    }

    // Everything touched: resource ids, then event principals, then event
    // targets, in result order.
    let mut touched: Vec<ResourceId> = Vec::new();
    let rn = resources.len();
    let mut t: usize = 0;
    while t < rn
        invariant
            rn == resources@.len(),
            t <= rn,
            touched@.len() == t,
            forall|k: int| 0 <= k < t ==> (#[trigger] touched@[k])@ == resources@[k].id@,
        decreases rn - t,
    {
        touched.push(copy_id(&resources[t].id));
        t += 1;
    }
    let en2 = events.len();
    let mut t2: usize = 0;
    while t2 < en2
        invariant
            rn == resources@.len(),
            en2 == events@.len(),
            t2 <= en2,
            touched@.len() == rn + t2,
            forall|k: int| 0 <= k < rn ==> (#[trigger] touched@[k])@ == resources@[k].id@,
            forall|k: int|
                rn <= k < rn + t2 ==> (#[trigger] touched@[k])@ == events@[k - rn].principal@,
        decreases en2 - t2,
    {
        touched.push(copy_id(&events[t2].principal));
        t2 += 1;
    }
    let mut t3: usize = 0;
    while t3 < en2
        invariant
            rn == resources@.len(),
            en2 == events@.len(),
            t3 <= en2,
            touched@.len() == rn + en2 + t3,
            forall|k: int| 0 <= k < rn ==> (#[trigger] touched@[k])@ == resources@[k].id@,
            forall|k: int|
                rn <= k < rn + en2 ==> (#[trigger] touched@[k])@ == events@[k - rn].principal@,
            forall|k: int|
                rn + en2 <= k < rn + en2 + t3 ==> (#[trigger] touched@[k])@ == events@[k - rn
                    - en2].target@,
        decreases en2 - t3,
    {
        touched.push(copy_id(&events[t3].target));
        t3 += 1;
    }
    proof {
        let fr = filtered_resources(*qt, *store);
        let fe = filtered_events(*qt, *store);
        let m0 = resource_ids_spec(*qt, *store);
        let m1 = fe.map_values(|p: ((RIdV, RIdV, Seq<u8>), EdgeRec)| p.0.0);
        let m2 = fe.map_values(|p: ((RIdV, RIdV, Seq<u8>), EdgeRec)| p.0.1);
        assert(resources@.map_values(|o: ResourceOut| res_out_v(o)) == fr);
        assert(events@.map_values(|o: EventOut| ev_out_v(o)) == fe);
        assert(fr.len() == rn && fe.len() == en2);
        assert(touched_spec(*qt, *store) == m0 + m1 + m2);
        assert forall|k: int| 0 <= k < touched@.len() implies touched_views(touched@)[k]
            == touched_spec(*qt, *store)[k] by {
            assert(touched_views(touched@)[k] == touched@[k]@);
            if k < rn {
                assert((m0 + m1 + m2)[k] == m0[k]);
                assert(m0[k] == fr[k].0);
                assert(fr[k] == res_out_v(resources@[k]));
                assert(touched@[k]@ == resources@[k].id@);
            } else if k < rn + en2 {
                assert((m0 + m1 + m2)[k] == m1[k - rn]);
                assert(m1[k - rn] == fe[k - rn].0.0);
                assert(fe[k - rn] == ev_out_v(events@[k - rn]));
                assert(touched@[k]@ == events@[k - rn].principal@);
            } else {
                assert((m0 + m1 + m2)[k] == m2[k - rn - en2]);
                assert(m2[k - rn - en2] == fe[k - rn - en2].0.1);
                assert(fe[k - rn - en2] == ev_out_v(events@[k - rn - en2]));
                assert(touched@[k]@ == events@[k - rn - en2].target@);
            }
        }
        assert(touched_views(touched@) =~= touched_spec(*qt, *store));
    }

    let containers = global_containers(store, &touched);

    let ev_opt = if events.len() > 0 {
        Some(events)
    } else {
        proof {
            assert(filtered_events(*qt, *store).len() == events@.map_values(
                |o: EventOut| ev_out_v(o),
            ).len());
        }
        None
    };

    QueryResponse { resources, events: ev_opt, global_containers: containers }
}

} // verus!
