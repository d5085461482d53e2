use vstd::prelude::*;
use crate::ids::{
    attrs_v, copy_attrs, copy_bytes, copy_id, copy_seg, copy_segments, seg_v, segs_v, RIdV,
    ResourceId, ResourceIdSegment, SegV,
};
use crate::statements::{stmts_v, Statement, StmtV};

verus! {

/// One node of a submitted resource tree. A node's full identity is the path
/// of segments from the tree root to the node, unless `globally_unique` is
/// set, in which case the identity restarts at this node's own segment and
/// descendants keep prefixing from there.
pub struct ResourceTreeNode {
    pub segment: ResourceIdSegment,
    pub globally_unique: bool,
    pub first_seen_at: i64,
    pub last_seen_at: i64,
    pub attributes: Vec<(Vec<u8>, Vec<u8>)>,
    pub contains: Vec<ResourceTreeNode>,
}

/// One typed interaction observation.
pub struct Event {
    pub event_type: Vec<u8>,
    pub first_seen_at: i64,
    pub last_seen_at: i64,
}

/// A batch of events denoting the full cross product: every
/// (principal, resource, event) triple is one edge instance to upsert.
pub struct EventCapture {
    pub principals: Vec<ResourceId>,
    pub resources: Vec<ResourceId>,
    pub events: Vec<Event>,
}

/// One ingestion request for a single tenant.
pub struct ReportRequest {
    pub resource_captures: Vec<ResourceTreeNode>,
    pub event_captures: Vec<EventCapture>,
}

/// The effective identity of a node observed under `prefix`: the inherited
/// path extended by the node's own segment, or a fresh single-segment path
/// when the node is globally unique.
pub open spec fn effective_id(n: ResourceTreeNode, prefix: RIdV) -> RIdV {
    if n.globally_unique {
        seq![seg_v(n.segment)]
    } else {
        prefix.push(seg_v(n.segment))
    }
}

/// Statements emitted for one node observed under `prefix`: the resource
/// upsert, the attribute merge when attributes are present, the statements of
/// the children (which inherit the node's effective identity), and last the
/// containment edge from the structural parent - recorded against the
/// structural parent even when the node's identity is globally unique, and
/// absent for roots, which have no parent.
pub open spec fn compile_node(n: ResourceTreeNode, prefix: RIdV) -> Seq<StmtV>
    decreases n, 0int,
{
    let eff = effective_id(n, prefix);
    let head = seq![
        StmtV::UpsertResource { id: eff, first_seen_at: n.first_seen_at, last_seen_at: n.last_seen_at },
    ];
    let merge = if attrs_v(n.attributes).len() > 0 {
        seq![StmtV::MergeResourceAttributes { id: eff, attributes: attrs_v(n.attributes) }]
    } else {
        Seq::<StmtV>::empty()
    };
    let kids = compile_nodes(n.contains@, eff, 0);
    let edge = if prefix.len() > 0 {
        seq![
            StmtV::UpsertContainsEdge {
                parent: prefix,
                child: eff,
                first_seen_at: n.first_seen_at,
                last_seen_at: n.last_seen_at,
            },
        ]
    } else {
        Seq::<StmtV>::empty()
    };
    head + merge + kids + edge
}

/// Statements of the nodes `nodes[i..]`, each observed under `prefix`.
pub open spec fn compile_nodes(nodes: Seq<ResourceTreeNode>, prefix: RIdV, i: int) -> Seq<StmtV>
    decreases nodes, nodes.len() - i + 1,
{
    if i < 0 || i >= nodes.len() {
        Seq::<StmtV>::empty()
    } else {
        compile_node(nodes[i], prefix) + compile_nodes(nodes, prefix, i + 1)
    }
}

/// The event-edge upsert for the cross-product triple `(i, j, k)` of a batch.
pub open spec fn event_stmt(c: EventCapture, i: int, j: int, k: int) -> StmtV {
    StmtV::UpsertEventEdge {
        principal: c.principals@[i]@,
        target: c.resources@[j]@,
        event_type: c.events@[k].event_type@,
        first_seen_at: c.events@[k].first_seen_at,
        last_seen_at: c.events@[k].last_seen_at,
    }
}

/// Event statements for principal `i`, resource `j`, events `k..`.
pub open spec fn compile_events_e(c: EventCapture, i: int, j: int, k: int) -> Seq<StmtV>
    decreases c.events@.len() - k,
{
    if k < 0 || k >= c.events@.len() {
        Seq::<StmtV>::empty()
    } else {
        seq![event_stmt(c, i, j, k)] + compile_events_e(c, i, j, k + 1)
    }
}

/// Event statements for principal `i`, resources `j..`.
pub open spec fn compile_events_r(c: EventCapture, i: int, j: int) -> Seq<StmtV>
    decreases c.resources@.len() - j,
{
    if j < 0 || j >= c.resources@.len() {
        Seq::<StmtV>::empty()
    } else {
        compile_events_e(c, i, j, 0) + compile_events_r(c, i, j + 1)
    }
}

/// Event statements for principals `i..`: the full cross product, in
/// insertion order of the input lists, without deduplication.
pub open spec fn compile_events_p(c: EventCapture, i: int) -> Seq<StmtV>
    decreases c.principals@.len() - i,
{
    if i < 0 || i >= c.principals@.len() {
        Seq::<StmtV>::empty()
    } else {
        compile_events_r(c, i, 0) + compile_events_p(c, i + 1)
    }
}

pub open spec fn compile_capture(c: EventCapture) -> Seq<StmtV> {
    compile_events_p(c, 0)
}

/// Event statements of the captures `cs[i..]`.
pub open spec fn compile_captures(cs: Seq<EventCapture>, i: int) -> Seq<StmtV>
    decreases cs.len() - i,
{
    if i < 0 || i >= cs.len() {
        Seq::<StmtV>::empty()
    } else {
        compile_capture(cs[i]) + compile_captures(cs, i + 1)
    }
}

/// The full compiled statement list of one ingestion request: all resource
/// trees (each rooted at the empty prefix), then all event captures.
pub open spec fn compile_request(req: ReportRequest) -> Seq<StmtV> {
    compile_nodes(req.resource_captures@, Seq::<SegV>::empty(), 0)
        + compile_captures(req.event_captures@, 0)
}

proof fn lemma_events_e_shape(c: EventCapture, i: int, j: int, k: int)
    requires
        0 <= k <= c.events@.len(),
    ensures
        compile_events_e(c, i, j, k).len() == c.events@.len() - k,
        forall|t: int|
            0 <= t < c.events@.len() - k ==> compile_events_e(c, i, j, k)[t] == event_stmt(
                c,
                i,
                j,
                k + t,
            ),
    decreases c.events@.len() - k,
{
    let ne = c.events@.len() as int;
    if k < ne {
        lemma_events_e_shape(c, i, j, k + 1);
        assert forall|t: int| 0 <= t < ne - k implies compile_events_e(c, i, j, k)[t]
            == event_stmt(c, i, j, k + t) by {
            if t > 0 {
                assert(compile_events_e(c, i, j, k)[t] == compile_events_e(c, i, j, k + 1)[t - 1]);
            }
        }
    }
}

proof fn lemma_events_r_shape(c: EventCapture, i: int, j: int)
    requires
        0 <= j <= c.resources@.len(),
    ensures
        compile_events_r(c, i, j).len() == (c.resources@.len() - j) * c.events@.len(),
        forall|t: int|
            0 <= t < (c.resources@.len() - j) * c.events@.len() ==> compile_events_r(c, i, j)[t]
                == event_stmt(c, i, j + t / (c.events@.len() as int), t % (c.events@.len() as int)),
    decreases c.resources@.len() - j,
{
    let nr = c.resources@.len() as int;
    let ne = c.events@.len() as int;
    if j == nr {
        assert((nr - j) * ne == 0) by (nonlinear_arith)
            requires
                j == nr,
        ;
    } else {
        lemma_events_e_shape(c, i, j, 0);
        lemma_events_r_shape(c, i, j + 1);
        assert((nr - j) * ne == ne + (nr - (j + 1)) * ne) by (nonlinear_arith);
        assert forall|t: int| 0 <= t < (nr - j) * ne implies compile_events_r(c, i, j)[t]
            == event_stmt(c, i, j + t / ne, t % ne) by {
            if t < ne {
                assert(compile_events_r(c, i, j)[t] == compile_events_e(c, i, j, 0)[t]);
                vstd::arithmetic::div_mod::lemma_fundamental_div_mod_converse(t, ne, 0, t);
            } else {
                assert(compile_events_r(c, i, j)[t] == compile_events_r(c, i, j + 1)[t - ne]);
                let q = (t - ne) / ne;
                let r = (t - ne) % ne;
                vstd::arithmetic::div_mod::lemma_fundamental_div_mod(t - ne, ne);
                assert(t == (q + 1) * ne + r) by (nonlinear_arith)
                    requires
                        t - ne == ne * q + r,
                ;
                vstd::arithmetic::div_mod::lemma_fundamental_div_mod_converse(t, ne, q + 1, r);
            }
        }
    }
}

proof fn lemma_events_p_shape(c: EventCapture, i: int)
    requires
        0 <= i <= c.principals@.len(),
    ensures
        compile_events_p(c, i).len() == (c.principals@.len() - i) * (c.resources@.len()
            * c.events@.len()),
        forall|t: int|
            0 <= t < (c.principals@.len() - i) * (c.resources@.len() * c.events@.len())
                ==> compile_events_p(c, i)[t] == event_stmt(
                c,
                i + t / (c.resources@.len() * c.events@.len() as int),
                (t % (c.resources@.len() * c.events@.len() as int)) / (c.events@.len() as int),
                (t % (c.resources@.len() * c.events@.len() as int)) % (c.events@.len() as int),
            ),
    decreases c.principals@.len() - i,
{
    let np = c.principals@.len() as int;
    let nr = c.resources@.len() as int;
    let ne = c.events@.len() as int;
    let blk = nr * ne;
    if i == np {
        assert((np - i) * blk == 0) by (nonlinear_arith)
            requires
                i == np,
        ;
    } else {
        lemma_events_r_shape(c, i, 0);
        lemma_events_p_shape(c, i + 1);
        assert((np - i) * blk == blk + (np - (i + 1)) * blk) by (nonlinear_arith);
        assert forall|t: int| 0 <= t < (np - i) * blk implies compile_events_p(c, i)[t]
            == event_stmt(c, i + t / blk, (t % blk) / ne, (t % blk) % ne) by {
            if t < blk {
                assert(compile_events_p(c, i)[t] == compile_events_r(c, i, 0)[t]);
                vstd::arithmetic::div_mod::lemma_fundamental_div_mod_converse(t, blk, 0, t);
                assert(compile_events_r(c, i, 0)[t] == event_stmt(c, i, t / ne, t % ne));
            } else {
                assert(compile_events_p(c, i)[t] == compile_events_p(c, i + 1)[t - blk]);
                let q = (t - blk) / blk;
                let r = (t - blk) % blk;
                vstd::arithmetic::div_mod::lemma_fundamental_div_mod(t - blk, blk);
                assert(t == (q + 1) * blk + r) by (nonlinear_arith)
                    requires
                        t - blk == blk * q + r,
                ;
                vstd::arithmetic::div_mod::lemma_fundamental_div_mod_converse(t, blk, q + 1, r);
            }
        }
    }
}

/// Law: an event capture with P principals, R resources and E event types
/// compiles to exactly P * R * E event-edge upserts - the full cross product,
/// the statement for triple `(i, j, k)` standing at index
/// `i * R * E + j * E + k`.
pub proof fn lemma_cross_product_complete(c: EventCapture)
    ensures
        compile_capture(c).len() == c.principals@.len() * c.resources@.len() * c.events@.len(),
        forall|i: int, j: int, k: int|
            0 <= i < c.principals@.len() && 0 <= j < c.resources@.len() && 0 <= k
                < c.events@.len() ==> compile_capture(c)[i * (c.resources@.len()
                * c.events@.len()) + j * c.events@.len() + k] == event_stmt(c, i, j, k),
{
    let np = c.principals@.len() as int;
    let nr = c.resources@.len() as int;
    let ne = c.events@.len() as int;
    let blk = nr * ne;
    lemma_events_p_shape(c, 0);
    assert((np - 0) * (nr * ne) == np * nr * ne) by (nonlinear_arith);
    assert forall|i: int, j: int, k: int|
        0 <= i < np && 0 <= j < nr && 0 <= k < ne implies compile_capture(c)[i * blk + j * ne + k]
        == event_stmt(c, i, j, k) by {
        let t = i * blk + j * ne + k;
        assert(0 <= j * ne + k < blk && 0 <= t < (np - 0) * blk) by (nonlinear_arith)
            requires
                0 <= i < np && 0 <= j < nr && 0 <= k < ne && blk == nr * ne && t == i * blk + j
                    * ne + k,
        ;
        vstd::arithmetic::div_mod::lemma_fundamental_div_mod_converse(t, blk, i, j * ne + k);
        vstd::arithmetic::div_mod::lemma_fundamental_div_mod_converse(j * ne + k, ne, j, k);
    }
}

proof fn lemma_add_assoc(a: Seq<StmtV>, b: Seq<StmtV>, c: Seq<StmtV>)
    ensures
        (a + b) + c == a + (b + c),
{
    assert((a + b) + c =~= a + (b + c));
}

/// Emit the statements of one node (and its subtree) onto `out`.
fn emit_node(node: &ResourceTreeNode, prefix: &Vec<ResourceIdSegment>, out: &mut Vec<Statement>)
    ensures
        stmts_v(final(out)@) == stmts_v(old(out)@) + compile_node(*node, segs_v(*prefix)),
    decreases *node,
{
    let ghost prefix_v = segs_v(*prefix);
    let ghost base0 = stmts_v(out@);

    let mut eff: Vec<ResourceIdSegment> = if node.globally_unique {
        Vec::new()
    } else {
        copy_segments(prefix)
    };
    eff.push(copy_seg(&node.segment));
    proof {
        assert(segs_v(eff) =~= effective_id(*node, prefix_v));
    }
    let ghost eff_v = segs_v(eff);

    out.push(Statement::UpsertResource {
        id: ResourceId { segments: copy_segments(&eff) },
        first_seen_at: node.first_seen_at,
        last_seen_at: node.last_seen_at,
    });
    if node.attributes.len() > 0 {
        out.push(Statement::MergeResourceAttributes {
            id: ResourceId { segments: copy_segments(&eff) },
            attributes: copy_attrs(&node.attributes),
        });
    }
    let ghost head = seq![
        StmtV::UpsertResource {
            id: eff_v,
            first_seen_at: node.first_seen_at,
            last_seen_at: node.last_seen_at,
        },
    ];
    let ghost merge = if attrs_v(node.attributes).len() > 0 {
        seq![StmtV::MergeResourceAttributes { id: eff_v, attributes: attrs_v(node.attributes) }]
    } else {
        Seq::<StmtV>::empty()
    };
    let ghost base = base0 + head + merge;
    proof {
        assert(stmts_v(out@) =~= base);
    }

    let n = node.contains.len();
    let mut j: usize = 0;
    while j < n
        invariant
            n == node.contains@.len(),
            j <= n,
            segs_v(eff) == eff_v,
            eff_v == effective_id(*node, prefix_v),
            stmts_v(out@) + compile_nodes(node.contains@, eff_v, j as int) == base
                + compile_nodes(node.contains@, eff_v, 0),
        decreases n - j,
    {
        proof {
            assert(decreases_to!(*node => node.contains));
            assert(decreases_to!(node.contains => node.contains@));
            assert(decreases_to!(node.contains@ => node.contains@[j as int]));
        }
        let ghost out_pre = stmts_v(out@);
        emit_node(&node.contains[j], &eff, out);
        proof {
            lemma_add_assoc(
                out_pre,
                compile_node(node.contains@[j as int], eff_v),
                compile_nodes(node.contains@, eff_v, j + 1),
            );
        }
        j += 1;
    }
    proof {
        assert(stmts_v(out@) + Seq::<StmtV>::empty() =~= stmts_v(out@));
        assert(stmts_v(out@) == base + compile_nodes(node.contains@, eff_v, 0));
    }

    if prefix.len() > 0 {
        out.push(Statement::UpsertContainsEdge {
            parent: ResourceId { segments: copy_segments(prefix) },
            child: ResourceId { segments: eff },
            first_seen_at: node.first_seen_at,
            last_seen_at: node.last_seen_at,
        });
        proof {
            assert(prefix_v.len() > 0);
            let edge = seq![
                StmtV::UpsertContainsEdge {
                    parent: prefix_v,
                    child: eff_v,
                    first_seen_at: node.first_seen_at,
                    last_seen_at: node.last_seen_at,
                },
            ];
            let kids = compile_nodes(node.contains@, eff_v, 0);
            assert(compile_node(*node, prefix_v) == ((head + merge) + kids) + edge);
            assert(stmts_v(out@) =~= (base + kids) + edge);
            assert(base + kids + edge =~= base0 + (((head + merge) + kids) + edge));
            assert(stmts_v(out@) =~= base0 + compile_node(*node, prefix_v));
        }
    } else {
        proof {
            assert(prefix_v.len() == 0);
            assert(stmts_v(out@) =~= base0 + compile_node(*node, prefix_v));
        }
    }
}

/// Emit the full cross product of one event capture onto `out`.
fn emit_events(capture: &EventCapture, out: &mut Vec<Statement>)
    ensures
        stmts_v(final(out)@) == stmts_v(old(out)@) + compile_capture(*capture),
{
    let ghost base = stmts_v(out@);
    let np = capture.principals.len();
    let mut i: usize = 0;
    while i < np
        invariant
            np == capture.principals@.len(),
            i <= np,
            stmts_v(out@) + compile_events_p(*capture, i as int) == base + compile_events_p(
                *capture,
                0,
            ),
        decreases np - i,
    {
        let nr = capture.resources.len();
        let mut j: usize = 0;
        while j < nr
            invariant
                np == capture.principals@.len(),
                nr == capture.resources@.len(),
                i < np,
                j <= nr,
                stmts_v(out@) + compile_events_r(*capture, i as int, j as int) + compile_events_p(
                    *capture,
                    i + 1,
                ) == base + compile_events_p(*capture, 0),
            decreases nr - j,
        {
            let ne = capture.events.len();
            let mut k: usize = 0;
            while k < ne
                invariant
                    np == capture.principals@.len(),
                    nr == capture.resources@.len(),
                    ne == capture.events@.len(),
                    i < np,
                    j < nr,
                    k <= ne,
                    stmts_v(out@) + compile_events_e(*capture, i as int, j as int, k as int)
                        + compile_events_r(*capture, i as int, j + 1) + compile_events_p(
                        *capture,
                        i + 1,
                    ) == base + compile_events_p(*capture, 0),
                decreases ne - k,
            {
                let ghost out_pre = stmts_v(out@);
                let ev = &capture.events[k];
                out.push(Statement::UpsertEventEdge {
                    principal: copy_id(&capture.principals[i]),
                    target: copy_id(&capture.resources[j]),
                    event_type: copy_bytes(&ev.event_type),
                    first_seen_at: ev.first_seen_at,
                    last_seen_at: ev.last_seen_at,
                });
                proof {
                    let ghost ci = i as int;
                    let ghost cj = j as int;
                    let ghost ck = k as int;
                    assert(stmts_v(out@) =~= out_pre + seq![event_stmt(*capture, ci, cj, ck)]);
                    assert(stmts_v(out@) + compile_events_e(*capture, ci, cj, ck + 1)
                        + compile_events_r(*capture, ci, cj + 1) + compile_events_p(
                        *capture,
                        ci + 1,
                    ) =~= out_pre + compile_events_e(*capture, ci, cj, ck) + compile_events_r(
                        *capture,
                        ci,
                        cj + 1,
                    ) + compile_events_p(*capture, ci + 1));
                }
                k += 1;
            }
            proof {
                assert(stmts_v(out@) + compile_events_r(*capture, i as int, j + 1)
                    + compile_events_p(*capture, i + 1) =~= base + compile_events_p(*capture, 0));
            }
            j += 1;
        }
        proof {
            assert(stmts_v(out@) + compile_events_p(*capture, i + 1) =~= base + compile_events_p(
                *capture,
                0,
            ));
        }
        i += 1;
    }
    proof {
        assert(stmts_v(final(out)@) =~= base + compile_capture(*capture));
    }
}

// The compiled output of an ingestion request holds only upserts and merges,
// and every attribute merge stands after its record's own upsert. These two
// shape facts feed the idempotence law.

proof fn lemma_ingestion_concat(a: Seq<StmtV>, b: Seq<StmtV>)
    requires
        crate::graph::ingestion_only(a, 0),
        crate::graph::ingestion_only(b, 0),
    ensures
        crate::graph::ingestion_only(a + b, 0),
{
    assert forall|j: int| 0 <= j < (a + b).len() implies !((#[trigger] (a + b)[j])
        is CreateReportKey) by {
        if j < a.len() {
            assert((a + b)[j] == a[j]);
        } else {
            assert((a + b)[j] == b[j - a.len()]);
        }
    }
}

proof fn lemma_node_shape(n: ResourceTreeNode, prefix: RIdV)
    ensures
        crate::graph::ingestion_only(compile_node(n, prefix), 0),
        forall|k: RIdV| #[trigger] crate::graph::res_covered(compile_node(n, prefix), 0, k),
    decreases n, 0int,
{
    let eff = effective_id(n, prefix);
    let head = seq![
        StmtV::UpsertResource {
            id: eff,
            first_seen_at: n.first_seen_at,
            last_seen_at: n.last_seen_at,
        },
    ];
    let merge = if attrs_v(n.attributes).len() > 0 {
        seq![StmtV::MergeResourceAttributes { id: eff, attributes: attrs_v(n.attributes) }]
    } else {
        Seq::<StmtV>::empty()
    };
    let kids = compile_nodes(n.contains@, eff, 0);
    let edge = if prefix.len() > 0 {
        seq![
            StmtV::UpsertContainsEdge {
                parent: prefix,
                child: eff,
                first_seen_at: n.first_seen_at,
                last_seen_at: n.last_seen_at,
            },
        ]
    } else {
        Seq::<StmtV>::empty()
    };
    assert(compile_node(n, prefix) == ((head + merge) + kids) + edge);
    lemma_nodes_shape(n.contains@, eff, 0);
    assert(crate::graph::ingestion_only(head + merge, 0));
    assert(crate::graph::ingestion_only(edge, 0));
    lemma_ingestion_concat(head + merge, kids);
    lemma_ingestion_concat((head + merge) + kids, edge);
    assert forall|k: RIdV| #[trigger] crate::graph::res_covered(compile_node(n, prefix), 0, k) by {
        if k == eff {
            assert((((head + merge) + kids) + edge)[0] == head[0]);
            assert(crate::graph::is_res_upsert(compile_node(n, prefix)[0], k));
            assert(crate::graph::res_covered(compile_node(n, prefix), 0, k));
        } else {
            assert forall|j: int| 0 <= j < (head + merge).len() implies !crate::graph::is_res_merge(
                #[trigger] (head + merge)[j],
                k,
            ) by {
                if j == 0 {
                    assert((head + merge)[j] == head[0]);
                } else {
                    assert((head + merge)[j] == merge[j - 1]);
                }
            }
            crate::graph::lemma_covered_no_merge(head + merge, 0, k);
            assert(crate::graph::res_covered(kids, 0, k));
            assert forall|j: int| 0 <= j < edge.len() implies !crate::graph::is_res_merge(
                #[trigger] edge[j],
                k,
            ) by {}
            crate::graph::lemma_covered_no_merge(edge, 0, k);
            crate::graph::lemma_covered_concat(head + merge, kids, k);
            crate::graph::lemma_covered_concat((head + merge) + kids, edge, k);
        }
    }
}

proof fn lemma_nodes_shape(nodes: Seq<ResourceTreeNode>, prefix: RIdV, i: int)
    ensures
        crate::graph::ingestion_only(compile_nodes(nodes, prefix, i), 0),
        forall|k: RIdV| #[trigger] crate::graph::res_covered(compile_nodes(nodes, prefix, i), 0, k),
    decreases nodes, nodes.len() - i + 1,
{
    if i < 0 || i >= nodes.len() {
        assert forall|k: RIdV| #[trigger] crate::graph::res_covered(
            compile_nodes(nodes, prefix, i),
            0,
            k,
        ) by {
            assert(compile_nodes(nodes, prefix, i).len() == 0);
        }
    } else {
        lemma_node_shape(nodes[i], prefix);
        lemma_nodes_shape(nodes, prefix, i + 1);
        lemma_ingestion_concat(compile_node(nodes[i], prefix), compile_nodes(nodes, prefix, i + 1));
        assert forall|k: RIdV| #[trigger] crate::graph::res_covered(
            compile_nodes(nodes, prefix, i),
            0,
            k,
        ) by {
            crate::graph::lemma_covered_concat(
                compile_node(nodes[i], prefix),
                compile_nodes(nodes, prefix, i + 1),
                k,
            );
        }
    }
}

proof fn lemma_capture_shape(c: EventCapture)
    ensures
        crate::graph::ingestion_only(compile_capture(c), 0),
        forall|k: RIdV| #[trigger] crate::graph::res_covered(compile_capture(c), 0, k),
{
    lemma_events_p_shape(c, 0);
    assert forall|j: int| 0 <= j < compile_capture(c).len() implies !((#[trigger] compile_capture(
        c,
    )[j]) is CreateReportKey) by {
        assert(compile_events_p(c, 0)[j] == event_stmt(
            c,
            0 + j / (c.resources@.len() * c.events@.len() as int),
            (j % (c.resources@.len() * c.events@.len() as int)) / (c.events@.len() as int),
            (j % (c.resources@.len() * c.events@.len() as int)) % (c.events@.len() as int),
        ));
    }
    assert forall|k: RIdV| #[trigger] crate::graph::res_covered(compile_capture(c), 0, k) by {
        assert forall|j: int| 0 <= j < compile_capture(c).len() implies !crate::graph::is_res_merge(
            #[trigger] compile_capture(c)[j],
            k,
        ) by {
            assert(compile_events_p(c, 0)[j] == event_stmt(
                c,
                0 + j / (c.resources@.len() * c.events@.len() as int),
                (j % (c.resources@.len() * c.events@.len() as int)) / (c.events@.len() as int),
                (j % (c.resources@.len() * c.events@.len() as int)) % (c.events@.len() as int),
            ));
        }
        crate::graph::lemma_covered_no_merge(compile_capture(c), 0, k);
    }
}

proof fn lemma_captures_shape(cs: Seq<EventCapture>, i: int)
    ensures
        crate::graph::ingestion_only(compile_captures(cs, i), 0),
        forall|k: RIdV| #[trigger] crate::graph::res_covered(compile_captures(cs, i), 0, k),
    decreases cs.len() - i,
{
    if i < 0 || i >= cs.len() {
        assert forall|k: RIdV| #[trigger] crate::graph::res_covered(
            compile_captures(cs, i),
            0,
            k,
        ) by {
            assert(compile_captures(cs, i).len() == 0);
        }
    } else {
        lemma_capture_shape(cs[i]);
        lemma_captures_shape(cs, i + 1);
        lemma_ingestion_concat(compile_capture(cs[i]), compile_captures(cs, i + 1));
        assert forall|k: RIdV| #[trigger] crate::graph::res_covered(
            compile_captures(cs, i),
            0,
            k,
        ) by {
            crate::graph::lemma_covered_concat(compile_capture(cs[i]), compile_captures(cs, i + 1), k);
        }
    }
}

/// Shape of a compiled ingestion request: only upserts and merges, each merge
/// after its record's upsert.
pub proof fn lemma_request_shape(req: ReportRequest)
    ensures
        crate::graph::ingestion_only(compile_request(req), 0),
        forall|k: RIdV| #[trigger] crate::graph::res_covered(compile_request(req), 0, k),
{
    lemma_nodes_shape(req.resource_captures@, Seq::<SegV>::empty(), 0);
    lemma_captures_shape(req.event_captures@, 0);
    lemma_ingestion_concat(
        compile_nodes(req.resource_captures@, Seq::<SegV>::empty(), 0),
        compile_captures(req.event_captures@, 0),
    );
    assert forall|k: RIdV| #[trigger] crate::graph::res_covered(compile_request(req), 0, k) by {
        crate::graph::lemma_covered_concat(
            compile_nodes(req.resource_captures@, Seq::<SegV>::empty(), 0),
            compile_captures(req.event_captures@, 0),
            k,
        );
    }
}

/// Law (idempotence): submitting the identical ingestion request twice yields
/// exactly the graph state of submitting it once - resource set, attribute
/// maps, edge set and first-seen fields unchanged, last-seen fields taking
/// the (identical) second submission's timestamps.
pub proof fn lemma_ingestion_idempotent(g: crate::graph::GraphState, req: ReportRequest)
    ensures
        crate::graph::apply_stmts(
            crate::graph::apply_stmts(g, compile_request(req), 0),
            compile_request(req),
            0,
        ) == crate::graph::apply_stmts(g, compile_request(req), 0),
{
    lemma_request_shape(req);
    crate::graph::lemma_replay_idempotent(g, compile_request(req));
}

/// The Upsert Compiler: turn one ingestion request into the ordered statement
/// list that executes inside a single read-write transaction.
pub fn compile_report(req: &ReportRequest) -> (out: Vec<Statement>)
    ensures
        stmts_v(out@) == compile_request(*req),
{
    let mut out: Vec<Statement> = Vec::new();
    let empty_prefix: Vec<ResourceIdSegment> = Vec::new();
    proof {
        assert(segs_v(empty_prefix) =~= Seq::<SegV>::empty());
    }

    let n = req.resource_captures.len();
    let mut i: usize = 0;
    while i < n
        invariant
            n == req.resource_captures@.len(),
            i <= n,
            segs_v(empty_prefix) == Seq::<SegV>::empty(),
            stmts_v(out@) + compile_nodes(req.resource_captures@, Seq::<SegV>::empty(), i as int)
                == compile_nodes(req.resource_captures@, Seq::<SegV>::empty(), 0),
        decreases n - i,
    {
        let ghost out_pre = stmts_v(out@);
        emit_node(&req.resource_captures[i], &empty_prefix, &mut out);
        proof {
            lemma_add_assoc(
                out_pre,
                compile_node(req.resource_captures@[i as int], Seq::<SegV>::empty()),
                compile_nodes(req.resource_captures@, Seq::<SegV>::empty(), i + 1),
            );
        }
        i += 1;
    }
    proof {
        assert(stmts_v(out@) + Seq::<StmtV>::empty() =~= stmts_v(out@));
    }

    let m = req.event_captures.len();
    let mut c: usize = 0;
    while c < m
        invariant
            m == req.event_captures@.len(),
            c <= m,
            stmts_v(out@) + compile_captures(req.event_captures@, c as int) == compile_nodes(
                req.resource_captures@,
                Seq::<SegV>::empty(),
                0,
            ) + compile_captures(req.event_captures@, 0),
        decreases m - c,
    {
        let ghost out_pre = stmts_v(out@);
        emit_events(&req.event_captures[c], &mut out);
        proof {
            lemma_add_assoc(
                out_pre,
                compile_capture(req.event_captures@[c as int]),
                compile_captures(req.event_captures@, c + 1),
            );
        }
        c += 1;
    }
    proof {
        assert(stmts_v(out@) + Seq::<StmtV>::empty() =~= stmts_v(out@));
        assert(stmts_v(out@) == compile_request(*req));
    }
    out
}

} // verus!
