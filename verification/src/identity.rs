use vstd::prelude::*;
use crate::ids::{seg_v, RIdV, SegV};
use crate::report::{compile_node, compile_nodes, ResourceTreeNode};
use crate::statements::StmtV;

verus! {

/// The resource identities a statement writes a resource record for: one for
/// a resource upsert, none otherwise.
pub open spec fn stmt_upsert_id(s: StmtV) -> Seq<RIdV> {
    match s {
        StmtV::UpsertResource { id, .. } => seq![id],
        _ => Seq::<RIdV>::empty(),
    }
}

/// All resource identities written by a statement list, in emission order.
pub open spec fn upsert_ids(ss: Seq<StmtV>) -> Seq<RIdV>
    decreases ss.len(),
{
    if ss.len() == 0 {
        Seq::<RIdV>::empty()
    } else {
        stmt_upsert_id(ss[0]) + upsert_ids(ss.drop_first())
    }
}

pub proof fn lemma_upsert_ids_add(a: Seq<StmtV>, b: Seq<StmtV>)
    ensures
        upsert_ids(a + b) == upsert_ids(a) + upsert_ids(b),
    decreases a.len(),
{
    if a.len() == 0 {
        assert(a + b =~= b);
        assert(upsert_ids(a) + upsert_ids(b) =~= upsert_ids(b));
    } else {
        assert((a + b).len() > 0);
        assert((a + b)[0] == a[0]);
        assert((a + b).drop_first() =~= a.drop_first() + b);
        lemma_upsert_ids_add(a.drop_first(), b);
        assert(stmt_upsert_id(a[0]) + (upsert_ids(a.drop_first()) + upsert_ids(b)) =~= (
        stmt_upsert_id(a[0]) + upsert_ids(a.drop_first())) + upsert_ids(b));
    }
}

/// Whether a subtree holds no globally-unique node.
pub open spec fn no_globally_unique(n: ResourceTreeNode) -> bool
    decreases n, 0int,
{
    !n.globally_unique && nodes_no_globally_unique(n.contains@, 0)
}

pub open spec fn nodes_no_globally_unique(nodes: Seq<ResourceTreeNode>, i: int) -> bool
    decreases nodes, nodes.len() - i + 1,
{
    if i < 0 || i >= nodes.len() {
        true
    } else {
        no_globally_unique(nodes[i]) && nodes_no_globally_unique(nodes, i + 1)
    }
}

/// The root-to-leaf path identity of every node of a subtree, in emission
/// order of the resource upserts: the node itself first, then its children,
/// each id the inherited path extended by the segments down to the node.
pub open spec fn path_ids(n: ResourceTreeNode, prefix: RIdV) -> Seq<RIdV>
    decreases n, 0int,
{
    seq![prefix.push(seg_v(n.segment))] + path_ids_nodes(
        n.contains@,
        prefix.push(seg_v(n.segment)),
        0,
    )
}

pub open spec fn path_ids_nodes(nodes: Seq<ResourceTreeNode>, prefix: RIdV, i: int) -> Seq<RIdV>
    decreases nodes, nodes.len() - i + 1,
{
    if i < 0 || i >= nodes.len() {
        Seq::<RIdV>::empty()
    } else {
        path_ids(nodes[i], prefix) + path_ids_nodes(nodes, prefix, i + 1)
    }
}

/// Law: for a tree without globally-unique nodes, the effective identity of
/// every node is exactly the path of segments from the root to that node, in
/// order, whatever prefix the tree is observed under.
pub proof fn lemma_path_identity(n: ResourceTreeNode, prefix: RIdV)
    requires
        no_globally_unique(n),
    ensures
        upsert_ids(compile_node(n, prefix)) == path_ids(n, prefix),
{
    lemma_path_identity_aux(n, prefix);
}

proof fn lemma_path_identity_aux(n: ResourceTreeNode, prefix: RIdV)
    requires
        no_globally_unique(n),
    ensures
        upsert_ids(compile_node(n, prefix)) == path_ids(n, prefix),
    decreases n, 0int,
{
    let eff = prefix.push(seg_v(n.segment));
    let head = seq![
        StmtV::UpsertResource {
            id: eff,
            first_seen_at: n.first_seen_at,
            last_seen_at: n.last_seen_at,
        },
    ];
    let merge = if crate::ids::attrs_v(n.attributes).len() > 0 {
        seq![
            StmtV::MergeResourceAttributes {
                id: eff,
                attributes: crate::ids::attrs_v(n.attributes),
            },
        ]
    } else {
        Seq::<StmtV>::empty()
    };
    let kids = compile_nodes(n.contains@, eff, 0);
    let edge = if prefix.len() > 0 {
        seq![
            StmtV::UpsertContainsEdge {
                parent: prefix,
                child: eff,
                first_seen_at: n.first_seen_at,
                last_seen_at: n.last_seen_at,
            },
        ]
    } else {
        Seq::<StmtV>::empty()
    };
    reveal_with_fuel(upsert_ids, 3);
    assert(compile_node(n, prefix) == ((head + merge) + kids) + edge);
    lemma_upsert_ids_add((head + merge) + kids, edge);
    lemma_upsert_ids_add(head + merge, kids);
    lemma_upsert_ids_add(head, merge);
    assert(upsert_ids(head) =~= seq![eff]);
    assert(upsert_ids(merge) =~= Seq::<RIdV>::empty());
    assert(upsert_ids(edge) =~= Seq::<RIdV>::empty());
    lemma_path_identity_nodes(n.contains@, eff, 0);
    assert(upsert_ids(compile_node(n, prefix)) =~= path_ids(n, prefix));
}

proof fn lemma_path_identity_nodes(nodes: Seq<ResourceTreeNode>, prefix: RIdV, i: int)
    requires
        nodes_no_globally_unique(nodes, i),
    ensures
        upsert_ids(compile_nodes(nodes, prefix, i)) == path_ids_nodes(nodes, prefix, i),
    decreases nodes, nodes.len() - i + 1,
{
    if i < 0 || i >= nodes.len() {
        assert(upsert_ids(compile_nodes(nodes, prefix, i)) =~= path_ids_nodes(nodes, prefix, i));
    } else {
        lemma_path_identity_aux(nodes[i], prefix);
        lemma_path_identity_nodes(nodes, prefix, i + 1);
        lemma_upsert_ids_add(compile_node(nodes[i], prefix), compile_nodes(nodes, prefix, i + 1));
    }
}

/// Helper for the globally-unique law: a globally-unique node's compiled
/// statements are those it would get as a root, followed by the containment
/// edge into its structural parent when it has one.
pub proof fn lemma_global_unique_split(n: ResourceTreeNode, prefix: RIdV)
    requires
        n.globally_unique,
    ensures
        prefix.len() > 0 ==> compile_node(n, prefix) == compile_node(n, Seq::<SegV>::empty())
            + seq![
            StmtV::UpsertContainsEdge {
                parent: prefix,
                child: seq![seg_v(n.segment)],
                first_seen_at: n.first_seen_at,
                last_seen_at: n.last_seen_at,
            },
        ],
        prefix.len() == 0 ==> compile_node(n, prefix) == compile_node(n, Seq::<SegV>::empty()),
{
    let eff = seq![seg_v(n.segment)];
    assert(crate::report::effective_id(n, prefix) == eff);
    assert(crate::report::effective_id(n, Seq::<SegV>::empty()) == eff);
    if prefix.len() > 0 {
        let edge = seq![
            StmtV::UpsertContainsEdge {
                parent: prefix,
                child: eff,
                first_seen_at: n.first_seen_at,
                last_seen_at: n.last_seen_at,
            },
        ];
        assert(compile_node(n, prefix) =~= compile_node(n, Seq::<SegV>::empty()) + edge);
    } else {
        assert(compile_node(n, prefix) =~= compile_node(n, Seq::<SegV>::empty()));
    }
}

/// Law: the effective identities written for a globally-unique node and its
/// descendants ignore every ancestor - they are the same under any two
/// prefixes - while the containment edge into the node still references the
/// true structural parent.
pub proof fn lemma_global_unique_identity(n: ResourceTreeNode, p1: RIdV, p2: RIdV)
    requires
        n.globally_unique,
    ensures
        upsert_ids(compile_node(n, p1)) == upsert_ids(compile_node(n, p2)),
        p1.len() > 0 ==> compile_node(n, p1).last() == (StmtV::UpsertContainsEdge {
            parent: p1,
            child: seq![seg_v(n.segment)],
            first_seen_at: n.first_seen_at,
            last_seen_at: n.last_seen_at,
        }),
{
    reveal_with_fuel(upsert_ids, 3);
    lemma_global_unique_split(n, p1);
    lemma_global_unique_split(n, p2);
    let root = compile_node(n, Seq::<SegV>::empty());
    if p1.len() > 0 {
        let edge1 = seq![
            StmtV::UpsertContainsEdge {
                parent: p1,
                child: seq![seg_v(n.segment)],
                first_seen_at: n.first_seen_at,
                last_seen_at: n.last_seen_at,
            },
        ];
        lemma_upsert_ids_add(root, edge1);
        assert(upsert_ids(edge1) =~= Seq::<RIdV>::empty());
        assert(upsert_ids(compile_node(n, p1)) =~= upsert_ids(root));
    }
    if p2.len() > 0 {
        let edge2 = seq![
            StmtV::UpsertContainsEdge {
                parent: p2,
                child: seq![seg_v(n.segment)],
                first_seen_at: n.first_seen_at,
                last_seen_at: n.last_seen_at,
            },
        ];
        lemma_upsert_ids_add(root, edge2);
        assert(upsert_ids(edge2) =~= Seq::<RIdV>::empty());
        assert(upsert_ids(compile_node(n, p2)) =~= upsert_ids(root));
    }
}

} // verus!
