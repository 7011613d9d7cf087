//! The object graph as a mathematical map from ids to nodes.
use crate::liveness::Liveness;
use crate::node::{LatticeNode, NodeView};
use vstd::prelude::*;

verus! {

/// The contents of the nodes.
pub open spec fn node_views(nodes: Map<usize, LatticeNode>) -> Map<usize, NodeView> {
    nodes.map_values(|node: LatticeNode| node@)
}

/// Is `id` a dead node?
pub open spec fn dead_in(nodes: Map<usize, NodeView>, id: usize) -> bool {
    nodes.contains_key(id) && nodes[id].liveness == Liveness::Dead
}

/// Is `id` a node that is definitely alive?
pub open spec fn alive_in(nodes: Map<usize, NodeView>, id: usize) -> bool {
    nodes.contains_key(id) && nodes[id].liveness == Liveness::Alive
}

/// The ids of the dead nodes.
pub open spec fn dead_ids(nodes: Map<usize, NodeView>) -> Set<usize> {
    nodes.dom().filter(|id: usize| nodes[id].liveness == Liveness::Dead)
}

/// The ids of the nodes that are definitely alive.
pub open spec fn alive_ids(nodes: Map<usize, NodeView>) -> Set<usize> {
    nodes.dom().filter(|id: usize| nodes[id].liveness == Liveness::Alive)
}

/// The nodes that are left once the dead ones are gone.
pub open spec fn swept(nodes: Map<usize, NodeView>) -> Map<usize, NodeView> {
    nodes.remove_keys(dead_ids(nodes))
}

/// Holds of the members of `ids`.
pub open spec fn member_of(ids: Set<usize>) -> spec_fn(usize) -> bool {
    |id: usize| ids.contains(id)
}

/// Those of the ids that have a node, in the same order and as often.
pub open spec fn existing(nodes: Map<usize, NodeView>, ids: Seq<usize>) -> Seq<usize> {
    ids.filter(member_of(nodes.dom()))
}

/// The two graphs have the same ids, with the same references.
pub open spec fn same_edges(a: Map<usize, NodeView>, b: Map<usize, NodeView>) -> bool {
    &&& a.dom() == b.dom()
    &&& forall|id: usize| a.contains_key(id) ==> #[trigger] b[id].edges == a[id].edges
}

/// The two graphs have the same nodes, alike in all but liveness.
pub open spec fn same_graph(a: Map<usize, NodeView>, b: Map<usize, NodeView>) -> bool {
    &&& a.dom() == b.dom()
    &&& forall|id: usize|
        a.contains_key(id) ==> #[trigger] b[id] == a[id].with_liveness(b[id].liveness)
}

// ---------------------------------------------------------------------------
// Reachability
// ---------------------------------------------------------------------------
/// The references that `id` holds; an id without a node holds none.
pub open spec fn successors(nodes: Map<usize, NodeView>, id: usize) -> Seq<usize> {
    if nodes.contains_key(id) {
        nodes[id].edges
    } else {
        Seq::empty()
    }
}

/// Does node `from` exist and hold a reference to `to`?
pub open spec fn has_edge(nodes: Map<usize, NodeView>, from: usize, to: usize) -> bool {
    nodes.contains_key(from) && nodes[from].edges.contains(to)
}

/// Each id of the list refers to the next.
pub open spec fn is_chain(nodes: Map<usize, NodeView>, ids: Seq<usize>) -> bool {
    forall|i: int, j: int|
        0 <= i && j == i + 1 && j < ids.len() ==> has_edge(
            nodes,
            #[trigger] ids[i],
            #[trigger] ids[j],
        )
}

/// A walk along references from `from` to `to`, through nodes that all exist.
pub open spec fn is_path(
    nodes: Map<usize, NodeView>,
    path: Seq<usize>,
    from: usize,
    to: usize,
) -> bool {
    &&& path.len() > 0
    &&& path[0] == from
    &&& path.last() == to
    &&& nodes.contains_key(to)
    &&& is_chain(nodes, path)
}

/// Is there a walk from one of the roots to `id`?
pub open spec fn reachable(nodes: Map<usize, NodeView>, roots: Set<usize>, id: usize) -> bool {
    exists|path: Seq<usize>, root: usize|
        #[trigger] is_path(nodes, path, root, id) && roots.contains(root)
}

/// The ids of the nodes that can be reached from the roots.
pub open spec fn reachable_ids(nodes: Map<usize, NodeView>, roots: Set<usize>) -> Set<usize> {
    nodes.dom().filter(|id: usize| reachable(nodes, roots, id))
}

/// A root that exists can be reached.
pub proof fn lemma_root_reachable(nodes: Map<usize, NodeView>, roots: Set<usize>, root: usize)
    requires
        roots.contains(root),
        nodes.contains_key(root),
    ensures
        reachable(nodes, roots, root),
{
    assert(is_path(nodes, seq![root], root, root));
}

/// What a reachable node refers to can be reached, if it exists.
pub proof fn lemma_edge_reachable(
    nodes: Map<usize, NodeView>,
    roots: Set<usize>,
    from: usize,
    to: usize,
)
    requires
        reachable(nodes, roots, from),
        has_edge(nodes, from, to),
        nodes.contains_key(to),
    ensures
        reachable(nodes, roots, to),
{
    let (path, root) = choose|path: Seq<usize>, root: usize|
        #[trigger] is_path(nodes, path, root, from) && roots.contains(root);
    assert(is_path(nodes, path.push(to), root, to));
}

/// A set that holds the roots that exist, and with a node every existing node
/// that it refers to, holds all that can be reached.
pub proof fn lemma_reachable_in_closed_set(
    nodes: Map<usize, NodeView>,
    roots: Set<usize>,
    closed: Set<usize>,
    id: usize,
)
    requires
        forall|root: usize| #[trigger]
            roots.contains(root) && nodes.contains_key(root) ==> closed.contains(root),
        forall|from: usize, to: usize|
            closed.contains(from) && #[trigger] has_edge(nodes, from, to) && nodes.contains_key(to)
                ==> closed.contains(to),
        reachable(nodes, roots, id),
    ensures
        closed.contains(id),
{
    let (path, root) = choose|path: Seq<usize>, root: usize|
        #[trigger] is_path(nodes, path, root, id) && roots.contains(root);
    lemma_path_stays_inside(nodes, path, root, id, closed);
}

proof fn lemma_path_stays_inside(
    nodes: Map<usize, NodeView>,
    path: Seq<usize>,
    from: usize,
    to: usize,
    closed: Set<usize>,
)
    requires
        is_path(nodes, path, from, to),
        nodes.contains_key(from) ==> closed.contains(from),
        forall|a: usize, b: usize|
            closed.contains(a) && #[trigger] has_edge(nodes, a, b) && nodes.contains_key(b)
                ==> closed.contains(b),
    ensures
        closed.contains(to),
    decreases path.len(),
{
    if path.len() > 1 {
        let front = path.drop_last();
        let before = front.last();
        assert(has_edge(nodes, before, to)) by {
            assert(before == path[path.len() - 2]);
            assert(to == path[path.len() - 1]);
        }
        assert(is_chain(nodes, front)) by {
            assert forall|i: int, j: int|
                0 <= i && j == i + 1 && j < front.len() implies has_edge(
                nodes,
                #[trigger] front[i],
                #[trigger] front[j],
            ) by {
                assert(front[i] == path[i] && front[j] == path[j]);
            }
        }
        lemma_path_stays_inside(nodes, front, from, before, closed);
    }
}

/// More roots reach more: what can be reached from `fewer` can be reached from
/// `more`, in any graph with the same references, if `more` holds those of
/// `fewer` that exist. In particular liveness does not matter, nor do roots
/// without a node.
pub proof fn lemma_more_roots_reach_more(
    a: Map<usize, NodeView>,
    b: Map<usize, NodeView>,
    fewer: Set<usize>,
    more: Set<usize>,
    id: usize,
)
    requires
        same_edges(a, b),
        forall|root: usize| #[trigger]
            fewer.contains(root) && a.contains_key(root) ==> more.contains(root),
        reachable(a, fewer, id),
    ensures
        reachable(b, more, id),
{
    let closed = reachable_ids(b, more);
    assert forall|root: usize| #[trigger]
        fewer.contains(root) && a.contains_key(root) implies closed.contains(root) by {
        assert(b.contains_key(root));
        lemma_root_reachable(b, more, root);
    }
    assert forall|from: usize, to: usize|
        closed.contains(from) && #[trigger] has_edge(a, from, to) && a.contains_key(
            to,
        ) implies closed.contains(to) by {
        assert(b[from].edges == a[from].edges);
        assert(b.contains_key(to));
        lemma_edge_reachable(b, more, from, to);
    }
    lemma_reachable_in_closed_set(a, fewer, closed, id);
}

/// What can be reached: the roots that exist, what a reachable node refers to if
/// it exists, and nothing without a node.
pub proof fn lemma_reachable_along_references(
    nodes: Map<usize, NodeView>,
    roots: Set<usize>,
    id: usize,
    to: usize,
)
    ensures
        roots.contains(id) && nodes.contains_key(id) ==> reachable(nodes, roots, id),
        reachable(nodes, roots, id) && nodes[id].edges.contains(to) && nodes.contains_key(to)
            ==> reachable(nodes, roots, to),
        reachable(nodes, roots, id) ==> nodes.contains_key(id),
        reachable_ids(nodes, roots).contains(id) <==> reachable(nodes, roots, id),
{
    if roots.contains(id) && nodes.contains_key(id) {
        lemma_root_reachable(nodes, roots, id);
    }
    if reachable(nodes, roots, id) && nodes[id].edges.contains(to) && nodes.contains_key(to) {
        lemma_edge_reachable(nodes, roots, id, to);
    }
}

/// Nothing more can be reached: a set that holds the roots that exist, and with
/// a node every existing node that it refers to, holds whatever can be reached.
pub proof fn lemma_reachable_is_least(
    nodes: Map<usize, NodeView>,
    roots: Set<usize>,
    closed: Set<usize>,
    id: usize,
)
    requires
        forall|root: usize|
            roots.contains(root) && nodes.contains_key(root) ==> #[trigger] closed.contains(root),
        forall|from: usize, to: usize|
            closed.contains(from) && nodes.contains_key(from) && nodes[from].edges.contains(to)
                && nodes.contains_key(to) ==> #[trigger] closed.contains(from)
                && #[trigger] closed.contains(to),
        reachable(nodes, roots, id),
    ensures
        closed.contains(id),
{
    assert forall|root: usize| #[trigger]
        roots.contains(root) && nodes.contains_key(root) implies closed.contains(root) by {
        assert(closed.contains(root) || !closed.contains(root));
    }
    assert forall|from: usize, to: usize|
        closed.contains(from) && #[trigger] has_edge(nodes, from, to) && nodes.contains_key(
            to,
        ) implies closed.contains(to) by {
        assert(closed.contains(to) || !closed.contains(to));
    }
    lemma_reachable_in_closed_set(nodes, roots, closed, id);
}

/// The dead ids and the alive ids are those of the nodes with that liveness, and
/// sweeping removes the dead nodes and changes nothing in the others.
pub proof fn lemma_dead_are_swept(nodes: Map<usize, NodeView>, id: usize)
    ensures
        dead_ids(nodes).contains(id) <==> nodes.contains_key(id) && nodes[id].liveness
            == Liveness::Dead,
        alive_ids(nodes).contains(id) <==> nodes.contains_key(id) && nodes[id].liveness
            == Liveness::Alive,
        swept(nodes).contains_key(id) <==> nodes.contains_key(id) && nodes[id].liveness
            != Liveness::Dead,
        swept(nodes).contains_key(id) ==> {
            &&& swept(nodes)[id].liveness == nodes[id].liveness
            &&& swept(nodes)[id].edges == nodes[id].edges
            &&& swept(nodes)[id].tag == nodes[id].tag
            &&& swept(nodes)[id].gpu_handle == nodes[id].gpu_handle
        },
{
}

} // verus!
