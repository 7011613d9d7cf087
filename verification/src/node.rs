//! Nodes of the object graph.
use crate::ids;
use crate::liveness::Liveness;
use vstd::prelude::*;

verus! {

/// Mathematical content of a [`LatticeNode`].
#[verifier::ext_equal]
pub struct NodeView {
    pub liveness: Liveness,
    pub edges: Seq<usize>,
    pub tag: Option<Seq<char>>,
    pub gpu_handle: u64,
}

impl NodeView {
    /// The same node with another liveness.
    pub open spec fn with_liveness(self, liveness: Liveness) -> NodeView {
        NodeView { liveness, ..self }
    }

    /// The node with a reference to `target`, added at the end unless it is
    /// already there.
    pub open spec fn with_edge(self, target: usize) -> NodeView {
        if self.edges.contains(target) {
            self
        } else {
            NodeView { edges: self.edges.push(target), ..self }
        }
    }

    /// The node without any reference to `target`.
    pub open spec fn without_edge(self, target: usize) -> NodeView {
        NodeView { edges: self.edges.filter(other_than(target)), ..self }
    }
}

/// Holds of every id but `target`.
pub open spec fn other_than(target: usize) -> spec_fn(usize) -> bool {
    |id: usize| id != target
}

/// A node in the GPU object graph.
///
/// A node carries a ternary liveness and the outgoing reference edges, given
/// by the ids of the nodes they lead to. It may have a type tag that classifies
/// the GPU resource (texture, buffer, pipeline, ...).
#[derive(Debug)]
pub struct LatticeNode {
    /// Current liveness state.
    pub liveness: Liveness,
    /// Outgoing reference edges (target node ids).
    pub edges: Vec<usize>,
    /// Optional type tag (e.g. "texture", "buffer").
    pub tag: Option<String>,
    /// Opaque id by which the caller finds the GPU resource.
    pub gpu_handle: u64,
}

impl View for LatticeNode {
    type V = NodeView;

    open spec fn view(&self) -> NodeView {
        NodeView {
            liveness: self.liveness,
            edges: self.edges@,
            tag: match self.tag {
                Some(tag) => Some(tag@),
                None => None,
            },
            gpu_handle: self.gpu_handle,
        }
    }
}

impl Clone for LatticeNode {
    fn clone(&self) -> (copy: Self)
        ensures
            copy@ == self@,
            copy.liveness == self.liveness,
            copy.edges@ == self.edges@,
            copy.tag is Some == self.tag is Some,
            self.tag is Some ==> copy.tag->0@ == self.tag->0@,
            copy.gpu_handle == self.gpu_handle,
    {
        let edges = self.edges.clone();
        let tag = match &self.tag {
            Some(tag) => Some(tag.clone()),
            None => None,
        };
        LatticeNode { liveness: self.liveness, edges, tag, gpu_handle: self.gpu_handle }
    }
}

impl LatticeNode {
    /// Create a new node with the given liveness and no edges.
    pub fn new(liveness: Liveness) -> (node: Self)
        ensures
            node@ == (NodeView { liveness, edges: Seq::empty(), tag: None, gpu_handle: 0 }),
            node.liveness == liveness,
            node.edges@ == Seq::<usize>::empty(),
            node.tag is None,
            node.gpu_handle == 0,
    {
        LatticeNode { liveness, edges: Vec::new(), tag: None, gpu_handle: 0 }
    }

    /// Create a node with a GPU handle and type tag.
    pub fn with_handle<T: Into<String>>(liveness: Liveness, gpu_handle: u64, tag: T) -> (node: Self)
        ensures
            node.liveness == liveness,
            node.edges@ == Seq::<usize>::empty(),
            node.gpu_handle == gpu_handle,
            node.tag is Some,
            call_ensures(T::into, (tag,), node.tag->0),
            <T as vstd::std_specs::convert::IntoSpec<String>>::obeys_into_spec() ==> node.tag == Some(
                vstd::std_specs::convert::IntoSpec::<String>::into_spec(tag),
            ),
    {
        LatticeNode { liveness, edges: Vec::new(), tag: Some(tag.into()), gpu_handle }
    }

    /// Add an outgoing reference edge, unless it is already there.
    pub fn add_edge(&mut self, target: usize)
        ensures
            final(self)@ == old(self)@.with_edge(target),
            old(self).edges@.contains(target) ==> final(self).edges@ == old(self).edges@,
            !old(self).edges@.contains(target) ==> final(self).edges@ == old(self).edges@.push(
                target,
            ),
            final(self).liveness == old(self).liveness,
            final(self).tag == old(self).tag,
            final(self).gpu_handle == old(self).gpu_handle,
    {
        if ids::position(&self.edges, target).is_none() {
            self.edges.push(target);
        }
    }

    /// Remove an edge (if present).
    pub fn remove_edge(&mut self, target: usize)
        ensures
            final(self)@ == old(self)@.without_edge(target),
            final(self).edges@ == old(self).edges@.filter(|edge: usize| edge != target),
            final(self).liveness == old(self).liveness,
            final(self).tag == old(self).tag,
            final(self).gpu_handle == old(self).gpu_handle,
    {
        let mut kept: Vec<usize> = Vec::new();
        let mut i: usize = 0;
        while i < self.edges.len()
            invariant
                i <= self.edges@.len(),
                kept@ == self.edges@.take(i as int).filter(other_than(target)),
                *self == *old(self),
            decreases self.edges@.len() - i,
        {
            let edge = self.edges[i];
            proof {
                let seen = self.edges@.take(i as int);
                assert(self.edges@.take(i + 1).drop_last() =~= seen);
                assert(self.edges@.take(i + 1).last() == edge);
                reveal(Seq::filter);
            }
            if edge != target {
                kept.push(edge);
            }
            i = i + 1;
        }
        assert(self.edges@.take(i as int) =~= self.edges@);
        assert(other_than(target) =~= (|edge: usize| edge != target));
        self.edges = kept;
    }
}

/// The content of a node is what its fields hold.
pub proof fn lemma_content_is_the_fields(node: LatticeNode)
    ensures
        node@.liveness == node.liveness,
        node@.edges == node.edges@,
        node@.tag is Some <==> node.tag is Some,
        node.tag is Some ==> node@.tag->0 == node.tag->0@,
        node@.gpu_handle == node.gpu_handle,
{
}

/// A change of liveness changes nothing else: the references, the tag and the
/// handle stay what they were, whatever the liveness was before.
pub proof fn lemma_liveness_changes_alone(node: NodeView, liveness: Liveness)
    ensures
        node.with_liveness(liveness).liveness == liveness,
        node.with_liveness(liveness).edges == node.edges,
        node.with_liveness(liveness).tag == node.tag,
        node.with_liveness(liveness).gpu_handle == node.gpu_handle,
{
}

/// Adding a reference adds that one and loses none: a node refers to `other`
/// afterwards exactly if it did before or `other` is the target. The old
/// references keep their places, a new one comes last, and a node that already
/// has it is left as it was.
pub proof fn lemma_add_edge_adds(node: NodeView, target: usize, other: usize)
    ensures
        node.with_edge(target).edges.contains(other) <==> node.edges.contains(other) || other
            == target,
        node.edges.is_prefix_of(node.with_edge(target).edges),
        node.edges.contains(target) ==> node.with_edge(target) == node,
        !node.edges.contains(target) ==> node.with_edge(target).edges.len() == node.edges.len() + 1
            && node.with_edge(target).edges.last() == target,
        node.with_edge(target).liveness == node.liveness,
        node.with_edge(target).tag == node.tag,
        node.with_edge(target).gpu_handle == node.gpu_handle,
{
    ids::lemma_contains_push(node.edges, target);
}

/// Removing a reference drops every occurrence of it and keeps the others in
/// their order: what was there before a last reference is treated as if that
/// one were not there, and the last one stays exactly if it leads elsewhere. A
/// node without the reference is left as it was.
pub proof fn lemma_remove_edge_keeps_the_others(node: NodeView, target: usize)
    ensures
        node.edges.len() == 0 ==> node.without_edge(target).edges.len() == 0,
        node.edges.len() > 0 ==> node.without_edge(target).edges == ({
            let before = (NodeView { edges: node.edges.drop_last(), ..node }).without_edge(
                target,
            ).edges;
            if node.edges.last() == target {
                before
            } else {
                before.push(node.edges.last())
            }
        }),
        !node.edges.contains(target) ==> node.without_edge(target) == node,
        node.without_edge(target).liveness == node.liveness,
        node.without_edge(target).tag == node.tag,
        node.without_edge(target).gpu_handle == node.gpu_handle,
{
    reveal(Seq::filter);
    if !node.edges.contains(target) {
        ids::lemma_filter_all(node.edges, other_than(target));
        assert(node.without_edge(target) =~= node);
    }
}

/// An added edge is there once, and the edges stay free of duplicates.
pub proof fn lemma_edges_stay_distinct(node: NodeView, target: usize)
    requires
        node.edges.no_duplicates(),
    ensures
        node.with_edge(target).edges.no_duplicates(),
        node.with_edge(target).edges.contains(target),
        node.without_edge(target).edges.no_duplicates(),
{
    if !node.edges.contains(target) {
        assert(node.with_edge(target).edges[node.edges.len() as int] == target);
    }
    ids::lemma_filter_distinct(node.edges, other_than(target));
}

/// Adding an edge a second time changes nothing.
pub proof fn lemma_add_edge_idempotent(node: NodeView, target: usize)
    ensures
        node.with_edge(target).with_edge(target) == node.with_edge(target),
{
    if !node.edges.contains(target) {
        assert(node.with_edge(target).edges[node.edges.len() as int] == target);
    }
}

/// A removed edge is gone, and no other edge is.
pub proof fn lemma_remove_edge_removes(node: NodeView, target: usize, other: usize)
    ensures
        node.without_edge(target).edges.contains(other) <==> node.edges.contains(other) && other
            != target,
{
    ids::lemma_filter_contains(node.edges, other_than(target));
}

/// Removing an edge undoes adding it, where it was not there before.
pub proof fn lemma_remove_undoes_add(node: NodeView, target: usize)
    requires
        !node.edges.contains(target),
    ensures
        node.with_edge(target).without_edge(target) == node,
{
    let added = node.edges.push(target);
    assert(added.drop_last() =~= node.edges);
    reveal(Seq::filter);
    ids::lemma_filter_all(node.edges, other_than(target));
    assert(node.with_edge(target).without_edge(target).edges =~= node.edges);
}

} // verus!
