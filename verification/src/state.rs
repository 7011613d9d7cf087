//! Mathematical state of the collector.
use crate::graph;
use crate::marking::Marking;
use crate::node::{LatticeNode, NodeView};
use vstd::prelude::*;

verus! {

/// A finalizer callback and the record of its calls.
#[verifier::ext_equal]
pub struct FinalizerView {
    /// May the callback be called with any id and any node?
    pub callable: bool,
    /// Is a call with this id and node one that can have returned?
    pub returns: spec_fn(usize, LatticeNode) -> bool,
    /// The calls made, oldest first.
    pub received: Seq<(usize, NodeView)>,
}

impl FinalizerView {
    /// The callback `f` before its first call.
    pub open spec fn fresh<F: FnMut(usize, &LatticeNode)>(f: F) -> FinalizerView {
        FinalizerView {
            callable: forall|id: usize, node: &LatticeNode| call_requires(f, (id, node)),
            returns: |id: usize, node: LatticeNode| call_ensures(f, (id, &node), ()),
            received: Seq::empty(),
        }
    }

    /// The callback with one more call on record.
    pub open spec fn record(self, id: usize, node: NodeView) -> FinalizerView {
        FinalizerView { received: self.received.push((id, node)), ..self }
    }

    /// Can a call with `id` and `node` have returned?
    pub open spec fn returned(self, id: usize, node: LatticeNode) -> bool {
        (self.returns)(id, node)
    }

    /// The callback accepts every call, and it returned from each call on
    /// record.
    pub open spec fn wf(self) -> bool {
        &&& self.callable
        &&& forall|i: int|
            0 <= i < self.received.len() ==> call_was_made(self, #[trigger] self.received[i])
    }
}

/// The callback returned from a call with this id and a node of this content.
pub open spec fn call_was_made(f: FinalizerView, call: (usize, NodeView)) -> bool {
    exists|node: LatticeNode| #[trigger] f.returned(call.0, node) && node@ == call.1
}

/// Mathematical content of a collector.
#[verifier::ext_equal]
pub struct GcView {
    /// The nodes, by id.
    pub nodes: Map<usize, NodeView>,
    /// The id that the next node gets.
    pub next_id: usize,
    /// The permanent roots, which every marking starts from.
    pub roots: Set<usize>,
    /// The gray worklist, front first.
    pub gray: Seq<usize>,
    /// The finalizer, where one is set.
    pub finalizer: Option<FinalizerView>,
    /// Number of worklist entries that the last propagation processed.
    pub last_propagated: usize,
}

impl GcView {
    /// A collector without nodes.
    pub open spec fn empty() -> GcView {
        GcView {
            nodes: Map::empty(),
            next_id: 0,
            roots: Set::empty(),
            gray: Seq::empty(),
            finalizer: None,
            last_propagated: 0,
        }
    }

    /// Ids are handed out in increasing order, the worklist only holds nodes
    /// that exist and are not dead, and the finalizer is sound.
    pub open spec fn wf(self) -> bool {
        &&& self.nodes.dom().finite()
        &&& self.roots.finite()
        &&& forall|id: usize| #[trigger] self.nodes.contains_key(id) ==> id < self.next_id
        &&& self.marking().worklist_ok()
        &&& self.finalizer matches Some(f) ==> f.wf()
    }

    /// The part of the state that marking works on.
    pub open spec fn marking(self) -> Marking {
        Marking { nodes: self.nodes, gray: self.gray }
    }

    /// The state with another marking.
    pub open spec fn with_marking(self, m: Marking) -> GcView {
        GcView { nodes: m.nodes, gray: m.gray, ..self }
    }

    /// The state with another node in place of, or in addition to, those it has.
    pub open spec fn with_node(self, id: usize, node: NodeView) -> GcView {
        GcView { nodes: self.nodes.insert(id, node), ..self }
    }

    /// Marking of the ids of a list, in its order.
    pub open spec fn rooted(self, list: Seq<usize>) -> GcView {
        self.with_marking(Marking::start(self.nodes, list))
    }

    /// The roots given for a marking and the permanent ones.
    pub open spec fn all_roots(self, roots: Seq<usize>) -> Set<usize> {
        roots.to_set().union(self.roots)
    }

    /// Is `after` what marking the roots makes of this state? The roots given
    /// come first, in their order, and then the permanent ones that are not among
    /// them, each once and in an order that is left open.
    pub open spec fn marks_to(self, roots: Seq<usize>, after: GcView) -> bool {
        exists|permanent: Seq<usize>|
            {
                &&& permanent.no_duplicates()
                &&& permanent.to_set() == self.roots.difference(roots.to_set())
                &&& after == #[trigger] self.rooted(roots + permanent)
            }
    }

    /// Number of scans that a marking from `roots` and the permanent roots
    /// takes: one for each entry of `roots` that exists, and one for each other
    /// node that can be reached.
    pub open spec fn scans_needed(self, roots: Seq<usize>) -> nat {
        graph::existing(self.nodes, roots).len() + graph::reachable_ids(
            self.nodes,
            self.all_roots(roots),
        ).difference(roots.to_set()).len()
    }

    /// Propagation with a budget.
    pub open spec fn propagated(self, budget: usize) -> GcView {
        GcView {
            last_propagated: self.marking().scans(budget as nat) as usize,
            ..self.with_marking(self.marking().propagated(budget as nat))
        }
    }

    /// Is `after` what finalizing the dead nodes makes of this state? The dead
    /// nodes are gone, and the finalizer, where there is one, has one more call
    /// on record for each of them.
    pub open spec fn finalizes_to(self, after: GcView) -> bool {
        &&& after == GcView { nodes: graph::swept(self.nodes), finalizer: after.finalizer, ..self }
        &&& finalizer_ran(self.finalizer, after.finalizer, self.nodes)
    }
}

/// `calls` names every dead node once, with its content, and nothing else.
pub open spec fn lists_dead(calls: Seq<(usize, NodeView)>, nodes: Map<usize, NodeView>) -> bool {
    &&& forall|i: int|
        0 <= i < calls.len() ==> graph::dead_in(nodes, (#[trigger] calls[i]).0) && calls[i].1
            == nodes[calls[i].0]
    &&& forall|i: int, j: int|
        0 <= i < j < calls.len() ==> (#[trigger] calls[i]).0 != (#[trigger] calls[j]).0
    &&& forall|id: usize| #[trigger]
        graph::dead_in(nodes, id) ==> exists|i: int|
            0 <= i < calls.len() && (#[trigger] calls[i]).0 == id
}

/// Between `before` and `after` one call was recorded for every dead node of
/// `nodes`, and no other, where there is a finalizer.
pub open spec fn finalizer_ran(
    before: Option<FinalizerView>,
    after: Option<FinalizerView>,
    nodes: Map<usize, NodeView>,
) -> bool {
    match (before, after) {
        (None, None) => true,
        (Some(b), Some(a)) => {
            &&& a == FinalizerView { received: a.received, ..b }
            &&& b.received.is_prefix_of(a.received)
            &&& lists_dead(a.received.skip(b.received.len() as int), nodes)
        },
        _ => false,
    }
}

} // verus!
