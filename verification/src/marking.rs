//! Tri-color marking: its steps as functions on a graph with a worklist, and
//! their laws.
use crate::graph;
use crate::ids;
use crate::liveness::Liveness;
use crate::node;
use crate::node::NodeView;
use vstd::prelude::*;

verus! {

/// A graph in the course of marking: the nodes and the gray worklist, front
/// first.
#[verifier::ext_equal]
pub struct Marking {
    pub nodes: Map<usize, NodeView>,
    pub gray: Seq<usize>,
}

impl Marking {
    /// Start of marking: the roots that exist turn gray and every other node
    /// turns white; the worklist holds those roots in the order given.
    pub open spec fn start(nodes: Map<usize, NodeView>, roots: Seq<usize>) -> Marking {
        Marking {
            nodes: Map::new(
                |id: usize| nodes.contains_key(id),
                |id: usize|
                    nodes[id].with_liveness(
                        if roots.contains(id) {
                            Liveness::MaybeAlive
                        } else {
                            Liveness::Dead
                        },
                    ),
            ),
            gray: graph::existing(nodes, roots),
        }
    }

    /// More roots: those that exist turn gray and join the worklist in the order
    /// given.
    pub open spec fn with_roots(self, roots: Seq<usize>) -> Marking {
        Marking {
            nodes: Map::new(
                |id: usize| self.nodes.contains_key(id),
                |id: usize|
                    if roots.contains(id) {
                        self.nodes[id].with_liveness(Liveness::MaybeAlive)
                    } else {
                        self.nodes[id]
                    },
            ),
            gray: self.gray + graph::existing(self.nodes, roots),
        }
    }

    /// A white node turns gray and joins the worklist; any other node, and an
    /// id without a node, is left alone.
    pub open spec fn shade(self, id: usize) -> Marking {
        if graph::dead_in(self.nodes, id) {
            Marking {
                nodes: self.nodes.insert(
                    id,
                    self.nodes[id].with_liveness(Liveness::MaybeAlive),
                ),
                gray: self.gray.push(id),
            }
        } else {
            self
        }
    }

    /// Shades the ids one after the other.
    pub open spec fn shade_all(self, ids: Seq<usize>) -> Marking
        decreases ids.len(),
    {
        if ids.len() == 0 {
            self
        } else {
            self.shade_all(ids.drop_last()).shade(ids.last())
        }
    }

    /// The front of the worklist leaves it; its node, if there is one, turns
    /// black.
    pub open spec fn blacken_front(self) -> Marking {
        let id = self.gray[0];
        Marking {
            nodes: if self.nodes.contains_key(id) {
                self.nodes.insert(id, self.nodes[id].with_liveness(Liveness::Alive))
            } else {
                self.nodes
            },
            gray: self.gray.drop_first(),
        }
    }

    /// Scans the front of the worklist: its node turns black and the children
    /// are shaded.
    pub open spec fn scan_front(self) -> Marking {
        self.blacken_front().shade_all(graph::successors(self.nodes, self.gray[0]))
    }

    /// Scans until the budget is spent or the worklist is empty.
    pub open spec fn propagated(self, budget: nat) -> Marking
        decreases budget,
    {
        if budget == 0 || self.gray.len() == 0 {
            self
        } else {
            self.scan_front().propagated((budget - 1) as nat)
        }
    }

    /// Number of scans that `propagated` makes.
    pub open spec fn scans(self, budget: nat) -> nat
        decreases budget,
    {
        if budget == 0 || self.gray.len() == 0 {
            0
        } else {
            1 + self.scan_front().scans((budget - 1) as nat)
        }
    }

    /// Every worklist entry is a node that exists and is not dead.
    pub open spec fn worklist_ok(self) -> bool {
        forall|id: usize| #[trigger]
            self.gray.contains(id) ==> self.nodes.contains_key(id) && !graph::dead_in(
                self.nodes,
                id,
            )
    }

    /// No black node refers to a white one.
    pub open spec fn tri_color(self) -> bool {
        forall|from: usize, to: usize|
            graph::alive_in(self.nodes, from) && #[trigger] graph::has_edge(self.nodes, from, to)
                ==> !graph::dead_in(self.nodes, to)
    }

    /// A marking from `roots` that loses no live node: the worklist holds the
    /// gray nodes, the roots are not white, and no black node refers to a white
    /// one.
    pub open spec fn safe(self, roots: Set<usize>) -> bool {
        &&& self.worklist_ok()
        &&& forall|id: usize| #[trigger]
            self.nodes.contains_key(id) ==> {
                &&& self.nodes[id].liveness == Liveness::MaybeAlive ==> self.gray.contains(id)
                &&& roots.contains(id) ==> !graph::dead_in(self.nodes, id)
            }
        &&& self.tri_color()
    }

    /// A marking of the graph `nodes` from `roots` that is under way: nothing
    /// but liveness has changed, no live node is lost, and all that is not white
    /// can be reached.
    pub open spec fn under_way(self, nodes: Map<usize, NodeView>, roots: Set<usize>) -> bool {
        &&& graph::same_graph(nodes, self.nodes)
        &&& self.safe(roots)
        &&& forall|id: usize| #[trigger]
            self.nodes.contains_key(id) && !graph::dead_in(self.nodes, id) ==> graph::reachable(
                nodes,
                roots,
                id,
            )
    }

    /// Upper bound of the scans that are left.
    pub open spec fn work(self) -> nat {
        self.gray.len() + graph::dead_ids(self.nodes).len()
    }
}

// ---------------------------------------------------------------------------
// One scan
// ---------------------------------------------------------------------------
/// What shading does to the nodes and to the worklist.
proof fn lemma_shade_all(m: Marking, ids: Seq<usize>)
    ensures
        ({
            let r = m.shade_all(ids);
            &&& r.nodes.dom() == m.nodes.dom()
            &&& forall|id: usize|
                m.nodes.contains_key(id) ==> #[trigger] r.nodes[id] == m.nodes[id].with_liveness(
                    if ids.contains(id) && graph::dead_in(m.nodes, id) {
                        Liveness::MaybeAlive
                    } else {
                        m.nodes[id].liveness
                    },
                )
            &&& forall|id: usize| #[trigger]
                r.gray.contains(id) <==> m.gray.contains(id) || (ids.contains(id)
                    && graph::dead_in(m.nodes, id))
        }),
    decreases ids.len(),
{
    if ids.len() > 0 {
        lemma_shade_all(m, ids.drop_last());
        ids::lemma_contains_drop_last(ids);
        let before = m.shade_all(ids.drop_last());
        ids::lemma_contains_push(before.gray, ids.last());
        assert(m.shade_all(ids).nodes.dom() =~= m.nodes.dom());
    }
}

/// Shading appends to the worklist, once each, those of the ids that are white,
/// in the order in which they first come up.
proof fn lemma_shade_all_appends(m: Marking, ids: Seq<usize>)
    ensures
        ({
            let r = m.shade_all(ids);
            let fresh = r.gray.skip(m.gray.len() as int);
            &&& r.gray == m.gray + fresh
            &&& fresh.no_duplicates()
            &&& forall|id: usize| #[trigger]
                fresh.contains(id) <==> ids.contains(id) && graph::dead_in(m.nodes, id)
            &&& forall|i: int, j: int|
                #![trigger fresh[i], fresh[j]]
                0 <= i < j < fresh.len() ==> fresh[i] != fresh[j] && exists|p: int|
                    0 <= p < ids.len() && #[trigger] ids[p] == fresh[i] && !ids.take(p).contains(
                        fresh[j],
                    )
        }),
    decreases ids.len(),
{
    let r = m.shade_all(ids);
    let fresh = r.gray.skip(m.gray.len() as int);
    if ids.len() == 0 {
        assert(r.gray =~= m.gray + fresh);
    } else {
        let front = ids.drop_last();
        let last = ids.last();
        let before = m.shade_all(front);
        let earlier = before.gray.skip(m.gray.len() as int);
        lemma_shade_all_appends(m, front);
        lemma_shade_all(m, front);
        ids::lemma_contains_drop_last(ids);
        ids::lemma_contains_push(earlier, last);
        if graph::dead_in(before.nodes, last) {
            assert(r.gray == before.gray.push(last));
            assert(fresh =~= earlier.push(last));
            assert(!earlier.contains(last));
        } else {
            assert(fresh =~= earlier);
        }
        assert(r.gray =~= m.gray + fresh);
        assert forall|id: usize| #[trigger] fresh.contains(id) <==> ids.contains(id)
            && graph::dead_in(m.nodes, id) by {
            assert(earlier.contains(id) <==> front.contains(id) && graph::dead_in(m.nodes, id));
        }
        assert forall|i: int, j: int|
            #![trigger fresh[i], fresh[j]]
            0 <= i < j < fresh.len() implies exists|p: int|
            0 <= p < ids.len() && #[trigger] ids[p] == fresh[i] && !ids.take(p).contains(
                fresh[j],
            ) by {
            assert(fresh[i] == earlier[i]);
            if j < earlier.len() {
                assert(fresh[j] == earlier[j]);
                let p = choose|p: int|
                    0 <= p < front.len() && #[trigger] front[p] == earlier[i] && !front.take(
                        p,
                    ).contains(earlier[j]);
                assert(ids[p] == front[p]);
                assert(ids.take(p) =~= front.take(p));
            } else {
                assert(earlier.contains(earlier[i]));
                let p = front.index_of(earlier[i]);
                assert(ids[p] == front[p]);
                if ids.take(p).contains(last) {
                    let q = ids.take(p).index_of(last);
                    assert(front[q] == last);
                    assert(front.contains(last));
                }
            }
        }
    }
}

/// What a scan does to the nodes and to the worklist.
proof fn lemma_scan_front(m: Marking)
    requires
        m.gray.len() > 0,
        m.nodes.contains_key(m.gray[0]),
    ensures
        ({
            let r = m.scan_front();
            let front = m.gray[0];
            &&& r.nodes.dom() == m.nodes.dom()
            &&& forall|id: usize|
                m.nodes.contains_key(id) ==> #[trigger] r.nodes[id] == m.nodes[id].with_liveness(
                    if id == front {
                        Liveness::Alive
                    } else if graph::has_edge(m.nodes, front, id) && graph::dead_in(m.nodes, id) {
                        Liveness::MaybeAlive
                    } else {
                        m.nodes[id].liveness
                    },
                )
            &&& forall|id: usize| #[trigger]
                r.gray.contains(id) <==> m.gray.drop_first().contains(id) || (id != front
                    && graph::has_edge(m.nodes, front, id) && graph::dead_in(m.nodes, id))
        }),
{
    let front = m.gray[0];
    let b = m.blacken_front();
    lemma_shade_all(b, graph::successors(m.nodes, front));
    assert(b.nodes.dom() =~= m.nodes.dom());
}

/// A scan never lowers a liveness and changes nothing else in the nodes.
proof fn lemma_scan_front_grows(m: Marking)
    requires
        m.gray.len() > 0,
    ensures
        graph::same_graph(m.nodes, m.scan_front().nodes),
        forall|id: usize| #[trigger]
            m.nodes.contains_key(id) ==> m.nodes[id].liveness.le(
                m.scan_front().nodes[id].liveness,
            ),
        m.worklist_ok() ==> m.scan_front().worklist_ok(),
{
    if m.nodes.contains_key(m.gray[0]) {
        lemma_scan_front(m);
    } else {
        assert(m.gray.contains(m.gray[0]));
    }
    ids::lemma_contains_drop_first(m.gray);
    if m.worklist_ok() {
        let r = m.scan_front();
        assert(m.gray.contains(m.gray[0]));
        assert forall|id: usize| #[trigger] r.gray.contains(id) implies r.nodes.contains_key(id)
            && !graph::dead_in(r.nodes, id) by {
            if m.gray.drop_first().contains(id) {
                assert(m.gray.contains(id));
            }
        }
    }
}

proof fn lemma_scan_front_safe(m: Marking, roots: Set<usize>)
    requires
        m.safe(roots),
        m.gray.len() > 0,
    ensures
        m.scan_front().safe(roots),
{
    let r = m.scan_front();
    let front = m.gray[0];
    assert(m.gray.contains(front));
    lemma_scan_front(m);
    lemma_scan_front_grows(m);
    ids::lemma_contains_drop_first(m.gray);
    assert forall|id: usize| #[trigger] r.nodes.contains_key(id) implies {
        &&& r.nodes[id].liveness == Liveness::MaybeAlive ==> r.gray.contains(id)
        &&& roots.contains(id) ==> !graph::dead_in(r.nodes, id)
    } by {
        assert(m.nodes.contains_key(id));
    }
    assert forall|from: usize, to: usize|
        graph::alive_in(r.nodes, from) && #[trigger] graph::has_edge(
            r.nodes,
            from,
            to,
        ) implies !graph::dead_in(r.nodes, to) by {
        assert(r.nodes[from].edges == m.nodes[from].edges);
        assert(graph::has_edge(m.nodes, from, to));
        if graph::dead_in(r.nodes, to) {
            assert(graph::dead_in(m.nodes, to));
            if from != front {
                assert(graph::alive_in(m.nodes, from));
            }
        }
    }
}

proof fn lemma_scan_front_under_way(m: Marking, nodes: Map<usize, NodeView>, roots: Set<usize>)
    requires
        m.under_way(nodes, roots),
        m.gray.len() > 0,
    ensures
        m.scan_front().under_way(nodes, roots),
{
    let r = m.scan_front();
    let front = m.gray[0];
    assert(m.gray.contains(front));
    lemma_scan_front(m);
    lemma_scan_front_grows(m);
    lemma_scan_front_safe(m, roots);
    assert forall|id: usize| #[trigger]
        r.nodes.contains_key(id) && !graph::dead_in(r.nodes, id) implies graph::reachable(
        nodes,
        roots,
        id,
    ) by {
        assert(m.nodes.contains_key(id));
        if graph::dead_in(m.nodes, id) {
            assert(m.nodes[front].edges == nodes[front].edges);
            assert(m.nodes.contains_key(front));
            graph::lemma_edge_reachable(nodes, roots, front, id);
        }
    }
}

/// A scan takes one entry off the worklist and moves white nodes onto it.
proof fn lemma_scan_front_work(m: Marking)
    requires
        m.gray.len() > 0,
        m.nodes.dom().finite(),
    ensures
        m.scan_front().work() <= m.work() - 1,
        m.worklist_ok() ==> m.scan_front().work() == m.work() - 1,
        m.scan_front().nodes.dom() == m.nodes.dom(),
{
    let b = m.blacken_front();
    let front = m.gray[0];
    assert(b.nodes.dom() =~= m.nodes.dom());
    assert(graph::dead_ids(b.nodes) =~= graph::dead_ids(m.nodes).remove(front));
    assert(m.gray.contains(front));
    lemma_shade_all_work(b, graph::successors(m.nodes, front));
    lemma_shade_all(b, graph::successors(m.nodes, front));
}

proof fn lemma_shade_all_work(m: Marking, ids: Seq<usize>)
    requires
        m.nodes.dom().finite(),
    ensures
        m.shade_all(ids).work() == m.work(),
    decreases ids.len(),
{
    if ids.len() > 0 {
        let before = m.shade_all(ids.drop_last());
        let last = ids.last();
        lemma_shade_all_work(m, ids.drop_last());
        lemma_shade_all(m, ids.drop_last());
        if graph::dead_in(before.nodes, last) {
            let after = before.shade(last);
            assert(graph::dead_ids(after.nodes) =~= graph::dead_ids(before.nodes).remove(last));
        }
    }
}

// ---------------------------------------------------------------------------
// Laws of propagation
// ---------------------------------------------------------------------------
/// Liveness is monotone: propagation, with any budget, never lowers the
/// liveness of a node, and changes nothing else in the nodes.
pub proof fn lemma_propagation_is_monotone(m: Marking, budget: nat)
    ensures
        graph::same_graph(m.nodes, m.propagated(budget).nodes),
        forall|id: usize| #[trigger]
            m.nodes.contains_key(id) ==> m.nodes[id].liveness.le(
                m.propagated(budget).nodes[id].liveness,
            ),
    decreases budget,
{
    if budget > 0 && m.gray.len() > 0 {
        lemma_scan_front_grows(m);
        lemma_propagation_is_monotone(m.scan_front(), (budget - 1) as nat);
    }
}

/// One step of propagation takes the front off the worklist and turns it black.
/// Its white children turn gray and join the worklist behind all that was there,
/// each once, in the order in which its references first name them. No other
/// node changes, and of these nodes nothing but the liveness.
pub proof fn lemma_one_step(m: Marking)
    requires
        m.gray.len() > 0,
        m.nodes.contains_key(m.gray[0]),
    ensures
        m.scans(1) == 1,
        m.propagated(1).nodes.dom() == m.nodes.dom(),
        forall|id: usize| #[trigger]
            m.nodes.contains_key(id) ==> {
                let old_node = m.nodes[id];
                let new_node = m.propagated(1).nodes[id];
                &&& new_node.edges == old_node.edges
                &&& new_node.tag == old_node.tag
                &&& new_node.gpu_handle == old_node.gpu_handle
                &&& id == m.gray[0] ==> new_node.liveness == Liveness::Alive
                &&& id != m.gray[0] && m.nodes[m.gray[0]].edges.contains(id) && old_node.liveness
                    == Liveness::Dead ==> new_node.liveness == Liveness::MaybeAlive
                &&& id != m.gray[0] && (!m.nodes[m.gray[0]].edges.contains(id)
                    || old_node.liveness != Liveness::Dead) ==> new_node.liveness
                    == old_node.liveness
            },
        m.propagated(1).gray.len() >= m.gray.len() - 1,
        m.propagated(1).gray.take(m.gray.len() - 1) == m.gray.skip(1),
        ({
            let children = m.nodes[m.gray[0]].edges;
            let fresh = m.propagated(1).gray.skip(m.gray.len() - 1);
            &&& fresh.no_duplicates()
            &&& forall|id: usize| #[trigger]
                fresh.contains(id) <==> {
                    &&& children.contains(id)
                    &&& id != m.gray[0]
                    &&& m.nodes.contains_key(id)
                    &&& m.nodes[id].liveness == Liveness::Dead
                }
            &&& forall|i: int, j: int|
                #![trigger fresh[i], fresh[j]]
                0 <= i < j < fresh.len() ==> fresh[i] != fresh[j] && exists|p: int|
                    0 <= p < children.len() && #[trigger] children[p] == fresh[i]
                        && !children.take(p).contains(fresh[j])
        }),
{
    let b = m.blacken_front();
    let r = m.scan_front();
    assert(r.propagated(0) == r);
    assert(r.scans(0) == 0);
    assert(m.propagated(1) == r);
    assert(m.scans(1) == 1);
    lemma_scan_front(m);
    let children = m.nodes[m.gray[0]].edges;
    let fresh = r.gray.skip(m.gray.len() - 1);
    lemma_shade_all_appends(b, children);
    assert(b.gray.len() == m.gray.len() - 1);
    assert(r == b.shade_all(children));
    assert(fresh == b.shade_all(children).gray.skip(b.gray.len() as int));
    assert(r.gray.take(m.gray.len() - 1) =~= m.gray.skip(1));
    assert(fresh == m.propagated(1).gray.skip(m.gray.len() - 1));
    assert forall|id: usize| #[trigger] fresh.contains(id) <==> {
        &&& children.contains(id)
        &&& id != m.gray[0]
        &&& m.nodes.contains_key(id)
        &&& m.nodes[id].liveness == Liveness::Dead
    } by {}
    assert forall|i: int, j: int|
        #![trigger fresh[i], fresh[j]]
        0 <= i < j < fresh.len() implies fresh[i] != fresh[j] && exists|p: int|
        0 <= p < children.len() && #[trigger] children[p] == fresh[i] && !children.take(
            p,
        ).contains(fresh[j]) by {}
}

/// A step whose worklist entry has no node takes the entry off the worklist and
/// does nothing else. Nothing at all happens on an empty worklist or without a
/// budget.
pub proof fn lemma_idle_steps(m: Marking, budget: nat)
    ensures
        m.gray.len() > 0 && !m.nodes.contains_key(m.gray[0]) ==> {
            &&& m.scans(1) == 1
            &&& m.propagated(1).nodes == m.nodes
            &&& m.propagated(1).gray == m.gray.skip(1)
        },
        m.gray.len() == 0 || budget == 0 ==> {
            &&& m.scans(budget) == 0
            &&& m.propagated(budget).nodes == m.nodes
            &&& m.propagated(budget).gray == m.gray
        },
{
    if m.gray.len() > 0 && !m.nodes.contains_key(m.gray[0]) {
        let r = m.scan_front();
        assert(r == m.blacken_front());
        assert(r.propagated(0) == r);
        assert(r.scans(0) == 0);
        assert(m.propagated(1) == r);
        assert(r.gray =~= m.gray.skip(1));
    }
}

/// Propagation, with any budget, leaves the references, the tag and the handle
/// of every node as they were. It adds no node and loses none, and a liveness
/// only ever rises: what is black stays black, and what is gray does not turn
/// white.
pub proof fn lemma_propagation_changes_liveness_alone(m: Marking, budget: nat, id: usize)
    ensures
        m.propagated(budget).nodes.contains_key(id) <==> m.nodes.contains_key(id),
        m.nodes.contains_key(id) ==> {
            let old_node = m.nodes[id];
            let new_node = m.propagated(budget).nodes[id];
            &&& new_node.edges == old_node.edges
            &&& new_node.tag == old_node.tag
            &&& new_node.gpu_handle == old_node.gpu_handle
            &&& old_node.liveness == Liveness::Alive ==> new_node.liveness == Liveness::Alive
            &&& old_node.liveness == Liveness::MaybeAlive ==> new_node.liveness != Liveness::Dead
        },
{
    lemma_propagation_is_monotone(m, budget);
}

/// Propagation keeps every worklist entry an existing node that is not dead.
pub proof fn lemma_propagation_keeps_worklist(m: Marking, budget: nat)
    requires
        m.worklist_ok(),
    ensures
        m.propagated(budget).worklist_ok(),
    decreases budget,
{
    if budget > 0 && m.gray.len() > 0 {
        lemma_scan_front_grows(m);
        lemma_propagation_keeps_worklist(m.scan_front(), (budget - 1) as nat);
    }
}

/// Propagating in two goes is propagating once with both budgets.
pub proof fn lemma_propagation_splits(m: Marking, first: nat, second: nat)
    ensures
        m.propagated(first).propagated(second) == m.propagated(first + second),
        m.scans(first) + m.propagated(first).scans(second) == m.scans(first + second),
    decreases first,
{
    if first > 0 && m.gray.len() > 0 {
        lemma_propagation_splits(m.scan_front(), (first - 1) as nat, second);
    }
}

/// The number of scans stays within the budget, and falls short of it only
/// where the worklist has run empty.
pub proof fn lemma_scans_within_budget(m: Marking, budget: nat)
    ensures
        m.scans(budget) <= budget,
        m.scans(budget) < budget ==> m.propagated(budget).gray.len() == 0,
    decreases budget,
{
    if budget > 0 && m.gray.len() > 0 {
        lemma_scans_within_budget(m.scan_front(), (budget - 1) as nat);
    }
}

/// Once the worklist is empty a larger budget changes nothing.
pub proof fn lemma_propagation_is_stable(m: Marking, budget: nat, larger: nat)
    requires
        budget <= larger,
        m.propagated(budget).gray.len() == 0,
    ensures
        m.propagated(larger) == m.propagated(budget),
        m.scans(larger) == m.scans(budget),
{
    lemma_propagation_splits(m, budget, (larger - budget) as nat);
}

/// Propagation ends: the worklist is empty after at most as many scans as it
/// has entries and the graph has white nodes.
pub proof fn lemma_propagation_ends(m: Marking, budget: nat)
    requires
        m.nodes.dom().finite(),
    ensures
        m.scans(budget) <= m.work(),
        m.work() <= budget ==> m.propagated(budget).gray.len() == 0,
    decreases budget,
{
    if budget > 0 && m.gray.len() > 0 {
        lemma_scan_front_work(m);
        lemma_propagation_ends(m.scan_front(), (budget - 1) as nat);
    }
}

/// Each scan uses up one worklist entry, and each entry comes from the worklist
/// at the start or from a node that was white: once the worklist has run empty,
/// the number of scans is that of its entries at the start and of the nodes
/// that are no longer white.
pub proof fn lemma_scans_are_counted(m: Marking, budget: nat)
    requires
        m.nodes.dom().finite(),
        m.worklist_ok(),
    ensures
        m.scans(budget) + m.propagated(budget).work() == m.work(),
    decreases budget,
{
    if budget > 0 && m.gray.len() > 0 {
        lemma_scan_front_work(m);
        lemma_scan_front_grows(m);
        lemma_scans_are_counted(m.scan_front(), (budget - 1) as nat);
    }
}

/// Propagation with each of the budgets in turn.
pub open spec fn propagated_in_turn(m: Marking, budgets: Seq<nat>) -> Marking
    decreases budgets.len(),
{
    if budgets.len() == 0 {
        m
    } else {
        propagated_in_turn(m, budgets.drop_last()).propagated(budgets.last())
    }
}

/// The sum of the budgets.
pub open spec fn total_budget(budgets: Seq<nat>) -> nat
    decreases budgets.len(),
{
    if budgets.len() == 0 {
        0
    } else {
        total_budget(budgets.drop_last()) + budgets.last()
    }
}

/// However the work is divided into increments, the outcome is that of one
/// propagation with the budgets taken together.
pub proof fn lemma_increments_add_up(m: Marking, budgets: Seq<nat>)
    ensures
        propagated_in_turn(m, budgets) == m.propagated(total_budget(budgets)),
    decreases budgets.len(),
{
    if budgets.len() > 0 {
        lemma_increments_add_up(m, budgets.drop_last());
        lemma_propagation_splits(m, total_budget(budgets.drop_last()), budgets.last());
    }
}

/// However the work is divided into increments, once the worklist has run empty
/// the outcome is that of any other propagation that emptied it.
pub proof fn lemma_finished_increments_agree(m: Marking, budgets: Seq<nat>, budget: nat)
    requires
        propagated_in_turn(m, budgets).gray.len() == 0,
        m.propagated(budget).gray.len() == 0,
    ensures
        propagated_in_turn(m, budgets) == m.propagated(budget),
{
    let total = total_budget(budgets);
    lemma_increments_add_up(m, budgets);
    if total <= budget {
        lemma_propagation_is_stable(m, total, budget);
    } else {
        lemma_propagation_is_stable(m, budget, total);
    }
}

/// Promotions are joins: shading a node joins its liveness with `MaybeAlive`,
/// and scanning it joins it with `Alive`.
pub proof fn lemma_promotions_are_joins(m: Marking, id: usize)
    requires
        m.nodes.contains_key(id),
    ensures
        m.shade(id).nodes[id].liveness == m.nodes[id].liveness.lub(Liveness::MaybeAlive),
        m.gray.len() > 0 && m.gray[0] == id ==> m.scan_front().nodes[id].liveness
            == m.nodes[id].liveness.lub(Liveness::Alive),
{
    if m.gray.len() > 0 && m.gray[0] == id {
        lemma_scan_front(m);
    }
}

/// The order in which two nodes are shaded does not matter to the graph.
pub proof fn lemma_shading_commutes(m: Marking, a: usize, b: usize)
    ensures
        m.shade(a).shade(b).nodes == m.shade(b).shade(a).nodes,
{
    assert(m.shade(a).shade(b).nodes =~= m.shade(b).shade(a).nodes);
}

// ---------------------------------------------------------------------------
// Laws of marking
// ---------------------------------------------------------------------------
/// Marking the roots starts a marking.
pub proof fn lemma_marking_starts(nodes: Map<usize, NodeView>, roots: Seq<usize>)
    ensures
        Marking::start(nodes, roots).under_way(nodes, roots.to_set()),
{
    let m = Marking::start(nodes, roots);
    assert(m.nodes.dom() =~= nodes.dom());
    ids::lemma_filter_contains(roots, graph::member_of(nodes.dom()));
    assert forall|id: usize| #[trigger] m.nodes.contains_key(id) && roots.contains(id) implies
        graph::reachable(nodes, roots.to_set(), id) by {
        graph::lemma_root_reachable(nodes, roots.to_set(), id);
    }
}

/// At the start of a marking the roots that exist are gray and every other node
/// is white, whatever the nodes were before; their references, tags and handles
/// are as they were. The worklist holds the roots that exist, in the order given
/// and as often as given.
pub proof fn lemma_start_colors(nodes: Map<usize, NodeView>, roots: Seq<usize>, id: usize)
    ensures
        Marking::start(nodes, roots).nodes.contains_key(id) <==> nodes.contains_key(id),
        nodes.contains_key(id) ==> {
            let node = Marking::start(nodes, roots).nodes[id];
            &&& node.liveness == (if roots.contains(id) {
                Liveness::MaybeAlive
            } else {
                Liveness::Dead
            })
            &&& node.edges == nodes[id].edges
            &&& node.tag == nodes[id].tag
            &&& node.gpu_handle == nodes[id].gpu_handle
        },
        Marking::start(nodes, roots).gray == roots.filter(|root: usize| nodes.contains_key(root)),
{
    assert(graph::member_of(nodes.dom()) =~= (|root: usize| nodes.contains_key(root)));
}

/// Marking some roots and then others is marking all of them.
pub proof fn lemma_start_in_parts(
    nodes: Map<usize, NodeView>,
    first: Seq<usize>,
    second: Seq<usize>,
)
    ensures
        Marking::start(nodes, first).with_roots(second) == Marking::start(nodes, first + second),
{
    let m = Marking::start(nodes, first);
    assert(m.nodes.dom() =~= nodes.dom());
    Seq::filter_distributes_over_add(first, second, graph::member_of(nodes.dom()));
    ids::lemma_contains_concat(first, second);
    assert(m.with_roots(second) =~= Marking::start(nodes, first + second));
}

/// Holds of every id that is not in the list.
pub open spec fn not_among(ids: Seq<usize>) -> spec_fn(usize) -> bool {
    |id: usize| !ids.contains(id)
}

/// Shading further ids, each given once, is marking those of them that are not
/// roots yet as roots too.
pub proof fn lemma_shading_adds_roots(
    nodes: Map<usize, NodeView>,
    roots: Seq<usize>,
    more: Seq<usize>,
)
    requires
        more.no_duplicates(),
    ensures
        Marking::start(nodes, roots).shade_all(more) == Marking::start(
            nodes,
            roots + more.filter(not_among(roots)),
        ),
    decreases more.len(),
{
    reveal(Seq::filter);
    if more.len() == 0 {
        assert(roots + more.filter(not_among(roots)) =~= roots);
    } else {
        let front = more.drop_last();
        let last = more.last();
        let listed = front.filter(not_among(roots));
        let list = roots + listed;
        lemma_shading_adds_roots(nodes, roots, front);
        ids::lemma_filter_contains(front, not_among(roots));
        ids::lemma_contains_concat(roots, listed);
        assert(!front.contains(last));
        if roots.contains(last) {
            assert(list.contains(last));
        } else {
            assert(!list.contains(last));
            assert(roots + listed.push(last) =~= list.push(last));
            lemma_shading_adds_root(nodes, list, last);
        }
    }
}

proof fn lemma_shading_adds_root(nodes: Map<usize, NodeView>, roots: Seq<usize>, id: usize)
    requires
        !roots.contains(id),
    ensures
        Marking::start(nodes, roots).shade(id) == Marking::start(nodes, roots.push(id)),
{
    let shaded = Marking::start(nodes, roots).shade(id);
    let start = Marking::start(nodes, roots.push(id));
    reveal(Seq::filter);
    ids::lemma_contains_push(roots, id);
    assert(roots.push(id).drop_last() =~= roots);
    assert(shaded.nodes =~= start.nodes);
    assert(shaded.gray =~= start.gray);
}

/// Propagation, with any budget, carries a marking on. In particular no black
/// node ever refers to a white one.
pub proof fn lemma_marking_continues(
    m: Marking,
    nodes: Map<usize, NodeView>,
    roots: Set<usize>,
    budget: nat,
)
    requires
        m.under_way(nodes, roots),
    ensures
        m.propagated(budget).under_way(nodes, roots),
    decreases budget,
{
    if budget > 0 && m.gray.len() > 0 {
        lemma_scan_front_under_way(m, nodes, roots);
        lemma_marking_continues(m.scan_front(), nodes, roots, (budget - 1) as nat);
    }
}

/// Propagation, with any budget, keeps a marking from losing a live node.
pub proof fn lemma_propagation_is_safe(m: Marking, roots: Set<usize>, budget: nat)
    requires
        m.safe(roots),
    ensures
        m.propagated(budget).safe(roots),
    decreases budget,
{
    if budget > 0 && m.gray.len() > 0 {
        lemma_scan_front_safe(m, roots);
        lemma_propagation_is_safe(m.scan_front(), roots, (budget - 1) as nat);
    }
}

/// When the worklist of a safe marking has run empty, every node that can be
/// reached from the roots is black.
pub proof fn lemma_safe_marking_complete(m: Marking, roots: Set<usize>, id: usize)
    requires
        m.safe(roots),
        m.gray.len() == 0,
        graph::reachable(m.nodes, roots, id),
    ensures
        graph::alive_in(m.nodes, id),
{
    let black = graph::alive_ids(m.nodes);
    assert forall|from: usize, to: usize|
        black.contains(from) && #[trigger] graph::has_edge(m.nodes, from, to)
            && m.nodes.contains_key(to) implies black.contains(to) by {}
    graph::lemma_reachable_in_closed_set(m.nodes, roots, black, id);
}

/// The graph may be edited between two increments. Removing a reference never
/// endangers a live node; adding one does not unless it leads from a black node
/// to a white one; adding a white node does not unless it is a root or a black
/// node already refers to it; adding a black node does not unless it refers to a
/// white one.
pub proof fn lemma_edits_between_increments(
    m: Marking,
    roots: Set<usize>,
    from: usize,
    to: usize,
    id: usize,
    node: NodeView,
)
    requires
        m.safe(roots),
    ensures
        m.nodes.contains_key(from) ==> (Marking {
            nodes: m.nodes.insert(from, m.nodes[from].without_edge(to)),
            ..m
        }).safe(roots),
        m.nodes.contains_key(from) && !(graph::alive_in(m.nodes, from) && graph::dead_in(
            m.nodes,
            to,
        )) ==> (Marking {
            nodes: m.nodes.insert(from, m.nodes[from].with_edge(to)),
            ..m
        }).safe(roots),
        !m.nodes.contains_key(id) && node.liveness == Liveness::Dead && !roots.contains(id) && (
        forall|black: usize|
            graph::alive_in(m.nodes, black) ==> !#[trigger] graph::has_edge(m.nodes, black, id))
            ==> (Marking { nodes: m.nodes.insert(id, node), ..m }).safe(roots),
        !m.nodes.contains_key(id) && node.liveness == Liveness::Alive && (forall|child: usize|
            #[trigger]
            node.edges.contains(child) ==> !graph::dead_in(m.nodes, child)) ==> (Marking {
            nodes: m.nodes.insert(id, node),
            ..m
        }).safe(roots),
{
    if m.nodes.contains_key(from) {
        let removed = Marking {
            nodes: m.nodes.insert(from, m.nodes[from].without_edge(to)),
            ..m
        };
        let added = Marking { nodes: m.nodes.insert(from, m.nodes[from].with_edge(to)), ..m };
        ids::lemma_filter_contains(m.nodes[from].edges, node::other_than(to));
        ids::lemma_contains_push(m.nodes[from].edges, to);
        assert forall|x: usize, y: usize| #[trigger]
            graph::has_edge(removed.nodes, x, y) implies graph::has_edge(m.nodes, x, y) by {}
        assert forall|x: usize, y: usize| #[trigger]
            graph::has_edge(added.nodes, x, y) implies graph::has_edge(m.nodes, x, y) || (x == from
            && y == to) by {}
        lemma_same_colors_safe(m, removed, roots);
        if !(graph::alive_in(m.nodes, from) && graph::dead_in(m.nodes, to)) {
            lemma_same_colors_safe(m, added, roots);
        }
    }
    let grown = Marking { nodes: m.nodes.insert(id, node), ..m };
    if !m.nodes.contains_key(id) && node.liveness == Liveness::Dead && !roots.contains(id) && (
    forall|black: usize|
        graph::alive_in(m.nodes, black) ==> !#[trigger] graph::has_edge(m.nodes, black, id)) {
        assert forall|x: usize, y: usize|
            graph::alive_in(grown.nodes, x) && #[trigger] graph::has_edge(
                grown.nodes,
                x,
                y,
            ) implies !graph::dead_in(grown.nodes, y) by {
            assert(graph::has_edge(m.nodes, x, y));
        }
        lemma_grown_safe(m, grown, roots, id, node);
    }
    if !m.nodes.contains_key(id) && node.liveness == Liveness::Alive && (forall|child: usize|
        #[trigger]
        node.edges.contains(child) ==> !graph::dead_in(m.nodes, child)) {
        assert forall|x: usize, y: usize|
            graph::alive_in(grown.nodes, x) && #[trigger] graph::has_edge(
                grown.nodes,
                x,
                y,
            ) implies !graph::dead_in(grown.nodes, y) by {
            if x == id {
                assert(node.edges.contains(y));
            } else {
                assert(graph::has_edge(m.nodes, x, y));
            }
        }
        lemma_grown_safe(m, grown, roots, id, node);
    }
}

/// Adding a node that is not gray, and not a white root, keeps a marking safe,
/// if no black node refers to a white one afterwards.
proof fn lemma_grown_safe(
    m: Marking,
    grown: Marking,
    roots: Set<usize>,
    id: usize,
    node: NodeView,
)
    requires
        m.safe(roots),
        !m.nodes.contains_key(id),
        grown == (Marking { nodes: m.nodes.insert(id, node), ..m }),
        node.liveness == Liveness::Alive || (node.liveness == Liveness::Dead && !roots.contains(
            id,
        )),
        grown.tri_color(),
    ensures
        grown.safe(roots),
{
    assert forall|g: usize| #[trigger] grown.gray.contains(g) implies grown.nodes.contains_key(g)
        && !graph::dead_in(grown.nodes, g) by {
        assert(m.gray.contains(g));
    }
    assert forall|x: usize| #[trigger] grown.nodes.contains_key(x) implies {
        &&& grown.nodes[x].liveness == Liveness::MaybeAlive ==> grown.gray.contains(x)
        &&& roots.contains(x) ==> !graph::dead_in(grown.nodes, x)
    } by {
        if x != id {
            assert(m.nodes.contains_key(x));
        }
    }
}

/// Changing references without changing colors keeps a marking safe, if no new
/// reference leads from a black node to a white one.
proof fn lemma_same_colors_safe(m: Marking, edited: Marking, roots: Set<usize>)
    requires
        m.safe(roots),
        edited.gray == m.gray,
        edited.nodes.dom() =~= m.nodes.dom(),
        forall|id: usize| #[trigger]
            m.nodes.contains_key(id) ==> edited.nodes[id].liveness == m.nodes[id].liveness,
        forall|x: usize, y: usize| #[trigger]
            graph::has_edge(edited.nodes, x, y) ==> graph::has_edge(m.nodes, x, y) || !(
            graph::alive_in(m.nodes, x) && graph::dead_in(m.nodes, y)),
    ensures
        edited.safe(roots),
{
    assert forall|id: usize| #[trigger] edited.gray.contains(id) implies edited.nodes.contains_key(
        id,
    ) && !graph::dead_in(edited.nodes, id) by {
        assert(m.gray.contains(id));
    }
    assert forall|id: usize| #[trigger] edited.nodes.contains_key(id) implies {
        &&& edited.nodes[id].liveness == Liveness::MaybeAlive ==> edited.gray.contains(id)
        &&& roots.contains(id) ==> !graph::dead_in(edited.nodes, id)
    } by {
        assert(m.nodes.contains_key(id));
    }
    assert forall|x: usize, y: usize|
        graph::alive_in(edited.nodes, x) && #[trigger] graph::has_edge(
            edited.nodes,
            x,
            y,
        ) implies !graph::dead_in(edited.nodes, y) by {
        assert(m.nodes.contains_key(x));
        if graph::dead_in(edited.nodes, y) {
            assert(m.nodes.contains_key(y));
        }
    }
}

/// When the worklist has run empty, the black nodes are those that can be
/// reached from the roots and the white nodes are all the others.
pub proof fn lemma_marking_complete(m: Marking, nodes: Map<usize, NodeView>, roots: Set<usize>)
    requires
        m.under_way(nodes, roots),
        m.gray.len() == 0,
    ensures
        forall|id: usize| #[trigger]
            nodes.contains_key(id) ==> m.nodes[id].liveness == (if graph::reachable(
                nodes,
                roots,
                id,
            ) {
                Liveness::Alive
            } else {
                Liveness::Dead
            }),
{
    let black = graph::alive_ids(m.nodes);
    assert forall|id: usize| #[trigger] nodes.contains_key(id) implies m.nodes[id].liveness == (
    if graph::reachable(nodes, roots, id) {
        Liveness::Alive
    } else {
        Liveness::Dead
    }) by {
        assert(m.nodes.contains_key(id));
        if graph::reachable(nodes, roots, id) {
            assert forall|from: usize, to: usize|
                black.contains(from) && #[trigger] graph::has_edge(nodes, from, to)
                    && nodes.contains_key(to) implies black.contains(to) by {
                assert(m.nodes[from].edges == nodes[from].edges);
                assert(graph::has_edge(m.nodes, from, to));
                assert(m.nodes.contains_key(to));
            }
            assert forall|root: usize| #[trigger]
                roots.contains(root) && nodes.contains_key(root) implies black.contains(root) by {
                assert(m.nodes.contains_key(root));
            }
            graph::lemma_reachable_in_closed_set(nodes, roots, black, id);
        }
    }
}

/// Number of scans that a marking from `roots` takes: one for each entry of the
/// root list that exists, and one for each other node that can be reached.
pub open spec fn scans_needed(nodes: Map<usize, NodeView>, roots: Seq<usize>) -> nat {
    graph::existing(nodes, roots).len() + graph::reachable_ids(nodes, roots.to_set()).difference(
        roots.to_set(),
    ).len()
}

/// The number of scans is the budget or what the marking takes, whichever is
/// less, and the worklist has run empty exactly when the budget suffices.
pub proof fn lemma_scans_are_exact(nodes: Map<usize, NodeView>, roots: Seq<usize>, budget: nat)
    requires
        nodes.dom().finite(),
    ensures
        Marking::start(nodes, roots).scans(budget) == (if budget <= scans_needed(nodes, roots) {
            budget
        } else {
            scans_needed(nodes, roots)
        }),
        Marking::start(nodes, roots).propagated(budget).gray.len() == 0 <==> scans_needed(
            nodes,
            roots,
        ) <= budget,
{
    let set = roots.to_set();
    let start = Marking::start(nodes, roots);
    let end = start.propagated(budget);
    let reach = graph::reachable_ids(nodes, set);
    let beyond = reach.difference(set);
    let lost = nodes.dom().difference(reach);
    lemma_marking_starts(nodes, roots);
    lemma_marking_continues(start, nodes, set, budget);
    lemma_scans_within_budget(start, budget);
    assert(start.nodes.dom() =~= nodes.dom());
    lemma_scans_are_counted(start, budget);
    vstd::set_lib::lemma_len_subset(beyond, nodes.dom());
    vstd::set_lib::lemma_len_subset(lost, nodes.dom());
    assert(graph::dead_ids(start.nodes) =~= beyond + lost) by {
        assert forall|id: usize| nodes.contains_key(id) && set.contains(id) implies
            #[trigger] reach.contains(id) by {
            graph::lemma_root_reachable(nodes, set, id);
        }
    }
    vstd::set_lib::lemma_set_disjoint_lens(beyond, lost);
    assert(end.nodes.dom() == nodes.dom());
    vstd::set_lib::lemma_len_subset(graph::dead_ids(end.nodes), nodes.dom());
    assert forall|id: usize| lost.contains(id) implies #[trigger] graph::dead_ids(
        end.nodes,
    ).contains(id) by {
        assert(end.nodes.contains_key(id));
    }
    vstd::set_lib::lemma_len_subset(lost, graph::dead_ids(end.nodes));
    if end.gray.len() == 0 {
        lemma_marking_complete(end, nodes, set);
        assert(graph::dead_ids(end.nodes) =~= lost);
    }
}

/// A marking takes at most one scan for each root given and one for each node;
/// from roots without repeats it takes one for each node that can be reached.
pub proof fn lemma_scans_needed(nodes: Map<usize, NodeView>, roots: Seq<usize>)
    requires
        nodes.dom().finite(),
    ensures
        scans_needed(nodes, roots) <= roots.len() + nodes.len(),
        roots.no_duplicates() ==> scans_needed(nodes, roots) == graph::reachable_ids(
            nodes,
            roots.to_set(),
        ).len(),
        graph::reachable_ids(nodes, roots.to_set()).len() <= nodes.len(),
{
    let set = roots.to_set();
    let pred = graph::member_of(nodes.dom());
    let reach = graph::reachable_ids(nodes, set);
    let beyond = reach.difference(set);
    ids::lemma_filter_contains(roots, pred);
    vstd::set_lib::lemma_len_subset(reach, nodes.dom());
    vstd::set_lib::lemma_len_subset(beyond, nodes.dom());
    if roots.no_duplicates() {
        let listed = graph::existing(nodes, roots);
        ids::lemma_filter_distinct(roots, pred);
        listed.unique_seq_to_set();
        assert forall|id: usize| #[trigger] listed.contains(id) implies reach.contains(id) by {
            graph::lemma_root_reachable(nodes, set, id);
        }
        assert(reach =~= listed.to_set() + beyond);
        vstd::set_lib::lemma_len_subset(listed.to_set(), reach);
        vstd::set_lib::lemma_set_disjoint_lens(listed.to_set(), beyond);
    }
}

/// The worklist names only gray nodes, and none of them twice.
spec fn listed_once(m: Marking) -> bool {
    &&& forall|id: usize| #[trigger]
        m.gray.contains(id) ==> m.nodes.contains_key(id) && m.nodes[id].liveness
            == Liveness::MaybeAlive
    &&& m.gray.no_duplicates()
}

proof fn lemma_shade_all_listed_once(m: Marking, ids: Seq<usize>)
    requires
        listed_once(m),
    ensures
        listed_once(m.shade_all(ids)),
        graph::alive_ids(m.shade_all(ids).nodes) == graph::alive_ids(m.nodes),
    decreases ids.len(),
{
    if ids.len() > 0 {
        let before = m.shade_all(ids.drop_last());
        let last = ids.last();
        lemma_shade_all_listed_once(m, ids.drop_last());
        if graph::dead_in(before.nodes, last) {
            ids::lemma_contains_push(before.gray, last);
            assert(!before.gray.contains(last));
            assert(graph::alive_ids(before.shade(last).nodes) =~= graph::alive_ids(before.nodes));
        }
    }
}

proof fn lemma_propagated_listed_once(m: Marking, budget: nat)
    requires
        m.nodes.dom().finite(),
        listed_once(m),
    ensures
        listed_once(m.propagated(budget)),
        graph::alive_ids(m.propagated(budget).nodes).len() == graph::alive_ids(m.nodes).len()
            + m.scans(budget),
    decreases budget,
{
    if budget > 0 && m.gray.len() > 0 {
        let front = m.gray[0];
        assert(m.gray.contains(front));
        ids::lemma_contains_drop_first(m.gray);
        let b = m.blacken_front();
        assert forall|id: usize| #[trigger] b.gray.contains(id) implies b.nodes.contains_key(id)
            && b.nodes[id].liveness == Liveness::MaybeAlive by {
            assert(m.gray.contains(id));
            assert(id != front);
        }
        assert(listed_once(b));
        assert(graph::alive_ids(b.nodes) =~= graph::alive_ids(m.nodes).insert(front));
        vstd::set_lib::lemma_len_subset(graph::alive_ids(m.nodes), m.nodes.dom());
        lemma_shade_all_listed_once(b, graph::successors(m.nodes, front));
        lemma_scan_front(m);
        lemma_propagated_listed_once(m.scan_front(), (budget - 1) as nat);
    }
}

/// From roots without repeats each node that can be reached is scanned once: the
/// number of scans is the budget or the number of those nodes, whichever is less,
/// as many nodes are black, and the worklist has run empty exactly when the
/// budget suffices. The worklist names no node twice, so it never holds more
/// entries than the graph has nodes.
pub proof fn lemma_distinct_roots_scan_each_node_once(
    nodes: Map<usize, NodeView>,
    roots: Seq<usize>,
    budget: nat,
)
    requires
        nodes.dom().finite(),
        roots.no_duplicates(),
    ensures
        ({
            let reach = graph::reachable_ids(nodes, roots.to_set()).len();
            let start = Marking::start(nodes, roots);
            let end = start.propagated(budget);
            &&& start.scans(budget) == (if budget <= reach {
                budget
            } else {
                reach
            })
            &&& graph::alive_ids(end.nodes).len() == start.scans(budget)
            &&& end.gray.len() == 0 <==> reach <= budget
            &&& end.gray.no_duplicates()
            &&& end.gray.len() <= nodes.len()
        }),
{
    let start = Marking::start(nodes, roots);
    let end = start.propagated(budget);
    lemma_marking_starts(nodes, roots);
    lemma_marking_continues(start, nodes, roots.to_set(), budget);
    ids::lemma_filter_distinct(roots, graph::member_of(nodes.dom()));
    ids::lemma_filter_contains(roots, graph::member_of(nodes.dom()));
    assert(start.nodes.dom() =~= nodes.dom());
    assert(graph::alive_ids(start.nodes) =~= Set::empty());
    lemma_propagated_listed_once(start, budget);
    end.gray.unique_seq_to_set();
    assert forall|id: usize| #[trigger] end.gray.to_set().contains(id) implies nodes.dom().contains(
        id,
    ) by {
        assert(end.gray.contains(id));
    }
    vstd::set_lib::lemma_len_subset(end.gray.to_set(), nodes.dom());
    lemma_scans_are_exact(nodes, roots, budget);
    lemma_scans_needed(nodes, roots);
}

} // verus!
