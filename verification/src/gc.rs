//! The garbage collector.
use crate::back_edges;
use crate::cycles;
use crate::finalizer::{Recorded, Recording};
use crate::graph;
use crate::ids;
use crate::laws;
use crate::liveness::Liveness;
use crate::marking;
use crate::marking::Marking;
use crate::node;
use crate::node::{LatticeNode, NodeView};
use crate::state;
use crate::state::GcView;
use std::collections::hash_map::Entry;
use std::collections::{HashMap, HashSet, VecDeque};
use vstd::prelude::*;

verus! {

/// Lattice-based garbage collector for GPU object graphs.
///
/// Manages a set of [`LatticeNode`]s by id. Supports incremental tri-color
/// marking, cycle detection, and finalization of dead objects.
pub struct LatticeGC {
    nodes: HashMap<usize, LatticeNode>,
    next_id: usize,
    roots: HashSet<usize>,
    gray_stack: VecDeque<usize>,
    finalizer: Option<Box<dyn Recording>>,
    /// Number of nodes propagated in the last `propagate()` call.
    pub last_propagated: usize,
}

impl View for LatticeGC {
    type V = GcView;

    closed spec fn view(&self) -> GcView {
        GcView {
            nodes: graph::node_views(self.nodes@),
            next_id: self.next_id,
            roots: self.roots@,
            gray: self.gray_stack@,
            finalizer: match self.finalizer {
                Some(finalizer) => Some(finalizer.history()),
                None => None,
            },
            last_propagated: self.last_propagated,
        }
    }
}

/// The content of a collector is what its fields hold.
proof fn lemma_content_is_the_fields(gc: LatticeGC, id: usize)
    ensures
        gc@.nodes.contains_key(id) <==> gc.nodes@.contains_key(id),
        gc@.nodes.contains_key(id) ==> {
            &&& gc@.nodes[id].liveness == gc.nodes@[id].liveness
            &&& gc@.nodes[id].edges == gc.nodes@[id].edges@
            &&& gc@.nodes[id].tag is Some == gc.nodes@[id].tag is Some
            &&& gc.nodes@[id].tag is Some ==> gc@.nodes[id].tag->0 == gc.nodes@[id].tag->0@
            &&& gc@.nodes[id].gpu_handle == gc.nodes@[id].gpu_handle
        },
        gc@.next_id == gc.next_id,
        gc@.roots == gc.roots@,
        gc@.gray == gc.gray_stack@,
        gc@.finalizer is Some <==> gc.finalizer is Some,
        gc.finalizer is Some ==> gc@.finalizer->0 == gc.finalizer->0.history(),
        gc@.last_propagated == gc.last_propagated,
{
}

/// Changes the liveness of a node.
fn set_liveness(nodes: &mut HashMap<usize, LatticeNode>, id: usize, liveness: Liveness)
    requires
        old(nodes)@.contains_key(id),
    ensures
        graph::node_views(final(nodes)@) == graph::node_views(old(nodes)@).insert(
            id,
            graph::node_views(old(nodes)@)[id].with_liveness(liveness),
        ),
        final(nodes)@.dom() == old(nodes)@.dom(),
        final(nodes)@[id].liveness == liveness,
        final(nodes)@[id].edges == old(nodes)@[id].edges,
        final(nodes)@[id].tag == old(nodes)@[id].tag,
        final(nodes)@[id].gpu_handle == old(nodes)@[id].gpu_handle,
        forall|other: usize|
            other != id && old(nodes)@.contains_key(other) ==> #[trigger] final(nodes)@[other]
                == old(nodes)@[other],
{
    if let Entry::Occupied(mut entry) = nodes.entry(id) {
        entry.get_mut().liveness = liveness;
    }
}

impl LatticeGC {
    /// The state is sound.
    pub open spec fn wf(&self) -> bool {
        self@.wf()
    }

    // -- Construction -------------------------------------------------------
    /// Create an empty GC.
    pub fn new() -> (gc: Self)
        ensures
            gc@ == GcView::empty(),
            gc@.nodes == Map::<usize, NodeView>::empty(),
            gc@.next_id == 0,
            gc@.roots == Set::<usize>::empty(),
            gc@.gray.len() == 0,
            gc@.finalizer is None,
            gc@.last_propagated == 0,
            gc.wf(),
    {
        let gc = LatticeGC {
            nodes: HashMap::new(),
            next_id: 0,
            roots: HashSet::new(),
            gray_stack: VecDeque::new(),
            finalizer: None,
            last_propagated: 0,
        };
        assert(gc@ =~= GcView::empty());
        gc
    }

    /// Set a finalizer callback invoked for each dead object before
    /// reclamation.
    pub fn set_finalizer(&mut self, f: impl FnMut(usize, &LatticeNode) + 'static)
        requires
            old(self).wf(),
            forall|id: usize, node: &LatticeNode| call_requires(f, (id, node)),
        ensures
            final(self)@ == (GcView {
                finalizer: Some(state::FinalizerView::fresh(f)),
                ..old(self)@
            }),
            final(self)@.finalizer is Some,
            final(self)@.finalizer->0.received.len() == 0,
            final(self)@.finalizer->0.callable,
            forall|id: usize, node: LatticeNode| #[trigger]
                (final(self)@.finalizer->0.returns)(id, node) <==> call_ensures(
                    f,
                    (id, &node),
                    (),
                ),
            final(self).wf(),
    {
        self.finalizer = Some(Box::new(Recorded::new(f)));
    }

    // -- Graph mutation -----------------------------------------------------
    /// Add a node, returning its id.
    pub fn add_node(&mut self, node: LatticeNode) -> (id: usize)
        requires
            old(self).wf(),
            old(self)@.next_id < usize::MAX,
        ensures
            id == old(self)@.next_id,
            !old(self)@.nodes.contains_key(id),
            final(self)@ == (GcView {
                next_id: (id + 1) as usize,
                ..old(self)@.with_node(id, node@)
            }),
            final(self)@.nodes == old(self)@.nodes.insert(id, node@),
            final(self)@.next_id == id + 1,
            final(self)@.roots == old(self)@.roots,
            final(self)@.gray == old(self)@.gray,
            final(self)@.finalizer == old(self)@.finalizer,
            final(self)@.last_propagated == old(self)@.last_propagated,
            final(self).wf(),
    {
        let id = self.next_id;
        self.next_id = self.next_id + 1;
        self.nodes.insert(id, node);
        assert(self@.nodes =~= old(self)@.nodes.insert(id, node@));
        assert(self@.marking().gray == old(self)@.marking().gray);
        id
    }

    /// Add a directed reference edge from `from` to `to`. Both nodes must
    /// exist.
    pub fn add_edge(&mut self, from: usize, to: usize)
        requires
            old(self).wf(),
            old(self)@.nodes.contains_key(from),
            old(self)@.nodes.contains_key(to),
        ensures
            final(self)@ == old(self)@.with_node(from, old(self)@.nodes[from].with_edge(to)),
            final(self)@.nodes.dom() == old(self)@.nodes.dom(),
            forall|id: usize|
                id != from && old(self)@.nodes.contains_key(id) ==> #[trigger] final(self)@.nodes[id]
                    == old(self)@.nodes[id],
            final(self)@.nodes[from].edges == (if old(self)@.nodes[from].edges.contains(to) {
                old(self)@.nodes[from].edges
            } else {
                old(self)@.nodes[from].edges.push(to)
            }),
            final(self)@.nodes[from].liveness == old(self)@.nodes[from].liveness,
            final(self)@.nodes[from].tag == old(self)@.nodes[from].tag,
            final(self)@.nodes[from].gpu_handle == old(self)@.nodes[from].gpu_handle,
            final(self)@.next_id == old(self)@.next_id,
            final(self)@.roots == old(self)@.roots,
            final(self)@.gray == old(self)@.gray,
            final(self)@.finalizer == old(self)@.finalizer,
            final(self)@.last_propagated == old(self)@.last_propagated,
            final(self).wf(),
    {
        if let Entry::Occupied(mut entry) = self.nodes.entry(from) {
            entry.get_mut().add_edge(to);
        }
        assert(self@.nodes =~= old(self)@.nodes.insert(
            from,
            old(self)@.nodes[from].with_edge(to),
        ));
        assert(self@.nodes.dom() =~= old(self)@.nodes.dom());
        assert(self@.marking().gray == old(self)@.marking().gray);
    }

    /// Remove a directed reference edge. Nothing happens where there is no node
    /// `from`.
    pub fn remove_edge(&mut self, from: usize, to: usize)
        requires
            old(self).wf(),
        ensures
            final(self)@ == (if old(self)@.nodes.contains_key(from) {
                old(self)@.with_node(from, old(self)@.nodes[from].without_edge(to))
            } else {
                old(self)@
            }),
            final(self)@.nodes.dom() == old(self)@.nodes.dom(),
            forall|id: usize|
                id != from && old(self)@.nodes.contains_key(id) ==> #[trigger] final(self)@.nodes[id]
                    == old(self)@.nodes[id],
            old(self)@.nodes.contains_key(from) ==> {
                &&& final(self)@.nodes[from].edges == old(self)@.nodes[from].edges.filter(
                    |edge: usize| edge != to,
                )
                &&& final(self)@.nodes[from].liveness == old(self)@.nodes[from].liveness
                &&& final(self)@.nodes[from].tag == old(self)@.nodes[from].tag
                &&& final(self)@.nodes[from].gpu_handle == old(self)@.nodes[from].gpu_handle
            },
            final(self)@.next_id == old(self)@.next_id,
            final(self)@.roots == old(self)@.roots,
            final(self)@.gray == old(self)@.gray,
            final(self)@.finalizer == old(self)@.finalizer,
            final(self)@.last_propagated == old(self)@.last_propagated,
            final(self).wf(),
    {
        if let Entry::Occupied(mut entry) = self.nodes.entry(from) {
            entry.get_mut().remove_edge(to);
        }
        proof {
            assert(self@.marking().gray == old(self)@.marking().gray);
            if old(self)@.nodes.contains_key(from) {
                assert(self@.nodes =~= old(self)@.nodes.insert(
                    from,
                    old(self)@.nodes[from].without_edge(to),
                ));
                assert(node::other_than(to) =~= (|edge: usize| edge != to));
                assert(self@.nodes.dom() =~= old(self)@.nodes.dom());
            } else {
                assert(self@.nodes =~= old(self)@.nodes);
            }
        }
    }

    /// Mark nodes as permanent roots, in place of the earlier ones. Every marking
    /// that starts from now on starts from these too.
    pub fn set_roots(&mut self, roots: &[usize])
        requires
            old(self).wf(),
        ensures
            final(self)@ == (GcView { roots: roots@.to_set(), ..old(self)@ }),
            forall|id: usize| #[trigger]
                final(self)@.roots.contains(id) <==> roots@.contains(id),
            final(self).wf(),
    {
        let mut set: HashSet<usize> = HashSet::new();
        let mut i: usize = 0;
        while i < roots.len()
            invariant
                i <= roots@.len(),
                set@ == roots@.take(i as int).to_set(),
            decreases roots@.len() - i,
        {
            set.insert(roots[i]);
            proof {
                assert(roots@.take(i + 1) =~= roots@.take(i as int).push(roots@[i as int]));
                ids::lemma_contains_push(roots@.take(i as int), roots@[i as int]);
                assert(roots@.take(i + 1).to_set() =~= roots@.take(i as int).to_set().insert(
                    roots@[i as int],
                ));
            }
            i = i + 1;
        }
        assert(roots@.take(i as int) =~= roots@);
        self.roots = set;
    }

    // -- Tri-color marking --------------------------------------------------
    /// Phase 1: Mark all roots, those given and the permanent ones, as gray
    /// (`MaybeAlive`) and push them onto the work stack.
    ///
    /// Resets every node to `Dead` first, so the entire graph must be reached
    /// from roots. An id without a node is not a root. The roots given come
    /// first; a permanent root among them is not pushed again. The order of the
    /// other permanent ones is left open.
    pub fn mark_roots(&mut self, roots: &[usize])
        requires
            old(self).wf(),
        ensures
            old(self)@.marks_to(roots@, final(self)@),
            final(self)@.nodes.dom() == old(self)@.nodes.dom(),
            forall|id: usize| #[trigger]
                old(self)@.nodes.contains_key(id) ==> {
                    &&& final(self)@.nodes[id].liveness == (if roots@.contains(id)
                        || old(self)@.roots.contains(id) {
                        Liveness::MaybeAlive
                    } else {
                        Liveness::Dead
                    })
                    &&& final(self)@.nodes[id].edges == old(self)@.nodes[id].edges
                    &&& final(self)@.nodes[id].tag == old(self)@.nodes[id].tag
                    &&& final(self)@.nodes[id].gpu_handle == old(self)@.nodes[id].gpu_handle
                },
            old(self)@.roots.subset_of(roots@.to_set()) ==> final(self)@ == old(self)@.rooted(
                roots@,
            ),
            final(self).wf(),
    {
        let ghost before = self@;
        self.whiten();
        self.add_roots(roots);
        let permanent = self.permanent_roots();
        let ghost given = self@;
        self.shade_all(&permanent);
        proof {
            let none = Seq::<usize>::empty();
            let listed = permanent@.filter(marking::not_among(roots@));
            marking::lemma_start_in_parts(before.nodes, none, roots@);
            assert(none + roots@ =~= roots@);
            assert(given.marking() =~= Marking::start(before.nodes, roots@));
            marking::lemma_shading_adds_roots(before.nodes, roots@, permanent@);
            ids::lemma_filter_distinct(permanent@, marking::not_among(roots@));
            ids::lemma_filter_contains(permanent@, marking::not_among(roots@));
            assert forall|id: usize| before.roots.contains(id) implies #[trigger] permanent@.contains(
                id,
            ) by {
                assert(permanent@.to_set().contains(id));
            }
            assert forall|id: usize| #[trigger] permanent@.contains(id) implies before.roots.contains(
                id,
            ) by {
                assert(permanent@.to_set().contains(id));
            }
            assert(listed.to_set() =~= before.roots.difference(roots@.to_set()));
            assert(self@ == before.rooted(roots@ + listed));
            laws::lemma_marking_starts_from_all_roots(before, roots@, self@, 0);
            assert forall|id: usize| #[trigger] before.nodes.contains_key(id) implies {
                &&& self@.nodes[id].liveness == (if roots@.contains(id) || before.roots.contains(
                    id,
                ) {
                    Liveness::MaybeAlive
                } else {
                    Liveness::Dead
                })
                &&& self@.nodes[id].edges == before.nodes[id].edges
                &&& self@.nodes[id].tag == before.nodes[id].tag
                &&& self@.nodes[id].gpu_handle == before.nodes[id].gpu_handle
            } by {
                laws::lemma_marking_roots_changes_liveness_alone(before, roots@, self@, id);
            }
            if before.roots.subset_of(roots@.to_set()) {
                laws::lemma_marking_with_permanent_roots_named(before, roots@, self@);
            }
        }
    }

    /// The permanent roots, in an order that is left open.
    fn permanent_roots(&self) -> (ids: Vec<usize>)
        ensures
            ids@.no_duplicates(),
            ids@.to_set() == self@.roots,
    {
        let mut ids: Vec<usize> = Vec::new();
        for id in keys: self.roots.iter()
            invariant
                ids@.len() == keys.index(),
                keys.seq() == vstd::std_specs::iter::IteratorSpec::remaining(
                    &vstd::std_specs::hash::spec_hash_keys_iter(&self.roots),
                ),
                forall|i: int| 0 <= i < ids@.len() ==> ids@[i] == *(#[trigger] keys.seq()[i]),
        {
            ids.push(*id);
        }
        assert(ids@ =~= vstd::std_specs::iter::IteratorSpec::remaining(
            &vstd::std_specs::hash::spec_hash_keys_iter(&self.roots),
        ).unref());
        ids
    }

    /// The roots that exist turn gray and join the worklist.
    fn add_roots(&mut self, roots: &[usize])
        ensures
            final(self)@ == old(self)@.with_marking(old(self)@.marking().with_roots(roots@)),
    {
        let ghost before = self@;
        let ghost present = graph::member_of(before.nodes.dom());
        let mut i: usize = 0;
        assert(roots@.take(0).filter(present) =~= Seq::empty()) by {
            reveal(Seq::filter);
        }
        assert(before.gray + Seq::<usize>::empty() =~= before.gray);
        while i < roots.len()
            invariant
                i <= roots@.len(),
                before == old(self)@,
                present == graph::member_of(before.nodes.dom()),
                self@ == before.with_marking(self@.marking()),
                self@.nodes.dom() == before.nodes.dom(),
                forall|id: usize|
                    before.nodes.contains_key(id) ==> #[trigger] self@.nodes[id] == (
                    if roots@.take(i as int).contains(id) {
                        before.nodes[id].with_liveness(Liveness::MaybeAlive)
                    } else {
                        before.nodes[id]
                    }),
                self@.gray == before.gray + roots@.take(i as int).filter(present),
            decreases roots@.len() - i,
        {
            let id = roots[i];
            proof {
                let seen = roots@.take(i as int);
                assert(roots@.take(i + 1) =~= seen.push(id));
                assert(seen.push(id).drop_last() =~= seen);
                ids::lemma_contains_push(seen, id);
                reveal(Seq::filter);
                assert(before.gray + seen.filter(present).push(id) =~= (before.gray + seen.filter(
                    present,
                )).push(id));
            }
            if self.nodes.contains_key(&id) {
                set_liveness(&mut self.nodes, id, Liveness::MaybeAlive);
                self.gray_stack.push_back(id);
            }
            i = i + 1;
        }
        proof {
            assert(roots@.take(i as int) =~= roots@);
            assert(self@.marking() =~= before.marking().with_roots(roots@));
        }
    }

    /// Turns every node white and empties the worklist.
    fn whiten(&mut self)
        ensures
            final(self)@ == old(self)@.rooted(Seq::empty()),
    {
        let all = self.node_ids();
        let ghost before = self@;
        let mut i: usize = 0;
        while i < all.len()
            invariant
                i <= all@.len(),
                before == old(self)@,
                all@.to_set() == before.nodes.dom(),
                self@ == before.with_marking(self@.marking()),
                self@.nodes.dom() == before.nodes.dom(),
                forall|id: usize|
                    before.nodes.contains_key(id) ==> #[trigger] self@.nodes[id]
                        == before.nodes[id].with_liveness(
                        if all@.take(i as int).contains(id) {
                            Liveness::Dead
                        } else {
                            before.nodes[id].liveness
                        },
                    ),
            decreases all@.len() - i,
        {
            let id = all[i];
            proof {
                assert(all@.take(i + 1) =~= all@.take(i as int).push(id));
                ids::lemma_contains_push(all@.take(i as int), id);
                assert(all@.to_set().contains(id));
                assert(self@.nodes.contains_key(id));
            }
            set_liveness(&mut self.nodes, id, Liveness::Dead);
            i = i + 1;
        }
        proof {
            assert(all@.take(i as int) =~= all@);
            assert forall|id: usize| before.nodes.contains_key(id) implies all@.contains(id) by {
                assert(all@.to_set().contains(id));
            }
        }
        self.gray_stack.clear();
        assert(self@.marking() =~= Marking::start(before.nodes, Seq::empty())) by {
            reveal(Seq::filter);
        }
    }

    /// A white node turns gray and joins the worklist.
    fn shade(&mut self, id: usize)
        ensures
            final(self)@ == old(self)@.with_marking(old(self)@.marking().shade(id)),
    {
        if let Some(node) = self.nodes.get(&id) {
            if node.liveness == Liveness::Dead {
                set_liveness(&mut self.nodes, id, Liveness::MaybeAlive);
                self.gray_stack.push_back(id);
            }
        }
    }

    /// Each white node among the ids turns gray and joins the worklist.
    fn shade_all(&mut self, ids: &Vec<usize>)
        ensures
            final(self)@ == old(self)@.with_marking(old(self)@.marking().shade_all(ids@)),
    {
        let ghost before = self@;
        let mut i: usize = 0;
        while i < ids.len()
            invariant
                i <= ids@.len(),
                self@ == before.with_marking(before.marking().shade_all(ids@.take(i as int))),
            decreases ids@.len() - i,
        {
            assert(ids@.take(i + 1).drop_last() =~= ids@.take(i as int));
            self.shade(ids[i]);
            i = i + 1;
        }
        assert(ids@.take(i as int) =~= ids@);
    }

    /// The front of the worklist turns black and its children gray.
    fn scan_front(&mut self)
        requires
            old(self)@.gray.len() > 0,
        ensures
            final(self)@ == old(self)@.with_marking(old(self)@.marking().scan_front()),
    {
        if let Some(id) = self.gray_stack.pop_front() {
            let edges = match self.nodes.get(&id) {
                Some(node) => node.edges.clone(),
                None => Vec::new(),
            };
            assert(edges@ == graph::successors(old(self)@.nodes, id));
            if self.nodes.contains_key(&id) {
                set_liveness(&mut self.nodes, id, Liveness::Alive);
            }
            let ghost black = self@;
            assert(black.marking() =~= old(self)@.marking().blacken_front());
            self.shade_all(&edges);
        }
    }

    /// Phase 2: Propagate liveness through the graph, up to `budget` nodes.
    ///
    /// Each step pops a gray node, marks it black (`Alive`), and marks all
    /// white children gray. Returns the number of nodes processed.
    pub fn propagate(&mut self, budget: usize) -> (processed: usize)
        requires
            old(self).wf(),
        ensures
            final(self)@ == old(self)@.propagated(budget),
            processed == old(self)@.marking().scans(budget as nat),
            final(self)@.last_propagated == processed,
            processed <= budget,
            processed < budget ==> final(self)@.gray.len() == 0,
            final(self)@.nodes.dom() == old(self)@.nodes.dom(),
            forall|id: usize| #[trigger]
                old(self)@.nodes.contains_key(id) ==> {
                    &&& final(self)@.nodes[id].edges == old(self)@.nodes[id].edges
                    &&& final(self)@.nodes[id].tag == old(self)@.nodes[id].tag
                    &&& final(self)@.nodes[id].gpu_handle == old(self)@.nodes[id].gpu_handle
                },
            final(self).wf(),
    {
        let ghost before = self@;
        let ghost target = before.marking().propagated(budget as nat);
        let ghost total = before.marking().scans(budget as nat);
        let mut processed: usize = 0;
        while processed < budget && self.gray_stack.len() > 0
            invariant
                processed <= budget,
                before == old(self)@,
                self@ == before.with_marking(self@.marking()),
                self@.marking().propagated((budget - processed) as nat) == target,
                processed + self@.marking().scans((budget - processed) as nat) == total,
            decreases budget - processed,
        {
            self.scan_front();
            processed = processed + 1;
        }
        self.last_propagated = processed;
        proof {
            marking::lemma_propagation_is_monotone(before.marking(), budget as nat);
            marking::lemma_propagation_keeps_worklist(before.marking(), budget as nat);
            marking::lemma_scans_within_budget(before.marking(), budget as nat);
            assert forall|id: usize| #[trigger] before.nodes.contains_key(id) implies {
                &&& self@.nodes[id].edges == before.nodes[id].edges
                &&& self@.nodes[id].tag == before.nodes[id].tag
                &&& self@.nodes[id].gpu_handle == before.nodes[id].gpu_handle
            } by {
                laws::lemma_propagating_changes_liveness_alone(before, budget, id);
            }
        }
        processed
    }

    /// Returns `true` if `propagate` has no more work (gray stack is empty).
    pub fn is_marking_complete(&self) -> (complete: bool)
        ensures
            complete == (self@.gray.len() == 0),
    {
        self.gray_stack.len() == 0
    }

    // -- Finalization -------------------------------------------------------
    /// Invoke finalizer on all dead nodes and remove them from the graph.
    pub fn finalize_dead(&mut self)
        requires
            old(self).wf(),
        ensures
            old(self)@.finalizes_to(final(self)@),
            forall|id: usize| #[trigger]
                final(self)@.nodes.contains_key(id) <==> old(self)@.nodes.contains_key(id)
                    && old(self)@.nodes[id].liveness != Liveness::Dead,
            forall|id: usize| #[trigger]
                final(self)@.nodes.contains_key(id) ==> final(self)@.nodes[id]
                    == old(self)@.nodes[id],
            final(self).wf(),
    {
        let dead = self.dead_nodes();
        let ghost before = self@;
        let ghost calls = Seq::new(dead@.len(), |k: int| (dead@[k], before.nodes[dead@[k]]));
        let mut i: usize = 0;
        assert(dead@.take(0).to_set() =~= Set::empty());
        assert(self@.nodes =~= before.nodes.remove_keys(dead@.take(0).to_set()));
        while i < dead.len()
            invariant
                i <= dead@.len(),
                before == old(self)@,
                dead@.no_duplicates(),
                dead@.to_set() == graph::dead_ids(before.nodes),
                calls == Seq::new(dead@.len(), |k: int| (dead@[k], before.nodes[dead@[k]])),
                self@ == (GcView {
                    nodes: before.nodes.remove_keys(dead@.take(i as int).to_set()),
                    finalizer: match before.finalizer {
                        Some(f) => Some(
                            state::FinalizerView {
                                received: f.received + calls.take(i as int),
                                ..f
                            },
                        ),
                        None => None,
                    },
                    ..before
                }),
                before.finalizer matches Some(f) ==> f.callable && forall|k: int|
                    0 <= k < i ==> state::call_was_made(f, #[trigger] calls[k]),
            decreases dead@.len() - i,
        {
            let id = dead[i];
            let ghost mid = self@;
            let ghost held = self.nodes@;
            proof {
                let seen = dead@.take(i as int);
                assert(dead@.take(i + 1) =~= seen.push(id));
                ids::lemma_contains_push(seen, id);
                assert(seen.push(id).to_set() =~= seen.to_set().insert(id));
                assert(!seen.contains(id));
                assert(dead@.to_set().contains(id));
                assert(calls.take(i + 1) =~= calls.take(i as int).push(calls[i as int]));
                assert(self@.nodes.contains_key(id));
            }
            if let Some(node) = self.nodes.remove(&id) {
                assert(node == held[id]);
                assert(mid.nodes[id] == held[id]@);
                assert(mid.nodes[id] == before.nodes[id]);
                if let Some(finalizer) = &mut self.finalizer {
                    finalizer.finalize(id, &node);
                    proof {
                        let f = before.finalizer->0;
                        assert(calls[i as int] == (id, node@));
                        assert(f.returned(calls[i as int].0, node));
                        assert(state::call_was_made(f, calls[i as int]));
                    }
                }
            }
            proof {
                assert(self@.nodes =~= mid.nodes.remove(id));
                assert(self@.nodes =~= before.nodes.remove_keys(dead@.take(i + 1).to_set()));
                if let Some(f) = before.finalizer {
                    assert((f.received + calls.take(i as int)).push(calls[i as int])
                        =~= f.received + calls.take(i + 1));
                }
            }
            i = i + 1;
        }
        proof {
            assert(dead@.take(i as int) =~= dead@);
            assert(calls.take(i as int) =~= calls);
            assert(state::lists_dead(calls, before.nodes)) by {
                assert forall|id: usize| #[trigger] graph::dead_in(before.nodes, id) implies exists|
                    k: int,
                |
                    0 <= k < calls.len() && (#[trigger] calls[k]).0 == id by {
                    assert(dead@.to_set().contains(id));
                    let k = dead@.index_of(id);
                    assert(calls[k].0 == id);
                }
                assert forall|k: int| 0 <= k < calls.len() implies graph::dead_in(
                    before.nodes,
                    (#[trigger] calls[k]).0,
                ) && calls[k].1 == before.nodes[calls[k].0] by {
                    assert(dead@.to_set().contains(dead@[k]));
                }
            }
            if let Some(f) = before.finalizer {
                let after = self@.finalizer->0;
                assert(after.received.skip(f.received.len() as int) =~= calls);
                assert forall|k: int| 0 <= k < after.received.len() implies state::call_was_made(
                    after,
                    #[trigger] after.received[k],
                ) by {
                    let call = after.received[k];
                    if k < f.received.len() {
                        assert(call == f.received[k]);
                    } else {
                        assert(call == calls[k - f.received.len()]);
                    }
                    assert(state::call_was_made(f, call));
                    let node = choose|node: LatticeNode| #[trigger]
                        f.returned(call.0, node) && node@ == call.1;
                    assert(after.returned(call.0, node));
                }
            }
            assert(self@.nodes.dom() =~= self.nodes@.dom());
            assert forall|id: usize| #[trigger] self@.marking().gray.contains(id) implies self@.nodes.contains_key(id)
                && !graph::dead_in(self@.nodes, id) by {
                assert(before.marking().gray.contains(id));
            }
        }
    }

    /// Convenience: full mark-and-sweep in one call. What can be reached from
    /// the roots given and the permanent ones is kept, and nothing else.
    pub fn collect(&mut self, roots: &[usize])
        requires
            old(self).wf(),
        ensures
            laws::collects_to(old(self)@, roots@, final(self)@),
            roots@.no_duplicates() || old(self)@.scans_needed(roots@) <= usize::MAX || roots@.len()
                + old(self)@.nodes.len() <= usize::MAX ==> laws::keeps_reachable(
                old(self)@.nodes,
                old(self)@.all_roots(roots@),
                final(self)@.nodes,
            ),
            forall|id: usize| #[trigger]
                final(self)@.nodes.contains_key(id) ==> {
                    &&& old(self)@.nodes.contains_key(id)
                    &&& final(self)@.nodes[id].edges == old(self)@.nodes[id].edges
                    &&& final(self)@.nodes[id].tag == old(self)@.nodes[id].tag
                    &&& final(self)@.nodes[id].gpu_handle == old(self)@.nodes[id].gpu_handle
                },
            final(self).wf(),
    {
        self.mark_roots(roots);
        let ghost rooted = self@;
        self.propagate(usize::MAX);
        self.finalize_dead();
        proof {
            assert(old(self)@.marks_to(roots@, rooted));
            laws::lemma_scans_needed(old(self)@, roots@);
            if old(self)@.scans_needed(roots@) <= usize::MAX {
                laws::lemma_collect_keeps_exactly_the_reachable(old(self)@, roots@, self@);
            }
        }
    }

    /// Run incremental collection: process up to `budget` nodes, return
    /// `(processed, finished)`.
    pub fn collect_incremental(&mut self, budget: usize) -> (progress: (usize, bool))
        requires
            old(self).wf(),
        ensures
            progress.0 == old(self)@.marking().scans(budget as nat),
            progress.1 == (old(self)@.propagated(budget).gray.len() == 0),
            progress.1 ==> old(self)@.propagated(budget).finalizes_to(final(self)@),
            !progress.1 ==> final(self)@ == old(self)@.propagated(budget),
            progress.0 <= budget,
            progress.0 < budget ==> progress.1,
            progress.1 <==> final(self)@.gray.len() == 0,
            final(self)@.last_propagated == progress.0,
            forall|id: usize| #[trigger]
                final(self)@.nodes.contains_key(id) ==> {
                    &&& old(self)@.nodes.contains_key(id)
                    &&& progress.1 ==> final(self)@.nodes[id].liveness != Liveness::Dead
                    &&& final(self)@.nodes[id].edges == old(self)@.nodes[id].edges
                    &&& final(self)@.nodes[id].tag == old(self)@.nodes[id].tag
                    &&& final(self)@.nodes[id].gpu_handle == old(self)@.nodes[id].gpu_handle
                },
            !progress.1 ==> final(self)@.nodes.dom() == old(self)@.nodes.dom(),
            final(self).wf(),
    {
        let processed = self.propagate(budget);
        let done = self.is_marking_complete();
        if done {
            self.finalize_dead();
        }
        (processed, done)
    }

    // -- Cycle detection ----------------------------------------------------
    /// Detect reference cycles by depth-first search from the ids of `order` in
    /// turn.
    ///
    /// Returns a list of cycles, where each cycle is a list of node ids forming
    /// the cycle.
    pub fn detect_cycles_in_order(&self, order: &[usize]) -> (cycles: Vec<Vec<usize>>)
        ensures
            cycles::list_views(cycles@) == cycles::cycles_found(self@.nodes, order@),
    {
        cycles::cycles_in_order(&self.nodes, order)
    }

    /// Detect reference cycles using iterative DFS with on-stack tracking. The
    /// order in which the nodes are taken as starting points is left open.
    ///
    /// Returns a list of cycles, where each cycle is a list of node ids forming
    /// the cycle. A reference of a node to itself is not reported.
    pub fn detect_cycles(&self) -> (cycles: Vec<Vec<usize>>)
        ensures
            exists|order: Seq<usize>|
                {
                    &&& order.no_duplicates()
                    &&& order.to_set() == self@.nodes.dom()
                    &&& cycles::list_views(cycles@) == #[trigger] cycles::cycles_found(
                        self@.nodes,
                        order,
                    )
                },
            cycles::all_cycles(self@.nodes, cycles::list_views(cycles@)),
            cycles@.len() > 0 <==> exists|cycle: Seq<usize>|
                cycles::is_cycle(self@.nodes, cycle),
            forall|k: int|
                0 <= k < cycles@.len() ==> {
                    let cycle = #[trigger] cycles@[k]@;
                    &&& cycle.len() > 1
                    &&& cycle.no_duplicates()
                    &&& forall|i: int|
                        0 <= i < cycle.len() ==> self@.nodes.contains_key(#[trigger] cycle[i])
                            && self@.nodes[cycle[i]].edges.contains(
                            cycle[(i + 1) % (cycle.len() as int)],
                        )
                },
            forall|k: int, l: int, r: int|
                #![trigger cycles@[k]@.skip(r), cycles@[l]]
                0 <= k < cycles@.len() && 0 <= l < cycles@.len() && 0 < r < cycles@[k]@.len()
                    ==> cycles@[l]@ != cycles@[k]@.skip(r) + cycles@[k]@.take(r),
            (forall|id: usize| #[trigger]
                self@.nodes.contains_key(id) ==> self@.nodes[id].edges.no_duplicates())
                ==> forall|k: int, l: int|
                0 <= k < l < cycles@.len() ==> (#[trigger] cycles@[k])@ != (
                #[trigger] cycles@[l])@,
    {
        let order = self.node_ids();
        let cycles = self.detect_cycles_in_order(order.as_slice());
        proof {
            cycles::lemma_reported_cycles_are_cycles(self@.nodes, order@);
            assert forall|id: usize| #[trigger] self@.nodes.contains_key(id) implies order@.contains(
                id,
            ) by {
                assert(order@.to_set().contains(id));
            }
            cycles::lemma_cycles_found_iff_cyclic(self@.nodes, order@);
            back_edges::lemma_no_cycle_is_reported_twice(self@.nodes, order@);
            let found = cycles::cycles_found(self@.nodes, order@);
            cycles::lemma_contents_of_lists(cycles@);
            assert forall|k: int| 0 <= k < cycles@.len() implies found[k] == #[trigger] cycles@[k]@ by {}
            assert forall|k: int| 0 <= k < cycles@.len() implies {
                let cycle = #[trigger] cycles@[k]@;
                &&& cycle.len() > 1
                &&& cycle.no_duplicates()
                &&& forall|i: int|
                    0 <= i < cycle.len() ==> self@.nodes.contains_key(#[trigger] cycle[i])
                        && self@.nodes[cycle[i]].edges.contains(
                        cycle[(i + 1) % (cycle.len() as int)],
                    )
            } by {
                assert(cycles::is_cycle(self@.nodes, found[k]));
                cycles::lemma_what_a_cycle_is(self@.nodes, found[k]);
            }
            assert forall|k: int, l: int, r: int|
                #![trigger cycles@[k]@.skip(r), cycles@[l]]
                0 <= k < cycles@.len() && 0 <= l < cycles@.len() && 0 < r
                    < cycles@[k]@.len() implies cycles@[l]@ != cycles@[k]@.skip(r)
                + cycles@[k]@.take(r) by {
                let turned = found[k].skip(r);
                assert(found[l] == cycles@[l]@);
            }
            if forall|id: usize| #[trigger]
                self@.nodes.contains_key(id) ==> self@.nodes[id].edges.no_duplicates() {
                assert forall|k: int, l: int| 0 <= k < l < cycles@.len() implies (
                #[trigger] cycles@[k])@ != (#[trigger] cycles@[l])@ by {
                    assert(found[k] != found[l]);
                }
            }
        }
        cycles
    }

    // -- Queries ------------------------------------------------------------
    /// Is the node definitely alive?
    pub fn is_alive(&self, id: usize) -> (alive: bool)
        ensures
            alive == graph::alive_in(self@.nodes, id),
            alive <==> self@.nodes.contains_key(id) && self@.nodes[id].liveness == Liveness::Alive,
    {
        match self.nodes.get(&id) {
            Some(node) => node.liveness == Liveness::Alive,
            None => false,
        }
    }

    /// Is the node definitely dead? An id without a node counts as dead.
    pub fn is_dead(&self, id: usize) -> (dead: bool)
        ensures
            dead == (self@.nodes.contains_key(id) ==> self@.nodes[id].liveness == Liveness::Dead),
    {
        match self.nodes.get(&id) {
            Some(node) => node.liveness == Liveness::Dead,
            None => true,
        }
    }

    /// Get the liveness of a node.
    pub fn liveness(&self, id: usize) -> (liveness: Option<Liveness>)
        ensures
            liveness == (if self@.nodes.contains_key(id) {
                Some(self@.nodes[id].liveness)
            } else {
                None
            }),
    {
        match self.nodes.get(&id) {
            Some(node) => Some(node.liveness),
            None => None,
        }
    }

    /// Get a reference to a node.
    pub fn get_node(&self, id: usize) -> (node: Option<&LatticeNode>)
        ensures
            match node {
                Some(node) => {
                    &&& self@.nodes.contains_key(id)
                    &&& node@ == self@.nodes[id]
                    &&& node.liveness == self@.nodes[id].liveness
                    &&& node.edges@ == self@.nodes[id].edges
                    &&& node.tag is Some == self@.nodes[id].tag is Some
                    &&& node.tag is Some ==> node.tag->0@ == self@.nodes[id].tag->0
                    &&& node.gpu_handle == self@.nodes[id].gpu_handle
                },
                None => !self@.nodes.contains_key(id),
            },
    {
        self.nodes.get(&id)
    }

    /// The ids of all nodes, in an order that is left open.
    fn node_ids(&self) -> (ids: Vec<usize>)
        ensures
            ids@.no_duplicates(),
            ids@.to_set() == self@.nodes.dom(),
    {
        let mut ids: Vec<usize> = Vec::new();
        for id in keys: self.nodes.keys()
            invariant
                ids@.len() == keys.index(),
                keys.seq() == vstd::std_specs::iter::IteratorSpec::remaining(
                    &vstd::std_specs::hash::spec_keys_iter(&self.nodes),
                ),
                forall|i: int| 0 <= i < ids@.len() ==> ids@[i] == *(#[trigger] keys.seq()[i]),
        {
            ids.push(*id);
        }
        assert(ids@ =~= vstd::std_specs::iter::IteratorSpec::remaining(
            &vstd::std_specs::hash::spec_keys_iter(&self.nodes),
        ).unref());
        assert(self@.nodes.dom() =~= self.nodes@.dom());
        ids
    }

    /// The ids of the nodes with the given liveness, in an order that is left
    /// open.
    fn ids_with(&self, liveness: Liveness) -> (ids: Vec<usize>)
        ensures
            ids@.no_duplicates(),
            ids@.to_set() == self@.nodes.dom().filter(
                |id: usize| self@.nodes[id].liveness == liveness,
            ),
    {
        let all = self.node_ids();
        let mut ids: Vec<usize> = Vec::new();
        let mut i: usize = 0;
        while i < all.len()
            invariant
                i <= all@.len(),
                all@.no_duplicates(),
                all@.to_set() == self@.nodes.dom(),
                ids@.no_duplicates(),
                forall|id: usize| #[trigger]
                    ids@.contains(id) <==> all@.take(i as int).contains(id)
                        && self@.nodes[id].liveness == liveness,
            decreases all@.len() - i,
        {
            let id = all[i];
            proof {
                assert(all@.take(i + 1) =~= all@.take(i as int).push(id));
                ids::lemma_contains_push(all@.take(i as int), id);
                ids::lemma_contains_push(ids@, id);
                assert(all@.to_set().contains(id));
                assert(!all@.take(i as int).contains(id));
                assert(!ids@.contains(id));
            }
            if let Some(node) = self.nodes.get(&id) {
                if node.liveness == liveness {
                    ids.push(id);
                }
            }
            i = i + 1;
        }
        proof {
            assert(all@.take(i as int) =~= all@);
            assert forall|id: usize| self@.nodes.contains_key(id) implies all@.contains(id) by {
                assert(all@.to_set().contains(id));
            }
            assert(ids@.to_set() =~= self@.nodes.dom().filter(
                |id: usize| self@.nodes[id].liveness == liveness,
            ));
        }
        ids
    }

    /// Return the ids of the dead nodes (after marking), in an order that is
    /// left open.
    pub fn dead_nodes(&self) -> (dead: Vec<usize>)
        ensures
            dead@.no_duplicates(),
            dead@.to_set() == graph::dead_ids(self@.nodes),
            forall|id: usize| #[trigger]
                dead@.contains(id) <==> self@.nodes.contains_key(id) && self@.nodes[id].liveness
                    == Liveness::Dead,
    {
        let dead = self.ids_with(Liveness::Dead);
        proof {
            assert forall|id: usize| #[trigger] dead@.contains(id) <==> self@.nodes.contains_key(id)
                && self@.nodes[id].liveness == Liveness::Dead by {
                assert(dead@.to_set().contains(id) == dead@.contains(id));
            }
        }
        dead
    }

    /// Return the ids of the alive nodes, in an order that is left open.
    pub fn alive_nodes(&self) -> (alive: Vec<usize>)
        ensures
            alive@.no_duplicates(),
            alive@.to_set() == graph::alive_ids(self@.nodes),
            forall|id: usize| #[trigger]
                alive@.contains(id) <==> self@.nodes.contains_key(id) && self@.nodes[id].liveness
                    == Liveness::Alive,
    {
        let alive = self.ids_with(Liveness::Alive);
        proof {
            assert forall|id: usize| #[trigger] alive@.contains(id) <==> self@.nodes.contains_key(id)
                && self@.nodes[id].liveness == Liveness::Alive by {
                assert(alive@.to_set().contains(id) == alive@.contains(id));
            }
        }
        alive
    }

    /// Total number of nodes.
    pub fn node_count(&self) -> (count: usize)
        ensures
            count == self@.nodes.len(),
    {
        assert(self@.nodes.dom() =~= self.nodes@.dom());
        self.nodes.len()
    }
}

impl Default for LatticeGC {
    fn default() -> (gc: Self)
        ensures
            gc@ == GcView::empty(),
            gc.wf(),
    {
        LatticeGC::new()
    }
}

} // verus!
