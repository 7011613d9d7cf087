//! Laws of whole collections.
use crate::graph;
use crate::ids;
use crate::liveness::Liveness;
use crate::marking;
use crate::marking::Marking;
use crate::node::{LatticeNode, NodeView};
use crate::state;
use crate::state::GcView;
use vstd::prelude::*;

verus! {

/// `kept` holds the nodes of `nodes` that can be reached from the roots, and no
/// others; each is definitely alive and otherwise as it was.
pub open spec fn keeps_reachable(
    nodes: Map<usize, NodeView>,
    roots: Set<usize>,
    kept: Map<usize, NodeView>,
) -> bool {
    &&& kept.dom() == graph::reachable_ids(nodes, roots)
    &&& forall|id: usize| #[trigger]
        kept.contains_key(id) ==> kept[id] == nodes[id].with_liveness(Liveness::Alive)
}

/// The graph after marking: what can be reached is black, the rest white.
pub open spec fn colored(nodes: Map<usize, NodeView>, roots: Set<usize>) -> Map<usize, NodeView> {
    Map::new(
        |id: usize| nodes.contains_key(id),
        |id: usize|
            nodes[id].with_liveness(
                if graph::reachable(nodes, roots, id) {
                    Liveness::Alive
                } else {
                    Liveness::Dead
                },
            ),
    )
}

/// Is `after` what a full collection makes of `before`?
pub open spec fn collects_to(before: GcView, roots: Seq<usize>, after: GcView) -> bool {
    exists|rooted: GcView|
        {
            &&& #[trigger] before.marks_to(roots, rooted)
            &&& rooted.propagated(usize::MAX).finalizes_to(after)
        }
}

/// A marking starts from the roots given and the permanent ones: those that
/// exist are gray and all else is white. How many scans it takes does not
/// depend on the order of the permanent roots.
pub proof fn lemma_marking_starts_from_all_roots(
    before: GcView,
    roots: Seq<usize>,
    rooted: GcView,
    budget: nat,
)
    requires
        before.wf(),
        before.marks_to(roots, rooted),
    ensures
        rooted.wf(),
        rooted.marking().under_way(before.nodes, before.all_roots(roots)),
        forall|id: usize| #[trigger]
            before.nodes.contains_key(id) ==> rooted.nodes[id] == before.nodes[id].with_liveness(
                if before.all_roots(roots).contains(id) {
                    Liveness::MaybeAlive
                } else {
                    Liveness::Dead
                },
            ),
        rooted.marking().scans(budget) == (if budget <= before.scans_needed(roots) {
            budget
        } else {
            before.scans_needed(roots)
        }),
        rooted.marking().propagated(budget).gray.len() == 0 <==> before.scans_needed(roots)
            <= budget,
{
    let permanent = choose|permanent: Seq<usize>|
        {
            &&& permanent.no_duplicates()
            &&& permanent.to_set() == before.roots.difference(roots.to_set())
            &&& rooted == #[trigger] before.rooted(roots + permanent)
        };
    let list = roots + permanent;
    let start = Marking::start(before.nodes, list);
    let pred = graph::member_of(before.nodes.dom());
    assert(rooted.marking() =~= start);
    ids::lemma_contains_concat(roots, permanent);
    assert(list.to_set() =~= before.all_roots(roots));
    marking::lemma_marking_starts(before.nodes, list);
    marking::lemma_scans_are_exact(before.nodes, list, budget);
    Seq::filter_distributes_over_add(roots, permanent, pred);
    ids::lemma_filter_distinct(permanent, pred);
    ids::lemma_filter_contains(permanent, pred);
    permanent.filter(pred).unique_seq_to_set();
    let all = before.all_roots(roots);
    let reach = graph::reachable_ids(before.nodes, all);
    let named = permanent.filter(pred).to_set();
    assert forall|id: usize| #[trigger] named.contains(id) implies reach.contains(id) by {
        assert(permanent.to_set().contains(id));
        graph::lemma_root_reachable(before.nodes, all, id);
    }
    assert forall|id: usize| permanent.contains(id) implies #[trigger] permanent.to_set().contains(
        id,
    ) by {}
    assert(reach.difference(roots.to_set()) =~= named + reach.difference(all)) by {
        assert forall|id: usize| #[trigger]
            reach.contains(id) && !roots.to_set().contains(id) && all.contains(
            id,
        ) implies named.contains(id) by {
            assert(permanent.to_set().contains(id));
            assert(permanent.filter(pred).contains(id));
        }
        assert forall|id: usize| #[trigger] named.contains(id) implies !roots.to_set().contains(
            id,
        ) by {
            assert(permanent.to_set().contains(id));
        }
    }
    vstd::set_lib::lemma_len_subset(named, before.nodes.dom());
    vstd::set_lib::lemma_len_subset(reach.difference(all), before.nodes.dom());
    vstd::set_lib::lemma_set_disjoint_lens(named, reach.difference(all));
    assert(rooted.nodes.dom() =~= before.nodes.dom());
    assert forall|id: usize| #[trigger] before.nodes.contains_key(id) implies before.all_roots(
        roots,
    ).contains(id) == list.contains(id) by {
        assert(list.to_set().contains(id) == list.contains(id));
    }
}

/// Where the roots given include the permanent ones, or there are none of these,
/// a marking starts from the roots given and nothing else.
pub proof fn lemma_marking_with_permanent_roots_named(
    before: GcView,
    roots: Seq<usize>,
    rooted: GcView,
)
    requires
        before.roots.subset_of(roots.to_set()),
    ensures
        before.marks_to(roots, rooted) <==> rooted == before.rooted(roots),
{
    let none = Seq::<usize>::empty();
    assert(none.to_set() =~= before.roots.difference(roots.to_set()));
    assert(roots + none =~= roots);
    if before.marks_to(roots, rooted) {
        let permanent = choose|permanent: Seq<usize>|
            {
                &&& permanent.no_duplicates()
                &&& permanent.to_set() == before.roots.difference(roots.to_set())
                &&& rooted == #[trigger] before.rooted(roots + permanent)
            };
        if permanent.len() > 0 {
            assert(permanent.contains(permanent[0]));
            assert(permanent.to_set().contains(permanent[0]));
        }
        assert(permanent =~= none);
    }
    if rooted == before.rooted(roots) {
        assert(rooted == before.rooted(roots + none));
    }
}

/// A marking takes at most one scan for each root given and each node. From roots
/// without repeats it takes one for each node that can be reached, which a full
/// collection always has the budget for.
pub proof fn lemma_scans_needed(before: GcView, roots: Seq<usize>)
    requires
        before.wf(),
    ensures
        before.scans_needed(roots) <= roots.len() + before.nodes.len(),
        roots.no_duplicates() ==> before.scans_needed(roots) == graph::reachable_ids(
            before.nodes,
            before.all_roots(roots),
        ).len() && before.scans_needed(roots) <= usize::MAX,
{
    let nodes = before.nodes;
    let all = before.all_roots(roots);
    let pred = graph::member_of(nodes.dom());
    let reach = graph::reachable_ids(nodes, all);
    let beyond = reach.difference(roots.to_set());
    ids::lemma_filter_contains(roots, pred);
    vstd::set_lib::lemma_len_subset(reach, nodes.dom());
    vstd::set_lib::lemma_len_subset(beyond, nodes.dom());
    if roots.no_duplicates() {
        let listed = graph::existing(nodes, roots);
        ids::lemma_filter_distinct(roots, pred);
        listed.unique_seq_to_set();
        assert forall|id: usize| #[trigger] listed.contains(id) implies reach.contains(id) by {
            assert(roots.to_set().contains(id));
            graph::lemma_root_reachable(nodes, all, id);
        }
        assert(reach =~= listed.to_set() + beyond);
        vstd::set_lib::lemma_len_subset(listed.to_set(), reach);
        vstd::set_lib::lemma_set_disjoint_lens(listed.to_set(), beyond);
        lemma_ids_below(nodes.dom(), before.next_id);
    }
}

/// Right after marking from roots without repeats, permanent or not, propagation
/// processes each node that can be reached once: it processes as many nodes as
/// the budget allows or as there are to reach, whichever is less, as many are
/// alive, and marking is complete exactly when the budget suffices. The worklist
/// never holds more entries than there are nodes.
pub proof fn lemma_each_reachable_node_is_processed_once(
    before: GcView,
    roots: Seq<usize>,
    rooted: GcView,
    budget: usize,
)
    requires
        before.wf(),
        roots.no_duplicates(),
        before.marks_to(roots, rooted),
    ensures
        ({
            let reach = graph::reachable_ids(before.nodes, before.all_roots(roots)).len();
            let after = rooted.propagated(budget);
            &&& rooted.marking().scans(budget as nat) == (if budget <= reach {
                budget as nat
            } else {
                reach
            })
            &&& after.last_propagated == rooted.marking().scans(budget as nat)
            &&& graph::alive_ids(after.nodes).len() == after.last_propagated
            &&& after.gray.len() == 0 <==> reach <= budget
            &&& after.gray.no_duplicates()
            &&& after.gray.len() <= before.nodes.len()
        }),
{
    let permanent = choose|permanent: Seq<usize>|
        {
            &&& permanent.no_duplicates()
            &&& permanent.to_set() == before.roots.difference(roots.to_set())
            &&& rooted == #[trigger] before.rooted(roots + permanent)
        };
    let list = roots + permanent;
    assert(rooted.marking() =~= Marking::start(before.nodes, list));
    ids::lemma_contains_concat(roots, permanent);
    assert forall|id: usize| permanent.contains(id) implies #[trigger] permanent.to_set().contains(
        id,
    ) by {}
    assert(list.to_set() =~= before.all_roots(roots));
    assert forall|i: int, j: int| 0 <= i < list.len() && 0 <= j < list.len() && i
        != j implies list[i] != list[j] by {
        if i < roots.len() && j >= roots.len() {
            assert(permanent.to_set().contains(permanent[j - roots.len()]));
            assert(roots.to_set().contains(roots[i]));
        }
        if j < roots.len() && i >= roots.len() {
            assert(permanent.to_set().contains(permanent[i - roots.len()]));
            assert(roots.to_set().contains(roots[j]));
        }
    }
    marking::lemma_distinct_roots_scan_each_node_once(before.nodes, list, budget as nat);
}

/// There are at most `bound` ids below `bound`.
proof fn lemma_ids_below(ids: Set<usize>, bound: usize)
    requires
        ids.finite(),
        forall|id: usize| #[trigger] ids.contains(id) ==> id < bound,
    ensures
        ids.len() <= bound,
{
    let values = ids.map(|id: usize| id as int);
    vstd::set_lib::lemma_int_range(0, bound as int);
    vstd::set_lib::lemma_map_size(ids, values, |id: usize| id as int);
    vstd::set_lib::lemma_len_subset(values, vstd::set_lib::set_int_range(0, bound as int));
}

/// Once a marking has finished, at whatever pace it went, the black nodes are
/// those that can be reached from the roots, finalizing removes exactly the
/// others, and each of these goes on the finalizer's record once.
pub proof fn lemma_finished_marking_reclaims_the_unreachable(
    nodes: Map<usize, NodeView>,
    roots: Set<usize>,
    marked: GcView,
    after: GcView,
)
    requires
        marked.marking().under_way(nodes, roots),
        marked.gray.len() == 0,
        marked.finalizes_to(after),
    ensures
        marked.nodes == colored(nodes, roots),
        keeps_reachable(nodes, roots, after.nodes),
        state::finalizer_ran(marked.finalizer, after.finalizer, colored(nodes, roots)),
{
    marking::lemma_marking_complete(marked.marking(), nodes, roots);
    assert(marked.nodes =~= colored(nodes, roots)) by {
        assert forall|id: usize| #[trigger] nodes.contains_key(id) implies marked.nodes[id]
            == colored(nodes, roots)[id] by {
            assert(marked.marking().nodes[id] == nodes[id].with_liveness(
                marked.marking().nodes[id].liveness,
            ));
        }
    }
    assert(after.nodes.dom() =~= graph::reachable_ids(nodes, roots));
}

/// Where the graph was edited while it was being marked, with the marking kept
/// safe, finalizing still reclaims no node that can be reached from the roots.
pub proof fn lemma_safe_marking_loses_nothing(
    roots: Set<usize>,
    marked: GcView,
    after: GcView,
    id: usize,
)
    requires
        marked.marking().safe(roots),
        marked.gray.len() == 0,
        marked.finalizes_to(after),
        graph::reachable(marked.nodes, roots, id),
    ensures
        graph::alive_in(after.nodes, id),
        after.nodes[id] == marked.nodes[id],
{
    marking::lemma_safe_marking_complete(marked.marking(), roots, id);
}

/// A full collection keeps nothing that cannot be reached from the roots.
pub proof fn lemma_collect_keeps_only_the_reachable(
    before: GcView,
    roots: Seq<usize>,
    after: GcView,
)
    requires
        before.wf(),
        collects_to(before, roots, after),
    ensures
        after.nodes.dom().subset_of(
            graph::reachable_ids(before.nodes, before.all_roots(roots)),
        ),
{
    let all = before.all_roots(roots);
    let rooted = choose|rooted: GcView|
        {
            &&& #[trigger] before.marks_to(roots, rooted)
            &&& rooted.propagated(usize::MAX).finalizes_to(after)
        };
    let marked = rooted.propagated(usize::MAX);
    lemma_marking_starts_from_all_roots(before, roots, rooted, usize::MAX as nat);
    marking::lemma_marking_continues(rooted.marking(), before.nodes, all, usize::MAX as nat);
    assert(marked.marking() =~= rooted.marking().propagated(usize::MAX as nat));
    assert forall|id: usize| #[trigger] after.nodes.contains_key(id) implies graph::reachable_ids(
        before.nodes,
        all,
    ).contains(id) by {
        assert(marked.marking().nodes.contains_key(id));
    }
}

/// A full collection keeps exactly the nodes that can be reached from the roots
/// given and the permanent ones, and records a finalizer call for each of the
/// others. Unreachable cycles go like any other unreachable node.
///
/// It has the budget of `usize::MAX` scans, which only root lists of about that
/// length can use up.
pub proof fn lemma_collect_keeps_exactly_the_reachable(
    before: GcView,
    roots: Seq<usize>,
    after: GcView,
)
    requires
        before.wf(),
        collects_to(before, roots, after),
        before.scans_needed(roots) <= usize::MAX,
    ensures
        keeps_reachable(before.nodes, before.all_roots(roots), after.nodes),
        after.roots == before.roots,
        after.gray.len() == 0,
        state::finalizer_ran(
            before.finalizer,
            after.finalizer,
            colored(before.nodes, before.all_roots(roots)),
        ),
{
    let all = before.all_roots(roots);
    let rooted = choose|rooted: GcView|
        {
            &&& #[trigger] before.marks_to(roots, rooted)
            &&& rooted.propagated(usize::MAX).finalizes_to(after)
        };
    let marked = rooted.propagated(usize::MAX);
    lemma_marking_starts_from_all_roots(before, roots, rooted, usize::MAX as nat);
    marking::lemma_marking_continues(rooted.marking(), before.nodes, all, usize::MAX as nat);
    assert(marked.marking() =~= rooted.marking().propagated(usize::MAX as nat));
    lemma_finished_marking_reclaims_the_unreachable(before.nodes, all, marked, after);
}

/// A permanent root survives every full collection, whether or not the
/// collection names it.
pub proof fn lemma_permanent_roots_survive(
    before: GcView,
    roots: Seq<usize>,
    after: GcView,
    id: usize,
)
    requires
        before.wf(),
        collects_to(before, roots, after),
        before.scans_needed(roots) <= usize::MAX,
        before.roots.contains(id),
        before.nodes.contains_key(id),
    ensures
        graph::alive_in(after.nodes, id),
        after.nodes[id] == before.nodes[id].with_liveness(Liveness::Alive),
        after.roots.contains(id),
{
    lemma_collect_keeps_exactly_the_reachable(before, roots, after);
    graph::lemma_root_reachable(before.nodes, before.all_roots(roots), id);
    assert(after.nodes.contains_key(id));
}

/// An incremental collection (mark the roots, propagate in increments of any
/// size until the worklist has run empty, finalize) keeps exactly the nodes that
/// can be reached from the roots given and the permanent ones.
pub proof fn lemma_incremental_collection_keeps_exactly_the_reachable(
    before: GcView,
    roots: Seq<usize>,
    rooted: GcView,
    budgets: Seq<nat>,
    marked: GcView,
    after: GcView,
)
    requires
        before.wf(),
        before.marks_to(roots, rooted),
        marked.marking() == marking::propagated_in_turn(rooted.marking(), budgets),
        marked.gray.len() == 0,
        marked.finalizes_to(after),
    ensures
        keeps_reachable(before.nodes, before.all_roots(roots), after.nodes),
        state::finalizer_ran(
            marked.finalizer,
            after.finalizer,
            colored(before.nodes, before.all_roots(roots)),
        ),
{
    let all = before.all_roots(roots);
    let total = marking::total_budget(budgets);
    lemma_marking_starts_from_all_roots(before, roots, rooted, total);
    marking::lemma_increments_add_up(rooted.marking(), budgets);
    marking::lemma_marking_continues(rooted.marking(), before.nodes, all, total);
    lemma_finished_marking_reclaims_the_unreachable(before.nodes, all, marked, after);
}

/// An incremental collection leaves the graph that a full collection leaves.
pub proof fn lemma_incremental_collection_equals_full(
    before: GcView,
    roots: Seq<usize>,
    rooted: GcView,
    budgets: Seq<nat>,
    marked: GcView,
    after: GcView,
    full: GcView,
)
    requires
        before.wf(),
        before.scans_needed(roots) <= usize::MAX,
        before.marks_to(roots, rooted),
        marked.marking() == marking::propagated_in_turn(rooted.marking(), budgets),
        marked.gray.len() == 0,
        marked.finalizes_to(after),
        collects_to(before, roots, full),
    ensures
        after.nodes == full.nodes,
{
    lemma_incremental_collection_keeps_exactly_the_reachable(
        before,
        roots,
        rooted,
        budgets,
        marked,
        after,
    );
    lemma_collect_keeps_exactly_the_reachable(before, roots, full);
    assert(after.nodes =~= full.nodes);
}

/// More roots keep more: of two collectors with the same ids and references, the
/// one that collects from more of the existing nodes keeps all that the other
/// keeps. From the same existing nodes, whatever their order and repeats and the
/// ids without a node, both keep the same.
pub proof fn lemma_more_roots_keep_more(
    fewer: GcView,
    fewer_roots: Seq<usize>,
    fewer_after: GcView,
    more: GcView,
    more_roots: Seq<usize>,
    more_after: GcView,
)
    requires
        fewer.wf(),
        more.wf(),
        graph::same_edges(fewer.nodes, more.nodes),
        forall|id: usize| #[trigger]
            fewer.all_roots(fewer_roots).contains(id) && fewer.nodes.contains_key(id)
                ==> more.all_roots(more_roots).contains(id),
        more.scans_needed(more_roots) <= usize::MAX,
        collects_to(fewer, fewer_roots, fewer_after),
        collects_to(more, more_roots, more_after),
    ensures
        fewer_after.nodes.dom().subset_of(more_after.nodes.dom()),
        fewer.scans_needed(fewer_roots) <= usize::MAX && (forall|id: usize| #[trigger]
            more.all_roots(more_roots).contains(id) && more.nodes.contains_key(id)
                ==> fewer.all_roots(fewer_roots).contains(id)) ==> fewer_after.nodes.dom()
            == more_after.nodes.dom(),
{
    let few = fewer.all_roots(fewer_roots);
    let many = more.all_roots(more_roots);
    lemma_collect_keeps_only_the_reachable(fewer, fewer_roots, fewer_after);
    lemma_collect_keeps_exactly_the_reachable(more, more_roots, more_after);
    assert forall|id: usize| #[trigger] fewer_after.nodes.dom().contains(
        id,
    ) implies more_after.nodes.dom().contains(id) by {
        assert(graph::reachable_ids(fewer.nodes, few).contains(id));
        graph::lemma_more_roots_reach_more(fewer.nodes, more.nodes, few, many, id);
        assert(graph::reachable_ids(more.nodes, many).contains(id));
    }
    if fewer.scans_needed(fewer_roots) <= usize::MAX && (forall|id: usize| #[trigger]
        many.contains(id) && more.nodes.contains_key(id) ==> few.contains(id)) {
        lemma_collect_keeps_exactly_the_reachable(fewer, fewer_roots, fewer_after);
        assert forall|id: usize| #[trigger] more_after.nodes.dom().contains(
            id,
        ) implies fewer_after.nodes.dom().contains(id) by {
            assert(graph::reachable_ids(more.nodes, many).contains(id));
            graph::lemma_more_roots_reach_more(more.nodes, fewer.nodes, many, few, id);
            assert(graph::reachable_ids(fewer.nodes, few).contains(id));
        }
        assert(fewer_after.nodes.dom() =~= more_after.nodes.dom());
    }
}

/// Marking the roots forgets every earlier marking: in two collectors with the
/// same ids and references, whatever the colors before, marking from the same
/// existing nodes gives each node the same color and leaves work on both
/// worklists or on neither, and the same holds once it has been propagated to
/// the end.
pub proof fn lemma_marking_forgets_earlier_markings(
    a: GcView,
    a_roots: Seq<usize>,
    a_rooted: GcView,
    b: GcView,
    b_roots: Seq<usize>,
    b_rooted: GcView,
)
    requires
        a.wf(),
        b.wf(),
        graph::same_edges(a.nodes, b.nodes),
        forall|id: usize| #[trigger]
            a.nodes.contains_key(id) ==> (a.all_roots(a_roots).contains(id) <==> b.all_roots(
                b_roots,
            ).contains(id)),
        a.marks_to(a_roots, a_rooted),
        b.marks_to(b_roots, b_rooted),
    ensures
        forall|id: usize| #[trigger]
            a.nodes.contains_key(id) ==> a_rooted.nodes[id].liveness
                == b_rooted.nodes[id].liveness,
        a_rooted.gray.len() == 0 <==> b_rooted.gray.len() == 0,
        a.scans_needed(a_roots) <= usize::MAX && b.scans_needed(b_roots) <= usize::MAX ==> {
            let a_done = a_rooted.propagated(usize::MAX);
            let b_done = b_rooted.propagated(usize::MAX);
            &&& a_done.gray.len() == 0
            &&& b_done.gray.len() == 0
            &&& forall|id: usize| #[trigger]
                a.nodes.contains_key(id) ==> a_done.nodes[id].liveness
                    == b_done.nodes[id].liveness
        },
{
    let max = usize::MAX as nat;
    let a_all = a.all_roots(a_roots);
    let b_all = b.all_roots(b_roots);
    lemma_marking_starts_from_all_roots(a, a_roots, a_rooted, max);
    lemma_marking_starts_from_all_roots(b, b_roots, b_rooted, max);
    assert forall|id: usize| #[trigger] a.nodes.contains_key(id) implies a_rooted.nodes[id].liveness
        == b_rooted.nodes[id].liveness by {
        assert(b.nodes.contains_key(id));
    }
    if a_rooted.gray.len() > 0 {
        lemma_worklist_mirrors(a_rooted, b_rooted);
    }
    if b_rooted.gray.len() > 0 {
        lemma_worklist_mirrors(b_rooted, a_rooted);
    }
    if a.scans_needed(a_roots) <= usize::MAX && b.scans_needed(b_roots) <= usize::MAX {
        let a_done = a_rooted.marking().propagated(max);
        let b_done = b_rooted.marking().propagated(max);
        marking::lemma_marking_continues(a_rooted.marking(), a.nodes, a_all, max);
        marking::lemma_marking_continues(b_rooted.marking(), b.nodes, b_all, max);
        marking::lemma_marking_complete(a_done, a.nodes, a_all);
        marking::lemma_marking_complete(b_done, b.nodes, b_all);
        assert forall|id: usize| #[trigger] a.nodes.contains_key(id) implies a_done.nodes[id].liveness
            == b_done.nodes[id].liveness by {
            assert(b.nodes.contains_key(id));
            if graph::reachable(a.nodes, a_all, id) {
                graph::lemma_more_roots_reach_more(a.nodes, b.nodes, a_all, b_all, id);
            }
            if graph::reachable(b.nodes, b_all, id) {
                graph::lemma_more_roots_reach_more(b.nodes, a.nodes, b_all, a_all, id);
            }
        }
    }
}

/// Where no node is black and the colors agree, a worklist entry in one marking
/// means one in the other.
proof fn lemma_worklist_mirrors(a: GcView, b: GcView)
    requires
        a.marking().worklist_ok(),
        a.nodes.dom() =~= b.nodes.dom(),
        forall|id: usize| #[trigger]
            a.nodes.contains_key(id) ==> a.nodes[id].liveness == b.nodes[id].liveness
                && a.nodes[id].liveness != Liveness::Alive,
        forall|id: usize| #[trigger]
            b.marking().nodes.contains_key(id) ==> b.nodes[id].liveness == Liveness::MaybeAlive
                ==> b.gray.contains(id),
        a.gray.len() > 0,
    ensures
        b.gray.len() > 0,
{
    let id = a.gray[0];
    assert(a.marking().gray.contains(id));
    assert(b.marking().nodes.contains_key(id));
    assert(b.gray.contains(id));
}

/// What can be reached in a graph can be reached in it through nodes that can be
/// reached: leaving the others out makes no difference.
pub proof fn lemma_reachable_among_the_kept(
    nodes: Map<usize, NodeView>,
    roots: Set<usize>,
    kept: Map<usize, NodeView>,
    id: usize,
)
    requires
        keeps_reachable(nodes, roots, kept),
        kept.contains_key(id),
    ensures
        graph::reachable(kept, roots, id),
{
    let closed = graph::reachable_ids(kept, roots);
    assert forall|root: usize| #[trigger]
        roots.contains(root) && nodes.contains_key(root) implies closed.contains(root) by {
        graph::lemma_root_reachable(nodes, roots, root);
        assert(kept.contains_key(root));
        graph::lemma_root_reachable(kept, roots, root);
    }
    assert forall|from: usize, to: usize|
        closed.contains(from) && #[trigger] graph::has_edge(nodes, from, to) && nodes.contains_key(
            to,
        ) implies closed.contains(to) by {
        assert(kept.contains_key(from));
        graph::lemma_edge_reachable(nodes, roots, from, to);
        assert(kept.contains_key(to));
        assert(graph::has_edge(kept, from, to));
        graph::lemma_edge_reachable(kept, roots, from, to);
    }
    graph::lemma_reachable_in_closed_set(nodes, roots, closed, id);
}

/// Collecting again from the same roots reclaims nothing, records no finalizer
/// call, and leaves every node as it was, definitely alive.
pub proof fn lemma_collecting_again_reclaims_nothing(
    before: GcView,
    roots: Seq<usize>,
    after: GcView,
    again: GcView,
)
    requires
        before.wf(),
        before.scans_needed(roots) <= usize::MAX,
        collects_to(before, roots, after),
        after.wf(),
        collects_to(after, roots, again),
    ensures
        again.nodes == after.nodes,
        again.finalizer == after.finalizer,
        forall|id: usize| #[trigger]
            again.nodes.contains_key(id) ==> again.nodes[id].liveness == Liveness::Alive,
{
    let all = before.all_roots(roots);
    lemma_collect_keeps_exactly_the_reachable(before, roots, after);
    assert(after.all_roots(roots) == all);
    assert forall|id: usize| after.nodes.contains_key(id) implies #[trigger] graph::reachable(
        after.nodes,
        all,
        id,
    ) by {
        lemma_reachable_among_the_kept(before.nodes, all, after.nodes, id);
    }
    assert(after.scans_needed(roots) == before.scans_needed(roots)) by {
        let reach = graph::reachable_ids(before.nodes, all);
        assert forall|id: usize| #[trigger] before.nodes.contains_key(id) && all.contains(
            id,
        ) implies after.nodes.contains_key(id) by {
            graph::lemma_root_reachable(before.nodes, all, id);
            assert(reach.contains(id));
        }
        ids::lemma_filter_agrees(
            roots,
            graph::member_of(before.nodes.dom()),
            graph::member_of(after.nodes.dom()),
        );
        assert(graph::reachable_ids(after.nodes, all) =~= reach);
    }
    lemma_collect_keeps_exactly_the_reachable(after, roots, again);
    assert(again.nodes =~= after.nodes) by {
        assert(again.nodes.dom() =~= after.nodes.dom());
        assert forall|id: usize| #[trigger] again.nodes.contains_key(id) implies again.nodes[id]
            == after.nodes[id] by {
            assert(after.nodes.contains_key(id));
        }
    }
    lemma_no_dead_no_calls(after.finalizer, again.finalizer, colored(after.nodes, all));
}

proof fn lemma_no_dead_no_calls(
    before: Option<state::FinalizerView>,
    after: Option<state::FinalizerView>,
    nodes: Map<usize, NodeView>,
)
    requires
        state::finalizer_ran(before, after, nodes),
        forall|id: usize| !#[trigger] graph::dead_in(nodes, id),
    ensures
        after == before,
{
    if let (Some(b), Some(a)) = (before, after) {
        let calls = a.received.skip(b.received.len() as int);
        if calls.len() > 0 {
            assert(graph::dead_in(nodes, calls[0].0));
        }
        assert(a.received =~= b.received);
    }
}

/// Finalizing a second time changes nothing.
pub proof fn lemma_finalizing_again_changes_nothing(before: GcView, after: GcView, again: GcView)
    requires
        before.finalizes_to(after),
        after.finalizes_to(again),
    ensures
        again == after,
{
    assert(graph::swept(after.nodes) =~= after.nodes);
    lemma_no_dead_no_calls(after.finalizer, again.finalizer, after.nodes);
}

/// Finalizing leaves no dead node, and leaves every other node as it was.
pub proof fn lemma_finalizing_removes_exactly_the_dead(before: GcView, after: GcView, id: usize)
    requires
        before.finalizes_to(after),
    ensures
        after.nodes.contains_key(id) <==> before.nodes.contains_key(id) && !graph::dead_in(
            before.nodes,
            id,
        ),
        after.nodes.contains_key(id) ==> after.nodes[id] == before.nodes[id],
        !graph::dead_in(after.nodes, id),
{
}

/// The callback returned from a call for each node that finalizing reclaims.
pub proof fn lemma_reclaimed_nodes_were_finalized(before: GcView, after: GcView, id: usize)
    requires
        before.finalizes_to(after),
        after.wf(),
        before.finalizer is Some,
        graph::dead_in(before.nodes, id),
    ensures
        state::call_was_made(before.finalizer->0, (id, before.nodes[id])),
        exists|node: LatticeNode| #[trigger]
            (before.finalizer->0.returns)(id, node) && {
                &&& node.liveness == before.nodes[id].liveness
                &&& node.edges@ == before.nodes[id].edges
                &&& node.tag is Some == before.nodes[id].tag is Some
                &&& node.tag is Some ==> node.tag->0@ == before.nodes[id].tag->0
                &&& node.gpu_handle == before.nodes[id].gpu_handle
            },
{
    let b = before.finalizer->0;
    let a = after.finalizer->0;
    let calls = a.received.skip(b.received.len() as int);
    let i = choose|i: int| 0 <= i < calls.len() && (#[trigger] calls[i]).0 == id;
    assert(calls[i] == a.received[b.received.len() + i]);
    assert(state::call_was_made(a, calls[i]));
    let node = choose|node: LatticeNode| #[trigger]
        a.returned(id, node) && node@ == calls[i].1;
    assert(b.returned(id, node));
    assert((before.finalizer->0.returns)(id, node));
}

/// No phase of a collection hands out ids: the id of a reclaimed node is not
/// used again.
pub proof fn lemma_collection_hands_out_no_ids(
    before: GcView,
    roots: Seq<usize>,
    budget: usize,
    after: GcView,
)
    requires
        before.finalizes_to(after),
    ensures
        before.rooted(roots).next_id == before.next_id,
        before.propagated(budget).next_id == before.next_id,
        after.next_id == before.next_id,
{
}

// ---------------------------------------------------------------------------
// What becomes of each node
// ---------------------------------------------------------------------------
/// Marking the roots turns the roots that exist gray, those given and the
/// permanent ones, and all else white. The references, the tag and the handle of
/// every node stay what they were, and so does all of the collector but the
/// worklist.
pub proof fn lemma_marking_roots_changes_liveness_alone(
    before: GcView,
    roots: Seq<usize>,
    rooted: GcView,
    id: usize,
)
    requires
        before.marks_to(roots, rooted),
    ensures
        rooted.nodes.contains_key(id) <==> before.nodes.contains_key(id),
        before.nodes.contains_key(id) ==> {
            &&& rooted.nodes[id].liveness == (if roots.contains(id) || before.roots.contains(id) {
                Liveness::MaybeAlive
            } else {
                Liveness::Dead
            })
            &&& rooted.nodes[id].edges == before.nodes[id].edges
            &&& rooted.nodes[id].tag == before.nodes[id].tag
            &&& rooted.nodes[id].gpu_handle == before.nodes[id].gpu_handle
        },
        rooted.next_id == before.next_id,
        rooted.roots == before.roots,
        rooted.finalizer == before.finalizer,
        rooted.last_propagated == before.last_propagated,
{
    let permanent = choose|permanent: Seq<usize>|
        {
            &&& permanent.no_duplicates()
            &&& permanent.to_set() == before.roots.difference(roots.to_set())
            &&& rooted == #[trigger] before.rooted(roots + permanent)
        };
    ids::lemma_contains_concat(roots, permanent);
    marking::lemma_start_colors(before.nodes, roots + permanent, id);
    assert(permanent.to_set().contains(id) == permanent.contains(id));
    assert(roots.to_set().contains(id) == roots.contains(id));
    assert((roots + permanent).contains(id) <==> roots.contains(id) || permanent.contains(id));
}

/// The worklist of a new marking: the roots given that exist, in their order and
/// as often as given, and after them the other permanent roots that exist, each
/// once.
pub proof fn lemma_worklist_lists_the_roots(before: GcView, roots: Seq<usize>, rooted: GcView)
    requires
        before.marks_to(roots, rooted),
    ensures
        ({
            let given = roots.filter(|root: usize| before.nodes.contains_key(root));
            let others = rooted.gray.skip(given.len() as int);
            &&& given.is_prefix_of(rooted.gray)
            &&& others.no_duplicates()
            &&& forall|id: usize| #[trigger]
                others.contains(id) <==> {
                    &&& before.roots.contains(id)
                    &&& before.nodes.contains_key(id)
                    &&& !roots.contains(id)
                }
        }),
{
    let permanent = choose|permanent: Seq<usize>|
        {
            &&& permanent.no_duplicates()
            &&& permanent.to_set() == before.roots.difference(roots.to_set())
            &&& rooted == #[trigger] before.rooted(roots + permanent)
        };
    let present = |root: usize| before.nodes.contains_key(root);
    let given = roots.filter(present);
    let others = rooted.gray.skip(given.len() as int);
    marking::lemma_start_colors(before.nodes, roots + permanent, 0);
    Seq::filter_distributes_over_add(roots, permanent, present);
    ids::lemma_filter_distinct(permanent, present);
    ids::lemma_filter_contains(permanent, present);
    assert(rooted.gray == given + permanent.filter(present));
    assert(others =~= permanent.filter(present));
    assert forall|id: usize| #[trigger] others.contains(id) <==> {
        &&& before.roots.contains(id)
        &&& before.nodes.contains_key(id)
        &&& !roots.contains(id)
    } by {
        assert(permanent.to_set().contains(id) == permanent.contains(id));
        assert(roots.to_set().contains(id) == roots.contains(id));
    }
}

/// Propagating leaves the references, the tag and the handle of every node as
/// they were, and never lowers a liveness. Besides the nodes and the worklist
/// only the count of processed nodes changes.
pub proof fn lemma_propagating_changes_liveness_alone(before: GcView, budget: usize, id: usize)
    ensures
        ({
            let after = before.propagated(budget);
            let marked = (Marking { nodes: before.nodes, gray: before.gray }).propagated(
                budget as nat,
            );
            &&& after.nodes == marked.nodes
            &&& after.gray == marked.gray
            &&& after.nodes.contains_key(id) <==> before.nodes.contains_key(id)
            &&& before.nodes.contains_key(id) ==> {
                &&& after.nodes[id].edges == before.nodes[id].edges
                &&& after.nodes[id].tag == before.nodes[id].tag
                &&& after.nodes[id].gpu_handle == before.nodes[id].gpu_handle
                &&& before.nodes[id].liveness == Liveness::Alive ==> after.nodes[id].liveness
                    == Liveness::Alive
                &&& before.nodes[id].liveness == Liveness::MaybeAlive ==> after.nodes[id].liveness
                    != Liveness::Dead
            }
            &&& after.next_id == before.next_id
            &&& after.roots == before.roots
            &&& after.finalizer == before.finalizer
            &&& after.last_propagated == (Marking {
                nodes: before.nodes,
                gray: before.gray,
            }).scans(budget as nat)
        }),
{
    marking::lemma_propagation_changes_liveness_alone(before.marking(), budget as nat, id);
    marking::lemma_scans_within_budget(before.marking(), budget as nat);
}

/// What is kept is what can be reached; it is alive, and its references, tag
/// and handle are what they were.
pub proof fn lemma_kept_nodes_keep_their_content(
    nodes: Map<usize, NodeView>,
    roots: Set<usize>,
    kept: Map<usize, NodeView>,
    id: usize,
)
    requires
        keeps_reachable(nodes, roots, kept),
    ensures
        kept.contains_key(id) <==> graph::reachable(nodes, roots, id),
        kept.contains_key(id) ==> {
            &&& nodes.contains_key(id)
            &&& kept[id].liveness == Liveness::Alive
            &&& kept[id].edges == nodes[id].edges
            &&& kept[id].tag == nodes[id].tag
            &&& kept[id].gpu_handle == nodes[id].gpu_handle
        },
{
    graph::lemma_reachable_along_references(nodes, roots, id, id);
}

/// A finished marking leaves what can be reached alive and the rest dead, and
/// changes nothing else in the nodes.
pub proof fn lemma_colors_tell_the_reachable(
    nodes: Map<usize, NodeView>,
    roots: Set<usize>,
    id: usize,
)
    ensures
        colored(nodes, roots).contains_key(id) <==> nodes.contains_key(id),
        nodes.contains_key(id) ==> {
            let node = colored(nodes, roots)[id];
            &&& graph::reachable(nodes, roots, id) ==> node.liveness == Liveness::Alive
            &&& !graph::reachable(nodes, roots, id) ==> node.liveness == Liveness::Dead
            &&& node.edges == nodes[id].edges
            &&& node.tag == nodes[id].tag
            &&& node.gpu_handle == nodes[id].gpu_handle
        },
{
}

/// Finalizing records as many calls as there are dead nodes: one for each, with
/// the node as it was, liveness, references, tag and handle. No other call is
/// recorded, and the earlier record stays.
pub proof fn lemma_one_call_for_each_dead_node(
    before: Option<state::FinalizerView>,
    after: Option<state::FinalizerView>,
    nodes: Map<usize, NodeView>,
)
    requires
        state::finalizer_ran(before, after, nodes),
        nodes.dom().finite(),
    ensures
        before is Some <==> after is Some,
        before is Some ==> {
            let b = before->0;
            let a = after->0;
            &&& a.callable == b.callable
            &&& a.returns == b.returns
            &&& b.received.is_prefix_of(a.received)
            &&& a.received.len() == b.received.len() + nodes.dom().filter(
                |id: usize| nodes[id].liveness == Liveness::Dead,
            ).len()
            &&& forall|k: int|
                b.received.len() <= k < a.received.len() ==> {
                    let call = #[trigger] a.received[k];
                    &&& nodes.contains_key(call.0)
                    &&& nodes[call.0].liveness == Liveness::Dead
                    &&& call.1.liveness == Liveness::Dead
                    &&& call.1.edges == nodes[call.0].edges
                    &&& call.1.tag == nodes[call.0].tag
                    &&& call.1.gpu_handle == nodes[call.0].gpu_handle
                }
            &&& forall|k: int, l: int|
                b.received.len() <= k < l < a.received.len() ==> (#[trigger] a.received[k]).0 != (
                #[trigger] a.received[l]).0
            &&& forall|id: usize| #[trigger]
                nodes.contains_key(id) && nodes[id].liveness == Liveness::Dead ==> exists|k: int|
                    b.received.len() <= k < a.received.len() && (#[trigger] a.received[k]).0 == id
        },
{
    if let (Some(b), Some(a)) = (before, after) {
        let n = b.received.len() as int;
        let calls = a.received.skip(n);
        let called = Seq::new(calls.len(), |k: int| calls[k].0);
        let dead = nodes.dom().filter(|id: usize| nodes[id].liveness == Liveness::Dead);
        assert forall|k: int| n <= k < a.received.len() implies #[trigger] a.received[k]
            == calls[k - n] by {}
        assert forall|id: usize| #[trigger]
            nodes.contains_key(id) && nodes[id].liveness == Liveness::Dead implies exists|k: int|
            n <= k < a.received.len() && (#[trigger] a.received[k]).0 == id by {
            assert(graph::dead_in(nodes, id));
            let k = choose|k: int| 0 <= k < calls.len() && (#[trigger] calls[k]).0 == id;
            assert(a.received[n + k].0 == id);
        }
        called.unique_seq_to_set();
        assert(called.to_set() =~= dead) by {
            assert forall|id: usize| #[trigger] dead.contains(id) implies called.contains(id) by {
                assert(graph::dead_in(nodes, id));
                let k = choose|k: int| 0 <= k < calls.len() && (#[trigger] calls[k]).0 == id;
                assert(called[k] == id);
            }
            assert forall|id: usize| #[trigger] called.contains(id) implies dead.contains(id) by {
                assert(graph::dead_in(nodes, calls[called.index_of(id)].0));
            }
        }
    }
}

/// Finalizing removes the dead nodes, leaves every other node as it was, and
/// touches nothing but the nodes and the finalizer's record.
pub proof fn lemma_finalizing_keeps_the_rest(before: GcView, after: GcView, id: usize)
    requires
        before.finalizes_to(after),
    ensures
        after.nodes.contains_key(id) <==> before.nodes.contains_key(id)
            && before.nodes[id].liveness != Liveness::Dead,
        after.nodes.contains_key(id) ==> {
            &&& after.nodes[id].liveness == before.nodes[id].liveness
            &&& after.nodes[id].edges == before.nodes[id].edges
            &&& after.nodes[id].tag == before.nodes[id].tag
            &&& after.nodes[id].gpu_handle == before.nodes[id].gpu_handle
        },
        state::finalizer_ran(before.finalizer, after.finalizer, before.nodes),
        after.next_id == before.next_id,
        after.roots == before.roots,
        after.gray == before.gray,
        after.last_propagated == before.last_propagated,
{
}

/// A full collection hands every node that it reclaims to the finalizer once, as
/// it was but for its liveness: the calls recorded are as many as the nodes gone,
/// no two are for the same node, and each carries the references, the tag and
/// the handle that the node had.
pub proof fn lemma_collect_finalizes_what_it_reclaims(
    before: GcView,
    roots: Seq<usize>,
    after: GcView,
)
    requires
        before.wf(),
        collects_to(before, roots, after),
    ensures
        before.finalizer is Some <==> after.finalizer is Some,
        before.finalizer is Some ==> {
            let b = before.finalizer->0;
            let a = after.finalizer->0;
            &&& a.callable == b.callable
            &&& a.returns == b.returns
            &&& b.received.is_prefix_of(a.received)
            &&& a.received.len() + after.nodes.len() == b.received.len() + before.nodes.len()
            &&& forall|k: int|
                b.received.len() <= k < a.received.len() ==> {
                    let call = #[trigger] a.received[k];
                    &&& before.nodes.contains_key(call.0)
                    &&& !after.nodes.contains_key(call.0)
                    &&& call.1.liveness == Liveness::Dead
                    &&& call.1.edges == before.nodes[call.0].edges
                    &&& call.1.tag == before.nodes[call.0].tag
                    &&& call.1.gpu_handle == before.nodes[call.0].gpu_handle
                }
            &&& forall|k: int, l: int|
                b.received.len() <= k < l < a.received.len() ==> (#[trigger] a.received[k]).0 != (
                #[trigger] a.received[l]).0
            &&& forall|id: usize| #[trigger]
                before.nodes.contains_key(id) && !after.nodes.contains_key(id) ==> exists|k: int|
                    b.received.len() <= k < a.received.len() && (#[trigger] a.received[k]).0 == id
        },
{
    let rooted = choose|rooted: GcView|
        {
            &&& #[trigger] before.marks_to(roots, rooted)
            &&& rooted.propagated(usize::MAX).finalizes_to(after)
        };
    let marked = rooted.propagated(usize::MAX);
    assert forall|id: usize|
        {
            &&& #[trigger] marked.nodes.contains_key(id) <==> before.nodes.contains_key(id)
            &&& marked.nodes.contains_key(id) ==> {
                &&& marked.nodes[id].edges == before.nodes[id].edges
                &&& marked.nodes[id].tag == before.nodes[id].tag
                &&& marked.nodes[id].gpu_handle == before.nodes[id].gpu_handle
            }
            &&& after.nodes.contains_key(id) <==> marked.nodes.contains_key(id)
                && marked.nodes[id].liveness != Liveness::Dead
        } by {
        lemma_marking_roots_changes_liveness_alone(before, roots, rooted, id);
        lemma_propagating_changes_liveness_alone(rooted, usize::MAX, id);
        lemma_finalizing_keeps_the_rest(marked, after, id);
    }
    lemma_marking_roots_changes_liveness_alone(before, roots, rooted, 0);
    lemma_propagating_changes_liveness_alone(rooted, usize::MAX, 0);
    assert(marked.nodes.dom() =~= before.nodes.dom());
    lemma_one_call_for_each_dead_node(marked.finalizer, after.finalizer, marked.nodes);
    let dead = marked.nodes.dom().filter(
        |id: usize| marked.nodes[id].liveness == Liveness::Dead,
    );
    assert(before.nodes.dom() =~= dead + after.nodes.dom());
    assert(dead.disjoint(after.nodes.dom()));
    vstd::set_lib::lemma_len_subset(after.nodes.dom(), before.nodes.dom());
    vstd::set_lib::lemma_set_disjoint_lens(dead, after.nodes.dom());
    if before.finalizer is Some {
        let b = before.finalizer->0;
        let a = after.finalizer->0;
        assert forall|id: usize| #[trigger]
            before.nodes.contains_key(id) && !after.nodes.contains_key(id) implies exists|k: int|
            b.received.len() <= k < a.received.len() && (#[trigger] a.received[k]).0 == id by {
            assert(marked.nodes.contains_key(id) && marked.nodes[id].liveness == Liveness::Dead);
        }
        assert forall|k: int| b.received.len() <= k < a.received.len() implies {
            let call = #[trigger] a.received[k];
            &&& before.nodes.contains_key(call.0)
            &&& !after.nodes.contains_key(call.0)
            &&& call.1.edges == before.nodes[call.0].edges
            &&& call.1.tag == before.nodes[call.0].tag
            &&& call.1.gpu_handle == before.nodes[call.0].gpu_handle
        } by {
            assert(marked.nodes.contains_key(a.received[k].0));
        }
    }
}

/// A full collection keeps every root that exists, given or permanent, and all
/// that a kept node refers to. What it keeps is alive, and otherwise as it was:
/// the same references, the same tag, the same handle.
pub proof fn lemma_collect_keeps_what_is_referred_to(
    before: GcView,
    roots: Seq<usize>,
    after: GcView,
    id: usize,
    to: usize,
)
    requires
        before.wf(),
        collects_to(before, roots, after),
        roots.no_duplicates() || roots.len() + before.nodes.len() <= usize::MAX,
    ensures
        before.nodes.contains_key(id) && (roots.contains(id) || before.roots.contains(id))
            ==> after.nodes.contains_key(id),
        after.nodes.contains_key(id) && before.nodes[id].edges.contains(to)
            && before.nodes.contains_key(to) ==> after.nodes.contains_key(to),
        after.nodes.contains_key(id) ==> {
            &&& before.nodes.contains_key(id)
            &&& after.nodes[id].liveness == Liveness::Alive
            &&& after.nodes[id].edges == before.nodes[id].edges
            &&& after.nodes[id].tag == before.nodes[id].tag
            &&& after.nodes[id].gpu_handle == before.nodes[id].gpu_handle
        },
        after.next_id == before.next_id,
        after.roots == before.roots,
        after.gray.len() == 0,
{
    let all = before.all_roots(roots);
    let rooted = choose|rooted: GcView|
        {
            &&& #[trigger] before.marks_to(roots, rooted)
            &&& rooted.propagated(usize::MAX).finalizes_to(after)
        };
    lemma_scans_needed(before, roots);
    lemma_collect_keeps_exactly_the_reachable(before, roots, after);
    lemma_kept_nodes_keep_their_content(before.nodes, all, after.nodes, id);
    lemma_kept_nodes_keep_their_content(before.nodes, all, after.nodes, to);
    graph::lemma_reachable_along_references(before.nodes, all, id, to);
    lemma_marking_roots_changes_liveness_alone(before, roots, rooted, id);
    assert(roots.to_set().contains(id) == roots.contains(id));
}

/// A full collection keeps nothing else: a set that holds the roots that exist,
/// and with a node every existing node that it refers to, holds all that is
/// kept.
pub proof fn lemma_collect_keeps_nothing_else(
    before: GcView,
    roots: Seq<usize>,
    after: GcView,
    closed: Set<usize>,
    id: usize,
)
    requires
        before.wf(),
        collects_to(before, roots, after),
        forall|root: usize|
            (roots.contains(root) || before.roots.contains(root)) && before.nodes.contains_key(root)
                ==> #[trigger] closed.contains(root),
        forall|from: usize, to: usize|
            closed.contains(from) && before.nodes.contains_key(from)
                && before.nodes[from].edges.contains(to) && before.nodes.contains_key(to)
                ==> #[trigger] closed.contains(from) && #[trigger] closed.contains(to),
        after.nodes.contains_key(id),
    ensures
        closed.contains(id),
{
    let all = before.all_roots(roots);
    lemma_collect_keeps_only_the_reachable(before, roots, after);
    assert(graph::reachable_ids(before.nodes, all).contains(id));
    assert forall|root: usize|
        all.contains(root) && before.nodes.contains_key(root) implies #[trigger] closed.contains(
        root,
    ) by {
        assert(roots.to_set().contains(root) == roots.contains(root));
    }
    graph::lemma_reachable_is_least(before.nodes, all, closed, id);
}

} // verus!
