//! Laws of cycle detection: the reported cycles and the order in which the
//! depth-first search is over with the nodes.
use crate::cycles;
use crate::cycles::none_in;
use crate::graph;
use crate::ids;
use crate::node::NodeView;
use vstd::prelude::*;

verus! {

/// The ids in the order in which the search from the ids of `order` is over with
/// them.
pub open spec fn finish_order(nodes: Map<usize, NodeView>, order: Seq<usize>) -> Seq<usize> {
    cycles::explore_all(nodes, order, Seq::empty()).finished
}

/// The ids are all in `done`, each before those that precede it in the list.
spec fn falls(done: Seq<usize>, ids: Seq<usize>) -> bool {
    &&& forall|i: int| 0 <= i < ids.len() ==> done.contains(#[trigger] ids[i])
    &&& forall|i: int, j: int|
        0 <= i < j < ids.len() ==> done.index_of(#[trigger] ids[i]) > done.index_of(
            #[trigger] ids[j],
        )
}

/// The cycle is what `base`, followed by `below`, holds from number `k` on, and
/// the search is over with the ids of `below`, last one first.
spec fn hangs_by(
    base: Seq<usize>,
    done: Seq<usize>,
    cycle: Seq<usize>,
    below: Seq<usize>,
    k: int,
) -> bool {
    &&& 0 <= k <= base.len() + below.len()
    &&& cycle == (base + below).skip(k)
    &&& falls(done, below)
}

spec fn hangs(base: Seq<usize>, done: Seq<usize>, cycle: Seq<usize>) -> bool {
    exists|below: Seq<usize>, k: int| #[trigger] hangs_by(base, done, cycle, below, k)
}

spec fn all_hang(base: Seq<usize>, done: Seq<usize>, cycles: Seq<Seq<usize>>) -> bool {
    forall|k: int| 0 <= k < cycles.len() ==> hangs(base, done, #[trigger] cycles[k])
}

proof fn lemma_falls_more(done: Seq<usize>, more: Seq<usize>, ids: Seq<usize>)
    requires
        falls(done, ids),
        done.is_prefix_of(more),
        more.no_duplicates(),
    ensures
        falls(more, ids),
        forall|i: int| 0 <= i < ids.len() ==> more.index_of(#[trigger] ids[i]) < done.len(),
{
    assert forall|i: int| 0 <= i < ids.len() implies more.contains(#[trigger] ids[i])
        && more.index_of(ids[i]) == done.index_of(ids[i]) by {
        assert(done.contains(ids[i]));
        let p = done.index_of(ids[i]);
        assert(more[p] == ids[i]);
        assert(more.contains(ids[i]));
    }
}

proof fn lemma_explore_falls(
    nodes: Map<usize, NodeView>,
    path: Seq<usize>,
    finished: Seq<usize>,
    next: nat,
)
    requires
        path.len() > 0,
        path.no_duplicates(),
        finished.no_duplicates(),
        none_in(path, finished),
    ensures
        ({
            let found = cycles::explore(nodes, path, finished, next);
            &&& found.finished.no_duplicates()
            &&& finished.is_prefix_of(found.finished)
            &&& found.finished.len() > finished.len()
            &&& found.finished.last() == path.last()
            &&& none_in(path.drop_last(), found.finished)
            &&& all_hang(path.drop_last(), found.finished, found.cycles)
        }),
    decreases usize::MAX + 1 - path.len(), graph::successors(nodes, path.last()).len() - next,
{
    let node = path.last();
    let base = path.drop_last();
    let children = graph::successors(nodes, node);
    let found = cycles::explore(nodes, path, finished, next);
    ids::lemma_contains_drop_last(path);
    assert(path.contains(node));
    if next >= children.len() {
        ids::lemma_contains_push(finished, node);
        assert(!finished.contains(node));
        assert(!base.contains(node));
    } else {
        let child = children[next as int];
        if finished.contains(child) {
            lemma_explore_falls(nodes, path, finished, next + 1);
        } else if path.contains(child) {
            lemma_explore_falls(nodes, path, finished, next + 1);
            let report = cycles::back_edge_report(path, child);
            let rest = cycles::explore(nodes, path, finished, next + 1);
            assert forall|k: int| 0 <= k < found.cycles.len() implies hangs(
                base,
                found.finished,
                #[trigger] found.cycles[k],
            ) by {
                if k < report.len() {
                    let at = path.index_of(child);
                    let below = seq![node];
                    assert(base + below =~= path);
                    assert(found.finished.contains(found.finished.last()));
                    assert(falls(found.finished, below));
                    assert(found.cycles[k] == path.skip(at));
                    assert(hangs_by(base, found.finished, found.cycles[k], below, at));
                } else {
                    assert(found.cycles[k] == rest.cycles[k - report.len()]);
                }
            }
        } else {
            let deeper = path.push(child);
            assert(deeper.drop_last() =~= path);
            ids::lemma_contains_push(path, child);
            ids::lemma_distinct_ids_fit(deeper);
            lemma_explore_falls(nodes, deeper, finished, 0);
            let low = cycles::explore(nodes, deeper, finished, 0);
            lemma_explore_falls(nodes, path, low.finished, next + 1);
            let rest = cycles::explore(nodes, path, low.finished, next + 1);
            let done = found.finished;
            assert forall|k: int| 0 <= k < found.cycles.len() implies hangs(
                base,
                done,
                #[trigger] found.cycles[k],
            ) by {
                if k < low.cycles.len() {
                    let cycle = low.cycles[k];
                    assert(found.cycles[k] == cycle);
                    assert(hangs(path, low.finished, cycle));
                    let (below, at) = choose|below: Seq<usize>, at: int| #[trigger]
                        hangs_by(path, low.finished, cycle, below, at);
                    let longer = seq![node] + below;
                    lemma_falls_more(low.finished, done, below);
                    assert(base + longer =~= path + below);
                    assert(done.contains(done.last()));
                    assert(done.index_of(node) == done.len() - 1);
                    assert forall|i: int| 0 <= i < longer.len() implies done.contains(
                        #[trigger] longer[i],
                    ) by {
                        if i > 0 {
                            assert(longer[i] == below[i - 1]);
                        }
                    }
                    assert forall|i: int, j: int| 0 <= i < j < longer.len() implies done.index_of(
                        #[trigger] longer[i],
                    ) > done.index_of(#[trigger] longer[j]) by {
                        assert(longer[j] == below[j - 1]);
                        if i > 0 {
                            assert(longer[i] == below[i - 1]);
                        }
                    }
                    assert(hangs_by(base, done, cycle, longer, at));
                } else {
                    assert(found.cycles[k] == rest.cycles[k - low.cycles.len()]);
                }
            }
        }
    }
}

spec fn all_fall(done: Seq<usize>, cycles: Seq<Seq<usize>>) -> bool {
    forall|k: int| 0 <= k < cycles.len() ==> falls(done, #[trigger] cycles[k])
}

proof fn lemma_explore_all_falls(
    nodes: Map<usize, NodeView>,
    starts: Seq<usize>,
    finished: Seq<usize>,
)
    requires
        finished.no_duplicates(),
    ensures
        ({
            let found = cycles::explore_all(nodes, starts, finished);
            &&& found.finished.no_duplicates()
            &&& finished.is_prefix_of(found.finished)
            &&& all_fall(found.finished, found.cycles)
        }),
    decreases starts.len(),
{
    if starts.len() > 0 {
        let others = starts.drop_first();
        if finished.contains(starts[0]) {
            lemma_explore_all_falls(nodes, others, finished);
        } else {
            let path = seq![starts[0]];
            let found = cycles::explore_all(nodes, starts, finished);
            let first = cycles::explore(nodes, path, finished, 0);
            let rest = cycles::explore_all(nodes, others, first.finished);
            lemma_explore_falls(nodes, path, finished, 0);
            lemma_explore_all_falls(nodes, others, first.finished);
            assert forall|k: int| 0 <= k < found.cycles.len() implies falls(
                found.finished,
                #[trigger] found.cycles[k],
            ) by {
                if k < first.cycles.len() {
                    let cycle = first.cycles[k];
                    let base = path.drop_last();
                    assert(found.cycles[k] == cycle);
                    assert(hangs(base, first.finished, cycle));
                    let (below, at) = choose|below: Seq<usize>, at: int| #[trigger]
                        hangs_by(base, first.finished, cycle, below, at);
                    assert(base + below =~= below);
                    assert(cycle == below.skip(at));
                    assert forall|i: int| 0 <= i < cycle.len() implies #[trigger] cycle[i]
                        == below[at + i] by {}
                    assert(falls(first.finished, cycle));
                    lemma_falls_more(first.finished, found.finished, cycle);
                } else {
                    assert(found.cycles[k] == rest.cycles[k - first.cycles.len()]);
                }
            }
        }
    }
}

// ---------------------------------------------------------------------------
// Laws
// ---------------------------------------------------------------------------
/// The search is over with each node once, and with every node it starts from.
/// A reported cycle runs against the order in which the search is over with the
/// nodes: it starts with the node that comes last in it, and every other node
/// of the cycle comes before the one that it follows on the cycle.
pub proof fn lemma_reports_follow_the_search(nodes: Map<usize, NodeView>, order: Seq<usize>)
    ensures
        finish_order(nodes, order).no_duplicates(),
        forall|id: usize| #[trigger]
            order.contains(id) ==> finish_order(nodes, order).contains(id),
        forall|k: int, i: int|
            0 <= k < cycles::cycles_found(nodes, order).len() && 0 <= i
                < cycles::cycles_found(nodes, order)[k].len() ==> finish_order(
                nodes,
                order,
            ).contains(#[trigger] cycles::cycles_found(nodes, order)[k][i]),
        forall|k: int, i: int, j: int|
            0 <= k < cycles::cycles_found(nodes, order).len() && 0 <= i < j
                < cycles::cycles_found(nodes, order)[k].len() ==> finish_order(
                nodes,
                order,
            ).index_of(#[trigger] cycles::cycles_found(nodes, order)[k][i]) > finish_order(
                nodes,
                order,
            ).index_of(#[trigger] cycles::cycles_found(nodes, order)[k][j]),
{
    let none = Seq::<usize>::empty();
    let done = finish_order(nodes, order);
    let found = cycles::cycles_found(nodes, order);
    lemma_explore_all_falls(nodes, order, none);
    cycles::lemma_explore_all_settles(nodes, order, none, Seq::empty());
    assert forall|k: int, i: int| 0 <= k < found.len() && 0 <= i < found[k].len() implies done.contains(
        #[trigger] found[k][i],
    ) by {
        assert(falls(done, found[k]));
    }
    assert forall|k: int, i: int, j: int|
        0 <= k < found.len() && 0 <= i < j < found[k].len() implies done.index_of(
        #[trigger] found[k][i],
    ) > done.index_of(#[trigger] found[k][j]) by {
        assert(falls(done, found[k]));
    }
}

/// The reported cycles are the back references of the search: a reference
/// between two different nodes is the one that closes a reported cycle, from its
/// last node to its first, exactly if the search is over with the node that
/// holds the reference before the node that it leads to.
pub proof fn lemma_reports_are_the_back_references(
    nodes: Map<usize, NodeView>,
    order: Seq<usize>,
    from: usize,
    to: usize,
)
    requires
        nodes.contains_key(from),
        nodes[from].edges.contains(to),
        from != to,
        finish_order(nodes, order).contains(from),
    ensures
        finish_order(nodes, order).contains(to),
        (exists|k: int|
            0 <= k < cycles::cycles_found(nodes, order).len() && (
            #[trigger] cycles::cycles_found(nodes, order)[k]).last() == from
                && cycles::cycles_found(nodes, order)[k][0] == to) <==> finish_order(
            nodes,
            order,
        ).index_of(from) < finish_order(nodes, order).index_of(to),
{
    let none = Seq::<usize>::empty();
    let done = finish_order(nodes, order);
    let found = cycles::cycles_found(nodes, order);
    lemma_reports_follow_the_search(nodes, order);
    cycles::lemma_reported_cycles_are_cycles(nodes, order);
    cycles::lemma_explore_all_settles(nodes, order, none, Seq::empty());
    assert(Seq::<Seq<usize>>::empty() + found =~= found);
    let at = done.index_of(from);
    assert(graph::has_edge(nodes, done[at], to));
    assert(cycles::accounted(done.take(at), found, from, to));
    if done.take(at).contains(to) {
        let p = done.take(at).index_of(to);
        assert(done[p] == to);
        assert(done.contains(to));
        assert(done.index_of(to) == p);
        if exists|k: int|
            0 <= k < found.len() && (#[trigger] found[k]).last() == from && found[k][0] == to {
            let k = choose|k: int|
                0 <= k < found.len() && (#[trigger] found[k]).last() == from && found[k][0] == to;
            assert(cycles::is_cycle(nodes, found[k]));
            assert(done.index_of(found[k][0]) > done.index_of(found[k][found[k].len() - 1]));
        }
    } else {
        let k = choose|k: int|
            0 <= k < found.len() && (#[trigger] found[k]).last() == from && found[k][0] == to;
        assert(cycles::is_cycle(nodes, found[k]));
        assert(done.index_of(found[k][0]) > done.index_of(found[k][found[k].len() - 1]));
        assert(done.contains(found[k][0]));
    }
}

/// No cycle is reported twice: no reported cycle is another one, or itself,
/// started from a different node. In a graph whose nodes hold no reference twice
/// no two reports are equal either, and no two end in the same reference.
pub proof fn lemma_no_cycle_is_reported_twice(nodes: Map<usize, NodeView>, order: Seq<usize>)
    ensures
        forall|k: int, l: int, r: int|
            #![trigger cycles::cycles_found(nodes, order)[k].skip(r), cycles::cycles_found(
                nodes,
                order,
            )[l]]
            0 <= k < cycles::cycles_found(nodes, order).len() && 0 <= l < cycles::cycles_found(
                nodes,
                order,
            ).len() && 0 < r < cycles::cycles_found(nodes, order)[k].len()
                ==> cycles::cycles_found(nodes, order)[l] != cycles::cycles_found(
                nodes,
                order,
            )[k].skip(r) + cycles::cycles_found(nodes, order)[k].take(r),
        (forall|id: usize| #[trigger]
            nodes.contains_key(id) ==> nodes[id].edges.no_duplicates()) ==> forall|k: int, l: int|
            0 <= k < l < cycles::cycles_found(nodes, order).len() ==> {
                let a = #[trigger] cycles::cycles_found(nodes, order)[k];
                let b = #[trigger] cycles::cycles_found(nodes, order)[l];
                a != b && (a.last() != b.last() || a[0] != b[0])
            },
{
    let done = finish_order(nodes, order);
    let found = cycles::cycles_found(nodes, order);
    lemma_reports_follow_the_search(nodes, order);
    assert forall|k: int, l: int, r: int|
        #![trigger found[k].skip(r), found[l]]
        0 <= k < found.len() && 0 <= l < found.len() && 0 < r < found[k].len() implies found[l]
        != found[k].skip(r) + found[k].take(r) by {
        let a = found[k];
        let b = found[l];
        if b == a.skip(r) + a.take(r) {
            assert(b[0] == a[r]);
            assert(b[a.len() - r] == a[0]);
            assert(done.index_of(found[k][0]) > done.index_of(found[k][r]));
            assert(done.index_of(found[l][0]) > done.index_of(found[l][a.len() - r]));
        }
    }
    if forall|id: usize| #[trigger] nodes.contains_key(id) ==> nodes[id].edges.no_duplicates() {
        cycles::lemma_no_reference_is_reported_twice(nodes, order);
    }
}

/// In a graph whose nodes hold no reference twice there are as many reports as
/// references, between different nodes, of a node that the search is over with
/// before it is over with the node that the reference leads to.
pub proof fn lemma_as_many_reports_as_back_references(
    nodes: Map<usize, NodeView>,
    order: Seq<usize>,
    back: Set<(usize, usize)>,
)
    requires
        forall|id: usize| #[trigger]
            nodes.contains_key(id) ==> nodes[id].edges.no_duplicates() && order.contains(id),
        forall|from: usize, to: usize| #[trigger]
            back.contains((from, to)) <==> {
                &&& nodes.contains_key(from)
                &&& nodes[from].edges.contains(to)
                &&& from != to
                &&& finish_order(nodes, order).index_of(from) < finish_order(
                    nodes,
                    order,
                ).index_of(to)
            },
    ensures
        back.finite(),
        cycles::cycles_found(nodes, order).len() == back.len(),
{
    let done = finish_order(nodes, order);
    let found = cycles::cycles_found(nodes, order);
    let closing = Seq::new(found.len(), |k: int| (found[k].last(), found[k][0]));
    lemma_reports_follow_the_search(nodes, order);
    cycles::lemma_reported_cycles_are_cycles(nodes, order);
    cycles::lemma_no_reference_is_reported_twice(nodes, order);
    assert forall|k: int, l: int| 0 <= k < closing.len() && 0 <= l < closing.len() && k
        != l implies closing[k] != closing[l] by {
        if k < l {
            assert(found[k].last() != found[l].last() || found[k][0] != found[l][0]);
        } else {
            assert(found[l].last() != found[k].last() || found[l][0] != found[k][0]);
        }
    }
    assert forall|pair: (usize, usize)| #[trigger] back.contains(pair) implies closing.contains(
        pair,
    ) by {
        let (from, to) = pair;
        assert(back.contains((from, to)));
        assert(done.contains(from));
        lemma_reports_are_the_back_references(nodes, order, from, to);
        let k = choose|k: int|
            0 <= k < found.len() && (#[trigger] found[k]).last() == from && found[k][0] == to;
        assert(closing[k] == pair);
    }
    assert forall|pair: (usize, usize)| #[trigger] closing.contains(pair) implies back.contains(
        pair,
    ) by {
        let k = closing.index_of(pair);
        let cycle = found[k];
        assert(closing[k] == pair);
        assert(cycles::is_cycle(nodes, found[k]));
        assert(done.index_of(found[k][0]) > done.index_of(found[k][cycle.len() - 1]));
        assert(back.contains((pair.0, pair.1)));
    }
    closing.unique_seq_to_set();
    assert(closing.to_set() =~= back);
}

/// A set of ids that holds the node after each of its nodes on the cycle, and
/// holds one of them, holds those further along the cycle.
proof fn lemma_along(cycle: Seq<usize>, ids: Set<usize>, i: int, j: int)
    requires
        0 <= i <= j < cycle.len(),
        ids.contains(cycle[i]),
        forall|k: int|
            0 <= k < cycle.len() - 1 && ids.contains(#[trigger] cycle[k]) ==> ids.contains(
                cycle[k + 1],
            ),
    ensures
        ids.contains(cycle[j]),
    decreases j - i,
{
    if i < j {
        assert(ids.contains(cycle[i + 1]));
        lemma_along(cycle, ids, i + 1, j);
    }
}

/// A graph that is one simple cycle gives exactly one report.
pub proof fn lemma_single_cycle_is_reported_once(
    nodes: Map<usize, NodeView>,
    order: Seq<usize>,
    cycle: Seq<usize>,
)
    requires
        cycle.len() > 1,
        cycle.no_duplicates(),
        forall|id: usize| #[trigger] nodes.contains_key(id) <==> cycle.contains(id),
        forall|i: int|
            0 <= i < cycle.len() ==> nodes[#[trigger] cycle[i]].edges == seq![
                if i + 1 < cycle.len() {
                    cycle[i + 1]
                } else {
                    cycle[0]
                },
            ],
        forall|id: usize| #[trigger] nodes.contains_key(id) ==> order.contains(id),
    ensures
        cycles::cycles_found(nodes, order).len() == 1,
{
    let done = finish_order(nodes, order);
    let found = cycles::cycles_found(nodes, order);
    let n = cycle.len() as int;
    assert forall|id: usize| #[trigger] nodes.contains_key(id) implies nodes[id].edges.no_duplicates() by {
        assert(cycle[cycle.index_of(id)] == id);
    }
    lemma_reports_follow_the_search(nodes, order);
    lemma_no_cycle_is_reported_twice(nodes, order);
    cycles::lemma_reported_cycles_are_cycles(nodes, order);
    cycles::lemma_cycles_found_iff_cyclic(nodes, order);
    assert forall|i: int| 0 <= i < n implies nodes.contains_key(#[trigger] cycle[i])
        && nodes[cycle[i]].edges[0] == cycles::next_on_cycle(cycle, i)
        && nodes[cycle[i]].edges.len() == 1 by {
        assert(cycle.contains(cycle[i]));
    }
    assert(cycles::is_cycle(nodes, cycle)) by {
        assert forall|i: int, j: int|
            0 <= i && j == i + 1 && j < cycle.len() implies graph::has_edge(
            nodes,
            #[trigger] cycle[i],
            #[trigger] cycle[j],
        ) by {
            assert(nodes[cycle[i]].edges[0] == cycle[j]);
            assert(nodes[cycle[i]].edges.contains(cycle[j]));
        }
        assert(nodes[cycle[n - 1]].edges[0] == cycle[0]);
        assert(nodes[cycle[n - 1]].edges.contains(cycle[0]));
    }
    if found.len() > 1 {
        let a = found[0];
        let b = found[1];
        let on = a.to_set();
        assert(cycles::is_cycle(nodes, found[0]));
        assert(cycles::is_cycle(nodes, found[1]));
        assert forall|i: int| 0 <= i < n && on.contains(#[trigger] cycle[i]) implies on.contains(
            cycles::next_on_cycle(cycle, i),
        ) by {
            let p = a.index_of(cycle[i]);
            let to = cycles::next_on_cycle(a, p);
            assert(a[p] == cycle[i]);
            assert(graph::has_edge(nodes, a[p], to)) by {
                if p + 1 < a.len() {
                    assert(graph::has_edge(nodes, a[p], a[p + 1]));
                }
            }
            let q = nodes[cycle[i]].edges.index_of(to);
            assert(nodes[cycle[i]].edges[q] == to);
            assert(to == cycles::next_on_cycle(cycle, i));
            assert(a.contains(to));
        }
        assert(graph::has_edge(nodes, a[0], a[1]));
        let first = cycle.index_of(a[0]);
        assert(cycle[first] == a[0]);
        assert(a.contains(a[0]));
        assert(on.contains(cycle[first]));
        assert forall|k: int| 0 <= k < n - 1 && on.contains(#[trigger] cycle[k]) implies on.contains(
            cycle[k + 1],
        ) by {
            assert(cycles::next_on_cycle(cycle, k) == cycle[k + 1]);
        }
        lemma_along(cycle, on, first, n - 1);
        assert(cycles::next_on_cycle(cycle, n - 1) == cycle[0]);
        assert(graph::has_edge(nodes, b.last(), b[0]));
        let last = cycle.index_of(b.last());
        assert(cycle[last] == b.last());
        lemma_along(cycle, on, 0, last);
        let p = a.index_of(b.last());
        assert(a[p] == b.last());
        let to = cycles::next_on_cycle(a, p);
        assert(graph::has_edge(nodes, a[p], to)) by {
            if p + 1 < a.len() {
                assert(graph::has_edge(nodes, a[p], a[p + 1]));
            }
        }
        let edges = nodes[b.last()].edges;
        assert(edges[edges.index_of(to)] == to);
        assert(edges[edges.index_of(b[0])] == b[0]);
        assert(to == b[0]);
        assert(done.index_of(found[1][0]) > done.index_of(found[1][b.len() - 1]));
        if p + 1 < a.len() {
            assert(done.index_of(found[0][p]) > done.index_of(found[0][p + 1]));
        }
        assert(false);
    }
}

} // verus!
