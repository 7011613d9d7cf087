//! Detection of reference cycles by depth-first search.
use crate::graph;
use crate::ids;
use crate::node::{LatticeNode, NodeView};
use std::collections::HashMap;
use vstd::prelude::*;

verus! {

// ---------------------------------------------------------------------------
// Model
// ---------------------------------------------------------------------------
/// The contents of a list of id lists.
pub open spec fn list_views(lists: Seq<Vec<usize>>) -> Seq<Seq<usize>> {
    lists.map_values(|list: Vec<usize>| list@)
}

/// A reference cycle: two or more different nodes, each with a reference to the
/// next and the last with one to the first.
pub open spec fn is_cycle(nodes: Map<usize, NodeView>, cycle: Seq<usize>) -> bool {
    &&& cycle.len() > 1
    &&& cycle.no_duplicates()
    &&& graph::is_chain(nodes, cycle)
    &&& graph::has_edge(nodes, cycle.last(), cycle[0])
}

/// Outcome of a depth-first search.
#[verifier::ext_equal]
pub struct Traversal {
    /// The ids whose search is over, in the order in which it ended.
    pub finished: Seq<usize>,
    /// The cycles found, in the order in which they were found.
    pub cycles: Seq<Seq<usize>>,
}

/// What a reference from the end of `path` back to `target`, which lies on it,
/// reports: the stretch of the path from `target` on. A reference of a node to
/// itself reports nothing.
pub open spec fn back_edge_report(path: Seq<usize>, target: usize) -> Seq<Seq<usize>> {
    let cycle = path.skip(path.index_of(target));
    if cycle.len() > 1 {
        seq![cycle]
    } else {
        Seq::empty()
    }
}

/// Depth-first search below the last node of `path`, from its reference number
/// `next` on. `path` leads from the start of the search to that node and
/// `finished` holds the ids whose search is over.
pub open spec fn explore(
    nodes: Map<usize, NodeView>,
    path: Seq<usize>,
    finished: Seq<usize>,
    next: nat,
) -> Traversal
    decreases usize::MAX + 1 - path.len(), graph::successors(nodes, path.last()).len() - next,
    when path.len() > 0 && path.no_duplicates()
    via explore_terminates
{
    let children = graph::successors(nodes, path.last());
    if next >= children.len() {
        Traversal { finished: finished.push(path.last()), cycles: Seq::empty() }
    } else {
        let child = children[next as int];
        if finished.contains(child) {
            explore(nodes, path, finished, next + 1)
        } else if path.contains(child) {
            let rest = explore(nodes, path, finished, next + 1);
            Traversal {
                finished: rest.finished,
                cycles: back_edge_report(path, child) + rest.cycles,
            }
        } else {
            let below = explore(nodes, path.push(child), finished, 0);
            let rest = explore(nodes, path, below.finished, next + 1);
            Traversal { finished: rest.finished, cycles: below.cycles + rest.cycles }
        }
    }
}

#[via_fn]
proof fn explore_terminates(
    nodes: Map<usize, NodeView>,
    path: Seq<usize>,
    finished: Seq<usize>,
    next: nat,
) {
    let children = graph::successors(nodes, path.last());
    if next < children.len() && !path.contains(children[next as int]) {
        ids::lemma_distinct_ids_fit(path.push(children[next as int]));
    }
}

/// Depth-first search from the ids of `starts` in turn; an id whose search is
/// over is not searched again.
pub open spec fn explore_all(
    nodes: Map<usize, NodeView>,
    starts: Seq<usize>,
    finished: Seq<usize>,
) -> Traversal
    decreases starts.len(),
{
    if starts.len() == 0 {
        Traversal { finished, cycles: Seq::empty() }
    } else if finished.contains(starts[0]) {
        explore_all(nodes, starts.drop_first(), finished)
    } else {
        let first = explore(nodes, seq![starts[0]], finished, 0);
        let rest = explore_all(nodes, starts.drop_first(), first.finished);
        Traversal { finished: rest.finished, cycles: first.cycles + rest.cycles }
    }
}

/// The cycles that depth-first search finds when it starts from the ids of
/// `order` in turn.
pub open spec fn cycles_found(nodes: Map<usize, NodeView>, order: Seq<usize>) -> Seq<Seq<usize>> {
    explore_all(nodes, order, Seq::empty()).cycles
}

// ---------------------------------------------------------------------------
// Search
// ---------------------------------------------------------------------------
/// Color of an id on the current path.
const ON_PATH: u8 = 1;

/// Color of an id whose search is over.
const FINISHED: u8 = 2;

/// The colors tell the ids on the path and the finished ones from each other
/// and from the rest, which has no color.
spec fn colors_match(colors: Map<usize, u8>, path: Seq<usize>, finished: Seq<usize>) -> bool {
    &&& forall|id: usize| #[trigger]
        colors.contains_key(id) ==> {
            ||| colors[id] == ON_PATH && path.contains(id)
            ||| colors[id] == FINISHED && finished.contains(id)
        }
    &&& forall|id: usize| #[trigger]
        path.contains(id) ==> colors.contains_key(id) && colors[id] == ON_PATH
    &&& forall|id: usize| #[trigger]
        finished.contains(id) ==> colors.contains_key(id) && colors[id] == FINISHED
}

/// The path that the frames of the search stack stand for.
spec fn frame_path(frames: Seq<(usize, usize)>) -> Seq<usize> {
    frames.map_values(|frame: (usize, usize)| frame.0)
}

/// What is left of a search whose stack holds `frames`, each a node with the
/// number of its next reference.
spec fn resume(
    nodes: Map<usize, NodeView>,
    frames: Seq<(usize, usize)>,
    finished: Seq<usize>,
) -> Traversal
    decreases frames.len(),
{
    if frames.len() == 0 {
        Traversal { finished, cycles: Seq::empty() }
    } else {
        let top = explore(nodes, frame_path(frames), finished, frames.last().1 as nat);
        let rest = resume(nodes, frames.drop_last(), top.finished);
        Traversal { finished: rest.finished, cycles: top.cycles + rest.cycles }
    }
}

/// Number of search steps left in the frames, leaving out nodes yet to enter.
spec fn steps_left(nodes: Map<usize, NodeView>, frames: Seq<(usize, usize)>) -> nat
    decreases frames.len(),
{
    if frames.len() == 0 {
        0
    } else {
        let (id, next) = frames.last();
        let here = graph::successors(nodes, id).len() - next;
        steps_left(nodes, frames.drop_last()) + 1 + (if here > 0 {
            here as nat
        } else {
            0
        })
    }
}

/// The stack after the top frame has moved on to its next reference.
spec fn advanced(frames: Seq<(usize, usize)>) -> Seq<(usize, usize)> {
    let (id, next) = frames.last();
    frames.update(frames.len() - 1, (id, (next + 1) as usize))
}

/// One step of the search, for each thing that the next reference of the top
/// frame can lead to: the remaining search changes by what the step reports.
proof fn lemma_resume_step(
    nodes: Map<usize, NodeView>,
    frames: Seq<(usize, usize)>,
    finished: Seq<usize>,
)
    requires
        frames.len() > 0,
        frames.last().1 < graph::successors(nodes, frames.last().0).len() ==> frames.last().1 < usize::MAX,
        frame_path(frames).no_duplicates(),
    ensures
        ({
            let (id, next) = frames.last();
            let path = frame_path(frames);
            let children = graph::successors(nodes, id);
            let before = resume(nodes, frames, finished);
            let after = resume(nodes, advanced(frames), finished);
            if next >= children.len() {
                &&& resume(nodes, frames.drop_last(), finished.push(id)) == before
                &&& steps_left(nodes, frames.drop_last()) < steps_left(nodes, frames)
            } else {
                let child = children[next as int];
                &&& frame_path(advanced(frames)) == path
                &&& steps_left(nodes, advanced(frames)) < steps_left(nodes, frames)
                &&& if finished.contains(child) {
                    after == before
                } else if path.contains(child) {
                    &&& after.finished == before.finished
                    &&& back_edge_report(path, child) + after.cycles == before.cycles
                } else {
                    resume(nodes, advanced(frames).push((child, 0)), finished) == before
                }
            }
        }),
{
    let (id, next) = frames.last();
    let path = frame_path(frames);
    let children = graph::successors(nodes, id);
    let below = frames.drop_last();
    let here = explore(nodes, path, finished, next as nat);
    assert(path.last() == id);
    if next >= children.len() {
        assert(here.finished == finished.push(id));
        assert(resume(nodes, below, finished.push(id)) =~= resume(nodes, frames, finished));
    } else {
        let child = children[next as int];
        let moved = advanced(frames);
        assert(moved.drop_last() =~= below);
        assert(moved.last() == (id, (next + 1) as usize));
        assert(frame_path(moved) =~= path);
        let rest = explore(nodes, path, finished, (next + 1) as nat);
        if finished.contains(child) {
        } else if path.contains(child) {
            let after = resume(nodes, moved, finished);
            let tail = resume(nodes, below, here.finished);
            assert(here.cycles == back_edge_report(path, child) + rest.cycles);
            assert(back_edge_report(path, child) + (rest.cycles + tail.cycles) =~= (
            back_edge_report(path, child) + rest.cycles) + tail.cycles);
        } else {
            let deeper = moved.push((child, 0));
            assert(deeper.drop_last() =~= moved);
            assert(frame_path(deeper) =~= path.push(child));
            let first = explore(nodes, path.push(child), finished, 0);
            let then = explore(nodes, path, first.finished, (next + 1) as nat);
            let tail = resume(nodes, below, here.finished);
            assert(here.finished == then.finished);
            assert(here.cycles == first.cycles + then.cycles);
            assert(first.cycles + (then.cycles + tail.cycles) =~= (first.cycles + then.cycles)
                + tail.cycles);
            assert(resume(nodes, moved, first.finished).cycles == then.cycles + tail.cycles);
        }
    }
}

/// The search of `explore` with an explicit stack, from `start`, which must
/// have no color yet.
fn explore_from(
    nodes: &HashMap<usize, LatticeNode>,
    start: usize,
    colors: &mut HashMap<usize, u8>,
    cycles: &mut Vec<Vec<usize>>,
    Ghost(finished): Ghost<Seq<usize>>,
)
    requires
        colors_match(old(colors)@, Seq::empty(), finished),
        !finished.contains(start),
    ensures
        ({
            let found = explore(graph::node_views(nodes@), seq![start], finished, 0);
            &&& colors_match(final(colors)@, Seq::empty(), found.finished)
            &&& list_views(final(cycles)@) == list_views(old(cycles)@) + found.cycles
        }),
{
    let ghost g = graph::node_views(nodes@);
    let ghost target = explore(g, seq![start], finished, 0);
    let ghost mut over = finished;
    let mut path: Vec<usize> = Vec::new();
    let mut stack: Vec<(usize, usize)> = Vec::new();
    colors.insert(start, ON_PATH);
    path.push(start);
    stack.push((start, 0));
    proof {
        assert(stack@.drop_last() =~= Seq::empty());
        assert(frame_path(stack@) =~= seq![start]);
        assert(path@ =~= seq![start]);
        assert(path@[0] == start);
        reveal_with_fuel(resume, 2);
        assert(resume(g, stack@, over) =~= target);
        assert forall|id: usize| #[trigger] path@.contains(id) implies id == start by {}
    }
    while stack.len() > 0
        invariant
            g == graph::node_views(nodes@),
            path@ == frame_path(stack@),
            path@.no_duplicates(),
            colors_match(colors@, path@, over),
            resume(g, stack@, over).finished == target.finished,
            list_views(cycles@) + resume(g, stack@, over).cycles == list_views(old(cycles)@)
                + target.cycles,
        decreases usize::MAX + 1 - colors@.len(), steps_left(g, stack@),
    {
        let top: usize = stack.len() - 1;
        let (node, next) = stack[top];
        let child = match nodes.get(&node) {
            Some(entry) => if next < entry.edges.len() {
                Some(entry.edges[next])
            } else {
                None
            },
            None => None,
        };
        let ghost frames = stack@;
        let ghost seen = colors@;
        proof {
            assert(g.contains_key(node) == nodes@.contains_key(node));
            lemma_resume_step(g, frames, over);
            assert(path@[top as int] == node);
            assert(path@.contains(node));
        }
        match child {
            Some(child) => {
                stack[top] = (node, next + 1);
                assert(stack@ =~= advanced(frames));
                match colors.get(&child) {
                    None => {
                        colors.insert(child, ON_PATH);
                        path.push(child);
                        stack.push((child, 0));
                        proof {
                            ids::lemma_contains_push(frame_path(frames), child);
                            assert(colors@.dom() =~= seen.dom().insert(child));
                            assert(colors.len() == colors@.len());
                        }
                    },
                    Some(color) => {
                        if *color == ON_PATH {
                            if let Some(first) = ids::position(&path, child) {
                                if path.len() - first > 1 {
                                    let cycle = ids::suffix(&path, first);
                                    cycles.push(cycle);
                                }
                            }
                        }
                    },
                }
            },
            None => {
                colors.insert(node, FINISHED);
                path.pop();
                stack.pop();
                proof {
                    ids::lemma_contains_push(over, node);
                    ids::lemma_contains_push(path@, node);
                    assert(frame_path(frames) =~= path@.push(node));
                    over = over.push(node);
                    assert(colors@.dom() =~= seen.dom());
                    assert(!path@.contains(node));
                }
            },
        }
    }
}

/// Depth-first search from the ids of `order` in turn; gives the cycles that it
/// finds.
pub(crate) fn cycles_in_order(nodes: &HashMap<usize, LatticeNode>, order: &[usize]) -> (cycles: Vec<
    Vec<usize>,
>)
    ensures
        list_views(cycles@) == cycles_found(graph::node_views(nodes@), order@),
{
    let ghost g = graph::node_views(nodes@);
    let ghost mut finished: Seq<usize> = Seq::empty();
    let mut cycles: Vec<Vec<usize>> = Vec::new();
    let mut colors: HashMap<usize, u8> = HashMap::new();
    let mut i: usize = 0;
    assert(order@.skip(0) =~= order@);
    assert(list_views(cycles@) + cycles_found(g, order@) =~= cycles_found(g, order@));
    while i < order.len()
        invariant
            i <= order@.len(),
            g == graph::node_views(nodes@),
            colors_match(colors@, Seq::empty(), finished),
            list_views(cycles@) + explore_all(g, order@.skip(i as int), finished).cycles
                == cycles_found(g, order@),
        decreases order@.len() - i,
    {
        let start = order[i];
        let ghost rest = order@.skip(i as int);
        assert(rest.drop_first() =~= order@.skip(i + 1));
        if !colors.contains_key(&start) {
            let ghost before = list_views(cycles@);
            explore_from(nodes, start, &mut colors, &mut cycles, Ghost(finished));
            proof {
                let first = explore(g, seq![start], finished, 0);
                let then = explore_all(g, rest.drop_first(), first.finished);
                assert((before + first.cycles) + then.cycles =~= before + (first.cycles
                    + then.cycles));
                finished = first.finished;
            }
        }
        i = i + 1;
    }
    assert(list_views(cycles@) + Seq::<Seq<usize>>::empty() =~= list_views(cycles@));
    cycles
}

// ---------------------------------------------------------------------------
// Laws
// ---------------------------------------------------------------------------
/// Every list is a reference cycle.
pub open spec fn all_cycles(nodes: Map<usize, NodeView>, lists: Seq<Seq<usize>>) -> bool {
    forall|k: int| 0 <= k < lists.len() ==> is_cycle(nodes, #[trigger] lists[k])
}

proof fn lemma_all_cycles_concat(
    nodes: Map<usize, NodeView>,
    a: Seq<Seq<usize>>,
    b: Seq<Seq<usize>>,
)
    requires
        all_cycles(nodes, a),
        all_cycles(nodes, b),
    ensures
        all_cycles(nodes, a + b),
{
}

proof fn lemma_explore_sound(
    nodes: Map<usize, NodeView>,
    path: Seq<usize>,
    finished: Seq<usize>,
    next: nat,
)
    requires
        path.len() > 0,
        path.no_duplicates(),
        graph::is_chain(nodes, path),
    ensures
        all_cycles(nodes, explore(nodes, path, finished, next).cycles),
    decreases usize::MAX + 1 - path.len(), graph::successors(nodes, path.last()).len() - next,
{
    let children = graph::successors(nodes, path.last());
    if next < children.len() {
        let child = children[next as int];
        assert(graph::has_edge(nodes, path.last(), child));
        if finished.contains(child) {
            lemma_explore_sound(nodes, path, finished, next + 1);
        } else if path.contains(child) {
            lemma_explore_sound(nodes, path, finished, next + 1);
            let first = path.index_of(child);
            let cycle = path.skip(first);
            assert(cycle[0] == child);
            assert(cycle.last() == path.last());
            assert forall|i: int, j: int|
                0 <= i && j == i + 1 && j < cycle.len() implies graph::has_edge(
                nodes,
                #[trigger] cycle[i],
                #[trigger] cycle[j],
            ) by {
                assert(graph::has_edge(nodes, path[first + i], path[first + j]));
            }
            let rest = explore(nodes, path, finished, next + 1);
            lemma_all_cycles_concat(nodes, back_edge_report(path, child), rest.cycles);
        } else {
            ids::lemma_distinct_ids_fit(path.push(child));
            lemma_explore_sound(nodes, path.push(child), finished, 0);
            let below = explore(nodes, path.push(child), finished, 0);
            lemma_explore_sound(nodes, path, below.finished, next + 1);
            let rest = explore(nodes, path, below.finished, next + 1);
            lemma_all_cycles_concat(nodes, below.cycles, rest.cycles);
        }
    }
}

proof fn lemma_explore_all_sound(
    nodes: Map<usize, NodeView>,
    starts: Seq<usize>,
    finished: Seq<usize>,
)
    ensures
        all_cycles(nodes, explore_all(nodes, starts, finished).cycles),
    decreases starts.len(),
{
    if starts.len() > 0 {
        if finished.contains(starts[0]) {
            lemma_explore_all_sound(nodes, starts.drop_first(), finished);
        } else {
            lemma_explore_sound(nodes, seq![starts[0]], finished, 0);
            let first = explore(nodes, seq![starts[0]], finished, 0);
            lemma_explore_all_sound(nodes, starts.drop_first(), first.finished);
            let rest = explore_all(nodes, starts.drop_first(), first.finished);
            lemma_all_cycles_concat(nodes, first.cycles, rest.cycles);
        }
    }
}

/// Whatever the order of the search, all that it reports are reference cycles.
pub proof fn lemma_reported_cycles_are_cycles(nodes: Map<usize, NodeView>, order: Seq<usize>)
    ensures
        all_cycles(nodes, cycles_found(nodes, order)),
{
    lemma_explore_all_sound(nodes, order, Seq::empty());
}

/// One of the cycles ends at `from` and starts at `to`: it is closed by the
/// reference from `from` to `to`.
pub open spec fn closes(cycles: Seq<Seq<usize>>, from: usize, to: usize) -> bool {
    exists|k: int|
        0 <= k < cycles.len() && (#[trigger] cycles[k]).last() == from && cycles[k][0] == to
}

/// The reference from `from` to `to` leads to `from` itself, to an id of
/// `finished`, or closes a reported cycle.
pub(crate) open spec fn accounted(
    finished: Seq<usize>,
    cycles: Seq<Seq<usize>>,
    from: usize,
    to: usize,
) -> bool {
    to == from || finished.contains(to) || closes(cycles, from, to)
}

/// Every reference of a finished node leads to itself, to a node that finished
/// earlier, or closes a reported cycle.
pub(crate) open spec fn settled(
    nodes: Map<usize, NodeView>,
    finished: Seq<usize>,
    cycles: Seq<Seq<usize>>,
) -> bool {
    forall|i: int, to: usize|
        0 <= i < finished.len() && #[trigger] graph::has_edge(nodes, finished[i], to) ==> accounted(
            finished.take(i),
            cycles,
            finished[i],
            to,
        )
}

proof fn lemma_closes_more(
    cycles: Seq<Seq<usize>>,
    more: Seq<Seq<usize>>,
    from: usize,
    to: usize,
)
    requires
        closes(cycles, from, to),
    ensures
        closes(cycles + more, from, to),
{
    let k = choose|k: int|
        0 <= k < cycles.len() && (#[trigger] cycles[k]).last() == from && cycles[k][0] == to;
    assert((cycles + more)[k] == cycles[k]);
}

proof fn lemma_settled_more(
    nodes: Map<usize, NodeView>,
    finished: Seq<usize>,
    cycles: Seq<Seq<usize>>,
    more: Seq<Seq<usize>>,
)
    requires
        settled(nodes, finished, cycles),
    ensures
        settled(nodes, finished, cycles + more),
{
    assert forall|i: int, to: usize|
        0 <= i < finished.len() && #[trigger] graph::has_edge(nodes, finished[i], to) implies accounted(
        finished.take(i),
        cycles + more,
        finished[i],
        to,
    ) by {
        assert(accounted(finished.take(i), cycles, finished[i], to));
        if closes(cycles, finished[i], to) {
            lemma_closes_more(cycles, more, finished[i], to);
        }
    }
}

/// `cycles` are the cycles reported before; the references of the last node of
/// the path that come before number `next` are accounted for.
proof fn lemma_explore_settles(
    nodes: Map<usize, NodeView>,
    path: Seq<usize>,
    finished: Seq<usize>,
    next: nat,
    cycles: Seq<Seq<usize>>,
)
    requires
        path.len() > 0,
        path.no_duplicates(),
        settled(nodes, finished, cycles),
        forall|k: int|
            0 <= k < next && k < graph::successors(nodes, path.last()).len() ==> accounted(
                finished,
                cycles,
                path.last(),
                #[trigger] graph::successors(nodes, path.last())[k],
            ),
    ensures
        ({
            let found = explore(nodes, path, finished, next);
            &&& settled(nodes, found.finished, cycles + found.cycles)
            &&& finished.is_prefix_of(found.finished)
            &&& found.finished.contains(path.last())
        }),
    decreases usize::MAX + 1 - path.len(), graph::successors(nodes, path.last()).len() - next,
{
    let node = path.last();
    let children = graph::successors(nodes, node);
    let found = explore(nodes, path, finished, next);
    if next >= children.len() {
        let done = finished.push(node);
        assert(cycles + found.cycles =~= cycles);
        assert(done.last() == node);
        assert forall|i: int, to: usize|
            0 <= i < done.len() && #[trigger] graph::has_edge(nodes, done[i], to) implies accounted(
            done.take(i),
            cycles,
            done[i],
            to,
        ) by {
            assert(done.take(i) =~= finished.take(i));
            if i < finished.len() {
                assert(graph::has_edge(nodes, finished[i], to));
            } else {
                assert(finished.take(i) =~= finished);
                let k = children.index_of(to);
                assert(children[k] == to);
            }
        }
    } else {
        let child = children[next as int];
        if finished.contains(child) {
            lemma_explore_settles(nodes, path, finished, next + 1, cycles);
        } else if path.contains(child) {
            let report = back_edge_report(path, child);
            let more = cycles + report;
            let rest = explore(nodes, path, finished, next + 1);
            lemma_settled_more(nodes, finished, cycles, report);
            assert forall|k: int| 0 <= k < next + 1 && k < children.len() implies accounted(
                finished,
                more,
                node,
                #[trigger] children[k],
            ) by {
                if k < next {
                    assert(accounted(finished, cycles, node, children[k]));
                    if closes(cycles, node, children[k]) {
                        lemma_closes_more(cycles, report, node, children[k]);
                    }
                } else if child != node {
                    let cycle = path.skip(path.index_of(child));
                    assert(report == seq![cycle]);
                    assert(more[cycles.len() as int] == cycle);
                    assert(cycle.last() == node && cycle[0] == child);
                }
            }
            lemma_explore_settles(nodes, path, finished, next + 1, more);
            assert(more + rest.cycles =~= cycles + (report + rest.cycles));
        } else {
            ids::lemma_distinct_ids_fit(path.push(child));
            lemma_explore_settles(nodes, path.push(child), finished, 0, cycles);
            let below = explore(nodes, path.push(child), finished, 0);
            let more = cycles + below.cycles;
            let rest = explore(nodes, path, below.finished, next + 1);
            assert forall|k: int| 0 <= k < next + 1 && k < children.len() implies accounted(
                below.finished,
                more,
                node,
                #[trigger] children[k],
            ) by {
                if k < next {
                    assert(accounted(finished, cycles, node, children[k]));
                    if closes(cycles, node, children[k]) {
                        lemma_closes_more(cycles, below.cycles, node, children[k]);
                    } else if finished.contains(children[k]) {
                        let i = finished.index_of(children[k]);
                        assert(below.finished[i] == children[k]);
                    }
                }
            }
            lemma_explore_settles(nodes, path, below.finished, next + 1, more);
            assert(more + rest.cycles =~= cycles + (below.cycles + rest.cycles));
        }
    }
}

pub(crate) proof fn lemma_explore_all_settles(
    nodes: Map<usize, NodeView>,
    starts: Seq<usize>,
    finished: Seq<usize>,
    cycles: Seq<Seq<usize>>,
)
    requires
        settled(nodes, finished, cycles),
    ensures
        ({
            let found = explore_all(nodes, starts, finished);
            &&& settled(nodes, found.finished, cycles + found.cycles)
            &&& finished.is_prefix_of(found.finished)
            &&& forall|id: usize| #[trigger] starts.contains(id) ==> found.finished.contains(id)
        }),
    decreases starts.len(),
{
    let found = explore_all(nodes, starts, finished);
    if starts.len() == 0 {
        assert(cycles + found.cycles =~= cycles);
    } else {
        let others = starts.drop_first();
        let (middle, more) = if finished.contains(starts[0]) {
            (finished, cycles)
        } else {
            let first = explore(nodes, seq![starts[0]], finished, 0);
            lemma_explore_settles(nodes, seq![starts[0]], finished, 0, cycles);
            let rest = explore_all(nodes, others, first.finished);
            assert((cycles + first.cycles) + rest.cycles =~= cycles + (first.cycles + rest.cycles));
            assert(seq![starts[0]].last() == starts[0]);
            (first.finished, cycles + first.cycles)
        };
        lemma_explore_all_settles(nodes, others, middle, more);
        assert forall|id: usize| #[trigger] starts.contains(id) implies found.finished.contains(
            id,
        ) by {
            let i = starts.index_of(id);
            if i == 0 {
                let j = middle.index_of(id);
                assert(found.finished[j] == id);
            } else {
                assert(others[i - 1] == id);
                assert(others.contains(id));
            }
        }
    }
}

/// Index of the first id of `ids` that lies in `wanted`.
proof fn lemma_first_of(ids: Seq<usize>, wanted: Seq<usize>) -> (first: int)
    requires
        exists|i: int| 0 <= i < ids.len() && wanted.contains(#[trigger] ids[i]),
    ensures
        0 <= first < ids.len(),
        wanted.contains(ids[first]),
        forall|i: int| 0 <= i < first ==> !wanted.contains(#[trigger] ids[i]),
    decreases ids.len(),
{
    let front = ids.drop_last();
    if exists|i: int| 0 <= i < front.len() && wanted.contains(#[trigger] front[i]) {
        let first = lemma_first_of(front, wanted);
        assert forall|i: int| 0 <= i < first implies !wanted.contains(#[trigger] ids[i]) by {
            assert(!wanted.contains(front[i]));
        }
        first
    } else {
        assert forall|i: int| 0 <= i < ids.len() - 1 implies !wanted.contains(#[trigger] ids[i]) by {
            assert(front[i] == ids[i]);
        }
        ids.len() - 1
    }
}

/// The node after `cycle[i]` on the cycle.
pub open spec fn next_on_cycle(cycle: Seq<usize>, i: int) -> usize {
    if i + 1 < cycle.len() {
        cycle[i + 1]
    } else {
        cycle[0]
    }
}

/// A search that starts from every node misses no cycle: each cycle of the
/// graph runs through a reference that closes a reported cycle. The graph
/// without the closing references has no cycle left.
pub proof fn lemma_every_cycle_has_a_reported_edge(
    nodes: Map<usize, NodeView>,
    order: Seq<usize>,
    cycle: Seq<usize>,
)
    requires
        forall|id: usize| #[trigger] nodes.contains_key(id) ==> order.contains(id),
        is_cycle(nodes, cycle),
    ensures
        exists|i: int|
            0 <= i < cycle.len() && closes(
                cycles_found(nodes, order),
                #[trigger] cycle[i],
                next_on_cycle(cycle, i),
            ),
        exists|i: int, k: int|
            #![trigger cycle[i], cycles_found(nodes, order)[k]]
            {
                &&& 0 <= i < cycle.len()
                &&& 0 <= k < cycles_found(nodes, order).len()
                &&& cycles_found(nodes, order)[k].last() == cycle[i]
                &&& cycles_found(nodes, order)[k][0] == (if i + 1 < cycle.len() {
                    cycle[i + 1]
                } else {
                    cycle[0]
                })
            },
{
    let found = explore_all(nodes, order, Seq::empty());
    let done = found.finished;
    lemma_explore_all_settles(nodes, order, Seq::empty(), Seq::empty());
    assert(Seq::<Seq<usize>>::empty() + found.cycles =~= found.cycles);
    assert(graph::has_edge(nodes, cycle[0], cycle[1]));
    assert(done.contains(cycle[0]));
    assert(cycle.contains(done[done.index_of(cycle[0])]));
    let first = lemma_first_of(done, cycle);
    let i = cycle.index_of(done[first]);
    let to = next_on_cycle(cycle, i);
    assert(cycle[i] == done[first]);
    assert(graph::has_edge(nodes, done[first], to));
    assert(accounted(done.take(first), found.cycles, done[first], to));
    assert(to != cycle[i]);
    if done.take(first).contains(to) {
        let j = done.take(first).index_of(to);
        assert(done[j] == to);
        assert(cycle.contains(to));
        assert(false);
    }
    let k = choose|k: int|
        0 <= k < found.cycles.len() && (#[trigger] found.cycles[k]).last() == cycle[i]
            && found.cycles[k][0] == to;
    assert(cycles_found(nodes, order)[k] == found.cycles[k]);
}

/// A search that starts from every node reports something exactly when the
/// graph has a reference cycle.
pub proof fn lemma_cycles_found_iff_cyclic(nodes: Map<usize, NodeView>, order: Seq<usize>)
    requires
        forall|id: usize| #[trigger] nodes.contains_key(id) ==> order.contains(id),
    ensures
        cycles_found(nodes, order).len() > 0 <==> exists|cycle: Seq<usize>|
            is_cycle(nodes, cycle),
{
    let found = cycles_found(nodes, order);
    if found.len() > 0 {
        lemma_reported_cycles_are_cycles(nodes, order);
        assert(is_cycle(nodes, found[0]));
    }
    if exists|cycle: Seq<usize>| is_cycle(nodes, cycle) {
        let cycle = choose|cycle: Seq<usize>| is_cycle(nodes, cycle);
        lemma_every_cycle_has_a_reported_edge(nodes, order, cycle);
    }
}

/// No two of the cycles are closed by the same reference.
pub open spec fn closed_once(cycles: Seq<Seq<usize>>) -> bool {
    forall|k: int, l: int|
        0 <= k < l < cycles.len() ==> (#[trigger] cycles[k]).last() != (
        #[trigger] cycles[l]).last() || cycles[k][0] != cycles[l][0]
}

/// The cycle was found while its last node was being searched: that node is
/// among `after` and not among `before`.
spec fn found_between(before: Seq<usize>, after: Seq<usize>, cycle: Seq<usize>) -> bool {
    after.contains(cycle.last()) && !before.contains(cycle.last())
}

spec fn all_found_between(
    before: Seq<usize>,
    after: Seq<usize>,
    cycles: Seq<Seq<usize>>,
) -> bool {
    forall|k: int| 0 <= k < cycles.len() ==> found_between(before, after, #[trigger] cycles[k])
}

/// The cycle that ends at `node` is not closed by one of the references before
/// number `next`.
spec fn closed_from(children: Seq<usize>, next: nat, node: usize, cycle: Seq<usize>) -> bool {
    cycle.last() == node ==> exists|i: int|
        next <= i < children.len() && #[trigger] children[i] == cycle[0]
}

spec fn all_in(a: Seq<usize>, b: Seq<usize>) -> bool {
    forall|id: usize| #[trigger] a.contains(id) ==> b.contains(id)
}

pub(crate) open spec fn none_in(a: Seq<usize>, b: Seq<usize>) -> bool {
    forall|id: usize| #[trigger] a.contains(id) ==> !b.contains(id)
}

proof fn lemma_explore_closes_once(
    nodes: Map<usize, NodeView>,
    path: Seq<usize>,
    finished: Seq<usize>,
    next: nat,
)
    requires
        forall|id: usize| #[trigger]
            nodes.contains_key(id) ==> nodes[id].edges.no_duplicates(),
        path.len() > 0,
        path.no_duplicates(),
        none_in(path, finished),
    ensures
        ({
            let found = explore(nodes, path, finished, next);
            &&& all_in(finished, found.finished)
            &&& found.finished.contains(path.last())
            &&& none_in(path.drop_last(), found.finished)
            &&& all_found_between(finished, found.finished, found.cycles)
            &&& forall|k: int|
                0 <= k < found.cycles.len() ==> closed_from(
                    graph::successors(nodes, path.last()),
                    next,
                    path.last(),
                    #[trigger] found.cycles[k],
                )
            &&& closed_once(found.cycles)
        }),
    decreases usize::MAX + 1 - path.len(), graph::successors(nodes, path.last()).len() - next,
{
    let node = path.last();
    let children = graph::successors(nodes, node);
    let found = explore(nodes, path, finished, next);
    ids::lemma_contains_drop_last(path);
    if next >= children.len() {
        ids::lemma_contains_push(finished, node);
        assert(!path.drop_last().contains(node));
    } else {
        let child = children[next as int];
        let (middle, head) = if finished.contains(child) {
            (finished, Seq::<Seq<usize>>::empty())
        } else if path.contains(child) {
            (finished, back_edge_report(path, child))
        } else {
            let deeper = path.push(child);
            assert(deeper.drop_last() =~= path);
            ids::lemma_contains_push(path, child);
            ids::lemma_distinct_ids_fit(deeper);
            lemma_explore_closes_once(nodes, deeper, finished, 0);
            let below = explore(nodes, deeper, finished, 0);
            (below.finished, below.cycles)
        };
        lemma_explore_closes_once(nodes, path, middle, next + 1);
        let rest = explore(nodes, path, middle, next + 1);
        assert(found.finished == rest.finished);
        assert(found.cycles =~= head + rest.cycles);
        assert(path.contains(node));
        assert forall|k: int| 0 <= k < head.len() implies {
            &&& found_between(finished, rest.finished, #[trigger] head[k])
            &&& closed_from(children, next, node, head[k])
            &&& head[k].last() == node ==> head[k][0] == child
            &&& head[k].last() != node ==> middle.contains(head[k].last())
        } by {
            if path.contains(child) {
                assert(head[k] == path.skip(path.index_of(child)));
                assert(head[k].last() == node);
                assert(head[k][0] == child);
            } else {
                assert(found_between(finished, middle, head[k]));
                assert(head[k].last() != node);
            }
        }
        assert forall|k: int| 0 <= k < found.cycles.len() implies {
            &&& found_between(finished, found.finished, #[trigger] found.cycles[k])
            &&& closed_from(children, next, node, found.cycles[k])
        } by {
            if k < head.len() {
                assert(found.cycles[k] == head[k]);
            } else {
                let cycle = rest.cycles[k - head.len()];
                assert(found.cycles[k] == cycle);
                assert(found_between(middle, rest.finished, cycle));
                assert(closed_from(children, next + 1, node, cycle));
            }
        }
        assert forall|k: int, l: int| 0 <= k < l < found.cycles.len() implies (
        #[trigger] found.cycles[k]).last() != (#[trigger] found.cycles[l]).last()
            || found.cycles[k][0] != found.cycles[l][0] by {
            if l < head.len() {
                assert(found.cycles[k] == head[k] && found.cycles[l] == head[l]);
            } else if k >= head.len() {
                assert(found.cycles[k] == rest.cycles[k - head.len()]);
                assert(found.cycles[l] == rest.cycles[l - head.len()]);
            } else {
                let cycle = rest.cycles[l - head.len()];
                assert(found.cycles[k] == head[k] && found.cycles[l] == cycle);
                assert(found_between(middle, rest.finished, cycle));
                assert(closed_from(children, next + 1, node, cycle));
            }
        }
    }
}

proof fn lemma_explore_all_closes_once(
    nodes: Map<usize, NodeView>,
    starts: Seq<usize>,
    finished: Seq<usize>,
)
    requires
        forall|id: usize| #[trigger]
            nodes.contains_key(id) ==> nodes[id].edges.no_duplicates(),
    ensures
        ({
            let found = explore_all(nodes, starts, finished);
            &&& all_in(finished, found.finished)
            &&& all_found_between(finished, found.finished, found.cycles)
            &&& closed_once(found.cycles)
        }),
    decreases starts.len(),
{
    if starts.len() > 0 {
        let others = starts.drop_first();
        if finished.contains(starts[0]) {
            lemma_explore_all_closes_once(nodes, others, finished);
        } else {
            let found = explore_all(nodes, starts, finished);
            let first = explore(nodes, seq![starts[0]], finished, 0);
            let rest = explore_all(nodes, others, first.finished);
            lemma_explore_closes_once(nodes, seq![starts[0]], finished, 0);
            lemma_explore_all_closes_once(nodes, others, first.finished);
            assert forall|k: int| 0 <= k < found.cycles.len() implies found_between(
                finished,
                found.finished,
                #[trigger] found.cycles[k],
            ) by {
                if k < first.cycles.len() {
                    assert(found_between(finished, first.finished, first.cycles[k]));
                } else {
                    assert(found_between(
                        first.finished,
                        rest.finished,
                        rest.cycles[k - first.cycles.len()],
                    ));
                }
            }
            assert forall|k: int, l: int| 0 <= k < l < found.cycles.len() implies (
            #[trigger] found.cycles[k]).last() != (#[trigger] found.cycles[l]).last()
                || found.cycles[k][0] != found.cycles[l][0] by {
                let n = first.cycles.len();
                if l < n {
                    assert(found.cycles[k] == first.cycles[k]);
                    assert(found.cycles[l] == first.cycles[l]);
                } else if k >= n {
                    assert(found.cycles[k] == rest.cycles[k - n]);
                    assert(found.cycles[l] == rest.cycles[l - n]);
                } else {
                    assert(found_between(finished, first.finished, first.cycles[k]));
                    assert(found_between(first.finished, rest.finished, rest.cycles[l - n]));
                }
            }
        }
    }
}

/// In a graph whose nodes hold no reference twice, no two reported cycles are
/// closed by the same reference; in particular none is reported twice.
pub proof fn lemma_no_reference_is_reported_twice(nodes: Map<usize, NodeView>, order: Seq<usize>)
    requires
        forall|id: usize| #[trigger]
            nodes.contains_key(id) ==> nodes[id].edges.no_duplicates(),
    ensures
        closed_once(cycles_found(nodes, order)),
{
    lemma_explore_all_closes_once(nodes, order, Seq::empty());
}

/// A cycle is a list of two or more different nodes that exist, each with a
/// reference to the next, and the last with a reference to the first.
pub proof fn lemma_what_a_cycle_is(nodes: Map<usize, NodeView>, cycle: Seq<usize>)
    ensures
        is_cycle(nodes, cycle) <==> {
            &&& cycle.len() > 1
            &&& forall|i: int, j: int|
                0 <= i < j < cycle.len() ==> #[trigger] cycle[i] != #[trigger] cycle[j]
            &&& forall|i: int|
                0 <= i < cycle.len() ==> nodes.contains_key(#[trigger] cycle[i])
                    && nodes[cycle[i]].edges.contains(cycle[(i + 1) % (cycle.len() as int)])
        },
{
    let n = cycle.len() as int;
    if n > 1 {
        assert forall|i: int| 0 <= i < n implies cycle[(i + 1) % n] == next_on_cycle(cycle, i) by {
            if i + 1 < n {
                vstd::arithmetic::div_mod::lemma_small_mod((i + 1) as nat, n as nat);
            } else {
                vstd::arithmetic::div_mod::lemma_mod_self_0(n);
            }
        }
        if is_cycle(nodes, cycle) {
            assert forall|i: int| 0 <= i < n implies nodes.contains_key(#[trigger] cycle[i])
                && nodes[cycle[i]].edges.contains(cycle[(i + 1) % n]) by {
                assert(cycle[(i + 1) % n] == next_on_cycle(cycle, i));
                if i + 1 < n {
                    assert(graph::has_edge(nodes, cycle[i], cycle[i + 1]));
                }
            }
        } else if (forall|i: int, j: int|
            0 <= i < j < n ==> #[trigger] cycle[i] != #[trigger] cycle[j]) && (forall|i: int|
            0 <= i < n ==> nodes.contains_key(#[trigger] cycle[i])
                && nodes[cycle[i]].edges.contains(cycle[(i + 1) % n])) {
            assert forall|i: int, j: int| 0 <= i && j == i + 1 && j < n implies graph::has_edge(
                nodes,
                #[trigger] cycle[i],
                #[trigger] cycle[j],
            ) by {
                assert(cycle[(i + 1) % n] == next_on_cycle(cycle, i));
            }
            assert(cycle[((n - 1) + 1) % n] == next_on_cycle(cycle, n - 1));
            assert(nodes.contains_key(cycle[n - 1]));
        }
    }
}

/// The contents of a list of lists are those of each list, in the same places.
pub proof fn lemma_contents_of_lists(lists: Seq<Vec<usize>>)
    ensures
        list_views(lists).len() == lists.len(),
        forall|k: int| 0 <= k < lists.len() ==> #[trigger] list_views(lists)[k] == lists[k]@,
{
}

/// What one reference of the node at the end of the path adds to the search of
/// the references after it. A reference to a node that the search is over with,
/// or to the node itself, adds nothing; one back to an earlier node of the path
/// adds one report, the path from that node on; one to a new node adds what the
/// search below that node finds, and the search is over with that node before
/// the next reference is looked at.
pub proof fn lemma_search_of_one_reference(
    nodes: Map<usize, NodeView>,
    path: Seq<usize>,
    finished: Seq<usize>,
    next: nat,
    k: int,
)
    requires
        path.len() > 0,
        path.no_duplicates(),
        nodes.contains_key(path.last()),
        next < nodes[path.last()].edges.len(),
    ensures
        ({
            let child = nodes[path.last()].edges[next as int];
            let here = explore(nodes, path, finished, next);
            let rest = explore(nodes, path, finished, next + 1);
            &&& finished.contains(child) || child == path.last() ==> {
                &&& here.finished == rest.finished
                &&& here.cycles == rest.cycles
            }
            &&& !finished.contains(child) && 0 <= k < path.len() - 1 && path[k] == child ==> {
                &&& here.finished == rest.finished
                &&& here.cycles == seq![path.skip(k)] + rest.cycles
            }
            &&& !finished.contains(child) && !path.contains(child) ==> {
                let below = explore(nodes, path.push(child), finished, 0);
                let after = explore(nodes, path, below.finished, next + 1);
                &&& here.finished == after.finished
                &&& here.cycles == below.cycles + after.cycles
            }
        }),
{
    let child = nodes[path.last()].edges[next as int];
    let rest = explore(nodes, path, finished, next + 1);
    assert(path[path.len() - 1] == path.last());
    if child == path.last() {
        assert(path.index_of(child) == path.len() - 1);
        assert(back_edge_report(path, child) + rest.cycles =~= rest.cycles);
    }
    if 0 <= k < path.len() - 1 && path[k] == child {
        assert(path.contains(child));
        assert(path.index_of(child) == k);
        assert(back_edge_report(path, child) =~= seq![path.skip(k)]);
    }
}

/// The search is over with a node once it has no reference left, and at once
/// with an id without a node.
pub proof fn lemma_search_of_no_reference(
    nodes: Map<usize, NodeView>,
    path: Seq<usize>,
    finished: Seq<usize>,
    next: nat,
)
    requires
        path.len() > 0,
        path.no_duplicates(),
        nodes.contains_key(path.last()) ==> nodes[path.last()].edges.len() <= next,
    ensures
        explore(nodes, path, finished, next).finished == finished.push(path.last()),
        explore(nodes, path, finished, next).cycles.len() == 0,
{
}

/// The search takes its starts one after the other: a further start adds, at the
/// end, what the search from it alone finds once the search from the others is
/// over, and nothing if the search is already over with it.
pub proof fn lemma_search_from_one_more_start(
    nodes: Map<usize, NodeView>,
    starts: Seq<usize>,
    finished: Seq<usize>,
    last: usize,
)
    ensures
        ({
            let earlier = explore_all(nodes, starts, finished);
            let all = explore_all(nodes, starts.push(last), finished);
            if earlier.finished.contains(last) {
                all == earlier
            } else {
                let from_last = explore(nodes, seq![last], earlier.finished, 0);
                &&& all.finished == from_last.finished
                &&& all.cycles == earlier.cycles + from_last.cycles
            }
        }),
        explore_all(nodes, Seq::empty(), finished).finished == finished,
        explore_all(nodes, Seq::empty(), finished).cycles.len() == 0,
        cycles_found(nodes, starts) == explore_all(nodes, starts, Seq::empty()).cycles,
    decreases starts.len(),
{
    let longer = starts.push(last);
    if starts.len() == 0 {
        let none = Seq::<usize>::empty();
        assert(longer.drop_first() =~= none);
        assert(starts =~= none);
        assert(explore_all(nodes, none, finished).finished == finished);
        if !finished.contains(last) {
            let only = explore(nodes, seq![last], finished, 0);
            let rest = explore_all(nodes, none, only.finished);
            assert(only.cycles + rest.cycles =~= only.cycles);
            assert(Seq::<Seq<usize>>::empty() + only.cycles =~= only.cycles);
        }
    } else {
        let others = starts.drop_first();
        assert(longer.drop_first() =~= others.push(last));
        assert(longer[0] == starts[0]);
        if finished.contains(starts[0]) {
            lemma_search_from_one_more_start(nodes, others, finished, last);
        } else {
            let first = explore(nodes, seq![starts[0]], finished, 0);
            lemma_search_from_one_more_start(nodes, others, first.finished, last);
            let earlier = explore_all(nodes, others, first.finished);
            let from_last = explore(nodes, seq![last], earlier.finished, 0);
            assert(first.cycles + (earlier.cycles + from_last.cycles) =~= (first.cycles
                + earlier.cycles) + from_last.cycles);
        }
    }
}

} // verus!
