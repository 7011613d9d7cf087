use std::sync::{Arc, Mutex};
use ternary_lattice_gc::{Finalizer, LatticeGC, LatticeNode, Liveness};

const STATES: [Liveness; 3] = [Liveness::Dead, Liveness::MaybeAlive, Liveness::Alive];

fn graph(count: usize, edges: &[(usize, usize)]) -> LatticeGC {
    let mut gc = LatticeGC::new();
    for _ in 0..count {
        gc.add_node(LatticeNode::new(Liveness::Dead));
    }
    for &(from, to) in edges {
        gc.add_edge(from, to);
    }
    gc
}

fn sorted(mut ids: Vec<usize>) -> Vec<usize> {
    ids.sort();
    ids
}

#[test]
fn values_and_parsing_round_trip() {
    assert_eq!(Liveness::Dead.value(), -1);
    assert_eq!(Liveness::MaybeAlive.value(), 0);
    assert_eq!(Liveness::Alive.value(), 1);
    for s in STATES {
        assert_eq!(Liveness::from_i8(s.value()), s);
    }
    assert_eq!(Liveness::from_i8(i8::MIN), Liveness::Dead);
    assert_eq!(Liveness::from_i8(i8::MAX), Liveness::Alive);
}

#[test]
fn join_is_a_semilattice() {
    for a in STATES {
        assert_eq!(a.join(a), a);
        for b in STATES {
            assert_eq!(a.join(b), b.join(a));
            assert!(a <= a.join(b));
            assert_eq!(a.join(b), a.max(b));
            assert_eq!(a.partial_cmp(&b), Some(a.cmp(&b)));
            for c in STATES {
                assert_eq!(a.join(b).join(c), a.join(b.join(c)));
            }
        }
    }
}

#[test]
fn new_node_is_bare() {
    let node = LatticeNode::new(Liveness::MaybeAlive);
    assert_eq!(node.liveness, Liveness::MaybeAlive);
    assert!(node.edges.is_empty());
    assert_eq!(node.tag, None);
    assert_eq!(node.gpu_handle, 0);
}

#[test]
fn tagged_node_takes_str_and_string() {
    let node = LatticeNode::with_handle(Liveness::Dead, 0x1000, "texture");
    assert_eq!(node.tag.as_deref(), Some("texture"));
    assert_eq!(node.gpu_handle, 0x1000);
    assert!(node.edges.is_empty());
    let node = LatticeNode::with_handle(Liveness::Alive, 7, String::from("buffer"));
    assert_eq!(node.tag.as_deref(), Some("buffer"));
    assert_eq!(node.liveness, Liveness::Alive);
}

#[test]
fn cloned_node_is_equal_in_content() {
    let mut node = LatticeNode::with_handle(Liveness::Alive, 9, "pipeline");
    node.add_edge(4);
    let copy = node.clone();
    assert_eq!(copy.liveness, Liveness::Alive);
    assert_eq!(copy.edges, vec![4]);
    assert_eq!(copy.tag.as_deref(), Some("pipeline"));
    assert_eq!(copy.gpu_handle, 9);
}

#[test]
fn removing_an_edge_undoes_adding_it() {
    let mut node = LatticeNode::new(Liveness::Dead);
    node.add_edge(3);
    node.add_edge(5);
    node.add_edge(8);
    node.remove_edge(8);
    assert_eq!(node.edges, vec![3, 5]);
    node.remove_edge(42);
    assert_eq!(node.edges, vec![3, 5]);
    node.edges = vec![1, 2, 1, 3, 1];
    node.remove_edge(1);
    assert_eq!(node.edges, vec![2, 3]);
}

#[test]
fn default_collector_is_empty() {
    let gc = LatticeGC::default();
    assert_eq!(gc.node_count(), 0);
    assert_eq!(gc.last_propagated, 0);
    assert!(gc.is_marking_complete());
    assert!(gc.detect_cycles().is_empty());
    assert!(gc.dead_nodes().is_empty());
}

#[test]
fn ids_count_up_and_are_not_reused() {
    let mut gc = graph(3, &[]);
    gc.collect(&[1]);
    assert_eq!(gc.node_count(), 1);
    assert_eq!(gc.add_node(LatticeNode::new(Liveness::Dead)), 3);
    assert!(gc.get_node(0).is_none());
}

#[test]
fn queries_on_present_and_missing_nodes() {
    let mut gc = LatticeGC::new();
    let a = gc.add_node(LatticeNode::with_handle(Liveness::Alive, 5, "texture"));
    let b = gc.add_node(LatticeNode::new(Liveness::MaybeAlive));
    let c = gc.add_node(LatticeNode::new(Liveness::Dead));
    assert!(gc.is_alive(a) && !gc.is_dead(a));
    assert!(!gc.is_alive(b) && !gc.is_dead(b));
    assert!(!gc.is_alive(c) && gc.is_dead(c));
    assert!(!gc.is_alive(99) && gc.is_dead(99));
    assert_eq!(gc.liveness(b), Some(Liveness::MaybeAlive));
    assert_eq!(gc.liveness(99), None);
    assert_eq!(gc.get_node(a).unwrap().gpu_handle, 5);
    assert_eq!(gc.alive_nodes(), vec![a]);
    assert_eq!(gc.dead_nodes(), vec![c]);
}

#[test]
fn graph_edges_are_kept_on_the_source_node() {
    let mut gc = graph(3, &[(0, 1), (0, 2), (0, 1)]);
    assert_eq!(gc.get_node(0).unwrap().edges, vec![1, 2]);
    gc.remove_edge(0, 1);
    assert_eq!(gc.get_node(0).unwrap().edges, vec![2]);
    gc.remove_edge(77, 1);
    assert_eq!(gc.node_count(), 3);
    assert!(gc.get_node(1).unwrap().edges.is_empty());
}

#[test]
fn setting_permanent_roots_does_not_change_the_graph() {
    let mut gc = graph(2, &[(0, 1)]);
    gc.set_roots(&[0, 0, 1]);
    assert_eq!(gc.node_count(), 2);
    assert!(gc.is_marking_complete());
    assert_eq!(gc.liveness(0), Some(Liveness::Dead));
}

#[test]
fn permanent_root_survives_a_collection_that_does_not_name_it() {
    let mut gc = LatticeGC::new();
    let r = gc.add_node(LatticeNode::new(Liveness::Dead));
    gc.set_roots(&[r]);
    gc.collect(&[]);
    assert!(gc.is_alive(r));
    assert_eq!(gc.node_count(), 1);
}

#[test]
fn collections_start_from_both_kinds_of_root() {
    let mut gc = graph(7, &[(0, 1), (2, 3), (4, 5)]);
    gc.set_roots(&[2, 2, 99]);
    gc.collect(&[0]);
    assert_eq!(sorted(gc.alive_nodes()), vec![0, 1, 2, 3]);
    assert_eq!(gc.node_count(), 4);
    assert_eq!(gc.last_propagated, 4);
    // They stay roots for the next collection.
    gc.collect(&[]);
    assert_eq!(sorted(gc.alive_nodes()), vec![2, 3]);
    // Until others take their place.
    gc.set_roots(&[3]);
    gc.collect(&[]);
    assert_eq!(gc.alive_nodes(), vec![3]);
    gc.set_roots(&[]);
    gc.collect(&[]);
    assert_eq!(gc.node_count(), 0);
}

#[test]
fn incremental_collections_honour_permanent_roots() {
    let mut gc = graph(5, &[(0, 1), (2, 3)]);
    gc.set_roots(&[2]);
    gc.mark_roots(&[0]);
    assert_eq!(gc.liveness(2), Some(Liveness::MaybeAlive));
    assert_eq!(gc.liveness(3), Some(Liveness::Dead));
    // The roots given come first.
    assert_eq!(gc.collect_incremental(1), (1, false));
    assert_eq!(gc.alive_nodes(), vec![0]);
    while !gc.collect_incremental(1).1 {}
    assert_eq!(sorted(gc.alive_nodes()), vec![0, 1, 2, 3]);
    assert_eq!(gc.node_count(), 4);
}

#[test]
fn root_of_both_kinds_is_processed_once() {
    let mut gc = graph(2, &[(0, 1)]);
    gc.set_roots(&[0]);
    gc.mark_roots(&[0]);
    assert_eq!(gc.propagate(usize::MAX), 2);
    assert_eq!(sorted(gc.alive_nodes()), vec![0, 1]);

    gc.mark_roots(&[0]);
    assert_eq!(gc.propagate(2), 2);
    assert_eq!(sorted(gc.alive_nodes()), vec![0, 1]);
    assert!(gc.is_marking_complete());
}

#[test]
fn each_reachable_node_is_processed_once_from_roots_of_both_kinds() {
    let edges = [(0, 1), (1, 2), (2, 0), (3, 1), (4, 5)];
    for budget in 0..8 {
        let mut gc = graph(7, &edges);
        gc.set_roots(&[3, 0, 42]);
        gc.mark_roots(&[0, 6]);
        let processed = gc.propagate(budget);
        assert_eq!(processed, budget.min(5));
        assert_eq!(gc.alive_nodes().len(), processed);
        assert_eq!(gc.is_marking_complete(), budget >= 5);
    }
}

#[test]
fn finalizer_type_names_a_callback() {
    let count = Arc::new(Mutex::new(0));
    let counter = count.clone();
    let mut callback: Box<Finalizer> = Box::new(move |_id, _node| *counter.lock().unwrap() += 1);
    let mut gc = graph(3, &[]);
    gc.set_finalizer(move |id, node| callback(id, node));
    gc.collect(&[0]);
    assert_eq!(*count.lock().unwrap(), 2);
}

#[test]
fn black_node_added_between_increments_is_kept() {
    let mut gc = graph(2, &[(0, 1)]);
    gc.mark_roots(&[0]);
    gc.propagate(1);
    let added = gc.add_node(LatticeNode::new(Liveness::Alive));
    gc.add_edge(added, 1);
    assert_eq!(gc.collect_incremental(5), (1, true));
    assert_eq!(sorted(gc.alive_nodes()), vec![0, 1, added]);
}

#[test]
fn no_cycle_is_reported_twice() {
    let gc = graph(4, &[(0, 1), (1, 0), (1, 2), (2, 0), (2, 3), (3, 1)]);
    let mut closing: Vec<(usize, usize)> =
        gc.detect_cycles().iter().map(|c| (c[c.len() - 1], c[0])).collect();
    let reported = closing.len();
    closing.sort();
    closing.dedup();
    assert_eq!(closing.len(), reported);
}

#[test]
fn permanent_roots_are_not_finalized() {
    let calls = Arc::new(Mutex::new(Vec::new()));
    let log = calls.clone();
    let mut gc = graph(4, &[(1, 2)]);
    gc.set_roots(&[1]);
    gc.set_finalizer(move |id, _node| log.lock().unwrap().push(id));
    gc.collect(&[]);
    assert_eq!(sorted(calls.lock().unwrap().clone()), vec![0, 3]);
}

#[test]
fn more_roots_keep_more() {
    let edges = [(0, 1), (2, 3), (3, 1), (4, 4)];
    let mut fewer = graph(6, &edges);
    let mut more = graph(6, &edges);
    more.mark_roots(&[5]);
    fewer.collect(&[0]);
    more.collect(&[2, 0, 2, 77]);
    assert_eq!(sorted(fewer.alive_nodes()), vec![0, 1]);
    assert_eq!(sorted(more.alive_nodes()), vec![0, 1, 2, 3]);
    let mut same = graph(6, &edges);
    same.collect(&[0, 2]);
    assert_eq!(sorted(same.alive_nodes()), sorted(more.alive_nodes()));
}

#[test]
fn restarted_marking_forgets_the_earlier_one() {
    let edges = [(0, 1), (1, 2), (3, 4)];
    let mut fresh = graph(5, &edges);
    let mut used = graph(5, &edges);
    used.mark_roots(&[3, 1]);
    used.propagate(2);
    used.mark_roots(&[0, 0, 9]);
    fresh.mark_roots(&[0]);
    for _ in 0..2 {
        for id in 0..5 {
            assert_eq!(used.liveness(id), fresh.liveness(id));
        }
        assert_eq!(used.is_marking_complete(), fresh.is_marking_complete());
        used.propagate(usize::MAX);
        fresh.propagate(usize::MAX);
    }
    assert_eq!(sorted(used.alive_nodes()), vec![0, 1, 2]);
}

#[test]
fn distinct_roots_scan_each_reachable_node_once() {
    let edges = [(0, 1), (0, 2), (1, 2), (2, 0), (2, 3), (3, 3), (4, 0)];
    for budget in 0..7 {
        let mut gc = graph(6, &edges);
        gc.mark_roots(&[0, 3]);
        assert_eq!(gc.propagate(budget), budget.min(4));
        assert_eq!(gc.is_marking_complete(), budget >= 4);
    }
}

#[test]
fn propagation_reaches_children_without_reclaiming() {
    let mut gc = LatticeGC::new();
    let root = gc.add_node(LatticeNode::new(Liveness::Alive));
    let child = gc.add_node(LatticeNode::new(Liveness::MaybeAlive));
    let orphan = gc.add_node(LatticeNode::new(Liveness::Dead));
    gc.add_edge(root, child);
    gc.mark_roots(&[root]);
    assert_eq!(gc.liveness(root), Some(Liveness::MaybeAlive));
    assert_eq!(gc.liveness(child), Some(Liveness::Dead));
    gc.propagate(usize::MAX);
    assert!(gc.is_alive(child));
    assert!(!gc.is_alive(orphan));
    assert_eq!(gc.node_count(), 3);
}

#[test]
fn marking_resets_what_was_alive() {
    let mut gc = graph(3, &[(0, 1)]);
    gc.mark_roots(&[0]);
    gc.propagate(usize::MAX);
    assert_eq!(sorted(gc.alive_nodes()), vec![0, 1]);
    gc.mark_roots(&[2, 55]);
    assert_eq!(sorted(gc.dead_nodes()), vec![0, 1]);
    assert_eq!(gc.propagate(usize::MAX), 1);
    assert_eq!(gc.alive_nodes(), vec![2]);
}

#[test]
fn budget_bounds_the_work() {
    let mut gc = graph(4, &[(0, 1), (0, 2), (2, 3)]);
    gc.mark_roots(&[0]);
    assert_eq!(gc.propagate(0), 0);
    assert_eq!(gc.last_propagated, 0);
    assert_eq!(gc.propagate(2), 2);
    assert_eq!(gc.last_propagated, 2);
    // The worklist is first in, first out: 0 and 1 are scanned, 2 waits.
    assert_eq!(sorted(gc.alive_nodes()), vec![0, 1]);
    assert_eq!(gc.liveness(2), Some(Liveness::MaybeAlive));
    assert_eq!(gc.liveness(3), Some(Liveness::Dead));
    assert!(!gc.is_marking_complete());
    assert_eq!(gc.propagate(10), 2);
    assert!(gc.is_marking_complete());
    assert_eq!(gc.propagate(10), 0);
}

#[test]
fn repeated_roots_are_scanned_each_time() {
    let mut gc = graph(2, &[(0, 1)]);
    gc.mark_roots(&[0, 0, 9]);
    assert_eq!(gc.propagate(usize::MAX), 3);
    assert!(gc.is_alive(1));
}

#[test]
fn liveness_never_drops_during_propagation() {
    let mut gc = graph(6, &[(0, 1), (1, 2), (2, 0), (1, 3), (4, 5)]);
    gc.mark_roots(&[0]);
    let mut before: Vec<Liveness> = (0..6).map(|id| gc.liveness(id).unwrap()).collect();
    while !gc.is_marking_complete() {
        gc.propagate(1);
        let after: Vec<Liveness> = (0..6).map(|id| gc.liveness(id).unwrap()).collect();
        for (a, b) in before.iter().zip(after.iter()) {
            assert!(a <= b);
        }
        before = after;
    }
}

#[test]
fn increments_give_what_a_full_collection_gives() {
    let edges = [(0, 1), (1, 2), (2, 0), (3, 4), (4, 3), (2, 5)];
    let mut full = graph(7, &edges);
    full.collect(&[0]);
    assert_eq!(sorted(full.alive_nodes()), vec![0, 1, 2, 5]);
    assert_eq!(full.node_count(), 4);
    assert_eq!(full.last_propagated, 4);
    for budget in 1..6 {
        let mut gc = graph(7, &edges);
        gc.mark_roots(&[0]);
        let mut finished = false;
        while !finished {
            finished = gc.collect_incremental(budget).1;
        }
        assert_eq!(gc.node_count(), 4);
        assert_eq!(sorted(gc.alive_nodes()), vec![0, 1, 2, 5]);
    }
}

#[test]
fn unfinished_increment_reclaims_nothing() {
    let mut gc = graph(3, &[(0, 1)]);
    gc.mark_roots(&[0]);
    assert_eq!(gc.collect_incremental(1), (1, false));
    assert_eq!(gc.node_count(), 3);
    assert_eq!(gc.collect_incremental(1), (1, true));
    assert_eq!(gc.node_count(), 2);
}

#[test]
fn unreachable_cycle_is_reclaimed() {
    let mut gc = graph(4, &[(0, 1), (2, 3), (3, 2), (2, 0)]);
    gc.collect(&[0]);
    assert_eq!(sorted(gc.alive_nodes()), vec![0, 1]);
    assert_eq!(gc.node_count(), 2);
}

#[test]
fn collecting_again_reclaims_nothing() {
    let calls = Arc::new(Mutex::new(Vec::new()));
    let log = calls.clone();
    let mut gc = graph(4, &[(0, 1), (2, 3)]);
    gc.set_finalizer(move |id, _node| log.lock().unwrap().push(id));
    gc.collect(&[0]);
    assert_eq!(sorted(calls.lock().unwrap().clone()), vec![2, 3]);
    gc.collect(&[0]);
    gc.finalize_dead();
    assert_eq!(calls.lock().unwrap().len(), 2);
    assert_eq!(gc.node_count(), 2);
    assert!(gc.is_alive(0) && gc.is_alive(1));
    assert_eq!(gc.get_node(0).unwrap().edges, vec![1]);
}

#[test]
fn collecting_from_no_roots_reclaims_everything() {
    let mut gc = graph(3, &[(0, 1), (1, 2), (2, 0)]);
    gc.collect(&[]);
    assert_eq!(gc.node_count(), 0);
}

#[test]
fn finalizer_sees_each_dead_node_once_with_its_content() {
    let calls = Arc::new(Mutex::new(Vec::new()));
    let log = calls.clone();
    let mut gc = LatticeGC::new();
    for handle in 0..5u64 {
        gc.add_node(LatticeNode::with_handle(Liveness::Alive, handle * 10, format!("tag{handle}")));
    }
    gc.add_edge(1, 2);
    gc.set_finalizer(|_id, _node| panic!("replaced before any collection"));
    gc.set_finalizer(move |id, node| {
        log.lock().unwrap().push((id, node.liveness, node.gpu_handle, node.tag.clone()));
    });
    gc.collect(&[1]);
    let mut seen = calls.lock().unwrap().clone();
    seen.sort();
    assert_eq!(
        seen,
        vec![
            (0, Liveness::Dead, 0, Some(String::from("tag0"))),
            (3, Liveness::Dead, 30, Some(String::from("tag3"))),
            (4, Liveness::Dead, 40, Some(String::from("tag4"))),
        ]
    );
}

#[test]
fn finalizing_removes_only_the_dead() {
    let mut gc = LatticeGC::new();
    gc.add_node(LatticeNode::new(Liveness::Dead));
    gc.add_node(LatticeNode::new(Liveness::MaybeAlive));
    gc.add_node(LatticeNode::new(Liveness::Alive));
    gc.finalize_dead();
    assert_eq!(gc.node_count(), 2);
    assert_eq!(gc.liveness(1), Some(Liveness::MaybeAlive));
    assert_eq!(gc.liveness(2), Some(Liveness::Alive));
}

#[test]
fn cycles_are_found_in_the_given_order() {
    let gc = graph(4, &[(0, 1), (1, 2), (2, 0), (2, 3), (3, 2)]);
    assert_eq!(gc.detect_cycles_in_order(&[0, 1, 2, 3]), vec![vec![0, 1, 2], vec![2, 3]]);
    assert_eq!(gc.detect_cycles_in_order(&[3, 0, 1, 2]), vec![vec![2, 0, 1], vec![3, 2]]);
    assert_eq!(gc.detect_cycles_in_order(&[]), Vec::<Vec<usize>>::new());
}

#[test]
fn self_reference_is_not_reported() {
    let gc = graph(2, &[(0, 0), (0, 1)]);
    assert!(gc.detect_cycles().is_empty());
}

#[test]
fn every_reported_cycle_closes() {
    let gc = graph(6, &[(0, 1), (1, 0), (1, 2), (2, 3), (3, 1), (4, 5), (5, 4), (3, 4)]);
    let cycles = gc.detect_cycles();
    assert!(!cycles.is_empty());
    for cycle in &cycles {
        assert!(cycle.len() > 1);
        for i in 0..cycle.len() {
            let next = cycle[(i + 1) % cycle.len()];
            assert!(gc.get_node(cycle[i]).unwrap().edges.contains(&next));
        }
    }
}

#[test]
fn references_to_reclaimed_nodes_are_harmless() {
    let mut gc = graph(3, &[(0, 1), (1, 2), (2, 0)]);
    gc.mark_roots(&[0]);
    gc.propagate(1);
    gc.finalize_dead();
    // 2 is gone; 1 still refers to it.
    assert_eq!(gc.node_count(), 2);
    assert!(gc.detect_cycles().is_empty());
    assert_eq!(gc.propagate(usize::MAX), 1);
    assert!(gc.is_alive(1));
}

#[test]
fn edits_between_increments_keep_live_nodes() {
    let mut gc = graph(5, &[(0, 1), (1, 2), (3, 4)]);
    gc.mark_roots(&[0]);
    gc.propagate(1);
    // 0 is black, 1 gray, the others white.
    gc.remove_edge(1, 2);
    gc.add_edge(1, 3);
    let fresh = gc.add_node(LatticeNode::new(Liveness::Dead));
    gc.add_edge(4, fresh);
    while !gc.collect_incremental(1).1 {}
    assert_eq!(sorted(gc.alive_nodes()), vec![0, 1, 3, 4, fresh]);
    assert_eq!(gc.node_count(), 5);
}
