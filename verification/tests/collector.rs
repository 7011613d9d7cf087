use std::sync::{Arc, Mutex};
use ternary_lattice_gc::{LatticeGC, LatticeNode, Liveness};

#[test]
fn test_liveness_ordering() {
    assert!(Liveness::Dead < Liveness::MaybeAlive);
    assert!(Liveness::MaybeAlive < Liveness::Alive);
    assert_eq!(Liveness::Dead.join(Liveness::Alive), Liveness::Alive);
    assert_eq!(Liveness::Dead.join(Liveness::MaybeAlive), Liveness::MaybeAlive);
    assert_eq!(Liveness::MaybeAlive.join(Liveness::MaybeAlive), Liveness::MaybeAlive);
}

#[test]
fn test_liveness_from_i8() {
    assert_eq!(Liveness::from_i8(-1), Liveness::Dead);
    assert_eq!(Liveness::from_i8(0), Liveness::MaybeAlive);
    assert_eq!(Liveness::from_i8(1), Liveness::Alive);
    assert_eq!(Liveness::from_i8(-42), Liveness::Dead);
    assert_eq!(Liveness::from_i8(99), Liveness::Alive);
}

#[test]
fn test_tri_color_names() {
    assert_eq!(Liveness::Dead.color_name(), "white");
    assert_eq!(Liveness::MaybeAlive.color_name(), "gray");
    assert_eq!(Liveness::Alive.color_name(), "black");
}

#[test]
fn test_basic_mark_and_sweep() {
    let mut gc = LatticeGC::new();
    let root = gc.add_node(LatticeNode::new(Liveness::Dead));
    let child1 = gc.add_node(LatticeNode::new(Liveness::Dead));
    let child2 = gc.add_node(LatticeNode::new(Liveness::Dead));
    let orphan = gc.add_node(LatticeNode::new(Liveness::Dead));

    gc.add_edge(root, child1);
    gc.add_edge(root, child2);

    gc.collect(&[root]);

    assert!(gc.is_alive(root));
    assert!(gc.is_alive(child1));
    assert!(gc.is_alive(child2));
    assert!(!gc.is_alive(orphan)); // reclaimed
    assert_eq!(gc.node_count(), 3); // orphan was removed
}

#[test]
fn test_incremental_collection() {
    let mut gc = LatticeGC::new();
    let root = gc.add_node(LatticeNode::new(Liveness::Dead));
    let a = gc.add_node(LatticeNode::new(Liveness::Dead));
    let b = gc.add_node(LatticeNode::new(Liveness::Dead));
    let c = gc.add_node(LatticeNode::new(Liveness::Dead));

    gc.add_edge(root, a);
    gc.add_edge(a, b);
    gc.add_edge(b, c);

    gc.mark_roots(&[root]);

    // Process one node at a time
    let (n, done) = gc.collect_incremental(1);
    assert_eq!(n, 1);
    assert!(!done);

    // Continue until done
    let mut total = n;
    while !gc.is_marking_complete() {
        let (n, _) = gc.collect_incremental(1);
        total += n;
    }
    gc.finalize_dead();
    assert_eq!(total, 4); // root, a, b, c
    assert!(gc.is_alive(c));
}

#[test]
fn test_cycle_detection_simple() {
    let mut gc = LatticeGC::new();
    let a = gc.add_node(LatticeNode::new(Liveness::Alive));
    let b = gc.add_node(LatticeNode::new(Liveness::Alive));
    let c = gc.add_node(LatticeNode::new(Liveness::Alive));

    gc.add_edge(a, b);
    gc.add_edge(b, c);
    gc.add_edge(c, a); // cycle: a -> b -> c -> a

    let cycles = gc.detect_cycles();
    assert!(!cycles.is_empty(), "should detect at least one cycle");
}

#[test]
fn test_no_cycle_in_dag() {
    let mut gc = LatticeGC::new();
    let a = gc.add_node(LatticeNode::new(Liveness::Alive));
    let b = gc.add_node(LatticeNode::new(Liveness::Alive));
    let c = gc.add_node(LatticeNode::new(Liveness::Alive));

    gc.add_edge(a, b);
    gc.add_edge(b, c);
    // No back edge: a DAG

    let cycles = gc.detect_cycles();
    assert!(cycles.is_empty(), "DAG should have no cycles");
}

#[test]
fn test_finalizer_callback() {
    let finalized = Arc::new(Mutex::new(Vec::new()));
    let finalized_clone = finalized.clone();

    let mut gc = LatticeGC::new();
    gc.set_finalizer(move |id, node| {
        finalized_clone.lock().unwrap().push((id, node.gpu_handle));
    });

    let root = gc.add_node(LatticeNode::with_handle(Liveness::Dead, 100, "texture"));
    let orphan = gc.add_node(LatticeNode::with_handle(Liveness::Dead, 200, "buffer"));

    gc.collect(&[root]);

    let fins = finalized.lock().unwrap();
    assert_eq!(fins.len(), 1);
    assert_eq!(fins[0].0, orphan);
    assert_eq!(fins[0].1, 200);
}

#[test]
fn test_lattice_join_monotonicity() {
    // Liveness only increases
    let mut state = Liveness::Dead;
    state = state.join(Liveness::MaybeAlive);
    assert_eq!(state, Liveness::MaybeAlive);
    state = state.join(Liveness::Alive);
    assert_eq!(state, Liveness::Alive);
    // Joining with lower doesn't regress
    state = state.join(Liveness::Dead);
    assert_eq!(state, Liveness::Alive);
}

#[test]
fn test_deep_graph_propagation() {
    let mut gc = LatticeGC::new();
    let root = gc.add_node(LatticeNode::new(Liveness::Dead));

    // Build a chain of 100 nodes
    let mut prev = root;
    for _ in 0..100 {
        let next = gc.add_node(LatticeNode::new(Liveness::Dead));
        gc.add_edge(prev, next);
        prev = next;
    }

    gc.collect(&[root]);
    assert_eq!(gc.node_count(), 101); // all alive, none reclaimed
    assert!(gc.is_alive(prev)); // last node reachable
}

#[test]
fn test_node_edges() {
    let mut node = LatticeNode::new(Liveness::Alive);
    node.add_edge(1);
    node.add_edge(2);
    node.add_edge(1); // duplicate: ignored
    assert_eq!(node.edges, vec![1, 2]);

    node.remove_edge(1);
    assert_eq!(node.edges, vec![2]);
}
