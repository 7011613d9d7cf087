# ternary_lattice_gc

A garbage collector for GPU object graphs, verified with Verus. Every object
carries a ternary liveness: dead (`-1`, white), maybe alive (`0`, gray) or alive
(`+1`, black). The three states form a join-semilattice, and marking only ever
moves an object up in it.

```rust
use ternary_lattice_gc::{LatticeGC, LatticeNode, Liveness};

let mut gc = LatticeGC::new();
let texture = gc.add_node(LatticeNode::with_handle(Liveness::Dead, 0x1000, "texture"));
let sampler = gc.add_node(LatticeNode::with_handle(Liveness::Dead, 0x2000, "sampler"));
let orphan = gc.add_node(LatticeNode::with_handle(Liveness::Dead, 0x3000, "buffer"));
gc.add_edge(texture, sampler);

gc.collect(&[texture]);

assert!(gc.is_alive(texture) && gc.is_alive(sampler));
assert!(!gc.is_alive(orphan));
```

| Module      | Content                                                         |
|-------------|-----------------------------------------------------------------|
| `liveness`  | the lattice and its laws                                        |
| `node`      | graph nodes and their edges                                     |
| `graph`     | the graph as a map; paths and reachability                      |
| `marking`   | tri-color marking as a function, with its laws                  |
| `state`     | the mathematical state of the collector                         |
| `gc`        | the collector                                                   |
| `finalizer` | callbacks for dead objects                                      |
| `cycles`    | depth-first search for reference cycles: sound and complete     |
| `laws`      | laws of whole collections                                       |

A collection starts from the roots that it is given and from the permanent roots
(`set_roots`), which survive every collection. A root of both kinds is queued
once.

What is proved: a full collection, or an incremental one at whatever pace, keeps
exactly the objects that can be reached from the roots of both kinds; each
reclaimed object goes on the finalizer's record once, and the callback returned
from a call with that object; liveness never drops during propagation; no black
object ever refers to a white one while the graph is left alone; from roots
without repeats each reachable object is scanned once, and the worklist never
holds more entries than there are objects; cycle detection reports only reference
cycles, and reports one whenever there is one. That a recorded finalizer call was
made once and not more often is by inspection of one line in `finalizer`.

The graph may be edited between the increments of one collection. There is no
write barrier: a new reference from a black object to a white one, or a new gray
object, which no scan visits, can hide a live object from the collector.
`marking::lemma_edits_between_increments` says which edits are safe, and
`laws::lemma_safe_marking_loses_nothing` that after these no object that can be
reached from the roots is reclaimed.
