//! Garbage collection for GPU object graphs whose objects carry a ternary
//! liveness: `+1` (definitely alive), `0` (maybe alive) or `-1` (definitely
//! dead). The three values are the colors of tri-color marking:
//!
//! | Ternary | Tri-color | Meaning              |
//! |---------|-----------|----------------------|
//! | +1      | Black     | Reachable, scanned   |
//! |  0      | Gray      | Reachable, unscanned |
//! | -1      | White     | Unreachable / dead   |
//!
//! Liveness is a join-semilattice (`Dead` below `MaybeAlive` below `Alive`) and
//! marking only ever moves a node up in it.
pub mod back_edges;
mod call_log;
pub mod cycles;
mod finalizer;
pub mod gc;
pub mod graph;
mod ids;
pub mod laws;
pub mod liveness;
pub mod marking;
pub mod node;
pub mod state;

pub use finalizer::Finalizer;
pub use gc::LatticeGC;
pub use liveness::Liveness;
pub use node::LatticeNode;
