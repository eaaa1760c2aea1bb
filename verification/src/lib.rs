//! A constraint-satisfaction puzzle engine.
//!
//! The engine holds a grid of cells subject to uniqueness constraints:
//! no two cells joined by an edge of the constraint graph may share a
//! nonzero value.  Constraint graphs are generated for two topologies, a
//! single planar 9x9 face and six faces stitched along their borders, and
//! the engine validates player edits against the graph and can solve the
//! grid by backtracking search with a minimum-remaining-values heuristic.

pub mod topology;
pub mod engine;
pub mod laws;

pub use engine::{ManifoldEngine, SolveStats};
pub use topology::Topology;
