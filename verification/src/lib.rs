//! digraphx - negative-cycle detection and parametric cycle-ratio
//! optimization for directed graphs.
//!
//! The core is a negative-cycle finder in the style of Howard's policy
//! iteration (Bellman-Ford relaxation passes alternated with lazy cycle
//! detection in the predecessor functional graph), a bidirectional variant
//! of it, and a parametric ratio engine layered on top that repeatedly
//! re-weights the edges at a trial ratio and tightens the ratio with every
//! negative cycle it exposes.
//!
//! Nodes are indices `0 .. n` and edges carry sequential ids, so the
//! adjacency view, the distance vector and the per-edge weights are plain
//! vectors; a caller starts the distance vector at its chosen values
//! (typically zero, the default the algorithms assume for nodes it has no
//! estimate for).  Weights, distances and ratios are exact 64-bit
//! rationals, and every operation on them either returns the exact value
//! or reports that it does not fit.

pub mod rational;
pub mod digraph;
pub mod neg_cycle;
pub mod neg_cycle_q;
pub mod parametric;
pub mod min_cycle_ratio;
pub mod min_parametric_q;

pub use rational::Rational;
pub use digraph::DiGraph;
pub use neg_cycle::NegCycleFinder;
pub use neg_cycle_q::NegCycleFinderQ;
pub use parametric::MaxParametricSolver;
pub use parametric::ParametricAPI;
pub use min_cycle_ratio::MinCycleRatioSolver;
pub use min_cycle_ratio::CycleRatioAPI;
pub use min_cycle_ratio::set_default;
pub use min_parametric_q::MinParametricQSolver;
pub use min_parametric_q::MinParametricAPI;
