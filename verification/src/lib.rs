//! An exact solver for the symmetric travelling salesman problem.
//!
//! The solver combines a Held–Karp Lagrangian-relaxation lower bound, built
//! from minimum 1-trees, with a best-first branch-and-bound search.  All
//! arithmetic is exact fixed-point integer arithmetic, so every bound the
//! search manipulates is reproducible and amenable to proof.

use vstd::prelude::*;

mod sums;
mod instance;
mod node;
mod onetree;
mod heldkarp;
mod tour;
mod search;
mod laws;

pub use heldkarp::compute_held_karp;
pub use heldkarp::lemma_perfect_tree_bound;
pub use heldkarp::relaxed;
pub use instance::dist_sq;
pub use instance::is_rounded_sqrt;
pub use instance::lemma_rounded_sqrt_unique;
pub use instance::valid_coords;
pub use instance::valid_cost_matrix;
pub use instance::SolveError;
pub use instance::TspInstance;
pub use laws::lemma_blocked_excludes_tours;
pub use laws::lemma_constant_cost_tour;
pub use laws::lemma_cut_blocks_tours;
pub use laws::lemma_constant_cost_unique;
pub use laws::lemma_incumbent_bound_matches_cost;
pub use laws::lemma_some_branch_keeps_tour;
pub use laws::lemma_starved_zero_blocks_tours;
pub use laws::lemma_three_node_cost;
pub use laws::lemma_three_node_cost_unique;
pub use node::Node;
pub use onetree::compute_one_tree;
pub use laws::tour_respects;
pub use laws::tour_uses_edge;
pub use onetree::excluded_cut;
pub use onetree::nothing_excluded;
pub use onetree::one_tree_blocked;
pub use onetree::zero_vertex_starved;
pub use onetree::one_tree_bound_eq;
pub use onetree::one_tree_degrees;
pub use onetree::cheapest_pair;
pub use onetree::rooted_three_cycle;
pub use onetree::round_to_scale;
pub use search::solve;
pub use sums::pcost_sum;
pub use tour::extract_tour;
pub use tour::is_tour_order;
pub use tour::orbit;
pub use tour::parent_encodes_cycle;
pub use tour::tour_cost;
pub use tour::Tour;

verus! {

/// Largest node count an instance may have.  Together with the cost cap it
/// keeps every quantity of the solver comfortably inside `i64`.
pub const MAX_N: usize = 512;

/// Largest admissible entry of a cost matrix.
pub const MAX_COST: i64 = 1048576;

/// Largest admissible magnitude of a node coordinate; rounded Euclidean
/// distances between such coordinates stay below `MAX_COST`.
pub const COORD_LIMIT: i64 = 262144;

/// Fixed-point scale for Lagrangian multipliers and lower bounds: one cost
/// unit corresponds to `SCALE` fixed-point units.
pub const SCALE: i64 = 1024;

/// Cap on the magnitude of a single Lagrangian multiplier, in fixed-point
/// units.
pub const PI_LIMIT: i64 = 1099511627776;

/// Bound on the magnitude of one adjusted edge cost, in fixed-point units.
pub const CW_LIMIT: i64 = MAX_COST * SCALE + 2 * PI_LIMIT;

/// Bound on the magnitude of a 1-tree lower bound, in fixed-point units.
pub const LB_LIMIT: i64 = 512 * CW_LIMIT + SCALE;

} // verus!
