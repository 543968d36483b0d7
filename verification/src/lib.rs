//! Online rectangle packing under a turn budget.
//!
//! Items arrive in a fixed order and are placed one by one on a surface
//! whose bounding box should stay small. [`surface`] holds the placement
//! surface and the evaluator that picks an item's rotation, on the geometry
//! of [`geometry`]. [`solver`] searches over placement decisions with a beam
//! ([`beam`]) of the best surfaces, ranked by greedy playouts, filtered for
//! repeated decision sequences ([`hashing`]) and branching at random
//! ([`random`]); it then submits its plans turn by turn to the judge of
//! [`judge`].

pub mod beam;
pub mod geometry;
pub mod hashing;
pub mod judge;
pub mod random;
pub mod solver;
pub mod surface;
