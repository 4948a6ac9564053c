//! Exact sampling from piecewise-constant distributions over one-dimensional
//! arrays and two-dimensional grids of integer weights.
//!
//! Weights are whole numbers, and random numbers and coordinates are fractions of whole
//! numbers, so that what a sampler returns can be stated, and proved, to the last digit.
//!
//! Three samplers over a sequence of weights trade build time against sampling time:
//! [`Inversion1D`] searches the partial sums, [`Alias1D`] and [`ContinuousAlias1D`] look up
//! one slot of an alias table, and [`Hierarchical1D`] walks down a pyramid of sums.
//! [`Reservoir1D`] keeps nothing but the weights and passes over them for every sample.
//! Over a grid, [`Adapter2D`] combines any of them, one for the rows and one within each
//! row, and [`Hierarchical2D`] walks down a pyramid of two-by-two sums.
//!
//! A random number is a [`Ratio`] below one whose denominator fits in 64 bits. Building a
//! sampler fails with a [`distribution::BuildError`] where there are no weights, where all
//! of them are zero, or where they are too many or too large for the arithmetic to stay exact.

pub mod adapter2d;
pub mod alias;
pub mod arith;
pub mod continuous_alias;
pub mod data2d;
pub mod distribution;
pub mod fixed;
pub mod grid;
pub mod hierarchical;
pub mod hierarchical2d;
pub mod inversion;
pub mod narrowing;
pub mod proportion;
pub mod pyramid;
pub mod ratio;
pub mod reservoir;
pub mod sums;
pub mod utils;
pub mod weights;
pub mod worklist;

pub use adapter2d::Adapter2D;
pub use alias::{Alias1D, Alias2D};
pub use continuous_alias::{ContinuousAlias1D, ContinuousAlias2D};
pub use data2d::Data2D;
pub use hierarchical::Hierarchical1D;
pub use hierarchical2d::Hierarchical2D;
pub use inversion::{Inversion1D, Inversion2D};
pub use ratio::Ratio;
pub use reservoir::{Reservoir1D, Reservoir2D};
