//! Numeric primitives for sampled univariate functions: a 2-dimensional
//! point type and an ordered sample store with bracketing-interval lookup.

pub mod order;
pub mod point2;
pub mod sampled_fn;
