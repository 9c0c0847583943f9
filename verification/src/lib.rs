//! A quadratic-funding allocation engine.
//!
//! A funding round owns a set of projects; contributors send amounts to
//! projects; each project's ideal matching subsidy is the square of the sum
//! of the square roots of its individual contributions. When the round's
//! matching pool cannot cover the sum of the ideal subsidies, every subsidy
//! is rescaled by the common factor `pool / total`, so the rescaled amounts
//! exhaust the pool exactly.
//!
//! Amounts are whole currency units (`u64`). Square roots are taken to whole
//! precision (the floor square root, exact on perfect squares), and the
//! capital-constrained rescale is kept as an exact rational scale, so every
//! arithmetic fact stated here is exact rather than approximate.

pub mod errors;
pub mod math;
pub mod project;
pub mod round;
