//! Building blocks of a Monte Carlo pricer for path-dependent options.
//!
//! The verified part covers the integer random-number pipeline (a Park-Miller
//! generator, vector streams over it and an antithetic decorator), the
//! bookkeeping of the convergence table, the partition of paths among
//! workers and the payoff registry.
pub mod anti_thetic;
pub mod convergence_table;
pub mod partition;
pub mod park_miller;
pub mod payoff_factory;
pub mod random;
