//! Scoped parallel computation over shared, read-only data: the life cycle of
//! a bounded scope, the computations its tasks perform, and the aliasing rule
//! that makes sharing safe.

pub mod aliasing;
pub mod dataset;
pub mod laws;
pub mod run;
pub mod scope;
