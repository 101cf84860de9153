//! A parallel map over a vector: the pieces from which a caller maps a pure
//! function over an ordered input, either directly on the calling thread or
//! chunk by chunk on a bounded number of workers, and gets the outputs back
//! in the order of the inputs.
//!
//! Everything here is plain data in and plain data out. Starting the workers
//! and carrying their index-tagged results back is the caller's business;
//! what each step must compute, and why the assembled result is the same
//! whichever way the work was done, is stated and proved here.

pub mod chunks;
pub mod collect;
pub mod direct;
pub mod even;
pub mod model;
pub mod plan;
pub mod sharded;
pub mod worker;
