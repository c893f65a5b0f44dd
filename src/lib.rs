//! Prime counting by a segmented Sieve of Eratosthenes, split into work units
//! that independent workers can sieve and that a coordinator merges back.

pub mod number;
pub mod sieve;
pub mod partition;
pub mod engine;
pub mod wire;
pub mod socket;
pub mod sched;
