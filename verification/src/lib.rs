//! Stride partitioning of the TCP port space for a pool of scan workers,
//! together with the collection and ordering of what the workers find.

pub mod args;
pub mod collector;
pub mod config;
pub mod partition;
pub mod report;
pub mod sweep;
pub mod task;
