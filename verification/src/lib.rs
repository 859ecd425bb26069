//! Monitor of CPU load of process subtrees.
//!
//! The library computes, from two snapshots of per-process scheduler-tick
//! counters, the number of ticks each process subtree consumed between the
//! snapshots, and provides the configuration language and wire codec used by
//! the daemon and its clients. All process enumeration, socket handling and
//! floating-point arithmetic live outside the library; the library works on
//! plain integers, strings and IEEE-754 bit patterns.

pub mod codec;
pub mod config;
pub mod engine;
pub mod forest;
pub mod laws;
pub mod numeric;
pub mod pidmap;
pub mod snapshot;
pub mod sums;
