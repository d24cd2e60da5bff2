//! Verified core of a CPU-core toggling tool.
//!
//! The library turns a compact textual range expression such as `"2,3-5,11"`
//! into a validated list of core indices, resolves the list against the
//! universe of discovered cores, and decides which per-core writes or reads
//! an invocation may perform.  Everything here is verified; the surrounding
//! process (argument handling, the sysfs reads and privileged writes) hands
//! plain values in and out.

pub mod commands;
pub mod cores;
pub mod order;
pub mod ranges;
