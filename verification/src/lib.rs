//! Core logic of a small multi-core kernel: virtual memory, the process
//! table and its lifecycle, round-robin scheduling, trap classification,
//! per-core interrupt nesting and the boot ordering.
//!
//! Every function is sequential: a caller holds the lock that guards the
//! value it hands in by `&mut`, so each call is one atomic step.

pub mod boot;
pub mod kernel;
pub mod percpu;
pub mod proc;
pub mod runner;
pub mod sched;
pub mod trap;
pub mod vm;
