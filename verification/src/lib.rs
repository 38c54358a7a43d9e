//! Core of a snapshot-based, hypervisor-level, coverage-guided fuzzer.
//!
//! A session owns an immutable master snapshot of a guest (registers plus
//! physical memory). Workers fork from the master, run fuzz cases against a
//! copy-on-write view of guest memory, track dirtied pages through a
//! page-modification log, and reset cheaply between cases. Coverage records
//! and the inputs that produced them are deduplicated session-wide and queued
//! for exchange with a central server.

pub mod rng;
pub mod stats;
pub mod regs;
pub mod bytes;
pub mod snapshot;
pub mod vm;
pub mod backing;
pub mod worker;
pub mod walk;
pub mod case;
pub mod proto;
pub mod session;
