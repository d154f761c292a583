//! A cycle-level simulator for a 32-bit RISC load/store instruction set.
//!
//! The crate models three cooperating pieces: a word-indexed backing memory
//! with byte-accurate accessors, a direct-mapped write-allocate/write-through
//! cache that signals misses through retryable stall results, and a per-core
//! interpreter that executes one instruction per non-stalled cycle.  A thin
//! driver advances every core and every cache once per tick.

pub mod binary;
pub mod cache;
pub mod isa;
pub mod memory;
pub mod simulator;
pub mod register_file;
pub mod trap;
