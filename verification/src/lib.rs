//! A verified local-search engine that assigns time-bounded reservations to
//! interchangeable cottages.
//!
//! The problem model, the precomputed feasibility/penalty matrix with its
//! constraint propagation, the incremental occupancy and run-length gap
//! tracking, the four-component cost model, the reversible move log, and the
//! neighbor/repair heuristics are all implemented and specified here; every
//! mutation of the gap timeline is proved to keep it exactly the run-length
//! encoding of the occupancy tables, every speculative move log is proved to
//! undo bit-for-bit, and the accumulated cost deltas are proved equal to the
//! from-scratch cost difference. Input decoding, file output, threads and
//! the floating-point annealing schedule live outside the library and drive
//! it through plain values.
pub mod allocation_penalty;
pub mod cost;
pub mod gap_cost;
pub mod instance;
pub mod modification;
pub mod problem;
pub mod solution;
pub mod upgrade_cost;
