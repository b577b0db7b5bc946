//! Computations of a core-scaling network benchmark: CPU-list parsing and
//! selection, command-line flags, the anti-OOM guard, the UDP payload header,
//! per-stream loss accounting from sequence gaps, and send-rate pacing.
pub mod text;
pub mod affinity;
pub mod args;
pub mod guard;
pub mod net;
