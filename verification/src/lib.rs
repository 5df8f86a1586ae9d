//! Banking-stage jitter probes.
//!
//! Measurement primitives for timing a banking-stage / consumer hot path against Alpenglow
//! Votor's per-round budget, and for sorting the timing jitter into CPU-scheduling delay,
//! I/O stall and allocator pause.
//!
//!   * [`timing_alloc`] -- the meter of a timing allocator (true malloc/free pause time).
//!   * [`proc_probe`]   -- Linux `/proc` probes: per-thread schedstat, context switches,
//!     sleep location, thread names and page faults.
//!   * [`wchan`]        -- the tally of an off-CPU sampler.
//!   * [`stats`]        -- percentile summaries for latency vectors.
//!   * [`votor`]        -- the Alpenglow Votor timing budget and its report.
//!
//! [`text`] and [`sort`] hold what these share: text as sequences of characters, and
//! ascending order.

pub mod proc_probe;
pub mod sort;
pub mod stats;
pub mod text;
pub mod timing_alloc;
pub mod votor;
pub mod wchan;
