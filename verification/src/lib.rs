//! An incremental file-change tracker.
//!
//! The library coalesces a stream of raw filesystem events into two sets of
//! paths — `new` (created or modified) and `removed` — bounded by a
//! configurable change limit, and lets a consumer drain those sets page by
//! page.  The surrounding process (watcher registration, HTTP transport,
//! logging) hands events in and carries responses out as plain values.

pub mod pathset;
pub mod tracker;
pub mod laws;
