//! Directory cache and navigation-state engine for a miller-columns file
//! browser.
//!
//! The engine keeps an asynchronously populated cache of directory listings
//! keyed by path, fences stale load results with per-path generation
//! counters, deduplicates concurrent loads, and drives the column stack
//! (ancestors, current, preview) that a renderer consumes. All filesystem
//! reads and terminal output live outside this crate; the engine works on
//! plain values and returns the load jobs it wants performed.

pub mod cache;
pub mod entry;
pub mod listing;
pub mod nav;
pub mod path;
pub mod queue;
pub mod sort;
pub mod status;
