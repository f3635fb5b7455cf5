//! A URL shortener's core: deterministic short codes, a hit-counting store,
//! a flat-file encoding of the store, and a per-domain usage report.

pub mod code;
pub mod text;
pub mod store;
pub mod persist;
pub mod metrics;
