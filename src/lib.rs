//! Segmented download engine: range planning, the per-segment retry state
//! machine with consistent progress counters, and response-metadata parsing.
pub mod ranges;
pub mod segment;
pub mod download;
pub mod metadata;
