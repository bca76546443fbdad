//! Authoritative state engine of a real-time strategy simulation in which
//! orders may retroactively target a past tick, forcing a bounded span of
//! simulated history to be rewritten and re-derived deterministically.

pub mod plain_enum;
pub mod library;
pub mod orders;
pub mod simulation;
pub mod graph;
pub mod timeline;
pub mod map_loading;
pub mod laws;
