//! Orchestration core of a bidirectional bridge between a local shared-memory
//! message bus and a network overlay bus: discovery reconciliation, the
//! per-pattern connection registries and the propagation dispatch loop.

pub mod model;
pub mod registry;
pub mod tunnel;
pub mod types;
