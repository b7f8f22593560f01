//! Bootstrap and liveness logic for a small fixed-size compute cluster.
//!
//! An orchestrator health-gates a configured set of nodes, pushes the full
//! ordered peer list to each of them, and then heartbeats them forever; each
//! node holds the pushed membership in a single atomic slot and heartbeats
//! every peer it was told about. This crate holds the decision logic and the
//! wire format of that exchange; the HTTP transport around it lives outside.

pub mod codec;
pub mod distribute;
pub mod gate;
pub mod heartbeat;
pub mod node;
pub mod numbers;
pub mod records;
pub mod text;

pub use records::MpcNodeAddresses;
