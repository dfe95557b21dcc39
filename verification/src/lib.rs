//! A discrete-time simulator of message delivery over an ad-hoc wireless
//! mesh of battery-powered smartphones and fixed base stations.
//!
//! The simulator models asymmetric radio reachability, per-node energy
//! consumption, a scripted area-wide disaster event, a one-shot compensation
//! payout, and two competing forwarding strategies (naive flooding versus
//! battery-aware swarm relaying), and compares their energy and delivery
//! efficiency.
//!
//! All quantities are integer-valued: positions and radio ranges are grid
//! units, energy and costs are abstract energy units. Reachability is decided
//! on squared distances, so no rounding is involved anywhere.

pub mod arith;
pub mod bench;
pub mod config;
pub mod engine;
pub mod node;
pub mod packet;
pub mod policy;
pub mod population;
mod rng;
pub mod sim;
pub mod targets;
pub mod topology;
