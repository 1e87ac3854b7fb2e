//! Core of a multi-agent pedestrian simulator: the parts of the per-tick
//! pipeline that are decided on indices, orders and counts.
//!
//! - `neighborhood` picks, for each agent, its nearest neighbours from
//!   order-preserving distance keys.
//! - `navmesh` holds the triangulation's topology, renders its faces and
//!   walks it to locate a point from the side of each edge the point lies on.
//! - `agents` is the columnar agent store, whose columns always have one
//!   entry per agent.
//! - `scenario` holds the scenario without agents.
pub mod agents;
pub mod navmesh;
pub mod neighborhood;
pub mod scenario;
