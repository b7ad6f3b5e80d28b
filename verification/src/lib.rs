//! Contact-graph routing primitives: contact managers that book transmission
//! windows on time-varying links, hop selection over a contact multigraph, and
//! the routers built on top of them.
pub mod types;
pub mod bundle;
pub mod contact;
pub mod contact_manager;
pub mod contact_plan;
pub mod distance;
pub mod errors;
pub mod multigraph;
pub mod node;
pub mod node_manager;
pub mod pathfinding;
pub mod route_stage;
pub mod route_storage;
pub mod routing;
