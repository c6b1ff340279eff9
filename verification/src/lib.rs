//! Route planning for a small freight network: shortest paths over an
//! adjacency matrix, vehicle assignment and movement timelines.

pub mod text;
pub mod model;
pub mod paths;
pub mod search;
pub mod network;
pub mod route;
pub mod timeline;
pub mod planner;
pub mod laws;
