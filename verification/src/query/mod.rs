//! Read-only derived views over diagrams and session cross-references.

pub mod flow;
pub mod sequence;
pub mod session_routes;
pub mod flow_paths;
pub mod best_first;
