//! Diagram model, mutation operations, graph queries and text rendering for Nereid.

pub mod order;
pub mod sorted_map;
pub mod model;
pub mod query;
pub mod chars;
pub mod ops;
pub mod render;
