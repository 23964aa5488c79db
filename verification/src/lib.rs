pub mod api;
pub mod graph;
pub mod models;
pub mod publish;
pub mod refs;
pub mod registry;
pub mod resolver;
