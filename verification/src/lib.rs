pub mod addr;
pub mod client;
pub mod config;
pub mod ids;
pub mod laws;
pub mod model;
pub mod nat_traversal;
pub mod node;
pub mod strutil;
pub mod types;
pub mod ui_state;
