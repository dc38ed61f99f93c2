//! Graph-powered Rust code intelligence: the verified core.

pub mod claude;
pub mod config;
pub mod graph;
pub mod ops;
pub mod pipeline;
pub mod search;
pub mod text;
pub mod tools;
pub mod watch;
