//! Graph model, storage and queries.

pub mod order;
pub mod query;
pub mod reach;
pub mod schema;
pub mod store;
