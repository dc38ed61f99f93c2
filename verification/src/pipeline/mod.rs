//! Analysis pipeline: the phases that turn Rust source into graph nodes and edges.

pub mod ast;
pub mod borrows;
pub mod calls;
pub mod dead_code;
pub mod expands;
pub mod git_coupling;
pub mod modules;
pub mod owns;
pub mod placeholder;
pub mod primitives;
pub mod traits;
pub mod pipeline_run;
