//! Resolving placeholder `Owns` edges (item → type by value, e.g. struct fields and
//! function parameters).
//!
//! Primitives resolve to the `primitive::{name}` nodes; a type with no node in the graph
//! (a generic parameter, a type from another crate) loses its edge.

use vstd::prelude::*;

use crate::graph::schema::EdgeType;
use crate::graph::store::Store;
use crate::pipeline::placeholder::{
    placeholders_resolved, resolve_placeholder_edges, type_target_kinds, type_targets,
};

verus! {

/// Resolve placeholder `Owns` edges (`from_id` → `file::TypeName`) to struct, enum, trait,
/// type alias and primitive nodes; an edge that resolves to none is removed.
pub fn resolve_owns_edges(store: &mut Store)
    requires
        old(store).wf(),
    ensures
        placeholders_resolved(*old(store), *final(store), EdgeType::Owns.name(), type_target_kinds(), false),
{
    let types = type_targets();
    resolve_placeholder_edges(store, EdgeType::Owns.as_str(), &types, false);
}

} // verus!
