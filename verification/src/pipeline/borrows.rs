//! Resolving placeholder `borrows` (`&T`) and `borrows_mut` (`&mut T`) edges from struct
//! fields, parameters and by-reference return types to the borrowed type.
//!
//! Primitives resolve to the `primitive::{name}` nodes. A type with no node in the graph is
//! re-pointed to a synthetic `external::{name}` node of type `external_type`, so that the
//! dependency is kept.

use vstd::prelude::*;

use crate::graph::schema::EdgeType;
use crate::graph::store::Store;
use crate::pipeline::placeholder::{
    placeholders_resolved, resolve_placeholder_edges, type_target_kinds, type_targets,
};

verus! {

/// Resolve placeholder `Borrows` edges (`from_id` → `file::TypeName`) to struct, enum, trait,
/// type alias and primitive nodes, or to an `external::{name}` node.
pub fn resolve_borrows_edges(store: &mut Store)
    requires
        old(store).wf(),
    ensures
        placeholders_resolved(*old(store), *final(store), EdgeType::Borrows.name(), type_target_kinds(), true),
{
    let types = type_targets();
    resolve_placeholder_edges(store, EdgeType::Borrows.as_str(), &types, true);
}

/// `borrows_mut`: the type of the edges of `&mut T` borrows. It is no member of the schema's
/// edge types, so it never parses as one.
pub open spec fn borrows_mut_name() -> Seq<char> {
    "borrows_mut"@
}

/// Resolve placeholder `borrows_mut` edges, as `resolve_borrows_edges` does `Borrows` edges.
pub fn resolve_borrows_mut_edges(store: &mut Store)
    requires
        old(store).wf(),
    ensures
        placeholders_resolved(*old(store), *final(store), borrows_mut_name(), type_target_kinds(), true),
{
    let types = type_targets();
    resolve_placeholder_edges(store, "borrows_mut", &types, true);
}

} // verus!
