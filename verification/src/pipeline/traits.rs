//! Trait and impl mapping: placeholder `ImplementsTrait` edges (impl → trait) are resolved to
//! trait nodes.

use vstd::prelude::*;

use crate::graph::schema::{EdgeType, NodeType};
use crate::graph::store::Store;
use crate::pipeline::placeholder::{names_v, placeholders_resolved, resolve_placeholder_edges};

verus! {

/// Resolve placeholder `ImplementsTrait` edges (`impl_id` → `file::TraitName`) to trait nodes,
/// by same-file, import-based, then global lookup; unresolved edges are removed.
pub fn resolve_impl_trait_edges(store: &mut Store)
    requires
        old(store).wf(),
    ensures
        placeholders_resolved(
            *old(store),
            *final(store),
            EdgeType::ImplementsTrait.name(),
            seq![NodeType::Trait.name()],
            false,
        ),
{
    let types = [NodeType::Trait.as_str()];
    assert(names_v(types@) =~= seq![NodeType::Trait.name()]);
    resolve_placeholder_edges(store, EdgeType::ImplementsTrait.as_str(), &types, false);
}

} // verus!
