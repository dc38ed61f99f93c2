//! Resolving placeholder `ExpandsTo` edges (macro invocation site → macro definition).

use vstd::prelude::*;

use crate::graph::schema::{EdgeType, NodeType};
use crate::graph::store::Store;
use crate::pipeline::placeholder::{names_v, placeholders_resolved, resolve_placeholder_edges};

verus! {

/// Resolve placeholder `ExpandsTo` edges (`from_id` → `file::macro_name`) to macro definition
/// nodes; unresolved edges are removed.
pub fn resolve_expands_to_edges(store: &mut Store)
    requires
        old(store).wf(),
    ensures
        placeholders_resolved(
            *old(store),
            *final(store),
            EdgeType::ExpandsTo.name(),
            seq![NodeType::Macro.name()],
            false,
        ),
{
    let types = [NodeType::Macro.as_str()];
    assert(names_v(types@) =~= seq![NodeType::Macro.name()]);
    resolve_placeholder_edges(store, EdgeType::ExpandsTo.as_str(), &types, false);
}

} // verus!
