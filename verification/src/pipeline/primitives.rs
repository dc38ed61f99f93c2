//! Canonical graph nodes for Rust primitive types.
//!
//! The nodes `primitive::{name}` let placeholder edges such as `file::i32` or `file::str`
//! resolve to a node; without them, edges to primitives are dropped during resolution.

use vstd::prelude::*;

use crate::graph::store::{opt_chars_ref, Store};
use crate::text::{chars_of, concat, string_from_chars};

verus! {

/// The Rust primitive type names (those of tree-sitter-rust's `primitive_type`).
pub open spec fn primitive_names() -> Seq<Seq<char>> {
    seq![
        "bool"@, "char"@, "str"@, "u8"@, "u16"@, "u32"@, "u64"@, "u128"@, "usize"@, "i8"@,
        "i16"@, "i32"@, "i64"@, "i128"@, "isize"@, "f32"@, "f64"@,
    ]
}

/// `primitive`: the type of the primitive nodes. It is no member of the schema's node types,
/// so it never parses as one.
pub open spec fn primitive_type_name() -> Seq<char> {
    "primitive"@
}

/// `primitive::`
pub open spec fn primitive_prefix() -> Seq<char> {
    seq!['p', 'r', 'i', 'm', 'i', 't', 'i', 'v', 'e', ':', ':']
}

/// The id of the node of a primitive type.
pub open spec fn primitive_id(name: Seq<char>) -> Seq<char> {
    primitive_prefix() + name
}

/// The node map after adding the nodes of the first `n` primitive names.
pub open spec fn with_primitives(
    start: Map<Seq<char>, (Seq<char>, Option<Seq<char>>)>,
    n: nat,
) -> Map<Seq<char>, (Seq<char>, Option<Seq<char>>)>
    decreases n,
{
    if n == 0 || n > primitive_names().len() {
        start
    } else {
        with_primitives(start, (n - 1) as nat).insert(
            primitive_id(primitive_names()[n - 1]),
            (primitive_type_name(), Some(primitive_names()[n - 1])),
        )
    }
}

/// After the first `n` names, each of them is a primitive node named after itself.
proof fn lemma_with_primitives(start: Map<Seq<char>, (Seq<char>, Option<Seq<char>>)>, n: nat, k: int)
    requires
        n <= primitive_names().len(),
        0 <= k < n,
    ensures
        with_primitives(start, n).contains_key(primitive_id(primitive_names()[k])),
        with_primitives(start, n)[primitive_id(primitive_names()[k])] == (
            primitive_type_name(),
            Some(primitive_names()[k]),
        ),
    decreases n,
{
    let last = primitive_names()[n - 1];
    if primitive_id(last) == primitive_id(primitive_names()[k]) {
        assert(last == primitive_names()[k]) by {
            assert(last =~= primitive_id(last).skip(11));
            assert(primitive_names()[k] =~= primitive_id(primitive_names()[k]).skip(11));
        }
    } else {
        lemma_with_primitives(start, (n - 1) as nat, k);
    }
}

/// Create a node for each Rust primitive type: id `primitive::{name}`, type `primitive`,
/// payload the name. Other nodes and all edges are kept.
pub fn create_primitive_nodes(store: &mut Store)
    requires
        old(store).wf(),
    ensures
        final(store).wf(),
        final(store).node_map() == with_primitives(old(store).node_map(), primitive_names().len()),
        forall|k: int|
            0 <= k < primitive_names().len() ==> final(store).node_map().contains_key(
                #[trigger] primitive_id(primitive_names()[k]),
            ) && final(store).node_map()[primitive_id(primitive_names()[k])] == (
                primitive_type_name(),
                Some(primitive_names()[k]),
            ),
        final(store).edge_rows() == old(store).edge_rows(),
        final(store).dead_rows() == old(store).dead_rows(),
{
    let names: [&str; 17] = [
        "bool", "char", "str", "u8", "u16", "u32", "u64", "u128", "usize", "i8", "i16", "i32",
        "i64", "i128", "isize", "f32", "f64",
    ];
    assert(names@.map_values(|s: &str| s@) =~= primitive_names());
    let prefix = chars_of("primitive::");
    proof {
        reveal_strlit("primitive::");
        assert(prefix@ =~= primitive_prefix());
    }
    let mut i: usize = 0;
    while i < 17
        invariant
            i <= 17,
            names@.map_values(|s: &str| s@) == primitive_names(),
            prefix@ == primitive_prefix(),
            store.wf(),
            store.node_map() == with_primitives(old(store).node_map(), i as nat),
            store.edge_rows() == old(store).edge_rows(),
            store.dead_rows() == old(store).dead_rows(),
        decreases 17 - i,
    {
        let name = names[i];
        assert(name@ == primitive_names()[i as int]);
        let id_chars = concat(prefix.as_slice(), chars_of(name).as_slice());
        let id = string_from_chars(id_chars.as_slice());
        store.put_node_row(id.as_str(), "primitive", Some(name));
        i = i + 1;
    }
    proof {
        assert forall|k: int| 0 <= k < primitive_names().len() implies store.node_map().contains_key(
            #[trigger] primitive_id(primitive_names()[k]),
        ) && store.node_map()[primitive_id(primitive_names()[k])] == (
            primitive_type_name(),
            Some(primitive_names()[k]),
        ) by {
            lemma_with_primitives(old(store).node_map(), 17, k);
        }
    }
}

} // verus!
