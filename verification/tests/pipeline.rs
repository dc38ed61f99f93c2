use ferrograph::graph::query::Query;
use ferrograph::graph::schema::{EdgeType, NodeId, NodeType};
use ferrograph::graph::store::Store;
use ferrograph::pipeline::borrows::{resolve_borrows_edges, resolve_borrows_mut_edges};
use ferrograph::pipeline::calls::{build_call_graph, canonical_name};
use ferrograph::pipeline::expands::resolve_expands_to_edges;
use ferrograph::pipeline::owns::resolve_owns_edges;
use ferrograph::pipeline::primitives::create_primitive_nodes;
use ferrograph::pipeline::traits::resolve_impl_trait_edges;

fn id(s: &str) -> NodeId {
    NodeId::new(s)
}

fn targets(store: &Store) -> Vec<String> {
    Query::all_edges(store).into_iter().map(|e| e.to_id).collect()
}

fn count_nodes_with_id(store: &Store, wanted: &str) -> usize {
    Query::all_nodes(store).iter().filter(|r| r.id == wanted).count()
}

#[test]
fn resolve_borrows_edges_resolves_same_file_placeholder() {
    let mut store = Store::new_memory();
    let path = "src/lib.rs";
    store.put_node(&id(&format!("{path}#8:1")), &NodeType::Struct, Some("Point"));
    store.put_node(&id(&format!("{path}#12:1")), &NodeType::Function, Some("borrow_point"));
    store.put_edge(&id(&format!("{path}#12:1")), &id(&format!("{path}::Point")), &EdgeType::Borrows);
    resolve_borrows_edges(&mut store);
    let edges = Query::all_edges(&store);
    assert_eq!(edges.len(), 1);
    let to_str = edges[0].to_id.clone();
    assert!(to_str.contains('#'), "edge should point to real type id (path#line:col), got {to_str}");
    assert_eq!(to_str, format!("{path}#8:1"));
}

#[test]
fn resolve_borrows_edges_resolves_primitive_placeholder() {
    let mut store = Store::new_memory();
    create_primitive_nodes(&mut store);
    let path = "src/lib.rs";
    store.put_node(&id(&format!("{path}#5:1")), &NodeType::Function, Some("f"));
    store.put_edge(&id(&format!("{path}#5:1")), &id(&format!("{path}::str")), &EdgeType::Borrows);
    resolve_borrows_edges(&mut store);
    let edges = Query::all_edges(&store);
    assert_eq!(edges.len(), 1, "borrows edge to str should resolve to primitive::str");
    let to_str = edges[0].to_id.clone();
    assert_eq!(to_str, "primitive::str", "edge should point to primitive::str, got {to_str}");
}

#[test]
fn resolve_borrows_edges_retains_unresolved_as_external_type() {
    let mut store = Store::new_memory();
    let path = "src/lib.rs";
    store.put_node(&id(&format!("{path}#5:1")), &NodeType::Function, Some("f"));
    store.put_edge(&id(&format!("{path}#5:1")), &id(&format!("{path}::str")), &EdgeType::Borrows);
    resolve_borrows_edges(&mut store);
    let edges = Query::all_edges(&store);
    assert_eq!(edges.len(), 1, "edge should point to external_type node when primitives not created");
    assert_eq!(edges[0].to_id, "external::str");
}

#[test]
fn resolve_borrows_edges_retains_external_type_as_synthetic_node() {
    let mut store = Store::new_memory();
    let path = "src/lib.rs";
    store.put_node(&id(&format!("{path}#5:1")), &NodeType::Function, Some("f"));
    store.put_edge(&id(&format!("{path}#5:1")), &id(&format!("{path}::HashMap")), &EdgeType::Borrows);
    resolve_borrows_edges(&mut store);
    let edges = Query::all_edges(&store);
    assert_eq!(edges.len(), 1, "edge should point to external_type node");
    assert_eq!(edges[0].to_id, "external::HashMap");
    let node = Query::node_info(&store, "external::HashMap").unwrap();
    assert_eq!(node.node_type, "external_type");
    assert_eq!(node.payload.as_deref(), Some("HashMap"));
}

#[test]
fn resolve_borrows_edges_external_node_id_uses_full_name_segment() {
    let mut store = Store::new_memory();
    let path = "src/lib.rs";
    store.put_node(&id(&format!("{path}#5:1")), &NodeType::Function, Some("f"));
    store.put_edge(&id(&format!("{path}#5:1")), &id(&format!("{path}::std::vec::Vec")), &EdgeType::Borrows);
    resolve_borrows_edges(&mut store);
    let edges = Query::all_edges(&store);
    assert_eq!(edges.len(), 1);
    assert_eq!(edges[0].to_id, "external::std::vec::Vec");
    assert_eq!(
        count_nodes_with_id(&store, "external::std::vec::Vec"),
        1,
        "exactly one external node for qualified name"
    );
}

#[test]
fn resolve_borrows_edges_creates_single_external_node_for_shared_unresolved_type() {
    let mut store = Store::new_memory();
    let path = "src/lib.rs";
    store.put_node(&id(&format!("{path}#5:1")), &NodeType::Function, Some("f1"));
    store.put_node(&id(&format!("{path}#10:1")), &NodeType::Function, Some("f2"));
    store.put_edge(&id(&format!("{path}#5:1")), &id(&format!("{path}::Vec")), &EdgeType::Borrows);
    store.put_edge(&id(&format!("{path}#10:1")), &id(&format!("{path}::Vec")), &EdgeType::Borrows);
    resolve_borrows_edges(&mut store);
    assert_eq!(
        count_nodes_with_id(&store, "external::Vec"),
        1,
        "exactly one ExternalType node for shared unresolved type"
    );
    let to_external_vec = targets(&store).iter().filter(|t| *t == "external::Vec").count();
    assert_eq!(to_external_vec, 2, "both edges should point to external::Vec");
}

#[test]
fn resolve_borrows_mut_edges_creates_single_external_node_for_shared_unresolved_type() {
    let mut store = Store::new_memory();
    let path = "src/lib.rs";
    store.put_node(&id(&format!("{path}#5:1")), &NodeType::Function, Some("f1"));
    store.put_node(&id(&format!("{path}#10:1")), &NodeType::Function, Some("f2"));
    store.put_edge_row(&format!("{path}#5:1"), &format!("{path}::Vec"), "borrows_mut");
    store.put_edge_row(&format!("{path}#10:1"), &format!("{path}::Vec"), "borrows_mut");
    resolve_borrows_mut_edges(&mut store);
    assert_eq!(
        count_nodes_with_id(&store, "external::Vec"),
        1,
        "exactly one ExternalType node for shared unresolved type"
    );
    let to_external_vec = targets(&store).iter().filter(|t| *t == "external::Vec").count();
    assert_eq!(to_external_vec, 2, "both edges should point to external::Vec");
}

#[test]
fn resolve_borrows_mut_edges_resolves_same_file_placeholder() {
    let mut store = Store::new_memory();
    let path = "src/lib.rs";
    store.put_node(&id(&format!("{path}#8:1")), &NodeType::Struct, Some("Point"));
    store.put_node(&id(&format!("{path}#12:1")), &NodeType::Function, Some("borrow_mut_point"));
    store.put_edge_row(&format!("{path}#12:1"), &format!("{path}::Point"), "borrows_mut");
    resolve_borrows_mut_edges(&mut store);
    let edges = Query::all_edges(&store);
    assert_eq!(edges.len(), 1);
    let to_str = edges[0].to_id.clone();
    assert!(to_str.contains('#'), "edge should point to real type id (path#line:col), got {to_str}");
    assert_eq!(to_str, format!("{path}#8:1"));
}

#[test]
fn resolve_borrows_mut_edges_resolves_primitive_placeholder() {
    let mut store = Store::new_memory();
    create_primitive_nodes(&mut store);
    let path = "src/lib.rs";
    store.put_node(&id(&format!("{path}#5:1")), &NodeType::Function, Some("f"));
    store.put_edge_row(&format!("{path}#5:1"), &format!("{path}::str"), "borrows_mut");
    resolve_borrows_mut_edges(&mut store);
    let edges = Query::all_edges(&store);
    assert_eq!(edges.len(), 1, "borrows_mut edge to str should resolve to primitive::str");
    let to_str = edges[0].to_id.clone();
    assert_eq!(to_str, "primitive::str", "edge should point to primitive::str, got {to_str}");
}

#[test]
fn resolve_borrows_mut_edges_retains_unresolved_as_external_type() {
    let mut store = Store::new_memory();
    let path = "src/lib.rs";
    store.put_node(&id(&format!("{path}#5:1")), &NodeType::Function, Some("f"));
    store.put_edge_row(&format!("{path}#5:1"), &format!("{path}::Vec"), "borrows_mut");
    resolve_borrows_mut_edges(&mut store);
    let edges = Query::all_edges(&store);
    assert_eq!(edges.len(), 1);
    assert_eq!(edges[0].to_id, "external::Vec");
}

#[test]
fn build_call_graph_resolves_placeholder() {
    let mut store = Store::new_memory();
    let path = "src/lib.rs";
    store.put_node(&id(&format!("{path}#10:1")), &NodeType::Function, Some("foo"));
    store.put_node(&id(&format!("{path}#5:1")), &NodeType::Function, Some("main"));
    store.put_edge(&id(&format!("{path}#5:1")), &id(&format!("{path}::foo")), &EdgeType::Calls);
    build_call_graph(&mut store);
    let edges = Query::all_edges(&store);
    assert_eq!(edges.len(), 1);
    let to_str = edges[0].to_id.clone();
    assert!(to_str.contains('#'), "edge should point to real id (path#line:col), got {to_str}");
}

#[test]
fn call_graph_resolves_public_function_across_files() {
    let mut store = Store::new_memory();
    store.put_node(&id("src/util.rs#1:1"), &NodeType::Function, Some("pub::helper"));
    store.put_node(&id("src/main.rs#1:1"), &NodeType::Function, Some("main"));
    store.put_edge(&id("src/main.rs#1:1"), &id("src/main.rs::helper"), &EdgeType::Calls);
    build_call_graph(&mut store);
    assert_eq!(targets(&store), vec!["src/util.rs#1:1".to_string()]);
}

#[test]
fn call_graph_drops_ambiguous_and_unknown_calls() {
    let mut store = Store::new_memory();
    store.put_node(&id("a.rs#1:1"), &NodeType::Function, Some("dup"));
    store.put_node(&id("b.rs#1:1"), &NodeType::Function, Some("dup"));
    store.put_node(&id("c.rs#1:1"), &NodeType::Function, Some("main"));
    store.put_edge(&id("c.rs#1:1"), &id("c.rs::dup"), &EdgeType::Calls);
    store.put_edge(&id("c.rs#1:1"), &id("c.rs::nowhere"), &EdgeType::Calls);
    build_call_graph(&mut store);
    assert!(Query::all_edges(&store).is_empty());
}

#[test]
fn call_graph_prefers_imported_file() {
    let mut store = Store::new_memory();
    store.put_node(&id("a.rs#1:1"), &NodeType::Function, Some("dup"));
    store.put_node(&id("b.rs#1:1"), &NodeType::Function, Some("dup"));
    store.put_node(&id("c.rs#1:1"), &NodeType::Function, Some("main"));
    store.put_edge(&id("c.rs"), &id("b.rs"), &EdgeType::Imports);
    store.put_edge(&id("c.rs#1:1"), &id("c.rs::dup"), &EdgeType::Calls);
    build_call_graph(&mut store);
    let calls: Vec<String> = Query::all_edges(&store)
        .into_iter()
        .filter(|e| e.edge_type == "calls")
        .map(|e| e.to_id)
        .collect();
    assert_eq!(calls, vec!["b.rs#1:1".to_string()]);
}

#[test]
fn call_graph_qualified_call_uses_last_segment() {
    let mut store = Store::new_memory();
    store.put_node(&id("src/lib.rs#3:1"), &NodeType::Function, Some("run"));
    store.put_node(&id("src/lib.rs#9:1"), &NodeType::Function, Some("main"));
    store.put_edge(&id("src/lib.rs#9:1"), &id("src/lib.rs::tasks::run"), &EdgeType::Calls);
    build_call_graph(&mut store);
    assert_eq!(targets(&store), vec!["src/lib.rs#3:1".to_string()]);
}

#[test]
fn canonical_name_strips_markers() {
    assert_eq!(canonical_name("pub::test::foo"), "foo");
    assert_eq!(canonical_name("bench::pub::bar"), "bar");
    assert_eq!(canonical_name("plain"), "plain");
    assert_eq!(canonical_name("public::x"), "public::x");
    assert_eq!(canonical_name(&canonical_name("pub::pub::z")), canonical_name("pub::pub::z"));
}

#[test]
fn resolve_expands_to_edges_resolves_same_file_placeholder() {
    let mut store = Store::new_memory();
    let path = "src/lib.rs";
    store.put_node(&id(&format!("{path}#3:1")), &NodeType::Macro, Some("my_macro"));
    store.put_node(&id(&format!("{path}#10:1")), &NodeType::Function, Some("caller"));
    store.put_edge(&id(&format!("{path}#10:1")), &id(&format!("{path}::my_macro")), &EdgeType::ExpandsTo);
    resolve_expands_to_edges(&mut store);
    let edges = Query::all_edges(&store);
    assert_eq!(edges.len(), 1);
    let to_str = edges[0].to_id.clone();
    assert!(to_str.contains('#'), "edge should point to real macro id (path#line:col), got {to_str}");
    assert_eq!(to_str, format!("{path}#3:1"));
}

#[test]
fn lifetime_scope_edge_stored_and_queried() {
    let mut store = Store::new_memory();
    let path = "src/lib.rs";
    let fn_id = id(&format!("{path}#5:1"));
    store.put_node(&fn_id, &NodeType::Function, Some("with_lt"));
    store.put_edge(&fn_id, &fn_id, &EdgeType::LifetimeScope);
    let edges = Query::all_edges(&store);
    assert_eq!(edges.len(), 1);
    assert_eq!(edges[0].edge_type, "lifetime_scope");
}

#[test]
fn resolve_owns_edges_resolves_same_file_placeholder() {
    let mut store = Store::new_memory();
    let path = "src/lib.rs";
    store.put_node(&id(&format!("{path}#8:1")), &NodeType::Struct, Some("Point"));
    store.put_node(&id(&format!("{path}#12:1")), &NodeType::Function, Some("take_point"));
    store.put_edge(&id(&format!("{path}#12:1")), &id(&format!("{path}::Point")), &EdgeType::Owns);
    resolve_owns_edges(&mut store);
    let edges = Query::all_edges(&store);
    assert_eq!(edges.len(), 1);
    let to_str = edges[0].to_id.clone();
    assert!(to_str.contains('#'), "edge should point to real type id (path#line:col), got {to_str}");
    assert_eq!(to_str, format!("{path}#8:1"));
}

#[test]
fn resolve_owns_edges_resolves_primitive_placeholder() {
    let mut store = Store::new_memory();
    create_primitive_nodes(&mut store);
    let path = "src/lib.rs";
    store.put_node(&id(&format!("{path}#5:1")), &NodeType::Function, Some("f"));
    store.put_edge(&id(&format!("{path}#5:1")), &id(&format!("{path}::i32")), &EdgeType::Owns);
    resolve_owns_edges(&mut store);
    let edges = Query::all_edges(&store);
    assert_eq!(edges.len(), 1, "owns edge to i32 should resolve to primitive::i32");
    let to_str = edges[0].to_id.clone();
    assert_eq!(to_str, "primitive::i32", "edge should point to primitive::i32, got {to_str}");
}

#[test]
fn resolve_owns_edges_removes_external_type_placeholder() {
    let mut store = Store::new_memory();
    let path = "src/lib.rs";
    store.put_node(&id(&format!("{path}#5:1")), &NodeType::Function, Some("f"));
    store.put_edge(&id(&format!("{path}#5:1")), &id(&format!("{path}::Vec")), &EdgeType::Owns);
    resolve_owns_edges(&mut store);
    let edges = Query::all_edges(&store);
    assert_eq!(
        edges.len(),
        0,
        "owns edge to external type (e.g. Vec) with no node in graph should be removed"
    );
}

#[test]
fn resolve_owns_edges_keeps_resolved_targets() {
    let mut store = Store::new_memory();
    store.put_node(&id("src/lib.rs#2:1"), &NodeType::Function, Some("f"));
    store.put_edge(&id("src/lib.rs#2:1"), &id("src/other.rs#1:1"), &EdgeType::Owns);
    resolve_owns_edges(&mut store);
    assert_eq!(targets(&store), vec!["src/other.rs#1:1".to_string()]);
}

#[test]
fn primitive_nodes_created_and_queryable() {
    let mut store = Store::new_memory();
    create_primitive_nodes(&mut store);
    let nodes = Query::all_nodes(&store);
    let primitives: Vec<_> = nodes.iter().filter(|r| r.node_type == "primitive").collect();
    assert_eq!(primitives.len(), 17, "expected 17 primitive nodes, got {}", primitives.len());
    let ids: Vec<String> = primitives.iter().map(|r| r.id.clone()).collect();
    assert!(ids.iter().any(|id| id == "primitive::i32"), "expected primitive::i32, got {ids:?}");
    assert!(ids.iter().any(|id| id == "primitive::str"), "expected primitive::str, got {ids:?}");
}

#[test]
fn resolve_impl_trait_edges_resolves_same_file_placeholder() {
    let mut store = Store::new_memory();
    let path = "src/lib.rs";
    store.put_node(&id(&format!("{path}#10:1")), &NodeType::Trait, Some("Draw"));
    store.put_node(&id(&format!("{path}#15:1")), &NodeType::Impl, Some("Point"));
    store.put_edge(&id(&format!("{path}#15:1")), &id(&format!("{path}::Draw")), &EdgeType::ImplementsTrait);
    resolve_impl_trait_edges(&mut store);
    let edges = Query::all_edges(&store);
    assert_eq!(edges.len(), 1);
    let to_str = edges[0].to_id.clone();
    assert!(to_str.contains('#'), "edge should point to real trait id (path#line:col), got {to_str}");
    assert_eq!(to_str, format!("{path}#10:1"));
}

#[test]
fn call_falls_back_to_unique_global_when_imports_give_none() {
    let mut store = Store::new_memory();
    store.put_node(&id("src/main.rs#1:1"), &NodeType::Function, Some("main"));
    store.put_node(&id("src/c.rs#1:1"), &NodeType::Function, Some("other"));
    store.put_edge(&id("src/main.rs"), &id("src/a.rs"), &EdgeType::Imports);
    store.put_edge(&id("src/main.rs#1:1"), &id("src/main.rs::other"), &EdgeType::Calls);
    build_call_graph(&mut store);
    let mut edges: Vec<(String, String, String)> =
        Query::all_edges(&store).into_iter().map(|e| (e.from_id, e.to_id, e.edge_type)).collect();
    edges.sort();
    assert_eq!(
        edges,
        vec![
            ("src/main.rs".to_string(), "src/a.rs".to_string(), "imports".to_string()),
            ("src/main.rs#1:1".to_string(), "src/c.rs#1:1".to_string(), "calls".to_string()),
        ]
    );
}
