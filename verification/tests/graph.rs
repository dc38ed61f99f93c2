use ferrograph::graph::query::Query;
use ferrograph::graph::schema::{EdgeType, NodeId, NodeType};
use ferrograph::graph::store::Store;

fn id(s: &str) -> NodeId {
    NodeId::new(s)
}

#[test]
fn dead_function_ids_marks_unreachable_from_main() {
    let mut store = Store::new_memory();
    store.put_node(&id("f#1:1"), &NodeType::Function, Some("main"));
    store.put_node(&id("f#3:1"), &NodeType::Function, Some("foo"));
    store.put_node(&id("f#5:1"), &NodeType::Function, Some("bar"));
    store.put_node(&id("f#7:1"), &NodeType::Function, Some("baz"));
    store.put_edge(&id("f#1:1"), &id("f#3:1"), &EdgeType::Calls);
    store.put_edge(&id("f#3:1"), &id("f#5:1"), &EdgeType::Calls);
    let dead = Query::compute_dead_functions(&store);
    assert!(
        dead.iter().any(|id| id == "f#7:1"),
        "baz (f#7:1) should be dead, got {dead:?}"
    );
    assert_eq!(dead, vec!["f#7:1".to_string()]);
}

#[test]
fn test_function_is_entry_point_not_dead() {
    let mut store = Store::new_memory();
    store.put_node(&id("f#1:1"), &NodeType::Function, Some("test::my_test"));
    let dead = Query::compute_dead_functions(&store);
    assert!(
        !dead.iter().any(|id| id == "f#1:1"),
        "test::my_test (f#1:1) should not be dead (test is entry point), got {dead:?}"
    );
}

#[test]
fn bench_and_pub_functions_are_entry_points() {
    let mut store = Store::new_memory();
    store.put_node(&id("f#1:1"), &NodeType::Function, Some("bench::b"));
    store.put_node(&id("f#2:1"), &NodeType::Function, Some("pub::p"));
    store.put_node(&id("f#3:1"), &NodeType::Function, Some("helper"));
    store.put_node(&id("f#4:1"), &NodeType::Function, Some("orphan"));
    store.put_edge(&id("f#1:1"), &id("f#3:1"), &EdgeType::References);
    let dead = Query::compute_dead_functions(&store);
    assert_eq!(dead, vec!["f#4:1".to_string()]);
}

#[test]
fn blast_radius_seed_includes_direct_neighbors() {
    let mut store = Store::new_memory();
    store.put_node(&id("a"), &NodeType::File, None);
    store.put_node(&id("b"), &NodeType::File, None);
    store.put_edge(&id("a"), &id("b"), &EdgeType::ChangesWith);
    let ids_a: Vec<String> = Query::blast_radius(&store, "a").into_iter().map(|r| r.id).collect();
    let ids_b: Vec<String> = Query::blast_radius(&store, "b").into_iter().map(|r| r.id).collect();
    assert!(ids_a.contains(&"b".to_string()), "from a should reach b (seed)");
    assert!(
        ids_b.contains(&"a".to_string()),
        "from b should reach a (seed, direct backward neighbor)"
    );
}

#[test]
fn blast_radius_forward_only_recursion() {
    let mut store = Store::new_memory();
    store.put_node(&id("a"), &NodeType::File, None);
    store.put_node(&id("b"), &NodeType::File, None);
    store.put_node(&id("c"), &NodeType::File, None);
    store.put_edge(&id("a"), &id("b"), &EdgeType::Calls);
    store.put_edge(&id("b"), &id("c"), &EdgeType::Calls);
    let ids_a: Vec<String> = Query::blast_radius(&store, "a").into_iter().map(|r| r.id).collect();
    let ids_c: Vec<String> = Query::blast_radius(&store, "c").into_iter().map(|r| r.id).collect();
    assert!(
        ids_a.contains(&"b".to_string()) && ids_a.contains(&"c".to_string()),
        "from a should reach b and c (forward), got {ids_a:?}"
    );
    assert!(
        ids_c.contains(&"b".to_string()) && !ids_c.contains(&"a".to_string()),
        "from c should reach only b (seed), not transitive a, got {ids_c:?}"
    );
}

#[test]
fn blast_radius_never_holds_its_source() {
    let mut store = Store::new_memory();
    store.put_node(&id("a"), &NodeType::File, None);
    store.put_node(&id("b"), &NodeType::File, None);
    store.put_edge(&id("a"), &id("b"), &EdgeType::Calls);
    store.put_edge(&id("b"), &id("a"), &EdgeType::Calls);
    let ids: Vec<String> = Query::blast_radius(&store, "a").into_iter().map(|r| r.id).collect();
    assert_eq!(ids, vec!["b".to_string()]);
}

#[test]
fn callers_direct_only_depth1() {
    let mut store = Store::new_memory();
    store.put_node(&id("callee"), &NodeType::Function, Some("callee"));
    store.put_node(&id("caller1"), &NodeType::Function, Some("caller1"));
    store.put_node(&id("caller2"), &NodeType::Function, Some("caller2"));
    store.put_edge(&id("caller1"), &id("callee"), &EdgeType::Calls);
    store.put_edge(&id("caller2"), &id("callee"), &EdgeType::Calls);
    let callers = Query::callers(&store, "callee", 1);
    assert_eq!(callers.len(), 2, "two direct callers");
    let ids: Vec<String> = callers.iter().map(|r| r.id.clone()).collect();
    assert!(ids.contains(&"caller1".to_string()));
    assert!(ids.contains(&"caller2".to_string()));
}

#[test]
fn callers_grow_with_depth() {
    let mut store = Store::new_memory();
    for n in ["t", "a", "b", "c"] {
        store.put_node(&id(n), &NodeType::Function, Some(n));
    }
    store.put_edge(&id("a"), &id("t"), &EdgeType::Calls);
    store.put_edge(&id("b"), &id("a"), &EdgeType::Calls);
    store.put_edge(&id("c"), &id("b"), &EdgeType::Calls);
    let mut d1: Vec<String> = Query::callers(&store, "t", 1).into_iter().map(|r| r.id).collect();
    let mut d2: Vec<String> = Query::callers(&store, "t", 2).into_iter().map(|r| r.id).collect();
    let mut d0: Vec<String> = Query::callers(&store, "t", 0).into_iter().map(|r| r.id).collect();
    let mut d9: Vec<String> = Query::callers(&store, "t", 9).into_iter().map(|r| r.id).collect();
    d1.sort();
    d2.sort();
    d0.sort();
    d9.sort();
    assert_eq!(d1, vec!["a".to_string()]);
    assert_eq!(d0, d1);
    assert_eq!(d2, vec!["a".to_string(), "b".to_string()]);
    assert_eq!(d9, vec!["a".to_string(), "b".to_string(), "c".to_string()]);
}

#[test]
fn node_info_returns_none_for_missing() {
    let store = Store::new_memory();
    let info = Query::node_info(&store, "nonexistent");
    assert!(info.is_none());
}

#[test]
fn node_info_returns_node_and_edges() {
    let mut store = Store::new_memory();
    store.put_node(&id("n1"), &NodeType::Function, Some("foo"));
    store.put_node(&id("n2"), &NodeType::Function, Some("bar"));
    store.put_edge(&id("n1"), &id("n2"), &EdgeType::Calls);
    let info = Query::node_info(&store, "n1").expect("node exists");
    assert_eq!(info.id, "n1");
    assert_eq!(info.node_type, "function");
    assert_eq!(info.payload.as_deref(), Some("foo"));
    assert_eq!(info.outgoing_edges.len(), 1);
    assert_eq!(info.outgoing_edges[0].id, "n2");
    assert_eq!(info.outgoing_edges[0].edge_type, "calls");
    assert_eq!(info.incoming_edges.len(), 0);
    let back = Query::node_info(&store, "n2").expect("node exists");
    assert_eq!(back.incoming_edges.len(), 1);
    assert_eq!(back.incoming_edges[0].id, "n1");
    assert_eq!(back.incoming_edges[0].payload.as_deref(), Some("foo"));
}

#[test]
fn trait_implementors_empty_when_no_trait() {
    let store = Store::new_memory();
    let impls = Query::trait_implementors(&store, "NoSuchTrait");
    assert!(impls.is_empty());
}

#[test]
fn trait_implementors_follow_implements_trait_edges() {
    let mut store = Store::new_memory();
    store.put_node(&id("t#1:1"), &NodeType::Trait, Some("Draw"));
    store.put_node(&id("i#5:1"), &NodeType::Impl, Some("Point"));
    store.put_node(&id("i#9:1"), &NodeType::Impl, Some("Line"));
    store.put_edge(&id("i#5:1"), &id("t#1:1"), &EdgeType::ImplementsTrait);
    let impls: Vec<String> = Query::trait_implementors(&store, "Draw").into_iter().map(|r| r.id).collect();
    assert_eq!(impls, vec!["i#5:1".to_string()]);
}

#[test]
fn module_graph_returns_contains_edges() {
    let mut store = Store::new_memory();
    store.put_node(&id("file://a"), &NodeType::File, None);
    store.put_node(&id("mod://b"), &NodeType::Module, None);
    store.put_edge(&id("file://a"), &id("mod://b"), &EdgeType::Contains);
    let edges = Query::module_graph(&store, None);
    assert_eq!(edges.len(), 1);
    assert_eq!(edges[0].from_id, "file://a");
    assert_eq!(edges[0].to_id, "mod://b");
}

#[test]
fn store_put_node_and_query() {
    let mut store = Store::new_memory();
    store.put_node(&id("n1"), &NodeType::Function, Some("foo"));
    let rows = Query::all_nodes(&store);
    assert_eq!(rows.len(), 1);
    assert_eq!(rows[0].id, "n1");
}

#[test]
fn store_put_edge_and_query() {
    let mut store = Store::new_memory();
    store.put_node(&id("a"), &NodeType::Function, None);
    store.put_node(&id("b"), &NodeType::Function, None);
    store.put_edge(&id("a"), &id("b"), &EdgeType::Calls);
    let rows = Query::all_edges(&store);
    assert_eq!(rows.len(), 1);
    assert_eq!(rows[0].from_id, "a");
    assert_eq!(rows[0].to_id, "b");
}

#[test]
fn store_clear_removes_all() {
    let mut store = Store::new_memory();
    store.put_node(&id("a"), &NodeType::Function, None);
    store.put_node(&id("b"), &NodeType::Function, None);
    store.clear();
    let rows = Query::all_nodes(&store);
    assert!(rows.is_empty());
}

#[test]
fn put_node_replaces_by_id() {
    let mut store = Store::new_memory();
    store.put_node(&id("a"), &NodeType::Function, Some("old"));
    store.put_node(&id("b"), &NodeType::Struct, Some("B"));
    store.put_node(&id("a"), &NodeType::Struct, Some("new"));
    assert_eq!(store.node_count(), 2);
    let rows = Query::all_nodes(&store);
    let a = rows.iter().find(|r| r.id == "a").unwrap();
    assert_eq!(a.node_type, "struct");
    assert_eq!(a.payload.as_deref(), Some("new"));
}

#[test]
fn put_edge_twice_stores_once_and_remove_drops_it() {
    let mut store = Store::new_memory();
    store.put_edge(&id("a"), &id("b"), &EdgeType::Calls);
    store.put_edge(&id("a"), &id("b"), &EdgeType::Calls);
    store.put_edge(&id("a"), &id("b"), &EdgeType::References);
    assert_eq!(store.edge_count(), 2);
    store.remove_edge(&id("a"), &id("b"), &EdgeType::Calls);
    assert_eq!(store.edge_count(), 1);
    assert_eq!(Query::all_edges(&store)[0].edge_type, "references");
    store.remove_edge(&id("a"), &id("b"), &EdgeType::Calls);
    assert_eq!(store.edge_count(), 1);
}

#[test]
fn batches_and_dead_function_relation() {
    let mut store = Store::new_memory();
    store.put_nodes_batch(&[
        (id("x"), NodeType::Function, Some("x")),
        (id("y"), NodeType::Function, None),
    ]);
    store.put_edges_batch(&[(id("x"), id("y"), EdgeType::Calls), (id("x"), id("y"), EdgeType::Calls)]);
    assert_eq!(store.node_count(), 2);
    assert_eq!(store.edge_count(), 1);
    store.put_dead_function("y");
    store.put_dead_function("y");
    assert_eq!(Query::stored_dead_functions(&store), vec!["y".to_string()]);
    let with_payload = Query::stored_dead_functions_with_payload(&store);
    assert_eq!(with_payload.len(), 1);
    assert_eq!(with_payload[0].node_type, "function");
    store.clear_dead_functions();
    assert!(Query::stored_dead_functions(&store).is_empty());
}

#[test]
fn counts_by_type() {
    let mut store = Store::new_memory();
    store.put_node(&id("a"), &NodeType::Struct, None);
    store.put_node(&id("b"), &NodeType::Function, None);
    store.put_node(&id("c"), &NodeType::Function, None);
    store.put_edge(&id("a"), &id("b"), &EdgeType::Calls);
    let nodes = Query::count_nodes_by_type(&store);
    assert_eq!(nodes, vec![("function".to_string(), 2), ("struct".to_string(), 1)]);
    assert_eq!(Query::count_edges_by_type(&store), vec![("calls".to_string(), 1)]);
}

#[test]
fn copy_from_copies_known_rows_and_skips_unknown_types() {
    let mut other = Store::new_memory();
    other.put_node(&NodeId::new("a"), &NodeType::Function, Some("f"));
    other.put_node_row("b", "not_a_type", None);
    other.put_edge(&NodeId::new("a"), &NodeId::new("b"), &EdgeType::Calls);
    other.put_edge_row("a", "b", "bogus_edge");
    other.put_dead_function("a");
    let mut store = Store::new_memory();
    store.put_node(&NodeId::new("z"), &NodeType::Struct, None);
    store.copy_from(&other);
    let nodes = Query::all_nodes(&store);
    let ids: Vec<String> = nodes.iter().map(|r| r.id.clone()).collect();
    assert_eq!(ids, vec!["a".to_string(), "z".to_string()]);
    let edges = Query::all_edges(&store);
    assert_eq!(edges.len(), 1);
    assert_eq!(edges[0].edge_type, "calls");
    assert_eq!(Query::stored_dead_functions(&store), vec!["a".to_string()]);
}

#[test]
fn rows_come_back_ordered_by_key() {
    let mut store = Store::new_memory();
    store.put_node(&id("./src/z.rs#1:1"), &NodeType::Function, Some("z"));
    store.put_node(&id("./src/a.rs#9:1"), &NodeType::Function, Some("a9"));
    store.put_node(&id("./src/a.rs#10:1"), &NodeType::Function, Some("a10"));
    let ids: Vec<String> = Query::all_nodes(&store).into_iter().map(|r| r.id).collect();
    assert_eq!(ids, vec!["./src/a.rs#10:1", "./src/a.rs#9:1", "./src/z.rs#1:1"]);
    store.put_edge(&id("b"), &id("a"), &EdgeType::Calls);
    store.put_edge(&id("a"), &id("c"), &EdgeType::Contains);
    store.put_edge(&id("a"), &id("b"), &EdgeType::Calls);
    let edges: Vec<(String, String)> =
        Query::all_edges(&store).into_iter().map(|e| (e.from_id, e.to_id)).collect();
    assert_eq!(
        edges,
        vec![("a".to_string(), "b".to_string()), ("a".to_string(), "c".to_string()), ("b".to_string(), "a".to_string())]
    );
    store.put_dead_function("m");
    store.put_dead_function("k");
    assert_eq!(Query::stored_dead_functions(&store), vec!["k".to_string(), "m".to_string()]);
}

#[test]
fn callers_come_nearer_first() {
    let mut store = Store::new_memory();
    for n in ["a", "b", "c", "t"] {
        store.put_node(&id(n), &NodeType::Function, Some(n));
    }
    store.put_edge(&id("a"), &id("b"), &EdgeType::Calls);
    store.put_edge(&id("b"), &id("t"), &EdgeType::Calls);
    store.put_edge(&id("c"), &id("t"), &EdgeType::Calls);
    let ids: Vec<String> = Query::callers(&store, "t", 2).into_iter().map(|r| r.id).collect();
    assert_eq!(ids.len(), 3);
    assert_eq!(ids[2], "a");
    let shallow: Vec<String> = Query::callers(&store, "t", 1).into_iter().map(|r| r.id).collect();
    assert_eq!(shallow, ids[..2].to_vec());
}
