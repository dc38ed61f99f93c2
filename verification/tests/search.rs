use ferrograph::graph::schema::{NodeId, NodeType};
use ferrograph::graph::store::Store;
use ferrograph::search::text_search;

#[test]
fn text_search_substring_match() {
    let mut store = Store::new_memory();
    store.put_node(&NodeId::new("p#1:1"), &NodeType::Function, Some("hello_world"));
    store.put_node(&NodeId::new("p#2:1"), &NodeType::Function, Some("other"));
    let (rows, total) = text_search(&store, "hello", false, 100, 0);
    assert_eq!(rows.len(), 1);
    assert_eq!(total, 1);
    assert_eq!(rows[0].payload.as_deref(), Some("hello_world"));
}

#[test]
fn text_search_case_insensitive() {
    let mut store = Store::new_memory();
    store.put_node(&NodeId::new("p#1:1"), &NodeType::Function, Some("Main"));
    let (rows, total) = text_search(&store, "main", true, 100, 0);
    assert_eq!(rows.len(), 1);
    assert_eq!(total, 1);
    assert_eq!(rows[0].payload.as_deref(), Some("Main"));
    let (exact, _) = text_search(&store, "main", false, 100, 0);
    assert!(exact.is_empty());
}

#[test]
fn text_search_pagination_returns_page_and_total() {
    let mut store = Store::new_memory();
    for i in 1..=5 {
        store.put_node(&NodeId::new(&format!("p#{i}:1")), &NodeType::Function, Some("match"));
    }
    let (page, total) = text_search(&store, "match", false, 2, 1);
    assert_eq!(page.len(), 2);
    assert_eq!(total, 5);
    assert_eq!(page[0].id, "p#2:1");
    assert_eq!(page[1].id, "p#3:1");
    let (past_end, total) = text_search(&store, "match", false, 2, 9);
    assert!(past_end.is_empty());
    assert_eq!(total, 5);
}

#[test]
fn text_search_skips_nodes_without_payload() {
    let mut store = Store::new_memory();
    store.put_node(&NodeId::new("file.rs"), &NodeType::File, None);
    let (rows, total) = text_search(&store, "", false, 10, 0);
    assert!(rows.is_empty());
    assert_eq!(total, 0);
}
