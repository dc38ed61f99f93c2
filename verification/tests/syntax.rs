use ferrograph::graph::query::Query;
use ferrograph::graph::schema::{EdgeType, NodeType};
use ferrograph::graph::store::Store;
use ferrograph::pipeline::ast::{collect_use_paths, extract_ast, extract_syntax, SyntaxNode};

fn leaf(kind: &str, text: &str, row: usize, column: usize) -> SyntaxNode {
    SyntaxNode { kind: kind.to_string(), text: text.to_string(), row, column, children: Vec::new() }
}

fn node(kind: &str, row: usize, column: usize, children: Vec<SyntaxNode>) -> SyntaxNode {
    SyntaxNode { kind: kind.to_string(), text: String::new(), row, column, children }
}

#[test]
fn extract_ast_single_function() {
    let mut store = Store::new_memory();
    extract_ast(&mut store, "/test.rs", "fn foo() {}").unwrap();
    let rows = Query::all_nodes(&store);
    assert!(rows.len() >= 2, "expected file + function nodes");
    let types: Vec<String> = rows.iter().map(|r| r.node_type.clone()).collect();
    assert!(types.contains(&"file".to_string()));
    assert!(types.contains(&"function".to_string()));
    let f = rows.iter().find(|r| r.node_type == "function").unwrap();
    assert_eq!(f.id, "/test.rs#1:1");
    assert_eq!(f.payload.as_deref(), Some("foo"));
}

#[test]
fn extract_ast_invalid_rust_partial_ast() {
    let mut store = Store::new_memory();
    let result = extract_ast(&mut store, "/test.rs", "not valid rust {{{");
    assert!(result.is_ok(), "partial AST should be accepted: {result:?}");
    let rows = Query::all_nodes(&store);
    assert!(!rows.is_empty(), "expected at least file node");
}

#[test]
fn extract_ast_trait_has_name_payload() {
    let mut store = Store::new_memory();
    extract_ast(&mut store, "/test.rs", "trait Draw { fn draw(&self); }").unwrap();
    let rows = Query::all_nodes(&store);
    let trait_rows: Vec<_> = rows.iter().filter(|r| r.node_type == "trait").collect();
    assert!(!trait_rows.is_empty(), "expected at least one trait node, got {rows:?}");
    let payload = trait_rows[0].payload.clone();
    assert!(
        payload.as_ref().is_some_and(|p| p.contains("Draw")),
        "trait node should have payload with name Draw, got {payload:?}"
    );
}

#[test]
fn extract_ast_bench_function_has_bench_prefix() {
    let mut store = Store::new_memory();
    extract_ast(&mut store, "/benches/foo.rs", "#[bench] fn my_bench(_: &mut Bencher) {}").unwrap();
    let rows = Query::all_nodes(&store);
    let fn_rows: Vec<_> = rows.iter().filter(|r| r.node_type == "function").collect();
    assert!(!fn_rows.is_empty(), "expected at least one function node, got {rows:?}");
    let payload = fn_rows[0].payload.clone();
    assert!(
        payload.as_ref().is_some_and(|p| p.contains("bench::my_bench")),
        "expected bench:: prefix in payload, got {payload:?}"
    );
}

#[test]
fn extract_ast_records_calls_and_containment() {
    let mut store = Store::new_memory();
    let src = "pub fn a() { b(); }\nfn b() {}\n#[test]\nfn t() {}\n";
    extract_ast(&mut store, "s.rs", src).unwrap();
    let nodes = Query::all_nodes(&store);
    let payloads: Vec<String> = nodes.iter().filter_map(|r| r.payload.clone()).collect();
    assert!(payloads.contains(&"pub::a".to_string()), "{payloads:?}");
    assert!(payloads.contains(&"b".to_string()));
    assert!(payloads.contains(&"test::t".to_string()));
    let edges = Query::all_edges(&store);
    let calls: Vec<(String, String)> = edges
        .iter()
        .filter(|e| e.edge_type == "calls")
        .map(|e| (e.from_id.clone(), e.to_id.clone()))
        .collect();
    assert!(calls.contains(&("s.rs#1:1".to_string(), "s.rs::b".to_string())), "{calls:?}");
    assert!(edges.iter().any(|e| e.edge_type == "contains" && e.from_id == "s.rs" && e.to_id == "s.rs#2:1"));
}

#[test]
fn extraction_of_a_hand_built_tree() {
    let func = node(
        "function_item",
        2,
        0,
        vec![
            leaf("visibility_modifier", "pub", 2, 0),
            leaf("fn", "fn", 2, 4),
            leaf("identifier", "go", 2, 7),
            node("block", 2, 12, vec![node("call_expression", 3, 4, vec![leaf("scoped_identifier", "m::run", 3, 4)])]),
        ],
    );
    let attr = node("attribute_item", 1, 0, vec![leaf("identifier", "test", 1, 2)]);
    let root = node("source_file", 0, 0, vec![attr, func]);
    let (nodes, edges) = extract_syntax(&root, "f.rs");
    assert_eq!(nodes.len(), 2);
    assert_eq!(nodes[0].0.as_str(), "f.rs");
    assert_eq!(nodes[0].1, NodeType::File);
    assert_eq!(nodes[1].0.as_str(), "f.rs#3:1");
    assert_eq!(nodes[1].1, NodeType::Function);
    assert_eq!(nodes[1].2.as_deref(), Some("pub::test::go"));
    assert_eq!(edges.len(), 2);
    assert_eq!((edges[0].0.as_str(), edges[0].1.as_str(), edges[0].2), ("f.rs", "f.rs#3:1", EdgeType::Contains));
    assert_eq!((edges[1].0.as_str(), edges[1].1.as_str(), edges[1].2), ("f.rs#3:1", "f.rs::m::run", EdgeType::Calls));
}

#[test]
fn impl_and_module_payloads() {
    let imp = node(
        "impl_item",
        9,
        3,
        vec![leaf("impl", "impl", 9, 3), leaf("type_identifier", "Draw", 9, 8), leaf("for", "for", 9, 13), leaf("type_identifier", "Point", 9, 17)],
    );
    let module = node("mod_item", 11, 0, vec![leaf("mod", "mod", 11, 0), leaf("identifier", "inner", 11, 4)]);
    let root = node("source_file", 0, 0, vec![imp, module]);
    let (nodes, _) = extract_syntax(&root, "g.rs");
    assert_eq!(nodes[1].0.as_str(), "g.rs#10:4");
    assert_eq!(nodes[1].1, NodeType::Impl);
    assert_eq!(nodes[1].2.as_deref(), Some("Draw"));
    assert_eq!(nodes[2].1, NodeType::Module);
    assert_eq!(nodes[2].2.as_deref(), Some("inner"));
}

#[test]
fn use_paths_are_collected_in_order() {
    let src = "use crate::a::b;\nmod m { use super::c; }\nuse std::io;   \n";
    assert_eq!(
        collect_use_paths(src),
        vec!["crate::a::b".to_string(), "super::c".to_string(), "std::io".to_string()]
    );
}

#[test]
fn nested_items_hang_from_their_innermost_enclosing_item() {
    let mut store = Store::new_memory();
    let src = "impl S {\n    fn m() { helper(); }\n}\n";
    extract_ast(&mut store, "f.rs", src).unwrap();
    let mut edges: Vec<(String, String, String)> =
        Query::all_edges(&store).into_iter().map(|e| (e.from_id, e.to_id, e.edge_type)).collect();
    edges.sort();
    assert_eq!(
        edges,
        vec![
            ("f.rs".to_string(), "f.rs#1:1".to_string(), "contains".to_string()),
            ("f.rs#1:1".to_string(), "f.rs#2:5".to_string(), "contains".to_string()),
            ("f.rs#2:5".to_string(), "f.rs::helper".to_string(), "calls".to_string()),
        ]
    );
}
