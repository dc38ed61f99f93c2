use ferrograph::config::{default_db_path, resolve_db_path, status_db_path};
use ferrograph::graph::schema::{EdgeType, NodeId, NodeType};
use ferrograph::graph::store::Store;
use ferrograph::ops::{
    blast_radius, callers, dead_code, module_graph, node_info, query_script, search, status,
    summary_line, trait_implementors, NodeSummary, DEAD_CODE_CAVEAT,
};
use ferrograph::pipeline::dead_code::detect_dead_code;
use ferrograph::tools::{
    dead_code_page, limited_script, mutation_directive, mutation_error, parse_depth, parse_limit,
    parse_offset,
};
use ferrograph::watch::{is_rust_source, marks_dirty, reindex, watch_tick, WatchStep};

fn id(s: &str) -> NodeId {
    NodeId::new(s)
}

fn dead_store() -> Store {
    let mut store = Store::new_memory();
    store.put_node(&id("src/lib.rs#10:1"), &NodeType::Function, Some("a"));
    store.put_node(&id("src/foo.rs#5:1"), &NodeType::Function, Some("b"));
    store.put_node(&id("tests/helper.rs#1:1"), &NodeType::Function, Some("c"));
    store
}

#[test]
fn handle_dead_code_returns_structure_with_dead_node_ids() {
    let store = dead_store();
    let page = dead_code_page(&store, None, None, 0, 100).unwrap();
    assert_eq!(page.count, 3);
    assert_eq!(page.total_filtered, 3);
    assert_eq!(page.source, "computed");
    assert_eq!(page.dead_node_ids.len(), 3);
}

#[test]
fn handle_dead_code_file_glob_filters_by_pattern() {
    let store = dead_store();
    let page = dead_code_page(&store, Some("src/**"), None, 0, 100).unwrap();
    assert!(page.dead_node_ids.iter().all(|id| id.starts_with("src/")), "all returned ids should match src/**");
    assert!(!page.dead_node_ids.iter().any(|id| id.starts_with("tests/")), "tests/ helper should be filtered out");
    assert_eq!(page.total_filtered, 2);
}

#[test]
fn dead_code_page_filters_type_and_pages() {
    let mut store = dead_store();
    store.put_node(&id("src/lib.rs#20:1"), &NodeType::Struct, Some("S"));
    detect_dead_code(&mut store);
    let page = dead_code_page(&store, None, Some("function"), 1, 1).unwrap();
    assert_eq!(page.source, "stored");
    assert_eq!(page.total_filtered, 3);
    assert_eq!(page.count, 1);
    assert_eq!(page.offset, 1);
    assert_eq!(page.limit, 1);
    assert_eq!(page.dead_node_ids, vec!["src/lib.rs#10:1".to_string()]);
    let none = dead_code_page(&store, None, Some("struct"), 0, 10).unwrap();
    assert!(none.dead_node_ids.is_empty());
    let past = dead_code_page(&store, None, None, 7, 10).unwrap();
    assert!(past.dead_node_ids.is_empty());
    assert_eq!(past.total_filtered, 3);
}

#[test]
fn invalid_glob_is_refused() {
    let store = dead_store();
    let err = dead_code_page(&store, Some("src/[a"), None, 0, 10).unwrap_err();
    assert!(err.starts_with("Invalid glob pattern: "), "{err}");
    assert!(dead_code(&store, Some("src/[a")).is_err());
}

#[test]
fn dead_code_reports_rows_with_caveat() {
    let store = dead_store();
    let all = dead_code(&store, None).unwrap();
    assert_eq!(all.count, 3);
    assert_eq!(all.source, "computed");
    assert_eq!(all.caveat, DEAD_CODE_CAVEAT);
    assert!(DEAD_CODE_CAVEAT.contains("dynamic dispatch"));
    let filtered = dead_code(&store, Some("src/*.rs#*")).unwrap();
    let ids: Vec<String> = filtered.dead_nodes.iter().map(|n| n.id.clone()).collect();
    assert_eq!(ids, vec!["src/foo.rs#5:1".to_string(), "src/lib.rs#10:1".to_string()]);
    assert_eq!(filtered.dead_nodes[0].payload.as_deref(), Some("b"));
}

#[test]
fn handle_query_rejects_mutation_directive() {
    let d = mutation_directive(":put x[a] := a = 1");
    assert_eq!(d, Some(":put"));
    assert_eq!(mutation_error(d.unwrap()), "Script may not contain mutation directive :put");
    assert_eq!(mutation_directive("?[x] := x = 1 :REMOVE t"), Some(":remove"));
    assert_eq!(mutation_directive(":rm a :put b"), Some(":put"));
}

#[test]
fn handle_query_accepts_read_only_script() {
    assert_eq!(mutation_directive("?[id, type, payload] := *nodes[id, type, payload]"), None);
    assert_eq!(
        limited_script("  ?[a] := a = 1  ", 100),
        "?[a] := a = 1\n:limit 100"
    );
}

#[test]
fn cli_query_script_adds_default_limit() {
    assert_eq!(query_script(" ?[a] := a = 1 "), "?[a] := a = 1\n:limit 10000");
    assert_eq!(query_script("?[a] := a = 1 :limit 5\n"), "?[a] := a = 1 :limit 5");
}

#[test]
fn tool_argument_defaults_and_bounds() {
    assert_eq!(parse_limit(None, 100, 10_000), 100);
    assert_eq!(parse_limit(Some(50_000), 100, 10_000), 10_000);
    assert_eq!(parse_limit(Some(7), 100, 10_000), 7);
    assert_eq!(parse_offset(None), 0);
    assert_eq!(parse_offset(Some(12)), 12);
    assert_eq!(parse_depth(None), 1);
    assert_eq!(parse_depth(Some(3)), 3);
    assert_eq!(parse_depth(Some(1000)), 100);
}

#[test]
fn handle_blast_radius_returns_reachable_nodes() {
    let mut store = Store::new_memory();
    store.put_node(&id("a#1:1"), &NodeType::Function, Some("a"));
    store.put_node(&id("b#1:1"), &NodeType::Function, Some("b"));
    store.put_edge(&id("a#1:1"), &id("b#1:1"), &EdgeType::Calls);
    let r = blast_radius(&store, "a#1:1");
    assert_eq!(r.from_node_id, "a#1:1");
    assert_eq!(r.count, 1);
    assert_eq!(r.reachable_nodes[0].id, "b#1:1");
}

#[test]
fn handle_node_info_returns_node_when_found() {
    let mut store = Store::new_memory();
    store.put_node(&id("n"), &NodeType::Function, Some("foo"));
    let info = node_info(&store, "n").unwrap();
    assert_eq!(info.node_type, "function");
    assert_eq!(info.payload.as_deref(), Some("foo"));
}

#[test]
fn handle_node_info_returns_error_when_not_found() {
    let store = Store::new_memory();
    assert!(node_info(&store, "nonexistent").is_none());
}

#[test]
fn handle_callers_depth1_returns_direct_callers() {
    let mut store = Store::new_memory();
    store.put_node(&id("caller"), &NodeType::Function, Some("caller"));
    store.put_node(&id("callee"), &NodeType::Function, Some("callee"));
    store.put_edge(&id("caller"), &id("callee"), &EdgeType::Calls);
    let r = callers(&store, "callee", 1);
    assert_eq!(r.node_id, "callee");
    assert_eq!(r.count, 1);
    assert_eq!(r.callers[0].id, "caller");
}

#[test]
fn search_status_traits_modules() {
    let mut store = Store::new_memory();
    store.put_node(&id("f.rs"), &NodeType::File, None);
    store.put_node(&id("f.rs#1:1"), &NodeType::Module, Some("m"));
    store.put_node(&id("f.rs#3:1"), &NodeType::Trait, Some("Greeter"));
    store.put_node(&id("f.rs#5:1"), &NodeType::Impl, Some("Greeter"));
    store.put_edge(&id("f.rs"), &id("f.rs#1:1"), &EdgeType::Contains);
    store.put_edge(&id("f.rs#5:1"), &id("f.rs#3:1"), &EdgeType::ImplementsTrait);
    let s = search(&store, "greet", true, 1, 0);
    assert_eq!(s.total, 2);
    assert_eq!(s.count, 1);
    assert_eq!(s.results[0].id, "f.rs#3:1");
    let st = status(&store, "/db", Some(42));
    assert_eq!(st.node_count, 4);
    assert_eq!(st.edge_count, 2);
    assert_eq!(st.db_path, "/db");
    assert_eq!(st.indexed_at, Some(42));
    let t = trait_implementors(&store, "Greet");
    assert_eq!(t.trait_name, "Greet");
    assert_eq!(t.count, 1);
    assert_eq!(t.implementors[0].id, "f.rs#5:1");
    let m = module_graph(&store, None);
    assert_eq!(m.count, 1);
    assert_eq!(m.edges[0].to_type, "module");
    assert_eq!(module_graph(&store, Some("g")).count, 0);
}

#[test]
fn summary_lines() {
    let n = NodeSummary { id: "a".to_string(), node_type: "function".to_string(), payload: None };
    assert_eq!(summary_line(&n), "a\tfunction\t—");
    let p = NodeSummary { id: "b".to_string(), node_type: "struct".to_string(), payload: Some("B".to_string()) };
    assert_eq!(summary_line(&p), "b\tstruct\tB");
}

#[test]
fn database_paths() {
    assert_eq!(resolve_db_path(Some("/x/db"), Some("/cwd")), Ok("/x/db".to_string()));
    assert_eq!(resolve_db_path(None, Some("/cwd")), Ok("/cwd/.ferrograph".to_string()));
    assert!(resolve_db_path(None, None).unwrap_err().contains("--db"));
    assert_eq!(default_db_path(Some("/cwd/")), Some("/cwd/.ferrograph".to_string()));
    assert_eq!(status_db_path("/proj", true), "/proj/.ferrograph");
    assert_eq!(status_db_path("/proj/db", false), "/proj/db");
}

#[test]
fn watcher_decisions() {
    assert!(is_rust_source("/a/b/c.rs"));
    assert!(!is_rust_source("/a/b/.rs"));
    assert!(!is_rust_source("/a/b.rs/c"));
    assert!(!is_rust_source("/a/b/c.toml"));
    assert!(marks_dirty(true, &vec!["x.toml".to_string(), "y.rs".to_string()]));
    assert!(!marks_dirty(false, &vec!["y.rs".to_string()]));
    assert!(!marks_dirty(true, &vec!["README.md".to_string()]));
    assert_eq!(watch_tick(false, true), WatchStep::Stop);
    assert_eq!(watch_tick(true, true), WatchStep::Reindex);
    assert_eq!(watch_tick(true, false), WatchStep::Wait);
}

#[test]
fn reindex_replaces_the_contents_after_a_successful_run() {
    let mut store = ferrograph::graph::store::Store::new_memory();
    store.put_node_row("old.rs#1:1", "function", Some("gone"));
    store.put_edge_row("old.rs#1:1", "old.rs#2:1", "calls");
    let files = vec![("/w/src/main.rs".to_string(), "fn main() {}\n".to_string())];
    let config = ferrograph::pipeline::pipeline_run::PipelineConfig::default();
    assert_eq!(reindex(&mut store, "/w", &files, &config), Ok(()));
    let ids: Vec<String> = ferrograph::graph::query::Query::all_nodes(&store).into_iter().map(|r| r.id).collect();
    assert_eq!(ids, vec!["/w/src/main.rs".to_string(), "/w/src/main.rs#1:1".to_string()]);
    assert!(ferrograph::graph::query::Query::all_edges(&store).iter().all(|e| e.from_id != "old.rs#1:1"));
}
