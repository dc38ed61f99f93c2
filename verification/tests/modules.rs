use ferrograph::graph::query::Query;
use ferrograph::graph::schema::{EdgeType, NodeId, NodeType};
use ferrograph::graph::store::Store;
use ferrograph::pipeline::ast::extract_ast;
use ferrograph::pipeline::modules::{
    build_module_maps, file_to_module_path, resolve_modules, resolve_use_path,
};
use ferrograph::pipeline::pipeline_run::{run_pipeline, PipelineConfig};

#[test]
fn module_paths_of_files() {
    let files: Vec<String> = ["/p/src/lib.rs", "/p/src/main.rs", "/p/src/utils.rs", "/p/src/a/b/mod.rs", "/p/src/a/c.rs", "/p", "/q/src/lib.rs"]
        .iter()
        .map(|s| s.to_string())
        .collect();
    assert_eq!(file_to_module_path("/p", "/p/src/lib.rs", &files), Some("crate".to_string()));
    assert_eq!(file_to_module_path("/p", "/p/src/main.rs", &files), Some("crate".to_string()));
    assert_eq!(file_to_module_path("/p", "/p/src/utils.rs", &files), Some("crate::utils".to_string()));
    assert_eq!(file_to_module_path("/p", "/p/src/a/b/mod.rs", &files), Some("crate::a::b".to_string()));
    assert_eq!(file_to_module_path("/p/", "/p/src/a/c.rs", &files), Some("crate::a::c".to_string()));
    assert_eq!(file_to_module_path("/p", "/p", &files), Some("crate".to_string()));
    assert_eq!(file_to_module_path("/p", "/q/src/lib.rs", &files), None);
    assert_eq!(file_to_module_path("/p", "/p/src/missing.rs", &files), None);
    assert_eq!(file_to_module_path("/p", "/pp/src/lib.rs", &files), None);
}

#[test]
fn resolve_modules_empty_store_succeeds() {
    let mut store = Store::new_memory();
    resolve_modules(&mut store, "/root", &Vec::new());
    assert_eq!(store.edge_count(), 0);
}

fn indexed(files: &[(&str, &str)]) -> Store {
    let mut store = Store::new_memory();
    for (path, content) in files {
        extract_ast(&mut store, path, content).unwrap();
    }
    store
}

#[test]
fn resolve_modules_creates_imports_edge() {
    let lib = "mod utils;\nuse crate::utils;\npub fn greet() {}";
    let utils = "pub fn add() {}";
    let mut store = indexed(&[("/r/src/lib.rs", lib), ("/r/src/utils.rs", utils)]);
    let sources = vec![
        ("/r/src/lib.rs".to_string(), vec!["crate::utils".to_string()]),
        ("/r/src/utils.rs".to_string(), Vec::new()),
    ];
    resolve_modules(&mut store, "/r", &sources);
    let imports: Vec<(String, String)> = Query::all_edges(&store)
        .into_iter()
        .filter(|e| e.edge_type == "imports")
        .map(|e| (e.from_id, e.to_id))
        .collect();
    assert_eq!(imports, vec![("/r/src/lib.rs".to_string(), "/r/src/utils.rs".to_string())]);
}

#[test]
fn use_of_an_item_points_at_the_item() {
    let mut store = indexed(&[("/r/src/lib.rs", "mod utils;\n"), ("/r/src/utils.rs", "pub fn add() {}\n")]);
    let maps = build_module_maps(&store, "/r");
    assert_eq!(maps.file_ids, vec!["/r/src/lib.rs".to_string(), "/r/src/utils.rs".to_string()]);
    assert!(maps.module_files.contains(&("crate::utils".to_string(), "/r/src/utils.rs".to_string())));
    let found = resolve_use_path("crate::utils::add", "crate", &maps.module_files, &store);
    assert_eq!(found, Some(("/r/src/utils.rs".to_string(), Some("/r/src/utils.rs#1:1".to_string()))));
    let module_only = resolve_use_path("self::utils", "crate", &maps.module_files, &store);
    assert_eq!(module_only, Some(("/r/src/utils.rs".to_string(), None)));
    assert_eq!(resolve_use_path("std::io", "crate", &maps.module_files, &store), None);
    let sources = vec![("/r/src/lib.rs".to_string(), vec!["crate::utils::add".to_string()])];
    resolve_modules(&mut store, "/r", &sources);
    assert!(Query::all_edges(&store).iter().any(|e| e.edge_type == "imports" && e.to_id == "/r/src/utils.rs#1:1"));
}

#[test]
fn super_paths_start_at_the_parent() {
    let store = indexed(&[
        ("/r/src/lib.rs", "mod a;\nmod b;\n"),
        ("/r/src/a.rs", "pub fn x() {}\n"),
        ("/r/src/b.rs", "use super::a::x;\n"),
    ]);
    let maps = build_module_maps(&store, "/r");
    let found = resolve_use_path("super::a::x", "crate::b", &maps.module_files, &store);
    assert_eq!(found, Some(("/r/src/a.rs".to_string(), Some("/r/src/a.rs#1:1".to_string()))));
}

#[test]
fn pipeline_indexes_and_links_calls() {
    let files = vec![
        ("/w/src/main.rs".to_string(), "mod util;\nuse crate::util::helper;\nfn main() { helper(); }\nfn unused() {}\n".to_string()),
        ("/w/src/util.rs".to_string(), "pub fn helper() {}\n".to_string()),
    ];
    let mut store = Store::new_memory();
    run_pipeline(&mut store, "/w", &files, &PipelineConfig::default()).unwrap();
    let edges = Query::all_edges(&store);
    assert!(edges.iter().any(|e| e.edge_type == "calls" && e.from_id == "/w/src/main.rs#3:1" && e.to_id == "/w/src/util.rs#1:1"), "{edges:?}");
    assert_eq!(Query::stored_dead_functions(&store), vec!["/w/src/main.rs#4:1".to_string()]);
    let _ = NodeId::new("x");
    let _ = (NodeType::File, EdgeType::Calls);
}

#[test]
fn dot_relative_paths_are_cleaned_before_matching() {
    let files: Vec<String> = vec!["./src/lib.rs".to_string(), "./src/a/../utils.rs".to_string()];
    assert_eq!(file_to_module_path(".", "./src/lib.rs", &files), Some("crate".to_string()));
    assert_eq!(file_to_module_path(".", "./src/a/../utils.rs", &files), Some("crate::utils".to_string()));
    assert_eq!(file_to_module_path("./", "./src/lib.rs", &files), Some("crate".to_string()));
}

#[test]
fn pipeline_links_calls_for_dot_relative_ids() {
    let files = vec![
        ("./src/main.rs".to_string(), "mod util;\nuse crate::util::helper;\nfn main() { helper(); }\n".to_string()),
        ("./src/util.rs".to_string(), "pub fn helper() {}\n".to_string()),
    ];
    let mut store = Store::new_memory();
    run_pipeline(&mut store, ".", &files, &PipelineConfig::default()).unwrap();
    let edges = Query::all_edges(&store);
    assert!(
        edges.iter().any(|e| e.edge_type == "imports" && e.from_id == "./src/main.rs"),
        "{edges:?}"
    );
    assert!(
        edges.iter().any(|e| e.edge_type == "calls" && e.from_id == "./src/main.rs#3:1" && e.to_id == "./src/util.rs#1:1"),
        "{edges:?}"
    );
}
