use ferrograph::graph::query::Query;
use ferrograph::graph::store::Store;
use ferrograph::pipeline::git_coupling::{analyze_git_coupling, couple_changed_files, MAX_GIT_COMMITS};

fn edges(store: &Store) -> Vec<(String, String, String)> {
    Query::all_edges(store).into_iter().map(|e| (e.from_id, e.to_id, e.edge_type)).collect()
}

fn paths(v: &[&str]) -> Vec<String> {
    v.iter().map(|s| s.to_string()).collect()
}

#[test]
fn coupling_links_each_pair_once_with_repeats_dropped() {
    let mut store = Store::new_memory();
    couple_changed_files(&mut store, &paths(&["src/a.rs", "src/b.rs", "src/a.rs", "src/c.rs"]));
    let got = edges(&store);
    assert_eq!(got.len(), 3);
    for (from, to) in [("./src/a.rs", "./src/b.rs"), ("./src/a.rs", "./src/c.rs"), ("./src/b.rs", "./src/c.rs")] {
        assert!(got.contains(&(from.to_string(), to.to_string(), "changes_with".to_string())));
    }
}

#[test]
fn coupling_single_file_adds_nothing() {
    let mut store = Store::new_memory();
    couple_changed_files(&mut store, &paths(&["src/lib.rs"]));
    assert!(edges(&store).is_empty());
}

#[test]
fn coupling_over_commits_unions_pairs() {
    let mut store = Store::new_memory();
    let commits = vec![paths(&["a.rs", "b.rs"]), paths(&["b.rs", "a.rs"]), paths(&["c.rs", "d.rs"])];
    analyze_git_coupling(&mut store, &commits);
    let got = edges(&store);
    assert_eq!(got.len(), 3);
    assert!(got.contains(&("./a.rs".to_string(), "./b.rs".to_string(), "changes_with".to_string())));
    assert!(got.contains(&("./b.rs".to_string(), "./a.rs".to_string(), "changes_with".to_string())));
    assert!(got.contains(&("./c.rs".to_string(), "./d.rs".to_string(), "changes_with".to_string())));
}

#[test]
fn coupling_looks_at_no_more_than_the_commit_cap() {
    let mut store = Store::new_memory();
    let mut commits: Vec<Vec<String>> = (0..MAX_GIT_COMMITS).map(|_| paths(&["x.rs", "y.rs"])).collect();
    commits.push(paths(&["late.rs", "later.rs"]));
    analyze_git_coupling(&mut store, &commits);
    let got = edges(&store);
    assert_eq!(got, vec![("./x.rs".to_string(), "./y.rs".to_string(), "changes_with".to_string())]);
}

#[test]
fn coupling_skips_files_that_are_not_rust() {
    let mut store = Store::new_memory();
    couple_changed_files(&mut store, &paths(&["README.md", "src/a.rs", "Cargo.toml", "src/b.rs"]));
    assert_eq!(edges(&store), vec![("./src/a.rs".to_string(), "./src/b.rs".to_string(), "changes_with".to_string())]);
}
