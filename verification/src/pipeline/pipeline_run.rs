//! The indexing pipeline over a project's source files.

use vstd::prelude::*;

use crate::graph::store::{strings_v, EdgeV, NodeV, Store};
use crate::pipeline::ast::{
    collect_use_paths, extract_ast, extraction_written, rust_syntax, use_decl_texts,
    use_paths_of_texts,
};
use crate::pipeline::calls::{build_call_graph, call_resolution, function_targets, is_call_placeholder};
use crate::pipeline::dead_code::detect_dead_code;
use crate::pipeline::modules::{module_import_edges, resolve_modules, sources_v};
use crate::pipeline::placeholder::rewrite_edges;

verus! {

/// Pipeline configuration (tier: fast, balanced, full).
#[derive(Clone, Debug)]
pub struct PipelineConfig {
    /// If true, run the rust-analyzer-based phases (full tier).
    pub full_semantic: bool,
}

impl Default for PipelineConfig {
    /// The fast tier: no rust-analyzer phases.
    fn default() -> (res: Self)
        ensures
            !res.full_semantic,
    {
        PipelineConfig { full_semantic: false }
    }
}

/// The abstract (path, content) pairs of source files.
pub open spec fn files_v(v: Seq<(String, String)>) -> Seq<(Seq<char>, Seq<char>)> {
    v.map_values(|f: (String, String)| (f.0@, f.1@))
}

/// `next` is `prev` with the source file `f` (path, content) extracted under its path.
pub open spec fn file_extracted(prev: Store, next: Store, f: (Seq<char>, Seq<char>)) -> bool {
    match rust_syntax(f.1) {
        Some(root) => extraction_written(prev, next, root, f.0),
        None => false,
    }
}

/// `chain` runs from `start` through the files, one extraction per file.
pub open spec fn extraction_chain(start: Store, files: Seq<(Seq<char>, Seq<char>)>, chain: Seq<Store>) -> bool {
    &&& chain.len() == files.len() + 1
    &&& chain[0] == start
    &&& forall|k: int| 0 <= k < files.len() ==> #[trigger] file_extracted(chain[k], chain[k + 1], files[k])
}

/// The use paths of a source file (none when it has no syntax tree).
pub open spec fn source_use_paths(content: Seq<char>) -> Seq<Seq<char>> {
    match rust_syntax(content) {
        Some(root) => use_paths_of_texts(use_decl_texts(root)),
        None => Seq::empty(),
    }
}

/// `new` is `old` after `resolve_modules` under `root` with these sources.
pub open spec fn modules_resolved(old: Store, new: Store, root: Seq<char>, src: Seq<(Seq<char>, Seq<Seq<char>>)>) -> bool {
    &&& new.wf()
    &&& new.edge_set() == old.edge_set().union(module_import_edges(root, old, src))
    &&& new.node_rows() == old.node_rows()
    &&& new.dead_rows() == old.dead_rows()
}

/// `new` is `old` after `build_call_graph`.
pub open spec fn calls_built(old: Store, new: Store) -> bool {
    &&& new.wf()
    &&& new.edge_set() == rewrite_edges(
        old.edge_rows(),
        old.edge_rows().len(),
        old.edge_set(),
        |e: EdgeV| is_call_placeholder(e),
        |e: EdgeV| call_resolution(function_targets(old), old.edge_rows(), e),
    )
    &&& new.node_rows() == old.node_rows()
    &&& new.dead_rows() == old.dead_rows()
}

/// `new` is `old` after `detect_dead_code`.
pub open spec fn dead_recorded(old: Store, new: Store) -> bool {
    &&& new.wf()
    &&& new.dead_set() == crate::graph::query::dead_function_rows(old).map_values(|r: NodeV| r.0).to_set()
    &&& new.node_rows() == old.node_rows()
    &&& new.edge_rows() == old.edge_rows()
}

/// `end` is what the pipeline makes of `start` for these files under `root`: each file
/// extracted in turn, then modules and imports resolved, the call graph built and dead code
/// recorded.
pub open spec fn pipeline_ran(start: Store, root: Seq<char>, fv: Seq<(Seq<char>, Seq<char>)>, end: Store) -> bool {
    exists|chain: Seq<Store>, s2: Store, s3: Store|
        extraction_chain(start, fv, chain)
        && modules_resolved(chain.last(), s2, root, fv.map_values(
            |f: (Seq<char>, Seq<char>)| (f.0, source_use_paths(f.1)),
        ))
        && calls_built(s2, s3)
        && dead_recorded(s3, end)
}

/// Run the indexing pipeline on a project's source files (path, content), found under `root`:
/// extract each file, resolve modules and imports, build the call graph, and record dead code.
/// (The rust-analyzer phase of the full tier adds nothing in this build; the git coupling phase
/// takes the history that the caller reads, see `analyze_git_coupling`.) Fails, at the first
/// such file, when a file has no syntax tree.
pub fn run_pipeline(store: &mut Store, root: &str, files: &Vec<(String, String)>, config: &PipelineConfig) -> (res: Result<(), String>)
    requires
        old(store).wf(),
    ensures
        final(store).wf(),
        res is Ok <==> forall|i: int| 0 <= i < files@.len() ==> #[trigger] rust_syntax(files@[i].1@) is Some,
        res is Ok ==> pipeline_ran(*old(store), root@, files_v(files@), *final(store)),
{
    let ghost fv = files_v(files@);
    let mut sources: Vec<(String, Vec<String>)> = Vec::new();
    let mut i: usize = 0;
    let ghost mut chain: Seq<Store> = seq![*old(store)];
    assert(fv.take(0) =~= Seq::<(Seq<char>, Seq<char>)>::empty());
    while i < files.len()
        invariant
            i <= files.len(),
            fv == files_v(files@),
            store.wf(),
            extraction_chain(*old(store), fv.take(i as int), chain),
            chain.last() == *store,
            forall|k: int| 0 <= k < i ==> #[trigger] rust_syntax(files@[k].1@) is Some,
            sources_v(sources@) == fv.take(i as int).map_values(
                |f: (Seq<char>, Seq<char>)| (f.0, source_use_paths(f.1)),
            ),
        decreases files.len() - i,
    {
        let (path, content) = &files[i];
        let ghost mid = *store;
        assert(fv[i as int] == (path@, content@));
        match extract_ast(store, path.as_str(), content.as_str()) {
            Err(e) => {
                return Err(e);
            },
            Ok(()) => {},
        }
        proof {
            assert(rust_syntax(content@) is Some);
            assert(file_extracted(mid, *store, fv[i as int]));
            let c0 = chain;
            chain = chain.push(*store);
            assert(fv.take(i + 1) =~= fv.take(i as int).push(fv[i as int]));
            assert forall|k: int| 0 <= k < i + 1 implies #[trigger] file_extracted(
                chain[k],
                chain[k + 1],
                fv.take(i + 1)[k],
            ) by {
                if k < i {
                    assert(file_extracted(c0[k], c0[k + 1], fv.take(i as int)[k]));
                }
            }
        }
        let ups = collect_use_paths(content.as_str());
        let ghost before = sources_v(sources@);
        assert(before.len() == i);
        sources.push((path.clone(), ups));
        proof {
            assert(strings_v(sources@[i as int].1@) == source_use_paths(content@));
            assert(sources_v(sources@) =~= before.push((path@, source_use_paths(content@))));
            assert(fv.take(i + 1) =~= fv.take(i as int).push(fv[i as int]));
            crate::graph::query::lemma_map_push(
                fv.take(i as int),
                fv[i as int],
                |f: (Seq<char>, Seq<char>)| (f.0, source_use_paths(f.1)),
            );
        }
        i = i + 1;
    }
    assert(fv.take(files.len() as int) =~= fv);
    let ghost s1 = *store;
    assert(extraction_chain(*old(store), fv, chain));
    resolve_modules(store, root, &sources);
    let ghost s2 = *store;
    build_call_graph(store);
    let ghost s3 = *store;
    if config.full_semantic {
        map_traits(store, root);
    }
    detect_dead_code(store);
    assert(modules_resolved(s1, s2, root@, fv.map_values(
        |f: (Seq<char>, Seq<char>)| (f.0, source_use_paths(f.1)),
    )));
    assert(calls_built(s2, s3));
    assert(pipeline_ran(*old(store), root@, fv, *store));
    Ok(())
}

/// Map trait implementations to traits with rust-analyzer (full tier). This build has no
/// rust-analyzer phase, so the store is left as it is; tree-sitter placeholder resolution is
/// done by `resolve_impl_trait_edges`.
pub fn map_traits(store: &mut Store, root: &str)
    ensures
        *final(store) == *old(store),
{
}

} // verus!
