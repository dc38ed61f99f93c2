//! The decisions of the file watcher: which changes make the index stale, and what each tick
//! of the watch loop does.

use vstd::prelude::*;

use crate::graph::store::{is_edge_type_name, strings_v, typed_node_map, EdgeV, Store};
use crate::pipeline::ast::rust_syntax;
use crate::pipeline::pipeline_run::{files_v, pipeline_ran, run_pipeline, PipelineConfig};
use crate::text::{chars_of, ends_with, has_suffix};

verus! {

/// Debounce interval before re-indexing after a change (seconds).
pub const DEBOUNCE_SECS: u64 = 2;

/// The last component of a path: what follows its last `/`.
pub open spec fn file_name(path: Seq<char>) -> Seq<char>
    decreases path.len(),
{
    if path.len() == 0 {
        path
    } else if path.last() == '/' {
        Seq::empty()
    } else {
        file_name(path.drop_last()).push(path.last())
    }
}

/// The path names a Rust source file: its file name has the extension `rs` (a name that is
/// only `.rs` has no extension).
pub open spec fn is_rust_path(path: Seq<char>) -> bool {
    has_suffix(file_name(path), ".rs"@) && file_name(path).len() > ".rs"@.len()
}

/// Whether a path names a Rust source file, computed.
pub fn is_rust_source(path: &str) -> (res: bool)
    ensures
        res == is_rust_path(path@),
{
    let p = chars_of(path);
    let mut i: usize = p.len();
    assert(p@.take(p.len() as int) =~= p@);
    assert(p@.skip(p.len() as int) =~= Seq::<char>::empty());
    assert(file_name(p@) + Seq::<char>::empty() =~= file_name(p@));
    while i > 0 && p[i - 1] != '/'
        invariant
            i <= p.len(),
            file_name(p@) == file_name(p@.take(i as int)) + p@.skip(i as int),
        decreases i,
    {
        proof {
            let t = p@.take(i as int);
            assert(t.drop_last() =~= p@.take(i - 1));
            assert(file_name(t) == file_name(t.drop_last()).push(t.last()));
            assert(file_name(p@.take(i - 1)) + p@.skip(i - 1) =~= file_name(p@.take(i - 1)).push(
                p@[i - 1],
            ) + p@.skip(i as int));
        }
        i = i - 1;
    }
    proof {
        if i > 0 {
            assert(file_name(p@.take(i as int)) =~= Seq::<char>::empty());
        } else {
            assert(p@.take(0) =~= Seq::<char>::empty());
        }
        assert(file_name(p@) =~= p@.skip(i as int));
    }
    let name = crate::text::slice_range(p.as_slice(), i, p.len());
    let ext = chars_of(".rs");
    ends_with(name.as_slice(), ext.as_slice()) && name.len() > ext.len()
}

/// Whether a filesystem event makes the index stale: it is a modification, creation or
/// removal, and one of its paths is a Rust source file.
pub fn marks_dirty(is_change: bool, paths: &Vec<String>) -> (res: bool)
    ensures
        res == (is_change && exists|k: int| 0 <= k < paths@.len() && is_rust_path(#[trigger] paths@[k]@)),
{
    if !is_change {
        return false;
    }
    let mut k: usize = 0;
    while k < paths.len()
        invariant
            k <= paths.len(),
            is_change,
            forall|j: int| 0 <= j < k ==> !is_rust_path(#[trigger] paths@[j]@),
        decreases paths.len() - k,
    {
        if is_rust_source(paths[k].as_str()) {
            assert(is_rust_path(paths@[k as int]@));
            return true;
        }
        k = k + 1;
    }
    false
}

/// What the watch loop does after a debounce interval.
#[derive(Debug, PartialEq, Eq, Structural)]
pub enum WatchStep {
    /// Stop watching (Ctrl+C was pressed).
    Stop,
    /// Index again into a fresh store, and put it in place of the current contents only when
    /// that succeeds (`reindex`).
    Reindex,
    /// Nothing changed; wait for the next interval.
    Wait,
}

/// One tick of the watch loop: stop once stopped, re-index when a change was seen, else wait.
pub fn watch_tick(running: bool, dirty: bool) -> (res: WatchStep)
    ensures
        res == if !running {
            WatchStep::Stop
        } else if dirty {
            WatchStep::Reindex
        } else {
            WatchStep::Wait
        },
{
    if !running {
        WatchStep::Stop
    } else if dirty {
        WatchStep::Reindex
    } else {
        WatchStep::Wait
    }
}

/// A store with no nodes, edges or dead functions.
pub open spec fn is_empty_store(s: Store) -> bool {
    s.wf() && s.node_rows().len() == 0 && s.edge_rows().len() == 0 && s.dead_rows().len() == 0
}

/// `s` holds what `fresh` holds: its nodes and edges of known types and its dead functions.
pub open spec fn holds_copy_of(s: Store, fresh: Store) -> bool {
    &&& s.node_map() == typed_node_map(Map::empty(), fresh.node_rows())
    &&& s.edge_set() == fresh.edge_set().filter(|e: EdgeV| is_edge_type_name(e.2))
    &&& s.dead_set() == fresh.dead_set()
}

/// Re-index: run the pipeline on `files` into a fresh store and, only when that succeeds,
/// replace the contents of `store` by it. When a file has no syntax tree the error is returned
/// and `store` is left as it was.
pub fn reindex(store: &mut Store, root: &str, files: &Vec<(String, String)>, config: &PipelineConfig) -> (res: Result<(), String>)
    requires
        old(store).wf(),
    ensures
        final(store).wf(),
        res is Ok <==> forall|i: int| 0 <= i < files@.len() ==> #[trigger] rust_syntax(files@[i].1@) is Some,
        res is Err ==> *final(store) == *old(store),
        res is Ok ==> exists|empty: Store, fresh: Store|
            is_empty_store(empty) && pipeline_ran(empty, root@, files_v(files@), fresh) && holds_copy_of(
                *final(store),
                fresh,
            ),
{
    let mut fresh = Store::new_memory();
    let ghost empty = fresh;
    match run_pipeline(&mut fresh, root, files, config) {
        Ok(()) => {
            store.clear();
            let ghost cleared = *store;
            store.copy_from(&fresh);
            proof {
                assert(cleared.node_map() =~= Map::<Seq<char>, (Seq<char>, Option<Seq<char>>)>::empty());
                assert(cleared.edge_set() =~= Set::<EdgeV>::empty());
                assert(cleared.dead_set() =~= Set::<Seq<char>>::empty());
                assert(store.edge_set() =~= fresh.edge_set().filter(|e: EdgeV| is_edge_type_name(e.2)));
                assert(store.dead_set() =~= fresh.dead_set());
                assert(is_empty_store(empty) && pipeline_ran(empty, root@, files_v(files@), fresh)
                    && holds_copy_of(*store, fresh));
            }
            Ok(())
        },
        Err(e) => Err(e),
    }
}

} // verus!
