//! Git change coupling: files that change together in one commit get `changes_with` edges.
//! The history itself (which paths each commit changed) is read by the caller; only the Rust
//! files among them are coupled.

use vstd::prelude::*;

use crate::graph::reach::contains_string;
use crate::graph::store::{strings_v, EdgeV, Store};
use crate::graph::query::{lemma_filter_ends, lemma_filter_step, lemma_map_push};
use crate::text::{chars_of, concat, ends_with, has_suffix, string_from_chars};

verus! {

/// At most this many commits, newest first, are looked at.
pub const MAX_GIT_COMMITS: usize = 200;

/// The id of the file node for a path relative to the project root.
pub open spec fn file_node_id(path: Seq<char>) -> Seq<char> {
    "./"@ + path
}

/// `s` without repeats, each item where it first occurs.
pub open spec fn dedup(s: Seq<Seq<char>>) -> Seq<Seq<char>>
    decreases s.len(),
{
    if s.len() == 0 {
        s
    } else {
        let d = dedup(s.drop_last());
        if d.contains(s.last()) {
            d
        } else {
            d.push(s.last())
        }
    }
}

/// The changed paths that name Rust files (they end with `.rs`).
pub open spec fn rust_paths(paths: Seq<Seq<char>>) -> Seq<Seq<char>> {
    paths.filter(|p: Seq<char>| has_suffix(p, ".rs"@))
}

/// The distinct file ids of one commit's changed Rust files.
pub open spec fn commit_ids(paths: Seq<Seq<char>>) -> Seq<Seq<char>> {
    dedup(rust_paths(paths).map_values(|p: Seq<char>| file_node_id(p)))
}

/// A `changes_with` edge from each id to every later one.
pub open spec fn pair_edges(ids: Seq<Seq<char>>) -> Set<EdgeV> {
    Set::new(
        |e: EdgeV|
            exists|i: int, j: int|
                0 <= i < j < ids.len() && e == (ids[i], ids[j], "changes_with"@),
    )
}

/// The pairs whose first id comes before position `i`, or is at `i` with the second before
/// position `j`.
pub open spec fn pairs_upto(ids: Seq<Seq<char>>, i: int, j: int) -> Set<EdgeV> {
    Set::new(
        |e: EdgeV|
            exists|a: int, b: int|
                0 <= a < b < ids.len() && (a < i || (a == i && b < j)) && e == (
                    ids[a],
                    ids[b],
                    "changes_with"@,
                ),
    )
}

/// The coupling edges of the first `n` commits.
pub open spec fn coupling_edges(commits: Seq<Seq<Seq<char>>>, n: int) -> Set<EdgeV>
    decreases n,
{
    if n <= 0 {
        Set::empty()
    } else {
        coupling_edges(commits, n - 1).union(pair_edges(commit_ids(commits[n - 1])))
    }
}

/// The abstract commits: each one's changed paths.
pub open spec fn commits_v(c: Seq<Vec<String>>) -> Seq<Seq<Seq<char>>> {
    c.map_values(|v: Vec<String>| strings_v(v@))
}

/// The distinct file ids of one commit's changed paths, computed.
fn distinct_ids(paths: &Vec<String>) -> (res: Vec<String>)
    ensures
        strings_v(res@) == commit_ids(strings_v(paths@)),
{
    let ghost pv = strings_v(paths@);
    let ghost pred = |p: Seq<char>| has_suffix(p, ".rs"@);
    let ghost f = |p: Seq<char>| file_node_id(p);
    let mut ids: Vec<String> = Vec::new();
    let prefix = chars_of("./");
    let ext = chars_of(".rs");
    let mut i: usize = 0;
    proof {
        lemma_filter_ends(pv, pred);
    }
    while i < paths.len()
        invariant
            i <= paths.len(),
            prefix@ == "./"@,
            ext@ == ".rs"@,
            pv == strings_v(paths@),
            pred == (|p: Seq<char>| has_suffix(p, ".rs"@)),
            f == (|p: Seq<char>| file_node_id(p)),
            strings_v(ids@) == dedup(pv.take(i as int).filter(pred).map_values(f)),
        decreases paths.len() - i,
    {
        let path = chars_of(paths[i].as_str());
        assert(path@ == pv[i as int]);
        proof {
            lemma_filter_step(pv, i as int, pred);
        }
        if ends_with(path.as_slice(), ext.as_slice()) {
            let c = concat(prefix.as_slice(), path.as_slice());
            let id = string_from_chars(c.as_slice());
            let ghost prev = pv.take(i as int).filter(pred).map_values(f);
            proof {
                lemma_map_push(pv.take(i as int).filter(pred), pv[i as int], f);
                assert(prev.push(id@).drop_last() =~= prev);
            }
            if !contains_string(&ids, &id) {
                let ghost before = strings_v(ids@);
                ids.push(id);
                assert(strings_v(ids@) =~= before.push(f(pv[i as int])));
            }
        }
        i = i + 1;
    }
    proof {
        lemma_filter_ends(pv, pred);
    }
    ids
}

/// Add a `changes_with` edge between every two Rust files changed together in one commit: the
/// changed paths (relative to the project root) that end with `.rs` become file ids `./path`,
/// repeats dropped, and each id gets an edge to every later one.
pub fn couple_changed_files(store: &mut Store, paths: &Vec<String>)
    requires
        old(store).wf(),
    ensures
        final(store).wf(),
        final(store).edge_set() == old(store).edge_set().union(
            pair_edges(commit_ids(strings_v(paths@))),
        ),
        final(store).node_rows() == old(store).node_rows(),
        final(store).dead_rows() == old(store).dead_rows(),
{
    let ids = distinct_ids(paths);
    let ghost iv = strings_v(ids@);
    let n = ids.len();
    let mut i: usize = 0;
    assert(pairs_upto(iv, 0, 0) =~= Set::empty());
    while i < n
        invariant
            n == ids.len(),
            iv == strings_v(ids@),
            i <= n,
            store.wf(),
            store.edge_set() == old(store).edge_set().union(pairs_upto(iv, i as int, 0)),
            store.node_rows() == old(store).node_rows(),
            store.dead_rows() == old(store).dead_rows(),
        decreases n - i,
    {
        let mut j: usize = i + 1;
        assert(pairs_upto(iv, i as int, 0) =~= pairs_upto(iv, i as int, (i + 1) as int));
        while j < n
            invariant
                n == ids.len(),
                iv == strings_v(ids@),
                i < n,
                i + 1 <= j <= n,
                store.wf(),
                store.edge_set() == old(store).edge_set().union(pairs_upto(iv, i as int, j as int)),
                store.node_rows() == old(store).node_rows(),
                store.dead_rows() == old(store).dead_rows(),
            decreases n - j,
        {
            let ghost e: EdgeV = (iv[i as int], iv[j as int], "changes_with"@);
            store.put_edge_row(ids[i].as_str(), ids[j].as_str(), "changes_with");
            assert(pairs_upto(iv, i as int, (j + 1) as int) =~= pairs_upto(iv, i as int, j as int).insert(e)) by {
                assert forall|x: EdgeV| pairs_upto(iv, i as int, (j + 1) as int).contains(x) implies
                    #[trigger] pairs_upto(iv, i as int, j as int).insert(e).contains(x) by {
                    let (a, b) = choose|a: int, b: int|
                        0 <= a < b < iv.len() && (a < i || (a == i && b < j + 1)) && x == (
                            iv[a],
                            iv[b],
                            "changes_with"@,
                        );
                    if !(a == i && b == j) {
                        assert(pairs_upto(iv, i as int, j as int).contains(x));
                    }
                }
                assert(pairs_upto(iv, i as int, (j + 1) as int).contains(e));
            }
            j = j + 1;
        }
        assert(pairs_upto(iv, i as int, n as int) =~= pairs_upto(iv, (i + 1) as int, 0)) by {
            assert forall|x: EdgeV| pairs_upto(iv, (i + 1) as int, 0).contains(x) implies
                #[trigger] pairs_upto(iv, i as int, n as int).contains(x) by {
                let (a, b) = choose|a: int, b: int|
                    0 <= a < b < iv.len() && (a < i + 1 || (a == i + 1 && b < 0)) && x == (
                        iv[a],
                        iv[b],
                        "changes_with"@,
                    );
                assert(a < i || (a == i && b < n));
            }
        }
        i = i + 1;
    }
    assert(pairs_upto(iv, n as int, 0) =~= pair_edges(iv));
}

/// Add coupling edges for the changed files of each commit, newest first, looking at no more
/// than `MAX_GIT_COMMITS` commits.
pub fn analyze_git_coupling(store: &mut Store, commits: &Vec<Vec<String>>)
    requires
        old(store).wf(),
    ensures
        final(store).wf(),
        final(store).edge_set() == old(store).edge_set().union(
            coupling_edges(
                commits_v(commits@),
                if commits@.len() < MAX_GIT_COMMITS {
                    commits@.len() as int
                } else {
                    MAX_GIT_COMMITS as int
                },
            ),
        ),
        final(store).node_rows() == old(store).node_rows(),
        final(store).dead_rows() == old(store).dead_rows(),
{
    let ghost cv = commits_v(commits@);
    let limit = if commits.len() < MAX_GIT_COMMITS {
        commits.len()
    } else {
        MAX_GIT_COMMITS
    };
    let mut k: usize = 0;
    while k < limit
        invariant
            k <= limit <= commits.len(),
            cv == commits_v(commits@),
            store.wf(),
            store.edge_set() == old(store).edge_set().union(coupling_edges(cv, k as int)),
            store.node_rows() == old(store).node_rows(),
            store.dead_rows() == old(store).dead_rows(),
        decreases limit - k,
    {
        couple_changed_files(store, &commits[k]);
        assert(cv[k as int] == strings_v(commits@[k as int]@));
        assert(store.edge_set() =~= old(store).edge_set().union(coupling_edges(cv, (k + 1) as int)));
        k = k + 1;
    }
}

} // verus!
