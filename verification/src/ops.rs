//! Shared operations used by both the CLI and the MCP server.

use vstd::prelude::*;

use crate::graph::query::{
    dead_function_rows, first_n, nearer_first, caller_steps, callers_ids, implements_matching, in_blast_radius, is_caller_of,
    is_key_count, module_edges_unfiltered, module_edges_v, keeps_prefix, opt_str_v, counts_v,
    no_dups_ids, ModuleEdge, ModuleEdgeV, NodeInfo, Query, BLAST_RADIUS_LIMIT,
    TRAIT_IMPLEMENTORS_LIMIT,
};
use crate::graph::store::{node_rows_v, opt_chars, EdgeV, NodeRow, NodeV, Store};
use crate::search::{page, search_matches, text_search};
use crate::text::{chars_of, concat, contains, contains_seq, string_from_chars, trim, trim_chars};

verus! {

/// Result of a status query.
#[derive(Debug)]
pub struct StatusResult {
    pub db_path: String,
    pub node_count: usize,
    pub edge_count: usize,
    pub indexed_at: Option<u64>,
    pub nodes_by_type: Vec<(String, usize)>,
    pub edges_by_type: Vec<(String, usize)>,
}

/// A single search result row.
#[derive(Debug)]
pub struct SearchResultItem {
    pub id: String,
    pub node_type: String,
    pub payload: Option<String>,
}

impl View for SearchResultItem {
    type V = NodeV;

    open spec fn view(&self) -> NodeV {
        (self.id@, self.node_type@, opt_chars(self.payload))
    }
}

/// Result of a search query.
#[derive(Debug)]
pub struct SearchResult {
    pub results: Vec<SearchResultItem>,
    pub count: usize,
    pub total: usize,
}

/// A node summary (id, type, payload) used across multiple results.
#[derive(Debug)]
pub struct NodeSummary {
    pub id: String,
    pub node_type: String,
    pub payload: Option<String>,
}

impl View for NodeSummary {
    type V = NodeV;

    open spec fn view(&self) -> NodeV {
        (self.id@, self.node_type@, opt_chars(self.payload))
    }
}

/// The views of node summaries.
pub open spec fn summaries_v(v: Seq<NodeSummary>) -> Seq<NodeV> {
    v.map_values(|s: NodeSummary| s@)
}

/// The views of search result rows.
pub open spec fn items_v(v: Seq<SearchResultItem>) -> Seq<NodeV> {
    v.map_values(|s: SearchResultItem| s@)
}

/// Result of a dead code analysis.
#[derive(Debug)]
pub struct DeadCodeResult {
    pub dead_nodes: Vec<NodeSummary>,
    pub count: usize,
    pub source: String,
    pub caveat: &'static str,
}

/// Caveat about dynamic dispatch included in dead code results.
pub const DEAD_CODE_CAVEAT: &'static str = "Note: functions called via dyn Trait (dynamic dispatch) may appear as dead because ferrograph uses static analysis only.";

/// Result of a blast radius query.
#[derive(Debug)]
pub struct BlastRadiusResult {
    pub from_node_id: String,
    pub reachable_nodes: Vec<NodeSummary>,
    pub count: usize,
}

/// Result of a callers query.
#[derive(Debug)]
pub struct CallersResult {
    pub node_id: String,
    pub callers: Vec<NodeSummary>,
    pub count: usize,
}

/// Result of a trait implementors query.
#[derive(Debug)]
pub struct TraitImplementorsResult {
    pub trait_name: String,
    pub implementors: Vec<NodeSummary>,
    pub count: usize,
}

/// Result of a module graph query.
#[derive(Debug)]
pub struct ModuleGraphResult {
    pub edges: Vec<ModuleEdge>,
    pub count: usize,
}

/// Node rows as summaries, in order.
pub fn summaries(rows: Vec<NodeRow>) -> (res: Vec<NodeSummary>)
    ensures
        summaries_v(res@) == node_rows_v(rows@),
{
    let mut res: Vec<NodeSummary> = Vec::new();
    let mut rows = rows;
    let ghost all = node_rows_v(rows@);
    let mut taken: Vec<NodeRow> = Vec::new();
    let mut i: usize = 0;
    let n = rows.len();
    while i < n
        invariant
            i <= n,
            n == all.len(),
            rows@.len() == n,
            node_rows_v(rows@) == all,
            summaries_v(res@) == all.take(i as int),
        decreases n - i,
    {
        let r = &rows[i];
        let ghost before = summaries_v(res@);
        res.push(
            NodeSummary {
                id: r.id.clone(),
                node_type: r.node_type.clone(),
                payload: crate::graph::store::clone_opt(&r.payload),
            },
        );
        proof {
            assert(all[i as int] == rows@[i as int]@);
            assert(summaries_v(res@) =~= before.push(all[i as int]));
            assert(all.take(i + 1) =~= all.take(i as int).push(all[i as int]));
        }
        i = i + 1;
    }
    assert(all.take(n as int) =~= all);
    res
}

/// Return graph status: the database path given, its modification time (seconds since the
/// epoch, when known) and the node and edge counts, in total and per type.
pub fn status(store: &Store, db_path: &str, indexed_at: Option<u64>) -> (res: StatusResult)
    ensures
        res.db_path@ == db_path@,
        res.node_count == store.node_rows().len(),
        res.edge_count == store.edge_rows().len(),
        res.indexed_at == indexed_at,
        is_key_count(store.node_rows().map_values(|r: NodeV| r.1), counts_v(res.nodes_by_type@)),
        is_key_count(store.edge_rows().map_values(|e: EdgeV| e.2), counts_v(res.edges_by_type@)),
{
    StatusResult {
        db_path: db_path.to_owned(),
        node_count: store.node_count(),
        edge_count: store.edge_count(),
        indexed_at,
        nodes_by_type: Query::count_nodes_by_type(store),
        edges_by_type: Query::count_edges_by_type(store),
    }
}

/// Run a text search: the matching nodes (substring of the payload, optionally
/// case-insensitive), `offset` of them skipped and at most `limit` kept, with the total count.
pub fn search(store: &Store, query: &str, case_insensitive: bool, limit: usize, offset: usize) -> (res: SearchResult)
    ensures
        items_v(res.results@) == page(
            search_matches(*store, query@, case_insensitive),
            limit as int,
            offset as int,
        ),
        res.count == res.results@.len(),
        res.total == search_matches(*store, query@, case_insensitive).len(),
{
    let (rows, total) = text_search(store, query, case_insensitive, limit, offset);
    let s = summaries(rows);
    let mut results: Vec<SearchResultItem> = Vec::new();
    let mut i: usize = 0;
    while i < s.len()
        invariant
            i <= s.len(),
            items_v(results@) == summaries_v(s@).take(i as int),
        decreases s.len() - i,
    {
        let ghost before = items_v(results@);
        results.push(
            SearchResultItem {
                id: s[i].id.clone(),
                node_type: s[i].node_type.clone(),
                payload: crate::graph::store::clone_opt(&s[i].payload),
            },
        );
        proof {
            assert(items_v(results@) =~= before.push(s@[i as int]@));
            assert(summaries_v(s@).take(i + 1) =~= summaries_v(s@).take(i as int).push(s@[i as int]@));
        }
        i = i + 1;
    }
    assert(summaries_v(s@).take(s.len() as int) =~= summaries_v(s@));
    let count = results.len();
    SearchResult { results, count, total }
}

/// Whether a glob pattern fails to compile, and why, as `glob::Pattern::new` reports it.
pub uninterp spec fn glob_error(pattern: Seq<char>) -> Option<Seq<char>>;

/// Whether a text matches a glob pattern, as `glob::Pattern::matches` decides it.
pub uninterp spec fn glob_matches(pattern: Seq<char>, text: Seq<char>) -> bool;

/// Compiles a glob pattern (`glob::Pattern::new`) and gives the error's message when it does
/// not compile. Claimed: the outcome is `glob_error` of the pattern.
#[verifier::external_body]
pub(crate) fn glob_pattern_error(pattern: &str) -> (res: Option<String>)
    ensures
        match res {
            Some(e) => glob_error(pattern@) == Some(e@),
            None => glob_error(pattern@) is None,
        },
{
    glob::Pattern::new(pattern).err().map(|e| e.to_string())
}

/// Matches a text against a glob pattern that compiles (`glob::Pattern::matches` on the
/// pattern that `glob::Pattern::new` gives). Claimed: the outcome is `glob_matches`.
#[verifier::external_body]
pub(crate) fn glob_pattern_matches(pattern: &str, text: &str) -> (res: bool)
    requires
        glob_error(pattern@) is None,
    ensures
        res == glob_matches(pattern@, text@),
{
    glob::Pattern::new(pattern).map(|p| p.matches(text)).unwrap_or(false)
}

/// The recorded dead functions with their type and payload (those with a node), in record
/// order.
pub open spec fn stored_dead_rows(store: Store) -> Seq<NodeV> {
    store.dead_rows().filter(|d: Seq<char>| store.node_map().contains_key(d)).map_values(
        |d: Seq<char>| (d, store.node_map()[d].0, store.node_map()[d].1),
    )
}

/// The dead functions a dead code query reports, and where they come from: the recorded ones
/// (`stored`), or, when none are recorded, those computed by reachability (`computed`).
pub open spec fn dead_rows_and_source(store: Store) -> (Seq<NodeV>, Seq<char>) {
    if stored_dead_rows(store).len() == 0 {
        (dead_function_rows(store), "computed"@)
    } else {
        (stored_dead_rows(store), "stored"@)
    }
}

/// The rows whose id matches the glob pattern.
pub open spec fn glob_filtered(rows: Seq<NodeV>, pattern: Seq<char>) -> Seq<NodeV> {
    rows.filter(|r: NodeV| glob_matches(pattern, r.0))
}

/// The summaries whose entry in `keep` is true, in order.
pub fn retain_marked(rows: Vec<NodeSummary>, keep: &Vec<bool>) -> (res: Vec<NodeSummary>)
    requires
        keep@.len() == rows@.len(),
    ensures
        summaries_v(res@) == kept_rows(summaries_v(rows@), keep@, rows@.len() as nat),
{
    let ghost rv = summaries_v(rows@);
    let mut res: Vec<NodeSummary> = Vec::new();
    let mut i: usize = 0;
    while i < rows.len()
        invariant
            i <= rows.len(),
            keep@.len() == rows@.len(),
            rv == summaries_v(rows@),
            summaries_v(res@) == kept_rows(rv, keep@, i as nat),
        decreases rows.len() - i,
    {
        if keep[i] {
            let ghost before = summaries_v(res@);
            res.push(
                NodeSummary {
                    id: rows[i].id.clone(),
                    node_type: rows[i].node_type.clone(),
                    payload: crate::graph::store::clone_opt(&rows[i].payload),
                },
            );
            assert(summaries_v(res@) =~= before.push(rv[i as int]));
        }
        i = i + 1;
    }
    res
}

/// The first `n` rows whose entry in `keep` is true.
pub open spec fn kept_rows(rows: Seq<NodeV>, keep: Seq<bool>, n: nat) -> Seq<NodeV>
    decreases n,
{
    if n == 0 || n > rows.len() {
        Seq::empty()
    } else if keep[n - 1] {
        kept_rows(rows, keep, (n - 1) as nat).push(rows[n - 1])
    } else {
        kept_rows(rows, keep, (n - 1) as nat)
    }
}

/// Keeping the rows marked by a predicate is filtering by it.
proof fn lemma_kept_is_filter(rows: Seq<NodeV>, keep: Seq<bool>, pred: spec_fn(NodeV) -> bool, n: nat)
    requires
        keep.len() == rows.len(),
        n <= rows.len(),
        forall|k: int| 0 <= k < rows.len() ==> keep[k] == pred(rows[k]),
    ensures
        kept_rows(rows, keep, n) == rows.take(n as int).filter(pred),
    decreases n,
{
    if n == 0 {
        crate::graph::query::lemma_filter_ends(rows, pred);
    } else {
        lemma_kept_is_filter(rows, keep, pred, (n - 1) as nat);
        crate::graph::query::lemma_filter_step(rows, n - 1, pred);
    }
}

/// Find dead (unreachable) functions with their type and payload, keeping those whose id
/// matches the file glob when one is given. Fails with the pattern's error when the glob does
/// not compile.
pub fn dead_code(store: &Store, file_glob: Option<&str>) -> (res: Result<DeadCodeResult, String>)
    requires
        store.wf(),
    ensures
        match file_glob {
            Some(p) => match glob_error(p@) {
                Some(e) => res matches Err(m) && m@ == e,
                None => res matches Ok(r) && summaries_v(r.dead_nodes@) == glob_filtered(
                    dead_rows_and_source(*store).0,
                    p@,
                ),
            },
            None => res matches Ok(r) && summaries_v(r.dead_nodes@) == dead_rows_and_source(
                *store,
            ).0,
        },
        res matches Ok(r) ==> r.count == r.dead_nodes@.len() && r.source@ == dead_rows_and_source(
            *store,
        ).1 && r.caveat == DEAD_CODE_CAVEAT,
{
    let stored = Query::stored_dead_functions_with_payload(store);
    let (rows, source) = if stored.len() == 0 {
        (Query::compute_dead_function_rows(store), "computed")
    } else {
        (stored, "stored")
    };
    let nodes = summaries(rows);
    let ghost nv = summaries_v(nodes@);
    let dead_nodes = match file_glob {
        None => nodes,
        Some(p) => {
            match glob_pattern_error(p) {
                Some(e) => {
                    return Err(e);
                },
                None => {},
            }
            let mut keep: Vec<bool> = Vec::new();
            let mut i: usize = 0;
            while i < nodes.len()
                invariant
                    i <= nodes.len(),
                    glob_error(p@) is None,
                    nv == summaries_v(nodes@),
                    keep@.len() == i,
                    forall|k: int| 0 <= k < i ==> keep@[k] == glob_matches(p@, nv[k].0),
                decreases nodes.len() - i,
            {
                keep.push(glob_pattern_matches(p, nodes[i].id.as_str()));
                i = i + 1;
            }
            proof {
                lemma_kept_is_filter(nv, keep@, |r: NodeV| glob_matches(p@, r.0), nv.len());
                assert(nv.take(nv.len() as int) =~= nv);
            }
            let kept = retain_marked(nodes, &keep);
            assert(summaries_v(kept@) =~= glob_filtered(nv, p@));
            kept
        },
    };
    let count = dead_nodes.len();
    Ok(DeadCodeResult { dead_nodes, count, source: source.to_owned(), caveat: DEAD_CODE_CAVEAT })
}

/// Compute the blast radius from a node: the nodes it reaches or that reach it by `calls`,
/// `contains`, `references` and `changes_with` edges, at most 500, in node order.
pub fn blast_radius(store: &Store, node_id: &str) -> (res: BlastRadiusResult)
    ensures
        res.from_node_id@ == node_id@,
        summaries_v(res.reachable_nodes@) == first_n(
            store.node_rows().filter(|r: NodeV| in_blast_radius(*store, node_id@, r)),
            BLAST_RADIUS_LIMIT as int,
        ),
        res.count == res.reachable_nodes@.len(),
{
    let rows = Query::blast_radius(store, node_id);
    let reachable_nodes = summaries(rows);
    let count = reachable_nodes.len();
    BlastRadiusResult { from_node_id: node_id.to_owned(), reachable_nodes, count }
}

/// Find the callers of a node up to `depth` call steps, each once.
pub fn callers(store: &Store, node_id: &str, depth: u32) -> (res: CallersResult)
    requires
        store.wf(),
    ensures
        res.node_id@ == node_id@,
        no_dups_ids(summaries_v(res.callers@)),
        forall|k: int|
            0 <= k < res.callers@.len() ==> store.node_map().contains_key(
                #[trigger] res.callers@[k].id@,
            ) && store.node_map()[res.callers@[k].id@] == (
                res.callers@[k].node_type@,
                opt_chars(res.callers@[k].payload),
            ),
        forall|x: Seq<char>|
            (exists|k: int| 0 <= k < res.callers@.len() && #[trigger] res.callers@[k].id@ == x)
                <==> is_caller_of(*store, node_id@, depth as int, x),
        nearer_first(
            caller_steps(*store),
            node_id@,
            summaries_v(res.callers@).map_values(|r: NodeV| r.0),
        ),
        summaries_v(res.callers@).map_values(|r: NodeV| r.0) == callers_ids(*store, node_id@, depth as int),
        res.count == res.callers@.len(),
{
    let rows = Query::callers(store, node_id, depth);
    let ghost ra = rows@;
    let c = summaries(rows);
    proof {
        assert(summaries_v(c@) == node_rows_v(ra));
        assert(summaries_v(c@).len() == c@.len());
        assert(node_rows_v(ra).len() == ra.len());
        assert(c@.len() == ra.len());
        assert forall|k: int| 0 <= k < c@.len() implies #[trigger] c@[k].id@ == ra[k].id@ && c@[k]@
            == ra[k]@ by {
            assert(summaries_v(c@)[k] == node_rows_v(ra)[k]);
        }
        assert forall|x: Seq<char>|
            (exists|k: int| 0 <= k < c@.len() && #[trigger] c@[k].id@ == x) implies is_caller_of(
                *store,
                node_id@,
                depth as int,
                x,
            ) by {
            let k = choose|k: int| 0 <= k < c@.len() && #[trigger] c@[k].id@ == x;
            assert(ra[k].id@ == x);
        }
        assert forall|x: Seq<char>| is_caller_of(*store, node_id@, depth as int, x) implies (exists|k: int|
            0 <= k < c@.len() && #[trigger] c@[k].id@ == x) by {
            let k = choose|k: int| 0 <= k < ra.len() && #[trigger] ra[k].id@ == x;
            assert(c@[k].id@ == x);
        }
        assert forall|k: int| 0 <= k < c@.len() implies store.node_map().contains_key(
            #[trigger] c@[k].id@,
        ) && store.node_map()[c@[k].id@] == (c@[k].node_type@, opt_chars(c@[k].payload)) by {
            assert(c@[k]@ == ra[k]@);
            assert(store.node_map().contains_key(ra[k].id@));
        }
    }
    let count = c.len();
    CallersResult { node_id: node_id.to_owned(), callers: c, count }
}

/// Get full info for a node: its type, payload, and outgoing and incoming edges; none when
/// there is no such node.
pub fn node_info(store: &Store, node_id: &str) -> (res: Option<NodeInfo>)
    requires
        store.wf(),
    ensures
        match res {
            None => !store.node_map().contains_key(node_id@),
            Some(info) => {
                &&& store.node_map().contains_key(node_id@)
                &&& info.id@ == node_id@
                &&& (info.node_type@, opt_chars(info.payload)) == store.node_map()[node_id@]
                &&& crate::graph::query::endpoints_v(info.outgoing_edges@)
                    == crate::graph::query::spec_endpoints(*store, node_id@, true)
                &&& crate::graph::query::endpoints_v(info.incoming_edges@)
                    == crate::graph::query::spec_endpoints(*store, node_id@, false)
            },
        },
{
    Query::node_info(store, node_id)
}

/// Find the implementors of the traits whose name contains `trait_name` (at most 500).
pub fn trait_implementors(store: &Store, trait_name: &str) -> (res: TraitImplementorsResult)
    requires
        store.wf(),
    ensures
        res.trait_name@ == trait_name@,
        summaries_v(res.implementors@) == first_n(
            store.node_rows().filter(|r: NodeV| implements_matching(*store, trait_name@, r.0)),
            TRAIT_IMPLEMENTORS_LIMIT as int,
        ),
        res.count == res.implementors@.len(),
{
    let rows = Query::trait_implementors(store, trait_name);
    let implementors = summaries(rows);
    let count = implementors.len();
    TraitImplementorsResult { trait_name: trait_name.to_owned(), implementors, count }
}

/// Get the module containment graph, optionally only the edges under a path prefix.
pub fn module_graph(store: &Store, root: Option<&str>) -> (res: ModuleGraphResult)
    requires
        store.wf(),
    ensures
        module_edges_v(res.edges@) == module_edges_unfiltered(*store).filter(
            |m: ModuleEdgeV| keeps_prefix(opt_str_v(root), m),
        ),
        res.count == res.edges@.len(),
{
    let edges = Query::module_graph(store, root);
    let count = edges.len();
    ModuleGraphResult { edges, count }
}

/// `:limit`
pub open spec fn limit_directive() -> Seq<char> {
    ":limit"@
}

/// The script a raw query runs: trimmed, with a `:limit 10000` line added when the script
/// sets no limit of its own.
pub open spec fn spec_query_script(script: Seq<char>) -> Seq<char> {
    if contains_seq(script, limit_directive()) {
        trim(script)
    } else {
        trim(script) + "\n:limit 10000"@
    }
}

/// The script a raw query runs, computed.
pub fn query_script(script: &str) -> (res: String)
    ensures
        res@ == spec_query_script(script@),
{
    let s = chars_of(script);
    let t = trim_chars(s.as_slice());
    if contains(s.as_slice(), chars_of(":limit").as_slice()) {
        string_from_chars(t.as_slice())
    } else {
        let r = concat(t.as_slice(), chars_of("\n:limit 10000").as_slice());
        string_from_chars(r.as_slice())
    }
}

/// The line that shows a node in text output: id, type and payload (`—` when there is none),
/// separated by tabs.
pub open spec fn spec_summary_line(id: Seq<char>, node_type: Seq<char>, payload: Option<Seq<char>>) -> Seq<char> {
    id + seq!['\t'] + node_type + seq!['\t'] + match payload {
        Some(p) => p,
        None => "—"@,
    }
}

/// The text line of a node summary.
pub fn summary_line(node: &NodeSummary) -> (res: String)
    ensures
        res@ == spec_summary_line(node.id@, node.node_type@, opt_chars(node.payload)),
{
    let mut v: Vec<char> = Vec::new();
    v.extend_from_slice(chars_of(node.id.as_str()).as_slice());
    v.push('\t');
    v.extend_from_slice(chars_of(node.node_type.as_str()).as_slice());
    v.push('\t');
    let p = match &node.payload {
        Some(p) => chars_of(p.as_str()),
        None => chars_of("—"),
    };
    v.extend_from_slice(p.as_slice());
    assert(v@ =~= spec_summary_line(node.id@, node.node_type@, opt_chars(node.payload)));
    string_from_chars(v.as_slice())
}

} // verus!
