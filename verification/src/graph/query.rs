//! Common graph queries, computed over the store's relations.

use vstd::prelude::*;

use crate::graph::order::{lemma_lt_irreflexive, lemma_lt_total, lemma_lt_transitive, seq_lt, str_lt};
use crate::graph::reach::{is_walk, reach_closure, reachable, steps_v, Steps};
use crate::graph::store::{
    no_dups, clone_opt, edge_rows_v, lemma_rows_map_at, node_rows_v, opt_chars, rows_map, strings_v, EdgeV,
    NodeRow, NodeV, Store,
};
use crate::text::{chars_of, contains, has_prefix, contains_seq, starts_with, str_eq};

verus! {

/// Endpoint of an edge (the other node) for `node_info`.
#[derive(Debug)]
pub struct EdgeEndpoint {
    pub id: String,
    pub edge_type: String,
    pub node_type: String,
    pub payload: Option<String>,
}

/// Abstract endpoint: (id, edge type, node type, payload).
pub type EndpointV = (Seq<char>, Seq<char>, Seq<char>, Option<Seq<char>>);

impl View for EdgeEndpoint {
    type V = EndpointV;

    open spec fn view(&self) -> EndpointV {
        (self.id@, self.edge_type@, self.node_type@, opt_chars(self.payload))
    }
}

/// Full node details plus edges for `node_info`.
#[derive(Debug)]
pub struct NodeInfo {
    pub id: String,
    pub node_type: String,
    pub payload: Option<String>,
    pub outgoing_edges: Vec<EdgeEndpoint>,
    pub incoming_edges: Vec<EdgeEndpoint>,
}

/// A containment edge between file, module or crate-root nodes.
#[derive(Debug)]
pub struct ModuleEdge {
    pub from_id: String,
    pub to_id: String,
    pub from_type: String,
    pub to_type: String,
}

/// Abstract module edge: (from id, to id, from type, to type).
pub type ModuleEdgeV = (Seq<char>, Seq<char>, Seq<char>, Seq<char>);

impl View for ModuleEdge {
    type V = ModuleEdgeV;

    open spec fn view(&self) -> ModuleEdgeV {
        (self.from_id@, self.to_id@, self.from_type@, self.to_type@)
    }
}

/// Predefined queries over the store.
pub struct Query;

/// Taking one more element of `s` extends the filtered prefix when the element passes.
pub proof fn lemma_filter_step<A>(s: Seq<A>, i: int, pred: spec_fn(A) -> bool)
    requires
        0 <= i < s.len(),
    ensures
        s.take(i + 1).filter(pred) == (if pred(s[i]) {
            s.take(i).filter(pred).push(s[i])
        } else {
            s.take(i).filter(pred)
        }),
{
    reveal_with_fuel(Seq::filter, 1);
    assert(s.take(i + 1).drop_last() =~= s.take(i));
    assert(s.take(i + 1).last() == s[i]);
}

/// The empty prefix filters to nothing; the full prefix is the sequence.
pub proof fn lemma_filter_ends<A>(s: Seq<A>, pred: spec_fn(A) -> bool)
    ensures
        s.take(0).filter(pred) == Seq::<A>::empty(),
        s.take(s.len() as int) == s,
{
    reveal_with_fuel(Seq::filter, 1);
    assert(s.take(0) =~= Seq::<A>::empty());
    assert(s.take(s.len() as int) =~= s);
}

/// Taking one more element appends it.
pub proof fn lemma_take_push<A>(s: Seq<A>, i: int)
    requires
        0 <= i < s.len(),
    ensures
        s.take(i + 1) == s.take(i).push(s[i]),
{
    assert(s.take(i + 1) =~= s.take(i).push(s[i]));
}

/// Mapping commutes with pushing.
pub proof fn lemma_map_push<A, B>(s: Seq<A>, x: A, f: spec_fn(A) -> B)
    ensures
        s.push(x).map_values(f) == s.map_values(f).push(f(x)),
{
    assert(s.push(x).map_values(f) =~= s.map_values(f).push(f(x)));
}

/// The (from, to) steps of the edges whose type is in `types`, in edge order.
pub open spec fn edge_steps(edges: Seq<EdgeV>, types: Set<Seq<char>>) -> Steps {
    edges.filter(|e: EdgeV| types.contains(e.2)).map_values(|e: EdgeV| (e.0, e.1))
}

/// The characters of each string slice.
pub open spec fn strs_v(v: Seq<&str>) -> Seq<Seq<char>> {
    v.map_values(|s: &str| s@)
}

/// Whether `t` is one of `types`.
fn type_in(types: &[&str], t: &str) -> (res: bool)
    ensures
        res == strs_v(types@).contains(t@),
{
    let mut i: usize = 0;
    while i < types.len()
        invariant
            i <= types.len(),
            forall|k: int| 0 <= k < i ==> strs_v(types@)[k] != t@,
        decreases types.len() - i,
    {
        if str_eq(types[i], t) {
            assert(strs_v(types@)[i as int] == t@);
            return true;
        }
        i = i + 1;
    }
    false
}

/// The (from, to) pairs of the stored edges whose type is one of `types`, in edge order.
pub fn edge_pairs(store: &Store, types: &[&str]) -> (res: Vec<(String, String)>)
    ensures
        steps_v(res@) == edge_steps(store.edge_rows(), strs_v(types@).to_set()),
{
    let rows = store.edge_row_vec();
    let ghost ts = strs_v(types@).to_set();
    let ghost pred = |e: EdgeV| ts.contains(e.2);
    let ghost ev = edge_rows_v(rows@);
    let mut res: Vec<(String, String)> = Vec::new();
    let mut i: usize = 0;
    proof {
        lemma_filter_ends(ev, pred);
    }
    while i < rows.len()
        invariant
            i <= rows.len(),
            ev == edge_rows_v(rows@),
            ev == store.edge_rows(),
            ts == strs_v(types@).to_set(),
            pred == (|e: EdgeV| ts.contains(e.2)),
            steps_v(res@) == ev.take(i as int).filter(pred).map_values(|e: EdgeV| (e.0, e.1)),
        decreases rows.len() - i,
    {
        let r = &rows[i];
        proof {
            lemma_filter_step(ev, i as int, pred);
            assert(ev[i as int] == r@);
        }
        if type_in(types, r.edge_type.as_str()) {
            let ghost before = res@;
            res.push((r.from_id.clone(), r.to_id.clone()));
            proof {
                assert(strs_v(types@).to_set().contains(r.edge_type@));
                let f = |e: EdgeV| (e.0, e.1);
                lemma_map_push(ev.take(i as int).filter(pred), r@, f);
                assert(steps_v(res@) =~= steps_v(before).push((r.from_id@, r.to_id@)));
            }
        } else {
            proof {
                assert(!ts.contains(r.edge_type@));
            }
        }
        i = i + 1;
    }
    proof {
        lemma_filter_ends(ev, pred);
    }
    res
}

/// A payload that marks an entry point: `main`, or a `pub::`, `test::` or `bench::` prefix.
pub open spec fn is_entry_payload(p: Option<Seq<char>>) -> bool {
    match p {
        Some(s) => s == "main"@ || has_prefix(s, "pub::"@) || has_prefix(s, "test::"@) || has_prefix(
            s,
            "bench::"@,
        ),
        None => false,
    }
}

/// Function nodes whose payload marks an entry point.
pub open spec fn entry_ids(nodes: Seq<NodeV>) -> Seq<Seq<char>> {
    nodes.filter(|r: NodeV| r.1 == "function"@ && is_entry_payload(r.2)).map_values(
        |r: NodeV| r.0,
    )
}

/// The steps that keep a function alive: `calls` and `references` edges.
pub open spec fn liveness_steps(edges: Seq<EdgeV>) -> Steps {
    edge_steps(edges, seq!["calls"@, "references"@].to_set())
}

/// A function node row that no entry point reaches.
pub open spec fn is_dead_function(store: Store, r: NodeV) -> bool {
    r.1 == "function"@ && !reachable(
        liveness_steps(store.edge_rows()),
        entry_ids(store.node_rows()).to_set(),
        r.0,
    )
}

/// The dead function rows, in node order.
pub open spec fn dead_function_rows(store: Store) -> Seq<NodeV> {
    store.node_rows().filter(|r: NodeV| is_dead_function(store, r))
}

/// The node rows whose id is among `ids`, in node order.
fn rows_with_ids(store: &Store, ids: &Vec<String>) -> (res: Vec<NodeRow>)
    ensures
        node_rows_v(res@) == store.node_rows().filter(
            |r: NodeV| strings_v(ids@).contains(r.0),
        ),
{
    let rows = store.node_row_vec();
    let ghost nv = node_rows_v(rows@);
    let ghost idv = strings_v(ids@);
    let ghost pred = |r: NodeV| idv.contains(r.0);
    let mut res: Vec<NodeRow> = Vec::new();
    let mut i: usize = 0;
    proof {
        lemma_filter_ends(nv, pred);
    }
    while i < rows.len()
        invariant
            i <= rows.len(),
            nv == node_rows_v(rows@),
            nv == store.node_rows(),
            idv == strings_v(ids@),
            pred == (|r: NodeV| idv.contains(r.0)),
            node_rows_v(res@) == nv.take(i as int).filter(pred),
        decreases rows.len() - i,
    {
        let r = &rows[i];
        proof {
            lemma_filter_step(nv, i as int, pred);
            assert(nv[i as int] == r@);
        }
        if crate::graph::reach::contains_string(ids, &r.id) {
            let ghost before = res@;
            res.push(r.clone());
            proof {
                assert(node_rows_v(res@) =~= nv.take(i + 1).filter(pred));
            }
        }
        i = i + 1;
    }
    proof {
        lemma_filter_ends(nv, pred);
    }
    res
}

/// The ids of function node rows that pass `keep`.
fn function_rows_where(store: &Store, reached: &Vec<String>) -> (res: Vec<NodeRow>)
    ensures
        node_rows_v(res@) == store.node_rows().filter(
            |r: NodeV| r.1 == "function"@ && !strings_v(reached@).contains(r.0),
        ),
{
    let rows = store.node_row_vec();
    let ghost nv = node_rows_v(rows@);
    let ghost rv = strings_v(reached@);
    let ghost pred = |r: NodeV| r.1 == "function"@ && !rv.contains(r.0);
    let mut res: Vec<NodeRow> = Vec::new();
    let mut i: usize = 0;
    proof {
        lemma_filter_ends(nv, pred);
    }
    while i < rows.len()
        invariant
            i <= rows.len(),
            nv == node_rows_v(rows@),
            nv == store.node_rows(),
            rv == strings_v(reached@),
            pred == (|r: NodeV| r.1 == "function"@ && !rv.contains(r.0)),
            node_rows_v(res@) == nv.take(i as int).filter(pred),
        decreases rows.len() - i,
    {
        let r = &rows[i];
        proof {
            lemma_filter_step(nv, i as int, pred);
            assert(nv[i as int] == r@);
        }
        if str_eq(r.node_type.as_str(), "function") && !crate::graph::reach::contains_string(
            reached,
            &r.id,
        ) {
            res.push(r.clone());
            proof {
                assert(node_rows_v(res@) =~= nv.take(i + 1).filter(pred));
            }
        }
        i = i + 1;
    }
    proof {
        lemma_filter_ends(nv, pred);
    }
    res
}

/// The ids of the given rows.
pub fn ids_of(rows: &Vec<NodeRow>) -> (res: Vec<String>)
    ensures
        strings_v(res@) == node_rows_v(rows@).map_values(|r: NodeV| r.0),
{
    let mut res: Vec<String> = Vec::new();
    let mut i: usize = 0;
    while i < rows.len()
        invariant
            i <= rows.len(),
            strings_v(res@) == node_rows_v(rows@).take(i as int).map_values(|r: NodeV| r.0),
        decreases rows.len() - i,
    {
        let ghost before = res@;
        res.push(rows[i].id.clone());
        proof {
            lemma_take_push(node_rows_v(rows@), i as int);
            lemma_map_push(node_rows_v(rows@).take(i as int), rows@[i as int]@, |r: NodeV| r.0);
            assert(strings_v(res@) =~= strings_v(before).push(rows@[i as int].id@));
        }
        i = i + 1;
    }
    assert(node_rows_v(rows@).take(rows@.len() as int) =~= node_rows_v(rows@));
    res
}

/// Copies of the given rows.
pub fn clone_rows(rows: &Vec<NodeRow>) -> (res: Vec<NodeRow>)
    ensures
        node_rows_v(res@) == node_rows_v(rows@),
{
    let mut res: Vec<NodeRow> = Vec::new();
    let mut i: usize = 0;
    while i < rows.len()
        invariant
            i <= rows.len(),
            node_rows_v(res@) == node_rows_v(rows@).take(i as int),
        decreases rows.len() - i,
    {
        let ghost before = res@;
        res.push(rows[i].clone());
        proof {
            lemma_take_push(node_rows_v(rows@), i as int);
            assert(node_rows_v(res@) =~= node_rows_v(before).push(rows@[i as int]@));
        }
        i = i + 1;
    }
    assert(node_rows_v(rows@).take(rows@.len() as int) =~= node_rows_v(rows@));
    res
}

/// The first `n` rows (all of them when there are fewer).
pub fn take_rows(rows: Vec<NodeRow>, n: usize) -> (res: Vec<NodeRow>)
    ensures
        node_rows_v(res@) == node_rows_v(rows@).take(if n < rows@.len() { n as int } else { rows@.len() as int }),
{
    let mut res: Vec<NodeRow> = Vec::new();
    let mut i: usize = 0;
    while i < rows.len() && i < n
        invariant
            i <= rows.len(),
            i <= n,
            node_rows_v(res@) == node_rows_v(rows@).take(i as int),
        decreases rows.len() - i,
    {
        let ghost before = res@;
        res.push(rows[i].clone());
        proof {
            lemma_take_push(node_rows_v(rows@), i as int);
            assert(node_rows_v(res@) =~= node_rows_v(before).push(rows@[i as int]@));
        }
        i = i + 1;
    }
    res
}

impl Query {
    /// All node rows.
    pub fn all_nodes(store: &Store) -> (res: Vec<NodeRow>)
        ensures
            node_rows_v(res@) == store.node_rows(),
    {
        clone_rows(store.node_row_vec())
    }

    /// All edge rows.
    pub fn all_edges(store: &Store) -> (res: Vec<crate::graph::store::EdgeRow>)
        ensures
            edge_rows_v(res@) == store.edge_rows(),
    {
        let rows = store.edge_row_vec();
        let mut res: Vec<crate::graph::store::EdgeRow> = Vec::new();
        let mut i: usize = 0;
        while i < rows.len()
            invariant
                i <= rows.len(),
                edge_rows_v(rows@) == store.edge_rows(),
                edge_rows_v(res@) == edge_rows_v(rows@).take(i as int),
            decreases rows.len() - i,
        {
            let ghost before = res@;
            res.push(rows[i].clone());
            proof {
                lemma_take_push(edge_rows_v(rows@), i as int);
                assert(edge_rows_v(res@) =~= edge_rows_v(before).push(rows@[i as int]@));
            }
            i = i + 1;
        }
        assert(edge_rows_v(rows@).take(rows@.len() as int) =~= edge_rows_v(rows@));
        res
    }

    /// The dead function ids recorded in the store.
    pub fn stored_dead_functions(store: &Store) -> (res: Vec<String>)
        ensures
            strings_v(res@) == store.dead_rows(),
    {
        let v = store.dead_vec();
        let mut res: Vec<String> = Vec::new();
        let mut i: usize = 0;
        while i < v.len()
            invariant
                i <= v.len(),
                strings_v(v@) == store.dead_rows(),
                strings_v(res@) == strings_v(v@).take(i as int),
            decreases v.len() - i,
        {
            let ghost before = res@;
            res.push(v[i].clone());
            proof {
                lemma_take_push(strings_v(v@), i as int);
                assert(strings_v(res@) =~= strings_v(before).push(v@[i as int]@));
            }
            i = i + 1;
        }
        assert(strings_v(v@).take(v@.len() as int) =~= strings_v(v@));
        res
    }

    /// The function node rows not reachable from an entry point (a function named `main`, or
    /// whose payload starts with `pub::`, `test::` or `bench::`) by `calls` and `references`
    /// edges.
    pub fn compute_dead_function_rows(store: &Store) -> (res: Vec<NodeRow>)
        ensures
            node_rows_v(res@) == dead_function_rows(*store),
    {
        let rows = store.node_row_vec();
        let ghost nv = node_rows_v(rows@);
        let ghost epred = |r: NodeV| r.1 == "function"@ && is_entry_payload(r.2);
        let mut entries: Vec<String> = Vec::new();
        let mut i: usize = 0;
        let main = chars_of("main");
        let pub_p = chars_of("pub::");
        let test_p = chars_of("test::");
        let bench_p = chars_of("bench::");
        proof {
            lemma_filter_ends(nv, epred);
        }
        while i < rows.len()
            invariant
                i <= rows.len(),
                nv == node_rows_v(rows@),
                nv == store.node_rows(),
                main@ == "main"@,
                pub_p@ == "pub::"@,
                test_p@ == "test::"@,
                bench_p@ == "bench::"@,
                epred == (|r: NodeV| r.1 == "function"@ && is_entry_payload(r.2)),
                strings_v(entries@) == nv.take(i as int).filter(epred).map_values(|r: NodeV| r.0),
            decreases rows.len() - i,
        {
            let r = &rows[i];
            proof {
                lemma_filter_step(nv, i as int, epred);
                assert(nv[i as int] == r@);
            }
            let is_entry = match &r.payload {
                Some(p) => {
                    let pc = chars_of(p.as_str());
                    crate::text::chars_eq(pc.as_slice(), main.as_slice()) || starts_with(
                        pc.as_slice(),
                        pub_p.as_slice(),
                    ) || starts_with(pc.as_slice(), test_p.as_slice()) || starts_with(
                        pc.as_slice(),
                        bench_p.as_slice(),
                    )
                },
                None => false,
            };
            if str_eq(r.node_type.as_str(), "function") && is_entry {
                let ghost before = entries@;
                entries.push(r.id.clone());
                proof {
                    lemma_map_push(nv.take(i as int).filter(epred), r@, |r: NodeV| r.0);
                    assert(strings_v(entries@) =~= strings_v(before).push(r.id@));
                }
            }
            i = i + 1;
        }
        proof {
            lemma_filter_ends(nv, epred);
        }
        let types: [&str; 2] = ["calls", "references"];
        let steps = edge_pairs(store, &types);
        proof {
            assert(strs_v(types@) =~= seq!["calls"@, "references"@]);
        }
        let reached = reach_closure(&steps, &entries);
        let res = function_rows_where(store, &reached);
        proof {
            let p1 = |r: NodeV| r.1 == "function"@ && !strings_v(reached@).contains(r.0);
            let p2 = |r: NodeV| is_dead_function(*store, r);
            assert(p1 =~= p2);
        }
        res
    }

    /// The ids of the function nodes not reachable from an entry point.
    pub fn compute_dead_functions(store: &Store) -> (res: Vec<String>)
        ensures
            strings_v(res@) == dead_function_rows(*store).map_values(|r: NodeV| r.0),
    {
        let rows = Query::compute_dead_function_rows(store);
        ids_of(&rows)
    }
}

/// Whether the store holds a node with this id, and at which row.
pub fn find_node(store: &Store, id: &str) -> (res: Option<usize>)
    requires
        store.wf(),
    ensures
        match res {
            Some(i) => i < store.node_rows().len() && store.node_rows()[i as int].0 == id@
                && store.node_map().contains_key(id@) && store.node_map()[id@] == (
                store.node_rows()[i as int].1,
                store.node_rows()[i as int].2,
            ),
            None => !store.node_map().contains_key(id@),
        },
{
    let rows = store.node_row_vec();
    let mut i: usize = 0;
    while i < rows.len()
        invariant
            i <= rows.len(),
            node_rows_v(rows@) == store.node_rows(),
            store.wf(),
            forall|k: int| 0 <= k < i ==> store.node_rows()[k].0 != id@,
        decreases rows.len() - i,
    {
        assert(store.node_rows()[i as int] == rows@[i as int]@);
        if str_eq(rows[i].id.as_str(), id) {
            proof {
                lemma_rows_map_at(store.node_rows(), i as int);
            }
            return Some(i);
        }
        i = i + 1;
    }
    None
}

/// The targets of the steps that leave `from`, in step order.
pub open spec fn step_targets(steps: Steps, from: Seq<char>) -> Seq<Seq<char>> {
    steps.filter(|p: (Seq<char>, Seq<char>)| p.0 == from).map_values(|p: (Seq<char>, Seq<char>)| p.1)
}

/// The sources of the steps that enter `to`, in step order.
pub open spec fn step_sources(steps: Steps, to: Seq<char>) -> Seq<Seq<char>> {
    steps.filter(|p: (Seq<char>, Seq<char>)| p.1 == to).map_values(|p: (Seq<char>, Seq<char>)| p.0)
}

/// The targets (`forward`) or the sources (otherwise) of the steps that touch `at`.
pub fn step_ends(steps: &Vec<(String, String)>, at: &str, forward: bool) -> (res: Vec<String>)
    ensures
        strings_v(res@) == if forward {
            step_targets(steps_v(steps@), at@)
        } else {
            step_sources(steps_v(steps@), at@)
        },
{
    let ghost sv = steps_v(steps@);
    let ghost pred = if forward {
        |p: (Seq<char>, Seq<char>)| p.0 == at@
    } else {
        |p: (Seq<char>, Seq<char>)| p.1 == at@
    };
    let ghost f = if forward {
        |p: (Seq<char>, Seq<char>)| p.1
    } else {
        |p: (Seq<char>, Seq<char>)| p.0
    };
    let mut res: Vec<String> = Vec::new();
    let mut i: usize = 0;
    proof {
        lemma_filter_ends(sv, pred);
    }
    while i < steps.len()
        invariant
            i <= steps.len(),
            sv == steps_v(steps@),
            pred == (if forward {
                |p: (Seq<char>, Seq<char>)| p.0 == at@
            } else {
                |p: (Seq<char>, Seq<char>)| p.1 == at@
            }),
            f == (if forward {
                |p: (Seq<char>, Seq<char>)| p.1
            } else {
                |p: (Seq<char>, Seq<char>)| p.0
            }),
            strings_v(res@) == sv.take(i as int).filter(pred).map_values(f),
        decreases steps.len() - i,
    {
        let (a, b) = &steps[i];
        proof {
            lemma_filter_step(sv, i as int, pred);
            assert(sv[i as int] == (a@, b@));
        }
        let (hit, end) = if forward {
            (str_eq(a.as_str(), at), b)
        } else {
            (str_eq(b.as_str(), at), a)
        };
        if hit {
            let ghost before = res@;
            res.push(end.clone());
            proof {
                lemma_map_push(sv.take(i as int).filter(pred), (a@, b@), f);
                assert(strings_v(res@) =~= strings_v(before).push(end@));
            }
        }
        i = i + 1;
    }
    proof {
        lemma_filter_ends(sv, pred);
    }
    res
}

/// The edge types that the blast radius follows.
pub open spec fn blast_types() -> Set<Seq<char>> {
    seq!["calls"@, "contains"@, "references"@, "changes_with"@].to_set()
}

/// The steps of the blast radius.
pub open spec fn blast_steps(store: Store) -> Steps {
    edge_steps(store.edge_rows(), blast_types())
}

/// The seed of the blast radius: the direct neighbours of `from` in both directions.
pub open spec fn blast_seed(store: Store, from: Seq<char>) -> Set<Seq<char>> {
    (step_targets(blast_steps(store), from) + step_sources(blast_steps(store), from)).to_set()
}

/// A node row in the blast radius of `from`: reached from the seed by forward steps, other
/// than `from` itself.
pub open spec fn in_blast_radius(store: Store, from: Seq<char>, r: NodeV) -> bool {
    r.0 != from && reachable(blast_steps(store), blast_seed(store, from), r.0)
}

/// The number of rows that the blast radius returns at most.
pub const BLAST_RADIUS_LIMIT: usize = 500;

/// The first `n` elements of `s` (all of them when there are fewer).
pub open spec fn first_n<A>(s: Seq<A>, n: int) -> Seq<A> {
    if n < s.len() {
        s.take(n)
    } else {
        s
    }
}

/// The node rows that pass `pred` over `ids` membership and differ from `except`, in node order.
fn rows_with_ids_except(store: &Store, ids: &Vec<String>, except: &str) -> (res: Vec<NodeRow>)
    ensures
        node_rows_v(res@) == store.node_rows().filter(
            |r: NodeV| strings_v(ids@).contains(r.0) && r.0 != except@,
        ),
{
    let rows = store.node_row_vec();
    let ghost nv = node_rows_v(rows@);
    let ghost idv = strings_v(ids@);
    let ghost pred = |r: NodeV| idv.contains(r.0) && r.0 != except@;
    let mut res: Vec<NodeRow> = Vec::new();
    let mut i: usize = 0;
    proof {
        lemma_filter_ends(nv, pred);
    }
    while i < rows.len()
        invariant
            i <= rows.len(),
            nv == node_rows_v(rows@),
            nv == store.node_rows(),
            idv == strings_v(ids@),
            pred == (|r: NodeV| idv.contains(r.0) && r.0 != except@),
            node_rows_v(res@) == nv.take(i as int).filter(pred),
        decreases rows.len() - i,
    {
        let r = &rows[i];
        proof {
            lemma_filter_step(nv, i as int, pred);
            assert(nv[i as int] == r@);
        }
        if crate::graph::reach::contains_string(ids, &r.id) && !str_eq(r.id.as_str(), except) {
            let ghost before = res@;
            res.push(r.clone());
            proof {
                assert(node_rows_v(res@) =~= node_rows_v(before).push(r@));
            }
        }
        i = i + 1;
    }
    proof {
        lemma_filter_ends(nv, pred);
    }
    res
}

impl Query {
    /// The nodes in the blast radius of `from_id`: its direct neighbours in both directions
    /// plus everything reachable from them forward, by `calls`, `contains`, `references` and
    /// `changes_with` edges; `from_id` itself excluded; at most 500 rows, in node order.
    pub fn blast_radius(store: &Store, from_id: &str) -> (res: Vec<NodeRow>)
        ensures
            node_rows_v(res@) == first_n(
                store.node_rows().filter(|r: NodeV| in_blast_radius(*store, from_id@, r)),
                BLAST_RADIUS_LIMIT as int,
            ),
    {
        let types: [&str; 4] = ["calls", "contains", "references", "changes_with"];
        let steps = edge_pairs(store, &types);
        proof {
            assert(strs_v(types@) =~= seq!["calls"@, "contains"@, "references"@, "changes_with"@]);
        }
        let fwd = step_ends(&steps, from_id, true);
        let back = step_ends(&steps, from_id, false);
        let mut seed = fwd;
        let mut j: usize = 0;
        let ghost f0 = strings_v(seed@);
        while j < back.len()
            invariant
                j <= back.len(),
                strings_v(seed@) == f0 + strings_v(back@).take(j as int),
            decreases back.len() - j,
        {
            let ghost before = seed@;
            seed.push(back[j].clone());
            proof {
                lemma_take_push(strings_v(back@), j as int);
                assert(strings_v(seed@) =~= strings_v(before).push(back@[j as int]@));
            }
            j = j + 1;
        }
        proof {
            assert(strings_v(back@).take(back@.len() as int) =~= strings_v(back@));
        }
        let reached = reach_closure(&steps, &seed);
        let rows = rows_with_ids_except(store, &reached, from_id);
        proof {
            let p1 = |r: NodeV| strings_v(reached@).contains(r.0) && r.0 != from_id@;
            let p2 = |r: NodeV| in_blast_radius(*store, from_id@, r);
            assert(p1 =~= p2);
        }
        take_rows(rows, BLAST_RADIUS_LIMIT)
    }
}

/// The endpoint that an edge row touching a node leads to: the target of an outgoing edge or
/// the source of an incoming one, with that node's type and payload.
pub open spec fn endpoint_of(store: Store, e: EdgeV, outgoing: bool) -> EndpointV {
    let other = if outgoing {
        e.1
    } else {
        e.0
    };
    (other, e.2, store.node_map()[other].0, store.node_map()[other].1)
}

/// The edge rows that leave (`outgoing`) or enter `id` and whose other end is a stored node.
pub open spec fn touches(store: Store, id: Seq<char>, e: EdgeV, outgoing: bool) -> bool {
    if outgoing {
        e.0 == id && store.node_map().contains_key(e.1)
    } else {
        e.1 == id && store.node_map().contains_key(e.0)
    }
}

/// The endpoints of the edges that leave or enter `id`, in edge order.
pub open spec fn spec_endpoints(store: Store, id: Seq<char>, outgoing: bool) -> Seq<EndpointV> {
    store.edge_rows().filter(|e: EdgeV| touches(store, id, e, outgoing)).map_values(
        |e: EdgeV| endpoint_of(store, e, outgoing),
    )
}

/// The abstract endpoints of a vector.
pub open spec fn endpoints_v(v: Seq<EdgeEndpoint>) -> Seq<EndpointV> {
    v.map_values(|e: EdgeEndpoint| e@)
}

fn endpoints(store: &Store, id: &str, outgoing: bool) -> (res: Vec<EdgeEndpoint>)
    requires
        store.wf(),
    ensures
        endpoints_v(res@) == spec_endpoints(*store, id@, outgoing),
{
    let rows = store.edge_row_vec();
    let nodes = store.node_row_vec();
    let ghost ev = store.edge_rows();
    let ghost pred = |e: EdgeV| touches(*store, id@, e, outgoing);
    let ghost f = |e: EdgeV| endpoint_of(*store, e, outgoing);
    let mut res: Vec<EdgeEndpoint> = Vec::new();
    let mut i: usize = 0;
    proof {
        lemma_filter_ends(ev, pred);
    }
    while i < rows.len()
        invariant
            i <= rows.len(),
            store.wf(),
            ev == store.edge_rows(),
            ev == edge_rows_v(rows@),
            node_rows_v(nodes@) == store.node_rows(),
            pred == (|e: EdgeV| touches(*store, id@, e, outgoing)),
            f == (|e: EdgeV| endpoint_of(*store, e, outgoing)),
            endpoints_v(res@) == ev.take(i as int).filter(pred).map_values(f),
        decreases rows.len() - i,
    {
        let e = &rows[i];
        proof {
            lemma_filter_step(ev, i as int, pred);
            assert(ev[i as int] == e@);
        }
        let (here, other) = if outgoing {
            (&e.from_id, &e.to_id)
        } else {
            (&e.to_id, &e.from_id)
        };
        if str_eq(here.as_str(), id) {
            match find_node(store, other.as_str()) {
                Some(k) => {
                    let n = &nodes[k];
                    assert(store.node_rows()[k as int] == n@);
                    let ep = EdgeEndpoint {
                        id: other.clone(),
                        edge_type: e.edge_type.clone(),
                        node_type: n.node_type.clone(),
                        payload: clone_opt(&n.payload),
                    };
                    let ghost before = res@;
                    res.push(ep);
                    proof {
                        lemma_map_push(ev.take(i as int).filter(pred), e@, f);
                        assert(endpoints_v(res@) =~= endpoints_v(before).push(ep@));
                    }
                },
                None => {},
            }
        }
        i = i + 1;
    }
    proof {
        lemma_filter_ends(ev, pred);
    }
    res
}

/// The abstract module edge for a containment edge row.
pub open spec fn module_edge_of(store: Store, e: EdgeV) -> ModuleEdgeV {
    (e.0, e.1, store.node_map()[e.0].0, store.node_map()[e.1].0)
}

/// A containment edge between stored nodes from a file, module or crate root to a file or module.
pub open spec fn is_module_edge(store: Store, e: EdgeV) -> bool {
    &&& e.2 == "contains"@
    &&& store.node_map().contains_key(e.0)
    &&& store.node_map().contains_key(e.1)
    &&& seq!["file"@, "module"@, "crate_root"@].contains(store.node_map()[e.0].0)
    &&& seq!["file"@, "module"@].contains(store.node_map()[e.1].0)
}

/// The number of containment edges that the module graph returns at most.
pub const MODULE_GRAPH_LIMIT: usize = 10000;

/// The module edges before the prefix filter: at most `MODULE_GRAPH_LIMIT`, in edge order.
pub open spec fn module_edges_unfiltered(store: Store) -> Seq<ModuleEdgeV> {
    first_n(
        store.edge_rows().filter(|e: EdgeV| is_module_edge(store, e)),
        MODULE_GRAPH_LIMIT as int,
    ).map_values(|e: EdgeV| module_edge_of(store, e))
}

/// A module edge kept by the prefix filter: no filter or an empty prefix keeps all; otherwise
/// either end's id must start with the prefix.
pub open spec fn keeps_prefix(prefix: Option<Seq<char>>, m: ModuleEdgeV) -> bool {
    match prefix {
        None => true,
        Some(p) => p.len() == 0 || has_prefix(m.0, p) || has_prefix(m.1, p),
    }
}

/// The abstract module edges of a vector.
pub open spec fn module_edges_v(v: Seq<ModuleEdge>) -> Seq<ModuleEdgeV> {
    v.map_values(|m: ModuleEdge| m@)
}

/// The abstract triples of an optional string slice.
pub open spec fn opt_str_v(p: Option<&str>) -> Option<Seq<char>> {
    match p {
        Some(s) => Some(s@),
        None => None,
    }
}

impl Query {
    /// Full info for a node: its type and payload with every edge that leaves or enters it
    /// and ends at a stored node. `None` when no node has this id.
    pub fn node_info(store: &Store, node_id: &str) -> (res: Option<NodeInfo>)
        requires
            store.wf(),
        ensures
            match res {
                None => !store.node_map().contains_key(node_id@),
                Some(info) => {
                    &&& store.node_map().contains_key(node_id@)
                    &&& info.id@ == node_id@
                    &&& (info.node_type@, opt_chars(info.payload)) == store.node_map()[node_id@]
                    &&& endpoints_v(info.outgoing_edges@) == spec_endpoints(*store, node_id@, true)
                    &&& endpoints_v(info.incoming_edges@) == spec_endpoints(*store, node_id@, false)
                },
            },
    {
        match find_node(store, node_id) {
            None => None,
            Some(k) => {
                let n = &store.node_row_vec()[k];
                assert(store.node_rows()[k as int] == n@);
                let outgoing = endpoints(store, node_id, true);
                let incoming = endpoints(store, node_id, false);
                Some(
                    NodeInfo {
                        id: n.id.clone(),
                        node_type: n.node_type.clone(),
                        payload: clone_opt(&n.payload),
                        outgoing_edges: outgoing,
                        incoming_edges: incoming,
                    },
                )
            },
        }
    }

    /// The containment edges between file, module and crate-root nodes (at most 10000), with
    /// the types of both ends; when a non-empty prefix is given, only edges with an end whose
    /// id starts with it.
    pub fn module_graph(store: &Store, path_prefix: Option<&str>) -> (res: Vec<ModuleEdge>)
        requires
            store.wf(),
        ensures
            module_edges_v(res@) == module_edges_unfiltered(*store).filter(
                |m: ModuleEdgeV| keeps_prefix(opt_str_v(path_prefix), m),
            ),
    {
        let rows = store.edge_row_vec();
        let nodes = store.node_row_vec();
        let ghost ev = store.edge_rows();
        let ghost pred = |e: EdgeV| is_module_edge(*store, e);
        let ghost f = |e: EdgeV| module_edge_of(*store, e);
        let mut all: Vec<ModuleEdge> = Vec::new();
        let mut i: usize = 0;
        proof {
            lemma_filter_ends(ev, pred);
        }
        while i < rows.len() && all.len() < MODULE_GRAPH_LIMIT
            invariant
                i <= rows.len(),
                all.len() <= MODULE_GRAPH_LIMIT,
                store.wf(),
                ev == store.edge_rows(),
                ev == edge_rows_v(rows@),
                node_rows_v(nodes@) == store.node_rows(),
                pred == (|e: EdgeV| is_module_edge(*store, e)),
                f == (|e: EdgeV| module_edge_of(*store, e)),
                module_edges_v(all@) == ev.take(i as int).filter(pred).map_values(f),
            decreases rows.len() - i,
        {
            let e = &rows[i];
            proof {
                lemma_filter_step(ev, i as int, pred);
                assert(ev[i as int] == e@);
            }
            if str_eq(e.edge_type.as_str(), "contains") {
                match (find_node(store, e.from_id.as_str()), find_node(store, e.to_id.as_str())) {
                    (Some(a), Some(b)) => {
                        let ft = &nodes[a].node_type;
                        let tt = &nodes[b].node_type;
                        assert(store.node_rows()[a as int] == nodes@[a as int]@);
                        assert(store.node_rows()[b as int] == nodes@[b as int]@);
                        let from_ok = str_eq(ft.as_str(), "file") || str_eq(ft.as_str(), "module")
                            || str_eq(ft.as_str(), "crate_root");
                        let to_ok = str_eq(tt.as_str(), "file") || str_eq(tt.as_str(), "module");
                        proof {
                            let ts = seq!["file"@, "module"@, "crate_root"@];
                            assert(ts[0] == "file"@ && ts[1] == "module"@ && ts[2] == "crate_root"@);
                            assert(ts.contains(ft@) ==> (ft@ == ts[0] || ft@ == ts[1] || ft@ == ts[2]));
                            let us = seq!["file"@, "module"@];
                            assert(us[0] == "file"@ && us[1] == "module"@);
                            assert(us.contains(tt@) ==> (tt@ == us[0] || tt@ == us[1]));
                        }
                        if from_ok && to_ok {
                            let m = ModuleEdge {
                                from_id: e.from_id.clone(),
                                to_id: e.to_id.clone(),
                                from_type: ft.clone(),
                                to_type: tt.clone(),
                            };
                            let ghost before = all@;
                            all.push(m);
                            proof {
                                lemma_map_push(ev.take(i as int).filter(pred), e@, f);
                                assert(module_edges_v(all@) =~= module_edges_v(before).push(m@));
                            }
                        }
                    },
                    _ => {},
                }
            }
            i = i + 1;
        }
        proof {
            let flt = ev.filter(pred);
            lemma_filter_ends(ev, pred);
            if i == rows.len() {
                if flt.len() > MODULE_GRAPH_LIMIT {
                    assert(all@.len() == flt.len());
                }
            } else {
                lemma_filter_prefix(ev, pred, i as int);
                assert(ev.take(i as int).filter(pred) =~= flt.take(MODULE_GRAPH_LIMIT as int));
            }
            assert(module_edges_v(all@) == module_edges_unfiltered(*store));
        }
        let ghost unf = module_edges_v(all@);
        let ghost kp = |m: ModuleEdgeV| keeps_prefix(opt_str_v(path_prefix), m);
        let pre = match path_prefix {
            Some(p) => chars_of(p),
            None => Vec::new(),
        };
        let mut res: Vec<ModuleEdge> = Vec::new();
        let mut j: usize = 0;
        proof {
            lemma_filter_ends(unf, kp);
        }
        while j < all.len()
            invariant
                j <= all.len(),
                unf == module_edges_v(all@),
                kp == (|m: ModuleEdgeV| keeps_prefix(opt_str_v(path_prefix), m)),
                path_prefix is Some ==> pre@ == path_prefix->0@,
                module_edges_v(res@) == unf.take(j as int).filter(kp),
            decreases all.len() - j,
        {
            let m = &all[j];
            proof {
                lemma_filter_step(unf, j as int, kp);
                assert(unf[j as int] == m@);
            }
            let keep = match path_prefix {
                None => true,
                Some(_) => {
                    let a = chars_of(m.from_id.as_str());
                    let b = chars_of(m.to_id.as_str());
                    pre.len() == 0 || starts_with(a.as_slice(), pre.as_slice()) || starts_with(
                        b.as_slice(),
                        pre.as_slice(),
                    )
                },
            };
            if keep {
                let c = ModuleEdge {
                    from_id: m.from_id.clone(),
                    to_id: m.to_id.clone(),
                    from_type: m.from_type.clone(),
                    to_type: m.to_type.clone(),
                };
                let ghost before = res@;
                res.push(c);
                proof {
                    assert(module_edges_v(res@) =~= module_edges_v(before).push(c@));
                }
            }
            j = j + 1;
        }
        proof {
            lemma_filter_ends(unf, kp);
        }
        res
    }
}

/// While fewer than `n` elements passed, the filtered prefix is a prefix of the full filter;
/// once `n` have passed it is exactly the first `n` of the full filter.
pub proof fn lemma_filter_prefix<A>(s: Seq<A>, pred: spec_fn(A) -> bool, i: int)
    requires
        0 <= i <= s.len(),
    ensures
        s.filter(pred).take(s.take(i).filter(pred).len() as int) == s.take(i).filter(pred),
        s.take(i).filter(pred).len() <= s.filter(pred).len(),
    decreases s.len() - i,
{
    if i == s.len() {
        assert(s.take(i) =~= s);
        assert(s.filter(pred).take(s.filter(pred).len() as int) =~= s.filter(pred));
    } else {
        lemma_filter_prefix(s, pred, i + 1);
        lemma_filter_step(s, i, pred);
        let a = s.take(i).filter(pred);
        let b = s.take(i + 1).filter(pred);
        let full = s.filter(pred);
        if pred(s[i]) {
            assert(full.take(a.len() as int) =~= b.take(a.len() as int));
            assert(b.take(a.len() as int) =~= a);
        }
    }
}

/// A trait node whose payload contains `name`.
pub open spec fn is_matching_trait(name: Seq<char>, t: NodeV) -> bool {
    t.1 == "trait"@ && t.2 is Some && contains_seq(t.2->0, name)
}

/// An `implements_trait` edge from `id` to a stored trait node whose name contains `name`.
pub open spec fn implements_matching(store: Store, name: Seq<char>, id: Seq<char>) -> bool {
    exists|e: EdgeV, t: NodeV|
        #![trigger store.edge_rows().contains(e), store.node_rows().contains(t)]
        store.edge_rows().contains(e) && e.0 == id && e.2 == "implements_trait"@
            && store.node_rows().contains(t) && t.0 == e.1 && is_matching_trait(name, t)
}

/// The number of implementors returned at most.
pub const TRAIT_IMPLEMENTORS_LIMIT: usize = 500;

impl Query {
    /// The nodes with an `implements_trait` edge to a trait whose name contains `trait_name`
    /// (at most 500, in node order).
    pub fn trait_implementors(store: &Store, trait_name: &str) -> (res: Vec<NodeRow>)
        requires
            store.wf(),
        ensures
            node_rows_v(res@) == first_n(
                store.node_rows().filter(
                    |r: NodeV| implements_matching(*store, trait_name@, r.0),
                ),
                TRAIT_IMPLEMENTORS_LIMIT as int,
            ),
    {
        let nodes = store.node_row_vec();
        let name = chars_of(trait_name);
        let mut traits: Vec<String> = Vec::new();
        let mut i: usize = 0;
        while i < nodes.len()
            invariant
                i <= nodes.len(),
                node_rows_v(nodes@) == store.node_rows(),
                name@ == trait_name@,
                forall|x: Seq<char>|
                    strings_v(traits@).contains(x) <==> exists|k: int|
                        0 <= k < i && store.node_rows()[k].0 == x && is_matching_trait(
                            trait_name@,
                            #[trigger] store.node_rows()[k],
                        ),
            decreases nodes.len() - i,
        {
            let n = &nodes[i];
            assert(store.node_rows()[i as int] == n@);
            let hit = str_eq(n.node_type.as_str(), "trait") && match &n.payload {
                Some(p) => {
                    let pc = chars_of(p.as_str());
                    contains(pc.as_slice(), name.as_slice())
                },
                None => false,
            };
            let ghost before = strings_v(traits@);
            if hit {
                traits.push(n.id.clone());
                proof {
                    assert(strings_v(traits@) =~= before.push(n.id@));
                }
            }
            proof {
                assert forall|x: Seq<char>|
                    strings_v(traits@).contains(x) <==> exists|k: int|
                        0 <= k < i + 1 && store.node_rows()[k].0 == x && is_matching_trait(
                            trait_name@,
                            #[trigger] store.node_rows()[k],
                        ) by {
                    if strings_v(traits@).contains(x) && !before.contains(x) {
                        assert(x == n.id@);
                        assert(is_matching_trait(trait_name@, store.node_rows()[i as int]));
                    }
                    if before.contains(x) {
                        let q = choose|q: int| 0 <= q < before.len() && before[q] == x;
                        assert(strings_v(traits@)[q] == x);
                    }
                    if exists|k: int|
                        0 <= k < i + 1 && store.node_rows()[k].0 == x && is_matching_trait(
                            trait_name@,
                            #[trigger] store.node_rows()[k],
                        ) {
                        let k = choose|k: int|
                            0 <= k < i + 1 && store.node_rows()[k].0 == x && is_matching_trait(
                                trait_name@,
                                #[trigger] store.node_rows()[k],
                            );
                        if k == i {
                            assert(strings_v(traits@)[strings_v(traits@).len() - 1] == x);
                        } else {
                            assert(before.contains(x));
                            let q = choose|q: int| 0 <= q < before.len() && before[q] == x;
                            assert(strings_v(traits@)[q] == x);
                        }
                    }
                }
            }
            i = i + 1;
        }
        let edges = store.edge_row_vec();
        let mut impls: Vec<String> = Vec::new();
        let mut j: usize = 0;
        while j < edges.len()
            invariant
                j <= edges.len(),
                edge_rows_v(edges@) == store.edge_rows(),
                forall|x: Seq<char>|
                    strings_v(traits@).contains(x) <==> exists|k: int|
                        0 <= k < store.node_rows().len() && store.node_rows()[k].0 == x
                            && is_matching_trait(trait_name@, #[trigger] store.node_rows()[k]),
                forall|x: Seq<char>|
                    strings_v(impls@).contains(x) <==> exists|k: int|
                        0 <= k < j && #[trigger] store.edge_rows()[k].0 == x
                            && store.edge_rows()[k].2 == "implements_trait"@ && strings_v(
                            traits@,
                        ).contains(store.edge_rows()[k].1),
            decreases edges.len() - j,
        {
            let e = &edges[j];
            assert(store.edge_rows()[j as int] == e@);
            let hit = str_eq(e.edge_type.as_str(), "implements_trait")
                && crate::graph::reach::contains_string(&traits, &e.to_id);
            let ghost before = strings_v(impls@);
            if hit {
                impls.push(e.from_id.clone());
                proof {
                    assert(strings_v(impls@) =~= before.push(e.from_id@));
                }
            }
            proof {
                assert forall|x: Seq<char>|
                    strings_v(impls@).contains(x) <==> exists|k: int|
                        0 <= k < j + 1 && #[trigger] store.edge_rows()[k].0 == x
                            && store.edge_rows()[k].2 == "implements_trait"@ && strings_v(
                            traits@,
                        ).contains(store.edge_rows()[k].1) by {
                    if strings_v(impls@).contains(x) && !before.contains(x) {
                        assert(x == e.from_id@);
                        assert(store.edge_rows()[j as int].0 == x);
                    }
                    if before.contains(x) {
                        let q = choose|q: int| 0 <= q < before.len() && before[q] == x;
                        assert(strings_v(impls@)[q] == x);
                    }
                    if exists|k: int|
                        0 <= k < j + 1 && #[trigger] store.edge_rows()[k].0 == x
                            && store.edge_rows()[k].2 == "implements_trait"@ && strings_v(
                            traits@,
                        ).contains(store.edge_rows()[k].1) {
                        let k = choose|k: int|
                            0 <= k < j + 1 && #[trigger] store.edge_rows()[k].0 == x
                                && store.edge_rows()[k].2 == "implements_trait"@ && strings_v(
                                traits@,
                            ).contains(store.edge_rows()[k].1);
                        if k == j {
                            assert(strings_v(impls@)[strings_v(impls@).len() - 1] == x);
                        } else {
                            assert(before.contains(x));
                            let q = choose|q: int| 0 <= q < before.len() && before[q] == x;
                            assert(strings_v(impls@)[q] == x);
                        }
                    }
                }
            }
            j = j + 1;
        }
        proof {
            assert forall|x: Seq<char>|
                strings_v(impls@).contains(x) == implements_matching(*store, trait_name@, x) by {
                if strings_v(impls@).contains(x) {
                    let k = choose|k: int|
                        0 <= k < store.edge_rows().len() && #[trigger] store.edge_rows()[k].0 == x
                            && store.edge_rows()[k].2 == "implements_trait"@ && strings_v(
                            traits@,
                        ).contains(store.edge_rows()[k].1);
                    let e = store.edge_rows()[k];
                    let m = choose|m: int|
                        0 <= m < store.node_rows().len() && store.node_rows()[m].0 == e.1
                            && is_matching_trait(trait_name@, #[trigger] store.node_rows()[m]);
                    let t = store.node_rows()[m];
                    assert(store.edge_rows().contains(e));
                    assert(store.node_rows().contains(t));
                }
                if implements_matching(*store, trait_name@, x) {
                    let (e, t) = choose|e: EdgeV, t: NodeV|
                        #![trigger store.edge_rows().contains(e), store.node_rows().contains(t)]
                        store.edge_rows().contains(e) && e.0 == x && e.2 == "implements_trait"@
                            && store.node_rows().contains(t) && t.0 == e.1 && is_matching_trait(
                            trait_name@,
                            t,
                        );
                    let k = choose|k: int| 0 <= k < store.edge_rows().len() && store.edge_rows()[k] == e;
                    let m = choose|m: int| 0 <= m < store.node_rows().len() && store.node_rows()[m] == t;
                    assert(is_matching_trait(trait_name@, store.node_rows()[m]));
                    assert(strings_v(traits@).contains(e.1));
                    assert(store.edge_rows()[k].0 == x);
                }
            }
        }
        let rows = rows_with_ids(store, &impls);
        proof {
            let p1 = |r: NodeV| strings_v(impls@).contains(r.0);
            let p2 = |r: NodeV| implements_matching(*store, trait_name@, r.0);
            assert(p1 =~= p2);
        }
        take_rows(rows, TRAIT_IMPLEMENTORS_LIMIT)
    }
}

/// Reverse call steps (callee to caller) of the `calls` edges whose caller is a stored node.
pub open spec fn caller_steps(store: Store) -> Steps {
    store.edge_rows().filter(
        |e: EdgeV| e.2 == "calls"@ && store.node_map().contains_key(e.0),
    ).map_values(|e: EdgeV| (e.1, e.0))
}

/// Nearer first: whatever is reached within `r` steps, everything listed before it is too.
pub open spec fn nearer_first(steps: Steps, from: Seq<char>, s: Seq<Seq<char>>) -> bool {
    forall|i: int, j: int, r: int|
        #![trigger within(steps, from, s[j], r), s[i]]
        0 <= i < j < s.len() && within(steps, from, s[j], r) ==> within(steps, from, s[i], r)
}

/// `x` is reached from `from` by a walk of at most `n` steps.
pub open spec fn within(steps: Steps, from: Seq<char>, x: Seq<char>, n: int) -> bool {
    exists|w: Seq<Seq<char>>|
        #![trigger is_walk(steps, w), w.last()]
        is_walk(steps, w) && w[0] == from && w.last() == x && w.len() <= n + 1
}

/// `x` is first reached after exactly `n` steps.
pub open spec fn exactly(steps: Steps, from: Seq<char>, x: Seq<char>, n: int) -> bool {
    within(steps, from, x, n) && (n == 0 || !within(steps, from, x, n - 1))
}

proof fn lemma_within_zero(steps: Steps, from: Seq<char>, x: Seq<char>)
    ensures
        within(steps, from, x, 0) <==> x == from,
{
    if x == from {
        let w = seq![from];
        assert(is_walk(steps, w) && w[0] == from && w.last() == x && w.len() <= 1);
    }
}

proof fn lemma_within_mono(steps: Steps, from: Seq<char>, x: Seq<char>, n: int, m: int)
    requires
        n <= m,
        within(steps, from, x, n),
    ensures
        within(steps, from, x, m),
{
    let w = choose|w: Seq<Seq<char>>|
        #![trigger is_walk(steps, w), w.last()]
        is_walk(steps, w) && w[0] == from && w.last() == x && w.len() <= n + 1;
    assert(is_walk(steps, w) && w[0] == from && w.last() == x && w.len() <= m + 1);
}

proof fn lemma_within_extend(steps: Steps, from: Seq<char>, y: Seq<char>, x: Seq<char>, n: int)
    requires
        within(steps, from, y, n),
        steps.contains((y, x)),
    ensures
        within(steps, from, x, n + 1),
{
    let w = choose|w: Seq<Seq<char>>|
        #![trigger is_walk(steps, w), w.last()]
        is_walk(steps, w) && w[0] == from && w.last() == y && w.len() <= n + 1;
    let w2 = w.push(x);
    assert forall|k: int| 0 <= k < w2.len() - 1 implies #[trigger] steps.contains((w2[k], w2[k + 1])) by {
        if k < w.len() - 1 {
            assert(steps.contains((w[k], w[k + 1])));
        }
    }
    assert(is_walk(steps, w2) && w2[0] == from && w2.last() == x && w2.len() <= n + 2);
}

proof fn lemma_within_split(steps: Steps, from: Seq<char>, x: Seq<char>, n: int)
    requires
        n >= 0,
        within(steps, from, x, n + 1),
        !within(steps, from, x, n),
    ensures
        exists|y: Seq<char>| within(steps, from, y, n) && #[trigger] steps.contains((y, x)),
{
    let w = choose|w: Seq<Seq<char>>|
        #![trigger is_walk(steps, w), w.last()]
        is_walk(steps, w) && w[0] == from && w.last() == x && w.len() <= n + 2;
    if w.len() <= n + 1 {
        assert(within(steps, from, x, n));
    } else {
        let p = w.drop_last();
        let y = p.last();
        assert forall|k: int| 0 <= k < p.len() - 1 implies #[trigger] steps.contains((p[k], p[k + 1])) by {
            assert(steps.contains((w[k], w[k + 1])));
        }
        assert(is_walk(steps, p) && p[0] == from && p.last() == y && p.len() <= n + 1);
        let j = w.len() - 2;
        assert(steps.contains((w[j], w[j + 1])));
        assert(steps.contains((y, x)));
    }
}

proof fn lemma_within_stable(steps: Steps, from: Seq<char>, r: int, n: int, x: Seq<char>)
    requires
        r >= 0,
        n >= r,
        forall|z: Seq<char>| within(steps, from, z, r + 1) ==> within(steps, from, z, r),
        within(steps, from, x, n),
    ensures
        within(steps, from, x, r),
    decreases n - r,
{
    if n > r && !within(steps, from, x, n - 1) {
        lemma_within_split(steps, from, x, n - 1);
        let y = choose|y: Seq<char>| within(steps, from, y, n - 1) && #[trigger] steps.contains((y, x));
        lemma_within_stable(steps, from, r, n - 1, y);
        lemma_within_extend(steps, from, y, x, r);
    } else if n > r {
        lemma_within_stable(steps, from, r, n - 1, x);
    }
}

/// The abstract (id, type, payload) rows of the callers: each node reached from the target by
/// at most `depth` reverse call steps (at least one), other than the target.
pub open spec fn is_caller_of(store: Store, target: Seq<char>, depth: int, x: Seq<char>) -> bool {
    x != target && within(caller_steps(store), target, x, if depth < 1 {
        1
    } else {
        depth
    })
}

/// The callers that one breadth-first round adds, taking the first `m` steps in order: the caller
/// of each step whose callee is in `front`, unless it was seen before or already added.
pub open spec fn round_new(sv: Steps, front: Seq<Seq<char>>, seen: Seq<Seq<char>>, m: nat) -> Seq<Seq<char>>
    decreases m,
{
    if m == 0 || m > sv.len() {
        Seq::empty()
    } else {
        let prev = round_new(sv, front, seen, (m - 1) as nat);
        let step = sv[m - 1];
        if front.contains(step.0) && !(seen + prev).contains(step.1) {
            prev.push(step.1)
        } else {
            prev
        }
    }
}

/// The (seen, frontier) pair after `r` breadth-first rounds from `t`; the search stops early once
/// a round adds nothing.
pub open spec fn caller_rounds(sv: Steps, t: Seq<char>, r: nat) -> (Seq<Seq<char>>, Seq<Seq<char>>)
    decreases r,
{
    if r == 0 {
        (seq![t], seq![t])
    } else {
        let prev = caller_rounds(sv, t, (r - 1) as nat);
        if prev.1.len() == 0 {
            prev
        } else {
            let nx = round_new(sv, prev.1, prev.0, sv.len());
            (prev.0 + nx, nx)
        }
    }
}

/// The ids that `callers` lists, in order: everything seen after `max(depth, 1)` rounds, but
/// the target.
pub open spec fn callers_ids(store: Store, target: Seq<char>, depth: int) -> Seq<Seq<char>> {
    caller_rounds(caller_steps(store), target, if depth < 1 {
        1
    } else {
        depth as nat
    }).0.skip(1)
}

proof fn lemma_rounds_settle(sv: Steps, t: Seq<char>, r: nat, n: nat)
    requires
        r <= n,
        caller_rounds(sv, t, r).1.len() == 0,
    ensures
        caller_rounds(sv, t, n) == caller_rounds(sv, t, r),
    decreases n - r,
{
    if n > r {
        lemma_rounds_settle(sv, t, r, (n - 1) as nat);
    }
}

proof fn lemma_rounds_grow(sv: Steps, t: Seq<char>, r: nat)
    ensures
        caller_rounds(sv, t, r).0.len() >= 1,
        caller_rounds(sv, t, r).0.len() <= caller_rounds(sv, t, r + 1).0.len(),
        caller_rounds(sv, t, r + 1).0.take(caller_rounds(sv, t, r).0.len() as int) == caller_rounds(sv, t, r).0,
    decreases r,
{
    if r > 0 {
        lemma_rounds_grow(sv, t, (r - 1) as nat);
    }
    let a = caller_rounds(sv, t, r).0;
    let b = caller_rounds(sv, t, r + 1).0;
    assert(b.take(a.len() as int) =~= a);
}

/// The reverse call steps, computed.
fn caller_pairs(store: &Store) -> (res: Vec<(String, String)>)
    requires
        store.wf(),
    ensures
        steps_v(res@) == caller_steps(*store),
{
    let rows = store.edge_row_vec();
    let ghost ev = store.edge_rows();
    let ghost pred = |e: EdgeV| e.2 == "calls"@ && store.node_map().contains_key(e.0);
    let ghost f = |e: EdgeV| (e.1, e.0);
    let mut res: Vec<(String, String)> = Vec::new();
    let mut i: usize = 0;
    proof {
        lemma_filter_ends(ev, pred);
    }
    while i < rows.len()
        invariant
            i <= rows.len(),
            store.wf(),
            ev == store.edge_rows(),
            ev == edge_rows_v(rows@),
            pred == (|e: EdgeV| e.2 == "calls"@ && store.node_map().contains_key(e.0)),
            f == (|e: EdgeV| (e.1, e.0)),
            steps_v(res@) == ev.take(i as int).filter(pred).map_values(f),
        decreases rows.len() - i,
    {
        let e = &rows[i];
        proof {
            lemma_filter_step(ev, i as int, pred);
            assert(ev[i as int] == e@);
        }
        if str_eq(e.edge_type.as_str(), "calls") && find_node(store, e.from_id.as_str()).is_some() {
            let ghost before = res@;
            res.push((e.to_id.clone(), e.from_id.clone()));
            proof {
                lemma_map_push(ev.take(i as int).filter(pred), e@, f);
                assert(steps_v(res@) =~= steps_v(before).push((e.to_id@, e.from_id@)));
            }
        }
        i = i + 1;
    }
    proof {
        lemma_filter_ends(ev, pred);
    }
    res
}

impl Query {
    /// The callers of `target_id`: the stored nodes that reach it by at most `depth` `calls`
    /// edges (depth 0 counts as 1), other than the target itself; each once, nearer callers
    /// first.
    pub fn callers(store: &Store, target_id: &str, depth: u32) -> (res: Vec<NodeRow>)
        requires
            store.wf(),
        ensures
            no_dups_ids(node_rows_v(res@)),
            forall|k: int| 0 <= k < res@.len() ==> store.node_map().contains_key(#[trigger] res@[k].id@)
                && store.node_map()[res@[k].id@] == (res@[k].node_type@, opt_chars(res@[k].payload)),
            forall|x: Seq<char>|
                (exists|k: int| 0 <= k < res@.len() && #[trigger] res@[k].id@ == x) <==> is_caller_of(
                    *store,
                    target_id@,
                    depth as int,
                    x,
                ),
            nearer_first(caller_steps(*store), target_id@, node_rows_v(res@).map_values(|r: NodeV| r.0)),
            node_rows_v(res@).map_values(|r: NodeV| r.0) == callers_ids(*store, target_id@, depth as int),
    {
        let steps = caller_pairs(store);
        let ghost sv = steps_v(steps@);
        let ghost t = target_id@;
        let max_rounds: u32 = if depth < 1 {
            1
        } else {
            depth
        };
        let target = target_id.to_owned();
        let mut seen: Vec<String> = Vec::new();
        seen.push(target.clone());
        let mut frontier: Vec<String> = Vec::new();
        frontier.push(target.clone());
        let mut found: Vec<NodeRow> = Vec::new();
        let mut round: u32 = 0;
        proof {
            assert forall|x: Seq<char>| strings_v(seen@).contains(x) == within(sv, t, x, 0) by {
                lemma_within_zero(sv, t, x);
                if x == t {
                    assert(strings_v(seen@)[0] == x);
                }
            }
            assert forall|x: Seq<char>| strings_v(frontier@).contains(x) == exactly(sv, t, x, 0) by {
                lemma_within_zero(sv, t, x);
                if x == t {
                    assert(strings_v(frontier@)[0] == x);
                }
            }
            assert(strings_v(seen@).skip(1) =~= Seq::<Seq<char>>::empty());
            assert(node_rows_v(found@).map_values(|r: NodeV| r.0) =~= Seq::<Seq<char>>::empty());
            assert(strings_v(seen@) =~= seq![t]);
            assert(strings_v(frontier@) =~= seq![t]);
        }
        while round < max_rounds
            invariant
                round <= max_rounds,
                max_rounds == (if depth < 1 { 1 } else { depth }),
                store.wf(),
                sv == steps_v(steps@),
                sv == caller_steps(*store),
                t == target_id@,
                strings_v(seen@).len() > 0,
                strings_v(seen@)[0] == t,
                no_dups(strings_v(seen@)),
                nearer_first(sv, t, strings_v(seen@)),
                forall|x: Seq<char>| #![trigger strings_v(seen@).contains(x)] #![trigger within(sv, t, x, round as int)] strings_v(seen@).contains(x) == within(sv, t, x, round as int),
                forall|x: Seq<char>| #![trigger strings_v(frontier@).contains(x)] #![trigger exactly(sv, t, x, round as int)]
                    strings_v(frontier@).contains(x) == exactly(sv, t, x, round as int),
                node_rows_v(found@).map_values(|r: NodeV| r.0) == strings_v(seen@).skip(1),
                forall|k: int| 0 <= k < found@.len() ==> store.node_map().contains_key(#[trigger] found@[k].id@)
                    && store.node_map()[found@[k].id@] == (found@[k].node_type@, opt_chars(found@[k].payload)),
                (strings_v(seen@), strings_v(frontier@)) == caller_rounds(sv, t, round as nat),
            ensures
                strings_v(seen@) == caller_rounds(sv, t, max_rounds as nat).0,
                strings_v(seen@).len() > 0,
                strings_v(seen@)[0] == t,
                no_dups(strings_v(seen@)),
                nearer_first(sv, t, strings_v(seen@)),
                forall|x: Seq<char>| strings_v(seen@).contains(x) == within(sv, t, x, max_rounds as int),
                node_rows_v(found@).map_values(|r: NodeV| r.0) == strings_v(seen@).skip(1),
                forall|k: int| 0 <= k < found@.len() ==> store.node_map().contains_key(#[trigger] found@[k].id@)
                    && store.node_map()[found@[k].id@] == (found@[k].node_type@, opt_chars(found@[k].payload)),
            decreases max_rounds - round,
        {
            if frontier.len() == 0 {
                proof {
                    assert forall|z: Seq<char>| within(sv, t, z, round as int) implies within(
                        sv,
                        t,
                        z,
                        round - 1,
                    ) by {
                        if round == 0 {
                            assert(strings_v(frontier@).contains(t) == exactly(sv, t, t, 0));
                            lemma_within_zero(sv, t, t);
                        } else if !within(sv, t, z, round - 1) {
                            assert(exactly(sv, t, z, round as int));
                            assert(strings_v(frontier@).contains(z));
                        }
                    }
                    assert forall|x: Seq<char>| strings_v(seen@).contains(x) == within(
                        sv,
                        t,
                        x,
                        max_rounds as int,
                    ) by {
                        if within(sv, t, x, max_rounds as int) {
                            if round == 0 {
                                lemma_within_zero(sv, t, t);
                            } else {
                                assert forall|z: Seq<char>| #[trigger] within(sv, t, z, (round - 1) + 1) implies within(
                                    sv,
                                    t,
                                    z,
                                    round - 1,
                                ) by {}
                                lemma_within_stable(sv, t, round - 1, max_rounds as int, x);
                                lemma_within_mono(sv, t, x, round - 1, round as int);
                            }
                        }
                        if strings_v(seen@).contains(x) {
                            lemma_within_mono(sv, t, x, round as int, max_rounds as int);
                        }
                    }
                    lemma_rounds_settle(sv, t, round as nat, max_rounds as nat);
                }
                break;
            }
            let ghost seen0 = strings_v(seen@);
            let ghost front = strings_v(frontier@);
            let mut next: Vec<String> = Vec::new();
            let mut k: usize = 0;
            while k < steps.len()
                invariant
                    k <= steps.len(),
                    store.wf(),
                    sv == steps_v(steps@),
                    sv == caller_steps(*store),
                    front == strings_v(frontier@),
                    strings_v(seen@).len() > 0,
                    strings_v(seen@)[0] == t,
                    seen0[0] == t,
                    seen0.len() > 0,
                    no_dups(strings_v(seen@)),
                    strings_v(seen@) == seen0 + strings_v(next@),
                    (seen0, front) == caller_rounds(sv, t, round as nat),
                    front.len() > 0,
                    strings_v(next@) == round_new(sv, front, seen0, k as nat),
                    forall|x: Seq<char>| #[trigger] strings_v(next@).contains(x) ==> !seen0.contains(x) && stepped_from(
                        front,
                        sv,
                        x,
                    ),
                    forall|m: int| 0 <= m < k && front.contains(sv[m].0) ==> strings_v(seen@).contains(
                        #[trigger] sv[m].1,
                    ),
                    forall|x: Seq<char>| #![trigger front.contains(x)] #![trigger exactly(sv, t, x, round as int)] front.contains(x) == exactly(sv, t, x, round as int),
                    forall|x: Seq<char>| #![trigger seen0.contains(x)] #![trigger within(sv, t, x, round as int)] seen0.contains(x) == within(sv, t, x, round as int),
                    node_rows_v(found@).map_values(|r: NodeV| r.0) == strings_v(seen@).skip(1),
                    forall|q: int| 0 <= q < found@.len() ==> store.node_map().contains_key(#[trigger] found@[q].id@)
                        && store.node_map()[found@[q].id@] == (found@[q].node_type@, opt_chars(found@[q].payload)),
                decreases steps.len() - k,
            {
                let (callee, caller) = &steps[k];
                assert(sv[k as int] == (callee@, caller@));
                if crate::graph::reach::contains_string(&frontier, callee)
                    && !crate::graph::reach::contains_string(&seen, caller) {
                    let ghost before_seen = strings_v(seen@);
                    let ghost before_next = strings_v(next@);
                    let ghost before_found = found@;
                    seen.push(caller.clone());
                    next.push(caller.clone());
                    proof {
                        assert(strings_v(seen@) =~= before_seen.push(caller@));
                        assert(strings_v(next@) =~= before_next.push(caller@));
                        assert(strings_v(seen@) =~= seen0 + strings_v(next@));
                        assert(strings_v(next@) == round_new(sv, front, seen0, (k + 1) as nat));
                        assert(sv.contains((callee@, caller@)));
                        let flt = store.edge_rows().filter(
                            |e: EdgeV| e.2 == "calls"@ && store.node_map().contains_key(e.0),
                        );
                        let mv = flt.map_values(|e: EdgeV| (e.1, e.0));
                        let e_i = choose|i: int| 0 <= i < mv.len() && mv[i] == (callee@, caller@);
                        assert(mv[e_i] == (flt[e_i].1, flt[e_i].0));
                        broadcast use vstd::seq_lib::group_filter_ensures;
                        assert(store.node_map().contains_key(flt[e_i].0));
                    }
                    let row_k = find_node(store, caller.as_str());
                    match row_k {
                        Some(ri) => {
                            let n = store.node_row_vec()[ri].clone();
                            assert(store.node_rows()[ri as int] == n@);
                            let ghost bf = found@;
                            found.push(n);
                            proof {
                                lemma_map_push(node_rows_v(bf), n@, |r: NodeV| r.0);
                                assert(node_rows_v(found@) =~= node_rows_v(bf).push(n@));
                                assert(strings_v(seen@).skip(1) =~= before_seen.skip(1).push(caller@));
                            }
                        },
                        None => {},
                    }
                    proof {
                        assert forall|x: Seq<char>| strings_v(next@).contains(x) implies !seen0.contains(x) && stepped_from(
                            front,
                            sv,
                            x,
                        ) by {
                            if x == caller@ {
                                assert(!before_seen.contains(x));
                                assert(front.contains(callee@));
                                assert(sv.contains((callee@, x)));
                                assert(stepped_from(front, sv, x));
                                if seen0.contains(x) {
                                    let q = choose|q: int| 0 <= q < seen0.len() && seen0[q] == x;
                                    assert(before_seen[q] == x);
                                }
                            } else {
                                let q = choose|q: int| 0 <= q < strings_v(next@).len() && strings_v(next@)[q] == x;
                                assert(before_next[q] == x);
                                assert(before_next.contains(x));
                            }
                        }
                        assert forall|m: int| 0 <= m < k + 1 && front.contains(sv[m].0) implies strings_v(
                            seen@,
                        ).contains(#[trigger] sv[m].1) by {
                            if m < k {
                                let q = choose|q: int| 0 <= q < before_seen.len() && before_seen[q] == sv[m].1;
                                assert(strings_v(seen@)[q] == sv[m].1);
                            } else {
                                assert(strings_v(seen@)[before_seen.len() as int] == caller@);
                            }
                        }
                    }
                } else {
                    proof {
                        if front.contains(callee@) {
                            assert(strings_v(seen@).contains(caller@));
                        }
                        assert(strings_v(next@) == round_new(sv, front, seen0, (k + 1) as nat));
                    }
                }
                k = k + 1;
            }
            assert(k == steps.len());
            assert(forall|x: Seq<char>| #[trigger] strings_v(next@).contains(x) ==> !seen0.contains(x) && stepped_from(
                        front,
                        sv,
                        x,
                    ));
            proof {
                assert forall|x: Seq<char>| #![trigger strings_v(next@).contains(x)] #![trigger exactly(sv, t, x, (round as int) + 1)] strings_v(next@).contains(x) == exactly(sv, t, x, (round as int) + 1) by {
                    if strings_v(next@).contains(x) {
                        assert(stepped_from(front, sv, x));
                        let y = pick_stepped(front, sv, x);
                        assert(front.contains(y));
                        assert(front.contains(y) == exactly(sv, t, y, round as int));
                        assert(exactly(sv, t, y, (round as int)));
                        lemma_within_extend(sv, t, y, x, (round as int));
                        assert(!within(sv, t, x, (round as int)));
                    }
                    if exactly(sv, t, x, (round as int) + 1) {
                        lemma_within_split(sv, t, x, (round as int));
                        let y = choose|y: Seq<char>| within(sv, t, y, (round as int)) && #[trigger] sv.contains((y, x));
                        if (round as int) > 0 && within(sv, t, y, (round as int) - 1) {
                            lemma_within_extend(sv, t, y, x, (round as int) - 1);
                        }
                        if (round as int) == 0 {
                            lemma_within_zero(sv, t, y);
                        }
                        assert(exactly(sv, t, y, (round as int)));
                        assert(front.contains(y));
                        let m = choose|m: int| 0 <= m < sv.len() && sv[m] == (y, x);
                        assert(front.contains(sv[m].0));
                        assert(strings_v(seen@).contains(sv[m].1));
                        assert(!seen0.contains(x));
                        let q = choose|q: int| 0 <= q < strings_v(seen@).len() && strings_v(seen@)[q] == x;
                        assert(q >= seen0.len());
                        assert(strings_v(next@)[q - seen0.len()] == x);
                    }
                }
                assert forall|x: Seq<char>| strings_v(seen@).contains(x) == within(sv, t, x, (round as int) + 1) by {
                    if strings_v(seen@).contains(x) {
                        let q = choose|q: int| 0 <= q < strings_v(seen@).len() && strings_v(seen@)[q] == x;
                        if q < seen0.len() {
                            assert(seen0[q] == x);
                            assert(seen0.contains(x));
                            lemma_within_mono(sv, t, x, (round as int), (round as int) + 1);
                        } else {
                            assert(strings_v(next@)[q - seen0.len()] == x);
                            assert(strings_v(next@).contains(x));
                            assert(exactly(sv, t, x, (round as int) + 1));
                        }
                    }
                    if within(sv, t, x, (round as int) + 1) {
                        if within(sv, t, x, (round as int)) {
                            assert(seen0.contains(x) == within(sv, t, x, round as int));
                            assert(seen0.contains(x));
                            let q = choose|q: int| 0 <= q < seen0.len() && seen0[q] == x;
                            assert(strings_v(seen@)[q] == x);
                        } else {
                            assert(exactly(sv, t, x, (round as int) + 1));
                            assert(strings_v(next@).contains(x));
                            let q = choose|q: int| 0 <= q < strings_v(next@).len() && strings_v(next@)[q] == x;
                            assert(strings_v(seen@)[seen0.len() + q] == x);
                        }
                    }
                }
            }
            proof {
                let sn = strings_v(seen@);
                let nx = strings_v(next@);
                assert forall|a: int, b: int, r: int|
                    #![trigger within(sv, t, sn[b], r), sn[a]]
                    0 <= a < b < sn.len() && within(sv, t, sn[b], r) implies within(sv, t, sn[a], r) by {
                    if b < seen0.len() {
                        assert(sn[a] == seen0[a] && sn[b] == seen0[b]);
                        assert(within(sv, t, seen0[b], r));
                    } else {
                        assert(nx[b - seen0.len()] == sn[b]);
                        assert(nx.contains(sn[b]));
                        assert(exactly(sv, t, sn[b], (round as int) + 1));
                        if r <= round {
                            lemma_within_mono(sv, t, sn[b], r, round as int);
                        }
                        if a < seen0.len() {
                            assert(sn[a] == seen0[a]);
                            assert(seen0.contains(sn[a]));
                            lemma_within_mono(sv, t, sn[a], round as int, r);
                        } else {
                            assert(nx[a - seen0.len()] == sn[a]);
                            assert(nx.contains(sn[a]));
                            lemma_within_mono(sv, t, sn[a], (round as int) + 1, r);
                        }
                    }
                }
            }
            proof {
                assert(sv.len() == k);
                assert(caller_rounds(sv, t, (round + 1) as nat) == (seen0 + strings_v(next@), strings_v(next@)));
            }
            frontier = next;
            round = round + 1;
        }
        proof {
            assert forall|x: Seq<char>|
                (exists|k: int| 0 <= k < found@.len() && #[trigger] found@[k].id@ == x) <==> is_caller_of(
                    *store,
                    target_id@,
                    depth as int,
                    x,
                ) by {
                let ids = node_rows_v(found@).map_values(|r: NodeV| r.0);
                let sn = strings_v(seen@);
                if exists|k: int| 0 <= k < found@.len() && #[trigger] found@[k].id@ == x {
                    let k = choose|k: int| 0 <= k < found@.len() && #[trigger] found@[k].id@ == x;
                    assert(ids[k] == x);
                    assert(sn[k + 1] == x);
                    assert(sn[0] != sn[k + 1]);
                }
                if is_caller_of(*store, target_id@, depth as int, x) {
                    assert(sn.contains(x));
                    let q = choose|q: int| 0 <= q < sn.len() && sn[q] == x;
                    assert(q != 0);
                    assert(ids[q - 1] == x);
                    assert(found@[q - 1].id@ == x);
                }
            }
            assert(nearer_first(sv, t, node_rows_v(found@).map_values(|r: NodeV| r.0))) by {
                let ids = node_rows_v(found@).map_values(|r: NodeV| r.0);
                let sn = strings_v(seen@);
                assert forall|a: int, b: int, r: int|
                    #![trigger within(sv, t, ids[b], r), ids[a]]
                    0 <= a < b < ids.len() && within(sv, t, ids[b], r) implies within(sv, t, ids[a], r) by {
                    assert(ids[a] == sn[a + 1]);
                    assert(ids[b] == sn[b + 1]);
                    assert(within(sv, t, sn[b + 1], r));
                }
            }
            assert(no_dups_ids(node_rows_v(found@))) by {
                let ids = node_rows_v(found@).map_values(|r: NodeV| r.0);
                let sn = strings_v(seen@);
                assert forall|a: int, b: int| 0 <= a < found@.len() && 0 <= b < found@.len() && a != b implies
                    node_rows_v(found@)[a].0 != node_rows_v(found@)[b].0 by {
                    assert(ids[a] == sn[a + 1]);
                    assert(ids[b] == sn[b + 1]);
                }
            }
        }
        found
    }
}

/// Some step leads to `x` from a member of `front`.
pub open spec fn stepped_from(front: Seq<Seq<char>>, sv: Steps, x: Seq<char>) -> bool {
    exists|y: Seq<char>| front.contains(y) && #[trigger] sv.contains((y, x))
}

proof fn pick_stepped(front: Seq<Seq<char>>, sv: Steps, x: Seq<char>) -> (y: Seq<char>)
    requires
        stepped_from(front, sv, x),
    ensures
        front.contains(y),
        sv.contains((y, x)),
{
    choose|y: Seq<char>| front.contains(y) && #[trigger] sv.contains((y, x))
}

/// No two rows share an id.
pub open spec fn no_dups_ids(rows: Seq<NodeV>) -> bool {
    forall|i: int, j: int| 0 <= i < rows.len() && 0 <= j < rows.len() && i != j ==> rows[i].0 != rows[j].0
}

/// The number of occurrences of `k` in `keys`.
pub open spec fn occurrences(keys: Seq<Seq<char>>, k: Seq<char>) -> nat {
    keys.filter(|x: Seq<char>| x == k).len()
}

/// Abstract (key, count) pairs.
pub open spec fn counts_v(v: Seq<(String, usize)>) -> Seq<(Seq<char>, int)> {
    v.map_values(|p: (String, usize)| (p.0@, p.1 as int))
}

/// `res` lists each distinct key of `keys` once, with its count.
pub open spec fn tallies(keys: Seq<Seq<char>>, res: Seq<(Seq<char>, int)>) -> bool {
    &&& forall|i: int, j: int| 0 <= i < res.len() && 0 <= j < res.len() && i != j ==> res[i].0 != res[j].0
    &&& forall|k: Seq<char>| keys.contains(k) <==> exists|i: int| 0 <= i < res.len() && #[trigger] res[i].0 == k
    &&& forall|i: int| 0 <= i < res.len() ==> #[trigger] res[i].1 == occurrences(keys, res[i].0)
}

/// `res` lists each distinct key of `keys` once, ordered by key, with its count.
pub open spec fn is_key_count(keys: Seq<Seq<char>>, res: Seq<(Seq<char>, int)>) -> bool {
    &&& tallies(keys, res)
    &&& forall|i: int, j: int| 0 <= i < j < res.len() ==> seq_lt(#[trigger] res[i].0, #[trigger] res[j].0)
}

/// The pairs of `v` ordered by key (the keys of `v` are distinct).
fn sort_counts(v: &Vec<(String, usize)>) -> (res: Vec<(String, usize)>)
    requires
        forall|i: int, j: int|
            0 <= i < v@.len() && 0 <= j < v@.len() && i != j ==> counts_v(v@)[i].0 != counts_v(v@)[j].0,
    ensures
        forall|i: int, j: int|
            0 <= i < j < res@.len() ==> seq_lt(#[trigger] counts_v(res@)[i].0, #[trigger] counts_v(res@)[j].0),
        forall|q: (Seq<char>, int)| counts_v(res@).contains(q) <==> counts_v(v@).contains(q),
{
    let ghost cv = counts_v(v@);
    let mut out: Vec<(String, usize)> = Vec::new();
    let mut i: usize = 0;
    while i < v.len()
        invariant
            i <= v.len(),
            cv == counts_v(v@),
            forall|a: int, b: int| 0 <= a < cv.len() && 0 <= b < cv.len() && a != b ==> cv[a].0 != cv[b].0,
            forall|a: int, b: int|
                0 <= a < b < out@.len() ==> seq_lt(#[trigger] counts_v(out@)[a].0, #[trigger] counts_v(out@)[b].0),
            forall|q: (Seq<char>, int)| counts_v(out@).contains(q) <==> cv.take(i as int).contains(q),
        decreases v.len() - i,
    {
        let key = v[i].0.clone();
        let c = v[i].1;
        let ghost item: (Seq<char>, int) = (key@, c as int);
        assert(cv[i as int] == item);
        let ghost before = counts_v(out@);
        assert(forall|q: (Seq<char>, int)| #[trigger] before.contains(q) <==> cv.take(i as int).contains(q));
        let mut p: usize = 0;
        while p < out.len() && str_lt(out[p].0.as_str(), key.as_str())
            invariant
                p <= out.len(),
                before == counts_v(out@),
                forall|a: int| 0 <= a < p ==> seq_lt(#[trigger] before[a].0, key@),
            decreases out.len() - p,
        {
            assert(before[p as int].0 == out@[p as int].0@);
            p = p + 1;
        }
        proof {
            if p < out.len() {
                assert(before[p as int].0 == out@[p as int].0@);
            }
            assert forall|a: int| 0 <= a < before.len() implies #[trigger] before[a].0 != key@ by {
                assert(before.contains(before[a]));
                assert(cv.take(i as int).contains(before[a]));
                let m = choose|m: int| 0 <= m < cv.take(i as int).len() && cv.take(i as int)[m] == before[a];
                assert(cv[m] == before[a]);
            }
        }
        out.insert(p, (key, c));
        proof {
            let after = counts_v(out@);
            assert(after =~= before.insert(p as int, item));
            assert forall|a: int| p <= a < before.len() implies seq_lt(key@, #[trigger] before[a].0) by {
                lemma_lt_total(before[p as int].0, key@);
                if a > p {
                    lemma_lt_transitive(key@, before[p as int].0, before[a].0);
                }
            }
            assert forall|a: int, b: int| 0 <= a < b < after.len() implies seq_lt(
                #[trigger] after[a].0,
                #[trigger] after[b].0,
            ) by {
                if b < p {
                    assert(seq_lt(before[a].0, before[b].0));
                } else if b == p {
                    assert(seq_lt(before[a].0, key@));
                } else if a < p {
                    assert(seq_lt(before[a].0, key@));
                    assert(seq_lt(key@, before[b - 1].0));
                    lemma_lt_transitive(before[a].0, key@, before[b - 1].0);
                } else if a == p {
                    assert(seq_lt(key@, before[b - 1].0));
                } else {
                    assert(seq_lt(before[a - 1].0, before[b - 1].0));
                }
            }
            let nt = cv.take(i + 1);
            let pt = cv.take(i as int);
            assert(nt =~= pt.push(item));
            assert forall|q: (Seq<char>, int)| after.contains(q) <==> nt.contains(q) by {
                if after.contains(q) {
                    let m = choose|m: int| 0 <= m < after.len() && after[m] == q;
                    if m < p {
                        assert(before[m] == q);
                        assert(before.contains(q));
                    } else if m > p {
                        assert(before[m - 1] == q);
                        assert(before.contains(q));
                    }
                    if q != item {
                        let w = choose|w: int| 0 <= w < pt.len() && pt[w] == q;
                        assert(nt[w] == q);
                    } else {
                        assert(nt[i as int] == q);
                    }
                }
                if nt.contains(q) {
                    let w = choose|w: int| 0 <= w < nt.len() && nt[w] == q;
                    if w < i {
                        assert(pt[w] == q);
                        assert(pt.contains(q));
                        assert(before.contains(q));
                        let m = choose|m: int| 0 <= m < before.len() && before[m] == q;
                        if m < p {
                            assert(after[m] == q);
                        } else {
                            assert(after[m + 1] == q);
                        }
                    } else {
                        assert(after[p as int] == q);
                    }
                }
            }
        }
        i = i + 1;
    }
    assert(cv.take(v.len() as int) =~= cv);
    out
}

/// Counts each distinct key, in order of first appearance.
fn tally(keys: &Vec<String>) -> (res: Vec<(String, usize)>)
    ensures
        tallies(strings_v(keys@), counts_v(res@)),
{
    let ghost kv = strings_v(keys@);
    let mut res: Vec<(String, usize)> = Vec::new();
    let mut i: usize = 0;
    while i < keys.len()
        invariant
            i <= keys.len(),
            kv == strings_v(keys@),
            tallies(kv.take(i as int), counts_v(res@)),
            forall|j: int| 0 <= j < res@.len() ==> res@[j].1 <= i,
        decreases keys.len() - i,
    {
        let key = &keys[i];
        assert(kv[i as int] == key@);
        let ghost prev = kv.take(i as int);
        let ghost next_keys = kv.take(i + 1);
        proof {
            lemma_take_push(kv, i as int);
            assert forall|k: Seq<char>| occurrences(next_keys, k) == occurrences(prev, k) + (if k == key@ { 1int } else { 0int }) by {
                reveal_with_fuel(Seq::filter, 1);
                assert(next_keys.drop_last() =~= prev);
            }
        }
        let mut j: usize = 0;
        let mut found = false;
        while j < res.len() && !found
            invariant
                j <= res.len(),
                found ==> j < res.len() && counts_v(res@)[j as int].0 == key@,
                !found ==> forall|m: int| 0 <= m < j ==> counts_v(res@)[m].0 != key@,
            decreases res.len() - j + (if found { 0int } else { 1int }),
        {
            if res[j].0 == *key {
                found = true;
            } else {
                j = j + 1;
            }
        }
        let ghost before = counts_v(res@);
        if found && j < res.len() {
            let c = res[j].1;
            let name = res[j].0.clone();
            assert(before[j as int].0 == key@);
            res.set(j, (name, c + 1));
            proof {
                assert(counts_v(res@) =~= before.update(j as int, (key@, before[j as int].1 + 1)));
                assert forall|k: Seq<char>| next_keys.contains(k) <==> exists|m: int| 0 <= m < counts_v(res@).len() && #[trigger] counts_v(res@)[m].0 == k by {
                    if next_keys.contains(k) {
                        let q = choose|q: int| 0 <= q < next_keys.len() && next_keys[q] == k;
                        if q < i {
                            assert(prev[q] == k);
                            assert(prev.contains(k));
                            let m = choose|m: int| 0 <= m < before.len() && #[trigger] before[m].0 == k;
                            assert(counts_v(res@)[m].0 == k);
                        } else {
                            assert(counts_v(res@)[j as int].0 == k);
                        }
                    }
                    if exists|m: int| 0 <= m < counts_v(res@).len() && #[trigger] counts_v(res@)[m].0 == k {
                        let m = choose|m: int| 0 <= m < counts_v(res@).len() && #[trigger] counts_v(res@)[m].0 == k;
                        assert(before[m].0 == k);
                        assert(prev.contains(k));
                        let q = choose|q: int| 0 <= q < prev.len() && prev[q] == k;
                        assert(next_keys[q] == k);
                    }
                }
            }
        } else {
            res.push((key.clone(), 1));
            proof {
                assert(counts_v(res@) =~= before.push((key@, 1int)));
                assert(!prev.contains(key@)) by {
                    if prev.contains(key@) {
                        let m = choose|m: int| 0 <= m < before.len() && #[trigger] before[m].0 == key@;
                        assert(counts_v(res@)[m].0 == key@);
                    }
                }
                assert(occurrences(prev, key@) == 0) by {
                    broadcast use vstd::seq_lib::group_filter_ensures;
                    let fl = prev.filter(|x: Seq<char>| x == key@);
                    if fl.len() > 0 {
                        assert(fl.contains(fl[0]));
                        prev.lemma_filter_contains_rev(|x: Seq<char>| x == key@, fl[0]);
                        assert(fl[0] == key@);
                    }
                }
                assert forall|k: Seq<char>| next_keys.contains(k) <==> exists|m: int| 0 <= m < counts_v(res@).len() && #[trigger] counts_v(res@)[m].0 == k by {
                    if next_keys.contains(k) {
                        let q = choose|q: int| 0 <= q < next_keys.len() && next_keys[q] == k;
                        if q < i {
                            assert(prev[q] == k);
                            assert(prev.contains(k));
                            let m = choose|m: int| 0 <= m < before.len() && #[trigger] before[m].0 == k;
                            assert(counts_v(res@)[m].0 == k);
                        } else {
                            assert(counts_v(res@)[before.len() as int].0 == k);
                        }
                    }
                    if exists|m: int| 0 <= m < counts_v(res@).len() && #[trigger] counts_v(res@)[m].0 == k {
                        let m = choose|m: int| 0 <= m < counts_v(res@).len() && #[trigger] counts_v(res@)[m].0 == k;
                        if m < before.len() {
                            assert(before[m].0 == k);
                            assert(prev.contains(k));
                            let q = choose|q: int| 0 <= q < prev.len() && prev[q] == k;
                            assert(next_keys[q] == k);
                        } else {
                            assert(next_keys[i as int] == k);
                        }
                    }
                }
            }
        }
        i = i + 1;
    }
    proof {
        assert(kv.take(kv.len() as int) =~= kv);
    }
    res
}

/// Counts each distinct key; the counts come ordered by key.
pub fn count_keys(keys: &Vec<String>) -> (res: Vec<(String, usize)>)
    ensures
        is_key_count(strings_v(keys@), counts_v(res@)),
{
    let t = tally(keys);
    let res = sort_counts(&t);
    proof {
        let kv = strings_v(keys@);
        let tv = counts_v(t@);
        let rv = counts_v(res@);
        assert forall|i: int, j: int| 0 <= i < rv.len() && 0 <= j < rv.len() && i != j implies rv[i].0
            != rv[j].0 by {
            if i < j {
                assert(seq_lt(rv[i].0, rv[j].0));
            } else {
                assert(seq_lt(rv[j].0, rv[i].0));
            }
            lemma_lt_irreflexive(rv[i].0);
        }
        assert forall|k: Seq<char>| kv.contains(k) <==> exists|i: int| 0 <= i < rv.len() && #[trigger] rv[i].0 == k by {
            if kv.contains(k) {
                let m = choose|m: int| 0 <= m < tv.len() && #[trigger] tv[m].0 == k;
                assert(tv.contains(tv[m]));
                assert(rv.contains(tv[m]));
                let w = choose|w: int| 0 <= w < rv.len() && rv[w] == tv[m];
                assert(rv[w].0 == k);
            }
            if exists|i: int| 0 <= i < rv.len() && #[trigger] rv[i].0 == k {
                let w = choose|w: int| 0 <= w < rv.len() && #[trigger] rv[w].0 == k;
                assert(rv.contains(rv[w]));
                assert(tv.contains(rv[w]));
                let m = choose|m: int| 0 <= m < tv.len() && tv[m] == rv[w];
                assert(tv[m].0 == k);
            }
        }
        assert forall|i: int| 0 <= i < rv.len() implies #[trigger] rv[i].1 == occurrences(kv, rv[i].0) by {
            assert(rv.contains(rv[i]));
            assert(tv.contains(rv[i]));
            let m = choose|m: int| 0 <= m < tv.len() && tv[m] == rv[i];
            assert(tv[m].1 == occurrences(kv, tv[m].0));
        }
    }
    res
}

impl Query {
    /// For each node type present, the number of nodes of that type.
    pub fn count_nodes_by_type(store: &Store) -> (res: Vec<(String, usize)>)
        ensures
            is_key_count(store.node_rows().map_values(|r: NodeV| r.1), counts_v(res@)),
    {
        let rows = store.node_row_vec();
        let mut keys: Vec<String> = Vec::new();
        let mut i: usize = 0;
        while i < rows.len()
            invariant
                i <= rows.len(),
                node_rows_v(rows@) == store.node_rows(),
                strings_v(keys@) == store.node_rows().take(i as int).map_values(|r: NodeV| r.1),
            decreases rows.len() - i,
        {
            let ghost before = keys@;
            keys.push(rows[i].node_type.clone());
            proof {
                lemma_take_push(store.node_rows(), i as int);
                lemma_map_push(store.node_rows().take(i as int), rows@[i as int]@, |r: NodeV| r.1);
                assert(strings_v(keys@) =~= strings_v(before).push(rows@[i as int].node_type@));
            }
            i = i + 1;
        }
        proof {
            assert(store.node_rows().take(store.node_rows().len() as int) =~= store.node_rows());
        }
        count_keys(&keys)
    }

    /// For each edge type present, the number of edges of that type.
    pub fn count_edges_by_type(store: &Store) -> (res: Vec<(String, usize)>)
        ensures
            is_key_count(store.edge_rows().map_values(|e: EdgeV| e.2), counts_v(res@)),
    {
        let rows = store.edge_row_vec();
        let mut keys: Vec<String> = Vec::new();
        let mut i: usize = 0;
        while i < rows.len()
            invariant
                i <= rows.len(),
                edge_rows_v(rows@) == store.edge_rows(),
                strings_v(keys@) == store.edge_rows().take(i as int).map_values(|e: EdgeV| e.2),
            decreases rows.len() - i,
        {
            let ghost before = keys@;
            keys.push(rows[i].edge_type.clone());
            proof {
                lemma_take_push(store.edge_rows(), i as int);
                lemma_map_push(store.edge_rows().take(i as int), rows@[i as int]@, |e: EdgeV| e.2);
                assert(strings_v(keys@) =~= strings_v(before).push(rows@[i as int].edge_type@));
            }
            i = i + 1;
        }
        proof {
            assert(store.edge_rows().take(store.edge_rows().len() as int) =~= store.edge_rows());
        }
        count_keys(&keys)
    }

    /// The stored dead function ids that are nodes, with their type and payload, in the order
    /// in which they were recorded.
    pub fn stored_dead_functions_with_payload(store: &Store) -> (res: Vec<NodeRow>)
        requires
            store.wf(),
        ensures
            node_rows_v(res@) == store.dead_rows().filter(
                |d: Seq<char>| store.node_map().contains_key(d),
            ).map_values(|d: Seq<char>| (d, store.node_map()[d].0, store.node_map()[d].1)),
    {
        let dead = store.dead_vec();
        let nodes = store.node_row_vec();
        let ghost dv = store.dead_rows();
        let ghost pred = |d: Seq<char>| store.node_map().contains_key(d);
        let ghost f = |d: Seq<char>| (d, store.node_map()[d].0, store.node_map()[d].1);
        let mut res: Vec<NodeRow> = Vec::new();
        let mut i: usize = 0;
        proof {
            lemma_filter_ends(dv, pred);
        }
        while i < dead.len()
            invariant
                i <= dead.len(),
                store.wf(),
                dv == store.dead_rows(),
                dv == strings_v(dead@),
                node_rows_v(nodes@) == store.node_rows(),
                pred == (|d: Seq<char>| store.node_map().contains_key(d)),
                f == (|d: Seq<char>| (d, store.node_map()[d].0, store.node_map()[d].1)),
                node_rows_v(res@) == dv.take(i as int).filter(pred).map_values(f),
            decreases dead.len() - i,
        {
            proof {
                lemma_filter_step(dv, i as int, pred);
                assert(dv[i as int] == dead@[i as int]@);
            }
            match find_node(store, dead[i].as_str()) {
                Some(k) => {
                    let n = nodes[k].clone();
                    assert(store.node_rows()[k as int] == nodes@[k as int]@);
                    let ghost before = res@;
                    res.push(n);
                    proof {
                        lemma_map_push(dv.take(i as int).filter(pred), dv[i as int], f);
                        assert(node_rows_v(res@) =~= node_rows_v(before).push(n@));
                    }
                },
                None => {},
            }
            i = i + 1;
        }
        proof {
            lemma_filter_ends(dv, pred);
        }
        res
    }
}

/// An entry point (a function named `main`, or whose payload marks it public, a test or a
/// benchmark) is never reported dead.
pub proof fn law_entry_points_are_live(store: Store, i: int)
    requires
        0 <= i < store.node_rows().len(),
        store.node_rows()[i].1 == "function"@,
        is_entry_payload(store.node_rows()[i].2),
    ensures
        !is_dead_function(store, store.node_rows()[i]),
{
    let nodes = store.node_rows();
    let r = nodes[i];
    let pred = |r: NodeV| r.1 == "function"@ && is_entry_payload(r.2);
    nodes.lemma_filter_contains(pred, i);
    let f = nodes.filter(pred);
    let k = choose|k: int| 0 <= k < f.len() && f[k] == r;
    assert(entry_ids(nodes)[k] == r.0);
    assert(entry_ids(nodes).to_set().contains(r.0));
    crate::graph::reach::lemma_start_reachable(
        liveness_steps(store.edge_rows()),
        entry_ids(nodes).to_set(),
        r.0,
    );
}

/// A caller found within some depth is found within every larger depth.
pub proof fn law_callers_grow_with_depth(store: Store, target: Seq<char>, d1: int, d2: int, x: Seq<char>)
    requires
        d1 <= d2,
        is_caller_of(store, target, d1, x),
    ensures
        is_caller_of(store, target, d2, x),
{
    let n1 = if d1 < 1 {
        1
    } else {
        d1
    };
    let n2 = if d2 < 1 {
        1
    } else {
        d2
    };
    lemma_within_mono(caller_steps(store), target, x, n1, n2);
}

/// One more level of depth only appends: the callers listed for depth `d` come first, in the
/// same order, among those listed for depth `d + 1`.
pub proof fn law_callers_prefix(store: Store, target: Seq<char>, d: int)
    ensures
        callers_ids(store, target, d).len() <= callers_ids(store, target, d + 1).len(),
        callers_ids(store, target, d + 1).take(callers_ids(store, target, d).len() as int)
            == callers_ids(store, target, d),
{
    let sv = caller_steps(store);
    let a = callers_ids(store, target, d);
    let b = callers_ids(store, target, d + 1);
    if d < 1 {
        assert(b =~= a);
    } else {
        lemma_rounds_grow(sv, target, d as nat);
        let ra = caller_rounds(sv, target, d as nat).0;
        let rb = caller_rounds(sv, target, (d + 1) as nat).0;
        assert(rb.take(ra.len() as int) == ra);
        assert forall|k: int| 0 <= k < a.len() implies b[k] == a[k] by {
            assert(rb.take(ra.len() as int)[k + 1] == ra[k + 1]);
        }
        assert(b.take(a.len() as int) =~= a);
    }
}

/// A node is never in its own blast radius, and every node in it is a stored node.
pub proof fn law_blast_radius_excludes_source(store: Store, from: Seq<char>, k: int)
    requires
        0 <= k < first_n(
            store.node_rows().filter(|r: NodeV| in_blast_radius(store, from, r)),
            BLAST_RADIUS_LIMIT as int,
        ).len(),
    ensures
        first_n(
            store.node_rows().filter(|r: NodeV| in_blast_radius(store, from, r)),
            BLAST_RADIUS_LIMIT as int,
        )[k].0 != from,
        store.node_rows().contains(
            first_n(
                store.node_rows().filter(|r: NodeV| in_blast_radius(store, from, r)),
                BLAST_RADIUS_LIMIT as int,
            )[k],
        ),
{
    let pred = |r: NodeV| in_blast_radius(store, from, r);
    let f = store.node_rows().filter(pred);
    store.node_rows().lemma_filter_pred(pred, k);
    assert(first_n(f, BLAST_RADIUS_LIMIT as int)[k] == f[k]);
    assert(f.contains(f[k]));
    store.node_rows().lemma_filter_contains_rev(pred, f[k]);
}

/// A stored edge of one of `types` gives a step from its source to its target.
pub proof fn lemma_edge_gives_step(edges: Seq<EdgeV>, types: Set<Seq<char>>, e: EdgeV)
    requires
        edges.contains(e),
        types.contains(e.2),
    ensures
        edge_steps(edges, types).contains((e.0, e.1)),
{
    let pred = |x: EdgeV| types.contains(x.2);
    let f = |x: EdgeV| (x.0, x.1);
    let i = choose|i: int| 0 <= i < edges.len() && edges[i] == e;
    edges.lemma_filter_contains(pred, i);
    let fl = edges.filter(pred);
    let k = choose|k: int| 0 <= k < fl.len() && fl[k] == e;
    assert(fl.map_values(f)[k] == (e.0, e.1));
}

/// A step comes from a stored edge of one of `types`.
pub proof fn lemma_step_from_edge(edges: Seq<EdgeV>, types: Set<Seq<char>>, a: Seq<char>, b: Seq<char>)
    requires
        edge_steps(edges, types).contains((a, b)),
    ensures
        exists|e: EdgeV| #[trigger] edges.contains(e) && e.0 == a && e.1 == b && types.contains(e.2),
{
    let pred = |x: EdgeV| types.contains(x.2);
    let f = |x: EdgeV| (x.0, x.1);
    let fl = edges.filter(pred);
    let k = choose|k: int| 0 <= k < fl.map_values(f).len() && fl.map_values(f)[k] == (a, b);
    edges.lemma_filter_pred(pred, k);
    assert(fl.contains(fl[k]));
    edges.lemma_filter_contains_rev(pred, fl[k]);
    assert(edges.contains(fl[k]));
}

/// What a target of a step out of `x` is: a seed of the blast radius.
proof fn lemma_in_filter_map(steps: Steps, x: (Seq<char>, Seq<char>), forward: bool)
    requires
        steps.contains(x),
    ensures
        forward ==> step_targets(steps, x.0).contains(x.1),
        !forward ==> step_sources(steps, x.1).contains(x.0),
{
    let i = choose|i: int| 0 <= i < steps.len() && steps[i] == x;
    if forward {
        let pred = |p: (Seq<char>, Seq<char>)| p.0 == x.0;
        steps.lemma_filter_contains(pred, i);
        let fl = steps.filter(pred);
        let k = choose|k: int| 0 <= k < fl.len() && fl[k] == x;
        assert(fl.map_values(|p: (Seq<char>, Seq<char>)| p.1)[k] == x.1);
    } else {
        let pred = |p: (Seq<char>, Seq<char>)| p.1 == x.1;
        steps.lemma_filter_contains(pred, i);
        let fl = steps.filter(pred);
        let k = choose|k: int| 0 <= k < fl.len() && fl[k] == x;
        assert(fl.map_values(|p: (Seq<char>, Seq<char>)| p.0)[k] == x.0);
    }
}

/// An end of a step touching `at` comes from a step.
proof fn lemma_step_of_end(steps: Steps, at: Seq<char>, x: Seq<char>, forward: bool)
    requires
        forward ==> step_targets(steps, at).contains(x),
        !forward ==> step_sources(steps, at).contains(x),
    ensures
        forward ==> steps.contains((at, x)),
        !forward ==> steps.contains((x, at)),
    decreases steps.len(),
{
    reveal_with_fuel(Seq::filter, 1);
    if steps.len() > 0 {
        let d = steps.drop_last();
        let l = steps.last();
        assert(steps =~= d.push(l));
        if forward {
            let t = step_targets(steps, at);
            let td = step_targets(d, at);
            if l.0 == at {
                assert(t =~= td.push(l.1));
            } else {
                assert(t =~= td);
            }
            if x == l.1 && l.0 == at {
                assert(steps[steps.len() - 1] == (at, x));
            } else {
                let k = choose|k: int| 0 <= k < t.len() && t[k] == x;
                assert(td[k] == x);
                lemma_step_of_end(d, at, x, forward);
                let q = choose|q: int| 0 <= q < d.len() && d[q] == (at, x);
                assert(steps[q] == (at, x));
            }
        } else {
            let t = step_sources(steps, at);
            let td = step_sources(d, at);
            if l.1 == at {
                assert(t =~= td.push(l.0));
            } else {
                assert(t =~= td);
            }
            if x == l.0 && l.1 == at {
                assert(steps[steps.len() - 1] == (x, at));
            } else {
                let k = choose|k: int| 0 <= k < t.len() && t[k] == x;
                assert(td[k] == x);
                lemma_step_of_end(d, at, x, forward);
                let q = choose|q: int| 0 <= q < d.len() && d[q] == (x, at);
                assert(steps[q] == (x, at));
            }
        }
    }
}

/// The blast radius follows `calls`, `contains`, `references` and `changes_with` edges: a node
/// joined to `from` by such an edge, in either direction, is in the radius of `from`, and so is
/// every node that such an edge leads to from a node in the radius (unless it is `from`).
pub proof fn law_blast_radius_follows_edges(store: Store, from: Seq<char>, y: NodeV, r: NodeV, t: Seq<char>)
    requires
        t == "calls"@ || t == "contains"@ || t == "references"@ || t == "changes_with"@,
        r.0 != from,
    ensures
        store.edge_set().contains((from, r.0, t)) ==> in_blast_radius(store, from, r),
        store.edge_set().contains((r.0, from, t)) ==> in_blast_radius(store, from, r),
        in_blast_radius(store, from, y) && store.edge_set().contains((y.0, r.0, t)) ==> in_blast_radius(
            store,
            from,
            r,
        ),
{
    let steps = blast_steps(store);
    let edges = store.edge_rows();
    assert(blast_types().contains(t)) by {
        let l = seq!["calls"@, "contains"@, "references"@, "changes_with"@];
        if t == "calls"@ {
            assert(l[0] == t);
        } else if t == "contains"@ {
            assert(l[1] == t);
        } else if t == "references"@ {
            assert(l[2] == t);
        } else {
            assert(l[3] == t);
        }
    }
    if store.edge_set().contains((from, r.0, t)) {
        lemma_edge_gives_step(edges, blast_types(), (from, r.0, t));
        lemma_in_filter_map(steps, (from, r.0), true);
        let a = step_targets(steps, from);
        let b = step_sources(steps, from);
        let j = choose|j: int| 0 <= j < a.len() && a[j] == r.0;
        assert((a + b)[j] == r.0);
        assert((a + b).contains(r.0));
        let w = seq![r.0];
        assert(is_walk(steps, w) && blast_seed(store, from).contains(w[0]) && w.last() == r.0);
    }
    if store.edge_set().contains((r.0, from, t)) {
        lemma_edge_gives_step(edges, blast_types(), (r.0, from, t));
        lemma_in_filter_map(steps, (r.0, from), false);
        let a = step_targets(steps, from);
        let b = step_sources(steps, from);
        let j = choose|j: int| 0 <= j < b.len() && b[j] == r.0;
        assert((a + b)[a.len() + j] == r.0);
        assert((a + b).contains(r.0));
        let w = seq![r.0];
        assert(is_walk(steps, w) && blast_seed(store, from).contains(w[0]) && w.last() == r.0);
    }
    if in_blast_radius(store, from, y) && store.edge_set().contains((y.0, r.0, t)) {
        lemma_edge_gives_step(edges, blast_types(), (y.0, r.0, t));
        let w = choose|w: Seq<Seq<char>>| is_walk(steps, w) && blast_seed(store, from).contains(w[0]) && w.last() == y.0;
        let w2 = w.push(r.0);
        assert forall|k: int| 0 <= k < w2.len() - 1 implies #[trigger] steps.contains((w2[k], w2[k + 1])) by {
            if k < w.len() - 1 {
                assert(steps.contains((w[k], w[k + 1])));
            }
        }
        assert(is_walk(steps, w2) && blast_seed(store, from).contains(w2[0]) && w2.last() == r.0);
    }
}

/// Only `main` itself and the `pub::`, `test::` and `bench::` prefixes mark entry points: a
/// stored function whose payload is none of these, and that no `calls` or `references` edge
/// enters, is dead.
pub proof fn law_unmarked_unreached_function_is_dead(store: Store, r: NodeV, p: Seq<char>)
    requires
        store.wf(),
        store.node_rows().contains(r),
        r.1 == "function"@,
        r.2 == Some(p),
        p != "main"@,
        !has_prefix(p, "pub::"@),
        !has_prefix(p, "test::"@),
        !has_prefix(p, "bench::"@),
        forall|y: Seq<char>| !store.edge_set().contains((y, r.0, "calls"@)) && !store.edge_set().contains(
            (y, r.0, "references"@),
        ),
    ensures
        is_dead_function(store, r),
        dead_function_rows(store).contains(r),
{
    let steps = liveness_steps(store.edge_rows());
    let types = seq!["calls"@, "references"@].to_set();
    let nodes = store.node_rows();
    let entries = entry_ids(nodes).to_set();
    if reachable(steps, entries, r.0) {
        let w = choose|w: Seq<Seq<char>>| is_walk(steps, w) && entries.contains(w[0]) && w.last() == r.0;
        if w.len() == 1 {
            let epred = |x: NodeV| x.1 == "function"@ && is_entry_payload(x.2);
            let ef = nodes.filter(epred);
            let ids = ef.map_values(|x: NodeV| x.0);
            assert(entries.contains(r.0));
            let k = choose|k: int| 0 <= k < ids.len() && #[trigger] ids[k] == r.0;
            assert(ef[k].0 == r.0);
            nodes.lemma_filter_pred(epred, k);
            assert(ef.contains(ef[k]));
            nodes.lemma_filter_contains_rev(epred, ef[k]);
            let a = choose|a: int| 0 <= a < nodes.len() && nodes[a] == ef[k];
            let b = choose|b: int| 0 <= b < nodes.len() && nodes[b] == r;
            assert(nodes[a].0 == nodes[b].0);
            assert(a == b);
            assert(is_entry_payload(r.2));
        } else {
            let n = w.len() - 2;
            assert(steps.contains((w[n], w[n + 1])));
            lemma_step_from_edge(store.edge_rows(), types, w[n], r.0);
            let e = choose|e: EdgeV| #[trigger] store.edge_rows().contains(e) && e.0 == w[n] && e.1 == r.0
                && types.contains(e.2);
            assert(types.contains(e.2));
            assert(e.2 == "calls"@ || e.2 == "references"@) by {
                let l = seq!["calls"@, "references"@];
                assert(l.to_set().contains(e.2));
                let q = choose|q: int| 0 <= q < l.len() && l[q] == e.2;
            }
            assert(store.edge_set().contains(e));
            assert(e == (w[n], r.0, e.2));
        }
    }
    let pred = |x: NodeV| is_dead_function(store, x);
    let i = choose|i: int| 0 <= i < nodes.len() && nodes[i] == r;
    nodes.lemma_filter_contains(pred, i);
}

/// A function whose payload is `main`, or starts with `pub::`, `test::` or `bench::`, is never
/// reported dead.
pub proof fn law_marked_functions_are_live(store: Store, i: int, p: Seq<char>)
    requires
        0 <= i < store.node_rows().len(),
        store.node_rows()[i].1 == "function"@,
        store.node_rows()[i].2 == Some(p),
        p == "main"@ || has_prefix(p, "pub::"@) || has_prefix(p, "test::"@) || has_prefix(p, "bench::"@),
    ensures
        !is_dead_function(store, store.node_rows()[i]),
{
    law_entry_points_are_live(store, i);
}

/// Liveness spreads along `calls` and `references` edges: what a live function calls or
/// references is live.
pub proof fn law_live_spreads_along_calls(store: Store, y: NodeV, r: NodeV, t: Seq<char>)
    requires
        y.1 == "function"@,
        !is_dead_function(store, y),
        t == "calls"@ || t == "references"@,
        store.edge_set().contains((y.0, r.0, t)),
    ensures
        !is_dead_function(store, r),
{
    let steps = liveness_steps(store.edge_rows());
    let starts = entry_ids(store.node_rows()).to_set();
    let types = seq!["calls"@, "references"@].to_set();
    assert(types.contains(t)) by {
        let l = seq!["calls"@, "references"@];
        if t == "calls"@ {
            assert(l[0] == t);
        } else {
            assert(l[1] == t);
        }
    }
    lemma_edge_gives_step(store.edge_rows(), types, (y.0, r.0, t));
    let w = choose|w: Seq<Seq<char>>| is_walk(steps, w) && starts.contains(w[0]) && w.last() == y.0;
    let w2 = w.push(r.0);
    assert forall|k: int| 0 <= k < w2.len() - 1 implies #[trigger] steps.contains((w2[k], w2[k + 1])) by {
        if k < w.len() - 1 {
            assert(steps.contains((w[k], w[k + 1])));
        }
    }
    assert(is_walk(steps, w2) && starts.contains(w2[0]) && w2.last() == r.0);
}

/// The radius follows nothing else: each node in the radius of `from` is entered by a `calls`,
/// `contains`, `references` or `changes_with` edge, or is the source of such an edge into
/// `from`.
pub proof fn law_blast_radius_only_follows_its_edges(store: Store, from: Seq<char>, r: NodeV)
    requires
        in_blast_radius(store, from, r),
    ensures
        exists|e: EdgeV|
            #[trigger] store.edge_set().contains(e) && (e.2 == "calls"@ || e.2 == "contains"@ || e.2
                == "references"@ || e.2 == "changes_with"@) && (e.1 == r.0 || (e.0 == r.0 && e.1 == from)),
{
    let steps = blast_steps(store);
    let edges = store.edge_rows();
    let l = seq!["calls"@, "contains"@, "references"@, "changes_with"@];
    let w = choose|w: Seq<Seq<char>>| is_walk(steps, w) && blast_seed(store, from).contains(w[0]) && w.last() == r.0;
    let (a, b) = if w.len() > 1 {
        let n = w.len() - 2;
        assert(steps.contains((w[n], w[n + 1])));
        (w[n], r.0)
    } else {
        let ta = step_targets(steps, from);
        let sb = step_sources(steps, from);
        assert((ta + sb).contains(r.0));
        let j = choose|j: int| 0 <= j < (ta + sb).len() && (ta + sb)[j] == r.0;
        if j < ta.len() {
            assert(ta[j] == r.0);
            lemma_step_of_end(steps, from, r.0, true);
            (from, r.0)
        } else {
            assert(sb[j - ta.len()] == r.0);
            lemma_step_of_end(steps, from, r.0, false);
            (r.0, from)
        }
    };
    assert(steps.contains((a, b)));
    lemma_step_from_edge(edges, blast_types(), a, b);
    let e = choose|e: EdgeV| #[trigger] edges.contains(e) && e.0 == a && e.1 == b && blast_types().contains(e.2);
    let q = choose|q: int| 0 <= q < l.len() && l[q] == e.2;
    assert(store.edge_set().contains(e));
}

} // verus!
