//! The graph store: the `nodes`, `edges` and `dead_functions` relations.
//!
//! `nodes` is keyed by id (a second put of an id replaces its type and payload); `edges` and
//! `dead_functions` are sets of rows.

use vstd::prelude::*;

use crate::graph::order::{
    edge_before, edge_lt, lemma_edge_order, lemma_lt_irreflexive, lemma_lt_total,
    lemma_lt_transitive, seq_lt, str_lt,
};
use crate::graph::schema::{EdgeType, NodeId, NodeType};
use crate::text::str_eq;

verus! {

/// A row of the `nodes` relation: id, type name, optional payload.
#[derive(Debug)]
pub struct NodeRow {
    pub id: String,
    pub node_type: String,
    pub payload: Option<String>,
}

/// A row of the `edges` relation: source id, target id, edge type name.
#[derive(Debug)]
pub struct EdgeRow {
    pub from_id: String,
    pub to_id: String,
    pub edge_type: String,
}

/// Abstract node row: (id, type, payload).
pub type NodeV = (Seq<char>, Seq<char>, Option<Seq<char>>);

/// Abstract edge row: (from, to, type).
pub type EdgeV = (Seq<char>, Seq<char>, Seq<char>);

/// The characters of an optional string.
pub open spec fn opt_chars(p: Option<String>) -> Option<Seq<char>> {
    match p {
        Some(s) => Some(s@),
        None => None,
    }
}

impl View for NodeRow {
    type V = NodeV;

    open spec fn view(&self) -> NodeV {
        (self.id@, self.node_type@, opt_chars(self.payload))
    }
}

impl View for EdgeRow {
    type V = EdgeV;

    open spec fn view(&self) -> EdgeV {
        (self.from_id@, self.to_id@, self.edge_type@)
    }
}

/// A copy of an optional string.
pub fn clone_opt(p: &Option<String>) -> (res: Option<String>)
    ensures
        opt_chars(res) == opt_chars(*p),
{
    match p {
        Some(s) => Some(s.clone()),
        None => None,
    }
}

impl Clone for NodeRow {
    fn clone(&self) -> (res: Self)
        ensures
            res@ == self@,
    {
        NodeRow { id: self.id.clone(), node_type: self.node_type.clone(), payload: clone_opt(&self.payload) }
    }
}

impl Clone for EdgeRow {
    fn clone(&self) -> (res: Self)
        ensures
            res@ == self@,
    {
        EdgeRow {
            from_id: self.from_id.clone(),
            to_id: self.to_id.clone(),
            edge_type: self.edge_type.clone(),
        }
    }
}

/// The abstract rows of a vector of node rows.
pub open spec fn node_rows_v(v: Seq<NodeRow>) -> Seq<NodeV> {
    v.map_values(|r: NodeRow| r@)
}

/// The abstract rows of a vector of edge rows.
pub open spec fn edge_rows_v(v: Seq<EdgeRow>) -> Seq<EdgeV> {
    v.map_values(|r: EdgeRow| r@)
}

/// The characters of each string.
pub open spec fn strings_v(v: Seq<String>) -> Seq<Seq<char>> {
    v.map_values(|s: String| s@)
}

/// No two rows share an id.
pub open spec fn ids_distinct(rows: Seq<NodeV>) -> bool {
    forall|i: int, j: int| 0 <= i < rows.len() && 0 <= j < rows.len() && i != j ==> rows[i].0 != rows[j].0
}

/// The rows are ordered by id, strictly.
pub open spec fn ids_sorted(rows: Seq<NodeV>) -> bool {
    forall|i: int, j: int| 0 <= i < j < rows.len() ==> seq_lt(#[trigger] rows[i].0, #[trigger] rows[j].0)
}

/// The edges are ordered by source, target and type, strictly.
pub open spec fn edges_sorted(rows: Seq<EdgeV>) -> bool {
    forall|i: int, j: int| 0 <= i < j < rows.len() ==> edge_lt(#[trigger] rows[i], #[trigger] rows[j])
}

/// The strings are ordered, strictly.
pub open spec fn strs_sorted(s: Seq<Seq<char>>) -> bool {
    forall|i: int, j: int| 0 <= i < j < s.len() ==> seq_lt(#[trigger] s[i], #[trigger] s[j])
}

/// No value occurs twice.
pub open spec fn no_dups<T>(s: Seq<T>) -> bool {
    forall|i: int, j: int| 0 <= i < s.len() && 0 <= j < s.len() && i != j ==> s[i] != s[j]
}

/// The graph store.
pub struct Store {
    nodes: Vec<NodeRow>,
    edges: Vec<EdgeRow>,
    dead: Vec<String>,
}

impl Store {
    /// The node rows, one per id.
    pub closed spec fn node_rows(&self) -> Seq<NodeV> {
        node_rows_v(self.nodes@)
    }

    /// The edge rows, without repeats.
    pub closed spec fn edge_rows(&self) -> Seq<EdgeV> {
        edge_rows_v(self.edges@)
    }

    /// The recorded dead function ids, without repeats.
    pub closed spec fn dead_rows(&self) -> Seq<Seq<char>> {
        strings_v(self.dead@)
    }

    /// The relations keep their keys, in order: one node row per id, no repeated edge or dead
    /// id; node rows ordered by id, edges by source, target and type, dead ids by id.
    pub open spec fn wf(&self) -> bool {
        &&& ids_distinct(self.node_rows())
        &&& no_dups(self.edge_rows())
        &&& no_dups(self.dead_rows())
        &&& ids_sorted(self.node_rows())
        &&& edges_sorted(self.edge_rows())
        &&& strs_sorted(self.dead_rows())
    }

    /// The node relation as a map from id to (type, payload).
    pub open spec fn node_map(&self) -> Map<Seq<char>, (Seq<char>, Option<Seq<char>>)> {
        rows_map(self.node_rows())
    }

    /// The edge relation as a set.
    pub open spec fn edge_set(&self) -> Set<EdgeV> {
        self.edge_rows().to_set()
    }

    /// The dead-function relation as a set.
    pub open spec fn dead_set(&self) -> Set<Seq<char>> {
        self.dead_rows().to_set()
    }

    /// Create a new, empty in-memory store.
    pub fn new_memory() -> (res: Store)
        ensures
            res.wf(),
            res.node_rows().len() == 0,
            res.edge_rows().len() == 0,
            res.dead_rows().len() == 0,
    {
        let s = Store { nodes: Vec::new(), edges: Vec::new(), dead: Vec::new() };
        assert(s.node_rows() =~= Seq::<NodeV>::empty());
        assert(s.edge_rows() =~= Seq::<EdgeV>::empty());
        assert(s.dead_rows() =~= Seq::<Seq<char>>::empty());
        s
    }

    /// The stored node rows.
    pub fn node_row_vec(&self) -> (res: &Vec<NodeRow>)
        ensures
            node_rows_v(res@) == self.node_rows(),
    {
        &self.nodes
    }

    /// The stored edge rows.
    pub fn edge_row_vec(&self) -> (res: &Vec<EdgeRow>)
        ensures
            edge_rows_v(res@) == self.edge_rows(),
    {
        &self.edges
    }

    /// The stored dead function ids.
    pub fn dead_vec(&self) -> (res: &Vec<String>)
        ensures
            strings_v(res@) == self.dead_rows(),
    {
        &self.dead
    }

    /// Insert a node row with a type given by name: a row with the same id is replaced. Rows
    /// stay ordered by id.
    pub fn put_node_row(&mut self, id: &str, node_type: &str, payload: Option<&str>)
        requires
            old(self).wf(),
        ensures
            final(self).wf(),
            final(self).node_map() == old(self).node_map().insert(
                id@,
                (node_type@, opt_chars_ref(payload)),
            ),
            final(self).edge_rows() == old(self).edge_rows(),
            final(self).dead_rows() == old(self).dead_rows(),
    {
        let row = NodeRow {
            id: id.to_owned(),
            node_type: node_type.to_owned(),
            payload: match payload {
                Some(p) => Some(p.to_owned()),
                None => None,
            },
        };
        let ghost old_rows = self.node_rows();
        let ghost new_row: NodeV = (id@, node_type@, opt_chars_ref(payload));
        assert(row@ == new_row);
        let mut k: usize = 0;
        while k < self.nodes.len() && str_lt(self.nodes[k].id.as_str(), id)
            invariant
                k <= self.nodes.len(),
                self.node_rows() == old_rows,
                old_rows == old(self).node_rows(),
                self.edge_rows() == old(self).edge_rows(),
                self.dead_rows() == old(self).dead_rows(),
                old(self).wf(),
                forall|i: int| 0 <= i < k ==> seq_lt(#[trigger] old_rows[i].0, id@),
            decreases self.nodes.len() - k,
        {
            assert(old_rows[k as int] == self.nodes@[k as int]@);
            k = k + 1;
        }
        proof {
            if k < self.nodes.len() {
                assert(old_rows[k as int] == self.nodes@[k as int]@);
            }
        }
        if k < self.nodes.len() && str_eq(self.nodes[k].id.as_str(), id) {
            let ghost before = self.node_rows();
            self.nodes.set(k, row);
            proof {
                let after = self.node_rows();
                assert(after =~= before.update(k as int, new_row));
                lemma_update_row_map(before, k as int, new_row);
                assert forall|a: int, b: int| 0 <= a < b < after.len() implies seq_lt(
                    #[trigger] after[a].0,
                    #[trigger] after[b].0,
                ) by {
                    assert(seq_lt(before[a].0, before[b].0));
                }
            }
        } else {
            let ghost before = self.node_rows();
            self.nodes.insert(k, row);
            proof {
                let after = self.node_rows();
                assert(after =~= before.insert(k as int, new_row));
                assert forall|i: int| k <= i < before.len() implies seq_lt(id@, #[trigger] before[i].0) by {
                    lemma_lt_total(before[k as int].0, id@);
                    if i > k {
                        lemma_lt_transitive(id@, before[k as int].0, before[i].0);
                    }
                }
                assert forall|i: int| 0 <= i < before.len() implies #[trigger] before[i].0 != id@ by {
                    lemma_lt_irreflexive(id@);
                }
                lemma_insert_row_map(before, k as int, new_row);
                assert forall|a: int, b: int| 0 <= a < b < after.len() implies seq_lt(
                    #[trigger] after[a].0,
                    #[trigger] after[b].0,
                ) by {
                    if b < k {
                        assert(seq_lt(before[a].0, before[b].0));
                    } else if b == k {
                        assert(seq_lt(before[a].0, id@));
                    } else if a < k {
                        assert(seq_lt(before[a].0, id@));
                        assert(seq_lt(id@, before[b - 1].0));
                        lemma_lt_transitive(before[a].0, id@, before[b - 1].0);
                    } else if a == k {
                        assert(seq_lt(id@, before[b - 1].0));
                    } else {
                        assert(seq_lt(before[a - 1].0, before[b - 1].0));
                    }
                }
            }
        }
    }

    /// Insert a node: a node with the same id is replaced.
    pub fn put_node(&mut self, id: &NodeId, node_type: &NodeType, payload: Option<&str>)
        requires
            old(self).wf(),
        ensures
            final(self).wf(),
            final(self).node_map() == old(self).node_map().insert(
                id@,
                (node_type.name(), opt_chars_ref(payload)),
            ),
            final(self).edge_rows() == old(self).edge_rows(),
            final(self).dead_rows() == old(self).dead_rows(),
    {
        self.put_node_row(id.as_str(), node_type.as_str(), payload);
    }

    /// Whether the edge row is stored.
    fn find_edge(&self, from: &str, to: &str, edge_type: &str) -> (res: Option<usize>)
        ensures
            match res {
                Some(i) => i < self.edge_rows().len() && self.edge_rows()[i as int] == (
                    from@,
                    to@,
                    edge_type@,
                ),
                None => !self.edge_rows().contains((from@, to@, edge_type@)),
            },
    {
        let mut i: usize = 0;
        while i < self.edges.len()
            invariant
                i <= self.edges.len(),
                forall|k: int| 0 <= k < i ==> self.edge_rows()[k] != (from@, to@, edge_type@),
            decreases self.edges.len() - i,
        {
            let e = &self.edges[i];
            if crate::text::str_eq(e.from_id.as_str(), from) && crate::text::str_eq(
                e.to_id.as_str(),
                to,
            ) && crate::text::str_eq(e.edge_type.as_str(), edge_type) {
                return Some(i);
            }
            i = i + 1;
        }
        None
    }

    /// Insert an edge row with a type given by name (no effect when it is already stored).
    pub fn put_edge_row(&mut self, from: &str, to: &str, edge_type: &str)
        requires
            old(self).wf(),
        ensures
            final(self).wf(),
            final(self).edge_set() == old(self).edge_set().insert((from@, to@, edge_type@)),
            final(self).node_rows() == old(self).node_rows(),
            final(self).dead_rows() == old(self).dead_rows(),
    {
        let ghost e: EdgeV = (from@, to@, edge_type@);
        let ghost before = self.edge_rows();
        let mut k: usize = 0;
        while k < self.edges.len() && edge_before(
            (self.edges[k].from_id.as_str(), self.edges[k].to_id.as_str(), self.edges[k].edge_type.as_str()),
            (from, to, edge_type),
        )
            invariant
                k <= self.edges.len(),
                self.edge_rows() == before,
                before == old(self).edge_rows(),
                self.node_rows() == old(self).node_rows(),
                self.dead_rows() == old(self).dead_rows(),
                old(self).wf(),
                e == (from@, to@, edge_type@),
                forall|i: int| 0 <= i < k ==> edge_lt(#[trigger] before[i], e),
            decreases self.edges.len() - k,
        {
            assert(before[k as int] == self.edges@[k as int]@);
            k = k + 1;
        }
        proof {
            if k < self.edges.len() {
                assert(before[k as int] == self.edges@[k as int]@);
            }
        }
        if k < self.edges.len() && str_eq(self.edges[k].from_id.as_str(), from) && str_eq(
            self.edges[k].to_id.as_str(),
            to,
        ) && str_eq(self.edges[k].edge_type.as_str(), edge_type) {
            proof {
                assert(before[k as int] == e);
                assert(self.edge_set() =~= self.edge_set().insert(e));
            }
            return;
        }
        self.edges.insert(
            k,
            EdgeRow { from_id: from.to_owned(), to_id: to.to_owned(), edge_type: edge_type.to_owned() },
        );
        proof {
            let after = self.edge_rows();
            assert(after =~= before.insert(k as int, e));
            assert forall|i: int| k <= i < before.len() implies edge_lt(e, #[trigger] before[i]) by {
                lemma_edge_order(before[k as int], e, before[i]);
                lemma_edge_order(e, before[k as int], before[i]);
            }
            assert forall|i: int| 0 <= i < before.len() implies #[trigger] before[i] != e by {
                lemma_edge_order(e, e, e);
            }
            lemma_insert_to_set(before, k as int, e);
            assert forall|a: int, b: int| 0 <= a < b < after.len() implies edge_lt(
                #[trigger] after[a],
                #[trigger] after[b],
            ) by {
                if b < k {
                    assert(edge_lt(before[a], before[b]));
                } else if b == k {
                    assert(edge_lt(before[a], e));
                } else if a < k {
                    lemma_edge_order(before[a], e, before[b - 1]);
                } else if a == k {
                    assert(edge_lt(e, before[b - 1]));
                } else {
                    assert(edge_lt(before[a - 1], before[b - 1]));
                }
            }
        }
    }

    /// Insert an edge (no effect when it is already stored).
    pub fn put_edge(&mut self, from: &NodeId, to: &NodeId, edge_type: &EdgeType)
        requires
            old(self).wf(),
        ensures
            final(self).wf(),
            final(self).edge_set() == old(self).edge_set().insert((from@, to@, edge_type.name())),
            final(self).node_rows() == old(self).node_rows(),
            final(self).dead_rows() == old(self).dead_rows(),
    {
        self.put_edge_row(from.as_str(), to.as_str(), edge_type.as_str());
    }

    /// Remove a single edge by key (no effect when it is not stored).
    pub fn remove_edge(&mut self, from: &NodeId, to: &NodeId, edge_type: &EdgeType)
        requires
            old(self).wf(),
        ensures
            final(self).wf(),
            final(self).edge_set() == old(self).edge_set().remove(
                (from@, to@, edge_type.name()),
            ),
            final(self).node_rows() == old(self).node_rows(),
            final(self).dead_rows() == old(self).dead_rows(),
    {
        self.remove_edge_row(from.as_str(), to.as_str(), edge_type.as_str());
    }

    /// Remove a single edge row, its type given by name (no effect when it is not stored).
    pub fn remove_edge_row(&mut self, from: &str, to: &str, edge_type: &str)
        requires
            old(self).wf(),
        ensures
            final(self).wf(),
            final(self).edge_set() == old(self).edge_set().remove((from@, to@, edge_type@)),
            final(self).node_rows() == old(self).node_rows(),
            final(self).dead_rows() == old(self).dead_rows(),
    {
        match self.find_edge(from, to, edge_type) {
            None => {
                proof {
                    assert(self.edge_set() =~= self.edge_set().remove((from@, to@, edge_type@)));
                }
            },
            Some(i) => {
                let ghost before = self.edge_rows();
                self.edges.remove(i);
                proof {
                    assert(self.edge_rows() =~= before.remove(i as int));
                    lemma_remove_to_set(before, i as int);
                }
            },
        }
    }

    /// Insert a batch of nodes, in order (a later row for an id replaces an earlier one).
    pub fn put_nodes_batch(&mut self, nodes: &[(NodeId, NodeType, Option<&str>)])
        requires
            old(self).wf(),
        ensures
            final(self).wf(),
            final(self).node_map() == batch_node_map(old(self).node_map(), nodes@),
            final(self).edge_rows() == old(self).edge_rows(),
            final(self).dead_rows() == old(self).dead_rows(),
    {
        let mut i: usize = 0;
        let ghost start = self.node_map();
        while i < nodes.len()
            invariant
                i <= nodes.len(),
                self.wf(),
                self.node_map() == batch_node_map(start, nodes@.take(i as int)),
                self.edge_rows() == old(self).edge_rows(),
                self.dead_rows() == old(self).dead_rows(),
            decreases nodes.len() - i,
        {
            let (id, t, p) = &nodes[i];
            self.put_node(id, t, *p);
            proof {
                assert(nodes@.take(i + 1).drop_last() =~= nodes@.take(i as int));
            }
            i = i + 1;
        }
        assert(nodes@.take(nodes@.len() as int) =~= nodes@);
    }

    /// Insert a batch of edges.
    pub fn put_edges_batch(&mut self, edges: &[(NodeId, NodeId, EdgeType)])
        requires
            old(self).wf(),
        ensures
            final(self).wf(),
            final(self).edge_set() == old(self).edge_set().union(batch_edge_set(edges@)),
            final(self).node_rows() == old(self).node_rows(),
            final(self).dead_rows() == old(self).dead_rows(),
    {
        let mut i: usize = 0;
        while i < edges.len()
            invariant
                i <= edges.len(),
                self.wf(),
                self.edge_set() == old(self).edge_set().union(batch_edge_set(edges@.take(i as int))),
                self.node_rows() == old(self).node_rows(),
                self.dead_rows() == old(self).dead_rows(),
            decreases edges.len() - i,
        {
            let (f, t, e) = &edges[i];
            self.put_edge(f, t, e);
            proof {
                let tk = edges@.take(i + 1);
                assert(tk.drop_last() =~= edges@.take(i as int));
                assert(batch_edge_set(tk) =~= batch_edge_set(edges@.take(i as int)).insert(
                    (f@, t@, e.name()),
                )) by {
                    assert(tk.last() == edges@[i as int]);
                }
                assert(self.edge_set() =~= old(self).edge_set().union(batch_edge_set(tk)));
            }
            i = i + 1;
        }
        assert(edges@.take(edges@.len() as int) =~= edges@);
    }

    /// The number of nodes.
    pub fn node_count(&self) -> (res: usize)
        ensures
            res == self.node_rows().len(),
    {
        self.nodes.len()
    }

    /// The number of edges.
    pub fn edge_count(&self) -> (res: usize)
        ensures
            res == self.edge_rows().len(),
    {
        self.edges.len()
    }

    /// Remove all nodes, edges and dead functions.
    pub fn clear(&mut self)
        ensures
            final(self).wf(),
            final(self).node_rows().len() == 0,
            final(self).edge_rows().len() == 0,
            final(self).dead_rows().len() == 0,
    {
        self.nodes = Vec::new();
        self.edges = Vec::new();
        self.dead = Vec::new();
        assert(self.node_rows() =~= Seq::<NodeV>::empty());
        assert(self.edge_rows() =~= Seq::<EdgeV>::empty());
        assert(self.dead_rows() =~= Seq::<Seq<char>>::empty());
    }

    /// Clear the dead-function relation.
    pub fn clear_dead_functions(&mut self)
        requires
            old(self).wf(),
        ensures
            final(self).wf(),
            final(self).dead_rows().len() == 0,
            final(self).node_rows() == old(self).node_rows(),
            final(self).edge_rows() == old(self).edge_rows(),
    {
        self.dead = Vec::new();
        assert(self.dead_rows() =~= Seq::<Seq<char>>::empty());
    }

    /// Insert an id into the dead-function relation (no effect when present).
    pub fn put_dead_function(&mut self, id: &str)
        requires
            old(self).wf(),
        ensures
            final(self).wf(),
            final(self).dead_set() == old(self).dead_set().insert(id@),
            final(self).node_rows() == old(self).node_rows(),
            final(self).edge_rows() == old(self).edge_rows(),
    {
        let ghost before = self.dead_rows();
        let mut k: usize = 0;
        while k < self.dead.len() && str_lt(self.dead[k].as_str(), id)
            invariant
                k <= self.dead.len(),
                self.dead_rows() == before,
                before == old(self).dead_rows(),
                self.node_rows() == old(self).node_rows(),
                self.edge_rows() == old(self).edge_rows(),
                old(self).wf(),
                forall|i: int| 0 <= i < k ==> seq_lt(#[trigger] before[i], id@),
            decreases self.dead.len() - k,
        {
            assert(before[k as int] == self.dead@[k as int]@);
            k = k + 1;
        }
        proof {
            if k < self.dead.len() {
                assert(before[k as int] == self.dead@[k as int]@);
            }
        }
        if k < self.dead.len() && str_eq(self.dead[k].as_str(), id) {
            proof {
                assert(before[k as int] == id@);
                assert(self.dead_set() =~= self.dead_set().insert(id@));
            }
            return;
        }
        self.dead.insert(k, id.to_owned());
        proof {
            let after = self.dead_rows();
            assert(after =~= before.insert(k as int, id@));
            assert forall|i: int| k <= i < before.len() implies seq_lt(id@, #[trigger] before[i]) by {
                lemma_lt_total(before[k as int], id@);
                if i > k {
                    lemma_lt_transitive(id@, before[k as int], before[i]);
                }
            }
            assert forall|i: int| 0 <= i < before.len() implies #[trigger] before[i] != id@ by {
                lemma_lt_irreflexive(id@);
            }
            lemma_insert_to_set(before, k as int, id@);
            assert forall|a: int, b: int| 0 <= a < b < after.len() implies seq_lt(
                #[trigger] after[a],
                #[trigger] after[b],
            ) by {
                if b < k {
                    assert(seq_lt(before[a], before[b]));
                } else if b == k {
                    assert(seq_lt(before[a], id@));
                } else if a < k {
                    assert(seq_lt(id@, before[b - 1]));
                    lemma_lt_transitive(before[a], id@, before[b - 1]);
                } else if a == k {
                    assert(seq_lt(id@, before[b - 1]));
                } else {
                    assert(seq_lt(before[a - 1], before[b - 1]));
                }
            }
        }
    }

    /// Copy all nodes, edges and dead functions of `other` into this store: each node row of
    /// `other` whose type names a node type is put in order, each edge whose type names an
    /// edge type is added, and every dead function id is added.
    pub fn copy_from(&mut self, other: &Store)
        requires
            old(self).wf(),
        ensures
            final(self).wf(),
            final(self).node_map() == typed_node_map(old(self).node_map(), other.node_rows()),
            final(self).edge_set() == old(self).edge_set().union(
                other.edge_set().filter(|e: EdgeV| is_edge_type_name(e.2)),
            ),
            final(self).dead_set() == old(self).dead_set().union(other.dead_set()),
    {
        let rows = other.node_row_vec();
        let mut i: usize = 0;
        while i < rows.len()
            invariant
                i <= rows.len(),
                node_rows_v(rows@) == other.node_rows(),
                self.wf(),
                self.node_map() == typed_node_map(old(self).node_map(), other.node_rows().take(i as int)),
                self.edge_rows() == old(self).edge_rows(),
                self.dead_rows() == old(self).dead_rows(),
            decreases rows.len() - i,
        {
            let r = &rows[i];
            assert(other.node_rows()[i as int] == r@);
            assert(other.node_rows().take(i + 1).drop_last() =~= other.node_rows().take(i as int));
            match NodeType::from_str(r.node_type.as_str()) {
                Ok(t) => {
                    let p: Option<&str> = match &r.payload {
                        Some(x) => Some(x.as_str()),
                        None => None,
                    };
                    assert(opt_chars_ref(p) == opt_chars(r.payload));
                    self.put_node(&NodeId::new(r.id.as_str()), &t, p);
                },
                Err(_) => {},
            }
            i = i + 1;
        }
        assert(other.node_rows().take(rows.len() as int) =~= other.node_rows());
        let ghost mid_nodes = self.node_rows();
        let edges = other.edge_row_vec();
        let mut k: usize = 0;
        while k < edges.len()
            invariant
                k <= edges.len(),
                edge_rows_v(edges@) == other.edge_rows(),
                self.wf(),
                self.node_rows() == mid_nodes,
                self.dead_rows() == old(self).dead_rows(),
                self.edge_set() == old(self).edge_set().union(typed_edges_upto(other.edge_rows(), k as int)),
            decreases edges.len() - k,
        {
            let e = &edges[k];
            assert(other.edge_rows()[k as int] == e@);
            let known = EdgeType::from_str(e.edge_type.as_str()).is_ok();
            if known {
                self.put_edge_row(e.from_id.as_str(), e.to_id.as_str(), e.edge_type.as_str());
            }
            assert(self.edge_set() =~= old(self).edge_set().union(
                typed_edges_upto(other.edge_rows(), (k + 1) as int),
            )) by {
                if known {
                    assert(is_edge_type_name(e@.2));
                } else {
                    assert(!is_edge_type_name(e@.2));
                }
            }
            k = k + 1;
        }
        assert(typed_edges_upto(other.edge_rows(), edges.len() as int) =~= other.edge_set().filter(
            |e: EdgeV| is_edge_type_name(e.2),
        ));
        let ghost mid_edges = self.edge_rows();
        let dead = other.dead_vec();
        let mut d: usize = 0;
        while d < dead.len()
            invariant
                d <= dead.len(),
                strings_v(dead@) == other.dead_rows(),
                self.wf(),
                self.node_rows() == mid_nodes,
                self.edge_rows() == mid_edges,
                self.dead_set() == old(self).dead_set().union(other.dead_rows().take(d as int).to_set()),
            decreases dead.len() - d,
        {
            self.put_dead_function(dead[d].as_str());
            assert(other.dead_rows()[d as int] == dead@[d as int]@);
            assert(other.dead_rows().take(d + 1) =~= other.dead_rows().take(d as int).push(dead@[d as int]@));
            assert(other.dead_rows().take(d + 1).to_set() =~= other.dead_rows().take(d as int).to_set().insert(
                dead@[d as int]@,
            )) by {
                let t = other.dead_rows().take(d as int);
                assert forall|x: Seq<char>| #[trigger] t.push(dead@[d as int]@).contains(x) <==> (t.contains(x) || x == dead@[d as int]@) by {
                    if t.push(dead@[d as int]@).contains(x) {
                        let w = choose|w: int| 0 <= w < t.len() + 1 && t.push(dead@[d as int]@)[w] == x;
                        if w < t.len() {
                            assert(t[w] == x);
                        }
                    }
                    if t.contains(x) {
                        let w = choose|w: int| 0 <= w < t.len() && t[w] == x;
                        assert(t.push(dead@[d as int]@)[w] == x);
                    }
                    if x == dead@[d as int]@ {
                        assert(t.push(dead@[d as int]@)[t.len() as int] == x);
                    }
                }
            }
            assert(self.dead_set() =~= old(self).dead_set().union(
                other.dead_rows().take(d + 1).to_set(),
            ));
            d = d + 1;
        }
        assert(other.dead_rows().take(dead.len() as int) =~= other.dead_rows());
    }
}

/// `s` names a node type.
pub open spec fn is_node_type_name(s: Seq<char>) -> bool {
    exists|t: NodeType| t.name() == s
}

/// `s` names an edge type.
pub open spec fn is_edge_type_name(s: Seq<char>) -> bool {
    exists|t: EdgeType| t.name() == s
}

/// The node map after putting each of `rows` whose type names a node type, in order.
pub open spec fn typed_node_map(
    m: Map<Seq<char>, (Seq<char>, Option<Seq<char>>)>,
    rows: Seq<NodeV>,
) -> Map<Seq<char>, (Seq<char>, Option<Seq<char>>)>
    decreases rows.len(),
{
    if rows.len() == 0 {
        m
    } else {
        let last = rows.last();
        let prev = typed_node_map(m, rows.drop_last());
        if is_node_type_name(last.1) {
            prev.insert(last.0, (last.1, last.2))
        } else {
            prev
        }
    }
}

/// The edges among the first `k` rows whose type names an edge type.
pub open spec fn typed_edges_upto(rows: Seq<EdgeV>, k: int) -> Set<EdgeV> {
    Set::new(|e: EdgeV| exists|i: int| 0 <= i < k && i < rows.len() && rows[i] == e && is_edge_type_name(e.2))
}

/// The characters of an optional string slice.
pub open spec fn opt_chars_ref(p: Option<&str>) -> Option<Seq<char>> {
    match p {
        Some(s) => Some(s@),
        None => None,
    }
}

/// The node map after putting each row of `batch` in order.
pub open spec fn batch_node_map(
    m: Map<Seq<char>, (Seq<char>, Option<Seq<char>>)>,
    batch: Seq<(NodeId, NodeType, Option<&str>)>,
) -> Map<Seq<char>, (Seq<char>, Option<Seq<char>>)>
    decreases batch.len(),
{
    if batch.len() == 0 {
        m
    } else {
        let last = batch.last();
        batch_node_map(m, batch.drop_last()).insert(last.0@, (last.1.name(), opt_chars_ref(last.2)))
    }
}

/// The edge rows named by `batch`.
pub open spec fn batch_edge_set(batch: Seq<(NodeId, NodeId, EdgeType)>) -> Set<EdgeV>
    decreases batch.len(),
{
    if batch.len() == 0 {
        Set::empty()
    } else {
        let last = batch.last();
        batch_edge_set(batch.drop_last()).insert((last.0@, last.1@, last.2.name()))
    }
}

/// The map view of a sequence of rows with distinct ids.
pub open spec fn rows_map(rows: Seq<NodeV>) -> Map<Seq<char>, (Seq<char>, Option<Seq<char>>)> {
    Map::new(
        |id: Seq<char>| exists|i: int| 0 <= i < rows.len() && rows[i].0 == id,
        |id: Seq<char>| {
            let i = choose|i: int| 0 <= i < rows.len() && rows[i].0 == id;
            (rows[i].1, rows[i].2)
        },
    )
}

/// In rows with distinct ids, the map sends the id of row `i` to that row's type and payload.
pub proof fn lemma_rows_map_at(rows: Seq<NodeV>, i: int)
    requires
        ids_distinct(rows),
        0 <= i < rows.len(),
    ensures
        rows_map(rows).contains_key(rows[i].0),
        rows_map(rows)[rows[i].0] == (rows[i].1, rows[i].2),
{
    let id = rows[i].0;
    let j = choose|j: int| 0 <= j < rows.len() && rows[j].0 == id;
    assert(j == i);
}

proof fn lemma_update_row_map(rows: Seq<NodeV>, i: int, row: NodeV)
    requires
        ids_distinct(rows),
        0 <= i < rows.len(),
        rows[i].0 == row.0,
    ensures
        ids_distinct(rows.update(i, row)),
        rows_map(rows.update(i, row)) == rows_map(rows).insert(row.0, (row.1, row.2)),
{
    let r2 = rows.update(i, row);
    assert forall|id: Seq<char>| #[trigger] rows_map(r2).contains_key(id) == rows_map(rows).insert(
        row.0,
        (row.1, row.2),
    ).contains_key(id) by {
        if rows_map(r2).contains_key(id) {
            let k = choose|k: int| 0 <= k < r2.len() && r2[k].0 == id;
            if k != i {
                assert(rows[k].0 == id);
            }
        }
        if rows_map(rows).contains_key(id) {
            let k = choose|k: int| 0 <= k < rows.len() && rows[k].0 == id;
            assert(r2[k].0 == id);
        }
        if id == row.0 {
            assert(r2[i].0 == id);
        }
    }
    assert forall|id: Seq<char>| #[trigger] rows_map(r2).contains_key(id) implies rows_map(r2)[id]
        == rows_map(rows).insert(row.0, (row.1, row.2))[id] by {
        let k = choose|k: int| 0 <= k < r2.len() && r2[k].0 == id;
        lemma_rows_map_at(r2, k);
        if k != i {
            lemma_rows_map_at(rows, k);
        }
    }
    assert(rows_map(r2) =~= rows_map(rows).insert(row.0, (row.1, row.2)));
}

proof fn lemma_push_row_map(rows: Seq<NodeV>, row: NodeV)
    requires
        ids_distinct(rows),
        forall|k: int| 0 <= k < rows.len() ==> rows[k].0 != row.0,
    ensures
        ids_distinct(rows.push(row)),
        rows_map(rows.push(row)) == rows_map(rows).insert(row.0, (row.1, row.2)),
{
    let r2 = rows.push(row);
    assert forall|id: Seq<char>| #[trigger] rows_map(r2).contains_key(id) == rows_map(rows).insert(
        row.0,
        (row.1, row.2),
    ).contains_key(id) by {
        if rows_map(r2).contains_key(id) {
            let k = choose|k: int| 0 <= k < r2.len() && r2[k].0 == id;
            if k < rows.len() {
                assert(rows[k].0 == id);
            }
        }
        if rows_map(rows).contains_key(id) {
            let k = choose|k: int| 0 <= k < rows.len() && rows[k].0 == id;
            assert(r2[k].0 == id);
        }
        if id == row.0 {
            assert(r2[rows.len() as int].0 == id);
        }
    }
    assert forall|id: Seq<char>| #[trigger] rows_map(r2).contains_key(id) implies rows_map(r2)[id]
        == rows_map(rows).insert(row.0, (row.1, row.2))[id] by {
        let k = choose|k: int| 0 <= k < r2.len() && r2[k].0 == id;
        lemma_rows_map_at(r2, k);
        if k < rows.len() {
            lemma_rows_map_at(rows, k);
        }
    }
    assert(rows_map(r2) =~= rows_map(rows).insert(row.0, (row.1, row.2)));
}

proof fn lemma_insert_row_map(rows: Seq<NodeV>, k: int, row: NodeV)
    requires
        ids_distinct(rows),
        0 <= k <= rows.len(),
        forall|i: int| 0 <= i < rows.len() ==> #[trigger] rows[i].0 != row.0,
    ensures
        ids_distinct(rows.insert(k, row)),
        rows_map(rows.insert(k, row)) == rows_map(rows).insert(row.0, (row.1, row.2)),
{
    let r2 = rows.insert(k, row);
    assert(forall|i: int| 0 <= i < k ==> #[trigger] r2[i] == rows[i]);
    assert(forall|i: int| k < i < r2.len() ==> #[trigger] r2[i] == rows[i - 1]);
    assert(r2[k] == row);
    assert forall|a: int, b: int| 0 <= a < r2.len() && 0 <= b < r2.len() && a != b implies #[trigger] r2[a].0
        != #[trigger] r2[b].0 by {
        if a != k && b != k {
            let a0 = if a < k { a } else { a - 1 };
            let b0 = if b < k { b } else { b - 1 };
            assert(rows[a0].0 != rows[b0].0);
        } else if a == k {
            let b0 = if b < k { b } else { b - 1 };
            assert(rows[b0].0 != row.0);
        } else {
            let a0 = if a < k { a } else { a - 1 };
            assert(rows[a0].0 != row.0);
        }
    }
    assert forall|id: Seq<char>| #[trigger] rows_map(r2).contains_key(id) == rows_map(rows).insert(
        row.0,
        (row.1, row.2),
    ).contains_key(id) by {
        if rows_map(r2).contains_key(id) {
            let i = choose|i: int| 0 <= i < r2.len() && r2[i].0 == id;
            if i < k {
                assert(rows[i].0 == id);
            } else if i > k {
                assert(rows[i - 1].0 == id);
            }
        }
        if rows_map(rows).contains_key(id) {
            let i = choose|i: int| 0 <= i < rows.len() && rows[i].0 == id;
            if i < k {
                assert(r2[i].0 == id);
            } else {
                assert(r2[i + 1].0 == id);
            }
        }
        if id == row.0 {
            assert(r2[k].0 == id);
        }
    }
    assert forall|id: Seq<char>| #[trigger] rows_map(r2).contains_key(id) implies rows_map(r2)[id]
        == rows_map(rows).insert(row.0, (row.1, row.2))[id] by {
        let i = choose|i: int| 0 <= i < r2.len() && r2[i].0 == id;
        lemma_rows_map_at(r2, i);
        if i < k {
            lemma_rows_map_at(rows, i);
        } else if i > k {
            lemma_rows_map_at(rows, i - 1);
        }
    }
    assert(rows_map(r2) =~= rows_map(rows).insert(row.0, (row.1, row.2)));
}

proof fn lemma_insert_to_set<T>(s: Seq<T>, k: int, x: T)
    requires
        no_dups(s),
        0 <= k <= s.len(),
        forall|i: int| 0 <= i < s.len() ==> #[trigger] s[i] != x,
    ensures
        no_dups(s.insert(k, x)),
        s.insert(k, x).to_set() == s.to_set().insert(x),
{
    let s2 = s.insert(k, x);
    assert(forall|i: int| 0 <= i < k ==> #[trigger] s2[i] == s[i]);
    assert(forall|i: int| k < i < s2.len() ==> #[trigger] s2[i] == s[i - 1]);
    assert(s2[k] == x);
    assert forall|a: int, b: int| 0 <= a < s2.len() && 0 <= b < s2.len() && a != b implies #[trigger] s2[a]
        != #[trigger] s2[b] by {
        if a != k && b != k {
            let a0 = if a < k { a } else { a - 1 };
            let b0 = if b < k { b } else { b - 1 };
            assert(s[a0] != s[b0]);
        } else if a == k {
            let b0 = if b < k { b } else { b - 1 };
            assert(s[b0] != x);
        } else {
            let a0 = if a < k { a } else { a - 1 };
            assert(s[a0] != x);
        }
    }
    assert forall|y: T| #[trigger] s2.to_set().contains(y) == s.to_set().insert(x).contains(y) by {
        if s2.contains(y) {
            let i = choose|i: int| 0 <= i < s2.len() && s2[i] == y;
            if i < k {
                assert(s[i] == y);
            } else if i > k {
                assert(s[i - 1] == y);
            }
        }
        if s.contains(y) {
            let i = choose|i: int| 0 <= i < s.len() && s[i] == y;
            if i < k {
                assert(s2[i] == y);
            } else {
                assert(s2[i + 1] == y);
            }
        }
        if y == x {
            assert(s2[k] == y);
        }
    }
    assert(s2.to_set() =~= s.to_set().insert(x));
}

proof fn lemma_push_to_set<T>(s: Seq<T>, x: T)
    requires
        no_dups(s),
        !s.contains(x),
    ensures
        no_dups(s.push(x)),
        s.push(x).to_set() == s.to_set().insert(x),
{
    assert forall|y: T| #[trigger] s.push(x).to_set().contains(y) == s.to_set().insert(x).contains(y) by {
        if s.push(x).contains(y) {
            let k = choose|k: int| 0 <= k < s.push(x).len() && s.push(x)[k] == y;
            if k < s.len() {
                assert(s[k] == y);
            }
        }
        if s.contains(y) {
            let k = choose|k: int| 0 <= k < s.len() && s[k] == y;
            assert(s.push(x)[k] == y);
        }
        if y == x {
            assert(s.push(x)[s.len() as int] == y);
        }
    }
    assert(s.push(x).to_set() =~= s.to_set().insert(x));
}

proof fn lemma_remove_to_set<T>(s: Seq<T>, i: int)
    requires
        no_dups(s),
        0 <= i < s.len(),
    ensures
        no_dups(s.remove(i)),
        s.remove(i).to_set() == s.to_set().remove(s[i]),
{
    let r = s.remove(i);
    assert forall|a: int, b: int| 0 <= a < r.len() && 0 <= b < r.len() && a != b implies r[a] != r[b] by {
        let a2 = if a < i { a } else { a + 1 };
        let b2 = if b < i { b } else { b + 1 };
        assert(r[a] == s[a2]);
        assert(r[b] == s[b2]);
    }
    assert forall|y: T| #[trigger] r.to_set().contains(y) == s.to_set().remove(s[i]).contains(y) by {
        if r.contains(y) {
            let k = choose|k: int| 0 <= k < r.len() && r[k] == y;
            let k2 = if k < i { k } else { k + 1 };
            assert(s[k2] == y);
        }
        if s.contains(y) && y != s[i] {
            let k = choose|k: int| 0 <= k < s.len() && s[k] == y;
            if k < i {
                assert(r[k] == y);
            } else {
                assert(k != i);
                assert(r[k - 1] == y);
            }
        }
    }
    assert(r.to_set() =~= s.to_set().remove(s[i]));
}

/// Putting an edge and then removing it leaves the edges as removing it alone would: the
/// edge is gone, and every other edge is as it was.
pub proof fn law_put_then_remove_edge(s0: Store, s1: Store, s2: Store, e: EdgeV)
    requires
        s1.edge_set() == s0.edge_set().insert(e),
        s2.edge_set() == s1.edge_set().remove(e),
    ensures
        s2.edge_set() == s0.edge_set().remove(e),
        !s2.edge_set().contains(e),
{
    assert(s2.edge_set() =~= s0.edge_set().remove(e));
}

/// Putting an edge that is already stored changes nothing: putting an edge twice is putting
/// it once.
pub proof fn law_put_edge_idempotent(s0: Store, s1: Store, s2: Store, e: EdgeV)
    requires
        s1.edge_set() == s0.edge_set().insert(e),
        s2.edge_set() == s1.edge_set().insert(e),
    ensures
        s2.edge_set() == s1.edge_set(),
{
    assert(s2.edge_set() =~= s1.edge_set());
}

/// A node put last is read back with the type and payload it was put with, and the other
/// nodes are as they were.
pub proof fn law_put_node_read_back(
    s0: Store,
    s1: Store,
    id: Seq<char>,
    t: Seq<char>,
    p: Option<Seq<char>>,
    other: Seq<char>,
)
    requires
        s1.node_map() == s0.node_map().insert(id, (t, p)),
    ensures
        s1.node_map().contains_key(id),
        s1.node_map()[id] == (t, p),
        other != id ==> (s1.node_map().contains_key(other) == s0.node_map().contains_key(other)),
        other != id && s0.node_map().contains_key(other) ==> s1.node_map()[other] == s0.node_map()[other],
{
}

} // verus!

verus! {

proof fn lemma_typed_map_all_known(rows: Seq<NodeV>)
    requires
        ids_distinct(rows),
        forall|i: int| 0 <= i < rows.len() ==> is_node_type_name(#[trigger] rows[i].1),
    ensures
        typed_node_map(Map::empty(), rows) == rows_map(rows),
    decreases rows.len(),
{
    if rows.len() == 0 {
        assert(rows_map(rows) =~= Map::empty());
    } else {
        let init = rows.drop_last();
        let last = rows.last();
        assert(ids_distinct(init));
        assert(forall|i: int| 0 <= i < init.len() ==> is_node_type_name(#[trigger] init[i].1)) by {
            assert forall|i: int| 0 <= i < init.len() implies is_node_type_name(#[trigger] init[i].1) by {
                assert(init[i] == rows[i]);
            }
        }
        lemma_typed_map_all_known(init);
        assert(is_node_type_name(rows[rows.len() - 1].1));
        assert forall|k: int| 0 <= k < init.len() implies init[k].0 != last.0 by {
            assert(init[k] == rows[k]);
        }
        lemma_push_row_map(init, last);
        assert(init.push(last) =~= rows);
    }
}

/// Copying a store whose node and edge types are all known into an empty store gives the same
/// graph back: the same nodes, edges and dead functions.
pub proof fn law_copy_into_empty(empty: Store, other: Store, copied: Store)
    requires
        empty.node_rows().len() == 0,
        empty.edge_rows().len() == 0,
        empty.dead_rows().len() == 0,
        other.wf(),
        forall|i: int| 0 <= i < other.node_rows().len() ==> is_node_type_name(#[trigger] other.node_rows()[i].1),
        forall|i: int| 0 <= i < other.edge_rows().len() ==> is_edge_type_name(#[trigger] other.edge_rows()[i].2),
        copied.node_map() == typed_node_map(empty.node_map(), other.node_rows()),
        copied.edge_set() == empty.edge_set().union(
            other.edge_set().filter(|e: EdgeV| is_edge_type_name(e.2)),
        ),
        copied.dead_set() == empty.dead_set().union(other.dead_set()),
    ensures
        copied.node_map() == other.node_map(),
        copied.edge_set() == other.edge_set(),
        copied.dead_set() == other.dead_set(),
{
    assert(empty.node_map() =~= Map::empty());
    lemma_typed_map_all_known(other.node_rows());
    assert(empty.edge_set() =~= Set::empty());
    assert(empty.dead_set() =~= Set::empty());
    assert forall|e: EdgeV| #[trigger] other.edge_set().contains(e) implies is_edge_type_name(e.2) by {
        let i = choose|i: int| 0 <= i < other.edge_rows().len() && other.edge_rows()[i] == e;
    }
    assert(copied.edge_set() =~= other.edge_set());
    assert(copied.dead_set() =~= other.dead_set());
}

} // verus!
