//! Resolving placeholder edges (`from` → `file::Name`) to the ids of the nodes they name.
//!
//! A placeholder target has no `#`. Its name is looked up among the target nodes of the same
//! file, then through the file's imports, then across the whole graph; a name that is not
//! found exactly once leaves the placeholder unresolved.

use vstd::prelude::*;

use crate::graph::query::{lemma_filter_ends, lemma_filter_step, lemma_map_push};
use crate::graph::schema::{EdgeType, NodeType};
use crate::pipeline::primitives::primitive_type_name;
use crate::graph::store::{edge_rows_v, node_rows_v, EdgeRow, EdgeV, NodeV, Store};
use crate::pipeline::calls::{canonical_chars, canonical_form};
use crate::text::{
    before_char, before_sep, before_sep_chars, chars_eq, chars_of, concat, contains,
    contains_seq, has_prefix, prefix_before_char, split_once, split_once_chars, starts_with,
    string_from_chars,
};

verus! {

/// The text the store gives for a payload: its characters, or `null` when it has none.
pub open spec fn payload_text(p: Option<Seq<char>>) -> Seq<char> {
    match p {
        Some(s) => s,
        None => seq!['n', 'u', 'l', 'l'],
    }
}

/// The file part of a node id: what comes before the first `#`.
pub open spec fn file_of(id: Seq<char>) -> Seq<char> {
    before_char(id, '#')
}

/// The `::` separator.
pub open spec fn path_sep() -> Seq<char> {
    seq![':', ':']
}

/// The texts of a list of names.
pub open spec fn names_v(names: Seq<&str>) -> Seq<Seq<char>> {
    names.map_values(|t: &str| t@)
}

/// A node that placeholders may resolve to: (id, file, payload text, lookup key).
pub type TargetV = (Seq<char>, Seq<char>, Seq<char>, Seq<char>);

/// A node of one of `types` with a non-empty payload.
pub open spec fn is_target(types: Seq<Seq<char>>, r: NodeV) -> bool {
    types.contains(r.1) && payload_text(r.2).len() > 0
}

/// The lookup record of a node; its key is the payload, or the payload's canonical name.
pub open spec fn target_of(r: NodeV, canonical: bool) -> TargetV {
    (
        r.0,
        file_of(r.0),
        payload_text(r.2),
        if canonical {
            canonical_form(payload_text(r.2))
        } else {
            payload_text(r.2)
        },
    )
}

/// The lookup records of the target nodes, in node order.
pub open spec fn targets(nodes: Seq<NodeV>, types: Seq<Seq<char>>, canonical: bool) -> Seq<TargetV> {
    nodes.filter(|r: NodeV| is_target(types, r)).map_values(|r: NodeV| target_of(r, canonical))
}

/// Ids of the targets in `file` whose payload is `name`.
pub open spec fn local_ids(ts: Seq<TargetV>, file: Seq<char>, name: Seq<char>) -> Seq<Seq<char>> {
    ts.filter(|t: TargetV| t.1 == file && t.2 == name).map_values(|t: TargetV| t.0)
}

/// Ids of the targets whose key is `key`, anywhere in the graph.
pub open spec fn global_ids(ts: Seq<TargetV>, key: Seq<char>) -> Seq<Seq<char>> {
    ts.filter(|t: TargetV| t.3 == key).map_values(|t: TargetV| t.0)
}

/// The targets of the `imports` edges that leave `file`, in edge order.
pub open spec fn imports_of(edges: Seq<EdgeV>, file: Seq<char>) -> Seq<Seq<char>> {
    edges.filter(|e: EdgeV| e.2 == EdgeType::Imports.name() && file_of(e.0) == file).map_values(
        |e: EdgeV| e.1,
    )
}

/// An id lies in what an import names: the item itself, or a node of the imported file.
pub open spec fn in_import(import: Seq<char>, id: Seq<char>) -> bool {
    if import.contains('#') {
        id == import
    } else {
        has_prefix(id, import.push('#'))
    }
}

/// The ids of `cands` that lie in what `import` names.
pub open spec fn import_hits(cands: Seq<Seq<char>>, import: Seq<char>) -> Seq<Seq<char>> {
    cands.filter(|id: Seq<char>| in_import(import, id))
}

/// The only element of `c`, if it has exactly one.
pub open spec fn unique(c: Seq<Seq<char>>) -> Option<Seq<char>> {
    if c.len() == 1 {
        Some(c[0])
    } else {
        None
    }
}

/// The first of the first `n` imports through which exactly one candidate is found.
pub open spec fn import_scan(imports: Seq<Seq<char>>, cands: Seq<Seq<char>>, n: nat) -> Option<
    Seq<char>,
>
    decreases n,
{
    if n == 0 {
        None
    } else {
        match import_scan(imports, cands, (n - 1) as nat) {
            Some(x) => Some(x),
            None => unique(import_hits(cands, imports[n - 1])),
        }
    }
}

/// Once an import has given the answer, later imports do not change it.
proof fn lemma_import_scan_stable(imports: Seq<Seq<char>>, cands: Seq<Seq<char>>, n: nat, m: nat)
    requires
        n <= m,
        import_scan(imports, cands, n) is Some,
    ensures
        import_scan(imports, cands, m) == import_scan(imports, cands, n),
    decreases m,
{
    if m > n {
        lemma_import_scan_stable(imports, cands, n, (m - 1) as nat);
    }
}

/// Where a placeholder `path_part::name` written in `from_file` resolves to.
pub open spec fn spec_resolve_placeholder(
    path_part: Seq<char>,
    name: Seq<char>,
    from_file: Seq<char>,
    ts: Seq<TargetV>,
    edges: Seq<EdgeV>,
) -> Option<Seq<char>> {
    if contains_seq(path_part, path_sep()) {
        unique(local_ids(ts, before_sep(path_part, path_sep()), name))
    } else if local_ids(ts, path_part, name).len() > 0 {
        unique(local_ids(ts, path_part, name))
    } else {
        let imports = imports_of(edges, from_file);
        let via = import_scan(imports, global_ids(ts, name), imports.len());
        if via is Some {
            via
        } else {
            unique(global_ids(ts, name))
        }
    }
}

/// A lookup record of a target node.
pub struct Target {
    pub id: Vec<char>,
    pub file: Vec<char>,
    pub name: Vec<char>,
    pub key: Vec<char>,
}

impl View for Target {
    type V = TargetV;

    open spec fn view(&self) -> TargetV {
        (self.id@, self.file@, self.name@, self.key@)
    }
}

/// The views of a list of lookup records.
pub open spec fn targets_v(v: Seq<Target>) -> Seq<TargetV> {
    v.map_values(|t: Target| t@)
}

/// The views of a list of character vectors.
pub open spec fn chars_vv(v: Seq<Vec<char>>) -> Seq<Seq<char>> {
    v.map_values(|x: Vec<char>| x@)
}

/// The views of an optional character vector.
pub open spec fn opt_chars_v(v: Option<Vec<char>>) -> Option<Seq<char>> {
    match v {
        Some(x) => Some(x@),
        None => None,
    }
}

/// The characters `null`.
fn null_text() -> (res: Vec<char>)
    ensures
        res@ == seq!['n', 'u', 'l', 'l'],
{
    let mut v: Vec<char> = Vec::new();
    v.push('n');
    v.push('u');
    v.push('l');
    v.push('l');
    assert(v@ =~= seq!['n', 'u', 'l', 'l']);
    v
}

/// The characters `::`.
pub fn sep_chars() -> (res: Vec<char>)
    ensures
        res@ == path_sep(),
{
    let mut v: Vec<char> = Vec::new();
    v.push(':');
    v.push(':');
    assert(v@ =~= path_sep());
    v
}

/// Whether `c` occurs in `s`.
pub fn has_char(s: &[char], c: char) -> (res: bool)
    ensures
        res == s@.contains(c),
{
    let mut i: usize = 0;
    while i < s.len()
        invariant
            i <= s.len(),
            forall|k: int| 0 <= k < i ==> s@[k] != c,
        decreases s.len() - i,
    {
        if s[i] == c {
            assert(s@[i as int] == c);
            return true;
        }
        i = i + 1;
    }
    false
}

/// Whether `t` is the name of one of `types`.
pub fn type_listed(types: &[&str], t: &str) -> (res: bool)
    ensures
        res == names_v(types@).contains(t@),
{
    let mut i: usize = 0;
    while i < types.len()
        invariant
            i <= types.len(),
            forall|k: int| 0 <= k < i ==> names_v(types@)[k] != t@,
        decreases types.len() - i,
    {
        if crate::text::str_eq(types[i], t) {
            assert(names_v(types@)[i as int] == t@);
            return true;
        }
        i = i + 1;
    }
    false
}

/// The lookup records of the stored nodes of one of `types` with a non-empty payload.
pub fn collect_targets(store: &Store, types: &[&str], canonical: bool) -> (res: Vec<Target>)
    ensures
        targets_v(res@) == targets(store.node_rows(), names_v(types@), canonical),
{
    let rows = store.node_row_vec();
    let ghost nv = node_rows_v(rows@);
    let ghost tn = names_v(types@);
    let ghost pred = |r: NodeV| is_target(tn, r);
    let ghost f = |r: NodeV| target_of(r, canonical);
    let mut res: Vec<Target> = Vec::new();
    let mut i: usize = 0;
    proof {
        lemma_filter_ends(nv, pred);
    }
    while i < rows.len()
        invariant
            i <= rows.len(),
            nv == node_rows_v(rows@),
            nv == store.node_rows(),
            tn == names_v(types@),
            pred == (|r: NodeV| is_target(tn, r)),
            f == (|r: NodeV| target_of(r, canonical)),
            targets_v(res@) == nv.take(i as int).filter(pred).map_values(f),
        decreases rows.len() - i,
    {
        let r = &rows[i];
        proof {
            lemma_filter_step(nv, i as int, pred);
            assert(nv[i as int] == r@);
        }
        let text = match &r.payload {
            Some(p) => chars_of(p.as_str()),
            None => null_text(),
        };
        assert(text@ == payload_text(r@.2));
        if type_listed(types, r.node_type.as_str()) && text.len() > 0 {
            let id = chars_of(r.id.as_str());
            let file = prefix_before_char(id.as_slice(), '#');
            let key = if canonical {
                canonical_chars(text.as_slice())
            } else {
                text.clone()
            };
            let ghost before = res@;
            res.push(Target { id, file, name: text, key });
            proof {
                lemma_map_push(nv.take(i as int).filter(pred), r@, f);
                assert(targets_v(res@) =~= targets_v(before).push(target_of(r@, canonical)));
            }
        }
        i = i + 1;
    }
    proof {
        lemma_filter_ends(nv, pred);
    }
    res
}

/// Ids of the records in `file` whose payload is `name`.
pub fn local_id_list(ts: &Vec<Target>, file: &[char], name: &[char]) -> (res: Vec<Vec<char>>)
    ensures
        chars_vv(res@) == local_ids(targets_v(ts@), file@, name@),
{
    let ghost tv = targets_v(ts@);
    let ghost pred = |t: TargetV| t.1 == file@ && t.2 == name@;
    let ghost f = |t: TargetV| t.0;
    let mut res: Vec<Vec<char>> = Vec::new();
    let mut i: usize = 0;
    proof {
        lemma_filter_ends(tv, pred);
    }
    while i < ts.len()
        invariant
            i <= ts.len(),
            tv == targets_v(ts@),
            pred == (|t: TargetV| t.1 == file@ && t.2 == name@),
            f == (|t: TargetV| t.0),
            chars_vv(res@) == tv.take(i as int).filter(pred).map_values(f),
        decreases ts.len() - i,
    {
        let t = &ts[i];
        proof {
            lemma_filter_step(tv, i as int, pred);
            assert(tv[i as int] == t@);
        }
        if chars_eq(t.file.as_slice(), file) && chars_eq(t.name.as_slice(), name) {
            let ghost before = res@;
            res.push(t.id.clone());
            proof {
                lemma_map_push(tv.take(i as int).filter(pred), t@, f);
                assert(chars_vv(res@) =~= chars_vv(before).push(t.id@));
            }
        }
        i = i + 1;
    }
    proof {
        lemma_filter_ends(tv, pred);
    }
    res
}

/// Ids of the records whose key is `key`.
pub fn global_id_list(ts: &Vec<Target>, key: &[char]) -> (res: Vec<Vec<char>>)
    ensures
        chars_vv(res@) == global_ids(targets_v(ts@), key@),
{
    let ghost tv = targets_v(ts@);
    let ghost pred = |t: TargetV| t.3 == key@;
    let ghost f = |t: TargetV| t.0;
    let mut res: Vec<Vec<char>> = Vec::new();
    let mut i: usize = 0;
    proof {
        lemma_filter_ends(tv, pred);
    }
    while i < ts.len()
        invariant
            i <= ts.len(),
            tv == targets_v(ts@),
            pred == (|t: TargetV| t.3 == key@),
            f == (|t: TargetV| t.0),
            chars_vv(res@) == tv.take(i as int).filter(pred).map_values(f),
        decreases ts.len() - i,
    {
        let t = &ts[i];
        proof {
            lemma_filter_step(tv, i as int, pred);
            assert(tv[i as int] == t@);
        }
        if chars_eq(t.key.as_slice(), key) {
            let ghost before = res@;
            res.push(t.id.clone());
            proof {
                lemma_map_push(tv.take(i as int).filter(pred), t@, f);
                assert(chars_vv(res@) =~= chars_vv(before).push(t.id@));
            }
        }
        i = i + 1;
    }
    proof {
        lemma_filter_ends(tv, pred);
    }
    res
}

/// The targets of the stored `imports` edges that leave `file`, in edge order.
pub fn import_list(rows: &Vec<EdgeRow>, file: &[char]) -> (res: Vec<Vec<char>>)
    ensures
        chars_vv(res@) == imports_of(edge_rows_v(rows@), file@),
{
    let ghost ev = edge_rows_v(rows@);
    let ghost pred = |e: EdgeV| e.2 == EdgeType::Imports.name() && file_of(e.0) == file@;
    let ghost f = |e: EdgeV| e.1;
    let imports_name = EdgeType::Imports.as_str();
    let mut res: Vec<Vec<char>> = Vec::new();
    let mut i: usize = 0;
    proof {
        lemma_filter_ends(ev, pred);
    }
    while i < rows.len()
        invariant
            i <= rows.len(),
            ev == edge_rows_v(rows@),
            imports_name@ == EdgeType::Imports.name(),
            pred == (|e: EdgeV| e.2 == EdgeType::Imports.name() && file_of(e.0) == file@),
            f == (|e: EdgeV| e.1),
            chars_vv(res@) == ev.take(i as int).filter(pred).map_values(f),
        decreases rows.len() - i,
    {
        let r = &rows[i];
        proof {
            lemma_filter_step(ev, i as int, pred);
            assert(ev[i as int] == r@);
        }
        if crate::text::str_eq(r.edge_type.as_str(), imports_name) {
            let from = chars_of(r.from_id.as_str());
            let from_file = prefix_before_char(from.as_slice(), '#');
            if chars_eq(from_file.as_slice(), file) {
                let ghost before = res@;
                res.push(chars_of(r.to_id.as_str()));
                proof {
                    lemma_map_push(ev.take(i as int).filter(pred), r@, f);
                    assert(chars_vv(res@) =~= chars_vv(before).push(r.to_id@));
                }
            }
        }
        i = i + 1;
    }
    proof {
        lemma_filter_ends(ev, pred);
    }
    res
}

/// Whether `id` lies in what `import` names.
pub fn id_in_import(import: &[char], id: &[char]) -> (res: bool)
    ensures
        res == in_import(import@, id@),
{
    if has_char(import, '#') {
        chars_eq(id, import)
    } else {
        let mut p: Vec<char> = Vec::new();
        p.extend_from_slice(import);
        p.push('#');
        assert(p@ =~= import@.push('#'));
        starts_with(id, p.as_slice())
    }
}

/// The candidates that lie in what `import` names.
pub fn import_hit_list(cands: &Vec<Vec<char>>, import: &[char]) -> (res: Vec<Vec<char>>)
    ensures
        chars_vv(res@) == import_hits(chars_vv(cands@), import@),
{
    let ghost cv = chars_vv(cands@);
    let ghost pred = |id: Seq<char>| in_import(import@, id);
    let mut res: Vec<Vec<char>> = Vec::new();
    let mut i: usize = 0;
    proof {
        lemma_filter_ends(cv, pred);
    }
    while i < cands.len()
        invariant
            i <= cands.len(),
            cv == chars_vv(cands@),
            pred == (|id: Seq<char>| in_import(import@, id)),
            chars_vv(res@) == cv.take(i as int).filter(pred),
        decreases cands.len() - i,
    {
        proof {
            lemma_filter_step(cv, i as int, pred);
            assert(cv[i as int] == cands@[i as int]@);
        }
        if id_in_import(import, cands[i].as_slice()) {
            let ghost before = res@;
            res.push(cands[i].clone());
            proof {
                assert(chars_vv(res@) =~= chars_vv(before).push(cands@[i as int]@));
            }
        }
        i = i + 1;
    }
    proof {
        lemma_filter_ends(cv, pred);
    }
    res
}

/// The only element of `c`, if it has exactly one.
pub fn unique_of(c: &Vec<Vec<char>>) -> (res: Option<Vec<char>>)
    ensures
        opt_chars_v(res) == unique(chars_vv(c@)),
{
    if c.len() == 1 {
        Some(c[0].clone())
    } else {
        None
    }
}

/// The first import through which exactly one candidate is found.
fn scan_imports(imports: &Vec<Vec<char>>, cands: &Vec<Vec<char>>) -> (res: Option<Vec<char>>)
    ensures
        opt_chars_v(res) == import_scan(chars_vv(imports@), chars_vv(cands@), imports@.len()),
{
    let ghost iv = chars_vv(imports@);
    let ghost cv = chars_vv(cands@);
    let mut i: usize = 0;
    while i < imports.len()
        invariant
            i <= imports.len(),
            iv == chars_vv(imports@),
            cv == chars_vv(cands@),
            import_scan(iv, cv, i as nat) is None,
        decreases imports.len() - i,
    {
        let hits = import_hit_list(cands, imports[i].as_slice());
        assert(iv[i as int] == imports@[i as int]@);
        if hits.len() == 1 {
            proof {
                assert(import_scan(iv, cv, (i + 1) as nat) == Some(hits@[0]@));
                lemma_import_scan_stable(iv, cv, (i + 1) as nat, imports@.len());
            }
            return Some(hits[0].clone());
        }
        i = i + 1;
    }
    None
}

/// Resolve a placeholder `path_part::name` written in `from_file`, given the lookup records
/// of the target nodes and the stored edges.
pub fn resolve_placeholder(
    path_part: &[char],
    name: &[char],
    from_file: &[char],
    ts: &Vec<Target>,
    edges: &Vec<EdgeRow>,
) -> (res: Option<Vec<char>>)
    ensures
        opt_chars_v(res) == spec_resolve_placeholder(
            path_part@,
            name@,
            from_file@,
            targets_v(ts@),
            edge_rows_v(edges@),
        ),
{
    let sep = sep_chars();
    if contains(path_part, sep.as_slice()) {
        let file_only = before_sep_chars(path_part, sep.as_slice());
        let c = local_id_list(ts, file_only.as_slice(), name);
        return unique_of(&c);
    }
    let c = local_id_list(ts, path_part, name);
    if c.len() > 0 {
        return unique_of(&c);
    }
    let globals = global_id_list(ts, name);
    let imports = import_list(edges, from_file);
    let via = scan_imports(&imports, &globals);
    if via.is_some() {
        via
    } else {
        unique_of(&globals)
    }
}

/// The edge set after rewriting the first `n` rows of `snap`: a selected row is taken out,
/// and its source is joined to the row's target, if it has one, under the same edge type.
pub open spec fn rewrite_edges(
    snap: Seq<EdgeV>,
    n: nat,
    start: Set<EdgeV>,
    sel: spec_fn(EdgeV) -> bool,
    tgt: spec_fn(EdgeV) -> Option<Seq<char>>,
) -> Set<EdgeV>
    decreases n,
{
    if n == 0 || n > snap.len() {
        start
    } else {
        let prev = rewrite_edges(snap, (n - 1) as nat, start, sel, tgt);
        let e = snap[n - 1];
        if sel(e) {
            match tgt(e) {
                Some(t) => prev.remove(e).insert((e.0, t, e.2)),
                None => prev.remove(e),
            }
        } else {
            prev
        }
    }
}

/// The node map after the first `n` rows of `snap`: a selected row with an outside name adds
/// the node `external::name` of type `external_type` with payload `name`.
pub open spec fn add_external_nodes(
    snap: Seq<EdgeV>,
    n: nat,
    start: Map<Seq<char>, (Seq<char>, Option<Seq<char>>)>,
    sel: spec_fn(EdgeV) -> bool,
    ext: spec_fn(EdgeV) -> Option<Seq<char>>,
) -> Map<Seq<char>, (Seq<char>, Option<Seq<char>>)>
    decreases n,
{
    if n == 0 || n > snap.len() {
        start
    } else {
        let prev = add_external_nodes(snap, (n - 1) as nat, start, sel, ext);
        let e = snap[n - 1];
        if sel(e) {
            match ext(e) {
                Some(name) => prev.insert(
                    external_id(name),
                    (external_type_name(), Some(name)),
                ),
                None => prev,
            }
        } else {
            prev
        }
    }
}

/// `external_type`: the type of the nodes that stand for types outside the graph. It is no
/// member of the schema's node types, so it never parses as one.
pub open spec fn external_type_name() -> Seq<char> {
    "external_type"@
}

/// `external::`
pub open spec fn external_prefix() -> Seq<char> {
    seq!['e', 'x', 't', 'e', 'r', 'n', 'a', 'l', ':', ':']
}

/// The id of the node that stands for a type outside the graph.
pub open spec fn external_id(name: Seq<char>) -> Seq<char> {
    external_prefix() + name
}

/// A stored edge of type `et` whose target is a placeholder: no `#`, and a `::`.
pub open spec fn is_placeholder_edge(et: Seq<char>, e: EdgeV) -> bool {
    e.2 == et && !e.1.contains('#') && split_once(e.1, path_sep()) is Some
}

/// The two parts of a placeholder target: the path part and the name.
pub open spec fn placeholder_parts(to: Seq<char>) -> (Seq<char>, Seq<char>) {
    split_once(to, path_sep())->0
}

/// Where a placeholder edge resolves to among `ts`, with `snap` giving the imports.
pub open spec fn placeholder_resolution(ts: Seq<TargetV>, snap: Seq<EdgeV>, e: EdgeV) -> Option<
    Seq<char>,
> {
    spec_resolve_placeholder(
        placeholder_parts(e.1).0,
        placeholder_parts(e.1).1,
        file_of(e.0),
        ts,
        snap,
    )
}

/// The new target of a placeholder edge: the resolved node, else, when unresolved types are
/// kept, the external node named after it.
pub open spec fn placeholder_target(ts: Seq<TargetV>, snap: Seq<EdgeV>, keep: bool, e: EdgeV) -> Option<
    Seq<char>,
> {
    match placeholder_resolution(ts, snap, e) {
        Some(t) => Some(t),
        None => if keep {
            Some(external_id(placeholder_parts(e.1).1))
        } else {
            None
        },
    }
}

/// The name of the external node an unresolved placeholder edge gets, when they are kept.
pub open spec fn placeholder_external(ts: Seq<TargetV>, snap: Seq<EdgeV>, keep: bool, e: EdgeV) -> Option<
    Seq<char>,
> {
    if keep && placeholder_resolution(ts, snap, e) is None {
        Some(placeholder_parts(e.1).1)
    } else {
        None
    }
}

/// A copy of a list of edge rows.
pub fn copy_edge_rows(rows: &Vec<EdgeRow>) -> (res: Vec<EdgeRow>)
    ensures
        edge_rows_v(res@) == edge_rows_v(rows@),
{
    let mut res: Vec<EdgeRow> = Vec::new();
    let mut i: usize = 0;
    while i < rows.len()
        invariant
            i <= rows.len(),
            edge_rows_v(res@) == edge_rows_v(rows@).take(i as int),
        decreases rows.len() - i,
    {
        let r = &rows[i];
        let ghost before = res@;
        res.push(
            EdgeRow {
                from_id: r.from_id.clone(),
                to_id: r.to_id.clone(),
                edge_type: r.edge_type.clone(),
            },
        );
        proof {
            assert(edge_rows_v(res@) =~= edge_rows_v(before).push(r@));
            assert(edge_rows_v(rows@).take(i + 1) =~= edge_rows_v(rows@).take(i as int).push(
                r@,
            ));
        }
        i = i + 1;
    }
    assert(edge_rows_v(rows@).take(rows.len() as int) =~= edge_rows_v(rows@));
    res
}

/// The characters `external::`.
fn external_chars() -> (res: Vec<char>)
    ensures
        res@ == external_prefix(),
{
    let mut v: Vec<char> = Vec::new();
    v.push('e');
    v.push('x');
    v.push('t');
    v.push('e');
    v.push('r');
    v.push('n');
    v.push('a');
    v.push('l');
    v.push(':');
    v.push(':');
    assert(v@ =~= external_prefix());
    v
}

/// Resolve the placeholder edges of type `edge_type` to nodes of one of `target_node_types`,
/// the types given by their stored names.
///
/// Each edge whose target is a placeholder (no `#`) is looked up by same-file, import-based,
/// then global name lookup, and replaced by an edge to the node found. An edge that does not
/// resolve is dropped, or, when `keep_external` is set, re-pointed to a node
/// `external::{name}` of type `external_type`, created once per name.
pub fn resolve_placeholder_edges(
    store: &mut Store,
    edge_type: &str,
    target_node_types: &[&str],
    keep_external: bool,
)
    requires
        old(store).wf(),
    ensures
        final(store).wf(),
        final(store).edge_set() == rewrite_edges(
            old(store).edge_rows(),
            old(store).edge_rows().len(),
            old(store).edge_set(),
            |e: EdgeV| is_placeholder_edge(edge_type@, e),
            |e: EdgeV|
                placeholder_target(
                    targets(old(store).node_rows(), names_v(target_node_types@), false),
                    old(store).edge_rows(),
                    keep_external,
                    e,
                ),
        ),
        final(store).node_map() == add_external_nodes(
            old(store).edge_rows(),
            old(store).edge_rows().len(),
            old(store).node_map(),
            |e: EdgeV| is_placeholder_edge(edge_type@, e),
            |e: EdgeV|
                placeholder_external(
                    targets(old(store).node_rows(), names_v(target_node_types@), false),
                    old(store).edge_rows(),
                    keep_external,
                    e,
                ),
        ),
        final(store).dead_rows() == old(store).dead_rows(),
{
    let snap = copy_edge_rows(store.edge_row_vec());
    let ts = collect_targets(store, target_node_types, false);
    let ghost sv = old(store).edge_rows();
    let ghost tv = targets(old(store).node_rows(), names_v(target_node_types@), false);
    let ghost et = edge_type@;
    let ghost sel = |e: EdgeV| is_placeholder_edge(et, e);
    let ghost tgt = |e: EdgeV| placeholder_target(tv, sv, keep_external, e);
    let ghost ext = |e: EdgeV| placeholder_external(tv, sv, keep_external, e);
    let et_str = edge_type;
    let sep = sep_chars();
    let ext_prefix = external_chars();
    let mut i: usize = 0;
    while i < snap.len()
        invariant
            i <= snap.len(),
            store.wf(),
            edge_rows_v(snap@) == sv,
            sv == old(store).edge_rows(),
            targets_v(ts@) == tv,
            et_str@ == et,
            et == edge_type@,
            sep@ == path_sep(),
            ext_prefix@ == external_prefix(),
            sel == (|e: EdgeV| is_placeholder_edge(et, e)),
            tgt == (|e: EdgeV| placeholder_target(tv, sv, keep_external, e)),
            ext == (|e: EdgeV| placeholder_external(tv, sv, keep_external, e)),
            store.edge_set() == rewrite_edges(sv, i as nat, old(store).edge_set(), sel, tgt),
            store.node_map() == add_external_nodes(sv, i as nat, old(store).node_map(), sel, ext),
            store.dead_rows() == old(store).dead_rows(),
        decreases snap.len() - i,
    {
        let e = &snap[i];
        let ghost ev = e@;
        assert(sv[i as int] == ev);
        if crate::text::str_eq(e.edge_type.as_str(), et_str) {
            let to = chars_of(e.to_id.as_str());
            if !has_char(to.as_slice(), '#') {
                match split_once_chars(to.as_slice(), sep.as_slice()) {
                    Some((pp, name)) => {
                        assert(sel(ev));
                        let from = chars_of(e.from_id.as_str());
                        let from_file = prefix_before_char(from.as_slice(), '#');
                        let resolved = resolve_placeholder(
                            pp.as_slice(),
                            name.as_slice(),
                            from_file.as_slice(),
                            &ts,
                            &snap,
                        );
                        assert(opt_chars_v(resolved) == placeholder_resolution(tv, sv, ev));
                        store.remove_edge_row(e.from_id.as_str(), e.to_id.as_str(), edge_type);
                        match resolved {
                            Some(t) => {
                                let target = string_from_chars(t.as_slice());
                                store.put_edge_row(e.from_id.as_str(), target.as_str(), edge_type);
                                assert(tgt(ev) == Some(t@));
                                assert(ext(ev) is None);
                            },
                            None => {
                                if keep_external {
                                    let ext_id = concat(ext_prefix.as_slice(), name.as_slice());
                                    let ext_name = string_from_chars(name.as_slice());
                                    let target = string_from_chars(ext_id.as_slice());
                                    store.put_node_row(
                                        target.as_str(),
                                        "external_type",
                                        Some(ext_name.as_str()),
                                    );
                                    store.put_edge_row(e.from_id.as_str(), target.as_str(), edge_type);
                                    assert(tgt(ev) == Some(external_id(name@)));
                                    assert(ext(ev) == Some(name@));
                                } else {
                                    assert(tgt(ev) is None);
                                    assert(ext(ev) is None);
                                }
                            },
                        }
                    },
                    None => {
                        assert(!sel(ev));
                    },
                }
            } else {
                assert(!sel(ev));
            }
        } else {
            assert(!sel(ev));
        }
        i = i + 1;
    }
}

/// `new` is `old` after the placeholder edges of type `et` were resolved to nodes of one of
/// `types` (see `resolve_placeholder_edges`).
pub open spec fn placeholders_resolved(
    old: Store,
    new: Store,
    et: Seq<char>,
    types: Seq<Seq<char>>,
    keep: bool,
) -> bool {
    &&& new.wf()
    &&& new.edge_set() == rewrite_edges(
        old.edge_rows(),
        old.edge_rows().len(),
        old.edge_set(),
        |e: EdgeV| is_placeholder_edge(et, e),
        |e: EdgeV|
            placeholder_target(
                targets(old.node_rows(), types, false),
                old.edge_rows(),
                keep,
                e,
            ),
    )
    &&& new.node_map() == add_external_nodes(
        old.edge_rows(),
        old.edge_rows().len(),
        old.node_map(),
        |e: EdgeV| is_placeholder_edge(et, e),
        |e: EdgeV|
            placeholder_external(
                targets(old.node_rows(), types, false),
                old.edge_rows(),
                keep,
                e,
            ),
    )
    &&& new.dead_rows() == old.dead_rows()
}

/// The names of the node types that type references (owns, borrows) resolve to: struct,
/// enum, trait and type alias nodes, and the `primitive` nodes.
pub open spec fn type_target_kinds() -> Seq<Seq<char>> {
    seq![
        NodeType::Struct.name(),
        NodeType::Enum.name(),
        NodeType::Trait.name(),
        NodeType::TypeAlias.name(),
        primitive_type_name(),
    ]
}

/// The names of the node types that type references resolve to, as a list.
pub fn type_targets() -> (res: [&'static str; 5])
    ensures
        names_v(res@) == type_target_kinds(),
{
    let res = [
        NodeType::Struct.as_str(),
        NodeType::Enum.as_str(),
        NodeType::Trait.as_str(),
        NodeType::TypeAlias.as_str(),
        "primitive",
    ];
    assert(names_v(res@) =~= type_target_kinds());
    res
}

/// Every element of a filtered sequence is an element of the sequence.
pub broadcast proof fn lemma_filter_elem_in<A>(s: Seq<A>, p: spec_fn(A) -> bool, i: int)
    requires
        0 <= i < s.filter(p).len(),
    ensures
        s.contains(#[trigger] s.filter(p)[i]),
{
    let f = s.filter(p);
    assert(f.contains(f[i]));
    s.lemma_filter_contains_rev(p, f[i]);
}

/// What the import scan picks is one of the candidates.
proof fn lemma_import_scan_picks_candidate(imports: Seq<Seq<char>>, cands: Seq<Seq<char>>, n: nat)
    requires
        n <= imports.len(),
        import_scan(imports, cands, n) is Some,
    ensures
        cands.contains(import_scan(imports, cands, n)->0),
    decreases n,
{
    if import_scan(imports, cands, (n - 1) as nat) is Some {
        lemma_import_scan_picks_candidate(imports, cands, (n - 1) as nat);
    } else {
        let hits = import_hits(cands, imports[n - 1]);
        assert(hits.contains(hits[0]));
        cands.lemma_filter_contains_rev(|id: Seq<char>| in_import(imports[n - 1], id), hits[0]);
    }
}

/// An id found by a same-file lookup is the id of one of the records.
pub proof fn lemma_local_id_from(ts: Seq<TargetV>, file: Seq<char>, name: Seq<char>, j: int)
    requires
        0 <= j < local_ids(ts, file, name).len(),
    ensures
        exists|k: int| 0 <= k < ts.len() && ts[k].0 == local_ids(ts, file, name)[j],
{
    broadcast use lemma_filter_elem_in;

    assert(local_ids(ts, file, name)[j] == local_ids(ts, file, name)[j]);
}

/// An id found by a global lookup is the id of one of the records.
pub proof fn lemma_global_id_from(ts: Seq<TargetV>, key: Seq<char>, j: int)
    requires
        0 <= j < global_ids(ts, key).len(),
    ensures
        exists|k: int| 0 <= k < ts.len() && ts[k].0 == global_ids(ts, key)[j],
{
    broadcast use lemma_filter_elem_in;

    assert(global_ids(ts, key)[j] == global_ids(ts, key)[j]);
}

/// A placeholder resolves only to the id of one of the target nodes it was looked up among.
pub proof fn law_placeholder_resolves_to_target(
    path_part: Seq<char>,
    name: Seq<char>,
    from_file: Seq<char>,
    ts: Seq<TargetV>,
    edges: Seq<EdgeV>,
)
    requires
        spec_resolve_placeholder(path_part, name, from_file, ts, edges) is Some,
    ensures
        exists|k: int|
            0 <= k < ts.len() && ts[k].0 == spec_resolve_placeholder(
                path_part,
                name,
                from_file,
                ts,
                edges,
            )->0,
{
    if contains_seq(path_part, path_sep()) {
        lemma_local_id_from(ts, before_sep(path_part, path_sep()), name, 0);
    } else if local_ids(ts, path_part, name).len() > 0 {
        lemma_local_id_from(ts, path_part, name, 0);
    } else {
        let imports = imports_of(edges, from_file);
        let globals = global_ids(ts, name);
        let via = import_scan(imports, globals, imports.len());
        if via is Some {
            lemma_import_scan_picks_candidate(imports, globals, imports.len());
            let j = choose|j: int| 0 <= j < globals.len() && globals[j] == via->0;
            lemma_global_id_from(ts, name, j);
        } else {
            lemma_global_id_from(ts, name, 0);
        }
    }
}

} // verus!

verus! {

/// An edge that the rewrite does not select stays.
proof fn lemma_rewrite_keeps(
    snap: Seq<EdgeV>,
    n: nat,
    start: Set<EdgeV>,
    sel: spec_fn(EdgeV) -> bool,
    tgt: spec_fn(EdgeV) -> Option<Seq<char>>,
    x: EdgeV,
)
    requires
        start.contains(x),
        !sel(x),
    ensures
        rewrite_edges(snap, n, start, sel, tgt).contains(x),
    decreases n,
{
    if n > 0 && n <= snap.len() {
        lemma_rewrite_keeps(snap, (n - 1) as nat, start, sel, tgt, x);
    }
}

/// What the rewrite holds: edges of `start` that were not selected among the first `n` rows,
/// and the new edges of selected rows.
proof fn lemma_rewrite_bound(
    snap: Seq<EdgeV>,
    n: nat,
    start: Set<EdgeV>,
    sel: spec_fn(EdgeV) -> bool,
    tgt: spec_fn(EdgeV) -> Option<Seq<char>>,
    x: EdgeV,
)
    requires
        n <= snap.len(),
        rewrite_edges(snap, n, start, sel, tgt).contains(x),
    ensures
        (start.contains(x) && !(exists|k: int| 0 <= k < n && snap[k] == x && sel(x))) || exists|k: int|
            0 <= k < n && sel(snap[k]) && tgt(snap[k]) == Some(x.1) && x == (snap[k].0, x.1, snap[k].2),
    decreases n,
{
    if n > 0 {
        let e = snap[n - 1];
        let prev = rewrite_edges(snap, (n - 1) as nat, start, sel, tgt);
        if sel(e) && tgt(e) is Some && x == (e.0, tgt(e)->0, e.2) {
            assert(x.1 == tgt(e)->0);
        } else {
            assert(prev.contains(x));
            lemma_rewrite_bound(snap, (n - 1) as nat, start, sel, tgt, x);
            if exists|k: int| 0 <= k < n - 1 && sel(snap[k]) && tgt(snap[k]) == Some(x.1) && x == (
                snap[k].0,
                x.1,
                snap[k].2,
            ) {
                let k = choose|k: int|
                    0 <= k < n - 1 && sel(snap[k]) && tgt(snap[k]) == Some(x.1) && x == (
                        snap[k].0,
                        x.1,
                        snap[k].2,
                    );
                assert(0 <= k < n);
            } else {
                assert(x != e || !sel(e));
            }
        }
    }
}

/// Without outside names, no node is added.
proof fn lemma_no_external_nodes(
    snap: Seq<EdgeV>,
    n: nat,
    start: Map<Seq<char>, (Seq<char>, Option<Seq<char>>)>,
    sel: spec_fn(EdgeV) -> bool,
    ext: spec_fn(EdgeV) -> Option<Seq<char>>,
)
    requires
        forall|e: EdgeV| #[trigger] ext(e) is None,
    ensures
        add_external_nodes(snap, n, start, sel, ext) == start,
    decreases n,
{
    if n > 0 && n <= snap.len() {
        lemma_no_external_nodes(snap, (n - 1) as nat, start, sel, ext);
    }
}

/// Resolving placeholder edges (unresolved ones dropped): the nodes stay as they were; every
/// edge that is not a placeholder of that type stays; and every edge afterwards is such an
/// edge or the resolution of one placeholder edge `(f, p, type)` as `(f, r, type)`, where `r`
/// is the id of a node of one of the target types with a non-empty payload. An unresolved
/// placeholder leaves no edge of its own.
pub proof fn law_placeholder_edges_resolved(
    old: Store,
    new: Store,
    et: Seq<char>,
    types: Seq<Seq<char>>,
    x: EdgeV,
)
    requires
        old.wf(),
        placeholders_resolved(old, new, et, types, false),
    ensures
        new.node_map() == old.node_map(),
        old.edge_set().contains(x) && !is_placeholder_edge(et, x) ==> new.edge_set().contains(x),
        new.edge_set().contains(x) ==> (old.edge_set().contains(x) && !is_placeholder_edge(et, x))
            || exists|e: EdgeV|
            #![trigger old.edge_set().contains(e)]
            old.edge_set().contains(e) && is_placeholder_edge(et, e) && x == (e.0, x.1, e.2)
                && placeholder_resolution(
                targets(old.node_rows(), types, false),
                old.edge_rows(),
                e,
            ) == Some(x.1) && exists|k: int|
                0 <= k < old.node_rows().len() && old.node_rows()[k].0 == x.1 && is_target(
                    types,
                    old.node_rows()[k],
                ),
{
    let ts = targets(old.node_rows(), types, false);
    let snap = old.edge_rows();
    let sel = |e: EdgeV| is_placeholder_edge(et, e);
    let tgt = |e: EdgeV| placeholder_target(ts, snap, false, e);
    let ext = |e: EdgeV| placeholder_external(ts, snap, false, e);
    assert(new.edge_set() == rewrite_edges(snap, snap.len(), old.edge_set(), sel, tgt));
    assert(new.node_map() == add_external_nodes(snap, snap.len(), old.node_map(), sel, ext));
    lemma_no_external_nodes(snap, snap.len(), old.node_map(), sel, ext);
    if old.edge_set().contains(x) && !is_placeholder_edge(et, x) {
        lemma_rewrite_keeps(snap, snap.len(), old.edge_set(), sel, tgt, x);
    }
    if new.edge_set().contains(x) {
        lemma_rewrite_bound(snap, snap.len(), old.edge_set(), sel, tgt, x);
        if exists|k: int|
            0 <= k < snap.len() && sel(snap[k]) && tgt(snap[k]) == Some(x.1) && x == (
                snap[k].0,
                x.1,
                snap[k].2,
            ) {
            let k = choose|k: int|
                0 <= k < snap.len() && sel(snap[k]) && tgt(snap[k]) == Some(x.1) && x == (
                    snap[k].0,
                    x.1,
                    snap[k].2,
                );
            let e = snap[k];
            assert(old.edge_set().contains(e));
            let pp = placeholder_parts(e.1);
            law_placeholder_resolves_to_target(pp.0, pp.1, file_of(e.0), ts, snap);
            let j = choose|j: int| 0 <= j < ts.len() && ts[j].0 == x.1;
            let pred = |r: NodeV| is_target(types, r);
            let flt = old.node_rows().filter(pred);
            assert(ts[j] == target_of(flt[j], false));
            assert(flt.contains(flt[j]));
            old.node_rows().lemma_filter_contains_rev(pred, flt[j]);
            let k2 = choose|k2: int| 0 <= k2 < old.node_rows().len() && old.node_rows()[k2] == flt[j];
            broadcast use vstd::seq_lib::group_filter_ensures;
            assert(is_target(types, flt[j]));
            assert(old.node_rows()[k2].0 == x.1);
        } else {
            if sel(x) {
                assert(old.edge_set().contains(x));
                let k = choose|k: int| 0 <= k < snap.len() && snap[k] == x;
                assert(!(exists|k: int| 0 <= k < snap.len() && snap[k] == x && sel(x)));
            }
        }
    }
}

} // verus!
