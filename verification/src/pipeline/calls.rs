//! Call graph construction: placeholder call targets (`file::fn_name`) are resolved to the
//! ids of function nodes (`file#line:col`).
//!
//! Same-file functions are tried first, then the functions that the calling file imports,
//! then a unique function of that name anywhere. Method calls and UFCS are not resolved.

use vstd::prelude::*;

use crate::graph::query::{lemma_filter_ends, lemma_filter_step};
use crate::graph::schema::{EdgeType, NodeId, NodeType};
use crate::graph::store::{edge_rows_v, EdgeRow, EdgeV, Store};
use crate::pipeline::placeholder::{
    chars_vv, import_hit_list, import_hits, in_import, lemma_global_id_from, lemma_local_id_from, collect_targets, copy_edge_rows, file_of, global_id_list, global_ids, has_char,
    import_list, imports_of, local_id_list, local_ids, opt_chars_v, path_sep, rewrite_edges,
    sep_chars, targets, targets_v, names_v, unique, unique_of, Target, TargetV,
};
use crate::text::{
    before_sep, before_sep_chars, chars_eq, chars_of, concat, contains, contains_seq, has_prefix,
    prefix_before_char, rsplit_once, rsplit_once_chars, slice_range, split_once,
    split_once_chars, starts_with, string_from_chars,
};

verus! {

/// `pub::`
pub open spec fn pub_prefix() -> Seq<char> {
    seq!['p', 'u', 'b', ':', ':']
}

/// `test::`
pub open spec fn test_prefix() -> Seq<char> {
    seq!['t', 'e', 's', 't', ':', ':']
}

/// `bench::`
pub open spec fn bench_prefix() -> Seq<char> {
    seq!['b', 'e', 'n', 'c', 'h', ':', ':']
}

/// A function's name without its `pub::`, `test::` and `bench::` markers, which are taken off
/// from the front, one at a time, for as long as one is there.
pub open spec fn canonical_form(p: Seq<char>) -> Seq<char>
    decreases p.len(),
{
    if has_prefix(p, pub_prefix()) {
        canonical_form(p.skip(5))
    } else if has_prefix(p, test_prefix()) {
        canonical_form(p.skip(6))
    } else if has_prefix(p, bench_prefix()) {
        canonical_form(p.skip(7))
    } else {
        p
    }
}

fn prefix_chars(which: u8) -> (res: Vec<char>)
    requires
        which < 3,
    ensures
        which == 0 ==> res@ == pub_prefix(),
        which == 1 ==> res@ == test_prefix(),
        which == 2 ==> res@ == bench_prefix(),
{
    let mut v: Vec<char> = Vec::new();
    if which == 0 {
        v.push('p');
        v.push('u');
        v.push('b');
    } else if which == 1 {
        v.push('t');
        v.push('e');
        v.push('s');
        v.push('t');
    } else {
        v.push('b');
        v.push('e');
        v.push('n');
        v.push('c');
        v.push('h');
    }
    v.push(':');
    v.push(':');
    proof {
        if which == 0 {
            assert(v@ =~= pub_prefix());
        } else if which == 1 {
            assert(v@ =~= test_prefix());
        } else {
            assert(v@ =~= bench_prefix());
        }
    }
    v
}

/// The canonical name of a payload, computed.
pub fn canonical_chars(p: &[char]) -> (res: Vec<char>)
    ensures
        res@ == canonical_form(p@),
{
    let pubp = prefix_chars(0);
    let testp = prefix_chars(1);
    let benchp = prefix_chars(2);
    let mut cur: Vec<char> = slice_range(p, 0, p.len());
    assert(cur@ =~= p@);
    loop
        invariant
            canonical_form(cur@) == canonical_form(p@),
            pubp@ == pub_prefix(),
            testp@ == test_prefix(),
            benchp@ == bench_prefix(),
        decreases cur@.len(),
    {
        if starts_with(cur.as_slice(), pubp.as_slice()) {
            cur = slice_range(cur.as_slice(), 5, cur.len());
        } else if starts_with(cur.as_slice(), testp.as_slice()) {
            cur = slice_range(cur.as_slice(), 6, cur.len());
        } else if starts_with(cur.as_slice(), benchp.as_slice()) {
            cur = slice_range(cur.as_slice(), 7, cur.len());
        } else {
            return cur;
        }
    }
}

/// A function's name without its `pub::`, `test::` and `bench::` markers.
pub fn canonical_name(payload: &str) -> (res: String)
    ensures
        res@ == canonical_form(payload@),
{
    let c = chars_of(payload);
    let r = canonical_chars(c.as_slice());
    string_from_chars(r.as_slice())
}

/// Progress of the scan of a file's imports for a called function.
pub enum CallScan {
    /// No conflict so far; the candidate found, if any.
    Found(Option<Seq<char>>),
    /// Two imports gave a candidate.
    Ambiguous,
}

/// The key (canonical name) of the last target record with id `id`, if any.
pub open spec fn key_of_id(ts: Seq<TargetV>, id: Seq<char>) -> Option<Seq<char>>
    decreases ts.len(),
{
    if ts.len() == 0 {
        None
    } else if ts.last().0 == id {
        Some(ts.last().3)
    } else {
        key_of_id(ts.drop_last(), id)
    }
}

/// A record with that id exists when its key is found.
proof fn lemma_key_of_id_record(ts: Seq<TargetV>, id: Seq<char>)
    requires
        key_of_id(ts, id) is Some,
    ensures
        exists|k: int| 0 <= k < ts.len() && ts[k].0 == id,
    decreases ts.len(),
{
    if ts.last().0 == id {
        assert(ts[ts.len() - 1].0 == id);
    } else {
        lemma_key_of_id_record(ts.drop_last(), id);
        let k = choose|k: int| 0 <= k < ts.drop_last().len() && ts.drop_last()[k].0 == id;
        assert(ts[k].0 == id);
    }
}

/// The function an import gives for `fn_name`: the imported item itself when it is a function
/// of that name, or the only function of that name in the imported file.
pub open spec fn call_hit(
    ts: Seq<TargetV>,
    globals: Seq<Seq<char>>,
    fn_name: Seq<char>,
    import: Seq<char>,
) -> Option<Seq<char>> {
    if import.contains('#') {
        if key_of_id(ts, import) == Some(fn_name) {
            Some(import)
        } else {
            None
        }
    } else {
        unique(import_hits(globals, import))
    }
}

/// The scan of the first `n` imports.
pub open spec fn call_scan(
    ts: Seq<TargetV>,
    globals: Seq<Seq<char>>,
    fn_name: Seq<char>,
    imports: Seq<Seq<char>>,
    n: nat,
) -> CallScan
    decreases n,
{
    if n == 0 {
        CallScan::Found(None)
    } else {
        match call_scan(ts, globals, fn_name, imports, (n - 1) as nat) {
            CallScan::Ambiguous => CallScan::Ambiguous,
            CallScan::Found(c) => match call_hit(ts, globals, fn_name, imports[n - 1]) {
                None => CallScan::Found(c),
                Some(h) => if c is Some {
                    CallScan::Ambiguous
                } else {
                    CallScan::Found(Some(h))
                },
            },
        }
    }
}

/// Where a call placeholder `path_part::fn_name` written in `from_file` resolves to, among
/// the function records `ts`, with `edges` giving the imports: a qualified or same-file
/// function; else the one function that the file's imports give (none when two imports give
/// one); else, when no import gives one, the only function of that name anywhere.
pub open spec fn spec_resolve_call(
    path_part: Seq<char>,
    fn_name: Seq<char>,
    from_file: Seq<char>,
    ts: Seq<TargetV>,
    edges: Seq<EdgeV>,
) -> Option<Seq<char>> {
    let qualified = if contains_seq(path_part, path_sep()) {
        unique(local_ids(ts, before_sep(path_part, path_sep()), fn_name))
    } else {
        None
    };
    let imports = imports_of(edges, from_file);
    if qualified is Some {
        qualified
    } else if local_ids(ts, path_part, fn_name).len() > 0 {
        unique(local_ids(ts, path_part, fn_name))
    } else {
        match call_scan(ts, global_ids(ts, fn_name), fn_name, imports, imports.len()) {
            CallScan::Found(Some(c)) => Some(c),
            CallScan::Found(None) => unique(global_ids(ts, fn_name)),
            CallScan::Ambiguous => None,
        }
    }
}

/// The key of the last record with id `id`, computed.
fn key_of_id_exec(ts: &Vec<Target>, id: &[char]) -> (res: Option<Vec<char>>)
    ensures
        opt_chars_v(res) == key_of_id(targets_v(ts@), id@),
{
    let ghost tv = targets_v(ts@);
    let mut i: usize = ts.len();
    assert(tv.take(ts.len() as int) =~= tv);
    while i > 0
        invariant
            i <= ts.len(),
            tv == targets_v(ts@),
            key_of_id(tv, id@) == key_of_id(tv.take(i as int), id@),
        decreases i,
    {
        let ghost t = tv.take(i as int);
        assert(t.last() == ts@[i - 1]@);
        assert(t.drop_last() =~= tv.take(i - 1));
        if chars_eq(ts[i - 1].id.as_slice(), id) {
            return Some(ts[i - 1].key.clone());
        }
        i = i - 1;
    }
    assert(tv.take(0) =~= Seq::<TargetV>::empty());
    None
}

/// What an import gives for `fn_name`, computed.
fn call_hit_exec(ts: &Vec<Target>, globals: &Vec<Vec<char>>, fn_name: &[char], import: &[char]) -> (res: Option<Vec<char>>)
    ensures
        opt_chars_v(res) == call_hit(targets_v(ts@), chars_vv(globals@), fn_name@, import@),
{
    if has_char(import, '#') {
        match key_of_id_exec(ts, import) {
            Some(k) => {
                if chars_eq(k.as_slice(), fn_name) {
                    Some(slice_range(import, 0, import.len()))
                } else {
                    None
                }
            },
            None => None,
        }
    } else {
        let hits = import_hit_list(globals, import);
        unique_of(&hits)
    }
}

/// Resolve a call placeholder `path_part::fn_name` written in `from_file`.
pub fn resolve_placeholder(
    path_part: &[char],
    fn_name: &[char],
    from_file: &[char],
    ts: &Vec<Target>,
    edges: &Vec<EdgeRow>,
) -> (res: Option<Vec<char>>)
    ensures
        opt_chars_v(res) == spec_resolve_call(
            path_part@,
            fn_name@,
            from_file@,
            targets_v(ts@),
            edge_rows_v(edges@),
        ),
{
    let sep = sep_chars();
    let qualified = if contains(path_part, sep.as_slice()) {
        let file_only = before_sep_chars(path_part, sep.as_slice());
        let c = local_id_list(ts, file_only.as_slice(), fn_name);
        unique_of(&c)
    } else {
        None
    };
    if qualified.is_some() {
        return qualified;
    }
    let c = local_id_list(ts, path_part, fn_name);
    if c.len() > 0 {
        return unique_of(&c);
    }
    let globals = global_id_list(ts, fn_name);
    let imports = import_list(edges, from_file);
    let ghost tv = targets_v(ts@);
    let ghost gv = chars_vv(globals@);
    let ghost iv = chars_vv(imports@);
    assert(spec_resolve_call(path_part@, fn_name@, from_file@, tv, edge_rows_v(edges@))
        == match call_scan(tv, gv, fn_name@, iv, iv.len()) {
            CallScan::Found(Some(c)) => Some(c),
            CallScan::Found(None) => unique(gv),
            CallScan::Ambiguous => None,
        });
    let mut candidate: Option<Vec<char>> = None;
    let mut i: usize = 0;
    while i < imports.len()
        invariant
            i <= imports.len(),
            tv == targets_v(ts@),
            gv == chars_vv(globals@),
            iv == chars_vv(imports@),
            spec_resolve_call(path_part@, fn_name@, from_file@, tv, edge_rows_v(edges@))
                == match call_scan(tv, gv, fn_name@, iv, iv.len()) {
                CallScan::Found(Some(c)) => Some(c),
                CallScan::Found(None) => unique(gv),
                CallScan::Ambiguous => None,
            },
            call_scan(tv, gv, fn_name@, iv, i as nat) == CallScan::Found(opt_chars_v(candidate)),
        decreases imports.len() - i,
    {
        assert(iv[i as int] == imports@[i as int]@);
        let hit = call_hit_exec(ts, &globals, fn_name, imports[i].as_slice());
        match hit {
            Some(h) => {
                if candidate.is_some() {
                    proof {
                        assert(call_hit(tv, gv, fn_name@, iv[i as int]) == Some(h@));
                        assert(call_scan(tv, gv, fn_name@, iv, (i + 1) as nat) == CallScan::Ambiguous);
                        lemma_call_scan_stuck(tv, gv, fn_name@, iv, (i + 1) as nat, iv.len());
                    }
                    return None;
                }
                candidate = Some(h);
            },
            None => {},
        }
        i = i + 1;
    }
    if candidate.is_some() {
        return candidate;
    }
    unique_of(&globals)
}

/// Once two imports have given a candidate, the scan stays ambiguous.
proof fn lemma_call_scan_stuck(
    ts: Seq<TargetV>,
    globals: Seq<Seq<char>>,
    fn_name: Seq<char>,
    imports: Seq<Seq<char>>,
    n: nat,
    m: nat,
)
    requires
        n <= m,
        call_scan(ts, globals, fn_name, imports, n) == CallScan::Ambiguous,
    ensures
        call_scan(ts, globals, fn_name, imports, m) == CallScan::Ambiguous,
    decreases m,
{
    if m > n {
        lemma_call_scan_stuck(ts, globals, fn_name, imports, n, (m - 1) as nat);
    }
}

/// The (path part, function name) of a call placeholder: a qualified call `file::a::b::f`
/// resolves `f` with path part `file::a::b`.
pub open spec fn call_parts(to: Seq<char>) -> (Seq<char>, Seq<char>) {
    let (pp, rest) = split_once(to, path_sep())->0;
    match rsplit_once(rest, path_sep()) {
        Some((suffix, name)) => (pp + path_sep() + suffix, name),
        None => (pp, rest),
    }
}

/// A `calls` edge whose target has a `::`.
pub open spec fn is_call_placeholder(e: EdgeV) -> bool {
    e.2 == EdgeType::Calls.name() && split_once(e.1, path_sep()) is Some
}

/// Where a call placeholder edge resolves to.
pub open spec fn call_resolution(ts: Seq<TargetV>, snap: Seq<EdgeV>, e: EdgeV) -> Option<Seq<char>> {
    spec_resolve_call(call_parts(e.1).0, call_parts(e.1).1, file_of(e.0), ts, snap)
}

/// The function records the call graph resolves against: function nodes with a payload,
/// keyed by canonical name.
pub open spec fn function_targets(store: Store) -> Seq<TargetV> {
    targets(store.node_rows(), seq![NodeType::Function.name()], true)
}

/// Resolve the placeholder call targets (`file::fn_name`) to function node ids.
///
/// Each `calls` edge whose target has a `::` is replaced by an edge to the function it
/// resolves to, or dropped when it resolves to none or to more than one.
pub fn build_call_graph(store: &mut Store)
    requires
        old(store).wf(),
    ensures
        final(store).wf(),
        final(store).edge_set() == rewrite_edges(
            old(store).edge_rows(),
            old(store).edge_rows().len(),
            old(store).edge_set(),
            |e: EdgeV| is_call_placeholder(e),
            |e: EdgeV| call_resolution(function_targets(*old(store)), old(store).edge_rows(), e),
        ),
        final(store).node_rows() == old(store).node_rows(),
        final(store).dead_rows() == old(store).dead_rows(),
{
    let snap = copy_edge_rows(store.edge_row_vec());
    let types = [NodeType::Function.as_str()];
    assert(names_v(types@) =~= seq![NodeType::Function.name()]);
    let ts = collect_targets(store, &types, true);
    let ghost sv = old(store).edge_rows();
    let ghost tv = function_targets(*old(store));
    let ghost sel = |e: EdgeV| is_call_placeholder(e);
    let ghost tgt = |e: EdgeV| call_resolution(tv, sv, e);
    let calls_str = EdgeType::Calls.as_str();
    let sep = sep_chars();
    let mut i: usize = 0;
    while i < snap.len()
        invariant
            i <= snap.len(),
            store.wf(),
            edge_rows_v(snap@) == sv,
            sv == old(store).edge_rows(),
            targets_v(ts@) == tv,
            calls_str@ == EdgeType::Calls.name(),
            sep@ == path_sep(),
            sel == (|e: EdgeV| is_call_placeholder(e)),
            tgt == (|e: EdgeV| call_resolution(tv, sv, e)),
            store.edge_set() == rewrite_edges(sv, i as nat, old(store).edge_set(), sel, tgt),
            store.node_rows() == old(store).node_rows(),
            store.dead_rows() == old(store).dead_rows(),
        decreases snap.len() - i,
    {
        let e = &snap[i];
        let ghost ev = e@;
        assert(sv[i as int] == ev);
        if crate::text::str_eq(e.edge_type.as_str(), calls_str) {
            let to = chars_of(e.to_id.as_str());
            match split_once_chars(to.as_slice(), sep.as_slice()) {
                Some((pp, rest)) => {
                    assert(sel(ev));
                    let (path_part, fn_name) = match rsplit_once_chars(
                        rest.as_slice(),
                        sep.as_slice(),
                    ) {
                        Some((suffix, name)) => {
                            let a = concat(pp.as_slice(), sep.as_slice());
                            (concat(a.as_slice(), suffix.as_slice()), name)
                        },
                        None => (pp, rest),
                    };
                    assert((path_part@, fn_name@) == call_parts(ev.1));
                    let from = chars_of(e.from_id.as_str());
                    let from_file = prefix_before_char(from.as_slice(), '#');
                    let resolved = resolve_placeholder(
                        path_part.as_slice(),
                        fn_name.as_slice(),
                        from_file.as_slice(),
                        &ts,
                        &snap,
                    );
                    let from_id = NodeId(e.from_id.clone());
                    store.remove_edge(&from_id, &NodeId(e.to_id.clone()), &EdgeType::Calls);
                    match resolved {
                        Some(t) => {
                            let target = NodeId(string_from_chars(t.as_slice()));
                            store.put_edge(&from_id, &target, &EdgeType::Calls);
                        },
                        None => {},
                    }
                },
                None => {
                    assert(!sel(ev));
                },
            }
        } else {
            assert(!sel(ev));
        }
        i = i + 1;
    }
}

/// A canonical name carries none of the markers.
proof fn lemma_canonical_has_no_marker(p: Seq<char>)
    ensures
        !has_prefix(canonical_form(p), pub_prefix()),
        !has_prefix(canonical_form(p), test_prefix()),
        !has_prefix(canonical_form(p), bench_prefix()),
    decreases p.len(),
{
    if has_prefix(p, pub_prefix()) {
        lemma_canonical_has_no_marker(p.skip(5));
    } else if has_prefix(p, test_prefix()) {
        lemma_canonical_has_no_marker(p.skip(6));
    } else if has_prefix(p, bench_prefix()) {
        lemma_canonical_has_no_marker(p.skip(7));
    }
}

/// Taking the markers off twice is taking them off once.
pub proof fn law_canonical_name_idempotent(p: Seq<char>)
    ensures
        canonical_form(canonical_form(p)) == canonical_form(p),
{
    lemma_canonical_has_no_marker(p);
}

/// A call placeholder resolves only to the id of one of the function records.
pub proof fn law_call_resolves_to_function(
    path_part: Seq<char>,
    fn_name: Seq<char>,
    from_file: Seq<char>,
    ts: Seq<TargetV>,
    edges: Seq<EdgeV>,
)
    requires
        spec_resolve_call(path_part, fn_name, from_file, ts, edges) is Some,
    ensures
        exists|k: int|
            0 <= k < ts.len() && ts[k].0 == spec_resolve_call(path_part, fn_name, from_file, ts, edges)->0,
{
    let qualified = if contains_seq(path_part, path_sep()) {
        unique(local_ids(ts, before_sep(path_part, path_sep()), fn_name))
    } else {
        None
    };
    let imports = imports_of(edges, from_file);
    if qualified is Some {
        lemma_local_id_from(ts, before_sep(path_part, path_sep()), fn_name, 0);
    } else if local_ids(ts, path_part, fn_name).len() > 0 {
        lemma_local_id_from(ts, path_part, fn_name, 0);
    } else {
        lemma_call_scan_picks_function(ts, global_ids(ts, fn_name), fn_name, imports, imports.len());
        if global_ids(ts, fn_name).len() > 0 {
            lemma_global_id_from(ts, fn_name, 0);
        }
    }
}

/// What the scan of a file's imports finds is the id of one of the function records.
proof fn lemma_call_scan_picks_function(
    ts: Seq<TargetV>,
    globals: Seq<Seq<char>>,
    fn_name: Seq<char>,
    imports: Seq<Seq<char>>,
    n: nat,
)
    requires
        n <= imports.len(),
        globals == global_ids(ts, fn_name),
    ensures
        call_scan(ts, globals, fn_name, imports, n) matches CallScan::Found(Some(x)) ==> exists|k: int|
            0 <= k < ts.len() && ts[k].0 == x,
    decreases n,
{
    if n > 0 {
        lemma_call_scan_picks_function(ts, globals, fn_name, imports, (n - 1) as nat);
        let import = imports[n - 1];
        match call_hit(ts, globals, fn_name, import) {
            Some(h) => {
                if import.contains('#') {
                    lemma_key_of_id_record(ts, import);
                } else {
                    let hits = import_hits(globals, import);
                    assert(hits.contains(hits[0]));
                    globals.lemma_filter_contains_rev(|id: Seq<char>| in_import(import, id), hits[0]);
                    let j = choose|j: int| 0 <= j < globals.len() && globals[j] == hits[0];
                    lemma_global_id_from(ts, fn_name, j);
                }
            },
            None => {},
        }
    }
}

} // verus!
