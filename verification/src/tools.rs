//! The decisions behind the MCP tools: argument defaults and bounds, the dead code page, and
//! the read-only check on query scripts.

use vstd::prelude::*;

use crate::graph::query::Query;
use crate::graph::store::{strings_v, Store};
use crate::ops::{glob_error, glob_matches};
use crate::pipeline::ast::decimal_chars;
use crate::search::page;
use crate::text::{chars_of, concat, contains, contains_seq, lowercase, string_from_chars, to_lowercase, trim, trim_chars};

verus! {

/// The `limit` argument: the value given (or `default`), at most `cap`, as a `usize`
/// (saturating).
pub open spec fn spec_limit(requested: Option<u64>, default: u64, cap: u64) -> int {
    let v = match requested {
        Some(v) => v,
        None => default,
    };
    let m = if v < cap {
        v
    } else {
        cap
    };
    if m <= usize::MAX {
        m as int
    } else {
        usize::MAX as int
    }
}

/// The `limit` argument of a tool call.
pub fn parse_limit(requested: Option<u64>, default: u64, cap: u64) -> (res: usize)
    ensures
        res == spec_limit(requested, default, cap),
{
    let v = match requested {
        Some(v) => v,
        None => default,
    };
    let m = if v < cap {
        v
    } else {
        cap
    };
    if m as u128 <= usize::MAX as u128 {
        m as usize
    } else {
        usize::MAX
    }
}

/// The `offset` argument of a tool call: the value given, or 0 (also when it does not fit a
/// `usize`).
pub fn parse_offset(requested: Option<u64>) -> (res: usize)
    ensures
        res == match requested {
            Some(v) => if v <= usize::MAX {
                v as int
            } else {
                0
            },
            None => 0,
        },
{
    match requested {
        Some(v) => {
            if v as u128 <= usize::MAX as u128 {
                v as usize
            } else {
                0
            }
        },
        None => 0,
    }
}

/// The `depth` argument of a tool call: the value given, or 1, at most 100.
pub fn parse_depth(requested: Option<u64>) -> (res: u32)
    ensures
        res == match requested {
            Some(v) => if v < 100 {
                v as int
            } else {
                100
            },
            None => 1,
        },
{
    match requested {
        Some(v) => {
            if v < 100 {
                v as u32
            } else {
                100
            }
        },
        None => 1,
    }
}

/// The mutation directives a query script may not hold.
pub open spec fn mutation_directives() -> Seq<Seq<char>> {
    seq![":put"@, ":rm"@, ":create"@, ":replace"@, ":remove"@]
}

/// The first mutation directive (in the order `:put`, `:rm`, `:create`, `:replace`,
/// `:remove`) that the lowercased script holds, if any.
pub open spec fn first_directive(script: Seq<char>, k: nat) -> Option<Seq<char>>
    decreases 5 - k,
{
    if k >= 5 {
        None
    } else if contains_seq(lowercase(script), mutation_directives()[k as int]) {
        Some(mutation_directives()[k as int])
    } else {
        first_directive(script, k + 1)
    }
}

/// The mutation directive a query script holds (case-insensitively), if any: such a script
/// is refused, since the query tool is read-only.
pub fn mutation_directive(script: &str) -> (res: Option<&'static str>)
    ensures
        match res {
            Some(d) => first_directive(script@, 0) == Some(d@),
            None => first_directive(script@, 0) is None,
        },
{
    let directives: [&'static str; 5] = [":put", ":rm", ":create", ":replace", ":remove"];
    assert(directives@.map_values(|d: &str| d@) =~= mutation_directives());
    let lower = to_lowercase(script);
    let lc = chars_of(lower.as_str());
    let mut k: usize = 0;
    while k < 5
        invariant
            k <= 5,
            directives@.map_values(|d: &str| d@) == mutation_directives(),
            lc@ == lowercase(script@),
            first_directive(script@, 0) == first_directive(script@, k as nat),
        decreases 5 - k,
    {
        let d = directives[k];
        assert(d@ == mutation_directives()[k as int]);
        if contains(lc.as_slice(), chars_of(d).as_slice()) {
            return Some(d);
        }
        k = k + 1;
    }
    None
}

/// The refusal message for a script with a mutation directive.
pub fn mutation_error(directive: &str) -> (res: String)
    ensures
        res@ == "Script may not contain mutation directive "@ + directive@,
{
    let m = concat(
        chars_of("Script may not contain mutation directive ").as_slice(),
        chars_of(directive).as_slice(),
    );
    string_from_chars(m.as_slice())
}

/// The script the query tool runs: trimmed, with a `:limit {limit}` line added.
pub fn limited_script(script: &str, limit: usize) -> (res: String)
    ensures
        res@ == trim(script@) + "\n:limit "@ + crate::pipeline::ast::decimal(limit as nat),
{
    let t = trim_chars(chars_of(script).as_slice());
    let a = concat(t.as_slice(), chars_of("\n:limit ").as_slice());
    let b = concat(a.as_slice(), decimal_chars(limit).as_slice());
    string_from_chars(b.as_slice())
}

/// A page of dead function ids.
#[derive(Debug)]
pub struct DeadCodePage {
    pub dead_node_ids: Vec<String>,
    pub count: usize,
    pub total_filtered: usize,
    pub offset: usize,
    pub limit: usize,
    pub source: String,
}

/// The dead function ids the dead code tool starts from, and where they come from: the
/// recorded ones, or, when none are recorded, those computed by reachability.
pub open spec fn dead_ids_and_source(store: Store) -> (Seq<Seq<char>>, Seq<char>) {
    if store.dead_rows().len() == 0 {
        (
            crate::graph::query::dead_function_rows(store).map_values(
                |r: crate::graph::store::NodeV| r.0,
            ),
            "computed"@,
        )
    } else {
        (store.dead_rows(), "stored"@)
    }
}

/// The ids that pass the tool's filters: the glob on the id, and the node type.
pub open spec fn dead_id_filtered(
    store: Store,
    ids: Seq<Seq<char>>,
    file_glob: Option<Seq<char>>,
    node_type: Option<Seq<char>>,
) -> Seq<Seq<char>> {
    let a = if file_glob is Some {
        ids.filter(|id: Seq<char>| glob_matches(file_glob->0, id))
    } else {
        ids
    };
    if node_type is Some {
        a.filter(
            |id: Seq<char>|
                store.node_map().contains_key(id) && store.node_map()[id].0 == node_type->0,
        )
    } else {
        a
    }
}

/// Whether `id` is kept by the node type filter.
fn has_node_type(store: &Store, id: &str, t: &str) -> (res: bool)
    requires
        store.wf(),
    ensures
        res == (store.node_map().contains_key(id@) && store.node_map()[id@].0 == t@),
{
    match crate::graph::query::find_node(store, id) {
        Some(i) => {
            let rows = store.node_row_vec();
            assert(rows@[i as int]@ == store.node_rows()[i as int]);
            crate::text::str_eq(rows[i].node_type.as_str(), t)
        },
        None => false,
    }
}

/// The dead code tool: the dead function ids (recorded, else computed), kept when they match
/// the file glob and have the node type given, then paged by `offset` and `limit`. Fails with
/// `Invalid glob pattern: ...` when the glob does not compile.
pub fn dead_code_page(
    store: &Store,
    file_glob: Option<&str>,
    node_type: Option<&str>,
    offset: usize,
    limit: usize,
) -> (res: Result<DeadCodePage, String>)
    requires
        store.wf(),
    ensures
        match file_glob {
            Some(p) => match glob_error(p@) {
                Some(e) => res matches Err(m) && m@ == "Invalid glob pattern: "@ + e,
                None => res is Ok,
            },
            None => res is Ok,
        },
        res matches Ok(r) ==> {
            let all = dead_id_filtered(
                *store,
                dead_ids_and_source(*store).0,
                match file_glob {
                    Some(p) => Some(p@),
                    None => None,
                },
                match node_type {
                    Some(t) => Some(t@),
                    None => None,
                },
            );
            &&& strings_v(r.dead_node_ids@) == page(all, limit as int, offset as int)
            &&& r.count == r.dead_node_ids@.len()
            &&& r.total_filtered == all.len()
            &&& r.offset == offset
            &&& r.limit == limit
            &&& r.source@ == dead_ids_and_source(*store).1
        },
{
    let stored = Query::stored_dead_functions(store);
    let (ids, source) = if stored.len() == 0 {
        (Query::compute_dead_functions(store), "computed")
    } else {
        (stored, "stored")
    };
    let ghost iv = strings_v(ids@);
    assert(iv == dead_ids_and_source(*store).0);
    assert(source@ == dead_ids_and_source(*store).1);
    let ghost gopt = match file_glob {
        Some(p) => Some(p@),
        None => None::<Seq<char>>,
    };
    let ghost topt = match node_type {
        Some(t) => Some(t@),
        None => None::<Seq<char>>,
    };
    let filtered = match file_glob {
        None => ids,
        Some(p) => {
            match crate::ops::glob_pattern_error(p) {
                Some(e) => {
                    let m = concat(chars_of("Invalid glob pattern: ").as_slice(), chars_of(e.as_str()).as_slice());
                    return Err(string_from_chars(m.as_slice()));
                },
                None => {},
            }
            let ghost pred = |id: Seq<char>| glob_matches(p@, id);
            let mut out: Vec<String> = Vec::new();
            let mut i: usize = 0;
            proof {
                crate::graph::query::lemma_filter_ends(iv, pred);
            }
            while i < ids.len()
                invariant
                    i <= ids.len(),
                    glob_error(p@) is None,
                    iv == strings_v(ids@),
                    pred == (|id: Seq<char>| glob_matches(p@, id)),
                    strings_v(out@) == iv.take(i as int).filter(pred),
                decreases ids.len() - i,
            {
                proof {
                    crate::graph::query::lemma_filter_step(iv, i as int, pred);
                    assert(iv[i as int] == ids@[i as int]@);
                }
                if crate::ops::glob_pattern_matches(p, ids[i].as_str()) {
                    let ghost before = strings_v(out@);
                    out.push(ids[i].clone());
                    assert(strings_v(out@) =~= before.push(ids@[i as int]@));
                }
                i = i + 1;
            }
            proof {
                crate::graph::query::lemma_filter_ends(iv, pred);
                assert(gopt == Some(p@));
                let q = |id: Seq<char>| glob_matches(gopt->0, id);
                assert(pred =~= q);
                assert(strings_v(out@) == iv.filter(q));
            }
            out
        },
    };
    let ghost fv = strings_v(filtered@);
    assert(fv == if gopt is Some {
        iv.filter(|id: Seq<char>| glob_matches(gopt->0, id))
    } else {
        iv
    });
    let typed = match node_type {
        None => filtered,
        Some(t) => {
            let ghost pred = |id: Seq<char>| store.node_map().contains_key(id) && store.node_map()[id].0 == t@;
            let mut out: Vec<String> = Vec::new();
            let mut i: usize = 0;
            proof {
                crate::graph::query::lemma_filter_ends(fv, pred);
            }
            while i < filtered.len()
                invariant
                    i <= filtered.len(),
                    store.wf(),
                    fv == strings_v(filtered@),
                    pred == (|id: Seq<char>| store.node_map().contains_key(id) && store.node_map()[id].0 == t@),
                    strings_v(out@) == fv.take(i as int).filter(pred),
                decreases filtered.len() - i,
            {
                proof {
                    crate::graph::query::lemma_filter_step(fv, i as int, pred);
                    assert(fv[i as int] == filtered@[i as int]@);
                }
                if has_node_type(store, filtered[i].as_str(), t) {
                    let ghost before = strings_v(out@);
                    out.push(filtered[i].clone());
                    assert(strings_v(out@) =~= before.push(filtered@[i as int]@));
                }
                i = i + 1;
            }
            proof {
                crate::graph::query::lemma_filter_ends(fv, pred);
                assert(topt == Some(t@));
                let q = |id: Seq<char>| store.node_map().contains_key(id) && store.node_map()[id].0 == topt->0;
                assert(pred =~= q);
                assert(strings_v(out@) == fv.filter(q));
            }
            out
        },
    };
    let ghost tv = strings_v(typed@);
    assert(tv == dead_id_filtered(*store, iv, gopt, topt));
    let total_filtered = typed.len();
    let mut paged: Vec<String> = Vec::new();
    if offset < typed.len() {
        let end = if limit < typed.len() - offset {
            offset + limit
        } else {
            typed.len()
        };
        let mut j: usize = offset;
        assert(tv.subrange(offset as int, offset as int) =~= Seq::<Seq<char>>::empty());
        while j < end
            invariant
                offset <= j <= end,
                end <= typed.len(),
                tv == strings_v(typed@),
                strings_v(paged@) == tv.subrange(offset as int, j as int),
            decreases end - j,
        {
            let ghost before = strings_v(paged@);
            paged.push(typed[j].clone());
            assert(strings_v(paged@) =~= before.push(tv[j as int]));
            assert(tv.subrange(offset as int, j + 1) =~= tv.subrange(offset as int, j as int).push(
                tv[j as int],
            ));
            j = j + 1;
        }
        proof {
            if limit < tv.len() - offset {
                assert(tv.subrange(offset as int, offset + limit) =~= tv.skip(offset as int).take(
                    limit as int,
                ));
            } else {
                assert(tv.subrange(offset as int, tv.len() as int) =~= tv.skip(offset as int));
            }
        }
    } else {
        assert(strings_v(paged@) =~= Seq::<Seq<char>>::empty());
    }
    let count = paged.len();
    Ok(DeadCodePage { dead_node_ids: paged, count, total_filtered, offset, limit, source: source.to_owned() })
}

} // verus!
