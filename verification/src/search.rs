//! Text search (substring match) over node payloads.

use vstd::prelude::*;

use crate::graph::query::{clone_rows, lemma_filter_ends, lemma_filter_step};
use crate::graph::store::{node_rows_v, NodeRow, NodeV, Store};
use crate::text::{chars_of, contains, contains_seq, lowercase, to_lowercase};

verus! {

/// A node row whose payload contains the query (both lowercased when `case_insensitive`).
pub open spec fn matches_query(r: NodeV, query: Seq<char>, case_insensitive: bool) -> bool {
    match r.2 {
        Some(p) => if case_insensitive {
            contains_seq(lowercase(p), lowercase(query))
        } else {
            contains_seq(p, query)
        },
        None => false,
    }
}

/// The matching rows, in node order.
pub open spec fn search_matches(store: Store, query: Seq<char>, case_insensitive: bool) -> Seq<NodeV> {
    store.node_rows().filter(|r: NodeV| matches_query(r, query, case_insensitive))
}

/// The page of `s` that skips `offset` elements and keeps at most `limit`.
pub open spec fn page<A>(s: Seq<A>, limit: int, offset: int) -> Seq<A> {
    let rest = if offset < s.len() {
        s.skip(offset)
    } else {
        Seq::empty()
    };
    if limit < rest.len() {
        rest.take(limit)
    } else {
        rest
    }
}

/// Runs a text search over node payloads (substring match) with pagination: the page of
/// matches after skipping `offset` and keeping at most `limit`, and the total match count.
pub fn text_search(
    store: &Store,
    query: &str,
    case_insensitive: bool,
    limit: usize,
    offset: usize,
) -> (res: (Vec<NodeRow>, usize))
    ensures
        node_rows_v(res.0@) == page(
            search_matches(*store, query@, case_insensitive),
            limit as int,
            offset as int,
        ),
        res.1 == search_matches(*store, query@, case_insensitive).len(),
{
    let rows = store.node_row_vec();
    let q = if case_insensitive {
        let l = to_lowercase(query);
        chars_of(l.as_str())
    } else {
        chars_of(query)
    };
    let ghost nv = store.node_rows();
    let ghost pred = |r: NodeV| matches_query(r, query@, case_insensitive);
    let mut all: Vec<NodeRow> = Vec::new();
    let mut i: usize = 0;
    proof {
        lemma_filter_ends(nv, pred);
    }
    while i < rows.len()
        invariant
            i <= rows.len(),
            nv == store.node_rows(),
            nv == node_rows_v(rows@),
            q@ == (if case_insensitive {
                lowercase(query@)
            } else {
                query@
            }),
            pred == (|r: NodeV| matches_query(r, query@, case_insensitive)),
            node_rows_v(all@) == nv.take(i as int).filter(pred),
        decreases rows.len() - i,
    {
        let r = &rows[i];
        proof {
            lemma_filter_step(nv, i as int, pred);
            assert(nv[i as int] == r@);
        }
        let hit = match &r.payload {
            Some(p) => {
                let pc = if case_insensitive {
                    let l = to_lowercase(p.as_str());
                    chars_of(l.as_str())
                } else {
                    chars_of(p.as_str())
                };
                contains(pc.as_slice(), q.as_slice())
            },
            None => false,
        };
        if hit {
            let ghost before = all@;
            all.push(r.clone());
            proof {
                assert(node_rows_v(all@) =~= node_rows_v(before).push(r@));
            }
        }
        i = i + 1;
    }
    proof {
        lemma_filter_ends(nv, pred);
    }
    let total = all.len();
    let mut out: Vec<NodeRow> = Vec::new();
    let ghost av = node_rows_v(all@);
    if offset < all.len() {
        let mut j: usize = offset;
        while j < all.len() && j - offset < limit
            invariant
                offset <= j <= all.len(),
                av == node_rows_v(all@),
                node_rows_v(out@) == av.subrange(offset as int, j as int),
                j - offset <= limit,
            decreases all.len() - j,
        {
            let ghost before = out@;
            out.push(all[j].clone());
            proof {
                assert(node_rows_v(out@) =~= node_rows_v(before).push(all@[j as int]@));
                assert(av[j as int] == all@[j as int]@);
                assert(node_rows_v(out@) =~= av.subrange(offset as int, j + 1));
            }
            j = j + 1;
        }
        proof {
            let rest = av.skip(offset as int);
            if limit < rest.len() {
                assert(av.subrange(offset as int, j as int) =~= rest.take(limit as int));
            } else {
                assert(av.subrange(offset as int, j as int) =~= rest);
            }
        }
    } else {
        assert(node_rows_v(out@) =~= Seq::<NodeV>::empty());
    }
    (out, total)
}

/// A page holds at most `limit` rows, and the rows it skips and holds are at most all of
/// them; each row of the page is the row at that place after the skipped ones.
pub proof fn law_page_bounds<A>(s: Seq<A>, limit: int, offset: int, k: int)
    requires
        0 <= limit,
        0 <= offset,
    ensures
        page(s, limit, offset).len() <= limit,
        offset < s.len() ==> offset + page(s, limit, offset).len() <= s.len(),
        offset >= s.len() ==> page(s, limit, offset).len() == 0,
        0 <= k < page(s, limit, offset).len() ==> page(s, limit, offset)[k] == s[offset + k],
{
}

/// A stored row is found by a search exactly when it has a payload that contains the query:
/// with `case_insensitive`, the lowercase of the payload contains the lowercase of the query
/// (both are lowercased); without it, the payload itself contains the query itself.
pub proof fn law_search_matches_payload(store: Store, query: Seq<char>, r: NodeV)
    ensures
        search_matches(store, query, true).contains(r) <==> (store.node_rows().contains(r) && r.2 is Some
            && contains_seq(lowercase(r.2->0), lowercase(query))),
        search_matches(store, query, false).contains(r) <==> (store.node_rows().contains(r) && r.2 is Some
            && contains_seq(r.2->0, query)),
{
    lemma_found_iff(store, query, true, r);
    lemma_found_iff(store, query, false, r);
}

proof fn lemma_found_iff(store: Store, query: Seq<char>, ci: bool, r: NodeV)
    ensures
        search_matches(store, query, ci).contains(r) <==> (store.node_rows().contains(r) && matches_query(
            r,
            query,
            ci,
        )),
{
    let pred = |x: NodeV| matches_query(x, query, ci);
    let rows = store.node_rows();
    if search_matches(store, query, ci).contains(r) {
        rows.lemma_filter_contains_rev(pred, r);
        let f = rows.filter(pred);
        let k = choose|k: int| 0 <= k < f.len() && f[k] == r;
        rows.lemma_filter_pred(pred, k);
    }
    if rows.contains(r) && matches_query(r, query, ci) {
        let i = choose|i: int| 0 <= i < rows.len() && rows[i] == r;
        rows.lemma_filter_contains(pred, i);
    }
}

} // verus!
