//! Reachability over a list of directed steps between ids.

use vstd::prelude::*;

use crate::graph::store::{no_dups, strings_v};

verus! {

/// Abstract step list: (from, to) pairs.
pub type Steps = Seq<(Seq<char>, Seq<char>)>;

/// The abstract steps of a vector of (from, to) string pairs.
pub open spec fn steps_v(v: Seq<(String, String)>) -> Steps {
    v.map_values(|p: (String, String)| (p.0@, p.1@))
}

/// `w` is a walk: a non-empty sequence of ids, each consecutive pair a step.
pub open spec fn is_walk(steps: Steps, w: Seq<Seq<char>>) -> bool {
    w.len() > 0 && forall|k: int| 0 <= k < w.len() - 1 ==> #[trigger] steps.contains((w[k], w[k + 1]))
}

/// `x` is reached by a walk that begins at one of `starts`.
pub open spec fn reachable(steps: Steps, starts: Set<Seq<char>>, x: Seq<char>) -> bool {
    exists|w: Seq<Seq<char>>| is_walk(steps, w) && starts.contains(w[0]) && w.last() == x
}

/// Every step out of `set` lands in `set`.
pub open spec fn closed_under(steps: Steps, set: Set<Seq<char>>) -> bool {
    forall|a: Seq<char>, b: Seq<char>|
        set.contains(a) && #[trigger] steps.contains((a, b)) ==> set.contains(b)
}

/// A set that holds the starts and is closed under the steps holds every reachable id.
pub proof fn lemma_closed_holds_reachable(
    steps: Steps,
    starts: Set<Seq<char>>,
    set: Set<Seq<char>>,
    x: Seq<char>,
)
    requires
        starts.subset_of(set),
        closed_under(steps, set),
        reachable(steps, starts, x),
    ensures
        set.contains(x),
{
    let w = choose|w: Seq<Seq<char>>| is_walk(steps, w) && starts.contains(w[0]) && w.last() == x;
    lemma_walk_in_closed(steps, set, w, w.len() - 1);
}

proof fn lemma_walk_in_closed(steps: Steps, set: Set<Seq<char>>, w: Seq<Seq<char>>, k: int)
    requires
        is_walk(steps, w),
        set.contains(w[0]),
        closed_under(steps, set),
        0 <= k < w.len(),
    ensures
        set.contains(w[k]),
    decreases k,
{
    if k > 0 {
        lemma_walk_in_closed(steps, set, w, k - 1);
        let j = k - 1;
        assert(steps.contains((w[j], w[j + 1])));
        assert(set.contains(w[j]));
    }
}

/// Extending a walk to `x` by a step from `x` to `y` reaches `y`.
pub proof fn lemma_reach_step(steps: Steps, starts: Set<Seq<char>>, x: Seq<char>, y: Seq<char>)
    requires
        reachable(steps, starts, x),
        steps.contains((x, y)),
    ensures
        reachable(steps, starts, y),
{
    let w = choose|w: Seq<Seq<char>>| is_walk(steps, w) && starts.contains(w[0]) && w.last() == x;
    let w2 = w.push(y);
    assert forall|k: int| 0 <= k < w2.len() - 1 implies #[trigger] steps.contains((w2[k], w2[k + 1])) by {
        if k < w.len() - 1 {
            assert(steps.contains((w[k], w[k + 1])));
        }
    }
    assert(is_walk(steps, w2) && starts.contains(w2[0]) && w2.last() == y);
}

/// Every start is reachable (by the walk of one id).
pub proof fn lemma_start_reachable(steps: Steps, starts: Set<Seq<char>>, x: Seq<char>)
    requires
        starts.contains(x),
    ensures
        reachable(steps, starts, x),
{
    let w = seq![x];
    assert(is_walk(steps, w) && starts.contains(w[0]) && w.last() == x);
}

/// Whether `s` is among `v`.
pub fn contains_string(v: &Vec<String>, s: &String) -> (res: bool)
    ensures
        res == strings_v(v@).contains(s@),
{
    let mut i: usize = 0;
    while i < v.len()
        invariant
            i <= v.len(),
            forall|k: int| 0 <= k < i ==> strings_v(v@)[k] != s@,
        decreases v.len() - i,
    {
        if v[i] == *s {
            assert(strings_v(v@)[i as int] == s@);
            return true;
        }
        i = i + 1;
    }
    false
}

/// The candidate ids: the starts followed by every step target.
spec fn candidates(steps: Steps, starts: Seq<Seq<char>>) -> Seq<Seq<char>> {
    starts + steps.map_values(|p: (Seq<char>, Seq<char>)| p.1)
}

proof fn lemma_len_bound(v: Seq<Seq<char>>, cand: Seq<Seq<char>>)
    requires
        no_dups(v),
        forall|k: int| 0 <= k < v.len() ==> cand.contains(#[trigger] v[k]),
    ensures
        v.len() <= cand.len(),
{
    assert(v.no_duplicates());
    v.unique_seq_to_set();
    cand.lemma_cardinality_of_set();
    assert(v.to_set().subset_of(cand.to_set()));
    vstd::set_lib::lemma_len_subset(v.to_set(), cand.to_set());
}

/// All ids reachable from `starts` by `steps`, each once.
pub fn reach_closure(steps: &Vec<(String, String)>, starts: &Vec<String>) -> (res: Vec<String>)
    ensures
        no_dups(strings_v(res@)),
        forall|x: Seq<char>|
            strings_v(res@).contains(x) <==> reachable(
                steps_v(steps@),
                strings_v(starts@).to_set(),
                x,
            ),
{
    let ghost sv = steps_v(steps@);
    let ghost st = strings_v(starts@).to_set();
    let ghost cand = candidates(sv, strings_v(starts@));
    let mut visited: Vec<String> = Vec::new();
    let mut i: usize = 0;
    while i < starts.len()
        invariant
            i <= starts.len(),
            sv == steps_v(steps@),
            st == strings_v(starts@).to_set(),
            cand == candidates(sv, strings_v(starts@)),
            no_dups(strings_v(visited@)),
            forall|k: int| 0 <= k < i ==> strings_v(visited@).contains(#[trigger] strings_v(starts@)[k]),
            forall|x: Seq<char>| strings_v(visited@).contains(x) ==> st.contains(x),
        decreases starts.len() - i,
    {
        let s = &starts[i];
        assert(strings_v(starts@)[i as int] == s@);
        if !contains_string(&visited, s) {
            let ghost before = strings_v(visited@);
            visited.push(s.clone());
            proof {
                assert(strings_v(visited@) =~= before.push(s@));
                assert(st.contains(s@));
                assert forall|k: int| 0 <= k < i implies strings_v(visited@).contains(
                    #[trigger] strings_v(starts@)[k],
                ) by {
                    assert(before.contains(strings_v(starts@)[k]));
                    let m = choose|m: int| 0 <= m < before.len() && before[m] == strings_v(starts@)[k];
                    assert(strings_v(visited@)[m] == before[m]);
                }
                assert(strings_v(visited@)[before.len() as int] == s@);
            }
        }
        i = i + 1;
    }
    proof {
        let vs = strings_v(visited@);
        let sts = strings_v(starts@);
        assert forall|y: Seq<char>| st.contains(y) implies vs.to_set().contains(y) by {
            let k = choose|k: int| 0 <= k < sts.len() && sts[k] == y;
            assert(vs.contains(sts[k]));
        }
        assert forall|x: Seq<char>| vs.contains(x) implies reachable(sv, st, x) by {
            lemma_start_reachable(sv, st, x);
        }
        assert forall|x: Seq<char>| vs.contains(x) implies cand.contains(x) by {
            assert(st.contains(x));
            assert(sts.contains(x));
            let k = choose|k: int| 0 <= k < sts.len() && sts[k] == x;
            assert(cand[k] == x);
        }
    }
    let mut idx: usize = 0;
    while idx < visited.len()
        invariant
            idx <= visited.len(),
            sv == steps_v(steps@),
            st == strings_v(starts@).to_set(),
            cand == candidates(sv, strings_v(starts@)),
            no_dups(strings_v(visited@)),
            st.subset_of(strings_v(visited@).to_set()),
            forall|x: Seq<char>| strings_v(visited@).contains(x) ==> reachable(sv, st, x),
            forall|x: Seq<char>| strings_v(visited@).contains(x) ==> cand.contains(x),
            forall|j: int, b: Seq<char>|
                0 <= j < idx && sv.contains((strings_v(visited@)[j], b)) ==> strings_v(
                    visited@,
                ).contains(b),
        decreases cand.len() - idx,
    {
        proof {
            lemma_len_bound(strings_v(visited@), cand);
        }
        let cur = visited[idx].clone();
        assert(cur@ == strings_v(visited@)[idx as int]);
        let mut k: usize = 0;
        while k < steps.len()
            invariant
                k <= steps.len(),
                idx < visited.len(),
                cur@ == strings_v(visited@)[idx as int],
                sv == steps_v(steps@),
                st == strings_v(starts@).to_set(),
                cand == candidates(sv, strings_v(starts@)),
                no_dups(strings_v(visited@)),
                st.subset_of(strings_v(visited@).to_set()),
                forall|x: Seq<char>| strings_v(visited@).contains(x) ==> reachable(sv, st, x),
                forall|x: Seq<char>| strings_v(visited@).contains(x) ==> cand.contains(x),
                forall|j: int, b: Seq<char>|
                    0 <= j < idx && sv.contains((strings_v(visited@)[j], b)) ==> strings_v(
                        visited@,
                    ).contains(b),
                forall|m: int|
                    0 <= m < k && sv[m].0 == cur@ ==> strings_v(visited@).contains(#[trigger] sv[m].1),
            decreases steps.len() - k,
        {
            let (a, b) = &steps[k];
            assert(sv[k as int] == (a@, b@));
            if *a == cur && !contains_string(&visited, b) {
                let ghost before = strings_v(visited@);
                visited.push(b.clone());
                proof {
                    assert(strings_v(visited@) =~= before.push(b@));
                    assert(sv.contains((cur@, b@)));
                    lemma_reach_step(sv, st, cur@, b@);
                    let tg = sv.map_values(|p: (Seq<char>, Seq<char>)| p.1);
                    assert(tg[k as int] == b@);
                    assert(cand[strings_v(starts@).len() + k] == tg[k as int]);
                    assert(cand.contains(b@));
                    assert forall|x: Seq<char>| strings_v(visited@).contains(x) implies cand.contains(
                        x,
                    ) by {
                        if x != b@ {
                            let q = choose|q: int| 0 <= q < strings_v(visited@).len() && strings_v(visited@)[q] == x;
                            assert(before[q] == x);
                        }
                    }
                    assert forall|x: Seq<char>| strings_v(visited@).contains(x) implies reachable(
                        sv,
                        st,
                        x,
                    ) by {
                        if x != b@ {
                            let q = choose|q: int| 0 <= q < strings_v(visited@).len() && strings_v(visited@)[q] == x;
                            assert(before[q] == x);
                        }
                    }
                    assert forall|j: int, c: Seq<char>|
                        0 <= j < idx && sv.contains(
                            (strings_v(visited@)[j], c),
                        ) implies strings_v(visited@).contains(c) by {
                        assert(strings_v(visited@)[j] == before[j]);
                        assert(sv.contains((before[j], c)));
                        assert(before.contains(c));
                        let m = choose|m: int| 0 <= m < before.len() && before[m] == c;
                        assert(strings_v(visited@)[m] == c);
                    }
                    assert forall|m: int|
                        0 <= m < k + 1 && sv[m].0 == cur@ implies strings_v(visited@).contains(
                            #[trigger] sv[m].1,
                        ) by {
                        if m < k {
                            assert(before.contains(sv[m].1));
                            let q = choose|q: int| 0 <= q < before.len() && before[q] == sv[m].1;
                            assert(strings_v(visited@)[q] == sv[m].1);
                        } else {
                            assert(strings_v(visited@)[before.len() as int] == b@);
                        }
                    }
                    assert forall|y: Seq<char>| st.contains(y) implies strings_v(
                        visited@,
                    ).to_set().contains(y) by {
                        assert(before.to_set().contains(y));
                        let q = choose|q: int| 0 <= q < before.len() && before[q] == y;
                        assert(strings_v(visited@)[q] == y);
                    }
                }
            }
            k = k + 1;
        }
        proof {
            assert forall|j: int, b: Seq<char>|
                0 <= j < idx + 1 && sv.contains((strings_v(visited@)[j], b)) implies strings_v(
                    visited@,
                ).contains(b) by {
                if j == idx {
                    let m = choose|m: int| 0 <= m < sv.len() && sv[m] == (strings_v(visited@)[j], b);
                    assert(sv[m].0 == cur@);
                    assert(strings_v(visited@).contains(sv[m].1));
                }
            }
        }
        idx = idx + 1;
    }
    proof {
        let vs = strings_v(visited@).to_set();
        assert(closed_under(sv, vs)) by {
            assert forall|a: Seq<char>, b: Seq<char>|
                vs.contains(a) && #[trigger] sv.contains((a, b)) implies vs.contains(b) by {
                let j = choose|j: int| 0 <= j < strings_v(visited@).len() && strings_v(visited@)[j] == a;
                assert(strings_v(visited@).contains(b));
            }
        }
        assert forall|x: Seq<char>| reachable(sv, st, x) implies strings_v(visited@).contains(x) by {
            lemma_closed_holds_reachable(sv, st, vs, x);
        }
    }
    visited
}

} // verus!
