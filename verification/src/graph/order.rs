//! The order the graph's relations keep their rows in: strings compare character by
//! character (code point order), edges by source, then target, then type.

use vstd::prelude::*;

use crate::text::chars_of;

verus! {

/// `a` comes before `b`: at the first position where they differ, `a` has the smaller
/// character, or `a` is a proper prefix of `b`.
pub open spec fn seq_lt(a: Seq<char>, b: Seq<char>) -> bool
    decreases a.len(),
{
    if a.len() == 0 {
        b.len() > 0
    } else if b.len() == 0 {
        false
    } else if a[0] != b[0] {
        a[0] < b[0]
    } else {
        seq_lt(a.skip(1), b.skip(1))
    }
}

/// Nothing comes before itself.
pub proof fn lemma_lt_irreflexive(a: Seq<char>)
    ensures
        !seq_lt(a, a),
    decreases a.len(),
{
    if a.len() > 0 {
        lemma_lt_irreflexive(a.skip(1));
    }
}

/// The order is transitive.
pub proof fn lemma_lt_transitive(a: Seq<char>, b: Seq<char>, c: Seq<char>)
    requires
        seq_lt(a, b),
        seq_lt(b, c),
    ensures
        seq_lt(a, c),
    decreases a.len(),
{
    if a.len() > 0 && b.len() > 0 && c.len() > 0 && a[0] == b[0] && b[0] == c[0] {
        lemma_lt_transitive(a.skip(1), b.skip(1), c.skip(1));
    }
}

/// Of two different sequences, one comes before the other.
pub proof fn lemma_lt_total(a: Seq<char>, b: Seq<char>)
    requires
        a != b,
    ensures
        seq_lt(a, b) || seq_lt(b, a),
    decreases a.len(),
{
    if a.len() > 0 && b.len() > 0 && a[0] == b[0] {
        if a.skip(1) == b.skip(1) {
            assert(a =~= seq![a[0]] + a.skip(1));
            assert(b =~= seq![b[0]] + b.skip(1));
        }
        lemma_lt_total(a.skip(1), b.skip(1));
    }
    if a.len() == 0 && b.len() == 0 {
        assert(a =~= b);
    }
}

/// Whether `a` comes before `b`, computed.
pub fn chars_lt(a: &[char], b: &[char]) -> (res: bool)
    ensures
        res == seq_lt(a@, b@),
{
    let mut i: usize = 0;
    assert(a@.skip(0) =~= a@ && b@.skip(0) =~= b@);
    while i < a.len() && i < b.len() && a[i] == b[i]
        invariant
            i <= a.len(),
            i <= b.len(),
            seq_lt(a@, b@) == seq_lt(a@.skip(i as int), b@.skip(i as int)),
        decreases a.len() - i,
    {
        proof {
            let sa = a@.skip(i as int);
            let sb = b@.skip(i as int);
            assert(sa[0] == a@[i as int] && sb[0] == b@[i as int]);
            assert(sa.skip(1) =~= a@.skip(i + 1));
            assert(sb.skip(1) =~= b@.skip(i + 1));
        }
        i = i + 1;
    }
    let ghost sa = a@.skip(i as int);
    let ghost sb = b@.skip(i as int);
    if i == a.len() {
        assert(sa.len() == 0);
        i < b.len()
    } else if i == b.len() {
        assert(sb.len() == 0);
        false
    } else {
        assert(sa[0] == a@[i as int] && sb[0] == b@[i as int]);
        a[i] < b[i]
    }
}

/// Whether the text `a` comes before the text `b`.
pub fn str_lt(a: &str, b: &str) -> (res: bool)
    ensures
        res == seq_lt(a@, b@),
{
    chars_lt(chars_of(a).as_slice(), chars_of(b).as_slice())
}

/// Edge `e` comes before edge `f`: by source, then target, then type.
pub open spec fn edge_lt(e: (Seq<char>, Seq<char>, Seq<char>), f: (Seq<char>, Seq<char>, Seq<char>)) -> bool {
    seq_lt(e.0, f.0) || (e.0 == f.0 && (seq_lt(e.1, f.1) || (e.1 == f.1 && seq_lt(e.2, f.2))))
}

/// The edge order is irreflexive, transitive and total.
pub proof fn lemma_edge_order(
    e: (Seq<char>, Seq<char>, Seq<char>),
    f: (Seq<char>, Seq<char>, Seq<char>),
    g: (Seq<char>, Seq<char>, Seq<char>),
)
    ensures
        !edge_lt(e, e),
        edge_lt(e, f) && edge_lt(f, g) ==> edge_lt(e, g),
        e != f ==> edge_lt(e, f) || edge_lt(f, e),
{
    lemma_lt_irreflexive(e.0);
    lemma_lt_irreflexive(e.1);
    lemma_lt_irreflexive(e.2);
    if edge_lt(e, f) && edge_lt(f, g) {
        if seq_lt(e.0, f.0) && seq_lt(f.0, g.0) {
            lemma_lt_transitive(e.0, f.0, g.0);
        }
        if seq_lt(e.1, f.1) && seq_lt(f.1, g.1) {
            lemma_lt_transitive(e.1, f.1, g.1);
        }
        if seq_lt(e.2, f.2) && seq_lt(f.2, g.2) {
            lemma_lt_transitive(e.2, f.2, g.2);
        }
    }
    if e != f {
        if e.0 != f.0 {
            lemma_lt_total(e.0, f.0);
        } else if e.1 != f.1 {
            lemma_lt_total(e.1, f.1);
        } else {
            lemma_lt_total(e.2, f.2);
        }
    }
}

/// Whether edge `e` comes before edge `f`, computed.
pub fn edge_before(e: (&str, &str, &str), f: (&str, &str, &str)) -> (res: bool)
    ensures
        res == edge_lt((e.0@, e.1@, e.2@), (f.0@, f.1@, f.2@)),
{
    if str_lt(e.0, f.0) {
        return true;
    }
    if !crate::text::str_eq(e.0, f.0) {
        return false;
    }
    if str_lt(e.1, f.1) {
        return true;
    }
    if !crate::text::str_eq(e.1, f.1) {
        return false;
    }
    str_lt(e.2, f.2)
}

} // verus!
