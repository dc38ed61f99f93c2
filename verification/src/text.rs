//! Character-level text utilities with specifications over `Seq<char>`.

use vstd::prelude::*;

verus! {

/// `p` occurs in `s` starting at position `i`.
pub open spec fn occurs_at(s: Seq<char>, p: Seq<char>, i: int) -> bool {
    0 <= i && i + p.len() <= s.len() && s.subrange(i, i + p.len()) == p
}

/// `p` occurs somewhere in `s`.
pub open spec fn contains_seq(s: Seq<char>, p: Seq<char>) -> bool {
    exists|i: int| occurs_at(s, p, i)
}

/// `s` begins with `p`.
pub open spec fn has_prefix(s: Seq<char>, p: Seq<char>) -> bool {
    p.len() <= s.len() && s.take(p.len() as int) == p
}

/// `s` ends with `p`.
pub open spec fn has_suffix(s: Seq<char>, p: Seq<char>) -> bool {
    p.len() <= s.len() && s.skip(s.len() - p.len()) == p
}

/// `i` is the first occurrence of `p` in `s` at or after `from`.
pub open spec fn is_first_occurrence_from(s: Seq<char>, p: Seq<char>, from: int, i: int) -> bool {
    from <= i && occurs_at(s, p, i) && forall|j: int| from <= j < i ==> !occurs_at(s, p, j)
}

/// `p` does not occur in `s` at or after `from`.
pub open spec fn absent_from(s: Seq<char>, p: Seq<char>, from: int) -> bool {
    forall|j: int| from <= j ==> !occurs_at(s, p, j)
}

/// The part of `s` before the first occurrence of `c` (all of `s` if there is none),
/// as `s.split(c).next()` gives it.
pub open spec fn before_char(s: Seq<char>, c: char) -> Seq<char>
    decreases s.len(),
{
    if s.len() == 0 {
        s
    } else if s[0] == c {
        Seq::empty()
    } else {
        seq![s[0]] + before_char(s.drop_first(), c)
    }
}

/// Unicode `White_Space`, the property that `char::is_whitespace` tests.
pub open spec fn is_ws(c: char) -> bool {
    let u = c as u32;
    (0x9 <= u && u <= 0xd) || u == 0x20 || u == 0x85 || u == 0xa0 || u == 0x1680 || (0x2000 <= u
        && u <= 0x200a) || u == 0x2028 || u == 0x2029 || u == 0x202f || u == 0x205f || u == 0x3000
}

/// Number of leading whitespace characters of `s`.
pub open spec fn lead_ws(s: Seq<char>) -> nat
    decreases s.len(),
{
    if s.len() > 0 && is_ws(s[0]) {
        1 + lead_ws(s.drop_first())
    } else {
        0
    }
}

/// Number of trailing whitespace characters of `s`.
pub open spec fn trail_ws(s: Seq<char>) -> nat
    decreases s.len(),
{
    if s.len() > 0 && is_ws(s.last()) {
        1 + trail_ws(s.drop_last())
    } else {
        0
    }
}

/// `s` with leading and trailing whitespace removed (`str::trim`).
pub open spec fn trim(s: Seq<char>) -> Seq<char> {
    let a = lead_ws(s) as int;
    if a == s.len() {
        Seq::empty()
    } else {
        s.subrange(a, s.len() - trail_ws(s))
    }
}

/// The characters of `s`, in order.
pub fn chars_of(s: &str) -> (res: Vec<char>)
    ensures
        res@ == s@,
{
    let mut res: Vec<char> = Vec::new();
    for c in it: s.chars()
        invariant
            res@ == it.seq().take(it.index() as int),
    {
        res.push(c);
    }
    res
}

/// Builds a `String` holding exactly the given characters (std: collecting a char iterator).
#[verifier::external_body]
pub(crate) fn string_from_chars(v: &[char]) -> (res: String)
    ensures
        res@ == v@,
{
    v.iter().collect()
}

/// Whether two character slices are equal.
pub fn chars_eq(a: &[char], b: &[char]) -> (res: bool)
    ensures
        res == (a@ == b@),
{
    if a.len() != b.len() {
        return false;
    }
    let mut i: usize = 0;
    while i < a.len()
        invariant
            a.len() == b.len(),
            i <= a.len(),
            forall|k: int| 0 <= k < i ==> a@[k] == b@[k],
        decreases a.len() - i,
    {
        if a[i] != b[i] {
            return false;
        }
        i = i + 1;
    }
    assert(a@ =~= b@);
    true
}

/// Whether two strings hold the same characters.
pub fn str_eq(a: &str, b: &str) -> (res: bool)
    ensures
        res == (a@ == b@),
{
    let x = chars_of(a);
    let y = chars_of(b);
    chars_eq(x.as_slice(), y.as_slice())
}

/// Whether `p` occurs in `s` at position `i`.
pub fn matches_at(s: &[char], p: &[char], i: usize) -> (res: bool)
    ensures
        res == occurs_at(s@, p@, i as int),
{
    if i > s.len() || p.len() > s.len() - i {
        return false;
    }
    let mut k: usize = 0;
    while k < p.len()
        invariant
            i + p.len() <= s.len(),
            k <= p.len(),
            forall|j: int| 0 <= j < k ==> s@[i + j] == p@[j],
        decreases p.len() - k,
    {
        if s[i + k] != p[k] {
            assert(s@.subrange(i as int, i + p.len())[k as int] != p@[k as int]);
            return false;
        }
        k = k + 1;
    }
    assert(s@.subrange(i as int, i + p.len()) =~= p@);
    true
}

/// Whether `s` begins with `p`.
pub fn starts_with(s: &[char], p: &[char]) -> (res: bool)
    ensures
        res == has_prefix(s@, p@),
{
    let r = matches_at(s, p, 0);
    assert(r ==> s@.take(p@.len() as int) =~= s@.subrange(0, p@.len() as int));
    assert(has_prefix(s@, p@) ==> s@.take(p@.len() as int) =~= s@.subrange(0, p@.len() as int));
    r
}

/// Whether `s` ends with `p`.
pub fn ends_with(s: &[char], p: &[char]) -> (res: bool)
    ensures
        res == has_suffix(s@, p@),
{
    if p.len() > s.len() {
        return false;
    }
    let r = matches_at(s, p, s.len() - p.len());
    assert(s@.skip(s@.len() - p@.len()) =~= s@.subrange(s@.len() - p@.len(), s@.len() as int));
    r
}

/// The first position at or after `from` where `p` occurs in `s`.
pub fn find_from(s: &[char], p: &[char], from: usize) -> (res: Option<usize>)
    ensures
        match res {
            Some(i) => is_first_occurrence_from(s@, p@, from as int, i as int),
            None => absent_from(s@, p@, from as int),
        },
{
    let mut i = from;
    loop
        invariant
            from <= i,
            forall|j: int| from <= j < i ==> !occurs_at(s@, p@, j),
        decreases s.len() + 1 - i,
    {
        if i > s.len() {
            return None;
        }
        if matches_at(s, p, i) {
            return Some(i);
        }
        if i == s.len() {
            return None;
        }
        i = i + 1;
    }
}

/// Whether `p` occurs in `s`.
pub fn contains(s: &[char], p: &[char]) -> (res: bool)
    ensures
        res == contains_seq(s@, p@),
{
    match find_from(s, p, 0) {
        Some(_) => true,
        None => {
            assert forall|j: int| !occurs_at(s@, p@, j) by {
                if j < 0 {
                }
            }
            false
        },
    }
}

/// Whether a single character is Unicode whitespace (`char::is_whitespace`).
pub fn char_is_ws(c: char) -> (res: bool)
    ensures
        res == is_ws(c),
{
    let u = c as u32;
    (0x9 <= u && u <= 0xd) || u == 0x20 || u == 0x85 || u == 0xa0 || u == 0x1680 || (0x2000 <= u
        && u <= 0x200a) || u == 0x2028 || u == 0x2029 || u == 0x202f || u == 0x205f || u == 0x3000
}

pub proof fn lemma_lead_ws_bound(s: Seq<char>)
    ensures
        lead_ws(s) <= s.len(),
        forall|k: int| 0 <= k < lead_ws(s) ==> is_ws(s[k]),
        lead_ws(s) < s.len() ==> !is_ws(s[lead_ws(s) as int]),
    decreases s.len(),
{
    if s.len() > 0 && is_ws(s[0]) {
        lemma_lead_ws_bound(s.drop_first());
        assert forall|k: int| 0 <= k < lead_ws(s) implies is_ws(s[k]) by {
            if k > 0 {
                assert(s[k] == s.drop_first()[k - 1]);
            }
        }
    }
}

proof fn lemma_trail_ws_bound(s: Seq<char>)
    ensures
        trail_ws(s) <= s.len(),
        forall|k: int| s.len() - trail_ws(s) <= k < s.len() ==> is_ws(s[k]),
        trail_ws(s) < s.len() ==> !is_ws(s[s.len() - trail_ws(s) - 1]),
    decreases s.len(),
{
    if s.len() > 0 && is_ws(s.last()) {
        lemma_trail_ws_bound(s.drop_last());
        assert forall|k: int| s.len() - trail_ws(s) <= k < s.len() implies is_ws(s[k]) by {
            if k < s.len() - 1 {
                assert(s[k] == s.drop_last()[k]);
            }
        }
    }
}

/// The number of leading whitespace characters.
fn count_lead_ws(s: &[char]) -> (n: usize)
    ensures
        n == lead_ws(s@),
{
    let mut i: usize = 0;
    assert(s@.skip(0) =~= s@);
    while i < s.len() && char_is_ws(s[i])
        invariant
            i <= s.len(),
            forall|k: int| 0 <= k < i ==> is_ws(s@[k]),
            lead_ws(s@) == i + lead_ws(s@.skip(i as int)),
        decreases s.len() - i,
    {
        assert(s@.skip(i as int).drop_first() =~= s@.skip(i + 1));
        i = i + 1;
    }
    i
}

pub proof fn lemma_trail_split(s: Seq<char>, i: int)
    requires
        0 <= i <= s.len(),
        forall|k: int| i <= k < s.len() ==> is_ws(s[k]),
    ensures
        trail_ws(s) == (s.len() - i) + trail_ws(s.take(i)),
    decreases s.len() - i,
{
    if i < s.len() {
        assert(s.drop_last().take(i) =~= s.take(i));
        lemma_trail_split(s.drop_last(), i);
    } else {
        assert(s.take(i) =~= s);
    }
}

/// The number of trailing whitespace characters.
fn count_trail_ws(s: &[char]) -> (n: usize)
    ensures
        n == trail_ws(s@),
{
    let mut i: usize = s.len();
    while i > 0 && char_is_ws(s[i - 1])
        invariant
            i <= s.len(),
            forall|k: int| i <= k < s.len() ==> is_ws(s@[k]),
        decreases i,
    {
        i = i - 1;
    }
    proof {
        lemma_trail_split(s@, i as int);
        if i > 0 {
            assert(s@.take(i as int).last() == s@[i - 1]);
        }
    }
    s.len() - i
}

/// `s` with leading and trailing Unicode whitespace removed.
pub fn trim_chars(s: &[char]) -> (res: Vec<char>)
    ensures
        res@ == trim(s@),
{
    let a = count_lead_ws(s);
    if a == s.len() {
        return Vec::new();
    }
    let b = count_trail_ws(s);
    proof {
        lemma_lead_ws_bound(s@);
        lemma_trail_ws_bound(s@);
    }
    slice_range(s, a, s.len() - b)
}

/// A copy of `s[from..to]`.
pub fn slice_range(s: &[char], from: usize, to: usize) -> (res: Vec<char>)
    requires
        from <= to <= s.len(),
    ensures
        res@ == s@.subrange(from as int, to as int),
{
    let mut res: Vec<char> = Vec::new();
    let mut i = from;
    while i < to
        invariant
            from <= i <= to <= s.len(),
            res@ == s@.subrange(from as int, i as int),
        decreases to - i,
    {
        res.push(s[i]);
        i = i + 1;
        assert(res@ =~= s@.subrange(from as int, i as int));
    }
    res
}

/// The characters of `a` followed by those of `b`.
pub fn concat(a: &[char], b: &[char]) -> (res: Vec<char>)
    ensures
        res@ == a@ + b@,
{
    let mut res = slice_range(a, 0, a.len());
    let mut i: usize = 0;
    while i < b.len()
        invariant
            i <= b.len(),
            res@ == a@ + b@.take(i as int),
        decreases b.len() - i,
    {
        res.push(b[i]);
        i = i + 1;
        assert(res@ =~= a@ + b@.take(i as int));
    }
    assert(a@.subrange(0, a@.len() as int) =~= a@);
    assert(b@.take(b@.len() as int) =~= b@);
    res
}

/// The part of `s` before the first `c` (`s.split(c).next()`).
pub fn prefix_before_char(s: &[char], c: char) -> (res: Vec<char>)
    ensures
        res@ == before_char(s@, c),
{
    let mut i: usize = 0;
    while i < s.len() && s[i] != c
        invariant
            i <= s.len(),
            forall|k: int| 0 <= k < i ==> s@[k] != c,
        decreases s.len() - i,
    {
        i = i + 1;
    }
    proof {
        lemma_before_char(s@, c, i as int);
    }
    slice_range(s, 0, i)
}

/// `before_char` cuts at the first `c`.
pub proof fn lemma_before_char(s: Seq<char>, c: char, i: int)
    requires
        0 <= i <= s.len(),
        forall|k: int| 0 <= k < i ==> s[k] != c,
        i == s.len() || s[i] == c,
    ensures
        before_char(s, c) == s.take(i),
    decreases s.len(),
{
    if s.len() == 0 {
        assert(s.take(i) =~= s);
    } else if s[0] == c {
        assert(s.take(i) =~= Seq::<char>::empty());
    } else {
        lemma_before_char(s.drop_first(), c, i - 1);
        assert(s.take(i) =~= seq![s[0]] + s.drop_first().take(i - 1));
    }
}

/// Lowercase form of a string, as `str::to_lowercase` computes it.
pub uninterp spec fn lowercase(s: Seq<char>) -> Seq<char>;

/// Lowercases a string (std `str::to_lowercase`).
#[verifier::external_body]
pub(crate) fn to_lowercase(s: &str) -> (res: String)
    ensures
        res@ == lowercase(s@),
{
    s.to_lowercase()
}

/// Position of the first occurrence of `p` in `s` (meaningful when there is one).
pub open spec fn first_occ(s: Seq<char>, p: Seq<char>) -> int {
    choose|i: int| is_first_occurrence_from(s, p, 0, i)
}

/// Position of the last occurrence of `p` in `s` (meaningful when there is one).
pub open spec fn last_occ(s: Seq<char>, p: Seq<char>) -> int {
    choose|i: int| occurs_at(s, p, i) && forall|j: int| j > i ==> !occurs_at(s, p, j)
}

/// The first occurrence is unique.
pub proof fn lemma_first_occ(s: Seq<char>, p: Seq<char>, i: int)
    requires
        is_first_occurrence_from(s, p, 0, i),
    ensures
        first_occ(s, p) == i,
{
    let k = first_occ(s, p);
    assert(is_first_occurrence_from(s, p, 0, k));
    if k < i {
        assert(!occurs_at(s, p, k));
    } else if k > i {
        assert(!occurs_at(s, p, i));
    }
}

/// Where `p` occurs at or after `from`, there is a first such occurrence.
pub proof fn lemma_first_exists_from(s: Seq<char>, p: Seq<char>, from: int, w: int)
    requires
        from <= w,
        occurs_at(s, p, w),
    ensures
        exists|i: int| is_first_occurrence_from(s, p, from, i),
    decreases w - from,
{
    if exists|j: int| from <= j < w && occurs_at(s, p, j) {
        let j = choose|j: int| from <= j < w && occurs_at(s, p, j);
        lemma_first_exists_from(s, p, from, j);
    } else {
        assert(is_first_occurrence_from(s, p, from, w));
    }
}

/// The last occurrence is unique.
pub proof fn lemma_last_occ(s: Seq<char>, p: Seq<char>, i: int)
    requires
        occurs_at(s, p, i),
        forall|j: int| j > i ==> !occurs_at(s, p, j),
    ensures
        last_occ(s, p) == i,
{
    let k = last_occ(s, p);
    assert(occurs_at(s, p, k) && forall|j: int| j > k ==> !occurs_at(s, p, j));
    if k < i {
        assert(!occurs_at(s, p, i));
    } else if k > i {
        assert(!occurs_at(s, p, k));
    }
}

/// The part of `s` before the first `sep` (all of `s` when there is none), as
/// `s.split(sep).next()` gives it.
pub open spec fn before_sep(s: Seq<char>, sep: Seq<char>) -> Seq<char> {
    if contains_seq(s, sep) {
        s.take(first_occ(s, sep))
    } else {
        s
    }
}

/// `s.split_once(sep)`: the parts before and after the first `sep`.
pub open spec fn split_once(s: Seq<char>, sep: Seq<char>) -> Option<(Seq<char>, Seq<char>)> {
    if contains_seq(s, sep) {
        Some((s.take(first_occ(s, sep)), s.skip(first_occ(s, sep) + sep.len())))
    } else {
        None
    }
}

/// `s.rsplit_once(sep)`: the parts before and after the last `sep`.
pub open spec fn rsplit_once(s: Seq<char>, sep: Seq<char>) -> Option<(Seq<char>, Seq<char>)> {
    if contains_seq(s, sep) {
        Some((s.take(last_occ(s, sep)), s.skip(last_occ(s, sep) + sep.len())))
    } else {
        None
    }
}

/// `s.split_once(sep)`, computed.
pub fn split_once_chars(s: &[char], sep: &[char]) -> (res: Option<(Vec<char>, Vec<char>)>)
    ensures
        match split_once(s@, sep@) {
            Some((a, b)) => res matches Some((x, y)) && x@ == a && y@ == b,
            None => res is None,
        },
{
    match find_from(s, sep, 0) {
        None => {
            assert(!contains_seq(s@, sep@)) by {
                assert forall|i: int| !occurs_at(s@, sep@, i) by {
                    if i < 0 {
                    }
                }
            }
            None
        },
        Some(i) => {
            proof {
                lemma_first_occ(s@, sep@, i as int);
            }
            let slen = s.len();
            let plen = sep.len();
            assert(i + plen <= slen);
            let a = slice_range(s, 0, i);
            let b = slice_range(s, i + plen, slen);
            assert(a@ =~= s@.take(i as int));
            assert(b@ =~= s@.skip(i + sep@.len()));
            Some((a, b))
        },
    }
}

/// `s.rsplit_once(sep)`, computed.
pub fn rsplit_once_chars(s: &[char], sep: &[char]) -> (res: Option<(Vec<char>, Vec<char>)>)
    ensures
        match rsplit_once(s@, sep@) {
            Some((a, b)) => res matches Some((x, y)) && x@ == a && y@ == b,
            None => res is None,
        },
{
    if sep.len() > s.len() {
        assert(!contains_seq(s@, sep@));
        return None;
    }
    let mut i: usize = s.len() - sep.len();
    loop
        invariant
            i + sep.len() <= s.len(),
            forall|j: int| j > i ==> !occurs_at(s@, sep@, j),
        decreases i,
    {
        if matches_at(s, sep, i) {
            proof {
                lemma_last_occ(s@, sep@, i as int);
            }
            let a = slice_range(s, 0, i);
            let b = slice_range(s, i + sep.len(), s.len());
            assert(a@ =~= s@.take(i as int));
            assert(b@ =~= s@.skip(i + sep@.len()));
            return Some((a, b));
        }
        if i == 0 {
            assert(!contains_seq(s@, sep@)) by {
                assert forall|j: int| !occurs_at(s@, sep@, j) by {
                    if j < 0 {
                    }
                }
            }
            return None;
        }
        i = i - 1;
    }
}

/// The part before the first `sep`, computed.
pub fn before_sep_chars(s: &[char], sep: &[char]) -> (res: Vec<char>)
    ensures
        res@ == before_sep(s@, sep@),
{
    match split_once_chars(s, sep) {
        Some((a, _)) => a,
        None => slice_range(s, 0, s.len()),
    }
}

} // verus!
