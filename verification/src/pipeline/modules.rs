//! Module and import resolution.
//!
//! Builds the module tree from the file nodes and their `mod` declarations, resolves `use`
//! paths against it, and adds `Imports` edges for module-aware call resolution.
//!
//! A file id is joined to the project root as `Path::join` does and then cleaned as the file
//! system reads it (`.`, `..` and repeated `/` resolved, so `./src/lib.rs` under `.` is
//! `src/lib.rs`); a file exists when it is one of the indexed files.

use vstd::prelude::*;

use crate::graph::query::{
    edge_pairs, lemma_filter_ends, lemma_filter_prefix, lemma_filter_step, step_ends, step_targets,
    strs_v,
};
use crate::graph::reach::{reach_closure, reachable, steps_v, Steps};
use crate::graph::schema::{EdgeType, NodeId, NodeType};
use crate::graph::store::{edge_rows_v, node_rows_v, strings_v, EdgeV, NodeV, Store};
use crate::pipeline::placeholder::{chars_vv, has_char, path_sep, payload_text, sep_chars};
use crate::text::{
    chars_eq, chars_of, concat, contains, contains_seq, ends_with, has_prefix, has_suffix,
    rsplit_once, rsplit_once_chars, slice_range, starts_with, string_from_chars, trim,
    trim_chars,
};

verus! {

/// An association list; a key maps to the value of its last entry.
pub type Assoc = Seq<(Seq<char>, Seq<char>)>;

/// The value of the last entry for `k`.
pub open spec fn assoc_get(s: Assoc, k: Seq<char>) -> Option<Seq<char>>
    decreases s.len(),
{
    if s.len() == 0 {
        None
    } else if s.last().0 == k {
        Some(s.last().1)
    } else {
        assoc_get(s.drop_last(), k)
    }
}

/// The abstract entries of an association vector.
pub open spec fn pairs_v(v: Seq<(String, String)>) -> Assoc {
    v.map_values(|p: (String, String)| (p.0@, p.1@))
}

/// The value of the last entry for `k`, computed.
pub fn assoc_lookup(v: &Vec<(String, String)>, k: &str) -> (res: Option<String>)
    ensures
        match res {
            Some(x) => assoc_get(pairs_v(v@), k@) == Some(x@),
            None => assoc_get(pairs_v(v@), k@) is None,
        },
{
    let mut i: usize = v.len();
    assert(pairs_v(v@).take(v@.len() as int) =~= pairs_v(v@));
    while i > 0
        invariant
            i <= v.len(),
            assoc_get(pairs_v(v@), k@) == assoc_get(pairs_v(v@).take(i as int), k@),
        decreases i,
    {
        let ghost t = pairs_v(v@).take(i as int);
        assert(t.last() == (v@[i - 1].0@, v@[i - 1].1@));
        assert(t.drop_last() =~= pairs_v(v@).take(i - 1));
        if crate::text::str_eq(v[i - 1].0.as_str(), k) {
            return Some(v[i - 1].1.clone());
        }
        i = i - 1;
    }
    assert(pairs_v(v@).take(0) =~= Seq::<(Seq<char>, Seq<char>)>::empty());
    None
}

/// `crate`
pub open spec fn crate_word() -> Seq<char> {
    "crate"@
}

/// `base::rest`
pub open spec fn join_path(base: Seq<char>, rest: Seq<char>) -> Seq<char> {
    base + path_sep() + rest
}

/// `path` joined onto `root` as `Path::join` does: an absolute path stays as it is.
pub open spec fn joined_text(root: Seq<char>, path: Seq<char>) -> Seq<char> {
    if path.len() > 0 && path[0] == '/' {
        path
    } else if has_suffix(root, seq!['/']) {
        root + path
    } else {
        root + seq!['/'] + path
    }
}

/// `path` joined onto `root`, then cleaned (`./src/lib.rs` under `.` is `src/lib.rs`).
pub open spec fn join_root(root: Seq<char>, path: Seq<char>) -> Seq<char> {
    normalize_path(joined_text(root, path))
}

/// The `/`-separated components of a path (`a//b/` has `a`, an empty one, `b` and another
/// empty one).
pub open spec fn path_components(s: Seq<char>) -> Seq<Seq<char>>
    decreases s.len(),
{
    if s.len() == 0 {
        seq![Seq::empty()]
    } else {
        let p = path_components(s.drop_last());
        if s.last() == '/' {
            p.push(Seq::empty())
        } else {
            p.update(p.len() - 1, p.last().push(s.last()))
        }
    }
}

/// The components after cleaning: empty and `.` components drop out, and `..` takes off the
/// component before it; with none to take off it stays in a relative path and drops out of
/// an absolute one.
pub open spec fn clean_components(c: Seq<Seq<char>>, abs: bool) -> Seq<Seq<char>>
    decreases c.len(),
{
    if c.len() == 0 {
        Seq::empty()
    } else {
        let prev = clean_components(c.drop_last(), abs);
        let x = c.last();
        if x.len() == 0 || x == seq!['.'] {
            prev
        } else if x == seq!['.', '.'] {
            if prev.len() > 0 && prev.last() != seq!['.', '.'] {
                prev.drop_last()
            } else if abs {
                prev
            } else {
                prev.push(x)
            }
        } else {
            prev.push(x)
        }
    }
}

/// Components joined with `/`.
pub open spec fn join_components(c: Seq<Seq<char>>) -> Seq<char>
    decreases c.len(),
{
    if c.len() == 0 {
        Seq::empty()
    } else if c.len() == 1 {
        c[0]
    } else {
        join_components(c.drop_last()) + seq!['/'] + c.last()
    }
}

/// A path that starts at the file system root.
pub open spec fn is_absolute(s: Seq<char>) -> bool {
    s.len() > 0 && s[0] == '/'
}

/// A path as the file system reads it, without `.`, `..` and repeated `/`: the
/// `/`-separated components, cleaned, joined again; an absolute path keeps its leading `/`.
pub open spec fn normalize_path(s: Seq<char>) -> Seq<char> {
    let body = join_components(clean_components(path_components(s), is_absolute(s)));
    if is_absolute(s) {
        seq!['/'] + body
    } else {
        body
    }
}

/// A path that climbs out of the directory it is read from (`..` or `../...`).
pub open spec fn climbs_out(p: Seq<char>) -> bool {
    p == seq!['.', '.'] || has_prefix(p, seq!['.', '.', '/'])
}

/// What is left of a cleaned path `p` below the cleaned root `r`; none when it is not below it.
pub open spec fn below_root(r: Seq<char>, p: Seq<char>) -> Option<Seq<char>> {
    if p == r {
        Some(Seq::empty())
    } else if r.len() == 0 {
        if p.len() > 0 && !is_absolute(p) && !climbs_out(p) {
            Some(p)
        } else {
            None
        }
    } else if has_prefix(p, root_dir(r)) {
        Some(p.skip(root_dir(r).len() as int))
    } else {
        None
    }
}

/// `/` replaced by `::`.
pub open spec fn slashes_to_seps(s: Seq<char>) -> Seq<char>
    decreases s.len(),
{
    if s.len() == 0 {
        s
    } else {
        slashes_to_seps(s.drop_last()) + if s.last() == '/' {
            path_sep()
        } else {
            seq![s.last()]
        }
    }
}

/// `::` replaced by `/`: what `slashes_to_seps` undoes for paths that hold no `:`.
pub open spec fn seps_to_slashes(s: Seq<char>) -> Seq<char>
    decreases s.len(),
{
    if s.len() == 0 {
        s
    } else if has_prefix(s, path_sep()) {
        seq!['/'] + seps_to_slashes(s.skip(2))
    } else {
        seq![s[0]] + seps_to_slashes(s.skip(1))
    }
}

/// The module path of a file, from its path relative to the project root: `src/` and `.rs`
/// come off, `lib`, `main` and the empty path are the crate root, directories become `::`
/// segments and a trailing `::mod` comes off (`src/utils.rs` is `crate::utils`).
pub open spec fn module_path_of_relative(rel: Seq<char>) -> Seq<char> {
    let a = if has_prefix(rel, "src/"@) {
        rel.skip("src/"@.len() as int)
    } else if has_prefix(rel, "src\\"@) {
        rel.skip("src\\"@.len() as int)
    } else {
        rel
    };
    let b = if has_suffix(a, ".rs"@) {
        a.take(a.len() - ".rs"@.len())
    } else {
        a
    };
    if b.len() == 0 || b == "lib"@ || b == "main"@ {
        crate_word()
    } else {
        let c = slashes_to_seps(b);
        let d = if has_suffix(c, "::mod"@) {
            c.take(c.len() - "::mod"@.len())
        } else {
            c
        };
        join_path(crate_word(), d)
    }
}

/// The directory prefix of a root: the root with a trailing `/`.
pub open spec fn root_dir(root: Seq<char>) -> Seq<char> {
    if has_suffix(root, seq!['/']) {
        root
    } else {
        root + seq!['/']
    }
}

/// The module path of the file at `path` under `root`, both cleaned first; none when it is
/// not under `root`.
pub open spec fn spec_file_to_module_path(root: Seq<char>, path: Seq<char>) -> Option<Seq<char>> {
    match below_root(normalize_path(root), normalize_path(path)) {
        Some(rel) => Some(module_path_of_relative(rel)),
        None => None,
    }
}

/// `/` replaced by `::`, computed.
fn slashes_to_seps_exec(s: &[char]) -> (res: Vec<char>)
    ensures
        res@ == slashes_to_seps(s@),
{
    let mut res: Vec<char> = Vec::new();
    let mut i: usize = 0;
    while i < s.len()
        invariant
            i <= s.len(),
            res@ == slashes_to_seps(s@.take(i as int)),
        decreases s.len() - i,
    {
        proof {
            let t = s@.take(i + 1);
            assert(t.drop_last() =~= s@.take(i as int));
            assert(t.last() == s@[i as int]);
        }
        let ghost before = res@;
        if s[i] == '/' {
            res.push(':');
            res.push(':');
            assert(res@ =~= before + path_sep());
        } else {
            res.push(s[i]);
            assert(res@ =~= before + seq![s@[i as int]]);
        }
        i = i + 1;
    }
    assert(s@.take(s.len() as int) =~= s@);
    res
}

/// `::` replaced by `/`, computed.
fn seps_to_slashes_exec(s: &[char]) -> (res: Vec<char>)
    ensures
        res@ == seps_to_slashes(s@),
{
    let sep = sep_chars();
    let mut res: Vec<char> = Vec::new();
    let mut i: usize = 0;
    assert(s@.skip(0) =~= s@);
    assert(res@ + seps_to_slashes(s@) =~= seps_to_slashes(s@));
    while i < s.len()
        invariant
            i <= s.len(),
            sep@ == path_sep(),
            seps_to_slashes(s@) == res@ + seps_to_slashes(s@.skip(i as int)),
        decreases s.len() - i,
    {
        let ghost rest = s@.skip(i as int);
        let ghost before = res@;
        if crate::text::matches_at(s, sep.as_slice(), i) {
            proof {
                assert(rest.take(2) =~= s@.subrange(i as int, i + 2));
                assert(has_prefix(rest, path_sep()));
                assert(rest.skip(2) =~= s@.skip(i + 2));
            }
            res.push('/');
            i = i + 2;
            proof {
                assert(res@ =~= before + seq!['/']);
            }
        } else {
            proof {
                if has_prefix(rest, path_sep()) {
                    assert(s@.subrange(i as int, i + 2) =~= rest.take(2));
                }
                assert(rest.skip(1) =~= s@.skip(i + 1));
                assert(rest[0] == s@[i as int]);
            }
            res.push(s[i]);
            i = i + 1;
            proof {
                assert(res@ =~= before + seq![s@[i - 1]]);
            }
        }
    }
    assert(s@.skip(s.len() as int) =~= Seq::<char>::empty());
    assert(res@ + Seq::<char>::empty() =~= res@);
    res
}

/// `base::rest`, computed.
pub fn join_path_exec(base: &[char], rest: &[char]) -> (res: Vec<char>)
    ensures
        res@ == join_path(base@, rest@),
{
    let sep = sep_chars();
    let a = concat(base, sep.as_slice());
    concat(a.as_slice(), rest)
}

/// The module path of a file from its path relative to the project root.
pub fn module_path_of_relative_exec(rel: &[char]) -> (res: Vec<char>)
    ensures
        res@ == module_path_of_relative(rel@),
{
    let src_slash = chars_of("src/");
    let src_back = chars_of("src\\");
    let dot_rs = chars_of(".rs");
    let lib = chars_of("lib");
    let main = chars_of("main");
    let mod_sfx = chars_of("::mod");
    let crate_w = chars_of("crate");
    let a = if starts_with(rel, src_slash.as_slice()) {
        slice_range(rel, src_slash.len(), rel.len())
    } else if starts_with(rel, src_back.as_slice()) {
        slice_range(rel, src_back.len(), rel.len())
    } else {
        slice_range(rel, 0, rel.len())
    };
    assert(a@ =~= (if has_prefix(rel@, "src/"@) {
        rel@.skip("src/"@.len() as int)
    } else if has_prefix(rel@, "src\\"@) {
        rel@.skip("src\\"@.len() as int)
    } else {
        rel@
    }));
    let b = if ends_with(a.as_slice(), dot_rs.as_slice()) {
        slice_range(a.as_slice(), 0, a.len() - dot_rs.len())
    } else {
        slice_range(a.as_slice(), 0, a.len())
    };
    assert(b@ =~= (if has_suffix(a@, ".rs"@) {
        a@.take(a@.len() - ".rs"@.len())
    } else {
        a@
    }));
    if b.len() == 0 || chars_eq(b.as_slice(), lib.as_slice()) || chars_eq(
        b.as_slice(),
        main.as_slice(),
    ) {
        return crate_w;
    }
    let c = slashes_to_seps_exec(b.as_slice());
    let d = if ends_with(c.as_slice(), mod_sfx.as_slice()) {
        slice_range(c.as_slice(), 0, c.len() - mod_sfx.len())
    } else {
        slice_range(c.as_slice(), 0, c.len())
    };
    assert(d@ =~= (if has_suffix(c@, "::mod"@) {
        c@.take(c@.len() - "::mod"@.len())
    } else {
        c@
    }));
    join_path_exec(crate_w.as_slice(), d.as_slice())
}

/// The directory prefix of a root, computed.
fn root_dir_exec(root: &[char]) -> (res: Vec<char>)
    ensures
        res@ == root_dir(root@),
{
    let mut slash: Vec<char> = Vec::new();
    slash.push('/');
    assert(slash@ =~= seq!['/']);
    if ends_with(root, slash.as_slice()) {
        slice_range(root, 0, root.len())
    } else {
        concat(root, slash.as_slice())
    }
}

proof fn lemma_components_nonempty(s: Seq<char>)
    ensures
        path_components(s).len() >= 1,
    decreases s.len(),
{
    if s.len() > 0 {
        lemma_components_nonempty(s.drop_last());
    }
}

/// The `/`-separated components of a path, computed.
fn path_components_exec(s: &[char]) -> (res: Vec<Vec<char>>)
    ensures
        chars_vv(res@) == path_components(s@),
{
    let mut done: Vec<Vec<char>> = Vec::new();
    let mut cur: Vec<char> = Vec::new();
    let mut i: usize = 0;
    assert(s@.take(0) =~= Seq::<char>::empty());
    assert(chars_vv(done@).push(cur@) =~= path_components(s@.take(0)));
    while i < s.len()
        invariant
            i <= s.len(),
            chars_vv(done@).push(cur@) == path_components(s@.take(i as int)),
        decreases s.len() - i,
    {
        let ghost t = s@.take(i + 1);
        proof {
            assert(t.drop_last() =~= s@.take(i as int));
            assert(t.last() == s@[i as int]);
            lemma_components_nonempty(s@.take(i as int));
        }
        let ghost before = chars_vv(done@);
        let ghost cur0 = cur@;
        if s[i] == '/' {
            let finished = cur;
            done.push(finished);
            cur = Vec::new();
            proof {
                assert(chars_vv(done@) =~= before.push(cur0));
                assert(chars_vv(done@).push(cur@) =~= before.push(cur0).push(Seq::<char>::empty()));
            }
        } else {
            cur.push(s[i]);
            proof {
                let q = before.push(cur0);
                assert(q.update(q.len() - 1, q.last().push(s@[i as int])) =~= before.push(cur@));
            }
        }
        i = i + 1;
    }
    assert(s@.take(s.len() as int) =~= s@);
    let ghost before = chars_vv(done@);
    done.push(cur);
    assert(chars_vv(done@) =~= before.push(cur@));
    done
}

/// Whether the characters are exactly `..`.
fn is_dot_dot(x: &[char]) -> (res: bool)
    ensures
        res == (x@ == seq!['.', '.']),
{
    let r = x.len() == 2 && x[0] == '.' && x[1] == '.';
    if r {
        assert(x@ =~= seq!['.', '.']);
    }
    r
}

/// The cleaned components, computed.
fn clean_components_exec(c: &Vec<Vec<char>>, abs: bool) -> (res: Vec<Vec<char>>)
    ensures
        chars_vv(res@) == clean_components(chars_vv(c@), abs),
{
    let ghost cv = chars_vv(c@);
    let mut res: Vec<Vec<char>> = Vec::new();
    let mut j: usize = 0;
    assert(cv.take(0) =~= Seq::<Seq<char>>::empty());
    assert(chars_vv(res@) =~= Seq::<Seq<char>>::empty());
    while j < c.len()
        invariant
            j <= c.len(),
            cv == chars_vv(c@),
            chars_vv(res@) == clean_components(cv.take(j as int), abs),
        decreases c.len() - j,
    {
        let ghost t = cv.take(j + 1);
        proof {
            assert(t.drop_last() =~= cv.take(j as int));
            assert(t.last() == cv[j as int]);
        }
        let x = &c[j];
        assert(x@ == cv[j as int]);
        let ghost before = chars_vv(res@);
        let is_dot = x.len() == 1 && x[0] == '.';
        if is_dot {
            assert(x@ =~= seq!['.']);
        }
        if x.len() == 0 || is_dot {
            proof {
                if x@ == seq!['.'] {
                    assert(x@.len() == 1);
                }
            }
        } else if is_dot_dot(x.as_slice()) {
            let back = res.len() > 0 && !is_dot_dot(res[res.len() - 1].as_slice());
            if back {
                assert(res@[res.len() - 1]@ == before.last());
                res.pop();
                assert(chars_vv(res@) =~= before.drop_last());
            } else if !abs {
                let y = slice_range(x.as_slice(), 0, x.len());
                assert(y@ =~= x@);
                res.push(y);
                assert(chars_vv(res@) =~= before.push(x@));
            }
        } else {
            proof {
                if x@ == seq!['.'] {
                    assert(x@.len() == 1 && x@[0] == '.');
                }
            }
            let y = slice_range(x.as_slice(), 0, x.len());
            assert(y@ =~= x@);
            res.push(y);
            assert(chars_vv(res@) =~= before.push(x@));
        }
        j = j + 1;
    }
    assert(cv.take(c.len() as int) =~= cv);
    res
}

/// Components joined with `/`, computed.
fn join_components_exec(c: &Vec<Vec<char>>) -> (res: Vec<char>)
    ensures
        res@ == join_components(chars_vv(c@)),
{
    let ghost cv = chars_vv(c@);
    if c.len() == 0 {
        return Vec::new();
    }
    let mut res = slice_range(c[0].as_slice(), 0, c[0].len());
    assert(res@ =~= c@[0]@);
    assert(cv.take(1) =~= seq![cv[0]]);
    let mut j: usize = 1;
    while j < c.len()
        invariant
            1 <= j <= c.len(),
            cv == chars_vv(c@),
            res@ == join_components(cv.take(j as int)),
        decreases c.len() - j,
    {
        let ghost t = cv.take(j + 1);
        proof {
            assert(t.drop_last() =~= cv.take(j as int));
            assert(t.last() == cv[j as int]);
        }
        let mut slash: Vec<char> = Vec::new();
        slash.push('/');
        let a = concat(res.as_slice(), slash.as_slice());
        res = concat(a.as_slice(), c[j].as_slice());
        assert(res@ =~= join_components(cv.take(j as int)) + seq!['/'] + cv[j as int]);
        j = j + 1;
    }
    assert(cv.take(c.len() as int) =~= cv);
    res
}

/// A path cleaned as the file system reads it, computed.
pub fn normalize_path_exec(s: &[char]) -> (res: Vec<char>)
    ensures
        res@ == normalize_path(s@),
{
    let abs = s.len() > 0 && s[0] == '/';
    let comps = path_components_exec(s);
    let cleaned = clean_components_exec(&comps, abs);
    let body = join_components_exec(&cleaned);
    if abs {
        let mut slash: Vec<char> = Vec::new();
        slash.push('/');
        assert(slash@ =~= seq!['/']);
        concat(slash.as_slice(), body.as_slice())
    } else {
        body
    }
}

/// `path` joined onto `root`, computed.
pub fn join_root_exec(root: &[char], path: &[char]) -> (res: Vec<char>)
    ensures
        res@ == join_root(root@, path@),
{
    let joined = if path.len() > 0 && path[0] == '/' {
        slice_range(path, 0, path.len())
    } else {
        let d = root_dir_exec(root);
        concat(d.as_slice(), path)
    };
    assert(joined@ =~= joined_text(root@, path@));
    normalize_path_exec(joined.as_slice())
}

/// The canonical module path for a file under `root` (e.g. `crate::utils` for
/// `root/src/utils.rs`); none when the path is not among `files` (the files that exist: the
/// indexed files, joined onto the root) or not under `root`.
pub fn file_to_module_path(root: &str, path: &str, files: &Vec<String>) -> (res: Option<String>)
    ensures
        match res {
            Some(m) => strings_v(files@).contains(path@) && spec_file_to_module_path(root@, path@)
                == Some(m@),
            None => !strings_v(files@).contains(path@) || spec_file_to_module_path(root@, path@) is None,
        },
{
    if !crate::graph::reach::contains_string(files, &path.to_owned()) {
        return None;
    }
    let r = normalize_path_exec(chars_of(root).as_slice());
    let p = normalize_path_exec(chars_of(path).as_slice());
    match below_root_exec(r.as_slice(), p.as_slice()) {
        Some(rel) => {
            let m = module_path_of_relative_exec(rel.as_slice());
            Some(string_from_chars(m.as_slice()))
        },
        None => None,
    }
}

/// What is left of a cleaned path below a cleaned root, computed.
fn below_root_exec(r: &[char], p: &[char]) -> (res: Option<Vec<char>>)
    ensures
        opt_vec_v(res) == below_root(r@, p@),
{
    if chars_eq(p, r) {
        let empty: Vec<char> = Vec::new();
        assert(empty@ =~= Seq::<char>::empty());
        return Some(empty);
    }
    if r.len() == 0 {
        let dd = chars_of("..");
        let dds = chars_of("../");
        proof {
            reveal_strlit("..");
            reveal_strlit("../");
            assert(dd@ =~= seq!['.', '.']);
            assert(dds@ =~= seq!['.', '.', '/']);
        }
        let climbs = chars_eq(p, dd.as_slice()) || starts_with(p, dds.as_slice());
        if p.len() > 0 && p[0] != '/' && !climbs {
            return Some(slice_range(p, 0, p.len()));
        }
        return None;
    }
    let d = root_dir_exec(r);
    if starts_with(p, d.as_slice()) {
        let rel = slice_range(p, d.len(), p.len());
        assert(rel@ =~= p@.skip(d@.len() as int));
        Some(rel)
    } else {
        None
    }
}

/// The view of an optional character vector.
pub open spec fn opt_vec_v(v: Option<Vec<char>>) -> Option<Seq<char>> {
    match v {
        Some(x) => Some(x@),
        None => None,
    }
}

/// The files a module path may live in, in the order they are tried: `src/lib.rs` then
/// `src/main.rs` for `crate::`, else `src/{rel}.rs` then `src/{rel}/mod.rs`. A path without
/// the `crate::` prefix is taken as it is.
pub open spec fn module_file_candidates(root: Seq<char>, mod_path: Seq<char>) -> Seq<Seq<char>> {
    let prefix = join_path(crate_word(), Seq::empty());
    let rest = if has_prefix(mod_path, prefix) {
        mod_path.skip(prefix.len() as int)
    } else {
        mod_path
    };
    if rest.len() == 0 {
        seq![join_root(root, "src/lib.rs"@), join_root(root, "src/main.rs"@)]
    } else {
        let rel = seps_to_slashes(rest);
        seq![
            join_root(root, "src/"@ + rel + ".rs"@),
            join_root(root, "src/"@ + rel + "/mod.rs"@),
        ]
    }
}

/// The first candidate file of a module path that exists, if any.
pub open spec fn spec_module_to_file(
    root: Seq<char>,
    mod_path: Seq<char>,
    existing: Seq<Seq<char>>,
) -> Option<Seq<char>> {
    let c = module_file_candidates(root, mod_path);
    if existing.contains(c[0]) {
        Some(c[0])
    } else if existing.contains(c[1]) {
        Some(c[1])
    } else {
        None
    }
}

/// Whether `s` is one of `v`.
pub fn contains_chars(v: &Vec<Vec<char>>, s: &[char]) -> (res: bool)
    ensures
        res == v@.map_values(|x: Vec<char>| x@).contains(s@),
{
    let ghost vv = v@.map_values(|x: Vec<char>| x@);
    let mut i: usize = 0;
    while i < v.len()
        invariant
            i <= v.len(),
            vv == v@.map_values(|x: Vec<char>| x@),
            forall|k: int| 0 <= k < i ==> vv[k] != s@,
        decreases v.len() - i,
    {
        if chars_eq(v[i].as_slice(), s) {
            assert(vv[i as int] == s@);
            return true;
        }
        i = i + 1;
    }
    false
}

/// The file a module path resolves to under `root`: the first of its candidate files that
/// is among `existing`.
pub fn resolve_module_to_file(root: &[char], mod_path: &[char], existing: &Vec<Vec<char>>) -> (res: Option<Vec<char>>)
    ensures
        match res {
            Some(f) => spec_module_to_file(root@, mod_path@, existing@.map_values(|x: Vec<char>| x@)) == Some(f@),
            None => spec_module_to_file(root@, mod_path@, existing@.map_values(|x: Vec<char>| x@)) is None,
        },
{
    let crate_w = chars_of("crate");
    let empty: Vec<char> = Vec::new();
    let prefix = join_path_exec(crate_w.as_slice(), empty.as_slice());
    assert(empty@ =~= Seq::<char>::empty());
    let rest = if starts_with(mod_path, prefix.as_slice()) {
        slice_range(mod_path, prefix.len(), mod_path.len())
    } else {
        slice_range(mod_path, 0, mod_path.len())
    };
    assert(rest@ =~= (if has_prefix(mod_path@, prefix@) {
        mod_path@.skip(prefix@.len() as int)
    } else {
        mod_path@
    }));
    let (c0, c1) = if rest.len() == 0 {
        (
            join_root_exec(root, chars_of("src/lib.rs").as_slice()),
            join_root_exec(root, chars_of("src/main.rs").as_slice()),
        )
    } else {
        let rel = seps_to_slashes_exec(rest.as_slice());
        let a = concat(chars_of("src/").as_slice(), rel.as_slice());
        let p0 = concat(a.as_slice(), chars_of(".rs").as_slice());
        let p1 = concat(a.as_slice(), chars_of("/mod.rs").as_slice());
        (join_root_exec(root, p0.as_slice()), join_root_exec(root, p1.as_slice()))
    };
    assert(seq![c0@, c1@] == module_file_candidates(root@, mod_path@));
    if contains_chars(existing, c0.as_slice()) {
        Some(c0)
    } else if contains_chars(existing, c1.as_slice()) {
        Some(c1)
    } else {
        None
    }
}

/// Split at each `::`, from the left, as `str::split("::")` does; `cur` is the segment begun.
pub open spec fn split_acc(s: Seq<char>, cur: Seq<char>) -> Seq<Seq<char>>
    decreases s.len(),
{
    if s.len() == 0 {
        seq![cur]
    } else if has_prefix(s, path_sep()) {
        seq![cur] + split_acc(s.skip(2), Seq::empty())
    } else {
        split_acc(s.skip(1), cur.push(s[0]))
    }
}

/// The non-empty `::`-separated segments of a path.
pub open spec fn path_segments(s: Seq<char>) -> Seq<Seq<char>> {
    split_acc(s, Seq::empty()).filter(|x: Seq<char>| x.len() > 0)
}

/// The segments joined with `::`.
pub open spec fn join_segments(ss: Seq<Seq<char>>) -> Seq<char>
    decreases ss.len(),
{
    if ss.len() == 0 {
        Seq::empty()
    } else if ss.len() == 1 {
        ss[0]
    } else {
        join_path(join_segments(ss.drop_last()), ss.last())
    }
}

/// The parent of a module path (`crate` for a top-level module).
pub open spec fn parent_module(current: Seq<char>) -> Seq<char> {
    match rsplit_once(current, path_sep()) {
        Some((p, _)) => p,
        None => crate_word(),
    }
}

/// The module path a `use` path names, relative to the module `current`, and the item it
/// names in that module, if it names one: `crate::a::b` is item `b` of `crate::a`, `self::`
/// starts at `current` and `super::` at its parent. Other paths name nothing here.
pub open spec fn use_target(use_path: Seq<char>, current: Seq<char>) -> Option<(Seq<char>, Option<Seq<char>>)> {
    let segs = path_segments(trim(use_path));
    if trim(use_path).len() == 0 || segs.len() == 0 {
        None
    } else {
        let base = if segs[0] == crate_word() {
            Some(crate_word())
        } else if segs[0] == "self"@ {
            Some(current)
        } else if segs[0] == "super"@ {
            Some(parent_module(current))
        } else {
            None
        };
        match base {
            None => None,
            Some(b) => if segs.len() == 1 {
                Some((b, None))
            } else if segs.len() == 2 {
                Some((join_path(b, segs[1]), None))
            } else {
                Some(
                    (
                        join_path(b, join_segments(segs.subrange(1, segs.len() - 1))),
                        Some(segs.last()),
                    ),
                )
            },
        }
    }
}

/// A payload without a leading `pub::`.
pub open spec fn strip_pub(p: Seq<char>) -> Seq<char> {
    if has_prefix(p, "pub::"@) {
        p.skip("pub::"@.len() as int)
    } else {
        p
    }
}

/// The `contains` steps of the store.
pub open spec fn contains_steps(store: Store) -> Steps {
    crate::graph::query::edge_steps(store.edge_rows(), seq!["contains"@].to_set())
}

/// A node inside `file_id` (reached from it by one or more `contains` edges) named `name`
/// or `pub::{name}`.
pub open spec fn is_item_in_file(store: Store, file_id: Seq<char>, name: Seq<char>, r: NodeV) -> bool {
    &&& reachable(contains_steps(store), step_targets(contains_steps(store), file_id).to_set(), r.0)
    &&& r.0 != file_id
    &&& strip_pub(payload_text(r.2)) == name
}

/// The first node, in node order, inside `file_id` named `name` or `pub::{name}`.
pub open spec fn spec_find_item(store: Store, file_id: Seq<char>, name: Seq<char>) -> Option<Seq<char>> {
    let items = store.node_rows().filter(|r: NodeV| is_item_in_file(store, file_id, name, r));
    if items.len() > 0 {
        Some(items[0].0)
    } else {
        None
    }
}

/// Where a `use` path written in module `current` leads: the file of the module it names,
/// and the item it names there when that item is found.
pub open spec fn spec_resolve_use_path(
    use_path: Seq<char>,
    current: Seq<char>,
    module_files: Assoc,
    store: Store,
) -> Option<(Seq<char>, Option<Seq<char>>)> {
    match use_target(use_path, current) {
        None => None,
        Some((mp, item)) => match assoc_get(module_files, mp) {
            None => None,
            Some(fid) => match item {
                Some(name) => Some((fid, spec_find_item(store, fid, name))),
                None => Some((fid, None)),
            },
        },
    }
}

/// The segments of a path at each `::`, empty ones included.
fn split_all(s: &[char]) -> (res: Vec<Vec<char>>)
    ensures
        res@.map_values(|x: Vec<char>| x@) == split_acc(s@, Seq::empty()),
{
    let sep = sep_chars();
    let mut all: Vec<Vec<char>> = Vec::new();
    let mut cur: Vec<char> = Vec::new();
    let mut i: usize = 0;
    assert(s@.skip(0) =~= s@);
    assert(all@.map_values(|x: Vec<char>| x@) + split_acc(s@, Seq::empty()) =~= split_acc(
        s@,
        Seq::empty(),
    ));
    while i < s.len()
        invariant
            i <= s.len(),
            sep@ == path_sep(),
            all@.map_values(|x: Vec<char>| x@) + split_acc(s@.skip(i as int), cur@) == split_acc(
                s@,
                Seq::empty(),
            ),
        decreases s.len() - i,
    {
        let ghost rest = s@.skip(i as int);
        let ghost before = all@.map_values(|x: Vec<char>| x@);
        if crate::text::matches_at(s, sep.as_slice(), i) {
            proof {
                assert(rest.take(2) =~= s@.subrange(i as int, i + 2));
                assert(has_prefix(rest, path_sep()));
                assert(rest.skip(2) =~= s@.skip(i + 2));
            }
            let ghost c = cur@;
            all.push(cur);
            cur = Vec::new();
            i = i + 2;
            proof {
                assert(all@.map_values(|x: Vec<char>| x@) =~= before.push(c));
                assert(cur@ =~= Seq::<char>::empty());
            }
        } else {
            proof {
                if has_prefix(rest, path_sep()) {
                    assert(s@.subrange(i as int, i + 2) =~= rest.take(2));
                }
                assert(rest.skip(1) =~= s@.skip(i + 1));
                assert(rest[0] == s@[i as int]);
            }
            cur.push(s[i]);
            i = i + 1;
        }
    }
    proof {
        assert(s@.skip(s.len() as int) =~= Seq::<char>::empty());
    }
    let ghost before = all@.map_values(|x: Vec<char>| x@);
    let ghost c = cur@;
    all.push(cur);
    assert(all@.map_values(|x: Vec<char>| x@) =~= before.push(c));
    all
}

/// The non-empty `::`-separated segments of a path.
pub fn path_segments_exec(s: &[char]) -> (res: Vec<Vec<char>>)
    ensures
        res@.map_values(|x: Vec<char>| x@) == path_segments(s@),
{
    let all = split_all(s);
    let ghost av = all@.map_values(|x: Vec<char>| x@);
    let ghost pred = |x: Seq<char>| x.len() > 0;
    let mut res: Vec<Vec<char>> = Vec::new();
    let mut i: usize = 0;
    proof {
        lemma_filter_ends(av, pred);
    }
    while i < all.len()
        invariant
            i <= all.len(),
            av == all@.map_values(|x: Vec<char>| x@),
            pred == (|x: Seq<char>| x.len() > 0),
            res@.map_values(|x: Vec<char>| x@) == av.take(i as int).filter(pred),
        decreases all.len() - i,
    {
        proof {
            lemma_filter_step(av, i as int, pred);
        }
        if all[i].len() > 0 {
            let ghost before = res@.map_values(|x: Vec<char>| x@);
            res.push(all[i].clone());
            assert(res@.map_values(|x: Vec<char>| x@) =~= before.push(av[i as int]));
        }
        i = i + 1;
    }
    proof {
        lemma_filter_ends(av, pred);
    }
    res
}

/// The segments joined with `::`, computed.
fn join_segments_exec(ss: &[Vec<char>]) -> (res: Vec<char>)
    ensures
        res@ == join_segments(ss@.map_values(|x: Vec<char>| x@)),
{
    let ghost sv = ss@.map_values(|x: Vec<char>| x@);
    if ss.len() == 0 {
        return Vec::new();
    }
    let mut res: Vec<char> = ss[0].clone();
    let mut i: usize = 1;
    assert(sv.take(1).drop_last() =~= Seq::<Seq<char>>::empty());
    while i < ss.len()
        invariant
            1 <= i <= ss.len(),
            sv == ss@.map_values(|x: Vec<char>| x@),
            res@ == join_segments(sv.take(i as int)),
        decreases ss.len() - i,
    {
        assert(sv.take(i + 1).drop_last() =~= sv.take(i as int));
        res = join_path_exec(res.as_slice(), ss[i].as_slice());
        i = i + 1;
    }
    assert(sv.take(ss.len() as int) =~= sv);
    res
}

/// The parent of a module path, computed.
fn parent_module_exec(current: &[char]) -> (res: Vec<char>)
    ensures
        res@ == parent_module(current@),
{
    let sep = sep_chars();
    match rsplit_once_chars(current, sep.as_slice()) {
        Some((p, _)) => p,
        None => chars_of("crate"),
    }
}

/// The module path and item a `use` path names, computed.
fn use_target_exec(use_path: &[char], current: &[char]) -> (res: Option<(Vec<char>, Option<Vec<char>>)>)
    ensures
        match res {
            Some((m, item)) => use_target(use_path@, current@) == Some((m@, match item {
                Some(n) => Some(n@),
                None => None,
            })),
            None => use_target(use_path@, current@) is None,
        },
{
    let p = trim_chars(use_path);
    if p.len() == 0 {
        return None;
    }
    let segs = path_segments_exec(p.as_slice());
    let ghost sv = segs@.map_values(|x: Vec<char>| x@);
    if segs.len() == 0 {
        return None;
    }
    assert(sv[0] == segs@[0]@);
    let base = if chars_eq(segs[0].as_slice(), chars_of("crate").as_slice()) {
        chars_of("crate")
    } else if chars_eq(segs[0].as_slice(), chars_of("self").as_slice()) {
        slice_range(current, 0, current.len())
    } else if chars_eq(segs[0].as_slice(), chars_of("super").as_slice()) {
        parent_module_exec(current)
    } else {
        return None;
    };
    let n = segs.len();
    if n == 1 {
        Some((base, None))
    } else if n == 2 {
        assert(sv[1] == segs@[1]@);
        Some((join_path_exec(base.as_slice(), segs[1].as_slice()), None))
    } else {
        let mid = join_segments_exec(&segs.as_slice()[1..n - 1]);
        assert(segs@.subrange(1, n - 1).map_values(|x: Vec<char>| x@) =~= sv.subrange(1, n - 1));
        assert(sv.last() == segs@[n - 1]@);
        Some((join_path_exec(base.as_slice(), mid.as_slice()), Some(segs[n - 1].clone())))
    }
}

/// A payload without a leading `pub::`, computed.
fn strip_pub_exec(p: &[char]) -> (res: Vec<char>)
    ensures
        res@ == strip_pub(p@),
{
    let pre = chars_of("pub::");
    if starts_with(p, pre.as_slice()) {
        slice_range(p, pre.len(), p.len())
    } else {
        slice_range(p, 0, p.len())
    }
}

/// Find the first node, in node order, contained (through `contains` edges) in `file_id`
/// whose payload is `name` or `pub::{name}`.
pub fn find_item_in_file(store: &Store, file_id: &str, name: &[char]) -> (res: Option<String>)
    requires
        store.wf(),
    ensures
        match res {
            Some(id) => spec_find_item(*store, file_id@, name@) == Some(id@),
            None => spec_find_item(*store, file_id@, name@) is None,
        },
{
    let types: [&str; 1] = ["contains"];
    let steps = edge_pairs(store, &types);
    proof {
        assert(strs_v(types@) =~= seq!["contains"@]);
    }
    let starts = step_ends(&steps, file_id, true);
    let reached = reach_closure(&steps, &starts);
    let rows = store.node_row_vec();
    let ghost nv = node_rows_v(rows@);
    let ghost pred = |r: NodeV| is_item_in_file(*store, file_id@, name@, r);
    let mut i: usize = 0;
    proof {
        lemma_filter_ends(nv, pred);
    }
    while i < rows.len()
        invariant
            i <= rows.len(),
            nv == node_rows_v(rows@),
            nv == store.node_rows(),
            steps_v(steps@) == contains_steps(*store),
            strings_v(starts@) == step_targets(contains_steps(*store), file_id@),
            forall|x: Seq<char>|
                strings_v(reached@).contains(x) <==> reachable(
                    steps_v(steps@),
                    strings_v(starts@).to_set(),
                    x,
                ),
            pred == (|r: NodeV| is_item_in_file(*store, file_id@, name@, r)),
            nv.take(i as int).filter(pred).len() == 0,
        decreases rows.len() - i,
    {
        let r = &rows[i];
        proof {
            lemma_filter_step(nv, i as int, pred);
            assert(nv[i as int] == r@);
        }
        let text = match &r.payload {
            Some(p) => chars_of(p.as_str()),
            None => chars_of("null"),
        };
        proof {
            reveal_strlit("null");
            assert(text@ == payload_text(r@.2));
        }
        if crate::graph::reach::contains_string(&reached, &r.id) && !crate::text::str_eq(
            r.id.as_str(),
            file_id,
        ) && chars_eq(strip_pub_exec(text.as_slice()).as_slice(), name) {
            proof {
                assert(pred(r@));
                lemma_filter_prefix(nv, pred, i + 1);
                assert(nv.take(i + 1).filter(pred) =~= seq![r@]);
                assert(nv.filter(pred).take(1) == seq![r@]);
                assert(nv.filter(pred).len() >= 1);
                assert(nv.filter(pred).take(1)[0] == nv.filter(pred)[0]);
                assert(nv.filter(pred)[0] == r@);
                assert(store.node_rows().filter(
                    |r: NodeV| is_item_in_file(*store, file_id@, name@, r),
                ) == nv.filter(pred));
            }
            return Some(r.id.clone());
        }
        i = i + 1;
    }
    proof {
        lemma_filter_ends(nv, pred);
    }
    None
}

/// Resolve a `use` path (e.g. `crate::utils::add`) written in module `current`: the file of
/// the module it names, and the node of the item it names there when that item is found.
pub fn resolve_use_path(
    use_path: &str,
    current: &str,
    module_files: &Vec<(String, String)>,
    store: &Store,
) -> (res: Option<(String, Option<String>)>)
    requires
        store.wf(),
    ensures
        match res {
            Some((f, item)) => spec_resolve_use_path(use_path@, current@, pairs_v(module_files@), *store)
                == Some((f@, match item {
                    Some(n) => Some(n@),
                    None => None,
                })),
            None => spec_resolve_use_path(use_path@, current@, pairs_v(module_files@), *store) is None,
        },
{
    let up = chars_of(use_path);
    let cur = chars_of(current);
    match use_target_exec(up.as_slice(), cur.as_slice()) {
        None => None,
        Some((mp, item)) => {
            let mp_s = string_from_chars(mp.as_slice());
            match assoc_lookup(module_files, mp_s.as_str()) {
                None => None,
                Some(fid) => match item {
                    Some(name) => {
                        let found = find_item_in_file(store, fid.as_str(), name.as_slice());
                        Some((fid, found))
                    },
                    None => Some((fid, None)),
                },
            }
        },
    }
}

/// The ids of the file nodes, in node order.
pub open spec fn file_ids_of(nodes: Seq<NodeV>) -> Seq<Seq<char>> {
    nodes.filter(|r: NodeV| r.1 == NodeType::File.name()).map_values(|r: NodeV| r.0)
}

/// Whether `fid` takes the crate root from the file recorded so far: it does when there is
/// none, or when the recorded one is not a `lib.rs` and `fid` is.
pub open spec fn takes_crate_root(module_files: Assoc, fid: Seq<char>) -> bool {
    match assoc_get(module_files, crate_word()) {
        None => true,
        Some(existing) => !contains_seq(existing, "lib.rs"@) && contains_seq(fid, "lib.rs"@),
    }
}

/// The (file → module path, module path → file) entries after the first `n` files.
pub open spec fn file_module_maps(root: Seq<char>, fids: Seq<Seq<char>>, n: nat) -> (Assoc, Assoc)
    decreases n,
{
    if n == 0 || n > fids.len() {
        (Seq::empty(), Seq::empty())
    } else {
        let (fm, mf) = file_module_maps(root, fids, (n - 1) as nat);
        let fid = fids[n - 1];
        match spec_file_to_module_path(root, join_root(root, fid)) {
            None => (fm, mf),
            Some(mp) => (
                fm.push((fid, mp)),
                if mp != crate_word() || takes_crate_root(mf, fid) {
                    mf.push((mp, fid))
                } else {
                    mf
                },
            ),
        }
    }
}

/// The entry a `contains` edge from a file to a `mod` declaration adds: the submodule's path
/// and the indexed file it lives in.
pub open spec fn submodule_entry(
    root: Seq<char>,
    nodes: Map<Seq<char>, (Seq<char>, Option<Seq<char>>)>,
    fids: Seq<Seq<char>>,
    file_modules: Assoc,
    e: EdgeV,
) -> Option<(Seq<char>, Seq<char>)> {
    if e.2 == EdgeType::Contains.name() && assoc_get(file_modules, e.0) is Some
        && nodes.contains_key(e.1) && nodes[e.1].0 == NodeType::Module.name() {
        let sub = join_path(assoc_get(file_modules, e.0)->0, payload_text(nodes[e.1].1));
        let paths = fids.map_values(|f: Seq<char>| join_root(root, f));
        match spec_module_to_file(root, sub, paths) {
            Some(t) => {
                let m = fids.filter(|f: Seq<char>| join_root(root, f) == t);
                if m.len() > 0 {
                    Some((sub, m[0]))
                } else {
                    None
                }
            },
            None => None,
        }
    } else {
        None
    }
}

/// The module → file entries after the first `n` edges.
pub open spec fn submodule_maps(
    root: Seq<char>,
    nodes: Map<Seq<char>, (Seq<char>, Option<Seq<char>>)>,
    fids: Seq<Seq<char>>,
    file_modules: Assoc,
    edges: Seq<EdgeV>,
    n: nat,
    start: Assoc,
) -> Assoc
    decreases n,
{
    if n == 0 || n > edges.len() {
        start
    } else {
        let prev = submodule_maps(root, nodes, fids, file_modules, edges, (n - 1) as nat, start);
        match submodule_entry(root, nodes, fids, file_modules, edges[n - 1]) {
            Some(entry) => prev.push(entry),
            None => prev,
        }
    }
}

/// The module maps of a store indexed under `root`: its file ids, and the entries from file
/// to module path and from module path to file.
pub struct ModuleMaps {
    pub file_ids: Vec<String>,
    pub file_modules: Vec<(String, String)>,
    pub module_files: Vec<(String, String)>,
}

/// What `build_module_maps` gives for a store indexed under `root`.
pub open spec fn spec_module_maps(root: Seq<char>, store: Store) -> (Seq<Seq<char>>, Assoc, Assoc) {
    let fids = file_ids_of(store.node_rows());
    let (fm, mf) = file_module_maps(root, fids, fids.len());
    (
        fids,
        fm,
        submodule_maps(root, store.node_map(), fids, fm, store.edge_rows(), store.edge_rows().len(), mf),
    )
}

/// The ids of the file nodes, in node order.
fn file_id_list(store: &Store) -> (res: Vec<String>)
    ensures
        strings_v(res@) == file_ids_of(store.node_rows()),
{
    let rows = store.node_row_vec();
    let ghost nv = node_rows_v(rows@);
    let ghost pred = |r: NodeV| r.1 == NodeType::File.name();
    let ghost f = |r: NodeV| r.0;
    let file_name = NodeType::File.as_str();
    let mut res: Vec<String> = Vec::new();
    let mut i: usize = 0;
    proof {
        lemma_filter_ends(nv, pred);
    }
    while i < rows.len()
        invariant
            i <= rows.len(),
            nv == node_rows_v(rows@),
            nv == store.node_rows(),
            file_name@ == NodeType::File.name(),
            pred == (|r: NodeV| r.1 == NodeType::File.name()),
            f == (|r: NodeV| r.0),
            strings_v(res@) == nv.take(i as int).filter(pred).map_values(f),
        decreases rows.len() - i,
    {
        let r = &rows[i];
        proof {
            lemma_filter_step(nv, i as int, pred);
            assert(nv[i as int] == r@);
        }
        if crate::text::str_eq(r.node_type.as_str(), file_name) {
            let ghost before = res@;
            res.push(r.id.clone());
            proof {
                crate::graph::query::lemma_map_push(nv.take(i as int).filter(pred), r@, f);
                assert(strings_v(res@) =~= strings_v(before).push(r.id@));
            }
        }
        i = i + 1;
    }
    proof {
        lemma_filter_ends(nv, pred);
    }
    res
}

/// Build the module maps: each indexed file's module path, and for each module path the file
/// it lives in, from the file nodes and from the `mod` declarations that files contain.
pub fn build_module_maps(store: &Store, root: &str) -> (res: ModuleMaps)
    requires
        store.wf(),
    ensures
        (strings_v(res.file_ids@), pairs_v(res.file_modules@), pairs_v(res.module_files@))
            == spec_module_maps(root@, *store),
{
    let fids = file_id_list(store);
    let ghost fv = strings_v(fids@);
    let rc = chars_of(root);
    let mut joined_all: Vec<String> = Vec::new();
    let mut q: usize = 0;
    while q < fids.len()
        invariant
            q <= fids.len(),
            fv == strings_v(fids@),
            rc@ == root@,
            strings_v(joined_all@) == fv.take(q as int).map_values(|f: Seq<char>| join_root(root@, f)),
        decreases fids.len() - q,
    {
        assert(fv[q as int] == fids@[q as int]@);
        let jc = join_root_exec(rc.as_slice(), chars_of(fids[q].as_str()).as_slice());
        let ghost jb = strings_v(joined_all@);
        joined_all.push(string_from_chars(jc.as_slice()));
        proof {
            assert(strings_v(joined_all@) =~= jb.push(join_root(root@, fv[q as int])));
            assert(fv.take(q + 1).map_values(|f: Seq<char>| join_root(root@, f)) =~= fv.take(
                q as int,
            ).map_values(|f: Seq<char>| join_root(root@, f)).push(join_root(root@, fv[q as int])));
        }
        q = q + 1;
    }
    assert(fv.take(fids.len() as int) =~= fv);
    let lib_rs = chars_of("lib.rs");
    let crate_w = chars_of("crate");
    let mut fm: Vec<(String, String)> = Vec::new();
    let mut mf: Vec<(String, String)> = Vec::new();
    let mut paths: Vec<Vec<char>> = Vec::new();
    let mut i: usize = 0;
    while i < fids.len()
        invariant
            i <= fids.len(),
            fv == strings_v(fids@),
            fv == file_ids_of(store.node_rows()),
            rc@ == root@,
            lib_rs@ == "lib.rs"@,
            crate_w@ == crate_word(),
            (pairs_v(fm@), pairs_v(mf@)) == file_module_maps(root@, fv, i as nat),
            strings_v(joined_all@) == fv.map_values(|f: Seq<char>| join_root(root@, f)),
            paths@.map_values(|x: Vec<char>| x@) == fv.take(i as int).map_values(
                |f: Seq<char>| join_root(root@, f),
            ),
        decreases fids.len() - i,
    {
        let fid = &fids[i];
        assert(fv[i as int] == fid@);
        let fc = chars_of(fid.as_str());
        let joined = join_root_exec(rc.as_slice(), fc.as_slice());
        let joined_s = string_from_chars(joined.as_slice());
        let ghost pbefore = paths@.map_values(|x: Vec<char>| x@);
        paths.push(joined);
        proof {
            assert(paths@.map_values(|x: Vec<char>| x@) =~= pbefore.push(join_root(root@, fid@)));
            assert(fv.take(i + 1).map_values(|f: Seq<char>| join_root(root@, f)) =~= fv.take(
                i as int,
            ).map_values(|f: Seq<char>| join_root(root@, f)).push(join_root(root@, fid@)));
        }
        assert(strings_v(joined_all@)[i as int] == joined_s@);
        match file_to_module_path(root, joined_s.as_str(), &joined_all) {
            None => {},
            Some(mp) => {
                let ghost fm0 = pairs_v(fm@);
                let ghost mf0 = pairs_v(mf@);
                let mpc = chars_of(mp.as_str());
                let is_crate = chars_eq(mpc.as_slice(), crate_w.as_slice());
                let take = if is_crate {
                    match assoc_lookup(&mf, "crate") {
                        None => true,
                        Some(existing) => {
                            let ec = chars_of(existing.as_str());
                            !contains(ec.as_slice(), lib_rs.as_slice()) && contains(
                                fc.as_slice(),
                                lib_rs.as_slice(),
                            )
                        },
                    }
                } else {
                    false
                };
                fm.push((fid.clone(), mp.clone()));
                if !is_crate || take {
                    mf.push((mp, fid.clone()));
                    assert(pairs_v(mf@) =~= mf0.push((mpc@, fid@)));
                }
                assert(pairs_v(fm@) =~= fm0.push((fid@, mpc@)));
            },
        }
        i = i + 1;
    }
    assert(fv.take(fids.len() as int) =~= fv);
    let ghost fmv = pairs_v(fm@);
    let ghost mf_start = pairs_v(mf@);
    let ghost nodes = store.node_map();
    let rows = store.edge_row_vec();
    let ghost ev = edge_rows_v(rows@);
    let contains_name = EdgeType::Contains.as_str();
    let module_name = NodeType::Module.as_str();
    let node_rows = store.node_row_vec();
    let mut j: usize = 0;
    while j < rows.len()
        invariant
            j <= rows.len(),
            store.wf(),
            ev == edge_rows_v(rows@),
            ev == store.edge_rows(),
            node_rows_v(node_rows@) == store.node_rows(),
            nodes == store.node_map(),
            fv == strings_v(fids@),
            fv == file_ids_of(store.node_rows()),
            fmv == pairs_v(fm@),
            (fmv, mf_start) == file_module_maps(root@, fv, fv.len()),
            rc@ == root@,
            contains_name@ == EdgeType::Contains.name(),
            module_name@ == NodeType::Module.name(),
            paths@.map_values(|x: Vec<char>| x@) == fv.map_values(|f: Seq<char>| join_root(root@, f)),
            pairs_v(mf@) == submodule_maps(root@, nodes, fv, fmv, ev, j as nat, mf_start),
        decreases rows.len() - j,
    {
        let e = &rows[j];
        assert(ev[j as int] == e@);
        let ghost prev = pairs_v(mf@);
        if crate::text::str_eq(e.edge_type.as_str(), contains_name) {
            match assoc_lookup(&fm, e.from_id.as_str()) {
                None => {},
                Some(current) => match crate::graph::query::find_node(store, e.to_id.as_str()) {
                    None => {},
                    Some(k) => {
                        let nr = &node_rows[k];
                        assert(node_rows@[k as int]@ == store.node_rows()[k as int]);
                        if crate::text::str_eq(nr.node_type.as_str(), module_name) {
                            let name = match &nr.payload {
                                Some(p) => chars_of(p.as_str()),
                                None => chars_of("null"),
                            };
                            proof {
                                reveal_strlit("null");
                                assert(name@ == payload_text(nr@.2));
                            }
                            let sub = join_path_exec(chars_of(current.as_str()).as_slice(), name.as_slice());
                            match resolve_module_to_file(rc.as_slice(), sub.as_slice(), &paths) {
                                None => {},
                                Some(t) => {
                                    let found = first_file_at(&fids, rc.as_slice(), t.as_slice());
                                    match found {
                                        Some(sub_fid) => {
                                            mf.push((string_from_chars(sub.as_slice()), sub_fid));
                                            assert(pairs_v(mf@) =~= prev.push(
                                                submodule_entry(root@, nodes, fv, fmv, e@)->0,
                                            ));
                                        },
                                        None => {},
                                    }
                                },
                            }
                        }
                    },
                },
            }
        }
        j = j + 1;
    }
    ModuleMaps { file_ids: fids, file_modules: fm, module_files: mf }
}

/// The first of `fids` whose path under `root` is `target`.
fn first_file_at(fids: &Vec<String>, root: &[char], target: &[char]) -> (res: Option<String>)
    ensures
        match res {
            Some(f) => {
                let m = strings_v(fids@).filter(|f: Seq<char>| join_root(root@, f) == target@);
                m.len() > 0 && m[0] == f@
            },
            None => strings_v(fids@).filter(|f: Seq<char>| join_root(root@, f) == target@).len() == 0,
        },
{
    let ghost fv = strings_v(fids@);
    let ghost pred = |f: Seq<char>| join_root(root@, f) == target@;
    let mut i: usize = 0;
    proof {
        lemma_filter_ends(fv, pred);
    }
    while i < fids.len()
        invariant
            i <= fids.len(),
            fv == strings_v(fids@),
            pred == (|f: Seq<char>| join_root(root@, f) == target@),
            fv.take(i as int).filter(pred).len() == 0,
        decreases fids.len() - i,
    {
        proof {
            lemma_filter_step(fv, i as int, pred);
            assert(fv[i as int] == fids@[i as int]@);
        }
        let j = join_root_exec(root, chars_of(fids[i].as_str()).as_slice());
        if chars_eq(j.as_slice(), target) {
            proof {
                lemma_filter_prefix(fv, pred, i + 1);
                assert(fv.take(i + 1).filter(pred) =~= seq![fv[i as int]]);
                assert(fv.filter(pred).len() >= 1);
                assert(fv.filter(pred).take(1)[0] == fv.filter(pred)[0]);
            }
            return Some(fids[i].clone());
        }
        i = i + 1;
    }
    proof {
        lemma_filter_ends(fv, pred);
    }
    None
}

/// The abstract (file id, use paths) pairs.
pub open spec fn sources_v(v: Seq<(String, Vec<String>)>) -> Seq<(Seq<char>, Seq<Seq<char>>)> {
    v.map_values(|p: (String, Vec<String>)| (p.0@, strings_v(p.1@)))
}

/// The use paths listed last for `fid`.
pub open spec fn use_paths_of(src: Seq<(Seq<char>, Seq<Seq<char>>)>, fid: Seq<char>) -> Option<Seq<Seq<char>>>
    decreases src.len(),
{
    if src.len() == 0 {
        None
    } else if src.last().0 == fid {
        Some(src.last().1)
    } else {
        use_paths_of(src.drop_last(), fid)
    }
}

/// What an `Imports` edge for a `use` path points at: the item it names when found, else the
/// file of the module it names.
pub open spec fn import_target(up: Seq<char>, current: Seq<char>, module_files: Assoc, store: Store) -> Option<Seq<char>> {
    match spec_resolve_use_path(up, current, module_files, store) {
        Some((f, item)) => match item {
            Some(n) => Some(n),
            None => Some(f),
        },
        None => None,
    }
}

/// The import targets of the first `n` use paths of a file in module `current`.
pub open spec fn file_import_targets(
    ups: Seq<Seq<char>>,
    current: Seq<char>,
    module_files: Assoc,
    store: Store,
    n: nat,
) -> Seq<Seq<char>>
    decreases n,
{
    if n == 0 || n > ups.len() {
        Seq::empty()
    } else {
        let prev = file_import_targets(ups, current, module_files, store, (n - 1) as nat);
        match import_target(ups[n - 1], current, module_files, store) {
            Some(t) => prev.push(t),
            None => prev,
        }
    }
}

/// The (file, target) imports of the first `n` files.
pub open spec fn import_pairs(
    fids: Seq<Seq<char>>,
    file_modules: Assoc,
    module_files: Assoc,
    store: Store,
    src: Seq<(Seq<char>, Seq<Seq<char>>)>,
    n: nat,
) -> Seq<(Seq<char>, Seq<char>)>
    decreases n,
{
    if n == 0 || n > fids.len() {
        Seq::empty()
    } else {
        let prev = import_pairs(fids, file_modules, module_files, store, src, (n - 1) as nat);
        let fid = fids[n - 1];
        match (assoc_get(file_modules, fid), use_paths_of(src, fid)) {
            (Some(mp), Some(ups)) => prev + file_import_targets(
                ups,
                mp,
                module_files,
                store,
                ups.len(),
            ).map_values(|t: Seq<char>| (fid, t)),
            _ => prev,
        }
    }
}

/// The `Imports` edges that `resolve_modules` adds to a store indexed under `root`, given the
/// `use` paths of its files.
pub open spec fn module_import_edges(
    root: Seq<char>,
    store: Store,
    src: Seq<(Seq<char>, Seq<Seq<char>>)>,
) -> Set<EdgeV> {
    let (fids, fm, mf) = spec_module_maps(root, store);
    import_pairs(fids, fm, mf, store, src, fids.len()).map_values(
        |p: (Seq<char>, Seq<char>)| (p.0, p.1, EdgeType::Imports.name()),
    ).to_set()
}

/// The use paths listed last for `fid`, computed.
fn use_paths_lookup<'a>(src: &'a Vec<(String, Vec<String>)>, fid: &str) -> (res: Option<&'a Vec<String>>)
    ensures
        match res {
            Some(v) => use_paths_of(sources_v(src@), fid@) == Some(strings_v(v@)),
            None => use_paths_of(sources_v(src@), fid@) is None,
        },
{
    let ghost sv = sources_v(src@);
    let mut i: usize = src.len();
    assert(sv.take(src@.len() as int) =~= sv);
    while i > 0
        invariant
            i <= src.len(),
            sv == sources_v(src@),
            use_paths_of(sv, fid@) == use_paths_of(sv.take(i as int), fid@),
        decreases i,
    {
        let ghost t = sv.take(i as int);
        assert(t.last() == (src@[i - 1].0@, strings_v(src@[i - 1].1@)));
        assert(t.drop_last() =~= sv.take(i - 1));
        if crate::text::str_eq(src[i - 1].0.as_str(), fid) {
            return Some(&src[i - 1].1);
        }
        i = i - 1;
    }
    assert(sv.take(0) =~= Seq::<(Seq<char>, Seq<Seq<char>>)>::empty());
    None
}

/// Resolve `mod` and `use` statements into `Imports` edges.
///
/// Builds the module maps from the file and module nodes, then for each file with a module
/// path resolves the `use` paths listed for it in `sources` (file id, use paths) and adds an
/// `Imports` edge from the file to the item, or to the module's file. Nodes are unchanged.
pub fn resolve_modules(store: &mut Store, root: &str, sources: &Vec<(String, Vec<String>)>)
    requires
        old(store).wf(),
    ensures
        final(store).wf(),
        final(store).edge_set() == old(store).edge_set().union(
            module_import_edges(root@, *old(store), sources_v(sources@)),
        ),
        final(store).node_rows() == old(store).node_rows(),
        final(store).dead_rows() == old(store).dead_rows(),
{
    let maps = build_module_maps(store, root);
    let ghost fv = strings_v(maps.file_ids@);
    let ghost fmv = pairs_v(maps.file_modules@);
    let ghost mfv = pairs_v(maps.module_files@);
    let ghost src = sources_v(sources@);
    let ghost st = *old(store);
    let mut out: Vec<(String, String)> = Vec::new();
    let mut i: usize = 0;
    while i < maps.file_ids.len()
        invariant
            i <= maps.file_ids.len(),
            *store == st,
            st.wf(),
            fv == strings_v(maps.file_ids@),
            fmv == pairs_v(maps.file_modules@),
            mfv == pairs_v(maps.module_files@),
            src == sources_v(sources@),
            pairs_v(out@) == import_pairs(fv, fmv, mfv, st, src, i as nat),
        decreases maps.file_ids.len() - i,
    {
        let fid = &maps.file_ids[i];
        assert(fv[i as int] == fid@);
        match assoc_lookup(&maps.file_modules, fid.as_str()) {
            None => {},
            Some(mp) => match use_paths_lookup(sources, fid.as_str()) {
                None => {},
                Some(ups) => {
                    let ghost base = pairs_v(out@);
                    let ghost upv = strings_v(ups@);
                    let mut k: usize = 0;
                    while k < ups.len()
                        invariant
                            k <= ups.len(),
                            *store == st,
                            st.wf(),
                            upv == strings_v(ups@),
                            pairs_v(out@) == base + file_import_targets(upv, mp@, mfv, st, k as nat).map_values(
                                |t: Seq<char>| (fid@, t),
                            ),
                            mfv == pairs_v(maps.module_files@),
                        decreases ups.len() - k,
                    {
                        assert(upv[k as int] == ups@[k as int]@);
                        let ghost before = pairs_v(out@);
                        match resolve_use_path(ups[k].as_str(), mp.as_str(), &maps.module_files, store) {
                            Some((f, item)) => {
                                let t = match item {
                                    Some(n) => n,
                                    None => f,
                                };
                                out.push((fid.clone(), t.clone()));
                                proof {
                                    let g = |x: Seq<char>| (fid@, x);
                                    crate::graph::query::lemma_map_push(
                                        file_import_targets(upv, mp@, mfv, st, k as nat),
                                        t@,
                                        g,
                                    );
                                    assert(pairs_v(out@) =~= before.push((fid@, t@)));
                                }
                            },
                            None => {},
                        }
                        k = k + 1;
                    }
                },
            },
        }
        i = i + 1;
    }
    let ghost rows = pairs_v(out@).map_values(
        |p: (Seq<char>, Seq<char>)| (p.0, p.1, EdgeType::Imports.name()),
    );
    assert(rows.to_set() == module_import_edges(root@, st, src));
    let mut j: usize = 0;
    while j < out.len()
        invariant
            j <= out.len(),
            store.wf(),
            rows == pairs_v(out@).map_values(
                |p: (Seq<char>, Seq<char>)| (p.0, p.1, EdgeType::Imports.name()),
            ),
            store.edge_set() == st.edge_set().union(rows.take(j as int).to_set()),
            store.node_rows() == st.node_rows(),
            store.dead_rows() == st.dead_rows(),
        decreases out.len() - j,
    {
        let from = NodeId(out[j].0.clone());
        let to = NodeId(out[j].1.clone());
        store.put_edge(&from, &to, &EdgeType::Imports);
        proof {
            assert(rows[j as int] == (from@, to@, EdgeType::Imports.name()));
            assert(rows.take(j + 1) =~= rows.take(j as int).push(rows[j as int]));
            lemma_push_to_set_insert(rows.take(j as int), rows[j as int]);
            assert(store.edge_set() =~= st.edge_set().union(rows.take(j + 1).to_set()));
        }
        j = j + 1;
    }
    assert(rows.take(out.len() as int) =~= rows);
}

/// The set of a sequence with one more element is the set with that element inserted.
pub proof fn lemma_push_to_set_insert<A>(s: Seq<A>, x: A)
    ensures
        s.push(x).to_set() == s.to_set().insert(x),
{
    assert forall|y: A| #[trigger] s.push(x).to_set().contains(y) <==> s.to_set().insert(x).contains(
        y,
    ) by {
        if s.contains(y) {
            let k = choose|k: int| 0 <= k < s.len() && s[k] == y;
            assert(s.push(x)[k] == y);
        }
        if y == x {
            assert(s.push(x)[s.len() as int] == y);
        }
        if s.push(x).contains(y) {
            let t = s.push(x);
            let k = choose|k: int| 0 <= k < t.len() && #[trigger] t[k] == y;
            if k < s.len() {
                assert(s[k] == y);
            }
        }
    }
    assert(s.push(x).to_set() =~= s.to_set().insert(x));
}

/// `super::` strips exactly the last segment: the parent of `p::s`, where the segment `s` holds
/// no `:`, is `p`.
pub proof fn law_parent_strips_last_segment(p: Seq<char>, s: Seq<char>)
    requires
        forall|i: int| 0 <= i < s.len() ==> s[i] != ':',
    ensures
        parent_module(p + path_sep() + s) == p,
{
    let t = p + path_sep() + s;
    let i0 = p.len() as int;
    assert(t.subrange(i0, i0 + 2) =~= path_sep());
    assert(crate::text::occurs_at(t, path_sep(), i0));
    assert forall|j: int| j > i0 implies !crate::text::occurs_at(t, path_sep(), j) by {
        if crate::text::occurs_at(t, path_sep(), j) {
            assert(t.subrange(j, j + 2)[0] == t[j]);
            assert(t.subrange(j, j + 2)[1] == t[j + 1]);
            assert(t[j + 1] == s[j + 1 - i0 - 2]);
        }
    }
    crate::text::lemma_last_occ(t, path_sep(), i0);
    assert(t.take(i0) =~= p);
}

/// A module path of one segment (no `:` in it) has the crate root as its parent.
pub proof fn law_parent_of_a_top_module_is_crate(s: Seq<char>)
    requires
        forall|i: int| 0 <= i < s.len() ==> s[i] != ':',
    ensures
        parent_module(s) == "crate"@,
{
    if crate::text::contains_seq(s, path_sep()) {
        let i = choose|i: int| crate::text::occurs_at(s, path_sep(), i);
        assert(s.subrange(i, i + 2)[0] == s[i]);
    }
}

} // verus!
