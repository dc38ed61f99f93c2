//! Skill management for the coding assistant: the text edits made to its rules file, and the
//! status decision.
//!
//! Positions are counted in characters of the content.

use vstd::prelude::*;

use crate::text::{
    chars_eq, chars_of, char_is_ws, concat, find_from, is_first_occurrence_from, lemma_first_exists_from, absent_from, lemma_trail_split,
    occurs_at, slice_range, str_eq, string_from_chars, trail_ws, trim, trim_chars, is_ws, lead_ws, lemma_lead_ws_bound, has_suffix,
};

verus! {

/// The block inserted into the assistant's rules file.
pub const SKILL_ENTRY: &'static str = "### ferrograph
- **ferrograph** (`skills/ferrograph/SKILL.md`) - Rust code intelligence via knowledge graph. Trigger: `/ferrograph`
When the user types `/ferrograph`, invoke the Skill tool with `skill: \"ferrograph\"` before doing anything else.";

/// The line that opens the skill block.
pub const BLOCK_START: &'static str = "### ferrograph\n";

/// What ends a block: a newline followed by a heading.
pub const HEADING_BREAK: &'static str = "\n#";

/// The skills heading line, once trimmed.
pub const SKILLS_HEADING: &'static str = "## Skills";

/// Position of the first newline at or after `pos` (or the end of `s`).
pub open spec fn next_newline(s: Seq<char>, pos: int) -> int
    decreases s.len() - pos,
{
    if pos >= s.len() {
        s.len() as int
    } else if s[pos] == '\n' {
        pos
    } else {
        next_newline(s, pos + 1)
    }
}

/// The line that starts at `pos`, without its line ending (as `str::lines` yields it:
/// a `\r` is dropped only when a `\n` follows it).
pub open spec fn line_at(s: Seq<char>, pos: int) -> Seq<char> {
    let nl = next_newline(s, pos);
    let raw = s.subrange(pos, nl);
    if nl < s.len() && raw.len() > 0 && raw.last() == '\r' {
        raw.drop_last()
    } else {
        raw
    }
}

/// Scans the lines from the line that starts at character `pos` on: the position just past
/// the first line that reads `## Skills` once trimmed, line terminator (`\n` or `\r\n`)
/// included, or the end of `s` when that line has none.
pub open spec fn heading_end_scan(s: Seq<char>, pos: int) -> Option<int>
    decreases s.len() + 1 - pos,
{
    if pos < 0 || pos >= s.len() {
        None
    } else {
        let nl = next_newline(s, pos);
        if trim(line_at(s, pos)) == SKILLS_HEADING@ {
            Some(if nl < s.len() { nl + 1 } else { s.len() as int })
        } else {
            proof {
                lemma_next_newline(s, pos);
            }
            heading_end_scan(s, nl + 1)
        }
    }
}

/// The position just past the `## Skills` heading line, if there is one.
pub open spec fn spec_skills_heading_end(s: Seq<char>) -> Option<int> {
    heading_end_scan(s, 0)
}

/// The block's span: from the first `### ferrograph\n` to the next heading (a line starting
/// with `#`): the line right after it when that line is a heading, else the next `\n#`, else
/// the end.
pub open spec fn spec_skill_block(s: Seq<char>) -> Option<(int, int)> {
    if exists|i: int| occurs_at(s, BLOCK_START@, i) {
        let start = choose|i: int| is_first_occurrence_from(s, BLOCK_START@, 0, i);
        let after = start + BLOCK_START@.len();
        if after < s.len() && s[after] == '#' {
            Some((start, after))
        } else if exists|j: int| j >= after && occurs_at(s, HEADING_BREAK@, j) {
            Some((start, choose|j: int| is_first_occurrence_from(s, HEADING_BREAK@, after, j)))
        } else {
            Some((start, s.len() as int))
        }
    } else {
        None
    }
}

/// `s` with the current entry put in place of the block.
pub open spec fn spec_replace_skill_block(s: Seq<char>) -> Seq<char> {
    match spec_skill_block(s) {
        Some((start, end)) => s.take(start) + SKILL_ENTRY@ + seq!['\n'] + s.skip(end),
        None => s,
    }
}

/// `s` with the block removed, together with the newline just before it if there is one.
pub open spec fn spec_remove_skill_block(s: Seq<char>) -> Seq<char> {
    match spec_skill_block(s) {
        Some((start, end)) => {
            let cut = if start > 0 && s[start - 1] == '\n' {
                start - 1
            } else {
                start
            };
            s.take(cut) + s.skip(end)
        },
        None => s,
    }
}

/// `s` with a blank line and the entry inserted at `pos`.
pub open spec fn spec_insert_after_position(s: Seq<char>, pos: int) -> Seq<char> {
    s.take(pos) + seq!['\n'] + SKILL_ENTRY@ + seq!['\n'] + s.skip(pos)
}

/// The number of characters that `trim_end` drops.
pub open spec fn trim_end(s: Seq<char>) -> Seq<char> {
    s.take(s.len() - trail_ws(s))
}

pub proof fn lemma_next_newline(s: Seq<char>, pos: int)
    requires
        0 <= pos <= s.len(),
    ensures
        pos <= next_newline(s, pos) <= s.len(),
        next_newline(s, pos) < s.len() ==> s[next_newline(s, pos)] == '\n',
        forall|k: int| pos <= k < next_newline(s, pos) ==> s[k] != '\n',
    decreases s.len() - pos,
{
    if pos < s.len() && s[pos] != '\n' {
        lemma_next_newline(s, pos + 1);
    }
}

/// Finds the first newline at or after `pos`.
fn find_newline(s: &[char], pos: usize) -> (res: usize)
    requires
        pos <= s.len(),
    ensures
        res == next_newline(s@, pos as int),
{
    let mut i = pos;
    while i < s.len() && s[i] != '\n'
        invariant
            pos <= i <= s.len(),
            next_newline(s@, pos as int) == next_newline(s@, i as int),
        decreases s.len() - i,
    {
        i = i + 1;
    }
    i
}

/// Finds the character position just past the `## Skills` heading line (including its newline).
pub fn find_skills_heading_end(content: &str) -> (res: Option<usize>)
    ensures
        match spec_skills_heading_end(content@) {
            Some(p) => res matches Some(r) && r == p,
            None => res is None,
        },
{
    let s = chars_of(content);
    let heading = chars_of(SKILLS_HEADING);
    let mut pos: usize = 0;
    while pos < s.len()
        invariant
            pos <= s.len(),
            heading@ == SKILLS_HEADING@,
            s@ == content@,
            heading_end_scan(s@, 0) == heading_end_scan(s@, pos as int),
        decreases s.len() - pos,
    {
        let nl = find_newline(s.as_slice(), pos);
        proof {
            lemma_next_newline(s@, pos as int);
        }
        let mut line_len = nl - pos;
        if nl < s.len() && line_len > 0 && s[nl - 1] == '\r' {
            line_len = line_len - 1;
        }
        let line = slice_range(s.as_slice(), pos, pos + line_len);
        assert(line@ == line_at(s@, pos as int)) by {
            if nl < s@.len() && nl - pos > 0 && s@[nl - 1] == '\r' {
                assert(s@.subrange(pos as int, nl as int).drop_last() =~= s@.subrange(
                    pos as int,
                    pos + line_len,
                ));
            }
        }
        let trimmed = trim_chars(line.as_slice());
        if chars_eq(trimmed.as_slice(), heading.as_slice()) {
            if nl < s.len() {
                return Some(nl + 1);
            } else {
                return Some(s.len());
            }
        }
        if nl == s.len() {
            assert(heading_end_scan(s@, nl + 1) == None::<int>);
            return None;
        }
        pos = nl + 1;
    }
    None
}

/// Inserts a blank line and the skill entry right after character position `pos`
/// (a position past the end inserts at the end).
pub fn insert_after_position(content: &str, pos: usize) -> (res: String)
    ensures
        res@ == spec_insert_after_position(
            content@,
            if pos <= content@.len() {
                pos as int
            } else {
                content@.len() as int
            },
        ),
{
    let s = chars_of(content);
    let p = if pos <= s.len() {
        pos
    } else {
        s.len()
    };
    let entry = chars_of(SKILL_ENTRY);
    let nl = ['\n'];
    let head = slice_range(s.as_slice(), 0, p);
    let tail = slice_range(s.as_slice(), p, s.len());
    let a = concat(head.as_slice(), &nl);
    let b = concat(a.as_slice(), entry.as_slice());
    let c = concat(b.as_slice(), &nl);
    let d = concat(c.as_slice(), tail.as_slice());
    assert(d@ =~= spec_insert_after_position(content@, p as int));
    string_from_chars(d.as_slice())
}

/// The span of the `### ferrograph` block in `s`.
fn block_span(s: &[char]) -> (res: Option<(usize, usize)>)
    ensures
        match spec_skill_block(s@) {
            Some((a, b)) => res matches Some((x, y)) && x == a && y == b,
            None => res is None,
        },
        res matches Some((x, y)) ==> x + BLOCK_START@.len() <= y <= s@.len(),
{
    let needle = chars_of(BLOCK_START);
    let brk = chars_of(HEADING_BREAK);
    match find_from(s, needle.as_slice(), 0) {
        None => {
            assert(!exists|i: int| occurs_at(s@, BLOCK_START@, i)) by {
                assert forall|i: int| !occurs_at(s@, BLOCK_START@, i) by {
                    if i < 0 {
                    }
                }
            }
            None
        },
        Some(start) => {
            let ghost st = choose|i: int| is_first_occurrence_from(s@, BLOCK_START@, 0, i);
            assert(is_first_occurrence_from(s@, BLOCK_START@, 0, start as int));
            assert(st == start) by {
                if st < start {
                    assert(!occurs_at(s@, BLOCK_START@, st));
                } else if st > start {
                    assert(!occurs_at(s@, BLOCK_START@, start as int));
                }
            }
            assert(occurs_at(s@, needle@, start as int));
            assert(start + needle@.len() <= s@.len());
            let slen = s.len();
            assert(needle.len() == needle@.len() && slen == s@.len());
            let after = start + needle.len();
            if after < slen && s[after] == '#' {
                return Some((start, after));
            }
            match find_from(s, brk.as_slice(), after) {
                Some(end) => {
                    let ghost en = choose|j: int|
                        is_first_occurrence_from(s@, HEADING_BREAK@, after as int, j);
                    assert(is_first_occurrence_from(s@, HEADING_BREAK@, after as int, end as int));
                    assert(en == end) by {
                        if en < end {
                            assert(!occurs_at(s@, HEADING_BREAK@, en));
                        } else if en > end {
                            assert(!occurs_at(s@, HEADING_BREAK@, end as int));
                        }
                    }
                    Some((start, end))
                },
                None => Some((start, s.len())),
            }
        },
    }
}

/// Finds the character range of the `### ferrograph` block: from `### ferrograph\n` up to the
/// next heading (a newline followed by `#`) or the end of the content.
pub fn find_skill_block(content: &str) -> (res: Option<(usize, usize)>)
    ensures
        match spec_skill_block(content@) {
            Some((a, b)) => res matches Some((x, y)) && x == a && y == b,
            None => res is None,
        },
{
    let s = chars_of(content);
    block_span(s.as_slice())
}

/// Whether the content holds a `### ferrograph` block.
pub fn has_skill_block(content: &str) -> (res: bool)
    ensures
        res == spec_skill_block(content@) is Some,
{
    find_skill_block(content).is_some()
}

/// The block's text without trailing whitespace.
pub fn extract_skill_block(content: &str) -> (res: Option<String>)
    ensures
        match spec_skill_block(content@) {
            Some((a, b)) => res matches Some(t) && t@ == trim_end(content@.subrange(a, b)),
            None => res is None,
        },
{
    let s = chars_of(content);
    match block_span(s.as_slice()) {
        None => None,
        Some((start, end)) => {
            let block = slice_range(s.as_slice(), start, end);
            let k = count_trail(block.as_slice());
            let t = slice_range(block.as_slice(), 0, block.len() - k);
            assert(t@ =~= trim_end(content@.subrange(start as int, end as int)));
            Some(string_from_chars(t.as_slice()))
        },
    }
}

fn count_trail(s: &[char]) -> (n: usize)
    ensures
        n == trail_ws(s@),
        n <= s.len(),
{
    let mut i: usize = s.len();
    while i > 0 && char_is_ws(s[i - 1])
        invariant
            i <= s.len(),
            forall|k: int| i <= k < s.len() ==> is_ws(s@[k]),
        decreases i,
    {
        i = i - 1;
    }
    proof {
        lemma_trail_split(s@, i as int);
        if i > 0 {
            assert(s@.take(i as int).last() == s@[i - 1]);
        }
    }
    s.len() - i
}

/// Replaces the existing `### ferrograph` block with the current entry (unchanged if absent).
pub fn replace_skill_block(content: &str) -> (res: String)
    ensures
        res@ == spec_replace_skill_block(content@),
{
    let s = chars_of(content);
    match block_span(s.as_slice()) {
        None => string_from_chars(s.as_slice()),
        Some((start, end)) => {
            let entry = chars_of(SKILL_ENTRY);
            let nl = ['\n'];
            let head = slice_range(s.as_slice(), 0, start);
            let tail = slice_range(s.as_slice(), end, s.len());
            let a = concat(head.as_slice(), entry.as_slice());
            let b = concat(a.as_slice(), &nl);
            let c = concat(b.as_slice(), tail.as_slice());
            assert(c@ =~= spec_replace_skill_block(content@));
            string_from_chars(c.as_slice())
        },
    }
}

/// Removes the `### ferrograph` block, and the newline just before it (unchanged if absent).
pub fn remove_skill_block(content: &str) -> (res: String)
    ensures
        res@ == spec_remove_skill_block(content@),
{
    let s = chars_of(content);
    match block_span(s.as_slice()) {
        None => string_from_chars(s.as_slice()),
        Some((start, end)) => {
            let cut = if start > 0 && s[start - 1] == '\n' {
                start - 1
            } else {
                start
            };
            let head = slice_range(s.as_slice(), 0, cut);
            let tail = slice_range(s.as_slice(), end, s.len());
            let c = concat(head.as_slice(), tail.as_slice());
            assert(c@ =~= spec_remove_skill_block(content@));
            string_from_chars(c.as_slice())
        },
    }
}

/// The content written to a rules file that does not exist yet.
pub open spec fn spec_fresh_claude_md() -> Seq<char> {
    "# Assistant Rules\n\n## Skills\n\n"@ + SKILL_ENTRY@ + seq!['\n']
}

/// `s` with a `## Skills` section holding the entry appended at its end.
pub open spec fn spec_append_skills_section(s: Seq<char>) -> Seq<char> {
    let base = if s.len() > 0 && s.last() == '\n' {
        s
    } else {
        s.push('\n')
    };
    base + "\n## Skills\n\n"@ + SKILL_ENTRY@ + seq!['\n']
}

/// What patching gives for the current content of the rules file (`None`: the file is missing):
/// a fresh file; the block replaced when present; the entry inserted under `## Skills`; or a
/// new `## Skills` section appended.
pub open spec fn spec_patch_claude_md(existing: Option<Seq<char>>) -> Seq<char> {
    match existing {
        None => spec_fresh_claude_md(),
        Some(s) => if spec_skill_block(s) is Some {
            spec_replace_skill_block(s)
        } else {
            match spec_skills_heading_end(s) {
                Some(pos) => spec_insert_after_position(s, pos),
                None => spec_append_skills_section(s),
            }
        },
    }
}

/// The characters of an optional string.
pub open spec fn opt_view(s: Option<&str>) -> Option<Seq<char>> {
    match s {
        Some(t) => Some(t@),
        None => None,
    }
}

/// Computes the patched rules file content from its current content (`None`: no file yet).
pub fn patch_claude_md(existing: Option<&str>) -> (res: String)
    ensures
        res@ == spec_patch_claude_md(opt_view(existing)),
{
    match existing {
        None => {
            let head = chars_of("# Assistant Rules\n\n## Skills\n\n");
            let entry = chars_of(SKILL_ENTRY);
            let nl = ['\n'];
            let a = concat(head.as_slice(), entry.as_slice());
            let b = concat(a.as_slice(), &nl);
            assert(nl@ =~= seq!['\n']);
            assert(b@ =~= spec_fresh_claude_md());
            let r = string_from_chars(b.as_slice());
            assert(r@ == spec_patch_claude_md(opt_view(existing)));
            r
        },
        Some(content) => {
            if has_skill_block(content) {
                let r = replace_skill_block(content);
                assert(r@ == spec_patch_claude_md(opt_view(existing)));
                return r;
            }
            match find_skills_heading_end(content) {
                Some(pos) => {
                    let r = insert_after_position(content, pos);
                    proof {
                        let p = spec_skills_heading_end(content@)->0;
                        lemma_heading_end_bound(content@);
                        assert(p <= content@.len());
                    }
                    assert(r@ == spec_patch_claude_md(opt_view(existing)));
                    r
                },
                None => {
                    let s = chars_of(content);
                    let nl = ['\n'];
                    assert(nl@ =~= seq!['\n']);
                    let base = if s.len() > 0 && s[s.len() - 1] == '\n' {
                        slice_range(s.as_slice(), 0, s.len())
                    } else {
                        concat(s.as_slice(), &nl)
                    };
                    assert(s@.subrange(0, s@.len() as int) =~= s@);
                    assert(s@ + seq!['\n'] =~= s@.push('\n'));
                    let sec = chars_of("\n## Skills\n\n");
                    let entry = chars_of(SKILL_ENTRY);
                    let a = concat(base.as_slice(), sec.as_slice());
                    let b = concat(a.as_slice(), entry.as_slice());
                    let c = concat(b.as_slice(), &nl);
                    assert(nl@ =~= seq!['\n']);
                    assert(c@ =~= spec_append_skills_section(content@));
                    let r = string_from_chars(c.as_slice());
                    assert(r@ == spec_patch_claude_md(opt_view(existing)));
                    r
                },
            }
        },
    }
}

proof fn lemma_heading_scan_bound(s: Seq<char>, pos: int)
    ensures
        heading_end_scan(s, pos) matches Some(p) ==> 0 < p <= s.len() && (s[p - 1] == '\n'
            || s[p - 1] == 's' || is_ws(s[p - 1])),
    decreases s.len() + 1 - pos,
{
    if 0 <= pos < s.len() {
        lemma_next_newline(s, pos);
        let nl = next_newline(s, pos);
        let line = line_at(s, pos);
        if trim(line) != SKILLS_HEADING@ {
            lemma_heading_scan_bound(s, nl + 1);
        } else if nl == s.len() {
            reveal_strlit("## Skills");
            assert(SKILLS_HEADING@.len() == 9);
            assert(line == s.subrange(pos, nl));
            let a = lead_ws(line) as int;
            lemma_lead_ws_bound(line);
            assert(a != line.len()) by {
                if a == line.len() {
                    assert(trim(line).len() == 0);
                }
            }
            if trail_ws(line) == 0 {
                let tr = trim(line);
                assert(tr == line.subrange(a, line.len() - trail_ws(line)));
                assert(tr.len() == 9);
                assert(a <= line.len());
                assert(tr.len() == line.len() - a);
                assert(a + 8 == line.len() - 1);
                assert(tr[8] == line[a + 8]);
                assert(line[line.len() - 1] == s[nl - 1]);
                assert(SKILLS_HEADING@[8] == 's');
            }
        }
    }
}

/// The heading end never lies past the end of the content.
pub proof fn lemma_heading_end_bound(s: Seq<char>)
    ensures
        spec_skills_heading_end(s) matches Some(p) ==> 0 < p <= s.len() && (s[p - 1] == '\n'
            || s[p - 1] == 's' || is_ws(s[p - 1])),
{
    lemma_heading_scan_bound(s, 0);
}

/// What uninstalling does to the rules file: the block removed, or nothing when there is none.
pub fn uninstall_claude_md(content: &str) -> (res: Option<String>)
    ensures
        match res {
            Some(t) => spec_skill_block(content@) is Some && t@ == spec_remove_skill_block(
                content@,
            ),
            None => spec_skill_block(content@) is None,
        },
{
    if has_skill_block(content) {
        Some(remove_skill_block(content))
    } else {
        None
    }
}

/// Installation state of the skill.
#[derive(Clone, Copy, Debug, PartialEq, Eq, Structural)]
pub enum InstallState {
    Installed,
    Outdated,
    NotInstalled,
}

impl InstallState {
    /// The label shown for the state.
    pub fn label(&self) -> (res: &'static str)
        ensures
            res@ == match *self {
                InstallState::Installed => "installed"@,
                InstallState::Outdated => "outdated"@,
                InstallState::NotInstalled => "not_installed"@,
            },
    {
        match self {
            InstallState::Installed => "installed",
            InstallState::Outdated => "outdated",
            InstallState::NotInstalled => "not_installed",
        }
    }
}

/// The skill status as the status command reports it.
#[derive(Clone, Copy, Debug, PartialEq, Eq, Structural)]
pub struct SkillStatus {
    pub state: InstallState,
    pub skill_file: bool,
    pub claude_md_entry: bool,
    pub up_to_date: bool,
}

/// `t` is the text that `content` holds for the block, without trailing whitespace.
pub open spec fn block_text_is(content: Seq<char>, t: Seq<char>) -> bool {
    spec_skill_block(content) matches Some((a, b)) && t == trim_end(content.subrange(a, b))
}

/// Decides the status from what is on disk: whether the skill file exists, whether its content
/// is the current one, and the content of the rules file if that file exists.
pub fn skill_status(skill_file: bool, skill_file_current: bool, claude_md: Option<&str>) -> (res:
    SkillStatus)
    ensures
        res.skill_file == skill_file,
        res.claude_md_entry == (match claude_md {
            Some(c) => spec_skill_block(c@) is Some,
            None => false,
        }),
        res.up_to_date == (skill_file && skill_file_current && match claude_md {
            Some(c) => block_text_is(c@, SKILL_ENTRY@),
            None => false,
        }),
        res.state == (if skill_file && res.claude_md_entry && res.up_to_date {
            InstallState::Installed
        } else if skill_file && res.claude_md_entry {
            InstallState::Outdated
        } else {
            InstallState::NotInstalled
        }),
{
    let skill_up_to_date = skill_file && skill_file_current;
    let (claude_md_entry, entry_up_to_date) = match claude_md {
        None => (false, false),
        Some(c) => {
            let entry = has_skill_block(c);
            let current = match extract_skill_block(c) {
                Some(t) => str_eq(t.as_str(), SKILL_ENTRY),
                None => false,
            };
            (entry, current)
        },
    };
    let up_to_date = skill_up_to_date && entry_up_to_date;
    let installed = skill_file && claude_md_entry;
    let state = if installed && up_to_date {
        InstallState::Installed
    } else if installed {
        InstallState::Outdated
    } else {
        InstallState::NotInstalled
    };
    SkillStatus { state, skill_file, claude_md_entry, up_to_date }
}

} // verus!

verus! {

/// No heading break (`\n#`) starts at or after `k` in `s`.
pub open spec fn no_break_from(s: Seq<char>, k: int) -> bool
    decreases s.len() - k,
{
    if k < 0 || k + 1 >= s.len() {
        true
    } else {
        !(s[k] == '\n' && s[k + 1] == '#') && no_break_from(s, k + 1)
    }
}

/// `no_break_from` holds at every later position.
proof fn lemma_no_break(s: Seq<char>, k: int, j: int)
    requires
        0 <= k <= j,
        j + 1 < s.len(),
        no_break_from(s, k),
    ensures
        !(s[j] == '\n' && s[j + 1] == '#'),
    decreases j - k,
{
    if k < j {
        lemma_no_break(s, k + 1, j);
    }
}

/// The shape of the entry: it opens with the block's first line, and no heading break starts
/// inside it after that line.
proof fn lemma_entry_shape()
    ensures
        SKILL_ENTRY@.len() > BLOCK_START@.len(),
        SKILL_ENTRY@.subrange(0, BLOCK_START@.len() as int) == BLOCK_START@,
        BLOCK_START@.len() == 15,
        HEADING_BREAK@ == seq!['\n', '#'],
        no_break_from(SKILL_ENTRY@, 15),
        SKILL_ENTRY@[15] == '-',
        !is_ws(SKILL_ENTRY@.last()),
{
    reveal_strlit("### ferrograph
- **ferrograph** (`skills/ferrograph/SKILL.md`) - Rust code intelligence via knowledge graph. Trigger: `/ferrograph`
When the user types `/ferrograph`, invoke the Skill tool with `skill: \"ferrograph\"` before doing anything else.");
    reveal_strlit("### ferrograph\n");
    reveal_strlit("\n#");
    assert(SKILL_ENTRY@.subrange(0, 15) =~= BLOCK_START@);
    assert(HEADING_BREAK@ =~= seq!['\n', '#']);
    assert(SKILL_ENTRY@.len() == 243);
    assert(SKILL_ENTRY@[242] == '.');
    assert(no_break_from(SKILL_ENTRY@, 200)) by {
        reveal_with_fuel(no_break_from, 45);
    }
    assert(no_break_from(SKILL_ENTRY@, 150)) by {
        reveal_with_fuel(no_break_from, 51);
    }
    assert(no_break_from(SKILL_ENTRY@, 100)) by {
        reveal_with_fuel(no_break_from, 51);
    }
    assert(no_break_from(SKILL_ENTRY@, 50)) by {
        reveal_with_fuel(no_break_from, 51);
    }
    assert(no_break_from(SKILL_ENTRY@, 15)) by {
        reveal_with_fuel(no_break_from, 36);
    }
}

/// The block's span, read back: where the block is, its first line is first found, and its
/// end is the first heading break after that line (or the end of the content).
proof fn lemma_block_facts(s: Seq<char>)
    ensures
        spec_skill_block(s) matches Some((a, b)) ==> {
            &&& is_first_occurrence_from(s, BLOCK_START@, 0, a)
            &&& a + BLOCK_START@.len() <= b <= s.len()
            &&& if a + BLOCK_START@.len() < s.len() && s[a + BLOCK_START@.len()] == '#' {
                b == a + BLOCK_START@.len()
            } else {
                is_first_occurrence_from(s, HEADING_BREAK@, a + BLOCK_START@.len(), b) || (b
                    == s.len() && absent_from(s, HEADING_BREAK@, a + BLOCK_START@.len()))
            }
        },
        spec_skill_block(s) is None ==> forall|i: int| !occurs_at(s, BLOCK_START@, i),
{
    if exists|i: int| occurs_at(s, BLOCK_START@, i) {
        let w = choose|i: int| occurs_at(s, BLOCK_START@, i);
        lemma_first_exists_from(s, BLOCK_START@, 0, w);
        let a = choose|i: int| is_first_occurrence_from(s, BLOCK_START@, 0, i);
        let after = a + BLOCK_START@.len();
        if after < s.len() && s[after] == '#' {
        } else if exists|j: int| j >= after && occurs_at(s, HEADING_BREAK@, j) {
            let wj = choose|j: int| j >= after && occurs_at(s, HEADING_BREAK@, j);
            lemma_first_exists_from(s, HEADING_BREAK@, after, wj);
        } else {
            assert(absent_from(s, HEADING_BREAK@, after));
        }
    }
}

/// A heading break at `j`, spelled out.
proof fn lemma_break_at(t: Seq<char>, j: int)
    requires
        HEADING_BREAK@ == seq!['\n', '#'],
    ensures
        occurs_at(t, HEADING_BREAK@, j) <==> (0 <= j && j + 2 <= t.len() && t[j] == '\n' && t[j
            + 1] == '#'),
{
    if 0 <= j && j + 2 <= t.len() {
        if t[j] == '\n' && t[j + 1] == '#' {
            assert(t.subrange(j, j + 2) =~= seq!['\n', '#']);
        }
        if occurs_at(t, HEADING_BREAK@, j) {
            assert(t.subrange(j, j + 2)[0] == t[j]);
            assert(t.subrange(j, j + 2)[1] == t[j + 1]);
        }
    }
}

/// The entry in place at `a`: when `t` is `pre` (of length `a`, without the block's first
/// line) followed by the entry, a newline and either nothing or a heading break, the block is
/// that entry and its newline, and replacing it changes nothing.
proof fn lemma_entry_in_place(t: Seq<char>, pre: Seq<char>, rest: Seq<char>)
    requires
        t == pre + SKILL_ENTRY@ + seq!['\n'] + rest,
        forall|j: int| 0 <= j < pre.len() ==> !occurs_at(t, BLOCK_START@, j),
        rest.len() == 0 || (rest.len() >= 2 && rest[0] == '\n' && rest[1] == '#'),
    ensures
        spec_skill_block(t) == Some((pre.len() as int, (pre.len() + SKILL_ENTRY@.len() + 1) as int)),
        spec_replace_skill_block(t) == t,
        block_text_is(t, SKILL_ENTRY@),
        block_ends_at_break(t),
{
    lemma_entry_shape();
    let e = SKILL_ENTRY@;
    let bs = BLOCK_START@;
    let a = pre.len() as int;
    let el = e.len() as int;
    let e2 = a + el + 1;
    let after = a + 15;
    assert(t.len() == e2 + rest.len());
    assert(forall|k: int| a <= k < a + el ==> #[trigger] t[k] == e[k - a]);
    assert(t[a + el] == '\n');
    assert(forall|k: int| e2 <= k < t.len() ==> #[trigger] t[k] == rest[k - e2]);
    assert(occurs_at(t, bs, a)) by {
        assert forall|m: int| 0 <= m < 15 implies #[trigger] t.subrange(a, a + 15)[m] == bs[m] by {
            assert(e.subrange(0, 15)[m] == e[m]);
        }
        assert(t.subrange(a, a + 15) =~= bs);
    }
    assert(is_first_occurrence_from(t, bs, 0, a));
    assert(t[after] == e[15]);
    assert forall|j: int| after <= j < e2 implies !occurs_at(t, HEADING_BREAK@, j) by {
        lemma_break_at(t, j);
        if j + 1 < a + el {
            lemma_no_break(e, 15, j - a);
        }
    }
    if rest.len() > 0 {
        lemma_break_at(t, e2);
        assert(is_first_occurrence_from(t, HEADING_BREAK@, after, e2));
    } else {
        assert forall|j: int| after <= j implies !occurs_at(t, HEADING_BREAK@, j) by {
            lemma_break_at(t, j);
        }
    }
    lemma_block_at(t, a, e2);
    assert(t.take(a) =~= pre);
    assert(t.skip(e2) =~= rest);
    assert(spec_replace_skill_block(t) =~= t);
    let blk = t.subrange(a, e2);
    assert(blk =~= e.push('\n'));
    assert(is_ws('\n'));
    assert(blk.drop_last() =~= e);
    assert(trail_ws(e) == 0);
    assert(trail_ws(blk) == 1);
    assert(trim_end(blk) =~= e);
}

/// The entry put in front of a heading: when `t` is `pre` (of length `a`, without the block's
/// first line) followed by the entry, a newline and a line that starts with `#`, the block is
/// the entry itself.
proof fn lemma_entry_before_heading(t: Seq<char>, pre: Seq<char>, rest: Seq<char>)
    requires
        t == pre + SKILL_ENTRY@ + seq!['\n'] + rest,
        forall|j: int| 0 <= j < pre.len() ==> !occurs_at(t, BLOCK_START@, j),
        rest.len() >= 1 && rest[0] == '#',
    ensures
        spec_skill_block(t) == Some((pre.len() as int, (pre.len() + SKILL_ENTRY@.len()) as int)),
        block_text_is(t, SKILL_ENTRY@),
{
    lemma_entry_shape();
    let e = SKILL_ENTRY@;
    let bs = BLOCK_START@;
    let a = pre.len() as int;
    let el = e.len() as int;
    let e2 = a + el + 1;
    let after = a + 15;
    assert(t.len() == e2 + rest.len());
    assert(forall|k: int| a <= k < a + el ==> #[trigger] t[k] == e[k - a]);
    assert(t[a + el] == '\n');
    assert(t[e2] == rest[0]);
    assert(occurs_at(t, bs, a)) by {
        assert forall|m: int| 0 <= m < 15 implies #[trigger] t.subrange(a, a + 15)[m] == bs[m] by {
            assert(e.subrange(0, 15)[m] == e[m]);
        }
        assert(t.subrange(a, a + 15) =~= bs);
    }
    assert(is_first_occurrence_from(t, bs, 0, a));
    assert(t[after] == e[15]);
    assert forall|j: int| after <= j < a + el implies !occurs_at(t, HEADING_BREAK@, j) by {
        lemma_break_at(t, j);
        if j + 1 < a + el {
            lemma_no_break(e, 15, j - a);
        } else {
            assert(t[j] == e[el - 1]);
            assert(is_ws('\n'));
        }
    }
    lemma_break_at(t, a + el);
    assert(is_first_occurrence_from(t, HEADING_BREAK@, after, a + el));
    lemma_block_at(t, a, a + el);
    let blk = t.subrange(a, a + el);
    assert(blk =~= e);
    assert(trail_ws(e) == 0);
    assert(trim_end(blk) =~= e);
}

/// The block, where there is one, ends at the end of the content or at a heading break (not
/// at a heading that starts the line right after the block's first line).
pub open spec fn block_ends_at_break(s: Seq<char>) -> bool {
    spec_skill_block(s) matches Some((a, b)) ==> (b == s.len() || s[b] == '\n')
}

/// Replacing the block puts the current entry in place: for every content that holds the
/// block, the replaced content still holds it and it reads back as the current entry.
/// Replacing is also idempotent: once the entry is in place, replacing the block again gives
/// the same content, whenever the block ends at a heading break or at the end. (Where a
/// heading starts the line right after the block's first line, the first replacement leaves
/// no blank line before that heading and the second adds one.)
pub proof fn law_replace_idempotent(s: Seq<char>)
    ensures
        spec_skill_block(s) is Some ==> spec_skill_block(spec_replace_skill_block(s)) is Some,
        spec_skill_block(s) is Some ==> block_text_is(spec_replace_skill_block(s), SKILL_ENTRY@),
        block_ends_at_break(s) ==> spec_replace_skill_block(spec_replace_skill_block(s))
            == spec_replace_skill_block(s),
        block_ends_at_break(s) && spec_skill_block(s) is Some ==> block_ends_at_break(
            spec_replace_skill_block(s),
        ),
{
    lemma_block_facts(s);
    match spec_skill_block(s) {
        None => {},
        Some((a, b)) => {
            lemma_entry_shape();
            let e = SKILL_ENTRY@;
            let bs = BLOCK_START@;
            let pre = s.take(a);
            let rest = s.skip(b);
            let t = pre + e + seq!['\n'] + rest;
            assert(t == spec_replace_skill_block(s));
            assert(forall|k: int| 0 <= k < a ==> #[trigger] t[k] == s[k]);
            assert(forall|k: int| a <= k < a + e.len() ==> #[trigger] t[k] == e[k - a]);
            assert forall|j: int| 0 <= j < a implies !occurs_at(t, bs, j) by {
                assert(!occurs_at(s, bs, j));
                if occurs_at(t, bs, j) {
                    assert forall|m: int| 0 <= m < 15 implies #[trigger] t.subrange(j, j + 15)[m]
                        == s.subrange(j, j + 15)[m] by {
                        if j + m >= a {
                            assert(s.subrange(a, a + 15)[j + m - a] == s[j + m]);
                            assert(e.subrange(0, 15)[j + m - a] == e[j + m - a]);
                        }
                    }
                    assert(t.subrange(j, j + 15) =~= s.subrange(j, j + 15));
                }
            }
            if b < s.len() && s[b] == '#' {
                assert(rest[0] == s[b]);
                lemma_entry_before_heading(t, pre, rest);
            } else {
                if b < s.len() {
                    lemma_break_at(s, b);
                    assert(rest[0] == s[b] && rest[1] == s[b + 1]);
                }
                lemma_entry_in_place(t, pre, rest);
            }
        },
    }
}

/// No newline stands below position `k` in `s`.
pub open spec fn no_newline_below(s: Seq<char>, k: int) -> bool
    decreases k,
{
    if k <= 0 {
        true
    } else {
        s[k - 1] != '\n' && no_newline_below(s, k - 1)
    }
}

proof fn lemma_no_newline_below(s: Seq<char>, k: int, m: int)
    requires
        no_newline_below(s, k),
        0 <= m < k,
    ensures
        s[m] != '\n',
    decreases k,
{
    if m < k - 1 {
        lemma_no_newline_below(s, k - 1, m);
    }
}

/// Inserting the entry at `pos` (the character before it, if any, not `h`) into content
/// without the block, where what follows is nothing or a heading break, and removing the block
/// again restores the content; in between the content holds the block.
#[verifier::rlimit(50)]
proof fn lemma_insert_then_remove_at(s: Seq<char>, pos: int)
    requires
        0 <= pos <= s.len(),
        pos == 0 || s[pos - 1] != 'h',
        forall|j: int| !occurs_at(s, BLOCK_START@, j),
        pos == s.len() || (pos + 1 < s.len() && s[pos] == '\n' && s[pos + 1] == '#'),
    ensures
        spec_skill_block(spec_insert_after_position(s, pos)) is Some,
        spec_remove_skill_block(spec_insert_after_position(s, pos)) == s,
        spec_replace_skill_block(spec_insert_after_position(s, pos)) == spec_insert_after_position(
            s,
            pos,
        ),
{
    lemma_entry_shape();
    reveal_strlit("### ferrograph\n");
    let bs = BLOCK_START@;
    assert(bs[13] == 'h');
    assert(no_newline_below(bs, 14)) by {
        reveal_with_fuel(no_newline_below, 15);
    }
    let e = SKILL_ENTRY@;
    let pre = s.take(pos) + seq!['\n'];
    let rest = s.skip(pos);
    let t = spec_insert_after_position(s, pos);
    assert(t =~= pre + e + seq!['\n'] + rest);
    assert(forall|k: int| 0 <= k < pos ==> #[trigger] t[k] == s[k]);
    assert(t[pos] == '\n');
    assert forall|j: int| 0 <= j < pre.len() implies !occurs_at(t, bs, j) by {
        assert(!occurs_at(s, bs, j));
        if occurs_at(t, bs, j) {
            if j + 15 <= pos {
                assert(t.subrange(j, j + 15) =~= s.subrange(j, j + 15));
            } else {
                let m = pos - j;
                assert(0 <= m < 15);
                assert(t.subrange(j, j + 15)[m] == t[pos]);
                if m < 14 {
                    lemma_no_newline_below(bs, 14, m);
                } else {
                    assert(t.subrange(j, j + 15)[13] == t[pos - 1]);
                }
            }
        }
    }
    if rest.len() > 0 {
        assert(rest[0] == s[pos] && rest[1] == s[pos + 1]);
    }
    lemma_entry_in_place(t, pre, rest);
    let end = pos + 1 + e.len() + 1;
    assert(t.take(pos) =~= s.take(pos));
    assert(t.skip(end) =~= s.skip(pos));
    assert(s.take(pos) + s.skip(pos) =~= s);
}

/// Installing under the `## Skills` heading and uninstalling again gives the content back: in
/// content without the block, whose heading line is followed by nothing or by a heading break
/// (a blank line and a heading), inserting the entry at the heading end and then removing the
/// block restores the content; in between the content holds the block.
pub proof fn law_insert_then_remove(s: Seq<char>)
    requires
        forall|j: int| !occurs_at(s, BLOCK_START@, j),
        spec_skills_heading_end(s) matches Some(p) && (p == s.len() || (p + 1 < s.len() && s[p]
            == '\n' && s[p + 1] == '#')),
    ensures
        spec_skills_heading_end(s) matches Some(p) && spec_skill_block(
            spec_insert_after_position(s, p),
        ) is Some && spec_remove_skill_block(spec_insert_after_position(s, p)) == s,
{
    let p = spec_skills_heading_end(s)->0;
    lemma_heading_end_bound(s);
    lemma_insert_then_remove_at(s, p);
}

/// No `###` starts below `k` in `s`.
pub open spec fn no_triple_hash_before(s: Seq<char>, k: int) -> bool
    decreases k,
{
    if k <= 0 {
        true
    } else {
        !(s[k - 1] == '#' && s[k] == '#' && s[k + 1] == '#') && no_triple_hash_before(s, k - 1)
    }
}

/// Where no `###` starts below `k`, neither does the block's first line.
proof fn lemma_no_start_below(s: Seq<char>, k: int)
    requires
        no_triple_hash_before(s, k),
        BLOCK_START@.len() == 15,
        BLOCK_START@[0] == '#' && BLOCK_START@[1] == '#' && BLOCK_START@[2] == '#',
    ensures
        forall|j: int| 0 <= j < k ==> !occurs_at(s, BLOCK_START@, j),
    decreases k,
{
    if k > 0 {
        lemma_no_start_below(s, k - 1);
        let j = k - 1;
        if occurs_at(s, BLOCK_START@, j) {
            assert(s.subrange(j, j + 15)[0] == s[j]);
            assert(s.subrange(j, j + 15)[1] == s[j + 1]);
            assert(s.subrange(j, j + 15)[2] == s[j + 2]);
        }
    }
}

/// Appending a `## Skills` section to content without the block (and not ending in the
/// block's first line without its newline) gives content whose block is the new entry, which
/// replacing leaves as it is.
#[verifier::rlimit(50)]
proof fn lemma_append_stable(s: Seq<char>)
    requires
        forall|j: int| !occurs_at(s, BLOCK_START@, j),
        s.len() == 0 || s.last() == '\n' || !has_suffix(s, "### ferrograph"@),
    ensures
        spec_skill_block(spec_append_skills_section(s)) is Some,
        spec_replace_skill_block(spec_append_skills_section(s)) == spec_append_skills_section(s),
{
    lemma_entry_shape();
    reveal_strlit("### ferrograph\n");
    reveal_strlit("### ferrograph");
    reveal_strlit("\n## Skills\n\n");
    let bs = BLOCK_START@;
    assert(bs[13] == 'h' && bs[0] == '#');
    assert(no_newline_below(bs, 14)) by {
        reveal_with_fuel(no_newline_below, 15);
    }
    let base = if s.len() > 0 && s.last() == '\n' {
        s
    } else {
        s.push('\n')
    };
    let lit = "\n## Skills\n\n"@;
    let l = base.len() as int;
    let pre = base + lit;
    let rest = Seq::<char>::empty();
    let t = spec_append_skills_section(s);
    assert(t =~= pre + SKILL_ENTRY@ + seq!['\n'] + rest);
    assert(lit.len() == 12 && lit[0] == '\n' && lit[10] == '\n' && lit[11] == '\n');
    assert(forall|k: int| 0 <= k < l ==> #[trigger] t[k] == base[k]);
    assert(t[l] == '\n' && t[l + 10] == '\n' && t[l + 11] == '\n');
    assert(t[l - 1] == '\n');
    assert forall|j: int| 0 <= j < pre.len() implies !occurs_at(t, bs, j) by {
        if occurs_at(t, bs, j) {
            if j + 15 <= l {
                assert(t.subrange(j, j + 15) =~= base.subrange(j, j + 15));
                if j + 15 <= s.len() {
                    assert(base.subrange(j, j + 15) =~= s.subrange(j, j + 15));
                    assert(!occurs_at(s, bs, j));
                } else {
                    assert(base == s.push('\n'));
                    assert(j == s.len() - 14);
                    assert forall|m: int| 0 <= m < 14 implies #[trigger] s.subrange(
                        s.len() - 14,
                        s.len() as int,
                    )[m] == "### ferrograph"@[m] by {
                        assert(t.subrange(j, j + 15)[m] == bs[m]);
                    }
                    assert(s.subrange(s.len() - 14, s.len() as int) =~= "### ferrograph"@);
                }
            } else if j < l {
                let m = l - j;
                assert(t.subrange(j, j + 15)[m] == t[l]);
                if m < 14 {
                    lemma_no_newline_below(bs, 14, m);
                } else {
                    assert(t.subrange(j, j + 15)[13] == t[l - 1]);
                }
            } else if j <= l + 10 {
                let m = l + 10 - j;
                assert(t.subrange(j, j + 15)[m] == t[l + 10]);
                lemma_no_newline_below(bs, 14, m);
            } else {
                assert(t.subrange(j, j + 15)[0] == t[j]);
            }
        }
    }
    lemma_entry_in_place(t, pre, rest);
}

/// Patching is idempotent where a patched file comes back the same: patching a missing file;
/// content that holds the block, where the block ends at a heading break or the end; content
/// without the block whose `## Skills` line is followed by nothing or a heading break; or
/// content without the block or the heading (unless it ends in the block's first line without
/// its newline). Patching the result again gives the same content.
pub proof fn law_patch_idempotent(existing: Option<Seq<char>>)
    requires
        existing matches Some(s) ==> if spec_skill_block(s) is Some {
            block_ends_at_break(s)
        } else {
            match spec_skills_heading_end(s) {
                Some(p) => p == s.len() || (p + 1 < s.len() && s[p] == '\n' && s[p + 1] == '#'),
                None => s.len() == 0 || s.last() == '\n' || !has_suffix(s, "### ferrograph"@),
            }
        },
    ensures
        spec_patch_claude_md(Some(spec_patch_claude_md(existing))) == spec_patch_claude_md(
            existing,
        ),
{
    match existing {
        Some(s) => {
            lemma_block_facts(s);
            if spec_skill_block(s) is Some {
                law_replace_idempotent(s);
            } else {
                match spec_skills_heading_end(s) {
                    Some(p) => {
                        lemma_heading_end_bound(s);
                        lemma_insert_then_remove_at(s, p);
                    },
                    None => {
                        lemma_append_stable(s);
                    },
                }
            }
        },
        None => {
            lemma_entry_shape();
            reveal_strlit("# Assistant Rules\n\n## Skills\n\n");
            reveal_strlit("### ferrograph\n");
            let pre = "# Assistant Rules\n\n## Skills\n\n"@;
            let t = spec_fresh_claude_md();
            let rest = Seq::<char>::empty();
            assert(t =~= pre + SKILL_ENTRY@ + seq!['\n'] + rest);
            assert(pre.len() == 30);
            assert(t[30] == SKILL_ENTRY@[0] && t[31] == SKILL_ENTRY@[1]);
            assert(SKILL_ENTRY@.subrange(0, 15)[0] == SKILL_ENTRY@[0]);
            assert(SKILL_ENTRY@.subrange(0, 15)[1] == SKILL_ENTRY@[1]);
            assert(no_triple_hash_before(t, 30)) by {
                reveal_with_fuel(no_triple_hash_before, 31);
            }
            lemma_no_start_below(t, 30);
            lemma_entry_in_place(t, pre, rest);
        },
    }
}

/// The block is at `(a, b)` when its first line is first found at `a` and `b` is the first
/// heading break after that line, or the end when there is none.
proof fn lemma_block_at(s: Seq<char>, a: int, b: int)
    requires
        is_first_occurrence_from(s, BLOCK_START@, 0, a),
        !(a + BLOCK_START@.len() < s.len() && s[a + BLOCK_START@.len()] == '#'),
        is_first_occurrence_from(s, HEADING_BREAK@, a + BLOCK_START@.len(), b) || (b == s.len()
            && absent_from(s, HEADING_BREAK@, a + BLOCK_START@.len())),
    ensures
        spec_skill_block(s) == Some((a, b)),
{
    let a2 = choose|i: int| is_first_occurrence_from(s, BLOCK_START@, 0, i);
    assert(is_first_occurrence_from(s, BLOCK_START@, 0, a2));
    assert(a2 == a) by {
        if a2 < a {
            assert(!occurs_at(s, BLOCK_START@, a2));
        } else if a2 > a {
            assert(!occurs_at(s, BLOCK_START@, a));
        }
    }
    let after = a + BLOCK_START@.len();
    if is_first_occurrence_from(s, HEADING_BREAK@, after, b) {
        let b2 = choose|j: int| is_first_occurrence_from(s, HEADING_BREAK@, after, j);
        assert(is_first_occurrence_from(s, HEADING_BREAK@, after, b2));
        assert(b2 == b) by {
            if b2 < b {
                assert(!occurs_at(s, HEADING_BREAK@, b2));
            } else if b2 > b {
                assert(!occurs_at(s, HEADING_BREAK@, b));
            }
        }
    } else {
        assert(!exists|j: int| j >= after && occurs_at(s, HEADING_BREAK@, j));
    }
}

} // verus!
