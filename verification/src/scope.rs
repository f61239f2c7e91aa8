//! Change detection. The caller decides the scope, never the formatter.
//!
//! Supported version control systems: git and jj. The caller's own diff hunks,
//! base against working tree, become the line ranges.

use crate::text;
use crate::text::{
    chars_of, find_char, has_prefix, has_suffix, parse_number, push_signed_decimal, split_lines,
    split_words, string_of, sub_chars, trimmed,
};
use crate::types;
use crate::types::{LineRange, Scope, ScopeView, ScopedFile, ScopedFileView, Vcs};
use vstd::prelude::*;

verus! {

/// Exclusion patterns that always apply.
pub fn default_excludes() -> (patterns: Vec<String>)
    ensures
        text::texts(patterns@) == seq![
            "generated/**"@,
            "**/generated/**"@,
            "vendor/**"@,
            "target/**"@,
            "node_modules/**"@,
        ],
{
    let mut patterns: Vec<String> = Vec::new();
    patterns.push("generated/**".to_string());
    patterns.push("**/generated/**".to_string());
    patterns.push("vendor/**".to_string());
    patterns.push("target/**".to_string());
    patterns.push("node_modules/**".to_string());
    assert(text::texts(patterns@) == seq![
        "generated/**"@,
        "**/generated/**"@,
        "vendor/**"@,
        "target/**"@,
        "node_modules/**"@,
    ]);
    patterns
}

/// Why no scope could be found.
#[derive(Debug)]
pub enum ScopeError {
    NotARepository,
    CommandFailed { cmd: String, status: String },
}

/// What a [`ScopeError`] stands for.
pub enum ScopeErrorView {
    NotARepository,
    CommandFailed { cmd: Seq<char>, status: Seq<char> },
}

impl View for ScopeError {
    type V = ScopeErrorView;

    open spec fn view(&self) -> ScopeErrorView {
        match self {
            ScopeError::NotARepository => ScopeErrorView::NotARepository,
            ScopeError::CommandFailed { cmd, status } => ScopeErrorView::CommandFailed {
                cmd: cmd@,
                status: status@,
            },
        }
    }
}

impl Clone for ScopeError {
    fn clone(&self) -> (copy: ScopeError)
        ensures
            copy@ == self@,
    {
        match self {
            ScopeError::NotARepository => ScopeError::NotARepository,
            ScopeError::CommandFailed { cmd, status } => ScopeError::CommandFailed {
                cmd: cmd.clone(),
                status: status.clone(),
            },
        }
    }
}

impl ScopeError {
    /// The message of the error, for people.
    pub fn message(&self) -> (message: String)
        ensures
            message@ == (match self@ {
                ScopeErrorView::NotARepository =>
                    "not a git or jj repository (no .git/.jj found in cwd or parents)"@,
                ScopeErrorView::CommandFailed { cmd, status } => "command `"@ + cmd + "` failed: "@
                    + status,
            }),
    {
        match self {
            ScopeError::NotARepository =>
                "not a git or jj repository (no .git/.jj found in cwd or parents)".to_string(),
            ScopeError::CommandFailed { cmd, status } => {
                let mut message = "command `".to_string();
                message.append(cmd.as_str());
                message.append("` failed: ");
                message.append(status.as_str());
                message
            },
        }
    }
}

/// How an exit code is written in a message.
pub open spec fn code_text(code: Option<i32>) -> Seq<char> {
    match code {
        Some(code) => "Some("@ + text::signed_decimal(code as int) + ")"@,
        None => "None"@,
    }
}

/// The error for a command that ran and did not succeed.
pub fn command_failed(cmd: &str, code: Option<i32>, stderr: &str) -> (error: ScopeError)
    ensures
        error@ == (ScopeErrorView::CommandFailed {
            cmd: cmd@,
            status: "exit "@ + code_text(code) + ": "@ + text::trim(stderr@),
        }),
{
    let mut status = "exit ".to_string();
    match code {
        Some(code) => {
            status.append("Some(");
            push_signed_decimal(&mut status, code);
            status.append(")");
        },
        None => {
            status.append("None");
        },
    }
    assert(status@ == "exit "@ + code_text(code));
    status.append(": ");
    let chars = chars_of(stderr);
    let core = trimmed(chars.as_slice());
    status.append(string_of(core.as_slice(), 0, core.len()).as_str());
    assert(core@.subrange(0, core@.len() as int) == core@);
    ScopeError::CommandFailed { cmd: cmd.to_string(), status }
}

/// Which repository markers a directory holds.
#[derive(Debug, Clone, Copy, PartialEq, Eq, Structural)]
pub struct RepoMarkers {
    pub git: bool,
    pub jj: bool,
}

/// The version control system of the nearest directory that is a repository;
/// git where a directory is one for both.
pub open spec fn nearest_vcs(dirs: Seq<RepoMarkers>) -> Option<Vcs>
    decreases dirs.len(),
{
    if dirs.len() == 0 {
        None
    } else if dirs[0].git {
        Some(Vcs::Git)
    } else if dirs[0].jj {
        Some(Vcs::Jj)
    } else {
        nearest_vcs(dirs.skip(1))
    }
}

/// Detects the version control system from the markers of the working directory
/// and each directory above it, the nearest first.
pub fn detect_vcs(dirs: &[RepoMarkers]) -> (vcs: Option<Vcs>)
    ensures
        vcs == nearest_vcs(dirs@),
{
    assert(dirs@.skip(0) == dirs@);
    for i in 0..dirs.len()
        invariant
            nearest_vcs(dirs@) == nearest_vcs(dirs@.skip(i as int)),
    {
        if dirs[i].git {
            return Some(Vcs::Git);
        }
        if dirs[i].jj {
            return Some(Vcs::Jj);
        }
        assert(dirs@.skip(i as int).skip(1) == dirs@.skip(i + 1));
    }
    None
}

/// The index of the first `@@` in `t`, or the length where there is none.
pub open spec fn first_double_at(t: Seq<char>) -> int
    decreases t.len(),
{
    if t.len() < 2 {
        t.len() as int
    } else if t[0] == '@' && t[1] == '@' {
        0
    } else {
        1 + first_double_at(t.skip(1))
    }
}

/// The new-side start and count of a range such as `5` or `5,3`, written
/// without its sign.
pub open spec fn start_and_count(t: Seq<char>) -> Option<(nat, nat)> {
    let comma = text::first_of(t, ',');
    if comma < t.len() {
        match (text::read_number(t.take(comma)), text::read_number(t.skip(comma + 1))) {
            (Ok(start), Ok(count)) => Some((start, count)),
            _ => None,
        }
    } else {
        match text::read_number(t) {
            Ok(start) => Some((start, 1)),
            _ => None,
        }
    }
}

/// The new-side start and count that a hunk header names: the second word
/// between its first `@@` and the next.
pub open spec fn hunk_new_range(header: Seq<char>) -> Option<(nat, nat)> {
    if text::starts_with(header, "@@"@) {
        let s = header.skip(2);
        let end = first_double_at(s);
        if end < s.len() {
            let parts = text::words(text::trim(s.take(end)));
            if parts.len() >= 2 && parts[1].len() > 0 && parts[1][0] == '+' {
                start_and_count(parts[1].skip(1))
            } else {
                None
            }
        } else {
            None
        }
    } else {
        None
    }
}

proof fn lemma_first_double_at(t: Seq<char>, i: int)
    requires
        0 <= i <= t.len(),
        forall|j: int| 0 <= j < i && j + 1 < t.len() ==> !(#[trigger] t[j] == '@' && t[j + 1]
            == '@'),
        i < t.len() ==> i + 1 < t.len() && t[i] == '@' && t[i + 1] == '@',
    ensures
        first_double_at(t) == i,
    decreases t.len(),
{
    if t.len() >= 2 && i > 0 {
        assert(!(t[0] == '@' && t[1] == '@'));
        let rest = t.skip(1);
        assert forall|j: int| 0 <= j < i - 1 && j + 1 < rest.len() implies !(
        #[trigger] rest[j] == '@' && rest[j + 1] == '@') by {
            assert(!(t[j + 1] == '@' && t[j + 2] == '@'));
        }
        lemma_first_double_at(rest, i - 1);
    }
}

/// Finds the first `@@`, or the end.
fn find_double_at(text: &[char]) -> (at: usize)
    ensures
        at <= text@.len(),
        at == first_double_at(text@),
{
    let mut i: usize = 0;
    while i < text.len() && !(text[i] == '@' && i + 1 < text.len() && text[i + 1] == '@')
        invariant
            i <= text@.len(),
            forall|j: int|
                0 <= j < i && j + 1 < text@.len() ==> !(#[trigger] text@[j] == '@' && text@[j + 1]
                    == '@'),
        decreases text@.len() - i,
    {
        i += 1;
    }
    proof {
        lemma_first_double_at(text@, i as int);
    }
    i
}

/// Reads a range such as `5` or `5,3`.
fn parse_start_and_count(text: &[char]) -> (range: Option<(usize, usize)>)
    ensures
        match range {
            Some((start, count)) => start_and_count(text@) == Some((start as nat, count as nat)),
            None => start_and_count(text@) is None,
        },
{
    let comma: usize = find_char(text, 0, ',');
    assert(text@.skip(0) == text@);
    if comma < text.len() {
        let front = sub_chars(text, 0, comma);
        let back = sub_chars(text, comma + 1, text.len());
        assert(front@ == text@.take(comma as int));
        assert(back@ == text@.skip(comma + 1));
        match (parse_number(front.as_slice()), parse_number(back.as_slice())) {
            (Ok(start), Ok(count)) => Some((start, count)),
            _ => None,
        }
    } else {
        match parse_number(text) {
            Ok(start) => Some((start, 1)),
            _ => None,
        }
    }
}

/// Parses a unified-diff hunk header line like `@@ -4,0 +5 @@` or
/// `@@ -10,3 +12,4 @@` into its new-side (working-tree) 1-based start and
/// count; a count of zero is a pure deletion.
pub fn parse_hunk_new_range(header: &str) -> (range: Option<(usize, usize)>)
    ensures
        match range {
            Some((start, count)) => hunk_new_range(header@) == Some((start as nat, count as nat)),
            None => hunk_new_range(header@) is None,
        },
{
    let chars = chars_of(header);
    hunk_range_of(&chars)
}

/// Parses a hunk header.
fn hunk_range_of(header: &Vec<char>) -> (range: Option<(usize, usize)>)
    ensures
        match range {
            Some((start, count)) => hunk_new_range(header@) == Some((start as nat, count as nat)),
            None => hunk_new_range(header@) is None,
        },
{
    proof {
        reveal_strlit("@@");
    }
    if !has_prefix(header.as_slice(), "@@") {
        return None;
    }
    let s = sub_chars(header.as_slice(), 2, header.len());
    assert(s@ == header@.skip(2));
    let end: usize = find_double_at(s.as_slice());
    if end >= s.len() {
        return None;
    }
    let inner = sub_chars(s.as_slice(), 0, end);
    assert(inner@ == s@.take(end as int));
    let body = trimmed(inner.as_slice());
    let parts = split_words(body.as_slice());
    if parts.len() < 2 {
        return None;
    }
    let new = &parts[1];
    assert(text::rows(parts@)[1] == new@);
    if new.len() == 0 || new[0] != '+' {
        return None;
    }
    let range = sub_chars(new.as_slice(), 1, new.len());
    assert(range@ == new@.skip(1));
    parse_start_and_count(range.as_slice())
}

/// Where a reader of a diff stands after some lines: the ranges and the added
/// lines so far, whether it is inside a hunk, and how many new-side lines of the
/// hunk are still to come by its header.
pub struct DiffReader {
    pub ranges: Seq<LineRange>,
    pub added: nat,
    pub in_hunk: bool,
    pub left: nat,
}

/// Whether a line inside a hunk belongs to the header of the next file: it
/// starts a git diff, or, once the hunk has all its new lines, names a side.
pub open spec fn starts_file(line: Seq<char>, left: nat) -> bool {
    ||| text::starts_with(line, "diff "@)
    ||| left == 0 && (text::starts_with(line, "--- "@) || text::starts_with(line, "+++ "@))
}

/// One less, but not below zero.
pub open spec fn one_less(n: nat) -> nat {
    if n > 0 {
        (n - 1) as nat
    } else {
        0
    }
}

/// Reads one more line. A hunk header gives a range, where its count is not
/// zero. Inside a hunk every line that starts with `+` is an added line; the
/// header of the next file ends the hunk.
pub open spec fn read_line(r: DiffReader, line: Seq<char>) -> DiffReader {
    if text::starts_with(line, "@@"@) {
        match hunk_new_range(line) {
            Some((start, count)) => DiffReader {
                ranges: if count > 0 {
                    r.ranges.push(
                        LineRange { start: start as usize, end: (start + count - 1) as usize },
                    )
                } else {
                    r.ranges
                },
                added: r.added,
                in_hunk: true,
                left: count,
            },
            None => DiffReader { in_hunk: false, ..r },
        }
    } else if !r.in_hunk {
        r
    } else if starts_file(line, r.left) {
        DiffReader { in_hunk: false, ..r }
    } else if text::starts_with(line, "+"@) {
        DiffReader { added: r.added + 1, left: one_less(r.left), ..r }
    } else if text::starts_with(line, "-"@) || text::starts_with(line, "\\"@) {
        r
    } else {
        DiffReader { left: one_less(r.left), ..r }
    }
}

/// Reads the lines of a diff.
pub open spec fn read_diff(lines: Seq<Seq<char>>) -> DiffReader
    decreases lines.len(),
{
    if lines.len() == 0 {
        DiffReader { ranges: Seq::empty(), added: 0, in_hunk: false, left: 0 }
    } else {
        read_line(read_diff(lines.drop_last()), lines.last())
    }
}

/// Every range that the headers of a diff name ends within `usize`.
pub open spec fn ranges_fit(lines: Seq<Seq<char>>) -> bool {
    forall|i: int|
        0 <= i < lines.len() ==> (hunk_new_range(#[trigger] lines[i]) matches Some((
            start,
            count,
        )) ==> start + count <= usize::MAX)
}

/// Whether every range that the headers of a diff name ends within `usize`.
pub fn diff_ranges_fit(diff_text: &str) -> (fit: bool)
    ensures
        fit == ranges_fit(text::lines(diff_text@)),
{
    let chars = chars_of(diff_text);
    let all = split_lines(chars.as_slice());
    let ghost wanted = text::lines(diff_text@);
    for i in 0..all.len()
        invariant
            text::rows(all@) == wanted,
            wanted == text::lines(diff_text@),
            forall|j: int|
                0 <= j < i ==> (hunk_new_range(#[trigger] wanted[j]) matches Some((
                    start,
                    count,
                )) ==> start + count <= usize::MAX),
    {
        assert(text::rows(all@)[i as int] == all@[i as int]@);
        if let Some((start, count)) = hunk_range_of(&all[i]) {
            if start > usize::MAX - count {
                assert(hunk_new_range(wanted[i as int]) == Some((start as nat, count as nat)));
                return false;
            }
        }
    }
    true
}

/// Parses unified diff text into new-side ranges (working-tree coordinates)
/// plus the number of added lines on the new side.
///
/// Ranges come from hunk headers; for a diff without context these are tight
/// change ranges. Every added line inside a hunk is counted, whatever the context
/// and whatever it holds.
pub fn parse_new_ranges(diff_text: &str) -> (parsed: (Vec<LineRange>, usize))
    requires
        ranges_fit(text::lines(diff_text@)),
    ensures
        parsed.0@ == read_diff(text::lines(diff_text@)).ranges,
        parsed.1 == read_diff(text::lines(diff_text@)).added,
{
    let chars = chars_of(diff_text);
    let all = split_lines(chars.as_slice());
    let ghost wanted = text::lines(diff_text@);
    let mut ranges: Vec<LineRange> = Vec::new();
    let mut added: usize = 0;
    let mut in_hunk = false;
    let mut left: usize = 0;
    assert(wanted.take(0) == Seq::<Seq<char>>::empty());
    for i in 0..all.len()
        invariant
            text::rows(all@) == wanted,
            ranges_fit(wanted),
            added <= i,
            ({
                let reader = read_diff(wanted.take(i as int));
                &&& reader.ranges == ranges@
                &&& reader.added == added
                &&& reader.in_hunk == in_hunk
                &&& reader.left == left
            }),
    {
        let line = &all[i];
        proof {
            assert(text::rows(all@)[i as int] == line@);
            assert(wanted.take(i + 1).drop_last() == wanted.take(i as int));
            assert(wanted.take(i + 1).last() == line@);
        }
        if has_prefix(line.as_slice(), "@@") {
            match hunk_range_of(line) {
                Some((start, count)) => {
                    assert(hunk_new_range(wanted[i as int]) == Some((start as nat, count as nat)));
                    in_hunk = true;
                    left = count;
                    if count > 0 {
                        ranges.push(LineRange::new(start, start + count - 1));
                    }
                },
                None => {
                    in_hunk = false;
                },
            }
        } else if in_hunk {
            if has_prefix(line.as_slice(), "diff ") || (left == 0 && (has_prefix(
                line.as_slice(),
                "--- ",
            ) || has_prefix(line.as_slice(), "+++ "))) {
                in_hunk = false;
            } else if has_prefix(line.as_slice(), "+") {
                added += 1;
                left = left.saturating_sub(1);
            } else if !has_prefix(line.as_slice(), "-") && !has_prefix(line.as_slice(), "\\") {
                left = left.saturating_sub(1);
            }
        }
    }
    assert(wanted.take(wanted.len() as int) == wanted);
    (ranges, added)
}

/// Whether a glob pattern matches the whole of `t`: `*` stands for any
/// characters but `/`, `**` for any characters at all, and every other
/// character for itself.
pub open spec fn glob(p: Seq<char>, t: Seq<char>) -> bool
    decreases p.len(),
{
    if p.len() == 0 {
        t.len() == 0
    } else if p.len() >= 2 && p[0] == '*' && p[1] == '*' {
        exists|i: int| 0 <= i <= t.len() && glob(p.skip(2), #[trigger] t.skip(i))
    } else if p[0] == '*' {
        exists|i: int|
            0 <= i <= text::first_of(t, '/') && glob(p.skip(1), #[trigger] t.skip(i))
    } else {
        t.len() > 0 && t[0] == p[0] && glob(p.skip(1), t.skip(1))
    }
}

/// Whether some pattern matches the path.
pub open spec fn excluded(path: Seq<char>, patterns: Seq<Seq<char>>) -> bool {
    exists|i: int| 0 <= i < patterns.len() && glob(#[trigger] patterns[i], path)
}

/// Matches the pattern from `at` on against the text from `from` on.
fn glob_from(pattern: &[char], at: usize, text: &[char], from: usize) -> (yes: bool)
    requires
        at <= pattern@.len(),
        from <= text@.len(),
    ensures
        yes == glob(pattern@.skip(at as int), text@.skip(from as int)),
    decreases pattern@.len() - at,
{
    let ghost p = pattern@.skip(at as int);
    let ghost t = text@.skip(from as int);
    if at == pattern.len() {
        return from == text.len();
    }
    if pattern[at] == '*' {
        let double = at + 1 < pattern.len() && pattern[at + 1] == '*';
        let rest: usize = if double {
            at + 2
        } else {
            at + 1
        };
        let last: usize = if double {
            text.len()
        } else {
            find_char(text, from, '/')
        };
        proof {
            assert(p.skip(rest - at) == pattern@.skip(rest as int));
            assert(from <= last <= text@.len()) by {
                text::lemma_first_of_bounds(t, '/');
            }
        }
        let mut i: usize = from;
        while i < last
            invariant
                from <= i <= last,
                from <= last <= text@.len(),
                at < rest <= pattern@.len(),
                p == pattern@.skip(at as int),
                t == text@.skip(from as int),
                p.skip(rest - at) == pattern@.skip(rest as int),
                p.len() > 0 && p[0] == '*',
                rest == at + 2 <==> p.len() >= 2 && p[1] == '*',
                rest == at + 1 || rest == at + 2,
                rest == at + 2 ==> last - from == t.len(),
                rest == at + 1 ==> last - from == text::first_of(t, '/'),
                forall|j: int|
                    0 <= j < i - from ==> !glob(p.skip(rest - at), #[trigger] t.skip(j)),
            decreases last - i,
        {
            assert(t.skip(i - from) == text@.skip(i as int));
            if glob_from(pattern, rest, text, i) {
                assert(glob(p.skip(rest - at), t.skip(i - from)));
                return true;
            }
            i += 1;
        }
        assert(t.skip(last - from) == text@.skip(last as int));
        return glob_from(pattern, rest, text, last);
    }
    if from == text.len() || text[from] != pattern[at] {
        return false;
    }
    assert(p.skip(1) == pattern@.skip(at + 1));
    assert(t.skip(1) == text@.skip(from + 1));
    glob_from(pattern, at + 1, text, from + 1)
}

/// Matches a path against one pattern: `*` matches within a path segment, `**`
/// crosses segments.
pub fn glob_match(pattern: &str, path: &str) -> (yes: bool)
    ensures
        yes == glob(pattern@, path@),
{
    let p = chars_of(pattern);
    let t = chars_of(path);
    assert(p@.skip(0) == p@);
    assert(t@.skip(0) == t@);
    glob_from(p.as_slice(), 0, t.as_slice(), 0)
}

/// Whether some pattern matches the path.
pub fn is_excluded(path: &str, patterns: &[String]) -> (yes: bool)
    ensures
        yes == excluded(path@, text::texts(patterns@)),
{
    for i in 0..patterns.len()
        invariant
            forall|j: int| 0 <= j < i ==> !glob(#[trigger] text::texts(patterns@)[j], path@),
    {
        assert(text::texts(patterns@)[i as int] == patterns@[i as int]@);
        if glob_match(patterns[i].as_str(), path) {
            return true;
        }
    }
    false
}

/// A pattern without `*` matches exactly itself.
pub proof fn law_plain_pattern(p: Seq<char>, t: Seq<char>)
    requires
        !p.contains('*'),
    ensures
        glob(p, t) <==> p == t,
    decreases p.len(),
{
    if p.len() == 0 {
        if t.len() == 0 {
            assert(p == t);
        }
    } else {
        assert(p.contains(p[0]));
        assert(!p.skip(1).contains('*')) by {
            if p.skip(1).contains('*') {
                let i = choose|i: int| 0 <= i < p.skip(1).len() && p.skip(1)[i] == '*';
                assert(p[i + 1] == '*');
            }
        }
        if t.len() > 0 {
            law_plain_pattern(p.skip(1), t.skip(1));
            if p[0] == t[0] && p.skip(1) == t.skip(1) {
                assert(p == seq![p[0]] + p.skip(1));
                assert(t == seq![t[0]] + t.skip(1));
            }
        }
    }
}

/// A directory followed by `**` matches exactly the paths below it, however
/// deep.
pub proof fn law_double_star_crosses_segments(dir: Seq<char>, t: Seq<char>)
    requires
        !dir.contains('*'),
    ensures
        glob(dir + seq!['*', '*'], t) <==> text::starts_with(t, dir),
    decreases dir.len(),
{
    let p = dir + seq!['*', '*'];
    if dir.len() == 0 {
        assert(p == seq!['*', '*']);
        assert(p.skip(2).len() == 0);
        assert(glob(p.skip(2), t.skip(t.len() as int)));
        assert(t.take(0) == dir);
    } else {
        assert(dir.contains(dir[0]));
        assert(!dir.skip(1).contains('*')) by {
            if dir.skip(1).contains('*') {
                let i = choose|i: int| 0 <= i < dir.skip(1).len() && dir.skip(1)[i] == '*';
                assert(dir[i + 1] == '*');
            }
        }
        assert(p.skip(1) == dir.skip(1) + seq!['*', '*']);
        if t.len() > 0 {
            law_double_star_crosses_segments(dir.skip(1), t.skip(1));
            lemma_starts_with_skip(t, dir);
        }
    }
}

/// A directory followed by `*` matches exactly the paths directly in it: the
/// star crosses no `/`.
pub proof fn law_star_stays_in_segment(dir: Seq<char>, t: Seq<char>)
    requires
        !dir.contains('*'),
    ensures
        glob(dir + seq!['*'], t) <==> text::starts_with(t, dir)
            && !t.skip(dir.len() as int).contains(
            '/',
        ),
    decreases dir.len(),
{
    let p = dir + seq!['*'];
    if dir.len() == 0 {
        assert(p == seq!['*']);
        assert(p.skip(1).len() == 0);
        assert(t.take(0) == dir);
        assert(t.skip(0) == t);
        text::lemma_first_of_bounds(t, '/');
        assert forall|i: int| 0 <= i <= t.len() implies glob(
            p.skip(1),
            #[trigger] t.skip(i),
        ) == (i == t.len()) by {}
        if t.contains('/') {
            let i = choose|i: int| 0 <= i < t.len() && t[i] == '/';
            assert(text::first_of(t, '/') <= i);
        } else {
            assert(glob(p.skip(1), t.skip(t.len() as int)));
            if text::first_of(t, '/') < t.len() {
                assert(t.contains(t[text::first_of(t, '/')]));
            }
        }
    } else {
        assert(dir.contains(dir[0]));
        assert(!dir.skip(1).contains('*')) by {
            if dir.skip(1).contains('*') {
                let i = choose|i: int| 0 <= i < dir.skip(1).len() && dir.skip(1)[i] == '*';
                assert(dir[i + 1] == '*');
            }
        }
        assert(p.skip(1) == dir.skip(1) + seq!['*']);
        if t.len() > 0 {
            law_star_stays_in_segment(dir.skip(1), t.skip(1));
            lemma_starts_with_skip(t, dir);
            if text::starts_with(t, dir) {
                assert(t.skip(1).skip(dir.skip(1).len() as int) == t.skip(dir.len() as int));
            }
        }
    }
}

proof fn lemma_starts_with_skip(t: Seq<char>, prefix: Seq<char>)
    requires
        t.len() > 0,
        prefix.len() > 0,
    ensures
        text::starts_with(t, prefix) <==> t[0] == prefix[0] && text::starts_with(t.skip(1),
            prefix.skip(1)),
{
    if t.len() >= prefix.len() {
        let n = prefix.len() as int;
        assert(t.skip(1).take(n - 1) == t.take(n).skip(1));
        if t[0] == prefix[0] && t.take(n).skip(1) == prefix.skip(1) {
            assert(t.take(n) == seq![t[0]] + t.take(n).skip(1));
            assert(prefix == seq![prefix[0]] + prefix.skip(1));
        }
    }
}

/// Whether a trimmed line of the list of changed files names a file of the
/// scope. jj lists every changed file, git only Rust files.
pub open spec fn names_scoped_file(
    vcs: Vcs,
    path: Seq<char>,
    patterns: Seq<Seq<char>>,
) -> bool {
    &&& path.len() > 0
    &&& vcs == Vcs::Jj ==> text::ends_with(path, ".rs"@)
    &&& !excluded(path, patterns)
}

/// The paths of the scope among the lines of the list of changed files, in
/// their order.
pub open spec fn scoped_paths(
    vcs: Vcs,
    listed: Seq<Seq<char>>,
    patterns: Seq<Seq<char>>,
) -> Seq<Seq<char>>
    decreases listed.len(),
{
    if listed.len() == 0 {
        Seq::empty()
    } else {
        let before = scoped_paths(vcs, listed.drop_last(), patterns);
        let path = text::trim(listed.last());
        if names_scoped_file(vcs, path, patterns) {
            before.push(path)
        } else {
            before
        }
    }
}

/// The files of the scope, from what the version control system lists as
/// changed.
pub fn changed_files(vcs: Vcs, listing: &str, excludes: &[String]) -> (paths: Vec<String>)
    ensures
        text::texts(paths@) == scoped_paths(vcs, text::lines(listing@), text::texts(excludes@)),
{
    let chars = chars_of(listing);
    let all = split_lines(chars.as_slice());
    let ghost listed = text::lines(listing@);
    let ghost patterns = text::texts(excludes@);
    let mut paths: Vec<String> = Vec::new();
    assert(listed.take(0) == Seq::<Seq<char>>::empty());
    assert(text::texts(paths@) == Seq::<Seq<char>>::empty());
    for i in 0..all.len()
        invariant
            text::rows(all@) == listed,
            patterns == text::texts(excludes@),
            text::texts(paths@) == scoped_paths(vcs, listed.take(i as int), patterns),
    {
        let path = trimmed(all[i].as_slice());
        let name = string_of(path.as_slice(), 0, path.len());
        proof {
            assert(text::rows(all@)[i as int] == all@[i as int]@);
            assert(listed.take(i + 1).drop_last() == listed.take(i as int));
            assert(path@.subrange(0, path@.len() as int) == path@);
        }
        let rust = match vcs {
            Vcs::Git => true,
            Vcs::Jj => has_suffix(path.as_slice(), ".rs"),
        };
        if path.len() > 0 && rust && !is_excluded(name.as_str(), excludes) {
            let ghost before = text::texts(paths@);
            paths.push(name);
            assert(text::texts(paths@) == before.push(path@));
        }
    }
    assert(listed.take(listed.len() as int) == listed);
    paths
}

/// A command line: the program, then its arguments.
pub open spec fn list_command_of(vcs: Vcs, base: Seq<char>) -> Seq<Seq<char>> {
    match vcs {
        Vcs::Git => seq![
            "git"@,
            "diff"@,
            "--name-only"@,
            "--diff-filter=ACMR"@,
            base,
            "--"@,
            "*.rs"@,
        ],
        Vcs::Jj => seq!["jj"@, "diff"@, "--name-only"@],
    }
}

/// The command that lists the changed files: the program, then its arguments.
pub fn list_command(vcs: Vcs, base: &str) -> (command: Vec<String>)
    ensures
        text::texts(command@) == list_command_of(vcs, base@),
{
    let mut command: Vec<String> = Vec::new();
    match vcs {
        Vcs::Git => {
            command.push("git".to_string());
            command.push("diff".to_string());
            command.push("--name-only".to_string());
            command.push("--diff-filter=ACMR".to_string());
            command.push(base.to_string());
            command.push("--".to_string());
            command.push("*.rs".to_string());
        },
        Vcs::Jj => {
            command.push("jj".to_string());
            command.push("diff".to_string());
            command.push("--name-only".to_string());
        },
    }
    assert(text::texts(command@) == list_command_of(vcs, base@));
    command
}

/// A command line: the program, then its arguments.
pub open spec fn diff_command_of(vcs: Vcs, base: Seq<char>, path: Seq<char>) -> Seq<Seq<char>> {
    match vcs {
        Vcs::Git => seq!["git"@, "diff"@, "--unified=0"@, base, "--"@, path],
        Vcs::Jj => seq!["jj"@, "diff"@, "--git"@, "--"@, path],
    }
}

/// The command that prints the diff of one file: the program, then its
/// arguments.
pub fn diff_command(vcs: Vcs, base: &str, path: &str) -> (command: Vec<String>)
    ensures
        text::texts(command@) == diff_command_of(vcs, base@, path@),
{
    let mut command: Vec<String> = Vec::new();
    match vcs {
        Vcs::Git => {
            command.push("git".to_string());
            command.push("diff".to_string());
            command.push("--unified=0".to_string());
            command.push(base.to_string());
            command.push("--".to_string());
            command.push(path.to_string());
        },
        Vcs::Jj => {
            command.push("jj".to_string());
            command.push("diff".to_string());
            command.push("--git".to_string());
            command.push("--".to_string());
            command.push(path.to_string());
        },
    }
    assert(text::texts(command@) == diff_command_of(vcs, base@, path@));
    command
}

/// What a command printed, or why it failed, as a value.
pub open spec fn output_view(output: Result<String, ScopeError>) -> Result<
    Seq<char>,
    ScopeErrorView,
> {
    match output {
        Ok(text) => Ok(text@),
        Err(error) => Err(error@),
    }
}

/// What the commands printed, as values.
pub open spec fn output_views(outputs: Seq<Result<String, ScopeError>>) -> Seq<
    Result<Seq<char>, ScopeErrorView>,
> {
    outputs.map_values(|output: Result<String, ScopeError>| output_view(output))
}

/// The scoped file that a path and its diff give.
pub open spec fn scoped_file(path: Seq<char>, diff: Seq<char>) -> ScopedFileView {
    let reader = read_diff(text::lines(diff));
    ScopedFileView {
        path,
        ranges: reader.ranges,
        agent_added_lines: Some(reader.added as usize),
    }
}

/// The files that the first `n` paths and their diffs give, or the error of the
/// first diff that failed.
pub open spec fn scoped_files(
    paths: Seq<Seq<char>>,
    diffs: Seq<Result<Seq<char>, ScopeErrorView>>,
    n: nat,
) -> Result<Seq<ScopedFileView>, ScopeErrorView>
    decreases n,
{
    if n == 0 {
        Ok(Seq::empty())
    } else {
        match scoped_files(paths, diffs, (n - 1) as nat) {
            Err(error) => Err(error),
            Ok(files) => match diffs[n - 1] {
                Err(error) => Err(error),
                Ok(diff) => Ok(files.push(scoped_file(paths[n - 1], diff))),
            },
        }
    }
}

/// The version control system to ask: the one that was asked for, or else the
/// one that was found.
pub open spec fn chosen_vcs(asked: Option<Vcs>, found: Option<Vcs>) -> Option<Vcs> {
    match asked {
        Some(vcs) => Some(vcs),
        None => found,
    }
}

/// The scope that the outputs of the commands give.
pub open spec fn scope_of_outputs(
    vcs: Option<Vcs>,
    base: Seq<char>,
    patterns: Seq<Seq<char>>,
    listing: Result<Seq<char>, ScopeErrorView>,
    diffs: Seq<Result<Seq<char>, ScopeErrorView>>,
) -> Result<ScopeView, ScopeErrorView> {
    match vcs {
        None => Err(ScopeErrorView::NotARepository),
        Some(vcs) => match listing {
            Err(error) => Err(error),
            Ok(listing) => {
                let paths = scoped_paths(vcs, text::lines(listing), patterns);
                match scoped_files(paths, diffs, paths.len()) {
                    Err(error) => Err(error),
                    Ok(files) => Ok(
                        ScopeView {
                            vcs: Some(vcs),
                            base: match vcs {
                                Vcs::Git => base,
                                Vcs::Jj => "@"@,
                            },
                            source: match vcs {
                                Vcs::Git => "git-diff"@,
                                Vcs::Jj => "jj-diff"@,
                            },
                            files,
                        },
                    ),
                }
            },
        },
    }
}

/// There is a diff for each path, or one of the diffs failed.
pub open spec fn diffs_suffice(
    paths: Seq<Seq<char>>,
    diffs: Seq<Result<Seq<char>, ScopeErrorView>>,
) -> bool {
    diffs.len() >= paths.len() || exists|i: int| 0 <= i < diffs.len()
        && (#[trigger] diffs[i]) is Err
}

/// Detects the scope from what the version control system printed: the list of
/// changed files, and the diff of each file of the scope, in order, up to the
/// first that failed. `vcs` picks a system, `found` is the one of the working
/// directory.
pub fn detect_scope(
    vcs: Option<Vcs>,
    found: Option<Vcs>,
    base: &str,
    excludes: &[String],
    listing: &Result<String, ScopeError>,
    diffs: &[Result<String, ScopeError>],
) -> (scope: Result<Scope, ScopeError>)
    requires
        chosen_vcs(vcs, found) matches Some(chosen) ==> output_view(*listing) matches Ok(listed)
            ==> diffs_suffice(
            scoped_paths(chosen, text::lines(listed), text::texts(excludes@)),
            output_views(diffs@),
        ),
        forall|i: int|
            0 <= i < diffs@.len() ==> (output_view(#[trigger] diffs@[i]) matches Ok(diff)
                ==> ranges_fit(text::lines(diff))),
    ensures
        ({
            let wanted = scope_of_outputs(
                chosen_vcs(vcs, found),
                base@,
                text::texts(excludes@),
                output_view(*listing),
                output_views(diffs@),
            );
            match scope {
                Ok(scope) => wanted == Ok::<ScopeView, ScopeErrorView>(scope@),
                Err(error) => wanted == Err::<ScopeView, ScopeErrorView>(error@),
            }
        }),
{
    let chosen = match vcs {
        Some(vcs) => vcs,
        None => match found {
            Some(vcs) => vcs,
            None => {
                return Err(ScopeError::NotARepository);
            },
        },
    };
    let listed = match listing {
        Ok(listed) => listed,
        Err(error) => {
            return Err(error.clone());
        },
    };
    let paths = changed_files(chosen, listed.as_str(), excludes);
    let ghost wanted_paths = text::texts(paths@);
    let ghost outputs = output_views(diffs@);
    let mut files: Vec<ScopedFile> = Vec::new();
    assert(types::file_views(files@) == Seq::<ScopedFileView>::empty());
    for i in 0..paths.len()
        invariant
            wanted_paths == text::texts(paths@),
            outputs == output_views(diffs@),
            diffs_suffice(wanted_paths, outputs),
            forall|i: int|
                0 <= i < diffs@.len() ==> (output_view(#[trigger] diffs@[i]) matches Ok(diff)
                    ==> ranges_fit(text::lines(diff))),
            scoped_files(wanted_paths, outputs, i as nat) == Ok::<
                Seq<ScopedFileView>,
                ScopeErrorView,
            >(types::file_views(files@)),
            i <= diffs@.len(),
            forall|j: int| 0 <= j < i ==> (#[trigger] outputs[j]) is Ok,
            scope_of_outputs(
                chosen_vcs(vcs, found),
                base@,
                text::texts(excludes@),
                output_view(*listing),
                outputs,
            ) == (match scoped_files(wanted_paths, outputs, wanted_paths.len()) {
                Err(error) => Err(error),
                Ok(files) => Ok(
                    ScopeView {
                        vcs: Some(chosen),
                        base: match chosen {
                            Vcs::Git => base@,
                            Vcs::Jj => "@"@,
                        },
                        source: match chosen {
                            Vcs::Git => "git-diff"@,
                            Vcs::Jj => "jj-diff"@,
                        },
                        files,
                    },
                ),
            }),
    {
        proof {
            if diffs@.len() <= i {
                let j = choose|j: int| 0 <= j < outputs.len() && (#[trigger] outputs[j]) is Err;
                assert(outputs[j] is Ok);
            }
            assert(outputs[i as int] == output_view(diffs@[i as int]));
            assert(wanted_paths[i as int] == paths@[i as int]@);
        }
        match &diffs[i] {
            Err(error) => {
                proof {
                    lemma_scoped_files_error(wanted_paths, outputs, (i + 1) as nat,
                        wanted_paths.len());
                }
                return Err(error.clone());
            },
            Ok(diff) => {
                let (ranges, added) = parse_new_ranges(diff.as_str());
                let ghost before = types::file_views(files@);
                files.push(
                    ScopedFile { path: paths[i].clone(), ranges, agent_added_lines: Some(added) },
                );
                assert(types::file_views(files@) == before.push(
                    scoped_file(wanted_paths[i as int], diff@),
                ));
            },
        }
    }
    match chosen {
        Vcs::Git => Ok(
            Scope {
                vcs: Some(Vcs::Git),
                base: base.to_string(),
                source: "git-diff".to_string(),
                files,
            },
        ),
        Vcs::Jj => Ok(
            Scope {
                vcs: Some(Vcs::Jj),
                base: "@".to_string(),
                source: "jj-diff".to_string(),
                files,
            },
        ),
    }
}

/// A failure among the first diffs is the failure of all of them.
proof fn lemma_scoped_files_error(
    paths: Seq<Seq<char>>,
    diffs: Seq<Result<Seq<char>, ScopeErrorView>>,
    n: nat,
    m: nat,
)
    requires
        n <= m,
        scoped_files(paths, diffs, n) is Err,
    ensures
        scoped_files(paths, diffs, m) == scoped_files(paths, diffs, n),
    decreases m - n,
{
    if n < m {
        lemma_scoped_files_error(paths, diffs, n, (m - 1) as nat);
    }
}

proof fn lemma_scoped_paths(
    vcs: Vcs,
    listed: Seq<Seq<char>>,
    patterns: Seq<Seq<char>>,
    i: int,
) -> (j: int)
    requires
        0 <= i < scoped_paths(vcs, listed, patterns).len(),
    ensures
        names_scoped_file(vcs, scoped_paths(vcs, listed, patterns)[i], patterns),
        0 <= j < listed.len(),
        scoped_paths(vcs, listed, patterns)[i] == text::trim(listed[j]),
    decreases listed.len(),
{
    let before = scoped_paths(vcs, listed.drop_last(), patterns);
    if i < before.len() {
        lemma_scoped_paths(vcs, listed.drop_last(), patterns, i)
    } else {
        listed.len() - 1
    }
}

proof fn lemma_scoped_files_paths(
    paths: Seq<Seq<char>>,
    diffs: Seq<Result<Seq<char>, ScopeErrorView>>,
    n: nat,
)
    requires
        scoped_files(paths, diffs, n) is Ok,
    ensures
        scoped_files(paths, diffs, n)->Ok_0.len() == n,
        forall|i: int|
            0 <= i < n ==> diffs[i] is Ok && #[trigger] scoped_files(paths, diffs, n)->Ok_0[i]
                == scoped_file(paths[i], diffs[i]->Ok_0),
    decreases n,
{
    if n > 0 {
        lemma_scoped_files_paths(paths, diffs, (n - 1) as nat);
    }
}

/// What a detected scope holds: every file of it was listed as changed, and no
/// exclusion pattern matches it. Its ranges and its added lines are those of
/// its own diff.
pub proof fn law_scope_is_what_changed(
    vcs: Vcs,
    base: Seq<char>,
    patterns: Seq<Seq<char>>,
    listing: Seq<char>,
    diffs: Seq<Result<Seq<char>, ScopeErrorView>>,
    i: int,
)
    requires
        scope_of_outputs(Some(vcs), base, patterns, Ok(listing), diffs) is Ok,
        0 <= i < scope_of_outputs(
            Some(vcs),
            base,
            patterns,
            Ok(listing),
            diffs,
        )->Ok_0.files.len(),
    ensures
        ({
            let file = scope_of_outputs(
                Some(vcs),
                base,
                patterns,
                Ok(listing),
                diffs,
            )->Ok_0.files[i];
            &&& !excluded(file.path, patterns)
            &&& exists|j: int|
                0 <= j < text::lines(listing).len() && file.path
                    == text::trim(#[trigger] text::lines(listing)[j])
            &&& diffs[i] is Ok
            &&& file == scoped_file(file.path, diffs[i]->Ok_0)
        }),
{
    let paths = scoped_paths(vcs, text::lines(listing), patterns);
    lemma_scoped_files_paths(paths, diffs, paths.len());
    let j = lemma_scoped_paths(vcs, text::lines(listing), patterns, i);
    assert(paths[i] == text::trim(text::lines(listing)[j]));
}

/// Every range that is read from a diff is the new side of a hunk header that
/// is not a pure deletion.
pub proof fn law_ranges_come_from_headers(diff: Seq<Seq<char>>, i: int)
    requires
        ranges_fit(diff),
        0 <= i < read_diff(diff).ranges.len(),
    ensures
        exists|j: int|
            0 <= j < diff.len() && {
                let range = read_diff(diff).ranges[i];
                &&& range.start <= range.end + 1
                &&& range.end - range.start + 1 > 0
                &&& hunk_new_range(#[trigger] diff[j]) == Some(
                    (range.start as nat, (range.end - range.start + 1) as nat),
                )
            },
    decreases diff.len(),
{
    let before = read_diff(diff.drop_last());
    if i < before.ranges.len() {
        assert forall|j: int| 0 <= j < diff.drop_last().len() implies (hunk_new_range(
            #[trigger] diff.drop_last()[j],
        ) matches Some((start, count)) ==> start + count <= usize::MAX) by {
            assert(diff.drop_last()[j] == diff[j]);
        }
        law_ranges_come_from_headers(diff.drop_last(), i);
        let range = before.ranges[i];
        let j = choose|j: int|
            0 <= j < diff.drop_last().len() && hunk_new_range(#[trigger] diff.drop_last()[j])
                == Some((range.start as nat, (range.end - range.start + 1) as nat));
        assert(diff[j] == diff.drop_last()[j]);
    } else {
        assert(diff[diff.len() - 1] == diff.last());
    }
}

/// How many new lines a hunk header names.
pub open spec fn header_count(header: Seq<char>) -> nat {
    match hunk_new_range(header) {
        Some((_, count)) => count,
        None => 0,
    }
}

/// Whether a line can stand in a hunk: it is common, added, removed, or a marker.
pub open spec fn is_hunk_line(line: Seq<char>) -> bool {
    line.len() > 0 && (line[0] == ' ' || line[0] == '+' || line[0] == '-' || line[0] == '\\')
}

/// How many of the lines are added lines.
pub open spec fn plus_count(lines: Seq<Seq<char>>) -> nat
    decreases lines.len(),
{
    if lines.len() == 0 {
        0
    } else {
        plus_count(lines.drop_last()) + if lines.last()[0] == '+' {
            1nat
        } else {
            0nat
        }
    }
}

/// How many of the lines stand on the new side: the common and the added ones.
pub open spec fn new_side_count(lines: Seq<Seq<char>>) -> nat
    decreases lines.len(),
{
    if lines.len() == 0 {
        0
    } else {
        new_side_count(lines.drop_last()) + if lines.last()[0] == '+' || lines.last()[0] == ' ' {
            1nat
        } else {
            0nat
        }
    }
}

proof fn lemma_first_char(line: Seq<char>)
    requires
        is_hunk_line(line),
    ensures
        !text::starts_with(line, "@@"@),
        !text::starts_with(line, "diff "@),
        text::starts_with(line, "+"@) <==> line[0] == '+',
        text::starts_with(line, "-"@) <==> line[0] == '-',
        text::starts_with(line, "\\"@) <==> line[0] == '\\',
        text::starts_with(line, "--- "@) ==> line[0] == '-',
        text::starts_with(line, "+++ "@) ==> line[0] == '+',
{
    reveal_strlit("@@");
    reveal_strlit("diff ");
    reveal_strlit("+");
    reveal_strlit("-");
    reveal_strlit("\\");
    reveal_strlit("--- ");
    reveal_strlit("+++ ");
    assert(line.take(1)[0] == line[0]);
    if line[0] == '+' {
        assert(line.take(1) == "+"@);
    }
    if line[0] == '-' {
        assert(line.take(1) == "-"@);
    }
    if line[0] == '\\' {
        assert(line.take(1) == "\\"@);
    }
    if line.len() >= 2 {
        assert(line.take(2)[0] == line[0]);
    }
    if line.len() >= 4 {
        assert(line.take(4)[0] == line[0]);
    }
    if line.len() >= 5 {
        assert(line.take(5)[0] == line[0]);
    }
}

proof fn lemma_hunk_is_read(
    before: Seq<Seq<char>>,
    header: Seq<char>,
    body: Seq<Seq<char>>,
    n: int,
)
    requires
        0 <= n <= body.len(),
        hunk_new_range(header) is Some,
        forall|i: int| 0 <= i < body.len() ==> is_hunk_line(#[trigger] body[i]),
        new_side_count(body) <= header_count(header),
    ensures
        ({
            let r = read_diff(before.push(header) + body.take(n));
            let seen = new_side_count(body.take(n));
            let count = header_count(header);
            &&& r.added == read_diff(before).added + plus_count(body.take(n))
            &&& seen <= new_side_count(body)
            &&& seen == count || (r.in_hunk && r.left == count - seen)
        }),
    decreases n,
{
    let log = before.push(header) + body.take(n);
    lemma_new_side_monotone(body, n);
    if n == 0 {
        assert(log == before.push(header));
        assert(log.drop_last() == before);
        assert(body.take(0) == Seq::<Seq<char>>::empty());
    } else {
        lemma_hunk_is_read(before, header, body, n - 1);
        assert(log.drop_last() == before.push(header) + body.take(n - 1));
        assert(log.last() == body[n - 1]);
        assert(body.take(n).drop_last() == body.take(n - 1));
        assert(body.take(n).last() == body[n - 1]);
        assert(is_hunk_line(body[n - 1]));
        lemma_first_char(body[n - 1]);
    }
}

proof fn lemma_new_side_monotone(body: Seq<Seq<char>>, n: int)
    requires
        0 <= n <= body.len(),
    ensures
        new_side_count(body.take(n)) <= new_side_count(body),
    decreases body.len() - n,
{
    if n < body.len() {
        lemma_new_side_monotone(body, n + 1);
        assert(body.take(n + 1).drop_last() == body.take(n));
    } else {
        assert(body.take(n) == body);
    }
}

/// Every added line of a hunk is counted, whatever it holds, where the hunk has
/// no more new lines than its header says.
pub proof fn law_added_lines_are_counted(
    before: Seq<Seq<char>>,
    header: Seq<char>,
    body: Seq<Seq<char>>,
)
    requires
        hunk_new_range(header) is Some,
        forall|i: int| 0 <= i < body.len() ==> is_hunk_line(#[trigger] body[i]),
        new_side_count(body) <= header_count(header),
    ensures
        read_diff(before.push(header) + body).added == read_diff(before).added + plus_count(body),
{
    lemma_hunk_is_read(before, header, body, body.len() as int);
    assert(body.take(body.len() as int) == body);
}

} // verus!
