//! The formatting engine: how the formatter is called, and what its output
//! means for a file.
//!
//! The formatter runs on the whole file, and its output is clipped to the
//! caller's ranges. The formatter is a transformation, not a file writer.

use crate::clip;
use crate::clip::{ClipView, build_clipped};
use crate::diff;
use crate::diff::DiffOp;
use crate::text;
use crate::text::{
    chars_of, find_char, has_prefix, push_decimal, same_text, split_lines, string_of, sub_chars,
    trimmed,
};
use crate::types::{LineRange, ScopedFile, ScopedFileView};
use crate::unified;
use vstd::prelude::*;

verus! {

/// Why a file could not be formatted.
#[derive(Debug)]
pub enum EngineError {
    ReadFailed { path: String, err: String },
    NotUtf8 { path: String },
    RustfmtFailed { path: String, stderr: String },
    /// The formatter ran for `timeout_secs` on `bytes` bytes in `lines` lines.
    TimedOut { path: String, bytes: usize, lines: usize, timeout_secs: u64 },
}

impl EngineError {
    /// The message of the error.
    pub open spec fn text(self) -> Seq<char> {
        match self {
            EngineError::ReadFailed { path, err } => "cannot read "@ + path@ + ": "@ + err@,
            EngineError::NotUtf8 { path } => path@ + " is not valid UTF-8"@,
            EngineError::RustfmtFailed { path, stderr } => "rustfmt failed on "@ + path@ + ": "@
                + text::trim(stderr@),
            EngineError::TimedOut { path, bytes, lines, timeout_secs } => "rustfmt timed out on "@
                + path@ + " ("@ + text::decimal(bytes as nat) + " bytes, "@
                    + text::decimal(lines as nat)
                + " lines) after "@ + text::decimal(timeout_secs as nat)
                + "s; split the change into smaller ranges or raise --engine-timeout-secs"@,
        }
    }

    /// The message of the error, for people.
    pub fn message(&self) -> (message: String)
        ensures
            message@ == self.text(),
    {
        match self {
            EngineError::ReadFailed { path, err } => {
                let mut message = "cannot read ".to_string();
                message.append(path.as_str());
                message.append(": ");
                message.append(err.as_str());
                message
            },
            EngineError::NotUtf8 { path } => {
                let mut message = path.clone();
                message.append(" is not valid UTF-8");
                message
            },
            EngineError::RustfmtFailed { path, stderr } => {
                let mut message = "rustfmt failed on ".to_string();
                message.append(path.as_str());
                message.append(": ");
                let chars = chars_of(stderr.as_str());
                let core = trimmed(chars.as_slice());
                message.append(string_of(core.as_slice(), 0, core.len()).as_str());
                assert(core@.subrange(0, core@.len() as int) == core@);
                message
            },
            EngineError::TimedOut { path, bytes, lines, timeout_secs } => {
                let mut message = "rustfmt timed out on ".to_string();
                message.append(path.as_str());
                message.append(" (");
                push_decimal(&mut message, *bytes as u128);
                message.append(" bytes, ");
                push_decimal(&mut message, *lines as u128);
                message.append(" lines) after ");
                push_decimal(&mut message, *timeout_secs as u128);
                message.append(
                    "s; split the change into smaller ranges or raise --engine-timeout-secs",
                );
                message
            },
        }
    }
}

/// The error for a formatter that did not finish in time on `content`.
pub fn timed_out(path: &str, content: &str, timeout_secs: u64) -> (error: EngineError)
    ensures
        error matches EngineError::TimedOut { path: p, bytes, lines: n, timeout_secs: t } && p@
            == path@ && bytes == vstd::utf8::encode_utf8(content@).len() && n
                == text::lines(content@).len() && t
            == timeout_secs,
{
    let chars = chars_of(content);
    let count: usize = split_lines(chars.as_slice()).len();
    assert(count == text::lines(content@).len());
    EngineError::TimedOut {
        path: path.to_string(),
        bytes: content.as_bytes().len(),
        lines: count,
        timeout_secs,
    }
}

/// Per-file formatting result. `patch` is the clipped unified diff (`None` when
/// the file is unchanged); `new_content` is what to write, so that what was
/// validated is what gets written. `idempotent` is true when formatting the
/// formatted output yields the same text again; a false value fails the
/// `engine.idempotent` gate.
#[derive(Debug)]
pub struct FormatResult {
    pub path: String,
    pub engine: String,
    pub changed: bool,
    pub idempotent: bool,
    pub added_lines: usize,
    pub removed_lines: usize,
    pub hunks_total: usize,
    pub hunks_kept: usize,
    pub patch: Option<String>,
    pub new_content: Option<String>,
    /// How long the formatter ran on the file, in both passes.
    pub rustfmt_duration_ms: u64,
    /// How long it ran on the text of the file.
    pub first_pass_duration_ms: u64,
    /// How long it ran on its own output.
    pub idempotency_duration_ms: u64,
    /// Whether the formatter leaves what the run makes of the file as it is;
    /// `None` where that was not asked for.
    pub fmt_clean: Option<bool>,
}

/// What a [`FormatResult`] stands for.
pub struct FormatView {
    pub path: Seq<char>,
    pub engine: Seq<char>,
    pub changed: bool,
    pub idempotent: bool,
    pub added_lines: int,
    pub removed_lines: int,
    pub hunks_total: int,
    pub hunks_kept: int,
    pub patch: Option<Seq<char>>,
    pub new_content: Option<Seq<char>>,
    pub rustfmt_duration_ms: int,
    pub first_pass_duration_ms: int,
    pub idempotency_duration_ms: int,
    pub fmt_clean: Option<bool>,
}

impl View for FormatResult {
    type V = FormatView;

    open spec fn view(&self) -> FormatView {
        FormatView {
            path: self.path@,
            engine: self.engine@,
            changed: self.changed,
            idempotent: self.idempotent,
            added_lines: self.added_lines as int,
            removed_lines: self.removed_lines as int,
            hunks_total: self.hunks_total as int,
            hunks_kept: self.hunks_kept as int,
            patch: text::optional_text(self.patch),
            new_content: text::optional_text(self.new_content),
            rustfmt_duration_ms: self.rustfmt_duration_ms as int,
            first_pass_duration_ms: self.first_pass_duration_ms as int,
            idempotency_duration_ms: self.idempotency_duration_ms as int,
            fmt_clean: self.fmt_clean,
        }
    }
}

impl Clone for FormatResult {
    fn clone(&self) -> (copy: FormatResult)
        ensures
            copy@ == self@,
    {
        FormatResult {
            path: self.path.clone(),
            engine: self.engine.clone(),
            changed: self.changed,
            idempotent: self.idempotent,
            added_lines: self.added_lines,
            removed_lines: self.removed_lines,
            hunks_total: self.hunks_total,
            hunks_kept: self.hunks_kept,
            patch: match &self.patch {
                Some(patch) => Some(patch.clone()),
                None => None,
            },
            new_content: match &self.new_content {
                Some(content) => Some(content.clone()),
                None => None,
            },
            rustfmt_duration_ms: self.rustfmt_duration_ms,
            first_pass_duration_ms: self.first_pass_duration_ms,
            idempotency_duration_ms: self.idempotency_duration_ms,
            fmt_clean: self.fmt_clean,
        }
    }
}

/// The results of a run, as values.
pub open spec fn result_views(results: Seq<FormatResult>) -> Seq<FormatView> {
    results.map_values(|r: FormatResult| r@)
}

/// How the formatter is called.
#[derive(Debug)]
pub struct Engine {
    pub rustfmt_path: String,
    pub timeout_secs: u64,
}

impl Default for Engine {
    fn default() -> (engine: Engine)
        ensures
            engine.rustfmt_path@ == "rustfmt"@,
            engine.timeout_secs == 30,
    {
        Engine { rustfmt_path: "rustfmt".to_string(), timeout_secs: 30 }
    }
}

/// The name under which results carry this engine.
pub open spec fn engine_name() -> Seq<char> {
    "rustfmt-diff-intersect"@
}

/// The value of an `edition` line of a manifest, where the line is one: four
/// decimal digits behind the first `=`, quoted or not.
pub open spec fn line_edition(line: Seq<char>) -> Option<Seq<char>> {
    let t = text::trim(line);
    if text::starts_with(t, "edition"@) {
        let rest = t.skip("edition"@.len() as int);
        let eq = text::first_of(rest, '=');
        if eq < rest.len() {
            let value = unquoted(text::trim(rest.skip(eq + 1)));
            if value.len() == 4 && text::is_digit(value[0]) && text::is_digit(value[1])
                && text::is_digit(value[2])
                && text::is_digit(value[3]) {
                Some(value)
            } else {
                None
            }
        } else {
            None
        }
    } else {
        None
    }
}

/// `t` without the double quotes at its front.
pub open spec fn unquoted_front(t: Seq<char>) -> Seq<char>
    decreases t.len(),
{
    if t.len() > 0 && t[0] == '"' {
        unquoted_front(t.skip(1))
    } else {
        t
    }
}

/// `t` without the double quotes at its end.
pub open spec fn unquoted_end(t: Seq<char>) -> Seq<char>
    decreases t.len(),
{
    if t.len() > 0 && t.last() == '"' {
        unquoted_end(t.drop_last())
    } else {
        t
    }
}

/// `t` without the double quotes at both ends.
pub open spec fn unquoted(t: Seq<char>) -> Seq<char> {
    unquoted_end(unquoted_front(t))
}

/// Removes the double quotes at both ends.
fn unquote(text: &[char]) -> (out: Vec<char>)
    ensures
        out@ == unquoted(text@),
{
    let mut from: usize = 0;
    assert(text@.skip(0) == text@);
    while from < text.len() && text[from] == '"'
        invariant
            from <= text@.len(),
            unquoted_front(text@) == unquoted_front(text@.skip(from as int)),
        decreases text@.len() - from,
    {
        assert(text@.skip(from as int).skip(1) == text@.skip(from + 1));
        from += 1;
    }
    let ghost front = text@.skip(from as int);
    assert(unquoted_front(text@) == front);
    let mut to: usize = text.len();
    assert(text@.subrange(from as int, to as int) == front);
    while to > from && text[to - 1] == '"'
        invariant
            from <= to <= text@.len(),
            unquoted_end(front) == unquoted_end(text@.subrange(from as int, to as int)),
        decreases to,
    {
        assert(text@.subrange(from as int, to as int).drop_last() == text@.subrange(
            from as int,
            to - 1,
        ));
        to -= 1;
    }
    sub_chars(text, from, to)
}

/// Reads the edition off one line of a manifest.
fn edition_of_line(line: &Vec<char>) -> (edition: Option<Vec<char>>)
    ensures
        match edition {
            Some(e) => line_edition(line@) == Some(e@),
            None => line_edition(line@) is None,
        },
{
    let t = trimmed(line.as_slice());
    if !has_prefix(t.as_slice(), "edition") {
        return None;
    }
    let width: usize = chars_of("edition").len();
    let rest = sub_chars(t.as_slice(), width, t.len());
    assert(rest@ == t@.skip(width as int));
    let eq: usize = find_char(rest.as_slice(), 0, '=');
    assert(rest@.skip(0) == rest@);
    if eq >= rest.len() {
        return None;
    }
    let tail = sub_chars(rest.as_slice(), eq + 1, rest.len());
    assert(tail@ == rest@.skip(eq + 1));
    let core = trimmed(tail.as_slice());
    let value = unquote(core.as_slice());
    if value.len() != 4 {
        return None;
    }
    for i in 0..value.len()
        invariant
            value@.len() == 4,
            forall|j: int| 0 <= j < i ==> text::is_digit(value@[j]),
            line_edition(line@) is Some ==> forall|j: int| 0 <= j < 4 ==> text::is_digit(value@[j]),
    {
        let c = value[i];
        if !('0' <= c && c <= '9') {
            assert(!text::is_digit(value@[i as int]));
            return None;
        }
    }
    Some(value)
}

/// The first edition that the lines name.
pub open spec fn first_edition(lines: Seq<Seq<char>>) -> Option<Seq<char>>
    decreases lines.len(),
{
    if lines.len() == 0 {
        None
    } else if line_edition(lines[0]) is Some {
        line_edition(lines[0])
    } else {
        first_edition(lines.skip(1))
    }
}

/// The edition that the nearest manifest names, where one does. The manifests
/// stand in order, the nearest first; `None` is one that is missing or cannot
/// be read.
pub open spec fn nearest_edition(manifests: Seq<Option<Seq<char>>>) -> Option<Seq<char>>
    decreases manifests.len(),
{
    if manifests.len() == 0 {
        None
    } else if manifests[0] matches Some(text) && first_edition(text::lines(text)) is Some {
        first_edition(text::lines(manifests[0]->0))
    } else {
        nearest_edition(manifests.skip(1))
    }
}

/// Reads the edition off a manifest.
fn edition_of_manifest(text: &str) -> (edition: Option<String>)
    ensures
        text::optional_text(edition) == first_edition(text::lines(text@)),
{
    let chars = chars_of(text);
    let all = split_lines(chars.as_slice());
    let ghost wanted = text::lines(text@);
    assert(wanted.skip(0) == wanted);
    for i in 0..all.len()
        invariant
            text::rows(all@) == wanted,
            wanted == text::lines(text@),
            first_edition(wanted) == first_edition(wanted.skip(i as int)),
    {
        let ghost rest = wanted.skip(i as int);
        assert(rest[0] == all@[i as int]@) by {
            assert(text::rows(all@)[i as int] == all@[i as int]@);
        }
        assert(rest.skip(1) == wanted.skip(i + 1));
        if let Some(value) = edition_of_line(&all[i]) {
            assert(value@.subrange(0, value@.len() as int) == value@);
            return Some(string_of(value.as_slice(), 0, value.len()));
        }
    }
    None
}

/// Finds the edition for a file: `manifests` holds the text of the `Cargo.toml`
/// in each directory from the file's own up to the root, the nearest first, and
/// `None` for a directory that has none that can be read.
pub fn detect_edition(manifests: &Vec<Option<String>>) -> (edition: Option<String>)
    ensures
        text::optional_text(edition) == nearest_edition(text::optional_texts(manifests@)),
{
    let ghost all = text::optional_texts(manifests@);
    assert(all.skip(0) == all);
    for i in 0..manifests.len()
        invariant
            all == text::optional_texts(manifests@),
            nearest_edition(all) == nearest_edition(all.skip(i as int)),
    {
        let ghost rest = all.skip(i as int);
        assert(rest[0] == text::optional_text(manifests@[i as int]));
        assert(rest.skip(1) == all.skip(i + 1));
        if let Some(text) = &manifests[i] {
            let edition = edition_of_manifest(text.as_str());
            if edition.is_some() {
                return edition;
            }
        }
    }
    None
}

/// The name of the formatter's config file, where one of the two is there.
pub open spec fn config_name(has_plain: bool, has_hidden: bool) -> Option<Seq<char>> {
    if has_plain {
        Some("rustfmt.toml"@)
    } else if has_hidden {
        Some(".rustfmt.toml"@)
    } else {
        None
    }
}

/// Picks the formatter's config file in the repository root: `rustfmt.toml`
/// before `.rustfmt.toml`, of those that are there.
pub fn find_rustfmt_config(has_plain: bool, has_hidden: bool) -> (name: Option<String>)
    ensures
        text::optional_text(name) == config_name(has_plain, has_hidden),
{
    if has_plain {
        Some("rustfmt.toml".to_string())
    } else if has_hidden {
        Some(".rustfmt.toml".to_string())
    } else {
        None
    }
}

/// The arguments of a call of the formatter, as texts.
pub open spec fn rustfmt_call(
    edition: Option<Seq<char>>,
    config_path: Option<Seq<char>>,
) -> Seq<Seq<char>> {
    seq!["--emit"@, "stdout"@] + (match edition {
        Some(edition) => seq!["--edition"@, edition],
        None => Seq::empty(),
    }) + (match config_path {
        Some(path) => seq!["--config-path"@, path],
        None => Seq::empty(),
    })
}

/// The arguments of a call of the formatter. The text is fed through standard
/// input, so that what is formatted is what is diffed.
pub fn rustfmt_args(edition: &Option<String>, config_path: &Option<String>) -> (args: Vec<String>)
    ensures
        text::texts(args@) == rustfmt_call(text::optional_text(*edition),
            text::optional_text(*config_path)),
{
    let mut args: Vec<String> = Vec::new();
    args.push("--emit".to_string());
    args.push("stdout".to_string());
    if let Some(edition) = edition {
        args.push("--edition".to_string());
        args.push(edition.clone());
    }
    if let Some(path) = config_path {
        args.push("--config-path".to_string());
        args.push(path.clone());
    }
    assert(text::texts(args@) == rustfmt_call(text::optional_text(*edition),
        text::optional_text(*config_path)));
    args
}

/// What to do next about a running formatter.
#[derive(Debug, Clone, Copy, PartialEq, Eq, Structural)]
pub enum Poll {
    /// It has exited: collect its output.
    Collect,
    /// Its time is up: kill it.
    Kill,
    /// Look again a little later.
    Wait,
}

/// What is to be done about a running formatter.
pub open spec fn next_step(exited: bool, expired: bool) -> Poll {
    if exited {
        Poll::Collect
    } else if expired {
        Poll::Kill
    } else {
        Poll::Wait
    }
}

/// Decides about a running formatter. One that has exited is collected, also
/// where its time is up.
pub fn poll(exited: bool, expired: bool) -> (next: Poll)
    ensures
        next == next_step(exited, expired),
{
    if exited {
        Poll::Collect
    } else if expired {
        Poll::Kill
    } else {
        Poll::Wait
    }
}

/// What the formatter made of a text, where it succeeded.
pub open spec fn formatter_output(success: bool, stdout: Seq<char>) -> Option<Seq<char>> {
    if success {
        Some(stdout)
    } else {
        None
    }
}

/// Reads the formatter's exit: its output where it succeeded, else an error
/// with what it wrote to standard error.
pub fn run_rustfmt(path: &str, success: bool, stdout: String, stderr: String) -> (formatted: Result<
    String,
    EngineError,
>)
    ensures
        match formatted {
            Ok(text) => formatter_output(success, stdout@) == Some(text@),
            Err(error) => formatter_output(success, stdout@) is None && (error matches EngineError::RustfmtFailed {
                path: p,
                stderr: e,
            } && p@ == path@ && e@ == stderr@),
        },
{
    if !success {
        return Err(EngineError::RustfmtFailed { path: path.to_string(), stderr });
    }
    Ok(stdout)
}

/// Whether the formatter's output is another text than what it was given.
pub open spec fn second_pass_due(original: Seq<char>, formatted: Seq<char>) -> bool {
    formatted != original
}

/// Whether the formatter has to run again, on its own output: it has where it
/// changed the text.
pub fn needs_second_pass(original: &str, formatted: &str) -> (yes: bool)
    ensures
        yes == second_pass_due(original@, formatted@),
{
    !same_text(formatted, original)
}

/// How long two passes took, held to what a `u64` can say.
pub open spec fn total_ms(first: int, second: int) -> int {
    if first + second <= u64::MAX {
        first + second
    } else {
        u64::MAX as int
    }
}

/// The result for a file that the formatter leaves as it is.
pub open spec fn unchanged_result(path: Seq<char>, first: int, second: int) -> FormatView {
    FormatView {
        path,
        engine: engine_name(),
        changed: false,
        idempotent: true,
        added_lines: 0,
        removed_lines: 0,
        hunks_total: 0,
        hunks_kept: 0,
        patch: None,
        new_content: None,
        rustfmt_duration_ms: total_ms(first, second),
        first_pass_duration_ms: first,
        idempotency_duration_ms: second,
        fmt_clean: None,
    }
}

/// The result for a file that the formatter changes: the clipped change, and
/// nothing of it where no hunk is in scope.
pub open spec fn clipped_result(
    path: Seq<char>,
    idempotent: bool,
    clipped: ClipView,
    first: int,
    second: int,
) -> FormatView {
    FormatView {
        path,
        engine: engine_name(),
        changed: clipped.hunks_kept > 0,
        idempotent,
        added_lines: clipped.added,
        removed_lines: clipped.removed,
        hunks_total: clipped.hunks_total,
        hunks_kept: clipped.hunks_kept,
        patch: if clipped.hunks_kept > 0 {
            Some(clipped.patch)
        } else {
            None
        },
        new_content: if clipped.hunks_kept > 0 {
            Some(clipped.new_content)
        } else {
            None
        },
        rustfmt_duration_ms: total_ms(first, second),
        first_pass_duration_ms: first,
        idempotency_duration_ms: second,
        fmt_clean: None,
    }
}

/// The result for one file from its text, the formatter's output on that text,
/// and the formatter's output on its output.
pub open spec fn format_result(
    file: ScopedFileView,
    original: Seq<char>,
    formatted: Seq<char>,
    reformatted: Option<Seq<char>>,
    first: int,
    second: int,
) -> FormatView {
    if formatted == original {
        unchanged_result(file.path, first, second)
    } else {
        clipped_result(
            file.path,
            reformatted == Some(formatted),
            clip::clip(original, formatted, file.ranges),
            first,
            second,
        )
    }
}

/// Whether the differ's answer for two texts is a diff of them.
pub open spec fn diff_holds(original: Seq<char>, formatted: Seq<char>) -> bool {
    diff::describes(
        diff::line_groups(original, formatted, clip::CONTEXT as nat),
        text::pieces(original),
        text::pieces(formatted),
    )
}

/// What a run makes of a file: the new content, or the text as it was.
pub open spec fn candidate_of(r: FormatView, original: Seq<char>) -> Seq<char> {
    match r.new_content {
        Some(content) => content,
        None => original,
    }
}

/// Makes the result for one scoped file from its text, the formatter's output
/// on that text, and, where that differs, the formatter's output on its output.
/// A formatter that keeps moving is not idempotent, and would fight the next run.
pub fn format_file(
    file: &ScopedFile,
    original: &str,
    formatted: &str,
    reformatted: &Option<String>,
    first_pass_duration_ms: u64,
    idempotency_duration_ms: u64,
) -> (result: FormatResult)
    requires
        formatted@ != original@ ==> reformatted is Some,
        text::pieces(original@).len() + text::pieces(formatted@).len() <= u32::MAX,
    ensures
        result@ == format_result(
            file@,
            original@,
            formatted@,
            text::optional_text(*reformatted),
            first_pass_duration_ms as int,
            idempotency_duration_ms as int,
        ),
        formatted@ != original@ ==> diff_holds(original@, formatted@),
        formatted@ != original@ ==> clip::leads_to(
            original@,
            clip::clip_hunks(original@, formatted@, file.ranges@),
            candidate_of(result@, original@),
        ),
        result@.patch matches Some(patch) ==> unified::makes(
            original@,
            patch,
            candidate_of(result@, original@),
        ),
        file.ranges@.len() == 0 ==> candidate_of(result@, original@) == formatted@,
{
    let engine = "rustfmt-diff-intersect".to_string();
    let rustfmt_duration_ms: u64 = first_pass_duration_ms.saturating_add(idempotency_duration_ms);
    if !needs_second_pass(original, formatted) {
        return FormatResult {
            path: file.path.clone(),
            engine,
            changed: false,
            idempotent: true,
            added_lines: 0,
            removed_lines: 0,
            hunks_total: 0,
            hunks_kept: 0,
            patch: None,
            new_content: None,
            rustfmt_duration_ms,
            first_pass_duration_ms,
            idempotency_duration_ms,
            fmt_clean: None,
        };
    }
    let idempotent = match reformatted {
        Some(again) => same_text(again.as_str(), formatted),
        None => false,
    };
    let (patch, added, removed, total, kept, new_content) = build_clipped(
        original,
        formatted,
        file.ranges.as_slice(),
    );
    FormatResult {
        path: file.path.clone(),
        engine,
        changed: kept > 0,
        idempotent,
        added_lines: added,
        removed_lines: removed,
        hunks_total: total,
        hunks_kept: kept,
        patch: if kept > 0 {
            Some(patch)
        } else {
            None
        },
        new_content: if kept > 0 {
            Some(new_content)
        } else {
            None
        },
        rustfmt_duration_ms,
        first_pass_duration_ms,
        idempotency_duration_ms,
        fmt_clean: None,
    }
}

/// What a run makes of a file: the new content, or the text as it was.
pub fn candidate(result: &FormatResult, original: &str) -> (content: String)
    ensures
        content@ == candidate_of(result@, original@),
{
    match &result.new_content {
        Some(content) => content.clone(),
        None => original.to_string(),
    }
}

/// A result with the answer to whether the whole file is clean: the formatter's
/// output on what the run makes of the file is that text again. Formatting debt
/// outside the scope makes it unclean.
pub open spec fn with_clean(r: FormatView, original: Seq<char>, output: Seq<char>) -> FormatView {
    FormatView { fmt_clean: Some(output == candidate_of(r, original)), ..r }
}

/// Records whether the formatter leaves what the run makes of the file as it is;
/// `output` is what it made of that.
pub fn with_fmt_check(result: FormatResult, original: &str, output: &str) -> (checked: FormatResult)
    ensures
        checked@ == with_clean(result@, original@, output@),
{
    let content = candidate(&result, original);
    let clean = same_text(output, content.as_str());
    FormatResult {
        path: result.path,
        engine: result.engine,
        changed: result.changed,
        idempotent: result.idempotent,
        added_lines: result.added_lines,
        removed_lines: result.removed_lines,
        hunks_total: result.hunks_total,
        hunks_kept: result.hunks_kept,
        patch: result.patch,
        new_content: result.new_content,
        rustfmt_duration_ms: result.rustfmt_duration_ms,
        first_pass_duration_ms: result.first_pass_duration_ms,
        idempotency_duration_ms: result.idempotency_duration_ms,
        fmt_clean: Some(clean),
    }
}

/// What every result of this engine keeps: a file is changed exactly where
/// there are hunks, a patch and a new content for it, the patch is not empty,
/// no more hunks are kept than there were, and an unchanged file adds and
/// removes nothing.
pub open spec fn well_formed(r: FormatView) -> bool {
    &&& r.engine == engine_name()
    &&& r.changed <==> r.hunks_kept > 0
    &&& r.changed <==> r.patch is Some
    &&& r.changed <==> r.new_content is Some
    &&& r.patch matches Some(patch) ==> patch.len() > 0
    &&& 0 <= r.hunks_kept <= r.hunks_total
    &&& !r.changed ==> r.added_lines == 0 && r.removed_lines == 0
}

/// Every result that [`format_file`] can give is well formed, and stays so once
/// the whole file is looked at.
pub proof fn law_results_well_formed(
    file: ScopedFileView,
    original: Seq<char>,
    formatted: Seq<char>,
    reformatted: Option<Seq<char>>,
    first: int,
    second: int,
    output: Seq<char>,
)
    ensures
        ({
            let r = format_result(file, original, formatted, reformatted, first, second);
            well_formed(r) && well_formed(with_clean(r, original, output))
        }),
{
    let groups = diff::line_groups(original, formatted, clip::CONTEXT as nat);
    let kept = clip::kept_groups(groups, file.ranges);
    let old = text::pieces(original);
    let new = text::pieces(formatted);
    clip::law_kept_iff_in_scope(groups, file.ranges);
    if kept.len() > 0 {
        let hunks = clip::hunks_of(kept, old, new);
        reveal_strlit("@@ -");
        assert(hunks.len() > 0);
        assert(clip::hunk_text(hunks.last()).len() >= 4);
        assert(clip::patch_text(hunks).len() > 0);
    } else {
        assert(kept == Seq::<Seq<DiffOp>>::empty());
    }
}

/// Formatting a file without ranges makes it what the formatter made of it; with
/// a formatter that is stable on the file, the formatter then changes nothing.
pub proof fn law_formatted_file_is_left_alone(
    file: ScopedFileView,
    original: Seq<char>,
    rustfmt: spec_fn(Seq<char>) -> Seq<char>,
    first: int,
    second: int,
)
    requires
        file.ranges.len() == 0,
        rustfmt(original) != original ==> diff_holds(original, rustfmt(original)),
    ensures
        ({
            let r = format_result(
                file,
                original,
                rustfmt(original),
                Some(rustfmt(rustfmt(original))),
                first,
                second,
            );
            let content = candidate_of(r, original);
            &&& content == rustfmt(original)
            &&& r.changed <==> rustfmt(original) != original
            &&& (r.changed ==> r.idempotent) ==> rustfmt(content) == content
        }),
{
    let formatted = rustfmt(original);
    if formatted != original {
        let groups = diff::line_groups(original, formatted, clip::CONTEXT as nat);
        let old = text::pieces(original);
        let new = text::pieces(formatted);
        assert(file.ranges == Seq::<LineRange>::empty());
        clip::law_whole_file(original, formatted, groups);
        if groups.len() == 0 {
            clip::lemma_pieces_joined(original);
            clip::lemma_pieces_joined(formatted);
            assert(diff::spliced(groups, old, new) == old);
        }
    }
}

} // verus!
