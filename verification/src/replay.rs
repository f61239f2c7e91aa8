//! Rebuilding a run's report and patch from the event log. The log is the
//! single source of truth; reports and patches are derived from it.
//!
//! There is deliberately no way to apply what is rebuilt: a stored patch
//! describes the files at the time of the run, and applied later it could
//! corrupt one that has changed since.

use crate::engine;
use crate::gates;
use crate::gates::{GateResult, GateView, Measure, MeasureView};
use crate::json;
use crate::json::{Json, JsonTree, parse};
use crate::report;
use crate::report::{
    FileReport, FileReportView, Report, ReportView, Stats, TOOL, VERSION, failed_gates, push_patch,
};
use crate::text;
use crate::text::{chars_of, same_text, trimmed};
use crate::types;
use crate::types::{LineRange, Scope, ScopeView, ScopedFile, ScopedFileView, Vcs};
use vstd::prelude::*;

verus! {

/// Why a run could not be rebuilt.
#[derive(Debug)]
pub enum ReplayError {
    LogMissing(String),
    RunNotFound(String),
    CorruptLog(String),
}

/// What a [`ReplayError`] stands for.
pub enum ReplayErrorView {
    LogMissing(Seq<char>),
    RunNotFound(Seq<char>),
    CorruptLog(Seq<char>),
}

impl View for ReplayError {
    type V = ReplayErrorView;

    open spec fn view(&self) -> ReplayErrorView {
        match self {
            ReplayError::LogMissing(path) => ReplayErrorView::LogMissing(path@),
            ReplayError::RunNotFound(id) => ReplayErrorView::RunNotFound(id@),
            ReplayError::CorruptLog(message) => ReplayErrorView::CorruptLog(message@),
        }
    }
}

impl ReplayError {
    /// The message of the error, for people.
    pub fn message(&self) -> (message: String)
        ensures
            message@ == (match self@ {
                ReplayErrorView::LogMissing(path) => "event log not found: "@ + path,
                ReplayErrorView::RunNotFound(id) => "no run with id "@ + id + " in the log"@,
                ReplayErrorView::CorruptLog(message) => "corrupt event log: "@ + message,
            }),
    {
        match self {
            ReplayError::LogMissing(path) => {
                let mut message = "event log not found: ".to_string();
                message.append(path.as_str());
                message
            },
            ReplayError::RunNotFound(id) => {
                let mut message = "no run with id ".to_string();
                message.append(id.as_str());
                message.append(" in the log");
                message
            },
            ReplayError::CorruptLog(detail) => {
                let mut message = "corrupt event log: ".to_string();
                message.append(detail.as_str());
                message
            },
        }
    }
}

/// The lines of a log, up to where reading it failed, if it did.
#[derive(Debug)]
pub struct LogLines {
    pub lines: Vec<String>,
    pub failure: Option<String>,
}

/// Whether a logged value starts a run.
pub open spec fn starts_run(v: JsonTree) -> bool {
    json::str_of(json::item(v, "t"@)) == Some("run_start"@)
}

/// Whether a logged value starts the run with this id.
pub open spec fn starts_this_run(v: JsonTree, run_id: Seq<char>) -> bool {
    starts_run(v) && json::str_of(json::item(v, "run_id"@)) == Some(run_id)
}

/// What to do with a logged value in the search for a run.
#[derive(Debug, Clone, Copy, PartialEq, Eq, Structural)]
pub enum LogStep {
    /// It belongs to another run.
    Skip,
    /// It belongs to the run.
    Take,
    /// The run has ended before it.
    Stop,
}

/// What to do with a logged value: the run begins with its own start, and ends
/// with the start of the next.
pub open spec fn step_of(v: JsonTree, run_id: Seq<char>, found: bool) -> LogStep {
    if found && starts_run(v) {
        LogStep::Stop
    } else if found || starts_this_run(v, run_id) {
        LogStep::Take
    } else {
        LogStep::Skip
    }
}

/// Decides what to do with a logged value in the search for a run; `found` says
/// whether it has begun.
pub fn log_step(v: &Json, run_id: &str, found: bool) -> (step: LogStep)
    ensures
        step == step_of(v@, run_id@, found),
{
    let starts = match v.str_at("t") {
        Some(kind) => same_text(kind, "run_start"),
        None => false,
    };
    if found {
        return if starts {
            LogStep::Stop
        } else {
            LogStep::Take
        };
    }
    let this = match v.str_at("run_id") {
        Some(id) => same_text(id, run_id),
        None => false,
    };
    if starts && this {
        LogStep::Take
    } else {
        LogStep::Skip
    }
}

/// The events of a run, from the lines of a log. Runs never interleave: the
/// events run from the start of the run to the start of the next. Blank lines
/// are skipped; a line that is not JSON, or a failure to read on, is an error
/// unless the run has ended before it.
pub open spec fn events_of_run(
    log: Seq<Seq<char>>,
    failure: Option<Seq<char>>,
    run_id: Seq<char>,
    found: bool,
) -> Result<Seq<JsonTree>, ReplayErrorView>
    decreases log.len(),
{
    if log.len() == 0 {
        match failure {
            Some(message) => Err(ReplayErrorView::CorruptLog(message)),
            None => if found {
                Ok(Seq::empty())
            } else {
                Err(ReplayErrorView::RunNotFound(run_id))
            },
        }
    } else if text::trim(log[0]).len() == 0 {
        events_of_run(log.skip(1), failure, run_id, found)
    } else {
        match json::parsed(log[0]) {
            Err(message) => Err(ReplayErrorView::CorruptLog(message)),
            Ok(v) => match step_of(v, run_id, found) {
                LogStep::Stop => Ok(Seq::empty()),
                LogStep::Take => match events_of_run(log.skip(1), failure, run_id, true) {
                    Ok(others) => Ok(seq![v] + others),
                    Err(error) => Err(error),
                },
                LogStep::Skip => events_of_run(log.skip(1), failure, run_id, false),
            },
        }
    }
}

/// What the events so far say of a run.
pub struct Rebuilt {
    pub base: Seq<char>,
    pub vcs: Option<Vcs>,
    pub mode: Seq<char>,
    pub source: Seq<char>,
    pub files: Seq<ScopedFileView>,
    pub reports: Seq<FileReportView>,
    pub gates: Seq<GateView>,
    pub parts: Seq<(Seq<char>, Seq<char>)>,
    pub verdict: Seq<char>,
    pub stats: Stats,
}

/// The text under a key; none is empty.
pub open spec fn text_at(v: JsonTree, key: Seq<char>) -> Seq<char> {
    match json::str_of(json::item(v, key)) {
        Some(s) => s,
        None => Seq::empty(),
    }
}

/// The whole number under a key; none is zero.
pub open spec fn number_at(v: JsonTree, key: Seq<char>) -> u64 {
    match json::u64_of(json::item(v, key)) {
        Some(n) => n,
        None => 0,
    }
}

/// The count under a key; none is zero.
pub open spec fn count_at(v: JsonTree, key: Seq<char>) -> usize {
    number_at(v, key) as usize
}

/// The boolean under a key, or `otherwise`.
pub open spec fn flag_at(v: JsonTree, key: Seq<char>, otherwise: bool) -> bool {
    match json::bool_of(json::item(v, key)) {
        Some(b) => b,
        None => otherwise,
    }
}

/// The version control system of a logged run.
pub open spec fn vcs_named(v: JsonTree) -> Option<Vcs> {
    match json::str_of(json::item(v, "vcs"@)) {
        Some(name) => if name == "git"@ {
            Some(Vcs::Git)
        } else if name == "jj"@ {
            Some(Vcs::Jj)
        } else {
            None
        },
        None => None,
    }
}

/// A file of a scope of which only the path is known.
pub open spec fn bare_file(path: Seq<char>) -> ScopedFileView {
    ScopedFileView { path, ranges: Seq::empty(), agent_added_lines: None }
}

/// The files that the texts among the items name.
pub open spec fn named_files(items: Seq<JsonTree>) -> Seq<ScopedFileView>
    decreases items.len(),
{
    if items.len() == 0 {
        Seq::empty()
    } else {
        let before = named_files(items.drop_last());
        match json::str_of(items.last()) {
            Some(path) => before.push(bare_file(path)),
            None => before,
        }
    }
}

/// The line range that a logged one names.
pub open spec fn logged_range(v: JsonTree) -> Option<LineRange> {
    match (json::u64_of(json::item(v, "start"@)), json::u64_of(json::item(v, "end"@))) {
        (Some(start), Some(end)) => Some(LineRange { start: start as usize, end: end as usize }),
        _ => None,
    }
}

/// The line ranges that the items name.
pub open spec fn logged_ranges(items: Seq<JsonTree>) -> Seq<LineRange>
    decreases items.len(),
{
    if items.len() == 0 {
        Seq::empty()
    } else {
        let before = logged_ranges(items.drop_last());
        match logged_range(items.last()) {
            Some(range) => before.push(range),
            None => before,
        }
    }
}

/// The file of a scope that a logged one names, with its ranges and its count.
pub open spec fn logged_file(v: JsonTree) -> Option<ScopedFileView> {
    match json::str_of(json::item(v, "path"@)) {
        Some(path) => Some(
            ScopedFileView {
                path,
                ranges: match json::array_of(json::item(v, "ranges"@)) {
                    Some(items) => logged_ranges(items),
                    None => Seq::empty(),
                },
                agent_added_lines: match json::u64_of(json::item(v, "agent_added_lines"@)) {
                    Some(n) => Some(n as usize),
                    None => None,
                },
            },
        ),
        None => None,
    }
}

/// The files of a scope that the items name.
pub open spec fn scoped_files(items: Seq<JsonTree>) -> Seq<ScopedFileView>
    decreases items.len(),
{
    if items.len() == 0 {
        Seq::empty()
    } else {
        let before = scoped_files(items.drop_last());
        match logged_file(items.last()) {
            Some(file) => before.push(file),
            None => before,
        }
    }
}

/// The files of a logged scope. A log that does not keep their ranges and counts
/// gives their paths alone.
pub open spec fn logged_files(v: JsonTree) -> Seq<ScopedFileView> {
    match json::array_of(json::item(v, "file_scopes"@)) {
        Some(items) => scoped_files(items),
        None => match json::array_of(json::item(v, "files"@)) {
            Some(items) => named_files(items),
            None => Seq::empty(),
        },
    }
}

/// Where a logged scope came from; a log that does not say so gives "replay".
pub open spec fn logged_source(v: JsonTree) -> Seq<char> {
    match json::str_of(json::item(v, "source"@)) {
        Some(source) => source,
        None => "replay"@,
    }
}

/// The file report that a logged result gives.
pub open spec fn logged_report(v: JsonTree) -> FileReportView {
    FileReportView {
        path: text_at(v, "file"@),
        engine: engine::engine_name(),
        changed: flag_at(v, "changed"@, false),
        added_lines: count_at(v, "added_lines"@) as int,
        removed_lines: count_at(v, "removed_lines"@) as int,
        hunks_total: count_at(v, "hunks_total"@) as int,
        hunks_kept: count_at(v, "hunks_kept"@) as int,
        out_of_scope_hunks: count_at(v, "out_of_scope_hunks"@) as int,
        rustfmt_duration_ms: number_at(v, "rustfmt_duration_ms"@) as int,
        first_pass_duration_ms: number_at(v, "first_pass_duration_ms"@) as int,
        idempotency_duration_ms: number_at(v, "idempotency_duration_ms"@) as int,
    }
}

/// The measure that a logged number gives.
pub open spec fn logged_measure(v: JsonTree) -> Option<MeasureView> {
    match v {
        JsonTree::Integer(n) => if n >= 0 {
            Some(MeasureView::Count(n))
        } else {
            Some(MeasureView::Negative(n))
        },
        JsonTree::Real(r) => Some(MeasureView::Recorded(r)),
        _ => None,
    }
}

/// The result of a gate that a logged event gives.
pub open spec fn logged_gate(v: JsonTree) -> GateView {
    GateView {
        gate: text_at(v, "gate"@),
        pass: flag_at(v, "pass"@, false),
        file: json::str_of(json::item(v, "file"@)),
        metric: logged_measure(json::item(v, "metric"@)),
        limit: logged_measure(json::item(v, "limit"@)),
        detail: text_at(v, "detail"@),
    }
}

/// What is known of a run before its first event.
pub open spec fn nothing_known() -> Rebuilt {
    Rebuilt {
        base: Seq::empty(),
        vcs: None,
        mode: "dry-run"@,
        source: "replay"@,
        files: Seq::empty(),
        reports: Seq::empty(),
        gates: Seq::empty(),
        parts: Seq::empty(),
        verdict: "ok"@,
        stats: Stats { files_scanned: 0, files_changed: 0, added_lines: 0, removed_lines: 0 },
    }
}

/// What one more event adds.
pub open spec fn learned(r: Rebuilt, v: JsonTree) -> Rebuilt {
    let kind = text_at(v, "t"@);
    if kind == "run_start"@ {
        Rebuilt {
            base: text_at(v, "base"@),
            vcs: vcs_named(v),
            mode: if flag_at(v, "dry_run"@, true) {
                "dry-run"@
            } else {
                "apply"@
            },
            ..r
        }
    } else if kind == "scope_detect"@ {
        Rebuilt { source: logged_source(v), files: r.files + logged_files(v), ..r }
    } else if kind == "fmt_result"@ {
        Rebuilt {
            reports: r.reports.push(logged_report(v)),
            parts: match json::str_of(json::item(v, "patch"@)) {
                Some(patch) => if patch.len() > 0 {
                    r.parts.push((text_at(v, "file"@), patch))
                } else {
                    r.parts
                },
                None => r.parts,
            },
            stats: Stats { files_scanned: (r.stats.files_scanned + 1) as usize, ..r.stats },
            ..r
        }
    } else if kind == "gate_check"@ {
        Rebuilt { gates: r.gates.push(logged_gate(v)), ..r }
    } else if kind == "report_emit"@ {
        Rebuilt {
            verdict: match json::str_of(json::item(v, "verdict"@)) {
                Some(verdict) => verdict,
                None => "ok"@,
            },
            stats: Stats {
                files_changed: count_at(v, "files_changed"@),
                added_lines: count_at(v, "total_added"@),
                removed_lines: count_at(v, "total_removed"@),
                ..r.stats
            },
            ..r
        }
    } else {
        r
    }
}

/// What the events of a run say of it.
pub open spec fn rebuilt(events: Seq<JsonTree>) -> Rebuilt
    decreases events.len(),
{
    if events.len() == 0 {
        nothing_known()
    } else {
        learned(rebuilt(events.drop_last()), events.last())
    }
}

/// The report of a run, from what its events say.
pub open spec fn replayed_report(run_id: Seq<char>, r: Rebuilt) -> ReportView {
    ReportView {
        tool: TOOL@,
        version: VERSION@,
        run_id,
        verdict: r.verdict,
        mode: r.mode,
        scope: ScopeView { vcs: r.vcs, base: r.base, source: r.source, files: r.files },
        files: r.reports,
        stats: r.stats,
        gates: r.gates,
        rejections: report::rejected(r.gates),
        patch: if r.parts.len() == 0 {
            None
        } else {
            Some(report::concatenated(r.parts))
        },
    }
}

/// The report that a log gives for a run; no log is an error of its own.
pub open spec fn replay_of(
    run_id: Seq<char>,
    log_path: Seq<char>,
    log: Option<(Seq<Seq<char>>, Option<Seq<char>>)>,
) -> Result<ReportView, ReplayErrorView> {
    match log {
        None => Err(ReplayErrorView::LogMissing(log_path)),
        Some((lines, failure)) => match events_of_run(lines, failure, run_id, false) {
            Err(error) => Err(error),
            Ok(events) => Ok(replayed_report(run_id, rebuilt(events))),
        },
    }
}

/// A log as a value.
pub open spec fn log_view(log: Option<LogLines>) -> Option<(Seq<Seq<char>>, Option<Seq<char>>)> {
    match log {
        None => None,
        Some(log) => Some((text::texts(log.lines@), text::optional_text(log.failure))),
    }
}

/// Events read so far, with what is still to come behind them.
spec fn behind(
    done: Seq<JsonTree>,
    others: Result<Seq<JsonTree>, ReplayErrorView>,
) -> Result<Seq<JsonTree>, ReplayErrorView> {
    match others {
        Ok(others) => Ok(done + others),
        Err(error) => Err(error),
    }
}

/// Reads the events of a run from a log.
fn read_run(log: &LogLines, run_id: &str) -> (events: Result<Vec<Json>, ReplayError>)
    ensures
        ({
            let wanted = events_of_run(
                text::texts(log.lines@),
                text::optional_text(log.failure),
                run_id@,
                false,
            );
            match events {
                Ok(events) => wanted == Ok::<Seq<JsonTree>, ReplayErrorView>(json::trees(events@)),
                Err(error) => wanted == Err::<Seq<JsonTree>, ReplayErrorView>(error@),
            }
        }),
{
    let ghost all = text::texts(log.lines@);
    let ghost failure = text::optional_text(log.failure);
    let ghost wanted = events_of_run(all, failure, run_id@, false);
    let mut events: Vec<Json> = Vec::new();
    let mut found = false;
    proof {
        assert(all.skip(0) == all);
        assert(json::trees(events@) == Seq::<JsonTree>::empty());
        if wanted is Ok {
            assert(Seq::<JsonTree>::empty() + wanted->Ok_0 == wanted->Ok_0);
        }
    }
    for i in 0..log.lines.len()
        invariant
            all == text::texts(log.lines@),
            failure == text::optional_text(log.failure),
            wanted == events_of_run(all, failure, run_id@, false),
            wanted == behind(
                json::trees(events@),
                events_of_run(all.skip(i as int), failure, run_id@, found),
            ),
    {
        let line = &log.lines[i];
        let ghost rest = all.skip(i as int);
        proof {
            assert(rest[0] == line@);
            assert(rest.skip(1) == all.skip(i + 1));
        }
        let chars = chars_of(line.as_str());
        if trimmed(chars.as_slice()).len() > 0 {
            let v = match parse(line.as_str()) {
                Ok(v) => v,
                Err(message) => {
                    return Err(ReplayError::CorruptLog(message));
                },
            };
            match log_step(&v, run_id, found) {
                LogStep::Stop => {
                    assert(json::trees(events@) + Seq::<JsonTree>::empty() == json::trees(events@));
                    return Ok(events);
                },
                LogStep::Skip => {},
                LogStep::Take => {
                    found = true;
                    let ghost before = json::trees(events@);
                    events.push(v);
                    proof {
                        assert(json::trees(events@) == before.push(v@));
                        let others = events_of_run(all.skip(i + 1), failure, run_id@, true);
                        if others is Ok {
                            assert(before.push(v@) + others->Ok_0 == before + (seq![v@]
                                + others->Ok_0));
                        }
                    }
                },
            }
        }
    }
    assert(all.skip(all.len() as int).len() == 0);
    match &log.failure {
        Some(message) => Err(ReplayError::CorruptLog(message.clone())),
        None => if found {
            assert(json::trees(events@) + Seq::<JsonTree>::empty() == json::trees(events@));
            Ok(events)
        } else {
            Err(ReplayError::RunNotFound(run_id.to_string()))
        },
    }
}

/// What the events so far say of a run.
struct Builder {
    base: String,
    vcs: Option<Vcs>,
    mode: String,
    source: String,
    files: Vec<ScopedFile>,
    reports: Vec<FileReport>,
    gates: Vec<GateResult>,
    parts: Vec<(String, String)>,
    verdict: String,
    stats: Stats,
}

spec fn part_views(parts: Seq<(String, String)>) -> Seq<(Seq<char>, Seq<char>)> {
    parts.map_values(|p: (String, String)| (p.0@, p.1@))
}

impl View for Builder {
    type V = Rebuilt;

    closed spec fn view(&self) -> Rebuilt {
        Rebuilt {
            base: self.base@,
            vcs: self.vcs,
            mode: self.mode@,
            source: self.source@,
            files: types::file_views(self.files@),
            reports: report::file_report_views(self.reports@),
            gates: gates::gate_views(self.gates@),
            parts: part_views(self.parts@),
            verdict: self.verdict@,
            stats: self.stats,
        }
    }
}

fn read_text(v: &Json, key: &str) -> (s: String)
    ensures
        s@ == text_at(v@, key@),
{
    match v.str_at(key) {
        Some(s) => s.to_string(),
        None => String::new(),
    }
}

fn read_number(v: &Json, key: &str) -> (n: u64)
    ensures
        n == number_at(v@, key@),
{
    match v.u64_at(key) {
        Some(n) => n,
        None => 0,
    }
}

fn read_count(v: &Json, key: &str) -> (n: usize)
    ensures
        n == count_at(v@, key@),
{
    read_number(v, key) as usize
}

fn read_flag(v: &Json, key: &str, otherwise: bool) -> (b: bool)
    ensures
        b == flag_at(v@, key@, otherwise),
{
    match v.bool_at(key) {
        Some(b) => b,
        None => otherwise,
    }
}

fn read_vcs(v: &Json) -> (vcs: Option<Vcs>)
    ensures
        vcs == vcs_named(v@),
{
    match v.str_at("vcs") {
        Some(name) => if same_text(name, "git") {
            Some(Vcs::Git)
        } else if same_text(name, "jj") {
            Some(Vcs::Jj)
        } else {
            None
        },
        None => None,
    }
}

fn read_measure(v: &Json, key: &str) -> (m: Option<Measure>)
    ensures
        gates::measure_view(m) == logged_measure(json::item(v@, key@)),
{
    match v.get(key) {
        Some(Json::UInt(n)) => Some(Measure::Count(*n)),
        Some(Json::Int(n)) => if *n >= 0 {
            Some(Measure::Count(*n as u64))
        } else {
            Some(Measure::Negative(*n))
        },
        Some(Json::Real(r)) => Some(Measure::Recorded(r.clone())),
        _ => None,
    }
}

fn read_optional_text(v: &Json, key: &str) -> (s: Option<String>)
    ensures
        text::optional_text(s) == json::str_of(json::item(v@, key@)),
{
    match v.str_at(key) {
        Some(s) => Some(s.to_string()),
        None => None,
    }
}

/// Adds the files that the texts among the items name.
fn push_named_files(files: &mut Vec<ScopedFile>, items: &Vec<Json>)
    ensures
        types::file_views(final(files)@) == types::file_views(old(files)@) + named_files(
            json::trees(items@),
        ),
{
    let ghost before = types::file_views(files@);
    let ghost all = json::trees(items@);
    assert(all.take(0) == Seq::<JsonTree>::empty());
    assert(before + Seq::<ScopedFileView>::empty() == before);
    for i in 0..items.len()
        invariant
            all == json::trees(items@),
            types::file_views(files@) == before + named_files(all.take(i as int)),
    {
        proof {
            assert(all.take(i + 1).drop_last() == all.take(i as int));
            assert(all.take(i + 1).last() == items@[i as int]@);
        }
        let ghost done = types::file_views(files@);
        if let Some(path) = items[i].as_str() {
            let ranges: Vec<LineRange> = Vec::new();
            let file = ScopedFile { path: path.to_string(), ranges, agent_added_lines: None };
            assert(file@.ranges == Seq::<LineRange>::empty());
            files.push(file);
            assert(types::file_views(files@) == done.push(bare_file(path@)));
        }
        assert(types::file_views(files@) == before + named_files(all.take(i + 1)));
    }
    assert(all.take(all.len() as int) == all);
}

/// Reads the line ranges that the items name.
fn read_ranges(items: &Vec<Json>) -> (ranges: Vec<LineRange>)
    ensures
        ranges@ == logged_ranges(json::trees(items@)),
{
    let ghost all = json::trees(items@);
    let mut ranges: Vec<LineRange> = Vec::new();
    assert(all.take(0) == Seq::<JsonTree>::empty());
    for i in 0..items.len()
        invariant
            all == json::trees(items@),
            ranges@ == logged_ranges(all.take(i as int)),
    {
        proof {
            assert(all.take(i + 1).drop_last() == all.take(i as int));
            assert(all.take(i + 1).last() == items@[i as int]@);
        }
        let start = items[i].u64_at("start");
        let end = items[i].u64_at("end");
        if let Some(start) = start {
            if let Some(end) = end {
                ranges.push(LineRange { start: start as usize, end: end as usize });
            }
        }
    }
    assert(all.take(all.len() as int) == all);
    ranges
}

/// Reads a file of a scope.
fn read_file(v: &Json) -> (file: Option<ScopedFile>)
    ensures
        match file {
            Some(file) => logged_file(v@) == Some(file@),
            None => logged_file(v@) is None,
        },
{
    let path = match v.str_at("path") {
        Some(path) => path.to_string(),
        None => {
            return None;
        },
    };
    let found = match v.get("ranges") {
        Some(list) => list.as_array(),
        None => None,
    };
    let ranges = match found {
        Some(items) => read_ranges(items),
        None => Vec::new(),
    };
    let agent_added_lines = match v.u64_at("agent_added_lines") {
        Some(n) => Some(n as usize),
        None => None,
    };
    let file = ScopedFile { path, ranges, agent_added_lines };
    assert(logged_file(v@)->0.ranges == file@.ranges);
    Some(file)
}

/// Adds the files of a scope that the items name.
fn push_scoped_files(files: &mut Vec<ScopedFile>, items: &Vec<Json>)
    ensures
        types::file_views(final(files)@) == types::file_views(old(files)@) + scoped_files(
            json::trees(items@),
        ),
{
    let ghost before = types::file_views(files@);
    let ghost all = json::trees(items@);
    assert(all.take(0) == Seq::<JsonTree>::empty());
    assert(before + Seq::<ScopedFileView>::empty() == before);
    for i in 0..items.len()
        invariant
            all == json::trees(items@),
            types::file_views(files@) == before + scoped_files(all.take(i as int)),
    {
        proof {
            assert(all.take(i + 1).drop_last() == all.take(i as int));
            assert(all.take(i + 1).last() == items@[i as int]@);
        }
        let ghost done = types::file_views(files@);
        if let Some(file) = read_file(&items[i]) {
            files.push(file);
            assert(types::file_views(files@) == done.push(file@));
        }
        assert(types::file_views(files@) == before + scoped_files(all.take(i + 1)));
    }
    assert(all.take(all.len() as int) == all);
}

fn push_logged_files(files: &mut Vec<ScopedFile>, v: &Json)
    ensures
        types::file_views(final(files)@) == types::file_views(old(files)@) + logged_files(v@),
{
    let ghost before = types::file_views(files@);
    assert(before + Seq::<ScopedFileView>::empty() == before);
    let scoped = match v.get("file_scopes") {
        Some(list) => list.as_array(),
        None => None,
    };
    if let Some(items) = scoped {
        push_scoped_files(files, items);
        return;
    }
    let named = match v.get("files") {
        Some(list) => list.as_array(),
        None => None,
    };
    if let Some(items) = named {
        push_named_files(files, items);
    }
}

impl Builder {
    fn new() -> (b: Builder)
        ensures
            b@ == nothing_known(),
    {
        let b = Builder {
            base: String::new(),
            vcs: None,
            mode: "dry-run".to_string(),
            source: "replay".to_string(),
            files: Vec::new(),
            reports: Vec::new(),
            gates: Vec::new(),
            parts: Vec::new(),
            verdict: "ok".to_string(),
            stats: Stats { files_scanned: 0, files_changed: 0, added_lines: 0, removed_lines: 0 },
        };
        proof {
            assert(b@.files == Seq::<ScopedFileView>::empty());
            assert(b@.reports == Seq::<FileReportView>::empty());
            assert(b@.gates == Seq::<GateView>::empty());
            assert(b@.parts == Seq::<(Seq<char>, Seq<char>)>::empty());
            assert(b@.base == Seq::<char>::empty());
        }
        b
    }

    fn learn_result(&mut self, v: &Json)
        requires
            old(self)@.stats.files_scanned < usize::MAX,
            text_at(v@, "t"@) == "fmt_result"@,
        ensures
            final(self)@ == learned(old(self)@, v@),
    {
        let ghost before = self@;
        proof {
            lemma_kinds_differ();
        }
        let path = read_text(v, "file");
        let report = FileReport {
            path: path.clone(),
            engine: "rustfmt-diff-intersect".to_string(),
            changed: read_flag(v, "changed", false),
            added_lines: read_count(v, "added_lines"),
            removed_lines: read_count(v, "removed_lines"),
            hunks_total: read_count(v, "hunks_total"),
            hunks_kept: read_count(v, "hunks_kept"),
            out_of_scope_hunks: read_count(v, "out_of_scope_hunks"),
            rustfmt_duration_ms: read_number(v, "rustfmt_duration_ms"),
            first_pass_duration_ms: read_number(v, "first_pass_duration_ms"),
            idempotency_duration_ms: read_number(v, "idempotency_duration_ms"),
        };
        assert(report@ == logged_report(v@));
        self.reports.push(report);
        assert(self@.reports == before.reports.push(logged_report(v@)));
        if let Some(patch) = read_optional_text(v, "patch") {
            if chars_of(patch.as_str()).len() > 0 {
                let ghost part = (path@, patch@);
                self.parts.push((path, patch));
                assert(self@.parts == before.parts.push(part));
            }
        }
        self.stats.files_scanned = self.stats.files_scanned + 1;
        assert(self@ == learned(before, v@));
    }

    fn learn(&mut self, v: &Json)
        requires
            old(self)@.stats.files_scanned < usize::MAX,
        ensures
            final(self)@ == learned(old(self)@, v@),
            final(self)@.stats.files_scanned <= old(self)@.stats.files_scanned + 1,
    {
        let ghost before = self@;
        let kind = read_text(v, "t");
        proof {
            lemma_kinds_differ();
        }
        if same_text(kind.as_str(), "run_start") {
            self.base = read_text(v, "base");
            self.vcs = read_vcs(v);
            self.mode = if read_flag(v, "dry_run", true) {
                "dry-run".to_string()
            } else {
                "apply".to_string()
            };
            assert(self@ == learned(before, v@));
        } else if same_text(kind.as_str(), "scope_detect") {
            self.source = match v.str_at("source") {
                Some(source) => source.to_string(),
                None => "replay".to_string(),
            };
            push_logged_files(&mut self.files, v);
            assert(self@ == learned(before, v@));
        } else if same_text(kind.as_str(), "fmt_result") {
            self.learn_result(v);
        } else if same_text(kind.as_str(), "gate_check") {
            let gate = GateResult {
                gate: read_text(v, "gate"),
                pass: read_flag(v, "pass", false),
                file: read_optional_text(v, "file"),
                metric: read_measure(v, "metric"),
                limit: read_measure(v, "limit"),
                detail: read_text(v, "detail"),
            };
            assert(gate@ == logged_gate(v@));
            self.gates.push(gate);
            assert(self@.gates == before.gates.push(logged_gate(v@)));
            assert(self@ == learned(before, v@));
        } else if same_text(kind.as_str(), "report_emit") {
            self.verdict = match v.str_at("verdict") {
                Some(verdict) => verdict.to_string(),
                None => "ok".to_string(),
            };
            self.stats = Stats {
                files_scanned: self.stats.files_scanned,
                files_changed: read_count(v, "files_changed"),
                added_lines: read_count(v, "total_added"),
                removed_lines: read_count(v, "total_removed"),
            };
            assert(self@ == learned(before, v@));
        }
    }
}

/// No two kinds of event have one name.
pub proof fn lemma_kinds_differ()
    ensures
        "run_start"@ != "scope_detect"@,
        "run_start"@ != "fmt_result"@,
        "run_start"@ != "gate_check"@,
        "run_start"@ != "report_emit"@,
        "scope_detect"@ != "fmt_result"@,
        "scope_detect"@ != "gate_check"@,
        "scope_detect"@ != "report_emit"@,
        "fmt_result"@ != "gate_check"@,
        "fmt_result"@ != "report_emit"@,
        "gate_check"@ != "report_emit"@,
{
    reveal_strlit("run_start");
    reveal_strlit("scope_detect");
    reveal_strlit("fmt_result");
    reveal_strlit("gate_check");
    reveal_strlit("report_emit");
    assert("run_start"@.len() == 9);
    assert("scope_detect"@.len() == 12);
    assert("report_emit"@.len() == 11);
    assert("fmt_result"@[0] == 'f');
    assert("gate_check"@[0] == 'g');
}

/// Rebuilds the report of a run from its events.
pub fn rebuild_report(run_id: &str, events: &[Json]) -> (report: Report)
    ensures
        report@ == replayed_report(run_id@, rebuilt(json::trees(events@))),
{
    let ghost all = json::trees(events@);
    let mut built = Builder::new();
    assert(all.take(0) == Seq::<JsonTree>::empty());
    for i in 0..events.len()
        invariant
            all == json::trees(events@),
            built@ == rebuilt(all.take(i as int)),
            built@.stats.files_scanned <= i,
    {
        proof {
            assert(all.take(i + 1).drop_last() == all.take(i as int));
            assert(all.take(i + 1).last() == events@[i as int]@);
        }
        built.learn(&events[i]);
    }
    assert(all.take(all.len() as int) == all);
    let ghost known = built@;
    let patch = if built.parts.len() == 0 {
        None
    } else {
        let mut patch = String::new();
        assert(known.parts.take(0) == Seq::<(Seq<char>, Seq<char>)>::empty());
        for i in 0..built.parts.len()
            invariant
                known.parts == part_views(built.parts@),
                patch@ == report::concatenated(known.parts.take(i as int)),
        {
            proof {
                assert(known.parts.take(i + 1).drop_last() == known.parts.take(i as int));
                assert(known.parts[i as int] == (built.parts@[i as int].0@,
                    built.parts@[i as int].1@));
            }
            push_patch(&mut patch, built.parts[i].0.as_str(), built.parts[i].1.as_str());
        }
        assert(known.parts.take(known.parts.len() as int) == known.parts);
        Some(patch)
    };
    let rejections = failed_gates(built.gates.as_slice());
    Report {
        tool: TOOL,
        version: VERSION,
        run_id: run_id.to_string(),
        verdict: built.verdict,
        mode: built.mode,
        scope: Scope {
            vcs: built.vcs,
            base: built.base,
            source: built.source,
            files: built.files,
        },
        files: built.reports,
        stats: built.stats,
        gates: built.gates,
        rejections,
        patch,
    }
}

/// Rebuilds the report of one run from the event log; `None` is a log that
/// could not be opened.
pub fn replay(run_id: &str, log_path: &str, log: &Option<LogLines>) -> (report: Result<
    Report,
    ReplayError,
>)
    ensures
        match report {
            Ok(report) => replay_of(run_id@, log_path@, log_view(*log)) == Ok::<
                ReportView,
                ReplayErrorView,
            >(report@),
            Err(error) => replay_of(run_id@, log_path@, log_view(*log)) == Err::<
                ReportView,
                ReplayErrorView,
            >(error@),
        },
{
    let log = match log {
        Some(log) => log,
        None => {
            return Err(ReplayError::LogMissing(log_path.to_string()));
        },
    };
    let events = match read_run(log, run_id) {
        Ok(events) => events,
        Err(error) => {
            return Err(error);
        },
    };
    Ok(rebuild_report(run_id, events.as_slice()))
}

} // verus!
