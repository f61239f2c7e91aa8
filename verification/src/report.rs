//! The report of a run, and its unified-diff patch.

use crate::engine;
use crate::engine::{FormatResult, FormatView};
use crate::gates;
use crate::gates::{GateResult, GateView, count_changed};
use crate::text;
use crate::text::decimal_text;
use crate::types::{Scope, ScopeView};
use vstd::prelude::*;

verus! {

/// The name of the tool, as reports give it.
pub const TOOL: &'static str = "fmtguard";

/// The version of the tool, as reports give it.
pub const VERSION: &'static str = "0.2.0";

/// What a report says of one file.
#[derive(Debug)]
pub struct FileReport {
    pub path: String,
    pub engine: String,
    pub changed: bool,
    pub added_lines: usize,
    pub removed_lines: usize,
    pub hunks_total: usize,
    pub hunks_kept: usize,
    /// The hunks that were clipped because they lie outside the scope.
    pub out_of_scope_hunks: usize,
    /// How long the formatter ran on the file, in both passes.
    pub rustfmt_duration_ms: u64,
    /// How long it ran on the text of the file.
    pub first_pass_duration_ms: u64,
    /// How long it ran on its own output.
    pub idempotency_duration_ms: u64,
}

/// What a [`FileReport`] stands for.
pub struct FileReportView {
    pub path: Seq<char>,
    pub engine: Seq<char>,
    pub changed: bool,
    pub added_lines: int,
    pub removed_lines: int,
    pub hunks_total: int,
    pub hunks_kept: int,
    pub out_of_scope_hunks: int,
    pub rustfmt_duration_ms: int,
    pub first_pass_duration_ms: int,
    pub idempotency_duration_ms: int,
}

impl View for FileReport {
    type V = FileReportView;

    open spec fn view(&self) -> FileReportView {
        FileReportView {
            path: self.path@,
            engine: self.engine@,
            changed: self.changed,
            added_lines: self.added_lines as int,
            removed_lines: self.removed_lines as int,
            hunks_total: self.hunks_total as int,
            hunks_kept: self.hunks_kept as int,
            out_of_scope_hunks: self.out_of_scope_hunks as int,
            rustfmt_duration_ms: self.rustfmt_duration_ms as int,
            first_pass_duration_ms: self.first_pass_duration_ms as int,
            idempotency_duration_ms: self.idempotency_duration_ms as int,
        }
    }
}

/// The file reports, as values.
pub open spec fn file_report_views(files: Seq<FileReport>) -> Seq<FileReportView> {
    files.map_values(|f: FileReport| f@)
}

/// The totals of a run.
#[derive(Debug, Clone, Copy, PartialEq, Eq, Structural)]
pub struct Stats {
    pub files_scanned: usize,
    pub files_changed: usize,
    pub added_lines: usize,
    pub removed_lines: usize,
}

/// The report of a run.
#[derive(Debug)]
pub struct Report {
    pub tool: &'static str,
    pub version: &'static str,
    pub run_id: String,
    pub verdict: String,
    pub mode: String,
    pub scope: Scope,
    pub files: Vec<FileReport>,
    pub stats: Stats,
    pub gates: Vec<GateResult>,
    pub rejections: Vec<GateResult>,
    /// Unified diff of the scoped formatting: the diffs of the files, one after
    /// the other.
    pub patch: Option<String>,
}

/// What a [`Report`] stands for.
pub struct ReportView {
    pub tool: Seq<char>,
    pub version: Seq<char>,
    pub run_id: Seq<char>,
    pub verdict: Seq<char>,
    pub mode: Seq<char>,
    pub scope: ScopeView,
    pub files: Seq<FileReportView>,
    pub stats: Stats,
    pub gates: Seq<GateView>,
    pub rejections: Seq<GateView>,
    pub patch: Option<Seq<char>>,
}

impl View for Report {
    type V = ReportView;

    open spec fn view(&self) -> ReportView {
        ReportView {
            tool: self.tool@,
            version: self.version@,
            run_id: self.run_id@,
            verdict: self.verdict@,
            mode: self.mode@,
            scope: self.scope@,
            files: file_report_views(self.files@),
            stats: self.stats,
            gates: gates::gate_views(self.gates@),
            rejections: gates::gate_views(self.rejections@),
            patch: text::optional_text(self.patch),
        }
    }
}

/// What a report says of one result.
pub open spec fn file_report(r: FormatView) -> FileReportView {
    FileReportView {
        path: r.path,
        engine: r.engine,
        changed: r.changed,
        added_lines: r.added_lines,
        removed_lines: r.removed_lines,
        hunks_total: r.hunks_total,
        hunks_kept: r.hunks_kept,
        out_of_scope_hunks: r.hunks_total - r.hunks_kept,
        rustfmt_duration_ms: r.rustfmt_duration_ms,
        first_pass_duration_ms: r.first_pass_duration_ms,
        idempotency_duration_ms: r.idempotency_duration_ms,
    }
}

/// What a report says of each result.
pub open spec fn file_reports(results: Seq<FormatView>) -> Seq<FileReportView> {
    results.map_values(|r: FormatView| file_report(r))
}

/// The added lines of all results.
pub open spec fn added_sum(results: Seq<FormatView>) -> int
    decreases results.len(),
{
    if results.len() == 0 {
        0
    } else {
        added_sum(results.drop_last()) + results.last().added_lines
    }
}

/// The removed lines of all results.
pub open spec fn removed_sum(results: Seq<FormatView>) -> int
    decreases results.len(),
{
    if results.len() == 0 {
        0
    } else {
        removed_sum(results.drop_last()) + results.last().removed_lines
    }
}

/// The header that a file has in a patch.
pub open spec fn patch_header(path: Seq<char>) -> Seq<char> {
    "diff --git a/"@ + path + " b/"@ + path + "\n--- a/"@ + path + "\n+++ b/"@ + path + "\n"@
}

/// The patches of the files, each below its header, one after the other.
pub open spec fn concatenated(parts: Seq<(Seq<char>, Seq<char>)>) -> Seq<char>
    decreases parts.len(),
{
    if parts.len() == 0 {
        Seq::empty()
    } else {
        concatenated(parts.drop_last()) + patch_header(parts.last().0) + parts.last().1
    }
}

/// The paths and patches of the results that have a patch.
pub open spec fn patch_parts(results: Seq<FormatView>) -> Seq<(Seq<char>, Seq<char>)>
    decreases results.len(),
{
    if results.len() == 0 {
        Seq::empty()
    } else {
        let before = patch_parts(results.drop_last());
        match results.last().patch {
            Some(patch) => before.push((results.last().path, patch)),
            None => before,
        }
    }
}

/// The gates that did not pass, in order.
pub open spec fn rejected(gates: Seq<GateView>) -> Seq<GateView>
    decreases gates.len(),
{
    if gates.len() == 0 {
        Seq::empty()
    } else if gates.last().pass {
        rejected(gates.drop_last())
    } else {
        rejected(gates.drop_last()).push(gates.last())
    }
}

/// How a verdict is written.
pub open spec fn verdict_text(all_pass: bool) -> Seq<char> {
    if all_pass {
        "ok"@
    } else {
        "rejected"@
    }
}

/// The report that a run gives.
pub open spec fn report_of(
    run_id: Seq<char>,
    scope: ScopeView,
    results: Seq<FormatView>,
    gates: Seq<GateView>,
    all_pass: bool,
    mode: Seq<char>,
) -> ReportView {
    ReportView {
        tool: TOOL@,
        version: VERSION@,
        run_id,
        verdict: verdict_text(all_pass),
        mode,
        scope,
        files: file_reports(results),
        stats: Stats {
            files_scanned: results.len() as usize,
            files_changed: gates::changed_count(results) as usize,
            added_lines: added_sum(results) as usize,
            removed_lines: removed_sum(results) as usize,
        },
        gates,
        rejections: rejected(gates),
        patch: if gates::changed_count(results) > 0 {
            Some(concatenated(patch_parts(results)))
        } else {
            None
        },
    }
}

/// What a report needs of the results: the totals fit, and no result keeps
/// more hunks than there are.
pub open spec fn reportable(results: Seq<FormatView>) -> bool {
    &&& added_sum(results) <= usize::MAX
    &&& removed_sum(results) <= usize::MAX
    &&& forall|i: int|
        0 <= i < results.len() ==> (#[trigger] results[i]).hunks_kept <= results[i].hunks_total
}

/// Sums only grow.
proof fn lemma_sums_monotone(results: Seq<FormatResult>, n: int)
    requires
        0 <= n <= results.len(),
    ensures
        0 <= added_sum(engine::result_views(results).take(n)) <= added_sum(
            engine::result_views(results),
        ),
        0 <= removed_sum(engine::result_views(results).take(n)) <= removed_sum(
            engine::result_views(results),
        ),
    decreases results.len(),
{
    let all = engine::result_views(results);
    if n == results.len() {
        assert(all.take(n) == all);
    }
    if results.len() > 0 {
        lemma_sums_monotone(results.drop_last(), if n < results.len() {
            n
        } else {
            n - 1
        });
        assert(all.drop_last() == engine::result_views(results.drop_last()));
        assert(all.last() == results.last()@);
        if n < results.len() {
            assert(all.take(n) == all.drop_last().take(n));
        }
    }
}

/// Whether a report can be built of the results.
pub fn can_report(results: &[FormatResult]) -> (yes: bool)
    ensures
        yes == reportable(engine::result_views(results@)),
{
    let ghost all = engine::result_views(results@);
    let mut added: usize = 0;
    let mut removed: usize = 0;
    assert(all.take(0) == Seq::<FormatView>::empty());
    for i in 0..results.len()
        invariant
            all == engine::result_views(results@),
            added == added_sum(all.take(i as int)),
            removed == removed_sum(all.take(i as int)),
            forall|j: int|
                0 <= j < i ==> (#[trigger] all[j]).hunks_kept <= all[j].hunks_total,
    {
        let r = &results[i];
        proof {
            assert(all[i as int] == r@);
            assert(all.take(i + 1).drop_last() == all.take(i as int));
            assert(all.take(i + 1).last() == r@);
            lemma_sums_monotone(results@, i + 1);
        }
        if r.hunks_kept > r.hunks_total || r.added_lines > usize::MAX - added || r.removed_lines
            > usize::MAX - removed {
            return false;
        }
        added += r.added_lines;
        removed += r.removed_lines;
    }
    assert(all.take(all.len() as int) == all);
    true
}

/// Writes the patch of one file below its header.
pub fn push_patch(out: &mut String, path: &str, patch: &str)
    ensures
        final(out)@ == old(out)@ + patch_header(path@) + patch@,
{
    let ghost before = out@;
    out.append("diff --git a/");
    out.append(path);
    out.append(" b/");
    out.append(path);
    out.append("\n--- a/");
    out.append(path);
    out.append("\n+++ b/");
    out.append(path);
    out.append("\n");
    assert(out@ == before + patch_header(path@));
    out.append(patch);
}

/// Collects the gates that did not pass.
pub fn failed_gates(gates: &[GateResult]) -> (failed: Vec<GateResult>)
    ensures
        gates::gate_views(failed@) == rejected(gates::gate_views(gates@)),
{
    let ghost all = gates::gate_views(gates@);
    let mut failed: Vec<GateResult> = Vec::new();
    assert(all.take(0) == Seq::<GateView>::empty());
    assert(gates::gate_views(failed@) == Seq::<GateView>::empty());
    for i in 0..gates.len()
        invariant
            all == gates::gate_views(gates@),
            gates::gate_views(failed@) == rejected(all.take(i as int)),
    {
        proof {
            assert(all.take(i + 1).drop_last() == all.take(i as int));
            assert(all.take(i + 1).last() == gates@[i as int]@);
        }
        if !gates[i].pass {
            let ghost before = gates::gate_views(failed@);
            failed.push(gates[i].clone());
            assert(gates::gate_views(failed@) == before.push(gates@[i as int]@));
        }
    }
    assert(all.take(all.len() as int) == all);
    failed
}

/// Copies what the gates found.
pub fn copy_gates(gates: &[GateResult]) -> (copy: Vec<GateResult>)
    ensures
        gates::gate_views(copy@) == gates::gate_views(gates@),
{
    let mut copy: Vec<GateResult> = Vec::new();
    for i in 0..gates.len()
        invariant
            copy@.len() == i,
            forall|j: int|
                0 <= j < i ==> #[trigger] gates::gate_views(copy@)[j]
                    == gates::gate_views(gates@)[j],
    {
        let ghost before = copy@;
        copy.push(gates[i].clone());
        assert forall|j: int| 0 <= j < i + 1 implies #[trigger] gates::gate_views(copy@)[j]
            == gates::gate_views(
            gates@,
        )[j] by {
            if j < i {
                assert(gates::gate_views(copy@)[j] == gates::gate_views(before)[j]);
            }
        }
    }
    assert(gates::gate_views(copy@) == gates::gate_views(gates@));
    copy
}

/// Puts the patches of the results together.
fn join_patches(results: &[FormatResult]) -> (patch: String)
    ensures
        patch@ == concatenated(patch_parts(engine::result_views(results@))),
{
    let ghost all = engine::result_views(results@);
    let mut patch = String::new();
    assert(all.take(0) == Seq::<FormatView>::empty());
    for i in 0..results.len()
        invariant
            all == engine::result_views(results@),
            patch@ == concatenated(patch_parts(all.take(i as int))),
    {
        let r = &results[i];
        proof {
            assert(all.take(i + 1).drop_last() == all.take(i as int));
            assert(all.take(i + 1).last() == r@);
        }
        if let Some(one) = &r.patch {
            push_patch(&mut patch, r.path.as_str(), one.as_str());
            proof {
                let before = patch_parts(all.take(i as int));
                assert(before.push((r.path@, one@)).drop_last() == before);
            }
        }
    }
    assert(all.take(all.len() as int) == all);
    patch
}

/// Builds the report of a run.
pub fn build_report(
    run_id: String,
    scope: &Scope,
    results: &[FormatResult],
    gates: &[GateResult],
    all_pass: bool,
    mode: &str,
) -> (report: Report)
    requires
        reportable(engine::result_views(results@)),
    ensures
        report@ == report_of(
            run_id@,
            scope@,
            engine::result_views(results@),
            gates::gate_views(gates@),
            all_pass,
            mode@,
        ),
{
    let ghost all = engine::result_views(results@);
    let mut files: Vec<FileReport> = Vec::new();
    let mut added: usize = 0;
    let mut removed: usize = 0;
    assert(all.take(0) == Seq::<FormatView>::empty());
    for i in 0..results.len()
        invariant
            all == engine::result_views(results@),
            reportable(all),
            added == added_sum(all.take(i as int)),
            removed == removed_sum(all.take(i as int)),
            file_report_views(files@) == file_reports(all.take(i as int)),
    {
        let r = &results[i];
        proof {
            assert(all[i as int] == r@);
            assert(all.take(i + 1).drop_last() == all.take(i as int));
            assert(all.take(i + 1).last() == r@);
            lemma_sums_monotone(results@, i + 1);
        }
        added += r.added_lines;
        removed += r.removed_lines;
        let ghost before = files@;
        files.push(
            FileReport {
                path: r.path.clone(),
                engine: r.engine.clone(),
                changed: r.changed,
                added_lines: r.added_lines,
                removed_lines: r.removed_lines,
                hunks_total: r.hunks_total,
                hunks_kept: r.hunks_kept,
                out_of_scope_hunks: r.hunks_total - r.hunks_kept,
                rustfmt_duration_ms: r.rustfmt_duration_ms,
                first_pass_duration_ms: r.first_pass_duration_ms,
                idempotency_duration_ms: r.idempotency_duration_ms,
            },
        );
        proof {
            assert(file_report_views(files@) == file_report_views(before).push(file_report(r@)));
            assert(file_reports(all.take(i + 1)) == file_reports(all.take(i as int)).push(
                file_report(r@),
            ));
        }
    }
    assert(all.take(all.len() as int) == all);
    let files_changed: usize = count_changed(results);
    let patch = if files_changed > 0 {
        Some(join_patches(results))
    } else {
        None
    };
    Report {
        tool: TOOL,
        version: VERSION,
        run_id,
        verdict: if all_pass {
            "ok".to_string()
        } else {
            "rejected".to_string()
        },
        mode: mode.to_string(),
        scope: scope.clone(),
        files,
        stats: Stats {
            files_scanned: results.len(),
            files_changed,
            added_lines: added,
            removed_lines: removed,
        },
        gates: copy_gates(gates),
        rejections: failed_gates(gates),
        patch,
    }
}

/// The totals of a run, for people.
pub open spec fn totals_text(stats: Stats) -> Seq<char> {
    text::decimal(stats.files_changed as nat) + " file(s) changed, +"@
        + text::decimal(stats.added_lines as nat)
        + " −"@ + text::decimal(stats.removed_lines as nat)
}

fn push_totals(out: &mut String, stats: &Stats)
    ensures
        final(out)@ == old(out)@ + totals_text(*stats),
{
    let ghost before = out@;
    out.append(decimal_text(stats.files_changed).as_str());
    out.append(" file(s) changed, +");
    out.append(decimal_text(stats.added_lines).as_str());
    out.append(" −");
    out.append(decimal_text(stats.removed_lines).as_str());
    assert(out@ == before + totals_text(*stats));
}

/// The line that sums a run up, for people.
pub fn summary_line(report: &Report) -> (line: String)
    ensures
        line@ == "fmtguard "@ + report@.version + ": "@ + report@.verdict + " — "@ + totals_text(
            report@.stats,
        ) + " (scanned "@ + text::decimal(report@.stats.files_scanned as nat) + ")"@,
{
    let mut line = "fmtguard ".to_string();
    line.append(report.version);
    line.append(": ");
    line.append(report.verdict.as_str());
    line.append(" — ");
    push_totals(&mut line, &report.stats);
    line.append(" (scanned ");
    line.append(decimal_text(report.stats.files_scanned).as_str());
    line.append(")");
    line
}

/// The line that sums a rebuilt run up, for people.
pub fn replay_line(report: &Report) -> (line: String)
    ensures
        line@ == "fmtguard replay "@ + report@.run_id + ": verdict "@ + report@.verdict + " — "@
            + totals_text(report@.stats),
{
    let mut line = "fmtguard replay ".to_string();
    line.append(report.run_id.as_str());
    line.append(": verdict ");
    line.append(report.verdict.as_str());
    line.append(" — ");
    push_totals(&mut line, &report.stats);
    line
}

/// The rejections are none exactly where every gate passed.
pub proof fn law_rejections(gates: Seq<GateView>)
    ensures
        rejected(gates).len() == 0 <==> gates::all_pass(gates),
        forall|i: int| 0 <= i < rejected(gates).len() ==> !(#[trigger] rejected(gates)[i]).pass,
    decreases gates.len(),
{
    if gates.len() > 0 {
        law_rejections(gates.drop_last());
        assert(gates == gates.drop_last().push(gates.last()));
    }
}

} // verus!
