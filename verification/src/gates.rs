//! Mechanical gates. Every invariant that can be checked mechanically is a
//! gate; a failing gate rejects the run and refuses to apply.

use crate::double;
use crate::double::{Double, ratio_at_most};
use crate::engine;
use crate::engine::{FormatResult, FormatView};
use crate::json::Real;
use crate::text;
use crate::text::{chars_of, decimal_text, join_texts, same_text, split_lines, sub_chars, trimmed};
use crate::types;
use crate::types::{Scope, ScopedFile, ScopedFileView};
use vstd::prelude::*;

verus! {

/// What a gate measured, or the limit it measured against.
#[derive(Debug)]
pub enum Measure {
    /// A whole number.
    Count(u64),
    /// A whole number below zero.
    Negative(i64),
    /// A quotient, to be computed in double precision.
    Quotient { over: u64, under: u64 },
    /// A double-precision number.
    Exact(Double),
    /// A number that was read from a log.
    Recorded(Real),
}

/// What a [`Measure`] stands for.
pub enum MeasureView {
    Count(int),
    Negative(int),
    Quotient { over: int, under: int },
    Exact(Double),
    Recorded(serde_json::Number),
}

impl View for Measure {
    type V = MeasureView;

    open spec fn view(&self) -> MeasureView {
        match self {
            Measure::Count(n) => MeasureView::Count(*n as int),
            Measure::Negative(n) => MeasureView::Negative(*n as int),
            Measure::Quotient { over, under } => MeasureView::Quotient {
                over: *over as int,
                under: *under as int,
            },
            Measure::Exact(d) => MeasureView::Exact(*d),
            Measure::Recorded(number) => MeasureView::Recorded(number@),
        }
    }
}

impl Clone for Measure {
    fn clone(&self) -> (copy: Measure)
        ensures
            copy@ == self@,
    {
        match self {
            Measure::Count(n) => Measure::Count(*n),
            Measure::Negative(n) => Measure::Negative(*n),
            Measure::Quotient { over, under } => Measure::Quotient { over: *over, under: *under },
            Measure::Exact(d) => Measure::Exact(*d),
            Measure::Recorded(number) => Measure::Recorded(number.clone()),
        }
    }
}

/// An optional measure, as a value.
pub open spec fn measure_view(m: Option<Measure>) -> Option<MeasureView> {
    match m {
        Some(m) => Some(m@),
        None => None,
    }
}

/// What one gate found.
#[derive(Debug)]
pub struct GateResult {
    pub gate: String,
    pub pass: bool,
    pub file: Option<String>,
    pub metric: Option<Measure>,
    pub limit: Option<Measure>,
    pub detail: String,
}

/// What a [`GateResult`] stands for.
pub struct GateView {
    pub gate: Seq<char>,
    pub pass: bool,
    pub file: Option<Seq<char>>,
    pub metric: Option<MeasureView>,
    pub limit: Option<MeasureView>,
    pub detail: Seq<char>,
}

impl View for GateResult {
    type V = GateView;

    open spec fn view(&self) -> GateView {
        GateView {
            gate: self.gate@,
            pass: self.pass,
            file: text::optional_text(self.file),
            metric: measure_view(self.metric),
            limit: measure_view(self.limit),
            detail: self.detail@,
        }
    }
}

impl Clone for GateResult {
    fn clone(&self) -> (copy: GateResult)
        ensures
            copy@ == self@,
    {
        GateResult {
            gate: self.gate.clone(),
            pass: self.pass,
            file: match &self.file {
                Some(file) => Some(file.clone()),
                None => None,
            },
            metric: match &self.metric {
                Some(metric) => Some(metric.clone()),
                None => None,
            },
            limit: match &self.limit {
                Some(limit) => Some(limit.clone()),
                None => None,
            },
            detail: self.detail.clone(),
        }
    }
}

/// What the gates found, as values.
pub open spec fn gate_views(gates: Seq<GateResult>) -> Seq<GateView> {
    gates.map_values(|g: GateResult| g@)
}

/// How much a run may change.
#[derive(Debug, Clone, Copy, PartialEq, Eq, Structural)]
pub struct Budget {
    pub max_added_lines: usize,
    pub max_files: usize,
    pub max_ratio: Double,
}

/// The bit pattern of the default ratio cap, three.
pub const DEFAULT_RATIO: u64 = 0x4008_0000_0000_0000;

impl Default for Budget {
    /// 200 added lines in a file, 5 files, 3 times the caller's own lines.
    fn default() -> (budget: Budget)
        ensures
            budget == (Budget {
                max_added_lines: 200,
                max_files: 5,
                max_ratio: Double { bits: DEFAULT_RATIO },
            }),
    {
        Budget { max_added_lines: 200, max_files: 5, max_ratio: Double { bits: DEFAULT_RATIO } }
    }
}

/// The default ratio cap allows exactly three times the caller's own lines.
pub proof fn law_default_ratio_is_three(added: nat, own: nat)
    requires
        added < 0x10_0000_0000_0000,
        0 < own < 0x10_0000_0000_0000,
    ensures
        double::quotient_at_most(added, own, Double { bits: DEFAULT_RATIO }) <==> added <= 3 * own,
{
    let cap = Double { bits: DEFAULT_RATIO };
    assert(cap.stored_exponent() == 1024 && cap.fraction() == 0x8_0000_0000_0000);
    assert(cap.significand() == 0x18_0000_0000_0000 && cap.exponent() == -51);
    assert(double::spacing(added) == 1 && double::spacing(own) == 1);
    assert(double::nearest(added) == added && double::nearest(own) == own);
    assert(vstd::arithmetic::power2::pow2(52) == 0x10_0000_0000_0000) by {
        vstd::arithmetic::power2::lemma2_to64_rest();
    }
    let midpoint = (2 * cap.significand() + 1) * double::nearest(own);
    assert(midpoint == 0x30_0000_0000_0001 * own);
    assert(double::scaled_less(midpoint, -52, added as int) == (midpoint < added
        * vstd::arithmetic::power2::pow2(52)));
    assert(double::quotient_at_most(added, own, cap) == !double::scaled_less(
        midpoint,
        -52,
        added as int,
    ));
}

/// A gate that passed, with nothing to measure.
pub open spec fn passed(gate: Seq<char>, detail: Seq<char>) -> GateView {
    GateView { gate, pass: true, file: None, metric: None, limit: None, detail }
}

/// A gate that passed within a limit.
pub open spec fn within(
    gate: Seq<char>,
    file: Option<Seq<char>>,
    metric: MeasureView,
    limit: MeasureView,
    detail: Seq<char>,
) -> GateView {
    GateView { gate, pass: true, file, metric: Some(metric), limit: Some(limit), detail }
}

/// A gate that failed.
pub open spec fn failed(
    gate: Seq<char>,
    file: Seq<char>,
    metric: MeasureView,
    limit: MeasureView,
    detail: Seq<char>,
) -> GateView {
    GateView {
        gate,
        pass: false,
        file: Some(file),
        metric: Some(metric),
        limit: Some(limit),
        detail,
    }
}

fn gate_ok(gate: &str, detail: &str) -> (result: GateResult)
    ensures
        result@ == passed(gate@, detail@),
{
    GateResult {
        gate: gate.to_string(),
        pass: true,
        file: None,
        metric: None,
        limit: None,
        detail: detail.to_string(),
    }
}

fn gate_within(
    gate: &str,
    file: Option<String>,
    metric: Measure,
    limit: Measure,
    detail: String,
) -> (result: GateResult)
    ensures
        result@ == within(gate@, text::optional_text(file), metric@, limit@, detail@),
{
    GateResult {
        gate: gate.to_string(),
        pass: true,
        file,
        metric: Some(metric),
        limit: Some(limit),
        detail,
    }
}

fn gate_fail(
    gate: &str,
    file: &str,
    metric: Measure,
    limit: Measure,
    detail: &str,
) -> (result: GateResult)
    ensures
        result@ == failed(gate@, file@, metric@, limit@, detail@),
{
    GateResult {
        gate: gate.to_string(),
        pass: false,
        file: Some(file.to_string()),
        metric: Some(metric),
        limit: Some(limit),
        detail: detail.to_string(),
    }
}

/// Whether some file of the scope has this path.
pub open spec fn in_files(files: Seq<ScopedFileView>, path: Seq<char>) -> bool {
    exists|i: int| 0 <= i < files.len() && (#[trigger] files[i]).path == path
}

/// The paths of the changed results that the scope does not hold, in order.
pub open spec fn outside_paths(
    files: Seq<ScopedFileView>,
    results: Seq<FormatView>,
) -> Seq<Seq<char>>
    decreases results.len(),
{
    if results.len() == 0 {
        Seq::empty()
    } else {
        let before = outside_paths(files, results.drop_last());
        let r = results.last();
        if r.changed && !in_files(files, r.path) {
            before.push(r.path)
        } else {
            before
        }
    }
}

/// Scope containment: files with edits must be within the scope.
pub open spec fn containment_gate(
    files: Seq<ScopedFileView>,
    results: Seq<FormatView>,
) -> GateView {
    let outside = outside_paths(files, results);
    if outside.len() == 0 {
        passed("scope.containment"@, "all edited files are within scope"@)
    } else {
        failed(
            "scope.containment"@,
            text::join(outside, ","@),
            MeasureView::Count(outside.len() as int),
            MeasureView::Count(0),
            "formatter touched files outside the scope"@,
        )
    }
}

/// The added-line cap on one changed file.
pub open spec fn added_gate(r: FormatView, max: int) -> GateView {
    if r.added_lines <= max {
        within(
            "budget.per_file_added"@,
            Some(r.path),
            MeasureView::Count(r.added_lines),
            MeasureView::Count(max),
            text::decimal(r.added_lines as nat) + " added lines (removed "@ + text::decimal(
                r.removed_lines as nat,
            ) + ") after formatting"@,
        )
    } else {
        failed(
            "budget.per_file_added"@,
            r.path,
            MeasureView::Count(r.added_lines),
            MeasureView::Count(max),
            "formatter added too many lines"@,
        )
    }
}

/// The added-line caps on the changed files, in order.
pub open spec fn added_gates(results: Seq<FormatView>, max: int) -> Seq<GateView>
    decreases results.len(),
{
    if results.len() == 0 {
        Seq::empty()
    } else {
        let before = added_gates(results.drop_last(), max);
        if results.last().changed {
            before.push(added_gate(results.last(), max))
        } else {
            before
        }
    }
}

/// The added lines of the first result for this path; none is zero.
pub open spec fn added_for(results: Seq<FormatView>, path: Seq<char>) -> int
    decreases results.len(),
{
    if results.len() == 0 {
        0
    } else if results[0].path == path {
        results[0].added_lines
    } else {
        added_for(results.skip(1), path)
    }
}

/// The larger of a count and one.
pub open spec fn at_least_one(n: int) -> int {
    if n < 1 {
        1
    } else {
        n
    }
}

/// The ratio cap on one file: the formatter's added lines against the caller's
/// own.
pub open spec fn ratio_gate(path: Seq<char>, added: int, own: int, cap: Double) -> GateView {
    let metric = MeasureView::Quotient { over: added, under: at_least_one(own) };
    if double::quotient_at_most(added as nat, at_least_one(own) as nat, cap) {
        within(
            "budget.diff_ratio"@,
            Some(path),
            metric,
            MeasureView::Exact(cap),
            "formatter added "@ + text::decimal(added as nat) + " lines vs agent's "@ + text::decimal(
                own as nat,
            ) + " lines"@,
        )
    } else {
        failed(
            "budget.diff_ratio"@,
            path,
            metric,
            MeasureView::Exact(cap),
            "formatter expanded the diff beyond the ratio budget"@,
        )
    }
}

/// Whether the ratio cap speaks of a file: the caller's own lines are known, and
/// the formatter added some.
pub open spec fn ratio_applies(file: ScopedFileView, results: Seq<FormatView>) -> bool {
    file.agent_added_lines is Some && added_for(results, file.path) != 0
}

/// The ratio caps on the files of the scope, in order.
pub open spec fn ratio_gates(
    files: Seq<ScopedFileView>,
    results: Seq<FormatView>,
    cap: Double,
) -> Seq<GateView>
    decreases files.len(),
{
    if files.len() == 0 {
        Seq::empty()
    } else {
        let before = ratio_gates(files.drop_last(), results, cap);
        let file = files.last();
        if ratio_applies(file, results) {
            before.push(
                ratio_gate(
                    file.path,
                    added_for(results, file.path),
                    file.agent_added_lines->0 as int,
                    cap,
                ),
            )
        } else {
            before
        }
    }
}

/// How many results are changed.
pub open spec fn changed_count(results: Seq<FormatView>) -> nat
    decreases results.len(),
{
    if results.len() == 0 {
        0
    } else {
        changed_count(results.drop_last()) + if results.last().changed {
            1nat
        } else {
            0nat
        }
    }
}

/// The cap on the number of changed files.
pub open spec fn files_gate(results: Seq<FormatView>, max: int) -> GateView {
    let changed = changed_count(results);
    if changed <= max {
        within(
            "budget.max_files"@,
            None,
            MeasureView::Count(changed as int),
            MeasureView::Count(max),
            text::decimal(changed) + " file(s) changed by formatting"@,
        )
    } else {
        failed(
            "budget.max_files"@,
            "(aggregate)"@,
            MeasureView::Count(changed as int),
            MeasureView::Count(max),
            "too many files changed by formatting"@,
        )
    }
}

/// Formatting the formatted output of one changed file must change nothing.
pub open spec fn idempotent_gate(r: FormatView) -> GateView {
    if r.idempotent {
        passed("engine.idempotent"@, r.path + ": formatter reached a stable point"@)
    } else {
        failed(
            "engine.idempotent"@,
            r.path,
            MeasureView::Count(1),
            MeasureView::Count(0),
            "formatter is not idempotent: formatting the formatted output changed it again"@,
        )
    }
}

/// The idempotency gates of the changed files, in order.
pub open spec fn idempotent_gates(results: Seq<FormatView>) -> Seq<GateView>
    decreases results.len(),
{
    if results.len() == 0 {
        Seq::empty()
    } else {
        let before = idempotent_gates(results.drop_last());
        if results.last().changed {
            before.push(idempotent_gate(results.last()))
        } else {
            before
        }
    }
}

/// Whether a line of a patch adds a line that ends in a blank or a tab or holds
/// nothing but white space; an added empty line is fine.
pub open spec fn unclean(line: Seq<char>) -> bool {
    &&& line.len() > 1
    &&& line[0] == '+'
    &&& line.last() == ' ' || line.last() == '\t' || text::trim(line.skip(1)).len() == 0
}

/// How many lines of a patch add an unclean line.
pub open spec fn unclean_count(lines: Seq<Seq<char>>) -> nat
    decreases lines.len(),
{
    if lines.len() == 0 {
        0
    } else {
        unclean_count(lines.drop_last()) + if unclean(lines.last()) {
            1nat
        } else {
            0nat
        }
    }
}

/// The lines of the patch of a result; no patch has none.
pub open spec fn patch_lines_of(r: FormatView) -> Seq<Seq<char>> {
    match r.patch {
        Some(patch) => text::lines(patch),
        None => Seq::empty(),
    }
}

/// White space hygiene on the added lines of one changed file.
pub open spec fn whitespace_gate(r: FormatView) -> GateView {
    let bad = unclean_count(patch_lines_of(r));
    if bad == 0 {
        passed("whitespace.clean"@, r.path + ": no trailing whitespace"@)
    } else {
        failed(
            "whitespace.clean"@,
            r.path,
            MeasureView::Count(bad as int),
            MeasureView::Count(0),
            "formatter produced trailing/whitespace-only added lines"@,
        )
    }
}

/// The white space gates of the changed files, in order.
pub open spec fn whitespace_gates(results: Seq<FormatView>) -> Seq<GateView>
    decreases results.len(),
{
    if results.len() == 0 {
        Seq::empty()
    } else {
        let before = whitespace_gates(results.drop_last());
        if results.last().changed {
            before.push(whitespace_gate(results.last()))
        } else {
            before
        }
    }
}

/// The whole file must be clean, in scope and out of it, where that was asked
/// for: the formatter leaves what the run makes of it as it is.
pub open spec fn clean_gate(r: FormatView) -> GateView {
    if r.fmt_clean == Some(true) {
        passed("engine.fmt_check"@, r.path + ": whole file is rustfmt-clean"@)
    } else {
        failed(
            "engine.fmt_check"@,
            r.path,
            MeasureView::Count(1),
            MeasureView::Count(0),
            "whole file is not rustfmt-clean: formatting debt remains outside the scope"@,
        )
    }
}

/// The whole-file gates of the files that were looked at, in order.
pub open spec fn clean_gates(results: Seq<FormatView>) -> Seq<GateView>
    decreases results.len(),
{
    if results.len() == 0 {
        Seq::empty()
    } else {
        let before = clean_gates(results.drop_last());
        if results.last().fmt_clean is Some {
            before.push(clean_gate(results.last()))
        } else {
            before
        }
    }
}

/// What all the gates find, in order.
pub open spec fn all_gates(
    files: Seq<ScopedFileView>,
    results: Seq<FormatView>,
    budget: Budget,
) -> Seq<GateView> {
    seq![containment_gate(files, results)] + added_gates(results, budget.max_added_lines as int)
        + ratio_gates(files, results, budget.max_ratio) + seq![
        files_gate(results, budget.max_files as int),
    ] + idempotent_gates(results) + whitespace_gates(results) + clean_gates(results)
}

/// Whether every gate passed.
pub open spec fn all_pass(gates: Seq<GateView>) -> bool {
    forall|i: int| 0 <= i < gates.len() ==> (#[trigger] gates[i]).pass
}

/// Whether some file of the scope has this path.
fn has_path(files: &Vec<ScopedFile>, path: &str) -> (yes: bool)
    ensures
        yes == in_files(types::file_views(files@), path@),
{
    for i in 0..files.len()
        invariant
            forall|j: int| 0 <= j < i ==> (#[trigger] types::file_views(files@)[j]).path != path@,
    {
        assert(types::file_views(files@)[i as int] == files@[i as int]@);
        if same_text(files[i].path.as_str(), path) {
            return true;
        }
    }
    false
}

/// Runs the containment gate.
fn check_containment(files: &Vec<ScopedFile>, results: &[FormatResult]) -> (gate: GateResult)
    ensures
        gate@ == containment_gate(types::file_views(files@), engine::result_views(results@)),
{
    let ghost all = engine::result_views(results@);
    let mut outside: Vec<String> = Vec::new();
    assert(all.take(0) == Seq::<FormatView>::empty());
    assert(text::texts(outside@) == Seq::<Seq<char>>::empty());
    for i in 0..results.len()
        invariant
            all == engine::result_views(results@),
            text::texts(outside@) == outside_paths(types::file_views(files@), all.take(i as int)),
    {
        let r = &results[i];
        proof {
            assert(all[i as int] == r@);
            assert(all.take(i + 1).drop_last() == all.take(i as int));
            assert(all.take(i + 1).last() == r@);
        }
        if r.changed && !has_path(files, r.path.as_str()) {
            let ghost before = text::texts(outside@);
            outside.push(r.path.clone());
            assert(text::texts(outside@) == before.push(r.path@));
        }
    }
    assert(all.take(all.len() as int) == all);
    if outside.len() == 0 {
        gate_ok("scope.containment", "all edited files are within scope")
    } else {
        gate_fail(
            "scope.containment",
            join_texts(outside.as_slice(), ",").as_str(),
            Measure::Count(outside.len() as u64),
            Measure::Count(0),
            "formatter touched files outside the scope",
        )
    }
}

/// Runs the added-line gate on one changed file.
fn check_added(r: &FormatResult, max: usize) -> (gate: GateResult)
    ensures
        gate@ == added_gate(r@, max as int),
{
    let metric = Measure::Count(r.added_lines as u64);
    let limit = Measure::Count(max as u64);
    if r.added_lines <= max {
        let mut detail = decimal_text(r.added_lines);
        detail.append(" added lines (removed ");
        detail.append(decimal_text(r.removed_lines).as_str());
        detail.append(") after formatting");
        gate_within("budget.per_file_added", Some(r.path.clone()), metric, limit, detail)
    } else {
        gate_fail(
            "budget.per_file_added",
            r.path.as_str(),
            metric,
            limit,
            "formatter added too many lines",
        )
    }
}

/// Finds the added lines of the first result for this path.
fn find_added(results: &[FormatResult], path: &str) -> (added: usize)
    ensures
        added == added_for(engine::result_views(results@), path@),
{
    let ghost all = engine::result_views(results@);
    assert(all.skip(0) == all);
    for i in 0..results.len()
        invariant
            all == engine::result_views(results@),
            added_for(all, path@) == added_for(all.skip(i as int), path@),
    {
        proof {
            assert(all.skip(i as int)[0] == results@[i as int]@);
            assert(all.skip(i as int).skip(1) == all.skip(i + 1));
        }
        if same_text(results[i].path.as_str(), path) {
            return results[i].added_lines;
        }
    }
    0
}

/// Runs the ratio gate on one file.
fn check_ratio(path: &String, added: usize, own: usize, cap: Double) -> (gate: GateResult)
    ensures
        gate@ == ratio_gate(path@, added as int, own as int, cap),
{
    let under: usize = if own < 1 {
        1
    } else {
        own
    };
    let metric = Measure::Quotient { over: added as u64, under: under as u64 };
    let limit = Measure::Exact(cap);
    if ratio_at_most(added as u64, under as u64, cap) {
        let mut detail = "formatter added ".to_string();
        detail.append(decimal_text(added).as_str());
        detail.append(" lines vs agent's ");
        detail.append(decimal_text(own).as_str());
        detail.append(" lines");
        gate_within("budget.diff_ratio", Some(path.clone()), metric, limit, detail)
    } else {
        gate_fail(
            "budget.diff_ratio",
            path.as_str(),
            metric,
            limit,
            "formatter expanded the diff beyond the ratio budget",
        )
    }
}

/// Counts the changed results.
pub fn count_changed(results: &[FormatResult]) -> (changed: usize)
    ensures
        changed == changed_count(engine::result_views(results@)),
        changed <= results@.len(),
{
    let ghost all = engine::result_views(results@);
    let mut changed: usize = 0;
    assert(all.take(0) == Seq::<FormatView>::empty());
    for i in 0..results.len()
        invariant
            all == engine::result_views(results@),
            changed <= i,
            changed == changed_count(all.take(i as int)),
    {
        proof {
            assert(all.take(i + 1).drop_last() == all.take(i as int));
            assert(all.take(i + 1).last() == results@[i as int]@);
        }
        if results[i].changed {
            changed += 1;
        }
    }
    assert(all.take(all.len() as int) == all);
    changed
}

/// Holds the number of changed files to its cap.
fn check_files(results: &[FormatResult], max: usize) -> (gate: GateResult)
    ensures
        gate@ == files_gate(engine::result_views(results@), max as int),
{
    let changed: usize = count_changed(results);
    let metric = Measure::Count(changed as u64);
    let limit = Measure::Count(max as u64);
    if changed <= max {
        let mut detail = decimal_text(changed);
        detail.append(" file(s) changed by formatting");
        gate_within("budget.max_files", None, metric, limit, detail)
    } else {
        gate_fail(
            "budget.max_files",
            "(aggregate)",
            metric,
            limit,
            "too many files changed by formatting",
        )
    }
}

/// Runs the idempotency gate on one changed file.
fn check_idempotent(r: &FormatResult) -> (gate: GateResult)
    ensures
        gate@ == idempotent_gate(r@),
{
    if r.idempotent {
        let mut detail = r.path.clone();
        detail.append(": formatter reached a stable point");
        gate_ok("engine.idempotent", detail.as_str())
    } else {
        gate_fail(
            "engine.idempotent",
            r.path.as_str(),
            Measure::Count(1),
            Measure::Count(0),
            "formatter is not idempotent: formatting the formatted output changed it again",
        )
    }
}

/// Whether a line of a patch adds an unclean line.
fn is_unclean(line: &Vec<char>) -> (yes: bool)
    ensures
        yes == unclean(line@),
{
    if line.len() <= 1 || line[0] != '+' {
        return false;
    }
    let last = line[line.len() - 1];
    if last == ' ' || last == '\t' {
        return true;
    }
    let content = sub_chars(line.as_slice(), 1, line.len());
    assert(content@ == line@.skip(1));
    trimmed(content.as_slice()).len() == 0
}

/// Runs the white space gate on one changed file.
fn check_whitespace(r: &FormatResult) -> (gate: GateResult)
    ensures
        gate@ == whitespace_gate(r@),
{
    let all = match &r.patch {
        Some(patch) => {
            let chars = chars_of(patch.as_str());
            split_lines(chars.as_slice())
        },
        None => Vec::new(),
    };
    let ghost wanted = patch_lines_of(r@);
    assert(text::rows(all@) == wanted);
    let mut bad: usize = 0;
    assert(wanted.take(0) == Seq::<Seq<char>>::empty());
    for i in 0..all.len()
        invariant
            text::rows(all@) == wanted,
            bad <= i,
            bad == unclean_count(wanted.take(i as int)),
    {
        proof {
            assert(text::rows(all@)[i as int] == all@[i as int]@);
            assert(wanted.take(i + 1).drop_last() == wanted.take(i as int));
        }
        if is_unclean(&all[i]) {
            bad += 1;
        }
    }
    assert(wanted.take(wanted.len() as int) == wanted);
    if bad == 0 {
        let mut detail = r.path.clone();
        detail.append(": no trailing whitespace");
        gate_ok("whitespace.clean", detail.as_str())
    } else {
        gate_fail(
            "whitespace.clean",
            r.path.as_str(),
            Measure::Count(bad as u64),
            Measure::Count(0),
            "formatter produced trailing/whitespace-only added lines",
        )
    }
}

/// Runs the whole-file gate on one file.
fn check_clean(r: &FormatResult) -> (gate: GateResult)
    ensures
        gate@ == clean_gate(r@),
{
    let clean = match r.fmt_clean {
        Some(clean) => clean,
        None => false,
    };
    if clean {
        let mut detail = r.path.clone();
        detail.append(": whole file is rustfmt-clean");
        gate_ok("engine.fmt_check", detail.as_str())
    } else {
        gate_fail(
            "engine.fmt_check",
            r.path.as_str(),
            Measure::Count(1),
            Measure::Count(0),
            "whole file is not rustfmt-clean: formatting debt remains outside the scope",
        )
    }
}

/// Adds one gate.
fn push_gate(gates: &mut Vec<GateResult>, gate: GateResult)
    ensures
        gate_views(final(gates)@) == gate_views(old(gates)@).push(gate@),
{
    let ghost before = gates@;
    gates.push(gate);
    assert(gate_views(gates@) == gate_views(before).push(gate@));
}

/// Adds the added-line gates.
fn push_added(gates: &mut Vec<GateResult>, results: &[FormatResult], max: usize)
    ensures
        gate_views(final(gates)@) == gate_views(old(gates)@) + added_gates(
            engine::result_views(results@),
            max as int,
        ),
{
    let ghost all = engine::result_views(results@);
    let ghost before = gate_views(gates@);
    assert(all.take(0) == Seq::<FormatView>::empty());
    assert(before + Seq::<GateView>::empty() == before);
    for i in 0..results.len()
        invariant
            all == engine::result_views(results@),
            gate_views(gates@) == before + added_gates(all.take(i as int), max as int),
    {
        proof {
            assert(all.take(i + 1).drop_last() == all.take(i as int));
            assert(all.take(i + 1).last() == results@[i as int]@);
        }
        if results[i].changed {
            push_gate(gates, check_added(&results[i], max));
        }
        assert(gate_views(gates@) == before + added_gates(all.take(i + 1), max as int));
    }
    assert(all.take(all.len() as int) == all);
}

/// Adds the ratio gates.
fn push_ratios(
    gates: &mut Vec<GateResult>,
    files: &Vec<ScopedFile>,
    results: &[FormatResult],
    cap: Double,
)
    ensures
        gate_views(final(gates)@) == gate_views(old(gates)@) + ratio_gates(
            types::file_views(files@),
            engine::result_views(results@),
            cap,
        ),
{
    let ghost all = types::file_views(files@);
    let ghost found = engine::result_views(results@);
    let ghost before = gate_views(gates@);
    assert(all.take(0) == Seq::<ScopedFileView>::empty());
    assert(before + Seq::<GateView>::empty() == before);
    for i in 0..files.len()
        invariant
            all == types::file_views(files@),
            found == engine::result_views(results@),
            gate_views(gates@) == before + ratio_gates(all.take(i as int), found, cap),
    {
        let file = &files[i];
        proof {
            assert(all.take(i + 1).drop_last() == all.take(i as int));
            assert(all.take(i + 1).last() == file@);
        }
        if let Some(own) = file.agent_added_lines {
            let added: usize = find_added(results, file.path.as_str());
            if added != 0 {
                push_gate(gates, check_ratio(&file.path, added, own, cap));
            }
        }
        assert(gate_views(gates@) == before + ratio_gates(all.take(i + 1), found, cap));
    }
    assert(all.take(all.len() as int) == all);
}

/// Adds the idempotency gates.
fn push_idempotent(gates: &mut Vec<GateResult>, results: &[FormatResult])
    ensures
        gate_views(final(gates)@) == gate_views(old(gates)@) + idempotent_gates(
            engine::result_views(results@),
        ),
{
    let ghost all = engine::result_views(results@);
    let ghost before = gate_views(gates@);
    assert(all.take(0) == Seq::<FormatView>::empty());
    assert(before + Seq::<GateView>::empty() == before);
    for i in 0..results.len()
        invariant
            all == engine::result_views(results@),
            gate_views(gates@) == before + idempotent_gates(all.take(i as int)),
    {
        proof {
            assert(all.take(i + 1).drop_last() == all.take(i as int));
            assert(all.take(i + 1).last() == results@[i as int]@);
        }
        if results[i].changed {
            push_gate(gates, check_idempotent(&results[i]));
        }
        assert(gate_views(gates@) == before + idempotent_gates(all.take(i + 1)));
    }
    assert(all.take(all.len() as int) == all);
}

/// Adds the white space gates.
fn push_whitespace(gates: &mut Vec<GateResult>, results: &[FormatResult])
    ensures
        gate_views(final(gates)@) == gate_views(old(gates)@) + whitespace_gates(
            engine::result_views(results@),
        ),
{
    let ghost all = engine::result_views(results@);
    let ghost before = gate_views(gates@);
    assert(all.take(0) == Seq::<FormatView>::empty());
    assert(before + Seq::<GateView>::empty() == before);
    for i in 0..results.len()
        invariant
            all == engine::result_views(results@),
            gate_views(gates@) == before + whitespace_gates(all.take(i as int)),
    {
        proof {
            assert(all.take(i + 1).drop_last() == all.take(i as int));
            assert(all.take(i + 1).last() == results@[i as int]@);
        }
        if results[i].changed {
            push_gate(gates, check_whitespace(&results[i]));
        }
        assert(gate_views(gates@) == before + whitespace_gates(all.take(i + 1)));
    }
    assert(all.take(all.len() as int) == all);
}

/// Adds the whole-file gates.
fn push_clean(gates: &mut Vec<GateResult>, results: &[FormatResult])
    ensures
        gate_views(final(gates)@) == gate_views(old(gates)@) + clean_gates(
            engine::result_views(results@),
        ),
{
    let ghost all = engine::result_views(results@);
    let ghost before = gate_views(gates@);
    assert(all.take(0) == Seq::<FormatView>::empty());
    assert(before + Seq::<GateView>::empty() == before);
    for i in 0..results.len()
        invariant
            all == engine::result_views(results@),
            gate_views(gates@) == before + clean_gates(all.take(i as int)),
    {
        proof {
            assert(all.take(i + 1).drop_last() == all.take(i as int));
            assert(all.take(i + 1).last() == results@[i as int]@);
        }
        if results[i].fmt_clean.is_some() {
            push_gate(gates, check_clean(&results[i]));
        }
        assert(gate_views(gates@) == before + clean_gates(all.take(i + 1)));
    }
    assert(all.take(all.len() as int) == all);
}

/// Runs all gates over the results: whether every one passed, and what each
/// found.
pub fn check(scope: &Scope, results: &[FormatResult], budget: &Budget) -> (found: (
    bool,
    Vec<GateResult>,
))
    ensures
        gate_views(found.1@) == all_gates(scope@.files, engine::result_views(results@), *budget),
        found.0 == all_pass(gate_views(found.1@)),
{
    let ghost files = scope@.files;
    let ghost all = engine::result_views(results@);
    let mut gates: Vec<GateResult> = Vec::new();
    push_gate(&mut gates, check_containment(&scope.files, results));
    assert(gate_views(gates@) == seq![containment_gate(files, all)]);
    push_added(&mut gates, results, budget.max_added_lines);
    push_ratios(&mut gates, &scope.files, results, budget.max_ratio);
    let ghost before = gate_views(gates@);
    push_gate(&mut gates, check_files(results, budget.max_files));
    assert(gate_views(gates@) == before + seq![files_gate(all, budget.max_files as int)]);
    push_idempotent(&mut gates, results);
    push_whitespace(&mut gates, results);
    push_clean(&mut gates, results);
    let pass = every_gate_passed(gates.as_slice());
    (pass, gates)
}

/// Whether every gate passed.
pub fn every_gate_passed(gates: &[GateResult]) -> (pass: bool)
    ensures
        pass == all_pass(gate_views(gates@)),
{
    for i in 0..gates.len()
        invariant
            forall|j: int| 0 <= j < i ==> (#[trigger] gate_views(gates@)[j]).pass,
    {
        assert(gate_views(gates@)[i as int] == gates@[i as int]@);
        if !gates[i].pass {
            return false;
        }
    }
    true
}

/// What a run must keep to be accepted.
pub open spec fn acceptable(
    files: Seq<ScopedFileView>,
    results: Seq<FormatView>,
    budget: Budget,
) -> bool {
    &&& forall|i: int|
        0 <= i < results.len() && (#[trigger] results[i]).changed ==> {
            &&& in_files(files, results[i].path)
            &&& results[i].added_lines <= budget.max_added_lines
            &&& results[i].idempotent
            &&& forall|j: int|
                0 <= j < patch_lines_of(results[i]).len() ==> !unclean(
                    #[trigger] patch_lines_of(results[i])[j],
                )
        }
    &&& forall|i: int|
        0 <= i < files.len() && ratio_applies(#[trigger] files[i], results)
            ==> double::quotient_at_most(
            added_for(results, files[i].path) as nat,
            at_least_one(files[i].agent_added_lines->0 as int) as nat,
            budget.max_ratio,
        )
    &&& changed_count(results) <= budget.max_files
    &&& forall|i: int|
        0 <= i < results.len() ==> (#[trigger] results[i]).fmt_clean != Some(false)
}

proof fn lemma_all_pass_concat(a: Seq<GateView>, b: Seq<GateView>)
    ensures
        all_pass(a + b) <==> all_pass(a) && all_pass(b),
{
    if all_pass(a + b) {
        assert forall|i: int| 0 <= i < a.len() implies (#[trigger] a[i]).pass by {
            assert((a + b)[i].pass);
        }
        assert forall|i: int| 0 <= i < b.len() implies (#[trigger] b[i]).pass by {
            assert((a + b)[a.len() + i].pass);
        }
    }
}

proof fn lemma_all_pass_push(a: Seq<GateView>, g: GateView)
    ensures
        all_pass(a.push(g)) <==> all_pass(a) && g.pass,
{
    assert(a.push(g) == a + seq![g]);
    lemma_all_pass_concat(a, seq![g]);
    assert(seq![g][0] == g);
}

proof fn lemma_outside_paths(files: Seq<ScopedFileView>, results: Seq<FormatView>)
    ensures
        outside_paths(files, results).len() == 0 <==> forall|i: int|
            0 <= i < results.len() && (#[trigger] results[i]).changed ==> in_files(
                files,
                results[i].path,
            ),
    decreases results.len(),
{
    if results.len() > 0 {
        lemma_outside_paths(files, results.drop_last());
        assert(results == results.drop_last().push(results.last()));
    }
}

proof fn lemma_unclean_count(lines: Seq<Seq<char>>)
    ensures
        unclean_count(lines) == 0 <==> forall|j: int|
            0 <= j < lines.len() ==> !unclean(#[trigger] lines[j]),
    decreases lines.len(),
{
    if lines.len() > 0 {
        lemma_unclean_count(lines.drop_last());
        assert(lines == lines.drop_last().push(lines.last()));
    }
}

proof fn lemma_result_gates(results: Seq<FormatView>, max: int)
    ensures
        all_pass(added_gates(results, max)) <==> forall|i: int|
            0 <= i < results.len() && (#[trigger] results[i]).changed ==> results[i].added_lines
                <= max,
        all_pass(idempotent_gates(results)) <==> forall|i: int|
            0 <= i < results.len() && (#[trigger] results[i]).changed ==> results[i].idempotent,
        all_pass(whitespace_gates(results)) <==> forall|i: int|
            0 <= i < results.len() && (#[trigger] results[i]).changed ==> unclean_count(
                patch_lines_of(results[i]),
            ) == 0,
    decreases results.len(),
{
    if results.len() > 0 {
        lemma_result_gates(results.drop_last(), max);
        assert(results == results.drop_last().push(results.last()));
        let r = results.last();
        lemma_all_pass_push(added_gates(results.drop_last(), max), added_gate(r, max));
        lemma_all_pass_push(idempotent_gates(results.drop_last()), idempotent_gate(r));
        lemma_all_pass_push(whitespace_gates(results.drop_last()), whitespace_gate(r));
    }
}

proof fn lemma_clean_gates(results: Seq<FormatView>)
    ensures
        all_pass(clean_gates(results)) <==> forall|i: int|
            0 <= i < results.len() ==> (#[trigger] results[i]).fmt_clean != Some(false),
    decreases results.len(),
{
    if results.len() > 0 {
        let front = results.drop_last();
        let r = results.last();
        lemma_clean_gates(front);
        lemma_all_pass_push(clean_gates(front), clean_gate(r));
        match r.fmt_clean {
            Some(clean) => {
                assert(clean_gate(r).pass == clean);
                assert(clean || r.fmt_clean == Some(false));
            },
            None => {},
        }
        if forall|i: int| 0 <= i < results.len() ==> (#[trigger] results[i]).fmt_clean != Some(
            false,
        ) {
            assert(results[results.len() - 1].fmt_clean != Some(false));
            assert forall|i: int| 0 <= i < front.len() implies (#[trigger] front[i]).fmt_clean
                != Some(false) by {
                assert(results[i].fmt_clean != Some(false));
            }
        } else {
            let i = choose|i: int|
                0 <= i < results.len() && (#[trigger] results[i]).fmt_clean == Some(false);
            if i < front.len() {
                assert(front[i].fmt_clean == Some(false));
            }
        }
    }
}

proof fn lemma_ratio_gates(files: Seq<ScopedFileView>, results: Seq<FormatView>, cap: Double)
    ensures
        all_pass(ratio_gates(files, results, cap)) <==> forall|i: int|
            0 <= i < files.len() && ratio_applies(#[trigger] files[i], results)
                ==> double::quotient_at_most(
                added_for(results, files[i].path) as nat,
                at_least_one(files[i].agent_added_lines->0 as int) as nat,
                cap,
            ),
    decreases files.len(),
{
    if files.len() > 0 {
        lemma_ratio_gates(files.drop_last(), results, cap);
        assert(files == files.drop_last().push(files.last()));
        let file = files.last();
        lemma_all_pass_push(
            ratio_gates(files.drop_last(), results, cap),
            ratio_gate(
                file.path,
                added_for(results, file.path),
                file.agent_added_lines->0 as int,
                cap,
            ),
        );
    }
}

/// The gates pass exactly the runs that stay in scope, keep every budget, come
/// from a stable formatter, add no unclean line and leave no file that was looked
/// at as a whole unclean.
pub proof fn law_gates_decide(
    files: Seq<ScopedFileView>,
    results: Seq<FormatView>,
    budget: Budget,
)
    ensures
        all_pass(all_gates(files, results, budget)) <==> acceptable(files, results, budget),
{
    let containment = seq![containment_gate(files, results)];
    let added = added_gates(results, budget.max_added_lines as int);
    let ratios = ratio_gates(files, results, budget.max_ratio);
    let count = seq![files_gate(results, budget.max_files as int)];
    let stable = idempotent_gates(results);
    let clean = whitespace_gates(results);
    let whole = clean_gates(results);
    lemma_all_pass_concat(containment, added);
    lemma_all_pass_concat(containment + added, ratios);
    lemma_all_pass_concat(containment + added + ratios, count);
    lemma_all_pass_concat(containment + added + ratios + count, stable);
    lemma_all_pass_concat(containment + added + ratios + count + stable, clean);
    lemma_all_pass_concat(containment + added + ratios + count + stable + clean, whole);
    assert(all_pass(containment) <==> containment[0].pass);
    assert(all_pass(count) <==> count[0].pass);
    lemma_outside_paths(files, results);
    lemma_result_gates(results, budget.max_added_lines as int);
    lemma_clean_gates(results);
    lemma_ratio_gates(files, results, budget.max_ratio);
    assert forall|i: int| 0 <= i < results.len() implies (unclean_count(
        patch_lines_of(#[trigger] results[i]),
    ) == 0 <==> forall|j: int|
        0 <= j < patch_lines_of(results[i]).len() ==> !unclean(
            #[trigger] patch_lines_of(results[i])[j],
        )) by {
        lemma_unclean_count(patch_lines_of(results[i]));
    }
}

/// Whether one budget allows at least what another does.
pub open spec fn loosened(budget: Budget, looser: Budget) -> bool {
    &&& budget.max_added_lines <= looser.max_added_lines
    &&& budget.max_files <= looser.max_files
    &&& budget.max_ratio.at_most(looser.max_ratio)
}

/// The names of gates, in order.
pub open spec fn gate_names(gates: Seq<GateView>) -> Seq<Seq<char>> {
    gates.map_values(|g: GateView| g.gate)
}

proof fn lemma_names_concat(a: Seq<GateView>, b: Seq<GateView>)
    ensures
        gate_names(a + b) == gate_names(a) + gate_names(b),
{
    assert(gate_names(a + b) == gate_names(a) + gate_names(b));
}

proof fn lemma_added_names(results: Seq<FormatView>, max: int, other: int)
    ensures
        gate_names(added_gates(results, max)) == gate_names(added_gates(results, other)),
    decreases results.len(),
{
    if results.len() > 0 {
        lemma_added_names(results.drop_last(), max, other);
        if results.last().changed {
            let a = added_gates(results.drop_last(), max);
            let b = added_gates(results.drop_last(), other);
            let x = added_gate(results.last(), max);
            let y = added_gate(results.last(), other);
            assert(gate_names(a.push(x)) == gate_names(a).push(x.gate));
            assert(gate_names(b.push(y)) == gate_names(b).push(y.gate));
        }
    }
}

proof fn lemma_ratio_names(
    files: Seq<ScopedFileView>,
    results: Seq<FormatView>,
    cap: Double,
    other: Double,
)
    ensures
        gate_names(ratio_gates(files, results, cap)) == gate_names(
            ratio_gates(files, results, other),
        ),
    decreases files.len(),
{
    if files.len() > 0 {
        lemma_ratio_names(files.drop_last(), results, cap, other);
        let file = files.last();
        if ratio_applies(file, results) {
            let added = added_for(results, file.path);
            let own = file.agent_added_lines->0 as int;
            let a = ratio_gates(files.drop_last(), results, cap);
            let b = ratio_gates(files.drop_last(), results, other);
            let x = ratio_gate(file.path, added, own, cap);
            let y = ratio_gate(file.path, added, own, other);
            assert(gate_names(a.push(x)) == gate_names(a).push(x.gate));
            assert(gate_names(b.push(y)) == gate_names(b).push(y.gate));
        }
    }
}

/// Whatever the budget, the same gates run in the same order.
pub proof fn law_budget_keeps_the_gates(
    files: Seq<ScopedFileView>,
    results: Seq<FormatView>,
    budget: Budget,
    other: Budget,
)
    ensures
        gate_names(all_gates(files, results, budget)) == gate_names(
            all_gates(files, results, other),
        ),
{
    let containment = seq![containment_gate(files, results)];
    let stable = idempotent_gates(results);
    let clean = whitespace_gates(results);
    let whole = clean_gates(results);
    let added_a = added_gates(results, budget.max_added_lines as int);
    let added_b = added_gates(results, other.max_added_lines as int);
    let ratios_a = ratio_gates(files, results, budget.max_ratio);
    let ratios_b = ratio_gates(files, results, other.max_ratio);
    let count_a = seq![files_gate(results, budget.max_files as int)];
    let count_b = seq![files_gate(results, other.max_files as int)];
    lemma_added_names(results, budget.max_added_lines as int, other.max_added_lines as int);
    lemma_ratio_names(files, results, budget.max_ratio, other.max_ratio);
    assert(gate_names(count_a) == gate_names(count_b));
    lemma_names_concat(containment, added_a);
    lemma_names_concat(containment + added_a, ratios_a);
    lemma_names_concat(containment + added_a + ratios_a, count_a);
    lemma_names_concat(containment + added_a + ratios_a + count_a, stable);
    lemma_names_concat(containment + added_a + ratios_a + count_a + stable, clean);
    lemma_names_concat(containment + added_a + ratios_a + count_a + stable + clean, whole);
    lemma_names_concat(containment, added_b);
    lemma_names_concat(containment + added_b, ratios_b);
    lemma_names_concat(containment + added_b + ratios_b, count_b);
    lemma_names_concat(containment + added_b + ratios_b + count_b, stable);
    lemma_names_concat(containment + added_b + ratios_b + count_b + stable, clean);
    lemma_names_concat(containment + added_b + ratios_b + count_b + stable + clean, whole);
}

/// A run that a budget accepts is accepted by every looser one.
pub proof fn law_looser_budget_accepts(
    files: Seq<ScopedFileView>,
    results: Seq<FormatView>,
    budget: Budget,
    looser: Budget,
)
    requires
        loosened(budget, looser),
        all_pass(all_gates(files, results, budget)),
    ensures
        all_pass(all_gates(files, results, looser)),
{
    law_gates_decide(files, results, budget);
    law_gates_decide(files, results, looser);
    assert forall|i: int|
        0 <= i < files.len() && ratio_applies(#[trigger] files[i], results)
        implies double::quotient_at_most(
        added_for(results, files[i].path) as nat,
        at_least_one(files[i].agent_added_lines->0 as int) as nat,
        looser.max_ratio,
    ) by {
        double::law_larger_cap_allows_more(
            added_for(results, files[i].path) as nat,
            at_least_one(files[i].agent_added_lines->0 as int) as nat,
            budget.max_ratio,
            looser.max_ratio,
        );
    }
}

} // verus!
