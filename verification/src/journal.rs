//! What a run logs, and that the log gives its report back.

use crate::cli::{Config, ConfigView, Emit};
use crate::engine;
use crate::engine::{FormatResult, FormatView};
use crate::events;
use crate::events::{Event, EventView};
use crate::gates;
use crate::gates::{GateResult, GateView, Measure, MeasureView};
use crate::json;
use crate::json::{JsonTree, Real};
use crate::replay;
use crate::replay::{Rebuilt, ReplayErrorView};
use crate::report;
use crate::report::{FileReportView, Report, ReportView, Stats, VERSION, failed_gates};
use crate::run;
use crate::run::{Decision, DecisionView, Write};
use crate::text;
use crate::types;
use crate::types::{LineRange, Scope, ScopeView, ScopedFileView, Vcs};
use vstd::prelude::*;

verus! {

/// How a version control system is named in the log.
pub open spec fn vcs_text(vcs: Option<Vcs>) -> Option<Seq<char>> {
    match vcs {
        Some(Vcs::Git) => Some("git"@),
        Some(Vcs::Jj) => Some("jj"@),
        None => None,
    }
}

/// The first event of a run.
pub open spec fn start_view(
    run_id: Seq<char>,
    cwd: Seq<char>,
    scope: ScopeView,
    config: ConfigView,
    toolchain: Option<Seq<char>>,
) -> EventView {
    EventView::RunStart {
        run_id,
        version: VERSION@,
        cwd,
        base: scope.base,
        vcs: vcs_text(scope.vcs),
        source: scope.source,
        rustfmt: config.rustfmt,
        toolchain: match toolchain {
            Some(toolchain) => toolchain,
            None => "unknown"@,
        },
        dry_run: !config.apply,
    }
}

/// The first event of a run. `toolchain` is the version that the formatter gave.
pub fn start_event(
    run_id: &str,
    cwd: &str,
    scope: &Scope,
    config: &Config,
    toolchain: &Option<String>,
) -> (event: Event)
    ensures
        event@ == start_view(run_id@, cwd@, scope@, config@, text::optional_text(*toolchain)),
{
    Event::RunStart {
        run_id: run_id.to_string(),
        version: VERSION.to_string(),
        cwd: cwd.to_string(),
        base: scope.base.clone(),
        vcs: match scope.vcs {
            Some(Vcs::Git) => Some("git".to_string()),
            Some(Vcs::Jj) => Some("jj".to_string()),
            None => None,
        },
        source: scope.source.clone(),
        rustfmt: config.rustfmt.clone(),
        toolchain: match toolchain {
            Some(toolchain) => toolchain.clone(),
            None => "unknown".to_string(),
        },
        dry_run: !config.apply,
    }
}

/// The event that names the scope of a run.
pub open spec fn scope_view(scope: ScopeView) -> EventView {
    EventView::ScopeDetect { source: scope.source, files: scope.files, excluded: Seq::empty() }
}

/// The event that names the scope of a run.
pub fn scope_event(scope: &Scope) -> (event: Event)
    ensures
        event@ == scope_view(scope@),
{
    let copy = scope.clone();
    let excluded: Vec<String> = Vec::new();
    assert(text::texts(excluded@) == Seq::<Seq<char>>::empty());
    Event::ScopeDetect { source: copy.source, files: copy.files, excluded }
}

/// The event before a file is formatted.
pub open spec fn select_view(path: Seq<char>, edition: Option<Seq<char>>) -> EventView {
    EventView::EngineSelect { file: path, engine: engine::engine_name(), edition }
}

/// The event before a file is formatted.
pub fn select_event(path: &str, edition: Option<String>) -> (event: Event)
    ensures
        event@ == select_view(path@, text::optional_text(edition)),
{
    Event::EngineSelect {
        file: path.to_string(),
        engine: "rustfmt-diff-intersect".to_string(),
        edition,
    }
}

/// The event after a file was formatted.
pub open spec fn result_view(r: FormatView) -> EventView {
    EventView::FmtResult {
        file: r.path,
        changed: r.changed,
        idempotent: r.idempotent,
        added_lines: r.added_lines,
        removed_lines: r.removed_lines,
        hunks_total: r.hunks_total,
        hunks_kept: r.hunks_kept,
        out_of_scope_hunks: r.hunks_total - r.hunks_kept,
        rustfmt_duration_ms: r.rustfmt_duration_ms,
        first_pass_duration_ms: r.first_pass_duration_ms,
        idempotency_duration_ms: r.idempotency_duration_ms,
        patch: r.patch,
    }
}

/// The event after a file was formatted.
pub fn result_event(r: &FormatResult) -> (event: Event)
    requires
        r.hunks_kept <= r.hunks_total,
    ensures
        event@ == result_view(r@),
{
    Event::FmtResult {
        file: r.path.clone(),
        changed: r.changed,
        idempotent: r.idempotent,
        added_lines: r.added_lines,
        removed_lines: r.removed_lines,
        hunks_total: r.hunks_total,
        hunks_kept: r.hunks_kept,
        out_of_scope_hunks: r.hunks_total - r.hunks_kept,
        rustfmt_duration_ms: r.rustfmt_duration_ms,
        first_pass_duration_ms: r.first_pass_duration_ms,
        idempotency_duration_ms: r.idempotency_duration_ms,
        patch: match &r.patch {
            Some(patch) => Some(patch.clone()),
            None => None,
        },
    }
}

/// The event for a gate. Its measures are logged as the numbers given; one that
/// has no finite value is left out.
pub open spec fn gate_view(
    g: GateView,
    metric: Option<serde_json::Number>,
    limit: Option<serde_json::Number>,
) -> EventView {
    EventView::GateCheck {
        gate: g.gate,
        pass: g.pass,
        file: g.file,
        metric,
        limit,
        detail: Some(g.detail),
    }
}

/// The event for a gate, with the numbers that its measures come to.
pub fn gate_event(g: &GateResult, metric: Option<Real>, limit: Option<Real>) -> (event: Event)
    ensures
        event@ == gate_view(g@, events::optional_real(metric), events::optional_real(limit)),
{
    Event::GateCheck {
        gate: g.gate.clone(),
        pass: g.pass,
        file: match &g.file {
            Some(file) => Some(file.clone()),
            None => None,
        },
        metric,
        limit,
        detail: Some(g.detail.clone()),
    }
}

/// The event after the writes of a run.
pub open spec fn apply_view(apply: bool, pass: bool, applied_files: int) -> EventView {
    EventView::Apply { dry_run: !apply, applied_files, refused: apply && !pass }
}

/// The event after the writes of a run.
pub fn apply_event(apply: bool, pass: bool, applied_files: usize) -> (event: Event)
    ensures
        event@ == apply_view(apply, pass, applied_files as int),
{
    Event::Apply { dry_run: !apply, applied_files, refused: apply && !pass }
}

/// The last event of a run.
pub open spec fn emit_view(verdict: Seq<char>, stats: Stats, emit: Emit) -> EventView {
    EventView::ReportEmit {
        verdict,
        files_changed: stats.files_changed as int,
        total_added: stats.added_lines as int,
        total_removed: stats.removed_lines as int,
        outputs: seq![
            match emit {
                Emit::Json => "json"@,
                Emit::Patch => "patch"@,
            },
        ],
    }
}

/// The last event of a run.
pub fn emit_event(report: &Report, emit: Emit) -> (event: Event)
    ensures
        event@ == emit_view(report@.verdict, report@.stats, emit),
{
    let mut outputs: Vec<String> = Vec::new();
    outputs.push(
        match emit {
            Emit::Json => "json".to_string(),
            Emit::Patch => "patch".to_string(),
        },
    );
    proof {
        let wanted = seq![
            match emit {
                Emit::Json => "json"@,
                Emit::Patch => "patch"@,
            },
        ];
        assert(text::texts(outputs@) == wanted);
    }
    Event::ReportEmit {
        verdict: report.verdict.clone(),
        files_changed: report.stats.files_changed,
        total_added: report.stats.added_lines,
        total_removed: report.stats.removed_lines,
        outputs,
    }
}

/// The events of the files of a run: each is selected, then formatted.
pub open spec fn file_events(
    results: Seq<FormatView>,
    editions: Seq<Option<Seq<char>>>,
) -> Seq<EventView>
    decreases results.len(),
{
    if results.len() == 0 {
        Seq::empty()
    } else {
        file_events(results.drop_last(), editions).push(
            select_view(results.last().path, editions[results.len() - 1]),
        ).push(result_view(results.last()))
    }
}

/// The events of the gates of a run.
pub open spec fn gate_events(
    gates: Seq<GateView>,
    numbers: Seq<(Option<serde_json::Number>, Option<serde_json::Number>)>,
) -> Seq<EventView>
    decreases gates.len(),
{
    if gates.len() == 0 {
        Seq::empty()
    } else {
        gate_events(gates.drop_last(), numbers).push(
            gate_view(gates.last(), numbers[gates.len() - 1].0, numbers[gates.len() - 1].1),
        )
    }
}

/// What a run that came to its end has logged.
pub open spec fn run_log(
    start: EventView,
    scope: ScopeView,
    results: Seq<FormatView>,
    editions: Seq<Option<Seq<char>>>,
    numbers: Seq<(Option<serde_json::Number>, Option<serde_json::Number>)>,
    applied: EventView,
    report: ReportView,
    emit: Emit,
) -> Seq<EventView> {
    seq![start, scope_view(scope)] + file_events(results, editions) + gate_events(
        report.gates,
        numbers,
    ) + seq![applied, emit_view(report.verdict, report.stats, emit)]
}

/// Events, each as the object that it is logged as.
pub open spec fn event_trees(events: Seq<EventView>) -> Seq<JsonTree> {
    events.map_values(|e: EventView| events::event_tree(e))
}

/// A gate as the log keeps it: its measures are the numbers that were logged.
pub open spec fn kept_gate(
    g: GateView,
    metric: Option<serde_json::Number>,
    limit: Option<serde_json::Number>,
) -> GateView {
    GateView { metric: kept_measure(metric), limit: kept_measure(limit), ..g }
}

/// A measure as the log keeps it.
pub open spec fn kept_measure(number: Option<serde_json::Number>) -> Option<MeasureView> {
    match number {
        Some(number) => Some(MeasureView::Recorded(number)),
        None => None,
    }
}

/// The gates as the log keeps them.
pub open spec fn kept_gates(
    gates: Seq<GateView>,
    numbers: Seq<(Option<serde_json::Number>, Option<serde_json::Number>)>,
) -> Seq<GateView>
    decreases gates.len(),
{
    if gates.len() == 0 {
        Seq::empty()
    } else {
        kept_gates(gates.drop_last(), numbers).push(
            kept_gate(gates.last(), numbers[gates.len() - 1].0, numbers[gates.len() - 1].1),
        )
    }
}

/// The report that is printed: each measure is the number that it comes to.
pub open spec fn printed_report(
    report: ReportView,
    numbers: Seq<(Option<serde_json::Number>, Option<serde_json::Number>)>,
) -> ReportView {
    let gates = kept_gates(report.gates, numbers);
    ReportView { gates, rejections: report::rejected(gates), ..report }
}

/// The numbers that measures come to, as values.
pub open spec fn number_views(numbers: Seq<(Option<Real>, Option<Real>)>) -> Seq<
    (Option<serde_json::Number>, Option<serde_json::Number>),
> {
    numbers.map_values(
        |n: (Option<Real>, Option<Real>)| (events::optional_real(n.0), events::optional_real(n.1)),
    )
}

/// A measure as the log keeps it.
fn keep_measure(number: &Option<Real>) -> (measure: Option<Measure>)
    ensures
        gates::measure_view(measure) == kept_measure(events::optional_real(*number)),
{
    match number {
        Some(number) => Some(Measure::Recorded(number.clone())),
        None => None,
    }
}

/// Makes the report that is printed: each measure is the number that it comes
/// to, which `numbers` holds for the metric and the limit of each gate.
pub fn print_report(report: Report, numbers: &[(Option<Real>, Option<Real>)]) -> (printed: Report)
    requires
        numbers@.len() == report.gates@.len(),
    ensures
        printed@ == printed_report(report@, number_views(numbers@)),
{
    let ghost all = report@.gates;
    let ghost values = number_views(numbers@);
    let mut kept: Vec<GateResult> = Vec::new();
    assert(all.take(0) == Seq::<GateView>::empty());
    assert(gates::gate_views(kept@) == Seq::<GateView>::empty());
    for i in 0..report.gates.len()
        invariant
            numbers@.len() == report.gates@.len(),
            all == gates::gate_views(report.gates@),
            values == number_views(numbers@),
            gates::gate_views(kept@) == kept_gates(all.take(i as int), values),
    {
        let ghost before = gates::gate_views(kept@);
        proof {
            assert(all.take(i + 1).drop_last() == all.take(i as int));
            assert(all.take(i + 1).last() == report.gates@[i as int]@);
            assert(values[i as int] == (
                events::optional_real(numbers@[i as int].0),
                events::optional_real(numbers@[i as int].1),
            ));
        }
        let mut gate = report.gates[i].clone();
        gate.metric = keep_measure(&numbers[i].0);
        gate.limit = keep_measure(&numbers[i].1);
        kept.push(gate);
        assert(gates::gate_views(kept@) == before.push(gate@));
    }
    assert(all.take(all.len() as int) == all);
    let rejections = failed_gates(kept.as_slice());
    Report {
        tool: report.tool,
        version: report.version,
        run_id: report.run_id,
        verdict: report.verdict,
        mode: report.mode,
        scope: report.scope,
        files: report.files,
        stats: report.stats,
        gates: kept,
        rejections,
        patch: report.patch,
    }
}

/// Events, as values.
pub open spec fn event_views(events: Seq<Event>) -> Seq<EventView> {
    events.map_values(|e: Event| e@)
}

/// What a run logs before it formats.
pub open spec fn opening_log(
    run_id: Seq<char>,
    cwd: Seq<char>,
    scope: ScopeView,
    config: ConfigView,
    toolchain: Option<Seq<char>>,
) -> Seq<EventView> {
    seq![start_view(run_id, cwd, scope, config, toolchain), scope_view(scope)]
}

/// The events that a run logs before it formats, in order.
pub fn opening_events(
    run_id: &str,
    cwd: &str,
    scope: &Scope,
    config: &Config,
    toolchain: &Option<String>,
) -> (events: Vec<Event>)
    ensures
        event_views(events@) == opening_log(
            run_id@,
            cwd@,
            scope@,
            config@,
            text::optional_text(*toolchain),
        ),
{
    let mut events: Vec<Event> = Vec::new();
    events.push(start_event(run_id, cwd, scope, config, toolchain));
    events.push(scope_event(scope));
    assert(event_views(events@) == opening_log(
        run_id@,
        cwd@,
        scope@,
        config@,
        text::optional_text(*toolchain),
    ));
    events
}

/// The event after a file was formatted; none where it could not be.
pub open spec fn outcome_view(outcome: Result<FormatView, Seq<char>>) -> Option<EventView> {
    match outcome {
        Ok(result) => Some(result_view(result)),
        Err(_) => None,
    }
}

/// The event after a file was formatted; none where it could not be.
pub fn outcome_event(outcome: &Result<FormatResult, String>) -> (event: Option<Event>)
    requires
        outcome matches Ok(result) ==> result.hunks_kept <= result.hunks_total,
    ensures
        match event {
            Some(event) => outcome is Ok && event@ == result_view(outcome->Ok_0@),
            None => outcome is Err,
        },
{
    match outcome {
        Ok(result) => Some(result_event(result)),
        Err(_) => None,
    }
}

/// What a run logs of its files: each is selected, and what came of it follows
/// where it could be formatted.
pub open spec fn files_log(
    files: Seq<ScopedFileView>,
    editions: Seq<Option<Seq<char>>>,
    outcomes: Seq<Result<FormatView, Seq<char>>>,
) -> Seq<EventView>
    decreases outcomes.len(),
{
    if outcomes.len() == 0 {
        Seq::empty()
    } else {
        let n = outcomes.len() - 1;
        let selected = files_log(files, editions, outcomes.drop_last()).push(
            select_view(files[n].path, editions[n]),
        );
        match outcome_view(outcomes[n]) {
            Some(event) => selected.push(event),
            None => selected,
        }
    }
}

/// What a run logs once its files are formatted: its gates, and, behind its
/// writes, that it applied them and what it reports. A run that ended in an error
/// logs nothing more.
pub open spec fn closing_log(
    decided: Result<DecisionView, Seq<char>>,
    config: ConfigView,
    numbers: Seq<(Option<serde_json::Number>, Option<serde_json::Number>)>,
) -> Seq<EventView> {
    match decided {
        Ok(d) => gate_events(d.report.gates, numbers) + seq![
            apply_view(config.apply, d.pass, d.writes.len() as int),
            emit_view(d.report.verdict, d.report.stats, config.emit),
        ],
        Err(_) => Seq::empty(),
    }
}

/// How a decided run ends: it logs its gates, writes, logs that it did, and
/// prints its report.
#[derive(Debug)]
pub struct Closing {
    pub gate_events: Vec<Event>,
    pub writes: Vec<Write>,
    pub end_events: Vec<Event>,
    pub report: Report,
    pub exit_code: u8,
}

/// The events of the gates of a run, in order.
fn logged_gates(gates: &Vec<GateResult>, numbers: &[(Option<Real>, Option<Real>)]) -> (events: Vec<
    Event,
>)
    requires
        numbers@.len() == gates@.len(),
    ensures
        event_views(events@) == gate_events(gates::gate_views(gates@), number_views(numbers@)),
{
    let ghost all = gates::gate_views(gates@);
    let ghost values = number_views(numbers@);
    let mut events: Vec<Event> = Vec::new();
    assert(all.take(0) == Seq::<GateView>::empty());
    assert(event_views(events@) == Seq::<EventView>::empty());
    for i in 0..gates.len()
        invariant
            numbers@.len() == gates@.len(),
            all == gates::gate_views(gates@),
            values == number_views(numbers@),
            event_views(events@) == gate_events(all.take(i as int), values),
    {
        let ghost before = event_views(events@);
        let metric = copied(&numbers[i].0);
        let limit = copied(&numbers[i].1);
        let event = gate_event(&gates[i], metric, limit);
        proof {
            assert(all.take(i + 1).drop_last() == all.take(i as int));
            assert(all.take(i + 1).last() == gates@[i as int]@);
            assert(values[i as int] == (
                events::optional_real(numbers@[i as int].0),
                events::optional_real(numbers@[i as int].1),
            ));
        }
        events.push(event);
        assert(event_views(events@) == before.push(event@));
    }
    assert(all.take(all.len() as int) == all);
    events
}

fn copied(number: &Option<Real>) -> (copy: Option<Real>)
    ensures
        events::optional_real(copy) == events::optional_real(*number),
{
    match number {
        Some(number) => Some(number.clone()),
        None => None,
    }
}

/// Makes the end of a decided run. `numbers` holds the numbers that the metric and
/// the limit of each gate come to.
pub fn close(
    decision: Decision,
    numbers: &[(Option<Real>, Option<Real>)],
    config: &Config,
) -> (closing: Closing)
    requires
        numbers@.len() == decision.report.gates@.len(),
    ensures
        event_views(closing.gate_events@) == gate_events(
            decision@.report.gates,
            number_views(numbers@),
        ),
        event_views(closing.gate_events@) + event_views(closing.end_events@) == closing_log(
            Ok(decision@),
            config@,
            number_views(numbers@),
        ),
        run::write_views(closing.writes@) == decision@.writes,
        closing.report@ == printed_report(decision@.report, number_views(numbers@)),
        closing.exit_code == decision.exit_code,
{
    let gate_events = logged_gates(&decision.report.gates, numbers);
    let mut end_events: Vec<Event> = Vec::new();
    end_events.push(apply_event(config.apply, decision.pass, decision.writes.len()));
    end_events.push(emit_event(&decision.report, config.emit));
    assert(event_views(end_events@) == seq![
        apply_view(config.apply, decision.pass, decision@.writes.len() as int),
        emit_view(decision@.report.verdict, decision@.report.stats, config.emit),
    ]);
    let report = print_report(decision.report, numbers);
    Closing {
        gate_events,
        writes: decision.writes,
        end_events,
        report,
        exit_code: decision.exit_code,
    }
}

/// What a run logs, from its start to its end.
pub open spec fn whole_log(
    run_id: Seq<char>,
    cwd: Seq<char>,
    toolchain: Option<Seq<char>>,
    config: ConfigView,
    scope: ScopeView,
    editions: Seq<Option<Seq<char>>>,
    outcomes: Seq<Result<FormatView, Seq<char>>>,
    sandbox: Option<Result<GateView, Seq<char>>>,
    numbers: Seq<(Option<serde_json::Number>, Option<serde_json::Number>)>,
) -> Seq<EventView> {
    opening_log(run_id, cwd, scope, config, toolchain) + files_log(
        scope.files,
        editions,
        outcomes,
    ) + closing_log(run::decided(run_id, config, scope, outcomes, sandbox), config, numbers)
}

/// Whether each result is that of its file.
pub open spec fn results_of_files(
    files: Seq<ScopedFileView>,
    outcomes: Seq<Result<FormatView, Seq<char>>>,
) -> bool {
    &&& outcomes.len() == files.len()
    &&& forall|i: int|
        0 <= i < outcomes.len() ==> ((#[trigger] outcomes[i]) matches Ok(result) ==> result.path
            == files[i].path)
}

proof fn lemma_files_log(
    files: Seq<ScopedFileView>,
    editions: Seq<Option<Seq<char>>>,
    outcomes: Seq<Result<FormatView, Seq<char>>>,
)
    requires
        outcomes.len() <= files.len(),
        forall|i: int|
            0 <= i < outcomes.len() ==> ((#[trigger] outcomes[i]) matches Ok(result) ==> result.path
                == files[i].path),
        run::failures(outcomes).len() == 0,
    ensures
        files_log(files, editions, outcomes) == file_events(run::formatted(outcomes), editions),
    decreases outcomes.len(),
{
    run::lemma_no_failures(outcomes);
    if outcomes.len() > 0 {
        let before = outcomes.drop_last();
        let n = outcomes.len() - 1;
        assert(outcomes[n] is Ok);
        assert forall|i: int| 0 <= i < before.len() implies ((#[trigger] before[i]) matches Ok(
            result,
        ) ==> result.path == files[i].path) by {
            assert(before[i] == outcomes[i]);
        }
        lemma_files_log(files, editions, before);
        assert(run::formatted(outcomes).drop_last() == run::formatted(before));
    }
}

/// A decided run logs exactly what a replay needs: its start and its scope, each
/// file selected and formatted, its gates, its writes and its report, in this
/// order.
pub proof fn law_decided_run_logs_in_order(
    run_id: Seq<char>,
    cwd: Seq<char>,
    toolchain: Option<Seq<char>>,
    config: ConfigView,
    scope: ScopeView,
    editions: Seq<Option<Seq<char>>>,
    outcomes: Seq<Result<FormatView, Seq<char>>>,
    sandbox: Option<Result<GateView, Seq<char>>>,
    numbers: Seq<(Option<serde_json::Number>, Option<serde_json::Number>)>,
)
    requires
        results_of_files(scope.files, outcomes),
        run::decided(run_id, config, scope, outcomes, sandbox) is Ok,
    ensures
        ({
            let d = run::decided(run_id, config, scope, outcomes, sandbox)->Ok_0;
            whole_log(
                run_id,
                cwd,
                toolchain,
                config,
                scope,
                editions,
                outcomes,
                sandbox,
                numbers,
            ) == run_log(
                start_view(run_id, cwd, scope, config, toolchain),
                scope,
                run::formatted(outcomes),
                editions,
                numbers,
                apply_view(config.apply, d.pass, d.writes.len() as int),
                d.report,
                config.emit,
            )
        }),
{
    lemma_files_log(scope.files, editions, outcomes);
}

/// Whether an event tells of a decision: a gate, the writes or the report.
pub open spec fn tells_decision(event: EventView) -> bool {
    event is GateCheck || event is Apply || event is ReportEmit
}

/// A run in which a file could not be formatted logs no gate, no writes and no
/// report.
pub proof fn law_failed_run_logs_no_decision(
    run_id: Seq<char>,
    cwd: Seq<char>,
    toolchain: Option<Seq<char>>,
    config: ConfigView,
    scope: ScopeView,
    editions: Seq<Option<Seq<char>>>,
    outcomes: Seq<Result<FormatView, Seq<char>>>,
    sandbox: Option<Result<GateView, Seq<char>>>,
    numbers: Seq<(Option<serde_json::Number>, Option<serde_json::Number>)>,
    i: int,
)
    requires
        0 <= i < outcomes.len(),
        outcomes[i] is Err,
    ensures
        ({
            let log = whole_log(
                run_id,
                cwd,
                toolchain,
                config,
                scope,
                editions,
                outcomes,
                sandbox,
                numbers,
            );
            forall|k: int| 0 <= k < log.len() ==> !tells_decision(#[trigger] log[k])
        }),
{
    run::law_failed_file_ends_the_run(run_id, config, scope, outcomes, sandbox, i);
    let head = opening_log(run_id, cwd, scope, config, toolchain);
    let files = files_log(scope.files, editions, outcomes);
    let log = whole_log(
        run_id,
        cwd,
        toolchain,
        config,
        scope,
        editions,
        outcomes,
        sandbox,
        numbers,
    );
    lemma_files_tell_nothing(scope.files, editions, outcomes);
    assert(log == head + files);
    assert forall|k: int| 0 <= k < log.len() implies !tells_decision(#[trigger] log[k]) by {
        if k >= head.len() {
            assert(log[k] == files[k - head.len()]);
        }
    }
}

proof fn lemma_files_tell_nothing(
    files: Seq<ScopedFileView>,
    editions: Seq<Option<Seq<char>>>,
    outcomes: Seq<Result<FormatView, Seq<char>>>,
)
    ensures
        forall|k: int|
            0 <= k < files_log(files, editions, outcomes).len() ==> !tells_decision(
                #[trigger] files_log(files, editions, outcomes)[k],
            ),
    decreases outcomes.len(),
{
    if outcomes.len() > 0 {
        let before = files_log(files, editions, outcomes.drop_last());
        let log = files_log(files, editions, outcomes);
        lemma_files_tell_nothing(files, editions, outcomes.drop_last());
        assert forall|k: int| 0 <= k < log.len() implies !tells_decision(#[trigger] log[k]) by {
            if k < before.len() {
                assert(log[k] == before[k]);
            }
        }
    }
}

/// What more events say of a run, on top of what is known.
spec fn learned_all(r: Rebuilt, events: Seq<JsonTree>) -> Rebuilt
    decreases events.len(),
{
    if events.len() == 0 {
        r
    } else {
        replay::learned(learned_all(r, events.drop_last()), events.last())
    }
}

proof fn lemma_rebuilt(events: Seq<JsonTree>)
    ensures
        replay::rebuilt(events) == learned_all(replay::nothing_known(), events),
    decreases events.len(),
{
    if events.len() > 0 {
        lemma_rebuilt(events.drop_last());
    }
}

proof fn lemma_learned_all_concat(r: Rebuilt, a: Seq<JsonTree>, b: Seq<JsonTree>)
    ensures
        learned_all(r, a + b) == learned_all(learned_all(r, a), b),
    decreases b.len(),
{
    if b.len() == 0 {
        assert(a + b == a);
    } else {
        assert((a + b).drop_last() == a + b.drop_last());
        lemma_learned_all_concat(r, a, b.drop_last());
    }
}

/// The names of the events that a replay passes over differ from the others.
proof fn lemma_other_kinds()
    ensures
        "engine_select"@ != "run_start"@,
        "engine_select"@ != "scope_detect"@,
        "engine_select"@ != "fmt_result"@,
        "engine_select"@ != "gate_check"@,
        "engine_select"@ != "report_emit"@,
        "apply"@ != "run_start"@,
        "apply"@ != "scope_detect"@,
        "apply"@ != "fmt_result"@,
        "apply"@ != "gate_check"@,
        "apply"@ != "report_emit"@,
{
    reveal_strlit("engine_select");
    reveal_strlit("apply");
    reveal_strlit("run_start");
    reveal_strlit("scope_detect");
    reveal_strlit("fmt_result");
    reveal_strlit("gate_check");
    reveal_strlit("report_emit");
    assert("engine_select"@.len() == 13 && "apply"@.len() == 5 && "run_start"@.len() == 9);
    assert("scope_detect"@.len() == 12 && "fmt_result"@.len() == 10);
    assert("gate_check"@.len() == 10 && "report_emit"@.len() == 11);
}

proof fn lemma_learn_start(
    r: Rebuilt,
    run_id: Seq<char>,
    cwd: Seq<char>,
    scope: ScopeView,
    config: ConfigView,
    toolchain: Option<Seq<char>>,
)
    ensures
        ({
            let tree = events::event_tree(start_view(run_id, cwd, scope, config, toolchain));
            &&& replay::learned(r, tree) == (Rebuilt {
                base: scope.base,
                vcs: scope.vcs,
                mode: run::mode_text(config.apply),
                ..r
            })
            &&& replay::starts_this_run(tree, run_id)
        }),
{
    let e = start_view(run_id, cwd, scope, config, toolchain);
    events::lemma_event_member(e, 0);
    events::lemma_event_member(e, 1);
    events::lemma_event_member(e, 4);
    events::lemma_event_member(e, 5);
    events::lemma_event_member(e, 9);
    reveal_strlit("git");
    reveal_strlit("jj");
    assert("git"@.len() != "jj"@.len());
}

/// Logged line ranges are read as they were.
proof fn lemma_logged_ranges(ranges: Seq<LineRange>)
    ensures
        replay::logged_ranges(events::range_array(ranges)->Array_0) == ranges,
    decreases ranges.len(),
{
    let items = events::range_array(ranges)->Array_0;
    if ranges.len() > 0 {
        lemma_logged_ranges(ranges.drop_last());
        assert(items.drop_last() == events::range_array(ranges.drop_last())->Array_0);
        let fields = events::range_fields(ranges.last());
        assert(items.last() == json::object(fields));
        reveal_strlit("start");
        reveal_strlit("end");
        assert("start"@.len() != "end"@.len());
        json::lemma_member(fields, 0);
        json::lemma_member(fields, 1);
        assert(ranges.drop_last().push(ranges.last()) == ranges);
    } else {
        assert(ranges == Seq::<LineRange>::empty());
    }
}

/// Logged files of a scope are read as they were.
proof fn lemma_logged_files(files: Seq<ScopedFileView>)
    ensures
        replay::scoped_files(events::file_array(files)->Array_0) == files,
    decreases files.len(),
{
    let items = events::file_array(files)->Array_0;
    if files.len() > 0 {
        lemma_logged_files(files.drop_last());
        assert(items.drop_last() == events::file_array(files.drop_last())->Array_0);
        let file = files.last();
        let fields = events::file_fields(file);
        assert(items.last() == json::object(fields));
        reveal_strlit("path");
        reveal_strlit("ranges");
        reveal_strlit("agent_added_lines");
        assert("path"@.len() == 4 && "ranges"@.len() == 6 && "agent_added_lines"@.len() == 17);
        json::lemma_member(fields, 0);
        json::lemma_member(fields, 1);
        json::lemma_member(fields, 2);
        lemma_logged_ranges(file.ranges);
        assert(replay::logged_file(items.last()) == Some(file));
        assert(files.drop_last().push(file) == files);
    } else {
        assert(files == Seq::<ScopedFileView>::empty());
    }
}

proof fn lemma_learn_scope(r: Rebuilt, scope: ScopeView)
    ensures
        replay::learned(r, events::event_tree(scope_view(scope))) == (Rebuilt {
            source: scope.source,
            files: r.files + scope.files,
            ..r
        }),
        !replay::starts_run(events::event_tree(scope_view(scope))),
{
    let e = scope_view(scope);
    events::lemma_event_member(e, 0);
    events::lemma_event_member(e, 1);
    events::lemma_event_member(e, 4);
    replay::lemma_kinds_differ();
    lemma_logged_files(scope.files);
}

proof fn lemma_learn_other(r: Rebuilt, path: Seq<char>, edition: Option<Seq<char>>)
    ensures
        replay::learned(r, events::event_tree(select_view(path, edition))) == r,
        !replay::starts_run(events::event_tree(select_view(path, edition))),
{
    events::lemma_event_member(select_view(path, edition), 0);
    lemma_other_kinds();
}

proof fn lemma_learn_apply(r: Rebuilt, apply: bool, pass: bool, applied_files: int)
    ensures
        replay::learned(r, events::event_tree(apply_view(apply, pass, applied_files))) == r,
        !replay::starts_run(events::event_tree(apply_view(apply, pass, applied_files))),
{
    events::lemma_event_member(apply_view(apply, pass, applied_files), 0);
    lemma_other_kinds();
}

/// No event of a file without a patch has a member of that name.
proof fn lemma_no_patch(r: FormatView)
    requires
        r.patch is None,
    ensures
        json::item(events::event_tree(result_view(r)), "patch"@) == JsonTree::Null,
{
    let fields = events::event_fields(result_view(r));
    reveal_strlit("patch");
    reveal_strlit("t");
    reveal_strlit("file");
    reveal_strlit("changed");
    reveal_strlit("idempotent");
    reveal_strlit("added_lines");
    reveal_strlit("removed_lines");
    reveal_strlit("hunks_total");
    reveal_strlit("hunks_kept");
    reveal_strlit("out_of_scope_hunks");
    reveal_strlit("rustfmt_duration_ms");
    reveal_strlit("first_pass_duration_ms");
    reveal_strlit("idempotency_duration_ms");
    assert forall|j: int| 0 <= j < fields.len() implies (#[trigger] fields[j]).0 != "patch"@ by {
        assert(fields[j].0.len() != 5);
    }
    json::lemma_no_member(fields, "patch"@);
}

/// What a result adds to what is known of a run.
spec fn with_result(r: Rebuilt, result: FormatView) -> Rebuilt {
    Rebuilt {
        reports: r.reports.push(report::file_report(result)),
        parts: match result.patch {
            Some(patch) => r.parts.push((result.path, patch)),
            None => r.parts,
        },
        stats: Stats { files_scanned: (r.stats.files_scanned + 1) as usize, ..r.stats },
        ..r
    }
}

proof fn lemma_learn_result(r: Rebuilt, result: FormatResult)
    requires
        engine::well_formed(result@),
    ensures
        replay::learned(r, events::event_tree(result_view(result@))) == with_result(r, result@),
        !replay::starts_run(events::event_tree(result_view(result@))),
{
    let e = result_view(result@);
    let tree = events::event_tree(e);
    replay::lemma_kinds_differ();
    events::lemma_event_member(e, 0);
    events::lemma_event_member(e, 1);
    events::lemma_event_member(e, 2);
    events::lemma_event_member(e, 4);
    events::lemma_event_member(e, 5);
    events::lemma_event_member(e, 6);
    events::lemma_event_member(e, 7);
    events::lemma_event_member(e, 8);
    events::lemma_event_member(e, 9);
    events::lemma_event_member(e, 10);
    events::lemma_event_member(e, 11);
    if result@.patch is Some {
        events::lemma_event_member(e, 12);
    } else {
        lemma_no_patch(result@);
    }
    assert(replay::text_at(tree, "t"@) == "fmt_result"@);
    assert(replay::logged_report(tree) == report::file_report(result@));
}

proof fn lemma_learn_gate(
    r: Rebuilt,
    g: GateView,
    metric: Option<serde_json::Number>,
    limit: Option<serde_json::Number>,
)
    ensures
        replay::learned(r, events::event_tree(gate_view(g, metric, limit))) == (Rebuilt {
            gates: r.gates.push(kept_gate(g, metric, limit)),
            ..r
        }),
        !replay::starts_run(events::event_tree(gate_view(g, metric, limit))),
{
    let e = gate_view(g, metric, limit);
    replay::lemma_kinds_differ();
    events::lemma_event_member(e, 0);
    events::lemma_event_member(e, 1);
    events::lemma_event_member(e, 2);
    events::lemma_event_member(e, 3);
    events::lemma_event_member(e, 4);
    events::lemma_event_member(e, 5);
    events::lemma_event_member(e, 6);
    assert(replay::logged_gate(events::event_tree(e)) == kept_gate(g, metric, limit));
}

proof fn lemma_learn_emit(r: Rebuilt, verdict: Seq<char>, stats: Stats, emit: Emit)
    ensures
        replay::learned(r, events::event_tree(emit_view(verdict, stats, emit))) == (Rebuilt {
            verdict,
            stats: Stats { files_scanned: r.stats.files_scanned, ..stats },
            ..r
        }),
        !replay::starts_run(events::event_tree(emit_view(verdict, stats, emit))),
{
    let e = emit_view(verdict, stats, emit);
    replay::lemma_kinds_differ();
    events::lemma_event_member(e, 0);
    events::lemma_event_member(e, 1);
    events::lemma_event_member(e, 2);
    events::lemma_event_member(e, 3);
    events::lemma_event_member(e, 4);
}

/// What one more result adds to what is known of a run.
proof fn lemma_learn_file(
    r: Rebuilt,
    before: Seq<JsonTree>,
    result: FormatResult,
    edition: Option<Seq<char>>,
)
    requires
        engine::well_formed(result@),
    ensures
        learned_all(
            r,
            before.push(events::event_tree(select_view(result@.path, edition))).push(
                events::event_tree(result_view(result@)),
            ),
        ) == with_result(learned_all(r, before), result@),
{
    let select = events::event_tree(select_view(result@.path, edition));
    let logged = events::event_tree(result_view(result@));
    let known = learned_all(r, before);
    assert(before.push(select).drop_last() == before);
    assert(before.push(select).push(logged).drop_last() == before.push(select));
    lemma_learn_other(known, result@.path, edition);
    lemma_learn_result(known, result);
    assert(learned_all(r, before.push(select)) == known);
}

/// What the results of a run add to what is known of it.
proof fn lemma_learn_files(
    r: Rebuilt,
    results: Seq<FormatResult>,
    editions: Seq<Option<Seq<char>>>,
)
    requires
        r.stats.files_scanned + results.len() <= usize::MAX,
        forall|i: int| 0 <= i < results.len() ==> engine::well_formed(#[trigger] results[i]@),
    ensures
        learned_all(r, event_trees(file_events(engine::result_views(results), editions)))
            == (Rebuilt {
            reports: r.reports + report::file_reports(engine::result_views(results)),
            parts: r.parts + report::patch_parts(engine::result_views(results)),
            stats: Stats {
                files_scanned: (r.stats.files_scanned + results.len()) as usize,
                ..r.stats
            },
            ..r
        }),
    decreases results.len(),
{
    let all = engine::result_views(results);
    if results.len() == 0 {
        assert(all == Seq::<FormatView>::empty());
        assert(event_trees(file_events(all, editions)) == Seq::<JsonTree>::empty());
        assert(r.reports + report::file_reports(all) == r.reports);
        assert(r.parts + report::patch_parts(all) == r.parts);
    } else {
        let shorter = results.drop_last();
        assert forall|i: int| 0 <= i < shorter.len() implies engine::well_formed(
            #[trigger] shorter[i]@,
        ) by {
            assert(engine::well_formed(results[i]@));
        }
        lemma_learn_files(r, shorter, editions);
        assert(all.drop_last() == engine::result_views(shorter));
        assert(engine::well_formed(results[results.len() - 1]@));
        let last = results.last()@;
        assert(all.last() == last);
        let before = event_trees(file_events(all.drop_last(), editions));
        let select = events::event_tree(select_view(last.path, editions[results.len() - 1]));
        let result = events::event_tree(result_view(last));
        let events = event_trees(file_events(all, editions));
        assert(events == before.push(select).push(result));
        let known = learned_all(r, before);
        lemma_learn_file(r, before, results.last(), editions[results.len() - 1]);
        assert(learned_all(r, events) == with_result(known, last));
        assert(report::file_reports(all)
            == report::file_reports(all.drop_last()).push(report::file_report(last)));
        assert(r.reports + report::file_reports(all) == (r.reports
            + report::file_reports(all.drop_last())).push(
            report::file_report(last),
        ));
        if last.patch is Some {
            assert(r.parts + report::patch_parts(all) == (r.parts
                + report::patch_parts(all.drop_last())).push(
                (last.path, last.patch->0),
            ));
        }
    }
}

/// What the gates of a run add to what is known of it.
proof fn lemma_learn_gates(
    r: Rebuilt,
    gates: Seq<GateView>,
    numbers: Seq<(Option<serde_json::Number>, Option<serde_json::Number>)>,
)
    ensures
        learned_all(r, event_trees(gate_events(gates, numbers))) == (Rebuilt {
            gates: r.gates + kept_gates(gates, numbers),
            ..r
        }),
    decreases gates.len(),
{
    if gates.len() == 0 {
        assert(event_trees(gate_events(gates, numbers)) == Seq::<JsonTree>::empty());
        assert(r.gates + kept_gates(gates, numbers) == r.gates);
    } else {
        lemma_learn_gates(r, gates.drop_last(), numbers);
        let last = gates.last();
        let n = numbers[gates.len() - 1];
        let before = event_trees(gate_events(gates.drop_last(), numbers));
        let events = event_trees(gate_events(gates, numbers));
        assert(events == before.push(events::event_tree(gate_view(last, n.0, n.1))));
        assert(events.drop_last() == before);
        lemma_learn_gate(learned_all(r, before), last, n.0, n.1);
        assert(r.gates + kept_gates(gates, numbers) == (r.gates + kept_gates(
            gates.drop_last(),
            numbers,
        )).push(kept_gate(last, n.0, n.1)));
    }
}

proof fn lemma_no_parts(results: Seq<FormatView>)
    requires
        forall|i: int| 0 <= i < results.len() ==> engine::well_formed(#[trigger] results[i]),
    ensures
        gates::changed_count(results) > 0 <==> report::patch_parts(results).len() > 0,
    decreases results.len(),
{
    if results.len() > 0 {
        assert(engine::well_formed(results[results.len() - 1]));
        assert forall|i: int| 0 <= i < results.drop_last().len() implies engine::well_formed(
            #[trigger] results.drop_last()[i],
        ) by {
            assert(engine::well_formed(results[i]));
        }
        lemma_no_parts(results.drop_last());
    }
}

/// What a run logs gives the report back that it printed, whole: scope, verdict,
/// mode, files, totals, gates, rejections and patch.
pub proof fn law_log_gives_report_back(
    run_id: Seq<char>,
    cwd: Seq<char>,
    toolchain: Option<Seq<char>>,
    config: ConfigView,
    scope: ScopeView,
    results: Seq<FormatResult>,
    gates: Seq<GateView>,
    pass: bool,
    editions: Seq<Option<Seq<char>>>,
    numbers: Seq<(Option<serde_json::Number>, Option<serde_json::Number>)>,
    applied_files: int,
    emit: Emit,
)
    requires
        results.len() <= usize::MAX,
        editions.len() == results.len(),
        numbers.len() == gates.len(),
        forall|i: int| 0 <= i < results.len() ==> engine::well_formed(#[trigger] results[i]@),
    ensures
        ({
            let report = report::report_of(
                run_id,
                scope,
                engine::result_views(results),
                gates,
                pass,
                run::mode_text(config.apply),
            );
            let log = run_log(
                start_view(run_id, cwd, scope, config, toolchain),
                scope,
                engine::result_views(results),
                editions,
                numbers,
                apply_view(config.apply, pass, applied_files),
                report,
                emit,
            );
            replay::replayed_report(run_id, replay::rebuilt(event_trees(log)))
                == printed_report(report, numbers)
        }),
{
    let all = engine::result_views(results);
    let report = report::report_of(run_id, scope, all, gates, pass, run::mode_text(config.apply));
    let start = start_view(run_id, cwd, scope, config, toolchain);
    let applied = apply_view(config.apply, pass, applied_files);
    let emitted = emit_view(report.verdict, report.stats, emit);
    let log = run_log(start, scope, all, editions, numbers, applied, report, emit);
    let head = event_trees(seq![start, scope_view(scope)]);
    let files = event_trees(file_events(all, editions));
    let checks = event_trees(gate_events(gates, numbers));
    let tail = event_trees(seq![applied, emitted]);
    assert(event_trees(log) == head + files + checks + tail);
    lemma_rebuilt(event_trees(log));
    lemma_learned_all_concat(replay::nothing_known(), head + files + checks, tail);
    lemma_learned_all_concat(replay::nothing_known(), head + files, checks);
    lemma_learned_all_concat(replay::nothing_known(), head, files);
    // The head.
    let a = replay::nothing_known();
    lemma_learn_start(a, run_id, cwd, scope, config, toolchain);
    let b = replay::learned(a, events::event_tree(start));
    lemma_learn_scope(b, scope);
    let c = replay::learned(b, events::event_tree(scope_view(scope)));
    assert(head.drop_last() == seq![events::event_tree(start)]);
    assert(head.last() == events::event_tree(scope_view(scope)));
    assert(seq![events::event_tree(start)].drop_last() == Seq::<JsonTree>::empty());
    reveal_with_fuel(learned_all, 3);
    assert(learned_all(a, head) == c);
    assert(c.files == scope.files);
    // The files and the gates.
    lemma_learn_files(c, results, editions);
    let d = learned_all(c, files);
    assert(d.reports == report::file_reports(all));
    assert(d.parts == report::patch_parts(all));
    lemma_learn_gates(d, gates, numbers);
    let e = learned_all(d, checks);
    assert(e.gates == kept_gates(gates, numbers));
    // The tail.
    lemma_learn_apply(e, config.apply, pass, applied_files);
    lemma_learn_emit(e, report.verdict, report.stats, emit);
    assert(tail.drop_last() == seq![events::event_tree(applied)]);
    assert(tail.last() == events::event_tree(emitted));
    assert(seq![events::event_tree(applied)].drop_last() == Seq::<JsonTree>::empty());
    let f = learned_all(e, tail);
    assert(f == replay::learned(replay::learned(e, events::event_tree(applied)),
        events::event_tree(emitted)));
    assert forall|i: int| 0 <= i < all.len() implies engine::well_formed(#[trigger] all[i]) by {
        assert(engine::well_formed(results[i]@));
    }
    lemma_no_parts(all);
    assert(f.stats == report.stats);
}

/// Only the first event of a run starts one.
proof fn lemma_starts_nothing(e: EventView)
    requires
        !(e is RunStart),
    ensures
        !replay::starts_run(events::event_tree(e)),
{
    events::lemma_event_member(e, 0);
    replay::lemma_kinds_differ();
    lemma_other_kinds();
}

proof fn lemma_file_events_start_nothing(
    results: Seq<FormatView>,
    editions: Seq<Option<Seq<char>>>,
)
    ensures
        forall|i: int|
            0 <= i < file_events(results, editions).len() ==> !(#[trigger] file_events(
                results,
                editions,
            )[i] is RunStart),
    decreases results.len(),
{
    if results.len() > 0 {
        lemma_file_events_start_nothing(results.drop_last(), editions);
    }
}

proof fn lemma_gate_events_start_nothing(
    gates: Seq<GateView>,
    numbers: Seq<(Option<serde_json::Number>, Option<serde_json::Number>)>,
)
    ensures
        forall|i: int|
            0 <= i < gate_events(gates, numbers).len() ==> !(#[trigger] gate_events(
                gates,
                numbers,
            )[i] is RunStart),
    decreases gates.len(),
{
    if gates.len() > 0 {
        lemma_gate_events_start_nothing(gates.drop_last(), numbers);
    }
}

/// Whether a line of a log is passed over in the search for a run.
pub open spec fn passed_over(line: Seq<char>, run_id: Seq<char>) -> bool {
    text::trim(line).len() == 0 || (json::parsed(line) matches Ok(v) && !replay::starts_this_run(v,
        run_id))
}

/// Whether a line of a log starts a run.
pub open spec fn run_starts_at(line: Seq<char>) -> bool {
    text::trim(line).len() > 0 && (json::parsed(line) matches Ok(v) && replay::starts_run(v))
}

/// Whether a line of a log is that of this event.
pub open spec fn is_line_of(line: Seq<char>, tree: JsonTree) -> bool {
    line.len() > 0 && line[0] == '{' && json::reads_as(line, tree)
}

proof fn lemma_trim_end_keeps(t: Seq<char>)
    requires
        t.len() > 0,
        !text::is_space(t[0]),
    ensures
        text::trim_end(t).len() > 0,
    decreases t.len(),
{
    if text::is_space(t.last()) {
        assert(t.len() > 1);
        lemma_trim_end_keeps(t.drop_last());
    }
}

/// The events of a run, once it has started, are read to the start of the next.
proof fn lemma_run_is_read(
    lines: Seq<Seq<char>>,
    events: Seq<JsonTree>,
    after: Seq<Seq<char>>,
    failure: Option<Seq<char>>,
    run_id: Seq<char>,
)
    requires
        lines.len() == events.len(),
        forall|i: int| 0 <= i < lines.len() ==> is_line_of(#[trigger] lines[i], events[i]),
        forall|i: int| 0 <= i < events.len() ==> !replay::starts_run(#[trigger] events[i]),
        if after.len() == 0 {
            failure is None
        } else {
            run_starts_at(after[0])
        },
    ensures
        replay::events_of_run(lines + after, failure, run_id, true) == Ok::<
            Seq<JsonTree>,
            ReplayErrorView,
        >(events),
    decreases lines.len(),
{
    if lines.len() == 0 {
        assert(lines + after == after);
        assert(events == Seq::<JsonTree>::empty());
    } else {
        let rest = lines + after;
        assert(is_line_of(lines[0], events[0]));
        assert(rest[0] == lines[0]);
        assert(rest.skip(1) == lines.skip(1) + after);
        lemma_trim_end_keeps(lines[0]);
        assert(!replay::starts_run(events[0]));
        assert forall|i: int| 0 <= i < lines.skip(1).len() implies is_line_of(
            #[trigger] lines.skip(1)[i],
            events.skip(1)[i],
        ) by {
            assert(is_line_of(lines[i + 1], events[i + 1]));
        }
        assert forall|i: int| 0 <= i < events.skip(1).len() implies !replay::starts_run(
            #[trigger] events.skip(1)[i],
        ) by {
            assert(!replay::starts_run(events[i + 1]));
        }
        lemma_run_is_read(lines.skip(1), events.skip(1), after, failure, run_id);
        assert(seq![events[0]] + events.skip(1) == events);
    }
}

/// A run is found in a log wherever it stands: behind other runs, and before
/// others that may even be broken.
pub proof fn law_run_is_found(
    before: Seq<Seq<char>>,
    lines: Seq<Seq<char>>,
    events: Seq<JsonTree>,
    after: Seq<Seq<char>>,
    failure: Option<Seq<char>>,
    run_id: Seq<char>,
)
    requires
        lines.len() == events.len(),
        events.len() > 0,
        forall|i: int| 0 <= i < lines.len() ==> is_line_of(#[trigger] lines[i], events[i]),
        replay::starts_this_run(events[0], run_id),
        forall|i: int| 1 <= i < events.len() ==> !replay::starts_run(#[trigger] events[i]),
        forall|i: int| 0 <= i < before.len() ==> passed_over(#[trigger] before[i], run_id),
        if after.len() == 0 {
            failure is None
        } else {
            run_starts_at(after[0])
        },
    ensures
        replay::events_of_run(before + lines + after, failure, run_id, false) == Ok::<
            Seq<JsonTree>,
            ReplayErrorView,
        >(events),
    decreases before.len(),
{
    let log = before + lines + after;
    if before.len() == 0 {
        assert(log == lines + after);
        assert(is_line_of(lines[0], events[0]));
        assert(log[0] == lines[0]);
        assert(log.skip(1) == lines.skip(1) + after);
        lemma_trim_end_keeps(lines[0]);
        assert forall|i: int| 0 <= i < lines.skip(1).len() implies is_line_of(
            #[trigger] lines.skip(1)[i],
            events.skip(1)[i],
        ) by {
            assert(is_line_of(lines[i + 1], events[i + 1]));
        }
        assert forall|i: int| 0 <= i < events.skip(1).len() implies !replay::starts_run(
            #[trigger] events.skip(1)[i],
        ) by {
            assert(!replay::starts_run(events[i + 1]));
        }
        lemma_run_is_read(lines.skip(1), events.skip(1), after, failure, run_id);
        assert(seq![events[0]] + events.skip(1) == events);
    } else {
        assert(passed_over(before[0], run_id));
        assert(log[0] == before[0]);
        assert(log.skip(1) == before.skip(1) + lines + after);
        assert forall|i: int| 0 <= i < before.skip(1).len() implies passed_over(
            #[trigger] before.skip(1)[i],
            run_id,
        ) by {
            assert(passed_over(before[i + 1], run_id));
        }
        law_run_is_found(before.skip(1), lines, events, after, failure, run_id);
    }
}

/// Replaying a log that holds the lines of a run, among those of other runs,
/// gives exactly the report back that the run printed.
pub proof fn law_replay_gives_report_back(
    before: Seq<Seq<char>>,
    lines: Seq<Seq<char>>,
    after: Seq<Seq<char>>,
    failure: Option<Seq<char>>,
    log_path: Seq<char>,
    run_id: Seq<char>,
    cwd: Seq<char>,
    toolchain: Option<Seq<char>>,
    config: ConfigView,
    scope: ScopeView,
    results: Seq<FormatResult>,
    gates: Seq<GateView>,
    pass: bool,
    editions: Seq<Option<Seq<char>>>,
    numbers: Seq<(Option<serde_json::Number>, Option<serde_json::Number>)>,
    applied_files: int,
    emit: Emit,
)
    requires
        results.len() <= usize::MAX,
        editions.len() == results.len(),
        numbers.len() == gates.len(),
        forall|i: int| 0 <= i < results.len() ==> engine::well_formed(#[trigger] results[i]@),
        ({
            let log = run_log(
                start_view(run_id, cwd, scope, config, toolchain),
                scope,
                engine::result_views(results),
                editions,
                numbers,
                apply_view(config.apply, pass, applied_files),
                report::report_of(
                    run_id,
                    scope,
                    engine::result_views(results),
                    gates,
                    pass,
                    run::mode_text(config.apply),
                ),
                emit,
            );
            &&& lines.len() == log.len()
            &&& forall|i: int|
                0 <= i < lines.len() ==> is_line_of(#[trigger] lines[i], events::event_tree(log[i]))
        }),
        forall|i: int| 0 <= i < before.len() ==> passed_over(#[trigger] before[i], run_id),
        if after.len() == 0 {
            failure is None
        } else {
            run_starts_at(after[0])
        },
    ensures
        replay::replay_of(run_id, log_path, Some((before + lines + after, failure))) == Ok::<
            ReportView,
            ReplayErrorView,
        >(
            printed_report(
                report::report_of(
                    run_id,
                    scope,
                    engine::result_views(results),
                    gates,
                    pass,
                    run::mode_text(config.apply),
                ),
                numbers,
            ),
        ),
{
    let all = engine::result_views(results);
    let report = report::report_of(run_id, scope, all, gates, pass, run::mode_text(config.apply));
    let start = start_view(run_id, cwd, scope, config, toolchain);
    let applied = apply_view(config.apply, pass, applied_files);
    let log = run_log(start, scope, all, editions, numbers, applied, report, emit);
    let events = event_trees(log);
    lemma_file_events_start_nothing(all, editions);
    lemma_gate_events_start_nothing(gates, numbers);
    assert(log[0] == start);
    lemma_learn_start(replay::nothing_known(), run_id, cwd, scope, config, toolchain);
    assert forall|i: int| 1 <= i < events.len() implies !replay::starts_run(
        #[trigger] events[i],
    ) by {
        let n = file_events(all, editions).len();
        let m = gate_events(gates, numbers).len();
        if 2 <= i < 2 + n {
            assert(log[i] == file_events(all, editions)[i - 2]);
        } else if 2 + n <= i < 2 + n + m {
            assert(log[i] == gate_events(gates, numbers)[i - 2 - n]);
        }
        assert(!(log[i] is RunStart));
        lemma_starts_nothing(log[i]);
    }
    assert forall|i: int| 0 <= i < lines.len() implies is_line_of(
        #[trigger] lines[i],
        events[i],
    ) by {
        assert(events[i] == events::event_tree(log[i]));
    }
    law_run_is_found(before, lines, events, after, failure, run_id);
    law_log_gives_report_back(
        run_id,
        cwd,
        toolchain,
        config,
        scope,
        results,
        gates,
        pass,
        editions,
        numbers,
        applied_files,
        emit,
    );
}

/// Replaying a run that found nothing to do gives exactly the report back that
/// it printed.
pub proof fn law_replay_gives_quiet_report_back(
    before: Seq<Seq<char>>,
    lines: Seq<Seq<char>>,
    after: Seq<Seq<char>>,
    failure: Option<Seq<char>>,
    log_path: Seq<char>,
    run_id: Seq<char>,
    cwd: Seq<char>,
    toolchain: Option<Seq<char>>,
    config: ConfigView,
    scope: ScopeView,
)
    requires
        lines.len() == 2,
        is_line_of(
            lines[0],
            events::event_tree(start_view(run_id, cwd, scope, config, toolchain)),
        ),
        is_line_of(lines[1], events::event_tree(scope_view(scope))),
        forall|i: int| 0 <= i < before.len() ==> passed_over(#[trigger] before[i], run_id),
        if after.len() == 0 {
            failure is None
        } else {
            run_starts_at(after[0])
        },
    ensures
        replay::replay_of(run_id, log_path, Some((before + lines + after, failure))) == Ok::<
            ReportView,
            ReplayErrorView,
        >(
            report::report_of(
                run_id,
                scope,
                Seq::empty(),
                Seq::empty(),
                true,
                run::mode_text(config.apply),
            ),
        ),
{
    let start = events::event_tree(start_view(run_id, cwd, scope, config, toolchain));
    let named = events::event_tree(scope_view(scope));
    let events = seq![start, named];
    let a = replay::nothing_known();
    lemma_learn_start(a, run_id, cwd, scope, config, toolchain);
    let b = replay::learned(a, start);
    lemma_learn_scope(b, scope);
    assert forall|i: int| 0 <= i < lines.len() implies is_line_of(
        #[trigger] lines[i],
        events[i],
    ) by {
        assert(i == 0 || i == 1);
    }
    law_run_is_found(before, lines, events, after, failure, run_id);
    assert(events.drop_last() == seq![start]);
    assert(seq![start].drop_last() == Seq::<JsonTree>::empty());
    reveal_with_fuel(replay::rebuilt, 3);
    let built = replay::rebuilt(events);
    assert(built == replay::learned(b, named));
    assert(built.files == scope.files);
    let wanted = report::report_of(
        run_id,
        scope,
        Seq::empty(),
        Seq::empty(),
        true,
        run::mode_text(config.apply),
    );
    assert(wanted.files == Seq::<FileReportView>::empty());
    assert(report::rejected(Seq::empty()) == Seq::<GateView>::empty());
}

/// Replaying a log that holds what a decided run logged, among the lines of other
/// runs, gives exactly the report back that the run printed.
pub proof fn law_decided_run_replays(
    before: Seq<Seq<char>>,
    lines: Seq<Seq<char>>,
    after: Seq<Seq<char>>,
    failure: Option<Seq<char>>,
    log_path: Seq<char>,
    run_id: Seq<char>,
    cwd: Seq<char>,
    toolchain: Option<Seq<char>>,
    config: ConfigView,
    scope: ScopeView,
    editions: Seq<Option<Seq<char>>>,
    outcomes: Seq<Result<FormatResult, String>>,
    sandbox: Option<Result<GateView, Seq<char>>>,
    numbers: Seq<(Option<serde_json::Number>, Option<serde_json::Number>)>,
)
    requires
        outcomes.len() <= usize::MAX,
        editions.len() == outcomes.len(),
        results_of_files(scope.files, run::outcome_views(outcomes)),
        forall|i: int|
            0 <= i < outcomes.len() ==> ((#[trigger] outcomes[i]) matches Ok(result)
                ==> engine::well_formed(result@)),
        ({
            let d = run::decided(run_id, config, scope, run::outcome_views(outcomes), sandbox);
            let log = whole_log(
                run_id,
                cwd,
                toolchain,
                config,
                scope,
                editions,
                run::outcome_views(outcomes),
                sandbox,
                numbers,
            );
            &&& d is Ok
            &&& numbers.len() == d->Ok_0.report.gates.len()
            &&& lines.len() == log.len()
            &&& forall|i: int|
                0 <= i < lines.len() ==> is_line_of(#[trigger] lines[i], events::event_tree(log[i]))
        }),
        forall|i: int| 0 <= i < before.len() ==> passed_over(#[trigger] before[i], run_id),
        if after.len() == 0 {
            failure is None
        } else {
            run_starts_at(after[0])
        },
    ensures
        replay::replay_of(run_id, log_path, Some((before + lines + after, failure))) == Ok::<
            ReportView,
            ReplayErrorView,
        >(
            printed_report(
                run::decided(
                    run_id,
                    config,
                    scope,
                    run::outcome_views(outcomes),
                    sandbox,
                )->Ok_0.report,
                numbers,
            ),
        ),
{
    let views = run::outcome_views(outcomes);
    let d = run::decided(run_id, config, scope, views, sandbox)->Ok_0;
    let results = Seq::new(outcomes.len(), |i: int| outcomes[i]->Ok_0);
    run::lemma_no_failures(views);
    assert forall|i: int| 0 <= i < outcomes.len() implies outcomes[i] is Ok && (
    #[trigger] results[i])@ == run::formatted(views)[i] by {
        assert(views[i] is Ok);
    }
    assert(engine::result_views(results) == run::formatted(views));
    assert forall|i: int| 0 <= i < results.len() implies engine::well_formed(
        #[trigger] results[i]@,
    ) by {
        assert(views[i] is Ok);
        assert(outcomes[i] is Ok);
    }
    law_decided_run_logs_in_order(
        run_id,
        cwd,
        toolchain,
        config,
        scope,
        editions,
        views,
        sandbox,
        numbers,
    );
    law_replay_gives_report_back(
        before,
        lines,
        after,
        failure,
        log_path,
        run_id,
        cwd,
        toolchain,
        config,
        scope,
        results,
        d.gates,
        d.pass,
        editions,
        numbers,
        d.writes.len() as int,
        config.emit,
    );
}

} // verus!
