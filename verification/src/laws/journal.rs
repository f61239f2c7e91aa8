//! Laws of the event log: what a run writes to it, and what a replay makes of one
//! that does not hold the run.

use crate::cli::ConfigView;
use crate::cli::Emit;
use crate::engine::FormatView;
use crate::events;
use crate::events::EventView;
use crate::gates::GateView;
use crate::gates::MeasureView;
use crate::journal;
use crate::json;
use crate::json::JsonTree;
use crate::laws;
use crate::replay;
use crate::replay::ReplayErrorView;
use crate::report::ReportView;
use crate::run::DecisionView;
use crate::text;
use crate::types::ScopeView;
use crate::types::ScopedFileView;
use crate::types::Vcs;
use vstd::prelude::*;

verus! {

/// The id of a run, made of the digits of its time and of its number.
pub open spec fn run_id_from(time: Seq<char>, number: Seq<char>) -> Seq<char> {
    "run-"@ + time + "-"@ + number
}

proof fn lemma_zeros(n: nat, t: Seq<char>)
    ensures
        text::digits_value(Seq::new(n, |i: int| '0') + t) == text::digits_value(t),
    decreases t.len(), n,
{
    let zeros = Seq::new(n, |i: int| '0');
    if t.len() > 0 {
        assert((zeros + t).drop_last() == zeros + t.drop_last());
        assert((zeros + t).last() == t.last());
        lemma_zeros(n, t.drop_last());
    } else if n > 0 {
        let fewer = Seq::new((n - 1) as nat, |i: int| '0');
        assert((zeros + t).drop_last() == fewer + t);
        assert((zeros + t).last() == '0');
        lemma_zeros((n - 1) as nat, t);
    } else {
        assert(zeros + t == t);
    }
}

/// The id of a run names its time, in thirteen digits or as many as it needs, and
/// its number; both can be read from it.
pub proof fn law_run_id(now: nat, number: nat)
    ensures
        exists|time: Seq<char>, digits: Seq<char>|
            #![trigger run_id_from(time, digits)]
            {
                &&& events::run_id_of(now, number) == run_id_from(time, digits)
                &&& text::all_digits(time)
                &&& text::digits_value(time) == now
                &&& time.len() >= 13
                &&& time.len() > 13 ==> time[0] != '0'
                &&& text::all_digits(digits)
                &&& text::digits_value(digits) == number
            },
{
    laws::text::law_decimal(now);
    laws::text::law_decimal(number);
    let time = events::padded(now, 13);
    let plain = text::decimal(now);
    if plain.len() < 13 {
        lemma_zeros((13 - plain.len()) as nat, plain);
        assert forall|i: int| 0 <= i < time.len() implies text::is_digit(#[trigger] time[i]) by {
            let gap = 13 - plain.len();
            if i >= gap {
                assert(time[i] == plain[i - gap]);
            }
        }
    }
    assert(events::run_id_of(now, number) == run_id_from(time, text::decimal(number)));
}

/// A log starts with what the run was asked for: where it runs, from where its
/// scope comes, and whether it is dry, which it is unless it applies.
pub proof fn law_start_is_told(
    run_id: Seq<char>,
    cwd: Seq<char>,
    scope: ScopeView,
    config: ConfigView,
    toolchain: Option<Seq<char>>,
)
    ensures
        journal::opening_log(run_id, cwd, scope, config, toolchain).len() == 2,
        journal::opening_log(run_id, cwd, scope, config, toolchain)[0] matches EventView::RunStart {
            run_id: id,
            version: _,
            cwd: dir,
            base,
            vcs,
            source,
            rustfmt,
            toolchain: tools,
            dry_run,
        } && {
            &&& id == run_id
            &&& dir == cwd
            &&& base == scope.base
            &&& scope.vcs == Some(Vcs::Git) ==> vcs == Some("git"@)
            &&& scope.vcs == Some(Vcs::Jj) ==> vcs == Some("jj"@)
            &&& scope.vcs is None ==> vcs is None
            &&& source == scope.source
            &&& rustfmt == config.rustfmt
            &&& toolchain matches Some(known) ==> tools == known
            &&& toolchain is None ==> tools == "unknown"@
            &&& dry_run <==> !config.apply
        },
        journal::opening_log(run_id, cwd, scope, config, toolchain)[1]
            matches EventView::ScopeDetect { source, files, excluded } && source == scope.source
            && files == scope.files && excluded.len() == 0,
{
}

/// The log of some files is that of the first ones followed by that of the
/// others. Of one file it tells the edition and then, where it was formatted,
/// the result; what was clipped and what was kept are all the hunks there were.
pub proof fn law_files_are_told_in_turn(
    files: Seq<ScopedFileView>,
    editions: Seq<Option<Seq<char>>>,
    outcomes: Seq<Result<FormatView, Seq<char>>>,
    file: ScopedFileView,
    edition: Option<Seq<char>>,
    outcome: Result<FormatView, Seq<char>>,
)
    requires
        files.len() == outcomes.len(),
        editions.len() == outcomes.len(),
    ensures
        ({
            let before = journal::files_log(files, editions, outcomes);
            let after = journal::files_log(
                files.push(file),
                editions.push(edition),
                outcomes.push(outcome),
            );
            &&& after.take(before.len() as int) == before
            &&& outcome is Ok ==> after.len() == before.len() + 2
            &&& outcome is Err ==> after.len() == before.len() + 1
            &&& after[before.len() as int] == (EventView::EngineSelect {
                file: file.path,
                engine: "rustfmt-diff-intersect"@,
                edition,
            })
            &&& outcome matches Ok(r) ==> (after.last() matches EventView::FmtResult {
                file: path,
                changed,
                idempotent,
                added_lines,
                removed_lines,
                hunks_total,
                hunks_kept,
                out_of_scope_hunks,
                rustfmt_duration_ms,
                first_pass_duration_ms,
                idempotency_duration_ms,
                patch,
            } && {
                &&& path == r.path
                &&& changed == r.changed
                &&& idempotent == r.idempotent
                &&& added_lines == r.added_lines
                &&& removed_lines == r.removed_lines
                &&& hunks_total == r.hunks_total
                &&& hunks_kept == r.hunks_kept
                &&& out_of_scope_hunks + hunks_kept == hunks_total
                &&& rustfmt_duration_ms == r.rustfmt_duration_ms
                &&& first_pass_duration_ms == r.first_pass_duration_ms
                &&& idempotency_duration_ms == r.idempotency_duration_ms
                &&& patch == r.patch
            })
        }),
        journal::files_log(Seq::empty(), Seq::empty(), Seq::empty()).len() == 0,
{
    let n = outcomes.len() as int;
    lemma_files_log_front(files, editions, outcomes, file, edition, n);
    let more = outcomes.push(outcome);
    assert(more.drop_last() == outcomes);
    assert(more[n] == outcome);
    assert(files.push(file)[n] == file);
    assert(editions.push(edition)[n] == edition);
}

proof fn lemma_files_log_front(
    files: Seq<ScopedFileView>,
    editions: Seq<Option<Seq<char>>>,
    outcomes: Seq<Result<FormatView, Seq<char>>>,
    file: ScopedFileView,
    edition: Option<Seq<char>>,
    n: int,
)
    requires
        files.len() == outcomes.len(),
        editions.len() == outcomes.len(),
        0 <= n <= outcomes.len(),
    ensures
        journal::files_log(files.push(file), editions.push(edition), outcomes.take(n))
            == journal::files_log(files, editions, outcomes.take(n)),
        outcomes.take(outcomes.len() as int) == outcomes,
    decreases n,
{
    if n > 0 {
        assert(outcomes.take(n).drop_last() == outcomes.take(n - 1));
        lemma_files_log_front(files, editions, outcomes, file, edition, n - 1);
    }
}

/// A log tells every gate, in order and as it is.
pub proof fn law_gates_are_told(
    gates: Seq<GateView>,
    numbers: Seq<(Option<serde_json::Number>, Option<serde_json::Number>)>,
    i: int,
)
    requires
        0 <= i < gates.len(),
    ensures
        journal::gate_events(gates, numbers).len() == gates.len(),
        journal::gate_events(gates, numbers)[i] matches EventView::GateCheck {
            gate,
            pass,
            file,
            metric,
            limit,
            detail,
        } && {
            &&& gate == gates[i].gate
            &&& pass == gates[i].pass
            &&& file == gates[i].file
            &&& metric == numbers[i].0
            &&& limit == numbers[i].1
            &&& detail == Some(gates[i].detail)
        },
    decreases gates.len(),
{
    let before = gates.drop_last();
    if i < before.len() {
        law_gates_are_told(before, numbers, i);
    } else if before.len() > 0 {
        law_gates_are_told(before, numbers, 0);
    } else {
        assert(journal::gate_events(before, numbers).len() == 0);
    }
}

/// A log ends with whether the run was dry, what it wrote and whether that was
/// refused, and then with its report. A run that failed tells nothing of these.
pub proof fn law_end_is_told(
    d: DecisionView,
    message: Seq<char>,
    config: ConfigView,
    numbers: Seq<(Option<serde_json::Number>, Option<serde_json::Number>)>,
)
    ensures
        ({
            let log = journal::closing_log(Ok(d), config, numbers);
            let n = journal::gate_events(d.report.gates, numbers).len() as int;
            &&& log.len() == n + 2
            &&& log.take(n) == journal::gate_events(d.report.gates, numbers)
            &&& log[n] matches EventView::Apply { dry_run, applied_files, refused } && {
                &&& dry_run <==> !config.apply
                &&& applied_files == d.writes.len()
                &&& refused <==> config.apply && !d.pass
            }
            &&& log[n + 1] matches EventView::ReportEmit {
                verdict,
                files_changed,
                total_added,
                total_removed,
                outputs,
            } && {
                &&& verdict == d.report.verdict
                &&& files_changed == d.report.stats.files_changed
                &&& total_added == d.report.stats.added_lines
                &&& total_removed == d.report.stats.removed_lines
                &&& config.emit == Emit::Json ==> outputs == seq!["json"@]
                &&& config.emit == Emit::Patch ==> outputs == seq!["patch"@]
            }
        }),
        journal::closing_log(Err(message), config, numbers).len() == 0,
{
}

/// A line of the log names what its event tells, under its own name.
pub proof fn law_lines_name_what_they_tell(
    a: Seq<char>,
    b: Seq<char>,
    c: Option<Seq<char>>,
    yes: bool,
    no: bool,
    n: int,
    outputs: Seq<Seq<char>>,
)
    ensures
        ({
            let select = EventView::EngineSelect { file: a, engine: b, edition: c };
            let fields = events::event_fields(select);
            &&& fields.len() == 4
            &&& fields[0] == ("t"@, JsonTree::Str("engine_select"@))
            &&& fields[1] == ("file"@, JsonTree::Str(a))
            &&& fields[2] == ("engine"@, JsonTree::Str(b))
            &&& fields[3].0 == "edition"@
            &&& c matches Some(edition) ==> fields[3].1 == JsonTree::Str(edition)
            &&& c is None ==> fields[3].1 == JsonTree::Null
        }),
        ({
            let apply = EventView::Apply { dry_run: yes, applied_files: n, refused: no };
            let fields = events::event_fields(apply);
            &&& fields.len() == 4
            &&& fields[0] == ("t"@, JsonTree::Str("apply"@))
            &&& fields[1] == ("dry_run"@, JsonTree::Bool(yes))
            &&& fields[2] == ("applied_files"@, JsonTree::Integer(n))
            &&& fields[3] == ("refused"@, JsonTree::Bool(no))
        }),
        ({
            let emit = EventView::ReportEmit {
                verdict: a,
                files_changed: n,
                total_added: n + 1,
                total_removed: n + 2,
                outputs,
            };
            let fields = events::event_fields(emit);
            &&& fields.len() == 6
            &&& fields[0] == ("t"@, JsonTree::Str("report_emit"@))
            &&& fields[1] == ("verdict"@, JsonTree::Str(a))
            &&& fields[2] == ("files_changed"@, JsonTree::Integer(n))
            &&& fields[3] == ("total_added"@, JsonTree::Integer(n + 1))
            &&& fields[4] == ("total_removed"@, JsonTree::Integer(n + 2))
            &&& fields[5].0 == "outputs"@
        }),
{
}

/// A printed report is the report, with the measures of its gates as they were
/// printed; what is rejected is what fails, as before.
pub proof fn law_printed_report(
    report: ReportView,
    numbers: Seq<(Option<serde_json::Number>, Option<serde_json::Number>)>,
    i: int,
)
    requires
        0 <= i < report.gates.len(),
    ensures
        ({
            let printed = journal::printed_report(report, numbers);
            let g = report.gates[i];
            &&& printed == ReportView {
                gates: printed.gates,
                rejections: printed.gates.filter(|g: GateView| !g.pass),
                ..report
            }
            &&& printed.gates.len() == report.gates.len()
            &&& printed.gates[i] == GateView {
                metric: printed.gates[i].metric,
                limit: printed.gates[i].limit,
                ..g
            }
            &&& numbers[i].0 matches Some(number) ==> printed.gates[i].metric == Some(
                MeasureView::Recorded(number),
            )
            &&& numbers[i].1 matches Some(number) ==> printed.gates[i].limit == Some(
                MeasureView::Recorded(number),
            )
            &&& numbers[i].0 is None ==> printed.gates[i].metric is None
            &&& numbers[i].1 is None ==> printed.gates[i].limit is None
        }),
{
    lemma_kept_gates(report.gates, numbers, i);
    laws::report::lemma_rejected(journal::kept_gates(report.gates, numbers));
}

proof fn lemma_kept_gates(
    gates: Seq<GateView>,
    numbers: Seq<(Option<serde_json::Number>, Option<serde_json::Number>)>,
    i: int,
)
    requires
        0 <= i < gates.len(),
    ensures
        journal::kept_gates(gates, numbers).len() == gates.len(),
        journal::kept_gates(gates, numbers)[i] == journal::kept_gate(
            gates[i],
            numbers[i].0,
            numbers[i].1,
        ),
    decreases gates.len(),
{
    let before = gates.drop_last();
    if i < before.len() {
        lemma_kept_gates(before, numbers, i);
    } else if before.len() > 0 {
        lemma_kept_gates(before, numbers, 0);
    } else {
        assert(journal::kept_gates(before, numbers).len() == 0);
    }
}

/// A run that no line of the log starts is not found, a log that could not be
/// read to its end is corrupt, and so is one with a line that is no JSON where
/// the run was looked for. Without a log that is said.
pub proof fn law_missing_runs_are_told(
    lines: Seq<Seq<char>>,
    bad: Seq<char>,
    after: Seq<Seq<char>>,
    failure: Option<Seq<char>>,
    message: Seq<char>,
    run_id: Seq<char>,
    log_path: Seq<char>,
)
    requires
        forall|i: int| 0 <= i < lines.len() ==> journal::passed_over(#[trigger] lines[i], run_id),
    ensures
        replay::replay_of(run_id, log_path, Some((lines, None))) == Err::<
            ReportView,
            ReplayErrorView,
        >(ReplayErrorView::RunNotFound(run_id)),
        replay::replay_of(run_id, log_path, Some((lines, Some(message)))) == Err::<
            ReportView,
            ReplayErrorView,
        >(ReplayErrorView::CorruptLog(message)),
        text::trim(bad).len() > 0 && json::parsed(bad) is Err ==> replay::replay_of(
            run_id,
            log_path,
            Some((lines + (seq![bad] + after), failure)),
        ) == Err::<ReportView, ReplayErrorView>(
            ReplayErrorView::CorruptLog(json::parsed(bad)->Err_0),
        ),
        replay::replay_of(run_id, log_path, None) == Err::<ReportView, ReplayErrorView>(
            ReplayErrorView::LogMissing(log_path),
        ),
    decreases lines.len(),
{
    let all = lines + (seq![bad] + after);
    if lines.len() == 0 {
        assert(all[0] == bad);
    } else {
        let more = lines.skip(1);
        assert forall|i: int| 0 <= i < more.len() implies journal::passed_over(
            #[trigger] more[i],
            run_id,
        ) by {
            assert(more[i] == lines[i + 1]);
        }
        assert(journal::passed_over(lines[0], run_id));
        assert(all[0] == lines[0]);
        assert(all.skip(1) == more + (seq![bad] + after));
        law_missing_runs_are_told(more, bad, after, failure, message, run_id, log_path);
    }
}

/// A log that only names its files gives every file that it names, in order, each
/// without ranges.
pub proof fn law_named_files_are_kept(items: Seq<JsonTree>)
    ensures
        replay::named_files(items) == items.filter(|v: JsonTree| v is Str).map_values(
            |v: JsonTree|
                ScopedFileView {
                    path: v->Str_0,
                    ranges: Seq::empty(),
                    agent_added_lines: None,
                },
        ),
    decreases items.len(),
{
    reveal(Seq::filter);
    let pred = |v: JsonTree| v is Str;
    let file = |v: JsonTree|
        ScopedFileView { path: v->Str_0, ranges: Seq::empty(), agent_added_lines: None };
    if items.len() == 0 {
        assert(items.filter(pred).map_values(file) == Seq::<ScopedFileView>::empty());
    } else {
        let before = items.drop_last();
        law_named_files_are_kept(before);
        if pred(items.last()) {
            assert(before.filter(pred).push(items.last()).map_values(file) == before.filter(
                pred,
            ).map_values(file).push(file(items.last())));
        }
    }
}

/// What a replay knows adds up event by event: files, results and gates come on
/// top of those known before, the last report counts, and an event of another
/// kind changes nothing.
pub proof fn law_events_add_up(events: Seq<JsonTree>, v: JsonTree)
    requires
        replay::rebuilt(events).stats.files_scanned < usize::MAX,
    ensures
        ({
            let before = replay::rebuilt(events);
            let after = replay::rebuilt(events.push(v));
            let kind = json::item(v, "t"@);
            &&& kind == JsonTree::Str("scope_detect"@) ==> {
                &&& after.files == before.files + replay::logged_files(v)
                &&& after.reports == before.reports && after.gates == before.gates
                &&& after.parts == before.parts && after.verdict == before.verdict
            }
            &&& kind == JsonTree::Str("fmt_result"@) ==> {
                &&& after.reports.len() == before.reports.len() + 1
                &&& after.reports.drop_last() == before.reports
                &&& json::item(v, "file"@) matches JsonTree::Str(path) ==> after.reports.last().path
                    == path
                &&& json::item(v, "patch"@) matches JsonTree::Str(patch) ==> patch.len() > 0
                    ==> after.parts.drop_last() == before.parts && after.parts.last().1 == patch
                &&& after.stats.files_scanned == before.stats.files_scanned + 1
                &&& after.files == before.files && after.gates == before.gates
            }
            &&& kind == JsonTree::Str("gate_check"@) ==> {
                &&& after.gates.len() == before.gates.len() + 1
                &&& after.gates.drop_last() == before.gates
                &&& json::item(v, "pass"@) matches JsonTree::Bool(pass) ==> after.gates.last().pass
                    == pass
                &&& after.files == before.files && after.reports == before.reports
            }
            &&& kind == JsonTree::Str("report_emit"@) ==> {
                &&& json::item(v, "verdict"@) matches JsonTree::Str(verdict) ==> after.verdict
                    == verdict
                &&& after.stats.files_scanned == before.stats.files_scanned
                &&& after.files == before.files && after.reports == before.reports
                &&& after.gates == before.gates && after.parts == before.parts
            }
            &&& kind == JsonTree::Str("engine_select"@) || kind == JsonTree::Str("apply"@)
                ==> after == before
        }),
{
    assert(events.push(v).drop_last() == events);
    reveal_strlit("run_start");
    reveal_strlit("scope_detect");
    reveal_strlit("fmt_result");
    reveal_strlit("gate_check");
    reveal_strlit("report_emit");
    reveal_strlit("engine_select");
    reveal_strlit("apply");
    assert("run_start"@.len() == 9 && "scope_detect"@.len() == 12 && "fmt_result"@.len() == 10);
    assert("gate_check"@.len() == 10 && "report_emit"@.len() == 11);
    assert("engine_select"@.len() == 13 && "apply"@.len() == 5);
    assert("fmt_result"@[0] != "gate_check"@[0]);
}

} // verus!
