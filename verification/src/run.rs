//! What a run does: which files it looks at, what it decides, what it writes,
//! and what it logs.

use crate::cli::{Config, ConfigView};
use crate::engine;
use crate::engine::{FormatResult, FormatView};
use crate::gates;
use crate::gates::{GateResult, GateView, check};
use crate::report;
use crate::report::{Report, ReportView, build_report};
use crate::scope;
use crate::scope::is_excluded;
use crate::text;
use crate::text::{decimal_text, join_texts};
use crate::types;
use crate::types::{ChangeSet, Scope, ScopeView, ScopedFile, ScopedFileView};
use vstd::prelude::*;

verus! {

/// What is wrong with a configuration, if anything.
pub open spec fn config_fault(apply: bool, sandbox: bool) -> Option<Seq<char>> {
    if sandbox && !apply {
        Some(
            "--sandbox requires --apply (it verifies the to-be-applied patch in an isolated worktree)"@,
        )
    } else {
        None
    }
}

/// Refuses a configuration that contradicts itself: the sandbox verifies what
/// is about to be applied.
pub fn check_config(config: &Config) -> (checked: Result<(), String>)
    ensures
        match checked {
            Ok(_) => config_fault(config.apply, config.sandbox) is None,
            Err(message) => config_fault(config.apply, config.sandbox) == Some(message@),
        },
{
    if config.sandbox && !config.apply {
        return Err(
            "--sandbox requires --apply (it verifies the to-be-applied patch in an isolated worktree)".to_string(),
        );
    }
    Ok(())
}

/// The files that no pattern excludes, in order.
pub open spec fn not_excluded(
    files: Seq<ScopedFileView>,
    patterns: Seq<Seq<char>>,
) -> Seq<ScopedFileView>
    decreases files.len(),
{
    if files.len() == 0 {
        Seq::empty()
    } else {
        let before = not_excluded(files.drop_last(), patterns);
        if scope::excluded(files.last().path, patterns) {
            before
        } else {
            before.push(files.last())
        }
    }
}

/// The scope of an explicit change set: the caller's files, without the excluded
/// ones.
pub fn scope_of_changeset(changes: ChangeSet, excludes: &[String]) -> (scope: Scope)
    ensures
        scope@ == (ScopeView {
            vcs: None,
            base: changes.base_ref@,
            source: "changeset"@,
            files: not_excluded(types::file_views(changes.files@), text::texts(excludes@)),
        }),
{
    let ghost all = types::file_views(changes.files@);
    let mut files: Vec<ScopedFile> = Vec::new();
    assert(all.take(0) == Seq::<ScopedFileView>::empty());
    assert(types::file_views(files@) == Seq::<ScopedFileView>::empty());
    for i in 0..changes.files.len()
        invariant
            all == types::file_views(changes.files@),
            types::file_views(files@) == not_excluded(all.take(i as int), text::texts(excludes@)),
    {
        proof {
            assert(all.take(i + 1).drop_last() == all.take(i as int));
            assert(all.take(i + 1).last() == changes.files@[i as int]@);
        }
        if !is_excluded(changes.files[i].path.as_str(), excludes) {
            let ghost before = types::file_views(files@);
            files.push(changes.files[i].clone());
            assert(types::file_views(files@) == before.push(changes.files@[i as int]@));
        }
    }
    assert(all.take(all.len() as int) == all);
    Scope { vcs: None, base: changes.base_ref, source: "changeset".to_string(), files }
}

/// The files that have a range, in order.
pub open spec fn with_ranges(files: Seq<ScopedFileView>) -> Seq<ScopedFileView>
    decreases files.len(),
{
    if files.len() == 0 {
        Seq::empty()
    } else {
        let before = with_ranges(files.drop_last());
        if files.last().ranges.len() > 0 {
            before.push(files.last())
        } else {
            before
        }
    }
}

/// Drops the files of a detected scope that have no range: after a pure
/// deletion there is nothing to format.
pub fn keep_ranged(scope: Scope) -> (kept: Scope)
    ensures
        kept@ == (ScopeView { files: with_ranges(scope@.files), ..scope@ }),
{
    let ghost all = scope@.files;
    let mut files: Vec<ScopedFile> = Vec::new();
    assert(all.take(0) == Seq::<ScopedFileView>::empty());
    assert(types::file_views(files@) == Seq::<ScopedFileView>::empty());
    for i in 0..scope.files.len()
        invariant
            all == types::file_views(scope.files@),
            types::file_views(files@) == with_ranges(all.take(i as int)),
    {
        proof {
            assert(all.take(i + 1).drop_last() == all.take(i as int));
            assert(all.take(i + 1).last() == scope.files@[i as int]@);
        }
        if scope.files[i].ranges.len() > 0 {
            let ghost before = types::file_views(files@);
            files.push(scope.files[i].clone());
            assert(types::file_views(files@) == before.push(scope.files@[i as int]@));
        }
    }
    assert(all.take(all.len() as int) == all);
    Scope { vcs: scope.vcs, base: scope.base, source: scope.source, files }
}

/// What came of the files of a run, one for each: a result, or why the file could
/// not be formatted.
pub open spec fn outcome_views(outcomes: Seq<Result<FormatResult, String>>) -> Seq<
    Result<FormatView, Seq<char>>,
> {
    outcomes.map_values(
        |o: Result<FormatResult, String>|
            match o {
                Ok(result) => Ok::<FormatView, Seq<char>>(result@),
                Err(message) => Err(message@),
            },
    )
}

/// The results of the files that could be formatted, in order.
pub open spec fn formatted(outcomes: Seq<Result<FormatView, Seq<char>>>) -> Seq<FormatView>
    decreases outcomes.len(),
{
    if outcomes.len() == 0 {
        Seq::empty()
    } else {
        match outcomes.last() {
            Ok(result) => formatted(outcomes.drop_last()).push(result),
            Err(_) => formatted(outcomes.drop_last()),
        }
    }
}

/// Why files could not be formatted, in order.
pub open spec fn failures(outcomes: Seq<Result<FormatView, Seq<char>>>) -> Seq<Seq<char>>
    decreases outcomes.len(),
{
    if outcomes.len() == 0 {
        Seq::empty()
    } else {
        match outcomes.last() {
            Ok(_) => failures(outcomes.drop_last()),
            Err(message) => failures(outcomes.drop_last()).push(message),
        }
    }
}

/// The error of a run in which files could not be formatted.
pub open spec fn failure_text(errors: Seq<Seq<char>>) -> Seq<char> {
    text::decimal(errors.len())
        + " file(s) could not be formatted; run aborted (fail-closed): "@ + text::join(
        errors,
        "; "@,
    )
}

/// The error of a run in which files could not be formatted; `None` where all
/// could. One such file ends the run.
pub fn engine_failure(errors: &[String]) -> (failure: Option<String>)
    ensures
        match failure {
            None => errors@.len() == 0,
            Some(message) => errors@.len() > 0 && message@ == failure_text(text::texts(errors@)),
        },
{
    if errors.len() == 0 {
        return None;
    }
    let mut message = decimal_text(errors.len());
    message.append(" file(s) could not be formatted; run aborted (fail-closed): ");
    message.append(join_texts(errors, "; ").as_str());
    Some(message)
}

/// Gathers the results of a run. One file that could not be formatted is the
/// error of the whole run.
pub fn gather(outcomes: &[Result<FormatResult, String>]) -> (gathered: Result<
    Vec<FormatResult>,
    String,
>)
    ensures
        match gathered {
            Ok(results) => failures(outcome_views(outcomes@)).len() == 0 && engine::result_views(
                results@,
            ) == formatted(outcome_views(outcomes@)),
            Err(message) => failures(outcome_views(outcomes@)).len() > 0 && message@
                == failure_text(failures(outcome_views(outcomes@))),
        },
{
    let ghost all = outcome_views(outcomes@);
    let mut results: Vec<FormatResult> = Vec::new();
    let mut errors: Vec<String> = Vec::new();
    assert(all.take(0) == Seq::<Result<FormatView, Seq<char>>>::empty());
    assert(engine::result_views(results@) == Seq::<FormatView>::empty());
    assert(text::texts(errors@) == Seq::<Seq<char>>::empty());
    for i in 0..outcomes.len()
        invariant
            all == outcome_views(outcomes@),
            engine::result_views(results@) == formatted(all.take(i as int)),
            text::texts(errors@) == failures(all.take(i as int)),
    {
        proof {
            assert(all.take(i + 1).drop_last() == all.take(i as int));
            assert(all.take(i + 1).last() == all[i as int]);
        }
        match &outcomes[i] {
            Ok(result) => {
                let ghost before = engine::result_views(results@);
                results.push(result.clone());
                assert(engine::result_views(results@) == before.push(result@));
            },
            Err(message) => {
                let ghost before = text::texts(errors@);
                errors.push(message.clone());
                assert(text::texts(errors@) == before.push(message@));
            },
        }
    }
    assert(all.take(all.len() as int) == all);
    assert(text::texts(errors@).len() == errors@.len());
    match engine_failure(errors.as_slice()) {
        Some(message) => Err(message),
        None => Ok(results),
    }
}

/// How the mode of a run is written.
pub open spec fn mode_text(apply: bool) -> Seq<char> {
    if apply {
        "apply"@
    } else {
        "dry-run"@
    }
}

fn mode_of(apply: bool) -> (mode: String)
    ensures
        mode@ == mode_text(apply),
{
    if apply {
        "apply".to_string()
    } else {
        "dry-run".to_string()
    }
}

/// Whether the patch is to be verified in a worktree: it is to be applied, the
/// sandbox was asked for, and every gate so far passed.
pub open spec fn sandbox_due(apply: bool, sandbox: bool, pass: bool) -> bool {
    apply && sandbox && pass
}

/// Whether the patch is to be verified in a worktree.
pub fn needs_sandbox(config: &Config, pass: bool) -> (yes: bool)
    ensures
        yes == sandbox_due(config.apply, config.sandbox, pass),
{
    config.apply && config.sandbox && pass
}

/// A file that the run writes.
#[derive(Debug)]
pub struct Write {
    pub path: String,
    pub content: String,
}

/// The writes, as paths and contents.
pub open spec fn write_views(writes: Seq<Write>) -> Seq<(Seq<char>, Seq<char>)> {
    writes.map_values(|w: Write| (w.path@, w.content@))
}

/// The paths and contents of the changed results.
pub open spec fn changed_contents(results: Seq<FormatView>) -> Seq<(Seq<char>, Seq<char>)>
    decreases results.len(),
{
    if results.len() == 0 {
        Seq::empty()
    } else {
        let before = changed_contents(results.drop_last());
        let r = results.last();
        match r.new_content {
            Some(content) => if r.changed {
                before.push((r.path, content))
            } else {
                before
            },
            None => before,
        }
    }
}

/// What a run writes: every changed file where it applies and every gate
/// passed, and nothing else.
pub open spec fn writes_of(
    apply: bool,
    pass: bool,
    results: Seq<FormatView>,
) -> Seq<(Seq<char>, Seq<char>)> {
    if apply && pass {
        changed_contents(results)
    } else {
        Seq::empty()
    }
}

/// What a run writes.
pub fn planned_writes(apply: bool, pass: bool, results: &[FormatResult]) -> (writes: Vec<Write>)
    ensures
        write_views(writes@) == writes_of(apply, pass, engine::result_views(results@)),
{
    let ghost all = engine::result_views(results@);
    let mut writes: Vec<Write> = Vec::new();
    assert(write_views(writes@) == Seq::<(Seq<char>, Seq<char>)>::empty());
    if !apply || !pass {
        return writes;
    }
    assert(all.take(0) == Seq::<FormatView>::empty());
    for i in 0..results.len()
        invariant
            all == engine::result_views(results@),
            write_views(writes@) == changed_contents(all.take(i as int)),
    {
        let r = &results[i];
        proof {
            assert(all.take(i + 1).drop_last() == all.take(i as int));
            assert(all.take(i + 1).last() == r@);
        }
        if r.changed {
            if let Some(content) = &r.new_content {
                let ghost before = write_views(writes@);
                writes.push(Write { path: r.path.clone(), content: content.clone() });
                assert(write_views(writes@) == before.push((r.path@, content@)));
            }
        }
    }
    assert(all.take(all.len() as int) == all);
    writes
}

/// What a run comes to.
#[derive(Debug)]
pub struct Decision {
    pub pass: bool,
    pub gates: Vec<GateResult>,
    pub writes: Vec<Write>,
    pub report: Report,
    pub exit_code: u8,
}

/// What a [`Decision`] stands for.
pub struct DecisionView {
    pub pass: bool,
    pub gates: Seq<GateView>,
    pub writes: Seq<(Seq<char>, Seq<char>)>,
    pub report: ReportView,
    pub exit_code: u8,
}

impl View for Decision {
    type V = DecisionView;

    open spec fn view(&self) -> DecisionView {
        DecisionView {
            pass: self.pass,
            gates: gates::gate_views(self.gates@),
            writes: write_views(self.writes@),
            report: self.report@,
            exit_code: self.exit_code,
        }
    }
}

/// The gates of a run: those on the results, and that of the sandbox where it
/// was due.
pub open spec fn settled_gates(
    config: ConfigView,
    files: Seq<ScopedFileView>,
    results: Seq<FormatView>,
    sandbox: Option<GateView>,
) -> Seq<GateView> {
    let found = gates::all_gates(files, results, config.budget);
    match sandbox {
        Some(gate) => if sandbox_due(config.apply, config.sandbox, gates::all_pass(found)) {
            found.push(gate)
        } else {
            found
        },
        None => found,
    }
}

/// What a run comes to, from its results and from what the sandbox found where
/// it was due.
pub open spec fn decision_of(
    run_id: Seq<char>,
    config: ConfigView,
    scope: ScopeView,
    results: Seq<FormatView>,
    sandbox: Option<GateView>,
) -> DecisionView {
    let gates = settled_gates(config, scope.files, results, sandbox);
    let pass = gates::all_pass(gates);
    DecisionView {
        pass,
        gates,
        writes: writes_of(config.apply, pass, results),
        report: report::report_of(run_id, scope, results, gates, pass, mode_text(config.apply)),
        exit_code: if pass {
            0
        } else {
            1
        },
    }
}

/// An optional gate, as a value.
pub open spec fn optional_gate(gate: Option<GateResult>) -> Option<GateView> {
    match gate {
        Some(gate) => Some(gate@),
        None => None,
    }
}

/// Whether every result says how the formatter left the file.
pub open spec fn all_tested(results: Seq<FormatView>) -> bool {
    forall|i: int| 0 <= i < results.len() ==> (#[trigger] results[i]).fmt_clean is Some
}

/// Settles a run in which every file was formatted: its gates, what it writes,
/// its report and its exit code. `sandbox` is what the sandbox found; it counts
/// where the sandbox was due.
fn settle(
    run_id: String,
    config: &Config,
    scope: &Scope,
    results: &[FormatResult],
    sandbox: Option<GateResult>,
) -> (decision: Decision)
    requires
        report::reportable(engine::result_views(results@)),
        config.verify_fmt_check ==> all_tested(engine::result_views(results@)),
        sandbox_due(
            config.apply,
            config.sandbox,
            gates::all_pass(gates::all_gates(scope@.files, engine::result_views(results@),
                config.budget)),
        ) ==> sandbox is Some,
    ensures
        decision@ == decision_of(
            run_id@,
            config@,
            scope@,
            engine::result_views(results@),
            optional_gate(sandbox),
        ),
{
    let ghost id = run_id@;
    let ghost found_gate = optional_gate(sandbox);
    let ghost all = engine::result_views(results@);
    let (found, mut gates) = check(scope, results, &config.budget);
    let mut pass = found;
    if let Some(gate) = sandbox {
        if needs_sandbox(config, found) {
            let ghost before = gates@;
            if !gate.pass {
                pass = false;
            }
            gates.push(gate);
            proof {
                assert(gates::gate_views(gates@) == gates::gate_views(before).push(gate@));
                let now = gates::gate_views(gates@);
                assert forall|i: int| 0 <= i < gates::gate_views(before).len() implies (
                #[trigger] now[i]).pass by {
                    assert(now[i] == gates::gate_views(before)[i]);
                }
                assert(now[now.len() - 1] == gate@);
                assert(pass == gates::all_pass(now));
            }
        }
    }
    assert(gates::gate_views(gates@) == settled_gates(config@, scope@.files, all, found_gate));
    let writes = planned_writes(config.apply, pass, results);
    let mode = mode_of(config.apply);
    let report = build_report(run_id, scope, results, gates.as_slice(), pass, mode.as_str());
    Decision {
        pass,
        gates,
        writes,
        report,
        exit_code: if pass {
            0
        } else {
            1
        },
    }
}

/// What the sandbox gave, as a value: what it found, or why it could not look.
pub open spec fn sandbox_view(sandbox: Option<Result<GateResult, String>>) -> Option<
    Result<GateView, Seq<char>>,
> {
    match sandbox {
        Some(Ok(gate)) => Some(Ok(gate@)),
        Some(Err(message)) => Some(Err(message@)),
        None => None,
    }
}

/// What the sandbox found, where it could look.
pub open spec fn sandbox_finding(sandbox: Option<Result<GateView, Seq<char>>>) -> Option<GateView> {
    match sandbox {
        Some(Ok(gate)) => Some(gate),
        _ => None,
    }
}

/// Whether the sandbox is due for these results.
pub open spec fn due(config: ConfigView, scope: ScopeView, results: Seq<FormatView>) -> bool {
    sandbox_due(
        config.apply,
        config.sandbox,
        gates::all_pass(gates::all_gates(scope.files, results, config.budget)),
    )
}

/// What a run comes to, from what came of its files and from what the sandbox
/// gave where it was due. A file that could not be formatted, or a sandbox that
/// could not look, is the error of the whole run.
pub open spec fn decided(
    run_id: Seq<char>,
    config: ConfigView,
    scope: ScopeView,
    outcomes: Seq<Result<FormatView, Seq<char>>>,
    sandbox: Option<Result<GateView, Seq<char>>>,
) -> Result<DecisionView, Seq<char>> {
    let results = formatted(outcomes);
    if failures(outcomes).len() > 0 {
        Err(failure_text(failures(outcomes)))
    } else {
        match sandbox {
            Some(Err(message)) => if due(config, scope, results) {
                Err(message)
            } else {
                Ok(decision_of(run_id, config, scope, results, None))
            },
            _ => Ok(decision_of(run_id, config, scope, results, sandbox_finding(sandbox))),
        }
    }
}

/// A decision, or the error of the run, as a value.
pub open spec fn decided_view(decided: Result<Decision, String>) -> Result<
    DecisionView,
    Seq<char>,
> {
    match decided {
        Ok(decision) => Ok(decision@),
        Err(message) => Err(message@),
    }
}

/// Decides on a run, from what came of each file of its scope: its gates, what it
/// writes, its report and its exit code; or the error that ends it.
pub fn decide(
    run_id: String,
    config: &Config,
    scope: &Scope,
    outcomes: &[Result<FormatResult, String>],
    sandbox: Option<Result<GateResult, String>>,
) -> (decision: Result<Decision, String>)
    requires
        outcomes@.len() == scope.files@.len(),
        failures(outcome_views(outcomes@)).len() == 0 ==> {
            let results = formatted(outcome_views(outcomes@));
            &&& report::reportable(results)
            &&& config.verify_fmt_check ==> all_tested(results)
            &&& due(config@, scope@, results) ==> sandbox is Some
        },
    ensures
        decided_view(decision) == decided(
            run_id@,
            config@,
            scope@,
            outcome_views(outcomes@),
            sandbox_view(sandbox),
        ),
{
    let results = match gather(outcomes) {
        Ok(results) => results,
        Err(message) => {
            return Err(message);
        },
    };
    let gate = match sandbox {
        Some(Ok(gate)) => Some(gate),
        Some(Err(message)) => {
            let (pass, _) = check(scope, results.as_slice(), &config.budget);
            if needs_sandbox(config, pass) {
                return Err(message);
            }
            None
        },
        None => None,
    };
    Ok(settle(run_id, config, scope, results.as_slice(), gate))
}

/// The exit status of a run: its own, or that of a failure.
pub open spec fn status_of<T>(run: Result<u8, T>) -> u8 {
    match run {
        Ok(code) => code,
        Err(_) => 2,
    }
}

/// The exit code of a program that ran: that of the run, or two where it ended in
/// an error.
pub fn exit_status<T>(run: &Result<u8, T>) -> (code: u8)
    ensures
        code == status_of(*run),
{
    match run {
        Ok(code) => *code,
        Err(_) => 2,
    }
}

/// The report of a run that has nothing to do, if it has nothing to do.
pub open spec fn quiet_report(
    run_id: Seq<char>,
    config: ConfigView,
    scope: ScopeView,
) -> Option<ReportView> {
    if scope.files.len() == 0 {
        Some(
            report::report_of(
                run_id,
                scope,
                Seq::empty(),
                Seq::empty(),
                true,
                mode_text(config.apply),
            ),
        )
    } else {
        None
    }
}

/// The report of a run that has nothing to do; `None` where its scope has files.
pub fn nothing_to_do(run_id: &str, config: &Config, scope: &Scope) -> (report: Option<Report>)
    ensures
        match report {
            Some(report) => quiet_report(run_id@, config@, scope@) == Some(report@),
            None => quiet_report(run_id@, config@, scope@) is None,
        },
{
    if scope.files.len() > 0 {
        return None;
    }
    let results: Vec<FormatResult> = Vec::new();
    let gates: Vec<GateResult> = Vec::new();
    assert(engine::result_views(results@) == Seq::<FormatView>::empty());
    assert(gates::gate_views(gates@) == Seq::<GateView>::empty());
    let mode = mode_of(config.apply);
    Some(
        build_report(
            run_id.to_string(),
            scope,
            results.as_slice(),
            gates.as_slice(),
            true,
            mode.as_str(),
        ),
    )
}

/// What a run writes: what was decided, and nothing where it ended in an error.
pub open spec fn run_writes(decided: Result<DecisionView, Seq<char>>) -> Seq<
    (Seq<char>, Seq<char>),
> {
    match decided {
        Ok(decision) => decision.writes,
        Err(_) => Seq::empty(),
    }
}

/// One file that could not be formatted fails the whole run: there is no
/// decision, nothing is written, not even the files that could be formatted, and
/// the error names why.
pub proof fn law_failed_file_ends_the_run(
    run_id: Seq<char>,
    config: ConfigView,
    scope: ScopeView,
    outcomes: Seq<Result<FormatView, Seq<char>>>,
    sandbox: Option<Result<GateView, Seq<char>>>,
    i: int,
)
    requires
        0 <= i < outcomes.len(),
        outcomes[i] is Err,
    ensures
        ({
            let d = decided(run_id, config, scope, outcomes, sandbox);
            &&& d == Err::<DecisionView, Seq<char>>(failure_text(failures(outcomes)))
            &&& failures(outcomes).contains(outcomes[i]->Err_0)
            &&& run_writes(d).len() == 0
        }),
{
    lemma_failures(outcomes, i);
}

proof fn lemma_failures(outcomes: Seq<Result<FormatView, Seq<char>>>, i: int)
    requires
        0 <= i < outcomes.len(),
        outcomes[i] is Err,
    ensures
        failures(outcomes).contains(outcomes[i]->Err_0),
        failures(outcomes).len() > 0,
    decreases outcomes.len(),
{
    let all = failures(outcomes);
    if i == outcomes.len() - 1 {
        assert(all[all.len() - 1] == outcomes[i]->Err_0);
    } else {
        let before = failures(outcomes.drop_last());
        lemma_failures(outcomes.drop_last(), i);
        let k = choose|k: int| 0 <= k < before.len() && before[k] == outcomes[i]->Err_0;
        assert(all[k] == before[k]);
    }
}

/// A run that is decided has a result for each file of its scope, and those are
/// what it was decided on.
pub proof fn law_decided_on_every_file(
    run_id: Seq<char>,
    config: ConfigView,
    scope: ScopeView,
    outcomes: Seq<Result<FormatView, Seq<char>>>,
    sandbox: Option<Result<GateView, Seq<char>>>,
)
    requires
        outcomes.len() == scope.files.len(),
        decided(run_id, config, scope, outcomes, sandbox) is Ok,
    ensures
        formatted(outcomes).len() == scope.files.len(),
        forall|i: int|
            0 <= i < outcomes.len() ==> #[trigger] outcomes[i] == Ok::<FormatView, Seq<char>>(
                formatted(outcomes)[i],
            ),
{
    lemma_no_failures(outcomes);
}

/// Where no file failed, each has its result.
pub proof fn lemma_no_failures(outcomes: Seq<Result<FormatView, Seq<char>>>)
    requires
        failures(outcomes).len() == 0,
    ensures
        formatted(outcomes).len() == outcomes.len(),
        forall|i: int|
            0 <= i < outcomes.len() ==> #[trigger] outcomes[i] == Ok::<FormatView, Seq<char>>(
                formatted(outcomes)[i],
            ),
    decreases outcomes.len(),
{
    if outcomes.len() > 0 {
        let before = outcomes.drop_last();
        lemma_no_failures(before);
        assert forall|i: int| 0 <= i < outcomes.len() implies #[trigger] outcomes[i] == Ok::<
            FormatView,
            Seq<char>,
        >(formatted(outcomes)[i]) by {
            if i < before.len() {
                assert(before[i] == outcomes[i]);
            }
        }
    }
}

/// A sandbox that was due and could not look ends the run, with nothing written.
pub proof fn law_failed_sandbox_ends_the_run(
    run_id: Seq<char>,
    config: ConfigView,
    scope: ScopeView,
    outcomes: Seq<Result<FormatView, Seq<char>>>,
    message: Seq<char>,
)
    requires
        due(config, scope, formatted(outcomes)),
    ensures
        ({
            let d = decided(run_id, config, scope, outcomes, Some(Err(message)));
            &&& d is Err
            &&& run_writes(d).len() == 0
        }),
{
}

/// A run is accepted exactly where the results keep the rules and the sandbox,
/// where it was due, passed.
pub proof fn law_exit_code(
    run_id: Seq<char>,
    config: ConfigView,
    scope: ScopeView,
    results: Seq<FormatView>,
    sandbox: Option<GateView>,
)
    requires
        sandbox_due(
            config.apply,
            config.sandbox,
            gates::all_pass(gates::all_gates(scope.files, results, config.budget)),
        ) ==> sandbox is Some,
    ensures
        ({
            let d = decision_of(run_id, config, scope, results, sandbox);
            &&& d.pass <==> gates::acceptable(scope.files, results, config.budget) && (config.apply
                && config.sandbox ==> sandbox is Some && sandbox->0.pass)
            &&& d.exit_code == 0 <==> d.pass
            &&& d.exit_code == 1 <==> !d.pass
            &&& d.report.verdict == report::verdict_text(d.pass)
        }),
{
    gates::law_gates_decide(scope.files, results, config.budget);
    let found = gates::all_gates(scope.files, results, config.budget);
    if sandbox_due(config.apply, config.sandbox, gates::all_pass(found)) {
        let gate = sandbox->0;
        let now = found.push(gate);
        assert forall|i: int| 0 <= i < found.len() implies (#[trigger] now[i]).pass by {
            assert(found[i].pass);
        }
        assert(now[now.len() - 1] == gate);
        assert(gates::all_pass(now) <==> gate.pass);
    }
}

/// One failing gate rejects the whole run: nothing is written, the exit code is
/// one, and the report says so.
pub proof fn law_rejected_run_writes_nothing(
    run_id: Seq<char>,
    config: ConfigView,
    scope: ScopeView,
    results: Seq<FormatView>,
    sandbox: Option<GateView>,
    i: int,
)
    requires
        0 <= i < settled_gates(config, scope.files, results, sandbox).len(),
        !settled_gates(config, scope.files, results, sandbox)[i].pass,
    ensures
        ({
            let d = decision_of(run_id, config, scope, results, sandbox);
            &&& d.writes.len() == 0
            &&& d.exit_code == 1
            &&& d.report.verdict == "rejected"@
            &&& d.report.rejections.len() > 0
        }),
{
    report::law_rejections(settled_gates(config, scope.files, results, sandbox));
}

/// A dry run writes nothing.
pub proof fn law_dry_run_writes_nothing(
    run_id: Seq<char>,
    config: ConfigView,
    scope: ScopeView,
    results: Seq<FormatView>,
    sandbox: Option<GateView>,
)
    requires
        !config.apply,
    ensures
        decision_of(run_id, config, scope, results, sandbox).writes.len() == 0,
{
}

/// Every write of a run goes to a file of its scope, and holds what formatting
/// made of that file.
pub proof fn law_writes_stay_in_scope(
    run_id: Seq<char>,
    config: ConfigView,
    scope: ScopeView,
    results: Seq<FormatView>,
    sandbox: Option<GateView>,
    i: int,
)
    requires
        0 <= i < decision_of(run_id, config, scope, results, sandbox).writes.len(),
        sandbox_due(
            config.apply,
            config.sandbox,
            gates::all_pass(gates::all_gates(scope.files, results, config.budget)),
        ) ==> sandbox is Some,
    ensures
        ({
            let write = decision_of(run_id, config, scope, results, sandbox).writes[i];
            &&& config.apply
            &&& gates::in_files(scope.files, write.0)
            &&& exists|j: int|
                0 <= j < results.len() && (#[trigger] results[j]).changed && results[j].path
                    == write.0 && results[j].new_content == Some(write.1)
        }),
{
    law_exit_code(run_id, config, scope, results, sandbox);
    let j = lemma_changed_contents(results, i);
    assert(results[j].changed);
}

proof fn lemma_changed_contents(results: Seq<FormatView>, i: int) -> (j: int)
    requires
        0 <= i < changed_contents(results).len(),
    ensures
        0 <= j < results.len(),
        results[j].changed,
        results[j].path == changed_contents(results)[i].0,
        results[j].new_content == Some(changed_contents(results)[i].1),
    decreases results.len(),
{
    if i < changed_contents(results.drop_last()).len() {
        lemma_changed_contents(results.drop_last(), i)
    } else {
        results.len() - 1
    }
}

/// A run that was asked to test whole files accepts only files that the
/// formatter leaves as they are.
pub proof fn law_asked_for_clean_files(
    run_id: Seq<char>,
    config: ConfigView,
    scope: ScopeView,
    results: Seq<FormatView>,
    sandbox: Option<GateView>,
    i: int,
)
    requires
        config.verify_fmt_check,
        all_tested(results),
        sandbox_due(
            config.apply,
            config.sandbox,
            gates::all_pass(gates::all_gates(scope.files, results, config.budget)),
        ) ==> sandbox is Some,
        decision_of(run_id, config, scope, results, sandbox).pass,
        0 <= i < results.len(),
    ensures
        results[i].fmt_clean == Some(true),
{
    law_exit_code(run_id, config, scope, results, sandbox);
    assert(results[i].fmt_clean is Some);
    assert(results[i].fmt_clean != Some(false));
    match results[i].fmt_clean {
        Some(clean) => assert(clean),
        None => {},
    }
}

/// What a run makes of one file, with a formatter given as a function of the
/// text; `tested` where it tests whole files, `times` how long the two passes
/// took.
pub open spec fn file_outcome(
    file: ScopedFileView,
    original: Seq<char>,
    rustfmt: spec_fn(Seq<char>) -> Seq<char>,
    tested: bool,
    times: (int, int),
) -> FormatView {
    let r = engine::format_result(
        file,
        original,
        rustfmt(original),
        Some(rustfmt(rustfmt(original))),
        times.0,
        times.1,
    );
    if tested {
        engine::with_clean(r, original, rustfmt(engine::candidate_of(r, original)))
    } else {
        r
    }
}

/// What a run makes of its files.
pub open spec fn outcomes(
    files: Seq<ScopedFileView>,
    originals: Seq<Seq<char>>,
    rustfmt: spec_fn(Seq<char>) -> Seq<char>,
    tested: bool,
    times: Seq<(int, int)>,
) -> Seq<FormatView> {
    Seq::new(
        files.len(),
        |i: int| file_outcome(files[i], originals[i], rustfmt, tested, times[i]),
    )
}

/// The texts of the files once the results are written.
pub open spec fn written(results: Seq<FormatView>, originals: Seq<Seq<char>>) -> Seq<Seq<char>> {
    Seq::new(results.len(), |i: int| engine::candidate_of(results[i], originals[i]))
}

/// Where no result changes anything, the gates pass whatever the budget, and
/// there is nothing to write or to show.
pub proof fn law_unchanged_results_pass(
    run_id: Seq<char>,
    config: ConfigView,
    scope: ScopeView,
    results: Seq<FormatView>,
    sandbox: Option<GateView>,
)
    requires
        forall|i: int|
            0 <= i < results.len() ==> !(#[trigger] results[i]).changed
                && results[i].added_lines == 0 && results[i].fmt_clean != Some(false),
        config.apply && config.sandbox ==> sandbox is Some && sandbox->0.pass,
    ensures
        ({
            let d = decision_of(run_id, config, scope, results, sandbox);
            &&& d.pass
            &&& d.exit_code == 0
            &&& d.writes.len() == 0
            &&& d.report.stats.files_changed == 0
            &&& d.report.patch is None
            &&& d.report.rejections.len() == 0
        }),
{
    lemma_unchanged(results);
    assert forall|i: int| 0 <= i < scope.files.len() implies !gates::ratio_applies(
        #[trigger] scope.files[i],
        results,
    ) by {
        lemma_nothing_added(results, scope.files[i].path);
    }
    law_exit_code(run_id, config, scope, results, sandbox);
    report::law_rejections(settled_gates(config, scope.files, results, sandbox));
}

proof fn lemma_unchanged(results: Seq<FormatView>)
    requires
        forall|i: int| 0 <= i < results.len() ==> !(#[trigger] results[i]).changed,
    ensures
        gates::changed_count(results) == 0,
        changed_contents(results).len() == 0,
    decreases results.len(),
{
    if results.len() > 0 {
        lemma_unchanged(results.drop_last());
        assert(!results.last().changed);
    }
}

proof fn lemma_nothing_added(results: Seq<FormatView>, path: Seq<char>)
    requires
        forall|i: int| 0 <= i < results.len() ==> (#[trigger] results[i]).added_lines == 0,
    ensures
        gates::added_for(results, path) == 0,
    decreases results.len(),
{
    if results.len() > 0 {
        assert forall|i: int| 0 <= i < results.skip(1).len() implies (#[trigger] results.skip(
            1,
        )[i]).added_lines == 0 by {
            assert(results.skip(1)[i] == results[i + 1]);
        }
        lemma_nothing_added(results.skip(1), path);
    }
}

/// A second run over whole files has nothing to do: once an accepted run has
/// written its files, a run with the same formatter, whatever its budget and its
/// ranges, changes no file, writes nothing, shows no patch and is accepted.
pub proof fn law_second_run_has_nothing_to_do(
    run_id: Seq<char>,
    config: ConfigView,
    scope: ScopeView,
    originals: Seq<Seq<char>>,
    rustfmt: spec_fn(Seq<char>) -> Seq<char>,
    times: Seq<(int, int)>,
    sandbox: Option<GateView>,
    next_id: Seq<char>,
    next: ConfigView,
    next_scope: ScopeView,
    next_times: Seq<(int, int)>,
    next_sandbox: Option<GateView>,
)
    requires
        originals.len() == scope.files.len(),
        next_scope.files.len() == scope.files.len(),
        forall|i: int|
            0 <= i < scope.files.len() ==> {
                &&& (#[trigger] scope.files[i]).ranges.len() == 0
                &&& rustfmt(originals[i]) != originals[i] ==> engine::diff_holds(
                    originals[i],
                    rustfmt(originals[i]),
                )
            },
        ({
            let results = outcomes(
                scope.files,
                originals,
                rustfmt,
                config.verify_fmt_check,
                times,
            );
            &&& sandbox_due(
                config.apply,
                config.sandbox,
                gates::all_pass(gates::all_gates(scope.files, results, config.budget)),
            ) ==> sandbox is Some
            &&& decision_of(run_id, config, scope, results, sandbox).pass
        }),
        next.apply && next.sandbox ==> next_sandbox is Some && next_sandbox->0.pass,
    ensures
        ({
            let results = outcomes(
                scope.files,
                originals,
                rustfmt,
                config.verify_fmt_check,
                times,
            );
            let again = outcomes(
                next_scope.files,
                written(results, originals),
                rustfmt,
                next.verify_fmt_check,
                next_times,
            );
            let d = decision_of(next_id, next, next_scope, again, next_sandbox);
            &&& forall|i: int| 0 <= i < again.len() ==> !(#[trigger] again[i]).changed
            &&& d.pass
            &&& d.exit_code == 0
            &&& d.writes.len() == 0
            &&& d.report.stats.files_changed == 0
            &&& d.report.patch is None
        }),
{
    let results = outcomes(scope.files, originals, rustfmt, config.verify_fmt_check, times);
    let texts = written(results, originals);
    let again = outcomes(
        next_scope.files,
        texts,
        rustfmt,
        next.verify_fmt_check,
        next_times,
    );
    law_exit_code(run_id, config, scope, results, sandbox);
    assert forall|i: int| 0 <= i < again.len() implies !(#[trigger] again[i]).changed
        && again[i].added_lines == 0 && again[i].fmt_clean != Some(false) by {
        assert(scope.files[i].ranges.len() == 0);
        let plain = file_outcome(scope.files[i], originals[i], rustfmt, false, times[i]);
        engine::law_formatted_file_is_left_alone(
            scope.files[i],
            originals[i],
            rustfmt,
            times[i].0,
            times[i].1,
        );
        assert(results[i].changed ==> results[i].idempotent);
        assert(results[i].changed == plain.changed && results[i].idempotent == plain.idempotent);
        assert(texts[i] == engine::candidate_of(plain, originals[i]));
        assert(rustfmt(texts[i]) == texts[i]);
    }
    law_unchanged_results_pass(next_id, next, next_scope, again, next_sandbox);
}

} // verus!
