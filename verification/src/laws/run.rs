//! Laws of a run: what is written, and what ends it.

use crate::cli::ConfigView;
use crate::engine::FormatView;
use crate::gates::GateView;
use crate::laws;
use crate::run;
use crate::sandbox;
use crate::text;
use crate::types::ScopeView;
use vstd::prelude::*;

verus! {

/// What the changed results would write: each once, in order.
pub proof fn law_changed_contents(results: Seq<FormatView>)
    ensures
        run::changed_contents(results) == results.filter(
            |r: FormatView| r.changed && r.new_content is Some,
        ).map_values(|r: FormatView| (r.path, r.new_content->0)),
    decreases results.len(),
{
    reveal(Seq::filter);
    let pred = |r: FormatView| r.changed && r.new_content is Some;
    let write = |r: FormatView| (r.path, r.new_content->0);
    if results.len() == 0 {
        assert(results.filter(pred).map_values(write) == Seq::<(Seq<char>, Seq<char>)>::empty());
    } else {
        let before = results.drop_last();
        let r = results.last();
        law_changed_contents(before);
        if pred(r) {
            assert(before.filter(pred).push(r).map_values(write) == before.filter(pred).map_values(
                write,
            ).push(write(r)));
        }
    }
}

/// An accepted run that applies writes every changed file: for each there is a
/// write of its path with its new content, and there are no other writes.
pub proof fn law_every_changed_file_is_written(
    run_id: Seq<char>,
    config: ConfigView,
    scope: ScopeView,
    results: Seq<FormatView>,
    sandbox: Option<GateView>,
)
    requires
        config.apply,
        run::decision_of(run_id, config, scope, results, sandbox).pass,
        forall|i: int|
            0 <= i < results.len() && (#[trigger] results[i]).changed ==> results[i].new_content
                is Some,
    ensures
        ({
            let writes = run::decision_of(run_id, config, scope, results, sandbox).writes;
            &&& forall|i: int|
                0 <= i < results.len() && (#[trigger] results[i]).changed ==> writes.contains(
                    (results[i].path, results[i].new_content->0),
                )
            &&& writes.len() == laws::gates::changed_ones(results).len()
            &&& writes.len() == run::decision_of(
                run_id,
                config,
                scope,
                results,
                sandbox,
            ).report.stats.files_changed || results.len() > usize::MAX
        }),
{
    law_changed_contents(results);
    let pred = |r: FormatView| r.changed && r.new_content is Some;
    let write = |r: FormatView| (r.path, r.new_content->0);
    let writes = run::decision_of(run_id, config, scope, results, sandbox).writes;
    let chosen = results.filter(pred);
    assert forall|i: int|
        0 <= i < results.len() && (#[trigger] results[i]).changed implies writes.contains(
        (results[i].path, results[i].new_content->0),
    ) by {
        assert(pred(results[i]));
        results.lemma_filter_contains(pred, i);
        let k = choose|k: int| 0 <= k < chosen.len() && chosen[k] == results[i];
        assert(writes[k] == write(results[i]));
    }
    lemma_same_filter(results);
    laws::gates::law_changed_count(results);
    results.lemma_filter_len(|r: FormatView| r.changed);
}

proof fn lemma_same_filter(results: Seq<FormatView>)
    requires
        forall|i: int|
            0 <= i < results.len() && (#[trigger] results[i]).changed ==> results[i].new_content
                is Some,
    ensures
        results.filter(|r: FormatView| r.changed && r.new_content is Some)
            == laws::gates::changed_ones(results),
    decreases results.len(),
{
    reveal(Seq::filter);
    if results.len() > 0 {
        let before = results.drop_last();
        assert forall|i: int|
            0 <= i < before.len() && (#[trigger] before[i]).changed implies before[i].new_content
            is Some by {
            assert(results[i].changed);
        }
        lemma_same_filter(before);
        assert(results[results.len() - 1].changed ==> results[results.len() - 1].new_content
            is Some);
    }
}

/// Nothing is written unless the run applies and is accepted, and a write is
/// always the new content of a changed result.
pub proof fn law_nothing_else_is_written(
    run_id: Seq<char>,
    config: ConfigView,
    scope: ScopeView,
    results: Seq<FormatView>,
    sandbox: Option<GateView>,
    k: int,
)
    requires
        0 <= k < run::decision_of(run_id, config, scope, results, sandbox).writes.len(),
    ensures
        ({
            let d = run::decision_of(run_id, config, scope, results, sandbox);
            &&& config.apply
            &&& d.pass
            &&& exists|i: int|
                0 <= i < results.len() && (#[trigger] results[i]).changed && results[i].path
                    == d.writes[k].0 && results[i].new_content == Some(d.writes[k].1)
        }),
{
    law_changed_contents(results);
    let pred = |r: FormatView| r.changed && r.new_content is Some;
    let chosen = results.filter(pred);
    results.lemma_filter_pred(pred, k);
    lemma_filter_from(results, pred, k);
    let i = choose|i: int| 0 <= i < results.len() && results[i] == chosen[k];
    assert(results[i].changed);
}

proof fn lemma_filter_from(results: Seq<FormatView>, pred: spec_fn(FormatView) -> bool, k: int)
    requires
        0 <= k < results.filter(pred).len(),
    ensures
        exists|i: int| 0 <= i < results.len() && results[i] == results.filter(pred)[k],
    decreases results.len(),
{
    reveal(Seq::filter);
    let before = results.drop_last();
    if k < before.filter(pred).len() {
        lemma_filter_from(before, pred, k);
        let i = choose|i: int| 0 <= i < before.len() && before[i] == before.filter(pred)[k];
        assert(results[i] == results.filter(pred)[k]);
    } else {
        assert(results[results.len() - 1] == results.filter(pred)[k]);
    }
}

/// What came of the files is parted into results and errors, in order, and
/// nothing is lost.
pub proof fn law_outcomes_are_parted(outcomes: Seq<Result<FormatView, Seq<char>>>)
    ensures
        run::formatted(outcomes) == outcomes.filter(
            |o: Result<FormatView, Seq<char>>| o is Ok,
        ).map_values(|o: Result<FormatView, Seq<char>>| o->Ok_0),
        run::failures(outcomes) == outcomes.filter(
            |o: Result<FormatView, Seq<char>>| o is Err,
        ).map_values(|o: Result<FormatView, Seq<char>>| o->Err_0),
        run::formatted(outcomes).len() + run::failures(outcomes).len() == outcomes.len(),
    decreases outcomes.len(),
{
    reveal(Seq::filter);
    let good = |o: Result<FormatView, Seq<char>>| o is Ok;
    let bad = |o: Result<FormatView, Seq<char>>| o is Err;
    let result = |o: Result<FormatView, Seq<char>>| o->Ok_0;
    let error = |o: Result<FormatView, Seq<char>>| o->Err_0;
    if outcomes.len() == 0 {
        assert(outcomes.filter(good).map_values(result) == Seq::<FormatView>::empty());
        assert(outcomes.filter(bad).map_values(error) == Seq::<Seq<char>>::empty());
    } else {
        let before = outcomes.drop_last();
        let o = outcomes.last();
        law_outcomes_are_parted(before);
        assert(before.filter(good).push(o).map_values(result) == before.filter(good).map_values(
            result,
        ).push(result(o)));
        assert(before.filter(bad).push(o).map_values(error) == before.filter(bad).map_values(
            error,
        ).push(error(o)));
    }
}

/// The error of a run starts with how many files failed and ends with why, the
/// reasons one behind the other.
pub proof fn law_failure_text(errors: Seq<Seq<char>>)
    ensures
        exists|middle: Seq<char>|
            run::failure_text(errors) == #[trigger] (text::decimal(errors.len()) + middle
                + text::join(errors, "; "@)),
{
    let middle = " file(s) could not be formatted; run aborted (fail-closed): "@;
    assert(run::failure_text(errors) == text::decimal(errors.len()) + middle + text::join(
        errors,
        "; "@,
    ));
}

/// The sandbox is due exactly where the run applies, the sandbox was asked for,
/// and every gate before it passed.
pub proof fn law_sandbox_due(apply: bool, sandbox: bool, pass: bool)
    ensures
        run::sandbox_due(apply, sandbox, pass) <==> apply && sandbox && pass,
        run::mode_text(apply) == if apply {
            "apply"@
        } else {
            "dry-run"@
        },
{
}

/// What the sandbox found counts where it was due, and only there.
pub proof fn law_sandbox_counts_where_due(
    run_id: Seq<char>,
    config: ConfigView,
    scope: ScopeView,
    results: Seq<FormatView>,
    gate: GateView,
)
    ensures
        ({
            let found = crate::gates::all_gates(scope.files, results, config.budget);
            let d = run::decision_of(run_id, config, scope, results, Some(gate));
            &&& config.apply && config.sandbox && crate::gates::all_pass(found) ==> d.gates
                == found.push(gate)
            &&& !(config.apply && config.sandbox && crate::gates::all_pass(found)) ==> d.gates
                == found
            &&& run::decision_of(run_id, config, scope, results, None).gates == found
            &&& d.report.gates == d.gates
            &&& d.exit_code == if d.pass {
                0u8
            } else {
                1u8
            }
        }),
{
}

/// Every changed file is put into the worktree with what formatting made of it,
/// and no other file.
pub proof fn law_worktree_gets_every_change(results: Seq<FormatView>)
    ensures
        sandbox::files_to_verify(results) == laws::gates::changed_ones(results).map_values(
            |r: FormatView| (r.path, r.new_content),
        ),
    decreases results.len(),
{
    reveal(Seq::filter);
    let changed = |r: FormatView| r.changed;
    let file = |r: FormatView| (r.path, r.new_content);
    if results.len() == 0 {
        assert(results.filter(changed).map_values(file) == Seq::<
            (Seq<char>, Option<Seq<char>>),
        >::empty());
    } else {
        let before = results.drop_last();
        let r = results.last();
        law_worktree_gets_every_change(before);
        assert(before.filter(changed).push(r).map_values(file) == before.filter(changed).map_values(
            file,
        ).push(file(r)));
    }
}

/// What the sandbox finds is a gate only for a scope of git, and then it says why
/// it failed: what git printed, or else what cargo printed.
pub proof fn law_sandbox_says_why(
    scope: ScopeView,
    results: Seq<FormatView>,
    checks: sandbox::ChecksView,
    message: Seq<char>,
)
    ensures
        scope.vcs != Some(crate::types::Vcs::Git) ==> sandbox::sandbox_verdict(
            scope,
            results,
            Ok(checks),
        ) is Err,
        scope.vcs == Some(crate::types::Vcs::Git) ==> {
            let verdict = sandbox::sandbox_verdict(scope, results, Ok(checks));
            &&& verdict is Ok
            &&& verdict->Ok_0.gate == "sandbox.verify"@
            &&& !checks.diff_check.success ==> text::ends_with(
                verdict->Ok_0.detail,
                text::trim(checks.diff_check.stderr),
            )
            &&& checks.diff_check.success && checks.cargo_check is Some
                && !checks.cargo_check->0.success ==> text::ends_with(
                verdict->Ok_0.detail,
                text::trim(checks.cargo_check->0.stderr),
            )
        },
        scope.vcs == Some(crate::types::Vcs::Git) ==> sandbox::sandbox_verdict(
            scope,
            results,
            Err(message),
        ) == Err::<GateView, Seq<char>>(message),
{
    let a = "sandbox verification failed: git diff --check reported problems:\n"@;
    let b = "sandbox verification failed: cargo check reported problems:\n"@;
    let x = text::trim(checks.diff_check.stderr);
    assert((a + x).skip((a + x).len() - x.len()) == x);
    match checks.cargo_check {
        Some(output) => {
            let y = text::trim(output.stderr);
            assert((b + y).skip((b + y).len() - y.len()) == y);
        },
        None => {},
    }
}

/// A configuration is refused exactly where it asks for the sandbox without
/// applying: dry runs and plain runs are not.
pub proof fn law_only_idle_sandboxes_are_refused(apply: bool, sandbox: bool)
    ensures
        run::config_fault(true, sandbox) is None,
        run::config_fault(apply, false) is None,
        run::config_fault(false, true) is Some,
{
}

/// A run that ended exits with its own status, and one that failed with two.
pub proof fn law_exit_status<T>(code: u8, failure: T)
    ensures
        run::status_of::<T>(Ok(code)) == code,
        run::status_of::<T>(Err(failure)) == 2,
{
}

/// A run has nothing to do exactly where its scope has no file. Its report is that
/// all is well: it has no files, gates or patch, and counts nothing.
pub proof fn law_empty_scopes_are_reported(
    run_id: Seq<char>,
    config: ConfigView,
    scope: ScopeView,
)
    ensures
        run::quiet_report(run_id, config, scope) is Some <==> scope.files.len() == 0,
        run::quiet_report(run_id, config, scope) matches Some(quiet) ==> {
            &&& quiet.run_id == run_id
            &&& quiet.verdict == "ok"@
            &&& config.apply ==> quiet.mode == "apply"@
            &&& !config.apply ==> quiet.mode == "dry-run"@
            &&& quiet.scope == scope
            &&& quiet.files.len() == 0
            &&& quiet.gates.len() == 0
            &&& quiet.rejections.len() == 0
            &&& quiet.patch is None
            &&& quiet.stats.files_scanned == 0
            &&& quiet.stats.files_changed == 0
            &&& quiet.stats.added_lines == 0
            &&& quiet.stats.removed_lines == 0
        },
{
}

} // verus!
