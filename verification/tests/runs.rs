use fmtguard::cli::{Config, Emit};
use fmtguard::engine::{candidate, format_file, FormatResult};
use fmtguard::events::{event_line, fields_of, new_run_id, Event};
use fmtguard::gates::{GateResult, Measure};
use fmtguard::journal::{
    apply_event, close, emit_event, gate_event, opening_events, outcome_event, print_report,
    result_event, scope_event, select_event, start_event,
};
use fmtguard::json::{json_object, parse, Json, Real};
use fmtguard::replay::{log_step, rebuild_report, replay, LogLines, LogStep, ReplayError};
use fmtguard::run::{
    check_config, decide, engine_failure, exit_status, gather, keep_ranged, needs_sandbox,
    nothing_to_do, planned_writes, scope_of_changeset, Decision,
};
use fmtguard::sandbox::{
    add_command, add_failed, cargo_command, check_command, remove_command, sandbox_files,
    supported, verify, worktree_name, CheckOutput, Checks,
};
use fmtguard::scope::default_excludes;
use fmtguard::types::{ChangeSet, LineRange, Scope, ScopedFile, Vcs};

fn file(path: &str, ranges: Vec<LineRange>) -> ScopedFile {
    ScopedFile { path: path.to_string(), ranges, agent_added_lines: Some(1) }
}

fn scope(vcs: Option<Vcs>) -> Scope {
    Scope {
        vcs,
        base: "main".to_string(),
        source: "git-diff".to_string(),
        files: vec![file("a.rs", vec![LineRange::new(1, 2)]), file("b.rs", vec![])],
    }
}

fn empty_scope() -> Scope {
    Scope { files: vec![], ..scope(Some(Vcs::Git)) }
}

fn changed(path: &str, added: usize) -> FormatResult {
    FormatResult {
        path: path.to_string(),
        engine: "rustfmt-diff-intersect".to_string(),
        changed: true,
        idempotent: true,
        added_lines: added,
        removed_lines: 1,
        hunks_total: 2,
        hunks_kept: 1,
        patch: Some("@@ -1,1 +1,1 @@\n-a\n+b\n".to_string()),
        new_content: Some("b\n".to_string()),
        rustfmt_duration_ms: 12,
        first_pass_duration_ms: 10,
        idempotency_duration_ms: 2,
        fmt_clean: None,
    }
}

fn unchanged(path: &str) -> FormatResult {
    FormatResult {
        changed: false,
        added_lines: 0,
        removed_lines: 0,
        hunks_kept: 0,
        patch: None,
        new_content: None,
        ..changed(path, 0)
    }
}

fn gate(pass: bool) -> GateResult {
    GateResult {
        gate: "sandbox.verify".to_string(),
        pass,
        file: None,
        metric: None,
        limit: None,
        detail: "d".to_string(),
    }
}

fn applying(sandbox: bool) -> Config {
    Config { apply: true, sandbox, ..Config::default() }
}

#[test]
fn the_sandbox_needs_apply() {
    assert!(check_config(&Config::default()).is_ok());
    assert!(check_config(&applying(true)).is_ok());
    let error = check_config(&Config { sandbox: true, ..Config::default() }).unwrap_err();
    assert_eq!(
        error,
        "--sandbox requires --apply (it verifies the to-be-applied patch in an isolated worktree)"
    );
}

#[test]
fn a_change_set_is_a_scope() {
    let changes = ChangeSet {
        base_ref: "dev".to_string(),
        files: vec![file("vendor/x.rs", vec![]), file("a.rs", vec![])],
    };
    let scope = scope_of_changeset(changes, &default_excludes());
    assert_eq!((scope.vcs, scope.base.as_str(), scope.source.as_str()), (None, "dev", "changeset"));
    assert_eq!(scope.files.len(), 1);
    assert_eq!(scope.files[0].path, "a.rs");
}

#[test]
fn files_without_ranges_are_dropped() {
    let kept = keep_ranged(scope(Some(Vcs::Git)));
    assert_eq!(kept.files.len(), 1);
    assert_eq!(kept.files[0].path, "a.rs");
    assert_eq!(kept.base, "main");
}

fn all(results: &[FormatResult]) -> Vec<Result<FormatResult, String>> {
    results.iter().cloned().map(Ok).collect()
}

fn decided(config: &Config, results: &[FormatResult], sandbox: Option<GateResult>) -> Decision {
    let scope = scope(Some(Vcs::Git));
    decide("r".to_string(), config, &scope, &all(results), sandbox.map(Ok)).unwrap()
}

#[test]
fn one_failed_file_ends_the_run() {
    let outcomes = vec![Ok(changed("a.rs", 1)), Err("b.rs: no".to_string())];
    let wanted = "1 file(s) could not be formatted; run aborted (fail-closed): b.rs: no";
    let scope = scope(Some(Vcs::Git));
    let d = decide("r".to_string(), &applying(false), &scope, &outcomes, None);
    assert_eq!(d.unwrap_err(), wanted);
    assert_eq!(gather(&outcomes).unwrap_err(), wanted);
    let d = decide("r".to_string(), &applying(true), &scope, &outcomes, Some(Ok(gate(true))));
    assert_eq!(d.unwrap_err(), wanted);
    assert!(outcome_event(&outcomes[0]).is_some());
    assert!(outcome_event(&outcomes[1]).is_none());
    let both = vec![Err("a".to_string()), Err("b".to_string())];
    assert_eq!(
        gather(&both).unwrap_err(),
        "2 file(s) could not be formatted; run aborted (fail-closed): a; b"
    );
    let fine = gather(&all(&[changed("a.rs", 1), unchanged("b.rs")])).unwrap();
    assert_eq!((fine.len(), fine[0].changed, fine[1].changed), (2, true, false));
    assert_eq!(format!("{:?}", fine[0]), format!("{:?}", changed("a.rs", 1)));
}

#[test]
fn a_sandbox_that_cannot_look_ends_the_run() {
    let outcomes = all(&[changed("a.rs", 1), unchanged("b.rs")]);
    let scope = scope(Some(Vcs::Git));
    let gone = || Some(Err("gone".to_string()));
    let d = decide("r".to_string(), &applying(true), &scope, &outcomes, gone());
    assert_eq!(d.unwrap_err(), "gone");
    let d = decide("r".to_string(), &applying(false), &scope, &outcomes, gone()).unwrap();
    assert!(d.pass);
}

#[test]
fn an_error_exits_with_two() {
    assert_eq!(exit_status(&Err::<u8, String>("e".to_string())), 2);
    assert_eq!(exit_status(&Ok::<u8, String>(1)), 1);
    assert_eq!(exit_status(&Ok::<u8, String>(0)), 0);
}

#[test]
fn one_engine_error_ends_the_run() {
    assert!(engine_failure(&[]).is_none());
    assert_eq!(
        engine_failure(&["x".to_string(), "y".to_string()]).unwrap(),
        "2 file(s) could not be formatted; run aborted (fail-closed): x; y"
    );
}

#[test]
fn an_accepted_run_is_written() {
    let results = [changed("a.rs", 1), unchanged("b.rs")];
    let d = decided(&applying(false), &results, None);
    assert!(d.pass);
    assert_eq!(d.exit_code, 0);
    assert_eq!(d.writes.len(), 1);
    assert_eq!((d.writes[0].path.as_str(), d.writes[0].content.as_str()), ("a.rs", "b\n"));
    assert_eq!((d.report.verdict.as_str(), d.report.mode.as_str()), ("ok", "apply"));
}

#[test]
fn a_dry_run_writes_nothing() {
    let results = [changed("a.rs", 1), unchanged("b.rs")];
    let d = decided(&Config::default(), &results, None);
    assert!(d.pass && d.writes.is_empty());
    assert_eq!((d.exit_code, d.report.mode.as_str()), (0, "dry-run"));
}

#[test]
fn a_rejected_run_writes_nothing() {
    let results = [changed("a.rs", 1), changed("elsewhere.rs", 1)];
    let d = decided(&applying(false), &results, None);
    assert!(!d.pass && d.writes.is_empty());
    assert_eq!((d.exit_code, d.report.verdict.as_str()), (1, "rejected"));
    assert_eq!(d.report.rejections.len(), 1);
    assert!(planned_writes(true, false, &results).is_empty());
    assert!(planned_writes(false, true, &results).is_empty());
}

#[test]
fn the_sandbox_can_reject() {
    let results = [changed("a.rs", 1), unchanged("b.rs")];
    let config = applying(true);
    assert!(needs_sandbox(&config, true));
    assert!(!needs_sandbox(&config, false));
    assert!(!needs_sandbox(&applying(false), true));
    let d = decided(&config, &results, Some(gate(false)));
    assert!(!d.pass && d.writes.is_empty());
    assert_eq!(d.gates.last().unwrap().gate, "sandbox.verify");
    let d = decided(&config, &results, Some(gate(true)));
    assert!(d.pass);
    assert_eq!(d.writes.len(), 1);
}

#[test]
fn a_run_that_looks_at_whole_files_refuses_an_unclean_one() {
    let config = Config { verify_fmt_check: true, ..applying(false) };
    let other = || FormatResult { fmt_clean: Some(true), ..unchanged("b.rs") };
    let clean = FormatResult { fmt_clean: Some(true), ..changed("a.rs", 1) };
    let d = decided(&config, &[clean, other()], None);
    assert!(d.pass);
    assert_eq!(d.writes.len(), 1);
    let unclean = FormatResult { fmt_clean: Some(false), ..changed("a.rs", 1) };
    let d = decided(&config, &[unclean, other()], None);
    assert!(!d.pass && d.writes.is_empty());
    assert_eq!(d.exit_code, 1);
    assert_eq!(d.report.rejections[0].gate, "engine.fmt_check");
}

/// A formatter that puts a space behind each comma.
fn spaced(text: &str) -> String {
    text.replace(", ", ",").replace(',', ", ")
}

#[test]
fn a_second_run_has_nothing_to_do() {
    let scope = Scope {
        files: vec![file("a.rs", vec![]), file("b.rs", vec![])],
        ..scope(Some(Vcs::Git))
    };
    let run = |texts: &[String]| -> Vec<FormatResult> {
        let one = |(file, text): (&ScopedFile, &String)| {
            let once = spaced(text);
            let twice = Some(spaced(&once));
            format_file(file, text, &once, &twice, 1, 1)
        };
        scope.files.iter().zip(texts).map(one).collect()
    };
    let texts = vec!["f(a,b)\ng\n".to_string(), "h\n".to_string()];
    let results = run(&texts);
    let d = decide("r".to_string(), &applying(false), &scope, &all(&results), None).unwrap();
    assert!(d.pass);
    assert_eq!(d.writes.len(), 1);
    assert_eq!(d.writes[0].content, "f(a, b)\ng\n");
    let after: Vec<String> =
        results.iter().zip(&texts).map(|(r, text)| candidate(r, text)).collect();
    let again = run(&after);
    let d = decide("s".to_string(), &applying(false), &scope, &all(&again), None).unwrap();
    assert!(again.iter().all(|r| !r.changed));
    assert!(d.pass && d.writes.is_empty());
    assert_eq!((d.exit_code, d.report.stats.files_changed), (0, 0));
    assert!(d.report.patch.is_none());
}

#[test]
fn a_run_without_files_reports_so() {
    assert!(nothing_to_do("r", &Config::default(), &scope(None)).is_none());
    let report = nothing_to_do("r", &Config::default(), &empty_scope()).unwrap();
    assert_eq!((report.verdict.as_str(), report.mode.as_str()), ("ok", "dry-run"));
    assert_eq!(report.stats.files_scanned, 0);
    assert!(report.patch.is_none());
}

#[test]
fn the_worktree_and_its_commands() {
    assert_eq!(worktree_name("run-1"), "fmtguard-sandbox-run-1");
    assert_eq!(add_command("/t", "main"), ["git", "worktree", "add", "--detach", "/t", "main"]);
    assert_eq!(remove_command("/t"), ["git", "worktree", "remove", "--force", "/t"]);
    assert_eq!(check_command(), ["git", "diff", "--check"]);
    assert_eq!(cargo_command(), ["cargo", "check", "--quiet"]);
    assert_eq!(add_failed("/t", " no\n"), "git worktree add /t failed: no");
    let files = sandbox_files(&[unchanged("b.rs"), changed("a.rs", 1)]);
    assert_eq!(files.len(), 1);
    assert_eq!((files[0].path.as_str(), files[0].content.as_deref()), ("a.rs", Some("b\n")));
}

#[test]
fn the_worktree_decides() {
    let results = [changed("a.rs", 1)];
    let git = scope(Some(Vcs::Git));
    assert!(supported(&git));
    let good = || CheckOutput { success: true, stderr: String::new() };
    let bad = |stderr: &str| CheckOutput { success: false, stderr: stderr.to_string() };
    let clean = Ok(Checks { diff_check: good(), cargo_check: Some(good()) });
    let gate = verify(&git, &results, &clean).unwrap();
    assert!(gate.pass);
    assert_eq!(gate.gate, "sandbox.verify");
    assert_eq!(
        gate.detail,
        "sandbox worktree verified: 1 file(s) applied, git diff --check clean"
    );
    let dirty = Ok(Checks { diff_check: bad("a.rs:1\n"), cargo_check: None });
    let gate = verify(&git, &results, &dirty).unwrap();
    assert!(!gate.pass);
    assert_eq!(
        gate.detail,
        "sandbox verification failed: git diff --check reported problems:\na.rs:1"
    );
    let broken = Ok(Checks { diff_check: good(), cargo_check: Some(bad(" error[E0308]\n")) });
    let gate = verify(&git, &results, &broken).unwrap();
    assert!(!gate.pass);
    assert_eq!(gate.gate, "sandbox.verify");
    assert_eq!(
        gate.detail,
        "sandbox verification failed: cargo check reported problems:\nerror[E0308]"
    );
    let skipped = Ok(Checks { diff_check: good(), cargo_check: None });
    assert!(!verify(&git, &results, &skipped).unwrap().pass);
    assert_eq!(verify(&git, &results, &Err("gone".to_string())).unwrap_err(), "gone");
    let jj = scope(Some(Vcs::Jj));
    assert!(!supported(&jj));
    assert!(verify(&jj, &results, &clean).unwrap_err().starts_with("--sandbox currently requires"));
}

#[test]
fn run_ids_are_padded() {
    assert_eq!(new_run_id(1234567890123, 7), "run-1234567890123-7");
    assert_eq!(new_run_id(42, 0), "run-0000000000042-0");
    assert_eq!(new_run_id(12345678901234, 1), "run-12345678901234-1");
}

fn number(text: &str) -> Option<Real> {
    match parse(text).unwrap() {
        Json::Real(found) => Some(found),
        _ => None,
    }
}

#[test]
fn events_are_logged_in_order_of_their_members() {
    let start = start_event("run-1", "/w", &scope(Some(Vcs::Git)), &Config::default(), &None);
    assert_eq!(
        event_line(&start),
        r#"{"t":"run_start","run_id":"run-1","version":"0.2.0","cwd":"/w","base":"main","vcs":"git","source":"git-diff","rustfmt":"rustfmt","toolchain":"unknown","dry_run":true}"#
    );
    assert_eq!(
        event_line(&scope_event(&scope(None))),
        r#"{"t":"scope_detect","source":"git-diff","files":["a.rs","b.rs"],"excluded":[],"file_scopes":[{"agent_added_lines":1,"path":"a.rs","ranges":[{"end":2,"start":1}]},{"agent_added_lines":1,"path":"b.rs","ranges":[]}]}"#
    );
    assert_eq!(
        event_line(&select_event("a.rs", None)),
        r#"{"t":"engine_select","file":"a.rs","engine":"rustfmt-diff-intersect","edition":null}"#
    );
    assert_eq!(
        event_line(&result_event(&unchanged("a.rs"))),
        r#"{"t":"fmt_result","file":"a.rs","changed":false,"idempotent":true,"added_lines":0,"removed_lines":0,"hunks_total":2,"hunks_kept":0,"out_of_scope_hunks":2,"rustfmt_duration_ms":12,"first_pass_duration_ms":10,"idempotency_duration_ms":2}"#
    );
    assert!(event_line(&result_event(&changed("a.rs", 1))).ends_with(
        r#""first_pass_duration_ms":10,"idempotency_duration_ms":2,"patch":"@@ -1,1 +1,1 @@\n-a\n+b\n"}"#
    ));
    assert_eq!(
        event_line(&gate_event(&gate(true), number("1.5"), None)),
        r#"{"t":"gate_check","gate":"sandbox.verify","pass":true,"file":null,"metric":1.5,"limit":null,"detail":"d"}"#
    );
    assert_eq!(
        event_line(&apply_event(true, false, 0)),
        r#"{"t":"apply","dry_run":false,"applied_files":0,"refused":true}"#
    );
    let report = nothing_to_do("r", &Config::default(), &empty_scope()).unwrap();
    assert_eq!(
        event_line(&emit_event(&report, Emit::Patch)),
        r#"{"t":"report_emit","verdict":"ok","files_changed":0,"total_added":0,"total_removed":0,"outputs":["patch"]}"#
    );
}

fn log_of(lines: Vec<String>) -> Option<LogLines> {
    Some(LogLines { lines, failure: None })
}

#[test]
fn a_log_gives_the_report_back() {
    let config = applying(false);
    let scope = scope(Some(Vcs::Jj));
    let results = [changed("a.rs", 1), changed("b.rs", 9)];
    let d = decide("run-2".to_string(), &config, &scope, &all(&results), None).unwrap();
    assert!(!d.pass);
    let mut events: Vec<Event> = vec![
        start_event("run-2", "/w", &scope, &config, &Some("rustfmt 1.8".to_string())),
        scope_event(&scope),
    ];
    for r in &results {
        events.push(select_event(&r.path, Some("2021".to_string())));
        events.push(result_event(r));
    }
    for g in &d.gates {
        events.push(gate_event(g, number("2.0"), number("3.5")));
    }
    events.push(apply_event(config.apply, d.pass, 0));
    events.push(emit_event(&d.report, config.emit));

    let other = |id: &str| {
        event_line(&start_event(id, "/w", &scope, &Config::default(), &None))
    };
    let mut lines = vec![other("run-1"), String::new()];
    lines.extend(events.iter().map(event_line));
    lines.push(other("run-3"));
    lines.push("not json".to_string());
    let again = replay("run-2", "log", &log_of(lines)).unwrap();

    assert_eq!(again.run_id, "run-2");
    assert_eq!((again.verdict.as_str(), again.mode.as_str()), ("rejected", "apply"));
    assert_eq!(again.stats, d.report.stats);
    assert_eq!(again.patch, d.report.patch);
    assert_eq!(again.scope.vcs, Some(Vcs::Jj));
    assert_eq!((again.scope.base.as_str(), again.scope.source.as_str()), ("main", "git-diff"));
    let paths: Vec<&str> = again.scope.files.iter().map(|f| f.path.as_str()).collect();
    assert_eq!(paths, ["a.rs", "b.rs"]);
    assert_eq!(again.files.len(), 2);
    for (a, b) in again.files.iter().zip(&d.report.files) {
        assert_eq!(format!("{a:?}"), format!("{b:?}"));
    }
    assert_eq!(again.gates.len(), d.gates.len());
    assert_eq!(again.rejections.len(), d.report.rejections.len());
    for (a, b) in again.gates.iter().zip(&d.gates) {
        assert_eq!((&a.gate, a.pass, &a.file, &a.detail), (&b.gate, b.pass, &b.file, &b.detail));
        match &a.metric {
            Some(Measure::Recorded(metric)) => assert_eq!(metric.number().as_f64(), Some(2.0)),
            other => panic!("{other:?}"),
        }
    }
    let numbers: Vec<_> = d.gates.iter().map(|_| (number("2.0"), number("3.5"))).collect();
    let printed = print_report(d.report, &numbers);
    assert_eq!(format!("{again:?}"), format!("{printed:?}"));
}

#[test]
fn the_stages_of_a_run_are_replayed() {
    let config = applying(false);
    let scope = scope(Some(Vcs::Git));
    let outcomes = all(&[changed("a.rs", 1), unchanged("b.rs")]);
    let mut events = opening_events("run-5", "/w", &scope, &config, &None);
    for (file, outcome) in scope.files.iter().zip(&outcomes) {
        events.push(select_event(&file.path, None));
        events.extend(outcome_event(outcome));
    }
    let d = decide("run-5".to_string(), &config, &scope, &outcomes, None).unwrap();
    let numbers: Vec<_> = d.report.gates.iter().map(|_| (number("0.5"), None)).collect();
    let closing = close(d, &numbers, &config);
    assert_eq!(closing.gate_events.len(), closing.report.gates.len());
    assert_eq!((closing.writes.len(), closing.exit_code), (1, 0));
    assert_eq!(
        event_line(&closing.end_events[0]),
        r#"{"t":"apply","dry_run":false,"applied_files":1,"refused":false}"#
    );
    assert!(event_line(&closing.end_events[1]).starts_with(r#"{"t":"report_emit""#));
    assert_eq!(closing.end_events.len(), 2);
    events.extend(closing.gate_events);
    events.extend(closing.end_events);
    let lines: Vec<String> = events.iter().map(event_line).collect();
    let again = replay("run-5", "log", &log_of(lines)).unwrap();
    assert_eq!(format!("{again:?}"), format!("{:?}", closing.report));
}

#[test]
fn a_quiet_run_is_replayed_whole() {
    let scope = empty_scope();
    let config = Config::default();
    let lines = vec![
        event_line(&start_event("run-4", "/w", &scope, &config, &None)),
        event_line(&scope_event(&scope)),
    ];
    let again = replay("run-4", "log", &log_of(lines)).unwrap();
    let report = nothing_to_do("run-4", &config, &scope).unwrap();
    assert_eq!(format!("{again:?}"), format!("{report:?}"));
}

#[test]
fn old_logs_lack_the_newer_counts() {
    let lines = vec![
        r#"{"t":"run_start","run_id":"r"}"#.to_string(),
        r#"{"t":"scope_detect","files":["a.rs"]}"#.to_string(),
        r#"{"t":"fmt_result","file":"a.rs","changed":true,"hunks_total":3,"patch":""}"#.to_string(),
        r#"{"t":"gate_check","gate":"g","metric":-4,"limit":7}"#.to_string(),
        r#"{"t":"something"}"#.to_string(),
    ];
    let report = replay("r", "log", &log_of(lines)).unwrap();
    assert_eq!((report.verdict.as_str(), report.mode.as_str()), ("ok", "dry-run"));
    assert_eq!(report.scope.source, "replay");
    assert_eq!(report.scope.files.len(), 1);
    assert_eq!(report.scope.files[0].path, "a.rs");
    assert!(report.scope.files[0].ranges.is_empty());
    assert_eq!(report.stats.files_scanned, 1);
    assert_eq!(report.files[0].hunks_total, 3);
    assert_eq!(report.files[0].out_of_scope_hunks, 0);
    assert_eq!(report.files[0].rustfmt_duration_ms, 0);
    assert_eq!(report.files[0].first_pass_duration_ms, 0);
    assert_eq!(report.files[0].idempotency_duration_ms, 0);
    assert!(report.patch.is_none());
    assert!(matches!(report.gates[0].metric, Some(Measure::Negative(-4))));
    assert!(matches!(report.gates[0].limit, Some(Measure::Count(7))));
    assert!(!report.gates[0].pass);
}

#[test]
fn what_cannot_be_replayed_says_why() {
    let error = replay("r", "some/log", &None).unwrap_err();
    assert!(matches!(error, ReplayError::LogMissing(_)));
    assert_eq!(error.message(), "event log not found: some/log");
    let error = replay("r", "log", &log_of(vec!["  ".to_string()])).unwrap_err();
    assert_eq!(error.message(), "no run with id r in the log");
    let error = replay("r", "log", &log_of(vec!["{".to_string()])).unwrap_err();
    assert!(error.message().starts_with("corrupt event log: "));
    let unreadable = Some(LogLines {
        lines: vec![r#"{"t":"run_start","run_id":"r"}"#.to_string()],
        failure: Some("broken pipe".to_string()),
    });
    let error = replay("r", "log", &unreadable).unwrap_err();
    assert_eq!(error.message(), "corrupt event log: broken pipe");
}

#[test]
fn a_run_is_followed_from_its_start_to_the_next() {
    let start = |id: &str| parse(&format!(r#"{{"t":"run_start","run_id":"{id}"}}"#)).unwrap();
    let other = parse(r#"{"t":"apply"}"#).unwrap();
    assert_eq!(log_step(&start("a"), "a", false), LogStep::Take);
    assert_eq!(log_step(&start("b"), "a", false), LogStep::Skip);
    assert_eq!(log_step(&other, "a", false), LogStep::Skip);
    assert_eq!(log_step(&other, "a", true), LogStep::Take);
    assert_eq!(log_step(&start("b"), "a", true), LogStep::Stop);
    assert_eq!(log_step(&start("a"), "a", true), LogStep::Stop);
}

#[test]
fn events_are_read_as_they_are_built() {
    let events = [
        json_object(fields_of(&start_event("r", "/w", &scope(None), &applying(false), &None))),
        json_object(fields_of(&result_event(&changed("a.rs", 1)))),
    ];
    let report = rebuild_report("r", &events);
    assert_eq!((report.mode.as_str(), report.scope.base.as_str()), ("apply", "main"));
    assert_eq!(report.scope.vcs, None);
    assert_eq!(
        report.patch.as_deref(),
        Some("diff --git a/a.rs b/a.rs\n--- a/a.rs\n+++ b/a.rs\n@@ -1,1 +1,1 @@\n-a\n+b\n")
    );
}
