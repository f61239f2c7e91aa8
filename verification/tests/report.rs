use fmtguard::engine::FormatResult;
use fmtguard::gates::GateResult;
use fmtguard::report::{build_report, can_report, replay_line, summary_line, TOOL, VERSION};
use fmtguard::types::{Scope, Vcs};

fn result(path: &str, added: usize, removed: usize, patch: Option<&str>) -> FormatResult {
    FormatResult {
        path: path.to_string(),
        engine: "rustfmt-diff-intersect".to_string(),
        changed: patch.is_some(),
        idempotent: true,
        added_lines: added,
        removed_lines: removed,
        hunks_total: 3,
        hunks_kept: if patch.is_some() { 2 } else { 0 },
        patch: patch.map(|p| p.to_string()),
        new_content: patch.map(|_| "new\n".to_string()),
        rustfmt_duration_ms: 17,
        first_pass_duration_ms: 15,
        idempotency_duration_ms: 2,
        fmt_clean: None,
    }
}

fn gate(name: &str, pass: bool) -> GateResult {
    GateResult {
        gate: name.to_string(),
        pass,
        file: None,
        metric: None,
        limit: None,
        detail: String::new(),
    }
}

fn scope() -> Scope {
    Scope {
        vcs: Some(Vcs::Git),
        base: "HEAD".to_string(),
        source: "git-diff".to_string(),
        files: vec![],
    }
}

#[test]
fn the_report_sums_up() {
    let results = [result("a.rs", 2, 1, Some("@@ 1\n")), result("b.rs", 0, 0, None)];
    let gates = [gate("one", true), gate("two", false)];
    assert!(can_report(&results));
    let report = build_report("run-1".to_string(), &scope(), &results, &gates, false, "dry-run");
    assert_eq!((report.tool, report.version), (TOOL, VERSION));
    assert_eq!(TOOL, "fmtguard");
    assert_eq!((report.verdict.as_str(), report.mode.as_str()), ("rejected", "dry-run"));
    assert_eq!((report.stats.files_scanned, report.stats.files_changed), (2, 1));
    assert_eq!((report.stats.added_lines, report.stats.removed_lines), (2, 1));
    assert_eq!(report.files[0].out_of_scope_hunks, 1);
    assert_eq!(report.files[1].out_of_scope_hunks, 3);
    assert_eq!(report.files[0].rustfmt_duration_ms, 17);
    assert_eq!(report.files[0].first_pass_duration_ms, 15);
    assert_eq!(report.files[0].idempotency_duration_ms, 2);
    assert_eq!(report.gates.len(), 2);
    assert_eq!(report.rejections.len(), 1);
    assert_eq!(report.rejections[0].gate, "two");
    assert_eq!(
        report.patch.as_deref(),
        Some("diff --git a/a.rs b/a.rs\n--- a/a.rs\n+++ b/a.rs\n@@ 1\n")
    );
    assert_eq!(
        summary_line(&report),
        format!("fmtguard {VERSION}: rejected — 1 file(s) changed, +2 −1 (scanned 2)")
    );
    assert_eq!(
        replay_line(&report),
        "fmtguard replay run-1: verdict rejected — 1 file(s) changed, +2 −1"
    );
}

#[test]
fn without_changes_there_is_no_patch() {
    let report = build_report("r".to_string(), &scope(), &[], &[], true, "apply");
    assert_eq!(report.verdict, "ok");
    assert!(report.patch.is_none());
    assert!(report.rejections.is_empty());
}

#[test]
fn totals_must_fit() {
    let big = result("a.rs", usize::MAX, 0, Some("x"));
    let one = result("b.rs", 1, 0, Some("x"));
    assert!(!can_report(&[big, one]));
    let odd = FormatResult { hunks_total: 1, ..result("c.rs", 0, 0, Some("x")) };
    assert!(!can_report(&[odd]));
}
