use fmtguard::engine::{
    candidate, detect_edition, find_rustfmt_config, format_file, needs_second_pass, poll,
    run_rustfmt, rustfmt_args, timed_out, with_fmt_check, Engine, EngineError, Poll,
};
use fmtguard::types::{LineRange, ScopedFile};

fn file(ranges: Vec<LineRange>) -> ScopedFile {
    ScopedFile { path: "a.rs".to_string(), ranges, agent_added_lines: None }
}

#[test]
fn a_formatted_file_is_left_alone() {
    assert!(!needs_second_pass("a\n", "a\n"));
    let r = format_file(&file(vec![]), "a\n", "a\n", &None, 5, 0);
    assert!(!r.changed && r.idempotent);
    assert_eq!((r.added_lines, r.removed_lines, r.hunks_total, r.hunks_kept), (0, 0, 0, 0));
    assert!(r.patch.is_none() && r.new_content.is_none());
    assert_eq!(r.engine, "rustfmt-diff-intersect");
    assert_eq!(r.rustfmt_duration_ms, 5);
    assert_eq!((r.first_pass_duration_ms, r.idempotency_duration_ms), (5, 0));
    assert_eq!(r.fmt_clean, None);
}

#[test]
fn a_change_in_scope_is_kept() {
    let again = Some("b\n".to_string());
    let r = format_file(&file(vec![LineRange::new(1, 1)]), "a\n", "b\n", &again, 5, 7);
    assert!(r.changed && r.idempotent);
    assert_eq!((r.added_lines, r.removed_lines, r.hunks_total, r.hunks_kept), (1, 1, 1, 1));
    assert_eq!(r.patch.as_deref(), Some("@@ -1,1 +1,1 @@\n-a\n+b\n"));
    assert_eq!(r.new_content.as_deref(), Some("b\n"));
    assert_eq!(r.rustfmt_duration_ms, 12);
    assert_eq!((r.first_pass_duration_ms, r.idempotency_duration_ms), (5, 7));
}

#[test]
fn formatting_debt_outside_the_scope_is_found() {
    let original = "a\nb\nc\nd\ne\nf\ng\nh\ni\nj\nk\n";
    let formatted = "a\nB\nc\nd\ne\nf\ng\nh\ni\nJ\nk\n";
    let again = Some(formatted.to_string());
    let part = format_file(&file(vec![LineRange::new(2, 2)]), original, formatted, &again, 1, 1);
    assert_eq!(candidate(&part, original), "a\nB\nc\nd\ne\nf\ng\nh\ni\nj\nk\n");
    let part = with_fmt_check(part, original, formatted);
    assert_eq!(part.fmt_clean, Some(false));
    assert!(part.changed && part.hunks_kept == 1);
    let whole = format_file(&file(vec![]), original, formatted, &again, 1, 1);
    assert_eq!(candidate(&whole, original), formatted);
    let whole = with_fmt_check(whole, original, formatted);
    assert_eq!(whole.fmt_clean, Some(true));
    let none = format_file(&file(vec![]), "a\n", "a\n", &None, 1, 0);
    assert_eq!(candidate(&none, "a\n"), "a\n");
    assert_eq!(with_fmt_check(none, "a\n", "a\n").fmt_clean, Some(true));
}

#[test]
fn a_total_that_is_too_long_stays_at_the_most() {
    let r = format_file(&file(vec![]), "a\n", "a\n", &None, u64::MAX, 1);
    assert_eq!(r.rustfmt_duration_ms, u64::MAX);
}

#[test]
fn a_change_out_of_scope_is_clipped() {
    let again = Some("c\n".to_string());
    let r = format_file(&file(vec![LineRange::new(9, 9)]), "a\n", "b\n", &again, 5, 7);
    assert!(!r.changed && !r.idempotent);
    assert_eq!((r.hunks_total, r.hunks_kept), (1, 0));
    assert!(r.patch.is_none() && r.new_content.is_none());
}

#[test]
fn the_formatter_is_called_with_edition_and_config() {
    let edition = Some("2021".to_string());
    let config = Some("rustfmt.toml".to_string());
    assert_eq!(
        rustfmt_args(&edition, &config),
        ["--emit", "stdout", "--edition", "2021", "--config-path", "rustfmt.toml"]
    );
    let bare = rustfmt_args(&None, &None);
    assert!(!bare.iter().any(|arg| arg == "--edition" || arg == "--config-path"));
}

#[test]
fn the_nearest_manifest_with_an_edition_counts() {
    let manifests = vec![
        Some("[package]\nname = \"x\"\n".to_string()),
        None,
        Some("[package]\nedition = \"2018\"\n".to_string()),
        Some("[package]\nedition = \"2021\"\n".to_string()),
    ];
    assert_eq!(detect_edition(&manifests).as_deref(), Some("2018"));
    assert_eq!(detect_edition(&vec![None]), None);
    assert_eq!(find_rustfmt_config(true, true).as_deref(), Some("rustfmt.toml"));
    assert_eq!(find_rustfmt_config(false, true).as_deref(), Some(".rustfmt.toml"));
    assert_eq!(find_rustfmt_config(false, false), None);
}

#[test]
fn a_running_formatter_is_watched() {
    assert_eq!(poll(true, true), Poll::Collect);
    assert_eq!(poll(false, true), Poll::Kill);
    assert_eq!(poll(false, false), Poll::Wait);
    let engine = Engine::default();
    assert_eq!((engine.rustfmt_path.as_str(), engine.timeout_secs), ("rustfmt", 30));
}

#[test]
fn failures_say_why() {
    let out = run_rustfmt("a.rs", true, "x\n".to_string(), String::new());
    assert_eq!(out.unwrap(), "x\n");
    let error =
        run_rustfmt("a.rs", false, String::new(), " expected `;`\n".to_string()).unwrap_err();
    assert!(matches!(error, EngineError::RustfmtFailed { .. }));
    assert!(error.message().contains("a.rs"));
    assert!(error.message().contains("expected `;`"));
    let error = timed_out("a.rs", "one\ntwo\n", 30);
    assert!(matches!(
        &error,
        EngineError::TimedOut { bytes: 8, lines: 2, timeout_secs: 30, .. }
    ));
    assert!(error.message().starts_with("rustfmt timed out on a.rs"));
    let error = EngineError::NotUtf8 { path: "a.rs".to_string() };
    assert!(error.message().contains("a.rs"));
    let error = EngineError::ReadFailed { path: "a.rs".to_string(), err: "gone".to_string() };
    assert!(error.message().contains("a.rs") && error.message().contains("gone"));
}
