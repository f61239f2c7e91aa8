use fmtguard::double::{ratio_at_most, Double};
use fmtguard::engine::FormatResult;
use fmtguard::gates::{check, count_changed, every_gate_passed, Budget, GateResult, Measure};
use fmtguard::types::{Scope, ScopedFile, Vcs};

fn file(path: &str, agent_added_lines: Option<usize>) -> ScopedFile {
    ScopedFile { path: path.to_string(), ranges: vec![], agent_added_lines }
}

fn scope(files: Vec<ScopedFile>) -> Scope {
    Scope {
        vcs: Some(Vcs::Git),
        base: "HEAD".to_string(),
        source: "git-diff".to_string(),
        files,
    }
}

fn result(path: &str, added: usize, patch: &str) -> FormatResult {
    FormatResult {
        path: path.to_string(),
        engine: "rustfmt-diff-intersect".to_string(),
        changed: true,
        idempotent: true,
        added_lines: added,
        removed_lines: 1,
        hunks_total: 1,
        hunks_kept: 1,
        patch: Some(patch.to_string()),
        new_content: Some("x\n".to_string()),
        rustfmt_duration_ms: 3,
        first_pass_duration_ms: 1,
        idempotency_duration_ms: 2,
        fmt_clean: None,
    }
}

fn unchanged(path: &str) -> FormatResult {
    FormatResult {
        changed: false,
        added_lines: 0,
        removed_lines: 0,
        hunks_kept: 0,
        patch: None,
        new_content: None,
        ..result(path, 0, "")
    }
}

fn named<'a>(gates: &'a [GateResult], name: &str) -> Vec<&'a GateResult> {
    gates.iter().filter(|g| g.gate == name).collect()
}

#[test]
fn a_clean_run_passes_every_gate_in_order() {
    let scope = scope(vec![file("a.rs", Some(2))]);
    let (pass, gates) = check(&scope, &[result("a.rs", 4, "+x\n")], &Budget::default());
    assert!(pass);
    let names: Vec<&str> = gates.iter().map(|g| g.gate.as_str()).collect();
    assert_eq!(
        names,
        [
            "scope.containment",
            "budget.per_file_added",
            "budget.diff_ratio",
            "budget.max_files",
            "engine.idempotent",
            "whitespace.clean"
        ]
    );
    let details: Vec<&str> = gates.iter().map(|g| g.detail.as_str()).collect();
    assert_eq!(
        details,
        [
            "all edited files are within scope",
            "4 added lines (removed 1) after formatting",
            "formatter added 4 lines vs agent's 2 lines",
            "1 file(s) changed by formatting",
            "a.rs: formatter reached a stable point",
            "a.rs: no trailing whitespace"
        ]
    );
    assert!(matches!(gates[2].metric, Some(Measure::Quotient { over: 4, under: 2 })));
    assert!(matches!(gates[1].metric, Some(Measure::Count(4))));
    assert!(matches!(gates[1].limit, Some(Measure::Count(200))));
    assert!(gates[0].metric.is_none());
}

#[test]
fn unchanged_results_are_only_counted() {
    let scope = scope(vec![file("a.rs", Some(0))]);
    let (pass, gates) = check(&scope, &[unchanged("a.rs")], &Budget::default());
    assert!(pass);
    assert_eq!(gates.len(), 2);
    assert_eq!(gates[1].detail, "0 file(s) changed by formatting");
}

#[test]
fn files_outside_the_scope_are_refused() {
    let (pass, gates) = check(
        &scope(vec![file("a.rs", None)]),
        &[result("b.rs", 1, "+x\n"), result("a.rs", 1, "+x\n"), result("c.rs", 1, "+x\n")],
        &Budget::default(),
    );
    assert!(!pass);
    let gate = named(&gates, "scope.containment")[0];
    assert_eq!(gate.file.as_deref(), Some("b.rs,c.rs"));
    assert!(matches!(gate.metric, Some(Measure::Count(2))));
    assert_eq!(gate.detail, "formatter touched files outside the scope");
}

#[test]
fn budgets_are_kept() {
    let budget = Budget { max_added_lines: 3, max_files: 1, ..Budget::default() };
    let scope = scope(vec![file("a.rs", Some(1)), file("b.rs", None)]);
    let results = [result("a.rs", 4, "+x\n"), result("b.rs", 3, "+x\n")];
    let (pass, gates) = check(&scope, &results, &budget);
    assert!(!pass);
    let added = named(&gates, "budget.per_file_added");
    assert_eq!((added[0].pass, added[1].pass), (false, true));
    assert_eq!(added[0].detail, "formatter added too many lines");
    let ratio = named(&gates, "budget.diff_ratio");
    assert_eq!(ratio.len(), 1);
    assert!(!ratio[0].pass);
    assert_eq!(ratio[0].detail, "formatter expanded the diff beyond the ratio budget");
    let files = named(&gates, "budget.max_files")[0];
    assert!(!files.pass);
    assert_eq!(files.file.as_deref(), Some("(aggregate)"));
    assert_eq!(count_changed(&results), 2);
}

#[test]
fn an_unstable_formatter_is_refused() {
    let unstable = FormatResult { idempotent: false, ..result("a.rs", 1, "+x\n") };
    let (pass, gates) = check(&scope(vec![file("a.rs", None)]), &[unstable], &Budget::default());
    assert!(!pass);
    let gate = named(&gates, "engine.idempotent")[0];
    assert!(!gate.pass);
    assert!(matches!(gate.limit, Some(Measure::Count(0))));
}

#[test]
fn an_unclean_file_is_refused_where_it_was_looked_for() {
    let results = [
        FormatResult { fmt_clean: Some(true), ..result("a.rs", 1, "+x\n") },
        FormatResult { fmt_clean: Some(false), ..unchanged("b.rs") },
    ];
    let scope = scope(vec![file("a.rs", None), file("b.rs", None)]);
    let (pass, gates) = check(&scope, &results, &Budget::default());
    assert!(!pass);
    assert_eq!(gates.last().unwrap().gate, "engine.fmt_check");
    let clean = named(&gates, "engine.fmt_check");
    assert_eq!(clean.len(), 2);
    assert_eq!((clean[0].pass, clean[1].pass), (true, false));
    assert_eq!(clean[0].detail, "a.rs: whole file is rustfmt-clean");
    assert_eq!(clean[1].file.as_deref(), Some("b.rs"));
    assert!(matches!(clean[1].metric, Some(Measure::Count(1))));
    assert!(matches!(clean[1].limit, Some(Measure::Count(0))));
}

#[test]
fn a_looser_budget_accepts_what_a_tighter_one_does() {
    let scope = scope(vec![file("a.rs", Some(2))]);
    let ratio = |cap: f64| Double { bits: cap.to_bits() };
    let tight = Budget { max_added_lines: 4, max_files: 1, max_ratio: ratio(2.0) };
    let results = [result("a.rs", 4, "+x\n")];
    assert!(check(&scope, &results, &tight).0);
    let looser = [
        Budget { max_added_lines: 5, ..tight },
        Budget { max_files: 9, ..tight },
        Budget { max_ratio: ratio(2.5), ..tight },
        Budget { max_ratio: ratio(f64::INFINITY), ..tight },
    ];
    for budget in &looser {
        let (pass, gates) = check(&scope, &results, budget);
        assert!(pass);
        let (_, same) = check(&scope, &results, &tight);
        let names = |gates: &[GateResult]| -> Vec<String> {
            gates.iter().map(|g| g.gate.clone()).collect()
        };
        assert_eq!(names(&gates), names(&same));
    }
    assert!(!check(&scope, &results, &Budget { max_added_lines: 3, ..tight }).0);
    assert!(!check(&scope, &results, &Budget { max_files: 0, ..tight }).0);
    assert!(!check(&scope, &results, &Budget { max_ratio: ratio(1.5), ..tight }).0);
}

#[test]
fn added_white_space_is_refused() {
    let patch = "@@ -1,1 +1,5 @@\n+ok\n+\n+bad \n+tab\t\n+\u{a0}\n-gone \n";
    let (pass, gates) =
        check(&scope(vec![file("a.rs", None)]), &[result("a.rs", 5, patch)], &Budget::default());
    assert!(!pass);
    let gate = named(&gates, "whitespace.clean")[0];
    assert!(matches!(gate.metric, Some(Measure::Count(3))));
    assert_eq!(gate.detail, "formatter produced trailing/whitespace-only added lines");
    assert!(!every_gate_passed(&gates));
    assert!(every_gate_passed(&[]));
}

#[test]
fn the_ratio_is_that_of_double_precision() {
    let numbers: Vec<u64> = vec![
        1, 2, 3, 7, 10, 1000, (1 << 52) - 1, 1 << 52, (1 << 53) - 1, (1 << 53) + 1, (1 << 54) + 2,
        (1 << 54) + 6, 3 * (1 << 52) + 1, u64::MAX - 1023, u64::MAX,
    ];
    let caps: Vec<f64> = vec![
        3.0, 1.5, 1.0, 0.1, 1.0 / 3.0, 7.0 / 10.0, 0.0, -0.0, -1.0, 5e-324, f64::MIN_POSITIVE,
        f64::MAX, f64::INFINITY, f64::NEG_INFINITY, f64::NAN, 1e19, 1e300, 4503599627370496.0,
    ];
    for &a in &numbers {
        for &b in &numbers {
            let ratio = a as f64 / b as f64;
            let near = [
                ratio,
                f64::from_bits(ratio.to_bits() - 1),
                f64::from_bits(ratio.to_bits() + 1),
            ];
            for &cap in caps.iter().chain(near.iter()) {
                let double = Double { bits: cap.to_bits() };
                assert_eq!(ratio_at_most(a, b, double), ratio <= cap, "{a} / {b} <= {cap}");
            }
        }
    }
}

#[test]
fn the_default_cap_is_three_times() {
    let cap = Budget::default().max_ratio;
    assert_eq!(f64::from_bits(cap.bits), 3.0);
    assert!(ratio_at_most(30, 10, cap));
    assert!(!ratio_at_most(31, 10, cap));
    assert!(ratio_at_most(0, 1, cap));
}
