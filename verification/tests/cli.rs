use fmtguard::cli::{parse_args, parse_replay_args, Config, Emit, Parsed};
use fmtguard::double::Double;
use fmtguard::types::Vcs;

fn doubles(args: &[String]) -> Vec<Option<Double>> {
    args.iter()
        .map(|arg| arg.parse::<f64>().ok().map(|x| Double { bits: x.to_bits() }))
        .collect()
}

fn strings(args: &[&str]) -> Vec<String> {
    args.iter().map(|arg| arg.to_string()).collect()
}

fn parsed(args: &[&str]) -> Result<Parsed, String> {
    let args = strings(args);
    parse_args(&args, &doubles(&args))
}

fn config(args: &[&str]) -> Config {
    match parsed(args).unwrap() {
        Parsed::Run(config) => config,
        other => panic!("{other:?}"),
    }
}

#[test]
fn parse_args_roundtrip() {
    let args = vec![
        "--scope-from-git".to_string(),
        "--base".to_string(),
        "main".to_string(),
        "--emit".to_string(),
        "patch".to_string(),
        "--budget-max-added-lines".to_string(),
        "50".to_string(),
        "--exclude".to_string(),
        "foo/**,bar.rs".to_string(),
        "--no-log".to_string(),
    ];
    let cfg = match parse_args(&args, &doubles(&args)).unwrap() {
        Parsed::Run(cfg) => cfg,
        other => panic!("{other:?}"),
    };
    assert_eq!(cfg.vcs, Some(Vcs::Git));
    assert_eq!(cfg.base, "main");
    assert_eq!(cfg.emit, Emit::Patch);
    assert_eq!(cfg.budget.max_added_lines, 50);
    assert!(cfg.excludes.iter().any(|e| e == "foo/**"));
    assert!(cfg.excludes.iter().any(|e| e == "bar.rs"));
    assert!(cfg.log.is_none());
}

#[test]
fn parse_args_rejects_unknown() {
    let nope = ["--nope".to_string()];
    assert!(parse_args(&nope, &doubles(&nope)).is_err());
    let yaml = ["--emit".to_string(), "yaml".to_string()];
    assert!(parse_args(&yaml, &doubles(&yaml)).is_err());
}

#[test]
fn no_arguments_ask_for_a_dry_run() {
    let c = config(&[]);
    assert_eq!((c.vcs, c.emit, c.apply, c.sandbox), (None, Emit::Json, false, false));
    assert!(!c.verify_fmt_check);
    assert_eq!(c.base, "HEAD");
    assert_eq!(c.excludes.len(), 5);
    assert_eq!((c.budget.max_added_lines, c.budget.max_files), (200, 5));
    assert_eq!(f64::from_bits(c.budget.max_ratio.bits), 3.0);
    assert_eq!((c.rustfmt.as_str(), c.engine_timeout_secs), ("rustfmt", 30));
    assert_eq!(c.log.as_deref(), Some(".fmtguard/runs.jsonl"));
}

#[test]
fn every_option_is_followed() {
    let c = config(&[
        "--scope-from-jj", "--apply", "--sandbox", "--changeset", "c.json", "--emit", "diff",
        "--exclude", " a/* , ,b", "--budget-max-files", "+7", "--budget-max-ratio", "1.5",
        "--rustfmt", "/bin/rf", "--engine-timeout-secs", "9", "--no-log", "--log", "x.jsonl",
    ]);
    assert_eq!(c.vcs, Some(Vcs::Jj));
    assert!(c.apply && c.sandbox);
    assert_eq!(c.changeset.as_deref(), Some("c.json"));
    assert_eq!(c.emit, Emit::Patch);
    assert_eq!(&c.excludes[5..], ["a/*", "b"]);
    assert_eq!(c.budget.max_files, 7);
    assert_eq!(f64::from_bits(c.budget.max_ratio.bits), 1.5);
    assert_eq!(c.rustfmt, "/bin/rf");
    assert_eq!(c.engine_timeout_secs, 9);
    assert_eq!(c.log.as_deref(), Some("x.jsonl"));
}

#[test]
fn whole_files_can_be_looked_at() {
    let c = config(&["--verify-fmt-check"]);
    assert!(c.verify_fmt_check && !c.apply && !c.sandbox);
    assert!(config(&["--apply", "--verify-fmt-check", "--no-log"]).verify_fmt_check);
}

#[test]
fn errors_say_why() {
    let error = |args: &[&str]| parsed(args).unwrap_err();
    assert_eq!(error(&["--base"]), "missing value for --base");
    assert_eq!(error(&["--emit", "yaml"]), "unknown --emit value: yaml (json|patch)");
    assert_eq!(error(&["--budget-max-files", "-1"]), "invalid number: -1");
    assert_eq!(error(&["--budget-max-ratio", "much"]), "invalid number: much");
    assert_eq!(error(&["--nope"]), "unknown argument: --nope (see --help)");
}

#[test]
fn help_and_version_end_the_reading() {
    assert!(matches!(parsed(&["--help", "--nope"]), Ok(Parsed::Help)));
    assert!(matches!(parsed(&["-h"]), Ok(Parsed::Help)));
    assert!(matches!(parsed(&["--apply", "--version"]), Ok(Parsed::Version)));
    assert!(matches!(parsed(&["-V"]), Ok(Parsed::Version)));
    assert!(parsed(&["--nope", "--help"]).is_err());
}

#[test]
fn replay_arguments() {
    let c = parse_replay_args(&strings(&["run-1", "--emit", "patch", "--log", "l"])).unwrap();
    assert_eq!((c.run_id.as_str(), c.emit, c.log.as_str()), ("run-1", Emit::Patch, "l"));
    let c = parse_replay_args(&strings(&["run-1"])).unwrap();
    assert_eq!((c.emit, c.log.as_str()), (Emit::Json, ".fmtguard/runs.jsonl"));
    let error = |args: &[&str]| parse_replay_args(&strings(args)).unwrap_err();
    assert_eq!(
        error(&[]),
        "missing <runId> (find ids in the event log or --emit json output)"
    );
    assert_eq!(error(&["a", "b"]), "unexpected extra argument: b");
    assert_eq!(error(&["--apply"]), "unknown replay option: --apply");
    assert_eq!(error(&["a", "--log"]), "missing value for --log");
    assert_eq!(error(&["a", "--emit", "x"]), "unknown --emit value: x (json|patch)");
}
