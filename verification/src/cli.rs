//! The command line.

use crate::double::Double;
use crate::gates;
use crate::gates::Budget;
use crate::scope::default_excludes;
use crate::text;
use crate::text::{chars_of, has_prefix, parse_number, same_text, split_on, string_of, trimmed};
use crate::types::Vcs;
use vstd::prelude::*;

verus! {

/// What a run writes to its standard output.
#[derive(Debug, Clone, Copy, PartialEq, Eq, Structural)]
pub enum Emit {
    Json,
    Patch,
}

/// What a run was asked to do.
#[derive(Debug)]
pub struct Config {
    pub vcs: Option<Vcs>,
    pub base: String,
    pub changeset: Option<String>,
    pub emit: Emit,
    pub apply: bool,
    pub sandbox: bool,
    pub verify_fmt_check: bool,
    pub excludes: Vec<String>,
    pub budget: Budget,
    pub rustfmt: String,
    pub engine_timeout_secs: u64,
    pub log: Option<String>,
}

/// What a [`Config`] stands for.
pub struct ConfigView {
    pub vcs: Option<Vcs>,
    pub base: Seq<char>,
    pub changeset: Option<Seq<char>>,
    pub emit: Emit,
    pub apply: bool,
    pub sandbox: bool,
    pub verify_fmt_check: bool,
    pub excludes: Seq<Seq<char>>,
    pub budget: Budget,
    pub rustfmt: Seq<char>,
    pub engine_timeout_secs: u64,
    pub log: Option<Seq<char>>,
}

impl View for Config {
    type V = ConfigView;

    open spec fn view(&self) -> ConfigView {
        ConfigView {
            vcs: self.vcs,
            base: self.base@,
            changeset: text::optional_text(self.changeset),
            emit: self.emit,
            apply: self.apply,
            sandbox: self.sandbox,
            verify_fmt_check: self.verify_fmt_check,
            excludes: text::texts(self.excludes@),
            budget: self.budget,
            rustfmt: self.rustfmt@,
            engine_timeout_secs: self.engine_timeout_secs,
            log: text::optional_text(self.log),
        }
    }
}

/// What a run does that was asked for nothing.
pub open spec fn default_config() -> ConfigView {
    ConfigView {
        vcs: None,
        base: "HEAD"@,
        changeset: None,
        emit: Emit::Json,
        apply: false,
        sandbox: false,
        verify_fmt_check: false,
        excludes: seq![
            "generated/**"@,
            "**/generated/**"@,
            "vendor/**"@,
            "target/**"@,
            "node_modules/**"@,
        ],
        budget: Budget {
            max_added_lines: 200,
            max_files: 5,
            max_ratio: Double { bits: gates::DEFAULT_RATIO },
        },
        rustfmt: "rustfmt"@,
        engine_timeout_secs: 30,
        log: Some(".fmtguard/runs.jsonl"@),
    }
}

impl Default for Config {
    fn default() -> (config: Config)
        ensures
            config@ == default_config(),
    {
        Config {
            vcs: None,
            base: "HEAD".to_string(),
            changeset: None,
            emit: Emit::Json,
            apply: false,
            sandbox: false,
            verify_fmt_check: false,
            excludes: default_excludes(),
            budget: Budget::default(),
            rustfmt: "rustfmt".to_string(),
            engine_timeout_secs: 30,
            log: Some(".fmtguard/runs.jsonl".to_string()),
        }
    }
}

/// What a command line asks for.
#[derive(Debug)]
pub enum Parsed {
    Run(Config),
    Help,
    Version,
}

/// What a [`Parsed`] stands for.
pub enum ParsedView {
    Run(ConfigView),
    Help,
    Version,
}

impl View for Parsed {
    type V = ParsedView;

    open spec fn view(&self) -> ParsedView {
        match self {
            Parsed::Run(config) => ParsedView::Run(config@),
            Parsed::Help => ParsedView::Help,
            Parsed::Version => ParsedView::Version,
        }
    }
}

/// What an `--emit` value names.
pub open spec fn emit_named(value: Seq<char>) -> Result<Emit, Seq<char>> {
    if value == "json"@ {
        Ok(Emit::Json)
    } else if value == "patch"@ || value == "diff"@ {
        Ok(Emit::Patch)
    } else {
        Err("unknown --emit value: "@ + value + " (json|patch)"@)
    }
}

/// The number that a value writes.
pub open spec fn number_named(value: Seq<char>) -> Result<nat, Seq<char>> {
    match text::read_number(value) {
        Ok(n) => Ok(n),
        Err(_) => Err("invalid number: "@ + value),
    }
}

/// The parts of a comma-separated list, trimmed, without the empty ones.
pub open spec fn list_items(parts: Seq<Seq<char>>) -> Seq<Seq<char>>
    decreases parts.len(),
{
    if parts.len() == 0 {
        Seq::empty()
    } else {
        let before = list_items(parts.drop_last());
        let part = text::trim(parts.last());
        if part.len() > 0 {
            before.push(part)
        } else {
            before
        }
    }
}

/// What an option without a value changes; `None` is another option.
pub open spec fn switched(c: ConfigView, arg: Seq<char>) -> Option<ConfigView> {
    if arg == "--scope-from-git"@ {
        Some(ConfigView { vcs: Some(Vcs::Git), ..c })
    } else if arg == "--scope-from-jj"@ {
        Some(ConfigView { vcs: Some(Vcs::Jj), ..c })
    } else if arg == "--apply"@ {
        Some(ConfigView { apply: true, ..c })
    } else if arg == "--sandbox"@ {
        Some(ConfigView { sandbox: true, ..c })
    } else if arg == "--verify-fmt-check"@ {
        Some(ConfigView { verify_fmt_check: true, ..c })
    } else if arg == "--no-log"@ {
        Some(ConfigView { log: None, ..c })
    } else {
        None
    }
}

/// Whether an option takes a value.
pub open spec fn takes_value(arg: Seq<char>) -> bool {
    ||| arg == "--base"@
    ||| arg == "--changeset"@
    ||| arg == "--emit"@
    ||| arg == "--exclude"@
    ||| arg == "--budget-max-added-lines"@
    ||| arg == "--budget-max-files"@
    ||| arg == "--budget-max-ratio"@
    ||| arg == "--rustfmt"@
    ||| arg == "--engine-timeout-secs"@
    ||| arg == "--log"@
}

/// What an option with a value changes, or what is wrong with the value.
/// `double` is the double-precision number that the value writes, if it does.
pub open spec fn valued(
    c: ConfigView,
    arg: Seq<char>,
    value: Seq<char>,
    double: Option<Double>,
) -> Result<ConfigView, Seq<char>> {
    if arg == "--base"@ {
        Ok(ConfigView { base: value, ..c })
    } else if arg == "--changeset"@ {
        Ok(ConfigView { changeset: Some(value), ..c })
    } else if arg == "--emit"@ {
        match emit_named(value) {
            Ok(emit) => Ok(ConfigView { emit, ..c }),
            Err(message) => Err(message),
        }
    } else if arg == "--exclude"@ {
        Ok(ConfigView { excludes: c.excludes + list_items(text::split_at_char(value, ',')), ..c })
    } else if arg == "--budget-max-added-lines"@ {
        match number_named(value) {
            Ok(n) => Ok(
                ConfigView { budget: Budget { max_added_lines: n as usize, ..c.budget }, ..c },
            ),
            Err(message) => Err(message),
        }
    } else if arg == "--budget-max-files"@ {
        match number_named(value) {
            Ok(n) => Ok(ConfigView { budget: Budget { max_files: n as usize, ..c.budget }, ..c }),
            Err(message) => Err(message),
        }
    } else if arg == "--budget-max-ratio"@ {
        match double {
            Some(max_ratio) => Ok(ConfigView { budget: Budget { max_ratio, ..c.budget }, ..c }),
            None => Err("invalid number: "@ + value),
        }
    } else if arg == "--rustfmt"@ {
        Ok(ConfigView { rustfmt: value, ..c })
    } else if arg == "--engine-timeout-secs"@ {
        match number_named(value) {
            Ok(n) => Ok(ConfigView { engine_timeout_secs: n as u64, ..c }),
            Err(message) => Err(message),
        }
    } else {
        Ok(ConfigView { log: Some(value), ..c })
    }
}

/// What arguments ask for, beyond what is asked for already: the options from
/// left to right, each later one over the earlier; a request for help or the
/// version, or an error, ends the reading.
pub open spec fn parsed_args(
    c: ConfigView,
    args: Seq<Seq<char>>,
    doubles: Seq<Option<Double>>,
) -> Result<ParsedView, Seq<char>>
    decreases args.len(),
{
    if args.len() == 0 {
        Ok(ParsedView::Run(c))
    } else if args[0] == "--help"@ || args[0] == "-h"@ {
        Ok(ParsedView::Help)
    } else if args[0] == "--version"@ || args[0] == "-V"@ {
        Ok(ParsedView::Version)
    } else if takes_value(args[0]) {
        if args.len() < 2 {
            Err("missing value for "@ + args[0])
        } else {
            match valued(c, args[0], args[1], doubles[1]) {
                Ok(next) => parsed_args(next, args.skip(2), doubles.skip(2)),
                Err(message) => Err(message),
            }
        }
    } else {
        match switched(c, args[0]) {
            Some(next) => parsed_args(next, args.skip(1), doubles.skip(1)),
            None => Err("unknown argument: "@ + args[0] + " (see --help)"@),
        }
    }
}

fn parse_emit(value: &str) -> (emit: Result<Emit, String>)
    ensures
        match emit {
            Ok(emit) => emit_named(value@) == Ok::<Emit, Seq<char>>(emit),
            Err(message) => emit_named(value@) == Err::<Emit, Seq<char>>(message@),
        },
{
    if same_text(value, "json") {
        Ok(Emit::Json)
    } else if same_text(value, "patch") || same_text(value, "diff") {
        Ok(Emit::Patch)
    } else {
        let mut message = "unknown --emit value: ".to_string();
        message.append(value);
        message.append(" (json|patch)");
        Err(message)
    }
}

fn invalid_number(value: &str) -> (message: String)
    ensures
        message@ == "invalid number: "@ + value@,
{
    let mut message = "invalid number: ".to_string();
    message.append(value);
    message
}

fn parse_usize(value: &str) -> (number: Result<usize, String>)
    ensures
        match number {
            Ok(n) => number_named(value@) == Ok::<nat, Seq<char>>(n as nat),
            Err(message) => number_named(value@) == Err::<nat, Seq<char>>(message@),
        },
{
    let chars = chars_of(value);
    match parse_number(chars.as_slice()) {
        Ok(n) => Ok(n),
        Err(_) => Err(invalid_number(value)),
    }
}

/// Adds the items of a comma-separated list.
fn push_list(list: &mut Vec<String>, value: &str)
    ensures
        text::texts(final(list)@) == text::texts(old(list)@)
            + list_items(text::split_at_char(value@, ',')),
{
    let chars = chars_of(value);
    let parts = split_on(chars.as_slice(), ',');
    let ghost all = text::split_at_char(value@, ',');
    let ghost before = text::texts(list@);
    assert(all.take(0) == Seq::<Seq<char>>::empty());
    assert(before + Seq::<Seq<char>>::empty() == before);
    for i in 0..parts.len()
        invariant
            text::rows(parts@) == all,
            text::texts(list@) == before + list_items(all.take(i as int)),
    {
        let part = trimmed(parts[i].as_slice());
        proof {
            assert(text::rows(parts@)[i as int] == parts@[i as int]@);
            assert(all.take(i + 1).drop_last() == all.take(i as int));
            assert(part@.subrange(0, part@.len() as int) == part@);
        }
        let ghost done = text::texts(list@);
        if part.len() > 0 {
            list.push(string_of(part.as_slice(), 0, part.len()));
            assert(text::texts(list@) == done.push(part@));
        }
        assert(text::texts(list@) == before + list_items(all.take(i + 1)));
    }
    assert(all.take(all.len() as int) == all);
}

fn has_value(arg: &str) -> (yes: bool)
    ensures
        yes == takes_value(arg@),
{
    same_text(arg, "--base") || same_text(arg, "--changeset") || same_text(arg, "--emit")
        || same_text(arg, "--exclude") || same_text(arg, "--budget-max-added-lines") || same_text(
        arg,
        "--budget-max-files",
    ) || same_text(arg, "--budget-max-ratio") || same_text(arg, "--rustfmt") || same_text(
        arg,
        "--engine-timeout-secs",
    ) || same_text(arg, "--log")
}

impl Config {
    /// Follows an option without a value; says whether it is one.
    fn switch(&mut self, arg: &str) -> (known: bool)
        ensures
            match switched(old(self)@, arg@) {
                Some(next) => known && final(self)@ == next,
                None => !known && final(self)@ == old(self)@,
            },
    {
        if same_text(arg, "--scope-from-git") {
            self.vcs = Some(Vcs::Git);
            true
        } else if same_text(arg, "--scope-from-jj") {
            self.vcs = Some(Vcs::Jj);
            true
        } else if same_text(arg, "--apply") {
            self.apply = true;
            true
        } else if same_text(arg, "--sandbox") {
            self.sandbox = true;
            true
        } else if same_text(arg, "--verify-fmt-check") {
            self.verify_fmt_check = true;
            true
        } else if same_text(arg, "--no-log") {
            self.log = None;
            true
        } else {
            false
        }
    }

    /// Follows an option with a value.
    fn set(&mut self, arg: &str, value: &str, double: Option<Double>) -> (done: Result<(), String>)
        ensures
            match done {
                Ok(_) => valued(old(self)@, arg@, value@, double) == Ok::<ConfigView, Seq<char>>(
                    final(self)@,
                ),
                Err(message) => valued(old(self)@, arg@, value@, double) == Err::<
                    ConfigView,
                    Seq<char>,
                >(message@),
            },
    {
        if same_text(arg, "--base") {
            self.base = value.to_string();
        } else if same_text(arg, "--changeset") {
            self.changeset = Some(value.to_string());
        } else if same_text(arg, "--emit") {
            match parse_emit(value) {
                Ok(emit) => {
                    self.emit = emit;
                },
                Err(message) => {
                    return Err(message);
                },
            }
        } else if same_text(arg, "--exclude") {
            push_list(&mut self.excludes, value);
        } else if same_text(arg, "--budget-max-added-lines") {
            match parse_usize(value) {
                Ok(n) => {
                    self.budget.max_added_lines = n;
                },
                Err(message) => {
                    return Err(message);
                },
            }
        } else if same_text(arg, "--budget-max-files") {
            match parse_usize(value) {
                Ok(n) => {
                    self.budget.max_files = n;
                },
                Err(message) => {
                    return Err(message);
                },
            }
        } else if same_text(arg, "--budget-max-ratio") {
            match double {
                Some(max_ratio) => {
                    self.budget.max_ratio = max_ratio;
                },
                None => {
                    return Err(invalid_number(value));
                },
            }
        } else if same_text(arg, "--rustfmt") {
            self.rustfmt = value.to_string();
        } else if same_text(arg, "--engine-timeout-secs") {
            match parse_usize(value) {
                Ok(n) => {
                    self.engine_timeout_secs = n as u64;
                },
                Err(message) => {
                    return Err(message);
                },
            }
        } else {
            self.log = Some(value.to_string());
        }
        Ok(())
    }
}

/// What is asked for, or what is wrong, as a value.
pub open spec fn parsed_view(parsed: Result<Parsed, String>) -> Result<ParsedView, Seq<char>> {
    match parsed {
        Ok(parsed) => Ok(parsed@),
        Err(message) => Err(message@),
    }
}

/// Reads a command line. `doubles` holds, for each argument, the
/// double-precision number that it writes, if it does.
pub fn parse_args(args: &[String], doubles: &[Option<Double>]) -> (parsed: Result<Parsed, String>)
    requires
        doubles@.len() == args@.len(),
    ensures
        parsed_view(parsed) == parsed_args(default_config(), text::texts(args@), doubles@),
{
    let mut config = Config::default();
    let ghost all = text::texts(args@);
    let ghost wanted = parsed_args(default_config(), all, doubles@);
    let mut i: usize = 0;
    assert(all.skip(0) == all);
    assert(doubles@.skip(0) == doubles@);
    while i < args.len()
        invariant
            i <= args@.len(),
            doubles@.len() == args@.len(),
            all == text::texts(args@),
            wanted == parsed_args(default_config(), all, doubles@),
            wanted == parsed_args(config@, all.skip(i as int), doubles@.skip(i as int)),
        decreases args@.len() - i,
    {
        let arg = args[i].as_str();
        let ghost rest = all.skip(i as int);
        assert(rest[0] == arg@);
        if same_text(arg, "--help") || same_text(arg, "-h") {
            return Ok(Parsed::Help);
        }
        if same_text(arg, "--version") || same_text(arg, "-V") {
            return Ok(Parsed::Version);
        }
        if has_value(arg) {
            if args.len() - i < 2 {
                let mut message = "missing value for ".to_string();
                message.append(arg);
                return Err(message);
            }
            proof {
                assert(rest[1] == args@[i + 1]@);
                assert(doubles@.skip(i as int)[1] == doubles@[i + 1]);
                assert(rest.skip(2) == all.skip(i + 2));
                assert(doubles@.skip(i as int).skip(2) == doubles@.skip(i + 2));
            }
            match config.set(arg, args[i + 1].as_str(), doubles[i + 1]) {
                Ok(_) => {},
                Err(message) => {
                    return Err(message);
                },
            }
            i += 2;
        } else {
            proof {
                assert(rest.skip(1) == all.skip(i + 1));
                assert(doubles@.skip(i as int).skip(1) == doubles@.skip(i + 1));
            }
            if !config.switch(arg) {
                let mut message = "unknown argument: ".to_string();
                message.append(arg);
                message.append(" (see --help)");
                return Err(message);
            }
            i += 1;
        }
    }
    assert(all.skip(i as int).len() == 0);
    Ok(Parsed::Run(config))
}

/// What a replay was asked to do.
#[derive(Debug)]
pub struct ReplayConfig {
    pub run_id: String,
    pub emit: Emit,
    pub log: String,
}

/// What the arguments of a replay ask for so far.
pub struct ReplayConfigView {
    pub run_id: Option<Seq<char>>,
    pub emit: Emit,
    pub log: Seq<char>,
}

/// What a replay does that was asked for nothing.
pub open spec fn default_replay() -> ReplayConfigView {
    ReplayConfigView { run_id: None, emit: Emit::Json, log: ".fmtguard/runs.jsonl"@ }
}

/// What the arguments of a replay ask for, beyond what is asked for already.
pub open spec fn replay_args(c: ReplayConfigView, args: Seq<Seq<char>>) -> Result<
    ReplayConfigView,
    Seq<char>,
>
    decreases args.len(),
{
    if args.len() == 0 {
        if c.run_id is None {
            Err("missing <runId> (find ids in the event log or --emit json output)"@)
        } else {
            Ok(c)
        }
    } else if args[0] == "--emit"@ || args[0] == "--log"@ {
        if args.len() < 2 {
            Err("missing value for "@ + args[0])
        } else if args[0] == "--emit"@ {
            match emit_named(args[1]) {
                Ok(emit) => replay_args(ReplayConfigView { emit, ..c }, args.skip(2)),
                Err(message) => Err(message),
            }
        } else {
            replay_args(ReplayConfigView { log: args[1], ..c }, args.skip(2))
        }
    } else if text::starts_with(args[0], "--"@) {
        Err("unknown replay option: "@ + args[0])
    } else if c.run_id is Some {
        Err("unexpected extra argument: "@ + args[0])
    } else {
        replay_args(ReplayConfigView { run_id: Some(args[0]), ..c }, args.skip(1))
    }
}

/// Reads the arguments of a replay: the id of the run, and options.
pub fn parse_replay_args(args: &[String]) -> (parsed: Result<ReplayConfig, String>)
    ensures
        match parsed {
            Ok(c) => replay_args(default_replay(), text::texts(args@)) == Ok::<
                ReplayConfigView,
                Seq<char>,
            >(ReplayConfigView { run_id: Some(c.run_id@), emit: c.emit, log: c.log@ }),
            Err(message) => replay_args(default_replay(), text::texts(args@)) == Err::<
                ReplayConfigView,
                Seq<char>,
            >(message@),
        },
{
    let mut run_id: Option<String> = None;
    let mut emit = Emit::Json;
    let mut log = ".fmtguard/runs.jsonl".to_string();
    let ghost all = text::texts(args@);
    let ghost wanted = replay_args(default_replay(), all);
    let mut i: usize = 0;
    assert(all.skip(0) == all);
    while i < args.len()
        invariant
            i <= args@.len(),
            all == text::texts(args@),
            wanted == replay_args(default_replay(), all),
            wanted == replay_args(
                ReplayConfigView { run_id: text::optional_text(run_id), emit, log: log@ },
                all.skip(i as int),
            ),
        decreases args@.len() - i,
    {
        let arg = args[i].as_str();
        let ghost rest = all.skip(i as int);
        assert(rest[0] == arg@);
        let is_emit = same_text(arg, "--emit");
        if is_emit || same_text(arg, "--log") {
            if args.len() - i < 2 {
                let mut message = "missing value for ".to_string();
                message.append(arg);
                return Err(message);
            }
            let value = args[i + 1].as_str();
            assert(rest[1] == value@);
            assert(rest.skip(2) == all.skip(i + 2));
            if is_emit {
                match parse_emit(value) {
                    Ok(named) => {
                        emit = named;
                    },
                    Err(message) => {
                        return Err(message);
                    },
                }
            } else {
                log = value.to_string();
            }
            i += 2;
        } else {
            let chars = chars_of(arg);
            if has_prefix(chars.as_slice(), "--") {
                let mut message = "unknown replay option: ".to_string();
                message.append(arg);
                return Err(message);
            }
            match run_id {
                Some(_) => {
                    let mut message = "unexpected extra argument: ".to_string();
                    message.append(arg);
                    return Err(message);
                },
                None => {},
            }
            assert(rest.skip(1) == all.skip(i + 1));
            run_id = Some(arg.to_string());
            i += 1;
        }
    }
    assert(all.skip(i as int).len() == 0);
    match run_id {
        Some(run_id) => Ok(ReplayConfig { run_id, emit, log }),
        None => Err(
            "missing <runId> (find ids in the event log or --emit json output)".to_string(),
        ),
    }
}

/// A run writes only where it was asked to: without `--apply` among its
/// arguments, a command line asks for a dry run.
pub proof fn law_apply_is_explicit(
    c: ConfigView,
    args: Seq<Seq<char>>,
    doubles: Seq<Option<Double>>,
)
    requires
        !c.apply,
        !args.contains("--apply"@),
    ensures
        parsed_args(c, args, doubles) matches Ok(ParsedView::Run(asked)) ==> !asked.apply,
    decreases args.len(),
{
    if args.len() > 0 {
        assert(args.contains(args[0]));
        lemma_contains_skip(args, 1, "--apply"@);
        match switched(c, args[0]) {
            Some(next) => {
                law_apply_is_explicit(next, args.skip(1), doubles.skip(1));
            },
            None => {},
        }
        if args.len() > 1 {
            lemma_contains_skip(args, 2, "--apply"@);
            match valued(c, args[0], args[1], doubles[1]) {
                Ok(next) => {
                    law_apply_is_explicit(next, args.skip(2), doubles.skip(2));
                },
                Err(_) => {},
            }
        }
    }
}

proof fn lemma_contains_skip(args: Seq<Seq<char>>, n: int, arg: Seq<char>)
    requires
        0 <= n <= args.len(),
        !args.contains(arg),
    ensures
        !args.skip(n).contains(arg),
{
    if args.skip(n).contains(arg) {
        let i = choose|i: int| 0 <= i < args.skip(n).len() && args.skip(n)[i] == arg;
        assert(args[i + n] == arg);
    }
}

} // verus!
