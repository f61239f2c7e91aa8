//! Laws of the command line: what each option means, and how they follow each
//! other.

use crate::cli;
use crate::cli::ConfigView;
use crate::cli::Emit;
use crate::cli::ParsedView;
use crate::cli::ReplayConfigView;
use crate::double::Double;
use crate::gates::Budget;
use crate::laws;
use crate::text;
use crate::types::Vcs;
use vstd::prelude::*;

verus! {

/// No two options have the same name.
proof fn lemma_names()
    ensures
        "--help"@.len() == 6,
        "-h"@.len() == 2,
        "--version"@.len() == 9,
        "-V"@.len() == 2,
        "--base"@.len() == 6,
        "--changeset"@.len() == 11,
        "--emit"@.len() == 6,
        "--exclude"@.len() == 9,
        "--budget-max-added-lines"@.len() == 24,
        "--budget-max-files"@.len() == 18,
        "--budget-max-ratio"@.len() == 18,
        "--rustfmt"@.len() == 9,
        "--engine-timeout-secs"@.len() == 21,
        "--log"@.len() == 5,
        "--scope-from-git"@.len() == 16,
        "--scope-from-jj"@.len() == 15,
        "--apply"@.len() == 7,
        "--sandbox"@.len() == 9,
        "--verify-fmt-check"@.len() == 18,
        "--no-log"@.len() == 8,
        "--help"@ != "--base"@,
        "--help"@ != "--emit"@,
        "-h"@ != "-V"@,
        "--version"@ != "--exclude"@,
        "--version"@ != "--rustfmt"@,
        "--version"@ != "--sandbox"@,
        "--base"@ != "--emit"@,
        "--exclude"@ != "--rustfmt"@,
        "--exclude"@ != "--sandbox"@,
        "--budget-max-files"@ != "--budget-max-ratio"@,
        "--budget-max-files"@ != "--verify-fmt-check"@,
        "--budget-max-ratio"@ != "--verify-fmt-check"@,
        "--rustfmt"@ != "--sandbox"@,
{
    reveal_strlit("--help");
    reveal_strlit("-h");
    reveal_strlit("--version");
    reveal_strlit("-V");
    reveal_strlit("--base");
    reveal_strlit("--changeset");
    reveal_strlit("--emit");
    reveal_strlit("--exclude");
    reveal_strlit("--budget-max-added-lines");
    reveal_strlit("--budget-max-files");
    reveal_strlit("--budget-max-ratio");
    reveal_strlit("--rustfmt");
    reveal_strlit("--engine-timeout-secs");
    reveal_strlit("--log");
    reveal_strlit("--scope-from-git");
    reveal_strlit("--scope-from-jj");
    reveal_strlit("--apply");
    reveal_strlit("--sandbox");
    reveal_strlit("--verify-fmt-check");
    reveal_strlit("--no-log");
    assert("--help"@[2] != "--base"@[2]);
    assert("--help"@[2] != "--emit"@[2]);
    assert("-h"@[1] != "-V"@[1]);
    assert("--version"@[2] != "--exclude"@[2]);
    assert("--version"@[2] != "--rustfmt"@[2]);
    assert("--version"@[2] != "--sandbox"@[2]);
    assert("--base"@[2] != "--emit"@[2]);
    assert("--exclude"@[2] != "--rustfmt"@[2]);
    assert("--exclude"@[2] != "--sandbox"@[2]);
    assert("--budget-max-files"@[13] != "--budget-max-ratio"@[13]);
    assert("--budget-max-files"@[2] != "--verify-fmt-check"@[2]);
    assert("--budget-max-ratio"@[2] != "--verify-fmt-check"@[2]);
    assert("--rustfmt"@[2] != "--sandbox"@[2]);
}

proof fn lemma_forms()
    ensures
        "json"@ != "patch"@,
        "json"@ != "diff"@,
{
    reveal_strlit("json");
    reveal_strlit("patch");
    reveal_strlit("diff");
    assert("json"@[0] != "diff"@[0]);
}

proof fn lemma_valued(
    c: ConfigView,
    option: Seq<char>,
    value: Seq<char>,
    rest: Seq<Seq<char>>,
    doubles: Seq<Option<Double>>,
)
    requires
        cli::takes_value(option),
        option != "--help"@,
        option != "-h"@,
        option != "--version"@,
        option != "-V"@,
    ensures
        ({
            let args = seq![option, value] + rest;
            match cli::valued(c, option, value, doubles[1]) {
                Ok(next) => cli::parsed_args(c, args, doubles) == cli::parsed_args(
                    next,
                    rest,
                    doubles.skip(2),
                ),
                Err(message) => cli::parsed_args(c, args, doubles) == Err::<
                    ParsedView,
                    Seq<char>,
                >(message),
            }
        }),
{
    let args = seq![option, value] + rest;
    assert(args[0] == option);
    assert(args[1] == value);
    assert(args.skip(2) == rest);
}

proof fn lemma_switched(
    c: ConfigView,
    option: Seq<char>,
    rest: Seq<Seq<char>>,
    doubles: Seq<Option<Double>>,
)
    requires
        !cli::takes_value(option),
        option != "--help"@,
        option != "-h"@,
        option != "--version"@,
        option != "-V"@,
    ensures
        ({
            let args = seq![option] + rest;
            match cli::switched(c, option) {
                Some(next) => cli::parsed_args(c, args, doubles) == cli::parsed_args(
                    next,
                    rest,
                    doubles.skip(1),
                ),
                None => cli::parsed_args(c, args, doubles) is Err,
            }
        }),
{
    let args = seq![option] + rest;
    assert(args[0] == option);
    assert(args.skip(1) == rest);
}

/// The base is the value given, whatever it is, and nothing else changes.
pub proof fn law_base_is_set(
    c: ConfigView,
    value: Seq<char>,
    rest: Seq<Seq<char>>,
    doubles: Seq<Option<Double>>,
)
    ensures
        cli::parsed_args(c, seq!["--base"@, value] + rest, doubles) == cli::parsed_args(
            ConfigView { base: value, ..c },
            rest,
            doubles.skip(2),
        ),
{
    lemma_names();
    lemma_valued(c, "--base"@, value, rest, doubles);
}

/// The change set is read from the file given, whatever it is, and nothing else changes.
pub proof fn law_changeset_is_set(
    c: ConfigView,
    value: Seq<char>,
    rest: Seq<Seq<char>>,
    doubles: Seq<Option<Double>>,
)
    ensures
        cli::parsed_args(c, seq!["--changeset"@, value] + rest, doubles) == cli::parsed_args(
            ConfigView { changeset: Some(value), ..c },
            rest,
            doubles.skip(2),
        ),
{
    lemma_names();
    lemma_valued(c, "--changeset"@, value, rest, doubles);
}

/// The formatter is the program given, whatever it is, and nothing else changes.
pub proof fn law_rustfmt_is_set(
    c: ConfigView,
    value: Seq<char>,
    rest: Seq<Seq<char>>,
    doubles: Seq<Option<Double>>,
)
    ensures
        cli::parsed_args(c, seq!["--rustfmt"@, value] + rest, doubles) == cli::parsed_args(
            ConfigView { rustfmt: value, ..c },
            rest,
            doubles.skip(2),
        ),
{
    lemma_names();
    lemma_valued(c, "--rustfmt"@, value, rest, doubles);
}

/// The event log is the file given, whatever it is, and nothing else changes.
pub proof fn law_log_is_set(
    c: ConfigView,
    value: Seq<char>,
    rest: Seq<Seq<char>>,
    doubles: Seq<Option<Double>>,
)
    ensures
        cli::parsed_args(c, seq!["--log"@, value] + rest, doubles) == cli::parsed_args(
            ConfigView { log: Some(value), ..c },
            rest,
            doubles.skip(2),
        ),
{
    lemma_names();
    lemma_valued(c, "--log"@, value, rest, doubles);
}

/// The items of a list are its parts without the white space around them, all
/// but the empty ones, in order.
pub proof fn law_list_items(parts: Seq<Seq<char>>)
    ensures
        cli::list_items(parts) == parts.map_values(|p: Seq<char>| text::trim(p)).filter(
            |p: Seq<char>| p.len() > 0,
        ),
    decreases parts.len(),
{
    reveal(Seq::filter);
    let trim = |p: Seq<char>| text::trim(p);
    if parts.len() > 0 {
        law_list_items(parts.drop_last());
        assert(parts.map_values(trim).drop_last() == parts.drop_last().map_values(trim));
        assert(parts.map_values(trim).last() == text::trim(parts.last()));
    }
}

/// What is to be left out comes on top of what already is: every item of the
/// list, between the commas.
pub proof fn law_exclude_is_added(
    c: ConfigView,
    value: Seq<char>,
    rest: Seq<Seq<char>>,
    doubles: Seq<Option<Double>>,
)
    ensures
        cli::parsed_args(c, seq!["--exclude"@, value] + rest, doubles) == cli::parsed_args(
            ConfigView {
                excludes: c.excludes + text::split_at_char(value, ',').map_values(
                    |p: Seq<char>| text::trim(p),
                ).filter(|p: Seq<char>| p.len() > 0),
                ..c
            },
            rest,
            doubles.skip(2),
        ),
{
    lemma_names();
    law_list_items(text::split_at_char(value, ','));
    lemma_valued(c, "--exclude"@, value, rest, doubles);
}

/// The report is wanted as JSON or as a patch, under the names that each has;
/// any other name is refused.
pub proof fn law_emit_is_set(
    c: ConfigView,
    value: Seq<char>,
    rest: Seq<Seq<char>>,
    doubles: Seq<Option<Double>>,
)
    ensures
        value == "json"@ ==> cli::parsed_args(c, seq!["--emit"@, value] + rest, doubles)
            == cli::parsed_args(ConfigView { emit: Emit::Json, ..c }, rest, doubles.skip(2)),
        value == "patch"@ || value == "diff"@ ==> cli::parsed_args(
            c,
            seq!["--emit"@, value] + rest,
            doubles,
        ) == cli::parsed_args(ConfigView { emit: Emit::Patch, ..c }, rest, doubles.skip(2)),
        value != "json"@ && value != "patch"@ && value != "diff"@ ==> cli::parsed_args(
            c,
            seq!["--emit"@, value] + rest,
            doubles,
        ) is Err,
{
    lemma_names();
    lemma_forms();
    lemma_valued(c, "--emit"@, value, rest, doubles);
}

/// The digits of a number, which a plus sign may stand before.
pub open spec fn digits_of(value: Seq<char>) -> Seq<char> {
    if value.len() > 0 && value[0] == '+' {
        value.skip(1)
    } else {
        value
    }
}

/// A number that can be read: digits alone, and not too large.
pub open spec fn numeric(value: Seq<char>) -> bool {
    digits_of(value).len() > 0 && text::all_digits(digits_of(value)) && text::digits_value(
        digits_of(value),
    ) <= usize::MAX
}

/// The cap on added lines is the number given; what is no number is refused.
pub proof fn law_budget_max_added_lines_is_set(
    c: ConfigView,
    value: Seq<char>,
    rest: Seq<Seq<char>>,
    doubles: Seq<Option<Double>>,
)
    ensures
        ({
            let args = seq!["--budget-max-added-lines"@, value] + rest;
            &&& numeric(value) ==> cli::parsed_args(c, args, doubles) == cli::parsed_args(
                ConfigView {
                    budget: Budget {
                        max_added_lines: text::digits_value(digits_of(value)) as usize,
                        ..c.budget
                    },
                    ..c
                },
                rest,
                doubles.skip(2),
            )
            &&& !numeric(value) ==> cli::parsed_args(c, args, doubles) is Err
        }),
{
    lemma_names();
    laws::text::law_number_is_read(value);
    lemma_valued(c, "--budget-max-added-lines"@, value, rest, doubles);
}

/// The cap on files is the number given; what is no number is refused.
pub proof fn law_budget_max_files_is_set(
    c: ConfigView,
    value: Seq<char>,
    rest: Seq<Seq<char>>,
    doubles: Seq<Option<Double>>,
)
    ensures
        ({
            let args = seq!["--budget-max-files"@, value] + rest;
            &&& numeric(value) ==> cli::parsed_args(c, args, doubles) == cli::parsed_args(
                ConfigView {
                    budget: Budget {
                        max_files: text::digits_value(digits_of(value)) as usize,
                        ..c.budget
                    },
                    ..c
                },
                rest,
                doubles.skip(2),
            )
            &&& !numeric(value) ==> cli::parsed_args(c, args, doubles) is Err
        }),
{
    lemma_names();
    laws::text::law_number_is_read(value);
    lemma_valued(c, "--budget-max-files"@, value, rest, doubles);
}

/// The formatter's time is the number given; what is no number is refused.
pub proof fn law_engine_timeout_secs_is_set(
    c: ConfigView,
    value: Seq<char>,
    rest: Seq<Seq<char>>,
    doubles: Seq<Option<Double>>,
)
    ensures
        ({
            let args = seq!["--engine-timeout-secs"@, value] + rest;
            &&& numeric(value) ==> cli::parsed_args(c, args, doubles) == cli::parsed_args(
                ConfigView {
                    engine_timeout_secs: text::digits_value(digits_of(value)) as u64,
                    ..c
                },
                rest,
                doubles.skip(2),
            )
            &&& !numeric(value) ==> cli::parsed_args(c, args, doubles) is Err
        }),
{
    lemma_names();
    laws::text::law_number_is_read(value);
    lemma_valued(c, "--engine-timeout-secs"@, value, rest, doubles);
}

/// The cap on the ratio is the number that the value was read as; what could not
/// be read is refused.
pub proof fn law_budget_max_ratio_is_set(
    c: ConfigView,
    value: Seq<char>,
    rest: Seq<Seq<char>>,
    doubles: Seq<Option<Double>>,
)
    ensures
        doubles[1] matches Some(max_ratio) ==> cli::parsed_args(
            c,
            seq!["--budget-max-ratio"@, value] + rest,
            doubles,
        ) == cli::parsed_args(
            ConfigView { budget: Budget { max_ratio, ..c.budget }, ..c },
            rest,
            doubles.skip(2),
        ),
        doubles[1] is None ==> cli::parsed_args(
            c,
            seq!["--budget-max-ratio"@, value] + rest,
            doubles,
        ) is Err,
{
    lemma_names();
    lemma_valued(c, "--budget-max-ratio"@, value, rest, doubles);
}

/// The scope is taken from Git, and nothing else changes.
pub proof fn law_scope_from_git_is_switched(
    c: ConfigView,
    rest: Seq<Seq<char>>,
    doubles: Seq<Option<Double>>,
)
    ensures
        cli::parsed_args(c, seq!["--scope-from-git"@] + rest, doubles) == cli::parsed_args(
            ConfigView { vcs: Some(Vcs::Git), ..c },
            rest,
            doubles.skip(1),
        ),
{
    lemma_names();
    lemma_switched(c, "--scope-from-git"@, rest, doubles);
}

/// The scope is taken from Jujutsu, and nothing else changes.
pub proof fn law_scope_from_jj_is_switched(
    c: ConfigView,
    rest: Seq<Seq<char>>,
    doubles: Seq<Option<Double>>,
)
    ensures
        cli::parsed_args(c, seq!["--scope-from-jj"@] + rest, doubles) == cli::parsed_args(
            ConfigView { vcs: Some(Vcs::Jj), ..c },
            rest,
            doubles.skip(1),
        ),
{
    lemma_names();
    lemma_switched(c, "--scope-from-jj"@, rest, doubles);
}

/// Changes are applied, and nothing else changes.
pub proof fn law_apply_is_switched(
    c: ConfigView,
    rest: Seq<Seq<char>>,
    doubles: Seq<Option<Double>>,
)
    ensures
        cli::parsed_args(c, seq!["--apply"@] + rest, doubles) == cli::parsed_args(
            ConfigView { apply: true, ..c },
            rest,
            doubles.skip(1),
        ),
{
    lemma_names();
    lemma_switched(c, "--apply"@, rest, doubles);
}

/// The sandbox is asked for, and nothing else changes.
pub proof fn law_sandbox_is_switched(
    c: ConfigView,
    rest: Seq<Seq<char>>,
    doubles: Seq<Option<Double>>,
)
    ensures
        cli::parsed_args(c, seq!["--sandbox"@] + rest, doubles) == cli::parsed_args(
            ConfigView { sandbox: true, ..c },
            rest,
            doubles.skip(1),
        ),
{
    lemma_names();
    lemma_switched(c, "--sandbox"@, rest, doubles);
}

/// Whole files are held to the formatter, and nothing else changes.
pub proof fn law_verify_fmt_check_is_switched(
    c: ConfigView,
    rest: Seq<Seq<char>>,
    doubles: Seq<Option<Double>>,
)
    ensures
        cli::parsed_args(c, seq!["--verify-fmt-check"@] + rest, doubles) == cli::parsed_args(
            ConfigView { verify_fmt_check: true, ..c },
            rest,
            doubles.skip(1),
        ),
{
    lemma_names();
    lemma_switched(c, "--verify-fmt-check"@, rest, doubles);
}

/// No event log is written, and nothing else changes.
pub proof fn law_no_log_is_switched(
    c: ConfigView,
    rest: Seq<Seq<char>>,
    doubles: Seq<Option<Double>>,
)
    ensures
        cli::parsed_args(c, seq!["--no-log"@] + rest, doubles) == cli::parsed_args(
            ConfigView { log: None, ..c },
            rest,
            doubles.skip(1),
        ),
{
    lemma_names();
    lemma_switched(c, "--no-log"@, rest, doubles);
}

/// Help and the version are given wherever they are asked for, whatever follows.
pub proof fn law_help_and_version(
    c: ConfigView,
    rest: Seq<Seq<char>>,
    doubles: Seq<Option<Double>>,
)
    ensures
        cli::parsed_args(c, seq!["--help"@] + rest, doubles) == Ok::<ParsedView, Seq<char>>(
            ParsedView::Help,
        ),
        cli::parsed_args(c, seq!["-h"@] + rest, doubles) == Ok::<ParsedView, Seq<char>>(
            ParsedView::Help,
        ),
        cli::parsed_args(c, seq!["--version"@] + rest, doubles) == Ok::<ParsedView, Seq<char>>(
            ParsedView::Version,
        ),
        cli::parsed_args(c, seq!["-V"@] + rest, doubles) == Ok::<ParsedView, Seq<char>>(
            ParsedView::Version,
        ),
{
    lemma_names();
    assert((seq!["--help"@] + rest)[0] == "--help"@);
    assert((seq!["-h"@] + rest)[0] == "-h"@);
    assert((seq!["--version"@] + rest)[0] == "--version"@);
    assert((seq!["-V"@] + rest)[0] == "-V"@);
}

/// Every word that starts an option.
pub open spec fn option_names() -> Seq<Seq<char>> {
    seq![
        "--help"@,
        "-h"@,
        "--version"@,
        "-V"@,
        "--base"@,
        "--changeset"@,
        "--emit"@,
        "--exclude"@,
        "--budget-max-added-lines"@,
        "--budget-max-files"@,
        "--budget-max-ratio"@,
        "--rustfmt"@,
        "--engine-timeout-secs"@,
        "--log"@,
        "--scope-from-git"@,
        "--scope-from-jj"@,
        "--apply"@,
        "--sandbox"@,
        "--verify-fmt-check"@,
        "--no-log"@,
    ]
}

/// A word that is no option is refused, and named.
pub proof fn law_unknown_words_are_refused(
    c: ConfigView,
    word: Seq<char>,
    rest: Seq<Seq<char>>,
    doubles: Seq<Option<Double>>,
)
    requires
        !option_names().contains(word),
    ensures
        cli::parsed_args(c, seq![word] + rest, doubles) == Err::<ParsedView, Seq<char>>(
            "unknown argument: "@ + word + " (see --help)"@,
        ),
{
    let names = option_names();
    assert forall|i: int| 0 <= i < names.len() implies #[trigger] names[i] != word by {
        assert(names.contains(names[i]));
    }
    assert(names[0] == "--help"@);
    assert(names[1] == "-h"@);
    assert(names[2] == "--version"@);
    assert(names[3] == "-V"@);
    assert(names[4] == "--base"@);
    assert(names[5] == "--changeset"@);
    assert(names[6] == "--emit"@);
    assert(names[7] == "--exclude"@);
    assert(names[8] == "--budget-max-added-lines"@);
    assert(names[9] == "--budget-max-files"@);
    assert(names[10] == "--budget-max-ratio"@);
    assert(names[11] == "--rustfmt"@);
    assert(names[12] == "--engine-timeout-secs"@);
    assert(names[13] == "--log"@);
    assert(names[14] == "--scope-from-git"@);
    assert(names[15] == "--scope-from-jj"@);
    assert(names[16] == "--apply"@);
    assert(names[17] == "--sandbox"@);
    assert(names[18] == "--verify-fmt-check"@);
    assert(names[19] == "--no-log"@);
    assert((seq![word] + rest)[0] == word);
}

/// The options that want a value.
pub open spec fn valued_names() -> Seq<Seq<char>> {
    seq![
        "--base"@,
        "--changeset"@,
        "--emit"@,
        "--exclude"@,
        "--budget-max-added-lines"@,
        "--budget-max-files"@,
        "--budget-max-ratio"@,
        "--rustfmt"@,
        "--engine-timeout-secs"@,
        "--log"@,
    ]
}

/// An option that wants a value and is the last word has none, and is named.
pub proof fn law_missing_values_are_refused(
    c: ConfigView,
    option: Seq<char>,
    doubles: Seq<Option<Double>>,
)
    requires
        valued_names().contains(option),
    ensures
        cli::parsed_args(c, seq![option], doubles) == Err::<ParsedView, Seq<char>>(
            "missing value for "@ + option,
        ),
{
    lemma_names();
    let k = choose|k: int| 0 <= k < valued_names().len() && valued_names()[k] == option;
    assert(valued_names()[k] == option);
    assert(seq![option][0] == option);
    assert(cli::takes_value(option));
}

/// A command line can be read in parts: where the first part asks for a run, the
/// second is read on top of what it asked for, so that of two options for one
/// thing the later one counts; help and the version stay what they are.
pub proof fn law_options_follow_each_other(
    c: ConfigView,
    a: Seq<Seq<char>>,
    b: Seq<Seq<char>>,
    doubles: Seq<Option<Double>>,
)
    requires
        doubles.len() == a.len() + b.len(),
    ensures
        match cli::parsed_args(c, a, doubles.take(a.len() as int)) {
            Ok(ParsedView::Run(next)) => cli::parsed_args(c, a + b, doubles) == cli::parsed_args(
                next,
                b,
                doubles.skip(a.len() as int),
            ),
            Ok(other) => cli::parsed_args(c, a + b, doubles) == Ok::<ParsedView, Seq<char>>(other),
            Err(_) => true,
        },
    decreases a.len(),
{
    let first = doubles.take(a.len() as int);
    if a.len() == 0 {
        assert(a + b == b);
        assert(doubles.skip(0) == doubles);
    } else {
        assert((a + b)[0] == a[0]);
        if a.len() >= 2 {
            assert((a + b)[1] == a[1]);
            assert(first[1] == doubles[1]);
            assert((a + b).skip(2) == a.skip(2) + b);
            assert(first.skip(2) == doubles.skip(2).take(a.len() - 2));
            assert(doubles.skip(2).skip(a.len() - 2) == doubles.skip(a.len() as int));
            match cli::valued(c, a[0], a[1], doubles[1]) {
                Ok(next) => law_options_follow_each_other(next, a.skip(2), b, doubles.skip(2)),
                Err(_) => {},
            }
        }
        assert((a + b).skip(1) == a.skip(1) + b);
        assert(first.skip(1) == doubles.skip(1).take(a.len() - 1));
        assert(doubles.skip(1).skip(a.len() - 1) == doubles.skip(a.len() as int));
        match cli::switched(c, a[0]) {
            Some(next) => law_options_follow_each_other(next, a.skip(1), b, doubles.skip(1)),
            None => {},
        }
    }
}

/// Without any word a run is asked for as configured.
pub proof fn law_no_words(c: ConfigView, doubles: Seq<Option<Double>>)
    ensures
        cli::parsed_args(c, Seq::empty(), doubles) == Ok::<ParsedView, Seq<char>>(
            ParsedView::Run(c),
        ),
{
}

/// What a replay is asked for: each option sets its own thing, the one word that
/// is no option is the run, and a second one or an unknown option is refused.
pub proof fn law_replay_options(
    c: ReplayConfigView,
    value: Seq<char>,
    rest: Seq<Seq<char>>,
)
    ensures
        cli::replay_args(c, seq!["--log"@, value] + rest) == cli::replay_args(
            ReplayConfigView { log: value, ..c },
            rest,
        ),
        value == "json"@ ==> cli::replay_args(c, seq!["--emit"@, value] + rest)
            == cli::replay_args(ReplayConfigView { emit: Emit::Json, ..c }, rest),
        value == "patch"@ || value == "diff"@ ==> cli::replay_args(
            c,
            seq!["--emit"@, value] + rest,
        ) == cli::replay_args(ReplayConfigView { emit: Emit::Patch, ..c }, rest),
        value != "json"@ && value != "patch"@ && value != "diff"@ ==> cli::replay_args(
            c,
            seq!["--emit"@, value] + rest,
        ) is Err,
        !text::starts_with(value, "--"@) && c.run_id is None ==> cli::replay_args(
            c,
            seq![value] + rest,
        ) == cli::replay_args(ReplayConfigView { run_id: Some(value), ..c }, rest),
        !text::starts_with(value, "--"@) && c.run_id is Some ==> cli::replay_args(
            c,
            seq![value] + rest,
        ) is Err,
        text::starts_with(value, "--"@) && value != "--log"@ && value != "--emit"@
            ==> cli::replay_args(c, seq![value] + rest) is Err,
        cli::replay_args(c, seq!["--log"@]) is Err,
        cli::replay_args(c, seq!["--emit"@]) is Err,
        c.run_id is Some ==> cli::replay_args(c, Seq::empty()) == Ok::<
            ReplayConfigView,
            Seq<char>,
        >(c),
        c.run_id is None ==> cli::replay_args(c, Seq::empty()) is Err,
{
    reveal_strlit("--log");
    reveal_strlit("--emit");
    reveal_strlit("--");
    lemma_forms();
    assert("--log"@.take(2) == "--"@);
    assert("--emit"@.take(2) == "--"@);
    let a = seq!["--log"@, value] + rest;
    assert(a[0] == "--log"@ && a[1] == value && a.skip(2) == rest);
    let b = seq!["--emit"@, value] + rest;
    assert(b[0] == "--emit"@ && b[1] == value && b.skip(2) == rest);
    let d = seq![value] + rest;
    assert(d[0] == value && d.skip(1) == rest);
    assert(seq!["--log"@][0] == "--log"@);
    assert(seq!["--emit"@][0] == "--emit"@);
}

} // verus!
