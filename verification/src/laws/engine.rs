//! Laws of the engine: how the formatter is called, and what is made of its
//! output.

use crate::clip;
use crate::diff;
use crate::engine;
use crate::engine::FormatView;
use crate::laws;
use crate::text;
use crate::types::ScopedFileView;
use crate::unified;
use vstd::prelude::*;

verus! {

/// A text of quotes alone.
pub open spec fn quotes(t: Seq<char>) -> bool {
    forall|i: int| 0 <= i < t.len() ==> #[trigger] t[i] == '"'
}

/// Four digits.
pub open spec fn year(t: Seq<char>) -> bool {
    t.len() == 4 && text::all_digits(t)
}

proof fn lemma_quotes_before(front: Seq<char>, t: Seq<char>)
    requires
        quotes(front),
        t.len() > 0,
        t[0] != '"',
    ensures
        engine::unquoted_front(front + t) == t,
    decreases front.len(),
{
    if front.len() == 0 {
        assert(front + t == t);
    } else {
        let rest = front.skip(1);
        assert forall|i: int| 0 <= i < rest.len() implies #[trigger] rest[i] == '"' by {
            assert(rest[i] == front[i + 1]);
        }
        assert((front + t).skip(1) == rest + t);
        assert((front + t)[0] == front[0]);
        lemma_quotes_before(rest, t);
    }
}

proof fn lemma_quotes_behind(t: Seq<char>, end: Seq<char>)
    requires
        quotes(end),
        t.len() > 0,
        t.last() != '"',
    ensures
        engine::unquoted_end(t + end) == t,
    decreases end.len(),
{
    if end.len() == 0 {
        assert(t + end == t);
    } else {
        let rest = end.drop_last();
        assert((t + end).drop_last() == t + rest);
        assert((t + end).last() == end[end.len() - 1]);
        lemma_quotes_behind(t, rest);
    }
}

/// A manifest's line that sets the edition, however it is indented, spaced and
/// quoted, gives the edition.
pub proof fn law_edition_is_read(
    front: Seq<char>,
    before: Seq<char>,
    after: Seq<char>,
    opening: Seq<char>,
    value: Seq<char>,
    closing: Seq<char>,
    end: Seq<char>,
)
    requires
        laws::text::blank(front),
        laws::text::blank(before),
        laws::text::blank(after),
        quotes(opening),
        year(value),
        quotes(closing),
        laws::text::blank(end),
    ensures
        engine::line_edition(
            front + ("edition"@ + (before + (seq!['='] + (after + (opening + (value + closing))))))
                + end,
        ) == Some(value),
{
    reveal_strlit("edition");
    let quoted = opening + (value + closing);
    let rest = before + (seq!['='] + (after + quoted));
    let core = "edition"@ + rest;
    assert(text::is_digit(value[0]) && text::is_digit(value[3]));
    assert(quoted.len() > 0);
    assert(!text::is_space(quoted[0])) by {
        if opening.len() > 0 {
            assert(quoted[0] == opening[0]);
        } else {
            assert(quoted[0] == value[0]);
        }
    }
    assert(!text::is_space(quoted.last())) by {
        if closing.len() > 0 {
            assert(quoted.last() == closing[closing.len() - 1]);
        } else {
            assert(quoted.last() == value[3]);
        }
    }
    assert(core[0] == 'e');
    assert(core.last() == quoted.last());
    laws::text::law_trim(front, core, end);
    assert(core.take(7) == "edition"@);
    assert(core.skip(7) == rest);
    assert forall|i: int| 0 <= i < before.len() implies #[trigger] before[i] != '=' by {
        assert(text::is_space(before[i]));
    }
    assert forall|i: int| 0 <= i < before.len() implies #[trigger] rest[i] != '=' by {
        assert(rest[i] == before[i]);
    }
    assert(rest[before.len() as int] == '=');
    text::lemma_first_of(rest, '=', before.len() as int);
    assert(rest.skip(before.len() as int + 1) == after + quoted);
    let none = Seq::<char>::empty();
    assert(after + quoted + none == after + quoted);
    laws::text::law_trim(after, quoted, none);
    assert((value + closing)[0] == value[0]);
    lemma_quotes_before(opening, value + closing);
    lemma_quotes_behind(value, closing);
    assert(text::is_digit(value[1]) && text::is_digit(value[2]));
}

/// An edition is four digits, from a line that starts with the word.
pub proof fn law_edition_is_a_year(line: Seq<char>)
    ensures
        engine::line_edition(line) matches Some(value) ==> year(value) && text::starts_with(
            text::trim(line),
            "edition"@,
        ),
{
}

/// The edition of a manifest is that of its first line that sets one: lines
/// before it that set none do not count, nor do any behind it.
pub proof fn law_first_edition_counts(
    before: Seq<Seq<char>>,
    line: Seq<char>,
    after: Seq<Seq<char>>,
)
    requires
        forall|i: int|
            0 <= i < before.len() ==> engine::line_edition(#[trigger] before[i]) is None,
    ensures
        engine::first_edition(before) is None,
        engine::line_edition(line) is Some ==> engine::first_edition(before + (seq![line] + after))
            == engine::line_edition(line),
    decreases before.len(),
{
    let all = before + (seq![line] + after);
    if before.len() == 0 {
        assert(all[0] == line);
    } else {
        let more = before.skip(1);
        assert forall|i: int| 0 <= i < more.len() implies engine::line_edition(
            #[trigger] more[i],
        ) is None by {
            assert(more[i] == before[i + 1]);
        }
        assert(engine::line_edition(before[0]) is None);
        assert(all[0] == before[0]);
        assert(all.skip(1) == more + (seq![line] + after));
        law_first_edition_counts(more, line, after);
    }
}

/// The manifest that decides the edition is the nearest that sets one: those
/// before it are missing or set none, and those behind it do not count.
pub proof fn law_nearest_manifest_decides(
    before: Seq<Option<Seq<char>>>,
    manifest: Seq<char>,
    after: Seq<Option<Seq<char>>>,
)
    requires
        forall|i: int|
            0 <= i < before.len() ==> ((#[trigger] before[i]) matches Some(m)
                ==> engine::first_edition(text::lines(m)) is None),
    ensures
        engine::nearest_edition(before) is None,
        engine::first_edition(text::lines(manifest)) is Some ==> engine::nearest_edition(
            before + (seq![Some(manifest)] + after),
        ) == engine::first_edition(text::lines(manifest)),
    decreases before.len(),
{
    let all = before + (seq![Some(manifest)] + after);
    if before.len() == 0 {
        assert(all[0] == Some(manifest));
    } else {
        let more = before.skip(1);
        assert forall|i: int| 0 <= i < more.len() implies ((#[trigger] more[i]) matches Some(m)
            ==> engine::first_edition(text::lines(m)) is None) by {
            assert(more[i] == before[i + 1]);
        }
        assert(all[0] == before[0]);
        assert(all.skip(1) == more + (seq![Some(manifest)] + after));
        law_nearest_manifest_decides(more, manifest, after);
    }
}

/// The formatter writes to standard output, and is told the edition and the
/// config file where they are known, and nothing else.
pub proof fn law_formatter_is_told_what_is_known(edition: Seq<char>, config_path: Seq<char>)
    ensures
        engine::rustfmt_call(None, None) == seq!["--emit"@, "stdout"@],
        engine::rustfmt_call(Some(edition), None) == seq![
            "--emit"@,
            "stdout"@,
            "--edition"@,
            edition,
        ],
        engine::rustfmt_call(None, Some(config_path)) == seq![
            "--emit"@,
            "stdout"@,
            "--config-path"@,
            config_path,
        ],
        engine::rustfmt_call(Some(edition), Some(config_path)) == seq![
            "--emit"@,
            "stdout"@,
            "--edition"@,
            edition,
            "--config-path"@,
            config_path,
        ],
{
}

/// A config file is named exactly where one is there, and the plain one wins.
pub proof fn law_plain_config_wins(has_plain: bool, has_hidden: bool)
    ensures
        engine::config_name(has_plain, has_hidden) is Some <==> has_plain || has_hidden,
        engine::config_name(true, has_hidden) == Some("rustfmt.toml"@),
        engine::config_name(false, true) == Some(".rustfmt.toml"@),
{
}

/// A formatter that has exited is never killed, one whose time is not up is never
/// killed either, and one that still runs past its time is not waited for.
pub proof fn law_only_late_formatters_are_killed(exited: bool, expired: bool)
    ensures
        engine::next_step(exited, expired) is Collect <==> exited,
        engine::next_step(exited, expired) is Kill <==> !exited && expired,
        engine::next_step(exited, expired) is Wait <==> !exited && !expired,
{
}

/// What is said of a file follows from its text, the formatter's output and the
/// formatter's output on that: the file is idempotent exactly where the second
/// output is the first, the times are those of the passes and their sum, and the
/// counts are those of the rows of its patch.
pub proof fn law_result_of_a_file(
    file: ScopedFileView,
    original: Seq<char>,
    formatted: Seq<char>,
    reformatted: Option<Seq<char>>,
    first: u64,
    second: u64,
)
    requires
        formatted != original ==> engine::diff_holds(original, formatted),
    ensures
        ({
            let r = engine::format_result(
                file,
                original,
                formatted,
                reformatted,
                first as int,
                second as int,
            );
            &&& r.path == file.path
            &&& r.engine == "rustfmt-diff-intersect"@
            &&& r.fmt_clean is None
            &&& r.first_pass_duration_ms == first
            &&& r.idempotency_duration_ms == second
            &&& first + second <= u64::MAX ==> r.rustfmt_duration_ms == first + second
            &&& first + second > u64::MAX ==> r.rustfmt_duration_ms == u64::MAX
            &&& formatted == original ==> r.idempotent && !r.changed && r.hunks_total == 0
            &&& formatted != original ==> (r.idempotent <==> reformatted == Some(formatted))
            &&& formatted != original ==> r.hunks_total == diff::line_groups(
                original,
                formatted,
                3,
            ).len()
            &&& r.changed <==> r.hunks_kept > 0
            &&& r.changed <==> r.patch is Some
            &&& r.changed <==> r.new_content is Some
            &&& r.patch matches Some(patch) ==> {
                &&& unified::rows_with(text::pieces(patch), '+') == r.added_lines
                &&& unified::rows_with(text::pieces(patch), '-') == r.removed_lines
                &&& unified::rows_with(text::pieces(patch), '@') == r.hunks_kept
            }
            &&& !r.changed ==> r.added_lines == 0 && r.removed_lines == 0 && r.hunks_kept == 0
        }),
{
    engine::law_results_well_formed(
        file,
        original,
        formatted,
        reformatted,
        first as int,
        second as int,
        original,
    );
    if formatted != original {
        unified::law_patch_rows_are_counted(
            original,
            formatted,
            diff::line_groups(original, formatted, clip::CONTEXT as nat),
            file.ranges,
        );
    }
}

/// A file is clean exactly where the formatter leaves what the run makes of it
/// as it is: its new text where it has one, and its own text where it has none.
/// Nothing else is said anew of it.
pub proof fn law_clean_files_stay(r: FormatView, original: Seq<char>, output: Seq<char>)
    ensures
        ({
            let checked = engine::with_clean(r, original, output);
            &&& checked.fmt_clean is Some
            &&& r.new_content matches Some(content) ==> (checked.fmt_clean->0 <==> output
                == content)
            &&& r.new_content is None ==> (checked.fmt_clean->0 <==> output == original)
            &&& checked == FormatView { fmt_clean: checked.fmt_clean, ..r }
        }),
{
}

/// The formatter runs again exactly where its output differs from the text, be it
/// in length or in one character.
pub proof fn law_second_pass_is_due(original: Seq<char>, formatted: Seq<char>)
    ensures
        engine::second_pass_due(original, formatted) <==> original.len() != formatted.len()
            || exists|i: int| 0 <= i < original.len() && original[i] != #[trigger] formatted[i],
{
    if original.len() == formatted.len() && forall|i: int|
        0 <= i < original.len() ==> original[i] == #[trigger] formatted[i] {
        assert(original == formatted);
    }
}

/// The formatter's output counts as it is, also where it is empty, and only where
/// the formatter succeeded.
pub proof fn law_formatter_output(stdout: Seq<char>)
    ensures
        engine::formatter_output(true, stdout) == Some(stdout),
        engine::formatter_output(false, stdout) is None,
{
}

} // verus!
