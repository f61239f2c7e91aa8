//! Laws of the gates: what makes a run accepted, and what a gate reports.

use crate::double;
use crate::double::Double;
use crate::engine::FormatView;
use crate::gates;
use crate::gates::{Budget, GateView, MeasureView};
use crate::laws;
use crate::text;
use crate::types::ScopedFileView;
use crate::unified;
use vstd::prelude::*;

verus! {

/// Whether an added line is bad: it ends with a blank or a tab, or it holds
/// nothing but white space.
pub open spec fn bad_addition(s: Seq<char>) -> bool {
    s.len() > 0 && (s.last() == ' ' || s.last() == '\t' || laws::text::blank(s))
}

/// An added line counts as unclean exactly where it ends with a blank or a tab, or
/// holds nothing but white space, whatever it starts with. No other line of a
/// patch counts.
pub proof fn law_unclean_lines(s: Seq<char>, line: Seq<char>)
    ensures
        gates::unclean(seq!['+'] + s) <==> bad_addition(s),
        line.len() == 0 || line[0] != '+' ==> !gates::unclean(line),
{
    let added = seq!['+'] + s;
    assert(added.skip(1) == s);
    assert(s.len() > 0 ==> added.last() == s.last());
    laws::text::law_trim_of_blank(s);
}

/// Whether a line of a patch adds something bad.
pub open spec fn adds_bad(line: Seq<char>) -> bool {
    line.len() > 0 && line[0] == '+' && bad_addition(line.skip(1))
}

proof fn lemma_unclean(line: Seq<char>)
    ensures
        gates::unclean(line) <==> adds_bad(line),
{
    if line.len() > 0 && line[0] == '+' {
        assert(seq!['+'] + line.skip(1) == line);
    }
    law_unclean_lines(line.skip(1), line);
}

/// Whether a file is one of the scope's.
pub open spec fn scoped(files: Seq<ScopedFileView>, path: Seq<char>) -> bool {
    exists|f: int| 0 <= f < files.len() && (#[trigger] files[f]).path == path
}

/// Whether a result is the first one for its path.
pub open spec fn first_for(results: Seq<FormatView>, i: int) -> bool {
    forall|j: int| 0 <= j < i ==> (#[trigger] results[j]).path != results[i].path
}

/// The changed results.
pub open spec fn changed_ones(results: Seq<FormatView>) -> Seq<FormatView> {
    results.filter(|r: FormatView| r.changed)
}

/// What the caller's own lines count for in the ratio: at least one.
pub open spec fn own_lines(n: usize) -> nat {
    if n == 0 {
        1
    } else {
        n as nat
    }
}

/// How many results changed is how many of them are changed ones.
pub proof fn law_changed_count(results: Seq<FormatView>)
    ensures
        gates::changed_count(results) == changed_ones(results).len(),
    decreases results.len(),
{
    reveal(Seq::filter);
    if results.len() > 0 {
        law_changed_count(results.drop_last());
    }
}

/// What was added to a file is what its first result says; nothing where it has
/// none.
pub proof fn law_added_for(results: Seq<FormatView>, path: Seq<char>)
    ensures
        forall|i: int|
            0 <= i < results.len() && (#[trigger] results[i]).path == path && first_for(results, i)
                ==> gates::added_for(results, path) == results[i].added_lines,
        (forall|i: int| 0 <= i < results.len() ==> (#[trigger] results[i]).path != path)
            ==> gates::added_for(results, path) == 0,
    decreases results.len(),
{
    if results.len() > 0 && results[0].path != path {
        let rest = results.skip(1);
        law_added_for(rest, path);
        assert forall|i: int|
            0 <= i < results.len() && (#[trigger] results[i]).path == path && first_for(results, i)
            implies gates::added_for(results, path) == results[i].added_lines by {
            assert(rest[i - 1] == results[i]);
            assert forall|j: int| 0 <= j < i - 1 implies (#[trigger] rest[j]).path != rest[i
                - 1].path by {
                assert(results[j + 1].path != results[i].path);
            }
            assert(first_for(rest, i - 1));
        }
        if forall|i: int| 0 <= i < results.len() ==> (#[trigger] results[i]).path != path {
            assert forall|i: int| 0 <= i < rest.len() implies (#[trigger] rest[i]).path != path by {
                assert(results[i + 1].path != path);
            }
        }
    }
}

/// The index of the first result for a path, where there is one.
proof fn lemma_some_first(results: Seq<FormatView>, path: Seq<char>, i: int) -> (j: int)
    requires
        0 <= i < results.len(),
        results[i].path == path,
    ensures
        0 <= j <= i,
        results[j].path == path,
        first_for(results, j),
    decreases i,
{
    if first_for(results, i) {
        i
    } else {
        let k = choose|k: int| 0 <= k < i && (#[trigger] results[k]).path == results[i].path;
        lemma_some_first(results, path, k)
    }
}

/// A run is accepted exactly where every changed file is in the scope, stays
/// within the cap on added lines, is stable, and adds no bad line; where what is
/// added to each file whose own lines are known stays within the ratio; where no
/// more files changed than allowed; and where no file that was tested as a whole
/// is unclean.
pub proof fn law_accepted(files: Seq<ScopedFileView>, results: Seq<FormatView>, budget: Budget)
    ensures
        gates::all_pass(gates::all_gates(files, results, budget)) <==> {
            &&& forall|i: int|
                0 <= i < results.len() && (#[trigger] results[i]).changed ==> {
                    &&& scoped(files, results[i].path)
                    &&& results[i].added_lines <= budget.max_added_lines
                    &&& results[i].idempotent
                    &&& results[i].patch matches Some(patch) ==> forall|k: int|
                        0 <= k < text::lines(patch).len() ==> !adds_bad(
                            #[trigger] text::lines(patch)[k],
                        )
                }
            &&& forall|f: int, i: int|
                0 <= f < files.len() && 0 <= i < results.len() && (#[trigger] files[f]).path == (
                #[trigger] results[i]).path && first_for(results, i) && results[i].added_lines != 0
                    ==> (files[f].agent_added_lines matches Some(own) ==> double::quotient_at_most(
                    results[i].added_lines as nat,
                    own_lines(own),
                    budget.max_ratio,
                ))
            &&& changed_ones(results).len() <= budget.max_files
            &&& forall|i: int|
                0 <= i < results.len() ==> (#[trigger] results[i]).fmt_clean != Some(false)
        },
{
    gates::law_gates_decide(files, results, budget);
    law_changed_count(results);
    assert forall|i: int| 0 <= i < results.len() implies ((forall|k: int|
        0 <= k < gates::patch_lines_of(#[trigger] results[i]).len() ==> !gates::unclean(
            #[trigger] gates::patch_lines_of(results[i])[k],
        )) <==> (results[i].patch matches Some(patch) ==> forall|k: int|
        0 <= k < text::lines(patch).len() ==> !adds_bad(#[trigger] text::lines(patch)[k]))) by {
        let all = gates::patch_lines_of(results[i]);
        assert forall|k: int| 0 <= k < all.len() implies gates::unclean(#[trigger] all[k])
            == adds_bad(all[k]) by {
            lemma_unclean(all[k]);
        }
    }
    assert forall|f: int, i: int|
        0 <= f < files.len() && 0 <= i < results.len() && (#[trigger] files[f]).path == (
        #[trigger] results[i]).path && first_for(results, i) implies gates::added_for(
        results,
        files[f].path,
    ) == results[i].added_lines by {
        law_added_for(results, files[f].path);
    }
    assert forall|f: int|
        0 <= f < files.len() && gates::ratio_applies(#[trigger] files[f], results) implies exists|
        i: int,
    |
        0 <= i < results.len() && files[f].path == (#[trigger] results[i]).path && first_for(
            results,
            i,
        ) && results[i].added_lines != 0 by {
        law_added_for(results, files[f].path);
        let k = choose|k: int| 0 <= k < results.len() && (#[trigger] results[k]).path
            == files[f].path;
        let j = lemma_some_first(results, files[f].path, k);
        assert(results[j].path == files[f].path);
    }
}

/// One bad line anywhere in the patch of a changed file rejects the run, whatever
/// stands before and behind it.
pub proof fn law_bad_line_rejects(
    files: Seq<ScopedFileView>,
    results: Seq<FormatView>,
    budget: Budget,
    i: int,
    before: Seq<char>,
    s: Seq<char>,
    after: Seq<char>,
)
    requires
        0 <= i < results.len(),
        results[i].changed,
        before.len() == 0 || before.last() == '\n',
        laws::text::lacks(s, '\n'),
        s.len() > 0 ==> s.last() != '\r',
        bad_addition(s),
        results[i].patch == Some(before + (seq!['+'] + s).push('\n') + after),
    ensures
        !gates::all_pass(gates::all_gates(files, results, budget)),
{
    let line = seq!['+'] + s;
    let patch = before + line.push('\n') + after;
    assert(laws::text::lacks(line, '\n'));
    assert(patch == before + (line.push('\n') + after));
    unified::lemma_pieces_concat(before, line.push('\n') + after);
    laws::text::law_first_line(line, after);
    let a = text::pieces(before);
    let b = text::pieces(line.push('\n') + after);
    assert(text::lines(patch) == text::lines(before) + text::lines(line.push('\n') + after));
    let k = text::lines(before).len() as int;
    assert(line.last() == s.last());
    assert(text::lines(patch)[k] == line);
    assert(line.skip(1) == s);
    lemma_unclean(line);
    assert(results[i].patch == Some(patch));
    assert(gates::unclean(gates::patch_lines_of(results[i])[k]));
    gates::law_gates_decide(files, results, budget);
}

/// How many lines of a patch add something bad.
pub open spec fn bad_lines(r: FormatView) -> nat {
    match r.patch {
        Some(patch) => text::lines(patch).filter(|line: Seq<char>| adds_bad(line)).len(),
        None => 0,
    }
}

proof fn lemma_unclean_count(lines: Seq<Seq<char>>)
    ensures
        gates::unclean_count(lines) == lines.filter(|line: Seq<char>| adds_bad(line)).len(),
    decreases lines.len(),
{
    reveal(Seq::filter);
    if lines.len() > 0 {
        lemma_unclean_count(lines.drop_last());
        lemma_unclean(lines.last());
    }
}

/// Whether a gate says this: its name, whether it passed, and how much there is
/// of how much there may be. A gate that passed may leave the file and the counts
/// out.
pub open spec fn says(
    g: GateView,
    name: Seq<char>,
    pass: bool,
    file: Seq<char>,
    metric: MeasureView,
    limit: MeasureView,
) -> bool {
    &&& g.gate == name
    &&& g.pass == pass
    &&& !pass ==> g.file == Some(file)
    &&& !pass ==> g.metric == Some(metric)
    &&& !pass ==> g.limit == Some(limit)
}

/// Each changed file is measured: a gate for its added lines, one for its
/// stability and one for its bad lines; a gate that fails names the file and what
/// was measured.
pub proof fn law_changed_file_is_measured(
    files: Seq<ScopedFileView>,
    results: Seq<FormatView>,
    budget: Budget,
    i: int,
)
    requires
        0 <= i < results.len(),
        results[i].changed,
    ensures
        exists|g: int|
            0 <= g < gates::all_gates(files, results, budget).len() && says(
                #[trigger] gates::all_gates(files, results, budget)[g],
                "budget.per_file_added"@,
                results[i].added_lines <= budget.max_added_lines,
                results[i].path,
                MeasureView::Count(results[i].added_lines),
                MeasureView::Count(budget.max_added_lines as int),
            ) && gates::all_gates(files, results, budget)[g].file == Some(results[i].path)
                && gates::all_gates(files, results, budget)[g].metric == Some(
                MeasureView::Count(results[i].added_lines),
            ),
        exists|g: int|
            0 <= g < gates::all_gates(files, results, budget).len() && says(
                #[trigger] gates::all_gates(files, results, budget)[g],
                "engine.idempotent"@,
                results[i].idempotent,
                results[i].path,
                MeasureView::Count(1),
                MeasureView::Count(0),
            ),
        exists|g: int|
            0 <= g < gates::all_gates(files, results, budget).len() && says(
                #[trigger] gates::all_gates(files, results, budget)[g],
                "whitespace.clean"@,
                bad_lines(results[i]) == 0,
                results[i].path,
                MeasureView::Count(bad_lines(results[i]) as int),
                MeasureView::Count(0),
            ),
{
    let r = results[i];
    let max = budget.max_added_lines as int;
    let a = gates::added_gates(results, max);
    let b = gates::ratio_gates(files, results, budget.max_ratio);
    let c = gates::idempotent_gates(results);
    let d = gates::whitespace_gates(results);
    let all = gates::all_gates(files, results, budget);
    let x = lemma_added_gate(results, max, i);
    let y = lemma_idempotent_gate(results, i);
    let z = lemma_whitespace_gate(results, i);
    lemma_unclean_count(gates::patch_lines_of(r));
    assert(r.patch is None ==> gates::unclean_count(gates::patch_lines_of(r)) == 0);
    assert(all[1 + x] == a[x]);
    assert(all[1 + a.len() + b.len() + 1 + y] == c[y]);
    assert(all[1 + a.len() + b.len() + 1 + c.len() + z] == d[z]);
}

proof fn lemma_added_gate(results: Seq<FormatView>, max: int, i: int) -> (g: int)
    requires
        0 <= i < results.len(),
        results[i].changed,
    ensures
        0 <= g < gates::added_gates(results, max).len(),
        gates::added_gates(results, max)[g] == gates::added_gate(results[i], max),
    decreases results.len(),
{
    let all = gates::added_gates(results, max);
    if i == results.len() - 1 {
        all.len() - 1
    } else {
        let g = lemma_added_gate(results.drop_last(), max, i);
        assert(all[g] == gates::added_gates(results.drop_last(), max)[g]);
        g
    }
}

proof fn lemma_idempotent_gate(results: Seq<FormatView>, i: int) -> (g: int)
    requires
        0 <= i < results.len(),
        results[i].changed,
    ensures
        0 <= g < gates::idempotent_gates(results).len(),
        gates::idempotent_gates(results)[g] == gates::idempotent_gate(results[i]),
    decreases results.len(),
{
    let all = gates::idempotent_gates(results);
    if i == results.len() - 1 {
        all.len() - 1
    } else {
        let g = lemma_idempotent_gate(results.drop_last(), i);
        assert(all[g] == gates::idempotent_gates(results.drop_last())[g]);
        g
    }
}

proof fn lemma_whitespace_gate(results: Seq<FormatView>, i: int) -> (g: int)
    requires
        0 <= i < results.len(),
        results[i].changed,
    ensures
        0 <= g < gates::whitespace_gates(results).len(),
        gates::whitespace_gates(results)[g] == gates::whitespace_gate(results[i]),
    decreases results.len(),
{
    let all = gates::whitespace_gates(results);
    if i == results.len() - 1 {
        all.len() - 1
    } else {
        let g = lemma_whitespace_gate(results.drop_last(), i);
        assert(all[g] == gates::whitespace_gates(results.drop_last())[g]);
        g
    }
}

/// The changed files outside the scope.
pub open spec fn strays(files: Seq<ScopedFileView>, results: Seq<FormatView>) -> Seq<FormatView> {
    results.filter(|r: FormatView| r.changed && !scoped(files, r.path))
}

proof fn lemma_outside(files: Seq<ScopedFileView>, results: Seq<FormatView>)
    ensures
        gates::outside_paths(files, results) == strays(files, results).map_values(
            |r: FormatView| r.path,
        ),
    decreases results.len(),
{
    reveal(Seq::filter);
    if results.len() > 0 {
        lemma_outside(files, results.drop_last());
        let before = strays(files, results.drop_last());
        let r = results.last();
        assert(before.push(r).map_values(|r: FormatView| r.path) == before.map_values(
            |r: FormatView| r.path,
        ).push(r.path));
    }
    assert(gates::outside_paths(files, results) == strays(files, results).map_values(
        |r: FormatView| r.path,
    ));
}

/// The run as a whole is measured: the first gate counts the changed files outside
/// the scope, and another counts the changed files.
pub proof fn law_run_is_measured(
    files: Seq<ScopedFileView>,
    results: Seq<FormatView>,
    budget: Budget,
)
    ensures
        says(
            gates::all_gates(files, results, budget)[0],
            "scope.containment"@,
            strays(files, results).len() == 0,
            text::join(strays(files, results).map_values(|r: FormatView| r.path), ","@),
            MeasureView::Count(strays(files, results).len() as int),
            MeasureView::Count(0),
        ),
        exists|g: int|
            0 <= g < gates::all_gates(files, results, budget).len() && says(
                #[trigger] gates::all_gates(files, results, budget)[g],
                "budget.max_files"@,
                changed_ones(results).len() <= budget.max_files,
                "(aggregate)"@,
                MeasureView::Count(changed_ones(results).len() as int),
                MeasureView::Count(budget.max_files as int),
            ),
{
    lemma_outside(files, results);
    law_changed_count(results);
    let all = gates::all_gates(files, results, budget);
    let a = gates::added_gates(results, budget.max_added_lines as int);
    let b = gates::ratio_gates(files, results, budget.max_ratio);
    assert(all[(1 + a.len() + b.len()) as int] == gates::files_gate(
        results,
        budget.max_files as int,
    ));
}

/// The files that the ratio speaks of: the caller's own lines are known, and their
/// first result adds some.
pub open spec fn rated(files: Seq<ScopedFileView>, results: Seq<FormatView>) -> Seq<
    ScopedFileView,
> {
    files.filter(
        |f: ScopedFileView|
            f.agent_added_lines is Some && exists|i: int|
                0 <= i < results.len() && (#[trigger] results[i]).path == f.path && first_for(
                    results,
                    i,
                ) && results[i].added_lines != 0,
    )
}

/// Nothing else is measured: there are the two gates of the run, three for each
/// changed file, one for each file that the ratio speaks of, and one for each file
/// that was tested as a whole.
pub proof fn law_gates_are_counted(
    files: Seq<ScopedFileView>,
    results: Seq<FormatView>,
    budget: Budget,
)
    ensures
        gates::all_gates(files, results, budget).len() == 2 + 3 * changed_ones(results).len()
            + rated(files, results).len() + results.filter(
            |r: FormatView| r.fmt_clean is Some,
        ).len(),
{
    lemma_changed_gates(results, budget.max_added_lines as int);
    lemma_rated(files, results, budget.max_ratio);
}

proof fn lemma_changed_gates(results: Seq<FormatView>, max: int)
    ensures
        gates::added_gates(results, max).len() == changed_ones(results).len(),
        gates::idempotent_gates(results).len() == changed_ones(results).len(),
        gates::whitespace_gates(results).len() == changed_ones(results).len(),
        gates::clean_gates(results).len() == results.filter(
            |r: FormatView| r.fmt_clean is Some,
        ).len(),
    decreases results.len(),
{
    reveal(Seq::filter);
    if results.len() > 0 {
        lemma_changed_gates(results.drop_last(), max);
    }
}

proof fn lemma_rates(file: ScopedFileView, results: Seq<FormatView>)
    ensures
        gates::ratio_applies(file, results) <==> file.agent_added_lines is Some && exists|i: int|
            0 <= i < results.len() && (#[trigger] results[i]).path == file.path && first_for(
                results,
                i,
            ) && results[i].added_lines != 0,
{
    law_added_for(results, file.path);
    if gates::ratio_applies(file, results) {
        let k = choose|k: int| 0 <= k < results.len() && (#[trigger] results[k]).path == file.path;
        let j = lemma_some_first(results, file.path, k);
        assert(results[j].path == file.path);
    }
}

proof fn lemma_rated(files: Seq<ScopedFileView>, results: Seq<FormatView>, cap: double::Double)
    ensures
        gates::ratio_gates(files, results, cap).len() == rated(files, results).len(),
    decreases files.len(),
{
    reveal(Seq::filter);
    if files.len() > 0 {
        lemma_rated(files.drop_last(), results, cap);
        lemma_rates(files.last(), results);
    }
}

/// A file that the ratio speaks of is measured: what its first result adds is
/// set against the caller's own lines.
pub proof fn law_rated_file_is_measured(
    files: Seq<ScopedFileView>,
    results: Seq<FormatView>,
    budget: Budget,
    f: int,
    i: int,
)
    requires
        0 <= f < files.len(),
        0 <= i < results.len(),
        files[f].agent_added_lines is Some,
        results[i].path == files[f].path,
        first_for(results, i),
        results[i].added_lines != 0,
    ensures
        exists|g: int|
            0 <= g < gates::all_gates(files, results, budget).len() && says(
                #[trigger] gates::all_gates(files, results, budget)[g],
                "budget.diff_ratio"@,
                double::quotient_at_most(
                    results[i].added_lines as nat,
                    own_lines(files[f].agent_added_lines->0),
                    budget.max_ratio,
                ),
                files[f].path,
                MeasureView::Quotient {
                    over: results[i].added_lines,
                    under: own_lines(files[f].agent_added_lines->0) as int,
                },
                MeasureView::Exact(budget.max_ratio),
            ),
{
    law_added_for(results, files[f].path);
    let a = gates::added_gates(results, budget.max_added_lines as int);
    let b = gates::ratio_gates(files, results, budget.max_ratio);
    let all = gates::all_gates(files, results, budget);
    let g = lemma_ratio_gate(files, results, budget.max_ratio, f);
    assert(all[1 + a.len() + g] == b[g]);
}

proof fn lemma_ratio_gate(
    files: Seq<ScopedFileView>,
    results: Seq<FormatView>,
    cap: double::Double,
    f: int,
) -> (g: int)
    requires
        0 <= f < files.len(),
        gates::ratio_applies(files[f], results),
    ensures
        0 <= g < gates::ratio_gates(files, results, cap).len(),
        gates::ratio_gates(files, results, cap)[g] == gates::ratio_gate(
            files[f].path,
            gates::added_for(results, files[f].path),
            files[f].agent_added_lines->0 as int,
            cap,
        ),
    decreases files.len(),
{
    let all = gates::ratio_gates(files, results, cap);
    if f == files.len() - 1 {
        all.len() - 1
    } else {
        let g = lemma_ratio_gate(files.drop_last(), results, cap, f);
        assert(all[g] == gates::ratio_gates(files.drop_last(), results, cap)[g]);
        g
    }
}

/// A file that was tested as a whole has its gate, which passes where the file is
/// clean.
pub proof fn law_tested_file_is_measured(
    files: Seq<ScopedFileView>,
    results: Seq<FormatView>,
    budget: Budget,
    i: int,
)
    requires
        0 <= i < results.len(),
        results[i].fmt_clean is Some,
    ensures
        exists|g: int|
            0 <= g < gates::all_gates(files, results, budget).len() && says(
                #[trigger] gates::all_gates(files, results, budget)[g],
                "engine.fmt_check"@,
                results[i].fmt_clean->0,
                results[i].path,
                MeasureView::Count(1),
                MeasureView::Count(0),
            ),
{
    let all = gates::all_gates(files, results, budget);
    let e = gates::clean_gates(results);
    let g = lemma_clean_gate(results, i);
    match results[i].fmt_clean {
        Some(clean) => assert(e[g].pass == clean),
        None => {},
    }
    assert(all[all.len() - e.len() + g] == e[g]);
}

proof fn lemma_clean_gate(results: Seq<FormatView>, i: int) -> (g: int)
    requires
        0 <= i < results.len(),
        results[i].fmt_clean is Some,
    ensures
        0 <= g < gates::clean_gates(results).len(),
        gates::clean_gates(results)[g] == gates::clean_gate(results[i]),
    decreases results.len(),
{
    let all = gates::clean_gates(results);
    if i == results.len() - 1 {
        all.len() - 1
    } else {
        let g = lemma_clean_gate(results.drop_last(), i);
        assert(all[g] == gates::clean_gates(results.drop_last())[g]);
        g
    }
}

/// What each gate reports: its own name, the file it speaks of, what it measured
/// and the limit, whether it passed or not, and the numbers in its text.
pub proof fn law_gates_report_what_they_measure(
    files: Seq<ScopedFileView>,
    results: Seq<FormatView>,
    r: FormatView,
    max: int,
    path: Seq<char>,
    added: int,
    own: int,
    cap: Double,
)
    ensures
        ({
            let g = gates::added_gate(r, max);
            &&& g.gate == "budget.per_file_added"@
            &&& g.file == Some(r.path)
            &&& g.metric == Some(MeasureView::Count(r.added_lines))
            &&& g.limit == Some(MeasureView::Count(max))
            &&& g.pass ==> g.detail == text::decimal(r.added_lines as nat)
                + " added lines (removed "@ + text::decimal(r.removed_lines as nat)
                + ") after formatting"@
        }),
        ({
            let g = gates::files_gate(results, max);
            &&& g.gate == "budget.max_files"@
            &&& g.pass ==> g.file is None
            &&& !g.pass ==> g.file == Some("(aggregate)"@)
            &&& g.metric == Some(
                MeasureView::Count(results.filter(|r: FormatView| r.changed).len() as int),
            )
            &&& g.limit == Some(MeasureView::Count(max))
            &&& g.pass ==> g.detail == text::decimal(
                results.filter(|r: FormatView| r.changed).len(),
            ) + " file(s) changed by formatting"@
        }),
        ({
            let g = gates::ratio_gate(path, added, own, cap);
            &&& g.gate == "budget.diff_ratio"@
            &&& g.file == Some(path)
            &&& own >= 1 ==> g.metric == Some(MeasureView::Quotient { over: added, under: own })
            &&& own < 1 ==> g.metric == Some(MeasureView::Quotient { over: added, under: 1 })
            &&& g.limit == Some(MeasureView::Exact(cap))
            &&& g.pass ==> g.detail == "formatter added "@ + text::decimal(added as nat)
                + " lines vs agent's "@ + text::decimal(own as nat) + " lines"@
        }),
        ({
            let g = gates::idempotent_gate(r);
            &&& g.gate == "engine.idempotent"@
            &&& g.pass ==> text::starts_with(g.detail, r.path)
            &&& !g.pass ==> g.file == Some(r.path)
        }),
        ({
            let g = gates::whitespace_gate(r);
            &&& g.gate == "whitespace.clean"@
            &&& g.pass ==> text::starts_with(g.detail, r.path)
            &&& !g.pass ==> g.file == Some(r.path)
        }),
        ({
            let g = gates::clean_gate(r);
            &&& g.gate == "engine.fmt_check"@
            &&& g.pass ==> text::starts_with(g.detail, r.path)
            &&& !g.pass ==> g.file == Some(r.path)
        }),
        gates::containment_gate(files, results).gate == "scope.containment"@,
{
    law_changed_count(results);
    let a = ": formatter reached a stable point"@;
    let b = ": no trailing whitespace"@;
    let c = ": whole file is rustfmt-clean"@;
    assert((r.path + a).take(r.path.len() as int) == r.path);
    assert((r.path + b).take(r.path.len() as int) == r.path);
    assert((r.path + c).take(r.path.len() as int) == r.path);
}

} // verus!
