//! Laws of the report: its patch, its totals and what it says of each file.

use crate::engine::FormatView;
use crate::gates;
use crate::gates::GateView;
use crate::laws;
use crate::report;
use crate::types::ScopeView;
use vstd::prelude::*;

verus! {

/// The patch of some files is that of the first ones followed by that of the
/// others, wherever they are parted; that of one file is its header and its own
/// patch, and that of no file is empty.
pub proof fn law_patches_follow_each_other(
    a: Seq<(Seq<char>, Seq<char>)>,
    b: Seq<(Seq<char>, Seq<char>)>,
    path: Seq<char>,
    patch: Seq<char>,
)
    ensures
        report::concatenated(a + b) == report::concatenated(a) + report::concatenated(b),
        report::concatenated(seq![(path, patch)]) == report::patch_header(path) + patch,
        report::concatenated(Seq::empty()) == Seq::<char>::empty(),
    decreases b.len(),
{
    if b.len() == 0 {
        assert(a + b == a);
        assert(report::concatenated(a) + report::concatenated(b) == report::concatenated(a));
    } else {
        assert((a + b).drop_last() == a + b.drop_last());
        assert((a + b).last() == b.last());
        law_patches_follow_each_other(a, b.drop_last(), path, patch);
        let x = report::concatenated(a);
        let y = report::concatenated(b.drop_last());
        let h = report::patch_header(b.last().0);
        assert(x + y + h + b.last().1 == x + (y + h + b.last().1));
    }
    let one = seq![(path, patch)];
    assert(one.drop_last() == Seq::<(Seq<char>, Seq<char>)>::empty());
    assert(report::concatenated(one.drop_last()) == Seq::<char>::empty());
    assert(one.last() == (path, patch));
    assert(Seq::<char>::empty() + report::patch_header(path) + patch == report::patch_header(path)
        + patch);
}

/// The header of a file in a patch names it three ways, each on its own row.
pub proof fn law_patch_header(path: Seq<char>)
    ensures
        report::patch_header(path) == "diff --git a/"@ + path + " b/"@ + path + "\n"@ + ("--- a/"@
            + path + "\n"@) + ("+++ b/"@ + path + "\n"@),
{
    reveal_strlit("\n");
    reveal_strlit("--- a/");
    reveal_strlit("\n--- a/");
    reveal_strlit("+++ b/");
    reveal_strlit("\n+++ b/");
    assert("\n--- a/"@ == "\n"@ + "--- a/"@);
    assert("\n+++ b/"@ == "\n"@ + "+++ b/"@);
    let front = "diff --git a/"@ + path + " b/"@ + path;
    assert(front + ("\n"@ + "--- a/"@) + path == front + "\n"@ + ("--- a/"@ + path));
    let more = front + "\n"@ + ("--- a/"@ + path);
    assert(more + ("\n"@ + "+++ b/"@) + path + "\n"@ == more + "\n"@ + ("+++ b/"@ + path + "\n"@));
    assert(more + "\n"@ == front + "\n"@ + ("--- a/"@ + path + "\n"@));
}

/// The files of a patch are the results that have a patch, each once, with its
/// own, in order.
pub proof fn law_patch_parts(results: Seq<FormatView>)
    ensures
        report::patch_parts(results) == results.filter(
            |r: FormatView| r.patch is Some,
        ).map_values(|r: FormatView| (r.path, r.patch->0)),
    decreases results.len(),
{
    reveal(Seq::filter);
    let pred = |r: FormatView| r.patch is Some;
    let part = |r: FormatView| (r.path, r.patch->0);
    if results.len() == 0 {
        assert(results.filter(pred).map_values(part) == Seq::<(Seq<char>, Seq<char>)>::empty());
    } else {
        let before = results.drop_last();
        let r = results.last();
        law_patch_parts(before);
        if pred(r) {
            assert(before.filter(pred).push(r).map_values(part) == before.filter(pred).map_values(
                part,
            ).push(part(r)));
        }
    }
}

/// The report has a patch exactly where a file changed, and the patch of a run is
/// that of its first files followed by that of the others.
pub proof fn law_report_patch(
    run_id: Seq<char>,
    scope: ScopeView,
    a: Seq<FormatView>,
    b: Seq<FormatView>,
    gates: Seq<GateView>,
    all_pass: bool,
    mode: Seq<char>,
)
    ensures
        ({
            let both = report::report_of(run_id, scope, a + b, gates, all_pass, mode).patch;
            let first = report::report_of(run_id, scope, a, gates, all_pass, mode).patch;
            let second = report::report_of(run_id, scope, b, gates, all_pass, mode).patch;
            &&& first is Some <==> exists|i: int| 0 <= i < a.len() && (#[trigger] a[i]).changed
            &&& first is Some && second is Some ==> both == Some(first->0 + second->0)
            &&& both is Some <==> first is Some || second is Some
        }),
{
    law_patch_parts(a);
    law_patch_parts(b);
    law_patch_parts(a + b);
    let pred = |r: FormatView| r.patch is Some;
    let part = |r: FormatView| (r.path, r.patch->0);
    Seq::filter_distributes_over_add(a, b, pred);
    assert((a.filter(pred) + b.filter(pred)).map_values(part) == a.filter(pred).map_values(part)
        + b.filter(pred).map_values(part));
    law_patches_follow_each_other(
        report::patch_parts(a),
        report::patch_parts(b),
        Seq::empty(),
        Seq::empty(),
    );
    lemma_some_changed(a);
    laws::gates::law_changed_count(a);
    laws::gates::law_changed_count(b);
    laws::gates::law_changed_count(a + b);
    Seq::filter_distributes_over_add(a, b, |r: FormatView| r.changed);
}

proof fn lemma_some_changed(results: Seq<FormatView>)
    ensures
        gates::changed_count(results) > 0 <==> exists|i: int|
            0 <= i < results.len() && (#[trigger] results[i]).changed,
    decreases results.len(),
{
    if results.len() > 0 {
        let before = results.drop_last();
        lemma_some_changed(before);
        if gates::changed_count(before) > 0 {
            let i = choose|i: int| 0 <= i < before.len() && (#[trigger] before[i]).changed;
            assert(results[i].changed);
        }
        if results.last().changed {
            assert(results[results.len() - 1].changed);
        }
        if exists|i: int| 0 <= i < results.len() && (#[trigger] results[i]).changed {
            let i = choose|i: int| 0 <= i < results.len() && (#[trigger] results[i]).changed;
            if i < before.len() {
                assert(before[i].changed);
            }
        }
    }
}

/// The totals of some files are those of the first ones and of the others; those
/// of one file are its own.
pub proof fn law_totals(a: Seq<FormatView>, b: Seq<FormatView>, r: FormatView)
    ensures
        report::added_sum(a + b) == report::added_sum(a) + report::added_sum(b),
        report::removed_sum(a + b) == report::removed_sum(a) + report::removed_sum(b),
        report::added_sum(seq![r]) == r.added_lines,
        report::removed_sum(seq![r]) == r.removed_lines,
        report::added_sum(Seq::empty()) == 0,
        report::removed_sum(Seq::empty()) == 0,
    decreases b.len(),
{
    if b.len() == 0 {
        assert(a + b == a);
    } else {
        assert((a + b).drop_last() == a + b.drop_last());
        assert((a + b).last() == b.last());
        law_totals(a, b.drop_last(), r);
    }
    reveal_with_fuel(report::added_sum, 2);
    reveal_with_fuel(report::removed_sum, 2);
    assert(seq![r].drop_last() == Seq::<FormatView>::empty());
    assert(seq![r].last() == r);
}

/// A report speaks of every result, in order and as it is, counts them, and
/// repeats the gates; its rejections are the gates that failed, all of them.
pub proof fn law_report(
    run_id: Seq<char>,
    scope: ScopeView,
    results: Seq<FormatView>,
    gates: Seq<GateView>,
    all_pass: bool,
    mode: Seq<char>,
)
    requires
        results.len() <= usize::MAX,
        0 <= report::added_sum(results) <= usize::MAX,
        0 <= report::removed_sum(results) <= usize::MAX,
    ensures
        ({
            let made = report::report_of(run_id, scope, results, gates, all_pass, mode);
            &&& made.run_id == run_id
            &&& made.scope == scope
            &&& made.mode == mode
            &&& made.gates == gates
            &&& made.rejections == gates.filter(|g: GateView| !g.pass)
            &&& made.verdict == if all_pass {
                "ok"@
            } else {
                "rejected"@
            }
            &&& made.stats.files_scanned == results.len()
            &&& made.stats.files_changed == laws::gates::changed_ones(results).len()
            &&& made.stats.added_lines == report::added_sum(results)
            &&& made.stats.removed_lines == report::removed_sum(results)
            &&& made.files.len() == results.len()
            &&& forall|i: int|
                0 <= i < results.len() ==> {
                    let file = #[trigger] made.files[i];
                    let r = results[i];
                    &&& file.path == r.path
                    &&& file.engine == r.engine
                    &&& file.changed == r.changed
                    &&& file.added_lines == r.added_lines
                    &&& file.removed_lines == r.removed_lines
                    &&& file.hunks_total == r.hunks_total
                    &&& file.hunks_kept == r.hunks_kept
                    &&& file.hunks_kept + file.out_of_scope_hunks == r.hunks_total
                    &&& file.rustfmt_duration_ms == r.rustfmt_duration_ms
                    &&& file.first_pass_duration_ms == r.first_pass_duration_ms
                    &&& file.idempotency_duration_ms == r.idempotency_duration_ms
                }
        }),
{
    lemma_rejected(gates);
    laws::gates::law_changed_count(results);
    results.lemma_filter_len(|r: FormatView| r.changed);
}

/// What a report rejects, as a filter.
pub proof fn lemma_rejected(gates: Seq<GateView>)
    ensures
        report::rejected(gates) == gates.filter(|g: GateView| !g.pass),
    decreases gates.len(),
{
    reveal(Seq::filter);
    if gates.len() > 0 {
        lemma_rejected(gates.drop_last());
    }
}

} // verus!
