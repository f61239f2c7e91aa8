//! Laws of the scope: what git and jj print, and what it means.

use crate::cli;
use crate::laws;
use crate::run;
use crate::scope;
use crate::scope::{RepoMarkers, ScopeErrorView};
use crate::text;
use crate::types::{LineRange, ScopeView, ScopedFileView, Vcs};
use vstd::prelude::*;

verus! {

/// A hunk header, as it is printed: both sides between the marks, and whatever
/// follows.
pub open spec fn header_line(old: Seq<char>, new: Seq<char>, tail: Seq<char>) -> Seq<char> {
    "@@ "@ + old + " "@ + new + " @@"@ + tail
}

proof fn lemma_first_double_at(a: Seq<char>, b: Seq<char>)
    requires
        laws::text::lacks(a, '@'),
    ensures
        scope::first_double_at(a + (seq!['@', '@'] + b)) == a.len(),
    decreases a.len(),
{
    let t = a + (seq!['@', '@'] + b);
    if a.len() == 0 {
        assert(t[0] == '@' && t[1] == '@');
    } else {
        assert(t[0] == a[0]);
        assert(a[0] != '@');
        assert(t.skip(1) == a.skip(1) + (seq!['@', '@'] + b));
        assert forall|i: int| 0 <= i < a.skip(1).len() implies #[trigger] a.skip(1)[i] != '@' by {
            assert(a[i + 1] != '@');
        }
        lemma_first_double_at(a.skip(1), b);
    }
}

proof fn lemma_header(old: Seq<char>, new: Seq<char>, tail: Seq<char>)
    requires
        old.len() > 0,
        laws::text::solid(old),
        laws::text::lacks(old, '@'),
        new.len() > 0,
        new[0] == '+',
        laws::text::solid(new),
        laws::text::lacks(new, '@'),
    ensures
        scope::hunk_new_range(header_line(old, new, tail)) == scope::start_and_count(new.skip(1)),
{
    reveal_strlit("@@ ");
    reveal_strlit("@@");
    reveal_strlit(" ");
    reveal_strlit(" @@");
    let header = header_line(old, new, tail);
    let blank = seq![' '];
    let core = old + blank + new;
    let inner = blank + core + blank;
    assert("@@ "@ == seq!['@', '@'] + blank);
    assert(" @@"@ == blank + seq!['@', '@']);
    assert(" "@ == blank);
    assert(header.take(2) == "@@"@);
    assert(header.skip(2) == inner + (seq!['@', '@'] + tail));
    assert forall|i: int| 0 <= i < inner.len() implies #[trigger] inner[i] != '@' by {
        if 1 <= i < 1 + old.len() {
            assert(inner[i] == old[i - 1]);
        } else if 2 + old.len() <= i < 2 + old.len() + new.len() {
            assert(inner[i] == new[i - 2 - old.len()]);
        }
    }
    lemma_first_double_at(inner, tail);
    assert(header.skip(2).take(inner.len() as int) == inner);
    assert(core[0] == old[0]);
    assert(core.last() == new.last());
    assert(!text::is_space(old[0]));
    assert(!text::is_space(new[new.len() - 1]));
    laws::text::law_trim(blank, core, blank);
    laws::text::law_first_word(old, blank + new);
    laws::text::law_words_skip_space(blank, new);
    laws::text::law_first_word(new, Seq::empty());
    assert(core == old + (blank + new));
    assert(new + Seq::<char>::empty() == new);
    assert(text::words(Seq::empty()) == Seq::<Seq<char>>::empty());
    let parts = text::words(core);
    assert(parts == seq![old] + (seq![new] + Seq::<Seq<char>>::empty()));
    assert(parts.len() == 2 && parts[1] == new);
}

/// The new side of a hunk header is read as it stands there, whatever the old side
/// and whatever follows the header: its start, and its count, which is one where it
/// is left out.
pub proof fn law_header_is_read(old: Seq<char>, start: usize, count: usize, tail: Seq<char>)
    requires
        old.len() > 0,
        laws::text::solid(old),
        laws::text::lacks(old, '@'),
    ensures
        scope::hunk_new_range(
            header_line(
                old,
                seq!['+'] + text::decimal(start as nat) + seq![','] + text::decimal(count as nat),
                tail,
            ),
        ) == Some((start as nat, count as nat)),
        scope::hunk_new_range(
            header_line(old, seq!['+'] + text::decimal(start as nat), tail),
        ) == Some((start as nat, 1nat)),
{
    let a = text::decimal(start as nat);
    let b = text::decimal(count as nat);
    text::lemma_decimal_value(start as nat);
    text::lemma_decimal_value(count as nat);
    text::law_number_round_trip(start);
    text::law_number_round_trip(count);
    assert forall|i: int| 0 <= i < a.len() implies #[trigger] a[i] != ',' && a[i] != '@'
        && !text::is_space(a[i]) by {
        assert(text::is_digit(a[i]));
    }
    assert forall|i: int| 0 <= i < b.len() implies #[trigger] b[i] != '@' && !text::is_space(
        b[i],
    ) by {
        assert(text::is_digit(b[i]));
    }
    let both = seq!['+'] + a + seq![','] + b;
    assert forall|i: int| 0 <= i < both.len() implies #[trigger] both[i] != '@'
        && !text::is_space(both[i]) by {
        if 1 <= i < 1 + a.len() {
            assert(both[i] == a[i - 1]);
        } else if 2 + a.len() <= i {
            assert(both[i] == b[i - 2 - a.len()]);
        }
    }
    lemma_header(old, both, tail);
    let t = both.skip(1);
    assert(t == a + seq![','] + b);
    text::lemma_first_of(t, ',', a.len() as int);
    assert(t.take(a.len() as int) == a);
    assert(t.skip((a.len() + 1) as int) == b);
    let one = seq!['+'] + a;
    assert forall|i: int| 0 <= i < one.len() implies #[trigger] one[i] != '@' && !text::is_space(
        one[i],
    ) by {
        if i > 0 {
            assert(one[i] == a[i - 1]);
        }
    }
    lemma_header(old, one, tail);
    assert(one.skip(1) == a);
    text::lemma_first_of(a, ',', a.len() as int);
}

/// Only a line that starts with the marks is a hunk header.
pub proof fn law_other_lines_are_no_headers(line: Seq<char>)
    requires
        line.len() < 2 || line[0] != '@' || line[1] != '@',
    ensures
        scope::hunk_new_range(line) is None,
{
    reveal_strlit("@@");
    if text::starts_with(line, "@@"@) {
        assert(line.take(2)[0] == '@');
        assert(line.take(2)[1] == '@');
    }
}

/// Whether a line is a hunk header that names new lines.
pub open spec fn names_lines(line: Seq<char>) -> bool {
    match scope::hunk_new_range(line) {
        Some((start, count)) => count > 0,
        None => false,
    }
}

/// The range that a hunk header names: from its start, as many lines as it counts.
pub open spec fn named_range(line: Seq<char>) -> LineRange {
    match scope::hunk_new_range(line) {
        Some((start, count)) => LineRange {
            start: start as usize,
            end: (start + count - 1) as usize,
        },
        None => arbitrary(),
    }
}

/// The ranges of a diff are those that its hunk headers name, one for each header
/// that names lines, in order, however many lines it names.
pub proof fn law_ranges(lines: Seq<Seq<char>>)
    ensures
        scope::read_diff(lines).ranges == lines.filter(
            |line: Seq<char>| names_lines(line),
        ).map_values(|line: Seq<char>| named_range(line)),
    decreases lines.len(),
{
    reveal(Seq::filter);
    let pred = |line: Seq<char>| names_lines(line);
    let named = |line: Seq<char>| named_range(line);
    if lines.len() == 0 {
        assert(lines.filter(pred).map_values(named) == Seq::<LineRange>::empty());
    } else {
        let before = lines.drop_last();
        let line = lines.last();
        law_ranges(before);
        reveal_strlit("@@");
        if line.len() < 2 || line[0] != '@' || line[1] != '@' {
            law_other_lines_are_no_headers(line);
        } else {
            assert(line.take(2) == "@@"@);
        }
        if names_lines(line) {
            assert(before.filter(pred).push(line).map_values(named) == before.filter(
                pred,
            ).map_values(named).push(named_range(line)));
        }
    }
}

/// The ranges of two diffs, one behind the other, are those of both.
pub proof fn law_ranges_of_two_diffs(a: Seq<Seq<char>>, b: Seq<Seq<char>>)
    ensures
        scope::read_diff(a + b).ranges == scope::read_diff(a).ranges + scope::read_diff(b).ranges,
{
    let pred = |line: Seq<char>| names_lines(line);
    let named = |line: Seq<char>| named_range(line);
    law_ranges(a);
    law_ranges(b);
    law_ranges(a + b);
    Seq::filter_distributes_over_add(a, b, pred);
    assert((a.filter(pred) + b.filter(pred)).map_values(named) == a.filter(pred).map_values(named)
        + b.filter(pred).map_values(named));
}

/// A hunk that names lines gives its range, with both ends, wherever it stands in
/// the diff.
pub proof fn law_every_hunk_gives_its_range(lines: Seq<Seq<char>>, i: int)
    requires
        0 <= i < lines.len(),
        scope::ranges_fit(lines),
        names_lines(lines[i]),
    ensures
        exists|k: int|
            0 <= k < scope::read_diff(lines).ranges.len() && {
                let range = #[trigger] scope::read_diff(lines).ranges[k];
                scope::hunk_new_range(lines[i]) == Some(
                    (range.start as nat, (range.end + 1 - range.start) as nat),
                )
            },
{
    let pred = |line: Seq<char>| names_lines(line);
    let named = |line: Seq<char>| named_range(line);
    law_ranges(lines);
    lines.lemma_filter_contains(pred, i);
    assert(pred(lines[i]));
    let chosen = lines.filter(pred);
    assert(chosen.contains(lines[i]));
    let k = choose|k: int| 0 <= k < chosen.len() && chosen[k] == lines[i];
    assert(scope::read_diff(lines).ranges[k] == named_range(lines[i]));
}

proof fn lemma_body(before: Seq<Seq<char>>, header: Seq<char>, body: Seq<Seq<char>>)
    requires
        scope::hunk_new_range(header) is Some,
        forall|i: int| 0 <= i < body.len() ==> scope::is_hunk_line(#[trigger] body[i]),
        scope::new_side_count(body) <= scope::header_count(header),
    ensures
        ({
            let r = scope::read_diff(before.push(header) + body);
            &&& r.in_hunk ==> r.left == scope::header_count(header) - scope::new_side_count(body)
            &&& !r.in_hunk ==> scope::new_side_count(body) == scope::header_count(header)
            &&& r.added == scope::read_diff(before).added + scope::plus_count(body)
        }),
    decreases body.len(),
{
    let all = before.push(header) + body;
    reveal_strlit("@@");
    if body.len() == 0 {
        assert(all == before.push(header));
        assert(all.drop_last() == before);
        if header.len() < 2 || header[0] != '@' || header[1] != '@' {
            law_other_lines_are_no_headers(header);
        } else {
            assert(header.take(2) == "@@"@);
        }
    } else {
        let shorter = body.drop_last();
        let line = body.last();
        assert forall|i: int| 0 <= i < shorter.len() implies scope::is_hunk_line(
            #[trigger] shorter[i],
        ) by {
            assert(scope::is_hunk_line(body[i]));
        }
        assert(scope::is_hunk_line(body[body.len() - 1]));
        lemma_body(before, header, shorter);
        assert(all.drop_last() == before.push(header) + shorter);
        assert(all.last() == line);
        lemma_prefixes(line);
    }
}

/// What the first character of a line of a hunk says of how it starts.
proof fn lemma_prefixes(line: Seq<char>)
    requires
        scope::is_hunk_line(line),
    ensures
        !text::starts_with(line, "@@"@),
        !text::starts_with(line, "diff "@),
        text::starts_with(line, "+"@) <==> line[0] == '+',
        text::starts_with(line, "-"@) <==> line[0] == '-',
        text::starts_with(line, "\\"@) <==> line[0] == '\\',
        text::starts_with(line, "--- "@) ==> line[0] == '-',
        text::starts_with(line, "+++ "@) ==> line[0] == '+',
{
    reveal_strlit("@@");
    reveal_strlit("diff ");
    reveal_strlit("+");
    reveal_strlit("-");
    reveal_strlit("\\");
    reveal_strlit("--- ");
    reveal_strlit("+++ ");
    if text::starts_with(line, "@@"@) {
        assert(line.take(2)[0] == '@');
    }
    if text::starts_with(line, "diff "@) {
        assert(line.take(5)[0] == 'd');
    }
    if text::starts_with(line, "--- "@) {
        assert(line.take(4)[0] == '-');
    }
    if text::starts_with(line, "+++ "@) {
        assert(line.take(4)[0] == '+');
    }
    assert(line.take(1)[0] == line[0]);
    if line[0] == '+' {
        assert(line.take(1) == "+"@);
    }
    if line[0] == '-' {
        assert(line.take(1) == "-"@);
    }
    if line[0] == '\\' {
        assert(line.take(1) == "\\"@);
    }
    if text::starts_with(line, "+"@) {
        assert(line.take(1)[0] == '+');
    }
    if text::starts_with(line, "-"@) {
        assert(line.take(1)[0] == '-');
    }
    if text::starts_with(line, "\\"@) {
        assert(line.take(1)[0] == '\\');
    }
}

/// A hunk adds to the count exactly its lines that start with a plus sign,
/// whatever they hold, and a file header behind it adds nothing.
pub proof fn law_hunk_is_counted(
    before: Seq<Seq<char>>,
    header: Seq<char>,
    body: Seq<Seq<char>>,
    rest: Seq<Seq<char>>,
)
    requires
        scope::hunk_new_range(header) is Some,
        forall|i: int| 0 <= i < body.len() ==> scope::is_hunk_line(#[trigger] body[i]),
        scope::new_side_count(body) == scope::header_count(header),
        forall|i: int| 0 <= i < rest.len() ==> !text::starts_with(#[trigger] rest[i], "@@"@),
        rest.len() > 0 ==> text::starts_with(rest[0], "diff "@) || text::starts_with(
            rest[0],
            "--- "@,
        ) || text::starts_with(rest[0], "+++ "@),
    ensures
        scope::read_diff(before.push(header) + body + rest).added == scope::read_diff(before).added
            + scope::plus_count(body),
    decreases rest.len(),
{
    lemma_body(before, header, body);
    let hunk = before.push(header) + body;
    lemma_rest(hunk, rest);
}

proof fn lemma_rest(hunk: Seq<Seq<char>>, rest: Seq<Seq<char>>)
    requires
        scope::read_diff(hunk).in_hunk ==> scope::read_diff(hunk).left == 0,
        forall|i: int| 0 <= i < rest.len() ==> !text::starts_with(#[trigger] rest[i], "@@"@),
        rest.len() > 0 ==> text::starts_with(rest[0], "diff "@) || text::starts_with(
            rest[0],
            "--- "@,
        ) || text::starts_with(rest[0], "+++ "@),
    ensures
        scope::read_diff(hunk + rest).added == scope::read_diff(hunk).added,
        rest.len() > 0 ==> !scope::read_diff(hunk + rest).in_hunk,
    decreases rest.len(),
{
    if rest.len() == 0 {
        assert(hunk + rest == hunk);
    } else {
        let shorter = rest.drop_last();
        assert forall|i: int| 0 <= i < shorter.len() implies !text::starts_with(
            #[trigger] shorter[i],
            "@@"@,
        ) by {
            assert(!text::starts_with(rest[i], "@@"@));
        }
        assert(!text::starts_with(rest[rest.len() - 1], "@@"@));
        if shorter.len() > 0 {
            assert(shorter[0] == rest[0]);
        } else {
            assert(rest.last() == rest[0]);
            assert(hunk + shorter == hunk);
        }
        lemma_rest(hunk, shorter);
        assert((hunk + rest).drop_last() == hunk + shorter);
        assert((hunk + rest).last() == rest.last());
    }
}

/// Lines before the first hunk add nothing.
pub proof fn law_front_adds_nothing(front: Seq<Seq<char>>)
    requires
        forall|i: int| 0 <= i < front.len() ==> !text::starts_with(#[trigger] front[i], "@@"@),
    ensures
        scope::read_diff(front).added == 0,
        scope::read_diff(front).ranges.len() == 0,
        !scope::read_diff(front).in_hunk,
    decreases front.len(),
{
    if front.len() > 0 {
        let shorter = front.drop_last();
        assert forall|i: int| 0 <= i < shorter.len() implies !text::starts_with(
            #[trigger] shorter[i],
            "@@"@,
        ) by {
            assert(!text::starts_with(front[i], "@@"@));
        }
        assert(!text::starts_with(front[front.len() - 1], "@@"@));
        law_front_adds_nothing(shorter);
    }
}

/// Whether a listed path names a file of the scope: it is not empty, with jj it is
/// a Rust file, and no pattern matches it.
pub open spec fn wanted(vcs: Vcs, path: Seq<char>, patterns: Seq<Seq<char>>) -> bool {
    &&& path.len() > 0
    &&& vcs == Vcs::Jj ==> exists|stem: Seq<char>|
        path == #[trigger] stem.push('.').push('r').push('s')
    &&& forall|k: int| 0 <= k < patterns.len() ==> !scope::glob(#[trigger] patterns[k], path)
}

/// The files of the scope are those of the listing that are wanted, each trimmed,
/// all of them, and in order.
pub proof fn law_scoped_paths(vcs: Vcs, listed: Seq<Seq<char>>, patterns: Seq<Seq<char>>)
    ensures
        scope::scoped_paths(vcs, listed, patterns) == listed.map_values(
            |line: Seq<char>| text::trim(line),
        ).filter(|path: Seq<char>| wanted(vcs, path, patterns)),
    decreases listed.len(),
{
    reveal(Seq::filter);
    let trimmed = |line: Seq<char>| text::trim(line);
    let pred = |path: Seq<char>| wanted(vcs, path, patterns);
    let all = listed.map_values(trimmed);
    if listed.len() > 0 {
        law_scoped_paths(vcs, listed.drop_last(), patterns);
        assert(all.drop_last() == listed.drop_last().map_values(trimmed));
        let path = text::trim(listed.last());
        assert(all.last() == path);
        lemma_rust_file(path);
        assert(scope::names_scoped_file(vcs, path, patterns) == wanted(vcs, path, patterns));
    }
}

proof fn lemma_rust_file(path: Seq<char>)
    ensures
        text::ends_with(path, ".rs"@) <==> exists|stem: Seq<char>|
            path == #[trigger] stem.push('.').push('r').push('s'),
{
    reveal_strlit(".rs");
    let end = seq!['.', 'r', 's'];
    assert(".rs"@ == end);
    if text::ends_with(path, ".rs"@) {
        let stem = path.take(path.len() - 3);
        assert(path == stem + end);
        assert(path == stem.push('.').push('r').push('s'));
    }
    if exists|stem: Seq<char>| path == #[trigger] stem.push('.').push('r').push('s') {
        let stem = choose|stem: Seq<char>| path == #[trigger] stem.push('.').push('r').push('s');
        assert(path.skip(path.len() - 3) == end);
    }
}

/// A scope has one file for each path that is wanted, in order, with the ranges
/// and the count of that file's own diff.
pub proof fn law_scope_has_every_file(
    vcs: Vcs,
    base: Seq<char>,
    patterns: Seq<Seq<char>>,
    listing: Seq<char>,
    diffs: Seq<Result<Seq<char>, ScopeErrorView>>,
)
    requires
        diffs.len() >= scope::scoped_paths(vcs, text::lines(listing), patterns).len(),
        forall|i: int| 0 <= i < diffs.len() ==> (#[trigger] diffs[i]) is Ok,
    ensures
        ({
            let paths = scope::scoped_paths(vcs, text::lines(listing), patterns);
            let found = scope::scope_of_outputs(Some(vcs), base, patterns, Ok(listing), diffs);
            &&& found is Ok
            &&& found->Ok_0.vcs == Some(vcs)
            &&& found->Ok_0.files.len() == paths.len()
            &&& forall|i: int|
                0 <= i < paths.len() ==> {
                    let file = #[trigger] found->Ok_0.files[i];
                    let read = scope::read_diff(text::lines(diffs[i]->Ok_0));
                    &&& file.path == paths[i]
                    &&& file.ranges == read.ranges
                    &&& file.agent_added_lines == Some(read.added as usize)
                }
        }),
{
    let paths = scope::scoped_paths(vcs, text::lines(listing), patterns);
    lemma_files(paths, diffs, paths.len());
}

proof fn lemma_files(
    paths: Seq<Seq<char>>,
    diffs: Seq<Result<Seq<char>, ScopeErrorView>>,
    n: nat,
)
    requires
        n <= paths.len(),
        n <= diffs.len(),
        forall|i: int| 0 <= i < diffs.len() ==> (#[trigger] diffs[i]) is Ok,
    ensures
        scope::scoped_files(paths, diffs, n) is Ok,
        scope::scoped_files(paths, diffs, n)->Ok_0.len() == n,
        forall|i: int|
            0 <= i < n ==> {
                let file = #[trigger] scope::scoped_files(paths, diffs, n)->Ok_0[i];
                let read = scope::read_diff(text::lines(diffs[i]->Ok_0));
                &&& file.path == paths[i]
                &&& file.ranges == read.ranges
                &&& file.agent_added_lines == Some(read.added as usize)
            },
    decreases n,
{
    if n > 0 {
        lemma_files(paths, diffs, (n - 1) as nat);
        assert(diffs[n - 1] is Ok);
        let before = scope::scoped_files(paths, diffs, (n - 1) as nat)->Ok_0;
        let all = scope::scoped_files(paths, diffs, n)->Ok_0;
        assert forall|i: int| 0 <= i < n implies {
            let file = #[trigger] all[i];
            let read = scope::read_diff(text::lines(diffs[i]->Ok_0));
            &&& file.path == paths[i]
            &&& file.ranges == read.ranges
            &&& file.agent_added_lines == Some(read.added as usize)
        } by {
            if i < n - 1 {
                assert(all[i] == before[i]);
            }
        }
    }
}

/// The first command that failed is the error of the whole detection.
pub proof fn law_failed_command_is_the_error(
    vcs: Vcs,
    base: Seq<char>,
    patterns: Seq<Seq<char>>,
    listing: Seq<char>,
    diffs: Seq<Result<Seq<char>, ScopeErrorView>>,
    error: ScopeErrorView,
    i: int,
)
    requires
        0 <= i < scope::scoped_paths(vcs, text::lines(listing), patterns).len(),
        i < diffs.len(),
        forall|j: int| 0 <= j < i ==> (#[trigger] diffs[j]) is Ok,
        diffs[i] is Err,
    ensures
        scope::scope_of_outputs(Some(vcs), base, patterns, Ok(listing), diffs) == Err::<
            ScopeView,
            ScopeErrorView,
        >(diffs[i]->Err_0),
        scope::scope_of_outputs(Some(vcs), base, patterns, Err(error), diffs) == Err::<
            ScopeView,
            ScopeErrorView,
        >(error),
        scope::scope_of_outputs(None, base, patterns, Ok(listing), diffs) == Err::<
            ScopeView,
            ScopeErrorView,
        >(ScopeErrorView::NotARepository),
{
    let paths = scope::scoped_paths(vcs, text::lines(listing), patterns);
    lemma_failed(paths, diffs, i, paths.len());
}

proof fn lemma_failed(
    paths: Seq<Seq<char>>,
    diffs: Seq<Result<Seq<char>, ScopeErrorView>>,
    i: int,
    n: nat,
)
    requires
        0 <= i < n,
        i < diffs.len(),
        forall|j: int| 0 <= j < i ==> (#[trigger] diffs[j]) is Ok,
        diffs[i] is Err,
    ensures
        scope::scoped_files(paths, diffs, n) == Err::<Seq<ScopedFileView>, ScopeErrorView>(
            diffs[i]->Err_0,
        ),
    decreases n,
{
    if i == n - 1 {
        lemma_files_before(paths, diffs, i as nat);
    } else {
        lemma_failed(paths, diffs, i, (n - 1) as nat);
    }
}

proof fn lemma_files_before(
    paths: Seq<Seq<char>>,
    diffs: Seq<Result<Seq<char>, ScopeErrorView>>,
    n: nat,
)
    requires
        forall|j: int| 0 <= j < n ==> (#[trigger] diffs[j]) is Ok,
    ensures
        scope::scoped_files(paths, diffs, n) is Ok,
    decreases n,
{
    if n > 0 {
        lemma_files_before(paths, diffs, (n - 1) as nat);
        assert(diffs[n - 1] is Ok);
    }
}

/// A command line that asks for a version control system gets it; else the one
/// that was found counts.
pub proof fn law_asked_comes_first(asked: Option<Vcs>, found: Option<Vcs>)
    ensures
        asked is Some ==> scope::chosen_vcs(asked, found) == asked,
        asked is None ==> scope::chosen_vcs(asked, found) == found,
{
}

/// The repository that counts is that of the nearest directory with a marker, and
/// git's there where both are; there is none where no directory has a marker.
pub proof fn law_nearest_repository(dirs: Seq<RepoMarkers>, i: int)
    requires
        0 <= i <= dirs.len(),
        forall|j: int| 0 <= j < i ==> !(#[trigger] dirs[j]).git && !dirs[j].jj,
    ensures
        i == dirs.len() ==> scope::nearest_vcs(dirs) is None,
        i < dirs.len() && dirs[i].git ==> scope::nearest_vcs(dirs) == Some(Vcs::Git),
        i < dirs.len() && !dirs[i].git && dirs[i].jj ==> scope::nearest_vcs(dirs) == Some(Vcs::Jj),
    decreases i,
{
    if i > 0 {
        assert(!dirs[0].git && !dirs[0].jj);
        let rest = dirs.skip(1);
        assert forall|j: int| 0 <= j < i - 1 implies !(#[trigger] rest[j]).git && !rest[j].jj by {
            assert(!dirs[j + 1].git);
        }
        law_nearest_repository(rest, i - 1);
    }
}

/// Only the files with a range are kept of a detected scope, all of them, in order.
pub proof fn law_ranged_files_are_kept(files: Seq<ScopedFileView>)
    ensures
        run::with_ranges(files) == files.filter(|f: ScopedFileView| f.ranges.len() > 0),
    decreases files.len(),
{
    reveal(Seq::filter);
    if files.len() > 0 {
        law_ranged_files_are_kept(files.drop_last());
    }
}

/// Only the files that no pattern matches are kept of a change set, all of them,
/// in order.
pub proof fn law_change_set_is_kept(files: Seq<ScopedFileView>, patterns: Seq<Seq<char>>)
    ensures
        run::not_excluded(files, patterns) == files.filter(
            |f: ScopedFileView|
                forall|k: int|
                    0 <= k < patterns.len() ==> !scope::glob(#[trigger] patterns[k], f.path),
        ),
    decreases files.len(),
{
    reveal(Seq::filter);
    if files.len() > 0 {
        law_change_set_is_kept(files.drop_last(), patterns);
    }
}

/// Whether two patterns can stand one behind the other without a star of the one
/// running into a star of the other.
pub open spec fn stars_apart(p: Seq<char>, q: Seq<char>) -> bool {
    p.len() == 0 || q.len() == 0 || p.last() != '*' || q[0] != '*'
}

/// Two patterns, one behind the other, match a text that can be cut in two so that
/// each matches its part.
pub proof fn law_patterns_match_in_turn(p: Seq<char>, q: Seq<char>, t: Seq<char>)
    requires
        stars_apart(p, q),
    ensures
        scope::glob(p + q, t) <==> exists|i: int|
            0 <= i <= t.len() && scope::glob(p, t.take(i)) && scope::glob(q, #[trigger] t.skip(i)),
    decreases p.len(), 1nat,
{
    if p.len() == 0 {
        assert(p + q == q);
        assert(t.skip(0) == t);
        assert(t.take(0).len() == 0);
        assert forall|i: int|
            0 <= i <= t.len() && scope::glob(p, t.take(i)) && scope::glob(q, #[trigger] t.skip(i))
            implies scope::glob(p + q, t) by {
            assert(i == 0);
        }
    } else if p.len() >= 2 && p[0] == '*' && p[1] == '*' {
        lemma_double_star_in_turn(p, q, t);
    } else if p[0] == '*' {
        lemma_star_in_turn(p, q, t);
    } else {
        lemma_plain_in_turn(p, q, t);
    }
}

proof fn lemma_double_star_in_turn(p: Seq<char>, q: Seq<char>, t: Seq<char>)
    requires
        stars_apart(p, q),
        p.len() >= 2 && p[0] == '*' && p[1] == '*',
    ensures
        scope::glob(p + q, t) <==> exists|i: int|
            0 <= i <= t.len() && scope::glob(p, t.take(i)) && scope::glob(q, #[trigger] t.skip(i)),
    decreases p.len(), 0nat,
{
    let rest = p.skip(2);
    assert((p + q).skip(2) == rest + q);
    assert(rest.len() > 0 ==> rest.last() == p.last());
    if scope::glob(p + q, t) {
        let k = choose|k: int| 0 <= k <= t.len() && scope::glob(rest + q, #[trigger] t.skip(k));
        law_patterns_match_in_turn(rest, q, t.skip(k));
        let s = t.skip(k);
        let j = choose|j: int|
            0 <= j <= s.len() && scope::glob(rest, s.take(j)) && scope::glob(
                q,
                #[trigger] s.skip(j),
            );
        let i = k + j;
        assert(t.skip(i) == s.skip(j));
        assert(t.take(i).skip(k) == s.take(j));
        assert(scope::glob(p, t.take(i)));
    }
    assert forall|i: int|
        0 <= i <= t.len() && scope::glob(p, t.take(i)) && scope::glob(q, #[trigger] t.skip(i))
        implies scope::glob(p + q, t) by {
        let u = t.take(i);
        let k = choose|k: int| 0 <= k <= u.len() && scope::glob(rest, #[trigger] u.skip(k));
        let s = t.skip(k);
        assert(s.take(i - k) == u.skip(k));
        assert(s.skip(i - k) == t.skip(i));
        law_patterns_match_in_turn(rest, q, s);
        assert(scope::glob(rest + q, t.skip(k)));
    }
}

proof fn lemma_star_in_turn(p: Seq<char>, q: Seq<char>, t: Seq<char>)
    requires
        stars_apart(p, q),
        p.len() > 0 && p[0] == '*',
        p.len() < 2 || p[1] != '*',
    ensures
        scope::glob(p + q, t) <==> exists|i: int|
            0 <= i <= t.len() && scope::glob(p, t.take(i)) && scope::glob(q, #[trigger] t.skip(i)),
    decreases p.len(), 0nat,
{
    let rest = p.skip(1);
    assert((p + q).skip(1) == rest + q);
    assert(rest.len() > 0 ==> rest.last() == p.last());
    assert((p + q).len() < 2 || (p + q)[1] != '*') by {
        if p.len() == 1 && q.len() > 0 {
            assert((p + q)[1] == q[0]);
            assert(p.last() == '*');
        }
    }
    text::lemma_first_of_bounds(t, '/');
    if scope::glob(p + q, t) {
        let k = choose|k: int|
            0 <= k <= text::first_of(t, '/') && scope::glob(rest + q, #[trigger] t.skip(k));
        let s = t.skip(k);
        law_patterns_match_in_turn(rest, q, s);
        let j = choose|j: int|
            0 <= j <= s.len() && scope::glob(rest, s.take(j)) && scope::glob(
                q,
                #[trigger] s.skip(j),
            );
        let i = k + j;
        assert(t.skip(i) == s.skip(j));
        assert(t.take(i).skip(k) == s.take(j));
        lemma_first_of_take(t, '/', i);
        assert(scope::glob(p, t.take(i)));
    }
    assert forall|i: int|
        0 <= i <= t.len() && scope::glob(p, t.take(i)) && scope::glob(q, #[trigger] t.skip(i))
        implies scope::glob(p + q, t) by {
        let u = t.take(i);
        lemma_first_of_take(t, '/', i);
        let k = choose|k: int|
            0 <= k <= text::first_of(u, '/') && scope::glob(rest, #[trigger] u.skip(k));
        let s = t.skip(k);
        assert(s.take(i - k) == u.skip(k));
        assert(s.skip(i - k) == t.skip(i));
        law_patterns_match_in_turn(rest, q, s);
        assert(scope::glob(rest + q, t.skip(k)));
    }
}

proof fn lemma_first_of_take(t: Seq<char>, c: char, i: int)
    requires
        0 <= i <= t.len(),
    ensures
        text::first_of(t.take(i), c) == if text::first_of(t, c) < i {
            text::first_of(t, c)
        } else {
            i
        },
{
    text::lemma_first_of_bounds(t, c);
    let at = if text::first_of(t, c) < i {
        text::first_of(t, c)
    } else {
        i
    };
    text::lemma_first_of(t.take(i), c, at);
}

proof fn lemma_plain_in_turn(p: Seq<char>, q: Seq<char>, t: Seq<char>)
    requires
        stars_apart(p, q),
        p.len() > 0 && p[0] != '*',
    ensures
        scope::glob(p + q, t) <==> exists|i: int|
            0 <= i <= t.len() && scope::glob(p, t.take(i)) && scope::glob(q, #[trigger] t.skip(i)),
    decreases p.len(), 0nat,
{
    let rest = p.skip(1);
    assert((p + q).skip(1) == rest + q);
    assert(rest.len() > 0 ==> rest.last() == p.last());
    if t.len() > 0 {
        law_patterns_match_in_turn(rest, q, t.skip(1));
    }
    if scope::glob(p + q, t) {
        let s = t.skip(1);
        let j = choose|j: int|
            0 <= j <= s.len() && scope::glob(rest, s.take(j)) && scope::glob(
                q,
                #[trigger] s.skip(j),
            );
        assert(t.skip(j + 1) == s.skip(j));
        assert(t.take(j + 1).skip(1) == s.take(j));
        assert(scope::glob(p, t.take(j + 1)));
    }
    assert forall|i: int|
        0 <= i <= t.len() && scope::glob(p, t.take(i)) && scope::glob(q, #[trigger] t.skip(i))
        implies scope::glob(p + q, t) by {
        let s = t.skip(1);
        assert(t.take(i).skip(1) == s.take(i - 1));
        assert(s.skip(i - 1) == t.skip(i));
    }
}

/// What the smallest patterns match: a character itself, one star what has no
/// slash, two stars everything, and the empty pattern the empty text.
pub proof fn law_smallest_patterns(c: char, t: Seq<char>)
    ensures
        c != '*' ==> (scope::glob(seq![c], t) <==> t == seq![c]),
        scope::glob(seq!['*'], t) <==> laws::text::lacks(t, '/'),
        scope::glob(seq!['*', '*'], t),
        scope::glob(Seq::empty(), t) <==> t.len() == 0,
{
    if c != '*' {
        scope::law_plain_pattern(seq![c], t);
    }
    scope::law_star_stays_in_segment(Seq::empty(), t);
    assert(Seq::<char>::empty() + seq!['*'] == seq!['*']);
    assert(t.take(0) == Seq::<char>::empty());
    assert(t.skip(0) == t);
    if laws::text::lacks(t, '/') {
        assert(!t.contains('/'));
    } else {
        let k = choose|k: int| 0 <= k < t.len() && #[trigger] t[k] == '/';
        assert(t.contains('/'));
    }
    scope::law_double_star_crosses_segments(Seq::empty(), t);
    assert(Seq::<char>::empty() + seq!['*', '*'] == seq!['*', '*']);
}

/// Without options, what is generated, vendored, built or installed is left alone:
/// exactly the paths under these directories are excluded.
pub proof fn law_default_excludes(path: Seq<char>)
    ensures
        scope::excluded(path, cli::default_config().excludes) <==> {
            ||| text::starts_with(path, "generated/"@)
            ||| exists|i: int|
                0 <= i <= path.len() && text::starts_with(#[trigger] path.skip(i), "/generated/"@)
            ||| text::starts_with(path, "vendor/"@)
            ||| text::starts_with(path, "target/"@)
            ||| text::starts_with(path, "node_modules/"@)
        },
{
    let patterns = cli::default_config().excludes;
    let stars = seq!['*', '*'];
    reveal_strlit("generated/**");
    reveal_strlit("generated/");
    reveal_strlit("**/generated/**");
    reveal_strlit("/generated/");
    reveal_strlit("vendor/**");
    reveal_strlit("vendor/");
    reveal_strlit("target/**");
    reveal_strlit("target/");
    reveal_strlit("node_modules/**");
    reveal_strlit("node_modules/");
    assert("generated/**"@ == "generated/"@ + stars);
    assert("vendor/**"@ == "vendor/"@ + stars);
    assert("target/**"@ == "target/"@ + stars);
    assert("node_modules/**"@ == "node_modules/"@ + stars);
    assert("**/generated/**"@.skip(2) == "/generated/"@ + stars);
    scope::law_double_star_crosses_segments("generated/"@, path);
    scope::law_double_star_crosses_segments("vendor/"@, path);
    scope::law_double_star_crosses_segments("target/"@, path);
    scope::law_double_star_crosses_segments("node_modules/"@, path);
    assert forall|i: int| 0 <= i <= path.len() implies scope::glob(
        "**/generated/**"@.skip(2),
        #[trigger] path.skip(i),
    ) == text::starts_with(path.skip(i), "/generated/"@) by {
        scope::law_double_star_crosses_segments("/generated/"@, path.skip(i));
    }
    assert(patterns[0] == "generated/**"@ && patterns[1] == "**/generated/**"@ && patterns[2]
        == "vendor/**"@ && patterns[3] == "target/**"@ && patterns[4] == "node_modules/**"@);
    assert(patterns.len() == 5);
}

/// The second word of a header names the new side, also where more words follow.
pub proof fn law_more_words_do_not_count(
    old: Seq<char>,
    new: Seq<char>,
    more: Seq<char>,
    tail: Seq<char>,
)
    requires
        old.len() > 0,
        laws::text::solid(old),
        laws::text::lacks(old, '@'),
        new.len() > 0,
        new[0] == '+',
        laws::text::solid(new),
        laws::text::lacks(new, '@'),
        more.len() > 0,
        laws::text::solid(more),
        laws::text::lacks(more, '@'),
    ensures
        scope::hunk_new_range(header_line(old, new + seq![' '] + more, tail))
            == scope::hunk_new_range(header_line(old, new, tail)),
{
    lemma_header(old, new, tail);
    reveal_strlit("@@ ");
    reveal_strlit("@@");
    reveal_strlit(" ");
    reveal_strlit(" @@");
    let blank = seq![' '];
    let last = new + blank + more;
    let header = header_line(old, last, tail);
    let core = old + blank + last;
    let inner = blank + core + blank;
    assert("@@ "@ == seq!['@', '@'] + blank);
    assert(" @@"@ == blank + seq!['@', '@']);
    assert(" "@ == blank);
    assert(header.take(2) == "@@"@);
    assert(header.skip(2) == inner + (seq!['@', '@'] + tail));
    assert forall|i: int| 0 <= i < inner.len() implies #[trigger] inner[i] != '@' by {
        let n = 2 + old.len();
        if 1 <= i < 1 + old.len() {
            assert(inner[i] == old[i - 1]);
        } else if n <= i < n + new.len() {
            assert(inner[i] == new[i - n]);
        } else if n + new.len() < i < n + last.len() {
            assert(inner[i] == more[i - n - new.len() - 1]);
        }
    }
    lemma_first_double_at(inner, tail);
    assert(header.skip(2).take(inner.len() as int) == inner);
    assert(core[0] == old[0]);
    assert(core.last() == more.last());
    assert(!text::is_space(old[0]));
    assert(!text::is_space(more[more.len() - 1]));
    laws::text::law_trim(blank, core, blank);
    assert(core == old + (blank + last));
    laws::text::law_first_word(old, blank + last);
    laws::text::law_words_skip_space(blank, last);
    assert(last == new + (blank + more));
    laws::text::law_first_word(new, blank + more);
    let parts = text::words(core);
    assert(parts == seq![old] + (seq![new] + text::words(blank + more)));
    assert(parts.len() >= 2 && parts[1] == new);
}

/// Within a hunk every line that starts with a plus sign is counted, however many
/// the header named, and no other line is; a line of the next file ends the hunk.
/// Outside of hunks nothing is counted.
pub proof fn law_added_line_counts(lines: Seq<Seq<char>>, line: Seq<char>)
    requires
        !text::starts_with(line, "@@"@),
    ensures
        ({
            let before = scope::read_diff(lines);
            let after = scope::read_diff(lines.push(line));
            &&& before.in_hunk && line.len() > 0 && line[0] == '+' && !text::starts_with(
                line,
                "+++ "@,
            ) ==> after.added == before.added + 1 && after.in_hunk
            &&& line.len() == 0 || line[0] != '+' ==> after.added == before.added
            &&& !before.in_hunk ==> after.added == before.added && !after.in_hunk
            &&& text::starts_with(line, "diff "@) ==> !after.in_hunk
            &&& after.ranges == before.ranges
        }),
{
    reveal_strlit("+");
    reveal_strlit("-");
    reveal_strlit("\\");
    reveal_strlit("diff ");
    reveal_strlit("--- ");
    reveal_strlit("+++ ");
    assert(lines.push(line).drop_last() == lines);
    if line.len() > 0 {
        assert(line[0] == '+' ==> line.take(1) == "+"@);
        assert(line.take(1) == "+"@ ==> line.take(1)[0] == line[0]);
        assert("diff "@[0] == 'd' && "--- "@[0] == '-');
        if text::starts_with(line, "diff "@) {
            assert(line.take(5)[0] == line[0]);
        }
        if text::starts_with(line, "--- "@) {
            assert(line.take(4)[0] == line[0]);
        }
    }
}

/// A scope says from which system it comes, and what its changes are counted
/// from: the base that was asked for in Git, and the working copy in Jujutsu.
pub proof fn law_scope_says_where_it_comes_from(
    vcs: Vcs,
    base: Seq<char>,
    patterns: Seq<Seq<char>>,
    listing: Seq<char>,
    diffs: Seq<Result<Seq<char>, ScopeErrorView>>,
)
    ensures
        scope::scope_of_outputs(Some(vcs), base, patterns, Ok(listing), diffs) matches Ok(made)
            ==> {
            &&& made.vcs == Some(vcs)
            &&& vcs == Vcs::Git ==> made.base == base && made.source == "git-diff"@
            &&& vcs == Vcs::Jj ==> made.base == "@"@ && made.source == "jj-diff"@
        },
        scope::scope_of_outputs(None, base, patterns, Ok(listing), diffs) is Err,
        scope::list_command_of(Vcs::Git, base).contains(base),
        scope::diff_command_of(Vcs::Git, base, listing)[3] == base,
        scope::diff_command_of(vcs, base, listing).last() == listing,
{
    assert(scope::list_command_of(Vcs::Git, base)[4] == base);
}

} // verus!
