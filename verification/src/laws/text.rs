//! Laws of texts: trimming, words, lines, parts and numbers.

use crate::text;
use crate::text::NumberError;
use vstd::prelude::*;

verus! {

/// No character of a text is white space.
pub open spec fn solid(t: Seq<char>) -> bool {
    forall|i: int| 0 <= i < t.len() ==> !text::is_space(#[trigger] t[i])
}

/// Every character of a text is white space.
pub open spec fn blank(t: Seq<char>) -> bool {
    forall|i: int| 0 <= i < t.len() ==> text::is_space(#[trigger] t[i])
}

/// A character does not occur in a text.
pub open spec fn lacks(t: Seq<char>, c: char) -> bool {
    forall|i: int| 0 <= i < t.len() ==> #[trigger] t[i] != c
}

/// White space is what Unicode calls so, by its code points.
pub proof fn law_white_space(c: char)
    ensures
        text::is_space(c) <==> ({
            let n = c as int;
            ||| n == 32 || n == 133 || n == 160 || n == 5760 || n == 8239 || n == 8287 || n == 12288
            ||| 9 <= n <= 13
            ||| 8192 <= n <= 8202
            ||| n == 8232 || n == 8233
        }),
{
}

proof fn lemma_trim_start(front: Seq<char>, rest: Seq<char>)
    requires
        blank(front),
        rest.len() > 0 ==> !text::is_space(rest[0]),
    ensures
        text::trim_start(front + rest) == rest,
    decreases front.len(),
{
    let t = front + rest;
    if front.len() == 0 {
        assert(t == rest);
    } else {
        assert(text::is_space(front[0]));
        assert forall|i: int| 0 <= i < front.skip(1).len() implies text::is_space(
            #[trigger] front.skip(1)[i],
        ) by {
            assert(text::is_space(front[i + 1]));
        }
        assert(t.skip(1) == front.skip(1) + rest);
        lemma_trim_start(front.skip(1), rest);
    }
}

proof fn lemma_trim_end(rest: Seq<char>, end: Seq<char>)
    requires
        blank(end),
        rest.len() > 0 ==> !text::is_space(rest.last()),
    ensures
        text::trim_end(rest + end) == rest,
    decreases end.len(),
{
    let t = rest + end;
    if end.len() == 0 {
        assert(t == rest);
    } else {
        assert(text::is_space(end[end.len() - 1]));
        assert forall|i: int| 0 <= i < end.drop_last().len() implies text::is_space(
            #[trigger] end.drop_last()[i],
        ) by {
            assert(text::is_space(end[i]));
        }
        assert(t.drop_last() == rest + end.drop_last());
        lemma_trim_end(rest, end.drop_last());
    }
}

/// Trimming takes the white space at both ends off, and nothing else.
pub proof fn law_trim(front: Seq<char>, core: Seq<char>, end: Seq<char>)
    requires
        blank(front),
        blank(end),
        core.len() > 0 ==> !text::is_space(core[0]) && !text::is_space(core.last()),
    ensures
        text::trim(front + core + end) == core,
{
    if core.len() == 0 {
        let t = front + core + end;
        assert forall|i: int| 0 <= i < t.len() implies text::is_space(#[trigger] t[i]) by {
            if i < front.len() {
                assert(t[i] == front[i]);
            } else {
                assert(t[i] == end[i - front.len()]);
            }
        }
        lemma_trim_start(t, core);
        assert(t + core == t);
        assert(core == Seq::<char>::empty());
    } else {
        assert(front + core + end == front + (core + end));
        assert((core + end)[0] == core[0]);
        lemma_trim_start(front, core + end);
        lemma_trim_end(core, end);
    }
}

/// Trimming leaves nothing exactly where there is nothing but white space.
pub proof fn law_trim_of_blank(t: Seq<char>)
    ensures
        text::trim(t).len() == 0 <==> blank(t),
    decreases t.len(),
{
    if blank(t) {
        law_trim(t, Seq::empty(), Seq::empty());
        assert(t + Seq::<char>::empty() + Seq::<char>::empty() == t);
    } else {
        let k = choose|k: int| 0 <= k < t.len() && !text::is_space(#[trigger] t[k]);
        lemma_trim_start_keeps(t, k);
        let s = text::trim_start(t);
        let j = choose|j: int| 0 <= j < s.len() && !text::is_space(#[trigger] s[j]);
        lemma_trim_end_keeps(s, j);
    }
}

proof fn lemma_trim_start_keeps(t: Seq<char>, k: int)
    requires
        0 <= k < t.len(),
        !text::is_space(t[k]),
    ensures
        exists|j: int|
            0 <= j < text::trim_start(t).len() && !text::is_space(
                #[trigger] text::trim_start(t)[j],
            ),
    decreases t.len(),
{
    if text::is_space(t[0]) {
        assert(t.skip(1)[k - 1] == t[k]);
        lemma_trim_start_keeps(t.skip(1), k - 1);
        let s = text::trim_start(t.skip(1));
        let j = choose|j: int| 0 <= j < s.len() && !text::is_space(#[trigger] s[j]);
        assert(text::trim_start(t)[j] == s[j]);
    } else {
        assert(!text::is_space(text::trim_start(t)[k]));
    }
}

proof fn lemma_trim_end_keeps(t: Seq<char>, k: int)
    requires
        0 <= k < t.len(),
        !text::is_space(t[k]),
    ensures
        text::trim_end(t).len() > 0,
    decreases t.len(),
{
    if text::is_space(t.last()) {
        assert(t.drop_last()[k] == t[k]);
        lemma_trim_end_keeps(t.drop_last(), k);
    }
}

proof fn lemma_first_space(t: Seq<char>, i: int)
    requires
        0 <= i <= t.len(),
        forall|j: int| 0 <= j < i ==> !text::is_space(#[trigger] t[j]),
        i < t.len() ==> text::is_space(t[i]),
    ensures
        text::first_space(t) == i,
    decreases i,
{
    if i > 0 {
        assert(!text::is_space(t[0]));
        assert forall|j: int| 0 <= j < i - 1 implies !text::is_space(#[trigger] t.skip(1)[j]) by {
            assert(!text::is_space(t[j + 1]));
        }
        lemma_first_space(t.skip(1), i - 1);
    }
}

/// White space in front of a text changes none of its words.
pub proof fn law_words_skip_space(front: Seq<char>, t: Seq<char>)
    requires
        blank(front),
    ensures
        text::words(front + t) == text::words(t),
    decreases front.len(),
{
    if front.len() == 0 {
        assert(front + t == t);
    } else {
        assert(text::is_space(front[0]));
        assert forall|i: int| 0 <= i < front.skip(1).len() implies text::is_space(
            #[trigger] front.skip(1)[i],
        ) by {
            assert(text::is_space(front[i + 1]));
        }
        assert((front + t).skip(1) == front.skip(1) + t);
        law_words_skip_space(front.skip(1), t);
    }
}

/// A word ends at the first white space, and the words of what follows follow.
pub proof fn law_first_word(word: Seq<char>, rest: Seq<char>)
    requires
        word.len() > 0,
        solid(word),
        rest.len() > 0 ==> text::is_space(rest[0]),
    ensures
        text::words(word + rest) == seq![word] + text::words(rest),
{
    let t = word + rest;
    let n = word.len() as int;
    assert forall|j: int| 0 <= j < n implies !text::is_space(#[trigger] t[j]) by {
        assert(!text::is_space(word[j]));
    }
    lemma_first_space(t, n);
    assert(!text::is_space(t[0]));
    assert(t.take(n) == word);
    assert(t.skip(n) == rest);
}

/// The first line of a text is what stands before its first line feed, without a
/// carriage return that the line feed follows; the lines of what follows follow.
pub proof fn law_first_line(line: Seq<char>, rest: Seq<char>)
    requires
        lacks(line, '\n'),
    ensures
        line.len() == 0 || line.last() != '\r' ==> text::lines(line.push('\n') + rest) == seq![
            line,
        ] + text::lines(rest),
        text::lines(line.push('\r').push('\n') + rest) == seq![line] + text::lines(rest),
        line.len() > 0 ==> text::lines(line) == seq![line],
        text::lines(Seq::empty()) == Seq::<Seq<char>>::empty(),
{
    lemma_first_piece(line.push('\n'), rest);
    lemma_lines_of(line.push('\n'), rest);
    let ended = line.push('\r').push('\n');
    lemma_first_piece(ended, rest);
    lemma_lines_of(ended, rest);
    assert(ended.drop_last() == line.push('\r'));
    assert(line.push('\r').drop_last() == line);
    assert(line.push('\n').drop_last() == line);
    reveal_with_fuel(text::pieces, 2);
    text::lemma_first_of(line, '\n', line.len() as int);
    assert(line.take(line.len() as int) == line);
    assert(line.skip(line.len() as int) == Seq::<char>::empty());
    if line.len() > 0 {
        assert(text::pieces(line) == seq![line]);
        assert(line[line.len() - 1] != '\n');
        assert(text::line_body(line) == line);
        assert(text::lines(line) == seq![line]);
    }
    assert(text::lines(Seq::empty()) == Seq::<Seq<char>>::empty());
}

/// The first line of a text, with its line feed.
proof fn lemma_first_piece(line: Seq<char>, rest: Seq<char>)
    requires
        line.len() > 0,
        line.last() == '\n',
        forall|i: int| 0 <= i < line.len() - 1 ==> #[trigger] line[i] != '\n',
    ensures
        text::pieces(line + rest) == seq![line] + text::pieces(rest),
{
    let t = line + rest;
    let n = line.len() as int;
    assert forall|j: int| 0 <= j < n - 1 implies #[trigger] t[j] != '\n' by {
        assert(line[j] != '\n');
    }
    text::lemma_first_of(t, '\n', n - 1);
    assert(t.take(n) == line);
    assert(t.skip(n) == rest);
}

proof fn lemma_lines_of(line: Seq<char>, rest: Seq<char>)
    requires
        text::pieces(line + rest) == seq![line] + text::pieces(rest),
    ensures
        text::lines(line + rest) == seq![text::line_body(line)] + text::lines(rest),
{
    assert(text::lines(line + rest) == seq![text::line_body(line)] + text::lines(rest));
}

/// The lines of a text, each with its line feed, are the text again.
pub proof fn law_pieces_are_the_text(t: Seq<char>)
    ensures
        crate::clip::joined(text::pieces(t)) == t,
        forall|i: int, k: int|
            0 <= i < text::pieces(t).len() && 0 <= k < text::pieces(t)[i].len() - 1
                ==> #[trigger] text::pieces(t)[i][k] != '\n',
        forall|i: int|
            0 <= i < text::pieces(t).len() - 1 ==> (#[trigger] text::pieces(t)[i]).len() > 0
                && text::pieces(t)[i].last() == '\n',
    decreases t.len(),
{
    crate::clip::lemma_pieces_joined(t);
    if t.len() > 0 {
        text::lemma_first_of_bounds(t, '\n');
        let end = text::piece_end(t);
        let rest = text::pieces(t.skip(end));
        let all = text::pieces(t);
        law_pieces_are_the_text(t.skip(end));
        assert(all == seq![t.take(end)] + rest);
        assert forall|i: int, k: int|
            0 <= i < all.len() && 0 <= k < all[i].len() - 1 implies #[trigger] all[i][k]
            != '\n' by {
            if i > 0 {
                assert(all[i] == rest[i - 1]);
                assert(rest[i - 1][k] != '\n');
            }
        }
        assert forall|i: int| 0 <= i < all.len() - 1 implies (#[trigger] all[i]).len() > 0
            && all[i].last() == '\n' by {
            if i > 0 {
                assert(all[i] == rest[i - 1]);
            } else {
                assert(t.skip(end).len() > 0) by {
                    if t.skip(end).len() == 0 {
                        assert(rest.len() == 0);
                    }
                }
            }
        }
    }
}

/// A text is cut at each occurrence of a character, and nowhere else.
pub proof fn law_split(part: Seq<char>, c: char, rest: Seq<char>)
    requires
        lacks(part, c),
    ensures
        text::split_at_char(part, c) == seq![part],
        text::split_at_char(part.push(c) + rest, c) == seq![part] + text::split_at_char(rest, c),
{
    text::lemma_first_of(part, c, part.len() as int);
    let t = part.push(c) + rest;
    let n = part.len() as int;
    assert forall|j: int| 0 <= j < n implies #[trigger] t[j] != c by {
        assert(part[j] != c);
    }
    text::lemma_first_of(t, c, n);
    assert(t.take(n) == part);
    assert(t.skip(n + 1) == rest);
}

/// Parts are joined one behind the other, with the separator between two.
pub proof fn law_join(a: Seq<Seq<char>>, b: Seq<Seq<char>>, separator: Seq<char>)
    ensures
        a.len() > 0 && b.len() > 0 ==> text::join(a + b, separator) == text::join(a, separator)
            + separator + text::join(b, separator),
        a.len() == 1 ==> text::join(a, separator) == a[0],
        text::join(Seq::empty(), separator) == Seq::<char>::empty(),
    decreases b.len(),
{
    if a.len() > 0 && b.len() > 0 {
        assert((a + b).drop_last() == a + b.drop_last());
        assert((a + b).last() == b.last());
        law_join(a, b.drop_last(), separator);
        let x = text::join(a, separator) + separator;
        if b.len() == 1 {
            assert(a + b.drop_last() == a);
        } else {
            let y = text::join(b.drop_last(), separator);
            assert(x + y + separator + b.last() == x + (y + separator + b.last()));
        }
    }
}

/// A number is read exactly where a text holds decimal digits, after at most one
/// plus sign, and their value fits; it is that value.
pub proof fn law_number_is_read(t: Seq<char>)
    ensures
        ({
            let digits = if t.len() > 0 && t[0] == '+' {
                t.skip(1)
            } else {
                t
            };
            &&& text::read_number(t) is Ok <==> digits.len() > 0 && text::all_digits(digits)
                && text::digits_value(digits) <= usize::MAX
            &&& text::read_number(t) is Ok ==> text::read_number(t) == Ok::<nat, NumberError>(
                text::digits_value(digits),
            )
        }),
{
    let digits = if t.len() > 0 && t[0] == '+' {
        t.skip(1)
    } else {
        t
    };
    lemma_read_digits(digits);
}

proof fn lemma_read_digits(t: Seq<char>)
    ensures
        text::read_digits(t) is Ok <==> text::all_digits(t) && text::digits_value(t) <= usize::MAX,
        text::read_digits(t) is Ok ==> text::read_digits(t) == Ok::<nat, NumberError>(
            text::digits_value(t),
        ),
    decreases t.len(),
{
    if t.len() > 0 {
        let s = t.drop_last();
        lemma_read_digits(s);
        if text::all_digits(t) {
            assert forall|i: int| 0 <= i < s.len() implies text::is_digit(#[trigger] s[i]) by {
                assert(text::is_digit(t[i]));
            }
            assert(text::is_digit(t[t.len() - 1]));
        }
        if text::read_digits(t) is Ok {
            assert forall|i: int| 0 <= i < t.len() implies text::is_digit(#[trigger] t[i]) by {
                if i < s.len() {
                    assert(text::is_digit(s[i]));
                }
            }
        }
    }
}

/// The value of decimal digits: each further digit counts ten times what is
/// there, and its own place among the ten digits.
pub proof fn law_digits(t: Seq<char>, d: nat)
    requires
        d < 10,
    ensures
        text::digits_value(Seq::empty()) == 0,
        text::digits_value(t.push(seq!['0', '1', '2', '3', '4', '5', '6', '7', '8', '9'][d as int]))
            == 10 * text::digits_value(t) + d,
{
    let c = seq!['0', '1', '2', '3', '4', '5', '6', '7', '8', '9'][d as int];
    assert(t.push(c).drop_last() == t);
    assert(c as int == '0' as int + d);
}

/// A number is written in the digits whose value it is, without a zero in front.
pub proof fn law_decimal(n: nat)
    ensures
        text::all_digits(text::decimal(n)),
        text::digits_value(text::decimal(n)) == n,
        text::decimal(n).len() > 1 ==> text::decimal(n)[0] != '0',
    decreases n,
{
    text::lemma_decimal_value(n);
    if n >= 10 {
        law_decimal(n / 10);
        if n / 10 >= 10 {
            assert(text::decimal(n)[0] == text::decimal(n / 10)[0]);
            assert(text::decimal(n / 10).len() > 1) by {
                text::lemma_decimal_value(n / 100);
            }
        }
    }
}

/// A negative number is that of its size behind a minus sign; another one has no
/// sign.
pub proof fn law_signed_decimal(n: nat)
    ensures
        text::signed_decimal(n as int) == text::decimal(n),
        n > 0 ==> text::signed_decimal(-(n as int)) == "-"@ + text::decimal(n),
{
}

} // verus!
