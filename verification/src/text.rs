//! Plain text: characters, lines, numbers in decimal.
//!
//! The specifications speak of a text as its sequence of characters.

use vstd::prelude::*;

verus! {

/// `String::push` appends one character and keeps what was there.
pub assume_specification[ String::push ](s: &mut String, c: char)
    ensures
        final(s)@ == old(s)@.push(c),
;

/// The characters of a text, in order.
pub fn chars_of(text: &str) -> (chars: Vec<char>)
    ensures
        chars@ == text@,
{
    let mut chars: Vec<char> = Vec::new();
    for c in it: text.chars()
        invariant
            it.seq() == text@,
            chars@ == text@.take(it.index() as int),
    {
        chars.push(c);
    }
    chars
}

/// The text made of the characters `from..to`.
pub fn string_of(chars: &[char], from: usize, to: usize) -> (text: String)
    requires
        from <= to <= chars@.len(),
    ensures
        text@ == chars@.subrange(from as int, to as int),
{
    let mut text = String::new();
    for i in from..to
        invariant
            from <= to <= chars@.len(),
            text@ == chars@.subrange(from as int, i as int),
    {
        text.push(chars[i]);
        assert(chars@.subrange(from as int, i + 1) == chars@.subrange(from as int,
            i as int).push(chars@[i as int]));
    }
    text
}

/// Whether two texts hold the same characters.
pub fn same_text(a: &str, b: &str) -> (same: bool)
    ensures
        same == (a@ == b@),
{
    a.to_string() == b.to_string()
}

/// The index of the first `c` in `t`, or the length of `t` where there is none.
pub open spec fn first_of(t: Seq<char>, c: char) -> int
    decreases t.len(),
{
    if t.len() == 0 || t[0] == c {
        0
    } else {
        1 + first_of(t.skip(1), c)
    }
}

/// What pins `first_of` down.
pub proof fn lemma_first_of(t: Seq<char>, c: char, i: int)
    requires
        0 <= i <= t.len(),
        forall|j: int| 0 <= j < i ==> t[j] != c,
        i < t.len() ==> t[i] == c,
    ensures
        first_of(t, c) == i,
    decreases i,
{
    if i > 0 {
        assert(t[0] != c);
        assert forall|j: int| 0 <= j < i - 1 implies t.skip(1)[j] != c by {
            assert(t[j + 1] != c);
        }
        lemma_first_of(t.skip(1), c, i - 1);
    }
}

/// What `first_of` gives: nothing before it is `c`, and it is `c` or the end.
pub proof fn lemma_first_of_bounds(t: Seq<char>, c: char)
    ensures
        0 <= first_of(t, c) <= t.len(),
        forall|j: int| 0 <= j < first_of(t, c) ==> t[j] != c,
        first_of(t, c) < t.len() ==> t[first_of(t, c)] == c,
    decreases t.len(),
{
    if t.len() > 0 && t[0] != c {
        lemma_first_of_bounds(t.skip(1), c);
        assert forall|j: int| 0 <= j < first_of(t, c) implies t[j] != c by {
            if j > 0 {
                assert(t.skip(1)[j - 1] != c);
            }
        }
    }
}

/// The index of the first `c` at or after `from`, or the length.
pub fn find_char(text: &[char], from: usize, c: char) -> (at: usize)
    requires
        from <= text@.len(),
    ensures
        from <= at <= text@.len(),
        at - from == first_of(text@.skip(from as int), c),
{
    let mut i: usize = from;
    while i < text.len() && text[i] != c
        invariant
            from <= i <= text@.len(),
            forall|j: int| from <= j < i ==> text@[j] != c,
        decreases text@.len() - i,
    {
        i += 1;
    }
    proof {
        lemma_first_of(text@.skip(from as int), c, i - from);
    }
    i
}

/// Where the first line of `t` ends, its line feed counted in.
pub open spec fn piece_end(t: Seq<char>) -> int {
    if first_of(t, '\n') < t.len() {
        first_of(t, '\n') + 1
    } else {
        t.len() as int
    }
}

/// The lines of `t`, each with its line feed; the last one may have none.
pub open spec fn pieces(t: Seq<char>) -> Seq<Seq<char>>
    decreases t.len(),
{
    if t.len() == 0 {
        Seq::empty()
    } else {
        let end = piece_end(t);
        if 0 < end <= t.len() {
            seq![t.take(end)] + pieces(t.skip(end))
        } else {
            Seq::empty()
        }
    }
}

/// A line without its line feed, and without a carriage return before that.
pub open spec fn line_body(piece: Seq<char>) -> Seq<char> {
    if piece.len() > 0 && piece.last() == '\n' {
        let body = piece.drop_last();
        if body.len() > 0 && body.last() == '\r' {
            body.drop_last()
        } else {
            body
        }
    } else {
        piece
    }
}

/// The lines of `t` without their ends (`\n` or `\r\n`).
pub open spec fn lines(t: Seq<char>) -> Seq<Seq<char>> {
    pieces(t).map_values(|piece: Seq<char>| line_body(piece))
}

/// The texts that a vector of character vectors holds.
pub open spec fn rows(v: Seq<Vec<char>>) -> Seq<Seq<char>> {
    v.map_values(|row: Vec<char>| row@)
}

/// The texts that a vector of strings holds.
pub open spec fn texts(v: Seq<String>) -> Seq<Seq<char>> {
    v.map_values(|s: String| s@)
}

/// A copy of the characters `from..to`.
pub fn sub_chars(text: &[char], from: usize, to: usize) -> (part: Vec<char>)
    requires
        from <= to <= text@.len(),
    ensures
        part@ == text@.subrange(from as int, to as int),
{
    let mut part: Vec<char> = Vec::new();
    for i in from..to
        invariant
            from <= to <= text@.len(),
            part@ == text@.subrange(from as int, i as int),
    {
        part.push(text[i]);
        assert(text@.subrange(from as int, i + 1) == text@.subrange(from as int, i as int).push(
            text@[i as int],
        ));
    }
    part
}

/// Splits a text after each line feed.
pub fn split_pieces(text: &[char]) -> (out: Vec<Vec<char>>)
    ensures
        rows(out@) == pieces(text@),
{
    let mut out: Vec<Vec<char>> = Vec::new();
    let mut from: usize = 0;
    assert(text@.skip(0) == text@);
    assert(rows(out@) == Seq::<Seq<char>>::empty());
    while from < text.len()
        invariant
            from <= text@.len(),
            pieces(text@) == rows(out@) + pieces(text@.skip(from as int)),
        decreases text@.len() - from,
    {
        let ghost rest = text@.skip(from as int);
        let at = find_char(text, from, '\n');
        let to: usize = if at < text.len() {
            at + 1
        } else {
            at
        };
        let ghost before = rows(out@);
        out.push(sub_chars(text, from, to));
        proof {
            assert(rest.take(to - from) == text@.subrange(from as int, to as int));
            assert(rest.skip(to - from) == text@.skip(to as int));
            assert(rows(out@) == before.push(rest.take(to - from)));
            assert(pieces(rest) == seq![rest.take(to - from)] + pieces(rest.skip(to - from)));
            assert(before.push(rest.take(to - from)) + pieces(text@.skip(to as int)) == before + (
            seq![rest.take(to - from)] + pieces(rest.skip(to - from))));
        }
        from = to;
    }
    assert(text@.skip(from as int).len() == 0);
    assert(rows(out@) + pieces(text@.skip(from as int)) == rows(out@));
    out
}

/// Splits a text into its lines, each with its line feed.
pub fn whole_lines(text: &str) -> (out: Vec<String>)
    ensures
        texts(out@) == pieces(text@),
{
    let chars = chars_of(text);
    let cut = split_pieces(chars.as_slice());
    let mut out: Vec<String> = Vec::new();
    for i in 0..cut.len()
        invariant
            rows(cut@) == pieces(text@),
            texts(out@) == pieces(text@).take(i as int),
    {
        let ghost before = texts(out@);
        let line = string_of(cut[i].as_slice(), 0, cut[i].len());
        out.push(line);
        proof {
            assert(cut@[i as int]@ == rows(cut@)[i as int]);
            assert(line@ == cut@[i as int]@);
            assert(texts(out@) == before.push(line@));
            assert(pieces(text@).take(i + 1) == pieces(text@).take(i as int).push(
                pieces(text@)[i as int],
            ));
        }
    }
    assert(pieces(text@).take(cut@.len() as int) == pieces(text@));
    out
}

/// Splits a text into its lines, without their ends.
pub fn split_lines(text: &[char]) -> (out: Vec<Vec<char>>)
    ensures
        rows(out@) == lines(text@),
{
    let cut = split_pieces(text);
    let mut out: Vec<Vec<char>> = Vec::new();
    for i in 0..cut.len()
        invariant
            rows(cut@) == pieces(text@),
            out@.len() == i,
            forall|j: int| 0 <= j < i ==> rows(out@)[j] == line_body(pieces(text@)[j]),
    {
        let piece = &cut[i];
        assert(piece@ == rows(cut@)[i as int]);
        let n: usize = piece.len();
        let end: usize = if n > 0 && piece[n - 1] == '\n' {
            if n > 1 && piece[n - 2] == '\r' {
                n - 2
            } else {
                n - 1
            }
        } else {
            n
        };
        let ghost before = out@;
        out.push(sub_chars(piece.as_slice(), 0, end));
        assert(piece@.subrange(0, end as int) == line_body(piece@));
        assert forall|j: int| 0 <= j < i + 1 implies rows(out@)[j] == line_body(
            pieces(text@)[j],
        ) by {
            if j < i {
                assert(rows(out@)[j] == rows(before)[j]);
            }
        }
    }
    assert(rows(out@) == lines(text@));
    out
}

/// The characters with Unicode's White_Space property.
pub open spec fn is_space(c: char) -> bool {
    ||| '\u{9}' <= c <= '\u{d}'
    ||| c == '\u{20}'
    ||| c == '\u{85}'
    ||| c == '\u{a0}'
    ||| c == '\u{1680}'
    ||| '\u{2000}' <= c <= '\u{200a}'
    ||| c == '\u{2028}'
    ||| c == '\u{2029}'
    ||| c == '\u{202f}'
    ||| c == '\u{205f}'
    ||| c == '\u{3000}'
}

/// Whether a character is white space.
pub fn char_is_space(c: char) -> (space: bool)
    ensures
        space == is_space(c),
{
    ('\u{9}' <= c && c <= '\u{d}') || c == '\u{20}' || c == '\u{85}' || c == '\u{a0}' || c
        == '\u{1680}' || ('\u{2000}' <= c && c <= '\u{200a}') || c == '\u{2028}' || c == '\u{2029}'
        || c == '\u{202f}' || c == '\u{205f}' || c == '\u{3000}'
}

/// `t` without the white space at its front.
pub open spec fn trim_start(t: Seq<char>) -> Seq<char>
    decreases t.len(),
{
    if t.len() > 0 && is_space(t[0]) {
        trim_start(t.skip(1))
    } else {
        t
    }
}

/// `t` without the white space at its end.
pub open spec fn trim_end(t: Seq<char>) -> Seq<char>
    decreases t.len(),
{
    if t.len() > 0 && is_space(t.last()) {
        trim_end(t.drop_last())
    } else {
        t
    }
}

/// `t` without the white space at both ends.
pub open spec fn trim(t: Seq<char>) -> Seq<char> {
    trim_end(trim_start(t))
}

/// Removes the white space at both ends.
pub fn trimmed(text: &[char]) -> (out: Vec<char>)
    ensures
        out@ == trim(text@),
{
    let mut from: usize = 0;
    assert(text@.skip(0) == text@);
    while from < text.len() && char_is_space(text[from])
        invariant
            from <= text@.len(),
            trim_start(text@) == trim_start(text@.skip(from as int)),
        decreases text@.len() - from,
    {
        assert(text@.skip(from as int).skip(1) == text@.skip(from + 1));
        from += 1;
    }
    let ghost front = text@.skip(from as int);
    assert(trim_start(text@) == front);
    let mut to: usize = text.len();
    assert(text@.subrange(from as int, to as int) == front);
    while to > from && char_is_space(text[to - 1])
        invariant
            from <= to <= text@.len(),
            trim_end(front) == trim_end(text@.subrange(from as int, to as int)),
        decreases to,
    {
        assert(text@.subrange(from as int, to as int).drop_last() == text@.subrange(
            from as int,
            to - 1,
        ));
        to -= 1;
    }
    sub_chars(text, from, to)
}

/// The text of an optional string.
pub open spec fn optional_text(s: Option<String>) -> Option<Seq<char>> {
    match s {
        Some(s) => Some(s@),
        None => None,
    }
}

/// The texts of optional strings.
pub open spec fn optional_texts(v: Seq<Option<String>>) -> Seq<Option<Seq<char>>> {
    v.map_values(|s: Option<String>| optional_text(s))
}

/// Whether `t` starts with `prefix`.
pub open spec fn starts_with(t: Seq<char>, prefix: Seq<char>) -> bool {
    prefix.len() <= t.len() && t.take(prefix.len() as int) == prefix
}

/// Whether `t` ends with `suffix`.
pub open spec fn ends_with(t: Seq<char>, suffix: Seq<char>) -> bool {
    suffix.len() <= t.len() && t.skip(t.len() - suffix.len()) == suffix
}

/// Whether `text` ends with `suffix`.
pub fn has_suffix(text: &[char], suffix: &str) -> (yes: bool)
    ensures
        yes == ends_with(text@, suffix@),
{
    let end = chars_of(suffix);
    let count: usize = end.len();
    if text.len() < count {
        return false;
    }
    let from: usize = text.len() - count;
    let tail = sub_chars(text, from, text.len());
    assert(tail@ == text@.skip(from as int));
    for i in 0..count
        invariant
            count == end@.len(),
            tail@.len() == count,
            end@ == suffix@,
            tail@ == text@.skip(text@.len() - suffix@.len()),
            suffix@.len() <= text@.len(),
            forall|j: int| 0 <= j < i ==> tail@[j] == end@[j],
    {
        if tail[i] != end[i] {
            return false;
        }
    }
    assert(tail@ == end@);
    true
}

/// Whether `text` starts with `prefix`.
pub fn has_prefix(text: &[char], prefix: &str) -> (yes: bool)
    ensures
        yes == starts_with(text@, prefix@),
{
    let wanted = chars_of(prefix);
    if wanted.len() > text.len() {
        return false;
    }
    for i in 0..wanted.len()
        invariant
            wanted@ == prefix@,
            wanted@.len() <= text@.len(),
            forall|j: int| 0 <= j < i ==> text@[j] == wanted@[j],
    {
        if text[i] != wanted[i] {
            assert(text@.take(prefix@.len() as int)[i as int] != prefix@[i as int]);
            return false;
        }
    }
    assert(text@.take(prefix@.len() as int) == prefix@);
    true
}

/// A decimal digit.
pub open spec fn is_digit(c: char) -> bool {
    '0' <= c <= '9'
}

/// The value of a decimal digit.
pub open spec fn digit_value(c: char) -> nat {
    (c as int - '0' as int) as nat
}

/// The digit for a value below ten.
pub open spec fn digit(d: nat) -> char {
    ('0' as int + d) as char
}

/// A number in decimal, without leading zeros.
pub open spec fn decimal(n: nat) -> Seq<char>
    decreases n,
{
    if n < 10 {
        seq![digit(n)]
    } else {
        decimal(n / 10).push(digit(n % 10))
    }
}

/// The number that a sequence of decimal digits stands for.
pub open spec fn digits_value(t: Seq<char>) -> nat
    decreases t.len(),
{
    if t.len() == 0 {
        0
    } else {
        digits_value(t.drop_last()) * 10 + digit_value(t.last())
    }
}

/// Whether every character is a decimal digit.
pub open spec fn all_digits(t: Seq<char>) -> bool {
    forall|i: int| 0 <= i < t.len() ==> is_digit(#[trigger] t[i])
}

/// Appends a number in decimal.
pub fn push_decimal(out: &mut String, n: u128)
    ensures
        final(out)@ == old(out)@ + decimal(n as nat),
    decreases n,
{
    if n >= 10 {
        push_decimal(out, n / 10);
    }
    let d: u8 = (n % 10) as u8;
    let c: char = (48 + d) as char;
    assert(c == digit((n % 10) as nat));
    let ghost before = out@;
    out.push(c);
    proof {
        if n < 10 {
            assert(old(out)@ + decimal(n as nat) == old(out)@.push(c));
        } else {
            assert(old(out)@ + decimal(n as nat) == (old(out)@ + decimal((n / 10) as nat)).push(c));
        }
    }
}

/// A number in decimal.
pub fn decimal_text(n: usize) -> (text: String)
    ensures
        text@ == decimal(n as nat),
{
    let mut text = String::new();
    push_decimal(&mut text, n as u128);
    assert(Seq::<char>::empty() + decimal(n as nat) == decimal(n as nat));
    text
}

/// Reading a number back from its decimal digits gives the number.
pub proof fn lemma_decimal_value(n: nat)
    ensures
        all_digits(decimal(n)),
        decimal(n).len() > 0,
        digits_value(decimal(n)) == n,
    decreases n,
{
    reveal_with_fuel(digits_value, 2);
    if n < 10 {
        assert(decimal(n).drop_last() == Seq::<char>::empty());
        assert(decimal(n).last() == digit(n));
    } else {
        lemma_decimal_value(n / 10);
        assert(decimal(n).drop_last() == decimal(n / 10));
        assert(decimal(n).last() == digit(n % 10));
        assert forall|i: int| 0 <= i < decimal(n).len() implies is_digit(
            #[trigger] decimal(n)[i],
        ) by {
            if i < decimal(n / 10).len() {
                assert(decimal(n)[i] == decimal(n / 10)[i]);
            }
        }
    }
}

/// Why a text is not a number.
#[derive(Debug, Clone, Copy, PartialEq, Eq, Structural)]
pub enum NumberError {
    Empty,
    InvalidDigit,
    TooLarge,
}

/// The digits of `t` read from the left; the first character that cannot be
/// taken decides the error.
pub open spec fn read_digits(t: Seq<char>) -> Result<nat, NumberError>
    decreases t.len(),
{
    if t.len() == 0 {
        Ok(0)
    } else {
        match read_digits(t.drop_last()) {
            Err(e) => Err(e),
            Ok(v) => if !is_digit(t.last()) {
                Err(NumberError::InvalidDigit)
            } else if v * 10 + digit_value(t.last()) > usize::MAX {
                Err(NumberError::TooLarge)
            } else {
                Ok(v * 10 + digit_value(t.last()))
            },
        }
    }
}

/// The number that `t` writes: decimal digits, after at most one `+`.
pub open spec fn read_number(t: Seq<char>) -> Result<nat, NumberError> {
    if t.len() == 0 {
        Err(NumberError::Empty)
    } else if t.len() == 1 && t[0] == '+' {
        Err(NumberError::InvalidDigit)
    } else if t[0] == '+' {
        read_digits(t.skip(1))
    } else {
        read_digits(t)
    }
}

/// Reads a number.
pub fn parse_number(text: &[char]) -> (number: Result<usize, NumberError>)
    ensures
        match number {
            Ok(n) => read_number(text@) == Ok::<nat, NumberError>(n as nat),
            Err(e) => read_number(text@) == Err::<nat, NumberError>(e),
        },
{
    if text.len() == 0 {
        return Err(NumberError::Empty);
    }
    if text.len() == 1 && text[0] == '+' {
        return Err(NumberError::InvalidDigit);
    }
    let from: usize = if text[0] == '+' {
        1
    } else {
        0
    };
    let ghost digits = text@.skip(from as int);
    assert(from == 0 ==> digits == text@);
    assert(digits.take(0) == Seq::<char>::empty());
    let mut value: usize = 0;
    for i in from..text.len()
        invariant
            from <= text@.len(),
            digits == text@.skip(from as int),
            read_number(text@) == read_digits(digits),
            read_digits(digits.take(i - from)) == Ok::<nat, NumberError>(value as nat),
    {
        let c = text[i];
        let ghost part = digits.take(i + 1 - from);
        proof {
            assert(part.drop_last() == digits.take(i - from));
            assert(part.last() == c);
        }
        if !('0' <= c && c <= '9') {
            proof {
                lemma_read_digits_error(digits, i + 1 - from);
            }
            return Err(NumberError::InvalidDigit);
        }
        let d: usize = c as usize - 48;
        if value > (usize::MAX - d) / 10 {
            proof {
                assert(value * 10 + d > usize::MAX);
                lemma_read_digits_error(digits, i + 1 - from);
            }
            return Err(NumberError::TooLarge);
        }
        value = value * 10 + d;
    }
    assert(digits.take(text@.len() - from) == digits);
    Ok(value)
}

/// An error in a front part of the digits is the error of the whole.
proof fn lemma_read_digits_error(t: Seq<char>, n: int)
    requires
        0 <= n <= t.len(),
        read_digits(t.take(n)) is Err,
    ensures
        read_digits(t) == read_digits(t.take(n)),
    decreases t.len() - n,
{
    if n < t.len() {
        assert(t.take(n + 1).drop_last() == t.take(n));
        lemma_read_digits_error(t, n + 1);
    } else {
        assert(t.take(n) == t);
    }
}

/// Digits whose value fits are read as that value.
pub proof fn lemma_read_digits_value(t: Seq<char>)
    requires
        all_digits(t),
        digits_value(t) <= usize::MAX,
    ensures
        read_digits(t) == Ok::<nat, NumberError>(digits_value(t)),
    decreases t.len(),
{
    if t.len() > 0 {
        assert forall|i: int| 0 <= i < t.drop_last().len() implies is_digit(
            #[trigger] t.drop_last()[i],
        ) by {
            assert(is_digit(t[i]));
        }
        assert(is_digit(t[t.len() - 1]));
        lemma_read_digits_value(t.drop_last());
    }
}

/// A number written in decimal is read back as itself.
pub proof fn law_number_round_trip(n: usize)
    ensures
        read_number(decimal(n as nat)) == Ok::<nat, NumberError>(n as nat),
{
    lemma_decimal_value(n as nat);
    lemma_read_digits_value(decimal(n as nat));
    assert(is_digit(decimal(n as nat)[0]));
}

/// The index of the first white space in `t`, or the length.
pub open spec fn first_space(t: Seq<char>) -> int
    decreases t.len(),
{
    if t.len() == 0 || is_space(t[0]) {
        0
    } else {
        1 + first_space(t.skip(1))
    }
}

/// The parts of `t` between white space.
pub open spec fn words(t: Seq<char>) -> Seq<Seq<char>>
    decreases t.len(),
{
    if t.len() == 0 {
        Seq::empty()
    } else if is_space(t[0]) {
        words(t.skip(1))
    } else {
        let end = first_space(t);
        if 0 < end <= t.len() {
            seq![t.take(end)] + words(t.skip(end))
        } else {
            Seq::empty()
        }
    }
}

proof fn lemma_first_space(t: Seq<char>, i: int)
    requires
        0 <= i <= t.len(),
        forall|j: int| 0 <= j < i ==> !is_space(#[trigger] t[j]),
        i < t.len() ==> is_space(t[i]),
    ensures
        first_space(t) == i,
    decreases i,
{
    if i > 0 {
        assert(!is_space(t[0]));
        assert forall|j: int| 0 <= j < i - 1 implies !is_space(#[trigger] t.skip(1)[j]) by {
            assert(!is_space(t[j + 1]));
        }
        lemma_first_space(t.skip(1), i - 1);
    }
}

/// Splits a text at white space.
pub fn split_words(text: &[char]) -> (out: Vec<Vec<char>>)
    ensures
        rows(out@) == words(text@),
{
    let mut out: Vec<Vec<char>> = Vec::new();
    let mut from: usize = 0;
    assert(text@.skip(0) == text@);
    assert(rows(out@) + words(text@) == words(text@));
    while from < text.len()
        invariant
            from <= text@.len(),
            words(text@) == rows(out@) + words(text@.skip(from as int)),
        decreases text@.len() - from,
    {
        let ghost rest = text@.skip(from as int);
        if char_is_space(text[from]) {
            assert(rest.skip(1) == text@.skip(from + 1));
            from += 1;
        } else {
            let mut to: usize = from;
            while to < text.len() && !char_is_space(text[to])
                invariant
                    from <= to <= text@.len(),
                    forall|j: int| from <= j < to ==> !is_space(#[trigger] text@[j]),
                decreases text@.len() - to,
            {
                to += 1;
            }
            let ghost before = rows(out@);
            out.push(sub_chars(text, from, to));
            proof {
                assert forall|j: int| 0 <= j < to - from implies !is_space(
                    #[trigger] rest[j],
                ) by {
                    assert(!is_space(text@[j + from]));
                }
                lemma_first_space(rest, to - from);
                assert(!is_space(text@[from as int]));
                assert(rest.take(to - from) == text@.subrange(from as int, to as int));
                assert(rest.skip(to - from) == text@.skip(to as int));
                assert(rows(out@) == before.push(rest.take(to - from)));
                assert(before.push(rest.take(to - from)) + words(text@.skip(to as int)) == before
                    + (seq![rest.take(to - from)] + words(rest.skip(to - from))));
            }
            from = to;
        }
    }
    assert(text@.skip(from as int).len() == 0);
    assert(rows(out@) + words(text@.skip(from as int)) == rows(out@));
    out
}

/// A number in decimal, with a minus sign where it is negative.
pub open spec fn signed_decimal(n: int) -> Seq<char> {
    if n < 0 {
        "-"@ + decimal((-n) as nat)
    } else {
        decimal(n as nat)
    }
}

/// Appends a number in decimal, with a minus sign where it is negative.
pub fn push_signed_decimal(out: &mut String, n: i32)
    ensures
        final(out)@ == old(out)@ + signed_decimal(n as int),
{
    let wide: i64 = n as i64;
    if wide < 0 {
        out.append("-");
        let size: u128 = (-wide) as u128;
        push_decimal(out, size);
        assert(old(out)@ + ("-"@ + decimal(size as nat)) == (old(out)@ + "-"@) + decimal(
            size as nat,
        ));
    } else {
        push_decimal(out, wide as u128);
    }
}

/// The parts, with `separator` between each two.
pub open spec fn join(parts: Seq<Seq<char>>, separator: Seq<char>) -> Seq<char>
    decreases parts.len(),
{
    if parts.len() == 0 {
        Seq::empty()
    } else if parts.len() == 1 {
        parts[0]
    } else {
        join(parts.drop_last(), separator) + separator + parts.last()
    }
}

/// The parts, with `separator` between each two.
pub fn join_texts(parts: &[String], separator: &str) -> (joined: String)
    ensures
        joined@ == join(texts(parts@), separator@),
{
    let mut joined = String::new();
    assert(texts(parts@).take(0) == Seq::<Seq<char>>::empty());
    for i in 0..parts.len()
        invariant
            joined@ == join(texts(parts@).take(i as int), separator@),
    {
        proof {
            let done = texts(parts@).take(i + 1);
            assert(done.drop_last() == texts(parts@).take(i as int));
            assert(done.last() == parts@[i as int]@);
            assert(i == 0 ==> done[0] == parts@[0]@);
        }
        if i > 0 {
            joined.append(separator);
        }
        joined.append(parts[i].as_str());
        assert(i == 0 ==> joined@ == parts@[0]@);
    }
    assert(texts(parts@).take(parts@.len() as int) == texts(parts@));
    joined
}

/// The parts between the occurrences of `c`; a text without any is one part.
pub open spec fn split_at_char(t: Seq<char>, c: char) -> Seq<Seq<char>>
    decreases t.len(),
{
    let at = first_of(t, c);
    if 0 <= at < t.len() {
        seq![t.take(at)] + split_at_char(t.skip(at + 1), c)
    } else {
        seq![t]
    }
}

/// The parts between the occurrences of `c`.
pub fn split_on(text: &[char], c: char) -> (out: Vec<Vec<char>>)
    ensures
        rows(out@) == split_at_char(text@, c),
{
    let mut out: Vec<Vec<char>> = Vec::new();
    let mut from: usize = 0;
    assert(text@.skip(0) == text@);
    assert(rows(out@) + split_at_char(text@, c) == split_at_char(text@, c));
    loop
        invariant
            from <= text@.len(),
            split_at_char(text@, c) == rows(out@) + split_at_char(text@.skip(from as int), c),
        decreases text@.len() - from,
    {
        let ghost rest = text@.skip(from as int);
        let ghost before = rows(out@);
        let at: usize = find_char(text, from, c);
        let part = sub_chars(text, from, at);
        assert(part@ == rest.take(at - from));
        out.push(part);
        assert(rows(out@) == before.push(part@));
        if at == text.len() {
            assert(part@ == rest);
            assert(before + seq![rest] == rows(out@));
            return out;
        }
        proof {
            assert(rest.skip(at - from + 1) == text@.skip(at + 1));
            assert(before + (seq![part@] + split_at_char(text@.skip(at + 1), c)) == before.push(
                part@,
            ) + split_at_char(text@.skip(at + 1), c));
        }
        from = at + 1;
    }
}

} // verus!
