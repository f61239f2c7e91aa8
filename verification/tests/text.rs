use fmtguard::text::{
    chars_of, decimal_text, has_prefix, has_suffix, join_texts, parse_number, push_decimal,
    push_signed_decimal, split_lines, split_on, split_pieces, split_words, string_of, trimmed,
    NumberError,
};

fn texts(parts: Vec<Vec<char>>) -> Vec<String> {
    parts.into_iter().map(|part| part.into_iter().collect()).collect()
}

#[test]
fn texts_split_as_std_splits_them() {
    for text in ["", "a", "a\n", "a\r\nb\n\nc", "\r\n", "a\rb\n", "é\u{85}x\n \t", " a  b\u{3000}c ", ",a,,b"] {
        let chars = chars_of(text);
        let wanted: Vec<&str> = text.lines().collect();
        assert_eq!(texts(split_lines(&chars)), wanted);
        let wanted: Vec<&str> = text.split_inclusive('\n').collect();
        assert_eq!(texts(split_pieces(&chars)), wanted);
        let wanted: Vec<&str> = text.split_whitespace().collect();
        assert_eq!(texts(split_words(&chars)), wanted);
        let wanted: Vec<&str> = text.split(',').collect();
        assert_eq!(texts(split_on(&chars, ',')), wanted);
        let core = trimmed(&chars);
        assert_eq!(string_of(&core, 0, core.len()), text.trim());
        assert_eq!(has_prefix(&chars, "a"), text.starts_with("a"));
        assert_eq!(has_suffix(&chars, "c "), text.ends_with("c "));
    }
}

#[test]
fn numbers_are_read_as_std_reads_them() {
    for text in ["", "+", "-", "0", "+12", "007", "-1", "1x", "x1", "18446744073709551615"] {
        let wanted = text.parse::<usize>().ok();
        assert_eq!(parse_number(&chars_of(text)).ok(), wanted, "{text}");
    }
    assert_eq!(parse_number(&chars_of("")), Err(NumberError::Empty));
    assert_eq!(parse_number(&chars_of("+")), Err(NumberError::InvalidDigit));
    assert_eq!(
        parse_number(&chars_of("99999999999999999999999")),
        Err(NumberError::TooLarge)
    );
}

#[test]
fn numbers_come_back() {
    for n in [0, 1, 9, 10, 12345, usize::MAX] {
        assert_eq!(decimal_text(n), n.to_string());
        assert_eq!(parse_number(&chars_of(&decimal_text(n))), Ok(n));
    }
    let mut out = String::new();
    push_decimal(&mut out, u128::MAX);
    push_signed_decimal(&mut out, i32::MIN);
    push_signed_decimal(&mut out, 7);
    assert_eq!(out, format!("{}{}7", u128::MAX, i32::MIN));
}

#[test]
fn texts_are_joined() {
    let parts = ["a".to_string(), String::new(), "b".to_string()];
    assert_eq!(join_texts(&parts, ", "), "a, , b");
    assert_eq!(join_texts(&[], ", "), "");
}
