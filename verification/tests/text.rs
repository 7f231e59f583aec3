use rizzy::text::{
    append_chars, chars_of, digit_of, has_char, has_digits, is_ascii_digit, parse_digits,
    string_of,
};

fn chars(text: &str) -> Vec<char> {
    text.chars().collect()
}

#[test]
fn digits_are_the_ten_ascii_digits() {
    for c in "0123456789".chars() {
        assert!(is_ascii_digit(c));
    }
    for c in ['/', ':', 'a', ' ', '٣', '３'] {
        assert!(!is_ascii_digit(c));
    }
    assert_eq!(digit_of('0'), 0);
    assert_eq!(digit_of('7'), 7);
    assert_eq!(digit_of('9'), 9);
}

#[test]
fn digits_are_looked_for_in_bounds() {
    let text = chars("ab123c");
    assert!(has_digits(&text, 2, 3));
    assert!(has_digits(&text, 2, 0));
    assert!(has_digits(&text, 6, 0));
    assert!(!has_digits(&text, 2, 4));
    assert!(!has_digits(&text, 1, 2));
    assert!(!has_digits(&text, 5, 2));
    assert!(!has_digits(&text, 7, 0));
    assert!(!has_digits(&text, usize::MAX, 2));
    assert!(has_char(&text, 5, 'c'));
    assert!(!has_char(&text, 5, 'd'));
    assert!(!has_char(&text, 6, 'c'));
}

#[test]
fn digits_are_read_as_decimal_numbers() {
    let text = chars("x0042y1607965978437104000");
    assert_eq!(parse_digits(&text, 1, 5), 42);
    assert_eq!(parse_digits(&text, 1, 1), 0);
    assert_eq!(parse_digits(&text, 4, 5), 2);
    assert_eq!(parse_digits(&text, 6, 25), 1607965978437104000);
    assert_eq!(parse_digits(&chars("9999999999999999999"), 0, 19), 9999999999999999999);
}

#[test]
fn strings_and_characters_convert_both_ways() {
    assert_eq!(chars_of("héllo"), vec!['h', 'é', 'l', 'l', 'o']);
    assert_eq!(chars_of(""), Vec::<char>::new());
    assert_eq!(string_of(&['h', 'é', 'l', 'l', 'o']), "héllo");
    assert_eq!(string_of(&[]), "");
    let mut out = vec!['a'];
    append_chars(&mut out, &['b', 'c']);
    append_chars(&mut out, &[]);
    assert_eq!(out, vec!['a', 'b', 'c']);
}
