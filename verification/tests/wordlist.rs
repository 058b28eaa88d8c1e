use diceware::wordlist::{parse_chars, parse_line, read_diceware_list, LineError, ParseError};
use std::collections::HashMap;

fn entry(code: usize, word: &str) -> Result<(usize, String), LineError> {
    Ok((code, word.to_string()))
}

#[test]
fn line_gives_code_and_word() {
    assert_eq!(parse_line("11111 apple"), entry(11111, "apple"));
    assert_eq!(parse_line("66666 zz"), entry(66666, "zz"));
    assert_eq!(parse_line("1 a"), entry(1, "a"));
}

#[test]
fn line_loses_white_space_at_its_end() {
    assert_eq!(parse_line("12345 word\r"), entry(12345, "word"));
    assert_eq!(parse_line("12345 word  \t "), entry(12345, "word"));
    assert_eq!(parse_line("12345 word\u{a0}"), entry(12345, "word"));
    assert_eq!(parse_line("12345 word\u{3000}\u{2028}"), entry(12345, "word"));
}

#[test]
fn word_is_all_that_follows_the_first_space() {
    assert_eq!(parse_line("12345 two words"), entry(12345, "two words"));
    assert_eq!(parse_line("12345 two  words"), entry(12345, "two  words"));
    assert_eq!(parse_line("12345 7"), entry(12345, "7"));
    assert_eq!(parse_line("12345 6 7"), entry(12345, "6 7"));
}

#[test]
fn word_loses_white_space_at_its_start() {
    assert_eq!(parse_line("12345  x"), entry(12345, "x"));
    assert_eq!(parse_line("12345 \tx"), entry(12345, "x"));
    assert_eq!(parse_line("12345 \u{a0} x y \t"), entry(12345, "x y"));
    assert_eq!(parse_line("12345    "), Err(LineError::MissingWord));
}

#[test]
fn word_may_hold_any_characters() {
    assert_eq!(parse_line("21345 größe"), entry(21345, "größe"));
    assert_eq!(parse_line("21346 日本語"), entry(21346, "日本語"));
    assert_eq!(parse_line("21347 a\u{200b}"), entry(21347, "a\u{200b}"));
}

#[test]
fn code_may_carry_a_plus_sign_and_zeros() {
    assert_eq!(parse_line("+12 w"), entry(12, "w"));
    assert_eq!(parse_line("00012 w"), entry(12, "w"));
    assert_eq!(parse_line("0 w"), entry(0, "w"));
    assert_eq!(parse_line("+0 w"), entry(0, "w"));
}

#[test]
fn largest_code_is_read() {
    let line = format!("{} w", usize::MAX);
    assert_eq!(parse_line(&line), entry(usize::MAX, "w"));
}

#[test]
fn line_without_space_is_rejected() {
    assert_eq!(parse_line("12345apple"), Err(LineError::MissingSpace));
    assert_eq!(parse_line("12345"), Err(LineError::MissingSpace));
    assert_eq!(parse_line("12345\tapple"), Err(LineError::MissingSpace));
    assert_eq!(parse_line("\r"), Err(LineError::MissingSpace));
    assert_eq!(parse_line(""), Err(LineError::MissingSpace));
}

#[test]
fn line_with_bad_code_is_rejected() {
    assert_eq!(parse_line("abc word"), Err(LineError::BadCode));
    assert_eq!(parse_line(" 12345 word"), Err(LineError::BadCode));
    assert_eq!(parse_line("\t12345 word"), Err(LineError::BadCode));
    assert_eq!(parse_line("\t 12345 word"), Err(LineError::BadCode));
    assert_eq!(parse_line("12a45 word"), Err(LineError::BadCode));
    assert_eq!(parse_line("-5 word"), Err(LineError::BadCode));
    assert_eq!(parse_line("+ word"), Err(LineError::BadCode));
    assert_eq!(parse_line("++1 word"), Err(LineError::BadCode));
    assert_eq!(parse_line("1+1 word"), Err(LineError::BadCode));
    assert_eq!(parse_line("12345\t word"), Err(LineError::BadCode));
    assert_eq!(parse_line("١٢٣ word"), Err(LineError::BadCode));
    assert_eq!(parse_line("   "), Err(LineError::BadCode));
}

#[test]
fn code_beyond_the_machine_word_is_rejected() {
    assert_eq!(
        parse_line("340282366920938463463374607431768211456 word"),
        Err(LineError::BadCode)
    );
    let line = format!("{}0 w", usize::MAX);
    assert_eq!(parse_line(&line), Err(LineError::BadCode));
}

#[test]
fn line_without_word_is_rejected() {
    assert_eq!(parse_line("12345 "), Err(LineError::MissingWord));
    assert_eq!(parse_line("12345  \t\r"), Err(LineError::MissingWord));
    assert_eq!(parse_line("12345 \u{a0}"), Err(LineError::MissingWord));
}

#[test]
fn bad_code_is_reported_before_missing_word() {
    assert_eq!(parse_line("x "), Err(LineError::BadCode));
}

#[test]
fn characters_are_read_like_text() {
    let line: Vec<char> = "31415 pi\n".chars().collect();
    assert_eq!(parse_chars(&line), entry(31415, "pi"));
    assert_eq!(parse_chars(&[]), Err(LineError::MissingSpace));
}

#[test]
fn list_maps_each_code_to_its_word() {
    let list = read_diceware_list("11111 apple\n22222 banana\n").unwrap();
    let mut expected: HashMap<usize, String> = HashMap::new();
    expected.insert(11111, "apple".to_string());
    expected.insert(22222, "banana".to_string());
    assert_eq!(list, expected);
}

#[test]
fn list_needs_no_final_line_end() {
    let list = read_diceware_list("11111 apple\n22222 banana").unwrap();
    assert_eq!(list.len(), 2);
    assert_eq!(list.get(&22222).map(String::as_str), Some("banana"));
}

#[test]
fn list_passes_over_empty_lines() {
    let list = read_diceware_list("\n\n11111 apple\n\n\n22222 banana\n\n").unwrap();
    assert_eq!(list.len(), 2);
    assert_eq!(list.get(&11111).map(String::as_str), Some("apple"));
    assert_eq!(list.get(&22222).map(String::as_str), Some("banana"));
}

#[test]
fn list_of_empty_text_is_empty() {
    assert_eq!(read_diceware_list(""), Ok(HashMap::new()));
    assert_eq!(read_diceware_list("\n\n\n"), Ok(HashMap::new()));
}

#[test]
fn list_trims_carriage_returns() {
    let list = read_diceware_list("11111 apple\r\n22222 banana\r\n").unwrap();
    assert_eq!(list.get(&11111).map(String::as_str), Some("apple"));
    assert_eq!(list.get(&22222).map(String::as_str), Some("banana"));
}

#[test]
fn later_line_replaces_earlier_word() {
    let list = read_diceware_list("11111 apple\n22222 banana\n11111 cherry\n").unwrap();
    assert_eq!(list.len(), 2);
    assert_eq!(list.get(&11111).map(String::as_str), Some("cherry"));
}

#[test]
fn malformed_line_fails_the_whole_list() {
    assert_eq!(
        read_diceware_list("11111 apple\n22222banana\n33333 cherry\n"),
        Err(ParseError { line: 2, kind: LineError::MissingSpace })
    );
}

#[test]
fn error_names_the_first_bad_line() {
    assert_eq!(
        read_diceware_list("\n11111 apple\n\nx y\n33333\n"),
        Err(ParseError { line: 4, kind: LineError::BadCode })
    );
    assert_eq!(
        read_diceware_list("oops"),
        Err(ParseError { line: 1, kind: LineError::MissingSpace })
    );
    assert_eq!(
        read_diceware_list("1 a\n2 b\n3 \n"),
        Err(ParseError { line: 3, kind: LineError::MissingWord })
    );
}

#[test]
fn error_in_the_last_line_is_found() {
    assert_eq!(
        read_diceware_list("1 a\n2 b\n\n\n5"),
        Err(ParseError { line: 5, kind: LineError::MissingSpace })
    );
    assert_eq!(
        read_diceware_list("1 a\n2 b\n\n\nx 5\n"),
        Err(ParseError { line: 5, kind: LineError::BadCode })
    );
}

#[test]
fn line_of_white_space_alone_is_no_entry() {
    assert_eq!(
        read_diceware_list("11111 apple\r\n\r\n22222 banana\r\n"),
        Err(ParseError { line: 2, kind: LineError::MissingSpace })
    );
}

#[test]
fn long_list_is_read_whole() {
    let mut body = String::new();
    let mut expected: HashMap<usize, String> = HashMap::new();
    for code in 11111..21111usize {
        let word = format!("w{}ü", code);
        body.push_str(&format!("{} {}\n", code, word));
        expected.insert(code, word);
    }
    assert_eq!(read_diceware_list(&body), Ok(expected));
}
