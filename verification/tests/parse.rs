use citation_graph::parse::{parse_number, split_words};
use citation_graph::parse_line;

// What the standard library makes of a line: two whitespace-separated
// tokens, each of which it parses as a `u64`.
fn by_std(line: &str) -> Option<(u64, u64)> {
    if line.starts_with('#') || line.trim().is_empty() {
        return None;
    }
    let parts: Vec<&str> = line.split_whitespace().collect();
    if parts.len() == 2 {
        if let (Ok(from), Ok(to)) = (parts[0].parse::<u64>(), parts[1].parse::<u64>()) {
            return Some((from, to));
        }
    }
    None
}

fn word(text: &str) -> Vec<char> {
    text.chars().collect()
}

#[test]
fn line_with_two_numbers_is_an_edge() {
    assert_eq!(parse_line("3858241 956203"), Some((3858241, 956203)));
    assert_eq!(parse_line("1\t2"), Some((1, 2)));
    assert_eq!(parse_line("  7   8  "), Some((7, 8)));
    assert_eq!(parse_line("7 8\r"), Some((7, 8)));
    assert_eq!(parse_line("0 0"), Some((0, 0)));
}

#[test]
fn comment_line_is_no_edge() {
    assert_eq!(parse_line("# Directed graph (each unordered pair of nodes is saved once)"), None);
    assert_eq!(parse_line("#"), None);
    assert_eq!(parse_line("#1 2"), None);
    assert_eq!(parse_line("# 1 2"), None);
    assert_eq!(parse_line("#1"), None);
}

#[test]
fn blank_line_is_no_edge() {
    assert_eq!(parse_line(""), None);
    assert_eq!(parse_line(" "), None);
    assert_eq!(parse_line("\t \r"), None);
    assert_eq!(parse_line("\u{3000}\u{a0}"), None);
}

#[test]
fn line_with_other_token_count_is_no_edge() {
    assert_eq!(parse_line("1"), None);
    assert_eq!(parse_line("1 2 3"), None);
    assert_eq!(parse_line("1 2 #"), None);
    assert_eq!(parse_line("1,2"), None);
}

#[test]
fn line_with_a_token_that_is_no_number_is_no_edge() {
    assert_eq!(parse_line("a 2"), None);
    assert_eq!(parse_line("1 b"), None);
    assert_eq!(parse_line("1 -2"), None);
    assert_eq!(parse_line("1.0 2"), None);
    assert_eq!(parse_line("1 0x2"), None);
    assert_eq!(parse_line("+ 2"), None);
    assert_eq!(parse_line("1 ++2"), None);
    assert_eq!(parse_line("1 2+"), None);
    assert_eq!(parse_line("\u{661} 2"), None);
}

#[test]
fn numbers_up_to_the_largest_are_read() {
    assert_eq!(parse_line("18446744073709551615 0"), Some((u64::MAX, 0)));
    assert_eq!(parse_line("0 18446744073709551615"), Some((0, u64::MAX)));
    assert_eq!(parse_line("18446744073709551616 0"), None);
    assert_eq!(parse_line("0 18446744073709551620"), None);
    assert_eq!(parse_line("0 99999999999999999999999999"), None);
    assert_eq!(parse_line("000000000000000000000000000018446744073709551615 +0012"), Some((u64::MAX, 12)));
}

#[test]
fn plus_sign_is_accepted_before_the_digits() {
    assert_eq!(parse_line("+1 +2"), Some((1, 2)));
    assert_eq!(parse_number(&word("+18446744073709551615")), Some(u64::MAX));
    assert_eq!(parse_number(&word("+")), None);
    assert_eq!(parse_number(&word("-1")), None);
    assert_eq!(parse_number(&word("")), None);
    assert_eq!(parse_number(&word("12a")), None);
    assert_eq!(parse_number(&word("1234567890")), Some(1234567890));
}

#[test]
fn words_are_the_runs_between_whitespace() {
    assert_eq!(split_words(" ab  c\td\n"), vec![word("ab"), word("c"), word("d")]);
    assert_eq!(split_words("abc"), vec![word("abc")]);
    assert_eq!(split_words("a\u{2003}b"), vec![word("a"), word("b")]);
    assert!(split_words("").is_empty());
    assert!(split_words(" \t ").is_empty());
}

#[test]
fn every_character_separates_as_the_standard_library_has_it() {
    let mut line = String::new();
    for code in 0..=0x10ffffu32 {
        if let Some(c) = char::from_u32(code) {
            line.clear();
            line.push('1');
            line.push(c);
            line.push('2');
            assert_eq!(parse_line(&line).is_some(), c.is_whitespace(), "code point {:x}", code);
            assert_eq!(parse_line(&line), by_std(&line), "code point {:x}", code);
        }
    }
}

#[test]
fn lines_read_as_the_standard_library_reads_them() {
    let lines = [
        "", " ", "#", "# comment", "1 2", " 1 2", "1 2 ", "1  2", "1\t2", "1 2 3", "12", "+1 2",
        "1 +2", "-1 2", "1 -2", "+ 1", "1 +", "a b", "1 b", "1.5 2", "1e3 2", "0x10 2", "１ 2",
        "1\u{a0}2", "1\u{2028}2", "1\u{200b}2", "1\u{feff}2", "18446744073709551615 1",
        "18446744073709551616 1", "1 18446744073709551616", "00 01", "+0 +0", "++1 2", "1 2#",
        " # 1 2", "#1 2", "1 # 2", "4294967296 4294967295", "1 2\r", "\u{85}1 2\u{85}",
    ];
    for line in lines {
        assert_eq!(parse_line(line), by_std(line), "line {:?}", line);
    }
}
