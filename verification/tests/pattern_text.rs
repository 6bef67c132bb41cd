use sparse_life::format::{is_header, is_header_line, parse_line, parse_number, parse_record};
use sparse_life::simulation::simulate;

fn number_of(text: &str) -> Option<i64> {
    parse_number(text.as_bytes())
}

#[test]
fn header_is_recognized() {
    assert!(is_header(b"#Life 1.06"));
    assert!(is_header_line("#Life 1.06"));
}

#[test]
fn header_line_may_have_white_space_around() {
    assert!(is_header_line("  #Life 1.06\r\n"));
    assert!(is_header_line("\t#Life 1.06 "));
    assert!(is_header_line("\u{a0}#Life 1.06\u{2003}"));
    assert!(!is_header(b" #Life 1.06"));
    assert!(!is_header(b"#Life 1.06\n"));
}

#[test]
fn other_headers_are_refused() {
    assert!(!is_header_line(""));
    assert!(!is_header_line("#Life 1.05"));
    assert!(!is_header_line("#Life  1.06"));
    assert!(!is_header_line("#life 1.06"));
    assert!(!is_header_line("#Life 1.06x"));
    assert!(!is_header_line("x#Life 1.06"));
    assert!(!is_header_line("#Life 1.0"));
    assert!(!is_header_line("0 0"));
    assert!(!is_header(b""));
    assert!(!is_header(b"#Life 1.07"));
    assert!(!is_header(b"#Life 1.060"));
}

#[test]
fn record_with_two_numbers() {
    assert_eq!(parse_record(b"1 2"), Some((1, 2)));
    assert_eq!(parse_record(b"-3 +4"), Some((-3, 4)));
    assert_eq!(parse_record(b"0 0"), Some((0, 0)));
    assert_eq!(parse_record(b"007 -0"), Some((7, 0)));
    assert_eq!(
        parse_record(b"-9223372036854775808 9223372036854775807"),
        Some((i64::MIN, i64::MAX))
    );
}

#[test]
fn record_uses_the_last_two_pieces() {
    assert_eq!(parse_record(b"9 1 2"), Some((1, 2)));
    assert_eq!(parse_record(b"x y 1 2"), Some((1, 2)));
    assert_eq!(parse_record(b" 1 2"), Some((1, 2)));
}

#[test]
fn record_that_is_refused() {
    assert_eq!(parse_record(b""), None);
    assert_eq!(parse_record(b"1"), None);
    assert_eq!(parse_record(b"12"), None);
    assert_eq!(parse_record(b"1  2"), None);
    assert_eq!(parse_record(b"1 2 "), None);
    assert_eq!(parse_record(b"1,2"), None);
    assert_eq!(parse_record(b"1\t2"), None);
    assert_eq!(parse_record(b"a 2"), None);
    assert_eq!(parse_record(b"1 b"), None);
    assert_eq!(parse_record(b"1.0 2"), None);
    assert_eq!(parse_record(b"1 2.5"), None);
    assert_eq!(parse_record(b"- 2"), None);
    assert_eq!(parse_record(b"1 +"), None);
    assert_eq!(parse_record(b"9223372036854775808 0"), None);
    assert_eq!(parse_record(b"0 -9223372036854775809"), None);
    assert_eq!(parse_record(b" "), None);
}

#[test]
fn line_is_trimmed_before_it_is_read() {
    assert_eq!(parse_line("1 2"), Some((1, 2)));
    assert_eq!(parse_line("  1 2  "), Some((1, 2)));
    assert_eq!(parse_line("-5 17\r\n"), Some((-5, 17)));
    assert_eq!(parse_line("\t3 4\u{3000}"), Some((3, 4)));
    assert_eq!(parse_line(""), None);
    assert_eq!(parse_line("   "), None);
    assert_eq!(parse_line("7"), None);
    assert_eq!(parse_line("1\u{a0}2"), None);
}

#[test]
fn number_with_and_without_sign() {
    assert_eq!(number_of("0"), Some(0));
    assert_eq!(number_of("42"), Some(42));
    assert_eq!(number_of("+42"), Some(42));
    assert_eq!(number_of("-42"), Some(-42));
    assert_eq!(number_of("-0"), Some(0));
    assert_eq!(number_of("0000000000000000000000012"), Some(12));
    assert_eq!(number_of("9223372036854775807"), Some(i64::MAX));
    assert_eq!(number_of("-9223372036854775808"), Some(i64::MIN));
}

#[test]
fn number_that_is_refused() {
    assert_eq!(number_of(""), None);
    assert_eq!(number_of("+"), None);
    assert_eq!(number_of("-"), None);
    assert_eq!(number_of("--1"), None);
    assert_eq!(number_of("+-1"), None);
    assert_eq!(number_of("1-"), None);
    assert_eq!(number_of("1_000"), None);
    assert_eq!(number_of("0x10"), None);
    assert_eq!(number_of(" 1"), None);
    assert_eq!(number_of("1 "), None);
    assert_eq!(number_of("١"), None);
    assert_eq!(number_of("9223372036854775808"), None);
    assert_eq!(number_of("-9223372036854775809"), None);
    assert_eq!(number_of("99999999999999999999999999999999999999999"), None);
    assert_eq!(number_of("-99999999999999999999999999999999999999999"), None);
    assert_eq!(number_of("92233720368547758070"), None);
    assert_eq!(number_of("9223372036854775808x"), None);
}

#[test]
fn number_agrees_with_std() {
    let samples = [
        "", "+", "-", "0", "-0", "+0", "1", "-1", "+1", "12345", "-12345", "00", "+-3", "3+", "a",
        "1a", "a1", " 1", "1 ", "9223372036854775806", "9223372036854775807",
        "9223372036854775808", "-9223372036854775807", "-9223372036854775808",
        "-9223372036854775809", "18446744073709551616", "000000000000000000000000000001", "1e3",
        "١٢", "½",
    ];
    for text in samples {
        assert_eq!(number_of(text), text.parse::<i64>().ok(), "{:?}", text);
    }
    for value in (-2000..2000).chain(i64::MAX - 2000..=i64::MAX).chain(i64::MIN..i64::MIN + 2000) {
        let text = format!("{}", value);
        assert_eq!(number_of(&text), Some(value));
    }
}

#[test]
fn simulate_empty_pattern() {
    assert_eq!(simulate(&vec![], 10), vec![]);
    assert_eq!(simulate(&vec![], 0), vec![]);
}

#[test]
fn simulate_without_a_generation_lists_the_seeds() {
    assert_eq!(simulate(&vec![(3, 1), (0, 0), (3, 1), (-2, 5)], 0), vec![(-2, 5), (0, 0), (3, 1)]);
}

#[test]
fn simulate_blinker() {
    let seeds = vec![(0, 0), (1, 0), (2, 0)];
    assert_eq!(simulate(&seeds, 1), vec![(1, -1), (1, 0), (1, 1)]);
    assert_eq!(simulate(&seeds, 10), vec![(0, 0), (1, 0), (2, 0)]);
}

#[test]
fn simulate_glider_for_ten_generations() {
    let seeds = vec![(0, 1), (1, 2), (2, 0), (2, 1), (2, 2)];
    assert_eq!(simulate(&seeds, 10), vec![(3, 4), (4, 2), (4, 4), (5, 3), (5, 4)]);
}

#[test]
fn simulate_counts_a_seed_named_twice_once() {
    let once = vec![(0, 0), (1, 0), (0, 1), (1, 1)];
    let twice = vec![(0, 0), (1, 0), (0, 0), (0, 1), (1, 1), (1, 1)];
    assert_eq!(simulate(&twice, 3), simulate(&once, 3));
    assert_eq!(simulate(&once, 3), vec![(0, 0), (0, 1), (1, 0), (1, 1)]);
}

#[test]
fn simulate_lone_cells_die() {
    assert_eq!(simulate(&vec![(5, 5)], 1), vec![]);
    assert_eq!(simulate(&vec![(5, 5), (6, 5)], 1), vec![]);
}
