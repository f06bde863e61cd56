use gorilla::formatting::{tokenize_format_string, ParseError, Token};
use gorilla::generator::token_iterator;

fn collect_all(tokens: &Vec<Token>) -> Vec<String> {
    let mut it = token_iterator(tokens);
    let mut out: Vec<String> = vec![];
    while let Some(w) = it.next_word() {
        out.push(w);
    }
    out
}

#[test]
fn plain_pattern_single_output() {
    let tokens = tokenize_format_string("abc").unwrap();
    let it = token_iterator(&tokens);
    assert_eq!(it.calculate_total(), 1);
    let words = collect_all(&tokens);
    assert_eq!(words, vec!["abc".to_string()]);
}

#[test]
fn empty_pattern_single_empty_output() {
    let tokens = tokenize_format_string("").unwrap();
    let it = token_iterator(&tokens);
    assert_eq!(it.calculate_total(), 1);
    assert_eq!(it.calculate_size(), 0);
    let words = collect_all(&tokens);
    assert_eq!(words, vec!["".to_string()]);
}

#[test]
fn digit_lower_pattern_total() {
    let tokens = tokenize_format_string("a%db%l").unwrap();
    let it = token_iterator(&tokens);
    assert_eq!(it.calculate_total(), 260);
}

#[test]
fn digit_lower_pattern_order() {
    let tokens = tokenize_format_string("a%db%l").unwrap();
    let words = collect_all(&tokens);
    assert_eq!(words.len(), 260);
    for w in &words {
        assert_eq!(w.chars().count(), 4);
    }
    let mut distinct = words.clone();
    distinct.sort();
    distinct.dedup();
    assert_eq!(distinct.len(), 260);
    assert_eq!(words[0], "a0ba");
    assert_eq!(words[1], "a0bb");
    assert_eq!(words[26], "a1ba");
}

#[test]
fn digit_lower_pattern_size() {
    let tokens = tokenize_format_string("a%db%l").unwrap();
    let it = token_iterator(&tokens);
    assert_eq!(it.calculate_size(), 260 * 4);
}

#[test]
fn two_fresh_generators_identical() {
    let tokens = tokenize_format_string("x%d%l").unwrap();
    let first = collect_all(&tokens);
    let second = collect_all(&tokens);
    assert_eq!(first, second);
}

#[test]
fn exhausted_generator_stays_exhausted() {
    let tokens = tokenize_format_string("%d").unwrap();
    let mut it = token_iterator(&tokens);
    for _ in 0..10 {
        assert!(it.next_word().is_some());
    }
    assert!(it.next_word().is_none());
    assert!(it.next_word().is_none());
}

#[test]
fn saturating_total_on_huge_pattern() {
    let pattern = "%d".repeat(20);
    let tokens = tokenize_format_string(&pattern).unwrap();
    let it = token_iterator(&tokens);
    assert_eq!(it.calculate_total(), u64::MAX);
    assert_eq!(it.calculate_size(), u64::MAX);
}

#[test]
fn uppercase_and_special_classes() {
    let tokens = tokenize_format_string("%u").unwrap();
    let it = token_iterator(&tokens);
    assert_eq!(it.calculate_total(), 26);
    let words = collect_all(&tokens);
    assert_eq!(words[0], "A");
    assert_eq!(words[25], "Z");

    let tokens = tokenize_format_string("%s").unwrap();
    let it = token_iterator(&tokens);
    assert_eq!(it.calculate_total(), 8);
}

#[test]
fn multibyte_literal_size() {
    let tokens = tokenize_format_string("\u{e9}%d").unwrap();
    let it = token_iterator(&tokens);
    assert_eq!(it.calculate_total(), 10);
    assert_eq!(it.calculate_size(), 10 * 3);
}

#[test]
fn unterminated_escape_is_error() {
    let r = tokenize_format_string("abc%");
    assert!(matches!(r, Err(ParseError::UnterminatedEscape)));
}

#[test]
fn unknown_class_is_error() {
    let r = tokenize_format_string("ab%z");
    assert!(matches!(r, Err(ParseError::UnknownClass('z'))));
}
