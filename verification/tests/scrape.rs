use gorilla::words::extract_words;

#[test]
fn strips_tags_and_splits() {
    let words = extract_words("<b>hello</b> world");
    assert_eq!(words, vec!["hello".to_string(), "world".to_string()]);
}

#[test]
fn deduplicates_keeping_first_occurrence() {
    let words = extract_words("one two one three two");
    assert_eq!(
        words,
        vec!["one".to_string(), "two".to_string(), "three".to_string()]
    );
}

#[test]
fn trims_pieces_and_drops_empties() {
    let words = extract_words("  alpha \n beta\t  alpha ");
    assert_eq!(words, vec!["alpha".to_string(), "beta".to_string()]);
}

#[test]
fn tag_spanning_text_is_removed() {
    let words = extract_words("before <a href=\"x\">link</a> after");
    assert_eq!(
        words,
        vec!["before".to_string(), "link".to_string(), "after".to_string()]
    );
}

#[test]
fn empty_page_gives_no_words() {
    let words = extract_words("");
    assert_eq!(words.len(), 0);
}
