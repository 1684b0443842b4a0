use docsearch::corpus::{document_count, on_dir_read_failure, CorpusIndex, DirReadFailure};
use docsearch::markup::{extract_text, join_text};
use docsearch::termfreq::{chars_of, index_chars, index_document, normalize, to_upper, TermFreq};

fn chars(s: &str) -> Vec<char> {
    s.chars().collect()
}

fn count(tf: &TermFreq, term: &str) -> usize {
    tf.count(&chars(term))
}

#[test]
fn term_frequency_ignores_case() {
    let tf = index_document("cat Cat CAT");
    assert_eq!(tf.len(), 1);
    assert_eq!(count(&tf, "CAT"), 3);
    assert_eq!(count(&tf, "cat"), 0);
}

#[test]
fn term_frequency_counts_each_kind() {
    let tf = index_document("x1 42 x1 ! 42 42");
    assert_eq!(tf.len(), 3);
    assert_eq!(count(&tf, "X1"), 2);
    assert_eq!(count(&tf, "42"), 3);
    assert_eq!(count(&tf, "!"), 1);
}

#[test]
fn empty_document_has_no_terms() {
    let tf = index_document("   ");
    assert_eq!(tf.len(), 0);
}

#[test]
fn upper_case_is_ascii_only() {
    assert_eq!(to_upper('a'), 'A');
    assert_eq!(to_upper('z'), 'Z');
    assert_eq!(to_upper('Q'), 'Q');
    assert_eq!(to_upper('1'), '1');
    assert_eq!(to_upper('\u{e9}'), '\u{e9}');
    assert_eq!(normalize(&chars("aBc9")), chars("ABC9"));
}

#[test]
fn term_freq_entries_round_trip() {
    let mut tf = TermFreq::new();
    tf.add_term(chars("A"));
    tf.add_term(chars("B"));
    tf.add_term(chars("A"));
    let back = TermFreq::from_entries(tf.to_entries()).unwrap();
    assert_eq!(back.len(), 2);
    assert_eq!(count(&back, "A"), 2);
    assert_eq!(count(&back, "B"), 1);
}

#[test]
fn term_freq_entries_rejected() {
    assert!(TermFreq::from_entries(vec![(chars("A"), 0)]).is_none());
    assert!(TermFreq::from_entries(vec![(chars("A"), 1), (chars("A"), 2)]).is_none());
}

#[test]
fn extraction_joins_character_data() {
    let text = extract_text(b"<doc>hello hello world</doc>").unwrap();
    assert_eq!(text.iter().collect::<String>(), "hello hello world ");
}

#[test]
fn extraction_drops_tags_and_attributes() {
    let text = extract_text(b"<doc id=\"7\"><p>one</p><p>two</p></doc>").unwrap();
    assert_eq!(text.iter().collect::<String>(), "one two ");
}

#[test]
fn extraction_fails_on_malformed_markup() {
    assert!(extract_text(b"<doc>unterminated").is_none());
    assert!(extract_text(b"<a></b>").is_none());
}

#[test]
fn join_text_adds_a_space_after_each_piece() {
    let events = vec![Some(chars("ab")), None, Some(chars("c"))];
    assert_eq!(join_text(&events), chars("ab c "));
    assert!(join_text(&Vec::new()).is_empty());
}

#[test]
fn two_documents_are_indexed() {
    let mut index = CorpusIndex::new();
    assert!(index.index_file(chars("dir/a.xml"), b"<doc>hello hello world</doc>"));
    assert!(index.index_file(chars("dir/b.xml"), b"<doc>world</doc>"));
    assert_eq!(index.len(), 2);
    let a = index.get(&chars("dir/a.xml")).unwrap();
    assert_eq!(a.len(), 2);
    assert_eq!(count(a, "HELLO"), 2);
    assert_eq!(count(a, "WORLD"), 1);
    let b = index.get(&chars("dir/b.xml")).unwrap();
    assert_eq!(b.len(), 1);
    assert_eq!(count(b, "WORLD"), 1);
}

#[test]
fn malformed_document_is_left_out() {
    let mut index = CorpusIndex::new();
    assert!(index.index_file(chars("dir/good.xml"), b"<doc>fine</doc>"));
    assert!(!index.index_file(chars("dir/bad.xml"), b"<doc>broken"));
    assert_eq!(index.len(), 1);
    assert!(index.get(&chars("dir/bad.xml")).is_none());
    assert_eq!(count(index.get(&chars("dir/good.xml")).unwrap(), "FINE"), 1);
}

#[test]
fn empty_index_has_no_documents() {
    let index = CorpusIndex::new();
    assert_eq!(index.len(), 0);
    assert_eq!(document_count(index.to_entries()), Some(0));
}

#[test]
fn reindexing_a_path_replaces_its_entry() {
    let mut index = CorpusIndex::new();
    assert!(index.add_extracted(chars("p"), Some(chars("old old"))));
    assert!(index.add_extracted(chars("p"), Some(chars("new"))));
    assert!(!index.add_extracted(chars("q"), None));
    assert_eq!(index.len(), 1);
    let p = index.get(&chars("p")).unwrap();
    assert_eq!(count(p, "OLD"), 0);
    assert_eq!(count(p, "NEW"), 1);
}

#[test]
fn snapshot_round_trip() {
    let mut index = CorpusIndex::new();
    index.index_file(chars("a"), b"<x>hello hello world</x>");
    index.index_file(chars("b"), b"<x>world</x>");
    let back = CorpusIndex::from_entries(index.to_entries()).unwrap();
    assert_eq!(back.len(), 2);
    assert_eq!(count(back.get(&chars("a")).unwrap(), "HELLO"), 2);
    assert_eq!(count(back.get(&chars("b")).unwrap(), "WORLD"), 1);
    assert_eq!(document_count(back.to_entries()), Some(2));
}

#[test]
fn invalid_snapshots_are_rejected() {
    let dup = vec![(chars("a"), vec![(chars("X"), 1)]), (chars("a"), vec![(chars("Y"), 1)])];
    assert!(CorpusIndex::from_entries(dup).is_none());
    let zero = vec![(chars("a"), vec![(chars("X"), 0)])];
    assert!(CorpusIndex::from_entries(zero.clone()).is_none());
    assert_eq!(document_count(zero), None);
}

#[test]
fn chars_of_and_index_chars_agree() {
    assert_eq!(chars_of("a\u{e9}b"), vec!['a', '\u{e9}', 'b']);
    let tf = index_chars(&chars("dog DOG cat"));
    assert_eq!(tf.len(), 2);
    assert_eq!(count(&tf, "DOG"), 2);
    assert_eq!(count(&tf, "CAT"), 1);
}

#[test]
fn directory_read_failures() {
    assert_eq!(on_dir_read_failure(true), DirReadFailure::Abort);
    assert_eq!(on_dir_read_failure(false), DirReadFailure::Skip);
}
