use tf_idf::data::{document_count, group_occurrences, keyword_ranges, term_counts};
use tf_idf::lexer::build_dictionary;
use tf_idf::trie::TrieNode;

fn count_of(counts: &[(String, usize)], term: &str) -> Option<usize> {
    counts.iter().find(|(k, _)| k == term).map(|(_, c)| *c)
}

#[test]
fn term_counts_basic() {
    let dict = TrieNode::default();
    let (counts, splits) = term_counts("hello world hello", &dict);
    assert_eq!(count_of(&counts, "hello"), Some(2));
    assert_eq!(count_of(&counts, "world"), Some(1));
    assert_eq!(count_of(&counts, " "), Some(2));
    assert_eq!(counts.len(), 3);
    assert_eq!(splits, 4);
    let hello = 2.0 / (splits + 1) as f64;
    let world = 1.0 / (splits + 1) as f64;
    assert!((hello / world - 2.0).abs() < 1e-9);
}

#[test]
fn term_counts_empty() {
    let dict = TrieNode::default();
    let (counts, splits) = term_counts("", &dict);
    assert!(counts.is_empty());
    assert_eq!(splits, 0);
}

#[test]
fn term_counts_single_term() {
    let dict = TrieNode::default();
    let (counts, splits) = term_counts("test", &dict);
    assert_eq!(counts.len(), 1);
    assert_eq!(counts[0].0, "test");
    assert_eq!(counts[0].1, 1);
    assert_eq!(splits, 0);
}

#[test]
fn term_counts_uses_dictionary_words() {
    let mut dict = TrieNode::default();
    dict.insert("人工".as_bytes(), 3);
    dict.insert("智能".as_bytes(), 3);
    let (counts, splits) = term_counts("人工智能人工", &dict);
    assert_eq!(count_of(&counts, "人工"), Some(2));
    assert_eq!(count_of(&counts, "智能"), Some(1));
    assert_eq!(counts.len(), 2);
    assert_eq!(splits, 2);
}

#[test]
fn group_occurrences_by_upper_case_term() {
    let metas: Vec<Vec<(String, f64)>> = vec![
        vec![("common".into(), 0.5), ("rare".into(), 0.5)],
        vec![("common".into(), 1.0)],
        vec![("Common".into(), 1.0)],
    ];
    let groups = group_occurrences(&metas);
    assert_eq!(groups.len(), 2);
    let common = groups.iter().find(|g| g.0.as_str() == "COMMON").unwrap();
    assert_eq!(common.1, vec![(0, 0.5), (1, 1.0), (2, 1.0)]);
    let rare = groups.iter().find(|g| g.0.as_str() == "RARE").unwrap();
    assert_eq!(rare.1, vec![(0, 0.5)]);
}

#[test]
fn group_occurrences_empty() {
    let metas: Vec<Vec<(String, f64)>> = vec![];
    assert!(group_occurrences(&metas).is_empty());
}

#[test]
fn keyword_ranges_lists_short_substrings() {
    let (upper, ranges) = keyword_ranges("ab");
    assert_eq!(upper, "AB");
    assert_eq!(ranges, vec![(0, 1), (0, 2), (1, 2)]);
}

#[test]
fn keyword_ranges_multibyte() {
    let (upper, ranges) = keyword_ranges("人工");
    assert_eq!(upper, "人工");
    assert_eq!(ranges, vec![(0, 3), (0, 6), (3, 6)]);
}

#[test]
fn keyword_ranges_stop_at_the_term_length() {
    let text = "x".repeat(52);
    let (upper, ranges) = keyword_ranges(&text);
    assert_eq!(upper, "X".repeat(52));
    assert_eq!(ranges.iter().filter(|r| r.0 == 0).count(), 50);
    assert!(ranges.iter().all(|r| r.1 - r.0 <= 50));
    assert_eq!(ranges.len(), 50 + 50 + 50 + (1..50).sum::<usize>());
}

#[test]
fn build_dictionary_first_entry_wins() {
    let entries = vec![
        ("人工".to_string(), 7),
        ("智能".to_string(), 2),
        ("人工".to_string(), 1),
    ];
    let dict = build_dictionary(&entries);
    assert_eq!(dict.get("人工".as_bytes()), Some(7));
    assert_eq!(dict.get("智能".as_bytes()), Some(2));
    assert_eq!(dict.get("人".as_bytes()), None);
}

#[test]
fn term_counts_add_up_to_the_number_of_terms() {
    let mut dict = TrieNode::default();
    dict.insert("世界".as_bytes(), 2);
    let text = "hello世界, hello 世界!";
    let (counts, splits) = term_counts(text, &dict);
    let total: usize = counts.iter().map(|(_, c)| c).sum();
    assert_eq!(total, splits + 1);
    assert_eq!(count_of(&counts, "世界"), Some(2));
    assert_eq!(count_of(&counts, "hello"), Some(2));
}

#[test]
fn term_counts_list_terms_by_first_occurrence() {
    let dict = TrieNode::default();
    let (counts, _) = term_counts("b a b c a", &dict);
    let names: Vec<&str> = counts.iter().map(|(k, _)| k.as_str()).collect();
    assert_eq!(names, vec!["b", " ", "a", "c"]);
    assert_eq!(count_of(&counts, " "), Some(4));
}

#[test]
fn document_count_counts_distinct_documents() {
    let occ: Vec<(u32, f64)> = vec![(0, 0.5), (0, 0.25), (2, 1.0), (5, 0.5), (2, 0.1)];
    assert_eq!(document_count(&occ), 3);
    let none: Vec<(u32, f64)> = vec![];
    assert_eq!(document_count(&none), 0);
}

#[test]
fn group_then_count_documents_merges_case() {
    let metas = vec![
        vec![("hello".to_string(), 1u32), ("HELLO".to_string(), 2u32)],
        vec![("Hello".to_string(), 3u32)],
    ];
    let groups = group_occurrences(&metas);
    assert_eq!(groups.len(), 1);
    assert_eq!(groups[0].1, vec![(0, 1), (0, 2), (1, 3)]);
    assert_eq!(document_count(&groups[0].1), 2);
}
