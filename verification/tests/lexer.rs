use tf_idf::lexer::{tokenize, CharType};
use tf_idf::trie::TrieNode;

fn sample_dict() -> TrieNode {
    let mut dict = TrieNode::default();
    dict.insert("人工".as_bytes(), 10);
    dict.insert("智能".as_bytes(), 10);
    dict.insert("世界".as_bytes(), 5);
    dict
}

#[test]
fn tokenize_empty() {
    let dict = sample_dict();
    assert_eq!(tokenize("", &dict), Vec::<usize>::new());
}

#[test]
fn tokenize_ascii_words() {
    let dict = sample_dict();
    let result = tokenize("hello world", &dict);
    assert!(!result.is_empty());
}

#[test]
fn tokenize_chinese_in_dict() {
    let dict = sample_dict();
    let result = tokenize("人工智能", &dict);
    assert!(!result.is_empty(), "常见中文词应被分词");
}

#[test]
fn tokenize_oov_by_char() {
    let dict = sample_dict();
    let result = tokenize("あいう", &dict);
    assert!(!result.is_empty());
}

#[test]
fn tokenize_mixed_chinese_and_ascii() {
    let dict = sample_dict();
    let result = tokenize("hello世界123abc", &dict);
    assert!(!result.is_empty());
}

#[test]
fn tokenize_whitespace_only() {
    let dict = sample_dict();
    let result = tokenize("   \n\t  ", &dict);
    assert!(result.is_empty());
}

#[test]
fn char_type_classification() {
    assert_eq!(CharType::new('a'), CharType::AsciiAlphabetic);
    assert_eq!(CharType::new('Z'), CharType::AsciiAlphabetic);
    assert_eq!(CharType::new('0'), CharType::AsciiDigit);
    assert_eq!(CharType::new('9'), CharType::AsciiDigit);
    assert_eq!(CharType::new('.'), CharType::AsciiPunctuation);
    assert_eq!(CharType::new('@'), CharType::AsciiPunctuation);
    assert_eq!(CharType::new('\x01'), CharType::AsciiOther);
    assert_eq!(CharType::new('。'), CharType::ChinesePunctuation);
    assert_eq!(CharType::new(' '), CharType::WhiteSpace);
    assert_eq!(CharType::new('あ'), CharType::Other);
}

#[test]
fn tokenize_exact_points() {
    let dict = sample_dict();
    assert_eq!(tokenize("hello world", &dict), vec![5, 6]);
    assert_eq!(tokenize("人工智能", &dict), vec![6]);
    assert_eq!(tokenize("あいう", &dict), vec![3, 6]);
    assert_eq!(tokenize("hello世界123abc", &dict), vec![5, 11, 14]);
}

#[test]
fn tokenize_empty_dictionary_splits_every_other_char() {
    let dict = TrieNode::default();
    assert_eq!(tokenize("人工智能", &dict), vec![3, 6, 9]);
}

#[test]
fn tokenize_long_run_is_cut_at_the_term_length() {
    let dict = TrieNode::default();
    let text = "a".repeat(120);
    assert_eq!(tokenize(&text, &dict), vec![50, 100]);
}

#[test]
fn tokenize_heavier_word_wins() {
    let mut dict = TrieNode::default();
    dict.insert("人工".as_bytes(), 1);
    dict.insert("人工智能".as_bytes(), 5);
    dict.insert("智能".as_bytes(), 1);
    assert_eq!(tokenize("人工智能好", &dict), vec![12]);
}

#[test]
fn tokenize_chinese_punctuation_run() {
    let dict = TrieNode::default();
    assert_eq!(tokenize("你，。好", &dict), vec![3, 9]);
}

#[test]
fn tokenize_space_appended_adds_one_split_point() {
    let dict = sample_dict();
    for s in ["hello世界", "人工智能abc", "x", "12ab人工"] {
        let mut expected = tokenize(s, &dict);
        expected.push(s.len());
        assert_eq!(tokenize(&format!("{s} "), &dict), expected);
    }
}

#[test]
fn tokenize_space_prepended_shifts_split_points() {
    let dict = sample_dict();
    for s in ["hello世界", "人工智能abc", "x", "12ab人工"] {
        let mut expected = vec![1];
        expected.extend(tokenize(s, &dict).iter().map(|x| x + 1));
        assert_eq!(tokenize(&format!(" {s}"), &dict), expected);
    }
}
