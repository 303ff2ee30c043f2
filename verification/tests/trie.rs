use tf_idf::trie::{Iter, TrieNode};

#[test]
fn node_insert_and_seek() {
    let mut node = TrieNode::default();
    node.insert(b"hello", 1);
    let found = node.seek(b"hello").unwrap();
    assert_eq!(found.value(), Some(1));
}

#[test]
fn node_seek_missing() {
    let mut node = TrieNode::default();
    node.insert(b"hello", 1);
    assert!(node.seek(b"world").is_none());
}

#[test]
fn node_overwrite_value() {
    let mut node = TrieNode::default();
    node.insert(b"a", 1);
    node.insert(b"a", 2);
    assert_eq!(node.seek(b"a").unwrap().value(), Some(2));
}

#[test]
fn node_prefix_shared() {
    let mut node = TrieNode::default();
    node.insert(b"ab", 1);
    node.insert(b"ac", 2);
    assert_eq!(node.seek(b"ab").unwrap().value(), Some(1));
    assert_eq!(node.seek(b"ac").unwrap().value(), Some(2));
}

#[test]
fn seek_prefix_has_no_value() {
    let mut node = TrieNode::default();
    node.insert(b"abc", 7);
    let mid = node.seek(b"ab").unwrap();
    assert_eq!(mid.value(), None);
    assert_eq!(mid.seek(b"c").unwrap().value(), Some(7));
}

#[test]
fn seek_char_follows_utf8() {
    let mut node = TrieNode::default();
    node.insert("的".as_bytes(), 3);
    assert_eq!(node.seek_char('的').unwrap().value(), Some(3));
    assert!(node.seek_char('了').is_none());
}

#[test]
fn iter_yields_low_then_high_nibble() {
    let bytes = [0xABu8, 0x01];
    let mut it = Iter::new(&bytes);
    assert_eq!(it.next(), Some(0xB));
    assert_eq!(it.next(), Some(0xA));
    assert_eq!(it.next(), Some(0x1));
    assert_eq!(it.next(), Some(0x0));
    assert_eq!(it.next(), None);
}

#[test]
fn get_finds_only_whole_keys() {
    let mut node = TrieNode::default();
    node.insert("人工智能".as_bytes(), 4);
    node.insert(b"", 9);
    assert_eq!(node.get("人工智能".as_bytes()), Some(4));
    assert_eq!(node.get("人工".as_bytes()), None);
    assert_eq!(node.get(b""), Some(9));
    assert_eq!(node.value(), Some(9));
}

#[test]
fn seek_finds_exactly_the_prefixes_of_keys() {
    let mut node = TrieNode::default();
    node.insert(b"hello", 1);
    assert!(node.seek(b"").is_some());
    assert!(node.seek(b"h").is_some());
    assert!(node.seek(b"hell").is_some());
    assert!(node.seek(b"hello").is_some());
    assert!(node.seek(b"hellos").is_none());
    assert!(node.seek(b"w").is_none());
    assert!(node.seek(b"hex").is_none());
}

#[test]
fn insert_keeps_the_nodes_found_before() {
    let mut node = TrieNode::default();
    node.insert(b"abc", 1);
    assert!(node.seek(b"ab").is_some());
    node.insert(b"xyz", 2);
    node.insert(b"ab", 3);
    assert!(node.seek(b"ab").is_some());
    assert!(node.seek(b"abc").is_some());
    assert_eq!(node.seek(b"abc").unwrap().value(), Some(1));
    assert_eq!(node.seek(b"ab").unwrap().value(), Some(3));
    assert!(node.seek(b"xy").is_some());
}
