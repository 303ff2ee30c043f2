use std::collections::HashMap;

use tf_idf::map::{BaseMap, MapInsert, MapQuery, Slice, SmallMap};

#[test]
fn slice_insert_get_replace() {
    let mut m: Slice<&str, 16> = Slice::default();
    assert_eq!(m.get(&3), None);
    assert_eq!(m.insert(3, "x"), None);
    assert_eq!(m.get(&3), Some(&"x"));
    assert_eq!(m.insert(3, "y"), Some("x"));
    assert_eq!(m.get(&3), Some(&"y"));
    assert_eq!(m.get(&4), None);
}

#[test]
fn slice_get_mut_or_insert_with() {
    let mut m: Slice<u32, 4> = Slice::default();
    *m.get_mut_or_insert_with(&1, || 10) += 1;
    *m.get_mut_or_insert_with(&1, || 100) += 1;
    assert_eq!(m.get(&1), Some(&12));
}

#[test]
fn small_map_keeps_keys_sorted() {
    let mut m: SmallMap<u64, &str> = SmallMap::default();
    assert_eq!(m.insert(5, "five"), None);
    assert_eq!(m.insert(1, "one"), None);
    assert_eq!(m.insert(9, "nine"), None);
    assert_eq!(m.insert(5, "FIVE"), Some("five"));
    assert_eq!(m.get(&1), Some(&"one"));
    assert_eq!(m.get(&5), Some(&"FIVE"));
    assert_eq!(m.get(&9), Some(&"nine"));
    assert_eq!(m.get(&2), None);
}

#[test]
fn small_map_get_mut_or_insert_with() {
    let mut m: SmallMap<u64, u32> = SmallMap::default();
    *m.get_mut_or_insert_with(&7, || 0) += 3;
    *m.get_mut_or_insert_with(&2, || 0) += 1;
    *m.get_mut_or_insert_with(&7, || 50) += 3;
    assert_eq!(m.get(&7), Some(&6));
    assert_eq!(m.get(&2), Some(&1));
}

#[test]
fn hash_map_through_the_interface() {
    let mut m: HashMap<u64, u32> = HashMap::new();
    assert_eq!(BaseMap::insert(&mut m, 4, 40), None);
    assert_eq!(MapQuery::get(&m, &4), Some(&40));
    *m.get_mut_or_insert_with(&4, || 0) += 2;
    *m.get_mut_or_insert_with(&8, || 80) += 1;
    assert_eq!(MapQuery::get(&m, &4), Some(&42));
    assert_eq!(MapQuery::get(&m, &8), Some(&81));
}
