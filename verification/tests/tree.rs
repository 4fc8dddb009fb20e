use std::collections::HashMap;

use indexedlog::error::IndexError;
use indexedlog::index::Index;
use indexedlog::offset::LinkOffset;

fn fresh() -> Index {
    Index::open(Vec::new(), 0, false).expect("open")
}

fn value_of(index: &Index, key: &[u8]) -> u64 {
    let link = index.get(key).expect("get");
    assert!(!link.is_null());
    link.value(index).expect("value")
}

fn chain_of(index: &Index, key: &[u8]) -> Vec<u64> {
    let mut values = Vec::new();
    let mut link = index.get(key).expect("get");
    while !link.is_null() {
        values.push(link.value(index).expect("value"));
        link = link.next_link_offset(index).expect("next");
    }
    values
}

#[test]
fn test_split_keys_diverge() {
    let mut index = fresh();
    index.insert(&[0x12, 0x34], 5).expect("insert");
    index.insert(&[0x12, 0x78], 7).expect("insert");
    assert_eq!(value_of(&index, &[0x12, 0x34]), 5);
    assert_eq!(value_of(&index, &[0x12, 0x78]), 7);
    assert!(index.get(&[0x12]).expect("get").is_null());
}

#[test]
fn test_split_new_key_is_prefix() {
    let mut index = fresh();
    index.insert(&[0x12, 0x34], 5).expect("insert");
    index.insert(&[0x12], 7).expect("insert");
    assert_eq!(value_of(&index, &[0x12]), 7);
    assert_eq!(value_of(&index, &[0x12, 0x34]), 5);
}

#[test]
fn test_split_old_key_is_prefix() {
    let mut index = fresh();
    index.insert(&[0x12], 5).expect("insert");
    index.insert(&[0x12, 0x78], 7).expect("insert");
    assert_eq!(value_of(&index, &[0x12]), 5);
    assert_eq!(value_of(&index, &[0x12, 0x78]), 7);
}

#[test]
fn test_same_key_twice() {
    let mut index = fresh();
    index.insert(&[0x12], 5).expect("insert");
    index.insert(&[0x12], 7).expect("insert");
    let head = index.get(&[0x12]).expect("get");
    assert_eq!(head.value(&index).expect("value"), 7);
    let next = head.next_link_offset(&index).expect("next");
    assert_eq!(next.value(&index).expect("value"), 5);
    assert!(next.next_link_offset(&index).expect("next").is_null());
}

#[test]
fn test_empty_key() {
    let mut file: Vec<u8> = Vec::new();
    let mut index = Index::open(file.clone(), 0, false).expect("open");
    index.insert(&[], 55).expect("insert");
    index.insert(&[0x12], 77).expect("insert");
    assert_eq!(value_of(&index, &[]), 55);
    index.flush(&mut file).expect("flush");
    assert_eq!(value_of(&index, &[]), 55);
    assert_eq!(value_of(&index, &[0x12]), 77);
}

fn sample() -> Vec<(Vec<u8>, u64)> {
    vec![
        (vec![], 1),
        (vec![0x00], 2),
        (vec![0x12], 3),
        (vec![0x12, 0x34], 4),
        (vec![0x12, 0x35], 5),
        (vec![0x12, 0x34, 0x56], 6),
        (vec![0xff, 0xff, 0xff, 0xff], 7),
        (vec![0xf0], 8),
        (vec![0x0f], 9),
        (vec![0x13, 0x00, 0x00], u64::MAX),
    ]
}

fn absent() -> Vec<Vec<u8>> {
    vec![
        vec![0x01],
        vec![0x12, 0x36],
        vec![0x12, 0x34, 0x56, 0x78],
        vec![0xff],
        vec![0xff, 0xff],
        vec![0x13],
        vec![0x13, 0x00],
        vec![0x20],
    ]
}

fn check_sample(index: &Index) {
    let expected: HashMap<Vec<u8>, u64> = sample().into_iter().collect();
    for (key, value) in &expected {
        assert_eq!(chain_of(index, key), vec![*value]);
    }
    for key in absent() {
        assert!(index.get(&key).expect("get").is_null());
    }
}

#[test]
fn test_every_key_has_its_value() {
    let mut index = fresh();
    for (key, value) in sample() {
        index.insert(&key, value).expect("insert");
    }
    check_sample(&index);
}

#[test]
fn test_every_key_has_its_value_in_any_order() {
    let mut index = fresh();
    for (key, value) in sample().into_iter().rev() {
        index.insert(&key, value).expect("insert");
    }
    check_sample(&index);
}

#[test]
fn test_every_key_has_its_value_after_reopen() {
    let mut file: Vec<u8> = Vec::new();
    let mut index = Index::open(file.clone(), 0, false).expect("open");
    for (key, value) in sample() {
        index.insert(&key, value).expect("insert");
    }
    let root = index.flush(&mut file).expect("flush");
    assert_ne!(root, 0);
    check_sample(&index);
    let at_root = Index::open(file.clone(), root, false).expect("open");
    check_sample(&at_root);
    let at_end = Index::open(file.clone(), 0, true).expect("open");
    check_sample(&at_end);
}

#[test]
fn test_values_of_a_key_newest_first() {
    let mut file: Vec<u8> = Vec::new();
    let mut index = Index::open(file.clone(), 0, false).expect("open");
    index.insert(&[0xab], 1).expect("insert");
    index.insert(&[0xcd], 10).expect("insert");
    index.insert(&[0xab], 2).expect("insert");
    index.flush(&mut file).expect("flush");
    index.insert(&[0xab], 3).expect("insert");
    index.insert(&[0xcd], 20).expect("insert");
    assert_eq!(chain_of(&index, &[0xab]), vec![3, 2, 1]);
    assert_eq!(chain_of(&index, &[0xcd]), vec![20, 10]);
    index.flush(&mut file).expect("flush");
    assert_eq!(chain_of(&index, &[0xab]), vec![3, 2, 1]);
    assert_eq!(chain_of(&index, &[0xcd]), vec![20, 10]);
}

#[test]
fn test_insert_leaves_other_keys_alone() {
    let mut file: Vec<u8> = Vec::new();
    let mut index = Index::open(file.clone(), 0, false).expect("open");
    for (key, value) in sample() {
        index.insert(&key, value).expect("insert");
    }
    index.flush(&mut file).expect("flush");
    let before: Vec<LinkOffset> = sample()
        .iter()
        .map(|(key, _)| index.get(key).expect("get"))
        .collect();
    index.insert(&[0x12, 0x34, 0x99], 100).expect("insert");
    for (i, (key, _)) in sample().iter().enumerate() {
        assert_eq!(index.get(key).expect("get"), before[i]);
    }
    assert_eq!(value_of(&index, &[0x12, 0x34, 0x99]), 100);
}

#[test]
fn test_insert_advanced_value_and_link() {
    let mut index = fresh();
    index.insert(&[0x12], 77).expect("insert");
    let link = index.get(&[0x12]).expect("get");
    index
        .insert_advanced(&[0x34], Some(99), Some(link))
        .expect("insert");
    assert_eq!(chain_of(&index, &[0x34]), vec![99, 77]);
    assert_eq!(chain_of(&index, &[0x12]), vec![77]);
}

#[test]
fn test_insert_advanced_link_alone() {
    let mut index = fresh();
    index.insert(&[0x12], 77).expect("insert");
    index.insert(&[0x34], 1).expect("insert");
    let link = index.get(&[0x12]).expect("get");
    index
        .insert_advanced(&[0x34], None, Some(link))
        .expect("insert");
    assert_eq!(index.get(&[0x34]).expect("get"), link);
    assert_eq!(chain_of(&index, &[0x34]), vec![77]);
}

#[test]
fn test_insert_advanced_neither() {
    let mut file: Vec<u8> = Vec::new();
    let mut index = Index::open(file.clone(), 0, false).expect("open");
    index.insert(&[0x12], 77).expect("insert");
    index.flush(&mut file).expect("flush");
    let text = index.fmt();
    index.insert_advanced(&[0x12], None, None).expect("insert");
    assert_ne!(index.fmt(), text);
    assert_eq!(chain_of(&index, &[0x12]), vec![77]);
    assert_ne!(index.flush(&mut file).expect("flush"), 0);
    assert_eq!(chain_of(&index, &[0x12]), vec![77]);
}

#[test]
fn test_insert_advanced_link_of_no_entry() {
    let mut index = fresh();
    index.insert(&[0x12], 77).expect("insert");
    let text = index.fmt();
    let missing = LinkOffset::from_dirty_index(5);
    assert_eq!(
        index.insert_advanced(&[0x34], Some(1), Some(missing)),
        Err(IndexError::CorruptData)
    );
    assert_eq!(index.fmt(), text);
}

#[test]
fn test_value_of_null_link() {
    let index = fresh();
    let link = index.get(&[0x12]).expect("get");
    assert!(link.is_null());
    assert_eq!(link.value(&index), Err(IndexError::CorruptData));
    assert_eq!(link.next_link_offset(&index), Err(IndexError::CorruptData));
}

#[test]
fn test_has_room() {
    let index = fresh();
    assert!(index.has_room(0));
    assert!(index.has_room(1 << 20));
    assert!(!index.has_room(usize::MAX));
}

#[test]
fn test_long_key() {
    let mut file: Vec<u8> = Vec::new();
    let mut index = Index::open(file.clone(), 0, false).expect("open");
    let long: Vec<u8> = (0..300u32).map(|i| (i % 251) as u8).collect();
    let mut other = long.clone();
    other[299] ^= 1;
    index.insert(&long, 1).expect("insert");
    index.insert(&other, 2).expect("insert");
    assert_eq!(chain_of(&index, &long), vec![1]);
    assert_eq!(chain_of(&index, &other), vec![2]);
    index.flush(&mut file).expect("flush");
    assert_eq!(chain_of(&index, &long), vec![1]);
    assert_eq!(chain_of(&index, &other), vec![2]);
    assert!(index.get(&long[..299]).expect("get").is_null());
}
