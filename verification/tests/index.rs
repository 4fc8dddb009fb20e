use indexedlog::index::Index;

#[test]
fn test_distinct_one_byte_keys() {
    let mut index = Index::open(Vec::new(), 0, false).expect("open");
    assert_eq!(
        index.fmt(),
        "Index { len: 1, root: Radix[0] }\n\
         Radix[0]: Radix { link: None }\n"
    );

    index.insert(&[], 55).expect("update");
    assert_eq!(
        index.fmt(),
        "Index { len: 1, root: Radix[0] }\n\
         Radix[0]: Radix { link: Link[0] }\n\
         Link[0]: Link { value: 55, next: None }\n"
    );

    index.insert(&[0x12], 77).expect("update");
    assert_eq!(
        index.fmt(),
        "Index { len: 1, root: Radix[0] }\n\
         Radix[0]: Radix { link: Link[0], 1: Leaf[0] }\n\
         Leaf[0]: Leaf { key: Key[0], link: Link[1] }\n\
         Link[0]: Link { value: 55, next: None }\n\
         Link[1]: Link { value: 77, next: None }\n\
         Key[0]: Key { key: 12 }\n"
    );

    let link = index.get(&[0x12]).expect("get");
    index
        .insert_advanced(&[0x34], 99.into(), link.into())
        .expect("update");
    assert_eq!(
        index.fmt(),
        "Index { len: 1, root: Radix[0] }\n\
         Radix[0]: Radix { link: Link[0], 1: Leaf[0], 3: Leaf[1] }\n\
         Leaf[0]: Leaf { key: Key[0], link: Link[1] }\n\
         Leaf[1]: Leaf { key: Key[1], link: Link[2] }\n\
         Link[0]: Link { value: 55, next: None }\n\
         Link[1]: Link { value: 77, next: None }\n\
         Link[2]: Link { value: 99, next: Link[1] }\n\
         Key[0]: Key { key: 12 }\n\
         Key[1]: Key { key: 34 }\n"
    );
}

#[test]
fn test_distinct_one_byte_keys_flush() {
    let mut file: Vec<u8> = Vec::new();
    let mut index = Index::open(file.clone(), 0, false).expect("open");

    // 1st flush.
    assert_eq!(index.flush(&mut file).expect("flush"), 19);
    assert_eq!(
        index.fmt(),
        "Index { len: 22, root: Disk[1] }\n\
         Disk[1]: Radix { link: None }\n\
         Disk[19]: Root { radix: Disk[1] }\n"
    );

    // Mixed on-disk and in-memory state.
    index.insert(&[], 55).expect("update");
    index.insert(&[0x12], 77).expect("update");
    assert_eq!(
        index.fmt(),
        "Index { len: 22, root: Radix[0] }\n\
         Disk[1]: Radix { link: None }\n\
         Disk[19]: Root { radix: Disk[1] }\n\
         Radix[0]: Radix { link: Link[0], 1: Leaf[0] }\n\
         Leaf[0]: Leaf { key: Key[0], link: Link[1] }\n\
         Link[0]: Link { value: 55, next: None }\n\
         Link[1]: Link { value: 77, next: None }\n\
         Key[0]: Key { key: 12 }\n"
    );

    // After 2nd flush. There are 2 roots.
    let link = index.get(&[0x12]).expect("get");
    index
        .insert_advanced(&[0x34], 99.into(), link.into())
        .expect("update");
    index.flush(&mut file).expect("flush");
    assert_eq!(
        index.fmt(),
        "Index { len: 66, root: Disk[43] }\n\
         Disk[1]: Radix { link: None }\n\
         Disk[19]: Root { radix: Disk[1] }\n\
         Disk[22]: Key { key: 12 }\n\
         Disk[25]: Key { key: 34 }\n\
         Disk[28]: Link { value: 55, next: None }\n\
         Disk[31]: Link { value: 77, next: None }\n\
         Disk[34]: Link { value: 99, next: Disk[31] }\n\
         Disk[37]: Leaf { key: Disk[22], link: Disk[31] }\n\
         Disk[40]: Leaf { key: Disk[25], link: Disk[34] }\n\
         Disk[43]: Radix { link: Disk[28], 1: Disk[37], 3: Disk[40] }\n\
         Disk[63]: Root { radix: Disk[43] }\n"
    );
}

#[test]
fn test_leaf_split() {
    let file: Vec<u8> = Vec::new();
    let mut index = Index::open(file.clone(), 0, false).expect("open");

    // Example 1: two keys are not prefixes of each other
    index.insert(&[0x12, 0x34], 5).expect("insert");
    assert_eq!(
        index.fmt(),
        "Index { len: 1, root: Radix[0] }\n\
         Radix[0]: Radix { link: None, 1: Leaf[0] }\n\
         Leaf[0]: Leaf { key: Key[0], link: Link[0] }\n\
         Link[0]: Link { value: 5, next: None }\n\
         Key[0]: Key { key: 12 34 }\n"
    );
    index.insert(&[0x12, 0x78], 7).expect("insert");
    assert_eq!(
        index.fmt(),
        "Index { len: 1, root: Radix[0] }\n\
         Radix[0]: Radix { link: None, 1: Radix[1] }\n\
         Radix[1]: Radix { link: None, 2: Radix[2] }\n\
         Radix[2]: Radix { link: None, 3: Leaf[0], 7: Leaf[1] }\n\
         Leaf[0]: Leaf { key: Key[0], link: Link[0] }\n\
         Leaf[1]: Leaf { key: Key[1], link: Link[1] }\n\
         Link[0]: Link { value: 5, next: None }\n\
         Link[1]: Link { value: 7, next: None }\n\
         Key[0]: Key { key: 12 34 }\n\
         Key[1]: Key { key: 12 78 }\n"
    );

    // Example 2: new key is a prefix of the old key
    let mut index = Index::open(file.clone(), 0, false).expect("open");
    index.insert(&[0x12, 0x34], 5).expect("insert");
    index.insert(&[0x12], 7).expect("insert");
    assert_eq!(
        index.fmt(),
        "Index { len: 1, root: Radix[0] }\n\
         Radix[0]: Radix { link: None, 1: Radix[1] }\n\
         Radix[1]: Radix { link: None, 2: Radix[2] }\n\
         Radix[2]: Radix { link: Link[1], 3: Leaf[0] }\n\
         Leaf[0]: Leaf { key: Key[0], link: Link[0] }\n\
         Link[0]: Link { value: 5, next: None }\n\
         Link[1]: Link { value: 7, next: None }\n\
         Key[0]: Key { key: 12 34 }\n"
    );

    // Example 3: old key is a prefix of the new key
    let mut index = Index::open(file.clone(), 0, false).expect("open");
    index.insert(&[0x12], 5).expect("insert");
    index.insert(&[0x12, 0x78], 7).expect("insert");
    assert_eq!(
        index.fmt(),
        "Index { len: 1, root: Radix[0] }\n\
         Radix[0]: Radix { link: None, 1: Radix[1] }\n\
         Radix[1]: Radix { link: None, 2: Radix[2] }\n\
         Radix[2]: Radix { link: Link[0], 7: Leaf[1] }\n\
         Leaf[0]: Leaf { key: Key[0], link: Link[0] }\n\
         Leaf[1]: Leaf { key: Key[1], link: Link[1] }\n\
         Link[0]: Link { value: 5, next: None }\n\
         Link[1]: Link { value: 7, next: None }\n\
         Key[0]: Key { key: 12 }\n\
         Key[1]: Key { key: 12 78 }\n"
    );

    // Same key. Multiple values.
    let mut index = Index::open(file.clone(), 0, false).expect("open");
    index.insert(&[0x12], 5).expect("insert");
    index.insert(&[0x12], 7).expect("insert");
    assert_eq!(
        index.fmt(),
        "Index { len: 1, root: Radix[0] }\n\
         Radix[0]: Radix { link: None, 1: Leaf[0] }\n\
         Leaf[0]: Leaf { key: Key[0], link: Link[1] }\n\
         Link[0]: Link { value: 5, next: None }\n\
         Link[1]: Link { value: 7, next: Link[0] }\n\
         Key[0]: Key { key: 12 }\n"
    );
}

#[test]
fn test_clone() {
    let mut file: Vec<u8> = Vec::new();
    let mut index = Index::open(file.clone(), 0, false).expect("open");

    index.insert(&[], 55).expect("insert");
    index.insert(&[0x12], 77).expect("insert");
    index.flush(&mut file).expect("flush");
    index.insert(&[0x15], 99).expect("insert");

    let index2 = index.clone(file.clone()).expect("clone");
    assert_eq!(index.fmt(), index2.fmt());
}
