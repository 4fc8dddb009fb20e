use indexedlog::entry::MemRadix;
use indexedlog::entry::MemRoot;
use indexedlog::error::IndexError;
use indexedlog::index::Index;
use indexedlog::vlq::read_vlq_at;

#[test]
fn test_flush_of_nothing() {
    let mut file: Vec<u8> = Vec::new();
    let mut index = Index::open(file.clone(), 0, false).expect("open");
    assert_eq!(index.flush(&mut file).expect("flush"), 19);
    let len = file.len();
    assert_eq!(index.flush(&mut file).expect("flush"), 0);
    assert_eq!(file.len(), len);
}

#[test]
fn test_flush_read_only() {
    let mut file: Vec<u8> = Vec::new();
    let mut index = Index::open(file.clone(), 0, true).expect("open");
    index.insert(&[0x12], 1).expect("insert");
    assert_eq!(index.flush(&mut file), Err(IndexError::PermissionDenied));
    assert!(file.is_empty());
    assert_eq!(index.flush_check(), Err(IndexError::PermissionDenied));
    assert_eq!(
        index.get(&[0x12]).expect("get").value(&index).expect("value"),
        1
    );
}

#[test]
fn test_flush_check() {
    let mut file: Vec<u8> = Vec::new();
    let mut index = Index::open(file.clone(), 0, false).expect("open");
    assert_eq!(index.flush_check(), Ok(true));
    index.flush(&mut file).expect("flush");
    assert_eq!(index.flush_check(), Ok(false));
    index.insert(&[0x12], 1).expect("insert");
    assert_eq!(index.flush_check(), Ok(true));
}

#[test]
fn test_flush_in_steps() {
    let mut file: Vec<u8> = Vec::new();
    let mut index = Index::open(file.clone(), 0, false).expect("open");
    index.insert(&[], 55).expect("insert");
    let (bytes, root) = index.flush_bytes(0).expect("bytes");
    assert_eq!(
        bytes,
        vec![
            0, 4, 55, 0, 2, 0, 0, 0, 0, 0, 0, 0, 0, 0, 0, 0, 0, 0, 0, 0, 0, 1, 1, 4, 3
        ]
    );
    assert_eq!(root, 22);
    file.extend_from_slice(&bytes);
    index.flush_done(file.clone(), 25).expect("done");
    assert_eq!(
        index.fmt(),
        "Index { len: 25, root: Disk[4] }\n\
         Disk[1]: Link { value: 55, next: None }\n\
         Disk[4]: Radix { link: Disk[1] }\n\
         Disk[22]: Root { radix: Disk[4] }\n"
    );
}

#[test]
fn test_flush_done_wrong_length() {
    let mut file: Vec<u8> = Vec::new();
    let mut index = Index::open(file.clone(), 0, false).expect("open");
    index.insert(&[], 55).expect("insert");
    let (bytes, _) = index.flush_bytes(0).expect("bytes");
    file.extend_from_slice(&bytes);
    file.push(0);
    assert_eq!(
        index.flush_done(file.clone(), 25),
        Err(IndexError::UnexpectedEof)
    );
    // The changes still wait.
    assert_eq!(index.flush_check(), Ok(true));
    assert_eq!(
        index.get(&[]).expect("get").value(&index).expect("value"),
        55
    );
}

#[test]
fn test_flush_only_appends() {
    let mut file: Vec<u8> = Vec::new();
    let mut index = Index::open(file.clone(), 0, false).expect("open");
    index.insert(&[0x12, 0x34], 5).expect("insert");
    index.insert(&[0x12, 0x78], 7).expect("insert");
    index.flush(&mut file).expect("flush");
    let first = file.clone();
    index.insert(&[0x12], 9).expect("insert");
    index.insert(&[0x12, 0x34], 6).expect("insert");
    let root = index.flush(&mut file).expect("flush");
    assert!(file.len() > first.len());
    assert_eq!(&file[..first.len()], &first[..]);
    assert_eq!(root as usize, file.len() - file[file.len() - 1] as usize);
    assert_eq!(file[root as usize], 1);
}

#[test]
fn test_old_roots_stay() {
    let mut file: Vec<u8> = Vec::new();
    let mut index = Index::open(file.clone(), 0, false).expect("open");
    index.insert(&[0x12], 1).expect("insert");
    let first = index.flush(&mut file).expect("flush");
    index.insert(&[0x12], 2).expect("insert");
    index.insert(&[0x34], 3).expect("insert");
    let second = index.flush(&mut file).expect("flush");

    let old = Index::open(file.clone(), first, true).expect("open");
    assert_eq!(
        old.get(&[0x12]).expect("get").value(&old).expect("value"),
        1
    );
    assert!(old.get(&[0x34]).expect("get").is_null());

    let new = Index::open(file.clone(), second, true).expect("open");
    assert_eq!(
        new.get(&[0x12]).expect("get").value(&new).expect("value"),
        2
    );
    assert_eq!(
        new.get(&[0x34]).expect("get").value(&new).expect("value"),
        3
    );
}

#[test]
fn test_snapshot_stays() {
    let mut file: Vec<u8> = Vec::new();
    let mut writer = Index::open(file.clone(), 0, false).expect("open");
    writer.insert(&[0x12], 1).expect("insert");
    writer.flush(&mut file).expect("flush");

    let reader = Index::open(file.clone(), 0, true).expect("open");
    let text = reader.fmt();
    let link = reader.get(&[0x12]).expect("get");

    writer.insert(&[0x12], 2).expect("insert");
    writer.insert(&[0x56], 3).expect("insert");
    writer.flush(&mut file).expect("flush");

    assert_eq!(reader.fmt(), text);
    assert_eq!(reader.get(&[0x12]).expect("get"), link);
    assert_eq!(link.value(&reader).expect("value"), 1);
    assert!(reader.get(&[0x56]).expect("get").is_null());

    // A reader that takes in the longer file finds what it found.
    let longer = reader.clone(file.clone()).expect("clone");
    assert_eq!(longer.get(&[0x12]).expect("get"), link);
    assert_eq!(link.value(&longer).expect("value"), 1);
    assert!(longer.get(&[0x56]).expect("get").is_null());

    // A reader that opens the file again finds the new values.
    let again = Index::open(file.clone(), 0, true).expect("open");
    assert_eq!(
        again.get(&[0x12]).expect("get").value(&again).expect("value"),
        2
    );
}

#[test]
fn test_clone_of_shorter_file() {
    let mut file: Vec<u8> = Vec::new();
    let mut index = Index::open(file.clone(), 0, false).expect("open");
    index.insert(&[0x12], 1).expect("insert");
    index.flush(&mut file).expect("flush");
    let shorter = file[..file.len() - 1].to_vec();
    assert!(matches!(index.clone(shorter), Err(IndexError::CorruptData)));
    assert!(index.clone(file.clone()).is_ok());
}

#[test]
fn test_open_not_an_index() {
    assert!(matches!(
        Index::open(vec![0, 9, 9, 9], 0, false),
        Err(IndexError::CorruptData)
    ));
    assert!(matches!(
        Index::open(vec![0], 0, false),
        Err(IndexError::CorruptData)
    ));
    assert!(matches!(
        Index::open(Vec::new(), 5, false),
        Err(IndexError::CorruptData)
    ));
}

#[test]
fn test_open_root_with_wrong_length() {
    let mut file: Vec<u8> = Vec::new();
    let mut index = Index::open(file.clone(), 0, false).expect("open");
    index.flush(&mut file).expect("flush");
    assert_eq!(&file[19..], &[1, 1, 3]);
    let last = file.len() - 1;
    file[last] = 4;
    assert!(matches!(
        Index::open(file.clone(), 19, false),
        Err(IndexError::CorruptData)
    ));
    assert!(matches!(
        Index::open(file.clone(), 0, false),
        Err(IndexError::CorruptData)
    ));
}

#[test]
fn test_open_root_that_names_no_radix() {
    // A root entry whose offset names the header.
    let file: Vec<u8> = vec![0, 1, 0, 3];
    let index = Index::open(file.clone(), 1, false).expect("open");
    assert!(index.get(&[0x12]).expect("get").is_null());
    // A root entry whose offset names a root entry.
    let file: Vec<u8> = vec![0, 1, 1, 3];
    assert!(matches!(
        Index::open(file, 1, false),
        Err(IndexError::CorruptData)
    ));
}

#[test]
fn test_get_in_broken_file() {
    let mut file: Vec<u8> = Vec::new();
    let mut index = Index::open(file.clone(), 0, false).expect("open");
    index.insert(&[0x12], 1).expect("insert");
    let root = index.flush(&mut file).expect("flush");
    // The leaf becomes a key entry.
    let leaf = file.iter().position(|b| *b == 3).expect("leaf");
    file[leaf] = 5;
    let mut broken = Index::open(file.clone(), root, false).expect("open");
    assert_eq!(broken.get(&[0x12]), Err(IndexError::CorruptData));
    assert_eq!(broken.insert(&[0x12], 2), Err(IndexError::CorruptData));
    assert!(broken.get(&[0x34]).expect("get").is_null());
}

#[test]
fn test_absent_key_after_flush() {
    let mut file: Vec<u8> = Vec::new();
    let mut index = Index::open(file.clone(), 0, false).expect("open");
    index.insert(&[0x12], 1).expect("insert");
    index.insert(&[0x12, 0x34], 2).expect("insert");
    index.flush(&mut file).expect("flush");
    assert!(index.get(&[0x00]).expect("get").is_null());
    assert!(index.get(&[0x13]).expect("get").is_null());
    assert!(index.get(&[0x12, 0x35]).expect("get").is_null());
    assert!(index.get(&[]).expect("get").is_null());
}

#[test]
fn test_jump_tables_lead_to_children() {
    let mut file: Vec<u8> = Vec::new();
    let mut index = Index::open(file.clone(), 0, false).expect("open");
    for key in [vec![0x12, 0x34], vec![0x12, 0x78], vec![0x9a], vec![]] {
        index.insert(&key, 1).expect("insert");
    }
    index.flush(&mut file).expect("flush");
    index.insert(&[0x12, 0x34, 0x56], 2).expect("insert");
    index.flush(&mut file).expect("flush");

    let mut radixes = 0;
    for at in 1..file.len() {
        if file[at] != 2 {
            continue;
        }
        let entry = match MemRadix::read_from(&file, at as u64) {
            Ok(entry) => entry,
            Err(_) => continue,
        };
        radixes += 1;
        for i in 0..16 {
            let jump = file[at + 1 + i] as usize;
            assert_eq!(jump == 0, entry.offsets[i].is_null());
            if jump != 0 {
                let (child, _) = read_vlq_at(&file, at + jump).expect("child");
                assert_eq!(child, entry.offsets[i].to_u64());
                let tag = file[child as usize];
                assert!(tag == 2 || tag == 3);
            }
        }
    }
    assert!(radixes >= 4);
}

#[test]
fn test_root_holds_its_length() {
    let mut file: Vec<u8> = Vec::new();
    let mut index = Index::open(file.clone(), 0, false).expect("open");
    let mut roots = Vec::new();
    for round in 0..200u64 {
        index.insert(&round.to_be_bytes(), round).expect("insert");
        let start = index.flush(&mut file).expect("flush") as usize;
        roots.push((start, file.len()));
    }
    for (start, end) in roots {
        assert_eq!(file[start], 1);
        let (len, size) = read_vlq_at(&file, end - 1).expect("length");
        assert_eq!(size, 1);
        assert_eq!(len as usize, end - start);
        assert!(MemRoot::read_from(&file, start as u64).is_ok());
        assert_eq!(
            MemRoot::read_from_end(&file, end as u64),
            MemRoot::read_from(&file, start as u64)
        );
    }
}

#[test]
fn test_null_offsets_name_nothing() {
    // A file whose first byte looks like a link entry.
    let mut file: Vec<u8> = vec![4, 5, 0, 2];
    file.resize(21, 0);
    file.extend_from_slice(&[1, 3, 3]);
    let index = Index::open(file.clone(), 21, true).expect("open");
    let link = index.get(&[0x12]).expect("get");
    assert!(link.is_null());
    assert_eq!(link.value(&index), Err(IndexError::CorruptData));
    assert_eq!(link.next_link_offset(&index), Err(IndexError::CorruptData));
}

#[test]
fn test_staging_after_insertions() {
    let mut file: Vec<u8> = Vec::new();
    let mut index = Index::open(file.clone(), 0, false).expect("open");
    index.insert(&[], 55).expect("insert");
    index.insert(&[0x12], 77).expect("insert");
    assert_eq!(index.flush(&mut file).expect("flush"), 32);
    assert_eq!(file.len(), 35);

    // Nothing changes for the key, and still the way to it is staged.
    assert_eq!(index.flush_check(), Ok(false));
    index.insert_advanced(&[0x12], None, None).expect("insert");
    assert_eq!(index.flush_check(), Ok(true));
    assert_eq!(
        index.fmt(),
        "Index { len: 35, root: Radix[0] }\n\
         Disk[1]: Key { key: 12 }\n\
         Disk[4]: Link { value: 55, next: None }\n\
         Disk[7]: Link { value: 77, next: None }\n\
         Disk[10]: Leaf { key: Disk[1], link: Disk[7] }\n\
         Disk[13]: Radix { link: Disk[4], 1: Disk[10] }\n\
         Disk[32]: Root { radix: Disk[13] }\n\
         Radix[0]: Radix { link: Disk[4], 1: Leaf[0] }\n\
         Leaf[0]: Leaf { key: Disk[1], link: Disk[7] }\n"
    );
}
