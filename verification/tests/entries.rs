use std::collections::HashMap;

use indexedlog::base16::Base16Iter;
use indexedlog::entry::check_type;
use indexedlog::entry::MemKey;
use indexedlog::entry::MemLeaf;
use indexedlog::entry::MemLink;
use indexedlog::entry::MemRadix;
use indexedlog::entry::MemRoot;
use indexedlog::error::IndexError;
use indexedlog::offset::KeyOffset;
use indexedlog::offset::LeafOffset;
use indexedlog::offset::LinkOffset;
use indexedlog::offset::Offset;
use indexedlog::offset::RadixOffset;
use indexedlog::offset::TypedOffset;
use indexedlog::offset::DIRTY_OFFSET;
use indexedlog::vlq::read_vlq_at;

#[test]
fn test_vlq_read() {
    let c = [120u8, 211, 171, 202, 220, 84, 255];
    assert_eq!(read_vlq_at(&c, 0), Some((120, 1)));
    assert_eq!(read_vlq_at(&c, 1), Some((22742734291, 5)));
    assert_eq!(read_vlq_at(&c, 6), None);
    assert_eq!(read_vlq_at(&c, 7), None);
    assert_eq!(read_vlq_at(&c, 100), None);
}

#[test]
fn test_vlq_read_limits() {
    let max = [255u8, 255, 255, 255, 255, 255, 255, 255, 255, 1];
    assert_eq!(read_vlq_at(&max, 0), Some((u64::MAX, 10)));
    let over = [255u8, 255, 255, 255, 255, 255, 255, 255, 255, 2];
    assert_eq!(read_vlq_at(&over, 0), None);
    let long = [128u8, 128, 128, 128, 128, 128, 128, 128, 128, 128, 0];
    assert_eq!(read_vlq_at(&long, 0), None);
    let padded = [128u8, 0];
    assert_eq!(read_vlq_at(&padded, 0), Some((0, 2)));
}

#[test]
fn test_vlq_written() {
    let none: HashMap<u64, u64> = HashMap::new();
    let mut out = vec![9u8];
    let link = MemLink {
        value: 22742734291,
        next_link_offset: LinkOffset::new_null(),
    };
    link.write_to(&mut out, &none);
    assert_eq!(out, vec![9, 4, 211, 171, 202, 220, 84, 0]);

    let mut out = Vec::new();
    let link = MemLink {
        value: u64::MAX,
        next_link_offset: LinkOffset::new_null(),
    };
    link.write_to(&mut out, &none);
    assert_eq!(
        out,
        vec![4, 255, 255, 255, 255, 255, 255, 255, 255, 255, 1, 0]
    );
}

#[test]
fn test_offset_kinds() {
    let null = Offset::new_null();
    assert!(null.is_null());
    assert!(!null.is_dirty());
    assert_eq!(null.to_u64(), 0);

    let disk = Offset::from_disk(7).expect("disk");
    assert!(!disk.is_null());
    assert!(!disk.is_dirty());
    assert_eq!(disk.to_u64(), 7);

    assert_eq!(Offset::from_disk(DIRTY_OFFSET), Err(IndexError::CorruptData));
    assert_eq!(Offset::from_disk(u64::MAX), Err(IndexError::CorruptData));
    assert!(Offset::from_disk(DIRTY_OFFSET - 1).is_ok());

    let dirty = RadixOffset::from_dirty_index(3).to_offset();
    assert!(dirty.is_dirty());
    assert!(!dirty.is_null());
    assert_eq!(dirty.to_u64(), (1u64 << 63) + 3 * 8 + 2);
    assert_eq!(dirty.dirty_index(), 3);
}

#[test]
fn test_dirty_offsets_hold_index_and_type() {
    assert_eq!(
        RadixOffset::from_dirty_index(0).to_offset().to_u64(),
        DIRTY_OFFSET + 2
    );
    assert_eq!(
        LeafOffset::from_dirty_index(1).to_offset().to_u64(),
        DIRTY_OFFSET + 8 + 3
    );
    assert_eq!(
        LinkOffset::from_dirty_index(2).to_offset().to_u64(),
        DIRTY_OFFSET + 16 + 4
    );
    assert_eq!(
        KeyOffset::from_dirty_index(5).to_offset().to_u64(),
        DIRTY_OFFSET + 40 + 5
    );
    assert_eq!(KeyOffset::from_dirty_index(5).dirty_index(), 5);
    assert_eq!(RadixOffset::type_int(), 2);
    assert_eq!(LeafOffset::type_int(), 3);
    assert_eq!(LinkOffset::type_int(), 4);
    assert_eq!(KeyOffset::type_int(), 5);
}

#[test]
fn test_offset_to_disk() {
    let mut map: HashMap<u64, u64> = HashMap::new();
    let dirty = LeafOffset::from_dirty_index(1).to_offset();
    map.insert(dirty.to_u64(), 42);
    assert_eq!(dirty.to_disk(&map), 42);
    assert_eq!(Offset::from_disk(7).expect("disk").to_disk(&map), 7);
    assert_eq!(Offset::new_null().to_disk(&map), 0);
}

#[test]
fn test_offset_types() {
    let buf = [0u8, 2, 3, 4, 5, 1, 9];
    let at = |v: u64| Offset::from_disk(v).expect("disk");
    assert_eq!(at(1).type_int(&buf), Ok(2));
    assert_eq!(at(6).type_int(&buf), Ok(9));
    assert_eq!(at(7).type_int(&buf), Err(IndexError::CorruptData));
    assert_eq!(Offset::new_null().type_int(&buf), Err(IndexError::CorruptData));
    assert_eq!(LinkOffset::from_dirty_index(9).to_offset().type_int(&buf), Ok(4));

    assert!(matches!(at(1).to_typed(&buf), Ok(TypedOffset::Radix(_))));
    assert!(matches!(at(2).to_typed(&buf), Ok(TypedOffset::Leaf(_))));
    assert!(matches!(at(3).to_typed(&buf), Ok(TypedOffset::Link(_))));
    assert!(matches!(at(4).to_typed(&buf), Ok(TypedOffset::Key(_))));
    assert!(at(5).to_typed(&buf).is_err());
    assert!(at(6).to_typed(&buf).is_err());
    assert!(Offset::new_null().to_typed(&buf).is_err());
    assert!(matches!(
        KeyOffset::from_dirty_index(0).to_offset().to_typed(&buf),
        Ok(TypedOffset::Key(_))
    ));
}

#[test]
fn test_typed_offset_from_offset() {
    let buf = [0u8, 2, 3, 4, 5];
    let at = |v: u64| Offset::from_disk(v).expect("disk");
    assert!(RadixOffset::from_offset(at(1), &buf).is_ok());
    assert_eq!(
        RadixOffset::from_offset(at(2), &buf),
        Err(IndexError::CorruptData)
    );
    assert!(LeafOffset::from_offset(at(2), &buf).is_ok());
    assert!(LinkOffset::from_offset(at(3), &buf).is_ok());
    assert!(KeyOffset::from_offset(at(4), &buf).is_ok());
    assert_eq!(
        KeyOffset::from_offset(at(9), &buf),
        Err(IndexError::CorruptData)
    );
    // The null offset fits every type.
    assert!(RadixOffset::from_offset(Offset::new_null(), &buf)
        .expect("null")
        .is_null());
    assert!(LinkOffset::from_offset(Offset::new_null(), &buf).is_ok());
    // A dirty offset has its type in it.
    let dirty = LinkOffset::from_dirty_index(1).to_offset();
    assert!(LinkOffset::from_offset(dirty, &buf).is_ok());
    assert_eq!(
        LeafOffset::from_offset(dirty, &buf),
        Err(IndexError::CorruptData)
    );
    assert_eq!(
        LinkOffset::from_disk(dirty.to_u64(), &buf),
        Err(IndexError::CorruptData)
    );
}

#[test]
fn test_check_type() {
    let buf = [0u8, 2, 3];
    assert_eq!(check_type(&buf, 1, 2), Ok(()));
    assert_eq!(check_type(&buf, 1, 3), Err(IndexError::CorruptData));
    assert_eq!(check_type(&buf, 3, 2), Err(IndexError::CorruptData));
}

#[test]
fn test_leaf_bytes() {
    let mut map: HashMap<u64, u64> = HashMap::new();
    let key = KeyOffset::from_dirty_index(0);
    let link = LinkOffset::from_dirty_index(1);
    map.insert(key.to_offset().to_u64(), 1);
    map.insert(link.to_offset().to_u64(), 300);
    let leaf = MemLeaf {
        key_offset: key,
        link_offset: link,
    };
    // A key entry at 1 and, further on, a link entry at 300.
    let mut file = vec![0u8, 5, 0];
    file.resize(300, 0);
    file.extend_from_slice(&[4, 7, 0]);
    let at = file.len() as u64;
    leaf.write_to(&mut file, &map);
    assert_eq!(&file[at as usize..], &[3, 1, 172, 2]);

    let read = MemLeaf::read_from(&file, at).expect("read");
    assert_eq!(read.key_offset.to_offset().to_u64(), 1);
    assert_eq!(read.link_offset.to_offset().to_u64(), 300);

    assert_eq!(MemLeaf::read_from(&file, 1), Err(IndexError::CorruptData));
    assert_eq!(MemLeaf::read_from(&file, at + 9), Err(IndexError::CorruptData));
    // A leaf whose link names a key entry.
    file.extend_from_slice(&[3, 1, 1]);
    assert_eq!(MemLeaf::read_from(&file, at + 4), Err(IndexError::CorruptData));
}

#[test]
fn test_link_bytes() {
    let none: HashMap<u64, u64> = HashMap::new();
    let mut file = vec![0u8];
    let first = MemLink {
        value: 55,
        next_link_offset: LinkOffset::new_null(),
    };
    first.write_to(&mut file, &none);
    assert_eq!(file, vec![0, 4, 55, 0]);
    let second = MemLink {
        value: 200,
        next_link_offset: LinkOffset::from_disk(1, &file).expect("link"),
    };
    second.write_to(&mut file, &none);
    assert_eq!(file, vec![0, 4, 55, 0, 4, 200, 1, 1]);
    assert_eq!(MemLink::read_from(&file, 1), Ok(first));
    assert_eq!(MemLink::read_from(&file, 4), Ok(second));
    assert_eq!(MemLink::read_from(&file, 2), Err(IndexError::CorruptData));
    assert_eq!(MemLink::read_from(&file[..7], 4), Err(IndexError::CorruptData));
}

#[test]
fn test_key_bytes() {
    let none: HashMap<u64, u64> = HashMap::new();
    let mut file = vec![0u8];
    let key = MemKey {
        key: vec![0x12, 0x34, 0xff],
    };
    key.write_to(&mut file, &none);
    assert_eq!(file, vec![0, 5, 3, 0x12, 0x34, 0xff]);
    assert_eq!(MemKey::read_from(&file, 1).expect("read").key, key.key);
    assert_eq!(MemKey::locate(&file, 1), Ok((3, 6)));
    assert!(MemKey::read_from(&file[..5], 1).is_err());
    assert!(MemKey::read_from(&file, 0).is_err());

    let empty = MemKey { key: Vec::new() };
    let at = file.len() as u64;
    empty.write_to(&mut file, &none);
    assert_eq!(&file[at as usize..], &[5, 0]);
    assert!(MemKey::read_from(&file, at).expect("read").key.is_empty());
}

#[test]
fn test_root_bytes() {
    let mut map: HashMap<u64, u64> = HashMap::new();
    let radix = RadixOffset::from_dirty_index(0);
    map.insert(radix.to_offset().to_u64(), 1);
    let root = MemRoot {
        radix_offset: radix,
    };
    let mut file = vec![0u8, 2];
    file.resize(19, 0);
    root.write_to(&mut file, &map);
    assert_eq!(&file[19..], &[1, 1, 3]);
    let read = MemRoot::read_from(&file, 19).expect("read");
    assert_eq!(read.radix_offset.to_offset().to_u64(), 1);
    assert_eq!(MemRoot::read_from_end(&file, 22), Ok(read));
    assert_eq!(MemRoot::read_from_end(&file, 21), Err(IndexError::CorruptData));
    assert_eq!(MemRoot::read_from_end(&file, 1), Err(IndexError::CorruptData));
    assert_eq!(MemRoot::read_from_end(&file, 0), Err(IndexError::CorruptData));
    assert_eq!(MemRoot::read_from(&file, 1), Err(IndexError::CorruptData));
}

#[test]
fn test_radix_bytes() {
    let mut map: HashMap<u64, u64> = HashMap::new();
    let leaf = LeafOffset::from_dirty_index(0).to_offset();
    let link = LinkOffset::from_dirty_index(0);
    map.insert(leaf.to_u64(), 200);
    map.insert(link.to_offset().to_u64(), 1);
    let mut radix = MemRadix::new();
    radix.link_offset = link;
    radix.offsets[1] = leaf;
    radix.offsets[15] = Offset::from_disk(4).expect("disk");

    let mut file = vec![0u8, 4, 7, 0, 3];
    let at = file.len();
    radix.write_to(&mut file, &map);
    assert_eq!(
        &file[at..],
        &[2, 0, 18, 0, 0, 0, 0, 0, 0, 0, 0, 0, 0, 0, 0, 0, 20, 1, 200, 1, 4]
    );

    let read = MemRadix::read_from(&file, at as u64).expect("read");
    assert_eq!(read.link_offset.to_offset().to_u64(), 1);
    for i in 0..16 {
        let expected = match i {
            1 => 200,
            15 => 4,
            _ => 0,
        };
        assert_eq!(read.offsets[i].to_u64(), expected);
    }

    // A jump table that does not say where the child is.
    let mut wrong = file.clone();
    wrong[at + 2] = 19;
    assert!(MemRadix::read_from(&wrong, at as u64).is_err());
    // A child that is cut off.
    assert!(MemRadix::read_from(&file[..file.len() - 1], at as u64).is_err());
    // A link that names no link entry.
    let mut wrong = file.clone();
    wrong[at + 17] = 4;
    assert!(MemRadix::read_from(&wrong, at as u64).is_err());
    assert!(MemRadix::read_from(&file, 1).is_err());
}

#[test]
fn test_entry_texts() {
    let mut radix = MemRadix::new();
    assert_eq!(radix.fmt(), "Radix { link: None }");
    radix.link_offset = LinkOffset::from_dirty_index(12);
    radix.offsets[0] = Offset::from_disk(1000).expect("disk");
    radix.offsets[10] = LeafOffset::from_dirty_index(3).to_offset();
    radix.offsets[15] = RadixOffset::from_dirty_index(0).to_offset();
    assert_eq!(
        radix.fmt(),
        "Radix { link: Link[12], 0: Disk[1000], 10: Leaf[3], 15: Radix[0] }"
    );
    let leaf = MemLeaf {
        key_offset: KeyOffset::from_dirty_index(1),
        link_offset: LinkOffset::new_null(),
    };
    assert_eq!(leaf.fmt(), "Leaf { key: Key[1], link: None }");
    let link = MemLink {
        value: u64::MAX,
        next_link_offset: LinkOffset::from_dirty_index(0),
    };
    assert_eq!(
        link.fmt(),
        "Link { value: 18446744073709551615, next: Link[0] }"
    );
    let key = MemKey {
        key: vec![0x00, 0x0a, 0xab, 0xff],
    };
    assert_eq!(key.fmt(), "Key { key: 0 A AB FF }");
    assert_eq!(MemKey { key: Vec::new() }.fmt(), "Key { key: }");
    let root = MemRoot {
        radix_offset: RadixOffset::from_dirty_index(7),
    };
    assert_eq!(root.fmt(), "Root { radix: Radix[7] }");
    assert_eq!(Offset::new_null().fmt(), "None");
    assert_eq!(Offset::from_disk(10).expect("disk").fmt(), "Disk[10]");
    assert_eq!(KeyOffset::from_dirty_index(2).to_offset().fmt(), "Key[2]");
}

#[test]
fn test_base16() {
    let key = [0x12u8, 0xab];
    let mut iter = Base16Iter::from_base256(&key);
    assert!(iter.at_start());
    assert_eq!(iter.next(), Some(1));
    assert!(!iter.at_start());
    assert_eq!(iter.next(), Some(2));

    let other = [0x00u8, 0x34, 0x56];
    let mut skipped = iter.skip_same(&other);
    assert_eq!(skipped.next(), Some(3));
    assert_eq!(skipped.next(), Some(4));
    assert_eq!(skipped.next(), Some(5));
    assert_eq!(skipped.next(), Some(6));
    assert_eq!(skipped.next(), None);

    assert_eq!(iter.next(), Some(10));
    assert_eq!(iter.next(), Some(11));
    assert_eq!(iter.next(), None);
    assert_eq!(iter.next(), None);

    let short = [0x99u8];
    let mut past = iter.skip_same(&short);
    assert_eq!(past.next(), None);

    let mut none = Base16Iter::from_base256(&[]);
    assert_eq!(none.next(), None);
}

#[test]
fn test_text_of_broken_file() {
    let index = indexedlog::index::Index::open(vec![0, 2, 0, 1, 1, 3], 3, true).expect("open");
    assert_eq!(
        index.fmt(),
        "Index { len: 6, root: Disk[1] }\n\
         Disk[1]: Broken Data!\n"
    );

    let mut file: Vec<u8> = Vec::new();
    let mut index = indexedlog::index::Index::open(file.clone(), 0, false).expect("open");
    index.flush(&mut file).expect("flush");
    file.push(9);
    let index = indexedlog::index::Index::open(file.clone(), 19, true).expect("open");
    assert_eq!(
        index.fmt(),
        "Index { len: 23, root: Disk[1] }\n\
         Disk[1]: Radix { link: None }\n\
         Disk[19]: Root { radix: Disk[1] }\n\
         Disk[22]: Broken Data!\n\
         Inconsistent Data!\n"
    );
}
