//! The index: lookups, insertions and the bytes of a flush.

use vstd::prelude::*;
use vstd::slice::slice_subrange;
use crate::base16::Base16Iter;
use crate::base16::nibble;
use crate::base16::nibble_count;
use crate::entry::MemKey;
use crate::entry::MemLeaf;
use crate::entry::MemLink;
use crate::entry::MemRadix;
use crate::entry::MemRoot;
use crate::entry::check_type;
use crate::entry::position;
use crate::error::IndexError;
use crate::error::ok_or_corrupt;
use crate::offset::JUMPTABLE_BYTES;
use crate::offset::KeyOffset;
use crate::offset::LeafOffset;
use crate::offset::LinkOffset;
use crate::offset::MAX_DIRTY_INDEX;
use crate::offset::Offset;
use crate::offset::RadixOffset;
use crate::offset::TYPE_BYTES;
use crate::offset::TYPE_LINK;
use crate::offset::TYPE_RADIX;
use crate::offset::TypedOffset;
use crate::state::IndexView;
use crate::state::mapped;
use crate::state::openable;
use crate::state::opened;
use crate::sound::key_prefix;
use crate::split::Split;
use crate::walk::Walk;
use crate::vlq::read_vlq_at;

verus! {

/// An index over the bytes of a file, with the entries that wait for the
/// next flush.
pub struct Index {
    pub(crate) buf: Vec<u8>,
    pub(crate) read_only: bool,
    pub(crate) root: MemRoot,
    pub(crate) dirty_radixes: Vec<MemRadix>,
    pub(crate) dirty_leafs: Vec<MemLeaf>,
    pub(crate) dirty_links: Vec<MemLink>,
    pub(crate) dirty_keys: Vec<MemKey>,
}

/// The place in a vector of `len` staged entries that a dirty offset's index
/// names, where there is one.
pub(crate) fn slot(index: u64, len: usize) -> (r: Option<usize>)
    ensures
        r is Some <==> index < len,
        r matches Some(i) ==> i == index,
{
    if index < len as u64 {
        Some(index as usize)
    } else {
        None
    }
}

/// Whether two slices hold the same bytes.
pub(crate) fn same_bytes(a: &[u8], b: &[u8]) -> (r: bool)
    ensures
        r == (a@ == b@),
{
    if a.len() != b.len() {
        return false;
    }
    let mut i: usize = 0;
    while i < a.len()
        invariant
            i <= a@.len(),
            a@.len() == b@.len(),
            a@.take(i as int) == b@.take(i as int),
        decreases a@.len() - i,
    {
        if a[i] != b[i] {
            assert(a@[i as int] != b@[i as int]);
            return false;
        }
        assert(a@.take(i + 1) =~= a@.take(i as int).push(a@[i as int]));
        assert(b@.take(i + 1) =~= b@.take(i as int).push(b@[i as int]));
        i += 1;
    }
    assert(a@.take(i as int) =~= a@);
    assert(b@.take(i as int) =~= b@);
    true
}

impl RadixOffset {
    /// The link offset of the radix entry.
    pub fn link_offset(self, index: &Index) -> (r: Result<LinkOffset, IndexError>)
        ensures
            r == ok_or_corrupt(index@.radix_link(self)),
    {
        if self.is_null() {
            return Err(IndexError::CorruptData);
        }
        if self.is_dirty() {
            match slot(self.dirty_index(), index.dirty_radixes.len()) {
                Some(i) => Ok(index.dirty_radixes[i].link_offset),
                None => Err(IndexError::CorruptData),
            }
        } else {
            let buf = index.buf.as_slice();
            let pos = match position(buf, self.to_offset().to_u64()) {
                Some(p) => p,
                None => { return Err(IndexError::CorruptData); },
            };
            if check_type(buf, pos, TYPE_RADIX).is_err() {
                return Err(IndexError::CorruptData);
            }
            if buf.len() - pos < TYPE_BYTES + JUMPTABLE_BYTES {
                return Err(IndexError::CorruptData);
            }
            let (v, _) = match read_vlq_at(buf, pos + TYPE_BYTES + JUMPTABLE_BYTES) {
                Some(x) => x,
                None => { return Err(IndexError::CorruptData); },
            };
            LinkOffset::from_disk(v, buf)
        }
    }

    /// Child `i` of the radix entry: the stored offset, or the null offset
    /// where the entry has no such child.
    pub fn child(self, index: &Index, i: u8) -> (r: Result<Offset, IndexError>)
        requires
            i < 16,
        ensures
            r == ok_or_corrupt(index@.radix_child(self, i as int)),
    {
        if self.is_null() {
            return Err(IndexError::CorruptData);
        }
        if self.is_dirty() {
            match slot(self.dirty_index(), index.dirty_radixes.len()) {
                Some(at) => Ok(index.dirty_radixes[at].offsets[i as usize]),
                None => Err(IndexError::CorruptData),
            }
        } else {
            let buf = index.buf.as_slice();
            let pos = match position(buf, self.to_offset().to_u64()) {
                Some(p) => p,
                None => { return Err(IndexError::CorruptData); },
            };
            if check_type(buf, pos, TYPE_RADIX).is_err() {
                return Err(IndexError::CorruptData);
            }
            if buf.len() - pos <= TYPE_BYTES + i as usize {
                return Err(IndexError::CorruptData);
            }
            let jump: u8 = buf[pos + TYPE_BYTES + i as usize];
            if jump == 0 {
                return Ok(Offset::new_null());
            }
            if buf.len() - pos <= jump as usize {
                return Err(IndexError::CorruptData);
            }
            let (v, _) = match read_vlq_at(buf, pos + jump as usize) {
                Some(x) => x,
                None => { return Err(IndexError::CorruptData); },
            };
            Offset::from_disk(v)
        }
    }
}

impl RadixOffset {
    /// Copies an on-disk radix entry to memory so that it can be changed.
    /// Returns the offset of the copy, or the offset itself where the entry
    /// is in memory already.
    pub fn copy(self, index: &mut Index) -> (r: Result<RadixOffset, IndexError>)
        requires
            old(index)@.radixes.len() <= MAX_DIRTY_INDEX,
        ensures
            self.spec_is_dirty() ==> r == Ok::<RadixOffset, IndexError>(self) && final(index)@
                == old(index)@,
            !self.spec_is_dirty() ==> match old(index)@.radix_entry(self) {
                Some(entry) => {
                    &&& r == Ok::<RadixOffset, IndexError>(
                        RadixOffset::spec_dirty(old(index)@.radixes.len()),
                    )
                    &&& final(index)@.radixes.len() == old(index)@.radixes.len() + 1
                    &&& final(index)@.radixes.last()@ == entry
                    &&& final(index)@ == old(index)@.push_radix(final(index)@.radixes.last())
                },
                None => r == Err::<RadixOffset, IndexError>(IndexError::CorruptData)
                    && final(index)@ == old(index)@,
            },
    {
        if self.is_null() {
            return Err(IndexError::CorruptData);
        }
        if self.is_dirty() {
            Ok(self)
        } else {
            let entry = MemRadix::read_from(index.buf.as_slice(), self.to_offset().to_u64())?;
            let len = index.dirty_radixes.len();
            index.dirty_radixes.push(entry);
            assert(index@.radixes.last() == entry);
            assert(index@ == old(index)@.push_radix(entry));
            Ok(RadixOffset::from_dirty_index(len))
        }
    }

    /// Changes child `i` of a staged radix entry.
    pub fn set_child(self, index: &mut Index, i: u8, value: Offset)
        requires
            i < 16,
            self.spec_is_dirty(),
            self.spec_dirty_index() < old(index)@.radixes.len(),
        ensures
            final(index)@ == old(index)@.set_child(
                self.spec_dirty_index() as int,
                i as int,
                value,
            ),
    {
        let at: usize = match slot(self.dirty_index(), index.dirty_radixes.len()) {
            Some(at) => at,
            None => { return ; },
        };
        index.dirty_radixes[at].offsets[i as usize] = value;
        proof {
            let a = index@.radixes[at as int];
            let b = old(index)@.set_child(at as int, i as int, value).radixes[at as int];
            assert(a.offsets@ =~= b.offsets@);
            assert(a.offsets == b.offsets);
            assert(index@.radixes =~= old(index)@.set_child(at as int, i as int, value).radixes);
        }
    }

    /// Changes the link offset of a staged radix entry.
    pub fn set_link(self, index: &mut Index, value: LinkOffset)
        requires
            self.spec_is_dirty(),
            self.spec_dirty_index() < old(index)@.radixes.len(),
        ensures
            final(index)@ == old(index)@.set_radix_link(self.spec_dirty_index() as int, value),
    {
        let at: usize = match slot(self.dirty_index(), index.dirty_radixes.len()) {
            Some(at) => at,
            None => { return ; },
        };
        index.dirty_radixes[at].link_offset = value;
        proof {
            assert(index@.radixes =~= old(index)@.set_radix_link(at as int, value).radixes);
        }
    }

    /// Stages a new radix entry.
    pub fn create(index: &mut Index, radix: MemRadix) -> (r: RadixOffset)
        requires
            old(index)@.radixes.len() <= MAX_DIRTY_INDEX,
        ensures
            r == RadixOffset::spec_dirty(old(index)@.radixes.len()),
            final(index)@ == old(index)@.push_radix(radix),
    {
        let len = index.dirty_radixes.len();
        index.dirty_radixes.push(radix);
        RadixOffset::from_dirty_index(len)
    }
}

impl LeafOffset {
    /// Stages a new leaf entry.
    pub fn create(index: &mut Index, link_offset: LinkOffset, key_offset: KeyOffset) -> (r:
        LeafOffset)
        requires
            old(index)@.leafs.len() <= MAX_DIRTY_INDEX,
        ensures
            r == LeafOffset::spec_dirty(old(index)@.leafs.len()),
            final(index)@ == old(index)@.push_leaf(MemLeaf { key_offset, link_offset }),
    {
        let len = index.dirty_leafs.len();
        index.dirty_leafs.push(MemLeaf { link_offset, key_offset });
        LeafOffset::from_dirty_index(len)
    }

    /// Gives the leaf entry another link offset: in place where the entry is
    /// staged, in a staged copy where it is on disk. Returns the offset of
    /// the entry that holds the new link offset.
    pub fn set_link(self, index: &mut Index, link_offset: LinkOffset) -> (r: Result<
        LeafOffset,
        IndexError,
    >)
        requires
            old(index)@.leafs.len() <= MAX_DIRTY_INDEX,
            self.spec_is_dirty() ==> self.spec_dirty_index() < old(index)@.leafs.len(),
        ensures
            self.spec_is_dirty() ==> r == Ok::<LeafOffset, IndexError>(self) && final(index)@
                == old(index)@.set_leaf_link(self.spec_dirty_index() as int, link_offset),
            !self.spec_is_dirty() ==> match old(index)@.leaf_entry(self) {
                Some(entry) => r == Ok::<LeafOffset, IndexError>(
                    LeafOffset::spec_dirty(old(index)@.leafs.len()),
                ) && final(index)@ == old(index)@.push_leaf(
                    MemLeaf { key_offset: entry.key_offset, link_offset },
                ),
                None => r == Err::<LeafOffset, IndexError>(IndexError::CorruptData)
                    && final(index)@ == old(index)@,
            },
    {
        if self.is_null() {
            return Err(IndexError::CorruptData);
        }
        if self.is_dirty() {
            let at: usize = match slot(self.dirty_index(), index.dirty_leafs.len()) {
                Some(at) => at,
                None => { return Ok(self); },
            };
            index.dirty_leafs[at].link_offset = link_offset;
            proof {
                assert(index@.leafs =~= old(index)@.set_leaf_link(at as int, link_offset).leafs);
            }
            Ok(self)
        } else {
            let entry = MemLeaf::read_from(index.buf.as_slice(), self.to_offset().to_u64())?;
            Ok(LeafOffset::create(index, link_offset, entry.key_offset))
        }
    }
}

impl LinkOffset {
    /// Stages a new link entry with `value` that has this link as its next.
    pub fn create(self, index: &mut Index, value: u64) -> (r: LinkOffset)
        requires
            old(index)@.links.len() <= MAX_DIRTY_INDEX,
        ensures
            r == LinkOffset::spec_dirty(old(index)@.links.len()),
            final(index)@ == old(index)@.push_link(MemLink { value, next_link_offset: self }),
    {
        let new_link = MemLink { value, next_link_offset: self };
        let len = index.dirty_links.len();
        index.dirty_links.push(new_link);
        LinkOffset::from_dirty_index(len)
    }
}

impl KeyOffset {
    /// Stages a new key entry.
    pub fn create(index: &mut Index, key: &[u8]) -> (r: KeyOffset)
        requires
            old(index)@.keys.len() <= MAX_DIRTY_INDEX,
        ensures
            r == KeyOffset::spec_dirty(old(index)@.keys.len()),
            final(index)@ == old(index)@.push_key(key@),
    {
        let len = index.dirty_keys.len();
        index.dirty_keys.push(MemKey { key: copy_bytes(key) });
        proof {
            assert(index@.keys =~= old(index)@.push_key(key@).keys);
        }
        KeyOffset::from_dirty_index(len)
    }
}

impl LeafOffset {
    /// The key and link offsets of the leaf entry.
    pub fn key_and_link_offset(self, index: &Index) -> (r: Result<
        (KeyOffset, LinkOffset),
        IndexError,
    >)
        ensures
            match r {
                Ok((k, l)) => index@.leaf_entry(self) == Some(
                    MemLeaf { key_offset: k, link_offset: l },
                ),
                Err(e) => e == IndexError::CorruptData && index@.leaf_entry(self) is None,
            },
    {
        if self.is_null() {
            return Err(IndexError::CorruptData);
        }
        if self.is_dirty() {
            match slot(self.dirty_index(), index.dirty_leafs.len()) {
                Some(i) => {
                    let e = &index.dirty_leafs[i];
                    Ok((e.key_offset, e.link_offset))
                },
                None => Err(IndexError::CorruptData),
            }
        } else {
            let e = MemLeaf::read_from(index.buf.as_slice(), self.to_offset().to_u64())?;
            Ok((e.key_offset, e.link_offset))
        }
    }
}

impl LinkOffset {
    /// The value of the link entry.
    pub fn value(self, index: &Index) -> (r: Result<u64, IndexError>)
        ensures
            r == ok_or_corrupt(index@.link_value(self)),
    {
        if self.is_null() {
            return Err(IndexError::CorruptData);
        }
        if self.is_dirty() {
            match slot(self.dirty_index(), index.dirty_links.len()) {
                Some(i) => Ok(index.dirty_links[i].value),
                None => Err(IndexError::CorruptData),
            }
        } else {
            let buf = index.buf.as_slice();
            let pos = match position(buf, self.to_offset().to_u64()) {
                Some(p) => p,
                None => { return Err(IndexError::CorruptData); },
            };
            if check_type(buf, pos, TYPE_LINK).is_err() {
                return Err(IndexError::CorruptData);
            }
            match read_vlq_at(buf, pos + TYPE_BYTES) {
                Some((value, _)) => Ok(value),
                None => Err(IndexError::CorruptData),
            }
        }
    }

    /// The link that came before this one in its chain: null at the end of
    /// the chain.
    pub fn next_link_offset(self, index: &Index) -> (r: Result<LinkOffset, IndexError>)
        ensures
            r == match index@.link_entry(self) {
                Some(e) => Ok(e.next_link_offset),
                None => Err(IndexError::CorruptData),
            },
    {
        if self.is_null() {
            return Err(IndexError::CorruptData);
        }
        if self.is_dirty() {
            match slot(self.dirty_index(), index.dirty_links.len()) {
                Some(i) => Ok(index.dirty_links[i].next_link_offset),
                None => Err(IndexError::CorruptData),
            }
        } else {
            let e = MemLink::read_from(index.buf.as_slice(), self.to_offset().to_u64())?;
            Ok(e.next_link_offset)
        }
    }
}

impl KeyOffset {
    /// The bytes of the key entry.
    pub fn key_content<'a>(self, index: &'a Index) -> (r: Result<&'a [u8], IndexError>)
        ensures
            match r {
                Ok(k) => index@.key_content(self) == Some(k@),
                Err(e) => e == IndexError::CorruptData && index@.key_content(self) is None,
            },
    {
        if self.is_null() {
            return Err(IndexError::CorruptData);
        }
        if self.is_dirty() {
            match slot(self.dirty_index(), index.dirty_keys.len()) {
                Some(i) => Ok(index.dirty_keys[i].key.as_slice()),
                None => Err(IndexError::CorruptData),
            }
        } else {
            let buf = index.buf.as_slice();
            let (start, end) = MemKey::locate(buf, self.to_offset().to_u64())?;
            Ok(slice_subrange(buf, start, end))
        }
    }
}

/// A copy of a vector of staged entries.
pub(crate) fn copy_entries<T: Copy>(entries: &Vec<T>) -> (r: Vec<T>)
    ensures
        r@ == entries@,
{
    let mut copy: Vec<T> = Vec::with_capacity(entries.len());
    let mut i: usize = 0;
    while i < entries.len()
        invariant
            i <= entries@.len(),
            copy@ == entries@.take(i as int),
        decreases entries@.len() - i,
    {
        copy.push(entries[i]);
        assert(entries@.take(i + 1) =~= entries@.take(i as int).push(entries@[i as int]));
        i += 1;
    }
    assert(entries@.take(i as int) =~= entries@);
    copy
}

/// A copy of the bytes of a slice.
pub(crate) fn copy_bytes(bytes: &[u8]) -> (r: Vec<u8>)
    ensures
        r@ == bytes@,
{
    let mut copy: Vec<u8> = Vec::with_capacity(bytes.len());
    let mut i: usize = 0;
    while i < bytes.len()
        invariant
            i <= bytes@.len(),
            copy@ == bytes@.take(i as int),
        decreases bytes@.len() - i,
    {
        copy.push(bytes[i]);
        assert(bytes@.take(i + 1) =~= bytes@.take(i as int).push(bytes@[i as int]));
        i += 1;
    }
    assert(bytes@.take(i as int) =~= bytes@);
    copy
}

/// The bytes that an index sees of a file.
pub(crate) fn map_file(file: Vec<u8>) -> (r: Vec<u8>)
    ensures
        r@ == mapped(file@),
{
    if file.len() == 0 {
        let mut one: Vec<u8> = Vec::new();
        one.push(0);
        one
    } else {
        file
    }
}

impl Index {
    /// Opens an index on the bytes of a file.
    ///
    /// With `root_offset` 0 the tree starts at the root entry at the end of
    /// the file, and a file without bytes gives an index without keys. With
    /// another `root_offset` the tree starts at the root entry there.
    ///
    /// An index can be changed whether the file can be written or not:
    /// `read_only` only makes a flush fail.
    pub fn open(file: Vec<u8>, root_offset: u64, read_only: bool) -> (r: Result<Index, IndexError>)
        ensures
            match r {
                Ok(index) => index@.wf() && opened(file@, root_offset, read_only, index@),
                Err(e) => e == IndexError::CorruptData && !openable(file@, root_offset),
            },
            r matches Ok(index) ==> (root_offset == 0 && file@.len() == 0 ==> index@.sound()
                && index@.holds_nothing()),
    {
        let len: u64 = file.len() as u64;
        let buf = map_file(file);
        let mut dirty_radixes: Vec<MemRadix> = Vec::new();
        let root = if root_offset == 0 {
            if len == 0 {
                // A file without bytes: the tree is one staged radix entry.
                dirty_radixes.push(MemRadix::new());
                MemRoot { radix_offset: RadixOffset::from_dirty_index(0) }
            } else {
                MemRoot::read_from_end(buf.as_slice(), len)?
            }
        } else {
            MemRoot::read_from(buf.as_slice(), root_offset)?
        };
        let index = Index {
            buf,
            read_only,
            root,
            dirty_radixes,
            dirty_links: Vec::new(),
            dirty_leafs: Vec::new(),
            dirty_keys: Vec::new(),
        };
        proof {
            assert(index@.keys =~= Seq::empty());
            if index@.radixes.len() == 1 {
                assert(index@.radix_ok(0));
                assert(file@ =~= Seq::<u8>::empty());
                index@.law_fresh(read_only);
            }
        }
        Ok(index)
    }

    /// An index of its own on the same file, with the same staged entries.
    /// `file` holds the bytes of the file as they are now; they must be no
    /// fewer than this index sees, since a file only grows.
    pub fn clone(&self, file: Vec<u8>) -> (r: Result<Index, IndexError>)
        ensures
            match r {
                Ok(index) => mapped(file@).len() >= self@.buf.len() && index@ == self@.remapped(
                    file@,
                ),
                Err(e) => e == IndexError::CorruptData && mapped(file@).len() < self@.buf.len(),
            },
            r matches Ok(index) ==> (self@.wf() ==> index@.wf()),
    {
        let buf = map_file(file);
        if buf.len() < self.buf.len() {
            // The file has shrunk.
            return Err(IndexError::CorruptData);
        }
        let mut dirty_keys: Vec<MemKey> = Vec::new();
        let mut i: usize = 0;
        while i < self.dirty_keys.len()
            invariant
                i <= self.dirty_keys@.len(),
                dirty_keys@.len() == i,
                forall|j: int| 0 <= j < i ==> dirty_keys@[j].key@ == self.dirty_keys@[j].key@,
            decreases self.dirty_keys@.len() - i,
        {
            dirty_keys.push(MemKey { key: copy_bytes(self.dirty_keys[i].key.as_slice()) });
            i += 1;
        }
        let index = Index {
            buf,
            read_only: self.read_only,
            root: self.root,
            dirty_keys,
            dirty_leafs: copy_entries(&self.dirty_leafs),
            dirty_links: copy_entries(&self.dirty_links),
            dirty_radixes: copy_entries(&self.dirty_radixes),
        };
        proof {
            assert(index@.keys =~= self@.keys);
            if self@.wf() {
                self@.lemma_wf_remapped(file@);
            }
        }
        Ok(index)
    }

    /// The state of the index.
    pub open(crate) spec fn view(&self) -> IndexView {
        IndexView {
            buf: self.buf@,
            read_only: self.read_only,
            root: self.root.radix_offset,
            radixes: self.dirty_radixes@,
            leafs: self.dirty_leafs@,
            links: self.dirty_links@,
            keys: self.dirty_keys@.map_values(|k: MemKey| k.key@),
        }
    }

    /// Looks `key` up. Returns the head of the chain of its values, or the
    /// null link where the index does not hold the key.
    pub fn get(&self, key: &[u8]) -> (r: Result<LinkOffset, IndexError>)
        ensures
            r == ok_or_corrupt(self@.lookup(key@)),
    {
        let mut offset: Offset = self.root.radix_offset.to_offset();
        let mut iter = Base16Iter::from_base256(key);
        while !offset.is_null()
            invariant
                iter.key() == key@,
                iter.pos() <= nibble_count(key@),
                self@.lookup(key@) == self@.lookup_from(offset, key@, iter.pos()),
            decreases nibble_count(key@) - iter.pos(),
        {
            match offset.to_typed(self.buf.as_slice())? {
                TypedOffset::Radix(radix) => {
                    match iter.next() {
                        None => {
                            return radix.link_offset(self);
                        },
                        Some(x) => {
                            offset = radix.child(self, x)?;
                        },
                    }
                },
                TypedOffset::Leaf(leaf) => {
                    let (key_offset, link_offset) = leaf.key_and_link_offset(self)?;
                    let stored_key = key_offset.key_content(self)?;
                    if same_bytes(stored_key, key) {
                        return Ok(link_offset);
                    } else {
                        return Ok(LinkOffset::new_null());
                    }
                },
                _ => {
                    return Err(IndexError::CorruptData);
                },
            }
        }
        Ok(LinkOffset::new_null())
    }
}

impl Index {
    /// The head that a chain gets: a new link with `value` in front of
    /// `link`, or in front of `link_offset` where no `link` is given; without
    /// a `value`, that link itself.
    pub(crate) fn maybe_create_link_entry(
        &mut self,
        link_offset: LinkOffset,
        value: Option<u64>,
        link: Option<LinkOffset>,
    ) -> (r: LinkOffset)
        requires
            old(self)@.links.len() <= MAX_DIRTY_INDEX,
        ensures
            old(self)@.chained(final(self)@, link_offset, value, link, r),
    {
        let link = match link {
            Some(l) => l,
            None => link_offset,
        };
        match value {
            Some(value) => link.create(self, value),
            None => link,
        }
    }

    /// Whether staging can take the entries that inserting a key of
    /// `key_len` bytes may add.
    pub fn has_room(&self, key_len: usize) -> (r: bool)
        ensures
            r == self@.has_room(key_len as nat),
    {
        let radixes: u128 = self.dirty_radixes.len() as u128 + 2 * (key_len as u128) + 2;
        radixes <= MAX_DIRTY_INDEX as u128 && (self.dirty_leafs.len() as u64) < MAX_DIRTY_INDEX
            && (self.dirty_links.len() as u64) < MAX_DIRTY_INDEX && (self.dirty_keys.len() as u64)
            < MAX_DIRTY_INDEX
    }

    /// Whether `link` is null or names a link entry of this index.
    pub fn link_usable(&self, link: LinkOffset) -> (r: bool)
        ensures
            r == self@.link_usable(link),
    {
        if link.is_null() {
            true
        } else {
            match link.to_offset().type_int(self.buf.as_slice()) {
                Ok(t) => t == TYPE_LINK && (!link.is_dirty() || slot(
                    link.dirty_index(),
                    self.dirty_links.len(),
                ).is_some()),
                Err(_) => false,
            }
        }
    }

    /// Puts `value` in front of the chain of values of `key`.
    ///
    /// Staging must have room for the entries that this may add: `has_room`
    /// tells. In a sound index the insertion succeeds and changes what no
    /// search for another key finds.
    pub fn insert(&mut self, key: &[u8], value: u64) -> (r: Result<(), IndexError>)
        requires
            old(self)@.wf(),
            old(self)@.has_room(key@.len()),
        ensures
            final(self)@.wf(),
            final(self)@.buf == old(self)@.buf,
            final(self)@.read_only == old(self)@.read_only,
            r is Ok <==> old(self)@.insertable(key@, None),
            r is Err ==> r == Err::<(), IndexError>(IndexError::CorruptData) && final(self)@.links
                == old(self)@.links,
            r is Err ==> final(self)@.leafs == old(self)@.leafs && final(self)@.keys
                == old(self)@.keys,
            r is Ok ==> old(self)@.inserts(final(self)@, key@, Some(value), None),
            r is Ok ==> final(self)@.root.spec_is_dirty(),
            final(self)@ == old(self)@.inserted(key@, Some(value), None),
            old(self)@.staging_kept(final(self)@),
            old(self)@.grown_by(final(self)@, key@.len()),
            old(self)@.sound() ==> r is Ok && final(self)@.sound() && old(self)@.agrees_but(
                final(self)@,
                key@,
            ),
    {
        self.insert_advanced(key, Some(value), None)
    }

    /// Changes the chain of values of `key`.
    ///
    /// - With a `value` and no `link`, a new link with `value` goes in front
    ///   of the chain that `key` has.
    /// - With a `link` and no `value`, `key` gets the chain that starts at
    ///   `link`. Keys can share a chain, or the end of one, this way.
    /// - With both, a new link with `value` goes in front of `link`, and `key`
    ///   gets the chain that starts at the new link.
    /// - With neither, the entries on the way to `key` are staged and nothing
    ///   else changes.
    ///
    /// Fails where `link` names no link of this index, or where the way to
    /// `key` leads over bytes that are not those of an index; the file is
    /// never touched. Staging must have room for the entries that this may
    /// add: `has_room` tells.
    pub fn insert_advanced(
        &mut self,
        key: &[u8],
        value: Option<u64>,
        link: Option<LinkOffset>,
    ) -> (r: Result<(), IndexError>)
        requires
            old(self)@.wf(),
            old(self)@.has_room(key@.len()),
        ensures
            final(self)@.wf(),
            final(self)@.buf == old(self)@.buf,
            final(self)@.read_only == old(self)@.read_only,
            r is Ok <==> old(self)@.insertable(key@, link),
            r is Err ==> r == Err::<(), IndexError>(IndexError::CorruptData) && final(self)@.links
                == old(self)@.links,
            r is Err ==> final(self)@.leafs == old(self)@.leafs && final(self)@.keys
                == old(self)@.keys,
            r is Ok ==> old(self)@.inserts(final(self)@, key@, value, link),
            r is Ok ==> final(self)@.root.spec_is_dirty(),
            final(self)@ == old(self)@.inserted(key@, value, link),
            old(self)@.staging_kept(final(self)@),
            old(self)@.grown_by(final(self)@, key@.len()),
            old(self)@.sound() ==> final(self)@.sound() && old(self)@.agrees_but(
                final(self)@,
                key@,
            ),
            old(self)@.sound() && (link matches Some(l) ==> old(self)@.link_usable(l)) ==> r is Ok,
    {
        proof {
            if old(self)@.sound() && (link matches Some(l) ==> old(self)@.link_usable(l)) {
                old(self)@.law_sound_insertable(key@, link);
            }
        }
        let ghost walk = Walk { key: key@, value, link };
        let ghost mut paths: Seq<Seq<u8>> = if old(self)@.sound() {
            choose|p: Seq<Seq<u8>>| old(self)@.sound_with(p)
        } else {
            Seq::empty()
        };
        match link {
            Some(l) => {
                if !self.link_usable(l) {
                    return Err(IndexError::CorruptData);
                }
            },
            None => {},
        }
        let mut offset: Offset = self.root.radix_offset.to_offset();
        let mut iter = Base16Iter::from_base256(key);

        let mut last_radix = RadixOffset::new_null();
        let mut last_child: u8 = 0;
        let ghost mut trail: Seq<int> = Seq::empty();
        proof {
            walk.lemma_begin(self@, paths);
        }

        loop
            invariant
                walk.on_way(old(self)@, self@, trail, offset, paths),
                walk.key == key@,
                walk.value == value,
                walk.link == link,
                iter.key() == key@,
                iter.pos() == trail.len(),
                trail.len() > 0 ==> {
                    &&& last_radix == RadixOffset::spec_dirty(trail.last() as nat)
                    &&& last_child == nibble(key@, trail.len() - 1)
                    &&& last_child < 16
                },
            decreases nibble_count(key@) - iter.pos(),
        {
            let ghost at_head = self@;
            let ghost arrived = offset;
            let typed = match offset.to_typed(self.buf.as_slice()) {
                Ok(typed) => typed,
                Err(e) => {
                    proof {
                        walk.lemma_failed(old(self)@, at_head, trail, arrived, paths);
                    }
                    return Err(e);
                },
            };
            proof {
                if trail.len() > 0 {
                    RadixOffset::lemma_spec_dirty(trail.last() as nat);
                }
            }
            match typed {
                TypedOffset::Radix(radix) => {
                    // Stage the radix entry: it is about to change.
                    let radix = match radix.copy(self) {
                        Ok(radix) => radix,
                        Err(e) => {
                            proof {
                                walk.lemma_failed(old(self)@, at_head, trail, arrived, paths);
                            }
                            return Err(e);
                        },
                    };
                    offset = radix.to_offset();
                    let ghost mid = self@;

                    if iter.at_start() {
                        self.root.radix_offset = radix;
                    } else {
                        last_radix.set_child(self, last_child, offset);
                    }
                    proof {
                        paths =
                        walk.lemma_stage(
                            old(self)@,
                            at_head,
                            mid,
                            self@,
                            radix,
                            trail,
                            arrived,
                            paths,
                        );
                        trail = trail.push(radix.spec_dirty_index() as int);
                    }
                    let ghost staged = self@;
                    last_radix = radix;

                    match iter.next() {
                        None => {
                            let old_link_offset = radix.link_offset(self)?;
                            let new_link_offset = self.maybe_create_link_entry(
                                old_link_offset,
                                value,
                                link,
                            );
                            let ghost linked = self@;
                            radix.set_link(self, new_link_offset);
                            proof {
                                walk.lemma_done_at_radix(
                                    old(self)@,
                                    staged,
                                    linked,
                                    self@,
                                    trail,
                                    paths,
                                    new_link_offset,
                                );
                            }
                            return Ok(());
                        },
                        Some(x) => {
                            let next_offset = radix.child(self, x)?;
                            if next_offset.is_null() {
                                // The key goes further than the tree: it
                                // gets a leaf of its own.
                                let link_offset = self.maybe_create_link_entry(
                                    LinkOffset::new_null(),
                                    value,
                                    link,
                                );
                                let ghost linked = self@;
                                let key_offset = KeyOffset::create(self, key);
                                let leaf_offset = LeafOffset::create(self, link_offset, key_offset);
                                radix.set_child(self, x, leaf_offset.to_offset());
                                proof {
                                    walk.lemma_done_new_leaf(
                                        old(self)@,
                                        staged,
                                        linked,
                                        self@,
                                        trail,
                                        paths,
                                        link_offset,
                                    );
                                }
                                return Ok(());
                            } else {
                                proof {
                                    walk.lemma_go_on(old(self)@, staged, trail, paths);
                                }
                                offset = next_offset;
                                last_child = x;
                            }
                        },
                    }
                },
                TypedOffset::Leaf(leaf) => {
                    if iter.at_start() {
                        // A tree starts at a radix entry.
                        proof {
                            walk.lemma_failed(old(self)@, at_head, trail, arrived, paths);
                        }
                        return Err(IndexError::CorruptData);
                    }
                    let (key_offset, link_offset) = match leaf.key_and_link_offset(self) {
                        Ok(offsets) => offsets,
                        Err(e) => {
                            proof {
                                walk.lemma_failed(old(self)@, at_head, trail, arrived, paths);
                            }
                            return Err(e);
                        },
                    };
                    let same = match key_offset.key_content(self) {
                        Ok(stored_key) => same_bytes(stored_key, key),
                        Err(e) => {
                            proof {
                                walk.lemma_failed(old(self)@, at_head, trail, arrived, paths);
                            }
                            return Err(e);
                        },
                    };
                    proof {
                        walk.lemma_at_leaf(old(self)@, at_head, trail, leaf, paths);
                    }
                    if same {
                        // The leaf holds the key: it gets the new link.
                        let new_link_offset = self.maybe_create_link_entry(
                            link_offset,
                            value,
                            link,
                        );
                        let ghost linked = self@;
                        let new_leaf_offset = leaf.set_link(self, new_link_offset)?;
                        last_radix.set_child(self, last_child, new_leaf_offset.to_offset());
                        proof {
                            walk.lemma_done_at_leaf(
                                old(self)@,
                                at_head,
                                linked,
                                self@,
                                trail,
                                leaf,
                                paths,
                                new_link_offset,
                            );
                        }
                    } else {
                        // The leaf holds another key: the two part ways
                        // further down.
                        let new_link_offset = self.maybe_create_link_entry(
                            LinkOffset::new_null(),
                            value,
                            link,
                        );
                        let ghost linked = self@;
                        proof {
                            walk.lemma_split_ready(
                                old(self)@,
                                at_head,
                                linked,
                                trail,
                                leaf,
                                paths,
                                new_link_offset,
                            );
                        }
                        self.split_leaf(
                            leaf,
                            key_offset,
                            key,
                            iter,
                            last_radix,
                            last_child,
                            link_offset,
                            new_link_offset,
                            Ghost(paths),
                        )?;
                        proof {
                            walk.lemma_done_split(
                                old(self)@,
                                at_head,
                                linked,
                                self@,
                                trail,
                                leaf,
                                paths,
                                new_link_offset,
                            );
                        }
                    }
                    return Ok(());
                },
                _ => {
                    proof {
                        walk.lemma_failed(old(self)@, at_head, trail, arrived, paths);
                    }
                    return Err(IndexError::CorruptData);
                },
            }
        }
    }

    /// Puts radix entries between a radix entry and a leaf that stands in the
    /// way of a new key, one for each digit that the leaf's key and the new
    /// key share from `new_iter` on, until the two keys part.
    pub(crate) fn split_leaf(
        &mut self,
        old_leaf_offset: LeafOffset,
        old_key_offset: KeyOffset,
        new_key: &[u8],
        new_iter: Base16Iter,
        radix_offset: RadixOffset,
        child: u8,
        old_link_offset: LinkOffset,
        new_link_offset: LinkOffset,
        Ghost(paths): Ghost<Seq<Seq<u8>>>,
    ) -> (r: Result<(), IndexError>)
        requires
            old(self)@.wf(),
            old_leaf_offset.to_offset().spec_to_typed(old(self)@.buf) == Some(
                TypedOffset::Leaf(old_leaf_offset),
            ),
            old(self)@.leaf_entry(old_leaf_offset) == Some(
                MemLeaf { key_offset: old_key_offset, link_offset: old_link_offset },
            ),
            new_iter.key() == new_key@,
            1 <= new_iter.pos() <= nibble_count(new_key@),
            child == nibble(new_key@, new_iter.pos() - 1),
            child < 16,
            radix_offset.spec_is_dirty(),
            radix_offset.tagged(),
            radix_offset.spec_dirty_index() < old(self)@.radixes.len(),
            old(self)@.leaf_slot_ok(old_leaf_offset),
            old(self)@.link_ok(old_link_offset, old(self)@.links.len()),
            old(self)@.link_ok(new_link_offset, old(self)@.links.len()),
            old(self)@.radixes.len() + nibble_count(new_key@) - new_iter.pos() + 1
                <= MAX_DIRTY_INDEX,
            old(self)@.leafs.len() <= MAX_DIRTY_INDEX,
            old(self)@.keys.len() <= MAX_DIRTY_INDEX,
        ensures
            final(self)@.wf(),
            old(self)@.grafted(
                final(self)@,
                radix_offset.spec_dirty_index() as int,
                child as int,
            ),
            final(self)@.radixes.len() <= old(self)@.radixes.len() + nibble_count(new_key@)
                - new_iter.pos() + 1,
            final(self)@.leafs.len() <= old(self)@.leafs.len() + 1,
            final(self)@.keys.len() <= old(self)@.keys.len() + 1,
            ({
                let at = radix_offset.spec_dirty_index() as int;
                &&& old(self)@.sound_with(paths)
                &&& old(self)@.fits_file()
                &&& new_link_offset.to_offset().fits(old(self)@.buf, TYPE_LINK)
                &&& new_key@.len() <= u64::MAX
                &&& paths[at] == key_prefix(new_key@, (new_iter.pos() - 1) as nat)
                &&& old(self)@.radixes[at].offsets@[child as int] == old_leaf_offset.to_offset()
            }) ==> final(self)@.sound() && old(self)@.agrees_but(final(self)@, new_key@),
            match old(self)@.key_content(old_key_offset) {
                None => r == Err::<(), IndexError>(IndexError::CorruptData) && final(self)@ == old(self)@,
                Some(_) => {
                    let split = old(self)@.split_at(
                        old_leaf_offset,
                        new_key@,
                        new_iter.pos(),
                        radix_offset.spec_dirty_index() as int,
                        child as int,
                        new_link_offset,
                    );
                    &&& r == Ok::<(), IndexError>(())
                    &&& final(self)@ == split.split_from(old(self)@, 0)
                    &&& final(self)@.radixes.len() == old(self)@.radixes.len() + split.chain_len(0)
                    &&& split.built(final(self)@, split.chain_len(0))
                    &&& final(self)@.lookup_from(
                        radix_offset.to_offset(),
                        new_key@,
                        (new_iter.pos() - 1) as nat,
                    ) == Some(new_link_offset)
                },
            },
    {
        let old_key: Vec<u8> = copy_bytes(old_key_offset.key_content(self)?);
        let mut old_iter = new_iter.skip_same(old_key.as_slice());
        let mut iter = new_iter;

        let mut last_radix_offset = radix_offset;
        let mut last_radix_child = child;

        let ghost sp = Split {
            base: old(self)@.radixes.len() as int,
            start: iter.pos(),
            new_key: new_key@,
            old_key: old_key@,
            old_leaf: old_leaf_offset,
            old_link: old_link_offset,
            new_link: new_link_offset,
            at: radix_offset.spec_dirty_index() as int,
            child: child as int,
        };
        proof {
            radix_offset.lemma_tagged();
        }

        loop
            invariant
                sp.growing(old(self)@, self@, iter.pos() - sp.start),
                sp.start == new_iter.pos(),
                sp.new_key == new_key@,
                sp.old_key == old_key@,
                sp.old_leaf == old_leaf_offset,
                sp.old_link == old_link_offset,
                sp.new_link == new_link_offset,
                sp.at == radix_offset.spec_dirty_index(),
                sp.child == child,
                sp == old(self)@.split_at(
                    old_leaf_offset,
                    new_key@,
                    new_iter.pos(),
                    radix_offset.spec_dirty_index() as int,
                    child as int,
                    new_link_offset,
                ),
                radix_offset == RadixOffset::spec_dirty(sp.at as nat),
                old(self)@.key_content(old_key_offset) is Some,
                iter.key() == new_key@,
                old_iter.key() == old_key@,
                old_iter.pos() == iter.pos(),
                last_radix_offset == RadixOffset::spec_dirty(
                    sp.last(iter.pos() - sp.start) as nat,
                ),
                last_radix_child == nibble(new_key@, iter.pos() - 1),
                last_radix_child < 16,
            decreases nibble_count(new_key@) - iter.pos(),
        {
            let ghost cur = self@;
            let ghost built = iter.pos() - sp.start;
            let b1 = old_iter.next();
            let b2 = iter.next();

            let mut radix = MemRadix::new();
            let mut completed = false;

            match b1 {
                Some(b1) => {
                    // May be taken over by the next radix entry of the chain.
                    radix.offsets[b1 as usize] = old_leaf_offset.to_offset();
                },
                None => {
                    // The old key ends here: its link moves to this entry.
                    radix.link_offset = old_link_offset;
                },
            }

            match b2 {
                None => {
                    // The new key ends here: no new leaf.
                    radix.link_offset = new_link_offset;
                    completed = true;
                },
                Some(b2) => {
                    let same = match b1 {
                        Some(b1) => b1 == b2,
                        None => false,
                    };
                    if !same {
                        // The keys part here: the new key gets its leaf.
                        let new_key_offset = KeyOffset::create(self, new_key);
                        let new_leaf_offset = LeafOffset::create(
                            self,
                            new_link_offset,
                            new_key_offset,
                        );
                        radix.offsets[b2 as usize] = new_leaf_offset.to_offset();
                        completed = true;
                    }
                },
            }
            proof {
                RadixOffset::lemma_spec_dirty(sp.last(built) as nat);
            }

            // Stage the radix entry and hang it under its parent.
            let offset = RadixOffset::create(self, radix);
            last_radix_offset.set_child(self, last_radix_child, offset.to_offset());

            proof {
                sp.lemma_split_step(old(self)@, cur, self@, radix, built, paths);
            }
            if completed {
                return Ok(());
            }
            last_radix_offset = offset;
            last_radix_child = match b2 {
                Some(b2) => b2,
                None => 0,
            };
        }
    }
}

} // verus!
