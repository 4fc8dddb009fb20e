//! The bytes that a flush appends to the file.
//!
//! A flush writes the staged entries behind what the file holds and ends with
//! a root entry. An entry is written after every entry that it refers to, so
//! that each dirty offset in it can be replaced by the place on disk that the
//! entry it names was given: keys first, then links, then leafs, then radix
//! entries, the last staged first.

use vstd::prelude::*;
use std::collections::HashMap;
use crate::entry::MemKey;
use crate::entry::MemRoot;
use crate::entry::lemma_root_read_back;
use crate::error::IndexError;
use crate::index::Index;
use crate::index::copy_bytes;
use crate::index::map_file;
use crate::offset::DIRTY_OFFSET;
use crate::offset::KeyOffset;
use crate::offset::LeafOffset;
use crate::offset::LinkOffset;
use crate::offset::MAX_DIRTY_INDEX;
use crate::offset::Offset;
use crate::offset::RadixOffset;
use crate::offset::TYPE_HEAD;
use crate::offset::TYPE_KEY;
use crate::offset::TYPE_LEAF;
use crate::offset::TYPE_LINK;
use crate::offset::TYPE_RADIX;
use crate::offset::dirty_raw;
use crate::offset::lemma_dirty_raw;
use crate::state::IndexView;
use crate::state::mapped;
use crate::append::extends;
use crate::flushed::Flush;
use crate::vlq::lemma_vlq_bytes_len;

verus! {

impl IndexView {
    /// The number of staged entries.
    pub open spec fn staged_count(self) -> nat {
        self.keys.len() + self.links.len() + self.leafs.len() + self.radixes.len()
    }

    /// The dirty offset of the staged entry that a flush writes as its
    /// `i`-th.
    pub open spec fn flush_raw(self, i: nat) -> u64 {
        let k = self.keys.len();
        let l = self.links.len();
        let f = self.leafs.len();
        let r = self.radixes.len();
        if i < k {
            KeyOffset::spec_dirty(i).raw()
        } else if i < k + l {
            LinkOffset::spec_dirty((i - k) as nat).raw()
        } else if i < k + l + f {
            LeafOffset::spec_dirty((i - k - l) as nat).raw()
        } else {
            RadixOffset::spec_dirty((r - 1 - (i - k - l - f)) as nat).raw()
        }
    }

    /// The bytes of the staged entry that a flush writes as its `i`-th, its
    /// offsets translated by `offset_map`.
    pub open spec fn flush_entry(self, i: nat, offset_map: Map<u64, u64>) -> Seq<u8> {
        let k = self.keys.len();
        let l = self.links.len();
        let f = self.leafs.len();
        let r = self.radixes.len();
        if i < k {
            MemKey::spec_bytes(self.keys[i as int])
        } else if i < k + l {
            self.links[i - k].spec_bytes(offset_map)
        } else if i < k + l + f {
            self.leafs[i - k - l].spec_bytes(offset_map)
        } else {
            self.radixes[r - 1 - (i - k - l - f)]@.spec_bytes(offset_map)
        }
    }

    /// What a flush to a file of `start` bytes has after its first `n`
    /// entries: the bytes to append, and for each entry written the place on
    /// disk that it was given. A file without bytes gets its header first.
    pub open spec fn flush_prefix(self, start: nat, n: nat) -> (Seq<u8>, Map<u64, u64>)
        decreases n,
    {
        if n == 0 {
            (
                if start == 0 {
                    seq![TYPE_HEAD]
                } else {
                    Seq::empty()
                },
                Map::empty(),
            )
        } else {
            let (bytes, offset_map) = self.flush_prefix(start, (n - 1) as nat);
            (
                bytes + self.flush_entry((n - 1) as nat, offset_map),
                offset_map.insert(self.flush_raw((n - 1) as nat), (start + bytes.len()) as u64),
            )
        }
    }

    /// The place on disk that a flush to a file of `start` bytes gives the
    /// root entry.
    pub open spec fn flush_root_offset(self, start: nat) -> nat {
        start + self.flush_prefix(start, self.staged_count()).0.len()
    }

    /// The bytes that a flush appends to a file of `start` bytes: the staged
    /// entries, then the root entry.
    pub open spec fn flush_bytes(self, start: nat) -> Seq<u8> {
        let (bytes, offset_map) = self.flush_prefix(start, self.staged_count());
        bytes + (MemRoot { radix_offset: self.root }).spec_bytes(offset_map)
    }

    /// The place on disk that a flush to a file of `start` bytes gives the
    /// staged entry with the dirty offset `raw`.
    pub open spec fn flush_place(self, start: nat, raw: u64) -> u64 {
        self.flush_prefix(start, self.staged_count()).1[raw]
    }

    /// The root entry that a flush to a file of `start` bytes writes: it
    /// names the place on disk that the flush gave the root of the tree.
    pub open spec fn flush_root(self, start: nat) -> MemRoot {
        let place = self.flush_place(start, self.root.raw());
        MemRoot { radix_offset: RadixOffset::of(Offset::of(place)) }
    }

    /// The state with the bytes of the file as they are now.
    pub open spec fn remapped(self, file: Seq<u8>) -> IndexView {
        IndexView { buf: mapped(file), ..self }
    }

    /// Whether the staged entries hang together does not depend on the
    /// bytes of the file.
    pub proof fn lemma_wf_remapped(self, file: Seq<u8>)
        requires
            self.wf(),
        ensures
            self.remapped(file).wf(),
    {
        let next = self.remapped(file);
        assert forall|i: int| 0 <= i < next.radixes.len() implies #[trigger] next.radix_ok(i) by {
            assert(self.radix_ok(i));
        }
        assert forall|i: int| 0 <= i < next.leafs.len() implies #[trigger] next.leaf_ok(i) by {
            assert(self.leaf_ok(i));
        }
    }

    /// The state after a flush that left the root entry `root`: the bytes of
    /// the file as they are then, and nothing staged.
    pub open spec fn flushed(self, file: Seq<u8>, root: MemRoot) -> IndexView {
        IndexView {
            buf: mapped(file),
            read_only: self.read_only,
            root: root.radix_offset,
            radixes: Seq::empty(),
            leafs: Seq::empty(),
            links: Seq::empty(),
            keys: Seq::empty(),
        }
    }

    /// The type tag of the staged entry that a flush writes as its `i`-th.
    pub open spec fn flush_tag(self, i: nat) -> u8 {
        if i < self.keys.len() {
            TYPE_KEY
        } else if i < self.keys.len() + self.links.len() {
            TYPE_LINK
        } else if i < self.keys.len() + self.links.len() + self.leafs.len() {
            TYPE_LEAF
        } else {
            TYPE_RADIX
        }
    }

    /// No two staged entries have the same dirty offset.
    pub proof fn lemma_flush_raw_distinct(self, i: nat, j: nat)
        requires
            self.wf(),
            i < self.staged_count(),
            j < self.staged_count(),
            i != j,
        ensures
            self.flush_raw(i) != self.flush_raw(j),
    {
        let k = self.keys.len();
        let l = self.links.len();
        let f = self.leafs.len();
        let r = self.radixes.len();
        if i < k {
            lemma_dirty_raw(i, TYPE_KEY);
        } else if i < k + l {
            lemma_dirty_raw((i - k) as nat, TYPE_LINK);
        } else if i < k + l + f {
            lemma_dirty_raw((i - k - l) as nat, TYPE_LEAF);
        } else {
            lemma_dirty_raw((r - 1 - (i - k - l - f)) as nat, TYPE_RADIX);
        }
        if j < k {
            lemma_dirty_raw(j, TYPE_KEY);
        } else if j < k + l {
            lemma_dirty_raw((j - k) as nat, TYPE_LINK);
        } else if j < k + l + f {
            lemma_dirty_raw((j - k - l) as nat, TYPE_LEAF);
        } else {
            lemma_dirty_raw((r - 1 - (j - k - l - f)) as nat, TYPE_RADIX);
        }
    }

    /// Where a flush puts its entries: after `n` entries, the `j`-th has the
    /// place behind the entries before it, and its bytes stand there.
    pub proof fn lemma_flush_layout(self, start: nat, n: nat, j: nat)
        requires
            self.wf(),
            j < n <= self.staged_count(),
        ensures
            ({
                let (bytes, offset_map) = self.flush_prefix(start, n);
                let (before, map_before) = self.flush_prefix(start, j);
                let entry = self.flush_entry(j, map_before);
                &&& offset_map.contains_key(self.flush_raw(j))
                &&& offset_map[self.flush_raw(j)] == (start + before.len()) as u64
                &&& before.len() + entry.len() <= bytes.len()
                &&& bytes.subrange(before.len() as int, (before.len() + entry.len()) as int) == entry
                &&& entry.len() > 0
                &&& entry[0] == self.flush_tag(j)
                &&& start == 0 ==> before.len() > 0
            }),
        decreases n,
    {
        let (before, map_before) = self.flush_prefix(start, j);
        let entry = self.flush_entry(j, map_before);
        self.lemma_flush_grows(start, 0, j);
        if j == n - 1 {
            let (bytes, offset_map) = self.flush_prefix(start, n);
            assert(bytes.subrange(before.len() as int, (before.len() + entry.len()) as int) =~= entry);
        } else {
            self.lemma_flush_layout(start, (n - 1) as nat, j);
            self.lemma_flush_raw_distinct((n - 1) as nat, j);
            let (shorter, _) = self.flush_prefix(start, (n - 1) as nat);
            let (bytes, offset_map) = self.flush_prefix(start, n);
            assert(bytes.subrange(before.len() as int, (before.len() + entry.len()) as int)
                =~= shorter.subrange(before.len() as int, (before.len() + entry.len()) as int));
        }
    }

    /// The bytes of a flush start with what the flush writes first: the
    /// header where the file has no bytes.
    pub proof fn lemma_flush_starts(self, start: nat, n: nat)
        ensures
            start == 0 ==> self.flush_prefix(start, n).0.len() >= 1 && self.flush_prefix(
                start,
                n,
            ).0[0] == TYPE_HEAD,
        decreases n,
    {
        if n > 0 {
            self.lemma_flush_starts(start, (n - 1) as nat);
        }
    }

    /// After `n` entries, each of them has its place.
    pub proof fn lemma_flush_placed(self, start: nat, n: nat, j: nat)
        requires
            j < n,
        ensures
            self.flush_prefix(start, n).1.contains_key(self.flush_raw(j)),
        decreases n,
    {
        if j < n - 1 {
            self.lemma_flush_placed(start, (n - 1) as nat, j);
        }
    }

    /// The bytes of a flush only grow.
    pub proof fn lemma_flush_grows(self, start: nat, n: nat, m: nat)
        requires
            n <= m,
        ensures
            self.flush_prefix(start, n).0.len() <= self.flush_prefix(start, m).0.len(),
        decreases m,
    {
        if n < m {
            self.lemma_flush_grows(start, n, (m - 1) as nat);
        }
    }
}

/// A dirty offset is made of its index and its type.
pub proof fn lemma_dirty_parts(offset: Offset)
    requires
        offset.spec_is_dirty(),
    ensures
        offset.raw() == dirty_raw(offset.spec_dirty_index(), offset.spec_dirty_type()),
        offset.spec_dirty_index() <= MAX_DIRTY_INDEX,
        offset.spec_dirty_type() < 8,
{
}

/// The place on disk `pos` bytes behind `len`, where it is one.
fn disk_place(len: u64, pos: usize) -> (r: Option<u64>)
    ensures
        r == if len + pos < DIRTY_OFFSET {
            Some((len + pos) as u64)
        } else {
            None
        },
{
    if len < DIRTY_OFFSET && (pos as u64) < DIRTY_OFFSET - len {
        Some(len + pos as u64)
    } else {
        None
    }
}

impl Index {
    /// Whether a flush has anything to write. Fails where the file cannot
    /// be written.
    pub fn flush_check(&self) -> (r: Result<bool, IndexError>)
        ensures
            r == if self@.read_only {
                Err::<bool, IndexError>(IndexError::PermissionDenied)
            } else {
                Ok(self@.root.spec_is_dirty())
            },
    {
        if self.read_only {
            Err(IndexError::PermissionDenied)
        } else {
            Ok(self.root.radix_offset.is_dirty())
        }
    }

    /// The bytes to append to a file of `len` bytes, and the place of the
    /// root entry among them. Fails where the file would outgrow the offsets
    /// that the bytes of an entry can hold.
    pub fn flush_bytes(&self, len: u64) -> (r: Result<(Vec<u8>, u64), IndexError>)
        requires
            self@.wf(),
        ensures
            match r {
                Ok((bytes, root_offset)) => {
                    &&& bytes@ == self@.flush_bytes(len as nat)
                    &&& root_offset == self@.flush_root_offset(len as nat)
                    &&& root_offset < DIRTY_OFFSET
                },
                Err(e) => e == IndexError::CorruptData && self@.flush_root_offset(len as nat)
                    >= DIRTY_OFFSET,
            },
    {
        let mut buf: Vec<u8> = Vec::new();
        let mut offset_map: HashMap<u64, u64> = HashMap::new();
        let ghost view = self@;
        let ghost start = len as nat;
        let ghost k = view.keys.len();
        let ghost l = view.links.len();
        let ghost f = view.leafs.len();
        let ghost r = view.radixes.len();
        let ghost total = view.staged_count();

        // Entries are written after the entries that they refer to.
        if len == 0 {
            buf.push(TYPE_HEAD);
        }
        assert(buf@ =~= view.flush_prefix(start, 0).0);
        assert(offset_map@ =~= view.flush_prefix(start, 0).1);

        let mut i: usize = 0;
        while i < self.dirty_keys.len()
            invariant
                view == self@,
                view.wf(),
                start == len,
                i <= self.dirty_keys@.len() == view.keys.len(),
                (buf@, offset_map@) == view.flush_prefix(start, i as nat),
            decreases self.dirty_keys@.len() - i,
        {
            proof {
                view.lemma_flush_grows(start, i as nat, view.staged_count());
            }
            let offset = match disk_place(len, buf.len()) {
                Some(o) => o,
                None => { return Err(IndexError::CorruptData); },
            };
            self.dirty_keys[i].write_to(&mut buf, &offset_map);
            offset_map.insert(KeyOffset::from_dirty_index(i).to_offset().to_u64(), offset);
            i += 1;
        }

        let mut i: usize = 0;
        while i < self.dirty_links.len()
            invariant
                view == self@,
                view.wf(),
                start == len,
                k == view.keys.len(),
                i <= self.dirty_links@.len() == view.links.len(),
                (buf@, offset_map@) == view.flush_prefix(start, k + i as nat),
            decreases self.dirty_links@.len() - i,
        {
            proof {
                view.lemma_flush_grows(start, k + i as nat, view.staged_count());
                let next = view.links[i as int].next_link_offset;
                if next.spec_is_dirty() {
                    next.lemma_tagged();
                    view.lemma_flush_placed(start, k + i as nat, k + next.spec_dirty_index());
                }
            }
            let offset = match disk_place(len, buf.len()) {
                Some(o) => o,
                None => { return Err(IndexError::CorruptData); },
            };
            self.dirty_links[i].write_to(&mut buf, &offset_map);
            offset_map.insert(LinkOffset::from_dirty_index(i).to_offset().to_u64(), offset);
            i += 1;
        }

        let mut i: usize = 0;
        while i < self.dirty_leafs.len()
            invariant
                view == self@,
                view.wf(),
                start == len,
                k == view.keys.len(),
                l == view.links.len(),
                i <= self.dirty_leafs@.len() == view.leafs.len(),
                (buf@, offset_map@) == view.flush_prefix(start, k + l + i as nat),
            decreases self.dirty_leafs@.len() - i,
        {
            proof {
                view.lemma_flush_grows(start, k + l + i as nat, view.staged_count());
                let leaf = view.leafs[i as int];
                assert(view.leaf_ok(i as int));
                if leaf.key_offset.spec_is_dirty() {
                    leaf.key_offset.lemma_tagged();
                    view.lemma_flush_placed(
                        start,
                        k + l + i as nat,
                        leaf.key_offset.spec_dirty_index(),
                    );
                }
                if leaf.link_offset.spec_is_dirty() {
                    leaf.link_offset.lemma_tagged();
                    view.lemma_flush_placed(
                        start,
                        k + l + i as nat,
                        k + leaf.link_offset.spec_dirty_index(),
                    );
                }
            }
            let offset = match disk_place(len, buf.len()) {
                Some(o) => o,
                None => { return Err(IndexError::CorruptData); },
            };
            self.dirty_leafs[i].write_to(&mut buf, &offset_map);
            offset_map.insert(LeafOffset::from_dirty_index(i).to_offset().to_u64(), offset);
            i += 1;
        }

        // A radix entry may refer to radix entries staged after it: the
        // last staged is written first.
        let mut i: usize = self.dirty_radixes.len();
        while i > 0
            invariant
                view == self@,
                view.wf(),
                start == len,
                k == view.keys.len(),
                l == view.links.len(),
                f == view.leafs.len(),
                r == view.radixes.len(),
                i <= self.dirty_radixes@.len() == view.radixes.len(),
                (buf@, offset_map@) == view.flush_prefix(start, (k + l + f + r - i) as nat),
            decreases i,
        {
            i -= 1;
            let ghost n = (k + l + f + r - 1 - i) as nat;
            proof {
                view.lemma_flush_grows(start, n, view.staged_count());
                let radix = view.radixes[i as int];
                assert(view.radix_ok(i as int));
                if radix.link_offset.spec_is_dirty() {
                    radix.link_offset.lemma_tagged();
                    view.lemma_flush_placed(start, n, k + radix.link_offset.spec_dirty_index());
                }
                assert forall|c: int| 0 <= c < 16 implies (#[trigger] radix@.children[c]).translatable(
                    offset_map@,
                ) by {
                    let child = radix.offsets@[c];
                    assert(view.child_ok(child, i as nat));
                    if child.spec_is_dirty() {
                        lemma_dirty_parts(child);
                        if child.spec_dirty_type() == TYPE_LEAF {
                            view.lemma_flush_placed(start, n, k + l + child.spec_dirty_index());
                        } else {
                            view.lemma_flush_placed(
                                start,
                                n,
                                (k + l + f + r - 1 - child.spec_dirty_index()) as nat,
                            );
                        }
                    }
                }
            }
            let offset = match disk_place(len, buf.len()) {
                Some(o) => o,
                None => { return Err(IndexError::CorruptData); },
            };
            self.dirty_radixes[i].write_to(&mut buf, &offset_map);
            offset_map.insert(RadixOffset::from_dirty_index(i).to_offset().to_u64(), offset);
        }

        proof {
            if view.root.spec_is_dirty() {
                view.root.lemma_tagged();
                view.lemma_flush_placed(
                    start,
                    total,
                    (k + l + f + r - 1 - view.root.spec_dirty_index()) as nat,
                );
            }
        }
        let root_offset = match disk_place(len, buf.len()) {
            Some(o) => o,
            None => { return Err(IndexError::CorruptData); },
        };
        self.root.write_to(&mut buf, &offset_map);
        Ok((buf, root_offset))
    }

    /// Takes in the file as it is after the bytes of a flush were written:
    /// `file` holds its bytes, `expected_len` the length that it should have.
    /// The tree then starts at the root entry at the end of the file, and
    /// nothing is staged any more.
    pub fn flush_done(&mut self, file: Vec<u8>, expected_len: u64) -> (r: Result<(), IndexError>)
        requires
            old(self)@.wf(),
        ensures
            final(self)@.wf(),
            file@.len() != expected_len ==> r == Err::<(), IndexError>(IndexError::UnexpectedEof)
                && final(self)@ == old(self)@.remapped(file@),
            file@.len() == expected_len ==> match MemRoot::spec_read_from_end(
                mapped(file@),
                file@.len() as int,
            ) {
                Some(root) => r == Ok::<(), IndexError>(()) && final(self)@ == old(self)@.flushed(
                    file@,
                    root,
                ),
                None => r == Err::<(), IndexError>(IndexError::CorruptData) && final(self)@
                    == old(self)@.remapped(file@),
            },
    {
        let new_len: u64 = file.len() as u64;
        self.buf = map_file(file);
        proof {
            old(self)@.lemma_wf_remapped(file@);
            assert(self@ == old(self)@.remapped(file@));
        }

        // The file has another length than the flush left it with: another
        // writer got in between.
        if new_len != expected_len {
            return Err(IndexError::UnexpectedEof);
        }
        self.root = MemRoot::read_from_end(self.buf.as_slice(), new_len)?;

        self.dirty_radixes.clear();
        self.dirty_leafs.clear();
        self.dirty_links.clear();
        self.dirty_keys.clear();
        proof {
            assert(self@.keys =~= Seq::empty());
        }
        Ok(())
    }

    /// Writes the staged entries to the end of `file`, which holds the bytes
    /// of the file, and takes in the file as it is then.
    ///
    /// Returns 0 where nothing is staged, else the place of the new root
    /// entry. What `file` held stays as it was.
    pub fn flush(&mut self, file: &mut Vec<u8>) -> (r: Result<u64, IndexError>)
        requires
            old(self)@.wf(),
        ensures
            final(self)@.wf(),
            final(file)@.subrange(0, old(file)@.len() as int) == old(file)@,
            if old(self)@.read_only {
                &&& r == Err::<u64, IndexError>(IndexError::PermissionDenied)
                &&& final(self)@ == old(self)@
                &&& final(file)@ == old(file)@
            } else if !old(self)@.root.spec_is_dirty() {
                &&& r == Ok::<u64, IndexError>(0)
                &&& final(self)@ == old(self)@
                &&& final(file)@ == old(file)@
            } else if old(self)@.flush_root_offset(old(file)@.len()) >= DIRTY_OFFSET {
                &&& r == Err::<u64, IndexError>(IndexError::CorruptData)
                &&& final(self)@ == old(self)@
                &&& final(file)@ == old(file)@
            } else {
                &&& r == Ok::<u64, IndexError>(old(self)@.flush_root_offset(old(file)@.len()) as u64)
                &&& final(file)@ == old(file)@ + old(self)@.flush_bytes(old(file)@.len())
                &&& final(self)@ == old(self)@.flushed(
                    final(file)@,
                    old(self)@.flush_root(old(file)@.len()),
                )
            },
            old(self)@.sound() && extends(old(self)@.buf, mapped(old(file)@))
                ==> final(self)@.sound() && old(self)@.kept_in(final(self)@),
    {
        assert(file@.subrange(0, file@.len() as int) =~= file@);
        if !self.flush_check()? {
            return Ok(0);
        }
        let len: u64 = file.len() as u64;
        let (bytes, root_offset) = self.flush_bytes(len)?;
        proof {
            lemma_flush_root(self@, file@, bytes@);
            if self@.sound() && extends(self@.buf, mapped(file@)) {
                let flush = Flush { view: self@, file: file@ };
                flush.law_flush_keeps();
            }
        }
        let expected_len: u64 = len + bytes.len() as u64;
        file.extend_from_slice(bytes.as_slice());
        assert(file@.subrange(0, old(file)@.len() as int) =~= old(file)@);
        assert(file@ == old(file)@ + bytes@);
        match self.flush_done(copy_bytes(file.as_slice()), expected_len) {
            Ok(()) => Ok(root_offset),
            Err(e) => Err(e),
        }
    }
}

/// What a flush appends ends with a root entry that reads back: it names the
/// place that the flush gave the root of the tree, and a radix entry stands
/// there.
pub proof fn lemma_flush_root(view: IndexView, file: Seq<u8>, bytes: Seq<u8>)
    requires
        view.wf(),
        view.root.spec_is_dirty(),
        bytes == view.flush_bytes(file.len()),
        view.flush_root_offset(file.len()) < DIRTY_OFFSET,
    ensures
        bytes.len() >= 3,
        file.len() + bytes.len() <= DIRTY_OFFSET + 12,
        MemRoot::spec_read_from_end(mapped(file + bytes), (file + bytes).len() as int) == Some(
            view.flush_root(file.len()),
        ),
        MemRoot::spec_read_from(file + bytes, view.flush_root_offset(file.len()) as int) == Some(
            view.flush_root(file.len()),
        ),
{
    let start = file.len();
    let total = view.staged_count();
    let (staged, offset_map) = view.flush_prefix(start, total);
    let k = view.keys.len();
    let l = view.links.len();
    let f = view.leafs.len();
    let r = view.radixes.len();
    view.root.lemma_tagged();
    let j = (k + l + f + r - 1 - view.root.spec_dirty_index()) as nat;
    view.lemma_flush_layout(start, total, j);
    view.lemma_flush_grows(start, j, total);
    let (before, map_before) = view.flush_prefix(start, j);
    let entry = view.flush_entry(j, map_before);
    let place = view.flush_place(start, view.root.raw());
    assert(place == start + before.len());
    let root = MemRoot { radix_offset: view.root };
    let tail = root.spec_bytes(offset_map);
    lemma_vlq_bytes_len(place);
    let all = file + bytes;
    let pos = (start + staged.len()) as int;
    assert(all.subrange(pos, all.len() as int) =~= tail);
    assert(all[place as int] == staged[before.len() as int]);
    assert(staged[before.len() as int] == staged.subrange(
        before.len() as int,
        (before.len() + entry.len()) as int,
    )[0]);
    assert(mapped(all) == all);
    lemma_root_read_back(all, pos, place);
}

} // verus!
