//! The entries of an index and their bytes.
//!
//! Every entry starts with a byte that tells its type. Offsets and values
//! follow as variable-length quantities.
//!
//! ```text
//! ROOT  := 1, offset of the root radix entry, length of this entry
//! RADIX := 2, jump table of 16 bytes, offset of a link, offsets of children
//! LEAF  := 3, offset of a key, offset of a link
//! LINK  := 4, value, offset of the next link
//! KEY   := 5, length of the key, bytes of the key
//! ```

use vstd::prelude::*;
use vstd::array::spec_array_fill_for_copy_type;
use vstd::array::spec_array_update;
use std::collections::HashMap;
use crate::error::IndexError;
use crate::error::ok_or_corrupt;
use crate::offset::DIRTY_OFFSET;
use crate::offset::JUMPTABLE_BYTES;
use crate::offset::KeyOffset;
use crate::offset::LinkOffset;
use crate::offset::Offset;
use crate::offset::RadixOffset;
use crate::offset::TYPE_BYTES;
use crate::offset::TYPE_KEY;
use crate::offset::TYPE_LEAF;
use crate::offset::TYPE_LINK;
use crate::offset::TYPE_RADIX;
use crate::offset::TYPE_ROOT;
use crate::offset::type_at;
use crate::vlq::lemma_vlq_bytes_len;
use crate::vlq::lemma_vlq_decode_bytes;
use crate::vlq::read_vlq_at;
use crate::vlq::vlq_bytes;
use crate::vlq::vlq_decode;
use crate::vlq::write_vlq;

verus! {

/// A radix entry: sixteen children, one for each value of the next four
/// bits of a key, and the link of the key that ends here.
#[derive(Clone, Copy, Debug)]
pub struct MemRadix {
    pub offsets: [Offset; 16],
    pub link_offset: LinkOffset,
}

/// A leaf entry: a key and its link.
#[derive(Clone, Copy, Debug, PartialEq, Eq, Structural)]
pub struct MemLeaf {
    pub key_offset: KeyOffset,
    pub link_offset: LinkOffset,
}

/// A key entry: the bytes of a key.
#[derive(Clone, Debug)]
pub struct MemKey {
    pub key: Vec<u8>,
}

/// A link entry: a value and the link that came before it.
#[derive(Clone, Copy, Debug, PartialEq, Eq, Structural)]
pub struct MemLink {
    pub value: u64,
    pub next_link_offset: LinkOffset,
}

/// A root entry: the radix entry that the tree starts at.
#[derive(Clone, Copy, Debug, PartialEq, Eq, Structural)]
pub struct MemRoot {
    pub radix_offset: RadixOffset,
}

/// What a radix entry holds.
pub struct RadixView {
    pub children: Seq<Offset>,
    pub link: LinkOffset,
}

/// Whether the byte at `offset` is the type tag `expected`.
pub open spec fn spec_check_type(buf: Seq<u8>, offset: int, expected: u8) -> bool {
    type_at(buf, offset) == Some(expected)
}

/// The position in `buf` of an on-disk offset, where it lies inside.
pub fn position(buf: &[u8], offset: u64) -> (r: Option<usize>)
    ensures
        r is Some <==> offset < buf@.len(),
        r matches Some(p) ==> p as int == offset as int,
        buf@.len() <= usize::MAX,
{
    if offset < buf.len() as u64 {
        Some(offset as usize)
    } else {
        None
    }
}

/// Checks that the entry at `offset` has the type `expected`.
pub fn check_type(buf: &[u8], offset: usize, expected: u8) -> (r: Result<(), IndexError>)
    ensures
        r is Ok <==> spec_check_type(buf@, offset as int, expected),
        r is Err ==> r == Err::<(), IndexError>(IndexError::CorruptData),
{
    if offset < buf.len() && buf[offset] == expected {
        Ok(())
    } else {
        Err(IndexError::CorruptData)
    }
}

/// The quantity at `pos` as an on-disk offset, with the number of bytes it
/// takes: none where nothing decodes or the value is that of a dirty offset.
pub open spec fn disk_offset_at(buf: Seq<u8>, pos: int) -> Option<(Offset, usize)> {
    match vlq_decode(buf, pos) {
        Some((v, n)) => if v >= DIRTY_OFFSET {
            None
        } else {
            Some((Offset::of(v), n))
        },
        None => None,
    }
}

impl RadixView {
    /// A radix entry without children and without a link.
    pub open spec fn empty() -> RadixView {
        RadixView { children: Seq::new(16, |i: int| Offset::null()), link: LinkOffset::null() }
    }

    /// The bytes of the first `n` children that are not null, their offsets
    /// translated by `offset_map`.
    pub open spec fn children_bytes(self, offset_map: Map<u64, u64>, n: nat) -> Seq<u8>
        decreases n,
    {
        if n == 0 {
            Seq::empty()
        } else {
            let child = self.children[n - 1];
            let before = self.children_bytes(offset_map, (n - 1) as nat);
            if child.spec_is_null() {
                before
            } else {
                before + vlq_bytes(child.spec_to_disk(offset_map) as nat)
            }
        }
    }

    /// The bytes of the link offset, translated by `offset_map`.
    pub open spec fn link_bytes(self, offset_map: Map<u64, u64>) -> Seq<u8> {
        vlq_bytes(self.link.to_offset().spec_to_disk(offset_map) as nat)
    }

    /// The distance from the start of the entry to the offset of child `i`.
    pub open spec fn child_pos(self, offset_map: Map<u64, u64>, i: nat) -> nat {
        1 + 16 + self.link_bytes(offset_map).len() + self.children_bytes(offset_map, i).len()
    }

    /// Byte `i` of the jump table: 0 where child `i` is null, else the
    /// distance from the start of the entry to the offset of child `i`.
    pub open spec fn jump(self, offset_map: Map<u64, u64>, i: int) -> u8 {
        if self.children[i].spec_is_null() {
            0
        } else {
            self.child_pos(offset_map, i as nat) as u8
        }
    }

    /// The jump table with the bytes of the first `n` children filled in.
    pub open spec fn jump_table(self, offset_map: Map<u64, u64>, n: int) -> Seq<u8> {
        Seq::new(
            16,
            |i: int|
                if i < n {
                    self.jump(offset_map, i)
                } else {
                    0
                },
        )
    }

    /// Whether `offset_map` can translate the offsets of this entry.
    pub open spec fn translatable(self, offset_map: Map<u64, u64>) -> bool {
        &&& self.link.to_offset().translatable(offset_map)
        &&& forall|i: int| 0 <= i < 16 ==> (#[trigger] self.children[i]).translatable(offset_map)
    }

    /// The bytes of the entry, its offsets translated by `offset_map`.
    pub open spec fn spec_bytes(self, offset_map: Map<u64, u64>) -> Seq<u8> {
        seq![TYPE_RADIX] + self.jump_table(offset_map, 16) + self.link_bytes(offset_map)
            + self.children_bytes(offset_map, 16)
    }

    /// The first `n` children take at most ten bytes each.
    pub proof fn lemma_children_bytes_len(self, offset_map: Map<u64, u64>, n: nat)
        ensures
            self.children_bytes(offset_map, n).len() <= 10 * n,
        decreases n,
    {
        if n > 0 {
            self.lemma_children_bytes_len(offset_map, (n - 1) as nat);
            lemma_vlq_bytes_len(self.children[n - 1].spec_to_disk(offset_map));
        }
    }
}

/// The children `children` in an array: the first `n` of them, and null in
/// the places behind.
pub open spec fn offsets_of(children: Seq<Offset>, n: nat) -> [Offset; 16]
    decreases n,
{
    if n == 0 {
        spec_array_fill_for_copy_type::<Offset, 16>(Offset::null())
    } else {
        spec_array_update(offsets_of(children, (n - 1) as nat), n - 1, children[n - 1])
    }
}

/// The array of the first `n` children holds them, and null behind them.
pub proof fn lemma_offsets_of(children: Seq<Offset>, n: nat)
    requires
        n <= 16,
    ensures
        forall|i: int|
            0 <= i < 16 ==> #[trigger] offsets_of(children, n)@[i] == if i < n {
                children[i]
            } else {
                Offset::null()
            },
    decreases n,
{
    broadcast use vstd::array::group_array_axioms;

    if n > 0 {
        lemma_offsets_of(children, (n - 1) as nat);
        let before = offsets_of(children, (n - 1) as nat);
        assert(before@.len() == 16);
        assert(offsets_of(children, n)@ == before@.update(n - 1, children[n - 1]));
    } else {
        let empty = spec_array_fill_for_copy_type::<Offset, 16>(Offset::null());
        assert forall|i: int| 0 <= i < 16 implies #[trigger] empty@[i] == Offset::null() by {}
    }
}

impl View for MemRadix {
    type V = RadixView;

    open spec fn view(&self) -> RadixView {
        RadixView { children: self.offsets@, link: self.link_offset }
    }
}

impl MemRadix {
    /// The children from child `i` on, read from the entry at `offset`, after
    /// the children in `acc`. The offset of the next child that is there is
    /// expected at distance `pos` from the start of the entry, and the jump
    /// table must say so.
    pub open spec fn spec_read_children(
        buf: Seq<u8>,
        offset: int,
        i: nat,
        pos: int,
        acc: Seq<Offset>,
    ) -> Option<Seq<Offset>>
        decreases 16 - i,
    {
        if i >= 16 {
            Some(acc)
        } else {
            let jump = buf[offset + 1 + i];
            if jump == 0 {
                MemRadix::spec_read_children(buf, offset, i + 1, pos, acc.push(Offset::null()))
            } else if jump != pos {
                None
            } else {
                match disk_offset_at(buf, offset + pos) {
                    None => None,
                    Some((child, n)) => MemRadix::spec_read_children(
                        buf,
                        offset,
                        i + 1,
                        pos + n,
                        acc.push(child),
                    ),
                }
            }
        }
    }

    /// The radix entry at `offset`, where the bytes there are one.
    pub open spec fn spec_read_from(buf: Seq<u8>, offset: int) -> Option<RadixView> {
        if !spec_check_type(buf, offset, TYPE_RADIX) || offset + 17 > buf.len() {
            None
        } else {
            match vlq_decode(buf, offset + 17) {
                None => None,
                Some((l, n)) => match LinkOffset::spec_from_disk(l, buf) {
                    None => None,
                    Some(link) => match MemRadix::spec_read_children(
                        buf,
                        offset,
                        0,
                        17 + n,
                        Seq::empty(),
                    ) {
                        None => None,
                        Some(children) => Some(RadixView { children, link }),
                    },
                },
            }
        }
    }

    /// The radix entry with the children and the link of `view`.
    pub open spec fn of(view: RadixView) -> MemRadix {
        MemRadix { offsets: offsets_of(view.children, 16), link_offset: view.link }
    }

    /// The radix entry with sixteen children and a link has them.
    pub proof fn lemma_of_view(view: RadixView)
        requires
            view.children.len() == 16,
        ensures
            MemRadix::of(view)@ == view,
    {
        lemma_offsets_of(view.children, 16);
        assert(MemRadix::of(view)@.children =~= view.children);
    }

    /// A radix entry is the one with its children and its link.
    pub proof fn lemma_of_self(self)
        ensures
            MemRadix::of(self@) == self,
    {
        lemma_offsets_of(self@.children, 16);
        assert(MemRadix::of(self@).offsets@ =~= self.offsets@);
        assert(MemRadix::of(self@).offsets == self.offsets);
    }

    /// A radix entry without children and without a link.
    pub fn new() -> (r: MemRadix)
        ensures
            r@ == RadixView::empty(),
            r.link_offset == LinkOffset::null(),
            forall|i: int| 0 <= i < 16 ==> r.offsets@[i] == Offset::null(),
    {
        let r = MemRadix { offsets: [Offset::new_null(); 16], link_offset: LinkOffset::new_null() };
        assert(r@.children =~= RadixView::empty().children);
        r
    }

    /// Reads the radix entry at `offset`.
    pub fn read_from(buf: &[u8], offset: u64) -> (r: Result<MemRadix, IndexError>)
        ensures
            match r {
                Ok(e) => MemRadix::spec_read_from(buf@, offset as int) == Some(e@),
                Err(e) => e == IndexError::CorruptData && MemRadix::spec_read_from(
                    buf@,
                    offset as int,
                ) is None,
            },
    {
        let start = match position(buf, offset) {
            Some(p) => p,
            None => { return Err(IndexError::CorruptData); },
        };
        if check_type(buf, start, TYPE_RADIX).is_err() {
            return Err(IndexError::CorruptData);
        }
        if buf.len() - start < TYPE_BYTES + JUMPTABLE_BYTES {
            return Err(IndexError::CorruptData);
        }
        let mut pos: usize = TYPE_BYTES + JUMPTABLE_BYTES;
        let (link_raw, len) = match read_vlq_at(buf, start + pos) {
            Some(x) => x,
            None => { return Err(IndexError::CorruptData); },
        };
        let link_offset = LinkOffset::from_disk(link_raw, buf)?;
        pos += len;

        let mut offsets: [Offset; 16] = [Offset::new_null(); 16];
        let ghost first = pos as int;
        let mut i: usize = 0;
        assert(offsets@.take(0) =~= Seq::empty());
        while i < 16
            invariant
                i <= 16,
                start == offset,
                spec_check_type(buf@, start as int, TYPE_RADIX),
                vlq_decode(buf@, start + 17) == Some((link_raw, len)),
                LinkOffset::spec_from_disk(link_raw, buf@) == Some(link_offset),
                first == 17 + len,
                start + 17 <= buf@.len() <= usize::MAX,
                17 <= pos <= 27 + 10 * i,
                pos <= buf@.len() - start,
                MemRadix::spec_read_children(buf@, start as int, 0, first, Seq::empty())
                    == MemRadix::spec_read_children(
                    buf@,
                    start as int,
                    i as nat,
                    pos as int,
                    offsets@.take(i as int),
                ),
            decreases 16 - i,
        {
            let jump: u8 = buf[start + TYPE_BYTES + i];
            let ghost before = offsets@.take(i as int);
            if jump != 0 {
                if jump as usize != pos {
                    return Err(IndexError::CorruptData);
                }
                let (v, len) = match read_vlq_at(buf, start + pos) {
                    Some(x) => x,
                    None => { return Err(IndexError::CorruptData); },
                };
                let child = Offset::from_disk(v)?;
                offsets[i] = child;
                pos += len;
                assert(offsets@.take(i + 1) =~= before.push(child));
            } else {
                offsets[i] = Offset::new_null();
                assert(offsets@.take(i + 1) =~= before.push(Offset::null()));
            }
            i += 1;
        }
        assert(offsets@.take(16) =~= offsets@);
        Ok(MemRadix { offsets, link_offset })
    }

    /// Appends the bytes of the entry to `writer`.
    pub fn write_to(&self, writer: &mut Vec<u8>, offset_map: &HashMap<u64, u64>)
        requires
            self@.translatable(offset_map@),
        ensures
            final(writer)@ == old(writer)@ + self@.spec_bytes(offset_map@),
    {
        let mut buf: Vec<u8> = Vec::with_capacity(1 + 16 + 5 * 17);
        buf.push(TYPE_RADIX);
        let mut k: usize = 0;
        while k < JUMPTABLE_BYTES
            invariant
                k <= 16,
                buf@ == seq![TYPE_RADIX] + Seq::new(k as nat, |j: int| 0u8),
            decreases 16 - k,
        {
            buf.push(0);
            assert(buf@ =~= seq![TYPE_RADIX] + Seq::new((k + 1) as nat, |j: int| 0u8));
            k += 1;
        }
        let link: u64 = self.link_offset.to_offset().to_disk(offset_map);
        write_vlq(&mut buf, link);
        proof {
            lemma_vlq_bytes_len(link);
            assert(buf@ =~= seq![TYPE_RADIX] + self@.jump_table(offset_map@, 0) + self@.link_bytes(
                offset_map@,
            ) + self@.children_bytes(offset_map@, 0));
        }
        let mut i: usize = 0;
        while i < 16
            invariant
                i <= 16,
                self@.translatable(offset_map@),
                self@.link_bytes(offset_map@).len() <= 10,
                buf@ == seq![TYPE_RADIX] + self@.jump_table(offset_map@, i as int)
                    + self@.link_bytes(offset_map@) + self@.children_bytes(offset_map@, i as nat),
            decreases 16 - i,
        {
            let v: Offset = self.offsets[i];
            proof {
                self@.lemma_children_bytes_len(offset_map@, i as nat);
                assert(self@.children[i as int] == v);
            }
            if !v.is_null() {
                let disk: u64 = v.to_disk(offset_map);
                let here: usize = buf.len();
                buf.set(TYPE_BYTES + i, here as u8);
                write_vlq(&mut buf, disk);
                assert(here == self@.child_pos(offset_map@, i as nat));
            }
            assert(buf@ =~= seq![TYPE_RADIX] + self@.jump_table(offset_map@, i + 1)
                + self@.link_bytes(offset_map@) + self@.children_bytes(offset_map@, (i + 1) as nat));
            i += 1;
        }
        writer.extend_from_slice(buf.as_slice());
    }
}

impl MemLeaf {
    /// The leaf entry at `offset`, where the bytes there are one.
    pub open spec fn spec_read_from(buf: Seq<u8>, offset: int) -> Option<MemLeaf> {
        if !spec_check_type(buf, offset, TYPE_LEAF) {
            None
        } else {
            match vlq_decode(buf, offset + 1) {
                None => None,
                Some((k, n)) => match KeyOffset::spec_from_disk(k, buf) {
                    None => None,
                    Some(key_offset) => match vlq_decode(buf, offset + 1 + n) {
                        None => None,
                        Some((l, _)) => match LinkOffset::spec_from_disk(l, buf) {
                            None => None,
                            Some(link_offset) => Some(MemLeaf { key_offset, link_offset }),
                        },
                    },
                },
            }
        }
    }

    /// Whether `offset_map` can translate the offsets of this entry.
    pub open spec fn translatable(self, offset_map: Map<u64, u64>) -> bool {
        &&& self.key_offset.to_offset().translatable(offset_map)
        &&& self.link_offset.to_offset().translatable(offset_map)
    }

    /// The bytes of the entry, its offsets translated by `offset_map`.
    pub open spec fn spec_bytes(self, offset_map: Map<u64, u64>) -> Seq<u8> {
        seq![TYPE_LEAF] + vlq_bytes(self.key_offset.to_offset().spec_to_disk(offset_map) as nat)
            + vlq_bytes(self.link_offset.to_offset().spec_to_disk(offset_map) as nat)
    }

    /// Reads the leaf entry at `offset`.
    pub fn read_from(buf: &[u8], offset: u64) -> (r: Result<MemLeaf, IndexError>)
        ensures
            r == ok_or_corrupt(MemLeaf::spec_read_from(buf@, offset as int)),
    {
        let pos = match position(buf, offset) {
            Some(p) => p,
            None => { return Err(IndexError::CorruptData); },
        };
        if check_type(buf, pos, TYPE_LEAF).is_err() {
            return Err(IndexError::CorruptData);
        }
        let (key_raw, len) = match read_vlq_at(buf, pos + TYPE_BYTES) {
            Some(x) => x,
            None => { return Err(IndexError::CorruptData); },
        };
        let key_offset = KeyOffset::from_disk(key_raw, buf)?;
        let (link_raw, _) = match read_vlq_at(buf, pos + TYPE_BYTES + len) {
            Some(x) => x,
            None => { return Err(IndexError::CorruptData); },
        };
        let link_offset = LinkOffset::from_disk(link_raw, buf)?;
        Ok(MemLeaf { key_offset, link_offset })
    }

    /// Appends the bytes of the entry to `writer`.
    pub fn write_to(&self, writer: &mut Vec<u8>, offset_map: &HashMap<u64, u64>)
        requires
            self.translatable(offset_map@),
        ensures
            final(writer)@ == old(writer)@ + self.spec_bytes(offset_map@),
    {
        writer.push(TYPE_LEAF);
        write_vlq(writer, self.key_offset.to_offset().to_disk(offset_map));
        write_vlq(writer, self.link_offset.to_offset().to_disk(offset_map));
        assert(writer@ =~= old(writer)@ + self.spec_bytes(offset_map@));
    }
}

impl MemLink {
    /// The link entry at `offset`, where the bytes there are one.
    pub open spec fn spec_read_from(buf: Seq<u8>, offset: int) -> Option<MemLink> {
        if !spec_check_type(buf, offset, TYPE_LINK) {
            None
        } else {
            match vlq_decode(buf, offset + 1) {
                None => None,
                Some((value, n)) => match vlq_decode(buf, offset + 1 + n) {
                    None => None,
                    Some((l, _)) => match LinkOffset::spec_from_disk(l, buf) {
                        None => None,
                        Some(next_link_offset) => Some(MemLink { value, next_link_offset }),
                    },
                },
            }
        }
    }

    /// Whether `offset_map` can translate the offset of this entry.
    pub open spec fn translatable(self, offset_map: Map<u64, u64>) -> bool {
        self.next_link_offset.to_offset().translatable(offset_map)
    }

    /// The bytes of the entry, its offset translated by `offset_map`.
    pub open spec fn spec_bytes(self, offset_map: Map<u64, u64>) -> Seq<u8> {
        seq![TYPE_LINK] + vlq_bytes(self.value as nat) + vlq_bytes(
            self.next_link_offset.to_offset().spec_to_disk(offset_map) as nat,
        )
    }

    /// Reads the link entry at `offset`.
    pub fn read_from(buf: &[u8], offset: u64) -> (r: Result<MemLink, IndexError>)
        ensures
            r == ok_or_corrupt(MemLink::spec_read_from(buf@, offset as int)),
    {
        let pos = match position(buf, offset) {
            Some(p) => p,
            None => { return Err(IndexError::CorruptData); },
        };
        if check_type(buf, pos, TYPE_LINK).is_err() {
            return Err(IndexError::CorruptData);
        }
        let (value, len) = match read_vlq_at(buf, pos + TYPE_BYTES) {
            Some(x) => x,
            None => { return Err(IndexError::CorruptData); },
        };
        let (next_raw, _) = match read_vlq_at(buf, pos + TYPE_BYTES + len) {
            Some(x) => x,
            None => { return Err(IndexError::CorruptData); },
        };
        let next_link_offset = LinkOffset::from_disk(next_raw, buf)?;
        Ok(MemLink { value, next_link_offset })
    }

    /// Appends the bytes of the entry to `writer`.
    pub fn write_to(&self, writer: &mut Vec<u8>, offset_map: &HashMap<u64, u64>)
        requires
            self.translatable(offset_map@),
        ensures
            final(writer)@ == old(writer)@ + self.spec_bytes(offset_map@),
    {
        writer.push(TYPE_LINK);
        write_vlq(writer, self.value);
        write_vlq(writer, self.next_link_offset.to_offset().to_disk(offset_map));
        assert(writer@ =~= old(writer)@ + self.spec_bytes(offset_map@));
    }
}

impl MemKey {
    /// The bytes of the key entry at `offset`, where the bytes there are one.
    pub open spec fn spec_read_from(buf: Seq<u8>, offset: int) -> Option<Seq<u8>> {
        if !spec_check_type(buf, offset, TYPE_KEY) {
            None
        } else {
            match vlq_decode(buf, offset + 1) {
                None => None,
                Some((key_len, n)) => if offset + 1 + n + key_len <= buf.len() {
                    Some(buf.subrange(offset + 1 + n, offset + 1 + n + key_len))
                } else {
                    None
                },
            }
        }
    }

    /// The bytes of an entry with the key `key`.
    pub open spec fn spec_bytes(key: Seq<u8>) -> Seq<u8> {
        seq![TYPE_KEY] + vlq_bytes(key.len()) + key
    }

    /// Finds where the bytes of the key at `offset` start and end.
    pub fn locate(buf: &[u8], offset: u64) -> (r: Result<(usize, usize), IndexError>)
        ensures
            match r {
                Ok((start, end)) => start <= end <= buf@.len() && MemKey::spec_read_from(
                    buf@,
                    offset as int,
                ) == Some(buf@.subrange(start as int, end as int)),
                Err(e) => e == IndexError::CorruptData && MemKey::spec_read_from(
                    buf@,
                    offset as int,
                ) is None,
            },
    {
        let pos = match position(buf, offset) {
            Some(p) => p,
            None => { return Err(IndexError::CorruptData); },
        };
        if check_type(buf, pos, TYPE_KEY).is_err() {
            return Err(IndexError::CorruptData);
        }
        let (key_len, len) = match read_vlq_at(buf, pos + TYPE_BYTES) {
            Some(x) => x,
            None => { return Err(IndexError::CorruptData); },
        };
        let start: usize = pos + TYPE_BYTES + len;
        if key_len > (buf.len() - start) as u64 {
            return Err(IndexError::CorruptData);
        }
        Ok((start, start + key_len as usize))
    }

    /// Reads the key entry at `offset`.
    pub fn read_from(buf: &[u8], offset: u64) -> (r: Result<MemKey, IndexError>)
        ensures
            match r {
                Ok(e) => MemKey::spec_read_from(buf@, offset as int) == Some(e.key@),
                Err(e) => e == IndexError::CorruptData && MemKey::spec_read_from(
                    buf@,
                    offset as int,
                ) is None,
            },
    {
        let (start, end) = MemKey::locate(buf, offset)?;
        let mut key: Vec<u8> = Vec::new();
        let mut i: usize = start;
        while i < end
            invariant
                start <= i <= end <= buf@.len(),
                key@ == buf@.subrange(start as int, i as int),
            decreases end - i,
        {
            key.push(buf[i]);
            assert(key@ =~= buf@.subrange(start as int, i + 1));
            i += 1;
        }
        Ok(MemKey { key })
    }

    /// Appends the bytes of the entry to `writer`.
    pub fn write_to(&self, writer: &mut Vec<u8>, offset_map: &HashMap<u64, u64>)
        ensures
            final(writer)@ == old(writer)@ + MemKey::spec_bytes(self.key@),
    {
        let _ = offset_map;
        writer.push(TYPE_KEY);
        write_vlq(writer, self.key.len() as u64);
        let mut i: usize = 0;
        while i < self.key.len()
            invariant
                i <= self.key@.len(),
                writer@ == old(writer)@ + seq![TYPE_KEY] + vlq_bytes(self.key@.len())
                    + self.key@.take(i as int),
            decreases self.key@.len() - i,
        {
            writer.push(self.key[i]);
            assert(self.key@.take(i + 1) =~= self.key@.take(i as int).push(self.key@[i as int]));
            assert(writer@ =~= old(writer)@ + seq![TYPE_KEY] + vlq_bytes(self.key@.len())
                + self.key@.take(i + 1));
            i += 1;
        }
        assert(self.key@.take(i as int) =~= self.key@);
        assert(writer@ =~= old(writer)@ + MemKey::spec_bytes(self.key@));
    }
}

/// Where the bytes of a root entry end a buffer and the offset in them names
/// a radix entry, the root entry is read back from the end of the buffer: the
/// length in its last byte is the length that it has.
pub proof fn lemma_root_read_back(buf: Seq<u8>, pos: int, radix: u64)
    requires
        0 < pos,
        radix < DIRTY_OFFSET,
        pos + 1 + vlq_bytes(radix as nat).len() + 1 == buf.len(),
        buf.subrange(pos, buf.len() as int) == seq![TYPE_ROOT] + vlq_bytes(radix as nat)
            + vlq_bytes(1 + vlq_bytes(radix as nat).len() + 1),
        Offset::of(radix).fits(buf, TYPE_RADIX),
    ensures
        MemRoot::spec_read_from(buf, pos) == Some(
            MemRoot { radix_offset: RadixOffset::of(Offset::of(radix)) },
        ),
        MemRoot::spec_read_from_end(buf, buf.len() as int) == Some(
            MemRoot { radix_offset: RadixOffset::of(Offset::of(radix)) },
        ),
        vlq_decode(buf, buf.len() - 1) == Some(
            ((1 + vlq_bytes(radix as nat).len() + 1) as u64, 1usize),
        ),
{
    let enc = vlq_bytes(radix as nat);
    let n = enc.len();
    let size = (1 + n + 1) as u64;
    let tail = buf.subrange(pos, buf.len() as int);
    lemma_vlq_bytes_len(radix);
    lemma_vlq_bytes_len(size);
    assert(vlq_bytes(size as nat) =~= seq![size as u8]);
    assert(tail.len() == 1 + n + 1);
    assert(buf[pos] == tail[0]);
    assert(buf.subrange(pos + 1, pos + 1 + n) =~= enc) by {
        assert forall|i: int| 0 <= i < n implies buf.subrange(pos + 1, pos + 1 + n)[i] == enc[i] by {
            assert(buf[pos + 1 + i] == tail[1 + i]);
        }
    }
    lemma_vlq_decode_bytes(buf, pos + 1, radix);
    assert(buf.subrange(pos + 1 + n, pos + 1 + n + 1) =~= vlq_bytes(size as nat)) by {
        assert(buf[pos + 1 + n] == tail[(1 + n) as int]);
    }
    lemma_vlq_decode_bytes(buf, pos + 1 + n, size);
}

/// The last byte of a root entry is a quantity of its own, and it is the
/// number of bytes of the entry.
pub proof fn law_root_length(root: MemRoot, offset_map: Map<u64, u64>)
    ensures
        ({
            let bytes = root.spec_bytes(offset_map);
            vlq_decode(bytes, bytes.len() - 1) == Some((bytes.len() as u64, 1usize))
        }),
{
    let radix = root.radix_offset.to_offset().spec_to_disk(offset_map);
    let bytes = root.spec_bytes(offset_map);
    let enc = vlq_bytes(radix as nat);
    let size = (1 + enc.len() + 1) as u64;
    lemma_vlq_bytes_len(radix);
    lemma_vlq_bytes_len(size);
    assert(vlq_bytes(size as nat) =~= seq![size as u8]);
    assert(bytes.len() == size);
    assert(bytes.subrange(bytes.len() - 1, bytes.len() as int) =~= vlq_bytes(size as nat));
    lemma_vlq_decode_bytes(bytes, bytes.len() - 1, size);
}

impl MemRoot {
    /// The root entry at `offset`, where the bytes there are one: the length
    /// that the entry records is the length that it has.
    pub open spec fn spec_read_from(buf: Seq<u8>, offset: int) -> Option<MemRoot> {
        if !spec_check_type(buf, offset, TYPE_ROOT) {
            None
        } else {
            match vlq_decode(buf, offset + 1) {
                None => None,
                Some((r, n)) => match RadixOffset::spec_from_disk(r, buf) {
                    None => None,
                    Some(radix_offset) => match vlq_decode(buf, offset + 1 + n) {
                        None => None,
                        Some((len, _)) => if len == 1 + n + 1 {
                            Some(MemRoot { radix_offset })
                        } else {
                            None
                        },
                    },
                },
            }
        }
    }

    /// The root entry that ends at `end`, where there is one: the quantity in
    /// the last byte before `end` tells how far back the entry starts.
    pub open spec fn spec_read_from_end(buf: Seq<u8>, end: int) -> Option<MemRoot> {
        if end <= 1 {
            None
        } else {
            match vlq_decode(buf, end - 1) {
                None => None,
                Some((size, _)) => if size > end {
                    None
                } else {
                    MemRoot::spec_read_from(buf, end - size)
                },
            }
        }
    }

    /// Whether `offset_map` can translate the offset of this entry.
    pub open spec fn translatable(self, offset_map: Map<u64, u64>) -> bool {
        self.radix_offset.to_offset().translatable(offset_map)
    }

    /// The bytes of the entry, its offset translated by `offset_map`. The
    /// last byte is the number of bytes of the entry.
    pub open spec fn spec_bytes(self, offset_map: Map<u64, u64>) -> Seq<u8> {
        let radix = vlq_bytes(self.radix_offset.to_offset().spec_to_disk(offset_map) as nat);
        seq![TYPE_ROOT] + radix + vlq_bytes(1 + radix.len() + 1)
    }

    /// Reads the root entry at `offset`.
    pub fn read_from(buf: &[u8], offset: u64) -> (r: Result<MemRoot, IndexError>)
        ensures
            r == ok_or_corrupt(MemRoot::spec_read_from(buf@, offset as int)),
    {
        let pos = match position(buf, offset) {
            Some(p) => p,
            None => { return Err(IndexError::CorruptData); },
        };
        if check_type(buf, pos, TYPE_ROOT).is_err() {
            return Err(IndexError::CorruptData);
        }
        let (radix_raw, len1) = match read_vlq_at(buf, pos + TYPE_BYTES) {
            Some(x) => x,
            None => { return Err(IndexError::CorruptData); },
        };
        let radix_offset = RadixOffset::from_disk(radix_raw, buf)?;
        let (len, _) = match read_vlq_at(buf, pos + TYPE_BYTES + len1) {
            Some(x) => x,
            None => { return Err(IndexError::CorruptData); },
        };
        if len == (TYPE_BYTES + len1 + 1) as u64 {
            Ok(MemRoot { radix_offset })
        } else {
            Err(IndexError::CorruptData)
        }
    }

    /// Reads the root entry that ends at `end`.
    pub fn read_from_end(buf: &[u8], end: u64) -> (r: Result<MemRoot, IndexError>)
        ensures
            r == ok_or_corrupt(MemRoot::spec_read_from_end(buf@, end as int)),
    {
        if end > 1 {
            let last = match position(buf, end - 1) {
                Some(p) => p,
                None => { return Err(IndexError::CorruptData); },
            };
            let (size, _) = match read_vlq_at(buf, last) {
                Some(x) => x,
                None => { return Err(IndexError::CorruptData); },
            };
            if size > end {
                return Err(IndexError::CorruptData);
            }
            MemRoot::read_from(buf, end - size)
        } else {
            Err(IndexError::CorruptData)
        }
    }

    /// Appends the bytes of the entry to `writer`.
    pub fn write_to(&self, writer: &mut Vec<u8>, offset_map: &HashMap<u64, u64>)
        requires
            self.translatable(offset_map@),
        ensures
            final(writer)@ == old(writer)@ + self.spec_bytes(offset_map@),
    {
        let mut buf: Vec<u8> = Vec::with_capacity(16);
        buf.push(TYPE_ROOT);
        let radix: u64 = self.radix_offset.to_offset().to_disk(offset_map);
        write_vlq(&mut buf, radix);
        proof {
            lemma_vlq_bytes_len(radix);
        }
        let len: usize = buf.len() + 1;
        write_vlq(&mut buf, len as u64);
        assert(buf@ =~= self.spec_bytes(offset_map@));
        writer.extend_from_slice(buf.as_slice());
    }
}

} // verus!
