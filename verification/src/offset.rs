//! Offsets: one 64-bit space for entries on disk and entries in memory.
//!
//! An offset below `DIRTY_OFFSET` is a position in the file, with 0 for "none".
//! An offset from `DIRTY_OFFSET` on names an entry that waits in memory: the
//! low three bits hold the entry's type, the bits above them its index among
//! the staged entries of that type.

use vstd::prelude::*;
use std::collections::HashMap;
use crate::error::IndexError;
use crate::error::ok_or_corrupt;

verus! {

/// Offsets from here on name entries in memory.
pub const DIRTY_OFFSET: u64 = 0x8000_0000_0000_0000;

/// The type tag of the file header.
pub const TYPE_HEAD: u8 = 0;

/// The type tag of a root entry.
pub const TYPE_ROOT: u8 = 1;

/// The type tag of a radix entry.
pub const TYPE_RADIX: u8 = 2;

/// The type tag of a leaf entry.
pub const TYPE_LEAF: u8 = 3;

/// The type tag of a link entry.
pub const TYPE_LINK: u8 = 4;

/// The type tag of a key entry.
pub const TYPE_KEY: u8 = 5;

/// The number of bits that hold a type tag in an in-memory offset.
pub const TYPE_BITS: usize = 3;

/// The bits of an in-memory offset that hold the type tag.
pub const TYPE_MASK: u64 = 7;

/// The number of bytes that hold a type tag on disk.
pub const TYPE_BYTES: usize = 1;

/// The number of bytes in a radix entry's jump table.
pub const JUMPTABLE_BYTES: usize = 16;

/// The largest index an in-memory offset can hold.
pub const MAX_DIRTY_INDEX: u64 = 0x0fff_ffff_ffff_ffff;

/// An offset whose type is not known.
#[derive(Clone, Copy, Debug, PartialEq, Eq, Structural)]
pub struct Offset(pub(crate) u64);

/// An offset that is null or names a radix entry.
#[derive(Clone, Copy, Debug, PartialEq, Eq, Structural)]
pub struct RadixOffset(pub(crate) Offset);

/// An offset that is null or names a leaf entry.
#[derive(Clone, Copy, Debug, PartialEq, Eq, Structural)]
pub struct LeafOffset(pub(crate) Offset);

/// An offset that is null or names a link entry.
#[derive(Clone, Copy, Debug, PartialEq, Eq, Structural)]
pub struct LinkOffset(pub(crate) Offset);

/// An offset that is null or names a key entry.
#[derive(Clone, Copy, Debug, PartialEq, Eq, Structural)]
pub struct KeyOffset(pub(crate) Offset);

/// An offset together with the type of the entry it names.
#[derive(Clone, Copy, Debug)]
pub enum TypedOffset {
    Radix(RadixOffset),
    Leaf(LeafOffset),
    Link(LinkOffset),
    Key(KeyOffset),
}

/// The in-memory offset of the staged entry of type `type_int` at `index`.
pub open spec fn dirty_raw(index: nat, type_int: u8) -> int {
    DIRTY_OFFSET + index * 8 + type_int
}

/// The type tag at position `pos` of `buf`, where there is one.
pub open spec fn type_at(buf: Seq<u8>, pos: int) -> Option<u8> {
    if 0 <= pos < buf.len() {
        Some(buf[pos])
    } else {
        None
    }
}

/// The dirty offset made of `index` and `type_int` is dirty and holds both.
pub proof fn lemma_dirty_raw(index: nat, type_int: u8)
    requires
        index <= MAX_DIRTY_INDEX,
        type_int < 8,
    ensures
        DIRTY_OFFSET <= dirty_raw(index, type_int) <= u64::MAX,
        Offset::of(dirty_raw(index, type_int) as u64).spec_is_dirty(),
        Offset::of(dirty_raw(index, type_int) as u64).spec_dirty_index() == index,
        Offset::of(dirty_raw(index, type_int) as u64).spec_dirty_type() == type_int,
{
}

impl Offset {
    /// The 64 bits of the offset.
    pub open(crate) spec fn raw(self) -> u64 {
        self.0
    }

    /// The offset with the bits `raw`.
    pub open(crate) spec fn of(raw: u64) -> Offset {
        Offset(raw)
    }

    /// The null offset.
    pub open spec fn null() -> Offset {
        Offset::of(0)
    }

    /// Whether the offset is null.
    pub open spec fn spec_is_null(self) -> bool {
        self.raw() == 0
    }

    /// Whether the offset names an entry in memory.
    pub open spec fn spec_is_dirty(self) -> bool {
        self.raw() >= DIRTY_OFFSET
    }

    /// The index among the staged entries that a dirty offset holds.
    pub open spec fn spec_dirty_index(self) -> nat {
        ((self.raw() - DIRTY_OFFSET) / 8) as nat
    }

    /// The type tag that a dirty offset holds.
    pub open spec fn spec_dirty_type(self) -> u8 {
        ((self.raw() - DIRTY_OFFSET) % 8) as u8
    }

    /// The type of the entry that the offset names: none for the null offset,
    /// the tag in the low bits of a dirty offset, the byte in the file at an
    /// on-disk offset.
    pub open spec fn spec_type_int(self, buf: Seq<u8>) -> Option<u8> {
        if self.spec_is_null() {
            None
        } else if self.spec_is_dirty() {
            Some(self.spec_dirty_type())
        } else {
            type_at(buf, self.raw() as int)
        }
    }

    /// The offset with its type, where the type is one of the four that an
    /// offset can point at.
    pub open spec fn spec_to_typed(self, buf: Seq<u8>) -> Option<TypedOffset> {
        match self.spec_type_int(buf) {
            Some(t) => if t == TYPE_RADIX {
                Some(TypedOffset::Radix(RadixOffset::of(self)))
            } else if t == TYPE_LEAF {
                Some(TypedOffset::Leaf(LeafOffset::of(self)))
            } else if t == TYPE_LINK {
                Some(TypedOffset::Link(LinkOffset::of(self)))
            } else if t == TYPE_KEY {
                Some(TypedOffset::Key(KeyOffset::of(self)))
            } else {
                None
            },
            None => None,
        }
    }

    /// Whether the offset may stand where an offset to an entry of type
    /// `type_int` is expected: it is null or names an entry of that type.
    pub open spec fn fits(self, buf: Seq<u8>, type_int: u8) -> bool {
        self.spec_is_null() || self.spec_type_int(buf) == Some(type_int)
    }

    /// The position on disk that the offset stands for: its own where it is
    /// not dirty, the one that `offset_map` gives it where it is.
    pub open spec fn spec_to_disk(self, offset_map: Map<u64, u64>) -> u64 {
        if self.spec_is_dirty() {
            offset_map[self.raw()]
        } else {
            self.raw()
        }
    }

    /// Whether `offset_map` can translate the offset.
    pub open spec fn translatable(self, offset_map: Map<u64, u64>) -> bool {
        self.spec_is_dirty() ==> offset_map.contains_key(self.raw())
    }

    /// The null offset.
    pub fn new_null() -> (r: Offset)
        ensures
            r == Offset::null(),
    {
        Offset(0)
    }

    /// The 64 bits of the offset.
    pub fn to_u64(self) -> (r: u64)
        ensures
            r == self.raw(),
    {
        self.0
    }

    /// Takes a value read from disk as an offset. An offset on disk is never
    /// dirty.
    pub fn from_disk(value: u64) -> (r: Result<Offset, IndexError>)
        ensures
            r == if value >= DIRTY_OFFSET {
                Err(IndexError::CorruptData)
            } else {
                Ok(Offset::of(value))
            },
    {
        if value >= DIRTY_OFFSET {
            Err(IndexError::CorruptData)
        } else {
            Ok(Offset(value))
        }
    }

    /// The position to write to disk in place of this offset.
    pub fn to_disk(self, offset_map: &HashMap<u64, u64>) -> (r: u64)
        requires
            self.translatable(offset_map@),
        ensures
            r == self.spec_to_disk(offset_map@),
    {
        if self.is_dirty() {
            match offset_map.get(&self.0) {
                Some(v) => *v,
                None => 0,
            }
        } else {
            self.0
        }
    }

    /// Finds the type of the entry that the offset names.
    pub fn to_typed(self, buf: &[u8]) -> (r: Result<TypedOffset, IndexError>)
        ensures
            r == ok_or_corrupt(self.spec_to_typed(buf@)),
    {
        let type_int = self.type_int(buf)?;
        if type_int == TYPE_RADIX {
            Ok(TypedOffset::Radix(RadixOffset(self)))
        } else if type_int == TYPE_LEAF {
            Ok(TypedOffset::Leaf(LeafOffset(self)))
        } else if type_int == TYPE_LINK {
            Ok(TypedOffset::Link(LinkOffset(self)))
        } else if type_int == TYPE_KEY {
            Ok(TypedOffset::Key(KeyOffset(self)))
        } else {
            Err(IndexError::CorruptData)
        }
    }

    /// Reads the type tag of the entry that the offset names.
    pub fn type_int(self, buf: &[u8]) -> (r: Result<u8, IndexError>)
        ensures
            r == ok_or_corrupt(self.spec_type_int(buf@)),
    {
        if self.is_null() {
            Err(IndexError::CorruptData)
        } else if self.is_dirty() {
            let rest: u64 = self.0 - DIRTY_OFFSET;
            assert(rest & TYPE_MASK == rest % 8) by (bit_vector);
            Ok((rest & TYPE_MASK) as u8)
        } else {
            if self.0 < buf.len() as u64 {
                Ok(buf[self.0 as usize])
            } else {
                Err(IndexError::CorruptData)
            }
        }
    }

    /// Whether the offset is null.
    #[verifier::when_used_as_spec(spec_is_null)]
    pub fn is_null(self) -> (r: bool)
        ensures
            r == self.spec_is_null(),
    {
        self.0 == 0
    }

    /// Whether the offset names an entry in memory.
    #[verifier::when_used_as_spec(spec_is_dirty)]
    pub fn is_dirty(self) -> (r: bool)
        ensures
            r == self.spec_is_dirty(),
    {
        self.0 >= DIRTY_OFFSET
    }

    /// The index that a dirty offset holds.
    pub fn dirty_index(self) -> (r: u64)
        requires
            self.spec_is_dirty(),
        ensures
            r == self.spec_dirty_index(),
            r <= MAX_DIRTY_INDEX,
    {
        let rest: u64 = self.0 - DIRTY_OFFSET;
        assert(rest >> 3 == rest / 8) by (bit_vector);
        rest >> TYPE_BITS
    }

    /// The dirty offset of the staged entry of type `type_int` at `index`.
    pub(crate) fn from_staged(index: usize, type_int: u8) -> (r: Offset)
        requires
            index <= MAX_DIRTY_INDEX,
            type_int < 8,
        ensures
            r.raw() == dirty_raw(index as nat, type_int),
            r.spec_is_dirty(),
            r.spec_dirty_index() == index,
            r.spec_dirty_type() == type_int,
    {
        let i: u64 = index as u64;
        let t: u64 = type_int as u64;
        assert(i <= 0x0fff_ffff_ffff_ffff && t < 8 ==> ((i << 3) | t) == i * 8 + t)
            by (bit_vector);
        Offset(((i << TYPE_BITS) | t) + DIRTY_OFFSET)
    }
}

impl RadixOffset {
    /// The offset without its type.
    pub open(crate) spec fn spec_to_offset(self) -> Offset {
        self.0
    }

    /// The radix offset with the bits of `offset`.
    pub open(crate) spec fn of(offset: Offset) -> RadixOffset {
        RadixOffset(offset)
    }

    /// The null radix offset.
    pub open spec fn null() -> RadixOffset {
        RadixOffset::of(Offset::null())
    }

    /// The 64 bits of the offset.
    pub open spec fn raw(self) -> u64 {
        self.spec_to_offset().raw()
    }

    /// Whether the offset is null.
    pub open spec fn spec_is_null(self) -> bool {
        self.spec_to_offset().spec_is_null()
    }

    /// Whether the offset names an entry in memory.
    pub open spec fn spec_is_dirty(self) -> bool {
        self.spec_to_offset().spec_is_dirty()
    }

    /// The index among the staged radix entries that a dirty offset holds.
    pub open spec fn spec_dirty_index(self) -> nat {
        self.spec_to_offset().spec_dirty_index()
    }

    /// The offset of the staged radix entry at `index`.
    pub open spec fn spec_dirty(index: nat) -> RadixOffset {
        RadixOffset::of(Offset::of(dirty_raw(index, TYPE_RADIX) as u64))
    }

    /// A dirty offset of this type carries the tag of a radix entry.
    pub open spec fn tagged(self) -> bool {
        self.spec_is_dirty() ==> self.spec_to_offset().spec_dirty_type() == TYPE_RADIX
    }

    /// `offset` as a radix offset, where it is null or names a radix entry.
    pub open spec fn spec_from_offset(offset: Offset, buf: Seq<u8>) -> Option<RadixOffset> {
        if offset.fits(buf, TYPE_RADIX) {
            Some(RadixOffset::of(offset))
        } else {
            None
        }
    }

    /// A value read from disk as a radix offset, where it is not dirty and
    /// is null or names a radix entry.
    pub open spec fn spec_from_disk(value: u64, buf: Seq<u8>) -> Option<RadixOffset> {
        if value >= DIRTY_OFFSET {
            None
        } else {
            RadixOffset::spec_from_offset(Offset::of(value), buf)
        }
    }

    /// A dirty radix offset with the right tag is the offset of the staged
    /// radix entry at its index.
    pub proof fn lemma_tagged(self)
        requires
            self.spec_is_dirty(),
            self.tagged(),
        ensures
            self == RadixOffset::spec_dirty(self.spec_dirty_index()),
            self.spec_dirty_index() <= MAX_DIRTY_INDEX,
            self.to_offset().spec_dirty_type() == TYPE_RADIX,
    {
    }

    /// The offset of the staged radix entry at `index` is dirty, has the
    /// right tag and holds `index`.
    pub proof fn lemma_spec_dirty(index: nat)
        requires
            index <= MAX_DIRTY_INDEX,
        ensures
            RadixOffset::spec_dirty(index).spec_is_dirty(),
            RadixOffset::spec_dirty(index).tagged(),
            RadixOffset::spec_dirty(index).spec_dirty_index() == index,
            RadixOffset::spec_dirty(index).to_offset().spec_dirty_type() == TYPE_RADIX,
            !RadixOffset::spec_dirty(index).spec_is_null(),
    {
        lemma_dirty_raw(index, TYPE_RADIX);
    }

    /// The type tag of the entries that offsets of this type name.
    pub fn type_int() -> (r: u8)
        ensures
            r == TYPE_RADIX,
    {
        TYPE_RADIX
    }

    /// The offset without its type.
    #[verifier::when_used_as_spec(spec_to_offset)]
    pub fn to_offset(self) -> (r: Offset)
        ensures
            r == self.spec_to_offset(),
    {
        self.0
    }

    /// The null radix offset.
    pub fn new_null() -> (r: RadixOffset)
        ensures
            r == RadixOffset::null(),
    {
        RadixOffset(Offset(0))
    }

    /// Whether the offset is null.
    #[verifier::when_used_as_spec(spec_is_null)]
    pub fn is_null(self) -> (r: bool)
        ensures
            r == self.spec_is_null(),
    {
        self.0.is_null()
    }

    /// Whether the offset names an entry in memory.
    #[verifier::when_used_as_spec(spec_is_dirty)]
    pub fn is_dirty(self) -> (r: bool)
        ensures
            r == self.spec_is_dirty(),
    {
        self.0.is_dirty()
    }

    /// The index among the staged radix entries that a dirty offset holds.
    pub fn dirty_index(self) -> (r: u64)
        requires
            self.spec_is_dirty(),
        ensures
            r == self.spec_dirty_index(),
            r <= MAX_DIRTY_INDEX,
    {
        self.0.dirty_index()
    }

    /// Takes `offset` as a radix offset after checking that it is null or
    /// names a radix entry.
    pub fn from_offset(offset: Offset, buf: &[u8]) -> (r: Result<RadixOffset, IndexError>)
        ensures
            r == ok_or_corrupt(RadixOffset::spec_from_offset(offset, buf@)),
            r matches Ok(t) ==> t.tagged(),
    {
        if offset.is_null() {
            Ok(RadixOffset(offset))
        } else {
            let type_int = offset.type_int(buf)?;
            if type_int == TYPE_RADIX {
                Ok(RadixOffset(offset))
            } else {
                Err(IndexError::CorruptData)
            }
        }
    }

    /// Takes a value read from disk as a radix offset after checking that
    /// it is not dirty and is null or names a radix entry.
    pub fn from_disk(value: u64, buf: &[u8]) -> (r: Result<RadixOffset, IndexError>)
        ensures
            r == ok_or_corrupt(RadixOffset::spec_from_disk(value, buf@)),
            r matches Ok(t) ==> !t.spec_is_dirty(),
    {
        let offset = Offset::from_disk(value)?;
        RadixOffset::from_offset(offset, buf)
    }

    /// The offset of the staged radix entry at `index`.
    pub fn from_dirty_index(index: usize) -> (r: RadixOffset)
        requires
            index <= MAX_DIRTY_INDEX,
        ensures
            r == RadixOffset::spec_dirty(index as nat),
            r.spec_is_dirty(),
            r.spec_dirty_index() == index,
            r.tagged(),
    {
        RadixOffset(Offset::from_staged(index, TYPE_RADIX))
    }
}

impl LeafOffset {
    /// The offset without its type.
    pub open(crate) spec fn spec_to_offset(self) -> Offset {
        self.0
    }

    /// The leaf offset with the bits of `offset`.
    pub open(crate) spec fn of(offset: Offset) -> LeafOffset {
        LeafOffset(offset)
    }

    /// The null leaf offset.
    pub open spec fn null() -> LeafOffset {
        LeafOffset::of(Offset::null())
    }

    /// The 64 bits of the offset.
    pub open spec fn raw(self) -> u64 {
        self.spec_to_offset().raw()
    }

    /// Whether the offset is null.
    pub open spec fn spec_is_null(self) -> bool {
        self.spec_to_offset().spec_is_null()
    }

    /// Whether the offset names an entry in memory.
    pub open spec fn spec_is_dirty(self) -> bool {
        self.spec_to_offset().spec_is_dirty()
    }

    /// The index among the staged leaf entries that a dirty offset holds.
    pub open spec fn spec_dirty_index(self) -> nat {
        self.spec_to_offset().spec_dirty_index()
    }

    /// The offset of the staged leaf entry at `index`.
    pub open spec fn spec_dirty(index: nat) -> LeafOffset {
        LeafOffset::of(Offset::of(dirty_raw(index, TYPE_LEAF) as u64))
    }

    /// A dirty offset of this type carries the tag of a leaf entry.
    pub open spec fn tagged(self) -> bool {
        self.spec_is_dirty() ==> self.spec_to_offset().spec_dirty_type() == TYPE_LEAF
    }

    /// `offset` as a leaf offset, where it is null or names a leaf entry.
    pub open spec fn spec_from_offset(offset: Offset, buf: Seq<u8>) -> Option<LeafOffset> {
        if offset.fits(buf, TYPE_LEAF) {
            Some(LeafOffset::of(offset))
        } else {
            None
        }
    }

    /// A value read from disk as a leaf offset, where it is not dirty and
    /// is null or names a leaf entry.
    pub open spec fn spec_from_disk(value: u64, buf: Seq<u8>) -> Option<LeafOffset> {
        if value >= DIRTY_OFFSET {
            None
        } else {
            LeafOffset::spec_from_offset(Offset::of(value), buf)
        }
    }

    /// A dirty leaf offset with the right tag is the offset of the staged
    /// leaf entry at its index.
    pub proof fn lemma_tagged(self)
        requires
            self.spec_is_dirty(),
            self.tagged(),
        ensures
            self == LeafOffset::spec_dirty(self.spec_dirty_index()),
            self.spec_dirty_index() <= MAX_DIRTY_INDEX,
            self.to_offset().spec_dirty_type() == TYPE_LEAF,
    {
    }

    /// The offset of the staged leaf entry at `index` is dirty, has the
    /// right tag and holds `index`.
    pub proof fn lemma_spec_dirty(index: nat)
        requires
            index <= MAX_DIRTY_INDEX,
        ensures
            LeafOffset::spec_dirty(index).spec_is_dirty(),
            LeafOffset::spec_dirty(index).tagged(),
            LeafOffset::spec_dirty(index).spec_dirty_index() == index,
            LeafOffset::spec_dirty(index).to_offset().spec_dirty_type() == TYPE_LEAF,
            !LeafOffset::spec_dirty(index).spec_is_null(),
    {
        lemma_dirty_raw(index, TYPE_LEAF);
    }

    /// The type tag of the entries that offsets of this type name.
    pub fn type_int() -> (r: u8)
        ensures
            r == TYPE_LEAF,
    {
        TYPE_LEAF
    }

    /// The offset without its type.
    #[verifier::when_used_as_spec(spec_to_offset)]
    pub fn to_offset(self) -> (r: Offset)
        ensures
            r == self.spec_to_offset(),
    {
        self.0
    }

    /// The null leaf offset.
    pub fn new_null() -> (r: LeafOffset)
        ensures
            r == LeafOffset::null(),
    {
        LeafOffset(Offset(0))
    }

    /// Whether the offset is null.
    #[verifier::when_used_as_spec(spec_is_null)]
    pub fn is_null(self) -> (r: bool)
        ensures
            r == self.spec_is_null(),
    {
        self.0.is_null()
    }

    /// Whether the offset names an entry in memory.
    #[verifier::when_used_as_spec(spec_is_dirty)]
    pub fn is_dirty(self) -> (r: bool)
        ensures
            r == self.spec_is_dirty(),
    {
        self.0.is_dirty()
    }

    /// The index among the staged leaf entries that a dirty offset holds.
    pub fn dirty_index(self) -> (r: u64)
        requires
            self.spec_is_dirty(),
        ensures
            r == self.spec_dirty_index(),
            r <= MAX_DIRTY_INDEX,
    {
        self.0.dirty_index()
    }

    /// Takes `offset` as a leaf offset after checking that it is null or
    /// names a leaf entry.
    pub fn from_offset(offset: Offset, buf: &[u8]) -> (r: Result<LeafOffset, IndexError>)
        ensures
            r == ok_or_corrupt(LeafOffset::spec_from_offset(offset, buf@)),
            r matches Ok(t) ==> t.tagged(),
    {
        if offset.is_null() {
            Ok(LeafOffset(offset))
        } else {
            let type_int = offset.type_int(buf)?;
            if type_int == TYPE_LEAF {
                Ok(LeafOffset(offset))
            } else {
                Err(IndexError::CorruptData)
            }
        }
    }

    /// Takes a value read from disk as a leaf offset after checking that
    /// it is not dirty and is null or names a leaf entry.
    pub fn from_disk(value: u64, buf: &[u8]) -> (r: Result<LeafOffset, IndexError>)
        ensures
            r == ok_or_corrupt(LeafOffset::spec_from_disk(value, buf@)),
            r matches Ok(t) ==> !t.spec_is_dirty(),
    {
        let offset = Offset::from_disk(value)?;
        LeafOffset::from_offset(offset, buf)
    }

    /// The offset of the staged leaf entry at `index`.
    pub fn from_dirty_index(index: usize) -> (r: LeafOffset)
        requires
            index <= MAX_DIRTY_INDEX,
        ensures
            r == LeafOffset::spec_dirty(index as nat),
            r.spec_is_dirty(),
            r.spec_dirty_index() == index,
            r.tagged(),
    {
        LeafOffset(Offset::from_staged(index, TYPE_LEAF))
    }
}

impl LinkOffset {
    /// The offset without its type.
    pub open(crate) spec fn spec_to_offset(self) -> Offset {
        self.0
    }

    /// The link offset with the bits of `offset`.
    pub open(crate) spec fn of(offset: Offset) -> LinkOffset {
        LinkOffset(offset)
    }

    /// The null link offset.
    pub open spec fn null() -> LinkOffset {
        LinkOffset::of(Offset::null())
    }

    /// The 64 bits of the offset.
    pub open spec fn raw(self) -> u64 {
        self.spec_to_offset().raw()
    }

    /// Whether the offset is null.
    pub open spec fn spec_is_null(self) -> bool {
        self.spec_to_offset().spec_is_null()
    }

    /// Whether the offset names an entry in memory.
    pub open spec fn spec_is_dirty(self) -> bool {
        self.spec_to_offset().spec_is_dirty()
    }

    /// The index among the staged link entries that a dirty offset holds.
    pub open spec fn spec_dirty_index(self) -> nat {
        self.spec_to_offset().spec_dirty_index()
    }

    /// The offset of the staged link entry at `index`.
    pub open spec fn spec_dirty(index: nat) -> LinkOffset {
        LinkOffset::of(Offset::of(dirty_raw(index, TYPE_LINK) as u64))
    }

    /// A dirty offset of this type carries the tag of a link entry.
    pub open spec fn tagged(self) -> bool {
        self.spec_is_dirty() ==> self.spec_to_offset().spec_dirty_type() == TYPE_LINK
    }

    /// `offset` as a link offset, where it is null or names a link entry.
    pub open spec fn spec_from_offset(offset: Offset, buf: Seq<u8>) -> Option<LinkOffset> {
        if offset.fits(buf, TYPE_LINK) {
            Some(LinkOffset::of(offset))
        } else {
            None
        }
    }

    /// A value read from disk as a link offset, where it is not dirty and
    /// is null or names a link entry.
    pub open spec fn spec_from_disk(value: u64, buf: Seq<u8>) -> Option<LinkOffset> {
        if value >= DIRTY_OFFSET {
            None
        } else {
            LinkOffset::spec_from_offset(Offset::of(value), buf)
        }
    }

    /// A dirty link offset with the right tag is the offset of the staged
    /// link entry at its index.
    pub proof fn lemma_tagged(self)
        requires
            self.spec_is_dirty(),
            self.tagged(),
        ensures
            self == LinkOffset::spec_dirty(self.spec_dirty_index()),
            self.spec_dirty_index() <= MAX_DIRTY_INDEX,
            self.to_offset().spec_dirty_type() == TYPE_LINK,
    {
    }

    /// The offset of the staged link entry at `index` is dirty, has the
    /// right tag and holds `index`.
    pub proof fn lemma_spec_dirty(index: nat)
        requires
            index <= MAX_DIRTY_INDEX,
        ensures
            LinkOffset::spec_dirty(index).spec_is_dirty(),
            LinkOffset::spec_dirty(index).tagged(),
            LinkOffset::spec_dirty(index).spec_dirty_index() == index,
            LinkOffset::spec_dirty(index).to_offset().spec_dirty_type() == TYPE_LINK,
            !LinkOffset::spec_dirty(index).spec_is_null(),
    {
        lemma_dirty_raw(index, TYPE_LINK);
    }

    /// The type tag of the entries that offsets of this type name.
    pub fn type_int() -> (r: u8)
        ensures
            r == TYPE_LINK,
    {
        TYPE_LINK
    }

    /// The offset without its type.
    #[verifier::when_used_as_spec(spec_to_offset)]
    pub fn to_offset(self) -> (r: Offset)
        ensures
            r == self.spec_to_offset(),
    {
        self.0
    }

    /// The null link offset.
    pub fn new_null() -> (r: LinkOffset)
        ensures
            r == LinkOffset::null(),
    {
        LinkOffset(Offset(0))
    }

    /// Whether the offset is null.
    #[verifier::when_used_as_spec(spec_is_null)]
    pub fn is_null(self) -> (r: bool)
        ensures
            r == self.spec_is_null(),
    {
        self.0.is_null()
    }

    /// Whether the offset names an entry in memory.
    #[verifier::when_used_as_spec(spec_is_dirty)]
    pub fn is_dirty(self) -> (r: bool)
        ensures
            r == self.spec_is_dirty(),
    {
        self.0.is_dirty()
    }

    /// The index among the staged link entries that a dirty offset holds.
    pub fn dirty_index(self) -> (r: u64)
        requires
            self.spec_is_dirty(),
        ensures
            r == self.spec_dirty_index(),
            r <= MAX_DIRTY_INDEX,
    {
        self.0.dirty_index()
    }

    /// Takes `offset` as a link offset after checking that it is null or
    /// names a link entry.
    pub fn from_offset(offset: Offset, buf: &[u8]) -> (r: Result<LinkOffset, IndexError>)
        ensures
            r == ok_or_corrupt(LinkOffset::spec_from_offset(offset, buf@)),
            r matches Ok(t) ==> t.tagged(),
    {
        if offset.is_null() {
            Ok(LinkOffset(offset))
        } else {
            let type_int = offset.type_int(buf)?;
            if type_int == TYPE_LINK {
                Ok(LinkOffset(offset))
            } else {
                Err(IndexError::CorruptData)
            }
        }
    }

    /// Takes a value read from disk as a link offset after checking that
    /// it is not dirty and is null or names a link entry.
    pub fn from_disk(value: u64, buf: &[u8]) -> (r: Result<LinkOffset, IndexError>)
        ensures
            r == ok_or_corrupt(LinkOffset::spec_from_disk(value, buf@)),
            r matches Ok(t) ==> !t.spec_is_dirty(),
    {
        let offset = Offset::from_disk(value)?;
        LinkOffset::from_offset(offset, buf)
    }

    /// The offset of the staged link entry at `index`.
    pub fn from_dirty_index(index: usize) -> (r: LinkOffset)
        requires
            index <= MAX_DIRTY_INDEX,
        ensures
            r == LinkOffset::spec_dirty(index as nat),
            r.spec_is_dirty(),
            r.spec_dirty_index() == index,
            r.tagged(),
    {
        LinkOffset(Offset::from_staged(index, TYPE_LINK))
    }
}

impl KeyOffset {
    /// The offset without its type.
    pub open(crate) spec fn spec_to_offset(self) -> Offset {
        self.0
    }

    /// The key offset with the bits of `offset`.
    pub open(crate) spec fn of(offset: Offset) -> KeyOffset {
        KeyOffset(offset)
    }

    /// The null key offset.
    pub open spec fn null() -> KeyOffset {
        KeyOffset::of(Offset::null())
    }

    /// The 64 bits of the offset.
    pub open spec fn raw(self) -> u64 {
        self.spec_to_offset().raw()
    }

    /// Whether the offset is null.
    pub open spec fn spec_is_null(self) -> bool {
        self.spec_to_offset().spec_is_null()
    }

    /// Whether the offset names an entry in memory.
    pub open spec fn spec_is_dirty(self) -> bool {
        self.spec_to_offset().spec_is_dirty()
    }

    /// The index among the staged key entries that a dirty offset holds.
    pub open spec fn spec_dirty_index(self) -> nat {
        self.spec_to_offset().spec_dirty_index()
    }

    /// The offset of the staged key entry at `index`.
    pub open spec fn spec_dirty(index: nat) -> KeyOffset {
        KeyOffset::of(Offset::of(dirty_raw(index, TYPE_KEY) as u64))
    }

    /// A dirty offset of this type carries the tag of a key entry.
    pub open spec fn tagged(self) -> bool {
        self.spec_is_dirty() ==> self.spec_to_offset().spec_dirty_type() == TYPE_KEY
    }

    /// `offset` as a key offset, where it is null or names a key entry.
    pub open spec fn spec_from_offset(offset: Offset, buf: Seq<u8>) -> Option<KeyOffset> {
        if offset.fits(buf, TYPE_KEY) {
            Some(KeyOffset::of(offset))
        } else {
            None
        }
    }

    /// A value read from disk as a key offset, where it is not dirty and
    /// is null or names a key entry.
    pub open spec fn spec_from_disk(value: u64, buf: Seq<u8>) -> Option<KeyOffset> {
        if value >= DIRTY_OFFSET {
            None
        } else {
            KeyOffset::spec_from_offset(Offset::of(value), buf)
        }
    }

    /// A dirty key offset with the right tag is the offset of the staged
    /// key entry at its index.
    pub proof fn lemma_tagged(self)
        requires
            self.spec_is_dirty(),
            self.tagged(),
        ensures
            self == KeyOffset::spec_dirty(self.spec_dirty_index()),
            self.spec_dirty_index() <= MAX_DIRTY_INDEX,
            self.to_offset().spec_dirty_type() == TYPE_KEY,
    {
    }

    /// The offset of the staged key entry at `index` is dirty, has the
    /// right tag and holds `index`.
    pub proof fn lemma_spec_dirty(index: nat)
        requires
            index <= MAX_DIRTY_INDEX,
        ensures
            KeyOffset::spec_dirty(index).spec_is_dirty(),
            KeyOffset::spec_dirty(index).tagged(),
            KeyOffset::spec_dirty(index).spec_dirty_index() == index,
            KeyOffset::spec_dirty(index).to_offset().spec_dirty_type() == TYPE_KEY,
            !KeyOffset::spec_dirty(index).spec_is_null(),
    {
        lemma_dirty_raw(index, TYPE_KEY);
    }

    /// The type tag of the entries that offsets of this type name.
    pub fn type_int() -> (r: u8)
        ensures
            r == TYPE_KEY,
    {
        TYPE_KEY
    }

    /// The offset without its type.
    #[verifier::when_used_as_spec(spec_to_offset)]
    pub fn to_offset(self) -> (r: Offset)
        ensures
            r == self.spec_to_offset(),
    {
        self.0
    }

    /// The null key offset.
    pub fn new_null() -> (r: KeyOffset)
        ensures
            r == KeyOffset::null(),
    {
        KeyOffset(Offset(0))
    }

    /// Whether the offset is null.
    #[verifier::when_used_as_spec(spec_is_null)]
    pub fn is_null(self) -> (r: bool)
        ensures
            r == self.spec_is_null(),
    {
        self.0.is_null()
    }

    /// Whether the offset names an entry in memory.
    #[verifier::when_used_as_spec(spec_is_dirty)]
    pub fn is_dirty(self) -> (r: bool)
        ensures
            r == self.spec_is_dirty(),
    {
        self.0.is_dirty()
    }

    /// The index among the staged key entries that a dirty offset holds.
    pub fn dirty_index(self) -> (r: u64)
        requires
            self.spec_is_dirty(),
        ensures
            r == self.spec_dirty_index(),
            r <= MAX_DIRTY_INDEX,
    {
        self.0.dirty_index()
    }

    /// Takes `offset` as a key offset after checking that it is null or
    /// names a key entry.
    pub fn from_offset(offset: Offset, buf: &[u8]) -> (r: Result<KeyOffset, IndexError>)
        ensures
            r == ok_or_corrupt(KeyOffset::spec_from_offset(offset, buf@)),
            r matches Ok(t) ==> t.tagged(),
    {
        if offset.is_null() {
            Ok(KeyOffset(offset))
        } else {
            let type_int = offset.type_int(buf)?;
            if type_int == TYPE_KEY {
                Ok(KeyOffset(offset))
            } else {
                Err(IndexError::CorruptData)
            }
        }
    }

    /// Takes a value read from disk as a key offset after checking that
    /// it is not dirty and is null or names a key entry.
    pub fn from_disk(value: u64, buf: &[u8]) -> (r: Result<KeyOffset, IndexError>)
        ensures
            r == ok_or_corrupt(KeyOffset::spec_from_disk(value, buf@)),
            r matches Ok(t) ==> !t.spec_is_dirty(),
    {
        let offset = Offset::from_disk(value)?;
        KeyOffset::from_offset(offset, buf)
    }

    /// The offset of the staged key entry at `index`.
    pub fn from_dirty_index(index: usize) -> (r: KeyOffset)
        requires
            index <= MAX_DIRTY_INDEX,
        ensures
            r == KeyOffset::spec_dirty(index as nat),
            r.spec_is_dirty(),
            r.spec_dirty_index() == index,
            r.tagged(),
    {
        KeyOffset(Offset::from_staged(index, TYPE_KEY))
    }
}

} // verus!
