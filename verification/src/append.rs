//! A file only grows: what was read once reads the same for ever.
//!
//! An index sees as many bytes of its file as it had when the index was
//! opened. Whoever flushes appends, and no byte that is written changes. Each
//! lemma here says of one way of reading that it finds in a longer file what
//! it found in the shorter one.

use vstd::prelude::*;
use crate::base16::nibble;
use crate::base16::nibble_count;
use crate::entry::MemKey;
use crate::entry::MemLeaf;
use crate::entry::MemLink;
use crate::entry::MemRadix;
use crate::entry::MemRoot;
use crate::entry::disk_offset_at;
use crate::offset::Offset;
use crate::offset::TYPE_RADIX;
use crate::offset::TypedOffset;
use crate::offset::type_at;
use crate::sound::disk_sound;
use crate::sound::lemma_nibble_range;
use crate::state::IndexView;
use crate::state::disk_link_value;
use crate::state::disk_radix_child;
use crate::state::disk_radix_link;
use crate::vlq::lemma_vlq_scan_bounds;
use crate::vlq::lemma_vlq_scan_local;
use crate::vlq::vlq_decode;

verus! {

/// Whether `longer` starts with the bytes of `shorter`.
pub open spec fn extends(shorter: Seq<u8>, longer: Seq<u8>) -> bool {
    &&& shorter.len() <= longer.len()
    &&& forall|i: int| 0 <= i < shorter.len() ==> #[trigger] longer[i] == shorter[i]
}

/// A quantity that decodes decodes to the same in a longer file.
pub proof fn lemma_vlq_extends(a: Seq<u8>, b: Seq<u8>, pos: int)
    requires
        extends(a, b),
        vlq_decode(a, pos) is Some,
    ensures
        vlq_decode(b, pos) == vlq_decode(a, pos),
{
    lemma_vlq_scan_bounds(a, pos, 0);
    lemma_vlq_scan_local(a, b, pos, 0);
}

/// An on-disk offset that decodes decodes to the same in a longer file.
pub proof fn lemma_offset_extends(a: Seq<u8>, b: Seq<u8>, pos: int)
    requires
        extends(a, b),
        disk_offset_at(a, pos) is Some,
    ensures
        disk_offset_at(b, pos) == disk_offset_at(a, pos),
{
    lemma_vlq_extends(a, b, pos);
}

/// A leaf entry that reads reads the same in a longer file.
pub proof fn lemma_leaf_extends(a: Seq<u8>, b: Seq<u8>, pos: int)
    requires
        extends(a, b),
        MemLeaf::spec_read_from(a, pos) is Some,
    ensures
        MemLeaf::spec_read_from(b, pos) == MemLeaf::spec_read_from(a, pos),
{
    lemma_vlq_extends(a, b, pos + 1);
    let (k, n) = vlq_decode(a, pos + 1).unwrap();
    lemma_vlq_extends(a, b, pos + 1 + n);
}

/// A link entry that reads reads the same in a longer file.
pub proof fn lemma_link_extends(a: Seq<u8>, b: Seq<u8>, pos: int)
    requires
        extends(a, b),
        MemLink::spec_read_from(a, pos) is Some,
    ensures
        MemLink::spec_read_from(b, pos) == MemLink::spec_read_from(a, pos),
        disk_link_value(b, pos) == disk_link_value(a, pos),
{
    lemma_vlq_extends(a, b, pos + 1);
    let (v, n) = vlq_decode(a, pos + 1).unwrap();
    lemma_vlq_extends(a, b, pos + 1 + n);
}

/// A key entry that reads reads the same in a longer file.
pub proof fn lemma_key_extends(a: Seq<u8>, b: Seq<u8>, pos: int)
    requires
        extends(a, b),
        MemKey::spec_read_from(a, pos) is Some,
    ensures
        MemKey::spec_read_from(b, pos) == MemKey::spec_read_from(a, pos),
{
    lemma_vlq_extends(a, b, pos + 1);
    let (len, n) = vlq_decode(a, pos + 1).unwrap();
    assert(b.subrange(pos + 1 + n, pos + 1 + n + len) =~= a.subrange(
        pos + 1 + n,
        pos + 1 + n + len,
    ));
}

/// A root entry that reads reads the same in a longer file: a root offset
/// that was good once is good for ever.
pub proof fn law_root_extends(a: Seq<u8>, b: Seq<u8>, pos: int)
    requires
        extends(a, b),
        MemRoot::spec_read_from(a, pos) is Some,
    ensures
        MemRoot::spec_read_from(b, pos) == MemRoot::spec_read_from(a, pos),
{
    lemma_vlq_extends(a, b, pos + 1);
    let (r, n) = vlq_decode(a, pos + 1).unwrap();
    lemma_vlq_extends(a, b, pos + 1 + n);
}

/// Children that read read the same in a longer file.
pub proof fn lemma_children_extend(
    a: Seq<u8>,
    b: Seq<u8>,
    offset: int,
    i: nat,
    pos: int,
    acc: Seq<Offset>,
)
    requires
        extends(a, b),
        0 <= offset,
        offset + 17 <= a.len(),
        MemRadix::spec_read_children(a, offset, i, pos, acc) is Some,
    ensures
        MemRadix::spec_read_children(b, offset, i, pos, acc) == MemRadix::spec_read_children(
            a,
            offset,
            i,
            pos,
            acc,
        ),
    decreases 16 - i,
{
    if i < 16 {
        let jump = a[offset + 1 + i];
        assert(b[offset + 1 + i] == jump);
        if jump == 0 {
            lemma_children_extend(a, b, offset, i + 1, pos, acc.push(Offset::null()));
        } else {
            lemma_offset_extends(a, b, offset + pos);
            let (child, n) = disk_offset_at(a, offset + pos).unwrap();
            lemma_children_extend(a, b, offset, i + 1, pos + n, acc.push(child));
        }
    }
}

/// A radix entry that reads whole reads the same in a longer file, and so do
/// its link and each of its children read alone.
pub proof fn lemma_radix_extends(a: Seq<u8>, b: Seq<u8>, pos: int)
    requires
        extends(a, b),
        MemRadix::spec_read_from(a, pos) is Some,
    ensures
        MemRadix::spec_read_from(b, pos) == MemRadix::spec_read_from(a, pos),
{
    lemma_vlq_extends(a, b, pos + 17);
    let (l, n) = vlq_decode(a, pos + 17).unwrap();
    lemma_children_extend(a, b, pos, 0, 17 + n, Seq::empty());
}

/// The link of a radix entry that reads reads the same in a longer file.
pub proof fn lemma_radix_link_extends(a: Seq<u8>, b: Seq<u8>, pos: int)
    requires
        extends(a, b),
        disk_radix_link(a, pos) is Some,
    ensures
        disk_radix_link(b, pos) == disk_radix_link(a, pos),
{
    lemma_vlq_extends(a, b, pos + 17);
}

/// A child of a radix entry that reads reads the same in a longer file.
pub proof fn lemma_radix_child_extends(a: Seq<u8>, b: Seq<u8>, pos: int, i: int)
    requires
        extends(a, b),
        0 <= i < 16,
        disk_radix_child(a, pos, i) is Some,
    ensures
        disk_radix_child(b, pos, i) == disk_radix_child(a, pos, i),
{
    assert(b[pos + 1 + i] == a[pos + 1 + i]);
    if a[pos + 1 + i] != 0 {
        lemma_offset_extends(a, b, pos + a[pos + 1 + i]);
    }
}

/// A sound tree on disk is a sound tree in a longer file.
pub proof fn lemma_disk_sound_extends(a: Seq<u8>, b: Seq<u8>, pos: int, path: Seq<u8>)
    requires
        extends(a, b),
        disk_sound(a, pos, path),
    ensures
        disk_sound(b, pos, path),
    decreases pos,
{
    if type_at(a, pos) == Some(TYPE_RADIX) {
        lemma_radix_extends(a, b, pos);
        let entry = MemRadix::spec_read_from(a, pos).unwrap();
        assert forall|c: int| 0 <= c < 16 implies {
            let child = #[trigger] entry.children[c];
            if child.spec_is_null() {
                b[pos + 1 + c] == 0
            } else {
                child.raw() < pos && disk_sound(b, child.raw() as int, path.push(c as u8))
            }
        } by {
            let child = entry.children[c];
            if !child.spec_is_null() {
                lemma_disk_sound_extends(a, b, child.raw() as int, path.push(c as u8));
            }
        }
    } else {
        lemma_leaf_extends(a, b, pos);
        let leaf = MemLeaf::spec_read_from(a, pos).unwrap();
        lemma_key_extends(a, b, leaf.key_offset.raw() as int);
    }
}

impl IndexView {
    /// What a search finds from an on-disk offset on, it finds in every
    /// index that sees a longer file.
    pub proof fn lemma_lookup_extends(
        self,
        other: IndexView,
        offset: Offset,
        key: Seq<u8>,
        step: nat,
    )
        requires
            extends(self.buf, other.buf),
            !offset.spec_is_dirty(),
            self.lookup_from(offset, key, step) is Some,
        ensures
            other.lookup_from(offset, key, step) == self.lookup_from(offset, key, step),
        decreases nibble_count(key) - step,
    {
        if !offset.spec_is_null() {
            match offset.spec_to_typed(self.buf) {
                Some(TypedOffset::Radix(radix)) => {
                    let pos = radix.raw() as int;
                    if step < nibble_count(key) {
                        lemma_nibble_range(key, step as int);
                        let c = nibble(key, step as int) as int;
                        lemma_radix_child_extends(self.buf, other.buf, pos, c);
                        let child = self.radix_child(radix, c).unwrap();
                        self.lemma_lookup_extends(other, child, key, step + 1);
                    } else {
                        lemma_radix_link_extends(self.buf, other.buf, pos);
                    }
                },
                Some(TypedOffset::Leaf(leaf)) => {
                    let pos = leaf.raw() as int;
                    lemma_leaf_extends(self.buf, other.buf, pos);
                    let entry = self.leaf_entry(leaf).unwrap();
                    lemma_key_extends(self.buf, other.buf, entry.key_offset.raw() as int);
                },
                _ => {},
            }
        }
    }

    /// What a search finds from any offset on, it finds in the index with
    /// the bytes of the file as they are later.
    pub proof fn lemma_lookup_remapped(self, file: Seq<u8>, offset: Offset, key: Seq<u8>, step: nat)
        requires
            extends(self.buf, crate::state::mapped(file)),
            self.lookup_from(offset, key, step) is Some,
        ensures
            self.remapped(file).lookup_from(offset, key, step) == self.lookup_from(
                offset,
                key,
                step,
            ),
        decreases nibble_count(key) - step,
    {
        let next = self.remapped(file);
        if offset.spec_is_null() {
        } else if !offset.spec_is_dirty() {
            self.lemma_lookup_extends(next, offset, key, step);
        } else {
            match offset.spec_to_typed(self.buf) {
                Some(TypedOffset::Radix(radix)) => {
                    if step < nibble_count(key) {
                        lemma_nibble_range(key, step as int);
                        let c = nibble(key, step as int) as int;
                        let child = self.radix_child(radix, c).unwrap();
                        self.lemma_lookup_remapped(file, child, key, step + 1);
                    }
                },
                Some(TypedOffset::Leaf(leaf)) => {
                    let entry = self.leaf_entry(leaf).unwrap();
                    if !entry.key_offset.spec_is_dirty() {
                        lemma_key_extends(self.buf, next.buf, entry.key_offset.raw() as int);
                    }
                },
                _ => {},
            }
        }
    }

    /// An index that takes in the bytes of its file as they are later finds
    /// for every key what it found before: whoever writes to the file
    /// appends, and what an index has read it reads the same for ever.
    pub proof fn law_lookup_remapped(self, file: Seq<u8>, key: Seq<u8>)
        requires
            extends(self.buf, crate::state::mapped(file)),
            self.lookup(key) is Some,
        ensures
            self.remapped(file).lookup(key) == self.lookup(key),
    {
        self.lemma_lookup_remapped(file, self.root.to_offset(), key, 0);
    }
}

} // verus!
