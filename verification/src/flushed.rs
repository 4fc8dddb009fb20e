//! What a flush leaves on disk.
//!
//! A flush gives each staged entry a place in the file and writes the entry
//! there with the places of the entries that it refers to. Read at its
//! place, each entry is what was staged, moved to disk: the tree of the index
//! after the flush is the tree of before, and every key has the chain of
//! values that it had.

use vstd::prelude::*;
use crate::append::extends;
use crate::entry::MemKey;
use crate::entry::MemLeaf;
use crate::entry::MemLink;
use crate::entry::MemRadix;
use crate::entry::RadixView;
use crate::flush::lemma_dirty_parts;
use crate::offset::DIRTY_OFFSET;
use crate::offset::KeyOffset;
use crate::offset::LeafOffset;
use crate::offset::LinkOffset;
use crate::offset::Offset;
use crate::offset::RadixOffset;
use crate::offset::TYPE_KEY;
use crate::offset::TYPE_LEAF;
use crate::offset::TYPE_LINK;
use crate::offset::TYPE_RADIX;
use crate::offset::lemma_dirty_raw;
use crate::offset::type_at;
use crate::readback::lemma_key_read_back;
use crate::readback::lemma_leaf_read_back;
use crate::readback::lemma_link_read_back;
use crate::readback::stands_at;
use crate::append::lemma_disk_sound_extends;
use crate::append::lemma_key_extends;
use crate::append::lemma_link_extends;
use crate::base16::nibble;
use crate::base16::nibble_count;
use crate::offset::TypedOffset;
use crate::sound::disk_sound;
use crate::sound::key_prefix;
use crate::sound::lemma_disk_sound_lookup;
use crate::sound::lemma_nibble_range;
use crate::state::lemma_radix_read;
use crate::state::IndexView;
use crate::state::mapped;
use crate::state::opened;
use crate::flush::lemma_flush_root;

verus! {

/// A flush: the state of the index before it, and the bytes of the file
/// before it.
pub struct Flush {
    /// The state of the index before the flush.
    pub view: IndexView,
    /// The bytes of the file before the flush.
    pub file: Seq<u8>,
}

impl Flush {
    /// The length of the file before the flush.
    pub open spec fn start(self) -> nat {
        self.file.len()
    }

    /// The bytes of the file after the flush.
    pub open spec fn all(self) -> Seq<u8> {
        self.file + self.view.flush_bytes(self.start())
    }

    /// The state of the index after the flush.
    pub open spec fn after(self) -> IndexView {
        self.view.flushed(self.all(), self.view.flush_root(self.start()))
    }

    /// Whether the flush has something to write and can write it: the tree
    /// starts at a staged entry, the staged entries hang together and fit
    /// the file, the index sees the first bytes of the file, and the file
    /// does not outgrow the offsets that an entry can hold.
    pub open spec fn ready(self) -> bool {
        &&& self.view.wf()
        &&& self.view.fits_file()
        &&& self.view.root.spec_is_dirty()
        &&& extends(self.view.buf, mapped(self.file))
        &&& self.view.flush_root_offset(self.start()) < DIRTY_OFFSET
    }

    /// The place in the file of the staged entry that the flush writes as
    /// its `j`-th.
    pub open spec fn place(self, j: nat) -> nat {
        self.start() + self.view.flush_prefix(self.start(), j).0.len()
    }

    /// Whether a dirty offset names a staged entry.
    pub open spec fn is_staged(self, offset: Offset) -> bool {
        let t = offset.spec_dirty_type();
        let i = offset.spec_dirty_index();
        &&& offset.spec_is_dirty()
        &&& {
            ||| t == TYPE_KEY && i < self.view.keys.len()
            ||| t == TYPE_LINK && i < self.view.links.len()
            ||| t == TYPE_LEAF && i < self.view.leafs.len()
            ||| t == TYPE_RADIX && i < self.view.radixes.len()
        }
    }

    /// The turn in which the flush writes the staged entry that a dirty
    /// offset names.
    pub open spec fn turn(self, offset: Offset) -> nat {
        let k = self.view.keys.len();
        let l = self.view.links.len();
        let f = self.view.leafs.len();
        let r = self.view.radixes.len();
        let t = offset.spec_dirty_type();
        let i = offset.spec_dirty_index();
        if t == TYPE_KEY {
            i
        } else if t == TYPE_LINK {
            k + i
        } else if t == TYPE_LEAF {
            k + l + i
        } else {
            (k + l + f + r - 1 - i) as nat
        }
    }

    /// The offset after the flush of what `offset` names: the place of the
    /// staged entry for a dirty offset, the offset itself for another.
    pub open spec fn moved(self, offset: Offset) -> Offset {
        if offset.spec_is_dirty() {
            Offset::of(self.place(self.turn(offset)) as u64)
        } else {
            offset
        }
    }

    /// The link offset after the flush of what `link` names.
    pub open spec fn moved_link(self, link: LinkOffset) -> LinkOffset {
        LinkOffset::of(self.moved(link.to_offset()))
    }

    /// A staged entry has its turn, and its turn is that of its offset and
    /// of its type.
    pub proof fn lemma_turn(self, offset: Offset)
        requires
            self.view.wf(),
            self.is_staged(offset),
        ensures
            self.turn(offset) < self.view.staged_count(),
            self.view.flush_raw(self.turn(offset)) == offset.raw(),
            self.view.flush_tag(self.turn(offset)) == offset.spec_dirty_type(),
    {
        lemma_dirty_parts(offset);
        lemma_dirty_raw(offset.spec_dirty_index(), offset.spec_dirty_type());
    }

    /// The places lie behind what the index sees of the file and before the
    /// root entry, and each entry has a place of its own.
    pub proof fn lemma_place(self, j: nat)
        requires
            self.ready(),
            j < self.view.staged_count(),
        ensures
            self.view.buf.len() <= self.place(j),
            1 <= self.place(j),
            self.place(j) < self.place(j + 1),
            self.place(j + 1) <= self.view.flush_root_offset(self.start()),
            self.place(j) < DIRTY_OFFSET,
            self.place(j) < self.all().len(),
    {
        let total = self.view.staged_count();
        self.view.lemma_flush_layout(self.start(), total, j);
        self.view.lemma_flush_grows(self.start(), 0, j);
        self.view.lemma_flush_grows(self.start(), j + 1, total);
    }

    /// A later turn has a later place.
    pub proof fn lemma_place_order(self, i: nat, j: nat)
        requires
            self.ready(),
            i < j,
            j <= self.view.staged_count(),
        ensures
            self.place(i) < self.place(j),
    {
        self.lemma_place(i);
        self.view.lemma_flush_grows(self.start(), i + 1, j);
    }

    /// The entry of turn `j` stands at its place in the file after the
    /// flush, with its type in front.
    pub proof fn lemma_stands(self, j: nat)
        requires
            self.ready(),
            j < self.view.staged_count(),
        ensures
            stands_at(
                self.all(),
                self.place(j) as int,
                self.view.flush_entry(j, self.view.flush_prefix(self.start(), j).1),
            ),
            type_at(self.all(), self.place(j) as int) == Some(self.view.flush_tag(j)),
    {
        let total = self.view.staged_count();
        let start = self.start();
        self.view.lemma_flush_layout(start, total, j);
        let (bytes, offset_map) = self.view.flush_prefix(start, total);
        let (before, map_before) = self.view.flush_prefix(start, j);
        let entry = self.view.flush_entry(j, map_before);
        let all = self.all();
        let skip = before.len() as int;
        assert forall|i: int| 0 <= i < entry.len() implies all[self.place(j) + i]
            == #[trigger] entry[i] by {
            assert(bytes.subrange(skip, skip + entry.len() as int)[i] == bytes[skip + i]);
            assert(all[start + skip + i] == bytes[skip + i]);
        }
        assert(all[self.place(j) as int + 0] == entry[0]);
    }

    /// The offset that the flush writes for `offset` in turn `n` or later is
    /// the offset after the flush, where `offset` is not dirty or names an
    /// entry that was written before.
    pub proof fn lemma_moved(self, offset: Offset, n: nat)
        requires
            self.ready(),
            n <= self.view.staged_count(),
            offset.spec_is_dirty() ==> self.is_staged(offset) && self.turn(offset) < n,
        ensures
            offset.spec_to_disk(self.view.flush_prefix(self.start(), n).1) == self.moved(
                offset,
            ).raw(),
            self.moved(offset).raw() < DIRTY_OFFSET,
            !self.moved(offset).spec_is_dirty(),
            offset.spec_is_null() == self.moved(offset).spec_is_null(),
            offset.spec_is_dirty() ==> self.view.buf.len() <= self.moved(offset).raw()
                < self.all().len(),
    {
        if offset.spec_is_dirty() {
            let j = self.turn(offset);
            self.lemma_turn(offset);
            self.view.lemma_flush_layout(self.start(), n, j);
            self.lemma_place(j);
        }
    }

    /// What the index saw of the file are the first bytes of the file after
    /// the flush.
    pub proof fn lemma_extends(self)
        requires
            self.ready(),
        ensures
            extends(self.view.buf, self.all()),
            extends(mapped(self.file), self.all()),
            mapped(self.all()) == self.all(),
            self.all().len() >= 1,
    {
        let total = self.view.staged_count();
        self.view.lemma_flush_grows(self.start(), 0, total);
        self.view.lemma_flush_starts(self.start(), total);
        let all = self.all();
        let staged = self.view.flush_prefix(self.start(), total).0;
        let bytes = self.view.flush_bytes(self.start());
        let seen = mapped(self.file);
        assert forall|i: int| 0 <= i < seen.len() implies #[trigger] all[i] == seen[i] by {
            if self.start() == 0 {
                assert(all[0] == bytes[0]);
                assert(bytes[0] == staged[0]);
            }
        }
        assert forall|i: int| 0 <= i < self.view.buf.len() implies #[trigger] all[i]
            == self.view.buf[i] by {
            assert(seen[i] == self.view.buf[i]);
        }
    }

    /// After the flush a typed offset names an entry of its type, where it
    /// did before: a staged entry has its type in front at its place, and an
    /// entry on disk is where it was.
    pub proof fn lemma_moved_fits(self, offset: Offset, type_int: u8)
        requires
            self.ready(),
            offset.fits(self.view.buf, type_int),
            offset.spec_is_dirty() ==> self.is_staged(offset),
        ensures
            self.moved(offset).fits(self.all(), type_int),
    {
        self.lemma_extends();
        if offset.spec_is_dirty() {
            self.lemma_turn(offset);
            self.lemma_stands(self.turn(offset));
            self.lemma_place(self.turn(offset));
        }
    }
}

impl Flush {
    /// The turn of the staged radix entry at `r`.
    pub open spec fn radix_turn(self, r: int) -> nat {
        (self.view.keys.len() + self.view.links.len() + self.view.leafs.len()
            + self.view.radixes.len() - 1 - r) as nat
    }

    /// The turn of the staged leaf entry at `l`.
    pub open spec fn leaf_turn(self, l: int) -> nat {
        (self.view.keys.len() + self.view.links.len() + l) as nat
    }

    /// The turn of the staged link entry at `m`.
    pub open spec fn link_turn(self, m: int) -> nat {
        (self.view.keys.len() + m) as nat
    }

    /// The staged radix entry at `r` as it stands on disk.
    pub open spec fn moved_radix(self, r: int) -> RadixView {
        RadixView {
            children: Seq::new(16, |c: int| self.moved(self.view.radixes[r].offsets@[c])),
            link: self.moved_link(self.view.radixes[r].link_offset),
        }
    }

    /// A staged key entry reads back at its place.
    pub proof fn lemma_key_back(self, i: int)
        requires
            self.ready(),
            0 <= i < self.view.keys.len(),
        ensures
            MemKey::spec_read_from(self.all(), self.place(i as nat) as int) == Some(
                self.view.keys[i],
            ),
    {
        self.lemma_stands(i as nat);
        lemma_key_read_back(self.all(), self.place(i as nat) as int, self.view.keys[i]);
    }

    /// A staged link entry reads back at its place, its next link moved.
    pub proof fn lemma_link_back(self, m: int)
        requires
            self.ready(),
            0 <= m < self.view.links.len(),
        ensures
            MemLink::spec_read_from(self.all(), self.place(self.link_turn(m)) as int) == Some(
                MemLink {
                    value: self.view.links[m].value,
                    next_link_offset: self.moved_link(self.view.links[m].next_link_offset),
                },
            ),
    {
        let j = self.link_turn(m);
        let entry = self.view.links[m];
        let next = entry.next_link_offset;
        self.lemma_stands(j);
        if next.spec_is_dirty() {
            next.lemma_tagged();
        }
        self.lemma_moved(next.to_offset(), j);
        self.lemma_moved_fits(next.to_offset(), TYPE_LINK);
        let disk = self.moved(next.to_offset()).raw();
        assert(Offset::of(disk) == self.moved(next.to_offset()));
        lemma_link_read_back(self.all(), self.place(j) as int, entry.value, disk);
    }

    /// A staged leaf entry reads back at its place, its key and its link
    /// moved.
    pub proof fn lemma_leaf_back(self, l: int)
        requires
            self.ready(),
            0 <= l < self.view.leafs.len(),
        ensures
            MemLeaf::spec_read_from(self.all(), self.place(self.leaf_turn(l)) as int) == Some(
                MemLeaf {
                    key_offset: KeyOffset::of(self.moved(self.view.leafs[l].key_offset.to_offset())),
                    link_offset: self.moved_link(self.view.leafs[l].link_offset),
                },
            ),
    {
        let j = self.leaf_turn(l);
        let entry = self.view.leafs[l];
        assert(self.view.leaf_ok(l));
        self.lemma_stands(j);
        if entry.key_offset.spec_is_dirty() {
            entry.key_offset.lemma_tagged();
        }
        if entry.link_offset.spec_is_dirty() {
            entry.link_offset.lemma_tagged();
        }
        self.lemma_moved(entry.key_offset.to_offset(), j);
        self.lemma_moved(entry.link_offset.to_offset(), j);
        self.lemma_moved_fits(entry.key_offset.to_offset(), TYPE_KEY);
        self.lemma_moved_fits(entry.link_offset.to_offset(), TYPE_LINK);
        let key = self.moved(entry.key_offset.to_offset()).raw();
        let link = self.moved(entry.link_offset.to_offset()).raw();
        assert(Offset::of(key) == self.moved(entry.key_offset.to_offset()));
        assert(Offset::of(link) == self.moved(entry.link_offset.to_offset()));
        lemma_leaf_read_back(self.all(), self.place(j) as int, key, link);
    }

    /// A child of a staged radix entry was written before the entry.
    pub proof fn lemma_child_turn(self, r: int, c: int)
        requires
            self.ready(),
            0 <= r < self.view.radixes.len(),
            0 <= c < 16,
        ensures
            ({
                let child = self.view.radixes[r].offsets@[c];
                child.spec_is_dirty() ==> self.is_staged(child) && self.turn(child)
                    < self.radix_turn(r) && (child.spec_dirty_type() == TYPE_LEAF
                    || child.spec_dirty_type() == TYPE_RADIX && r < child.spec_dirty_index())
            }),
    {
        let child = self.view.radixes[r].offsets@[c];
        assert(self.view.radix_ok(r));
        assert(self.view.child_ok(child, r as nat));
    }

    /// A staged radix entry reads back at its place, its link and its
    /// children moved, and its jump table has a byte for each child that is
    /// there and for no other.
    pub proof fn lemma_radix_back(self, r: int)
        requires
            self.ready(),
            0 <= r < self.view.radixes.len(),
        ensures
            MemRadix::spec_read_from(self.all(), self.place(self.radix_turn(r)) as int) == Some(
                self.moved_radix(r),
            ),
            forall|c: int|
                0 <= c < 16 ==> (self.all()[self.place(self.radix_turn(r)) + 1 + c] == 0) == (
                #[trigger] self.view.radixes[r].offsets@[c]).spec_is_null(),
    {
        let j = self.radix_turn(r);
        let entry = self.view.radixes[r];
        let offset_map = self.view.flush_prefix(self.start(), j).1;
        assert(self.view.radix_ok(r));
        self.lemma_stands(j);
        if entry.link_offset.spec_is_dirty() {
            entry.link_offset.lemma_tagged();
        }
        self.lemma_moved(entry.link_offset.to_offset(), j);
        self.lemma_moved_fits(entry.link_offset.to_offset(), TYPE_LINK);
        assert(Offset::of(self.moved(entry.link_offset.to_offset()).raw()) == self.moved(
            entry.link_offset.to_offset(),
        ));
        assert forall|c: int| 0 <= c < 16 implies (#[trigger] entry@.children[c]).spec_to_disk(
            offset_map,
        ) < DIRTY_OFFSET && Offset::of(entry@.children[c].spec_to_disk(offset_map)) == self.moved(
            entry.offsets@[c],
        ) by {
            self.lemma_child_turn(r, c);
            self.lemma_moved(entry.offsets@[c], j);
            assert(Offset::of(self.moved(entry.offsets@[c]).raw()) == self.moved(entry.offsets@[c]));
        }
        entry@.lemma_radix_read_back(self.all(), self.place(j) as int, offset_map);
        assert(entry@.on_disk(offset_map) =~= self.moved_radix(r).children);
    }

    /// The key that a key offset names is the key that the moved offset
    /// names after the flush.
    pub proof fn lemma_key_moved(self, key: KeyOffset)
        requires
            self.ready(),
            self.view.key_content(key) is Some,
            key.spec_is_dirty() ==> key.tagged(),
        ensures
            self.after().key_content(KeyOffset::of(self.moved(key.to_offset())))
                == self.view.key_content(key),
    {
        self.lemma_extends();
        let after = self.after();
        let moved = KeyOffset::of(self.moved(key.to_offset()));
        assert(after.buf == self.all());
        if key.spec_is_dirty() {
            key.lemma_tagged();
            let i = key.spec_dirty_index();
            assert(i < self.view.keys.len());
            assert(self.is_staged(key.to_offset()));
            assert(self.turn(key.to_offset()) == i);
            self.lemma_moved(key.to_offset(), self.view.staged_count());
            self.lemma_place(i);
            self.lemma_key_back(i as int);
            assert(moved.raw() == self.place(i));
            assert(!moved.spec_is_dirty());
        } else {
            assert(moved == key);
            lemma_key_extends(self.view.buf, self.all(), key.raw() as int);
        }
    }

    /// How far a dirty offset to a radix entry is from the last staged radix
    /// entry; nothing for another offset.
    pub open spec fn rank(self, offset: Offset) -> nat {
        if offset.spec_is_dirty() && offset.spec_dirty_type() == TYPE_RADIX
            && offset.spec_dirty_index() < self.view.radixes.len() {
            (self.view.radixes.len() - offset.spec_dirty_index()) as nat
        } else {
            0
        }
    }

    /// A sound child is, moved to disk, a sound tree in the file after the
    /// flush.
    pub proof fn lemma_sound_moved(self, paths: Seq<Seq<u8>>, offset: Offset, path: Seq<u8>)
        requires
            self.ready(),
            self.view.sound_with(paths),
            !offset.spec_is_null(),
            self.view.child_sound(paths, offset, path),
        ensures
            disk_sound(self.all(), self.moved(offset).raw() as int, path),
        decreases self.rank(offset),
    {
        let all = self.all();
        self.lemma_extends();
        if !offset.spec_is_dirty() {
            lemma_disk_sound_extends(self.view.buf, all, offset.raw() as int, path);
        } else if offset.spec_dirty_type() == TYPE_RADIX {
            let r = offset.spec_dirty_index() as int;
            let j = self.radix_turn(r);
            let pos = self.place(j) as int;
            self.lemma_turn(offset);
            self.lemma_moved(offset, self.view.staged_count());
            self.lemma_place(j);
            self.lemma_stands(j);
            self.lemma_radix_back(r);
            let entry = self.moved_radix(r);
            assert forall|c: int| 0 <= c < 16 implies {
                let child = #[trigger] entry.children[c];
                if child.spec_is_null() {
                    all[pos + 1 + c] == 0
                } else {
                    child.raw() < pos && disk_sound(all, child.raw() as int, path.push(c as u8))
                }
            } by {
                let before = self.view.radixes[r].offsets@[c];
                assert(entry.children[c] == self.moved(before));
                self.lemma_child_turn(r, c);
                self.lemma_moved(before, j);
                assert(self.view.child_sound(paths, before, paths[r].push(c as u8)));
                if !before.spec_is_null() {
                    if before.spec_is_dirty() {
                        self.lemma_place_order(self.turn(before), j);
                    }
                    self.lemma_sound_moved(paths, before, path.push(c as u8));
                }
            }
        } else {
            let l = offset.spec_dirty_index() as int;
            let j = self.leaf_turn(l);
            self.lemma_turn(offset);
            self.lemma_moved(offset, self.view.staged_count());
            self.lemma_place(j);
            self.lemma_stands(j);
            self.lemma_leaf_back(l);
            assert(self.view.leaf_ok(l));
            let key = self.view.leafs[l].key_offset;
            self.lemma_key_moved(key);
            if key.spec_is_dirty() {
                key.lemma_tagged();
            }
            self.lemma_moved(key.to_offset(), self.view.staged_count());
        }
    }

    /// What a search finds after the flush is what it found before, moved to
    /// disk.
    pub proof fn lemma_walk_moved(
        self,
        paths: Seq<Seq<u8>>,
        offset: Offset,
        key: Seq<u8>,
        step: nat,
    )
        requires
            self.ready(),
            self.view.sound_with(paths),
            step <= nibble_count(key),
            self.view.child_sound(paths, offset, key_prefix(key, step)),
        ensures
            self.view.lookup_from(offset, key, step) is Some,
            self.view.link_ok(
                self.view.lookup_from(offset, key, step).unwrap(),
                self.view.links.len(),
            ),
            self.after().lookup_from(self.moved(offset), key, step) == Some(
                self.moved_link(self.view.lookup_from(offset, key, step).unwrap()),
            ),
        decreases nibble_count(key) - step,
    {
        let all = self.all();
        let after = self.after();
        let path = key_prefix(key, step);
        self.lemma_extends();
        if offset.spec_is_null() {
        } else if !offset.spec_is_dirty() {
            assert(Offset::of(offset.raw()) == offset);
            lemma_disk_sound_lookup(self.view, offset.raw() as int, key, step);
            self.view.lemma_lookup_extends(after, offset, key, step);
        } else if offset.spec_dirty_type() == TYPE_RADIX {
            let r = offset.spec_dirty_index() as int;
            let j = self.radix_turn(r);
            let pos = self.place(j) as int;
            let radix = RadixOffset::of(offset);
            self.lemma_turn(offset);
            self.lemma_moved(offset, self.view.staged_count());
            self.lemma_place(j);
            self.lemma_stands(j);
            self.lemma_radix_back(r);
            lemma_radix_read(all, pos);
            assert(self.view.radix_ok(r));
            assert(offset.spec_to_typed(self.view.buf) == Some(TypedOffset::Radix(radix)));
            let moved = RadixOffset::of(self.moved(offset));
            assert(self.moved(offset).spec_to_typed(all) == Some(TypedOffset::Radix(moved)));
            let entry = self.moved_radix(r);
            if step < nibble_count(key) {
                lemma_nibble_range(key, step as int);
                let c = nibble(key, step as int) as int;
                let child = self.view.radixes[r].offsets@[c];
                assert(self.view.child_sound(paths, child, paths[r].push(c as u8)));
                assert(paths[r].push(c as u8) =~= key_prefix(key, step + 1));
                assert(entry.children[c] == self.moved(child));
                assert(after.radix_child(moved, c) == Some(self.moved(child)));
                self.lemma_walk_moved(paths, child, key, step + 1);
            } else {
                assert(after.radix_link(moved) == Some(entry.link));
            }
        } else {
            let l = offset.spec_dirty_index() as int;
            let j = self.leaf_turn(l);
            let leaf = LeafOffset::of(offset);
            self.lemma_turn(offset);
            self.lemma_moved(offset, self.view.staged_count());
            self.lemma_place(j);
            self.lemma_stands(j);
            self.lemma_leaf_back(l);
            assert(self.view.leaf_ok(l));
            assert(offset.spec_to_typed(self.view.buf) == Some(TypedOffset::Leaf(leaf)));
            let moved = LeafOffset::of(self.moved(offset));
            assert(self.moved(offset).spec_to_typed(all) == Some(TypedOffset::Leaf(moved)));
            let key_offset = self.view.leafs[l].key_offset;
            self.lemma_key_moved(key_offset);
            self.lemma_moved(LinkOffset::null().to_offset(), self.view.staged_count());
            assert(self.moved_link(LinkOffset::null()) == LinkOffset::null());
        }
    }

    /// A chain of values is after the flush the chain that it was, moved to
    /// disk.
    pub proof fn lemma_chain_moved(self, link: LinkOffset, values: Seq<u64>)
        requires
            self.ready(),
            self.view.link_ok(link, self.view.links.len()),
            self.view.is_chain(link, values),
        ensures
            self.after().is_chain(self.moved_link(link), values),
        decreases values.len(),
    {
        let all = self.all();
        let after = self.after();
        self.lemma_extends();
        if link.spec_is_dirty() {
            link.lemma_tagged();
        }
        self.lemma_moved(link.to_offset(), self.view.staged_count());
        let moved = self.moved_link(link);
        assert(after.buf == all);
        assert(!moved.spec_is_dirty());
        assert(moved.spec_is_null() == link.spec_is_null());
        if values.len() > 0 {
            let entry = self.view.link_entry(link).unwrap();
            if link.spec_is_dirty() {
                let m = link.spec_dirty_index() as int;
                assert(self.is_staged(link.to_offset()));
                assert(self.turn(link.to_offset()) == self.link_turn(m));
                self.lemma_place(self.link_turn(m));
                assert(moved.raw() == self.place(self.link_turn(m)));
                self.lemma_link_back(m);
                assert(self.view.link_ok(entry.next_link_offset, m as nat));
                assert(after.link_entry(moved) == Some(
                    MemLink {
                        value: entry.value,
                        next_link_offset: self.moved_link(entry.next_link_offset),
                    },
                ));
                self.lemma_chain_moved(entry.next_link_offset, values.drop_first());
            } else {
                assert(moved == link);
                lemma_link_extends(self.view.buf, all, link.raw() as int);
                assert(!entry.next_link_offset.spec_is_dirty());
                self.lemma_moved(entry.next_link_offset.to_offset(), self.view.staged_count());
                assert(self.moved_link(entry.next_link_offset) == entry.next_link_offset);
                assert(after.link_entry(moved) == Some(entry));
                self.lemma_chain_moved(entry.next_link_offset, values.drop_first());
            }
        }
    }

    /// After a flush a sound index is sound, and it holds for every key the
    /// values that it held before.
    pub proof fn law_flush_keeps(self)
        requires
            self.ready(),
            self.view.sound(),
        ensures
            self.after().sound(),
            self.view.kept_in(self.after()),
    {
        let paths = choose|paths: Seq<Seq<u8>>| self.view.sound_with(paths);
        let after = self.after();
        let all = self.all();
        let root = self.view.root;
        self.lemma_extends();
        root.lemma_tagged();
        self.lemma_turn(root.to_offset());
        self.lemma_moved(root.to_offset(), self.view.staged_count());
        self.lemma_stands(self.turn(root.to_offset()));
        self.lemma_sound_moved(paths, root.to_offset(), Seq::empty());
        let j = self.turn(root.to_offset());
        self.lemma_place(j);
        self.view.lemma_flush_layout(self.start(), self.view.staged_count(), j);
        assert(self.view.flush_place(self.start(), root.raw()) == self.place(j));
        assert(after.root.to_offset() == self.moved(root.to_offset()));
        assert(after.buf == all);
        assert(after.root.to_offset().spec_type_int(after.buf) == Some(TYPE_RADIX));
        assert(after.child_sound(Seq::empty(), after.root.to_offset(), Seq::empty()));
        assert(after.wf());
        assert(after.sound_with(Seq::empty()));
        assert(after.fits_file());
        assert forall|key: Seq<u8>, values: Seq<u64>|
            self.view.holds(key, values) implies #[trigger] after.holds(key, values) by {
            assert(key_prefix(key, 0) =~= Seq::<u8>::empty());
            self.lemma_walk_moved(paths, root.to_offset(), key, 0);
            self.lemma_chain_moved(self.view.lookup(key).unwrap(), values);
        }
    }

    /// What a flush writes reads: each staged entry reads at its place in the
    /// file after the flush. An entry reads only where none of its offsets is
    /// dirty and each names an entry of its type, so no dirty offset is
    /// written, and every offset that is written leads to an entry of the
    /// right type.
    pub proof fn law_flush_reads(self)
        requires
            self.ready(),
        ensures
            forall|i: int|
                0 <= i < self.view.keys.len() ==> MemKey::spec_read_from(
                    self.all(),
                    #[trigger] self.place(i as nat) as int,
                ) is Some,
            forall|m: int|
                0 <= m < self.view.links.len() ==> MemLink::spec_read_from(
                    self.all(),
                    self.place(#[trigger] self.link_turn(m)) as int,
                ) is Some,
            forall|l: int|
                0 <= l < self.view.leafs.len() ==> MemLeaf::spec_read_from(
                    self.all(),
                    self.place(#[trigger] self.leaf_turn(l)) as int,
                ) is Some,
            forall|r: int|
                0 <= r < self.view.radixes.len() ==> MemRadix::spec_read_from(
                    self.all(),
                    self.place(#[trigger] self.radix_turn(r)) as int,
                ) is Some,
    {
        assert forall|i: int| 0 <= i < self.view.keys.len() implies MemKey::spec_read_from(
            self.all(),
            #[trigger] self.place(i as nat) as int,
        ) is Some by {
            self.lemma_key_back(i);
        }
        assert forall|m: int| 0 <= m < self.view.links.len() implies MemLink::spec_read_from(
            self.all(),
            self.place(#[trigger] self.link_turn(m)) as int,
        ) is Some by {
            self.lemma_link_back(m);
        }
        assert forall|l: int| 0 <= l < self.view.leafs.len() implies MemLeaf::spec_read_from(
            self.all(),
            self.place(#[trigger] self.leaf_turn(l)) as int,
        ) is Some by {
            self.lemma_leaf_back(l);
        }
        assert forall|r: int| 0 <= r < self.view.radixes.len() implies MemRadix::spec_read_from(
            self.all(),
            self.place(#[trigger] self.radix_turn(r)) as int,
        ) is Some by {
            self.lemma_radix_back(r);
        }
    }

    /// An index that is opened on the file after a flush, at the root entry
    /// that the flush wrote or at the end of the file, is sound where the
    /// index was, and holds for every key the values that the index held.
    pub proof fn law_reopen(self, root_offset: u64, read_only: bool, opened_view: IndexView)
        requires
            self.ready(),
            self.view.sound(),
            root_offset == 0 || root_offset == self.view.flush_root_offset(self.start()),
            opened(self.all(), root_offset, read_only, opened_view),
        ensures
            opened_view.sound(),
            self.view.kept_in(opened_view),
    {
        let after = self.after();
        let all = self.all();
        self.lemma_extends();
        self.law_flush_keeps();
        lemma_flush_root(self.view, self.file, self.view.flush_bytes(self.start()));
        assert(opened_view.root == after.root);
        assert(opened_view.buf == after.buf);
        let paths = choose|paths: Seq<Seq<u8>>| after.sound_with(paths);
        assert(paths.len() == 0);
        assert(opened_view.wf());
        assert(opened_view.sound_with(paths));
        assert(opened_view.fits_file());
        assert forall|key: Seq<u8>, values: Seq<u64>|
            self.view.holds(key, values) implies #[trigger] opened_view.holds(key, values) by {
            assert(after.holds(key, values));
            after.lemma_lookup_on_disk(opened_view, after.root.to_offset(), key, 0);
            after.law_chain_kept(opened_view, after.lookup(key).unwrap(), values);
        }
    }
}

/// In a sound tree on disk, the jump table of a radix entry leads, where it
/// holds a byte that is not 0, to an offset that reads, and a radix entry or
/// a leaf stands there.
pub proof fn law_jump_table(buf: Seq<u8>, pos: int, path: Seq<u8>, i: int)
    requires
        disk_sound(buf, pos, path),
        type_at(buf, pos) == Some(TYPE_RADIX),
        0 <= i < 16,
        buf[pos + 1 + i] != 0,
    ensures
        crate::entry::disk_offset_at(buf, pos + buf[pos + 1 + i]) is Some,
        ({
            let child = crate::entry::disk_offset_at(buf, pos + buf[pos + 1 + i]).unwrap().0;
            type_at(buf, child.raw() as int) == Some(TYPE_RADIX) || type_at(
                buf,
                child.raw() as int,
            ) == Some(TYPE_LEAF)
        }),
{
    lemma_radix_read(buf, pos);
    let entry = MemRadix::spec_read_from(buf, pos).unwrap();
    let child = entry.children[i];
    assert(crate::state::disk_radix_child(buf, pos, i) == Some(child));
    assert(!child.spec_is_null());
    assert(disk_sound(buf, child.raw() as int, path.push(i as u8)));
}

} // verus!
