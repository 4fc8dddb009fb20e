//! Sound trees: every key stands where its digits lead.
//!
//! In a sound index each staged radix entry has a path, the digits that lead
//! to it from the root; a child hangs under the path of its parent and its
//! own digit; and the key of a leaf starts with the digits that lead to the
//! leaf. A search then comes to a staged radix entry with exactly the digits
//! of its path behind it, which is why a change in one place of the tree
//! leaves the keys of all other places alone.

use vstd::prelude::*;
use crate::base16::lemma_nibbles_injective;
use crate::base16::nibble;
use crate::base16::nibble_count;
use crate::base16::nibbles;
use crate::entry::MemKey;
use crate::entry::MemLeaf;
use crate::entry::MemRadix;
use crate::offset::LeafOffset;
use crate::offset::LinkOffset;
use crate::offset::Offset;
use crate::offset::RadixOffset;
use crate::offset::TYPE_LEAF;
use crate::offset::TYPE_RADIX;
use crate::offset::TypedOffset;
use crate::offset::type_at;
use crate::state::IndexView;
use crate::state::lemma_radix_read;

verus! {

/// The first `n` digits of `key`.
pub open spec fn key_prefix(key: Seq<u8>, n: nat) -> Seq<u8> {
    Seq::new(n, |i: int| nibble(key, i))
}

/// Whether the digits of `key` start with `path`.
pub open spec fn under(path: Seq<u8>, key: Seq<u8>) -> bool {
    path.len() <= nibble_count(key) && path == key_prefix(key, path.len())
}

/// Whether what stands at position `pos` of `buf` is a sound tree for keys
/// whose digits start with `path`: a leaf whose key starts with `path`, or a
/// radix entry that reads whole and whose children stand before it in the
/// file and are sound trees for `path` and their digit.
pub open spec fn disk_sound(buf: Seq<u8>, pos: int, path: Seq<u8>) -> bool
    decreases pos,
{
    if pos <= 0 {
        false
    } else if type_at(buf, pos) == Some(TYPE_RADIX) {
        match MemRadix::spec_read_from(buf, pos) {
            None => false,
            Some(entry) => forall|c: int|
                0 <= c < 16 ==> {
                    let child = #[trigger] entry.children[c];
                    if child.spec_is_null() {
                        buf[pos + 1 + c] == 0
                    } else {
                        child.raw() < pos && disk_sound(
                            buf,
                            child.raw() as int,
                            path.push(c as u8),
                        )
                    }
                },
        }
    } else if type_at(buf, pos) == Some(TYPE_LEAF) {
        match MemLeaf::spec_read_from(buf, pos) {
            None => false,
            Some(leaf) => !leaf.key_offset.spec_is_null() && match MemKey::spec_read_from(
                buf,
                leaf.key_offset.raw() as int,
            ) {
                None => false,
                Some(key) => under(path, key),
            },
        }
    } else {
        false
    }
}

impl IndexView {
    /// Whether `child` is null or a sound tree for keys whose digits start
    /// with `path`, the staged radix entries having the paths `paths`.
    pub open spec fn child_sound(self, paths: Seq<Seq<u8>>, child: Offset, path: Seq<u8>) -> bool {
        if child.spec_is_null() {
            true
        } else if child.spec_is_dirty() {
            if child.spec_dirty_type() == TYPE_RADIX {
                child.spec_dirty_index() < self.radixes.len() && paths[child.spec_dirty_index() as int]
                    == path
            } else if child.spec_dirty_type() == TYPE_LEAF {
                child.spec_dirty_index() < self.leafs.len() && match self.key_content(
                    self.leafs[child.spec_dirty_index() as int].key_offset,
                ) {
                    Some(key) => under(path, key),
                    None => false,
                }
            } else {
                false
            }
        } else {
            disk_sound(self.buf, child.raw() as int, path)
        }
    }

    /// Whether the tree is sound, the staged radix entries having the paths
    /// `paths`.
    pub open spec fn sound_with(self, paths: Seq<Seq<u8>>) -> bool {
        &&& self.wf()
        &&& paths.len() == self.radixes.len()
        &&& self.root.to_offset().spec_type_int(self.buf) == Some(TYPE_RADIX)
        &&& self.child_sound(paths, self.root.to_offset(), Seq::empty())
        &&& forall|r: int, c: int|
            0 <= r < self.radixes.len() && 0 <= c < 16 ==> self.child_sound(
                paths,
                #[trigger] self.radixes[r].offsets@[c],
                paths[r].push(c as u8),
            )
    }

    /// Whether what is staged fits the file: every on-disk offset in a staged
    /// entry that should name a link or a key names one, and the length of
    /// every staged key fits in 64 bits.
    pub open spec fn fits_file(self) -> bool {
        &&& forall|r: int|
            0 <= r < self.radixes.len() ==> (#[trigger] self.radixes[r]).link_offset.to_offset().fits(
                self.buf,
                crate::offset::TYPE_LINK,
            )
        &&& forall|l: int|
            0 <= l < self.leafs.len() ==> (#[trigger] self.leafs[l]).key_offset.to_offset().fits(
                self.buf,
                crate::offset::TYPE_KEY,
            ) && self.leafs[l].link_offset.to_offset().fits(self.buf, crate::offset::TYPE_LINK)
        &&& forall|m: int|
            0 <= m < self.links.len() ==> (#[trigger] self.links[m]).next_link_offset.to_offset().fits(
                self.buf,
                crate::offset::TYPE_LINK,
            )
        &&& forall|i: int| 0 <= i < self.keys.len() ==> (#[trigger] self.keys[i]).len() <= u64::MAX
    }

    /// Whether the index is sound: its tree is, and what is staged fits the
    /// file.
    pub open spec fn sound(self) -> bool {
        &&& self.fits_file()
        &&& exists|paths: Seq<Seq<u8>>| self.sound_with(paths)
    }

    /// Whether `next` holds what this state holds, but for the staged radix
    /// entry at `at` and the links of leafs: the bytes of the file and the
    /// staged entries are there, and each leaf has its key.
    pub open spec fn kept(self, next: IndexView, at: int) -> bool {
        &&& next.buf == self.buf
        &&& next.radixes.len() >= self.radixes.len()
        &&& next.leafs.len() >= self.leafs.len()
        &&& next.keys.len() >= self.keys.len()
        &&& forall|r: int|
            0 <= r < self.radixes.len() && r != at ==> #[trigger] next.radixes[r]
                == self.radixes[r]
        &&& forall|i: int| 0 <= i < self.keys.len() ==> #[trigger] next.keys[i] == self.keys[i]
        &&& forall|l: int|
            0 <= l < self.leafs.len() ==> (#[trigger] next.leafs[l]).key_offset
                == self.leafs[l].key_offset
    }

    /// Whether `next` holds all that a search for `other` can read in this
    /// state, but for the staged radix entry at `at`: where a leaf has
    /// another link, the leaf holds another key.
    pub open spec fn kept_for(self, next: IndexView, at: int, other: Seq<u8>) -> bool {
        &&& self.kept(next, at)
        &&& forall|l: int|
            0 <= l < self.leafs.len() ==> (#[trigger] next.leafs[l]).link_offset
                == self.leafs[l].link_offset || self.key_content(self.leafs[l].key_offset)
                != Some(other)
    }

    /// A sound child stays sound where the staged entries are kept and the
    /// paths are kept.
    pub proof fn lemma_child_sound_kept(
        self,
        next: IndexView,
        paths: Seq<Seq<u8>>,
        next_paths: Seq<Seq<u8>>,
        at: int,
        child: Offset,
        path: Seq<u8>,
    )
        requires
            self.wf(),
            paths.len() == self.radixes.len(),
            self.kept(next, at),
            next_paths.len() >= paths.len(),
            forall|i: int| 0 <= i < paths.len() ==> next_paths[i] == paths[i],
            self.child_sound(paths, child, path),
        ensures
            next.child_sound(next_paths, child, path),
    {
        if child.spec_is_dirty() && child.spec_dirty_type() == TYPE_LEAF {
            let l = child.spec_dirty_index() as int;
            assert(next.leafs[l].key_offset == self.leafs[l].key_offset);
            assert(self.leaf_ok(l));
            let key_offset = self.leafs[l].key_offset;
            if key_offset.spec_is_dirty() {
                assert(next.keys[key_offset.spec_dirty_index() as int]
                    == self.keys[key_offset.spec_dirty_index() as int]);
            }
        }
    }

    /// A sound tree stays sound where one staged radix entry gets other
    /// children that are sound, new staged radix entries have sound
    /// children, and all else is kept.
    pub proof fn lemma_sound_kept(
        self,
        next: IndexView,
        paths: Seq<Seq<u8>>,
        next_paths: Seq<Seq<u8>>,
        at: int,
    )
        requires
            self.sound_with(paths),
            next.wf(),
            self.kept(next, at),
            next_paths.len() == next.radixes.len(),
            forall|i: int| 0 <= i < paths.len() ==> next_paths[i] == paths[i],
            next.root.to_offset().spec_type_int(next.buf) == Some(TYPE_RADIX),
            next.root == self.root || next.child_sound(
                next_paths,
                next.root.to_offset(),
                Seq::empty(),
            ),
            0 <= at < self.radixes.len() ==> forall|c: int|
                0 <= c < 16 ==> (#[trigger] next.radixes[at].offsets@[c])
                    == self.radixes[at].offsets@[c] || next.child_sound(
                    next_paths,
                    next.radixes[at].offsets@[c],
                    paths[at].push(c as u8),
                ),
            forall|r: int, c: int|
                self.radixes.len() <= r < next.radixes.len() && 0 <= c < 16 ==> next.child_sound(
                    next_paths,
                    #[trigger] next.radixes[r].offsets@[c],
                    next_paths[r].push(c as u8),
                ),
        ensures
            next.sound_with(next_paths),
    {
        if next.root == self.root {
            self.lemma_child_sound_kept(
                next,
                paths,
                next_paths,
                at,
                self.root.to_offset(),
                Seq::empty(),
            );
        }
        assert forall|r: int, c: int|
            0 <= r < next.radixes.len() && 0 <= c < 16 implies next.child_sound(
            next_paths,
            #[trigger] next.radixes[r].offsets@[c],
            next_paths[r].push(c as u8),
        ) by {
            if r < self.radixes.len() {
                let child = self.radixes[r].offsets@[c];
                assert(self.child_sound(paths, child, paths[r].push(c as u8)));
                self.lemma_child_sound_kept(next, paths, next_paths, at, child, paths[r].push(c as u8));
                if r != at {
                    assert(next.radixes[r] == self.radixes[r]);
                }
            }
        }
    }

    /// A staged copy of an on-disk radix entry gives every search what the
    /// entry on disk gives it.
    pub proof fn lemma_copy_walk(
        self,
        next: IndexView,
        disk: Offset,
        copy: int,
        other: Seq<u8>,
        step: nat,
    )
        requires
            next.buf == self.buf,
            !disk.spec_is_dirty(),
            disk.spec_to_typed(self.buf) == Some(TypedOffset::Radix(RadixOffset::of(disk))),
            0 <= copy < next.radixes.len(),
            copy <= crate::offset::MAX_DIRTY_INDEX,
            MemRadix::spec_read_from(self.buf, disk.raw() as int) == Some(next.radixes[copy]@),
        ensures
            next.lookup_from(RadixOffset::spec_dirty(copy as nat).to_offset(), other, step)
                == self.lookup_from(disk, other, step),
    {
        lemma_radix_read(self.buf, disk.raw() as int);
        RadixOffset::lemma_spec_dirty(copy as nat);
        let radix = RadixOffset::spec_dirty(copy as nat);
        assert(radix.to_offset().spec_to_typed(next.buf) == Some(TypedOffset::Radix(radix)));
        if step < nibble_count(other) {
            let c = nibble(other, step as int) as int;
            lemma_nibble_range(other, step as int);
            let child = next.radixes[copy].offsets@[c];
            assert(next.radixes[copy]@.children[c] == child);
            next.lemma_lookup_on_disk(self, child, other, step + 1);
        }
    }

    /// Whether every search finds in `next` what it finds in this state.
    pub open spec fn agrees(self, next: IndexView) -> bool {
        forall|other: Seq<u8>| #[trigger] self.lookup(other) == next.lookup(other)
    }

    /// Whether every search but the one for `key` finds in `next` what it
    /// finds in this state.
    pub open spec fn agrees_but(self, next: IndexView, key: Seq<u8>) -> bool {
        forall|other: Seq<u8>| other != key ==> #[trigger] self.lookup(other) == next.lookup(other)
    }

    /// Whether the staged radix entry at `at` gives a search for `other` in
    /// `next` what it gives in this state, if the search comes there: its
    /// link is the same unless the search does not end there, and each child
    /// is the same or leads the search to the same end.
    pub open spec fn same_for(self, next: IndexView, paths: Seq<Seq<u8>>, at: int, other: Seq<u8>) -> bool {
        let depth = paths[at].len();
        under(paths[at], other) ==> {
            &&& next.radixes[at].link_offset == self.radixes[at].link_offset || depth
                != nibble_count(other)
            &&& forall|c: int|
                0 <= c < 16 ==> {
                    ||| (#[trigger] next.radixes[at].offsets@[c]) == self.radixes[at].offsets@[c]
                    ||| depth >= nibble_count(other)
                    ||| c != nibble(other, depth as int)
                    ||| next.lookup_from(next.radixes[at].offsets@[c], other, depth + 1)
                        == self.lookup_from(self.radixes[at].offsets@[c], other, depth + 1)
                }
        }
    }

    /// A search for `other` that stands where its digits have led it finds
    /// in `next` what it finds in this state, where `next` holds all that it
    /// can read and the one staged radix entry that differs gives it the
    /// same.
    pub proof fn lemma_graft_walk(
        self,
        next: IndexView,
        paths: Seq<Seq<u8>>,
        at: int,
        other: Seq<u8>,
        step: nat,
        offset: Offset,
    )
        requires
            self.sound_with(paths),
            0 <= at < self.radixes.len(),
            step <= nibble_count(other),
            self.child_sound(paths, offset, key_prefix(other, step)),
            self.kept_for(next, at, other),
            self.same_for(next, paths, at, other),
        ensures
            next.lookup_from(offset, other, step) == self.lookup_from(offset, other, step),
        decreases nibble_count(other) - step,
    {
        if offset.spec_is_null() {
        } else if !offset.spec_is_dirty() {
            next.lemma_lookup_on_disk(self, offset, other, step);
        } else if offset.spec_dirty_type() == TYPE_RADIX {
            let r = offset.spec_dirty_index() as int;
            let radix = RadixOffset::of(offset);
            assert(offset.spec_to_typed(self.buf) == Some(TypedOffset::Radix(radix)));
            assert(paths[r] == key_prefix(other, step));
            assert(paths[r].len() == step);
            if step < nibble_count(other) {
                let c = nibble(other, step as int) as int;
                assert(0 <= c < 16) by {
                    lemma_nibble_range(other, step as int);
                }
                let child = self.radixes[r].offsets@[c];
                assert(self.child_sound(paths, child, paths[r].push(c as u8)));
                assert(paths[r].push(c as u8) =~= key_prefix(other, step + 1));
                self.lemma_graft_walk(next, paths, at, other, step + 1, child);
                if r == at {
                    let changed = next.radixes[at].offsets@[c];
                    assert(changed == child || next.lookup_from(changed, other, step + 1)
                        == self.lookup_from(child, other, step + 1));
                } else {
                    assert(next.radixes[r] == self.radixes[r]);
                }
            } else {
                if r != at {
                    assert(next.radixes[r] == self.radixes[r]);
                }
            }
        } else if offset.spec_dirty_type() == TYPE_LEAF {
            let l = offset.spec_dirty_index() as int;
            let leaf = LeafOffset::of(offset);
            assert(offset.spec_to_typed(self.buf) == Some(TypedOffset::Leaf(leaf)));
            assert(next.leafs[l].key_offset == self.leafs[l].key_offset);
            assert(self.leaf_ok(l));
            let key_offset = self.leafs[l].key_offset;
            if key_offset.spec_is_dirty() {
                assert(next.keys[key_offset.spec_dirty_index() as int]
                    == self.keys[key_offset.spec_dirty_index() as int]);
            }
        } else {
        }
    }
}

/// A search in a sound tree on disk finds an end, and the end is on disk.
pub proof fn lemma_disk_sound_lookup(view: IndexView, pos: int, key: Seq<u8>, step: nat)
    requires
        step <= nibble_count(key),
        0 <= pos <= u64::MAX,
        pos < crate::offset::DIRTY_OFFSET,
        disk_sound(view.buf, pos, key_prefix(key, step)),
    ensures
        view.lookup_from(Offset::of(pos as u64), key, step) is Some,
        !view.lookup_from(Offset::of(pos as u64), key, step).unwrap().spec_is_dirty(),
    decreases nibble_count(key) - step,
{
    let offset = Offset::of(pos as u64);
    let path = key_prefix(key, step);
    if type_at(view.buf, pos) == Some(TYPE_RADIX) {
        let radix = RadixOffset::of(offset);
        assert(offset.spec_to_typed(view.buf) == Some(TypedOffset::Radix(radix)));
        lemma_radix_read(view.buf, pos);
        let entry = MemRadix::spec_read_from(view.buf, pos).unwrap();
        if step < nibble_count(key) {
            lemma_nibble_range(key, step as int);
            let c = nibble(key, step as int) as int;
            let child = entry.children[c];
            assert(view.radix_child(radix, c) == Some(child));
            if child.spec_is_null() {
                assert(view.lookup_from(child, key, step + 1) == Some(LinkOffset::null()));
            } else {
                assert(path.push(c as u8) =~= key_prefix(key, step + 1));
                assert(Offset::of(child.raw()) == child);
                lemma_disk_sound_lookup(view, child.raw() as int, key, step + 1);
            }
        } else {
            assert(view.radix_link(radix) == Some(entry.link));
        }
    } else {
        let leaf = LeafOffset::of(offset);
        assert(offset.spec_to_typed(view.buf) == Some(TypedOffset::Leaf(leaf)));
        let entry = MemLeaf::spec_read_from(view.buf, pos).unwrap();
        assert(view.leaf_entry(leaf) == Some(entry));
        assert(!entry.key_offset.spec_is_dirty());
        assert(!entry.link_offset.spec_is_dirty());
        assert(view.leaf_lookup(leaf, key) is Some);
    }
}

/// A digit is below sixteen.
pub proof fn lemma_nibble_range(key: Seq<u8>, i: int)
    requires
        0 <= i < nibble_count(key),
    ensures
        nibble(key, i) < 16,
{
}

/// The digits of a key are its prefix of full length, and keys with the same
/// prefix of full length are the same key.
pub proof fn lemma_prefix_whole(a: Seq<u8>, b: Seq<u8>)
    requires
        key_prefix(a, nibble_count(a)) == key_prefix(b, nibble_count(b)),
    ensures
        a == b,
{
    assert(key_prefix(a, nibble_count(a)) =~= nibbles(a));
    assert(key_prefix(b, nibble_count(b)) =~= nibbles(b));
    lemma_nibbles_injective(a, b);
}

} // verus!
