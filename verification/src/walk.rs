//! The walk of an insertion, step by step.
//!
//! An insertion walks from the root along the digits of its key. On its way
//! it stages each radix entry that it comes to; it ends at a radix entry, at
//! a place without a child, or at a leaf. What holds on the way, and what
//! holds at each end, is said here once, for the insertion to refer to.

use vstd::prelude::*;
use crate::base16::nibble;
use crate::base16::nibble_count;
use crate::entry::MemLeaf;
use crate::entry::MemRadix;
use crate::frame::lemma_chained_sound;
use crate::frame::lemma_sound_at_leaf;
use crate::frame::lemma_sound_at_radix;
use crate::frame::lemma_sound_new_leaf;
use crate::frame::lemma_staged_sound;
use crate::insertion::lemma_insert_at_leaf;
use crate::insertion::lemma_insert_at_radix;
use crate::insertion::lemma_insert_new_leaf;
use crate::insertion::lemma_insert_split;
use crate::insertion::lemma_staged_radix;
use crate::offset::KeyOffset;
use crate::offset::LeafOffset;
use crate::offset::LinkOffset;
use crate::offset::MAX_DIRTY_INDEX;
use crate::offset::Offset;
use crate::offset::RadixOffset;
use crate::offset::TYPE_LINK;
use crate::offset::TypedOffset;
use crate::sound::key_prefix;
use crate::sound::lemma_nibble_range;
use crate::state::IndexView;

verus! {

/// What an insertion is asked to do.
pub struct Walk {
    /// The key.
    pub key: Seq<u8>,
    /// The value for a new link, if any.
    pub value: Option<u64>,
    /// The chain to give the key, if any.
    pub link: Option<LinkOffset>,
}

impl IndexView {
    /// The state after the insertion for `key`, whether it succeeds or
    /// fails: the radix entries on the way to the key are staged, and where
    /// the way ends, the key gets its new head.
    pub open spec fn inserted(
        self,
        key: Seq<u8>,
        value: Option<u64>,
        link: Option<LinkOffset>,
    ) -> IndexView {
        (Walk { key, value, link }).inserted(self)
    }
}

/// The place of the last staged radix entry of a trail, where there is one.
pub open spec fn last_of(trail: Seq<int>) -> int {
    if trail.len() > 0 {
        trail.last()
    } else {
        -1
    }
}

impl Walk {
    /// The state after a walk that ends at the staged radix entry at `here`:
    /// the entry gets the new head as its link.
    pub open spec fn end_at_radix(self, staged: IndexView, here: int) -> IndexView {
        let old_link = staged.radixes[here].link_offset;
        staged.linked(old_link, self.value, self.link).set_radix_link(
            here,
            staged.head_of(old_link, self.value, self.link),
        )
    }

    /// The state after a walk that ends below the staged radix entry at
    /// `here`, which has no child for digit `step` of the key: a key entry
    /// and a leaf are staged, and the leaf hangs there.
    pub open spec fn end_new_leaf(self, staged: IndexView, here: int, step: nat) -> IndexView {
        let linked = staged.linked(LinkOffset::null(), self.value, self.link);
        let head = staged.head_of(LinkOffset::null(), self.value, self.link);
        linked.push_key(self.key).push_leaf(
            MemLeaf { key_offset: KeyOffset::spec_dirty(linked.keys.len()), link_offset: head },
        ).set_child(
            here,
            nibble(self.key, step as int) as int,
            LeafOffset::spec_dirty(linked.leafs.len()).to_offset(),
        )
    }

    /// The state after a walk that ends at the leaf of the key, which hangs
    /// under the staged radix entry at `last`: a staged leaf gets the new
    /// head as its link; of a leaf on disk a copy with the new head is
    /// staged and hangs in its place.
    pub open spec fn end_at_leaf(self, cur: IndexView, last: int, step: nat, leaf: LeafOffset) -> IndexView {
        let entry = cur.leaf_entry(leaf).unwrap();
        let linked = cur.linked(entry.link_offset, self.value, self.link);
        let head = cur.head_of(entry.link_offset, self.value, self.link);
        if leaf.spec_is_dirty() {
            linked.set_leaf_link(leaf.spec_dirty_index() as int, head).set_child(
                last,
                nibble(self.key, step - 1) as int,
                leaf.to_offset(),
            )
        } else {
            linked.push_leaf(MemLeaf { key_offset: entry.key_offset, link_offset: head }).set_child(
                last,
                nibble(self.key, step - 1) as int,
                LeafOffset::spec_dirty(linked.leafs.len()).to_offset(),
            )
        }
    }

    /// The state after a walk that ends at the leaf of another key, which
    /// hangs under the staged radix entry at `last`: the leaf is split.
    pub open spec fn end_split(self, cur: IndexView, last: int, step: nat, leaf: LeafOffset) -> IndexView {
        let linked = cur.linked(LinkOffset::null(), self.value, self.link);
        let head = cur.head_of(LinkOffset::null(), self.value, self.link);
        linked.split_at(
            leaf,
            self.key,
            step,
            last,
            nibble(self.key, step - 1) as int,
            head,
        ).split_from(linked, 0)
    }

    /// The state after the walk has staged the radix entry that it came to
    /// with `step` digits behind it: a staged entry stays as it is; of an
    /// entry on disk a copy is staged and hangs in its place, under the
    /// staged radix entry at `last` or as the root.
    pub open spec fn staged(self, cur: IndexView, radix: RadixOffset, last: int, step: nat) -> IndexView {
        if radix.spec_is_dirty() {
            cur
        } else {
            let copy = MemRadix::of(cur.radix_entry(radix).unwrap());
            let here = RadixOffset::spec_dirty(cur.radixes.len());
            if step == 0 {
                cur.push_radix(copy).set_root(here)
            } else {
                cur.push_radix(copy).set_child(
                    last,
                    nibble(self.key, step - 1) as int,
                    here.to_offset(),
                )
            }
        }
    }

    /// Whether the walk cannot go on from `offset`: what stands there is no
    /// radix entry that reads whole and no leaf that reads, or a leaf where
    /// the tree should start.
    pub open spec fn stuck(self, cur: IndexView, offset: Offset, step: nat) -> bool {
        match offset.spec_to_typed(cur.buf) {
            Some(TypedOffset::Radix(radix)) => cur.radix_entry(radix) is None,
            Some(TypedOffset::Leaf(leaf)) => step == 0 || cur.leaf_lookup(leaf, self.key) is None,
            _ => true,
        }
    }

    /// The state after the walk that stands at `offset` with `step` digits
    /// of the key behind it, the last staged radix entry being the one at
    /// `last`. A walk that cannot go on leaves the state as it is.
    pub open spec fn insert_from(self, cur: IndexView, offset: Offset, last: int, step: nat) -> IndexView
        decreases nibble_count(self.key) - step,
    {
        if self.stuck(cur, offset, step) {
            cur
        } else {
            match offset.spec_to_typed(cur.buf) {
                Some(TypedOffset::Radix(radix)) => {
                    let staged = self.staged(cur, radix, last, step);
                    let here = if radix.spec_is_dirty() {
                        radix.spec_dirty_index() as int
                    } else {
                        cur.radixes.len() as int
                    };
                    let child = staged.radixes[here].offsets@[nibble(self.key, step as int) as int];
                    if step >= nibble_count(self.key) {
                        self.end_at_radix(staged, here)
                    } else if child.spec_is_null() {
                        self.end_new_leaf(staged, here, step)
                    } else {
                        self.insert_from(staged, child, here, step + 1)
                    }
                },
                Some(TypedOffset::Leaf(leaf)) => if cur.key_content(
                    cur.leaf_entry(leaf).unwrap().key_offset,
                ) == Some(self.key) {
                    self.end_at_leaf(cur, last, step, leaf)
                } else {
                    self.end_split(cur, last, step, leaf)
                },
                _ => cur,
            }
        }
    }

    /// The state after the insertion that began in `first`. An insertion
    /// with a chain that is none of the index leaves the state as it is.
    pub open spec fn inserted(self, first: IndexView) -> IndexView {
        if self.link matches Some(l) && !first.link_usable(l) {
            first
        } else {
            self.insert_from(first, first.root.to_offset(), -1, 0)
        }
    }

    /// Whether `cur` can be the state of an insertion that began in `first`
    /// and has not come to its end: only radix entries were staged or
    /// changed.
    pub open spec fn framed(self, first: IndexView, cur: IndexView) -> bool {
        &&& first.wf()
        &&& cur.wf()
        &&& first.has_room(self.key.len())
        &&& cur.buf == first.buf
        &&& cur.read_only == first.read_only
        &&& cur.links == first.links
        &&& cur.keys == first.keys
        &&& cur.leafs == first.leafs
        &&& self.link matches Some(l) ==> first.link_usable(l)
    }

    /// Whether the walk stands at `offset` with the staged radix entries of
    /// `trail` behind it: what a search for the key finds from there is what
    /// it found at the beginning, and a sound tree is still sound and holds
    /// what it held.
    pub open spec fn on_way(
        self,
        first: IndexView,
        cur: IndexView,
        trail: Seq<int>,
        offset: Offset,
        paths: Seq<Seq<u8>>,
    ) -> bool {
        let depth = trail.len();
        &&& self.framed(first, cur)
        &&& first.radixes.len() <= cur.radixes.len() <= first.radixes.len() + depth
        &&& depth <= nibble_count(self.key)
        &&& cur.lookup_from(offset, self.key, depth) == first.lookup(self.key)
        &&& cur.insertable_from(offset, self.key, depth) == first.insertable_from(
            first.root.to_offset(),
            self.key,
            0,
        )
        &&& self.inserted(first) == self.insert_from(cur, offset, last_of(trail), depth)
        &&& first.sound() ==> {
            &&& cur.sound_with(paths)
            &&& cur.fits_file()
            &&& first.agrees(cur)
            &&& depth > 0 ==> paths[trail.last()] == key_prefix(self.key, (depth - 1) as nat)
        }
        &&& depth == 0 ==> offset == cur.root.to_offset()
        &&& depth > 0 ==> {
            &&& cur.rooted(trail, self.key)
            &&& cur.radixes[trail.last()].offsets@[nibble(self.key, depth - 1) as int] == offset
            &&& !offset.spec_is_null()
        }
    }

    /// Whether the walk stands at the staged radix entry that `trail` ends
    /// with: what a search for the key finds from there is what it found at
    /// the beginning.
    pub open spec fn standing(
        self,
        first: IndexView,
        staged: IndexView,
        trail: Seq<int>,
        paths: Seq<Seq<u8>>,
    ) -> bool {
        let depth = (trail.len() - 1) as nat;
        let here = trail.last();
        let child = staged.radixes[here].offsets@[nibble(self.key, depth as int) as int];
        &&& trail.len() >= 1
        &&& self.framed(first, staged)
        &&& first.radixes.len() <= staged.radixes.len() <= first.radixes.len() + trail.len()
        &&& depth <= nibble_count(self.key)
        &&& staged.rooted(trail, self.key)
        &&& first.sound() ==> {
            &&& staged.sound_with(paths)
            &&& staged.fits_file()
            &&& first.agrees(staged)
            &&& paths[here] == key_prefix(self.key, depth)
        }
        &&& first.insertable_from(first.root.to_offset(), self.key, 0) == (depth >= nibble_count(
            self.key,
        ) || child.spec_is_null() || staged.insertable_from(child, self.key, depth + 1))
        &&& first.lookup(self.key) == if depth >= nibble_count(self.key) {
            Some(staged.radixes[here].link_offset)
        } else {
            staged.lookup_from(child, self.key, depth + 1)
        }
        &&& self.inserted(first) == if depth >= nibble_count(self.key) {
            self.end_at_radix(staged, here)
        } else if child.spec_is_null() {
            self.end_new_leaf(staged, here, depth)
        } else {
            self.insert_from(staged, child, here, depth + 1)
        }
    }

    /// Whether `fin` is the state after the insertion that began in `first`
    /// and succeeded.
    pub open spec fn done(self, first: IndexView, fin: IndexView) -> bool {
        &&& first.insertable(self.key, self.link)
        &&& fin.wf()
        &&& fin.buf == first.buf
        &&& fin.read_only == first.read_only
        &&& first.inserts(fin, self.key, self.value, self.link)
        &&& fin == self.inserted(first)
        &&& first.staging_kept(fin)
        &&& first.grown_by(fin, self.key.len())
        &&& fin.root.spec_is_dirty()
        &&& first.sound() ==> fin.sound() && first.agrees_but(fin, self.key)
    }

    /// Whether `cur` is the state after the insertion that began in `first`
    /// and failed.
    pub open spec fn failed(self, first: IndexView, cur: IndexView) -> bool {
        &&& !first.insertable(self.key, self.link)
        &&& cur.wf()
        &&& cur.buf == first.buf
        &&& cur.read_only == first.read_only
        &&& cur.links == first.links
        &&& cur.leafs == first.leafs
        &&& cur.keys == first.keys
        &&& cur == self.inserted(first)
        &&& first.staging_kept(cur)
        &&& first.grown_by(cur, self.key.len())
        &&& first.sound() ==> cur.sound() && first.agrees_but(cur, self.key)
    }

    /// A walk begins at the root.
    pub proof fn lemma_begin(self, first: IndexView, paths: Seq<Seq<u8>>)
        requires
            first.wf(),
            first.has_room(self.key.len()),
            self.link matches Some(l) ==> first.link_usable(l),
            first.sound() ==> first.sound_with(paths),
        ensures
            self.on_way(first, first, Seq::empty(), first.root.to_offset(), paths),
    {
    }

    /// A walk that cannot go on has failed, and has changed what no search
    /// finds.
    pub proof fn lemma_failed(
        self,
        first: IndexView,
        cur: IndexView,
        trail: Seq<int>,
        offset: Offset,
        paths: Seq<Seq<u8>>,
    )
        requires
            self.on_way(first, cur, trail, offset, paths),
            self.stuck(cur, offset, trail.len()),
        ensures
            self.failed(first, cur),
    {
        if first.sound() {
            assert(cur.sound_with(paths));
        }
    }

    /// The walk stages the radix entry that it has come to, and stands
    /// there. Returns the paths of the staged radix entries.
    pub proof fn lemma_stage(
        self,
        first: IndexView,
        at_head: IndexView,
        mid: IndexView,
        staged: IndexView,
        radix: RadixOffset,
        trail: Seq<int>,
        arrived: Offset,
        paths: Seq<Seq<u8>>,
    ) -> (next_paths: Seq<Seq<u8>>)
        requires
            self.on_way(first, at_head, trail, arrived, paths),
            arrived.spec_to_typed(at_head.buf) == Some(
                TypedOffset::Radix(RadixOffset::of(arrived)),
            ),
            arrived.spec_is_dirty() ==> radix == RadixOffset::of(arrived) && mid == at_head,
            !arrived.spec_is_dirty() ==> {
                &&& MemRadix::spec_read_from(at_head.buf, arrived.raw() as int) is Some
                &&& radix == RadixOffset::spec_dirty(at_head.radixes.len())
                &&& mid.radixes.len() == at_head.radixes.len() + 1
                &&& mid.radixes.last()@ == MemRadix::spec_read_from(
                    at_head.buf,
                    arrived.raw() as int,
                ).unwrap()
                &&& mid == at_head.push_radix(mid.radixes.last())
            },
            staged == if trail.len() == 0 {
                mid.set_root(radix)
            } else {
                mid.set_child(
                    trail.last(),
                    nibble(self.key, trail.len() - 1) as int,
                    radix.to_offset(),
                )
            },
        ensures
            self.standing(first, staged, trail.push(radix.spec_dirty_index() as int), next_paths),
            radix.spec_is_dirty(),
            radix.spec_dirty_index() < staged.radixes.len(),
            radix == RadixOffset::spec_dirty(radix.spec_dirty_index()),
            staged.links.len() < MAX_DIRTY_INDEX,
            staged.leafs.len() < MAX_DIRTY_INDEX,
            staged.keys.len() < MAX_DIRTY_INDEX,
    {
        let key = self.key;
        let depth = trail.len();
        let here = radix.spec_dirty_index() as int;
        let last_child = nibble(key, depth - 1);
        if depth > 0 {
            lemma_nibble_range(key, depth - 1);
        }
        lemma_staged_radix(at_head, mid, staged, radix, arrived, trail, key, last_child);
        if !arrived.spec_is_dirty() {
            mid.radixes.last().lemma_of_self();
        }
        assert(staged == self.staged(at_head, RadixOffset::of(arrived), last_of(trail), depth));
        let next_paths = if first.sound() {
            if !arrived.spec_is_dirty() {
                assert(staged.radixes.last() == mid.radixes.last());
            }
            lemma_staged_sound(at_head, staged, radix, arrived, trail, key, last_child, paths)
        } else {
            paths
        };
        if first.sound() {
            assert forall|other: Seq<u8>| #[trigger] first.lookup(other) == staged.lookup(other) by {
                assert(first.lookup(other) == at_head.lookup(other));
                assert(at_head.lookup(other) == staged.lookup(other));
            }
        }
        if depth < nibble_count(key) {
            lemma_nibble_range(key, depth as int);
            let c = nibble(key, depth as int) as int;
            let child = staged.radixes[here].offsets@[c];
            assert(at_head.radix_child(RadixOffset::of(arrived), c) == Some(child));
            assert(at_head.radix_entry(RadixOffset::of(arrived)).unwrap().children[c] == child);
            if !arrived.spec_is_dirty() {
                staged.lemma_lookup_on_disk(at_head, child, key, depth + 1);
                if !child.spec_is_null() {
                    staged.lemma_insertable_on_disk(at_head, child, key, depth + 1);
                }
            }
        }
        next_paths
    }

    /// The walk goes on to the child under the next digit of the key.
    pub proof fn lemma_go_on(
        self,
        first: IndexView,
        staged: IndexView,
        trail: Seq<int>,
        paths: Seq<Seq<u8>>,
    )
        requires
            self.standing(first, staged, trail, paths),
            trail.len() - 1 < nibble_count(self.key),
            !staged.radixes[trail.last()].offsets@[nibble(self.key, trail.len() - 1) as int].spec_is_null(),
        ensures
            self.on_way(
                first,
                staged,
                trail,
                staged.radixes[trail.last()].offsets@[nibble(self.key, trail.len() - 1) as int],
                paths,
            ),
    {
    }

    /// The walk ends at a radix entry: the key has no digits left, and the
    /// entry gets the new head as its link.
    pub proof fn lemma_done_at_radix(
        self,
        first: IndexView,
        staged: IndexView,
        linked: IndexView,
        fin: IndexView,
        trail: Seq<int>,
        paths: Seq<Seq<u8>>,
        head: LinkOffset,
    )
        requires
            self.standing(first, staged, trail, paths),
            trail.len() == nibble_count(self.key) + 1,
            staged.chained(
                linked,
                staged.radixes[trail.last()].link_offset,
                self.value,
                self.link,
                head,
            ),
            fin == linked.set_radix_link(trail.last(), head),
        ensures
            self.done(first, fin),
    {
        lemma_insert_at_radix(
            first,
            staged,
            linked,
            fin,
            trail,
            self.key,
            self.value,
            self.link,
            head,
        );
        if first.sound() {
            lemma_sound_at_radix(
                staged,
                linked,
                fin,
                paths,
                trail.last(),
                self.key,
                self.value,
                self.link,
                head,
            );
            assert(fin.sound_with(paths));
            assert forall|other: Seq<u8>| other != self.key implies #[trigger] first.lookup(other)
                == fin.lookup(other) by {
                assert(first.lookup(other) == staged.lookup(other));
            }
        }
    }

    /// The walk ends where the tree has no child for the next digit of the
    /// key: the key gets a leaf there.
    pub proof fn lemma_done_new_leaf(
        self,
        first: IndexView,
        staged: IndexView,
        linked: IndexView,
        fin: IndexView,
        trail: Seq<int>,
        paths: Seq<Seq<u8>>,
        head: LinkOffset,
    )
        requires
            self.standing(first, staged, trail, paths),
            trail.len() - 1 < nibble_count(self.key),
            staged.radixes[trail.last()].offsets@[nibble(self.key, trail.len() - 1) as int].spec_is_null(),
            staged.chained(linked, LinkOffset::null(), self.value, self.link, head),
            fin == linked.push_key(self.key).push_leaf(
                MemLeaf { key_offset: KeyOffset::spec_dirty(linked.keys.len()), link_offset: head },
            ).set_child(
                trail.last(),
                nibble(self.key, trail.len() - 1) as int,
                LeafOffset::spec_dirty(linked.leafs.len()).to_offset(),
            ),
        ensures
            self.done(first, fin),
    {
        let depth = (trail.len() - 1) as nat;
        assert(staged.lookup_from(Offset::null(), self.key, depth + 1) == Some(LinkOffset::null()));
        lemma_insert_new_leaf(
            first,
            staged,
            linked,
            fin,
            trail,
            self.key,
            self.value,
            self.link,
            head,
        );
        if first.sound() {
            lemma_sound_new_leaf(
                staged,
                linked,
                fin,
                paths,
                trail.last(),
                self.key,
                self.value,
                self.link,
                head,
            );
            assert(fin.sound_with(paths));
            assert forall|other: Seq<u8>| other != self.key implies #[trigger] first.lookup(other)
                == fin.lookup(other) by {
                assert(first.lookup(other) == staged.lookup(other));
            }
        }
    }

    /// What holds where the walk has come to a leaf.
    pub proof fn lemma_at_leaf(
        self,
        first: IndexView,
        at_head: IndexView,
        trail: Seq<int>,
        leaf: LeafOffset,
        paths: Seq<Seq<u8>>,
    )
        requires
            self.on_way(first, at_head, trail, leaf.to_offset(), paths),
            leaf.to_offset().spec_to_typed(at_head.buf) == Some(TypedOffset::Leaf(leaf)),
            trail.len() > 0,
            at_head.leaf_entry(leaf) is Some,
        ensures
            at_head.leaf_slot_ok(leaf),
            leaf.spec_is_dirty() ==> leaf.spec_dirty_index() < at_head.leafs.len(),
            at_head.link_ok(at_head.leaf_entry(leaf).unwrap().link_offset, at_head.links.len()),
            at_head.leaf_entry(leaf).unwrap().link_offset.to_offset().fits(at_head.buf, TYPE_LINK)
                || !first.sound(),
            at_head.links.len() < MAX_DIRTY_INDEX,
            at_head.leafs.len() < MAX_DIRTY_INDEX,
            at_head.keys.len() < MAX_DIRTY_INDEX,
            at_head.radixes.len() + nibble_count(self.key) - trail.len() + 1 <= MAX_DIRTY_INDEX,
            0 <= trail.last() < at_head.radixes.len(),
            trail.last() <= MAX_DIRTY_INDEX,
    {
        if leaf.spec_is_dirty() {
            leaf.lemma_tagged();
            assert(at_head.leaf_ok(leaf.spec_dirty_index() as int));
            if first.sound() {
                assert(at_head.leafs[leaf.spec_dirty_index() as int].link_offset.to_offset().fits(
                    at_head.buf,
                    TYPE_LINK,
                ));
            }
        }
    }

    /// The walk ends at the leaf of the key: the leaf, or a staged copy of
    /// it, gets the new head as its link.
    pub proof fn lemma_done_at_leaf(
        self,
        first: IndexView,
        at_head: IndexView,
        linked: IndexView,
        fin: IndexView,
        trail: Seq<int>,
        leaf: LeafOffset,
        paths: Seq<Seq<u8>>,
        head: LinkOffset,
    )
        requires
            self.on_way(first, at_head, trail, leaf.to_offset(), paths),
            trail.len() > 0,
            leaf.to_offset().spec_to_typed(at_head.buf) == Some(TypedOffset::Leaf(leaf)),
            at_head.leaf_entry(leaf) is Some,
            at_head.key_content(at_head.leaf_entry(leaf).unwrap().key_offset) == Some(self.key),
            at_head.chained(
                linked,
                at_head.leaf_entry(leaf).unwrap().link_offset,
                self.value,
                self.link,
                head,
            ),
            fin == if leaf.spec_is_dirty() {
                linked.set_leaf_link(leaf.spec_dirty_index() as int, head).set_child(
                    trail.last(),
                    nibble(self.key, trail.len() - 1) as int,
                    leaf.to_offset(),
                )
            } else {
                linked.push_leaf(
                    MemLeaf {
                        key_offset: at_head.leaf_entry(leaf).unwrap().key_offset,
                        link_offset: head,
                    },
                ).set_child(
                    trail.last(),
                    nibble(self.key, trail.len() - 1) as int,
                    LeafOffset::spec_dirty(linked.leafs.len()).to_offset(),
                )
            },
        ensures
            self.done(first, fin),
    {
        self.lemma_at_leaf(first, at_head, trail, leaf, paths);
        assert(at_head.leaf_lookup(leaf, self.key) == Some(
            at_head.leaf_entry(leaf).unwrap().link_offset,
        ));
        lemma_insert_at_leaf(
            first,
            at_head,
            linked,
            fin,
            trail,
            self.key,
            self.value,
            self.link,
            leaf,
            head,
        );
        if first.sound() {
            lemma_sound_at_leaf(
                at_head,
                linked,
                fin,
                paths,
                trail.last(),
                self.key,
                self.value,
                self.link,
                leaf,
                head,
            );
            assert(fin.sound_with(paths));
            assert forall|other: Seq<u8>| other != self.key implies #[trigger] first.lookup(other)
                == fin.lookup(other) by {
                assert(first.lookup(other) == at_head.lookup(other));
            }
        }
    }

    /// Before a leaf split: the new head is chosen, the tree is what it was,
    /// and there is room for the chain.
    pub proof fn lemma_split_ready(
        self,
        first: IndexView,
        at_head: IndexView,
        linked: IndexView,
        trail: Seq<int>,
        leaf: LeafOffset,
        paths: Seq<Seq<u8>>,
        head: LinkOffset,
    )
        requires
            self.on_way(first, at_head, trail, leaf.to_offset(), paths),
            trail.len() > 0,
            leaf.to_offset().spec_to_typed(at_head.buf) == Some(TypedOffset::Leaf(leaf)),
            at_head.leaf_entry(leaf) is Some,
            at_head.chained(linked, LinkOffset::null(), self.value, self.link, head),
        ensures
            linked.wf(),
            linked.buf == at_head.buf,
            linked.leaf_entry(leaf) == at_head.leaf_entry(leaf),
            linked.key_content(at_head.leaf_entry(leaf).unwrap().key_offset)
                == at_head.key_content(at_head.leaf_entry(leaf).unwrap().key_offset),
            linked.leaf_slot_ok(leaf),
            linked.link_ok(at_head.leaf_entry(leaf).unwrap().link_offset, linked.links.len()),
            linked.link_ok(head, linked.links.len()),
            linked.radixes.len() + nibble_count(self.key) - trail.len() + 1 <= MAX_DIRTY_INDEX,
            linked.leafs.len() <= MAX_DIRTY_INDEX,
            linked.keys.len() <= MAX_DIRTY_INDEX,
            0 <= trail.last() < linked.radixes.len(),
            trail.last() <= MAX_DIRTY_INDEX,
            first.sound() ==> {
                &&& linked.sound_with(paths)
                &&& linked.fits_file()
                &&& head.to_offset().fits(linked.buf, TYPE_LINK)
                &&& self.key.len() <= u64::MAX
                &&& paths[trail.last()] == key_prefix(self.key, (trail.len() - 1) as nat)
                &&& linked.radixes[trail.last()].offsets@[nibble(self.key, trail.len() - 1) as int]
                    == leaf.to_offset()
            },
    {
        self.lemma_at_leaf(first, at_head, trail, leaf, paths);
        at_head.lemma_chained(linked, LinkOffset::null(), self.value, self.link, head);
        if first.sound() {
            lemma_chained_sound(
                at_head,
                linked,
                paths,
                LinkOffset::null(),
                self.value,
                self.link,
                head,
            );
        }
    }

    /// The walk ends at the leaf of another key, and the leaf was split.
    pub proof fn lemma_done_split(
        self,
        first: IndexView,
        at_head: IndexView,
        linked: IndexView,
        fin: IndexView,
        trail: Seq<int>,
        leaf: LeafOffset,
        paths: Seq<Seq<u8>>,
        head: LinkOffset,
    )
        requires
            self.on_way(first, at_head, trail, leaf.to_offset(), paths),
            trail.len() > 0,
            leaf.to_offset().spec_to_typed(at_head.buf) == Some(TypedOffset::Leaf(leaf)),
            at_head.leaf_entry(leaf) is Some,
            at_head.key_content(at_head.leaf_entry(leaf).unwrap().key_offset) is Some,
            at_head.key_content(at_head.leaf_entry(leaf).unwrap().key_offset) != Some(self.key),
            at_head.chained(linked, LinkOffset::null(), self.value, self.link, head),
            fin.wf(),
            linked.grafted(fin, trail.last(), nibble(self.key, trail.len() - 1) as int),
            fin.lookup_from(
                RadixOffset::spec_dirty(trail.last() as nat).to_offset(),
                self.key,
                (trail.len() - 1) as nat,
            ) == Some(head),
            fin == self.end_split(at_head, trail.last(), trail.len(), leaf),
            fin.radixes.len() <= linked.radixes.len() + nibble_count(self.key) - trail.len() + 1,
            fin.leafs.len() <= linked.leafs.len() + 1,
            fin.keys.len() <= linked.keys.len() + 1,
            first.sound() ==> fin.sound() && linked.agrees_but(fin, self.key),
        ensures
            self.done(first, fin),
    {
        self.lemma_at_leaf(first, at_head, trail, leaf, paths);
        at_head.lemma_chained(linked, LinkOffset::null(), self.value, self.link, head);
        assert(at_head.leaf_lookup(leaf, self.key) == Some(LinkOffset::null()));
        lemma_insert_split(
            first,
            at_head,
            linked,
            fin,
            trail,
            self.key,
            self.value,
            self.link,
            head,
        );
        if first.sound() {
            lemma_chained_sound(
                at_head,
                linked,
                paths,
                LinkOffset::null(),
                self.value,
                self.link,
                head,
            );
            assert forall|other: Seq<u8>| other != self.key implies #[trigger] first.lookup(other)
                == fin.lookup(other) by {
                assert(first.lookup(other) == at_head.lookup(other));
                assert(at_head.lookup(other) == linked.lookup(other));
                assert(linked.lookup(other) == fin.lookup(other));
            }
        }
    }
}

} // verus!
