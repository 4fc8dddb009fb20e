//! The radix entries that a leaf split puts into the tree.
//!
//! Where an insertion comes to the leaf of another key, it stages a chain of
//! radix entries, one for each digit that the two keys share from there on.
//! Each entry of the chain but the last has one child, the next entry. The
//! last holds what is left of the two keys: for each a leaf under its next
//! digit, or its link where it has no digits left.

use vstd::prelude::*;
use crate::base16::nibble;
use crate::base16::nibble_count;
use crate::entry::MemLeaf;
use crate::offset::KeyOffset;
use crate::offset::LeafOffset;
use crate::offset::LinkOffset;
use crate::offset::MAX_DIRTY_INDEX;
use crate::offset::Offset;
use crate::offset::RadixOffset;
use crate::offset::TypedOffset;
use crate::sound::key_prefix;
use crate::sound::lemma_nibble_range;
use crate::sound::lemma_prefix_whole;
use crate::sound::under;
use crate::state::IndexView;

verus! {

/// A leaf split: where the chain starts and what it parts.
pub struct Split {
    /// The place among the staged radix entries of the first of the chain.
    pub base: int,
    /// The number of digits that lead to the first of the chain.
    pub start: nat,
    /// The key that is inserted.
    pub new_key: Seq<u8>,
    /// The key of the leaf that stood in the way.
    pub old_key: Seq<u8>,
    /// The leaf that stood in the way.
    pub old_leaf: LeafOffset,
    /// The link of the leaf that stood in the way.
    pub old_link: LinkOffset,
    /// The link that the inserted key gets.
    pub new_link: LinkOffset,
    /// The place among the staged radix entries of the entry above the
    /// chain.
    pub at: int,
    /// The digit under which the chain hangs there.
    pub child: int,
}

impl IndexView {
    /// The split of `leaf`, which hangs under the digit `child` of the
    /// staged radix entry at `at`, for `key`, which has `start` digits
    /// behind it there and is to get `new_link`.
    pub open spec fn split_at(
        self,
        leaf: LeafOffset,
        key: Seq<u8>,
        start: nat,
        at: int,
        child: int,
        new_link: LinkOffset,
    ) -> Split {
        let entry = self.leaf_entry(leaf).unwrap();
        Split {
            base: self.radixes.len() as int,
            start,
            new_key: key,
            old_key: self.key_content(entry.key_offset).unwrap(),
            old_leaf: leaf,
            old_link: entry.link_offset,
            new_link,
            at,
            child,
        }
    }
}

impl Split {
    /// Whether both keys have a digit at `depth`, and the same.
    pub open spec fn shared(self, depth: int) -> bool {
        &&& depth < nibble_count(self.old_key)
        &&& depth < nibble_count(self.new_key)
        &&& nibble(self.old_key, depth) == nibble(self.new_key, depth)
    }

    /// Whether entry `j` of the chain in `view` has the next entry as its
    /// one child, under the digit that the keys share.
    pub open spec fn inner(self, view: IndexView, j: int) -> bool {
        let node = view.radixes[self.base + j];
        let depth = self.start + j;
        &&& self.shared(depth)
        &&& node.link_offset == LinkOffset::null()
        &&& forall|c: int|
            0 <= c < 16 ==> #[trigger] node.offsets@[c] == if c == nibble(self.new_key, depth) {
                RadixOffset::spec_dirty((self.base + j + 1) as nat).to_offset()
            } else {
                Offset::null()
            }
    }

    /// Whether entry `j` of the chain in `view` has the old leaf as its one
    /// child, under the digit that the keys share: the next entry of the
    /// chain is about to take the place of the leaf.
    pub open spec fn pending(self, view: IndexView, j: int) -> bool {
        let node = view.radixes[self.base + j];
        let depth = self.start + j;
        &&& self.shared(depth)
        &&& node.link_offset == LinkOffset::null()
        &&& forall|c: int|
            0 <= c < 16 ==> #[trigger] node.offsets@[c] == if c == nibble(self.new_key, depth) {
                self.old_leaf.to_offset()
            } else {
                Offset::null()
            }
    }

    /// Whether entry `j` of the chain in `view` is its last: the keys part
    /// there, and each has its leaf under its next digit or, without one, its
    /// link in the entry. The leaf of the new key is the last staged leaf and
    /// its key the last staged key.
    pub open spec fn terminal(self, view: IndexView, j: int) -> bool {
        let node = view.radixes[self.base + j];
        let depth = self.start + j;
        let old_here = depth < nibble_count(self.old_key);
        let new_here = depth < nibble_count(self.new_key);
        let new_leaf = LeafOffset::spec_dirty((view.leafs.len() - 1) as nat);
        &&& !self.shared(depth)
        &&& node.link_offset == if !new_here {
            self.new_link
        } else if !old_here {
            self.old_link
        } else {
            LinkOffset::null()
        }
        &&& forall|c: int|
            0 <= c < 16 ==> #[trigger] node.offsets@[c] == if new_here && c == nibble(
                self.new_key,
                depth,
            ) {
                new_leaf.to_offset()
            } else if old_here && c == nibble(self.old_key, depth) {
                self.old_leaf.to_offset()
            } else {
                Offset::null()
            }
        &&& new_here ==> {
            &&& view.leafs.len() >= 1
            &&& view.keys.len() >= 1
            &&& view.leafs.len() - 1 <= MAX_DIRTY_INDEX
            &&& view.keys.len() - 1 <= MAX_DIRTY_INDEX
            &&& view.leafs.last() == (MemLeaf {
                key_offset: KeyOffset::spec_dirty((view.keys.len() - 1) as nat),
                link_offset: self.new_link,
            })
            &&& view.keys.last() == self.new_key
        }
    }

    /// Whether `view` holds a chain of `count` entries for this split, and
    /// the old leaf with its key.
    pub open spec fn built(self, view: IndexView, count: int) -> bool {
        &&& count >= 1
        &&& 0 <= self.base
        &&& self.base + count <= view.radixes.len()
        &&& self.base + count <= MAX_DIRTY_INDEX + 1
        &&& forall|j: int| 0 <= j < count - 1 ==> #[trigger] self.inner(view, j)
        &&& self.terminal(view, count - 1)
        &&& self.old_leaf.to_offset().spec_to_typed(view.buf) == Some(
            TypedOffset::Leaf(self.old_leaf),
        )
        &&& view.leaf_entry(self.old_leaf) is Some
        &&& view.leaf_entry(self.old_leaf).unwrap().link_offset == self.old_link
        &&& view.key_content(view.leaf_entry(self.old_leaf).unwrap().key_offset) == Some(
            self.old_key,
        )
    }

    /// The place of the staged radix entry that gets the next entry of the
    /// chain as its child, after `built` entries.
    pub open spec fn last(self, built: int) -> int {
        if built == 0 {
            self.at
        } else {
            self.base + built - 1
        }
    }

    /// Whether `cur` is `first` with the first `built` entries of the chain:
    /// the chain hangs where the old leaf hung, each entry but the last has
    /// the next as its one child, and the last has the old leaf. Nothing
    /// else is staged yet, and there is room for what is to come.
    pub open spec fn growing(self, first: IndexView, cur: IndexView, built: int) -> bool {
        &&& first.wf()
        &&& cur.wf()
        &&& first.grafted(cur, self.at, self.child)
        &&& cur.leafs == first.leafs
        &&& cur.keys == first.keys
        &&& self.base == first.radixes.len()
        &&& cur.radixes.len() == self.base + built
        &&& 0 <= built
        &&& 0 <= self.at < self.base
        &&& 0 <= self.child < 16
        &&& 1 <= self.start
        &&& self.start + built <= nibble_count(self.new_key)
        &&& self.child == nibble(self.new_key, self.start - 1)
        &&& self.base + nibble_count(self.new_key) - self.start + 1 <= MAX_DIRTY_INDEX
        &&& first.leafs.len() <= MAX_DIRTY_INDEX
        &&& first.keys.len() <= MAX_DIRTY_INDEX
        &&& first.leaf_slot_ok(self.old_leaf)
        &&& first.link_ok(self.old_link, first.links.len())
        &&& first.link_ok(self.new_link, first.links.len())
        &&& self.old_leaf.to_offset().spec_to_typed(first.buf) == Some(
            TypedOffset::Leaf(self.old_leaf),
        )
        &&& first.leaf_entry(self.old_leaf) is Some
        &&& first.leaf_entry(self.old_leaf).unwrap().link_offset == self.old_link
        &&& first.key_content(first.leaf_entry(self.old_leaf).unwrap().key_offset) == Some(
            self.old_key,
        )
        &&& self.split_from(first, 0) == self.split_from(cur, built)
        &&& self.chain_len(0) == built + self.chain_len(built)
        &&& built == 0 ==> cur == first
        &&& built >= 1 ==> self.pending(cur, built - 1) && cur.radixes[self.at].offsets@[self.child]
            == RadixOffset::spec_dirty(self.base as nat).to_offset()
        &&& forall|j: int| 0 <= j < built - 1 ==> #[trigger] self.inner(cur, j)
    }

    /// Whether `radix` is the entry that the chain gets after `built`
    /// entries: for each key its leaf under its next digit or, where it has
    /// none, its link; and the old leaf alone where the keys share the digit.
    pub open spec fn next_entry(self, radix: crate::entry::MemRadix, cur: IndexView, built: int) -> bool {
        let depth = self.start + built;
        let old_here = depth < nibble_count(self.old_key);
        let new_here = depth < nibble_count(self.new_key);
        &&& radix.link_offset == if !new_here {
            self.new_link
        } else if !old_here {
            self.old_link
        } else {
            LinkOffset::null()
        }
        &&& forall|c: int|
            0 <= c < 16 ==> #[trigger] radix.offsets@[c] == if new_here && !self.shared(depth) && c
                == nibble(self.new_key, depth) {
                LeafOffset::spec_dirty(cur.leafs.len()).to_offset()
            } else if old_here && c == nibble(self.old_key, depth) {
                self.old_leaf.to_offset()
            } else {
                Offset::null()
            }
    }

    /// The state with the leaf of the new key staged, where the keys part
    /// after `built` entries and the new key has a digit left.
    pub open spec fn with_leaf(self, cur: IndexView, built: int) -> IndexView {
        let depth = self.start + built;
        if depth < nibble_count(self.new_key) && !self.shared(depth) {
            cur.push_key(self.new_key).push_leaf(
                MemLeaf {
                    key_offset: KeyOffset::spec_dirty(cur.keys.len()),
                    link_offset: self.new_link,
                },
            )
        } else {
            cur
        }
    }

    /// The state after one more entry of the chain: the entry is staged and
    /// hangs under the one before it.
    pub open spec fn stepped(self, cur: IndexView, radix: crate::entry::MemRadix, built: int) -> IndexView {
        self.with_leaf(cur, built).push_radix(radix).set_child(
            self.last(built),
            nibble(self.new_key, self.start + built - 1) as int,
            RadixOffset::spec_dirty((self.base + built) as nat).to_offset(),
        )
    }

    /// What the entry that the chain gets after `built` entries holds: for
    /// each key its leaf under its next digit or, where it has none, its
    /// link; and the old leaf alone where the keys share the digit.
    pub open spec fn entry_view(self, cur: IndexView, built: int) -> crate::entry::RadixView {
        let depth = self.start + built;
        let old_here = depth < nibble_count(self.old_key);
        let new_here = depth < nibble_count(self.new_key);
        crate::entry::RadixView {
            children: Seq::new(
                16,
                |c: int|
                    if new_here && !self.shared(depth) && c == nibble(self.new_key, depth) {
                        LeafOffset::spec_dirty(cur.leafs.len()).to_offset()
                    } else if old_here && c == nibble(self.old_key, depth) {
                        self.old_leaf.to_offset()
                    } else {
                        Offset::null()
                    },
            ),
            link: if !new_here {
                self.new_link
            } else if !old_here {
                self.old_link
            } else {
                LinkOffset::null()
            },
        }
    }

    /// The state after the split, seen from the state with the first
    /// `built` entries of the chain: one more entry is staged for each digit
    /// that the keys share, and one where they part.
    pub open spec fn split_from(self, cur: IndexView, built: int) -> IndexView
        decreases nibble_count(self.new_key) - (self.start + built),
    {
        let radix = crate::entry::MemRadix::of(self.entry_view(cur, built));
        let after = self.stepped(cur, radix, built);
        if self.shared(self.start + built) {
            self.split_from(after, built + 1)
        } else {
            after
        }
    }

    /// The number of entries that the chain gets from the one after `built`
    /// entries on: one for each digit that the keys share from there, and
    /// one more.
    pub open spec fn chain_len(self, built: int) -> int
        decreases nibble_count(self.new_key) - (self.start + built),
    {
        if self.shared(self.start + built) {
            1 + self.chain_len(built + 1)
        } else {
            1
        }
    }

    /// Whether `fin` is `first` after the split: the chain hangs where the
    /// old leaf hung, a search for the new key finds the new link, and a
    /// sound tree is sound and holds for every other key what it held.
    pub open spec fn done(self, first: IndexView, fin: IndexView, paths: Seq<Seq<u8>>) -> bool {
        &&& fin.wf()
        &&& fin == self.split_from(first, 0)
        &&& fin.radixes.len() == first.radixes.len() + self.chain_len(0)
        &&& self.built(fin, self.chain_len(0))
        &&& first.grafted(fin, self.at, self.child)
        &&& fin.radixes.len() <= first.radixes.len() + nibble_count(self.new_key) - self.start + 1
        &&& fin.leafs.len() <= first.leafs.len() + 1
        &&& fin.keys.len() <= first.keys.len() + 1
        &&& fin.lookup_from(
            RadixOffset::spec_dirty(self.at as nat).to_offset(),
            self.new_key,
            (self.start - 1) as nat,
        ) == Some(self.new_link)
        &&& self.sound_before(first, paths) ==> fin.sound() && first.agrees_but(fin, self.new_key)
    }

    /// Whether the tree was sound before the split, and the old leaf hung
    /// where the chain is to hang.
    pub open spec fn sound_before(self, first: IndexView, paths: Seq<Seq<u8>>) -> bool {
        &&& first.sound_with(paths)
        &&& first.fits_file()
        &&& self.new_link.to_offset().fits(first.buf, crate::offset::TYPE_LINK)
        &&& self.new_key.len() <= u64::MAX
        &&& paths[self.at] == key_prefix(self.new_key, (self.start - 1) as nat)
        &&& first.radixes[self.at].offsets@[self.child] == self.old_leaf.to_offset()
    }

    /// A search for the new key that comes to entry `j` of the chain finds
    /// the new link.
    pub proof fn lemma_split_finds(self, view: IndexView, count: int, j: int)
        requires
            self.built(view, count),
            0 <= j < count,
            self.start + j <= nibble_count(self.new_key),
        ensures
            view.lookup_from(
                RadixOffset::spec_dirty((self.base + j) as nat).to_offset(),
                self.new_key,
                (self.start + j) as nat,
            ) == Some(self.new_link),
        decreases count - j,
    {
        let depth = (self.start + j) as nat;
        let here = RadixOffset::spec_dirty((self.base + j) as nat);
        let node = view.radixes[self.base + j];
        RadixOffset::lemma_spec_dirty((self.base + j) as nat);
        assert(here.to_offset().spec_to_typed(view.buf) == Some(TypedOffset::Radix(here)));
        assert(view.radix_link(here) == Some(node.link_offset));
        if depth < nibble_count(self.new_key) {
            lemma_nibble_range(self.new_key, depth as int);
            let c = nibble(self.new_key, depth as int) as int;
            assert(view.radix_child(here, c) == Some(node.offsets@[c]));
            if j < count - 1 {
                assert(self.inner(view, j));
                self.lemma_split_finds(view, count, j + 1);
            } else {
                assert(self.terminal(view, j));
                let new_leaf = LeafOffset::spec_dirty((view.leafs.len() - 1) as nat);
                LeafOffset::lemma_spec_dirty((view.leafs.len() - 1) as nat);
                KeyOffset::lemma_spec_dirty((view.keys.len() - 1) as nat);
                assert(node.offsets@[c] == new_leaf.to_offset());
                assert(new_leaf.to_offset().spec_to_typed(view.buf) == Some(
                    TypedOffset::Leaf(new_leaf),
                ));
                assert(view.leaf_lookup(new_leaf, self.new_key) == Some(self.new_link));
                assert(view.lookup_from(new_leaf.to_offset(), self.new_key, depth + 1) == Some(
                    self.new_link,
                ));
            }
        } else {
            if j < count - 1 {
                assert(self.inner(view, j));
            } else {
                assert(self.terminal(view, j));
            }
        }
    }

    /// One more entry of the chain: where the keys share the digit, the
    /// chain has grown by one; where they part, the split is done.
    pub proof fn lemma_split_step(
        self,
        first: IndexView,
        cur: IndexView,
        after: IndexView,
        radix: crate::entry::MemRadix,
        built: int,
        paths: Seq<Seq<u8>>,
    )
        requires
            self.growing(first, cur, built),
            self.next_entry(radix, cur, built),
            after == self.stepped(cur, radix, built),
        ensures
            self.shared(self.start + built) ==> self.growing(first, after, built + 1),
            !self.shared(self.start + built) ==> self.done(first, after, paths),
    {
        let depth = self.start + built;
        let last = self.last(built);
        let n = self.base + built;
        let last_child = nibble(self.new_key, depth - 1) as int;
        let staged = self.with_leaf(cur, built);
        assert(radix@ == self.entry_view(cur, built)) by {
            let view = self.entry_view(cur, built);
            assert(radix.offsets@.len() == 16);
            assert forall|c: int| 0 <= c < 16 implies radix@.children[c] == view.children[c] by {
                assert(radix@.children[c] == radix.offsets@[c]);
            }
            assert(radix@.children =~= view.children);
        }
        radix.lemma_of_self();
        assert(self.split_from(cur, built) == if self.shared(depth) {
            self.split_from(after, built + 1)
        } else {
            after
        });
        lemma_nibble_range(self.new_key, depth - 1);
        RadixOffset::lemma_spec_dirty(last as nat);
        RadixOffset::lemma_spec_dirty(n as nat);
        RadixOffset::lemma_spec_dirty(self.at as nat);
        LeafOffset::lemma_spec_dirty(cur.leafs.len());
        KeyOffset::lemma_spec_dirty(cur.keys.len());
        if self.old_leaf.spec_is_dirty() {
            self.old_leaf.lemma_tagged();
        }
        if depth < nibble_count(self.new_key) {
            lemma_nibble_range(self.new_key, depth);
        }
        if depth < nibble_count(self.old_key) {
            lemma_nibble_range(self.old_key, depth);
        }
        assert(after.radixes[n] == radix);
        assert(after.radixes[last].offsets@[last_child] == RadixOffset::spec_dirty(
            n as nat,
        ).to_offset());
        // The staged entries hang together.
        assert forall|i: int| 0 <= i < after.radixes.len() implies #[trigger] after.radix_ok(i) by {
            if i == n {
                assert forall|c: int| 0 <= c < 16 implies after.child_ok(
                    #[trigger] after.radixes[i].offsets@[c],
                    i as nat,
                ) by {}
            } else {
                assert(cur.radix_ok(i));
                if i == last {
                    assert forall|c: int| 0 <= c < 16 implies after.child_ok(
                        #[trigger] after.radixes[i].offsets@[c],
                        i as nat,
                    ) by {
                        if c != last_child {
                            assert(after.radixes[i].offsets@[c] == cur.radixes[i].offsets@[c]);
                        }
                    }
                } else {
                    assert(after.radixes[i] == cur.radixes[i]);
                }
            }
        }
        assert forall|i: int| 0 <= i < after.leafs.len() implies #[trigger] after.leaf_ok(i) by {
            if i < cur.leafs.len() {
                assert(cur.leaf_ok(i));
            }
        }
        assert(after.wf());
        // Nothing but the chain has changed.
        assert(first.grafted(after, self.at, self.child)) by {
            assert forall|i: int|
                0 <= i < first.radixes.len() && i != self.at implies after.radixes[i]
                == first.radixes[i] by {
                assert(i != last);
                assert(after.radixes[i] == cur.radixes[i]);
            }
            assert forall|c: int| 0 <= c < 16 && c != self.child implies after.radixes[self.at].offsets@[c]
                == first.radixes[self.at].offsets@[c] by {
                if last == self.at {
                    assert(c != last_child);
                }
                assert(after.radixes[self.at].offsets@[c] == cur.radixes[self.at].offsets@[c]);
            }
        }
        // The entries of the chain before the new one.
        assert forall|j: int| 0 <= j < built implies #[trigger] self.inner(after, j) by {
            if j < built - 1 {
                assert(self.inner(cur, j));
                assert(after.radixes[self.base + j] == cur.radixes[self.base + j]);
            } else {
                assert(self.pending(cur, j));
                assert forall|c: int| 0 <= c < 16 implies #[trigger] after.radixes[self.base
                    + j].offsets@[c] == if c == nibble(self.new_key, self.start + j) {
                    RadixOffset::spec_dirty((self.base + j + 1) as nat).to_offset()
                } else {
                    Offset::null()
                } by {
                    if c != last_child {
                        assert(after.radixes[last].offsets@[c] == cur.radixes[last].offsets@[c]);
                    }
                }
            }
        }
        assert(after.radixes[self.at].offsets@[self.child] == RadixOffset::spec_dirty(
            self.base as nat,
        ).to_offset()) by {
            if built >= 1 {
                assert(after.radixes[self.at].offsets@[self.child]
                    == cur.radixes[self.at].offsets@[self.child]);
            }
        }
        assert(after.leaf_entry(self.old_leaf) == first.leaf_entry(self.old_leaf));
        let key_offset = first.leaf_entry(self.old_leaf).unwrap().key_offset;
        assert(after.key_content(key_offset) == first.key_content(key_offset)) by {
            if self.old_leaf.spec_is_dirty() {
                assert(first.leaf_ok(self.old_leaf.spec_dirty_index() as int));
            }
        }
        if self.shared(depth) {
            assert(self.pending(after, built));
            assert(self.growing(first, after, built + 1));
        } else {
            assert(self.terminal(after, built));
            assert(self.built(after, built + 1));
            self.lemma_split_finds(after, built + 1, 0);
            let parent = RadixOffset::spec_dirty(self.at as nat);
            assert(parent.to_offset().spec_to_typed(after.buf) == Some(
                TypedOffset::Radix(parent),
            ));
            assert(after.radix_child(parent, self.child) == Some(
                RadixOffset::spec_dirty(self.base as nat).to_offset(),
            ));
            assert(after.lookup_from(parent.to_offset(), self.new_key, (self.start - 1) as nat)
                == Some(self.new_link));
            if self.sound_before(first, paths) {
                self.lemma_split_sound(first, after, paths, built + 1, self.at, self.child);
                assert(after.sound_with(self.paths_after(paths, built + 1)));
            }
        }
    }

    /// What a search for `other` finds at the old leaf.
    pub open spec fn at_old_leaf(self, other: Seq<u8>) -> Option<LinkOffset> {
        if self.old_key == other {
            Some(self.old_link)
        } else {
            Some(LinkOffset::null())
        }
    }

    /// A search for another key than the new one that comes to entry `j` of
    /// the chain finds what it found at the old leaf.
    pub proof fn lemma_split_walk(self, view: IndexView, count: int, other: Seq<u8>, j: int)
        requires
            self.built(view, count),
            0 <= j < count,
            other != self.new_key,
            self.start + j <= nibble_count(self.new_key),
            under(key_prefix(self.new_key, (self.start + j) as nat), other),
            under(key_prefix(self.new_key, (self.start + j) as nat), self.old_key),
        ensures
            view.lookup_from(
                RadixOffset::spec_dirty((self.base + j) as nat).to_offset(),
                other,
                (self.start + j) as nat,
            ) == self.at_old_leaf(other),
        decreases count - j,
    {
        let depth = (self.start + j) as nat;
        let here = RadixOffset::spec_dirty((self.base + j) as nat);
        let node = view.radixes[self.base + j];
        let shared_path = key_prefix(self.new_key, depth);
        RadixOffset::lemma_spec_dirty((self.base + j) as nat);
        assert(here.to_offset().spec_to_typed(view.buf) == Some(TypedOffset::Radix(here)));
        assert(key_prefix(other, depth) == shared_path);
        assert(key_prefix(self.old_key, depth) == shared_path);
        if depth < nibble_count(other) {
            lemma_nibble_range(other, depth as int);
        }
        let c = nibble(other, depth as int) as int;
        let longer = key_prefix(self.new_key, depth + 1);
        let found = view.lookup_from(here.to_offset(), other, depth);
        assert(view.radix_link(here) == Some(node.link_offset));
        assert(view.radix_child(here, c) == Some(node.offsets@[c]));
        if j < count - 1 {
            assert(self.inner(view, j));
            if depth >= nibble_count(other) {
                // The other key ends here, the old key goes on.
                assert(found == Some(LinkOffset::null()));
                assert(nibble_count(self.old_key) != nibble_count(other));
            } else if c == nibble(self.new_key, depth as int) {
                assert(key_prefix(other, depth + 1) =~= shared_path.push(c as u8));
                assert(key_prefix(self.old_key, depth + 1) =~= shared_path.push(c as u8));
                assert(longer =~= shared_path.push(c as u8));
                self.lemma_split_walk(view, count, other, j + 1);
                assert(found == self.at_old_leaf(other));
            } else {
                assert(node.offsets@[c] == Offset::null());
                assert(nibble(self.old_key, depth as int) != nibble(other, depth as int));
                assert(view.lookup_from(Offset::null(), other, depth + 1) == Some(
                    LinkOffset::null(),
                ));
                assert(found == Some(LinkOffset::null()));
            }
        } else {
            assert(self.terminal(view, j));
            let old_here = depth < nibble_count(self.old_key);
            let new_here = depth < nibble_count(self.new_key);
            if depth >= nibble_count(other) {
                assert(found == Some(node.link_offset));
                if !new_here {
                    assert(key_prefix(other, nibble_count(other)) == key_prefix(
                        self.new_key,
                        nibble_count(self.new_key),
                    ));
                    lemma_prefix_whole(other, self.new_key);
                } else if !old_here {
                    assert(key_prefix(other, nibble_count(other)) == key_prefix(
                        self.old_key,
                        nibble_count(self.old_key),
                    ));
                    lemma_prefix_whole(other, self.old_key);
                } else {
                    assert(nibble_count(self.old_key) != nibble_count(other));
                }
            } else if new_here && c == nibble(self.new_key, depth as int) {
                let new_leaf = LeafOffset::spec_dirty((view.leafs.len() - 1) as nat);
                LeafOffset::lemma_spec_dirty((view.leafs.len() - 1) as nat);
                KeyOffset::lemma_spec_dirty((view.keys.len() - 1) as nat);
                assert(node.offsets@[c] == new_leaf.to_offset());
                assert(new_leaf.to_offset().spec_to_typed(view.buf) == Some(
                    TypedOffset::Leaf(new_leaf),
                ));
                assert(view.leaf_lookup(new_leaf, other) == Some(LinkOffset::null()));
                assert(view.lookup_from(new_leaf.to_offset(), other, depth + 1) == Some(
                    LinkOffset::null(),
                ));
                assert(found == Some(LinkOffset::null()));
                if old_here {
                    assert(nibble(self.old_key, depth as int) != nibble(other, depth as int));
                } else {
                    assert(nibble_count(self.old_key) != nibble_count(other));
                }
            } else if old_here && c == nibble(self.old_key, depth as int) {
                assert(node.offsets@[c] == self.old_leaf.to_offset());
                assert(view.leaf_lookup(self.old_leaf, other) == self.at_old_leaf(other));
                assert(view.lookup_from(self.old_leaf.to_offset(), other, depth + 1)
                    == self.at_old_leaf(other));
                assert(found == self.at_old_leaf(other));
            } else {
                assert(node.offsets@[c] == Offset::null());
                assert(view.lookup_from(Offset::null(), other, depth + 1) == Some(
                    LinkOffset::null(),
                ));
                assert(found == Some(LinkOffset::null()));
                if old_here {
                    assert(nibble(self.old_key, depth as int) != nibble(other, depth as int));
                } else {
                    assert(nibble_count(self.old_key) != nibble_count(other));
                }
            }
        }
    }

    /// The paths of the staged radix entries after the split: each entry of
    /// the chain has the digits of the new key that lead to it.
    pub open spec fn paths_after(self, paths: Seq<Seq<u8>>, count: int) -> Seq<Seq<u8>> {
        paths + Seq::new(count as nat, |j: int| key_prefix(self.new_key, (self.start + j) as nat))
    }

    /// Whether `fin` is the sound state `before` after this split with a
    /// chain of `count` entries, which hangs under the digit `child` of the
    /// staged radix entry at `at`, where the old leaf hung.
    pub open spec fn over(
        self,
        before: IndexView,
        fin: IndexView,
        paths: Seq<Seq<u8>>,
        count: int,
        at: int,
        child: int,
    ) -> bool {
        &&& before.sound_with(paths)
        &&& fin.wf()
        &&& self.built(fin, count)
        &&& self.base == before.radixes.len()
        &&& fin.radixes.len() == self.base + count
        &&& self.start >= 1
        &&& 0 <= at < before.radixes.len()
        &&& 0 <= child < 16
        &&& paths[at] == key_prefix(self.new_key, (self.start - 1) as nat)
        &&& self.start <= nibble_count(self.new_key)
        &&& child == nibble(self.new_key, self.start - 1)
        &&& before.grafted(fin, at, child)
        &&& before.radixes[at].offsets@[child] == self.old_leaf.to_offset()
        &&& fin.radixes[at].offsets@[child] == RadixOffset::spec_dirty(
            self.base as nat,
        ).to_offset()
        &&& before.leaf_entry(self.old_leaf) == fin.leaf_entry(self.old_leaf)
        &&& fin.key_content(fin.leaf_entry(self.old_leaf).unwrap().key_offset)
            == before.key_content(before.leaf_entry(self.old_leaf).unwrap().key_offset)
    }

    /// Before the split the old key stood where its digits lead, and the
    /// split keeps what was staged.
    pub proof fn lemma_split_kept(
        self,
        before: IndexView,
        fin: IndexView,
        paths: Seq<Seq<u8>>,
        count: int,
        at: int,
        child: int,
    )
        requires
            self.over(before, fin, paths, count, at, child),
        ensures
            under(key_prefix(self.new_key, self.start), self.old_key),
            before.kept(fin, at),
            paths[at].push(child as u8) == key_prefix(self.new_key, self.start),
    {
        let first = key_prefix(self.new_key, self.start);
        assert(paths[at].push(child as u8) =~= first);
        assert(before.child_sound(
            paths,
            before.radixes[at].offsets@[child],
            paths[at].push(child as u8),
        ));
        if self.old_leaf.spec_is_dirty() {
            self.old_leaf.lemma_tagged();
        }
    }

    /// A leaf split keeps a sound tree sound.
    pub proof fn lemma_split_tree(
        self,
        before: IndexView,
        fin: IndexView,
        paths: Seq<Seq<u8>>,
        count: int,
        at: int,
        child: int,
    )
        requires
            self.over(before, fin, paths, count, at, child),
        ensures
            fin.sound_with(self.paths_after(paths, count)),
    {
        let next_paths = self.paths_after(paths, count);
        let first = key_prefix(self.new_key, self.start);
        self.lemma_split_kept(before, fin, paths, count, at, child);
        RadixOffset::lemma_spec_dirty(self.base as nat);
        assert forall|c: int| 0 <= c < 16 implies (#[trigger] fin.radixes[at].offsets@[c])
            == before.radixes[at].offsets@[c] || fin.child_sound(
            next_paths,
            fin.radixes[at].offsets@[c],
            paths[at].push(c as u8),
        ) by {
            if c == child {
                assert(next_paths[self.base] == first);
            }
        }
        assert forall|r: int, c: int|
            before.radixes.len() <= r < fin.radixes.len() && 0 <= c < 16 implies fin.child_sound(
            next_paths,
            #[trigger] fin.radixes[r].offsets@[c],
            next_paths[r].push(c as u8),
        ) by {
            self.lemma_split_entry_sound(fin, paths, next_paths, count, r - self.base, c);
            assert(next_paths[r] == key_prefix(self.new_key, (self.start + r - self.base) as nat));
        }
        before.lemma_sound_kept(fin, paths, next_paths, at);
    }

    /// Child `c` of entry `j` of the chain is a sound child under the digits
    /// of the new key that lead to the entry, and its own digit.
    pub proof fn lemma_split_entry_sound(
        self,
        fin: IndexView,
        paths: Seq<Seq<u8>>,
        next_paths: Seq<Seq<u8>>,
        count: int,
        j: int,
        c: int,
    )
        requires
            self.built(fin, count),
            0 <= j < count,
            0 <= c < 16,
            self.start <= nibble_count(self.new_key),
            under(key_prefix(self.new_key, self.start), self.old_key),
            fin.radixes.len() == self.base + count,
            paths.len() == self.base,
            next_paths == self.paths_after(paths, count),
        ensures
            fin.child_sound(
                next_paths,
                fin.radixes[self.base + j].offsets@[c],
                key_prefix(self.new_key, (self.start + j) as nat).push(c as u8),
            ),
    {
        let depth = (self.start + j) as nat;
        let path = key_prefix(self.new_key, depth);
        self.lemma_shared_prefix(fin, count, j);
        if j < count - 1 {
            assert(self.inner(fin, j));
            if c == nibble(self.new_key, depth as int) {
                RadixOffset::lemma_spec_dirty((self.base + j + 1) as nat);
                assert(next_paths[self.base + (j + 1)] == key_prefix(self.new_key, depth + 1));
                assert(path.push(c as u8) =~= key_prefix(self.new_key, depth + 1));
            }
        } else {
            assert(self.terminal(fin, j));
            let old_here = depth < nibble_count(self.old_key);
            let new_here = depth < nibble_count(self.new_key);
            if new_here && c == nibble(self.new_key, depth as int) {
                LeafOffset::lemma_spec_dirty((fin.leafs.len() - 1) as nat);
                KeyOffset::lemma_spec_dirty((fin.keys.len() - 1) as nat);
                assert(path.push(c as u8) =~= key_prefix(self.new_key, depth + 1));
            } else if old_here && c == nibble(self.old_key, depth as int) {
                assert(path.push(c as u8) =~= key_prefix(self.old_key, depth + 1));
                assert(under(path.push(c as u8), self.old_key));
                self.lemma_old_leaf_sound(fin, next_paths, path.push(c as u8));
            }
        }
    }

    /// A leaf split changes what no search for another key than the new one
    /// finds.
    pub proof fn lemma_split_frame(
        self,
        before: IndexView,
        fin: IndexView,
        paths: Seq<Seq<u8>>,
        count: int,
        at: int,
        child: int,
    )
        requires
            self.over(before, fin, paths, count, at, child),
        ensures
            before.agrees_but(fin, self.new_key),
    {
        self.lemma_split_kept(before, fin, paths, count, at, child);
        assert forall|other: Seq<u8>| other != self.new_key implies #[trigger] before.lookup(other)
            == fin.lookup(other) by {
            if under(paths[at], other) && paths[at].len() < nibble_count(other) && child == nibble(
                other,
                paths[at].len() as int,
            ) {
                assert(key_prefix(other, self.start) =~= paths[at].push(child as u8));
                self.lemma_split_walk(fin, count, other, 0);
                assert(before.leaf_lookup(self.old_leaf, other) == self.at_old_leaf(other));
            }
            assert forall|c: int| 0 <= c < 16 && c != child implies (
            #[trigger] fin.radixes[at].offsets@[c]) == before.radixes[at].offsets@[c] by {}
            assert(before.same_for(fin, paths, at, other));
            assert(before.kept_for(fin, at, other));
            assert(key_prefix(other, 0) =~= Seq::<u8>::empty());
            before.lemma_graft_walk(fin, paths, at, other, 0, before.root.to_offset());
        }
    }

    /// A leaf split keeps a sound tree sound and changes what no search for
    /// another key than the new one finds.
    pub proof fn lemma_split_sound(
        self,
        before: IndexView,
        fin: IndexView,
        paths: Seq<Seq<u8>>,
        count: int,
        at: int,
        child: int,
    )
        requires
            self.over(before, fin, paths, count, at, child),
            self.start + count - 1 >= nibble_count(self.new_key) ==> fin.leafs.len()
                == before.leafs.len() && fin.keys.len() == before.keys.len(),
            fin.leafs.len() <= before.leafs.len() + 1,
            fin.keys.len() <= before.keys.len() + 1,
            self.new_key.len() <= u64::MAX,
            self.new_link.to_offset().fits(before.buf, crate::offset::TYPE_LINK),
        ensures
            fin.sound_with(self.paths_after(paths, count)),
            before.agrees_but(fin, self.new_key),
            before.fits_file() ==> fin.fits_file(),
    {
        if before.fits_file() {
            self.lemma_split_fits(before, fin, count, at, child);
        }
        self.lemma_split_tree(before, fin, paths, count, at, child);
        self.lemma_split_frame(before, fin, paths, count, at, child);
    }

    /// After a leaf split what is staged fits the file as before.
    pub proof fn lemma_split_fits(
        self,
        before: IndexView,
        fin: IndexView,
        count: int,
        at: int,
        child: int,
    )
        requires
            before.fits_file(),
            before.wf(),
            self.built(fin, count),
            self.base == before.radixes.len(),
            fin.radixes.len() == self.base + count,
            0 <= at < before.radixes.len(),
            before.grafted(fin, at, child),
            before.leaf_entry(self.old_leaf) == fin.leaf_entry(self.old_leaf),
            self.start + count - 1 >= nibble_count(self.new_key) ==> fin.leafs.len()
                == before.leafs.len() && fin.keys.len() == before.keys.len(),
            fin.leafs.len() <= before.leafs.len() + 1,
            fin.keys.len() <= before.keys.len() + 1,
            self.new_key.len() <= u64::MAX,
            self.new_link.to_offset().fits(before.buf, crate::offset::TYPE_LINK),
        ensures
            fin.fits_file(),
    {
        let link_type = crate::offset::TYPE_LINK;
        let key_type = crate::offset::TYPE_KEY;
        if self.old_leaf.spec_is_dirty() {
            self.old_leaf.lemma_tagged();
            assert(before.leafs[self.old_leaf.spec_dirty_index() as int].link_offset.to_offset().fits(
                before.buf,
                link_type,
            ));
        }
        assert(self.old_link.to_offset().fits(fin.buf, link_type));
        assert forall|r: int| 0 <= r < fin.radixes.len() implies (
        #[trigger] fin.radixes[r]).link_offset.to_offset().fits(fin.buf, link_type) by {
            if r < self.base {
                assert(before.radixes[r].link_offset.to_offset().fits(before.buf, link_type));
                if r != at {
                    assert(fin.radixes[r] == before.radixes[r]);
                }
            } else {
                let j = r - self.base;
                if j < count - 1 {
                    assert(self.inner(fin, j));
                } else {
                    assert(self.terminal(fin, j));
                }
            }
        }
        assert forall|l: int| 0 <= l < fin.leafs.len() implies (
        #[trigger] fin.leafs[l]).key_offset.to_offset().fits(fin.buf, key_type)
            && fin.leafs[l].link_offset.to_offset().fits(fin.buf, link_type) by {
            if l < before.leafs.len() {
                assert(before.leafs[l].key_offset.to_offset().fits(before.buf, key_type));
                assert(fin.leafs[l] == before.leafs[l]);
            } else {
                assert(self.terminal(fin, count - 1));
                KeyOffset::lemma_spec_dirty((fin.keys.len() - 1) as nat);
                assert(fin.leafs[l] == fin.leafs.last());
            }
        }
        assert forall|m: int| 0 <= m < fin.links.len() implies (
        #[trigger] fin.links[m]).next_link_offset.to_offset().fits(fin.buf, link_type) by {
            assert(before.links[m].next_link_offset.to_offset().fits(before.buf, link_type));
        }
        assert forall|i: int| 0 <= i < fin.keys.len() implies (#[trigger] fin.keys[i]).len()
            <= u64::MAX by {
            if i < before.keys.len() {
                assert(before.keys[i].len() <= u64::MAX);
                assert(fin.keys[i] == before.keys[i]);
            } else {
                assert(self.terminal(fin, count - 1));
                assert(fin.keys[i] == fin.keys.last());
            }
        }
    }

    /// The old key shares with the new key the digits that lead to each
    /// entry of the chain.
    pub proof fn lemma_shared_prefix(self, view: IndexView, count: int, j: int)
        requires
            self.built(view, count),
            0 <= j < count,
            under(key_prefix(self.new_key, self.start), self.old_key),
            self.start <= nibble_count(self.new_key),
        ensures
            under(key_prefix(self.new_key, (self.start + j) as nat), self.old_key),
            self.start + j <= nibble_count(self.new_key),
        decreases j,
    {
        if j > 0 {
            self.lemma_shared_prefix(view, count, j - 1);
            assert(self.inner(view, j - 1));
            let depth = (self.start + j - 1) as nat;
            let c = nibble(self.new_key, depth as int);
            assert(key_prefix(self.new_key, depth + 1) =~= key_prefix(self.new_key, depth).push(c));
            assert(key_prefix(self.old_key, depth + 1) =~= key_prefix(self.old_key, depth).push(c));
        }
    }

    /// The old leaf is a sound child under every path that its key starts
    /// with.
    pub proof fn lemma_old_leaf_sound(self, view: IndexView, paths: Seq<Seq<u8>>, path: Seq<u8>)
        requires
            self.old_leaf.to_offset().spec_to_typed(view.buf) == Some(
                TypedOffset::Leaf(self.old_leaf),
            ),
            view.leaf_entry(self.old_leaf) is Some,
            view.key_content(view.leaf_entry(self.old_leaf).unwrap().key_offset) == Some(
                self.old_key,
            ),
            under(path, self.old_key),
        ensures
            view.child_sound(paths, self.old_leaf.to_offset(), path),
    {
        if self.old_leaf.spec_is_dirty() {
            self.old_leaf.lemma_tagged();
        } else {
            let pos = self.old_leaf.raw() as int;
            let leaf = MemLeaf::spec_read_from(view.buf, pos).unwrap();
            assert(!leaf.key_offset.spec_is_dirty());
        }
    }
}

} // verus!
