//! What an index holds, as plain values, and what a lookup in it finds.

use vstd::prelude::*;
use vstd::array::spec_array_update;
use crate::base16::nibble;
use crate::base16::nibble_count;
use crate::entry::MemKey;
use crate::entry::MemLeaf;
use crate::entry::MemLink;
use crate::entry::MemRadix;
use crate::entry::MemRoot;
use crate::entry::RadixView;
use crate::entry::disk_offset_at;
use crate::entry::spec_check_type;
use crate::offset::KeyOffset;
use crate::offset::LeafOffset;
use crate::offset::LinkOffset;
use crate::offset::MAX_DIRTY_INDEX;
use crate::offset::Offset;
use crate::offset::RadixOffset;
use crate::offset::TYPE_LEAF;
use crate::offset::lemma_dirty_raw;
use crate::offset::TYPE_LINK;
use crate::offset::TYPE_RADIX;
use crate::offset::TypedOffset;
use crate::vlq::vlq_decode;

verus! {

/// The state of an index: the bytes of the file as the index sees them, and
/// the entries that wait in memory for the next flush.
pub struct IndexView {
    /// The bytes of the file.
    pub buf: Seq<u8>,
    /// Whether the file cannot be written.
    pub read_only: bool,
    /// The radix entry that the tree starts at.
    pub root: RadixOffset,
    /// The staged radix entries.
    pub radixes: Seq<MemRadix>,
    /// The staged leaf entries.
    pub leafs: Seq<MemLeaf>,
    /// The staged link entries.
    pub links: Seq<MemLink>,
    /// The keys of the staged key entries.
    pub keys: Seq<Seq<u8>>,
}

/// The bytes that an index sees of a file: those of the file, and a single
/// zero byte, which is the header, where the file has none.
pub open spec fn mapped(file: Seq<u8>) -> Seq<u8> {
    if file.len() == 0 {
        seq![0u8]
    } else {
        file
    }
}

/// The root entry that an index opened on `file` starts from: the one at
/// `root_offset`, or the one at the end of the file where `root_offset` is 0.
pub open spec fn root_of(file: Seq<u8>, root_offset: u64) -> Option<MemRoot> {
    if root_offset == 0 {
        MemRoot::spec_read_from_end(mapped(file), file.len() as int)
    } else {
        MemRoot::spec_read_from(mapped(file), root_offset as int)
    }
}

/// Whether an index can be opened on `file`.
pub open spec fn openable(file: Seq<u8>, root_offset: u64) -> bool {
    (root_offset == 0 && file.len() == 0) || root_of(file, root_offset) is Some
}

/// Whether `view` is the state of an index just opened on `file`. On a file
/// without bytes the tree is a single staged radix entry without children;
/// else it starts where the root entry says, and nothing is staged.
pub open spec fn opened(file: Seq<u8>, root_offset: u64, read_only: bool, view: IndexView) -> bool {
    &&& view.buf == mapped(file)
    &&& view.read_only == read_only
    &&& view.leafs.len() == 0
    &&& view.links.len() == 0
    &&& view.keys.len() == 0
    &&& if root_offset == 0 && file.len() == 0 {
        &&& view.root == RadixOffset::spec_dirty(0)
        &&& view.radixes.len() == 1
        &&& view.radixes[0]@ == RadixView::empty()
    } else {
        &&& view.radixes.len() == 0
        &&& root_of(file, root_offset) == Some(MemRoot { radix_offset: view.root })
    }
}

/// The link offset of the radix entry at position `pos` of `buf`.
pub open spec fn disk_radix_link(buf: Seq<u8>, pos: int) -> Option<LinkOffset> {
    if !spec_check_type(buf, pos, TYPE_RADIX) {
        None
    } else {
        match vlq_decode(buf, pos + 17) {
            None => None,
            Some((l, _)) => LinkOffset::spec_from_disk(l, buf),
        }
    }
}

/// The offset that byte `i` of the jump table of the entry at `pos` leads to:
/// null where the byte is 0.
pub open spec fn jump_child(buf: Seq<u8>, pos: int, i: int) -> Option<Offset> {
    if buf[pos + 1 + i] == 0 {
        Some(Offset::null())
    } else {
        match disk_offset_at(buf, pos + buf[pos + 1 + i]) {
            None => None,
            Some((child, _)) => Some(child),
        }
    }
}

/// Child `i` of the radix entry at position `pos` of `buf`, found through the
/// jump table: null where the table holds 0.
pub open spec fn disk_radix_child(buf: Seq<u8>, pos: int, i: int) -> Option<Offset> {
    if !spec_check_type(buf, pos, TYPE_RADIX) || pos + 1 + i >= buf.len() {
        None
    } else {
        jump_child(buf, pos, i)
    }
}

/// Where the children of a radix entry can be read one after the other, each
/// is what its byte of the jump table leads to, and none is dirty.
pub proof fn lemma_read_children(buf: Seq<u8>, offset: int, i: nat, pos: int, acc: Seq<Offset>)
    requires
        acc.len() == i,
        i <= 16,
        MemRadix::spec_read_children(buf, offset, i, pos, acc) is Some,
    ensures
        ({
            let cs = MemRadix::spec_read_children(buf, offset, i, pos, acc).unwrap();
            &&& cs.len() == 16
            &&& forall|k: int| 0 <= k < i ==> cs[k] == acc[k]
            &&& forall|k: int|
                i <= k < 16 ==> !(#[trigger] cs[k]).spec_is_dirty() && jump_child(buf, offset, k)
                    == Some(cs[k])
        }),
    decreases 16 - i,
{
    if i < 16 {
        let jump = buf[offset + 1 + i];
        if jump == 0 {
            lemma_read_children(buf, offset, i + 1, pos, acc.push(Offset::null()));
        } else {
            let (child, n) = disk_offset_at(buf, offset + pos).unwrap();
            lemma_read_children(buf, offset, i + 1, pos + n, acc.push(child));
        }
        let cs = MemRadix::spec_read_children(buf, offset, i, pos, acc).unwrap();
        assert forall|k: int| 0 <= k < i implies cs[k] == acc[k] by {
            if jump == 0 {
                assert(acc.push(Offset::null())[k] == acc[k]);
            } else {
                let (child, n) = disk_offset_at(buf, offset + pos).unwrap();
                assert(acc.push(child)[k] == acc[k]);
            }
        }
        assert forall|k: int| i <= k < 16 implies !(#[trigger] cs[k]).spec_is_dirty()
            && jump_child(buf, offset, k) == Some(cs[k]) by {
            if k == i {
                if jump == 0 {
                    assert(acc.push(Offset::null())[i as int] == Offset::null());
                } else {
                    let (child, n) = disk_offset_at(buf, offset + pos).unwrap();
                    assert(acc.push(child)[i as int] == child);
                }
            }
        }
    }
}

/// A radix entry that can be read whole has sixteen children and a link, none
/// of them dirty, and they are what reading a single child or the link finds.
pub proof fn lemma_radix_read(buf: Seq<u8>, pos: int)
    requires
        MemRadix::spec_read_from(buf, pos) is Some,
    ensures
        ({
            let entry = MemRadix::spec_read_from(buf, pos).unwrap();
            &&& entry.children.len() == 16
            &&& !entry.link.spec_is_dirty()
            &&& entry.link.to_offset().fits(buf, TYPE_LINK)
            &&& disk_radix_link(buf, pos) == Some(entry.link)
            &&& forall|i: int|
                0 <= i < 16 ==> !(#[trigger] entry.children[i]).spec_is_dirty()
                    && disk_radix_child(buf, pos, i) == Some(entry.children[i])
        }),
{
    let (l, n) = vlq_decode(buf, pos + 17).unwrap();
    lemma_read_children(buf, pos, 0, 17 + n, Seq::empty());
}

/// The value of the link entry at position `pos` of `buf`.
pub open spec fn disk_link_value(buf: Seq<u8>, pos: int) -> Option<u64> {
    if !spec_check_type(buf, pos, TYPE_LINK) {
        None
    } else {
        match vlq_decode(buf, pos + 1) {
            None => None,
            Some((value, _)) => Some(value),
        }
    }
}

impl IndexView {
    /// The state with one more staged radix entry.
    pub open spec fn push_radix(self, entry: MemRadix) -> IndexView {
        IndexView { radixes: self.radixes.push(entry), ..self }
    }

    /// The state with one more staged leaf entry.
    pub open spec fn push_leaf(self, entry: MemLeaf) -> IndexView {
        IndexView { leafs: self.leafs.push(entry), ..self }
    }

    /// The state with one more staged link entry.
    pub open spec fn push_link(self, entry: MemLink) -> IndexView {
        IndexView { links: self.links.push(entry), ..self }
    }

    /// The state with one more staged key entry.
    pub open spec fn push_key(self, key: Seq<u8>) -> IndexView {
        IndexView { keys: self.keys.push(key), ..self }
    }

    /// The state with child `i` of the staged radix entry at `at` set to
    /// `child`.
    pub open spec fn set_child(self, at: int, i: int, child: Offset) -> IndexView {
        IndexView {
            radixes: self.radixes.update(
                at,
                MemRadix {
                    offsets: spec_array_update(self.radixes[at].offsets, i, child),
                    link_offset: self.radixes[at].link_offset,
                },
            ),
            ..self
        }
    }

    /// The state with the link of the staged radix entry at `at` set to
    /// `link`.
    pub open spec fn set_radix_link(self, at: int, link: LinkOffset) -> IndexView {
        IndexView {
            radixes: self.radixes.update(
                at,
                MemRadix { offsets: self.radixes[at].offsets, link_offset: link },
            ),
            ..self
        }
    }

    /// The state with the link of the staged leaf entry at `at` set to
    /// `link`.
    pub open spec fn set_leaf_link(self, at: int, link: LinkOffset) -> IndexView {
        IndexView {
            leafs: self.leafs.update(
                at,
                MemLeaf { key_offset: self.leafs[at].key_offset, link_offset: link },
            ),
            ..self
        }
    }

    /// The state with the tree starting at `root`.
    pub open spec fn set_root(self, root: RadixOffset) -> IndexView {
        IndexView { root, ..self }
    }

    /// Whether staging can take the entries that inserting a key of
    /// `key_len` bytes may add.
    pub open spec fn has_room(self, key_len: nat) -> bool {
        &&& self.radixes.len() + 2 * key_len + 2 <= MAX_DIRTY_INDEX
        &&& self.leafs.len() + 1 <= MAX_DIRTY_INDEX
        &&& self.links.len() + 1 <= MAX_DIRTY_INDEX
        &&& self.keys.len() + 1 <= MAX_DIRTY_INDEX
    }

    /// The radix entry that `radix` names, whole.
    pub open spec fn radix_entry(self, radix: RadixOffset) -> Option<RadixView> {
        if radix.spec_is_null() {
            None
        } else if radix.spec_is_dirty() {
            if radix.spec_dirty_index() < self.radixes.len() {
                Some(self.radixes[radix.spec_dirty_index() as int]@)
            } else {
                None
            }
        } else {
            MemRadix::spec_read_from(self.buf, radix.raw() as int)
        }
    }

    /// The link offset of the radix entry that `radix` names.
    pub open spec fn radix_link(self, radix: RadixOffset) -> Option<LinkOffset> {
        if radix.spec_is_null() {
            None
        } else if radix.spec_is_dirty() {
            if radix.spec_dirty_index() < self.radixes.len() {
                Some(self.radixes[radix.spec_dirty_index() as int].link_offset)
            } else {
                None
            }
        } else {
            disk_radix_link(self.buf, radix.raw() as int)
        }
    }

    /// Child `i` of the radix entry that `radix` names.
    pub open spec fn radix_child(self, radix: RadixOffset, i: int) -> Option<Offset> {
        if radix.spec_is_null() {
            None
        } else if radix.spec_is_dirty() {
            if radix.spec_dirty_index() < self.radixes.len() {
                Some(self.radixes[radix.spec_dirty_index() as int].offsets@[i])
            } else {
                None
            }
        } else {
            disk_radix_child(self.buf, radix.raw() as int, i)
        }
    }

    /// The leaf entry that `leaf` names.
    pub open spec fn leaf_entry(self, leaf: LeafOffset) -> Option<MemLeaf> {
        if leaf.spec_is_null() {
            None
        } else if leaf.spec_is_dirty() {
            if leaf.spec_dirty_index() < self.leafs.len() {
                Some(self.leafs[leaf.spec_dirty_index() as int])
            } else {
                None
            }
        } else {
            MemLeaf::spec_read_from(self.buf, leaf.raw() as int)
        }
    }

    /// The bytes of the key that `key` names.
    pub open spec fn key_content(self, key: KeyOffset) -> Option<Seq<u8>> {
        if key.spec_is_null() {
            None
        } else if key.spec_is_dirty() {
            if key.spec_dirty_index() < self.keys.len() {
                Some(self.keys[key.spec_dirty_index() as int])
            } else {
                None
            }
        } else {
            MemKey::spec_read_from(self.buf, key.raw() as int)
        }
    }

    /// The value of the link entry that `link` names.
    pub open spec fn link_value(self, link: LinkOffset) -> Option<u64> {
        if link.spec_is_null() {
            None
        } else if link.spec_is_dirty() {
            if link.spec_dirty_index() < self.links.len() {
                Some(self.links[link.spec_dirty_index() as int].value)
            } else {
                None
            }
        } else {
            disk_link_value(self.buf, link.raw() as int)
        }
    }

    /// The link entry that `link` names.
    pub open spec fn link_entry(self, link: LinkOffset) -> Option<MemLink> {
        if link.spec_is_null() {
            None
        } else if link.spec_is_dirty() {
            if link.spec_dirty_index() < self.links.len() {
                Some(self.links[link.spec_dirty_index() as int])
            } else {
                None
            }
        } else {
            MemLink::spec_read_from(self.buf, link.raw() as int)
        }
    }

    /// What a leaf entry says of `key`: its link where it holds that key,
    /// the null link where it holds another.
    pub open spec fn leaf_lookup(self, leaf: LeafOffset, key: Seq<u8>) -> Option<LinkOffset> {
        match self.leaf_entry(leaf) {
            None => None,
            Some(entry) => match self.key_content(entry.key_offset) {
                None => None,
                Some(stored) => if stored == key {
                    Some(entry.link_offset)
                } else {
                    Some(LinkOffset::null())
                },
            },
        }
    }

    /// The link that a search for `key` finds when it stands at `offset` with
    /// `step` digits of the key behind it. `None` where the search meets
    /// bytes that are not those of an index.
    pub open spec fn lookup_from(self, offset: Offset, key: Seq<u8>, step: nat) -> Option<
        LinkOffset,
    >
        decreases nibble_count(key) - step,
    {
        if offset.spec_is_null() {
            Some(LinkOffset::null())
        } else {
            match offset.spec_to_typed(self.buf) {
                Some(TypedOffset::Radix(radix)) => if step >= nibble_count(key) {
                    self.radix_link(radix)
                } else {
                    match self.radix_child(radix, nibble(key, step as int) as int) {
                        None => None,
                        Some(child) => self.lookup_from(child, key, step + 1),
                    }
                },
                Some(TypedOffset::Leaf(leaf)) => self.leaf_lookup(leaf, key),
                _ => None,
            }
        }
    }

    /// The link that a search for `key` finds: the head of the chain of the
    /// key's values, null where the index does not hold the key. `None` where
    /// the search meets bytes that are not those of an index.
    pub open spec fn lookup(self, key: Seq<u8>) -> Option<LinkOffset> {
        self.lookup_from(self.root.to_offset(), key, 0)
    }

    /// Whether an insertion of `key` that stands at `offset` with `step`
    /// digits of the key behind it finds every entry on its way intact. An
    /// insertion takes in the whole of each radix entry that it passes, and
    /// the tree does not start at a leaf.
    pub open spec fn insertable_from(self, offset: Offset, key: Seq<u8>, step: nat) -> bool
        decreases nibble_count(key) - step,
    {
        match offset.spec_to_typed(self.buf) {
            Some(TypedOffset::Radix(radix)) => match self.radix_entry(radix) {
                None => false,
                Some(entry) => step >= nibble_count(key) || {
                    let child = entry.children[nibble(key, step as int) as int];
                    child.spec_is_null() || self.insertable_from(child, key, step + 1)
                },
            },
            Some(TypedOffset::Leaf(leaf)) => step > 0 && self.leaf_lookup(leaf, key) is Some,
            _ => false,
        }
    }

    /// Whether `link` may become the head or the tail of a chain in this
    /// index: it is null or names a link entry of this index.
    pub open spec fn link_usable(self, link: LinkOffset) -> bool {
        &&& link.to_offset().fits(self.buf, TYPE_LINK)
        &&& link.spec_is_dirty() ==> link.spec_dirty_index() < self.links.len()
    }

    /// Whether an insertion of `key` with the chain `link` succeeds.
    pub open spec fn insertable(self, key: Seq<u8>, link: Option<LinkOffset>) -> bool {
        &&& link matches Some(l) ==> self.link_usable(l)
        &&& self.insertable_from(self.root.to_offset(), key, 0)
    }

    /// Whether the staged radix entry at `trail[j]` was staged before the one
    /// at `trail[j + 1]` and has it as the child that the digit of `key` at
    /// `depth + j` picks.
    pub open spec fn trail_step(self, trail: Seq<int>, key: Seq<u8>, depth: nat, j: int) -> bool {
        &&& trail[j] < trail[j + 1]
        &&& self.radixes[trail[j]].offsets@[nibble(key, depth + j) as int]
            == RadixOffset::spec_dirty(trail[j + 1] as nat).to_offset()
    }

    /// The link that comes after the new head of the chain of `key`: `link`
    /// where one is given, else the head that the chain has.
    pub open spec fn new_tail(self, key: Seq<u8>, link: Option<LinkOffset>) -> LinkOffset {
        match link {
            Some(l) => l,
            None => self.lookup(key).unwrap(),
        }
    }

    /// The head that the chain of `key` has after an insertion: a new link
    /// where a value is given, else the tail.
    pub open spec fn new_head(
        self,
        key: Seq<u8>,
        value: Option<u64>,
        link: Option<LinkOffset>,
    ) -> LinkOffset {
        match value {
            Some(_) => LinkOffset::spec_dirty(self.links.len()),
            None => self.new_tail(key, link),
        }
    }

    /// The staged links after an insertion: one more where a value is given.
    pub open spec fn links_after(
        self,
        key: Seq<u8>,
        value: Option<u64>,
        link: Option<LinkOffset>,
    ) -> Seq<MemLink> {
        match value {
            Some(v) => self.links.push(
                MemLink { value: v, next_link_offset: self.new_tail(key, link) },
            ),
            None => self.links,
        }
    }

    /// Whether `next` is this state after a successful insertion for `key`:
    /// the bytes of the file are the same, the staged links are those of
    /// before and the new one, and a search for `key` finds the new head.
    pub open spec fn inserts(
        self,
        next: IndexView,
        key: Seq<u8>,
        value: Option<u64>,
        link: Option<LinkOffset>,
    ) -> bool {
        &&& next.wf()
        &&& next.buf == self.buf
        &&& next.read_only == self.read_only
        &&& next.links == self.links_after(key, value, link)
        &&& next.lookup(key) == Some(self.new_head(key, value, link))
    }

    /// Whether `next` keeps what is staged in this state: no entry is taken
    /// away, every staged key and link is what it was, and every staged leaf
    /// has the key that it had.
    pub open spec fn staging_kept(self, next: IndexView) -> bool {
        &&& self.radixes.len() <= next.radixes.len()
        &&& self.leafs.len() <= next.leafs.len()
        &&& self.keys.len() <= next.keys.len()
        &&& self.links.len() <= next.links.len()
        &&& forall|l: int|
            0 <= l < self.leafs.len() ==> (#[trigger] next.leafs[l]).key_offset
                == self.leafs[l].key_offset
        &&& forall|i: int| 0 <= i < self.keys.len() ==> #[trigger] next.keys[i] == self.keys[i]
        &&& forall|m: int| 0 <= m < self.links.len() ==> #[trigger] next.links[m] == self.links[m]
    }

    /// Whether `next` has staged no more than an insertion of a key of
    /// `key_len` bytes may add to this state: a radix entry for each digit of
    /// the key and two more, one leaf and one key.
    pub open spec fn grown_by(self, next: IndexView, key_len: nat) -> bool {
        &&& next.radixes.len() <= self.radixes.len() + 2 * key_len + 2
        &&& next.leafs.len() <= self.leafs.len() + 1
        &&& next.keys.len() <= self.keys.len() + 1
    }

    /// Whether the index holds `values` for the chain that starts at `link`,
    /// the newest first: each link has its value and leads to the next, and
    /// the chain ends with the null link.
    pub open spec fn is_chain(self, link: LinkOffset, values: Seq<u64>) -> bool
        decreases values.len(),
    {
        if values.len() == 0 {
            link.spec_is_null()
        } else {
            !link.spec_is_null() && match self.link_entry(link) {
                Some(entry) => entry.value == values[0] && self.is_chain(
                    entry.next_link_offset,
                    values.drop_first(),
                ),
                None => false,
            }
        }
    }

    /// Whether the index holds `values` for `key`, the newest first. A key
    /// that the index does not hold has no values.
    pub open spec fn holds(self, key: Seq<u8>, values: Seq<u64>) -> bool {
        match self.lookup(key) {
            Some(link) => self.is_chain(link, values),
            None => false,
        }
    }

    /// Whether `next` holds for every key the values that this state holds.
    pub open spec fn kept_in(self, next: IndexView) -> bool {
        forall|key: Seq<u8>, values: Seq<u64>|
            self.holds(key, values) ==> #[trigger] next.holds(key, values)
    }

    /// Whether the index holds no key.
    pub open spec fn holds_nothing(self) -> bool {
        forall|key: Seq<u8>| #[trigger] self.lookup(key) == Some(LinkOffset::null())
    }

    /// Setting a child to what it is changes nothing.
    pub proof fn lemma_set_child_same(self, at: int, i: int)
        requires
            0 <= at < self.radixes.len(),
            0 <= i < 16,
        ensures
            self.set_child(at, i, self.radixes[at].offsets@[i]) == self,
    {
        let next = self.set_child(at, i, self.radixes[at].offsets@[i]);
        assert(next.radixes[at].offsets@ =~= self.radixes[at].offsets@);
        assert(next.radixes[at].offsets == self.radixes[at].offsets);
        assert(next.radixes =~= self.radixes);
    }

    /// Whether `trail` lists the places among the staged radix entries that
    /// a search for `key` passes one after the other, the first of them with
    /// `depth` digits of the key behind it. Each was staged before the next.
    pub open spec fn is_trail(self, trail: Seq<int>, key: Seq<u8>, depth: nat) -> bool {
        &&& trail.len() >= 1
        &&& depth + trail.len() <= nibble_count(key) + 1
        &&& forall|j: int|
            0 <= j < trail.len() ==> 0 <= #[trigger] trail[j] < self.radixes.len() && trail[j]
                <= MAX_DIRTY_INDEX
        &&& forall|j: int|
            0 <= j < trail.len() - 1 ==> #[trigger] self.trail_step(trail, key, depth, j)
    }

    /// A search that stands at the first entry of a trail comes to the last.
    pub proof fn lemma_trail(self, trail: Seq<int>, key: Seq<u8>, depth: nat)
        requires
            self.is_trail(trail, key, depth),
        ensures
            self.lookup_from(RadixOffset::spec_dirty(trail[0] as nat).to_offset(), key, depth)
                == self.lookup_from(
                RadixOffset::spec_dirty(trail.last() as nat).to_offset(),
                key,
                (depth + trail.len() - 1) as nat,
            ),
        decreases trail.len(),
    {
        if trail.len() > 1 {
            let rest = trail.subrange(1, trail.len() as int);
            assert forall|j: int| 0 <= j < rest.len() implies 0 <= #[trigger] rest[j]
                < self.radixes.len() && rest[j] <= MAX_DIRTY_INDEX by {
                assert(rest[j] == trail[j + 1]);
            }
            assert forall|j: int| 0 <= j < rest.len() - 1 implies #[trigger] self.trail_step(
                rest,
                key,
                depth + 1,
                j,
            ) by {
                assert(rest[j] == trail[j + 1]);
                assert(rest[j + 1] == trail[j + 2]);
                assert(self.trail_step(trail, key, depth, j + 1));
            }
            assert(self.is_trail(rest, key, depth + 1));
            self.lemma_trail(rest, key, depth + 1);
            assert(rest.last() == trail.last());
            assert(rest[0] == trail[1]);
            assert(self.trail_step(trail, key, depth, 0));
            lemma_dirty_raw(trail[0] as nat, TYPE_RADIX);
            let first = RadixOffset::spec_dirty(trail[0] as nat);
            assert(first.to_offset().spec_to_typed(self.buf) == Some(TypedOffset::Radix(first)));
        }
    }

    /// What a search finds from an on-disk offset on depends on the bytes of
    /// the file alone.
    pub proof fn lemma_lookup_on_disk(
        self,
        other: IndexView,
        offset: Offset,
        key: Seq<u8>,
        step: nat,
    )
        requires
            self.buf == other.buf,
            !offset.spec_is_dirty(),
        ensures
            self.lookup_from(offset, key, step) == other.lookup_from(offset, key, step),
        decreases nibble_count(key) - step,
    {
        if !offset.spec_is_null() {
            match offset.spec_to_typed(self.buf) {
                Some(TypedOffset::Radix(radix)) => {
                    if step < nibble_count(key) {
                        match self.radix_child(radix, nibble(key, step as int) as int) {
                            None => {},
                            Some(child) => {
                                self.lemma_lookup_on_disk(other, child, key, step + 1);
                            },
                        }
                    }
                },
                _ => {},
            }
        }
    }

    /// Whether an insertion that stands at an on-disk offset finds its way
    /// intact depends on the bytes of the file alone.
    pub proof fn lemma_insertable_on_disk(
        self,
        other: IndexView,
        offset: Offset,
        key: Seq<u8>,
        step: nat,
    )
        requires
            self.buf == other.buf,
            !offset.spec_is_dirty(),
        ensures
            self.insertable_from(offset, key, step) == other.insertable_from(offset, key, step),
        decreases nibble_count(key) - step,
    {
        match offset.spec_to_typed(self.buf) {
            Some(TypedOffset::Radix(radix)) => {
                match self.radix_entry(radix) {
                    None => {},
                    Some(entry) => {
                        if step < nibble_count(key) {
                            lemma_radix_read(self.buf, radix.raw() as int);
                            let child = entry.children[nibble(key, step as int) as int];
                            if !child.spec_is_null() {
                                self.lemma_insertable_on_disk(other, child, key, step + 1);
                            }
                        }
                    },
                }
            },
            _ => {},
        }
    }

    /// Whether `next` is this state with new staged entries and with another
    /// child `child` in the staged radix entry at `at`, and nothing else
    /// changed.
    pub open spec fn grafted(self, next: IndexView, at: int, child: int) -> bool {
        &&& next.buf == self.buf
        &&& next.read_only == self.read_only
        &&& next.root == self.root
        &&& next.links == self.links
        &&& next.leafs.len() >= self.leafs.len()
        &&& forall|i: int| 0 <= i < self.leafs.len() ==> next.leafs[i] == self.leafs[i]
        &&& next.keys.len() >= self.keys.len()
        &&& forall|i: int| 0 <= i < self.keys.len() ==> next.keys[i] == self.keys[i]
        &&& next.radixes.len() >= self.radixes.len()
        &&& forall|i: int|
            0 <= i < self.radixes.len() && i != at ==> next.radixes[i] == self.radixes[i]
        &&& next.radixes[at].link_offset == self.radixes[at].link_offset
        &&& forall|c: int|
            0 <= c < 16 && c != child ==> next.radixes[at].offsets@[c]
                == self.radixes[at].offsets@[c]
    }

    /// Whether a leaf offset may stand as a child: where it is dirty, it
    /// names a staged leaf.
    pub open spec fn leaf_slot_ok(self, leaf: LeafOffset) -> bool {
        leaf.spec_is_dirty() ==> leaf.tagged() && leaf.spec_dirty_index() < self.leafs.len()
    }

    /// Whether a link offset may stand in a staged entry: where it is dirty,
    /// it names one of the first `bound` staged links.
    pub open spec fn link_ok(self, link: LinkOffset, bound: nat) -> bool {
        link.spec_is_dirty() ==> link.tagged() && link.spec_dirty_index() < bound
    }

    /// Whether a key offset may stand in a staged entry: where it is dirty,
    /// it names a staged key.
    pub open spec fn key_ok(self, key: KeyOffset) -> bool {
        key.spec_is_dirty() ==> key.tagged() && key.spec_dirty_index() < self.keys.len()
    }

    /// Whether an offset may stand as a child in the staged radix entry at
    /// `parent`: where it is dirty, it names a staged leaf, or a staged radix
    /// entry that was staged after its parent.
    pub open spec fn child_ok(self, child: Offset, parent: nat) -> bool {
        child.spec_is_dirty() ==> {
            ||| (child.spec_dirty_type() == TYPE_LEAF && child.spec_dirty_index()
                < self.leafs.len())
            ||| (child.spec_dirty_type() == TYPE_RADIX && parent < child.spec_dirty_index()
                < self.radixes.len())
        }
    }

    /// Whether the staged radix entry at `i` refers only to what is staged.
    pub open spec fn radix_ok(self, i: int) -> bool {
        &&& self.link_ok(self.radixes[i].link_offset, self.links.len())
        &&& forall|c: int| 0 <= c < 16 ==> self.child_ok(#[trigger] self.radixes[i].offsets@[c], i as nat)
    }

    /// Whether the staged leaf entry at `i` refers only to what is staged.
    pub open spec fn leaf_ok(self, i: int) -> bool {
        &&& self.key_ok(self.leafs[i].key_offset)
        &&& self.link_ok(self.leafs[i].link_offset, self.links.len())
    }

    /// The staged entries hang together: every dirty offset in them names a
    /// staged entry of the right type, a link only links staged before it, a
    /// radix entry only radix entries staged after it, and the number of
    /// staged entries of each type fits the index part of a dirty offset.
    pub open spec fn wf(self) -> bool {
        &&& self.radixes.len() <= MAX_DIRTY_INDEX + 1
        &&& self.leafs.len() <= MAX_DIRTY_INDEX + 1
        &&& self.links.len() <= MAX_DIRTY_INDEX + 1
        &&& self.keys.len() <= MAX_DIRTY_INDEX + 1
        &&& self.root.spec_is_dirty() ==> self.root.tagged() && self.root.spec_dirty_index()
            < self.radixes.len()
        &&& forall|i: int| 0 <= i < self.radixes.len() ==> #[trigger] self.radix_ok(i)
        &&& forall|i: int| 0 <= i < self.leafs.len() ==> #[trigger] self.leaf_ok(i)
        &&& forall|i: int|
            0 <= i < self.links.len() ==> self.link_ok(
                (#[trigger] self.links[i]).next_link_offset,
                i as nat,
            )
    }
}

} // verus!
