//! Why an insertion leaves the key at the head of its chain.
//!
//! An insertion walks from the root along the digits of the key and stages
//! every radix entry that it passes. The staged entries of the walk form a
//! trail; these lemmas say what the trail looks like after each step and what
//! a search that follows it finds once the insertion has made its change.

use vstd::prelude::*;
use crate::base16::nibble;
use crate::base16::nibble_count;
use crate::entry::MemLeaf;
use crate::entry::MemRadix;
use crate::offset::KeyOffset;
use crate::offset::LeafOffset;
use crate::offset::LinkOffset;
use crate::offset::MAX_DIRTY_INDEX;
use crate::offset::Offset;
use crate::offset::RadixOffset;
use crate::offset::TypedOffset;
use crate::state::IndexView;
use crate::state::lemma_radix_read;

verus! {

impl IndexView {
    /// Whether `trail` is the trail of a walk along `key` that started at the
    /// root.
    pub open spec fn rooted(self, trail: Seq<int>, key: Seq<u8>) -> bool {
        &&& self.is_trail(trail, key, 0)
        &&& self.root == RadixOffset::spec_dirty(trail[0] as nat)
        &&& forall|j: int| 0 <= j < trail.len() - 1 ==> trail[j] < trail.last()
    }

    /// A search for `key` comes to the last entry of a rooted trail.
    pub proof fn lemma_rooted(self, trail: Seq<int>, key: Seq<u8>)
        requires
            self.rooted(trail, key),
        ensures
            self.lookup(key) == self.lookup_from(
                RadixOffset::spec_dirty(trail.last() as nat).to_offset(),
                key,
                (trail.len() - 1) as nat,
            ),
    {
        self.lemma_trail(trail, key, 0);
    }

    /// A rooted trail stays one where the root and the entries of the trail
    /// but the last stay as they are.
    pub proof fn lemma_rooted_stable(self, next: IndexView, trail: Seq<int>, key: Seq<u8>)
        requires
            self.rooted(trail, key),
            next.root == self.root,
            next.radixes.len() >= self.radixes.len(),
            forall|i: int|
                0 <= i < self.radixes.len() && i != trail.last() ==> next.radixes[i]
                    == self.radixes[i],
        ensures
            next.rooted(trail, key),
    {
        assert forall|j: int| 0 <= j < trail.len() - 1 implies #[trigger] next.trail_step(
            trail,
            key,
            0,
            j,
        ) by {
            assert(self.trail_step(trail, key, 0, j));
        }
    }

    /// The head that a chain gets that had `link_offset` as its head: a new
    /// link where a value is given, else `link`, or `link_offset` where no
    /// `link` is given.
    pub open spec fn head_of(
        self,
        link_offset: LinkOffset,
        value: Option<u64>,
        link: Option<LinkOffset>,
    ) -> LinkOffset {
        match value {
            Some(_) => LinkOffset::spec_dirty(self.links.len()),
            None => match link {
                Some(l) => l,
                None => link_offset,
            },
        }
    }

    /// The state after the choice of a head for a chain that had
    /// `link_offset` as its head: with a value, a new link is staged in front
    /// of `link`, or of `link_offset` where no `link` is given.
    pub open spec fn linked(
        self,
        link_offset: LinkOffset,
        value: Option<u64>,
        link: Option<LinkOffset>,
    ) -> IndexView {
        match value {
            Some(v) => self.push_link(
                crate::entry::MemLink {
                    value: v,
                    next_link_offset: match link {
                        Some(l) => l,
                        None => link_offset,
                    },
                },
            ),
            None => self,
        }
    }

    /// Whether `next` is this state after the choice of a head for a chain
    /// that had `link_offset` as its head: with a value, a new link `head` is
    /// staged in front of the tail; without, `head` is the tail. The tail is
    /// `link` where one is given, else `link_offset`.
    pub open spec fn chained(
        self,
        next: IndexView,
        link_offset: LinkOffset,
        value: Option<u64>,
        link: Option<LinkOffset>,
        head: LinkOffset,
    ) -> bool {
        let tail = match link {
            Some(l) => l,
            None => link_offset,
        };
        match value {
            Some(v) => head == LinkOffset::spec_dirty(self.links.len()) && next == self.push_link(
                crate::entry::MemLink { value: v, next_link_offset: tail },
            ),
            None => head == tail && next == self,
        }
    }

    /// Staging a link keeps the staged entries together, and the new head
    /// may stand in a staged entry.
    pub proof fn lemma_chained(
        self,
        next: IndexView,
        link_offset: LinkOffset,
        value: Option<u64>,
        link: Option<LinkOffset>,
        head: LinkOffset,
    )
        requires
            self.wf(),
            self.links.len() < MAX_DIRTY_INDEX,
            self.link_ok(link_offset, self.links.len()),
            link matches Some(l) ==> self.link_usable(l),
            self.chained(next, link_offset, value, link, head),
        ensures
            next.wf(),
            next.link_ok(head, next.links.len()),
            next.buf == self.buf,
            next.root == self.root,
            next.read_only == self.read_only,
            next.radixes == self.radixes,
            next.leafs == self.leafs,
            next.keys == self.keys,
            next.links.len() <= self.links.len() + 1,
    {
        LinkOffset::lemma_spec_dirty(self.links.len());
        assert forall|i: int| 0 <= i < next.radixes.len() implies #[trigger] next.radix_ok(i) by {
            assert(self.radix_ok(i));
        }
        assert forall|i: int| 0 <= i < next.leafs.len() implies #[trigger] next.leaf_ok(i) by {
            assert(self.leaf_ok(i));
        }
    }
}

/// What staging the radix entry that a walk has arrived at does: the entry
/// is staged as it was, hangs where it hung, and lengthens the trail.
pub proof fn lemma_staged_radix(
    at_head: IndexView,
    mid: IndexView,
    staged: IndexView,
    radix: RadixOffset,
    arrived: Offset,
    trail: Seq<int>,
    key: Seq<u8>,
    last_child: u8,
)
    requires
        at_head.wf(),
        at_head.radixes.len() < MAX_DIRTY_INDEX,
        arrived.spec_to_typed(at_head.buf) == Some(TypedOffset::Radix(RadixOffset::of(arrived))),
        trail.len() <= nibble_count(key),
        trail.len() == 0 ==> arrived == at_head.root.to_offset(),
        trail.len() > 0 ==> {
            &&& at_head.rooted(trail, key)
            &&& last_child == nibble(key, trail.len() - 1)
            &&& last_child < 16
            &&& at_head.radixes[trail.last()].offsets@[last_child as int] == arrived
        },
        arrived.spec_is_dirty() ==> radix == RadixOffset::of(arrived) && mid == at_head,
        !arrived.spec_is_dirty() ==> {
            &&& MemRadix::spec_read_from(at_head.buf, arrived.raw() as int) is Some
            &&& radix == RadixOffset::spec_dirty(at_head.radixes.len())
            &&& mid.radixes.len() == at_head.radixes.len() + 1
            &&& mid.radixes.last()@ == MemRadix::spec_read_from(
                at_head.buf,
                arrived.raw() as int,
            ).unwrap()
            &&& mid == at_head.push_radix(mid.radixes.last())
        },
        staged == if trail.len() == 0 {
            mid.set_root(radix)
        } else {
            mid.set_child(trail.last(), last_child as int, radix.to_offset())
        },
    ensures
        staged.wf(),
        staged.buf == at_head.buf,
        staged.read_only == at_head.read_only,
        staged.links == at_head.links,
        staged.leafs == at_head.leafs,
        staged.keys == at_head.keys,
        staged.radixes.len() <= at_head.radixes.len() + 1,
        radix.spec_is_dirty(),
        radix.spec_dirty_index() < staged.radixes.len(),
        radix == RadixOffset::spec_dirty(radix.spec_dirty_index()),
        staged.rooted(trail.push(radix.spec_dirty_index() as int), key),
        at_head.radix_entry(RadixOffset::of(arrived)) == Some(
            staged.radixes[radix.spec_dirty_index() as int]@,
        ),
        at_head.radix_link(RadixOffset::of(arrived)) == Some(
            staged.radixes[radix.spec_dirty_index() as int].link_offset,
        ),
        forall|i: int|
            0 <= i < 16 ==> at_head.radix_child(RadixOffset::of(arrived), i) == Some(
                #[trigger] staged.radixes[radix.spec_dirty_index() as int].offsets@[i],
            ),
        arrived.spec_is_dirty() ==> staged == at_head,
        !arrived.spec_is_dirty() ==> forall|i: int|
            0 <= i < 16 ==> !(#[trigger] staged.radixes[radix.spec_dirty_index()
                as int].offsets@[i]).spec_is_dirty(),
{
    let here = radix.spec_dirty_index() as int;
    let longer = trail.push(here);
    if trail.len() > 0 {
        assert(at_head.radix_ok(trail.last()));
        RadixOffset::lemma_spec_dirty(trail.last() as nat);
    }
    if arrived.spec_is_dirty() {
        radix.lemma_tagged();
        if trail.len() > 0 {
            at_head.lemma_set_child_same(trail.last(), last_child as int);
            assert(at_head.child_ok(
                at_head.radixes[trail.last()].offsets@[last_child as int],
                trail.last() as nat,
            ));
        }
        assert(staged == at_head);
    } else {
        lemma_radix_read(at_head.buf, arrived.raw() as int);
        RadixOffset::lemma_spec_dirty(at_head.radixes.len());
        let n = at_head.radixes.len() as int;
        assert(here == n);
        assert(staged.radixes[n] == mid.radixes[n]);
        assert forall|i: int| 0 <= i < staged.radixes.len() implies #[trigger] staged.radix_ok(
            i,
        ) by {
            if i == n {
                assert forall|c: int| 0 <= c < 16 implies staged.child_ok(
                    #[trigger] staged.radixes[i].offsets@[c],
                    i as nat,
                ) by {}
            } else {
                assert(at_head.radix_ok(i));
                if trail.len() > 0 && i == trail.last() {
                    assert forall|c: int| 0 <= c < 16 implies staged.child_ok(
                        #[trigger] staged.radixes[i].offsets@[c],
                        i as nat,
                    ) by {
                        if c != last_child {
                            assert(staged.radixes[i].offsets@[c] == at_head.radixes[i].offsets@[c]);
                        }
                    }
                } else {
                    assert(staged.radixes[i] == at_head.radixes[i]);
                }
            }
        }
        assert forall|i: int| 0 <= i < staged.leafs.len() implies #[trigger] staged.leaf_ok(i) by {
            assert(at_head.leaf_ok(i));
        }
        assert(staged.wf());
    }
    // The longer trail.
    assert forall|j: int| 0 <= j < longer.len() - 1 implies #[trigger] staged.trail_step(
        longer,
        key,
        0,
        j,
    ) by {
        if j < trail.len() - 1 {
            assert(at_head.trail_step(trail, key, 0, j));
            assert(longer[j] == trail[j]);
            assert(longer[j + 1] == trail[j + 1]);
            assert(staged.radixes[trail[j]] == at_head.radixes[trail[j]]);
        } else {
            assert(longer[j] == trail.last());
            assert(longer[j + 1] == here);
        }
    }
    assert forall|j: int| 0 <= j < longer.len() implies 0 <= #[trigger] longer[j]
        < staged.radixes.len() && longer[j] <= MAX_DIRTY_INDEX by {
        if j < trail.len() {
            assert(longer[j] == trail[j]);
        }
    }
    assert(staged.is_trail(longer, key, 0));
    if trail.len() > 0 {
        assert(longer[0] == trail[0]);
    }
    assert(staged.rooted(longer, key));
}

/// An insertion that ends at a radix entry: the key has no digits left, and
/// the entry gets the new head as its link.
pub proof fn lemma_insert_at_radix(
    old: IndexView,
    staged: IndexView,
    linked: IndexView,
    fin: IndexView,
    trail: Seq<int>,
    key: Seq<u8>,
    value: Option<u64>,
    link: Option<LinkOffset>,
    head: LinkOffset,
)
    requires
        staged.wf(),
        staged.rooted(trail, key),
        trail.len() == nibble_count(key) + 1,
        staged.links == old.links,
        staged.links.len() < MAX_DIRTY_INDEX,
        link matches Some(l) ==> staged.link_usable(l),
        old.lookup(key) == Some(staged.radixes[trail.last()].link_offset),
        staged.chained(linked, staged.radixes[trail.last()].link_offset, value, link, head),
        fin == linked.set_radix_link(trail.last(), head),
    ensures
        fin.wf(),
        fin.links == old.links_after(key, value, link),
        fin.lookup(key) == Some(old.new_head(key, value, link)),
{
    let last = trail.last();
    assert(staged.radix_ok(last));
    staged.lemma_chained(linked, staged.radixes[last].link_offset, value, link, head);
    assert forall|i: int| 0 <= i < fin.radixes.len() implies #[trigger] fin.radix_ok(i) by {
        assert(linked.radix_ok(i));
    }
    assert forall|i: int| 0 <= i < fin.leafs.len() implies #[trigger] fin.leaf_ok(i) by {
        assert(linked.leaf_ok(i));
    }
    assert(fin.wf());
    staged.lemma_rooted_stable(fin, trail, key);
    fin.lemma_rooted(trail, key);
    RadixOffset::lemma_spec_dirty(last as nat);
    let radix = RadixOffset::spec_dirty(last as nat);
    assert(radix.to_offset().spec_to_typed(fin.buf) == Some(TypedOffset::Radix(radix)));
    assert(fin.radix_link(radix) == Some(head));
}

/// An insertion that ends below a radix entry without a child for the next
/// digit of the key: the key gets a leaf there.
pub proof fn lemma_insert_new_leaf(
    old: IndexView,
    staged: IndexView,
    linked: IndexView,
    fin: IndexView,
    trail: Seq<int>,
    key: Seq<u8>,
    value: Option<u64>,
    link: Option<LinkOffset>,
    head: LinkOffset,
)
    requires
        staged.wf(),
        staged.rooted(trail, key),
        trail.len() <= nibble_count(key),
        staged.links == old.links,
        staged.links.len() < MAX_DIRTY_INDEX,
        staged.leafs.len() < MAX_DIRTY_INDEX,
        staged.keys.len() < MAX_DIRTY_INDEX,
        link matches Some(l) ==> staged.link_usable(l),
        old.lookup(key) == Some(LinkOffset::null()),
        staged.chained(linked, LinkOffset::null(), value, link, head),
        fin == linked.push_key(key).push_leaf(
            MemLeaf { key_offset: KeyOffset::spec_dirty(linked.keys.len()), link_offset: head },
        ).set_child(
            trail.last(),
            nibble(key, trail.len() - 1) as int,
            LeafOffset::spec_dirty(linked.leafs.len()).to_offset(),
        ),
    ensures
        fin.wf(),
        fin.links == old.links_after(key, value, link),
        fin.lookup(key) == Some(old.new_head(key, value, link)),
{
    let last = trail.last();
    let x = nibble(key, trail.len() - 1) as int;
    staged.lemma_chained(linked, LinkOffset::null(), value, link, head);
    LeafOffset::lemma_spec_dirty(linked.leafs.len());
    KeyOffset::lemma_spec_dirty(linked.keys.len());
    RadixOffset::lemma_spec_dirty(last as nat);
    let leaf = LeafOffset::spec_dirty(linked.leafs.len());
    assert(fin.radixes[last].offsets@[x] == leaf.to_offset());
    assert forall|i: int| 0 <= i < fin.radixes.len() implies #[trigger] fin.radix_ok(i) by {
        assert(linked.radix_ok(i));
        if i == last {
            assert forall|c: int| 0 <= c < 16 implies fin.child_ok(
                #[trigger] fin.radixes[i].offsets@[c],
                i as nat,
            ) by {
                if c != x {
                    assert(fin.radixes[i].offsets@[c] == linked.radixes[i].offsets@[c]);
                }
            }
        } else {
            assert(fin.radixes[i] == linked.radixes[i]);
        }
    }
    assert forall|i: int| 0 <= i < fin.leafs.len() implies #[trigger] fin.leaf_ok(i) by {
        if i < linked.leafs.len() {
            assert(linked.leaf_ok(i));
        }
    }
    assert(fin.wf());
    staged.lemma_rooted_stable(fin, trail, key);
    fin.lemma_rooted(trail, key);
    let radix = RadixOffset::spec_dirty(last as nat);
    assert(radix.to_offset().spec_to_typed(fin.buf) == Some(TypedOffset::Radix(radix)));
    assert(fin.radix_child(radix, x) == Some(leaf.to_offset()));
    assert(leaf.to_offset().spec_to_typed(fin.buf) == Some(TypedOffset::Leaf(leaf)));
    assert(fin.leaf_lookup(leaf, key) == Some(head));
    assert(fin.lookup_from(leaf.to_offset(), key, trail.len()) == Some(head));
}

/// An insertion that ends at the leaf of the key: the leaf, or a staged copy
/// of it, gets the new head as its link.
pub proof fn lemma_insert_at_leaf(
    old: IndexView,
    at_head: IndexView,
    linked: IndexView,
    fin: IndexView,
    trail: Seq<int>,
    key: Seq<u8>,
    value: Option<u64>,
    link: Option<LinkOffset>,
    leaf: LeafOffset,
    head: LinkOffset,
)
    requires
        at_head.wf(),
        at_head.rooted(trail, key),
        trail.len() <= nibble_count(key),
        at_head.links == old.links,
        at_head.links.len() < MAX_DIRTY_INDEX,
        at_head.leafs.len() < MAX_DIRTY_INDEX,
        link matches Some(l) ==> at_head.link_usable(l),
        at_head.radixes[trail.last()].offsets@[nibble(key, trail.len() - 1) as int]
            == leaf.to_offset(),
        leaf.to_offset().spec_to_typed(at_head.buf) == Some(TypedOffset::Leaf(leaf)),
        at_head.leaf_entry(leaf) is Some,
        at_head.key_content(at_head.leaf_entry(leaf).unwrap().key_offset) == Some(key),
        old.lookup(key) == Some(at_head.leaf_entry(leaf).unwrap().link_offset),
        at_head.chained(linked, at_head.leaf_entry(leaf).unwrap().link_offset, value, link, head),
        fin == if leaf.spec_is_dirty() {
            linked.set_leaf_link(leaf.spec_dirty_index() as int, head).set_child(
                trail.last(),
                nibble(key, trail.len() - 1) as int,
                leaf.to_offset(),
            )
        } else {
            linked.push_leaf(
                MemLeaf {
                    key_offset: at_head.leaf_entry(leaf).unwrap().key_offset,
                    link_offset: head,
                },
            ).set_child(
                trail.last(),
                nibble(key, trail.len() - 1) as int,
                LeafOffset::spec_dirty(linked.leafs.len()).to_offset(),
            )
        },
    ensures
        fin.wf(),
        fin.links == old.links_after(key, value, link),
        fin.lookup(key) == Some(old.new_head(key, value, link)),
{
    let last = trail.last();
    let x = nibble(key, trail.len() - 1) as int;
    let entry = at_head.leaf_entry(leaf).unwrap();
    if leaf.spec_is_dirty() {
        leaf.lemma_tagged();
        assert(at_head.leaf_ok(leaf.spec_dirty_index() as int));
    }
    at_head.lemma_chained(linked, entry.link_offset, value, link, head);
    LeafOffset::lemma_spec_dirty(linked.leafs.len());
    RadixOffset::lemma_spec_dirty(last as nat);
    let new_leaf = if leaf.spec_is_dirty() {
        leaf
    } else {
        LeafOffset::spec_dirty(linked.leafs.len())
    };
    assert(fin.radixes[last].offsets@[x] == new_leaf.to_offset());
    assert forall|i: int| 0 <= i < fin.radixes.len() implies #[trigger] fin.radix_ok(i) by {
        assert(linked.radix_ok(i));
        if i == last {
            assert forall|c: int| 0 <= c < 16 implies fin.child_ok(
                #[trigger] fin.radixes[i].offsets@[c],
                i as nat,
            ) by {
                if c != x {
                    assert(fin.radixes[i].offsets@[c] == linked.radixes[i].offsets@[c]);
                }
            }
        } else {
            assert(fin.radixes[i] == linked.radixes[i]);
        }
    }
    assert forall|i: int| 0 <= i < fin.leafs.len() implies #[trigger] fin.leaf_ok(i) by {
        if i < linked.leafs.len() {
            assert(linked.leaf_ok(i));
        }
    }
    assert(fin.wf());
    at_head.lemma_rooted_stable(fin, trail, key);
    fin.lemma_rooted(trail, key);
    let radix = RadixOffset::spec_dirty(last as nat);
    assert(radix.to_offset().spec_to_typed(fin.buf) == Some(TypedOffset::Radix(radix)));
    assert(fin.radix_child(radix, x) == Some(new_leaf.to_offset()));
    assert(new_leaf.to_offset().spec_to_typed(fin.buf) == Some(TypedOffset::Leaf(new_leaf)));
    assert(fin.leaf_entry(new_leaf) == Some(
        MemLeaf { key_offset: entry.key_offset, link_offset: head },
    ));
    assert(fin.key_content(entry.key_offset) == Some(key));
    assert(fin.leaf_lookup(new_leaf, key) == Some(head));
    assert(fin.lookup_from(new_leaf.to_offset(), key, trail.len()) == Some(head));
}

/// An insertion that ends at the leaf of another key: radix entries were put
/// between the last radix entry and the leaf, and the key is found below.
pub proof fn lemma_insert_split(
    old: IndexView,
    at_head: IndexView,
    linked: IndexView,
    fin: IndexView,
    trail: Seq<int>,
    key: Seq<u8>,
    value: Option<u64>,
    link: Option<LinkOffset>,
    head: LinkOffset,
)
    requires
        at_head.wf(),
        at_head.rooted(trail, key),
        at_head.links == old.links,
        at_head.links.len() < MAX_DIRTY_INDEX,
        link matches Some(l) ==> at_head.link_usable(l),
        old.lookup(key) == Some(LinkOffset::null()),
        at_head.chained(linked, LinkOffset::null(), value, link, head),
        linked.grafted(fin, trail.last(), nibble(key, trail.len() - 1) as int),
        fin.lookup_from(
            RadixOffset::spec_dirty(trail.last() as nat).to_offset(),
            key,
            (trail.len() - 1) as nat,
        ) == Some(head),
    ensures
        fin.links == old.links_after(key, value, link),
        fin.lookup(key) == Some(old.new_head(key, value, link)),
{
    at_head.lemma_chained(linked, LinkOffset::null(), value, link, head);
    at_head.lemma_rooted_stable(fin, trail, key);
    fin.lemma_rooted(trail, key);
}

} // verus!
