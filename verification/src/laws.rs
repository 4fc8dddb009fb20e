//! What holds of every index.

use vstd::prelude::*;
use crate::base16::nibble;
use crate::base16::nibble_count;
use crate::entry::MemLeaf;
use crate::entry::MemLink;
use crate::entry::MemRadix;
use crate::entry::RadixView;
use crate::offset::LeafOffset;
use crate::offset::LinkOffset;
use crate::offset::Offset;
use crate::offset::RadixOffset;
use crate::offset::TYPE_RADIX;
use crate::offset::TypedOffset;
use crate::offset::type_at;
use crate::sound::key_prefix;
use crate::sound::lemma_nibble_range;
use crate::state::IndexView;
use crate::state::lemma_radix_read;
use crate::state::opened;

verus! {

/// The values that `entries` insert for `key`, the last inserted first.
pub open spec fn values_of(entries: Seq<(Seq<u8>, u64)>, key: Seq<u8>) -> Seq<u64>
    decreases entries.len(),
{
    if entries.len() == 0 {
        Seq::empty()
    } else {
        let before = values_of(entries.drop_last(), key);
        if entries.last().0 == key {
            seq![entries.last().1] + before
        } else {
            before
        }
    }
}

/// Whether each of `states` but the first is the one before it after the
/// insertion of the entry of `entries` with its place.
pub open spec fn inserted_all(states: Seq<IndexView>, entries: Seq<(Seq<u8>, u64)>) -> bool {
    &&& states.len() == entries.len() + 1
    &&& forall|i: int|
        0 <= i < entries.len() ==> {
            &&& (#[trigger] states[i]).inserts(
                states[i + 1],
                entries[i].0,
                Some(entries[i].1),
                None,
            )
            &&& states[i].sound() ==> states[i + 1].sound() && states[i].agrees_but(
                states[i + 1],
                entries[i].0,
            )
        }
}

impl IndexView {
    /// The value that `LinkOffset::value` reads is the value of the link
    /// entry.
    pub proof fn law_link_value(self, link: LinkOffset)
        requires
            self.link_entry(link) is Some,
        ensures
            self.link_value(link) == Some(self.link_entry(link).unwrap().value),
    {
    }

    /// An index that was opened on a file without bytes is sound and holds
    /// no key.
    pub proof fn law_fresh(self, read_only: bool)
        requires
            opened(Seq::empty(), 0, read_only, self),
        ensures
            self.wf(),
            self.sound(),
            self.holds_nothing(),
    {
        RadixOffset::lemma_spec_dirty(0);
        let paths = seq![Seq::<u8>::empty()];
        assert(self.radixes[0]@ == RadixView::empty());
        assert forall|c: int| 0 <= c < 16 implies (#[trigger] self.radixes[0].offsets@[c])
            == Offset::null() by {
            assert(self.radixes[0]@.children[c] == Offset::null());
        }
        assert(self.radix_ok(0));
        assert(self.wf());
        assert(self.sound_with(paths));
        assert forall|key: Seq<u8>| #[trigger] self.lookup(key) == Some(LinkOffset::null()) by {
            let root = self.root;
            assert(root.to_offset().spec_to_typed(self.buf) == Some(TypedOffset::Radix(root)));
            if nibble_count(key) > 0 {
                lemma_nibble_range(key, 0);
                let c = nibble(key, 0) as int;
                assert(self.radix_child(root, c) == Some(Offset::null()));
                assert(self.lookup_from(Offset::null(), key, 1) == Some(LinkOffset::null()));
            } else {
                assert(self.radix_link(root) == Some(LinkOffset::null()));
            }
        }
    }

    /// An insertion that stands at a sound child finds every entry on its
    /// way intact.
    pub proof fn lemma_insertable_walk(
        self,
        paths: Seq<Seq<u8>>,
        offset: Offset,
        key: Seq<u8>,
        step: nat,
    )
        requires
            self.sound_with(paths),
            step <= nibble_count(key),
            !offset.spec_is_null(),
            self.child_sound(paths, offset, key_prefix(key, step)),
            step == 0 ==> offset.spec_type_int(self.buf) == Some(TYPE_RADIX),
        ensures
            self.insertable_from(offset, key, step),
        decreases nibble_count(key) - step,
    {
        let path = key_prefix(key, step);
        if offset.spec_is_dirty() {
            if offset.spec_dirty_type() == TYPE_RADIX {
                let r = offset.spec_dirty_index() as int;
                let radix = RadixOffset::of(offset);
                assert(offset.spec_to_typed(self.buf) == Some(TypedOffset::Radix(radix)));
                if step < nibble_count(key) {
                    lemma_nibble_range(key, step as int);
                    let c = nibble(key, step as int) as int;
                    let child = self.radixes[r].offsets@[c];
                    assert(self.radixes[r]@.children[c] == child);
                    assert(self.child_sound(paths, child, paths[r].push(c as u8)));
                    assert(paths[r].push(c as u8) =~= key_prefix(key, step + 1));
                    if !child.spec_is_null() {
                        self.lemma_insertable_walk(paths, child, key, step + 1);
                    }
                }
            } else {
                let leaf = LeafOffset::of(offset);
                assert(offset.spec_to_typed(self.buf) == Some(TypedOffset::Leaf(leaf)));
            }
        } else {
            let pos = offset.raw() as int;
            if type_at(self.buf, pos) == Some(TYPE_RADIX) {
                let radix = RadixOffset::of(offset);
                assert(offset.spec_to_typed(self.buf) == Some(TypedOffset::Radix(radix)));
                lemma_radix_read(self.buf, pos);
                let entry = MemRadix::spec_read_from(self.buf, pos).unwrap();
                if step < nibble_count(key) {
                    lemma_nibble_range(key, step as int);
                    let c = nibble(key, step as int) as int;
                    let child = entry.children[c];
                    assert(path.push(c as u8) =~= key_prefix(key, step + 1));
                    if !child.spec_is_null() {
                        self.lemma_insertable_walk(paths, child, key, step + 1);
                    }
                }
            } else {
                let leaf = LeafOffset::of(offset);
                assert(offset.spec_to_typed(self.buf) == Some(TypedOffset::Leaf(leaf)));
                let entry = MemLeaf::spec_read_from(self.buf, pos).unwrap();
                assert(!entry.key_offset.spec_is_dirty());
            }
        }
    }

    /// An insertion into a sound index succeeds, whatever the key, where the
    /// chain that it is given, if any, is one of the index.
    pub proof fn law_sound_insertable(self, key: Seq<u8>, link: Option<LinkOffset>)
        requires
            self.sound(),
            link matches Some(l) ==> self.link_usable(l),
        ensures
            self.insertable(key, link),
    {
        let paths = choose|paths: Seq<Seq<u8>>| self.sound_with(paths);
        assert(key_prefix(key, 0) =~= Seq::<u8>::empty());
        self.lemma_insertable_walk(paths, self.root.to_offset(), key, 0);
    }

    /// A chain stays what it is where the bytes of the file stay and links
    /// are only staged behind those that are staged.
    pub proof fn law_chain_kept(self, next: IndexView, link: LinkOffset, values: Seq<u64>)
        requires
            next.buf == self.buf,
            self.links.len() <= next.links.len(),
            forall|i: int| 0 <= i < self.links.len() ==> next.links[i] == self.links[i],
            self.is_chain(link, values),
        ensures
            next.is_chain(link, values),
        decreases values.len(),
    {
        if values.len() > 0 {
            let entry = self.link_entry(link).unwrap();
            self.law_chain_kept(next, entry.next_link_offset, values.drop_first());
        }
    }

    /// After the insertion of a value for a key, the index holds for the key
    /// the value and, behind it, the values that it held before.
    pub proof fn law_insert_prepends(self, next: IndexView, key: Seq<u8>, value: u64, values: Seq<u64>)
        requires
            self.holds(key, values),
            self.inserts(next, key, Some(value), None),
        ensures
            next.holds(key, seq![value] + values),
    {
        let tail = self.lookup(key).unwrap();
        let head = LinkOffset::spec_dirty(self.links.len());
        LinkOffset::lemma_spec_dirty(self.links.len());
        assert(next.links.len() == self.links.len() + 1);
        assert(next.link_entry(head) == Some(MemLink { value, next_link_offset: tail }));
        self.law_chain_kept(next, tail, values);
        assert((seq![value] + values).drop_first() =~= values);
    }

    /// After an insertion for a key, a sound index holds for every other key
    /// the values that it held before.
    pub proof fn law_insert_keeps(
        self,
        next: IndexView,
        key: Seq<u8>,
        value: Option<u64>,
        link: Option<LinkOffset>,
        other: Seq<u8>,
        values: Seq<u64>,
    )
        requires
            self.inserts(next, key, value, link),
            self.agrees_but(next, key),
            other != key,
            self.holds(other, values),
        ensures
            next.holds(other, values),
    {
        assert(self.lookup(other) == next.lookup(other));
        self.law_chain_kept(next, self.lookup(other).unwrap(), values);
    }
}

/// After any number of insertions into a sound index, the index is sound and
/// holds for a key the values that were inserted for it, the last inserted
/// first, and behind them the values that it held for the key before.
pub proof fn law_inserted_onto(
    states: Seq<IndexView>,
    entries: Seq<(Seq<u8>, u64)>,
    key: Seq<u8>,
    base: Seq<u64>,
)
    requires
        inserted_all(states, entries),
        states[0].sound(),
        states[0].holds(key, base),
    ensures
        states.last().sound(),
        states.last().holds(key, values_of(entries, key) + base),
    decreases entries.len(),
{
    if entries.len() == 0 {
        assert(values_of(entries, key) + base =~= base);
    } else {
        let n = entries.len() as int;
        let before_states = states.drop_last();
        let before_entries = entries.drop_last();
        assert forall|i: int| 0 <= i < before_entries.len() implies {
            &&& (#[trigger] before_states[i]).inserts(
                before_states[i + 1],
                before_entries[i].0,
                Some(before_entries[i].1),
                None,
            )
            &&& before_states[i].sound() ==> before_states[i + 1].sound()
                && before_states[i].agrees_but(before_states[i + 1], before_entries[i].0)
        } by {
            assert(states[i].inserts(states[i + 1], entries[i].0, Some(entries[i].1), None));
        }
        law_inserted_onto(before_states, before_entries, key, base);
        let prev = states[n - 1];
        let last = states[n];
        assert(before_states.last() == prev);
        assert(states.last() == last);
        let inserted = entries[n - 1].0;
        let value = entries[n - 1].1;
        let held = values_of(before_entries, key) + base;
        assert(prev.inserts(last, inserted, Some(value), None));
        if inserted == key {
            prev.law_insert_prepends(last, key, value, held);
            assert(seq![value] + held =~= values_of(entries, key) + base);
        } else {
            prev.law_insert_keeps(last, inserted, Some(value), None, key, held);
        }
    }
}

/// After any number of insertions into a sound index that held no key, the
/// index holds for every key the values that were inserted for it, the last
/// inserted first, and for a key that was never inserted none.
pub proof fn law_inserted_all(states: Seq<IndexView>, entries: Seq<(Seq<u8>, u64)>)
    requires
        inserted_all(states, entries),
        states[0].sound(),
        states[0].holds_nothing(),
    ensures
        states.last().sound(),
        forall|key: Seq<u8>| #[trigger] states.last().holds(key, values_of(entries, key)),
{
    law_inserted_onto(states, entries, Seq::empty(), Seq::empty());
    assert forall|key: Seq<u8>| #[trigger] states.last().holds(key, values_of(entries, key)) by {
        assert(states[0].lookup(key) == Some(LinkOffset::null()));
        law_inserted_onto(states, entries, key, Seq::empty());
        assert(values_of(entries, key) + Seq::<u64>::empty() =~= values_of(entries, key));
    }
}

} // verus!
