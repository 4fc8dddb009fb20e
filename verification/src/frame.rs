//! What an insertion leaves alone.
//!
//! In a sound tree an insertion changes what a search for its key finds and
//! nothing that a search for another key finds, and the tree is sound after
//! it. These lemmas say so for each step of an insertion: the staging of a
//! radix entry on the way, and each of the ways in which an insertion ends.

use vstd::prelude::*;
use crate::base16::nibble;
use crate::base16::nibble_count;
use crate::entry::MemLeaf;
use crate::entry::MemRadix;
use crate::offset::KeyOffset;
use crate::offset::LeafOffset;
use crate::offset::LinkOffset;
use crate::offset::MAX_DIRTY_INDEX;
use crate::offset::Offset;
use crate::offset::RadixOffset;
use crate::offset::TYPE_LINK;
use crate::offset::TypedOffset;
use crate::sound::key_prefix;
use crate::sound::lemma_nibble_range;
use crate::sound::lemma_prefix_whole;
use crate::sound::under;
use crate::state::IndexView;
use crate::state::lemma_radix_read;

verus! {

/// Staging the radix entry that a walk has arrived at keeps a sound tree
/// sound and changes what no search finds. Returns the paths of the staged
/// radix entries: the staged copy has the digits of the walk as its path.
pub proof fn lemma_staged_sound(
    at_head: IndexView,
    staged: IndexView,
    radix: RadixOffset,
    arrived: Offset,
    trail: Seq<int>,
    key: Seq<u8>,
    last_child: u8,
    paths: Seq<Seq<u8>>,
) -> (next_paths: Seq<Seq<u8>>)
    requires
        at_head.sound_with(paths),
        staged.wf(),
        at_head.radixes.len() < MAX_DIRTY_INDEX,
        arrived.spec_to_typed(at_head.buf) == Some(TypedOffset::Radix(RadixOffset::of(arrived))),
        trail.len() <= nibble_count(key),
        trail.len() == 0 ==> arrived == at_head.root.to_offset(),
        trail.len() > 0 ==> {
            &&& 0 <= trail.last() < at_head.radixes.len()
            &&& paths[trail.last()] == key_prefix(key, (trail.len() - 1) as nat)
            &&& last_child == nibble(key, trail.len() - 1)
            &&& last_child < 16
            &&& at_head.radixes[trail.last()].offsets@[last_child as int] == arrived
        },
        arrived.spec_is_dirty() ==> radix == RadixOffset::of(arrived) && staged == at_head,
        !arrived.spec_is_dirty() ==> {
            &&& radix == RadixOffset::spec_dirty(at_head.radixes.len())
            &&& staged.radixes.len() == at_head.radixes.len() + 1
            &&& MemRadix::spec_read_from(at_head.buf, arrived.raw() as int) == Some(
                staged.radixes.last()@,
            )
            &&& staged == if trail.len() == 0 {
                at_head.push_radix(staged.radixes.last()).set_root(radix)
            } else {
                at_head.push_radix(staged.radixes.last()).set_child(
                    trail.last(),
                    last_child as int,
                    radix.to_offset(),
                )
            }
        },
    ensures
        staged.sound_with(next_paths),
        at_head.agrees(staged),
        next_paths.len() >= paths.len(),
        forall|i: int| 0 <= i < paths.len() ==> next_paths[i] == paths[i],
        radix.spec_dirty_index() < next_paths.len(),
        next_paths[radix.spec_dirty_index() as int] == key_prefix(key, trail.len()),
        at_head.fits_file() ==> staged.fits_file(),
{
    let depth = trail.len();
    let path = key_prefix(key, depth);
    if depth > 0 {
        let t = trail.last();
        assert(at_head.child_sound(
            paths,
            at_head.radixes[t].offsets@[last_child as int],
            paths[t].push(last_child),
        ));
        assert(paths[t].push(last_child) =~= path);
    } else {
        assert(path =~= Seq::<u8>::empty());
    }
    assert(at_head.child_sound(paths, arrived, path));
    if arrived.spec_is_dirty() {
        paths
    } else {
        let n = at_head.radixes.len() as int;
        let next_paths = paths.push(path);
        RadixOffset::lemma_spec_dirty(n as nat);
        lemma_radix_read(at_head.buf, arrived.raw() as int);
        let entry = staged.radixes[n];
        if at_head.fits_file() {
            assert forall|r: int| 0 <= r < staged.radixes.len() implies (
            #[trigger] staged.radixes[r]).link_offset.to_offset().fits(staged.buf, TYPE_LINK) by {
                if r < n {
                    assert(at_head.radixes[r].link_offset.to_offset().fits(at_head.buf, TYPE_LINK));
                } else {
                    assert(entry@.link == staged.radixes[r].link_offset);
                }
            }
            assert(staged.fits_file());
        }
        let at = if depth == 0 {
            -1
        } else {
            trail.last()
        };
        assert(at_head.kept(staged, at));
        assert forall|r: int, c: int|
            at_head.radixes.len() <= r < staged.radixes.len() && 0 <= c
                < 16 implies staged.child_sound(
            next_paths,
            #[trigger] staged.radixes[r].offsets@[c],
            next_paths[r].push(c as u8),
        ) by {
            assert(entry@.children[c] == staged.radixes[r].offsets@[c]);
        }
        at_head.lemma_sound_kept(staged, paths, next_paths, at);
        assert forall|other: Seq<u8>| #[trigger] at_head.lookup(other) == staged.lookup(other) by {
            if depth == 0 {
                at_head.lemma_copy_walk(staged, arrived, n, other, 0);
            } else {
                at_head.lemma_copy_walk(staged, arrived, n, other, depth);
                assert(key_prefix(other, 0) =~= Seq::<u8>::empty());
                at_head.lemma_graft_walk(staged, paths, at, other, 0, at_head.root.to_offset());
            }
        }
        next_paths
    }
}

/// The choice of a head for a chain keeps what is staged fitting the file,
/// and the head names a link.
pub proof fn lemma_chained_fits(
    before: IndexView,
    linked: IndexView,
    link_offset: LinkOffset,
    value: Option<u64>,
    link: Option<LinkOffset>,
    head: LinkOffset,
)
    requires
        before.chained(linked, link_offset, value, link, head),
        before.links.len() < MAX_DIRTY_INDEX,
        link matches Some(l) ==> before.link_usable(l),
        link_offset.to_offset().fits(before.buf, TYPE_LINK),
    ensures
        before.fits_file() ==> linked.fits_file(),
        head.to_offset().fits(linked.buf, TYPE_LINK),
        linked.buf == before.buf,
{
    LinkOffset::lemma_spec_dirty(before.links.len());
    if before.fits_file() {
        assert forall|m: int| 0 <= m < linked.links.len() implies (
        #[trigger] linked.links[m]).next_link_offset.to_offset().fits(linked.buf, TYPE_LINK) by {
            if m < before.links.len() {
                assert(before.links[m].next_link_offset.to_offset().fits(before.buf, TYPE_LINK));
            }
        }
        assert forall|r: int| 0 <= r < linked.radixes.len() implies (
        #[trigger] linked.radixes[r]).link_offset.to_offset().fits(linked.buf, TYPE_LINK) by {
            assert(before.radixes[r].link_offset.to_offset().fits(before.buf, TYPE_LINK));
        }
        assert forall|l: int| 0 <= l < linked.leafs.len() implies (
        #[trigger] linked.leafs[l]).key_offset.to_offset().fits(
            linked.buf,
            crate::offset::TYPE_KEY,
        ) && linked.leafs[l].link_offset.to_offset().fits(linked.buf, TYPE_LINK) by {
            assert(before.leafs[l].key_offset.to_offset().fits(
                before.buf,
                crate::offset::TYPE_KEY,
            ));
        }
        assert forall|i: int| 0 <= i < linked.keys.len() implies (#[trigger] linked.keys[i]).len()
            <= u64::MAX by {
            assert(before.keys[i].len() <= u64::MAX);
        }
    }
}

/// The choice of a head for a chain keeps a sound tree sound and changes
/// what no search finds.
pub proof fn lemma_chained_sound(
    before: IndexView,
    linked: IndexView,
    paths: Seq<Seq<u8>>,
    link_offset: LinkOffset,
    value: Option<u64>,
    link: Option<LinkOffset>,
    head: LinkOffset,
)
    requires
        before.sound_with(paths),
        linked.wf(),
        before.radixes.len() > 0,
        before.chained(linked, link_offset, value, link, head),
        before.links.len() < MAX_DIRTY_INDEX,
        link matches Some(l) ==> before.link_usable(l),
        link_offset.to_offset().fits(before.buf, TYPE_LINK),
    ensures
        linked.sound_with(paths),
        before.agrees(linked),
        before.fits_file() ==> linked.fits_file(),
        head.to_offset().fits(linked.buf, TYPE_LINK),
{
    lemma_chained_fits(before, linked, link_offset, value, link, head);
    assert(before.kept(linked, 0));
    before.lemma_sound_kept(linked, paths, paths, 0);
    assert forall|other: Seq<u8>| #[trigger] before.lookup(other) == linked.lookup(other) by {
        assert(key_prefix(other, 0) =~= Seq::<u8>::empty());
        before.lemma_graft_walk(linked, paths, 0, other, 0, before.root.to_offset());
    }
}

/// An insertion that ends at a radix entry keeps a sound tree sound and
/// changes what no search for another key finds.
pub proof fn lemma_sound_at_radix(
    staged: IndexView,
    linked: IndexView,
    fin: IndexView,
    paths: Seq<Seq<u8>>,
    at: int,
    key: Seq<u8>,
    value: Option<u64>,
    link: Option<LinkOffset>,
    head: LinkOffset,
)
    requires
        staged.sound_with(paths),
        fin.wf(),
        0 <= at < staged.radixes.len(),
        paths[at] == key_prefix(key, nibble_count(key)),
        staged.chained(linked, staged.radixes[at].link_offset, value, link, head),
        fin == linked.set_radix_link(at, head),
        staged.links.len() < MAX_DIRTY_INDEX,
        link matches Some(l) ==> staged.link_usable(l),
    ensures
        fin.sound_with(paths),
        staged.agrees_but(fin, key),
        staged.fits_file() ==> fin.fits_file(),
{
    if staged.fits_file() {
        assert(staged.radixes[at].link_offset.to_offset().fits(staged.buf, TYPE_LINK));
        lemma_chained_fits(staged, linked, staged.radixes[at].link_offset, value, link, head);
        assert forall|r: int| 0 <= r < fin.radixes.len() implies (
        #[trigger] fin.radixes[r]).link_offset.to_offset().fits(fin.buf, TYPE_LINK) by {
            if r != at {
                assert(linked.radixes[r].link_offset.to_offset().fits(linked.buf, TYPE_LINK));
            }
        }
        assert(fin.fits_file());
    }
    assert(staged.kept(fin, at));
    staged.lemma_sound_kept(fin, paths, paths, at);
    assert forall|other: Seq<u8>| other != key implies #[trigger] staged.lookup(other)
        == fin.lookup(other) by {
        if under(paths[at], other) && nibble_count(other) == paths[at].len() {
            lemma_prefix_whole(other, key);
        }
        assert(key_prefix(other, 0) =~= Seq::<u8>::empty());
        staged.lemma_graft_walk(fin, paths, at, other, 0, staged.root.to_offset());
    }
}

/// An insertion that ends with a new leaf keeps a sound tree sound and
/// changes what no search for another key finds.
pub proof fn lemma_sound_new_leaf(
    staged: IndexView,
    linked: IndexView,
    fin: IndexView,
    paths: Seq<Seq<u8>>,
    at: int,
    key: Seq<u8>,
    value: Option<u64>,
    link: Option<LinkOffset>,
    head: LinkOffset,
)
    requires
        staged.sound_with(paths),
        fin.wf(),
        0 <= at < staged.radixes.len(),
        paths[at].len() < nibble_count(key),
        paths[at] == key_prefix(key, paths[at].len()),
        staged.leafs.len() < MAX_DIRTY_INDEX,
        staged.keys.len() < MAX_DIRTY_INDEX,
        staged.radixes[at].offsets@[nibble(key, paths[at].len() as int) as int].spec_is_null(),
        staged.chained(linked, LinkOffset::null(), value, link, head),
        fin == linked.push_key(key).push_leaf(
            MemLeaf { key_offset: KeyOffset::spec_dirty(linked.keys.len()), link_offset: head },
        ).set_child(
            at,
            nibble(key, paths[at].len() as int) as int,
            LeafOffset::spec_dirty(linked.leafs.len()).to_offset(),
        ),
        staged.links.len() < MAX_DIRTY_INDEX,
        link matches Some(l) ==> staged.link_usable(l),
        key.len() <= u64::MAX,
    ensures
        fin.sound_with(paths),
        staged.agrees_but(fin, key),
        staged.fits_file() ==> fin.fits_file(),
{
    let depth = paths[at].len();
    let x = nibble(key, depth as int) as int;
    lemma_nibble_range(key, depth as int);
    LeafOffset::lemma_spec_dirty(linked.leafs.len());
    KeyOffset::lemma_spec_dirty(linked.keys.len());
    let leaf = LeafOffset::spec_dirty(linked.leafs.len());
    if staged.fits_file() {
        lemma_chained_fits(staged, linked, LinkOffset::null(), value, link, head);
        assert forall|r: int| 0 <= r < fin.radixes.len() implies (
        #[trigger] fin.radixes[r]).link_offset.to_offset().fits(fin.buf, TYPE_LINK) by {
            assert(linked.radixes[r].link_offset.to_offset().fits(linked.buf, TYPE_LINK));
        }
        assert forall|l: int| 0 <= l < fin.leafs.len() implies (
        #[trigger] fin.leafs[l]).key_offset.to_offset().fits(fin.buf, crate::offset::TYPE_KEY)
            && fin.leafs[l].link_offset.to_offset().fits(fin.buf, TYPE_LINK) by {
            if l < linked.leafs.len() {
                assert(linked.leafs[l].key_offset.to_offset().fits(
                    linked.buf,
                    crate::offset::TYPE_KEY,
                ));
            }
        }
        assert forall|i: int| 0 <= i < fin.keys.len() implies (#[trigger] fin.keys[i]).len()
            <= u64::MAX by {
            if i < linked.keys.len() {
                assert(linked.keys[i].len() <= u64::MAX);
            }
        }
        assert(fin.fits_file());
    }
    assert(fin.radixes[at].offsets@[x] == leaf.to_offset());
    assert(staged.kept(fin, at));
    assert(paths[at].push(x as u8) =~= key_prefix(key, depth + 1));
    assert(fin.child_sound(paths, leaf.to_offset(), paths[at].push(x as u8)));
    assert forall|c: int| 0 <= c < 16 implies (#[trigger] fin.radixes[at].offsets@[c])
        == staged.radixes[at].offsets@[c] || fin.child_sound(
        paths,
        fin.radixes[at].offsets@[c],
        paths[at].push(c as u8),
    ) by {
        if c != x {
            assert(fin.radixes[at].offsets@[c] == staged.radixes[at].offsets@[c]);
        }
    }
    staged.lemma_sound_kept(fin, paths, paths, at);
    assert forall|other: Seq<u8>| other != key implies #[trigger] staged.lookup(other)
        == fin.lookup(other) by {
        assert(leaf.to_offset().spec_to_typed(fin.buf) == Some(TypedOffset::Leaf(leaf)));
        assert(fin.leaf_lookup(leaf, other) == Some(LinkOffset::null()));
        assert forall|c: int| 0 <= c < 16 && c != x implies (#[trigger] fin.radixes[at].offsets@[c])
            == staged.radixes[at].offsets@[c] by {}
        assert(staged.same_for(fin, paths, at, other));
        assert(key_prefix(other, 0) =~= Seq::<u8>::empty());
        staged.lemma_graft_walk(fin, paths, at, other, 0, staged.root.to_offset());
    }
}

/// An insertion that ends at the leaf of its key keeps a sound tree sound
/// and changes what no search for another key finds.
pub proof fn lemma_sound_at_leaf(
    at_head: IndexView,
    linked: IndexView,
    fin: IndexView,
    paths: Seq<Seq<u8>>,
    at: int,
    key: Seq<u8>,
    value: Option<u64>,
    link: Option<LinkOffset>,
    leaf: LeafOffset,
    head: LinkOffset,
)
    requires
        at_head.sound_with(paths),
        fin.wf(),
        0 <= at < at_head.radixes.len(),
        paths[at].len() < nibble_count(key),
        paths[at] == key_prefix(key, paths[at].len()),
        at_head.leafs.len() < MAX_DIRTY_INDEX,
        at_head.radixes[at].offsets@[nibble(key, paths[at].len() as int) as int]
            == leaf.to_offset(),
        leaf.to_offset().spec_to_typed(at_head.buf) == Some(TypedOffset::Leaf(leaf)),
        at_head.leaf_entry(leaf) is Some,
        at_head.key_content(at_head.leaf_entry(leaf).unwrap().key_offset) == Some(key),
        at_head.chained(linked, at_head.leaf_entry(leaf).unwrap().link_offset, value, link, head),
        fin == if leaf.spec_is_dirty() {
            linked.set_leaf_link(leaf.spec_dirty_index() as int, head).set_child(
                at,
                nibble(key, paths[at].len() as int) as int,
                leaf.to_offset(),
            )
        } else {
            linked.push_leaf(
                MemLeaf {
                    key_offset: at_head.leaf_entry(leaf).unwrap().key_offset,
                    link_offset: head,
                },
            ).set_child(
                at,
                nibble(key, paths[at].len() as int) as int,
                LeafOffset::spec_dirty(linked.leafs.len()).to_offset(),
            )
        },
        at_head.links.len() < MAX_DIRTY_INDEX,
        link matches Some(l) ==> at_head.link_usable(l),
    ensures
        fin.sound_with(paths),
        at_head.agrees_but(fin, key),
        at_head.fits_file() ==> fin.fits_file(),
{
    let depth = paths[at].len();
    let x = nibble(key, depth as int) as int;
    lemma_nibble_range(key, depth as int);
    let entry = at_head.leaf_entry(leaf).unwrap();
    LeafOffset::lemma_spec_dirty(linked.leafs.len());
    if leaf.spec_is_dirty() {
        leaf.lemma_tagged();
        assert(at_head.leaf_ok(leaf.spec_dirty_index() as int));
    }
    if at_head.fits_file() {
        if leaf.spec_is_dirty() {
            assert(at_head.leafs[leaf.spec_dirty_index() as int].key_offset.to_offset().fits(
                at_head.buf,
                crate::offset::TYPE_KEY,
            ));
        }
        assert(entry.link_offset.to_offset().fits(at_head.buf, TYPE_LINK));
        assert(entry.key_offset.to_offset().fits(at_head.buf, crate::offset::TYPE_KEY));
        lemma_chained_fits(at_head, linked, entry.link_offset, value, link, head);
        assert forall|r: int| 0 <= r < fin.radixes.len() implies (
        #[trigger] fin.radixes[r]).link_offset.to_offset().fits(fin.buf, TYPE_LINK) by {
            assert(linked.radixes[r].link_offset.to_offset().fits(linked.buf, TYPE_LINK));
        }
        assert forall|l: int| 0 <= l < fin.leafs.len() implies (
        #[trigger] fin.leafs[l]).key_offset.to_offset().fits(fin.buf, crate::offset::TYPE_KEY)
            && fin.leafs[l].link_offset.to_offset().fits(fin.buf, TYPE_LINK) by {
            if l < linked.leafs.len() {
                assert(linked.leafs[l].key_offset.to_offset().fits(
                    linked.buf,
                    crate::offset::TYPE_KEY,
                ));
            }
        }
        assert(fin.fits_file());
    }
    let new_leaf = if leaf.spec_is_dirty() {
        leaf
    } else {
        LeafOffset::spec_dirty(linked.leafs.len())
    };
    assert(fin.radixes[at].offsets@[x] == new_leaf.to_offset());
    assert(at_head.kept(fin, at));
    assert(paths[at].push(x as u8) =~= key_prefix(key, depth + 1));
    assert(fin.leaf_entry(new_leaf) == Some(
        MemLeaf { key_offset: entry.key_offset, link_offset: head },
    ));
    assert(fin.key_content(entry.key_offset) == Some(key));
    assert(fin.child_sound(paths, new_leaf.to_offset(), paths[at].push(x as u8)));
    assert forall|c: int| 0 <= c < 16 implies (#[trigger] fin.radixes[at].offsets@[c])
        == at_head.radixes[at].offsets@[c] || fin.child_sound(
        paths,
        fin.radixes[at].offsets@[c],
        paths[at].push(c as u8),
    ) by {
        if c != x {
            assert(fin.radixes[at].offsets@[c] == at_head.radixes[at].offsets@[c]);
        }
    }
    at_head.lemma_sound_kept(fin, paths, paths, at);
    assert forall|other: Seq<u8>| other != key implies #[trigger] at_head.lookup(other)
        == fin.lookup(other) by {
        assert(new_leaf.to_offset().spec_to_typed(fin.buf) == Some(TypedOffset::Leaf(new_leaf)));
        assert(fin.leaf_lookup(new_leaf, other) == Some(LinkOffset::null()));
        assert(at_head.leaf_lookup(leaf, other) == Some(LinkOffset::null()));
        assert forall|c: int| 0 <= c < 16 && c != x implies (#[trigger] fin.radixes[at].offsets@[c])
            == at_head.radixes[at].offsets@[c] by {}
        assert(at_head.same_for(fin, paths, at, other));
        assert(at_head.kept_for(fin, at, other));
        assert(key_prefix(other, 0) =~= Seq::<u8>::empty());
        at_head.lemma_graft_walk(fin, paths, at, other, 0, at_head.root.to_offset());
    }
}

} // verus!
