//! What is written reads back.
//!
//! Where the bytes of an entry stand in a file, and the offsets in them name
//! entries of the types that they should, reading at that place gives the
//! entry, its offsets being those that were written.

use vstd::prelude::*;
use crate::entry::MemKey;
use crate::entry::MemLeaf;
use crate::entry::MemLink;
use crate::entry::MemRadix;
use crate::entry::RadixView;
use crate::entry::disk_offset_at;
use crate::offset::DIRTY_OFFSET;
use crate::offset::KeyOffset;
use crate::offset::LinkOffset;
use crate::offset::Offset;
use crate::offset::TYPE_KEY;
use crate::offset::TYPE_LEAF;
use crate::offset::TYPE_LINK;
use crate::vlq::lemma_vlq_bytes_len;
use crate::vlq::lemma_vlq_decode_bytes;
use crate::vlq::vlq_bytes;
use crate::vlq::vlq_decode;

verus! {

/// Whether the bytes `entry` stand at position `pos` of `buf`.
pub open spec fn stands_at(buf: Seq<u8>, pos: int, entry: Seq<u8>) -> bool {
    &&& 0 <= pos
    &&& pos + entry.len() <= buf.len()
    &&& forall|i: int| 0 <= i < entry.len() ==> buf[pos + i] == #[trigger] entry[i]
}

/// Where the encoding of `v` stands inside an entry that stands in a file,
/// it decodes to `v`.
pub proof fn lemma_decode_within(buf: Seq<u8>, pos: int, entry: Seq<u8>, at: int, v: u64)
    requires
        stands_at(buf, pos, entry),
        0 <= at,
        at + vlq_bytes(v as nat).len() <= entry.len(),
        entry.subrange(at, at + vlq_bytes(v as nat).len()) == vlq_bytes(v as nat),
    ensures
        vlq_decode(buf, pos + at) == Some((v, vlq_bytes(v as nat).len() as usize)),
{
    let enc = vlq_bytes(v as nat);
    lemma_vlq_bytes_len(v);
    assert(buf.subrange(pos + at, pos + at + enc.len()) =~= enc) by {
        assert forall|i: int| 0 <= i < enc.len() implies buf.subrange(
            pos + at,
            pos + at + enc.len(),
        )[i] == enc[i] by {
            assert(entry.subrange(at, at + enc.len())[i] == entry[at + i]);
            assert(buf[pos + (at + i)] == entry[at + i]);
        }
    }
    lemma_vlq_decode_bytes(buf, pos + at, v);
}

/// A key entry reads back.
pub proof fn lemma_key_read_back(buf: Seq<u8>, pos: int, key: Seq<u8>)
    requires
        stands_at(buf, pos, MemKey::spec_bytes(key)),
        key.len() <= u64::MAX,
    ensures
        MemKey::spec_read_from(buf, pos) == Some(key),
{
    let entry = MemKey::spec_bytes(key);
    let len = key.len() as u64;
    let enc = vlq_bytes(len as nat);
    lemma_vlq_bytes_len(len);
    assert(buf[pos + 0] == entry[0]);
    let n = enc.len() as int;
    assert(entry.subrange(1, 1 + n) =~= enc);
    lemma_decode_within(buf, pos, entry, 1, len);
    assert(buf.subrange(pos + 1 + n, pos + 1 + n + key.len()) =~= key) by {
        assert forall|i: int| 0 <= i < key.len() implies buf[pos + 1 + n + i] == key[i] by {
            assert(buf[pos + (1 + n + i)] == entry[1 + n + i]);
        }
    }
}

/// A link entry reads back.
pub proof fn lemma_link_read_back(buf: Seq<u8>, pos: int, value: u64, next: u64)
    requires
        stands_at(
            buf,
            pos,
            seq![TYPE_LINK] + vlq_bytes(value as nat) + vlq_bytes(next as nat),
        ),
        next < DIRTY_OFFSET,
        Offset::of(next).fits(buf, TYPE_LINK),
    ensures
        MemLink::spec_read_from(buf, pos) == Some(
            MemLink { value, next_link_offset: LinkOffset::of(Offset::of(next)) },
        ),
{
    let first = vlq_bytes(value as nat);
    let second = vlq_bytes(next as nat);
    let entry = seq![TYPE_LINK] + first + second;
    lemma_vlq_bytes_len(value);
    lemma_vlq_bytes_len(next);
    assert(buf[pos + 0] == entry[0]);
    let n1 = first.len() as int;
    let n2 = second.len() as int;
    assert(entry.subrange(1, 1 + n1) =~= first);
    lemma_decode_within(buf, pos, entry, 1, value);
    assert(entry.subrange(1 + n1, 1 + n1 + n2) =~= second);
    lemma_decode_within(buf, pos, entry, 1 + n1, next);
}

/// A leaf entry reads back.
pub proof fn lemma_leaf_read_back(buf: Seq<u8>, pos: int, key: u64, link: u64)
    requires
        stands_at(buf, pos, seq![TYPE_LEAF] + vlq_bytes(key as nat) + vlq_bytes(link as nat)),
        key < DIRTY_OFFSET,
        link < DIRTY_OFFSET,
        Offset::of(key).fits(buf, TYPE_KEY),
        Offset::of(link).fits(buf, TYPE_LINK),
    ensures
        MemLeaf::spec_read_from(buf, pos) == Some(
            MemLeaf {
                key_offset: KeyOffset::of(Offset::of(key)),
                link_offset: LinkOffset::of(Offset::of(link)),
            },
        ),
{
    let first = vlq_bytes(key as nat);
    let second = vlq_bytes(link as nat);
    let entry = seq![TYPE_LEAF] + first + second;
    lemma_vlq_bytes_len(key);
    lemma_vlq_bytes_len(link);
    assert(buf[pos + 0] == entry[0]);
    let n1 = first.len() as int;
    let n2 = second.len() as int;
    assert(entry.subrange(1, 1 + n1) =~= first);
    lemma_decode_within(buf, pos, entry, 1, key);
    assert(entry.subrange(1 + n1, 1 + n1 + n2) =~= second);
    lemma_decode_within(buf, pos, entry, 1 + n1, link);
}

impl RadixView {
    /// The children as they stand on disk: each translated by `offset_map`.
    pub open spec fn on_disk(self, offset_map: Map<u64, u64>) -> Seq<Offset> {
        Seq::new(16, |c: int| Offset::of(self.children[c].spec_to_disk(offset_map)))
    }

    /// The bytes of the first children are the first bytes of the bytes of
    /// more children.
    pub proof fn lemma_children_bytes_prefix(self, offset_map: Map<u64, u64>, n: nat, m: nat)
        requires
            n <= m,
        ensures
            self.children_bytes(offset_map, n).len() <= self.children_bytes(offset_map, m).len(),
            self.children_bytes(offset_map, m).subrange(
                0,
                self.children_bytes(offset_map, n).len() as int,
            ) == self.children_bytes(offset_map, n),
        decreases m,
    {
        let short = self.children_bytes(offset_map, n);
        if n == m {
            assert(short.subrange(0, short.len() as int) =~= short);
        } else {
            self.lemma_children_bytes_prefix(offset_map, n, (m - 1) as nat);
            let mid = self.children_bytes(offset_map, (m - 1) as nat);
            let long = self.children_bytes(offset_map, m);
            assert(long.subrange(0, short.len() as int) =~= mid.subrange(0, short.len() as int));
        }
    }

    /// The children of a radix entry read back from child `i` on.
    pub proof fn lemma_children_read_back(
        self,
        buf: Seq<u8>,
        pos: int,
        offset_map: Map<u64, u64>,
        i: nat,
    )
        requires
            stands_at(buf, pos, self.spec_bytes(offset_map)),
            self.children.len() == 16,
            i <= 16,
            self.link_bytes(offset_map).len() <= 10,
            forall|c: int|
                0 <= c < 16 ==> (#[trigger] self.children[c]).spec_to_disk(offset_map)
                    < DIRTY_OFFSET,
        ensures
            MemRadix::spec_read_children(
                buf,
                pos,
                i,
                self.child_pos(offset_map, i) as int,
                self.on_disk(offset_map).take(i as int),
            ) == Some(self.on_disk(offset_map)),
        decreases 16 - i,
    {
        let all = self.on_disk(offset_map);
        let entry = self.spec_bytes(offset_map);
        let jt = self.jump_table(offset_map, 16);
        let lb = self.link_bytes(offset_map);
        let cb = self.children_bytes(offset_map, 16);
        if i >= 16 {
            assert(all.take(16) =~= all);
        } else {
            let ii = i as int;
            let child = self.children[ii];
            let here = self.child_pos(offset_map, i) as int;
            self.lemma_children_bytes_len(offset_map, i);
            assert(buf[pos + (1 + ii)] == entry[1 + ii]);
            assert(entry[1 + ii] == jt[ii]);
            assert(jt[ii] == self.jump(offset_map, ii));
            self.lemma_children_read_back(buf, pos, offset_map, i + 1);
            if child.spec_is_null() {
                assert(all.take(ii + 1) =~= all.take(ii).push(Offset::null()));
            } else {
                let disk = child.spec_to_disk(offset_map);
                let enc = vlq_bytes(disk as nat);
                lemma_vlq_bytes_len(disk);
                self.lemma_children_bytes_prefix(offset_map, i + 1, 16);
                let upto = self.children_bytes(offset_map, i + 1);
                let before = self.children_bytes(offset_map, i);
                let skip = before.len() as int;
                let n = enc.len() as int;
                assert(upto == before + enc);
                assert(entry.subrange(here, here + n) =~= enc) by {
                    assert forall|k: int| 0 <= k < n implies entry[here + k] == enc[k] by {
                        assert(entry[here + k] == cb[skip + k]);
                        assert(cb.subrange(0, upto.len() as int)[skip + k] == cb[skip + k]);
                        assert(upto[skip + k] == enc[k]);
                    }
                }
                lemma_decode_within(buf, pos, entry, here, disk);
                assert(disk_offset_at(buf, pos + here) == Some((Offset::of(disk), n as usize)));
                assert(all.take(ii + 1) =~= all.take(ii).push(Offset::of(disk)));
                assert(self.child_pos(offset_map, i + 1) == here + n);
            }
        }
    }

    /// A radix entry reads back, and its jump table has a byte for each child
    /// that is written and for no other.
    pub proof fn lemma_radix_read_back(self, buf: Seq<u8>, pos: int, offset_map: Map<u64, u64>)
        requires
            stands_at(buf, pos, self.spec_bytes(offset_map)),
            self.children.len() == 16,
            self.link.to_offset().spec_to_disk(offset_map) < DIRTY_OFFSET,
            Offset::of(self.link.to_offset().spec_to_disk(offset_map)).fits(buf, TYPE_LINK),
            forall|c: int|
                0 <= c < 16 ==> (#[trigger] self.children[c]).spec_to_disk(offset_map)
                    < DIRTY_OFFSET,
        ensures
            MemRadix::spec_read_from(buf, pos) == Some(
                RadixView {
                    children: self.on_disk(offset_map),
                    link: LinkOffset::of(
                        Offset::of(self.link.to_offset().spec_to_disk(offset_map)),
                    ),
                },
            ),
            forall|c: int|
                0 <= c < 16 ==> (buf[pos + 1 + c] == 0) == (#[trigger] self.children[c]).spec_is_null(),
    {
        let entry = self.spec_bytes(offset_map);
        let link = self.link.to_offset().spec_to_disk(offset_map);
        let lb = self.link_bytes(offset_map);
        let jt = self.jump_table(offset_map, 16);
        lemma_vlq_bytes_len(link);
        assert(buf[pos + 0] == entry[0]);
        assert(entry.subrange(17, 17 + lb.len() as int) =~= lb);
        lemma_decode_within(buf, pos, entry, 17, link);
        self.lemma_children_read_back(buf, pos, offset_map, 0);
        assert(self.on_disk(offset_map).take(0) =~= Seq::<Offset>::empty());
        assert(self.children_bytes(offset_map, 0).len() == 0);
        assert forall|c: int| 0 <= c < 16 implies (buf[pos + 1 + c] == 0) == (
        #[trigger] self.children[c]).spec_is_null() by {
            self.lemma_children_bytes_len(offset_map, c as nat);
            assert(buf[pos + (1 + c)] == entry[1 + c]);
            assert(entry[1 + c] == jt[c]);
        }
    }
}

} // verus!
