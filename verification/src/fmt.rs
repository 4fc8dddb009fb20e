//! The text of an index, for a reader who wants to see what it holds.
//!
//! The text lists the entries on disk, found by walking the file from entry
//! to entry, and then the staged entries. Each entry read from disk is turned
//! into bytes again; where the bytes are not those of the file, the text says
//! so.

use vstd::prelude::*;
use std::collections::HashMap;
use crate::entry::MemKey;
use crate::entry::MemLeaf;
use crate::entry::MemLink;
use crate::entry::MemRadix;
use crate::entry::MemRoot;
use crate::entry::RadixView;
use crate::index::Index;
use crate::index::same_bytes;
use crate::offset::Offset;
use crate::offset::TYPE_HEAD;
use crate::offset::TYPE_KEY;
use crate::offset::TYPE_LEAF;
use crate::offset::TYPE_LINK;
use crate::offset::TYPE_RADIX;
use crate::offset::TYPE_ROOT;
use crate::state::IndexView;
use crate::state::lemma_radix_read;

verus! {

/// The text of a digit below sixteen, letters in upper case.
pub open spec fn digit_text(d: int) -> Seq<char> {
    if d == 0 {
        "0"@
    } else if d == 1 {
        "1"@
    } else if d == 2 {
        "2"@
    } else if d == 3 {
        "3"@
    } else if d == 4 {
        "4"@
    } else if d == 5 {
        "5"@
    } else if d == 6 {
        "6"@
    } else if d == 7 {
        "7"@
    } else if d == 8 {
        "8"@
    } else if d == 9 {
        "9"@
    } else if d == 10 {
        "A"@
    } else if d == 11 {
        "B"@
    } else if d == 12 {
        "C"@
    } else if d == 13 {
        "D"@
    } else if d == 14 {
        "E"@
    } else {
        "F"@
    }
}

/// The decimal text of `n`.
pub open spec fn decimal(n: nat) -> Seq<char>
    decreases n,
{
    if n < 10 {
        digit_text(n as int)
    } else {
        decimal(n / 10) + digit_text((n % 10) as int)
    }
}

/// The hexadecimal text of a byte, without a leading zero.
pub open spec fn hex_upper(b: u8) -> Seq<char> {
    if b < 16 {
        digit_text(b as int)
    } else {
        digit_text(b as int / 16) + digit_text(b as int % 16)
    }
}

/// The text of an offset to an entry called `name`: `None` for the null
/// offset, the name and the index for a dirty offset, `Disk` and the position
/// for an on-disk offset.
pub open spec fn typed_text(offset: Offset, name: Seq<char>) -> Seq<char> {
    if offset.spec_is_null() {
        "None"@
    } else if offset.spec_is_dirty() {
        name + "["@ + decimal(offset.spec_dirty_index()) + "]"@
    } else {
        "Disk["@ + decimal(offset.raw() as nat) + "]"@
    }
}

/// What the entries with the type tag `type_int` are called.
pub open spec fn tag_name(type_int: u8) -> Seq<char> {
    if type_int == TYPE_RADIX {
        "Radix"@
    } else if type_int == TYPE_LEAF {
        "Leaf"@
    } else if type_int == TYPE_LINK {
        "Link"@
    } else if type_int == TYPE_KEY {
        "Key"@
    } else {
        "Dirty"@
    }
}

/// The text of an offset whose type is the one in its tag.
pub open spec fn offset_text(offset: Offset) -> Seq<char> {
    typed_text(offset, tag_name(offset.spec_dirty_type()))
}

/// The text of the first `n` children that are not null.
pub open spec fn children_text(children: Seq<Offset>, n: nat) -> Seq<char>
    decreases n,
{
    if n == 0 {
        Seq::empty()
    } else {
        let before = children_text(children, (n - 1) as nat);
        if children[n - 1].spec_is_null() {
            before
        } else {
            before + ", "@ + decimal((n - 1) as nat) + ": "@ + offset_text(children[n - 1])
        }
    }
}

/// The text of a radix entry.
pub open spec fn radix_text(entry: RadixView) -> Seq<char> {
    "Radix { link: "@ + typed_text(entry.link.to_offset(), "Link"@) + children_text(
        entry.children,
        16,
    ) + " }"@
}

/// The text of a leaf entry.
pub open spec fn leaf_text(entry: MemLeaf) -> Seq<char> {
    "Leaf { key: "@ + typed_text(entry.key_offset.to_offset(), "Key"@) + ", link: "@ + typed_text(
        entry.link_offset.to_offset(),
        "Link"@,
    ) + " }"@
}

/// The text of a link entry.
pub open spec fn link_text(entry: MemLink) -> Seq<char> {
    "Link { value: "@ + decimal(entry.value as nat) + ", next: "@ + typed_text(
        entry.next_link_offset.to_offset(),
        "Link"@,
    ) + " }"@
}

/// The text of the first `n` bytes of a key.
pub open spec fn bytes_text(key: Seq<u8>, n: nat) -> Seq<char>
    decreases n,
{
    if n == 0 {
        Seq::empty()
    } else {
        bytes_text(key, (n - 1) as nat) + " "@ + hex_upper(key[n - 1])
    }
}

/// The text of a key entry.
pub open spec fn key_text(key: Seq<u8>) -> Seq<char> {
    "Key { key:"@ + bytes_text(key, key.len()) + " }"@
}

/// The text of a root entry.
pub open spec fn root_text(entry: MemRoot) -> Seq<char> {
    "Root { radix: "@ + typed_text(entry.radix_offset.to_offset(), "Radix"@) + " }"@
}

/// The text and the bytes of the entry at `pos`, where the bytes there are an
/// entry.
pub open spec fn entry_at(buf: Seq<u8>, pos: int) -> Option<(Seq<char>, Seq<u8>)> {
    let none = Map::<u64, u64>::empty();
    if buf[pos] == TYPE_RADIX {
        match MemRadix::spec_read_from(buf, pos) {
            Some(e) => Some((radix_text(e), e.spec_bytes(none))),
            None => None,
        }
    } else if buf[pos] == TYPE_LEAF {
        match MemLeaf::spec_read_from(buf, pos) {
            Some(e) => Some((leaf_text(e), e.spec_bytes(none))),
            None => None,
        }
    } else if buf[pos] == TYPE_LINK {
        match MemLink::spec_read_from(buf, pos) {
            Some(e) => Some((link_text(e), e.spec_bytes(none))),
            None => None,
        }
    } else if buf[pos] == TYPE_KEY {
        match MemKey::spec_read_from(buf, pos) {
            Some(key) => Some((key_text(key), MemKey::spec_bytes(key))),
            None => None,
        }
    } else if buf[pos] == TYPE_ROOT {
        match MemRoot::spec_read_from(buf, pos) {
            Some(e) => Some((root_text(e), e.spec_bytes(none))),
            None => None,
        }
    } else {
        None
    }
}

/// The text of the entries on disk from position `out.len()` on, and the
/// bytes of all entries read: `out` followed by those of the entries from
/// there on. The walk ends where the file ends or where no entry is found.
pub open spec fn scan_text(buf: Seq<u8>, out: Seq<u8>) -> (Seq<char>, Seq<u8>)
    decreases
            if out.len() < buf.len() {
                buf.len() - out.len()
            } else {
                0
            },
{
    let pos = out.len() as int;
    if pos >= buf.len() {
        (Seq::empty(), out)
    } else {
        let label = "Disk["@ + decimal(pos as nat) + "]: "@;
        match entry_at(buf, pos) {
            Some((text, bytes)) => {
                let next = out + bytes;
                if out.len() < next.len() {
                    let rest = scan_text(buf, next);
                    (label + text + "\n"@ + rest.0, rest.1)
                } else {
                    (label + "Broken Data!\n"@, out)
                }
            },
            None => (label + "Broken Data!\n"@, out),
        }
    }
}

impl IndexView {
    /// The text of the first `n` staged radix entries.
    pub open spec fn radixes_text(self, n: nat) -> Seq<char>
        decreases n,
    {
        if n == 0 {
            Seq::empty()
        } else {
            self.radixes_text((n - 1) as nat) + "Radix["@ + decimal((n - 1) as nat) + "]: "@
                + radix_text(self.radixes[n - 1]@) + "\n"@
        }
    }

    /// The text of the first `n` staged leaf entries.
    pub open spec fn leafs_text(self, n: nat) -> Seq<char>
        decreases n,
    {
        if n == 0 {
            Seq::empty()
        } else {
            self.leafs_text((n - 1) as nat) + "Leaf["@ + decimal((n - 1) as nat) + "]: "@
                + leaf_text(self.leafs[n - 1]) + "\n"@
        }
    }

    /// The text of the first `n` staged link entries.
    pub open spec fn links_text(self, n: nat) -> Seq<char>
        decreases n,
    {
        if n == 0 {
            Seq::empty()
        } else {
            self.links_text((n - 1) as nat) + "Link["@ + decimal((n - 1) as nat) + "]: "@
                + link_text(self.links[n - 1]) + "\n"@
        }
    }

    /// The text of the first `n` staged key entries.
    pub open spec fn keys_text(self, n: nat) -> Seq<char>
        decreases n,
    {
        if n == 0 {
            Seq::empty()
        } else {
            self.keys_text((n - 1) as nat) + "Key["@ + decimal((n - 1) as nat) + "]: "@ + key_text(
                self.keys[n - 1],
            ) + "\n"@
        }
    }

    /// The first line of the text: the number of bytes and the root.
    pub open spec fn head_text(self) -> Seq<char> {
        "Index { len: "@ + decimal(self.buf.len()) + ", root: "@ + typed_text(
            self.root.to_offset(),
            "Radix"@,
        ) + " }\n"@
    }

    /// The text of the staged entries.
    pub open spec fn staged_text(self) -> Seq<char> {
        self.radixes_text(self.radixes.len()) + self.leafs_text(self.leafs.len())
            + self.links_text(self.links.len()) + self.keys_text(self.keys.len())
    }

    /// The text of the index: the first line, the entries on disk, and the
    /// staged entries. Where the entries on disk, turned into bytes again,
    /// are not the bytes of the file, a line that says so stands in the
    /// place of the staged entries.
    pub open spec fn text(self) -> Seq<char> {
        let (disk, out) = scan_text(self.buf, seq![TYPE_HEAD]);
        if out.len() > 1 && out != self.buf {
            self.head_text() + disk + "Inconsistent Data!\n"@
        } else {
            self.head_text() + disk + self.staged_text()
        }
    }
}

/// The text of a digit below sixteen.
fn digit_str(d: u8) -> (r: &'static str)
    requires
        d < 16,
    ensures
        r@ == digit_text(d as int),
{
    if d == 0 {
        "0"
    } else if d == 1 {
        "1"
    } else if d == 2 {
        "2"
    } else if d == 3 {
        "3"
    } else if d == 4 {
        "4"
    } else if d == 5 {
        "5"
    } else if d == 6 {
        "6"
    } else if d == 7 {
        "7"
    } else if d == 8 {
        "8"
    } else if d == 9 {
        "9"
    } else if d == 10 {
        "A"
    } else if d == 11 {
        "B"
    } else if d == 12 {
        "C"
    } else if d == 13 {
        "D"
    } else if d == 14 {
        "E"
    } else {
        "F"
    }
}

/// Appends the decimal text of `n`.
fn write_decimal(out: &mut String, n: u64)
    ensures
        final(out)@ == old(out)@ + decimal(n as nat),
    decreases n,
{
    if n >= 10 {
        write_decimal(out, n / 10);
    }
    out.append(digit_str((n % 10) as u8));
    assert(out@ =~= old(out)@ + decimal(n as nat));
}

/// Appends the hexadecimal text of a byte.
fn write_hex(out: &mut String, b: u8)
    ensures
        final(out)@ == old(out)@ + hex_upper(b),
{
    if b >= 16 {
        out.append(digit_str(b / 16));
    }
    out.append(digit_str(b % 16));
    assert(out@ =~= old(out)@ + hex_upper(b));
}

/// Appends the text of an offset to an entry called `name`.
fn write_typed(out: &mut String, offset: Offset, name: &str)
    ensures
        final(out)@ == old(out)@ + typed_text(offset, name@),
{
    if offset.is_null() {
        out.append("None");
    } else if offset.is_dirty() {
        out.append(name);
        out.append("[");
        write_decimal(out, offset.dirty_index());
        out.append("]");
        assert(out@ =~= old(out)@ + typed_text(offset, name@));
    } else {
        out.append("Disk[");
        write_decimal(out, offset.to_u64());
        out.append("]");
        assert(out@ =~= old(out)@ + typed_text(offset, name@));
    }
}

/// What the entries with the type tag `type_int` are called.
fn tag_str(type_int: u8) -> (r: &'static str)
    ensures
        r@ == tag_name(type_int),
{
    if type_int == TYPE_RADIX {
        "Radix"
    } else if type_int == TYPE_LEAF {
        "Leaf"
    } else if type_int == TYPE_LINK {
        "Link"
    } else if type_int == TYPE_KEY {
        "Key"
    } else {
        "Dirty"
    }
}

/// Appends the text of an offset whose type is the one in its tag.
fn write_offset(out: &mut String, offset: Offset)
    ensures
        final(out)@ == old(out)@ + offset_text(offset),
{
    let type_int: u8 = if offset.is_dirty() {
        match offset.type_int(&[]) {
            Ok(t) => t,
            Err(_) => 0,
        }
    } else {
        0
    };
    proof {
        if !offset.spec_is_dirty() {
            assert(typed_text(offset, tag_name(0)) == typed_text(
                offset,
                tag_name(offset.spec_dirty_type()),
            ));
        }
    }
    write_typed(out, offset, tag_str(type_int));
}

/// Appends the text of a radix entry.
fn write_radix(out: &mut String, entry: &MemRadix)
    ensures
        final(out)@ == old(out)@ + radix_text(entry@),
{
    out.append("Radix { link: ");
    write_typed(out, entry.link_offset.to_offset(), "Link");
    let ghost head = out@;
    let mut i: usize = 0;
    while i < 16
        invariant
            i <= 16,
            out@ == head + children_text(entry@.children, i as nat),
        decreases 16 - i,
    {
        let v: Offset = entry.offsets[i];
        if !v.is_null() {
            out.append(", ");
            write_decimal(out, i as u64);
            out.append(": ");
            write_offset(out, v);
        }
        assert(out@ =~= head + children_text(entry@.children, (i + 1) as nat));
        i += 1;
    }
    out.append(" }");
    assert(out@ =~= old(out)@ + radix_text(entry@));
}

/// Appends the text of a leaf entry.
fn write_leaf(out: &mut String, entry: &MemLeaf)
    ensures
        final(out)@ == old(out)@ + leaf_text(*entry),
{
    out.append("Leaf { key: ");
    write_typed(out, entry.key_offset.to_offset(), "Key");
    out.append(", link: ");
    write_typed(out, entry.link_offset.to_offset(), "Link");
    out.append(" }");
    assert(out@ =~= old(out)@ + leaf_text(*entry));
}

/// Appends the text of a link entry.
fn write_link(out: &mut String, entry: &MemLink)
    ensures
        final(out)@ == old(out)@ + link_text(*entry),
{
    out.append("Link { value: ");
    write_decimal(out, entry.value);
    out.append(", next: ");
    write_typed(out, entry.next_link_offset.to_offset(), "Link");
    out.append(" }");
    assert(out@ =~= old(out)@ + link_text(*entry));
}

/// Appends the text of a key entry.
fn write_key(out: &mut String, key: &[u8])
    ensures
        final(out)@ == old(out)@ + key_text(key@),
{
    out.append("Key { key:");
    let ghost head = out@;
    let mut i: usize = 0;
    while i < key.len()
        invariant
            i <= key@.len(),
            out@ == head + bytes_text(key@, i as nat),
        decreases key@.len() - i,
    {
        out.append(" ");
        write_hex(out, key[i]);
        assert(out@ =~= head + bytes_text(key@, (i + 1) as nat));
        i += 1;
    }
    out.append(" }");
    assert(out@ =~= old(out)@ + key_text(key@));
}

/// Appends the text of a root entry.
fn write_root(out: &mut String, entry: &MemRoot)
    ensures
        final(out)@ == old(out)@ + root_text(*entry),
{
    out.append("Root { radix: ");
    write_typed(out, entry.radix_offset.to_offset(), "Radix");
    out.append(" }");
    assert(out@ =~= old(out)@ + root_text(*entry));
}

impl Offset {
    /// The text of the offset.
    pub fn fmt(&self) -> (r: String)
        ensures
            r@ == offset_text(*self),
    {
        let mut out = String::new();
        write_offset(&mut out, *self);
        assert(out@ =~= offset_text(*self));
        out
    }
}

impl MemRadix {
    /// The text of the entry.
    pub fn fmt(&self) -> (r: String)
        ensures
            r@ == radix_text(self@),
    {
        let mut out = String::new();
        write_radix(&mut out, self);
        assert(out@ =~= radix_text(self@));
        out
    }
}

impl MemLeaf {
    /// The text of the entry.
    pub fn fmt(&self) -> (r: String)
        ensures
            r@ == leaf_text(*self),
    {
        let mut out = String::new();
        write_leaf(&mut out, self);
        assert(out@ =~= leaf_text(*self));
        out
    }
}

impl MemLink {
    /// The text of the entry.
    pub fn fmt(&self) -> (r: String)
        ensures
            r@ == link_text(*self),
    {
        let mut out = String::new();
        write_link(&mut out, self);
        assert(out@ =~= link_text(*self));
        out
    }
}

impl MemKey {
    /// The text of the entry.
    pub fn fmt(&self) -> (r: String)
        ensures
            r@ == key_text(self.key@),
    {
        let mut out = String::new();
        write_key(&mut out, self.key.as_slice());
        assert(out@ =~= key_text(self.key@));
        out
    }
}

impl MemRoot {
    /// The text of the entry.
    pub fn fmt(&self) -> (r: String)
        ensures
            r@ == root_text(*self),
    {
        let mut out = String::new();
        write_root(&mut out, self);
        assert(out@ =~= root_text(*self));
        out
    }
}

/// Appends the text of the entry at `pos` to `text` and its bytes to `out`.
/// Returns whether an entry was found there.
fn write_entry_at(text: &mut String, out: &mut Vec<u8>, buf: &[u8], pos: usize) -> (r: bool)
    requires
        pos < buf@.len(),
    ensures
        match entry_at(buf@, pos as int) {
            Some((entry_text, bytes)) => r && final(text)@ == old(text)@ + entry_text && final(out)@
                == old(out)@ + bytes,
            None => !r && final(text)@ == old(text)@ && final(out)@ == old(out)@,
        },
{
    let offset_map: HashMap<u64, u64> = HashMap::new();
    assert(offset_map@ =~= Map::<u64, u64>::empty());
    let type_int: u8 = buf[pos];
    if type_int == TYPE_RADIX {
        match MemRadix::read_from(buf, pos as u64) {
            Ok(e) => {
                proof {
                    lemma_radix_read(buf@, pos as int);
                }
                e.write_to(out, &offset_map);
                write_radix(text, &e);
                true
            },
            Err(_) => false,
        }
    } else if type_int == TYPE_LEAF {
        match MemLeaf::read_from(buf, pos as u64) {
            Ok(e) => {
                e.write_to(out, &offset_map);
                write_leaf(text, &e);
                true
            },
            Err(_) => false,
        }
    } else if type_int == TYPE_LINK {
        match MemLink::read_from(buf, pos as u64) {
            Ok(e) => {
                e.write_to(out, &offset_map);
                write_link(text, &e);
                true
            },
            Err(_) => false,
        }
    } else if type_int == TYPE_KEY {
        match MemKey::read_from(buf, pos as u64) {
            Ok(e) => {
                e.write_to(out, &offset_map);
                write_key(text, e.key.as_slice());
                true
            },
            Err(_) => false,
        }
    } else if type_int == TYPE_ROOT {
        match MemRoot::read_from(buf, pos as u64) {
            Ok(e) => {
                e.write_to(out, &offset_map);
                write_root(text, &e);
                true
            },
            Err(_) => false,
        }
    } else {
        false
    }
}

/// Appends the text of the entries on disk. Returns the bytes of the entries
/// read, behind the byte of the header.
fn write_disk(text: &mut String, buf: &[u8]) -> (out: Vec<u8>)
    ensures
        final(text)@ == old(text)@ + scan_text(buf@, seq![TYPE_HEAD]).0,
        out@ == scan_text(buf@, seq![TYPE_HEAD]).1,
{
    let mut out: Vec<u8> = Vec::with_capacity(buf.len());
    out.push(TYPE_HEAD);
    assert(out@ =~= seq![TYPE_HEAD]);
    let ghost all = scan_text(buf@, seq![TYPE_HEAD]);
    assert(text@ + all.0 =~= old(text)@ + all.0);
    loop
        invariant_except_break
            old(text)@ + all.0 == text@ + scan_text(buf@, out@).0,
            all.1 == scan_text(buf@, out@).1,
        invariant
            all == scan_text(buf@, seq![TYPE_HEAD]),
        ensures
            text@ == old(text)@ + all.0,
            out@ == all.1,
        decreases
                if out@.len() < buf@.len() {
                    buf@.len() - out@.len()
                } else {
                    0
                },
    {
        let i: usize = out.len();
        if i >= buf.len() {
            assert(text@ =~= text@ + scan_text(buf@, out@).0);
            break ;
        }
        let ghost before = text@;
        let ghost read = out@;
        let ghost label = "Disk["@ + decimal(i as nat) + "]: "@;
        text.append("Disk[");
        write_decimal(text, i as u64);
        text.append("]: ");
        assert(text@ =~= before + label);
        let found = write_entry_at(text, &mut out, buf, i);
        if !found || out.len() <= i {
            text.append("Broken Data!\n");
            proof {
                assert(out@ =~= read);
                assert(scan_text(buf@, read) == (label + "Broken Data!\n"@, read));
                assert(text@ =~= before + (label + "Broken Data!\n"@));
            }
            return out;
        }
        text.append("\n");
        proof {
            let (entry_text, bytes) = entry_at(buf@, i as int).unwrap();
            let rest = scan_text(buf@, read + bytes).0;
            assert(scan_text(buf@, read) == (
                label + entry_text + "\n"@ + rest,
                scan_text(buf@, read + bytes).1,
            ));
            assert(text@ =~= before + (label + entry_text + "\n"@));
            assert(text@ + rest =~= before + (label + entry_text + "\n"@ + rest));
        }
    }
    out
}

/// Appends the text of the staged radix entries.
fn write_staged_radixes(text: &mut String, index: &Index)
    ensures
        final(text)@ == old(text)@ + index@.radixes_text(index@.radixes.len()),
{
    let mut i: usize = 0;
    assert(text@ =~= old(text)@ + index@.radixes_text(0));
    while i < index.dirty_radixes.len()
        invariant
            i <= index.dirty_radixes@.len(),
            text@ == old(text)@ + index@.radixes_text(i as nat),
        decreases index.dirty_radixes@.len() - i,
    {
        text.append("Radix[");
        write_decimal(text, i as u64);
        text.append("]: ");
        write_radix(text, &index.dirty_radixes[i]);
        text.append("\n");
        assert(text@ =~= old(text)@ + index@.radixes_text((i + 1) as nat));
        i += 1;
    }
}

/// Appends the text of the staged leaf entries.
fn write_staged_leafs(text: &mut String, index: &Index)
    ensures
        final(text)@ == old(text)@ + index@.leafs_text(index@.leafs.len()),
{
    let mut i: usize = 0;
    assert(text@ =~= old(text)@ + index@.leafs_text(0));
    while i < index.dirty_leafs.len()
        invariant
            i <= index.dirty_leafs@.len(),
            text@ == old(text)@ + index@.leafs_text(i as nat),
        decreases index.dirty_leafs@.len() - i,
    {
        text.append("Leaf[");
        write_decimal(text, i as u64);
        text.append("]: ");
        write_leaf(text, &index.dirty_leafs[i]);
        text.append("\n");
        assert(text@ =~= old(text)@ + index@.leafs_text((i + 1) as nat));
        i += 1;
    }
}

/// Appends the text of the staged link entries.
fn write_staged_links(text: &mut String, index: &Index)
    ensures
        final(text)@ == old(text)@ + index@.links_text(index@.links.len()),
{
    let mut i: usize = 0;
    assert(text@ =~= old(text)@ + index@.links_text(0));
    while i < index.dirty_links.len()
        invariant
            i <= index.dirty_links@.len(),
            text@ == old(text)@ + index@.links_text(i as nat),
        decreases index.dirty_links@.len() - i,
    {
        text.append("Link[");
        write_decimal(text, i as u64);
        text.append("]: ");
        write_link(text, &index.dirty_links[i]);
        text.append("\n");
        assert(text@ =~= old(text)@ + index@.links_text((i + 1) as nat));
        i += 1;
    }
}

/// Appends the text of the staged key entries.
fn write_staged_keys(text: &mut String, index: &Index)
    ensures
        final(text)@ == old(text)@ + index@.keys_text(index@.keys.len()),
{
    let mut i: usize = 0;
    assert(text@ =~= old(text)@ + index@.keys_text(0));
    while i < index.dirty_keys.len()
        invariant
            i <= index.dirty_keys@.len(),
            index@.keys.len() == index.dirty_keys@.len(),
            text@ == old(text)@ + index@.keys_text(i as nat),
        decreases index.dirty_keys@.len() - i,
    {
        text.append("Key[");
        write_decimal(text, i as u64);
        text.append("]: ");
        write_key(text, index.dirty_keys[i].key.as_slice());
        text.append("\n");
        assert(text@ =~= old(text)@ + index@.keys_text((i + 1) as nat));
        i += 1;
    }
}

impl Index {
    /// The text of the index.
    pub fn fmt(&self) -> (r: String)
        ensures
            r@ == self@.text(),
    {
        let mut text = String::new();
        text.append("Index { len: ");
        write_decimal(&mut text, self.buf.len() as u64);
        text.append(", root: ");
        write_typed(&mut text, self.root.radix_offset.to_offset(), "Radix");
        text.append(" }\n");
        assert(text@ =~= self@.head_text());

        // The entries on disk.
        let out = write_disk(&mut text, self.buf.as_slice());
        if out.len() > 1 && !same_bytes(self.buf.as_slice(), out.as_slice()) {
            text.append("Inconsistent Data!\n");
            return text;
        }
        // The staged entries.

        let ghost disk = text@;
        write_staged_radixes(&mut text, self);
        write_staged_leafs(&mut text, self);
        write_staged_links(&mut text, self);
        write_staged_keys(&mut text, self);
        assert(text@ =~= disk + self@.staged_text());
        text
    }
}

} // verus!
