//! Keys as streams of four-bit digits, the high half of each byte first.

use vstd::prelude::*;

verus! {

/// The number of four-bit digits in `key`.
pub open spec fn nibble_count(key: Seq<u8>) -> nat {
    2 * key.len()
}

/// Digit `i` of `key`: the high four bits of a byte come before its low four.
pub open spec fn nibble(key: Seq<u8>, i: int) -> u8 {
    if i % 2 == 0 {
        key[i / 2] / 16
    } else {
        key[i / 2] % 16
    }
}

/// The digits of `key`.
pub open spec fn nibbles(key: Seq<u8>) -> Seq<u8> {
    Seq::new(nibble_count(key), |i: int| nibble(key, i))
}

/// Keys with the same digits are the same key.
pub proof fn lemma_nibbles_injective(a: Seq<u8>, b: Seq<u8>)
    requires
        nibbles(a) == nibbles(b),
    ensures
        a == b,
{
    assert(nibbles(a).len() == 2 * a.len());
    assert(nibbles(b).len() == 2 * b.len());
    assert forall|i: int| 0 <= i < a.len() implies a[i] == b[i] by {
        assert(nibbles(a)[2 * i] == nibble(a, 2 * i));
        assert(nibbles(b)[2 * i] == nibble(b, 2 * i));
        assert(nibbles(a)[2 * i + 1] == nibble(a, 2 * i + 1));
        assert(nibbles(b)[2 * i + 1] == nibble(b, 2 * i + 1));
        assert((2 * i) / 2 == i && (2 * i) % 2 == 0);
        assert((2 * i + 1) / 2 == i && (2 * i + 1) % 2 == 1);
        assert(a[i] == (a[i] / 16) * 16 + a[i] % 16);
        assert(b[i] == (b[i] / 16) * 16 + b[i] % 16);
    }
    assert(a =~= b);
}

/// A walk over the digits of a key.
pub struct Base16Iter<'a> {
    pub(crate) key: &'a [u8],
    pub(crate) index: usize,
    pub(crate) low: bool,
}

impl<'a> Base16Iter<'a> {
    /// The key that the walk is over.
    pub open(crate) spec fn key(&self) -> Seq<u8> {
        self.key@
    }

    /// The number of digits that the walk has left behind. Where it is not
    /// less than the number of digits of the key, the walk is at its end.
    pub open(crate) spec fn pos(&self) -> nat {
        if self.low {
            (2 * self.index + 1) as nat
        } else {
            (2 * self.index) as nat
        }
    }

    /// A walk at the first digit of `key`.
    pub fn from_base256(key: &'a [u8]) -> (r: Base16Iter<'a>)
        ensures
            r.key() == key@,
            r.pos() == 0,
    {
        Base16Iter { key, index: 0, low: false }
    }

    /// A walk over `key` that has left behind as many digits as this one.
    pub fn skip_same<'b>(&self, key: &'b [u8]) -> (r: Base16Iter<'b>)
        ensures
            r.key() == key@,
            r.pos() == self.pos(),
    {
        Base16Iter { key, index: self.index, low: self.low }
    }

    /// Whether the walk stands at the first digit.
    pub fn at_start(&self) -> (r: bool)
        ensures
            r == (self.pos() == 0),
    {
        self.index == 0 && !self.low
    }

    /// The next digit, if there is one.
    pub fn next(&mut self) -> (r: Option<u8>)
        ensures
            final(self).key() == old(self).key(),
            old(self).pos() < nibble_count(old(self).key()) ==> r == Some(
                nibble(old(self).key(), old(self).pos() as int),
            ) && final(self).pos() == old(self).pos() + 1,
            old(self).pos() >= nibble_count(old(self).key()) ==> r is None && final(self).pos()
                == old(self).pos(),
            r matches Some(x) ==> x < 16,
    {
        if self.index >= self.key.len() {
            None
        } else {
            let byte: u8 = self.key[self.index];
            if self.low {
                self.low = false;
                self.index = self.index + 1;
                assert(byte & 0xf == byte % 16) by (bit_vector);
                Some(byte & 0xf)
            } else {
                self.low = true;
                assert(byte >> 4 == byte / 16) by (bit_vector);
                Some(byte >> 4)
            }
        }
    }
}

} // verus!
