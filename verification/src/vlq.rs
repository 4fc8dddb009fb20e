//! Variable-length quantities: seven bits per byte, least significant group
//! first, the high bit of a byte set while more bytes follow.

use vstd::prelude::*;
use vlqencoding::VLQDecodeAt;
use vlqencoding::VLQEncode;

verus! {

/// The encoding of `v`.
pub open spec fn vlq_bytes(v: nat) -> Seq<u8>
    decreases v,
{
    if v < 128 {
        seq![v as u8]
    } else {
        seq![(v % 128 + 128) as u8] + vlq_bytes(v / 128)
    }
}

/// Reads groups of seven bits starting at `pos`, the byte at `pos` being the
/// `depth`-th byte of a quantity. Gives the value of the groups read and their
/// number, or `None` where the bytes end before the quantity does or the
/// quantity runs past its tenth byte.
pub open spec fn vlq_scan(buf: Seq<u8>, pos: int, depth: nat) -> Option<(nat, nat)>
    decreases 10 - depth,
{
    if depth >= 10 || pos < 0 || pos >= buf.len() {
        None
    } else if buf[pos] < 128 {
        Some((buf[pos] as nat, 1nat))
    } else {
        match vlq_scan(buf, pos + 1, depth + 1) {
            Some((v, n)) => Some(((buf[pos] - 128 + 128 * v) as nat, n + 1)),
            None => None,
        }
    }
}

/// The 64-bit quantity that starts at `pos` and the number of bytes it takes,
/// or `None` where there is none: the bytes end early, the quantity is longer
/// than ten bytes, or its value does not fit in 64 bits.
pub open spec fn vlq_decode(buf: Seq<u8>, pos: int) -> Option<(u64, usize)> {
    match vlq_scan(buf, pos, 0) {
        Some((v, n)) => if v <= u64::MAX {
            Some((v as u64, n as usize))
        } else {
            None
        },
        None => None,
    }
}

/// 128 to the power of `exp`.
pub open spec fn pow128(exp: nat) -> nat
    decreases exp,
{
    if exp == 0 {
        1
    } else {
        128 * pow128((exp - 1) as nat)
    }
}

/// An encoding is never empty; all its bytes but the last have the high bit
/// set; a value below `128^k` takes at most `k` bytes.
pub proof fn lemma_vlq_bytes_shape(v: nat, k: nat)
    requires
        k >= 1,
        v < pow128(k),
    ensures
        1 <= vlq_bytes(v).len() <= k,
        vlq_bytes(v).last() < 128,
        forall|i: int| 0 <= i < vlq_bytes(v).len() - 1 ==> #[trigger] vlq_bytes(v)[i] >= 128,
        v < 128 ==> vlq_bytes(v) =~= seq![v as u8],
    decreases v,
{
    reveal_with_fuel(pow128, 2);
    if v >= 128 {
        assert(k >= 2);
        assert(pow128(k) == 128 * pow128((k - 1) as nat));
        lemma_vlq_bytes_shape(v / 128, (k - 1) as nat);
        let rest = vlq_bytes(v / 128);
        let all = vlq_bytes(v);
        assert(all =~= seq![(v % 128 + 128) as u8] + rest);
        assert(all.last() == rest.last());
        assert forall|i: int| 0 <= i < all.len() - 1 implies #[trigger] all[i] >= 128 by {
            if i > 0 {
                assert(all[i] == rest[i - 1]);
            }
        }
    }
}

/// Every 64-bit value is below `128^10`, every on-disk offset below `128^9`.
pub proof fn lemma_pow128_bounds()
    ensures
        pow128(1) == 128,
        pow128(9) == 0x8000_0000_0000_0000,
        pow128(10) > u64::MAX,
{
    reveal_with_fuel(pow128, 11);
}

/// The encoding of a 64-bit value has between one and ten bytes.
pub proof fn lemma_vlq_bytes_len(v: u64)
    ensures
        1 <= vlq_bytes(v as nat).len() <= 10,
        v < 128 ==> vlq_bytes(v as nat) =~= seq![v as u8],
        v < 0x8000_0000_0000_0000 ==> vlq_bytes(v as nat).len() <= 9,
{
    lemma_pow128_bounds();
    lemma_vlq_bytes_shape(v as nat, 10);
    if v < 0x8000_0000_0000_0000 {
        lemma_vlq_bytes_shape(v as nat, 9);
    }
}

/// What a scan finds lies inside the buffer.
pub proof fn lemma_vlq_scan_bounds(buf: Seq<u8>, pos: int, depth: nat)
    ensures
        match vlq_scan(buf, pos, depth) {
            Some((v, n)) => 1 <= n && depth + n <= 10 && 0 <= pos && pos + n <= buf.len(),
            None => true,
        },
    decreases 10 - depth,
{
    if depth >= 10 || pos < 0 || pos >= buf.len() {
    } else if buf[pos] < 128 {
    } else {
        lemma_vlq_scan_bounds(buf, pos + 1, (depth + 1) as nat);
    }
}

/// A scan depends only on the bytes it reads: two buffers that agree on them
/// give the same result.
pub proof fn lemma_vlq_scan_local(a: Seq<u8>, b: Seq<u8>, pos: int, depth: nat)
    requires
        vlq_scan(a, pos, depth) is Some,
        pos + vlq_scan(a, pos, depth).unwrap().1 <= b.len(),
        forall|i: int|
            pos <= i < pos + vlq_scan(a, pos, depth).unwrap().1 ==> #[trigger] a[i] == b[i],
    ensures
        vlq_scan(b, pos, depth) == vlq_scan(a, pos, depth),
    decreases 10 - depth,
{
    lemma_vlq_scan_bounds(a, pos, depth);
    if a[pos] < 128 {
        assert(a[pos] == b[pos]);
    } else {
        lemma_vlq_scan_bounds(a, pos + 1, (depth + 1) as nat);
        assert(a[pos] == b[pos]);
        lemma_vlq_scan_local(a, b, pos + 1, (depth + 1) as nat);
    }
}

/// Scanning the encoding of `v` gives `v` back.
pub proof fn lemma_vlq_scan_bytes(buf: Seq<u8>, pos: int, depth: nat, v: nat)
    requires
        0 <= pos,
        pos + vlq_bytes(v).len() <= buf.len(),
        depth + vlq_bytes(v).len() <= 10,
        forall|i: int| 0 <= i < vlq_bytes(v).len() ==> buf[pos + i] == #[trigger] vlq_bytes(v)[i],
    ensures
        vlq_scan(buf, pos, depth) == Some((v, vlq_bytes(v).len())),
    decreases v,
{
    let all = vlq_bytes(v);
    if v < 128 {
        assert(all =~= seq![v as u8]);
        assert(buf[pos + 0] == all[0]);
    } else {
        let rest = vlq_bytes(v / 128);
        assert(all =~= seq![(v % 128 + 128) as u8] + rest);
        assert(buf[pos + 0] == all[0]);
        assert forall|i: int| 0 <= i < rest.len() implies buf[pos + 1 + i] == #[trigger] rest[i] by {
            assert(buf[pos + (i + 1)] == all[i + 1]);
        }
        lemma_vlq_scan_bytes(buf, pos + 1, depth + 1, v / 128);
    }
}

/// Decoding where the encoding of `v` stands gives `v` and the encoding's
/// length.
pub proof fn lemma_vlq_decode_bytes(buf: Seq<u8>, pos: int, v: u64)
    requires
        0 <= pos,
        pos + vlq_bytes(v as nat).len() <= buf.len(),
        buf.subrange(pos, pos + vlq_bytes(v as nat).len()) == vlq_bytes(v as nat),
    ensures
        vlq_decode(buf, pos) == Some((v, vlq_bytes(v as nat).len() as usize)),
{
    let enc = vlq_bytes(v as nat);
    lemma_vlq_bytes_len(v);
    assert forall|i: int| 0 <= i < enc.len() implies buf[pos + i] == #[trigger] enc[i] by {
        assert(buf.subrange(pos, pos + enc.len())[i] == buf[pos + i]);
    }
    lemma_vlq_scan_bytes(buf, pos, 0, v as nat);
}

/// What decodes lies inside the buffer and takes between one and ten bytes.
pub proof fn lemma_vlq_decode_bounds(buf: Seq<u8>, pos: int)
    ensures
        match vlq_decode(buf, pos) {
            Some((v, n)) => 1 <= n <= 10 && 0 <= pos && pos + n <= buf.len(),
            None => true,
        },
{
    lemma_vlq_scan_bounds(buf, pos, 0);
}

/// `VLQDecodeAt::read_vlq_at` of the crate `vlqencoding`, for `u64`, with the
/// error dropped. The call walks the bytes from `offset` on, adds up seven
/// bits of each, weighted by powers of 128, and stops at the first byte without
/// the high bit; it fails where the slice ends first, where the sum leaves 64
/// bits, or where a tenth byte asks for an eleventh. The contract says this
/// through `vlq_decode`. The call adds up to nine to `offset`: with `offset`
/// inside the slice, which holds no more than `isize::MAX` bytes, the sum is
/// in range.
#[verifier::external_body]
fn decode_at(buf: &[u8], offset: usize) -> (r: Option<(u64, usize)>)
    requires
        offset < buf@.len(),
    ensures
        r == vlq_decode(buf@, offset as int),
{
    buf.read_vlq_at(offset).ok()
}

/// `VLQEncode::write_vlq` of the crate `vlqencoding`, for `u64`, on a vector.
/// The call appends the least significant seven bits of the value, with the
/// high bit set while higher bits remain, and goes on with the rest. Writing
/// to a vector appends and reports no error.
#[verifier::external_body]
pub(crate) fn write_vlq(out: &mut Vec<u8>, value: u64)
    ensures
        final(out)@ == old(out)@ + vlq_bytes(value as nat),
{
    let _ = out.write_vlq(value);
}

/// Decodes the quantity that starts at `offset`. Returns the value and the
/// number of bytes it takes.
pub fn read_vlq_at(buf: &[u8], offset: usize) -> (r: Option<(u64, usize)>)
    ensures
        r == vlq_decode(buf@, offset as int),
        r matches Some((_, n)) ==> 1 <= n <= 10 && offset + n <= buf@.len(),
{
    proof {
        lemma_vlq_decode_bounds(buf@, offset as int);
    }
    if offset >= buf.len() {
        None
    } else {
        decode_at(buf, offset)
    }
}

} // verus!
