//! Little-endian scalar encoding and decoding over byte sequences.

use vstd::prelude::*;

verus! {

/// The `u16` spelled by two little-endian bytes at `i`.
pub open spec fn le16(b: Seq<u8>, i: int) -> u16 {
    (b[i] + b[i + 1] * 0x100) as u16
}

/// The `u32` spelled by four little-endian bytes at `i`.
pub open spec fn le32(b: Seq<u8>, i: int) -> u32 {
    (b[i] + b[i + 1] * 0x100 + b[i + 2] * 0x1_0000 + b[i + 3] * 0x100_0000) as u32
}

/// The `u64` spelled by eight little-endian bytes at `i`.
pub open spec fn le64(b: Seq<u8>, i: int) -> u64 {
    (le32(b, i) + le32(b, i + 4) * 0x1_0000_0000) as u64
}

/// The two little-endian bytes of `x`.
pub open spec fn le16_bytes(x: u16) -> Seq<u8> {
    seq![(x % 0x100) as u8, (x / 0x100) as u8]
}

/// The four little-endian bytes of `x`.
pub open spec fn le32_bytes(x: u32) -> Seq<u8> {
    seq![
        (x % 0x100) as u8,
        ((x / 0x100) % 0x100) as u8,
        ((x / 0x1_0000) % 0x100) as u8,
        (x / 0x100_0000) as u8,
    ]
}

/// The eight little-endian bytes of `x`.
pub open spec fn le64_bytes(x: u64) -> Seq<u8> {
    le32_bytes((x % 0x1_0000_0000) as u32) + le32_bytes((x / 0x1_0000_0000) as u32)
}

/// Reads the `u16` at `i`.
pub fn read_u16(b: &[u8], i: usize) -> (r: u16)
    requires
        i + 2 <= b@.len(),
    ensures
        r == le16(b@, i as int),
{
    let r = (b[i] as u16) | ((b[i + 1] as u16) << 8);
    proof {
        let b0 = b@[i as int];
        let b1 = b@[i + 1];
        assert(((b0 as u16) | ((b1 as u16) << 8)) == (b0 + b1 * 0x100) as u16) by (bit_vector);
    }
    r
}

/// Reads the `u32` at `i`.
pub fn read_u32(b: &[u8], i: usize) -> (r: u32)
    requires
        i + 4 <= b@.len(),
    ensures
        r == le32(b@, i as int),
{
    let r = (b[i] as u32) | ((b[i + 1] as u32) << 8) | ((b[i + 2] as u32) << 16) | ((b[i
        + 3] as u32) << 24);
    proof {
        let b0 = b@[i as int];
        let b1 = b@[i + 1];
        let b2 = b@[i + 2];
        let b3 = b@[i + 3];
        assert(((b0 as u32) | ((b1 as u32) << 8) | ((b2 as u32) << 16) | ((b3 as u32) << 24)) == (
        b0 + b1 * 0x100 + b2 * 0x1_0000 + b3 * 0x100_0000) as u32) by (bit_vector);
    }
    r
}

/// Reads the `u64` at `i`.
pub fn read_u64(b: &[u8], i: usize) -> (r: u64)
    requires
        i + 8 <= b@.len(),
    ensures
        r == le64(b@, i as int),
{
    let n = b.len();
    let lo = read_u32(b, i);
    let hi = read_u32(b, i + 4);
    let r = (lo as u64) | ((hi as u64) << 32);
    proof {
        assert(((lo as u64) | ((hi as u64) << 32)) == (lo + hi * 0x1_0000_0000) as u64)
            by (bit_vector);
    }
    r
}

/// Appends the two little-endian bytes of `x`.
pub fn push_u16(out: &mut Vec<u8>, x: u16)
    ensures
        final(out)@ == old(out)@ + le16_bytes(x),
{
    let b0 = (x & 0xFF) as u8;
    let b1 = (x >> 8) as u8;
    proof {
        assert((x & 0xFF) as u8 == (x % 0x100) as u8 && (x >> 8) as u8 == (x / 0x100) as u8)
            by (bit_vector);
    }
    out.push(b0);
    out.push(b1);
    proof {
        assert(out@ =~= old(out)@ + le16_bytes(x));
    }
}

/// Appends the four little-endian bytes of `x`.
pub fn push_u32(out: &mut Vec<u8>, x: u32)
    ensures
        final(out)@ == old(out)@ + le32_bytes(x),
{
    let b0 = (x & 0xFF) as u8;
    let b1 = ((x >> 8) & 0xFF) as u8;
    let b2 = ((x >> 16) & 0xFF) as u8;
    let b3 = (x >> 24) as u8;
    proof {
        assert((x & 0xFF) as u8 == (x % 0x100) as u8 && ((x >> 8) & 0xFF) as u8 == ((x / 0x100)
            % 0x100) as u8 && ((x >> 16) & 0xFF) as u8 == ((x / 0x1_0000) % 0x100) as u8 && (x
            >> 24) as u8 == (x / 0x100_0000) as u8) by (bit_vector);
    }
    out.push(b0);
    out.push(b1);
    out.push(b2);
    out.push(b3);
    proof {
        assert(out@ =~= old(out)@ + le32_bytes(x));
    }
}

/// Appends the eight little-endian bytes of `x`.
pub fn push_u64(out: &mut Vec<u8>, x: u64)
    ensures
        final(out)@ == old(out)@ + le64_bytes(x),
{
    let lo = (x & 0xFFFF_FFFF) as u32;
    let hi = (x >> 32) as u32;
    proof {
        assert((x & 0xFFFF_FFFF) as u32 == (x % 0x1_0000_0000) as u32 && (x >> 32) as u32 == (x
            / 0x1_0000_0000) as u32) by (bit_vector);
    }
    push_u32(out, lo);
    push_u32(out, hi);
    proof {
        assert(out@ =~= old(out)@ + le64_bytes(x));
    }
}

/// Reading back two pushed bytes gives the value back.
pub proof fn lemma_le16_round_trip(x: u16, b: Seq<u8>, i: int)
    requires
        0 <= i,
        i + 2 <= b.len(),
        b.subrange(i, i + 2) =~= le16_bytes(x),
    ensures
        le16(b, i) == x,
{
    let b0 = b[i];
    let b1 = b[i + 1];
    assert(x == (b0 + b1 * 0x100) as u16) by (bit_vector)
        requires
            b0 == (x % 0x100) as u8 && b1 == (x / 0x100) as u8,
    ;
}

/// Reading back four pushed bytes gives the value back.
pub proof fn lemma_le32_round_trip(x: u32, b: Seq<u8>, i: int)
    requires
        0 <= i,
        i + 4 <= b.len(),
        b.subrange(i, i + 4) =~= le32_bytes(x),
    ensures
        le32(b, i) == x,
{
    let b0 = b[i];
    let b1 = b[i + 1];
    let b2 = b[i + 2];
    let b3 = b[i + 3];
    assert(x == (b0 + b1 * 0x100 + b2 * 0x1_0000 + b3 * 0x100_0000) as u32) by (bit_vector)
        requires
            b0 == (x % 0x100) as u8 && b1 == ((x / 0x100) % 0x100) as u8 && b2 == ((x / 0x1_0000)
                % 0x100) as u8 && b3 == (x / 0x100_0000) as u8,
    ;
}

/// Reading back eight pushed bytes gives the value back.
pub proof fn lemma_le64_round_trip(x: u64, b: Seq<u8>, i: int)
    requires
        0 <= i,
        i + 8 <= b.len(),
        b.subrange(i, i + 8) =~= le64_bytes(x),
    ensures
        le64(b, i) == x,
{
    let lo = (x % 0x1_0000_0000) as u32;
    let hi = (x / 0x1_0000_0000) as u32;
    assert(b.subrange(i, i + 4) =~= b.subrange(i, i + 8).subrange(0, 4));
    assert(b.subrange(i + 4, i + 8) =~= b.subrange(i, i + 8).subrange(4, 8));
    assert(b.subrange(i, i + 4) =~= le32_bytes(lo));
    assert(b.subrange(i + 4, i + 8) =~= le32_bytes(hi));
    lemma_le32_round_trip(lo, b, i);
    lemma_le32_round_trip(hi, b, i + 4);
    let l = le32(b, i);
    let h = le32(b, i + 4);
    assert((l + h * 0x1_0000_0000) as u64 == x) by (bit_vector)
        requires
            l == (x % 0x1_0000_0000) as u32 && h == (x / 0x1_0000_0000) as u32,
    ;
}

} // verus!
