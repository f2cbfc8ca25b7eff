//! Bounds-checked little-endian access to 32-bit words of a byte buffer.

use vstd::prelude::*;

verus! {

/// The little-endian 32-bit word formed by the four bytes of `b` starting
/// at offset `off`.
pub open spec fn le32_at(b: Seq<u8>, off: int) -> u32
    recommends
        0 <= off,
        off + 4 <= b.len(),
{
    (b[off] + b[off + 1] * 0x100 + b[off + 2] * 0x1_0000 + b[off + 3] * 0x100_0000) as u32
}

/// The signed 32-bit value whose two's-complement bit pattern is `x`.
pub open spec fn as_signed(x: u32) -> int {
    if x < 0x8000_0000 {
        x as int
    } else {
        x - 0x1_0000_0000
    }
}

/// The 32-bit pattern whose two's-complement reading is the signed value `x`.
pub open spec fn as_unsigned(x: i32) -> u32 {
    if x >= 0 {
        x as u32
    } else {
        (x + 0x1_0000_0000) as u32
    }
}

/// Byte `k` (0 = least significant) of the little-endian encoding of `w`.
pub open spec fn byte_of(w: u32, k: int) -> u8 {
    if k == 0 {
        (w % 0x100) as u8
    } else if k == 1 {
        ((w / 0x100) % 0x100) as u8
    } else if k == 2 {
        ((w / 0x1_0000) % 0x100) as u8
    } else {
        ((w / 0x100_0000) % 0x100) as u8
    }
}

/// `b` with the four bytes at `p` replaced by the little-endian
/// encoding of `w`.
pub open spec fn put_le32(b: Seq<u8>, p: int, w: u32) -> Seq<u8> {
    Seq::new(b.len(), |i: int| if p <= i < p + 4 { byte_of(w, i - p) } else { b[i] })
}

/// Reading back the four bytes of a little-endian encoding gives the
/// encoded word.
pub proof fn lemma_le32_of_bytes(b: Seq<u8>, p: int, w: u32)
    requires
        0 <= p,
        p + 4 <= b.len(),
        forall|k: int| 0 <= k < 4 ==> b[p + k] == byte_of(w, k),
    ensures
        le32_at(b, p) == w,
{
    assert(b[p + 0] == byte_of(w, 0));
    assert(b[p + 1] == byte_of(w, 1));
    assert(b[p + 2] == byte_of(w, 2));
    assert(b[p + 3] == byte_of(w, 3));
    assert(w == (w % 0x100) + ((w / 0x100) % 0x100) * 0x100 + ((w / 0x1_0000) % 0x100) * 0x1_0000
        + ((w / 0x100_0000) % 0x100) * 0x100_0000) by (bit_vector);
}

/// Reads the little-endian 32-bit word at offset `off`.
pub fn read_u32(data: &Vec<u8>, off: usize) -> (r: u32)
    requires
        off + 4 <= data@.len(),
    ensures
        r == le32_at(data@, off as int),
{
    let n = data.len();
    assert(off + 4 <= n);
    let b0 = data[off] as u32;
    let b1 = data[off + 1] as u32;
    let b2 = data[off + 2] as u32;
    let b3 = data[off + 3] as u32;
    b0 + b1 * 0x100 + b2 * 0x1_0000 + b3 * 0x100_0000
}

/// Reads the word at offset `off` as a two's-complement signed integer.
pub fn read_i32(data: &Vec<u8>, off: usize) -> (r: i32)
    requires
        off + 4 <= data@.len(),
    ensures
        r == as_signed(le32_at(data@, off as int)),
{
    let x = read_u32(data, off);
    if x < 0x8000_0000 {
        x as i32
    } else {
        (x as i64 - 0x1_0000_0000i64) as i32
    }
}

/// The two's-complement bit pattern of `x`, as an unsigned word.
pub fn to_bits(x: i32) -> (r: u32)
    ensures
        r == as_unsigned(x),
        as_signed(r) == x,
{
    if x >= 0 {
        x as u32
    } else {
        (x as i64 + 0x1_0000_0000i64) as u32
    }
}

/// Overwrites the four bytes at offset `off` with `value`, little-endian.
/// Every byte outside `off .. off + 4` is left as it was.
pub fn write_u32(data: &mut Vec<u8>, off: usize, value: u32)
    requires
        off + 4 <= old(data)@.len(),
    ensures
        final(data)@ == put_le32(old(data)@, off as int, value),
        final(data)@.len() == old(data)@.len(),
        le32_at(final(data)@, off as int) == value,
{
    let n = data.len();
    assert(off + 4 <= n);
    let b0 = (value % 0x100) as u8;
    let b1 = ((value / 0x100) % 0x100) as u8;
    let b2 = ((value / 0x1_0000) % 0x100) as u8;
    let b3 = ((value / 0x100_0000) % 0x100) as u8;
    data.set(off, b0);
    data.set(off + 1, b1);
    data.set(off + 2, b2);
    data.set(off + 3, b3);
    proof {
        assert(data@ =~= put_le32(old(data)@, off as int, value));
        lemma_le32_of_bytes(data@, off as int, value);
    }
}

} // verus!
