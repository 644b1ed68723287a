//! Bounds-checked little-endian access to the byte arena that holds the
//! PPMd8 model's contexts, states, free-list nodes and text.
//!
//! A read outside the arena yields 0 and a write outside it is dropped, so that no
//! input, however malformed, makes an access fail.

use vstd::prelude::*;

verus! {

/// The byte at `off`, or 0 past the end of `m`.
pub open spec fn byte_at(m: Seq<u8>, off: int) -> u8 {
    if 0 <= off < m.len() { m[off] } else { 0 }
}

/// `m` after writing the byte `v` at `off`: unchanged past its end.
pub open spec fn wr8_spec(m: Seq<u8>, off: u32, v: u8) -> Seq<u8> {
    if (off as int) < m.len() {
        m.update(off as int, v)
    } else {
        m
    }
}

/// The little-endian `u16` at `off` as `rd16` reads it: the second byte at
/// `off.wrapping_add(1)`.
pub open spec fn rd16_spec(m: Seq<u8>, off: u32) -> u16 {
    (byte_at(m, off as int) as u16) | ((byte_at(m, off.wrapping_add(1) as int) as u16) << 8u16)
}

/// The little-endian `u32` at `off` as `rd32` reads it, byte `k` at
/// `off.wrapping_add(k)`.
pub open spec fn rd32_spec(m: Seq<u8>, off: u32) -> u32 {
    (byte_at(m, off as int) as u32) | ((byte_at(m, off.wrapping_add(1) as int) as u32) << 8u32) | ((
    byte_at(m, off.wrapping_add(2) as int) as u32) << 16u32) | ((byte_at(
        m,
        off.wrapping_add(3) as int,
    ) as u32) << 24u32)
}

/// `m` after `wr16` writes `v` at `off`, low byte first.
pub open spec fn wr16_spec(m: Seq<u8>, off: u32, v: u16) -> Seq<u8> {
    wr8_spec(wr8_spec(m, off, v as u8), off.wrapping_add(1), (v >> 8u16) as u8)
}

/// `m` after `wr32` writes `v` at `off`, low byte first.
pub open spec fn wr32_spec(m: Seq<u8>, off: u32, v: u32) -> Seq<u8> {
    wr8_spec(
        wr8_spec(
            wr8_spec(wr8_spec(m, off, v as u8), off.wrapping_add(1), (v >> 8u32) as u8),
            off.wrapping_add(2),
            (v >> 16u32) as u8,
        ),
        off.wrapping_add(3),
        (v >> 24u32) as u8,
    )
}

/// `m` after copying `n` bytes from `src` to `dst` one by one, front to back, each
/// read from the arena as the earlier copies left it.
pub open spec fn copy_spec(m: Seq<u8>, dst: u32, src: u32, n: nat) -> Seq<u8>
    decreases n,
{
    if n == 0 {
        m
    } else {
        let m1 = copy_spec(m, dst, src, (n - 1) as nat);
        let k = (n - 1) as u32;
        wr8_spec(m1, dst.wrapping_add(k), byte_at(m1, src.wrapping_add(k) as int))
    }
}

/// Reads the byte at `off`.
pub fn rd8(m: &Vec<u8>, off: u32) -> (r: u8)
    ensures
        r == byte_at(m@, off as int),
{
    let i: usize = off as usize;
    if i < m.len() {
        m[i]
    } else {
        0
    }
}

/// Writes the byte `v` at `off`.
pub fn wr8(m: &mut Vec<u8>, off: u32, v: u8)
    ensures
        final(m)@.len() == old(m)@.len(),
        (off as int) < old(m)@.len() ==> final(m)@ == old(m)@.update(off as int, v),
        (off as int) >= old(m)@.len() ==> final(m)@ == old(m)@,
        final(m)@ == wr8_spec(old(m)@, off, v),
{
    let i: usize = off as usize;
    if i < m.len() {
        m.set(i, v);
    }
}

/// Reads the little-endian `u16` at `off`.
pub fn rd16(m: &Vec<u8>, off: u32) -> (r: u16)
    ensures
        off < u32::MAX ==> r == ((byte_at(m@, off as int) as u16) | ((byte_at(m@, off + 1) as u16)
            << 8u16)),
        r == rd16_spec(m@, off),
{
    let lo: u8 = rd8(m, off);
    let hi: u8 = rd8(m, off.wrapping_add(1));
    (lo as u16) | ((hi as u16) << 8u16)
}

/// Writes `v` as a little-endian `u16` at `off`.
pub fn wr16(m: &mut Vec<u8>, off: u32, v: u16)
    ensures
        final(m)@.len() == old(m)@.len(),
        final(m)@ == wr16_spec(old(m)@, off, v),
{
    wr8(m, off, v as u8);
    wr8(m, off.wrapping_add(1), (v >> 8u16) as u8);
}

/// The little-endian `u32` of the four bytes at `off`, each read as `byte_at` does.
pub open spec fn le32_at(m: Seq<u8>, off: int) -> u32 {
    (byte_at(m, off) as u32) | ((byte_at(m, off + 1) as u32) << 8u32) | ((byte_at(m, off + 2) as u32)
        << 16u32) | ((byte_at(m, off + 3) as u32) << 24u32)
}

/// `m` with `v` written as a little-endian `u32` at `off`.
pub open spec fn put_le32(m: Seq<u8>, off: int, v: u32) -> Seq<u8> {
    m.update(off, v as u8).update(off + 1, (v >> 8u32) as u8).update(off + 2, (v >> 16u32) as u8).update(
        off + 3,
        (v >> 24u32) as u8,
    )
}

/// Whether the four bytes at `off` lie inside `m` (and `off + 3` fits in a `u32`).
pub open spec fn fits32(m: Seq<u8>, off: u32) -> bool {
    &&& off as int + 4 <= m.len()
    &&& off <= 0xFFFF_FFFCu32
}

/// Reads the little-endian `u32` at `off`.
pub fn rd32(m: &Vec<u8>, off: u32) -> (r: u32)
    ensures
        fits32(m@, off) ==> r == le32_at(m@, off as int),
        r == rd32_spec(m@, off),
{
    let b0: u8 = rd8(m, off);
    let b1: u8 = rd8(m, off.wrapping_add(1));
    let b2: u8 = rd8(m, off.wrapping_add(2));
    let b3: u8 = rd8(m, off.wrapping_add(3));
    (b0 as u32) | ((b1 as u32) << 8u32) | ((b2 as u32) << 16u32) | ((b3 as u32) << 24u32)
}

/// Writes `v` as a little-endian `u32` at `off`.
pub fn wr32(m: &mut Vec<u8>, off: u32, v: u32)
    ensures
        final(m)@.len() == old(m)@.len(),
        fits32(old(m)@, off) ==> final(m)@ == put_le32(old(m)@, off as int, v),
        final(m)@ == wr32_spec(old(m)@, off, v),
{
    wr8(m, off, v as u8);
    wr8(m, off.wrapping_add(1), (v >> 8u32) as u8);
    wr8(m, off.wrapping_add(2), (v >> 16u32) as u8);
    wr8(m, off.wrapping_add(3), (v >> 24u32) as u8);
}

/// A `u32` written at `off` reads back as itself.
pub proof fn lemma_le32_put_get(m: Seq<u8>, off: int, v: u32)
    requires
        0 <= off,
        off + 4 <= m.len(),
    ensures
        le32_at(put_le32(m, off, v), off) == v,
        put_le32(m, off, v).len() == m.len(),
{
    let m2 = put_le32(m, off, v);
    assert(byte_at(m2, off) == v as u8);
    assert(byte_at(m2, off + 1) == (v >> 8u32) as u8);
    assert(byte_at(m2, off + 2) == (v >> 16u32) as u8);
    assert(byte_at(m2, off + 3) == (v >> 24u32) as u8);
    assert(((v as u8 as u32) | (((v >> 8u32) as u8 as u32) << 8u32) | (((v >> 16u32) as u8 as u32)
        << 16u32) | (((v >> 24u32) as u8 as u32) << 24u32)) == v) by (bit_vector);
}

/// A `u32` written at `off` leaves the four bytes at `other` alone when the two do
/// not overlap.
pub proof fn lemma_le32_put_other(m: Seq<u8>, off: int, v: u32, other: int)
    requires
        0 <= off,
        off + 4 <= m.len(),
        other + 4 <= off || off + 4 <= other,
    ensures
        le32_at(put_le32(m, off, v), other) == le32_at(m, other),
{
    let m2 = put_le32(m, off, v);
    assert(byte_at(m2, other) == byte_at(m, other));
    assert(byte_at(m2, other + 1) == byte_at(m, other + 1));
    assert(byte_at(m2, other + 2) == byte_at(m, other + 2));
    assert(byte_at(m2, other + 3) == byte_at(m, other + 3));
}

/// Inside the arena, the four writes of `wr32` store `v` little-endian at `off`.
pub proof fn lemma_wr32_fits(m: Seq<u8>, off: u32, v: u32)
    requires
        fits32(m, off),
    ensures
        wr32_spec(m, off, v) == put_le32(m, off as int, v),
{
    assert(wr32_spec(m, off, v) =~= put_le32(m, off as int, v));
}

/// Copies `n` bytes from `src` to `dst`, front to back.
pub fn copy_bytes(m: &mut Vec<u8>, dst: u32, src: u32, n: u32)
    ensures
        final(m)@.len() == old(m)@.len(),
        final(m)@ == copy_spec(old(m)@, dst, src, n as nat),
{
    let mut i: u32 = 0;
    while i < n
        invariant
            i <= n,
            m@.len() == old(m)@.len(),
            m@ == copy_spec(old(m)@, dst, src, i as nat),
        decreases n - i,
    {
        let b: u8 = rd8(m, src.wrapping_add(i));
        wr8(m, dst.wrapping_add(i), b);
        i = i + 1;
    }
}

} // verus!
