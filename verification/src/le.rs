//! Little-endian integer fields inside byte buffers, and fixed-size
//! byte copies out of them.

use vstd::prelude::*;

verus! {

/// The little-endian `u16` stored at `off` in `s`.
pub open spec fn le_u16(s: Seq<u8>, off: int) -> u16 {
    (s[off] as int + 256 * (s[off + 1] as int)) as u16
}

/// The little-endian `u32` stored at `off` in `s`.
pub open spec fn le_u32(s: Seq<u8>, off: int) -> u32 {
    (s[off] as int + 256 * (s[off + 1] as int) + 65536 * (s[off + 2] as int) + 16777216 * (
    s[off + 3] as int)) as u32
}

/// Reads the little-endian `u16` at `offset`.
pub fn read_u16(buf: &[u8], offset: usize) -> (r: u16)
    requires
        offset + 2 <= buf@.len(),
    ensures
        r == le_u16(buf@, offset as int),
{
    let b0 = buf[offset];
    let b1 = buf[offset + 1];
    let r = (b0 as u16) | ((b1 as u16) << 8u16);
    assert(r == b0 as int + 256 * (b1 as int)) by (bit_vector)
        requires
            r == (b0 as u16) | ((b1 as u16) << 8u16),
    ;
    r
}

/// Reads the little-endian `u32` at `offset`.
pub fn read_u32(buf: &[u8], offset: usize) -> (r: u32)
    requires
        offset + 4 <= buf@.len(),
    ensures
        r == le_u32(buf@, offset as int),
{
    let b0 = buf[offset];
    let b1 = buf[offset + 1];
    let b2 = buf[offset + 2];
    let b3 = buf[offset + 3];
    let r = (b0 as u32) | ((b1 as u32) << 8u32) | ((b2 as u32) << 16u32) | ((b3 as u32) << 24u32);
    assert(r == b0 as int + 256 * (b1 as int) + 65536 * (b2 as int) + 16777216 * (b3 as int))
        by (bit_vector)
        requires
            r == (b0 as u32) | ((b1 as u32) << 8u32) | ((b2 as u32) << 16u32) | ((b3 as u32)
                << 24u32),
    ;
    r
}

/// Copies the `N` bytes at `offset` into an array.
pub fn read_array<const N: usize>(buf: &[u8], offset: usize) -> (r: [u8; N])
    requires
        offset + N <= buf@.len(),
    ensures
        r@ == buf@.subrange(offset as int, offset + N),
{
    let mut r = [0u8; N];
    let mut i: usize = 0;
    while i < N
        invariant
            i <= N,
            offset + N <= buf.len(),
            r@.len() == N,
            forall|j: int| 0 <= j < i ==> r@[j] == buf@[offset + j],
        decreases N - i,
    {
        r[i] = buf[offset + i];
        i = i + 1;
    }
    assert(r@ =~= buf@.subrange(offset as int, offset + N));
    r
}

/// The two little-endian bytes of `v`.
pub open spec fn u16_le_bytes(v: u16) -> Seq<u8> {
    seq![(v & 0xff) as u8, ((v >> 8u16) & 0xff) as u8]
}

/// The four little-endian bytes of `v`.
pub open spec fn u32_le_bytes(v: u32) -> Seq<u8> {
    seq![
        (v & 0xff) as u8,
        ((v >> 8u32) & 0xff) as u8,
        ((v >> 16u32) & 0xff) as u8,
        ((v >> 24u32) & 0xff) as u8,
    ]
}

/// Reading back the bytes of a `u16` gives the `u16`.
pub proof fn lemma_u16_le_bytes_read(v: u16)
    ensures
        le_u16(u16_le_bytes(v), 0) == v,
{
    let b0 = (v & 0xff) as u8;
    let b1 = ((v >> 8u16) & 0xff) as u8;
    assert(b0 as int + 256 * (b1 as int) == v) by (bit_vector)
        requires
            b0 == (v & 0xff) as u8,
            b1 == ((v >> 8u16) & 0xff) as u8,
    ;
}

/// Reading back the bytes of a `u32` gives the `u32`.
pub proof fn lemma_u32_le_bytes_read(v: u32)
    ensures
        le_u32(u32_le_bytes(v), 0) == v,
{
    let b0 = (v & 0xff) as u8;
    let b1 = ((v >> 8u32) & 0xff) as u8;
    let b2 = ((v >> 16u32) & 0xff) as u8;
    let b3 = ((v >> 24u32) & 0xff) as u8;
    assert(b0 as int + 256 * (b1 as int) + 65536 * (b2 as int) + 16777216 * (b3 as int) == v)
        by (bit_vector)
        requires
            b0 == (v & 0xff) as u8,
            b1 == ((v >> 8u32) & 0xff) as u8,
            b2 == ((v >> 16u32) & 0xff) as u8,
            b3 == ((v >> 24u32) & 0xff) as u8,
    ;
}

/// Two byte strings holding the same little-endian `u16` at `off` agree
/// on its two bytes.
pub(crate) proof fn lemma_le_u16_same_bytes(a: Seq<u8>, b: Seq<u8>, off: int)
    requires
        0 <= off,
        off + 2 <= a.len(),
        off + 2 <= b.len(),
        le_u16(a, off) == le_u16(b, off),
    ensures
        forall|i: int| off <= i < off + 2 ==> #[trigger] a[i] == b[i],
{
    let a0 = a[off];
    let a1 = a[off + 1];
    let b0 = b[off];
    let b1 = b[off + 1];
    assert(a0 == b0 && a1 == b1) by (bit_vector)
        requires
            (a0 as int + 256 * (a1 as int)) as u16 == (b0 as int + 256 * (b1 as int)) as u16,
    ;
    assert forall|i: int| off <= i < off + 2 implies #[trigger] a[i] == b[i] by {
        if i != off {
            assert(i == off + 1);
        }
    }
}

/// Two byte strings holding the same little-endian `u32` at `off` agree
/// on its four bytes.
pub(crate) proof fn lemma_le_u32_same_bytes(a: Seq<u8>, b: Seq<u8>, off: int)
    requires
        0 <= off,
        off + 4 <= a.len(),
        off + 4 <= b.len(),
        le_u32(a, off) == le_u32(b, off),
    ensures
        forall|i: int| off <= i < off + 4 ==> #[trigger] a[i] == b[i],
{
    let a0 = a[off];
    let a1 = a[off + 1];
    let a2 = a[off + 2];
    let a3 = a[off + 3];
    let b0 = b[off];
    let b1 = b[off + 1];
    let b2 = b[off + 2];
    let b3 = b[off + 3];
    assert(a0 == b0 && a1 == b1 && a2 == b2 && a3 == b3) by (bit_vector)
        requires
            (a0 as int + 256 * (a1 as int) + 65536 * (a2 as int) + 16777216 * (a3 as int)) as u32
                == (b0 as int + 256 * (b1 as int) + 65536 * (b2 as int) + 16777216 * (b3 as int)) as u32,
    ;
    assert forall|i: int| off <= i < off + 4 implies #[trigger] a[i] == b[i] by {
        if i != off && i != off + 1 && i != off + 2 {
            assert(i == off + 3);
        }
    }
}

/// Two byte strings with the same `len` bytes at `off` agree on each of
/// them.
pub(crate) proof fn lemma_same_bytes_in(a: Seq<u8>, b: Seq<u8>, off: int, len: int)
    requires
        0 <= off,
        0 <= len,
        off + len <= a.len(),
        off + len <= b.len(),
        a.subrange(off, off + len) == b.subrange(off, off + len),
    ensures
        forall|i: int| off <= i < off + len ==> #[trigger] a[i] == b[i],
{
    assert forall|i: int| off <= i < off + len implies #[trigger] a[i] == b[i] by {
        assert(a.subrange(off, off + len)[i - off] == a[i]);
        assert(b.subrange(off, off + len)[i - off] == b[i]);
    }
}

/// Writes `v` little-endian at `offset`.
pub fn write_u16(buf: &mut [u8], offset: usize, v: u16)
    requires
        offset + 2 <= old(buf)@.len(),
    ensures
        final(buf)@.len() == old(buf)@.len(),
        le_u16(final(buf)@, offset as int) == v,
        forall|i: int|
            0 <= i < old(buf)@.len() && !(offset <= i < offset + 2) ==> final(buf)@[i] == old(
                buf,
            )@[i],
        final(buf)@ == old(buf)@.subrange(0, offset as int) + u16_le_bytes(v) + old(buf)@.subrange(
            offset + 2,
            old(buf)@.len() as int,
        ),
{
    buf[offset] = (v & 0xff) as u8;
    buf[offset + 1] = ((v >> 8u16) & 0xff) as u8;
    proof {
        lemma_u16_le_bytes_read(v);
        assert(buf@.subrange(offset as int, offset + 2) =~= u16_le_bytes(v));
    }
    assert(buf@ =~= old(buf)@.subrange(0, offset as int) + u16_le_bytes(v) + old(buf)@.subrange(
        offset + 2,
        old(buf)@.len() as int,
    ));
}

/// Writes `v` little-endian at `offset`.
pub fn write_u32(buf: &mut [u8], offset: usize, v: u32)
    requires
        offset + 4 <= old(buf)@.len(),
    ensures
        final(buf)@.len() == old(buf)@.len(),
        le_u32(final(buf)@, offset as int) == v,
        forall|i: int|
            0 <= i < old(buf)@.len() && !(offset <= i < offset + 4) ==> final(buf)@[i] == old(
                buf,
            )@[i],
        final(buf)@ == old(buf)@.subrange(0, offset as int) + u32_le_bytes(v) + old(buf)@.subrange(
            offset + 4,
            old(buf)@.len() as int,
        ),
{
    buf[offset] = (v & 0xff) as u8;
    buf[offset + 1] = ((v >> 8u32) & 0xff) as u8;
    buf[offset + 2] = ((v >> 16u32) & 0xff) as u8;
    buf[offset + 3] = ((v >> 24u32) & 0xff) as u8;
    proof {
        lemma_u32_le_bytes_read(v);
        assert(buf@.subrange(offset as int, offset + 4) =~= u32_le_bytes(v));
    }
    assert(buf@ =~= old(buf)@.subrange(0, offset as int) + u32_le_bytes(v) + old(buf)@.subrange(
        offset + 4,
        old(buf)@.len() as int,
    ));
}

/// Copies `src` into `buf` at `offset`.
pub fn write_bytes(buf: &mut [u8], offset: usize, src: &[u8])
    requires
        offset + src@.len() <= old(buf)@.len(),
    ensures
        final(buf)@.len() == old(buf)@.len(),
        final(buf)@.subrange(offset as int, offset + src@.len()) == src@,
        forall|i: int|
            0 <= i < old(buf)@.len() && !(offset <= i < offset + src@.len()) ==> final(buf)@[i]
                == old(buf)@[i],
{
    let n: usize = buf.len();
    let mut k: usize = 0;
    while k < src.len()
        invariant
            k <= src@.len(),
            offset + src@.len() <= buf@.len(),
            buf@.len() == n,
            buf@.len() == old(buf)@.len(),
            forall|j: int| 0 <= j < k ==> buf@[offset + j] == src@[j],
            forall|i: int|
                0 <= i < old(buf)@.len() && !(offset <= i < offset + k) ==> buf@[i] == old(
                    buf,
                )@[i],
        decreases src@.len() - k,
    {
        buf[offset + k] = src[k];
        k = k + 1;
    }
    assert(buf@.subrange(offset as int, offset + src@.len()) =~= src@);
}

/// Sets the `len` bytes at `offset` to zero.
pub fn zero_range(buf: &mut [u8], offset: usize, len: usize)
    requires
        offset + len <= old(buf)@.len(),
    ensures
        final(buf)@.len() == old(buf)@.len(),
        forall|i: int| offset <= i < offset + len ==> final(buf)@[i] == 0u8,
        forall|i: int|
            0 <= i < old(buf)@.len() && !(offset <= i < offset + len) ==> final(buf)@[i] == old(
                buf,
            )@[i],
{
    let n: usize = buf.len();
    let mut k: usize = 0;
    while k < len
        invariant
            k <= len,
            offset + len <= n,
            buf@.len() == n,
            n == old(buf)@.len(),
            forall|i: int| offset <= i < offset + k ==> buf@[i] == 0u8,
            forall|i: int|
                0 <= i < n && !(offset <= i < offset + k) ==> buf@[i] == old(buf)@[i],
        decreases len - k,
    {
        buf[offset + k] = 0;
        k = k + 1;
    }
}

/// The low and high 32-bit halves of a `u64`.
pub fn split_u64(v: u64) -> (r: (u32, u32))
    ensures
        r.0 == v % 0x1_0000_0000,
        r.1 == v / 0x1_0000_0000,
{
    let lo = v as u32;
    let hi = (v >> 32u64) as u32;
    assert(lo == v % 0x1_0000_0000 && hi == v / 0x1_0000_0000) by (bit_vector)
        requires
            lo == v as u32,
            hi == (v >> 32u64) as u32,
    ;
    (lo, hi)
}

/// The low and high 16-bit halves of a `u32`.
pub fn split_u32(v: u32) -> (r: (u16, u16))
    ensures
        r.0 == v % 0x1_0000,
        r.1 == v / 0x1_0000,
{
    let lo = v as u16;
    let hi = (v >> 16u32) as u16;
    assert(lo == v % 0x1_0000 && hi == v / 0x1_0000) by (bit_vector)
        requires
            lo == v as u16,
            hi == (v >> 16u32) as u16,
    ;
    (lo, hi)
}

} // verus!
