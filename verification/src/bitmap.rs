//! Bit-level helpers for ext4 block and inode bitmaps. Bit `N` lives in
//! byte `N / 8` under mask `1 << (N % 8)` (little-endian within a byte).

use vstd::prelude::*;

verus! {

/// The mask of bit `bit` within its byte.
pub open spec fn bit_mask(bit: int) -> u8 {
    (1u8 << ((bit % 8) as u8)) as u8
}

/// True iff bit `bit` of the bitmap `s` is set; bits past the end read
/// as clear.
pub open spec fn bit_set(s: Seq<u8>, bit: int) -> bool {
    0 <= bit && bit / 8 < s.len() && s[bit / 8] & bit_mask(bit) != 0
}

/// Bits `start .. start + n` of `s` are all clear.
pub open spec fn clear_run(s: Seq<u8>, start: int, n: int) -> bool {
    forall|c: int| start <= c < start + n ==> !#[trigger] bit_set(s, c)
}

proof fn lemma_mask_bits(x: u8, k: u8, j: u8)
    requires
        k < 8,
        j < 8,
    ensures
        (x | (1u8 << k)) & (1u8 << k) != 0,
        (x & !(1u8 << k)) & (1u8 << k) == 0,
        k != j ==> (((x | (1u8 << k)) & (1u8 << j) != 0) == (x & (1u8 << j) != 0)),
        k != j ==> (((x & !(1u8 << k)) & (1u8 << j) != 0) == (x & (1u8 << j) != 0)),
        0xFFu8 & (1u8 << k) != 0,
{
    assert((x | (1u8 << k)) & (1u8 << k) != 0) by (bit_vector)
        requires
            k < 8,
    ;
    assert((x & !(1u8 << k)) & (1u8 << k) == 0) by (bit_vector)
        requires
            k < 8,
    ;
    assert(k != j ==> (((x | (1u8 << k)) & (1u8 << j) != 0) == (x & (1u8 << j) != 0)))
        by (bit_vector)
        requires
            k < 8,
            j < 8,
    ;
    assert(k != j ==> (((x & !(1u8 << k)) & (1u8 << j) != 0) == (x & (1u8 << j) != 0)))
        by (bit_vector)
        requires
            k < 8,
            j < 8,
    ;
    assert(0xFFu8 & (1u8 << k) != 0) by (bit_vector)
        requires
            k < 8,
    ;
}

/// A byte is fixed by its eight bits.
proof fn lemma_byte_from_bits(x: u8, y: u8)
    requires
        forall|m: u8| m < 8 ==> ((x & (1u8 << m)) != 0) == ((y & (1u8 << m)) != 0),
    ensures
        x == y,
{
    let b0 = ((x & (1u8 << 0u8)) != 0) == ((y & (1u8 << 0u8)) != 0);
    let b1 = ((x & (1u8 << 1u8)) != 0) == ((y & (1u8 << 1u8)) != 0);
    let b2 = ((x & (1u8 << 2u8)) != 0) == ((y & (1u8 << 2u8)) != 0);
    let b3 = ((x & (1u8 << 3u8)) != 0) == ((y & (1u8 << 3u8)) != 0);
    let b4 = ((x & (1u8 << 4u8)) != 0) == ((y & (1u8 << 4u8)) != 0);
    let b5 = ((x & (1u8 << 5u8)) != 0) == ((y & (1u8 << 5u8)) != 0);
    let b6 = ((x & (1u8 << 6u8)) != 0) == ((y & (1u8 << 6u8)) != 0);
    let b7 = ((x & (1u8 << 7u8)) != 0) == ((y & (1u8 << 7u8)) != 0);
    assert(b0 && b1 && b2 && b3 && b4 && b5 && b6 && b7);
    assert(x == y) by (bit_vector)
        requires
            ((x & (1u8 << 0u8)) != 0) == ((y & (1u8 << 0u8)) != 0),
            ((x & (1u8 << 1u8)) != 0) == ((y & (1u8 << 1u8)) != 0),
            ((x & (1u8 << 2u8)) != 0) == ((y & (1u8 << 2u8)) != 0),
            ((x & (1u8 << 3u8)) != 0) == ((y & (1u8 << 3u8)) != 0),
            ((x & (1u8 << 4u8)) != 0) == ((y & (1u8 << 4u8)) != 0),
            ((x & (1u8 << 5u8)) != 0) == ((y & (1u8 << 5u8)) != 0),
            ((x & (1u8 << 6u8)) != 0) == ((y & (1u8 << 6u8)) != 0),
            ((x & (1u8 << 7u8)) != 0) == ((y & (1u8 << 7u8)) != 0),
    ;
}

/// Two bitmaps of one length with the same bits set are the same bytes.
pub proof fn lemma_bits_fix_bitmap(x: Seq<u8>, y: Seq<u8>)
    requires
        x.len() == y.len(),
        forall|k: int| 0 <= k < 8 * x.len() ==> #[trigger] bit_set(x, k) == bit_set(y, k),
    ensures
        x == y,
{
    assert forall|j: int| 0 <= j < x.len() implies x[j] == y[j] by {
        assert forall|m: u8| m < 8 implies ((x[j] & (1u8 << m)) != 0) == ((y[j] & (1u8 << m)) != 0) by {
            let k = 8 * j + m;
            assert(k / 8 == j && k % 8 == m);
            assert(bit_set(x, k) == bit_set(y, k));
            assert(bit_mask(k) == 1u8 << m);
        }
        lemma_byte_from_bits(x[j], y[j]);
    }
    assert(x =~= y);
}

/// No bit of an all-zero bitmap is set.
pub proof fn lemma_zero_bitmap_clear(s: Seq<u8>)
    requires
        forall|i: int| 0 <= i < s.len() ==> s[i] == 0u8,
    ensures
        forall|k: int| !#[trigger] bit_set(s, k),
{
    assert forall|k: int| !#[trigger] bit_set(s, k) by {
        if 0 <= k && k / 8 < s.len() {
            assert(s[k / 8] == 0u8);
            let m = bit_mask(k);
            assert(0u8 & m == 0u8) by (bit_vector);
        }
    }
}

/// Test bit `bit`; indices past the buffer read as clear.
pub fn get_bit(buf: &[u8], bit: usize) -> (r: bool)
    ensures
        r == bit_set(buf@, bit as int),
{
    let byte = bit / 8;
    if byte >= buf.len() {
        return false;
    }
    let mask = 1u8 << ((bit % 8) as u8);
    buf[byte] & mask != 0
}

/// Set bit `bit`. The bit must lie inside the buffer.
pub fn set_bit(buf: &mut [u8], bit: usize)
    requires
        bit / 8 < old(buf)@.len(),
    ensures
        final(buf)@ == with_bit_set(old(buf)@, bit as int),
        bit_set(final(buf)@, bit as int),
        forall|c: int|
            c != bit ==> #[trigger] bit_set(final(buf)@, c) == bit_set(old(buf)@, c),
{
    let byte = bit / 8;
    let mask = 1u8 << ((bit % 8) as u8);
    buf[byte] = buf[byte] | mask;
    proof {
        let x = old(buf)@[byte as int];
        assert forall|c: int| c != bit implies #[trigger] bit_set(buf@, c) == bit_set(
            old(buf)@,
            c,
        ) by {
            if 0 <= c && c / 8 == byte {
                lemma_mask_bits(x, (bit % 8) as u8, (c % 8) as u8);
            }
        }
        lemma_mask_bits(x, (bit % 8) as u8, 0);
    }
}

/// Clear bit `bit`. The bit must lie inside the buffer.
pub fn clear_bit(buf: &mut [u8], bit: usize)
    requires
        bit / 8 < old(buf)@.len(),
    ensures
        final(buf)@ == with_bit_cleared(old(buf)@, bit as int),
        !bit_set(final(buf)@, bit as int),
        forall|c: int|
            c != bit ==> #[trigger] bit_set(final(buf)@, c) == bit_set(old(buf)@, c),
{
    let byte = bit / 8;
    let mask = 1u8 << ((bit % 8) as u8);
    buf[byte] = buf[byte] & !mask;
    proof {
        let x = old(buf)@[byte as int];
        assert forall|c: int| c != bit implies #[trigger] bit_set(buf@, c) == bit_set(
            old(buf)@,
            c,
        ) by {
            if 0 <= c && c / 8 == byte {
                lemma_mask_bits(x, (bit % 8) as u8, (c % 8) as u8);
            }
        }
        lemma_mask_bits(x, (bit % 8) as u8, 0);
    }
}

/// The bitmap `s` with bit `bit` set.
pub open spec fn with_bit_set(s: Seq<u8>, bit: int) -> Seq<u8> {
    s.update(bit / 8, s[bit / 8] | bit_mask(bit))
}

/// The bitmap `s` with bit `bit` cleared.
pub open spec fn with_bit_cleared(s: Seq<u8>, bit: int) -> Seq<u8> {
    s.update(bit / 8, s[bit / 8] & !bit_mask(bit))
}

/// Setting a bit makes it read as set, clearing it makes it read as
/// clear, and neither touches any other bit. So clearing after setting
/// a clear bit restores its reading, and setting after clearing a set one.
pub proof fn lemma_bit_set_clear_get(s: Seq<u8>, bit: int, other: int)
    requires
        0 <= bit,
        bit / 8 < s.len(),
        other != bit,
    ensures
        bit_set(with_bit_set(s, bit), bit),
        !bit_set(with_bit_cleared(s, bit), bit),
        bit_set(with_bit_set(s, bit), other) == bit_set(s, other),
        bit_set(with_bit_cleared(s, bit), other) == bit_set(s, other),
        bit_set(with_bit_cleared(with_bit_set(s, bit), bit), bit) == false,
        bit_set(with_bit_set(with_bit_cleared(s, bit), bit), bit) == true,
{
    let x = s[bit / 8];
    lemma_mask_bits(x, (bit % 8) as u8, 0);
    lemma_mask_bits(x | bit_mask(bit), (bit % 8) as u8, 0);
    lemma_mask_bits(x & !bit_mask(bit), (bit % 8) as u8, 0);
    if 0 <= other && other / 8 == bit / 8 {
        lemma_mask_bits(x, (bit % 8) as u8, (other % 8) as u8);
    }
}

/// Bit `8 * byte + k` is bit `k` of byte `byte`.
proof fn lemma_bit_in_byte(s: Seq<u8>, byte: int, k: int)
    requires
        0 <= byte,
        0 <= k < 8,
    ensures
        (8 * byte + k) / 8 == byte,
        (8 * byte + k) % 8 == k,
        bit_set(s, 8 * byte + k) == (byte < s.len() && s[byte] & (1u8 << (k as u8)) != 0),
{
}

/// Lowest clear bit below `max_bit` (and inside the buffer), or `None`
/// when every such bit is set.
pub fn find_first_zero(buf: &[u8], max_bit: usize) -> (r: Option<usize>)
    ensures
        match r {
            Some(b) => {
                &&& b < max_bit
                &&& b / 8 < buf@.len()
                &&& !bit_set(buf@, b as int)
                &&& forall|c: int| 0 <= c < b ==> #[trigger] bit_set(buf@, c)
            },
            None => forall|c: int|
                0 <= c < max_bit && c / 8 < buf@.len() ==> #[trigger] bit_set(buf@, c),
        },
{
    let ceil = max_bit / 8 + if max_bit % 8 != 0 {
        1
    } else {
        0
    };
    let max_byte = if ceil < buf.len() {
        ceil
    } else {
        buf.len()
    };
    let mut byte_idx: usize = 0;
    while byte_idx < max_byte
        invariant
            byte_idx <= max_byte,
            max_byte <= buf@.len(),
            max_byte <= ceil,
            ceil == max_bit / 8 + if max_bit % 8 != 0 {
                1int
            } else {
                0int
            },
            forall|c: int| 0 <= c < 8 * byte_idx ==> #[trigger] bit_set(buf@, c),
        decreases max_byte - byte_idx,
    {
        let byte = buf[byte_idx];
        let base = byte_idx * 8;
        if byte == 0xFF {
            assert forall|c: int| 0 <= c < 8 * (byte_idx + 1) implies #[trigger] bit_set(
                buf@,
                c,
            ) by {
                if c >= 8 * byte_idx {
                    lemma_bit_in_byte(buf@, byte_idx as int, c - 8 * byte_idx);
                    lemma_mask_bits(byte, (c - 8 * byte_idx) as u8, 0);
                }
            }
        } else {
            let mut bit_in_byte: usize = 0;
            while bit_in_byte < 8
                invariant
                    bit_in_byte <= 8,
                    byte_idx < max_byte,
                    max_byte <= buf@.len(),
                    max_byte <= ceil,
                    ceil == max_bit / 8 + if max_bit % 8 != 0 {
                        1int
                    } else {
                        0int
                    },
                    base == 8 * byte_idx,
                    byte == buf@[byte_idx as int],
                    base < max_bit,
                    forall|c: int| 0 <= c < base + bit_in_byte ==> #[trigger] bit_set(buf@, c),
                decreases 8 - bit_in_byte,
            {
                if bit_in_byte >= max_bit - base {
                    return None;
                }
                let bit = base + bit_in_byte;
                proof {
                    lemma_bit_in_byte(buf@, byte_idx as int, bit_in_byte as int);
                }
                if byte & (1u8 << (bit_in_byte as u8)) == 0 {
                    return Some(bit);
                }
                bit_in_byte = bit_in_byte + 1;
            }
        }
        byte_idx = byte_idx + 1;
    }
    None
}

/// Lowest start of a run of `n` consecutive clear bits lying wholly below
/// `max_bit`, or `None` when there is no such run. Bits past the buffer
/// read as clear. `n = 0` gives `Some(0)`.
pub fn find_first_zero_run(buf: &[u8], n: usize, max_bit: usize) -> (r: Option<usize>)
    ensures
        n == 0 ==> r == Some(0usize),
        n > 0 ==> match r {
            Some(start) => {
                &&& start + n <= max_bit
                &&& clear_run(buf@, start as int, n as int)
                &&& forall|s: int| 0 <= s < start ==> !#[trigger] clear_run(buf@, s, n as int)
            },
            None => forall|s: int|
                0 <= s && s + n <= max_bit ==> !#[trigger] clear_run(buf@, s, n as int),
        },
{
    if n == 0 {
        return Some(0);
    }
    let mut run_len: usize = 0;
    let mut bit: usize = 0;
    while bit < max_bit
        invariant
            n > 0,
            bit <= max_bit,
            run_len <= bit,
            run_len < n,
            clear_run(buf@, bit - run_len, run_len as int),
            run_len < bit ==> bit_set(buf@, bit - run_len - 1),
            forall|s: int| 0 <= s && s + n <= bit ==> !#[trigger] clear_run(buf@, s, n as int),
        decreases max_bit - bit,
    {
        if !get_bit(buf, bit) {
            run_len = run_len + 1;
            if run_len == n {
                let start = bit + 1 - n;
                assert(clear_run(buf@, start as int, n as int));
                assert forall|s: int| 0 <= s < start implies !#[trigger] clear_run(
                    buf@,
                    s,
                    n as int,
                ) by {
                    if s + n > bit {
                        assert(bit_set(buf@, start - 1));
                        assert(s <= start - 1 < s + n);
                    }
                }
                return Some(start);
            }
        } else {
            assert forall|s: int| 0 <= s && s + n <= bit + 1 implies !#[trigger] clear_run(
                buf@,
                s,
                n as int,
            ) by {
                if s + n == bit + 1 {
                    assert(s <= bit < s + n);
                }
            }
            run_len = 0;
        }
        bit = bit + 1;
    }
    None
}

/// Bit `k` of a bitmap is bit `k % 8` of byte `k / 8`, counting from the
/// least significant bit: the byte divided by `2^(k % 8)` is odd.
pub proof fn lemma_bit_order(s: Seq<u8>, k: int)
    requires
        0 <= k,
        k / 8 < s.len(),
    ensures
        k % 8 == 0 ==> (bit_set(s, k) <==> s[k / 8] % 2 == 1),
        k % 8 == 1 ==> (bit_set(s, k) <==> (s[k / 8] / 2) % 2 == 1),
        k % 8 == 2 ==> (bit_set(s, k) <==> (s[k / 8] / 4) % 2 == 1),
        k % 8 == 3 ==> (bit_set(s, k) <==> (s[k / 8] / 8) % 2 == 1),
        k % 8 == 4 ==> (bit_set(s, k) <==> (s[k / 8] / 16) % 2 == 1),
        k % 8 == 5 ==> (bit_set(s, k) <==> (s[k / 8] / 32) % 2 == 1),
        k % 8 == 6 ==> (bit_set(s, k) <==> (s[k / 8] / 64) % 2 == 1),
        k % 8 == 7 ==> (bit_set(s, k) <==> (s[k / 8] / 128) % 2 == 1),
{
    let x = s[k / 8];
    assert({
        &&& (1u8 << 0u8) == 1u8
        &&& (1u8 << 1u8) == 2u8
        &&& (1u8 << 2u8) == 4u8
        &&& (1u8 << 3u8) == 8u8
        &&& (1u8 << 4u8) == 16u8
        &&& (1u8 << 5u8) == 32u8
        &&& (1u8 << 6u8) == 64u8
        &&& (1u8 << 7u8) == 128u8
        &&& ((x & 1u8) != 0) == (x % 2 == 1)
        &&& ((x & 2u8) != 0) == ((x / 2) % 2 == 1)
        &&& ((x & 4u8) != 0) == ((x / 4) % 2 == 1)
        &&& ((x & 8u8) != 0) == ((x / 8) % 2 == 1)
        &&& ((x & 16u8) != 0) == ((x / 16) % 2 == 1)
        &&& ((x & 32u8) != 0) == ((x / 32) % 2 == 1)
        &&& ((x & 64u8) != 0) == ((x / 64) % 2 == 1)
        &&& ((x & 128u8) != 0) == ((x / 128) % 2 == 1)
    }) by (bit_vector);
}

} // verus!
