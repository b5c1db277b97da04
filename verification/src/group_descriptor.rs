//! Block group descriptor: one entry per block group in the GDT.
//! 32-byte entries on non-64BIT images, 64-byte entries with hi/lo
//! split fields on 64BIT images.

use vstd::prelude::*;
use crate::le::{
    le_u16, le_u32, read_u16, read_u32, split_u32, split_u64, write_u16, write_u32, zero_range,
    lemma_le_u16_same_bytes, lemma_le_u32_same_bytes,
};
use crate::superblock::Superblock;

verus! {

pub const OFF_BLOCK_BITMAP_LO: usize = 0x00;
pub const OFF_INODE_BITMAP_LO: usize = 0x04;
pub const OFF_INODE_TABLE_LO: usize = 0x08;
pub const OFF_FREE_BLOCKS_COUNT_LO: usize = 0x0C;
pub const OFF_FREE_INODES_COUNT_LO: usize = 0x0E;
pub const OFF_USED_DIRS_COUNT_LO: usize = 0x10;
pub const OFF_FLAGS: usize = 0x12;
pub const OFF_CHECKSUM: usize = 0x1E;
pub const OFF_BLOCK_BITMAP_HI: usize = 0x20;
pub const OFF_INODE_BITMAP_HI: usize = 0x24;
pub const OFF_INODE_TABLE_HI: usize = 0x28;
pub const OFF_FREE_BLOCKS_COUNT_HI: usize = 0x2C;
pub const OFF_FREE_INODES_COUNT_HI: usize = 0x2E;
pub const OFF_USED_DIRS_COUNT_HI: usize = 0x30;

/// Group flag: inode table not yet zeroed.
pub const BG_FLAG_INODE_UNINIT: u16 = 0x0001;

/// Group flag: block bitmap not yet initialised.
pub const BG_FLAG_BLOCK_UNINIT: u16 = 0x0002;

/// Group flag: inode table has been zeroed.
pub const BG_FLAG_INODE_ZEROED: u16 = 0x0004;

/// Decoded block group descriptor.
#[derive(Debug, Clone, PartialEq, Eq, Structural)]
pub struct GroupDescriptor {
    /// Block address of the block bitmap.
    pub block_bitmap: u64,
    /// Block address of the inode bitmap.
    pub inode_bitmap: u64,
    /// First block of the inode table.
    pub inode_table: u64,
    /// Free blocks in the group.
    pub free_blocks_count: u32,
    /// Free inodes in the group.
    pub free_inodes_count: u32,
    /// Directories in the group.
    pub used_dirs_count: u32,
    /// `bg_flags`.
    pub flags: u16,
    /// `bg_checksum`, verbatim.
    pub checksum: u16,
}

/// Why a group descriptor entry was rejected.
#[derive(Debug, PartialEq, Eq, Structural)]
pub enum GroupDescriptorDecodeError {
    /// The superblock's entry size is below 32.
    EntrySizeTooSmall { size: u16 },
    /// The buffer is shorter than one entry.
    InputTooSmall { actual: usize, expected: usize },
}

/// Why a group descriptor could not be encoded.
#[derive(Debug, PartialEq, Eq, Structural)]
pub enum GroupDescriptorEncodeError {
    /// The superblock's entry size is below 32.
    EntrySizeTooSmall { size: u16 },
    /// The output buffer is shorter than one entry.
    OutputTooSmall { actual: usize, expected: usize },
}

/// The error, if any, that encoding under `sb` into `out_len` bytes yields.
pub open spec fn group_descriptor_encode_error(out_len: int, sb: Superblock) -> Option<
    GroupDescriptorEncodeError,
> {
    let size = sb.spec_group_descriptor_size();
    if size < 32 {
        Some(GroupDescriptorEncodeError::EntrySizeTooSmall { size })
    } else if out_len < size {
        Some(
            GroupDescriptorEncodeError::OutputTooSmall {
                actual: out_len as usize,
                expected: size as usize,
            },
        )
    } else {
        None
    }
}

/// Byte `i` of an entry of `size` bytes belongs to a modelled field.
pub open spec fn in_group_descriptor_field(i: int, size: int) -> bool {
    ||| 0x00 <= i < 0x14
    ||| 0x1E <= i < 0x20
    ||| (size >= 64 && 0x20 <= i < 0x32)
}

/// A 64-bit address from its 32-bit halves.
pub open spec fn combine_addr_spec(hi: u32, lo: u32) -> u64 {
    (hi as int * 0x1_0000_0000 + lo as int) as u64
}

/// A 32-bit count from its 16-bit halves.
pub open spec fn combine_count_spec(hi: u16, lo: u16) -> u32 {
    (hi as int * 0x1_0000 + lo as int) as u32
}

/// The hi half at `off` of an entry of `size` bytes: 0 on 32-byte entries.
pub open spec fn hi_u32(s: Seq<u8>, size: int, off: int) -> u32 {
    if size >= 64 {
        le_u32(s, off)
    } else {
        0
    }
}

/// The 16-bit hi half at `off` of an entry of `size` bytes.
pub open spec fn hi_u16(s: Seq<u8>, size: int, off: int) -> u16 {
    if size >= 64 {
        le_u16(s, off)
    } else {
        0
    }
}

/// The error, if any, that decoding `s` under `sb` yields.
pub open spec fn group_descriptor_decode_error(s: Seq<u8>, sb: Superblock) -> Option<
    GroupDescriptorDecodeError,
> {
    let size = sb.spec_group_descriptor_size();
    if size < 32 {
        Some(GroupDescriptorDecodeError::EntrySizeTooSmall { size })
    } else if s.len() < size {
        Some(
            GroupDescriptorDecodeError::InputTooSmall {
                actual: s.len() as usize,
                expected: size as usize,
            },
        )
    } else {
        None
    }
}

/// Decoding reads only the entry itself: bytes past `size` make no
/// difference to the outcome.
pub proof fn lemma_group_descriptor_reads_only_entry(
    g: GroupDescriptor,
    s: Seq<u8>,
    sb: Superblock,
)
    requires
        group_descriptor_decode_error(s, sb) is None,
    ensures
        group_descriptor_decode_error(s.take(sb.spec_group_descriptor_size() as int), sb) is None,
        g.decoded_from(s, sb.spec_group_descriptor_size() as int) == g.decoded_from(
            s.take(sb.spec_group_descriptor_size() as int),
            sb.spec_group_descriptor_size() as int,
        ),
{
}

impl GroupDescriptor {
    /// Every field is what the entry `s` holds for an entry of `size` bytes.
    pub open spec fn decoded_from(&self, s: Seq<u8>, size: int) -> bool {
        &&& self.block_bitmap == combine_addr_spec(
            hi_u32(s, size, OFF_BLOCK_BITMAP_HI as int),
            le_u32(s, OFF_BLOCK_BITMAP_LO as int),
        )
        &&& self.inode_bitmap == combine_addr_spec(
            hi_u32(s, size, OFF_INODE_BITMAP_HI as int),
            le_u32(s, OFF_INODE_BITMAP_LO as int),
        )
        &&& self.inode_table == combine_addr_spec(
            hi_u32(s, size, OFF_INODE_TABLE_HI as int),
            le_u32(s, OFF_INODE_TABLE_LO as int),
        )
        &&& self.free_blocks_count == combine_count_spec(
            hi_u16(s, size, OFF_FREE_BLOCKS_COUNT_HI as int),
            le_u16(s, OFF_FREE_BLOCKS_COUNT_LO as int),
        )
        &&& self.free_inodes_count == combine_count_spec(
            hi_u16(s, size, OFF_FREE_INODES_COUNT_HI as int),
            le_u16(s, OFF_FREE_INODES_COUNT_LO as int),
        )
        &&& self.used_dirs_count == combine_count_spec(
            hi_u16(s, size, OFF_USED_DIRS_COUNT_HI as int),
            le_u16(s, OFF_USED_DIRS_COUNT_LO as int),
        )
        &&& self.flags == le_u16(s, OFF_FLAGS as int)
        &&& self.checksum == le_u16(s, OFF_CHECKSUM as int)
    }

    /// The first `size` bytes of `s` are exactly the encoding of `self`
    /// as an entry of `size` bytes: lo halves always, hi halves on
    /// 64-byte entries, zero elsewhere.
    pub open spec fn encoded_in(&self, s: Seq<u8>, size: int) -> bool {
        &&& s.len() >= size
        &&& le_u32(s, OFF_BLOCK_BITMAP_LO as int) == self.block_bitmap % 0x1_0000_0000
        &&& le_u32(s, OFF_INODE_BITMAP_LO as int) == self.inode_bitmap % 0x1_0000_0000
        &&& le_u32(s, OFF_INODE_TABLE_LO as int) == self.inode_table % 0x1_0000_0000
        &&& le_u16(s, OFF_FREE_BLOCKS_COUNT_LO as int) == self.free_blocks_count % 0x1_0000
        &&& le_u16(s, OFF_FREE_INODES_COUNT_LO as int) == self.free_inodes_count % 0x1_0000
        &&& le_u16(s, OFF_USED_DIRS_COUNT_LO as int) == self.used_dirs_count % 0x1_0000
        &&& le_u16(s, OFF_FLAGS as int) == self.flags
        &&& le_u16(s, OFF_CHECKSUM as int) == self.checksum
        &&& size >= 64 ==> {
            &&& le_u32(s, OFF_BLOCK_BITMAP_HI as int) == self.block_bitmap / 0x1_0000_0000
            &&& le_u32(s, OFF_INODE_BITMAP_HI as int) == self.inode_bitmap / 0x1_0000_0000
            &&& le_u32(s, OFF_INODE_TABLE_HI as int) == self.inode_table / 0x1_0000_0000
            &&& le_u16(s, OFF_FREE_BLOCKS_COUNT_HI as int) == self.free_blocks_count / 0x1_0000
            &&& le_u16(s, OFF_FREE_INODES_COUNT_HI as int) == self.free_inodes_count / 0x1_0000
            &&& le_u16(s, OFF_USED_DIRS_COUNT_HI as int) == self.used_dirs_count / 0x1_0000
        }
        &&& forall|i: int|
            0 <= i < size && !in_group_descriptor_field(i, size) ==> #[trigger] s[i] == 0u8
    }

    /// The values an entry of `size` bytes holds unchanged: on 32-byte
    /// entries, addresses must fit 32 bits and counts 16 bits.
    pub open spec fn encodable(&self, size: int) -> bool {
        size >= 64 || (self.block_bitmap <= u32::MAX && self.inode_bitmap <= u32::MAX
            && self.inode_table <= u32::MAX && self.free_blocks_count <= u16::MAX
            && self.free_inodes_count <= u16::MAX && self.used_dirs_count <= u16::MAX)
    }

    /// Encode as one entry of the superblock's entry size at the start of
    /// `buf`: every modelled field at its offset (hi halves only on
    /// 64-byte entries), the rest of the entry zeroed, bytes past it
    /// left as they are.
    #[verifier::rlimit(50)]
    pub fn encode_into(&self, buf: &mut [u8], sb: &Superblock) -> (r: Result<
        (),
        GroupDescriptorEncodeError,
    >)
        ensures
            final(buf)@.len() == old(buf)@.len(),
            match r {
                Ok(()) => {
                    &&& group_descriptor_encode_error(old(buf)@.len() as int, *sb) is None
                    &&& self.encoded_in(final(buf)@, sb.spec_group_descriptor_size() as int)
                    &&& final(buf)@.skip(sb.spec_group_descriptor_size() as int) == old(
                        buf,
                    )@.skip(sb.spec_group_descriptor_size() as int)
                },
                Err(e) => {
                    &&& group_descriptor_encode_error(old(buf)@.len() as int, *sb) == Some(e)
                    &&& final(buf)@ == old(buf)@
                },
            },
    {
        let entry_size = sb.group_descriptor_size() as usize;
        if entry_size < 32 {
            return Err(GroupDescriptorEncodeError::EntrySizeTooSmall { size: entry_size as u16 });
        }
        if buf.len() < entry_size {
            return Err(
                GroupDescriptorEncodeError::OutputTooSmall { actual: buf.len(), expected: entry_size },
            );
        }
        let (bb_lo, bb_hi) = split_u64(self.block_bitmap);
        let (ib_lo, ib_hi) = split_u64(self.inode_bitmap);
        let (it_lo, it_hi) = split_u64(self.inode_table);
        let (fb_lo, fb_hi) = split_u32(self.free_blocks_count);
        let (fi_lo, fi_hi) = split_u32(self.free_inodes_count);
        let (ud_lo, ud_hi) = split_u32(self.used_dirs_count);
        zero_range(buf, 0, entry_size);
        write_u32(buf, OFF_BLOCK_BITMAP_LO, bb_lo);
        write_u32(buf, OFF_INODE_BITMAP_LO, ib_lo);
        write_u32(buf, OFF_INODE_TABLE_LO, it_lo);
        write_u16(buf, OFF_FREE_BLOCKS_COUNT_LO, fb_lo);
        write_u16(buf, OFF_FREE_INODES_COUNT_LO, fi_lo);
        write_u16(buf, OFF_USED_DIRS_COUNT_LO, ud_lo);
        write_u16(buf, OFF_FLAGS, self.flags);
        write_u16(buf, OFF_CHECKSUM, self.checksum);
        let ghost lo_done = buf@;
        proof {
            assert(le_u32(lo_done, OFF_BLOCK_BITMAP_LO as int) == bb_lo);
            assert(le_u32(lo_done, OFF_INODE_BITMAP_LO as int) == ib_lo);
            assert(le_u32(lo_done, OFF_INODE_TABLE_LO as int) == it_lo);
            assert(le_u16(lo_done, OFF_FREE_BLOCKS_COUNT_LO as int) == fb_lo);
            assert(le_u16(lo_done, OFF_FREE_INODES_COUNT_LO as int) == fi_lo);
            assert(le_u16(lo_done, OFF_USED_DIRS_COUNT_LO as int) == ud_lo);
            assert(le_u16(lo_done, OFF_FLAGS as int) == self.flags);
            assert(le_u16(lo_done, OFF_CHECKSUM as int) == self.checksum);
            assert forall|i: int|
                0 <= i < entry_size && !(0x00 <= i < 0x14 || 0x1E <= i < 0x20) implies #[trigger] lo_done[i]
                == 0u8 by {}
        }
        if entry_size >= 64 {
            write_u32(buf, OFF_BLOCK_BITMAP_HI, bb_hi);
            write_u32(buf, OFF_INODE_BITMAP_HI, ib_hi);
            write_u32(buf, OFF_INODE_TABLE_HI, it_hi);
            write_u16(buf, OFF_FREE_BLOCKS_COUNT_HI, fb_hi);
            write_u16(buf, OFF_FREE_INODES_COUNT_HI, fi_hi);
            write_u16(buf, OFF_USED_DIRS_COUNT_HI, ud_hi);
            proof {
                assert forall|i: int| 0 <= i < 0x20 implies #[trigger] buf@[i] == lo_done[i] by {}
                assert(le_u32(buf@, OFF_BLOCK_BITMAP_LO as int) == bb_lo);
                assert(le_u32(buf@, OFF_INODE_BITMAP_LO as int) == ib_lo);
                assert(le_u32(buf@, OFF_INODE_TABLE_LO as int) == it_lo);
                assert(le_u16(buf@, OFF_FREE_BLOCKS_COUNT_LO as int) == fb_lo);
                assert(le_u16(buf@, OFF_FREE_INODES_COUNT_LO as int) == fi_lo);
                assert(le_u16(buf@, OFF_USED_DIRS_COUNT_LO as int) == ud_lo);
                assert(le_u16(buf@, OFF_FLAGS as int) == self.flags);
                assert(le_u16(buf@, OFF_CHECKSUM as int) == self.checksum);
                assert(le_u32(buf@, OFF_BLOCK_BITMAP_HI as int) == bb_hi);
                assert(le_u32(buf@, OFF_INODE_BITMAP_HI as int) == ib_hi);
                assert(le_u32(buf@, OFF_INODE_TABLE_HI as int) == it_hi);
                assert(le_u16(buf@, OFF_FREE_BLOCKS_COUNT_HI as int) == fb_hi);
                assert(le_u16(buf@, OFF_FREE_INODES_COUNT_HI as int) == fi_hi);
                assert(le_u16(buf@, OFF_USED_DIRS_COUNT_HI as int) == ud_hi);
                assert forall|i: int|
                    0 <= i < entry_size && !in_group_descriptor_field(i, entry_size as int) implies #[trigger] buf@[i]
                    == 0u8 by {
                    if i < 0x20 {
                        assert(buf@[i] == lo_done[i]);
                    }
                }
            }
        }
        proof {
            assert(buf@.skip(entry_size as int) =~= old(buf)@.skip(entry_size as int));
        }
        Ok(())
    }

    /// Decode a group descriptor entry, with the entry size and hi/lo
    /// rule taken from the superblock. Bytes past the entry are not read.
    pub fn decode(buf: &[u8], sb: &Superblock) -> (r: Result<Self, GroupDescriptorDecodeError>)
        ensures
            match r {
                Ok(gd) => group_descriptor_decode_error(buf@, *sb) is None && gd.decoded_from(
                    buf@,
                    sb.spec_group_descriptor_size() as int,
                ),
                Err(e) => group_descriptor_decode_error(buf@, *sb) == Some(e),
            },
    {
        let entry_size = sb.group_descriptor_size() as usize;
        if entry_size < 32 {
            return Err(GroupDescriptorDecodeError::EntrySizeTooSmall { size: entry_size as u16 });
        }
        if buf.len() < entry_size {
            return Err(
                GroupDescriptorDecodeError::InputTooSmall { actual: buf.len(), expected: entry_size },
            );
        }

        let block_bitmap_lo = read_u32(buf, OFF_BLOCK_BITMAP_LO);
        let inode_bitmap_lo = read_u32(buf, OFF_INODE_BITMAP_LO);
        let inode_table_lo = read_u32(buf, OFF_INODE_TABLE_LO);
        let free_blocks_lo = read_u16(buf, OFF_FREE_BLOCKS_COUNT_LO);
        let free_inodes_lo = read_u16(buf, OFF_FREE_INODES_COUNT_LO);
        let used_dirs_lo = read_u16(buf, OFF_USED_DIRS_COUNT_LO);
        let flags = read_u16(buf, OFF_FLAGS);
        let checksum = read_u16(buf, OFF_CHECKSUM);

        let (block_bitmap_hi, inode_bitmap_hi, inode_table_hi, free_blocks_hi, free_inodes_hi, used_dirs_hi) =
            if entry_size >= 64 {
            (
                read_u32(buf, OFF_BLOCK_BITMAP_HI),
                read_u32(buf, OFF_INODE_BITMAP_HI),
                read_u32(buf, OFF_INODE_TABLE_HI),
                read_u16(buf, OFF_FREE_BLOCKS_COUNT_HI),
                read_u16(buf, OFF_FREE_INODES_COUNT_HI),
                read_u16(buf, OFF_USED_DIRS_COUNT_HI),
            )
        } else {
            (0, 0, 0, 0, 0, 0)
        };

        Ok(GroupDescriptor {
            block_bitmap: combine_addr(block_bitmap_hi, block_bitmap_lo),
            inode_bitmap: combine_addr(inode_bitmap_hi, inode_bitmap_lo),
            inode_table: combine_addr(inode_table_hi, inode_table_lo),
            free_blocks_count: combine_count(free_blocks_hi, free_blocks_lo),
            free_inodes_count: combine_count(free_inodes_hi, free_inodes_lo),
            used_dirs_count: combine_count(used_dirs_hi, used_dirs_lo),
            flags,
            checksum,
        })
    }

    /// True iff the group's block bitmap is uninitialised.
    pub fn is_block_uninit(&self) -> (r: bool)
        ensures
            r == (self.flags & BG_FLAG_BLOCK_UNINIT != 0),
    {
        self.flags & BG_FLAG_BLOCK_UNINIT != 0
    }

    /// True iff the group's inode bitmap is uninitialised.
    pub fn is_inode_uninit(&self) -> (r: bool)
        ensures
            r == (self.flags & BG_FLAG_INODE_UNINIT != 0),
    {
        self.flags & BG_FLAG_INODE_UNINIT != 0
    }
}

/// A descriptor fixes the bytes of the entry it is encoded in: two
/// encodings of one descriptor agree on all `size` bytes.
pub proof fn lemma_group_descriptor_encoding_unique(g: GroupDescriptor, a: Seq<u8>, b: Seq<u8>, size: int)
    requires
        size >= 32,
        g.encoded_in(a, size),
        g.encoded_in(b, size),
    ensures
        a.take(size) == b.take(size),
{
    lemma_le_u32_same_bytes(a, b, OFF_BLOCK_BITMAP_LO as int);
    lemma_le_u32_same_bytes(a, b, OFF_INODE_BITMAP_LO as int);
    lemma_le_u32_same_bytes(a, b, OFF_INODE_TABLE_LO as int);
    lemma_le_u16_same_bytes(a, b, OFF_FREE_BLOCKS_COUNT_LO as int);
    lemma_le_u16_same_bytes(a, b, OFF_FREE_INODES_COUNT_LO as int);
    lemma_le_u16_same_bytes(a, b, OFF_USED_DIRS_COUNT_LO as int);
    lemma_le_u16_same_bytes(a, b, OFF_FLAGS as int);
    lemma_le_u16_same_bytes(a, b, OFF_CHECKSUM as int);
    if size >= 64 {
        lemma_le_u32_same_bytes(a, b, OFF_BLOCK_BITMAP_HI as int);
        lemma_le_u32_same_bytes(a, b, OFF_INODE_BITMAP_HI as int);
        lemma_le_u32_same_bytes(a, b, OFF_INODE_TABLE_HI as int);
        lemma_le_u16_same_bytes(a, b, OFF_FREE_BLOCKS_COUNT_HI as int);
        lemma_le_u16_same_bytes(a, b, OFF_FREE_INODES_COUNT_HI as int);
        lemma_le_u16_same_bytes(a, b, OFF_USED_DIRS_COUNT_HI as int);
    }
    assert forall|i: int| 0 <= i < size implies a.take(size)[i] == b.take(size)[i] by {
        assert(a.take(size)[i] == a[i]);
        assert(b.take(size)[i] == b[i]);
        if !in_group_descriptor_field(i, size) {
            assert(a[i] == 0u8);
            assert(b[i] == 0u8);
        }
    }
    assert(a.take(size) =~= b.take(size));
}

/// A group descriptor decoded from an entry holds each field read from
/// its on-disk offset: `bg_block_bitmap_lo` at 0x00, `bg_inode_bitmap_lo`
/// at 0x04, `bg_inode_table_lo` at 0x08, `bg_free_blocks_count_lo` at
/// 0x0C, `bg_free_inodes_count_lo` at 0x0E, `bg_used_dirs_count_lo` at
/// 0x10, `bg_flags` at 0x12, `bg_checksum` at 0x1E; on 64-byte entries
/// the high halves at 0x20, 0x24, 0x28, 0x2C, 0x2E and 0x30 count too.
pub proof fn lemma_group_descriptor_field_offsets(g: GroupDescriptor, s: Seq<u8>, size: int)
    requires
        g.decoded_from(s, size),
        s.len() >= size >= 32,
    ensures
        size < 64 ==> {
            &&& g.block_bitmap == le_u32(s, 0x00)
            &&& g.inode_bitmap == le_u32(s, 0x04)
            &&& g.inode_table == le_u32(s, 0x08)
            &&& g.free_blocks_count == le_u16(s, 0x0C)
            &&& g.free_inodes_count == le_u16(s, 0x0E)
            &&& g.used_dirs_count == le_u16(s, 0x10)
        },
        size >= 64 ==> {
            &&& g.block_bitmap == le_u32(s, 0x20) * 0x1_0000_0000 + le_u32(s, 0x00)
            &&& g.inode_bitmap == le_u32(s, 0x24) * 0x1_0000_0000 + le_u32(s, 0x04)
            &&& g.inode_table == le_u32(s, 0x28) * 0x1_0000_0000 + le_u32(s, 0x08)
            &&& g.free_blocks_count == le_u16(s, 0x2C) * 0x1_0000 + le_u16(s, 0x0C)
            &&& g.free_inodes_count == le_u16(s, 0x2E) * 0x1_0000 + le_u16(s, 0x0E)
            &&& g.used_dirs_count == le_u16(s, 0x30) * 0x1_0000 + le_u16(s, 0x10)
        },
        g.flags == le_u16(s, 0x12),
        g.checksum == le_u16(s, 0x1E),
{
    if size >= 64 {
        let (a, b, c) = (le_u32(s, 0x20), le_u32(s, 0x24), le_u32(s, 0x28));
        let (a0, b0, c0) = (le_u32(s, 0x00), le_u32(s, 0x04), le_u32(s, 0x08));
        assert(a * 0x1_0000_0000 + a0 < 0x1_0000_0000_0000_0000 && b * 0x1_0000_0000 + b0
            < 0x1_0000_0000_0000_0000 && c * 0x1_0000_0000 + c0 < 0x1_0000_0000_0000_0000)
            by (nonlinear_arith)
            requires
                a < 0x1_0000_0000,
                b < 0x1_0000_0000,
                c < 0x1_0000_0000,
                a0 < 0x1_0000_0000,
                b0 < 0x1_0000_0000,
                c0 < 0x1_0000_0000,
        ;
        let (d, e, f) = (le_u16(s, 0x2C), le_u16(s, 0x2E), le_u16(s, 0x30));
        let (d0, e0, f0) = (le_u16(s, 0x0C), le_u16(s, 0x0E), le_u16(s, 0x10));
        assert(d * 0x1_0000 + d0 < 0x1_0000_0000 && e * 0x1_0000 + e0 < 0x1_0000_0000 && f
            * 0x1_0000 + f0 < 0x1_0000_0000) by (nonlinear_arith)
            requires
                d < 0x1_0000,
                e < 0x1_0000,
                f < 0x1_0000,
                d0 < 0x1_0000,
                e0 < 0x1_0000,
                f0 < 0x1_0000,
        ;
    }
}

/// Encoding then decoding an entry gives it back, when its values fit
/// the entry size.
pub proof fn lemma_group_descriptor_encode_decode(g: GroupDescriptor, s: Seq<u8>, sb: Superblock)
    requires
        sb.spec_group_descriptor_size() >= 32,
        g.encodable(sb.spec_group_descriptor_size() as int),
        g.encoded_in(s, sb.spec_group_descriptor_size() as int),
    ensures
        group_descriptor_decode_error(s, sb) is None,
        g.decoded_from(s, sb.spec_group_descriptor_size() as int),
{
}

/// A 64-bit address from its 32-bit halves.
fn combine_addr(hi: u32, lo: u32) -> (r: u64)
    ensures
        r == combine_addr_spec(hi, lo),
{
    let r = ((hi as u64) << 32u64) | (lo as u64);
    assert(r == hi as int * 0x1_0000_0000 + lo as int) by (bit_vector)
        requires
            r == ((hi as u64) << 32u64) | (lo as u64),
    ;
    r
}

/// A 32-bit count from its 16-bit halves.
fn combine_count(hi: u16, lo: u16) -> (r: u32)
    ensures
        r == combine_count_spec(hi, lo),
{
    let r = ((hi as u32) << 16u32) | (lo as u32);
    assert(r == hi as int * 0x1_0000 + lo as int) by (bit_vector)
        requires
            r == ((hi as u32) << 16u32) | (lo as u32),
    ;
    r
}

} // verus!
