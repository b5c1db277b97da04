//! Ext4 superblock: decode of the 1024-byte struct at byte offset
//! 1024 within the partition.

use vstd::prelude::*;
use vstd::utf8::valid_utf8;
use vstd::string::StringSliceAdditionalSpecFns;
use crate::le::{
    le_u16, le_u32, read_u16, read_u32, read_array, split_u64, write_bytes, write_u16, write_u32,
    zero_range, lemma_le_u16_same_bytes, lemma_le_u32_same_bytes, lemma_same_bytes_in,
};
use crate::text::str_from_utf8;

verus! {

/// Byte offset of the primary superblock within the partition.
pub const SUPERBLOCK_OFFSET: u64 = 1024;

/// Size of the superblock struct on disk.
pub const SUPERBLOCK_SIZE: usize = 1024;

/// Magic at offset 0x38, shared by ext2, ext3 and ext4.
pub const EXT4_MAGIC: u16 = 0xEF53;

/// `INCOMPAT_64BIT`: 64-bit block counts and 64-byte group descriptors.
pub const FEATURE_INCOMPAT_64BIT: u32 = 0x80;

/// Group descriptor size when `INCOMPAT_64BIT` is clear.
pub const GDT_ENTRY_SIZE_32: u16 = 32;

pub const OFF_INODES_COUNT: usize = 0x00;
pub const OFF_BLOCKS_COUNT_LO: usize = 0x04;
pub const OFF_FREE_BLOCKS_COUNT_LO: usize = 0x0C;
pub const OFF_FREE_INODES_COUNT: usize = 0x10;
pub const OFF_FIRST_DATA_BLOCK: usize = 0x14;
pub const OFF_LOG_BLOCK_SIZE: usize = 0x18;
pub const OFF_BLOCKS_PER_GROUP: usize = 0x20;
pub const OFF_INODES_PER_GROUP: usize = 0x28;
pub const OFF_MAGIC: usize = 0x38;
pub const OFF_REV_LEVEL: usize = 0x4C;
pub const OFF_INODE_SIZE: usize = 0x58;
pub const OFF_FEATURE_COMPAT: usize = 0x5C;
pub const OFF_FEATURE_INCOMPAT: usize = 0x60;
pub const OFF_FEATURE_RO_COMPAT: usize = 0x64;
pub const OFF_UUID: usize = 0x68;
pub const OFF_VOLUME_NAME: usize = 0x78;
pub const OFF_DESC_SIZE: usize = 0xFE;
pub const OFF_BLOCKS_COUNT_HI: usize = 0x150;
pub const OFF_FREE_BLOCKS_COUNT_HI: usize = 0x154;

/// Revision at which `s_inode_size` and the other dynamic fields exist.
pub const REV_DYNAMIC: u32 = 1;

/// Inode size of rev-0 images, and of rev-1 images whose field reads 0.
pub const DEFAULT_INODE_SIZE: u16 = 128;

/// Decoded ext4 superblock.
#[derive(Debug, Clone, PartialEq, Eq)]
pub struct Superblock {
    /// Bytes per block (1 KiB / 2 KiB / 4 KiB / 64 KiB).
    pub block_size: u32,
    /// Total inodes in the filesystem.
    pub inodes_count: u32,
    /// Total blocks; hi word only on 64BIT images.
    pub blocks_count: u64,
    /// Free blocks; same hi/lo rule as `blocks_count`.
    pub free_blocks_count: u64,
    /// Free inodes.
    pub free_inodes_count: u32,
    /// Inode size on disk.
    pub inode_size: u16,
    /// Revision level.
    pub rev_level: u32,
    /// `s_feature_compat`.
    pub feature_compat: u32,
    /// `s_feature_incompat`.
    pub feature_incompat: u32,
    /// `s_feature_ro_compat`.
    pub feature_ro_compat: u32,
    /// Volume UUID, verbatim.
    pub uuid: [u8; 16],
    /// Volume label, nul-padded.
    pub volume_name: [u8; 16],
    /// Raw `s_desc_size`; only meaningful on 64BIT images.
    pub desc_size: u16,
    /// `s_first_data_block`: the block holding the superblock
    /// (1 on 1 KiB-block images, 0 otherwise). The group
    /// descriptor table starts at the block after it.
    pub first_data_block: u32,
    /// `s_blocks_per_group`.
    pub blocks_per_group: u32,
    /// `s_inodes_per_group`.
    pub inodes_per_group: u32,
}

/// Why a superblock buffer was rejected.
#[derive(Debug, PartialEq, Eq, Structural)]
pub enum SuperblockDecodeError {
    /// Fewer than 1024 bytes.
    InputTooSmall { actual: usize },
    /// Magic at 0x38 is not 0xEF53.
    BadMagic { found: u16 },
    /// `s_log_block_size` not one of 0, 1, 2, 6.
    InvalidBlockSize { log_block_size: u32 },
}

/// Why a superblock could not be encoded.
#[derive(Debug, PartialEq, Eq, Structural)]
pub enum SuperblockEncodeError {
    /// `block_size` is not one of 1024, 2048, 4096, 65536.
    InvalidBlockSize { block_size: u32 },
    /// The output buffer is shorter than 1024 bytes.
    OutputTooSmall { actual: usize },
}

/// The block sizes the kernel accepts.
pub open spec fn valid_block_size(bs: u32) -> bool {
    bs == 1024 || bs == 2048 || bs == 4096 || bs == 65536
}

/// `s_log_block_size` for an accepted block size.
pub open spec fn log_of_block_size(bs: u32) -> u32 {
    if bs == 1024 {
        0
    } else if bs == 2048 {
        1
    } else if bs == 4096 {
        2
    } else {
        6
    }
}

/// The error, if any, that encoding `sb` into `out_len` bytes yields.
pub open spec fn superblock_encode_error(sb: Superblock, out_len: int) -> Option<
    SuperblockEncodeError,
> {
    if !valid_block_size(sb.block_size) {
        Some(SuperblockEncodeError::InvalidBlockSize { block_size: sb.block_size })
    } else if out_len < SUPERBLOCK_SIZE {
        Some(SuperblockEncodeError::OutputTooSmall { actual: out_len as usize })
    } else {
        None
    }
}

/// Byte `i` of the superblock belongs to a field this crate models.
pub open spec fn in_superblock_field(i: int) -> bool {
    ||| 0x00 <= i < 0x08
    ||| 0x0C <= i < 0x1C
    ||| 0x20 <= i < 0x24
    ||| 0x28 <= i < 0x2C
    ||| 0x38 <= i < 0x3A
    ||| 0x4C <= i < 0x50
    ||| 0x58 <= i < 0x5A
    ||| 0x5C <= i < 0x88
    ||| 0xFE <= i < 0x100
    ||| 0x150 <= i < 0x158
}

/// The log block sizes the kernel accepts.
pub open spec fn valid_log_block_size(log: u32) -> bool {
    log == 0 || log == 1 || log == 2 || log == 6
}

/// `1024 << log` for the accepted logs.
pub open spec fn block_size_of_log(log: u32) -> u32 {
    if log == 0 {
        1024
    } else if log == 1 {
        2048
    } else if log == 2 {
        4096
    } else {
        65536
    }
}

/// A 64-bit count from its two 32-bit halves; the hi half counts only
/// on 64BIT images.
pub open spec fn combine_hi_lo_spec(hi: u32, lo: u32, is_64bit: bool) -> u64 {
    if is_64bit {
        (hi as int * 0x1_0000_0000 + lo as int) as u64
    } else {
        lo as u64
    }
}

/// The inode size a superblock buffer describes.
pub open spec fn inode_size_of(s: Seq<u8>) -> u16 {
    if le_u32(s, OFF_REV_LEVEL as int) >= REV_DYNAMIC {
        if le_u16(s, OFF_INODE_SIZE as int) == 0 {
            DEFAULT_INODE_SIZE
        } else {
            le_u16(s, OFF_INODE_SIZE as int)
        }
    } else {
        DEFAULT_INODE_SIZE
    }
}

/// The error, if any, that decoding the buffer `s` yields.
pub open spec fn superblock_decode_error(s: Seq<u8>) -> Option<SuperblockDecodeError> {
    if s.len() < SUPERBLOCK_SIZE {
        Some(SuperblockDecodeError::InputTooSmall { actual: s.len() as usize })
    } else if le_u16(s, OFF_MAGIC as int) != EXT4_MAGIC {
        Some(SuperblockDecodeError::BadMagic { found: le_u16(s, OFF_MAGIC as int) })
    } else if !valid_log_block_size(le_u32(s, OFF_LOG_BLOCK_SIZE as int)) {
        Some(
            SuperblockDecodeError::InvalidBlockSize {
                log_block_size: le_u32(s, OFF_LOG_BLOCK_SIZE as int),
            },
        )
    } else {
        None
    }
}

/// Index of the first nul byte of `s`, or `s.len()` if there is none.
pub open spec fn is_first_nul(s: Seq<u8>, e: int) -> bool {
    &&& 0 <= e <= s.len()
    &&& forall|i: int| 0 <= i < e ==> s[i] != 0
    &&& (e == s.len() || s[e] == 0)
}

/// The bytes of the label that `volume_label` shows: the field up to its
/// first nul, or nothing when those bytes are not UTF-8.
pub open spec fn volume_label_bytes(name: Seq<u8>) -> Seq<u8> {
    let e = choose|e: int| is_first_nul(name, e);
    if valid_utf8(name.take(e)) {
        name.take(e)
    } else {
        Seq::empty()
    }
}

/// The superblock the buffer `s` holds (meaningful when it decodes).
pub open spec fn superblock_of(s: Seq<u8>) -> Superblock {
    choose|sb: Superblock| sb.decoded_from(s)
}

/// Decoding reads only the first 1024 bytes: a longer buffer decodes
/// exactly as its first 1024 bytes do.
pub proof fn lemma_superblock_reads_only_first_1024(sb: Superblock, s: Seq<u8>)
    requires
        s.len() >= SUPERBLOCK_SIZE,
    ensures
        superblock_decode_error(s) == superblock_decode_error(s.take(SUPERBLOCK_SIZE as int)),
        sb.decoded_from(s) == sb.decoded_from(s.take(SUPERBLOCK_SIZE as int)),
{
    let t = s.take(SUPERBLOCK_SIZE as int);
    assert(s.subrange(OFF_UUID as int, OFF_UUID + 16) =~= t.subrange(OFF_UUID as int, OFF_UUID + 16));
    assert(s.subrange(OFF_VOLUME_NAME as int, OFF_VOLUME_NAME + 16) =~= t.subrange(
        OFF_VOLUME_NAME as int,
        OFF_VOLUME_NAME + 16,
    ));
}

/// A buffer describes at most one superblock.
pub proof fn lemma_superblock_decoded_unique(a: Superblock, b: Superblock, s: Seq<u8>)
    requires
        a.decoded_from(s),
        b.decoded_from(s),
    ensures
        a == b,
{
    assert(a.uuid =~= b.uuid);
    assert(a.volume_name =~= b.volume_name);
}

/// The little-endian 32-bit value of the four bytes at `off`.
pub proof fn lemma_le_u32_bytes(s: Seq<u8>, off: int)
    requires
        0 <= off,
        off + 4 <= s.len(),
    ensures
        le_u32(s, off) == s[off] + 256 * s[off + 1] + 65536 * s[off + 2] + 16777216 * s[off + 3],
{
}

/// The little-endian 16-bit value of the two bytes at `off`.
pub proof fn lemma_le_u16_bytes(s: Seq<u8>, off: int)
    requires
        0 <= off,
        off + 2 <= s.len(),
    ensures
        le_u16(s, off) == s[off] + 256 * s[off + 1],
{
}

/// A superblock decoded from a buffer holds each field read from its
/// on-disk offset in the ext4 layout: `s_inodes_count` at 0x00,
/// `s_blocks_count_lo` at 0x04 (with `_hi` at 0x150 on 64BIT images),
/// `s_free_blocks_count_lo` at 0x0C (`_hi` at 0x154), `s_free_inodes_count`
/// at 0x10, `s_first_data_block` at 0x14, `s_log_block_size` at 0x18,
/// `s_blocks_per_group` at 0x20, `s_inodes_per_group` at 0x28,
/// `s_rev_level` at 0x4C, `s_inode_size` at 0x58, `s_feature_compat` at
/// 0x5C, `s_feature_incompat` at 0x60, `s_feature_ro_compat` at 0x64,
/// `s_uuid` at 0x68, `s_volume_name` at 0x78, `s_desc_size` at 0xFE.
pub proof fn lemma_superblock_field_offsets(sb: Superblock, s: Seq<u8>)
    requires
        sb.decoded_from(s),
        s.len() >= 1024,
    ensures
        sb.inodes_count == le_u32(s, 0x00),
        sb.free_inodes_count == le_u32(s, 0x10),
        sb.first_data_block == le_u32(s, 0x14),
        le_u32(s, 0x18) == 0 ==> sb.block_size == 1024,
        le_u32(s, 0x18) == 1 ==> sb.block_size == 2048,
        le_u32(s, 0x18) == 2 ==> sb.block_size == 4096,
        le_u32(s, 0x18) == 6 ==> sb.block_size == 65536,
        sb.blocks_per_group == le_u32(s, 0x20),
        sb.inodes_per_group == le_u32(s, 0x28),
        sb.rev_level == le_u32(s, 0x4C),
        sb.feature_compat == le_u32(s, 0x5C),
        sb.feature_incompat == le_u32(s, 0x60),
        sb.feature_ro_compat == le_u32(s, 0x64),
        sb.uuid@ == s.subrange(0x68, 0x78),
        sb.volume_name@ == s.subrange(0x78, 0x88),
        sb.desc_size == le_u16(s, 0xFE),
        le_u32(s, 0x60) & 0x80 == 0 ==> sb.blocks_count == le_u32(s, 0x04) && sb.free_blocks_count
            == le_u32(s, 0x0C),
        le_u32(s, 0x60) & 0x80 != 0 ==> sb.blocks_count == le_u32(s, 0x150) * 0x1_0000_0000 + le_u32(
            s,
            0x04,
        ) && sb.free_blocks_count == le_u32(s, 0x154) * 0x1_0000_0000 + le_u32(s, 0x0C),
        le_u32(s, 0x4C) >= 1 && le_u16(s, 0x58) != 0 ==> sb.inode_size == le_u16(s, 0x58),
        le_u32(s, 0x4C) == 0 || le_u16(s, 0x58) == 0 ==> sb.inode_size == 128,
{
    let hi = le_u32(s, 0x150);
    let lo = le_u32(s, 0x04);
    assert(hi * 0x1_0000_0000 + lo < 0x1_0000_0000_0000_0000) by (nonlinear_arith)
        requires
            hi < 0x1_0000_0000,
            lo < 0x1_0000_0000,
    ;
    let fhi = le_u32(s, 0x154);
    let flo = le_u32(s, 0x0C);
    assert(fhi * 0x1_0000_0000 + flo < 0x1_0000_0000_0000_0000) by (nonlinear_arith)
        requires
            fhi < 0x1_0000_0000,
            flo < 0x1_0000_0000,
    ;
}

/// A superblock buffer decodes exactly when it is at least 1024 bytes
/// long, holds the magic 0xEF53 at 0x38, and a block size log of 0, 1, 2
/// or 6 at 0x18.
pub proof fn lemma_superblock_decodes_when(s: Seq<u8>)
    ensures
        superblock_decode_error(s) is None <==> (s.len() >= 1024 && le_u16(s, 0x38) == 0xEF53 && (
        le_u32(s, 0x18) == 0 || le_u32(s, 0x18) == 1 || le_u32(s, 0x18) == 2 || le_u32(s, 0x18)
            == 6)),
{
}

/// Once some superblock decodes from `s`, `superblock_of(s)` is it.
pub proof fn lemma_superblock_of(a: Superblock, s: Seq<u8>)
    requires
        a.decoded_from(s),
    ensures
        superblock_of(s) == a,
{
    lemma_superblock_decoded_unique(superblock_of(s), a, s);
}

impl Superblock {
    /// Every field of `self` is what the superblock buffer `s` holds.
    pub open spec fn decoded_from(&self, s: Seq<u8>) -> bool {
        let is_64bit = le_u32(s, OFF_FEATURE_INCOMPAT as int) & FEATURE_INCOMPAT_64BIT != 0;
        &&& self.block_size == block_size_of_log(le_u32(s, OFF_LOG_BLOCK_SIZE as int))
        &&& self.inodes_count == le_u32(s, OFF_INODES_COUNT as int)
        &&& self.blocks_count == combine_hi_lo_spec(
            le_u32(s, OFF_BLOCKS_COUNT_HI as int),
            le_u32(s, OFF_BLOCKS_COUNT_LO as int),
            is_64bit,
        )
        &&& self.free_blocks_count == combine_hi_lo_spec(
            le_u32(s, OFF_FREE_BLOCKS_COUNT_HI as int),
            le_u32(s, OFF_FREE_BLOCKS_COUNT_LO as int),
            is_64bit,
        )
        &&& self.free_inodes_count == le_u32(s, OFF_FREE_INODES_COUNT as int)
        &&& self.inode_size == inode_size_of(s)
        &&& self.rev_level == le_u32(s, OFF_REV_LEVEL as int)
        &&& self.feature_compat == le_u32(s, OFF_FEATURE_COMPAT as int)
        &&& self.feature_incompat == le_u32(s, OFF_FEATURE_INCOMPAT as int)
        &&& self.feature_ro_compat == le_u32(s, OFF_FEATURE_RO_COMPAT as int)
        &&& self.uuid@ == s.subrange(OFF_UUID as int, OFF_UUID + 16)
        &&& self.volume_name@ == s.subrange(OFF_VOLUME_NAME as int, OFF_VOLUME_NAME + 16)
        &&& self.desc_size == le_u16(s, OFF_DESC_SIZE as int)
        &&& self.first_data_block == le_u32(s, OFF_FIRST_DATA_BLOCK as int)
        &&& self.blocks_per_group == le_u32(s, OFF_BLOCKS_PER_GROUP as int)
        &&& self.inodes_per_group == le_u32(s, OFF_INODES_PER_GROUP as int)
    }

    /// The first 1024 bytes of `s` are exactly the encoding of `self`:
    /// every modelled field at its offset (64-bit counts split into
    /// lo/hi halves, the block size as its log) and zero elsewhere.
    pub open spec fn encoded_in(&self, s: Seq<u8>) -> bool {
        &&& s.len() >= SUPERBLOCK_SIZE
        &&& le_u32(s, OFF_INODES_COUNT as int) == self.inodes_count
        &&& le_u32(s, OFF_BLOCKS_COUNT_LO as int) == self.blocks_count % 0x1_0000_0000
        &&& le_u32(s, OFF_BLOCKS_COUNT_HI as int) == self.blocks_count / 0x1_0000_0000
        &&& le_u32(s, OFF_FREE_BLOCKS_COUNT_LO as int) == self.free_blocks_count % 0x1_0000_0000
        &&& le_u32(s, OFF_FREE_BLOCKS_COUNT_HI as int) == self.free_blocks_count / 0x1_0000_0000
        &&& le_u32(s, OFF_FREE_INODES_COUNT as int) == self.free_inodes_count
        &&& le_u32(s, OFF_FIRST_DATA_BLOCK as int) == self.first_data_block
        &&& le_u32(s, OFF_LOG_BLOCK_SIZE as int) == log_of_block_size(self.block_size)
        &&& le_u32(s, OFF_BLOCKS_PER_GROUP as int) == self.blocks_per_group
        &&& le_u32(s, OFF_INODES_PER_GROUP as int) == self.inodes_per_group
        &&& le_u16(s, OFF_MAGIC as int) == EXT4_MAGIC
        &&& le_u32(s, OFF_REV_LEVEL as int) == self.rev_level
        &&& le_u16(s, OFF_INODE_SIZE as int) == self.inode_size
        &&& le_u32(s, OFF_FEATURE_COMPAT as int) == self.feature_compat
        &&& le_u32(s, OFF_FEATURE_INCOMPAT as int) == self.feature_incompat
        &&& le_u32(s, OFF_FEATURE_RO_COMPAT as int) == self.feature_ro_compat
        &&& s.subrange(OFF_UUID as int, OFF_UUID + 16) == self.uuid@
        &&& s.subrange(OFF_VOLUME_NAME as int, OFF_VOLUME_NAME + 16) == self.volume_name@
        &&& le_u16(s, OFF_DESC_SIZE as int) == self.desc_size
        &&& forall|i: int|
            0 <= i < SUPERBLOCK_SIZE && !in_superblock_field(i) ==> #[trigger] s[i] == 0u8
    }

    /// The values that decoding reads back unchanged: an accepted block
    /// size, counts that fit 32 bits unless 64BIT is set, and an inode
    /// size the revision records.
    pub open spec fn encodable(&self) -> bool {
        &&& valid_block_size(self.block_size)
        &&& !self.spec_is_64bit() ==> self.blocks_count <= u32::MAX && self.free_blocks_count
            <= u32::MAX
        &&& (self.inode_size == DEFAULT_INODE_SIZE || (self.rev_level >= REV_DYNAMIC
            && self.inode_size != 0))
    }

    /// True iff `INCOMPAT_64BIT` is set.
    pub open spec fn spec_is_64bit(&self) -> bool {
        self.feature_incompat & FEATURE_INCOMPAT_64BIT != 0
    }

    /// The group descriptor entry size the kernel applies.
    pub open spec fn spec_group_descriptor_size(&self) -> u16 {
        if self.spec_is_64bit() {
            self.desc_size
        } else {
            GDT_ENTRY_SIZE_32
        }
    }

    /// Number of block groups: the blocks from `first_data_block` on,
    /// in groups of `blocks_per_group`, the last one possibly partial.
    pub open spec fn spec_group_count(&self) -> u64 {
        let data_blocks = if self.blocks_count >= self.first_data_block {
            self.blocks_count - self.first_data_block
        } else {
            0
        };
        ((data_blocks + self.blocks_per_group - 1) / (self.blocks_per_group as int)) as u64
    }

    /// Decode a superblock from a buffer starting at the superblock
    /// boundary. No IO.
    pub fn decode(buf: &[u8]) -> (r: Result<Self, SuperblockDecodeError>)
        ensures
            match r {
                Ok(sb) => superblock_decode_error(buf@) is None && sb.decoded_from(buf@),
                Err(e) => superblock_decode_error(buf@) == Some(e),
            },
    {
        if buf.len() < SUPERBLOCK_SIZE {
            return Err(SuperblockDecodeError::InputTooSmall { actual: buf.len() });
        }
        let magic = read_u16(buf, OFF_MAGIC);
        if magic != EXT4_MAGIC {
            return Err(SuperblockDecodeError::BadMagic { found: magic });
        }
        let log_block_size = read_u32(buf, OFF_LOG_BLOCK_SIZE);
        let block_size: u32 = match log_block_size {
            0 => 1024,
            1 => 2048,
            2 => 4096,
            6 => 65536,
            other => {
                return Err(SuperblockDecodeError::InvalidBlockSize { log_block_size: other });
            },
        };

        let rev_level = read_u32(buf, OFF_REV_LEVEL);
        let inode_size = if rev_level >= REV_DYNAMIC {
            let v = read_u16(buf, OFF_INODE_SIZE);
            if v == 0 {
                DEFAULT_INODE_SIZE
            } else {
                v
            }
        } else {
            DEFAULT_INODE_SIZE
        };

        let feature_compat = read_u32(buf, OFF_FEATURE_COMPAT);
        let feature_incompat = read_u32(buf, OFF_FEATURE_INCOMPAT);
        let feature_ro_compat = read_u32(buf, OFF_FEATURE_RO_COMPAT);

        let is_64bit = (feature_incompat & FEATURE_INCOMPAT_64BIT) != 0;
        let blocks_count = combine_hi_lo(
            read_u32(buf, OFF_BLOCKS_COUNT_HI),
            read_u32(buf, OFF_BLOCKS_COUNT_LO),
            is_64bit,
        );
        let free_blocks_count = combine_hi_lo(
            read_u32(buf, OFF_FREE_BLOCKS_COUNT_HI),
            read_u32(buf, OFF_FREE_BLOCKS_COUNT_LO),
            is_64bit,
        );

        let uuid: [u8; 16] = read_array(buf, OFF_UUID);
        let volume_name: [u8; 16] = read_array(buf, OFF_VOLUME_NAME);

        Ok(Superblock {
            block_size,
            inodes_count: read_u32(buf, OFF_INODES_COUNT),
            blocks_count,
            free_blocks_count,
            free_inodes_count: read_u32(buf, OFF_FREE_INODES_COUNT),
            inode_size,
            rev_level,
            feature_compat,
            feature_incompat,
            feature_ro_compat,
            uuid,
            volume_name,
            desc_size: read_u16(buf, OFF_DESC_SIZE),
            first_data_block: read_u32(buf, OFF_FIRST_DATA_BLOCK),
            blocks_per_group: read_u32(buf, OFF_BLOCKS_PER_GROUP),
            inodes_per_group: read_u32(buf, OFF_INODES_PER_GROUP),
        })
    }

    /// True iff `INCOMPAT_64BIT` is set.
    pub fn is_64bit(&self) -> (r: bool)
        ensures
            r == self.spec_is_64bit(),
    {
        (self.feature_incompat & FEATURE_INCOMPAT_64BIT) != 0
    }

    /// Group descriptor entry size: 32 on non-64BIT images, the raw
    /// `s_desc_size` on 64BIT images.
    pub fn group_descriptor_size(&self) -> (r: u16)
        ensures
            r == self.spec_group_descriptor_size(),
    {
        if self.is_64bit() {
            self.desc_size
        } else {
            GDT_ENTRY_SIZE_32
        }
    }

    /// Number of block groups the superblock describes.
    pub fn group_count(&self) -> (r: u64)
        requires
            self.blocks_per_group > 0,
        ensures
            r == self.spec_group_count(),
    {
        let first = self.first_data_block as u64;
        let data_blocks = if self.blocks_count >= first {
            self.blocks_count - first
        } else {
            0
        };
        let per = self.blocks_per_group as u64;
        let q = data_blocks / per;
        let r = if data_blocks % per == 0 {
            q
        } else {
            assert(q < 0xffff_ffff_ffff_ffffu64) by (nonlinear_arith)
                requires
                    q == data_blocks / per,
                    per >= 2,
            ;
            q + 1
        };
        proof {
            let d = data_blocks as int;
            let p = per as int;
            assert(d == p * (d / p) + d % p) by (nonlinear_arith)
                requires
                    p > 0,
            ;
            assert((d + p - 1) / p == if d % p == 0 {
                d / p
            } else {
                d / p + 1
            }) by (nonlinear_arith)
                requires
                    p > 0,
                    d >= 0,
            ;
        }
        r
    }

    /// Volume label with the trailing nul padding stripped; `""` when
    /// the bytes before the first nul are not UTF-8.
    pub fn volume_label(&self) -> (r: &str)
        ensures
            r.spec_bytes() == volume_label_bytes(self.volume_name@),
    {
        let mut end: usize = 0;
        while end < 16 && self.volume_name[end] != 0
            invariant
                end <= 16,
                self.volume_name@.len() == 16,
                forall|i: int| 0 <= i < end ==> self.volume_name@[i] != 0,
            decreases 16 - end,
        {
            end = end + 1;
        }
        let ghost name = self.volume_name@;
        proof {
            assert(is_first_nul(name, end as int));
            let e = choose|e: int| is_first_nul(name, e);
            if e < end {
                assert(name[e] != 0);
            }
            if e > end {
                assert(name[end as int] != 0);
            }
            assert(e == end);
        }
        let bytes = vstd::slice::slice_subrange(self.volume_name.as_slice(), 0, end);
        match str_from_utf8(bytes) {
            Some(s) => s,
            None => {
                let empty = "";
                proof {
                    reveal_strlit("");
                    assert(empty.spec_bytes() =~= Seq::<u8>::empty());
                }
                empty
            },
        }
    }
}

/// A superblock fixes the bytes it is encoded in: two encodings of one
/// superblock agree on all 1024 bytes.
pub proof fn lemma_superblock_encoding_unique(sb: Superblock, a: Seq<u8>, b: Seq<u8>)
    requires
        sb.encoded_in(a),
        sb.encoded_in(b),
    ensures
        a.take(SUPERBLOCK_SIZE as int) == b.take(SUPERBLOCK_SIZE as int),
{
    lemma_le_u32_same_bytes(a, b, OFF_INODES_COUNT as int);
    lemma_le_u32_same_bytes(a, b, OFF_BLOCKS_COUNT_LO as int);
    lemma_le_u32_same_bytes(a, b, OFF_FREE_BLOCKS_COUNT_LO as int);
    lemma_le_u32_same_bytes(a, b, OFF_FREE_INODES_COUNT as int);
    lemma_le_u32_same_bytes(a, b, OFF_FIRST_DATA_BLOCK as int);
    lemma_le_u32_same_bytes(a, b, OFF_LOG_BLOCK_SIZE as int);
    lemma_le_u32_same_bytes(a, b, OFF_BLOCKS_PER_GROUP as int);
    lemma_le_u32_same_bytes(a, b, OFF_INODES_PER_GROUP as int);
    lemma_le_u16_same_bytes(a, b, OFF_MAGIC as int);
    lemma_le_u32_same_bytes(a, b, OFF_REV_LEVEL as int);
    lemma_le_u16_same_bytes(a, b, OFF_INODE_SIZE as int);
    lemma_le_u32_same_bytes(a, b, OFF_FEATURE_COMPAT as int);
    lemma_le_u32_same_bytes(a, b, OFF_FEATURE_INCOMPAT as int);
    lemma_le_u32_same_bytes(a, b, OFF_FEATURE_RO_COMPAT as int);
    lemma_same_bytes_in(a, b, OFF_UUID as int, 16);
    lemma_same_bytes_in(a, b, OFF_VOLUME_NAME as int, 16);
    lemma_le_u16_same_bytes(a, b, OFF_DESC_SIZE as int);
    lemma_le_u32_same_bytes(a, b, OFF_BLOCKS_COUNT_HI as int);
    lemma_le_u32_same_bytes(a, b, OFF_FREE_BLOCKS_COUNT_HI as int);
    assert forall|i: int| 0 <= i < SUPERBLOCK_SIZE implies a.take(SUPERBLOCK_SIZE as int)[i]
        == b.take(SUPERBLOCK_SIZE as int)[i] by {
        assert(a.take(SUPERBLOCK_SIZE as int)[i] == a[i]);
        assert(b.take(SUPERBLOCK_SIZE as int)[i] == b[i]);
        if !in_superblock_field(i) {
            assert(a[i] == 0u8);
            assert(b[i] == 0u8);
        }
    }
    assert(a.take(SUPERBLOCK_SIZE as int) =~= b.take(SUPERBLOCK_SIZE as int));
}

/// Encoding then decoding a superblock gives it back.
pub proof fn lemma_superblock_encode_decode(sb: Superblock, s: Seq<u8>)
    requires
        sb.encodable(),
        sb.encoded_in(s),
    ensures
        superblock_decode_error(s) is None,
        sb.decoded_from(s),
        superblock_of(s) == sb,
{
    let is_64bit = le_u32(s, OFF_FEATURE_INCOMPAT as int) & FEATURE_INCOMPAT_64BIT != 0;
    assert(is_64bit == sb.spec_is_64bit());
    lemma_superblock_of(sb, s);
}

impl Superblock {
    /// Encode into the first 1024 bytes of `buf`: every modelled field
    /// at its offset, every other byte of the superblock zeroed. Bytes
    /// past 1024 are left as they are.
    #[verifier::rlimit(50)]
    pub fn encode_into(&self, buf: &mut [u8]) -> (r: Result<(), SuperblockEncodeError>)
        ensures
            final(buf)@.len() == old(buf)@.len(),
            match r {
                Ok(()) => {
                    &&& superblock_encode_error(*self, old(buf)@.len() as int) is None
                    &&& self.encoded_in(final(buf)@)
                    &&& final(buf)@.skip(SUPERBLOCK_SIZE as int) == old(buf)@.skip(
                        SUPERBLOCK_SIZE as int,
                    )
                },
                Err(e) => {
                    &&& superblock_encode_error(*self, old(buf)@.len() as int) == Some(e)
                    &&& final(buf)@ == old(buf)@
                },
            },
    {
        let log: u32 = match self.block_size {
            1024 => 0,
            2048 => 1,
            4096 => 2,
            65536 => 6,
            other => {
                return Err(SuperblockEncodeError::InvalidBlockSize { block_size: other });
            },
        };
        if buf.len() < SUPERBLOCK_SIZE {
            return Err(SuperblockEncodeError::OutputTooSmall { actual: buf.len() });
        }
        let (blocks_lo, blocks_hi) = split_u64(self.blocks_count);
        let (free_lo, free_hi) = split_u64(self.free_blocks_count);
        zero_range(buf, 0, SUPERBLOCK_SIZE);
        let ghost b0 = buf@;
        write_u32(buf, OFF_INODES_COUNT, self.inodes_count);
        write_u32(buf, OFF_BLOCKS_COUNT_LO, blocks_lo);
        write_u32(buf, OFF_FREE_BLOCKS_COUNT_LO, free_lo);
        write_u32(buf, OFF_FREE_INODES_COUNT, self.free_inodes_count);
        write_u32(buf, OFF_FIRST_DATA_BLOCK, self.first_data_block);
        write_u32(buf, OFF_LOG_BLOCK_SIZE, log);
        write_u32(buf, OFF_BLOCKS_PER_GROUP, self.blocks_per_group);
        write_u32(buf, OFF_INODES_PER_GROUP, self.inodes_per_group);
        write_u16(buf, OFF_MAGIC, EXT4_MAGIC);
        write_u32(buf, OFF_REV_LEVEL, self.rev_level);
        write_u16(buf, OFF_INODE_SIZE, self.inode_size);
        let ghost b1 = buf@;
        write_u32(buf, OFF_FEATURE_COMPAT, self.feature_compat);
        write_u32(buf, OFF_FEATURE_INCOMPAT, self.feature_incompat);
        write_u32(buf, OFF_FEATURE_RO_COMPAT, self.feature_ro_compat);
        write_bytes(buf, OFF_UUID, self.uuid.as_slice());
        write_bytes(buf, OFF_VOLUME_NAME, self.volume_name.as_slice());
        write_u16(buf, OFF_DESC_SIZE, self.desc_size);
        write_u32(buf, OFF_BLOCKS_COUNT_HI, blocks_hi);
        write_u32(buf, OFF_FREE_BLOCKS_COUNT_HI, free_hi);
        proof {
            assert(buf@.skip(SUPERBLOCK_SIZE as int) =~= old(buf)@.skip(SUPERBLOCK_SIZE as int));
            assert forall|i: int|
                0 <= i < SUPERBLOCK_SIZE && !in_superblock_field(i) implies #[trigger] buf@[i]
                == 0u8 by {}
            assert(le_u32(buf@, OFF_INODES_COUNT as int) == self.inodes_count);
            assert(le_u32(buf@, OFF_BLOCKS_COUNT_LO as int) == blocks_lo);
            assert(le_u32(buf@, OFF_FREE_BLOCKS_COUNT_LO as int) == free_lo);
            assert(le_u32(buf@, OFF_FREE_INODES_COUNT as int) == self.free_inodes_count);
            assert(le_u32(buf@, OFF_FIRST_DATA_BLOCK as int) == self.first_data_block);
            assert(le_u32(buf@, OFF_LOG_BLOCK_SIZE as int) == log);
            assert(le_u32(buf@, OFF_BLOCKS_PER_GROUP as int) == self.blocks_per_group);
            assert(le_u32(buf@, OFF_INODES_PER_GROUP as int) == self.inodes_per_group);
            assert(le_u16(buf@, OFF_MAGIC as int) == EXT4_MAGIC);
            assert(le_u32(buf@, OFF_REV_LEVEL as int) == self.rev_level);
            assert(le_u16(buf@, OFF_INODE_SIZE as int) == self.inode_size);
            assert(le_u32(buf@, OFF_FEATURE_COMPAT as int) == self.feature_compat);
            assert(le_u32(buf@, OFF_FEATURE_INCOMPAT as int) == self.feature_incompat);
            assert(le_u32(buf@, OFF_FEATURE_RO_COMPAT as int) == self.feature_ro_compat);
            assert(buf@.subrange(OFF_UUID as int, OFF_UUID + 16) =~= self.uuid@);
            assert(buf@.subrange(OFF_VOLUME_NAME as int, OFF_VOLUME_NAME + 16) =~= self.volume_name@);
        }
        Ok(())
    }
}

/// A 64-bit count from its halves; the hi half only counts on 64BIT images.
fn combine_hi_lo(hi: u32, lo: u32, is_64bit: bool) -> (r: u64)
    ensures
        r == combine_hi_lo_spec(hi, lo, is_64bit),
{
    if is_64bit {
        let r = ((hi as u64) << 32u64) | (lo as u64);
        assert(r == hi as int * 0x1_0000_0000 + lo as int) by (bit_vector)
            requires
                r == ((hi as u64) << 32u64) | (lo as u64),
        ;
        r
    } else {
        lo as u64
    }
}

} // verus!
