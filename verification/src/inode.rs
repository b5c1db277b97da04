//! Ext4 inode: the fixed-size record describing one file or
//! directory. The first 128 bytes (the rev-0 layout) are decoded.

use vstd::prelude::*;
use crate::le::{
    le_u16, le_u32, read_u16, read_u32, read_array, split_u32, split_u64, write_bytes, write_u16,
    write_u32, zero_range, lemma_le_u16_same_bytes, lemma_le_u32_same_bytes, lemma_same_bytes_in,
};
use crate::superblock::Superblock;

verus! {

pub const OFF_MODE: usize = 0x00;
pub const OFF_UID_LO: usize = 0x02;
pub const OFF_SIZE_LO: usize = 0x04;
pub const OFF_ATIME: usize = 0x08;
pub const OFF_CTIME: usize = 0x0C;
pub const OFF_MTIME: usize = 0x10;
pub const OFF_DTIME: usize = 0x14;
pub const OFF_GID_LO: usize = 0x18;
pub const OFF_LINKS_COUNT: usize = 0x1A;
pub const OFF_BLOCKS_LO: usize = 0x1C;
pub const OFF_FLAGS: usize = 0x20;
pub const OFF_BLOCK: usize = 0x28;
pub const OFF_GENERATION: usize = 0x64;
pub const OFF_FILE_ACL_LO: usize = 0x68;
pub const OFF_SIZE_HI: usize = 0x6C;
pub const OFF_BLOCKS_HI: usize = 0x74;
pub const OFF_FILE_ACL_HI: usize = 0x76;
pub const OFF_UID_HI: usize = 0x78;
pub const OFF_GID_HI: usize = 0x7A;

/// Length of the embedded `i_block` array in bytes.
pub const I_BLOCK_LEN: usize = 60;

/// Minimum inode size: the rev-0 layout.
pub const MIN_INODE_SIZE: u16 = 128;

pub const S_IFMT: u16 = 0xF000;
pub const S_IFIFO: u16 = 0x1000;
pub const S_IFCHR: u16 = 0x2000;
pub const S_IFDIR: u16 = 0x4000;
pub const S_IFBLK: u16 = 0x6000;
pub const S_IFREG: u16 = 0x8000;
pub const S_IFLNK: u16 = 0xA000;
pub const S_IFSOCK: u16 = 0xC000;

/// Inode flag: `i_block` holds an extent tree.
pub const INODE_FLAG_EXTENTS: u32 = 0x0008_0000;

/// Inode flag: file data lives inline in the inode.
pub const INODE_FLAG_INLINE_DATA: u32 = 0x1000_0000;

/// Inode flag: block counts are in filesystem blocks, not sectors.
pub const INODE_FLAG_HUGE_FILE: u32 = 0x0004_0000;

/// File type from the top 4 bits of `i_mode`.
#[derive(Debug, Clone, Copy, PartialEq, Eq, Structural)]
pub enum InodeFileType {
    Fifo,
    CharacterDevice,
    Directory,
    BlockDevice,
    Regular,
    Symlink,
    Socket,
    /// The type bits match no POSIX file type; carries them verbatim.
    Unknown(u16),
}

/// Decoded ext4 inode.
#[derive(Debug, Clone, PartialEq, Eq)]
pub struct Inode {
    /// Raw `i_mode`: type in the top 4 bits, permissions below.
    pub mode: u16,
    /// User ID, lo + Linux OSD2 hi.
    pub uid: u32,
    /// Group ID, lo + Linux OSD2 hi.
    pub gid: u32,
    /// Size in bytes, `i_size_lo` + `i_size_hi`.
    pub size: u64,
    /// Access time (POSIX seconds).
    pub atime: u32,
    /// Status-change time.
    pub ctime: u32,
    /// Modification time.
    pub mtime: u32,
    /// Deletion time; zero for live inodes.
    pub dtime: u32,
    /// Hard link count.
    pub links_count: u16,
    /// Block count, low 32 bits.
    pub blocks_lo: u32,
    /// Block count, high 16 bits (OSD2).
    pub blocks_hi: u16,
    /// `i_flags`.
    pub flags: u32,
    /// Raw 60-byte `i_block` array.
    pub block: [u8; I_BLOCK_LEN],
    /// `i_generation`.
    pub generation: u32,
    /// File ACL block, low 32 bits.
    pub file_acl_lo: u32,
    /// File ACL block, high 16 bits (OSD2).
    pub file_acl_hi: u16,
}

/// Why an inode buffer was rejected.
#[derive(Debug, PartialEq, Eq, Structural)]
pub enum InodeDecodeError {
    /// The superblock's inode size is below 128.
    SuperblockInodeSizeTooSmall { size: u16 },
    /// The buffer is shorter than one inode.
    InputTooSmall { actual: usize, expected: usize },
}

/// Why an inode could not be encoded.
#[derive(Debug, PartialEq, Eq, Structural)]
pub enum InodeEncodeError {
    /// The superblock's inode size is below 128.
    SuperblockInodeSizeTooSmall { size: u16 },
    /// The output buffer is shorter than one inode.
    OutputTooSmall { actual: usize, expected: usize },
}

/// The error, if any, that encoding under `sb` into `out_len` bytes yields.
pub open spec fn inode_encode_error(out_len: int, sb: Superblock) -> Option<InodeEncodeError> {
    if sb.inode_size < MIN_INODE_SIZE {
        Some(InodeEncodeError::SuperblockInodeSizeTooSmall { size: sb.inode_size })
    } else if out_len < sb.inode_size {
        Some(
            InodeEncodeError::OutputTooSmall {
                actual: out_len as usize,
                expected: sb.inode_size as usize,
            },
        )
    } else {
        None
    }
}

/// Byte `i` of an inode belongs to a modelled field.
pub open spec fn in_inode_field(i: int) -> bool {
    ||| 0x00 <= i < 0x24
    ||| 0x28 <= i < 0x70
    ||| 0x74 <= i < 0x7C
}

/// The file type that the mode bits `mode` name.
pub open spec fn file_type_of_mode(mode: u16) -> InodeFileType {
    let t = mode & S_IFMT;
    if t == S_IFIFO {
        InodeFileType::Fifo
    } else if t == S_IFCHR {
        InodeFileType::CharacterDevice
    } else if t == S_IFDIR {
        InodeFileType::Directory
    } else if t == S_IFBLK {
        InodeFileType::BlockDevice
    } else if t == S_IFREG {
        InodeFileType::Regular
    } else if t == S_IFLNK {
        InodeFileType::Symlink
    } else if t == S_IFSOCK {
        InodeFileType::Socket
    } else {
        InodeFileType::Unknown(t)
    }
}

/// The error, if any, that decoding `s` under `sb` yields.
pub open spec fn inode_decode_error(s: Seq<u8>, sb: Superblock) -> Option<InodeDecodeError> {
    if sb.inode_size < MIN_INODE_SIZE {
        Some(InodeDecodeError::SuperblockInodeSizeTooSmall { size: sb.inode_size })
    } else if s.len() < sb.inode_size {
        Some(
            InodeDecodeError::InputTooSmall {
                actual: s.len() as usize,
                expected: sb.inode_size as usize,
            },
        )
    } else {
        None
    }
}

/// The inode the buffer `s` holds (meaningful when it decodes).
pub open spec fn inode_of(s: Seq<u8>) -> Inode {
    choose|i: Inode| i.decoded_from(s)
}

/// Decoding reads only the first 128 bytes (the rev-0 layout): the
/// fields are those of the buffer's first 128 bytes.
pub proof fn lemma_inode_reads_only_first_128(i: Inode, s: Seq<u8>)
    requires
        s.len() >= MIN_INODE_SIZE,
    ensures
        i.decoded_from(s) == i.decoded_from(s.take(MIN_INODE_SIZE as int)),
{
    let t = s.take(MIN_INODE_SIZE as int);
    assert(s.subrange(OFF_BLOCK as int, OFF_BLOCK + I_BLOCK_LEN) =~= t.subrange(
        OFF_BLOCK as int,
        OFF_BLOCK + I_BLOCK_LEN,
    ));
}

/// Once some inode decodes from `s`, `inode_of(s)` is it.
pub proof fn lemma_inode_of(a: Inode, s: Seq<u8>)
    requires
        a.decoded_from(s),
    ensures
        inode_of(s) == a,
{
    let b = inode_of(s);
    assert(a.block =~= b.block);
}

/// An inode fixes the bytes of the slot it is encoded in: two encodings
/// of one inode agree on all `size` bytes.
pub proof fn lemma_inode_encoding_unique(i: Inode, a: Seq<u8>, b: Seq<u8>, size: int)
    requires
        i.encoded_in(a, size),
        i.encoded_in(b, size),
    ensures
        a.take(size) == b.take(size),
{
    lemma_le_u16_same_bytes(a, b, OFF_MODE as int);
    lemma_le_u16_same_bytes(a, b, OFF_UID_LO as int);
    lemma_le_u32_same_bytes(a, b, OFF_SIZE_LO as int);
    lemma_le_u32_same_bytes(a, b, OFF_ATIME as int);
    lemma_le_u32_same_bytes(a, b, OFF_CTIME as int);
    lemma_le_u32_same_bytes(a, b, OFF_MTIME as int);
    lemma_le_u32_same_bytes(a, b, OFF_DTIME as int);
    lemma_le_u16_same_bytes(a, b, OFF_GID_LO as int);
    lemma_le_u16_same_bytes(a, b, OFF_LINKS_COUNT as int);
    lemma_le_u32_same_bytes(a, b, OFF_BLOCKS_LO as int);
    lemma_le_u32_same_bytes(a, b, OFF_FLAGS as int);
    lemma_same_bytes_in(a, b, OFF_BLOCK as int, I_BLOCK_LEN as int);
    lemma_le_u32_same_bytes(a, b, OFF_GENERATION as int);
    lemma_le_u32_same_bytes(a, b, OFF_FILE_ACL_LO as int);
    lemma_le_u32_same_bytes(a, b, OFF_SIZE_HI as int);
    lemma_le_u16_same_bytes(a, b, OFF_BLOCKS_HI as int);
    lemma_le_u16_same_bytes(a, b, OFF_FILE_ACL_HI as int);
    lemma_le_u16_same_bytes(a, b, OFF_UID_HI as int);
    lemma_le_u16_same_bytes(a, b, OFF_GID_HI as int);
    assert forall|k: int| 0 <= k < size implies a.take(size)[k] == b.take(size)[k] by {
        assert(a.take(size)[k] == a[k]);
        assert(b.take(size)[k] == b[k]);
        if !in_inode_field(k) {
            assert(a[k] == 0u8);
            assert(b[k] == 0u8);
        }
    }
    assert(a.take(size) =~= b.take(size));
}

/// Encoding then decoding an inode gives it back.
pub proof fn lemma_inode_encode_decode(i: Inode, s: Seq<u8>, sb: Superblock)
    requires
        i.encoded_in(s, sb.inode_size as int),
    ensures
        inode_decode_error(s, sb) is None,
        i.decoded_from(s),
        inode_of(s) == i,
{
    lemma_inode_of(i, s);
}

impl Inode {
    /// Every field is what the inode buffer `s` holds.
    pub open spec fn decoded_from(&self, s: Seq<u8>) -> bool {
        &&& self.mode == le_u16(s, OFF_MODE as int)
        &&& self.uid == le_u16(s, OFF_UID_HI as int) as int * 0x1_0000 + le_u16(
            s,
            OFF_UID_LO as int,
        ) as int
        &&& self.gid == le_u16(s, OFF_GID_HI as int) as int * 0x1_0000 + le_u16(
            s,
            OFF_GID_LO as int,
        ) as int
        &&& self.size == le_u32(s, OFF_SIZE_HI as int) as int * 0x1_0000_0000 + le_u32(
            s,
            OFF_SIZE_LO as int,
        ) as int
        &&& self.atime == le_u32(s, OFF_ATIME as int)
        &&& self.ctime == le_u32(s, OFF_CTIME as int)
        &&& self.mtime == le_u32(s, OFF_MTIME as int)
        &&& self.dtime == le_u32(s, OFF_DTIME as int)
        &&& self.links_count == le_u16(s, OFF_LINKS_COUNT as int)
        &&& self.blocks_lo == le_u32(s, OFF_BLOCKS_LO as int)
        &&& self.blocks_hi == le_u16(s, OFF_BLOCKS_HI as int)
        &&& self.flags == le_u32(s, OFF_FLAGS as int)
        &&& self.block@ == s.subrange(OFF_BLOCK as int, OFF_BLOCK + I_BLOCK_LEN)
        &&& self.generation == le_u32(s, OFF_GENERATION as int)
        &&& self.file_acl_lo == le_u32(s, OFF_FILE_ACL_LO as int)
        &&& self.file_acl_hi == le_u16(s, OFF_FILE_ACL_HI as int)
    }

    /// The first `size` bytes of `s` are exactly the encoding of `self`:
    /// every field at its rev-0 offset (32-bit IDs and the 64-bit size
    /// split into halves), zero elsewhere.
    pub open spec fn encoded_in(&self, s: Seq<u8>, size: int) -> bool {
        &&& size >= MIN_INODE_SIZE
        &&& s.len() >= size
        &&& le_u16(s, OFF_MODE as int) == self.mode
        &&& le_u16(s, OFF_UID_LO as int) == self.uid % 0x1_0000
        &&& le_u16(s, OFF_UID_HI as int) == self.uid / 0x1_0000
        &&& le_u16(s, OFF_GID_LO as int) == self.gid % 0x1_0000
        &&& le_u16(s, OFF_GID_HI as int) == self.gid / 0x1_0000
        &&& le_u32(s, OFF_SIZE_LO as int) == self.size % 0x1_0000_0000
        &&& le_u32(s, OFF_SIZE_HI as int) == self.size / 0x1_0000_0000
        &&& le_u32(s, OFF_ATIME as int) == self.atime
        &&& le_u32(s, OFF_CTIME as int) == self.ctime
        &&& le_u32(s, OFF_MTIME as int) == self.mtime
        &&& le_u32(s, OFF_DTIME as int) == self.dtime
        &&& le_u16(s, OFF_LINKS_COUNT as int) == self.links_count
        &&& le_u32(s, OFF_BLOCKS_LO as int) == self.blocks_lo
        &&& le_u16(s, OFF_BLOCKS_HI as int) == self.blocks_hi
        &&& le_u32(s, OFF_FLAGS as int) == self.flags
        &&& s.subrange(OFF_BLOCK as int, OFF_BLOCK + I_BLOCK_LEN) == self.block@
        &&& le_u32(s, OFF_GENERATION as int) == self.generation
        &&& le_u32(s, OFF_FILE_ACL_LO as int) == self.file_acl_lo
        &&& le_u16(s, OFF_FILE_ACL_HI as int) == self.file_acl_hi
        &&& forall|i: int| 0 <= i < size && !in_inode_field(i) ==> #[trigger] s[i] == 0u8
    }

    /// Encode into the first `sb.inode_size` bytes of `buf`: every field
    /// at its rev-0 offset, every other byte of the inode zeroed, bytes
    /// past the inode left as they are.
    #[verifier::rlimit(50)]
    pub fn encode_into(&self, buf: &mut [u8], sb: &Superblock) -> (r: Result<(), InodeEncodeError>)
        ensures
            final(buf)@.len() == old(buf)@.len(),
            match r {
                Ok(()) => {
                    &&& inode_encode_error(old(buf)@.len() as int, *sb) is None
                    &&& self.encoded_in(final(buf)@, sb.inode_size as int)
                    &&& final(buf)@.skip(sb.inode_size as int) == old(buf)@.skip(
                        sb.inode_size as int,
                    )
                },
                Err(e) => {
                    &&& inode_encode_error(old(buf)@.len() as int, *sb) == Some(e)
                    &&& final(buf)@ == old(buf)@
                },
            },
    {
        let inode_size = sb.inode_size as usize;
        if inode_size < MIN_INODE_SIZE as usize {
            return Err(InodeEncodeError::SuperblockInodeSizeTooSmall { size: sb.inode_size });
        }
        if buf.len() < inode_size {
            return Err(InodeEncodeError::OutputTooSmall { actual: buf.len(), expected: inode_size });
        }
        let (uid_lo, uid_hi) = split_u32(self.uid);
        let (gid_lo, gid_hi) = split_u32(self.gid);
        let (size_lo, size_hi) = split_u64(self.size);
        zero_range(buf, 0, inode_size);
        write_u16(buf, OFF_MODE, self.mode);
        write_u16(buf, OFF_UID_LO, uid_lo);
        write_u32(buf, OFF_SIZE_LO, size_lo);
        write_u32(buf, OFF_ATIME, self.atime);
        write_u32(buf, OFF_CTIME, self.ctime);
        write_u32(buf, OFF_MTIME, self.mtime);
        write_u32(buf, OFF_DTIME, self.dtime);
        write_u16(buf, OFF_GID_LO, gid_lo);
        write_u16(buf, OFF_LINKS_COUNT, self.links_count);
        write_u32(buf, OFF_BLOCKS_LO, self.blocks_lo);
        write_u32(buf, OFF_FLAGS, self.flags);
        write_bytes(buf, OFF_BLOCK, self.block.as_slice());
        write_u32(buf, OFF_GENERATION, self.generation);
        write_u32(buf, OFF_FILE_ACL_LO, self.file_acl_lo);
        write_u32(buf, OFF_SIZE_HI, size_hi);
        write_u16(buf, OFF_BLOCKS_HI, self.blocks_hi);
        write_u16(buf, OFF_FILE_ACL_HI, self.file_acl_hi);
        write_u16(buf, OFF_UID_HI, uid_hi);
        write_u16(buf, OFF_GID_HI, gid_hi);
        proof {
            assert(buf@.skip(inode_size as int) =~= old(buf)@.skip(inode_size as int));
            assert forall|i: int| 0 <= i < inode_size && !in_inode_field(i) implies #[trigger] buf@[i]
                == 0u8 by {}
            assert(le_u16(buf@, OFF_MODE as int) == self.mode);
            assert(le_u16(buf@, OFF_UID_LO as int) == uid_lo);
            assert(le_u32(buf@, OFF_SIZE_LO as int) == size_lo);
            assert(le_u32(buf@, OFF_ATIME as int) == self.atime);
            assert(le_u32(buf@, OFF_CTIME as int) == self.ctime);
            assert(le_u32(buf@, OFF_MTIME as int) == self.mtime);
            assert(le_u32(buf@, OFF_DTIME as int) == self.dtime);
            assert(le_u16(buf@, OFF_GID_LO as int) == gid_lo);
            assert(le_u16(buf@, OFF_LINKS_COUNT as int) == self.links_count);
            assert(le_u32(buf@, OFF_BLOCKS_LO as int) == self.blocks_lo);
            assert(le_u32(buf@, OFF_FLAGS as int) == self.flags);
            assert(buf@.subrange(OFF_BLOCK as int, OFF_BLOCK + I_BLOCK_LEN) =~= self.block@);
            assert(le_u32(buf@, OFF_GENERATION as int) == self.generation);
            assert(le_u32(buf@, OFF_FILE_ACL_LO as int) == self.file_acl_lo);
        }
        Ok(())
    }

    /// The inode's file type.
    pub open spec fn spec_file_type(&self) -> InodeFileType {
        file_type_of_mode(self.mode)
    }

    /// True iff `i_block` holds an extent tree.
    pub open spec fn spec_uses_extents(&self) -> bool {
        self.flags & INODE_FLAG_EXTENTS != 0
    }

    /// Decode an inode from a buffer at the inode boundary; the buffer
    /// must hold `sb.inode_size` bytes. Only the first 128 are read.
    pub fn decode(buf: &[u8], sb: &Superblock) -> (r: Result<Self, InodeDecodeError>)
        ensures
            match r {
                Ok(inode) => inode_decode_error(buf@, *sb) is None && inode.decoded_from(buf@),
                Err(e) => inode_decode_error(buf@, *sb) == Some(e),
            },
    {
        let inode_size = sb.inode_size as usize;
        if inode_size < MIN_INODE_SIZE as usize {
            return Err(InodeDecodeError::SuperblockInodeSizeTooSmall { size: sb.inode_size });
        }
        if buf.len() < inode_size {
            return Err(InodeDecodeError::InputTooSmall { actual: buf.len(), expected: inode_size });
        }

        let uid_lo = read_u16(buf, OFF_UID_LO) as u32;
        let uid_hi = read_u16(buf, OFF_UID_HI) as u32;
        let gid_lo = read_u16(buf, OFF_GID_LO) as u32;
        let gid_hi = read_u16(buf, OFF_GID_HI) as u32;
        let size_lo = read_u32(buf, OFF_SIZE_LO) as u64;
        let size_hi = read_u32(buf, OFF_SIZE_HI) as u64;

        let uid = (uid_hi << 16u32) | uid_lo;
        let gid = (gid_hi << 16u32) | gid_lo;
        let size = (size_hi << 32u64) | size_lo;
        assert(uid_hi < 0x10000 && uid_lo < 0x10000 ==> uid == uid_hi * 0x1_0000 + uid_lo)
            by (bit_vector)
            requires
                uid == (uid_hi << 16u32) | uid_lo,
        ;
        assert(gid_hi < 0x10000 && gid_lo < 0x10000 ==> gid == gid_hi * 0x1_0000 + gid_lo)
            by (bit_vector)
            requires
                gid == (gid_hi << 16u32) | gid_lo,
        ;
        assert(size_hi < 0x1_0000_0000 && size_lo < 0x1_0000_0000 ==> size == size_hi
            * 0x1_0000_0000 + size_lo) by (bit_vector)
            requires
                size == (size_hi << 32u64) | size_lo,
        ;

        let block: [u8; I_BLOCK_LEN] = read_array(buf, OFF_BLOCK);

        Ok(Inode {
            mode: read_u16(buf, OFF_MODE),
            uid,
            gid,
            size,
            atime: read_u32(buf, OFF_ATIME),
            ctime: read_u32(buf, OFF_CTIME),
            mtime: read_u32(buf, OFF_MTIME),
            dtime: read_u32(buf, OFF_DTIME),
            links_count: read_u16(buf, OFF_LINKS_COUNT),
            blocks_lo: read_u32(buf, OFF_BLOCKS_LO),
            blocks_hi: read_u16(buf, OFF_BLOCKS_HI),
            flags: read_u32(buf, OFF_FLAGS),
            block,
            generation: read_u32(buf, OFF_GENERATION),
            file_acl_lo: read_u32(buf, OFF_FILE_ACL_LO),
            file_acl_hi: read_u16(buf, OFF_FILE_ACL_HI),
        })
    }

    /// File type from the top 4 bits of `i_mode`.
    pub fn file_type(&self) -> (r: InodeFileType)
        ensures
            r == self.spec_file_type(),
    {
        let t = self.mode & S_IFMT;
        if t == S_IFIFO {
            InodeFileType::Fifo
        } else if t == S_IFCHR {
            InodeFileType::CharacterDevice
        } else if t == S_IFDIR {
            InodeFileType::Directory
        } else if t == S_IFBLK {
            InodeFileType::BlockDevice
        } else if t == S_IFREG {
            InodeFileType::Regular
        } else if t == S_IFLNK {
            InodeFileType::Symlink
        } else if t == S_IFSOCK {
            InodeFileType::Socket
        } else {
            InodeFileType::Unknown(t)
        }
    }

    /// True iff the file type is a directory.
    pub fn is_directory(&self) -> (r: bool)
        ensures
            r == (self.spec_file_type() == InodeFileType::Directory),
    {
        matches!(self.file_type(), InodeFileType::Directory)
    }

    /// True iff the file type is a regular file.
    pub fn is_regular(&self) -> (r: bool)
        ensures
            r == (self.spec_file_type() == InodeFileType::Regular),
    {
        matches!(self.file_type(), InodeFileType::Regular)
    }

    /// True iff the file type is a symlink.
    pub fn is_symlink(&self) -> (r: bool)
        ensures
            r == (self.spec_file_type() == InodeFileType::Symlink),
    {
        matches!(self.file_type(), InodeFileType::Symlink)
    }

    /// True iff `i_block` opens with an extent header.
    pub fn uses_extents(&self) -> (r: bool)
        ensures
            r == self.spec_uses_extents(),
    {
        self.flags & INODE_FLAG_EXTENTS != 0
    }

    /// True iff file content is stored inline in the inode.
    pub fn has_inline_data(&self) -> (r: bool)
        ensures
            r == (self.flags & INODE_FLAG_INLINE_DATA != 0),
    {
        self.flags & INODE_FLAG_INLINE_DATA != 0
    }
}

/// An inode decoded from its slot holds each field read from its on-disk
/// offset: `i_mode` at 0x00, `i_uid` at 0x02 (high half at 0x78),
/// `i_size_lo` at 0x04 (`i_size_high` at 0x6C), `i_atime` 0x08,
/// `i_ctime` 0x0C, `i_mtime` 0x10, `i_dtime` 0x14, `i_gid` at 0x18 (high
/// half at 0x7A), `i_links_count` 0x1A, `i_blocks_lo` 0x1C, `i_flags` 0x20,
/// `i_block` the 60 bytes at 0x28, `i_generation` 0x64, `i_file_acl_lo`
/// 0x68, `i_blocks_high` 0x74, `i_file_acl_high` 0x76.
pub proof fn lemma_inode_field_offsets(ino: Inode, s: Seq<u8>)
    requires
        ino.decoded_from(s),
        s.len() >= 128,
    ensures
        ino.mode == le_u16(s, 0x00),
        ino.uid == le_u16(s, 0x78) * 0x1_0000 + le_u16(s, 0x02),
        ino.size == le_u32(s, 0x6C) * 0x1_0000_0000 + le_u32(s, 0x04),
        ino.atime == le_u32(s, 0x08),
        ino.ctime == le_u32(s, 0x0C),
        ino.mtime == le_u32(s, 0x10),
        ino.dtime == le_u32(s, 0x14),
        ino.gid == le_u16(s, 0x7A) * 0x1_0000 + le_u16(s, 0x18),
        ino.links_count == le_u16(s, 0x1A),
        ino.blocks_lo == le_u32(s, 0x1C),
        ino.flags == le_u32(s, 0x20),
        ino.block@ == s.subrange(0x28, 0x64),
        ino.generation == le_u32(s, 0x64),
        ino.file_acl_lo == le_u32(s, 0x68),
        ino.blocks_hi == le_u16(s, 0x74),
        ino.file_acl_hi == le_u16(s, 0x76),
{
}

} // verus!
