//! Format an ext4 image: one block group, the root directory at inode 2
//! with its "." and ".." entries, and block and inode bitmaps that mark
//! what the layout uses.
//!
//! Block layout (block index → contents), counted from the first data
//! block `f`, which holds the superblock at byte 1024 (block 1 on 1 KiB
//! blocks, whose block 0 is the boot area; block 0 otherwise): `f`
//! superblock, `f + 1` group descriptor table, `f + 2` block bitmap,
//! `f + 3` inode bitmap, `f + 4` .. the inode table, then the root
//! directory's data block.

use vstd::prelude::*;
use crate::bitmap::{
    bit_set, clear_run, lemma_bit_set_clear_get, lemma_bits_fix_bitmap, lemma_zero_bitmap_clear, set_bit,
    with_bit_set,
};
use crate::dir_entry::{
    dir_block_entries, dot_entry, dotdot_entry, encoded_dir_entry, lemma_dot_dotdot_block, DirEntry,
    SpecDirEntry,
};
use crate::extent::{lemma_extent_encode_decode, node_entry, node_extents, extent_at};
use crate::filesystem::{
    apart, block_limit, blocks_for, gdt_entry, gdt_offset, gdt_len, has_clear_bit, is_first_clear_bit,
    has_clear_run, lemma_first_clear_bit_unique,
    is_first_clear_run, leaf_lookup, open_error, read_range, superblock_bytes, Filesystem, ROOT_INODE,
};
use crate::inode::{inode_decode_error, inode_of, lemma_inode_encode_decode, InodeFileType};
use crate::superblock::{
    lemma_superblock_encode_decode, lemma_superblock_encoding_unique, lemma_superblock_of,
    superblock_decode_error,
    superblock_of,
};
use crate::error::Ext4Error;
use crate::extent::{
    lemma_extent_encoding_unique, lemma_extent_header_encoding_unique, Extent, ExtentHeader,
};
use crate::group_descriptor::{lemma_group_descriptor_encoding_unique, GroupDescriptor};
use crate::inode::{lemma_inode_encoding_unique, Inode, INODE_FLAG_EXTENTS, I_BLOCK_LEN};
use crate::le::{le_u16, lemma_same_bytes_in, write_bytes};
use crate::superblock::{
    valid_block_size, Superblock, OFF_VOLUME_NAME, SUPERBLOCK_OFFSET, SUPERBLOCK_SIZE,
};

verus! {

/// Inodes in the single block group.
pub const INODES_PER_GROUP: u32 = 32;

/// Inode size on disk.
pub const INODE_SIZE: u16 = 256;

/// Inode number of the root directory.
pub const ROOT_INODE_NUMBER: u32 = 2;

/// Mode of the root directory: a directory with permissions 0755.
pub const ROOT_DIR_MODE: u16 = 0o040755;

/// Directory entry file type of a directory.
pub const FT_DIR: u8 = 2;

/// Configuration for [`format`].
#[derive(Debug, Clone)]
pub struct Config {
    /// Block size in bytes: 1024, 2048, 4096 or 65536.
    pub block_size: u32,
    /// Total number of blocks in the image.
    pub size_blocks: u32,
    /// Volume label; cut to 16 bytes, nul-padded.
    pub volume_label: Vec<u8>,
}

/// The label bytes of the default configuration.
pub open spec fn default_label() -> Seq<u8> {
    seq![0x6Au8, 0x75u8, 0x73u8, 0x74u8, 0x65u8, 0x78u8, 0x74u8, 0x34u8]
}

impl Default for Config {
    /// 16 blocks of 4 KiB, labelled "justext4".
    fn default() -> (c: Self)
        ensures
            c.block_size == 4096,
            c.size_blocks == 16,
            c.volume_label@ == default_label(),
    {
        // "justext4"
        let volume_label: Vec<u8> = vec![0x6A, 0x75, 0x73, 0x74, 0x65, 0x78, 0x74, 0x34];
        assert(volume_label@ =~= default_label());
        Config { block_size: 4096, size_blocks: 16, volume_label }
    }
}

/// Blocks the inode table of a group of 32 inodes of 256 bytes takes.
pub open spec fn inode_table_blocks(bs: u32) -> int {
    (INODES_PER_GROUP * INODE_SIZE + bs - 1) / (bs as int)
}

/// The block holding the superblock, where the group's blocks start:
/// block 1 on 1 KiB blocks, block 0 otherwise.
pub open spec fn first_data_block(bs: u32) -> int {
    if bs == 1024 {
        1
    } else {
        0
    }
}

/// Bytes before the first data block.
pub open spec fn boot_area(bs: u32) -> int {
    if bs == 1024 {
        1024
    } else {
        0
    }
}

/// Block holding the first block of the inode table.
pub open spec fn inode_table_block(bs: u32) -> int {
    first_data_block(bs) + 4
}

/// Block holding the root directory's data.
pub open spec fn root_dir_block(bs: u32) -> int {
    inode_table_block(bs) + inode_table_blocks(bs)
}

/// Blocks the metadata and the root directory take: blocks 0 up to and
/// including the root directory's data block.
pub open spec fn metadata_blocks(bs: u32) -> int {
    root_dir_block(bs) + 1
}

/// The error, if any, that laying out an image of `size_blocks` blocks
/// of `bs` bytes yields.
pub open spec fn layout_error(bs: u32, size_blocks: u32) -> Option<Ext4Error> {
    if !valid_block_size(bs) {
        Some(Ext4Error::InvalidLayout { reason: "block_size must be 1024, 2048, 4096, or 65536" })
    } else if size_blocks < metadata_blocks(bs) {
        Some(
            Ext4Error::InvalidLayout {
                reason: "size_blocks too small for the metadata + root dir layout",
            },
        )
    } else {
        None
    }
}

/// The error, if any, that formatting yields.
pub open spec fn format_error(bs: u32, size_blocks: u32) -> Option<Ext4Error> {
    if layout_error(bs, size_blocks) is Some {
        layout_error(bs, size_blocks)
    } else if size_blocks * bs > usize::MAX {
        Some(Ext4Error::Io { offset: 0, len: (size_blocks * bs) as u64 })
    } else {
        None
    }
}

/// The 16-byte volume name field for `label`: its first 16 bytes,
/// nul-padded.
pub open spec fn label_field(label: Seq<u8>) -> Seq<u8> {
    Seq::new(16, |i: int| if i < label.len() { label[i] } else { 0u8 })
}

/// `sb` is the superblock `format` writes.
pub open spec fn is_format_superblock(sb: Superblock, bs: u32, size_blocks: u32, label: Seq<u8>) -> bool {
    &&& sb.block_size == bs
    &&& sb.inodes_count == INODES_PER_GROUP
    &&& sb.blocks_count == size_blocks
    &&& sb.free_blocks_count == size_blocks - metadata_blocks(bs)
    &&& sb.free_inodes_count == INODES_PER_GROUP - 1
    &&& sb.inode_size == INODE_SIZE
    &&& sb.rev_level == 1
    &&& sb.feature_compat == 0
    &&& sb.feature_incompat == 0
    &&& sb.feature_ro_compat == 0
    &&& sb.uuid@ == Seq::new(16, |i: int| 0u8)
    &&& sb.volume_name@ == label_field(label)
    &&& sb.desc_size == 0
    &&& sb.first_data_block == first_data_block(bs)
    &&& sb.blocks_per_group == size_blocks
    &&& sb.inodes_per_group == INODES_PER_GROUP
}

/// The group descriptor `format` writes.
pub open spec fn format_group_descriptor(bs: u32, size_blocks: u32) -> GroupDescriptor {
    GroupDescriptor {
        block_bitmap: (first_data_block(bs) + 2) as u64,
        inode_bitmap: (first_data_block(bs) + 3) as u64,
        inode_table: inode_table_block(bs) as u64,
        free_blocks_count: (size_blocks - metadata_blocks(bs)) as u32,
        free_inodes_count: (INODES_PER_GROUP - 1) as u32,
        used_dirs_count: 1,
        flags: 0,
        checksum: 0,
    }
}

/// The 60-byte `i_block` of the root directory: a leaf header with one
/// extent mapping logical block 0 to the root directory's data block,
/// the rest zero.
pub open spec fn is_root_i_block(b: Seq<u8>, bs: u32) -> bool {
    &&& b.len() == I_BLOCK_LEN
    &&& (ExtentHeader { entries: 1, max: 4, depth: 0, generation: 0 }).encoded_in(b)
    &&& (Extent {
        logical_block: 0,
        len: 1,
        physical_block: root_dir_block(bs) as u64,
        uninit: false,
    }).encoded_in(b.skip(12))
    &&& forall|i: int| 24 <= i < I_BLOCK_LEN ==> #[trigger] b[i] == 0u8
}

/// `ino` is the root directory inode `format` writes.
pub open spec fn is_format_root_inode(ino: Inode, bs: u32) -> bool {
    &&& ino.mode == ROOT_DIR_MODE
    &&& ino.uid == 0
    &&& ino.gid == 0
    &&& ino.size == bs
    &&& ino.atime == 0
    &&& ino.ctime == 0
    &&& ino.mtime == 0
    &&& ino.dtime == 0
    &&& ino.links_count == 2
    &&& ino.blocks_lo == bs / 512
    &&& ino.blocks_hi == 0
    &&& ino.flags == INODE_FLAG_EXTENTS
    &&& is_root_i_block(ino.block@, bs)
    &&& ino.generation == 0
    &&& ino.file_acl_lo == 0
    &&& ino.file_acl_hi == 0
}

/// The "." entry of the root directory.
pub open spec fn root_dot() -> SpecDirEntry {
    dot_entry(ROOT_INODE_NUMBER)
}

/// The ".." entry of the root directory, absorbing the rest of the block.
pub open spec fn root_dotdot(bs: u32) -> SpecDirEntry {
    dotdot_entry(ROOT_INODE_NUMBER, bs as int)
}

/// Byte offset of the root inode's slot in the inode table.
pub open spec fn root_inode_offset(bs: u32) -> int {
    boot_area(bs) + 4 * bs + (ROOT_INODE_NUMBER - 1) * INODE_SIZE
}

/// Byte offset of the group descriptor table.
pub open spec fn gdt_at(bs: u32) -> int {
    boot_area(bs) + bs
}

/// Byte offset of the block bitmap.
pub open spec fn block_bitmap_at(bs: u32) -> int {
    boot_area(bs) + 2 * bs
}

/// Byte offset of the inode bitmap.
pub open spec fn inode_bitmap_at(bs: u32) -> int {
    boot_area(bs) + 3 * bs
}

/// Byte `i` of an image of `bs`-byte blocks lies in a region `format`
/// writes.
pub open spec fn in_format_region(i: int, bs: u32) -> bool {
    ||| SUPERBLOCK_OFFSET <= i < SUPERBLOCK_OFFSET + SUPERBLOCK_SIZE
    ||| gdt_at(bs) <= i < gdt_at(bs) + 32
    ||| root_inode_offset(bs) <= i < root_inode_offset(bs) + INODE_SIZE
    ||| root_dir_block(bs) * bs <= i < root_dir_block(bs) * bs + bs
    ||| block_bitmap_at(bs) <= i < block_bitmap_at(bs) + 2 * bs
}

/// `img` is the image `format` produces for the configuration: every
/// region holds what the layout puts there, every other byte is zero.
pub open spec fn is_formatted_image(img: Seq<u8>, bs: u32, size_blocks: u32, label: Seq<u8>) -> bool {
    let gd_region = img.subrange(gdt_at(bs), gdt_at(bs) + 32);
    let ino_off = root_inode_offset(bs);
    let dir_off = root_dir_block(bs) * bs;
    &&& img.len() == size_blocks * bs
    &&& exists|sb: Superblock, b: Seq<u8>|
        {
            &&& is_format_superblock(sb, bs, size_blocks, label)
            &&& b.len() == SUPERBLOCK_SIZE
            &&& #[trigger] sb.encoded_in(b)
            &&& img.subrange(SUPERBLOCK_OFFSET as int, SUPERBLOCK_OFFSET + SUPERBLOCK_SIZE) == b
        }
    &&& format_group_descriptor(bs, size_blocks).encoded_in(gd_region, 32)
    &&& exists|ino: Inode|
        is_format_root_inode(ino, bs) && #[trigger] ino.encoded_in(
            img.subrange(ino_off, ino_off + INODE_SIZE),
            INODE_SIZE as int,
        )
    &&& img.subrange(dir_off, dir_off + bs) == encoded_dir_entry(root_dot()) + encoded_dir_entry(
        root_dotdot(bs),
    )
    &&& forall|k: int|
        0 <= k < 8 * bs ==> (#[trigger] bit_set(
            img.subrange(block_bitmap_at(bs), block_bitmap_at(bs) + bs),
            k,
        ) <==> k < metadata_blocks(bs))
    &&& forall|k: int|
        0 <= k < 8 * bs ==> (#[trigger] bit_set(
            img.subrange(inode_bitmap_at(bs), inode_bitmap_at(bs) + bs),
            k,
        ) <==> k == ROOT_INODE_NUMBER - 1)
    &&& forall|i: int| 0 <= i < img.len() && !in_format_region(i, bs) ==> #[trigger] img[i] == 0u8
}

/// Block numbers of the layout, derived from a configuration.
struct Layout {
    block_size: u64,
    first_data_block: u64,
    inode_table_blocks: u64,
    inode_table_first_block: u64,
    root_dir_block: u64,
    metadata_blocks: u64,
}

impl Layout {
    /// The layout for `config`, or why there is none.
    fn from_config(config: &Config) -> (r: Result<Layout, Ext4Error>)
        ensures
            match r {
                Ok(l) => {
                    &&& layout_error(config.block_size, config.size_blocks) is None
                    &&& l.block_size == config.block_size
                    &&& l.inode_table_blocks == inode_table_blocks(config.block_size)
                    &&& l.first_data_block == first_data_block(config.block_size)
                    &&& l.inode_table_first_block == inode_table_block(config.block_size)
                    &&& l.root_dir_block == root_dir_block(config.block_size)
                    &&& l.metadata_blocks == metadata_blocks(config.block_size)
                },
                Err(e) => layout_error(config.block_size, config.size_blocks) == Some(e),
            },
    {
        let bs = config.block_size;
        if !(bs == 1024 || bs == 2048 || bs == 4096 || bs == 65536) {
            return Err(
                Ext4Error::InvalidLayout { reason: "block_size must be 1024, 2048, 4096, or 65536" },
            );
        }
        let block_size = bs as u64;
        let inode_table_bytes = (INODES_PER_GROUP as u64) * (INODE_SIZE as u64);
        let inode_table_blocks = (inode_table_bytes + block_size - 1) / block_size;
        // on 1 KiB blocks the superblock fills block 1, after the boot area
        let first_data_block: u64 = if bs == 1024 {
            1
        } else {
            0
        };
        let inode_table_first_block = first_data_block + 4;
        let root_dir_block = inode_table_first_block + inode_table_blocks;
        let metadata_blocks = root_dir_block + 1;
        if (config.size_blocks as u64) < metadata_blocks {
            return Err(
                Ext4Error::InvalidLayout {
                    reason: "size_blocks too small for the metadata + root dir layout",
                },
            );
        }
        Ok(
            Layout {
                block_size,
                first_data_block,
                inode_table_blocks,
                inode_table_first_block,
                root_dir_block,
                metadata_blocks,
            },
        )
    }
}

/// The root directory's block holds exactly "." and "..".
pub proof fn lemma_root_dir_block_entries(bs: u32)
    requires
        valid_block_size(bs),
    ensures
        dir_block_entries(encoded_dir_entry(root_dot()) + encoded_dir_entry(root_dotdot(bs)))
            == Ok::<Seq<SpecDirEntry>, crate::dir_entry::DirEntryDecodeError>(
            seq![root_dot(), root_dotdot(bs)],
        ),
{
    lemma_dot_dotdot_block(ROOT_INODE_NUMBER, ROOT_INODE_NUMBER, bs as int);
}

/// Facts about the sizes of a formatted image's layout.
proof fn lemma_format_sizes(bs: u32, size_blocks: u32, len: int)
    requires
        valid_block_size(bs),
        size_blocks >= metadata_blocks(bs),
        len == size_blocks * bs,
    ensures
        inode_table_blocks(bs) * bs >= 8192,
        1 <= inode_table_blocks(bs) <= 8,
        (first_data_block(bs) + 1) * bs == gdt_at(bs),
        (first_data_block(bs) + 2) * bs == block_bitmap_at(bs),
        (first_data_block(bs) + 3) * bs == inode_bitmap_at(bs),
        inode_table_block(bs) * bs == boot_area(bs) + 4 * bs,
        root_dir_block(bs) * bs == boot_area(bs) + 4 * bs + inode_table_blocks(bs) * bs,
        metadata_blocks(bs) * bs == root_dir_block(bs) * bs + bs,
        len >= metadata_blocks(bs) * bs,
        gdt_at(bs) >= SUPERBLOCK_OFFSET + SUPERBLOCK_SIZE,
{
    let itb = inode_table_blocks(bs);
    let f = first_data_block(bs);
    let rd = root_dir_block(bs);
    let mb = metadata_blocks(bs);
    assert(itb * bs >= 8192 && 1 <= itb <= 8) by (nonlinear_arith)
        requires
            itb == (8192 + bs - 1) / (bs as int),
            bs == 1024 || bs == 2048 || bs == 4096 || bs == 65536,
    ;
    assert(f * bs == boot_area(bs));
    assert((f + 1) * bs == f * bs + bs && (f + 2) * bs == f * bs + 2 * bs && (f + 3) * bs == f
        * bs + 3 * bs && (f + 4) * bs == f * bs + 4 * bs) by (nonlinear_arith);
    assert(rd * bs == (f + 4) * bs + itb * bs && mb * bs == rd * bs + bs) by (nonlinear_arith)
        requires
            rd == f + 4 + itb,
            mb == rd + 1,
    ;
    assert(len >= mb * bs) by (nonlinear_arith)
        requires
            len == size_blocks * bs,
            size_blocks >= mb,
            bs >= 0,
    ;
}

/// The superblock of a formatted image, as `is_formatted_image` has it.
proof fn lemma_format_superblock_bytes(img: Seq<u8>, bs: u32, size_blocks: u32, label: Seq<u8>)
    requires
        format_error(bs, size_blocks) is None,
        is_formatted_image(img, bs, size_blocks, label),
    ensures
        is_format_superblock(superblock_of(superblock_bytes(img)), bs, size_blocks, label),
        superblock_decode_error(superblock_bytes(img)) is None,
        img.len() == size_blocks * bs,
{
    lemma_format_sizes(bs, size_blocks, img.len() as int);
    let (sbv, b) = choose|sb: Superblock, b: Seq<u8>|
        {
            &&& is_format_superblock(sb, bs, size_blocks, label)
            &&& b.len() == SUPERBLOCK_SIZE
            &&& #[trigger] sb.encoded_in(b)
            &&& img.subrange(SUPERBLOCK_OFFSET as int, SUPERBLOCK_OFFSET + SUPERBLOCK_SIZE) == b
        };
    assert(0u32 & 0x80u32 == 0u32) by (bit_vector);
    assert(sbv.encodable());
    lemma_superblock_encode_decode(sbv, b);
    assert(superblock_bytes(img) == b);
}

/// An image `format` produces opens: `Filesystem::open` accepts it, and
/// the superblock it decodes carries the configuration.
pub proof fn lemma_format_opens_cleanly(img: Seq<u8>, bs: u32, size_blocks: u32, label: Seq<u8>)
    requires
        format_error(bs, size_blocks) is None,
        is_formatted_image(img, bs, size_blocks, label),
    ensures
        open_error(img) is None,
        is_format_superblock(superblock_of(superblock_bytes(img)), bs, size_blocks, label),
        superblock_of(superblock_bytes(img)).spec_group_count() == 1,
        superblock_of(superblock_bytes(img)).spec_group_descriptor_size() == 32,
        gdt_offset(superblock_of(superblock_bytes(img))) == gdt_at(bs),
{
    lemma_format_superblock_bytes(img, bs, size_blocks, label);
    lemma_format_superblock_opens(img, bs, size_blocks, label);
}

/// An image whose superblock is the one `format` writes opens.
proof fn lemma_format_superblock_opens(img: Seq<u8>, bs: u32, size_blocks: u32, label: Seq<u8>)
    requires
        format_error(bs, size_blocks) is None,
        is_format_superblock(superblock_of(superblock_bytes(img)), bs, size_blocks, label),
        superblock_decode_error(superblock_bytes(img)) is None,
        img.len() == size_blocks * bs,
    ensures
        open_error(img) is None,
        superblock_of(superblock_bytes(img)).spec_group_count() == 1,
        superblock_of(superblock_bytes(img)).spec_group_descriptor_size() == 32,
        gdt_offset(superblock_of(superblock_bytes(img))) == gdt_at(bs),
{
    lemma_format_sizes(bs, size_blocks, img.len() as int);
    let sb = superblock_of(superblock_bytes(img));
    assert(0u32 & 0x80u32 == 0u32) by (bit_vector);
    assert(sb.spec_group_descriptor_size() == 32);
    assert(sb.spec_group_count() == 1) by {
        let d = size_blocks as int;
        let f = first_data_block(bs);
        assert(d >= metadata_blocks(bs) >= 2);
        assert((d - f + d - 1) / d == 1) by (nonlinear_arith)
            requires
                d >= 2,
                0 <= f <= 1,
        ;
    }
    assert(gdt_offset(sb) == gdt_at(bs));
    assert(gdt_len(sb) == 32);
    assert(read_range(img, gdt_offset(sb), gdt_len(sb)) is Ok);
}

/// A formatted image opens, with the configured superblock and a single
/// group laid out as `format` lays it out.
proof fn lemma_format_opens(img: Seq<u8>, bs: u32, size_blocks: u32, label: Seq<u8>, fs: Filesystem)
    requires
        format_error(bs, size_blocks) is None,
        is_formatted_image(img, bs, size_blocks, label),
        fs.opened_from(img),
    ensures
        open_error(img) is None,
        is_format_superblock(fs.spec_superblock(), bs, size_blocks, label),
        fs.spec_gdt().len() == 1,
        fs.spec_gdt()[0].inode_table == inode_table_block(bs),
        fs.spec_gdt()[0].block_bitmap == first_data_block(bs) + 2,
        fs.spec_gdt()[0].inode_bitmap == first_data_block(bs) + 3,
{
    lemma_format_opens_cleanly(img, bs, size_blocks, label);
    let sb = fs.spec_superblock();
    assert(sb == superblock_of(superblock_bytes(img)));
    let g = fs.spec_gdt()[0];
    let bytes = img.subrange(gdt_at(bs), gdt_at(bs) + 32);
    assert(g.decoded_from(gdt_entry(img, sb, 0), 32));
    assert(gdt_entry(img, sb, 0) =~= bytes);
    lemma_format_gd_fields(bytes, g, bs, size_blocks);
}

/// The group descriptor decoded from the entry `format` wrote has the
/// layout's blocks.
proof fn lemma_format_gd_fields(bytes: Seq<u8>, g: GroupDescriptor, bs: u32, size_blocks: u32)
    requires
        valid_block_size(bs),
        format_group_descriptor(bs, size_blocks).encoded_in(bytes, 32),
        g.decoded_from(bytes, 32),
    ensures
        g.inode_table == inode_table_block(bs),
        g.block_bitmap == first_data_block(bs) + 2,
        g.inode_bitmap == first_data_block(bs) + 3,
{
}

/// Inode 2 of a formatted image is the root directory inode `format`
/// wrote.
proof fn lemma_format_root_inode(
    img: Seq<u8>,
    bs: u32,
    size_blocks: u32,
    label: Seq<u8>,
    fs: Filesystem,
) -> (ino: Inode)
    requires
        format_error(bs, size_blocks) is None,
        is_formatted_image(img, bs, size_blocks, label),
        fs.opened_from(img),
    ensures
        fs.spec_read_inode(ROOT_INODE) == Ok::<Inode, Ext4Error>(ino),
        is_format_root_inode(ino, bs),
{
    lemma_format_sizes(bs, size_blocks, img.len() as int);
    lemma_format_opens(img, bs, size_blocks, label, fs);
    let sb = fs.spec_superblock();
    let g = fs.spec_gdt()[0];
    let ino_off = root_inode_offset(bs);
    let ino = choose|ino: Inode|
        is_format_root_inode(ino, bs) && #[trigger] ino.encoded_in(
            img.subrange(ino_off, ino_off + INODE_SIZE),
            INODE_SIZE as int,
        );
    let bytes = img.subrange(ino_off, ino_off + INODE_SIZE);
    assert(g.inode_table * sb.block_size == boot_area(bs) + 4 * bs);
    assert(read_range(img, g.inode_table * sb.block_size + 1 * sb.inode_size, sb.inode_size as int)
        == Ok::<Seq<u8>, Ext4Error>(bytes));
    lemma_inode_encode_decode(ino, bytes, sb);
    ino
}

/// Reading the root directory inode `format` wrote gives "." and "..",
/// when its data block holds what `format` put there.
proof fn lemma_format_root_read_dir(img: Seq<u8>, bs: u32, size_blocks: u32, fs: Filesystem, ino: Inode)
    requires
        valid_block_size(bs),
        size_blocks >= metadata_blocks(bs),
        img.len() == size_blocks * bs,
        fs.image() == img,
        fs.spec_superblock().block_size == bs,
        is_format_root_inode(ino, bs),
        img.subrange(root_dir_block(bs) * bs, root_dir_block(bs) * bs + bs) == encoded_dir_entry(
            root_dot(),
        ) + encoded_dir_entry(root_dotdot(bs)),
    ensures
        fs.spec_read_dir(ino) == Ok::<Seq<SpecDirEntry>, Ext4Error>(
            seq![root_dot(), root_dotdot(bs)],
        ),
        fs.spec_resolve(ino, 0) == Ok::<Option<u64>, Ext4Error>(Some(root_dir_block(bs) as u64)),
{
    lemma_format_sizes(bs, size_blocks, img.len() as int);
    lemma_root_resolve(fs, ino, bs);
    let dir_off = root_dir_block(bs) * bs;
    let dir = img.subrange(dir_off, dir_off + bs);
    assert(fs.block_data(ino, 0) == Ok::<Seq<u8>, Ext4Error>(dir));
    assert(fs.block_count(ino.size) == 1) by {
        let p = bs as int;
        assert((p + p - 1) / p == 1) by (nonlinear_arith)
            requires
                p >= 1,
        ;
    }
    assert(fs.blocks_data(ino, 0) == Ok::<Seq<u8>, Ext4Error>(Seq::empty()));
    assert(Seq::<u8>::empty() + dir =~= dir);
    assert(fs.blocks_data(ino, 1) == Ok::<Seq<u8>, Ext4Error>(dir));
    assert(dir.take(bs as int) =~= dir);
    assert(fs.spec_read_file(ino) == Ok::<Seq<u8>, Ext4Error>(dir));
    lemma_root_dir_block_entries(bs);
}

/// An image `format` produces opens, its superblock carries the
/// configuration, and its root directory (inode 2) is a directory whose
/// entries are exactly "." and "..", both naming the root.
pub proof fn lemma_format_then_open_reads_root(
    img: Seq<u8>,
    bs: u32,
    size_blocks: u32,
    label: Seq<u8>,
    fs: Filesystem,
)
    requires
        format_error(bs, size_blocks) is None,
        is_formatted_image(img, bs, size_blocks, label),
        fs.opened_from(img),
    ensures
        open_error(img) is None,
        is_format_superblock(fs.spec_superblock(), bs, size_blocks, label),
        fs.spec_read_inode(ROOT_INODE) is Ok,
        is_format_root_inode(fs.spec_read_inode(ROOT_INODE)->Ok_0, bs),
        (fs.spec_read_inode(ROOT_INODE)->Ok_0).spec_file_type() == InodeFileType::Directory,
        fs.spec_read_dir(fs.spec_read_inode(ROOT_INODE)->Ok_0) == Ok::<
            Seq<SpecDirEntry>,
            Ext4Error,
        >(seq![root_dot(), root_dotdot(bs)]),
{
    lemma_format_opens(img, bs, size_blocks, label, fs);
    let ino = lemma_format_root_inode(img, bs, size_blocks, label, fs);
    assert(ino.spec_file_type() == InodeFileType::Directory) by {
        assert(ROOT_DIR_MODE & 0xF000u16 == 0x4000u16) by (bit_vector);
    }
    lemma_format_root_read_dir(img, bs, size_blocks, fs, ino);
}

/// The first extent node of the root directory inode `format` writes
/// maps logical block 0 to the root directory's data block.
proof fn lemma_root_resolve(fs: Filesystem, ino: Inode, bs: u32)
    requires
        valid_block_size(bs),
        ino.flags == INODE_FLAG_EXTENTS,
        is_root_i_block(ino.block@, bs),
    ensures
        fs.spec_resolve(ino, 0) == Ok::<Option<u64>, Ext4Error>(Some(root_dir_block(bs) as u64)),
{
    assert(ino.spec_uses_extents()) by {
        assert(INODE_FLAG_EXTENTS & INODE_FLAG_EXTENTS != 0u32) by (bit_vector);
    }
    let node = ino.block@;
    let e = Extent {
        logical_block: 0,
        len: 1,
        physical_block: root_dir_block(bs) as u64,
        uninit: false,
    };
    lemma_extent_encode_decode(e, node.skip(12));
    assert(node_entry(node, 0) =~= node.skip(12).subrange(0, 12));
    assert(extent_at(node_entry(node, 0)) == extent_at(node.skip(12)));
    assert(node_extents(node) =~= seq![e]);
    assert(leaf_lookup(node_extents(node), 0) == Some(root_dir_block(bs) as u64));
    assert(fs.resolve_node(node, 0, 6) == Ok::<Option<u64>, Ext4Error>(
        Some(root_dir_block(bs) as u64),
    ));
}

/// `fs` is laid out as `format` lays out an image of `bs`-byte blocks:
/// one group whose bitmaps and inode table lie where `format` puts them;
/// a root directory inode of one block, mapped as `format` maps it; the
/// layout's blocks and inode 2 marked in use; and some inode of the
/// group still free.
pub open spec fn has_root_layout(fs: Filesystem, bs: u32) -> bool {
    let sb = fs.spec_superblock();
    let b = bs as int;
    let ibm = fs.image().subrange(inode_bitmap_at(bs), inode_bitmap_at(bs) + b);
    let bbm = fs.image().subrange(block_bitmap_at(bs), block_bitmap_at(bs) + b);
    &&& valid_block_size(bs)
    &&& sb.block_size == bs
    &&& sb.inode_size == INODE_SIZE
    &&& sb.inodes_per_group == INODES_PER_GROUP
    &&& sb.spec_group_descriptor_size() == 32
    &&& gdt_offset(sb) == gdt_at(bs)
    &&& fs.spec_gdt().len() == 1
    &&& fs.spec_gdt()[0].block_bitmap == first_data_block(bs) + 2
    &&& fs.spec_gdt()[0].inode_bitmap == first_data_block(bs) + 3
    &&& fs.spec_gdt()[0].inode_table == inode_table_block(bs)
    &&& fs.image().len() >= metadata_blocks(bs) * b
    &&& fs.image().len() >= sb.blocks_count * b
    &&& fs.spec_read_inode(ROOT_INODE) matches Ok(ino) && ino.flags == INODE_FLAG_EXTENTS && ino.size
        == bs && is_root_i_block(ino.block@, bs)
    &&& forall|k: int| 0 <= k < metadata_blocks(bs) ==> #[trigger] bit_set(bbm, k)
    &&& bit_set(ibm, ROOT_INODE_NUMBER - 1)
    &&& has_clear_bit(ibm, INODES_PER_GROUP as int)
}

/// An image `format` produced has the layout `format` gives.
pub proof fn lemma_format_has_root_layout(
    img: Seq<u8>,
    bs: u32,
    size_blocks: u32,
    label: Seq<u8>,
    fs: Filesystem,
)
    requires
        format_error(bs, size_blocks) is None,
        is_formatted_image(img, bs, size_blocks, label),
        fs.opened_from(img),
    ensures
        has_root_layout(fs, bs),
{
    lemma_format_sizes(bs, size_blocks, img.len() as int);
    lemma_format_opens(img, bs, size_blocks, label, fs);
    lemma_format_root_inode(img, bs, size_blocks, label, fs);
    lemma_format_opens_cleanly(img, bs, size_blocks, label);
    let sb = fs.spec_superblock();
    assert(sb == superblock_of(superblock_bytes(img)));
    let ibm = img.subrange(inode_bitmap_at(bs), inode_bitmap_at(bs) + bs);
    assert(!bit_set(ibm, 0));
    assert(bit_set(ibm, 1));
}

/// On an image `format` produced, what `create_file` and `mkdir` write
/// for a new entry in the root directory lies apart: the inode they take
/// (the lowest free one) and any data of at most 32768 blocks meet every
/// condition under which their outcomes are fixed.
pub proof fn lemma_format_regions_apart(
    img: Seq<u8>,
    bs: u32,
    size_blocks: u32,
    label: Seq<u8>,
    fs: Filesystem,
    len: int,
)
    requires
        format_error(bs, size_blocks) is None,
        is_formatted_image(img, bs, size_blocks, label),
        fs.opened_from(img),
        0 <= len,
        blocks_for(len, bs as int) <= 32768,
    ensures
        fs.spec_read_inode(ROOT_INODE) is Ok,
        ({
            let pino = fs.spec_read_inode(ROOT_INODE)->Ok_0;
            let n = fs.next_free_inode();
            &&& fs.entry_regions_apart(n, len, pino)
            &&& fs.inode_bitmap_apart(n, len, pino)
            &&& fs.block_bitmap_apart(n, len, pino)
            &&& fs.mkdir_entry_apart(n, ROOT_INODE, pino)
            &&& fs.mkdir_bitmaps_apart(n, ROOT_INODE, pino)
        }),
{
    lemma_format_has_root_layout(img, bs, size_blocks, label, fs);
    lemma_layout_regions_apart(fs, bs, len);
}

/// On a filesystem laid out as `format` lays it out, what `create_file`
/// and `mkdir` write for a new entry in the root directory lies apart:
/// the inode they take (the lowest free one) and any data of at most
/// 32768 blocks meet every condition under which their outcomes are
/// fixed.
#[verifier::rlimit(80)]
#[verifier::spinoff_prover]
pub proof fn lemma_layout_regions_apart(fs: Filesystem, bs: u32, len: int)
    requires
        has_root_layout(fs, bs),
        0 <= len,
        blocks_for(len, bs as int) <= 32768,
    ensures
        fs.spec_read_inode(ROOT_INODE) is Ok,
        ({
            let pino = fs.spec_read_inode(ROOT_INODE)->Ok_0;
            let n = fs.next_free_inode();
            &&& fs.entry_regions_apart(n, len, pino)
            &&& fs.inode_bitmap_apart(n, len, pino)
            &&& fs.block_bitmap_apart(n, len, pino)
            &&& fs.mkdir_entry_apart(n, ROOT_INODE, pino)
            &&& fs.mkdir_bitmaps_apart(n, ROOT_INODE, pino)
        }),
{
    let img = fs.image();
    let sb = fs.spec_superblock();
    let b = bs as int;
    let base = boot_area(bs);
    let size_blocks = metadata_blocks(bs) as u32;
    lemma_format_sizes(bs, size_blocks, metadata_blocks(bs) * b);
    let pino = fs.spec_read_inode(ROOT_INODE)->Ok_0;
    lemma_root_resolve(fs, pino, bs);
    let itb = inode_table_blocks(bs);
    let mb = metadata_blocks(bs);
    let pb = root_dir_block(bs);
    let lim = block_limit(sb);
    assert(fs.inode_bitmap_offset() == base + 3 * b);
    assert(fs.block_bitmap_offset() == base + 2 * b);
    let ibm = img.subrange(base + 3 * b, base + 4 * b);
    let bbm = img.subrange(base + 2 * b, base + 3 * b);
    assert(read_range(img, base + 3 * b, b) == Ok::<Seq<u8>, Ext4Error>(ibm));
    assert(read_range(img, base + 2 * b, b) == Ok::<Seq<u8>, Ext4Error>(bbm));
    assert(bit_set(ibm, 1));
    let w = choose|w: int| 0 <= w < 32 && w / 8 < ibm.len() && !#[trigger] bit_set(ibm, w);
    lemma_lowest_clear_bit(ibm, 32, w);
    let k = choose|k: int| is_first_clear_bit(ibm, 32, k);
    assert(is_first_clear_bit(ibm, 32, k));
    assert(k != 1);
    let n = fs.next_free_inode();
    assert(n == k + 1);
    assert((n - 1) / 32 == 0 && (n - 1) % 32 == n - 1);
    assert(fs.inode_slot(n) == base + 4 * b + (n - 1) * 256);
    assert(fs.inode_slot(ROOT_INODE) == base + 4 * b + 256);
    assert(lim <= 8 * b);
    let nb = blocks_for(len, b);
    assert(nb * b >= 0) by (nonlinear_arith)
        requires
            nb >= 0,
            b > 0,
    ;
    assert forall|m: int, start: int|
        1 <= m && #[trigger] is_first_clear_run(bbm, m, lim, start) implies start * b >= mb * b by {
        assert(!bit_set(bbm, start));
        if start < mb {
            assert(bit_set(bbm, start));
        }
        assert(start * b >= mb * b) by (nonlinear_arith)
            requires
                start >= mb,
                b > 0,
        ;
    }
    assert(fs.spec_gdt().len() * sb.spec_group_descriptor_size() == 32);
    assert(le_u16(pino.block@, 6) == 0);
    lemma_root_regions_apart(fs, n, len, pino, pb, itb, bbm);
}

/// Creating a file in the root directory of a filesystem laid out as
/// `format` lays it out keeps that layout, while an inode is left free:
/// a further file or directory created there has its outcome fixed as
/// well.
#[verifier::rlimit(100)]
#[verifier::spinoff_prover]
pub proof fn lemma_create_keeps_root_layout(
    o: Filesystem,
    f: Filesystem,
    bs: u32,
    n: u32,
    name: Seq<u8>,
    data: Seq<u8>,
)
    requires
        has_root_layout(o, bs),
        blocks_for(data.len() as int, bs as int) <= 32768,
        o.same_layout(&f),
        o.file_created(&f, n, o.spec_read_inode(ROOT_INODE)->Ok_0, name, data),
        has_clear_bit(
            f.image().subrange(inode_bitmap_at(bs), inode_bitmap_at(bs) + bs),
            INODES_PER_GROUP as int,
        ),
    ensures
        has_root_layout(f, bs),
{
    let len = data.len() as int;
    let b = bs as int;
    let base = boot_area(bs);
    let sb = o.spec_superblock();
    let img = o.image();
    let pino = o.spec_read_inode(ROOT_INODE)->Ok_0;
    lemma_layout_regions_apart(o, bs, len);
    lemma_format_sizes(bs, metadata_blocks(bs) as u32, metadata_blocks(bs) * b);
    lemma_root_resolve(o, pino, bs);
    // the inode taken is the lowest free one
    let ibm = img.subrange(base + 3 * b, base + 4 * b);
    assert(o.inode_bitmap_offset() == base + 3 * b);
    assert(read_range(img, base + 3 * b, b) == Ok::<Seq<u8>, Ext4Error>(ibm));
    let k = choose|k: int| is_first_clear_bit(ibm, 32, k);
    assert(is_first_clear_bit(ibm, 32, n - 1));
    lemma_first_clear_bit_unique(ibm, 32, k, n - 1);
    assert(n == o.next_free_inode());
    // the regions written lie inside the image
    let nb = blocks_for(len, b);
    let pb = root_dir_block(bs);
    assert(o.inode_slot(n) == base + 4 * b + (n - 1) * 256);
    if nb > 0 {
        let bbm = img.subrange(base + 2 * b, base + 3 * b);
        assert(o.block_bitmap_offset() == base + 2 * b);
        assert(read_range(img, base + 2 * b, b) == Ok::<Seq<u8>, Ext4Error>(bbm));
        let st = o.file_start(nb);
        assert(is_first_clear_run(bbm, nb, block_limit(sb), st));
        assert(st + nb <= sb.blocks_count);
        assert(st * b + nb * b <= img.len()) by (nonlinear_arith)
            requires
                st + nb <= sb.blocks_count,
                sb.blocks_count * b <= img.len(),
                b > 0,
                st >= 0,
                nb >= 0,
        ;
        assert(!bit_set(bbm, st));
        if st < metadata_blocks(bs) {
            assert(bit_set(bbm, st));
        }
        assert(st * b >= metadata_blocks(bs) * b) by (nonlinear_arith)
            requires
                st >= metadata_blocks(bs),
                b > 0,
        ;
    }
    assert(nb > 0 ==> o.file_start(nb) * b >= pb * b + b);
    assert(o.create_pinned(n, len, pino));
    // the root inode's slot is not written
    let rs = base + 4 * b + 256;
    assert(o.inode_slot(ROOT_INODE) == rs);
    assert forall|i: int| rs <= i < rs + 256 implies !o.create_writes(n, len, pino, i) by {}
    let fimg = f.image();
    assert(fimg.subrange(rs, rs + 256) =~= img.subrange(rs, rs + 256)) by {
        assert forall|j: int| 0 <= j < 256 implies #[trigger] fimg.subrange(rs, rs + 256)[j]
            == img.subrange(rs, rs + 256)[j] by {
            assert(fimg[rs + j] == img[rs + j]);
        }
    }
    let fsb = f.spec_superblock();
    assert(f.spec_gdt()[0].inode_table == o.spec_gdt()[0].inode_table);
    assert(f.spec_read_inode(ROOT_INODE) == o.spec_read_inode(ROOT_INODE));
    // the bitmaps only gain bits
    let fibm = fimg.subrange(base + 3 * b, base + 4 * b);
    assert(f.inode_bitmap_offset() == base + 3 * b);
    assert(fibm == with_bit_set(ibm, n - 1));
    lemma_bit_set_clear_get(ibm, n - 1, 1);
    let bbm = img.subrange(base + 2 * b, base + 3 * b);
    let fbbm = fimg.subrange(base + 2 * b, base + 3 * b);
    assert forall|c: int| 0 <= c < metadata_blocks(bs) implies #[trigger] bit_set(fbbm, c) by {
        assert(bit_set(bbm, c));
        if nb > 0 {
            assert(read_range(fimg, base + 2 * b, b) == Ok::<Seq<u8>, Ext4Error>(fbbm));
        } else {
            assert forall|j: int| 0 <= j < b implies #[trigger] fbbm[j] == bbm[j] by {
                assert(!o.create_writes(n, len, pino, base + 2 * b + j));
                assert(fimg[base + 2 * b + j] == img[base + 2 * b + j]);
            }
            assert(fbbm =~= bbm);
        }
    }
}

/// Making a directory in the root directory of a filesystem laid out as
/// `format` lays it out keeps that layout, while an inode is left free:
/// a further file or directory created in the root directory has its
/// outcome fixed as well.
#[verifier::rlimit(100)]
#[verifier::spinoff_prover]
pub proof fn lemma_mkdir_keeps_root_layout(o: Filesystem, f: Filesystem, bs: u32, n: u32, name: Seq<u8>)
    requires
        has_root_layout(o, bs),
        o.same_layout(&f),
        o.dir_created(&f, n, ROOT_INODE, o.spec_read_inode(ROOT_INODE)->Ok_0, name),
        has_clear_run(
            o.image().subrange(block_bitmap_at(bs), block_bitmap_at(bs) + bs),
            1,
            block_limit(o.spec_superblock()),
        ),
        has_clear_bit(
            f.image().subrange(inode_bitmap_at(bs), inode_bitmap_at(bs) + bs),
            INODES_PER_GROUP as int,
        ),
    ensures
        has_root_layout(f, bs),
{
    let b = bs as int;
    let base = boot_area(bs);
    let sb = o.spec_superblock();
    let img = o.image();
    let pino = o.spec_read_inode(ROOT_INODE)->Ok_0;
    assert(blocks_for(0, b) == 0) by (nonlinear_arith)
        requires
            b >= 1,
    ;
    lemma_layout_regions_apart(o, bs, 0);
    lemma_format_sizes(bs, metadata_blocks(bs) as u32, metadata_blocks(bs) * b);
    // the inode taken is the lowest free one
    let ibm = img.subrange(base + 3 * b, base + 4 * b);
    assert(o.inode_bitmap_offset() == base + 3 * b);
    assert(read_range(img, base + 3 * b, b) == Ok::<Seq<u8>, Ext4Error>(ibm));
    let k = choose|k: int| is_first_clear_bit(ibm, 32, k);
    assert(is_first_clear_bit(ibm, 32, n - 1));
    lemma_first_clear_bit_unique(ibm, 32, k, n - 1);
    assert(n == o.next_free_inode());
    // the new directory's block lies inside the image
    let bbm = img.subrange(base + 2 * b, base + 3 * b);
    assert(o.block_bitmap_offset() == base + 2 * b);
    assert(read_range(img, base + 2 * b, b) == Ok::<Seq<u8>, Ext4Error>(bbm));
    let lim = block_limit(sb);
    let w = choose|w: int| 0 <= w && w + 1 <= lim && #[trigger] clear_run(bbm, w, 1);
    lemma_lowest_clear_run(bbm, lim, w);
    let st = o.next_free_run(1);
    assert(is_first_clear_run(bbm, 1, lim, st));
    assert(st * b + b <= img.len()) by (nonlinear_arith)
        requires
            st + 1 <= sb.blocks_count,
            sb.blocks_count * b <= img.len(),
            b > 0,
            st >= 0,
    ;
    assert(o.inode_slot(n) == base + 4 * b + (n - 1) * 256);
    assert(o.mkdir_pinned(n, ROOT_INODE, pino));
    // the root directory inode keeps its blocks
    assert(f.spec_read_inode(ROOT_INODE) == Ok::<Inode, Ext4Error>(
        Inode { links_count: ((pino.links_count + 1) % 0x1_0000) as u16, ..pino },
    ));
    // the bitmaps only gain bits
    let fimg = f.image();
    let fibm = fimg.subrange(base + 3 * b, base + 4 * b);
    assert(fibm == with_bit_set(ibm, n - 1));
    lemma_bit_set_clear_get(ibm, n - 1, 1);
    let fbbm = fimg.subrange(base + 2 * b, base + 3 * b);
    assert(read_range(fimg, base + 2 * b, b) == Ok::<Seq<u8>, Ext4Error>(fbbm));
    assert forall|c: int| 0 <= c < metadata_blocks(bs) implies #[trigger] bit_set(fbbm, c) by {
        assert(bit_set(bbm, c));
    }
}

/// Where `max` leaves room for a clear bit, a lowest one is: a lowest
/// run of one clear bit.
proof fn lemma_lowest_clear_run(bm: Seq<u8>, max: int, w: int)
    requires
        0 <= w,
        w + 1 <= max,
        clear_run(bm, w, 1),
    ensures
        exists|k: int| is_first_clear_run(bm, 1, max, k),
    decreases w,
{
    if forall|c: int| 0 <= c < w ==> !#[trigger] clear_run(bm, c, 1) {
        assert(is_first_clear_run(bm, 1, max, w));
    } else {
        let c = choose|c: int| 0 <= c < w && #[trigger] clear_run(bm, c, 1);
        lemma_lowest_clear_run(bm, max, c);
    }
}

/// Where some bit below `max` is clear, a lowest one is.
proof fn lemma_lowest_clear_bit(bm: Seq<u8>, max: int, w: int)
    requires
        0 <= w < max,
        w / 8 < bm.len(),
        !bit_set(bm, w),
    ensures
        exists|k: int| is_first_clear_bit(bm, max, k),
    decreases w,
{
    if forall|c: int| 0 <= c < w ==> #[trigger] bit_set(bm, c) {
        assert(is_first_clear_bit(bm, max, w));
    } else {
        let c = choose|c: int| 0 <= c < w && !#[trigger] bit_set(bm, c);
        assert(c / 8 <= w / 8);
        lemma_lowest_clear_bit(bm, max, c);
    }
}

/// The regions `create_file` and `mkdir` write for a new entry in the
/// root directory lie apart, once the layout of the image is known.
#[verifier::rlimit(80)]
#[verifier::spinoff_prover]
proof fn lemma_root_regions_apart(
    fs: Filesystem,
    n: u32,
    len: int,
    pino: Inode,
    pb: int,
    itb: int,
    bbm: Seq<u8>,
)
    requires
        ({
            let sb = fs.spec_superblock();
            let b = sb.block_size as int;
            let base = gdt_offset(sb) - b;
            let lim = block_limit(sb);
            let nb = blocks_for(len, b);
            &&& b >= 1024
            &&& base >= 0
            &&& base + b >= SUPERBLOCK_OFFSET + SUPERBLOCK_SIZE
            &&& sb.inode_size == 256
            &&& fs.spec_gdt().len() * sb.spec_group_descriptor_size() == 32
            &&& fs.inode_bitmap_offset() == base + 3 * b
            &&& fs.block_bitmap_offset() == base + 2 * b
            &&& 1 <= n <= 32 && n != ROOT_INODE
            &&& fs.inode_slot(n) == base + 4 * b + (n - 1) * 256
            &&& fs.inode_slot(ROOT_INODE) == base + 4 * b + 256
            &&& itb * b >= 8192
            &&& 0 <= pb <= 16
            &&& pb * b == base + 4 * b + itb * b
            &&& fs.spec_resolve(pino, 0) == Ok::<Option<u64>, Ext4Error>(Some(pb as u64))
            &&& le_u16(pino.block@, 6) == 0
            &&& pino.size == sb.block_size
            &&& read_range(fs.image(), base + 2 * b, b) == Ok::<Seq<u8>, Ext4Error>(bbm)
            &&& 0 <= nb <= 32768
            &&& nb * b >= 0
            &&& forall|m: int, start: int|
                1 <= m && #[trigger] is_first_clear_run(bbm, m, lim, start) ==> start * b >= pb * b + b
        }),
    ensures
        fs.entry_regions_apart(n, len, pino),
        fs.inode_bitmap_apart(n, len, pino),
        fs.block_bitmap_apart(n, len, pino),
        fs.mkdir_entry_apart(n, ROOT_INODE, pino),
        fs.mkdir_bitmaps_apart(n, ROOT_INODE, pino),
{
    let sb = fs.spec_superblock();
    let b = sb.block_size as int;
    let lim = block_limit(sb);
    let nb = blocks_for(len, b);
    assert forall|start: int| #[trigger] is_first_clear_run(bbm, nb, lim, start) && nb > 0 implies start * b >= pb * b + b by {}
    assert forall|start: int| #[trigger] is_first_clear_run(bbm, 1, lim, start) implies start * b >= pb * b + b by {}
    assert(fs.spec_resolve(pino, 0) matches Ok(Some(q)) && q * b == pb * b);
    assert(fs.create_regions_apart(n, len, pino));
}

/// Where the regions of a formatted image lie, for any accepted block
/// size: all inside the image.
proof fn lemma_format_bounds(bs: u32, size_blocks: u32, len: int)
    requires
        valid_block_size(bs),
        size_blocks >= metadata_blocks(bs),
        len == size_blocks * bs,
    ensures
        root_dir_block(bs) >= 5,
        root_dir_block(bs) * bs + bs <= len,
        boot_area(bs) + 5 * bs <= len,
{
    lemma_format_sizes(bs, size_blocks, len);
}

/// The root directory's `i_block` is fixed: two of them are the same
/// bytes.
proof fn lemma_root_i_block_unique(x: Seq<u8>, y: Seq<u8>, bs: u32)
    requires
        is_root_i_block(x, bs),
        is_root_i_block(y, bs),
    ensures
        x == y,
{
    let h = ExtentHeader { entries: 1, max: 4, depth: 0, generation: 0 };
    let e = Extent {
        logical_block: 0,
        len: 1,
        physical_block: root_dir_block(bs) as u64,
        uninit: false,
    };
    lemma_extent_header_encoding_unique(h, x, y);
    lemma_extent_encoding_unique(e, x.skip(12), y.skip(12));
    assert forall|k: int| 0 <= k < I_BLOCK_LEN implies x[k] == y[k] by {
        if k < 12 {
            assert(x.take(12)[k] == x[k]);
            assert(y.take(12)[k] == y[k]);
        } else if k < 24 {
            assert(x.skip(12).take(12)[k - 12] == x[k]);
            assert(y.skip(12).take(12)[k - 12] == y[k]);
        }
    }
    assert(x =~= y);
}

/// Formatting is reproducible: two images that are each what `format`
/// produces for one configuration are the same bytes.
#[verifier::rlimit(60)]
#[verifier::spinoff_prover]
pub proof fn lemma_format_reproducible(
    a: Seq<u8>,
    b: Seq<u8>,
    bs: u32,
    size_blocks: u32,
    label: Seq<u8>,
)
    requires
        format_error(bs, size_blocks) is None,
        is_formatted_image(a, bs, size_blocks, label),
        is_formatted_image(b, bs, size_blocks, label),
    ensures
        a == b,
{
    let len = a.len() as int;
    lemma_format_bounds(bs, size_blocks, len);
    // the superblock
    let (sa, ba) = choose|sb: Superblock, x: Seq<u8>|
        {
            &&& is_format_superblock(sb, bs, size_blocks, label)
            &&& x.len() == SUPERBLOCK_SIZE
            &&& #[trigger] sb.encoded_in(x)
            &&& a.subrange(SUPERBLOCK_OFFSET as int, SUPERBLOCK_OFFSET + SUPERBLOCK_SIZE) == x
        };
    let (sb2, bb) = choose|sb: Superblock, x: Seq<u8>|
        {
            &&& is_format_superblock(sb, bs, size_blocks, label)
            &&& x.len() == SUPERBLOCK_SIZE
            &&& #[trigger] sb.encoded_in(x)
            &&& b.subrange(SUPERBLOCK_OFFSET as int, SUPERBLOCK_OFFSET + SUPERBLOCK_SIZE) == x
        };
    assert(sa.encoded_in(bb));
    lemma_superblock_encoding_unique(sa, ba, bb);
    assert(ba.take(SUPERBLOCK_SIZE as int) =~= ba);
    assert(bb.take(SUPERBLOCK_SIZE as int) =~= bb);
    lemma_same_bytes_in(a, b, SUPERBLOCK_OFFSET as int, SUPERBLOCK_SIZE as int);
    // the group descriptor
    let go = gdt_at(bs);
    let ga = a.subrange(go, go + 32);
    let gb = b.subrange(go, go + 32);
    lemma_group_descriptor_encoding_unique(format_group_descriptor(bs, size_blocks), ga, gb, 32);
    assert(ga.take(32) =~= ga);
    assert(gb.take(32) =~= gb);
    lemma_same_bytes_in(a, b, go, 32);
    // the root inode
    let io = root_inode_offset(bs);
    let xa = a.subrange(io, io + INODE_SIZE);
    let xb = b.subrange(io, io + INODE_SIZE);
    let ia = choose|ino: Inode|
        is_format_root_inode(ino, bs) && #[trigger] ino.encoded_in(xa, INODE_SIZE as int);
    let ib = choose|ino: Inode|
        is_format_root_inode(ino, bs) && #[trigger] ino.encoded_in(xb, INODE_SIZE as int);
    lemma_root_i_block_unique(ia.block@, ib.block@, bs);
    assert(ia.encoded_in(xb, INODE_SIZE as int));
    lemma_inode_encoding_unique(ia, xa, xb, INODE_SIZE as int);
    assert(xa.take(INODE_SIZE as int) =~= xa);
    assert(xb.take(INODE_SIZE as int) =~= xb);
    lemma_same_bytes_in(a, b, io, INODE_SIZE as int);
    // the root directory's block
    lemma_same_bytes_in(a, b, root_dir_block(bs) * bs, bs as int);
    // the bitmaps
    let bbo = block_bitmap_at(bs);
    let ibo = inode_bitmap_at(bs);
    lemma_bits_fix_bitmap(a.subrange(bbo, bbo + bs), b.subrange(bbo, bbo + bs));
    lemma_bits_fix_bitmap(a.subrange(ibo, ibo + bs), b.subrange(ibo, ibo + bs));
    lemma_same_bytes_in(a, b, bbo, bs as int);
    lemma_same_bytes_in(a, b, ibo, bs as int);
    assert forall|i: int| 0 <= i < len implies a[i] == b[i] by {
        if !in_format_region(i, bs) {
            assert(a[i] == 0u8);
            assert(b[i] == 0u8);
        }
    }
    assert(a =~= b);
}

/// Formatting tells labels apart: images formatted with labels whose
/// first 16 bytes differ are different images.
pub proof fn lemma_format_labels_differ(
    a: Seq<u8>,
    b: Seq<u8>,
    bs: u32,
    size_blocks: u32,
    label_a: Seq<u8>,
    label_b: Seq<u8>,
)
    requires
        format_error(bs, size_blocks) is None,
        is_formatted_image(a, bs, size_blocks, label_a),
        is_formatted_image(b, bs, size_blocks, label_b),
        label_field(label_a) != label_field(label_b),
    ensures
        a != b,
{
    let len = a.len() as int;
    lemma_format_bounds(bs, size_blocks, len);
    let (sa, ba) = choose|sb: Superblock, x: Seq<u8>|
        {
            &&& is_format_superblock(sb, bs, size_blocks, label_a)
            &&& x.len() == SUPERBLOCK_SIZE
            &&& #[trigger] sb.encoded_in(x)
            &&& a.subrange(SUPERBLOCK_OFFSET as int, SUPERBLOCK_OFFSET + SUPERBLOCK_SIZE) == x
        };
    let (sb2, bb) = choose|sb: Superblock, x: Seq<u8>|
        {
            &&& is_format_superblock(sb, bs, size_blocks, label_b)
            &&& x.len() == SUPERBLOCK_SIZE
            &&& #[trigger] sb.encoded_in(x)
            &&& b.subrange(SUPERBLOCK_OFFSET as int, SUPERBLOCK_OFFSET + SUPERBLOCK_SIZE) == x
        };
    let off = OFF_VOLUME_NAME as int;
    assert(exists|k: int| 0 <= k < 16 && label_field(label_a)[k] != label_field(label_b)[k]) by {
        if forall|k: int| 0 <= k < 16 ==> label_field(label_a)[k] == label_field(label_b)[k] {
            assert(label_field(label_a) =~= label_field(label_b));
        }
    }
    let k = choose|k: int| 0 <= k < 16 && label_field(label_a)[k] != label_field(label_b)[k];
    assert(ba.subrange(off, off + 16)[k] == ba[off + k]);
    assert(bb.subrange(off, off + 16)[k] == bb[off + k]);
    let i = SUPERBLOCK_OFFSET + off + k;
    assert(a[i] == a.subrange(SUPERBLOCK_OFFSET as int, SUPERBLOCK_OFFSET + SUPERBLOCK_SIZE)[off + k]);
    assert(b[i] == b.subrange(SUPERBLOCK_OFFSET as int, SUPERBLOCK_OFFSET + SUPERBLOCK_SIZE)[off + k]);
    assert(a[i] != b[i]);
}

/// A vector of `n` zero bytes.
pub(crate) fn zeroed(n: usize) -> (v: Vec<u8>)
    ensures
        v@ == Seq::new(n as nat, |i: int| 0u8),
{
    let mut v: Vec<u8> = Vec::new();
    let mut k: usize = 0;
    while k < n
        invariant
            k <= n,
            v@ == Seq::new(k as nat, |i: int| 0u8),
        decreases n - k,
    {
        v.push(0);
        k = k + 1;
        assert(v@ =~= Seq::new(k as nat, |i: int| 0u8));
    }
    v
}

/// Copies `bytes` into `img` at `off`.
fn place(img: &mut Vec<u8>, off: usize, bytes: &[u8])
    requires
        off + bytes@.len() <= old(img)@.len(),
    ensures
        final(img)@.len() == old(img)@.len(),
        final(img)@.subrange(off as int, off + bytes@.len()) == bytes@,
        forall|i: int|
            0 <= i < old(img)@.len() && !(off <= i < off + bytes@.len()) ==> final(img)@[i]
                == old(img)@[i],
{
    write_bytes(img.as_mut_slice(), off, bytes);
}

/// The block bitmap of the layout: bits `0 .. used` set.
fn used_prefix_bitmap(len: usize, used: usize) -> (v: Vec<u8>)
    requires
        used <= 8 * len,
    ensures
        v@.len() == len,
        forall|k: int| 0 <= k < 8 * len ==> (#[trigger] bit_set(v@, k) <==> k < used),
{
    let mut v = zeroed(len);
    proof {
        lemma_zero_bitmap_clear(v@);
    }
    let mut b: usize = 0;
    while b < used
        invariant
            b <= used,
            used <= 8 * len,
            v@.len() == len,
            forall|k: int| 0 <= k < 8 * len ==> (#[trigger] bit_set(v@, k) <==> k < b),
        decreases used - b,
    {
        set_bit(v.as_mut_slice(), b);
        b = b + 1;
    }
    v
}

/// Format an image for `config`: the bytes of a fresh ext4 filesystem
/// of `size_blocks` blocks, as [`is_formatted_image`] describes them.
#[verifier::rlimit(100)]
#[verifier::spinoff_prover]
pub fn format(config: &Config) -> (r: Result<Vec<u8>, Ext4Error>)
    ensures
        match r {
            Ok(img) => {
                &&& format_error(config.block_size, config.size_blocks) is None
                &&& is_formatted_image(
                    img@,
                    config.block_size,
                    config.size_blocks,
                    config.volume_label@,
                )
            },
            Err(e) => format_error(config.block_size, config.size_blocks) == Some(e),
        },
{
    let layout = match Layout::from_config(config) {
        Ok(l) => l,
        Err(e) => return Err(e),
    };
    let ghost gbs = config.block_size;
    let ghost gsz = config.size_blocks;
    let bs = layout.block_size;
    assert(layout.inode_table_blocks * bs >= 8192 && layout.inode_table_blocks <= 8)
        by (nonlinear_arith)
        requires
            layout.inode_table_blocks == (8192 + bs - 1) / (bs as int),
            bs == 1024 || bs == 2048 || bs == 4096 || bs == 65536,
    ;
    let total_blocks = config.size_blocks as u64;
    assert(total_blocks * bs <= 0xffff_ffff * 65536) by (nonlinear_arith)
        requires
            total_blocks <= 0xffff_ffff,
            bs <= 65536,
    ;
    let total = total_blocks * bs;
    if total > usize::MAX as u64 {
        return Err(Ext4Error::Io { offset: 0, len: total });
    }
    proof {
        lemma_format_sizes(gbs, gsz, total as int);
    }
    let fdb = layout.first_data_block;
    // byte offsets of the group descriptor table and the two bitmaps
    let boot = fdb * bs;
    let gdt_offset = boot + bs;
    let block_bitmap_offset = boot + 2 * bs;
    let inode_bitmap_offset = boot + 3 * bs;
    assert(boot == boot_area(gbs));
    let mut img = zeroed(total as usize);

    // ── superblock ──
    let mut volume_name = [0u8; 16];
    let label_len = if config.volume_label.len() < 16 {
        config.volume_label.len()
    } else {
        16
    };
    let mut k: usize = 0;
    while k < label_len
        invariant
            k <= label_len,
            label_len <= 16,
            label_len <= config.volume_label@.len(),
            label_len == config.volume_label@.len() || label_len == 16,
            forall|j: int| 0 <= j < k ==> volume_name@[j] == config.volume_label@[j],
            forall|j: int| label_len <= j < 16 ==> volume_name@[j] == 0u8,
        decreases label_len - k,
    {
        volume_name[k] = config.volume_label[k];
        k = k + 1;
    }
    assert(volume_name@ =~= label_field(config.volume_label@));
    let uuid = [0u8; 16];
    assert(uuid@ =~= Seq::new(16, |i: int| 0u8));
    let free_blocks = total_blocks - layout.metadata_blocks;
    let free_inodes = INODES_PER_GROUP - 1;
    let sb = Superblock {
        block_size: config.block_size,
        inodes_count: INODES_PER_GROUP,
        blocks_count: total_blocks,
        free_blocks_count: free_blocks,
        free_inodes_count: free_inodes,
        inode_size: INODE_SIZE,
        rev_level: 1,
        feature_compat: 0,
        feature_incompat: 0,
        feature_ro_compat: 0,
        uuid,
        volume_name,
        desc_size: 0,
        first_data_block: fdb as u32,
        blocks_per_group: config.size_blocks,
        inodes_per_group: INODES_PER_GROUP,
    };
    let mut sb_buf = zeroed(SUPERBLOCK_SIZE);
    match sb.encode_into(sb_buf.as_mut_slice()) {
        Ok(()) => {},
        Err(e) => {
            assert(false);
            return Err(Ext4Error::SuperblockEncode(e));
        },
    }
    let ghost sb_bytes = sb_buf@;
    place(&mut img, SUPERBLOCK_OFFSET as usize, sb_buf.as_slice());

    // ── group descriptor (single entry) in the block after the superblock's ──
    let gd = GroupDescriptor {
        block_bitmap: fdb + 2,
        inode_bitmap: fdb + 3,
        inode_table: layout.inode_table_first_block,
        free_blocks_count: free_blocks as u32,
        free_inodes_count: free_inodes,
        used_dirs_count: 1,
        flags: 0,
        checksum: 0,
    };
    assert(0u32 & 0x80u32 == 0u32) by (bit_vector);
    assert(sb.spec_group_descriptor_size() == 32);
    let mut gd_buf = zeroed(32);
    match gd.encode_into(gd_buf.as_mut_slice(), &sb) {
        Ok(()) => {},
        Err(e) => {
            assert(false);
            return Err(Ext4Error::GroupDescriptorEncode(e));
        },
    }
    assert(gd == format_group_descriptor(gbs, gsz));
    let ghost gd_bytes = gd_buf@;
    place(&mut img, gdt_offset as usize, gd_buf.as_slice());

    // ── root inode: i_block holds a leaf header and one extent ──
    let mut root_block_bytes = [0u8; I_BLOCK_LEN];
    let ghost zero_block = root_block_bytes@;
    assert(forall|i: int| 0 <= i < I_BLOCK_LEN ==> zero_block[i] == 0u8);
    let header = ExtentHeader { entries: 1, max: 4, depth: 0, generation: 0 };
    match header.encode_into(&mut root_block_bytes) {
        Ok(()) => {},
        Err(e) => {
            assert(false);
            return Err(Ext4Error::ExtentEncode(e));
        },
    }
    let extent = Extent {
        logical_block: 0,
        len: 1,
        physical_block: layout.root_dir_block,
        uninit: false,
    };
    let mut ext_buf = [0u8; 12];
    match extent.encode_into(&mut ext_buf) {
        Ok(()) => {},
        Err(e) => {
            assert(false);
            return Err(Ext4Error::ExtentEncode(e));
        },
    }
    let ghost before_ext = root_block_bytes@;
    write_bytes(&mut root_block_bytes, 12, &ext_buf);
    proof {
        assert(root_block_bytes@.subrange(0, 12) =~= before_ext.subrange(0, 12));
        assert(header.encoded_in(root_block_bytes@));
        assert(root_block_bytes@.skip(12).subrange(0, 12) =~= ext_buf@);
        assert(extent.encoded_in(root_block_bytes@.skip(12)));
        assert forall|i: int| 24 <= i < I_BLOCK_LEN implies #[trigger] root_block_bytes@[i]
            == 0u8 by {
            assert(root_block_bytes@[i] == before_ext[i]);
            assert(before_ext[i] == before_ext.skip(12)[i - 12]);
            assert(zero_block.skip(12)[i - 12] == zero_block[i]);
        }
        assert(is_root_i_block(root_block_bytes@, gbs));
    }
    let root_inode = Inode {
        mode: ROOT_DIR_MODE,
        uid: 0,
        gid: 0,
        size: bs,
        atime: 0,
        ctime: 0,
        mtime: 0,
        dtime: 0,
        links_count: 2,
        blocks_lo: config.block_size / 512,
        blocks_hi: 0,
        flags: INODE_FLAG_EXTENTS,
        block: root_block_bytes,
        generation: 0,
        file_acl_lo: 0,
        file_acl_hi: 0,
    };
    let mut inode_buf = zeroed(INODE_SIZE as usize);
    match root_inode.encode_into(inode_buf.as_mut_slice(), &sb) {
        Ok(()) => {},
        Err(e) => {
            assert(false);
            return Err(Ext4Error::InodeEncode(e));
        },
    }
    let ghost inode_bytes = inode_buf@;
    let inode_offset = boot + 4 * bs + ((ROOT_INODE_NUMBER - 1) as u64) * (INODE_SIZE as u64);
    place(&mut img, inode_offset as usize, inode_buf.as_slice());

    // ── root directory block: "." then ".." filling the block ──
    let dot = DirEntry {
        inode: ROOT_INODE_NUMBER,
        rec_len: 12,
        file_type_raw: FT_DIR,
        name: vec![0x2E],
    };
    let dotdot = DirEntry {
        inode: ROOT_INODE_NUMBER,
        rec_len: (config.block_size - 12) as u16,
        file_type_raw: FT_DIR,
        name: vec![0x2E, 0x2E],
    };
    assert(dot.name@ =~= seq![0x2Eu8]);
    assert(dotdot.name@ =~= seq![0x2Eu8, 0x2Eu8]);
    assert(dot@ == root_dot());
    assert(dotdot@ == root_dotdot(gbs));
    let mut first = zeroed(12);
    match dot.encode_into(first.as_mut_slice()) {
        Ok(()) => {},
        Err(e) => {
            assert(false);
            return Err(Ext4Error::DirEntryEncode(e));
        },
    }
    let mut rest = zeroed((bs - 12) as usize);
    match dotdot.encode_into(rest.as_mut_slice()) {
        Ok(()) => {},
        Err(e) => {
            assert(false);
            return Err(Ext4Error::DirEntryEncode(e));
        },
    }
    assert(first@ =~= encoded_dir_entry(root_dot()));
    assert(rest@ =~= encoded_dir_entry(root_dotdot(gbs)));
    let dir_offset = (layout.root_dir_block * bs) as usize;
    place(&mut img, dir_offset, first.as_slice());
    let ghost after_first = img@;
    place(&mut img, dir_offset + 12, rest.as_slice());
    proof {
        assert(img@.subrange(dir_offset as int, dir_offset + bs) =~= first@ + rest@) by {
            assert forall|i: int| 0 <= i < bs implies img@.subrange(
                dir_offset as int,
                dir_offset + bs,
            )[i] == (first@ + rest@)[i] by {
                if i < 12 {
                    assert(img@[dir_offset + i] == after_first[dir_offset + i]);
                    assert(after_first.subrange(dir_offset as int, dir_offset + 12)[i]
                        == first@[i]);
                } else {
                    assert(img@.subrange(dir_offset + 12, dir_offset + bs)[i - 12] == rest@[i
                        - 12]);
                }
            }
        }
    }
    let ghost dir_bytes = first@ + rest@;

    // ── block bitmap: the metadata blocks are in use ──
    let block_bitmap = used_prefix_bitmap(bs as usize, layout.metadata_blocks as usize);
    place(&mut img, block_bitmap_offset as usize, block_bitmap.as_slice());

    // ── inode bitmap: the root inode is in use ──
    let mut inode_bitmap = zeroed(bs as usize);
    proof {
        lemma_zero_bitmap_clear(inode_bitmap@);
    }
    set_bit(inode_bitmap.as_mut_slice(), (ROOT_INODE_NUMBER - 1) as usize);

    place(&mut img, inode_bitmap_offset as usize, inode_bitmap.as_slice());

    proof {
        let im = img@;
        let ino_off = root_inode_offset(gbs);
        let dir_off = root_dir_block(gbs) * gbs;
        assert(ino_off == inode_offset);
        assert(dir_off == dir_offset);
        // superblock
        assert(im.subrange(SUPERBLOCK_OFFSET as int, SUPERBLOCK_OFFSET + SUPERBLOCK_SIZE)
            =~= sb_bytes);
        assert(is_format_superblock(sb, gbs, gsz, config.volume_label@));
        assert(sb.encoded_in(sb_bytes));
        // group descriptor
        assert(im.subrange(gdt_at(gbs), gdt_at(gbs) + 32) =~= gd_bytes);
        // root inode
        assert(im.subrange(ino_off, ino_off + INODE_SIZE) =~= inode_bytes);
        assert(is_format_root_inode(root_inode, gbs));
        assert(root_inode.encoded_in(inode_bytes, INODE_SIZE as int));
        // directory block
        assert(im.subrange(dir_off, dir_off + gbs) =~= dir_bytes);
        // bitmaps
        assert(im.subrange(block_bitmap_at(gbs), block_bitmap_at(gbs) + gbs) =~= block_bitmap@);
        assert(im.subrange(inode_bitmap_at(gbs), inode_bitmap_at(gbs) + gbs) =~= inode_bitmap@);
        assert forall|i: int| 0 <= i < im.len() && !in_format_region(i, gbs) implies #[trigger] im[i]
            == 0u8 by {}
    }
    Ok(img)
}

} // verus!
