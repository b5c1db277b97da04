//! On-disk format types for ext4 (superblock, group descriptor, inode,
//! extent tree, directory entries, bitmaps), each decoded from and
//! encoded to bytes with a contract; a formatter for fresh images; and a
//! read and write API over an in-memory ext4 image.

pub mod bitmap;
pub mod cli;
pub mod dir_entry;
pub mod error;
pub mod extent;
pub mod filesystem;
pub mod group_descriptor;
pub mod inode;
pub mod le;
pub mod mkfs;
pub mod superblock;
pub mod text;

pub use dir_entry::{
    decode_dir_block, DirEntry, DirEntryDecodeError, DirEntryEncodeError, DirEntryFileType,
    DIR_ENTRY_ALIGNMENT, DIR_ENTRY_HEADER_SIZE, DIR_ENTRY_NAME_MAX,
};
pub use cli::{print_usage, CliError};
pub use error::Ext4Error;
pub use mkfs::Config;
pub use extent::{
    decode_extent_node, Extent, ExtentDecodeError, ExtentEncodeError, ExtentHeader, ExtentIndex,
    ExtentNode,
    EXTENT_ENTRY_SIZE, EXTENT_HEADER_MAGIC, EXTENT_HEADER_SIZE,
};
pub use filesystem::{Filesystem, MAX_EXTENT_DEPTH, ROOT_INODE};
pub use group_descriptor::{
    GroupDescriptor, GroupDescriptorDecodeError, GroupDescriptorEncodeError, BG_FLAG_BLOCK_UNINIT, BG_FLAG_INODE_UNINIT,
    BG_FLAG_INODE_ZEROED,
};
pub use inode::{
    Inode, InodeDecodeError, InodeEncodeError, InodeFileType, INODE_FLAG_EXTENTS, INODE_FLAG_HUGE_FILE,
    INODE_FLAG_INLINE_DATA, I_BLOCK_LEN, MIN_INODE_SIZE,
};
pub use superblock::{
    Superblock, SuperblockDecodeError, SuperblockEncodeError, EXT4_MAGIC, FEATURE_INCOMPAT_64BIT, GDT_ENTRY_SIZE_32,
    SUPERBLOCK_OFFSET, SUPERBLOCK_SIZE,
};
