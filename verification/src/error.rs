//! Error type of the filesystem API.

use vstd::prelude::*;
use crate::dir_entry::{DirEntryDecodeError, DirEntryEncodeError};
use crate::extent::{ExtentDecodeError, ExtentEncodeError};
use crate::group_descriptor::{GroupDescriptorDecodeError, GroupDescriptorEncodeError};
use crate::inode::{InodeDecodeError, InodeEncodeError};
use crate::superblock::{SuperblockDecodeError, SuperblockEncodeError};

verus! {

/// Every failure the filesystem API surfaces. Decode and encode errors
/// of the on-disk structures are wrapped so callers can route on the
/// layer.
#[derive(Debug)]
pub enum Ext4Error {
    /// The `len` bytes at `offset` lie outside what the image holds (a
    /// read past its end) or can hold (a write past what memory can
    /// address); each saturates at `u64::MAX`.
    Io { offset: u64, len: u64 },
    /// Superblock decode failed.
    Superblock(SuperblockDecodeError),
    /// Group descriptor decode failed.
    GroupDescriptor(GroupDescriptorDecodeError),
    /// Inode decode failed.
    Inode(InodeDecodeError),
    /// Extent node decode failed.
    Extent(ExtentDecodeError),
    /// Directory entry decode failed.
    DirEntry(DirEntryDecodeError),
    /// Superblock encode failed.
    SuperblockEncode(SuperblockEncodeError),
    /// Group descriptor encode failed.
    GroupDescriptorEncode(GroupDescriptorEncodeError),
    /// Inode encode failed.
    InodeEncode(InodeEncodeError),
    /// Extent header or entry encode failed.
    ExtentEncode(ExtentEncodeError),
    /// Directory entry encode failed.
    DirEntryEncode(DirEntryEncodeError),
    /// Inode number outside `[1, inodes_count]`.
    InodeOutOfRange { inode: u32, max: u32 },
    /// The image's layout, or a requested one, is one the API cannot
    /// work with.
    InvalidLayout { reason: &'static str },
    /// The inode maps its blocks the legacy (non-extent) way.
    NotExtentBased,
    /// The extent tree is deeper than the kernel's cap.
    MaxExtentDepthExceeded { max: u16 },
    /// No live entry of that name in the directory.
    NotFound { name: Vec<u8> },
    /// A path component that has to be a directory is not one.
    NotADirectory { inode: u32 },
    /// The directory already has a live entry of that name.
    AlreadyExists { name: Vec<u8> },
    /// The bitmap has no free inode, or no free run of blocks.
    NoSpace { what: &'static str },
    /// The request needs something this version does not do.
    UnsupportedV0 { detail: &'static str },
}

} // verus!
