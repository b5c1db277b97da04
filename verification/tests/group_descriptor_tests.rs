use justext4::group_descriptor::{
    OFF_BLOCK_BITMAP_HI, OFF_BLOCK_BITMAP_LO, OFF_FLAGS, OFF_FREE_BLOCKS_COUNT_HI,
    OFF_FREE_BLOCKS_COUNT_LO,
};
use justext4::{
    GroupDescriptor, GroupDescriptorDecodeError, Superblock, BG_FLAG_BLOCK_UNINIT, EXT4_MAGIC,
    FEATURE_INCOMPAT_64BIT, SUPERBLOCK_SIZE,
};

fn make_sb(feature_incompat: u32, desc_size: u16) -> Superblock {
    let mut buf = vec![0u8; SUPERBLOCK_SIZE];
    buf[0x18..0x1C].copy_from_slice(&2u32.to_le_bytes());
    buf[0x38..0x3A].copy_from_slice(&EXT4_MAGIC.to_le_bytes());
    buf[0x4C..0x50].copy_from_slice(&1u32.to_le_bytes());
    buf[0x60..0x64].copy_from_slice(&feature_incompat.to_le_bytes());
    buf[0xFE..0x100].copy_from_slice(&desc_size.to_le_bytes());
    Superblock::decode(&buf).unwrap()
}

fn write_u16(buf: &mut [u8], offset: usize, value: u16) {
    buf[offset..offset + 2].copy_from_slice(&value.to_le_bytes());
}

fn write_u32(buf: &mut [u8], offset: usize, value: u32) {
    buf[offset..offset + 4].copy_from_slice(&value.to_le_bytes());
}

#[test]
fn group_descriptor_test_decode_truncated_buffer_returns_input_too_small() {
    let sb = make_sb(0, 0);
    let buf = vec![0u8; 16];
    let err = GroupDescriptor::decode(&buf, &sb).unwrap_err();
    assert_eq!(
        err,
        GroupDescriptorDecodeError::InputTooSmall {
            actual: 16,
            expected: 32,
        }
    );
}

#[test]
fn test_decode_32_byte_entry_block_bitmap_is_lo_only() {
    let sb = make_sb(0, 0);
    let mut buf = vec![0u8; 32];
    write_u32(&mut buf, OFF_BLOCK_BITMAP_LO, 0x1234_5678);
    let gd = GroupDescriptor::decode(&buf, &sb).unwrap();
    assert_eq!(gd.block_bitmap, 0x1234_5678);
}

#[test]
fn test_decode_32_byte_entry_ignores_trailing_bytes_in_oversize_buffer() {
    let sb = make_sb(0, 0);
    let mut buf = vec![0xFFu8; 64];
    for byte in buf.iter_mut().take(32) {
        *byte = 0;
    }
    write_u32(&mut buf, OFF_BLOCK_BITMAP_LO, 0x0000_0001);
    let gd = GroupDescriptor::decode(&buf, &sb).unwrap();
    assert_eq!(gd.block_bitmap, 0x0000_0001);
}

#[test]
fn test_decode_64_byte_entry_block_bitmap_combines_hi_lo() {
    let sb = make_sb(FEATURE_INCOMPAT_64BIT, 64);
    let mut buf = vec![0u8; 64];
    write_u32(&mut buf, OFF_BLOCK_BITMAP_LO, 0x0000_0001);
    write_u32(&mut buf, OFF_BLOCK_BITMAP_HI, 0x0000_0002);
    let gd = GroupDescriptor::decode(&buf, &sb).unwrap();
    assert_eq!(gd.block_bitmap, 0x0000_0002_0000_0001);
}

#[test]
fn test_decode_64_byte_free_blocks_combines_hi_lo() {
    let sb = make_sb(FEATURE_INCOMPAT_64BIT, 64);
    let mut buf = vec![0u8; 64];
    write_u16(&mut buf, OFF_FREE_BLOCKS_COUNT_LO, 0x1234);
    write_u16(&mut buf, OFF_FREE_BLOCKS_COUNT_HI, 0x0005);
    let gd = GroupDescriptor::decode(&buf, &sb).unwrap();
    assert_eq!(gd.free_blocks_count, 0x0005_1234);
}

#[test]
fn test_block_uninit_flag_detected_on_freshly_initialised_group() {
    let sb = make_sb(0, 0);
    let mut buf = vec![0u8; 32];
    write_u16(&mut buf, OFF_FLAGS, BG_FLAG_BLOCK_UNINIT);
    let gd = GroupDescriptor::decode(&buf, &sb).unwrap();
    assert!(gd.is_block_uninit());
    assert!(!gd.is_inode_uninit());
}

#[test]
fn test_decode_zeroed_32_byte_entry_produces_all_zero_descriptor() {
    let sb = make_sb(0, 0);
    let buf = vec![0u8; 32];
    let gd = GroupDescriptor::decode(&buf, &sb).unwrap();
    assert_eq!(gd.block_bitmap, 0);
    assert_eq!(gd.inode_bitmap, 0);
    assert_eq!(gd.inode_table, 0);
    assert_eq!(gd.free_blocks_count, 0);
    assert_eq!(gd.free_inodes_count, 0);
    assert_eq!(gd.used_dirs_count, 0);
    assert_eq!(gd.flags, 0);
    assert_eq!(gd.checksum, 0);
}

// ── further cases ────────────────────────────────────────────────

#[test]
fn test_decode_64bit_desc_size_below_32_returns_entry_size_too_small() {
    let sb = make_sb(FEATURE_INCOMPAT_64BIT, 16);
    let buf = vec![0u8; 64];
    let err = GroupDescriptor::decode(&buf, &sb).unwrap_err();
    assert_eq!(err, GroupDescriptorDecodeError::EntrySizeTooSmall { size: 16 });
}

#[test]
fn test_decode_64bit_entry_truncated_to_32_returns_input_too_small() {
    let sb = make_sb(FEATURE_INCOMPAT_64BIT, 64);
    let buf = vec![0u8; 32];
    let err = GroupDescriptor::decode(&buf, &sb).unwrap_err();
    assert_eq!(
        err,
        GroupDescriptorDecodeError::InputTooSmall {
            actual: 32,
            expected: 64,
        }
    );
}

#[test]
fn test_inode_uninit_flag_detected() {
    let sb = make_sb(0, 0);
    let mut buf = vec![0u8; 32];
    write_u16(&mut buf, OFF_FLAGS, justext4::BG_FLAG_INODE_UNINIT);
    let gd = GroupDescriptor::decode(&buf, &sb).unwrap();
    assert!(gd.is_inode_uninit());
    assert!(!gd.is_block_uninit());
}
