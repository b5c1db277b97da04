use justext4::superblock::{
    OFF_BLOCKS_COUNT_HI, OFF_BLOCKS_COUNT_LO, OFF_DESC_SIZE, OFF_FEATURE_INCOMPAT, OFF_INODE_SIZE,
    OFF_LOG_BLOCK_SIZE, OFF_MAGIC, OFF_REV_LEVEL, OFF_UUID, OFF_VOLUME_NAME,
};
use justext4::{Superblock, SuperblockDecodeError, EXT4_MAGIC, FEATURE_INCOMPAT_64BIT, SUPERBLOCK_SIZE};

fn buf_with(magic: u16, log_block_size: u32, rev_level: u32, feature_incompat: u32) -> Vec<u8> {
    let mut buf = vec![0u8; SUPERBLOCK_SIZE];
    write_u32(&mut buf, OFF_LOG_BLOCK_SIZE, log_block_size);
    buf[OFF_MAGIC..OFF_MAGIC + 2].copy_from_slice(&magic.to_le_bytes());
    write_u32(&mut buf, OFF_REV_LEVEL, rev_level);
    write_u32(&mut buf, OFF_FEATURE_INCOMPAT, feature_incompat);
    buf
}

fn write_u32(buf: &mut [u8], offset: usize, value: u32) {
    buf[offset..offset + 4].copy_from_slice(&value.to_le_bytes());
}

#[test]
fn test_decode_input_smaller_than_superblock_returns_input_too_small() {
    let short = vec![0u8; 512];
    let err = Superblock::decode(&short).unwrap_err();
    assert_eq!(err, SuperblockDecodeError::InputTooSmall { actual: 512 });
}

#[test]
fn test_decode_non_ext4_magic_returns_bad_magic() {
    let buf = buf_with(0xDEAD, 2, 1, 0);
    let err = Superblock::decode(&buf).unwrap_err();
    assert_eq!(err, SuperblockDecodeError::BadMagic { found: 0xDEAD });
}

#[test]
fn test_decode_invalid_log_block_size_returns_invalid_block_size() {
    let buf = buf_with(EXT4_MAGIC, 30, 1, 0);
    let err = Superblock::decode(&buf).unwrap_err();
    assert_eq!(err, SuperblockDecodeError::InvalidBlockSize { log_block_size: 30 });
}

#[test]
fn test_decode_log_block_size_2_yields_4kib_block_size() {
    let buf = buf_with(EXT4_MAGIC, 2, 1, 0);
    let sb = Superblock::decode(&buf).unwrap();
    assert_eq!(sb.block_size, 4096);
}

#[test]
fn test_decode_log_block_size_0_yields_1kib_block_size() {
    let buf = buf_with(EXT4_MAGIC, 0, 1, 0);
    let sb = Superblock::decode(&buf).unwrap();
    assert_eq!(sb.block_size, 1024);
}

#[test]
fn test_decode_blocks_count_combines_hi_when_64bit_feature_set() {
    let mut buf = buf_with(EXT4_MAGIC, 2, 1, FEATURE_INCOMPAT_64BIT);
    write_u32(&mut buf, OFF_BLOCKS_COUNT_LO, 0x0000_0001);
    write_u32(&mut buf, OFF_BLOCKS_COUNT_HI, 0x0000_0002);
    let sb = Superblock::decode(&buf).unwrap();
    assert_eq!(sb.blocks_count, 0x0000_0002_0000_0001);
}

#[test]
fn test_decode_blocks_count_ignores_hi_when_64bit_feature_clear() {
    let mut buf = buf_with(EXT4_MAGIC, 2, 1, 0);
    write_u32(&mut buf, OFF_BLOCKS_COUNT_LO, 0x0000_0042);
    write_u32(&mut buf, OFF_BLOCKS_COUNT_HI, 0xFFFF_FFFF);
    let sb = Superblock::decode(&buf).unwrap();
    assert_eq!(sb.blocks_count, 0x0000_0042);
}

#[test]
fn test_decode_rev_0_returns_default_128_byte_inode_size() {
    let mut buf = buf_with(EXT4_MAGIC, 2, 0, 0);
    buf[OFF_INODE_SIZE..OFF_INODE_SIZE + 2].copy_from_slice(&512u16.to_le_bytes());
    let sb = Superblock::decode(&buf).unwrap();
    assert_eq!(sb.inode_size, 128);
}

#[test]
fn test_decode_rev_1_with_zero_inode_size_field_returns_128() {
    let buf = buf_with(EXT4_MAGIC, 2, 1, 0);
    let sb = Superblock::decode(&buf).unwrap();
    assert_eq!(sb.inode_size, 128);
}

#[test]
fn test_decode_rev_1_with_inode_size_256_round_trips() {
    let mut buf = buf_with(EXT4_MAGIC, 2, 1, 0);
    buf[OFF_INODE_SIZE..OFF_INODE_SIZE + 2].copy_from_slice(&256u16.to_le_bytes());
    let sb = Superblock::decode(&buf).unwrap();
    assert_eq!(sb.inode_size, 256);
}

#[test]
fn test_decode_uuid_is_byte_for_byte_verbatim() {
    let mut buf = buf_with(EXT4_MAGIC, 2, 1, 0);
    let uuid_bytes = [
        0x01, 0x23, 0x45, 0x67, 0x89, 0xAB, 0xCD, 0xEF, 0xFE, 0xDC, 0xBA, 0x98, 0x76, 0x54, 0x32,
        0x10,
    ];
    buf[OFF_UUID..OFF_UUID + 16].copy_from_slice(&uuid_bytes);
    let sb = Superblock::decode(&buf).unwrap();
    assert_eq!(sb.uuid, uuid_bytes);
}

#[test]
fn test_volume_label_strips_trailing_nul_padding() {
    let mut buf = buf_with(EXT4_MAGIC, 2, 1, 0);
    let label = b"rootfs";
    buf[OFF_VOLUME_NAME..OFF_VOLUME_NAME + label.len()].copy_from_slice(label);
    let sb = Superblock::decode(&buf).unwrap();
    assert_eq!(sb.volume_label(), "rootfs");
}

#[test]
fn test_volume_label_empty_field_returns_empty_string() {
    let buf = buf_with(EXT4_MAGIC, 2, 1, 0);
    let sb = Superblock::decode(&buf).unwrap();
    assert_eq!(sb.volume_label(), "");
}

#[test]
fn test_is_64bit_false_when_feature_clear() {
    let buf = buf_with(EXT4_MAGIC, 2, 1, 0);
    let sb = Superblock::decode(&buf).unwrap();
    assert!(!sb.is_64bit());
}

#[test]
fn test_is_64bit_true_when_feature_set() {
    let buf = buf_with(EXT4_MAGIC, 2, 1, FEATURE_INCOMPAT_64BIT);
    let sb = Superblock::decode(&buf).unwrap();
    assert!(sb.is_64bit());
}

#[test]
fn test_group_descriptor_size_returns_32_on_non_64bit_regardless_of_field() {
    let mut buf = buf_with(EXT4_MAGIC, 2, 1, 0);
    buf[OFF_DESC_SIZE..OFF_DESC_SIZE + 2].copy_from_slice(&64u16.to_le_bytes());
    let sb = Superblock::decode(&buf).unwrap();
    assert_eq!(sb.group_descriptor_size(), 32);
}

#[test]
fn test_group_descriptor_size_returns_raw_field_on_64bit() {
    let mut buf = buf_with(EXT4_MAGIC, 2, 1, FEATURE_INCOMPAT_64BIT);
    buf[OFF_DESC_SIZE..OFF_DESC_SIZE + 2].copy_from_slice(&64u16.to_le_bytes());
    let sb = Superblock::decode(&buf).unwrap();
    assert_eq!(sb.group_descriptor_size(), 64);
}

// ── further cases ────────────────────────────────────────────────

#[test]
fn test_decode_log_block_size_1_and_6_yield_2kib_and_64kib() {
    let sb = Superblock::decode(&buf_with(EXT4_MAGIC, 1, 1, 0)).unwrap();
    assert_eq!(sb.block_size, 2048);
    let sb = Superblock::decode(&buf_with(EXT4_MAGIC, 6, 1, 0)).unwrap();
    assert_eq!(sb.block_size, 65536);
    let err = Superblock::decode(&buf_with(EXT4_MAGIC, 3, 1, 0)).unwrap_err();
    assert_eq!(err, SuperblockDecodeError::InvalidBlockSize { log_block_size: 3 });
}

#[test]
fn test_decode_reads_group_layout_fields() {
    let mut buf = buf_with(EXT4_MAGIC, 0, 1, 0);
    write_u32(&mut buf, 0x14, 1);
    write_u32(&mut buf, 0x20, 8192);
    write_u32(&mut buf, 0x28, 2048);
    write_u32(&mut buf, OFF_BLOCKS_COUNT_LO, 8193 * 2);
    let sb = Superblock::decode(&buf).unwrap();
    assert_eq!(sb.first_data_block, 1);
    assert_eq!(sb.blocks_per_group, 8192);
    assert_eq!(sb.inodes_per_group, 2048);
    // 16386 blocks, first data block 1 → 16385 data blocks → 3 groups.
    assert_eq!(sb.group_count(), 3);
}

#[test]
fn test_decode_superblock_larger_buffer_is_accepted() {
    let mut buf = buf_with(EXT4_MAGIC, 2, 1, 0);
    buf.extend_from_slice(&[0xFFu8; 100]);
    let sb = Superblock::decode(&buf).unwrap();
    assert_eq!(sb.block_size, 4096);
}

#[test]
fn test_volume_label_full_field_without_nul_and_invalid_utf8() {
    let mut buf = buf_with(EXT4_MAGIC, 2, 1, 0);
    buf[OFF_VOLUME_NAME..OFF_VOLUME_NAME + 16].copy_from_slice(b"0123456789abcdef");
    let sb = Superblock::decode(&buf).unwrap();
    assert_eq!(sb.volume_label(), "0123456789abcdef");

    let mut buf = buf_with(EXT4_MAGIC, 2, 1, 0);
    buf[OFF_VOLUME_NAME..OFF_VOLUME_NAME + 3].copy_from_slice(&[b'a', 0xFF, b'b']);
    let sb = Superblock::decode(&buf).unwrap();
    assert_eq!(sb.volume_label(), "");
}
