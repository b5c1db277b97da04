use justext4::inode::{
    OFF_BLOCK, OFF_BLOCKS_LO, OFF_CTIME, OFF_DTIME, OFF_FLAGS, OFF_GID_HI, OFF_GID_LO,
    OFF_LINKS_COUNT, OFF_MODE, OFF_MTIME, OFF_SIZE_HI, OFF_SIZE_LO, OFF_UID_HI, OFF_UID_LO,
    OFF_ATIME,
};
use justext4::{
    Inode, InodeDecodeError, InodeFileType, Superblock, EXT4_MAGIC, INODE_FLAG_EXTENTS,
    INODE_FLAG_INLINE_DATA, I_BLOCK_LEN, SUPERBLOCK_SIZE,
};

fn make_sb_with_inode_size(inode_size: u16) -> Superblock {
    let mut buf = vec![0u8; SUPERBLOCK_SIZE];
    buf[0x18..0x1C].copy_from_slice(&2u32.to_le_bytes());
    buf[0x38..0x3A].copy_from_slice(&EXT4_MAGIC.to_le_bytes());
    buf[0x4C..0x50].copy_from_slice(&1u32.to_le_bytes());
    buf[0x58..0x5A].copy_from_slice(&inode_size.to_le_bytes());
    Superblock::decode(&buf).unwrap()
}

fn write_u16(buf: &mut [u8], offset: usize, value: u16) {
    buf[offset..offset + 2].copy_from_slice(&value.to_le_bytes());
}

fn write_u32(buf: &mut [u8], offset: usize, value: u32) {
    buf[offset..offset + 4].copy_from_slice(&value.to_le_bytes());
}

fn empty_128() -> Vec<u8> {
    vec![0u8; 128]
}

#[test]
fn inode_test_decode_truncated_buffer_returns_input_too_small() {
    let sb = make_sb_with_inode_size(256);
    let buf = vec![0u8; 64];
    let err = Inode::decode(&buf, &sb).unwrap_err();
    assert_eq!(
        err,
        InodeDecodeError::InputTooSmall {
            actual: 64,
            expected: 256,
        }
    );
}

#[test]
fn test_decode_with_subspec_inode_size_returns_superblock_error() {
    let sb = make_sb_with_inode_size(64);
    let buf = vec![0u8; 256];
    let err = Inode::decode(&buf, &sb).unwrap_err();
    assert_eq!(err, InodeDecodeError::SuperblockInodeSizeTooSmall { size: 64 });
}

#[test]
fn test_decode_size_combines_hi_lo_into_u64() {
    let sb = make_sb_with_inode_size(128);
    let mut buf = empty_128();
    write_u32(&mut buf, OFF_SIZE_LO, 0x0000_0001);
    write_u32(&mut buf, OFF_SIZE_HI, 0x0000_0002);
    let inode = Inode::decode(&buf, &sb).unwrap();
    assert_eq!(inode.size, 0x0000_0002_0000_0001);
}

#[test]
fn test_decode_uid_combines_lo_with_osd2_high_word() {
    let sb = make_sb_with_inode_size(128);
    let mut buf = empty_128();
    write_u16(&mut buf, OFF_UID_LO, 0xABCD);
    write_u16(&mut buf, OFF_UID_HI, 0x0001);
    let inode = Inode::decode(&buf, &sb).unwrap();
    assert_eq!(inode.uid, 0x0001_ABCD);
}

#[test]
fn test_decode_gid_combines_lo_with_osd2_high_word() {
    let sb = make_sb_with_inode_size(128);
    let mut buf = empty_128();
    write_u16(&mut buf, OFF_GID_LO, 0x1234);
    write_u16(&mut buf, OFF_GID_HI, 0x0005);
    let inode = Inode::decode(&buf, &sb).unwrap();
    assert_eq!(inode.gid, 0x0005_1234);
}

#[test]
fn test_file_type_directory_from_mode_0o40755() {
    let sb = make_sb_with_inode_size(128);
    let mut buf = empty_128();
    write_u16(&mut buf, OFF_MODE, 0o040755);
    let inode = Inode::decode(&buf, &sb).unwrap();
    assert_eq!(inode.file_type(), InodeFileType::Directory);
    assert!(inode.is_directory());
    assert!(!inode.is_regular());
}

#[test]
fn test_file_type_regular_from_mode_0o100644() {
    let sb = make_sb_with_inode_size(128);
    let mut buf = empty_128();
    write_u16(&mut buf, OFF_MODE, 0o100644);
    let inode = Inode::decode(&buf, &sb).unwrap();
    assert_eq!(inode.file_type(), InodeFileType::Regular);
    assert!(inode.is_regular());
}

#[test]
fn test_file_type_symlink_from_mode_0o120777() {
    let sb = make_sb_with_inode_size(128);
    let mut buf = empty_128();
    write_u16(&mut buf, OFF_MODE, 0o120777);
    let inode = Inode::decode(&buf, &sb).unwrap();
    assert_eq!(inode.file_type(), InodeFileType::Symlink);
    assert!(inode.is_symlink());
}

#[test]
fn test_file_type_unknown_bits_returns_unknown_variant() {
    let sb = make_sb_with_inode_size(128);
    let mut buf = empty_128();
    write_u16(&mut buf, OFF_MODE, 0xE000);
    let inode = Inode::decode(&buf, &sb).unwrap();
    assert_eq!(inode.file_type(), InodeFileType::Unknown(0xE000));
}

#[test]
fn test_uses_extents_set_when_flag_bit_present() {
    let sb = make_sb_with_inode_size(128);
    let mut buf = empty_128();
    write_u32(&mut buf, OFF_FLAGS, INODE_FLAG_EXTENTS);
    let inode = Inode::decode(&buf, &sb).unwrap();
    assert!(inode.uses_extents());
    assert!(!inode.has_inline_data());
}

#[test]
fn test_has_inline_data_set_when_flag_bit_present() {
    let sb = make_sb_with_inode_size(128);
    let mut buf = empty_128();
    write_u32(&mut buf, OFF_FLAGS, INODE_FLAG_INLINE_DATA);
    let inode = Inode::decode(&buf, &sb).unwrap();
    assert!(inode.has_inline_data());
    assert!(!inode.uses_extents());
}

#[test]
fn test_block_field_bytes_round_trip_verbatim() {
    let sb = make_sb_with_inode_size(128);
    let mut buf = empty_128();
    let pattern: [u8; I_BLOCK_LEN] = std::array::from_fn(|i| i as u8);
    buf[OFF_BLOCK..OFF_BLOCK + I_BLOCK_LEN].copy_from_slice(&pattern);
    let inode = Inode::decode(&buf, &sb).unwrap();
    assert_eq!(inode.block, pattern);
}

#[test]
fn test_dtime_zero_for_live_inode() {
    let sb = make_sb_with_inode_size(128);
    let buf = empty_128();
    let inode = Inode::decode(&buf, &sb).unwrap();
    assert_eq!(inode.dtime, 0);
}

#[test]
fn test_dtime_nonzero_for_deleted_inode() {
    let sb = make_sb_with_inode_size(128);
    let mut buf = empty_128();
    write_u32(&mut buf, OFF_DTIME, 0x6000_0000);
    let inode = Inode::decode(&buf, &sb).unwrap();
    assert_eq!(inode.dtime, 0x6000_0000);
}

#[test]
fn test_decode_realistic_regular_file_inode_round_trips() {
    let sb = make_sb_with_inode_size(256);
    let mut buf = vec![0u8; 256];
    write_u16(&mut buf, OFF_MODE, 0o100644);
    write_u16(&mut buf, OFF_UID_LO, 1000);
    write_u16(&mut buf, OFF_GID_LO, 1000);
    write_u32(&mut buf, OFF_SIZE_LO, 4096);
    write_u32(&mut buf, OFF_ATIME, 0x6500_0000);
    write_u32(&mut buf, OFF_CTIME, 0x6500_0001);
    write_u32(&mut buf, OFF_MTIME, 0x6500_0002);
    write_u16(&mut buf, OFF_LINKS_COUNT, 1);
    write_u32(&mut buf, OFF_BLOCKS_LO, 8);
    write_u32(&mut buf, OFF_FLAGS, INODE_FLAG_EXTENTS);

    let inode = Inode::decode(&buf, &sb).unwrap();
    assert_eq!(inode.mode, 0o100644);
    assert_eq!(inode.file_type(), InodeFileType::Regular);
    assert_eq!(inode.uid, 1000);
    assert_eq!(inode.gid, 1000);
    assert_eq!(inode.size, 4096);
    assert_eq!(inode.atime, 0x6500_0000);
    assert_eq!(inode.ctime, 0x6500_0001);
    assert_eq!(inode.mtime, 0x6500_0002);
    assert_eq!(inode.dtime, 0);
    assert_eq!(inode.links_count, 1);
    assert_eq!(inode.blocks_lo, 8);
    assert!(inode.uses_extents());
    assert!(!inode.has_inline_data());
}

// ── further cases ────────────────────────────────────────────────

#[test]
fn test_file_type_remaining_kinds() {
    let sb = make_sb_with_inode_size(128);
    let cases = [
        (0x1000u16, InodeFileType::Fifo),
        (0x2000, InodeFileType::CharacterDevice),
        (0x6000, InodeFileType::BlockDevice),
        (0xC000, InodeFileType::Socket),
        (0x0000, InodeFileType::Unknown(0)),
    ];
    for (mode, expected) in cases {
        let mut buf = empty_128();
        write_u16(&mut buf, OFF_MODE, mode | 0o644);
        let inode = Inode::decode(&buf, &sb).unwrap();
        assert_eq!(inode.file_type(), expected);
        assert!(!inode.is_directory());
        assert!(!inode.is_regular());
        assert!(!inode.is_symlink());
    }
}
