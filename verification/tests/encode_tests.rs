use justext4::{
    Extent, ExtentEncodeError, ExtentHeader, GroupDescriptor, GroupDescriptorEncodeError, Inode,
    InodeEncodeError, Superblock, SuperblockEncodeError, EXT4_MAGIC, EXTENT_HEADER_MAGIC,
    FEATURE_INCOMPAT_64BIT, INODE_FLAG_EXTENTS, SUPERBLOCK_SIZE,
};

fn sample_superblock() -> Superblock {
    let mut volume_name = [0u8; 16];
    volume_name[..5].copy_from_slice(b"label");
    let mut uuid = [0u8; 16];
    for (i, b) in uuid.iter_mut().enumerate() {
        *b = i as u8 + 1;
    }
    Superblock {
        block_size: 4096,
        inodes_count: 64,
        blocks_count: 1000,
        free_blocks_count: 900,
        free_inodes_count: 50,
        inode_size: 256,
        rev_level: 1,
        feature_compat: 0x38,
        feature_incompat: 0x2,
        feature_ro_compat: 0x1,
        uuid,
        volume_name,
        desc_size: 0,
        first_data_block: 0,
        blocks_per_group: 32768,
        inodes_per_group: 64,
    }
}

fn sb_with_inode_size(inode_size: u16) -> Superblock {
    Superblock {
        inode_size,
        ..sample_superblock()
    }
}

#[test]
fn superblock_encode_then_decode_round_trips() {
    let sb = sample_superblock();
    let mut buf = vec![0xAAu8; SUPERBLOCK_SIZE + 8];
    sb.encode_into(&mut buf).unwrap();
    assert_eq!(&buf[SUPERBLOCK_SIZE..], &[0xAA; 8]);
    assert_eq!(u16::from_le_bytes([buf[0x38], buf[0x39]]), EXT4_MAGIC);
    assert_eq!(u32::from_le_bytes([buf[0x18], buf[0x19], buf[0x1A], buf[0x1B]]), 2);
    // bytes outside the modelled fields are zeroed
    assert_eq!(buf[0x3A], 0);
    assert_eq!(buf[0x200], 0);
    assert_eq!(Superblock::decode(&buf).unwrap(), sb);
}

#[test]
fn superblock_encode_64bit_counts_round_trip() {
    let sb = Superblock {
        feature_incompat: FEATURE_INCOMPAT_64BIT,
        blocks_count: 0x1_2345_6789,
        free_blocks_count: 0x2_0000_0001,
        desc_size: 64,
        ..sample_superblock()
    };
    let mut buf = vec![0u8; SUPERBLOCK_SIZE];
    sb.encode_into(&mut buf).unwrap();
    assert_eq!(u32::from_le_bytes([buf[0x150], buf[0x151], buf[0x152], buf[0x153]]), 1);
    assert_eq!(Superblock::decode(&buf).unwrap(), sb);
}

#[test]
fn superblock_encode_rejects_bad_block_size() {
    let sb = Superblock {
        block_size: 3000,
        ..sample_superblock()
    };
    let mut buf = vec![7u8; SUPERBLOCK_SIZE];
    let err = sb.encode_into(&mut buf).unwrap_err();
    assert_eq!(err, SuperblockEncodeError::InvalidBlockSize { block_size: 3000 });
    assert_eq!(buf, vec![7u8; SUPERBLOCK_SIZE]);
}

#[test]
fn superblock_encode_rejects_short_output() {
    let mut buf = vec![0u8; 100];
    let err = sample_superblock().encode_into(&mut buf).unwrap_err();
    assert_eq!(err, SuperblockEncodeError::OutputTooSmall { actual: 100 });
}

fn sample_gd() -> GroupDescriptor {
    GroupDescriptor {
        block_bitmap: 2,
        inode_bitmap: 3,
        inode_table: 4,
        free_blocks_count: 100,
        free_inodes_count: 20,
        used_dirs_count: 3,
        flags: 0x4,
        checksum: 0xBEEF,
    }
}

#[test]
fn group_descriptor_encode_then_decode_round_trips() {
    let sb = sample_superblock();
    let gd = sample_gd();
    let mut buf = vec![0xFFu8; 40];
    gd.encode_into(&mut buf, &sb).unwrap();
    assert_eq!(&buf[32..], &[0xFF; 8]);
    assert_eq!(buf[0x14], 0);
    assert_eq!(GroupDescriptor::decode(&buf, &sb).unwrap(), gd);
}

#[test]
fn group_descriptor_encode_64_byte_entry_writes_hi_halves() {
    let sb = Superblock {
        feature_incompat: FEATURE_INCOMPAT_64BIT,
        desc_size: 64,
        ..sample_superblock()
    };
    let gd = GroupDescriptor {
        inode_table: 0x5_0000_0004,
        free_blocks_count: 0x3_0002,
        ..sample_gd()
    };
    let mut buf = vec![0u8; 64];
    gd.encode_into(&mut buf, &sb).unwrap();
    assert_eq!(u32::from_le_bytes([buf[0x28], buf[0x29], buf[0x2A], buf[0x2B]]), 5);
    assert_eq!(GroupDescriptor::decode(&buf, &sb).unwrap(), gd);
}

#[test]
fn group_descriptor_encode_errors() {
    let sb = Superblock {
        feature_incompat: FEATURE_INCOMPAT_64BIT,
        desc_size: 16,
        ..sample_superblock()
    };
    let mut buf = vec![0u8; 64];
    assert_eq!(
        sample_gd().encode_into(&mut buf, &sb).unwrap_err(),
        GroupDescriptorEncodeError::EntrySizeTooSmall { size: 16 }
    );
    let mut short = vec![0u8; 31];
    assert_eq!(
        sample_gd().encode_into(&mut short, &sample_superblock()).unwrap_err(),
        GroupDescriptorEncodeError::OutputTooSmall { actual: 31, expected: 32 }
    );
}

fn sample_inode() -> Inode {
    let mut block = [0u8; 60];
    block[0] = 0x0A;
    block[1] = 0xF3;
    block[59] = 9;
    Inode {
        mode: 0o100644,
        uid: 0x1_0005,
        gid: 0x2_0007,
        size: 0x1_0000_0010,
        atime: 1,
        ctime: 2,
        mtime: 3,
        dtime: 0,
        links_count: 1,
        blocks_lo: 8,
        blocks_hi: 1,
        flags: INODE_FLAG_EXTENTS,
        block,
        generation: 77,
        file_acl_lo: 5,
        file_acl_hi: 6,
    }
}

#[test]
fn inode_encode_then_decode_round_trips() {
    let sb = sb_with_inode_size(256);
    let ino = sample_inode();
    let mut buf = vec![0x55u8; 260];
    ino.encode_into(&mut buf, &sb).unwrap();
    assert_eq!(&buf[256..], &[0x55; 4]);
    assert_eq!(buf[0x80], 0);
    assert_eq!(u16::from_le_bytes([buf[0x78], buf[0x79]]), 1);
    assert_eq!(Inode::decode(&buf, &sb).unwrap(), ino);
}

#[test]
fn inode_encode_errors() {
    let mut buf = vec![0u8; 256];
    assert_eq!(
        sample_inode().encode_into(&mut buf, &sb_with_inode_size(64)).unwrap_err(),
        InodeEncodeError::SuperblockInodeSizeTooSmall { size: 64 }
    );
    let mut short = vec![0u8; 200];
    assert_eq!(
        sample_inode().encode_into(&mut short, &sb_with_inode_size(256)).unwrap_err(),
        InodeEncodeError::OutputTooSmall { actual: 200, expected: 256 }
    );
}

#[test]
fn extent_header_encode_then_decode_round_trips() {
    let h = ExtentHeader {
        entries: 1,
        max: 4,
        depth: 0,
        generation: 9,
    };
    let mut buf = vec![0xEEu8; 14];
    h.encode_into(&mut buf).unwrap();
    assert_eq!(u16::from_le_bytes([buf[0], buf[1]]), EXTENT_HEADER_MAGIC);
    assert_eq!(&buf[12..], &[0xEE, 0xEE]);
    assert_eq!(ExtentHeader::decode(&buf).unwrap(), h);
    let mut short = vec![0u8; 11];
    assert_eq!(
        h.encode_into(&mut short).unwrap_err(),
        ExtentEncodeError::OutputTooSmall { actual: 11, expected: 12 }
    );
}

#[test]
fn extent_encode_then_decode_round_trips() {
    for e in [
        Extent {
            logical_block: 7,
            len: 5,
            physical_block: 0x1234_5678_9ABC,
            uninit: false,
        },
        Extent {
            logical_block: 0,
            len: 32768,
            physical_block: 100,
            uninit: false,
        },
        Extent {
            logical_block: 3,
            len: 12,
            physical_block: 9,
            uninit: true,
        },
    ] {
        let mut buf = vec![0u8; 12];
        e.encode_into(&mut buf).unwrap();
        assert_eq!(Extent::decode(&buf).unwrap(), e);
    }
}

#[test]
fn extent_encode_uninit_adds_offset_to_raw_length() {
    let e = Extent {
        logical_block: 0,
        len: 2,
        physical_block: 1,
        uninit: true,
    };
    let mut buf = vec![0u8; 12];
    e.encode_into(&mut buf).unwrap();
    assert_eq!(u16::from_le_bytes([buf[4], buf[5]]), 32770);
}

#[test]
fn extent_encode_errors() {
    let mut buf = vec![0u8; 12];
    let too_long = Extent {
        logical_block: 0,
        len: 32769,
        physical_block: 1,
        uninit: false,
    };
    assert_eq!(
        too_long.encode_into(&mut buf).unwrap_err(),
        ExtentEncodeError::LenOutOfRange { len: 32769, uninit: false }
    );
    let empty_uninit = Extent {
        logical_block: 0,
        len: 0,
        physical_block: 1,
        uninit: true,
    };
    assert_eq!(
        empty_uninit.encode_into(&mut buf).unwrap_err(),
        ExtentEncodeError::LenOutOfRange { len: 0, uninit: true }
    );
    let far = Extent {
        logical_block: 0,
        len: 1,
        physical_block: 1 << 48,
        uninit: false,
    };
    assert_eq!(
        far.encode_into(&mut buf).unwrap_err(),
        ExtentEncodeError::PhysicalBlockOutOfRange { physical_block: 1 << 48 }
    );
    let ok = Extent {
        logical_block: 0,
        len: 1,
        physical_block: 1,
        uninit: false,
    };
    let mut short = vec![0u8; 8];
    assert_eq!(
        ok.encode_into(&mut short).unwrap_err(),
        ExtentEncodeError::OutputTooSmall { actual: 8, expected: 12 }
    );
}

#[test]
fn encodings_do_not_depend_on_what_the_buffer_held() {
    let sb = sample_superblock();
    let mut a = vec![0x00u8; SUPERBLOCK_SIZE];
    let mut b = vec![0xA5u8; SUPERBLOCK_SIZE];
    sb.encode_into(&mut a).unwrap();
    sb.encode_into(&mut b).unwrap();
    assert_eq!(a, b);

    let gd = sample_gd();
    let mut a = vec![0x00u8; 32];
    let mut b = vec![0x5Au8; 32];
    gd.encode_into(&mut a, &sb).unwrap();
    gd.encode_into(&mut b, &sb).unwrap();
    assert_eq!(a, b);

    let isb = sb_with_inode_size(256);
    let ino = sample_inode();
    let mut a = vec![0x00u8; 256];
    let mut b = vec![0xFFu8; 256];
    ino.encode_into(&mut a, &isb).unwrap();
    ino.encode_into(&mut b, &isb).unwrap();
    assert_eq!(a, b);

    let h = ExtentHeader {
        entries: 2,
        max: 4,
        depth: 1,
        generation: 3,
    };
    let mut a = vec![0x00u8; 12];
    let mut b = vec![0x77u8; 12];
    h.encode_into(&mut a).unwrap();
    h.encode_into(&mut b).unwrap();
    assert_eq!(a, b);

    let e = Extent {
        logical_block: 3,
        len: 2,
        physical_block: 0x10_0000_0001,
        uninit: false,
    };
    let mut a = vec![0x00u8; 12];
    let mut b = vec![0x33u8; 12];
    e.encode_into(&mut a).unwrap();
    e.encode_into(&mut b).unwrap();
    assert_eq!(a, b);
}
