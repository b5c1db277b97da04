use justext4::bitmap::get_bit;
use justext4::mkfs::INODES_PER_GROUP;
use justext4::{Config, Ext4Error, Filesystem, InodeFileType, ROOT_INODE};

fn formatted(config: &Config) -> Filesystem {
    let img = justext4::mkfs::format(config).unwrap();
    Filesystem::open(img).unwrap()
}

#[test]
fn test_format_then_open_returns_root_directory_with_dot_dotdot_entries() {
    let config = Config::default();
    let buf = justext4::mkfs::format(&config).unwrap();

    let fs = Filesystem::open(buf).unwrap();
    assert_eq!(fs.superblock().block_size, 4096);
    assert_eq!(fs.superblock().inodes_per_group, INODES_PER_GROUP);

    let root = fs.read_inode(ROOT_INODE).unwrap();
    assert_eq!(root.file_type(), InodeFileType::Directory);
    assert_eq!(root.links_count, 2);
    assert!(root.uses_extents());

    let entries = fs.read_dir(&root).unwrap();
    assert_eq!(entries.len(), 2);
    assert_eq!(entries[0].name, b".");
    assert_eq!(entries[0].inode, ROOT_INODE);
    assert_eq!(entries[1].name, b"..");
    assert_eq!(entries[1].inode, ROOT_INODE);
}

#[test]
fn test_format_then_open_path_root_returns_root_inode() {
    let fs = formatted(&Config::default());
    assert_eq!(fs.open_path("/").unwrap(), ROOT_INODE);
}

#[test]
fn test_format_too_small_image_rejected_with_invalid_layout() {
    let config = Config {
        size_blocks: 4,
        ..Config::default()
    };
    let err = justext4::mkfs::format(&config).unwrap_err();
    assert!(matches!(err, Ext4Error::InvalidLayout { .. }));
}

#[test]
fn test_format_invalid_block_size_rejected() {
    let config = Config {
        block_size: 8192,
        ..Config::default()
    };
    let err = justext4::mkfs::format(&config).unwrap_err();
    assert!(matches!(err, Ext4Error::InvalidLayout { .. }));
}

#[test]
fn test_format_then_create_file_then_read_back_round_trips() {
    let payload = b"hello, ext4!";
    let mut fs = formatted(&Config::default());
    let new_inode_num = fs.create_file("/hello.txt", payload).unwrap();

    let root = fs.read_inode(ROOT_INODE).unwrap();
    let looked_up = fs.lookup(&root, b"hello.txt").unwrap();
    assert_eq!(looked_up, new_inode_num);

    let inode = fs.read_inode(new_inode_num).unwrap();
    assert!(inode.is_regular());
    assert_eq!(inode.size, payload.len() as u64);

    let read_back = fs.read_file(&inode).unwrap();
    assert_eq!(read_back, payload);

    assert_eq!(fs.open_path("/hello.txt").unwrap(), new_inode_num);
}

#[test]
fn test_create_file_rejects_collision_with_existing_entry() {
    let mut fs = formatted(&Config::default());
    fs.create_file("/foo", b"first").unwrap();
    let err = fs.create_file("/foo", b"second").unwrap_err();
    assert!(matches!(err, Ext4Error::AlreadyExists { .. }));
}

#[test]
fn test_create_two_files_get_distinct_inodes_and_blocks() {
    let mut fs = formatted(&Config::default());
    let i1 = fs.create_file("/a.txt", b"AAA").unwrap();
    let i2 = fs.create_file("/b.txt", b"BBBBBB").unwrap();
    assert_ne!(i1, i2);
    let a = fs.read_inode(i1).unwrap();
    let b = fs.read_inode(i2).unwrap();
    assert_eq!(fs.read_file(&a).unwrap(), b"AAA");
    assert_eq!(fs.read_file(&b).unwrap(), b"BBBBBB");
}

#[test]
fn test_format_block_bitmap_marks_metadata_range_used() {
    let buf = justext4::mkfs::format(&Config::default()).unwrap();
    let bitmap_offset = 2 * 4096;
    let bitmap_slice = &buf[bitmap_offset..bitmap_offset + 4096];
    for bit in 0..7 {
        assert!(get_bit(bitmap_slice, bit), "block {} should be marked used", bit);
    }
    assert!(!get_bit(bitmap_slice, 7));
}

#[test]
fn test_format_inode_bitmap_marks_root_inode_used() {
    let buf = justext4::mkfs::format(&Config::default()).unwrap();
    let bitmap_offset = 3 * 4096;
    let bitmap_slice = &buf[bitmap_offset..bitmap_offset + 4096];
    assert!(get_bit(bitmap_slice, 1));
    assert!(!get_bit(bitmap_slice, 0));
    assert!(!get_bit(bitmap_slice, 2));
}

#[test]
fn test_format_volume_label_round_trips_through_open() {
    let config = Config {
        volume_label: b"my-rootfs".to_vec(),
        ..Config::default()
    };
    let fs = formatted(&config);
    assert_eq!(fs.superblock().volume_label(), "my-rootfs");
}

#[test]
fn test_format_with_same_config_produces_byte_identical_output() {
    let config = Config::default();
    let buf_a = justext4::mkfs::format(&config).unwrap();
    let buf_b = justext4::mkfs::format(&config).unwrap();
    let expected_len = (config.size_blocks as usize) * (config.block_size as usize);
    assert_eq!(buf_a.len(), expected_len, "buf_a length should equal size_blocks * block_size");
    assert_eq!(buf_b.len(), expected_len, "buf_b length should match");
    assert_eq!(buf_a, buf_b, "format() output must be byte-stable across runs with the same Config");
}

#[test]
fn test_format_with_different_labels_produces_different_output() {
    let config_a = Config {
        volume_label: b"alpha-fs".to_vec(),
        ..Config::default()
    };
    let config_b = Config {
        volume_label: b"beta-fs".to_vec(),
        ..Config::default()
    };
    let buf_a = justext4::mkfs::format(&config_a).unwrap();
    let buf_b = justext4::mkfs::format(&config_b).unwrap();
    assert_ne!(buf_a, buf_b, "different volume labels must produce different image bytes");
}

// ── further cases ──

#[test]
fn format_default_config_values() {
    let c = Config::default();
    assert_eq!(c.block_size, 4096);
    assert_eq!(c.size_blocks, 16);
    assert_eq!(c.volume_label, b"justext4");
}

#[test]
fn format_other_block_sizes_open_with_root_directory() {
    for &(bs, blocks) in &[(2048u32, 32u32), (65536u32, 8u32)] {
        let config = Config {
            block_size: bs,
            size_blocks: blocks,
            ..Config::default()
        };
        let img = justext4::mkfs::format(&config).unwrap();
        assert_eq!(img.len(), (bs as usize) * (blocks as usize));
        let fs = Filesystem::open(img).unwrap();
        assert_eq!(fs.superblock().block_size, bs);
        let root = fs.read_inode(ROOT_INODE).unwrap();
        assert!(root.is_directory());
        let entries = fs.read_dir(&root).unwrap();
        assert_eq!(entries.len(), 2);
        assert_eq!(entries[1].rec_len as u32, bs - 12);
    }
}

#[test]
fn format_superblock_counts_follow_layout() {
    let fs = formatted(&Config::default());
    let sb = fs.superblock();
    assert_eq!(sb.blocks_count, 16);
    // 4 metadata blocks, 2 inode table blocks, the root directory block
    assert_eq!(sb.free_blocks_count, 16 - 7);
    assert_eq!(sb.free_inodes_count, 31);
    assert_eq!(sb.inode_size, 256);
    assert_eq!(sb.first_data_block, 0);
    let gdt = fs.group_descriptor_table();
    assert_eq!(gdt.len(), 1);
    assert_eq!(gdt[0].inode_table, 4);
    assert_eq!(gdt[0].used_dirs_count, 1);
}

#[test]
fn format_label_longer_than_sixteen_bytes_is_cut() {
    let config = Config {
        volume_label: b"a-very-long-volume-label".to_vec(),
        ..Config::default()
    };
    let fs = formatted(&config);
    assert_eq!(fs.superblock().volume_label(), "a-very-long-volu");
}

#[test]
fn format_size_exactly_metadata_blocks_is_accepted() {
    let config = Config {
        size_blocks: 7,
        ..Config::default()
    };
    let img = justext4::mkfs::format(&config).unwrap();
    assert_eq!(img.len(), 7 * 4096);
}

#[test]
fn create_file_updates_free_counts() {
    let mut fs = formatted(&Config::default());
    let before_inodes = fs.superblock().free_inodes_count;
    let before_blocks = fs.superblock().free_blocks_count;
    let n = fs.create_file("/two-blocks.bin", &vec![7u8; 4097]).unwrap();
    // the lowest clear bit of the inode bitmap is bit 0: only the root's is set
    assert_eq!(n, 1);
    assert_eq!(fs.superblock().free_inodes_count, before_inodes - 1);
    assert_eq!(fs.superblock().free_blocks_count, before_blocks - 2);
    assert_eq!(fs.group_descriptor_table()[0].free_blocks_count as u64, before_blocks - 2);
    let ino = fs.read_inode(n).unwrap();
    assert_eq!(ino.blocks_lo, 16);
    assert_eq!(fs.read_file(&ino).unwrap(), vec![7u8; 4097]);
}

#[test]
fn create_file_empty_takes_no_block() {
    let mut fs = formatted(&Config::default());
    let before_blocks = fs.superblock().free_blocks_count;
    let n = fs.create_file("/empty", b"").unwrap();
    assert_eq!(fs.superblock().free_blocks_count, before_blocks);
    let ino = fs.read_inode(n).unwrap();
    assert_eq!(ino.size, 0);
    assert!(fs.read_file(&ino).unwrap().is_empty());
}

#[test]
fn create_file_relative_path_rejected() {
    let mut fs = formatted(&Config::default());
    let err = fs.create_file("relative.txt", b"x").unwrap_err();
    assert!(matches!(err, Ext4Error::InvalidLayout { .. }));
}

#[test]
fn create_file_at_root_path_rejected() {
    let mut fs = formatted(&Config::default());
    let err = fs.create_file("/", b"x").unwrap_err();
    assert!(matches!(err, Ext4Error::InvalidLayout { .. }));
}

#[test]
fn create_file_missing_parent_returns_not_found() {
    let mut fs = formatted(&Config::default());
    match fs.create_file("/no/such.txt", b"x").unwrap_err() {
        Ext4Error::NotFound { name } => assert_eq!(name, b"no"),
        other => panic!("expected NotFound, got {:?}", other),
    }
}

#[test]
fn create_file_under_regular_file_returns_not_a_directory() {
    let mut fs = formatted(&Config::default());
    let n = fs.create_file("/plain", b"x").unwrap();
    match fs.create_file("/plain/child", b"y").unwrap_err() {
        Ext4Error::NotADirectory { inode } => assert_eq!(inode, n),
        other => panic!("expected NotADirectory, got {:?}", other),
    }
}

#[test]
fn create_file_without_free_blocks_returns_no_space() {
    let mut fs = formatted(&Config::default());
    // 9 free blocks of 4 KiB: ten blocks cannot be found
    let err = fs.create_file("/big", &vec![1u8; 10 * 4096]).unwrap_err();
    assert!(matches!(err, Ext4Error::NoSpace { what: "blocks" }));
}

#[test]
fn create_file_runs_out_of_inodes() {
    let mut fs = formatted(&Config::default());
    // inodes 1 and 3.. are free after format: 31 free inodes in all
    let mut made = 0;
    loop {
        match fs.create_file(&format!("/f{}", made), b"") {
            Ok(_) => made += 1,
            Err(Ext4Error::NoSpace { what }) => {
                assert_eq!(what, "inodes");
                break;
            }
            Err(other) => panic!("unexpected {:?}", other),
        }
    }
    assert_eq!(made, 31);
}

#[test]
fn create_file_full_directory_block_returns_unsupported() {
    let config = Config {
        block_size: 2048,
        size_blocks: 64,
        ..Config::default()
    };
    let mut fs = formatted(&config);
    let mut made = 0;
    loop {
        let name = format!("/{}", "n".repeat(200) + &made.to_string());
        match fs.create_file(&name, b"") {
            Ok(_) => made += 1,
            Err(Ext4Error::UnsupportedV0 { .. }) => break,
            Err(other) => panic!("unexpected {:?}", other),
        }
    }
    assert!(made >= 1 && made < 31);
}

#[test]
fn mkdir_creates_directory_with_dot_entries() {
    let mut fs = formatted(&Config::default());
    let n = fs.mkdir("/sub").unwrap();
    let dir = fs.read_inode(n).unwrap();
    assert!(dir.is_directory());
    assert_eq!(dir.links_count, 2);
    let entries = fs.read_dir(&dir).unwrap();
    assert_eq!(entries.len(), 2);
    assert_eq!(entries[0].name, b".");
    assert_eq!(entries[0].inode, n);
    assert_eq!(entries[1].name, b"..");
    assert_eq!(entries[1].inode, ROOT_INODE);
    let root = fs.read_inode(ROOT_INODE).unwrap();
    assert_eq!(root.links_count, 3);
    assert_eq!(fs.group_descriptor_table()[0].used_dirs_count, 2);
    assert_eq!(fs.open_path("/sub").unwrap(), n);
}

#[test]
fn mkdir_then_create_file_inside() {
    let mut fs = formatted(&Config::default());
    let d = fs.mkdir("/etc").unwrap();
    let f = fs.create_file("/etc/hostname", b"my-host").unwrap();
    assert_eq!(fs.open_path("/etc/hostname").unwrap(), f);
    let dir = fs.read_inode(d).unwrap();
    assert_eq!(fs.lookup(&dir, b"hostname").unwrap(), f);
    let ino = fs.read_inode(f).unwrap();
    assert_eq!(fs.read_file(&ino).unwrap(), b"my-host");
}

#[test]
fn mkdir_existing_name_returns_already_exists() {
    let mut fs = formatted(&Config::default());
    fs.mkdir("/sub").unwrap();
    match fs.mkdir("/sub/").unwrap_err() {
        Ext4Error::AlreadyExists { name } => assert_eq!(name, b"sub"),
        other => panic!("expected AlreadyExists, got {:?}", other),
    }
}

#[test]
fn written_image_reopens_with_the_same_contents() {
    let mut fs = formatted(&Config::default());
    let n = fs.create_file("/keep.txt", b"persisted").unwrap();
    let img = fs.into_image();
    let fs2 = Filesystem::open(img).unwrap();
    assert_eq!(fs2.open_path("/keep.txt").unwrap(), n);
    let ino = fs2.read_inode(n).unwrap();
    assert_eq!(fs2.read_file(&ino).unwrap(), b"persisted");
    assert_eq!(fs2.superblock().free_inodes_count, 30);
}

#[test]
fn mkdir_entry_found_in_parent() {
    let mut fs = formatted(&Config::default());
    let n = fs.mkdir("/sub").unwrap();
    let root = fs.read_inode(ROOT_INODE).unwrap();
    assert_eq!(fs.lookup(&root, b"sub").unwrap(), n);
}

#[test]
fn format_is_reproducible_for_every_block_size() {
    for &(bs, blocks) in &[(1024u32, 16u32), (2048u32, 32u32), (4096u32, 16u32), (65536u32, 8u32)] {
        let config = Config {
            block_size: bs,
            size_blocks: blocks,
            ..Config::default()
        };
        let a = justext4::mkfs::format(&config).unwrap();
        let b = justext4::mkfs::format(&config).unwrap();
        assert_eq!(a, b);
    }
}

#[test]
fn create_file_marks_its_inode_and_blocks_in_use() {
    let mut fs = formatted(&Config::default());
    // blocks 0..7 hold the metadata and the root directory: the data goes to 7 and 8
    let n = fs.create_file("/two.bin", &vec![1u8; 4097]).unwrap();
    let img = fs.image_bytes();
    let block_bitmap = &img[2 * 4096..3 * 4096];
    let inode_bitmap = &img[3 * 4096..4 * 4096];
    assert!(get_bit(inode_bitmap, (n - 1) as usize));
    assert!(get_bit(block_bitmap, 7));
    assert!(get_bit(block_bitmap, 8));
    assert!(!get_bit(block_bitmap, 9));
}

#[test]
fn mkdir_marks_its_inode_and_block_in_use() {
    let mut fs = formatted(&Config::default());
    let n = fs.mkdir("/d").unwrap();
    let img = fs.image_bytes();
    let block_bitmap = &img[2 * 4096..3 * 4096];
    let inode_bitmap = &img[3 * 4096..4 * 4096];
    assert!(get_bit(inode_bitmap, (n - 1) as usize));
    assert!(get_bit(block_bitmap, 7));
    assert!(!get_bit(block_bitmap, 8));
}

#[test]
fn create_file_is_deterministic() {
    let run = || {
        let mut fs = formatted(&Config::default());
        fs.mkdir("/etc").unwrap();
        fs.create_file("/etc/hostname", b"my-host").unwrap();
        fs.create_file("/readme", &vec![9u8; 5000]).unwrap();
        fs.into_image()
    };
    assert_eq!(run(), run());
}

#[test]
fn mkdir_and_create_on_an_image_larger_than_one_bitmap_covers() {
    // 2 KiB blocks: one bitmap block covers 16384 blocks, the image has 20000
    let mut fs = formatted(&Config {
        block_size: 2048,
        size_blocks: 20000,
        ..Config::default()
    });
    let d = fs.mkdir("/d").unwrap();
    let f = fs.create_file("/d/f", b"payload").unwrap();
    assert_eq!(fs.open_path("/d").unwrap(), d);
    assert_eq!(fs.open_path("/d/f").unwrap(), f);
    let ino = fs.read_inode(f).unwrap();
    assert_eq!(fs.read_file(&ino).unwrap(), b"payload".to_vec());
}

#[test]
fn block_search_stops_at_the_end_of_the_bitmap() {
    // 2 KiB blocks, 16394 blocks: 16384 bits in the bitmap, the first 9 for the metadata
    let mut fs = formatted(&Config {
        block_size: 2048,
        size_blocks: 16394,
        ..Config::default()
    });
    // 16375 free blocks lie below the bitmap's end; a run of 16376 does not fit there
    let too_long = vec![7u8; 2048 * 16376];
    assert!(matches!(
        fs.create_file("/big", &too_long),
        Err(Ext4Error::NoSpace { what: "blocks" })
    ));
}

#[test]
fn one_kib_blocks_format_opens_and_takes_writes() {
    let config = Config {
        block_size: 1024,
        size_blocks: 64,
        ..Config::default()
    };
    let img = justext4::mkfs::format(&config).unwrap();
    // the superblock fills block 1, whole; the group descriptor table follows in block 2
    let mut fs = Filesystem::open(img).unwrap();
    assert_eq!(fs.superblock().first_data_block, 1);
    assert_eq!(fs.superblock().block_size, 1024);
    assert_eq!(fs.superblock().blocks_count, 64);
    assert_eq!(fs.superblock().volume_name[..8], *b"justext4");
    let root = fs.read_inode(ROOT_INODE).unwrap();
    assert_eq!(root.file_type(), InodeFileType::Directory);
    let entries = fs.read_dir(&root).unwrap();
    assert_eq!(entries.len(), 2);
    let d = fs.mkdir("/etc").unwrap();
    let f = fs.create_file("/etc/hosts", b"127.0.0.1 localhost\n").unwrap();
    assert_eq!(fs.open_path("/etc").unwrap(), d);
    assert_eq!(fs.open_path("/etc/hosts").unwrap(), f);
    let ino = fs.read_inode(f).unwrap();
    assert_eq!(fs.read_file(&ino).unwrap(), b"127.0.0.1 localhost\n".to_vec());
}

#[test]
fn one_kib_layout_puts_each_region_in_its_own_block() {
    let config = Config {
        block_size: 1024,
        size_blocks: 16,
        ..Config::default()
    };
    let img = justext4::mkfs::format(&config).unwrap();
    // block 0 is the boot area: all zero
    assert!(img[..1024].iter().all(|&b| b == 0));
    // magic 0xEF53 at byte 56 of the superblock, in block 1
    assert_eq!(img[1024 + 56], 0x53);
    assert_eq!(img[1024 + 57], 0xEF);
    // group descriptor in block 2: block bitmap 3, inode bitmap 4, inode table 5
    assert_eq!(img[2048], 3);
    assert_eq!(img[2048 + 4], 4);
    assert_eq!(img[2048 + 8], 5);
    // blocks 0 ..= 13 (the root directory's block is 5 + 8) are in use
    let block_bitmap = &img[3 * 1024..4 * 1024];
    for b in 0..14 {
        assert!(get_bit(block_bitmap, b));
    }
    assert!(!get_bit(block_bitmap, 14));
}

#[test]
fn root_keeps_taking_entries_after_a_mkdir_and_a_create() {
    // each call takes the lowest free inode and the lowest free blocks of the root's layout
    let mut fs = formatted(&Config::default());
    let d = fs.mkdir("/a").unwrap();
    let f = fs.create_file("/b", b"bee").unwrap();
    let g = fs.create_file("/c", b"sea").unwrap();
    assert_eq!((d, f, g), (1, 3, 4));
    let root = fs.read_inode(ROOT_INODE).unwrap();
    assert_eq!(root.links_count, 3);
    assert_eq!(fs.lookup(&root, b"a").unwrap(), d);
    assert_eq!(fs.lookup(&root, b"b").unwrap(), f);
    assert_eq!(fs.lookup(&root, b"c").unwrap(), g);
    let fi = fs.read_inode(f).unwrap();
    let gi = fs.read_inode(g).unwrap();
    assert_eq!(fs.read_file(&fi).unwrap(), b"bee".to_vec());
    assert_eq!(fs.read_file(&gi).unwrap(), b"sea".to_vec());
}

#[test]
fn refused_mkdir_leaves_the_image_unchanged() {
    let mut fs = formatted(&Config::default());
    fs.create_file("/f", b"x").unwrap();
    fs.mkdir("/d").unwrap();
    let before = fs.image_bytes().to_vec();
    assert!(matches!(fs.mkdir("/f/sub"), Err(Ext4Error::NotADirectory { .. })));
    assert_eq!(fs.image_bytes(), &before[..]);
    match fs.mkdir("/d") {
        Err(Ext4Error::AlreadyExists { name }) => assert_eq!(name, b"d"),
        other => panic!("expected AlreadyExists, got {:?}", other),
    }
    assert_eq!(fs.image_bytes(), &before[..]);
}

#[test]
fn same_image_same_create_same_outcome() {
    let img = justext4::mkfs::format(&Config::default()).unwrap();
    let mut a = Filesystem::open(img.clone()).unwrap();
    let mut b = Filesystem::open(img).unwrap();
    let ra = a.create_file("/x", b"same").unwrap();
    let rb = b.create_file("/x", b"same").unwrap();
    assert_eq!(ra, rb);
    assert_eq!(a.image_bytes(), b.image_bytes());
    let da = a.mkdir("/y").unwrap();
    let db = b.mkdir("/y").unwrap();
    assert_eq!(da, db);
    assert_eq!(a.image_bytes(), b.image_bytes());
}

#[test]
fn create_on_an_image_whose_bitmaps_coincide_has_one_outcome() {
    // the group descriptor names block 3 (the inode bitmap) as the block bitmap too
    let mut img = justext4::mkfs::format(&Config::default()).unwrap();
    img[4096] = 3;
    let mut a = Filesystem::open(img.clone()).unwrap();
    let mut b = Filesystem::open(img).unwrap();
    let ra = a.create_file("/x", b"overlap");
    let rb = b.create_file("/x", b"overlap");
    assert_eq!(format!("{:?}", ra), format!("{:?}", rb));
    assert_eq!(a.image_bytes(), b.image_bytes());
    // inode 1 was taken; the shared bitmap then has bits 0 and 1 set, so block 2 holds the data
    assert_eq!(ra.unwrap(), 1);
    assert_eq!(&a.image_bytes()[2 * 4096..2 * 4096 + 7], b"overlap");
}
