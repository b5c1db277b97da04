use justext4::{Ext4Error, Filesystem, InodeFileType, SuperblockDecodeError, EXT4_MAGIC, ROOT_INODE};

const BLOCK_SIZE: usize = 4096;
const NUM_BLOCKS: u32 = 16;
const INODES_PER_GROUP: u32 = 32;
const INODE_SIZE: u16 = 256;

const SB_INODES_COUNT: usize = 0x00;
const SB_BLOCKS_COUNT_LO: usize = 0x04;
const SB_FIRST_DATA_BLOCK: usize = 0x14;
const SB_LOG_BLOCK_SIZE: usize = 0x18;
const SB_BLOCKS_PER_GROUP: usize = 0x20;
const SB_INODES_PER_GROUP: usize = 0x28;
const SB_MAGIC: usize = 0x38;
const SB_REV_LEVEL: usize = 0x4C;
const SB_INODE_SIZE: usize = 0x58;

const GDT_BLOCK_BITMAP_LO: usize = 0x00;
const GDT_INODE_BITMAP_LO: usize = 0x04;
const GDT_INODE_TABLE_LO: usize = 0x08;

const I_MODE: usize = 0x00;
const I_SIZE_LO: usize = 0x04;
const I_LINKS_COUNT: usize = 0x1A;
const I_FLAGS: usize = 0x20;
const I_BLOCK: usize = 0x28;

const EXTENT_MAGIC: u16 = 0xF30A;
const EXTENT_FLAG: u32 = 0x0008_0000;

fn write_u16(buf: &mut [u8], offset: usize, value: u16) {
    buf[offset..offset + 2].copy_from_slice(&value.to_le_bytes());
}

fn write_u32(buf: &mut [u8], offset: usize, value: u32) {
    buf[offset..offset + 4].copy_from_slice(&value.to_le_bytes());
}

fn inode_byte_offset(inode_number: u32) -> usize {
    4 * BLOCK_SIZE + (inode_number as usize - 1) * INODE_SIZE as usize
}

fn write_extent_header(buf: &mut [u8], byte_offset: usize, entries: u16, max: u16, depth: u16) {
    write_u16(buf, byte_offset, EXTENT_MAGIC);
    write_u16(buf, byte_offset + 2, entries);
    write_u16(buf, byte_offset + 4, max);
    write_u16(buf, byte_offset + 6, depth);
    write_u32(buf, byte_offset + 8, 0);
}

fn write_extent_leaf(buf: &mut [u8], byte_offset: usize, logical: u32, len_raw: u16, physical: u64) {
    write_u32(buf, byte_offset, logical);
    write_u16(buf, byte_offset + 4, len_raw);
    write_u16(buf, byte_offset + 6, ((physical >> 32) & 0xFFFF) as u16);
    write_u32(buf, byte_offset + 8, (physical & 0xFFFF_FFFF) as u32);
}

fn write_extent_index(buf: &mut [u8], byte_offset: usize, logical: u32, leaf_block: u64) {
    write_u32(buf, byte_offset, logical);
    write_u32(buf, byte_offset + 4, (leaf_block & 0xFFFF_FFFF) as u32);
    write_u16(buf, byte_offset + 8, ((leaf_block >> 32) & 0xFFFF) as u16);
    write_u16(buf, byte_offset + 10, 0);
}

fn write_inode_with_one_extent(
    buf: &mut [u8],
    inode_number: u32,
    size: u32,
    logical: u32,
    len_raw: u16,
    physical: u64,
) {
    let inode_off = inode_byte_offset(inode_number);
    write_u16(buf, inode_off + I_MODE, 0o100644);
    write_u32(buf, inode_off + I_SIZE_LO, size);
    write_u16(buf, inode_off + I_LINKS_COUNT, 1);
    write_u32(buf, inode_off + I_FLAGS, EXTENT_FLAG);
    write_extent_header(buf, inode_off + I_BLOCK, 1, 4, 0);
    write_extent_leaf(buf, inode_off + I_BLOCK + 12, logical, len_raw, physical);
}

fn build_image(root_mode: u16, root_links: u16) -> Vec<u8> {
    let mut img = vec![0u8; BLOCK_SIZE * NUM_BLOCKS as usize];
    let sb_off = 1024;
    write_u32(&mut img, sb_off + SB_INODES_COUNT, INODES_PER_GROUP);
    write_u32(&mut img, sb_off + SB_BLOCKS_COUNT_LO, NUM_BLOCKS);
    write_u32(&mut img, sb_off + SB_FIRST_DATA_BLOCK, 0);
    write_u32(&mut img, sb_off + SB_LOG_BLOCK_SIZE, 2);
    write_u32(&mut img, sb_off + SB_BLOCKS_PER_GROUP, NUM_BLOCKS);
    write_u32(&mut img, sb_off + SB_INODES_PER_GROUP, INODES_PER_GROUP);
    write_u16(&mut img, sb_off + SB_MAGIC, EXT4_MAGIC);
    write_u32(&mut img, sb_off + SB_REV_LEVEL, 1);
    write_u16(&mut img, sb_off + SB_INODE_SIZE, INODE_SIZE);

    let gdt_off = BLOCK_SIZE;
    write_u32(&mut img, gdt_off + GDT_BLOCK_BITMAP_LO, 2);
    write_u32(&mut img, gdt_off + GDT_INODE_BITMAP_LO, 3);
    write_u32(&mut img, gdt_off + GDT_INODE_TABLE_LO, 4);

    let inode_table_byte = 4 * BLOCK_SIZE;
    let inode2_off = inode_table_byte + 256;
    write_u16(&mut img, inode2_off + I_MODE, root_mode);
    write_u16(&mut img, inode2_off + I_LINKS_COUNT, root_links);
    img
}

fn write_data_at_block(buf: &mut [u8], physical_block: u64, data: &[u8]) {
    let off = physical_block as usize * BLOCK_SIZE;
    buf[off..off + data.len()].copy_from_slice(data);
}

fn write_dir_entries_at_block(buf: &mut [u8], physical_block: u64, entries: &[(u32, &[u8], u8)]) {
    let block_off = physical_block as usize * BLOCK_SIZE;
    let n = entries.len();
    let mut cursor = 0usize;
    for (i, (inode, name, ftype)) in entries.iter().enumerate() {
        let payload = 8 + name.len();
        let padded = payload.div_ceil(4) * 4;
        let rec_len = if i == n - 1 { BLOCK_SIZE - cursor } else { padded };
        let off = block_off + cursor;
        write_u32(buf, off, *inode);
        write_u16(buf, off + 4, rec_len as u16);
        buf[off + 6] = name.len() as u8;
        buf[off + 7] = *ftype;
        buf[off + 8..off + 8 + name.len()].copy_from_slice(name);
        cursor += rec_len;
    }
}

fn setup_root_as_directory(buf: &mut [u8], start_block: u64, num_blocks: u16) {
    let inode_off = inode_byte_offset(2);
    let total_size = (num_blocks as u32) * (BLOCK_SIZE as u32);
    write_u16(buf, inode_off + I_MODE, 0o040755);
    write_u32(buf, inode_off + I_SIZE_LO, total_size);
    write_u16(buf, inode_off + I_LINKS_COUNT, 2);
    write_u32(buf, inode_off + I_FLAGS, EXTENT_FLAG);
    write_extent_header(buf, inode_off + I_BLOCK, 1, 4, 0);
    write_extent_leaf(buf, inode_off + I_BLOCK + 12, 0, num_blocks, start_block);
}

#[test]
fn test_open_minimal_image_succeeds() {
    let img = build_image(0o040755, 2);
    let fs = Filesystem::open(img).unwrap();
    assert_eq!(fs.superblock().block_size, 4096);
    assert_eq!(fs.superblock().inodes_per_group, INODES_PER_GROUP);
    assert_eq!(fs.superblock().blocks_per_group, NUM_BLOCKS);
    assert_eq!(fs.group_descriptor_table().len(), 1);
    assert_eq!(fs.group_descriptor_table()[0].inode_table, 4);
}

#[test]
fn test_open_bad_magic_returns_superblock_error() {
    let mut img = build_image(0o040755, 2);
    write_u16(&mut img, 1024 + SB_MAGIC, 0xDEAD);
    let err = Filesystem::open(img).unwrap_err();
    assert!(matches!(
        err,
        Ext4Error::Superblock(SuperblockDecodeError::BadMagic { found: 0xDEAD })
    ));
}

#[test]
fn test_open_zero_blocks_per_group_returns_invalid_layout() {
    let mut img = build_image(0o040755, 2);
    write_u32(&mut img, 1024 + SB_BLOCKS_PER_GROUP, 0);
    let err = Filesystem::open(img).unwrap_err();
    assert!(matches!(err, Ext4Error::InvalidLayout { .. }));
}

#[test]
fn test_read_inode_zero_returns_out_of_range() {
    let img = build_image(0o040755, 2);
    let fs = Filesystem::open(img).unwrap();
    let err = fs.read_inode(0).unwrap_err();
    assert!(matches!(err, Ext4Error::InodeOutOfRange { inode: 0, .. }));
}

#[test]
fn test_read_inode_beyond_inodes_count_returns_out_of_range() {
    let img = build_image(0o040755, 2);
    let fs = Filesystem::open(img).unwrap();
    let err = fs.read_inode(1_000_000).unwrap_err();
    assert!(matches!(
        err,
        Ext4Error::InodeOutOfRange {
            inode: 1_000_000,
            max: 32
        }
    ));
}

#[test]
fn test_read_inode_2_returns_root_directory_with_expected_mode() {
    let img = build_image(0o040755, 2);
    let fs = Filesystem::open(img).unwrap();
    let inode = fs.read_inode(2).unwrap();
    assert_eq!(inode.mode, 0o040755);
    assert_eq!(inode.file_type(), InodeFileType::Directory);
    assert_eq!(inode.links_count, 2);
    assert!(inode.is_directory());
}

#[test]
fn test_resolve_legacy_block_pointer_inode_returns_not_extent_based() {
    let img = build_image(0o040755, 2);
    let fs = Filesystem::open(img).unwrap();
    let inode = fs.read_inode(2).unwrap();
    let err = fs.resolve_logical_block(&inode, 0).unwrap_err();
    assert!(matches!(err, Ext4Error::NotExtentBased));
}

#[test]
fn test_resolve_single_leaf_extent_offsets_correctly() {
    let mut img = build_image(0o040755, 2);
    write_inode_with_one_extent(&mut img, 11, 32_768, 0, 8, 100);
    let fs = Filesystem::open(img).unwrap();
    let inode = fs.read_inode(11).unwrap();
    assert_eq!(fs.resolve_logical_block(&inode, 0).unwrap(), Some(100));
    assert_eq!(fs.resolve_logical_block(&inode, 3).unwrap(), Some(103));
    assert_eq!(fs.resolve_logical_block(&inode, 7).unwrap(), Some(107));
    assert_eq!(fs.resolve_logical_block(&inode, 8).unwrap(), None);
}

#[test]
fn test_resolve_uninit_extent_returns_none() {
    let mut img = build_image(0o040755, 2);
    write_inode_with_one_extent(&mut img, 11, 16_384, 0, 32768 + 4, 100);
    let fs = Filesystem::open(img).unwrap();
    let inode = fs.read_inode(11).unwrap();
    assert_eq!(fs.resolve_logical_block(&inode, 0).unwrap(), None);
    assert_eq!(fs.resolve_logical_block(&inode, 3).unwrap(), None);
}

#[test]
fn test_resolve_sparse_hole_between_extents_returns_none() {
    let mut img = build_image(0o040755, 2);
    let inode_off = inode_byte_offset(11);
    write_u16(&mut img, inode_off + I_MODE, 0o100644);
    write_u32(&mut img, inode_off + I_SIZE_LO, 4096 * 104);
    write_u16(&mut img, inode_off + I_LINKS_COUNT, 1);
    write_u32(&mut img, inode_off + I_FLAGS, EXTENT_FLAG);
    write_extent_header(&mut img, inode_off + I_BLOCK, 2, 4, 0);
    write_extent_leaf(&mut img, inode_off + I_BLOCK + 12, 0, 4, 100);
    write_extent_leaf(&mut img, inode_off + I_BLOCK + 24, 100, 4, 200);

    let fs = Filesystem::open(img).unwrap();
    let inode = fs.read_inode(11).unwrap();
    assert_eq!(fs.resolve_logical_block(&inode, 0).unwrap(), Some(100));
    assert_eq!(fs.resolve_logical_block(&inode, 50).unwrap(), None);
    assert_eq!(fs.resolve_logical_block(&inode, 100).unwrap(), Some(200));
}

#[test]
fn test_resolve_depth_1_descends_to_leaf_block() {
    let mut img = build_image(0o040755, 2);
    let inode_off = inode_byte_offset(11);
    write_u16(&mut img, inode_off + I_MODE, 0o100644);
    write_u32(&mut img, inode_off + I_SIZE_LO, 4096);
    write_u16(&mut img, inode_off + I_LINKS_COUNT, 1);
    write_u32(&mut img, inode_off + I_FLAGS, EXTENT_FLAG);
    write_extent_header(&mut img, inode_off + I_BLOCK, 1, 4, 1);
    write_extent_index(&mut img, inode_off + I_BLOCK + 12, 0, 8);

    let leaf_off = 8 * BLOCK_SIZE;
    write_extent_header(&mut img, leaf_off, 1, 340, 0);
    write_extent_leaf(&mut img, leaf_off + 12, 0, 1, 200);

    let fs = Filesystem::open(img).unwrap();
    let inode = fs.read_inode(11).unwrap();
    assert_eq!(fs.resolve_logical_block(&inode, 0).unwrap(), Some(200));
}

#[test]
fn test_read_file_zero_size_returns_empty_vec() {
    let mut img = build_image(0o040755, 2);
    write_inode_with_one_extent(&mut img, 11, 0, 0, 1, 6);
    let fs = Filesystem::open(img).unwrap();
    let inode = fs.read_inode(11).unwrap();
    let data = fs.read_file(&inode).unwrap();
    assert!(data.is_empty());
}

#[test]
fn test_read_file_small_payload_fits_in_one_block() {
    let payload = b"hello, ext4!";
    let mut img = build_image(0o040755, 2);
    write_inode_with_one_extent(&mut img, 11, payload.len() as u32, 0, 1, 6);
    write_data_at_block(&mut img, 6, payload);
    let fs = Filesystem::open(img).unwrap();
    let inode = fs.read_inode(11).unwrap();
    let data = fs.read_file(&inode).unwrap();
    assert_eq!(data, payload);
}

#[test]
fn test_read_file_two_block_payload_concatenates() {
    let mut img = build_image(0o040755, 2);
    let block_a: Vec<u8> = (0..BLOCK_SIZE).map(|i| (i & 0xFF) as u8).collect();
    let block_b: Vec<u8> = (0..BLOCK_SIZE).map(|i| ((i + 1) & 0xFF) as u8).collect();
    let total_size = (BLOCK_SIZE * 2) as u32;
    write_inode_with_one_extent(&mut img, 11, total_size, 0, 2, 6);
    write_data_at_block(&mut img, 6, &block_a);
    write_data_at_block(&mut img, 7, &block_b);
    let fs = Filesystem::open(img).unwrap();
    let inode = fs.read_inode(11).unwrap();
    let data = fs.read_file(&inode).unwrap();
    let mut expected = block_a.clone();
    expected.extend_from_slice(&block_b);
    assert_eq!(data, expected);
}

#[test]
fn test_read_file_sparse_hole_zero_fills_middle() {
    let mut img = build_image(0o040755, 2);
    let inode_off = inode_byte_offset(11);
    let total_size = (BLOCK_SIZE * 3) as u32;
    write_u16(&mut img, inode_off + I_MODE, 0o100644);
    write_u32(&mut img, inode_off + I_SIZE_LO, total_size);
    write_u16(&mut img, inode_off + I_LINKS_COUNT, 1);
    write_u32(&mut img, inode_off + I_FLAGS, EXTENT_FLAG);
    write_extent_header(&mut img, inode_off + I_BLOCK, 2, 4, 0);
    write_extent_leaf(&mut img, inode_off + I_BLOCK + 12, 0, 1, 6);
    write_extent_leaf(&mut img, inode_off + I_BLOCK + 24, 2, 1, 7);

    let block_a = vec![0xAAu8; BLOCK_SIZE];
    let block_c = vec![0xCCu8; BLOCK_SIZE];
    write_data_at_block(&mut img, 6, &block_a);
    write_data_at_block(&mut img, 7, &block_c);

    let fs = Filesystem::open(img).unwrap();
    let inode = fs.read_inode(11).unwrap();
    let data = fs.read_file(&inode).unwrap();

    assert_eq!(&data[..BLOCK_SIZE], &block_a[..]);
    assert!(data[BLOCK_SIZE..2 * BLOCK_SIZE].iter().all(|&b| b == 0));
    assert_eq!(&data[2 * BLOCK_SIZE..3 * BLOCK_SIZE], &block_c[..]);
}

#[test]
fn test_read_file_uninit_extent_reads_as_zeros() {
    let mut img = build_image(0o040755, 2);
    write_inode_with_one_extent(&mut img, 11, BLOCK_SIZE as u32, 0, 32768 + 1, 6);
    let stale = vec![0xFFu8; BLOCK_SIZE];
    write_data_at_block(&mut img, 6, &stale);

    let fs = Filesystem::open(img).unwrap();
    let inode = fs.read_inode(11).unwrap();
    let data = fs.read_file(&inode).unwrap();

    assert_eq!(data.len(), BLOCK_SIZE);
    assert!(data.iter().all(|&b| b == 0));
}

#[test]
fn test_read_file_truncates_to_inode_size_in_last_block() {
    let mut img = build_image(0o040755, 2);
    let total_size = (BLOCK_SIZE + 5) as u32;
    write_inode_with_one_extent(&mut img, 11, total_size, 0, 2, 6);

    let block_a = vec![0xAAu8; BLOCK_SIZE];
    let mut block_b = vec![0xFFu8; BLOCK_SIZE];
    block_b[0..5].copy_from_slice(b"abcde");
    write_data_at_block(&mut img, 6, &block_a);
    write_data_at_block(&mut img, 7, &block_b);

    let fs = Filesystem::open(img).unwrap();
    let inode = fs.read_inode(11).unwrap();
    let data = fs.read_file(&inode).unwrap();

    assert_eq!(data.len(), BLOCK_SIZE + 5);
    assert_eq!(&data[..BLOCK_SIZE], &block_a[..]);
    assert_eq!(&data[BLOCK_SIZE..], b"abcde");
}

#[test]
fn test_read_dir_single_block_returns_all_entries() {
    let mut img = build_image(0o040755, 2);
    setup_root_as_directory(&mut img, 6, 1);
    write_dir_entries_at_block(&mut img, 6, &[(2, b".", 2), (2, b"..", 2), (11, b"hello", 1)]);
    let fs = Filesystem::open(img).unwrap();
    let root = fs.read_inode(2).unwrap();
    let entries = fs.read_dir(&root).unwrap();
    assert_eq!(entries.len(), 3);
    assert_eq!(entries[0].name, b".");
    assert_eq!(entries[1].name, b"..");
    assert_eq!(entries[2].name, b"hello");
    assert_eq!(entries[2].inode, 11);
}

#[test]
fn test_read_dir_walks_across_block_boundary() {
    let mut img = build_image(0o040755, 2);
    setup_root_as_directory(&mut img, 6, 2);
    write_dir_entries_at_block(&mut img, 6, &[(2, b".", 2), (2, b"..", 2), (11, b"alpha", 1)]);
    write_dir_entries_at_block(&mut img, 7, &[(12, b"beta", 1), (13, b"gamma", 1), (14, b"delta", 1)]);
    let fs = Filesystem::open(img).unwrap();
    let root = fs.read_inode(2).unwrap();
    let entries = fs.read_dir(&root).unwrap();
    assert_eq!(entries.len(), 6);
    assert_eq!(entries[2].name, b"alpha");
    assert_eq!(entries[3].name, b"beta");
    assert_eq!(entries[5].name, b"delta");
}

#[test]
fn test_lookup_existing_entry_returns_inode_number() {
    let mut img = build_image(0o040755, 2);
    setup_root_as_directory(&mut img, 6, 1);
    write_dir_entries_at_block(&mut img, 6, &[(2, b".", 2), (2, b"..", 2), (11, b"hello", 1)]);
    let fs = Filesystem::open(img).unwrap();
    let root = fs.read_inode(2).unwrap();
    assert_eq!(fs.lookup(&root, b"hello").unwrap(), 11);
}

#[test]
fn test_lookup_missing_entry_returns_not_found() {
    let mut img = build_image(0o040755, 2);
    setup_root_as_directory(&mut img, 6, 1);
    write_dir_entries_at_block(&mut img, 6, &[(2, b".", 2), (2, b"..", 2), (11, b"hello", 1)]);
    let fs = Filesystem::open(img).unwrap();
    let root = fs.read_inode(2).unwrap();
    let err = fs.lookup(&root, b"missing").unwrap_err();
    assert!(matches!(err, Ext4Error::NotFound { .. }));
}

#[test]
fn test_lookup_skips_unused_tombstone_entries() {
    let mut img = build_image(0o040755, 2);
    setup_root_as_directory(&mut img, 6, 1);
    write_dir_entries_at_block(
        &mut img,
        6,
        &[(2, b".", 2), (2, b"..", 2), (0, b"hello", 1), (11, b"hello", 1)],
    );
    let fs = Filesystem::open(img).unwrap();
    let root = fs.read_inode(2).unwrap();
    assert_eq!(fs.lookup(&root, b"hello").unwrap(), 11);
}

#[test]
fn test_open_path_root_returns_root_inode() {
    let mut img = build_image(0o040755, 2);
    setup_root_as_directory(&mut img, 6, 1);
    write_dir_entries_at_block(&mut img, 6, &[(2, b".", 2), (2, b"..", 2)]);
    let fs = Filesystem::open(img).unwrap();
    assert_eq!(fs.open_path("/").unwrap(), ROOT_INODE);
}

#[test]
fn test_open_path_one_level_returns_child_inode() {
    let mut img = build_image(0o040755, 2);
    setup_root_as_directory(&mut img, 6, 1);
    write_dir_entries_at_block(&mut img, 6, &[(2, b".", 2), (2, b"..", 2), (11, b"foo", 1)]);
    let fs = Filesystem::open(img).unwrap();
    assert_eq!(fs.open_path("/foo").unwrap(), 11);
}

#[test]
fn test_open_path_non_directory_parent_returns_not_a_directory() {
    let mut img = build_image(0o040755, 2);
    setup_root_as_directory(&mut img, 6, 1);
    write_dir_entries_at_block(&mut img, 6, &[(2, b".", 2), (2, b"..", 2), (11, b"foo", 1)]);
    let fs = Filesystem::open(img).unwrap();
    let err = fs.open_path("/foo/bar").unwrap_err();
    assert!(matches!(err, Ext4Error::NotADirectory { inode: 11 }));
}

#[test]
fn test_open_path_missing_component_returns_not_found_with_name() {
    let mut img = build_image(0o040755, 2);
    setup_root_as_directory(&mut img, 6, 1);
    write_dir_entries_at_block(&mut img, 6, &[(2, b".", 2), (2, b"..", 2)]);
    let fs = Filesystem::open(img).unwrap();
    let err = fs.open_path("/missing").unwrap_err();
    match err {
        Ext4Error::NotFound { name } => assert_eq!(name, b"missing"),
        other => panic!("expected NotFound, got {:?}", other),
    }
}

#[test]
fn test_open_path_tolerates_double_slash_and_trailing_slash() {
    let mut img = build_image(0o040755, 2);
    setup_root_as_directory(&mut img, 6, 1);
    write_dir_entries_at_block(&mut img, 6, &[(2, b".", 2), (2, b"..", 2), (11, b"foo", 1)]);
    let fs = Filesystem::open(img).unwrap();
    assert_eq!(fs.open_path("//foo").unwrap(), 11);
    assert_eq!(fs.open_path("/foo/").unwrap(), 11);
    assert_eq!(fs.open_path("///").unwrap(), ROOT_INODE);
}

#[test]
fn test_resolve_empty_extent_tree_returns_none_for_any_logical() {
    let mut img = build_image(0o040755, 2);
    let inode_off = inode_byte_offset(11);
    write_u16(&mut img, inode_off + I_MODE, 0o100644);
    write_u32(&mut img, inode_off + I_FLAGS, EXTENT_FLAG);
    write_extent_header(&mut img, inode_off + I_BLOCK, 0, 4, 0);

    let fs = Filesystem::open(img).unwrap();
    let inode = fs.read_inode(11).unwrap();
    assert_eq!(fs.resolve_logical_block(&inode, 0).unwrap(), None);
    assert_eq!(fs.resolve_logical_block(&inode, 999).unwrap(), None);
}

// ── further cases ────────────────────────────────────────────────

#[test]
fn test_open_image_shorter_than_superblock_returns_io() {
    let err = Filesystem::open(vec![0u8; 1500]).unwrap_err();
    assert!(matches!(err, Ext4Error::Io { offset: 1024, len: 1024 }));
}

#[test]
fn test_open_zero_inodes_per_group_returns_invalid_layout() {
    let mut img = build_image(0o040755, 2);
    write_u32(&mut img, 1024 + SB_INODES_PER_GROUP, 0);
    match Filesystem::open(img).unwrap_err() {
        Ext4Error::InvalidLayout { reason } => assert_eq!(reason, "inodes_per_group is 0"),
        other => panic!("expected InvalidLayout, got {:?}", other),
    }
}

#[test]
fn test_open_gdt_past_image_end_returns_io() {
    let mut img = build_image(0o040755, 2);
    img.truncate(BLOCK_SIZE + 8);
    let err = Filesystem::open(img).unwrap_err();
    assert!(matches!(err, Ext4Error::Io { offset: 4096, len: 32 }));
}

#[test]
fn test_read_inode_in_missing_group_returns_invalid_layout() {
    let mut img = build_image(0o040755, 2);
    // 64 inodes across groups of 32, but only one group descriptor.
    write_u32(&mut img, 1024 + SB_INODES_COUNT, 64);
    let fs = Filesystem::open(img).unwrap();
    match fs.read_inode(40).unwrap_err() {
        Ext4Error::InvalidLayout { reason } => {
            assert_eq!(reason, "inode references non-existent group")
        }
        other => panic!("expected InvalidLayout, got {:?}", other),
    }
}

#[test]
fn test_resolve_depth_over_cap_returns_max_depth_exceeded() {
    let mut img = build_image(0o040755, 2);
    let inode_off = inode_byte_offset(11);
    write_u16(&mut img, inode_off + I_MODE, 0o100644);
    write_u32(&mut img, inode_off + I_FLAGS, EXTENT_FLAG);
    write_extent_header(&mut img, inode_off + I_BLOCK, 1, 4, 1);
    write_extent_index(&mut img, inode_off + I_BLOCK + 12, 0, 8);
    // Block 8 is an index node pointing at itself: an endless tree.
    let node_off = 8 * BLOCK_SIZE;
    write_extent_header(&mut img, node_off, 1, 340, 1);
    write_extent_index(&mut img, node_off + 12, 0, 8);

    let fs = Filesystem::open(img).unwrap();
    let inode = fs.read_inode(11).unwrap();
    assert!(matches!(
        fs.resolve_logical_block(&inode, 0).unwrap_err(),
        Ext4Error::MaxExtentDepthExceeded { max: 5 }
    ));
}

#[test]
fn test_resolve_index_past_image_end_returns_io() {
    let mut img = build_image(0o040755, 2);
    let inode_off = inode_byte_offset(11);
    write_u16(&mut img, inode_off + I_MODE, 0o100644);
    write_u32(&mut img, inode_off + I_FLAGS, EXTENT_FLAG);
    write_extent_header(&mut img, inode_off + I_BLOCK, 2, 4, 1);
    write_extent_index(&mut img, inode_off + I_BLOCK + 12, 0, 8);
    write_extent_index(&mut img, inode_off + I_BLOCK + 24, 10, 100);
    let fs = Filesystem::open(img).unwrap();
    let inode = fs.read_inode(11).unwrap();
    assert!(matches!(
        fs.resolve_logical_block(&inode, 20).unwrap_err(),
        Ext4Error::Io { offset: 409600, len: 4096 }
    ));
    // Below the first index's start: a hole at the front of the file.
    let mut img = build_image(0o040755, 2);
    write_extent_header(&mut img, inode_off + I_BLOCK, 1, 4, 1);
    write_extent_index(&mut img, inode_off + I_BLOCK + 12, 5, 8);
    write_u32(&mut img, inode_off + I_FLAGS, EXTENT_FLAG);
    let fs = Filesystem::open(img).unwrap();
    let inode = fs.read_inode(11).unwrap();
    assert_eq!(fs.resolve_logical_block(&inode, 2).unwrap(), None);
}

#[test]
fn test_read_dir_of_non_directory_bytes_returns_dir_entry_error() {
    let mut img = build_image(0o040755, 2);
    write_inode_with_one_extent(&mut img, 11, 12, 0, 1, 6);
    write_data_at_block(&mut img, 6, &[1, 0, 0, 0, 4, 0, 0, 0, 0, 0, 0, 0]);
    let fs = Filesystem::open(img).unwrap();
    let inode = fs.read_inode(11).unwrap();
    assert!(matches!(
        fs.read_dir(&inode).unwrap_err(),
        Ext4Error::DirEntry(justext4::DirEntryDecodeError::RecLenBelowHeaderSize { rec_len: 4 })
    ));
}

#[test]
fn test_open_path_two_levels() {
    let mut img = build_image(0o040755, 2);
    setup_root_as_directory(&mut img, 6, 1);
    write_dir_entries_at_block(&mut img, 6, &[(2, b".", 2), (2, b"..", 2), (11, b"sub", 2)]);
    let inode_off = inode_byte_offset(11);
    write_u16(&mut img, inode_off + I_MODE, 0o040755);
    write_u32(&mut img, inode_off + I_SIZE_LO, BLOCK_SIZE as u32);
    write_u32(&mut img, inode_off + I_FLAGS, EXTENT_FLAG);
    write_extent_header(&mut img, inode_off + I_BLOCK, 1, 4, 0);
    write_extent_leaf(&mut img, inode_off + I_BLOCK + 12, 0, 1, 7);
    write_dir_entries_at_block(&mut img, 7, &[(11, b".", 2), (2, b"..", 2), (12, b"file", 1)]);
    let fs = Filesystem::open(img).unwrap();
    assert_eq!(fs.open_path("/sub/file").unwrap(), 12);
    assert_eq!(fs.open_path("/sub/..").unwrap(), 2);
    match fs.open_path("/sub/nope/x").unwrap_err() {
        Ext4Error::NotFound { name } => assert_eq!(name, b"nope"),
        other => panic!("expected NotFound, got {:?}", other),
    }
}

#[test]
fn resolve_reads_at_most_five_blocks() {
    let mut img = build_image(0o040755, 2);
    let inode_off = inode_byte_offset(11);
    write_u16(&mut img, inode_off + I_MODE, 0o100644);
    write_u32(&mut img, inode_off + I_FLAGS, EXTENT_FLAG);
    write_extent_header(&mut img, inode_off + I_BLOCK, 1, 4, 5);
    write_extent_index(&mut img, inode_off + I_BLOCK + 12, 0, 8);
    // Blocks 8..=11 chain to the next one; block 12 is a sixth level
    // whose index points past the end of the image.
    for b in 8..12u32 {
        let node_off = b as usize * BLOCK_SIZE;
        write_extent_header(&mut img, node_off, 1, 340, 1);
        write_extent_index(&mut img, node_off + 12, 0, (b + 1) as u64);
    }
    let node_off = 12 * BLOCK_SIZE;
    write_extent_header(&mut img, node_off, 1, 340, 1);
    write_extent_index(&mut img, node_off + 12, 0, 1_000_000);
    let fs = Filesystem::open(img).unwrap();
    let inode = fs.read_inode(11).unwrap();
    assert!(matches!(
        fs.resolve_logical_block(&inode, 0).unwrap_err(),
        Ext4Error::MaxExtentDepthExceeded { max: 5 }
    ));
}
