use justext4::{
    decode_dir_block, DirEntry, DirEntryDecodeError, DirEntryEncodeError, DirEntryFileType,
    DIR_ENTRY_ALIGNMENT, DIR_ENTRY_HEADER_SIZE,
};

fn write_u16(buf: &mut [u8], offset: usize, value: u16) {
    buf[offset..offset + 2].copy_from_slice(&value.to_le_bytes());
}

fn write_u32(buf: &mut [u8], offset: usize, value: u32) {
    buf[offset..offset + 4].copy_from_slice(&value.to_le_bytes());
}

fn write_entry(
    buf: &mut [u8],
    offset: usize,
    inode: u32,
    name: &[u8],
    file_type: u8,
    rec_len_override: Option<u16>,
) -> usize {
    let payload = DIR_ENTRY_HEADER_SIZE + name.len();
    let padded = payload.div_ceil(DIR_ENTRY_ALIGNMENT) * DIR_ENTRY_ALIGNMENT;
    let rec_len = rec_len_override.unwrap_or(padded as u16);
    write_u32(buf, offset, inode);
    write_u16(buf, offset + 4, rec_len);
    buf[offset + 6] = name.len() as u8;
    buf[offset + 7] = file_type;
    buf[offset + DIR_ENTRY_HEADER_SIZE..offset + DIR_ENTRY_HEADER_SIZE + name.len()]
        .copy_from_slice(name);
    rec_len as usize
}

#[test]
fn test_decode_truncated_header_returns_input_too_small() {
    let buf = vec![0u8; 4];
    let err = DirEntry::decode(&buf).unwrap_err();
    assert_eq!(
        err,
        DirEntryDecodeError::InputTooSmall {
            actual: 4,
            expected: DIR_ENTRY_HEADER_SIZE,
        }
    );
}

#[test]
fn test_decode_rec_len_zero_is_rejected() {
    let mut buf = vec![0u8; 16];
    write_u32(&mut buf, 0, 11);
    write_u16(&mut buf, 4, 0);
    let err = DirEntry::decode(&buf).unwrap_err();
    assert_eq!(err, DirEntryDecodeError::RecLenBelowHeaderSize { rec_len: 0 });
}

#[test]
fn test_decode_rec_len_smaller_than_header_is_rejected() {
    let mut buf = vec![0u8; 16];
    write_u32(&mut buf, 0, 11);
    write_u16(&mut buf, 4, 4);
    let err = DirEntry::decode(&buf).unwrap_err();
    assert_eq!(err, DirEntryDecodeError::RecLenBelowHeaderSize { rec_len: 4 });
}

#[test]
fn test_decode_unaligned_rec_len_is_rejected() {
    let mut buf = vec![0u8; 16];
    write_u32(&mut buf, 0, 11);
    write_u16(&mut buf, 4, 10);
    let err = DirEntry::decode(&buf).unwrap_err();
    assert_eq!(err, DirEntryDecodeError::RecLenNotAligned { rec_len: 10 });
}

#[test]
fn test_decode_name_len_exceeding_rec_len_is_rejected() {
    let mut buf = vec![0u8; 16];
    write_u32(&mut buf, 0, 11);
    write_u16(&mut buf, 4, 16);
    buf[6] = 200;
    buf[7] = 1;
    let err = DirEntry::decode(&buf).unwrap_err();
    assert_eq!(
        err,
        DirEntryDecodeError::NameLenExceedsRecLen {
            name_len: 200,
            rec_len: 16,
        }
    );
}

#[test]
fn test_decode_realistic_regular_file_entry_round_trips() {
    let mut buf = vec![0u8; 32];
    write_entry(&mut buf, 0, 12, b"hello.txt", 1, None);
    let entry = DirEntry::decode(&buf).unwrap();
    assert_eq!(entry.inode, 12);
    assert_eq!(entry.name, b"hello.txt");
    assert_eq!(entry.file_type(), DirEntryFileType::RegularFile);
    assert_eq!(entry.rec_len, 20);
    assert!(!entry.is_unused());
}

#[test]
fn test_file_type_2_decodes_to_directory() {
    let mut buf = vec![0u8; 32];
    write_entry(&mut buf, 0, 11, b"subdir", 2, None);
    let entry = DirEntry::decode(&buf).unwrap();
    assert_eq!(entry.file_type(), DirEntryFileType::Directory);
}

#[test]
fn test_inode_zero_flags_entry_as_unused() {
    let mut buf = vec![0u8; 16];
    write_entry(&mut buf, 0, 0, b"x", 1, None);
    let entry = DirEntry::decode(&buf).unwrap();
    assert!(entry.is_unused());
}

#[test]
fn test_file_type_byte_above_7_returns_reserved_variant() {
    let mut buf = vec![0u8; 16];
    write_entry(&mut buf, 0, 12, b"x", 99, None);
    let entry = DirEntry::decode(&buf).unwrap();
    assert_eq!(entry.file_type(), DirEntryFileType::Reserved(99));
}

#[test]
fn test_decode_dir_block_walks_two_entries_by_rec_len() {
    let mut buf = vec![0u8; 64];
    let stride = write_entry(&mut buf, 0, 12, b"a.txt", 1, None);
    let last_rec = 64 - stride;
    write_entry(&mut buf, stride, 13, b"b.txt", 1, Some(last_rec as u16));

    let entries = decode_dir_block(&buf).unwrap();
    assert_eq!(entries.len(), 2);
    assert_eq!(entries[0].name, b"a.txt");
    assert_eq!(entries[0].inode, 12);
    assert_eq!(entries[1].name, b"b.txt");
    assert_eq!(entries[1].inode, 13);
}

#[test]
fn test_decode_dir_block_with_zero_rec_len_does_not_loop() {
    let mut buf = vec![0u8; 16];
    write_u32(&mut buf, 0, 11);
    let err = decode_dir_block(&buf).unwrap_err();
    assert_eq!(err, DirEntryDecodeError::RecLenBelowHeaderSize { rec_len: 0 });
}

#[test]
fn test_decode_dir_block_realistic_root_directory_layout() {
    let mut buf = vec![0u8; 64];
    let s1 = write_entry(&mut buf, 0, 2, b".", 2, Some(12));
    let s2 = write_entry(&mut buf, s1, 2, b"..", 2, Some(12));
    let off3 = s1 + s2;
    let last = (64 - off3) as u16;
    write_entry(&mut buf, off3, 11, b"lost+found", 2, Some(last));

    let entries = decode_dir_block(&buf).unwrap();
    assert_eq!(entries.len(), 3);
    assert_eq!(entries[0].name, b".");
    assert_eq!(entries[0].file_type(), DirEntryFileType::Directory);
    assert_eq!(entries[1].name, b"..");
    assert_eq!(entries[2].name, b"lost+found");
    assert_eq!(entries[2].inode, 11);
}

#[test]
fn test_dir_entry_encode_then_decode_round_trips() {
    let e1 = DirEntry {
        inode: 11,
        rec_len: 24,
        file_type_raw: 1,
        name: b"hello.txt".to_vec(),
    };
    let mut buf = vec![0xAAu8; 32];
    e1.encode_into(&mut buf).unwrap();
    let e2 = DirEntry::decode(&buf).unwrap();
    assert_eq!(e1, e2);
    assert!(buf[17..24].iter().all(|&b| b == 0));
}

#[test]
fn test_dir_entry_encode_rejects_rec_len_below_header() {
    let e = DirEntry {
        inode: 1,
        rec_len: 4,
        file_type_raw: 1,
        name: vec![],
    };
    let mut buf = vec![0u8; 16];
    let err = e.encode_into(&mut buf).unwrap_err();
    assert_eq!(err, DirEntryEncodeError::RecLenBelowHeaderSize { rec_len: 4 });
}

#[test]
fn test_dir_entry_encode_rejects_unaligned_rec_len() {
    let e = DirEntry {
        inode: 1,
        rec_len: 10,
        file_type_raw: 1,
        name: vec![],
    };
    let mut buf = vec![0u8; 16];
    let err = e.encode_into(&mut buf).unwrap_err();
    assert_eq!(err, DirEntryEncodeError::RecLenNotAligned { rec_len: 10 });
}

// ── further cases ────────────────────────────────────────────────

#[test]
fn test_decode_name_past_buffer_end_returns_input_too_small() {
    let mut buf = vec![0u8; 12];
    write_u32(&mut buf, 0, 11);
    write_u16(&mut buf, 4, 16);
    buf[6] = 6;
    let err = DirEntry::decode(&buf).unwrap_err();
    assert_eq!(err, DirEntryDecodeError::InputTooSmall { actual: 12, expected: 14 });
}

#[test]
fn test_decode_dir_block_trailing_bytes_below_header() {
    let mut buf = vec![0u8; 16];
    write_entry(&mut buf, 0, 2, b".", 2, Some(12));
    let err = decode_dir_block(&buf).unwrap_err();
    assert_eq!(err, DirEntryDecodeError::TrailingBytesBelowHeaderSize { trailing: 4 });
}

#[test]
fn test_decode_dir_block_empty_buffer_has_no_entries() {
    let entries = decode_dir_block(&[]).unwrap();
    assert!(entries.is_empty());
}

#[test]
fn test_file_type_from_byte_every_value() {
    let expected = [
        DirEntryFileType::Unknown,
        DirEntryFileType::RegularFile,
        DirEntryFileType::Directory,
        DirEntryFileType::CharacterDevice,
        DirEntryFileType::BlockDevice,
        DirEntryFileType::Fifo,
        DirEntryFileType::Socket,
        DirEntryFileType::Symlink,
    ];
    for (b, t) in expected.iter().enumerate() {
        assert_eq!(DirEntryFileType::from_byte(b as u8), *t);
    }
    assert_eq!(DirEntryFileType::from_byte(8), DirEntryFileType::Reserved(8));
}

#[test]
fn test_dir_entry_encode_remaining_errors_leave_buffer_untouched() {
    let long = DirEntry { inode: 1, rec_len: 268, file_type_raw: 1, name: vec![b'a'; 256] };
    let mut buf = vec![0x55u8; 300];
    assert_eq!(
        long.encode_into(&mut buf).unwrap_err(),
        DirEntryEncodeError::NameTooLong { name_len: 256 }
    );
    assert!(buf.iter().all(|&b| b == 0x55));

    let tight = DirEntry { inode: 1, rec_len: 12, file_type_raw: 1, name: b"hello".to_vec() };
    assert_eq!(
        tight.encode_into(&mut buf).unwrap_err(),
        DirEntryEncodeError::NameLenExceedsRecLen { name_len: 5, rec_len: 12 }
    );

    let ok = DirEntry { inode: 1, rec_len: 16, file_type_raw: 1, name: b"abc".to_vec() };
    let mut small = vec![0u8; 12];
    assert_eq!(
        ok.encode_into(&mut small).unwrap_err(),
        DirEntryEncodeError::OutputTooSmall { actual: 12, expected: 16 }
    );
    assert!(small.iter().all(|&b| b == 0));
}

#[test]
fn test_dir_entry_encode_leaves_bytes_past_record() {
    let e = DirEntry { inode: 0x0102_0304, rec_len: 12, file_type_raw: 2, name: b"ab".to_vec() };
    let mut buf = vec![0xEEu8; 20];
    e.encode_into(&mut buf).unwrap();
    assert_eq!(&buf[..12], &[0x04, 0x03, 0x02, 0x01, 12, 0, 2, 2, b'a', b'b', 0, 0]);
    assert!(buf[12..].iter().all(|&b| b == 0xEE));
}

#[test]
fn test_name_str_lossy_replaces_invalid_bytes() {
    let e = DirEntry { inode: 1, rec_len: 12, file_type_raw: 1, name: vec![b'a', 0xFF, b'b'] };
    assert_eq!(e.name_str_lossy(), "a\u{FFFD}b");
    let ok = DirEntry { inode: 1, rec_len: 12, file_type_raw: 1, name: b"ok".to_vec() };
    assert_eq!(ok.name_str_lossy(), "ok");
}
