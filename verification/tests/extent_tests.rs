use justext4::{
    decode_extent_node, Extent, ExtentDecodeError, ExtentHeader, ExtentIndex, ExtentNode,
    EXTENT_HEADER_MAGIC, EXTENT_HEADER_SIZE,
};

fn write_u16(buf: &mut [u8], offset: usize, value: u16) {
    buf[offset..offset + 2].copy_from_slice(&value.to_le_bytes());
}

fn write_u32(buf: &mut [u8], offset: usize, value: u32) {
    buf[offset..offset + 4].copy_from_slice(&value.to_le_bytes());
}

fn write_header(buf: &mut [u8], entries: u16, max: u16, depth: u16) {
    write_u16(buf, 0, EXTENT_HEADER_MAGIC);
    write_u16(buf, 2, entries);
    write_u16(buf, 4, max);
    write_u16(buf, 6, depth);
    write_u32(buf, 8, 0);
}

#[test]
fn test_decode_header_bad_magic_returns_bad_magic_error() {
    let mut buf = vec![0u8; 12];
    write_u16(&mut buf, 0, 0xDEAD);
    let err = ExtentHeader::decode(&buf).unwrap_err();
    assert_eq!(err, ExtentDecodeError::BadMagic { found: 0xDEAD });
}

#[test]
fn test_decode_header_truncated_returns_input_too_small() {
    let buf = vec![0u8; 4];
    let err = ExtentHeader::decode(&buf).unwrap_err();
    assert_eq!(
        err,
        ExtentDecodeError::InputTooSmall {
            actual: 4,
            expected: EXTENT_HEADER_SIZE,
        }
    );
}

#[test]
fn test_decode_single_leaf_extent_logical_to_physical() {
    let mut buf = vec![0u8; 24];
    write_u32(&mut buf, 0, 0);
    write_u16(&mut buf, 4, 8);
    write_u16(&mut buf, 6, 0);
    write_u32(&mut buf, 8, 100);
    let ext = Extent::decode(&buf[..12]).unwrap();
    assert_eq!(ext.logical_block, 0);
    assert_eq!(ext.len, 8);
    assert_eq!(ext.physical_block, 100);
    assert!(!ext.uninit);
}

#[test]
fn test_decode_extent_uninit_flag_via_len_above_32768() {
    let mut buf = vec![0u8; 12];
    write_u32(&mut buf, 0, 0);
    write_u16(&mut buf, 4, 32768 + 100);
    write_u32(&mut buf, 8, 200);
    let ext = Extent::decode(&buf).unwrap();
    assert_eq!(ext.len, 100);
    assert!(ext.uninit);
}

#[test]
fn test_decode_extent_physical_block_combines_hi_lo() {
    let mut buf = vec![0u8; 12];
    write_u32(&mut buf, 0, 0);
    write_u16(&mut buf, 4, 1);
    write_u16(&mut buf, 6, 0x0001);
    write_u32(&mut buf, 8, 0x0000_0042);
    let ext = Extent::decode(&buf).unwrap();
    assert_eq!(ext.physical_block, 0x0001_0000_0042);
}

#[test]
fn test_decode_extent_index_leaf_block_combines_hi_lo() {
    let mut buf = vec![0u8; 12];
    write_u32(&mut buf, 0, 0);
    write_u32(&mut buf, 4, 0x0000_0099);
    write_u16(&mut buf, 8, 0x0002);
    let idx = ExtentIndex::decode(&buf).unwrap();
    assert_eq!(idx.logical_block, 0);
    assert_eq!(idx.leaf_block, 0x0002_0000_0099);
}

#[test]
fn test_decode_node_truncated_body_returns_input_too_small() {
    let mut buf = vec![0u8; 24];
    write_header(&mut buf, 4, 4, 0);
    let err = decode_extent_node(&buf).unwrap_err();
    assert_eq!(
        err,
        ExtentDecodeError::InputTooSmall {
            actual: 24,
            expected: 12 + 4 * 12,
        }
    );
}

#[test]
fn test_decode_node_empty_leaf_returns_empty_extents_vec() {
    let mut buf = vec![0u8; 12];
    write_header(&mut buf, 0, 4, 0);
    let node = decode_extent_node(&buf).unwrap();
    match node {
        ExtentNode::Leaf { header, extents } => {
            assert_eq!(header.entries, 0);
            assert!(extents.is_empty());
        }
        ExtentNode::Internal { .. } => panic!("expected Leaf for depth 0"),
    }
}

#[test]
fn test_decode_node_depth_1_returns_internal_with_indices() {
    let mut buf = vec![0u8; 36];
    write_header(&mut buf, 2, 4, 1);
    write_u32(&mut buf, 12, 0);
    write_u32(&mut buf, 16, 100);
    write_u16(&mut buf, 20, 0);
    write_u32(&mut buf, 24, 1000);
    write_u32(&mut buf, 28, 200);
    write_u16(&mut buf, 32, 0);
    let node = decode_extent_node(&buf).unwrap();
    match node {
        ExtentNode::Internal { header, indices } => {
            assert_eq!(header.depth, 1);
            assert_eq!(indices.len(), 2);
            assert_eq!(indices[0].logical_block, 0);
            assert_eq!(indices[0].leaf_block, 100);
            assert_eq!(indices[1].logical_block, 1000);
            assert_eq!(indices[1].leaf_block, 200);
        }
        ExtentNode::Leaf { .. } => panic!("expected Internal for depth 1"),
    }
}

#[test]
fn test_decode_node_realistic_two_extent_leaf_round_trips() {
    let mut buf = vec![0u8; 12 + 24];
    write_header(&mut buf, 2, 4, 0);
    write_u32(&mut buf, 12, 0);
    write_u16(&mut buf, 16, 8);
    write_u16(&mut buf, 18, 0);
    write_u32(&mut buf, 20, 100);
    write_u32(&mut buf, 24, 100);
    write_u16(&mut buf, 28, 8);
    write_u16(&mut buf, 30, 0);
    write_u32(&mut buf, 32, 200);
    let node = decode_extent_node(&buf).unwrap();
    match node {
        ExtentNode::Leaf { header, extents } => {
            assert_eq!(header.entries, 2);
            assert!(header.is_leaf());
            assert_eq!(extents.len(), 2);
            assert_eq!(extents[0].logical_block, 0);
            assert_eq!(extents[0].physical_block, 100);
            assert_eq!(extents[1].logical_block, 100);
            assert_eq!(extents[1].physical_block, 200);
        }
        ExtentNode::Internal { .. } => panic!("expected Leaf"),
    }
}

// ── further cases ────────────────────────────────────────────────

#[test]
fn test_decode_extent_len_exactly_32768_is_initialised() {
    let mut buf = vec![0u8; 12];
    write_u16(&mut buf, 4, 32768);
    let ext = Extent::decode(&buf).unwrap();
    assert_eq!(ext.len, 32768);
    assert!(!ext.uninit);
}

#[test]
fn test_decode_short_entries_return_input_too_small() {
    let buf = vec![0u8; 11];
    assert_eq!(
        Extent::decode(&buf).unwrap_err(),
        ExtentDecodeError::InputTooSmall { actual: 11, expected: 12 }
    );
    assert_eq!(
        ExtentIndex::decode(&buf).unwrap_err(),
        ExtentDecodeError::InputTooSmall { actual: 11, expected: 12 }
    );
}

#[test]
fn test_decode_node_bad_magic_propagates() {
    let buf = vec![0u8; 60];
    assert_eq!(
        decode_extent_node(&buf).unwrap_err(),
        ExtentDecodeError::BadMagic { found: 0 }
    );
}

#[test]
fn test_decode_header_fields_and_generation() {
    let mut buf = vec![0u8; 12];
    write_header(&mut buf, 3, 4, 2);
    write_u32(&mut buf, 8, 0xDEAD_BEEF);
    let h = ExtentHeader::decode(&buf).unwrap();
    assert_eq!(h.entries, 3);
    assert_eq!(h.max, 4);
    assert_eq!(h.depth, 2);
    assert_eq!(h.generation, 0xDEAD_BEEF);
    assert!(!h.is_leaf());
}
