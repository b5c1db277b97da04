//! Ext4 extent tree nodes: a 12-byte header followed by 12-byte
//! entries, leaf extents at depth 0 and index entries above.

use vstd::prelude::*;
use crate::le::{
    le_u16, le_u32, read_u16, read_u32, split_u64, write_u16, write_u32, lemma_le_u16_same_bytes,
    lemma_le_u32_same_bytes,
};

verus! {

/// Magic at the start of every extent header.
pub const EXTENT_HEADER_MAGIC: u16 = 0xF30A;

/// Size of the extent header on disk.
pub const EXTENT_HEADER_SIZE: usize = 12;

/// Size of an extent or extent-index entry.
pub const EXTENT_ENTRY_SIZE: usize = 12;

/// Raw `ee_len` values above this mark an uninitialised extent whose
/// length is the raw value minus this.
pub const EXTENT_UNINIT_THRESHOLD: u16 = 32768;

/// Decoded extent header.
#[derive(Debug, Clone, PartialEq, Eq, Structural)]
pub struct ExtentHeader {
    /// Valid entries after the header.
    pub entries: u16,
    /// Capacity of the node.
    pub max: u16,
    /// 0 for leaves, above 0 for index nodes.
    pub depth: u16,
    /// `eh_generation`, verbatim.
    pub generation: u32,
}

/// Leaf entry: a run of physical blocks mapped to a logical range.
#[derive(Debug, Clone, PartialEq, Eq, Structural)]
pub struct Extent {
    /// First logical block covered.
    pub logical_block: u32,
    /// Run length, with the uninit offset already removed.
    pub len: u16,
    /// 48-bit physical start block.
    pub physical_block: u64,
    /// True iff the run is preallocated but unwritten.
    pub uninit: bool,
}

/// Index entry: pointer to the next-level node.
#[derive(Debug, Clone, PartialEq, Eq, Structural)]
pub struct ExtentIndex {
    /// First logical block covered by the subtree.
    pub logical_block: u32,
    /// 48-bit block holding the next-level node.
    pub leaf_block: u64,
}

/// A decoded node: header plus its entries, typed by depth.
#[derive(Debug, Clone, PartialEq, Eq)]
pub enum ExtentNode {
    Leaf { header: ExtentHeader, extents: Vec<Extent> },
    Internal { header: ExtentHeader, indices: Vec<ExtentIndex> },
}

/// Why an extent buffer was rejected.
#[derive(Debug, PartialEq, Eq, Structural)]
pub enum ExtentDecodeError {
    /// The buffer is shorter than what must be read.
    InputTooSmall { actual: usize, expected: usize },
    /// The header magic is not 0xF30A.
    BadMagic { found: u16 },
}

/// Why an extent header or leaf entry could not be encoded.
#[derive(Debug, PartialEq, Eq, Structural)]
pub enum ExtentEncodeError {
    /// The output buffer is shorter than the 12 bytes to write.
    OutputTooSmall { actual: usize, expected: usize },
    /// The length has no raw encoding: an initialised run holds at most
    /// 32768 blocks, an uninitialised one 1 to 32767.
    LenOutOfRange { len: u16, uninit: bool },
    /// The physical block does not fit 48 bits.
    PhysicalBlockOutOfRange { physical_block: u64 },
}

/// Largest block address an extent holds (48 bits).
pub const MAX_PHYSICAL_BLOCK: u64 = 0xFFFF_FFFF_FFFF;

/// The raw `ee_len` that encodes a run of `len` blocks.
pub open spec fn raw_extent_len(len: u16, uninit: bool) -> int {
    if uninit {
        len + EXTENT_UNINIT_THRESHOLD
    } else {
        len as int
    }
}

/// The error, if any, that encoding a header into `out_len` bytes yields.
pub open spec fn extent_header_encode_error(out_len: int) -> Option<ExtentEncodeError> {
    if out_len < EXTENT_HEADER_SIZE {
        Some(
            ExtentEncodeError::OutputTooSmall {
                actual: out_len as usize,
                expected: EXTENT_HEADER_SIZE,
            },
        )
    } else {
        None
    }
}

/// The error, if any, that encoding `e` into `out_len` bytes yields.
pub open spec fn extent_encode_error(e: Extent, out_len: int) -> Option<ExtentEncodeError> {
    if (e.uninit && (e.len == 0 || e.len >= EXTENT_UNINIT_THRESHOLD)) || (!e.uninit && e.len
        > EXTENT_UNINIT_THRESHOLD) {
        Some(ExtentEncodeError::LenOutOfRange { len: e.len, uninit: e.uninit })
    } else if e.physical_block > MAX_PHYSICAL_BLOCK {
        Some(ExtentEncodeError::PhysicalBlockOutOfRange { physical_block: e.physical_block })
    } else if out_len < EXTENT_ENTRY_SIZE {
        Some(
            ExtentEncodeError::OutputTooSmall {
                actual: out_len as usize,
                expected: EXTENT_ENTRY_SIZE,
            },
        )
    } else {
        None
    }
}

/// The error, if any, that decoding a header from `s` yields.
pub open spec fn extent_header_decode_error(s: Seq<u8>) -> Option<ExtentDecodeError> {
    if s.len() < EXTENT_HEADER_SIZE {
        Some(
            ExtentDecodeError::InputTooSmall {
                actual: s.len() as usize,
                expected: EXTENT_HEADER_SIZE,
            },
        )
    } else if le_u16(s, 0) != EXTENT_HEADER_MAGIC {
        Some(ExtentDecodeError::BadMagic { found: le_u16(s, 0) })
    } else {
        None
    }
}

/// The error, if any, that decoding one 12-byte entry from `s` yields.
pub open spec fn extent_entry_decode_error(s: Seq<u8>) -> Option<ExtentDecodeError> {
    if s.len() < EXTENT_ENTRY_SIZE {
        Some(
            ExtentDecodeError::InputTooSmall {
                actual: s.len() as usize,
                expected: EXTENT_ENTRY_SIZE,
            },
        )
    } else {
        None
    }
}

/// Bytes a node with `entries` entries occupies.
pub open spec fn node_size(entries: u16) -> int {
    EXTENT_HEADER_SIZE + EXTENT_ENTRY_SIZE * entries
}

/// The `i`-th 12-byte entry of the node in `s`.
pub open spec fn node_entry(s: Seq<u8>, i: int) -> Seq<u8> {
    s.subrange(EXTENT_HEADER_SIZE + EXTENT_ENTRY_SIZE * i, EXTENT_HEADER_SIZE
        + EXTENT_ENTRY_SIZE * i + EXTENT_ENTRY_SIZE)
}

/// The error, if any, that decoding a whole node from `s` yields.
pub open spec fn extent_node_decode_error(s: Seq<u8>) -> Option<ExtentDecodeError> {
    if extent_header_decode_error(s) is Some {
        extent_header_decode_error(s)
    } else if s.len() < node_size(le_u16(s, 2)) {
        Some(
            ExtentDecodeError::InputTooSmall {
                actual: s.len() as usize,
                expected: node_size(le_u16(s, 2)) as usize,
            },
        )
    } else {
        None
    }
}

impl ExtentHeader {
    /// Every field is what the header at the start of `s` holds.
    pub open spec fn decoded_from(&self, s: Seq<u8>) -> bool {
        &&& self.entries == le_u16(s, 2)
        &&& self.max == le_u16(s, 4)
        &&& self.depth == le_u16(s, 6)
        &&& self.generation == le_u32(s, 8)
    }

    /// Decode the 12-byte header at the start of `buf`, checking the magic.
    pub fn decode(buf: &[u8]) -> (r: Result<Self, ExtentDecodeError>)
        ensures
            match r {
                Ok(h) => extent_header_decode_error(buf@) is None && h.decoded_from(buf@),
                Err(e) => extent_header_decode_error(buf@) == Some(e),
            },
    {
        if buf.len() < EXTENT_HEADER_SIZE {
            return Err(
                ExtentDecodeError::InputTooSmall { actual: buf.len(), expected: EXTENT_HEADER_SIZE },
            );
        }
        let magic = read_u16(buf, 0);
        if magic != EXTENT_HEADER_MAGIC {
            return Err(ExtentDecodeError::BadMagic { found: magic });
        }
        Ok(
            ExtentHeader {
                entries: read_u16(buf, 2),
                max: read_u16(buf, 4),
                depth: read_u16(buf, 6),
                generation: read_u32(buf, 8),
            },
        )
    }

    /// The first 12 bytes of `s` are exactly the encoding of `self`.
    pub open spec fn encoded_in(&self, s: Seq<u8>) -> bool {
        &&& s.len() >= EXTENT_HEADER_SIZE
        &&& le_u16(s, 0) == EXTENT_HEADER_MAGIC
        &&& le_u16(s, 2) == self.entries
        &&& le_u16(s, 4) == self.max
        &&& le_u16(s, 6) == self.depth
        &&& le_u32(s, 8) == self.generation
    }

    /// Encode the 12-byte header (magic first) at the start of `buf`;
    /// the bytes after it are left as they are.
    pub fn encode_into(&self, buf: &mut [u8]) -> (r: Result<(), ExtentEncodeError>)
        ensures
            final(buf)@.len() == old(buf)@.len(),
            match r {
                Ok(()) => {
                    &&& extent_header_encode_error(old(buf)@.len() as int) is None
                    &&& self.encoded_in(final(buf)@)
                    &&& final(buf)@.skip(EXTENT_HEADER_SIZE as int) == old(buf)@.skip(
                        EXTENT_HEADER_SIZE as int,
                    )
                },
                Err(e) => {
                    &&& extent_header_encode_error(old(buf)@.len() as int) == Some(e)
                    &&& final(buf)@ == old(buf)@
                },
            },
    {
        if buf.len() < EXTENT_HEADER_SIZE {
            return Err(
                ExtentEncodeError::OutputTooSmall { actual: buf.len(), expected: EXTENT_HEADER_SIZE },
            );
        }
        write_u16(buf, 0, EXTENT_HEADER_MAGIC);
        write_u16(buf, 2, self.entries);
        write_u16(buf, 4, self.max);
        write_u16(buf, 6, self.depth);
        write_u32(buf, 8, self.generation);
        proof {
            assert(buf@.skip(EXTENT_HEADER_SIZE as int) =~= old(buf)@.skip(
                EXTENT_HEADER_SIZE as int,
            ));
        }
        Ok(())
    }

    /// True iff this header tags a leaf node.
    pub fn is_leaf(&self) -> (r: bool)
        ensures
            r == (self.depth == 0),
    {
        self.depth == 0
    }
}

impl Extent {
    /// Every field is what the leaf entry at the start of `s` holds.
    pub open spec fn decoded_from(&self, s: Seq<u8>) -> bool {
        let raw_len = le_u16(s, 4);
        &&& self.logical_block == le_u32(s, 0)
        &&& self.uninit == (raw_len > EXTENT_UNINIT_THRESHOLD)
        &&& self.len == if raw_len > EXTENT_UNINIT_THRESHOLD {
            (raw_len - EXTENT_UNINIT_THRESHOLD) as u16
        } else {
            raw_len
        }
        &&& self.physical_block == le_u16(s, 6) as int * 0x1_0000_0000 + le_u32(s, 8) as int
    }

    /// Decode one 12-byte leaf entry.
    pub fn decode(buf: &[u8]) -> (r: Result<Self, ExtentDecodeError>)
        ensures
            match r {
                Ok(e) => extent_entry_decode_error(buf@) is None && e.decoded_from(buf@),
                Err(e) => extent_entry_decode_error(buf@) == Some(e),
            },
    {
        if buf.len() < EXTENT_ENTRY_SIZE {
            return Err(
                ExtentDecodeError::InputTooSmall { actual: buf.len(), expected: EXTENT_ENTRY_SIZE },
            );
        }
        let logical_block = read_u32(buf, 0);
        let raw_len = read_u16(buf, 4);
        let start_hi = read_u16(buf, 6) as u64;
        let start_lo = read_u32(buf, 8) as u64;

        let (len, uninit) = if raw_len > EXTENT_UNINIT_THRESHOLD {
            (raw_len - EXTENT_UNINIT_THRESHOLD, true)
        } else {
            (raw_len, false)
        };
        let physical_block = (start_hi << 32u64) | start_lo;
        assert(start_hi < 0x10000 && start_lo < 0x1_0000_0000 ==> physical_block == start_hi
            * 0x1_0000_0000 + start_lo) by (bit_vector)
            requires
                physical_block == (start_hi << 32u64) | start_lo,
        ;
        Ok(Extent { logical_block, len, physical_block, uninit })
    }
}

impl Extent {
    /// The first 12 bytes of `s` are exactly the encoding of `self`: the
    /// raw length carries the uninit offset, the physical block is split
    /// into its 16-bit hi and 32-bit lo halves.
    pub open spec fn encoded_in(&self, s: Seq<u8>) -> bool {
        &&& s.len() >= EXTENT_ENTRY_SIZE
        &&& le_u32(s, 0) == self.logical_block
        &&& le_u16(s, 4) == raw_extent_len(self.len, self.uninit)
        &&& le_u16(s, 6) == self.physical_block / 0x1_0000_0000
        &&& le_u32(s, 8) == self.physical_block % 0x1_0000_0000
    }

    /// Encode the 12-byte leaf entry at the start of `buf`; the bytes
    /// after it are left as they are.
    pub fn encode_into(&self, buf: &mut [u8]) -> (r: Result<(), ExtentEncodeError>)
        ensures
            final(buf)@.len() == old(buf)@.len(),
            match r {
                Ok(()) => {
                    &&& extent_encode_error(*self, old(buf)@.len() as int) is None
                    &&& self.encoded_in(final(buf)@)
                    &&& final(buf)@.skip(EXTENT_ENTRY_SIZE as int) == old(buf)@.skip(
                        EXTENT_ENTRY_SIZE as int,
                    )
                },
                Err(e) => {
                    &&& extent_encode_error(*self, old(buf)@.len() as int) == Some(e)
                    &&& final(buf)@ == old(buf)@
                },
            },
    {
        if (self.uninit && (self.len == 0 || self.len >= EXTENT_UNINIT_THRESHOLD)) || (!self.uninit
            && self.len > EXTENT_UNINIT_THRESHOLD) {
            return Err(ExtentEncodeError::LenOutOfRange { len: self.len, uninit: self.uninit });
        }
        if self.physical_block > MAX_PHYSICAL_BLOCK {
            return Err(
                ExtentEncodeError::PhysicalBlockOutOfRange { physical_block: self.physical_block },
            );
        }
        if buf.len() < EXTENT_ENTRY_SIZE {
            return Err(
                ExtentEncodeError::OutputTooSmall { actual: buf.len(), expected: EXTENT_ENTRY_SIZE },
            );
        }
        let raw_len: u16 = if self.uninit {
            self.len + EXTENT_UNINIT_THRESHOLD
        } else {
            self.len
        };
        let (lo, hi) = split_u64(self.physical_block);
        write_u32(buf, 0, self.logical_block);
        write_u16(buf, 4, raw_len);
        write_u16(buf, 6, hi as u16);
        write_u32(buf, 8, lo);
        proof {
            assert(buf@.skip(EXTENT_ENTRY_SIZE as int) =~= old(buf)@.skip(
                EXTENT_ENTRY_SIZE as int,
            ));
        }
        Ok(())
    }
}

/// A header fixes the 12 bytes it is encoded in.
pub proof fn lemma_extent_header_encoding_unique(h: ExtentHeader, a: Seq<u8>, b: Seq<u8>)
    requires
        h.encoded_in(a),
        h.encoded_in(b),
    ensures
        a.take(EXTENT_HEADER_SIZE as int) == b.take(EXTENT_HEADER_SIZE as int),
{
    lemma_le_u16_same_bytes(a, b, 0);
    lemma_le_u16_same_bytes(a, b, 2);
    lemma_le_u16_same_bytes(a, b, 4);
    lemma_le_u16_same_bytes(a, b, 6);
    lemma_le_u32_same_bytes(a, b, 8);
    assert forall|k: int| 0 <= k < EXTENT_HEADER_SIZE implies a.take(EXTENT_HEADER_SIZE as int)[k]
        == b.take(EXTENT_HEADER_SIZE as int)[k] by {
        assert(a.take(EXTENT_HEADER_SIZE as int)[k] == a[k]);
        assert(b.take(EXTENT_HEADER_SIZE as int)[k] == b[k]);
    }
    assert(a.take(EXTENT_HEADER_SIZE as int) =~= b.take(EXTENT_HEADER_SIZE as int));
}

/// A leaf entry fixes the 12 bytes it is encoded in.
pub proof fn lemma_extent_encoding_unique(e: Extent, a: Seq<u8>, b: Seq<u8>)
    requires
        e.encoded_in(a),
        e.encoded_in(b),
    ensures
        a.take(EXTENT_ENTRY_SIZE as int) == b.take(EXTENT_ENTRY_SIZE as int),
{
    lemma_le_u32_same_bytes(a, b, 0);
    lemma_le_u16_same_bytes(a, b, 4);
    lemma_le_u16_same_bytes(a, b, 6);
    lemma_le_u32_same_bytes(a, b, 8);
    assert forall|k: int| 0 <= k < EXTENT_ENTRY_SIZE implies a.take(EXTENT_ENTRY_SIZE as int)[k]
        == b.take(EXTENT_ENTRY_SIZE as int)[k] by {
        assert(a.take(EXTENT_ENTRY_SIZE as int)[k] == a[k]);
        assert(b.take(EXTENT_ENTRY_SIZE as int)[k] == b[k]);
    }
    assert(a.take(EXTENT_ENTRY_SIZE as int) =~= b.take(EXTENT_ENTRY_SIZE as int));
}

/// Encoding then decoding a header gives it back.
pub proof fn lemma_extent_header_encode_decode(h: ExtentHeader, s: Seq<u8>)
    requires
        h.encoded_in(s),
    ensures
        extent_header_decode_error(s) is None,
        h.decoded_from(s),
{
}

/// Encoding then decoding a leaf entry gives it back.
pub proof fn lemma_extent_encode_decode(e: Extent, s: Seq<u8>)
    requires
        extent_encode_error(e, s.len() as int) is None,
        e.encoded_in(s),
    ensures
        extent_entry_decode_error(s) is None,
        e.decoded_from(s),
        extent_at(s) == e,
{
}

impl ExtentIndex {
    /// Every field is what the index entry at the start of `s` holds.
    pub open spec fn decoded_from(&self, s: Seq<u8>) -> bool {
        &&& self.logical_block == le_u32(s, 0)
        &&& self.leaf_block == le_u16(s, 8) as int * 0x1_0000_0000 + le_u32(s, 4) as int
    }

    /// Decode one 12-byte index entry.
    pub fn decode(buf: &[u8]) -> (r: Result<Self, ExtentDecodeError>)
        ensures
            match r {
                Ok(e) => extent_entry_decode_error(buf@) is None && e.decoded_from(buf@),
                Err(e) => extent_entry_decode_error(buf@) == Some(e),
            },
    {
        if buf.len() < EXTENT_ENTRY_SIZE {
            return Err(
                ExtentDecodeError::InputTooSmall { actual: buf.len(), expected: EXTENT_ENTRY_SIZE },
            );
        }
        let leaf_lo = read_u32(buf, 4) as u64;
        let leaf_hi = read_u16(buf, 8) as u64;
        let leaf_block = (leaf_hi << 32u64) | leaf_lo;
        assert(leaf_hi < 0x10000 && leaf_lo < 0x1_0000_0000 ==> leaf_block == leaf_hi
            * 0x1_0000_0000 + leaf_lo) by (bit_vector)
            requires
                leaf_block == (leaf_hi << 32u64) | leaf_lo,
        ;
        Ok(ExtentIndex { logical_block: read_u32(buf, 0), leaf_block })
    }
}

/// The leaf entry stored at the start of `s`.
pub open spec fn extent_at(s: Seq<u8>) -> Extent {
    let raw_len = le_u16(s, 4);
    Extent {
        logical_block: le_u32(s, 0),
        len: if raw_len > EXTENT_UNINIT_THRESHOLD {
            (raw_len - EXTENT_UNINIT_THRESHOLD) as u16
        } else {
            raw_len
        },
        physical_block: (le_u16(s, 6) as int * 0x1_0000_0000 + le_u32(s, 8) as int) as u64,
        uninit: raw_len > EXTENT_UNINIT_THRESHOLD,
    }
}

/// The index entry stored at the start of `s`.
pub open spec fn index_at(s: Seq<u8>) -> ExtentIndex {
    ExtentIndex {
        logical_block: le_u32(s, 0),
        leaf_block: (le_u16(s, 8) as int * 0x1_0000_0000 + le_u32(s, 4) as int) as u64,
    }
}

/// The leaf entries of the node in `s`, as many as its header counts.
pub open spec fn node_extents(s: Seq<u8>) -> Seq<Extent> {
    Seq::new(le_u16(s, 2) as nat, |i: int| extent_at(node_entry(s, i)))
}

/// The index entries of the node in `s`, as many as its header counts.
pub open spec fn node_indices(s: Seq<u8>) -> Seq<ExtentIndex> {
    Seq::new(le_u16(s, 2) as nat, |i: int| index_at(node_entry(s, i)))
}

impl ExtentNode {
    /// The node is what the bytes `s` hold: its header, and one decoded
    /// entry per header entry, of the kind the depth calls for.
    pub open spec fn decoded_from(&self, s: Seq<u8>) -> bool {
        match self {
            ExtentNode::Leaf { header, extents } => {
                &&& header.decoded_from(s)
                &&& header.depth == 0
                &&& extents@ == node_extents(s)
            },
            ExtentNode::Internal { header, indices } => {
                &&& header.decoded_from(s)
                &&& header.depth != 0
                &&& indices@ == node_indices(s)
            },
        }
    }
}

/// Decode a complete extent-tree node (an inode's `i_block`, or one
/// block of a deeper tree).
pub fn decode_extent_node(buf: &[u8]) -> (r: Result<ExtentNode, ExtentDecodeError>)
    ensures
        match r {
            Ok(node) => extent_node_decode_error(buf@) is None && node.decoded_from(buf@),
            Err(e) => extent_node_decode_error(buf@) == Some(e),
        },
{
    let header = ExtentHeader::decode(buf)?;
    let body_offset = EXTENT_HEADER_SIZE;
    let entries = header.entries as usize;
    let body_size = entries * EXTENT_ENTRY_SIZE;

    if buf.len() < body_offset + body_size {
        return Err(
            ExtentDecodeError::InputTooSmall { actual: buf.len(), expected: body_offset + body_size },
        );
    }

    if header.is_leaf() {
        let mut extents: Vec<Extent> = Vec::new();
        let mut i: usize = 0;
        while i < entries
            invariant
                i <= entries,
                entries == header.entries,
                body_offset == EXTENT_HEADER_SIZE,
                body_offset + entries * EXTENT_ENTRY_SIZE <= buf.len(),
                extents@.len() == i,
                forall|j: int| 0 <= j < i ==> #[trigger] extents@[j] == extent_at(node_entry(buf@, j)),
            decreases entries - i,
        {
            assert(i * EXTENT_ENTRY_SIZE + EXTENT_ENTRY_SIZE <= entries * EXTENT_ENTRY_SIZE)
                by (nonlinear_arith)
                requires
                    i < entries,
            ;
            let off = body_offset + i * EXTENT_ENTRY_SIZE;
            let entry = vstd::slice::slice_subrange(buf, off, off + EXTENT_ENTRY_SIZE);
            match Extent::decode(entry) {
                Ok(e) => extents.push(e),
                Err(e) => return Err(e),
            }
            i = i + 1;
        }
        assert(extents@ =~= node_extents(buf@));
        Ok(ExtentNode::Leaf { header, extents })
    } else {
        let mut indices: Vec<ExtentIndex> = Vec::new();
        let mut i: usize = 0;
        while i < entries
            invariant
                i <= entries,
                entries == header.entries,
                body_offset == EXTENT_HEADER_SIZE,
                body_offset + entries * EXTENT_ENTRY_SIZE <= buf.len(),
                indices@.len() == i,
                forall|j: int| 0 <= j < i ==> #[trigger] indices@[j] == index_at(node_entry(buf@, j)),
            decreases entries - i,
        {
            assert(i * EXTENT_ENTRY_SIZE + EXTENT_ENTRY_SIZE <= entries * EXTENT_ENTRY_SIZE)
                by (nonlinear_arith)
                requires
                    i < entries,
            ;
            let off = body_offset + i * EXTENT_ENTRY_SIZE;
            let entry = vstd::slice::slice_subrange(buf, off, off + EXTENT_ENTRY_SIZE);
            match ExtentIndex::decode(entry) {
                Ok(e) => indices.push(e),
                Err(e) => return Err(e),
            }
            i = i + 1;
        }
        assert(indices@ =~= node_indices(buf@));
        Ok(ExtentNode::Internal { header, indices })
    }
}

/// An extent header decodes exactly when it has 12 bytes and the magic
/// 0xF30A at 0; its fields are then `eh_entries` at 2, `eh_max` at 4,
/// `eh_depth` at 6 and `eh_generation` at 8.
pub proof fn lemma_extent_header_field_offsets(h: ExtentHeader, s: Seq<u8>)
    ensures
        extent_header_decode_error(s) is None <==> (s.len() >= 12 && le_u16(s, 0) == 0xF30A),
        h.decoded_from(s) ==> h.entries == le_u16(s, 2) && h.max == le_u16(s, 4) && h.depth == le_u16(
            s,
            6,
        ) && h.generation == le_u32(s, 8),
{
}

/// An extent header written into `s` puts the magic 0xF30A at 0 and
/// `eh_entries`, `eh_max`, `eh_depth`, `eh_generation` at 2, 4, 6 and 8,
/// and so decodes back to itself.
pub proof fn lemma_extent_header_written_offsets(h: ExtentHeader, s: Seq<u8>)
    requires
        h.encoded_in(s),
    ensures
        s.len() >= 12,
        le_u16(s, 0) == 0xF30A,
        le_u16(s, 2) == h.entries,
        le_u16(s, 4) == h.max,
        le_u16(s, 6) == h.depth,
        le_u32(s, 8) == h.generation,
        extent_header_decode_error(s) is None,
        h.decoded_from(s),
{
}

/// A leaf extent decoded from its 12 bytes: `ee_block` at 0, `ee_len` at
/// 4 (above 32768 an uninitialised extent of `ee_len - 32768` blocks),
/// `ee_start_hi` at 6 and `ee_start_lo` at 8.
pub proof fn lemma_extent_field_offsets(e: Extent, s: Seq<u8>)
    requires
        e.decoded_from(s),
    ensures
        e.logical_block == le_u32(s, 0),
        le_u16(s, 4) <= 32768 ==> e.len == le_u16(s, 4) && !e.uninit,
        le_u16(s, 4) > 32768 ==> e.len == le_u16(s, 4) - 32768 && e.uninit,
        e.physical_block == le_u16(s, 6) * 0x1_0000_0000 + le_u32(s, 8),
{
}

/// An index entry decoded from its 12 bytes: `ei_block` at 0,
/// `ei_leaf_lo` at 4 and `ei_leaf_hi` at 8.
pub proof fn lemma_index_field_offsets(ix: ExtentIndex, s: Seq<u8>)
    requires
        ix.decoded_from(s),
    ensures
        ix.logical_block == le_u32(s, 0),
        ix.leaf_block == le_u16(s, 8) * 0x1_0000_0000 + le_u32(s, 4),
{
}

/// The `i`-th entry of an extent node is the 12 bytes after the header
/// and the `i` entries before it: as a leaf extent, its logical start is
/// at `12 + 12 i`, its length at `16 + 12 i`, its physical start at
/// `18 + 12 i` (high) and `20 + 12 i` (low); as an index entry, its
/// logical start at `12 + 12 i` and its child block at `16 + 12 i` (low)
/// and `20 + 12 i` (high).
pub proof fn lemma_node_entry_offsets(s: Seq<u8>, i: int)
    requires
        0 <= i < le_u16(s, 2),
        12 + 12 * i + 12 <= s.len(),
    ensures
        node_extents(s)[i].logical_block == le_u32(s, 12 + 12 * i),
        le_u16(s, 16 + 12 * i) <= 32768 ==> node_extents(s)[i].len == le_u16(s, 16 + 12 * i)
            && !node_extents(s)[i].uninit,
        le_u16(s, 16 + 12 * i) > 32768 ==> node_extents(s)[i].len == le_u16(s, 16 + 12 * i) - 32768
            && node_extents(s)[i].uninit,
        node_extents(s)[i].physical_block == le_u16(s, 18 + 12 * i) * 0x1_0000_0000 + le_u32(
            s,
            20 + 12 * i,
        ),
        node_indices(s)[i].logical_block == le_u32(s, 12 + 12 * i),
        node_indices(s)[i].leaf_block == le_u16(s, 20 + 12 * i) * 0x1_0000_0000 + le_u32(
            s,
            16 + 12 * i,
        ),
{
    let t = node_entry(s, i);
    assert(t[0] == s[12 + 12 * i] && t[1] == s[13 + 12 * i] && t[2] == s[14 + 12 * i] && t[3] == s[15
        + 12 * i]);
    assert(t[4] == s[16 + 12 * i] && t[5] == s[17 + 12 * i] && t[6] == s[18 + 12 * i] && t[7] == s[19
        + 12 * i]);
    assert(t[8] == s[20 + 12 * i] && t[9] == s[21 + 12 * i] && t[10] == s[22 + 12 * i] && t[11]
        == s[23 + 12 * i]);
    let hi = le_u16(t, 6);
    let lo = le_u32(t, 8);
    assert(hi * 0x1_0000_0000 + lo < 0x1_0000_0000_0000_0000) by (nonlinear_arith)
        requires
            hi < 0x1_0000,
            lo < 0x1_0000_0000,
    ;
    let hi2 = le_u16(t, 8);
    let lo2 = le_u32(t, 4);
    assert(hi2 * 0x1_0000_0000 + lo2 < 0x1_0000_0000_0000_0000) by (nonlinear_arith)
        requires
            hi2 < 0x1_0000,
            lo2 < 0x1_0000_0000,
    ;
}

} // verus!
