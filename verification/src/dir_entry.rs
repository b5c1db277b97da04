//! Ext4 directory entries (`ext4_dir_entry_2`): variable-length
//! records inside a directory's data blocks.
//!
//! ```text
//! 0  inode      u32  referenced inode; 0 marks an unused slot
//! 4  rec_len    u16  record length, a multiple of 4
//! 6  name_len   u8
//! 7  file_type  u8
//! 8  name       name_len bytes
//! ```

use vstd::prelude::*;
use std::borrow::Cow;
use crate::le::{
    le_u16, le_u32, read_u16, read_u32, write_u16, write_u32, u16_le_bytes, u32_le_bytes,
    lemma_u16_le_bytes_read, lemma_u32_le_bytes_read,
};
use crate::text::{lossy_utf8, str_from_utf8_lossy};

verus! {

/// Size of the entry header (everything before the name).
pub const DIR_ENTRY_HEADER_SIZE: usize = 8;

/// `rec_len` is always a multiple of this.
pub const DIR_ENTRY_ALIGNMENT: usize = 4;

/// Largest name length the 8-bit field can hold.
pub const DIR_ENTRY_NAME_MAX: u8 = 255;

/// File type from the entry's `file_type` byte (`EXT4_FT_*`).
#[derive(Debug, Clone, Copy, PartialEq, Eq, Structural)]
pub enum DirEntryFileType {
    /// Type not stored; consult the inode.
    Unknown,
    RegularFile,
    Directory,
    CharacterDevice,
    BlockDevice,
    Fifo,
    Socket,
    Symlink,
    /// Values 8 and above, carried verbatim.
    Reserved(u8),
}

/// The file type the byte `b` names.
pub open spec fn file_type_of_byte(b: u8) -> DirEntryFileType {
    if b == 0 {
        DirEntryFileType::Unknown
    } else if b == 1 {
        DirEntryFileType::RegularFile
    } else if b == 2 {
        DirEntryFileType::Directory
    } else if b == 3 {
        DirEntryFileType::CharacterDevice
    } else if b == 4 {
        DirEntryFileType::BlockDevice
    } else if b == 5 {
        DirEntryFileType::Fifo
    } else if b == 6 {
        DirEntryFileType::Socket
    } else if b == 7 {
        DirEntryFileType::Symlink
    } else {
        DirEntryFileType::Reserved(b)
    }
}

impl DirEntryFileType {
    /// The file type the raw `file_type` byte names.
    pub fn from_byte(b: u8) -> (r: Self)
        ensures
            r == file_type_of_byte(b),
    {
        match b {
            0 => Self::Unknown,
            1 => Self::RegularFile,
            2 => Self::Directory,
            3 => Self::CharacterDevice,
            4 => Self::BlockDevice,
            5 => Self::Fifo,
            6 => Self::Socket,
            7 => Self::Symlink,
            other => Self::Reserved(other),
        }
    }
}

/// Decoded directory entry.
#[derive(Debug, Clone, PartialEq, Eq)]
pub struct DirEntry {
    /// Referenced inode; zero marks an unused slot.
    pub inode: u32,
    /// Record length including header, name and padding.
    pub rec_len: u16,
    /// Raw file type byte.
    pub file_type_raw: u8,
    /// Name bytes, verbatim, without terminator.
    pub name: Vec<u8>,
}

/// The mathematical value of a directory entry.
pub struct SpecDirEntry {
    pub inode: u32,
    pub rec_len: u16,
    pub file_type_raw: u8,
    pub name: Seq<u8>,
}

impl View for DirEntry {
    type V = SpecDirEntry;

    open spec fn view(&self) -> SpecDirEntry {
        SpecDirEntry {
            inode: self.inode,
            rec_len: self.rec_len,
            file_type_raw: self.file_type_raw,
            name: self.name@,
        }
    }
}

/// Why an entry could not be encoded.
#[derive(Debug, PartialEq, Eq, Structural)]
pub enum DirEntryEncodeError {
    OutputTooSmall { actual: usize, expected: usize },
    RecLenBelowHeaderSize { rec_len: u16 },
    RecLenNotAligned { rec_len: u16 },
    NameTooLong { name_len: usize },
    NameLenExceedsRecLen { name_len: u8, rec_len: u16 },
}

/// Why an entry or a block could not be decoded.
#[derive(Debug, PartialEq, Eq, Structural)]
pub enum DirEntryDecodeError {
    InputTooSmall { actual: usize, expected: usize },
    RecLenBelowHeaderSize { rec_len: u16 },
    RecLenNotAligned { rec_len: u16 },
    NameLenExceedsRecLen { name_len: u8, rec_len: u16 },
    TrailingBytesBelowHeaderSize { trailing: usize },
}

/// The error, if any, that decoding one entry from the start of `s` yields.
pub open spec fn dir_entry_decode_error(s: Seq<u8>) -> Option<DirEntryDecodeError> {
    if s.len() < DIR_ENTRY_HEADER_SIZE {
        Some(
            DirEntryDecodeError::InputTooSmall {
                actual: s.len() as usize,
                expected: DIR_ENTRY_HEADER_SIZE,
            },
        )
    } else {
        let rec_len = le_u16(s, 4);
        let name_len = s[6];
        if rec_len < DIR_ENTRY_HEADER_SIZE {
            Some(DirEntryDecodeError::RecLenBelowHeaderSize { rec_len })
        } else if rec_len % 4 != 0 {
            Some(DirEntryDecodeError::RecLenNotAligned { rec_len })
        } else if DIR_ENTRY_HEADER_SIZE + name_len > rec_len {
            Some(DirEntryDecodeError::NameLenExceedsRecLen { name_len, rec_len })
        } else if DIR_ENTRY_HEADER_SIZE + name_len > s.len() {
            Some(
                DirEntryDecodeError::InputTooSmall {
                    actual: s.len() as usize,
                    expected: (DIR_ENTRY_HEADER_SIZE + name_len) as usize,
                },
            )
        } else {
            None
        }
    }
}

/// The entry stored at the start of `s`.
pub open spec fn dir_entry_at(s: Seq<u8>) -> SpecDirEntry {
    SpecDirEntry {
        inode: le_u32(s, 0),
        rec_len: le_u16(s, 4),
        file_type_raw: s[7],
        name: s.subrange(DIR_ENTRY_HEADER_SIZE as int, DIR_ENTRY_HEADER_SIZE + s[6]),
    }
}

/// A directory entry decodes from the start of `s` exactly when `s` has
/// its 8-byte header, its `rec_len` (at 4) is at least 8 and a multiple of
/// 4, and its name (of the length at 6) fits both the record and `s`; it
/// is then `inode` at 0, `rec_len` at 4, `file_type` at 7 and the name
/// from 8.
pub proof fn lemma_dir_entry_field_offsets(s: Seq<u8>)
    ensures
        dir_entry_decode_error(s) is None <==> (s.len() >= 8 && le_u16(s, 4) >= 8 && le_u16(s, 4) % 4
            == 0 && 8 + s[6] <= le_u16(s, 4) && 8 + s[6] <= s.len()),
        dir_entry_decode_error(s) is None ==> {
            &&& dir_entry_at(s).inode == le_u32(s, 0)
            &&& dir_entry_at(s).rec_len == le_u16(s, 4)
            &&& dir_entry_at(s).file_type_raw == s[7]
            &&& dir_entry_at(s).name == s.subrange(8, 8 + s[6])
        },
{
}

/// The entries of the directory block `s`, walked in `rec_len` strides,
/// or the first error the walk meets.
pub open spec fn dir_block_entries(s: Seq<u8>) -> Result<Seq<SpecDirEntry>, DirEntryDecodeError>
    decreases s.len(),
{
    if s.len() == 0 {
        Ok(Seq::empty())
    } else if s.len() < DIR_ENTRY_HEADER_SIZE {
        Err(DirEntryDecodeError::TrailingBytesBelowHeaderSize { trailing: s.len() as usize })
    } else if dir_entry_decode_error(s) is Some {
        Err(dir_entry_decode_error(s)->0)
    } else {
        let e = dir_entry_at(s);
        if e.rec_len >= s.len() {
            Ok(seq![e])
        } else {
            match dir_block_entries(s.skip(e.rec_len as int)) {
                Ok(rest) => Ok(seq![e] + rest),
                Err(x) => Err(x),
            }
        }
    }
}

/// Where the `k`-th of the entries `es` of a block starts: the sum of the
/// `rec_len`s before it.
pub open spec fn entry_offset(es: Seq<SpecDirEntry>, k: int) -> int
    decreases k,
{
    if k <= 0 {
        0
    } else {
        entry_offset(es, k - 1) + es[k - 1].rec_len
    }
}

/// The offsets of a list with one entry put in front are that entry's
/// `rec_len` past the offsets of the rest.
pub(crate) proof fn lemma_entry_offset_cons(e: SpecDirEntry, rest: Seq<SpecDirEntry>, k: int)
    requires
        0 <= k <= rest.len(),
    ensures
        entry_offset(seq![e] + rest, k + 1) == e.rec_len + entry_offset(rest, k),
    decreases k,
{
    let l = seq![e] + rest;
    if k > 0 {
        lemma_entry_offset_cons(e, rest, k - 1);
        assert(l[k] == rest[k - 1]);
        assert(entry_offset(l, k + 1) == entry_offset(l, k) + l[k].rec_len);
        assert(entry_offset(rest, k) == entry_offset(rest, k - 1) + rest[k - 1].rec_len);
    } else {
        assert(l[0] == e);
        assert(entry_offset(l, 1) == entry_offset(l, 0) + l[0].rec_len);
    }
}

/// The entries a block decodes to lie end to end from its start: the
/// `k`-th starts `entry_offset(es, k)` bytes in, with a whole header
/// before the block's end, and is the entry stored there; the last one
/// reaches the end of the block. A block decodes to no entries only
/// when it is empty.
pub proof fn lemma_block_entries_at_offsets(s: Seq<u8>)
    requires
        dir_block_entries(s) is Ok,
    ensures
        ({
            let es = dir_block_entries(s)->Ok_0;
            &&& es.len() == 0 <==> s.len() == 0
            &&& es.len() > 0 ==> entry_offset(es, es.len() as int) >= s.len()
            &&& forall|k: int|
                0 <= k < es.len() ==> {
                    let o = #[trigger] entry_offset(es, k);
                    &&& 0 <= o
                    &&& o + DIR_ENTRY_HEADER_SIZE <= s.len()
                    &&& dir_entry_decode_error(s.skip(o)) is None
                    &&& dir_entry_at(s.skip(o)) == es[k]
                }
        }),
    decreases s.len(),
{
    if s.len() > 0 {
        let e = dir_entry_at(s);
        let es = dir_block_entries(s)->Ok_0;
        assert(s.skip(0) =~= s);
        if e.rec_len >= s.len() {
            assert(es == seq![e]);
            assert(entry_offset(es, 1) == entry_offset(es, 0) + es[0].rec_len);
        } else {
            let r = e.rec_len as int;
            let t = s.skip(r);
            let rest = dir_block_entries(t)->Ok_0;
            lemma_block_entries_at_offsets(t);
            assert(es == seq![e] + rest);
            lemma_entry_offset_cons(e, rest, rest.len() as int);
            assert forall|k: int| 0 <= k < es.len() implies {
                let o = #[trigger] entry_offset(es, k);
                &&& 0 <= o
                &&& o + DIR_ENTRY_HEADER_SIZE <= s.len()
                &&& dir_entry_decode_error(s.skip(o)) is None
                &&& dir_entry_at(s.skip(o)) == es[k]
            } by {
                if k > 0 {
                    lemma_entry_offset_cons(e, rest, k - 1);
                    let o2 = entry_offset(rest, k - 1);
                    assert(es[k] == rest[k - 1]);
                    assert(s.skip(r + o2) =~= t.skip(o2));
                }
            }
        }
    }
}

/// Entry offsets are never negative.
proof fn lemma_entry_offset_nonneg(es: Seq<SpecDirEntry>, k: int)
    ensures
        entry_offset(es, k) >= 0,
    decreases k,
{
    if k > 0 {
        lemma_entry_offset_nonneg(es, k - 1);
    }
}

/// Each of the entries `es` is decoded whole from the block `s` at its
/// offset: the stepping `o_0 = 0`, `o_{k+1} = o_k + es[k].rec_len` meets
/// a well-formed entry equal to `es[k]` with a whole header before the
/// end of the block.
pub open spec fn walks_through(s: Seq<u8>, es: Seq<SpecDirEntry>) -> bool {
    forall|k: int|
        0 <= k < es.len() ==> {
            let o = #[trigger] entry_offset(es, k);
            &&& o + DIR_ENTRY_HEADER_SIZE <= s.len()
            &&& dir_entry_decode_error(s.skip(o)) is None
            &&& dir_entry_at(s.skip(o)) == es[k]
        }
}

/// Walking a block through the entries `es`: when the stepping then
/// stops inside the block, what the block decodes to is `es` followed by
/// what the rest from there decodes to (its first error, if any); when it
/// stops at or past the end, the block decodes to exactly `es`.
pub proof fn lemma_walk_prefix(s: Seq<u8>, es: Seq<SpecDirEntry>)
    requires
        walks_through(s, es),
    ensures
        entry_offset(es, es.len() as int) < s.len() ==> dir_block_entries(s) == after_entries(
            es,
            dir_block_entries(s.skip(entry_offset(es, es.len() as int))),
        ),
        es.len() > 0 && entry_offset(es, es.len() as int) >= s.len() ==> dir_block_entries(s)
            == Ok::<Seq<SpecDirEntry>, DirEntryDecodeError>(es),
    decreases es.len(),
{
    if es.len() == 0 {
        assert(s.skip(0) =~= s);
        match dir_block_entries(s) {
            Ok(rest) => assert(Seq::<SpecDirEntry>::empty() + rest =~= rest),
            Err(_) => {},
        }
    } else {
        let e = es[0];
        assert(entry_offset(es, 0) == 0);
        assert(s.skip(0) =~= s);
        assert(dir_entry_at(s) == e);
        let rec = e.rec_len as int;
        let rest = es.drop_first();
        assert(es == seq![e] + rest);
        lemma_entry_offset_cons(e, rest, rest.len() as int);
        if rec >= s.len() {
            if es.len() > 1 {
                lemma_entry_offset_cons(e, rest, 0);
                assert(entry_offset(es, 1) == rec);
            }
            assert(es =~= seq![e]);
        } else {
            let t = s.skip(rec);
            assert forall|k: int| 0 <= k < rest.len() implies {
                let o = #[trigger] entry_offset(rest, k);
                &&& o + DIR_ENTRY_HEADER_SIZE <= t.len()
                &&& dir_entry_decode_error(t.skip(o)) is None
                &&& dir_entry_at(t.skip(o)) == rest[k]
            } by {
                lemma_entry_offset_cons(e, rest, k);
                lemma_entry_offset_nonneg(rest, k);
                let o = entry_offset(rest, k);
                assert(entry_offset(es, k + 1) == rec + o);
                assert(es[k + 1] == rest[k]);
                assert(s.skip(rec + o) =~= t.skip(o));
            }
            lemma_walk_prefix(t, rest);
            let o = entry_offset(es, es.len() as int);
            let orest = entry_offset(rest, rest.len() as int);
            assert(o == rec + orest);
            lemma_entry_offset_nonneg(rest, rest.len() as int);
            if o <= s.len() {
                assert(t.skip(orest) =~= s.skip(o));
            }
            match dir_block_entries(s.skip(o)) {
                Ok(tail) => {
                    assert(seq![e] + (rest + tail) =~= es + tail);
                },
                Err(_) => {},
            }
        }
    }
}

/// A block decodes to the entries `es` exactly when stepping through it
/// meets each of them whole and stops at or past its end (and only an
/// empty block decodes to no entries).
pub proof fn lemma_block_entries_iff(s: Seq<u8>, es: Seq<SpecDirEntry>)
    ensures
        dir_block_entries(s) == Ok::<Seq<SpecDirEntry>, DirEntryDecodeError>(es) <==> {
            &&& walks_through(s, es)
            &&& if es.len() == 0 {
                s.len() == 0
            } else {
                entry_offset(es, es.len() as int) >= s.len()
            }
        },
{
    if dir_block_entries(s) == Ok::<Seq<SpecDirEntry>, DirEntryDecodeError>(es) {
        lemma_block_entries_at_offsets(s);
    }
    if walks_through(s, es) && (if es.len() == 0 {
        s.len() == 0
    } else {
        entry_offset(es, es.len() as int) >= s.len()
    }) {
        if es.len() == 0 {
            assert(dir_block_entries(s) == Ok::<Seq<SpecDirEntry>, DirEntryDecodeError>(Seq::empty()));
            assert(es =~= Seq::<SpecDirEntry>::empty());
        } else {
            lemma_walk_prefix(s, es);
        }
    }
}

/// `done` followed by the outcome `r` of walking the rest of a block.
pub open spec fn after_entries(
    done: Seq<SpecDirEntry>,
    r: Result<Seq<SpecDirEntry>, DirEntryDecodeError>,
) -> Result<Seq<SpecDirEntry>, DirEntryDecodeError> {
    match r {
        Ok(rest) => Ok(done + rest),
        Err(x) => Err(x),
    }
}

/// The error, if any, that encoding `e` into a buffer of `out_len` bytes yields.
pub open spec fn dir_entry_encode_error(e: SpecDirEntry, out_len: int) -> Option<
    DirEntryEncodeError,
> {
    if e.rec_len < DIR_ENTRY_HEADER_SIZE {
        Some(DirEntryEncodeError::RecLenBelowHeaderSize { rec_len: e.rec_len })
    } else if e.rec_len % 4 != 0 {
        Some(DirEntryEncodeError::RecLenNotAligned { rec_len: e.rec_len })
    } else if e.name.len() > DIR_ENTRY_NAME_MAX {
        Some(DirEntryEncodeError::NameTooLong { name_len: e.name.len() as usize })
    } else if DIR_ENTRY_HEADER_SIZE + e.name.len() > e.rec_len {
        Some(
            DirEntryEncodeError::NameLenExceedsRecLen {
                name_len: e.name.len() as u8,
                rec_len: e.rec_len,
            },
        )
    } else if out_len < e.rec_len {
        Some(
            DirEntryEncodeError::OutputTooSmall {
                actual: out_len as usize,
                expected: e.rec_len as usize,
            },
        )
    } else {
        None
    }
}

/// The `rec_len` bytes that encode `e`: header, name, zero padding.
pub open spec fn encoded_dir_entry(e: SpecDirEntry) -> Seq<u8> {
    u32_le_bytes(e.inode) + u16_le_bytes(e.rec_len) + seq![e.name.len() as u8, e.file_type_raw]
        + e.name + Seq::new((e.rec_len - DIR_ENTRY_HEADER_SIZE - e.name.len()) as nat, |i: int| 0u8)
}

/// Encoding an entry and decoding the bytes gives the entry back,
/// whatever follows the record.
pub proof fn lemma_dir_entry_encode_decode(e: SpecDirEntry, rest: Seq<u8>)
    requires
        dir_entry_encode_error(e, e.rec_len + rest.len()) is None,
    ensures
        dir_entry_decode_error(encoded_dir_entry(e) + rest) is None,
        dir_entry_at(encoded_dir_entry(e) + rest) == e,
{
    let s = encoded_dir_entry(e) + rest;
    let b = encoded_dir_entry(e);
    lemma_u32_le_bytes_read(e.inode);
    lemma_u16_le_bytes_read(e.rec_len);
    assert(b.len() == e.rec_len);
    assert(s.subrange(0, 4) =~= u32_le_bytes(e.inode));
    assert(s.subrange(4, 6) =~= u16_le_bytes(e.rec_len));
    assert(le_u32(s, 0) == le_u32(u32_le_bytes(e.inode), 0));
    assert(le_u16(s, 4) == le_u16(u16_le_bytes(e.rec_len), 0));
    assert(s[6] == e.name.len() as u8);
    assert(s[7] == e.file_type_raw);
    assert(s.subrange(DIR_ENTRY_HEADER_SIZE as int, DIR_ENTRY_HEADER_SIZE + s[6]) =~= e.name);
}

/// The "." entry of the directory `inode`: a 12-byte directory entry.
pub open spec fn dot_entry(inode: u32) -> SpecDirEntry {
    SpecDirEntry { inode, rec_len: 12, file_type_raw: 2, name: seq![0x2Eu8] }
}

/// The ".." entry naming the directory `parent`, filling the rest of a
/// block of `bs` bytes after a "." entry.
pub open spec fn dotdot_entry(parent: u32, bs: int) -> SpecDirEntry {
    SpecDirEntry { inode: parent, rec_len: (bs - 12) as u16, file_type_raw: 2, name: seq![0x2Eu8, 0x2Eu8] }
}

/// A block of `bs` bytes holding "." for `inode` and ".." for `parent`
/// walks to exactly those two entries.
pub proof fn lemma_dot_dotdot_block(inode: u32, parent: u32, bs: int)
    requires
        24 <= bs <= 65536,
        bs % 4 == 0,
    ensures
        dir_block_entries(encoded_dir_entry(dot_entry(inode)) + encoded_dir_entry(dotdot_entry(parent, bs)))
            == Ok::<Seq<SpecDirEntry>, DirEntryDecodeError>(
            seq![dot_entry(inode), dotdot_entry(parent, bs)],
        ),
{
    let a = encoded_dir_entry(dot_entry(inode));
    let b = encoded_dir_entry(dotdot_entry(parent, bs));
    assert(a.len() == 12);
    assert(b.len() == bs - 12);
    lemma_dir_entry_encode_decode(dot_entry(inode), b);
    lemma_dir_entry_encode_decode(dotdot_entry(parent, bs), Seq::empty());
    assert(b + Seq::<u8>::empty() =~= b);
    let s = a + b;
    assert(s.skip(12) =~= b);
    assert(dir_block_entries(b) == Ok::<Seq<SpecDirEntry>, DirEntryDecodeError>(
        seq![dotdot_entry(parent, bs)],
    ));
    assert(seq![dot_entry(inode)] + seq![dotdot_entry(parent, bs)] =~= seq![
        dot_entry(inode),
        dotdot_entry(parent, bs),
    ]);
}

impl DirEntry {
    /// Decode one entry from the start of `buf`; the caller advances by
    /// `rec_len` to the next.
    pub fn decode(buf: &[u8]) -> (r: Result<Self, DirEntryDecodeError>)
        ensures
            match r {
                Ok(e) => dir_entry_decode_error(buf@) is None && e@ == dir_entry_at(buf@),
                Err(x) => dir_entry_decode_error(buf@) == Some(x),
            },
    {
        if buf.len() < DIR_ENTRY_HEADER_SIZE {
            return Err(
                DirEntryDecodeError::InputTooSmall {
                    actual: buf.len(),
                    expected: DIR_ENTRY_HEADER_SIZE,
                },
            );
        }
        let inode = read_u32(buf, 0);
        let rec_len = read_u16(buf, 4);
        let name_len = buf[6];
        let file_type_raw = buf[7];

        if (rec_len as usize) < DIR_ENTRY_HEADER_SIZE {
            return Err(DirEntryDecodeError::RecLenBelowHeaderSize { rec_len });
        }
        if (rec_len as usize) % DIR_ENTRY_ALIGNMENT != 0 {
            return Err(DirEntryDecodeError::RecLenNotAligned { rec_len });
        }
        let name_end = DIR_ENTRY_HEADER_SIZE + name_len as usize;
        if name_end > rec_len as usize {
            return Err(DirEntryDecodeError::NameLenExceedsRecLen { name_len, rec_len });
        }
        if name_end > buf.len() {
            return Err(DirEntryDecodeError::InputTooSmall { actual: buf.len(), expected: name_end });
        }
        let name = vstd::slice::slice_to_vec(
            vstd::slice::slice_subrange(buf, DIR_ENTRY_HEADER_SIZE, name_end),
        );
        Ok(DirEntry { inode, rec_len, file_type_raw, name })
    }

    /// Typed file type; same as `DirEntryFileType::from_byte(self.file_type_raw)`.
    pub fn file_type(&self) -> (r: DirEntryFileType)
        ensures
            r == file_type_of_byte(self.file_type_raw),
    {
        DirEntryFileType::from_byte(self.file_type_raw)
    }

    /// Name as text, invalid UTF-8 sequences replaced by U+FFFD.
    pub fn name_str_lossy(&self) -> (r: Cow<'_, str>)
        ensures
            r@ == lossy_utf8(self.name@),
    {
        str_from_utf8_lossy(self.name.as_slice())
    }

    /// True iff the entry is an unused slot.
    pub fn is_unused(&self) -> (r: bool)
        ensures
            r == (self.inode == 0),
    {
        self.inode == 0
    }

    /// Serialise the entry into the start of `buf`: exactly `rec_len`
    /// bytes (header, name, zeroed padding); the rest is untouched.
    pub fn encode_into(&self, buf: &mut [u8]) -> (r: Result<(), DirEntryEncodeError>)
        ensures
            match r {
                Ok(()) => dir_entry_encode_error(self@, old(buf)@.len() as int) is None
                    && final(buf)@ == encoded_dir_entry(self@) + old(buf)@.skip(
                    self.rec_len as int,
                ),
                Err(x) => dir_entry_encode_error(self@, old(buf)@.len() as int) == Some(x)
                    && final(buf)@ == old(buf)@,
            },
    {
        let rec_len = self.rec_len as usize;
        if rec_len < DIR_ENTRY_HEADER_SIZE {
            return Err(DirEntryEncodeError::RecLenBelowHeaderSize { rec_len: self.rec_len });
        }
        if rec_len % DIR_ENTRY_ALIGNMENT != 0 {
            return Err(DirEntryEncodeError::RecLenNotAligned { rec_len: self.rec_len });
        }
        if self.name.len() > DIR_ENTRY_NAME_MAX as usize {
            return Err(DirEntryEncodeError::NameTooLong { name_len: self.name.len() });
        }
        let name_end = DIR_ENTRY_HEADER_SIZE + self.name.len();
        if name_end > rec_len {
            return Err(
                DirEntryEncodeError::NameLenExceedsRecLen {
                    name_len: self.name.len() as u8,
                    rec_len: self.rec_len,
                },
            );
        }
        if buf.len() < rec_len {
            return Err(DirEntryEncodeError::OutputTooSmall { actual: buf.len(), expected: rec_len });
        }
        let ghost tail = old(buf)@.skip(rec_len as int);

        // Zero the whole record so the padding is deterministic.
        let mut i: usize = 0;
        while i < rec_len
            invariant
                i <= rec_len,
                rec_len <= buf@.len(),
                buf@.len() == old(buf)@.len(),
                forall|j: int| 0 <= j < i ==> buf@[j] == 0u8,
                forall|j: int| rec_len <= j < buf@.len() ==> buf@[j] == old(buf)@[j],
            decreases rec_len - i,
        {
            buf[i] = 0;
            i = i + 1;
        }

        write_u32(buf, 0, self.inode);
        write_u16(buf, 4, self.rec_len);
        buf[6] = self.name.len() as u8;
        buf[7] = self.file_type_raw;
        let mut k: usize = 0;
        while k < self.name.len()
            invariant
                k <= self.name@.len(),
                name_end == DIR_ENTRY_HEADER_SIZE + self.name@.len(),
                name_end <= rec_len,
                rec_len <= buf@.len(),
                buf@.len() == old(buf)@.len(),
                buf@.subrange(0, 4) == u32_le_bytes(self.inode),
                buf@.subrange(4, 6) == u16_le_bytes(self.rec_len),
                buf@[6] == self.name@.len() as u8,
                buf@[7] == self.file_type_raw,
                forall|j: int| 0 <= j < k ==> buf@[DIR_ENTRY_HEADER_SIZE + j] == self.name@[j],
                forall|j: int| name_end <= j < rec_len ==> buf@[j] == 0u8,
                forall|j: int| rec_len <= j < buf@.len() ==> buf@[j] == old(buf)@[j],
            decreases self.name@.len() - k,
        {
            buf[DIR_ENTRY_HEADER_SIZE + k] = self.name[k];
            k = k + 1;
        }
        let ghost expected = encoded_dir_entry(self@) + tail;
        assert(buf@ =~= expected) by {
            assert forall|j: int| 0 <= j < buf@.len() implies buf@[j] == expected[j] by {
                if j < 4 {
                    assert(buf@[j] == buf@.subrange(0, 4)[j]);
                } else if j < 6 {
                    assert(buf@[j] == buf@.subrange(4, 6)[j - 4]);
                }
            }
        }
        Ok(())
    }
}

/// Walk a directory data block, decoding every entry in `rec_len`
/// strides. A `rec_len` below the header size is rejected, so the
/// walk always advances.
pub fn decode_dir_block(buf: &[u8]) -> (r: Result<Vec<DirEntry>, DirEntryDecodeError>)
    ensures
        match r {
            Ok(v) => dir_block_entries(buf@) == Ok::<Seq<SpecDirEntry>, DirEntryDecodeError>(
                v@.map_values(|e: DirEntry| e@),
            ),
            Err(x) => dir_block_entries(buf@) == Err::<Seq<SpecDirEntry>, DirEntryDecodeError>(x),
        },
{
    let mut entries: Vec<DirEntry> = Vec::new();
    let mut offset: usize = 0;
    assert(buf@.skip(0) =~= buf@);
    while offset < buf.len()
        invariant
            offset <= buf@.len(),
            dir_block_entries(buf@) == after_entries(
                entries@.map_values(|e: DirEntry| e@),
                dir_block_entries(buf@.skip(offset as int)),
            ),
        decreases buf@.len() - offset,
    {
        let remaining = vstd::slice::slice_subrange(buf, offset, buf.len());
        assert(remaining@ =~= buf@.skip(offset as int));
        if remaining.len() < DIR_ENTRY_HEADER_SIZE {
            return Err(DirEntryDecodeError::TrailingBytesBelowHeaderSize { trailing: remaining.len() });
        }
        let entry = match DirEntry::decode(remaining) {
            Ok(e) => e,
            Err(x) => return Err(x),
        };
        let stride = entry.rec_len as usize;
        let ghost before = entries@.map_values(|e: DirEntry| e@);
        entries.push(entry);
        assert(entries@.map_values(|e: DirEntry| e@) =~= before.push(dir_entry_at(remaining@)));
        if stride >= remaining.len() {
            offset = buf.len();
            assert(buf@.skip(offset as int) =~= Seq::<u8>::empty());
            assert(before + seq![dir_entry_at(remaining@)] =~= before.push(dir_entry_at(remaining@)));
        } else {
            assert(remaining@.skip(stride as int) =~= buf@.skip(offset + stride));
            offset = offset + stride;
            assert forall|x: Seq<SpecDirEntry>| #![auto]
                before + (seq![dir_entry_at(remaining@)] + x) =~= before.push(dir_entry_at(remaining@)) + x by {}
        }
    }
    assert(buf@.skip(offset as int) =~= Seq::<u8>::empty());
    assert(entries@.map_values(|e: DirEntry| e@) + Seq::<SpecDirEntry>::empty() =~= entries@.map_values(|e: DirEntry| e@));
    Ok(entries)
}

} // verus!
