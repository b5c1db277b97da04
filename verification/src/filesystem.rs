//! Filesystem handle over an in-memory ext4 image: open it, read
//! inodes by number, map file blocks through extent trees, read file
//! and directory contents, and resolve paths.

use vstd::prelude::*;
use crate::error::Ext4Error;
use crate::extent::{
    extent_encode_error, ExtentHeader, lemma_extent_encode_decode, node_entry, extent_at,
    decode_extent_node, extent_node_decode_error, node_extents, node_indices, Extent, ExtentIndex,
    ExtentNode, lemma_extent_encoding_unique, lemma_extent_header_encoding_unique,
};
use crate::le::le_u16;
use crate::dir_entry::{
    decode_dir_block, dir_block_entries, dir_entry_at, dir_entry_decode_error, dot_entry,
    dotdot_entry, lemma_dot_dotdot_block, lemma_dir_entry_encode_decode,
    dir_entry_encode_error, encoded_dir_entry, DirEntry, DirEntryDecodeError, SpecDirEntry,
    entry_offset, lemma_entry_offset_cons, DIR_ENTRY_NAME_MAX,
};
use crate::le::{lemma_same_bytes_in, write_bytes};
use crate::inode::InodeFileType;
use vstd::string::StringSliceAdditionalSpecFns;
use crate::group_descriptor::{
    GroupDescriptor, GroupDescriptorDecodeError, lemma_group_descriptor_encoding_unique,
};
use crate::inode::{
    Inode, InodeEncodeError, inode_decode_error, inode_of, lemma_inode_of, INODE_FLAG_EXTENTS,
    lemma_inode_encode_decode, lemma_inode_encoding_unique,
    I_BLOCK_LEN,
};
use crate::bitmap::{
    bit_set, clear_run, find_first_zero, find_first_zero_run, lemma_bit_set_clear_get,
    lemma_bits_fix_bitmap, set_bit, with_bit_set,
};
use crate::mkfs::zeroed;
use crate::superblock::{
    Superblock, superblock_decode_error, superblock_of, lemma_superblock_of, SUPERBLOCK_OFFSET,
    SUPERBLOCK_SIZE, lemma_superblock_encoding_unique,
};

verus! {

/// Inode number of the root directory.
pub const ROOT_INODE: u32 = 2;

/// Deepest extent tree the kernel builds; deeper trees are corrupt.
pub const MAX_EXTENT_DEPTH: u16 = 5;

/// `u64` view of a non-negative quantity, saturating at `u64::MAX`.
pub open spec fn sat_u64(x: int) -> u64 {
    if x <= u64::MAX {
        x as u64
    } else {
        u64::MAX
    }
}

/// The `len` bytes at `off` in the image `img`, or the error that the
/// image ends too early.
pub open spec fn read_range(img: Seq<u8>, off: int, len: int) -> Result<Seq<u8>, Ext4Error> {
    if off + len <= img.len() {
        Ok(img.subrange(off, off + len))
    } else {
        Err(Ext4Error::Io { offset: sat_u64(off), len: sat_u64(len) })
    }
}

/// `new` is `old` with the `len` bytes at `off` overwritten: grown with
/// zeros to `off + len` first when shorter, and the same elsewhere.
pub open spec fn written_at(old: Seq<u8>, new: Seq<u8>, off: int, len: int) -> bool {
    &&& new.len() == if off + len > old.len() {
        off + len
    } else {
        old.len() as int
    }
    &&& forall|i: int|
        0 <= i < new.len() && !(off <= i < off + len) ==> #[trigger] new[i] == if i < old.len() {
            old[i]
        } else {
            0u8
        }
}

/// A piece of a copy is the same piece of what was copied.
pub proof fn lemma_subrange_within(s: Seq<u8>, a: int, t: Seq<u8>, b: int, c: int)
    requires
        0 <= a,
        a + t.len() <= s.len(),
        s.subrange(a, a + t.len()) == t,
        0 <= b <= c <= t.len(),
    ensures
        s.subrange(a + b, a + c) == t.subrange(b, c),
{
    assert forall|i: int| 0 <= i < c - b implies s.subrange(a + b, a + c)[i] == t.subrange(b, c)[i] by {
        assert(t[b + i] == s.subrange(a, a + t.len())[b + i]);
    }
    assert(s.subrange(a + b, a + c) =~= t.subrange(b, c));
}

/// The superblock bytes of the image `img`.
pub open spec fn superblock_bytes(img: Seq<u8>) -> Seq<u8> {
    img.subrange(SUPERBLOCK_OFFSET as int, SUPERBLOCK_OFFSET + SUPERBLOCK_SIZE)
}

/// Byte offset of the group descriptor table: the block after the
/// superblock's block.
pub open spec fn gdt_offset(sb: Superblock) -> int {
    (sb.first_data_block + 1) * sb.block_size
}

/// Byte length of the group descriptor table.
pub open spec fn gdt_len(sb: Superblock) -> int {
    sb.spec_group_count() * sb.spec_group_descriptor_size()
}

/// The bytes of group descriptor `i` in the image.
pub open spec fn gdt_entry(img: Seq<u8>, sb: Superblock, i: int) -> Seq<u8> {
    let size = sb.spec_group_descriptor_size() as int;
    img.subrange(gdt_offset(sb) + i * size, gdt_offset(sb) + i * size + size)
}

/// The error, if any, that opening the image `img` yields.
pub open spec fn open_error(img: Seq<u8>) -> Option<Ext4Error> {
    if img.len() < SUPERBLOCK_OFFSET + SUPERBLOCK_SIZE {
        Some(
            Ext4Error::Io {
                offset: SUPERBLOCK_OFFSET,
                len: SUPERBLOCK_SIZE as u64,
            },
        )
    } else if superblock_decode_error(superblock_bytes(img)) is Some {
        Some(Ext4Error::Superblock(superblock_decode_error(superblock_bytes(img))->0))
    } else {
        let sb = superblock_of(superblock_bytes(img));
        if sb.blocks_per_group == 0 {
            Some(Ext4Error::InvalidLayout { reason: "blocks_per_group is 0" })
        } else if sb.inodes_per_group == 0 {
            Some(Ext4Error::InvalidLayout { reason: "inodes_per_group is 0" })
        } else if read_range(img, gdt_offset(sb), gdt_len(sb)) is Err {
            Some(read_range(img, gdt_offset(sb), gdt_len(sb))->Err_0)
        } else if sb.spec_group_count() > 0 && sb.spec_group_descriptor_size() < 32 {
            Some(
                Ext4Error::GroupDescriptor(
                    GroupDescriptorDecodeError::EntrySizeTooSmall {
                        size: sb.spec_group_descriptor_size(),
                    },
                ),
            )
        } else {
            None
        }
    }
}

/// The extent `e` maps logical block `logical`.
pub open spec fn covers(e: Extent, logical: u32) -> bool {
    e.logical_block <= logical && logical < e.logical_block + e.len
}

/// What the first extent of `exts` that covers `logical` maps it to:
/// its physical block, or nothing when it is uninitialised or when no
/// extent covers it.
pub open spec fn leaf_lookup(exts: Seq<Extent>, logical: u32) -> Option<u64>
    decreases exts.len(),
{
    if exts.len() == 0 {
        None
    } else if covers(exts[0], logical) {
        if exts[0].uninit {
            None
        } else {
            Some((exts[0].physical_block + (logical - exts[0].logical_block)) as u64)
        }
    } else {
        leaf_lookup(exts.drop_first(), logical)
    }
}

/// The last of the leading index entries that start at or before
/// `logical` (entries are sorted by start), or `acc` if there is none.
pub open spec fn chosen_index(
    ix: Seq<ExtentIndex>,
    logical: u32,
    acc: Option<ExtentIndex>,
) -> Option<ExtentIndex>
    decreases ix.len(),
{
    if ix.len() == 0 {
        acc
    } else if ix[0].logical_block <= logical {
        chosen_index(ix.drop_first(), logical, Some(ix[0]))
    } else {
        acc
    }
}

/// Looking a logical block up in a leaf's extents: when the extent at `k`
/// is the first that spans it (from its start for its length), an
/// initialised extent maps it to its physical start plus the block's
/// offset into the extent, whatever logical block the extent starts at,
/// and an uninitialised one maps it to nothing; when no extent spans it,
/// nothing maps it.
pub proof fn lemma_leaf_lookup_offset(exts: Seq<Extent>, logical: u32, k: int)
    ensures
        (0 <= k < exts.len() && exts[k].logical_block <= logical < exts[k].logical_block
            + exts[k].len && forall|j: int|
            0 <= j < k ==> !(#[trigger] exts[j].logical_block <= logical < exts[j].logical_block
                + exts[j].len)) ==> leaf_lookup(exts, logical) == if exts[k].uninit {
            None
        } else {
            Some((exts[k].physical_block + (logical - exts[k].logical_block)) as u64)
        },
        (forall|j: int|
            0 <= j < exts.len() ==> !(#[trigger] exts[j].logical_block <= logical
                < exts[j].logical_block + exts[j].len)) ==> leaf_lookup(exts, logical) is None,
    decreases exts.len(),
{
    if exts.len() > 0 {
        let t = exts.drop_first();
        lemma_leaf_lookup_offset(t, logical, k - 1);
        if 0 <= k < exts.len() && exts[k].logical_block <= logical < exts[k].logical_block
            + exts[k].len && forall|j: int|
            0 <= j < k ==> !(#[trigger] exts[j].logical_block <= logical < exts[j].logical_block
                + exts[j].len) {
            if k > 0 {
                assert(!(exts[0].logical_block <= logical < exts[0].logical_block + exts[0].len));
                assert(t[k - 1] == exts[k]);
                assert forall|j: int| 0 <= j < k - 1 implies !(#[trigger] t[j].logical_block <= logical
                    < t[j].logical_block + t[j].len) by {
                    assert(t[j] == exts[j + 1]);
                }
            }
        }
        if forall|j: int|
            0 <= j < exts.len() ==> !(#[trigger] exts[j].logical_block <= logical
                < exts[j].logical_block + exts[j].len) {
            assert(!(exts[0].logical_block <= logical < exts[0].logical_block + exts[0].len));
            assert forall|j: int| 0 <= j < t.len() implies !(#[trigger] t[j].logical_block <= logical
                < t[j].logical_block + t[j].len) by {
                assert(t[j] == exts[j + 1]);
            }
        }
    }
}

/// The index [`chosen_index`] picks is the last of the leading entries
/// that start at or before `logical`: every entry up to it starts there or
/// before, the next one (if any) after. It picks none exactly when there
/// are no entries or the first starts after `logical`.
pub proof fn lemma_chosen_index(ix: Seq<ExtentIndex>, logical: u32)
    ensures
        chosen_index(ix, logical, None) is None <==> (ix.len() == 0 || ix[0].logical_block > logical),
        chosen_index(ix, logical, None) matches Some(c) ==> exists|j: int|
            #![trigger ix[j]]
            0 <= j < ix.len() && ix[j] == c && (forall|i: int|
                0 <= i <= j ==> #[trigger] ix[i].logical_block <= logical) && (j + 1 < ix.len()
                ==> ix[j + 1].logical_block > logical),
{
    lemma_chosen_index_from(ix, logical, None, 0);
}

/// [`chosen_index`] from an accumulator: the last leading entry at or
/// before `logical`, or the accumulator when the first is after it.
proof fn lemma_chosen_index_from(ix: Seq<ExtentIndex>, logical: u32, acc: Option<ExtentIndex>, d: int)
    requires
        d >= 0,
    ensures
        (ix.len() == 0 || ix[0].logical_block > logical) ==> chosen_index(ix, logical, acc) == acc,
        (ix.len() > 0 && ix[0].logical_block <= logical) ==> exists|j: int|
            #![trigger ix[j]]
            0 <= j < ix.len() && chosen_index(ix, logical, acc) == Some(ix[j]) && (forall|i: int|
                0 <= i <= j ==> #[trigger] ix[i].logical_block <= logical) && (j + 1 < ix.len()
                ==> ix[j + 1].logical_block > logical),
    decreases ix.len(),
{
    if ix.len() > 0 && ix[0].logical_block <= logical {
        let t = ix.drop_first();
        lemma_chosen_index_from(t, logical, Some(ix[0]), d + 1);
        if t.len() == 0 || t[0].logical_block > logical {
            assert(ix[0] == ix[0]);
            assert(forall|i: int| 0 <= i <= 0 ==> #[trigger] ix[i].logical_block <= logical);
        } else {
            let j = choose|j: int|
                #![trigger t[j]]
                0 <= j < t.len() && chosen_index(t, logical, Some(ix[0])) == Some(t[j]) && (forall|
                    i: int,
                | 0 <= i <= j ==> #[trigger] t[i].logical_block <= logical) && (j + 1 < t.len()
                    ==> t[j + 1].logical_block > logical);
            assert(ix[j + 1] == t[j]);
            assert forall|i: int| 0 <= i <= j + 1 implies #[trigger] ix[i].logical_block <= logical by {
                if i > 0 {
                    assert(ix[i] == t[i - 1]);
                }
            }
            if j + 2 < ix.len() {
                assert(ix[j + 2] == t[j + 1]);
            }
        }
    }
}

/// How a name or path lookup ends.
pub enum LookupOutcome {
    /// Resolved to this inode number.
    Found(u32),
    /// A directory holds no live entry of this name.
    Missing(Seq<u8>),
    /// Reading or decoding failed, or a component is not a directory.
    Failed(Ext4Error),
}

/// `r` is the result that the outcome `o` describes.
pub open spec fn outcome_matches(r: Result<u32, Ext4Error>, o: LookupOutcome) -> bool {
    match o {
        LookupOutcome::Found(n) => r == Ok::<u32, Ext4Error>(n),
        LookupOutcome::Missing(name) => r matches Err(Ext4Error::NotFound { name: n }) && n@ == name,
        LookupOutcome::Failed(e) => r == Err::<u32, Ext4Error>(e),
    }
}

/// The inode of the first live (non-zero inode) entry named `name`.
pub open spec fn find_live(es: Seq<SpecDirEntry>, name: Seq<u8>) -> Option<u32>
    decreases es.len(),
{
    if es.len() == 0 {
        None
    } else if es[0].inode != 0 && es[0].name == name {
        Some(es[0].inode)
    } else {
        find_live(es.drop_first(), name)
    }
}

/// An entry of `es` is live and named exactly `name`.
pub open spec fn names_live(e: SpecDirEntry, name: Seq<u8>) -> bool {
    e.inode != 0 && e.name == name
}

/// Searching a list of entries for `name` finds the inode of the first
/// live entry whose name is exactly `name`, and nothing when no live
/// entry has exactly that name.
pub proof fn lemma_find_live_exact(es: Seq<SpecDirEntry>, name: Seq<u8>)
    ensures
        find_live(es, name) matches Some(n) ==> exists|k: int|
            #![trigger es[k]]
            0 <= k < es.len() && es[k].inode != 0 && es[k].name == name && es[k].inode == n
                && forall|j: int| 0 <= j < k ==> !names_live(#[trigger] es[j], name),
        (forall|k: int| 0 <= k < es.len() ==> !names_live(#[trigger] es[k], name)) ==> find_live(
            es,
            name,
        ) is None,
        (exists|k: int| 0 <= k < es.len() && names_live(#[trigger] es[k], name)) ==> find_live(
            es,
            name,
        ) is Some,
    decreases es.len(),
{
    if es.len() > 0 {
        let t = es.drop_first();
        lemma_find_live_exact(t, name);
        if !(es[0].inode != 0 && es[0].name == name) {
            if let Some(n) = find_live(t, name) {
                let k = choose|k: int|
                    #![trigger t[k]]
                    0 <= k < t.len() && t[k].inode != 0 && t[k].name == name && t[k].inode == n
                        && forall|j: int| 0 <= j < k ==> !names_live(#[trigger] t[j], name);
                assert(es[k + 1] == t[k]);
                assert forall|j: int| 0 <= j < k + 1 implies !names_live(#[trigger] es[j], name) by {
                    if j > 0 {
                        assert(es[j] == t[j - 1]);
                    }
                }
            }
            if forall|k: int| 0 <= k < es.len() ==> !names_live(#[trigger] es[k], name) {
                assert forall|k: int| 0 <= k < t.len() implies !names_live(#[trigger] t[k], name) by {
                    assert(es[k + 1] == t[k]);
                }
            }
            if exists|k: int| 0 <= k < es.len() && names_live(#[trigger] es[k], name) {
                let k = choose|k: int| 0 <= k < es.len() && names_live(#[trigger] es[k], name);
                assert(k > 0);
                assert(t[k - 1] == es[k]);
            }
        } else {
            assert(es[0] == es[0]);
            assert(forall|j: int| 0 <= j < 0 ==> !names_live(#[trigger] es[j], name));
        }
    }
}

/// The non-empty `/`-separated components of the path bytes `s`, the
/// component being collected so far being `cur`.
pub open spec fn components_from(s: Seq<u8>, cur: Seq<u8>) -> Seq<Seq<u8>>
    decreases s.len(),
{
    let done = if cur.len() == 0 {
        Seq::<Seq<u8>>::empty()
    } else {
        seq![cur]
    };
    if s.len() == 0 {
        done
    } else if s[0] == 0x2Fu8 {
        done + components_from(s.drop_first(), Seq::empty())
    } else {
        components_from(s.drop_first(), cur.push(s[0]))
    }
}

/// The non-empty `/`-separated components of the path bytes `s`.
pub open spec fn path_components(s: Seq<u8>) -> Seq<Seq<u8>> {
    components_from(s, Seq::empty())
}

/// A run of bytes without `/`, read after the bytes `cur` of a component
/// already begun, adds that one component (if it is not empty).
proof fn lemma_components_no_slash(s: Seq<u8>, cur: Seq<u8>)
    requires
        forall|i: int| 0 <= i < s.len() ==> s[i] != 0x2Fu8,
    ensures
        components_from(s, cur) == if (cur + s).len() == 0 {
            Seq::<Seq<u8>>::empty()
        } else {
            seq![cur + s]
        },
    decreases s.len(),
{
    if s.len() > 0 {
        let t = s.drop_first();
        lemma_components_no_slash(t, cur.push(s[0]));
        assert(cur.push(s[0]) + t =~= cur + s);
    } else {
        assert(cur + s =~= cur);
    }
}

/// Splitting at a `/`: the components of `a` (after the begun component
/// `cur`), then those of `b`.
proof fn lemma_components_split(a: Seq<u8>, b: Seq<u8>, cur: Seq<u8>)
    ensures
        components_from(a + seq![0x2Fu8] + b, cur) == components_from(a, cur) + components_from(
            b,
            Seq::empty(),
        ),
    decreases a.len(),
{
    let s = a + seq![0x2Fu8] + b;
    if a.len() == 0 {
        assert(s[0] == 0x2Fu8);
        assert(s.drop_first() =~= b);
    } else {
        let t = a.drop_first();
        assert(s[0] == a[0]);
        assert(s.drop_first() =~= t + seq![0x2Fu8] + b);
        if a[0] == 0x2Fu8 {
            lemma_components_split(t, b, Seq::empty());
            let done = if cur.len() == 0 {
                Seq::<Seq<u8>>::empty()
            } else {
                seq![cur]
            };
            assert(done + (components_from(t, Seq::empty()) + components_from(b, Seq::empty()))
                =~= (done + components_from(t, Seq::empty())) + components_from(b, Seq::empty()));
        } else {
            lemma_components_split(t, b, cur.push(a[0]));
        }
    }
}

/// Path components split at every `/`: the components of `a/b` are those
/// of `a` followed by those of `b`; a non-empty name without `/` is one
/// component, and the empty path has none.
pub proof fn lemma_path_components_split(a: Seq<u8>, b: Seq<u8>, name: Seq<u8>)
    ensures
        path_components(a + seq![0x2Fu8] + b) == path_components(a) + path_components(b),
        (name.len() > 0 && forall|i: int| 0 <= i < name.len() ==> name[i] != 0x2Fu8) ==> path_components(name)
            == seq![name],
        path_components(Seq::empty()) == Seq::<Seq<u8>>::empty(),
{
    lemma_components_split(a, b, Seq::empty());
    if name.len() > 0 && forall|i: int| 0 <= i < name.len() ==> name[i] != 0x2Fu8 {
        lemma_components_no_slash(name, Seq::empty());
        assert(Seq::<u8>::empty() + name =~= name);
    }
}

/// A leading `/` adds no component: `//a` walks as `/a` does, and so
/// any run of leading slashes is ignored.
pub proof fn lemma_leading_slash_ignored(s: Seq<u8>)
    ensures
        path_components(seq![0x2Fu8] + s) == path_components(s),
{
    let t = seq![0x2Fu8] + s;
    assert(t.drop_first() =~= s);
    assert(Seq::<Seq<u8>>::empty() + components_from(s, Seq::empty()) =~= components_from(
        s,
        Seq::empty(),
    ));
}

/// Collecting components after a pending component `cur`, where `s`
/// holds only slashes, yields just `cur` (or nothing if it is empty).
proof fn lemma_components_of_slashes(s: Seq<u8>, cur: Seq<u8>)
    requires
        forall|i: int| 0 <= i < s.len() ==> s[i] == 0x2Fu8,
    ensures
        components_from(s, cur) == if cur.len() == 0 {
            Seq::<Seq<u8>>::empty()
        } else {
            seq![cur]
        },
    decreases s.len(),
{
    if s.len() > 0 {
        lemma_components_of_slashes(s.drop_first(), Seq::empty());
        if cur.len() == 0 {
            assert(Seq::<Seq<u8>>::empty() + Seq::<Seq<u8>>::empty() =~= Seq::<Seq<u8>>::empty());
        } else {
            assert(seq![cur] + Seq::<Seq<u8>>::empty() =~= seq![cur]);
        }
    }
}

/// A path made only of slashes (`/`, `///`, or the empty path) has no
/// components.
pub proof fn lemma_slashes_only_no_components(s: Seq<u8>)
    requires
        forall|i: int| 0 <= i < s.len() ==> s[i] == 0x2Fu8,
    ensures
        path_components(s) == Seq::<Seq<u8>>::empty(),
{
    lemma_components_of_slashes(s, Seq::empty());
}

/// Appending a `/` to a path changes none of its components: a trailing
/// slash is ignored.
pub proof fn lemma_trailing_slash_ignored(s: Seq<u8>)
    ensures
        path_components(s.push(0x2Fu8)) == path_components(s),
{
    lemma_trailing_slash_from(s, Seq::empty());
}

proof fn lemma_trailing_slash_from(s: Seq<u8>, cur: Seq<u8>)
    ensures
        components_from(s.push(0x2Fu8), cur) == components_from(s, cur),
    decreases s.len(),
{
    let t = s.push(0x2Fu8);
    if s.len() == 0 {
        assert(t.drop_first() =~= Seq::<u8>::empty());
        assert(t[0] == 0x2Fu8);
        let done = if cur.len() == 0 {
            Seq::<Seq<u8>>::empty()
        } else {
            seq![cur]
        };
        assert(components_from(Seq::<u8>::empty(), Seq::<u8>::empty()) == Seq::<Seq<u8>>::empty());
        assert(components_from(t, cur) == done + components_from(t.drop_first(), Seq::empty()));
        assert(done + Seq::<Seq<u8>>::empty() =~= done);
    } else {
        assert(t.drop_first() =~= s.drop_first().push(0x2Fu8));
        assert(t[0] == s[0]);
        if s[0] == 0x2Fu8 {
            lemma_trailing_slash_from(s.drop_first(), Seq::empty());
        } else {
            lemma_trailing_slash_from(s.drop_first(), cur.push(s[0]));
        }
    }
}

/// Open image: the bytes, plus the eagerly decoded superblock and group
/// descriptor table.
#[derive(Debug)]
pub struct Filesystem {
    image: Vec<u8>,
    superblock: Superblock,
    gdt: Vec<GroupDescriptor>,
}

/// True iff the two byte strings are equal.
fn bytes_eq(a: &[u8], b: &[u8]) -> (r: bool)
    ensures
        r == (a@ == b@),
{
    if a.len() != b.len() {
        return false;
    }
    let mut i: usize = 0;
    while i < a.len()
        invariant
            i <= a@.len(),
            a@.len() == b@.len(),
            forall|j: int| 0 <= j < i ==> a@[j] == b@[j],
        decreases a@.len() - i,
    {
        if a[i] != b[i] {
            return false;
        }
        i = i + 1;
    }
    assert(a@ =~= b@);
    true
}

/// The `len` bytes at `off` of the image.
fn read_image(img: &Vec<u8>, off: u128, len: u128) -> (r: Result<&[u8], Ext4Error>)
    requires
        off + len <= u128::MAX,
    ensures
        match r {
            Ok(s) => read_range(img@, off as int, len as int) == Ok::<Seq<u8>, Ext4Error>(s@),
            Err(e) => read_range(img@, off as int, len as int) == Err::<Seq<u8>, Ext4Error>(e),
        },
{
    if off + len <= img.len() as u128 {
        Ok(vstd::slice::slice_subrange(img.as_slice(), off as usize, (off + len) as usize))
    } else {
        let offset = if off <= u64::MAX as u128 {
            off as u64
        } else {
            u64::MAX
        };
        let len64 = if len <= u64::MAX as u128 {
            len as u64
        } else {
            u64::MAX
        };
        Err(Ext4Error::Io { offset, len: len64 })
    }
}

impl Filesystem {
    #[verifier::type_invariant]
    spec fn inv(self) -> bool {
        self.well_formed()
    }

    /// The layout facts every open filesystem has: non-empty groups and
    /// one of the block sizes the kernel accepts.
    pub open spec fn well_formed(&self) -> bool {
        let sb = self.spec_superblock();
        let es = sb.spec_group_descriptor_size() as int;
        &&& sb.blocks_per_group > 0
        &&& sb.inodes_per_group > 0
        &&& (sb.block_size == 1024 || sb.block_size == 2048 || sb.block_size == 4096
            || sb.block_size == 65536)
        &&& SUPERBLOCK_OFFSET + SUPERBLOCK_SIZE <= self.image().len()
        &&& self.spec_gdt().len() > 0 ==> es >= 32
        &&& gdt_offset(sb) + self.spec_gdt().len() * es <= self.image().len()
    }

    /// The image bytes.
    pub closed spec fn image(&self) -> Seq<u8> {
        self.image@
    }

    /// The decoded superblock.
    pub closed spec fn spec_superblock(&self) -> Superblock {
        self.superblock
    }

    /// The decoded group descriptor table.
    pub closed spec fn spec_gdt(&self) -> Seq<GroupDescriptor> {
        self.gdt@
    }

    /// `self` is what opening `img` gives: the image itself, the
    /// superblock it holds, and the group descriptor table decoded from
    /// the block after the superblock's.
    pub open spec fn opened_from(&self, img: Seq<u8>) -> bool {
        &&& self.well_formed()
        &&& self.image() == img
        &&& self.spec_superblock() == superblock_of(superblock_bytes(img))
        &&& self.spec_gdt().len() == self.spec_superblock().spec_group_count()
        &&& forall|i: int|
            0 <= i < self.spec_gdt().len() ==> (#[trigger] self.spec_gdt()[i]).decoded_from(
                gdt_entry(img, self.spec_superblock(), i),
                self.spec_superblock().spec_group_descriptor_size() as int,
            )
    }

    /// Open an image: decode the superblock at byte 1024, check the
    /// layout fields, then decode the group descriptor table in the
    /// block after the superblock's.
    pub fn open(image: Vec<u8>) -> (r: Result<Self, Ext4Error>)
        ensures
            match r {
                Ok(fs) => open_error(image@) is None && fs.opened_from(image@),
                Err(e) => open_error(image@) == Some(e),
            },
    {
        let sb_buf = match read_image(&image, SUPERBLOCK_OFFSET as u128, SUPERBLOCK_SIZE as u128) {
            Ok(b) => b,
            Err(e) => return Err(e),
        };
        let superblock = match Superblock::decode(sb_buf) {
            Ok(sb) => sb,
            Err(e) => return Err(Ext4Error::Superblock(e)),
        };
        proof {
            lemma_superblock_of(superblock, superblock_bytes(image@));
        }
        if superblock.blocks_per_group == 0 {
            return Err(Ext4Error::InvalidLayout { reason: "blocks_per_group is 0" });
        }
        if superblock.inodes_per_group == 0 {
            return Err(Ext4Error::InvalidLayout { reason: "inodes_per_group is 0" });
        }

        let block_size = superblock.block_size as u128;
        assert(superblock.block_size <= 65536);
        assert((superblock.first_data_block as u128 + 1) * block_size <= 0x1_0000_0000 * 65536)
            by (nonlinear_arith)
            requires
                superblock.first_data_block <= 0xffff_ffffu32,
                block_size <= 65536,
        ;
        let gdt_off = (superblock.first_data_block as u128 + 1) * block_size;
        let group_count = superblock.group_count();
        let entry_size = superblock.group_descriptor_size() as usize;
        assert(group_count as int * entry_size <= 0xffff_ffff_ffff_ffff * 0xffff) by (nonlinear_arith)
            requires
                group_count <= 0xffff_ffff_ffff_ffffu64,
                entry_size <= 0xffff,
        ;
        let gdt_bytes = group_count as u128 * entry_size as u128;
        assert(gdt_off <= 0x1_0000_0000 * 65536) by (nonlinear_arith)
            requires
                gdt_off == (superblock.first_data_block as u128 + 1) * block_size,
                block_size <= 65536,
        ;
        let gdt_buf = match read_image(&image, gdt_off, gdt_bytes) {
            Ok(b) => b,
            Err(e) => return Err(e),
        };

        if group_count > 0 && entry_size < 32 {
            return Err(
                Ext4Error::GroupDescriptor(
                    GroupDescriptorDecodeError::EntrySizeTooSmall { size: entry_size as u16 },
                ),
            );
        }
        assert(group_count <= gdt_bytes) by (nonlinear_arith)
            requires
                gdt_bytes == group_count * entry_size,
                group_count == 0 || entry_size >= 32,
        ;
        let img_len = image.len();
        assert(gdt_buf@.len() == gdt_bytes);
        assert(gdt_off + gdt_bytes <= img_len);
        let mut gdt: Vec<GroupDescriptor> = Vec::new();
        let count = group_count as usize;
        assert(count == group_count);
        let mut i: usize = 0;
        while i < count
            invariant
                i <= count,
                count == superblock.spec_group_count(),
                entry_size == superblock.spec_group_descriptor_size(),
                gdt_buf@ == image@.subrange(gdt_offset(superblock), gdt_offset(superblock) + gdt_len(superblock)),
                gdt_bytes == count * entry_size,
                gdt_buf@.len() == gdt_bytes,
                gdt_bytes <= img_len,
                count > 0 ==> entry_size >= 32,
                gdt_off == gdt_offset(superblock),
                gdt_off + gdt_bytes <= image@.len(),
                gdt@.len() == i,
                forall|j: int|
                    0 <= j < i ==> (#[trigger] gdt@[j]).decoded_from(
                        gdt_entry(image@, superblock, j),
                        entry_size as int,
                    ),
            decreases count - i,
        {
            assert(i * entry_size + entry_size <= count * entry_size) by (nonlinear_arith)
                requires
                    i < count,
            ;
            let off = i * entry_size;
            let entry = vstd::slice::slice_subrange(gdt_buf, off, off + entry_size);
            assert(entry@ =~= gdt_entry(image@, superblock, i as int));
            match GroupDescriptor::decode(entry, &superblock) {
                Ok(gd) => gdt.push(gd),
                Err(e) => return Err(Ext4Error::GroupDescriptor(e)),
            }
            i = i + 1;
        }

        Ok(Filesystem { image, superblock, gdt })
    }

    /// What reading inode `n` gives.
    pub open spec fn spec_read_inode(&self, n: u32) -> Result<Inode, Ext4Error> {
        let sb = self.spec_superblock();
        if n == 0 || n > sb.inodes_count {
            Err(Ext4Error::InodeOutOfRange { inode: n, max: sb.inodes_count })
        } else {
            let group = (n - 1) / (sb.inodes_per_group as int);
            let index = (n - 1) % (sb.inodes_per_group as int);
            if group >= self.spec_gdt().len() {
                Err(Ext4Error::InvalidLayout { reason: "inode references non-existent group" })
            } else {
                let off = self.spec_gdt()[group].inode_table * sb.block_size + index
                    * sb.inode_size;
                match read_range(self.image(), off, sb.inode_size as int) {
                    Err(e) => Err(e),
                    Ok(bytes) => if inode_decode_error(bytes, sb) is Some {
                        Err(Ext4Error::Inode(inode_decode_error(bytes, sb)->0))
                    } else {
                        Ok(inode_of(bytes))
                    },
                }
            }
        }
    }

    /// What looking up logical block `logical` in the extent node `node`
    /// gives, reading at most `steps - 1` blocks below it: an index node
    /// met on the last step is a tree too deep, and nothing more is read.
    pub open spec fn resolve_node(&self, node: Seq<u8>, logical: u32, steps: nat) -> Result<
        Option<u64>,
        Ext4Error,
    >
        decreases steps,
    {
        if steps == 0 {
            Err(Ext4Error::MaxExtentDepthExceeded { max: MAX_EXTENT_DEPTH })
        } else if extent_node_decode_error(node) is Some {
            Err(Ext4Error::Extent(extent_node_decode_error(node)->0))
        } else if le_u16(node, 6) == 0 {
            Ok(leaf_lookup(node_extents(node), logical))
        } else {
            match chosen_index(node_indices(node), logical, None) {
                None => Ok(None),
                Some(ix) => if steps == 1 {
                    Err(Ext4Error::MaxExtentDepthExceeded { max: MAX_EXTENT_DEPTH })
                } else {
                    let bs = self.spec_superblock().block_size as int;
                    match read_range(self.image(), ix.leaf_block * bs, bs) {
                        Err(e) => Err(e),
                        Ok(b) => self.resolve_node(b, logical, (steps - 1) as nat),
                    }
                },
            }
        }
    }

    /// What mapping logical block `logical` of `inode` gives: the physical
    /// block, `None` for a hole or an uninitialised extent, or an error.
    pub open spec fn spec_resolve(&self, inode: Inode, logical: u32) -> Result<
        Option<u64>,
        Ext4Error,
    > {
        if !inode.spec_uses_extents() {
            Err(Ext4Error::NotExtentBased)
        } else {
            self.resolve_node(inode.block@, logical, (MAX_EXTENT_DEPTH + 1) as nat)
        }
    }

    /// Resolving a logical block of a file whose extent tree is a single
    /// leaf (in the inode itself): the first extent of the leaf that spans
    /// the block maps it to its physical start plus the block's offset
    /// into it, or to nothing when it is uninitialised; with no such
    /// extent, nothing maps it.
    pub proof fn lemma_resolve_in_leaf(&self, inode: Inode, logical: u32, k: int)
        requires
            inode.spec_uses_extents(),
            extent_node_decode_error(inode.block@) is None,
            le_u16(inode.block@, 6) == 0,
        ensures
            ({
                let exts = node_extents(inode.block@);
                (0 <= k < exts.len() && exts[k].logical_block <= logical < exts[k].logical_block
                    + exts[k].len && forall|j: int|
                    0 <= j < k ==> !(#[trigger] exts[j].logical_block <= logical
                        < exts[j].logical_block + exts[j].len)) ==> self.spec_resolve(inode, logical)
                    == Ok::<Option<u64>, Ext4Error>(
                    if exts[k].uninit {
                        None
                    } else {
                        Some((exts[k].physical_block + (logical - exts[k].logical_block)) as u64)
                    },
                )
            }),
            ({
                let exts = node_extents(inode.block@);
                (forall|j: int|
                    0 <= j < exts.len() ==> !(#[trigger] exts[j].logical_block <= logical
                        < exts[j].logical_block + exts[j].len)) ==> self.spec_resolve(inode, logical)
                    == Ok::<Option<u64>, Ext4Error>(None)
            }),
    {
        lemma_leaf_lookup_offset(node_extents(inode.block@), logical, k);
    }

    /// The blocks the walk of [`Filesystem::resolve_node`] reads, in order.
    pub open spec fn walk_blocks(&self, node: Seq<u8>, logical: u32, steps: nat) -> Seq<u64>
        decreases steps,
    {
        if steps <= 1 || extent_node_decode_error(node) is Some || le_u16(node, 6) == 0 {
            Seq::empty()
        } else {
            match chosen_index(node_indices(node), logical, None) {
                None => Seq::empty(),
                Some(ix) => {
                    let bs = self.spec_superblock().block_size as int;
                    seq![ix.leaf_block] + match read_range(self.image(), ix.leaf_block * bs, bs) {
                        Err(_) => Seq::empty(),
                        Ok(b) => self.walk_blocks(b, logical, (steps - 1) as nat),
                    }
                },
            }
        }
    }

    /// The walk reads fewer blocks than it has steps, and what it gives
    /// depends on no other bytes of the image: another filesystem of the
    /// same block size whose image holds the same bytes in those blocks
    /// gives the same result.
    pub proof fn lemma_walk_reads(&self, other: &Filesystem, node: Seq<u8>, logical: u32, steps: nat)
        requires
            steps >= 1,
            other.spec_superblock().block_size == self.spec_superblock().block_size,
            forall|k: int|
                0 <= k < self.walk_blocks(node, logical, steps).len() ==> {
                    let q = #[trigger] self.walk_blocks(node, logical, steps)[k];
                    let bs = self.spec_superblock().block_size as int;
                    read_range(other.image(), q * bs, bs) == read_range(self.image(), q * bs, bs)
                },
        ensures
            self.walk_blocks(node, logical, steps).len() <= steps - 1,
            other.resolve_node(node, logical, steps) == self.resolve_node(node, logical, steps),
        decreases steps,
    {
        let bs = self.spec_superblock().block_size as int;
        let w = self.walk_blocks(node, logical, steps);
        if steps > 1 && extent_node_decode_error(node) is None && le_u16(node, 6) != 0 {
            if let Some(ix) = chosen_index(node_indices(node), logical, None) {
                assert(w[0] == ix.leaf_block);
                let r = read_range(self.image(), ix.leaf_block * bs, bs);
                assert(read_range(other.image(), ix.leaf_block * bs, bs) == r);
                if let Ok(b) = r {
                    let rest = self.walk_blocks(b, logical, (steps - 1) as nat);
                    assert(w == seq![ix.leaf_block] + rest);
                    assert forall|k: int| 0 <= k < rest.len() implies {
                        let q = #[trigger] rest[k];
                        read_range(other.image(), q * bs, bs) == read_range(self.image(), q * bs, bs)
                    } by {
                        assert(w[k + 1] == rest[k]);
                    }
                    self.lemma_walk_reads(other, b, logical, (steps - 1) as nat);
                }
            }
        }
    }

    /// From `node` on, `k` nodes in a row are index nodes that choose an
    /// entry for `logical`, each but the last leading to a readable block
    /// holding the next.
    pub open spec fn index_chain(&self, node: Seq<u8>, logical: u32, k: nat) -> bool
        decreases k,
    {
        if k == 0 {
            true
        } else {
            &&& extent_node_decode_error(node) is None
            &&& le_u16(node, 6) != 0
            &&& chosen_index(node_indices(node), logical, None) matches Some(ix) && (k == 1 || {
                let bs = self.spec_superblock().block_size as int;
                read_range(self.image(), ix.leaf_block * bs, bs) matches Ok(b) && self.index_chain(
                    b,
                    logical,
                    (k - 1) as nat,
                )
            })
        }
    }

    /// A walk that meets index nodes on all of its steps ends in
    /// `MaxExtentDepthExceeded`; for an inode, that is a chain of
    /// `MAX_EXTENT_DEPTH + 1` index levels, its own node included.
    pub proof fn lemma_index_chain_too_deep(&self, node: Seq<u8>, logical: u32, steps: nat)
        requires
            steps >= 1,
            self.index_chain(node, logical, steps),
        ensures
            self.resolve_node(node, logical, steps) == Err::<Option<u64>, Ext4Error>(
                Ext4Error::MaxExtentDepthExceeded { max: MAX_EXTENT_DEPTH },
            ),
        decreases steps,
    {
        if steps > 1 {
            let ix = chosen_index(node_indices(node), logical, None)->Some_0;
            let bs = self.spec_superblock().block_size as int;
            let b = read_range(self.image(), ix.leaf_block * bs, bs)->Ok_0;
            self.lemma_index_chain_too_deep(b, logical, (steps - 1) as nat);
        }
    }

    /// Resolving a logical block reads at most `MAX_EXTENT_DEPTH` blocks
    /// below the inode's own node, and depends on nothing else of the
    /// image.
    pub proof fn lemma_resolve_reads(&self, other: &Filesystem, inode: Inode, logical: u32)
        requires
            other.spec_superblock().block_size == self.spec_superblock().block_size,
            forall|k: int|
                0 <= k < self.walk_blocks(inode.block@, logical, (MAX_EXTENT_DEPTH + 1) as nat).len()
                    ==> {
                    let q = #[trigger] self.walk_blocks(
                        inode.block@,
                        logical,
                        (MAX_EXTENT_DEPTH + 1) as nat,
                    )[k];
                    let bs = self.spec_superblock().block_size as int;
                    read_range(other.image(), q * bs, bs) == read_range(self.image(), q * bs, bs)
                },
        ensures
            self.walk_blocks(inode.block@, logical, (MAX_EXTENT_DEPTH + 1) as nat).len()
                <= MAX_EXTENT_DEPTH,
            other.spec_resolve(inode, logical) == self.spec_resolve(inode, logical),
    {
        self.lemma_walk_reads(other, inode.block@, logical, (MAX_EXTENT_DEPTH + 1) as nat);
    }

    /// The bytes of logical block `logical` of the file `inode`.
    pub open spec fn block_data(&self, inode: Inode, logical: int) -> Result<Seq<u8>, Ext4Error> {
        let bs = self.spec_superblock().block_size as int;
        if logical > u32::MAX {
            Err(Ext4Error::InvalidLayout { reason: "file logical block index exceeds u32" })
        } else {
            match self.spec_resolve(inode, logical as u32) {
                Err(e) => Err(e),
                Ok(mapped) => if (logical + 1) * bs > usize::MAX {
                    Err(Ext4Error::InvalidLayout { reason: "file size exceeds addressable memory" })
                } else {
                    match mapped {
                        None => Ok(Seq::new(bs as nat, |i: int| 0u8)),
                        Some(p) => read_range(self.image(), p * bs, bs),
                    }
                },
            }
        }
    }

    /// The first `n` blocks of the file `inode`, concatenated, or the
    /// first error met reading them in order.
    pub open spec fn blocks_data(&self, inode: Inode, n: nat) -> Result<Seq<u8>, Ext4Error>
        decreases n,
    {
        if n == 0 {
            Ok(Seq::empty())
        } else {
            match self.blocks_data(inode, (n - 1) as nat) {
                Err(e) => Err(e),
                Ok(pre) => match self.block_data(inode, n - 1) {
                    Err(e) => Err(e),
                    Ok(b) => Ok(pre + b),
                },
            }
        }
    }

    /// Number of blocks a file of `size` bytes spans.
    pub open spec fn block_count(&self, size: u64) -> int {
        let bs = self.spec_superblock().block_size as int;
        (size + bs - 1) / bs
    }

    /// The contents of the file `inode`: its blocks in order, holes and
    /// uninitialised extents as zeros, cut to `inode.size` bytes.
    pub open spec fn spec_read_file(&self, inode: Inode) -> Result<Seq<u8>, Ext4Error> {
        if inode.size == 0 {
            Ok(Seq::empty())
        } else {
            match self.blocks_data(inode, self.block_count(inode.size) as nat) {
                Err(e) => Err(e),
                Ok(d) => Ok(d.take(inode.size as int)),
            }
        }
    }

    /// The entries of the directory `inode`.
    pub open spec fn spec_read_dir(&self, inode: Inode) -> Result<Seq<SpecDirEntry>, Ext4Error> {
        match self.spec_read_file(inode) {
            Err(e) => Err(e),
            Ok(bytes) => match dir_block_entries(bytes) {
                Ok(es) => Ok(es),
                Err(x) => Err(Ext4Error::DirEntry(x)),
            },
        }
    }

    /// How looking up `name` in the directory `parent` ends.
    pub open spec fn spec_lookup(&self, parent: Inode, name: Seq<u8>) -> LookupOutcome {
        match self.spec_read_dir(parent) {
            Err(e) => LookupOutcome::Failed(e),
            Ok(es) => match find_live(es, name) {
                Some(n) => LookupOutcome::Found(n),
                None => LookupOutcome::Missing(name),
            },
        }
    }

    /// How looking up the component `name` under the inode `cur` ends:
    /// `cur` has to be a directory.
    pub open spec fn spec_step(&self, cur: u32, name: Seq<u8>) -> LookupOutcome {
        match self.spec_read_inode(cur) {
            Err(e) => LookupOutcome::Failed(e),
            Ok(ino) => if ino.spec_file_type() != InodeFileType::Directory {
                LookupOutcome::Failed(Ext4Error::NotADirectory { inode: cur })
            } else {
                self.spec_lookup(ino, name)
            },
        }
    }

    /// How walking the components `comps` from the inode `cur` ends.
    pub open spec fn spec_walk(&self, cur: u32, comps: Seq<Seq<u8>>) -> LookupOutcome
        decreases comps.len(),
    {
        if comps.len() == 0 {
            LookupOutcome::Found(cur)
        } else {
            match self.spec_step(cur, comps[0]) {
                LookupOutcome::Found(c) => self.spec_walk(c, comps.drop_first()),
                other => other,
            }
        }
    }

    /// Walking a path made of two parts walks the first, then the second
    /// from where the first ended; a walk that does not find a part stops
    /// there.
    pub proof fn lemma_walk_concat(&self, cur: u32, a: Seq<Seq<u8>>, b: Seq<Seq<u8>>)
        ensures
            self.spec_walk(cur, a + b) == match self.spec_walk(cur, a) {
                LookupOutcome::Found(x) => self.spec_walk(x, b),
                other => other,
            },
        decreases a.len(),
    {
        if a.len() == 0 {
            assert(a + b =~= b);
        } else {
            assert((a + b)[0] == a[0]);
            assert((a + b).drop_first() =~= a.drop_first() + b);
            if let LookupOutcome::Found(c) = self.spec_step(cur, a[0]) {
                self.lemma_walk_concat(c, a.drop_first(), b);
            }
        }
    }

    /// Walking one component is one step: looking the name up in the
    /// directory `cur`.
    pub proof fn lemma_walk_one(&self, cur: u32, c: Seq<u8>)
        ensures
            self.spec_walk(cur, seq![c]) == self.spec_step(cur, c),
    {
        assert(seq![c].drop_first() =~= Seq::<Seq<u8>>::empty());
        if let LookupOutcome::Found(x) = self.spec_step(cur, c) {
            assert(self.spec_walk(x, Seq::<Seq<u8>>::empty()) == LookupOutcome::Found(x));
        }
    }

    /// Each block read is one block long.
    proof fn lemma_block_data_len(&self, inode: Inode, k: int)
        ensures
            self.block_data(inode, k) matches Ok(b) ==> b.len() == self.spec_superblock().block_size,
    {
    }

    /// The first `n` blocks, when read, are `n` blocks long.
    proof fn lemma_blocks_data_len(&self, inode: Inode, n: nat)
        ensures
            self.blocks_data(inode, n) matches Ok(d) ==> d.len() == n
                * self.spec_superblock().block_size,
        decreases n,
    {
        if n > 0 {
            self.lemma_blocks_data_len(inode, (n - 1) as nat);
            self.lemma_block_data_len(inode, n - 1);
            let bs = self.spec_superblock().block_size as int;
            assert(((n - 1) as nat) * bs + bs == n * bs) by (nonlinear_arith)
                requires
                    n > 0,
            ;
        }
    }

    /// Reading a file gives exactly `inode.size` bytes.
    pub proof fn lemma_read_file_len(&self, inode: Inode)
        requires
            self.well_formed(),
        ensures
            self.spec_read_file(inode) matches Ok(d) ==> d.len() == inode.size,
    {
        if inode.size != 0 {
            let n = self.block_count(inode.size);
            let bs = self.spec_superblock().block_size as int;
            let d = inode.size as int;
            assert(n * bs >= d) by (nonlinear_arith)
                requires
                    n == (d + bs - 1) / bs,
                    bs > 0,
                    d >= 0,
            ;
            self.lemma_blocks_data_len(inode, n as nat);
        }
    }

    /// A path made only of slashes resolves to the root directory,
    /// whatever the image holds.
    pub proof fn lemma_slashes_resolve_to_root(&self, s: Seq<u8>)
        requires
            forall|i: int| 0 <= i < s.len() ==> s[i] == 0x2Fu8,
        ensures
            self.spec_walk(ROOT_INODE, path_components(s)) == LookupOutcome::Found(ROOT_INODE),
    {
        lemma_slashes_only_no_components(s);
    }

    /// An error reading block `k` is the error reading the first `n > k` blocks.
    proof fn lemma_blocks_data_error(&self, inode: Inode, k: nat, n: nat)
        requires
            k < n,
            self.blocks_data(inode, k) is Ok,
            self.block_data(inode, k as int) is Err,
        ensures
            self.blocks_data(inode, n) == Err::<Seq<u8>, Ext4Error>(
                self.block_data(inode, k as int)->Err_0,
            ),
        decreases n,
    {
        if n > k + 1 {
            self.lemma_blocks_data_error(inode, k, (n - 1) as nat);
        }
    }

    /// Walking `x` then `rest` is one step, then the walk of `rest`.
    proof fn lemma_walk_cons(&self, cur: u32, x: Seq<u8>, rest: Seq<Seq<u8>>)
        ensures
            self.spec_walk(cur, seq![x] + rest) == match self.spec_step(cur, x) {
                LookupOutcome::Found(c) => self.spec_walk(c, rest),
                other => other,
            },
    {
        let comps = seq![x] + rest;
        assert(comps[0] == x);
        assert(comps.drop_first() =~= rest);
    }

    /// The decoded superblock.
    pub fn superblock(&self) -> (r: &Superblock)
        ensures
            *r == self.spec_superblock(),
    {
        &self.superblock
    }

    /// The group descriptor table.
    pub fn group_descriptor_table(&self) -> (r: &[GroupDescriptor])
        ensures
            r@ == self.spec_gdt(),
    {
        self.gdt.as_slice()
    }

    /// Read and decode inode `inode_number` (1-based; 0 is never valid).
    pub fn read_inode(&self, inode_number: u32) -> (r: Result<Inode, Ext4Error>)
        ensures
            r == self.spec_read_inode(inode_number),
    {
        proof {
            use_type_invariant(self);
        }
        let sb = &self.superblock;
        if inode_number == 0 || inode_number > sb.inodes_count {
            return Err(Ext4Error::InodeOutOfRange { inode: inode_number, max: sb.inodes_count });
        }
        let zero_based = inode_number - 1;
        let group = zero_based / sb.inodes_per_group;
        let index_in_group = zero_based % sb.inodes_per_group;
        let group_idx = group as usize;
        if group_idx >= self.gdt.len() {
            return Err(
                Ext4Error::InvalidLayout { reason: "inode references non-existent group" },
            );
        }
        let table = self.gdt[group_idx].inode_table;
        assert(table as int * sb.block_size as int + index_in_group as int * sb.inode_size as int
            <= 0xffff_ffff_ffff_ffff * 65536 + 0xffff_ffff * 0xffff) by (nonlinear_arith)
            requires
                table <= 0xffff_ffff_ffff_ffffu64,
                sb.block_size <= 65536,
                index_in_group <= 0xffff_ffffu32,
                sb.inode_size <= 0xffffu16,
        ;
        let offset = table as u128 * sb.block_size as u128 + index_in_group as u128
            * sb.inode_size as u128;
        let buf = match read_image(&self.image, offset, sb.inode_size as u128) {
            Ok(b) => b,
            Err(e) => return Err(e),
        };
        match Inode::decode(buf, sb) {
            Ok(inode) => {
                proof {
                    lemma_inode_of(inode, buf@);
                }
                Ok(inode)
            },
            Err(e) => Err(Ext4Error::Inode(e)),
        }
    }

    /// Byte `i` of the file `inode`: byte `i % block_size` of the image
    /// block that its logical block `i / block_size` maps to, zero when
    /// that block is a hole or an uninitialised extent.
    pub open spec fn file_byte(&self, inode: Inode, i: int) -> u8 {
        let bs = self.spec_superblock().block_size as int;
        match self.spec_resolve(inode, (i / bs) as u32) {
            Ok(Some(p)) => self.image()[p * bs + i % bs],
            _ => 0u8,
        }
    }

    /// The first `n` blocks of a file whose blocks all read are the file's
    /// bytes below `n` blocks.
    proof fn lemma_blocks_data_bytes(&self, inode: Inode, n: nat)
        requires
            self.well_formed(),
            forall|k: int| 0 <= k < n ==> (#[trigger] self.block_data(inode, k)) is Ok,
        ensures
            self.blocks_data(inode, n) matches Ok(x) && x.len() == n * self.spec_superblock().block_size
                && forall|i: int|
                0 <= i < x.len() ==> #[trigger] x[i] == self.file_byte(inode, i),
        decreases n,
    {
        let bs = self.spec_superblock().block_size as int;
        if n > 0 {
            let m = (n - 1) as nat;
            self.lemma_blocks_data_bytes(inode, m);
            assert(self.block_data(inode, m as int) is Ok);
            let pre = self.blocks_data(inode, m)->Ok_0;
            let b = self.block_data(inode, m as int)->Ok_0;
            assert(b.len() == bs);
            assert(m * bs + bs == n * bs) by (nonlinear_arith)
                requires
                    n == m + 1,
            ;
            let x = pre + b;
            assert forall|i: int| 0 <= i < x.len() implies #[trigger] x[i] == self.file_byte(inode, i) by {
                if i >= m * bs {
                    let j = i - m * bs;
                    assert(i / bs == m && i % bs == j) by (nonlinear_arith)
                        requires
                            i == m * bs + j,
                            0 <= j < bs,
                            bs > 0,
                    ;
                    assert(x[i] == b[j]);
                }
            }
        }
    }

    /// A file all of whose blocks read back reads as its bytes: as long
    /// as its size, byte `i` being [`Filesystem::file_byte`]; an empty
    /// file reads as nothing.
    pub proof fn lemma_read_file_bytes(&self, inode: Inode)
        requires
            self.well_formed(),
            forall|k: int| 0 <= k < self.block_count(inode.size) ==> (#[trigger] self.block_data(inode, k)) is Ok,
        ensures
            self.spec_read_file(inode) matches Ok(d) && d.len() == inode.size && forall|i: int|
                0 <= i < d.len() ==> #[trigger] d[i] == self.file_byte(inode, i),
    {
        if inode.size > 0 {
            let bs = self.spec_superblock().block_size as int;
            let nb = self.block_count(inode.size);
            let sz = inode.size as int;
            assert(nb >= 0 && nb * bs >= sz) by (nonlinear_arith)
                requires
                    nb == (sz + bs - 1) / bs,
                    bs > 0,
                    sz > 0,
            ;
            self.lemma_blocks_data_bytes(inode, nb as nat);
        }
    }

    /// Read a whole file: every logical block in order, holes and
    /// uninitialised extents as zeros, cut to `inode.size` bytes.
    pub fn read_file(&self, inode: &Inode) -> (r: Result<Vec<u8>, Ext4Error>)
        ensures
            match r {
                Ok(v) => self.spec_read_file(*inode) == Ok::<Seq<u8>, Ext4Error>(v@),
                Err(e) => self.spec_read_file(*inode) == Err::<Seq<u8>, Ext4Error>(e),
            },
    {
        proof {
            use_type_invariant(self);
        }
        let size = inode.size;
        if size == 0 {
            return Ok(Vec::new());
        }
        let bs = self.superblock.block_size as u64;
        let bsz = self.superblock.block_size as usize;
        assert(size / bs <= size / 1024) by (nonlinear_arith)
            requires
                bs >= 1024,
        ;
        let num_blocks = size / bs + if size % bs != 0 {
            1
        } else {
            0
        };
        proof {
            let d = size as int;
            let p = bs as int;
            assert(d == p * (d / p) + d % p) by (nonlinear_arith)
                requires
                    p > 0,
            ;
            assert((d + p - 1) / p == if d % p == 0 {
                d / p
            } else {
                d / p + 1
            }) by (nonlinear_arith)
                requires
                    p > 0,
                    d >= 0,
            ;
            assert(num_blocks * p >= d) by (nonlinear_arith)
                requires
                    num_blocks == d / p + if d % p != 0 {
                        1int
                    } else {
                        0int
                    },
                    d == p * (d / p) + d % p,
                    0 <= d % p < p,
            ;
        }
        let mut data: Vec<u8> = Vec::new();
        let mut logical: u64 = 0;
        while logical < num_blocks
            invariant
                logical <= num_blocks,
                num_blocks == self.block_count(size),
                num_blocks * bs >= size,
                size == inode.size,
                size > 0,
                bs == self.spec_superblock().block_size,
                bsz == bs,
                1024 <= bs <= 65536,
                self.blocks_data(*inode, logical as nat) == Ok::<Seq<u8>, Ext4Error>(data@),
                data@.len() == logical * bs,
            decreases num_blocks - logical,
        {
            if logical > u32::MAX as u64 {
                proof {
                    self.lemma_blocks_data_error(*inode, logical as nat, num_blocks as nat);
                }
                return Err(
                    Ext4Error::InvalidLayout { reason: "file logical block index exceeds u32" },
                );
            }
            assert((logical + 1) * bs == logical * bs + bs) by (nonlinear_arith);
            let mapped = match self.resolve_logical_block(inode, logical as u32) {
                Ok(m) => m,
                Err(e) => {
                    assert(self.block_data(*inode, logical as int) == Err::<Seq<u8>, Ext4Error>(e));
                    proof {
                        self.lemma_blocks_data_error(*inode, logical as nat, num_blocks as nat);
                    }
                    return Err(e);
                },
            };
            if data.len() > usize::MAX - bsz {
                proof {
                    self.lemma_blocks_data_error(*inode, logical as nat, num_blocks as nat);
                }
                return Err(
                    Ext4Error::InvalidLayout { reason: "file size exceeds addressable memory" },
                );
            }
            let ghost before = data@;
            match mapped {
                Some(physical) => {
                    assert(physical as u128 * bs as u128 + bs as u128 <= 0xffff_ffff_ffff_ffff
                        * 65536 + 65536) by (nonlinear_arith)
                        requires
                            physical <= 0xffff_ffff_ffff_ffffu64,
                            bs <= 65536,
                    ;
                    let bytes = match read_image(
                        &self.image,
                        physical as u128 * bs as u128,
                        bs as u128,
                    ) {
                        Ok(b) => b,
                        Err(e) => {
                            proof {
                                self.lemma_blocks_data_error(
                                    *inode,
                                    logical as nat,
                                    num_blocks as nat,
                                );
                            }
                            return Err(e);
                        },
                    };
                    data.extend_from_slice(bytes);
                    assert(data@ =~= before + bytes@);
                },
                None => {
                    let mut k: usize = 0;
                    while k < bsz
                        invariant
                            k <= bsz,
                            data@ =~= before + Seq::new(k as nat, |i: int| 0u8),
                        decreases bsz - k,
                    {
                        data.push(0);
                        k = k + 1;
                    }
                },
            }
            assert(data@.len() == (logical + 1) * bs) by (nonlinear_arith)
                requires
                    data@.len() == logical * bs + bs,
            ;
            logical = logical + 1;
        }
        data.truncate(size as usize);
        Ok(data)
    }

    /// Read the entries of a directory: its contents walked as
    /// directory blocks.
    pub fn read_dir(&self, inode: &Inode) -> (r: Result<Vec<DirEntry>, Ext4Error>)
        ensures
            match r {
                Ok(v) => self.spec_read_dir(*inode) == Ok::<Seq<SpecDirEntry>, Ext4Error>(
                    v@.map_values(|e: DirEntry| e@),
                ),
                Err(e) => self.spec_read_dir(*inode) == Err::<Seq<SpecDirEntry>, Ext4Error>(e),
            },
    {
        let bytes = self.read_file(inode)?;
        match decode_dir_block(bytes.as_slice()) {
            Ok(v) => Ok(v),
            Err(x) => Err(Ext4Error::DirEntry(x)),
        }
    }

    /// Look up `name` in the directory `parent_inode`: the inode of the
    /// first live entry with that name, `NotFound` (carrying the name)
    /// when there is none. Unused slots are skipped.
    /// Looking `name` up in the directory `parent` matches names exactly:
    /// it finds inode `n` only when a live entry of the directory is named
    /// exactly `name` and is the first such, with inode `n`; it answers
    /// `NotFound` naming `name` exactly when the directory reads and no live
    /// entry has that name.
    pub proof fn lemma_lookup_exact(&self, parent: Inode, name: Seq<u8>, r: Result<u32, Ext4Error>)
        requires
            outcome_matches(r, self.spec_lookup(parent, name)),
        ensures
            r matches Ok(n) ==> self.spec_read_dir(parent) matches Ok(es) && exists|k: int|
                #![trigger es[k]]
                0 <= k < es.len() && es[k].inode != 0 && es[k].name == name && es[k].inode == n
                    && forall|j: int| 0 <= j < k ==> !names_live(#[trigger] es[j], name),
            self.spec_read_dir(parent) matches Ok(es) ==> ((forall|k: int|
                0 <= k < es.len() ==> !names_live(#[trigger] es[k], name)) <==> (r matches Err(
                Ext4Error::NotFound { name: m },
            ) && m@ == name)),
            self.spec_read_dir(parent) matches Ok(es) ==> ((exists|k: int|
                0 <= k < es.len() && names_live(#[trigger] es[k], name)) <==> r is Ok),
    {
        if let Ok(es) = self.spec_read_dir(parent) {
            lemma_find_live_exact(es, name);
        }
    }

    pub fn lookup(&self, parent_inode: &Inode, name: &[u8]) -> (r: Result<u32, Ext4Error>)
        ensures
            outcome_matches(r, self.spec_lookup(*parent_inode, name@)),
    {
        let entries = self.read_dir(parent_inode)?;
        let ghost es = entries@.map_values(|e: DirEntry| e@);
        let mut i: usize = 0;
        assert(es.skip(0) =~= es);
        while i < entries.len()
            invariant
                i <= entries@.len(),
                es == entries@.map_values(|e: DirEntry| e@),
                self.spec_read_dir(*parent_inode) == Ok::<Seq<SpecDirEntry>, Ext4Error>(es),
                find_live(es, name@) == find_live(es.skip(i as int), name@),
            decreases entries@.len() - i,
        {
            assert(es.skip(i as int).drop_first() =~= es.skip(i + 1));
            assert(es.skip(i as int)[0] == entries@[i as int]@);
            let entry = &entries[i];
            if !entry.is_unused() && bytes_eq(entry.name.as_slice(), name) {
                return Ok(entry.inode);
            }
            i = i + 1;
        }
        Err(Ext4Error::NotFound { name: vstd::slice::slice_to_vec(name) })
    }

    /// One step of a path walk: `current` must be a directory, in which
    /// `name` is looked up.
    fn step(&self, current: u32, name: &[u8]) -> (r: Result<u32, Ext4Error>)
        ensures
            outcome_matches(r, self.spec_step(current, name@)),
    {
        let parent = self.read_inode(current)?;
        if !parent.is_directory() {
            return Err(Ext4Error::NotADirectory { inode: current });
        }
        self.lookup(&parent, name)
    }

    /// Resolve an absolute path to an inode number, one component at a
    /// time from the root. Empty components (`//`, a trailing `/`) are
    /// skipped, so `/` is the root. Symlinks are not followed.
    pub fn open_path(&self, path: &str) -> (r: Result<u32, Ext4Error>)
        ensures
            outcome_matches(r, self.spec_walk(ROOT_INODE, path_components(path.spec_bytes()))),
    {
        self.open_path_bytes(path.as_bytes())
    }

    /// [`Filesystem::open_path`] on the path's bytes.
    fn open_path_bytes(&self, bytes: &[u8]) -> (r: Result<u32, Ext4Error>)
        ensures
            outcome_matches(r, self.spec_walk(ROOT_INODE, path_components(bytes@))),
    {
        let ghost b = bytes@;
        let mut current = ROOT_INODE;
        let mut start: usize = 0;
        let mut i: usize = 0;
        assert(b.skip(0) =~= b);
        assert(b.subrange(0, 0) =~= Seq::<u8>::empty());
        while i < bytes.len()
            invariant
                b == bytes@,
                start <= i <= b.len(),
                self.spec_walk(ROOT_INODE, path_components(b)) == self.spec_walk(
                    current,
                    components_from(b.skip(i as int), b.subrange(start as int, i as int)),
                ),
            decreases b.len() - i,
        {
            let ghost cur = b.subrange(start as int, i as int);
            assert(b.skip(i as int)[0] == b[i as int]);
            assert(b.skip(i as int).drop_first() =~= b.skip(i + 1));
            if bytes[i] == 0x2Fu8 {
                if start < i {
                    let comp = vstd::slice::slice_subrange(bytes, start, i);
                    proof {
                        self.lemma_walk_cons(
                            current,
                            cur,
                            components_from(b.skip(i + 1), Seq::empty()),
                        );
                    }
                    current = self.step(current, comp)?;
                } else {
                    assert(Seq::<Seq<u8>>::empty() + components_from(b.skip(i + 1), Seq::empty())
                        =~= components_from(b.skip(i + 1), Seq::empty()));
                }
                start = i + 1;
                assert(b.subrange(start as int, (i + 1) as int) =~= Seq::<u8>::empty());
            } else {
                assert(cur.push(b[i as int]) =~= b.subrange(start as int, i + 1));
            }
            i = i + 1;
        }
        assert(b.skip(i as int) =~= Seq::<u8>::empty());
        if start < i {
            let comp = vstd::slice::slice_subrange(bytes, start, i);
            proof {
                self.lemma_walk_cons(current, comp@, Seq::empty());
                assert(seq![comp@] + Seq::<Seq<u8>>::empty() =~= seq![comp@]);
            }
            let next = self.step(current, comp)?;
            return Ok(next);
        }
        Ok(current)
    }

    /// Resolve an inode's logical block to its physical block by walking
    /// the extent tree: `Some(physical)` when mapped, `None` for a sparse
    /// hole or an uninitialised extent (both read as zeros). Reads at most
    /// `MAX_EXTENT_DEPTH` blocks: an index node below the last of them is
    /// `MaxExtentDepthExceeded`.
    pub fn resolve_logical_block(&self, inode: &Inode, logical: u32) -> (r: Result<
        Option<u64>,
        Ext4Error,
    >)
        ensures
            r == self.spec_resolve(*inode, logical),
    {
        proof {
            use_type_invariant(self);
        }
        if !inode.uses_extents() {
            return Err(Ext4Error::NotExtentBased);
        }
        let block_size = self.superblock.block_size as u128;
        let mut node_buf: Vec<u8> = vstd::slice::slice_to_vec(inode.block.as_slice());
        let mut steps: u16 = MAX_EXTENT_DEPTH + 1;
        loop
            invariant
                self.spec_resolve(*inode, logical) == self.resolve_node(
                    node_buf@,
                    logical,
                    steps as nat,
                ),
                block_size == self.spec_superblock().block_size,
                block_size <= 65536,
            decreases steps,
        {
            if steps == 0 {
                return Err(Ext4Error::MaxExtentDepthExceeded { max: MAX_EXTENT_DEPTH });
            }
            let node = match decode_extent_node(node_buf.as_slice()) {
                Ok(n) => n,
                Err(e) => return Err(Ext4Error::Extent(e)),
            };
            match node {
                ExtentNode::Leaf { extents, .. } => {
                    let mut i: usize = 0;
                    assert(extents@.skip(0) =~= extents@);
                    assert(self.spec_resolve(*inode, logical) == Ok::<Option<u64>, Ext4Error>(
                        leaf_lookup(extents@, logical),
                    ));
                    while i < extents.len()
                        invariant
                            i <= extents@.len(),
                            self.spec_resolve(*inode, logical) == Ok::<Option<u64>, Ext4Error>(
                                leaf_lookup(extents@, logical),
                            ),
                            extents@ == node_extents(node_buf@),
                            forall|j: int|
                                0 <= j < extents@.len() ==> (#[trigger] extents@[j]).physical_block
                                    < 0x1_0000_0000_0000,
                            leaf_lookup(extents@, logical) == leaf_lookup(
                                extents@.skip(i as int),
                                logical,
                            ),
                        decreases extents@.len() - i,
                    {
                        let ext = &extents[i];
                        assert(extents@.skip(i as int).drop_first() =~= extents@.skip(i + 1));
                        let start = ext.logical_block;
                        let end = start as u64 + ext.len as u64;
                        if (logical as u64) >= start as u64 && (logical as u64) < end {
                            if ext.uninit {
                                return Ok(None);
                            }
                            let offset = (logical - start) as u64;
                            return Ok(Some(ext.physical_block + offset));
                        }
                        i = i + 1;
                    }
                    return Ok(None);
                },
                ExtentNode::Internal { indices, .. } => {
                    let mut chosen: Option<ExtentIndex> = None;
                    let mut i: usize = 0;
                    assert(indices@.skip(0) =~= indices@);
                    while i < indices.len() && indices[i].logical_block <= logical
                        invariant
                            i <= indices@.len(),
                            chosen_index(indices@, logical, None) == chosen_index(
                                indices@.skip(i as int),
                                logical,
                                chosen,
                            ),
                        decreases indices@.len() - i,
                    {
                        assert(indices@.skip(i as int).drop_first() =~= indices@.skip(i + 1));
                        chosen = Some(
                            ExtentIndex {
                                logical_block: indices[i].logical_block,
                                leaf_block: indices[i].leaf_block,
                            },
                        );
                        i = i + 1;
                    }
                    let idx = match chosen {
                        Some(ix) => ix,
                        None => return Ok(None),
                    };
                    if steps == 1 {
                        return Err(Ext4Error::MaxExtentDepthExceeded { max: MAX_EXTENT_DEPTH });
                    }
                    assert(idx.leaf_block as u128 * block_size + block_size <= 0xffff_ffff_ffff_ffff
                        * 65536 + 65536) by (nonlinear_arith)
                        requires
                            idx.leaf_block <= 0xffff_ffff_ffff_ffffu64,
                            block_size <= 65536,
                    ;
                    let leaf_offset = idx.leaf_block as u128 * block_size;
                    let bytes = match read_image(&self.image, leaf_offset, block_size) {
                        Ok(b) => b,
                        Err(e) => return Err(e),
                    };
                    node_buf = vstd::slice::slice_to_vec(bytes);
                },
            }
            steps = steps - 1;
        }
    }
}

/// How far the search for free blocks goes: the block count, but no
/// further than the blocks that the one bitmap block covers.
pub open spec fn block_limit(sb: Superblock) -> int {
    if sb.blocks_count < 8 * sb.block_size {
        sb.blocks_count as int
    } else {
        8 * sb.block_size
    }
}

/// `b` is the lowest clear bit of the bitmap `bm` below `max`, inside
/// the buffer.
pub open spec fn is_first_clear_bit(bm: Seq<u8>, max: int, b: int) -> bool {
    &&& 0 <= b < max
    &&& b / 8 < bm.len()
    &&& !bit_set(bm, b)
    &&& forall|c: int| 0 <= c < b ==> #[trigger] bit_set(bm, c)
}

/// The bitmap `bm` has a clear bit below `max`, inside the buffer.
pub open spec fn has_clear_bit(bm: Seq<u8>, max: int) -> bool {
    exists|b: int| 0 <= b < max && b / 8 < bm.len() && !#[trigger] bit_set(bm, b)
}

/// `start` is the lowest start of `n` consecutive clear bits of `bm`
/// lying below `max`.
pub open spec fn is_first_clear_run(bm: Seq<u8>, n: int, max: int, start: int) -> bool {
    &&& 0 <= start
    &&& start + n <= max
    &&& clear_run(bm, start, n)
    &&& forall|s: int| 0 <= s < start ==> !#[trigger] clear_run(bm, s, n)
}

/// The bitmap `bm` has `n` consecutive clear bits below `max`.
pub open spec fn has_clear_run(bm: Seq<u8>, n: int, max: int) -> bool {
    exists|s: int| 0 <= s && s + n <= max && #[trigger] clear_run(bm, s, n)
}

/// `new` is the bitmap `old` with bits `start .. start + n` set.
pub open spec fn run_set(old: Seq<u8>, new: Seq<u8>, start: int, n: int) -> bool {
    &&& new.len() == old.len()
    &&& forall|k: int|
        #![trigger bit_set(new, k)]
        #![trigger bit_set(old, k)]
        0 <= k ==> (bit_set(new, k) <==> (start <= k < start + n && k / 8 < old.len()) || bit_set(
            old,
            k,
        ))
}

/// `x - y`, or 0 when `y` is larger.
pub open spec fn sat_sub(x: int, y: int) -> int {
    if x >= y {
        x - y
    } else {
        0
    }
}

impl Filesystem {
    /// Byte offset of inode `n`'s slot in its group's inode table.
    pub open spec fn inode_slot(&self, n: u32) -> int {
        let sb = self.spec_superblock();
        let group = (n - 1) / (sb.inodes_per_group as int);
        let index = (n - 1) % (sb.inodes_per_group as int);
        self.spec_gdt()[group].inode_table * sb.block_size + index * sb.inode_size
    }

    /// The image bytes.
    pub fn image_bytes(&self) -> (r: &[u8])
        ensures
            r@ == self.image(),
    {
        self.image.as_slice()
    }

    /// Give up the filesystem, keeping its image bytes.
    pub fn into_image(self) -> (r: Vec<u8>)
        ensures
            r@ == self.image(),
    {
        self.image
    }

    /// Byte `i` lies in the superblock or in the group descriptor table.
    pub open spec fn in_metadata_region(&self, i: int) -> bool {
        let sb = self.spec_superblock();
        ||| SUPERBLOCK_OFFSET <= i < SUPERBLOCK_OFFSET + SUPERBLOCK_SIZE
        ||| gdt_offset(sb) <= i < gdt_offset(sb) + self.spec_gdt().len()
            * sb.spec_group_descriptor_size()
    }

    /// `img` is this image with the superblock and every group descriptor
    /// encoded at their places: the table's entries in full, the
    /// superblock where the table does not overlap it, every other byte
    /// as it was.
    pub open spec fn metadata_written(&self, img: Seq<u8>) -> bool {
        let sb = self.spec_superblock();
        let es = sb.spec_group_descriptor_size() as int;
        let go = gdt_offset(sb);
        &&& img.len() == self.image().len()
        &&& forall|i: int|
            0 <= i < img.len() && !self.in_metadata_region(i) ==> #[trigger] img[i]
                == self.image()[i]
        &&& go >= SUPERBLOCK_OFFSET + SUPERBLOCK_SIZE ==> sb.encoded_in(
            img.subrange(SUPERBLOCK_OFFSET as int, SUPERBLOCK_OFFSET + SUPERBLOCK_SIZE),
        )
        &&& forall|k: int|
            0 <= k < self.spec_gdt().len() ==> (#[trigger] self.spec_gdt()[k]).encoded_in(
                img.subrange(go + k * es, go + (k + 1) * es),
                es,
            )
    }

    /// Write `data` into the image at `off`, growing the image with zeros
    /// first when it ends before `off + data.len()`. Fails, leaving the
    /// image as it is, when the end lies past what memory can address.
    fn write_at(&mut self, off: u128, data: &[u8]) -> (r: Result<(), Ext4Error>)
        ensures
            write_at_step(*old(self), off, data@, r, *final(self)),
    {
        proof {
            use_type_invariant(&*self);
        }
        let len = data.len();
        if off > usize::MAX as u128 || off + len as u128 > usize::MAX as u128 {
            let offset = if off <= u64::MAX as u128 {
                off as u64
            } else {
                u64::MAX
            };
            return Err(Ext4Error::Io { offset, len: len as u64 });
        }
        let start = off as usize;
        let end = start + len;
        let ghost orig = self.image@;
        if self.image.len() < end {
            let mut grown = vstd::slice::slice_to_vec(self.image.as_slice());
            while grown.len() < end
                invariant
                    orig == self.image@,
                    self.well_formed(),
                    grown@.len() <= end,
                    grown@.len() >= orig.len(),
                    forall|i: int| 0 <= i < grown@.len() ==> #[trigger] grown@[i] == if i < orig.len() {
                        orig[i]
                    } else {
                        0u8
                    },
                decreases end - grown@.len(),
            {
                grown.push(0);
            }
            std::mem::swap(&mut self.image, &mut grown);
        }
        let ghost grown = self.image@;
        let n = self.image.len();
        let mut k: usize = 0;
        while k < len
            invariant
                k <= len,
                len == data@.len(),
                end == start + len,
                end <= n,
                self.image@.len() == n,
                n == grown.len(),
                self.superblock == old(self).superblock,
                self.gdt == old(self).gdt,
                old(self).well_formed(),
                n >= old(self).image@.len(),
                forall|j: int| 0 <= j < k ==> self.image@[start + j] == data@[j],
                forall|i: int|
                    0 <= i < n && !(start <= i < start + k) ==> #[trigger] self.image@[i] == grown[i],
            decreases len - k,
        {
            self.image[start + k] = data[k];
            k = k + 1;
        }
        assert(self.image@.subrange(start as int, end as int) =~= data@);
        Ok(())
    }

    /// Encode `inode` and write it to its slot in the inode table.
    fn write_inode(&mut self, inode_number: u32, inode: &Inode) -> (r: Result<(), Ext4Error>)
        requires
            inode_number == 0 || inode_number > old(self).spec_superblock().inodes_count || (
            inode_number - 1) / (old(self).spec_superblock().inodes_per_group as int) < old(
                self,
            ).spec_gdt().len(),
        ensures
            write_inode_step(*old(self), inode_number, *inode, r, *final(self)),
    {
        proof {
            use_type_invariant(&*self);
        }
        let sb = &self.superblock;
        if inode_number == 0 || inode_number > sb.inodes_count {
            return Err(Ext4Error::InodeOutOfRange { inode: inode_number, max: sb.inodes_count });
        }
        let zero_based = inode_number - 1;
        let group = zero_based / sb.inodes_per_group;
        let index_in_group = zero_based % sb.inodes_per_group;
        let table = self.gdt[group as usize].inode_table;
        assert(table as int * sb.block_size as int + index_in_group as int * sb.inode_size as int
            <= 0xffff_ffff_ffff_ffff * 65536 + 0xffff_ffff * 0xffff) by (nonlinear_arith)
            requires
                table <= 0xffff_ffff_ffff_ffffu64,
                sb.block_size <= 65536,
                index_in_group <= 0xffff_ffffu32,
                sb.inode_size <= 0xffffu16,
        ;
        let offset = table as u128 * sb.block_size as u128 + index_in_group as u128
            * sb.inode_size as u128;
        let mut buf = zeroed(sb.inode_size as usize);
        match inode.encode_into(buf.as_mut_slice(), sb) {
            Ok(()) => {},
            Err(e) => return Err(Ext4Error::InodeEncode(e)),
        }
        self.write_at(offset, buf.as_slice())
    }

    /// Re-encode the superblock and every group descriptor and write them
    /// back to their places.
    fn flush_metadata(&mut self) -> (r: Result<(), Ext4Error>)
        ensures
            flush_step(*old(self), r, *final(self)),
    {
        proof {
            use_type_invariant(&*self);
        }
        let mut sb_buf = zeroed(SUPERBLOCK_SIZE);
        match self.superblock.encode_into(sb_buf.as_mut_slice()) {
            Ok(()) => {},
            Err(e) => {
                assert(false);
                return Err(Ext4Error::SuperblockEncode(e));
            },
        }
        let ghost img0 = self.image@;
        match self.write_at(SUPERBLOCK_OFFSET as u128, sb_buf.as_slice()) {
            Ok(()) => {},
            Err(e) => {
                assert(false);
                return Err(e);
            },
        }
        let ghost img1 = self.image@;
        let entry_size = self.superblock.group_descriptor_size() as usize;
        let count = self.gdt.len();
        let block_size = self.superblock.block_size as u128;
        assert((self.superblock.first_data_block as u128 + 1) * block_size <= 0x1_0000_0000 * 65536)
            by (nonlinear_arith)
            requires
                self.superblock.first_data_block <= 0xffff_ffffu32,
                block_size <= 65536,
        ;
        let gdt_off = (self.superblock.first_data_block as u128 + 1) * block_size;
        let ghost sb = self.superblock;
        let mut all: Vec<u8> = Vec::new();
        let mut k: usize = 0;
        while k < count
            invariant
                k <= count,
                count == self.gdt@.len(),
                entry_size == sb.spec_group_descriptor_size(),
                sb == self.superblock,
                count > 0 ==> entry_size >= 32,
                gdt_offset(sb) + count * entry_size <= img1.len(),
                img1 == self.image@,
                all@.len() == k * entry_size,
                forall|j: int|
                    0 <= j < k ==> (#[trigger] self.gdt@[j]).encoded_in(
                        all@.subrange(j * entry_size, (j + 1) * entry_size),
                        entry_size as int,
                    ),
            decreases count - k,
        {
            assert((k + 1) * entry_size <= count * entry_size) by (nonlinear_arith)
                requires
                    k < count,
            ;
            let mut entry = zeroed(entry_size);
            match self.gdt[k].encode_into(entry.as_mut_slice(), &self.superblock) {
                Ok(()) => {},
                Err(e) => {
                    assert(false);
                    return Err(Ext4Error::GroupDescriptorEncode(e));
                },
            }
            let ghost before = all@;
            all.extend_from_slice(entry.as_slice());
            proof {
                assert((k + 1) * entry_size == k * entry_size + entry_size) by (nonlinear_arith);
                assert(all@.len() == (k + 1) * entry_size);
                assert(all@.subrange(k * entry_size, (k + 1) * entry_size) =~= entry@);
                assert forall|j: int| 0 <= j < k implies (#[trigger] self.gdt@[j]).encoded_in(
                    all@.subrange(j * entry_size, (j + 1) * entry_size),
                    entry_size as int,
                ) by {
                    assert((j + 1) * entry_size <= k * entry_size && 0 <= j * entry_size && j
                        * entry_size + entry_size == (j + 1) * entry_size) by (nonlinear_arith)
                        requires
                            j < k,
                            0 <= j,
                    ;
                    assert(all@.subrange(j * entry_size, (j + 1) * entry_size) =~= before.subrange(
                        j * entry_size,
                        (j + 1) * entry_size,
                    ));
                }
            }
            k = k + 1;
        }
        assert(img1 == self.image@);
        let img_len = self.image.len();
        match self.write_at(gdt_off, all.as_slice()) {
            Ok(()) => {},
            Err(e) => {
                assert(false);
                return Err(e);
            },
        }
        proof {
            let img2 = self.image@;
            let go = gdt_off as int;
            assert(img2.subrange(go, go + all@.len()) == all@);
            assert forall|j: int| 0 <= j < count implies (#[trigger] self.gdt@[j]).encoded_in(
                img2.subrange(go + j * entry_size, go + (j + 1) * entry_size),
                entry_size as int,
            ) by {
                assert((j + 1) * entry_size <= count * entry_size && 0 <= j * entry_size && j
                    * entry_size + entry_size == (j + 1) * entry_size) by (nonlinear_arith)
                    requires
                        j < count,
                        0 <= j,
                ;
                lemma_subrange_within(img2, go, all@, j * entry_size, (j + 1) * entry_size);
                assert(img2.subrange(go + j * entry_size, go + (j + 1) * entry_size) =~= all@.subrange(
                    j * entry_size,
                    (j + 1) * entry_size,
                ));
            }
            if go >= SUPERBLOCK_OFFSET + SUPERBLOCK_SIZE {
                assert(img2.subrange(SUPERBLOCK_OFFSET as int, SUPERBLOCK_OFFSET + SUPERBLOCK_SIZE)
                    =~= img1.subrange(SUPERBLOCK_OFFSET as int, SUPERBLOCK_OFFSET + SUPERBLOCK_SIZE));
            }
        }
        Ok(())
    }
}

impl Filesystem {
    /// Byte offset of group 0's inode bitmap.
    pub open spec fn inode_bitmap_offset(&self) -> int {
        self.spec_gdt()[0].inode_bitmap * self.spec_superblock().block_size
    }

    /// Byte offset of group 0's block bitmap.
    pub open spec fn block_bitmap_offset(&self) -> int {
        self.spec_gdt()[0].block_bitmap * self.spec_superblock().block_size
    }

    /// `new` is `self` with `img` as its image, `sb_free_inodes` and
    /// `sb_free_blocks` as the superblock's free counts, and `gd0` as
    /// group 0's descriptor; nothing else differs.
    pub open spec fn updated_to(
        &self,
        new: &Filesystem,
        img: Seq<u8>,
        sb_free_inodes: u32,
        sb_free_blocks: u64,
        gd0: GroupDescriptor,
    ) -> bool {
        &&& new.image() == img
        &&& new.spec_superblock() == Superblock {
            free_inodes_count: sb_free_inodes,
            free_blocks_count: sb_free_blocks,
            ..self.spec_superblock()
        }
        &&& new.spec_gdt() == self.spec_gdt().update(0, gd0)
    }

    /// Allocate the lowest free inode of group 0: set its bit in the inode
    /// bitmap and write the bitmap back, take one off the free inode
    /// counts (saturating), and return its 1-based number.
    fn allocate_inode(&mut self) -> (r: Result<u32, Ext4Error>)
        requires
            old(self).spec_gdt().len() > 0,
        ensures
            inode_alloc_step(*old(self), r, *final(self)),
    {
        proof {
            use_type_invariant(&*self);
        }
        let bs = self.superblock.block_size as u128;
        let bitmap_block = self.gdt[0].inode_bitmap;
        assert(bitmap_block as u128 * bs <= 0xffff_ffff_ffff_ffff * 65536) by (nonlinear_arith)
            requires
                bitmap_block <= 0xffff_ffff_ffff_ffffu64,
                bs <= 65536,
        ;
        let off = bitmap_block as u128 * bs;
        let mut buf = match read_image(&self.image, off, bs) {
            Ok(b) => vstd::slice::slice_to_vec(b),
            Err(e) => return Err(e),
        };
        let ghost bm = buf@;
        let img_len = self.image.len();
        let max_bit = self.superblock.inodes_per_group as usize;
        let bit = match find_first_zero(buf.as_slice(), max_bit) {
            Some(b) => b,
            None => {
                return Err(Ext4Error::NoSpace { what: "inodes" });
            },
        };
        set_bit(buf.as_mut_slice(), bit);
        match self.write_at(off, buf.as_slice()) {
            Ok(()) => {},
            Err(e) => {
                assert(false);
                return Err(e);
            },
        }
        let g = &self.gdt[0];
        let gd0 = GroupDescriptor {
            block_bitmap: g.block_bitmap,
            inode_bitmap: g.inode_bitmap,
            inode_table: g.inode_table,
            free_blocks_count: g.free_blocks_count,
            free_inodes_count: if g.free_inodes_count >= 1 {
                g.free_inodes_count - 1
            } else {
                0
            },
            used_dirs_count: g.used_dirs_count,
            flags: g.flags,
            checksum: g.checksum,
        };
        self.gdt[0] = gd0;
        self.superblock.free_inodes_count = if self.superblock.free_inodes_count >= 1 {
            self.superblock.free_inodes_count - 1
        } else {
            0
        };
        assert(self.gdt@ =~= old(self).gdt@.update(0, gd0));
        Ok((bit + 1) as u32)
    }

    /// Allocate the lowest run of `count` free blocks of group 0: set
    /// their bits in the block bitmap and write it back, take `count` off
    /// the free block counts (saturating), and return the run's first
    /// block. `count = 0` gives block 0 and changes nothing. The search
    /// covers the blocks below [`block_limit`]: the block count, or the
    /// blocks that the one bitmap block describes where there are more.
    fn allocate_blocks_contiguous(&mut self, count: u32) -> (r: Result<u64, Ext4Error>)
        requires
            old(self).spec_gdt().len() > 0,
        ensures
            blocks_alloc_step(*old(self), count, r, *final(self)),
    {
        proof {
            use_type_invariant(&*self);
        }
        if count == 0 {
            return Ok(0);
        }
        let bs = self.superblock.block_size as u128;
        let bitmap_block = self.gdt[0].block_bitmap;
        assert(bitmap_block as u128 * bs <= 0xffff_ffff_ffff_ffff * 65536) by (nonlinear_arith)
            requires
                bitmap_block <= 0xffff_ffff_ffff_ffffu64,
                bs <= 65536,
        ;
        let off = bitmap_block as u128 * bs;
        let mut buf = match read_image(&self.image, off, bs) {
            Ok(b) => vstd::slice::slice_to_vec(b),
            Err(e) => return Err(e),
        };
        let ghost bm = buf@;
        let img_len = self.image.len();
        let cap = 8 * self.superblock.block_size as u64;
        let max_bit = if self.superblock.blocks_count < cap {
            self.superblock.blocks_count as usize
        } else {
            cap as usize
        };
        let start = match find_first_zero_run(buf.as_slice(), count as usize, max_bit) {
            Some(st) => st,
            None => {
                return Err(Ext4Error::NoSpace { what: "blocks" });
            },
        };
        let mut i: usize = 0;
        while i < count as usize
            invariant
                i <= count,
                start + count <= max_bit,
                max_bit <= 8 * buf@.len(),
                bm.len() == buf@.len(),
                run_set(bm, buf@, start as int, i as int),
            decreases count - i,
        {
            set_bit(buf.as_mut_slice(), start + i);
            i = i + 1;
        }
        match self.write_at(off, buf.as_slice()) {
            Ok(()) => {},
            Err(e) => {
                assert(false);
                return Err(e);
            },
        }
        let g = &self.gdt[0];
        let gd0 = GroupDescriptor {
            block_bitmap: g.block_bitmap,
            inode_bitmap: g.inode_bitmap,
            inode_table: g.inode_table,
            free_blocks_count: if g.free_blocks_count >= count {
                g.free_blocks_count - count
            } else {
                0
            },
            free_inodes_count: g.free_inodes_count,
            used_dirs_count: g.used_dirs_count,
            flags: g.flags,
            checksum: g.checksum,
        };
        self.gdt[0] = gd0;
        self.superblock.free_blocks_count = if self.superblock.free_blocks_count >= count as u64 {
            self.superblock.free_blocks_count - count as u64
        } else {
            0
        };
        assert(self.gdt@ =~= old(self).gdt@.update(0, gd0));
        Ok(start as u64)
    }
}

/// What `Filesystem::write_at` does, from `o` to `f`.
pub open spec fn write_at_step(o: Filesystem, off: u128, data: Seq<u8>, r: Result<(), Ext4Error>, f: Filesystem) -> bool {
    &&& f.spec_superblock() == o.spec_superblock()
    &&& f.spec_gdt() == o.spec_gdt()
    &&& match r {
        Ok(()) => {
            &&& off + data.len() <= usize::MAX
            &&& written_at(o.image(), f.image(), off as int, data.len() as int)
            &&& f.image().subrange(off as int, off + data.len()) == data
        },
        Err(e) => {
            &&& off + data.len() > usize::MAX
            &&& e == Ext4Error::Io { offset: sat_u64(off as int), len: data.len() as u64 }
            &&& f.image() == o.image()
        },
    }
}

/// What `Filesystem::write_inode` does, from `o` to `f`.
pub open spec fn write_inode_step(o: Filesystem, inode_number: u32, inode: Inode, r: Result<(), Ext4Error>, f: Filesystem) -> bool {
    &&& f.spec_superblock() == o.spec_superblock()
    &&& f.spec_gdt() == o.spec_gdt()
    &&& match r {
        Ok(()) => {
            &&& 1 <= inode_number <= o.spec_superblock().inodes_count
            &&& o.spec_superblock().inode_size >= 128
            &&& o.inode_slot(inode_number) + o.spec_superblock().inode_size
                <= usize::MAX
            &&& written_at(
                o.image(),
                f.image(),
                o.inode_slot(inode_number),
                o.spec_superblock().inode_size as int,
            )
            &&& inode.encoded_in(
                f.image().subrange(
                    o.inode_slot(inode_number),
                    o.inode_slot(inode_number) + o.spec_superblock().inode_size,
                ),
                o.spec_superblock().inode_size as int,
            )
        },
        Err(e) => {
            &&& f.image() == o.image()
            &&& (1 <= inode_number <= o.spec_superblock().inodes_count && o.spec_superblock().inode_size >= 128) ==> o.inode_slot(inode_number)
                + o.spec_superblock().inode_size > usize::MAX
            &&& e == if inode_number == 0 || inode_number > o.spec_superblock().inodes_count {
                Ext4Error::InodeOutOfRange {
                    inode: inode_number,
                    max: o.spec_superblock().inodes_count,
                }
            } else if o.spec_superblock().inode_size < 128 {
                Ext4Error::InodeEncode(
                    InodeEncodeError::SuperblockInodeSizeTooSmall {
                        size: o.spec_superblock().inode_size,
                    },
                )
            } else {
                Ext4Error::Io {
                    offset: sat_u64(o.inode_slot(inode_number)),
                    len: o.spec_superblock().inode_size as u64,
                }
            }
        },
    }
}

/// What `Filesystem::flush_metadata` does, from `o` to `f`.
pub open spec fn flush_step(o: Filesystem, r: Result<(), Ext4Error>, f: Filesystem) -> bool {
    &&& r is Ok
    &&& f.spec_superblock() == o.spec_superblock()
    &&& f.spec_gdt() == o.spec_gdt()
    &&& o.metadata_written(f.image())
}

/// What `Filesystem::allocate_inode` does, from `o` to `f`.
pub open spec fn inode_alloc_step(o: Filesystem, r: Result<u32, Ext4Error>, f: Filesystem) -> bool {
    &&& ({
        let off = o.inode_bitmap_offset();
        let bs = o.spec_superblock().block_size as int;
        match read_range(o.image(), off, bs) {
            Err(e) => r == Err::<u32, Ext4Error>(e) && f == o,
            Ok(bm) => if !has_clear_bit(bm, o.spec_superblock().inodes_per_group as int) {
                r == Err::<u32, Ext4Error>(Ext4Error::NoSpace { what: "inodes" }) && f == o
            } else {
                &&& r is Ok
                &&& is_first_clear_bit(bm, o.spec_superblock().inodes_per_group as int, r->Ok_0 - 1)
                &&& written_at(o.image(), f.image(), off, bs)
                &&& f.image().subrange(off, off + bs) == crate::bitmap::with_bit_set(bm, r->Ok_0 - 1)
                &&& o.updated_to(
                    &f,
                    f.image(),
                    sat_sub(o.spec_superblock().free_inodes_count as int, 1) as u32,
                    o.spec_superblock().free_blocks_count,
                    GroupDescriptor {
                        free_inodes_count: sat_sub(o.spec_gdt()[0].free_inodes_count as int, 1) as u32,
                        ..o.spec_gdt()[0]
                    },
                )
            },
        }
    })
}

/// What `Filesystem::allocate_blocks_contiguous` does, from `o` to `f`.
pub open spec fn blocks_alloc_step(o: Filesystem, count: u32, r: Result<u64, Ext4Error>, f: Filesystem) -> bool {
    &&& ({
        let off = o.block_bitmap_offset();
        let bs = o.spec_superblock().block_size as int;
        let max = block_limit(o.spec_superblock());
        if count == 0 {
            r == Ok::<u64, Ext4Error>(0) && f == o
        } else {
            match read_range(o.image(), off, bs) {
                Err(e) => r == Err::<u64, Ext4Error>(e) && f == o,
                Ok(bm) => if !has_clear_run(bm, count as int, max) {
                    r == Err::<u64, Ext4Error>(Ext4Error::NoSpace { what: "blocks" })
                        && f == o
                } else {
                    &&& r is Ok
                    &&& is_first_clear_run(bm, count as int, max, r->Ok_0 as int)
                    &&& written_at(o.image(), f.image(), off, bs)
                    &&& run_set(bm, f.image().subrange(off, off + bs), r->Ok_0 as int, count as int)
                    &&& o.updated_to(
                        &f,
                        f.image(),
                        o.spec_superblock().free_inodes_count,
                        sat_sub(o.spec_superblock().free_blocks_count as int, count as int) as u64,
                        GroupDescriptor {
                            free_blocks_count: sat_sub(o.spec_gdt()[0].free_blocks_count as int, count as int) as u32,
                            ..o.spec_gdt()[0]
                        },
                    )
                },
            }
        }
    })
}

/// What `Filesystem::add_dir_entry` does, from `o` to `f`.
pub open spec fn entry_add_step(o: Filesystem, parent_inode: Inode, name: Seq<u8>, child_inode: u32, file_type: u8, r: Result<(), Ext4Error>, f: Filesystem) -> bool {
    &&& f.spec_superblock() == o.spec_superblock()
    &&& f.spec_gdt() == o.spec_gdt()
    &&& r == o.entry_outcome(parent_inode, name, child_inode, file_type)
    &&& ({
        let bs = o.spec_superblock().block_size as int;
        match o.spec_resolve(parent_inode, 0) {
            Err(e) => r == Err::<(), Ext4Error>(e) && f.image() == o.image(),
            Ok(None) => r == Err::<(), Ext4Error>(
                Ext4Error::InvalidLayout { reason: "directory has no first data block" },
            ) && f.image() == o.image(),
            Ok(Some(p)) => match read_range(o.image(), p * bs, bs) {
                Err(e) => r == Err::<(), Ext4Error>(e) && f.image() == o.image(),
                Ok(blk) => match dir_block_with_entry(blk, name, child_inode, file_type) {
                    Err(e) => r == Err::<(), Ext4Error>(e) && f.image() == o.image(),
                    Ok(nb) => {
                        &&& r is Ok
                        &&& written_at(o.image(), f.image(), p * bs, bs)
                        &&& f.image().subrange(p * bs, p * bs + bs) == nb
                    },
                },
            },
        }
    })
}

/// What `Filesystem::count_new_dir` does, from `o` to `f`.
pub open spec fn dir_count_step(o: Filesystem, f: Filesystem) -> bool {
    &&& f.image() == o.image()
    &&& f.spec_superblock() == o.spec_superblock()
    &&& f.spec_gdt() == o.spec_gdt().update(
        0,
        GroupDescriptor {
            used_dirs_count: ((o.spec_gdt()[0].used_dirs_count + 1) % 0x1_0000_0000) as u32,
            ..o.spec_gdt()[0]
        },
    )
}

/// `n` rounded up to a multiple of 4.
pub open spec fn spec_pad4(n: int) -> int {
    (n + 3) / 4 * 4
}

/// `n` rounded up to a multiple of 4.
pub fn pad4(n: usize) -> (r: usize)
    requires
        n + 3 <= usize::MAX,
    ensures
        r == spec_pad4(n as int),
{
    (n + 3) / 4 * 4
}

/// Walking the entries of the directory block `s` from byte `cursor`
/// on, in `rec_len` strides, having last met an entry at `last`: the
/// offset of the block's last entry, or the decode error met on the way.
pub open spec fn last_entry_from(s: Seq<u8>, cursor: int, last: Option<int>) -> Result<
    Option<int>,
    DirEntryDecodeError,
>
    decreases (if cursor < s.len() {
        s.len() - cursor
    } else {
        0
    }),
{
    if cursor < 0 || cursor >= s.len() {
        Ok(last)
    } else if dir_entry_decode_error(s.skip(cursor)) is Some {
        Err(dir_entry_decode_error(s.skip(cursor))->0)
    } else {
        proof {
            assert(le_u16(s.skip(cursor), 4) >= 8);
        }
        last_entry_from(s, cursor + le_u16(s.skip(cursor), 4), Some(cursor))
    }
}

/// The entry `e` with its `rec_len` cut to what its name needs.
pub open spec fn shrunk_entry(e: SpecDirEntry) -> SpecDirEntry {
    SpecDirEntry { rec_len: spec_pad4(8 + e.name.len() as int) as u16, ..e }
}

/// What appending an entry for `name` to the directory block `blk`
/// gives: the new block, or why it cannot be done.
pub open spec fn dir_block_with_entry(
    blk: Seq<u8>,
    name: Seq<u8>,
    child: u32,
    file_type: u8,
) -> Result<Seq<u8>, Ext4Error> {
    match last_entry_from(blk, 0, None) {
        Err(x) => Err(Ext4Error::DirEntry(x)),
        Ok(None) => Err(Ext4Error::InvalidLayout { reason: "directory block has no entries" }),
        Ok(Some(lo)) => {
            let last = dir_entry_at(blk.skip(lo));
            let last_actual = spec_pad4(8 + last.name.len() as int) as u16;
            let new_actual = spec_pad4(8 + name.len() as int) as u16;
            if new_actual > last.rec_len - last_actual {
                Err(
                    Ext4Error::UnsupportedV0 {
                        detail: "directory block full; v0 doesn't allocate a new dir block",
                    },
                )
            } else {
                let new_off = lo + last_actual;
                let entry = SpecDirEntry {
                    inode: child,
                    rec_len: (blk.len() - new_off) as u16,
                    file_type_raw: file_type,
                    name,
                };
                if dir_entry_encode_error(entry, blk.len() - new_off) is Some {
                    Err(Ext4Error::DirEntryEncode(dir_entry_encode_error(entry, blk.len() - new_off)->0))
                } else {
                    Ok(blk.take(lo) + encoded_dir_entry(shrunk_entry(last)) + encoded_dir_entry(entry))
                }
            }
        },
    }
}

/// Walking a block from `c`, where the rest of the block decodes to the
/// entries `es`, ends on the last of them, at its offset.
proof fn lemma_last_entry_of_entries(s: Seq<u8>, c: int, prev: Option<int>, es: Seq<SpecDirEntry>)
    requires
        0 <= c <= s.len(),
        dir_block_entries(s.skip(c)) == Ok::<Seq<SpecDirEntry>, DirEntryDecodeError>(es),
        es.len() >= 1,
    ensures
        last_entry_from(s, c, prev) == Ok::<Option<int>, DirEntryDecodeError>(
            Some(c + entry_offset(es, es.len() - 1)),
        ),
        dir_entry_at(s.skip(c + entry_offset(es, es.len() - 1))) == es.last(),
    decreases s.len() - c,
{
    let t = s.skip(c);
    let e = dir_entry_at(t);
    let rec = e.rec_len as int;
    assert(t.len() > 0);
    assert(dir_entry_decode_error(t) is None);
    assert(le_u16(t, 4) == e.rec_len);
    assert(last_entry_from(s, c, prev) == last_entry_from(s, c + rec, Some(c)));
    if rec >= t.len() {
        assert(last_entry_from(s, c + rec, Some(c)) == Ok::<Option<int>, DirEntryDecodeError>(Some(c)));
        assert(es == seq![e]);
        assert(entry_offset(es, 0) == 0);
        assert(s.skip(c + 0) =~= t);
    } else {
        let rest = dir_block_entries(t.skip(rec))->Ok_0;
        assert(es == seq![e] + rest);
        assert(t.skip(rec) =~= s.skip(c + rec));
        if rest.len() == 0 {
            assert(t.skip(rec).len() == 0);
        }
        lemma_last_entry_of_entries(s, c + rec, Some(c), rest);
        lemma_entry_offset_cons(e, rest, rest.len() - 1);
        assert(es.len() - 1 == rest.len());
        assert(es.last() == rest.last());
    }
}

/// Appending an entry to a directory block that decodes: the append is
/// refused as a full block when the new entry's padded size (`8 +` its
/// name length, rounded up to 4, below 65536) exceeds the slack of the
/// block's last entry (its `rec_len` less its own padded size); on a
/// block whose entries fill it exactly, with a name of at most 255
/// bytes, it succeeds whenever that slack suffices.
pub proof fn lemma_append_room(blk: Seq<u8>, name: Seq<u8>, child: u32, file_type: u8)
    requires
        dir_block_entries(blk) matches Ok(es) && es.len() >= 1,
    ensures
        ({
            let es = dir_block_entries(blk)->Ok_0;
            let last = es.last();
            let slack = last.rec_len - spec_pad4(8 + last.name.len() as int);
            let need = spec_pad4(8 + name.len() as int);
            &&& (need > slack && name.len() + 11 < 0x1_0000) ==> dir_block_with_entry(blk, name, child, file_type) == Err::<Seq<u8>, Ext4Error>(
                Ext4Error::UnsupportedV0 {
                    detail: "directory block full; v0 doesn't allocate a new dir block",
                },
            )
            &&& (need <= slack && name.len() <= DIR_ENTRY_NAME_MAX && blk.len() <= 65536 && blk.len() % 4 == 0
                && entry_offset(es, es.len() as int) == blk.len()) ==> dir_block_with_entry(
                blk,
                name,
                child,
                file_type,
            ) is Ok
        }),
{
    let es = dir_block_entries(blk)->Ok_0;
    assert(blk.skip(0) =~= blk);
    lemma_last_entry_of_entries(blk, 0, None, es);
    let lo = entry_offset(es, es.len() - 1);
    lemma_last_entry_aligned(blk, 0, None);
    let last = es.last();
    let nl = last.name.len() as int;
    let la = spec_pad4(8 + nl);
    let n = name.len() as int;
    let need = spec_pad4(8 + n);
    assert(la >= 8 + nl && la % 4 == 0 && la <= 8 + nl + 3) by (nonlinear_arith)
        requires
            la == (8 + nl + 3) / 4 * 4,
            nl >= 0,
    ;
    assert(need >= 8 + n && need % 4 == 0 && need <= 8 + n + 3) by (nonlinear_arith)
        requires
            need == (8 + n + 3) / 4 * 4,
            n >= 0,
    ;
    assert(nl <= 255);
    if need <= last.rec_len - la && n <= 255 && blk.len() <= 65536 && blk.len() % 4 == 0
        && entry_offset(es, es.len() as int) == blk.len() {
        lemma_entry_offset_cons_last(es);
        assert(lo + last.rec_len == blk.len());
        let new_off = lo + la;
        assert((blk.len() - new_off) % 4 == 0);
    }
}

/// The offset past the last entry is the last entry's offset plus its
/// `rec_len`.
proof fn lemma_entry_offset_cons_last(es: Seq<SpecDirEntry>)
    requires
        es.len() >= 1,
    ensures
        entry_offset(es, es.len() as int) == entry_offset(es, es.len() - 1) + es.last().rec_len,
{
}

/// The walk from a 4-aligned cursor stays 4-aligned and never meets a
/// short entry.
proof fn lemma_last_entry_aligned(s: Seq<u8>, cursor: int, last: Option<int>)
    requires
        cursor >= 0,
        cursor % 4 == 0,
        last matches Some(l) ==> l % 4 == 0 && 0 <= l < s.len() && dir_entry_decode_error(s.skip(l)) is None,
    ensures
        last_entry_from(s, cursor, last) matches Ok(Some(l)) ==> l % 4 == 0 && 0 <= l < s.len()
            && dir_entry_decode_error(s.skip(l)) is None,
    decreases (if cursor < s.len() {
        s.len() - cursor
    } else {
        0
    }),
{
    if cursor < s.len() && dir_entry_decode_error(s.skip(cursor)) is None {
        assert(le_u16(s.skip(cursor), 4) >= 8);
        lemma_last_entry_aligned(s, cursor + le_u16(s.skip(cursor), 4), Some(cursor));
    }
}

/// A walk that starts inside the block and succeeds ends on an entry at
/// or after its start.
proof fn lemma_last_entry_at_or_after(s: Seq<u8>, cursor: int, last: Option<int>)
    requires
        0 <= cursor < s.len(),
    ensures
        last_entry_from(s, cursor, last) matches Ok(Some(l)) ==> l >= cursor,
    decreases s.len() - cursor,
{
    if dir_entry_decode_error(s.skip(cursor)) is None {
        assert(le_u16(s.skip(cursor), 4) >= 8);
        let next = cursor + le_u16(s.skip(cursor), 4);
        if next < s.len() {
            lemma_last_entry_at_or_after(s, next, Some(cursor));
        }
    }
}

/// Two byte strings of one length that agree on their first `k` bytes,
/// the second starting with a well-formed entry of `rec_len` `k`, start
/// with the same entry.
proof fn lemma_same_entry(x: Seq<u8>, y: Seq<u8>, k: int)
    requires
        x.len() == y.len(),
        k <= x.len(),
        x.take(k) == y.take(k),
        dir_entry_decode_error(y) is None,
        le_u16(y, 4) == k,
    ensures
        dir_entry_decode_error(x) is None,
        dir_entry_at(x) == dir_entry_at(y),
{
    assert forall|i: int| 0 <= i < k implies x[i] == y[i] by {
        assert(x.take(k)[i] == x[i]);
        assert(y.take(k)[i] == y[i]);
    }
    assert(x[0] == y[0] && x[1] == y[1] && x[2] == y[2] && x[3] == y[3]);
    assert(x[4] == y[4] && x[5] == y[5] && x[6] == y[6] && x[7] == y[7]);
    assert(x.subrange(8, 8 + y[6]) =~= y.subrange(8, 8 + y[6]));
}

/// Walking a block from an entry `c` whose walk ends at the entry `lo`:
/// when another block of the same length agrees with it before `lo` and
/// walks from `lo` to `tail`, the other block walks from `c` to this
/// block's entries from `c` with the last one replaced by `tail`.
proof fn lemma_walk_to_last(
    blk: Seq<u8>,
    nb: Seq<u8>,
    c: int,
    prev: Option<int>,
    lo: int,
    tail: Seq<SpecDirEntry>,
)
    requires
        blk.len() == nb.len(),
        0 <= c <= lo < blk.len(),
        nb.take(lo) == blk.take(lo),
        last_entry_from(blk, c, prev) == Ok::<Option<int>, DirEntryDecodeError>(Some(lo)),
        dir_block_entries(blk.skip(c)) is Ok,
        dir_block_entries(nb.skip(lo)) == Ok::<Seq<SpecDirEntry>, DirEntryDecodeError>(tail),
    ensures
        ({
            let es = dir_block_entries(blk.skip(c))->Ok_0;
            &&& es.len() >= 1
            &&& es.last() == dir_entry_at(blk.skip(lo))
            &&& dir_block_entries(nb.skip(c)) == Ok::<Seq<SpecDirEntry>, DirEntryDecodeError>(
                es.drop_last() + tail,
            )
        }),
    decreases lo - c,
{
    let s = blk.skip(c);
    assert(dir_entry_decode_error(s) is None);
    let rec = le_u16(s, 4) as int;
    assert(rec >= 8);
    let next = c + rec;
    if c == lo {
        if next < blk.len() {
            lemma_last_entry_at_or_after(blk, next, Some(c));
        }
        let es = seq![dir_entry_at(s)];
        assert(dir_block_entries(s) == Ok::<Seq<SpecDirEntry>, DirEntryDecodeError>(es));
        assert(es.drop_last() + tail =~= tail);
    } else {
        if next < blk.len() {
            lemma_last_entry_at_or_after(blk, next, Some(c));
        }
        assert(next <= lo);
        let t = nb.skip(c);
        assert forall|i: int| 0 <= i < rec implies t.take(rec)[i] == s.take(rec)[i] by {
            assert(t.take(rec)[i] == nb[c + i]);
            assert(s.take(rec)[i] == blk[c + i]);
            assert(nb.take(lo)[c + i] == nb[c + i]);
            assert(blk.take(lo)[c + i] == blk[c + i]);
        }
        assert(t.take(rec) =~= s.take(rec));
        lemma_same_entry(t, s, rec);
        assert(s.skip(rec) =~= blk.skip(next));
        assert(t.skip(rec) =~= nb.skip(next));
        lemma_walk_to_last(blk, nb, next, Some(c), lo, tail);
        let rest = dir_block_entries(blk.skip(next))->Ok_0;
        let es = seq![dir_entry_at(s)] + rest;
        assert(dir_block_entries(s) == Ok::<Seq<SpecDirEntry>, DirEntryDecodeError>(es));
        assert(es.last() == rest.last());
        assert(es.drop_last() =~= seq![dir_entry_at(s)] + rest.drop_last());
        assert(seq![dir_entry_at(t)] + (rest.drop_last() + tail) =~= es.drop_last() + tail);
    }
}

/// Looking a name up in two lists one after the other finds what the
/// first gives, or else what the second gives.
proof fn lemma_find_live_append(a: Seq<SpecDirEntry>, b: Seq<SpecDirEntry>, name: Seq<u8>)
    ensures
        find_live(a + b, name) == if find_live(a, name) is Some {
            find_live(a, name)
        } else {
            find_live(b, name)
        },
    decreases a.len(),
{
    if a.len() == 0 {
        assert(a + b =~= b);
    } else {
        assert((a + b).drop_first() =~= a.drop_first() + b);
        lemma_find_live_append(a.drop_first(), b, name);
    }
}

/// The bytes of two entries, the second filling what the first leaves,
/// walk to exactly those two entries.
proof fn lemma_two_entries(a: SpecDirEntry, b: SpecDirEntry)
    requires
        dir_entry_encode_error(a, a.rec_len + b.rec_len) is None,
        dir_entry_encode_error(b, b.rec_len as int) is None,
    ensures
        dir_block_entries(encoded_dir_entry(a) + encoded_dir_entry(b)) == Ok::<
            Seq<SpecDirEntry>,
            DirEntryDecodeError,
        >(seq![a, b]),
{
    let x = encoded_dir_entry(a);
    let y = encoded_dir_entry(b);
    assert(x.len() == a.rec_len);
    assert(y.len() == b.rec_len);
    lemma_dir_entry_encode_decode(a, y);
    lemma_dir_entry_encode_decode(b, Seq::empty());
    assert(y + Seq::<u8>::empty() =~= y);
    let s = x + y;
    assert(s.skip(a.rec_len as int) =~= y);
    assert(dir_block_entries(y) == Ok::<Seq<SpecDirEntry>, DirEntryDecodeError>(seq![b]));
    assert(seq![a] + seq![b] =~= seq![a, b]);
}

/// Appending an entry for `name` to a directory block keeps every entry
/// before the last, cuts the last one's `rec_len` to what its name
/// needs, and adds the new entry after it, filling the rest of the
/// block.
#[verifier::rlimit(40)]
#[verifier::spinoff_prover]
pub proof fn lemma_appended_block_entries(blk: Seq<u8>, name: Seq<u8>, child: u32, file_type: u8)
    requires
        blk.len() <= 65536,
        dir_block_with_entry(blk, name, child, file_type) is Ok,
        dir_block_entries(blk) is Ok,
    ensures
        ({
            let es = dir_block_entries(blk)->Ok_0;
            let lo = last_entry_from(blk, 0, None)->Ok_0->Some_0;
            let last = es.last();
            let entry = SpecDirEntry {
                inode: child,
                rec_len: (blk.len() - lo - spec_pad4(8 + last.name.len() as int)) as u16,
                file_type_raw: file_type,
                name,
            };
            &&& es.len() >= 1
            &&& last == dir_entry_at(blk.skip(lo))
            &&& dir_block_entries(dir_block_with_entry(blk, name, child, file_type)->Ok_0) == Ok::<
                Seq<SpecDirEntry>,
                DirEntryDecodeError,
            >(es.drop_last() + seq![shrunk_entry(last), entry])
        }),
{
    let lo = last_entry_from(blk, 0, None)->Ok_0->Some_0;
    lemma_last_entry_aligned(blk, 0, None);
    let last = dir_entry_at(blk.skip(lo));
    let nl = last.name.len() as int;
    assert(nl == blk.skip(lo)[6]);
    let la = spec_pad4(8 + nl);
    assert(la >= 8 + nl && la % 4 == 0 && la <= 8 + nl + 3) by (nonlinear_arith)
        requires
            la == (8 + nl + 3) / 4 * 4,
            nl >= 0,
    ;
    let last_actual = la as u16;
    let new_off = lo + last_actual;
    let entry = SpecDirEntry {
        inode: child,
        rec_len: (blk.len() - new_off) as u16,
        file_type_raw: file_type,
        name,
    };
    let sh = shrunk_entry(last);
    let nbk = dir_block_with_entry(blk, name, child, file_type)->Ok_0;
    assert(nbk == blk.take(lo) + encoded_dir_entry(sh) + encoded_dir_entry(entry));
    assert(dir_entry_encode_error(entry, blk.len() - new_off) is None);
    assert(entry.rec_len == blk.len() - new_off);
    lemma_two_entries(sh, entry);
    let tl = encoded_dir_entry(sh) + encoded_dir_entry(entry);
    assert(nbk.skip(lo) =~= tl);
    assert(nbk.take(lo) =~= blk.take(lo));
    assert(blk.skip(0) =~= blk);
    assert(nbk.skip(0) =~= nbk);
    lemma_walk_to_last(blk, nbk, 0, None, lo, seq![sh, entry]);
}

/// Appending an entry for `name` to a directory block where no live
/// entry has that name gives a block in which `name` is found, naming
/// the new entry's inode.
pub proof fn lemma_appended_entry_found(blk: Seq<u8>, name: Seq<u8>, child: u32, file_type: u8)
    requires
        blk.len() <= 65536,
        dir_block_with_entry(blk, name, child, file_type) is Ok,
        dir_block_entries(blk) matches Ok(es) && find_live(es, name) is None,
        child != 0,
    ensures
        dir_block_entries(dir_block_with_entry(blk, name, child, file_type)->Ok_0) matches Ok(es2)
            && find_live(es2, name) == Some(child),
{
    lemma_appended_block_entries(blk, name, child, file_type);
    let es = dir_block_entries(blk)->Ok_0;
    let lo = last_entry_from(blk, 0, None)->Ok_0->Some_0;
    let last = es.last();
    let entry = SpecDirEntry {
        inode: child,
        rec_len: (blk.len() - lo - spec_pad4(8 + last.name.len() as int)) as u16,
        file_type_raw: file_type,
        name,
    };
    lemma_found_after_last(es, shrunk_entry(last), entry, name);
}

/// In a list where `name` is not found, replacing the last entry by one
/// of the same inode and name followed by a live entry for `name` makes
/// `name` found there.
proof fn lemma_found_after_last(es: Seq<SpecDirEntry>, sh: SpecDirEntry, entry: SpecDirEntry, name: Seq<u8>)
    requires
        es.len() >= 1,
        find_live(es, name) is None,
        sh.inode == es.last().inode,
        sh.name == es.last().name,
        entry.inode != 0,
        entry.name == name,
    ensures
        find_live(es.drop_last() + seq![sh, entry], name) == Some(entry.inode),
{
    let l = seq![es.last()];
    let two = seq![sh, entry];
    let one = seq![entry];
    assert(es.drop_last() + l =~= es);
    lemma_find_live_append(es.drop_last(), l, name);
    assert(find_live(es.drop_last(), name) is None);
    assert(l.drop_first() =~= Seq::<SpecDirEntry>::empty());
    assert(l[0] == es.last());
    assert(find_live(l, name) is None);
    assert(!(es.last().inode != 0 && es.last().name == name));
    assert(one.drop_first() =~= Seq::<SpecDirEntry>::empty());
    assert(one[0] == entry);
    assert(find_live(one, name) == Some(entry.inode));
    assert(two.drop_first() =~= one);
    assert(two[0] == sh);
    assert(find_live(two, name) == Some(entry.inode));
    lemma_find_live_append(es.drop_last(), two, name);
}

/// The directory block `block` with an entry for `name` appended, as
/// [`dir_block_with_entry`] describes it.
#[verifier::rlimit(60)]
fn block_with_entry(block: &[u8], name: &[u8], child_inode: u32, file_type: u8) -> (r: Result<
    Vec<u8>,
    Ext4Error,
>)
    requires
        name@.len() + 11 <= usize::MAX,
        block@.len() <= 65536,
        block@.len() % 4 == 0,
    ensures
        match r {
            Ok(v) => v@.len() == block@.len() && dir_block_with_entry(block@, name@, child_inode, file_type) == Ok::<
                Seq<u8>,
                Ext4Error,
            >(v@),
            Err(e) => dir_block_with_entry(block@, name@, child_inode, file_type) == Err::<
                Seq<u8>,
                Ext4Error,
            >(e),
        },
{
    let bsz = block.len();
    let ghost blk = block@;
    // walk to the last entry of the block
    let mut cursor: usize = 0;
    let mut last_offset: usize = 0;
    let mut last: Option<DirEntry> = None;
    let ghost mut lastg: Option<int> = None;
    while cursor < bsz
        invariant
            blk == block@,
            blk.len() == bsz,
            bsz <= 65536,
            bsz % 4 == 0,
            cursor % 4 == 0,
            cursor <= bsz + 65535,
            last_entry_from(blk, 0, None) == last_entry_from(blk, cursor as int, lastg),
            lastg matches Some(l) ==> {
                &&& l == last_offset
                &&& l % 4 == 0
                &&& 0 <= l < blk.len()
                &&& dir_entry_decode_error(blk.skip(l)) is None
                &&& last matches Some(e) && e@ == dir_entry_at(blk.skip(l))
            },
            lastg is None ==> cursor == 0,
            (lastg is Some) == (last is Some),
        decreases (if cursor < bsz {
            bsz - cursor
        } else {
            0
        }),
    {
        let rest = vstd::slice::slice_subrange(block, cursor, bsz);
        assert(rest@ =~= blk.skip(cursor as int));
        let entry = match DirEntry::decode(rest) {
            Ok(e) => e,
            Err(x) => {
                assert(last_entry_from(blk, cursor as int, lastg) == Err::<
                    Option<int>,
                    DirEntryDecodeError,
                >(x));
                return Err(Ext4Error::DirEntry(x));
            },
        };
        assert(entry@ == dir_entry_at(blk.skip(cursor as int)));
        assert(entry.rec_len == le_u16(blk.skip(cursor as int), 4));
        assert(entry.rec_len >= 8 && entry.rec_len % 4 == 0);
        proof {
            lastg = Some(cursor as int);
        }
        last_offset = cursor;
        cursor = cursor + entry.rec_len as usize;
        last = Some(entry);
    }
    let last = match last {
        Some(e) => e,
        None => {
            return Err(Ext4Error::InvalidLayout { reason: "directory block has no entries" });
        },
    };
    proof {
        lemma_last_entry_aligned(blk, 0, None);
    }
    let ghost lo = last_offset as int;
    let ghost last_spec = dir_entry_at(blk.skip(lo));
    assert(last@ == last_spec);
    assert(last.name@.len() <= 255);
    let last_actual = pad4(8 + last.name.len()) as u16;
    let new_actual = #[verifier::truncate] (pad4(8 + name.len()) as u16);
    assert(spec_pad4(8 + last_spec.name.len() as int) <= last_spec.rec_len && spec_pad4(8 + last_spec.name.len() as int) <= blk.len() - lo && spec_pad4(8 + last_spec.name.len() as int) >= 8) by (nonlinear_arith)
        requires
            8 + last_spec.name.len() <= last_spec.rec_len,
            last_spec.rec_len % 4 == 0,
            8 + last_spec.name.len() <= blk.len() - lo,
            (blk.len() - lo) % 4 == 0,
    ;
    if new_actual as usize > last.rec_len as usize - last_actual as usize {
        return Err(
            Ext4Error::UnsupportedV0 {
                detail: "directory block full; v0 doesn't allocate a new dir block",
            },
        );
    }
    let shrunk = DirEntry {
        inode: last.inode,
        rec_len: last_actual,
        file_type_raw: last.file_type_raw,
        name: last.name,
    };
    assert(shrunk@ == shrunk_entry(last_spec));
    let mut shrunk_buf = zeroed(last_actual as usize);
    match shrunk.encode_into(shrunk_buf.as_mut_slice()) {
        Ok(()) => {},
        Err(x) => {
            assert(false);
            return Err(Ext4Error::DirEntryEncode(x));
        },
    }
    let new_offset = last_offset + last_actual as usize;
    let new_rec_len = (bsz - new_offset) as u16;
    let new_entry = DirEntry {
        inode: child_inode,
        rec_len: new_rec_len,
        file_type_raw: file_type,
        name: vstd::slice::slice_to_vec(name),
    };
    let mut new_buf = zeroed(bsz - new_offset);
    match new_entry.encode_into(new_buf.as_mut_slice()) {
        Ok(()) => {},
        Err(x) => return Err(Ext4Error::DirEntryEncode(x)),
    }
    let mut new_block = vstd::slice::slice_to_vec(block);
    write_bytes(new_block.as_mut_slice(), last_offset, shrunk_buf.as_slice());
    let ghost mid = new_block@;
    write_bytes(new_block.as_mut_slice(), new_offset, new_buf.as_slice());
    proof {
        let expected = blk.take(lo) + encoded_dir_entry(shrunk_entry(last_spec))
            + encoded_dir_entry(new_entry@);
        assert(new_buf@ == encoded_dir_entry(new_entry@));
        assert(shrunk_buf@ == encoded_dir_entry(shrunk_entry(last_spec)));
        assert forall|i: int| 0 <= i < bsz implies new_block@[i] == expected[i] by {
            if i < lo {
            } else if i < new_offset {
                assert(mid[i] == mid.subrange(lo, new_offset as int)[i - lo]);
            } else {
                assert(new_block@[i] == new_block@.subrange(new_offset as int, bsz as int)[i - new_offset]);
            }
        }
        assert(new_block@ =~= expected);
    }
    Ok(new_block)
}

impl Filesystem {
    /// Append an entry for `name` (inode `child_inode`, type
    /// `file_type`) to the first block of the directory `parent_inode`,
    /// cutting the block's last entry down to its own size and giving the
    /// new entry the rest of the block. A full block is not extended.
    fn add_dir_entry(&mut self, parent_inode: &Inode, name: &[u8], child_inode: u32, file_type: u8) -> (r: Result<(), Ext4Error>)
        requires
            name@.len() + 11 <= usize::MAX,
        ensures
            entry_add_step(*old(self), *parent_inode, name@, child_inode, file_type, r, *final(self)),
    {
        proof {
            use_type_invariant(&*self);
        }
        let bsz = self.superblock.block_size as usize;
        let bs = self.superblock.block_size as u128;
        let physical = match self.resolve_logical_block(parent_inode, 0) {
            Ok(Some(p)) => p,
            Ok(None) => {
                return Err(Ext4Error::InvalidLayout { reason: "directory has no first data block" });
            },
            Err(e) => return Err(e),
        };
        assert(physical as u128 * bs <= 0xffff_ffff_ffff_ffff * 65536) by (nonlinear_arith)
            requires
                physical <= 0xffff_ffff_ffff_ffffu64,
                bs <= 65536,
        ;
        let off = physical as u128 * bs;
        let block = match read_image(&self.image, off, bs) {
            Ok(b) => b,
            Err(e) => return Err(e),
        };
        let ghost blk = block@;
        let img_len = self.image.len();
        let new_block = block_with_entry(block, name, child_inode, file_type)?;
        match self.write_at(off, new_block.as_slice()) {
            Ok(()) => {},
            Err(e) => {
                assert(false);
                return Err(e);
            },
        }
        Ok(())
    }
}

/// `s` with its trailing `/` bytes removed.
pub open spec fn trim_trailing_slashes(s: Seq<u8>) -> Seq<u8>
    decreases s.len(),
{
    if s.len() > 0 && s.last() == 0x2Fu8 {
        trim_trailing_slashes(s.drop_last())
    } else {
        s
    }
}

/// Trimming trailing slashes never lengthens a path.
proof fn lemma_trim_len(s: Seq<u8>)
    ensures
        trim_trailing_slashes(s).len() <= s.len(),
    decreases s.len(),
{
    if s.len() > 0 && s.last() == 0x2Fu8 {
        lemma_trim_len(s.drop_last());
    }
}

/// The last `/` lies inside the path.
proof fn lemma_last_slash_range(s: Seq<u8>)
    ensures
        last_slash(s) matches Some(i) ==> 0 <= i < s.len(),
    decreases s.len(),
{
    if s.len() > 0 && s.last() != 0x2Fu8 {
        lemma_last_slash_range(s.drop_last());
    }
}

/// Index of the last `/` of `s`.
pub open spec fn last_slash(s: Seq<u8>) -> Option<int>
    decreases s.len(),
{
    if s.len() == 0 {
        None
    } else if s.last() == 0x2Fu8 {
        Some(s.len() - 1)
    } else {
        last_slash(s.drop_last())
    }
}

/// The parent path and final component of the absolute path `s`, its
/// trailing slashes ignored; the parent of a top-level name is `/`.
pub open spec fn split_path_spec(s: Seq<u8>) -> Result<(Seq<u8>, Seq<u8>), Ext4Error> {
    if s.len() == 0 || s[0] != 0x2Fu8 {
        Err(Ext4Error::InvalidLayout { reason: "path must be absolute (start with '/')" })
    } else {
        let t = trim_trailing_slashes(s);
        match last_slash(t) {
            None => Err(Ext4Error::InvalidLayout { reason: "path has no final component" }),
            Some(i) => {
                let name = t.skip(i + 1);
                let parent = t.take(i);
                if name.len() == 0 {
                    Err(Ext4Error::InvalidLayout { reason: "path has no final component" })
                } else if parent.len() == 0 {
                    Ok((seq![0x2Fu8], name))
                } else {
                    Ok((parent, name))
                }
            },
        }
    }
}

/// The last `/` of `s` is one, and none follows it.
proof fn lemma_last_slash_is_last(s: Seq<u8>)
    ensures
        last_slash(s) matches Some(i) ==> 0 <= i < s.len() && s[i] == 0x2Fu8 && forall|j: int|
            i < j < s.len() ==> s[j] != 0x2Fu8,
        last_slash(s) is None ==> forall|j: int| 0 <= j < s.len() ==> s[j] != 0x2Fu8,
    decreases s.len(),
{
    if s.len() > 0 && s.last() != 0x2Fu8 {
        let d = s.drop_last();
        lemma_last_slash_is_last(d);
        assert forall|j: int| 0 <= j < d.len() implies d[j] == s[j] by {}
    }
}

/// What a successful split of a path gives: a non-empty final component
/// without `/`, which ends the path once its trailing slashes are gone,
/// right after a `/`; the parent is what comes before that `/`, or `/`
/// when nothing does. A path that is empty or does not start with `/`
/// is refused.
pub proof fn lemma_split_path_parts(s: Seq<u8>)
    ensures
        split_path_spec(s) matches Ok((parent, name)) ==> {
            let t = trim_trailing_slashes(s);
            let k = t.len() - name.len() - 1;
            &&& s.len() > 0 && s[0] == 0x2Fu8
            &&& name.len() > 0
            &&& forall|j: int| 0 <= j < name.len() ==> name[j] != 0x2Fu8
            &&& 0 <= k && t[k] == 0x2Fu8
            &&& t.skip(k + 1) == name
            &&& parent == if k == 0 {
                seq![0x2Fu8]
            } else {
                t.take(k)
            }
        },
        s.len() == 0 || s[0] != 0x2Fu8 ==> split_path_spec(s) is Err,
{
    let t = trim_trailing_slashes(s);
    lemma_trim_len(s);
    lemma_last_slash_is_last(t);
    if let Ok((parent, name)) = split_path_spec(s) {
        let i = last_slash(t)->Some_0;
        assert(name == t.skip(i + 1));
        assert(name.len() == t.len() - i - 1);
        assert forall|j: int| 0 <= j < name.len() implies name[j] != 0x2Fu8 by {
            assert(name[j] == t[i + 1 + j]);
        }
    }
}

/// Splitting on examples: `/foo` is `foo` in `/`, `/a/b/` is `b` in
/// `/a`; `/` has no final component and `foo` is not absolute.
pub proof fn lemma_split_path_examples()
    ensures
        split_path_spec(seq![0x2Fu8, 0x66u8, 0x6Fu8, 0x6Fu8]) == Ok::<(Seq<u8>, Seq<u8>), Ext4Error>(
            (seq![0x2Fu8], seq![0x66u8, 0x6Fu8, 0x6Fu8]),
        ),
        split_path_spec(seq![0x2Fu8, 0x61u8, 0x2Fu8, 0x62u8, 0x2Fu8]) == Ok::<
            (Seq<u8>, Seq<u8>),
            Ext4Error,
        >((seq![0x2Fu8, 0x61u8], seq![0x62u8])),
        split_path_spec(seq![0x2Fu8]) == Err::<(Seq<u8>, Seq<u8>), Ext4Error>(
            Ext4Error::InvalidLayout { reason: "path has no final component" },
        ),
        split_path_spec(seq![0x66u8, 0x6Fu8, 0x6Fu8]) == Err::<(Seq<u8>, Seq<u8>), Ext4Error>(
            Ext4Error::InvalidLayout { reason: "path must be absolute (start with '/')" },
        ),
{
    reveal_with_fuel(trim_trailing_slashes, 3);
    reveal_with_fuel(last_slash, 5);
    let a = seq![0x2Fu8, 0x66u8, 0x6Fu8, 0x6Fu8];
    assert(trim_trailing_slashes(a) == a);
    assert(a.drop_last() =~= seq![0x2Fu8, 0x66u8, 0x6Fu8]);
    assert(a.drop_last().drop_last() =~= seq![0x2Fu8, 0x66u8]);
    assert(a.drop_last().drop_last().drop_last() =~= seq![0x2Fu8]);
    assert(last_slash(a) == Some(0int));
    assert(a.skip(1) =~= seq![0x66u8, 0x6Fu8, 0x6Fu8]);
    assert(a.take(0) =~= Seq::<u8>::empty());
    let b = seq![0x2Fu8, 0x61u8, 0x2Fu8, 0x62u8, 0x2Fu8];
    let bt = seq![0x2Fu8, 0x61u8, 0x2Fu8, 0x62u8];
    assert(b.drop_last() =~= bt);
    assert(trim_trailing_slashes(bt) == bt);
    assert(trim_trailing_slashes(b) == bt);
    assert(bt.drop_last() =~= seq![0x2Fu8, 0x61u8, 0x2Fu8]);
    assert(last_slash(bt) == Some(2int));
    assert(bt.skip(3) =~= seq![0x62u8]);
    assert(bt.take(2) =~= seq![0x2Fu8, 0x61u8]);
    let c = seq![0x2Fu8];
    assert(c.drop_last() =~= Seq::<u8>::empty());
    assert(trim_trailing_slashes(c) =~= Seq::<u8>::empty());
}

/// Split an absolute path into its parent path and final component.
/// `/` alone, and relative paths, are rejected.
fn split_path(path: &[u8]) -> (r: Result<(Vec<u8>, Vec<u8>), Ext4Error>)
    ensures
        match r {
            Ok((parent, name)) => split_path_spec(path@) == Ok::<(Seq<u8>, Seq<u8>), Ext4Error>(
                (parent@, name@),
            ),
            Err(e) => split_path_spec(path@) == Err::<(Seq<u8>, Seq<u8>), Ext4Error>(e),
        },
{
    if path.len() == 0 || path[0] != 0x2F {
        return Err(Ext4Error::InvalidLayout { reason: "path must be absolute (start with '/')" });
    }
    let ghost s = path@;
    let mut end = path.len();
    assert(s.take(end as int) =~= s);
    while end > 0 && path[end - 1] == 0x2F
        invariant
            end <= s.len(),
            s == path@,
            trim_trailing_slashes(s) == trim_trailing_slashes(s.take(end as int)),
        decreases end,
    {
        assert(s.take(end as int).drop_last() =~= s.take(end - 1));
        end = end - 1;
    }
    let ghost t = s.take(end as int);
    assert(trim_trailing_slashes(t) == t);
    let mut i = end;
    assert(t.take(i as int) =~= t);
    while i > 0 && path[i - 1] != 0x2F
        invariant
            i <= end,
            end <= s.len(),
            s == path@,
            t == s.take(end as int),
            last_slash(t) == last_slash(t.take(i as int)),
        decreases i,
    {
        assert(t.take(i as int).drop_last() =~= t.take(i - 1));
        i = i - 1;
    }
    if i == 0 {
        assert(t.take(0) =~= Seq::<u8>::empty());
        return Err(Ext4Error::InvalidLayout { reason: "path has no final component" });
    }
    let idx = i - 1;
    assert(last_slash(t) == Some(idx as int));
    let name = vstd::slice::slice_to_vec(vstd::slice::slice_subrange(path, idx + 1, end));
    assert(name@ =~= t.skip(idx + 1));
    if name.len() == 0 {
        return Err(Ext4Error::InvalidLayout { reason: "path has no final component" });
    }
    if idx == 0 {
        let parent: Vec<u8> = vec![0x2F];
        assert(parent@ =~= seq![0x2Fu8]);
        assert(t.take(0) =~= Seq::<u8>::empty());
        return Ok((parent, name));
    }
    let parent = vstd::slice::slice_to_vec(vstd::slice::slice_subrange(path, 0, idx));
    assert(parent@ =~= t.take(idx as int));
    Ok((parent, name))
}

/// How the checks before creating `path` end.
pub enum CreateCheck {
    /// The new entry goes into the directory numbered `.0` (inode `.1`)
    /// under the name `.2`.
    Ready(u32, Inode, Seq<u8>),
    /// A component of the parent path is missing from its directory.
    Missing(Seq<u8>),
    /// The parent directory already has a live entry of that name.
    Exists(Seq<u8>),
    /// Another error stops it.
    Failed(Ext4Error),
}

/// `r` is the error that the failed check `c` describes.
pub open spec fn check_fails_with(r: Result<u32, Ext4Error>, c: CreateCheck) -> bool {
    match c {
        CreateCheck::Ready(..) => false,
        CreateCheck::Missing(n) => r matches Err(Ext4Error::NotFound { name }) && name@ == n,
        CreateCheck::Exists(n) => r matches Err(Ext4Error::AlreadyExists { name }) && name@ == n,
        CreateCheck::Failed(e) => r == Err::<u32, Ext4Error>(e),
    }
}

/// Mode of a file `create_file` makes: a regular file, permissions 0644.
pub const NEW_FILE_MODE: u16 = 0o100644;

/// Mode of a directory `mkdir` makes: permissions 0755.
pub const NEW_DIR_MODE: u16 = 0o040755;

/// Directory entry file type of a regular file.
pub const FT_REG_FILE: u8 = 1;

/// Directory entry file type of a directory.
pub const FT_DIR: u8 = 2;

/// The 60-byte `i_block` `b` is a leaf node mapping logical blocks
/// `0 .. nb` to the physical blocks from `start` on (no extent when
/// `nb = 0`), the rest zero.
pub open spec fn is_extent_root(b: Seq<u8>, nb: int, start: int) -> bool {
    &&& b.len() == I_BLOCK_LEN
    &&& (ExtentHeader {
        entries: if nb > 0 {
            1
        } else {
            0
        },
        max: 4,
        depth: 0,
        generation: 0,
    }).encoded_in(b)
    &&& nb > 0 ==> (Extent {
        logical_block: 0,
        len: nb as u16,
        physical_block: start as u64,
        uninit: false,
    }).encoded_in(b.skip(12))
    &&& forall|i: int|
        (if nb > 0 {
            24int
        } else {
            12int
        }) <= i < I_BLOCK_LEN ==> #[trigger] b[i] == 0u8
}

/// `ino` is the inode of a new file or directory: mode `mode`, `links`
/// links, `size` bytes in `nb` blocks of `bs` bytes from `start` on,
/// owned by root, timestamps zero.
pub open spec fn is_new_inode(ino: Inode, mode: u16, links: u16, size: int, nb: int, start: int, bs: int) -> bool {
    &&& ino.mode == mode
    &&& ino.uid == 0
    &&& ino.gid == 0
    &&& ino.size == size
    &&& ino.atime == 0
    &&& ino.ctime == 0
    &&& ino.mtime == 0
    &&& ino.dtime == 0
    &&& ino.links_count == links
    &&& ino.blocks_lo == (nb * bs / 512) as u32
    &&& ino.blocks_hi == 0
    &&& ino.flags == INODE_FLAG_EXTENTS
    &&& is_extent_root(ino.block@, nb, start)
    &&& ino.generation == 0
    &&& ino.file_acl_lo == 0
    &&& ino.file_acl_hi == 0
}

/// The error, if any, that building the extent root for `nb` blocks from
/// `start` yields: the run length is stored as a 16-bit value.
pub open spec fn extent_root_error(nb: u64, start: u64) -> Option<Ext4Error> {
    if nb > 0 && extent_encode_error(
        Extent { logical_block: 0, len: nb as u16, physical_block: start, uninit: false },
        48,
    ) is Some {
        Some(
            Ext4Error::ExtentEncode(
                extent_encode_error(
                    Extent { logical_block: 0, len: nb as u16, physical_block: start, uninit: false },
                    48,
                )->0,
            ),
        )
    } else {
        None
    }
}

/// A new inode of mode `mode` with `links` links and `size` bytes in the
/// `nb` blocks of `bs` bytes from `start` on.
fn new_inode(mode: u16, links: u16, size: u64, nb: u64, start: u64, bs: u64) -> (r: Result<Inode, Ext4Error>)
    requires
        nb * bs <= u64::MAX,
    ensures
        match r {
            Ok(ino) => extent_root_error(nb, start) is None && is_new_inode(ino, mode, links, size as int, nb as int, start as int, bs as int),
            Err(e) => extent_root_error(nb, start) == Some(e),
        },
{
    let mut block_bytes = [0u8; I_BLOCK_LEN];
    let ghost zero_block = block_bytes@;
    assert(forall|i: int| 0 <= i < I_BLOCK_LEN ==> zero_block[i] == 0u8);
    let header = ExtentHeader {
        entries: if nb > 0 {
            1
        } else {
            0
        },
        max: 4,
        depth: 0,
        generation: 0,
    };
    match header.encode_into(&mut block_bytes) {
        Ok(()) => {},
        Err(e) => {
            assert(false);
            return Err(Ext4Error::ExtentEncode(e));
        },
    }
    let ghost after_header = block_bytes@;
    if nb > 0 {
        let extent = Extent {
            logical_block: 0,
            len: #[verifier::truncate] (nb as u16),
            physical_block: start,
            uninit: false,
        };
        let mut ext_buf = [0u8; 12];
        match extent.encode_into(&mut ext_buf) {
            Ok(()) => {},
            Err(e) => return Err(Ext4Error::ExtentEncode(e)),
        }
        write_bytes(&mut block_bytes, 12, &ext_buf);
        proof {
            assert(block_bytes@.subrange(0, 12) =~= after_header.subrange(0, 12));
            assert(header.encoded_in(block_bytes@));
            assert(block_bytes@.skip(12).subrange(0, 12) =~= ext_buf@);
        }
    }
    proof {
        assert forall|i: int|
            (if nb > 0 {
                24int
            } else {
                12int
            }) <= i < I_BLOCK_LEN implies #[trigger] block_bytes@[i] == 0u8 by {
            assert(block_bytes@[i] == after_header[i]);
            assert(after_header[i] == after_header.skip(12)[i - 12]);
            assert(zero_block.skip(12)[i - 12] == zero_block[i]);
        }
    }
    Ok(
        Inode {
            mode,
            uid: 0,
            gid: 0,
            size,
            atime: 0,
            ctime: 0,
            mtime: 0,
            dtime: 0,
            links_count: links,
            blocks_lo: #[verifier::truncate] ((nb * bs / 512) as u32),
            blocks_hi: 0,
            flags: INODE_FLAG_EXTENTS,
            block: block_bytes,
            generation: 0,
            file_acl_lo: 0,
            file_acl_hi: 0,
        },
    )
}

impl Filesystem {
    /// How the checks `create_file` and `mkdir` make before changing
    /// anything end for `path`: split it, resolve the parent, which has
    /// to be a directory, and make sure the name is not taken.
    pub open spec fn spec_create_check(&self, path: Seq<u8>) -> CreateCheck {
        match split_path_spec(path) {
            Err(e) => CreateCheck::Failed(e),
            Ok((parent, name)) => match self.spec_walk(ROOT_INODE, path_components(parent)) {
                LookupOutcome::Failed(e) => CreateCheck::Failed(e),
                LookupOutcome::Missing(n) => CreateCheck::Missing(n),
                LookupOutcome::Found(p) => match self.spec_read_inode(p) {
                    Err(e) => CreateCheck::Failed(e),
                    Ok(pino) => if pino.spec_file_type() != InodeFileType::Directory {
                        CreateCheck::Failed(Ext4Error::NotADirectory { inode: p })
                    } else {
                        match self.spec_lookup(pino, name) {
                            LookupOutcome::Found(_) => CreateCheck::Exists(name),
                            LookupOutcome::Missing(_) => CreateCheck::Ready(p, pino, name),
                            LookupOutcome::Failed(e) => if e is NotFound {
                                CreateCheck::Ready(p, pino, name)
                            } else {
                                CreateCheck::Failed(e)
                            },
                        }
                    },
                },
            },
        }
    }

    /// Looking `name` up in the directory `pino` does not find it: the
    /// lookup ends with the name missing.
    #[verifier::opaque]
    pub open spec fn name_free(&self, pino: Inode, name: Seq<u8>) -> bool {
        ||| self.spec_lookup(pino, name) is Missing
        ||| self.spec_lookup(pino, name) matches LookupOutcome::Failed(e) && e is NotFound
    }

    /// `other` has this filesystem's layout: every superblock and group
    /// descriptor field but the free and used counts is the same.
    pub open spec fn same_layout(&self, other: &Filesystem) -> bool {
        let a = self.spec_superblock();
        let b = other.spec_superblock();
        &&& b == Superblock {
            free_inodes_count: b.free_inodes_count,
            free_blocks_count: b.free_blocks_count,
            ..a
        }
        &&& other.spec_gdt().len() == self.spec_gdt().len()
        &&& forall|i: int|
            0 <= i < self.spec_gdt().len() ==> (#[trigger] other.spec_gdt()[i]) == GroupDescriptor {
                free_blocks_count: other.spec_gdt()[i].free_blocks_count,
                free_inodes_count: other.spec_gdt()[i].free_inodes_count,
                used_dirs_count: other.spec_gdt()[i].used_dirs_count,
                ..self.spec_gdt()[i]
            }
    }

    /// The checks of `create_file` and `mkdir`: where the new entry goes.
    fn create_check(&self, path: &[u8]) -> (r: Result<(u32, Inode, Vec<u8>), Ext4Error>)
        ensures
            match r {
                Ok((p, pino, name)) => self.spec_create_check(path@) == CreateCheck::Ready(p, pino, name@)
                    && name@.len() <= path@.len(),
                Err(e) => check_fails_with(Err(e), self.spec_create_check(path@)),
            },
    {
        let (parent_path, filename) = match split_path(path) {
            Ok(x) => x,
            Err(e) => return Err(e),
        };
        proof {
            lemma_trim_len(path@);
            lemma_last_slash_range(trim_trailing_slashes(path@));
        }
        let parent_inode_num = match self.open_path_bytes(parent_path.as_slice()) {
            Ok(n) => n,
            Err(e) => return Err(e),
        };
        let parent_inode = match self.read_inode(parent_inode_num) {
            Ok(i) => i,
            Err(e) => return Err(e),
        };
        if !parent_inode.is_directory() {
            return Err(Ext4Error::NotADirectory { inode: parent_inode_num });
        }
        match self.lookup(&parent_inode, filename.as_slice()) {
            Ok(_) => {
                return Err(Ext4Error::AlreadyExists { name: filename });
            },
            Err(Ext4Error::NotFound { .. }) => {},
            Err(e) => return Err(e),
        }
        Ok((parent_inode_num, parent_inode, filename))
    }
}

/// Blocks of `bs` bytes that `len` bytes take.
pub open spec fn blocks_for(len: int, bs: int) -> int {
    (len + bs - 1) / bs
}

/// A bitmap has at most one lowest clear bit.
pub(crate) proof fn lemma_first_clear_bit_unique(bm: Seq<u8>, max: int, a: int, b: int)
    requires
        is_first_clear_bit(bm, max, a),
        is_first_clear_bit(bm, max, b),
    ensures
        a == b,
{
    if a < b {
        assert(bit_set(bm, a));
    } else if b < a {
        assert(bit_set(bm, b));
    }
}

/// A bitmap has at most one lowest run of `n` clear bits.
proof fn lemma_first_clear_run_unique(bm: Seq<u8>, n: int, max: int, a: int, b: int)
    requires
        is_first_clear_run(bm, n, max, a),
        is_first_clear_run(bm, n, max, b),
    ensures
        a == b,
{
    if a < b {
        assert(!clear_run(bm, a, n));
    } else if b < a {
        assert(!clear_run(bm, b, n));
    }
}

impl Filesystem {
    /// The number of the lowest free inode of group 0 (bit `n - 1` of its
    /// inode bitmap), when it has one.
    pub open spec fn next_free_inode(&self) -> u32 {
        let bs = self.spec_superblock().block_size as int;
        let bm = read_range(self.image(), self.inode_bitmap_offset(), bs)->Ok_0;
        ((choose|b: int| is_first_clear_bit(bm, self.spec_superblock().inodes_per_group as int, b))
            + 1) as u32
    }

    /// The first block of the lowest run of `nb` free blocks of group 0,
    /// when it has one.
    pub open spec fn next_free_run(&self, nb: int) -> int {
        let bs = self.spec_superblock().block_size as int;
        let bm = read_range(self.image(), self.block_bitmap_offset(), bs)->Ok_0;
        choose|start: int| is_first_clear_run(bm, nb, block_limit(self.spec_superblock()), start)
    }

    /// The first block a new file of `nb` blocks gets: the start of the
    /// lowest run of free blocks, or 0 for an empty file.
    pub open spec fn file_start(&self, nb: int) -> int {
        if nb > 0 {
            self.next_free_run(nb)
        } else {
            0
        }
    }

    /// Byte `i` lies in a region `create_file` of `len` bytes, taking inode
    /// `n`, writes: the inode bitmap, the block bitmap when the file has
    /// blocks, inode `n`'s slot, the file's blocks, the first block of the
    /// directory `pino`, the superblock or the group descriptor table.
    pub open spec fn create_writes(&self, n: u32, len: int, pino: Inode, i: int) -> bool {
        let bs = self.spec_superblock().block_size as int;
        let isz = self.spec_superblock().inode_size as int;
        let nb = blocks_for(len, bs);
        let st = self.file_start(nb);
        ||| self.inode_bitmap_offset() <= i < self.inode_bitmap_offset() + bs
        ||| nb > 0 && self.block_bitmap_offset() <= i < self.block_bitmap_offset() + bs
        ||| self.inode_slot(n) <= i < self.inode_slot(n) + isz
        ||| st * bs <= i < st * bs + nb * bs
        ||| (self.spec_resolve(pino, 0) matches Ok(Some(pb)) && pb * bs <= i < pb * bs + bs)
        ||| self.in_metadata_region(i)
    }

    /// What a new inode taking `nb` blocks needs: a free inode that can be
    /// written, and a run of `nb` free blocks that can be written.
    pub open spec fn room_for_inode(&self, nb: int) -> bool {
        let sb = self.spec_superblock();
        let bs = sb.block_size as int;
        let n = self.next_free_inode();
        &&& read_range(self.image(), self.inode_bitmap_offset(), bs) matches Ok(bm) && has_clear_bit(
            bm,
            sb.inodes_per_group as int,
        )
        &&& nb > 0 ==> (read_range(self.image(), self.block_bitmap_offset(), bs) matches Ok(bbm)
            && has_clear_run(bbm, nb, block_limit(sb)))
        &&& n <= sb.inodes_count
        &&& sb.inode_size >= 128
        &&& self.inode_slot(n) + sb.inode_size <= usize::MAX
        &&& nb > 0 ==> self.next_free_run(nb) * bs + nb * bs <= usize::MAX
    }

    /// How appending an entry for `name` (inode `n`, type `file_type`) to
    /// the first block of the directory `pino` ends.
    pub open spec fn entry_outcome(&self, pino: Inode, name: Seq<u8>, n: u32, file_type: u8) -> Result<
        (),
        Ext4Error,
    > {
        let bs = self.spec_superblock().block_size as int;
        match self.spec_resolve(pino, 0) {
            Err(e) => Err(e),
            Ok(None) => Err(Ext4Error::InvalidLayout { reason: "directory has no first data block" }),
            Ok(Some(p)) => match read_range(self.image(), p * bs, bs) {
                Err(e) => Err(e),
                Ok(blk) => match dir_block_with_entry(blk, name, n, file_type) {
                    Err(e) => Err(e),
                    Ok(_) => Ok(()),
                },
            },
        }
    }

    /// What `create_file` of `len` bytes returns, past its checks, for a
    /// new entry `name` in the directory `pino`: the inode bitmap's read
    /// error, or `NoSpace` when it has no free inode; and, when the
    /// regions it writes lie apart, `NoSpace` when there is no run of free
    /// blocks for the data, failure when the new inode or its data cannot
    /// be written, else what appending the entry gives, with the new
    /// inode's number on success.
    #[verifier::opaque]
    pub open spec fn file_outcome(&self, r: Result<u32, Ext4Error>, pino: Inode, name: Seq<u8>, len: int) -> bool {
        let sb = self.spec_superblock();
        let bs = sb.block_size as int;
        let n = self.next_free_inode();
        let nb = blocks_for(len, bs);
        &&& read_range(self.image(), self.inode_bitmap_offset(), bs) matches Err(e) ==> r == Err::<
            u32,
            Ext4Error,
        >(e)
        &&& (read_range(self.image(), self.inode_bitmap_offset(), bs) matches Ok(bm) && !has_clear_bit(
            bm,
            sb.inodes_per_group as int,
        )) ==> r == Err::<u32, Ext4Error>(Ext4Error::NoSpace { what: "inodes" })
        &&& self.entry_regions_apart(n, len, pino) ==> {
            &&& read_range(self.image(), self.inode_bitmap_offset(), bs) matches Ok(bm) ==> (
            has_clear_bit(bm, sb.inodes_per_group as int) && nb > 0 ==> (read_range(
                self.image(),
                self.block_bitmap_offset(),
                bs,
            ) matches Ok(bbm) ==> (!has_clear_run(bbm, nb, block_limit(sb)) ==> r == Err::<
                u32,
                Ext4Error,
            >(Ext4Error::NoSpace { what: "blocks" }))))
            &&& self.room_for_inode(nb) ==> r == match self.entry_outcome(pino, name, n, FT_REG_FILE) {
                Ok(_) => Ok::<u32, Ext4Error>(n),
                Err(e) => Err(e),
            }
            &&& !self.room_for_inode(nb) ==> r is Err
        }
    }
}

/// What the allocations of `create_file` and `mkdir` did, from `o` to
/// `s1` (inode `n`) and on to `s2` (`count` blocks from `start`): both
/// were the lowest free ones, and only the bitmaps were written.
spec fn allocated(o: Filesystem, s1: Filesystem, s2: Filesystem, n: u32, count: u32, start: u64) -> bool {
    let sb = o.spec_superblock();
    let bs = sb.block_size as int;
    &&& read_range(o.image(), o.inode_bitmap_offset(), bs) matches Ok(bm) && is_first_clear_bit(
        bm,
        sb.inodes_per_group as int,
        n - 1,
    )
    &&& written_at(o.image(), s1.image(), o.inode_bitmap_offset(), bs)
    &&& o.same_layout(&s1)
    &&& o.same_layout(&s2)
    &&& count == 0 ==> start == 0 && s2 == s1
    &&& count > 0 ==> (read_range(s1.image(), o.block_bitmap_offset(), bs) matches Ok(bm1)
        && is_first_clear_run(bm1, count as int, block_limit(sb), start as int) && written_at(
        s1.image(),
        s2.image(),
        o.block_bitmap_offset(),
        bs,
    ))
}

impl Filesystem {
    /// Inode `n - 1` being the lowest free bit, `n` is the next free inode.
    proof fn lemma_next_free_inode(&self, n: u32)
        requires
            read_range(self.image(), self.inode_bitmap_offset(), self.spec_superblock().block_size as int) matches Ok(bm)
                && is_first_clear_bit(bm, self.spec_superblock().inodes_per_group as int, n - 1),
        ensures
            self.next_free_inode() == n,
            read_range(self.image(), self.inode_bitmap_offset(), self.spec_superblock().block_size as int) matches Ok(bm)
                && has_clear_bit(bm, self.spec_superblock().inodes_per_group as int),
    {
        let bs = self.spec_superblock().block_size as int;
        let bm = read_range(self.image(), self.inode_bitmap_offset(), bs)->Ok_0;
        let max = self.spec_superblock().inodes_per_group as int;
        let b = choose|b: int| is_first_clear_bit(bm, max, b);
        lemma_first_clear_bit_unique(bm, max, b, n - 1);
        assert(!bit_set(bm, n - 1));
    }

    /// Under the regions `create_file` writes lying apart, the run the
    /// allocation found is the lowest one of the image before.
    proof fn lemma_run_is_next(&self, s1: Filesystem, count: u32, start: u64)
        requires
            count > 0,
            read_range(self.image(), self.inode_bitmap_offset(), self.spec_superblock().block_size as int) is Ok,
            written_at(self.image(), s1.image(), self.inode_bitmap_offset(), self.spec_superblock().block_size as int),
            apart(
                self.inode_bitmap_offset(),
                self.spec_superblock().block_size as int,
                self.block_bitmap_offset(),
                self.spec_superblock().block_size as int,
            ),
            read_range(self.image(), self.block_bitmap_offset(), self.spec_superblock().block_size as int) is Ok,
            read_range(s1.image(), self.block_bitmap_offset(), self.spec_superblock().block_size as int) matches Ok(bm1)
                && is_first_clear_run(bm1, count as int, block_limit(self.spec_superblock()), start as int),
        ensures
            read_range(s1.image(), self.block_bitmap_offset(), self.spec_superblock().block_size as int)
                == read_range(self.image(), self.block_bitmap_offset(), self.spec_superblock().block_size as int),
            self.next_free_run(count as int) == start,
            read_range(self.image(), self.block_bitmap_offset(), self.spec_superblock().block_size as int) matches Ok(bm)
                && has_clear_run(bm, count as int, block_limit(self.spec_superblock())),
    {
        let bs = self.spec_superblock().block_size as int;
        let bbo = self.block_bitmap_offset();
        lemma_written_at_keeps(self.image(), s1.image(), self.inode_bitmap_offset(), bs, bbo, bs);
        let bm = read_range(self.image(), bbo, bs)->Ok_0;
        let max = block_limit(self.spec_superblock());
        let st = choose|st: int| is_first_clear_run(bm, count as int, max, st);
        lemma_first_clear_run_unique(bm, count as int, max, st, start as int);
        assert(clear_run(bm, start as int, count as int));
    }
}

/// `create_file`'s outcome when no inode can be taken.
proof fn lemma_outcome_no_inode(o: Filesystem, pino: Inode, name: Seq<u8>, len: int, e: Ext4Error)
    requires
        ({
            let bs = o.spec_superblock().block_size as int;
            &&& read_range(o.image(), o.inode_bitmap_offset(), bs) matches Err(x) ==> e == x
            &&& read_range(o.image(), o.inode_bitmap_offset(), bs) matches Ok(bm) ==> !has_clear_bit(
                bm,
                o.spec_superblock().inodes_per_group as int,
            ) && e == Ext4Error::NoSpace { what: "inodes" }
        }),
    ensures
        o.file_outcome(Err(e), pino, name, len),
{
    reveal(Filesystem::file_outcome);
}

/// `create_file`'s outcome when no run of blocks can be taken for the
/// data, inode `n` having been.
proof fn lemma_outcome_no_blocks(
    o: Filesystem,
    s1: Filesystem,
    pino: Inode,
    name: Seq<u8>,
    len: int,
    n: u32,
    count: u32,
    e: Ext4Error,
)
    requires
        ({
            let sb = o.spec_superblock();
            let bs = sb.block_size as int;
            &&& read_range(o.image(), o.inode_bitmap_offset(), bs) matches Ok(bm) && is_first_clear_bit(
                bm,
                sb.inodes_per_group as int,
                n - 1,
            )
            &&& written_at(o.image(), s1.image(), o.inode_bitmap_offset(), bs)
            &&& count > 0
            &&& blocks_for(len, bs) <= 32768 ==> count == blocks_for(len, bs)
            &&& read_range(s1.image(), o.block_bitmap_offset(), bs) matches Err(x) ==> e == x
            &&& read_range(s1.image(), o.block_bitmap_offset(), bs) matches Ok(bm1) ==> !has_clear_run(
                bm1,
                count as int,
                block_limit(sb),
            ) && e == Ext4Error::NoSpace { what: "blocks" }
        }),
    ensures
        o.file_outcome(Err(e), pino, name, len),
{
    reveal(Filesystem::file_outcome);
    o.lemma_next_free_inode(n);
    let bs = o.spec_superblock().block_size as int;
    if o.entry_regions_apart(n, len, pino) {
        lemma_written_at_keeps(o.image(), s1.image(), o.inode_bitmap_offset(), bs, o.block_bitmap_offset(), bs);
    }
}

/// `create_file`'s outcome when inode `n` and the run from `start` were
/// taken but the new inode or the data cannot be written.
proof fn lemma_outcome_unwritable(
    o: Filesystem,
    s1: Filesystem,
    s2: Filesystem,
    pino: Inode,
    name: Seq<u8>,
    len: int,
    n: u32,
    count: u32,
    start: u64,
    e: Ext4Error,
)
    requires
        o.spec_superblock().block_size <= 65536,
        allocated(o, s1, s2, n, count, start),
        blocks_for(len, o.spec_superblock().block_size as int) <= 32768 ==> count == blocks_for(
            len,
            o.spec_superblock().block_size as int,
        ),
        ({
            let sb = o.spec_superblock();
            let bs = sb.block_size as int;
            let nb = blocks_for(len, bs);
            ||| extent_root_error(nb as u64, start) is Some
            ||| !(n <= sb.inodes_count && sb.inode_size >= 128 && o.inode_slot(n) + sb.inode_size <= usize::MAX)
            ||| nb > 0 && start * bs + nb * bs > usize::MAX
        }),
    ensures
        o.file_outcome(Err(e), pino, name, len),
{
    reveal(Filesystem::file_outcome);
    o.lemma_next_free_inode(n);
    let bs = o.spec_superblock().block_size as int;
    if o.entry_regions_apart(n, len, pino) && count > 0 {
        o.lemma_run_is_next(s1, count, start);
        assert(extent_root_error(count as u64, start) is None);
    }
}

/// `create_file`'s outcome once inode `n`, its blocks from `start` and
/// its data were written (`s2` to `s4`) and appending the entry ended
/// with `add`.
#[verifier::rlimit(60)]
#[verifier::spinoff_prover]
proof fn lemma_outcome_entry(
    o: Filesystem,
    s1: Filesystem,
    s2: Filesystem,
    s3: Filesystem,
    s4: Filesystem,
    pino: Inode,
    name: Seq<u8>,
    len: int,
    n: u32,
    count: u32,
    start: u64,
    add: Result<(), Ext4Error>,
)
    requires
        allocated(o, s1, s2, n, count, start),
        o.name_free(pino, name),
        0 < o.spec_superblock().block_size <= 65536,
        blocks_for(len, o.spec_superblock().block_size as int) <= 32768 ==> count as int == blocks_for(
            len,
            o.spec_superblock().block_size as int,
        ),
        ({
            let sb = o.spec_superblock();
            let bs = sb.block_size as int;
            let isz = sb.inode_size as int;
            let nb = blocks_for(len, bs);
            &&& n <= sb.inodes_count
            &&& isz >= 128
            &&& o.inode_slot(n) + isz <= usize::MAX
            &&& written_at(s2.image(), s3.image(), o.inode_slot(n), isz)
            &&& nb > 0 ==> written_at(s3.image(), s4.image(), start * bs, nb * bs) && start * bs + nb * bs
                <= usize::MAX
            &&& nb == 0 ==> s4.image() == s3.image()
        }),
        s4.spec_superblock() == s2.spec_superblock(),
        add == s4.entry_outcome(pino, name, n, FT_REG_FILE),
    ensures
        o.file_outcome(
            match add {
                Ok(_) => Ok::<u32, Ext4Error>(n),
                Err(e) => Err(e),
            },
            pino,
            name,
            len,
        ),
{
    reveal(Filesystem::file_outcome);
    reveal(Filesystem::name_free);
    o.lemma_next_free_inode(n);
    let sb = o.spec_superblock();
    let bs = sb.block_size as int;
    let isz = sb.inode_size as int;
    if o.entry_regions_apart(n, len, pino) {
        if count > 0 {
            o.lemma_run_is_next(s1, count, start);
        }
        assert(o.room_for_inode(count as int));
        let pb = o.spec_resolve(pino, 0)->Ok_0->Some_0;
        let pbo = pb * bs;
        assert(pb * bs >= 0) by (nonlinear_arith)
            requires
                pb >= 0,
                bs > 0,
        ;
        o.lemma_one_block_dir(pino);
        assert(read_range(o.image(), pbo, bs) is Ok);
        assert(start * bs >= 0) by (nonlinear_arith)
            requires
                start >= 0,
                bs > 0,
        ;
        lemma_written_at_keeps(o.image(), s1.image(), o.inode_bitmap_offset(), bs, pbo, bs);
        if count > 0 {
            lemma_written_at_keeps(s1.image(), s2.image(), o.block_bitmap_offset(), bs, pbo, bs);
        }
        lemma_written_at_keeps(s2.image(), s3.image(), o.inode_slot(n), isz, pbo, bs);
        if count > 0 {
            let bbm = read_range(o.image(), o.block_bitmap_offset(), bs)->Ok_0;
            assert(is_first_clear_run(bbm, count as int, block_limit(sb), start as int));
            lemma_written_at_keeps(s3.image(), s4.image(), start * bs, count * bs, pbo, bs);
        }
        assert(s4.spec_resolve(pino, 0) == o.spec_resolve(pino, 0));
        assert(s4.entry_outcome(pino, name, n, FT_REG_FILE) == o.entry_outcome(pino, name, n, FT_REG_FILE));
    }
}

/// What `mkdir` (as its contract has it) answers when the parent of the
/// final component is no directory, or already holds a live entry of
/// that name: `NotADirectory` naming the parent, or `AlreadyExists`
/// naming the component; either way nothing is allocated or written.
pub proof fn lemma_mkdir_refusals(
    o: Filesystem,
    f: Filesystem,
    path: Seq<u8>,
    r: Result<u32, Ext4Error>,
    parent: Seq<u8>,
    name: Seq<u8>,
    p: u32,
    pino: Inode,
)
    requires
        match o.spec_create_check(path) {
            CreateCheck::Ready(q, qino, nm) => {
                &&& r matches Ok(n) ==> o.dir_created(&f, n, q, qino, nm)
                &&& o.dir_outcome(r, q, qino, nm)
            },
            c => check_fails_with(r, c) && f == o,
        },
        split_path_spec(path) == Ok::<(Seq<u8>, Seq<u8>), Ext4Error>((parent, name)),
        o.spec_walk(ROOT_INODE, path_components(parent)) == LookupOutcome::Found(p),
        o.spec_read_inode(p) == Ok::<Inode, Ext4Error>(pino),
    ensures
        pino.spec_file_type() != InodeFileType::Directory ==> r == Err::<u32, Ext4Error>(
            Ext4Error::NotADirectory { inode: p },
        ) && f == o,
        pino.spec_file_type() == InodeFileType::Directory && o.spec_lookup(pino, name) is Found ==> (r matches Err(
            Ext4Error::AlreadyExists { name: nm },
        ) && nm@ == name) && f == o,
{
}

/// Writing the `nb` blocks of a new file's data from block `start`: its
/// bytes, zero-padded to whole blocks; nothing for an empty file.
pub open spec fn file_data_step(
    o: Filesystem,
    nb: int,
    start: int,
    bs: int,
    data: Seq<u8>,
    r: Result<(), Ext4Error>,
    f: Filesystem,
) -> bool {
    if nb > 0 {
        write_at_step(o, (start * bs) as u128, padded(data, nb * bs), r, f)
    } else {
        r == Ok::<(), Ext4Error>(()) && f == o
    }
}

impl Filesystem {
    /// Running the steps of `mkdir` past its checks from this
    /// filesystem, for an entry `name` in the directory `p` (inode
    /// `pino`), ends in `r` with `f`: take the lowest free inode, then the
    /// lowest free block, build and write the new directory's inode, write
    /// its block of "." and "..", add the entry to the parent's first
    /// block, write the parent back with one more link, count one more
    /// directory in group 0, and write back the superblock and group
    /// descriptors. The first step that fails gives its error, with the
    /// filesystem as the steps before it left it.
    #[verifier::opaque]
    pub open spec fn mkdir_run(
        &self,
        f: Filesystem,
        p: u32,
        pino: Inode,
        name: Seq<u8>,
        r: Result<u32, Ext4Error>,
    ) -> bool {
        exists|r1: Result<u32, Ext4Error>, s1: Filesystem|
            #[trigger] inode_alloc_step(*self, r1, s1) && mkdir_after_inode(s1, f, p, pino, name, r1, r)
    }

    /// Running the steps of `create_file` past its checks from this
    /// filesystem, for an entry `name` in the directory `pino` holding
    /// `data`, ends in `r` with `f`: take the lowest free inode, then the
    /// lowest run of free blocks for the data, build the new inode, write
    /// it, write the data, add the entry to the parent's first block, and
    /// write back the superblock and group descriptors. The first step that
    /// fails gives its error, with the filesystem as the steps before it
    /// left it.
    #[verifier::opaque]
    pub open spec fn create_run(
        &self,
        f: Filesystem,
        pino: Inode,
        name: Seq<u8>,
        data: Seq<u8>,
        r: Result<u32, Ext4Error>,
    ) -> bool {
        exists|r1: Result<u32, Ext4Error>, s1: Filesystem|
            #[trigger] inode_alloc_step(*self, r1, s1) && create_after_inode(s1, f, pino, name, data, r1, r)
    }
}

/// `mkdir`'s steps after taking an inode (`r1`), from `s1`.
#[verifier::opaque]
pub open spec fn mkdir_after_inode(
    s1: Filesystem,
    f: Filesystem,
    p: u32,
    pino: Inode,
    name: Seq<u8>,
    r1: Result<u32, Ext4Error>,
    r: Result<u32, Ext4Error>,
) -> bool {
    match r1 {
        Err(e) => r == Err::<u32, Ext4Error>(e) && f == s1,
        Ok(n) => exists|r2: Result<u64, Ext4Error>, s2: Filesystem|
            #[trigger] blocks_alloc_step(s1, 1, r2, s2) && mkdir_after_block(s2, f, p, pino, name, n, r2, r),
    }
}

/// `mkdir`'s steps after taking inode `n` and a block (`r2`), from `s2`.
#[verifier::opaque]
pub open spec fn mkdir_after_block(
    s2: Filesystem,
    f: Filesystem,
    p: u32,
    pino: Inode,
    name: Seq<u8>,
    n: u32,
    r2: Result<u64, Ext4Error>,
    r: Result<u32, Ext4Error>,
) -> bool {
    let bs = s2.spec_superblock().block_size as int;
    match r2 {
        Err(e) => r == Err::<u32, Ext4Error>(e) && f == s2,
        Ok(start) => exists|ino: Inode, r3: Result<(), Ext4Error>, s3: Filesystem|
            is_new_inode(ino, NEW_DIR_MODE, 2, bs, 1, start as int, bs) && #[trigger] write_inode_step(
                s2,
                n,
                ino,
                r3,
                s3,
            ) && mkdir_after_inode_written(s3, f, p, pino, name, n, start as int, r3, r),
    }
}

/// `mkdir`'s steps after writing the new inode (`r3`), from `s3`.
#[verifier::opaque]
pub open spec fn mkdir_after_inode_written(
    s3: Filesystem,
    f: Filesystem,
    p: u32,
    pino: Inode,
    name: Seq<u8>,
    n: u32,
    start: int,
    r3: Result<(), Ext4Error>,
    r: Result<u32, Ext4Error>,
) -> bool {
    let bs = s3.spec_superblock().block_size as int;
    match r3 {
        Err(e) => r == Err::<u32, Ext4Error>(e) && f == s3,
        Ok(_) => exists|r4: Result<(), Ext4Error>, s4: Filesystem|
            #[trigger] write_at_step(
                s3,
                (start * bs) as u128,
                encoded_dir_entry(dot_entry(n)) + encoded_dir_entry(dotdot_entry(p, bs)),
                r4,
                s4,
            ) && mkdir_after_block_written(s4, f, p, pino, name, n, r4, r),
    }
}

/// `mkdir`'s steps after writing the new directory's block (`r4`), from
/// `s4`.
#[verifier::opaque]
pub open spec fn mkdir_after_block_written(
    s4: Filesystem,
    f: Filesystem,
    p: u32,
    pino: Inode,
    name: Seq<u8>,
    n: u32,
    r4: Result<(), Ext4Error>,
    r: Result<u32, Ext4Error>,
) -> bool {
    match r4 {
        Err(e) => r == Err::<u32, Ext4Error>(e) && f == s4,
        Ok(_) => exists|r5: Result<(), Ext4Error>, s5: Filesystem|
            #[trigger] entry_add_step(s4, pino, name, n, FT_DIR, r5, s5) && mkdir_after_entry(
                s5,
                f,
                p,
                pino,
                n,
                r5,
                r,
            ),
    }
}

/// `mkdir`'s steps after adding the entry (`r5`), from `s5`.
#[verifier::opaque]
pub open spec fn mkdir_after_entry(
    s5: Filesystem,
    f: Filesystem,
    p: u32,
    pino: Inode,
    n: u32,
    r5: Result<(), Ext4Error>,
    r: Result<u32, Ext4Error>,
) -> bool {
    match r5 {
        Err(e) => r == Err::<u32, Ext4Error>(e) && f == s5,
        Ok(_) => exists|r6: Result<(), Ext4Error>, s6: Filesystem|
            #[trigger] write_inode_step(
                s5,
                p,
                Inode { links_count: ((pino.links_count + 1) % 0x1_0000) as u16, ..pino },
                r6,
                s6,
            ) && mkdir_after_relink(s6, f, n, r6, r),
    }
}

/// `mkdir`'s steps after writing the parent back (`r6`), from `s6`.
#[verifier::opaque]
pub open spec fn mkdir_after_relink(
    s6: Filesystem,
    f: Filesystem,
    n: u32,
    r6: Result<(), Ext4Error>,
    r: Result<u32, Ext4Error>,
) -> bool {
    match r6 {
        Err(e) => r == Err::<u32, Ext4Error>(e) && f == s6,
        Ok(_) => exists|s7: Filesystem| #[trigger] dir_count_step(s6, s7) && last_steps(s7, f, n, Ok(()), r),
    }
}

/// `create_file`'s steps after taking an inode (`r1`), from `s1`.
#[verifier::opaque]
pub open spec fn create_after_inode(
    s1: Filesystem,
    f: Filesystem,
    pino: Inode,
    name: Seq<u8>,
    data: Seq<u8>,
    r1: Result<u32, Ext4Error>,
    r: Result<u32, Ext4Error>,
) -> bool {
    let nb = blocks_for(data.len() as int, s1.spec_superblock().block_size as int);
    match r1 {
        Err(e) => r == Err::<u32, Ext4Error>(e) && f == s1,
        Ok(n) => exists|r2: Result<u64, Ext4Error>, s2: Filesystem|
            #[trigger] blocks_alloc_step(s1, nb as u32, r2, s2) && create_after_blocks(
                s2,
                f,
                pino,
                name,
                data,
                n,
                r2,
                r,
            ),
    }
}

/// `create_file`'s steps after taking inode `n` and the blocks (`r2`),
/// from `s2`.
#[verifier::opaque]
pub open spec fn create_after_blocks(
    s2: Filesystem,
    f: Filesystem,
    pino: Inode,
    name: Seq<u8>,
    data: Seq<u8>,
    n: u32,
    r2: Result<u64, Ext4Error>,
    r: Result<u32, Ext4Error>,
) -> bool {
    let bs = s2.spec_superblock().block_size as int;
    let nb = blocks_for(data.len() as int, bs);
    match r2 {
        Err(e) => r == Err::<u32, Ext4Error>(e) && f == s2,
        Ok(start) => match extent_root_error(nb as u64, start) {
            Some(e) => r == Err::<u32, Ext4Error>(e) && f == s2,
            None => exists|ino: Inode, r3: Result<(), Ext4Error>, s3: Filesystem|
                is_new_inode(ino, NEW_FILE_MODE, 1, data.len() as int, nb, start as int, bs)
                    && #[trigger] write_inode_step(s2, n, ino, r3, s3) && create_after_inode_written(
                    s3,
                    f,
                    pino,
                    name,
                    data,
                    n,
                    start as int,
                    r3,
                    r,
                ),
        },
    }
}

/// `create_file`'s steps after writing the new inode (`r3`), from `s3`.
#[verifier::opaque]
pub open spec fn create_after_inode_written(
    s3: Filesystem,
    f: Filesystem,
    pino: Inode,
    name: Seq<u8>,
    data: Seq<u8>,
    n: u32,
    start: int,
    r3: Result<(), Ext4Error>,
    r: Result<u32, Ext4Error>,
) -> bool {
    let bs = s3.spec_superblock().block_size as int;
    let nb = blocks_for(data.len() as int, bs);
    match r3 {
        Err(e) => r == Err::<u32, Ext4Error>(e) && f == s3,
        Ok(_) => exists|r4: Result<(), Ext4Error>, s4: Filesystem|
            #[trigger] file_data_step(s3, nb, start, bs, data, r4, s4) && create_after_data(
                s4,
                f,
                pino,
                name,
                n,
                r4,
                r,
            ),
    }
}

/// `create_file`'s steps after writing the data (`r4`), from `s4`.
#[verifier::opaque]
pub open spec fn create_after_data(
    s4: Filesystem,
    f: Filesystem,
    pino: Inode,
    name: Seq<u8>,
    n: u32,
    r4: Result<(), Ext4Error>,
    r: Result<u32, Ext4Error>,
) -> bool {
    match r4 {
        Err(e) => r == Err::<u32, Ext4Error>(e) && f == s4,
        Ok(_) => exists|r5: Result<(), Ext4Error>, s5: Filesystem|
            #[trigger] entry_add_step(s4, pino, name, n, FT_REG_FILE, r5, s5) && last_steps(s5, f, n, r5, r),
    }
}

/// The last steps of `create_file` and `mkdir`, from `s`, once the step
/// before ended in `r0`: its error, or `n` with the superblock and group
/// descriptors written back.
#[verifier::opaque]
pub open spec fn last_steps(
    s: Filesystem,
    f: Filesystem,
    n: u32,
    r0: Result<(), Ext4Error>,
    r: Result<u32, Ext4Error>,
) -> bool {
    match r0 {
        Err(e) => r == Err::<u32, Ext4Error>(e) && f == s,
        Ok(_) => r == Ok::<u32, Ext4Error>(n) && flush_step(s, Ok(()), f),
    }
}

/// Taking an inode takes the lowest free one of group 0: inode `n` whose
/// bit `n - 1` was clear in the inode bitmap and below which no bit was
/// clear; afterwards its bit is set and every other bit is as it was.
pub proof fn lemma_inode_taken_is_lowest(o: Filesystem, n: u32, f: Filesystem)
    requires
        inode_alloc_step(o, Ok(n), f),
    ensures
        ({
            let bs = o.spec_superblock().block_size as int;
            let off = o.inode_bitmap_offset();
            let bm = o.image().subrange(off, off + bs);
            let nbm = f.image().subrange(off, off + bs);
            &&& 1 <= n <= o.spec_superblock().inodes_per_group
            &&& !bit_set(bm, n - 1)
            &&& forall|c: int|
                0 <= c < o.spec_superblock().inodes_per_group && c / 8 < bm.len() && !#[trigger] bit_set(
                    bm,
                    c,
                ) ==> n - 1 <= c
            &&& bit_set(nbm, n - 1)
            &&& forall|c: int| 0 <= c && c != n - 1 ==> #[trigger] bit_set(nbm, c) == bit_set(bm, c)
        }),
{
    let bs = o.spec_superblock().block_size as int;
    let off = o.inode_bitmap_offset();
    let bm = o.image().subrange(off, off + bs);
    assert(read_range(o.image(), off, bs) == Ok::<Seq<u8>, Ext4Error>(bm));
    assert forall|c: int|
        0 <= c < o.spec_superblock().inodes_per_group && c / 8 < bm.len() && !#[trigger] bit_set(bm, c)
            implies n - 1 <= c by {
        if c < n - 1 {
            assert(bit_set(bm, c));
        }
    }
    assert forall|c: int| 0 <= c && c != n - 1 implies #[trigger] bit_set(
        f.image().subrange(off, off + bs),
        c,
    ) == bit_set(bm, c) by {
        lemma_bit_set_clear_get(bm, n - 1, c);
    }
    lemma_bit_set_clear_get(bm, n - 1, n as int);
}

/// Taking `count > 0` blocks takes the lowest run of that many free
/// blocks of group 0 below the search limit: every block of the run was
/// free, no run starts lower, the run's bits are then set and every other
/// bit is as it was.
pub proof fn lemma_blocks_taken_are_lowest(o: Filesystem, count: u32, start: u64, f: Filesystem)
    requires
        count > 0,
        blocks_alloc_step(o, count, Ok(start), f),
    ensures
        ({
            let bs = o.spec_superblock().block_size as int;
            let off = o.block_bitmap_offset();
            let bm = o.image().subrange(off, off + bs);
            let nbm = f.image().subrange(off, off + bs);
            &&& start + count <= block_limit(o.spec_superblock())
            &&& forall|c: int| start <= c < start + count ==> !#[trigger] bit_set(bm, c)
            &&& forall|t: int|
                0 <= t && t + count <= block_limit(o.spec_superblock()) && #[trigger] clear_run(
                    bm,
                    t,
                    count as int,
                ) ==> start <= t
            &&& forall|c: int| start <= c < start + count && c / 8 < bm.len() ==> #[trigger] bit_set(nbm, c)
            &&& forall|c: int|
                0 <= c && !(start <= c < start + count) ==> #[trigger] bit_set(nbm, c) == bit_set(bm, c)
        }),
{
    let bs = o.spec_superblock().block_size as int;
    let off = o.block_bitmap_offset();
    let bm = o.image().subrange(off, off + bs);
    assert(read_range(o.image(), off, bs) == Ok::<Seq<u8>, Ext4Error>(bm));
    assert forall|t: int|
        0 <= t && t + count <= block_limit(o.spec_superblock()) && #[trigger] clear_run(
            bm,
            t,
            count as int,
        ) implies start <= t by {
        if t < start {
            assert(!clear_run(bm, t, count as int));
        }
    }
}

/// `a` and `b` hold the same image, superblock and group descriptors.
pub open spec fn same_state(a: Filesystem, b: Filesystem) -> bool {
    &&& a.image() == b.image()
    &&& a.spec_superblock() == b.spec_superblock()
    &&& a.spec_gdt() == b.spec_gdt()
}

/// Writing the same bytes at the same place of one image gives one image.
proof fn lemma_written_unique(old: Seq<u8>, a: Seq<u8>, b: Seq<u8>, off: int, len: int)
    requires
        0 <= off,
        0 <= len,
        written_at(old, a, off, len),
        written_at(old, b, off, len),
        a.subrange(off, off + len) == b.subrange(off, off + len),
    ensures
        a == b,
{
    assert forall|i: int| 0 <= i < a.len() implies a[i] == b[i] by {
        if off <= i < off + len {
            assert(a.subrange(off, off + len)[i - off] == a[i]);
            assert(b.subrange(off, off + len)[i - off] == b[i]);
        }
    }
    assert(a =~= b);
}

/// Taking an inode has one outcome.
proof fn lemma_inode_alloc_unique(
    o1: Filesystem,
    o2: Filesystem,
    r1: Result<u32, Ext4Error>,
    f1: Filesystem,
    r2: Result<u32, Ext4Error>,
    f2: Filesystem,
)
    requires
        same_state(o1, o2),
        inode_alloc_step(o1, r1, f1),
        inode_alloc_step(o2, r2, f2),
    ensures
        r1 == r2,
        same_state(f1, f2),
{
    let off = o1.inode_bitmap_offset();
    let bs = o1.spec_superblock().block_size as int;
    assert(o2.inode_bitmap_offset() == off);
    if let Ok(bm) = read_range(o1.image(), off, bs) {
        if has_clear_bit(bm, o1.spec_superblock().inodes_per_group as int) {
            lemma_first_clear_bit_unique(
                bm,
                o1.spec_superblock().inodes_per_group as int,
                r1->Ok_0 - 1,
                r2->Ok_0 - 1,
            );
            assert(off >= 0) by (nonlinear_arith)
                requires
                    off == o1.spec_gdt()[0].inode_bitmap * o1.spec_superblock().block_size,
            ;
            lemma_written_unique(o1.image(), f1.image(), f2.image(), off, bs);
        }
    }
}

/// Taking a run of blocks has one outcome.
proof fn lemma_blocks_alloc_unique(
    o1: Filesystem,
    o2: Filesystem,
    count: u32,
    r1: Result<u64, Ext4Error>,
    f1: Filesystem,
    r2: Result<u64, Ext4Error>,
    f2: Filesystem,
)
    requires
        same_state(o1, o2),
        blocks_alloc_step(o1, count, r1, f1),
        blocks_alloc_step(o2, count, r2, f2),
    ensures
        r1 == r2,
        same_state(f1, f2),
{
    let off = o1.block_bitmap_offset();
    let bs = o1.spec_superblock().block_size as int;
    let max = block_limit(o1.spec_superblock());
    assert(o2.block_bitmap_offset() == off);
    if count != 0 {
        if let Ok(bm) = read_range(o1.image(), off, bs) {
            if has_clear_run(bm, count as int, max) {
                lemma_first_clear_run_unique(bm, count as int, max, r1->Ok_0 as int, r2->Ok_0 as int);
                let x = f1.image().subrange(off, off + bs);
                let y = f2.image().subrange(off, off + bs);
                assert forall|k: int| 0 <= k < 8 * x.len() implies #[trigger] bit_set(x, k) == bit_set(y, k) by {
                    assert(bit_set(x, k) == bit_set(y, k));
                }
                lemma_bits_fix_bitmap(x, y);
                assert(off >= 0) by (nonlinear_arith)
                    requires
                        off == o1.spec_gdt()[0].block_bitmap * o1.spec_superblock().block_size,
                ;
                lemma_written_unique(o1.image(), f1.image(), f2.image(), off, bs);
            }
        }
    }
}

/// Writing an inode, or one with the same fields, has one outcome.
proof fn lemma_write_inode_unique(
    o1: Filesystem,
    o2: Filesystem,
    n: u32,
    i1: Inode,
    i2: Inode,
    r1: Result<(), Ext4Error>,
    f1: Filesystem,
    r2: Result<(), Ext4Error>,
    f2: Filesystem,
)
    requires
        same_state(o1, o2),
        o1.spec_superblock().inodes_per_group > 0,
        i2 == (Inode { block: i2.block, ..i1 }),
        i2.block@ == i1.block@,
        write_inode_step(o1, n, i1, r1, f1),
        write_inode_step(o2, n, i2, r2, f2),
    ensures
        r1 == r2,
        same_state(f1, f2),
{
    if r1 is Ok && r2 is Ok {
        let isz = o1.spec_superblock().inode_size as int;
        let slot = o1.inode_slot(n);
        assert(o2.inode_slot(n) == slot);
        let sb = o1.spec_superblock();
        let g = (n - 1) / (sb.inodes_per_group as int);
        let ix = (n - 1) % (sb.inodes_per_group as int);
        assert(ix >= 0);
        assert(slot >= 0) by (nonlinear_arith)
            requires
                slot == o1.spec_gdt()[g].inode_table * sb.block_size + ix * sb.inode_size,
                ix >= 0,
        ;
        let x = f1.image().subrange(slot, slot + isz);
        let y = f2.image().subrange(slot, slot + isz);
        assert(i2.encoded_in(x, isz));
        lemma_inode_encoding_unique(i2, x, y, isz);
        assert(x.take(isz) =~= x);
        assert(y.take(isz) =~= y);
        lemma_written_unique(o1.image(), f1.image(), f2.image(), slot, isz);
        assert(r1->Ok_0 == () && r2->Ok_0 == ());
        assert(r1 == Ok::<(), Ext4Error>(()) && r2 == Ok::<(), Ext4Error>(()));
    }
}

/// Writing bytes has one outcome.
proof fn lemma_write_at_unique(
    o1: Filesystem,
    o2: Filesystem,
    off: u128,
    data: Seq<u8>,
    r1: Result<(), Ext4Error>,
    f1: Filesystem,
    r2: Result<(), Ext4Error>,
    f2: Filesystem,
)
    requires
        same_state(o1, o2),
        write_at_step(o1, off, data, r1, f1),
        write_at_step(o2, off, data, r2, f2),
    ensures
        r1 == r2,
        same_state(f1, f2),
{
    if r1 is Ok {
        lemma_written_unique(o1.image(), f1.image(), f2.image(), off as int, data.len() as int);
        assert(r1->Ok_0 == () && r2->Ok_0 == ());
        assert(r1 == Ok::<(), Ext4Error>(()) && r2 == Ok::<(), Ext4Error>(()));
    }
}

/// Adding a directory entry has one outcome.
proof fn lemma_entry_add_unique(
    o1: Filesystem,
    o2: Filesystem,
    pino: Inode,
    name: Seq<u8>,
    n: u32,
    file_type: u8,
    r1: Result<(), Ext4Error>,
    f1: Filesystem,
    r2: Result<(), Ext4Error>,
    f2: Filesystem,
)
    requires
        same_state(o1, o2),
        entry_add_step(o1, pino, name, n, file_type, r1, f1),
        entry_add_step(o2, pino, name, n, file_type, r2, f2),
    ensures
        r1 == r2,
        same_state(f1, f2),
{
    assert(o1.spec_resolve(pino, 0) == o2.spec_resolve(pino, 0)) by {
        o1.lemma_walk_reads(&o2, pino.block@, 0, (MAX_EXTENT_DEPTH + 1) as nat);
    }
    let bs = o1.spec_superblock().block_size as int;
    if let Ok(Some(p)) = o1.spec_resolve(pino, 0) {
        if r1 is Ok {
            assert(p * bs >= 0) by (nonlinear_arith)
                requires
                    p >= 0,
                    bs >= 0,
            ;
            lemma_written_unique(o1.image(), f1.image(), f2.image(), p * bs, bs);
        }
    }
}

/// The steps of `create_file`, each as its own contract has it, from `o`
/// to `f`, ending in `r`, make up [`Filesystem::create_run`]. Each step
/// is looked at only once the ones before it succeeded.
proof fn lemma_create_run_steps(
    o: Filesystem,
    s1: Filesystem,
    s2: Filesystem,
    s3: Filesystem,
    s4: Filesystem,
    s5: Filesystem,
    f: Filesystem,
    r1: Result<u32, Ext4Error>,
    r2: Result<u64, Ext4Error>,
    r3: Result<(), Ext4Error>,
    r4: Result<(), Ext4Error>,
    r5: Result<(), Ext4Error>,
    n: u32,
    start: u64,
    ino: Inode,
    pino: Inode,
    name: Seq<u8>,
    data: Seq<u8>,
    r: Result<u32, Ext4Error>,
)
    requires
        inode_alloc_step(o, r1, s1),
        r1 is Err ==> r == Err::<u32, Ext4Error>(r1->Err_0) && f == s1,
        r1 is Ok ==> ({
            let bs = s1.spec_superblock().block_size as int;
            let nb = blocks_for(data.len() as int, bs);
            &&& n == r1->Ok_0
            &&& blocks_alloc_step(s1, nb as u32, r2, s2)
            &&& s2.spec_superblock().block_size == bs
            &&& r2 is Err ==> r == Err::<u32, Ext4Error>(r2->Err_0) && f == s2
            &&& r2 is Ok ==> start == r2->Ok_0 && match extent_root_error(nb as u64, start) {
                Some(e) => r == Err::<u32, Ext4Error>(e) && f == s2,
                None => {
                    &&& is_new_inode(ino, NEW_FILE_MODE, 1, data.len() as int, nb, start as int, bs)
                    &&& write_inode_step(s2, n, ino, r3, s3)
                    &&& s3.spec_superblock().block_size == bs
                    &&& r3 is Err ==> r == Err::<u32, Ext4Error>(r3->Err_0) && f == s3
                    &&& r3 is Ok ==> {
                        &&& file_data_step(s3, nb, start as int, bs, data, r4, s4)
                        &&& r4 is Err ==> r == Err::<u32, Ext4Error>(r4->Err_0) && f == s4
                        &&& r4 is Ok ==> {
                            &&& entry_add_step(s4, pino, name, n, FT_REG_FILE, r5, s5)
                            &&& r5 is Err ==> r == Err::<u32, Ext4Error>(r5->Err_0) && f == s5
                            &&& r5 is Ok ==> r == Ok::<u32, Ext4Error>(n) && flush_step(s5, Ok(()), f)
                        }
                    }
                },
            }
        }),
    ensures
        o.create_run(f, pino, name, data, r),
{
    reveal(Filesystem::create_run);
    reveal(create_after_inode);
    reveal(create_after_blocks);
    reveal(create_after_inode_written);
    reveal(create_after_data);
    reveal(last_steps);
    if r1 is Ok {
        if r2 is Ok {
            if extent_root_error(blocks_for(data.len() as int, s1.spec_superblock().block_size as int) as u64, start) is None {
                if r3 is Ok {
                    if r4 is Ok {
                        assert(last_steps(s5, f, n, r5, r));
                        assert(create_after_data(s4, f, pino, name, n, r4, r));
                    } else {
                        assert(create_after_data(s4, f, pino, name, n, r4, r));
                    }
                    assert(create_after_inode_written(s3, f, pino, name, data, n, start as int, r3, r));
                } else {
                    assert(create_after_inode_written(s3, f, pino, name, data, n, start as int, r3, r));
                }
            }
            assert(create_after_blocks(s2, f, pino, name, data, n, r2, r));
        } else {
            assert(create_after_blocks(s2, f, pino, name, data, n, r2, r));
        }
    }
    assert(create_after_inode(s1, f, pino, name, data, r1, r));
}

/// Running `create_file`'s steps has one outcome: from filesystems with
/// the same image, superblock and group descriptors, two runs for the
/// same entry and data end in the same result, and, when it is an error,
/// in the same state.
#[verifier::rlimit(80)]
#[verifier::spinoff_prover]
pub proof fn lemma_create_run_unique(
    o1: Filesystem,
    o2: Filesystem,
    f1: Filesystem,
    f2: Filesystem,
    pino: Inode,
    name: Seq<u8>,
    data: Seq<u8>,
    r1: Result<u32, Ext4Error>,
    r2: Result<u32, Ext4Error>,
)
    requires
        same_state(o1, o2),
        o1.spec_superblock().inodes_per_group > 0,
        o1.create_run(f1, pino, name, data, r1),
        o2.create_run(f2, pino, name, data, r2),
    ensures
        r1 == r2,
        r1 is Err ==> same_state(f1, f2),
{
    reveal(Filesystem::create_run);
    reveal(create_after_inode);
    reveal(create_after_blocks);
    reveal(create_after_inode_written);
    reveal(create_after_data);
    reveal(last_steps);
    let (a1, t1) = choose|x: Result<u32, Ext4Error>, y: Filesystem|
        inode_alloc_step(o1, x, y) && create_after_inode(y, f1, pino, name, data, x, r1);
    let (a2, t2) = choose|x: Result<u32, Ext4Error>, y: Filesystem|
        inode_alloc_step(o2, x, y) && create_after_inode(y, f2, pino, name, data, x, r2);
    lemma_inode_alloc_unique(o1, o2, a1, t1, a2, t2);
    assert(t1.spec_superblock().inodes_per_group == o1.spec_superblock().inodes_per_group);
    if let Ok(n) = a1 {
        let bs = t1.spec_superblock().block_size as int;
        let nb = blocks_for(data.len() as int, bs);
        let (b1, u1) = choose|x: Result<u64, Ext4Error>, y: Filesystem|
            blocks_alloc_step(t1, nb as u32, x, y) && create_after_blocks(y, f1, pino, name, data, n, x, r1);
        let (b2, u2) = choose|x: Result<u64, Ext4Error>, y: Filesystem|
            blocks_alloc_step(t2, nb as u32, x, y) && create_after_blocks(y, f2, pino, name, data, n, x, r2);
        lemma_blocks_alloc_unique(t1, t2, nb as u32, b1, u1, b2, u2);
        assert(u1.spec_superblock().inodes_per_group == o1.spec_superblock().inodes_per_group);
        assert(u1.spec_superblock().block_size == bs);
        if let Ok(start) = b1 {
            if extent_root_error(nb as u64, start) is None {
                let (i1, c1, v1) = choose|i: Inode, x: Result<(), Ext4Error>, y: Filesystem|
                    is_new_inode(i, NEW_FILE_MODE, 1, data.len() as int, nb, start as int, bs)
                        && write_inode_step(u1, n, i, x, y) && create_after_inode_written(
                        y, f1, pino, name, data, n, start as int, x, r1,
                    );
                let (i2, c2, v2) = choose|i: Inode, x: Result<(), Ext4Error>, y: Filesystem|
                    is_new_inode(i, NEW_FILE_MODE, 1, data.len() as int, nb, start as int, bs)
                        && write_inode_step(u2, n, i, x, y) && create_after_inode_written(
                        y, f2, pino, name, data, n, start as int, x, r2,
                    );
                lemma_extent_root_unique(i1.block@, i2.block@, nb, start as int);
                lemma_write_inode_unique(u1, u2, n, i1, i2, c1, v1, c2, v2);
                assert(v1.spec_superblock().block_size == bs);
                if c1 is Ok {
                    let (d1, w1) = choose|x: Result<(), Ext4Error>, y: Filesystem|
                        file_data_step(v1, nb, start as int, bs, data, x, y) && create_after_data(
                            y, f1, pino, name, n, x, r1,
                        );
                    let (d2, w2) = choose|x: Result<(), Ext4Error>, y: Filesystem|
                        file_data_step(v2, nb, start as int, bs, data, x, y) && create_after_data(
                            y, f2, pino, name, n, x, r2,
                        );
                    if nb > 0 {
                        lemma_write_at_unique(
                            v1, v2, (start * bs) as u128, padded(data, nb * bs), d1, w1, d2, w2,
                        );
                    }
                    if d1 is Ok {
                        let (e1, x1) = choose|x: Result<(), Ext4Error>, y: Filesystem|
                            entry_add_step(w1, pino, name, n, FT_REG_FILE, x, y) && last_steps(y, f1, n, x, r1);
                        let (e2, x2) = choose|x: Result<(), Ext4Error>, y: Filesystem|
                            entry_add_step(w2, pino, name, n, FT_REG_FILE, x, y) && last_steps(y, f2, n, x, r2);
                        lemma_entry_add_unique(w1, w2, pino, name, n, FT_REG_FILE, e1, x1, e2, x2);
                    }
                }
            }
        }
    }
}

/// Running `mkdir`'s steps has one outcome: from filesystems with the
/// same image, superblock and group descriptors, two runs for the same
/// entry end in the same result, and, when it is an error, in the same
/// state.
#[verifier::rlimit(80)]
#[verifier::spinoff_prover]
pub proof fn lemma_mkdir_run_unique(
    o1: Filesystem,
    o2: Filesystem,
    f1: Filesystem,
    f2: Filesystem,
    p: u32,
    pino: Inode,
    name: Seq<u8>,
    r1: Result<u32, Ext4Error>,
    r2: Result<u32, Ext4Error>,
)
    requires
        same_state(o1, o2),
        o1.spec_superblock().inodes_per_group > 0,
        o1.mkdir_run(f1, p, pino, name, r1),
        o2.mkdir_run(f2, p, pino, name, r2),
    ensures
        r1 == r2,
        r1 is Err ==> same_state(f1, f2),
{
    reveal(Filesystem::mkdir_run);
    reveal(mkdir_after_inode);
    reveal(mkdir_after_block);
    reveal(mkdir_after_inode_written);
    reveal(mkdir_after_block_written);
    reveal(mkdir_after_entry);
    reveal(mkdir_after_relink);
    reveal(last_steps);
    let (a1, t1) = choose|x: Result<u32, Ext4Error>, y: Filesystem|
        inode_alloc_step(o1, x, y) && mkdir_after_inode(y, f1, p, pino, name, x, r1);
    let (a2, t2) = choose|x: Result<u32, Ext4Error>, y: Filesystem|
        inode_alloc_step(o2, x, y) && mkdir_after_inode(y, f2, p, pino, name, x, r2);
    lemma_inode_alloc_unique(o1, o2, a1, t1, a2, t2);
    assert(t1.spec_superblock().inodes_per_group == o1.spec_superblock().inodes_per_group);
    if let Ok(n) = a1 {
        let (b1, u1) = choose|x: Result<u64, Ext4Error>, y: Filesystem|
            blocks_alloc_step(t1, 1, x, y) && mkdir_after_block(y, f1, p, pino, name, n, x, r1);
        let (b2, u2) = choose|x: Result<u64, Ext4Error>, y: Filesystem|
            blocks_alloc_step(t2, 1, x, y) && mkdir_after_block(y, f2, p, pino, name, n, x, r2);
        lemma_blocks_alloc_unique(t1, t2, 1, b1, u1, b2, u2);
        assert(u1.spec_superblock().inodes_per_group == o1.spec_superblock().inodes_per_group);
        let bs = u1.spec_superblock().block_size as int;
        if let Ok(start) = b1 {
            let (i1, c1, v1) = choose|i: Inode, x: Result<(), Ext4Error>, y: Filesystem|
                is_new_inode(i, NEW_DIR_MODE, 2, bs, 1, start as int, bs) && write_inode_step(u1, n, i, x, y)
                    && mkdir_after_inode_written(y, f1, p, pino, name, n, start as int, x, r1);
            let (i2, c2, v2) = choose|i: Inode, x: Result<(), Ext4Error>, y: Filesystem|
                is_new_inode(i, NEW_DIR_MODE, 2, bs, 1, start as int, bs) && write_inode_step(u2, n, i, x, y)
                    && mkdir_after_inode_written(y, f2, p, pino, name, n, start as int, x, r2);
            lemma_extent_root_unique(i1.block@, i2.block@, 1, start as int);
            lemma_write_inode_unique(u1, u2, n, i1, i2, c1, v1, c2, v2);
            assert(v1.spec_superblock().block_size == bs);
            if c1 is Ok {
                let blk = encoded_dir_entry(dot_entry(n)) + encoded_dir_entry(dotdot_entry(p, bs));
                let (d1, w1) = choose|x: Result<(), Ext4Error>, y: Filesystem|
                    write_at_step(v1, (start * bs) as u128, blk, x, y) && mkdir_after_block_written(
                        y, f1, p, pino, name, n, x, r1,
                    );
                let (d2, w2) = choose|x: Result<(), Ext4Error>, y: Filesystem|
                    write_at_step(v2, (start * bs) as u128, blk, x, y) && mkdir_after_block_written(
                        y, f2, p, pino, name, n, x, r2,
                    );
                lemma_write_at_unique(v1, v2, (start * bs) as u128, blk, d1, w1, d2, w2);
                if d1 is Ok {
                    let (e1, x1) = choose|x: Result<(), Ext4Error>, y: Filesystem|
                        entry_add_step(w1, pino, name, n, FT_DIR, x, y) && mkdir_after_entry(y, f1, p, pino, n, x, r1);
                    let (e2, x2) = choose|x: Result<(), Ext4Error>, y: Filesystem|
                        entry_add_step(w2, pino, name, n, FT_DIR, x, y) && mkdir_after_entry(y, f2, p, pino, n, x, r2);
                    lemma_entry_add_unique(w1, w2, pino, name, n, FT_DIR, e1, x1, e2, x2);
                    assert(x1.spec_superblock().inodes_per_group == o1.spec_superblock().inodes_per_group);
                    if e1 is Ok {
                        let relinked = Inode { links_count: ((pino.links_count + 1) % 0x1_0000) as u16, ..pino };
                        let (g1, y1) = choose|x: Result<(), Ext4Error>, y: Filesystem|
                            write_inode_step(x1, p, relinked, x, y) && mkdir_after_relink(y, f1, n, x, r1);
                        let (g2, y2) = choose|x: Result<(), Ext4Error>, y: Filesystem|
                            write_inode_step(x2, p, relinked, x, y) && mkdir_after_relink(y, f2, n, x, r2);
                        lemma_write_inode_unique(x1, x2, p, relinked, relinked, g1, y1, g2, y2);
                    }
                }
            }
        }
    }
}

impl Filesystem {
    /// Create a regular file at `path` holding `data`; returns its inode
    /// number. The lowest free inode and the lowest run of free blocks of
    /// group 0 are taken, the inode and the data written, an entry added
    /// to the parent's first directory block, and the superblock and
    /// group descriptors written back. Past the checks on the path, the
    /// result and the new state are those of [`Filesystem::create_run`],
    /// on every image; where the regions written lie apart, they are also
    /// spelled out in [`Filesystem::file_outcome`] and
    /// [`Filesystem::file_created`].
    pub fn create_file(&mut self, path: &str, data: &[u8]) -> (r: Result<u32, Ext4Error>)
        requires
            path.spec_bytes().len() + 11 <= usize::MAX,
            data@.len() + 65536 <= usize::MAX,
        ensures
            old(self).same_layout(&*final(self)),
            match old(self).spec_create_check(path.spec_bytes()) {
                CreateCheck::Ready(p, pino, name) => {
                    &&& old(self).create_run(*final(self), pino, name, data@, r)
                    &&& r matches Ok(n) ==> old(self).file_created(&*final(self), n, pino, name, data@)
                    &&& old(self).file_outcome(r, pino, name, data@.len() as int)
                },
                c => check_fails_with(r, c) && *final(self) == *old(self),
            },
    {
        let (parent_inode_num, parent_inode, filename) = match self.create_check(path.as_bytes()) {
            Ok(x) => x,
            Err(e) => return Err(e),
        };
        proof {
            reveal(Filesystem::name_free);
        }
        self.create_checked_file(parent_inode_num, &parent_inode, filename.as_slice(), data)
    }

    /// What `create_file` of `data` promises once it returns inode `n`
    /// for a new entry `name` in the directory `pino`: `n - 1` was the
    /// lowest free inode, the free counts went down by the inode and the
    /// blocks taken, and, when the regions written lie apart, reading
    /// inode `n` back gives a regular file of one link whose contents are
    /// `data`, looking `name` up in the parent finds `n`, inode `n` and
    /// the blocks taken (the lowest run of free blocks) are marked in use
    /// in the bitmaps, and every byte outside the regions written is as it
    /// was; when those regions also lie inside the image, what each of
    /// them holds afterwards is fixed.
    pub open spec fn file_created(&self, f: &Filesystem, n: u32, pino: Inode, name: Seq<u8>, data: Seq<u8>) -> bool {
        let o = *self;
        let bs = o.spec_superblock().block_size as int;
        let nb = blocks_for(data.len() as int, bs);
        &&& read_range(o.image(), o.inode_bitmap_offset(), bs) matches Ok(bm)
            && is_first_clear_bit(bm, o.spec_superblock().inodes_per_group as int, n - 1)
        &&& f.spec_superblock().free_inodes_count == sat_sub(o.spec_superblock().free_inodes_count as int, 1)
        &&& f.spec_superblock().free_blocks_count == sat_sub(o.spec_superblock().free_blocks_count as int, (nb as u32) as int)
        &&& f.spec_gdt()[0].free_inodes_count == sat_sub(o.spec_gdt()[0].free_inodes_count as int, 1)
        &&& f.spec_gdt()[0].free_blocks_count == sat_sub(o.spec_gdt()[0].free_blocks_count as int, (nb as u32) as int)
        &&& f.spec_gdt()[0].used_dirs_count == o.spec_gdt()[0].used_dirs_count
        &&& o.create_regions_apart(n, data.len() as int, pino) ==> {
            &&& f.spec_read_inode(n) is Ok
            &&& (f.spec_read_inode(n)->Ok_0).spec_file_type() == InodeFileType::Regular
            &&& (f.spec_read_inode(n)->Ok_0).size == data.len()
            &&& (f.spec_read_inode(n)->Ok_0).links_count == 1
            &&& f.spec_read_file(f.spec_read_inode(n)->Ok_0) == Ok::<Seq<u8>, Ext4Error>(data)
            &&& is_new_inode(f.spec_read_inode(n)->Ok_0, NEW_FILE_MODE, 1, data.len() as int, nb, o.file_start(nb), bs)
            &&& nb > 0 ==> (read_range(o.image(), o.block_bitmap_offset(), bs) matches Ok(bbm)
                && is_first_clear_run(bbm, nb, block_limit(o.spec_superblock()), o.file_start(nb)))
            &&& nb > 0 ==> o.file_start(nb) * bs + nb * bs <= f.image().len() && f.image().subrange(
                o.file_start(nb) * bs,
                o.file_start(nb) * bs + nb * bs,
            ) == padded(data, nb * bs)
            &&& f.image().len() >= o.image().len()
            &&& forall|i: int|
                0 <= i < o.image().len() && !o.create_writes(n, data.len() as int, pino, i) ==> #[trigger] f.image()[i]
                    == o.image()[i]
        }
        &&& o.entry_regions_apart(n, data.len() as int, pino) ==> f.spec_lookup(pino, name)
            == LookupOutcome::Found(n)
        &&& o.inode_bitmap_apart(n, data.len() as int, pino) ==> (read_range(
            f.image(),
            o.inode_bitmap_offset(),
            bs,
        ) matches Ok(bm) && bit_set(bm, n - 1))
        &&& nb > 0 && o.block_bitmap_apart(n, data.len() as int, pino) ==> (read_range(
            f.image(),
            o.block_bitmap_offset(),
            bs,
        ) matches Ok(bbm) && forall|k: int|
            o.next_free_run(nb) <= k < o.next_free_run(nb) + nb ==> #[trigger] bit_set(bbm, k))
        &&& o.create_pinned(n, data.len() as int, pino) ==> {
            let isz = o.spec_superblock().inode_size as int;
            let slot = o.inode_slot(n);
            let pbo = o.spec_resolve(pino, 0)->Ok_0->Some_0 * bs;
            &&& f.image().len() == o.image().len()
            &&& pbo + bs <= o.image().len()
            &&& read_range(f.image(), o.inode_bitmap_offset(), bs) == Ok::<Seq<u8>, Ext4Error>(
                with_bit_set(read_range(o.image(), o.inode_bitmap_offset(), bs)->Ok_0, n - 1),
            )
            &&& nb > 0 ==> (read_range(f.image(), o.block_bitmap_offset(), bs) matches Ok(x) && run_set(
                read_range(o.image(), o.block_bitmap_offset(), bs)->Ok_0,
                x,
                o.file_start(nb),
                nb,
            ))
            &&& (f.spec_read_inode(n)->Ok_0).encoded_in(f.image().subrange(slot, slot + isz), isz)
            &&& f.image().subrange(pbo, pbo + bs) == dir_block_with_entry(
                read_range(o.image(), pbo, bs)->Ok_0,
                name,
                n,
                FT_REG_FILE,
            )->Ok_0
            &&& f.holds_metadata()
            &&& f.spec_gdt() == o.spec_gdt().update(0, f.spec_gdt()[0])
        }
    }

    /// The part of `create_file` after its checks: the new file goes into
    /// the directory `parent_inode_num` (inode `parent_inode`) as
    /// `filename`.
    #[verifier::rlimit(100)]
    #[verifier::spinoff_prover]
    fn create_checked_file(&mut self, parent_inode_num: u32, parent_inode: &Inode, filename: &[u8], data: &[u8]) -> (r: Result<u32, Ext4Error>)
        requires
            old(self).spec_read_inode(parent_inode_num) == Ok::<Inode, Ext4Error>(*parent_inode),
            old(self).name_free(*parent_inode, filename@),
            filename@.len() + 11 <= usize::MAX,
            data@.len() + 65536 <= usize::MAX,
        ensures
            old(self).same_layout(&*final(self)),
            r matches Ok(n) ==> old(self).file_created(&*final(self), n, *parent_inode, filename@, data@),
            old(self).file_outcome(r, *parent_inode, filename@, data@.len() as int),
            old(self).create_run(*final(self), *parent_inode, filename@, data@, r),
    {
        proof {
            use_type_invariant(&*self);
        }
        let ghost s0 = *self;
        let bs = self.superblock.block_size as u64;
        let len = data.len() as u64;
        let num_blocks = len / bs + if len % bs != 0 {
            1
        } else {
            0
        };
        proof {
            let d = len as int;
            let p = bs as int;
            assert(d == p * (d / p) + d % p) by (nonlinear_arith)
                requires
                    p > 0,
            ;
            assert((d + p - 1) / p == if d % p == 0 {
                d / p
            } else {
                d / p + 1
            }) by (nonlinear_arith)
                requires
                    p > 0,
                    d >= 0,
            ;
            assert(num_blocks * p <= d + p - 1) by (nonlinear_arith)
                requires
                    num_blocks == d / p + if d % p != 0 {
                        1int
                    } else {
                        0int
                    },
                    d == p * (d / p) + d % p,
                    0 <= d % p < p,
            ;
            assert(num_blocks * p >= d) by (nonlinear_arith)
                requires
                    num_blocks == d / p + if d % p != 0 {
                        1int
                    } else {
                        0int
                    },
                    d == p * (d / p) + d % p,
                    0 <= d % p < p,
            ;
        }
        let r1 = self.allocate_inode();
        let ghost s1 = *self;
        let ghost nbs = blocks_for(data@.len() as int, bs as int);
        assert(num_blocks == nbs);
        let new_inode_num = match r1 {
            Ok(n) => n,
            Err(e) => {
                proof {
                    lemma_outcome_no_inode(s0, *parent_inode, filename@, len as int, e);
                    assert(inode_alloc_step(s0, r1, s1));
lemma_create_run_steps(s0, s1, s1, s1, s1, s1, *self, r1, Err(Ext4Error::NotExtentBased), Ok(()), Ok(()), Ok(()), 0, 0, *parent_inode, *parent_inode, filename@, data@, Err(e));
                }
                return Err(e);
            },
        };
        let count = #[verifier::truncate] (num_blocks as u32);
        let r2 = self.allocate_blocks_contiguous(count);
        let ghost s2 = *self;
        proof {
            assert(blocks_alloc_step(s1, nbs as u32, r2, s2));
        }
        let physical_start = match r2 {
            Ok(st) => st,
            Err(e) => {
                proof {
                    lemma_outcome_no_blocks(s0, s1, *parent_inode, filename@, len as int, new_inode_num, count, e);
                    assert(inode_alloc_step(s0, r1, s1));
lemma_create_run_steps(s0, s1, s2, s2, s2, s2, *self, r1, r2, Ok(()), Ok(()), Ok(()), new_inode_num, 0, *parent_inode, *parent_inode, filename@, data@, Err(e));
                }
                return Err(e);
            },
        };
        assert(allocated(s0, s1, s2, new_inode_num, count, physical_start));
        proof {
            let x = (new_inode_num - 1) as int;
            let q = s0.spec_superblock().inodes_per_group as int;
            assert(x / q == 0) by (nonlinear_arith)
                requires
                    0 <= x < q,
            ;
        }
        let new_file = match new_inode(NEW_FILE_MODE, 1, len, num_blocks, physical_start, bs) {
            Ok(i) => i,
            Err(e) => {
                proof {
                    lemma_outcome_unwritable(
                        s0, s1, s2, *parent_inode, filename@, len as int, new_inode_num, count,
                        physical_start, e,
                    );
                    assert(inode_alloc_step(s0, r1, s1));
lemma_create_run_steps(s0, s1, s2, s2, s2, s2, *self, r1, r2, Ok(()), Ok(()), Ok(()), new_inode_num, physical_start, *parent_inode, *parent_inode, filename@, data@, Err(e));
                }
                return Err(e);
            },
        };
        let r3 = self.write_inode(new_inode_num, &new_file);
        let ghost s3 = *self;
        proof {
            assert(write_inode_step(s2, new_inode_num, new_file, r3, s3));
        }
        match r3 {
            Ok(()) => {},
            Err(e) => {
                proof {
                    lemma_outcome_unwritable(
                        s0, s1, s2, *parent_inode, filename@, len as int, new_inode_num, count,
                        physical_start, e,
                    );
                    assert(inode_alloc_step(s0, r1, s1));
lemma_create_run_steps(s0, s1, s2, s3, s3, s3, *self, r1, r2, r3, Ok(()), Ok(()), new_inode_num, physical_start, new_file, *parent_inode, filename@, data@, Err(e));
                }
                return Err(e);
            },
        }
        let ghost r4: Result<(), Ext4Error> = Ok(());
        if num_blocks > 0 {
            let total = (num_blocks * bs) as usize;
            let mut buf = zeroed(total);
            write_bytes(buf.as_mut_slice(), 0, data);
            assert(buf@ =~= padded(data@, total as int));
            assert(physical_start as u128 * bs as u128 <= 0xffff_ffff_ffff_ffff * 65536) by (nonlinear_arith)
                requires
                    physical_start <= 0xffff_ffff_ffff_ffffu64,
                    bs <= 65536,
            ;
            let rw = self.write_at(physical_start as u128 * bs as u128, buf.as_slice());
            proof {
                r4 = rw;
            }
            match rw {
                Ok(()) => {},
                Err(e) => {
                    proof {
                        lemma_outcome_unwritable(
                            s0, s1, s2, *parent_inode, filename@, len as int, new_inode_num, count,
                            physical_start, e,
                        );
                        assert(inode_alloc_step(s0, r1, s1));
lemma_create_run_steps(s0, s1, s2, s3, *self, *self, *self, r1, r2, r3, rw, Ok(()), new_inode_num, physical_start, new_file, *parent_inode, filename@, data@, Err(e));
                    }
                    return Err(e);
                },
            }
        }
        let ghost s4 = *self;
        proof {
            assert(file_data_step(s3, nbs, physical_start as int, bs as int, data@, r4, s4));
        }
        let added = self.add_dir_entry(parent_inode, filename, new_inode_num, FT_REG_FILE);
        let ghost s5 = *self;
        proof {
            lemma_outcome_entry(
                s0, s1, s2, s3, s4, *parent_inode, filename@, len as int, new_inode_num, count,
                physical_start, added,
            );
            assert(entry_add_step(s4, *parent_inode, filename@, new_inode_num, FT_REG_FILE, added, s5));
        }
        match added {
            Ok(()) => {},
            Err(e) => {
                proof {
                    assert(inode_alloc_step(s0, r1, s1));
lemma_create_run_steps(s0, s1, s2, s3, s4, s5, *self, r1, r2, r3, r4, added, new_inode_num, physical_start, new_file, *parent_inode, filename@, data@, Err(e));
                }
                return Err(e);
            },
        }
        let rf = self.flush_metadata();
        proof {
            assert(flush_step(s5, rf, *self));
        }
        match rf {
            Ok(()) => {},
            Err(e) => return Err(e),
        }
        proof {
            assert(inode_alloc_step(s0, r1, s1));
lemma_create_run_steps(s0, s1, s2, s3, s4, s5, *self, r1, r2, r3, r4, added, new_inode_num, physical_start, new_file, *parent_inode, filename@, data@, Ok(new_inode_num));
        }
        proof {
            use_type_invariant(&*self);
            let o = s0;
            let n = new_inode_num;
            let nb = num_blocks as int;
            let bsi = bs as int;
            if o.create_regions_apart(n, len as int, *parent_inode) {
                let sb = o.spec_superblock();
                let isz = sb.inode_size as int;
                let slot = o.inode_slot(n);
                let pb = o.spec_resolve(*parent_inode, 0)->Ok_0->Some_0;
                assert(s4.spec_resolve(*parent_inode, 0) == o.spec_resolve(*parent_inode, 0));
                assert(s2.inode_slot(n) == slot);
                assert(self.inode_slot(n) == slot);
                let start = physical_start as int;
                if nb > 0 {
                    let bbm_old = read_range(o.image(), o.block_bitmap_offset(), bsi)->Ok_0;
                    lemma_written_at_keeps(o.image(), s1.image(), o.inode_bitmap_offset(), bsi, o.block_bitmap_offset(), bsi);
                    assert(is_first_clear_run(bbm_old, nb, block_limit(sb), start));
                }
                if nb > 0 {
                    o.lemma_run_is_next(s1, count, physical_start);
                }
                assert(o.file_start(nb) == start);
                lemma_create_file_regions(
                    s2.image(), s3.image(), s4.image(), s5.image(), s5, self.image(),
                    slot, isz, nb, start * bsi, nb * bsi, pb * bsi, bsi, new_file,
                    padded(data@, nb * bsi),
                );
                self.lemma_new_inode_reads_back(n, new_file);
                assert(new_file.spec_file_type() == InodeFileType::Regular) by {
                    assert(NEW_FILE_MODE & 0xF000u16 == 0x8000u16) by (bit_vector);
                }
                if nb > 0 {
                    self.lemma_new_file_reads_back(new_file, NEW_FILE_MODE, 1, data@, start, nb);
                } else {
                    assert(data@ =~= Seq::<u8>::empty());
                }
                if o.entry_regions_apart(n, len as int, *parent_inode) {
                    let pbo = pb * bsi;
                    if pbo + bsi <= o.image().len() {
                        lemma_written_at_keeps(o.image(), s1.image(), o.inode_bitmap_offset(), bsi, pbo, bsi);
                        if nb > 0 {
                            lemma_written_at_keeps(s1.image(), s2.image(), o.block_bitmap_offset(), bsi, pbo, bsi);
                        }
                        lemma_written_at_keeps(s2.image(), s3.image(), slot, isz, pbo, bsi);
                        if nb > 0 {
                            lemma_written_at_keeps(s3.image(), s4.image(), start * bsi, nb * bsi, pbo, bsi);
                        }
                    }
                    if pbo + bsi <= s5.image().len() {
                        lemma_flush_keeps(s5, self.image(), pbo, bsi);
                    }
                    lemma_new_entry_found(o, s4, s5, *self, *parent_inode, filename@, n, FT_REG_FILE, pb);
                }
            }
            lemma_inode_bit_kept(s0, s1, s2, s3, s4, s5, *self, *parent_inode, len as int, n, count, physical_start);
            lemma_block_bits_kept(s0, s1, s2, s3, s4, s5, *self, *parent_inode, len as int, n, count, physical_start);
            lemma_create_frame(s0, s1, s2, s3, s4, s5, *self, *parent_inode, len as int, n, count, physical_start);
            if o.create_pinned(n, len as int, *parent_inode) {
                lemma_create_keeps_len(s0, s1, s2, s3, s4, s5, *self, *parent_inode, len as int, n, count, physical_start);
                assert(self.holds_metadata());
                assert(self.spec_gdt() =~= o.spec_gdt().update(0, self.spec_gdt()[0]));
            }
        }
        Ok(new_inode_num)
    }
}

impl Filesystem {
    /// Count one more directory in group 0 (wrapping).
    fn count_new_dir(&mut self)
        requires
            old(self).spec_gdt().len() > 0,
        ensures
            dir_count_step(*old(self), *final(self)),
    {
        proof {
            use_type_invariant(&*self);
        }
        let g = &self.gdt[0];
        let gd0 = GroupDescriptor {
            block_bitmap: g.block_bitmap,
            inode_bitmap: g.inode_bitmap,
            inode_table: g.inode_table,
            free_blocks_count: g.free_blocks_count,
            free_inodes_count: g.free_inodes_count,
            used_dirs_count: g.used_dirs_count.wrapping_add(1),
            flags: g.flags,
            checksum: g.checksum,
        };
        self.gdt[0] = gd0;
        assert(self.gdt@ =~= old(self).gdt@.update(0, gd0));
    }
}

/// The first block of a new directory `inode` in the directory
/// `parent`: "." then ".." filling the rest of the `bs` bytes.
fn new_dir_block(inode: u32, parent: u32, bs: u64) -> (r: Result<Vec<u8>, Ext4Error>)
    requires
        24 <= bs <= 65536,
        bs % 4 == 0,
    ensures
        r is Ok,
        r matches Ok(v) ==> v@ == encoded_dir_entry(dot_entry(inode)) + encoded_dir_entry(
            dotdot_entry(parent, bs as int),
        ),
{
    let dot = DirEntry { inode, rec_len: 12, file_type_raw: FT_DIR, name: vec![0x2E] };
    let dotdot = DirEntry {
        inode: parent,
        rec_len: (bs - 12) as u16,
        file_type_raw: FT_DIR,
        name: vec![0x2E, 0x2E],
    };
    assert(dot.name@ =~= seq![0x2Eu8]);
    assert(dotdot.name@ =~= seq![0x2Eu8, 0x2Eu8]);
    assert(dot@ == dot_entry(inode));
    assert(dotdot@ == dotdot_entry(parent, bs as int));
    let mut data = zeroed(12);
    match dot.encode_into(data.as_mut_slice()) {
        Ok(()) => {},
        Err(e) => return Err(Ext4Error::DirEntryEncode(e)),
    }
    let mut rest = zeroed((bs - 12) as usize);
    match dotdot.encode_into(rest.as_mut_slice()) {
        Ok(()) => {},
        Err(e) => return Err(Ext4Error::DirEntryEncode(e)),
    }
    let ghost first = data@;
    data.extend_from_slice(rest.as_slice());
    assert(first =~= encoded_dir_entry(dot_entry(inode)));
    assert(rest@ =~= encoded_dir_entry(dotdot_entry(parent, bs as int)));
    assert(data@ =~= encoded_dir_entry(dot_entry(inode)) + encoded_dir_entry(
        dotdot_entry(parent, bs as int),
    ));
    Ok(data)
}

impl Filesystem {
    /// Create an empty directory at `path`; returns its inode number. The
    /// lowest free inode and the lowest free block of group 0 are taken;
    /// the block gets "." and ".." (the latter filling the block), the
    /// parent an entry for the new directory and one more link, group 0
    /// one more directory; then the superblock and group descriptors are
    /// written back. Past the checks on the path, the result and the new
    /// state are those of [`Filesystem::mkdir_run`], on every image; where
    /// the regions written lie apart, they are also spelled out in
    /// [`Filesystem::dir_outcome`] and [`Filesystem::dir_created`].
    pub fn mkdir(&mut self, path: &str) -> (r: Result<u32, Ext4Error>)
        requires
            path.spec_bytes().len() + 11 <= usize::MAX,
        ensures
            old(self).same_layout(&*final(self)),
            match old(self).spec_create_check(path.spec_bytes()) {
                CreateCheck::Ready(p, pino, name) => {
                    &&& old(self).mkdir_run(*final(self), p, pino, name, r)
                    &&& r matches Ok(n) ==> old(self).dir_created(&*final(self), n, p, pino, name)
                    &&& old(self).dir_outcome(r, p, pino, name)
                },
                c => check_fails_with(r, c) && *final(self) == *old(self),
            },
    {
        let (parent_inode_num, parent_inode, dirname) = match self.create_check(path.as_bytes()) {
            Ok(x) => x,
            Err(e) => return Err(e),
        };
        proof {
            reveal(Filesystem::name_free);
        }
        self.mkdir_checked(parent_inode_num, parent_inode, dirname.as_slice())
    }

    /// The regions `mkdir` writes do not overlap where the new directory
    /// and its parent have to be read back from: the parent's extent tree
    /// is a single leaf whose first block resolves; the new inode's slot,
    /// the new directory's block (the lowest free block), the parent's
    /// first directory block, the parent's slot, the superblock and the
    /// group descriptor table lie apart where a later write could reach
    /// an earlier one; the inode and block bitmaps lie apart.
    pub open spec fn mkdir_regions_apart(&self, n: u32, p: u32, pino: Inode) -> bool {
        let sb = self.spec_superblock();
        let bs = sb.block_size as int;
        let isz = sb.inode_size as int;
        let sn = self.inode_slot(n);
        let sp = self.inode_slot(p);
        let go = gdt_offset(sb);
        let glen = self.spec_gdt().len() * sb.spec_group_descriptor_size();
        &&& le_u16(pino.block@, 6) == 0
        &&& apart(self.inode_bitmap_offset(), bs, self.block_bitmap_offset(), bs)
        &&& apart(sp, isz, SUPERBLOCK_OFFSET as int, SUPERBLOCK_SIZE as int)
        &&& apart(sp, isz, go, glen)
        &&& apart(sn, isz, sp, isz)
        &&& apart(sn, isz, SUPERBLOCK_OFFSET as int, SUPERBLOCK_SIZE as int)
        &&& apart(sn, isz, go, glen)
        &&& self.spec_resolve(pino, 0) matches Ok(Some(pb)) && apart(sn, isz, pb * bs, bs)
        &&& read_range(self.image(), self.block_bitmap_offset(), bs) matches Ok(bbm)
            && forall|start: int|
            #![trigger is_first_clear_run(bbm, 1, block_limit(sb), start)]
            is_first_clear_run(bbm, 1, block_limit(sb), start) ==> {
                &&& apart(sn, isz, start * bs, bs)
                &&& apart(start * bs, bs, self.spec_resolve(pino, 0)->Ok_0->Some_0 * bs, bs)
                &&& apart(start * bs, bs, sp, isz)
                &&& apart(start * bs, bs, SUPERBLOCK_OFFSET as int, SUPERBLOCK_SIZE as int)
                &&& apart(start * bs, bs, go, glen)
            }
    }

    /// What `mkdir` promises once it returns inode `n` for a new entry
    /// `name` in the directory `p` (inode `pino`): `n - 1` was the lowest
    /// free inode, the free counts went down by one inode and one block,
    /// group 0 counts one more directory, and, when the regions written
    /// lie apart, inode `n` reads back as a directory of two links whose
    /// entries are "." (naming `n`) and ".." (naming `p`), the parent
    /// reads back with one more link, looking `name` up in it finds `n`,
    /// and inode `n` and its block are marked in use in the bitmaps; when
    /// the regions also lie inside the image, what each of them holds
    /// afterwards is fixed, and every other byte is as it was.
    pub open spec fn dir_created(&self, f: &Filesystem, n: u32, p: u32, pino: Inode, name: Seq<u8>) -> bool {
        let o = *self;
        let bs = o.spec_superblock().block_size as int;
        &&& read_range(o.image(), o.inode_bitmap_offset(), bs) matches Ok(bm)
            && is_first_clear_bit(bm, o.spec_superblock().inodes_per_group as int, n - 1)
        &&& f.spec_superblock().free_inodes_count == sat_sub(o.spec_superblock().free_inodes_count as int, 1)
        &&& f.spec_superblock().free_blocks_count == sat_sub(o.spec_superblock().free_blocks_count as int, 1)
        &&& f.spec_gdt()[0].free_inodes_count == sat_sub(o.spec_gdt()[0].free_inodes_count as int, 1)
        &&& f.spec_gdt()[0].free_blocks_count == sat_sub(o.spec_gdt()[0].free_blocks_count as int, 1)
        &&& f.spec_gdt()[0].used_dirs_count == (o.spec_gdt()[0].used_dirs_count + 1) % 0x1_0000_0000
        &&& o.mkdir_regions_apart(n, p, pino) ==> {
            &&& f.spec_read_inode(n) is Ok
            &&& (f.spec_read_inode(n)->Ok_0).spec_file_type() == InodeFileType::Directory
            &&& (f.spec_read_inode(n)->Ok_0).links_count == 2
            &&& f.spec_read_dir(f.spec_read_inode(n)->Ok_0) == Ok::<Seq<SpecDirEntry>, Ext4Error>(
                seq![dot_entry(n), dotdot_entry(p, bs)],
            )
            &&& f.spec_read_inode(p) == Ok::<Inode, Ext4Error>(
                Inode { links_count: ((pino.links_count + 1) % 0x1_0000) as u16, ..pino },
            )
        }
        &&& o.mkdir_entry_apart(n, p, pino) ==> f.spec_lookup(
            Inode { links_count: ((pino.links_count + 1) % 0x1_0000) as u16, ..pino },
            name,
        ) == LookupOutcome::Found(n)
        &&& o.mkdir_bitmaps_apart(n, p, pino) ==> {
            &&& read_range(f.image(), o.inode_bitmap_offset(), bs) matches Ok(bm) && bit_set(bm, n - 1)
            &&& read_range(f.image(), o.block_bitmap_offset(), bs) matches Ok(bbm) && bit_set(
                bbm,
                o.next_free_run(1),
            )
        }
        &&& o.mkdir_pinned(n, p, pino) ==> created_dir_regions(o, *f, n, p, pino, name)
    }

    /// Byte `i` lies in a region `mkdir` writes, taking inode `n` in the
    /// directory `p` (inode `pino`): a bitmap, inode `n`'s or `p`'s slot,
    /// the new directory's block, the parent's first block, the superblock
    /// or the group descriptor table.
    pub open spec fn mkdir_writes(&self, n: u32, p: u32, pino: Inode, i: int) -> bool {
        let bs = self.spec_superblock().block_size as int;
        let isz = self.spec_superblock().inode_size as int;
        let st = self.next_free_run(1);
        ||| self.inode_bitmap_offset() <= i < self.inode_bitmap_offset() + bs
        ||| self.block_bitmap_offset() <= i < self.block_bitmap_offset() + bs
        ||| self.inode_slot(n) <= i < self.inode_slot(n) + isz
        ||| st * bs <= i < st * bs + bs
        ||| (self.spec_resolve(pino, 0) matches Ok(Some(pb)) && pb * bs <= i < pb * bs + bs)
        ||| self.inode_slot(p) <= i < self.inode_slot(p) + isz
        ||| self.in_metadata_region(i)
    }

    /// All of what [`Filesystem::mkdir_entry_apart`] and
    /// [`Filesystem::mkdir_bitmaps_apart`] ask; besides, the group
    /// descriptor table lies past the superblock, and the new inode's slot
    /// and the new directory's block lie inside the image.
    pub open spec fn mkdir_pinned(&self, n: u32, p: u32, pino: Inode) -> bool {
        let sb = self.spec_superblock();
        let bs = sb.block_size as int;
        &&& self.mkdir_entry_apart(n, p, pino)
        &&& self.mkdir_bitmaps_apart(n, p, pino)
        &&& gdt_offset(sb) >= SUPERBLOCK_OFFSET + SUPERBLOCK_SIZE
        &&& self.inode_slot(n) + sb.inode_size <= self.image().len()
        &&& self.next_free_run(1) * bs + bs <= self.image().len()
        &&& self.inode_slot(p) + sb.inode_size <= self.image().len()
    }

    /// Besides what [`Filesystem::mkdir_regions_apart`] asks: group 0's
    /// bitmaps lie apart from the new inode's slot, the new directory's
    /// block, the parent's first block and slot, the superblock and the
    /// group descriptor table.
    pub open spec fn mkdir_bitmaps_apart(&self, n: u32, p: u32, pino: Inode) -> bool {
        let sb = self.spec_superblock();
        let bs = sb.block_size as int;
        let isz = sb.inode_size as int;
        let ibo = self.inode_bitmap_offset();
        let bbo = self.block_bitmap_offset();
        let go = gdt_offset(sb);
        let glen = self.spec_gdt().len() * sb.spec_group_descriptor_size();
        &&& self.mkdir_regions_apart(n, p, pino)
        &&& apart(ibo, bs, self.inode_slot(n), isz)
        &&& apart(bbo, bs, self.inode_slot(n), isz)
        &&& apart(ibo, bs, self.inode_slot(p), isz)
        &&& apart(bbo, bs, self.inode_slot(p), isz)
        &&& apart(ibo, bs, SUPERBLOCK_OFFSET as int, SUPERBLOCK_SIZE as int)
        &&& apart(bbo, bs, SUPERBLOCK_OFFSET as int, SUPERBLOCK_SIZE as int)
        &&& apart(ibo, bs, go, glen)
        &&& apart(bbo, bs, go, glen)
        &&& self.spec_resolve(pino, 0) matches Ok(Some(pb)) && apart(ibo, bs, pb * bs, bs) && apart(
            bbo,
            bs,
            pb * bs,
            bs,
        )
        &&& read_range(self.image(), bbo, bs) matches Ok(bbm) && forall|start: int|
            #![trigger is_first_clear_run(bbm, 1, block_limit(sb), start)]
            is_first_clear_run(bbm, 1, block_limit(sb), start) ==> apart(ibo, bs, start * bs, bs)
                && apart(bbo, bs, start * bs, bs)
    }

    /// Besides what [`Filesystem::mkdir_regions_apart`] asks: the parent
    /// is a directory of one block, and that block lies apart from the
    /// bitmaps, the parent's slot, the superblock and the group descriptor
    /// table.
    pub open spec fn mkdir_entry_apart(&self, n: u32, p: u32, pino: Inode) -> bool {
        let sb = self.spec_superblock();
        let bs = sb.block_size as int;
        let go = gdt_offset(sb);
        let glen = self.spec_gdt().len() * sb.spec_group_descriptor_size();
        &&& self.mkdir_regions_apart(n, p, pino)
        &&& pino.size == sb.block_size
        &&& self.spec_resolve(pino, 0) matches Ok(Some(pb)) && {
            let pbo = pb * bs;
            &&& apart(pbo, bs, self.inode_bitmap_offset(), bs)
            &&& apart(pbo, bs, self.block_bitmap_offset(), bs)
            &&& apart(pbo, bs, self.inode_slot(p), sb.inode_size as int)
            &&& apart(pbo, bs, SUPERBLOCK_OFFSET as int, SUPERBLOCK_SIZE as int)
            &&& apart(pbo, bs, go, glen)
        }
    }

    /// The part of `mkdir` after its checks: the new directory goes into
    /// the directory `parent_inode_num` (inode `parent_inode`) as
    /// `dirname`.
    #[verifier::rlimit(100)]
    #[verifier::spinoff_prover]
    fn mkdir_checked(&mut self, parent_inode_num: u32, parent_inode: Inode, dirname: &[u8]) -> (r: Result<u32, Ext4Error>)
        requires
            old(self).spec_read_inode(parent_inode_num) == Ok::<Inode, Ext4Error>(parent_inode),
            old(self).name_free(parent_inode, dirname@),
            dirname@.len() + 11 <= usize::MAX,
        ensures
            old(self).same_layout(&*final(self)),
            r matches Ok(n) ==> old(self).dir_created(&*final(self), n, parent_inode_num, parent_inode, dirname@),
            old(self).dir_outcome(r, parent_inode_num, parent_inode, dirname@),
            old(self).mkdir_run(*final(self), parent_inode_num, parent_inode, dirname@, r),
    {
        proof {
            use_type_invariant(&*self);
        }
        let ghost s0 = *self;
        let ghost pino = parent_inode;
        let bs = self.superblock.block_size as u64;
        let r1 = self.allocate_inode();
        let ghost s1 = *self;
        let new_inode_num = match r1 {
            Ok(n) => n,
            Err(e) => {
                proof {
                    lemma_dir_outcome_no_inode(s0, parent_inode_num, pino, dirname@, e);
                    assert(s0.mkdir_run(*self, parent_inode_num, pino, dirname@, Err(e))) by { reveal(Filesystem::mkdir_run); reveal(mkdir_after_inode); reveal(mkdir_after_block); reveal(mkdir_after_inode_written); reveal(mkdir_after_block_written); reveal(mkdir_after_entry); reveal(mkdir_after_relink); reveal(last_steps); assert(inode_alloc_step(s0, r1, s1)); }
                }
                return Err(e);
            },
        };
        let r2 = self.allocate_blocks_contiguous(1);
        let ghost s2 = *self;
        proof {
            assert(blocks_alloc_step(s1, 1, r2, s2));
        }
        let dir_block = match r2 {
            Ok(b) => b,
            Err(e) => {
                proof {
                    lemma_dir_outcome_no_block(s0, s1, parent_inode_num, pino, dirname@, new_inode_num, e);
                    assert(s0.mkdir_run(*self, parent_inode_num, pino, dirname@, Err(e))) by { reveal(Filesystem::mkdir_run); reveal(mkdir_after_inode); reveal(mkdir_after_block); reveal(mkdir_after_inode_written); reveal(mkdir_after_block_written); reveal(mkdir_after_entry); reveal(mkdir_after_relink); reveal(last_steps); assert(inode_alloc_step(s0, r1, s1)); }
                }
                return Err(e);
            },
        };
        assert(allocated(s0, s1, s2, new_inode_num, 1, dir_block));
        proof {
            let x = (new_inode_num - 1) as int;
            let q = s0.spec_superblock().inodes_per_group as int;
            assert(x / q == 0) by (nonlinear_arith)
                requires
                    0 <= x < q,
            ;
        }
        let new_dir = match new_inode(NEW_DIR_MODE, 2, bs, 1, dir_block, bs) {
            Ok(i) => i,
            Err(e) => {
                assert(extent_root_error(1, dir_block) is None);
                return Err(e);
            },
        };
        let r3 = self.write_inode(new_inode_num, &new_dir);
        let ghost s3 = *self;
        proof {
            assert(write_inode_step(s2, new_inode_num, new_dir, r3, s3));
        }
        match r3 {
            Ok(()) => {},
            Err(e) => {
                proof {
                    lemma_dir_outcome_unwritable(
                        s0, s1, s2, parent_inode_num, pino, dirname@, new_inode_num, dir_block, e,
                    );
                    assert(s0.mkdir_run(*self, parent_inode_num, pino, dirname@, Err(e))) by { reveal(Filesystem::mkdir_run); reveal(mkdir_after_inode); reveal(mkdir_after_block); reveal(mkdir_after_inode_written); reveal(mkdir_after_block_written); reveal(mkdir_after_entry); reveal(mkdir_after_relink); reveal(last_steps); assert(inode_alloc_step(s0, r1, s1)); }
                }
                return Err(e);
            },
        }
        let data = match new_dir_block(new_inode_num, parent_inode_num, bs) {
            Ok(d) => d,
            Err(e) => return Err(e),
        };
        assert(dir_block as u128 * bs as u128 <= 0xffff_ffff_ffff_ffff * 65536) by (nonlinear_arith)
            requires
                dir_block <= 0xffff_ffff_ffff_ffffu64,
                bs <= 65536,
        ;
        let r4 = self.write_at(dir_block as u128 * bs as u128, data.as_slice());
        let ghost s4 = *self;
        proof {
            assert(write_at_step(s3, (dir_block * bs) as u128, data@, r4, s4));
        }
        match r4 {
            Ok(()) => {},
            Err(e) => {
                proof {
                    lemma_dir_outcome_unwritable(
                        s0, s1, s2, parent_inode_num, pino, dirname@, new_inode_num, dir_block, e,
                    );
                    assert(s0.mkdir_run(*self, parent_inode_num, pino, dirname@, Err(e))) by { reveal(Filesystem::mkdir_run); reveal(mkdir_after_inode); reveal(mkdir_after_block); reveal(mkdir_after_inode_written); reveal(mkdir_after_block_written); reveal(mkdir_after_entry); reveal(mkdir_after_relink); reveal(last_steps); assert(inode_alloc_step(s0, r1, s1)); }
                }
                return Err(e);
            },
        }
        let added = self.add_dir_entry(&parent_inode, dirname, new_inode_num, FT_DIR);
        let ghost s5 = *self;
        proof {
            lemma_dir_entry_kept(s0, s1, s2, s3, s4, parent_inode_num, pino, dirname@, new_inode_num, dir_block);
            assert(entry_add_step(s4, pino, dirname@, new_inode_num, FT_DIR, added, s5));
        }
        match added {
            Ok(()) => {},
            Err(e) => {
                proof {
                    lemma_dir_outcome_add_failed(s0, s4, parent_inode_num, pino, dirname@, new_inode_num, e);
                    assert(s0.mkdir_run(*self, parent_inode_num, pino, dirname@, Err(e))) by { reveal(Filesystem::mkdir_run); reveal(mkdir_after_inode); reveal(mkdir_after_block); reveal(mkdir_after_inode_written); reveal(mkdir_after_block_written); reveal(mkdir_after_entry); reveal(mkdir_after_relink); reveal(last_steps); assert(inode_alloc_step(s0, r1, s1)); }
                }
                return Err(e);
            },
        }
        // the new directory's ".." is one more link to the parent
        let parent_relinked = Inode { links_count: parent_inode.links_count.wrapping_add(1), ..parent_inode };
        let linked = self.write_inode(parent_inode_num, &parent_relinked);
        let ghost s6 = *self;
        proof {
            lemma_dir_outcome_linked(s0, s4, parent_inode_num, pino, dirname@, new_inode_num, linked);
            assert(parent_relinked == Inode { links_count: ((pino.links_count + 1) % 0x1_0000) as u16, ..pino });
            assert(write_inode_step(s5, parent_inode_num, parent_relinked, linked, s6));
        }
        match linked {
            Ok(()) => {},
            Err(e) => {
                proof {
                    assert(s0.mkdir_run(*self, parent_inode_num, pino, dirname@, Err(e))) by { reveal(Filesystem::mkdir_run); reveal(mkdir_after_inode); reveal(mkdir_after_block); reveal(mkdir_after_inode_written); reveal(mkdir_after_block_written); reveal(mkdir_after_entry); reveal(mkdir_after_relink); reveal(last_steps); assert(inode_alloc_step(s0, r1, s1)); }
                }
                return Err(e);
            },
        }
        self.count_new_dir();
        let ghost s7 = *self;
        let rf = self.flush_metadata();
        proof {
            assert(dir_count_step(s6, s7));
            assert(flush_step(s7, rf, *self));
        }
        match rf {
            Ok(()) => {},
            Err(e) => return Err(e),
        }
        proof {
            assert(s0.mkdir_run(*self, parent_inode_num, pino, dirname@, Ok(new_inode_num))) by { reveal(Filesystem::mkdir_run); reveal(mkdir_after_inode); reveal(mkdir_after_block); reveal(mkdir_after_inode_written); reveal(mkdir_after_block_written); reveal(mkdir_after_entry); reveal(mkdir_after_relink); reveal(last_steps); assert(inode_alloc_step(s0, r1, s1)); }
        }
        proof {
            use_type_invariant(&*self);
            lemma_mkdir_reads_back(
                s0, s1, s2, s3, s4, s5, s6, s7, *self, new_inode_num, parent_inode_num, pino,
                dir_block as int, new_dir, data@, parent_relinked, dirname@,
            );
            lemma_mkdir_bits_kept(
                s0, s1, s2, s3, s4, s5, s6, s7, *self, new_inode_num, parent_inode_num, pino, dir_block,
            );
            lemma_mkdir_frame(
                s0, s1, s2, s3, s4, s5, s6, s7, *self, new_inode_num, parent_inode_num, pino, dir_block,
            );
            if s0.mkdir_pinned(new_inode_num, parent_inode_num, pino) {
                s0.lemma_run_is_next(s1, 1, dir_block);
                assert(self.holds_metadata());
                assert(self.spec_gdt() =~= s0.spec_gdt().update(0, self.spec_gdt()[0]));
            }
        }
        Ok(new_inode_num)
    }
}

/// The read-back part of `mkdir`'s promise, from what each of its steps
/// did to the states `o` (before) through `s7` and `f` (after).
#[verifier::rlimit(100)]
#[verifier::spinoff_prover]
proof fn lemma_mkdir_reads_back(
    o: Filesystem,
    s1: Filesystem,
    s2: Filesystem,
    s3: Filesystem,
    s4: Filesystem,
    s5: Filesystem,
    s6: Filesystem,
    s7: Filesystem,
    f: Filesystem,
    n: u32,
    p: u32,
    pino: Inode,
    start: int,
    new_dir: Inode,
    data: Seq<u8>,
    parent_relinked: Inode,
    name: Seq<u8>,
)
    requires
        o.well_formed(),
        f.well_formed(),
        o.spec_read_inode(p) == Ok::<Inode, Ext4Error>(pino),
        o.name_free(pino, name),
        written_at(s1.image(), s2.image(), o.block_bitmap_offset(), o.spec_superblock().block_size as int),
        s4.spec_superblock().block_size == o.spec_superblock().block_size,
        o.same_layout(&s1),
        o.same_layout(&s2),
        o.same_layout(&s5),
        o.same_layout(&s7),
        o.same_layout(&f),
        1 <= n <= o.spec_superblock().inodes_count,
        n - 1 < o.spec_superblock().inodes_per_group,
        o.spec_superblock().inode_size >= 128,
        written_at(o.image(), s1.image(), o.inode_bitmap_offset(), o.spec_superblock().block_size as int),
        s1.block_bitmap_offset() == o.block_bitmap_offset(),
        read_range(s1.image(), o.block_bitmap_offset(), o.spec_superblock().block_size as int) matches Ok(bm1)
            && is_first_clear_run(bm1, 1, block_limit(o.spec_superblock()), start),
        0 <= start <= 0xFFFF_FFFF_FFFF,
        written_at(s2.image(), s3.image(), o.inode_slot(n), o.spec_superblock().inode_size as int),
        new_dir.encoded_in(
            s3.image().subrange(o.inode_slot(n), o.inode_slot(n) + o.spec_superblock().inode_size),
            o.spec_superblock().inode_size as int,
        ),
        is_new_inode(new_dir, NEW_DIR_MODE, 2, o.spec_superblock().block_size as int, 1, start, o.spec_superblock().block_size as int),
        written_at(s3.image(), s4.image(), start * o.spec_superblock().block_size, o.spec_superblock().block_size as int),
        s4.image().subrange(start * o.spec_superblock().block_size, start * o.spec_superblock().block_size + o.spec_superblock().block_size) == data,
        data == encoded_dir_entry(dot_entry(n)) + encoded_dir_entry(dotdot_entry(p, o.spec_superblock().block_size as int)),
        s4.spec_resolve(pino, 0) matches Ok(Some(pb)) && written_at(
            s4.image(),
            s5.image(),
            pb * o.spec_superblock().block_size,
            o.spec_superblock().block_size as int,
        ),
        ({
            let bs = o.spec_superblock().block_size as int;
            s4.spec_resolve(pino, 0) matches Ok(Some(pb)) && (read_range(s4.image(), pb * bs, bs) matches Ok(
                blk,
            ) ==> (dir_block_with_entry(blk, name, n, FT_DIR) matches Ok(nbk) && s5.image().subrange(
                pb * bs,
                pb * bs + bs,
            ) == nbk))
        }),
        written_at(s5.image(), s6.image(), o.inode_slot(p), o.spec_superblock().inode_size as int),
        parent_relinked.encoded_in(
            s6.image().subrange(o.inode_slot(p), o.inode_slot(p) + o.spec_superblock().inode_size),
            o.spec_superblock().inode_size as int,
        ),
        parent_relinked == (Inode { links_count: ((pino.links_count + 1) % 0x1_0000) as u16, ..pino }),
        s7.image() == s6.image(),
        s7.metadata_written(f.image()),
    ensures
        o.mkdir_regions_apart(n, p, pino) ==> {
            &&& f.spec_read_inode(n) is Ok
            &&& (f.spec_read_inode(n)->Ok_0).spec_file_type() == InodeFileType::Directory
            &&& (f.spec_read_inode(n)->Ok_0).links_count == 2
            &&& f.spec_read_dir(f.spec_read_inode(n)->Ok_0) == Ok::<Seq<SpecDirEntry>, Ext4Error>(
                seq![dot_entry(n), dotdot_entry(p, o.spec_superblock().block_size as int)],
            )
            &&& f.spec_read_inode(p) == Ok::<Inode, Ext4Error>(parent_relinked)
        },
        o.mkdir_entry_apart(n, p, pino) ==> f.spec_lookup(parent_relinked, name)
            == LookupOutcome::Found(n),
        o.mkdir_entry_apart(n, p, pino) ==> ({
            let bs = o.spec_superblock().block_size as int;
            let pbo = o.spec_resolve(pino, 0)->Ok_0->Some_0 * bs;
            &&& 0 <= pbo
            &&& pbo + bs <= o.image().len()
            &&& f.image().subrange(pbo, pbo + bs) == dir_block_with_entry(
                read_range(o.image(), pbo, bs)->Ok_0,
                name,
                n,
                FT_DIR,
            )->Ok_0
        }),
        o.mkdir_regions_apart(n, p, pino) ==> {
            let bs = o.spec_superblock().block_size as int;
            let isz = o.spec_superblock().inode_size as int;
            &&& f.spec_read_inode(n) == Ok::<Inode, Ext4Error>(new_dir)
            &&& o.inode_slot(n) + isz <= f.image().len()
            &&& new_dir.encoded_in(f.image().subrange(o.inode_slot(n), o.inode_slot(n) + isz), isz)
            &&& start * bs + bs <= f.image().len()
            &&& f.image().subrange(start * bs, start * bs + bs) == data
            &&& o.inode_slot(p) + isz <= f.image().len()
            &&& parent_relinked.encoded_in(f.image().subrange(o.inode_slot(p), o.inode_slot(p) + isz), isz)
        },
{
    if o.mkdir_entry_apart(n, p, pino) {
        lemma_mkdir_entry_found(o, s1, s2, s3, s4, s5, s6, s7, f, n, p, pino, start, name, parent_relinked);
    }
    if o.mkdir_regions_apart(n, p, pino) {
        let sb = o.spec_superblock();
        let bsi = sb.block_size as int;
        let isz = sb.inode_size as int;
        let sn = o.inode_slot(n);
        let sp = o.inode_slot(p);
        let pb = o.spec_resolve(pino, 0)->Ok_0->Some_0;
        assert(s4.spec_resolve(pino, 0) == o.spec_resolve(pino, 0));
        let q = sb.inodes_per_group as int;
        assert((n - 1) / q == 0) by (nonlinear_arith)
            requires
                0 <= n - 1 < q,
        ;
        assert(s2.inode_slot(n) == sn);
        assert(f.inode_slot(n) == sn);
        assert(f.inode_slot(p) == sp);
        let bbm_old = read_range(o.image(), o.block_bitmap_offset(), bsi)->Ok_0;
        lemma_written_at_keeps(o.image(), s1.image(), o.inode_bitmap_offset(), bsi, o.block_bitmap_offset(), bsi);
        assert(is_first_clear_run(bbm_old, 1, block_limit(sb), start));
        assert(start * bsi >= 0) by (nonlinear_arith)
            requires
                start >= 0,
                bsi > 0,
        ;
        assert(pb * bsi >= 0) by (nonlinear_arith)
            requires
                pb >= 0,
                bsi > 0,
        ;
        lemma_mkdir_regions(
            s2.image(), s3.image(), s4.image(), s5.image(), s6.image(), s7, f.image(),
            sn, isz, start * bsi, pb * bsi, sp, bsi, new_dir, data, parent_relinked,
        );
        lemma_new_dir_reads_back(f, n, p, start, new_dir, data, parent_relinked);
    }
}

impl Filesystem {
    /// What `mkdir` returns, past its checks, for a new entry `name` in the
    /// directory `p` (inode `pino`): the inode bitmap's read error, or
    /// `NoSpace` when it has no free inode; and, when the regions it
    /// writes lie apart, `NoSpace` when there is no free block, failure
    /// when the new inode or its block cannot be written, else what
    /// appending the entry gives, then the error of writing the parent's
    /// inode back when its slot lies past what memory can address, with
    /// the new inode's number on success.
    #[verifier::opaque]
    pub open spec fn dir_outcome(&self, r: Result<u32, Ext4Error>, p: u32, pino: Inode, name: Seq<u8>) -> bool {
        let sb = self.spec_superblock();
        let bs = sb.block_size as int;
        let n = self.next_free_inode();
        let sp = self.inode_slot(p);
        &&& read_range(self.image(), self.inode_bitmap_offset(), bs) matches Err(e) ==> r == Err::<
            u32,
            Ext4Error,
        >(e)
        &&& (read_range(self.image(), self.inode_bitmap_offset(), bs) matches Ok(bm) && !has_clear_bit(
            bm,
            sb.inodes_per_group as int,
        )) ==> r == Err::<u32, Ext4Error>(Ext4Error::NoSpace { what: "inodes" })
        &&& self.mkdir_entry_apart(n, p, pino) ==> {
            &&& read_range(self.image(), self.inode_bitmap_offset(), bs) matches Ok(bm) ==> (
            has_clear_bit(bm, sb.inodes_per_group as int) ==> (read_range(
                self.image(),
                self.block_bitmap_offset(),
                bs,
            ) matches Ok(bbm) ==> (!has_clear_run(bbm, 1, block_limit(sb)) ==> r == Err::<
                u32,
                Ext4Error,
            >(Ext4Error::NoSpace { what: "blocks" }))))
            &&& self.room_for_inode(1) ==> r == match self.entry_outcome(pino, name, n, FT_DIR) {
                Err(e) => Err(e),
                Ok(_) => if sp + sb.inode_size <= usize::MAX {
                    Ok::<u32, Ext4Error>(n)
                } else {
                    Err(Ext4Error::Io { offset: sat_u64(sp), len: sb.inode_size as u64 })
                },
            }
            &&& !self.room_for_inode(1) ==> r is Err
        }
    }
}

/// `mkdir`'s outcome when no inode can be taken.
proof fn lemma_dir_outcome_no_inode(o: Filesystem, p: u32, pino: Inode, name: Seq<u8>, e: Ext4Error)
    requires
        ({
            let bs = o.spec_superblock().block_size as int;
            &&& read_range(o.image(), o.inode_bitmap_offset(), bs) matches Err(x) ==> e == x
            &&& read_range(o.image(), o.inode_bitmap_offset(), bs) matches Ok(bm) ==> !has_clear_bit(
                bm,
                o.spec_superblock().inodes_per_group as int,
            ) && e == Ext4Error::NoSpace { what: "inodes" }
        }),
    ensures
        o.dir_outcome(Err(e), p, pino, name),
{
    reveal(Filesystem::dir_outcome);
}

/// `mkdir`'s outcome when no block can be taken, inode `n` having been.
proof fn lemma_dir_outcome_no_block(
    o: Filesystem,
    s1: Filesystem,
    p: u32,
    pino: Inode,
    name: Seq<u8>,
    n: u32,
    e: Ext4Error,
)
    requires
        ({
            let sb = o.spec_superblock();
            let bs = sb.block_size as int;
            &&& read_range(o.image(), o.inode_bitmap_offset(), bs) matches Ok(bm) && is_first_clear_bit(
                bm,
                sb.inodes_per_group as int,
                n - 1,
            )
            &&& written_at(o.image(), s1.image(), o.inode_bitmap_offset(), bs)
            &&& read_range(s1.image(), o.block_bitmap_offset(), bs) matches Err(x) ==> e == x
            &&& read_range(s1.image(), o.block_bitmap_offset(), bs) matches Ok(bm1) ==> !has_clear_run(
                bm1,
                1,
                block_limit(sb),
            ) && e == Ext4Error::NoSpace { what: "blocks" }
        }),
    ensures
        o.dir_outcome(Err(e), p, pino, name),
{
    reveal(Filesystem::dir_outcome);
    o.lemma_next_free_inode(n);
    let bs = o.spec_superblock().block_size as int;
    if o.mkdir_entry_apart(n, p, pino) {
        lemma_written_at_keeps(o.image(), s1.image(), o.inode_bitmap_offset(), bs, o.block_bitmap_offset(), bs);
    }
}

/// `mkdir`'s outcome when inode `n` and block `start` were taken but the
/// new inode or its block cannot be written.
proof fn lemma_dir_outcome_unwritable(
    o: Filesystem,
    s1: Filesystem,
    s2: Filesystem,
    p: u32,
    pino: Inode,
    name: Seq<u8>,
    n: u32,
    start: u64,
    e: Ext4Error,
)
    requires
        allocated(o, s1, s2, n, 1, start),
        ({
            let sb = o.spec_superblock();
            let bs = sb.block_size as int;
            ||| !(n <= sb.inodes_count && sb.inode_size >= 128 && o.inode_slot(n) + sb.inode_size <= usize::MAX)
            ||| start * bs + bs > usize::MAX
        }),
    ensures
        o.dir_outcome(Err(e), p, pino, name),
{
    reveal(Filesystem::dir_outcome);
    o.lemma_next_free_inode(n);
    if o.mkdir_entry_apart(n, p, pino) {
        o.lemma_run_is_next(s1, 1, start);
    }
}

/// Once `mkdir` has taken inode `n` and block `start` and written both
/// (`s2` to `s4`), under the regions it writes lying apart there was room
/// for them, and appending the entry ends on `s4` as it would have on
/// `o`.
#[verifier::rlimit(60)]
#[verifier::spinoff_prover]
proof fn lemma_dir_entry_kept(
    o: Filesystem,
    s1: Filesystem,
    s2: Filesystem,
    s3: Filesystem,
    s4: Filesystem,
    p: u32,
    pino: Inode,
    name: Seq<u8>,
    n: u32,
    start: u64,
)
    requires
        allocated(o, s1, s2, n, 1, start),
        o.name_free(pino, name),
        0 < o.spec_superblock().block_size <= 65536,
        ({
            let sb = o.spec_superblock();
            let bs = sb.block_size as int;
            let isz = sb.inode_size as int;
            &&& n <= sb.inodes_count
            &&& isz >= 128
            &&& o.inode_slot(n) + isz <= usize::MAX
            &&& written_at(s2.image(), s3.image(), o.inode_slot(n), isz)
            &&& written_at(s3.image(), s4.image(), start * bs, bs)
            &&& start * bs + bs <= usize::MAX
        }),
        s4.spec_superblock() == s2.spec_superblock(),
    ensures
        o.next_free_inode() == n,
        read_range(o.image(), o.inode_bitmap_offset(), o.spec_superblock().block_size as int) matches Ok(bm)
            && has_clear_bit(bm, o.spec_superblock().inodes_per_group as int),
        o.mkdir_entry_apart(n, p, pino) ==> (read_range(o.image(), o.block_bitmap_offset(), o.spec_superblock().block_size as int) matches Ok(bbm)
            && has_clear_run(bbm, 1, block_limit(o.spec_superblock()))),
        o.mkdir_entry_apart(n, p, pino) ==> o.room_for_inode(1) && s4.entry_outcome(pino, name, n, FT_DIR)
            == o.entry_outcome(pino, name, n, FT_DIR),
{
    reveal(Filesystem::name_free);
    o.lemma_next_free_inode(n);
    let sb = o.spec_superblock();
    let bs = sb.block_size as int;
    let isz = sb.inode_size as int;
    if o.mkdir_entry_apart(n, p, pino) {
        o.lemma_run_is_next(s1, 1, start);
        assert(o.room_for_inode(1));
        let pb = o.spec_resolve(pino, 0)->Ok_0->Some_0;
        let pbo = pb * bs;
        assert(pb * bs >= 0) by (nonlinear_arith)
            requires
                pb >= 0,
                bs > 0,
        ;
        o.lemma_one_block_dir(pino);
        assert(read_range(o.image(), pbo, bs) is Ok);
        assert(start * bs >= 0) by (nonlinear_arith)
            requires
                start >= 0,
                bs > 0,
        ;
        lemma_written_at_keeps(o.image(), s1.image(), o.inode_bitmap_offset(), bs, pbo, bs);
        lemma_written_at_keeps(s1.image(), s2.image(), o.block_bitmap_offset(), bs, pbo, bs);
        lemma_written_at_keeps(s2.image(), s3.image(), o.inode_slot(n), isz, pbo, bs);
        let bbm = read_range(o.image(), o.block_bitmap_offset(), bs)->Ok_0;
        assert(is_first_clear_run(bbm, 1, block_limit(sb), start as int));
        lemma_written_at_keeps(s3.image(), s4.image(), start * bs, bs, pbo, bs);
        assert(s4.spec_resolve(pino, 0) == o.spec_resolve(pino, 0));
    }
}

/// `mkdir`'s outcome when appending its entry failed with `e`.
proof fn lemma_dir_outcome_add_failed(
    o: Filesystem,
    s4: Filesystem,
    p: u32,
    pino: Inode,
    name: Seq<u8>,
    n: u32,
    e: Ext4Error,
)
    requires
        o.next_free_inode() == n,
        o.mkdir_entry_apart(n, p, pino) ==> o.room_for_inode(1) && s4.entry_outcome(pino, name, n, FT_DIR)
            == o.entry_outcome(pino, name, n, FT_DIR),
        s4.entry_outcome(pino, name, n, FT_DIR) == Err::<(), Ext4Error>(e),
        read_range(o.image(), o.inode_bitmap_offset(), o.spec_superblock().block_size as int) matches Ok(bm)
            && has_clear_bit(bm, o.spec_superblock().inodes_per_group as int),
        o.mkdir_entry_apart(n, p, pino) ==> (read_range(o.image(), o.block_bitmap_offset(), o.spec_superblock().block_size as int) matches Ok(bbm)
            && has_clear_run(bbm, 1, block_limit(o.spec_superblock()))),
    ensures
        o.dir_outcome(Err(e), p, pino, name),
{
    reveal(Filesystem::dir_outcome);
}

/// `mkdir`'s outcome once its entry was appended and writing the parent's
/// inode back ended with `pw`.
proof fn lemma_dir_outcome_linked(
    o: Filesystem,
    s4: Filesystem,
    p: u32,
    pino: Inode,
    name: Seq<u8>,
    n: u32,
    pw: Result<(), Ext4Error>,
)
    requires
        o.next_free_inode() == n,
        o.mkdir_entry_apart(n, p, pino) ==> o.room_for_inode(1) && s4.entry_outcome(pino, name, n, FT_DIR)
            == o.entry_outcome(pino, name, n, FT_DIR),
        s4.entry_outcome(pino, name, n, FT_DIR) is Ok,
        read_range(o.image(), o.inode_bitmap_offset(), o.spec_superblock().block_size as int) matches Ok(bm)
            && has_clear_bit(bm, o.spec_superblock().inodes_per_group as int),
        o.mkdir_entry_apart(n, p, pino) ==> (read_range(o.image(), o.block_bitmap_offset(), o.spec_superblock().block_size as int) matches Ok(bbm)
            && has_clear_run(bbm, 1, block_limit(o.spec_superblock()))),
        ({
            let sp = o.inode_slot(p);
            let isz = o.spec_superblock().inode_size;
            &&& pw is Ok ==> sp + isz <= usize::MAX
            &&& pw matches Err(x) ==> sp + isz > usize::MAX && x == Ext4Error::Io {
                offset: sat_u64(sp),
                len: isz as u64,
            }
        }),
    ensures
        o.dir_outcome(
            match pw {
                Ok(_) => Ok::<u32, Ext4Error>(n),
                Err(x) => Err(x),
            },
            p,
            pino,
            name,
        ),
{
    reveal(Filesystem::dir_outcome);
}

/// The bits `mkdir` sets for its new inode `n` and block `start` stay set
/// through the writes after them, when they lie apart from the bitmaps.
#[verifier::rlimit(60)]
#[verifier::spinoff_prover]
proof fn lemma_mkdir_bits_kept(
    o: Filesystem,
    s1: Filesystem,
    s2: Filesystem,
    s3: Filesystem,
    s4: Filesystem,
    s5: Filesystem,
    s6: Filesystem,
    s7: Filesystem,
    f: Filesystem,
    n: u32,
    p: u32,
    pino: Inode,
    start: u64,
)
    requires
        allocated(o, s1, s2, n, 1, start),
        0 < o.spec_superblock().block_size <= 65536,
        ({
            let sb = o.spec_superblock();
            let bs = sb.block_size as int;
            let isz = sb.inode_size as int;
            let ibo = o.inode_bitmap_offset();
            let bbo = o.block_bitmap_offset();
            &&& s1.image().subrange(ibo, ibo + bs) == with_bit_set(read_range(o.image(), ibo, bs)->Ok_0, n - 1)
            &&& run_set(read_range(s1.image(), bbo, bs)->Ok_0, s2.image().subrange(bbo, bbo + bs), start as int, 1)
            &&& written_at(s2.image(), s3.image(), o.inode_slot(n), isz)
            &&& written_at(s3.image(), s4.image(), start * bs, bs)
            &&& s4.spec_resolve(pino, 0) matches Ok(Some(pb)) && written_at(s4.image(), s5.image(), pb * bs, bs)
            &&& written_at(s5.image(), s6.image(), o.inode_slot(p), isz)
        }),
        s4.spec_superblock().block_size == o.spec_superblock().block_size,
        s7.image() == s6.image(),
        o.same_layout(&s7),
        s7.metadata_written(f.image()),
    ensures
        o.mkdir_bitmaps_apart(n, p, pino) ==> {
            let bs = o.spec_superblock().block_size as int;
            &&& read_range(f.image(), o.inode_bitmap_offset(), bs) matches Ok(bm) && bit_set(bm, n - 1)
            &&& read_range(f.image(), o.block_bitmap_offset(), bs) matches Ok(bbm) && bit_set(
                bbm,
                o.next_free_run(1),
            )
            &&& read_range(f.image(), o.inode_bitmap_offset(), bs) == Ok::<Seq<u8>, Ext4Error>(
                with_bit_set(read_range(o.image(), o.inode_bitmap_offset(), bs)->Ok_0, n - 1),
            )
            &&& read_range(f.image(), o.block_bitmap_offset(), bs) matches Ok(x) && run_set(
                read_range(o.image(), o.block_bitmap_offset(), bs)->Ok_0,
                x,
                o.next_free_run(1),
                1,
            )
        },
{
    if o.mkdir_bitmaps_apart(n, p, pino) {
        let sb = o.spec_superblock();
        let bs = sb.block_size as int;
        let isz = sb.inode_size as int;
        let ibo = o.inode_bitmap_offset();
        let bbo = o.block_bitmap_offset();
        let bm = read_range(o.image(), ibo, bs)->Ok_0;
        lemma_bit_set_clear_get(bm, n - 1, n as int);
        o.lemma_run_is_next(s1, 1, start);
        let iset = s1.image().subrange(ibo, ibo + bs);
        let bset = s2.image().subrange(bbo, bbo + bs);
        assert(start / 8 < bs);
        assert(bit_set(bset, start as int));
        assert(s1.image().len() >= ibo + bs);
        lemma_written_at_keeps(s1.image(), s2.image(), bbo, bs, ibo, bs);
        let bbm = read_range(o.image(), bbo, bs)->Ok_0;
        assert(is_first_clear_run(bbm, 1, block_limit(sb), start as int));
        assert(start * bs >= 0) by (nonlinear_arith)
            requires
                start >= 0,
                bs > 0,
        ;
        let pb = o.spec_resolve(pino, 0)->Ok_0->Some_0;
        assert(pb * bs >= 0) by (nonlinear_arith)
            requires
                pb >= 0,
                bs > 0,
        ;
        assert(s4.spec_resolve(pino, 0) == o.spec_resolve(pino, 0));
        lemma_written_at_keeps(s2.image(), s3.image(), o.inode_slot(n), isz, ibo, bs);
        lemma_written_at_keeps(s2.image(), s3.image(), o.inode_slot(n), isz, bbo, bs);
        lemma_written_at_keeps(s3.image(), s4.image(), start * bs, bs, ibo, bs);
        lemma_written_at_keeps(s3.image(), s4.image(), start * bs, bs, bbo, bs);
        lemma_written_at_keeps(s4.image(), s5.image(), pb * bs, bs, ibo, bs);
        lemma_written_at_keeps(s4.image(), s5.image(), pb * bs, bs, bbo, bs);
        lemma_written_at_keeps(s5.image(), s6.image(), o.inode_slot(p), isz, ibo, bs);
        lemma_written_at_keeps(s5.image(), s6.image(), o.inode_slot(p), isz, bbo, bs);
        lemma_flush_keeps(s7, f.image(), ibo, bs);
        lemma_flush_keeps(s7, f.image(), bbo, bs);
        assert(read_range(f.image(), ibo, bs) == Ok::<Seq<u8>, Ext4Error>(iset));
        assert(read_range(f.image(), bbo, bs) == Ok::<Seq<u8>, Ext4Error>(bset));
    }
}

/// What `mkdir` leaves in each region it writes, when they lie apart and
/// inside the image: the facts its determinism rests on.
pub open spec fn created_dir_regions(o: Filesystem, f: Filesystem, n: u32, p: u32, pino: Inode, name: Seq<u8>) -> bool {
    let sb = o.spec_superblock();
    let bs = sb.block_size as int;
    let isz = sb.inode_size as int;
    let ibo = o.inode_bitmap_offset();
    let bbo = o.block_bitmap_offset();
    let sn = o.inode_slot(n);
    let sp = o.inode_slot(p);
    let st = o.next_free_run(1);
    let pbo = o.spec_resolve(pino, 0)->Ok_0->Some_0 * bs;
    &&& f.image().len() == o.image().len()
    &&& 0 <= pbo && pbo + bs <= o.image().len()
    &&& 0 <= st
    &&& f.spec_gdt() == o.spec_gdt().update(0, f.spec_gdt()[0])
    &&& read_range(f.image(), ibo, bs) == Ok::<Seq<u8>, Ext4Error>(
        with_bit_set(read_range(o.image(), ibo, bs)->Ok_0, n - 1),
    )
    &&& read_range(f.image(), bbo, bs) matches Ok(x) && run_set(read_range(o.image(), bbo, bs)->Ok_0, x, st, 1)
    &&& is_new_inode(f.spec_read_inode(n)->Ok_0, NEW_DIR_MODE, 2, bs, 1, st, bs)
    &&& (f.spec_read_inode(n)->Ok_0).encoded_in(f.image().subrange(sn, sn + isz), isz)
    &&& f.image().subrange(st * bs, st * bs + bs) == encoded_dir_entry(dot_entry(n)) + encoded_dir_entry(
        dotdot_entry(p, bs),
    )
    &&& f.image().subrange(pbo, pbo + bs) == dir_block_with_entry(
        read_range(o.image(), pbo, bs)->Ok_0,
        name,
        n,
        FT_DIR,
    )->Ok_0
    &&& (Inode { links_count: ((pino.links_count + 1) % 0x1_0000) as u16, ..pino }).encoded_in(
        f.image().subrange(sp, sp + isz),
        isz,
    )
    &&& f.holds_metadata()
    &&& forall|i: int|
        0 <= i < o.image().len() && !o.mkdir_writes(n, p, pino, i) ==> #[trigger] f.image()[i]
            == o.image()[i]
}

/// Every byte `mkdir` writes lies in a region that
/// [`Filesystem::mkdir_writes`] names, and when those regions lie inside
/// the image it keeps its length.
#[verifier::rlimit(60)]
#[verifier::spinoff_prover]
proof fn lemma_mkdir_frame(
    o: Filesystem,
    s1: Filesystem,
    s2: Filesystem,
    s3: Filesystem,
    s4: Filesystem,
    s5: Filesystem,
    s6: Filesystem,
    s7: Filesystem,
    f: Filesystem,
    n: u32,
    p: u32,
    pino: Inode,
    start: u64,
)
    requires
        allocated(o, s1, s2, n, 1, start),
        0 < o.spec_superblock().block_size <= 65536,
        ({
            let sb = o.spec_superblock();
            let bs = sb.block_size as int;
            let isz = sb.inode_size as int;
            &&& written_at(s2.image(), s3.image(), o.inode_slot(n), isz)
            &&& written_at(s3.image(), s4.image(), start * bs, bs)
            &&& s4.spec_resolve(pino, 0) matches Ok(Some(pb)) && written_at(s4.image(), s5.image(), pb * bs, bs)
            &&& written_at(s5.image(), s6.image(), o.inode_slot(p), isz)
        }),
        s7.image() == s6.image(),
        o.same_layout(&s7),
        s7.metadata_written(f.image()),
    ensures
        o.mkdir_regions_apart(n, p, pino) ==> forall|i: int|
            0 <= i < o.image().len() && !o.mkdir_writes(n, p, pino, i) ==> #[trigger] f.image()[i]
                == o.image()[i],
        o.mkdir_pinned(n, p, pino) ==> o.spec_resolve(pino, 0)->Ok_0->Some_0 * o.spec_superblock().block_size
            + o.spec_superblock().block_size <= o.image().len() ==> f.image().len() == o.image().len(),
{
    if o.mkdir_regions_apart(n, p, pino) {
        o.lemma_run_is_next(s1, 1, start);
        assert(s4.spec_resolve(pino, 0) == o.spec_resolve(pino, 0));
        assert forall|i: int|
            0 <= i < o.image().len() && !o.mkdir_writes(n, p, pino, i) implies #[trigger] f.image()[i]
                == o.image()[i] by {
            assert(s1.image()[i] == o.image()[i]);
            assert(s2.image()[i] == s1.image()[i]);
            assert(s3.image()[i] == s2.image()[i]);
            assert(s4.image()[i] == s3.image()[i]);
            assert(s5.image()[i] == s4.image()[i]);
            assert(s6.image()[i] == s5.image()[i]);
            assert(!s7.in_metadata_region(i));
            assert(f.image()[i] == s7.image()[i]);
        }
    }
}

/// Two filesystems left by `mkdir` with the same regions written the
/// same way are the same.
#[verifier::rlimit(60)]
#[verifier::spinoff_prover]
proof fn lemma_same_dir_creation(o: Filesystem, f: Filesystem, g: Filesystem, n: u32, p: u32, pino: Inode, name: Seq<u8>)
    requires
        f.well_formed(),
        g.well_formed(),
        f.spec_superblock() == g.spec_superblock(),
        f.spec_gdt() == g.spec_gdt(),
        o.same_layout(&f),
        o.mkdir_pinned(n, p, pino),
        created_dir_regions(o, f, n, p, pino, name),
        created_dir_regions(o, g, n, p, pino, name),
    ensures
        f.image() == g.image(),
{
    let sb = o.spec_superblock();
    let bs = sb.block_size as int;
    let isz = sb.inode_size as int;
    let ibo = o.inode_bitmap_offset();
    let bbo = o.block_bitmap_offset();
    let sn = o.inode_slot(n);
    let sp = o.inode_slot(p);
    let st = o.next_free_run(1);
    let fimg = f.image();
    let gimg = g.image();
    lemma_new_inode_bytes_unique(
        f.spec_read_inode(n)->Ok_0,
        g.spec_read_inode(n)->Ok_0,
        fimg.subrange(sn, sn + isz),
        gimg.subrange(sn, sn + isz),
        isz,
        NEW_DIR_MODE,
        2,
        bs,
        1,
        st,
        bs,
    );
    let relinked = Inode { links_count: ((pino.links_count + 1) % 0x1_0000) as u16, ..pino };
    lemma_inode_encoding_unique(relinked, fimg.subrange(sp, sp + isz), gimg.subrange(sp, sp + isz), isz);
    assert(fimg.subrange(sp, sp + isz).take(isz) =~= fimg.subrange(sp, sp + isz));
    assert(gimg.subrange(sp, sp + isz).take(isz) =~= gimg.subrange(sp, sp + isz));
    lemma_same_bytes_in(fimg, gimg, ibo, bs);
    lemma_bits_fix_bitmap(fimg.subrange(bbo, bbo + bs), gimg.subrange(bbo, bbo + bs));
    lemma_same_bytes_in(fimg, gimg, bbo, bs);
    lemma_same_bytes_in(fimg, gimg, sn, isz);
    lemma_same_bytes_in(fimg, gimg, sp, isz);
    assert(st * bs >= 0) by (nonlinear_arith)
        requires
            st >= 0,
            bs > 0,
    ;
    lemma_same_bytes_in(fimg, gimg, st * bs, bs);
    let pbo = o.spec_resolve(pino, 0)->Ok_0->Some_0 * bs;
    lemma_same_bytes_in(fimg, gimg, pbo, bs);
    assert forall|i: int| 0 <= i < fimg.len() implies #[trigger] fimg[i] == gimg[i] by {
        if o.in_metadata_region(i) {
            assert(f.in_metadata_region(i));
            lemma_metadata_bytes_unique(f, g, i);
        } else if !o.mkdir_writes(n, p, pino, i) {
            assert(fimg[i] == o.image()[i]);
            assert(gimg[i] == o.image()[i]);
        }
    }
    assert(fimg =~= gimg);
}

/// What `dir_created` says of the regions `mkdir` writes and of the
/// counts it leaves.
#[verifier::rlimit(60)]
#[verifier::spinoff_prover]
proof fn lemma_dir_created_regions(o: Filesystem, f: Filesystem, n: u32, p: u32, pino: Inode, name: Seq<u8>)
    requires
        o.same_layout(&f),
        o.dir_created(&f, n, p, pino, name),
        o.mkdir_pinned(n, p, pino),
    ensures
        created_dir_regions(o, f, n, p, pino, name),
        read_range(o.image(), o.inode_bitmap_offset(), o.spec_superblock().block_size as int) matches Ok(bm)
            && is_first_clear_bit(bm, o.spec_superblock().inodes_per_group as int, n - 1),
        f.spec_superblock() == (Superblock {
            free_inodes_count: sat_sub(o.spec_superblock().free_inodes_count as int, 1) as u32,
            free_blocks_count: sat_sub(o.spec_superblock().free_blocks_count as int, 1) as u64,
            ..o.spec_superblock()
        }),
        f.spec_gdt()[0] == (GroupDescriptor {
            free_inodes_count: sat_sub(o.spec_gdt()[0].free_inodes_count as int, 1) as u32,
            free_blocks_count: sat_sub(o.spec_gdt()[0].free_blocks_count as int, 1) as u32,
            used_dirs_count: ((o.spec_gdt()[0].used_dirs_count + 1) % 0x1_0000_0000) as u32,
            ..o.spec_gdt()[0]
        }),
{
}

/// `mkdir` is deterministic: two runs on one filesystem with one path,
/// when the regions it writes lie apart and inside the image, take the
/// same inode and leave the same superblock, group descriptors and image
/// bytes.
#[verifier::rlimit(100)]
#[verifier::spinoff_prover]
pub proof fn lemma_mkdir_deterministic(
    o: Filesystem,
    f: Filesystem,
    g: Filesystem,
    n: u32,
    m: u32,
    p: u32,
    pino: Inode,
    name: Seq<u8>,
)
    requires
        f.well_formed(),
        g.well_formed(),
        o.same_layout(&f),
        o.same_layout(&g),
        o.dir_created(&f, n, p, pino, name),
        o.dir_created(&g, m, p, pino, name),
        o.mkdir_pinned(n, p, pino),
    ensures
        n == m,
        f.spec_superblock() == g.spec_superblock(),
        f.spec_gdt() == g.spec_gdt(),
        f.image() == g.image(),
{
    let bs = o.spec_superblock().block_size as int;
    let bm = read_range(o.image(), o.inode_bitmap_offset(), bs)->Ok_0;
    lemma_dir_created_regions(o, f, n, p, pino, name);
    lemma_dir_created_regions(o, g, m, p, pino, name);
    lemma_first_clear_bit_unique(bm, o.spec_superblock().inodes_per_group as int, n - 1, m - 1);
    assert(f.spec_gdt() =~= g.spec_gdt());
    lemma_same_dir_creation(o, f, g, n, p, pino, name);
}

/// The lookup part of `mkdir`'s promise: the parent's block is kept by
/// every write but the one adding the new entry, which is then found.
#[verifier::rlimit(60)]
#[verifier::spinoff_prover]
proof fn lemma_mkdir_entry_found(
    o: Filesystem,
    s1: Filesystem,
    s2: Filesystem,
    s3: Filesystem,
    s4: Filesystem,
    s5: Filesystem,
    s6: Filesystem,
    s7: Filesystem,
    f: Filesystem,
    n: u32,
    p: u32,
    pino: Inode,
    start: int,
    name: Seq<u8>,
    parent_relinked: Inode,
)
    requires
        o.well_formed(),
        f.well_formed(),
        o.mkdir_entry_apart(n, p, pino),
        o.name_free(pino, name),
        o.same_layout(&s1),
        o.same_layout(&s7),
        o.same_layout(&f),
        s4.spec_superblock().block_size == o.spec_superblock().block_size,
        1 <= n,
        written_at(o.image(), s1.image(), o.inode_bitmap_offset(), o.spec_superblock().block_size as int),
        s1.block_bitmap_offset() == o.block_bitmap_offset(),
        read_range(s1.image(), o.block_bitmap_offset(), o.spec_superblock().block_size as int) matches Ok(bm1)
            && is_first_clear_run(bm1, 1, block_limit(o.spec_superblock()), start),
        written_at(s1.image(), s2.image(), o.block_bitmap_offset(), o.spec_superblock().block_size as int),
        0 <= start,
        written_at(s2.image(), s3.image(), o.inode_slot(n), o.spec_superblock().inode_size as int),
        written_at(s3.image(), s4.image(), start * o.spec_superblock().block_size, o.spec_superblock().block_size as int),
        ({
            let bs = o.spec_superblock().block_size as int;
            s4.spec_resolve(pino, 0) matches Ok(Some(pb)) && written_at(s4.image(), s5.image(), pb * bs, bs)
                && (read_range(s4.image(), pb * bs, bs) matches Ok(blk) ==> (dir_block_with_entry(
                blk,
                name,
                n,
                FT_DIR,
            ) matches Ok(nbk) && s5.image().subrange(pb * bs, pb * bs + bs) == nbk))
        }),
        written_at(s5.image(), s6.image(), o.inode_slot(p), o.spec_superblock().inode_size as int),
        parent_relinked == (Inode { links_count: ((pino.links_count + 1) % 0x1_0000) as u16, ..pino }),
        s7.image() == s6.image(),
        s7.metadata_written(f.image()),
    ensures
        f.spec_lookup(parent_relinked, name) == LookupOutcome::Found(n),
        ({
            let bs = o.spec_superblock().block_size as int;
            let pbo = o.spec_resolve(pino, 0)->Ok_0->Some_0 * bs;
            &&& 0 <= pbo
            &&& pbo + bs <= o.image().len()
            &&& f.image().subrange(pbo, pbo + bs) == dir_block_with_entry(
                read_range(o.image(), pbo, bs)->Ok_0,
                name,
                n,
                FT_DIR,
            )->Ok_0
        }),
{
    let sb = o.spec_superblock();
    let bsi = sb.block_size as int;
    let isz = sb.inode_size as int;
    let sn = o.inode_slot(n);
    let sp = o.inode_slot(p);
    let pb = o.spec_resolve(pino, 0)->Ok_0->Some_0;
    let pbo = pb * bsi;
    assert(s4.spec_resolve(pino, 0) == o.spec_resolve(pino, 0));
    let bbm_old = read_range(o.image(), o.block_bitmap_offset(), bsi)->Ok_0;
    lemma_written_at_keeps(o.image(), s1.image(), o.inode_bitmap_offset(), bsi, o.block_bitmap_offset(), bsi);
    assert(is_first_clear_run(bbm_old, 1, block_limit(sb), start));
    assert(start * bsi >= 0) by (nonlinear_arith)
        requires
            start >= 0,
            bsi > 0,
    ;
    assert(pb * bsi >= 0) by (nonlinear_arith)
        requires
            pb >= 0,
            bsi > 0,
    ;
    if pbo + bsi <= o.image().len() {
        lemma_written_at_keeps(o.image(), s1.image(), o.inode_bitmap_offset(), bsi, pbo, bsi);
        lemma_written_at_keeps(s1.image(), s2.image(), o.block_bitmap_offset(), bsi, pbo, bsi);
        lemma_written_at_keeps(s2.image(), s3.image(), sn, isz, pbo, bsi);
        lemma_written_at_keeps(s3.image(), s4.image(), start * bsi, bsi, pbo, bsi);
    }
    if pbo + bsi <= s5.image().len() {
        lemma_written_at_keeps(s5.image(), s6.image(), sp, isz, pbo, bsi);
        lemma_flush_keeps(s7, f.image(), pbo, bsi);
    }
    lemma_new_entry_found(o, s4, s5, f, pino, name, n, FT_DIR, pb);
    assert(f.spec_resolve(parent_relinked, 0) == f.spec_resolve(pino, 0));
    f.lemma_one_block_dir(pino);
    f.lemma_one_block_dir(parent_relinked);
}

/// Reading back a new directory `n` (inode `new_dir`, block `start`
/// holding `data`) and its re-linked parent `p` from an image that holds
/// them.
proof fn lemma_new_dir_reads_back(
    f: Filesystem,
    n: u32,
    p: u32,
    start: int,
    new_dir: Inode,
    data: Seq<u8>,
    parent_relinked: Inode,
)
    requires
        f.well_formed(),
        1 <= n <= f.spec_superblock().inodes_count,
        (n - 1) / (f.spec_superblock().inodes_per_group as int) < f.spec_gdt().len(),
        1 <= p <= f.spec_superblock().inodes_count,
        (p - 1) / (f.spec_superblock().inodes_per_group as int) < f.spec_gdt().len(),
        f.spec_superblock().inode_size >= 128,
        0 <= start <= 0xFFFF_FFFF_FFFF,
        f.inode_slot(n) + f.spec_superblock().inode_size <= f.image().len(),
        new_dir.encoded_in(
            f.image().subrange(f.inode_slot(n), f.inode_slot(n) + f.spec_superblock().inode_size),
            f.spec_superblock().inode_size as int,
        ),
        f.inode_slot(p) + f.spec_superblock().inode_size <= f.image().len(),
        parent_relinked.encoded_in(
            f.image().subrange(f.inode_slot(p), f.inode_slot(p) + f.spec_superblock().inode_size),
            f.spec_superblock().inode_size as int,
        ),
        is_new_inode(new_dir, NEW_DIR_MODE, 2, f.spec_superblock().block_size as int, 1, start, f.spec_superblock().block_size as int),
        start * f.spec_superblock().block_size + f.spec_superblock().block_size <= f.image().len(),
        f.image().subrange(start * f.spec_superblock().block_size, start * f.spec_superblock().block_size + f.spec_superblock().block_size) == data,
        data == encoded_dir_entry(dot_entry(n)) + encoded_dir_entry(dotdot_entry(p, f.spec_superblock().block_size as int)),
    ensures
        f.spec_read_inode(n) == Ok::<Inode, Ext4Error>(new_dir),
        new_dir.spec_file_type() == InodeFileType::Directory,
        f.spec_read_dir(new_dir) == Ok::<Seq<SpecDirEntry>, Ext4Error>(
            seq![dot_entry(n), dotdot_entry(p, f.spec_superblock().block_size as int)],
        ),
        f.spec_read_inode(p) == Ok::<Inode, Ext4Error>(parent_relinked),
{
    let bsi = f.spec_superblock().block_size as int;
    f.lemma_new_inode_reads_back(n, new_dir);
    f.lemma_new_inode_reads_back(p, parent_relinked);
    assert(new_dir.spec_file_type() == InodeFileType::Directory) by {
        assert(NEW_DIR_MODE & 0xF000u16 == 0x4000u16) by (bit_vector);
    }
    assert(padded(data, bsi) =~= data);
    assert(blocks_for(bsi, bsi) == 1) by {
        assert((bsi + bsi - 1) / bsi == 1) by (nonlinear_arith)
            requires
                bsi >= 1,
        ;
    }
    assert(1 * bsi == bsi);
    f.lemma_new_file_reads_back(new_dir, NEW_DIR_MODE, 2, data, start, 1);
    lemma_dot_dotdot_block(n, p, bsi);
}

/// Where the steps of `mkdir` after the allocations leave the new
/// directory's inode and block and the parent's inode: each keeps what
/// was written there through the later writes that lie apart.
proof fn lemma_mkdir_regions(
    i2: Seq<u8>,
    i3: Seq<u8>,
    i4: Seq<u8>,
    i5: Seq<u8>,
    i6: Seq<u8>,
    s7: Filesystem,
    i8: Seq<u8>,
    sn: int,
    isz: int,
    d: int,
    pbo: int,
    sp: int,
    bs: int,
    ino: Inode,
    blk: Seq<u8>,
    pino: Inode,
)
    requires
        0 <= sn,
        0 <= d,
        0 <= pbo,
        0 <= sp,
        128 <= isz,
        0 < bs,
        written_at(i2, i3, sn, isz),
        ino.encoded_in(i3.subrange(sn, sn + isz), isz),
        written_at(i3, i4, d, bs),
        i4.subrange(d, d + bs) == blk,
        written_at(i4, i5, pbo, bs),
        written_at(i5, i6, sp, isz),
        pino.encoded_in(i6.subrange(sp, sp + isz), isz),
        s7.image() == i6,
        s7.metadata_written(i8),
        apart(sn, isz, d, bs),
        apart(sn, isz, pbo, bs),
        apart(sn, isz, sp, isz),
        apart(sn, isz, SUPERBLOCK_OFFSET as int, SUPERBLOCK_SIZE as int),
        apart(
            sn,
            isz,
            gdt_offset(s7.spec_superblock()),
            s7.spec_gdt().len() * s7.spec_superblock().spec_group_descriptor_size(),
        ),
        apart(d, bs, pbo, bs),
        apart(d, bs, sp, isz),
        apart(d, bs, SUPERBLOCK_OFFSET as int, SUPERBLOCK_SIZE as int),
        apart(
            d,
            bs,
            gdt_offset(s7.spec_superblock()),
            s7.spec_gdt().len() * s7.spec_superblock().spec_group_descriptor_size(),
        ),
        apart(sp, isz, SUPERBLOCK_OFFSET as int, SUPERBLOCK_SIZE as int),
        apart(
            sp,
            isz,
            gdt_offset(s7.spec_superblock()),
            s7.spec_gdt().len() * s7.spec_superblock().spec_group_descriptor_size(),
        ),
    ensures
        sn + isz <= i8.len(),
        ino.encoded_in(i8.subrange(sn, sn + isz), isz),
        d + bs <= i8.len(),
        i8.subrange(d, d + bs) == blk,
        sp + isz <= i8.len(),
        pino.encoded_in(i8.subrange(sp, sp + isz), isz),
{
    assert(i3.len() >= sn + isz);
    lemma_written_at_keeps(i3, i4, d, bs, sn, isz);
    lemma_written_at_keeps(i4, i5, pbo, bs, sn, isz);
    lemma_written_at_keeps(i5, i6, sp, isz, sn, isz);
    lemma_flush_keeps(s7, i8, sn, isz);
    assert(i4.len() >= d + bs);
    lemma_written_at_keeps(i4, i5, pbo, bs, d, bs);
    lemma_written_at_keeps(i5, i6, sp, isz, d, bs);
    lemma_flush_keeps(s7, i8, d, bs);
    assert(i6.len() >= sp + isz);
    lemma_flush_keeps(s7, i8, sp, isz);
}

/// The byte ranges `[a, a + m)` and `[b, b + n)` do not overlap.
pub open spec fn apart(a: int, m: int, b: int, n: int) -> bool {
    a + m <= b || b + n <= a
}

/// Bytes outside the range written stay as they were.
proof fn lemma_written_at_keeps(old: Seq<u8>, new: Seq<u8>, off: int, len: int, a: int, m: int)
    requires
        written_at(old, new, off, len),
        0 <= a,
        0 <= m,
        a + m <= old.len(),
        apart(a, m, off, len),
    ensures
        new.subrange(a, a + m) == old.subrange(a, a + m),
        new.len() >= old.len(),
{
    assert forall|i: int| 0 <= i < m implies #[trigger] new.subrange(a, a + m)[i] == old.subrange(
        a,
        a + m,
    )[i] by {
        assert(new[a + i] == old[a + i]);
    }
    assert(new.subrange(a, a + m) =~= old.subrange(a, a + m));
}

/// The contents of a new file: its bytes, then zeros to the end of its
/// last block.
pub open spec fn padded(data: Seq<u8>, total: int) -> Seq<u8> {
    data + Seq::new((total - data.len()) as nat, |i: int| 0u8)
}

impl Filesystem {
    /// When each of the first `nb` blocks of `ino` reads as the matching
    /// piece of `pd`, the first `k` of them read as its first `k` blocks.
    proof fn lemma_blocks_prefix(&self, ino: Inode, pd: Seq<u8>, bs: int, nb: int, k: int)
        requires
            bs > 0,
            0 <= k <= nb,
            pd.len() == nb * bs,
            forall|j: int| 0 <= j < nb ==> self.block_data(ino, j) == Ok::<Seq<u8>, Ext4Error>(
                pd.subrange(j * bs, j * bs + bs),
            ),
        ensures
            self.blocks_data(ino, k as nat) == Ok::<Seq<u8>, Ext4Error>(pd.take(k * bs)),
        decreases k,
    {
        if k == 0 {
            assert(k * bs == 0) by (nonlinear_arith)
                requires
                    k == 0,
            ;
            assert(pd.take(0) =~= Seq::<u8>::empty());
            assert(self.blocks_data(ino, 0) == Ok::<Seq<u8>, Ext4Error>(Seq::empty()));
        } else {
            self.lemma_blocks_prefix(ino, pd, bs, nb, k - 1);
            let j = k - 1;
            assert(((k as nat) - 1) as nat == j as nat);
            assert(j * bs + bs <= nb * bs && 0 <= j * bs && k * bs == j * bs + bs)
                by (nonlinear_arith)
                requires
                    0 <= j < nb,
                    k == j + 1,
                    bs > 0,
            ;
            assert(self.block_data(ino, j) == Ok::<Seq<u8>, Ext4Error>(pd.subrange(j * bs, j * bs + bs)));
            assert(pd.take(j * bs) + pd.subrange(j * bs, j * bs + bs) =~= pd.take(k * bs));
            assert(self.blocks_data(ino, k as nat) == Ok::<Seq<u8>, Ext4Error>(
                pd.take(j * bs) + pd.subrange(j * bs, j * bs + bs),
            ));
        }
    }

    /// Reading the file `ino` (a leaf extent root mapping its `nb` blocks
    /// from `start` on) gives its bytes, when those blocks hold them.
    proof fn lemma_new_file_reads_back(&self, ino: Inode, mode: u16, links: u16, data: Seq<u8>, start: int, nb: int)
        requires
            self.well_formed(),
            is_new_inode(ino, mode, links, data.len() as int, nb, start, self.spec_superblock().block_size as int),
            nb == blocks_for(data.len() as int, self.spec_superblock().block_size as int),
            1 <= nb <= 32768,
            0 <= start,
            start <= 0xFFFF_FFFF_FFFF,
            nb * self.spec_superblock().block_size <= usize::MAX,
            start * self.spec_superblock().block_size + nb * self.spec_superblock().block_size <= self.image().len(),
            self.image().subrange(
                start * self.spec_superblock().block_size,
                start * self.spec_superblock().block_size + nb * self.spec_superblock().block_size,
            ) == padded(data, nb * self.spec_superblock().block_size),
        ensures
            self.spec_read_file(ino) == Ok::<Seq<u8>, Ext4Error>(data),
    {
        let bs = self.spec_superblock().block_size as int;
        let len = data.len() as int;
        let pd = padded(data, nb * bs);
        assert(nb * bs >= len && (nb - 1) * bs < len) by (nonlinear_arith)
            requires
                nb == (len + bs - 1) / bs,
                bs > 0,
                len >= 0,
                nb >= 1,
        ;
        assert(ino.spec_uses_extents()) by {
            assert(INODE_FLAG_EXTENTS & INODE_FLAG_EXTENTS != 0u32) by (bit_vector);
        }
        let node = ino.block@;
        let e = Extent { logical_block: 0, len: nb as u16, physical_block: start as u64, uninit: false };
        lemma_extent_encode_decode(e, node.skip(12));
        assert(node_entry(node, 0) =~= node.skip(12).subrange(0, 12));
        assert(extent_at(node_entry(node, 0)) == extent_at(node.skip(12)));
        assert(node_extents(node) =~= seq![e]);
        let img = self.image();
        let base = start * bs;
        // block k of the file is block k of the padded data
        assert forall|k: int| 0 <= k < nb implies self.block_data(ino, k) == Ok::<Seq<u8>, Ext4Error>(
            pd.subrange(k * bs, k * bs + bs),
        ) by {
            assert(k * bs + bs <= nb * bs && 0 <= k * bs && (k + 1) * bs == k * bs + bs)
                by (nonlinear_arith)
                requires
                    0 <= k < nb,
                    bs > 0,
            ;
            assert(covers(e, k as u32));
            assert(leaf_lookup(node_extents(node), k as u32) == Some((start + k) as u64));
            assert(self.resolve_node(node, k as u32, 6) == Ok::<Option<u64>, Ext4Error>(
                Some((start + k) as u64),
            ));
            assert((start + k) * bs == base + k * bs) by (nonlinear_arith)
                requires
                    base == start * bs,
            ;
            lemma_subrange_within(img, base, pd, k * bs, k * bs + bs);
        }
        self.lemma_blocks_prefix(ino, pd, bs, nb, nb);
        assert(self.block_count(ino.size) == nb);
        assert(pd.take(nb * bs).take(len) =~= data);
    }
}

/// A flush of the superblock and group descriptors leaves a range it
/// does not touch as it was.
proof fn lemma_flush_keeps(fs: Filesystem, new: Seq<u8>, a: int, m: int)
    requires
        fs.metadata_written(new),
        0 <= a,
        0 <= m,
        a + m <= fs.image().len(),
        apart(a, m, SUPERBLOCK_OFFSET as int, SUPERBLOCK_SIZE as int),
        apart(
            a,
            m,
            gdt_offset(fs.spec_superblock()),
            fs.spec_gdt().len() * fs.spec_superblock().spec_group_descriptor_size(),
        ),
    ensures
        new.subrange(a, a + m) == fs.image().subrange(a, a + m),
{
    assert forall|i: int| 0 <= i < m implies #[trigger] new.subrange(a, a + m)[i]
        == fs.image().subrange(a, a + m)[i] by {
        assert(!fs.in_metadata_region(a + i));
        assert(new[a + i] == fs.image()[a + i]);
    }
    assert(new.subrange(a, a + m) =~= fs.image().subrange(a, a + m));
}

impl Filesystem {
    /// Reading inode `n` gives `ino` when its slot holds the encoding of
    /// `ino`.
    proof fn lemma_new_inode_reads_back(&self, n: u32, ino: Inode)
        requires
            1 <= n <= self.spec_superblock().inodes_count,
            (n - 1) / (self.spec_superblock().inodes_per_group as int) < self.spec_gdt().len(),
            self.spec_superblock().inode_size >= 128,
            self.inode_slot(n) + self.spec_superblock().inode_size <= self.image().len(),
            ino.encoded_in(
                self.image().subrange(self.inode_slot(n), self.inode_slot(n) + self.spec_superblock().inode_size),
                self.spec_superblock().inode_size as int,
            ),
        ensures
            self.spec_read_inode(n) == Ok::<Inode, Ext4Error>(ino),
    {
        let sb = self.spec_superblock();
        let bytes = self.image().subrange(self.inode_slot(n), self.inode_slot(n) + sb.inode_size);
        lemma_inode_encode_decode(ino, bytes, sb);
    }

    /// The regions `create_file` writes do not overlap where the new file
    /// has to be read back from: the parent directory's extent tree is a
    /// single leaf whose first block resolves; the new inode's slot lies
    /// apart from the file's data blocks (the lowest run of free blocks),
    /// from the parent's first directory block and from the superblock
    /// and group descriptor table, and so do the data blocks; the inode
    /// and block bitmaps lie apart; the file spans at most 32768 blocks.
    pub open spec fn create_regions_apart(&self, n: u32, len: int, pino: Inode) -> bool {
        let sb = self.spec_superblock();
        let bs = sb.block_size as int;
        let isz = sb.inode_size as int;
        let slot = self.inode_slot(n);
        let nb = blocks_for(len, bs);
        let go = gdt_offset(sb);
        let glen = self.spec_gdt().len() * sb.spec_group_descriptor_size();
        &&& le_u16(pino.block@, 6) == 0
        &&& nb <= 32768
        &&& apart(self.inode_bitmap_offset(), bs, self.block_bitmap_offset(), bs)
        &&& self.spec_resolve(pino, 0) matches Ok(Some(pb)) && {
            let pbo = pb * bs;
            &&& apart(slot, isz, pbo, bs)
            &&& apart(slot, isz, SUPERBLOCK_OFFSET as int, SUPERBLOCK_SIZE as int)
            &&& apart(slot, isz, go, glen)
            &&& nb > 0 ==> (read_range(self.image(), self.block_bitmap_offset(), bs) matches Ok(bbm)
                && forall|start: int|
                #![trigger is_first_clear_run(bbm, nb, block_limit(sb), start)]
                is_first_clear_run(bbm, nb, block_limit(sb), start) ==> {
                    &&& apart(slot, isz, start * bs, nb * bs)
                    &&& apart(start * bs, nb * bs, pbo, bs)
                    &&& apart(start * bs, nb * bs, SUPERBLOCK_OFFSET as int, SUPERBLOCK_SIZE as int)
                    &&& apart(start * bs, nb * bs, go, glen)
                })
        }
    }
}

impl Filesystem {
    /// Besides what [`Filesystem::create_regions_apart`] asks: the parent
    /// is a directory of one block, and that block lies apart from the
    /// bitmaps, the superblock and the group descriptor table.
    pub open spec fn entry_regions_apart(&self, n: u32, len: int, pino: Inode) -> bool {
        let sb = self.spec_superblock();
        let bs = sb.block_size as int;
        let go = gdt_offset(sb);
        let glen = self.spec_gdt().len() * sb.spec_group_descriptor_size();
        &&& self.create_regions_apart(n, len, pino)
        &&& pino.size == sb.block_size
        &&& self.spec_resolve(pino, 0) matches Ok(Some(pb)) && {
            let pbo = pb * bs;
            &&& apart(pbo, bs, self.inode_bitmap_offset(), bs)
            &&& apart(pbo, bs, self.block_bitmap_offset(), bs)
            &&& apart(pbo, bs, SUPERBLOCK_OFFSET as int, SUPERBLOCK_SIZE as int)
            &&& apart(pbo, bs, go, glen)
        }
    }
}

impl Filesystem {
    /// Besides what [`Filesystem::create_regions_apart`] asks: group 0's
    /// inode bitmap lies apart from the new inode's slot, the file's
    /// blocks, the parent's first block, the superblock and the group
    /// descriptor table.
    pub open spec fn inode_bitmap_apart(&self, n: u32, len: int, pino: Inode) -> bool {
        let sb = self.spec_superblock();
        let bs = sb.block_size as int;
        let isz = sb.inode_size as int;
        let ibo = self.inode_bitmap_offset();
        let nb = blocks_for(len, bs);
        let go = gdt_offset(sb);
        let glen = self.spec_gdt().len() * sb.spec_group_descriptor_size();
        &&& self.create_regions_apart(n, len, pino)
        &&& apart(ibo, bs, self.inode_slot(n), isz)
        &&& apart(ibo, bs, SUPERBLOCK_OFFSET as int, SUPERBLOCK_SIZE as int)
        &&& apart(ibo, bs, go, glen)
        &&& self.spec_resolve(pino, 0) matches Ok(Some(pb)) && apart(ibo, bs, pb * bs, bs)
        &&& nb > 0 ==> (read_range(self.image(), self.block_bitmap_offset(), bs) matches Ok(bbm)
            && forall|start: int|
            #![trigger is_first_clear_run(bbm, nb, block_limit(sb), start)]
            is_first_clear_run(bbm, nb, block_limit(sb), start) ==> apart(
                ibo,
                bs,
                start * bs,
                nb * bs,
            ))
    }
}

impl Filesystem {
    /// Besides what [`Filesystem::create_regions_apart`] asks: group 0's
    /// block bitmap lies apart from the new inode's slot, the file's
    /// blocks, the parent's first block, the superblock and the group
    /// descriptor table.
    pub open spec fn block_bitmap_apart(&self, n: u32, len: int, pino: Inode) -> bool {
        let sb = self.spec_superblock();
        let bs = sb.block_size as int;
        let isz = sb.inode_size as int;
        let bbo = self.block_bitmap_offset();
        let nb = blocks_for(len, bs);
        let go = gdt_offset(sb);
        let glen = self.spec_gdt().len() * sb.spec_group_descriptor_size();
        &&& self.create_regions_apart(n, len, pino)
        &&& apart(bbo, bs, self.inode_slot(n), isz)
        &&& apart(bbo, bs, SUPERBLOCK_OFFSET as int, SUPERBLOCK_SIZE as int)
        &&& apart(bbo, bs, go, glen)
        &&& self.spec_resolve(pino, 0) matches Ok(Some(pb)) && apart(bbo, bs, pb * bs, bs)
        &&& nb > 0 ==> (read_range(self.image(), bbo, bs) matches Ok(bbm) && forall|start: int|
            #![trigger is_first_clear_run(bbm, nb, block_limit(sb), start)]
            is_first_clear_run(bbm, nb, block_limit(sb), start) ==> apart(
                bbo,
                bs,
                start * bs,
                nb * bs,
            ))
    }
}

impl Filesystem {
    /// The image holds this filesystem's own superblock (where the group
    /// descriptor table leaves it whole) and group descriptors.
    pub open spec fn holds_metadata(&self) -> bool {
        let sb = self.spec_superblock();
        let es = sb.spec_group_descriptor_size() as int;
        let go = gdt_offset(sb);
        &&& go >= SUPERBLOCK_OFFSET + SUPERBLOCK_SIZE ==> sb.encoded_in(
            self.image().subrange(SUPERBLOCK_OFFSET as int, SUPERBLOCK_OFFSET + SUPERBLOCK_SIZE),
        )
        &&& forall|k: int|
            0 <= k < self.spec_gdt().len() ==> (#[trigger] self.spec_gdt()[k]).encoded_in(
                self.image().subrange(go + k * es, go + (k + 1) * es),
                es,
            )
    }

    /// All of what [`Filesystem::entry_regions_apart`],
    /// [`Filesystem::inode_bitmap_apart`] and
    /// [`Filesystem::block_bitmap_apart`] ask; besides, the group
    /// descriptor table lies past the superblock, and the new inode's slot
    /// and the file's blocks lie inside the image.
    pub open spec fn create_pinned(&self, n: u32, len: int, pino: Inode) -> bool {
        let sb = self.spec_superblock();
        let bs = sb.block_size as int;
        let isz = sb.inode_size as int;
        let nb = blocks_for(len, bs);
        &&& self.entry_regions_apart(n, len, pino)
        &&& self.inode_bitmap_apart(n, len, pino)
        &&& self.block_bitmap_apart(n, len, pino)
        &&& gdt_offset(sb) >= SUPERBLOCK_OFFSET + SUPERBLOCK_SIZE
        &&& self.inode_slot(n) + isz <= self.image().len()
        &&& nb > 0 ==> self.file_start(nb) * bs + nb * bs <= self.image().len()
    }
}

/// An extent root is fixed by the run it maps: two of them are the same
/// bytes.
proof fn lemma_extent_root_unique(x: Seq<u8>, y: Seq<u8>, nb: int, start: int)
    requires
        is_extent_root(x, nb, start),
        is_extent_root(y, nb, start),
    ensures
        x == y,
{
    let h = ExtentHeader { entries: if nb > 0 { 1 } else { 0 }, max: 4, depth: 0, generation: 0 };
    lemma_extent_header_encoding_unique(h, x, y);
    if nb > 0 {
        let e = Extent { logical_block: 0, len: nb as u16, physical_block: start as u64, uninit: false };
        lemma_extent_encoding_unique(e, x.skip(12), y.skip(12));
    }
    assert forall|k: int| 0 <= k < I_BLOCK_LEN implies x[k] == y[k] by {
        if k < 12 {
            assert(x.take(12)[k] == x[k]);
            assert(y.take(12)[k] == y[k]);
        } else if k < 24 && nb > 0 {
            assert(x.skip(12).take(12)[k - 12] == x[k]);
            assert(y.skip(12).take(12)[k - 12] == y[k]);
        }
    }
    assert(x =~= y);
}

/// Two slots holding new inodes of the same description hold the same
/// bytes.
proof fn lemma_new_inode_bytes_unique(
    a: Inode,
    b: Inode,
    sa: Seq<u8>,
    sb: Seq<u8>,
    isz: int,
    mode: u16,
    links: u16,
    size: int,
    nb: int,
    start: int,
    bs: int,
)
    requires
        is_new_inode(a, mode, links, size, nb, start, bs),
        is_new_inode(b, mode, links, size, nb, start, bs),
        a.encoded_in(sa, isz),
        b.encoded_in(sb, isz),
        sa.len() == isz,
        sb.len() == isz,
    ensures
        sa == sb,
{
    lemma_extent_root_unique(a.block@, b.block@, nb, start);
    assert(a.encoded_in(sb, isz));
    lemma_inode_encoding_unique(a, sa, sb, isz);
    assert(sa.take(isz) =~= sa);
    assert(sb.take(isz) =~= sb);
}

/// Two images holding one superblock and one group descriptor table
/// agree on the bytes of both.
proof fn lemma_metadata_bytes_unique(f: Filesystem, g: Filesystem, i: int)
    requires
        f.well_formed(),
        g.well_formed(),
        f.holds_metadata(),
        g.holds_metadata(),
        f.spec_superblock() == g.spec_superblock(),
        f.spec_gdt() == g.spec_gdt(),
        gdt_offset(f.spec_superblock()) >= SUPERBLOCK_OFFSET + SUPERBLOCK_SIZE,
        f.in_metadata_region(i),
        0 <= i,
    ensures
        i < f.image().len(),
        i < g.image().len(),
        f.image()[i] == g.image()[i],
{
    let sb = f.spec_superblock();
    let es = sb.spec_group_descriptor_size() as int;
    let go = gdt_offset(sb);
    if SUPERBLOCK_OFFSET <= i < SUPERBLOCK_OFFSET + SUPERBLOCK_SIZE {
        let x = f.image().subrange(SUPERBLOCK_OFFSET as int, SUPERBLOCK_OFFSET + SUPERBLOCK_SIZE);
        let y = g.image().subrange(SUPERBLOCK_OFFSET as int, SUPERBLOCK_OFFSET + SUPERBLOCK_SIZE);
        lemma_superblock_encoding_unique(sb, x, y);
        assert(x.take(SUPERBLOCK_SIZE as int)[i - SUPERBLOCK_OFFSET] == f.image()[i]);
        assert(y.take(SUPERBLOCK_SIZE as int)[i - SUPERBLOCK_OFFSET] == g.image()[i]);
    } else {
        let len = f.spec_gdt().len() as int;
        assert(len * es > 0);
        assert(len > 0) by (nonlinear_arith)
            requires
                len * es > 0,
                es >= 0,
                len >= 0,
        ;
        assert(go >= 0);
        let k = (i - go) / es;
        assert(0 <= k < len && 0 <= k * es && k * es <= i - go < k * es + es && go + (k + 1) * es <= go
            + len * es && (k + 1) * es == k * es + es) by (nonlinear_arith)
            requires
                go <= i < go + len * es,
                es >= 32,
                k == (i - go) / es,
        ;
        let x = f.image().subrange(go + k * es, go + (k + 1) * es);
        let y = g.image().subrange(go + k * es, go + (k + 1) * es);
        assert(f.spec_gdt()[k].encoded_in(x, es));
        assert(g.spec_gdt()[k].encoded_in(y, es));
        lemma_group_descriptor_encoding_unique(f.spec_gdt()[k], x, y, es);
        assert(x.take(es)[i - go - k * es] == f.image()[i]);
        assert(y.take(es)[i - go - k * es] == g.image()[i]);
    }
}

/// What `create_file` leaves in each region it writes, when they lie
/// apart and inside the image: the facts its determinism rests on.
spec fn created_regions(o: Filesystem, f: Filesystem, n: u32, pino: Inode, name: Seq<u8>, data: Seq<u8>) -> bool {
    let sb = o.spec_superblock();
    let bs = sb.block_size as int;
    let isz = sb.inode_size as int;
    let len = data.len() as int;
    let nb = blocks_for(len, bs);
    let ibo = o.inode_bitmap_offset();
    let bbo = o.block_bitmap_offset();
    let slot = o.inode_slot(n);
    let st = o.file_start(nb);
    let pbo = o.spec_resolve(pino, 0)->Ok_0->Some_0 * bs;
    &&& read_range(o.image(), ibo, bs) matches Ok(bm) && is_first_clear_bit(
        bm,
        sb.inodes_per_group as int,
        n - 1,
    )
    &&& f.spec_superblock() == Superblock {
        free_inodes_count: sat_sub(sb.free_inodes_count as int, 1) as u32,
        free_blocks_count: sat_sub(sb.free_blocks_count as int, (nb as u32) as int) as u64,
        ..sb
    }
    &&& f.spec_gdt() == o.spec_gdt().update(
        0,
        GroupDescriptor {
            free_inodes_count: sat_sub(o.spec_gdt()[0].free_inodes_count as int, 1) as u32,
            free_blocks_count: sat_sub(o.spec_gdt()[0].free_blocks_count as int, (nb as u32) as int) as u32,
            ..o.spec_gdt()[0]
        },
    )
    &&& f.image().len() == o.image().len()
    &&& 0 <= pbo && pbo + bs <= o.image().len()
    &&& nb > 0 ==> 0 <= st
    &&& read_range(f.image(), ibo, bs) == Ok::<Seq<u8>, Ext4Error>(
        with_bit_set(read_range(o.image(), ibo, bs)->Ok_0, n - 1),
    )
    &&& nb > 0 ==> (read_range(f.image(), bbo, bs) matches Ok(x) && run_set(
        read_range(o.image(), bbo, bs)->Ok_0,
        x,
        st,
        nb,
    ))
    &&& is_new_inode(f.spec_read_inode(n)->Ok_0, NEW_FILE_MODE, 1, len, nb, st, bs)
    &&& (f.spec_read_inode(n)->Ok_0).encoded_in(f.image().subrange(slot, slot + isz), isz)
    &&& nb > 0 ==> st * bs + nb * bs <= f.image().len() && f.image().subrange(st * bs, st * bs + nb * bs)
        == padded(data, nb * bs)
    &&& f.image().subrange(pbo, pbo + bs) == dir_block_with_entry(
        read_range(o.image(), pbo, bs)->Ok_0,
        name,
        n,
        FT_REG_FILE,
    )->Ok_0
    &&& f.holds_metadata()
    &&& forall|i: int|
        0 <= i < o.image().len() && !o.create_writes(n, len, pino, i) ==> #[trigger] f.image()[i]
            == o.image()[i]
}

/// What `file_created` says of the regions `create_file` writes.
#[verifier::rlimit(40)]
proof fn lemma_created_regions(o: Filesystem, f: Filesystem, n: u32, pino: Inode, name: Seq<u8>, data: Seq<u8>)
    requires
        o.same_layout(&f),
        o.file_created(&f, n, pino, name, data),
        o.create_pinned(n, data.len() as int, pino),
    ensures
        created_regions(o, f, n, pino, name, data),
{
    let bs = o.spec_superblock().block_size as int;
    let pb = o.spec_resolve(pino, 0)->Ok_0->Some_0;
    assert(pb * bs >= 0) by (nonlinear_arith)
        requires
            pb >= 0,
            bs > 0,
    ;
    assert(f.spec_gdt() =~= o.spec_gdt().update(
        0,
        GroupDescriptor {
            free_inodes_count: sat_sub(o.spec_gdt()[0].free_inodes_count as int, 1) as u32,
            free_blocks_count: sat_sub(
                o.spec_gdt()[0].free_blocks_count as int,
                (blocks_for(data.len() as int, o.spec_superblock().block_size as int) as u32) as int,
            ) as u32,
            ..o.spec_gdt()[0]
        },
    ));
}

/// `create_file` is deterministic: two runs on one filesystem with one
/// path and one content, when the regions it writes lie apart and inside
/// the image, take the same inode and leave the same superblock, group
/// descriptors and image bytes.
#[verifier::rlimit(40)]
#[verifier::spinoff_prover]
pub proof fn lemma_create_file_deterministic(
    o: Filesystem,
    f: Filesystem,
    g: Filesystem,
    n: u32,
    m: u32,
    pino: Inode,
    name: Seq<u8>,
    data: Seq<u8>,
)
    requires
        f.well_formed(),
        g.well_formed(),
        o.same_layout(&f),
        o.same_layout(&g),
        o.file_created(&f, n, pino, name, data),
        o.file_created(&g, m, pino, name, data),
        o.create_pinned(n, data.len() as int, pino),
    ensures
        n == m,
        f.spec_superblock() == g.spec_superblock(),
        f.spec_gdt() == g.spec_gdt(),
        f.image() == g.image(),
{
    let bs = o.spec_superblock().block_size as int;
    let bm = read_range(o.image(), o.inode_bitmap_offset(), bs)->Ok_0;
    assert(is_first_clear_bit(bm, o.spec_superblock().inodes_per_group as int, n - 1));
    assert(is_first_clear_bit(bm, o.spec_superblock().inodes_per_group as int, m - 1));
    lemma_first_clear_bit_unique(bm, o.spec_superblock().inodes_per_group as int, n - 1, m - 1);
    lemma_created_regions(o, f, n, pino, name, data);
    lemma_created_regions(o, g, n, pino, name, data);
    lemma_same_creation(o, f, g, n, pino, name, data);
}

/// Two filesystems left by `create_file` with the same regions written
/// the same way are the same.
#[verifier::rlimit(60)]
#[verifier::spinoff_prover]
proof fn lemma_same_creation(o: Filesystem, f: Filesystem, g: Filesystem, n: u32, pino: Inode, name: Seq<u8>, data: Seq<u8>)
    requires
        f.well_formed(),
        g.well_formed(),
        o.create_pinned(n, data.len() as int, pino),
        created_regions(o, f, n, pino, name, data),
        created_regions(o, g, n, pino, name, data),
    ensures
        f.spec_superblock() == g.spec_superblock(),
        f.spec_gdt() == g.spec_gdt(),
        f.image() == g.image(),
{
    let sb = o.spec_superblock();
    let bs = sb.block_size as int;
    let isz = sb.inode_size as int;
    let len = data.len() as int;
    let nb = blocks_for(len, bs);
    let ibo = o.inode_bitmap_offset();
    let bbo = o.block_bitmap_offset();
    let slot = o.inode_slot(n);
    let ia = f.spec_read_inode(n)->Ok_0;
    let ib = g.spec_read_inode(n)->Ok_0;
    let fimg = f.image();
    let gimg = g.image();
    lemma_new_inode_bytes_unique(
        ia,
        ib,
        fimg.subrange(slot, slot + isz),
        gimg.subrange(slot, slot + isz),
        isz,
        NEW_FILE_MODE,
        1,
        len,
        nb,
        o.file_start(nb),
        bs,
    );
    lemma_same_bytes_in(fimg, gimg, ibo, bs);
    if nb > 0 {
        lemma_bits_fix_bitmap(fimg.subrange(bbo, bbo + bs), gimg.subrange(bbo, bbo + bs));
        lemma_same_bytes_in(fimg, gimg, bbo, bs);
        let st = o.file_start(nb);
        assert(st * bs >= 0) by (nonlinear_arith)
            requires
                st >= 0,
                bs > 0,
        ;
        lemma_same_bytes_in(fimg, gimg, st * bs, nb * bs);
    }
    lemma_same_bytes_in(fimg, gimg, slot, isz);
    let pbo = o.spec_resolve(pino, 0)->Ok_0->Some_0 * bs;
    lemma_same_bytes_in(fimg, gimg, pbo, bs);
    assert forall|i: int| 0 <= i < fimg.len() implies #[trigger] fimg[i] == gimg[i] by {
        if o.in_metadata_region(i) {
            assert(f.in_metadata_region(i));
            lemma_metadata_bytes_unique(f, g, i);
        } else if !o.create_writes(n, len, pino, i) {
            assert(fimg[i] == o.image()[i]);
            assert(gimg[i] == o.image()[i]);
        }
    }
    assert(fimg =~= gimg);
}

/// When every region `create_file` writes lies inside the image, the
/// image keeps its length.
proof fn lemma_create_keeps_len(
    o: Filesystem,
    s1: Filesystem,
    s2: Filesystem,
    s3: Filesystem,
    s4: Filesystem,
    s5: Filesystem,
    f: Filesystem,
    pino: Inode,
    len: int,
    n: u32,
    count: u32,
    start: u64,
)
    requires
        allocated(o, s1, s2, n, count, start),
        0 < o.spec_superblock().block_size <= 65536,
        blocks_for(len, o.spec_superblock().block_size as int) <= 32768 ==> count as int == blocks_for(
            len,
            o.spec_superblock().block_size as int,
        ),
        ({
            let sb = o.spec_superblock();
            let bs = sb.block_size as int;
            let isz = sb.inode_size as int;
            let nb = blocks_for(len, bs);
            &&& written_at(s2.image(), s3.image(), o.inode_slot(n), isz)
            &&& nb > 0 ==> written_at(s3.image(), s4.image(), start * bs, nb * bs)
            &&& nb == 0 ==> s4.image() == s3.image()
            &&& s4.spec_resolve(pino, 0) matches Ok(Some(pb)) && written_at(s4.image(), s5.image(), pb * bs, bs)
                && pb * bs + bs <= o.image().len()
        }),
        s5.metadata_written(f.image()),
    ensures
        o.create_pinned(n, len, pino) ==> f.image().len() == o.image().len(),
{
    if o.create_pinned(n, len, pino) {
        let bs = o.spec_superblock().block_size as int;
        let nb = blocks_for(len, bs);
        if nb > 0 {
            o.lemma_run_is_next(s1, count, start);
        }
        assert(o.file_start(nb) == start);
    }
}

/// The bits `create_file` sets for the blocks it takes stay set through
/// the writes after it, when they lie apart from the block bitmap.
#[verifier::rlimit(40)]
proof fn lemma_block_bits_kept(
    o: Filesystem,
    s1: Filesystem,
    s2: Filesystem,
    s3: Filesystem,
    s4: Filesystem,
    s5: Filesystem,
    f: Filesystem,
    pino: Inode,
    len: int,
    n: u32,
    count: u32,
    start: u64,
)
    requires
        allocated(o, s1, s2, n, count, start),
        0 < o.spec_superblock().block_size <= 65536,
        blocks_for(len, o.spec_superblock().block_size as int) <= 32768 ==> count as int == blocks_for(
            len,
            o.spec_superblock().block_size as int,
        ),
        ({
            let sb = o.spec_superblock();
            let bs = sb.block_size as int;
            let isz = sb.inode_size as int;
            let bbo = o.block_bitmap_offset();
            let nb = blocks_for(len, bs);
            &&& count > 0 ==> run_set(
                read_range(s1.image(), bbo, bs)->Ok_0,
                s2.image().subrange(bbo, bbo + bs),
                start as int,
                count as int,
            )
            &&& written_at(s2.image(), s3.image(), o.inode_slot(n), isz)
            &&& nb > 0 ==> written_at(s3.image(), s4.image(), start * bs, nb * bs)
            &&& nb == 0 ==> s4.image() == s3.image()
            &&& s4.spec_resolve(pino, 0) matches Ok(Some(pb)) && written_at(s4.image(), s5.image(), pb * bs, bs)
        }),
        s4.spec_superblock().block_size == o.spec_superblock().block_size,
        o.same_layout(&s5),
        s5.metadata_written(f.image()),
    ensures
        ({
            let bs = o.spec_superblock().block_size as int;
            let nb = blocks_for(len, bs);
            nb > 0 && o.block_bitmap_apart(n, len, pino) ==> (read_range(
                f.image(),
                o.block_bitmap_offset(),
                bs,
            ) matches Ok(bbm) && forall|k: int|
                o.next_free_run(nb) <= k < o.next_free_run(nb) + nb ==> #[trigger] bit_set(bbm, k))
        }),
        ({
            let bs = o.spec_superblock().block_size as int;
            let nb = blocks_for(len, bs);
            nb > 0 && o.block_bitmap_apart(n, len, pino) ==> (read_range(
                f.image(),
                o.block_bitmap_offset(),
                bs,
            ) matches Ok(x) && run_set(
                read_range(o.image(), o.block_bitmap_offset(), bs)->Ok_0,
                x,
                o.file_start(nb),
                nb,
            ))
        }),
{
    let sb = o.spec_superblock();
    let bs = sb.block_size as int;
    let nb = blocks_for(len, bs);
    if nb > 0 && o.block_bitmap_apart(n, len, pino) {
        let isz = sb.inode_size as int;
        let bbo = o.block_bitmap_offset();
        o.lemma_run_is_next(s1, count, start);
        let bm1 = read_range(s1.image(), bbo, bs)->Ok_0;
        let set = s2.image().subrange(bbo, bbo + bs);
        assert(s2.image().len() >= bbo + bs);
        assert forall|k: int| start <= k < start + nb implies #[trigger] bit_set(set, k) by {
            assert(k / 8 < bs);
        }
        lemma_written_at_keeps(s2.image(), s3.image(), o.inode_slot(n), isz, bbo, bs);
        let bbm = read_range(o.image(), bbo, bs)->Ok_0;
        assert(is_first_clear_run(bbm, nb, block_limit(sb), start as int));
        assert(start * bs >= 0) by (nonlinear_arith)
            requires
                start >= 0,
                bs > 0,
        ;
        lemma_written_at_keeps(s3.image(), s4.image(), start * bs, nb * bs, bbo, bs);
        assert(s4.spec_resolve(pino, 0) == o.spec_resolve(pino, 0));
        let pb = o.spec_resolve(pino, 0)->Ok_0->Some_0;
        assert(pb * bs >= 0) by (nonlinear_arith)
            requires
                pb >= 0,
                bs > 0,
        ;
        lemma_written_at_keeps(s4.image(), s5.image(), pb * bs, bs, bbo, bs);
        lemma_flush_keeps(s5, f.image(), bbo, bs);
        assert(read_range(f.image(), bbo, bs) == Ok::<Seq<u8>, Ext4Error>(set));
    }
}

/// Every byte `create_file` writes lies in a region that
/// [`Filesystem::create_writes`] names: every other byte of the image is
/// as it was.
#[verifier::rlimit(60)]
#[verifier::spinoff_prover]
proof fn lemma_create_frame(
    o: Filesystem,
    s1: Filesystem,
    s2: Filesystem,
    s3: Filesystem,
    s4: Filesystem,
    s5: Filesystem,
    f: Filesystem,
    pino: Inode,
    len: int,
    n: u32,
    count: u32,
    start: u64,
)
    requires
        allocated(o, s1, s2, n, count, start),
        0 < o.spec_superblock().block_size <= 65536,
        blocks_for(len, o.spec_superblock().block_size as int) <= 32768 ==> count as int == blocks_for(
            len,
            o.spec_superblock().block_size as int,
        ),
        ({
            let sb = o.spec_superblock();
            let bs = sb.block_size as int;
            let isz = sb.inode_size as int;
            let nb = blocks_for(len, bs);
            &&& written_at(s2.image(), s3.image(), o.inode_slot(n), isz)
            &&& nb > 0 ==> written_at(s3.image(), s4.image(), start * bs, nb * bs)
            &&& nb == 0 ==> s4.image() == s3.image()
            &&& s4.spec_resolve(pino, 0) matches Ok(Some(pb)) && written_at(s4.image(), s5.image(), pb * bs, bs)
        }),
        o.same_layout(&s5),
        s5.metadata_written(f.image()),
    ensures
        o.create_regions_apart(n, len, pino) ==> {
            &&& f.image().len() >= o.image().len()
            &&& forall|i: int|
                0 <= i < o.image().len() && !o.create_writes(n, len, pino, i) ==> #[trigger] f.image()[i]
                    == o.image()[i]
        },
{
    if o.create_regions_apart(n, len, pino) {
        let sb = o.spec_superblock();
        let bs = sb.block_size as int;
        let nb = blocks_for(len, bs);
        if nb > 0 {
            o.lemma_run_is_next(s1, count, start);
        }
        assert(o.file_start(nb) == start);
        assert(s4.spec_resolve(pino, 0) == o.spec_resolve(pino, 0));
        assert forall|i: int|
            0 <= i < o.image().len() && !o.create_writes(n, len, pino, i) implies #[trigger] f.image()[i]
                == o.image()[i] by {
            assert(s1.image()[i] == o.image()[i]);
            assert(s2.image()[i] == s1.image()[i]);
            assert(s3.image()[i] == s2.image()[i]);
            assert(s4.image()[i] == s3.image()[i]);
            assert(s5.image()[i] == s4.image()[i]);
            assert(!s5.in_metadata_region(i));
            assert(f.image()[i] == s5.image()[i]);
        }
    }
}

/// Two files created one after the other get different inodes: the
/// first one's inode is left marked in use, and the second takes a free
/// one.
pub proof fn lemma_created_inodes_distinct(
    o: Filesystem,
    f1: Filesystem,
    f2: Filesystem,
    n1: u32,
    pino1: Inode,
    name1: Seq<u8>,
    data1: Seq<u8>,
    n2: u32,
    pino2: Inode,
    name2: Seq<u8>,
    data2: Seq<u8>,
)
    requires
        o.same_layout(&f1),
        o.file_created(&f1, n1, pino1, name1, data1),
        f1.file_created(&f2, n2, pino2, name2, data2),
        o.inode_bitmap_apart(n1, data1.len() as int, pino1),
    ensures
        n1 != n2,
{
    let bs = o.spec_superblock().block_size as int;
    let bm = read_range(f1.image(), o.inode_bitmap_offset(), bs)->Ok_0;
    assert(f1.inode_bitmap_offset() == o.inode_bitmap_offset());
    assert(bit_set(bm, n1 - 1));
    assert(!bit_set(bm, n2 - 1));
}

/// The slots of two different inodes of group 0 do not overlap.
proof fn lemma_slots_apart(fs: Filesystem, a: u32, b: u32)
    requires
        a != b,
        1 <= a,
        1 <= b,
        a - 1 < fs.spec_superblock().inodes_per_group,
        b - 1 < fs.spec_superblock().inodes_per_group,
    ensures
        apart(
            fs.inode_slot(a),
            fs.spec_superblock().inode_size as int,
            fs.inode_slot(b),
            fs.spec_superblock().inode_size as int,
        ),
{
    let q = fs.spec_superblock().inodes_per_group as int;
    let isz = fs.spec_superblock().inode_size as int;
    let x = (a - 1) as int;
    let y = (b - 1) as int;
    assert(x / q == 0 && x % q == x && y / q == 0 && y % q == y) by (nonlinear_arith)
        requires
            0 <= x < q,
            0 <= y < q,
    ;
    assert(x * isz + isz <= y * isz || y * isz + isz <= x * isz) by (nonlinear_arith)
        requires
            x != y,
            isz >= 0,
    ;
}

/// A run of set bits and a run of clear bits of one bitmap cover
/// different blocks, and so different bytes.
proof fn lemma_runs_apart(bm: Seq<u8>, st1: int, nb1: int, st2: int, nb2: int, bs: int)
    requires
        nb1 >= 1,
        nb2 >= 1,
        bs > 0,
        forall|k: int| st1 <= k < st1 + nb1 ==> #[trigger] bit_set(bm, k),
        clear_run(bm, st2, nb2),
    ensures
        apart(st1 * bs, nb1 * bs, st2 * bs, nb2 * bs),
{
    if !(st1 + nb1 <= st2 || st2 + nb2 <= st1) {
        let k = if st1 < st2 {
            st2
        } else {
            st1
        };
        assert(bit_set(bm, k));
        assert(!bit_set(bm, k));
    }
    assert(st1 * bs + nb1 * bs <= st2 * bs || st2 * bs + nb2 * bs <= st1 * bs) by (nonlinear_arith)
        requires
            st1 + nb1 <= st2 || st2 + nb2 <= st1,
            bs > 0,
    ;
}

/// Creating a second file leaves the first readable as it was: its inode
/// reads back the same and its contents are still its data. The first
/// file's slot and blocks are apart from the second's parent block, and
/// from the second's slot and blocks as far as the bitmaps do not already
/// keep them apart.
#[verifier::rlimit(80)]
#[verifier::spinoff_prover]
pub proof fn lemma_second_file_keeps_first(
    o: Filesystem,
    f1: Filesystem,
    f2: Filesystem,
    n1: u32,
    pino1: Inode,
    name1: Seq<u8>,
    data1: Seq<u8>,
    n2: u32,
    pino2: Inode,
    name2: Seq<u8>,
    data2: Seq<u8>,
)
    requires
        f2.well_formed(),
        o.same_layout(&f1),
        f1.same_layout(&f2),
        o.file_created(&f1, n1, pino1, name1, data1),
        f1.file_created(&f2, n2, pino2, name2, data2),
        o.inode_bitmap_apart(n1, data1.len() as int, pino1),
        o.block_bitmap_apart(n1, data1.len() as int, pino1),
        f1.create_regions_apart(n2, data2.len() as int, pino2),
        ({
            let bs = o.spec_superblock().block_size as int;
            let isz = o.spec_superblock().inode_size as int;
            let nb1 = blocks_for(data1.len() as int, bs);
            let nb2 = blocks_for(data2.len() as int, bs);
            let r1 = o.file_start(nb1) * bs;
            let r2 = f1.file_start(nb2) * bs;
            let p2 = f1.spec_resolve(pino2, 0)->Ok_0->Some_0 * bs;
            &&& apart(o.inode_slot(n1), isz, p2, bs)
            &&& apart(o.inode_slot(n1), isz, r2, nb2 * bs)
            &&& apart(r1, nb1 * bs, f1.inode_slot(n2), isz)
            &&& apart(r1, nb1 * bs, p2, bs)
        }),
    ensures
        f2.spec_read_inode(n1) == f1.spec_read_inode(n1),
        f2.spec_read_file(f1.spec_read_inode(n1)->Ok_0) == Ok::<Seq<u8>, Ext4Error>(data1),
{
    let sb = o.spec_superblock();
    let bs = sb.block_size as int;
    let isz = sb.inode_size as int;
    let nb1 = blocks_for(data1.len() as int, bs);
    let nb2 = blocks_for(data2.len() as int, bs);
    let st1 = o.file_start(nb1);
    let st2 = f1.file_start(nb2);
    let sl1 = o.inode_slot(n1);
    let ino1 = f1.spec_read_inode(n1)->Ok_0;
    lemma_created_inodes_distinct(o, f1, f2, n1, pino1, name1, data1, n2, pino2, name2, data2);
    lemma_slots_apart(o, n1, n2);
    assert(f1.inode_slot(n1) == sl1);
    assert(f1.inode_slot(n2) == o.inode_slot(n2));
    assert(f1.in_metadata_region(0) == o.in_metadata_region(0));
    // the first file's slot is not written by the second create_file
    assert(sl1 + isz <= f1.image().len());
    assert forall|i: int| sl1 <= i < sl1 + isz implies #[trigger] f2.image()[i] == f1.image()[i] by {
        assert(!f1.create_writes(n2, data2.len() as int, pino2, i));
    }
    assert(f2.image().subrange(sl1, sl1 + isz) =~= f1.image().subrange(sl1, sl1 + isz));
    assert(f2.inode_slot(n1) == sl1);
    assert(f2.spec_read_inode(n1) == f1.spec_read_inode(n1));
    if nb1 > 0 {
        // the first file's blocks are not written by the second either
        let bbm1 = read_range(f1.image(), o.block_bitmap_offset(), bs)->Ok_0;
        assert(f1.block_bitmap_offset() == o.block_bitmap_offset());
        if nb2 > 0 {
            let fbbm = read_range(f1.image(), f1.block_bitmap_offset(), bs)->Ok_0;
            assert(is_first_clear_run(fbbm, nb2, block_limit(sb), st2));
            lemma_runs_apart(bbm1, st1, nb1, st2, nb2, bs);
        }
        let obbm = read_range(o.image(), o.block_bitmap_offset(), bs)->Ok_0;
        assert(is_first_clear_run(obbm, nb1, block_limit(sb), st1));
        assert forall|i: int| st1 * bs <= i < st1 * bs + nb1 * bs implies #[trigger] f2.image()[i]
            == f1.image()[i] by {
            assert(!f1.create_writes(n2, data2.len() as int, pino2, i));
        }
        assert(f2.image().subrange(st1 * bs, st1 * bs + nb1 * bs) =~= f1.image().subrange(
            st1 * bs,
            st1 * bs + nb1 * bs,
        ));
        assert(nb1 * bs <= 0x8000_0000) by (nonlinear_arith)
            requires
                0 <= nb1 <= 32768,
                0 <= bs <= 65536,
        ;
        f2.lemma_new_file_reads_back(ino1, NEW_FILE_MODE, 1, data1, st1, nb1);
    } else {
        assert(data1.len() == 0) by (nonlinear_arith)
            requires
                nb1 == (data1.len() + bs - 1) / bs,
                nb1 == 0,
                bs > 0,
        ;
        assert(data1 =~= Seq::<u8>::empty());
    }
}

/// The bit `create_file` sets for its new inode `n` stays set through the
/// writes after it, when they lie apart from the inode bitmap.
#[verifier::rlimit(40)]
proof fn lemma_inode_bit_kept(
    o: Filesystem,
    s1: Filesystem,
    s2: Filesystem,
    s3: Filesystem,
    s4: Filesystem,
    s5: Filesystem,
    f: Filesystem,
    pino: Inode,
    len: int,
    n: u32,
    count: u32,
    start: u64,
)
    requires
        allocated(o, s1, s2, n, count, start),
        0 < o.spec_superblock().block_size <= 65536,
        blocks_for(len, o.spec_superblock().block_size as int) <= 32768 ==> count as int == blocks_for(
            len,
            o.spec_superblock().block_size as int,
        ),
        ({
            let sb = o.spec_superblock();
            let bs = sb.block_size as int;
            let isz = sb.inode_size as int;
            let ibo = o.inode_bitmap_offset();
            let nb = blocks_for(len, bs);
            &&& s1.image().subrange(ibo, ibo + bs) == with_bit_set(
                read_range(o.image(), ibo, bs)->Ok_0,
                n - 1,
            )
            &&& written_at(s2.image(), s3.image(), o.inode_slot(n), isz)
            &&& nb > 0 ==> written_at(s3.image(), s4.image(), start * bs, nb * bs)
            &&& nb == 0 ==> s4.image() == s3.image()
            &&& s4.spec_resolve(pino, 0) matches Ok(Some(pb)) && written_at(s4.image(), s5.image(), pb * bs, bs)
        }),
        s4.spec_superblock().block_size == o.spec_superblock().block_size,
        o.same_layout(&s5),
        s5.metadata_written(f.image()),
    ensures
        o.inode_bitmap_apart(n, len, pino) ==> (read_range(
            f.image(),
            o.inode_bitmap_offset(),
            o.spec_superblock().block_size as int,
        ) matches Ok(bm) && bit_set(bm, n - 1)),
        o.inode_bitmap_apart(n, len, pino) ==> read_range(
            f.image(),
            o.inode_bitmap_offset(),
            o.spec_superblock().block_size as int,
        ) == Ok::<Seq<u8>, Ext4Error>(
            with_bit_set(
                read_range(o.image(), o.inode_bitmap_offset(), o.spec_superblock().block_size as int)->Ok_0,
                n - 1,
            ),
        ),
{
    if o.inode_bitmap_apart(n, len, pino) {
        let sb = o.spec_superblock();
        let bs = sb.block_size as int;
        let isz = sb.inode_size as int;
        let ibo = o.inode_bitmap_offset();
        let nb = blocks_for(len, bs);
        let bm = read_range(o.image(), ibo, bs)->Ok_0;
        lemma_bit_set_clear_get(bm, n - 1, n as int);
        let set = s1.image().subrange(ibo, ibo + bs);
        assert(s1.image().len() >= ibo + bs);
        if count > 0 {
            lemma_written_at_keeps(s1.image(), s2.image(), o.block_bitmap_offset(), bs, ibo, bs);
        }
        lemma_written_at_keeps(s2.image(), s3.image(), o.inode_slot(n), isz, ibo, bs);
        if nb > 0 {
            o.lemma_run_is_next(s1, count, start);
            let bbm = read_range(o.image(), o.block_bitmap_offset(), bs)->Ok_0;
            assert(is_first_clear_run(bbm, nb, block_limit(sb), start as int));
            assert(start * bs >= 0) by (nonlinear_arith)
                requires
                    start >= 0,
                    bs > 0,
            ;
            lemma_written_at_keeps(s3.image(), s4.image(), start * bs, nb * bs, ibo, bs);
        }
        assert(s4.spec_resolve(pino, 0) == o.spec_resolve(pino, 0));
        let pb = o.spec_resolve(pino, 0)->Ok_0->Some_0;
        assert(pb * bs >= 0) by (nonlinear_arith)
            requires
                pb >= 0,
                bs > 0,
        ;
        lemma_written_at_keeps(s4.image(), s5.image(), pb * bs, bs, ibo, bs);
        lemma_flush_keeps(s5, f.image(), ibo, bs);
        assert(read_range(f.image(), ibo, bs) == Ok::<Seq<u8>, Ext4Error>(set));
    }
}

/// Where the steps of `create_file` after the allocations leave the new
/// inode and the new file's blocks: the slot and the data blocks keep
/// what was written there through the later writes that lie apart.
proof fn lemma_create_file_regions(
    i2: Seq<u8>,
    i3: Seq<u8>,
    i4: Seq<u8>,
    i5: Seq<u8>,
    s5: Filesystem,
    i6: Seq<u8>,
    slot: int,
    isz: int,
    nb: int,
    dstart: int,
    dlen: int,
    pbo: int,
    bs: int,
    ino: Inode,
    pd: Seq<u8>,
)
    requires
        0 <= slot,
        0 <= dstart,
        0 <= dlen,
        0 <= pbo,
        0 <= nb,
        128 <= isz,
        0 < bs,
        written_at(i2, i3, slot, isz),
        ino.encoded_in(i3.subrange(slot, slot + isz), isz),
        nb > 0 ==> written_at(i3, i4, dstart, dlen) && i4.subrange(dstart, dstart + dlen) == pd,
        nb == 0 ==> i4 == i3,
        written_at(i4, i5, pbo, bs),
        s5.image() == i5,
        s5.metadata_written(i6),
        apart(slot, isz, pbo, bs),
        apart(slot, isz, SUPERBLOCK_OFFSET as int, SUPERBLOCK_SIZE as int),
        apart(
            slot,
            isz,
            gdt_offset(s5.spec_superblock()),
            s5.spec_gdt().len() * s5.spec_superblock().spec_group_descriptor_size(),
        ),
        nb > 0 ==> {
            &&& apart(slot, isz, dstart, dlen)
            &&& apart(dstart, dlen, pbo, bs)
            &&& apart(dstart, dlen, SUPERBLOCK_OFFSET as int, SUPERBLOCK_SIZE as int)
            &&& apart(
                dstart,
                dlen,
                gdt_offset(s5.spec_superblock()),
                s5.spec_gdt().len() * s5.spec_superblock().spec_group_descriptor_size(),
            )
        },
    ensures
        slot + isz <= i6.len(),
        ino.encoded_in(i6.subrange(slot, slot + isz), isz),
        nb > 0 ==> dstart + dlen <= i6.len() && i6.subrange(dstart, dstart + dlen) == pd,
{
    let ib = i3.subrange(slot, slot + isz);
    assert(i3.len() >= slot + isz);
    if nb > 0 {
        assert(i4.len() >= dstart + dlen);
        lemma_written_at_keeps(i3, i4, dstart, dlen, slot, isz);
    }
    assert(i4.subrange(slot, slot + isz) == ib);
    assert(i4.len() >= slot + isz);
    lemma_written_at_keeps(i4, i5, pbo, bs, slot, isz);
    lemma_flush_keeps(s5, i6, slot, isz);
    if nb > 0 {
        lemma_written_at_keeps(i4, i5, pbo, bs, dstart, dlen);
        lemma_flush_keeps(s5, i6, dstart, dlen);
    }
}

impl Filesystem {
    /// A directory of one block whose extent tree is a leaf in its inode
    /// reads as the entries of that block.
    proof fn lemma_one_block_dir(&self, pino: Inode)
        requires
            0 < self.spec_superblock().block_size <= 65536,
            pino.size == self.spec_superblock().block_size,
            self.spec_resolve(pino, 0) is Ok,
            self.spec_resolve(pino, 0)->Ok_0 is Some,
        ensures
            ({
                let bs = self.spec_superblock().block_size as int;
                let pb = self.spec_resolve(pino, 0)->Ok_0->Some_0;
                self.spec_read_dir(pino) == match read_range(self.image(), pb * bs, bs) {
                    Err(e) => Err(e),
                    Ok(blk) => match dir_block_entries(blk) {
                        Ok(es) => Ok::<Seq<SpecDirEntry>, Ext4Error>(es),
                        Err(x) => Err(Ext4Error::DirEntry(x)),
                    },
                }
            }),
    {
        let bs = self.spec_superblock().block_size as int;
        let pb = self.spec_resolve(pino, 0)->Ok_0->Some_0;
        assert((bs + bs - 1) / bs == 1) by (nonlinear_arith)
            requires
                bs > 0,
        ;
        assert(self.block_count(pino.size) == 1);
        assert(self.blocks_data(pino, 0) == Ok::<Seq<u8>, Ext4Error>(Seq::empty()));
        if let Ok(blk) = read_range(self.image(), pb * bs, bs) {
            assert(self.block_data(pino, 0) == Ok::<Seq<u8>, Ext4Error>(blk));
            assert(Seq::<u8>::empty() + blk =~= blk);
            assert(blk.take(bs) =~= blk);
        }
    }
}

/// What `create_file` and `mkdir` write after their checks and before
/// their new directory entry leaves the parent's block `[pbo, pbo + bs)`
/// as it was, and so does what they write after it; then the entry for
/// `name` can be found in the parent: a directory of one block whose
/// extent tree is a leaf, where `name` was missing. `o` is the
/// filesystem before, `s4` before the entry is added, `s5` after, and
/// `f` at the end.
proof fn lemma_new_entry_found(
    o: Filesystem,
    s4: Filesystem,
    s5: Filesystem,
    f: Filesystem,
    pino: Inode,
    name: Seq<u8>,
    n: u32,
    file_type: u8,
    pb: u64,
)
    requires
        0 < o.spec_superblock().block_size <= 65536,
        pino.size == o.spec_superblock().block_size,
        le_u16(pino.block@, 6) == 0,
        o.spec_resolve(pino, 0) == Ok::<Option<u64>, Ext4Error>(Some(pb)),
        o.name_free(pino, name),
        s4.spec_superblock().block_size == o.spec_superblock().block_size,
        f.spec_superblock().block_size == o.spec_superblock().block_size,
        ({
            let bs = o.spec_superblock().block_size as int;
            let pbo = pb * bs;
            &&& pbo + bs <= o.image().len() ==> read_range(s4.image(), pbo, bs) == read_range(
                o.image(),
                pbo,
                bs,
            )
            &&& read_range(s4.image(), pbo, bs) matches Ok(blk) ==> (dir_block_with_entry(
                blk,
                name,
                n,
                file_type,
            ) matches Ok(nbk) && written_at(s4.image(), s5.image(), pbo, bs) && s5.image().subrange(
                pbo,
                pbo + bs,
            ) == nbk)
            &&& pbo + bs <= s5.image().len() ==> pbo + bs <= f.image().len() && f.image().subrange(
                pbo,
                pbo + bs,
            ) == s5.image().subrange(pbo, pbo + bs)
        }),
        n != 0,
    ensures
        f.spec_lookup(pino, name) == LookupOutcome::Found(n),
        ({
            let bs = o.spec_superblock().block_size as int;
            &&& pb * bs + bs <= o.image().len()
            &&& f.image().subrange(pb * bs, pb * bs + bs) == dir_block_with_entry(
                read_range(o.image(), pb * bs, bs)->Ok_0,
                name,
                n,
                file_type,
            )->Ok_0
        }),
{
    reveal(Filesystem::name_free);
    let bs = o.spec_superblock().block_size as int;
    let pbo = pb * bs;
    assert(pb * bs >= 0) by (nonlinear_arith)
        requires
            pb >= 0,
            bs > 0,
    ;
    o.lemma_one_block_dir(pino);
    let blk = read_range(o.image(), pbo, bs)->Ok_0;
    let es = dir_block_entries(blk)->Ok_0;
    assert(find_live(es, name) is None);
    lemma_appended_entry_found(blk, name, n, file_type);
    let nbk = dir_block_with_entry(blk, name, n, file_type)->Ok_0;
    assert(f.spec_resolve(pino, 0) == o.spec_resolve(pino, 0));
    f.lemma_one_block_dir(pino);
    assert(read_range(f.image(), pbo, bs) == Ok::<Seq<u8>, Ext4Error>(nbk));
}

} // verus!
