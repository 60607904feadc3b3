//! The page format: integers in pages, page checksums and the metadata page.
use crate::error::{corrupt, Error, Result};
use vstd::prelude::*;

verus! {

/// Size of every page in bytes.
pub const PAGE_SIZE: usize = 4096;

/// Size of every page in bytes, as a file offset.
pub const PAGE_SIZE_U64: u64 = 4096;

/// Version of the format that this crate reads and writes.
pub const FORMAT_VERSION: u16 = 1;

/// Revision of the metadata layout that this crate reads and writes.
pub const LAYOUT_REVISION: u32 = 2;

/// Number of metadata pages at the start of the file.
pub const META_PAGES: u64 = 2;

/// Largest accepted key in bytes.
pub const MAX_KEY_SIZE: usize = 1024;

/// Largest accepted value in bytes.
pub const MAX_VALUE_SIZE: usize = 0xffff_ffff;

/// Size of the header of a tree page.
pub const PAGE_HEADER: usize = 32;

/// Size of one slot of a tree page.
pub const SLOT_SIZE: usize = 16;

/// Offset of the checksum that ends every page.
pub const PAGE_CHECKSUM_OFFSET: usize = 4092;

/// Offset of the first reserved byte of a metadata page.
pub const META_RESERVED: usize = 96;

/// Page type of a leaf of the user tree.
pub const LEAF: u8 = 1;

/// Page type of an internal node of the user tree.
pub const INTERNAL: u8 = 2;

/// Page type of a link in the chain of a large value.
pub const OVERFLOW: u8 = 3;

/// Page type of a leaf of the free tree.
pub const FREE_LEAF: u8 = 4;

/// Page type of an internal node of the free tree.
pub const FREE_INTERNAL: u8 = 5;

/// What one metadata page records about a published generation.
#[derive(Clone, Copy, Debug, PartialEq, Eq, Structural)]
pub struct Meta {
    pub generation: u64,
    pub root: u64,
    pub page_count: u64,
    pub item_count: u64,
    pub free_root: u64,
    pub logical_bytes: u64,
    pub user_tree_pages: u64,
    pub free_tree_pages: u64,
    pub free_pages: u64,
    pub fallback_pages: u64,
}

// ---------------------------------------------------------------------------
// Integers in pages
// ---------------------------------------------------------------------------

/// The little-endian 16-bit integer at `offset`.
pub open spec fn u16_at(bytes: Seq<u8>, offset: int) -> u16 {
    (bytes[offset] + 0x100 * bytes[offset + 1]) as u16
}

/// The little-endian 32-bit integer at `offset`.
pub open spec fn u32_at(bytes: Seq<u8>, offset: int) -> u32 {
    (u16_at(bytes, offset) + 0x1_0000 * u16_at(bytes, offset + 2)) as u32
}

/// The little-endian 64-bit integer at `offset`.
pub open spec fn u64_at(bytes: Seq<u8>, offset: int) -> u64 {
    (u32_at(bytes, offset) + 0x1_0000_0000 * u32_at(bytes, offset + 4)) as u64
}

/// Whether two byte strings of one length agree outside `start..end`.
pub open spec fn same_outside(a: Seq<u8>, b: Seq<u8>, start: int, end: int) -> bool {
    &&& a.len() == b.len()
    &&& forall|i: int| 0 <= i < a.len() && !(start <= i < end) ==> #[trigger] b[i] == a[i]
}

/// Whether every byte of `bytes` in `start..end` is zero.
pub open spec fn all_zero(bytes: Seq<u8>, start: int, end: int) -> bool {
    forall|i: int| start <= i < end ==> #[trigger] bytes[i] == 0
}

/// Reads a little-endian 16-bit integer.
pub fn get_u16(bytes: &[u8], offset: usize) -> (result: Result<u16>)
    ensures
        offset + 2 <= bytes@.len() ==> result == Ok::<u16, Error>(u16_at(bytes@, offset as int)),
        offset + 2 > bytes@.len() ==> {
            &&& result matches Err(Error::Corrupt(message))
            &&& message@ == "truncated u16"@
        },
{
    if bytes.len() < 2 || offset > bytes.len() - 2 {
        return Err(corrupt("truncated u16"));
    }
    Ok(bytes[offset] as u16 + 0x100 * (bytes[offset + 1] as u16))
}

/// Reads a little-endian 32-bit integer.
pub fn get_u32(bytes: &[u8], offset: usize) -> (result: Result<u32>)
    ensures
        offset + 4 <= bytes@.len() ==> result == Ok::<u32, Error>(u32_at(bytes@, offset as int)),
        offset + 4 > bytes@.len() ==> {
            &&& result matches Err(Error::Corrupt(message))
            &&& message@ == "truncated u32"@
        },
{
    if bytes.len() < 4 || offset > bytes.len() - 4 {
        return Err(corrupt("truncated u32"));
    }
    let low = bytes[offset] as u32 + 0x100 * (bytes[offset + 1] as u32);
    let high = bytes[offset + 2] as u32 + 0x100 * (bytes[offset + 3] as u32);
    Ok(low + 0x1_0000 * high)
}

/// Reads a little-endian 64-bit integer.
pub fn get_u64(bytes: &[u8], offset: usize) -> (result: Result<u64>)
    ensures
        offset + 8 <= bytes@.len() ==> result == Ok::<u64, Error>(u64_at(bytes@, offset as int)),
        offset + 8 > bytes@.len() ==> {
            &&& result matches Err(Error::Corrupt(message))
            &&& message@ == "truncated u64"@
        },
{
    if bytes.len() < 8 || offset > bytes.len() - 8 {
        return Err(corrupt("truncated u64"));
    }
    let a = bytes[offset] as u64 + 0x100 * (bytes[offset + 1] as u64);
    let b = bytes[offset + 2] as u64 + 0x100 * (bytes[offset + 3] as u64);
    let c = bytes[offset + 4] as u64 + 0x100 * (bytes[offset + 5] as u64);
    let d = bytes[offset + 6] as u64 + 0x100 * (bytes[offset + 7] as u64);
    Ok((a + 0x1_0000 * b) + 0x1_0000_0000 * (c + 0x1_0000 * d))
}

/// Writes a little-endian 16-bit integer.
pub fn put_u16(bytes: &mut [u8], offset: usize, value: u16)
    requires
        offset + 2 <= old(bytes)@.len(),
    ensures
        u16_at(final(bytes)@, offset as int) == value,
        same_outside(old(bytes)@, final(bytes)@, offset as int, offset + 2),
{
    bytes[offset] = (value % 0x100) as u8;
    bytes[offset + 1] = (value / 0x100) as u8;
}

/// Writes a little-endian 32-bit integer.
pub fn put_u32(bytes: &mut [u8], offset: usize, value: u32)
    requires
        offset + 4 <= old(bytes)@.len(),
    ensures
        u32_at(final(bytes)@, offset as int) == value,
        same_outside(old(bytes)@, final(bytes)@, offset as int, offset + 4),
{
    assert(bytes@.len() == bytes.len());
    put_u16(bytes, offset, (value % 0x1_0000) as u16);
    put_u16(bytes, offset + 2, (value / 0x1_0000) as u16);
}

/// Writes a little-endian 64-bit integer.
pub fn put_u64(bytes: &mut [u8], offset: usize, value: u64)
    requires
        offset + 8 <= old(bytes)@.len(),
    ensures
        u64_at(final(bytes)@, offset as int) == value,
        same_outside(old(bytes)@, final(bytes)@, offset as int, offset + 8),
{
    assert(bytes@.len() == bytes.len());
    put_u32(bytes, offset, (value % 0x1_0000_0000) as u32);
    put_u32(bytes, offset + 4, (value / 0x1_0000_0000) as u32);
}

/// Whether every byte in `start..end` is zero.
pub fn is_zero(bytes: &[u8], start: usize, end: usize) -> (zero: bool)
    requires
        end <= bytes@.len(),
    ensures
        zero == all_zero(bytes@, start as int, end as int),
{
    let mut i = start;
    while i < end
        invariant
            start <= i,
            i <= end || i == start,
            end <= bytes@.len(),
            all_zero(bytes@, start as int, i as int),
        decreases end - i,
    {
        if bytes[i] != 0 {
            return false;
        }
        i += 1;
    }
    true
}

/// Copies all of `source` into `target` from `offset` on.
pub fn put_bytes(target: &mut [u8], offset: usize, source: &[u8])
    requires
        offset + source@.len() <= old(target)@.len(),
    ensures
        same_outside(old(target)@, final(target)@, offset as int, offset + source@.len()),
        final(target)@.subrange(offset as int, offset + source@.len()) == source@,
{
    let ghost before = target@;
    let mut i: usize = 0;
    while i < source.len()
        invariant
            i <= source@.len(),
            offset + source@.len() <= before.len(),
            same_outside(before, target@, offset as int, offset + i),
            forall|j: int| 0 <= j < i ==> #[trigger] source@[j] == target@[offset + j],
        decreases source@.len() - i,
    {
        assert(target@.len() == target.len());
        target[offset + i] = source[i];
        i += 1;
    }
    assert(target@.subrange(offset as int, offset + source@.len()) =~= source@);
}

// ---------------------------------------------------------------------------
// Checksums
// ---------------------------------------------------------------------------

/// The CRC-32 checksum of a byte string, as `crc32fast::hash` computes it.
pub uninterp spec fn crc32(bytes: Seq<u8>) -> u32;

/// Calls `crc32fast::hash`. The contract claims that the result depends on
/// the bytes alone and gives it the name [`crc32`]; it says nothing else of it.
#[verifier::external_body]
pub(crate) fn checksum(bytes: &[u8]) -> (result: u32)
    ensures
        result == crc32(bytes@),
{
    crc32fast::hash(bytes)
}

/// Whether the checksum that ends the page is that of the bytes before it.
pub open spec fn page_ok(page: Seq<u8>) -> bool {
    u32_at(page, PAGE_CHECKSUM_OFFSET as int) == crc32(page.subrange(0, PAGE_CHECKSUM_OFFSET as int))
}

/// Writes the checksum that ends a page.
pub fn finish_page(page: &mut [u8; PAGE_SIZE])
    ensures
        page_ok(final(page)@),
        same_outside(old(page)@, final(page)@, PAGE_CHECKSUM_OFFSET as int, PAGE_SIZE as int),
{
    let sum = checksum(&page[0..PAGE_CHECKSUM_OFFSET]);
    put_u32(page, PAGE_CHECKSUM_OFFSET, sum);
    assert(page@.subrange(0, PAGE_CHECKSUM_OFFSET as int) =~= old(page)@.subrange(
        0,
        PAGE_CHECKSUM_OFFSET as int,
    ));
}

/// Checks the checksum that ends a page.
pub fn validate_page(page: &[u8; PAGE_SIZE]) -> (result: Result<()>)
    ensures
        page_ok(page@) ==> result is Ok,
        !page_ok(page@) ==> {
            &&& result matches Err(Error::Corrupt(message))
            &&& message@ == "page checksum mismatch"@
        },
{
    let expected = get_u32(page, PAGE_CHECKSUM_OFFSET)?;
    if checksum(&page[0..PAGE_CHECKSUM_OFFSET]) != expected {
        return Err(corrupt("page checksum mismatch"));
    }
    Ok(())
}

// ---------------------------------------------------------------------------
// Metadata pages
// ---------------------------------------------------------------------------

/// The bytes that open every metadata page: `ACTDB`, a zero byte and CR LF.
pub open spec fn magic() -> Seq<u8> {
    seq![0x41u8, 0x43, 0x54, 0x44, 0x42, 0x00, 0x0d, 0x0a]
}

/// Whether the page opens with the magic bytes.
pub open spec fn has_magic(page: Seq<u8>) -> bool {
    page.subrange(0, 8) == magic()
}

/// Whether a page with the magic bytes and the supported version declares the
/// page size and metadata layout of this format.
pub open spec fn has_layout(page: Seq<u8>) -> bool {
    u16_at(page, 10) == PAGE_SIZE && u32_at(page, 12) == LAYOUT_REVISION
}

/// The record that a metadata page holds.
pub open spec fn meta_fields(page: Seq<u8>) -> Meta {
    Meta {
        generation: u64_at(page, 16),
        root: u64_at(page, 24),
        page_count: u64_at(page, 32),
        item_count: u64_at(page, 40),
        free_root: u64_at(page, 48),
        logical_bytes: u64_at(page, 56),
        user_tree_pages: u64_at(page, 64),
        free_tree_pages: u64_at(page, 72),
        free_pages: u64_at(page, 80),
        fallback_pages: u64_at(page, 88),
    }
}

/// Whether a page identifier names a page behind the metadata pages.
pub open spec fn in_snapshot(page_id: u64, page_count: u64) -> bool {
    META_PAGES <= page_id < page_count
}

/// Whether both roots lie in the file and the free tree has a page.
pub open spec fn meta_rooted(meta: Meta) -> bool {
    &&& in_snapshot(meta.root, meta.page_count)
    &&& in_snapshot(meta.free_root, meta.page_count)
    &&& meta.free_tree_pages != 0
}

/// Whether both roots lie in the file and neither page graph is empty.
pub open spec fn meta_sane(meta: Meta) -> bool {
    meta_rooted(meta) && meta.user_tree_pages != 0
}

/// Whether a page of this format is undamaged: its reserved bytes are zero,
/// its checksum is right and its record is sane.
pub open spec fn meta_intact(page: Seq<u8>) -> bool {
    &&& all_zero(page, META_RESERVED as int, PAGE_CHECKSUM_OFFSET as int)
    &&& page_ok(page)
    &&& meta_sane(meta_fields(page))
}

/// Whether the page is a metadata page of this format and version.
pub open spec fn is_meta_page(page: Seq<u8>) -> bool {
    &&& has_magic(page)
    &&& u16_at(page, 8) == FORMAT_VERSION
    &&& has_layout(page)
    &&& meta_intact(page)
}

/// Whether a page records `meta`: it has the marks of this format and a right checksum.
pub open spec fn encodes(page: Seq<u8>, meta: Meta) -> bool {
    &&& has_magic(page)
    &&& u16_at(page, 8) == FORMAT_VERSION
    &&& has_layout(page)
    &&& meta_fields(page) == meta
    &&& all_zero(page, META_RESERVED as int, PAGE_CHECKSUM_OFFSET as int)
    &&& page_ok(page)
}

/// The metadata page that records `meta`.
pub fn encode_meta(meta: Meta) -> (page: [u8; PAGE_SIZE])
    ensures
        encodes(page@, meta),
{
    let mut page = [0u8; PAGE_SIZE];
    page[0] = 0x41;
    page[1] = 0x43;
    page[2] = 0x54;
    page[3] = 0x44;
    page[4] = 0x42;
    page[6] = 0x0d;
    page[7] = 0x0a;
    put_u16(&mut page, 8, FORMAT_VERSION);
    put_u16(&mut page, 10, PAGE_SIZE as u16);
    put_u32(&mut page, 12, LAYOUT_REVISION);
    put_u64(&mut page, 16, meta.generation);
    put_u64(&mut page, 24, meta.root);
    put_u64(&mut page, 32, meta.page_count);
    put_u64(&mut page, 40, meta.item_count);
    put_u64(&mut page, 48, meta.free_root);
    put_u64(&mut page, 56, meta.logical_bytes);
    put_u64(&mut page, 64, meta.user_tree_pages);
    put_u64(&mut page, 72, meta.free_tree_pages);
    put_u64(&mut page, 80, meta.free_pages);
    put_u64(&mut page, 88, meta.fallback_pages);
    finish_page(&mut page);
    assert(page@.subrange(0, 8) =~= magic());
    page
}

fn check_magic(page: &[u8; PAGE_SIZE]) -> (result: bool)
    ensures
        result == has_magic(page@),
{
    let result = page[0] == 0x41 && page[1] == 0x43 && page[2] == 0x54 && page[3] == 0x44
        && page[4] == 0x42 && page[5] == 0x00 && page[6] == 0x0d && page[7] == 0x0a;
    proof {
        let head = page@.subrange(0, 8);
        if result {
            assert(head =~= magic());
        } else {
            assert(head[0] == page@[0] && head[1] == page@[1] && head[2] == page@[2] && head[3]
                == page@[3] && head[4] == page@[4] && head[5] == page@[5] && head[6] == page@[6]
                && head[7] == page@[7]);
        }
    }
    result
}

/// Reads a metadata page.
///
/// A page without the magic bytes, and a page of this version with another page
/// size or layout, is no page of this format; another version is unsupported;
/// anything else that is wrong with the page is damage.
pub fn decode_meta(page: &[u8; PAGE_SIZE]) -> (result: Result<Meta>)
    ensures
        match result {
            Ok(meta) => is_meta_page(page@) && meta == meta_fields(page@),
            Err(Error::InvalidFormat(_)) => !has_magic(page@) || (u16_at(page@, 8) == FORMAT_VERSION
                && !has_layout(page@)),
            Err(Error::UnsupportedVersion(version)) => has_magic(page@) && version == u16_at(
                page@,
                8,
            ) && version != FORMAT_VERSION,
            Err(Error::Corrupt(_)) => has_magic(page@) && u16_at(page@, 8) == FORMAT_VERSION
                && has_layout(page@) && !meta_intact(page@),
            Err(_) => false,
        },
{
    if !check_magic(page) {
        return Err(Error::InvalidFormat("magic bytes do not match"));
    }
    let version = get_u16(page, 8)?;
    if version != FORMAT_VERSION {
        return Err(Error::UnsupportedVersion(version));
    }
    if get_u16(page, 10)? as usize != PAGE_SIZE {
        return Err(Error::InvalidFormat("unsupported page size"));
    }
    if get_u32(page, 12)? != LAYOUT_REVISION {
        return Err(Error::InvalidFormat("obsolete prerelease metadata layout"));
    }
    if !is_zero(page, META_RESERVED, PAGE_CHECKSUM_OFFSET) {
        return Err(corrupt("metadata reserved bytes are nonzero"));
    }
    let expected = get_u32(page, PAGE_CHECKSUM_OFFSET)?;
    if checksum(&page[0..PAGE_CHECKSUM_OFFSET]) != expected {
        return Err(corrupt("metadata checksum mismatch"));
    }
    let meta = Meta {
        generation: get_u64(page, 16)?,
        root: get_u64(page, 24)?,
        page_count: get_u64(page, 32)?,
        item_count: get_u64(page, 40)?,
        free_root: get_u64(page, 48)?,
        logical_bytes: get_u64(page, 56)?,
        user_tree_pages: get_u64(page, 64)?,
        free_tree_pages: get_u64(page, 72)?,
        free_pages: get_u64(page, 80)?,
        fallback_pages: get_u64(page, 88)?,
    };
    if meta.root < META_PAGES || meta.root >= meta.page_count {
        return Err(corrupt("metadata root is outside the file"));
    }
    if meta.free_root < META_PAGES || meta.free_root >= meta.page_count {
        return Err(corrupt("metadata free-tree root is outside the file"));
    }
    if meta.user_tree_pages == 0 || meta.free_tree_pages == 0 {
        return Err(corrupt("metadata contains an empty page graph"));
    }
    Ok(meta)
}

/// A metadata page reads back as the record that it was written from, provided
/// the record names roots inside the file and non-empty page graphs.
pub proof fn law_meta_round_trip(meta: Meta, page: Seq<u8>)
    requires
        meta_sane(meta),
        encodes(page, meta),
    ensures
        is_meta_page(page),
        meta_fields(page) == meta,
{
}

} // verus!
