//! What the bytes of pages mean, spelt out byte by byte.
use crate::format::{crc32, is_meta_page, meta_fields, page_ok, u16_at, u32_at, u64_at, FREE_LEAF};
use crate::free::{free_children, free_header, leaf_records};
use crate::insert::stored_form;
use crate::model::{readable, Pages};
use crate::node::{Entry, PageRef, Stored};
use crate::order::lt;
use crate::page::{
    chunk_of, disjoint, internal_cells, internal_links, internal_slot_valid, internal_valid,
    leaf_cells, leaf_entries, leaf_slot_valid, leaf_valid, next_of, overflow_valid,
};
use vstd::prelude::*;

verus! {

/// Integers lie in pages with their lowest byte first.
pub proof fn law_little_endian(bytes: Seq<u8>, at: int)
    ensures
        u16_at(bytes, at) == bytes[at] + 0x100 * bytes[at + 1],
        u32_at(bytes, at) == bytes[at] + 0x100 * bytes[at + 1] + 0x1_0000 * bytes[at + 2]
            + 0x100_0000 * bytes[at + 3],
        u64_at(bytes, at) == bytes[at] + 0x100 * bytes[at + 1] + 0x1_0000 * bytes[at + 2]
            + 0x100_0000 * bytes[at + 3] + 0x1_0000_0000 * bytes[at + 4] + 0x100_0000_0000
            * bytes[at + 5] + 0x1_0000_0000_0000 * bytes[at + 6] + 0x100_0000_0000_0000 * bytes[at
            + 7],
{
}

/// A page ends with the checksum of all bytes before it.
pub proof fn law_page_checksum(page: Seq<u8>)
    ensures
        page_ok(page) <==> page[4092] + 0x100 * page[4093] + 0x1_0000 * page[4094] + 0x100_0000
            * page[4095] == crc32(page.subrange(0, 4092)),
{
    law_little_endian(page, 4092);
}

/// A metadata page opens with the magic bytes, the version, the page size and the revision of
/// its layout, has its numbers in a fixed order, and is zero behind them up to the checksum;
/// both roots lie in the file and neither tree is without pages.
pub proof fn law_meta_page(page: Seq<u8>)
    requires
        page.len() == 4096,
    ensures
        is_meta_page(page) <==> {
            &&& page[0] == 0x41 && page[1] == 0x43 && page[2] == 0x54 && page[3] == 0x44
            &&& page[4] == 0x42 && page[5] == 0x00 && page[6] == 0x0d && page[7] == 0x0a
            &&& u16_at(page, 8) == 1
            &&& u16_at(page, 10) == 4096
            &&& u32_at(page, 12) == 2
            &&& forall|i: int| 96 <= i < 4092 ==> #[trigger] page[i] == 0
            &&& u32_at(page, 4092) == crc32(page.subrange(0, 4092))
            &&& 2 <= u64_at(page, 24) < u64_at(page, 32)
            &&& 2 <= u64_at(page, 48) < u64_at(page, 32)
            &&& u64_at(page, 64) > 0
            &&& u64_at(page, 72) > 0
        },
        meta_fields(page).generation == u64_at(page, 16),
        meta_fields(page).root == u64_at(page, 24),
        meta_fields(page).page_count == u64_at(page, 32),
        meta_fields(page).item_count == u64_at(page, 40),
        meta_fields(page).free_root == u64_at(page, 48),
        meta_fields(page).logical_bytes == u64_at(page, 56),
        meta_fields(page).user_tree_pages == u64_at(page, 64),
        meta_fields(page).free_tree_pages == u64_at(page, 72),
        meta_fields(page).free_pages == u64_at(page, 80),
        meta_fields(page).fallback_pages == u64_at(page, 88),
{
    let head = page.subrange(0, 8);
    assert(head[0] == page[0] && head[1] == page[1] && head[2] == page[2] && head[3] == page[3]);
    assert(head[4] == page[4] && head[5] == page[5] && head[6] == page[6] && head[7] == page[7]);
    if page[0] == 0x41 && page[1] == 0x43 && page[2] == 0x54 && page[3] == 0x44 && page[4] == 0x42
        && page[5] == 0x00 && page[6] == 0x0d && page[7] == 0x0a {
        assert(head =~= seq![0x41u8, 0x43, 0x54, 0x44, 0x42, 0x00, 0x0d, 0x0a]);
    }
}

/// A leaf page lists its entries in slots: where the cell starts, how long the key is, how long
/// the value is, and the head of its chain. A cell holds the key and, if there is no chain, the
/// value behind it.
pub proof fn law_leaf_page(page: Seq<u8>, i: int)
    ensures
        leaf_entries(page).len() == u16_at(page, 2),
        0 <= i < u16_at(page, 2) ==> {
            let start = u16_at(page, 32 + 16 * i) as int;
            let end = start + u16_at(page, 34 + 16 * i);
            let len = u32_at(page, 36 + 16 * i);
            let head = u64_at(page, 40 + 16 * i);
            leaf_entries(page)[i] == Entry {
                key: page.subrange(start, end),
                value: if head == 0 {
                    Stored::Inline(page.subrange(end, end + len))
                } else {
                    Stored::Overflow { head, len: len as nat }
                },
            }
        },
{
}

/// A leaf page is accepted exactly where its reserved bytes are zero, it has no more slots than
/// fit, its cells lie between the slots and the checksum and apart from each other, no key is
/// too long, exactly the values that are too long for the page have a chain, and the keys
/// increase.
pub proof fn law_leaf_is_checked(page: Seq<u8>)
    ensures
        leaf_valid(page) <==> {
            &&& page[1] == 0
            &&& forall|i: int| 4 <= i < 32 ==> #[trigger] page[i] == 0
            &&& u16_at(page, 2) <= 253
            &&& forall|i: int|
                0 <= i < u16_at(page, 2) ==> {
                    let cell = #[trigger] leaf_cells(page)[i];
                    let head = u64_at(page, 40 + 16 * i);
                    let len = u32_at(page, 36 + 16 * i);
                    &&& cell.0 == u16_at(page, 32 + 16 * i)
                    &&& cell.1 == cell.0 + u16_at(page, 34 + 16 * i) + if head == 0 {
                        len as int
                    } else {
                        0
                    }
                    &&& 32 + 16 * u16_at(page, 2) <= cell.0
                    &&& cell.1 <= 4092
                    &&& u16_at(page, 34 + 16 * i) <= 1024
                    &&& head == 0 <==> len <= 1024
                }
            &&& forall|i: int, j: int|
                0 <= i < j < u16_at(page, 2) ==> lt(
                    (#[trigger] leaf_entries(page)[i]).key,
                    (#[trigger] leaf_entries(page)[j]).key,
                )
            &&& forall|i: int, j: int|
                0 <= i < j < u16_at(page, 2) ==> (#[trigger] leaf_cells(page)[i]).1 <= (
                #[trigger] leaf_cells(page)[j]).0 || leaf_cells(page)[j].1 <= leaf_cells(page)[i].0
        },
{
    reveal(leaf_valid);
    if leaf_valid(page) {
        assert forall|i: int| 4 <= i < 32 implies #[trigger] page[i] == 0 by {}
        assert forall|i: int| 0 <= i < u16_at(page, 2) implies {
            let cell = #[trigger] leaf_cells(page)[i];
            let head = u64_at(page, 40 + 16 * i);
            let len = u32_at(page, 36 + 16 * i);
            &&& cell.0 == u16_at(page, 32 + 16 * i)
            &&& cell.1 == cell.0 + u16_at(page, 34 + 16 * i) + if head == 0 {
                len as int
            } else {
                0
            }
            &&& 32 + 16 * u16_at(page, 2) <= cell.0
            &&& cell.1 <= 4092
            &&& u16_at(page, 34 + 16 * i) <= 1024
            &&& head == 0 <==> len <= 1024
        } by {
            assert(leaf_slot_valid(page, i));
        }
    } else {
        if {
            &&& page[1] == 0
            &&& forall|i: int| 4 <= i < 32 ==> #[trigger] page[i] == 0
            &&& u16_at(page, 2) <= 253
            &&& forall|i: int|
                0 <= i < u16_at(page, 2) ==> {
                    let cell = #[trigger] leaf_cells(page)[i];
                    let head = u64_at(page, 40 + 16 * i);
                    let len = u32_at(page, 36 + 16 * i);
                    &&& 32 + 16 * u16_at(page, 2) <= cell.0
                    &&& cell.1 <= 4092
                    &&& u16_at(page, 34 + 16 * i) <= 1024
                    &&& head == 0 <==> len <= 1024
                }
            &&& forall|i: int, j: int|
                0 <= i < j < u16_at(page, 2) ==> lt(
                    (#[trigger] leaf_entries(page)[i]).key,
                    (#[trigger] leaf_entries(page)[j]).key,
                )
            &&& disjoint(leaf_cells(page))
        } {
            assert forall|index: int| 0 <= index < u16_at(page, 2) implies #[trigger] leaf_slot_valid(
                page,
                index,
            ) by {
                assert(leaf_cells(page)[index].1 <= 4092);
            }
        }
    }
}

/// An internal page names its first child in its header, and the others in slots with the key
/// that separates each from what is left of it.
pub proof fn law_internal_page(page: Seq<u8>, i: int)
    ensures
        internal_links(page).len() == u16_at(page, 2) + 1,
        internal_links(page)[0].page == PageRef::Committed(u64_at(page, 8)),
        0 <= i < u16_at(page, 2) ==> {
            let start = u16_at(page, 32 + 16 * i) as int;
            &&& internal_links(page)[i + 1].key == page.subrange(
                start,
                start + u16_at(page, 34 + 16 * i),
            )
            &&& internal_links(page)[i + 1].page == PageRef::Committed(u64_at(page, 40 + 16 * i))
        },
{
}

/// An internal page that is accepted has zero reserved bytes, no more slots than fit, children
/// in the snapshot, keys that increase and are not too long, and cells that lie between the slots
/// and the checksum and apart from each other.
pub proof fn law_internal_is_checked(page: Seq<u8>, page_count: u64)
    requires
        internal_valid(page, page_count),
    ensures
        page[1] == 0,
        forall|i: int| 4 <= i < 8 ==> #[trigger] page[i] == 0,
        forall|i: int| 16 <= i < 32 ==> #[trigger] page[i] == 0,
        u16_at(page, 2) <= 253,
        2 <= u64_at(page, 8) < page_count,
        forall|i: int|
            0 <= i < u16_at(page, 2) ==> {
                let cell = #[trigger] internal_cells(page)[i];
                &&& cell.0 == u16_at(page, 32 + 16 * i)
                &&& cell.1 == cell.0 + u16_at(page, 34 + 16 * i)
                &&& 32 + 16 * u16_at(page, 2) <= cell.0
                &&& cell.1 <= 4092
                &&& u16_at(page, 34 + 16 * i) <= 1024
                &&& page[36 + 16 * i] == 0 && page[37 + 16 * i] == 0
                &&& page[38 + 16 * i] == 0 && page[39 + 16 * i] == 0
                &&& 2 <= u64_at(page, 40 + 16 * i) < page_count
            },
        forall|i: int, j: int|
            1 <= i < j <= u16_at(page, 2) ==> lt(
                (#[trigger] internal_links(page)[i]).key,
                (#[trigger] internal_links(page)[j]).key,
            ),
        forall|i: int, j: int|
            0 <= i < j < u16_at(page, 2) ==> (#[trigger] internal_cells(page)[i]).1 <= (
            #[trigger] internal_cells(page)[j]).0 || internal_cells(page)[j].1 <= internal_cells(
                page,
            )[i].0,
{
    reveal(internal_valid);
    assert forall|i: int| 0 <= i < u16_at(page, 2) implies {
        let cell = #[trigger] internal_cells(page)[i];
        &&& cell.0 == u16_at(page, 32 + 16 * i)
        &&& cell.1 == cell.0 + u16_at(page, 34 + 16 * i)
        &&& 32 + 16 * u16_at(page, 2) <= cell.0
        &&& cell.1 <= 4092
        &&& u16_at(page, 34 + 16 * i) <= 1024
        &&& page[36 + 16 * i] == 0 && page[37 + 16 * i] == 0
        &&& page[38 + 16 * i] == 0 && page[39 + 16 * i] == 0
        &&& 2 <= u64_at(page, 40 + 16 * i) < page_count
    } by {
        assert(internal_slot_valid(page, page_count, i));
    }
}

/// An overflow page is accepted exactly where it holds a piece that is not empty and fits, is
/// zero wherever nothing is stored, and the next page of the chain, if there is one, lies in the
/// snapshot. The piece starts behind the header.
pub proof fn law_overflow_page(page: Seq<u8>, page_count: u64)
    ensures
        overflow_valid(page, page_count) <==> {
            &&& page[1] == 0
            &&& page[4] == 0 && page[5] == 0 && page[6] == 0 && page[7] == 0
            &&& 0 < u16_at(page, 2) <= 4076
            &&& u64_at(page, 8) == 0 || 2 <= u64_at(page, 8) < page_count
            &&& forall|i: int| 16 + u16_at(page, 2) <= i < 4092 ==> #[trigger] page[i] == 0
        },
        chunk_of(page) == page.subrange(16, 16 + u16_at(page, 2)),
        next_of(page) == u64_at(page, 8),
{
    if page[4] == 0 && page[5] == 0 && page[6] == 0 && page[7] == 0 {
        assert forall|i: int| 4 <= i < 8 implies #[trigger] page[i] == 0 by {
            assert(i == 4 || i == 5 || i == 6 || i == 7);
        }
    }
}

/// A leaf of the free tree lists free pages and the last generations that used them, an internal
/// page its children; both are zero wherever nothing is stored.
pub proof fn law_free_page(page: Seq<u8>, kind: u8, i: int)
    ensures
        leaf_records(page).len() == u16_at(page, 2),
        0 <= i < u16_at(page, 2) ==> leaf_records(page)[i] == (
            u64_at(page, 32 + 16 * i),
            u64_at(page, 40 + 16 * i),
        ),
        free_children(page).len() == u16_at(page, 2) + 1,
        free_children(page)[0] == u64_at(page, 8),
        0 <= i < u16_at(page, 2) ==> free_children(page)[i + 1] == u64_at(page, 40 + 16 * i),
        free_header(page, kind) <==> {
            &&& page[1] == 0
            &&& forall|k: int| 4 <= k < 8 ==> #[trigger] page[k] == 0
            &&& kind == FREE_LEAF ==> forall|k: int| 8 <= k < 16 ==> #[trigger] page[k] == 0
            &&& forall|k: int| 16 <= k < 32 ==> #[trigger] page[k] == 0
            &&& u16_at(page, 2) <= 253
            &&& forall|k: int| 32 + 16 * u16_at(page, 2) <= k < 4092 ==> #[trigger] page[k] == 0
        },
{
    if kind == FREE_LEAF && (forall|k: int| 8 <= k < 16 ==> #[trigger] page[k] == 0) && (forall|
        k: int,
    |
        16 <= k < 32 ==> #[trigger] page[k] == 0) {
        assert forall|k: int| 8 <= k < 32 implies #[trigger] page[k] == 0 by {
            if k >= 16 {
                assert(page[k] == 0);
            }
        }
    }
}

/// A page of a snapshot is read exactly where it lies behind the metadata pages, is stored and
/// has a right checksum.
pub proof fn law_readable_pages(pages: Pages, page_count: u64, id: u64)
    ensures
        readable(pages, page_count, id) <==> 2 <= id < page_count && pages.contains_key(id)
            && pages[id].len() == 4096 && page_ok(pages[id]),
{
}

/// A value of at most 1024 bytes is stored in its leaf as it is, and any other waits to be
/// written to a chain.
pub proof fn law_short_values_stay_in_the_leaf(value: Seq<u8>)
    ensures
        value.len() <= 1024 ==> stored_form(value) == Stored::Inline(value),
        value.len() > 1024 ==> stored_form(value) == Stored::Pending(value),
{
}

} // verus!
