//! The page encoding of the nodes of the user tree and of overflow chains.
//!
//! A leaf page holds a slot array that grows up from the page header and cells
//! that grow down from the checksum. A slot names a cell by offset, gives the
//! lengths of its key and value, and the head of an overflow chain when the value
//! is too large to be stored inline. An internal page holds the identifier of its
//! first child in the header, and one slot for each separator key and the child
//! to its right. An overflow page holds one piece of a large value and the
//! identifier of the next page of the chain, or zero at its end.
use crate::error::{corrupt, outside_snapshot, Error, Result};
use crate::format::{
    all_zero, finish_page, get_u16, get_u32, get_u64, in_snapshot, is_zero, page_ok, put_bytes,
    put_u16, put_u32, put_u64, u16_at, u32_at, u64_at, INTERNAL, LEAF, MAX_KEY_SIZE, META_PAGES,
    OVERFLOW, PAGE_HEADER, PAGE_SIZE, SLOT_SIZE,
};
use crate::node::{
    child_at, entries_fit, entries_of, entry_fits, inline_len, internal_encoded_size, internal_size,
    key_bytes, leaf_encoded_size, leaf_size, lemma_entries_push, lemma_key_bytes_step,
    lemma_payload_step, links_of, payload, sorted_entries, value_payload_size, Child, Entry,
    LeafEntry, Link, PageRef, Stored, StoredValue, INLINE_VALUE_LIMIT, MAX_SLOTS, OVERFLOW_CAPACITY,
    OVERFLOW_HEADER, PAGE_END,
};
use crate::order::{compare, group_order, le, lemma_lt_transitive, lt, Order};
use vstd::prelude::*;

verus! {

// ---------------------------------------------------------------------------
// What pages hold
// ---------------------------------------------------------------------------

/// Offset of a slot.
pub open spec fn slot_at(index: int) -> int {
    PAGE_HEADER + index * SLOT_SIZE
}

/// Number of slots of a tree page.
pub open spec fn count_of(page: Seq<u8>) -> int {
    u16_at(page, 2) as int
}

/// Offset of the cell that a slot names.
pub open spec fn cell_start(page: Seq<u8>, index: int) -> int {
    u16_at(page, slot_at(index)) as int
}

/// Offset of the end of the key in the cell that a slot names.
pub open spec fn key_end(page: Seq<u8>, index: int) -> int {
    cell_start(page, index) + u16_at(page, slot_at(index) + 2)
}

/// The key in the cell that a slot names.
pub open spec fn cell_key(page: Seq<u8>, index: int) -> Seq<u8> {
    page.subrange(cell_start(page, index), key_end(page, index))
}

/// Length of the value that a slot of a leaf page declares.
pub open spec fn value_len(page: Seq<u8>, index: int) -> int {
    u32_at(page, slot_at(index) + 4) as int
}

/// Page that a slot points to: the head of an overflow chain in a leaf page,
/// the child right of the separator in an internal page.
pub open spec fn slot_page(page: Seq<u8>, index: int) -> u64 {
    u64_at(page, slot_at(index) + 8)
}

/// Offset of the end of the cell that a slot of a leaf page names.
pub open spec fn leaf_cell_end(page: Seq<u8>, index: int) -> int {
    if slot_page(page, index) == 0 {
        key_end(page, index) + value_len(page, index)
    } else {
        key_end(page, index)
    }
}

/// The entry that a slot of a leaf page describes.
pub open spec fn leaf_entry(page: Seq<u8>, index: int) -> Entry {
    Entry {
        key: cell_key(page, index),
        value: if slot_page(page, index) == 0 {
            Stored::Inline(page.subrange(key_end(page, index), leaf_cell_end(page, index)))
        } else {
            Stored::Overflow {
                head: slot_page(page, index),
                len: value_len(page, index) as nat,
            }
        },
    }
}

/// The entries of a leaf page.
pub open spec fn leaf_entries(page: Seq<u8>) -> Seq<Entry> {
    Seq::new(count_of(page) as nat, |index: int| leaf_entry(page, index))
}

/// Whether a slot lies in the page and its cell between the slots and the checksum.
pub open spec fn leaf_slot_sound(page: Seq<u8>, index: int) -> bool {
    &&& 0 <= index < count_of(page)
    &&& slot_at(index) + SLOT_SIZE <= PAGE_SIZE
    &&& slot_at(count_of(page)) <= cell_start(page, index)
    &&& leaf_cell_end(page, index) <= PAGE_END
}

/// Whether no two ranges share a byte.
pub open spec fn disjoint(ranges: Seq<(int, int)>) -> bool {
    forall|i: int, j: int|
        0 <= i < j < ranges.len() ==> {
            ||| (#[trigger] ranges[i]).1 <= (#[trigger] ranges[j]).0
            ||| ranges[j].1 <= ranges[i].0
        }
}

/// The cells of a leaf page.
pub open spec fn leaf_cells(page: Seq<u8>) -> Seq<(int, int)> {
    Seq::new(
        count_of(page) as nat,
        |index: int| (cell_start(page, index), leaf_cell_end(page, index)),
    )
}

/// Whether the reserved bytes of a tree page of the given kind are zero.
pub open spec fn reserved_zero(page: Seq<u8>, kind: u8) -> bool {
    &&& page[1] == 0
    &&& all_zero(page, 4, 8)
    &&& if kind == LEAF {
        all_zero(page, 8, PAGE_HEADER as int)
    } else {
        kind == INTERNAL && all_zero(page, 16, PAGE_HEADER as int)
    }
}

/// Whether a slot of a leaf page is sound and its entry keeps to the size limits.
pub open spec fn leaf_slot_valid(page: Seq<u8>, index: int) -> bool {
    &&& leaf_slot_sound(page, index)
    &&& u16_at(page, slot_at(index) + 2) <= MAX_KEY_SIZE
    &&& slot_page(page, index) == 0 <==> value_len(page, index) <= INLINE_VALUE_LIMIT
}

/// Whether a page is a well-formed leaf: reserved bytes are zero, slots are sound,
/// entries keep to the size limits, keys increase and cells do not overlap.
#[verifier::opaque]
pub open spec fn leaf_valid(page: Seq<u8>) -> bool {
    &&& reserved_zero(page, LEAF)
    &&& count_of(page) <= MAX_SLOTS
    &&& forall|index: int| 0 <= index < count_of(page) ==> #[trigger] leaf_slot_valid(page, index)
    &&& sorted_entries(leaf_entries(page))
    &&& disjoint(leaf_cells(page))
}

/// The children of an internal page. The key of the first child is not stored and
/// stands here as empty.
pub open spec fn internal_links(page: Seq<u8>) -> Seq<Link> {
    Seq::new(
        (count_of(page) + 1) as nat,
        |index: int|
            if index == 0 {
                Link { key: Seq::empty(), page: PageRef::Committed(u64_at(page, 8)) }
            } else {
                Link {
                    key: cell_key(page, index - 1),
                    page: PageRef::Committed(slot_page(page, index - 1)),
                }
            },
    )
}

/// The cells of an internal page.
pub open spec fn internal_cells(page: Seq<u8>) -> Seq<(int, int)> {
    Seq::new(
        count_of(page) as nat,
        |index: int| (cell_start(page, index), key_end(page, index)),
    )
}

/// Whether keys increase from the second child on.
pub open spec fn sorted_links(links: Seq<Link>) -> bool {
    forall|i: int, j: int|
        1 <= i < j < links.len() ==> lt(#[trigger] links[i].key, #[trigger] links[j].key)
}

/// Whether a slot of an internal page is well formed.
pub open spec fn internal_slot_valid(page: Seq<u8>, page_count: u64, index: int) -> bool {
    &&& slot_at(count_of(page)) <= cell_start(page, index)
    &&& key_end(page, index) <= PAGE_END
    &&& u16_at(page, slot_at(index) + 2) <= MAX_KEY_SIZE
    &&& all_zero(page, slot_at(index) + 4, slot_at(index) + 8)
    &&& in_snapshot(slot_page(page, index), page_count)
}

/// Whether a page is a well-formed internal node: reserved bytes are zero, children
/// lie in the snapshot, separators increase and cells do not overlap.
#[verifier::opaque]
pub open spec fn internal_valid(page: Seq<u8>, page_count: u64) -> bool {
    &&& reserved_zero(page, INTERNAL)
    &&& count_of(page) <= MAX_SLOTS
    &&& in_snapshot(u64_at(page, 8), page_count)
    &&& forall|index: int|
        0 <= index < count_of(page) ==> #[trigger] internal_slot_valid(page, page_count, index)
    &&& sorted_links(internal_links(page))
    &&& disjoint(internal_cells(page))
}

/// The piece of a value that an overflow page holds.
pub open spec fn chunk_of(page: Seq<u8>) -> Seq<u8> {
    page.subrange(OVERFLOW_HEADER as int, OVERFLOW_HEADER + u16_at(page, 2))
}

/// The page that follows in an overflow chain, or zero.
pub open spec fn next_of(page: Seq<u8>) -> u64 {
    u64_at(page, 8)
}

/// Whether a page is a well-formed link of an overflow chain.
pub open spec fn overflow_valid(page: Seq<u8>, page_count: u64) -> bool {
    &&& page[1] == 0
    &&& all_zero(page, 4, 8)
    &&& 0 < u16_at(page, 2) <= OVERFLOW_CAPACITY
    &&& next_of(page) == 0 || in_snapshot(next_of(page), page_count)
    &&& all_zero(page, OVERFLOW_HEADER + u16_at(page, 2), PAGE_END as int)
}

// ---------------------------------------------------------------------------
// Sorting
// ---------------------------------------------------------------------------

/// Whether `order` lists every number below `len` exactly once.
pub open spec fn is_permutation(order: Seq<int>, len: nat) -> bool {
    &&& order.len() == len
    &&& forall|i: int| 0 <= i < len ==> 0 <= #[trigger] order[i] < len
    &&& forall|i: int, j: int|
        0 <= i < j < len ==> #[trigger] order[i] != #[trigger] order[j]
    &&& forall|k: int| 0 <= k < len ==> #[trigger] order.contains(k)
}

/// Whether `after` holds the elements of `before` in the given order.
pub open spec fn rearranged<T>(before: Seq<T>, after: Seq<T>, order: Seq<int>) -> bool {
    &&& is_permutation(order, before.len())
    &&& after.len() == before.len()
    &&& forall|i: int| 0 <= i < after.len() ==> #[trigger] after[i] == before[order[i]]
}

/// Calls `slice::sort_unstable_by_key` with the first component as the key. The
/// contract claims that it only rearranges the items and leaves them with their
/// first components in non-decreasing order.
#[verifier::external_body]
pub(crate) fn sort_by_first<T>(items: &mut Vec<(u64, T)>)
    ensures
        exists|order: Seq<int>| rearranged(old(items)@, final(items)@, order),
        forall|i: int, j: int|
            0 <= i < j < final(items)@.len() ==> (#[trigger] final(items)@[i]).0 <= (
            #[trigger] final(items)@[j]).0,
{
    items.sort_unstable_by_key(|item| item.0);
}

/// The ranges in the byte positions that they span.
pub open spec fn ranges_of(ranges: Seq<(usize, usize)>) -> Seq<(int, int)> {
    ranges.map_values(|range: (usize, usize)| (range.0 as int, range.1 as int))
}

/// Checks that no two ranges of a page overlap.
fn validate_disjoint_ranges(ranges: &Vec<(usize, usize)>) -> (result: Result<()>)
    requires
        forall|i: int|
            0 <= i < ranges@.len() ==> (#[trigger] ranges@[i]).0 <= ranges@[i].1 <= PAGE_SIZE,
    ensures
        disjoint(ranges_of(ranges@)) ==> result is Ok,
        !disjoint(ranges_of(ranges@)) ==> {
            &&& result matches Err(Error::Corrupt(message))
            &&& message@ == "page cells overlap"@
        },
{
    let mut keyed: Vec<(u64, (usize, usize))> = Vec::new();
    let mut i: usize = 0;
    while i < ranges.len()
        invariant
            i <= ranges@.len(),
            keyed@.len() == i,
            forall|k: int|
                0 <= k < ranges@.len() ==> (#[trigger] ranges@[k]).0 <= ranges@[k].1 <= PAGE_SIZE,
            forall|k: int|
                0 <= k < i ==> (#[trigger] keyed@[k]).1 == ranges@[k] && keyed@[k].0 == ranges@[k].0
                    * 0x1_0000 + ranges@[k].1,
        decreases ranges@.len() - i,
    {
        let range = ranges[i];
        keyed.push((range.0 as u64 * 0x1_0000 + range.1 as u64, range));
        i += 1;
    }
    let ghost unsorted = keyed@;
    sort_by_first(&mut keyed);
    let ghost order = choose|order: Seq<int>| rearranged(unsorted, keyed@, order);
    assert(forall|k: int|
        0 <= k < keyed@.len() ==> (#[trigger] keyed@[k]).1 == ranges@[order[k]] && keyed@[k].0
            == ranges@[order[k]].0 * 0x1_0000 + ranges@[order[k]].1);
    let mut at: usize = 1;
    while at < keyed.len()
        invariant
            1 <= at,
            at <= keyed@.len() || at == 1,
            keyed@.len() == ranges@.len(),
            is_permutation(order, ranges@.len()),
            forall|k: int|
                0 <= k < ranges@.len() ==> (#[trigger] ranges@[k]).0 <= ranges@[k].1 <= PAGE_SIZE,
            forall|k: int|
                0 <= k < keyed@.len() ==> (#[trigger] keyed@[k]).1 == ranges@[order[k]]
                    && keyed@[k].0 == ranges@[order[k]].0 * 0x1_0000 + ranges@[order[k]].1,
            forall|a: int, b: int|
                0 <= a < b < keyed@.len() ==> (#[trigger] keyed@[a]).0 <= (#[trigger] keyed@[b]).0,
            forall|a: int, b: int|
                0 <= a < b < at && b < keyed@.len() ==> (#[trigger] keyed@[a]).1.1 <= (
                #[trigger] keyed@[b]).1.0,
        decreases keyed@.len() - at,
    {
        if keyed[at - 1].1.1 > keyed[at].1.0 {
            proof {
                let p = order[at - 1];
                let n = order[at as int];
                assert(keyed@[at - 1].0 <= keyed@[at as int].0);
                assert(p != n);
                let spans = ranges_of(ranges@);
                if p < n {
                    assert(spans[p].1 > spans[n].0 && spans[n].1 > spans[p].0);
                } else {
                    assert(spans[p].1 > spans[n].0 && spans[n].1 > spans[p].0);
                }
            }
            return Err(corrupt("page cells overlap"));
        }
        assert forall|a: int| 0 <= a < at implies (#[trigger] keyed@[a]).1.1 <= keyed@[at as int].1.0 by {
            if a < at - 1 {
                assert(keyed@[a].1.1 <= keyed@[at - 1].1.0);
                assert(keyed@[at - 1].1.0 <= keyed@[at - 1].1.1);
            }
        }
        at += 1;
    }
    proof {
        let spans = ranges_of(ranges@);
        assert forall|i: int, j: int| 0 <= i < j < spans.len() implies {
            ||| (#[trigger] spans[i]).1 <= (#[trigger] spans[j]).0
            ||| spans[j].1 <= spans[i].0
        } by {
            assert(order.contains(i) && order.contains(j));
            let a = choose|a: int| 0 <= a < order.len() && order[a] == i;
            let b = choose|b: int| 0 <= b < order.len() && order[b] == j;
            assert(keyed@[a].1 == ranges@[i] && keyed@[b].1 == ranges@[j]);
            assert(a != b);
            if a < b {
                assert(keyed@[a].1.1 <= keyed@[b].1.0);
            } else {
                assert(keyed@[b].1.1 <= keyed@[a].1.0);
            }
        }
    }
    Ok(())
}

// ---------------------------------------------------------------------------
// Reading pages
// ---------------------------------------------------------------------------

/// Where a slot of a leaf page finds its cell.
pub struct LeafSlot {
    pub key_start: usize,
    pub key_end: usize,
    pub value_end: usize,
    pub value_len: usize,
    pub overflow: u64,
}

/// Reads one slot of a leaf page.
pub fn leaf_slot(page: &[u8; PAGE_SIZE], index: usize) -> (result: Result<LeafSlot>)
    ensures
        match result {
            Ok(slot) => {
                &&& leaf_slot_sound(page@, index as int)
                &&& slot.key_start == cell_start(page@, index as int)
                &&& slot.key_end == key_end(page@, index as int)
                &&& slot.value_end == leaf_cell_end(page@, index as int)
                &&& slot.value_len == value_len(page@, index as int)
                &&& slot.overflow == slot_page(page@, index as int)
            },
            Err(error) => error is Corrupt && !leaf_slot_sound(page@, index as int),
        },
{
    let slot = match index.checked_mul(SLOT_SIZE) {
        Some(offset) => match PAGE_HEADER.checked_add(offset) {
            Some(slot) => slot,
            None => {
                return Err(corrupt("slot overflow"));
            },
        },
        None => {
            return Err(corrupt("slot overflow"));
        },
    };
    if slot > PAGE_SIZE - SLOT_SIZE {
        return Err(corrupt("leaf slot exceeds page"));
    }
    let data_offset = get_u16(page, slot)? as usize;
    let key_len = get_u16(page, slot + 2)? as usize;
    let value_len = get_u32(page, slot + 4)? as usize;
    let overflow = get_u64(page, slot + 8)?;
    let value_start = data_offset + key_len;
    let inline_len = if overflow == 0 {
        value_len
    } else {
        0
    };
    let value_end = match value_start.checked_add(inline_len) {
        Some(end) => end,
        None => {
            return Err(corrupt("leaf cell overflow"));
        },
    };
    let count = get_u16(page, 2)? as usize;
    let slots_end = PAGE_HEADER + count * SLOT_SIZE;
    if index >= count || data_offset < slots_end || value_end > PAGE_END {
        return Err(corrupt("leaf cell exceeds page"));
    }
    Ok(
        LeafSlot {
            key_start: data_offset,
            key_end: value_start,
            value_end,
            value_len,
            overflow,
        },
    )
}

/// Checks the reserved bytes of a tree page.
fn validate_reserved(page: &[u8; PAGE_SIZE], kind: u8) -> (result: Result<()>)
    ensures
        reserved_zero(page@, kind) ==> result is Ok,
        !reserved_zero(page@, kind) ==> {
            &&& result matches Err(Error::Corrupt(message))
            &&& message@ == "page reserved bytes are nonzero"@
        },
{
    let invalid = page[1] != 0 || !is_zero(page, 4, 8) || if kind == LEAF {
        !is_zero(page, 8, PAGE_HEADER)
    } else if kind == INTERNAL {
        !is_zero(page, 16, PAGE_HEADER)
    } else {
        true
    };
    if invalid {
        return Err(corrupt("page reserved bytes are nonzero"));
    }
    Ok(())
}

/// Reads the slot count of a tree page.
fn slot_count(page: &[u8; PAGE_SIZE]) -> (result: Result<usize>)
    ensures
        match result {
            Ok(count) => count == count_of(page@) && count <= MAX_SLOTS,
            Err(Error::Corrupt(message)) => count_of(page@) > MAX_SLOTS && message@
                == "page slot count exceeds capacity"@,
            Err(_) => false,
        },
{
    let count = get_u16(page, 2)? as usize;
    if count > MAX_SLOTS {
        return Err(corrupt("page slot count exceeds capacity"));
    }
    Ok(count)
}

/// Checks a leaf page.
pub fn validate_leaf(page: &[u8; PAGE_SIZE]) -> (result: Result<()>)
    ensures
        match result {
            Ok(_) => leaf_valid(page@),
            Err(error) => error is Corrupt && !leaf_valid(page@),
        },
{
    broadcast use group_order;

    proof {
        reveal(leaf_valid);
    }
    validate_reserved(page, LEAF)?;
    let count = slot_count(page)?;
    let ghost entries = leaf_entries(page@);
    let mut ranges: Vec<(usize, usize)> = Vec::new();
    let mut previous: Option<(usize, usize)> = None;
    let mut index: usize = 0;
    while index < count
        invariant
            index <= count <= MAX_SLOTS,
            count == count_of(page@),
            entries == leaf_entries(page@),
            ranges@.len() == index,
            forall|i: int| 0 <= i < index ==> #[trigger] leaf_slot_valid(page@, i),
            forall|i: int|
                0 <= i < index ==> (#[trigger] ranges@[i]).0 == cell_start(page@, i)
                    && ranges@[i].1 == leaf_cell_end(page@, i) && ranges@[i].0 <= ranges@[i].1
                    <= PAGE_SIZE,
            forall|i: int, j: int|
                0 <= i < j < index ==> lt(#[trigger] entries[i].key, #[trigger] entries[j].key),
            match previous {
                Some((start, end)) => index > 0 && start <= end <= PAGE_SIZE && start == cell_start(
                    page@,
                    index - 1,
                ) && end == key_end(page@, index - 1),
                None => index == 0,
            },
        decreases count - index,
    {
        let slot = match leaf_slot(page, index) {
            Ok(slot) => slot,
            Err(error) => {
                proof {
                    reveal(leaf_valid);
                    assert(!leaf_slot_valid(page@, index as int));
                }
                return Err(error);
            },
        };
        let key = &page[slot.key_start..slot.key_end];
        proof {
            reveal(leaf_valid);
            assert(entries[index as int].key == key@);
        }
        if key.len() > MAX_KEY_SIZE {
            assert(!leaf_slot_valid(page@, index as int));
            return Err(corrupt("leaf key exceeds the format limit"));
        }
        if let Some((start, end)) = previous {
            let prior = &page[start..end];
            assert(entries[index - 1].key == prior@);
            if compare(prior, key) != Order::Less {
                assert(!lt(entries[index - 1].key, entries[index as int].key));
                return Err(corrupt("leaf keys are not strictly ordered"));
            }
        }
        if slot.overflow == 0 && slot.value_len > INLINE_VALUE_LIMIT {
            assert(!leaf_slot_valid(page@, index as int));
            return Err(corrupt("large value is stored inline"));
        }
        if slot.overflow != 0 && slot.value_len <= INLINE_VALUE_LIMIT {
            assert(!leaf_slot_valid(page@, index as int));
            return Err(corrupt("small value uses overflow storage"));
        }
        assert(leaf_slot_valid(page@, index as int));
        assert(index > 0 ==> lt(entries[index - 1].key, entries[index as int].key));
        assert forall|i: int| 0 <= i < index implies lt(
            #[trigger] entries[i].key,
            entries[index as int].key,
        ) by {
            if i < index - 1 {
                lemma_lt_transitive(
                    entries[i].key,
                    entries[index - 1].key,
                    entries[index as int].key,
                );
            }
        }
        ranges.push((slot.key_start, slot.value_end));
        previous = Some((slot.key_start, slot.key_end));
        index += 1;
    }
    assert(ranges_of(ranges@) =~= leaf_cells(page@));
    validate_disjoint_ranges(&ranges)
}

/// Whether a page identifier lies in the snapshot.
pub fn validate_page_id(page_id: u64, page_count: u64) -> (result: Result<()>)
    ensures
        match result {
            Ok(_) => in_snapshot(page_id, page_count),
            Err(error) => error is Corrupt && !in_snapshot(page_id, page_count),
        },
{
    if page_id < META_PAGES || page_id >= page_count {
        return Err(outside_snapshot(page_id));
    }
    Ok(())
}

/// Checks an internal page.
pub fn validate_internal(page: &[u8; PAGE_SIZE], page_count: u64) -> (result: Result<()>)
    ensures
        match result {
            Ok(_) => internal_valid(page@, page_count),
            Err(error) => error is Corrupt && !internal_valid(page@, page_count),
        },
{
    broadcast use group_order;

    proof {
        reveal(internal_valid);
    }
    validate_reserved(page, INTERNAL)?;
    let count = slot_count(page)?;
    validate_page_id(get_u64(page, 8)?, page_count)?;
    let slots_end = PAGE_HEADER + count * SLOT_SIZE;
    let ghost links = internal_links(page@);
    let mut ranges: Vec<(usize, usize)> = Vec::new();
    let mut previous: Option<(usize, usize)> = None;
    let mut index: usize = 0;
    while index < count
        invariant
            index <= count <= MAX_SLOTS,
            count == count_of(page@),
            slots_end == slot_at(count as int),
            links == internal_links(page@),
            ranges@.len() == index,
            forall|i: int| 0 <= i < index ==> #[trigger] internal_slot_valid(page@, page_count, i),
            forall|i: int|
                0 <= i < index ==> (#[trigger] ranges@[i]).0 == cell_start(page@, i)
                    && ranges@[i].1 == key_end(page@, i) && ranges@[i].0 <= ranges@[i].1
                    <= PAGE_SIZE,
            forall|i: int, j: int|
                1 <= i < j <= index ==> lt(#[trigger] links[i].key, #[trigger] links[j].key),
            match previous {
                Some((start, end)) => index > 0 && start <= end <= PAGE_SIZE && start == cell_start(
                    page@,
                    index - 1,
                ) && end == key_end(page@, index - 1),
                None => index == 0,
            },
        decreases count - index,
    {
        proof {
            reveal(internal_valid);
        }
        let offset = PAGE_HEADER + index * SLOT_SIZE;
        let data_offset = get_u16(page, offset)? as usize;
        let key_len = get_u16(page, offset + 2)? as usize;
        let end = data_offset + key_len;
        if data_offset < slots_end || end > PAGE_END || key_len > MAX_KEY_SIZE {
            assert(!internal_slot_valid(page@, page_count, index as int));
            return Err(corrupt("internal key exceeds page"));
        }
        if !is_zero(page, offset + 4, offset + 8) {
            assert(!internal_slot_valid(page@, page_count, index as int));
            return Err(corrupt("internal slot reserved bytes are nonzero"));
        }
        let key = &page[data_offset..end];
        assert(links[index + 1].key == key@);
        if let Some((start, end)) = previous {
            let prior = &page[start..end];
            assert(links[index as int].key == prior@);
            if compare(prior, key) != Order::Less {
                assert(!lt(links[index as int].key, links[index + 1].key));
                return Err(corrupt("internal keys are not strictly ordered"));
            }
        }
        let child = get_u64(page, offset + 8)?;
        match validate_page_id(child, page_count) {
            Ok(_) => {},
            Err(error) => {
                assert(!internal_slot_valid(page@, page_count, index as int));
                return Err(error);
            },
        }
        assert(internal_slot_valid(page@, page_count, index as int));
        assert(index > 0 ==> lt(links[index as int].key, links[index + 1].key));
        assert forall|i: int| 1 <= i <= index implies lt(
            #[trigger] links[i].key,
            links[index + 1].key,
        ) by {
            if i < index {
                lemma_lt_transitive(links[i].key, links[index as int].key, links[index + 1].key);
            }
        }
        ranges.push((data_offset, end));
        previous = Some((data_offset, end));
        index += 1;
    }
    assert(ranges_of(ranges@) =~= internal_cells(page@));
    validate_disjoint_ranges(&ranges)
}

/// Checks an overflow page.
pub fn validate_overflow(page: &[u8; PAGE_SIZE], page_count: u64) -> (result: Result<()>)
    ensures
        match result {
            Ok(_) => overflow_valid(page@, page_count),
            Err(error) => error is Corrupt && !overflow_valid(page@, page_count),
        },
{
    if page[1] != 0 || !is_zero(page, 4, 8) {
        return Err(corrupt("overflow reserved bytes are nonzero"));
    }
    let len = get_u16(page, 2)? as usize;
    if len == 0 || len > OVERFLOW_CAPACITY {
        return Err(corrupt("invalid overflow chunk length"));
    }
    let next = get_u64(page, 8)?;
    if next != 0 {
        validate_page_id(next, page_count)?;
    }
    if !is_zero(page, OVERFLOW_HEADER + len, PAGE_END) {
        return Err(corrupt("overflow padding is nonzero"));
    }
    Ok(())
}

/// Looks a key up in a leaf page.
pub fn leaf_search(page: &[u8; PAGE_SIZE], key: &[u8]) -> (result: Result<Option<usize>>)
    requires
        leaf_valid(page@),
    ensures
        match result {
            Ok(Some(index)) => index < count_of(page@) && leaf_entries(page@)[index as int].key
                == key@,
            Ok(None) => forall|i: int|
                0 <= i < leaf_entries(page@).len() ==> (#[trigger] leaf_entries(page@)[i]).key
                    != key@,
            Err(_) => false,
        },
{
    let ghost entries = leaf_entries(page@);
    let mut low: usize = 0;
    let mut high = get_u16(page, 2)? as usize;
    proof {
        reveal(leaf_valid);
    }
    while low < high
        invariant
            low <= high <= count_of(page@),
            entries == leaf_entries(page@),
            sorted_entries(entries),
            forall|i: int| 0 <= i < count_of(page@) ==> #[trigger] leaf_slot_valid(page@, i),
            forall|i: int| 0 <= i < low ==> lt(#[trigger] entries[i].key, key@),
            forall|i: int| high <= i < entries.len() ==> lt(key@, #[trigger] entries[i].key),
        decreases high - low,
    {
        broadcast use group_order;

        let middle = low + (high - low) / 2;
        assert(leaf_slot_valid(page@, middle as int));
        let slot = leaf_slot(page, middle)?;
        let found = &page[slot.key_start..slot.key_end];
        assert(entries[middle as int].key == found@);
        match compare(found, key) {
            Order::Less => {
                low = middle + 1;
            },
            Order::Greater => {
                high = middle;
            },
            Order::Equal => {
                return Ok(Some(middle));
            },
        }
    }
    proof {
        broadcast use group_order;

    }
    Ok(None)
}

/// Reads one entry of a leaf page.
pub fn decode_entry(page: &[u8; PAGE_SIZE], index: usize) -> (entry: LeafEntry)
    requires
        leaf_valid(page@),
        index < count_of(page@),
    ensures
        entry@ == leaf_entries(page@)[index as int],
{
    proof {
        reveal(leaf_valid);
        assert(leaf_slot_valid(page@, index as int));
    }
    let slot = PAGE_HEADER + index * SLOT_SIZE;
    let key_start = page_u16(page, slot);
    let key_end = key_start + page_u16(page, slot + 2);
    let value_len = page_u32(page, slot + 4);
    let overflow = page_u64(page, slot + 8);
    let key = vstd::slice::slice_to_vec(&page[key_start..key_end]);
    let value = if overflow == 0 {
        StoredValue::Inline(vstd::slice::slice_to_vec(&page[key_end..key_end + value_len]))
    } else {
        StoredValue::Overflow { head: overflow, len: value_len }
    };
    LeafEntry { key, value }
}

/// Reads a 16-bit integer that lies in the page.
pub fn page_u16(page: &[u8; PAGE_SIZE], offset: usize) -> (value: usize)
    requires
        offset + 2 <= PAGE_SIZE,
    ensures
        value == u16_at(page@, offset as int),
{
    page[offset] as usize + 0x100 * (page[offset + 1] as usize)
}

/// Reads a 32-bit integer that lies in the page.
pub fn page_u32(page: &[u8; PAGE_SIZE], offset: usize) -> (value: usize)
    requires
        offset + 4 <= PAGE_SIZE,
    ensures
        value == u32_at(page@, offset as int),
{
    let low = page_u16(page, offset);
    let high = page_u16(page, offset + 2);
    low + 0x1_0000 * high
}

/// Reads a 64-bit integer that lies in the page.
pub fn page_u64(page: &[u8; PAGE_SIZE], offset: usize) -> (value: u64)
    requires
        offset + 8 <= PAGE_SIZE,
    ensures
        value == u64_at(page@, offset as int),
{
    let low = page_u32(page, offset) as u64;
    let high = page_u32(page, offset + 4) as u64;
    low + 0x1_0000_0000 * high
}

/// Reads the entries of a leaf page.
pub fn decode_leaf(page: &[u8; PAGE_SIZE]) -> (entries: Vec<LeafEntry>)
    requires
        leaf_valid(page@),
    ensures
        entries_of(entries@) == leaf_entries(page@),
{
    let count = page_u16(page, 2);
    let mut entries: Vec<LeafEntry> = Vec::new();
    let mut index: usize = 0;
    while index < count
        invariant
            index <= count,
            count == count_of(page@),
            leaf_valid(page@),
            entries_of(entries@) == leaf_entries(page@).take(index as int),
        decreases count - index,
    {
        broadcast use lemma_entries_push;

        entries.push(decode_entry(page, index));
        index += 1;
        assert(entries_of(entries@) =~= leaf_entries(page@).take(index as int));
    }
    assert(leaf_entries(page@).take(count as int) =~= leaf_entries(page@));
    entries
}

/// Reads one separator key of an internal page.
pub fn internal_key(page: &[u8; PAGE_SIZE], index: usize) -> (key: &[u8])
    requires
        index < count_of(page@) <= MAX_SLOTS,
        cell_start(page@, index as int) <= key_end(page@, index as int) <= PAGE_END,
    ensures
        key@ == cell_key(page@, index as int),
{
    let slot = PAGE_HEADER + index * SLOT_SIZE;
    let start = page_u16(page, slot);
    let end = start + page_u16(page, slot + 2);
    &page[start..end]
}

/// Finds the child of an internal page under which `key` belongs.
pub fn internal_child(page: &[u8; PAGE_SIZE], page_count: u64, key: &[u8]) -> (child: u64)
    requires
        internal_valid(page@, page_count),
    ensures
        exists|index: int| #[trigger]
            child_at(internal_links(page@), key@, index) && internal_links(page@)[index].page
                == PageRef::Committed(child),
{
    proof {
        reveal(internal_valid);
    }
    let ghost links = internal_links(page@);
    let count = page_u16(page, 2);
    let mut child = page_u64(page, 8);
    let mut index: usize = 0;
    while index < count
        invariant
            index <= count <= MAX_SLOTS,
            count == count_of(page@),
            links == internal_links(page@),
            forall|i: int| 0 <= i < count ==> #[trigger] internal_slot_valid(page@, page_count, i),
            links[index as int].page == PageRef::Committed(child),
            index > 0 ==> le(links[index as int].key, key@),
        ensures
            child_at(links, key@, index as int),
            links[index as int].page == PageRef::Committed(child),
        decreases count - index,
    {
        broadcast use group_order;

        assert(internal_slot_valid(page@, page_count, index as int));
        let separator = internal_key(page, index);
        assert(links[index + 1].key == separator@);
        if compare(key, separator) == Order::Less {
            break;
        }
        child = page_u64(page, PAGE_HEADER + index * SLOT_SIZE + 8);
        index += 1;
    }
    child
}

// ---------------------------------------------------------------------------
// Valid pages hold nodes that fit
// ---------------------------------------------------------------------------

/// Total length of a run of ranges.
pub open spec fn total_length(ranges: Seq<(int, int)>) -> int
    decreases ranges.len(),
{
    if ranges.len() == 0 {
        0
    } else {
        total_length(ranges.drop_last()) + ranges.last().1 - ranges.last().0
    }
}

/// The positions that a run of ranges covers.
spec fn covered(ranges: Seq<(int, int)>) -> Set<int>
    decreases ranges.len(),
{
    if ranges.len() == 0 {
        Set::empty()
    } else {
        covered(ranges.drop_last()).union(
            vstd::set_lib::set_int_range(ranges.last().0, ranges.last().1),
        )
    }
}

proof fn lemma_covered(ranges: Seq<(int, int)>, low: int, high: int)
    requires
        disjoint(ranges),
        low <= high,
        forall|i: int|
            0 <= i < ranges.len() ==> low <= (#[trigger] ranges[i]).0 <= ranges[i].1 <= high,
    ensures
        covered(ranges).finite(),
        covered(ranges).len() == total_length(ranges),
        forall|x: int| covered(ranges).contains(x) ==> low <= x < high,
        forall|x: int| #[trigger]
            covered(ranges).contains(x) ==> exists|i: int|
                0 <= i < ranges.len() && (#[trigger] ranges[i]).0 <= x < ranges[i].1,
    decreases ranges.len(),
{
    if ranges.len() > 0 {
        let rest = ranges.drop_last();
        let last = ranges.last();
        lemma_covered(rest, low, high);
        vstd::set_lib::lemma_int_range(last.0, last.1);
        let a = covered(rest);
        let b = vstd::set_lib::set_int_range(last.0, last.1);
        assert(a.disjoint(b)) by {
            assert forall|x: int| a.contains(x) implies !b.contains(x) by {
                let i = choose|i: int|
                    0 <= i < rest.len() && (#[trigger] rest[i]).0 <= x < rest[i].1;
                assert(ranges[i] == rest[i]);
                assert(ranges[ranges.len() - 1] == last);
            }
        }
        vstd::set_lib::lemma_set_disjoint_lens(a, b);
        assert forall|x: int| #[trigger] covered(ranges).contains(x) implies exists|i: int|
            0 <= i < ranges.len() && (#[trigger] ranges[i]).0 <= x < ranges[i].1 by {
            if a.contains(x) {
                let i = choose|i: int|
                    0 <= i < rest.len() && (#[trigger] rest[i]).0 <= x < rest[i].1;
                assert(ranges[i] == rest[i]);
            } else {
                assert(ranges[ranges.len() - 1].0 <= x < ranges[ranges.len() - 1].1);
            }
        }
    }
}

/// Ranges that do not overlap are together no longer than what they lie in.
pub proof fn lemma_disjoint_total(ranges: Seq<(int, int)>, low: int, high: int)
    requires
        disjoint(ranges),
        low <= high,
        forall|i: int|
            0 <= i < ranges.len() ==> low <= (#[trigger] ranges[i]).0 <= ranges[i].1 <= high,
    ensures
        total_length(ranges) <= high - low,
{
    lemma_covered(ranges, low, high);
    vstd::set_lib::lemma_int_range(low, high);
    let whole = vstd::set_lib::set_int_range(low, high);
    assert(covered(ranges).subset_of(whole));
    vstd::set_lib::lemma_len_subset(covered(ranges), whole);
}

proof fn lemma_leaf_total(page: Seq<u8>, n: int)
    requires
        0 <= n <= count_of(page),
        forall|i: int| 0 <= i < count_of(page) ==> #[trigger] leaf_slot_valid(page, i),
        page.len() == PAGE_SIZE,
    ensures
        total_length(leaf_cells(page).take(n)) == payload(leaf_entries(page).take(n)),
    decreases n,
{
    if n > 0 {
        lemma_leaf_total(page, n - 1);
        assert(leaf_slot_valid(page, n - 1));
        assert(leaf_cells(page).take(n).drop_last() =~= leaf_cells(page).take(n - 1));
        assert(leaf_entries(page).take(n).drop_last() =~= leaf_entries(page).take(n - 1));
        assert(leaf_entries(page).take(n).last() == leaf_entry(page, n - 1));
    } else {
        assert(leaf_cells(page).take(n) =~= Seq::empty());
        assert(leaf_entries(page).take(n) =~= Seq::empty());
    }
}

/// The entries of a valid leaf page are sorted, keep to the size limits and fit
/// into a page.
pub proof fn lemma_leaf_valid(page: Seq<u8>)
    requires
        leaf_valid(page),
        page.len() == PAGE_SIZE,
    ensures
        sorted_entries(leaf_entries(page)),
        entries_fit(leaf_entries(page)),
        leaf_size(leaf_entries(page)) <= PAGE_END,
{
    reveal(leaf_valid);
    let cells = leaf_cells(page);
    let entries = leaf_entries(page);
    assert forall|i: int| 0 <= i < entries.len() implies entry_fits(#[trigger] entries[i]) by {
        assert(leaf_slot_valid(page, i));
    }
    assert forall|i: int| 0 <= i < cells.len() implies slot_at(count_of(page)) <= (
    #[trigger] cells[i]).0 <= cells[i].1 <= PAGE_END by {
        assert(leaf_slot_valid(page, i));
    }
    if cells.len() > 0 {
        assert(cells[0].0 >= slot_at(count_of(page)));
        lemma_disjoint_total(cells, slot_at(count_of(page)), PAGE_END as int);
        lemma_leaf_total(page, count_of(page));
        assert(cells.take(count_of(page)) =~= cells);
        assert(entries.take(count_of(page)) =~= entries);
    }
}

proof fn lemma_internal_total(page: Seq<u8>, page_count: u64, n: int)
    requires
        0 <= n <= count_of(page),
        forall|i: int|
            0 <= i < count_of(page) ==> #[trigger] internal_slot_valid(page, page_count, i),
        page.len() == PAGE_SIZE,
    ensures
        total_length(internal_cells(page).take(n)) == key_bytes(
            internal_links(page).skip(1).take(n),
        ),
    decreases n,
{
    let stored = internal_links(page).skip(1);
    if n > 0 {
        lemma_internal_total(page, page_count, n - 1);
        assert(internal_slot_valid(page, page_count, n - 1));
        assert(internal_cells(page).take(n).drop_last() =~= internal_cells(page).take(n - 1));
        assert(stored.take(n).drop_last() =~= stored.take(n - 1));
        assert(stored.take(n).last() == internal_links(page)[n]);
    } else {
        assert(internal_cells(page).take(n) =~= Seq::empty());
        assert(stored.take(n) =~= Seq::empty());
    }
}

/// The children of a valid internal page are sorted, lie in the snapshot, have keys
/// of legal size and fit into a page.
pub proof fn lemma_internal_valid(page: Seq<u8>, page_count: u64)
    requires
        internal_valid(page, page_count),
        page.len() == PAGE_SIZE,
    ensures
        internal_links(page).len() > 0,
        sorted_links(internal_links(page)),
        internal_size(internal_links(page)) <= PAGE_END,
        forall|i: int|
            0 <= i < internal_links(page).len() ==> (#[trigger] internal_links(page)[i]).key.len()
                <= MAX_KEY_SIZE,
{
    reveal(internal_valid);
    let cells = internal_cells(page);
    let links = internal_links(page);
    assert forall|i: int| 0 <= i < links.len() implies (#[trigger] links[i]).key.len()
        <= MAX_KEY_SIZE by {
        if i > 0 {
            assert(internal_slot_valid(page, page_count, i - 1));
        }
    }
    assert forall|i: int| 0 <= i < cells.len() implies slot_at(count_of(page)) <= (
    #[trigger] cells[i]).0 <= cells[i].1 <= PAGE_END by {
        assert(internal_slot_valid(page, page_count, i));
    }
    if cells.len() > 0 {
        assert(cells[0].0 >= slot_at(count_of(page)));
        lemma_disjoint_total(cells, slot_at(count_of(page)), PAGE_END as int);
        lemma_internal_total(page, page_count, count_of(page));
        assert(cells.take(count_of(page)) =~= cells);
        assert(links.skip(1).take(count_of(page)) =~= links.skip(1));
    } else {
        assert(links.skip(1) =~= Seq::<Link>::empty());
    }
}

// ---------------------------------------------------------------------------
// Writing pages
// ---------------------------------------------------------------------------

/// A page of the given type that holds nothing yet.
pub fn empty_page(kind: u8) -> (page: [u8; PAGE_SIZE])
    ensures
        page@[0] == kind,
        all_zero(page@, 1, PAGE_SIZE as int),
{
    let mut page = [0u8; PAGE_SIZE];
    page[0] = kind;
    page
}

/// An entry once its pending value has been given a chain that starts at `head`.
pub open spec fn settle(entry: Entry, head: u64) -> Entry {
    match entry.value {
        Stored::Pending(bytes) => Entry {
            key: entry.key,
            value: Stored::Overflow { head, len: bytes.len() },
        },
        _ => entry,
    }
}

/// The entries once their pending values have been given chains.
pub open spec fn settled(entries: Seq<Entry>, heads: Seq<u64>) -> Seq<Entry> {
    Seq::new(entries.len(), |i: int| settle(entries[i], heads[i]))
}

/// Whether every pending value has been given a chain.
pub open spec fn chains_assigned(entries: Seq<Entry>, heads: Seq<u64>) -> bool {
    forall|i: int|
        0 <= i < entries.len() && (#[trigger] entries[i]).value is Pending ==> heads[i] != 0
}

/// A longer prefix has no smaller payload.
proof fn lemma_payload_monotone(entries: Seq<Entry>, i: int, j: int)
    requires
        0 <= i <= j <= entries.len(),
    ensures
        payload(entries.take(i)) <= payload(entries.take(j)) <= payload(entries),
    decreases j - i,
{
    if i < j {
        lemma_payload_step(entries, j - 1);
        lemma_payload_monotone(entries, i, j - 1);
    } else if i < entries.len() {
        lemma_payload_step(entries, i);
    } else {
        assert(entries.take(i) =~= entries);
    }
}

/// A longer prefix has no fewer key bytes.
proof fn lemma_key_bytes_monotone(children: Seq<Link>, i: int, j: int)
    requires
        0 <= i <= j <= children.len(),
    ensures
        key_bytes(children.take(i)) <= key_bytes(children.take(j)) <= key_bytes(children),
    decreases j - i,
{
    if i < j {
        lemma_key_bytes_step(children, j - 1);
        lemma_key_bytes_monotone(children, i, j - 1);
    } else if i < children.len() {
        lemma_key_bytes_step(children, i);
    } else {
        assert(children.take(i) =~= children);
    }
}

/// A slot and its cell read the same in two pages that agree on both.
proof fn lemma_leaf_entry_kept(before: Seq<u8>, after: Seq<u8>, index: int)
    requires
        before.len() == PAGE_SIZE,
        after.len() == PAGE_SIZE,
        0 <= index,
        slot_at(index) + SLOT_SIZE <= PAGE_SIZE,
        0 <= cell_start(before, index),
        leaf_cell_end(before, index) <= PAGE_SIZE,
        forall|i: int|
            slot_at(index) <= i < slot_at(index) + SLOT_SIZE ==> #[trigger] after[i] == before[i],
        forall|i: int|
            cell_start(before, index) <= i < leaf_cell_end(before, index) ==> #[trigger] after[i]
                == before[i],
    ensures
        leaf_entry(after, index) == leaf_entry(before, index),
        cell_start(after, index) == cell_start(before, index),
        key_end(after, index) == key_end(before, index),
        leaf_cell_end(after, index) == leaf_cell_end(before, index),
        value_len(after, index) == value_len(before, index),
        slot_page(after, index) == slot_page(before, index),
{
    let slot = slot_at(index);
    assert(after[slot] == before[slot] && after[slot + 1] == before[slot + 1] && after[slot + 2]
        == before[slot + 2] && after[slot + 3] == before[slot + 3] && after[slot + 4] == before[slot
        + 4] && after[slot + 5] == before[slot + 5] && after[slot + 6] == before[slot + 6]
        && after[slot + 7] == before[slot + 7] && after[slot + 8] == before[slot + 8] && after[slot
        + 9] == before[slot + 9] && after[slot + 10] == before[slot + 10] && after[slot + 11]
        == before[slot + 11] && after[slot + 12] == before[slot + 12] && after[slot + 13]
        == before[slot + 13] && after[slot + 14] == before[slot + 14] && after[slot + 15]
        == before[slot + 15]);
    assert(cell_key(after, index) =~= cell_key(before, index));
    if slot_page(before, index) == 0 {
        assert(after.subrange(key_end(after, index), leaf_cell_end(after, index))
            =~= before.subrange(key_end(before, index), leaf_cell_end(before, index)));
    }
}

/// Whether the first `n` entries have been laid out in the page.
spec fn leaf_laid_out(page: Seq<u8>, entries: Seq<Entry>, heads: Seq<u64>, n: int) -> bool {
    forall|i: int|
        0 <= i < n ==> {
            &&& #[trigger] leaf_entry(page, i) == settle(entries[i], heads[i])
            &&& cell_start(page, i) == PAGE_END - payload(entries.take(i + 1))
            &&& leaf_cell_end(page, i) == PAGE_END - payload(entries.take(i))
            &&& key_end(page, i) == cell_start(page, i) + entries[i].key.len()
        }
}

/// Writes the cell and the slot of one entry.
fn put_entry(
    page: &mut [u8; PAGE_SIZE],
    index: usize,
    data_start: usize,
    entry: &LeafEntry,
    head: u64,
)
    requires
        index <= MAX_SLOTS,
        entry_fits(entry@),
        entry@.value is Pending ==> head != 0,
        slot_at(index as int) + SLOT_SIZE <= data_start,
        data_start + entry@.key.len() + inline_len(entry@.value) <= PAGE_END,
    ensures
        leaf_entry(final(page)@, index as int) == settle(entry@, head),
        cell_start(final(page)@, index as int) == data_start,
        key_end(final(page)@, index as int) == data_start + entry@.key.len(),
        leaf_cell_end(final(page)@, index as int) == data_start + entry@.key.len() + inline_len(
            entry@.value,
        ),
        forall|i: int|
            0 <= i < PAGE_SIZE && !(slot_at(index as int) <= i < slot_at(index as int) + SLOT_SIZE)
                && !(data_start <= i < data_start + entry@.key.len() + inline_len(entry@.value))
                ==> #[trigger] final(page)@[i] == old(page)@[i],
{
    put_bytes(page, data_start, entry.key.as_slice());
    let ghost with_key = page@;
    let value_start = data_start + entry.key.len();
    if let StoredValue::Inline(value) = &entry.value {
        put_bytes(page, value_start, value.as_slice());
    }
    let ghost with_cell = page@;
    let (value_len, overflow) = match &entry.value {
        StoredValue::Inline(value) => (value.len(), 0u64),
        StoredValue::Overflow { head, len } => (*len, *head),
        StoredValue::Pending(value) => (value.len(), head),
    };
    let slot = PAGE_HEADER + index * SLOT_SIZE;
    put_u16(page, slot, data_start as u16);
    put_u16(page, slot + 2, entry.key.len() as u16);
    put_u32(page, slot + 4, value_len as u32);
    put_u64(page, slot + 8, overflow);
    proof {
        let key_len = entry@.key.len() as int;
        let end = data_start + key_len + inline_len(entry@.value);
        assert(forall|i: int| data_start <= i < end ==> page@[i] == with_cell[i]);
        assert(page@.subrange(data_start as int, data_start + key_len) =~= entry@.key) by {
            assert forall|i: int| 0 <= i < key_len implies page@[data_start + i] == entry@.key[i] by {
                assert(with_key.subrange(data_start as int, data_start + key_len)[i]
                    == entry@.key[i]);
            }
        }
        if let Stored::Inline(value) = entry@.value {
            assert(page@.subrange(data_start + key_len, end) =~= value) by {
                assert forall|i: int| 0 <= i < value.len() implies page@[data_start + key_len + i]
                    == value[i] by {
                    assert(with_cell.subrange(data_start + key_len, end)[i] == value[i]);
                }
            }
        }
    }
}

/// Encodes a leaf. `heads` gives the chain of each pending value.
///
/// Entries that do not fit into a page, and a pending value without a chain, are
/// refused.
#[verifier::rlimit(40)]
#[verifier::spinoff_prover]
pub fn encode_leaf(entries: &Vec<LeafEntry>, heads: &Vec<u64>) -> (result: Result<[u8; PAGE_SIZE]>)
    requires
        entries_fit(entries_of(entries@)),
        heads@.len() == entries@.len(),
    ensures
        match result {
            Ok(page) => {
                &&& leaf_size(entries_of(entries@)) <= PAGE_END
                &&& chains_assigned(entries_of(entries@), heads@)
                &&& page_ok(page@)
                &&& page@[0] == LEAF
                &&& leaf_entries(page@) == settled(entries_of(entries@), heads@)
                &&& sorted_entries(entries_of(entries@)) ==> leaf_valid(page@)
            },
            Err(error) => error is Corrupt && (leaf_size(entries_of(entries@)) > PAGE_END
                || !chains_assigned(entries_of(entries@), heads@)),
        },
{
    let ghost view = entries_of(entries@);
    if leaf_encoded_size(entries.as_slice())? > PAGE_END {
        return Err(corrupt("dirty leaf exceeds page capacity"));
    }
    let count = entries.len();
    let mut page = empty_page(LEAF);
    let mut data_start = PAGE_END;
    let mut index: usize = 0;
    assert(view.take(0) =~= Seq::<Entry>::empty());
    while index < count
        invariant
            index <= count <= MAX_SLOTS,
            count == entries@.len(),
            heads@.len() == count,
            view == entries_of(entries@),
            entries_fit(view),
            leaf_size(view) <= PAGE_END,
            data_start == PAGE_END - payload(view.take(index as int)),
            leaf_laid_out(page@, view, heads@, index as int),
            page@[0] == LEAF,
            all_zero(page@, 1, PAGE_HEADER as int),
            forall|i: int|
                0 <= i < index && (#[trigger] view[i]).value is Pending ==> heads@[i] != 0,
        decreases count - index,
    {
        let entry = &entries[index];
        proof {
            lemma_payload_step(view, index as int);
            assert(view[index as int] == entry@);
            assert(entry_fits(view[index as int]));
        }
        if let StoredValue::Pending(_) = &entry.value {
            if heads[index] == 0 {
                assert(view[index as int].value is Pending);
                return Err(corrupt("pending overflow value has no assigned chain"));
            }
        }
        let inline_len = value_payload_size(&entry.value);
        let ghost before = page@;
        let ghost old_start = data_start;
        data_start = data_start - (entry.key.len() + inline_len);
        put_entry(&mut page, index, data_start, entry, heads[index]);
        proof {
            assert forall|i: int| 0 <= i < index + 1 implies {
                &&& #[trigger] leaf_entry(page@, i) == settle(view[i], heads@[i])
                &&& cell_start(page@, i) == PAGE_END - payload(view.take(i + 1))
                &&& leaf_cell_end(page@, i) == PAGE_END - payload(view.take(i))
                &&& key_end(page@, i) == cell_start(page@, i) + view[i].key.len()
            } by {
                if i < index {
                    lemma_payload_monotone(view, i + 1, index as int);
                    assert(leaf_entry(before, i) == settle(view[i], heads@[i]));
                    lemma_leaf_entry_kept(before, page@, i);
                }
            }
        }
        index += 1;
    }
    let ghost laid_out = page@;
    put_u16(&mut page, 2, count as u16);
    finish_page(&mut page);
    proof {
        reveal(leaf_valid);
        assert(view.take(count as int) =~= view);
        assert forall|i: int| 0 <= i < count implies {
            &&& #[trigger] leaf_entry(page@, i) == settle(view[i], heads@[i])
            &&& leaf_slot_valid(page@, i)
            &&& cell_start(page@, i) == PAGE_END - payload(view.take(i + 1))
            &&& leaf_cell_end(page@, i) == PAGE_END - payload(view.take(i))
        } by {
            lemma_payload_monotone(view, i + 1, count as int);
            lemma_payload_step(view, i);
            assert(leaf_entry(laid_out, i) == settle(view[i], heads@[i]));
            assert(entry_fits(view[i]));
            lemma_leaf_entry_kept(laid_out, page@, i);
        }
        assert(leaf_entries(page@) =~= settled(view, heads@));
        assert forall|i: int| 0 <= i < count_of(page@) implies #[trigger] leaf_slot_valid(page@, i) by {
            assert(leaf_entry(page@, i) == settle(view[i], heads@[i]));
        }
        if sorted_entries(view) {
            let written = leaf_entries(page@);
            assert forall|i: int, j: int| 0 <= i < j < written.len() implies lt(
                #[trigger] written[i].key,
                #[trigger] written[j].key,
            ) by {
                assert(lt(view[i].key, view[j].key));
            }
        }
        let cells = leaf_cells(page@);
        assert forall|i: int, j: int| 0 <= i < j < cells.len() implies {
            ||| (#[trigger] cells[i]).1 <= (#[trigger] cells[j]).0
            ||| cells[j].1 <= cells[i].0
        } by {
            assert(leaf_entry(page@, i) == settle(view[i], heads@[i]));
            assert(leaf_entry(page@, j) == settle(view[j], heads@[j]));
            lemma_payload_monotone(view, i + 1, j);
        }
    }
    Ok(page)
}

/// The published page that a reference names, once nodes in memory have been given
/// pages.
pub open spec fn resolve(page: PageRef, physical: Seq<Option<u64>>) -> Option<u64> {
    match page {
        PageRef::Committed(id) => Some(id),
        PageRef::Dirty(index) => if index < physical.len() {
            physical[index as int]
        } else {
            None
        },
    }
}

/// Finds the page that a node in memory has been given.
pub fn physical_page(physical: &Vec<Option<u64>>, dirty_id: usize) -> (result: Result<u64>)
    ensures
        match result {
            Ok(id) => resolve(PageRef::Dirty(dirty_id), physical@) == Some(id),
            Err(Error::Corrupt(message)) => resolve(PageRef::Dirty(dirty_id), physical@) is None
                && message@ == "dirty page was not assigned a physical page"@,
            Err(_) => false,
        },
{
    if dirty_id < physical.len() {
        if let Some(id) = physical[dirty_id] {
            return Ok(id);
        }
    }
    Err(corrupt("dirty page was not assigned a physical page"))
}

/// Finds the published page that a reference names.
pub fn resolve_page(page: PageRef, physical: &Vec<Option<u64>>) -> (result: Result<u64>)
    ensures
        match result {
            Ok(id) => resolve(page, physical@) == Some(id),
            Err(error) => error is Corrupt && resolve(page, physical@) is None,
        },
{
    match page {
        PageRef::Committed(page_id) => Ok(page_id),
        PageRef::Dirty(dirty_id) => physical_page(physical, dirty_id),
    }
}

/// The children with their pages resolved. The key of the first child is dropped.
pub open spec fn resolved(links: Seq<Link>, physical: Seq<Option<u64>>) -> Seq<Link> {
    Seq::new(
        links.len(),
        |i: int|
            Link {
                key: if i == 0 {
                    Seq::empty()
                } else {
                    links[i].key
                },
                page: PageRef::Committed(resolve(links[i].page, physical)->0),
            },
    )
}

/// Whether every child has a published page.
pub open spec fn all_resolve(links: Seq<Link>, physical: Seq<Option<u64>>) -> bool {
    forall|i: int| 0 <= i < links.len() ==> resolve((#[trigger] links[i]).page, physical) is Some
}

/// Whether every child lies in the snapshot once resolved.
pub open spec fn all_in_snapshot(
    links: Seq<Link>,
    physical: Seq<Option<u64>>,
    page_count: u64,
) -> bool {
    forall|i: int|
        0 <= i < links.len() ==> in_snapshot(
            resolve((#[trigger] links[i]).page, physical)->0,
            page_count,
        )
}

/// Whether the keys of the children have legal sizes.
pub open spec fn keys_fit(links: Seq<Link>) -> bool {
    forall|i: int| 0 <= i < links.len() ==> (#[trigger] links[i]).key.len() <= MAX_KEY_SIZE
}

/// A separator and its child read the same in two pages that agree on both.
proof fn lemma_internal_slot_kept(before: Seq<u8>, after: Seq<u8>, index: int)
    requires
        before.len() == PAGE_SIZE,
        after.len() == PAGE_SIZE,
        0 <= index,
        slot_at(index) + SLOT_SIZE <= PAGE_SIZE,
        0 <= cell_start(before, index),
        key_end(before, index) <= PAGE_SIZE,
        forall|i: int|
            slot_at(index) <= i < slot_at(index) + SLOT_SIZE ==> #[trigger] after[i] == before[i],
        forall|i: int|
            cell_start(before, index) <= i < key_end(before, index) ==> #[trigger] after[i]
                == before[i],
    ensures
        cell_key(after, index) == cell_key(before, index),
        cell_start(after, index) == cell_start(before, index),
        key_end(after, index) == key_end(before, index),
        slot_page(after, index) == slot_page(before, index),
        u16_at(after, slot_at(index) + 2) == u16_at(before, slot_at(index) + 2),
{
    let slot = slot_at(index);
    assert(after[slot] == before[slot] && after[slot + 1] == before[slot + 1] && after[slot + 2]
        == before[slot + 2] && after[slot + 3] == before[slot + 3] && after[slot + 8] == before[slot
        + 8] && after[slot + 9] == before[slot + 9] && after[slot + 10] == before[slot + 10]
        && after[slot + 11] == before[slot + 11] && after[slot + 12] == before[slot + 12]
        && after[slot + 13] == before[slot + 13] && after[slot + 14] == before[slot + 14]
        && after[slot + 15] == before[slot + 15]);
    assert(cell_key(after, index) =~= cell_key(before, index));
}

/// Whether the separators before `n` have been laid out in the page.
spec fn internal_laid_out(
    page: Seq<u8>,
    stored: Seq<Link>,
    physical: Seq<Option<u64>>,
    n: int,
) -> bool {
    forall|i: int|
        0 <= i < n ==> {
            &&& #[trigger] cell_key(page, i) == stored[i].key
            &&& slot_page(page, i) == resolve(stored[i].page, physical)->0
            &&& cell_start(page, i) == PAGE_END - key_bytes(stored.take(i + 1))
            &&& key_end(page, i) == PAGE_END - key_bytes(stored.take(i))
            &&& u16_at(page, slot_at(i) + 2) == stored[i].key.len()
        }
}

/// Whether the reserved bytes of a slot of an internal page are zero.
spec fn gap_zero(page: Seq<u8>, index: int) -> bool {
    all_zero(page, slot_at(index) + 4, slot_at(index) + 8)
}

/// Laying out one more separator keeps those before it.
proof fn lemma_separator_laid_out(
    before: Seq<u8>,
    after: Seq<u8>,
    stored: Seq<Link>,
    physical: Seq<Option<u64>>,
    index: int,
    separators: int,
)
    requires
        before.len() == PAGE_SIZE,
        after.len() == PAGE_SIZE,
        0 <= index < separators <= MAX_SLOTS,
        separators == stored.len(),
        PAGE_HEADER + separators * SLOT_SIZE + key_bytes(stored) <= PAGE_END,
        internal_laid_out(before, stored, physical, index),
        cell_key(after, index) == stored[index].key,
        slot_page(after, index) == resolve(stored[index].page, physical)->0,
        cell_start(after, index) == PAGE_END - key_bytes(stored.take(index + 1)),
        key_end(after, index) == PAGE_END - key_bytes(stored.take(index)),
        u16_at(after, slot_at(index) + 2) == stored[index].key.len(),
        forall|i: int|
            0 <= i < PAGE_SIZE && !(slot_at(index) <= i < slot_at(index) + 4) && !(slot_at(index)
                + 8 <= i < slot_at(index) + SLOT_SIZE) && !(cell_start(after, index) <= i < key_end(
                after,
                index,
            )) ==> #[trigger] after[i] == before[i],
        forall|i: int| 0 <= i < separators ==> #[trigger] gap_zero(before, i),
    ensures
        internal_laid_out(after, stored, physical, index + 1),
        forall|i: int| 0 <= i < separators ==> #[trigger] gap_zero(after, i),
        u64_at(after, 8) == u64_at(before, 8),
{
    lemma_key_bytes_monotone(stored, index + 1, separators);
    assert forall|i: int| 0 <= i < index + 1 implies {
        &&& #[trigger] cell_key(after, i) == stored[i].key
        &&& slot_page(after, i) == resolve(stored[i].page, physical)->0
        &&& cell_start(after, i) == PAGE_END - key_bytes(stored.take(i + 1))
        &&& key_end(after, i) == PAGE_END - key_bytes(stored.take(i))
        &&& u16_at(after, slot_at(i) + 2) == stored[i].key.len()
    } by {
        if i < index {
            lemma_key_bytes_monotone(stored, i + 1, index);
            assert(cell_key(before, i) == stored[i].key);
            lemma_internal_slot_kept(before, after, i);
        }
    }
    assert(after[8] == before[8] && after[9] == before[9] && after[10] == before[10] && after[11]
        == before[11] && after[12] == before[12] && after[13] == before[13] && after[14]
        == before[14] && after[15] == before[15]);
    assert forall|i: int| 0 <= i < separators implies #[trigger] gap_zero(after, i) by {
        assert(gap_zero(before, i));
        assert forall|k: int| slot_at(i) + 4 <= k < slot_at(i) + 8 implies #[trigger] after[k] == 0 by {
            assert(before[k] == 0);
            assert(after[k] == before[k]);
        }
    }
}

/// Writes the key and the slot of one separator.
fn put_separator(page: &mut [u8; PAGE_SIZE], index: usize, data_start: usize, key: &Vec<u8>, child: u64)
    requires
        index <= MAX_SLOTS,
        key@.len() <= MAX_KEY_SIZE,
        slot_at(index as int) + SLOT_SIZE <= data_start,
        data_start + key@.len() <= PAGE_END,
    ensures
        cell_key(final(page)@, index as int) == key@,
        slot_page(final(page)@, index as int) == child,
        cell_start(final(page)@, index as int) == data_start,
        key_end(final(page)@, index as int) == data_start + key@.len(),
        u16_at(final(page)@, slot_at(index as int) + 2) == key@.len(),
        forall|i: int|
            0 <= i < PAGE_SIZE && !(slot_at(index as int) <= i < slot_at(index as int) + 4) && !(
            slot_at(index as int) + 8 <= i < slot_at(index as int) + SLOT_SIZE) && !(data_start <= i
                < data_start + key@.len()) ==> #[trigger] final(page)@[i] == old(page)@[i],
{
    put_bytes(page, data_start, key.as_slice());
    let ghost with_key = page@;
    let slot = PAGE_HEADER + index * SLOT_SIZE;
    put_u16(page, slot, data_start as u16);
    put_u16(page, slot + 2, key.len() as u16);
    put_u64(page, slot + 8, child);
    proof {
        assert(page@.subrange(data_start as int, data_start + key@.len()) =~= key@) by {
            assert forall|i: int| 0 <= i < key@.len() implies page@[data_start + i] == key@[i] by {
                assert(with_key.subrange(data_start as int, data_start + key@.len())[i] == key@[i]);
            }
        }
    }
}

/// Encodes an internal node. `physical` gives the pages of nodes in memory.
///
/// Children that do not fit into a page, and a child without a page, are refused.
pub fn encode_internal(children: &Vec<Child>, physical: &Vec<Option<u64>>) -> (result: Result<
    [u8; PAGE_SIZE],
>)
    requires
        keys_fit(links_of(children@)),
    ensures
        match result {
            Ok(page) => {
                &&& children@.len() > 0
                &&& internal_size(links_of(children@)) <= PAGE_END
                &&& all_resolve(links_of(children@), physical@)
                &&& page_ok(page@)
                &&& page@[0] == INTERNAL
                &&& internal_links(page@) == resolved(links_of(children@), physical@)
                &&& forall|page_count: u64|
                    sorted_links(links_of(children@)) && all_in_snapshot(
                        links_of(children@),
                        physical@,
                        page_count,
                    ) ==> #[trigger] internal_valid(page@, page_count)
            },
            Err(error) => error is Corrupt && (children@.len() == 0 || internal_size(
                links_of(children@),
            ) > PAGE_END || !all_resolve(links_of(children@), physical@)),
        },
{
    let ghost view = links_of(children@);
    let ghost stored = view.skip(1);
    if internal_encoded_size(children.as_slice())? > PAGE_END {
        return Err(corrupt("dirty internal node exceeds page capacity"));
    }
    let separators = children.len() - 1;
    let mut page = empty_page(INTERNAL);
    assert(view[0] == children@[0]@);
    let first = resolve_page(children[0].page, physical)?;
    put_u64(&mut page, 8, first);
    let mut data_start = PAGE_END;
    let mut index: usize = 0;
    assert(stored.take(0) =~= Seq::<Link>::empty());
    while index < separators
        invariant
            index <= separators <= MAX_SLOTS,
            separators + 1 == children@.len(),
            view == links_of(children@),
            stored == view.skip(1),
            keys_fit(view),
            internal_size(view) <= PAGE_END,
            data_start == PAGE_END - key_bytes(stored.take(index as int)),
            internal_laid_out(page@, stored, physical@, index as int),
            page@[0] == INTERNAL,
            all_zero(page@, 1, 8),
            all_zero(page@, 16, PAGE_HEADER as int),
            forall|i: int| 0 <= i < separators ==> #[trigger] gap_zero(page@, i),
            u64_at(page@, 8) == first,
            forall|i: int|
                0 <= i < index + 1 ==> resolve((#[trigger] view[i]).page, physical@) is Some,
        decreases separators - index,
    {
        let child = &children[index + 1];
        proof {
            lemma_key_bytes_step(stored, index as int);
            assert(view[index + 1] == child@);
            assert(stored[index as int] == child@);
        }
        let target = resolve_page(child.page, physical)?;
        let ghost before = page@;
        data_start = data_start - child.first_key.len();
        put_separator(&mut page, index, data_start, &child.first_key, target);
        proof {
            lemma_separator_laid_out(
                before,
                page@,
                stored,
                physical@,
                index as int,
                separators as int,
            );
        }
        index += 1;
    }
    let ghost laid_out = page@;
    put_u16(&mut page, 2, separators as u16);
    finish_page(&mut page);
    proof {
        assert(stored.take(separators as int) =~= stored);
        assert(page@[8] == laid_out[8] && page@[9] == laid_out[9] && page@[10] == laid_out[10]
            && page@[11] == laid_out[11] && page@[12] == laid_out[12] && page@[13] == laid_out[13]
            && page@[14] == laid_out[14] && page@[15] == laid_out[15]);
        assert forall|i: int| 0 <= i < separators implies {
            &&& #[trigger] cell_key(page@, i) == stored[i].key
            &&& slot_page(page@, i) == resolve(stored[i].page, physical@)->0
            &&& cell_start(page@, i) == PAGE_END - key_bytes(stored.take(i + 1))
            &&& key_end(page@, i) == PAGE_END - key_bytes(stored.take(i))
            &&& u16_at(page@, slot_at(i) + 2) == stored[i].key.len()
        } by {
            lemma_key_bytes_monotone(stored, i + 1, separators as int);
            lemma_key_bytes_step(stored, i);
            assert(cell_key(laid_out, i) == stored[i].key);
            assert(view[i + 1] == stored[i]);
            lemma_internal_slot_kept(laid_out, page@, i);
        }
        assert(internal_links(page@) =~= resolved(view, physical@)) by {
            assert forall|i: int| 0 <= i < view.len() implies #[trigger] internal_links(page@)[i]
                == resolved(view, physical@)[i] by {
                if i > 0 {
                    assert(cell_key(page@, i - 1) == stored[i - 1].key);
                    assert(stored[i - 1] == view[i]);
                }
            }
        }
        assert forall|page_count: u64|
            sorted_links(view) && all_in_snapshot(
                view,
                physical@,
                page_count,
            ) implies #[trigger] internal_valid(page@, page_count) by {
            lemma_encoded_internal_valid(page@, view, stored, physical@, page_count, laid_out);
        }
    }
    Ok(page)
}

/// A page into which sorted children have been laid out is a valid internal page.
proof fn lemma_encoded_internal_valid(
    page: Seq<u8>,
    view: Seq<Link>,
    stored: Seq<Link>,
    physical: Seq<Option<u64>>,
    page_count: u64,
    laid_out: Seq<u8>,
)
    requires
        page.len() == PAGE_SIZE,
        view.len() > 0,
        stored == view.skip(1),
        keys_fit(view),
        internal_size(view) <= PAGE_END,
        sorted_links(view),
        all_in_snapshot(view, physical, page_count),
        internal_laid_out(page, stored, physical, stored.len() as int),
        internal_links(page) == resolved(view, physical),
        count_of(page) == stored.len(),
        stored.len() <= MAX_SLOTS,
        page[1] == 0,
        all_zero(page, 4, 8),
        all_zero(page, 16, PAGE_HEADER as int),
        laid_out.len() == PAGE_SIZE,
        forall|i: int| PAGE_HEADER <= i < PAGE_END ==> #[trigger] page[i] == laid_out[i],
        forall|i: int| 0 <= i < stored.len() ==> #[trigger] gap_zero(laid_out, i),
    ensures
        internal_valid(page, page_count),
{
    reveal(internal_valid);
    let links = internal_links(page);
    assert(stored.take(stored.len() as int) =~= stored);
    assert(links[0] == resolved(view, physical)[0]);
    assert(view[0] == view[0]);
    assert forall|i: int| 0 <= i < count_of(page) implies #[trigger] internal_slot_valid(
        page,
        page_count,
        i,
    ) by {
        lemma_key_bytes_monotone(stored, i + 1, stored.len() as int);
        lemma_key_bytes_step(stored, i);
        assert(cell_key(page, i) == stored[i].key);
        assert(view[i + 1] == stored[i]);
        assert(gap_zero(laid_out, i));
    }
    assert forall|i: int, j: int| 1 <= i < j < links.len() implies lt(
        #[trigger] links[i].key,
        #[trigger] links[j].key,
    ) by {
        assert(links[i] == resolved(view, physical)[i]);
        assert(links[j] == resolved(view, physical)[j]);
        assert(lt(view[i].key, view[j].key));
    }
    let cells = internal_cells(page);
    assert forall|i: int, j: int| 0 <= i < j < cells.len() implies {
        ||| (#[trigger] cells[i]).1 <= (#[trigger] cells[j]).0
        ||| cells[j].1 <= cells[i].0
    } by {
        assert(cell_key(page, i) == stored[i].key);
        assert(cell_key(page, j) == stored[j].key);
        lemma_key_bytes_monotone(stored, i + 1, j);
    }
}

/// Encodes one link of an overflow chain. An empty or oversized piece is refused.
pub fn encode_overflow(chunk: &[u8], next: u64) -> (result: Result<[u8; PAGE_SIZE]>)
    ensures
        match result {
            Ok(page) => {
                &&& 0 < chunk@.len() <= OVERFLOW_CAPACITY
                &&& page_ok(page@)
                &&& page@[0] == OVERFLOW
                &&& chunk_of(page@) == chunk@
                &&& next_of(page@) == next
                &&& forall|page_count: u64| next == 0 || in_snapshot(next, page_count) ==> #[trigger]
                    overflow_valid(page@, page_count)
            },
            Err(Error::Corrupt(message)) => !(0 < chunk@.len() <= OVERFLOW_CAPACITY) && message@
                == "invalid pending overflow chunk"@,
            Err(_) => false,
        },
{
    if chunk.len() == 0 || chunk.len() > OVERFLOW_CAPACITY {
        return Err(corrupt("invalid pending overflow chunk"));
    }
    let mut page = empty_page(OVERFLOW);
    put_u16(&mut page, 2, chunk.len() as u16);
    put_u64(&mut page, 8, next);
    let ghost header = page@;
    put_bytes(&mut page, OVERFLOW_HEADER, chunk);
    let ghost filled = page@;
    finish_page(&mut page);
    proof {
        assert(page@[2] == header[2] && page@[3] == header[3] && page@[8] == header[8] && page@[9]
            == header[9] && page@[10] == header[10] && page@[11] == header[11] && page@[12]
            == header[12] && page@[13] == header[13] && page@[14] == header[14] && page@[15]
            == header[15]);
        assert(chunk_of(page@) =~= filled.subrange(
            OVERFLOW_HEADER as int,
            OVERFLOW_HEADER + chunk@.len(),
        ));
    }
    Ok(page)
}

} // verus!
