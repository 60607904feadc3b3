//! Laying out the tree of a write transaction on pages.
use crate::branch::spreading;
use crate::error::{corrupt, Result};
use crate::format::{in_snapshot, page_ok, INTERNAL, LEAF, OVERFLOW, PAGE_SIZE};
use crate::graft::{lemma_owned_slots, lemma_owns_root, lemma_run_child};
use crate::model::{
    chain, flat, is_tree, map_of, node_at, owns, published, read_value, rows_of, run_ok, run_owns,
    same_at, subtree, value_capacity, value_pages, Env, Pages,
};
use crate::node::{
    entries_fit, entries_of, leaf_size, links_of, sorted_entries, Entry, LeafEntry, Link,
    MutableNode, Node, PageRef, Stored, StoredValue, OVERFLOW_CAPACITY, PAGE_END,
};
use crate::page::{
    all_in_snapshot, all_resolve, chunk_of, encode_internal, encode_leaf, encode_overflow,
    internal_links, internal_valid, keys_fit, leaf_entries, leaf_valid, next_of, overflow_valid,
    rearranged, resolve, resolve_page, resolved, settled, sort_by_first, sorted_links,
};
use crate::publish::{
    chain_placed, lemma_committed_owns, lemma_spreading_published, lemma_translate, owns_placed,
    placed, publishable, Plan,
};
use crate::reader::{found, lemma_search, lookup, search, MAX_DEPTH};
use crate::tree::{arena, sturdy, MutableTree};
use vstd::prelude::*;
use vstd::std_specs::iter::IteratorSpec;

verus! {

// ---------------------------------------------------------------------------
// Lists of pages
// ---------------------------------------------------------------------------

/// Pages with their identifiers, as mathematical values.
pub open spec fn page_list(list: Seq<(u64, [u8; PAGE_SIZE])>) -> Seq<(u64, Seq<u8>)> {
    list.map_values(|item: (u64, [u8; PAGE_SIZE])| (item.0, item.1@))
}

/// Whether a map holds exactly the pages of a list, each of which has an identifier of
/// its own.
pub open spec fn listed(list: Seq<(u64, Seq<u8>)>, map: Pages) -> bool {
    &&& forall|k: int|
        0 <= k < list.len() ==> map.contains_key((#[trigger] list[k]).0) && map[list[k].0]
            == list[k].1
    &&& forall|j: int, k: int|
        0 <= j < k < list.len() ==> (#[trigger] list[j]).0 != (#[trigger] list[k]).0
    &&& forall|id: u64| #[trigger]
        map.contains_key(id) ==> exists|k: int| 0 <= k < list.len() && (#[trigger] list[k]).0 == id
}

/// The pages after a list of pages is written.
pub open spec fn written(pages: Pages, list: Seq<(u64, Seq<u8>)>) -> Pages {
    pages.union_prefer_right(choose|map: Pages| listed(list, map))
}

/// A list of pages stands for one map.
pub proof fn lemma_listed_unique(list: Seq<(u64, Seq<u8>)>, a: Pages, b: Pages)
    requires
        listed(list, a),
        listed(list, b),
    ensures
        a == b,
{
    assert forall|id: u64| a.contains_key(id) implies #[trigger] b.contains_key(id) && a[id] == b[id] by {
        let k = choose|k: int| 0 <= k < list.len() && (#[trigger] list[k]).0 == id;
        assert(b.contains_key(list[k].0));
    }
    assert forall|id: u64| b.contains_key(id) implies #[trigger] a.contains_key(id) by {
        let k = choose|k: int| 0 <= k < list.len() && (#[trigger] list[k]).0 == id;
        assert(a.contains_key(list[k].0));
    }
    assert(a =~= b);
}

/// Adding a page to a list adds it to the map.
pub proof fn lemma_listed_push(list: Seq<(u64, Seq<u8>)>, map: Pages, id: u64, page: Seq<u8>)
    requires
        listed(list, map),
        !map.contains_key(id),
    ensures
        listed(list.push((id, page)), map.insert(id, page)),
{
    let more = list.push((id, page));
    let after = map.insert(id, page);
    assert forall|k: int| 0 <= k < more.len() implies after.contains_key((#[trigger] more[k]).0)
        && after[more[k].0] == more[k].1 by {
        if k < list.len() {
            assert(more[k] == list[k]);
        }
    }
    assert forall|j: int, k: int| 0 <= j < k < more.len() implies (#[trigger] more[j]).0 != (
    #[trigger] more[k]).0 by {
        assert(more[j] == list[j]);
        if k < list.len() {
            assert(more[k] == list[k]);
        }
    }
    assert forall|x: u64| #[trigger] after.contains_key(x) implies exists|k: int|
        0 <= k < more.len() && (#[trigger] more[k]).0 == x by {
        if x == id {
            assert(more[list.len() as int].0 == x);
        } else {
            let k = choose|k: int| 0 <= k < list.len() && (#[trigger] list[k]).0 == x;
            assert(more[k].0 == x);
        }
    }
}

/// The order of a list does not matter.
pub proof fn lemma_listed_rearranged(
    before: Seq<(u64, Seq<u8>)>,
    after: Seq<(u64, Seq<u8>)>,
    order: Seq<int>,
    map: Pages,
)
    requires
        listed(before, map),
        rearranged(before, after, order),
    ensures
        listed(after, map),
{
    assert forall|j: int, k: int| 0 <= j < k < after.len() implies (#[trigger] after[j]).0 != (
    #[trigger] after[k]).0 by {
        assert(after[j] == before[order[j]]);
        assert(after[k] == before[order[k]]);
        assert(order[j] != order[k]);
        if order[j] < order[k] {
            assert(before[order[j]].0 != before[order[k]].0);
        } else {
            assert(before[order[k]].0 != before[order[j]].0);
        }
    }
    assert forall|k: int| 0 <= k < after.len() implies map.contains_key((#[trigger] after[k]).0)
        && map[after[k].0] == after[k].1 by {
        assert(after[k] == before[order[k]]);
    }
    assert forall|id: u64| #[trigger] map.contains_key(id) implies exists|k: int|
        0 <= k < after.len() && (#[trigger] after[k]).0 == id by {
        let j = choose|j: int| 0 <= j < before.len() && (#[trigger] before[j]).0 == id;
        assert(order.contains(j));
        let k = choose|k: int| 0 <= k < order.len() && order[k] == j;
        assert(after[k] == before[order[k]]);
    }
}

// ---------------------------------------------------------------------------
// Chains
// ---------------------------------------------------------------------------

/// Number of overflow pages that a value needs.
pub open spec fn chunks(len: nat) -> nat {
    ((len + OVERFLOW_CAPACITY - 1) / OVERFLOW_CAPACITY as int) as nat
}

/// A value is cut into as few pieces as it fits into.
pub proof fn law_pieces_are_few(len: nat)
    ensures
        chunks(len) * 4076 >= len,
        len > 0 ==> (chunks(len) - 1) * 4076 < len,
        len == 0 ==> chunks(len) == 0,
{
}

/// The piece of a value that one overflow page holds.
pub open spec fn piece(bytes: Seq<u8>, k: int) -> Seq<u8> {
    let end = (k + 1) * OVERFLOW_CAPACITY;
    bytes.subrange(
        k * OVERFLOW_CAPACITY,
        if end < bytes.len() {
            end
        } else {
            bytes.len() as int
        },
    )
}

/// What is left of a value after its first `k` pieces.
pub open spec fn rest(bytes: Seq<u8>, k: int) -> Seq<u8> {
    if k * OVERFLOW_CAPACITY < bytes.len() {
        bytes.skip(k * OVERFLOW_CAPACITY)
    } else {
        Seq::empty()
    }
}

/// Whether a page is link `k` of the chain of a value.
pub open spec fn is_link(page: Seq<u8>, ids: Seq<u64>, bytes: Seq<u8>, k: int) -> bool {
    let next = if k + 1 < ids.len() {
        ids[k + 1]
    } else {
        0
    };
    &&& page.len() == PAGE_SIZE
    &&& page_ok(page)
    &&& page[0] == OVERFLOW
    &&& chunk_of(page) == piece(bytes, k)
    &&& next_of(page) == next
    &&& forall|count: u64| next == 0 || in_snapshot(next, count) ==> #[trigger]
        overflow_valid(page, count)
}

/// Whether a map holds the chain of a value.
pub open spec fn chain_filed(map: Pages, ids: Seq<u64>, bytes: Seq<u8>) -> bool {
    &&& ids.len() == chunks(bytes.len())
    &&& forall|k: int|
        0 <= k < ids.len() ==> map.contains_key(#[trigger] ids[k]) && is_link(
            map[ids[k]],
            ids,
            bytes,
            k,
        )
}

/// The arithmetic of pieces.
proof fn lemma_pieces(len: nat, k: int)
    requires
        0 <= k,
    ensures
        k < chunks(len) ==> k * OVERFLOW_CAPACITY < len,
        k == chunks(len) ==> k * OVERFLOW_CAPACITY >= len,
        k + 1 < chunks(len) ==> (k + 1) * OVERFLOW_CAPACITY < len,
        k + 1 == chunks(len) ==> len <= (k + 1) * OVERFLOW_CAPACITY,
        (k + 1) * OVERFLOW_CAPACITY == k * OVERFLOW_CAPACITY + OVERFLOW_CAPACITY,
{
    let c = OVERFLOW_CAPACITY as int;
    let q = (len + c - 1) / c;
    assert(q * c <= len + c - 1 < q * c + c) by (nonlinear_arith)
        requires
            q == (len + c - 1) / c,
            c == 4076,
    ;
    assert(k < q ==> k * c + c <= q * c) by (nonlinear_arith)
        requires
            c == 4076,
    ;
    assert(k + 1 < q ==> k * c + 2 * c <= q * c) by (nonlinear_arith)
        requires
            c == 4076,
    ;
    assert((k + 1) * c == k * c + c) by (nonlinear_arith);
    assert(k == q ==> k * c == q * c);
    assert(k + 1 == q ==> (k + 1) * c == q * c);
}

/// A chain that is filed can be read.
pub proof fn lemma_chain_filed(
    map: Pages,
    pages: Pages,
    count: u64,
    ids: Seq<u64>,
    bytes: Seq<u8>,
    k: int,
    fuel: nat,
)
    requires
        chain_filed(map, ids, bytes),
        forall|id: u64| #[trigger] map.contains_key(id) ==> pages.contains_key(id) && pages[id]
            == map[id],
        forall|i: int| 0 <= i < ids.len() ==> in_snapshot(#[trigger] ids[i], count),
        0 <= k <= ids.len(),
        fuel >= ids.len() - k,
    ensures
        chain(
            pages,
            count,
            if k < ids.len() {
                ids[k]
            } else {
                0
            },
            fuel,
        ) == Some((ids.skip(k), rest(bytes, k))),
    decreases ids.len() - k,
{
    lemma_pieces(bytes.len(), k);
    if k < ids.len() {
        let id = ids[k];
        assert(in_snapshot(id, count));
        assert(map.contains_key(ids[k]));
        let page = pages[id];
        let next = if k + 1 < ids.len() {
            ids[k + 1]
        } else {
            0
        };
        if k + 1 < ids.len() {
            assert(in_snapshot(ids[k + 1], count));
        }
        assert(overflow_valid(page, count));
        lemma_chain_filed(map, pages, count, ids, bytes, k + 1, (fuel - 1) as nat);
        assert(seq![id] + ids.skip(k + 1) =~= ids.skip(k));
        assert(piece(bytes, k) + rest(bytes, k + 1) =~= rest(bytes, k));
    } else {
        assert(ids.skip(k) =~= Seq::<u64>::empty());
    }
}

/// Whether `more` holds what `map` holds, and beyond that only listed identifiers.
pub open spec fn extends(map: Pages, more: Pages, ids: Seq<u64>) -> bool {
    &&& forall|id: u64| #[trigger]
        map.contains_key(id) ==> more.contains_key(id) && more[id] == map[id]
    &&& forall|id: u64| #[trigger] more.contains_key(id) == (map.contains_key(id) || ids.contains(id))
}

/// Whether none of the pages that are about to be written is in a map yet.
pub open spec fn unlisted(map: Pages, ids: Seq<u64>) -> bool {
    &&& ids.no_duplicates()
    &&& forall|k: int| 0 <= k < ids.len() ==> !map.contains_key(#[trigger] ids[k])
}

/// Number of overflow pages that a value of a given length needs.
pub(crate) fn chunk_count(len: usize) -> (count: usize)
    requires
        len > 0,
    ensures
        count == chunks(len as nat),
        count > 0,
        count <= len,
{
    let count = (len - 1) / OVERFLOW_CAPACITY + 1;
    assert(count == (len + OVERFLOW_CAPACITY - 1) / OVERFLOW_CAPACITY as int) by (nonlinear_arith)
        requires
            count == (len - 1) / (OVERFLOW_CAPACITY as int) + 1,
            OVERFLOW_CAPACITY == 4076,
            len > 0,
    ;
    assert((len - 1) / (OVERFLOW_CAPACITY as int) <= len - 1) by (nonlinear_arith)
        requires
            len > 0,
            OVERFLOW_CAPACITY == 4076,
    ;
    count
}

/// Writes the chain of a value to the pages that it was given.
fn write_chain(
    value: &Vec<u8>,
    allocations: &Vec<u64>,
    start: usize,
    pages: &mut Vec<(u64, [u8; PAGE_SIZE])>,
    Ghost(map): Ghost<Pages>,
) -> (result: Result<(usize, Ghost<Pages>)>)
    requires
        value@.len() > 0,
        start <= allocations@.len(),
    ensures
        match result {
            Ok((next, more)) => {
                let ids = allocations@.subrange(start as int, next as int);
                &&& next == start + chunks(value@.len())
                &&& start < next <= allocations@.len()
                &&& listed(page_list(old(pages)@), map) && unlisted(map, ids) ==> {
                    &&& listed(page_list(final(pages)@), more@)
                    &&& extends(map, more@, ids)
                    &&& chain_filed(more@, ids, value@)
                }
            },
            Err(error) => error is Corrupt && start + chunks(value@.len()) > allocations@.len(),
        },
{
    let count = chunk_count(value.len());
    assert(allocations@.len() == allocations.len());
    if allocations.len() - start < count {
        return Err(corrupt("not enough pages were allocated"));
    }
    let next = start + count;
    let ghost ids = allocations@.subrange(start as int, next as int);
    let ghost bytes = value@;
    let ghost good = listed(page_list(pages@), map) && unlisted(map, ids);
    let ghost mut more: Pages = map;
    let mut index: usize = 0;
    let mut offset: usize = 0;
    proof {
        assert(ids.take(0) =~= Seq::<u64>::empty());
    }
    while index < count
        invariant
            index <= count,
            count == chunks(bytes.len()),
            bytes == value@,
            value@.len() > 0,
            offset == if index < count {
                index * OVERFLOW_CAPACITY
            } else {
                value@.len() as int
            },
            start + count == next,
            next <= allocations@.len(),
            ids == allocations@.subrange(start as int, next as int),
            good ==> unlisted(map, ids),
            good ==> {
                &&& listed(page_list(pages@), more)
                &&& extends(map, more, ids.take(index as int))
                &&& forall|k: int|
                    0 <= k < index ==> more.contains_key(#[trigger] ids[k]) && is_link(
                        more[ids[k]],
                        ids,
                        bytes,
                        k,
                    )
            },
        decreases count - index,
    {
        proof {
            lemma_pieces(bytes.len(), index as int);
        }
        assert(value@.len() == value.len());
        let end = if value.len() - offset > OVERFLOW_CAPACITY {
            offset + OVERFLOW_CAPACITY
        } else {
            value.len()
        };
        let following = if index + 1 < count {
            allocations[start + index + 1]
        } else {
            0
        };
        let page_id = allocations[start + index];
        let ghost so_far = pages@;
        let ghost before = more;
        let chunk = &value.as_slice()[offset..end];
        let page = encode_overflow(chunk, following)?;
        pages.push((page_id, page));
        proof {
            let k = index as int;
            assert(page_list(pages@) =~= page_list(so_far).push((page_id, page@)));
            assert(chunk@ =~= piece(bytes, k));
            assert(ids[k] == page_id);
            if index + 1 < count {
                assert(ids[k + 1] == following);
            }
            assert(is_link(page@, ids, bytes, k));
            if good {
                assert(!before.contains_key(page_id)) by {
                    if before.contains_key(page_id) {
                        assert(ids.take(k).contains(page_id) || map.contains_key(page_id));
                        assert(!map.contains_key(ids[k]));
                        let j = choose|j: int| 0 <= j < ids.take(k).len() && ids.take(k)[j] == page_id;
                        assert(ids[j] == ids[k]);
                    }
                }
                lemma_listed_push(page_list(so_far), before, page_id, page@);
                more = before.insert(page_id, page@);
                assert forall|id: u64| #[trigger] more.contains_key(id) == (map.contains_key(id)
                    || ids.take(k + 1).contains(id)) by {
                    let longer = ids.take(k + 1);
                    if longer.contains(id) {
                        let j = choose|j: int| 0 <= j < longer.len() && longer[j] == id;
                        if j < k {
                            assert(ids.take(k)[j] == id);
                            assert(ids.take(k).contains(id));
                        }
                    }
                    if ids.take(k).contains(id) {
                        let j = choose|j: int| 0 <= j < ids.take(k).len() && ids.take(k)[j] == id;
                        assert(ids.take(k + 1)[j] == id);
                    }
                    if id == page_id {
                        assert(ids.take(k + 1)[k] == id);
                    }
                }
                assert forall|j: int| 0 <= j < k + 1 implies more.contains_key(#[trigger] ids[j])
                    && is_link(more[ids[j]], ids, bytes, j) by {
                    if j < k {
                        assert(ids[j] != ids[k]);
                    }
                }
            }
        }
        offset = end;
        index = index + 1;
    }
    proof {
        assert(ids.take(count as int) =~= ids);
    }
    Ok((next, Ghost(more)))
}

// ---------------------------------------------------------------------------
// Leaves
// ---------------------------------------------------------------------------

/// Number of overflow pages that an entry needs.
pub open spec fn entry_chunks(entry: Entry) -> nat {
    match entry.value {
        Stored::Pending(bytes) => chunks(bytes.len()),
        _ => 0,
    }
}

/// Number of overflow pages that the first `n` entries need.
pub open spec fn leaf_chunks(entries: Seq<Entry>, n: int) -> nat
    decreases n,
{
    if n <= 0 {
        0
    } else {
        leaf_chunks(entries, n - 1) + entry_chunks(entries[n - 1])
    }
}

/// More entries need no fewer pages.
pub proof fn lemma_leaf_chunks(entries: Seq<Entry>, i: int, j: int)
    requires
        0 <= i <= j,
    ensures
        leaf_chunks(entries, i) <= leaf_chunks(entries, j),
    decreases j - i,
{
    if i < j {
        lemma_leaf_chunks(entries, i, j - 1);
    }
}

/// The first pages of the chains of pending values.
pub open spec fn heads_of(entries: Seq<Entry>, allocations: Seq<u64>, cursor: int) -> Seq<u64> {
    Seq::new(
        entries.len(),
        |i: int|
            if entries[i].value is Pending {
                allocations[cursor + leaf_chunks(entries, i)]
            } else {
                0
            },
    )
}

/// The pages of the chains of pending values.
pub open spec fn chains_of(entries: Seq<Entry>, allocations: Seq<u64>, cursor: int) -> Seq<Seq<u64>> {
    Seq::new(
        entries.len(),
        |i: int|
            allocations.subrange(
                cursor + leaf_chunks(entries, i),
                cursor + leaf_chunks(entries, i + 1),
            ),
    )
}

/// Whether a page holds a leaf.
pub open spec fn leaf_filed(page: Seq<u8>, entries: Seq<Entry>, heads: Seq<u64>) -> bool {
    &&& page.len() == PAGE_SIZE
    &&& page_ok(page)
    &&& page[0] == LEAF
    &&& leaf_entries(page) == settled(entries, heads)
    &&& sorted_entries(entries) ==> leaf_valid(page)
}

/// Writes a leaf, and the chains of its pending values, to the pages that they were
/// given.
fn place_leaf(
    page_id: u64,
    entries: &Vec<LeafEntry>,
    allocations: &Vec<u64>,
    cursor: usize,
    pages: &mut Vec<(u64, [u8; PAGE_SIZE])>,
    Ghost(map): Ghost<Pages>,
) -> (result: Result<(usize, Ghost<Pages>)>)
    requires
        entries_fit(entries_of(entries@)),
        cursor <= allocations@.len(),
    ensures
        ({
            let view = entries_of(entries@);
            let total = leaf_chunks(view, view.len() as int);
            match result {
                Ok((next, more)) => {
                    let ids = allocations@.subrange(cursor as int, next as int).push(page_id);
                    &&& next == cursor + total
                    &&& next <= allocations@.len()
                    &&& listed(page_list(old(pages)@), map) && unlisted(map, ids) ==> {
                        &&& listed(page_list(final(pages)@), more@)
                        &&& extends(map, more@, ids)
                        &&& more@.contains_key(page_id) && leaf_filed(
                            more@[page_id],
                            view,
                            heads_of(view, allocations@, cursor as int),
                        )
                        &&& forall|i: int|
                            0 <= i < view.len() ==> ((#[trigger] view[i]).value matches Stored::Pending(
                                bytes,
                            ) ==> chain_filed(
                                more@,
                                chains_of(view, allocations@, cursor as int)[i],
                                bytes,
                            ))
                    }
                },
                Err(error) => error is Corrupt && !(cursor + total <= allocations@.len()
                    && leaf_size(view) <= PAGE_END && forall|k: int|
                    0 <= k < allocations@.len() ==> #[trigger] allocations@[k] != 0),
            }
        }),
{
    let ghost view = entries_of(entries@);
    let ghost alloc = allocations@;
    let ghost start = cursor as int;
    let ghost total = leaf_chunks(view, view.len() as int);
    let ghost whole = alloc.subrange(start, start + total).push(page_id);
    let ghost roomy = start + total <= alloc.len();
    let ghost good = listed(page_list(pages@), map) && unlisted(map, whole) && roomy;
    let ghost mut more: Pages = map;
    let mut heads: Vec<u64> = Vec::new();
    let mut at: usize = cursor;
    let mut index: usize = 0;
    proof {
        assert(alloc.subrange(start, start) =~= Seq::<u64>::empty());
    }
    while index < entries.len()
        invariant
            index <= entries@.len(),
            view == entries_of(entries@),
            entries_fit(view),
            alloc == allocations@,
            start == cursor,
            at == start + leaf_chunks(view, index as int),
            at <= alloc.len(),
            total == leaf_chunks(view, view.len() as int),
            roomy == (start + total <= alloc.len()),
            whole == alloc.subrange(start, start + total).push(page_id),
            heads@ == heads_of(view, alloc, start).take(index as int),
            good ==> roomy && unlisted(map, whole),
            good ==> {
                &&& listed(page_list(pages@), more)
                &&& extends(map, more, alloc.subrange(start, at as int))
                &&& forall|i: int|
                    0 <= i < index ==> ((#[trigger] view[i]).value matches Stored::Pending(bytes)
                        ==> chain_filed(more, chains_of(view, alloc, start)[i], bytes))
            },
        decreases entries@.len() - index,
    {
        let ghost k = index as int;
        let ghost before = more;
        let ghost from = at as int;
        assert(view[k] == entries@[k]@);
        assert(crate::node::entry_fits(view[k]));
        proof {
            lemma_leaf_chunks(view, k + 1, view.len() as int);
        }
        match &entries[index].value {
            StoredValue::Pending(bytes) => {
                proof {
                    lemma_pieces(bytes@.len(), 0);
                }
                let (next, filed) = write_chain(bytes, allocations, at, pages, Ghost(before))?;
                let head = allocations[at];
                heads.push(head);
                proof {
                    let ids = alloc.subrange(from, next as int);
                    if good {
                        lemma_part_unlisted(
                            map,
                            before,
                            alloc,
                            start,
                            from,
                            next as int,
                            total,
                            page_id,
                        );
                        more = filed@;
                        lemma_extends_chain(map, before, more, alloc, start, from, next as int);
                        assert(ids == chains_of(view, alloc, start)[k]);
                        assert forall|i: int| 0 <= i < k + 1 implies (
                        (#[trigger] view[i]).value matches Stored::Pending(b) ==> chain_filed(
                            more,
                            chains_of(view, alloc, start)[i],
                            b,
                        )) by {
                            if i < k {
                                if let Stored::Pending(b) = view[i].value {
                                    lemma_filed_kept(
                                        before,
                                        more,
                                        chains_of(view, alloc, start)[i],
                                        b,
                                    );
                                }
                            }
                        }
                    }
                }
                at = next;
            },
            _ => {
                heads.push(0);
            },
        }
        index = index + 1;
        assert(heads@ =~= heads_of(view, alloc, start).take(index as int));
    }
    proof {
        assert(heads@ =~= heads_of(view, alloc, start));
        if leaf_size(view) <= PAGE_END && (forall|k: int|
            0 <= k < allocations@.len() ==> #[trigger] allocations@[k] != 0) {
            assert forall|i: int| 0 <= i < view.len() && (#[trigger] view[i]).value is Pending implies
                heads@[i] != 0 by {
                assert(crate::node::entry_fits(view[i]));
                lemma_leaf_chunks(view, i + 1, view.len() as int);
                lemma_pieces(entry_bytes(view[i]).len(), 0);
                assert(alloc[start + leaf_chunks(view, i)] != 0);
            }
        }
    }
    let page = encode_leaf(entries, &heads)?;
    let ghost so_far = pages@;
    let ghost before = more;
    pages.push((page_id, page));
    proof {
        assert(page_list(pages@) =~= page_list(so_far).push((page_id, page@)));
        if good {
            let ids = alloc.subrange(start, at as int);
            assert(whole[total as int] == page_id);
            assert(!before.contains_key(page_id)) by {
                if before.contains_key(page_id) {
                    assert(ids.contains(page_id) || map.contains_key(page_id));
                    assert(!map.contains_key(whole[total as int]));
                    let j = choose|j: int| 0 <= j < ids.len() && ids[j] == page_id;
                    assert(whole[j] == whole[total as int]);
                }
            }
            lemma_listed_push(page_list(so_far), before, page_id, page@);
            more = before.insert(page_id, page@);
            assert forall|id: u64| #[trigger] more.contains_key(id) == (map.contains_key(id)
                || whole.contains(id)) by {
                if whole.contains(id) {
                    let j = choose|j: int| 0 <= j < whole.len() && whole[j] == id;
                    if j < total {
                        assert(ids[j] == id);
                    }
                }
                if ids.contains(id) {
                    let j = choose|j: int| 0 <= j < ids.len() && ids[j] == id;
                    assert(whole[j] == id);
                }
                if id == page_id {
                    assert(whole[total as int] == id);
                }
            }
            assert forall|i: int| 0 <= i < view.len() implies (
            (#[trigger] view[i]).value matches Stored::Pending(b) ==> chain_filed(
                more,
                chains_of(view, alloc, start)[i],
                b,
            )) by {
                if let Stored::Pending(b) = view[i].value {
                    lemma_filed_kept(before, more, chains_of(view, alloc, start)[i], b);
                }
            }
        }
    }
    Ok((at, Ghost(more)))
}

/// The bytes of a pending value.
spec fn entry_bytes(entry: Entry) -> Seq<u8> {
    entry.value->Pending_0
}

/// A chain stays filed when pages are added.
proof fn lemma_filed_kept(map: Pages, more: Pages, ids: Seq<u64>, bytes: Seq<u8>)
    requires
        chain_filed(map, ids, bytes),
        forall|id: u64| #[trigger]
            map.contains_key(id) ==> more.contains_key(id) && more[id] == map[id],
    ensures
        chain_filed(more, ids, bytes),
{
    assert forall|k: int| 0 <= k < ids.len() implies more.contains_key(#[trigger] ids[k]) && is_link(
        more[ids[k]],
        ids,
        bytes,
        k,
    ) by {
        assert(map.contains_key(ids[k]));
    }
}

/// The pages of the next chain are not written yet.
proof fn lemma_part_unlisted(
    map: Pages,
    before: Pages,
    alloc: Seq<u64>,
    start: int,
    from: int,
    to: int,
    total: nat,
    page_id: u64,
)
    requires
        0 <= start <= from <= to <= start + total <= alloc.len(),
        unlisted(map, alloc.subrange(start, start + total).push(page_id)),
        extends(map, before, alloc.subrange(start, from)),
    ensures
        unlisted(before, alloc.subrange(from, to)),
{
    let whole = alloc.subrange(start, start + total).push(page_id);
    let done = alloc.subrange(start, from);
    let ids = alloc.subrange(from, to);
    assert forall|i: int, j: int| 0 <= i < ids.len() && 0 <= j < ids.len() && i != j implies ids[i]
        != ids[j] by {
        assert(ids[i] == whole[i + from - start]);
        assert(ids[j] == whole[j + from - start]);
    }
    assert forall|k: int| 0 <= k < ids.len() implies !before.contains_key(#[trigger] ids[k]) by {
        assert(ids[k] == whole[k + from - start]);
        if done.contains(ids[k]) {
            let j = choose|j: int| 0 <= j < done.len() && done[j] == ids[k];
            assert(done[j] == whole[j]);
        }
    }
}

/// Adding the pages of one chain after another.
proof fn lemma_extends_chain(
    map: Pages,
    before: Pages,
    more: Pages,
    alloc: Seq<u64>,
    start: int,
    from: int,
    to: int,
)
    requires
        0 <= start <= from <= to <= alloc.len(),
        extends(map, before, alloc.subrange(start, from)),
        extends(before, more, alloc.subrange(from, to)),
    ensures
        extends(map, more, alloc.subrange(start, to)),
{
    let a = alloc.subrange(start, from);
    let b = alloc.subrange(from, to);
    let all = alloc.subrange(start, to);
    assert forall|id: u64| #[trigger] more.contains_key(id) == (map.contains_key(id)
        || all.contains(id)) by {
        if a.contains(id) {
            let j = choose|j: int| 0 <= j < a.len() && a[j] == id;
            assert(all[j] == id);
        }
        if b.contains(id) {
            let j = choose|j: int| 0 <= j < b.len() && b[j] == id;
            assert(all[j + from - start] == id);
        }
        if all.contains(id) {
            let j = choose|j: int| 0 <= j < all.len() && all[j] == id;
            if j < a.len() {
                assert(a[j] == id);
            } else {
                assert(b[j - a.len()] == id);
            }
        }
        assert(before.contains_key(id) == (map.contains_key(id) || a.contains(id)));
    }
}

// ---------------------------------------------------------------------------
// Which page goes where
// ---------------------------------------------------------------------------

/// Number of marked slots below `n`.
pub open spec fn rank(marks: Seq<bool>, n: int) -> nat
    decreases n,
{
    if n <= 0 {
        0
    } else {
        rank(marks, n - 1) + if marks[n - 1] {
            1nat
        } else {
            0
        }
    }
}

/// Number of overflow pages that the node of a slot needs.
pub open spec fn slot_chunks(slot: Option<Node>) -> nat {
    match slot {
        Some(Node::Leaf(entries)) => leaf_chunks(entries, entries.len() as int),
        _ => 0,
    }
}

/// Number of overflow pages that the marked slots below `n` need.
pub open spec fn chunk_total(dirty: Seq<Option<Node>>, marks: Seq<bool>, n: int) -> nat
    decreases n,
{
    if n <= 0 {
        0
    } else {
        chunk_total(dirty, marks, n - 1) + if marks[n - 1] {
            slot_chunks(dirty[n - 1])
        } else {
            0
        }
    }
}

/// Number of pages that the marked slots need.
pub open spec fn page_demand(dirty: Seq<Option<Node>>, marks: Seq<bool>) -> nat {
    rank(marks, marks.len() as int) + chunk_total(dirty, marks, marks.len() as int)
}

/// Where the chains of a slot start among the allocated pages: after the pages of all
/// nodes and the chains of the slots before it.
pub open spec fn cursor_at(dirty: Seq<Option<Node>>, marks: Seq<bool>, slot: int) -> int {
    rank(marks, marks.len() as int) as int + chunk_total(dirty, marks, slot)
}

/// The entries of a slot.
pub open spec fn slot_entries(slot: Option<Node>) -> Seq<Entry> {
    match slot {
        Some(Node::Leaf(entries)) => entries,
        _ => Seq::empty(),
    }
}

/// Whether an allocated page goes to a slot, for its node or for one of its chains.
pub open spec fn goes_to(
    dirty: Seq<Option<Node>>,
    marks: Seq<bool>,
    alloc: Seq<u64>,
    id: u64,
    slot: usize,
) -> bool {
    &&& slot < marks.len()
    &&& marks[slot as int]
    &&& alloc[rank(marks, slot as int) as int] == id || exists|j: int|
        cursor_at(dirty, marks, slot as int) <= j < cursor_at(dirty, marks, slot + 1)
            && #[trigger] alloc[j] == id
}

/// Which pages the marked slots are given.
pub open spec fn plan_of(dirty: Seq<Option<Node>>, marks: Seq<bool>, alloc: Seq<u64>) -> Plan {
    Plan {
        physical: physical_of(marks, alloc),
        heads: Seq::new(
            marks.len(),
            |slot: int| heads_of(slot_entries(dirty[slot]), alloc, cursor_at(dirty, marks, slot)),
        ),
        chains: Seq::new(
            marks.len(),
            |slot: int| chains_of(slot_entries(dirty[slot]), alloc, cursor_at(dirty, marks, slot)),
        ),
        home: Map::new(
            |id: u64| exists|slot: usize| goes_to(dirty, marks, alloc, id, slot),
            |id: u64| choose|slot: usize| goes_to(dirty, marks, alloc, id, slot),
        ),
    }
}

/// The pages of the nodes.
pub open spec fn physical_of(marks: Seq<bool>, alloc: Seq<u64>) -> Seq<Option<u64>> {
    Seq::new(
        marks.len(),
        |slot: int|
            if marks[slot] {
                Some(alloc[rank(marks, slot) as int])
            } else {
                None
            },
    )
}

/// Ranks and totals grow with the slot.
proof fn lemma_monotone(dirty: Seq<Option<Node>>, marks: Seq<bool>, i: int, j: int)
    requires
        0 <= i <= j <= marks.len(),
    ensures
        rank(marks, i) <= rank(marks, j),
        i < j && marks[i] ==> rank(marks, i) < rank(marks, j),
        chunk_total(dirty, marks, i) <= chunk_total(dirty, marks, j),
        i < j ==> chunk_total(dirty, marks, i + 1) <= chunk_total(dirty, marks, j),
    decreases j - i,
{
    if i < j {
        lemma_monotone(dirty, marks, i, j - 1);
        if i == j - 1 {
            assert(chunk_total(dirty, marks, i + 1) == chunk_total(dirty, marks, j));
        }
    }
}

/// Each allocated page goes to one slot.
proof fn lemma_one_slot(
    dirty: Seq<Option<Node>>,
    marks: Seq<bool>,
    alloc: Seq<u64>,
    id: u64,
    a: usize,
    b: usize,
)
    requires
        alloc.no_duplicates(),
        alloc.len() >= page_demand(dirty, marks),
        goes_to(dirty, marks, alloc, id, a),
        goes_to(dirty, marks, alloc, id, b),
    ensures
        a == b,
{
    let n = marks.len() as int;
    let x = a as int;
    let y = b as int;
    lemma_monotone(dirty, marks, x, n);
    lemma_monotone(dirty, marks, y, n);
    let i = lemma_place_of(dirty, marks, alloc, id, a);
    let j = lemma_place_of(dirty, marks, alloc, id, b);
    assert(i == j);
    if x < y {
        lemma_monotone(dirty, marks, x, y);
    } else if y < x {
        lemma_monotone(dirty, marks, y, x);
    }
}

/// Where a page that goes to a slot stands among the allocated pages.
proof fn lemma_place_of(
    dirty: Seq<Option<Node>>,
    marks: Seq<bool>,
    alloc: Seq<u64>,
    id: u64,
    slot: usize,
) -> (j: int)
    requires
        alloc.len() >= page_demand(dirty, marks),
        goes_to(dirty, marks, alloc, id, slot),
    ensures
        0 <= j < page_demand(dirty, marks),
        alloc[j] == id,
        j == rank(marks, slot as int) || cursor_at(dirty, marks, slot as int) <= j < cursor_at(
            dirty,
            marks,
            slot + 1,
        ),
{
    let n = marks.len() as int;
    let s = slot as int;
    lemma_monotone(dirty, marks, s, n);
    if alloc[rank(marks, s) as int] == id {
        rank(marks, s) as int
    } else {
        choose|j: int|
            cursor_at(dirty, marks, s) <= j < cursor_at(dirty, marks, s + 1) && #[trigger] alloc[j]
                == id
    }
}

/// Every allocated page goes to some slot.
proof fn lemma_some_slot(dirty: Seq<Option<Node>>, marks: Seq<bool>, alloc: Seq<u64>, j: int)
    requires
        0 <= j < page_demand(dirty, marks),
        marks.len() <= usize::MAX,
    ensures
        exists|slot: usize| goes_to(dirty, marks, alloc, alloc[j], slot),
{
    let n = marks.len() as int;
    if j < rank(marks, n) {
        let s = lemma_find_rank(marks, n, j);
        assert(goes_to(dirty, marks, alloc, alloc[j], s as usize));
    } else {
        let s = lemma_find_chunk(dirty, marks, n, j - rank(marks, n));
        assert(goes_to(dirty, marks, alloc, alloc[j], s as usize));
    }
}

proof fn lemma_find_rank(marks: Seq<bool>, n: int, j: int) -> (s: int)
    requires
        0 <= n <= marks.len(),
        0 <= j < rank(marks, n),
    ensures
        0 <= s < n,
        marks[s],
        rank(marks, s) == j,
    decreases n,
{
    if marks[n - 1] && rank(marks, n - 1) == j {
        n - 1
    } else {
        lemma_find_rank(marks, n - 1, j)
    }
}

proof fn lemma_find_chunk(dirty: Seq<Option<Node>>, marks: Seq<bool>, n: int, j: int) -> (s: int)
    requires
        0 <= n <= marks.len(),
        0 <= j < chunk_total(dirty, marks, n),
    ensures
        0 <= s < n,
        marks[s],
        chunk_total(dirty, marks, s) <= j < chunk_total(dirty, marks, s + 1),
    decreases n,
{
    if j >= chunk_total(dirty, marks, n - 1) {
        n - 1
    } else {
        lemma_find_chunk(dirty, marks, n - 1, j)
    }
}

/// Whether a page holds an internal node.
pub open spec fn internal_filed(page: Seq<u8>, links: Seq<Link>, physical: Seq<Option<u64>>) -> bool {
    &&& page.len() == PAGE_SIZE
    &&& page_ok(page)
    &&& page[0] == INTERNAL
    &&& all_resolve(links, physical)
    &&& internal_links(page) == resolved(links, physical)
    &&& forall|count: u64|
        sorted_links(links) && all_in_snapshot(links, physical, count) ==> #[trigger]
        internal_valid(page, count)
}

/// Whether a map holds the node of a slot and its chains.
pub open spec fn slot_filed(
    map: Pages,
    dirty: Seq<Option<Node>>,
    marks: Seq<bool>,
    alloc: Seq<u64>,
    slot: int,
) -> bool {
    let id = alloc[rank(marks, slot) as int];
    let cursor = cursor_at(dirty, marks, slot);
    &&& map.contains_key(id)
    &&& dirty[slot] is Some
    &&& match dirty[slot]->0 {
        Node::Leaf(entries) => {
            &&& leaf_filed(map[id], entries, heads_of(entries, alloc, cursor))
            &&& forall|i: int|
                0 <= i < entries.len() ==> ((#[trigger] entries[i]).value matches Stored::Pending(
                    bytes,
                ) ==> chain_filed(map, chains_of(entries, alloc, cursor)[i], bytes))
        },
        Node::Internal(links) => internal_filed(map[id], links, physical_of(marks, alloc)),
    }
}

/// A slot stays filed when pages are added.
proof fn lemma_slot_kept(
    map: Pages,
    more: Pages,
    dirty: Seq<Option<Node>>,
    marks: Seq<bool>,
    alloc: Seq<u64>,
    slot: int,
)
    requires
        slot_filed(map, dirty, marks, alloc, slot),
        forall|id: u64| #[trigger]
            map.contains_key(id) ==> more.contains_key(id) && more[id] == map[id],
    ensures
        slot_filed(more, dirty, marks, alloc, slot),
{
    if let Node::Leaf(entries) = dirty[slot]->0 {
        let cursor = cursor_at(dirty, marks, slot);
        assert forall|i: int| 0 <= i < entries.len() implies (
        (#[trigger] entries[i]).value matches Stored::Pending(bytes) ==> chain_filed(
            more,
            chains_of(entries, alloc, cursor)[i],
            bytes,
        )) by {
            if let Stored::Pending(bytes) = entries[i].value {
                lemma_filed_kept(map, more, chains_of(entries, alloc, cursor)[i], bytes);
            }
        }
    }
}

/// Whether a map holds the pages that go to the slots below `n`, and nothing else.
pub open spec fn filed_below(
    map: Pages,
    dirty: Seq<Option<Node>>,
    marks: Seq<bool>,
    alloc: Seq<u64>,
    n: int,
) -> bool {
    &&& forall|slot: int|
        0 <= slot < n && #[trigger] marks[slot] ==> slot_filed(map, dirty, marks, alloc, slot)
    &&& forall|id: u64| #[trigger]
        map.contains_key(id) == exists|slot: usize|
            slot < n && goes_to(dirty, marks, alloc, id, slot)
}

/// The pages that go to a slot are not filed before it is.
proof fn lemma_slot_unlisted(
    map: Pages,
    dirty: Seq<Option<Node>>,
    marks: Seq<bool>,
    alloc: Seq<u64>,
    slot: usize,
)
    requires
        alloc.no_duplicates(),
        alloc.len() >= page_demand(dirty, marks),
        slot < marks.len(),
        marks[slot as int],
        filed_below(map, dirty, marks, alloc, slot as int),
    ensures
        unlisted(
            map,
            alloc.subrange(
                cursor_at(dirty, marks, slot as int),
                cursor_at(dirty, marks, slot + 1),
            ).push(alloc[rank(marks, slot as int) as int]),
        ),
{
    let s = slot as int;
    let n = marks.len() as int;
    lemma_monotone(dirty, marks, s, n);
    lemma_monotone(dirty, marks, s + 1, n);
    let from = cursor_at(dirty, marks, s);
    let to = cursor_at(dirty, marks, s + 1);
    let part = alloc.subrange(from, to);
    let ids = part.push(alloc[rank(marks, s) as int]);
    assert forall|i: int, j: int| 0 <= i < ids.len() && 0 <= j < ids.len() && i != j implies ids[i]
        != ids[j] by {
        let x = if i < part.len() {
            from + i
        } else {
            rank(marks, s) as int
        };
        let y = if j < part.len() {
            from + j
        } else {
            rank(marks, s) as int
        };
        assert(ids[i] == alloc[x]);
        assert(ids[j] == alloc[y]);
    }
    assert forall|k: int| 0 <= k < ids.len() implies !map.contains_key(#[trigger] ids[k]) by {
        let x = if k < part.len() {
            from + k
        } else {
            rank(marks, s) as int
        };
        assert(ids[k] == alloc[x]);
        assert(goes_to(dirty, marks, alloc, ids[k], slot));
        if map.contains_key(ids[k]) {
            let other = choose|other: usize|
                other < slot && goes_to(dirty, marks, alloc, ids[k], other);
            lemma_one_slot(dirty, marks, alloc, ids[k], slot, other);
        }
    }
}

/// Filing one more slot.
proof fn lemma_slot_filed(
    map: Pages,
    more: Pages,
    dirty: Seq<Option<Node>>,
    marks: Seq<bool>,
    alloc: Seq<u64>,
    slot: usize,
)
    requires
        slot < marks.len(),
        alloc.len() >= page_demand(dirty, marks),
        filed_below(map, dirty, marks, alloc, slot as int),
        marks[slot as int] ==> {
            &&& extends(
                map,
                more,
                alloc.subrange(
                    cursor_at(dirty, marks, slot as int),
                    cursor_at(dirty, marks, slot + 1),
                ).push(alloc[rank(marks, slot as int) as int]),
            )
            &&& slot_filed(more, dirty, marks, alloc, slot as int)
        },
        !marks[slot as int] ==> more == map,
    ensures
        filed_below(more, dirty, marks, alloc, slot + 1),
{
    let s = slot as int;
    let n = marks.len() as int;
    lemma_monotone(dirty, marks, s, n);
    lemma_monotone(dirty, marks, s + 1, n);
    let from = cursor_at(dirty, marks, s);
    let to = cursor_at(dirty, marks, s + 1);
    let part = alloc.subrange(from, to);
    let ids = part.push(alloc[rank(marks, s) as int]);
    assert forall|t: int| 0 <= t < s + 1 && #[trigger] marks[t] implies slot_filed(
        more,
        dirty,
        marks,
        alloc,
        t,
    ) by {
        if t < s {
            assert(slot_filed(map, dirty, marks, alloc, t));
            if marks[s] {
                lemma_slot_kept(map, more, dirty, marks, alloc, t);
            }
        }
    }
    assert forall|id: u64| #[trigger] more.contains_key(id) == exists|t: usize|
        t < s + 1 && goes_to(dirty, marks, alloc, id, t) by {
        if more.contains_key(id) {
            if map.contains_key(id) {
                let t = choose|t: usize| t < slot && goes_to(dirty, marks, alloc, id, t);
                assert(t < s + 1 && goes_to(dirty, marks, alloc, id, t));
            } else {
                let k = choose|k: int| 0 <= k < ids.len() && ids[k] == id;
                if k < part.len() {
                    assert(alloc[from + k] == id);
                }
                assert(goes_to(dirty, marks, alloc, id, slot));
            }
        }
        if exists|t: usize| t < s + 1 && goes_to(dirty, marks, alloc, id, t) {
            let t = choose|t: usize| t < s + 1 && goes_to(dirty, marks, alloc, id, t);
            if t < slot {
                assert(map.contains_key(id));
            } else {
                if alloc[rank(marks, s) as int] == id {
                    assert(ids[part.len() as int] == id);
                } else {
                    let j = choose|j: int| from <= j < to && #[trigger] alloc[j] == id;
                    assert(ids[j - from] == id);
                }
                assert(ids.contains(id));
            }
        }
    }
}

// ---------------------------------------------------------------------------
// The published tree
// ---------------------------------------------------------------------------

/// Whether a slot belongs to a tree.
pub open spec fn reached(env: Env, r: PageRef, h: nat, marks: Seq<bool>) -> bool {
    &&& marks.len() == env.dirty.len()
    &&& forall|slot: usize|
        slot < marks.len() ==> (#[trigger] marks[slot as int]) == owns(
            env,
            r,
            h,
            PageRef::Dirty(slot),
        )
}

/// Whether a map holds the nodes in memory of a tree and their chains on the pages that they
/// are given, and nothing else.
pub open spec fn files_all(env: Env, r: PageRef, h: nat, alloc: Seq<u64>, map: Pages) -> bool {
    forall|marks: Seq<bool>| #[trigger]
        reached(env, r, h, marks) ==> filed_below(
            map,
            env.dirty,
            marks,
            alloc,
            marks.len() as int,
        )
}

/// Whether pages can be given to the nodes and values of a tree: they are distinct, lie
/// in the new snapshot, and the tree does not use them.
pub open spec fn grantable(env: Env, r: PageRef, h: nat, alloc: Seq<u64>, next_page: u64) -> bool {
    &&& env.count <= next_page
    &&& alloc.no_duplicates()
    &&& forall|k: int|
        0 <= k < alloc.len() ==> in_snapshot(#[trigger] alloc[k], next_page) && !owns(
            env,
            r,
            h,
            PageRef::Committed(alloc[k]),
        )
}

/// A node in memory below a sorted tree heads a sorted tree.
pub proof fn lemma_owned_tree(env: Env, r: PageRef, h: nat, slot: usize) -> (below: nat)
    requires
        is_tree(env, r, h),
        owns(env, r, h, PageRef::Dirty(slot)),
    ensures
        is_tree(env, PageRef::Dirty(slot), below),
        forall|p: PageRef| #[trigger]
            owns(env, PageRef::Dirty(slot), below, p) ==> owns(env, r, h, p),
    decreases h,
{
    let q = PageRef::Dirty(slot);
    if q == r {
        h
    } else {
        reveal(subtree);
        reveal(run_ok);
        reveal(owns);
        let links = node_at(env, r)->0->Internal_0;
        if let Some(Node::Leaf(entries)) = node_at(env, r) {
            assert(false);
        }
        let under = (h - 1) as nat;
        let i = choose|i: int|
            0 <= i < links.len() && owns(env, (#[trigger] links[i]).page, under, q);
        crate::model::lemma_run_sorted(env, links, under, 1);
        let below = lemma_owned_tree(env, links[i].page, under, slot);
        assert forall|p: PageRef| #[trigger] owns(env, q, below, p) implies owns(env, r, h, p) by {
            assert(owns(env, links[i].page, under, p));
        }
        below
    }
}

/// The first page of a chain is where the chain starts.
proof fn lemma_chain_start(entries: Seq<Entry>, alloc: Seq<u64>, cursor: int, i: int)
    requires
        0 <= i < entries.len(),
        entries_fit(entries),
        entries[i].value is Pending,
        0 <= cursor,
        cursor + leaf_chunks(entries, entries.len() as int) <= alloc.len(),
    ensures
        ({
            let ids = chains_of(entries, alloc, cursor)[i];
            let bytes = entries[i].value->Pending_0;
            &&& ids.len() == chunks(bytes.len())
            &&& ids.len() > 0
            &&& ids[0] == heads_of(entries, alloc, cursor)[i]
            &&& forall|k: int|
                0 <= k < ids.len() ==> #[trigger] ids[k] == alloc[cursor + leaf_chunks(entries, i) + k]
            &&& cursor + leaf_chunks(entries, i + 1) <= cursor + leaf_chunks(
                entries,
                entries.len() as int,
            )
        }),
{
    assert(crate::node::entry_fits(entries[i]));
    let bytes = entries[i].value->Pending_0;
    lemma_leaf_chunks(entries, i + 1, entries.len() as int);
    lemma_pieces(bytes.len(), 0);
    assert(leaf_chunks(entries, i + 1) == leaf_chunks(entries, i) + chunks(bytes.len()));
}

/// Once all its pages are filed, the node of a slot is placed.
proof fn lemma_placed(
    env: Env,
    r: PageRef,
    h: nat,
    marks: Seq<bool>,
    alloc: Seq<u64>,
    next_page: u64,
    map: Pages,
    slot: usize,
)
    requires
        is_tree(env, r, h),
        reached(env, r, h, marks),
        grantable(env, r, h, alloc, next_page),
        alloc.len() == page_demand(env.dirty, marks),
        filed_below(map, env.dirty, marks, alloc, marks.len() as int),
        owns(env, r, h, PageRef::Dirty(slot)),
    ensures
        placed(
            env,
            published(env.pages.union_prefer_right(map), next_page),
            plan_of(env.dirty, marks, alloc),
            slot,
        ),
{
    let dirty = env.dirty;
    let plan = plan_of(dirty, marks, alloc);
    let other = published(env.pages.union_prefer_right(map), next_page);
    let s = slot as int;
    let n = marks.len() as int;
    lemma_owned_slots(env, r, h, PageRef::Dirty(slot));
    assert(marks[s]);
    assert(slot_filed(map, dirty, marks, alloc, s));
    lemma_monotone(dirty, marks, s, n);
    lemma_monotone(dirty, marks, s + 1, n);
    let id = alloc[rank(marks, s) as int];
    assert(in_snapshot(id, next_page));
    assert(goes_to(dirty, marks, alloc, id, slot));
    assert(other.pages[id] == map[id]);
    lemma_home(dirty, marks, alloc, id, slot);
    let below = lemma_owned_tree(env, r, h, slot);
    assert forall|x: u64| #[trigger]
        plan.home.contains_key(x) && plan.home[x] == slot implies plan.physical[s] == Some(x) || (
    dirty[s]->0 matches Node::Leaf(entries) && exists|i: int|
        0 <= i < entries.len() && (#[trigger] entries[i]).value is Pending
            && plan.chains[s][i].contains(x)) by {
        lemma_home_back(dirty, marks, alloc, x, slot);
    }
    match dirty[s]->0 {
        Node::Leaf(entries) => {
            lemma_leaf_sorted(env, slot, below);
            let cursor = cursor_at(dirty, marks, s);
            assert(slot_entries(dirty[s]) == entries);
            assert forall|i: int| 0 <= i < entries.len() implies #[trigger] chain_placed(
                env,
                other,
                plan,
                slot,
                i,
            ) by {
                if let Stored::Pending(bytes) = entries[i].value {
                    lemma_chain_is_placed(env, other, marks, alloc, next_page, map, slot, i, entries);
                }
            }
            assert forall|i: int, j: int, k: u64|
                0 <= i < j < entries.len() && entries[i].value is Pending
                    && entries[j].value is Pending implies !(
            #[trigger] plan.chains[s][i].contains(k) && #[trigger] plan.chains[s][j].contains(k)) by {
                lemma_chain_start(entries, alloc, cursor, i);
                lemma_chain_start(entries, alloc, cursor, j);
                lemma_leaf_chunks(entries, i + 1, j);
                let x = plan.chains[s][i];
                let y = plan.chains[s][j];
                if x.contains(k) && y.contains(k) {
                    let a = choose|a: int| 0 <= a < x.len() && x[a] == k;
                    let b = choose|b: int| 0 <= b < y.len() && y[b] == k;
                    assert(alloc[cursor + leaf_chunks(entries, i) + a] == alloc[cursor
                        + leaf_chunks(entries, j) + b]);
                }
            }
        },
        Node::Internal(links) => {
            lemma_links_in_snapshot(env, r, h, marks, alloc, next_page, slot, below, links);
        },
    }
}

/// The entries of a leaf in memory stand in order.
proof fn lemma_leaf_sorted(env: Env, slot: usize, h: nat)
    requires
        is_tree(env, PageRef::Dirty(slot), h),
        node_at(env, PageRef::Dirty(slot)) matches Some(Node::Leaf(_)),
    ensures
        sorted_entries(node_at(env, PageRef::Dirty(slot))->0->Leaf_0),
        entries_fit(node_at(env, PageRef::Dirty(slot))->0->Leaf_0),
{
    reveal(subtree);
}

/// The children of an internal node lie in the new snapshot.
proof fn lemma_links_in_snapshot(
    env: Env,
    r: PageRef,
    h: nat,
    marks: Seq<bool>,
    alloc: Seq<u64>,
    next_page: u64,
    slot: usize,
    below: nat,
    links: Seq<Link>,
)
    requires
        reached(env, r, h, marks),
        is_tree(env, r, h),
        grantable(env, r, h, alloc, next_page),
        alloc.len() == page_demand(env.dirty, marks),
        is_tree(env, PageRef::Dirty(slot), below),
        forall|p: PageRef| #[trigger]
            owns(env, PageRef::Dirty(slot), below, p) ==> owns(env, r, h, p),
        node_at(env, PageRef::Dirty(slot)) == Some(Node::Internal(links)),
    ensures
        all_in_snapshot(links, physical_of(marks, alloc), next_page),
        sorted_links(links),
{
    reveal(subtree);
    reveal(run_ok);
    let under = (below - 1) as nat;
    crate::model::lemma_run_sorted(env, links, under, 0);
    let physical = physical_of(marks, alloc);
    assert forall|i: int| 0 <= i < links.len() implies in_snapshot(
        resolve((#[trigger] links[i]).page, physical)->0,
        next_page,
    ) by {
        lemma_run_child(env, links, under, i);
        let p = links[i].page;
        lemma_owns_root(env, p, under);
        assert(run_owns(env, links, under, p));
        assert(owns(env, PageRef::Dirty(slot), below, p)) by {
            reveal(owns);
        }
        match p {
            PageRef::Committed(id) => {
                assert(subtree(env, p, under));
                assert(node_at(env, p) is Some);
            },
            PageRef::Dirty(child) => {
                lemma_owned_slots(env, r, h, p);
                assert(marks[child as int]);
                lemma_monotone(env.dirty, marks, child as int, marks.len() as int);
                assert(in_snapshot(alloc[rank(marks, child as int) as int], next_page));
            },
        }
    }
}

/// The home of a page is the slot that it goes to.
proof fn lemma_home(
    dirty: Seq<Option<Node>>,
    marks: Seq<bool>,
    alloc: Seq<u64>,
    id: u64,
    slot: usize,
)
    requires
        alloc.no_duplicates(),
        alloc.len() >= page_demand(dirty, marks),
        goes_to(dirty, marks, alloc, id, slot),
    ensures
        plan_of(dirty, marks, alloc).home.contains_key(id),
        plan_of(dirty, marks, alloc).home[id] == slot,
{
    let chosen = choose|other: usize| goes_to(dirty, marks, alloc, id, other);
    lemma_one_slot(dirty, marks, alloc, id, slot, chosen);
}

/// A page whose home is a slot is that of its node or of one of its chains.
proof fn lemma_home_back(
    dirty: Seq<Option<Node>>,
    marks: Seq<bool>,
    alloc: Seq<u64>,
    id: u64,
    slot: usize,
)
    requires
        plan_of(dirty, marks, alloc).home.contains_key(id),
        plan_of(dirty, marks, alloc).home[id] == slot,
        slot < marks.len(),
        marks[slot as int],
        alloc.len() >= page_demand(dirty, marks),
        dirty[slot as int] is Some,
    ensures
        plan_of(dirty, marks, alloc).physical[slot as int] == Some(id) || (
        dirty[slot as int]->0 matches Node::Leaf(entries) && exists|i: int|
            0 <= i < entries.len() && (#[trigger] entries[i]).value is Pending && plan_of(
                dirty,
                marks,
                alloc,
            ).chains[slot as int][i].contains(id)),
{
    let s = slot as int;
    let n = marks.len() as int;
    assert(goes_to(dirty, marks, alloc, id, slot));
    lemma_monotone(dirty, marks, s + 1, n);
    if alloc[rank(marks, s) as int] != id {
        let cursor = cursor_at(dirty, marks, s);
        let j = choose|j: int|
            cursor <= j < cursor_at(dirty, marks, s + 1) && #[trigger] alloc[j] == id;
        let entries = slot_entries(dirty[s]);
        assert(j - cursor < slot_chunks(dirty[s]));
        let i = lemma_find_entry(entries, entries.len() as int, j - cursor);
        let ids = chains_of(entries, alloc, cursor)[i];
        lemma_leaf_chunks(entries, i + 1, entries.len() as int);
        assert(ids[j - cursor - leaf_chunks(entries, i)] == id);
        assert(entries[i].value is Pending);
    }
}

proof fn lemma_find_entry(entries: Seq<Entry>, n: int, j: int) -> (i: int)
    requires
        0 <= n <= entries.len(),
        0 <= j < leaf_chunks(entries, n),
    ensures
        0 <= i < n,
        leaf_chunks(entries, i) <= j < leaf_chunks(entries, i + 1),
        entries[i].value is Pending,
    decreases n,
{
    if j >= leaf_chunks(entries, n - 1) {
        n - 1
    } else {
        lemma_find_entry(entries, n - 1, j)
    }
}

/// Once it is filed, the chain of a value can be read.
proof fn lemma_chain_is_placed(
    env: Env,
    other: Env,
    marks: Seq<bool>,
    alloc: Seq<u64>,
    next_page: u64,
    map: Pages,
    slot: usize,
    i: int,
    entries: Seq<Entry>,
)
    requires
        other == published(env.pages.union_prefer_right(map), next_page),
        alloc.no_duplicates(),
        alloc.len() == page_demand(env.dirty, marks),
        forall|k: int| 0 <= k < alloc.len() ==> in_snapshot(#[trigger] alloc[k], next_page),
        slot < marks.len(),
        marks.len() == env.dirty.len(),
        marks[slot as int],
        slot_filed(map, env.dirty, marks, alloc, slot as int),
        env.dirty[slot as int] == Some(Node::Leaf(entries)),
        entries_fit(entries),
        0 <= i < entries.len(),
        entries[i].value is Pending,
    ensures
        chain_placed(env, other, plan_of(env.dirty, marks, alloc), slot, i),
{
    let dirty = env.dirty;
    let s = slot as int;
    let n = marks.len() as int;
    let plan = plan_of(dirty, marks, alloc);
    let cursor = cursor_at(dirty, marks, s);
    let bytes = entries[i].value->Pending_0;
    let ids = chains_of(entries, alloc, cursor)[i];
    lemma_monotone(dirty, marks, s, n);
    lemma_monotone(dirty, marks, s + 1, n);
    assert(slot_entries(dirty[s]) == entries);
    assert(cursor + leaf_chunks(entries, entries.len() as int) == cursor_at(dirty, marks, s + 1));
    lemma_chain_start(entries, alloc, cursor, i);
    let start = cursor + leaf_chunks(entries, i);
    assert(plan.chains[s][i] == ids);
    assert(plan.heads[s][i] == ids[0]);
    assert forall|k: int| 0 <= k < ids.len() implies plan.home.contains_key(#[trigger] ids[k])
        && plan.home[ids[k]] == slot && plan.physical[s] != Some(ids[k]) && in_snapshot(
        ids[k],
        next_page,
    ) by {
        assert(ids[k] == alloc[start + k]);
        assert(goes_to(dirty, marks, alloc, ids[k], slot));
        lemma_home(dirty, marks, alloc, ids[k], slot);
        assert(alloc[rank(marks, s) as int] != alloc[start + k]);
    }
    assert(ids.no_duplicates()) by {
        assert forall|a: int, b: int| 0 <= a < ids.len() && 0 <= b < ids.len() && a != b implies
            ids[a] != ids[b] by {
            assert(alloc[start + a] != alloc[start + b]);
        }
    }
    lemma_ids_bounded(ids, next_page);
    lemma_chain_filed(map, other.pages, next_page, ids, bytes, 0, next_page as nat);
    assert(ids.skip(0) =~= ids);
    assert(rest(bytes, 0) =~= bytes);
    lemma_pieces(bytes.len(), ids.len() - 1);
    assert(bytes.len() <= value_capacity(next_page)) by (nonlinear_arith)
        requires
            bytes.len() <= (ids.len() - 1 + 1) * OVERFLOW_CAPACITY,
            ids.len() <= next_page - crate::format::META_PAGES,
            OVERFLOW_CAPACITY == 4076,
            next_page >= crate::format::META_PAGES,
    ;
}

/// A value that is written to an overflow chain is read back from it.
pub proof fn law_chain_reads_back(map: Pages, pages: Pages, count: u64, ids: Seq<u64>, bytes: Seq<u8>)
    requires
        chain_filed(map, ids, bytes),
        forall|id: u64| #[trigger] map.contains_key(id) ==> pages.contains_key(id) && pages[id]
            == map[id],
        ids.no_duplicates(),
        forall|k: int| 0 <= k < ids.len() ==> in_snapshot(#[trigger] ids[k], count),
        bytes.len() > 0,
    ensures
        ids.len() > 0,
        read_value(pages, count, Stored::Overflow { head: ids[0], len: bytes.len() }) == Some(bytes),
        value_pages(pages, count, Stored::Overflow { head: ids[0], len: bytes.len() }) == ids,
{
    lemma_pieces(bytes.len(), 0);
    lemma_ids_bounded(ids, count);
    lemma_chain_filed(map, pages, count, ids, bytes, 0, count as nat);
    assert(ids.skip(0) =~= ids);
    assert(rest(bytes, 0) =~= bytes);
    lemma_pieces(bytes.len(), ids.len() - 1);
    assert(bytes.len() <= value_capacity(count)) by (nonlinear_arith)
        requires
            bytes.len() <= (ids.len() - 1 + 1) * OVERFLOW_CAPACITY,
            ids.len() <= count - crate::format::META_PAGES,
            OVERFLOW_CAPACITY == 4076,
            count >= crate::format::META_PAGES,
    ;
}

/// Distinct pages of a snapshot are no more than its data pages.
pub proof fn lemma_ids_bounded(ids: Seq<u64>, count: u64)
    requires
        ids.no_duplicates(),
        forall|k: int| 0 <= k < ids.len() ==> in_snapshot(#[trigger] ids[k], count),
        ids.len() > 0,
    ensures
        ids.len() <= count - crate::format::META_PAGES,
        count >= crate::format::META_PAGES,
{
    assert(in_snapshot(ids[0], count));
    let low = crate::format::META_PAGES as int;
    let range = vstd::set_lib::set_int_range(low, count as int);
    vstd::set_lib::lemma_int_range(low, count as int);
    let ints = ids.map_values(|id: u64| id as int);
    assert(ints.no_duplicates()) by {
        assert forall|a: int, b: int| 0 <= a < ints.len() && 0 <= b < ints.len() && a != b implies
            ints[a] != ints[b] by {
            assert(ids[a] != ids[b]);
        }
    }
    ints.unique_seq_to_set();
    assert(ints.to_set().subset_of(range)) by {
        assert forall|x: int| ints.to_set().contains(x) implies #[trigger] range.contains(x) by {
            let k = choose|k: int| 0 <= k < ints.len() && ints[k] == x;
            assert(in_snapshot(ids[k], count));
        }
    }
    vstd::set_lib::lemma_len_subset(ints.to_set(), range);
}

/// The tree once all its pages are filed.
proof fn lemma_filed(
    env: Env,
    r: PageRef,
    h: nat,
    marks: Seq<bool>,
    alloc: Seq<u64>,
    next_page: u64,
    map: Pages,
)
    requires
        is_tree(env, r, h),
        reached(env, r, h, marks),
        grantable(env, r, h, alloc, next_page),
        alloc.len() == page_demand(env.dirty, marks),
        marks.len() <= usize::MAX,
        filed_below(map, env.dirty, marks, alloc, marks.len() as int),
    ensures
        resolve(r, physical_of(marks, alloc)) is Some,
        ({
            let other = published(env.pages.union_prefer_right(map), next_page);
            let s = PageRef::Committed(resolve(r, physical_of(marks, alloc))->0);
            &&& is_tree(other, s, h)
            &&& rows_of(other, flat(other, s, h)) == rows_of(env, flat(env, r, h))
            &&& forall|x: u64| #[trigger]
                owns(other, s, h, PageRef::Committed(x)) == (owns(env, r, h, PageRef::Committed(x))
                    || alloc.contains(x))
            &&& spreading(env, r, h) ==> spreading(other, s, h)
        }),
        forall|id: u64| #[trigger] map.contains_key(id) == alloc.contains(id),
{
    let dirty = env.dirty;
    let plan = plan_of(dirty, marks, alloc);
    let other = published(env.pages.union_prefer_right(map), next_page);
    assert forall|id: u64| #[trigger] plan.home.contains_key(id) implies alloc.contains(id) && owns(
        env,
        r,
        h,
        PageRef::Dirty(plan.home[id]),
    ) by {
        let slot = plan.home[id];
        assert(goes_to(dirty, marks, alloc, id, slot));
        let j = lemma_place_of(dirty, marks, alloc, id, slot);
        assert(alloc.contains(alloc[j]));
        assert(marks[slot as int]);
    }
    assert forall|id: u64| #[trigger] alloc.contains(id) implies plan.home.contains_key(id) by {
        let j = choose|j: int| 0 <= j < alloc.len() && alloc[j] == id;
        lemma_some_slot(dirty, marks, alloc, j);
    }
    assert forall|id: u64| #[trigger] map.contains_key(id) == alloc.contains(id) by {
        if map.contains_key(id) {
            let slot = choose|slot: usize|
                slot < marks.len() && goes_to(dirty, marks, alloc, id, slot);
            let j = lemma_place_of(dirty, marks, alloc, id, slot);
            assert(alloc.contains(alloc[j]));
        }
        if alloc.contains(id) {
            let j = choose|j: int| 0 <= j < alloc.len() && alloc[j] == id;
            lemma_some_slot(dirty, marks, alloc, j);
            let slot = choose|slot: usize| goes_to(dirty, marks, alloc, id, slot);
            assert(slot < marks.len() && goes_to(dirty, marks, alloc, id, slot));
        }
    }
    assert(publishable(env, other, plan, r, h)) by {
        assert forall|slot: usize| #[trigger] owns(env, r, h, PageRef::Dirty(slot)) implies placed(
            env,
            other,
            plan,
            slot,
        ) by {
            lemma_placed(env, r, h, marks, alloc, next_page, map, slot);
        }
        assert forall|id: u64| #[trigger] owns(env, r, h, PageRef::Committed(id)) implies
            !plan.home.contains_key(id) && same_at(env, other, PageRef::Committed(id)) by {
            assert(!alloc.contains(id)) by {
                if alloc.contains(id) {
                    let j = choose|j: int| 0 <= j < alloc.len() && alloc[j] == id;
                    assert(!owns(env, r, h, PageRef::Committed(alloc[j])));
                }
            }
            assert(!map.contains_key(id));
        }
    }
    lemma_translate(env, other, plan, r, h);
    if spreading(env, r, h) {
        lemma_spreading_published(env, other, plan, r, h);
    }
    let s = PageRef::Committed(resolve(r, physical_of(marks, alloc))->0);
    assert(plan.physical == physical_of(marks, alloc));
    let a = flat(env, r, h);
    let b = flat(other, s, h);
    assert(rows_of(other, b).len() == b.len() && rows_of(env, a).len() == a.len());
    assert forall|i: int, j: int| 0 <= i < j < b.len() implies crate::order::lt(
        #[trigger] b[i].key,
        #[trigger] b[j].key,
    ) by {
        assert(rows_of(other, b)[i].0 == rows_of(env, a)[i].0);
        assert(rows_of(other, b)[j].0 == rows_of(env, a)[j].0);
        assert(crate::order::lt(a[i].key, a[j].key));
    }
    assert forall|x: u64| #[trigger] owns(other, s, h, PageRef::Committed(x)) == (owns(
        env,
        r,
        h,
        PageRef::Committed(x),
    ) || alloc.contains(x)) by {
        assert(owns(other, s, h, PageRef::Committed(x)) == owns_placed(env, plan, r, h, x));
    }
}

// ---------------------------------------------------------------------------
// Planning and writing
// ---------------------------------------------------------------------------

/// How many pages a transaction needs, and in which runs.
pub struct AllocationPlan {
    /// Number of pages for nodes.
    pub tree_pages: usize,
    /// Number of pages for each overflow chain.
    pub overflow_chains: Vec<usize>,
}

/// The sum of the lengths of chains.
pub open spec fn chain_sum(chains: Seq<usize>) -> nat
    decreases chains.len(),
{
    if chains.len() == 0 {
        0
    } else {
        chain_sum(chains.drop_last()) + chains.last() as nat
    }
}

/// A longer list of chains has a larger sum.
pub proof fn lemma_chain_sum_take(chains: Seq<usize>, n: int)
    requires
        0 <= n <= chains.len(),
    ensures
        chain_sum(chains.take(n)) <= chain_sum(chains),
    decreases chains.len() - n,
{
    if n < chains.len() {
        lemma_chain_sum_take(chains, n + 1);
        assert(chains.take(n + 1).drop_last() =~= chains.take(n));
    } else {
        assert(chains.take(n) =~= chains);
    }
}

impl AllocationPlan {
    /// Number of pages in all.
    pub open spec fn demand(&self) -> nat {
        self.tree_pages as nat + chain_sum(self.overflow_chains@)
    }

    /// Number of pages in all.
    pub fn total_pages(&self) -> (result: Result<usize>)
        ensures
            match result {
                Ok(total) => total == self.demand(),
                Err(error) => error is Corrupt && self.demand() > usize::MAX,
            },
    {
        let mut total = self.tree_pages;
        let mut index: usize = 0;
        proof {
            assert(self.overflow_chains@.take(0) =~= Seq::<usize>::empty());
        }
        while index < self.overflow_chains.len()
            invariant
                index <= self.overflow_chains@.len(),
                total == self.tree_pages + chain_sum(self.overflow_chains@.take(index as int)),
            decreases self.overflow_chains@.len() - index,
        {
            proof {
                let n = index as int;
                assert(self.overflow_chains@.take(n + 1).drop_last()
                    =~= self.overflow_chains@.take(n));
                lemma_chain_sum_take(self.overflow_chains@, n + 1);
            }
            total = match total.checked_add(self.overflow_chains[index]) {
                Some(total) => total,
                None => {
                    return Err(corrupt("page allocation count overflow"));
                },
            };
            index = index + 1;
        }
        assert(self.overflow_chains@.take(index as int) =~= self.overflow_chains@);
        Ok(total)
    }
}

/// What a transaction publishes.
pub struct FinishedTree {
    /// The page of the root.
    pub root: u64,
    /// Number of pages of the new snapshot.
    pub page_count: u64,
    /// The new pages, by increasing identifier.
    pub pages: Vec<(u64, [u8; PAGE_SIZE])>,
    /// The pages that the new tree leaves behind.
    pub retired: Vec<u64>,
}

/// Whether slots were marked that belong to a tree.
spec fn marked(env: Env, r: PageRef, h: nat, before: Seq<bool>, after: Seq<bool>) -> bool {
    &&& after.len() == before.len()
    &&& forall|slot: usize|
        slot < after.len() ==> (#[trigger] after[slot as int]) == (before[slot as int] || owns(
            env,
            r,
            h,
            PageRef::Dirty(slot),
        ))
}

impl MutableTree {
    /// Marks the slots below a node.
    fn collect_reachable(
        &self,
        page: PageRef,
        marks: &mut Vec<bool>,
        depth: usize,
        Ghost(pages): Ghost<Pages>,
        Ghost(h): Ghost<nat>,
    ) -> (result: Result<()>)
        requires
            self.inv(),
            depth <= MAX_DEPTH,
            old(marks)@.len() == self.dirty@.len(),
        ensures
            final(marks)@.len() == old(marks)@.len(),
            ({
                let env = self.env(pages);
                let good = subtree(env, page, h) && forall|slot: usize| #[trigger]
                    owns(env, page, h, PageRef::Dirty(slot)) ==> !old(marks)@[slot as int];
                match result {
                    Ok(_) => good ==> marked(env, page, h, old(marks)@, final(marks)@),
                    Err(error) => error is Corrupt && !(good && depth + h < MAX_DEPTH),
                }
            }),
        decreases MAX_DEPTH - depth,
    {
        let ghost env = self.env(pages);
        let ghost start = marks@;
        let ghost good = subtree(env, page, h) && forall|slot: usize| #[trigger]
            owns(env, page, h, PageRef::Dirty(slot)) ==> !start[slot as int];
        if depth >= MAX_DEPTH {
            return Err(corrupt("tree exceeds maximum depth"));
        }
        let slot = match page {
            PageRef::Dirty(slot) => slot,
            PageRef::Committed(id) => {
                proof {
                    if good {
                        assert forall|s: usize| s < start.len() implies (
                        #[trigger] start[s as int]) == (start[s as int] || owns(
                            env,
                            page,
                            h,
                            PageRef::Dirty(s),
                        )) by {
                            if owns(env, page, h, PageRef::Dirty(s)) {
                                crate::publish::lemma_committed_owns(env, id, h, PageRef::Dirty(s));
                            }
                        }
                    }
                }
                return Ok(());
            },
        };
        proof {
            lemma_owns_root(env, page, h);
            if good {
                lemma_owned_slots(env, page, h, page);
            }
            assert(arena(self.dirty@).len() == self.dirty@.len());
        }
        if slot >= marks.len() {
            return Err(corrupt("dirty page is unavailable"));
        }
        if marks[slot] {
            return Ok(());
        }
        marks.set(slot, true);
        let node = self.dirty_node(slot)?;
        match node {
            MutableNode::Leaf(entries) => {
                proof {
                    if good {
                        lemma_leaf_marks(env, slot, h, start, marks@);
                    }
                }
            },
            MutableNode::Internal(children) => {
                let ghost links = links_of(children@);
                let ghost below = (h - 1) as nat;
                let mut index: usize = 0;
                proof {
                    if good {
                        lemma_run_marks_start(env, slot, h, links, start, marks@);
                    }
                }
                while index < children.len()
                    invariant
                        index <= children@.len(),
                        links == links_of(children@),
                        self.inv(),
                        env == self.env(pages),
                        start == old(marks)@,
                        marks@.len() == start.len(),
                        start.len() == self.dirty@.len(),
                        depth < MAX_DEPTH,
                        below == (h - 1) as nat,
                        page == PageRef::Dirty(slot),
                        good == (subtree(env, page, h) && forall|slot: usize| #[trigger]
                            owns(env, page, h, PageRef::Dirty(slot)) ==> !start[slot as int]),
                        good ==> node_at(env, page) == Some(Node::Internal(links)),
                        good ==> run_marked(env, slot, links, below, start, marks@, index as int),
                    decreases children@.len() - index,
                {
                    let ghost before = marks@;
                    proof {
                        assert(links[index as int] == children@[index as int]@);
                        if good {
                            lemma_run_marks_ready(
                                env,
                                slot,
                                h,
                                links,
                                start,
                                before,
                                index as int,
                            );
                        }
                    }
                    self.collect_reachable(
                        children[index].page,
                        marks,
                        depth + 1,
                        Ghost(pages),
                        Ghost(below),
                    )?;
                    proof {
                        if good {
                            lemma_run_marks_step(
                                env,
                                slot,
                                h,
                                links,
                                start,
                                before,
                                marks@,
                                index as int,
                            );
                        }
                    }
                    index = index + 1;
                }
                proof {
                    if good {
                        lemma_run_marks_done(env, slot, h, links, start, marks@);
                    }
                }
            },
        }
        Ok(())
    }
}

/// Whether a node and its first `n` children were marked.
spec fn run_marked(
    env: Env,
    slot: usize,
    links: Seq<Link>,
    h: nat,
    start: Seq<bool>,
    marks: Seq<bool>,
    n: int,
) -> bool {
    forall|s: usize|
        s < marks.len() ==> (#[trigger] marks[s as int]) == (start[s as int] || s == slot
            || run_owns(env, links.take(n), h, PageRef::Dirty(s)))
}

proof fn lemma_leaf_marks(env: Env, slot: usize, h: nat, start: Seq<bool>, marks: Seq<bool>)
    requires
        subtree(env, PageRef::Dirty(slot), h),
        node_at(env, PageRef::Dirty(slot)) matches Some(Node::Leaf(_)),
        slot < start.len(),
        marks == start.update(slot as int, true),
    ensures
        marked(env, PageRef::Dirty(slot), h, start, marks),
{
    reveal(owns);
    lemma_owns_root(env, PageRef::Dirty(slot), h);
}

proof fn lemma_run_marks_start(
    env: Env,
    slot: usize,
    h: nat,
    links: Seq<Link>,
    start: Seq<bool>,
    marks: Seq<bool>,
)
    requires
        slot < start.len(),
        marks == start.update(slot as int, true),
    ensures
        run_marked(env, slot, links, (h - 1) as nat, start, marks, 0),
{
    assert(links.take(0).len() == 0);
}

proof fn lemma_run_marks_ready(
    env: Env,
    slot: usize,
    h: nat,
    links: Seq<Link>,
    start: Seq<bool>,
    marks: Seq<bool>,
    i: int,
)
    requires
        subtree(env, PageRef::Dirty(slot), h),
        node_at(env, PageRef::Dirty(slot)) == Some(Node::Internal(links)),
        marks.len() == env.dirty.len(),
        0 <= i < links.len(),
        forall|s: usize| #[trigger]
            owns(env, PageRef::Dirty(slot), h, PageRef::Dirty(s)) ==> !start[s as int],
        run_marked(env, slot, links, (h - 1) as nat, start, marks, i),
    ensures
        h > 0,
        subtree(env, links[i].page, (h - 1) as nat),
        forall|s: usize| #[trigger]
            owns(env, links[i].page, (h - 1) as nat, PageRef::Dirty(s)) ==> !marks[s as int],
{
    reveal(subtree);
    reveal(run_ok);
    let below = (h - 1) as nat;
    let r = PageRef::Dirty(slot);
    lemma_run_child(env, links, below, i);
    assert forall|s: usize| #[trigger] owns(env, links[i].page, below, PageRef::Dirty(s)) implies
        !marks[s as int] by {
        let p = PageRef::Dirty(s);
        assert(run_owns(env, links, below, p));
        assert(owns(env, r, h, p)) by {
            reveal(owns);
        }
        lemma_owned_slots(env, links[i].page, below, p);
        assert(p != r);
        if run_owns(env, links.take(i), below, p) {
            let j = choose|j: int|
                0 <= j < links.take(i).len() && owns(
                    env,
                    (#[trigger] links.take(i)[j]).page,
                    below,
                    p,
                );
            assert(links.take(i)[j] == links[j]);
            assert(owns(env, links[j].page, below, p));
        }
        assert(marks[s as int] == (start[s as int] || s == slot || run_owns(
            env,
            links.take(i),
            below,
            p,
        )));
    }
}

proof fn lemma_run_marks_step(
    env: Env,
    slot: usize,
    h: nat,
    links: Seq<Link>,
    start: Seq<bool>,
    before: Seq<bool>,
    marks: Seq<bool>,
    i: int,
)
    requires
        0 <= i < links.len(),
        run_marked(env, slot, links, (h - 1) as nat, start, before, i),
        marked(env, links[i].page, (h - 1) as nat, before, marks),
    ensures
        run_marked(env, slot, links, (h - 1) as nat, start, marks, i + 1),
{
    let below = (h - 1) as nat;
    assert forall|s: usize| s < marks.len() implies (#[trigger] marks[s as int]) == (start[s as int]
        || s == slot || run_owns(env, links.take(i + 1), below, PageRef::Dirty(s))) by {
        let p = PageRef::Dirty(s);
        let x = links.take(i);
        let y = links.take(i + 1);
        assert(before[s as int] == (start[s as int] || s == slot || run_owns(env, x, below, p)));
        if run_owns(env, x, below, p) {
            let j = choose|j: int| 0 <= j < x.len() && owns(env, (#[trigger] x[j]).page, below, p);
            assert(y[j] == x[j]);
        }
        if owns(env, links[i].page, below, p) {
            assert(y[i] == links[i]);
        }
        if run_owns(env, y, below, p) {
            let j = choose|j: int| 0 <= j < y.len() && owns(env, (#[trigger] y[j]).page, below, p);
            if j < i {
                assert(x[j] == y[j]);
            }
        }
    }
}

proof fn lemma_run_marks_done(
    env: Env,
    slot: usize,
    h: nat,
    links: Seq<Link>,
    start: Seq<bool>,
    marks: Seq<bool>,
)
    requires
        subtree(env, PageRef::Dirty(slot), h),
        node_at(env, PageRef::Dirty(slot)) == Some(Node::Internal(links)),
        marks.len() == start.len(),
        run_marked(env, slot, links, (h - 1) as nat, start, marks, links.len() as int),
    ensures
        marked(env, PageRef::Dirty(slot), h, start, marks),
{
    reveal(subtree);
    assert(links.take(links.len() as int) =~= links);
    let r = PageRef::Dirty(slot);
    assert forall|s: usize| s < marks.len() implies (#[trigger] marks[s as int]) == (start[s as int]
        || owns(env, r, h, PageRef::Dirty(s))) by {
        reveal(owns);
    }
}

impl MutableTree {
    /// Marks the slots of the tree.
    fn reachable(&self, Ghost(pages): Ghost<Pages>) -> (result: Result<Vec<bool>>)
        requires
            self.inv(),
        ensures
            ({
                let env = self.env(pages);
                let good = is_tree(env, self.root, self.height@);
                match result {
                    Ok(marks) => {
                        &&& marks@.len() == self.dirty@.len()
                        &&& good ==> reached(env, self.root, self.height@, marks@)
                    },
                    Err(error) => error is Corrupt && !(good && self.height@ < MAX_DEPTH),
                }
            }),
    {
        let count = self.dirty.len();
        let mut marks: Vec<bool> = Vec::new();
        let mut index: usize = 0;
        while index < count
            invariant
                index <= count,
                marks@.len() == index,
                forall|i: int| 0 <= i < index ==> !(#[trigger] marks@[i]),
            decreases count - index,
        {
            marks.push(false);
            index = index + 1;
        }
        proof {
            let env = self.env(pages);
            assert(arena(self.dirty@).len() == self.dirty@.len());
            if is_tree(env, self.root, self.height@) {
                assert forall|slot: usize| #[trigger]
                    owns(env, self.root, self.height@, PageRef::Dirty(slot)) implies !marks@[slot as int] by {
                    lemma_owned_slots(env, self.root, self.height@, PageRef::Dirty(slot));
                }
            }
        }
        self.collect_reachable(self.root, &mut marks, 0, Ghost(pages), Ghost(self.height@))?;
        Ok(marks)
    }

    /// Finds out how many pages the transaction needs.
    pub fn allocation_plan(&self, Ghost(pages): Ghost<Pages>) -> (result: Result<AllocationPlan>)
        requires
            self.inv(),
        ensures
            ({
                let env = self.env(pages);
                let good = is_tree(env, self.root, self.height@);
                match result {
                    Ok(plan) => good ==> forall|marks: Seq<bool>| #[trigger]
                        reached(env, self.root, self.height@, marks) ==> {
                            &&& plan.tree_pages == rank(marks, marks.len() as int)
                            &&& chain_sum(plan.overflow_chains@) == chunk_total(
                                env.dirty,
                                marks,
                                marks.len() as int,
                            )
                        },
                    Err(error) => error is Corrupt && !(good && self.height@ < MAX_DEPTH),
                }
            }),
    {
        let ghost env = self.env(pages);
        let ghost good = is_tree(env, self.root, self.height@);
        let marks = self.reachable(Ghost(pages))?;
        let mut tree_pages: usize = 0;
        let mut overflow_chains: Vec<usize> = Vec::new();
        let mut slot: usize = 0;
        while slot < marks.len()
            invariant
                slot <= marks@.len(),
                marks@.len() == self.dirty@.len(),
                env == self.env(pages),
                good ==> reached(env, self.root, self.height@, marks@),
                good == is_tree(env, self.root, self.height@),
                self.inv(),
                tree_pages == rank(marks@, slot as int),
                tree_pages <= slot,
                chain_sum(overflow_chains@) == chunk_total(env.dirty, marks@, slot as int),
            decreases marks@.len() - slot,
        {
            assert(arena(self.dirty@).len() == self.dirty@.len());
            if marks[slot] {
                tree_pages = tree_pages + 1;
                let node = match self.dirty_node(slot) {
                    Ok(node) => node,
                    Err(error) => {
                        proof {
                            if good {
                                assert(marks@[slot as int]);
                                lemma_owned_slots(
                                    env,
                                    self.root,
                                    self.height@,
                                    PageRef::Dirty(slot),
                                );
                            }
                        }
                        return Err(error);
                    },
                };
                assert(sturdy(arena(self.dirty@)[slot as int]->0));
                if let MutableNode::Leaf(entries) = node {
                    plan_leaf(entries, &mut overflow_chains);
                }
            }
            slot = slot + 1;
        }
        proof {
            if good {
                assert forall|other: Seq<bool>| #[trigger]
                    reached(env, self.root, self.height@, other) implies other == marks@ by {
                    assert(other.len() == marks@.len());
                    assert forall|i: int| 0 <= i < other.len() implies other[i] == marks@[i] by {
                        let s = i as usize;
                        assert(marks@.len() == marks.len());
                        assert(other[s as int] == owns(
                            env,
                            self.root,
                            self.height@,
                            PageRef::Dirty(s),
                        ));
                        assert(marks@[s as int] == owns(
                            env,
                            self.root,
                            self.height@,
                            PageRef::Dirty(s),
                        ));
                    }
                    assert(other =~= marks@);
                }
            }
        }
        Ok(AllocationPlan { tree_pages, overflow_chains })
    }
}

/// Adds the lengths of the chains of a leaf.
fn plan_leaf(entries: &Vec<LeafEntry>, chains: &mut Vec<usize>)
    requires
        entries_fit(entries_of(entries@)),
    ensures
        chain_sum(final(chains)@) == chain_sum(old(chains)@) + leaf_chunks(
            entries_of(entries@),
            entries@.len() as int,
        ),
{
    let ghost view = entries_of(entries@);
    let ghost before = chains@;
    let mut index: usize = 0;
    while index < entries.len()
        invariant
            index <= entries@.len(),
            view == entries_of(entries@),
            entries_fit(view),
            before == old(chains)@,
            chain_sum(chains@) == chain_sum(before) + leaf_chunks(view, index as int),
        decreases entries@.len() - index,
    {
        assert(view[index as int] == entries@[index as int]@);
        assert(crate::node::entry_fits(view[index as int]));
        if let StoredValue::Pending(bytes) = &entries[index].value {
            let ghost so_far = chains@;
            chains.push(chunk_count(bytes.len()));
            assert(chains@.drop_last() =~= so_far);
        }
        index = index + 1;
    }
}

/// Lists the members of a set of pages.
pub(crate) fn list_pages(set: &std::collections::HashSet<u64>) -> (list: Vec<u64>)
    ensures
        list@.no_duplicates(),
        list@.to_set() == set@,
        list@.len() == set@.len(),
{
    broadcast use vstd::std_specs::hash::group_hash_axioms;

    let mut list: Vec<u64> = Vec::new();
    let ghost items = set.iter().remaining();
    for id in iter: set.iter()
        invariant
            iter.seq() == items,
            list@.len() == iter.index(),
            forall|i: int| 0 <= i < list@.len() ==> #[trigger] list@[i] == *items[i],
    {
        list.push(*id);
    }
    assert(list@ =~= items.unref());
    list
}

/// Whether the nodes in memory of a well-formed tree and their chains are given as many pages
/// as they need, none of which the tree uses.
pub open spec fn allotted(tree: MutableTree, pages: Pages, alloc: Seq<u64>, next_page: u64) -> bool {
    let env = tree.env(pages);
    &&& is_tree(env, tree.root, tree.height@)
    &&& grantable(env, tree.root, tree.height@, alloc, next_page)
    &&& forall|marks: Seq<bool>| #[trigger]
        reached(env, tree.root, tree.height@, marks) ==> alloc.len() == page_demand(
            env.dirty,
            marks,
        )
}

/// Whether the pages of a finished tree are those that were allocated, and hold what the tree
/// held.
pub open spec fn finishes(
    tree: MutableTree,
    pages: Pages,
    alloc: Seq<u64>,
    next_page: u64,
    finished: FinishedTree,
) -> bool {
    let env = tree.env(pages);
    let h = tree.height@;
    let list = page_list(finished.pages@);
    let other = published(written(pages, list), next_page);
    let s = PageRef::Committed(finished.root);
    &&& exists|map: Pages| #[trigger]
        listed(list, map) && map.dom() == alloc.to_set() && files_all(
            env,
            tree.root,
            h,
            alloc,
            map,
        )
    &&& forall|marks: Seq<bool>| #[trigger]
        reached(env, tree.root, h, marks) ==> Some(finished.root) == resolve(
            tree.root,
            physical_of(marks, alloc),
        )
    &&& is_tree(other, s, h)
    &&& rows_of(other, flat(other, s, h)) == rows_of(env, tree.entries(pages))
    &&& forall|x: u64| #[trigger]
        owns(other, s, h, PageRef::Committed(x)) == (owns(
            env,
            tree.root,
            h,
            PageRef::Committed(x),
        ) || alloc.contains(x))
    &&& tree.branches(pages) ==> spreading(other, s, h)
}

/// What a finished tree holds is what the tree held before: its pages are intact, in
/// increasing order and exactly those that were allocated; stored over the others, they give
/// for every key what the tree in memory gave. A tree without a changed node keeps its root
/// and needs no page.
pub proof fn law_finish_keeps_the_tree(
    tree: MutableTree,
    pages: Pages,
    alloc: Seq<u64>,
    next_page: u64,
    finished: FinishedTree,
    key: Seq<u8>,
)
    requires
        tree.dirty@.len() <= usize::MAX,
        tree.height@ < MAX_DEPTH,
        allotted(tree, pages, alloc, next_page),
        finishes(tree, pages, alloc, next_page, finished),
        forall|i: int, j: int|
            0 <= i < j < finished.pages@.len() ==> (#[trigger] finished.pages@[i]).0 <= (
            #[trigger] finished.pages@[j]).0,
    ensures
        forall|i: int, j: int|
            0 <= i < j < finished.pages@.len() ==> (#[trigger] finished.pages@[i]).0 < (
            #[trigger] finished.pages@[j]).0,
        forall|k: int|
            0 <= k < finished.pages@.len() ==> alloc.contains((#[trigger] finished.pages@[k]).0)
                && page_ok(finished.pages@[k].1@),
        forall|id: u64| #[trigger]
            alloc.contains(id) ==> exists|k: int|
                0 <= k < finished.pages@.len() && (#[trigger] finished.pages@[k]).0 == id,
        ({
            let other = written(pages, page_list(finished.pages@));
            found(
                other,
                next_page,
                search(
                    published(other, next_page),
                    PageRef::Committed(finished.root),
                    key,
                    MAX_DEPTH as nat,
                ),
            ) == found(pages, tree.page_count, Some(lookup(tree.entries(pages), key)))
        }),
        tree.root matches PageRef::Committed(id) ==> finished.root == id && finished.pages@.len()
            == 0 && alloc.len() == 0,
{
    let env = tree.env(pages);
    let h = tree.height@;
    let r = tree.root;
    let list = page_list(finished.pages@);
    let other = published(written(pages, list), next_page);
    let s = PageRef::Committed(finished.root);
    let marks = Seq::new(
        env.dirty.len(),
        |slot: int| owns(env, r, h, PageRef::Dirty(slot as usize)),
    );
    assert(reached(env, r, h, marks));
    let map = choose|map: Pages| #[trigger]
        listed(list, map) && map.dom() == alloc.to_set() && files_all(env, r, h, alloc, map);
    assert(filed_below(map, env.dirty, marks, alloc, marks.len() as int));
    assert forall|i: int, j: int| 0 <= i < j < finished.pages@.len() implies (
    #[trigger] finished.pages@[i]).0 < (#[trigger] finished.pages@[j]).0 by {
        assert(list[i].0 != list[j].0);
    }
    assert forall|k: int| 0 <= k < finished.pages@.len() implies alloc.contains(
        (#[trigger] finished.pages@[k]).0,
    ) && page_ok(finished.pages@[k].1@) by {
        let id = list[k].0;
        assert(map.contains_key(id) && map[id] == list[k].1);
        assert(map.dom().contains(id));
        let slot = choose|slot: usize|
            slot < marks.len() && goes_to(env.dirty, marks, alloc, id, slot);
        lemma_filed_intact(map, env.dirty, marks, alloc, id, slot);
    }
    assert forall|id: u64| #[trigger] alloc.contains(id) implies exists|k: int|
        0 <= k < finished.pages@.len() && (#[trigger] finished.pages@[k]).0 == id by {
        assert(map.dom().contains(id));
        assert(map.contains_key(id));
        let k = choose|k: int| 0 <= k < list.len() && (#[trigger] list[k]).0 == id;
        assert(finished.pages@[k].0 == id);
    }
    lemma_search(other, s, h, key, MAX_DEPTH as nat);
    lemma_found_in_rows(env, r, h, key);
    lemma_found_in_rows(other, s, h, key);
    if let PageRef::Committed(id) = r {
        assert forall|slot: int| 0 <= slot < marks.len() implies !marks[slot] by {
            if marks[slot] {
                lemma_committed_owns(env, id, h, PageRef::Dirty(slot as usize));
            }
        }
        lemma_unmarked(env.dirty, marks, marks.len() as int);
        if finished.pages@.len() > 0 {
            assert(alloc.contains(finished.pages@[0].0));
        }
    }
}

/// What is found in a well-formed tree is what its rows say.
proof fn lemma_found_in_rows(env: Env, r: PageRef, h: nat, key: Seq<u8>)
    requires
        is_tree(env, r, h),
    ensures
        ({
            let map = map_of(rows_of(env, flat(env, r, h)));
            found(env.pages, env.count, Some(lookup(flat(env, r, h), key))) == Some(
                if map.contains_key(key) {
                    Some(map[key])
                } else {
                    None
                },
            )
        }),
{
    let entries = flat(env, r, h);
    assert forall|i: int| 0 <= i < entries.len() implies read_value(
        env.pages,
        env.count,
        (#[trigger] entries[i]).value,
    ) is Some by {
        crate::insert::lemma_entry_readable(env, r, h, i);
    }
    crate::rows::law_lookup(env, entries, key);
}

/// Where no slot is marked, no page is needed.
proof fn lemma_unmarked(dirty: Seq<Option<Node>>, marks: Seq<bool>, n: int)
    requires
        0 <= n <= marks.len(),
        forall|i: int| 0 <= i < marks.len() ==> !#[trigger] marks[i],
    ensures
        rank(marks, n) == 0,
        chunk_total(dirty, marks, n) == 0,
    decreases n,
{
    if n > 0 {
        lemma_unmarked(dirty, marks, n - 1);
    }
}

/// A page that goes to a slot is intact once the slot is filed.
proof fn lemma_filed_intact(
    map: Pages,
    dirty: Seq<Option<Node>>,
    marks: Seq<bool>,
    alloc: Seq<u64>,
    id: u64,
    slot: usize,
)
    requires
        marks.len() == dirty.len(),
        alloc.len() == page_demand(dirty, marks),
        goes_to(dirty, marks, alloc, id, slot),
        slot_filed(map, dirty, marks, alloc, slot as int),
    ensures
        page_ok(map[id]),
{
    let n = slot as int;
    lemma_monotone(dirty, marks, n + 1, marks.len() as int);
    if alloc[rank(marks, n) as int] != id {
        let from = cursor_at(dirty, marks, n);
        let j = choose|j: int|
            from <= j < cursor_at(dirty, marks, n + 1) && #[trigger] alloc[j] == id;
        let entries = slot_entries(dirty[n]);
        assert(dirty[n]->0 is Leaf);
        let i = lemma_find_entry(entries, entries.len() as int, j - from);
        lemma_leaf_chunks(entries, i + 1, entries.len() as int);
        let ids = chains_of(entries, alloc, from)[i];
        let k = j - from - leaf_chunks(entries, i);
        let bytes = entries[i].value->Pending_0;
        assert(chain_filed(map, ids, bytes));
        assert(ids.len() == leaf_chunks(entries, i + 1) - leaf_chunks(entries, i));
        assert(ids[k] == alloc[j]);
        assert(is_link(map[ids[k]], ids, bytes, k));
    }
}

impl MutableTree {
    /// Gives pages to the nodes in memory and writes them out. The first allocated pages
    /// go to the nodes, the others to the overflow chains, in the order of the plan.
    pub fn finish(
        &self,
        allocations: &Vec<u64>,
        next_page: u64,
        Ghost(pages): Ghost<Pages>,
    ) -> (result: Result<FinishedTree>)
        requires
            self.inv(),
        ensures
            match result {
                Ok(finished) => {
                    &&& finished.page_count == next_page
                    &&& finished.retired@.no_duplicates()
                    &&& finished.retired@.to_set() == self.retired@
                    &&& forall|i: int, j: int|
                        0 <= i < j < finished.pages@.len() ==> (#[trigger] finished.pages@[i]).0 <= (
                        #[trigger] finished.pages@[j]).0
                    &&& allotted(*self, pages, allocations@, next_page) ==> finishes(
                        *self,
                        pages,
                        allocations@,
                        next_page,
                        finished,
                    )
                },
                Err(error) => error is Corrupt && !(allotted(
                    *self,
                    pages,
                    allocations@,
                    next_page,
                ) && self.height@ < MAX_DEPTH && self.fits(pages)),
            },
    {
        let ghost env = self.env(pages);
        let ghost h = self.height@;
        let ghost r = self.root;
        let ghost alloc = allocations@;
        let marks = self.reachable(Ghost(pages))?;
        let ghost view = marks@;
        let ghost good = is_tree(env, r, h) && grantable(env, r, h, alloc, next_page)
            && forall|marks: Seq<bool>| #[trigger]
            reached(env, r, h, marks) ==> alloc.len() == page_demand(env.dirty, marks);
        proof {
            assert(good ==> reached(env, r, h, view));
        }
        let physical = assign_pages(&marks, allocations, Ghost(env.dirty))?;
        let mut list: Vec<(u64, [u8; PAGE_SIZE])> = Vec::new();
        let mut cursor = physical.1;
        let physical = physical.0;
        let ghost mut map: Pages = Map::empty();
        let mut slot: usize = 0;
        proof {
            if good {
                lemma_filed_start(page_list(list@), env.dirty, view, alloc);
            }
        }
        while slot < marks.len()
            invariant
                slot <= marks@.len(),
                view == marks@,
                view.len() == self.dirty@.len(),
                alloc == allocations@,
                env == self.env(pages),
                r == self.root,
                h == self.height@,
                self.inv(),
                good == (is_tree(env, r, h) && grantable(env, r, h, alloc, next_page)
                    && forall|marks: Seq<bool>| #[trigger]
                    reached(env, r, h, marks) ==> alloc.len() == page_demand(env.dirty, marks)),
                good ==> is_tree(env, r, h) && grantable(env, r, h, alloc, next_page) && reached(
                    env,
                    r,
                    h,
                    view,
                ) && alloc.len() == page_demand(env.dirty, view),
                cursor <= alloc.len(),
                good ==> cursor == cursor_at(env.dirty, view, slot as int),
                good ==> physical@ == physical_of(view, alloc),
                physical@.len() == view.len(),
                forall|i: int|
                    0 <= i < view.len() && #[trigger] view[i] ==> physical@[i] is Some,
                good ==> listed(page_list(list@), map) && filed_below(
                    map,
                    env.dirty,
                    view,
                    alloc,
                    slot as int,
                ),
            decreases marks@.len() - slot,
        {
            assert(arena(self.dirty@).len() == self.dirty@.len());
            let ghost before = map;
            if marks[slot] {
                proof {
                    if good {
                        lemma_owned_slots(env, r, h, PageRef::Dirty(slot));
                        lemma_slot_unlisted(before, env.dirty, view, alloc, slot);
                        lemma_monotone(env.dirty, view, slot as int, view.len() as int);
                        lemma_monotone(env.dirty, view, slot + 1, view.len() as int);
                    }
                }
                let page_id = crate::page::physical_page(&physical, slot)?;
                let node = self.dirty_node(slot)?;
                assert(sturdy(arena(self.dirty@)[slot as int]->0));
                match node {
                    MutableNode::Leaf(entries) => {
                        proof {
                            if good {
                                lemma_granted_nonzero(env, r, h, alloc, next_page);
                            }
                        }
                        let (next, more) = place_leaf(
                            page_id,
                            entries,
                            allocations,
                            cursor,
                            &mut list,
                            Ghost(before),
                        )?;
                        cursor = next;
                        proof {
                            map = more@;
                        }
                    },
                    MutableNode::Internal(children) => {
                        proof {
                            if good {
                                lemma_children_resolve(
                                    env,
                                    r,
                                    h,
                                    view,
                                    alloc,
                                    slot,
                                    links_of(children@),
                                );
                            }
                        }
                        let page = encode_internal(children, &physical)?;
                        let ghost so_far = list@;
                        list.push((page_id, page));
                        proof {
                            assert(page_list(list@) =~= page_list(so_far).push((page_id, page@)));
                            if good {
                                let from = cursor_at(env.dirty, view, slot as int);
                                let ids = alloc.subrange(from, from).push(page_id);
                                assert(ids[0] == page_id);
                                assert(cursor_at(env.dirty, view, slot + 1) == from);
                                lemma_listed_push(page_list(so_far), before, page_id, page@);
                                map = before.insert(page_id, page@);
                                assert forall|id: u64| #[trigger] map.contains_key(id) == (
                                before.contains_key(id) || ids.contains(id)) by {
                                    if ids.contains(id) {
                                        let k = choose|k: int| 0 <= k < ids.len() && ids[k] == id;
                                        assert(k == 0);
                                    }
                                }
                            }
                        }
                    },
                }
            }
            proof {
                if good {
                    lemma_slot_filed(before, map, env.dirty, view, alloc, slot);
                }
            }
            slot = slot + 1;
        }
        let ghost unsorted = list@;
        sort_by_first(&mut list);
        proof {
            if good {
                assert(marks@.len() == marks.len());
                let order = choose|order: Seq<int>| rearranged(unsorted, list@, order);
                assert(rearranged(page_list(unsorted), page_list(list@), order)) by {
                    assert forall|i: int| 0 <= i < list@.len() implies #[trigger] page_list(list@)[i]
                        == page_list(unsorted)[order[i]] by {
                        assert(list@[i] == unsorted[order[i]]);
                    }
                }
                lemma_listed_rearranged(page_list(unsorted), page_list(list@), order, map);
                let chosen = choose|other: Pages| listed(page_list(list@), other);
                lemma_listed_unique(page_list(list@), map, chosen);
                lemma_filed(env, r, h, view, alloc, next_page, map);
                assert(map.dom() =~= alloc.to_set());
                assert forall|marks: Seq<bool>| #[trigger] reached(env, r, h, marks) implies marks
                    == view by {
                    assert forall|i: int| 0 <= i < marks.len() implies marks[i] == view[i] by {
                        let slot = i as usize;
                        assert(marks[slot as int] == view[slot as int]);
                    }
                    assert(marks =~= view);
                }
                assert(files_all(env, r, h, alloc, map));
            }
        }
        let root = resolve_page(self.root, &physical)?;
        let finished = FinishedTree {
            root,
            page_count: next_page,
            pages: list,
            retired: list_pages(&self.retired),
        };
        proof {
            assert(good == allotted(*self, pages, alloc, next_page));
            if good {
                assert(page_list(finished.pages@) == page_list(list@));
                assert(listed(page_list(finished.pages@), map));
                assert(finishes(*self, pages, alloc, next_page, finished));
            }
        }
        Ok(finished)
    }
}

/// Allocated pages are not page zero.
proof fn lemma_granted_nonzero(env: Env, r: PageRef, h: nat, alloc: Seq<u64>, next_page: u64)
    requires
        grantable(env, r, h, alloc, next_page),
    ensures
        forall|k: int| 0 <= k < alloc.len() ==> #[trigger] alloc[k] != 0,
{
    assert forall|k: int| 0 <= k < alloc.len() implies #[trigger] alloc[k] != 0 by {
        assert(in_snapshot(alloc[k], next_page));
    }
}

/// Nothing is filed at the start.
proof fn lemma_filed_start(
    list: Seq<(u64, Seq<u8>)>,
    dirty: Seq<Option<Node>>,
    marks: Seq<bool>,
    alloc: Seq<u64>,
)
    requires
        list.len() == 0,
    ensures
        listed(list, Map::empty()),
        filed_below(Map::empty(), dirty, marks, alloc, 0),
{
}

/// The children of a reachable node have pages.
proof fn lemma_children_resolve(
    env: Env,
    r: PageRef,
    h: nat,
    marks: Seq<bool>,
    alloc: Seq<u64>,
    slot: usize,
    links: Seq<Link>,
)
    requires
        is_tree(env, r, h),
        reached(env, r, h, marks),
        owns(env, r, h, PageRef::Dirty(slot)),
        node_at(env, PageRef::Dirty(slot)) == Some(Node::Internal(links)),
    ensures
        all_resolve(links, physical_of(marks, alloc)),
        links.len() > 0,
        keys_fit(links),
{
    let below = lemma_owned_tree(env, r, h, slot);
    reveal(subtree);
    reveal(run_ok);
    let under = (below - 1) as nat;
    assert forall|i: int| 0 <= i < links.len() implies resolve(
        (#[trigger] links[i]).page,
        physical_of(marks, alloc),
    ) is Some by {
        let p = links[i].page;
        lemma_owns_root(env, p, under);
        assert(run_owns(env, links, under, p));
        assert(owns(env, PageRef::Dirty(slot), below, p)) by {
            reveal(owns);
        }
        if let PageRef::Dirty(child) = p {
            lemma_owned_slots(env, r, h, p);
            assert(marks[child as int]);
        }
    }
}

/// Gives each marked slot the next allocated page.
fn assign_pages(
    marks: &Vec<bool>,
    allocations: &Vec<u64>,
    Ghost(dirty): Ghost<Seq<Option<Node>>>,
) -> (result: Result<(Vec<Option<u64>>, usize)>)
    ensures
        match result {
            Ok((physical, next)) => {
                &&& next == rank(marks@, marks@.len() as int)
                &&& next <= allocations@.len()
                &&& physical@ == physical_of(marks@, allocations@)
            },
            Err(error) => error is Corrupt && rank(marks@, marks@.len() as int)
                > allocations@.len(),
        },
{
    let mut physical: Vec<Option<u64>> = Vec::new();
    let mut next: usize = 0;
    let mut slot: usize = 0;
    while slot < marks.len()
        invariant
            slot <= marks@.len(),
            next == rank(marks@, slot as int),
            next <= allocations@.len(),
            physical@ == physical_of(marks@, allocations@).take(slot as int),
        decreases marks@.len() - slot,
    {
        if marks[slot] {
            if next >= allocations.len() {
                proof {
                    lemma_monotone(dirty, marks@, slot as int, marks@.len() as int);
                }
                return Err(corrupt("not enough pages were allocated"));
            }
            physical.push(Some(allocations[next]));
            next = next + 1;
        } else {
            physical.push(None);
        }
        slot = slot + 1;
        assert(physical@ =~= physical_of(marks@, allocations@).take(slot as int));
    }
    assert(physical@ =~= physical_of(marks@, allocations@));
    Ok((physical, next))
}

} // verus!
