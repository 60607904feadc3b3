//! The free tree: which pages no published tree needs, and since which generation.
//!
//! A leaf page holds records in increasing order of the free page that they name; a
//! record is a page and the last generation that used it. An internal page holds its
//! first child in the header, and one slot for each further child with the smallest
//! free page below it as the separator.
use crate::error::{corrupt, unexpected_free_page, Result};
use crate::finish::{lemma_listed_push, lemma_listed_rearranged, listed, page_list};
use crate::format::{
    all_zero, finish_page, in_snapshot, is_zero, page_ok, put_u16, put_u64, u64_at, FREE_INTERNAL,
    FREE_LEAF, META_PAGES, PAGE_CHECKSUM_OFFSET, PAGE_HEADER, PAGE_SIZE, SLOT_SIZE,
};
use crate::model::{readable, Pages};
use crate::page::{count_of, page_u16, page_u64, rearranged, slot_at, slot_page, sort_by_first};
use crate::reader::{fails_for, hoards, honest, incomplete, steady, PageReader, MAX_DEPTH};
use std::collections::{BTreeMap, HashSet};
use vstd::prelude::*;
use vstd::std_specs::iter::IteratorSpec;

verus! {

/// Number of records that a leaf of the free tree holds at most.
pub const LEAF_CAPACITY: usize = 253;

/// Number of children that an internal page of the free tree has at most.
pub const INTERNAL_FANOUT: usize = 254;

/// A free page and the last generation that used it.
pub type Record = (u64, u64);

// ---------------------------------------------------------------------------
// What a free tree is
// ---------------------------------------------------------------------------

/// The first number of a slot: a free page in a leaf, a separator in an internal page.
pub open spec fn free_key(page: Seq<u8>, index: int) -> u64 {
    u64_at(page, slot_at(index))
}

/// The records of a leaf page.
pub open spec fn leaf_records(page: Seq<u8>) -> Seq<Record> {
    Seq::new(
        count_of(page) as nat,
        |index: int| (free_key(page, index), slot_page(page, index)),
    )
}

/// The children of an internal page.
pub open spec fn free_children(page: Seq<u8>) -> Seq<u64> {
    Seq::new(
        (count_of(page) + 1) as nat,
        |index: int|
            if index == 0 {
                u64_at(page, 8)
            } else {
                slot_page(page, index - 1)
            },
    )
}

/// Whether the free pages of the records increase.
pub open spec fn ascending(records: Seq<Record>) -> bool {
    forall|i: int, j: int|
        0 <= i < j < records.len() ==> (#[trigger] records[i]).0 < (#[trigger] records[j]).0
}

/// Whether a page of the free tree has the given kind, zero bytes wherever nothing is
/// stored, and no more slots than fit.
pub open spec fn free_header(page: Seq<u8>, kind: u8) -> bool {
    &&& page[1] == 0
    &&& all_zero(page, 4, 8)
    &&& if kind == FREE_LEAF {
        all_zero(page, 8, PAGE_HEADER as int)
    } else {
        all_zero(page, 16, PAGE_HEADER as int)
    }
    &&& count_of(page) <= LEAF_CAPACITY
    &&& all_zero(page, slot_at(count_of(page)), PAGE_CHECKSUM_OFFSET as int)
}

/// The records of the tree of height `h` below a page, from left to right.
pub open spec fn records(pages: Pages, id: u64, h: nat) -> Seq<Record>
    decreases h, 0nat,
{
    if h == 0 {
        leaf_records(pages[id])
    } else {
        run_records(pages, free_children(pages[id]), (h - 1) as nat)
    }
}

/// The records of several trees of height `h`, one after the other.
pub open spec fn run_records(pages: Pages, ids: Seq<u64>, h: nat) -> Seq<Record>
    decreases h, ids.len() + 1,
{
    if ids.len() == 0 {
        Seq::empty()
    } else {
        run_records(pages, ids.drop_last(), h) + records(pages, ids.last(), h)
    }
}

/// Whether the tree of height `h` below a page takes up page `p`.
pub open spec fn free_owns(pages: Pages, id: u64, h: nat, p: u64) -> bool
    decreases h,
{
    p == id || (h > 0 && exists|i: int|
        0 <= i < free_children(pages[id]).len() && free_owns(
            pages,
            #[trigger] free_children(pages[id])[i],
            (h - 1) as nat,
            p,
        ))
}

/// Whether several trees of height `h` are well formed, apart from each other, and none
/// is empty.
pub open spec fn free_run(pages: Pages, ids: Seq<u64>, h: nat) -> bool
    decreases h, 1nat,
{
    &&& forall|i: int|
        0 <= i < ids.len() ==> free_node(pages, #[trigger] ids[i], h) && records(
            pages,
            ids[i],
            h,
        ).len() > 0
    &&& forall|i: int, j: int, p: u64|
        0 <= i < j < ids.len() ==> !(#[trigger] free_owns(pages, ids[i], h, p)
            && #[trigger] free_owns(pages, ids[j], h, p))
}

/// Whether the separators of an internal page are the smallest free pages of the
/// children to their right, and larger than everything to their left.
pub open spec fn separated(pages: Pages, page: Seq<u8>, h: nat) -> bool {
    let ids = free_children(page);
    forall|i: int|
        0 <= i < count_of(page) ==> {
            &&& #[trigger] free_key(page, i) == records(pages, ids[i + 1], h)[0].0
            &&& records(pages, ids[i], h).last().0 < free_key(page, i)
        }
}

/// Whether a page heads a well-formed free tree of height `h`.
pub open spec fn free_node(pages: Pages, id: u64, h: nat) -> bool
    decreases h, 0nat,
{
    let page = pages[id];
    &&& pages.contains_key(id)
    &&& page.len() == PAGE_SIZE
    &&& page_ok(page)
    &&& if h == 0 {
        &&& page[0] == FREE_LEAF
        &&& free_header(page, FREE_LEAF)
        &&& ascending(leaf_records(page))
    } else {
        &&& page[0] == FREE_INTERNAL
        &&& free_header(page, FREE_INTERNAL)
        &&& count_of(page) > 0
        &&& free_run(pages, free_children(page), (h - 1) as nat)
        &&& separated(pages, page, (h - 1) as nat)
        &&& forall|i: int|
            0 <= i < free_children(page).len() ==> !free_owns(
                pages,
                #[trigger] free_children(page)[i],
                (h - 1) as nat,
                id,
            )
    }
}

/// The records as a map from free pages to generations.
pub open spec fn record_map(records: Seq<Record>) -> Map<u64, u64>
    decreases records.len(),
{
    if records.len() == 0 {
        Map::empty()
    } else {
        record_map(records.drop_last()).insert(records.last().0, records.last().1)
    }
}

/// Whether the pages hold a well-formed free tree of height `h` all of whose pages, and
/// all of the pages that it names, lie in the snapshot.
pub open spec fn free_tree(pages: Pages, count: u64, root: u64, h: nat) -> bool {
    &&& free_node(pages, root, h)
    &&& forall|p: u64| #[trigger] free_owns(pages, root, h, p) ==> in_snapshot(p, count)
    &&& forall|i: int|
        0 <= i < records(pages, root, h).len() ==> in_snapshot(
            (#[trigger] records(pages, root, h)[i]).0,
            count,
        )
}

// ---------------------------------------------------------------------------
// Facts about free trees
// ---------------------------------------------------------------------------

/// Whether the records of neighbouring trees meet in order.
pub open spec fn chained(pages: Pages, ids: Seq<u64>, h: nat) -> bool {
    forall|i: int, j: int|
        0 <= i && j == i + 1 && j < ids.len() ==> records(pages, #[trigger] ids[i], h).last().0
            < records(pages, #[trigger] ids[j], h)[0].0
}

/// The records of two runs, one after the other.
pub proof fn lemma_run_add(pages: Pages, a: Seq<u64>, b: Seq<u64>, h: nat)
    ensures
        run_records(pages, a + b, h) == run_records(pages, a, h) + run_records(pages, b, h),
    decreases b.len(),
{
    if b.len() == 0 {
        assert(a + b =~= a);
        assert(run_records(pages, b, h) =~= Seq::<Record>::empty());
    } else {
        assert((a + b).drop_last() =~= a + b.drop_last());
        lemma_run_add(pages, a, b.drop_last(), h);
        assert(run_records(pages, a + b, h) =~= run_records(pages, a, h) + run_records(
            pages,
            b,
            h,
        ));
    }
}

/// The records of a run of one tree.
pub proof fn lemma_run_one(pages: Pages, id: u64, h: nat)
    ensures
        run_records(pages, seq![id], h) == records(pages, id, h),
{
    let one = seq![id];
    assert(one.drop_last() =~= Seq::<u64>::empty());
    assert(run_records(pages, one.drop_last(), h) =~= Seq::<Record>::empty());
    assert(run_records(pages, one, h) =~= records(pages, id, h));
}

/// Ascending records that meet in order ascend together.
pub proof fn lemma_ascending_add(a: Seq<Record>, b: Seq<Record>)
    requires
        ascending(a),
        ascending(b),
        a.len() > 0 && b.len() > 0 ==> a.last().0 < b[0].0,
    ensures
        ascending(a + b),
{
    let both = a + b;
    assert forall|i: int, j: int| 0 <= i < j < both.len() implies (#[trigger] both[i]).0 < (
    #[trigger] both[j]).0 by {
        if i < a.len() && j >= a.len() {
            if i < a.len() - 1 {
                assert(a[i].0 < a[a.len() - 1].0);
            }
            if j > a.len() {
                assert(b[0].0 < b[j - a.len()].0);
            }
        }
    }
}

/// The records of a run of ordered trees ascend from those of the first to those of the
/// last.
pub proof fn lemma_run_ascending(pages: Pages, ids: Seq<u64>, h: nat)
    requires
        free_run(pages, ids, h),
        chained(pages, ids, h),
    ensures
        ascending(run_records(pages, ids, h)),
        ids.len() > 0 ==> {
            &&& run_records(pages, ids, h).len() > 0
            &&& run_records(pages, ids, h)[0] == records(pages, ids[0], h)[0]
            &&& run_records(pages, ids, h).last() == records(pages, ids.last(), h).last()
        },
    decreases h, ids.len() + 1,
{
    if ids.len() > 0 {
        let rest = ids.drop_last();
        let last = ids.len() - 1;
        assert forall|i: int| 0 <= i < rest.len() implies free_node(pages, #[trigger] rest[i], h)
            && records(pages, rest[i], h).len() > 0 by {
            assert(rest[i] == ids[i]);
        }
        assert forall|i: int, j: int, p: u64| 0 <= i < j < rest.len() implies !(
        #[trigger] free_owns(pages, rest[i], h, p) && #[trigger] free_owns(pages, rest[j], h, p)) by {
            assert(rest[i] == ids[i] && rest[j] == ids[j]);
        }
        assert forall|i: int, j: int| 0 <= i && j == i + 1 && j < rest.len() implies records(
            pages,
            #[trigger] rest[i],
            h,
        ).last().0 < records(pages, #[trigger] rest[j], h)[0].0 by {
            assert(rest[i] == ids[i] && rest[j] == ids[j]);
        }
        lemma_run_ascending(pages, rest, h);
        assert(free_node(pages, ids[last], h));
        lemma_node_ascending(pages, ids[last], h);
        if rest.len() > 0 {
            assert(rest.last() == ids[last - 1]);
            assert(records(pages, ids[last - 1], h).last().0 < records(pages, ids[last], h)[0].0);
        }
        lemma_ascending_add(run_records(pages, rest, h), records(pages, ids[last], h));
    }
}

/// The children of an internal page of the free tree are chained.
pub proof fn lemma_children_chained(pages: Pages, id: u64, h: nat)
    requires
        free_node(pages, id, h),
        h > 0,
    ensures
        chained(pages, free_children(pages[id]), (h - 1) as nat),
{
    let page = pages[id];
    let ids = free_children(page);
    assert forall|i: int, j: int| 0 <= i && j == i + 1 && j < ids.len() implies records(
        pages,
        #[trigger] ids[i],
        (h - 1) as nat,
    ).last().0 < records(pages, #[trigger] ids[j], (h - 1) as nat)[0].0 by {
        assert(free_key(page, i) == records(pages, ids[i + 1], (h - 1) as nat)[0].0);
    }
}

/// The records of a well-formed free tree ascend.
pub proof fn lemma_node_ascending(pages: Pages, id: u64, h: nat)
    requires
        free_node(pages, id, h),
    ensures
        ascending(records(pages, id, h)),
    decreases h, 0nat,
{
    if h > 0 {
        lemma_children_chained(pages, id, h);
        lemma_run_ascending(pages, free_children(pages[id]), (h - 1) as nat);
    }
}

/// A page heads free trees of one height only.
pub proof fn lemma_free_height(pages: Pages, id: u64, a: nat, b: nat)
    requires
        free_node(pages, id, a),
        free_node(pages, id, b),
    ensures
        a == b,
    decreases a,
{
    if a > 0 && b > 0 {
        let first = free_children(pages[id])[0];
        assert(free_node(pages, first, (a - 1) as nat));
        assert(free_node(pages, first, (b - 1) as nat));
        lemma_free_height(pages, first, (a - 1) as nat, (b - 1) as nat);
    }
}

/// A map of ascending records holds exactly those records.
pub proof fn lemma_record_map(records: Seq<Record>)
    requires
        ascending(records),
    ensures
        forall|i: int|
            0 <= i < records.len() ==> record_map(records).contains_key(
                (#[trigger] records[i]).0,
            ) && record_map(records)[records[i].0] == records[i].1,
        forall|k: u64| #[trigger]
            record_map(records).contains_key(k) ==> exists|i: int|
                0 <= i < records.len() && (#[trigger] records[i]).0 == k,
        record_map(records).dom().finite(),
        record_map(records).dom().len() == records.len(),
    decreases records.len(),
{
    if records.len() > 0 {
        let rest = records.drop_last();
        let last = records.len() - 1;
        lemma_record_map(rest);
        assert forall|i: int| 0 <= i < records.len() implies record_map(records).contains_key(
            (#[trigger] records[i]).0,
        ) && record_map(records)[records[i].0] == records[i].1 by {
            if i < last {
                assert(rest[i] == records[i]);
                assert(records[i].0 < records[last].0);
            }
        }
        assert forall|k: u64| #[trigger] record_map(records).contains_key(k) implies exists|i: int|
            0 <= i < records.len() && (#[trigger] records[i]).0 == k by {
            if k == records[last].0 {
                assert(records[last].0 == k);
            } else {
                let i = choose|i: int| 0 <= i < rest.len() && (#[trigger] rest[i]).0 == k;
                assert(records[i].0 == k);
            }
        }
        if record_map(rest).contains_key(records[last].0) {
            let i = choose|i: int|
                0 <= i < rest.len() && (#[trigger] rest[i]).0 == records[last].0;
            assert(records[i].0 < records[last].0);
        }
        assert(record_map(records).dom() =~= record_map(rest).dom().insert(records[last].0));
    }
}

/// The map of two lists of records, one after the other.
pub proof fn lemma_record_map_add(a: Seq<Record>, b: Seq<Record>)
    ensures
        record_map(a + b) == record_map(a).union_prefer_right(record_map(b)),
    decreases b.len(),
{
    if b.len() == 0 {
        assert(a + b =~= a);
        assert(record_map(a).union_prefer_right(record_map(b)) =~= record_map(a));
    } else {
        assert((a + b).drop_last() =~= a + b.drop_last());
        lemma_record_map_add(a, b.drop_last());
        assert(record_map(a + b) =~= record_map(a).union_prefer_right(record_map(b)));
    }
}

/// The records of a run around one of its trees.
pub proof fn lemma_run_split(pages: Pages, ids: Seq<u64>, k: int, h: nat)
    requires
        0 <= k < ids.len(),
    ensures
        run_records(pages, ids, h) == run_records(pages, ids.take(k), h) + records(
            pages,
            ids[k],
            h,
        ) + run_records(pages, ids.skip(k + 1), h),
        run_records(pages, ids.take(k + 1), h) == run_records(pages, ids.take(k), h) + records(
            pages,
            ids[k],
            h,
        ),
{
    assert(ids.take(k + 1) =~= ids.take(k) + seq![ids[k]]);
    assert(ids =~= ids.take(k + 1) + ids.skip(k + 1));
    lemma_run_one(pages, ids[k], h);
    lemma_run_add(pages, ids.take(k), seq![ids[k]], h);
    lemma_run_add(pages, ids.take(k + 1), ids.skip(k + 1), h);
}

// ---------------------------------------------------------------------------
// Loading
// ---------------------------------------------------------------------------

/// A free tree in memory: its records and the pages that it takes up.
pub struct LoadedFreeTree {
    pub entries: BTreeMap<u64, u64>,
    pub pages: HashSet<u64>,
}

/// What is known of a subtree once it has been loaded.
struct Subtree {
    first: Option<u64>,
    last: Option<u64>,
    height: usize,
}

/// Whether the first and last free pages are those of the records.
spec fn spans(subtree: Subtree, records: Seq<Record>) -> bool {
    if records.len() == 0 {
        subtree.first is None && subtree.last is None
    } else {
        subtree.first == Some(records[0].0) && subtree.last == Some(records.last().0)
    }
}

/// Whether a page that was just visited heads a free tree of height `h` that ends above
/// the depth limit, takes up no other page that was visited and names no free page that
/// is taken.
pub open spec fn loads_below(
    pages: Pages,
    count: u64,
    id: u64,
    visited: Set<u64>,
    taken: Set<u64>,
    depth: nat,
    h: nat,
) -> bool {
    &&& h + depth < MAX_DEPTH
    &&& free_tree(pages, count, id, h)
    &&& forall|p: u64| #[trigger] free_owns(pages, id, h, p) && p != id ==> !visited.contains(p)
    &&& forall|i: int|
        0 <= i < records(pages, id, h).len() ==> !taken.contains(
            (#[trigger] records(pages, id, h)[i]).0,
        )
}

/// Whether a page heads a free tree of height `h` that ends above the depth limit,
/// takes up no page that was visited before and names no free page that is taken.
pub open spec fn loads(
    pages: Pages,
    count: u64,
    id: u64,
    visited: Set<u64>,
    taken: Set<u64>,
    depth: nat,
    h: nat,
) -> bool {
    &&& h + depth < MAX_DEPTH
    &&& free_tree(pages, count, id, h)
    &&& forall|p: u64| #[trigger] free_owns(pages, id, h, p) ==> !visited.contains(p)
    &&& forall|i: int|
        0 <= i < records(pages, id, h).len() ==> !taken.contains(
            (#[trigger] records(pages, id, h)[i]).0,
        )
}

/// If a tree loads, so does each child once the children before it are loaded.
proof fn lemma_child_loads(
    pages: Pages,
    count: u64,
    id: u64,
    visited: Set<u64>,
    taken: Set<u64>,
    depth: nat,
    h: nat,
    k: int,
    visited_then: Set<u64>,
    taken_then: Set<u64>,
)
    requires
        loads_below(pages, count, id, visited, taken, depth, h),
        h > 0,
        0 <= k < free_children(pages[id]).len(),
        forall|p: u64| #[trigger]
            visited_then.contains(p) ==> visited.contains(p) || p == id || exists|i: int|
                0 <= i < k && free_owns(
                    pages,
                    #[trigger] free_children(pages[id])[i],
                    (h - 1) as nat,
                    p,
                ),
        forall|f: u64| #[trigger]
            taken_then.contains(f) ==> taken.contains(f) || exists|i: int|
                0 <= i < run_records(pages, free_children(pages[id]).take(k), (h - 1) as nat).len()
                    && (#[trigger] run_records(
                    pages,
                    free_children(pages[id]).take(k),
                    (h - 1) as nat,
                )[i]).0 == f,
    ensures
        loads(
            pages,
            count,
            free_children(pages[id])[k],
            visited_then,
            taken_then,
            depth + 1,
            (h - 1) as nat,
        ),
{
    let below = (h - 1) as nat;
    let ids = free_children(pages[id]);
    let child = ids[k];
    let whole = records(pages, id, h);
    let left = run_records(pages, ids.take(k), below);
    let own = records(pages, child, below);
    assert(free_node(pages, child, below));
    lemma_run_split(pages, ids, k, below);
    lemma_node_ascending(pages, id, h);
    assert forall|p: u64| #[trigger] free_owns(pages, child, below, p) implies in_snapshot(p, count)
        && !visited_then.contains(p) by {
        assert(free_owns(pages, id, h, p));
        if p == id {
            assert(!free_owns(pages, ids[k], below, id));
        }
        if visited_then.contains(p) {
            let i = choose|i: int| 0 <= i < k && free_owns(pages, #[trigger] ids[i], below, p);
            assert(free_owns(pages, ids[i], below, p));
        }
    }
    assert forall|i: int| 0 <= i < own.len() implies in_snapshot((#[trigger] own[i]).0, count)
        && !taken_then.contains(own[i].0) by {
        assert(whole[left.len() + i] == own[i]);
        if taken_then.contains(own[i].0) {
            let j = choose|j: int| 0 <= j < left.len() && (#[trigger] left[j]).0 == own[i].0;
            assert(whole[j] == left[j]);
        }
    }
}

/// Checks the header, the slot count and the padding of a page of the free tree.
fn validate_header(page: &[u8; PAGE_SIZE], kind: u8, count: usize) -> (result: Result<()>)
    requires
        count == count_of(page@),
    ensures
        result is Ok <==> free_header(page@, kind),
        result matches Err(error) ==> error is Corrupt,
{
    let reserved = page[1] == 0 && is_zero(page, 4, 8) && if kind == FREE_LEAF {
        is_zero(page, 8, PAGE_HEADER)
    } else {
        is_zero(page, 16, PAGE_HEADER)
    };
    if !reserved {
        return Err(corrupt("free page reserved bytes are nonzero"));
    }
    if count > LEAF_CAPACITY {
        return Err(corrupt("free leaf slot count exceeds capacity"));
    }
    let used_end = PAGE_HEADER + count * SLOT_SIZE;
    if !is_zero(page, used_end, PAGE_CHECKSUM_OFFSET) {
        return Err(corrupt("invalid free page padding"));
    }
    Ok(())
}

/// Checks that a page identifier names a page behind the metadata pages.
fn validate_child(page_id: u64, page_count: u64) -> (result: Result<()>)
    ensures
        result is Ok <==> in_snapshot(page_id, page_count),
        result matches Err(error) ==> error is Corrupt,
{
    if page_id < META_PAGES || page_id >= page_count {
        return Err(corrupt("free-tree child is outside the file"));
    }
    Ok(())
}

/// Loads the records of one leaf.
fn load_leaf(
    page: &[u8; PAGE_SIZE],
    page_count: u64,
    entries: &mut BTreeMap<u64, u64>,
) -> (result: Result<Subtree>)
    requires
        free_header(page@, FREE_LEAF),
    ensures
        ({
            let found = leaf_records(page@);
            let good = {
                &&& ascending(found)
                &&& forall|i: int|
                    0 <= i < found.len() ==> in_snapshot((#[trigger] found[i]).0, page_count)
                        && !old(entries)@.dom().contains(found[i].0)
            };
            match result {
                Ok(subtree) => {
                    &&& good
                    &&& subtree.height == 0
                    &&& spans(subtree, found)
                    &&& final(entries)@ == old(entries)@.union_prefer_right(record_map(found))
                },
                Err(error) => error is Corrupt && !good,
            }
        }),
{
    broadcast use vstd::std_specs::btree::group_btree_axioms;

    let ghost found = leaf_records(page@);
    let ghost base = entries@;
    let count = page_u16(page, 2) as usize;
    let mut first: Option<u64> = None;
    let mut previous: Option<u64> = None;
    let mut index: usize = 0;
    proof {
        assert(base.union_prefer_right(record_map(found.take(0))) =~= base);
    }
    while index < count
        invariant
            index <= count,
            count == found.len(),
            count <= LEAF_CAPACITY,
            found == leaf_records(page@),
            base == old(entries)@,
            ascending(found.take(index as int)),
            spans(Subtree { first, last: previous, height: 0 }, found.take(index as int)),
            entries@ == base.union_prefer_right(record_map(found.take(index as int))),
            forall|i: int|
                0 <= i < index ==> in_snapshot((#[trigger] found[i]).0, page_count)
                    && !base.dom().contains(found[i].0),
        decreases count - index,
    {
        broadcast use vstd::std_specs::btree::group_btree_axioms;

        let ghost so_far = found.take(index as int);
        let slot = PAGE_HEADER + index * SLOT_SIZE;
        let free_page = page_u64(page, slot);
        let generation = page_u64(page, slot + 8);
        assert(found[index as int] == (free_page, generation));
        if free_page < META_PAGES || free_page >= page_count {
            return Err(corrupt("free record points outside the file"));
        }
        let unordered = match previous {
            Some(value) => value >= free_page,
            None => false,
        };
        if unordered {
            assert(so_far.last() == found[index - 1]);
            return Err(corrupt("free page IDs are not unique and ordered"));
        }
        proof {
            assert(found.take(index + 1) =~= so_far.push(found[index as int]));
            assert(found.take(index + 1).drop_last() =~= so_far);
            lemma_ascending_add(so_far, seq![found[index as int]]);
            assert(so_far + seq![found[index as int]] =~= found.take(index + 1));
            lemma_record_map(so_far);
            if record_map(so_far).contains_key(free_page) {
                let i = choose|i: int|
                    0 <= i < so_far.len() && (#[trigger] so_far[i]).0 == free_page;
                assert(found.take(index + 1)[i].0 < found.take(index + 1)[index as int].0);
            }
        }
        if entries.insert(free_page, generation).is_some() {
            assert(base.dom().contains(found[index as int].0));
            return Err(corrupt("free page IDs are not unique and ordered"));
        }
        proof {
            assert(entries@ =~= base.union_prefer_right(record_map(found.take(index + 1))));
        }
        if first.is_none() {
            first = Some(free_page);
        }
        previous = Some(free_page);
        index = index + 1;
    }
    assert(found.take(count as int) =~= found);
    Ok(Subtree { first, last: previous, height: 0 })
}

/// What holds of the children that an internal page has loaded so far.
#[verifier::opaque]
spec fn loaded_run(
    pages: Pages,
    count: u64,
    id: u64,
    ids: Seq<u64>,
    h: nat,
    visited: Set<u64>,
    taken: Set<u64>,
) -> bool {
    &&& free_run(pages, ids, h)
    &&& chained(pages, ids, h)
    &&& forall|i: int, p: u64|
        0 <= i < ids.len() && #[trigger] free_owns(pages, ids[i], h, p) ==> p != id
            && in_snapshot(p, count) && !visited.contains(p)
    &&& forall|i: int|
        0 <= i < run_records(pages, ids, h).len() ==> in_snapshot(
            (#[trigger] run_records(pages, ids, h)[i]).0,
            count,
        ) && !taken.contains(run_records(pages, ids, h)[i].0)
}

/// One more child of an internal page.
proof fn lemma_loaded_push(
    pages: Pages,
    count: u64,
    id: u64,
    ids: Seq<u64>,
    child: u64,
    h: nat,
    visited: Set<u64>,
    taken: Set<u64>,
    visited_then: Set<u64>,
    taken_then: Set<u64>,
    depth: nat,
)
    requires
        loaded_run(pages, count, id, ids, h, visited, taken),
        loads(pages, count, child, visited_then, taken_then, depth, h),
        records(pages, child, h).len() > 0,
        ids.len() > 0 ==> records(pages, ids.last(), h).last().0 < records(pages, child, h)[0].0,
        visited.subset_of(visited_then),
        taken.subset_of(taken_then),
        visited_then.contains(id),
        forall|i: int, p: u64|
            0 <= i < ids.len() && #[trigger] free_owns(pages, ids[i], h, p)
                ==> visited_then.contains(p),
    ensures
        loaded_run(pages, count, id, ids.push(child), h, visited, taken),
        run_records(pages, ids.push(child), h) == run_records(pages, ids, h) + records(
            pages,
            child,
            h,
        ),
{
    reveal(loaded_run);
    let more = ids.push(child);
    let len = ids.len() as int;
    assert(more.drop_last() =~= ids);
    assert forall|i: int| 0 <= i < more.len() implies free_node(pages, #[trigger] more[i], h)
        && records(pages, more[i], h).len() > 0 by {
        if i < len {
            assert(more[i] == ids[i]);
        }
    }
    assert forall|i: int, j: int, p: u64| 0 <= i < j < more.len() implies !(#[trigger] free_owns(
        pages,
        more[i],
        h,
        p,
    ) && #[trigger] free_owns(pages, more[j], h, p)) by {
        assert(more[i] == ids[i]);
        if j < len {
            assert(more[j] == ids[j]);
        } else if free_owns(pages, ids[i], h, p) {
            assert(visited_then.contains(p));
        }
    }
    assert forall|i: int, j: int| 0 <= i && j == i + 1 && j < more.len() implies records(
        pages,
        #[trigger] more[i],
        h,
    ).last().0 < records(pages, #[trigger] more[j], h)[0].0 by {
        assert(more[i] == ids[i]);
        if j < len {
            assert(more[j] == ids[j]);
        }
    }
    assert forall|i: int, p: u64| 0 <= i < more.len() && #[trigger] free_owns(
        pages,
        more[i],
        h,
        p,
    ) implies p != id && in_snapshot(p, count) && !visited.contains(p) by {
        if i < len {
            assert(free_owns(pages, ids[i], h, p));
        }
    }
    let left = run_records(pages, ids, h);
    let own = records(pages, child, h);
    assert forall|i: int| 0 <= i < run_records(pages, more, h).len() implies in_snapshot(
        (#[trigger] run_records(pages, more, h)[i]).0,
        count,
    ) && !taken.contains(run_records(pages, more, h)[i].0) by {
        if i < left.len() {
            assert(run_records(pages, more, h)[i] == left[i]);
        } else {
            assert(run_records(pages, more, h)[i] == own[i - left.len()]);
        }
    }
}

/// The last record of the children that are loaded so far.
proof fn lemma_loaded_last(
    pages: Pages,
    count: u64,
    id: u64,
    ids: Seq<u64>,
    h: nat,
    visited: Set<u64>,
    taken: Set<u64>,
)
    requires
        loaded_run(pages, count, id, ids, h, visited, taken),
        ids.len() > 0,
    ensures
        run_records(pages, ids, h).len() > 0,
        run_records(pages, ids, h).last() == records(pages, ids.last(), h).last(),
{
    reveal(loaded_run);
    lemma_run_ascending(pages, ids, h);
}

/// One more child of an internal page, with what it adds to the pages and the entries.
proof fn lemma_loaded_step(
    pages: Pages,
    count: u64,
    id: u64,
    ids: Seq<u64>,
    k: int,
    h: nat,
    visited: Set<u64>,
    base: Map<u64, u64>,
    visited_then: Set<u64>,
    entries_then: Map<u64, u64>,
    visited_after: Set<u64>,
    entries_after: Map<u64, u64>,
    depth: nat,
)
    requires
        0 < k < ids.len(),
        loaded_run(pages, count, id, ids.take(k), h, visited, base.dom()),
        loads(pages, count, ids[k], visited_then, entries_then.dom(), depth, h),
        records(pages, ids[k], h).len() > 0,
        records(pages, ids[k - 1], h).last().0 < records(pages, ids[k], h)[0].0,
        visited.contains(id),
        forall|p: u64| #[trigger]
            visited_then.contains(p) == (visited.contains(p) || exists|i: int|
                0 <= i < k && free_owns(pages, #[trigger] ids[i], h, p)),
        entries_then == base.union_prefer_right(record_map(run_records(pages, ids.take(k), h))),
        forall|p: u64| #[trigger]
            visited_after.contains(p) == (visited_then.contains(p) || free_owns(
                pages,
                ids[k],
                h,
                p,
            )),
        entries_after == entries_then.union_prefer_right(record_map(records(pages, ids[k], h))),
    ensures
        loaded_run(pages, count, id, ids.take(k + 1), h, visited, base.dom()),
        run_records(pages, ids.take(k + 1), h).len() > 0,
        run_records(pages, ids.take(k + 1), h)[0] == run_records(pages, ids.take(k), h)[0],
        run_records(pages, ids.take(k + 1), h).last() == records(pages, ids[k], h).last(),
        run_records(pages, ids.take(k), h).len() > 0,
        entries_after == base.union_prefer_right(
            record_map(run_records(pages, ids.take(k + 1), h)),
        ),
        forall|p: u64| #[trigger]
            visited_after.contains(p) == (visited.contains(p) || exists|i: int|
                0 <= i < k + 1 && free_owns(pages, #[trigger] ids[i], h, p)),
{
    let done = ids.take(k);
    let child = ids[k];
    let so_far = run_records(pages, done, h);
    let own = records(pages, child, h);
    assert(done.last() == ids[k - 1]);
    assert forall|i: int, p: u64| 0 <= i < done.len() && #[trigger] free_owns(
        pages,
        done[i],
        h,
        p,
    ) implies visited_then.contains(p) by {
        assert(free_owns(pages, ids[i], h, p));
    }
    lemma_loaded_push(
        pages,
        count,
        id,
        done,
        child,
        h,
        visited,
        base.dom(),
        visited_then,
        entries_then.dom(),
        depth,
    );
    assert(done.push(child) =~= ids.take(k + 1));
    lemma_loaded_last(pages, count, id, done, h, visited, base.dom());
    lemma_record_map_add(so_far, own);
    assert(entries_after =~= base.union_prefer_right(record_map(so_far + own)));
    assert forall|p: u64| #[trigger]
        visited_after.contains(p) == (visited.contains(p) || exists|i: int|
            0 <= i < k + 1 && free_owns(pages, #[trigger] ids[i], h, p)) by {
        if free_owns(pages, child, h, p) {
            assert(free_owns(pages, ids[k], h, p));
        }
        if visited_then.contains(p) && !visited.contains(p) {
            let i = choose|i: int| 0 <= i < k && free_owns(pages, #[trigger] ids[i], h, p);
            assert(free_owns(pages, ids[i], h, p));
        }
    }
}

/// An internal page all of whose children are loaded.
proof fn lemma_loaded_whole(
    pages: Pages,
    count: u64,
    id: u64,
    h: nat,
    visited: Set<u64>,
    taken: Set<u64>,
    depth: nat,
    visited_after: Set<u64>,
)
    requires
        readable(pages, count, id),
        pages[id][0] == FREE_INTERNAL,
        free_header(pages[id], FREE_INTERNAL),
        count_of(pages[id]) > 0,
        h + 1 + depth < MAX_DEPTH,
        loaded_run(pages, count, id, free_children(pages[id]), h, visited, taken),
        visited.contains(id),
        separated(pages, pages[id], h),
        forall|p: u64| #[trigger]
            visited_after.contains(p) == (visited.contains(p) || exists|i: int|
                0 <= i < free_children(pages[id]).len() && free_owns(
                    pages,
                    #[trigger] free_children(pages[id])[i],
                    h,
                    p,
                )),
    ensures
        loads_below(pages, count, id, visited, taken, depth, h + 1),
        records(pages, id, h + 1) == run_records(pages, free_children(pages[id]), h),
        forall|p: u64| #[trigger]
            visited_after.contains(p) == (visited.contains(p) || free_owns(pages, id, h + 1, p)),
{
    reveal(loaded_run);
    let ids = free_children(pages[id]);
    assert forall|i: int| 0 <= i < ids.len() implies !free_owns(
        pages,
        #[trigger] ids[i],
        h,
        id,
    ) by {
        if free_owns(pages, ids[i], h, id) {
            assert(false);
        }
    }
    assert(free_node(pages, id, h + 1));
    let all = records(pages, id, h + 1);
    assert forall|i: int| 0 <= i < all.len() implies in_snapshot((#[trigger] all[i]).0, count)
        && !taken.contains(all[i].0) by {
        assert(all[i] == run_records(pages, ids, h)[i]);
    }
    assert forall|p: u64| #[trigger] free_owns(pages, id, h + 1, p) implies in_snapshot(p, count)
        && (p != id ==> !visited.contains(p)) && visited_after.contains(p) by {
        if p != id {
            let i = choose|i: int| 0 <= i < ids.len() && free_owns(pages, #[trigger] ids[i], h, p);
            assert(free_owns(pages, ids[i], h, p));
        }
    }
    assert forall|p: u64| #[trigger] visited_after.contains(p) implies visited.contains(p)
        || free_owns(pages, id, h + 1, p) by {
        if !visited.contains(p) {
            let i = choose|i: int| 0 <= i < ids.len() && free_owns(pages, #[trigger] ids[i], h, p);
            assert(free_owns(pages, ids[i], h, p));
        }
    }
}

/// If an internal page loads, then its next child does, with the separator in its place.
proof fn lemma_next_child(
    pages: Pages,
    count: u64,
    id: u64,
    visited: Set<u64>,
    taken: Set<u64>,
    depth: nat,
    index: int,
    below: nat,
    visited_then: Set<u64>,
    taken_then: Set<u64>,
)
    requires
        pages[id][0] == FREE_INTERNAL,
        0 <= index < count_of(pages[id]),
        loaded_run(pages, count, id, free_children(pages[id]).take(index + 1), below, visited, taken),
        forall|p: u64| #[trigger]
            visited_then.contains(p) ==> visited.contains(p) || exists|i: int|
                0 <= i < index + 1 && free_owns(
                    pages,
                    #[trigger] free_children(pages[id])[i],
                    below,
                    p,
                ),
        forall|f: u64| #[trigger]
            taken_then.contains(f) ==> taken.contains(f) || record_map(
                run_records(pages, free_children(pages[id]).take(index + 1), below),
            ).contains_key(f),
    ensures
        forall|h: nat|
            loads_below(pages, count, id, visited, taken, depth, h) ==> next_child(
                pages,
                count,
                id,
                depth,
                index,
                below,
                visited_then,
                taken_then,
                h,
            ),
{
    reveal(loaded_run);
    let page = pages[id];
    let ids = free_children(page);
    let done = ids.take(index + 1);
    let so_far = run_records(pages, done, below);
    lemma_run_ascending(pages, done, below);
    lemma_record_map(so_far);
    assert forall|h: nat| loads_below(pages, count, id, visited, taken, depth, h) implies next_child(
        pages,
        count,
        id,
        depth,
        index,
        below,
        visited_then,
        taken_then,
        h,
    ) by {
        assert(h > 0);
        assert(free_node(pages, ids[0], (h - 1) as nat));
        assert(done[0] == ids[0]);
        lemma_free_height(pages, ids[0], below, (h - 1) as nat);
        lemma_child_loads(
            pages,
            count,
            id,
            visited,
            taken,
            depth,
            h,
            index + 1,
            visited_then,
            taken_then,
        );
        assert(free_node(pages, ids[index + 1], below));
        assert(separated(pages, page, below));
        assert(free_key(page, index) == records(pages, ids[index + 1], below)[0].0);
        if index > 0 {
            assert(free_key(page, index - 1) == records(pages, ids[index], below)[0].0);
            let own = records(pages, ids[index], below);
            assert(free_node(pages, done[index], below));
            lemma_node_ascending(pages, ids[index], below);
            if own.len() > 1 {
                assert(own[0].0 < own[own.len() - 1].0);
            }
        }
    }
}

/// Whether the next child of an internal page loads and its separator is in place.
spec fn next_child(
    pages: Pages,
    count: u64,
    id: u64,
    depth: nat,
    index: int,
    below: nat,
    visited_then: Set<u64>,
    taken_then: Set<u64>,
    h: nat,
) -> bool {
    let page = pages[id];
    let ids = free_children(page);
    let child = ids[index + 1];
    &&& h == below + 1
    &&& loads(pages, count, child, visited_then, taken_then, depth + 1, below)
    &&& records(pages, child, below).len() > 0
    &&& free_key(page, index) == records(pages, child, below)[0].0
    &&& records(pages, ids[index], below).last().0 < free_key(page, index)
    &&& index > 0 ==> free_key(page, index - 1) < free_key(page, index)
}

/// Whether a page heads a well-formed free tree all pages of which are at hand.
pub open spec fn free_near(pages: Pages, id: u64, h: nat, hand: Set<u64>) -> bool {
    &&& free_node(pages, id, h)
    &&& forall|p: u64| #[trigger] free_owns(pages, id, h, p) ==> hand.contains(p)
}

/// Where all pages of a free tree are at hand, so are those below a child.
proof fn lemma_near_child(pages: Pages, id: u64, h: nat, i: int, hand: Set<u64>)
    requires
        free_near(pages, id, h, hand),
        pages[id][0] == FREE_INTERNAL,
        0 <= i < free_children(pages[id]).len(),
    ensures
        h > 0,
        free_near(pages, free_children(pages[id])[i], (h - 1) as nat, hand),
{
    let child = free_children(pages[id])[i];
    assert(free_node(pages, child, (h - 1) as nat));
    assert forall|p: u64| #[trigger] free_owns(pages, child, (h - 1) as nat, p) implies hand.contains(p) by {
        assert(free_owns(pages, free_children(pages[id])[i], (h - 1) as nat, p));
        assert(free_owns(pages, id, h, p));
    }
}

/// Loads the subtrees below an internal page.
#[verifier::rlimit(30)]
fn load_internal<R: PageReader>(
    reader: &mut R,
    page: &[u8; PAGE_SIZE],
    page_id: u64,
    page_count: u64,
    loaded: &mut LoadedFreeTree,
    depth: usize,
) -> (result: Result<Subtree>)
    requires
        old(reader).usable(),
        depth < MAX_DEPTH,
        readable(old(reader).pages(), page_count, page_id),
        page@ == old(reader).pages()[page_id],
        page@[0] == FREE_INTERNAL,
        free_header(page@, FREE_INTERNAL),
        old(loaded).pages@.contains(page_id),
    ensures
        final(reader).usable(),
        final(reader).origin() == old(reader).origin(),
        old(reader).failures() <= final(reader).failures(),
        hoards(*old(reader), *final(reader)),
        honest(
            result,
            old(reader).failures(),
            final(reader).failures(),
            final(reader).reported(),
            incomplete(old(reader).pages(), page_count),
        ),
        final(reader).pages() == old(reader).pages(),
        ({
            let pages = old(reader).pages();
            let visited = old(loaded).pages@;
            let taken = old(loaded).entries@.dom();
            match result {
                Ok(found) => {
                    let all = records(pages, page_id, found.height as nat);
                    &&& loads_below(
                        pages,
                        page_count,
                        page_id,
                        visited,
                        taken,
                        depth as nat,
                        found.height as nat,
                    )
                    &&& spans(found, all)
                    &&& final(loaded).entries@ == old(loaded).entries@.union_prefer_right(
                        record_map(all),
                    )
                    &&& forall|p: u64| #[trigger]
                        final(loaded).pages@.contains(p) == (visited.contains(p) || free_owns(
                            pages,
                            page_id,
                            found.height as nat,
                            p,
                        ))
                },
                Err(error) => fails_for(
                    error,
                    forall|h: nat|
                        !#[trigger] loads_below(
                            pages,
                            page_count,
                            page_id,
                            visited,
                            taken,
                            depth as nat,
                            h,
                        ),
                    final(reader).failures() > old(reader).failures(),
                ),
            }
        }),
        forall|h: nat| #[trigger]
            free_near(old(reader).pages(), page_id, h, old(reader).at_hand()) ==> steady(
                true,
                old(reader).at_hand(),
                final(reader).at_hand(),
                result,
            ),
    decreases MAX_DEPTH - depth, 0nat,
{
    let ghost pages = reader.pages();
    let ghost hand = reader.at_hand();
    let ghost ready = exists|h: nat| #[trigger] free_near(pages, page_id, h, hand);
    let ghost visited = loaded.pages@;
    let ghost base = loaded.entries@;
    let ghost taken = base.dom();
    let ghost ids = free_children(page@);
    let count = page_u16(page, 2) as usize;
    if count == 0 {
        return Err(corrupt("free internal page has no separators"));
    }
    let first = page_u64(page, 8);
    assert(first == ids[0]);
    match validate_child(first, page_count) {
        Ok(()) => {},
        Err(error) => {
            proof {
                assert forall|h: nat|
                    !loads_below(pages, page_count, page_id, visited, taken, depth as nat, h) by {
                    if loads_below(pages, page_count, page_id, visited, taken, depth as nat, h) {
                        assert(free_owns(pages, ids[0], (h - 1) as nat, first));
                        assert(free_owns(pages, page_id, h, first));
                    }
                }
            }
            return Err(error);
        },
    }
    proof {
        assert forall|h: nat|
            loads_below(pages, page_count, page_id, visited, taken, depth as nat, h) implies h > 0
            && loads(pages, page_count, first, visited, taken, (depth + 1) as nat, (h - 1) as nat) by {
            lemma_child_loads(
                pages,
                page_count,
                page_id,
                visited,
                taken,
                depth as nat,
                h,
                0,
                visited,
                taken,
            );
        }
    }
    proof {
        if ready {
            let h = choose|h: nat| #[trigger] free_near(pages, page_id, h, hand);
            lemma_near_child(pages, page_id, h, 0, hand);
        }
    }
    let mut subtree = load_page(reader, first, page_count, loaded, depth + 1)?;
    if subtree.first.is_none() {
        proof {
            assert forall|h: nat|
                !loads_below(pages, page_count, page_id, visited, taken, depth as nat, h) by {
                if loads_below(pages, page_count, page_id, visited, taken, depth as nat, h) {
                    assert(free_node(pages, ids[0], (h - 1) as nat));
                    lemma_free_height(pages, first, subtree.height as nat, (h - 1) as nat);
                    assert(records(pages, ids[0], (h - 1) as nat).len() > 0);
                }
            }
        }
        return Err(corrupt("free internal page has an empty child"));
    }
    let ghost below = subtree.height as nat;
    proof {
        let none = Seq::<u64>::empty();
        reveal(loaded_run);
        assert(run_records(pages, none, below) =~= Seq::<Record>::empty());
        lemma_loaded_push(
            pages,
            page_count,
            page_id,
            none,
            first,
            below,
            visited,
            taken,
            visited,
            taken,
            (depth + 1) as nat,
        );
        assert(none.push(first) =~= ids.take(1));
        assert(run_records(pages, none, below) + records(pages, first, below) =~= records(
            pages,
            first,
            below,
        ));
        assert forall|p: u64| #[trigger]
            loaded.pages@.contains(p) == (visited.contains(p) || exists|i: int|
                0 <= i < 1 && free_owns(pages, #[trigger] ids[i], below, p)) by {
            if free_owns(pages, first, below, p) {
                assert(free_owns(pages, ids[0], below, p));
            }
        }
    }
    let mut previous: Option<u64> = None;
    let mut index: usize = 0;
    while index < count
        invariant
            index <= count,
            0 < count <= LEAF_CAPACITY,
            count == count_of(page@),
            ids == free_children(page@),
            pages == reader.pages(),
            pages == old(reader).pages(),
            reader.usable(),
            reader.origin() == old(reader).origin(),
            reader.failures() == old(reader).failures(),
            hoards(*old(reader), *reader),
            hand == old(reader).at_hand(),
            ready == exists|h: nat| #[trigger] free_near(pages, page_id, h, hand),
            ready ==> reader.at_hand() == hand,
            depth < MAX_DEPTH,
            readable(pages, page_count, page_id),
            page@ == pages[page_id],
            page@[0] == FREE_INTERNAL,
            visited == old(loaded).pages@,
            visited.contains(page_id),
            base == old(loaded).entries@,
            taken == base.dom(),
            below == subtree.height,
            below + depth + 1 < MAX_DEPTH,
            loaded_run(pages, page_count, page_id, ids.take(index + 1), below, visited, taken),
            spans(subtree, run_records(pages, ids.take(index + 1), below)),
            loaded.entries@ == base.union_prefer_right(
                record_map(run_records(pages, ids.take(index + 1), below)),
            ),
            forall|p: u64| #[trigger]
                loaded.pages@.contains(p) == (visited.contains(p) || exists|i: int|
                    0 <= i < index + 1 && free_owns(pages, #[trigger] ids[i], below, p)),
            forall|i: int|
                0 <= i < index ==> {
                    &&& #[trigger] free_key(page@, i) == records(pages, ids[i + 1], below)[0].0
                    &&& records(pages, ids[i], below).last().0 < free_key(page@, i)
                },
            index > 0 ==> previous == Some(free_key(page@, index - 1)),
            index == 0 ==> previous is None,
        decreases count - index,
    {
        let ghost done = ids.take(index + 1);
        let ghost visited_then = loaded.pages@;
        let ghost entries_then = loaded.entries@;
        let ghost taken_then = entries_then.dom();
        let ghost so_far = run_records(pages, done, below);
        let slot = PAGE_HEADER + index * SLOT_SIZE;
        let separator = page_u64(page, slot);
        let child = page_u64(page, slot + 8);
        proof {
            assert(separator == free_key(page@, index as int));
            assert(child == ids[index + 1]);
            lemma_next_child(
                pages,
                page_count,
                page_id,
                visited,
                taken,
                depth as nat,
                index as int,
                below,
                visited_then,
                taken_then,
            );
            assert(done.last() == ids[index as int]);
            lemma_loaded_last(pages, page_count, page_id, done, below, visited, taken);
            if ready {
                let h = choose|h: nat| #[trigger] free_near(pages, page_id, h, hand);
                lemma_near_child(pages, page_id, h, index + 1, hand);
            }
        }
        let unordered = match previous {
            Some(value) => value >= separator,
            None => false,
        };
        if unordered {
            return Err(corrupt("free separators are not ordered"));
        }
        match validate_child(child, page_count) {
            Ok(()) => {},
            Err(error) => {
                proof {
                    assert(free_owns(pages, child, below, child));
                }
                return Err(error);
            },
        }
        let right = match load_page(reader, child, page_count, loaded, depth + 1) {
            Ok(right) => right,
            Err(error) => {
                return Err(error);
            },
        };
        let mismatched = match right.first {
            Some(value) => value != separator,
            None => true,
        };
        proof {
            if exists|h: nat|
                loads_below(pages, page_count, page_id, visited, taken, depth as nat, h) {
                lemma_free_height(pages, child, below, right.height as nat);
            }
        }
        if mismatched {
            return Err(corrupt("free separator does not match its right child"));
        }
        let overlapping = match subtree.last {
            Some(last) => last >= separator,
            None => true,
        };
        if overlapping {
            return Err(corrupt("free child ranges overlap"));
        }
        if right.height != subtree.height {
            return Err(corrupt("free-tree leaves have unequal depths"));
        }
        proof {
            lemma_loaded_step(
                pages,
                page_count,
                page_id,
                ids,
                index + 1,
                below,
                visited,
                base,
                visited_then,
                entries_then,
                loaded.pages@,
                loaded.entries@,
                (depth + 1) as nat,
            );
        }
        subtree.last = right.last;
        previous = Some(separator);
        index = index + 1;
    }
    proof {
        assert(ids.take(count + 1) =~= ids);
        lemma_loaded_whole(
            pages,
            page_count,
            page_id,
            below,
            visited,
            taken,
            depth as nat,
            loaded.pages@,
        );
    }
    subtree.height = subtree.height + 1;
    Ok(subtree)
}

/// Loads the free tree below a page.
fn load_page<R: PageReader>(
    reader: &mut R,
    page_id: u64,
    page_count: u64,
    loaded: &mut LoadedFreeTree,
    depth: usize,
) -> (result: Result<Subtree>)
    requires
        old(reader).usable(),
        depth <= MAX_DEPTH,
    ensures
        final(reader).usable(),
        final(reader).origin() == old(reader).origin(),
        old(reader).failures() <= final(reader).failures(),
        hoards(*old(reader), *final(reader)),
        honest(
            result,
            old(reader).failures(),
            final(reader).failures(),
            final(reader).reported(),
            incomplete(old(reader).pages(), page_count),
        ),
        final(reader).pages() == old(reader).pages(),
        ({
            let pages = old(reader).pages();
            let visited = old(loaded).pages@;
            let taken = old(loaded).entries@.dom();
            match result {
                Ok(found) => {
                    let all = records(pages, page_id, found.height as nat);
                    &&& loads(
                        pages,
                        page_count,
                        page_id,
                        visited,
                        taken,
                        depth as nat,
                        found.height as nat,
                    )
                    &&& spans(found, all)
                    &&& final(loaded).entries@ == old(loaded).entries@.union_prefer_right(
                        record_map(all),
                    )
                    &&& forall|p: u64| #[trigger]
                        final(loaded).pages@.contains(p) == (visited.contains(p) || free_owns(
                            pages,
                            page_id,
                            found.height as nat,
                            p,
                        ))
                },
                Err(error) => {
                    &&& fails_for(
                        error,
                        forall|h: nat|
                            !#[trigger] loads(
                                pages,
                                page_count,
                                page_id,
                                visited,
                                taken,
                                depth as nat,
                                h,
                            ),
                        final(reader).failures() > old(reader).failures(),
                    )
                    &&& depth >= MAX_DEPTH || visited.contains(page_id) || !in_snapshot(
                        page_id,
                        page_count,
                    ) ==> error is Corrupt
                },
            }
        }),
        depth >= MAX_DEPTH || old(loaded).pages@.contains(page_id) || !in_snapshot(
            page_id,
            page_count,
        ) ==> result is Err,
        forall|h: nat| #[trigger]
            free_near(old(reader).pages(), page_id, h, old(reader).at_hand()) ==> steady(
                true,
                old(reader).at_hand(),
                final(reader).at_hand(),
                result,
            ),
    decreases MAX_DEPTH - depth, 1nat,
{
    broadcast use vstd::std_specs::hash::group_hash_axioms;

    let ghost pages = reader.pages();
    let ghost visited = loaded.pages@;
    let ghost taken = loaded.entries@.dom();
    proof {
        assert forall|h: nat| #[trigger] loads(
            pages,
            page_count,
            page_id,
            visited,
            taken,
            depth as nat,
            h,
        ) implies !visited.contains(page_id) && readable(pages, page_count, page_id) by {
            assert(free_owns(pages, page_id, h, page_id));
        }
    }
    if depth >= MAX_DEPTH || !loaded.pages.insert(page_id) {
        return Err(corrupt("free tree contains a cycle or duplicate page"));
    }
    proof {
        assert forall|h: nat| #[trigger] free_near(
            pages,
            page_id,
            h,
            reader.at_hand(),
        ) implies reader.at_hand().contains(page_id) by {
            assert(free_owns(pages, page_id, h, page_id));
        }
    }
    let frame = match reader.page(page_id, page_count) {
        Ok(frame) => frame,
        Err(error) => {
            return Err(error);
        },
    };
    let page = &frame.bytes;
    let count = page_u16(page, 2) as usize;
    let kind = page[0];
    proof {
        assert forall|h: nat| #[trigger] loads(
            pages,
            page_count,
            page_id,
            visited,
            taken,
            depth as nat,
            h,
        ) implies {
            &&& kind == FREE_LEAF || kind == FREE_INTERNAL
            &&& free_header(page@, kind)
            &&& kind == FREE_LEAF <==> h == 0
            &&& loads_below(
                pages,
                page_count,
                page_id,
                visited.insert(page_id),
                taken,
                depth as nat,
                h,
            )
        } by {}
    }
    if kind == FREE_LEAF {
        match validate_header(page, FREE_LEAF, count) {
            Ok(()) => {},
            Err(error) => {
                return Err(error);
            },
        }
        let found = match load_leaf(page, page_count, &mut loaded.entries) {
            Ok(found) => found,
            Err(error) => {
                proof {
                    assert forall|h: nat|
                        !loads(pages, page_count, page_id, visited, taken, depth as nat, h) by {
                        if loads(pages, page_count, page_id, visited, taken, depth as nat, h) {
                            let all = leaf_records(page@);
                            assert(records(pages, page_id, h) == all);
                            assert forall|i: int| 0 <= i < all.len() implies in_snapshot(
                                (#[trigger] all[i]).0,
                                page_count,
                            ) && !taken.contains(all[i].0) by {
                                assert(records(pages, page_id, h)[i] == all[i]);
                            }
                        }
                    }
                }
                return Err(error);
            },
        };
        proof {
            let all = leaf_records(page@);
            assert(records(pages, page_id, 0) == all);
            assert forall|p: u64| #[trigger] free_owns(pages, page_id, 0, p) implies p == page_id by {}
        }
        Ok(found)
    } else if kind == FREE_INTERNAL {
        match validate_header(page, FREE_INTERNAL, count) {
            Ok(()) => {},
            Err(error) => {
                return Err(error);
            },
        }
        assert(loaded.pages@ =~= visited.insert(page_id));
        let ghost now = *loaded;
        match load_internal(reader, page, page_id, page_count, loaded, depth) {
            Ok(found) => Ok(found),
            Err(error) => {
                proof {
                    if error is Corrupt || reader.failures() == old(reader).failures() {
                        assert(now.entries@.dom() == taken);
                        assert(now.pages@ == visited.insert(page_id));
                        assert(forall|h: nat|
                            !#[trigger] loads_below(
                                pages,
                                page_count,
                                page_id,
                                now.pages@,
                                now.entries@.dom(),
                                depth as nat,
                                h,
                            ));
                        assert forall|h: nat|
                            !#[trigger] loads(
                                pages,
                                page_count,
                                page_id,
                                visited,
                                taken,
                                depth as nat,
                                h,
                            ) by {
                            assert(!loads_below(
                                pages,
                                page_count,
                                page_id,
                                visited.insert(page_id),
                                taken,
                                depth as nat,
                                h,
                            ));
                        }
                    }
                }
                Err(error)
            },
        }
    } else {
        Err(unexpected_free_page(kind))
    }
}

/// Whether the pages hold a free tree that a reader follows to its end.
pub open spec fn loadable(pages: Pages, count: u64, root: u64, h: nat) -> bool {
    h < MAX_DEPTH && free_tree(pages, count, root, h)
}

/// Loads a free tree: its records and the pages that it takes up.
pub fn load<R: PageReader>(reader: &mut R, root: u64, page_count: u64) -> (result: Result<
    LoadedFreeTree,
>)
    requires
        old(reader).usable(),
    ensures
        final(reader).usable(),
        final(reader).origin() == old(reader).origin(),
        old(reader).failures() <= final(reader).failures(),
        hoards(*old(reader), *final(reader)),
        honest(
            result,
            old(reader).failures(),
            final(reader).failures(),
            final(reader).reported(),
            incomplete(old(reader).pages(), page_count),
        ),
        final(reader).pages() == old(reader).pages(),
        ({
            let pages = old(reader).pages();
            match result {
                Ok(loaded) => exists|h: nat| #[trigger]
                    loadable(pages, page_count, root, h) && loaded.entries@ == record_map(
                        records(pages, root, h),
                    ) && forall|p: u64| #[trigger]
                        loaded.pages@.contains(p) == free_owns(pages, root, h, p),
                Err(error) => fails_for(
                    error,
                    forall|h: nat| !#[trigger] loadable(pages, page_count, root, h),
                    final(reader).failures() > old(reader).failures(),
                ),
            }
        }),
        forall|h: nat| #[trigger]
            free_near(old(reader).pages(), root, h, old(reader).at_hand()) ==> steady(
                true,
                old(reader).at_hand(),
                final(reader).at_hand(),
                result,
            ),
{
    broadcast use vstd::std_specs::hash::group_hash_axioms;
    broadcast use vstd::std_specs::btree::group_btree_axioms;

    let mut loaded = LoadedFreeTree { entries: BTreeMap::new(), pages: HashSet::new() };
    let ghost pages = reader.pages();
    let ghost visited = loaded.pages@;
    let ghost taken = loaded.entries@.dom();
    let result = load_page(reader, root, page_count, &mut loaded, 0);
    match result {
        Ok(found) => {
            proof {
                let h = found.height as nat;
                assert(loadable(pages, page_count, root, h));
                assert(loaded.entries@ =~= record_map(records(pages, root, h)));
            }
            Ok(loaded)
        },
        Err(error) => {
            proof {
                assert forall|h: nat| #[trigger] loadable(pages, page_count, root, h) implies loads(
                    pages,
                    page_count,
                    root,
                    visited,
                    taken,
                    0,
                    h,
                ) by {}
            }
            Err(error)
        },
    }
}

// ---------------------------------------------------------------------------
// Encoding
// ---------------------------------------------------------------------------

/// Whether the first `len` slots of a page hold the pairs from `from` on, and every byte
/// behind them is zero.
spec fn filled(page: Seq<u8>, pairs: Seq<(u64, u64)>, from: int, len: int) -> bool {
    &&& forall|i: int|
        0 <= i < len ==> #[trigger] free_key(page, i) == pairs[from + i].0
    &&& forall|i: int|
        0 <= i < len ==> #[trigger] slot_page(page, i) == pairs[from + i].1
    &&& all_zero(page, slot_at(len), PAGE_CHECKSUM_OFFSET as int)
}

/// The integer at an offset depends on the eight bytes there alone.
proof fn lemma_u64_same(a: Seq<u8>, b: Seq<u8>, offset: int)
    requires
        0 <= offset,
        offset + 8 <= a.len(),
        offset + 8 <= b.len(),
        forall|i: int| offset <= i < offset + 8 ==> #[trigger] a[i] == b[i],
    ensures
        u64_at(a, offset) == u64_at(b, offset),
{
    assert(a[offset] == b[offset] && a[offset + 1] == b[offset + 1] && a[offset + 2] == b[offset
        + 2] && a[offset + 3] == b[offset + 3] && a[offset + 4] == b[offset + 4] && a[offset + 5]
        == b[offset + 5] && a[offset + 6] == b[offset + 6] && a[offset + 7] == b[offset + 7]);
}

/// Pairs in slots that are not touched stay as they are.
proof fn lemma_filled_kept(
    before: Seq<u8>,
    after: Seq<u8>,
    pairs: Seq<(u64, u64)>,
    from: int,
    len: int,
)
    requires
        filled(before, pairs, from, len),
        before.len() == PAGE_SIZE,
        after.len() == PAGE_SIZE,
        0 <= len <= LEAF_CAPACITY,
        forall|i: int|
            PAGE_HEADER <= i < slot_at(len) ==> #[trigger] after[i] == before[i],
    ensures
        forall|i: int|
            0 <= i < len ==> #[trigger] free_key(after, i) == pairs[from + i].0,
        forall|i: int|
            0 <= i < len ==> #[trigger] slot_page(after, i) == pairs[from + i].1,
{
    assert forall|i: int| 0 <= i < len implies #[trigger] free_key(after, i) == pairs[from + i].0 by {
        lemma_u64_same(before, after, slot_at(i));
        assert(free_key(before, i) == pairs[from + i].0);
    }
    assert forall|i: int| 0 <= i < len implies #[trigger] slot_page(after, i) == pairs[from + i].1 by {
        lemma_u64_same(before, after, slot_at(i) + 8);
        assert(slot_page(before, i) == pairs[from + i].1);
    }
}

/// Writes pairs into the slots of a page and ends it with its checksum.
fn fill_page(page: &mut [u8; PAGE_SIZE], pairs: &[(u64, u64)], from: usize)
    requires
        from <= pairs@.len(),
        pairs@.len() - from <= LEAF_CAPACITY,
        all_zero(old(page)@, PAGE_HEADER as int, PAGE_CHECKSUM_OFFSET as int),
    ensures
        page_ok(final(page)@),
        count_of(final(page)@) == pairs@.len() - from,
        filled(final(page)@, pairs@, from as int, pairs@.len() - from),
        forall|i: int|
            0 <= i < PAGE_HEADER && i != 2 && i != 3 ==> #[trigger] final(page)@[i] == old(
                page,
            )@[i],
{
    let ghost start = page@;
    let len = pairs.len() - from;
    put_u16(page, 2, len as u16);
    let ghost counted = page@;
    let mut index: usize = 0;
    while index < len
        invariant
            index <= len <= LEAF_CAPACITY,
            len + from == pairs@.len(),
            filled(page@, pairs@, from as int, index as int),
            forall|i: int| 0 <= i < PAGE_HEADER ==> #[trigger] page@[i] == counted[i],
        decreases len - index,
    {
        let ghost before = page@;
        let slot = PAGE_HEADER + index * SLOT_SIZE;
        assert(pairs@.len() == pairs.len());
        let pair = pairs[from + index];
        put_u64(page, slot, pair.0);
        let ghost half = page@;
        put_u64(page, slot + 8, pair.1);
        proof {
            lemma_filled_kept(before, page@, pairs@, from as int, index as int);
            lemma_u64_same(half, page@, slot as int);
            assert(free_key(page@, index as int) == pair.0);
            assert(slot_page(page@, index as int) == pair.1);
        }
        index = index + 1;
    }
    let ghost before = page@;
    finish_page(page);
    proof {
        lemma_filled_kept(before, page@, pairs@, from as int, len as int);
        assert(page@[2] == counted[2] && page@[3] == counted[3]);
    }
}

/// The leaf page that holds the given records.
fn encode_leaf(pairs: &[(u64, u64)]) -> (result: Result<[u8; PAGE_SIZE]>)
    ensures
        match result {
            Ok(page) => {
                &&& pairs@.len() <= LEAF_CAPACITY
                &&& page_ok(page@)
                &&& page@[0] == FREE_LEAF
                &&& free_header(page@, FREE_LEAF)
                &&& leaf_records(page@) == pairs@
            },
            Err(error) => error is Corrupt && pairs@.len() > LEAF_CAPACITY,
        },
{
    if pairs.len() > LEAF_CAPACITY {
        return Err(corrupt("free leaf exceeds page capacity"));
    }
    let mut page = [0u8; PAGE_SIZE];
    page[0] = FREE_LEAF;
    fill_page(&mut page, pairs, 0);
    proof {
        let found = leaf_records(page@);
        assert forall|i: int| 0 <= i < found.len() implies #[trigger] found[i] == pairs@[i] by {
            assert(free_key(page@, i) == pairs@[0 + i].0);
            assert(slot_page(page@, i) == pairs@[0 + i].1);
        }
        assert(found =~= pairs@);
    }
    Ok(page)
}

/// The internal page with the given children, each with the smallest free page below it.
fn encode_internal(children: &[(u64, u64)]) -> (result: Result<[u8; PAGE_SIZE]>)
    ensures
        match result {
            Ok(page) => {
                &&& 2 <= children@.len() <= INTERNAL_FANOUT
                &&& page_ok(page@)
                &&& page@[0] == FREE_INTERNAL
                &&& free_header(page@, FREE_INTERNAL)
                &&& count_of(page@) == children@.len() - 1
                &&& free_children(page@) == children@.map_values(|child: (u64, u64)| child.1)
                &&& forall|i: int|
                    0 <= i < children@.len() - 1 ==> #[trigger] free_key(page@, i) == children@[i
                        + 1].0
            },
            Err(error) => error is Corrupt && !(2 <= children@.len() <= INTERNAL_FANOUT),
        },
{
    if children.len() < 2 || children.len() > INTERNAL_FANOUT {
        return Err(corrupt("invalid free internal fanout"));
    }
    let mut page = [0u8; PAGE_SIZE];
    page[0] = FREE_INTERNAL;
    put_u64(&mut page, 8, children[0].1);
    let ghost before = page@;
    fill_page(&mut page, children, 1);
    proof {
        lemma_u64_same(before, page@, 8);
        let ids = children@.map_values(|child: (u64, u64)| child.1);
        let found = free_children(page@);
        assert forall|i: int| 0 <= i < found.len() implies #[trigger] found[i] == ids[i] by {
            if i > 0 {
                assert(slot_page(page@, i - 1) == children@[1 + (i - 1)].1);
            }
        }
        assert(found =~= ids);
        assert forall|i: int| 0 <= i < children@.len() - 1 implies #[trigger] free_key(page@, i)
            == children@[i + 1].0 by {
            assert(free_key(page@, i) == children@[1 + i].0);
        }
    }
    Ok(page)
}

// ---------------------------------------------------------------------------
// Layout
// ---------------------------------------------------------------------------

/// The quotient rounded up.
pub open spec fn ceil(n: int, d: int) -> int {
    (n + d - 1) / d
}

/// The quotient rounded up.
fn div_ceil(n: usize, d: usize) -> (q: usize)
    requires
        d > 0,
    ensures
        q == ceil(n as int, d as int),
{
    proof {
        let (a, b) = (n as int, d as int);
        vstd::arithmetic::div_mod::lemma_fundamental_div_mod(a, b);
        let q = a / b;
        let r = a % b;
        assert(0 <= r < b) by (nonlinear_arith)
            requires
                b > 0,
                r == a % b,
        ;
        if r == 0 {
            assert((a + b - 1) == b * q + (b - 1));
            vstd::arithmetic::div_mod::lemma_fundamental_div_mod_converse(a + b - 1, b, q, b - 1);
        } else {
            assert(b * (q + 1) == b * q + b) by (nonlinear_arith);
            vstd::arithmetic::div_mod::lemma_fundamental_div_mod_converse(
                a + b - 1,
                b,
                q + 1,
                r - 1,
            );
        }
        assert(r > 0 ==> q < a || b == 1) by (nonlinear_arith)
            requires
                a == b * q + r,
                b > 0,
                r >= 0,
                q >= 0,
        ;
    }
    if n % d == 0 {
        n / d
    } else {
        n / d + 1
    }
}

/// The sum of the levels.
pub open spec fn level_sum(levels: Seq<usize>) -> nat
    decreases levels.len(),
{
    if levels.len() == 0 {
        0
    } else {
        level_sum(levels.drop_last()) + levels.last() as nat
    }
}

/// How many pages each level of a free tree has, from the leaves up.
pub struct Layout {
    levels: Vec<usize>,
}

impl Layout {
    /// The number of pages of each level, from the leaves up.
    pub closed spec fn levels(&self) -> Seq<usize> {
        self.levels@
    }

    /// Whether the levels are those of some number of records: every level is as small as
    /// the fanout allows, and the first level of one page is the last.
    pub open spec fn inv(&self) -> bool {
        let levels = self.levels();
        &&& levels.len() > 0
        &&& 0 < levels[0] <= usize::MAX / 253 + 1
        &&& levels.last() == 1
        &&& forall|i: int| 0 <= i < levels.len() - 1 ==> 1 < #[trigger] levels[i]
        &&& forall|i: int, j: int|
            0 <= i && j == i + 1 && j < levels.len() ==> #[trigger] levels[j] == ceil(
                #[trigger] levels[i] as int,
                INTERNAL_FANOUT as int,
            )
    }

    /// Whether the layout is the smallest for the given number of records.
    pub open spec fn smallest(&self, entries: nat) -> bool {
        &&& self.inv()
        &&& self.levels()[0] == if entries == 0 {
            1
        } else {
            ceil(entries as int, LEAF_CAPACITY as int)
        }
    }

    /// The smallest layout for the given number of records.
    pub fn for_entries(entries: usize) -> (layout: Self)
        ensures
            layout.smallest(entries as nat),
    {
        let mut first = div_ceil(entries, LEAF_CAPACITY);
        if first < 1 {
            first = 1;
        }
        let mut levels: Vec<usize> = Vec::new();
        levels.push(first);
        let mut last = first;
        while last > 1
            invariant
                levels@.len() > 0,
                levels@[0] == first,
                levels@.last() == last,
                last > 0,
                forall|i: int| 0 <= i < levels@.len() - 1 ==> 1 < #[trigger] levels@[i],
                forall|i: int, j: int|
                    0 <= i && j == i + 1 && j < levels@.len() ==> #[trigger] levels@[j] == ceil(
                        #[trigger] levels@[i] as int,
                        INTERNAL_FANOUT as int,
                    ),
            decreases last,
        {
            let next = div_ceil(last, INTERNAL_FANOUT);
            levels.push(next);
            last = next;
        }
        Layout { levels }
    }

    /// The number of pages of the layout.
    pub fn page_count(&self) -> (count: usize)
        requires
            self.inv(),
        ensures
            count == level_sum(self.levels()),
    {
        let mut count: usize = 0;
        let mut index: usize = 0;
        while index < self.levels.len()
            invariant
                index <= self.levels@.len(),
                self.inv(),
                count == level_sum(self.levels@.take(index as int)),
                index == 0 ==> count == 0,
                index > 0 ==> count + 2 * self.levels@[index - 1] <= 3 * self.levels@[0],
            decreases self.levels@.len() - index,
        {
            proof {
                let levels = self.levels();
                if index > 0 {
                    assert(levels[index - 1] > 1);
                    assert(levels[index as int] == ceil(
                        levels[index - 1] as int,
                        INTERNAL_FANOUT as int,
                    ));
                }
                assert(self.levels@.take(index + 1).drop_last() =~= self.levels@.take(
                    index as int,
                ));
            }
            count = count + self.levels[index];
            index = index + 1;
        }
        assert(self.levels@.take(index as int) =~= self.levels@);
        count
    }
}

// ---------------------------------------------------------------------------
// Building
// ---------------------------------------------------------------------------

/// Whether every page of `a` is the same in `b`.
pub open spec fn extends(a: Pages, b: Pages) -> bool {
    forall|id: u64| #[trigger] a.contains_key(id) ==> b.contains_key(id) && b[id] == a[id]
}

/// Whether two maps agree on the pages that a free tree takes up.
pub open spec fn agrees(a: Pages, b: Pages, id: u64, h: nat) -> bool {
    forall|p: u64| #[trigger]
        free_owns(a, id, h, p) && a.contains_key(p) ==> b.contains_key(p) && b[p] == a[p]
}

/// A well-formed free tree reads the same where its pages are the same.
pub proof fn lemma_free_kept(a: Pages, b: Pages, id: u64, h: nat)
    requires
        free_node(a, id, h),
        agrees(a, b, id, h),
    ensures
        free_node(b, id, h),
        records(b, id, h) == records(a, id, h),
        forall|p: u64| #[trigger] free_owns(b, id, h, p) == free_owns(a, id, h, p),
    decreases h, 0nat,
{
    assert(free_owns(a, id, h, id));
    assert(a.contains_key(id));
    if h > 0 {
        let below = (h - 1) as nat;
        let ids = free_children(a[id]);
        assert forall|i: int| 0 <= i < ids.len() implies agrees(a, b, #[trigger] ids[i], below) by {
            assert forall|p: u64| #[trigger]
                free_owns(a, ids[i], below, p) && a.contains_key(p) implies b.contains_key(p)
                && b[p] == a[p] by {
                assert(free_owns(a, id, h, p));
            }
        }
        lemma_run_kept(a, b, ids, below);
        assert forall|p: u64| #[trigger] free_owns(b, id, h, p) == free_owns(a, id, h, p) by {
            if free_owns(a, id, h, p) && p != id {
                let i = choose|i: int|
                    0 <= i < ids.len() && free_owns(a, #[trigger] ids[i], below, p);
                assert(free_owns(b, ids[i], below, p));
            }
            if free_owns(b, id, h, p) && p != id {
                let i = choose|i: int|
                    0 <= i < ids.len() && free_owns(b, #[trigger] ids[i], below, p);
                assert(free_owns(a, ids[i], below, p));
            }
        }
        let page = a[id];
        assert forall|i: int| 0 <= i < count_of(page) implies {
            &&& #[trigger] free_key(page, i) == records(b, ids[i + 1], below)[0].0
            &&& records(b, ids[i], below).last().0 < free_key(page, i)
        } by {
            assert(free_key(page, i) == records(a, ids[i + 1], below)[0].0);
            assert(free_node(a, ids[i], below));
            assert(free_node(a, ids[i + 1], below));
        }
        assert(separated(b, page, below));
        assert forall|i: int| 0 <= i < ids.len() implies !free_owns(
            b,
            #[trigger] ids[i],
            below,
            id,
        ) by {
            assert(!free_owns(a, ids[i], below, id));
        }
        assert(free_node(b, id, h));
    }
}

/// A run of well-formed free trees reads the same where its pages are the same.
pub proof fn lemma_run_kept(a: Pages, b: Pages, ids: Seq<u64>, h: nat)
    requires
        free_run(a, ids, h),
        forall|i: int| 0 <= i < ids.len() ==> agrees(a, b, #[trigger] ids[i], h),
    ensures
        free_run(b, ids, h),
        run_records(b, ids, h) == run_records(a, ids, h),
        forall|i: int|
            0 <= i < ids.len() ==> records(b, #[trigger] ids[i], h) == records(a, ids[i], h),
        forall|i: int, p: u64|
            0 <= i < ids.len() ==> #[trigger] free_owns(b, ids[i], h, p) == free_owns(
                a,
                ids[i],
                h,
                p,
            ),
    decreases h, ids.len() + 1,
{
    assert forall|i: int| 0 <= i < ids.len() implies free_node(b, #[trigger] ids[i], h) && records(
        b,
        ids[i],
        h,
    ) == records(a, ids[i], h) by {
        assert(agrees(a, b, ids[i], h));
        lemma_free_kept(a, b, ids[i], h);
    }
    assert forall|i: int, p: u64| 0 <= i < ids.len() implies #[trigger] free_owns(b, ids[i], h, p)
        == free_owns(a, ids[i], h, p) by {
        assert(free_node(a, ids[i], h));
        assert(agrees(a, b, ids[i], h));
        lemma_free_kept(a, b, ids[i], h);
    }
    if ids.len() > 0 {
        let rest = ids.drop_last();
        assert forall|i: int| 0 <= i < rest.len() implies free_node(a, #[trigger] rest[i], h)
            && records(a, rest[i], h).len() > 0 by {
            assert(rest[i] == ids[i]);
        }
        assert forall|i: int| 0 <= i < rest.len() implies agrees(a, b, #[trigger] rest[i], h) by {
            assert(rest[i] == ids[i]);
        }
        assert forall|i: int, j: int, p: u64| 0 <= i < j < rest.len() implies !(
        #[trigger] free_owns(a, rest[i], h, p) && #[trigger] free_owns(a, rest[j], h, p)) by {
            assert(rest[i] == ids[i] && rest[j] == ids[j]);
        }
        lemma_run_kept(a, b, rest, h);
        assert(ids.last() == ids[ids.len() - 1]);
    }
}

/// A free tree stays a free tree of the snapshot where its pages are the same and the
/// snapshot has not shrunk.
pub proof fn lemma_free_carried(a: Pages, b: Pages, count: u64, larger: u64, root: u64, h: nat)
    requires
        free_tree(a, count, root, h),
        agrees(a, b, root, h),
        count <= larger,
    ensures
        free_tree(b, larger, root, h),
        records(b, root, h) == records(a, root, h),
        forall|p: u64| #[trigger] free_owns(b, root, h, p) == free_owns(a, root, h, p),
{
    lemma_free_kept(a, b, root, h);
    assert forall|p: u64| #[trigger] free_owns(b, root, h, p) implies in_snapshot(p, larger) by {
        assert(free_owns(a, root, h, p));
    }
    assert forall|i: int| 0 <= i < records(b, root, h).len() implies in_snapshot(
        (#[trigger] records(b, root, h)[i]).0,
        larger,
    ) by {
        assert(in_snapshot(records(a, root, h)[i].0, count));
    }
}

/// Trees in a run whose records ascend are chained.
proof fn lemma_run_chained(pages: Pages, ids: Seq<u64>, h: nat)
    requires
        free_run(pages, ids, h),
        ascending(run_records(pages, ids, h)),
    ensures
        chained(pages, ids, h),
{
    let all = run_records(pages, ids, h);
    assert forall|i: int, j: int| 0 <= i && j == i + 1 && j < ids.len() implies records(
        pages,
        #[trigger] ids[i],
        h,
    ).last().0 < records(pages, #[trigger] ids[j], h)[0].0 by {
        lemma_run_split(pages, ids, i, h);
        lemma_run_split(pages, ids, j, h);
        let left = run_records(pages, ids.take(i), h);
        let own = records(pages, ids[i], h);
        let next = records(pages, ids[j], h);
        assert(free_node(pages, ids[i], h) && free_node(pages, ids[j], h));
        assert(ids.take(i + 1) == ids.take(j));
        assert(all[left.len() + own.len() - 1] == own.last());
        assert(all[left.len() + own.len() as int] == next[0]);
    }
}

/// The pages of nodes that carry their smallest free pages.
spec fn ids_of(nodes: Seq<(u64, u64)>) -> Seq<u64> {
    nodes.map_values(|node: (u64, u64)| node.1)
}

/// Whether the nodes head free trees of height `h` that hold the records among them, lie
/// in the map and carry their smallest free pages.
#[verifier::opaque]
spec fn row(map: Pages, nodes: Seq<(u64, u64)>, h: nat, all: Seq<Record>) -> bool {
    &&& free_run(map, ids_of(nodes), h)
    &&& run_records(map, ids_of(nodes), h) == all
    &&& forall|i: int|
        0 <= i < nodes.len() ==> (#[trigger] nodes[i]).0 == records(map, nodes[i].1, h)[0].0
    &&& forall|i: int, p: u64|
        0 <= i < nodes.len() && #[trigger] free_owns(map, nodes[i].1, h, p)
            ==> map.contains_key(p)
}

/// Whether a page belongs to one of the nodes from `start` on.
spec fn row_owns(map: Pages, nodes: Seq<(u64, u64)>, h: nat, start: int, p: u64) -> bool {
    exists|i: int| start <= i < nodes.len() && free_owns(map, (#[trigger] nodes[i]).1, h, p)
}

/// No node is no row.
proof fn lemma_row_empty(map: Pages, h: nat)
    ensures
        row(map, Seq::empty(), h, Seq::empty()),
{
    reveal(row);
    let none = ids_of(Seq::empty());
    assert(none =~= Seq::<u64>::empty());
    assert(run_records(map, none, h) =~= Seq::<Record>::empty());
}

/// A row stays a row when pages are added.
proof fn lemma_row_kept(a: Pages, b: Pages, nodes: Seq<(u64, u64)>, h: nat, all: Seq<Record>)
    requires
        row(a, nodes, h, all),
        extends(a, b),
    ensures
        row(b, nodes, h, all),
        forall|start: int, p: u64|
            0 <= start ==> #[trigger] row_owns(b, nodes, h, start, p) == row_owns(
                a,
                nodes,
                h,
                start,
                p,
            ),
{
    reveal(row);
    let ids = ids_of(nodes);
    assert forall|i: int| 0 <= i < ids.len() implies agrees(a, b, #[trigger] ids[i], h) by {}
    lemma_run_kept(a, b, ids, h);
    assert forall|i: int| 0 <= i < nodes.len() implies (#[trigger] nodes[i]).0 == records(
        b,
        nodes[i].1,
        h,
    )[0].0 by {
        assert(ids[i] == nodes[i].1);
    }
    assert forall|i: int, p: u64| 0 <= i < nodes.len() && #[trigger] free_owns(
        b,
        nodes[i].1,
        h,
        p,
    ) implies b.contains_key(p) by {
        assert(ids[i] == nodes[i].1);
        assert(free_owns(a, nodes[i].1, h, p));
        assert(a.contains_key(p));
    }
    assert forall|start: int, p: u64| 0 <= start implies #[trigger] row_owns(b, nodes, h, start, p)
        == row_owns(a, nodes, h, start, p) by {
        if row_owns(a, nodes, h, start, p) {
            let i = choose|i: int|
                start <= i < nodes.len() && free_owns(a, (#[trigger] nodes[i]).1, h, p);
            assert(free_owns(b, ids[i], h, p));
        }
        if row_owns(b, nodes, h, start, p) {
            let i = choose|i: int|
                start <= i < nodes.len() && free_owns(b, (#[trigger] nodes[i]).1, h, p);
            assert(free_owns(b, ids[i], h, p) == free_owns(a, ids[i], h, p));
        }
    }
}

/// A row with one more node apart from it.
proof fn lemma_row_push(
    map: Pages,
    nodes: Seq<(u64, u64)>,
    h: nat,
    all: Seq<Record>,
    key: u64,
    id: u64,
)
    requires
        row(map, nodes, h, all),
        free_node(map, id, h),
        records(map, id, h).len() > 0,
        key == records(map, id, h)[0].0,
        forall|p: u64| #[trigger]
            free_owns(map, id, h, p) ==> map.contains_key(p) && !row_owns(map, nodes, h, 0, p),
    ensures
        row(map, nodes.push((key, id)), h, all + records(map, id, h)),
        forall|p: u64| #[trigger]
            row_owns(map, nodes.push((key, id)), h, 0, p) == (row_owns(map, nodes, h, 0, p)
                || free_owns(map, id, h, p)),
{
    reveal(row);
    let more = nodes.push((key, id));
    let ids = ids_of(nodes);
    let after = ids_of(more);
    assert(after =~= ids.push(id));
    assert(after.drop_last() =~= ids);
    assert forall|i: int| 0 <= i < after.len() implies free_node(map, #[trigger] after[i], h)
        && records(map, after[i], h).len() > 0 by {
        if i < ids.len() {
            assert(after[i] == ids[i]);
        }
    }
    assert forall|i: int, j: int, p: u64| 0 <= i < j < after.len() implies !(#[trigger] free_owns(
        map,
        after[i],
        h,
        p,
    ) && #[trigger] free_owns(map, after[j], h, p)) by {
        assert(after[i] == ids[i]);
        if j < ids.len() {
            assert(after[j] == ids[j]);
        } else if free_owns(map, ids[i], h, p) {
            assert(free_owns(map, nodes[i].1, h, p));
            assert(row_owns(map, nodes, h, 0, p));
        }
    }
    assert forall|i: int| 0 <= i < more.len() implies (#[trigger] more[i]).0 == records(
        map,
        more[i].1,
        h,
    )[0].0 by {
        if i < nodes.len() {
            assert(more[i] == nodes[i]);
        }
    }
    assert forall|i: int, p: u64| 0 <= i < more.len() && #[trigger] free_owns(
        map,
        more[i].1,
        h,
        p,
    ) implies map.contains_key(p) by {
        if i < nodes.len() {
            assert(free_owns(map, nodes[i].1, h, p));
        }
    }
    assert forall|p: u64| #[trigger]
        row_owns(map, more, h, 0, p) == (row_owns(map, nodes, h, 0, p) || free_owns(
            map,
            id,
            h,
            p,
        )) by {
        if row_owns(map, more, h, 0, p) {
            let i = choose|i: int|
                0 <= i < more.len() && free_owns(map, (#[trigger] more[i]).1, h, p);
            if i < nodes.len() {
                assert(free_owns(map, nodes[i].1, h, p));
            }
        }
        if row_owns(map, nodes, h, 0, p) {
            let i = choose|i: int|
                0 <= i < nodes.len() && free_owns(map, (#[trigger] nodes[i]).1, h, p);
            assert(free_owns(map, more[i].1, h, p));
        }
        if free_owns(map, id, h, p) {
            assert(free_owns(map, more[nodes.len() as int].1, h, p));
        }
    }
}

/// A page over consecutive nodes of a row heads a free tree.
#[verifier::rlimit(40)]
#[verifier::spinoff_prover]
proof fn lemma_parent_node(
    map: Pages,
    nodes: Seq<(u64, u64)>,
    h: nat,
    all: Seq<Record>,
    start: int,
    end: int,
    id: u64,
)
    requires
        row(map, nodes, h, all),
        ascending(all),
        0 <= start,
        start + 2 <= end <= nodes.len(),
        map.contains_key(id),
        map[id].len() == PAGE_SIZE,
        page_ok(map[id]),
        map[id][0] == FREE_INTERNAL,
        free_header(map[id], FREE_INTERNAL),
        count_of(map[id]) == end - start - 1,
        free_children(map[id]) == ids_of(nodes.subrange(start, end)),
        forall|i: int|
            0 <= i < end - start - 1 ==> #[trigger] free_key(map[id], i) == nodes[start + i + 1].0,
        !row_owns(map, nodes, h, 0, id),
    ensures
        free_node(map, id, h + 1),
        records(map, id, h + 1).len() > 0,
        records(map, id, h + 1)[0].0 == nodes[start].0,
        run_records(map, ids_of(nodes).take(end), h) == run_records(
            map,
            ids_of(nodes).take(start),
            h,
        ) + records(map, id, h + 1),
        forall|p: u64| #[trigger]
            free_owns(map, id, h + 1, p) ==> p == id || exists|k: int|
                start <= k < end && free_owns(map, (#[trigger] nodes[k]).1, h, p),
        forall|k: int, p: u64|
            start <= k < end && #[trigger] free_owns(map, nodes[k].1, h, p) ==> free_owns(
                map,
                id,
                h + 1,
                p,
            ),
{
    reveal(row);
    let page = map[id];
    let ids = ids_of(nodes);
    let children = free_children(page);
    assert(children =~= ids.subrange(start, end));
    assert forall|i: int| 0 <= i < children.len() implies free_node(map, #[trigger] children[i], h)
        && records(map, children[i], h).len() > 0 by {
        assert(children[i] == ids[start + i]);
    }
    assert forall|i: int, j: int, p: u64| 0 <= i < j < children.len() implies !(
    #[trigger] free_owns(map, children[i], h, p) && #[trigger] free_owns(map, children[j], h, p)) by {
        assert(children[i] == ids[start + i] && children[j] == ids[start + j]);
    }
    lemma_run_chained(map, ids, h);
    assert forall|i: int| 0 <= i < count_of(page) implies {
        &&& #[trigger] free_key(page, i) == records(map, children[i + 1], h)[0].0
        &&& records(map, children[i], h).last().0 < free_key(page, i)
    } by {
        assert(children[i] == ids[start + i]);
        assert(children[i + 1] == ids[start + i + 1]);
        assert(nodes[start + i + 1].0 == records(map, nodes[start + i + 1].1, h)[0].0);
    }
    assert(separated(map, page, h));
    assert forall|i: int| 0 <= i < children.len() implies !free_owns(
        map,
        #[trigger] children[i],
        h,
        id,
    ) by {
        if free_owns(map, children[i], h, id) {
            assert(free_owns(map, nodes[start + i].1, h, id));
        }
    }
    assert(free_run(map, children, h));
    assert(free_node(map, id, h + 1));
    assert(chained(map, children, h)) by {
        assert forall|i: int, j: int| 0 <= i && j == i + 1 && j < children.len() implies records(
            map,
            #[trigger] children[i],
            h,
        ).last().0 < records(map, #[trigger] children[j], h)[0].0 by {
            assert(children[i] == ids[start + i] && children[j] == ids[start + j]);
        }
    }
    lemma_run_ascending(map, children, h);
    assert(children[0] == nodes[start].1);
    assert(ids.take(end) =~= ids.take(start) + children);
    lemma_run_add(map, ids.take(start), children, h);
    assert forall|p: u64| #[trigger] free_owns(map, id, h + 1, p) implies p == id || exists|k: int|
        start <= k < end && free_owns(map, (#[trigger] nodes[k]).1, h, p) by {
        if p != id {
            let i = choose|i: int|
                0 <= i < children.len() && free_owns(map, #[trigger] children[i], h, p);
            assert(free_owns(map, nodes[start + i].1, h, p));
        }
    }
    assert forall|k: int, p: u64| start <= k < end && #[trigger] free_owns(
        map,
        nodes[k].1,
        h,
        p,
    ) implies free_owns(map, id, h + 1, p) by {
        assert(children[k - start] == nodes[k].1);
        assert(free_owns(map, children[k - start], h, p));
    }
}

/// Whether the records list a map in increasing order of the free pages.
pub open spec fn lists(all: Seq<Record>, entries: Map<u64, u64>) -> bool {
    ascending(all) && record_map(all) == entries
}

/// Lists a map in increasing order of the free pages.
pub(crate) fn list_records(entries: &BTreeMap<u64, u64>) -> (all: Vec<Record>)
    ensures
        lists(all@, entries@),
{
    broadcast use vstd::std_specs::btree::group_btree_axioms;
    broadcast use vstd::laws_cmp::group_laws_cmp;

    let ghost items = entries.iter().remaining();
    let ghost keys = items.map_values(|kv: (&u64, &u64)| *kv.0);
    let mut all: Vec<Record> = Vec::new();
    for pair in iter: entries.iter()
        invariant
            iter.seq() == items,
            all@.len() == iter.index(),
            forall|i: int| 0 <= i < all@.len() ==> (#[trigger] all@[i]) == (*items[i].0, *items[i].1),
    {
        all.push((*pair.0, *pair.1));
    }
    proof {
        assert forall|i: int, j: int| 0 <= i < j < all@.len() implies (#[trigger] all@[i]).0 < (
        #[trigger] all@[j]).0 by {
            assert(keys[i] == all@[i].0 && keys[j] == all@[j].0);
            assert(vstd::std_specs::btree::increasing_seq(keys));
            assert(vstd::std_specs::cmp::OrdSpec::cmp_spec(&keys[i], &keys[j]) is Less);
        }
        lemma_record_map(all@);
        assert forall|k: u64| entries@.contains_key(k) implies #[trigger] record_map(all@).contains_key(
            k,
        ) && record_map(all@)[k] == entries@[k] by {
            assert(items.contains((&k, &entries@[k])));
            let i = choose|i: int| 0 <= i < items.len() && items[i] == (&k, &entries@[k]);
            assert(all@[i] == (k, entries@[k]));
        }
        assert forall|k: u64| record_map(all@).contains_key(k) implies #[trigger] entries@.contains_key(
            k,
        ) by {
            let i = choose|i: int| 0 <= i < all@.len() && (#[trigger] all@[i]).0 == k;
            assert(entries@.contains_key(*items[i].0));
        }
        assert(record_map(all@) =~= entries@);
    }
    all
}

/// An even share of what remains leaves enough, and not too much, for the others.
proof fn lemma_share(left: int, parts: int, least: int, most: int)
    requires
        parts > 0,
        left >= 0,
        0 <= least,
        0 < most,
    ensures
        left >= least * parts ==> ceil(left, parts) >= least && left - ceil(left, parts) >= least
            * (parts - 1),
        left <= most * parts ==> ceil(left, parts) <= most && left - ceil(left, parts) <= most * (
        parts - 1),
        left > most * parts ==> ceil(left, parts) > most,
        0 <= ceil(left, parts) <= left,
{
    let q = left / parts;
    let r = left % parts;
    vstd::arithmetic::div_mod::lemma_fundamental_div_mod(left, parts);
    assert(0 <= r < parts && q >= 0) by (nonlinear_arith)
        requires
            parts > 0,
            left >= 0,
            r == left % parts,
            q == left / parts,
    ;
    let t = if r == 0 {
        q
    } else {
        q + 1
    };
    assert(parts * q == q * parts) by (nonlinear_arith);
    assert((q + 1) * parts == parts * q + parts) by (nonlinear_arith);
    if r == 0 {
        vstd::arithmetic::div_mod::lemma_fundamental_div_mod_converse(
            left + parts - 1,
            parts,
            q,
            parts - 1,
        );
    } else {
        vstd::arithmetic::div_mod::lemma_fundamental_div_mod_converse(
            left + parts - 1,
            parts,
            q + 1,
            r - 1,
        );
    }
    assert(ceil(left, parts) == t);
    assert(t <= left) by (nonlinear_arith)
        requires
            left == parts * q + r,
            parts > 0,
            q >= 0,
            r >= 0,
            t == if r == 0 {
                q
            } else {
                q + 1
            },
    ;
    if left >= least * parts {
        assert(q >= least) by (nonlinear_arith)
            requires
                left == parts * q + r,
                left >= least * parts,
                0 <= r < parts,
        ;
        assert(left - t >= least * (parts - 1)) by (nonlinear_arith)
            requires
                left == parts * q + r,
                q >= least,
                parts > 0,
                r >= 0,
                t <= q + r,
                t <= q + 1,
        ;
    }
    if left <= most * parts {
        assert(t <= most) by (nonlinear_arith)
            requires
                left == parts * q + r,
                left <= most * parts,
                0 <= r < parts,
                t == if r == 0 {
                    q
                } else {
                    q + 1
                },
        ;
        assert(left - t <= most * (parts - 1)) by (nonlinear_arith)
            requires
                left == parts * q + r,
                t <= most,
                0 <= r < parts,
                t == if r == 0 {
                    q
                } else {
                    q + 1
                },
        ;
    } else {
        assert(t > most) by (nonlinear_arith)
            requires
                left == parts * q + r,
                left > most * parts,
                0 <= r < parts,
                t == if r == 0 {
                    q
                } else {
                    q + 1
                },
        ;
    }
}

/// Whether a list of pages stands for a map of exactly the first `len` of the identifiers.
spec fn placed(
    pages: Seq<(u64, [u8; PAGE_SIZE])>,
    page_ids: Seq<u64>,
    len: int,
    map: Pages,
) -> bool {
    &&& listed(page_list(pages), map)
    &&& forall|p: u64| #[trigger] map.contains_key(p) == page_ids.take(len).contains(p)
}

/// Whether the pages are free-tree pages that are whole, numbered in the order of the
/// identifiers.
pub open spec fn numbered(pages: Seq<(u64, [u8; PAGE_SIZE])>, page_ids: Seq<u64>) -> bool {
    &&& pages.len() <= page_ids.len()
    &&& forall|i: int|
        0 <= i < pages.len() ==> (#[trigger] pages[i]).0 == page_ids[i] && page_ok(pages[i].1@) && (
        free_header(pages[i].1@, FREE_LEAF) || free_header(pages[i].1@, FREE_INTERNAL))
}

/// One more page in the list.
proof fn lemma_placed_push(
    pages: Seq<(u64, [u8; PAGE_SIZE])>,
    page_ids: Seq<u64>,
    len: int,
    map: Pages,
    page: [u8; PAGE_SIZE],
)
    requires
        placed(pages, page_ids, len, map),
        0 <= len < page_ids.len(),
        page_ids.no_duplicates(),
    ensures
        !map.contains_key(page_ids[len]),
        placed(
            pages.push((page_ids[len], page)),
            page_ids,
            len + 1,
            map.insert(page_ids[len], page@),
        ),
        extends(map, map.insert(page_ids[len], page@)),
{
    let id = page_ids[len];
    if map.contains_key(id) {
        assert(page_ids.take(len).contains(id));
        let j = choose|j: int| 0 <= j < len && page_ids.take(len)[j] == id;
        assert(page_ids[j] == page_ids[len]);
    }
    lemma_listed_push(page_list(pages), map, id, page@);
    assert(page_list(pages.push((id, page))) =~= page_list(pages).push((id, page@)));
    let after = map.insert(id, page@);
    assert forall|p: u64| #[trigger] after.contains_key(p) == page_ids.take(len + 1).contains(p) by {
        let longer = page_ids.take(len + 1);
        if longer.contains(p) {
            let j = choose|j: int| 0 <= j < longer.len() && longer[j] == p;
            if j < len {
                assert(page_ids.take(len)[j] == p);
            }
        }
        if page_ids.take(len).contains(p) {
            let j = choose|j: int| 0 <= j < len && page_ids.take(len)[j] == p;
            assert(longer[j] == p);
        }
        if p == id {
            assert(longer[len] == p);
        }
    }
}

/// One more leaf in a row of leaves.
proof fn lemma_leaf_placed(
    before: Pages,
    id: u64,
    page: Seq<u8>,
    nodes: Seq<(u64, u64)>,
    done: Seq<Record>,
    share: Seq<Record>,
)
    requires
        row(before, nodes, 0, done),
        forall|p: u64| before.contains_key(p) ==> #[trigger] row_owns(before, nodes, 0, 0, p),
        !before.contains_key(id),
        free_node(before.insert(id, page), id, 0),
        leaf_records(page) == share,
        share.len() > 0,
    ensures
        row(before.insert(id, page), nodes.push((share[0].0, id)), 0, done + share),
        forall|p: u64|
            before.insert(id, page).contains_key(p) ==> #[trigger] row_owns(
                before.insert(id, page),
                nodes.push((share[0].0, id)),
                0,
                0,
                p,
            ),
{
    let map = before.insert(id, page);
    let more = nodes.push((share[0].0, id));
    lemma_row_kept(before, map, nodes, 0, done);
    assert forall|p: u64| #[trigger] free_owns(map, id, 0, p) implies map.contains_key(p)
        && !row_owns(map, nodes, 0, 0, p) by {
        assert(p == id);
        if row_owns(before, nodes, 0, 0, p) {
            reveal(row);
            let i = choose|i: int|
                0 <= i < nodes.len() && free_owns(before, (#[trigger] nodes[i]).1, 0, p);
            assert(before.contains_key(p));
        }
    }
    lemma_row_push(map, nodes, 0, done, share[0].0, id);
    assert forall|p: u64| map.contains_key(p) implies #[trigger] row_owns(map, more, 0, 0, p) by {
        if p != id {
            assert(before.contains_key(p));
            assert(row_owns(before, nodes, 0, 0, p));
        } else {
            assert(free_owns(map, id, 0, p));
        }
    }
}

/// Encodes the leaves: the records in even shares, as many as fit.
fn place_leaves(
    all: &Vec<Record>,
    leaf_count: usize,
    page_ids: &Vec<u64>,
    pages: &mut Vec<(u64, [u8; PAGE_SIZE])>,
) -> (result: Result<(Vec<(u64, u64)>, Ghost<Pages>)>)
    requires
        0 < leaf_count <= page_ids@.len(),
        leaf_count <= usize::MAX / 253 + 1,
        leaf_count == 1 || all@.len() >= leaf_count,
        ascending(all@),
        old(pages)@.len() == 0,
    ensures
        result matches Ok((nodes, grown)) && {
            let map = grown@;
            let fit = if all@.len() <= LEAF_CAPACITY * leaf_count {
                all@.len() as int
            } else {
                LEAF_CAPACITY * leaf_count
            };
            &&& nodes@.len() == leaf_count
            &&& nodes@.last().1 == page_ids@[leaf_count - 1]
            &&& final(pages)@.len() == leaf_count
            &&& numbered(final(pages)@, page_ids@)
            &&& page_ids@.no_duplicates() ==> {
                &&& placed(final(pages)@, page_ids@, leaf_count as int, map)
                &&& all@.len() > 0 ==> row(map, nodes@, 0, all@.take(fit)) && forall|p: u64|
                    map.contains_key(p) ==> #[trigger] row_owns(map, nodes@, 0, 0, p)
                &&& all@.len() == 0 ==> free_node(map, nodes@[0].1, 0) && records(
                    map,
                    nodes@[0].1,
                    0,
                ) == Seq::<Record>::empty() && nodes@[0].1 == page_ids@[0]
            }
        },
{
    assert(all@.len() == all.len());
    let mut nodes: Vec<(u64, u64)> = Vec::new();
    let ghost mut map: Pages = Map::empty();
    let mut taken: usize = 0;
    let mut leaf_index: usize = 0;
    let ghost cap = LEAF_CAPACITY as int;
    let ghost unique = page_ids@.no_duplicates();
    proof {
        assert(page_list(pages@) =~= Seq::<(u64, Seq<u8>)>::empty());
        assert(page_ids@.take(0) =~= Seq::<u64>::empty());
        lemma_row_empty(map, 0);
        assert(all@.take(0) =~= Seq::<Record>::empty());
    }
    while leaf_index < leaf_count
        invariant
            leaf_index <= leaf_count <= page_ids@.len(),
            all@.len() == all.len(),
            taken <= all@.len(),
            ascending(all@),
            cap == LEAF_CAPACITY,
            leaf_count == 1 || all@.len() >= leaf_count,
            leaf_count == 1 || all@.len() - taken >= leaf_count - leaf_index,
            all@.len() <= cap * leaf_count ==> all@.len() - taken <= cap * (leaf_count
                - leaf_index),
            all@.len() > cap * leaf_count ==> taken == cap * leaf_index,
            nodes@.len() == leaf_index,
            leaf_index > 0 ==> nodes@.last().1 == page_ids@[leaf_index - 1],
            pages@.len() == leaf_index,
            numbered(pages@, page_ids@),
            unique == page_ids@.no_duplicates(),
            unique ==> placed(pages@, page_ids@, leaf_index as int, map),
            unique && all@.len() > 0 ==> row(map, nodes@, 0, all@.take(taken as int)) && (forall|
                p: u64,
            |
                map.contains_key(p) ==> #[trigger] row_owns(map, nodes@, 0, 0, p)),
            leaf_index == 0 ==> taken == 0,
            unique && all@.len() == 0 && leaf_index > 0 ==> free_node(map, nodes@[0].1, 0)
                && records(map, nodes@[0].1, 0) == Seq::<Record>::empty() && nodes@[0].1
                == page_ids@[0],
        decreases leaf_count - leaf_index,
    {
        let remaining_leaves = leaf_count - leaf_index;
        let remaining = all.len() - taken;
        let mut take = div_ceil(remaining, remaining_leaves);
        proof {
            lemma_share(remaining as int, remaining_leaves as int, 1, cap);
        }
        if take > LEAF_CAPACITY {
            take = LEAF_CAPACITY;
        }
        let page_id = page_ids[leaf_index];
        assert(all@.len() > 0 ==> 1 <= take) by {
            if all@.len() > 0 && leaf_count == 1 {
                assert(remaining == all@.len());
            }
        }
        let share = vstd::slice::slice_subrange(all.as_slice(), taken, taken + take);
        let first_key = if take > 0 {
            share[0].0
        } else {
            0
        };
        let page = encode_leaf(share)?;
        let ghost before = map;
        let ghost so_far = pages@;
        pages.push((page_id, page));
        let ghost before_nodes = nodes@;
        nodes.push((first_key, page_id));
        proof {
            if unique {
                lemma_placed_push(so_far, page_ids@, leaf_index as int, map, page);
                map = before.insert(page_id, page@);
                assert(map[page_id] == page@);
                assert(ascending(share@)) by {
                    assert forall|i: int, j: int| 0 <= i < j < share@.len() implies (
                    #[trigger] share@[i]).0 < (#[trigger] share@[j]).0 by {
                        assert(share@[i] == all@[taken + i] && share@[j] == all@[taken + j]);
                    }
                }
                assert(free_node(map, page_id, 0));
                assert(records(map, page_id, 0) == share@);
                if all@.len() > 0 {
                    lemma_leaf_placed(
                        before,
                        page_id,
                        page@,
                        before_nodes,
                        all@.take(taken as int),
                        share@,
                    );
                    assert(all@.take(taken as int) + share@ =~= all@.take(taken + take));
                } else {
                    assert(share@ =~= Seq::<Record>::empty());
                }
            }
        }
        taken = taken + take;
        leaf_index = leaf_index + 1;
    }
    Ok((nodes, Ghost(map)))
}

/// Whether the parents built so far stand for the nodes before `start`: together with the
/// nodes from there on they take up every page of the map, each page once.
#[verifier::opaque]
spec fn raised(
    map: Pages,
    nodes: Seq<(u64, u64)>,
    next: Seq<(u64, u64)>,
    h: nat,
    start: int,
    all: Seq<Record>,
) -> bool {
    &&& row(map, nodes, h, all)
    &&& row(map, next, h + 1, run_records(map, ids_of(nodes).take(start), h))
    &&& forall|p: u64| #[trigger]
        map.contains_key(p) ==> row_owns(map, next, h + 1, 0, p) || row_owns(
            map,
            nodes,
            h,
            start,
            p,
        )
    &&& forall|p: u64|
        !(#[trigger] row_owns(map, next, h + 1, 0, p) && row_owns(map, nodes, h, start, p))
}

/// No parent stands for no node.
proof fn lemma_raised_none(map: Pages, nodes: Seq<(u64, u64)>, h: nat, all: Seq<Record>)
    requires
        row(map, nodes, h, all),
        forall|p: u64| map.contains_key(p) ==> #[trigger] row_owns(map, nodes, h, 0, p),
    ensures
        raised(map, nodes, Seq::empty(), h, 0, all),
{
    reveal(raised);
    lemma_row_empty(map, h + 1);
    assert(ids_of(nodes).take(0) =~= Seq::<u64>::empty());
    assert(run_records(map, ids_of(nodes).take(0), h) =~= Seq::<Record>::empty());
}

/// One more parent over the nodes in `start..end`.
#[verifier::rlimit(40)]
#[verifier::spinoff_prover]
proof fn lemma_raised_push(
    map: Pages,
    nodes: Seq<(u64, u64)>,
    next: Seq<(u64, u64)>,
    h: nat,
    start: int,
    end: int,
    all: Seq<Record>,
    id: u64,
    page: Seq<u8>,
)
    requires
        raised(map, nodes, next, h, start, all),
        ascending(all),
        0 <= start,
        start + 2 <= end <= nodes.len(),
        !map.contains_key(id),
        page.len() == PAGE_SIZE,
        page_ok(page),
        page[0] == FREE_INTERNAL,
        free_header(page, FREE_INTERNAL),
        count_of(page) == end - start - 1,
        free_children(page) == ids_of(nodes.subrange(start, end)),
        forall|i: int|
            0 <= i < end - start - 1 ==> #[trigger] free_key(page, i) == nodes[start + i + 1].0,
    ensures
        raised(map.insert(id, page), nodes, next.push((nodes[start].0, id)), h, end, all),
{
    reveal(raised);
    let after = map.insert(id, page);
    assert(extends(map, after));
    let before_run = run_records(map, ids_of(nodes).take(start), h);
    lemma_row_kept(map, after, nodes, h, all);
    lemma_row_kept(map, after, next, h + 1, before_run);
    assert(run_records(after, ids_of(nodes).take(start), h) == before_run) by {
        reveal(row);
        let ids = ids_of(nodes).take(start);
        assert(free_run(map, ids, h)) by {
            let whole = ids_of(nodes);
            assert forall|i: int| 0 <= i < ids.len() implies free_node(map, #[trigger] ids[i], h)
                && records(map, ids[i], h).len() > 0 by {
                assert(ids[i] == whole[i]);
            }
            assert forall|i: int, j: int, p: u64| 0 <= i < j < ids.len() implies !(
            #[trigger] free_owns(map, ids[i], h, p) && #[trigger] free_owns(map, ids[j], h, p)) by {
                assert(ids[i] == whole[i] && ids[j] == whole[j]);
            }
        }
        assert forall|i: int| 0 <= i < ids.len() implies agrees(map, after, #[trigger] ids[i], h) by {}
        lemma_run_kept(map, after, ids, h);
    }
    assert forall|s: int, p: u64| 0 <= s && #[trigger] row_owns(
        map,
        nodes,
        h,
        s,
        p,
    ) implies map.contains_key(p) by {
        reveal(row);
        let i = choose|i: int|
            s <= i < nodes.len() && free_owns(map, (#[trigger] nodes[i]).1, h, p);
        assert(free_owns(map, nodes[i].1, h, p));
    }
    assert forall|p: u64| #[trigger] row_owns(
        map,
        next,
        h + 1,
        0,
        p,
    ) implies map.contains_key(p) by {
        reveal(row);
        let i = choose|i: int|
            0 <= i < next.len() && free_owns(map, (#[trigger] next[i]).1, h + 1, p);
        assert(free_owns(map, next[i].1, h + 1, p));
    }
    assert(!row_owns(after, nodes, h, 0, id)) by {
        if row_owns(after, nodes, h, 0, id) {
            assert(row_owns(map, nodes, h, 0, id));
        }
    }
    lemma_parent_node(after, nodes, h, all, start, end, id);
    assert forall|p: u64| #[trigger] free_owns(after, id, h + 1, p) implies after.contains_key(p)
        && !row_owns(after, next, h + 1, 0, p) by {
        if p == id {
            if row_owns(after, next, h + 1, 0, p) {
                assert(row_owns(map, next, h + 1, 0, p));
            }
        } else {
            let k = choose|k: int|
                start <= k < end && free_owns(after, (#[trigger] nodes[k]).1, h, p);
            assert(row_owns(after, nodes, h, start, p));
            assert(row_owns(map, nodes, h, start, p));
            assert(row_owns(after, next, h + 1, 0, p) == row_owns(map, next, h + 1, 0, p));
        }
    }
    lemma_row_push(after, next, h + 1, before_run, nodes[start].0, id);
    let more = next.push((nodes[start].0, id));
    assert forall|p: u64| #[trigger] after.contains_key(p) implies row_owns(
        after,
        more,
        h + 1,
        0,
        p,
    ) || row_owns(after, nodes, h, end, p) by {
        if p == id {
            assert(free_owns(after, id, h + 1, p));
            assert(row_owns(after, more, h + 1, 0, p));
        } else {
            assert(map.contains_key(p));
            assert(row_owns(after, next, h + 1, 0, p) == row_owns(map, next, h + 1, 0, p));
            assert(row_owns(after, nodes, h, start, p) == row_owns(map, nodes, h, start, p));
            assert(row_owns(after, more, h + 1, 0, p) == (row_owns(after, next, h + 1, 0, p)
                || free_owns(after, id, h + 1, p)));
            if row_owns(after, nodes, h, start, p) {
                let k = choose|k: int|
                    start <= k < nodes.len() && free_owns(after, (#[trigger] nodes[k]).1, h, p);
                if k < end {
                    assert(free_owns(after, nodes[k].1, h, p));
                    assert(free_owns(after, id, h + 1, p));
                } else {
                    assert(row_owns(after, nodes, h, end, p));
                }
            }
        }
    }
    assert forall|p: u64|
        !(#[trigger] row_owns(after, more, h + 1, 0, p) && row_owns(after, nodes, h, end, p)) by {
        if row_owns(after, more, h + 1, 0, p) && row_owns(after, nodes, h, end, p) {
            let k = choose|k: int|
                end <= k < nodes.len() && free_owns(after, (#[trigger] nodes[k]).1, h, p);
            assert(row_owns(after, nodes, h, start, p));
            assert(row_owns(after, nodes, h, 0, p));
            assert(row_owns(map, nodes, h, start, p));
            if row_owns(after, next, h + 1, 0, p) {
                assert(row_owns(map, next, h + 1, 0, p));
            } else {
                assert(free_owns(after, id, h + 1, p));
                let j = choose|j: int|
                    start <= j < end && free_owns(after, (#[trigger] nodes[j]).1, h, p);
                reveal(row);
                let ids = ids_of(nodes);
                assert(ids[j] == nodes[j].1 && ids[k] == nodes[k].1);
                assert(!(free_owns(after, ids[j], h, p) && free_owns(after, ids[k], h, p)));
            }
        }
    }
}

/// Enough parents for some nodes get at least two of them each on average.
proof fn lemma_parents(nodes: int, count: int)
    requires
        nodes > 1,
        count == ceil(nodes, INTERNAL_FANOUT as int),
    ensures
        count > 0,
        2 * count <= nodes <= INTERNAL_FANOUT * count,
{
    let whole = nodes + 253;
    assert(count == whole / 254);
    assert(254 * (whole / 254) <= whole < 254 * (whole / 254) + 254);
}

/// Encodes one level of internal pages over the level below it, in even shares.
fn place_parents(
    nodes: &Vec<(u64, u64)>,
    node_count: usize,
    page_ids: &Vec<u64>,
    pages: &mut Vec<(u64, [u8; PAGE_SIZE])>,
    Ghost(before): Ghost<Pages>,
    Ghost(all): Ghost<Seq<Record>>,
    Ghost(h): Ghost<nat>,
) -> (result: Result<(Vec<(u64, u64)>, Ghost<Pages>)>)
    requires
        nodes@.len() > 1,
        node_count == ceil(nodes@.len() as int, INTERNAL_FANOUT as int),
        old(pages)@.len() + node_count <= page_ids@.len(),
        ascending(all),
        numbered(old(pages)@, page_ids@),
        page_ids@.no_duplicates() ==> {
            &&& placed(old(pages)@, page_ids@, old(pages)@.len() as int, before)
            &&& row(before, nodes@, h, all)
            &&& forall|p: u64|
                before.contains_key(p) ==> #[trigger] row_owns(before, nodes@, h, 0, p)
        },
    ensures
        result matches Ok((next, grown)) && {
            &&& next@.len() == node_count
            &&& final(pages)@.len() == old(pages)@.len() + node_count
            &&& numbered(final(pages)@, page_ids@)
            &&& next@.last().1 == page_ids@[final(pages)@.len() - 1]
            &&& page_ids@.no_duplicates() ==> {
                &&& placed(final(pages)@, page_ids@, final(pages)@.len() as int, grown@)
                &&& row(grown@, next@, h + 1, all)
                &&& forall|p: u64|
                    grown@.contains_key(p) ==> #[trigger] row_owns(grown@, next@, h + 1, 0, p)
            }
        },
{
    let mut next: Vec<(u64, u64)> = Vec::new();
    let ghost mut map = before;
    let ghost unique = page_ids@.no_duplicates();
    let ghost filed = pages@.len();
    let mut start: usize = 0;
    let mut parent_index: usize = 0;
    proof {
        lemma_parents(nodes@.len() as int, node_count as int);
        if unique {
            lemma_raised_none(map, nodes@, h, all);
        }
    }
    while parent_index < node_count
        invariant
            parent_index <= node_count,
            node_count > 0,
            start <= nodes@.len(),
            nodes@.len() - start >= 2 * (node_count - parent_index),
            nodes@.len() - start <= INTERNAL_FANOUT * (node_count - parent_index),
            next@.len() == parent_index,
            pages@.len() == filed + parent_index,
            numbered(pages@, page_ids@),
            parent_index > 0 ==> next@.last().1 == page_ids@[pages@.len() - 1],
            filed + node_count <= page_ids@.len(),
            ascending(all),
            unique == page_ids@.no_duplicates(),
            unique ==> placed(pages@, page_ids@, pages@.len() as int, map) && raised(
                map,
                nodes@,
                next@,
                h,
                start as int,
                all,
            ),
        decreases node_count - parent_index,
    {
        assert(nodes@.len() == nodes.len());
        assert(page_ids@.len() == page_ids.len());
        let remaining_nodes = nodes.len() - start;
        let remaining_parents = node_count - parent_index;
        let take = div_ceil(remaining_nodes, remaining_parents);
        proof {
            lemma_share(
                remaining_nodes as int,
                remaining_parents as int,
                2,
                INTERNAL_FANOUT as int,
            );
        }
        assert(pages@.len() == pages.len());
        let page_id = page_ids[pages.len()];
        let children = vstd::slice::slice_subrange(nodes.as_slice(), start, start + take);
        let page = encode_internal(children)?;
        let ghost so_far = pages@;
        let ghost before_next = next@;
        let first_key = children[0].0;
        pages.push((page_id, page));
        next.push((first_key, page_id));
        proof {
            assert(children@ == nodes@.subrange(start as int, start + take));
            if unique {
                lemma_placed_push(so_far, page_ids@, so_far.len() as int, map, page);
                lemma_raised_push(
                    map,
                    nodes@,
                    before_next,
                    h,
                    start as int,
                    start + take,
                    all,
                    page_id,
                    page@,
                );
                map = map.insert(page_id, page@);
            }
        }
        start = start + take;
        parent_index = parent_index + 1;
    }
    proof {
        if unique {
            reveal(raised);
            assert(ids_of(nodes@).take(start as int) =~= ids_of(nodes@));
            assert(run_records(map, ids_of(nodes@), h) == all) by {
                reveal(row);
            }
            assert forall|p: u64| map.contains_key(p) implies #[trigger] row_owns(
                map,
                next@,
                h + 1,
                0,
                p,
            ) by {
                assert(!row_owns(map, nodes@, h, start as int, p));
            }
        }
    }
    Ok((next, Ghost(map)))
}

/// A layout has fewer than three times as many pages as leaves.
pub proof fn lemma_layout_size(layout: Layout)
    requires
        layout.inv(),
    ensures
        level_sum(layout.levels()) <= 3 * layout.levels()[0] - 2,
{
    lemma_level_bound(layout, layout.levels().len() as int);
    assert(layout.levels().take(layout.levels().len() as int) =~= layout.levels());
}

/// The first levels have fewer than three times as many pages as leaves.
proof fn lemma_level_bound(layout: Layout, k: int)
    requires
        layout.inv(),
        0 < k <= layout.levels().len(),
    ensures
        level_sum(layout.levels().take(k)) + 2 * layout.levels()[k - 1] <= 3 * layout.levels()[0],
    decreases k,
{
    let levels = layout.levels();
    assert(levels.take(k).drop_last() =~= levels.take(k - 1));
    assert(levels.take(k).last() == levels[k - 1]);
    assert(level_sum(levels.take(k)) == level_sum(levels.take(k - 1)) + levels[k - 1]);
    if k > 1 {
        lemma_level_bound(layout, k - 1);
        assert(1 < levels[k - 2]);
        assert(levels[k - 1] == ceil(levels[k - 2] as int, INTERNAL_FANOUT as int));
    } else {
        assert(level_sum(levels.take(0)) == 0);
    }
}

/// A level is at least twice as large as the next.
proof fn lemma_levels_shrink(layout: Layout, k: int)
    requires
        layout.inv(),
        0 <= k < layout.levels().len(),
    ensures
        layout.levels()[0] >= vstd::arithmetic::power2::pow2(k as nat) * layout.levels()[k],
        layout.levels()[k] > 0,
    decreases k,
{
    let levels = layout.levels();
    if k == 0 {
        vstd::arithmetic::power2::lemma2_to64();
    } else {
        lemma_levels_shrink(layout, k - 1);
        vstd::arithmetic::power2::lemma_pow2_unfold(k as nat);
        let half = vstd::arithmetic::power2::pow2((k - 1) as nat) as int;
        let below = levels[k - 1] as int;
        let own = levels[k] as int;
        assert(1 < levels[k - 1]);
        assert(own == ceil(below, INTERNAL_FANOUT as int));
        assert(below >= 2 * own);
        assert(levels[0] >= (2 * half) * own) by (nonlinear_arith)
            requires
                levels[0] >= half * below,
                below >= 2 * own,
                half >= 0,
        ;
    }
}

/// A layout has few enough levels to be followed to its end.
pub proof fn lemma_layout_height(layout: Layout)
    requires
        layout.inv(),
    ensures
        layout.levels().len() <= MAX_DEPTH,
{
    if layout.levels().len() > MAX_DEPTH {
        lemma_levels_shrink(layout, 64);
        vstd::arithmetic::power2::lemma2_to64();
        let own = layout.levels()[64] as int;
        assert(0x1_0000_0000_0000_0000 * own >= 0x1_0000_0000_0000_0000) by (nonlinear_arith)
            requires
                own >= 1,
        ;
    }
}

/// Whether the records are those of the map in order, as many as the capacity allows.
pub open spec fn holds(records: Seq<Record>, entries: Map<u64, u64>, capacity: int) -> bool {
    exists|all: Seq<Record>| #[trigger]
        lists(all, entries) && records == all.take(
            if all.len() <= capacity {
                all.len() as int
            } else {
                capacity
            },
        )
}

/// A free tree as a list of pages, in increasing order of their identifiers.
pub struct BuiltFreeTree {
    pub root: u64,
    pub pages: Vec<(u64, [u8; PAGE_SIZE])>,
}

impl BuiltFreeTree {
    /// Whether the pages hold a free tree of height `h` with the given records that takes
    /// up exactly the given pages.
    pub open spec fn stands(
        &self,
        map: Pages,
        h: nat,
        entries: Map<u64, u64>,
        capacity: int,
        page_ids: Seq<u64>,
    ) -> bool {
        &&& listed(page_list(self.pages@), map)
        &&& free_node(map, self.root, h)
        &&& holds(records(map, self.root, h), entries, capacity)
        &&& forall|p: u64| #[trigger] free_owns(map, self.root, h, p) == page_ids.contains(p)
        &&& forall|p: u64| #[trigger] map.contains_key(p) == page_ids.contains(p)
    }
}

impl BuiltFreeTree {
    /// Whether the listed pages hold such a free tree.
    pub open spec fn stores(
        &self,
        h: nat,
        entries: Map<u64, u64>,
        capacity: int,
        page_ids: Seq<u64>,
    ) -> bool {
        exists|map: Pages| #[trigger] self.stands(map, h, entries, capacity, page_ids)
    }
}

/// Encodes a free tree that holds the entries, on the given pages.
///
/// It takes as many pages as the layout has, and every leaf but a single one must get a
/// record. A layout for fewer records than there are holds the first that fit.
pub fn build(entries: &BTreeMap<u64, u64>, layout: &Layout, page_ids: &Vec<u64>) -> (result:
    Result<BuiltFreeTree>)
    requires
        layout.inv(),
    ensures
        result is Ok <==> page_ids@.len() == level_sum(layout.levels()) && (layout.levels()[0] == 1
            || entries@.dom().len() >= layout.levels()[0]),
        result matches Err(error) ==> error is Corrupt,
        result matches Ok(built) ==> built.root == page_ids@.last() && built.pages@.len()
            == page_ids@.len(),
        result matches Ok(built) ==> exists|
            order: Seq<int>,
            listing: Seq<(u64, [u8; PAGE_SIZE])>,
        | #[trigger]
            rearranged(listing, built.pages@, order) && numbered(listing, page_ids@),
        result matches Ok(built) ==> forall|i: int, j: int|
            0 <= i < j < built.pages@.len() ==> (#[trigger] built.pages@[i]).0 <= (
            #[trigger] built.pages@[j]).0,
        result matches Ok(built) ==> page_ids@.no_duplicates() ==> built.stores(
            (layout.levels().len() - 1) as nat,
            entries@,
            LEAF_CAPACITY * layout.levels()[0],
            page_ids@,
        ),
{
    let pages_needed = layout.page_count();
    if page_ids.len() != pages_needed {
        return Err(corrupt("free-tree allocation count mismatch"));
    }
    let all = list_records(entries);
    proof {
        lemma_record_map(all@);
        assert(all@.len() == all.len());
        assert(page_ids@.len() == page_ids.len());
    }
    let leaf_count = layout.levels[0];
    if leaf_count > 1 && all.len() < leaf_count {
        return Err(corrupt("free-tree layout has empty non-root leaves"));
    }
    let ghost levels = layout.levels();
    let ghost unique = page_ids@.no_duplicates();
    let mut pages: Vec<(u64, [u8; PAGE_SIZE])> = Vec::new();
    proof {
        lemma_level_prefix(levels, 1);
    }
    let (mut nodes, first_map) = place_leaves(&all, leaf_count, page_ids, &mut pages)?;
    let ghost mut map: Pages = first_map@;
    let ghost fit = if all@.len() <= LEAF_CAPACITY * leaf_count {
        all@.len() as int
    } else {
        LEAF_CAPACITY * leaf_count
    };
    let ghost kept = all@.take(fit);
    proof {
        assert(ascending(kept)) by {
            assert forall|i: int, j: int| 0 <= i < j < kept.len() implies (#[trigger] kept[i]).0 < (
            #[trigger] kept[j]).0 by {
                assert(kept[i] == all@[i] && kept[j] == all@[j]);
            }
        }
        assert(levels.take(1) =~= seq![levels[0]]);
        assert(levels.take(1).drop_last() =~= Seq::<usize>::empty());
        assert(level_sum(levels.take(1).drop_last()) == 0);
    }
    let mut level: usize = 1;
    while level < layout.levels.len()
        invariant
            1 <= level <= levels.len(),
            layout.inv(),
            levels == layout.levels(),
            levels == layout.levels@,
            page_ids@.len() == level_sum(levels),
            nodes@.len() == levels[level - 1],
            pages@.len() == level_sum(levels.take(level as int)),
            pages@.len() > 0,
            numbered(pages@, page_ids@),
            nodes@.last().1 == page_ids@[pages@.len() - 1],
            unique == page_ids@.no_duplicates(),
            ascending(kept),
            levels.len() > 1 ==> all@.len() > 0,
            unique ==> placed(pages@, page_ids@, pages@.len() as int, map),
            unique && all@.len() > 0 ==> row(map, nodes@, (level - 1) as nat, kept) && (forall|
                p: u64,
            |
                map.contains_key(p) ==> #[trigger] row_owns(
                    map,
                    nodes@,
                    (level - 1) as nat,
                    0,
                    p,
                )),
            unique && all@.len() == 0 && level == 1 ==> free_node(map, nodes@[0].1, 0) && records(
                map,
                nodes@[0].1,
                0,
            ) == Seq::<Record>::empty() && nodes@[0].1 == page_ids@[0],
        decreases levels.len() - level,
    {
        proof {
            lemma_level_prefix(levels, level + 1);
            assert(levels.take(level + 1).drop_last() =~= levels.take(level as int));
            assert(1 < levels[level - 1]);
            assert(levels[level as int] == ceil(
                levels[level - 1] as int,
                INTERNAL_FANOUT as int,
            ));
        }
        let (next, grown) = place_parents(
            &nodes,
            layout.levels[level],
            page_ids,
            &mut pages,
            Ghost(map),
            Ghost(kept),
            Ghost((level - 1) as nat),
        )?;
        proof {
            map = grown@;
        }
        nodes = next;
        level = level + 1;
    }
    let root = nodes[0].1;
    let ghost unsorted = page_list(pages@);
    let ghost before = pages@;
    sort_by_first(&mut pages);
    let built = BuiltFreeTree { root, pages };
    proof {
        let h = (levels.len() - 1) as nat;
        assert(levels.take(level as int) =~= levels);
        let order = choose|order: Seq<int>| rearranged(before, pages@, order);
        assert(rearranged(unsorted, page_list(pages@), order));
        assert(rearranged(before, built.pages@, order) && numbered(before, page_ids@));
        assert(nodes@.len() == 1 && nodes@.last() == nodes@[0]);
        assert(built.root == page_ids@.last());
        if unique {
            lemma_listed_rearranged(unsorted, page_list(pages@), order, map);
            assert(page_ids@.take(page_ids@.len() as int) =~= page_ids@);
            assert(lists(all@, entries@));
            if all@.len() > 0 {
                lemma_row_root(map, nodes@, h, kept);
            } else {
                assert(kept =~= Seq::<Record>::empty());
                assert(page_ids@.len() == 1);
                assert forall|p: u64| #[trigger]
                    free_owns(map, root, h, p) == page_ids@.contains(p) by {
                    if page_ids@.contains(p) {
                        let i = choose|i: int| 0 <= i < page_ids@.len() && page_ids@[i] == p;
                        assert(i == 0);
                    }
                }
            }
            assert(built.stands(map, h, entries@, LEAF_CAPACITY * layout.levels()[0], page_ids@));
            assert(built.stores(h, entries@, LEAF_CAPACITY * layout.levels()[0], page_ids@));
        }
    }
    Ok(built)
}

/// The first levels have no more pages than all of them.
proof fn lemma_level_prefix(levels: Seq<usize>, k: int)
    requires
        0 <= k <= levels.len(),
    ensures
        level_sum(levels.take(k)) <= level_sum(levels),
        0 < k ==> levels[k - 1] <= level_sum(levels.take(k)),
    decreases levels.len() - k,
{
    if k == levels.len() {
        assert(levels.take(k) =~= levels);
    } else {
        lemma_level_prefix(levels, k + 1);
        assert(levels.take(k + 1).drop_last() =~= levels.take(k));
    }
}

/// A row of one node is a free tree.
proof fn lemma_row_root(map: Pages, nodes: Seq<(u64, u64)>, h: nat, all: Seq<Record>)
    requires
        row(map, nodes, h, all),
        nodes.len() == 1,
        forall|p: u64| map.contains_key(p) ==> #[trigger] row_owns(map, nodes, h, 0, p),
    ensures
        free_node(map, nodes[0].1, h),
        records(map, nodes[0].1, h) == all,
        forall|p: u64| #[trigger] free_owns(map, nodes[0].1, h, p) == map.contains_key(p),
{
    reveal(row);
    let ids = ids_of(nodes);
    assert(ids =~= seq![nodes[0].1]);
    assert(free_node(map, ids[0], h));
    lemma_run_one(map, ids[0], h);
    assert forall|p: u64| #[trigger] free_owns(map, nodes[0].1, h, p) == map.contains_key(p) by {
        if map.contains_key(p) {
            assert(row_owns(map, nodes, h, 0, p));
        }
    }
}

// ---------------------------------------------------------------------------
// Reusing pages
// ---------------------------------------------------------------------------

/// Whether the pages are those that were last used before a generation, in increasing
/// order.
pub open spec fn eligible(pages: Seq<u64>, entries: Map<u64, u64>, safe_generation: u64) -> bool {
    &&& forall|i: int, j: int|
        0 <= i < j < pages.len() ==> (#[trigger] pages[i]) < (#[trigger] pages[j])
    &&& forall|p: u64| #[trigger]
        pages.contains(p) == (entries.contains_key(p) && entries[p] < safe_generation)
}

/// Whether `count` consecutive pages start at an index.
pub open spec fn extent(pages: Seq<u64>, start: int, count: int) -> bool {
    &&& 0 <= start
    &&& start + count <= pages.len()
    &&& forall|k: int|
        start <= k < start + count ==> #[trigger] pages[k] == pages[start] + (k - start)
}

/// Whether the taken pages are the first consecutive ones if there are such, and
/// otherwise the first ones.
pub open spec fn picked(pages: Seq<u64>, count: int, taken: Seq<u64>) -> bool {
    if exists|start: int| extent(pages, start, count) {
        exists|start: int| #[trigger]
            extent(pages, start, count) && (forall|earlier: int|
                earlier < start ==> !#[trigger] extent(pages, earlier, count)) && taken
                == pages.subrange(start, start + count)
    } else {
        taken == pages.take(
            if count <= pages.len() {
                count
            } else {
                pages.len() as int
            },
        )
    }
}

/// Copies a range of pages.
fn copy_range(pages: &Vec<u64>, start: usize, end: usize) -> (copy: Vec<u64>)
    requires
        start <= end <= pages@.len(),
    ensures
        copy@ == pages@.subrange(start as int, end as int),
{
    let mut copy: Vec<u64> = Vec::new();
    let mut at = start;
    while at < end
        invariant
            start <= at <= end <= pages@.len(),
            copy@ == pages@.subrange(start as int, at as int),
        decreases end - at,
    {
        copy.push(pages[at]);
        at = at + 1;
        assert(copy@ =~= pages@.subrange(start as int, at as int));
    }
    copy
}

/// The first `count` consecutive pages, if there are such.
fn best_extent(pages: &Vec<u64>, count: usize) -> (result: Option<Vec<u64>>)
    requires
        count > 0,
        forall|i: int, j: int|
            0 <= i < j < pages@.len() ==> (#[trigger] pages@[i]) < (#[trigger] pages@[j]),
    ensures
        match result {
            Some(taken) => exists|start: int| #[trigger]
                extent(pages@, start, count as int) && (forall|earlier: int|
                    earlier < start ==> !#[trigger] extent(pages@, earlier, count as int))
                    && taken@ == pages@.subrange(start, start + count),
            None => forall|start: int| !#[trigger] extent(pages@, start, count as int),
        },
{
    let mut start: usize = 0;
    while start < pages.len()
        invariant
            start <= pages@.len(),
            count > 0,
            forall|i: int, j: int|
                0 <= i < j < pages@.len() ==> (#[trigger] pages@[i]) < (#[trigger] pages@[j]),
            forall|earlier: int| earlier < start ==> !#[trigger] extent(pages@, earlier, count as int),
        decreases pages@.len() - start,
    {
        assert(pages@.len() == pages.len());
        let mut end: usize = start + 1;
        while end < pages.len() && pages[end] - pages[end - 1] == 1
            invariant
                start < end <= pages@.len(),
                pages@.len() == pages.len(),
                forall|i: int, j: int|
                    0 <= i < j < pages@.len() ==> (#[trigger] pages@[i]) < (#[trigger] pages@[j]),
                forall|k: int|
                    start <= k < end ==> #[trigger] pages@[k] == pages@[start as int] + (k - start),
            decreases pages@.len() - end,
        {
            end = end + 1;
        }
        if end - start >= count {
            assert(extent(pages@, start as int, count as int));
            let taken = copy_range(pages, start, start + count);
            return Some(taken);
        }
        proof {
            assert forall|earlier: int| earlier < end implies !#[trigger] extent(
                pages@,
                earlier,
                count as int,
            ) by {
                if earlier >= start && extent(pages@, earlier, count as int) {
                    assert(earlier + count > end);
                    assert(pages@[end as int] == pages@[earlier] + (end - earlier));
                    assert(pages@[end - 1] == pages@[start as int] + (end - 1 - start));
                    assert(pages@[earlier] == pages@[start as int] + (earlier - start));
                }
            }
        }
        start = end;
    }
    proof {
        assert forall|any: int| !#[trigger] extent(pages@, any, count as int) by {
            if any >= start {
                assert(!(any + count <= pages@.len()));
            }
        }
    }
    None
}

/// Whether one of the first `len` records names a page last used before a generation.
spec fn aged(all: Seq<Record>, len: int, page: u64, safe_generation: u64) -> bool {
    exists|k: int|
        0 <= k < len && (#[trigger] all[k]).0 == page && all[k].1 < safe_generation
}

/// The pages of some records.
pub open spec fn pages_in(records: Seq<Record>) -> Seq<u64> {
    records.map_values(|record: Record| record.0)
}

/// Pages that are picked are eligible, and in increasing order.
proof fn lemma_picked(
    pages: Seq<u64>,
    entries: Map<u64, u64>,
    safe_generation: u64,
    count: int,
    taken: Seq<u64>,
)
    requires
        eligible(pages, entries, safe_generation),
        picked(pages, count, taken),
        count > 0,
    ensures
        forall|i: int|
            0 <= i < taken.len() ==> entries.contains_key(#[trigger] taken[i])
                && entries[taken[i]] < safe_generation,
        forall|i: int, j: int|
            0 <= i < j < taken.len() ==> (#[trigger] taken[i]) < (#[trigger] taken[j]),
{
    let start = if exists|start: int| extent(pages, start, count) {
        choose|start: int| #[trigger]
            extent(pages, start, count) && (forall|earlier: int|
                earlier < start ==> !#[trigger] extent(pages, earlier, count)) && taken
                == pages.subrange(start, start + count)
    } else {
        0
    };
    assert forall|i: int| 0 <= i < taken.len() implies #[trigger] taken[i] == pages[start + i]
        && start + i < pages.len() && 0 <= start by {}
    assert forall|i: int| 0 <= i < taken.len() implies entries.contains_key(#[trigger] taken[i])
        && entries[taken[i]] < safe_generation by {
        assert(pages.contains(pages[start + i]));
    }
}

/// Takes pages for reuse out of the entries: `count` of those last used before a
/// generation, or all of them if they are fewer; consecutive ones if there are such.
pub fn take_reusable(
    entries: &mut BTreeMap<u64, u64>,
    safe_generation: u64,
    count: usize,
) -> (taken: Vec<(u64, u64)>)
    ensures
        final(entries)@ == old(entries)@.remove_keys(pages_in(taken@).to_set()),
        count == 0 ==> taken@.len() == 0,
        count > 0 ==> exists|pages: Seq<u64>| #[trigger]
            eligible(pages, old(entries)@, safe_generation) && picked(
                pages,
                count as int,
                pages_in(taken@),
            ),
        forall|i: int|
            0 <= i < taken@.len() ==> old(entries)@.contains_key((#[trigger] taken@[i]).0)
                && taken@[i].1 == old(entries)@[taken@[i].0] && taken@[i].1 < safe_generation,
{
    broadcast use vstd::std_specs::btree::group_btree_axioms;

    let ghost before = entries@;
    if count == 0 {
        let none: Vec<(u64, u64)> = Vec::new();
        assert(before.remove_keys(pages_in(none@).to_set()) =~= before);
        return none;
    }
    let all = list_records(entries);
    proof {
        lemma_record_map(all@);
    }
    let mut pages: Vec<u64> = Vec::new();
    let mut index: usize = 0;
    while index < all.len()
        invariant
            index <= all@.len(),
            lists(all@, before),
            forall|i: int, j: int|
                0 <= i < j < pages@.len() ==> (#[trigger] pages@[i]) < (#[trigger] pages@[j]),
            forall|i: int|
                0 <= i < pages@.len() ==> aged(
                    all@,
                    index as int,
                    #[trigger] pages@[i],
                    safe_generation,
                ),
            forall|k: int|
                0 <= k < index && (#[trigger] all@[k]).1 < safe_generation ==> pages@.contains(
                    all@[k].0,
                ),
        decreases all@.len() - index,
    {
        let (page, generation) = all[index];
        let ghost so_far = pages@;
        if generation < safe_generation {
            pages.push(page);
        }
        proof {
            assert forall|i: int| 0 <= i < pages@.len() implies aged(
                all@,
                index + 1,
                #[trigger] pages@[i],
                safe_generation,
            ) by {
                if i < so_far.len() {
                    assert(pages@[i] == so_far[i]);
                    assert(aged(all@, index as int, so_far[i], safe_generation));
                    let k = choose|k: int|
                        0 <= k < index && (#[trigger] all@[k]).0 == so_far[i] && all@[k].1
                            < safe_generation;
                    assert(all@[k].0 == pages@[i]);
                } else {
                    assert(all@[index as int].0 == pages@[i]);
                }
            }
            assert forall|i: int, j: int| 0 <= i < j < pages@.len() implies (#[trigger] pages@[i])
                < (#[trigger] pages@[j]) by {
                assert(pages@[i] == so_far[i]);
                if j == so_far.len() {
                    assert(aged(all@, index as int, so_far[i], safe_generation));
                    let k = choose|k: int|
                        0 <= k < index && (#[trigger] all@[k]).0 == so_far[i] && all@[k].1
                            < safe_generation;
                    assert(all@[k].0 < all@[index as int].0);
                } else {
                    assert(pages@[j] == so_far[j]);
                }
            }
            assert forall|k: int|
                0 <= k < index + 1 && (#[trigger] all@[k]).1 < safe_generation implies pages@.contains(
                all@[k].0,
            ) by {
                if k < index {
                    assert(so_far.contains(all@[k].0));
                    let i = choose|i: int| 0 <= i < so_far.len() && so_far[i] == all@[k].0;
                    assert(pages@[i] == all@[k].0);
                } else {
                    assert(pages@[so_far.len() as int] == all@[k].0);
                }
            }
        }
        index = index + 1;
    }
    assert(eligible(pages@, before, safe_generation)) by {
        assert forall|p: u64| #[trigger]
            pages@.contains(p) == (before.contains_key(p) && before[p] < safe_generation) by {
            if pages@.contains(p) {
                let i = choose|i: int| 0 <= i < pages@.len() && pages@[i] == p;
                assert(aged(all@, all@.len() as int, pages@[i], safe_generation));
                let k = choose|k: int|
                    0 <= k < all@.len() && (#[trigger] all@[k]).0 == pages@[i] && all@[k].1
                        < safe_generation;
                assert(record_map(all@)[all@[k].0] == all@[k].1);
            }
            if before.contains_key(p) && before[p] < safe_generation {
                let k = choose|k: int| 0 <= k < all@.len() && (#[trigger] all@[k]).0 == p;
                assert(all@[k].1 == before[p]);
            }
        }
    }
    let taken = match best_extent(&pages, count) {
        Some(taken) => taken,
        None => {
            let len = if count <= pages.len() {
                count
            } else {
                pages.len()
            };
            copy_range(&pages, 0, len)
        },
    };
    assert(picked(pages@, count as int, taken@)) by {
        assert(pages@.len() == pages.len());
        if forall|start: int| !#[trigger] extent(pages@, start, count as int) {
            assert(taken@ =~= pages@.take(
                if count <= pages@.len() {
                    count as int
                } else {
                    pages@.len() as int
                },
            ));
        }
    }
    let mut at: usize = 0;
    let mut list: Vec<(u64, u64)> = Vec::new();
    proof {
        assert(before.remove_keys(taken@.take(0).to_set()) =~= before);
        assert(pages_in(list@) =~= taken@.take(0));
        lemma_picked(pages@, before, safe_generation, count as int, taken@);
    }
    while at < taken.len()
        invariant
            at <= taken@.len(),
            entries@ == before.remove_keys(taken@.take(at as int).to_set()),
            pages_in(list@) == taken@.take(at as int),
            forall|i: int|
                0 <= i < taken@.len() ==> before.contains_key(#[trigger] taken@[i])
                    && before[taken@[i]] < safe_generation,
            forall|i: int, j: int|
                0 <= i < j < taken@.len() ==> (#[trigger] taken@[i]) < (#[trigger] taken@[j]),
            forall|i: int|
                0 <= i < list@.len() ==> before.contains_key((#[trigger] list@[i]).0) && list@[i].1
                    == before[list@[i].0] && list@[i].1 < safe_generation,
        decreases taken@.len() - at,
    {
        broadcast use vstd::std_specs::btree::group_btree_axioms;

        let page = taken[at];
        proof {
            assert(!taken@.take(at as int).to_set().contains(page)) by {
                if taken@.take(at as int).contains(page) {
                    let i = choose|i: int| 0 <= i < at && taken@.take(at as int)[i] == page;
                    assert(taken@[i] < taken@[at as int]);
                }
            }
            assert(entries@.contains_key(page) && entries@[page] == before[page]);
        }
        let ghost so_far = list@;
        if let Some(generation) = entries.remove(&page) {
            list.push((page, generation));
        }
        proof {
            assert(pages_in(list@) =~= pages_in(so_far).push(page));
            let shorter = taken@.take(at as int);
            let longer = taken@.take(at + 1);
            assert(longer =~= shorter.push(page));
            assert forall|p: u64| longer.to_set().contains(p) == (shorter.to_set().contains(p) || p
                == page) by {
                if longer.contains(p) {
                    let i = choose|i: int| 0 <= i < longer.len() && longer[i] == p;
                    if i < at {
                        assert(shorter[i] == p);
                    }
                }
                if shorter.contains(p) {
                    let i = choose|i: int| 0 <= i < shorter.len() && shorter[i] == p;
                    assert(longer[i] == p);
                }
                if p == page {
                    assert(longer[at as int] == p);
                }
            }
            assert(entries@ =~= before.remove_keys(longer.to_set()));
        }
        at = at + 1;
    }
    assert(taken@.take(at as int) =~= taken@);
    list
}

} // verus!
