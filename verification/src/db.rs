//! The database: what it holds in memory, what holds of it, and which generations it
//! keeps readable.
use crate::branch::spreading;
use crate::cache::Cached;
use crate::format::{in_snapshot, meta_rooted, Meta, META_PAGES, PAGE_SIZE};
use crate::free::{free_owns, list_records, loadable, record_map, records};
use crate::io::{pages_of, Storage};
use crate::model::{flat, is_tree, map_of, published, rows_of, Pages, Row};
use crate::node::PageRef;
use crate::options::Durability;
use crate::reader::incomplete;
use crate::space::{
    aged_pages, counts_for, is_floor, retained, reusable_count, sum_below, FreeState, Publication,
};
use crate::tree::tree_pages;
use std::collections::BTreeMap;
use vstd::prelude::*;

verus! {

/// An open database over some storage.
///
/// It is the state that all handles of a database share; whoever shares it between
/// threads serialises the calls and lets one write transaction exist at a time.
pub struct Database<I: Storage> {
    /// Where the pages are stored, and those in memory.
    pub source: Cached<I>,
    /// The published generations.
    pub publication: Publication,
    /// How many readers hold each generation.
    pub snapshots: BTreeMap<u64, u64>,
    /// The free tree.
    pub free: FreeState,
    /// When commits are forced to durable storage.
    pub durability: Durability,
}

// ---------------------------------------------------------------------------
// Generations
// ---------------------------------------------------------------------------

/// The root of the user tree of a generation.
pub open spec fn root_of(meta: Meta) -> PageRef {
    PageRef::Committed(meta.root)
}

/// Whether the user tree of a generation is well formed and has height `h`.
pub open spec fn tree_stands(pages: Pages, meta: Meta, h: nat) -> bool {
    is_tree(published(pages, meta.page_count), root_of(meta), h)
}

/// Whether every internal node of the user tree of a generation has several children, but for
/// those on the right edge below the root.
pub open spec fn tree_branches(pages: Pages, meta: Meta, h: nat) -> bool {
    spreading(published(pages, meta.page_count), root_of(meta), h)
}

/// The pages of the user tree of a generation.
pub open spec fn user_pages(pages: Pages, meta: Meta, h: nat) -> Set<u64> {
    tree_pages(published(pages, meta.page_count), root_of(meta), h)
}

/// The rows of the user tree of a generation.
pub open spec fn rows_at(pages: Pages, meta: Meta, h: nat) -> Seq<Row> {
    rows_of(
        published(pages, meta.page_count),
        flat(published(pages, meta.page_count), root_of(meta), h),
    )
}

/// The bytes of the keys and values of rows.
pub open spec fn weight(rows: Seq<Row>) -> nat
    decreases rows.len(),
{
    if rows.len() == 0 {
        0
    } else {
        weight(rows.drop_last()) + rows.last().0.len() + rows.last().1.len()
    }
}

/// Whether the records and the pages of the free tree of a generation are the given ones.
pub open spec fn free_stands(
    pages: Pages,
    meta: Meta,
    entries: Map<u64, u64>,
    free_pages: Set<u64>,
    h: nat,
) -> bool {
    &&& loadable(pages, meta.page_count, meta.free_root, h)
    &&& entries == record_map(records(pages, meta.free_root, h))
    &&& forall|p: u64| #[trigger] free_pages.contains(p) == free_owns(pages, meta.free_root, h, p)
}

/// Whether the free tree of a generation has the given records and pages.
pub open spec fn free_held(
    pages: Pages,
    meta: Meta,
    entries: Map<u64, u64>,
    free_pages: Set<u64>,
) -> bool {
    exists|h: nat| #[trigger] free_stands(pages, meta, entries, free_pages, h)
}

/// The smallest key of a map, if there is one.
pub open spec fn is_least_key(map: Map<u64, u64>, least: Option<u64>) -> bool {
    match least {
        Some(key) => map.contains_key(key) && forall|other: u64| #[trigger]
            map.contains_key(other) ==> key <= other,
        None => forall|other: u64| !#[trigger] map.contains_key(other),
    }
}

impl<I: Storage> Database<I> {
    /// The stored pages.
    pub open spec fn pages(&self) -> Pages {
        pages_of(self.source.storage.contents())
    }

    /// How many calls to the storage failed or made no progress so far.
    pub open spec fn failures(&self) -> nat {
        self.source.storage.failures()
    }

    /// The record of the current generation.
    pub open spec fn meta(&self) -> Meta {
        self.publication.current.meta
    }

    /// The free pages and the last generations that used them.
    pub open spec fn entries(&self) -> Map<u64, u64> {
        self.free.entries@
    }

    /// The pages that the cache holds.
    pub open spec fn at_hand(&self) -> Set<u64> {
        self.source.cache.entries().dom()
    }

    /// Whether a generation is recorded by a metadata page or held by a reader.
    pub open spec fn retains(&self, generation: u64) -> bool {
        ||| self.snapshots@.contains_key(generation)
        ||| self.publication.slots@[0] matches Some(meta) && meta.generation == generation
        ||| self.publication.slots@[1] matches Some(meta) && meta.generation == generation
    }

    /// Whether `floor` is the oldest generation that must stay readable.
    pub open spec fn floor(&self, floor: u64) -> bool {
        exists|oldest: Option<u64>| #[trigger]
            is_least_key(self.snapshots@, oldest) && is_floor(self.publication, oldest, floor)
    }

    /// What holds of the published generations in memory.
    pub open spec fn publication_ok(&self) -> bool {
        let current = self.publication.current;
        &&& meta_rooted(current.meta)
        &&& current.slot < META_PAGES
        &&& self.publication.slots@[current.slot as int] == Some(current.meta)
        &&& forall|k: int|
            0 <= k < 2 ==> ((#[trigger] self.publication.slots@[k]) matches Some(meta)
                ==> meta.generation <= current.meta.generation)
        &&& current.meta.page_count * PAGE_SIZE <= u64::MAX
        &&& current.meta.page_count * PAGE_SIZE <= self.source.storage.contents().len()
    }

    /// What holds of the free tree in memory.
    pub open spec fn free_ok(&self) -> bool {
        let meta = self.meta();
        let entries = self.entries();
        &&& free_held(self.pages(), meta, entries, self.free.pages@)
        &&& entries.dom().finite()
        &&& entries.dom().len() == meta.free_pages
        &&& self.free.pages@.len() == meta.free_tree_pages
        &&& forall|p: u64| #[trigger]
            entries.contains_key(p) ==> in_snapshot(p, meta.page_count) && entries[p]
                <= meta.generation && !self.free.pages@.contains(p)
        &&& forall|p: u64| #[trigger]
            self.free.pages@.contains(p) ==> in_snapshot(p, meta.page_count)
        &&& counts_for(entries, self.free.generation_counts@)
    }

    /// What holds of the readers.
    pub open spec fn readers_ok(&self) -> bool {
        &&& self.snapshots@.dom().finite()
        &&& forall|g: u64| #[trigger]
            self.snapshots@.contains_key(g) ==> g <= self.meta().generation
                && self.snapshots@[g] > 0
    }

    /// Whether the cache holds what is stored.
    pub open spec fn cache_ok(&self) -> bool {
        &&& self.source.cache.inv()
        &&& self.source.cache.idle()
        &&& self.source.cache.coherent(self.pages())
    }

    /// What holds of a database whatever its user tree holds.
    pub open spec fn inv(&self) -> bool {
        &&& self.cache_ok()
        &&& self.publication_ok()
        &&& self.free_ok()
        &&& self.readers_ok()
        &&& forall|floor: u64| #[trigger]
            self.floor(floor) ==> self.free.reusable_pages == aged_pages(
                self.entries(),
                floor,
            ).len()
    }

    /// Whether the user tree of the current generation is well formed, as the metadata says,
    /// and apart from the free tree and the free pages.
    pub open spec fn whole(&self, h: nat) -> bool {
        let meta = self.meta();
        let pages = self.pages();
        &&& tree_stands(pages, meta, h)
        &&& forall|p: u64| #[trigger]
            user_pages(pages, meta, h).contains(p) ==> !self.entries().contains_key(p)
                && !self.free.pages@.contains(p)
        &&& meta.item_count == rows_at(pages, meta, h).len()
        &&& meta.logical_bytes == weight(rows_at(pages, meta, h))
        &&& user_pages(pages, meta, h).finite()
        &&& meta.user_tree_pages == user_pages(pages, meta, h).len()
    }

    /// Whether every page behind the metadata is in use or free.
    pub open spec fn sealed(&self, h: nat) -> bool {
        forall|p: u64| #[trigger]
            in_snapshot(p, self.meta().page_count) ==> user_pages(
                self.pages(),
                self.meta(),
                h,
            ).contains(p) || self.entries().contains_key(p) || self.free.pages@.contains(p)
    }

    /// The mapping from keys to values of the current generation.
    pub open spec fn contents(&self, h: nat) -> Map<Seq<u8>, Seq<u8>> {
        map_of(rows_at(self.pages(), self.meta(), h))
    }

    /// Whether a generation stays readable: its tree is well formed, it is retained, and no
    /// page of it is offered for reuse before it may go.
    pub open spec fn guards(&self, meta: Meta, h: nat) -> bool {
        &&& self.retains(meta.generation)
        &&& meta.generation <= self.meta().generation
        &&& meta.page_count <= self.meta().page_count
        &&& tree_stands(self.pages(), meta, h)
        &&& forall|p: u64| #[trigger]
            user_pages(self.pages(), meta, h).contains(p) && self.entries().contains_key(p)
                ==> self.entries()[p] >= meta.generation
    }

    /// The current generation stays readable.
    pub proof fn lemma_guards_current(&self, h: nat)
        requires
            self.inv(),
            self.whole(h),
        ensures
            self.guards(self.meta(), h),
    {
        let slot = self.publication.current.slot as int;
        assert(self.publication.slots@[slot] == Some(self.meta()));
        assert(slot == 0 || slot == 1);
    }
}

/// The logical size of rows is the length of all their keys and values.
pub proof fn law_weight(rows: Seq<Row>, row: Row)
    ensures
        weight(Seq::empty()) == 0,
        weight(rows.push(row)) == weight(rows) + row.0.len() + row.1.len(),
{
    assert(rows.push(row).drop_last() =~= rows);
}

/// The pages of the current generation are stored.
pub proof fn lemma_stored_in_full<I: Storage>(db: Database<I>, count: u64)
    requires
        db.publication_ok(),
        count <= db.meta().page_count,
    ensures
        !incomplete(db.pages(), count),
{
    reveal(incomplete);
    assert forall|id: u64| in_snapshot(id, count) implies #[trigger] db.pages().contains_key(id) by {
        assert((id + 1) * PAGE_SIZE <= db.meta().page_count * PAGE_SIZE) by (nonlinear_arith)
            requires
                id + 1 <= count <= db.meta().page_count,
                PAGE_SIZE >= 0,
        ;
    }
}

/// The oldest generation that must stay readable is unique.
pub proof fn lemma_floor_unique(publication: Publication, oldest: Option<u64>, a: u64, b: u64)
    requires
        is_floor(publication, oldest, a),
        is_floor(publication, oldest, b),
    ensures
        a == b,
{
    if exists|generation: u64| #[trigger] retained(publication, oldest, generation) {
        assert(retained(publication, oldest, a));
        assert(retained(publication, oldest, b));
    }
}

/// There is an oldest generation that must stay readable.
pub proof fn lemma_floor_exists(publication: Publication, oldest: Option<u64>) -> (floor: u64)
    ensures
        is_floor(publication, oldest, floor),
{
    let a = publication.slots@[0];
    let b = publication.slots@[1];
    let least = |x: Option<u64>, y: Option<u64>|
        match (x, y) {
            (Some(p), Some(q)) => Some(
                if p <= q {
                    p
                } else {
                    q
                },
            ),
            (Some(p), None) => Some(p),
            (None, q) => q,
        };
    let first = match a {
        Some(meta) => Some(meta.generation),
        None => None,
    };
    let second = match b {
        Some(meta) => Some(meta.generation),
        None => None,
    };
    match least(least(first, second), oldest) {
        Some(floor) => {
            assert(retained(publication, oldest, floor));
            floor
        },
        None => publication.current.meta.generation,
    }
}

/// The smallest key of a map is unique.
pub proof fn lemma_least_unique(map: Map<u64, u64>, a: Option<u64>, b: Option<u64>)
    requires
        is_least_key(map, a),
        is_least_key(map, b),
    ensures
        a == b,
{
}

/// No more pages are reusable than are free.
pub proof fn lemma_aged_bounded(entries: Map<u64, u64>, safe: u64)
    requires
        entries.dom().finite(),
    ensures
        aged_pages(entries, safe).finite(),
        aged_pages(entries, safe).len() <= entries.dom().len(),
{
    vstd::set_lib::lemma_len_subset(aged_pages(entries, safe), entries.dom());
}

/// The oldest generation that must stay readable is one that a metadata page records or a reader
/// holds, and it is no later than any of these. There is exactly one.
pub proof fn law_floor_is_retained<I: Storage>(db: Database<I>, floor: u64)
    requires
        db.inv(),
    ensures
        db.floor(floor) <==> {
            &&& db.snapshots@.contains_key(floor) || (exists|k: int|
                0 <= k < 2 && ((#[trigger] db.publication.slots@[k]) matches Some(meta)
                    && meta.generation == floor))
            &&& forall|held: u64| #[trigger] db.snapshots@.contains_key(held) ==> floor <= held
            &&& forall|k: int|
                0 <= k < 2 ==> ((#[trigger] db.publication.slots@[k]) matches Some(meta) ==> floor
                    <= meta.generation)
        },
        db.floor(floor) ==> db.retains(floor),
        exists|other: u64| #[trigger] db.floor(other),
{
    let slots = db.publication.slots@;
    let oldest = lemma_least_exists(db.snapshots@);
    let found = lemma_floor_exists(db.publication, oldest);
    let current = db.publication.current;
    assert(slots[current.slot as int] == Some(current.meta));
    assert(retained(db.publication, oldest, current.meta.generation));
    assert(db.floor(found));
    assert(slots[0] == slots[0] && slots[1] == slots[1]);
    assert forall|k: int| 0 <= k < 2 implies ((#[trigger] slots[k]) matches Some(meta)
        ==> retained(db.publication, oldest, meta.generation)) by {
        assert(k == 0 || k == 1);
    }
    if db.floor(floor) {
        let other = choose|other: Option<u64>| #[trigger]
            is_least_key(db.snapshots@, other) && is_floor(db.publication, other, floor);
        lemma_least_unique(db.snapshots@, oldest, other);
        assert(retained(db.publication, oldest, floor));
        assert forall|held: u64| #[trigger] db.snapshots@.contains_key(held) implies floor <= held by {
            assert(oldest is Some);
            assert(retained(db.publication, oldest, oldest->0));
        }
    }
    if {
        &&& db.snapshots@.contains_key(floor) || (exists|k: int|
            0 <= k < 2 && ((#[trigger] slots[k]) matches Some(meta) && meta.generation == floor))
        &&& forall|held: u64| #[trigger] db.snapshots@.contains_key(held) ==> floor <= held
        &&& forall|k: int|
            0 <= k < 2 ==> ((#[trigger] slots[k]) matches Some(meta) ==> floor <= meta.generation)
    } {
        if oldest is Some {
            assert(db.snapshots@.contains_key(oldest->0));
        }
        assert(retained(db.publication, oldest, floor));
        assert(is_floor(db.publication, oldest, floor));
    }
}

/// A map of finitely many keys has a smallest one, unless it is empty.
proof fn lemma_least_exists(map: Map<u64, u64>) -> (least: Option<u64>)
    requires
        map.dom().finite(),
    ensures
        is_least_key(map, least),
    decreases map.dom().len(),
{
    if map.dom().len() == 0 {
        map.dom().lemma_len0_is_empty();
        assert forall|other: u64| !#[trigger] map.contains_key(other) by {
            assert(!map.dom().contains(other));
        }
        None
    } else {
        let key = map.dom().choose();
        let rest = map.remove(key);
        assert(rest.dom() =~= map.dom().remove(key));
        let least = lemma_least_exists(rest);
        let found = match least {
            Some(other) => if other <= key {
                other
            } else {
                key
            },
            None => key,
        };
        assert forall|other: u64| #[trigger] map.contains_key(other) implies found <= other by {
            if other != key {
                assert(rest.contains_key(other));
            }
        }
        if least is Some {
            assert(rest.contains_key(least->0));
        }
        Some(found)
    }
}

/// The next writer may take a free page exactly where every generation that a metadata page
/// records or a reader holds is later than the last one that used the page, and as many pages
/// are counted as reusable.
pub proof fn law_reusable_pages<I: Storage>(db: Database<I>)
    requires
        db.inv(),
    ensures
        db.free.reusable_pages == db.entries().dom().filter(
            |page: u64|
                {
                    &&& forall|held: u64| #[trigger]
                        db.snapshots@.contains_key(held) ==> db.entries()[page] < held
                    &&& forall|k: int|
                        0 <= k < 2 ==> ((#[trigger] db.publication.slots@[k]) matches Some(meta)
                            ==> db.entries()[page] < meta.generation)
                },
        ).len(),
        forall|floor: u64, page: u64|
            #![trigger db.floor(floor), db.entries().contains_key(page)]
            db.floor(floor) && db.entries().contains_key(page) ==> (aged_pages(
                db.entries(),
                floor,
            ).contains(page) <==> {
                &&& forall|held: u64| #[trigger]
                    db.snapshots@.contains_key(held) ==> db.entries()[page] < held
                &&& forall|k: int|
                    0 <= k < 2 ==> ((#[trigger] db.publication.slots@[k]) matches Some(meta)
                        ==> db.entries()[page] < meta.generation)
            }),
{
    let entries = db.entries();
    let free = |page: u64|
        {
            &&& forall|held: u64| #[trigger]
                db.snapshots@.contains_key(held) ==> entries[page] < held
            &&& forall|k: int|
                0 <= k < 2 ==> ((#[trigger] db.publication.slots@[k]) matches Some(meta)
                    ==> entries[page] < meta.generation)
        };
    law_floor_is_retained(db, 0);
    assert forall|floor: u64, page: u64|
        #![trigger db.floor(floor), entries.contains_key(page)]
        db.floor(floor) && entries.contains_key(page) implies (aged_pages(entries, floor).contains(
        page,
    ) <==> free(page)) by {
        law_floor_is_retained(db, floor);
        if free(page) {
            if !db.snapshots@.contains_key(floor) {
                let k = choose|k: int|
                    0 <= k < 2 && ((#[trigger] db.publication.slots@[k]) matches Some(meta)
                        && meta.generation == floor);
                assert(db.publication.slots@[k] is Some);
            }
        }
    }
    let floor = choose|other: u64| #[trigger] db.floor(other);
    assert(aged_pages(entries, floor) =~= entries.dom().filter(free)) by {
        assert forall|page: u64| aged_pages(entries, floor).contains(page) == entries.dom().filter(
            free,
        ).contains(page) by {
            if entries.contains_key(page) {
                assert(db.floor(floor) && entries.contains_key(page));
            }
        }
    }
}

/// The free pages of a database are those of its free tree: as many as recorded, each of them in
/// the file behind the metadata pages, none of them a page of the free tree, and none last used
/// by a generation that is not published yet.
pub proof fn law_free_pages<I: Storage>(db: Database<I>, page: u64)
    requires
        db.inv(),
    ensures
        db.entries().dom().len() == db.meta().free_pages,
        db.free.pages@.len() == db.meta().free_tree_pages,
        db.entries().contains_key(page) ==> 2 <= page < db.meta().page_count
            && !db.free.pages@.contains(page) && db.entries()[page] <= db.meta().generation,
        db.free.pages@.contains(page) ==> 2 <= page < db.meta().page_count,
        db.meta().page_count * 4096 <= db.source.storage.contents().len(),
        db.snapshots@.contains_key(page) ==> page <= db.meta().generation && db.snapshots@[page] > 0,
{
}

/// Finds the smallest key of a map.
pub fn least_key(map: &BTreeMap<u64, u64>) -> (least: Option<u64>)
    ensures
        is_least_key(map@, least),
{
    let all = list_records(map);
    proof {
        crate::free::lemma_record_map(all@);
    }
    if all.len() == 0 {
        assert forall|other: u64| !#[trigger] map@.contains_key(other) by {
            if map@.contains_key(other) {
                let i = choose|i: int| 0 <= i < all@.len() && (#[trigger] all@[i]).0 == other;
                assert(false);
            }
        }
        None
    } else {
        let least = all[0].0;
        assert forall|other: u64| #[trigger] map@.contains_key(other) implies least <= other by {
            let i = choose|i: int| 0 <= i < all@.len() && (#[trigger] all@[i]).0 == other;
            if i > 0 {
                assert(all@[0].0 < all@[i].0);
            }
        }
        assert(map@.contains_key(all@[0].0));
        Some(least)
    }
}

/// How many free pages the next writer may take.
pub fn count_reusable(
    entries: &BTreeMap<u64, u64>,
    counts: &BTreeMap<u64, u64>,
    floor: u64,
) -> (count: u64)
    requires
        counts_for(entries@, counts@),
        entries@.dom().finite(),
    ensures
        count == aged_pages(entries@, floor).len(),
{
    broadcast use vstd::std_specs::btree::group_btree_axioms;

    let all = entries.len();
    proof {
        assert(sum_below(counts@, floor as int) == aged_pages(entries@, floor).len());
        lemma_aged_bounded(entries@, floor);
        assert(all == entries@.dom().len());
    }
    reusable_count(counts, floor)
}

impl<I: Storage> Database<I> {
    /// The number of reusable pages fits the oldest generation that must stay readable.
    pub proof fn lemma_reusable(&self, oldest: Option<u64>, floor: u64)
        requires
            is_least_key(self.snapshots@, oldest),
            is_floor(self.publication, oldest, floor),
            self.free.reusable_pages == aged_pages(self.entries(), floor).len(),
        ensures
            forall|other: u64| #[trigger]
                self.floor(other) ==> self.free.reusable_pages == aged_pages(
                    self.entries(),
                    other,
                ).len(),
    {
        assert forall|other: u64| #[trigger] self.floor(other) implies self.free.reusable_pages
            == aged_pages(self.entries(), other).len() by {
            let another = choose|another: Option<u64>| #[trigger]
                is_least_key(self.snapshots@, another) && is_floor(
                    self.publication,
                    another,
                    other,
                );
            lemma_least_unique(self.snapshots@, oldest, another);
            lemma_floor_unique(self.publication, oldest, floor, other);
        }
    }
}

} // verus!
