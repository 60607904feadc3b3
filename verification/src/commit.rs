//! Publishing a write transaction.
//!
//! A commit first decides on every page that it will write: the pages of the changed
//! nodes and large values, and a new free tree. Pages that an older generation may still
//! need are not among them. The pages are written and made durable before the metadata
//! page that does not record the current generation is overwritten.
use crate::db::{free_held, free_stands, least_key, rows_at, tree_branches, user_pages, Database};
use crate::demand::{lemma_pages_after, pages_after};
use crate::error::{corrupt, Error, Result};
use crate::finish::{listed, page_list, written};
use crate::format::{encode_meta, encodes, in_snapshot, Meta, META_PAGES, PAGE_SIZE, PAGE_SIZE_U64};
use crate::free::{
    agrees, free_owns, free_tree, lemma_free_carried, lemma_free_height, lemma_node_ascending,
    lemma_record_map, record_map, records,
};
use crate::io::{blamed, len, mute, pages_of, wrote, Call, Storage};
use crate::model::{owns, published, Pages};
use crate::node::PageRef;
use crate::open::{free_sound, lemma_tree_carried};
use crate::keep::{
    lemma_floor_below, lemma_free_not_spare, lemma_free_reads_same, lemma_guarded_not_spare,
    lemma_reads_same, lemma_spare, lemma_txn_kept, lemma_user_pages_inside, reads_same, same_memory,
};
use crate::options::Durability;
use crate::plan::{
    base_readable, built_on, commit_demand, drafted_tree, lemma_plan, lemma_with_pages, live_slots,
    page_set, plan_commit, plan_facts, unshared, user_demand, with_pages, CommitPlan, UserDraft,
};
use crate::page::{rearranged, sort_by_first};
use crate::reader::MAX_DEPTH;
use crate::recovery::{
    complete, covered, free_apart, law_whole_is_complete, leakless, lemma_complete_carried,
    record_at, vital_pages,
};
use crate::space::{
    counts_for, generation_counts, safe_generation, FreeState, Publication, Published,
};
use crate::store::{
    cut, flush, holds_pages, keeps, lasts, lemma_spoils_compose, lemma_spoils_same,
    lemma_tree_stored, listed_below, listed_ids, pages_from, put_page, put_pages, spoils,
    wrote_pages,
};
use crate::tree::MutableTree;
use crate::txn::lemma_same_floor;
use crate::write::WriteTxn;
use vstd::prelude::*;

verus! {

// ---------------------------------------------------------------------------
// Writing
// ---------------------------------------------------------------------------

/// Whether every image that a crash may leave behind is what reads see.
pub open spec fn flushed<I: Storage>(storage: I) -> bool {
    forall|image: Seq<u8>| #[trigger] storage.survives(image) ==> image == storage.contents()
}

/// How long the storage is once whole pages behind the first `count` are cut off.
pub open spec fn trimmed(length: nat, count: u64) -> nat {
    if length / PAGE_SIZE as nat > count {
        count as nat * PAGE_SIZE as nat
    } else {
        length
    }
}

/// The calls of the storage once whole pages behind those of the current generation are cut
/// off, if there are any.
pub open spec fn tail_cut<I: Storage>(db: Database<I>) -> Seq<Call> {
    if db.source.storage.contents().len() / PAGE_SIZE as nat > db.meta().page_count {
        db.source.storage.calls().push(Call::Resize(db.meta().page_count * PAGE_SIZE))
    } else {
        db.source.storage.calls()
    }
}

/// Whether the calls `after` are those `before`, then the writes of the pages of a list, one
/// synchronization, the write of a metadata page and, if commits are strict, one more
/// synchronization.
pub open spec fn commit_calls(
    before: Seq<Call>,
    after: Seq<Call>,
    list: Seq<(u64, [u8; PAGE_SIZE])>,
    slot: u64,
    page: Seq<u8>,
    durability: Durability,
) -> bool {
    exists|stored: Seq<Call>, recorded: Seq<Call>| #[trigger]
        wrote_pages(before, stored, list) && #[trigger] wrote(
            stored.push(Call::Sync),
            recorded,
            slot * PAGE_SIZE,
            page,
        ) && after == match durability {
            Durability::Strict => recorded.push(Call::Sync),
            Durability::Relaxed => recorded,
        }
}

/// Whether a commit asks the storage for nothing but that the pages of a list be written, in
/// increasing order and none of them a metadata page, be made durable, and be recorded in the
/// metadata page that does not record the current generation.
pub open spec fn carried_out<I: Storage>(
    a: Database<I>,
    b: Database<I>,
    list: Seq<(u64, [u8; PAGE_SIZE])>,
) -> bool {
    &&& forall|j: int, k: int|
        0 <= j < k < list.len() ==> (#[trigger] list[j]).0 < (#[trigger] list[k]).0
    &&& forall|k: int| 0 <= k < list.len() ==> (#[trigger] list[k]).0 >= META_PAGES
    &&& commit_calls(
        tail_cut(a),
        b.source.storage.calls(),
        list,
        a.other_slot(),
        b.pages()[a.other_slot()],
        a.durability,
    )
}

/// Whether the cache has lost no page of the file but free pages and pages of the free tree, has
/// gained none, and has room for as many as before.
pub open spec fn keeps_cached<I: Storage>(a: Database<I>, b: Database<I>) -> bool {
    &&& b.source.cache.limit() == a.source.cache.limit()
    &&& b.source.cache.counts() == a.source.cache.counts()
    &&& b.at_hand().subset_of(a.at_hand())
    &&& forall|id: u64|
        META_PAGES <= id < a.meta().page_count && #[trigger] a.at_hand().contains(id)
            && !a.entries().contains_key(id) && !a.free.pages@.contains(id)
            ==> b.at_hand().contains(id)
}

impl<I: Storage> Database<I> {
    /// Cuts off whatever lies behind the pages of the current generation.
    fn cut_tail(&mut self) -> (result: Result<()>)
        requires
            old(self).cache_ok(),
            old(self).publication_ok(),
        ensures
            same_memory(*old(self), *final(self)),
            final(self).cache_ok(),
            keeps(
                old(self).source.storage.contents(),
                final(self).source.storage.contents(),
                pages_from(old(self).meta().page_count),
            ),
            spoils(
                &old(self).source.storage,
                &final(self).source.storage,
                pages_from(old(self).meta().page_count),
                old(self).meta().page_count,
            ),
            old(self).meta().page_count * PAGE_SIZE <= final(self).source.storage.contents().len(),
            match result {
                Ok(_) => {
                    &&& final(self).source.storage.contents().len() == trimmed(
                        old(self).source.storage.contents().len(),
                        old(self).meta().page_count,
                    )
                    &&& final(self).source.storage.contents().len() / PAGE_SIZE as nat <= old(
                        self,
                    ).meta().page_count
                    &&& final(self).source.storage.calls() == tail_cut(*old(self))
                    &&& forall|id: u64| #[trigger]
                        final(self).pages().contains_key(id) ==> id < old(self).meta().page_count
                },
                Err(error) => blamed(error, &old(self).source.storage, &final(self).source.storage) || (error
                    is Io && mute(&old(self).source.storage)),
            },
            old(self).failures() <= final(self).failures(),
            keeps_cached(*old(self), *final(self)),
    {
        let page_count = self.publication.current.meta.page_count;
        let ghost all = pages_from(page_count);
        proof {
            lemma_spoils_same(&old(self).source.storage, &self.source.storage, all, page_count);
        }
        let length = len(&self.source.storage)?;
        if length / PAGE_SIZE_U64 > page_count {
            self.source.cache.invalidate_from(page_count);
            let outcome = cut(&mut self.source.storage, page_count);
            proof {
                let pages = old(self).pages();
                assert forall|id: u64| #[trigger] self.source.cache.entries().contains_key(id) implies (
                crate::cache::frame_of(self.source.cache.entries()[id]) matches Some(frame)
                    ==> self.pages().contains_key(id) && self.pages()[id] == frame.bytes@
                    && crate::format::page_ok(self.pages()[id])) by {
                    assert(old(self).source.cache.entries().contains_key(id));
                    assert(!all.contains(id));
                }
            }
            outcome?;
        }
        Ok(())
    }

    /// Writes pages and makes them durable, once stale pages have left the cache.
    fn store_pages(&mut self, list: &Vec<(u64, [u8; PAGE_SIZE])>, stale: &Vec<u64>) -> (result: Result<
        (),
    >)
        requires
            old(self).cache_ok(),
            forall|k: int|
                0 <= k < list@.len() ==> stale@.contains((#[trigger] list@[k]).0) || !old(
                    self,
                ).pages().contains_key(list@[k].0),
        ensures
            same_memory(*old(self), *final(self)),
            final(self).cache_ok(),
            forall|id: u64| #[trigger]
                final(self).source.cache.entries().contains_key(id) ==> !stale@.contains(id),
            keeps(
                old(self).source.storage.contents(),
                final(self).source.storage.contents(),
                listed_ids(list@),
            ),
            old(self).source.storage.contents().len() <= final(self).source.storage.contents().len(),
            forall|count: u64| #[trigger]
                listed_below(list@, count) ==> final(self).source.storage.contents().len()
                    <= old(self).source.storage.contents().len() || final(self).source.storage.contents().len()
                    <= count * PAGE_SIZE,
            match result {
                Ok(_) => {
                    &&& flushed(final(self).source.storage)
                    &&& final(self).source.storage.calls().len() > 0
                    &&& final(self).source.storage.calls().last() == Call::Sync
                    &&& wrote_pages(
                        old(self).source.storage.calls(),
                        final(self).source.storage.calls().drop_last(),
                        list@,
                    )
                    &&& (forall|j: int, k: int|
                        0 <= j < k < list@.len() ==> (#[trigger] list@[j]).0 != (
                        #[trigger] list@[k]).0) ==> holds_pages(
                        final(self).source.storage.contents(),
                        list@,
                    )
                },
                Err(error) => (forall|count: u64| #[trigger]
                    spoils(
                        &old(self).source.storage,
                        &final(self).source.storage,
                        listed_ids(list@),
                        count,
                    )) && (blamed(error, &old(self).source.storage, &final(self).source.storage) || (
                error is Corrupt && exists|k: int|
                    0 <= k < list@.len() && ((#[trigger] list@[k]).0 + 1) * PAGE_SIZE > u64::MAX)),
            },
            final(self).source.cache.limit() == old(self).source.cache.limit(),
            final(self).source.cache.counts() == old(self).source.cache.counts(),
            forall|id: u64| #[trigger]
                final(self).at_hand().contains(id) <==> old(self).at_hand().contains(id)
                    && !stale@.contains(id),
            old(self).failures() <= final(self).failures(),
    {
        let ghost ids = listed_ids(list@);
        self.source.cache.invalidate_pages(stale);
        let ghost kept = self.source.cache.entries();
        let outcome = put_pages(&mut self.source.storage, list);
        proof {
            assert forall|id: u64| #[trigger] self.source.cache.entries().contains_key(id) implies (
            crate::cache::frame_of(self.source.cache.entries()[id]) matches Some(frame)
                ==> self.pages().contains_key(id) && self.pages()[id] == frame.bytes@
                && crate::format::page_ok(self.pages()[id])) by {
                assert(old(self).source.cache.entries().contains_key(id));
                assert(!stale@.contains(id));
                if crate::cache::frame_of(self.source.cache.entries()[id]) is Some && ids.contains(id) {
                    let k = choose|k: int| 0 <= k < list@.len() && (#[trigger] list@[k]).0 == id;
                    assert(stale@.contains(list@[k].0) || !old(self).pages().contains_key(
                        list@[k].0,
                    ));
                }
            }
        }
        outcome?;
        let ghost middle = self.source.storage;
        let outcome = flush(&mut self.source.storage);
        proof {
            assert(middle.calls().push(Call::Sync).drop_last() =~= middle.calls());
            if outcome is Err {
                assert forall|count: u64| #[trigger]
                    spoils(&old(self).source.storage, &self.source.storage, ids, count) by {
                    assert(spoils(&old(self).source.storage, &middle, ids, count));
                    assert(spoils(&middle, &self.source.storage, ids, count));
                    lemma_spoils_compose(
                        &old(self).source.storage,
                        &middle,
                        &self.source.storage,
                        ids,
                        ids,
                        ids,
                        count,
                    );
                }
            }
        }
        outcome
    }

    /// Writes a metadata page, durably if commits are strict.
    fn record(&mut self, slot: u64, page: &[u8; PAGE_SIZE]) -> (result: Result<()>)
        requires
            old(self).cache_ok(),
            !old(self).source.cache.entries().contains_key(slot),
            slot < META_PAGES,
        ensures
            same_memory(*old(self), *final(self)),
            final(self).cache_ok(),
            keeps(old(self).source.storage.contents(), final(self).source.storage.contents(), set![slot]),
            old(self).source.storage.contents().len() <= final(self).source.storage.contents().len(),
            final(self).source.storage.contents().len() <= old(self).source.storage.contents().len()
                || final(self).source.storage.contents().len() <= META_PAGES * PAGE_SIZE,
            match result {
                Ok(_) => {
                    &&& final(self).pages().contains_key(slot)
                    &&& final(self).pages()[slot] == page@
                    &&& exists|recorded: Seq<Call>| #[trigger]
                        wrote(old(self).source.storage.calls(), recorded, slot * PAGE_SIZE, page@)
                            && final(self).source.storage.calls() == match old(self).durability {
                            Durability::Strict => recorded.push(Call::Sync),
                            Durability::Relaxed => recorded,
                        }
                    &&& old(self).durability == Durability::Strict ==> flushed(final(self).source.storage)
                    &&& old(self).durability == Durability::Relaxed ==> forall|count: u64|
                        #[trigger]
                        spoils(&old(self).source.storage, &final(self).source.storage, set![slot], count)
                },
                Err(error) => blamed(error, &old(self).source.storage, &final(self).source.storage) && forall|
                    count: u64,
                | #[trigger]
                    spoils(&old(self).source.storage, &final(self).source.storage, set![slot], count),
            },
            final(self).source.cache == old(self).source.cache,
            old(self).failures() <= final(self).failures(),
    {
        let ghost ids = set![slot];
        let outcome = put_page(&mut self.source.storage, slot, page);
        proof {
            assert forall|id: u64| #[trigger] self.source.cache.entries().contains_key(id) implies (
            crate::cache::frame_of(self.source.cache.entries()[id]) matches Some(frame)
                ==> self.pages().contains_key(id) && self.pages()[id] == frame.bytes@
                && crate::format::page_ok(self.pages()[id])) by {
                assert(!ids.contains(id));
            }
        }
        outcome?;
        if self.durability == Durability::Strict {
            let ghost middle = self.source.storage;
            let outcome = flush(&mut self.source.storage);
            proof {
                if outcome is Err {
                    assert forall|count: u64| #[trigger]
                        spoils(&old(self).source.storage, &self.source.storage, ids, count) by {
                        assert(spoils(&old(self).source.storage, &middle, ids, count));
                        assert(spoils(&middle, &self.source.storage, ids, count));
                        lemma_spoils_compose(
                            &old(self).source.storage,
                            &middle,
                            &self.source.storage,
                            ids,
                            ids,
                            ids,
                            count,
                        );
                    }
                }
            }
            outcome?;
        }
        Ok(())
    }
}

// ---------------------------------------------------------------------------
// The next generation
// ---------------------------------------------------------------------------

/// Whether a record is the one that a commit publishes.
pub open spec fn follows(base: Meta, txn: WriteTxn, plan: CommitPlan, meta: Meta) -> bool {
    let retired = plan.user.finished.retired@.len();
    &&& meta.generation == base.generation + 1
    &&& meta.root == plan.user.finished.root
    &&& meta.page_count == plan.next_page
    &&& meta.item_count == txn.item_count
    &&& meta.free_root == plan.built.root
    &&& meta.logical_bytes == txn.logical_bytes
    &&& meta.user_tree_pages == base.user_tree_pages - retired + plan.user.allocations@.len()
    &&& meta.free_tree_pages == plan.free_allocations@.len()
    &&& meta.free_pages == plan.entries@.dom().len()
    &&& meta.fallback_pages == if plan.changed {
        retired + plan.old_pages@.len()
    } else {
        0
    }
}

/// Whether the numbers of the next record are in range.
pub open spec fn countable(base: Meta, plan: CommitPlan) -> bool {
    let retired = plan.user.finished.retired@.len();
    &&& base.generation < u64::MAX
    &&& retired <= base.user_tree_pages
    &&& base.user_tree_pages - retired + plan.user.allocations@.len() <= u64::MAX
    &&& retired + plan.old_pages@.len() <= u64::MAX
}

/// The record of the next generation.
fn next_meta(base: Meta, txn: &WriteTxn, plan: &CommitPlan) -> (result: Result<Meta>)
    requires
        plan.entries@.dom().finite(),
    ensures
        result matches Ok(meta) ==> follows(base, *txn, *plan, meta),
        result matches Err(error) ==> error is Corrupt && !countable(base, *plan),
{
    broadcast use vstd::std_specs::btree::group_btree_axioms;

    let retired = plan.user.finished.retired.len() as u64;
    let allocated = plan.user.allocations.len() as u64;
    let old_pages = plan.old_pages.len() as u64;
    let free_tree_pages = plan.free_allocations.len() as u64;
    let free_pages = plan.entries.len() as u64;
    let generation = match base.generation.checked_add(1) {
        Some(generation) => generation,
        None => {
            return Err(corrupt("metadata generation overflow"));
        },
    };
    let user_tree_pages = match base.user_tree_pages.checked_sub(retired) {
        Some(left) => match left.checked_add(allocated) {
            Some(pages) => pages,
            None => {
                return Err(corrupt("user-tree page count overflow"));
            },
        },
        None => {
            return Err(corrupt("user-tree page count overflow"));
        },
    };
    let fallback_pages = if plan.changed {
        match retired.checked_add(old_pages) {
            Some(pages) => pages,
            None => {
                return Err(corrupt("fallback page count overflow"));
            },
        }
    } else {
        0
    };
    Ok(
        Meta {
            generation,
            root: plan.user.finished.root,
            page_count: plan.next_page,
            item_count: txn.item_count,
            free_root: plan.built.root,
            logical_bytes: txn.logical_bytes,
            user_tree_pages,
            free_tree_pages,
            free_pages,
            fallback_pages,
        },
    )
}

/// Whether a file holds the pages of a plan, and besides them what the database held but
/// for spare pages.
pub open spec fn stored_plan<I: Storage>(
    db: Database<I>,
    plan: CommitPlan,
    floor: u64,
    contents: Seq<u8>,
) -> bool {
    &&& keeps(db.source.storage.contents(), contents, db.spare(floor))
    &&& holds_pages(contents, plan.user.finished.pages@)
    &&& holds_pages(contents, plan.built.pages@)
}

/// The pages of a list stand for a map.
proof fn lemma_list_map(list: Seq<(u64, [u8; PAGE_SIZE])>) -> (map: Pages)
    requires
        forall|j: int, k: int|
            0 <= j < k < list.len() ==> (#[trigger] list[j]).0 != (#[trigger] list[k]).0,
    ensures
        listed(page_list(list), map),
        map.dom() == listed_ids(list),
{
    let items = page_list(list);
    let map = Map::new(
        |id: u64| listed_ids(list).contains(id),
        |id: u64| list[choose|k: int| 0 <= k < list.len() && (#[trigger] list[k]).0 == id].1@,
    );
    assert forall|k: int| 0 <= k < items.len() implies map.contains_key((#[trigger] items[k]).0)
        && map[items[k].0] == items[k].1 by {
        let id = list[k].0;
        assert(items[k] == (id, list[k].1@));
        let other = choose|other: int| 0 <= other < list.len() && (#[trigger] list[other]).0 == id;
        assert(list[k].0 == id);
        if other < k {
            assert(list[other].0 != list[k].0);
        } else if k < other {
            assert(list[k].0 != list[other].0);
        }
    }
    assert forall|j: int, k: int| 0 <= j < k < items.len() implies (#[trigger] items[j]).0 != (
    #[trigger] items[k]).0 by {
        assert(list[j].0 != list[k].0);
    }
    assert forall|id: u64| #[trigger] map.contains_key(id) implies exists|k: int|
        0 <= k < items.len() && (#[trigger] items[k]).0 == id by {
        let k = choose|k: int| 0 <= k < list.len() && (#[trigger] list[k]).0 == id;
        assert(items[k].0 == id);
    }
    assert(map.dom() =~= listed_ids(list));
    map
}

/// The pages of a plan make the file long enough.
proof fn lemma_plan_length<I: Storage>(
    db: Database<I>,
    plan: CommitPlan,
    tree: MutableTree,
    floor: u64,
    contents: Seq<u8>,
)
    requires
        db.inv(),
        plan.fits(db, tree, floor),
        plan_facts(plan, db, floor),
        stored_plan(db, plan, floor, contents),
        db.meta().page_count * PAGE_SIZE <= contents.len(),
    ensures
        plan.next_page * PAGE_SIZE <= contents.len(),
        plan.next_page * PAGE_SIZE <= u64::MAX,
{
    let count = db.meta().page_count;
    if plan.next_page > count {
        let last = (plan.next_page - 1) as u64;
        assert(in_snapshot(last, plan.next_page));
        if plan.user.allocations@.contains(last) {
            let list = plan.user.finished.pages@;
            assert(plan.user.allocations@.to_set().contains(last));
            assert(listed_ids(list).contains(last));
            let k = choose|k: int| 0 <= k < list.len() && (#[trigger] list[k]).0 == last;
            assert(pages_of(contents).contains_key(list[k].0));
        } else if plan.entries@.contains_key(last) {
            assert(in_snapshot(last, count));
        } else {
            assert(plan.free_allocations@.contains(last));
            assert(plan.changed) by {
                if !plan.changed {
                    assert(db.free.pages@.contains(last));
                    assert(in_snapshot(last, count));
                }
            }
            let (map, h) = choose|map: Pages, h: nat| #[trigger]
                built_on(plan.built, map, h, plan.entries@, plan.free_allocations@);
            let list = plan.built.pages@;
            assert(map.contains_key(last));
            let k = choose|k: int|
                0 <= k < page_list(list).len() && (#[trigger] page_list(list)[k]).0 == last;
            assert(list[k].0 == last);
            assert(pages_of(contents).contains_key(list[k].0));
        }
    }
}

/// A file that holds the pages of a plan holds its free tree.
proof fn lemma_planned_free<I: Storage>(
    db: Database<I>,
    plan: CommitPlan,
    tree: MutableTree,
    floor: u64,
    contents: Seq<u8>,
    meta: Meta,
)
    requires
        db.inv(),
        plan.fits(db, tree, floor),
        plan_facts(plan, db, floor),
        stored_plan(db, plan, floor, contents),
        meta.free_root == plan.built.root,
        meta.page_count == plan.next_page,
    ensures
        free_held(pages_of(contents), meta, plan.entries@, plan.free_allocations@.to_set()),
        in_snapshot(meta.free_root, meta.page_count),
{
    let pages = pages_of(contents);
    let frees = plan.free_allocations@;
    let root = meta.free_root;
    let n = meta.page_count;
    if plan.changed {
        let (map, h) = choose|map: Pages, h: nat| #[trigger]
            built_on(plan.built, map, h, plan.entries@, frees);
        let own = records(map, root, h);
        lemma_node_ascending(map, root, h);
        lemma_record_map(own);
        assert(free_tree(map, n, root, h)) by {
            assert forall|p: u64| #[trigger] free_owns(map, root, h, p) implies in_snapshot(p, n) by {
                assert(frees.contains(p));
            }
            assert forall|i: int| 0 <= i < own.len() implies in_snapshot((#[trigger] own[i]).0, n) by {
                assert(plan.entries@.contains_key(own[i].0));
            }
        }
        assert(agrees(map, pages, root, h)) by {
            let list = plan.built.pages@;
            assert forall|p: u64| #[trigger] free_owns(map, root, h, p) && map.contains_key(p) implies
                pages.contains_key(p) && pages[p] == map[p] by {
                let k = choose|k: int|
                    0 <= k < page_list(list).len() && (#[trigger] page_list(list)[k]).0 == p;
                assert(page_list(list)[k] == (list[k].0, list[k].1@));
                assert(map[page_list(list)[k].0] == page_list(list)[k].1);
                assert(pages.contains_key(list[k].0));
            }
        }
        lemma_free_carried(map, pages, n, n, root, h);
        assert(free_owns(map, root, h, root));
        assert(frees.contains(root));
        assert forall|p: u64| #[trigger] frees.to_set().contains(p) == free_owns(pages, root, h, p) by {
            assert(free_owns(map, root, h, p) == frees.contains(p));
        }
        assert(free_stands(pages, meta, plan.entries@, frees.to_set(), h));
    } else {
        let fh = choose|fh: nat| #[trigger]
            free_stands(db.pages(), db.meta(), db.entries(), db.free.pages@, fh);
        lemma_free_not_spare(db, floor);
        lemma_free_reads_same(db.pages(), pages, db.meta(), db.entries(), db.free.pages@, fh);
        assert forall|p: u64| #[trigger] frees.to_set().contains(p) == free_owns(pages, root, fh, p) by {
            assert(frees.contains(p) == db.free.pages@.contains(p));
            assert(db.free.pages@.contains(p) == free_owns(pages, root, fh, p));
        }
        assert(free_stands(pages, meta, plan.entries@, frees.to_set(), fh));
    }
}

/// Whether a transaction started from a whole generation and is well formed.
pub open spec fn ready<I: Storage>(txn: WriteTxn, db: Database<I>, h: nat) -> bool {
    &&& db.whole(h)
    &&& txn.sound(db.pages())
    &&& txn.tree.base@ == user_pages(db.pages(), db.meta(), h)
}

/// The pages of a transaction are apart from the free pages.
proof fn lemma_ready<I: Storage>(txn: WriteTxn, db: Database<I>, h: nat)
    requires
        db.inv(),
        ready(txn, db, h),
        txn.tree.page_count == db.meta().page_count,
    ensures
        unshared(txn.tree, db.pages(), db.entries()),
        base_readable(txn.tree),
{
    lemma_user_pages_inside(db.pages(), db.meta(), h);
    assert forall|x: u64| #[trigger]
        owns(
            txn.tree.env(db.pages()),
            txn.tree.root,
            txn.tree.height@,
            PageRef::Committed(x),
        ) implies !db.entries().contains_key(x) && x < txn.tree.page_count by {
        assert(txn.tree.base@.contains(x));
        assert(user_pages(db.pages(), db.meta(), h).contains(x));
    }
    assert forall|p: u64| #[trigger] txn.tree.base@.contains(p) implies in_snapshot(
        p,
        txn.tree.page_count,
    ) by {
        assert(user_pages(db.pages(), db.meta(), h).contains(p));
    }
}

/// The pages of the next user tree: those that the transaction kept, and the allocated
/// ones.
proof fn lemma_planned_users<I: Storage>(
    txn: WriteTxn,
    db: Database<I>,
    plan: CommitPlan,
    floor: u64,
    users: Set<u64>,
    h: nat,
)
    requires
        db.inv(),
        ready(txn, db, h),
        plan.fits(db, txn.tree, floor),
        plan_facts(plan, db, floor),
        forall|x: u64| #[trigger]
            users.contains(x) == (owns(
                txn.tree.env(db.pages()),
                txn.tree.root,
                txn.tree.height@,
                PageRef::Committed(x),
            ) || plan.user.allocations@.contains(x)),
    ensures
        users.finite(),
        users.len() == db.meta().user_tree_pages - plan.user.finished.retired@.len()
            + plan.user.allocations@.len(),
        plan.user.finished.retired@.len() <= db.meta().user_tree_pages,
        forall|x: u64| #[trigger]
            users.contains(x) ==> !plan.entries@.contains_key(x)
                && !plan.free_allocations@.contains(x),
        forall|x: u64| #[trigger]
            user_pages(db.pages(), db.meta(), h).contains(x) ==> users.contains(x)
                || plan.user.finished.retired@.contains(x),
{
    let base = user_pages(db.pages(), db.meta(), h);
    let retired = plan.user.finished.retired@;
    let gone = retired.to_set();
    let alloc = plan.user.allocations@;
    let added = alloc.to_set();
    let kept = base.difference(gone);
    lemma_user_pages_inside(db.pages(), db.meta(), h);
    assert forall|x: u64| #[trigger] retired.contains(x) == txn.tree.retired@.contains(x) by {
        assert(gone.contains(x) == txn.tree.retired@.contains(x));
    }
    assert forall|x: u64| #[trigger] kept.contains(x) == owns(
        txn.tree.env(db.pages()),
        txn.tree.root,
        txn.tree.height@,
        PageRef::Committed(x),
    ) by {
        assert(txn.tree.base@.contains(x) == (owns(
            txn.tree.env(db.pages()),
            txn.tree.root,
            txn.tree.height@,
            PageRef::Committed(x),
        ) || txn.tree.retired@.contains(x)));
    }
    assert(gone.subset_of(base)) by {
        assert forall|x: u64| gone.contains(x) implies #[trigger] base.contains(x) by {
            assert(txn.tree.base@.contains(x));
        }
    }
    vstd::seq_lib::seq_to_set_is_finite(alloc);
    vstd::seq_lib::seq_to_set_is_finite(retired);
    alloc.unique_seq_to_set();
    retired.unique_seq_to_set();
    vstd::set_lib::lemma_set_difference_len(base, gone);
    assert(base.intersect(gone) =~= gone);
    vstd::set_lib::lemma_set_subset_finite(base, kept);
    assert(kept.disjoint(added)) by {
        assert forall|x: u64| kept.contains(x) implies !added.contains(x) by {
            if alloc.contains(x) {
                assert(base.contains(x));
                assert(in_snapshot(x, db.meta().page_count));
            }
        }
    }
    vstd::set_lib::lemma_set_disjoint_lens(kept, added);
    assert(users =~= kept + added);
    vstd::set_lib::lemma_set_union_finite_iff(kept, added);
    assert forall|x: u64| #[trigger] users.contains(x) implies !plan.entries@.contains_key(x)
        && !plan.free_allocations@.contains(x) by {
        if kept.contains(x) {
            assert(base.contains(x));
            assert(!retired.contains(x));
            assert(!db.entries().contains_key(x) && !db.free.pages@.contains(x));
            assert(in_snapshot(x, db.meta().page_count));
        } else {
            assert(alloc.contains(x));
            if retired.contains(x) {
                assert(gone.contains(x));
                assert(base.contains(x));
            }
            if !plan.changed {
                assert(alloc.len() == 0);
            }
        }
    }
    assert forall|x: u64| #[trigger] base.contains(x) implies users.contains(x) || retired.contains(
        x,
    ) by {
        if !retired.contains(x) {
            assert(kept.contains(x));
        }
    }
}

/// A file that holds the pages of a plan holds the next generation whole.
proof fn lemma_planned_tree<I: Storage>(
    txn: WriteTxn,
    db: Database<I>,
    plan: CommitPlan,
    floor: u64,
    contents: Seq<u8>,
    meta: Meta,
    h: nat,
)
    requires
        db.inv(),
        db.floor(floor),
        ready(txn, db, h),
        txn.tree.page_count == db.meta().page_count,
        plan.fits(db, txn.tree, floor),
        plan_facts(plan, db, floor),
        drafted_tree(plan.user, txn.tree, db.pages()),
        stored_plan(db, plan, floor, contents),
        db.meta().page_count * PAGE_SIZE <= contents.len(),
        follows(db.meta(), txn, plan, meta),
    ensures
        complete(contents, meta, txn.rows(db.pages()), txn.tree.height@),
        db.sealed(h) ==> leakless(contents, meta, txn.tree.height@),
        txn.tree.branches(db.pages()) ==> tree_branches(
            pages_of(contents),
            meta,
            txn.tree.height@,
        ),
{
    let pages = pages_of(contents);
    let height = txn.tree.height@;
    let list = plan.user.finished.pages@;
    let root = plan.user.finished.root;
    let r = PageRef::Committed(root);
    let alloc = plan.user.allocations@;
    let frees = plan.free_allocations@;
    let first = plan.user.next_page;
    let env = published(written(db.pages(), page_list(list)), first);
    let map = lemma_list_map(list);
    lemma_ready(txn, db, h);
    db.lemma_guards_current(h);
    lemma_guarded_not_spare(db, floor, db.meta(), h);
    assert forall|x: u64| #[trigger]
        owns(env, r, height, PageRef::Committed(x)) && !map.contains_key(x)
            && db.pages().contains_key(x) implies pages.contains_key(x) && pages[x]
        == db.pages()[x] by {
        if alloc.contains(x) {
            assert(alloc.to_set().contains(x));
            assert(listed_ids(list).contains(x));
            assert(map.dom().contains(x));
        } else {
            assert(owns(txn.tree.env(db.pages()), txn.tree.root, height, PageRef::Committed(x)));
            assert(txn.tree.base@.contains(x));
            assert(user_pages(db.pages(), db.meta(), h).contains(x));
        }
    }
    lemma_tree_stored(db.pages(), list, map, contents, first, root, height);
    lemma_tree_carried(pages, pages, first, plan.next_page, root, height);
    lemma_plan_length(db, plan, txn.tree, floor, contents);
    lemma_planned_free(db, plan, txn.tree, floor, contents, meta);
    let users = user_pages(pages, meta, height);
    assert forall|x: u64| #[trigger] users.contains(x) == (owns(
        txn.tree.env(db.pages()),
        txn.tree.root,
        height,
        PageRef::Committed(x),
    ) || alloc.contains(x)) by {
        assert(owns(published(pages, meta.page_count), r, height, PageRef::Committed(x)) == owns(
            published(pages, first),
            r,
            height,
            PageRef::Committed(x),
        ));
        assert(owns(published(pages, first), r, height, PageRef::Committed(x)) == owns(
            env,
            r,
            height,
            PageRef::Committed(x),
        ));
    }
    lemma_planned_users(txn, db, plan, floor, users, h);
    let fh = choose|fh: nat| #[trigger]
        free_stands(pages, meta, plan.entries@, frees.to_set(), fh);
    assert(free_sound(pages, meta, fh)) by {
        frees.unique_seq_to_set();
        assert(Set::new(|p: u64| free_owns(pages, meta.free_root, fh, p)) =~= frees.to_set());
        assert forall|p: u64| #[trigger]
            record_map(records(pages, meta.free_root, fh)).contains_key(p) implies !free_owns(
            pages,
            meta.free_root,
            fh,
            p,
        ) && record_map(records(pages, meta.free_root, fh))[p] <= meta.generation by {
            assert(plan.entries@.contains_key(p));
            assert(frees.to_set().contains(p) == free_owns(pages, meta.free_root, fh, p));
        }
    }
    assert(free_apart(pages, meta, height, fh)) by {
        assert forall|p: u64| #[trigger] users.contains(p) implies !record_map(
            records(pages, meta.free_root, fh),
        ).contains_key(p) && !free_owns(pages, meta.free_root, fh, p) by {
            assert(frees.to_set().contains(p) == free_owns(pages, meta.free_root, fh, p));
        }
    }
    assert(in_snapshot(meta.root, meta.page_count));
    assert(plan.free_allocations@.len() >= 1) by {
        if !plan.changed {
            assert(db.free.pages@.len() == db.meta().free_tree_pages);
        }
    }
    crate::recovery::lemma_users_some(pages, meta, height);
    assert(complete(contents, meta, txn.rows(db.pages()), height));
    if db.sealed(h) {
        assert forall|p: u64| #[trigger] in_snapshot(p, meta.page_count) implies users.contains(p)
            || record_map(records(pages, meta.free_root, fh)).contains_key(p) || free_owns(
            pages,
            meta.free_root,
            fh,
            p,
        ) by {
            assert(frees.to_set().contains(p) == free_owns(pages, meta.free_root, fh, p));
            if p < db.meta().page_count {
                assert(in_snapshot(p, db.meta().page_count));
            }
        }
        assert(covered(pages, meta, height, fh));
    }
}

/// A set of numbers below a bound is no larger than the bound.
proof fn lemma_bounded_len(pages: Set<u64>, bound: u64)
    requires
        forall|p: u64| #[trigger] pages.contains(p) ==> p < bound,
    ensures
        pages.finite(),
        pages.len() <= bound,
{
    let all = Set::new(|p: u64| 0 <= p < bound);
    crate::open::lemma_range_len(all, 0, bound);
    assert(pages.subset_of(all));
    vstd::set_lib::lemma_set_subset_finite(all, pages);
    vstd::set_lib::lemma_len_subset(pages, all);
}

/// The numbers of the next record are in range.
proof fn lemma_countable<I: Storage>(
    txn: WriteTxn,
    db: Database<I>,
    plan: CommitPlan,
    floor: u64,
    h: nat,
)
    requires
        db.inv(),
        ready(txn, db, h),
        txn.tree.page_count == db.meta().page_count,
        plan.fits(db, txn.tree, floor),
        plan_facts(plan, db, floor),
        drafted_tree(plan.user, txn.tree, db.pages()),
        db.meta().generation < u64::MAX,
    ensures
        countable(db.meta(), plan),
{
    let count = db.meta().page_count;
    let env = txn.tree.env(db.pages());
    let r = txn.tree.root;
    let height = txn.tree.height@;
    let alloc = plan.user.allocations@;
    let retired = plan.user.finished.retired@;
    let users = Set::new(
        |x: u64| owns(env, r, height, PageRef::Committed(x)) || alloc.contains(x),
    );
    lemma_ready(txn, db, h);
    lemma_planned_users(txn, db, plan, floor, users, h);
    lemma_bounded_len(users, plan.user.next_page);
    retired.unique_seq_to_set();
    assert forall|p: u64| #[trigger] retired.to_set().contains(p) implies p < count by {
        let k = choose|k: int| 0 <= k < retired.len() && retired[k] == p;
        assert(in_snapshot(retired[k], count));
    }
    lemma_bounded_len(retired.to_set(), count);
    assert forall|p: u64| #[trigger] db.free.pages@.contains(p) implies p < count by {
        assert(in_snapshot(p, count));
    }
    lemma_bounded_len(db.free.pages@, count);
}

/// Whether a database in memory has moved on to the generation of a plan.
pub open spec fn installed<I: Storage>(
    a: Database<I>,
    b: Database<I>,
    plan: CommitPlan,
    meta: Meta,
) -> bool {
    &&& b.publication.current == (Published { meta, slot: a.other_slot() })
    &&& b.publication.slots@ == a.publication.slots@.update(a.other_slot() as int, Some(meta))
    &&& b.snapshots == a.snapshots
    &&& b.durability == a.durability
    &&& b.free.entries@ == plan.entries@
    &&& b.free.pages@ == plan.free_allocations@.to_set()
    &&& counts_for(b.entries(), b.free.generation_counts@)
}

/// A database that has moved on is in order, and every generation that it still retains
/// reads the same.
proof fn lemma_installed<I: Storage>(
    txn: WriteTxn,
    a: Database<I>,
    b: Database<I>,
    plan: CommitPlan,
    floor: u64,
    meta: Meta,
)
    requires
        a.inv(),
        a.floor(floor),
        plan.fits(a, txn.tree, floor),
        plan_facts(plan, a, floor),
        follows(a.meta(), txn, plan, meta),
        installed(a, b, plan, meta),
        b.cache_ok(),
        stored_plan(a, plan, floor, b.source.storage.contents()),
        a.meta().page_count * PAGE_SIZE <= b.source.storage.contents().len(),
    ensures
        b.publication_ok(),
        b.free_ok(),
        b.readers_ok(),
        forall|m: Meta, h: nat| #[trigger]
            a.guards(m, h) && b.retains(m.generation) ==> b.guards(m, h) && reads_same(a, b, m, h),
{
    let contents = b.source.storage.contents();
    let frees = plan.free_allocations@;
    lemma_plan_length(a, plan, txn.tree, floor, contents);
    lemma_planned_free(a, plan, txn.tree, floor, contents, meta);
    let slot = a.publication.current.slot as int;
    let other = a.other_slot() as int;
    assert(frees.len() >= 1) by {
        if !plan.changed {
            assert(a.free.pages@.len() == a.meta().free_tree_pages);
        }
    }
    assert(b.publication_ok()) by {
        assert forall|k: int| 0 <= k < 2 implies ((#[trigger] b.publication.slots@[k]) matches Some(m)
            ==> m.generation <= meta.generation) by {
            if k != other {
                assert(b.publication.slots@[k] == a.publication.slots@[k]);
            }
        }
    }
    frees.unique_seq_to_set();
    assert(b.free_ok()) by {
        assert forall|p: u64| #[trigger] b.entries().contains_key(p) implies in_snapshot(
            p,
            meta.page_count,
        ) && b.entries()[p] <= meta.generation && !b.free.pages@.contains(p) by {
            assert(plan.entries@.contains_key(p));
        }
        assert forall|p: u64| #[trigger] b.free.pages@.contains(p) implies in_snapshot(
            p,
            meta.page_count,
        ) by {
            assert(frees.contains(p));
            if !plan.changed {
                assert(a.free.pages@.contains(p));
            }
        }
    }
    assert forall|m: Meta, h: nat| #[trigger] a.guards(m, h) && b.retains(m.generation) implies b.guards(
        m,
        h,
    ) && reads_same(a, b, m, h) by {
        lemma_guarded_not_spare(a, floor, m, h);
        lemma_reads_same(a, b, m, h, a.spare(floor));
        assert forall|p: u64| #[trigger]
            user_pages(b.pages(), m, h).contains(p) && b.entries().contains_key(p) implies b.entries()[p]
            >= m.generation by {
            assert(user_pages(a.pages(), m, h).contains(p));
            assert(plan.entries@.contains_key(p));
        }
    }
}

// ---------------------------------------------------------------------------
// The pages to write
// ---------------------------------------------------------------------------

/// Whether no two pages of a list have the same identifier.
pub open spec fn distinct(list: Seq<(u64, [u8; PAGE_SIZE])>) -> bool {
    forall|j: int, k: int|
        0 <= j < k < list.len() ==> (#[trigger] list[j]).0 != (#[trigger] list[k]).0
}

/// Whether a list holds the pages of two lists.
pub open spec fn merges(
    first: Seq<(u64, [u8; PAGE_SIZE])>,
    second: Seq<(u64, [u8; PAGE_SIZE])>,
    all: Seq<(u64, [u8; PAGE_SIZE])>,
) -> bool {
    &&& listed_ids(all) == listed_ids(first).union(listed_ids(second))
    &&& forall|contents: Seq<u8>| #[trigger]
        holds_pages(contents, all) ==> holds_pages(contents, first) && holds_pages(contents, second)
    &&& distinct(first) && distinct(second) && listed_ids(first).disjoint(listed_ids(second))
        ==> distinct(all)
}

/// Where a page of a list stands once the list is rearranged.
proof fn lemma_placed(
    before: Seq<(u64, [u8; PAGE_SIZE])>,
    after: Seq<(u64, [u8; PAGE_SIZE])>,
    order: Seq<int>,
    k: int,
) -> (i: int)
    requires
        rearranged(before, after, order),
        0 <= k < before.len(),
    ensures
        0 <= i < after.len(),
        after[i] == before[k],
{
    assert(order.contains(k));
    let i = choose|i: int| 0 <= i < order.len() && order[i] == k;
    assert(after[i] == before[order[i]]);
    i
}

/// Sorting two lists of pages together merges them.
proof fn lemma_merges(
    first: Seq<(u64, [u8; PAGE_SIZE])>,
    second: Seq<(u64, [u8; PAGE_SIZE])>,
    all: Seq<(u64, [u8; PAGE_SIZE])>,
    order: Seq<int>,
)
    requires
        rearranged(first + second, all, order),
    ensures
        merges(first, second, all),
{
    let both = first + second;
    assert forall|id: u64| #[trigger] listed_ids(all).contains(id) == listed_ids(first).union(
        listed_ids(second),
    ).contains(id) by {
        if listed_ids(all).contains(id) {
            let i = choose|i: int| 0 <= i < all.len() && (#[trigger] all[i]).0 == id;
            let k = order[i];
            assert(all[i] == both[k]);
            if k < first.len() {
                assert(first[k].0 == id);
            } else {
                assert(second[k - first.len()].0 == id);
            }
        }
        if listed_ids(first).contains(id) {
            let k = choose|k: int| 0 <= k < first.len() && (#[trigger] first[k]).0 == id;
            assert(both[k] == first[k]);
            let i = lemma_placed(both, all, order, k);
            assert(all[i].0 == id);
        }
        if listed_ids(second).contains(id) {
            let k = choose|k: int| 0 <= k < second.len() && (#[trigger] second[k]).0 == id;
            assert(both[first.len() + k] == second[k]);
            let i = lemma_placed(both, all, order, first.len() + k);
            assert(all[i].0 == id);
        }
    }
    assert(listed_ids(all) =~= listed_ids(first).union(listed_ids(second)));
    assert forall|contents: Seq<u8>| #[trigger] holds_pages(contents, all) implies holds_pages(
        contents,
        first,
    ) && holds_pages(contents, second) by {
        assert forall|k: int| 0 <= k < first.len() implies pages_of(contents).contains_key(
            (#[trigger] first[k]).0,
        ) && pages_of(contents)[first[k].0] == first[k].1@ by {
            assert(both[k] == first[k]);
            let i = lemma_placed(both, all, order, k);
            assert(pages_of(contents).contains_key(all[i].0));
        }
        assert forall|k: int| 0 <= k < second.len() implies pages_of(contents).contains_key(
            (#[trigger] second[k]).0,
        ) && pages_of(contents)[second[k].0] == second[k].1@ by {
            assert(both[first.len() + k] == second[k]);
            let i = lemma_placed(both, all, order, first.len() + k);
            assert(pages_of(contents).contains_key(all[i].0));
        }
    }
    if distinct(first) && distinct(second) && listed_ids(first).disjoint(listed_ids(second)) {
        assert forall|a: int, b: int| 0 <= a < both.len() && 0 <= b < both.len() && a != b implies
            (#[trigger] both[a]).0 != (#[trigger] both[b]).0 by {
            let n = first.len();
            if a < n && b < n {
                if a < b {
                    assert(first[a].0 != first[b].0);
                } else {
                    assert(first[b].0 != first[a].0);
                }
            } else if a >= n && b >= n {
                if a < b {
                    assert(second[a - n].0 != second[b - n].0);
                } else {
                    assert(second[b - n].0 != second[a - n].0);
                }
            } else if a < n {
                assert(listed_ids(first).contains(first[a].0));
                assert(listed_ids(second).contains(second[b - n].0));
            } else {
                assert(listed_ids(first).contains(first[b].0));
                assert(listed_ids(second).contains(second[a - n].0));
            }
        }
        assert forall|j: int, k: int| 0 <= j < k < all.len() implies (#[trigger] all[j]).0 != (
        #[trigger] all[k]).0 by {
            assert(order[j] != order[k]);
            assert(all[j] == both[order[j]] && all[k] == both[order[k]]);
        }
    }
}

/// Puts two lists of pages in one, in increasing order of the identifiers.
fn merge_pages(
    first: Vec<(u64, [u8; PAGE_SIZE])>,
    second: Vec<(u64, [u8; PAGE_SIZE])>,
) -> (all: Vec<(u64, [u8; PAGE_SIZE])>)
    ensures
        merges(first@, second@, all@),
        forall|j: int, k: int|
            0 <= j < k < all@.len() ==> (#[trigger] all@[j]).0 <= (#[trigger] all@[k]).0,
{
    let ghost left = first@;
    let ghost right = second@;
    let mut all = first;
    let mut more = second;
    all.append(&mut more);
    assert(all@ =~= left + right);
    let ghost both = all@;
    sort_by_first(&mut all);
    proof {
        let order = choose|order: Seq<int>| rearranged(both, all@, order);
        lemma_merges(left, right, all@, order);
    }
    all
}

/// The pages inside the file that a plan takes were free, or belong to the free tree.
proof fn lemma_taken_are_free<I: Storage>(
    db: Database<I>,
    plan: CommitPlan,
    tree: MutableTree,
    floor: u64,
)
    requires
        db.inv(),
        db.floor(floor),
        plan.fits(db, tree, floor),
    ensures
        forall|p: u64|
            p < db.meta().page_count && (#[trigger] plan.user.allocations@.contains(p)
                || plan.free_allocations@.contains(p)) ==> db.entries().contains_key(p)
                || db.free.pages@.contains(p),
        forall|p: u64|
            p < db.meta().page_count && #[trigger] plan.free_allocations@.contains(p)
                ==> db.entries().contains_key(p) || db.free.pages@.contains(p),
{
    let entries = db.entries();
    let generation = db.meta().generation;
    let slot = db.publication.current.slot as int;
    assert(db.publication.slots@[slot] == Some(db.meta()));
    assert(db.retains(generation));
    lemma_floor_below(db, floor, generation);
    let users = plan.user.allocations@;
    let frees = plan.free_allocations@;
    assert forall|p: u64|
        p < db.meta().page_count && #[trigger] frees.contains(p) implies entries.contains_key(p)
        || db.free.pages@.contains(p) by {
        let k = choose|k: int| 0 <= k < frees.len() && frees[k] == p;
        if plan.changed {
            let left = plan.left(entries);
            let retired = plan.user.finished.retired@;
            assert(left.dom() =~= entries.dom().difference(users.to_set()));
            lemma_with_pages(left, retired, generation);
            lemma_with_pages(
                with_pages(left, retired, generation),
                plan.old_pages@,
                generation,
            );
            let middle = with_pages(left, retired, generation);
            let offered = plan.offered(entries, generation);
            assert(offered.contains_key(frees[k]));
            assert(offered.contains_key(p) == (middle.contains_key(p) || plan.old_pages@.contains(
                p,
            )));
            assert(middle.contains_key(p) == (left.contains_key(p) || retired.contains(p)));
        } else {
            assert(plan.old_pages@.to_set().contains(p));
        }
    }
    assert forall|p: u64|
        p < db.meta().page_count && (#[trigger] users.contains(p) || frees.contains(p)) implies
        entries.contains_key(p) || db.free.pages@.contains(p) by {
        if users.contains(p) {
            let k = choose|k: int| 0 <= k < users.len() && users[k] == p;
            assert(entries.contains_key(users[k]));
        }
    }
}

/// Dropping the pages that a plan takes from the cache drops no page in use.
proof fn lemma_stale_cached<I: Storage>(
    a: Database<I>,
    b: Database<I>,
    plan: CommitPlan,
    tree: MutableTree,
    floor: u64,
    stale: Seq<u64>,
)
    requires
        a.inv(),
        a.floor(floor),
        plan.fits(a, tree, floor),
        forall|p: u64| #[trigger]
            stale.contains(p) == (p == a.other_slot() || ((plan.user.allocations@.contains(p)
                || plan.free_allocations@.contains(p)) && p < a.meta().page_count)),
        b.source.cache.limit() == a.source.cache.limit(),
        b.source.cache.counts() == a.source.cache.counts(),
        forall|id: u64| #[trigger]
            b.at_hand().contains(id) <==> a.at_hand().contains(id) && !stale.contains(id),
    ensures
        keeps_cached(a, b),
{
    lemma_taken_are_free(a, plan, tree, floor);
    assert forall|id: u64|
        META_PAGES <= id < a.meta().page_count && #[trigger] a.at_hand().contains(id)
            && !a.entries().contains_key(id) && !a.free.pages@.contains(id) implies b.at_hand().contains(
        id) by {
        assert(stale.contains(id) == (id == a.other_slot() || ((plan.user.allocations@.contains(id)
            || plan.free_allocations@.contains(id)) && id < a.meta().page_count)));
    }
}

/// The pages whose frames in the cache a commit makes stale: those inside the file that it
/// allocates, and the metadata page.
fn stale_pages(user: &Vec<u64>, free: &Vec<u64>, page_count: u64, slot: u64) -> (stale: Vec<u64>)
    ensures
        forall|p: u64| #[trigger]
            stale@.contains(p) == (p == slot || ((user@.contains(p) || free@.contains(p)) && p
                < page_count)),
{
    let mut stale: Vec<u64> = Vec::new();
    stale.push(slot);
    assert forall|p: u64| #[trigger] stale@.contains(p) == (p == slot) by {
        if p == slot {
            assert(stale@[0] == slot);
        }
    }
    let mut index: usize = 0;
    assert(user@.take(0) =~= Seq::<u64>::empty());
    while index < user.len()
        invariant
            index <= user@.len(),
            forall|p: u64| #[trigger]
                stale@.contains(p) == (p == slot || (user@.take(index as int).contains(p) && p
                    < page_count)),
        decreases user@.len() - index,
    {
        let page = user[index];
        let ghost before = stale@;
        if page < page_count {
            stale.push(page);
        }
        proof {
            lemma_listed_step(user@, index as int, before, stale@, page < page_count);
        }
        index = index + 1;
    }
    assert(user@.take(index as int) =~= user@);
    let mut at: usize = 0;
    assert(free@.take(0) =~= Seq::<u64>::empty());
    while at < free.len()
        invariant
            at <= free@.len(),
            forall|p: u64| #[trigger]
                stale@.contains(p) == (p == slot || ((user@.contains(p) || free@.take(
                    at as int,
                ).contains(p)) && p < page_count)),
        decreases free@.len() - at,
    {
        let page = free[at];
        let ghost before = stale@;
        if page < page_count {
            stale.push(page);
        }
        proof {
            lemma_listed_step(free@, at as int, before, stale@, page < page_count);
        }
        at = at + 1;
    }
    assert(free@.take(at as int) =~= free@);
    stale
}

/// One more page of a list, and maybe of another.
proof fn lemma_listed_step(list: Seq<u64>, k: int, before: Seq<u64>, after: Seq<u64>, taken: bool)
    requires
        0 <= k < list.len(),
        after == if taken {
            before.push(list[k])
        } else {
            before
        },
    ensures
        forall|p: u64| #[trigger]
            after.contains(p) == (before.contains(p) || (taken && p == list[k])),
        forall|p: u64| #[trigger]
            list.take(k + 1).contains(p) == (list.take(k).contains(p) || p == list[k]),
{
    assert forall|p: u64| #[trigger] after.contains(p) == (before.contains(p) || (taken && p
        == list[k])) by {
        if after.contains(p) {
            let i = choose|i: int| 0 <= i < after.len() && after[i] == p;
            if i < before.len() {
                assert(before[i] == p);
            }
        }
        if before.contains(p) {
            let i = choose|i: int| 0 <= i < before.len() && before[i] == p;
            assert(after[i] == p);
        }
        if taken && p == list[k] {
            assert(after[before.len() as int] == p);
        }
    }
    assert forall|p: u64| #[trigger] list.take(k + 1).contains(p) == (list.take(k).contains(p) || p
        == list[k]) by {
        let shorter = list.take(k);
        let longer = list.take(k + 1);
        if longer.contains(p) {
            let i = choose|i: int| 0 <= i < longer.len() && longer[i] == p;
            if i < k {
                assert(shorter[i] == p);
            }
        }
        if shorter.contains(p) {
            let i = choose|i: int| 0 <= i < shorter.len() && shorter[i] == p;
            assert(longer[i] == p);
        }
        if p == list[k] {
            assert(longer[k] == p);
        }
    }
}

// ---------------------------------------------------------------------------
// What a commit does
// ---------------------------------------------------------------------------

impl<I: Storage> Database<I> {
    /// The spare pages behind the metadata.
    pub open spec fn writable(&self, floor: u64) -> Set<u64> {
        self.spare(floor).remove(self.other_slot())
    }
}

/// Whether an image that a crash may leave behind has at most spare pages changed, and
/// neither metadata page.
pub open spec fn unpublished<I: Storage>(db: Database<I>, image: Seq<u8>) -> bool {
    exists|base: Seq<u8>, floor: u64| #[trigger]
        db.source.storage.survives(base) && #[trigger] db.floor(floor) && keeps(
            base,
            image,
            db.writable(floor),
        ) && lasts(base, image, db.meta().page_count)
}

/// Whether an image holds both the generation before a commit and the next one whole, and
/// still has the metadata page of the former.
pub open spec fn staged<I: Storage>(
    db: Database<I>,
    txn: WriteTxn,
    image: Seq<u8>,
    meta: Meta,
    h: nat,
) -> bool {
    let slot = db.publication.current.slot;
    &&& meta.generation == db.meta().generation + 1
    &&& record_at(image, slot) == record_at(db.source.storage.contents(), slot)
    &&& complete(image, db.meta(), rows_at(db.pages(), db.meta(), h), h)
    &&& complete(image, meta, txn.rows(db.pages()), txn.tree.height@)
    &&& tree_branches(db.pages(), db.meta(), h) ==> tree_branches(pages_of(image), db.meta(), h)
    &&& txn.tree.branches(db.pages()) ==> tree_branches(pages_of(image), meta, txn.tree.height@)
}

/// Whether an image may be left behind by a crash in the middle of a commit.
pub open spec fn survivor<I: Storage>(db: Database<I>, txn: WriteTxn, image: Seq<u8>, h: nat) -> bool {
    unpublished(db, image) || exists|meta: Meta| #[trigger] staged(db, txn, image, meta, h)
}

/// Whether two states of the storage agree but for pages that no retained generation uses
/// and the metadata page that does not record the current generation.
pub open spec fn spares<I: Storage>(a: Database<I>, b: Database<I>) -> bool {
    exists|floor: u64| #[trigger]
        a.floor(floor) && keeps(a.source.storage.contents(), b.source.storage.contents(), a.spare(floor))
}

/// Whether a plan takes a page for every changed node of the tree of a transaction and as many
/// for its new values as they fill, and gives the file no more pages than these and the free
/// tree need.
pub open spec fn sized<I: Storage>(db: Database<I>, txn: WriteTxn, plan: CommitPlan) -> bool {
    forall|h: nat| #[trigger]
        ready(txn, db, h) ==> {
            &&& plan.user.allocations@.len() == user_demand(txn.tree, db.pages())
            &&& plan.next_page == pages_after(db, txn.tree)
        }
}

/// A plan takes as many pages as the transaction needs.
proof fn lemma_sized<I: Storage>(txn: WriteTxn, db: Database<I>, plan: CommitPlan, floor: u64)
    requires
        db.inv(),
        db.floor(floor),
        txn.tree.page_count == db.meta().page_count,
        plan.fits(db, txn.tree, floor),
        plan_facts(plan, db, floor),
        txn.tree.sound(db.pages()) && unshared(txn.tree, db.pages(), db.entries())
            ==> plan.user.allocations@.len() == user_demand(txn.tree, db.pages()),
    ensures
        sized(db, txn, plan),
{
    assert forall|h: nat| #[trigger] ready(txn, db, h) implies plan.user.allocations@.len()
        == user_demand(txn.tree, db.pages()) && plan.next_page == pages_after(db, txn.tree) by {
        lemma_ready(txn, db, h);
        let slot = db.publication.current.slot as int;
        assert(db.publication.slots@[slot] == Some(db.meta()));
        assert(db.retains(db.meta().generation));
        lemma_floor_below(db, floor, db.meta().generation);
        assert forall|p: u64| #[trigger] txn.tree.retired@.contains(p) implies !db.entries().contains_key(
            p,
        ) && !db.free.pages@.contains(p) by {
            assert(txn.tree.base@.contains(p));
            assert(user_pages(db.pages(), db.meta(), h).contains(p));
        }
        lemma_pages_after(plan, db, txn.tree, floor);
    }
}

/// Whether a commit follows a plan: free pages that no retained generation uses are taken
/// before the file grows, the pages that it leaves behind are free from now on, the storage is
/// asked for no more than the plan needs, and the file ends with the last page.
pub open spec fn follows_plan<I: Storage>(
    a: Database<I>,
    b: Database<I>,
    txn: WriteTxn,
    plan: CommitPlan,
    floor: u64,
) -> bool {
    let length = trimmed(a.source.storage.contents().len(), a.meta().page_count);
    &&& a.floor(floor)
    &&& plan.fits(a, txn.tree, floor)
    &&& sized(a, txn, plan)
    &&& follows(a.meta(), txn, plan, b.meta())
    &&& b.entries() == plan.entries@
    &&& b.free.pages@ == plan.free_allocations@.to_set()
    &&& keeps(a.source.storage.contents(), b.source.storage.contents(), a.spare(floor))
    &&& holds_pages(b.source.storage.contents(), plan.user.finished.pages@)
    &&& holds_pages(b.source.storage.contents(), plan.built.pages@)
    &&& exists|list: Seq<(u64, [u8; PAGE_SIZE])>| #[trigger]
        merges(plan.user.finished.pages@, plan.built.pages@, list) && carried_out(a, b, list)
    &&& b.source.storage.contents().len() == if length <= b.meta().page_count * PAGE_SIZE {
        b.meta().page_count as nat * PAGE_SIZE as nat
    } else {
        length
    }
}

/// Whether a commit follows some plan.
pub open spec fn planned<I: Storage>(a: Database<I>, b: Database<I>, txn: WriteTxn) -> bool {
    exists|plan: CommitPlan, floor: u64| #[trigger] follows_plan(a, b, txn, plan, floor)
}

/// Whether a failed commit has left a database as it was: in order, with every readable
/// generation.
pub open spec fn stays<I: Storage>(a: Database<I>, b: Database<I>) -> bool {
    &&& b.inv()
    &&& same_memory(a, b)
    &&& record_at(b.source.storage.contents(), a.publication.current.slot) == record_at(
        a.source.storage.contents(),
        a.publication.current.slot,
    )
    &&& forall|h: nat| #[trigger]
        a.whole(h) ==> b.whole(h) && reads_same(a, b, a.meta(), h) && (a.sealed(h) ==> b.sealed(h))
    &&& forall|m: Meta, h: nat| #[trigger]
        a.guards(m, h) ==> b.guards(m, h) && reads_same(a, b, m, h)
}

/// Whether a database has moved on to the generation of a transaction: the other metadata
/// page records it and the former still records what it did, and every generation that is
/// still retained reads the same.
pub open spec fn advanced<I: Storage>(a: Database<I>, b: Database<I>, txn: WriteTxn) -> bool {
    &&& b.inv()
    &&& encodes(b.pages()[a.other_slot()], b.meta())
    &&& b.meta().user_tree_pages != 0 ==> b.recorded()
    &&& record_at(b.source.storage.contents(), a.publication.current.slot) == record_at(
        a.source.storage.contents(),
        a.publication.current.slot,
    )
    &&& b.meta().generation == a.meta().generation + 1
    &&& b.meta().item_count == txn.item_count
    &&& b.meta().logical_bytes == txn.logical_bytes
    &&& b.meta().page_count >= a.meta().page_count
    &&& b.publication.current.slot == a.other_slot()
    &&& b.publication.slots@ == a.publication.slots@.update(a.other_slot() as int, Some(b.meta()))
    &&& b.snapshots == a.snapshots
    &&& b.durability == a.durability
    &&& a.durability == Durability::Strict ==> flushed(b.source.storage)
    &&& forall|m: Meta, h: nat| #[trigger]
        a.guards(m, h) && b.retains(m.generation) ==> b.guards(m, h) && reads_same(a, b, m, h)
}

/// Whether a database holds what a transaction held, and leaks no page if none was leaked
/// before.
pub open spec fn holds_txn<I: Storage>(a: Database<I>, b: Database<I>, txn: WriteTxn, h: nat) -> bool {
    let height = txn.tree.height@;
    &&& b.whole(height)
    &&& b.recorded()
    &&& rows_at(b.pages(), b.meta(), height) == txn.rows(a.pages())
    &&& b.contents(height) == txn.contents(a.pages())
    &&& a.sealed(h) ==> b.sealed(height)
    &&& txn.tree.branches(a.pages()) ==> tree_branches(b.pages(), b.meta(), height)
}

/// Changing spare pages leaves a database as it was.
proof fn lemma_stays<I: Storage>(a: Database<I>, b: Database<I>, floor: u64)
    requires
        a.inv(),
        a.floor(floor),
        same_memory(a, b),
        b.cache_ok(),
        a.meta().page_count * PAGE_SIZE <= b.source.storage.contents().len(),
        keeps(a.source.storage.contents(), b.source.storage.contents(), a.spare(floor)),
    ensures
        stays(a, b),
{
    lemma_spare(a, b, floor);
    lemma_slot_kept(a, b.source.storage.contents(), floor);
}

/// The metadata page of the current generation is not spare.
pub proof fn lemma_slot_kept<I: Storage>(db: Database<I>, contents: Seq<u8>, floor: u64)
    requires
        db.inv(),
        keeps(db.source.storage.contents(), contents, db.spare(floor)),
    ensures
        record_at(contents, db.publication.current.slot) == record_at(
            db.source.storage.contents(),
            db.publication.current.slot,
        ),
{
    let slot = db.publication.current.slot;
    assert(db.pages().contains_key(slot));
    assert(!db.spare(floor).contains(slot)) by {
        if db.entries().contains_key(slot) {
            assert(in_snapshot(slot, db.meta().page_count));
        }
    }
    reveal(record_at);
}

/// The generation before a commit stays whole where only spare pages change.
pub proof fn lemma_base_complete<I: Storage>(db: Database<I>, contents: Seq<u8>, floor: u64, h: nat)
    requires
        db.inv(),
        db.floor(floor),
        db.whole(h),
        keeps(db.source.storage.contents(), contents, db.spare(floor)),
        db.meta().page_count * PAGE_SIZE <= contents.len(),
    ensures
        complete(contents, db.meta(), rows_at(db.pages(), db.meta(), h), h),
        tree_branches(db.pages(), db.meta(), h) ==> tree_branches(
            pages_of(contents),
            db.meta(),
            h,
        ),
{
    let pages = db.pages();
    let meta = db.meta();
    law_whole_is_complete(db, h);
    let fh = choose|fh: nat| #[trigger] free_apart(pages, meta, h, fh);
    let known = choose|known: nat| #[trigger]
        free_stands(pages, meta, db.entries(), db.free.pages@, known);
    lemma_free_height(pages, meta.free_root, fh, known);
    db.lemma_guards_current(h);
    lemma_guarded_not_spare(db, floor, meta, h);
    lemma_free_not_spare(db, floor);
    assert forall|p: u64| #[trigger] vital_pages(pages, meta, h, fh).contains(p) implies !db.spare(
        floor,
    ).contains(p) by {
        if !user_pages(pages, meta, h).contains(p) {
            assert(db.free.pages@.contains(p) == free_owns(pages, meta.free_root, known, p));
        }
    }
    lemma_complete_carried(
        db.source.storage.contents(),
        contents,
        meta,
        rows_at(pages, meta, h),
        h,
        fh,
        db.spare(floor),
    );
}

/// A file that holds the pages of a plan holds both generations.
proof fn lemma_staged<I: Storage>(
    txn: WriteTxn,
    db: Database<I>,
    plan: CommitPlan,
    floor: u64,
    image: Seq<u8>,
    meta: Meta,
    h: nat,
)
    requires
        db.inv(),
        db.floor(floor),
        ready(txn, db, h),
        txn.tree.page_count == db.meta().page_count,
        plan.fits(db, txn.tree, floor),
        plan_facts(plan, db, floor),
        drafted_tree(plan.user, txn.tree, db.pages()),
        stored_plan(db, plan, floor, image),
        db.meta().page_count * PAGE_SIZE <= image.len(),
        follows(db.meta(), txn, plan, meta),
    ensures
        staged(db, txn, image, meta, h),
        db.sealed(h) ==> leakless(image, meta, txn.tree.height@),
{
    lemma_planned_tree(txn, db, plan, floor, image, meta, h);
    lemma_base_complete(db, image, floor, h);
    lemma_slot_kept(db, image, floor);
}

/// Overwriting the other metadata page leaves the pages of a plan as they are.
proof fn lemma_stored_plan_kept<I: Storage>(
    db: Database<I>,
    plan: CommitPlan,
    tree: MutableTree,
    floor: u64,
    before: Seq<u8>,
    after: Seq<u8>,
)
    requires
        db.inv(),
        plan.fits(db, tree, floor),
        plan_facts(plan, db, floor),
        stored_plan(db, plan, floor, before),
        keeps(before, after, set![db.other_slot()]),
    ensures
        stored_plan(db, plan, floor, after),
{
    let slot = db.other_slot();
    let ids = db.spare(floor);
    assert(keeps(db.source.storage.contents(), after, ids)) by {
        assert forall|id: u64| #[trigger]
            db.pages().contains_key(id) && !ids.contains(id) implies pages_of(after).contains_key(id)
            && pages_of(after)[id] == db.pages()[id] by {
            assert(pages_of(before).contains_key(id));
            assert(id != slot);
        }
    }
    lemma_planned_ids(db, plan, tree, floor);
    assert forall|list: Seq<(u64, [u8; PAGE_SIZE])>| #[trigger]
        holds_pages(before, list) && !listed_ids(list).contains(slot) implies holds_pages(
        after,
        list,
    ) by {
        assert forall|k: int| 0 <= k < list.len() implies pages_of(after).contains_key(
            (#[trigger] list[k]).0,
        ) && pages_of(after)[list[k].0] == list[k].1@ by {
            assert(pages_of(before).contains_key(list[k].0));
            assert(listed_ids(list).contains(list[k].0));
        }
    }
}

/// The pages that a plan writes are spare, lie behind the metadata and in the next file,
/// and none is written twice.
proof fn lemma_planned_ids<I: Storage>(
    db: Database<I>,
    plan: CommitPlan,
    tree: MutableTree,
    floor: u64,
)
    requires
        db.inv(),
        plan.fits(db, tree, floor),
        plan_facts(plan, db, floor),
    ensures
        forall|id: u64| #[trigger]
            listed_ids(plan.user.finished.pages@).contains(id) ==> db.writable(floor).contains(id)
                && in_snapshot(id, plan.next_page) && plan.user.allocations@.contains(id),
        forall|id: u64| #[trigger]
            listed_ids(plan.built.pages@).contains(id) ==> db.writable(floor).contains(id)
                && in_snapshot(id, plan.next_page) && plan.free_allocations@.contains(id),
        distinct(plan.user.finished.pages@),
        distinct(plan.built.pages@),
        listed_ids(plan.user.finished.pages@).disjoint(listed_ids(plan.built.pages@)),
        !listed_ids(plan.user.finished.pages@).contains(db.other_slot()),
        !listed_ids(plan.built.pages@).contains(db.other_slot()),
{
    let users = plan.user.finished.pages@;
    let frees = plan.built.pages@;
    assert forall|id: u64| #[trigger] listed_ids(users).contains(id) implies db.writable(
        floor,
    ).contains(id) && in_snapshot(id, plan.next_page) && plan.user.allocations@.contains(id) by {
        assert(plan.user.allocations@.to_set().contains(id));
        assert(plan.user.allocations@.contains(id));
    }
    if plan.changed {
        let (map, h) = choose|map: Pages, h: nat| #[trigger]
            built_on(plan.built, map, h, plan.entries@, plan.free_allocations@);
        assert forall|id: u64| #[trigger] listed_ids(frees).contains(id) implies db.writable(
            floor,
        ).contains(id) && in_snapshot(id, plan.next_page) && plan.free_allocations@.contains(id) by {
            let k = choose|k: int| 0 <= k < frees.len() && (#[trigger] frees[k]).0 == id;
            assert(page_list(frees)[k].0 == id);
            assert(map.contains_key(id));
            assert(plan.free_allocations@.contains(id));
        }
        assert forall|j: int, k: int| 0 <= j < k < frees.len() implies (#[trigger] frees[j]).0 != (
        #[trigger] frees[k]).0 by {
            assert(page_list(frees)[j].0 != page_list(frees)[k].0);
        }
        assert forall|id: u64| listed_ids(users).contains(id) implies !listed_ids(frees).contains(id) by {
            if listed_ids(frees).contains(id) {
                assert(plan.free_allocations@.contains(id));
            }
        }
    } else {
        assert forall|id: u64| !#[trigger] listed_ids(frees).contains(id) by {}
    }
}

/// Two changes of pages, one after the other.
proof fn lemma_keeps_within(
    a: Seq<u8>,
    b: Seq<u8>,
    c: Seq<u8>,
    ids: Set<u64>,
    more: Set<u64>,
    all: Set<u64>,
)
    requires
        keeps(a, b, ids),
        keeps(b, c, more),
        ids.subset_of(all),
        more.subset_of(all),
    ensures
        keeps(a, c, all),
{
}

/// Where the pages of a plan are stored and every image agrees with what is stored but for
/// the other metadata page, every image holds both generations.
proof fn lemma_images_staged<I: Storage>(
    txn: WriteTxn,
    db: Database<I>,
    plan: CommitPlan,
    floor: u64,
    stored: I,
    after: I,
    meta: Meta,
)
    requires
        db.inv(),
        db.floor(floor),
        txn.tree.page_count == db.meta().page_count,
        plan.fits(db, txn.tree, floor),
        plan_facts(plan, db, floor),
        stored_plan(db, plan, floor, stored.contents()),
        db.meta().page_count * PAGE_SIZE <= stored.contents().len(),
        follows(db.meta(), txn, plan, meta),
        flushed(stored),
        spoils(&stored, &after, set![db.other_slot()], db.meta().page_count),
    ensures
        forall|h: nat, image: Seq<u8>|
            #![trigger after.survives(image), db.whole(h)]
            ready(txn, db, h) && drafted_tree(plan.user, txn.tree, db.pages())
                && after.survives(image) ==> staged(db, txn, image, meta, h),
{
    assert forall|h: nat, image: Seq<u8>|
        #![trigger after.survives(image), db.whole(h)]
        ready(txn, db, h) && drafted_tree(plan.user, txn.tree, db.pages()) && after.survives(
            image,
        ) implies staged(db, txn, image, meta, h) by {
        let base = choose|base: Seq<u8>| #[trigger]
            stored.survives(base) && keeps(base, image, set![db.other_slot()]) && lasts(
                base,
                image,
                db.meta().page_count,
            );
        assert(base == stored.contents());
        lemma_stored_plan_kept(db, plan, txn.tree, floor, base, image);
        lemma_staged(txn, db, plan, floor, image, meta, h);
    }
}

/// Where only the pages of a plan were written, every image is unpublished.
proof fn lemma_unpublished<I: Storage>(a: Database<I>, b: Database<I>, floor: u64, ids: Set<u64>)
    requires
        a.floor(floor),
        ids.subset_of(a.writable(floor)),
        spoils(&a.source.storage, &b.source.storage, ids, a.meta().page_count),
    ensures
        forall|image: Seq<u8>| #[trigger] b.source.storage.survives(image) ==> unpublished(a, image),
{
    assert forall|image: Seq<u8>| #[trigger] b.source.storage.survives(image) implies unpublished(
        a,
        image,
    ) by {
        let base = choose|base: Seq<u8>| #[trigger]
            a.source.storage.survives(base) && keeps(base, image, ids) && lasts(
                base,
                image,
                a.meta().page_count,
            );
        assert(keeps(base, image, a.writable(floor)));
    }
}

/// A database that has moved on to the generation of a plan holds what the transaction
/// held.
proof fn lemma_published<I: Storage>(
    txn: WriteTxn,
    a: Database<I>,
    b: Database<I>,
    plan: CommitPlan,
    floor: u64,
    meta: Meta,
)
    requires
        a.inv(),
        a.floor(floor),
        b.inv(),
        b.meta() == meta,
        txn.tree.page_count == a.meta().page_count,
        plan.fits(a, txn.tree, floor),
        plan_facts(plan, a, floor),
        stored_plan(a, plan, floor, b.source.storage.contents()),
        a.meta().page_count * PAGE_SIZE <= b.source.storage.contents().len(),
        follows(a.meta(), txn, plan, meta),
        meta.user_tree_pages != 0 ==> b.recorded(),
    ensures
        forall|h: nat|
            #![trigger a.whole(h)]
            ready(txn, a, h) && drafted_tree(plan.user, txn.tree, a.pages()) ==> holds_txn(
                a,
                b,
                txn,
                h,
            ) && staged(a, txn, b.source.storage.contents(), meta, h),
{
    assert forall|h: nat|
        #![trigger a.whole(h)]
        ready(txn, a, h) && drafted_tree(plan.user, txn.tree, a.pages()) implies holds_txn(
        a,
        b,
        txn,
        h,
    ) && staged(a, txn, b.source.storage.contents(), meta, h) by {
        lemma_staged(txn, a, plan, floor, b.source.storage.contents(), meta, h);
        law_whole_is_complete(b, txn.tree.height@);
    }
}

/// Writes the pages of a plan, records the next generation and moves on to it.
#[verifier::rlimit(40)]
#[verifier::spinoff_prover]
fn publish_plan<I: Storage>(
    db: &mut Database<I>,
    txn: &WriteTxn,
    plan: CommitPlan,
    meta: Meta,
    Ghost(floor): Ghost<u64>,
) -> (result: Result<()>)
    requires
        old(db).inv(),
        old(db).floor(floor),
        txn.tree.page_count == old(db).meta().page_count,
        plan.fits(*old(db), txn.tree, floor),
        plan_facts(plan, *old(db), floor),
        sized(*old(db), *txn, plan),
        follows(old(db).meta(), *txn, plan, meta),
        trimmed(old(db).source.storage.contents().len(), old(db).meta().page_count)
            == old(db).source.storage.contents().len(),
        tail_cut(*old(db)) == old(db).source.storage.calls(),
        forall|id: u64| #[trigger]
            old(db).pages().contains_key(id) ==> id < old(db).meta().page_count,
    ensures
        match result {
            Ok(_) => {
                &&& advanced(*old(db), *final(db), *txn)
                &&& follows_plan(*old(db), *final(db), *txn, plan, floor)
                &&& final(db).meta() == meta
                &&& forall|h: nat|
                    #![trigger old(db).whole(h)]
                    ready(*txn, *old(db), h) && drafted_tree(
                        plan.user,
                        txn.tree,
                        old(db).pages(),
                    ) ==> holds_txn(*old(db), *final(db), *txn, h)
                &&& forall|h: nat, image: Seq<u8>|
                    #![trigger final(db).source.storage.survives(image), old(db).whole(h)]
                    ready(*txn, *old(db), h) && drafted_tree(
                        plan.user,
                        txn.tree,
                        old(db).pages(),
                    ) && final(db).source.storage.survives(image) ==> staged(
                        *old(db),
                        *txn,
                        image,
                        meta,
                        h,
                    )
            },
            Err(error) => {
                &&& stays(*old(db), *final(db))
                &&& keeps(
                    old(db).source.storage.contents(),
                    final(db).source.storage.contents(),
                    old(db).spare(floor),
                )
                &&& blamed(error, &old(db).source.storage, &final(db).source.storage) || (error is Corrupt
                    && plan.next_page * PAGE_SIZE > u64::MAX)
                &&& forall|h: nat, image: Seq<u8>|
                    #![trigger final(db).source.storage.survives(image), old(db).whole(h)]
                    ready(*txn, *old(db), h) && drafted_tree(
                        plan.user,
                        txn.tree,
                        old(db).pages(),
                    ) && final(db).source.storage.survives(image) ==> survivor(*old(db), *txn, image, h)
            },
        },
        old(db).failures() <= final(db).failures(),
        keeps_cached(*old(db), *final(db)),
{
    let ghost start = *db;
    let ghost whole_plan = plan;
    let page_count = db.publication.current.meta.page_count;
    let slot = 1 - db.publication.current.slot;
    let stale = stale_pages(&plan.user.allocations, &plan.free_allocations, page_count, slot);
    let CommitPlan { user, changed: _, built, free_allocations, old_pages: _, entries, next_page: _ } =
        plan;
    let UserDraft { finished, allocations: _, next_page: _ } = user;
    let list = merge_pages(finished.pages, built.pages);
    let ghost ids = listed_ids(list@);
    proof {
        lemma_planned_ids(start, whole_plan, txn.tree, floor);
        assert(ids.subset_of(start.writable(floor)));
        assert(ids.subset_of(start.spare(floor)));
        assert forall|k: int| 0 <= k < list@.len() implies stale@.contains((#[trigger] list@[k]).0)
            || !start.pages().contains_key(list@[k].0) by {
            assert(ids.contains(list@[k].0));
        }
    }
    let outcome = db.store_pages(&list, &stale);
    proof {
        lemma_stale_cached(start, *db, whole_plan, txn.tree, floor, stale@);
    }
    let ghost shelf = db.source.cache;
    match outcome {
        Ok(()) => {},
        Err(error) => {
            proof {
                lemma_keeps_within(
                    start.source.storage.contents(),
                    start.source.storage.contents(),
                    db.source.storage.contents(),
                    ids,
                    ids,
                    start.spare(floor),
                );
                lemma_stays(start, *db, floor);
                lemma_unpublished(start, *db, floor, ids);
                if error is Corrupt {
                    let k = choose|k: int|
                        0 <= k < list@.len() && ((#[trigger] list@[k]).0 + 1) * PAGE_SIZE > u64::MAX;
                    assert(ids.contains(list@[k].0));
                }
            }
            return Err(error);
        },
    }
    let ghost stored = *db;
    proof {
        lemma_keeps_within(
            start.source.storage.contents(),
            start.source.storage.contents(),
            stored.source.storage.contents(),
            ids,
            ids,
            start.spare(floor),
        );
        assert(holds_pages(stored.source.storage.contents(), list@));
        assert(stored_plan(start, whole_plan, floor, stored.source.storage.contents()));
        assert(!db.source.cache.entries().contains_key(slot)) by {
            assert(stale@.contains(slot));
        }
    }
    let page = encode_meta(meta);
    let outcome = db.record(slot, &page);
    proof {
        lemma_stored_plan_kept(
            start,
            whole_plan,
            txn.tree,
            floor,
            stored.source.storage.contents(),
            db.source.storage.contents(),
        );
        if outcome is Err || start.durability == Durability::Relaxed {
            assert(spoils(
                &stored.source.storage,
                &db.source.storage,
                set![start.other_slot()],
                start.meta().page_count,
            ));
            lemma_images_staged(
                *txn,
                start,
                whole_plan,
                floor,
                stored.source.storage,
                db.source.storage,
                meta,
            );
        }
    }
    match outcome {
        Ok(()) => {},
        Err(error) => {
            proof {
                lemma_stays(start, *db, floor);
            }
            return Err(error);
        },
    }
    let ghost last = *db;
    let pages = page_set(&free_allocations);
    let generation_counts = crate::space::generation_counts(&entries);
    let mut slots = db.publication.slots;
    slots[slot as usize] = Some(meta);
    db.publication = Publication { current: Published { meta, slot }, slots };
    db.free = FreeState { entries, pages, generation_counts, reusable_pages: 0 };
    proof {
        lemma_installed(*txn, start, *db, whole_plan, floor, meta);
    }
    assert(db.source.cache == shelf);
    let ghost placed = *db;
    db.refresh_reusable_pages();
    proof {
        lemma_slot_kept(start, db.source.storage.contents(), floor);
        if meta.user_tree_pages != 0 {
            crate::format::law_meta_round_trip(meta, page@);
            assert(db.recorded()) by {
                reveal(record_at);
            }
        }
        lemma_published(*txn, start, *db, whole_plan, floor, meta);
        lemma_keeps_within(
            start.source.storage.contents(),
            stored.source.storage.contents(),
            last.source.storage.contents(),
            start.spare(floor),
            set![slot],
            start.spare(floor),
        );
        assert(listed_below(list@, whole_plan.next_page)) by {
            assert forall|k: int| 0 <= k < list@.len() implies (#[trigger] list@[k]).0
                < whole_plan.next_page by {
                assert(ids.contains(list@[k].0));
            }
        }
        assert(db.publication_ok());
        assert(carried_out(start, *db, list@)) by {
            let asked = stored.source.storage.calls();
            let recorded = choose|recorded: Seq<Call>| #[trigger]
                wrote(asked, recorded, slot * PAGE_SIZE, page@) && last.source.storage.calls()
                    == match start.durability {
                    Durability::Strict => recorded.push(Call::Sync),
                    Durability::Relaxed => recorded,
                };
            assert(asked =~= asked.drop_last().push(Call::Sync));
            assert(wrote_pages(start.source.storage.calls(), asked.drop_last(), list@));
            assert(wrote(
                asked.drop_last().push(Call::Sync),
                recorded,
                slot * PAGE_SIZE,
                page@,
            ));
            assert(distinct(list@));
            assert forall|k: int| 0 <= k < list@.len() implies (#[trigger] list@[k]).0
                >= META_PAGES by {
                assert(ids.contains(list@[k].0));
            }
        }
        assert(follows_plan(start, *db, *txn, whole_plan, floor));
    }
    Ok(())
}

/// Whether a commit has nothing to fail for but the storage: the transaction is well
/// formed, and there are enough page numbers and a number for the next generation.
pub open spec fn committable<I: Storage>(txn: WriteTxn, db: Database<I>, h: nat) -> bool {
    &&& ready(txn, db, h)
    &&& txn.fit(db.pages())
    &&& db.meta().generation < u64::MAX
    &&& (db.meta().page_count + commit_demand(db, txn.tree, db.pages())) * PAGE_SIZE <= u64::MAX
    &&& user_demand(txn.tree, db.pages()) <= usize::MAX
}

/// A transaction stays ready where only spare pages change.
proof fn lemma_ready_kept<I: Storage>(
    txn: WriteTxn,
    a: Database<I>,
    b: Database<I>,
    floor: u64,
    h: nat,
)
    requires
        a.inv(),
        a.floor(floor),
        same_memory(a, b),
        stays(a, b),
        keeps(a.source.storage.contents(), b.source.storage.contents(), a.spare(floor)),
        ready(txn, a, h),
    ensures
        ready(txn, b, h),
        txn.rows(b.pages()) == txn.rows(a.pages()),
        txn.tree.branches(a.pages()) ==> txn.tree.branches(b.pages()),
        committable(txn, a, h) ==> committable(txn, b, h),
        user_demand(txn.tree, b.pages()) == user_demand(txn.tree, a.pages()),
{
    lemma_txn_kept(txn, a, b, floor, h);
    let env = txn.tree.env(a.pages());
    let other = txn.tree.env(b.pages());
    assert(live_slots(txn.tree, b.pages()) =~= live_slots(txn.tree, a.pages()));
    assert(user_demand(txn.tree, b.pages()) == user_demand(txn.tree, a.pages()));
}

/// What holds of an image relative to a later state holds of it relative to an earlier one
/// that differs in pages behind the file alone.
proof fn lemma_survivor_before<I: Storage>(
    txn: WriteTxn,
    a: Database<I>,
    b: Database<I>,
    floor: u64,
    h: nat,
    image: Seq<u8>,
)
    requires
        a.inv(),
        a.floor(floor),
        same_memory(a, b),
        stays(a, b),
        keeps(a.source.storage.contents(), b.source.storage.contents(), pages_from(a.meta().page_count)),
        spoils(&a.source.storage, &b.source.storage, pages_from(a.meta().page_count), a.meta().page_count),
        ready(txn, a, h),
        txn.rows(b.pages()) == txn.rows(a.pages()),
        txn.tree.branches(a.pages()) ==> txn.tree.branches(b.pages()),
    ensures
        unpublished(b, image) ==> unpublished(a, image),
        forall|meta: Meta| #[trigger] staged(b, txn, image, meta, h) ==> staged(
            a,
            txn,
            image,
            meta,
            h,
        ),
{
    let count = a.meta().page_count;
    if unpublished(b, image) {
        let (base, other) = choose|base: Seq<u8>, other: u64| #[trigger]
            b.source.storage.survives(base) && #[trigger] b.floor(other) && keeps(
                base,
                image,
                b.writable(other),
            ) && lasts(base, image, count);
        let first = choose|first: Seq<u8>| #[trigger]
            a.source.storage.survives(first) && keeps(first, base, pages_from(count)) && lasts(
                first,
                base,
                count,
            );
        lemma_same_floor(b, a);
        assert(a.floor(other));
        assert(pages_from(count).subset_of(a.writable(other)));
        lemma_keeps_within(
            first,
            base,
            image,
            pages_from(count),
            b.writable(other),
            a.writable(other),
        );
    }
    assert(keeps(a.source.storage.contents(), b.source.storage.contents(), a.spare(floor)));
    lemma_slot_kept(a, b.source.storage.contents(), floor);
    assert(a.whole(h));
    assert(reads_same(a, b, a.meta(), h));
}

/// What a commit that goes through does, told from a state before pages behind the file
/// were cut off.
proof fn lemma_advanced_before<I: Storage>(
    txn: WriteTxn,
    a: Database<I>,
    b: Database<I>,
    c: Database<I>,
)
    requires
        stays(a, b),
        advanced(b, c, txn),
    ensures
        advanced(a, c, txn),
{
    assert forall|m: Meta, h: nat| #[trigger] a.guards(m, h) && c.retains(m.generation) implies c.guards(
        m,
        h,
    ) && reads_same(a, c, m, h) by {
        assert(b.guards(m, h) && reads_same(a, b, m, h));
    }
}

/// What a database holds after a commit, told from a state before pages behind the file
/// were cut off.
proof fn lemma_holds_before<I: Storage>(
    txn: WriteTxn,
    a: Database<I>,
    b: Database<I>,
    c: Database<I>,
    h: nat,
)
    requires
        stays(a, b),
        a.whole(h),
        txn.rows(b.pages()) == txn.rows(a.pages()),
        txn.tree.branches(a.pages()) ==> txn.tree.branches(b.pages()),
        holds_txn(b, c, txn, h),
    ensures
        holds_txn(a, c, txn, h),
{
    assert(b.whole(h));
}

/// What a failed commit leaves, told from a state before pages behind the file were cut
/// off.
proof fn lemma_stays_before<I: Storage>(a: Database<I>, b: Database<I>, c: Database<I>)
    requires
        stays(a, b),
        stays(b, c),
    ensures
        stays(a, c),
{
    assert forall|m: Meta, h: nat| #[trigger] a.guards(m, h) implies c.guards(m, h) && reads_same(
        a,
        c,
        m,
        h,
    ) by {
        assert(b.guards(m, h) && reads_same(a, b, m, h));
    }
    assert forall|h: nat| #[trigger] a.whole(h) implies c.whole(h) && reads_same(a, c, a.meta(), h)
        && (a.sealed(h) ==> c.sealed(h)) by {
        assert(b.whole(h) && reads_same(a, b, a.meta(), h));
    }
}

impl WriteTxn {
    /// Publishes all changes as the next generation, or none of them.
    ///
    /// Pages that a generation which is still recorded or read needs are never written. The
    /// new pages are durable before the metadata page is written; under
    /// [`Durability::Strict`] that page is durable too when this returns.
    #[verifier::rlimit(40)]
    #[verifier::spinoff_prover]
    pub fn commit<I: Storage>(self, db: &mut Database<I>) -> (result: Result<()>)
        requires
            self.inv(),
            old(db).inv(),
            self.belongs(*old(db)),
        ensures
            self.poisoned ==> result == Err::<(), Error>(Error::TransactionClosed) && *final(db)
                == *old(db),
            result is Ok ==> advanced(*old(db), *final(db), self) && planned(
                *old(db),
                *final(db),
                self,
            ),
            result is Err ==> stays(*old(db), *final(db)),
            result is Err && !self.poisoned ==> spares(*old(db), *final(db)),
            result is Ok ==> forall|h: nat|
                #![trigger old(db).whole(h)]
                ready(self, *old(db), h) ==> holds_txn(*old(db), *final(db), self, h),
            forall|h: nat, image: Seq<u8>|
                #![trigger final(db).source.storage.survives(image), old(db).whole(h)]
                result is Ok && ready(self, *old(db), h) && final(db).source.storage.survives(image)
                    ==> staged(*old(db), self, image, final(db).meta(), h),
            forall|h: nat, image: Seq<u8>|
                #![trigger final(db).source.storage.survives(image), old(db).whole(h)]
                result is Err && ready(self, *old(db), h) && final(db).source.storage.survives(image)
                    ==> survivor(*old(db), self, image, h),
            result matches Err(error) ==> !self.poisoned ==> blamed(error, &old(db).source.storage, &final(db).source.storage) || (error is Io && mute(
                &old(db).source.storage,
            )) || (error is Corrupt
                && forall|h: nat| !#[trigger] committable(self, *old(db), h)),
            old(db).failures() <= final(db).failures(),
            keeps_cached(*old(db), *final(db)),
    {
        let ghost start = *db;
        let txn = self;
        if txn.poisoned {
            return Err(Error::TransactionClosed);
        }
        let oldest = least_key(&db.snapshots);
        let floor = safe_generation(&db.publication, oldest);
        let ghost tail = pages_from(start.meta().page_count);
        assert(start.floor(floor));
        let outcome = db.cut_tail();
        let ghost cut_off = *db;
        proof {
            assert(tail.subset_of(start.spare(floor)));
            assert(tail.subset_of(start.writable(floor)));
            assert(keeps(
                start.source.storage.contents(),
                cut_off.source.storage.contents(),
                start.spare(floor),
            ));
            lemma_stays(start, cut_off, floor);
            lemma_same_floor(start, cut_off);
            assert(cut_off.floor(floor));
            lemma_unpublished(start, cut_off, floor, tail);
            assert forall|h: nat| #[trigger] start.whole(h) && ready(txn, start, h) implies ready(
                txn,
                cut_off,
                h,
            ) && txn.rows(cut_off.pages()) == txn.rows(start.pages()) && (txn.tree.branches(
                start.pages(),
            ) ==> txn.tree.branches(cut_off.pages())) && (committable(txn, start, h)
                ==> committable(txn, cut_off, h)) && user_demand(txn.tree, cut_off.pages())
                == user_demand(txn.tree, start.pages()) by {
                lemma_ready_kept(txn, start, cut_off, floor, h);
            }
        }
        match outcome {
            Ok(()) => {},
            Err(error) => {
                return Err(error);
            },
        }
        let plan = match plan_commit(db, &txn.tree, floor) {
            Ok(plan) => plan,
            Err(error) => {
                proof {
                    lemma_not_committable(txn, start, cut_off);
                }
                return Err(error);
            },
        };
        proof {
            lemma_plan(plan, cut_off, txn.tree, floor);
            lemma_sized(txn, cut_off, plan, floor);
            assert forall|h: nat| #[trigger] cut_off.whole(h) && ready(txn, cut_off, h) implies drafted_tree(
                plan.user,
                txn.tree,
                cut_off.pages(),
            ) && plan.next_page <= cut_off.meta().page_count + commit_demand(
                cut_off,
                txn.tree,
                cut_off.pages(),
            ) by {
                lemma_ready(txn, cut_off, h);
            }
        }
        let meta = match next_meta(db.publication.current.meta, &txn, &plan) {
            Ok(meta) => meta,
            Err(error) => {
                proof {
                    assert forall|h: nat| !#[trigger] committable(txn, start, h) by {
                        if committable(txn, start, h) {
                            assert(start.whole(h));
                            assert(cut_off.whole(h));
                            lemma_countable(txn, cut_off, plan, floor, h);
                        }
                    }
                }
                return Err(error);
            },
        };
        let ghost next_page = plan.next_page;
        let ghost chosen = plan;
        let ghost drafted = drafted_tree(plan.user, txn.tree, cut_off.pages());
        let result = publish_plan(db, &txn, plan, meta, Ghost(floor));
        proof {
            assert forall|h: nat, image: Seq<u8>|
                #![trigger db.source.storage.survives(image), start.whole(h)]
                ready(txn, start, h) && db.source.storage.survives(image) implies (result is Ok ==> staged(
                start,
                txn,
                image,
                db.meta(),
                h,
            )) && (result is Err ==> survivor(start, txn, image, h)) by {
                assert(start.whole(h));
                assert(cut_off.whole(h));
                lemma_survivor_before(txn, start, cut_off, floor, h, image);
            }
            lemma_keeps_within(
                start.source.storage.contents(),
                cut_off.source.storage.contents(),
                db.source.storage.contents(),
                tail,
                start.spare(floor),
                start.spare(floor),
            );
            if result is Ok {
                lemma_advanced_before(txn, start, cut_off, *db);
                assert(chosen.fits(start, txn.tree, floor));
                assert(sized(start, txn, chosen)) by {
                    assert forall|h: nat| #[trigger] ready(
                        txn,
                        start,
                        h,
                    ) implies chosen.user.allocations@.len() == user_demand(
                        txn.tree,
                        start.pages(),
                    ) && chosen.next_page == pages_after(start, txn.tree) by {
                        assert(start.whole(h));
                        assert(ready(txn, cut_off, h));
                    }
                }
                assert(follows_plan(start, *db, txn, chosen, floor));
                assert forall|h: nat| #![trigger start.whole(h)] ready(txn, start, h) implies holds_txn(
                    start,
                    *db,
                    txn,
                    h,
                ) by {
                    assert(start.whole(h));
                    assert(cut_off.whole(h));
                    lemma_holds_before(txn, start, cut_off, *db, h);
                }
            } else {
                lemma_stays_before(start, cut_off, *db);
                assert forall|h: nat| next_page * PAGE_SIZE > u64::MAX implies !#[trigger] committable(
                    txn,
                    start,
                    h,
                ) by {
                    if committable(txn, start, h) {
                        assert(start.whole(h));
                        assert(cut_off.whole(h));
                    }
                }
            }
        }
        result
    }
}

/// A transaction that cannot be planned cannot be committed.
proof fn lemma_not_committable<I: Storage>(txn: WriteTxn, a: Database<I>, b: Database<I>)
    requires
        b.inv(),
        txn.tree.page_count == b.meta().page_count,
        forall|h: nat| #[trigger]
            a.whole(h) && ready(txn, a, h) ==> (committable(txn, a, h) ==> committable(txn, b, h)),
        !(txn.tree.sound(b.pages()) && unshared(txn.tree, b.pages(), b.entries())
            && txn.tree.height@ < MAX_DEPTH && txn.tree.fits(b.pages()) && b.meta().page_count
            + commit_demand(b, txn.tree, b.pages()) <= u64::MAX && user_demand(
            txn.tree,
            b.pages(),
        ) <= usize::MAX && base_readable(txn.tree)),
    ensures
        forall|h: nat| !#[trigger] committable(txn, a, h),
{
    assert forall|h: nat| !#[trigger] committable(txn, a, h) by {
        if committable(txn, a, h) {
            assert(a.whole(h));
            assert(committable(txn, b, h));
            lemma_ready(txn, b, h);
        }
    }
}

} // verus!
