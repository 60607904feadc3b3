//! What stays as it is while a writer changes pages that no readable generation needs.
use crate::db::{
    free_held, free_stands, is_least_key, root_of, rows_at, tree_branches, tree_stands, user_pages,
    Database,
};
use crate::format::{in_snapshot, Meta, PAGE_SIZE};
use crate::free::{agrees, free_owns, lemma_free_carried};
use crate::io::Storage;
use crate::model::{agree_on, lemma_tree_kept, node_at, owns, published, same_at, Pages};
use crate::node::{node_size, PageRef, PAGE_END};
use crate::open::lemma_tree_carried;
use crate::space::{is_floor, retained};
use crate::store::keeps;
use crate::txn::lemma_same_floor;
use crate::write::WriteTxn;
use vstd::prelude::*;

verus! {

impl<I: Storage> Database<I> {
    /// The metadata page that does not record the current generation.
    pub open spec fn other_slot(&self) -> u64 {
        (1 - self.publication.current.slot) as u64
    }

    /// The pages that a writer may change: those behind the file, the free pages that no
    /// generation from `floor` on used, and the metadata page that does not record the current
    /// generation.
    pub open spec fn spare(&self, floor: u64) -> Set<u64> {
        Set::new(
            |p: u64|
                p >= self.meta().page_count || p == self.other_slot() || (
                self.entries().contains_key(p) && self.entries()[p] < floor),
        )
    }
}

/// Whether two states of a database differ in the storage and the cache alone.
pub open spec fn same_memory<I: Storage>(a: Database<I>, b: Database<I>) -> bool {
    &&& b.publication == a.publication
    &&& b.snapshots == a.snapshots
    &&& b.free == a.free
    &&& b.durability == a.durability
}

/// Whether a readable generation reads the same in two states.
pub open spec fn reads_same<I: Storage>(a: Database<I>, b: Database<I>, meta: Meta, h: nat) -> bool {
    &&& tree_stands(b.pages(), meta, h)
    &&& rows_at(b.pages(), meta, h) == rows_at(a.pages(), meta, h)
    &&& user_pages(b.pages(), meta, h) == user_pages(a.pages(), meta, h)
    &&& tree_branches(a.pages(), meta, h) ==> tree_branches(b.pages(), meta, h)
}

/// A tree none of whose pages changes reads the same.
pub proof fn lemma_reads_same<I: Storage>(a: Database<I>, b: Database<I>, meta: Meta, h: nat, ids: Set<u64>)
    requires
        tree_stands(a.pages(), meta, h),
        keeps(a.source.storage.contents(), b.source.storage.contents(), ids),
        forall|p: u64| #[trigger] user_pages(a.pages(), meta, h).contains(p) ==> !ids.contains(p),
    ensures
        reads_same(a, b, meta, h),
{
    let env = published(a.pages(), meta.page_count);
    assert forall|x: u64| #[trigger]
        owns(env, root_of(meta), h, PageRef::Committed(x)) && a.pages().contains_key(x) implies
        b.pages().contains_key(x) && b.pages()[x] == a.pages()[x] by {
        assert(user_pages(a.pages(), meta, h).contains(x));
    }
    lemma_tree_carried(a.pages(), b.pages(), meta.page_count, meta.page_count, meta.root, h);
    assert(user_pages(b.pages(), meta, h) =~= user_pages(a.pages(), meta, h));
}

/// The pages of a generation lie in its snapshot.
pub proof fn lemma_user_pages_inside(pages: Pages, meta: Meta, h: nat)
    requires
        tree_stands(pages, meta, h),
    ensures
        forall|p: u64| #[trigger]
            user_pages(pages, meta, h).contains(p) ==> in_snapshot(p, meta.page_count)
                && pages.contains_key(p),
{
    assert forall|p: u64| #[trigger] user_pages(pages, meta, h).contains(p) implies in_snapshot(
        p,
        meta.page_count,
    ) && pages.contains_key(p) by {
        crate::collect::lemma_published_owns(
            pages,
            meta.page_count,
            meta.root,
            h,
            PageRef::Committed(p),
        );
    }
}

/// A retained generation is not older than the oldest that must stay readable.
pub proof fn lemma_floor_below<I: Storage>(db: Database<I>, floor: u64, generation: u64)
    requires
        db.floor(floor),
        db.retains(generation),
    ensures
        floor <= generation,
{
    let oldest = choose|oldest: Option<u64>| #[trigger]
        is_least_key(db.snapshots@, oldest) && is_floor(db.publication, oldest, floor);
    if db.snapshots@.contains_key(generation) {
        assert(oldest is Some);
        assert(retained(db.publication, oldest, oldest->0));
        assert(oldest->0 <= generation);
    } else {
        assert(retained(db.publication, oldest, generation));
    }
}

/// A readable generation has no spare page.
pub proof fn lemma_guarded_not_spare<I: Storage>(db: Database<I>, floor: u64, meta: Meta, h: nat)
    requires
        db.publication_ok(),
        db.floor(floor),
        db.guards(meta, h),
    ensures
        forall|p: u64| #[trigger]
            user_pages(db.pages(), meta, h).contains(p) ==> !db.spare(floor).contains(p),
{
    lemma_floor_below(db, floor, meta.generation);
    lemma_user_pages_inside(db.pages(), meta, h);
    assert forall|p: u64| #[trigger] user_pages(db.pages(), meta, h).contains(p) implies !db.spare(
        floor,
    ).contains(p) by {
        assert(in_snapshot(p, meta.page_count));
        if db.entries().contains_key(p) {
            assert(db.entries()[p] >= meta.generation);
        }
    }
}

/// The free tree has no spare page.
pub proof fn lemma_free_not_spare<I: Storage>(db: Database<I>, floor: u64)
    requires
        db.publication_ok(),
        db.free_ok(),
    ensures
        forall|p: u64| #[trigger] db.free.pages@.contains(p) ==> !db.spare(floor).contains(p),
{
    assert forall|p: u64| #[trigger] db.free.pages@.contains(p) implies !db.spare(floor).contains(p) by {
        assert(in_snapshot(p, db.meta().page_count));
        if db.entries().contains_key(p) {
            assert(!db.free.pages@.contains(p));
        }
    }
}

/// The free tree reads the same where only spare pages change.
pub proof fn lemma_free_reads_same(
    before: Pages,
    after: Pages,
    meta: Meta,
    entries: Map<u64, u64>,
    free_pages: Set<u64>,
    h: nat,
)
    requires
        free_stands(before, meta, entries, free_pages, h),
        forall|p: u64| #[trigger]
            free_pages.contains(p) && before.contains_key(p) ==> after.contains_key(p) && after[p]
                == before[p],
    ensures
        free_stands(after, meta, entries, free_pages, h),
{
    assert(agrees(before, after, meta.free_root, h)) by {
        assert forall|p: u64| #[trigger]
            free_owns(before, meta.free_root, h, p) && before.contains_key(p) implies after.contains_key(
            p,
        ) && after[p] == before[p] by {
            assert(free_pages.contains(p));
        }
    }
    lemma_free_carried(before, after, meta.page_count, meta.page_count, meta.free_root, h);
    assert forall|p: u64| #[trigger] free_pages.contains(p) == free_owns(
        after,
        meta.free_root,
        h,
        p,
    ) by {
        assert(free_pages.contains(p) == free_owns(before, meta.free_root, h, p));
    }
}

/// Changing spare pages keeps the database in order and every readable generation as it
/// is.
pub proof fn lemma_spare<I: Storage>(a: Database<I>, b: Database<I>, floor: u64)
    requires
        a.inv(),
        a.floor(floor),
        same_memory(a, b),
        b.cache_ok(),
        a.meta().page_count * PAGE_SIZE <= b.source.storage.contents().len(),
        keeps(a.source.storage.contents(), b.source.storage.contents(), a.spare(floor)),
    ensures
        b.inv(),
        forall|g: u64| #[trigger] b.floor(g) == a.floor(g),
        forall|h: nat| #[trigger]
            a.whole(h) ==> b.whole(h) && reads_same(a, b, a.meta(), h) && (a.sealed(h) ==> b.sealed(
                h,
            )),
        forall|meta: Meta, h: nat| #[trigger]
            a.guards(meta, h) ==> b.guards(meta, h) && reads_same(a, b, meta, h),
{
    lemma_same_floor(a, b);
    lemma_free_not_spare(a, floor);
    let fh = choose|fh: nat| #[trigger]
        free_stands(a.pages(), a.meta(), a.entries(), a.free.pages@, fh);
    lemma_free_reads_same(a.pages(), b.pages(), a.meta(), a.entries(), a.free.pages@, fh);
    assert(free_held(b.pages(), b.meta(), b.entries(), b.free.pages@));
    assert forall|meta: Meta, h: nat| #[trigger] a.guards(meta, h) implies b.guards(meta, h)
        && reads_same(a, b, meta, h) by {
        lemma_guarded_not_spare(a, floor, meta, h);
        lemma_reads_same(a, b, meta, h, a.spare(floor));
    }
    assert forall|h: nat| #[trigger] a.whole(h) implies b.whole(h) && reads_same(a, b, a.meta(), h)
        && (a.sealed(h) ==> b.sealed(h)) by {
        a.lemma_guards_current(h);
        assert(a.guards(a.meta(), h));
    }
}

/// What a transaction holds stays as it is where only spare pages change.
pub proof fn lemma_txn_kept<I: Storage>(txn: WriteTxn, a: Database<I>, b: Database<I>, floor: u64, h: nat)
    requires
        a.inv(),
        a.floor(floor),
        a.whole(h),
        txn.tree.base@ == user_pages(a.pages(), a.meta(), h),
        txn.tree.sound(a.pages()),
        keeps(a.source.storage.contents(), b.source.storage.contents(), a.spare(floor)),
    ensures
        txn.tree.sound(b.pages()),
        txn.rows(b.pages()) == txn.rows(a.pages()),
        txn.tree.fits(b.pages()) == txn.tree.fits(a.pages()),
        txn.tree.branches(a.pages()) ==> txn.tree.branches(b.pages()),
        forall|p: PageRef| #[trigger]
            owns(txn.tree.env(b.pages()), txn.tree.root, txn.tree.height@, p) == owns(
                txn.tree.env(a.pages()),
                txn.tree.root,
                txn.tree.height@,
                p,
            ),
{
    let env = txn.tree.env(a.pages());
    let other = txn.tree.env(b.pages());
    let r = txn.tree.root;
    let height = txn.tree.height@;
    a.lemma_guards_current(h);
    lemma_guarded_not_spare(a, floor, a.meta(), h);
    assert(agree_on(env, other, r, height)) by {
        assert forall|p: PageRef| #[trigger] owns(env, r, height, p) implies same_at(env, other, p) by {
            if let PageRef::Committed(x) = p {
                assert(txn.tree.base@.contains(x));
                assert(user_pages(a.pages(), a.meta(), h).contains(x));
            }
        }
    }
    lemma_tree_kept(env, other, r, height);
    if txn.tree.branches(a.pages()) {
        crate::branch::lemma_spreading_agrees(env, other, r, height);
    }
    if txn.tree.fits(a.pages()) {
        assert forall|slot: usize| #[trigger] owns(other, r, height, PageRef::Dirty(slot)) implies
            node_size(node_at(other, PageRef::Dirty(slot))->0) <= PAGE_END by {
            assert(owns(env, r, height, PageRef::Dirty(slot)));
            assert(node_at(other, PageRef::Dirty(slot)) == node_at(env, PageRef::Dirty(slot)));
        }
    }
    if txn.tree.fits(b.pages()) {
        assert forall|slot: usize| #[trigger] owns(env, r, height, PageRef::Dirty(slot)) implies
            node_size(node_at(env, PageRef::Dirty(slot))->0) <= PAGE_END by {
            assert(owns(other, r, height, PageRef::Dirty(slot)));
            assert(node_at(other, PageRef::Dirty(slot)) == node_at(env, PageRef::Dirty(slot)));
        }
    }
    assert forall|id: u64| #[trigger] owns(other, r, height, PageRef::Committed(id)) == owns(
        env,
        r,
        height,
        PageRef::Committed(id),
    ) by {}
}

} // verus!
