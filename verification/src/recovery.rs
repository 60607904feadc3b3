//! What a file holds, whatever process opens it, and which generation is found in it after
//! a crash.
use crate::commit::{
    advanced, follows_plan, holds_txn, lemma_base_complete, lemma_slot_kept, planned, ready, spares,
    staged, stays, unpublished,
};
use crate::db::{
    free_stands, root_of, rows_at, tree_branches, tree_stands, user_pages, weight, Database,
};
use crate::format::{in_snapshot, meta_sane, Meta, META_PAGES, PAGE_SIZE};
use crate::free::{agrees, free_owns, lemma_free_carried, lemma_free_height, record_map, records};
use crate::io::{pages_of, Storage};
use crate::keep::{
    lemma_floor_below, lemma_free_not_spare, lemma_guarded_not_spare, lemma_user_pages_inside,
};
use crate::model::{owns, published, Pages, Row};
use crate::node::PageRef;
use crate::open::{
    attachable, chosen_from, free_sound, lemma_tree_carried, newest, opened_from, record_in,
};
use crate::options::Durability;
use crate::plan::{lemma_plan_exhausts, lemma_with_pages, with_pages, CommitPlan};
use crate::space::{used_by, Publication, Published};
use crate::store::{keeps, lasts, pages_from};
use crate::txn::ReadTxn;
use crate::write::WriteTxn;
use vstd::prelude::*;

verus! {

/// Whether the free tree of a generation is sound and apart from its user tree.
pub open spec fn free_apart(pages: Pages, meta: Meta, h: nat, fh: nat) -> bool {
    &&& free_sound(pages, meta, fh)
    &&& forall|p: u64| #[trigger]
        user_pages(pages, meta, h).contains(p) ==> !record_map(
            records(pages, meta.free_root, fh),
        ).contains_key(p) && !free_owns(pages, meta.free_root, fh, p)
}

/// Whether a file holds a whole generation with the given rows: both trees are well
/// formed, apart and as the metadata says.
pub open spec fn complete(contents: Seq<u8>, meta: Meta, rows: Seq<Row>, h: nat) -> bool {
    let pages = pages_of(contents);
    &&& meta_sane(meta)
    &&& meta.page_count * PAGE_SIZE <= u64::MAX
    &&& meta.page_count * PAGE_SIZE <= contents.len()
    &&& tree_stands(pages, meta, h)
    &&& rows_at(pages, meta, h) == rows
    &&& meta.item_count == rows.len()
    &&& meta.logical_bytes == weight(rows)
    &&& user_pages(pages, meta, h).finite()
    &&& meta.user_tree_pages == user_pages(pages, meta, h).len()
    &&& exists|fh: nat| #[trigger] free_apart(pages, meta, h, fh)
}

/// Whether every page of a generation behind the metadata is in use or free.
pub open spec fn covered(pages: Pages, meta: Meta, h: nat, fh: nat) -> bool {
    &&& free_sound(pages, meta, fh)
    &&& forall|p: u64| #[trigger]
        in_snapshot(p, meta.page_count) ==> user_pages(pages, meta, h).contains(p) || record_map(
            records(pages, meta.free_root, fh),
        ).contains_key(p) || free_owns(pages, meta.free_root, fh, p)
}

/// Whether a file leaks no page of a generation.
pub open spec fn leakless(contents: Seq<u8>, meta: Meta, h: nat) -> bool {
    exists|fh: nat| #[trigger] covered(pages_of(contents), meta, h, fh)
}

/// The pages of a generation: those of both trees.
pub open spec fn vital_pages(pages: Pages, meta: Meta, h: nat, fh: nat) -> Set<u64> {
    Set::new(
        |p: u64|
            user_pages(pages, meta, h).contains(p) || free_owns(pages, meta.free_root, fh, p),
    )
}

/// A generation none of whose pages changes stays whole.
pub proof fn lemma_complete_carried(
    before: Seq<u8>,
    after: Seq<u8>,
    meta: Meta,
    rows: Seq<Row>,
    h: nat,
    fh: nat,
    ids: Set<u64>,
)
    requires
        complete(before, meta, rows, h),
        free_apart(pages_of(before), meta, h, fh),
        keeps(before, after, ids),
        forall|p: u64| #[trigger]
            vital_pages(pages_of(before), meta, h, fh).contains(p) ==> !ids.contains(p),
        meta.page_count * PAGE_SIZE <= after.len(),
    ensures
        complete(after, meta, rows, h),
        free_apart(pages_of(after), meta, h, fh),
        covered(pages_of(before), meta, h, fh) ==> covered(pages_of(after), meta, h, fh),
        user_pages(pages_of(after), meta, h) == user_pages(pages_of(before), meta, h),
        tree_branches(pages_of(before), meta, h) ==> tree_branches(pages_of(after), meta, h),
        forall|p: u64| #[trigger]
            free_owns(pages_of(after), meta.free_root, fh, p) == free_owns(
                pages_of(before),
                meta.free_root,
                fh,
                p,
            ),
{
    let a = pages_of(before);
    let b = pages_of(after);
    let root = meta.free_root;
    assert forall|x: u64| #[trigger]
        owns(published(a, meta.page_count), root_of(meta), h, PageRef::Committed(x))
            && a.contains_key(x) implies b.contains_key(x) && b[x] == a[x] by {
        assert(user_pages(a, meta, h).contains(x));
        assert(vital_pages(a, meta, h, fh).contains(x));
    }
    lemma_tree_carried(a, b, meta.page_count, meta.page_count, meta.root, h);
    assert(user_pages(b, meta, h) =~= user_pages(a, meta, h));
    assert(agrees(a, b, root, fh)) by {
        assert forall|p: u64| #[trigger] free_owns(a, root, fh, p) && a.contains_key(p) implies
            b.contains_key(p) && b[p] == a[p] by {
            assert(vital_pages(a, meta, h, fh).contains(p));
        }
    }
    lemma_free_carried(a, b, meta.page_count, meta.page_count, root, fh);
    assert(Set::new(|p: u64| free_owns(a, root, fh, p)) =~= Set::new(
        |p: u64| free_owns(b, root, fh, p),
    ));
    assert forall|p: u64| #[trigger]
        record_map(records(b, root, fh)).contains_key(p) implies !free_owns(b, root, fh, p)
        && record_map(records(b, root, fh))[p] <= meta.generation by {
        assert(!free_owns(a, root, fh, p));
    }
    assert(free_sound(b, meta, fh));
    assert(free_apart(b, meta, h, fh));
}

/// The free tree that a database holds in memory is the stored one.
proof fn lemma_free_known<I: Storage>(db: Database<I>, fh: nat)
    requires
        db.free_ok(),
        free_stands(db.pages(), db.meta(), db.entries(), db.free.pages@, fh),
    ensures
        free_sound(db.pages(), db.meta(), fh),
{
    let pages = db.pages();
    let root = db.meta().free_root;
    assert(Set::new(|p: u64| free_owns(pages, root, fh, p)) =~= db.free.pages@);
    assert forall|p: u64| #[trigger]
        record_map(records(pages, root, fh)).contains_key(p) implies !free_owns(pages, root, fh, p)
        && record_map(records(pages, root, fh))[p] <= db.meta().generation by {
        assert(db.entries().contains_key(p));
        assert(db.free.pages@.contains(p) == free_owns(pages, root, fh, p));
    }
}

/// A user tree has at least the page of its root.
pub proof fn lemma_users_some(pages: Pages, meta: Meta, h: nat)
    requires
        user_pages(pages, meta, h).finite(),
    ensures
        user_pages(pages, meta, h).len() > 0,
{
    let users = user_pages(pages, meta, h);
    crate::graft::lemma_owns_root(published(pages, meta.page_count), root_of(meta), h);
    assert(users.contains(meta.root));
    if users.len() == 0 {
        users.lemma_len0_is_empty();
    }
}

/// What an open database holds in memory and what its file holds are the same: a database
/// is whole exactly if its file holds its current generation whole.
pub proof fn law_whole_is_complete<I: Storage>(db: Database<I>, h: nat)
    requires
        db.inv(),
    ensures
        db.whole(h) <==> complete(
            db.source.storage.contents(),
            db.meta(),
            rows_at(db.pages(), db.meta(), h),
            h,
        ),
        db.sealed(h) <==> leakless(db.source.storage.contents(), db.meta(), h),
{
    let pages = db.pages();
    let meta = db.meta();
    let fh = choose|fh: nat| #[trigger]
        free_stands(pages, meta, db.entries(), db.free.pages@, fh);
    lemma_free_known(db, fh);
    if db.whole(h) {
        lemma_users_some(pages, meta, h);
        assert forall|p: u64| #[trigger] user_pages(pages, meta, h).contains(p) implies !record_map(
            records(pages, meta.free_root, fh),
        ).contains_key(p) && !free_owns(pages, meta.free_root, fh, p) by {
            assert(db.free.pages@.contains(p) == free_owns(pages, meta.free_root, fh, p));
        }
        assert(free_apart(pages, meta, h, fh));
    }
    if complete(db.source.storage.contents(), meta, rows_at(pages, meta, h), h) {
        let other = choose|other: nat| #[trigger] free_apart(pages, meta, h, other);
        lemma_free_height(pages, meta.free_root, fh, other);
        assert forall|p: u64| #[trigger]
            user_pages(pages, meta, h).contains(p) implies !db.entries().contains_key(p)
            && !db.free.pages@.contains(p) by {
            assert(db.free.pages@.contains(p) == free_owns(pages, meta.free_root, fh, p));
        }
    }
    if db.sealed(h) {
        assert forall|p: u64| #[trigger] in_snapshot(p, meta.page_count) implies user_pages(
            pages,
            meta,
            h,
        ).contains(p) || record_map(records(pages, meta.free_root, fh)).contains_key(p) || free_owns(
            pages,
            meta.free_root,
            fh,
            p,
        ) by {
            assert(db.free.pages@.contains(p) == free_owns(pages, meta.free_root, fh, p));
        }
        assert(covered(pages, meta, h, fh));
    }
    if leakless(db.source.storage.contents(), meta, h) {
        let other = choose|other: nat| #[trigger] covered(pages, meta, h, other);
        lemma_free_height(pages, meta.free_root, fh, other);
        assert forall|p: u64| #[trigger] in_snapshot(p, meta.page_count) implies user_pages(
            pages,
            meta,
            h,
        ).contains(p) || db.entries().contains_key(p) || db.free.pages@.contains(p) by {
            assert(db.free.pages@.contains(p) == free_owns(pages, meta.free_root, fh, p));
        }
    }
}

/// Opening a file gives back the rows of the generation that is opened, and a database that
/// can be written to.
pub proof fn law_open_restores<I: Storage>(db: Database<I>, contents: Seq<u8>, rows: Seq<Row>, h: nat)
    requires
        db.inv(),
        opened_from(db, contents),
        complete(contents, db.meta(), rows, h),
    ensures
        db.whole(h),
        rows_at(db.pages(), db.meta(), h) == rows,
        leakless(contents, db.meta(), h) ==> db.sealed(h),
        tree_branches(pages_of(contents), db.meta(), h) ==> tree_branches(
            db.pages(),
            db.meta(),
            h,
        ),
{
    let meta = db.meta();
    let after = db.source.storage.contents();
    let ids = pages_from(meta.page_count);
    let pages = pages_of(contents);
    let fh = choose|fh: nat| #[trigger] free_apart(pages, meta, h, fh);
    lemma_user_pages_inside(pages, meta, h);
    assert forall|p: u64| #[trigger] vital_pages(pages, meta, h, fh).contains(p) implies !ids.contains(
        p,
    ) by {
        if user_pages(pages, meta, h).contains(p) {
            assert(in_snapshot(p, meta.page_count));
        } else {
            assert(free_owns(pages, meta.free_root, fh, p));
            assert(in_snapshot(p, meta.page_count));
        }
    }
    lemma_complete_carried(contents, after, meta, rows, h, fh, ids);
    law_whole_is_complete(db, h);
    if leakless(contents, meta, h) {
        let other = choose|other: nat| #[trigger] covered(pages, meta, h, other);
        lemma_free_height(pages, meta.free_root, fh, other);
        assert(covered(pages_of(after), meta, h, fh));
    }
}

/// A whole generation can be opened.
pub proof fn law_complete_opens(contents: Seq<u8>, meta: Meta, rows: Seq<Row>, h: nat)
    requires
        complete(contents, meta, rows, h),
    ensures
        attachable(contents, meta),
{
    let fh = choose|fh: nat| #[trigger] free_apart(pages_of(contents), meta, h, fh);
    assert(free_sound(pages_of(contents), meta, fh));
}

// ---------------------------------------------------------------------------
// Which generation a file names
// ---------------------------------------------------------------------------

/// The record of a metadata page of a file, if the page is there and valid.
#[verifier::opaque]
pub open spec fn record_at(contents: Seq<u8>, slot: u64) -> Option<Meta> {
    record_in(
        if pages_of(contents).contains_key(slot) {
            Some(pages_of(contents)[slot])
        } else {
            None
        },
    )
}

impl<I: Storage> Database<I> {
    /// Whether the metadata page of the current generation records it.
    pub open spec fn recorded(&self) -> bool {
        record_at(self.source.storage.contents(), self.publication.current.slot) == Some(self.meta())
    }
}

/// The generation that a file names.
pub open spec fn named(contents: Seq<u8>) -> Option<Published> {
    newest(record_at(contents, 0), record_at(contents, 1))
}

/// The newer of two recorded generations is named, and either one if it alone is recorded.
pub proof fn law_named(contents: Seq<u8>, slot: u64, meta: Meta)
    requires
        slot < META_PAGES,
        record_at(contents, slot) == Some(meta),
    ensures
        record_at(contents, (1 - slot) as u64) is None ==> named(contents) == Some(
            Published { meta, slot },
        ),
        record_at(contents, (1 - slot) as u64) matches Some(other) ==> {
            &&& other.generation < meta.generation ==> named(contents) == Some(
                Published { meta, slot },
            )
            &&& other.generation > meta.generation ==> named(contents) == Some(
                Published { meta: other, slot: (1 - slot) as u64 },
            )
        },
{
    if slot == 0 {
        assert((1 - slot) as u64 == 1);
    } else {
        assert((1 - slot) as u64 == 0);
    }
}

// ---------------------------------------------------------------------------
// Crashes
// ---------------------------------------------------------------------------

/// A commit is atomic: an image that a crash left behind while the metadata page was being
/// written names the generation before the commit, unless that page made it to the medium,
/// and then the next one. Either is whole. What the page may hold else is damage that its
/// checksum gives away, or the older record that was there before.
pub proof fn law_commit_is_atomic<I: Storage>(
    db: Database<I>,
    txn: WriteTxn,
    image: Seq<u8>,
    meta: Meta,
    h: nat,
)
    requires
        db.inv(),
        db.recorded(),
        staged(db, txn, image, meta, h),
        record_at(image, db.other_slot()) matches Some(other) ==> other == meta
            || other.generation < db.meta().generation,
    ensures
        record_at(image, db.other_slot()) == Some(meta) ==> {
            &&& named(image) == Some(Published { meta, slot: db.other_slot() })
            &&& complete(image, meta, txn.rows(db.pages()), txn.tree.height@)
            &&& txn.tree.branches(db.pages()) ==> tree_branches(
                pages_of(image),
                meta,
                txn.tree.height@,
            )
        },
        record_at(image, db.other_slot()) != Some(meta) ==> {
            &&& named(image) == Some(db.publication.current)
            &&& complete(image, db.meta(), rows_at(db.pages(), db.meta(), h), h)
            &&& tree_branches(db.pages(), db.meta(), h) ==> tree_branches(
                pages_of(image),
                db.meta(),
                h,
            )
        },
{
    law_named(image, db.publication.current.slot, db.meta());
}

/// Whether every image that a crash may leave behind names the current generation and
/// agrees with what is stored but for spare pages.
pub open spec fn at_rest<I: Storage>(db: Database<I>) -> bool {
    forall|image: Seq<u8>| #[trigger] db.source.storage.survives(image) ==> rests(db, image)
}

/// Whether an image names the current generation and agrees with what is stored but for
/// spare pages.
pub open spec fn rests<I: Storage>(db: Database<I>, image: Seq<u8>) -> bool {
    &&& forall|floor: u64| #[trigger]
        db.floor(floor) ==> keeps(db.source.storage.contents(), image, db.spare(floor))
    &&& db.meta().page_count * PAGE_SIZE <= image.len()
    &&& record_at(image, db.other_slot()) matches Some(other) ==> other.generation
        < db.meta().generation
}

/// A database whose every image names the current generation still does so while the pages
/// of a commit are written: a crash before the metadata page is touched loses nothing.
pub proof fn law_unpublished_is_lost<I: Storage>(db: Database<I>, image: Seq<u8>, h: nat)
    requires
        db.inv(),
        db.whole(h),
        db.recorded(),
        at_rest(db),
        unpublished(db, image),
    ensures
        named(image) == Some(db.publication.current),
        complete(image, db.meta(), rows_at(db.pages(), db.meta(), h), h),
        tree_branches(db.pages(), db.meta(), h) ==> tree_branches(pages_of(image), db.meta(), h),
{
    let (base, floor) = choose|base: Seq<u8>, floor: u64| #[trigger]
        db.source.storage.survives(base) && #[trigger] db.floor(floor) && keeps(
            base,
            image,
            db.writable(floor),
        ) && lasts(base, image, db.meta().page_count);
    assert(rests(db, base));
    assert(keeps(db.source.storage.contents(), base, db.spare(floor)));
    assert(keeps(db.source.storage.contents(), image, db.spare(floor)));
    lemma_base_complete(db, image, floor, h);
    lemma_slot_kept(db, image, floor);
    assert(record_at(image, db.other_slot()) == record_at(base, db.other_slot())) by {
        let other = db.other_slot();
        assert(!db.writable(floor).contains(other));
        assert(pages_of(base).contains_key(other));
        reveal(record_at);
    }
    law_named(image, db.publication.current.slot, db.meta());
}

/// After a strict commit every image that a crash may leave behind names the new
/// generation.
pub proof fn law_strict_commit_rests<I: Storage>(a: Database<I>, b: Database<I>, txn: WriteTxn)
    requires
        advanced(a, b, txn),
        a.publication_ok(),
        a.recorded(),
        a.durability == Durability::Strict,
    ensures
        at_rest(b),
{
    assert forall|image: Seq<u8>| #[trigger] b.source.storage.survives(image) implies rests(b, image) by {
        assert(image == b.source.storage.contents());
        assert(b.other_slot() == a.publication.current.slot);
    }
}

/// A reader keeps its snapshot: whatever is committed while it is open, it reads the same
/// rows.
pub proof fn law_snapshot_is_stable<I: Storage>(
    a: Database<I>,
    b: Database<I>,
    txn: WriteTxn,
    reader: ReadTxn,
    h: nat,
)
    requires
        advanced(a, b, txn) || stays(a, b),
        a.guards(reader.meta, h),
        a.snapshots@.contains_key(reader.meta.generation),
    ensures
        b.guards(reader.meta, h),
        b.snapshots@.contains_key(reader.meta.generation),
        rows_at(b.pages(), reader.meta, h) == rows_at(a.pages(), reader.meta, h),
{
    assert(b.retains(reader.meta.generation));
}

/// What was committed is there when the file is opened again.
pub proof fn law_commit_persists<I: Storage, J: Storage>(
    a: Database<I>,
    b: Database<I>,
    txn: WriteTxn,
    h: nat,
    reopened: Database<J>,
)
    requires
        a.inv(),
        a.recorded(),
        advanced(a, b, txn),
        holds_txn(a, b, txn, h),
        reopened.inv(),
        opened_from(reopened, b.source.storage.contents()),
    ensures
        reopened.publication.current == b.publication.current,
        reopened.whole(txn.tree.height@),
        rows_at(reopened.pages(), reopened.meta(), txn.tree.height@) == txn.rows(a.pages()),
        a.sealed(h) ==> reopened.sealed(txn.tree.height@),
        txn.tree.branches(a.pages()) ==> tree_branches(
            reopened.pages(),
            reopened.meta(),
            txn.tree.height@,
        ),
{
    let contents = b.source.storage.contents();
    let height = txn.tree.height@;
    lemma_names_newest(contents, reopened.publication, b.publication.current, a.meta());
    law_whole_is_complete(b, height);
    law_open_restores(reopened, contents, txn.rows(a.pages()), height);
}

/// A publication that was chosen from a file is the newest record.
proof fn lemma_names_newest(
    contents: Seq<u8>,
    publication: Publication,
    newer: Published,
    older: Meta,
)
    requires
        chosen_from(pages_of(contents), publication),
        newer.slot < META_PAGES,
        record_at(contents, newer.slot) == Some(newer.meta),
        record_at(contents, (1 - newer.slot) as u64) == Some(older),
        older.generation < newer.meta.generation,
    ensures
        publication.current == newer,
{
    reveal(record_at);
    if newer.slot == 0 {
        assert((1 - newer.slot) as u64 == 1);
    } else {
        assert((1 - newer.slot) as u64 == 0);
    }
}

/// A commit, whether it goes through or not, leaves the bytes of every page of every
/// generation that was readable before it, and of the free tree, as they were.
pub proof fn law_commit_keeps_pages<I: Storage>(
    a: Database<I>,
    b: Database<I>,
    txn: WriteTxn,
    meta: Meta,
    h: nat,
    id: u64,
)
    requires
        a.inv(),
        spares(a, b) || planned(a, b, txn),
        a.guards(meta, h),
        user_pages(a.pages(), meta, h).contains(id) || a.free.pages@.contains(id),
        a.pages().contains_key(id),
    ensures
        b.pages().contains_key(id),
        b.pages()[id] == a.pages()[id],
{
    let floor = if spares(a, b) {
        choose|floor: u64| #[trigger]
            a.floor(floor) && keeps(a.source.storage.contents(), b.source.storage.contents(), a.spare(floor))
    } else {
        let chosen = choose|plan: CommitPlan, floor: u64| #[trigger]
            follows_plan(a, b, txn, plan, floor);
        chosen.1
    };
    lemma_guarded_not_spare(a, floor, meta, h);
    lemma_free_not_spare(a, floor);
}

/// A commit makes the file grow only where every page that no retained generation needs is
/// used again: none of those that are free afterwards was last used before all of them.
pub proof fn law_reuse_before_growth<I: Storage>(
    a: Database<I>,
    b: Database<I>,
    txn: WriteTxn,
    plan: CommitPlan,
    floor: u64,
)
    requires
        a.inv(),
        follows_plan(a, b, txn, plan, floor),
        b.meta().page_count > a.meta().page_count,
    ensures
        forall|page: u64| #[trigger] b.entries().contains_key(page) ==> b.entries()[page] >= floor,
{
    let slot = a.publication.current.slot as int;
    assert(a.publication.slots@[slot] == Some(a.meta()));
    assert(a.retains(a.meta().generation));
    lemma_floor_below(a, floor, a.meta().generation);
    lemma_plan_exhausts(plan, a, txn.tree, floor);
}

/// The fallback pages are the pages that the commit made free: those of the former user tree
/// that it replaced and those of the former free tree. Each of them was last used by the former
/// generation, and where no free page was before, they are all the free pages of that kind. If
/// no page was leaked, no page of the former user tree that the new one lacks is missing.
#[verifier::rlimit(40)]
#[verifier::spinoff_prover]
pub proof fn law_fallback_pages<I: Storage>(a: Database<I>, b: Database<I>, txn: WriteTxn, h: nat)
    requires
        a.inv(),
        ready(txn, a, h),
        planned(a, b, txn),
    ensures
        b.meta().fallback_pages == b.entries().dom().difference(a.entries().dom()).len(),
        forall|p: u64| #[trigger]
            b.entries().contains_key(p) && !a.entries().contains_key(p) ==> b.entries()[p]
                == a.meta().generation && (user_pages(a.pages(), a.meta(), h).contains(p)
                || a.free.pages@.contains(p)),
        (forall|p: u64| #[trigger]
            a.entries().contains_key(p) ==> a.entries()[p] < a.meta().generation)
            ==> b.meta().fallback_pages == used_by(b.entries(), a.meta().generation).len(),
        b.meta().fallback_pages > 0 ==> forall|p: u64| #[trigger]
            a.free.pages@.contains(p) ==> b.entries().contains_key(p),
        b.meta().fallback_pages == 0 ==> b.entries() == a.entries() && b.free.pages@
            == a.free.pages@,
        b.meta().fallback_pages > 0 && a.sealed(h) && b.whole(txn.tree.height@) && b.sealed(
            txn.tree.height@,
        ) ==> b.entries().dom().difference(a.entries().dom()) == a.free.pages@.union(
            user_pages(a.pages(), a.meta(), h).difference(
                user_pages(b.pages(), b.meta(), txn.tree.height@),
            ),
        ),
{
    let (plan, floor) = choose|plan: CommitPlan, floor: u64| #[trigger]
        follows_plan(a, b, txn, plan, floor);
    let before = a.entries();
    let after = b.entries();
    let generation = a.meta().generation;
    let retired = plan.user.finished.retired@;
    let old_pages = plan.old_pages@;
    let news = after.dom().difference(before.dom());
    let slot = a.publication.current.slot as int;
    assert(a.publication.slots@[slot] == Some(a.meta()));
    assert(a.retains(generation));
    lemma_floor_below(a, floor, generation);
    lemma_user_pages_inside(a.pages(), a.meta(), h);
    assert forall|p: u64| #[trigger] retired.contains(p) implies user_pages(
        a.pages(),
        a.meta(),
        h,
    ).contains(p) && !before.contains_key(p) && !a.free.pages@.contains(p) && in_snapshot(
        p,
        a.meta().page_count,
    ) by {
        assert(retired.to_set().contains(p));
        assert(txn.tree.base@.contains(p));
    }
    assert forall|p: u64| #[trigger] old_pages.contains(p) == a.free.pages@.contains(p) by {
        assert(old_pages.to_set().contains(p) == a.free.pages@.contains(p));
    }
    if plan.changed {
        let left = plan.left(before);
        let middle = with_pages(left, retired, generation);
        let offered = plan.offered(before, generation);
        assert(left.dom() =~= before.dom().difference(plan.user.allocations@.to_set()));
        lemma_with_pages(left, retired, generation);
        lemma_with_pages(middle, old_pages, generation);
        let taken = plan.free_allocations@;
        assert forall|p: u64| (retired.contains(p) || old_pages.contains(p)) implies !(
        #[trigger] taken.contains(p)) by {
            if taken.contains(p) {
                let k = choose|k: int| 0 <= k < taken.len() && taken[k] == p;
                assert(in_snapshot(p, a.meta().page_count));
                assert(offered.contains_key(p));
            }
        }
        assert forall|p: u64| #[trigger] news.contains(p) == (retired + old_pages).contains(p) by {
            assert(middle.contains_key(p) == (left.contains_key(p) || retired.contains(p)));
            assert(offered.contains_key(p) == (middle.contains_key(p) || old_pages.contains(p)));
            assert(after.contains_key(p) == (offered.contains_key(p) && !taken.contains(p)));
            if retired.contains(p) {
                let i = choose|i: int| 0 <= i < retired.len() && retired[i] == p;
                assert((retired + old_pages)[i] == p);
            }
            if old_pages.contains(p) {
                let i = choose|i: int| 0 <= i < old_pages.len() && old_pages[i] == p;
                assert((retired + old_pages)[retired.len() + i] == p);
            }
            if (retired + old_pages).contains(p) {
                let i = choose|i: int|
                    0 <= i < (retired + old_pages).len() && (retired + old_pages)[i] == p;
                if i < retired.len() {
                    assert(retired[i] == p);
                } else {
                    assert(old_pages[i - retired.len()] == p);
                }
            }
        }
        let both = retired + old_pages;
        assert(both.no_duplicates()) by {
            assert forall|i: int, j: int| 0 <= i < both.len() && 0 <= j < both.len() && i != j implies
                both[i] != both[j] by {
                let n = retired.len();
                if i < n && j >= n {
                    assert(retired.contains(retired[i]));
                    assert(old_pages.contains(old_pages[j - n]));
                } else if i >= n && j < n {
                    assert(retired.contains(retired[j]));
                    assert(old_pages.contains(old_pages[i - n]));
                }
            }
        }
        both.unique_seq_to_set();
        assert(news =~= both.to_set());
        assert forall|p: u64| #[trigger] after.contains_key(p) && !before.contains_key(p) implies after[p]
            == generation && (user_pages(a.pages(), a.meta(), h).contains(p)
            || a.free.pages@.contains(p)) by {
            assert(news.contains(p));
            assert(offered.contains_key(p) && middle.contains_key(p) == (left.contains_key(p)
                || retired.contains(p)));
            assert(retired.contains(p) || old_pages.contains(p)) by {
                let i = choose|i: int| 0 <= i < both.len() && both[i] == p;
                if i < retired.len() {
                    assert(retired[i] == p);
                } else {
                    assert(old_pages[i - retired.len()] == p);
                }
            }
        }
        assert forall|p: u64| #[trigger] a.free.pages@.contains(p) implies after.contains_key(p) by {
            assert(old_pages.contains(p));
            assert(offered.contains_key(p));
        }
        if forall|p: u64| #[trigger] before.contains_key(p) ==> before[p] < generation {
            assert(used_by(after, generation) =~= news) by {
                assert forall|p: u64| used_by(after, generation).contains(p) == news.contains(p) by {
                    if after.contains_key(p) && before.contains_key(p) {
                        assert(offered.contains_key(p));
                        assert(middle.contains_key(p) == (left.contains_key(p)
                            || retired.contains(p)));
                        assert(!retired.contains(p));
                        assert(!old_pages.contains(p));
                        assert(after[p] == before[p]);
                    }
                }
            }
        }
        if a.sealed(h) && b.sealed(txn.tree.height@) && b.whole(txn.tree.height@) {
            let replaced = user_pages(a.pages(), a.meta(), h).difference(
                user_pages(b.pages(), b.meta(), txn.tree.height@),
            );
            assert forall|p: u64| news.contains(p) == a.free.pages@.union(replaced).contains(p) by {
                if news.contains(p) {
                    assert(after.contains_key(p) && !before.contains_key(p));
                }
                if replaced.contains(p) {
                    assert(in_snapshot(p, a.meta().page_count));
                    assert(in_snapshot(p, b.meta().page_count));
                    if b.free.pages@.contains(p) {
                        assert(taken.contains(p));
                        let k = choose|k: int| 0 <= k < taken.len() && taken[k] == p;
                        assert(offered.contains_key(taken[k]));
                        assert(middle.contains_key(p) == (left.contains_key(p)
                            || retired.contains(p)));
                        assert(false);
                    }
                    assert(after.contains_key(p));
                }
            }
            assert(news =~= a.free.pages@.union(replaced));
        }
    } else {
        assert(news =~= Set::<u64>::empty());
        assert(b.free.pages@ =~= a.free.pages@);
        if forall|p: u64| #[trigger] before.contains_key(p) ==> before[p] < generation {
            assert(used_by(after, generation) =~= Set::<u64>::empty());
        }
    }
}

/// A commit leaves the file with as many whole pages as the new generation counts.
pub proof fn law_file_ends_with_the_last_page<I: Storage>(a: Database<I>, b: Database<I>, txn: WriteTxn)
    requires
        a.inv(),
        planned(a, b, txn),
        b.meta().page_count >= a.meta().page_count,
    ensures
        b.source.storage.contents().len() / 4096 == b.meta().page_count,
        b.meta().page_count > a.meta().page_count ==> b.source.storage.contents().len()
            == b.meta().page_count * 4096,
{
    let (plan, floor) = choose|plan: CommitPlan, floor: u64| #[trigger]
        follows_plan(a, b, txn, plan, floor);
}

/// A commit publishes the next generation in the other metadata page, which takes the place of
/// the one before the last; readers and the durability policy stay.
pub proof fn law_commit_advances_by_one<I: Storage>(
    a: Database<I>,
    b: Database<I>,
    txn: WriteTxn,
    h: nat,
)
    requires
        a.inv(),
        advanced(a, b, txn),
        holds_txn(a, b, txn, h),
    ensures
        b.meta().generation == a.meta().generation + 1,
        b.publication.current.slot == 1 - a.publication.current.slot,
        b.publication.slots@[b.publication.current.slot as int] == Some(b.meta()),
        b.publication.slots@[a.publication.current.slot as int] == Some(a.meta()),
        b.meta().item_count == txn.rows(a.pages()).len(),
        b.meta().logical_bytes == weight(txn.rows(a.pages())),
        b.snapshots@ == a.snapshots@,
        b.durability == a.durability,
{
    assert(b.publication.slots@.len() == 2);
}

} // verus!
