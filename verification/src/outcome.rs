//! When operations go through: nothing fails for the storage unless the storage failed.
use crate::canonical::sorted_rows;
use crate::collect::pairs_of;
use crate::commit::committable;
use crate::compact::{copyable, law_tree_rows, readable};
use crate::db::{root_of, rows_at, tree_stands, user_pages, weight, Database};
use crate::error::{Error, Result};
use crate::format::{MAX_KEY_SIZE, MAX_VALUE_SIZE, PAGE_SIZE};
use crate::free::LEAF_CAPACITY;
use crate::io::{mute, struck, Storage};
use crate::model::{is_tree, lemma_height_unique, map_of, published, tree_rows, Row};
use crate::order::lt;
use crate::plan::user_demand;
use crate::open::canonical;
use crate::reader::{PageReader, MAX_DEPTH};
use crate::recovery::{complete, law_complete_opens, law_open_restores, named, record_at};
use crate::space::Published;
use crate::txn::{law_scan_range, law_select, scannable, Bound, ReadTxn, Scan, ValueGuard};
use crate::write::WriteTxn;
use vstd::prelude::*;

verus! {

/// A lookup in a well-formed tree below the depth limit gives what the tree holds under the key,
/// unless a call to the storage failed or made no progress meanwhile.
pub proof fn law_lookup_goes_through<I: Storage>(
    txn: &ReadTxn,
    db: &mut Database<I>,
    key: &[u8],
    result: Result<Option<ValueGuard>>,
    h: nat,
)
    requires
        call_ensures(ReadTxn::get::<I>, (txn, db, key), result),
        tree_stands(old(db).pages(), txn.meta, h),
        h < MAX_DEPTH,
        key@.len() <= MAX_KEY_SIZE,
        final(db).failures() == old(db).failures(),
    ensures
        result matches Ok(outcome) && match outcome {
            Some(value) => map_of(rows_at(old(db).pages(), txn.meta, h)).contains_key(key@)
                && map_of(rows_at(old(db).pages(), txn.meta, h))[key@] == value.bytes(),
            None => !map_of(rows_at(old(db).pages(), txn.meta, h)).contains_key(key@),
        },
{
    assert(tree_stands(old(db).pages(), txn.meta, h));
}

/// Where a call to the storage fails during a lookup in the current generation, the lookup gives
/// the error of that call, and where none failed or made no progress, it gives no I/O error.
pub proof fn law_lookup_passes_errors_on<I: Storage>(
    txn: &ReadTxn,
    db: &mut Database<I>,
    key: &[u8],
    result: Result<Option<ValueGuard>>,
    cause: std::io::Error,
)
    requires
        call_ensures(ReadTxn::get::<I>, (txn, db, key), result),
        txn.meta.page_count <= old(db).meta().page_count,
        result == Err::<Option<ValueGuard>, Error>(Error::Io(cause)),
    ensures
        final(db).failures() > old(db).failures(),
        final(db).source.storage.reported() matches Some(given) ==> given == cause,
{
}

/// Where a call to the storage fails during a commit, the commit gives the error of that call,
/// and an I/O error comes where a call failed or made no progress, or the storage cannot tell
/// its length.
pub proof fn law_commit_passes_errors_on<I: Storage>(
    txn: WriteTxn,
    db: &mut Database<I>,
    result: Result<()>,
    cause: std::io::Error,
)
    requires
        call_ensures(WriteTxn::commit::<I>, (txn, db), result),
        !mute(&old(db).source.storage),
        result == Err::<(), Error>(Error::Io(cause)),
    ensures
        final(db).failures() > old(db).failures(),
        final(db).source.storage.reported() matches Some(given) ==> given == cause,
{
}

/// A scan of a well-formed tree below the depth limit that holds as many rows as recorded gives
/// its rows between the bounds, in the order of their keys, unless a call to the storage failed
/// or made no progress meanwhile.
pub proof fn law_scan_goes_through<I: Storage>(
    txn: &ReadTxn,
    db: &mut Database<I>,
    start: Bound,
    end: Bound,
    result: Result<Scan>,
    h: nat,
    row: Row,
)
    requires
        call_ensures(ReadTxn::scan::<I>, (txn, db, start, end), result),
        tree_stands(old(db).pages(), txn.meta, h),
        h < MAX_DEPTH,
        rows_at(old(db).pages(), txn.meta, h).len() == txn.meta.item_count,
        start matches Bound::Included(key) ==> key@.len() <= MAX_KEY_SIZE,
        start matches Bound::Excluded(key) ==> key@.len() <= MAX_KEY_SIZE,
        end matches Bound::Included(key) ==> key@.len() <= MAX_KEY_SIZE,
        end matches Bound::Excluded(key) ==> key@.len() <= MAX_KEY_SIZE,
        final(db).failures() == old(db).failures(),
    ensures
        result matches Ok(scan) && sorted_rows(scan.left()) && (scan.left().contains(row) <==> {
            &&& rows_at(old(db).pages(), txn.meta, h).contains(row)
            &&& start matches Bound::Included(first) ==> !lt(row.0, first@)
            &&& start matches Bound::Excluded(first) ==> lt(first@, row.0)
            &&& end matches Bound::Included(last) ==> !lt(last@, row.0)
            &&& end matches Bound::Excluded(last) ==> lt(row.0, last@)
        }),
{
    let pages = old(db).pages();
    let env = published(pages, txn.meta.page_count);
    let r = root_of(txn.meta);
    let rows = rows_at(pages, txn.meta, h);
    assert(is_tree(env, r, h));
    let other = choose|other: nat| is_tree(env, r, other);
    lemma_height_unique(env, r, h, other);
    assert(tree_rows(env, r) == Some(rows));
    assert(scannable(pages, txn.meta));
    law_tree_rows(env, r, h);
    law_select(rows, start, end);
    law_scan_range(rows, start, end, row);
}

/// A scan that goes through has found a well-formed tree below the depth limit that holds as
/// many rows as recorded.
pub proof fn law_scan_checks_the_tree<I: Storage>(
    txn: &ReadTxn,
    db: &mut Database<I>,
    start: Bound,
    end: Bound,
    result: Result<Scan>,
)
    requires
        call_ensures(ReadTxn::scan::<I>, (txn, db, start, end), result),
        result is Ok,
    ensures
        exists|h: nat| #[trigger]
            tree_stands(old(db).pages(), txn.meta, h) && h < 64 && rows_at(
                old(db).pages(),
                txn.meta,
                h,
            ).len() == txn.meta.item_count,
{
    let env = published(old(db).pages(), txn.meta.page_count);
    let r = root_of(txn.meta);
    let h = choose|h: nat| h < MAX_DEPTH && #[trigger] is_tree(env, r, h);
    let other = choose|other: nat| is_tree(env, r, other);
    lemma_height_unique(env, r, h, other);
    assert(tree_stands(old(db).pages(), txn.meta, h));
}

/// A put that the transaction has room for goes through, unless a call to the storage failed or
/// made no progress meanwhile.
pub proof fn law_put_goes_through<I: Storage>(
    txn: &mut WriteTxn,
    db: &mut Database<I>,
    key: &[u8],
    value: &[u8],
    result: Result<()>,
)
    requires
        call_ensures(WriteTxn::put::<I>, (txn, db, key, value), result),
        old(txn).sound(old(db).pages()),
        old(txn).tree.height@ < MAX_DEPTH,
        old(txn).tree.fits(old(db).pages()),
        old(txn).item_count < u64::MAX,
        old(txn).logical_bytes + key@.len() + value@.len() <= u64::MAX,
        key@.len() <= MAX_KEY_SIZE,
        value@.len() <= MAX_VALUE_SIZE,
        final(db).failures() == old(db).failures(),
    ensures
        result is Ok,
        final(txn).contents(old(db).pages()) == old(txn).contents(old(db).pages()).insert(
            key@,
            value@,
        ),
{
}

/// A removal from a well-formed transaction goes through, unless a call to the storage failed or
/// made no progress meanwhile.
pub proof fn law_delete_goes_through<I: Storage>(
    txn: &mut WriteTxn,
    db: &mut Database<I>,
    key: &[u8],
    result: Result<bool>,
)
    requires
        call_ensures(WriteTxn::delete::<I>, (txn, db, key), result),
        old(txn).sound(old(db).pages()),
        old(txn).tree.height@ < MAX_DEPTH,
        old(txn).tree.fits(old(db).pages()),
        key@.len() <= MAX_KEY_SIZE,
        final(db).failures() == old(db).failures(),
    ensures
        result == Ok::<bool, Error>(
            old(txn).contents(old(db).pages()).contains_key(key@),
        ),
        final(txn).contents(old(db).pages()) == old(txn).contents(old(db).pages()).remove(key@),
{
}

/// A transaction that can be committed is committed, unless a call to the storage failed or made
/// no progress meanwhile, or the storage cannot tell its length.
pub proof fn law_commit_goes_through<I: Storage>(
    txn: WriteTxn,
    db: &mut Database<I>,
    result: Result<()>,
    h: nat,
)
    requires
        call_ensures(WriteTxn::commit::<I>, (txn, db), result),
        old(db).whole(h),
        txn.sound(old(db).pages()),
        txn.tree.base@ == user_pages(old(db).pages(), old(db).meta(), h),
        txn.tree.height@ < MAX_DEPTH,
        txn.tree.fits(old(db).pages()),
        old(db).meta().generation < u64::MAX,
        (old(db).meta().page_count + user_demand(txn.tree, old(db).pages()) + 3 * ((old(
            db,
        ).entries().dom().len() + txn.tree.retired@.len() + old(db).free.pages@.len())
            / LEAF_CAPACITY as nat + 1)) * PAGE_SIZE <= u64::MAX,
        user_demand(txn.tree, old(db).pages()) <= usize::MAX,
        final(db).failures() == old(db).failures(),
        !mute(&old(db).source.storage),
    ensures
        result is Ok,
{
    assert(committable(txn, *old(db), h));
}

/// The rows of a well-formed tree below the depth limit that holds as many as recorded are read
/// in full, unless a call to the storage failed or made no progress meanwhile.
pub proof fn law_rows_go_through<I: Storage>(
    db: &mut Database<I>,
    result: Result<Vec<(Vec<u8>, Vec<u8>)>>,
    h: nat,
)
    requires
        call_ensures(Database::<I>::rows, (db,), result),
        tree_stands(old(db).pages(), old(db).meta(), h),
        h < MAX_DEPTH,
        rows_at(old(db).pages(), old(db).meta(), h).len() == old(db).meta().item_count,
        final(db).failures() == old(db).failures(),
    ensures
        result matches Ok(rows) && pairs_of(rows@) == rows_at(old(db).pages(), old(db).meta(), h),
{
    let pages = old(db).pages();
    let meta = old(db).meta();
    assert(readable(pages, meta, h));
    if let Ok(rows) = result {
        let other = choose|other: nat| #[trigger]
            readable(pages, meta, other) && pairs_of(rows@) == rows_at(pages, meta, other);
        assert(is_tree(published(pages, meta.page_count), root_of(meta), other));
        lemma_height_unique(published(pages, meta.page_count), root_of(meta), h, other);
    }
}

/// A generation that can be read is copied to other storage, unless a call to either storage
/// failed or made no progress meanwhile, or its rows are too many for the page numbers of a file.
pub proof fn law_compaction_goes_through<I: Storage, J: Storage>(
    db: &mut Database<I>,
    target: &mut J,
    result: Result<()>,
    h: nat,
)
    requires
        call_ensures(Database::<I>::compact_to::<J>, (db, target), result),
        tree_stands(old(db).pages(), old(db).meta(), h),
        h < MAX_DEPTH,
        rows_at(old(db).pages(), old(db).meta(), h).len() == old(db).meta().item_count,
        old(db).meta().item_count <= 0x8000_0000_0000_0000,
        (3 * old(db).meta().item_count + weight(rows_at(old(db).pages(), old(db).meta(), h)) + 4)
            * PAGE_SIZE <= u64::MAX,
        3 * old(db).meta().item_count + weight(rows_at(old(db).pages(), old(db).meta(), h)) + 1
            <= usize::MAX,
        final(db).failures() == old(db).failures(),
        final(target).failures() == old(target).failures(),
    ensures
        result is Ok,
        canonical(final(target).contents(), rows_at(old(db).pages(), old(db).meta(), h)),
{
    let pages = old(db).pages();
    let meta = old(db).meta();
    assert(copyable(pages, meta, h));
    if result is Ok {
        let other = choose|other: nat| #[trigger]
            tree_stands(pages, meta, other) && other < MAX_DEPTH && canonical(
                final(target).contents(),
                rows_at(pages, meta, other),
            );
        assert(is_tree(published(pages, meta.page_count), root_of(meta), other));
        lemma_height_unique(published(pages, meta.page_count), root_of(meta), h, other);
    }
}

/// A file whose newest generation is whole is opened, and gives its rows back, unless a call to
/// the storage failed or made no progress meanwhile.
pub proof fn law_open_goes_through<I: Storage>(
    storage: I,
    result: Result<Database<I>>,
    named_as: Published,
    rows: Seq<Row>,
    h: nat,
)
    requires
        call_ensures(Database::<I>::open, (storage,), result),
        named(storage.contents()) == Some(named_as),
        complete(storage.contents(), named_as.meta, rows, h),
        !struck(&storage),
    ensures
        result matches Ok(db) && db.publication.current == named_as && db.whole(h) && rows_at(
            db.pages(),
            db.meta(),
            h,
        ) == rows,
{
    let contents = storage.contents();
    reveal(record_at);
    law_complete_opens(contents, named_as.meta, rows, h);
    assert(contents.len() > 0);
    if let Ok(db) = result {
        assert(db.publication.current == named_as);
        law_open_restores(db, contents, rows, h);
    }
}

/// Empty storage becomes an empty database, unless a call to the storage failed or made no
/// progress meanwhile.
pub proof fn law_creation_goes_through<I: Storage>(storage: I, result: Result<Database<I>>)
    requires
        call_ensures(Database::<I>::open, (storage,), result),
        storage.contents().len() == 0,
        !struck(&storage),
    ensures
        result matches Ok(db) && db.whole(0) && rows_at(db.pages(), db.meta(), 0).len() == 0
            && db.meta().generation == 1 && db.meta().page_count == 4,
{
}

/// A commit, whether it goes through or not, brings no page into the cache and drops none from
/// it but free pages, pages of the free tree and pages behind the file.
pub proof fn law_commit_keeps_the_cache<I: Storage>(
    txn: WriteTxn,
    db: &mut Database<I>,
    result: Result<()>,
    id: u64,
)
    requires
        call_ensures(WriteTxn::commit::<I>, (txn, db), result),
    ensures
        final(db).at_hand().contains(id) ==> old(db).at_hand().contains(id),
        old(db).at_hand().contains(id) && 2 <= id < old(db).meta().page_count && !old(
            db,
        ).entries().contains_key(id) && !old(db).free.pages@.contains(id)
            ==> final(db).at_hand().contains(id),
        final(db).source.cache.limit() == old(db).source.cache.limit(),
        final(db).source.cache.counts() == old(db).source.cache.counts(),
{
}

/// A lookup that goes through drops no page from the cache while there is room for two more.
pub proof fn law_lookup_keeps_the_cache<I: Storage>(
    txn: &ReadTxn,
    db: &mut Database<I>,
    key: &[u8],
    result: Result<Option<ValueGuard>>,
    id: u64,
)
    requires
        call_ensures(ReadTxn::get::<I>, (txn, db, key), result),
        final(db).source.cache.queue().len() + 1 < final(db).source.cache.limit(),
        old(db).at_hand().contains(id),
    ensures
        final(db).at_hand().contains(id),
        final(db).source.cache.limit() == old(db).source.cache.limit(),
{
    assert(old(db).at_hand().subset_of(final(db).at_hand()));
    assert(final(db).source.origin() == old(db).source.origin());
}

} // verus!
