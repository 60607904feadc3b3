//! Read and write transactions.
use crate::commit::flushed;
use crate::collect::{collect, pairs_of};
use crate::db::{
    is_least_key, least_key, lemma_stored_in_full, root_of, rows_at, tree_stands, Database,
};
use crate::error::{corrupt, Error, Result};
use crate::format::{Meta, MAX_KEY_SIZE, MAX_VALUE_SIZE, PAGE_SIZE};
use crate::io::{blamed, len, mute, quiet, Call, Storage};
use crate::model::{flat, is_tree, map_of, published, read_value, tree_rows, Pages, Row};
use crate::node::{copy_bytes, PageRef};
use crate::order::{compare, group_order, law_prefix_range, le, lt, Order};
use crate::reader::{
    fails_for, found, lemma_search, near_below, search, search_near, steady, FoundValue, PageReader,
    MAX_DEPTH,
};
use crate::rows::law_lookup;
use crate::space::safe_generation;
use vstd::prelude::*;

verus! {

// ---------------------------------------------------------------------------
// Limits and bounds
// ---------------------------------------------------------------------------

/// Checks that a key is not too large.
pub fn validate_key(key: &[u8]) -> (result: Result<()>)
    ensures
        key@.len() <= MAX_KEY_SIZE ==> result is Ok,
        key@.len() > MAX_KEY_SIZE ==> result == Err::<(), Error>(
            Error::KeyTooLarge { actual: key@.len() as usize, maximum: MAX_KEY_SIZE },
        ),
{
    if key.len() > MAX_KEY_SIZE {
        return Err(Error::KeyTooLarge { actual: key.len(), maximum: MAX_KEY_SIZE });
    }
    Ok(())
}

/// Checks that a value is not too large.
pub fn validate_value(value: &[u8]) -> (result: Result<()>)
    ensures
        value@.len() <= MAX_VALUE_SIZE ==> result is Ok,
        value@.len() > MAX_VALUE_SIZE ==> result == Err::<(), Error>(
            Error::ValueTooLarge { actual: value@.len() as usize, maximum: MAX_VALUE_SIZE },
        ),
{
    if value.len() > MAX_VALUE_SIZE {
        return Err(Error::ValueTooLarge { actual: value.len(), maximum: MAX_VALUE_SIZE });
    }
    Ok(())
}

/// One end of a range of keys.
#[derive(Clone, Copy)]
pub enum Bound<'a> {
    /// The key belongs to the range.
    Included(&'a [u8]),
    /// The range ends just before or behind the key.
    Excluded(&'a [u8]),
    /// The range is open.
    Unbounded,
}

/// The length of the key of a bound.
pub open spec fn bound_len(bound: Bound) -> nat {
    match bound {
        Bound::Included(key) => key@.len(),
        Bound::Excluded(key) => key@.len(),
        Bound::Unbounded => 0,
    }
}

/// Whether a key lies behind the start of a range.
pub open spec fn after_start(key: Seq<u8>, bound: Bound) -> bool {
    match bound {
        Bound::Included(start) => le(start@, key),
        Bound::Excluded(start) => lt(start@, key),
        Bound::Unbounded => true,
    }
}

/// Whether a key lies before the end of a range.
pub open spec fn before_end(key: Seq<u8>, bound: Bound) -> bool {
    match bound {
        Bound::Included(end) => le(key, end@),
        Bound::Excluded(end) => lt(key, end@),
        Bound::Unbounded => true,
    }
}

/// Checks that the key of a bound is not too large.
pub fn validate_bound(bound: Bound) -> (result: Result<()>)
    ensures
        bound_len(bound) <= MAX_KEY_SIZE ==> result is Ok,
        bound_len(bound) > MAX_KEY_SIZE ==> result == Err::<(), Error>(
            Error::KeyTooLarge { actual: bound_len(bound) as usize, maximum: MAX_KEY_SIZE },
        ),
{
    match bound {
        Bound::Included(key) => validate_key(key),
        Bound::Excluded(key) => validate_key(key),
        Bound::Unbounded => Ok(()),
    }
}

/// Whether a key lies behind the start of a range.
pub fn within_start(key: &[u8], bound: Bound) -> (within: bool)
    ensures
        within == after_start(key@, bound),
        within == match bound {
            Bound::Included(start) => !lt(key@, start@),
            Bound::Excluded(start) => lt(start@, key@),
            Bound::Unbounded => true,
        },
{
    broadcast use group_order;

    match bound {
        Bound::Included(start) => !matches!(compare(key, start), Order::Less),
        Bound::Excluded(start) => matches!(compare(key, start), Order::Greater),
        Bound::Unbounded => true,
    }
}

/// Whether a key lies before the end of a range.
pub fn within_end(key: &[u8], bound: Bound) -> (within: bool)
    ensures
        within == before_end(key@, bound),
        within == match bound {
            Bound::Included(end) => !lt(end@, key@),
            Bound::Excluded(end) => lt(key@, end@),
            Bound::Unbounded => true,
        },
{
    broadcast use group_order;

    match bound {
        Bound::Included(end) => !matches!(compare(key, end), Order::Greater),
        Bound::Excluded(end) => matches!(compare(key, end), Order::Less),
        Bound::Unbounded => true,
    }
}

/// The start of a range cuts the keys in two: what lies behind a key that is within lies within,
/// the key of the start itself does exactly where it is included, and no key before it does.
pub proof fn law_start_cuts(key: Seq<u8>, other: Seq<u8>, start: Bound)
    ensures
        after_start(key, start) && lt(key, other) ==> after_start(other, start),
        start matches Bound::Included(first) ==> after_start(first@, start) && (lt(key, first@)
            <==> !after_start(key, start)),
        start matches Bound::Excluded(first) ==> !after_start(first@, start) && (lt(first@, key)
            <==> after_start(key, start)),
        start is Unbounded ==> after_start(key, start),
{
    broadcast use group_order;

}

/// The end of a range cuts the keys in two: what lies before a key that is within lies within,
/// the key of the end itself does exactly where it is included, and no key behind it does.
pub proof fn law_end_cuts(key: Seq<u8>, other: Seq<u8>, end: Bound)
    ensures
        before_end(key, end) && lt(other, key) ==> before_end(other, end),
        end matches Bound::Included(last) ==> before_end(last@, end) && (lt(last@, key)
            <==> !before_end(key, end)),
        end matches Bound::Excluded(last) ==> !before_end(last@, end) && (lt(key, last@)
            <==> before_end(key, end)),
        end is Unbounded ==> before_end(key, end),
{
    broadcast use group_order;

}

// ---------------------------------------------------------------------------
// The shared state
// ---------------------------------------------------------------------------

/// Whether two states of a database differ in the cache alone, and in what the storage keeps of
/// reads.
pub open spec fn same_but_cache<I: Storage>(a: Database<I>, b: Database<I>) -> bool {
    &&& b.source.origin() == a.source.origin()
    &&& b.publication == a.publication
    &&& b.snapshots == a.snapshots
    &&& b.free == a.free
    &&& b.durability == a.durability
}

/// What holds of a database holds of it with another cache that is in order.
pub proof fn lemma_same_but_cache<I: Storage>(a: Database<I>, b: Database<I>)
    requires
        a.inv(),
        same_but_cache(a, b),
        b.cache_ok(),
    ensures
        b.inv(),
        quiet(&a.source.storage, &b.source.storage),
        forall|h: nat| #[trigger] b.whole(h) == a.whole(h),
        forall|h: nat| #[trigger] b.sealed(h) == a.sealed(h),
        forall|meta: Meta, h: nat| #[trigger] b.guards(meta, h) == a.guards(meta, h),
{
    lemma_same_floor(a, b);
    assert forall|image: Seq<u8>| #[trigger]
        b.source.storage.survives(image) == a.source.storage.survives(image) by {
        assert(b.source.origin().images.contains(image) == a.source.origin().images.contains(
            image,
        ));
    }
}

/// The readers and the metadata decide which generation is the oldest to stay readable.
pub proof fn lemma_same_floor<I: Storage>(a: Database<I>, b: Database<I>)
    requires
        b.publication == a.publication,
        b.snapshots@ == a.snapshots@,
    ensures
        forall|floor: u64| #[trigger] b.floor(floor) == a.floor(floor),
{
    assert forall|floor: u64| #[trigger] b.floor(floor) == a.floor(floor) by {
        if a.floor(floor) {
            let oldest = choose|oldest: Option<u64>| #[trigger]
                is_least_key(a.snapshots@, oldest) && crate::space::is_floor(
                    a.publication,
                    oldest,
                    floor,
                );
            assert(is_least_key(b.snapshots@, oldest));
        }
        if b.floor(floor) {
            let oldest = choose|oldest: Option<u64>| #[trigger]
                is_least_key(b.snapshots@, oldest) && crate::space::is_floor(
                    b.publication,
                    oldest,
                    floor,
                );
            assert(is_least_key(a.snapshots@, oldest));
        }
    }
}

impl<I: Storage> Database<I> {
    /// Recounts the reusable pages.
    pub(crate) fn refresh_reusable_pages(&mut self)
        requires
            old(self).cache_ok(),
            old(self).publication_ok(),
            old(self).free_ok(),
            old(self).readers_ok(),
        ensures
            final(self).inv(),
            final(self).source.storage == old(self).source.storage,
            final(self).source.cache == old(self).source.cache,
            final(self).publication == old(self).publication,
            final(self).snapshots == old(self).snapshots,
            final(self).free.entries == old(self).free.entries,
            final(self).free.pages == old(self).free.pages,
            final(self).durability == old(self).durability,
    {
        let oldest = least_key(&self.snapshots);
        let floor = safe_generation(&self.publication, oldest);
        self.free.reusable_pages = crate::db::count_reusable(
            &self.free.entries,
            &self.free.generation_counts,
            floor,
        );
        proof {
            self.lemma_reusable(oldest, floor);
        }
    }

    /// Starts a stable read snapshot.
    pub fn read(&mut self) -> (result: Result<ReadTxn>)
        requires
            old(self).inv(),
        ensures
            final(self).inv(),
            final(self).source.storage == old(self).source.storage,
            final(self).source.cache == old(self).source.cache,
            final(self).publication == old(self).publication,
            final(self).entries() == old(self).entries(),
            final(self).free.pages == old(self).free.pages,
            final(self).durability == old(self).durability,
            ({
                let generation = old(self).meta().generation;
                let before = old(self).snapshots@;
                let count = if before.contains_key(generation) {
                    before[generation] as int
                } else {
                    0
                };
                match result {
                    Ok(txn) => {
                        &&& txn.meta == old(self).meta()
                        &&& final(self).snapshots@ == before.insert(
                            generation,
                            (count + 1) as u64,
                        )
                        &&& count < u64::MAX
                    },
                    Err(error) => error is Corrupt && count == u64::MAX && final(self).snapshots@
                        == before,
                }
            }),
            forall|h: nat| #[trigger]
                old(self).whole(h) ==> final(self).whole(h) && final(self).guards(
                    old(self).meta(),
                    h,
                ),
            forall|h: nat| #[trigger] old(self).sealed(h) ==> final(self).sealed(h),
            forall|meta: Meta, h: nat| #[trigger]
                old(self).guards(meta, h) ==> final(self).guards(meta, h),
    {
        broadcast use vstd::std_specs::btree::group_btree_axioms;

        let meta = self.publication.current.meta;
        let generation = meta.generation;
        let count: u64 = match self.snapshots.get(&generation) {
            Some(count) => *count,
            None => 0,
        };
        if count == u64::MAX {
            proof {
                assert forall|h: nat| #[trigger] old(self).whole(h) implies old(self).guards(
                    old(self).meta(),
                    h,
                ) by {
                    old(self).lemma_guards_current(h);
                }
            }
            return Err(corrupt("too many readers hold the generation"));
        }
        self.snapshots.insert(generation, count + 1);
        self.refresh_reusable_pages();
        proof {
            assert forall|h: nat| #[trigger] old(self).whole(h) implies self.whole(h)
                && self.guards(old(self).meta(), h) by {
                assert(self.whole(h));
                self.lemma_guards_current(h);
            }
        }
        Ok(ReadTxn { meta })
    }

    /// Ends a read snapshot.
    pub fn release(&mut self, txn: ReadTxn)
        requires
            old(self).inv(),
        ensures
            final(self).inv(),
            final(self).source.storage == old(self).source.storage,
            final(self).source.cache == old(self).source.cache,
            final(self).publication == old(self).publication,
            final(self).entries() == old(self).entries(),
            final(self).free.pages == old(self).free.pages,
            final(self).durability == old(self).durability,
            ({
                let generation = txn.meta.generation;
                let before = old(self).snapshots@;
                final(self).snapshots@ == if !before.contains_key(generation) {
                    before
                } else if before[generation] == 1 {
                    before.remove(generation)
                } else {
                    before.insert(generation, (before[generation] - 1) as u64)
                }
            }),
            forall|h: nat| #[trigger] old(self).whole(h) ==> final(self).whole(h),
            forall|h: nat| #[trigger] old(self).sealed(h) ==> final(self).sealed(h),
            forall|meta: Meta, h: nat| #[trigger]
                old(self).guards(meta, h) && final(self).retains(meta.generation) ==> final(self).guards(meta, h),
    {
        broadcast use vstd::std_specs::btree::group_btree_axioms;

        let generation = txn.meta.generation;
        let held = match self.snapshots.get(&generation) {
            Some(count) => *count,
            None => 0,
        };
        if held == 1 {
            self.snapshots.remove(&generation);
        } else if held > 1 {
            self.snapshots.insert(generation, held - 1);
        }
        self.refresh_reusable_pages();
    }

    /// Forces all issued writes to storage.
    pub fn sync(&mut self) -> (result: Result<()>)
        requires
            old(self).inv(),
        ensures
            final(self).inv(),
            final(self).source.storage.contents() == old(self).source.storage.contents(),
            final(self).publication == old(self).publication,
            final(self).snapshots == old(self).snapshots,
            final(self).free == old(self).free,
            final(self).source.cache == old(self).source.cache,
            final(self).durability == old(self).durability,
            result matches Err(error) ==> blamed(
                error,
                &old(self).source.storage,
                &final(self).source.storage,
            ),
            result is Ok ==> flushed(final(self).source.storage),
            final(self).source.storage.calls() == if result is Ok {
                old(self).source.storage.calls().push(Call::Sync)
            } else {
                old(self).source.storage.calls()
            },
            result is Err ==> forall|image: Seq<u8>| #[trigger]
                final(self).source.storage.survives(image) ==> old(self).source.storage.survives(image),
    {
        let result = crate::io::sync_all(&mut self.source.storage);
        proof {
            lemma_same_floor(*old(self), *self);
        }
        result
    }
}

/// A stable point-in-time read transaction.
///
/// Point-read guards and owning scan results may outlive it.
pub struct ReadTxn {
    pub meta: Meta,
}

/// A value returned by a point lookup.
///
/// The guard owns either a shared cache frame or assembled overflow bytes, so it may
/// outlive the read transaction and the database that produced it.
pub struct ValueGuard {
    found: FoundValue,
}

impl ValueGuard {
    /// Whether the value is a part of a page in memory, and not a copy.
    pub closed spec fn shares_page(&self) -> bool {
        self.found is Inline
    }

    /// The bytes of the value.
    pub closed spec fn bytes(&self) -> Seq<u8> {
        self.found.bytes()
    }

    /// Whether the guard came from a lookup.
    pub closed spec fn valid(&self) -> bool {
        self.found.valid()
    }

    /// Borrows the bytes of the value.
    pub fn as_slice(&self) -> (bytes: &[u8])
        requires
            self.valid(),
        ensures
            bytes@ == self.bytes(),
    {
        self.found.as_slice()
    }
}

impl ReadTxn {
    /// Whether the path to a key and its value are in the cache.
    pub open spec fn path_near(&self, pages: Pages, key: Seq<u8>, hand: Set<u64>) -> bool {
        search_near(
            published(pages, self.meta.page_count),
            root_of(self.meta),
            key,
            MAX_DEPTH as nat,
            hand,
        )
    }

    /// Returns the value associated with `key` in this snapshot.
    ///
    /// Inline values share a cache frame without copying. Values stored across overflow
    /// pages are assembled.
    pub fn get<I: Storage>(&self, db: &mut Database<I>, key: &[u8]) -> (result: Result<
        Option<ValueGuard>,
    >)
        requires
            old(db).inv(),
        ensures
            final(db).inv(),
            same_but_cache(*old(db), *final(db)),
            old(db).failures() <= final(db).failures(),
            final(db).source.cache.queue().len() + 1 < final(db).source.cache.limit() ==> old(
                db,
            ).at_hand().subset_of(final(db).at_hand()),
            result matches Err(error) ==> error is Io && self.meta.page_count <= old(db).meta().page_count
                ==> blamed(error, &old(db).source.storage, &final(db).source.storage),
            key@.len() > MAX_KEY_SIZE ==> result == Err::<Option<ValueGuard>, Error>(
                Error::KeyTooLarge { actual: key@.len() as usize, maximum: MAX_KEY_SIZE },
            ),
            key@.len() <= MAX_KEY_SIZE ==> {
                let env = published(old(db).pages(), self.meta.page_count);
                let path = search(env, root_of(self.meta), key@, MAX_DEPTH as nat);
                let outcome = found(env.pages, env.count, path);
                match result {
                    Ok(Some(value)) => value.valid() && outcome == Some(Some(value.bytes()))
                        && value.shares_page() == (path->0->0 is Inline),
                    Ok(None) => outcome == Some(None::<Seq<u8>>),
                    Err(error) => fails_for(
                        error,
                        outcome is None,
                        final(db).failures() > old(db).failures(),
                    ),
                }
            },
            forall|h: nat| #[trigger]
                tree_stands(old(db).pages(), self.meta, h) && h < MAX_DEPTH && key@.len()
                    <= MAX_KEY_SIZE ==> {
                    let map = map_of(rows_at(old(db).pages(), self.meta, h));
                    match result {
                        Ok(Some(value)) => map.contains_key(key@) && map[key@] == value.bytes(),
                        Ok(None) => !map.contains_key(key@),
                        Err(error) => error is Io && final(db).failures() > old(db).failures(),
                    }
                },
            steady(
                self.path_near(old(db).pages(), key@, old(db).at_hand()),
                old(db).at_hand(),
                final(db).at_hand(),
                result,
            ),
    {
        validate_key(key)?;
        let found_value = crate::reader::get(
            &mut db.source,
            self.meta.root,
            self.meta.page_count,
            key,
        );
        proof {
            lemma_same_but_cache(*old(db), *db);
            if self.meta.page_count <= old(db).meta().page_count {
                lemma_stored_in_full(*old(db), self.meta.page_count);
            }
            let pages = old(db).pages();
            let env = published(pages, self.meta.page_count);
            assert forall|h: nat| #[trigger]
                tree_stands(pages, self.meta, h) && h < MAX_DEPTH implies found(
                env.pages,
                env.count,
                search(env, root_of(self.meta), key@, MAX_DEPTH as nat),
            ) == Some(
                if map_of(rows_at(pages, self.meta, h)).contains_key(key@) {
                    Some(map_of(rows_at(pages, self.meta, h))[key@])
                } else {
                    None
                },
            ) by {
                lemma_tree_lookup(pages, self.meta, h, key@);
            }
        }
        match found_value {
            Ok(Some(value)) => Ok(Some(ValueGuard { found: value })),
            Ok(None) => Ok(None),
            Err(error) => Err(error),
        }
    }

    /// Reports whether `key` exists in this snapshot.
    pub fn contains_key<I: Storage>(&self, db: &mut Database<I>, key: &[u8]) -> (result: Result<bool>)
        requires
            old(db).inv(),
        ensures
            final(db).inv(),
            same_but_cache(*old(db), *final(db)),
            old(db).failures() <= final(db).failures(),
            final(db).source.cache.queue().len() + 1 < final(db).source.cache.limit() ==> old(
                db,
            ).at_hand().subset_of(final(db).at_hand()),
            result matches Err(error) ==> error is Io && self.meta.page_count <= old(db).meta().page_count
                ==> blamed(error, &old(db).source.storage, &final(db).source.storage),
            key@.len() > MAX_KEY_SIZE ==> result == Err::<bool, Error>(
                Error::KeyTooLarge { actual: key@.len() as usize, maximum: MAX_KEY_SIZE },
            ),
            key@.len() <= MAX_KEY_SIZE ==> {
                let env = published(old(db).pages(), self.meta.page_count);
                let outcome = found(
                    env.pages,
                    env.count,
                    search(env, root_of(self.meta), key@, MAX_DEPTH as nat),
                );
                match result {
                    Ok(present) => outcome is Some && present == (outcome->0 is Some),
                    Err(error) => fails_for(
                        error,
                        outcome is None,
                        final(db).failures() > old(db).failures(),
                    ),
                }
            },
            forall|h: nat| #[trigger]
                tree_stands(old(db).pages(), self.meta, h) && h < MAX_DEPTH && key@.len()
                    <= MAX_KEY_SIZE ==> match result {
                    Ok(present) => present == map_of(
                        rows_at(old(db).pages(), self.meta, h),
                    ).contains_key(key@),
                    Err(error) => error is Io && final(db).failures() > old(db).failures(),
                },
            steady(
                self.path_near(old(db).pages(), key@, old(db).at_hand()),
                old(db).at_hand(),
                final(db).at_hand(),
                result,
            ),
    {
        match self.get(db, key) {
            Ok(Some(_)) => Ok(true),
            Ok(None) => Ok(false),
            Err(error) => Err(error),
        }
    }

    /// Returns the number of entries visible in this snapshot.
    #[must_use]
    pub fn len(&self) -> (count: u64)
        ensures
            count == self.meta.item_count,
    {
        self.meta.item_count
    }

    /// Reports whether this snapshot has no entries.
    #[must_use]
    pub fn is_empty(&self) -> (empty: bool)
        ensures
            empty == (self.meta.item_count == 0),
    {
        self.len() == 0
    }
}

/// Searching a well-formed tree is looking the key up in what it holds.
pub proof fn lemma_tree_lookup(pages: Pages, meta: Meta, h: nat, key: Seq<u8>)
    requires
        tree_stands(pages, meta, h),
        h < MAX_DEPTH,
    ensures
        found(
            pages,
            meta.page_count,
            search(published(pages, meta.page_count), root_of(meta), key, MAX_DEPTH as nat),
        ) == Some(
            if map_of(rows_at(pages, meta, h)).contains_key(key) {
                Some(map_of(rows_at(pages, meta, h))[key])
            } else {
                None
            },
        ),
{
    let env = published(pages, meta.page_count);
    let r = root_of(meta);
    let entries = flat(env, r, h);
    lemma_search(env, r, h, key, MAX_DEPTH as nat);
    assert forall|i: int| 0 <= i < entries.len() implies read_value(
        env.pages,
        env.count,
        (#[trigger] entries[i]).value,
    ) is Some by {
        crate::insert::lemma_entry_readable(env, r, h, i);
    }
    law_lookup(env, entries, key);
}

// ---------------------------------------------------------------------------
// Scans
// ---------------------------------------------------------------------------

/// The rows whose keys lie in a range, in order.
pub open spec fn select(rows: Seq<Row>, start: Bound, end: Bound) -> Seq<Row>
    decreases rows.len(),
{
    if rows.len() == 0 {
        Seq::empty()
    } else {
        let rest = select(rows.drop_last(), start, end);
        if after_start(rows.last().0, start) && before_end(rows.last().0, end) {
            rest.push(rows.last())
        } else {
            rest
        }
    }
}

/// An owning forward scan returned by [`ReadTxn::scan`].
///
/// It owns every matching entry and may outlive its transaction.
pub struct Scan {
    rows: std::collections::VecDeque<(Vec<u8>, Vec<u8>)>,
}

impl Scan {
    /// The entries that are left, in order.
    pub closed spec fn left(&self) -> Seq<Row> {
        pairs_of(self.rows@)
    }

    /// Takes the next entry.
    pub fn next(&mut self) -> (entry: Option<(Vec<u8>, Vec<u8>)>)
        ensures
            match entry {
                Some((key, value)) => {
                    &&& old(self).left().len() > 0
                    &&& old(self).left()[0] == (key@, value@)
                    &&& final(self).left() == old(self).left().skip(1)
                },
                None => old(self).left().len() == 0 && final(self).left() == old(self).left(),
            },
    {
        let ghost before = self.rows@;
        let entry = self.rows.pop_front();
        proof {
            if before.len() > 0 {
                assert(pairs_of(self.rows@) =~= pairs_of(before).skip(1));
            }
        }
        entry
    }

    /// The number of entries that are left.
    pub fn len(&self) -> (count: usize)
        ensures
            count == self.left().len(),
    {
        assert(self.rows@.len() == self.rows.len());
        self.rows.len()
    }

    /// Reports whether no entry is left.
    pub fn is_empty(&self) -> (empty: bool)
        ensures
            empty == (self.left().len() == 0),
    {
        self.len() == 0
    }
}

/// Keeps the rows whose keys lie in a range.
pub fn select_rows(rows: Vec<(Vec<u8>, Vec<u8>)>, start: Bound, end: Bound) -> (scan: Scan)
    ensures
        scan.left() == select(pairs_of(rows@), start, end),
{
    let ghost pairs = pairs_of(rows@);
    let mut kept: std::collections::VecDeque<(Vec<u8>, Vec<u8>)> = std::collections::VecDeque::new();
    let mut index: usize = 0;
    proof {
        assert(pairs.take(0) =~= Seq::<Row>::empty());
        assert(pairs_of(kept@) =~= Seq::<Row>::empty());
    }
    while index < rows.len()
        invariant
            index <= rows@.len(),
            pairs == pairs_of(rows@),
            pairs_of(kept@) == select(pairs.take(index as int), start, end),
        decreases rows@.len() - index,
    {
        let (key, value) = &rows[index];
        proof {
            assert(pairs.take(index + 1).drop_last() =~= pairs.take(index as int));
            assert(pairs[index as int] == (key@, value@));
        }
        if within_start(key.as_slice(), start) && within_end(key.as_slice(), end) {
            let ghost before = kept@;
            kept.push_back((copy_bytes(key), copy_bytes(value)));
            assert(pairs_of(kept@) =~= pairs_of(before).push((key@, value@)));
        }
        index = index + 1;
    }
    assert(pairs.take(index as int) =~= pairs);
    Scan { rows: kept }
}

/// Whether a tree can be collected in full and holds as many entries as announced.
pub open spec fn scannable(pages: Pages, meta: Meta) -> bool {
    let env = published(pages, meta.page_count);
    &&& exists|h: nat| h < MAX_DEPTH && #[trigger] is_tree(env, root_of(meta), h)
    &&& tree_rows(env, root_of(meta))->0.len() == meta.item_count
}

impl ReadTxn {
    /// Creates a forward scan over the supplied lexicographic bounds.
    ///
    /// The whole tree is checked. Scan entries are owned so callers may retain them.
    pub fn scan<I: Storage>(&self, db: &mut Database<I>, start: Bound, end: Bound) -> (result: Result<
        Scan,
    >)
        requires
            old(db).inv(),
        ensures
            final(db).inv(),
            same_but_cache(*old(db), *final(db)),
            old(db).failures() <= final(db).failures(),
            final(db).source.cache.queue().len() + 1 < final(db).source.cache.limit() ==> old(
                db,
            ).at_hand().subset_of(final(db).at_hand()),
            result matches Err(error) ==> error is Io && self.meta.page_count <= old(db).meta().page_count
                ==> blamed(error, &old(db).source.storage, &final(db).source.storage),
            bound_len(start) > MAX_KEY_SIZE ==> result == Err::<Scan, Error>(
                Error::KeyTooLarge { actual: bound_len(start) as usize, maximum: MAX_KEY_SIZE },
            ),
            bound_len(start) <= MAX_KEY_SIZE && bound_len(end) > MAX_KEY_SIZE ==> result == Err::<
                Scan,
                Error,
            >(Error::KeyTooLarge { actual: bound_len(end) as usize, maximum: MAX_KEY_SIZE }),
            bound_len(start) <= MAX_KEY_SIZE && bound_len(end) <= MAX_KEY_SIZE ==> match result {
                Ok(scan) => {
                    &&& scannable(old(db).pages(), self.meta)
                    &&& scan.left() == select(
                        tree_rows(
                            published(old(db).pages(), self.meta.page_count),
                            root_of(self.meta),
                        )->0,
                        start,
                        end,
                    )
                },
                Err(error) => fails_for(
                    error,
                    !scannable(old(db).pages(), self.meta),
                    final(db).failures() > old(db).failures(),
                ),
            },
            forall|h: nat| #[trigger]
                near_below(
                    published(old(db).pages(), self.meta.page_count),
                    root_of(self.meta),
                    h,
                    old(db).at_hand(),
                ) ==> steady(true, old(db).at_hand(), final(db).at_hand(), result),
    {
        validate_bound(start)?;
        validate_bound(end)?;
        let ghost hand = db.source.at_hand();
        let ghost pages = db.source.pages();
        let collected = collect(
            &mut db.source,
            self.meta.root,
            self.meta.page_count,
            self.meta.item_count,
        );
        let ghost kept = db.source.at_hand();
        proof {
            lemma_same_but_cache(*old(db), *db);
            if self.meta.page_count <= old(db).meta().page_count {
                lemma_stored_in_full(*old(db), self.meta.page_count);
            }
            assert(hand == old(db).at_hand() && kept == db.at_hand() && pages == old(db).pages());
            assert(root_of(self.meta) == PageRef::Committed(self.meta.root));
            assert forall|h: nat| #[trigger]
                near_below(
                    published(old(db).pages(), self.meta.page_count),
                    root_of(self.meta),
                    h,
                    old(db).at_hand(),
                ) implies steady(true, hand, kept, collected) by {
                assert(near_below(
                    published(pages, self.meta.page_count),
                    PageRef::Committed(self.meta.root),
                    h,
                    hand,
                ));
            }
        }
        match collected {
            Ok(rows) => Ok(select_rows(rows, start, end)),
            Err(error) => Err(error),
        }
    }
}

/// A scan yields exactly the rows in range: a row of the tree is among them if and only if
/// its key lies in the range, and they keep their order.
pub proof fn law_select(rows: Seq<Row>, start: Bound, end: Bound)
    ensures
        forall|row: Row| #[trigger]
            select(rows, start, end).contains(row) <==> rows.contains(row) && after_start(
                row.0,
                start,
            ) && before_end(row.0, end),
        crate::canonical::sorted_rows(rows) ==> crate::canonical::sorted_rows(
            select(rows, start, end),
        ),
    decreases rows.len(),
{
    if rows.len() > 0 {
        let rest = rows.drop_last();
        let last = rows.last();
        let before = select(rest, start, end);
        let after = select(rows, start, end);
        law_select(rest, start, end);
        assert forall|row: Row| #[trigger] after.contains(row) <==> rows.contains(row)
            && after_start(row.0, start) && before_end(row.0, end) by {
            assert(before.contains(row) <==> rest.contains(row) && after_start(row.0, start)
                && before_end(row.0, end));
            if rows.contains(row) {
                let i = choose|i: int| 0 <= i < rows.len() && rows[i] == row;
                if i < rest.len() {
                    assert(rest[i] == row);
                }
            }
            if rest.contains(row) {
                let i = choose|i: int| 0 <= i < rest.len() && rest[i] == row;
                assert(rows[i] == row);
            }
            if row == last {
                assert(rows[rows.len() - 1] == row);
            }
            if before.contains(row) {
                let i = choose|i: int| 0 <= i < before.len() && before[i] == row;
                assert(after[i] == row);
            }
            if after.contains(row) {
                let i = choose|i: int| 0 <= i < after.len() && after[i] == row;
                if i < before.len() {
                    assert(before[i] == row);
                }
            }
            if after_start(last.0, start) && before_end(last.0, end) && row == last {
                assert(after[before.len() as int] == row);
            }
        }
        if crate::canonical::sorted_rows(rows) {
            assert(crate::canonical::sorted_rows(rest)) by {
                assert forall|i: int, j: int| 0 <= i < j < rest.len() implies lt(
                    (#[trigger] rest[i]).0,
                    (#[trigger] rest[j]).0,
                ) by {
                    assert(rest[i] == rows[i] && rest[j] == rows[j]);
                }
            }
            assert forall|i: int, j: int| 0 <= i < j < after.len() implies lt(
                (#[trigger] after[i]).0,
                (#[trigger] after[j]).0,
            ) by {
                assert(after[i] == before[i]);
                if j < before.len() {
                    assert(after[j] == before[j]);
                } else {
                    assert(before.contains(before[i]));
                    assert(rest.contains(before[i]));
                    let k = choose|k: int| 0 <= k < rest.len() && rest[k] == before[i];
                    assert(rows[k] == before[i]);
                    assert(lt(rows[k].0, rows[rows.len() - 1].0));
                }
            }
        }
    }
}

/// A scan from one bound to another gives a row exactly where the tree holds it, its key does
/// not come before the start and is not the start where that is excluded, and its key does not
/// come behind the end and is not the end where that is excluded.
pub proof fn law_scan_range(rows: Seq<Row>, start: Bound, end: Bound, row: Row)
    ensures
        select(rows, start, end).contains(row) <==> {
            &&& rows.contains(row)
            &&& start matches Bound::Included(first) ==> !lt(row.0, first@)
            &&& start matches Bound::Excluded(first) ==> lt(first@, row.0)
            &&& end matches Bound::Included(last) ==> !lt(last@, row.0)
            &&& end matches Bound::Excluded(last) ==> lt(row.0, last@)
        },
{
    broadcast use group_order;

    law_select(rows, start, end);
    assert(select(rows, start, end).contains(row) <==> rows.contains(row) && after_start(
        row.0,
        start,
    ) && before_end(row.0, end));
}

/// A scan from a prefix to the prefix with its last byte raised by one gives exactly the rows
/// whose keys start with the prefix.
pub proof fn law_prefix_scan(rows: Seq<Row>, prefix: &[u8], end: &[u8], row: Row)
    requires
        prefix@.len() > 0,
        prefix@.last() < u8::MAX,
        end@ == prefix@.drop_last().push((prefix@.last() + 1) as u8),
    ensures
        select(rows, Bound::Included(prefix), Bound::Excluded(end)).contains(row)
            <==> rows.contains(row) && prefix@.len() <= row.0.len() && row.0.take(
            prefix@.len() as int,
        ) == prefix@,
{
    law_scan_range(rows, Bound::Included(prefix), Bound::Excluded(end), row);
    law_prefix_range(prefix@, row.0);
}

/// A scan leaves nothing out and repeats nothing: it gives as many rows as lie in the range, and
/// with both ends open it gives all of them.
pub proof fn law_scan_is_complete(rows: Seq<Row>, start: Bound, end: Bound)
    ensures
        start is Unbounded && end is Unbounded ==> select(rows, start, end) == rows,
        select(rows, start, end).len() == Seq::new(rows.len(), |i: int| i).filter(
            |i: int| after_start(rows[i].0, start) && before_end(rows[i].0, end),
        ).len(),
    decreases rows.len(),
{
    if rows.len() == 0 {
        assert(select(rows, start, end) =~= rows);
        reveal(Seq::filter);
    } else {
        let rest = rows.drop_last();
        law_scan_is_complete(rest, start, end);
        assert(rows =~= rest.push(rows.last()));
        let all = Seq::new(rows.len(), |i: int| i);
        let most = Seq::new(rest.len(), |i: int| i);
        let fits = |i: int| after_start(rows[i].0, start) && before_end(rows[i].0, end);
        let fit = |i: int| after_start(rest[i].0, start) && before_end(rest[i].0, end);
        assert(all.drop_last() =~= most);
        lemma_filter_same(most, fits, fit);
        reveal(Seq::filter);
    }
}

/// Two tests that agree on the items of a sequence keep the same ones.
proof fn lemma_filter_same(items: Seq<int>, a: spec_fn(int) -> bool, b: spec_fn(int) -> bool)
    requires
        forall|i: int| 0 <= i < items.len() ==> a(#[trigger] items[i]) == b(items[i]),
    ensures
        items.filter(a) == items.filter(b),
    decreases items.len(),
{
    reveal(Seq::filter);
    if items.len() > 0 {
        assert(forall|i: int|
            0 <= i < items.drop_last().len() ==> items.drop_last()[i] == #[trigger] items[i]);
        lemma_filter_same(items.drop_last(), a, b);
        assert(a(items[items.len() - 1]) == b(items[items.len() - 1]));
    }
}

// ---------------------------------------------------------------------------
// Statistics
// ---------------------------------------------------------------------------

/// Constant-time storage, reclamation, snapshot, and cache accounting.
#[derive(Clone, Debug, PartialEq, Eq)]
pub struct DatabaseStats {
    /// Bytes occupied by keys and values in the current user tree.
    pub logical_bytes: u64,
    /// Current physical file length in bytes.
    pub physical_bytes: u64,
    /// Pages reachable from the current user and free trees.
    pub live_pages: u64,
    /// Pages reachable from the current user tree.
    pub user_tree_pages: u64,
    /// Pages reachable from the current free tree.
    pub free_tree_pages: u64,
    /// Retired pages recorded by the free tree.
    pub free_pages: u64,
    /// Retired pages that can be reused by the next writer.
    pub reusable_pages: u64,
    /// Retired pages retained solely by the fallback metadata generation.
    pub fallback_pages: u64,
    /// Retired pages whose reuse is deferred by fallback metadata or readers.
    pub deferred_pages: u64,
    /// Number of active read transactions.
    pub pinned_snapshots: u64,
    /// Oldest active read generation, if a read transaction exists.
    pub oldest_snapshot_generation: Option<u64>,
    /// Number of frames currently indexed by the page cache.
    pub cache_pages: usize,
    /// Bytes currently indexed by the page cache.
    pub cache_bytes: usize,
    /// Configured cache capacity in bytes.
    pub cache_capacity_bytes: usize,
    /// Current published generation.
    pub current_generation: u64,
}

impl<I: Storage> Database<I> {
    /// Returns constant-time storage and reclamation accounting. Fails where the storage
    /// cannot tell its length, and where page or reader counts are out of range.
    pub fn stats(&self) -> (result: Result<DatabaseStats>)
        requires
            self.inv(),
        ensures
            ({
                let meta = self.meta();
                let in_range = meta.user_tree_pages + meta.free_tree_pages <= u64::MAX
                    && crate::space::sum_of(self.snapshots@) <= u64::MAX;
                match result {
                    Ok(stats) => {
                        &&& in_range
                        &&& stats.logical_bytes == meta.logical_bytes
                        &&& stats.physical_bytes == self.source.storage.contents().len()
                        &&& stats.live_pages == meta.user_tree_pages + meta.free_tree_pages
                        &&& stats.user_tree_pages == meta.user_tree_pages
                        &&& stats.free_tree_pages == meta.free_tree_pages
                        &&& stats.free_pages == meta.free_pages
                        &&& forall|floor: u64| #[trigger]
                            self.floor(floor) ==> stats.reusable_pages == crate::space::aged_pages(
                                self.entries(),
                                floor,
                            ).len()
                        &&& stats.fallback_pages == meta.fallback_pages
                        &&& stats.deferred_pages == meta.free_pages - stats.reusable_pages
                        &&& stats.pinned_snapshots == crate::space::sum_of(self.snapshots@)
                        &&& is_least_key(self.snapshots@, stats.oldest_snapshot_generation)
                        &&& stats.cache_pages == self.source.cache.queue().len()
                        &&& stats.cache_bytes == self.source.cache.queue().len() * PAGE_SIZE
                        &&& stats.cache_capacity_bytes == self.source.cache.limit() * PAGE_SIZE
                        &&& stats.current_generation == meta.generation
                    },
                    Err(error) => (error is Io && mute(&self.source.storage)) || (error is Corrupt
                        && !in_range),
                }
            }),
    {
        let meta = self.publication.current.meta;
        let oldest_snapshot_generation = least_key(&self.snapshots);
        let pinned_snapshots = match crate::space::sum_counts(&self.snapshots) {
            Some(sum) => sum,
            None => {
                return Err(corrupt("reader count overflow"));
            },
        };
        let (cache_pages, cache_bytes, cache_capacity_bytes) = self.source.cache.occupancy();
        let live_pages = match meta.user_tree_pages.checked_add(meta.free_tree_pages) {
            Some(pages) => pages,
            None => {
                return Err(corrupt("page count overflow"));
            },
        };
        let reusable_pages = self.free.reusable_pages;
        proof {
            self.lemma_reusable_bounded(oldest_snapshot_generation);
        }
        Ok(
            DatabaseStats {
                logical_bytes: meta.logical_bytes,
                physical_bytes: len(&self.source.storage)?,
                live_pages,
                user_tree_pages: meta.user_tree_pages,
                free_tree_pages: meta.free_tree_pages,
                free_pages: meta.free_pages,
                reusable_pages,
                fallback_pages: meta.fallback_pages,
                deferred_pages: meta.free_pages - reusable_pages,
                pinned_snapshots,
                oldest_snapshot_generation,
                cache_pages,
                cache_bytes,
                cache_capacity_bytes,
                current_generation: meta.generation,
            },
        )
    }

    /// There is an oldest generation that must stay readable, and no more pages are
    /// reusable than are free.
    proof fn lemma_reusable_bounded(&self, oldest: Option<u64>)
        requires
            self.inv(),
            is_least_key(self.snapshots@, oldest),
        ensures
            self.free.reusable_pages <= self.meta().free_pages,
    {
        let floor = crate::db::lemma_floor_exists(self.publication, oldest);
        assert(self.floor(floor));
        crate::db::lemma_aged_bounded(self.entries(), floor);
    }
}

} // verus!
