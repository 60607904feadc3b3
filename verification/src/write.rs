//! Write transactions before they are committed.
use crate::db::{
    lemma_stored_in_full, root_of, rows_at, tree_branches, tree_stands, user_pages, weight,
    Database,
};
use crate::error::{corrupt, Error, Result};
use crate::format::{MAX_KEY_SIZE, MAX_VALUE_SIZE};
use crate::graft::{upserts, upserts_at};
use crate::insert::{lemma_entry_readable, stored_form};
use crate::io::{blamed, Storage};
use crate::model::{is_tree, map_of, published, read_value, rows_of, Env, Pages, Row};
use crate::node::{sorted_entries, Entry};
use crate::reader::{
    fails_for, found, hoards, honest, incomplete, law_near_tree_needs_no_storage, lookup, steady,
    PageReader, MAX_DEPTH,
};
use crate::remove::{drops, drops_at};
use crate::rows::{contents_of, law_drop, law_lookup, law_upsert};
use crate::settle::gave_up;
use crate::share::took_in;
use crate::space::Published;
use crate::tree::MutableTree;
use crate::txn::{lemma_same_but_cache, same_but_cache, validate_key, validate_value};
use vstd::prelude::*;

verus! {

// ---------------------------------------------------------------------------
// Weights
// ---------------------------------------------------------------------------

/// The weight of two lists of rows.
pub proof fn lemma_weight_add(a: Seq<Row>, b: Seq<Row>)
    ensures
        weight(a + b) == weight(a) + weight(b),
    decreases b.len(),
{
    if b.len() == 0 {
        assert(a + b =~= a);
    } else {
        assert((a + b).drop_last() =~= a + b.drop_last());
        lemma_weight_add(a, b.drop_last());
    }
}

/// The weight around one row.
pub proof fn lemma_weight_at(rows: Seq<Row>, i: int)
    requires
        0 <= i < rows.len(),
    ensures
        weight(rows) == weight(rows.take(i)) + rows[i].0.len() + rows[i].1.len() + weight(
            rows.skip(i + 1),
        ),
{
    let one = seq![rows[i]];
    assert(rows =~= rows.take(i) + (one + rows.skip(i + 1)));
    lemma_weight_add(rows.take(i), one + rows.skip(i + 1));
    lemma_weight_add(one, rows.skip(i + 1));
    assert(one.drop_last() =~= Seq::<Row>::empty());
    assert(weight(one.drop_last()) == 0);
}

/// What storing a value does to the weight.
proof fn lemma_upsert_weight(
    env: Env,
    other: Env,
    before: Seq<Entry>,
    after: Seq<Entry>,
    key: Seq<u8>,
    value: Seq<u8>,
)
    requires
        sorted_entries(before),
        sorted_entries(after),
        upserts(before, after, key, stored_form(value)),
        other.pages == env.pages,
        other.count == env.count,
    ensures
        ({
            let map = contents_of(env, before);
            weight(rows_of(other, after)) == weight(rows_of(env, before)) + value.len() + if map.contains_key(
                key,
            ) {
                -map[key].len()
            } else {
                key.len() as int
            }
        }),
{
    let stored = stored_form(value);
    let p = choose|p: int| upserts_at(before, after, key, stored, p);
    let old_rows = rows_of(env, before);
    let new_rows = rows_of(other, after);
    law_upsert(env, other, before, after, key, value);
    crate::rows::lemma_contents(env, before);
    lemma_weight_at(new_rows, p);
    assert(new_rows[p] == (key, value));
    if p < before.len() && before[p].key == key {
        assert(after == before.update(p, Entry { key, value: stored })) by {
            broadcast use crate::order::group_order;

            if !(after == before.update(p, Entry { key, value: stored })) {
                assert(crate::order::lt(key, before[p].key));
            }
        }
        lemma_weight_at(old_rows, p);
        assert(new_rows.take(p) =~= old_rows.take(p));
        assert(new_rows.skip(p + 1) =~= old_rows.skip(p + 1));
    } else {
        assert(after == before.insert(p, Entry { key, value: stored }));
        assert(!contents_of(env, before).contains_key(key)) by {
            assert(after.len() == before.len() + 1);
        }
        assert(new_rows.take(p) =~= old_rows.take(p));
        assert(new_rows.skip(p + 1) =~= old_rows.skip(p));
        assert(old_rows =~= old_rows.take(p) + old_rows.skip(p));
        lemma_weight_add(old_rows.take(p), old_rows.skip(p));
    }
}

/// What removing a key does to the weight.
proof fn lemma_drop_weight(
    env: Env,
    other: Env,
    before: Seq<Entry>,
    after: Seq<Entry>,
    key: Seq<u8>,
)
    requires
        sorted_entries(before),
        drops(before, after, key),
        other.pages == env.pages,
        other.count == env.count,
    ensures
        weight(rows_of(other, after)) == weight(rows_of(env, before)) - key.len() - contents_of(
            env,
            before,
        )[key].len(),
{
    let p = choose|p: int| drops_at(before, after, key, p);
    let old_rows = rows_of(env, before);
    let new_rows = rows_of(other, after);
    crate::rows::lemma_contents(env, before);
    lemma_weight_at(old_rows, p);
    assert(contents_of(env, before)[before[p].key] == read_value(
        env.pages,
        env.count,
        before[p].value,
    )->0);
    assert(new_rows =~= old_rows.take(p) + old_rows.skip(p + 1));
    lemma_weight_add(old_rows.take(p), old_rows.skip(p + 1));
}

/// A key that is mapped weighs in the rows.
proof fn lemma_weight_holds(env: Env, entries: Seq<Entry>, key: Seq<u8>)
    requires
        sorted_entries(entries),
        contents_of(env, entries).contains_key(key),
    ensures
        key.len() + contents_of(env, entries)[key].len() <= weight(rows_of(env, entries)),
{
    let rows = rows_of(env, entries);
    crate::rows::lemma_contents(env, entries);
    let i = choose|i: int| 0 <= i < entries.len() && (#[trigger] entries[i]).key == key;
    lemma_weight_at(rows, i);
    assert(contents_of(env, entries)[entries[i].key] == read_value(
        env.pages,
        env.count,
        entries[i].value,
    )->0);
}

// ---------------------------------------------------------------------------
// Write transactions
// ---------------------------------------------------------------------------

/// An exclusive atomic write transaction.
///
/// Dropping a transaction without committing it rolls back all changes.
pub struct WriteTxn {
    /// The generation that the transaction started from.
    pub base: Published,
    /// The tree with the changes.
    pub tree: MutableTree,
    /// Number of entries.
    pub item_count: u64,
    /// Bytes of the keys and values.
    pub logical_bytes: u64,
    /// Whether an operation failed.
    pub poisoned: bool,
}

impl WriteTxn {
    /// What holds of a transaction whatever the published pages hold, unless an operation
    /// failed.
    pub open spec fn inv(&self) -> bool {
        self.poisoned || (self.tree.inv() && self.tree.page_count == self.base.meta.page_count)
    }

    /// Whether the transaction started from the current generation of a database.
    pub open spec fn belongs<I: Storage>(&self, db: Database<I>) -> bool {
        self.base == db.publication.current
    }

    /// The rows of the transaction.
    pub open spec fn rows(&self, pages: Pages) -> Seq<Row> {
        rows_of(self.tree.env(pages), self.tree.entries(pages))
    }

    /// The mapping from keys to values of the transaction.
    pub open spec fn contents(&self, pages: Pages) -> Map<Seq<u8>, Seq<u8>> {
        map_of(self.rows(pages))
    }

    /// Whether the tree of the transaction is well formed and the counts are right.
    pub open spec fn sound(&self, pages: Pages) -> bool {
        &&& !self.poisoned
        &&& self.tree.sound(pages)
        &&& self.item_count == self.rows(pages).len()
        &&& self.logical_bytes == weight(self.rows(pages))
    }

    /// Whether operations on the transaction have nothing to fail for but the storage: the
    /// tree is not too deep and its nodes fit into pages.
    pub open spec fn fit(&self, pages: Pages) -> bool {
        &&& self.sound(pages)
        &&& self.tree.height@ < MAX_DEPTH
        &&& self.tree.fits(pages)
    }

    /// Looking up a key in the tree is looking it up in the mapping.
    proof fn lemma_lookup(&self, pages: Pages, key: Seq<u8>)
        requires
            is_tree(self.tree.env(pages), self.tree.root, self.tree.height@),
        ensures
            found(
                pages,
                self.tree.page_count,
                Some(lookup(self.tree.entries(pages), key)),
            ) == Some(
                if self.contents(pages).contains_key(key) {
                    Some(self.contents(pages)[key])
                } else {
                    None
                },
            ),
    {
        let env = self.tree.env(pages);
        let entries = self.tree.entries(pages);
        assert forall|i: int| 0 <= i < entries.len() implies read_value(
            env.pages,
            env.count,
            (#[trigger] entries[i]).value,
        ) is Some by {
            lemma_entry_readable(env, self.tree.root, self.tree.height@, i);
        }
        law_lookup(env, entries, key);
    }

    /// Fails if an earlier operation failed.
    pub fn ensure_open(&self) -> (result: Result<()>)
        ensures
            self.poisoned ==> result == Err::<(), Error>(Error::TransactionClosed),
            !self.poisoned ==> result is Ok,
    {
        if self.poisoned {
            Err(Error::TransactionClosed)
        } else {
            Ok(())
        }
    }

    /// Returns the value associated with `key` in the transaction.
    ///
    /// After an error, every operation returns [`Error::TransactionClosed`].
    pub fn get<I: Storage>(&mut self, db: &mut Database<I>, key: &[u8]) -> (result: Result<
        Option<Vec<u8>>,
    >)
        requires
            old(self).inv(),
            old(db).inv(),
        ensures
            final(self).inv(),
            final(db).inv(),
            same_but_cache(*old(db), *final(db)),
            old(db).failures() <= final(db).failures(),
            final(db).source.cache.queue().len() + 1 < final(db).source.cache.limit() ==> old(
                db,
            ).at_hand().subset_of(final(db).at_hand()),
            result matches Err(error) ==> error is Io && old(self).tree.page_count <= old(db).meta().page_count
                ==> blamed(error, &old(db).source.storage, &final(db).source.storage),
            final(self).base == old(self).base,
            final(self).tree == old(self).tree,
            final(self).item_count == old(self).item_count,
            final(self).logical_bytes == old(self).logical_bytes,
            final(self).poisoned == (old(self).poisoned || result is Err),
            old(self).poisoned ==> result == Err::<Option<Vec<u8>>, Error>(
                Error::TransactionClosed,
            ),
            !old(self).poisoned && key@.len() > MAX_KEY_SIZE ==> result == Err::<
                Option<Vec<u8>>,
                Error,
            >(Error::KeyTooLarge { actual: key@.len() as usize, maximum: MAX_KEY_SIZE }),
            !old(self).poisoned && key@.len() <= MAX_KEY_SIZE ==> {
                let pages = old(db).pages();
                let map = old(self).contents(pages);
                match result {
                    Ok(Some(value)) => old(self).sound(pages) ==> map.contains_key(key@)
                        && map[key@] == value@,
                    Ok(None) => old(self).sound(pages) ==> !map.contains_key(key@),
                    Err(error) => fails_for(
                        error,
                        !(old(self).sound(pages) && old(self).tree.height@ < MAX_DEPTH),
                        final(db).failures() > old(db).failures(),
                    ),
                }
            },
            !old(self).poisoned && key@.len() <= MAX_KEY_SIZE && old(self).tree.root is Committed
                ==> {
                let outcome = old(self).tree.reading(old(db).pages(), key@);
                match result {
                    Ok(Some(value)) => outcome == Some(Some(value@)),
                    Ok(None) => outcome == Some(None::<Seq<u8>>),
                    Err(error) => fails_for(
                        error,
                        outcome is None,
                        final(db).failures() > old(db).failures(),
                    ),
                }
            },
            steady(
                old(self).tree.path_near(old(db).pages(), key@, old(db).at_hand()),
                old(db).at_hand(),
                final(db).at_hand(),
                result,
            ),
    {
        self.ensure_open()?;
        match validate_key(key) {
            Ok(()) => {},
            Err(error) => {
                self.poisoned = true;
                return Err(error);
            },
        }
        let ghost pages = db.pages();
        let outcome = self.tree.get(&mut db.source, key);
        proof {
            lemma_same_but_cache(*old(db), *db);
            if old(self).tree.page_count <= old(db).meta().page_count {
                lemma_stored_in_full(*old(db), old(self).tree.page_count);
            }
            if is_tree(self.tree.env(pages), self.tree.root, self.tree.height@) {
                self.lemma_lookup(pages, key@);
            }
        }
        match outcome {
            Ok(value) => Ok(value),
            Err(error) => {
                self.poisoned = true;
                Err(error)
            },
        }
    }
}

/// The bytes of the keys and values once a value replaces another or is added.
fn replaced_bytes(total: u64, key: &[u8], old: &Option<Vec<u8>>, value: &[u8]) -> (result: Result<
    u64,
>)
    ensures
        ({
            let removed = match old {
                Some(bytes) => bytes@.len() as int,
                None => 0,
            };
            let added = match old {
                Some(_) => value@.len() as int,
                None => (value@.len() + key@.len()) as int,
            };
            match result {
                Ok(bytes) => removed <= total && bytes == total - removed + added,
                Err(error) => error is Corrupt && (removed > total || total - removed + added
                    > u64::MAX),
            }
        }),
{
    let removed = match old {
        Some(bytes) => bytes.len() as u64,
        None => 0,
    };
    let key_bytes = match old {
        Some(_) => 0,
        None => key.len() as u64,
    };
    match total.checked_sub(removed) {
        Some(bytes) => match bytes.checked_add(value.len() as u64) {
            Some(bytes) => match bytes.checked_add(key_bytes) {
                Some(bytes) => Ok(bytes),
                None => Err(corrupt("logical byte count overflow")),
            },
            None => Err(corrupt("logical byte count overflow")),
        },
        None => Err(corrupt("logical byte count overflow")),
    }
}

impl WriteTxn {
    /// Whether the counts stay in range when a value is stored.
    pub open spec fn admits(&self, key: Seq<u8>, value: Seq<u8>) -> bool {
        &&& self.item_count < u64::MAX
        &&& self.logical_bytes + value.len() + key.len() <= u64::MAX
    }

    /// Whether the transaction holds a value under a key.
    pub open spec fn holds(&self, pages: Pages, key: Seq<u8>, value: Seq<u8>) -> bool {
        self.contents(pages).contains_key(key) && self.contents(pages)[key] == value
    }

    /// Stores a value in the tree, with the counts.
    fn put_checked<R: PageReader>(&mut self, reader: &mut R, key: &[u8], value: &[u8]) -> (result:
        Result<()>)
        requires
            old(reader).usable(),
            old(self).inv(),
            key@.len() <= MAX_KEY_SIZE,
            value@.len() <= MAX_VALUE_SIZE,
            !old(self).poisoned,
        ensures
            final(reader).usable(),
            final(reader).origin() == old(reader).origin(),
            old(reader).failures() <= final(reader).failures(),
            hoards(*old(reader), *final(reader)),
            honest(
                result,
                old(reader).failures(),
                final(reader).failures(),
                final(reader).reported(),
                incomplete(old(reader).pages(), old(self).tree.page_count),
            ),
            final(reader).pages() == old(reader).pages(),
            final(self).base == old(self).base,
            final(self).poisoned == old(self).poisoned,
            ({
                let pages = old(reader).pages();
                match result {
                    Ok(_) => {
                        &&& final(self).inv()
                        &&& final(self).tree.base == old(self).tree.base
                        &&& old(self).sound(pages) ==> {
                            &&& final(self).sound(pages)
                            &&& final(self).contents(pages) == old(self).contents(pages).insert(
                                key@,
                                value@,
                            )
                            &&& if old(self).holds(pages, key@, value@) {
                                *final(self) == *old(self)
                            } else {
                                took_in(
                                    old(self).tree,
                                    final(self).tree,
                                    pages,
                                    key@,
                                    stored_form(value@),
                                )
                            }
                            &&& final(self).tree.height@ <= old(self).tree.height@ + 1
                            &&& old(self).tree.fits(pages) ==> final(self).tree.fits(pages)
                            &&& old(self).tree.branches(pages) ==> final(self).tree.branches(
                                pages,
                            )
                        }
                    },
                    Err(error) => fails_for(
                        error,
                        !(old(self).fit(pages) && old(self).admits(key@, value@)),
                        final(reader).failures() > old(reader).failures(),
                    ),
                }
            }),
            steady(
                old(self).sound(old(reader).pages()) && old(self).tree.height@ < MAX_DEPTH && old(
                    self,
                ).tree.near(old(reader).pages(), old(reader).at_hand()),
                old(reader).at_hand(),
                final(reader).at_hand(),
                result,
            ),
    {
        let ghost pages = reader.pages();
        let ghost start = *self;
        let ghost env = self.tree.env(pages);
        let ghost before = self.tree.entries(pages);
        let ghost map = self.contents(pages);
        let ghost sound = self.sound(pages);
        proof {
            if sound && self.tree.height@ < MAX_DEPTH && self.tree.near(pages, reader.at_hand()) {
                law_near_tree_needs_no_storage(
                    env,
                    self.tree.root,
                    self.tree.height@,
                    key@,
                    MAX_DEPTH as nat,
                    reader.at_hand(),
                );
            }
        }
        let current = self.tree.get(reader, key)?;
        proof {
            if sound {
                self.lemma_lookup(pages, key@);
                if map.contains_key(key@) {
                    lemma_weight_holds(env, before, key@);
                }
            }
        }
        let bytes = replaced_bytes(self.logical_bytes, key, &current, value)?;
        let outcome = self.tree.put(reader, key, value)?;
        self.logical_bytes = bytes;
        proof {
            if sound {
                let other = self.tree.env(pages);
                let after = self.tree.entries(pages);
                if found(pages, start.tree.page_count, Some(lookup(before, key@))) == Some(
                    Some(value@),
                ) {
                    assert(map.contains_key(key@) && map[key@] == value@);
                    assert(map.insert(key@, value@) =~= map);
                } else {
                    law_upsert(env, other, before, after, key@, value@);
                    lemma_upsert_weight(env, other, before, after, key@, value@);
                }
                assert(outcome.inserted == !map.contains_key(key@));
            }
        }
        if outcome.inserted {
            self.item_count = match self.item_count.checked_add(1) {
                Some(count) => count,
                None => {
                    return Err(corrupt("transaction item count overflow"));
                },
            };
        }
        Ok(())
    }

    /// Inserts or replaces a key/value pair.
    ///
    /// After an error, every operation returns [`Error::TransactionClosed`].
    pub fn put<I: Storage>(&mut self, db: &mut Database<I>, key: &[u8], value: &[u8]) -> (result:
        Result<()>)
        requires
            old(self).inv(),
            old(db).inv(),
        ensures
            final(db).inv(),
            same_but_cache(*old(db), *final(db)),
            old(db).failures() <= final(db).failures(),
            final(db).source.cache.queue().len() + 1 < final(db).source.cache.limit() ==> old(
                db,
            ).at_hand().subset_of(final(db).at_hand()),
            result matches Err(error) ==> error is Io && old(self).tree.page_count <= old(db).meta().page_count
                ==> blamed(error, &old(db).source.storage, &final(db).source.storage),
            final(self).base == old(self).base,
            final(self).poisoned == (old(self).poisoned || result is Err),
            final(self).inv(),
            result is Ok ==> final(self).tree.base == old(self).tree.base,
            old(self).poisoned ==> result == Err::<(), Error>(Error::TransactionClosed),
            !old(self).poisoned && key@.len() > MAX_KEY_SIZE ==> result == Err::<(), Error>(
                Error::KeyTooLarge { actual: key@.len() as usize, maximum: MAX_KEY_SIZE },
            ),
            !old(self).poisoned && key@.len() <= MAX_KEY_SIZE && value@.len() > MAX_VALUE_SIZE
                ==> result == Err::<(), Error>(
                Error::ValueTooLarge { actual: value@.len() as usize, maximum: MAX_VALUE_SIZE },
            ),
            !old(self).poisoned && key@.len() <= MAX_KEY_SIZE && value@.len() <= MAX_VALUE_SIZE
                ==> {
                let pages = old(db).pages();
                match result {
                    Ok(_) => old(self).sound(pages) ==> {
                        &&& final(self).sound(pages)
                        &&& final(self).contents(pages) == old(self).contents(pages).insert(
                            key@,
                            value@,
                        )
                        &&& if old(self).holds(pages, key@, value@) {
                            *final(self) == *old(self)
                        } else {
                            took_in(
                                old(self).tree,
                                final(self).tree,
                                pages,
                                key@,
                                stored_form(value@),
                            )
                        }
                        &&& final(self).tree.height@ <= old(self).tree.height@ + 1
                        &&& old(self).tree.fits(pages) ==> final(self).tree.fits(pages)
                        &&& old(self).tree.branches(pages) ==> final(self).tree.branches(
                            pages,
                        )
                    },
                    Err(error) => fails_for(
                        error,
                        !(old(self).fit(pages) && old(self).admits(key@, value@)),
                        final(db).failures() > old(db).failures(),
                    ),
                }
            },
            steady(
                old(self).sound(old(db).pages()) && old(self).tree.height@ < MAX_DEPTH && old(
                    self,
                ).tree.near(old(db).pages(), old(db).at_hand()),
                old(db).at_hand(),
                final(db).at_hand(),
                result,
            ),
    {
        self.ensure_open()?;
        match validate_key(key) {
            Ok(()) => {},
            Err(error) => {
                self.poisoned = true;
                return Err(error);
            },
        }
        match validate_value(value) {
            Ok(()) => {},
            Err(error) => {
                self.poisoned = true;
                return Err(error);
            },
        }
        let outcome = self.put_checked(&mut db.source, key, value);
        proof {
            lemma_same_but_cache(*old(db), *db);
            if old(self).tree.page_count <= old(db).meta().page_count {
                lemma_stored_in_full(*old(db), old(self).tree.page_count);
            }
        }
        match outcome {
            Ok(()) => Ok(()),
            Err(error) => {
                self.poisoned = true;
                Err(error)
            },
        }
    }

    /// Removes a key from the tree, with the counts.
    fn delete_checked<R: PageReader>(&mut self, reader: &mut R, key: &[u8]) -> (result: Result<bool>)
        requires
            old(reader).usable(),
            old(self).inv(),
            !old(self).poisoned,
        ensures
            final(reader).usable(),
            final(reader).origin() == old(reader).origin(),
            old(reader).failures() <= final(reader).failures(),
            hoards(*old(reader), *final(reader)),
            honest(
                result,
                old(reader).failures(),
                final(reader).failures(),
                final(reader).reported(),
                incomplete(old(reader).pages(), old(self).tree.page_count),
            ),
            final(reader).pages() == old(reader).pages(),
            final(self).base == old(self).base,
            final(self).poisoned == old(self).poisoned,
            ({
                let pages = old(reader).pages();
                let map = old(self).contents(pages);
                match result {
                    Ok(present) => {
                        &&& final(self).inv()
                        &&& final(self).tree.base == old(self).tree.base
                        &&& old(self).sound(pages) ==> present == map.contains_key(key@)
                        &&& old(self).sound(pages) && !present ==> *final(self) == *old(self)
                        &&& old(self).sound(pages) && old(self).tree.height@ < MAX_DEPTH ==> {
                            &&& final(self).sound(pages)
                            &&& final(self).contents(pages) == map.remove(key@)
                            &&& present ==> gave_up(
                                old(self).tree,
                                final(self).tree,
                                pages,
                                key@,
                            )
                            &&& final(self).tree.height@ <= old(self).tree.height@ + 1
                            &&& old(self).tree.fits(pages) ==> final(self).tree.fits(pages)
                            &&& old(self).tree.branches(pages) ==> final(self).tree.branches(
                                pages,
                            )
                        }
                    },
                    Err(error) => fails_for(
                        error,
                        !old(self).fit(pages),
                        final(reader).failures() > old(reader).failures(),
                    ),
                }
            }),
            steady(
                old(self).sound(old(reader).pages()) && old(self).tree.height@ < MAX_DEPTH && old(
                    self,
                ).tree.near(old(reader).pages(), old(reader).at_hand()),
                old(reader).at_hand(),
                final(reader).at_hand(),
                result,
            ),
    {
        let ghost pages = reader.pages();
        let ghost start = *self;
        let ghost env = self.tree.env(pages);
        let ghost before = self.tree.entries(pages);
        let ghost map = self.contents(pages);
        let ghost sound = self.sound(pages);
        proof {
            if sound && self.tree.height@ < MAX_DEPTH && self.tree.near(pages, reader.at_hand()) {
                law_near_tree_needs_no_storage(
                    env,
                    self.tree.root,
                    self.tree.height@,
                    key@,
                    MAX_DEPTH as nat,
                    reader.at_hand(),
                );
            }
        }
        let current = self.tree.get(reader, key)?;
        proof {
            if sound {
                self.lemma_lookup(pages, key@);
                if map.contains_key(key@) {
                    lemma_weight_holds(env, before, key@);
                }
            }
        }
        let mut bytes = self.logical_bytes;
        if let Some(value) = &current {
            let sum = (key.len() as u64).checked_add(value.len() as u64);
            bytes = match sum {
                Some(sum) => match self.logical_bytes.checked_sub(sum) {
                    Some(bytes) => bytes,
                    None => {
                        return Err(corrupt("logical byte count underflow"));
                    },
                },
                None => {
                    return Err(corrupt("logical byte count underflow"));
                },
            };
        }
        let present = self.tree.delete(reader, key)?;
        self.logical_bytes = bytes;
        proof {
            if sound {
                assert(present == map.contains_key(key@)) by {
                    assert((lookup(before, key@) is Some) == map.contains_key(key@));
                }
                if present && start.tree.height@ < MAX_DEPTH {
                    let other = self.tree.env(pages);
                    let after = self.tree.entries(pages);
                    law_drop(env, other, before, after, key@);
                    lemma_drop_weight(env, other, before, after, key@);
                }
                if !present {
                    assert(map.remove(key@) =~= map);
                }
            }
        }
        if present {
            self.item_count = match self.item_count.checked_sub(1) {
                Some(count) => count,
                None => {
                    proof {
                        if sound {
                            crate::rows::lemma_contents(env, before);
                            assert(before.len() > 0);
                        }
                    }
                    return Err(corrupt("transaction item count underflow"));
                },
            };
        }
        Ok(present)
    }

    /// Deletes a key and reports whether it previously existed.
    ///
    /// Nodes that fit into pages still do, also where a separator becomes longer. Where every
    /// internal node has several children that stays so.
    ///
    /// After an error, every operation returns [`Error::TransactionClosed`].
    pub fn delete<I: Storage>(&mut self, db: &mut Database<I>, key: &[u8]) -> (result: Result<bool>)
        requires
            old(self).inv(),
            old(db).inv(),
        ensures
            final(db).inv(),
            same_but_cache(*old(db), *final(db)),
            old(db).failures() <= final(db).failures(),
            final(db).source.cache.queue().len() + 1 < final(db).source.cache.limit() ==> old(
                db,
            ).at_hand().subset_of(final(db).at_hand()),
            result matches Err(error) ==> error is Io && old(self).tree.page_count <= old(db).meta().page_count
                ==> blamed(error, &old(db).source.storage, &final(db).source.storage),
            final(self).base == old(self).base,
            final(self).poisoned == (old(self).poisoned || result is Err),
            final(self).inv(),
            result is Ok ==> final(self).tree.base == old(self).tree.base,
            old(self).poisoned ==> result == Err::<bool, Error>(Error::TransactionClosed),
            !old(self).poisoned && key@.len() > MAX_KEY_SIZE ==> result == Err::<bool, Error>(
                Error::KeyTooLarge { actual: key@.len() as usize, maximum: MAX_KEY_SIZE },
            ),
            !old(self).poisoned && key@.len() <= MAX_KEY_SIZE ==> {
                let pages = old(db).pages();
                let map = old(self).contents(pages);
                match result {
                    Ok(present) => {
                        &&& old(self).sound(pages) ==> present == map.contains_key(key@)
                        &&& old(self).sound(pages) && !present ==> *final(self) == *old(self)
                        &&& old(self).sound(pages) && old(self).tree.height@ < MAX_DEPTH ==> {
                            &&& final(self).sound(pages)
                            &&& final(self).contents(pages) == map.remove(key@)
                            &&& present ==> gave_up(
                                old(self).tree,
                                final(self).tree,
                                pages,
                                key@,
                            )
                            &&& final(self).tree.height@ <= old(self).tree.height@ + 1
                            &&& old(self).tree.fits(pages) ==> final(self).tree.fits(pages)
                            &&& old(self).tree.branches(pages) ==> final(self).tree.branches(
                                pages,
                            )
                        }
                    },
                    Err(error) => fails_for(
                        error,
                        !old(self).fit(pages),
                        final(db).failures() > old(db).failures(),
                    ),
                }
            },
            steady(
                old(self).sound(old(db).pages()) && old(self).tree.height@ < MAX_DEPTH && old(
                    self,
                ).tree.near(old(db).pages(), old(db).at_hand()),
                old(db).at_hand(),
                final(db).at_hand(),
                result,
            ),
    {
        self.ensure_open()?;
        match validate_key(key) {
            Ok(()) => {},
            Err(error) => {
                self.poisoned = true;
                return Err(error);
            },
        }
        let outcome = self.delete_checked(&mut db.source, key);
        proof {
            lemma_same_but_cache(*old(db), *db);
            if old(self).tree.page_count <= old(db).meta().page_count {
                lemma_stored_in_full(*old(db), old(self).tree.page_count);
            }
        }
        match outcome {
            Ok(present) => Ok(present),
            Err(error) => {
                self.poisoned = true;
                Err(error)
            },
        }
    }
}

impl<I: Storage> Database<I> {
    /// The height of the user tree of the current generation, if it is well formed.
    pub open spec fn height(&self) -> nat {
        choose|h: nat| tree_stands(self.pages(), self.meta(), h)
    }

    /// Starts a write transaction. One may exist at a time.
    pub fn write(&self) -> (txn: WriteTxn)
        requires
            self.inv(),
        ensures
            txn.inv(),
            txn.belongs(*self),
            !txn.poisoned,
            txn.item_count == self.meta().item_count,
            txn.logical_bytes == self.meta().logical_bytes,
            forall|h: nat| #[trigger]
                self.whole(h) ==> {
                    &&& txn.sound(self.pages())
                    &&& txn.rows(self.pages()) == rows_at(self.pages(), self.meta(), h)
                    &&& txn.contents(self.pages()) == self.contents(h)
                    &&& txn.tree.height@ == h
                    &&& txn.tree.fits(self.pages())
                    &&& tree_branches(self.pages(), self.meta(), h) ==> txn.tree.branches(
                        self.pages(),
                    )
                    &&& txn.tree.base@ == user_pages(self.pages(), self.meta(), h)
                },
    {
        let published = self.publication.current;
        let ghost pages = self.pages();
        let ghost height = self.height();
        let tree = MutableTree::new(
            published.meta.root,
            published.meta.page_count,
            Ghost(pages),
            Ghost(height),
        );
        let txn = WriteTxn {
            base: published,
            tree,
            item_count: published.meta.item_count,
            logical_bytes: published.meta.logical_bytes,
            poisoned: false,
        };
        proof {
            assert forall|h: nat| #[trigger] self.whole(h) implies {
                &&& txn.sound(pages)
                &&& txn.rows(pages) == rows_at(pages, self.meta(), h)
                &&& txn.contents(pages) == self.contents(h)
                &&& txn.tree.height@ == h
                &&& txn.tree.fits(pages)
                &&& tree_branches(pages, self.meta(), h) ==> txn.tree.branches(pages)
                &&& txn.tree.base@ == user_pages(pages, self.meta(), h)
            } by {
                let env = crate::model::published(pages, self.meta().page_count);
                assert(tree_stands(pages, self.meta(), height));
                crate::model::lemma_height_unique(env, root_of(self.meta()), h, height);
                assert(txn.tree.fits(pages)) by {
                    assert forall|slot: usize| #[trigger] crate::model::owns(
                        env,
                        root_of(self.meta()),
                        h,
                        crate::node::PageRef::Dirty(slot),
                    ) implies false by {
                        crate::publish::lemma_committed_owns(
                            env,
                            self.meta().root,
                            h,
                            crate::node::PageRef::Dirty(slot),
                        );
                    }
                }
            }
        }
        txn
    }
}

} // verus!
