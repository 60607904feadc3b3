//! Reading published trees: point lookups, overflow chains and full collection.
use crate::error::{corrupt, unexpected_tree_page, Error, Result};
use crate::io::Call;
use crate::format::{in_snapshot, INTERNAL, LEAF, META_PAGES, OVERFLOW, PAGE_SIZE};
use crate::model::{
    chain, chain_ids, child_start, flat, is_tree, lemma_around_child, lemma_child_at_unique,
    lemma_flat_all_split, lemma_run_sorted, link_ok, node_at, owns, published, read_value, readable,
    run_ok, subtree, value_capacity, value_pages, Env, Pages,
};
use crate::node::{
    child_at, sorted_entries, Entry, Link, Node, PageRef, Stored, OVERFLOW_CAPACITY,
    OVERFLOW_HEADER,
};
use crate::order::{group_order, lt};
use crate::page::{
    chunk_of, internal_child, internal_links, leaf_entries, leaf_search, lemma_internal_valid,
    page_u16, page_u64, sorted_links, validate_internal, validate_leaf, validate_overflow,
};
use std::collections::HashSet;
use std::sync::Arc;
use vstd::prelude::*;

verus! {

/// Number of levels that a reader follows before it gives up.
pub const MAX_DEPTH: usize = 64;

/// One page in memory, shared by its readers.
pub struct Frame {
    pub bytes: [u8; PAGE_SIZE],
}

/// What a source of pages stands on: the stored bytes, the changes that were carried out, the
/// images that a crash may leave behind, and how many pages may be at hand.
pub struct Origin {
    pub contents: Seq<u8>,
    pub calls: Seq<Call>,
    pub images: Set<Seq<u8>>,
    pub capacity: int,
}

/// A source of published pages.
pub trait PageReader {
    /// What the source stands on.
    spec fn origin(&self) -> Origin;

    /// How many calls to the storage failed or made no progress so far.
    spec fn failures(&self) -> nat;

    /// The error of the last call to the storage that failed.
    spec fn reported(&self) -> Option<std::io::Error>;

    /// The published pages.
    spec fn pages(&self) -> Pages;

    /// Whether the source can be read from.
    spec fn usable(&self) -> bool;

    /// The pages that are at hand without reading storage.
    spec fn at_hand(&self) -> Set<u64>;

    /// Whether pages may have to make room for others.
    spec fn crowded(&self) -> bool;

    /// Fetches a page of a snapshot and checks it.
    fn page(&mut self, page_id: u64, page_count: u64) -> (result: Result<Arc<Frame>>)
        requires
            old(self).usable(),
        ensures
            final(self).usable(),
            final(self).origin() == old(self).origin(),
            old(self).failures() <= final(self).failures(),
            old(self).crowded() ==> final(self).crowded(),
            !final(self).crowded() ==> old(self).at_hand().subset_of(final(self).at_hand()),
            result is Ok && !final(self).crowded() ==> final(self).at_hand().contains(page_id),
            honest(
                result,
                old(self).failures(),
                final(self).failures(),
                final(self).reported(),
                incomplete(old(self).pages(), page_count),
            ),
            final(self).pages() == old(self).pages(),
            match result {
                Ok(frame) => readable(old(self).pages(), page_count, page_id)
                    && frame.bytes@ == old(self).pages()[page_id],
                Err(error) => if in_snapshot(page_id, page_count) {
                    fails_for(
                        error,
                        !readable(old(self).pages(), page_count, page_id),
                        final(self).failures() > old(self).failures(),
                    )
                } else {
                    error is Corrupt
                },
            },
            steady(
                old(self).at_hand().contains(page_id),
                old(self).at_hand(),
                final(self).at_hand(),
                result,
            ),
    ;
}

/// Whether a source has kept all pages at hand, unless they had to make room for others.
pub open spec fn hoards<R: PageReader>(before: R, after: R) -> bool {
    &&& before.crowded() ==> after.crowded()
    &&& !after.crowded() ==> before.at_hand().subset_of(after.at_hand())
}

/// Whether a reader that had what it needs at hand has the same at hand afterwards, and has
/// not failed for the storage.
pub open spec fn steady<T>(ready: bool, before: Set<u64>, after: Set<u64>, result: Result<T>) -> bool {
    ready ==> after == before && (result matches Err(error) ==> !(error is Io))
}

/// Whether pages of a snapshot are not stored.
#[verifier::opaque]
pub open spec fn incomplete(pages: Pages, count: u64) -> bool {
    exists|id: u64| in_snapshot(id, count) && !#[trigger] pages.contains_key(id)
}

/// Whether an outcome is honest about the storage. An I/O error has a cause: a call that failed,
/// and then it is the error of that call, or that made no progress, or pages that are not
/// stored. Any other outcome comes where no call failed.
pub open spec fn honest<T>(
    result: Result<T>,
    before: nat,
    after: nat,
    reported: Option<std::io::Error>,
    incomplete: bool,
) -> bool {
    match result {
        Err(Error::Io(error)) => if before < after {
            reported matches Some(cause) ==> error == cause
        } else {
            before == after && incomplete
        },
        _ => before == after,
    }
}

/// Whether a reader may fail: with an I/O error where a call to the storage failed, and with an
/// I/O or a corruption error where the pages do not hold what is asked for.
pub open spec fn fails_for(error: Error, broken: bool, failed: bool) -> bool {
    (error is Io && (failed || broken)) || (error is Corrupt && broken)
}

// ---------------------------------------------------------------------------
// Overflow chains
// ---------------------------------------------------------------------------

/// Whether a value can be read from pages at hand alone.
pub open spec fn value_near(pages: Pages, count: u64, value: Stored, hand: Set<u64>) -> bool {
    let ids = value_pages(pages, count, value);
    &&& read_value(pages, count, value) is Some
    &&& forall|i: int| 0 <= i < ids.len() ==> hand.contains(#[trigger] ids[i])
}

/// Whether no page of a chain is repeated or was visited before.
pub open spec fn fresh_chain(ids: Seq<u64>, visited: Set<u64>) -> bool {
    ids.no_duplicates() && forall|i: int| 0 <= i < ids.len() ==> !visited.contains(#[trigger] ids[i])
}

/// Reads an overflow chain of a known length. With `exclusive`, no page of the chain
/// may have been visited before.
pub fn read_chain<R: PageReader>(
    reader: &mut R,
    head: u64,
    page_count: u64,
    expected_len: usize,
    visited: &mut HashSet<u64>,
    exclusive: bool,
) -> (result: Result<Vec<u8>>)
    requires
        old(reader).usable(),
    ensures
        final(reader).usable(),
        final(reader).origin() == old(reader).origin(),
        old(reader).failures() <= final(reader).failures(),
        hoards(*old(reader), *final(reader)),
        honest(
            result,
            old(reader).failures(),
            final(reader).failures(),
            final(reader).reported(),
            incomplete(old(reader).pages(), page_count),
        ),
        final(reader).pages() == old(reader).pages(),
        !exclusive ==> final(visited)@ == old(visited)@,
        ({
            let value = Stored::Overflow { head, len: expected_len as nat };
            let ids = chain_ids(old(reader).pages(), page_count, head, page_count as nat);
            match result {
                Ok(bytes) => {
                    &&& read_value(old(reader).pages(), page_count, value) == Some(bytes@)
                    &&& exclusive ==> fresh_chain(ids, old(visited)@)
                    &&& exclusive ==> final(visited)@ == old(visited)@.union(ids.to_set())
                },
                Err(error) => fails_for(
                    error,
                    read_value(old(reader).pages(), page_count, value) is None || (exclusive
                        && !fresh_chain(ids, old(visited)@)),
                    final(reader).failures() > old(reader).failures(),
                ),
            }
        }),
        steady(
            value_near(
                old(reader).pages(),
                page_count,
                Stored::Overflow { head, len: expected_len as nat },
                old(reader).at_hand(),
            ),
            old(reader).at_hand(),
            final(reader).at_hand(),
            result,
        ),
{
    broadcast use vstd::std_specs::hash::group_hash_axioms;

    let capacity: u128 = page_count.saturating_sub(META_PAGES) as u128 * OVERFLOW_CAPACITY as u128;
    if expected_len as u128 > capacity {
        return Err(corrupt("overflow length exceeds the snapshot capacity"));
    }
    let ghost pages = reader.pages();
    let ghost before = visited@;
    let ghost whole = chain(pages, page_count, head, page_count as nat);
    let ghost hand = reader.at_hand();
    let ghost ready = value_near(
        pages,
        page_count,
        Stored::Overflow { head, len: expected_len as nat },
        hand,
    );
    let ghost mut done: Seq<u64> = Seq::empty();
    let mut value: Vec<u8> = Vec::new();
    let mut page_id = head;
    let mut remaining = page_count;
    proof {
        if let Some((ids, bytes)) = whole {
            assert(done + ids =~= ids);
            assert(value@ + bytes =~= bytes);
        }
        assert(before.union(done.to_set()) =~= before);
    }
    while page_id != 0
        invariant
            reader.usable(),
            reader.origin() == old(reader).origin(),
            reader.failures() == old(reader).failures(),
            hoards(*old(reader), *reader),
            reader.pages() == pages,
            pages == old(reader).pages(),
            hand == old(reader).at_hand(),
            ready == value_near(
                pages,
                page_count,
                Stored::Overflow { head, len: expected_len as nat },
                hand,
            ),
            ready ==> reader.at_hand() == hand,
            before == old(visited)@,
            !exclusive ==> visited@ == before,
            exclusive ==> visited@ == before.union(done.to_set()),
            exclusive ==> fresh_chain(done, before),
            expected_len <= value_capacity(page_count),
            value@.len() <= expected_len,
            whole == chain(pages, page_count, head, page_count as nat),
            match chain(pages, page_count, page_id, remaining as nat) {
                Some((ids, bytes)) => whole == Some((done + ids, value@ + bytes)),
                None => whole is None,
            },
        decreases remaining,
    {
        broadcast use vstd::std_specs::hash::group_hash_axioms;

        if remaining == 0 {
            return Err(corrupt("overflow page cycle"));
        }
        if exclusive && !visited.insert(page_id) {
            proof {
                if let Some((ids, bytes)) = whole {
                    let rest = chain_ids(pages, page_count, page_id, remaining as nat);
                    assert(rest.len() > 0 && rest[0] == page_id);
                    assert(ids[done.len() as int] == page_id);
                    if !before.contains(page_id) {
                        assert(done.to_set().contains(page_id));
                        let k = choose|k: int| 0 <= k < done.len() && done[k] == page_id;
                        assert(ids[k] == page_id);
                    }
                    assert(!fresh_chain(ids, before));
                }
            }
            return Err(corrupt("overflow page is shared or part of a cycle"));
        }
        proof {
            if ready {
                let ids = value_pages(
                    pages,
                    page_count,
                    Stored::Overflow { head, len: expected_len as nat },
                );
                let rest = chain_ids(pages, page_count, page_id, remaining as nat);
                assert(rest.len() > 0 && rest[0] == page_id);
                assert(ids[done.len() as int] == page_id);
                assert(hand.contains(page_id));
            }
        }
        remaining = remaining - 1;
        let frame = match reader.page(page_id, page_count) {
            Ok(frame) => frame,
            Err(error) => return Err(error),
        };
        if frame.bytes[0] != OVERFLOW {
            return Err(corrupt("overflow pointer targets wrong page type"));
        }
        validate_overflow(&frame.bytes, page_count)?;
        assert(link_ok(pages, page_count, page_id));
        let len = page_u16(&frame.bytes, 2);
        let ghost so_far = value@;
        let ghost earlier = done;
        value.extend_from_slice(&frame.bytes[OVERFLOW_HEADER..OVERFLOW_HEADER + len]);
        let next = page_u64(&frame.bytes, 8);
        proof {
            let chunk = chunk_of(pages[page_id]);
            assert(value@ =~= so_far + chunk);
            done = earlier.push(page_id);
            if let Some((ids, bytes)) = chain(pages, page_count, next, remaining as nat) {
                assert(earlier + (seq![page_id] + ids) =~= done + ids);
                assert(so_far + (chunk + bytes) =~= value@ + bytes);
            }
            assert(before.union(earlier.to_set()).insert(page_id) =~= before.union(
                done.to_set(),
            )) by {
                assert forall|p: u64| #[trigger] done.contains(p) == (earlier.contains(p) || p
                    == page_id) by {
                    if earlier.contains(p) {
                        let k = choose|k: int| 0 <= k < earlier.len() && earlier[k] == p;
                        assert(done[k] == p);
                    }
                    if p == page_id {
                        assert(done[earlier.len() as int] == p);
                    }
                }
            }
            if exclusive {
                assert forall|k: int| 0 <= k < earlier.len() implies earlier[k] != page_id by {
                    assert(earlier.to_set().contains(earlier[k]));
                }
            }
        }
        if value.len() > expected_len {
            return Err(corrupt("overflow chain is longer than declared"));
        }
        page_id = next;
    }
    proof {
        assert(done + Seq::<u64>::empty() =~= done);
        assert(value@ + Seq::<u8>::empty() =~= value@);
    }
    if value.len() != expected_len {
        return Err(corrupt("overflow chain is shorter than declared"));
    }
    Ok(value)
}

/// Reads an overflow chain of a known length.
pub fn read_overflow<R: PageReader>(
    reader: &mut R,
    head: u64,
    page_count: u64,
    expected_len: usize,
) -> (result: Result<Vec<u8>>)
    requires
        old(reader).usable(),
    ensures
        final(reader).usable(),
        final(reader).origin() == old(reader).origin(),
        old(reader).failures() <= final(reader).failures(),
        hoards(*old(reader), *final(reader)),
        honest(
            result,
            old(reader).failures(),
            final(reader).failures(),
            final(reader).reported(),
            incomplete(old(reader).pages(), page_count),
        ),
        final(reader).pages() == old(reader).pages(),
        ({
            let value = read_value(
                old(reader).pages(),
                page_count,
                Stored::Overflow { head, len: expected_len as nat },
            );
            match result {
                Ok(bytes) => value == Some(bytes@),
                Err(error) => fails_for(
                    error,
                    value is None,
                    final(reader).failures() > old(reader).failures(),
                ),
            }
        }),
        steady(
            value_near(
                old(reader).pages(),
                page_count,
                Stored::Overflow { head, len: expected_len as nat },
                old(reader).at_hand(),
            ),
            old(reader).at_hand(),
            final(reader).at_hand(),
            result,
        ),
{
    let mut visited: HashSet<u64> = HashSet::new();
    read_chain(reader, head, page_count, expected_len, &mut visited, false)
}

// ---------------------------------------------------------------------------
// Lookups
// ---------------------------------------------------------------------------

/// The value stored under a key among entries.
pub open spec fn lookup(entries: Seq<Entry>, key: Seq<u8>) -> Option<Stored> {
    if exists|i: int| 0 <= i < entries.len() && (#[trigger] entries[i]).key == key {
        Some(
            entries[choose|i: int|
                0 <= i < entries.len() && (#[trigger] entries[i]).key == key].value,
        )
    } else {
        None
    }
}

/// What the search for a key finds on the path from a node down to a leaf: nothing
/// where the path is broken or longer than `levels`.
pub open spec fn search(env: Env, r: PageRef, key: Seq<u8>, levels: nat) -> Option<Option<Stored>>
    decreases levels,
{
    if levels == 0 {
        None
    } else {
        match node_at(env, r) {
            Some(Node::Leaf(entries)) => Some(lookup(entries, key)),
            Some(Node::Internal(links)) => search(
                env,
                links[choose|i: int| child_at(links, key, i)].page,
                key,
                (levels - 1) as nat,
            ),
            None => None,
        }
    }
}

/// Whether the path from a node down to the leaf of a key is there and needs only pages at
/// hand, and so does the value.
pub open spec fn search_near(env: Env, r: PageRef, key: Seq<u8>, levels: nat, hand: Set<u64>) -> bool
    decreases levels,
{
    &&& levels > 0
    &&& r matches PageRef::Committed(id) ==> hand.contains(id)
    &&& match node_at(env, r) {
        Some(Node::Leaf(entries)) => lookup(entries, key) matches Some(value) ==> value_near(
            env.pages,
            env.count,
            value,
            hand,
        ),
        Some(Node::Internal(links)) => search_near(
            env,
            links[choose|i: int| child_at(links, key, i)].page,
            key,
            (levels - 1) as nat,
            hand,
        ),
        None => false,
    }
}

/// Whether a tree is well formed and all pages below a node are at hand.
pub open spec fn near_below(env: Env, r: PageRef, h: nat, hand: Set<u64>) -> bool {
    &&& subtree(env, r, h)
    &&& forall|id: u64| #[trigger] owns(env, r, h, PageRef::Committed(id)) ==> hand.contains(id)
}

/// Where all pages below a node are at hand, so are those below a child.
pub proof fn lemma_near_child(env: Env, r: PageRef, h: nat, links: Seq<Link>, i: int, hand: Set<u64>)
    requires
        near_below(env, r, h, hand),
        node_at(env, r) matches Some(Node::Internal(all)) && all.len() == links.len() && all[i].page
            == links[i].page,
        0 <= i < links.len(),
    ensures
        h > 0,
        near_below(env, links[i].page, (h - 1) as nat, hand),
{
    reveal(subtree);
    reveal(run_ok);
    reveal(owns);
    let all = node_at(env, r)->0->Internal_0;
    assert(subtree(env, all[i].page, (h - 1) as nat));
    assert forall|id: u64| #[trigger]
        owns(env, links[i].page, (h - 1) as nat, PageRef::Committed(id)) implies hand.contains(
        id,
    ) by {
        assert(owns(env, all[i].page, (h - 1) as nat, PageRef::Committed(id)));
        assert(owns(env, r, h, PageRef::Committed(id)));
    }
}

/// Where all pages below a node are at hand, so is its own.
pub proof fn lemma_near_root(env: Env, r: PageRef, h: nat, hand: Set<u64>)
    requires
        near_below(env, r, h, hand),
    ensures
        r matches PageRef::Committed(id) ==> hand.contains(id),
{
    crate::graft::lemma_owns_root(env, r, h);
}

/// Where all pages below a node are at hand, so are those of its values.
pub proof fn lemma_near_value(env: Env, r: PageRef, h: nat, k: int, hand: Set<u64>)
    requires
        near_below(env, r, h, hand),
        0 <= k < flat(env, r, h).len(),
    ensures
        value_near(env.pages, env.count, flat(env, r, h)[k].value, hand),
{
    let value = flat(env, r, h)[k].value;
    crate::insert::lemma_entry_readable(env, r, h, k);
    let ids = value_pages(env.pages, env.count, value);
    assert forall|i: int| 0 <= i < ids.len() implies hand.contains(#[trigger] ids[i]) by {
        let p = PageRef::Committed(ids[i]);
        assert(ids.contains(ids[i]));
        crate::insert::lemma_entry_owner(env, r, h, k, p);
        assert(owns(env, r, h, PageRef::Committed(ids[i])));
    }
}

/// Where all pages of a tree are at hand, so is the path to every key.
pub proof fn law_near_tree_needs_no_storage(
    env: Env,
    r: PageRef,
    h: nat,
    key: Seq<u8>,
    levels: nat,
    hand: Set<u64>,
)
    requires
        is_tree(env, r, h),
        near_below(env, r, h, hand),
        h < levels,
    ensures
        search_near(env, r, key, levels, hand),
    decreases h,
{
    reveal(subtree);
    reveal(run_ok);
    lemma_near_root(env, r, h, hand);
    match node_at(env, r)->0 {
        Node::Leaf(entries) => {
            if let Some(value) = lookup(entries, key) {
                let k = choose|i: int| 0 <= i < entries.len() && (#[trigger] entries[i]).key == key;
                lemma_near_value(env, r, h, k, hand);
            }
        },
        Node::Internal(links) => {
            lemma_run_sorted(env, links, (h - 1) as nat, 1);
            lemma_child_exists(links, key);
            let i = choose|i: int| child_at(links, key, i);
            lemma_descend(env, r, h, links, key, i);
            lemma_near_child(env, r, h, links, i, hand);
            law_near_tree_needs_no_storage(
                env,
                links[i].page,
                (h - 1) as nat,
                key,
                (levels - 1) as nat,
                hand,
            );
        },
    }
}

/// In entries with increasing keys, the entry with a key is the one that is found.
pub proof fn lemma_lookup(entries: Seq<Entry>, i: int)
    requires
        sorted_entries(entries),
        0 <= i < entries.len(),
    ensures
        lookup(entries, entries[i].key) == Some(entries[i].value),
{
    broadcast use group_order;

    let key = entries[i].key;
    let found = choose|j: int| 0 <= j < entries.len() && (#[trigger] entries[j]).key == key;
    if found < i {
        assert(lt(entries[found].key, entries[i].key));
    } else if i < found {
        assert(lt(entries[i].key, entries[found].key));
    }
}

/// In a well-formed tree, what is stored under a key is stored below the right child.
pub proof fn lemma_descend(env: Env, r: PageRef, h: nat, links: Seq<Link>, key: Seq<u8>, i: int)
    requires
        is_tree(env, r, h),
        node_at(env, r) == Some(Node::Internal(links)),
        child_at(links, key, i),
    ensures
        h > 0,
        is_tree(env, links[i].page, (h - 1) as nat),
        lookup(flat(env, r, h), key) == lookup(flat(env, links[i].page, (h - 1) as nat), key),
{
    reveal(subtree);
    reveal(run_ok);
    broadcast use group_order;

    let below = (h - 1) as nat;
    let whole = flat(env, r, h);
    let piece = flat(env, links[i].page, below);
    lemma_run_sorted(env, links, below, 1);
    lemma_around_child(env, links, below, key, i);
    lemma_flat_all_split(env, links, below, i);
    let start = child_start(env, links, below, i);
    if let Some(_) = lookup(piece, key) {
        let j = choose|j: int| 0 <= j < piece.len() && (#[trigger] piece[j]).key == key;
        assert(whole[start + j] == piece[j]);
        lemma_lookup(whole, start + j);
    } else if let Some(_) = lookup(whole, key) {
        let j = choose|j: int| 0 <= j < whole.len() && (#[trigger] whole[j]).key == key;
        assert(start <= j < start + piece.len());
        assert(piece[j - start] == whole[j]);
    }
}

/// In a well-formed tree, the search down a path finds what the whole tree holds.
pub proof fn lemma_search(env: Env, r: PageRef, h: nat, key: Seq<u8>, levels: nat)
    requires
        is_tree(env, r, h),
        h < levels,
    ensures
        search(env, r, key, levels) == Some(lookup(flat(env, r, h), key)),
    decreases h,
{
    reveal(subtree);
    reveal(run_ok);
    if let Some(Node::Internal(links)) = node_at(env, r) {
        lemma_run_sorted(env, links, (h - 1) as nat, 1);
        lemma_child_exists(links, key);
        let i = choose|i: int| child_at(links, key, i);
        lemma_descend(env, r, h, links, key, i);
        lemma_search(env, links[i].page, (h - 1) as nat, key, (levels - 1) as nat);
    }
}

/// Some child is the right one for a key.
pub proof fn lemma_child_exists(links: Seq<Link>, key: Seq<u8>)
    requires
        links.len() > 0,
        sorted_links(links),
    ensures
        exists|i: int| child_at(links, key, i),
    decreases links.len(),
{
    broadcast use group_order;

    let last = links.len() - 1;
    if last == 0 || crate::order::le(links[last].key, key) {
        assert(child_at(links, key, last));
    } else {
        let front = links.drop_last();
        lemma_child_exists(front, key);
        let i = choose|i: int| child_at(front, key, i);
        assert(child_at(links, key, i));
    }
}

/// A value found in a tree.
pub enum FoundValue {
    /// Inside a page that stays in memory as long as the value.
    Inline { frame: Arc<Frame>, start: usize, end: usize },
    /// Put together from an overflow chain, or copied.
    Owned(Vec<u8>),
}

impl FoundValue {
    /// The bytes of the value.
    pub open spec fn bytes(&self) -> Seq<u8> {
        match self {
            FoundValue::Inline { frame, start, end } => frame.bytes@.subrange(
                *start as int,
                *end as int,
            ),
            FoundValue::Owned(bytes) => bytes@,
        }
    }

    /// Whether the range of an inline value lies inside its page.
    pub open spec fn valid(&self) -> bool {
        self matches FoundValue::Inline { frame, start, end } ==> *start <= *end <= PAGE_SIZE
    }

    /// Borrows the bytes of the value.
    pub fn as_slice(&self) -> (bytes: &[u8])
        requires
            self.valid(),
        ensures
            bytes@ == self.bytes(),
    {
        match self {
            FoundValue::Inline { frame, start, end } => &frame.bytes[*start..*end],
            FoundValue::Owned(bytes) => bytes.as_slice(),
        }
    }
}

/// What a lookup gives for the outcome of a search.
pub open spec fn found(pages: Pages, count: u64, outcome: Option<Option<Stored>>) -> Option<
    Option<Seq<u8>>,
> {
    match outcome {
        None => None,
        Some(None) => Some(None),
        Some(Some(value)) => match read_value(pages, count, value) {
            Some(bytes) => Some(Some(bytes)),
            None => None,
        },
    }
}

/// Looks a key up in one leaf.
pub fn get_from_leaf<R: PageReader>(
    reader: &mut R,
    frame: Arc<Frame>,
    page_count: u64,
    key: &[u8],
) -> (result: Result<Option<FoundValue>>)
    requires
        old(reader).usable(),
        crate::page::leaf_valid(frame.bytes@),
    ensures
        final(reader).usable(),
        final(reader).origin() == old(reader).origin(),
        old(reader).failures() <= final(reader).failures(),
        hoards(*old(reader), *final(reader)),
        honest(
            result,
            old(reader).failures(),
            final(reader).failures(),
            final(reader).reported(),
            incomplete(old(reader).pages(), page_count),
        ),
        final(reader).pages() == old(reader).pages(),
        ({
            let outcome = found(
                old(reader).pages(),
                page_count,
                Some(lookup(leaf_entries(frame.bytes@), key@)),
            );
            match result {
                Ok(Some(value)) => {
                    &&& value.valid()
                    &&& outcome == Some(Some(value.bytes()))
                    &&& value is Inline == (lookup(leaf_entries(frame.bytes@), key@)->0 is Inline)
                    &&& value matches FoundValue::Inline { frame: held, .. } ==> held == frame
                },
                Ok(None) => outcome == Some(None::<Seq<u8>>),
                Err(error) => fails_for(
                    error,
                    outcome is None,
                    final(reader).failures() > old(reader).failures(),
                ),
            }
        }),
        steady(
            lookup(leaf_entries(frame.bytes@), key@) matches Some(value) ==> value_near(
                old(reader).pages(),
                page_count,
                value,
                old(reader).at_hand(),
            ),
            old(reader).at_hand(),
            final(reader).at_hand(),
            result,
        ),
{
    let index = match leaf_search(&frame.bytes, key)? {
        Some(index) => index,
        None => return Ok(None),
    };
    proof {
        crate::page::lemma_leaf_valid(frame.bytes@);
        lemma_lookup(leaf_entries(frame.bytes@), index as int);
        reveal(crate::page::leaf_valid);
        assert(crate::page::leaf_slot_valid(frame.bytes@, index as int));
    }
    let slot = crate::page::leaf_slot(&frame.bytes, index)?;
    if slot.overflow == 0 {
        return Ok(
            Some(FoundValue::Inline { frame, start: slot.key_end, end: slot.value_end }),
        );
    }
    let bytes = read_overflow(reader, slot.overflow, page_count, slot.value_len)?;
    Ok(Some(FoundValue::Owned(bytes)))
}

/// Looks a key up in a published tree.
pub fn get<R: PageReader>(reader: &mut R, root: u64, page_count: u64, key: &[u8]) -> (result: Result<
    Option<FoundValue>,
>)
    requires
        old(reader).usable(),
    ensures
        final(reader).usable(),
        final(reader).origin() == old(reader).origin(),
        old(reader).failures() <= final(reader).failures(),
        hoards(*old(reader), *final(reader)),
        honest(
            result,
            old(reader).failures(),
            final(reader).failures(),
            final(reader).reported(),
            incomplete(old(reader).pages(), page_count),
        ),
        final(reader).pages() == old(reader).pages(),
        ({
            let env = published(old(reader).pages(), page_count);
            let path = search(env, PageRef::Committed(root), key@, MAX_DEPTH as nat);
            let outcome = found(env.pages, page_count, path);
            match result {
                Ok(Some(value)) => value.valid() && outcome == Some(Some(value.bytes())) && value
                    is Inline == (path->0->0 is Inline),
                Ok(None) => outcome == Some(None::<Seq<u8>>),
                Err(error) => fails_for(
                    error,
                    outcome is None,
                    final(reader).failures() > old(reader).failures(),
                ),
            }
        }),
        steady(
            search_near(
                published(old(reader).pages(), page_count),
                PageRef::Committed(root),
                key@,
                MAX_DEPTH as nat,
                old(reader).at_hand(),
            ),
            old(reader).at_hand(),
            final(reader).at_hand(),
            result,
        ),
{
    let ghost env = published(reader.pages(), page_count);
    let ghost hand = reader.at_hand();
    let ghost ready = search_near(
        env,
        PageRef::Committed(root),
        key@,
        MAX_DEPTH as nat,
        hand,
    );
    let mut page_id = root;
    let mut level: usize = 0;
    while level < MAX_DEPTH
        invariant
            level <= MAX_DEPTH,
            reader.usable(),
            reader.origin() == old(reader).origin(),
            reader.failures() == old(reader).failures(),
            hoards(*old(reader), *reader),
            reader.pages() == old(reader).pages(),
            env == published(old(reader).pages(), page_count),
            hand == old(reader).at_hand(),
            ready == search_near(
                env,
                PageRef::Committed(root),
                key@,
                MAX_DEPTH as nat,
                hand,
            ),
            ready ==> reader.at_hand() == hand && search_near(
                env,
                PageRef::Committed(page_id),
                key@,
                (MAX_DEPTH - level) as nat,
                hand,
            ),
            search(env, PageRef::Committed(root), key@, MAX_DEPTH as nat) == search(
                env,
                PageRef::Committed(page_id),
                key@,
                (MAX_DEPTH - level) as nat,
            ),
        decreases MAX_DEPTH - level,
    {
        let frame = reader.page(page_id, page_count)?;
        if frame.bytes[0] == LEAF {
            validate_leaf(&frame.bytes)?;
            return get_from_leaf(reader, frame, page_count, key);
        } else if frame.bytes[0] == INTERNAL {
            validate_internal(&frame.bytes, page_count)?;
            let child = internal_child(&frame.bytes, page_count, key);
            proof {
                let links = internal_links(frame.bytes@);
                lemma_internal_valid(frame.bytes@, page_count);
                let taken = choose|i: int| #[trigger]
                    child_at(links, key@, i) && links[i].page == PageRef::Committed(child);
                lemma_child_at_unique(links, key@, taken, choose|i: int| child_at(links, key@, i));
            }
            page_id = child;
        } else {
            return Err(unexpected_tree_page(frame.bytes[0]));
        }
        level = level + 1;
    }
    Err(corrupt("tree exceeds maximum depth"))
}

} // verus!
