//! What a user tree means: the entries below a node, when a tree is well formed,
//! and which pages belong to it.
//!
//! A tree is read in an environment: the published pages and, inside a write
//! transaction, the nodes that it holds in memory. The functions here take the
//! height of a node as an argument; leaves have height zero and all leaves of a
//! tree have the same depth.
use crate::format::{in_snapshot, page_ok, INTERNAL, LEAF, META_PAGES, OVERFLOW, PAGE_SIZE};
use crate::node::{
    child_at, entries_fit, leaf_size, sorted_entries, Entry, Link, Node, PageRef, Stored,
    OVERFLOW_CAPACITY, PAGE_END,
};
use crate::order::{group_order, lemma_lt_transitive, lt};
use crate::page::{
    chunk_of, internal_links, internal_valid, keys_fit, leaf_entries, leaf_valid, next_of,
    overflow_valid, sorted_links,
};
use vstd::prelude::*;

verus! {

/// Published pages by identifier.
pub type Pages = Map<u64, Seq<u8>>;

/// Where a tree is read.
pub ghost struct Env {
    /// The published pages.
    pub pages: Pages,
    /// Number of pages of the snapshot; references to others are invalid.
    pub count: u64,
    /// The nodes that a write transaction holds in memory.
    pub dirty: Seq<Option<Node>>,
}

/// The environment of a published snapshot.
pub open spec fn published(pages: Pages, count: u64) -> Env {
    Env { pages, count, dirty: Seq::empty() }
}

/// Whether a page lies in the snapshot, is present and has the right checksum.
pub open spec fn readable(pages: Pages, count: u64, id: u64) -> bool {
    &&& in_snapshot(id, count)
    &&& pages.contains_key(id)
    &&& pages[id].len() == PAGE_SIZE
    &&& page_ok(pages[id])
}

/// The node that a published page holds.
pub open spec fn page_node(page: Seq<u8>, count: u64) -> Option<Node> {
    if page[0] == LEAF && leaf_valid(page) {
        Some(Node::Leaf(leaf_entries(page)))
    } else if page[0] == INTERNAL && internal_valid(page, count) {
        Some(Node::Internal(internal_links(page)))
    } else {
        None
    }
}

/// The node that a reference names.
pub open spec fn node_at(env: Env, r: PageRef) -> Option<Node> {
    match r {
        PageRef::Committed(id) => if readable(env.pages, env.count, id) {
            page_node(env.pages[id], env.count)
        } else {
            None
        },
        PageRef::Dirty(index) => if index < env.dirty.len() {
            env.dirty[index as int]
        } else {
            None
        },
    }
}

// ---------------------------------------------------------------------------
// Values
// ---------------------------------------------------------------------------

/// Whether a page is a readable link of an overflow chain.
pub open spec fn link_ok(pages: Pages, count: u64, id: u64) -> bool {
    readable(pages, count, id) && pages[id][0] == OVERFLOW && overflow_valid(pages[id], count)
}

/// The pages and the bytes of the overflow chain that starts at `id`, if it ends
/// after at most `fuel` readable links.
pub open spec fn chain(pages: Pages, count: u64, id: u64, fuel: nat) -> Option<(Seq<u64>, Seq<u8>)>
    decreases fuel,
{
    if id == 0 {
        Some((Seq::empty(), Seq::empty()))
    } else if fuel == 0 || !link_ok(pages, count, id) {
        None
    } else {
        match chain(pages, count, next_of(pages[id]), (fuel - 1) as nat) {
            Some((ids, bytes)) => Some((seq![id] + ids, chunk_of(pages[id]) + bytes)),
            None => None,
        }
    }
}

/// The pages of the overflow chain that starts at `id`.
pub open spec fn chain_ids(pages: Pages, count: u64, id: u64, fuel: nat) -> Seq<u64> {
    match chain(pages, count, id, fuel) {
        Some((ids, _)) => ids,
        None => Seq::empty(),
    }
}

/// Largest value that the overflow pages of a snapshot can hold.
pub open spec fn value_capacity(count: u64) -> nat {
    if count < META_PAGES {
        0
    } else {
        ((count - META_PAGES) * OVERFLOW_CAPACITY) as nat
    }
}

/// The bytes of a stored value, if they can be read.
pub open spec fn read_value(pages: Pages, count: u64, value: Stored) -> Option<Seq<u8>> {
    match value {
        Stored::Inline(bytes) => Some(bytes),
        Stored::Pending(bytes) => Some(bytes),
        Stored::Overflow { head, len } => match chain(pages, count, head, count as nat) {
            Some((_, bytes)) => if len <= value_capacity(count) && bytes.len() == len {
                Some(bytes)
            } else {
                None
            },
            None => None,
        },
    }
}

/// The pages of the overflow chain of a value.
pub open spec fn value_pages(pages: Pages, count: u64, value: Stored) -> Seq<u64> {
    match value {
        Stored::Overflow { head, len: _ } => chain_ids(pages, count, head, count as nat),
        _ => Seq::empty(),
    }
}

/// Whether a value can be read and no page occurs twice in its chain.
pub open spec fn value_ok(pages: Pages, count: u64, value: Stored) -> bool {
    read_value(pages, count, value) is Some && value_pages(pages, count, value).no_duplicates()
}

/// Whether a page belongs to the chain of a value.
pub open spec fn value_owns(env: Env, value: Stored, p: PageRef) -> bool {
    p matches PageRef::Committed(id) && value_pages(env.pages, env.count, value).contains(id)
}

// ---------------------------------------------------------------------------
// Trees
// ---------------------------------------------------------------------------

/// The entries below a node, from left to right.
pub open spec fn flat(env: Env, r: PageRef, h: nat) -> Seq<Entry>
    decreases h, 0nat,
{
    match node_at(env, r) {
        Some(Node::Leaf(entries)) => entries,
        Some(Node::Internal(links)) => if h == 0 {
            Seq::empty()
        } else {
            flat_all(env, links, (h - 1) as nat)
        },
        None => Seq::empty(),
    }
}

/// The entries below a run of children, from left to right.
pub open spec fn flat_all(env: Env, links: Seq<Link>, h: nat) -> Seq<Entry>
    decreases h, links.len(),
{
    if links.len() == 0 {
        Seq::empty()
    } else {
        flat_all(env, links.drop_last(), h) + flat(env, links.last().page, h)
    }
}

/// Whether a node or page belongs to the tree below `r`.
#[verifier::opaque]
pub open spec fn owns(env: Env, r: PageRef, h: nat, p: PageRef) -> bool
    decreases h,
{
    p == r || match node_at(env, r) {
        Some(Node::Leaf(entries)) => exists|i: int|
            0 <= i < entries.len() && value_owns(env, (#[trigger] entries[i]).value, p),
        Some(Node::Internal(links)) => h > 0 && exists|i: int|
            0 <= i < links.len() && owns(env, (#[trigger] links[i]).page, (h - 1) as nat, p),
        None => false,
    }
}

/// Whether a node or page belongs to the trees below a run of children.
pub open spec fn run_owns(env: Env, links: Seq<Link>, h: nat, p: PageRef) -> bool {
    exists|i: int| 0 <= i < links.len() && owns(env, (#[trigger] links[i]).page, h, p)
}

/// Whether the values of a leaf can be read and their chains share no page, neither
/// with each other nor with the leaf itself.
#[verifier::opaque]
pub open spec fn values_ok(env: Env, r: PageRef, entries: Seq<Entry>) -> bool {
    &&& forall|i: int|
        0 <= i < entries.len() ==> value_ok(env.pages, env.count, (#[trigger] entries[i]).value)
            && !value_owns(env, entries[i].value, r)
    &&& forall|i: int, j: int, p: PageRef|
        0 <= i < j < entries.len() ==> !(#[trigger] value_owns(env, entries[i].value, p)
            && #[trigger] value_owns(env, entries[j].value, p))
}

/// Whether every child from `from` on stands under the smallest key below it.
pub open spec fn keyed(env: Env, links: Seq<Link>, h: nat, from: int) -> bool {
    forall|i: int|
        from <= i < links.len() ==> (#[trigger] links[i]).key == flat(env, links[i].page, h)[0].key
}

/// Whether every child of a run heads a non-empty well-formed tree and the trees
/// share no page.
#[verifier::opaque]
pub open spec fn run_ok(env: Env, links: Seq<Link>, h: nat) -> bool
    decreases h, 1nat,
{
    &&& forall|i: int|
        0 <= i < links.len() ==> subtree(env, (#[trigger] links[i]).page, h) && flat(
            env,
            links[i].page,
            h,
        ).len() > 0
    &&& forall|i: int, j: int, p: PageRef|
        0 <= i < j < links.len() ==> !(#[trigger] owns(env, links[i].page, h, p)
            && #[trigger] owns(env, links[j].page, h, p))
}

/// Whether `r` heads a well-formed tree of height `h`, but for the order of its
/// entries: nodes can be read and fit into pages, separators are exact, only a leaf
/// that is the whole tree may be empty, and no page belongs to the tree twice.
#[verifier::opaque]
pub open spec fn subtree(env: Env, r: PageRef, h: nat) -> bool
    decreases h, 0nat,
{
    match node_at(env, r) {
        Some(Node::Leaf(entries)) => {
            &&& h == 0
            &&& entries_fit(entries)
            &&& leaf_size(entries) <= PAGE_END
            &&& values_ok(env, r, entries)
        },
        Some(Node::Internal(links)) => {
            &&& h > 0
            &&& links.len() > 0
            &&& keys_fit(links)
            &&& run_ok(env, links, (h - 1) as nat)
            &&& !run_owns(env, links, (h - 1) as nat, r)
            &&& keyed(
                env,
                links,
                (h - 1) as nat,
                if r is Dirty {
                    0
                } else {
                    1
                },
            )
        },
        None => false,
    }
}

/// Whether `r` heads a well-formed tree of height `h` with its entries in order.
pub open spec fn is_tree(env: Env, r: PageRef, h: nat) -> bool {
    subtree(env, r, h) && sorted_entries(flat(env, r, h))
}

/// A key and the bytes of its value.
pub type Row = (Seq<u8>, Seq<u8>);

/// The keys and value bytes of entries.
pub open spec fn rows_of(env: Env, entries: Seq<Entry>) -> Seq<Row> {
    entries.map_values(
        |entry: Entry| (entry.key, read_value(env.pages, env.count, entry.value)->0),
    )
}

/// The keys and values of a well-formed tree, in order, or nothing if the tree is
/// not well formed.
pub open spec fn tree_rows(env: Env, r: PageRef) -> Option<Seq<Row>> {
    if exists|h: nat| is_tree(env, r, h) {
        Some(rows_of(env, flat(env, r, choose|h: nat| is_tree(env, r, h))))
    } else {
        None
    }
}

/// The mapping that rows in key order stand for.
pub open spec fn map_of(rows: Seq<Row>) -> Map<Seq<u8>, Seq<u8>> {
    Map::new(
        |key: Seq<u8>| exists|i: int| 0 <= i < rows.len() && (#[trigger] rows[i]).0 == key,
        |key: Seq<u8>|
            rows[choose|i: int| 0 <= i < rows.len() && (#[trigger] rows[i]).0 == key].1,
    )
}

// ---------------------------------------------------------------------------
// Runs of children
// ---------------------------------------------------------------------------

/// The entries below two runs are those below both together.
pub proof fn lemma_flat_all_add(env: Env, a: Seq<Link>, b: Seq<Link>, h: nat)
    ensures
        flat_all(env, a + b, h) == flat_all(env, a, h) + flat_all(env, b, h),
    decreases b.len(),
{
    if b.len() == 0 {
        assert(a + b =~= a);
        assert(flat_all(env, a, h) + flat_all(env, b, h) =~= flat_all(env, a, h));
    } else {
        lemma_flat_all_add(env, a, b.drop_last(), h);
        assert((a + b).drop_last() =~= a + b.drop_last());
        assert((a + b).last() == b.last());
        assert(flat_all(env, a + b, h) =~= flat_all(env, a, h) + flat_all(env, b, h));
    }
}

/// The entries below a single child.
pub proof fn lemma_flat_all_one(env: Env, link: Link, h: nat)
    ensures
        flat_all(env, seq![link], h) == flat(env, link.page, h),
{
    let one = seq![link];
    assert(one.drop_last() =~= Seq::<Link>::empty());
    assert(one.last() == link);
    assert(flat_all(env, one.drop_last(), h) =~= Seq::<Entry>::empty());
    assert(flat_all(env, one, h) =~= flat(env, link.page, h));
}

/// The entries below a run, around one of its children.
pub proof fn lemma_flat_all_split(env: Env, links: Seq<Link>, h: nat, i: int)
    requires
        0 <= i < links.len(),
    ensures
        flat_all(env, links, h) == flat_all(env, links.take(i), h) + flat(env, links[i].page, h)
            + flat_all(env, links.skip(i + 1), h),
{
    let one = seq![links[i]];
    assert(links =~= (links.take(i) + one) + links.skip(i + 1));
    lemma_flat_all_add(env, links.take(i) + one, links.skip(i + 1), h);
    lemma_flat_all_add(env, links.take(i), one, h);
    lemma_flat_all_one(env, links[i], h);
}

/// The entries below a prefix, one child longer.
pub proof fn lemma_flat_all_take(env: Env, links: Seq<Link>, h: nat, i: int)
    requires
        0 <= i < links.len(),
    ensures
        flat_all(env, links.take(i + 1), h) == flat_all(env, links.take(i), h) + flat(
            env,
            links[i].page,
            h,
        ),
{
    assert(links.take(i + 1).drop_last() =~= links.take(i));
    assert(links.take(i + 1).last() == links[i]);
}

/// Where the entries of one child lie among those of the run.
pub open spec fn child_start(env: Env, links: Seq<Link>, h: nat, i: int) -> int {
    flat_all(env, links.take(i), h).len() as int
}

/// The entries of child `i` are a piece of those of the run.
pub proof fn lemma_child_piece(env: Env, links: Seq<Link>, h: nat, i: int, k: int)
    requires
        0 <= i < links.len(),
        0 <= k < flat(env, links[i].page, h).len(),
    ensures
        0 <= child_start(env, links, h, i) + k < flat_all(env, links, h).len(),
        flat_all(env, links, h)[child_start(env, links, h, i) + k] == flat(env, links[i].page, h)[k],
{
    lemma_flat_all_split(env, links, h, i);
}

/// Children further right start further right.
pub proof fn lemma_child_start_monotone(env: Env, links: Seq<Link>, h: nat, i: int, j: int)
    requires
        0 <= i < j <= links.len(),
    ensures
        child_start(env, links, h, i) + flat(env, links[i].page, h).len() <= child_start(
            env,
            links,
            h,
            j,
        ),
        child_start(env, links, h, j) <= flat_all(env, links, h).len(),
    decreases j - i,
{
    if i + 1 < j {
        lemma_child_start_monotone(env, links, h, i, j - 1);
        lemma_flat_all_take(env, links, h, j - 1);
    } else {
        lemma_flat_all_take(env, links, h, i);
    }
    assert(links =~= links.take(j) + links.skip(j));
    lemma_flat_all_add(env, links.take(j), links.skip(j), h);
}

/// Each entry of a run belongs to one of its children.
pub proof fn lemma_flat_all_index(env: Env, links: Seq<Link>, h: nat, k: int) -> (at: (int, int))
    requires
        0 <= k < flat_all(env, links, h).len(),
    ensures
        0 <= at.0 < links.len(),
        0 <= at.1 < flat(env, links[at.0].page, h).len(),
        flat_all(env, links, h)[k] == flat(env, links[at.0].page, h)[at.1],
        k == child_start(env, links, h, at.0) + at.1,
    decreases links.len(),
{
    let front = links.drop_last();
    let n = links.len() - 1;
    assert(front =~= links.take(n));
    if k < flat_all(env, front, h).len() {
        let at = lemma_flat_all_index(env, front, h, k);
        assert(front.take(at.0) =~= links.take(at.0));
        at
    } else {
        (n, k - flat_all(env, front, h).len())
    }
}

/// Separators of a sorted run increase, and a sorted run has sorted children.
pub proof fn lemma_run_sorted(env: Env, links: Seq<Link>, h: nat, from: int)
    requires
        run_ok(env, links, h),
        keyed(env, links, h, from),
        sorted_entries(flat_all(env, links, h)),
        from >= 0,
    ensures
        forall|i: int, j: int|
            from <= i < j < links.len() ==> lt(#[trigger] links[i].key, #[trigger] links[j].key),
        forall|i: int|
            0 <= i < links.len() ==> sorted_entries(flat(env, (#[trigger] links[i]).page, h)),
{
    reveal(run_ok);
    let whole = flat_all(env, links, h);
    assert forall|i: int, j: int| from <= i < j < links.len() implies lt(
        #[trigger] links[i].key,
        #[trigger] links[j].key,
    ) by {
        lemma_child_piece(env, links, h, i, 0);
        lemma_child_piece(env, links, h, j, 0);
        lemma_child_start_monotone(env, links, h, i, j);
        assert(lt(
            whole[child_start(env, links, h, i)].key,
            whole[child_start(env, links, h, j)].key,
        ));
    }
    assert forall|i: int| 0 <= i < links.len() implies sorted_entries(
        flat(env, (#[trigger] links[i]).page, h),
    ) by {
        let piece = flat(env, links[i].page, h);
        assert forall|a: int, b: int| 0 <= a < b < piece.len() implies lt(
            #[trigger] piece[a].key,
            #[trigger] piece[b].key,
        ) by {
            lemma_child_piece(env, links, h, i, a);
            lemma_child_piece(env, links, h, i, b);
            let start = child_start(env, links, h, i);
            assert(lt(whole[start + a].key, whole[start + b].key));
        }
    }
}

/// In a sorted run, a key that is looked up under the right child is above all
/// entries to the left of it and below all entries to the right.
pub proof fn lemma_around_child(env: Env, links: Seq<Link>, h: nat, key: Seq<u8>, i: int)
    requires
        run_ok(env, links, h),
        keyed(env, links, h, 1),
        sorted_entries(flat_all(env, links, h)),
        child_at(links, key, i),
    ensures
        forall|k: int|
            0 <= k < child_start(env, links, h, i) ==> lt(
                (#[trigger] flat_all(env, links, h)[k]).key,
                key,
            ),
        forall|k: int|
            child_start(env, links, h, i) + flat(env, links[i].page, h).len() <= k < flat_all(
                env,
                links,
                h,
            ).len() ==> lt(key, (#[trigger] flat_all(env, links, h)[k]).key),
{
    reveal(run_ok);
    let whole = flat_all(env, links, h);
    let start = child_start(env, links, h, i);
    let end = start + flat(env, links[i].page, h).len();
    lemma_flat_all_split(env, links, h, i);
    assert forall|k: int| 0 <= k < start implies lt((#[trigger] whole[k]).key, key) by {
        if i > 0 {
            lemma_child_piece(env, links, h, i, 0);
            assert(whole[start].key == links[i].key);
            assert(lt(whole[k].key, whole[start].key));
            if links[i].key != key {
                lemma_lt_transitive(whole[k].key, links[i].key, key);
            }
        } else {
            assert(links.take(0) =~= Seq::<Link>::empty());
        }
    }
    assert forall|k: int| end <= k < whole.len() implies lt(key, (#[trigger] whole[k]).key) by {
        if i + 1 < links.len() {
            lemma_flat_all_take(env, links, h, i);
            assert(child_start(env, links, h, i + 1) == end);
            lemma_child_piece(env, links, h, i + 1, 0);
            assert(whole[end].key == links[i + 1].key);
            if k > end {
                assert(lt(whole[end].key, whole[k].key));
                lemma_lt_transitive(key, links[i + 1].key, whole[k].key);
            }
        } else {
            assert(links.skip(i + 1) =~= Seq::<Link>::empty());
        }
    }
}

/// Only one child is the right one for a key.
pub proof fn lemma_child_at_unique(links: Seq<Link>, key: Seq<u8>, i: int, j: int)
    requires
        sorted_links(links),
        child_at(links, key, i),
        child_at(links, key, j),
    ensures
        i == j,
{
    broadcast use group_order;

    if i < j {
        if i + 1 < j {
            assert(lt(links[i + 1].key, links[j].key));
        }
    } else if j < i {
        if j + 1 < i {
            assert(lt(links[j + 1].key, links[i].key));
        }
    }
}

// ---------------------------------------------------------------------------
// Heights
// ---------------------------------------------------------------------------

/// A tree has one height.
pub proof fn lemma_height_unique(env: Env, r: PageRef, h1: nat, h2: nat)
    requires
        subtree(env, r, h1),
        subtree(env, r, h2),
    ensures
        h1 == h2,
    decreases h1,
{
    reveal(subtree);
    if let Some(Node::Internal(links)) = node_at(env, r) {
        let child = links[0].page;
        lemma_height_unique(env, child, (h1 - 1) as nat, (h2 - 1) as nat);
    }
}

/// The rows of a tree whose height is known.
pub proof fn lemma_tree_rows(env: Env, r: PageRef, h: nat)
    requires
        is_tree(env, r, h),
    ensures
        tree_rows(env, r) == Some(rows_of(env, flat(env, r, h))),
{
    let chosen = choose|h: nat| is_tree(env, r, h);
    lemma_height_unique(env, r, h, chosen);
}

// ---------------------------------------------------------------------------
// Framing
// ---------------------------------------------------------------------------

/// Whether two environments agree on the nodes and pages that `r` owns.
pub open spec fn agree_on(env: Env, other: Env, r: PageRef, h: nat) -> bool {
    forall|p: PageRef| #[trigger] owns(env, r, h, p) ==> same_at(env, other, p)
}

/// Whether two environments agree on one node or page.
pub open spec fn same_at(env: Env, other: Env, p: PageRef) -> bool {
    match p {
        PageRef::Committed(id) => readable(env.pages, env.count, id) ==> readable(
            other.pages,
            other.count,
            id,
        ) && other.pages[id] == env.pages[id] && env.count <= other.count,
        PageRef::Dirty(index) => node_at(other, p) == node_at(env, p),
    }
}

/// A valid internal page stays valid when the snapshot grows.
proof fn lemma_internal_valid_grows(page: Seq<u8>, count: u64, larger: u64)
    requires
        internal_valid(page, count),
        count <= larger,
    ensures
        internal_valid(page, larger),
{
    reveal(internal_valid);
    assert forall|index: int| 0 <= index < crate::page::count_of(page) implies
        #[trigger] crate::page::internal_slot_valid(page, larger, index) by {
        assert(crate::page::internal_slot_valid(page, count, index));
    }
}

/// A chain reads the same in an environment that agrees on its pages.
pub proof fn lemma_chain_kept(
    pages: Pages,
    count: u64,
    other: Pages,
    larger: u64,
    id: u64,
    fuel: nat,
    other_fuel: nat,
)
    requires
        chain(pages, count, id, fuel) is Some,
        fuel <= other_fuel,
        count <= larger,
        forall|p: u64| #[trigger]
            chain_ids(pages, count, id, fuel).contains(p) ==> readable(other, larger, p) && other[p]
                == pages[p],
    ensures
        chain(other, larger, id, other_fuel) == chain(pages, count, id, fuel),
    decreases fuel,
{
    if id != 0 {
        let ids = chain_ids(pages, count, id, fuel);
        let rest = chain_ids(pages, count, next_of(pages[id]), (fuel - 1) as nat);
        assert(ids[0] == id);
        assert(ids.contains(id));
        assert forall|p: u64| #[trigger] rest.contains(p) implies readable(other, larger, p)
            && other[p] == pages[p] by {
            let k = choose|k: int| 0 <= k < rest.len() && rest[k] == p;
            assert(ids[k + 1] == p);
            assert(ids.contains(p));
        }
        lemma_chain_kept(
            pages,
            count,
            other,
            larger,
            next_of(pages[id]),
            (fuel - 1) as nat,
            (other_fuel - 1) as nat,
        );
    }
}

/// The pages of a chain are readable links.
pub proof fn lemma_chain_pages(pages: Pages, count: u64, id: u64, fuel: nat)
    requires
        chain(pages, count, id, fuel) is Some,
    ensures
        forall|p: u64| #[trigger]
            chain_ids(pages, count, id, fuel).contains(p) ==> link_ok(pages, count, p),
        id != 0 ==> chain_ids(pages, count, id, fuel).contains(id),
    decreases fuel,
{
    if id != 0 {
        let ids = chain_ids(pages, count, id, fuel);
        let rest = chain_ids(pages, count, next_of(pages[id]), (fuel - 1) as nat);
        lemma_chain_pages(pages, count, next_of(pages[id]), (fuel - 1) as nat);
        assert(ids[0] == id);
        assert forall|p: u64| #[trigger] ids.contains(p) implies link_ok(pages, count, p) by {
            let k = choose|k: int| 0 <= k < ids.len() && ids[k] == p;
            if k > 0 {
                assert(rest[k - 1] == p);
                assert(rest.contains(p));
            }
        }
    }
}

/// A value reads the same in an environment that agrees on the pages of its chain.
pub proof fn lemma_value_kept(env: Env, other: Env, value: Stored)
    requires
        value_ok(env.pages, env.count, value),
        forall|p: PageRef| #[trigger] value_owns(env, value, p) ==> same_at(env, other, p),
        env.count <= other.count,
    ensures
        value_ok(other.pages, other.count, value),
        read_value(other.pages, other.count, value) == read_value(env.pages, env.count, value),
        value_pages(other.pages, other.count, value) == value_pages(env.pages, env.count, value),
{
    if let Stored::Overflow { head, len } = value {
        let ids = chain_ids(env.pages, env.count, head, env.count as nat);
        lemma_chain_pages(env.pages, env.count, head, env.count as nat);
        assert forall|p: u64| #[trigger] ids.contains(p) implies readable(
            other.pages,
            other.count,
            p,
        ) && other.pages[p] == env.pages[p] by {
            assert(value_owns(env, value, PageRef::Committed(p)));
            assert(same_at(env, other, PageRef::Committed(p)));
        }
        lemma_chain_kept(
            env.pages,
            env.count,
            other.pages,
            other.count,
            head,
            env.count as nat,
            other.count as nat,
        );
        assert(value_capacity(env.count) <= value_capacity(other.count)) by (nonlinear_arith)
            requires
                env.count <= other.count,
        ;
    }
}

/// The node at a reference reads the same in an environment that agrees on it.
pub proof fn lemma_node_kept(env: Env, other: Env, r: PageRef)
    requires
        node_at(env, r) is Some,
        same_at(env, other, r),
        env.count <= other.count,
    ensures
        node_at(other, r) == node_at(env, r),
{
    if let PageRef::Committed(id) = r {
        let page = env.pages[id];
        if page[0] == INTERNAL && internal_valid(page, env.count) {
            lemma_internal_valid_grows(page, env.count, other.count);
        }
    }
}

/// A tree reads the same, and owns the same, in an environment that agrees on what
/// it owns.
pub proof fn lemma_tree_kept(env: Env, other: Env, r: PageRef, h: nat)
    requires
        subtree(env, r, h),
        agree_on(env, other, r, h),
        env.count <= other.count,
    ensures
        subtree(other, r, h),
        flat(other, r, h) == flat(env, r, h),
        rows_of(other, flat(other, r, h)) == rows_of(env, flat(env, r, h)),
        forall|p: PageRef| #[trigger] owns(other, r, h, p) == owns(env, r, h, p),
    decreases h,
{
    reveal(subtree);
    reveal(values_ok);
    reveal(owns);
    reveal(run_ok);
    assert(owns(env, r, h, r));
    lemma_node_kept(env, other, r);
    match node_at(env, r)->0 {
        Node::Leaf(entries) => {
            assert forall|i: int| 0 <= i < entries.len() implies value_ok(
                other.pages,
                other.count,
                (#[trigger] entries[i]).value,
            ) && read_value(other.pages, other.count, entries[i].value) == read_value(
                env.pages,
                env.count,
                entries[i].value,
            ) && value_pages(other.pages, other.count, entries[i].value) == value_pages(
                env.pages,
                env.count,
                entries[i].value,
            ) by {
                let value = entries[i].value;
                assert forall|p: PageRef| #[trigger] value_owns(env, value, p) implies same_at(
                    env,
                    other,
                    p,
                ) by {
                    assert(owns(env, r, h, p));
                }
                lemma_value_kept(env, other, value);
            }
            assert(forall|i: int, p: PageRef|
                0 <= i < entries.len() ==> #[trigger] value_owns(other, entries[i].value, p)
                    == value_owns(env, entries[i].value, p));
            assert(rows_of(other, entries) =~= rows_of(env, entries));
            assert forall|p: PageRef| #[trigger] owns(other, r, h, p) == owns(env, r, h, p) by {
                if owns(env, r, h, p) && p != r {
                    let i = choose|i: int|
                        0 <= i < entries.len() && value_owns(env, (#[trigger] entries[i]).value, p);
                    assert(value_owns(other, entries[i].value, p));
                }
                if owns(other, r, h, p) && p != r {
                    let i = choose|i: int|
                        0 <= i < entries.len() && value_owns(
                            other,
                            (#[trigger] entries[i]).value,
                            p,
                        );
                    assert(value_owns(env, entries[i].value, p));
                }
            }
        },
        Node::Internal(links) => {
            let below = (h - 1) as nat;
            assert forall|i: int| 0 <= i < links.len() implies {
                &&& subtree(other, (#[trigger] links[i]).page, below)
                &&& flat(other, links[i].page, below) == flat(env, links[i].page, below)
                &&& rows_of(other, flat(other, links[i].page, below)) == rows_of(
                    env,
                    flat(env, links[i].page, below),
                )
            } by {
                assert forall|p: PageRef| #[trigger]
                    owns(env, links[i].page, below, p) implies same_at(env, other, p) by {
                    assert(owns(env, r, h, p));
                }
                lemma_tree_kept(env, other, links[i].page, below);
            }
            assert forall|i: int, p: PageRef| 0 <= i < links.len() implies #[trigger] owns(
                other,
                links[i].page,
                below,
                p,
            ) == owns(env, links[i].page, below, p) by {
                assert forall|q: PageRef| #[trigger]
                    owns(env, links[i].page, below, q) implies same_at(env, other, q) by {
                    assert(owns(env, r, h, q));
                }
                lemma_tree_kept(env, other, links[i].page, below);
            }
            lemma_flat_all_kept(env, other, links, below);
            assert(flat(other, r, h) == flat(env, r, h));
            let entries = flat(env, r, h);
            assert forall|k: int| 0 <= k < entries.len() implies #[trigger] rows_of(
                other,
                entries,
            )[k] == rows_of(env, entries)[k] by {
                let at = lemma_flat_all_index(env, links, below, k);
                let piece = flat(env, links[at.0].page, below);
                assert(rows_of(other, piece)[at.1] == rows_of(env, piece)[at.1]);
            }
            assert(rows_of(other, entries) =~= rows_of(env, entries));
            assert forall|p: PageRef| #[trigger] owns(other, r, h, p) == owns(env, r, h, p) by {
                if owns(env, r, h, p) && p != r {
                    let i = choose|i: int|
                        0 <= i < links.len() && owns(env, (#[trigger] links[i]).page, below, p);
                    assert(owns(other, links[i].page, below, p));
                }
                if owns(other, r, h, p) && p != r {
                    let i = choose|i: int|
                        0 <= i < links.len() && owns(other, (#[trigger] links[i]).page, below, p);
                    assert(owns(env, links[i].page, below, p));
                }
            }
            assert(!run_owns(other, links, below, r)) by {
                if run_owns(other, links, below, r) {
                    let i = choose|i: int|
                        0 <= i < links.len() && owns(other, (#[trigger] links[i]).page, below, r);
                    assert(owns(env, links[i].page, below, r));
                }
            }
            assert(run_ok(other, links, below));
        },
    }
}

/// Runs read the same when their children do.
pub proof fn lemma_flat_all_kept(env: Env, other: Env, links: Seq<Link>, h: nat)
    requires
        forall|i: int|
            0 <= i < links.len() ==> flat(other, (#[trigger] links[i]).page, h) == flat(
                env,
                links[i].page,
                h,
            ),
    ensures
        flat_all(other, links, h) == flat_all(env, links, h),
    decreases links.len(),
{
    if links.len() > 0 {
        let front = links.drop_last();
        assert forall|i: int| 0 <= i < front.len() implies flat(other, (#[trigger] front[i]).page, h)
            == flat(env, front[i].page, h) by {
            assert(front[i] == links[i]);
        }
        lemma_flat_all_kept(env, other, front, h);
        assert(links[links.len() - 1] == links.last());
    }
}

} // verus!
