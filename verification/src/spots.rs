//! Which pages the parts of a packed tree are given: the chains of a leaf stand before the
//! leaf, each with its last page first, and the internal nodes stand behind all leaves, level
//! by level, so that the root comes last.
use crate::finish::{
    chunk_count, chunk_total, entry_chunks, leaf_chunks, lemma_owned_tree, page_demand, rank,
    slot_chunks, slot_entries, slot_filed,
};
use crate::graft::lemma_owns_root;
use crate::model::{is_tree, node_at, owns, run_ok, run_owns, subtree, Env, Pages};
use crate::node::{
    entries_of, internal_size, leaf_size, Entry, Link, MutableNode, Node, PageRef, StoredValue,
    PAGE_END,
};
use crate::tree::{arena, MutableTree};
use vstd::prelude::*;

verus! {

/// Number of pages that all slots of an arena need.
pub open spec fn stock(dirty: Seq<Option<Node>>) -> nat
    decreases dirty.len(),
{
    if dirty.len() == 0 {
        0
    } else {
        stock(dirty.drop_last()) + 1 + slot_chunks(dirty.last())
    }
}

/// The entries of the leaves of an arena, in the order of the slots.
pub open spec fn leaf_run(dirty: Seq<Option<Node>>) -> Seq<Entry>
    decreases dirty.len(),
{
    if dirty.len() == 0 {
        Seq::empty()
    } else {
        leaf_run(dirty.drop_last()) + slot_entries(dirty.last())
    }
}

/// The children of the node of a slot.
pub open spec fn slot_kids(slot: Option<Node>) -> Seq<PageRef> {
    match slot {
        Some(Node::Internal(links)) => links.map_values(|link: Link| link.page),
        _ => Seq::empty(),
    }
}

/// The children of the internal nodes of an arena, in the order of the slots.
pub open spec fn kids(dirty: Seq<Option<Node>>) -> Seq<PageRef>
    decreases dirty.len(),
{
    if dirty.len() == 0 {
        Seq::empty()
    } else {
        kids(dirty.drop_last()) + slot_kids(dirty.last())
    }
}

/// The first `n` slots of an arena.
pub open spec fn first_slots(n: int) -> Seq<PageRef> {
    Seq::new(n as nat, |i: int| PageRef::Dirty(i as usize))
}

/// Whether the leaves of an arena come before its internal nodes, and every child before its
/// parent.
pub open spec fn ordered_slots(dirty: Seq<Option<Node>>) -> bool {
    &&& forall|i: int| 0 <= i < dirty.len() ==> (#[trigger] dirty[i]) is Some
    &&& forall|i: int, j: int|
        0 <= i < j < dirty.len() && (#[trigger] dirty[i])->0 is Internal ==> (
        #[trigger] dirty[j])->0 is Internal
    &&& forall|p: int, i: int|
        0 <= p < dirty.len() && 0 <= i < slot_kids(dirty[p]).len()
            ==> ((#[trigger] slot_kids(dirty[p])[i]) matches PageRef::Dirty(x) && x < p)
}

/// How many levels lie below the node of a slot.
#[verifier::opaque]
pub open spec fn tier(dirty: Seq<Option<Node>>, p: int) -> nat
    decreases p,
{
    match dirty[p] {
        Some(Node::Internal(links)) => match links[0].page {
            PageRef::Dirty(x) => if x < p {
                1 + tier(dirty, x as int)
            } else {
                0
            },
            PageRef::Committed(_) => 0,
        },
        _ => 0,
    }
}

/// Whether the first entry or child of a node finds no room in the node before it.
pub open spec fn spills(node: Node, next: Node) -> bool {
    match (node, next) {
        (Node::Leaf(entries), Node::Leaf(more)) => more.len() > 0 && leaf_size(
            entries.push(more[0]),
        ) > PAGE_END,
        (Node::Internal(links), Node::Internal(more)) => more.len() > 0 && links.len() > 1
            && internal_size(links.push(more[0])) > PAGE_END,
        _ => false,
    }
}

/// Whether the node of a slot is as full as the order allows, given the next one on its level.
pub open spec fn full_at(dirty: Seq<Option<Node>>, p: int) -> bool {
    tier(dirty, p) == tier(dirty, p + 1) ==> spills(dirty[p]->0, dirty[p + 1]->0)
}

/// Whether the nodes of an arena are as full as the order allows, but for the last one of each
/// level.
#[verifier::opaque]
pub open spec fn filled(dirty: Seq<Option<Node>>) -> bool {
    forall|p: int| 0 <= p < dirty.len() - 1 ==> #[trigger] full_at(dirty, p)
}

/// The levels of nodes do not change when another is added.
proof fn lemma_tier_kept(dirty: Seq<Option<Node>>, node: Option<Node>, p: int)
    requires
        0 <= p < dirty.len(),
    ensures
        tier(dirty.push(node), p) == tier(dirty, p),
    decreases p,
{
    reveal(tier);
    if let Some(Node::Internal(links)) = dirty[p] {
        if let PageRef::Dirty(x) = links[0].page {
            if x < p {
                lemma_tier_kept(dirty, node, x as int);
            }
        }
    }
}

/// Nodes stay full when another is added that would not find room in the last one.
proof fn lemma_filled_push(dirty: Seq<Option<Node>>, node: Node)
    requires
        filled(dirty),
        dirty.len() > 0 && tier(dirty, dirty.len() - 1) == tier(
            dirty.push(Some(node)),
            dirty.len() as int,
        ) ==> spills(dirty.last()->0, node),
    ensures
        filled(dirty.push(Some(node))),
        forall|p: int|
            0 <= p < dirty.len() ==> #[trigger] tier(dirty.push(Some(node)), p) == tier(dirty, p),
{
    reveal(filled);
    let after = dirty.push(Some(node));
    assert forall|p: int| 0 <= p < dirty.len() implies #[trigger] tier(after, p) == tier(dirty, p) by {
        lemma_tier_kept(dirty, Some(node), p);
    }
    assert forall|p: int| 0 <= p < after.len() - 1 implies #[trigger] full_at(after, p) by {
        lemma_tier_kept(dirty, Some(node), p);
        if p < dirty.len() - 1 {
            lemma_tier_kept(dirty, Some(node), p + 1);
            assert(full_at(dirty, p));
        }
    }
}

/// Nothing is missing in an empty arena.
pub proof fn lemma_filled_none()
    ensures
        filled(Seq::empty()),
{
    reveal(filled);
}

/// Leaves are on the lowest level.
pub proof fn lemma_leaf_tier(dirty: Seq<Option<Node>>, p: int)
    requires
        dirty[p]->0 is Leaf,
    ensures
        tier(dirty, p) == 0,
{
    reveal(tier);
}

/// Whether an arena holds the entries in leaves, and above them internal nodes whose children
/// are all slots but the last in their order, so that the last slot is the root, with every node
/// as full as the order allows.
#[verifier::opaque]
pub open spec fn stacked(dirty: Seq<Option<Node>>, entries: Seq<Entry>) -> bool {
    &&& dirty.len() > 0
    &&& ordered_slots(dirty)
    &&& filled(dirty)
    &&& leaf_run(dirty) == entries
    &&& kids(dirty) == first_slots(dirty.len() - 1)
}

/// The leaves of a copy hold the entries in order, and no leaf but the last could have taken in
/// the first entry of the next one.
pub proof fn law_copied_leaves_are_full(dirty: Seq<Option<Node>>, entries: Seq<Entry>, p: int)
    requires
        stacked(dirty, entries),
        0 <= p < dirty.len() - 1,
        dirty[p] is Some && dirty[p]->0 is Leaf,
        dirty[p + 1] is Some && dirty[p + 1]->0 is Leaf,
    ensures
        dirty[p + 1]->0->Leaf_0.len() > 0,
        leaf_size(dirty[p]->0->Leaf_0.push(dirty[p + 1]->0->Leaf_0[0])) > PAGE_END,
        leaf_run(dirty) == entries,
{
    reveal(stacked);
    reveal(filled);
    reveal(tier);
    assert(full_at(dirty, p));
}

/// Whether links lead to the slots from `from` on.
pub open spec fn in_slots(links: Seq<Link>, from: int) -> bool {
    forall|i: int| 0 <= i < links.len() ==> (#[trigger] links[i]).page == PageRef::Dirty(
        (from + i) as usize,
    )
}

/// Whether an arena holds the entries, and the slots below `parented` are the children of its
/// internal nodes.
pub open spec fn rising(dirty: Seq<Option<Node>>, entries: Seq<Entry>, parented: int) -> bool {
    &&& ordered_slots(dirty)
    &&& filled(dirty)
    &&& leaf_run(dirty) == entries
    &&& kids(dirty) == first_slots(parented)
    &&& 0 <= parented <= dirty.len()
}

/// A leaf behind other leaves.
pub proof fn lemma_leaf_stacked(dirty: Seq<Option<Node>>, entries: Seq<Entry>, more: Seq<Entry>)
    requires
        rising(dirty, entries, 0),
        forall|i: int| 0 <= i < dirty.len() ==> (#[trigger] dirty[i])->0 is Leaf,
        dirty.len() > 0 ==> spills(dirty.last()->0, Node::Leaf(more)),
    ensures
        rising(dirty.push(Some(Node::Leaf(more))), entries + more, 0),
        forall|i: int|
            0 <= i <= dirty.len() ==> (#[trigger] dirty.push(Some(Node::Leaf(more)))[i])->0 is Leaf,
{
    let after = dirty.push(Some(Node::Leaf(more)));
    lemma_filled_push(dirty, Node::Leaf(more));
    assert(after.drop_last() =~= dirty);
    assert(kids(after) =~= first_slots(0));
    assert forall|p: int, i: int|
        0 <= p < after.len() && 0 <= i < slot_kids(after[p]).len() implies ((
    #[trigger] slot_kids(after[p])[i]) matches PageRef::Dirty(x) && x < p) by {
        assert(after[p]->0 is Leaf);
    }
}

/// An internal node over the next slots.
pub proof fn lemma_internal_stacked(
    dirty: Seq<Option<Node>>,
    entries: Seq<Entry>,
    parented: int,
    links: Seq<Link>,
)
    requires
        rising(dirty, entries, parented),
        in_slots(links, parented),
        parented + links.len() <= dirty.len() <= usize::MAX,
        links.len() > 0,
        tier(dirty, dirty.len() - 1) == 1 + tier(dirty, parented) ==> spills(
            dirty.last()->0,
            Node::Internal(links),
        ),
    ensures
        rising(dirty.push(Some(Node::Internal(links))), entries, parented + links.len()),
        forall|p: int|
            0 <= p < dirty.len() ==> #[trigger] tier(dirty.push(Some(Node::Internal(links))), p)
                == tier(dirty, p),
        tier(dirty.push(Some(Node::Internal(links))), dirty.len() as int) == 1 + tier(
            dirty,
            parented,
        ),
{
    let after = dirty.push(Some(Node::Internal(links)));
    assert(links[0].page == PageRef::Dirty(parented as usize));
    lemma_tier_kept(dirty, Some(Node::Internal(links)), parented);
    assert(tier(after, dirty.len() as int) == 1 + tier(dirty, parented)) by {
        reveal(tier);
    }
    lemma_filled_push(dirty, Node::Internal(links));
    assert(after.drop_last() =~= dirty);
    assert(leaf_run(after) =~= entries);
    assert(kids(after) =~= first_slots(parented + links.len())) by {
        assert(kids(after).len() == parented + links.len());
        assert forall|k: int| 0 <= k < kids(after).len() implies kids(after)[k] == first_slots(
            parented + links.len(),
        )[k] by {
            if k < parented {
                assert(first_slots(parented)[k] == PageRef::Dirty(k as usize));
            } else {
                assert(links[k - parented].page == PageRef::Dirty(k as usize));
            }
        }
    }
    assert forall|p: int, i: int|
        0 <= p < after.len() && 0 <= i < slot_kids(after[p]).len() implies ((
    #[trigger] slot_kids(after[p])[i]) matches PageRef::Dirty(x) && x < p) by {
        if p < dirty.len() {
            assert(after[p] == dirty[p]);
            assert(slot_kids(dirty[p])[i] == slot_kids(after[p])[i]);
        } else {
            assert(links[i].page == PageRef::Dirty((parented + i) as usize));
        }
    }
}

/// Pages in falling order, `n` of them from `at` on.
pub open spec fn falling(at: int, n: nat) -> Seq<u64> {
    Seq::new(n, |j: int| (at + n - 1 - j) as u64)
}

/// The pages of the chains of the first `n` entries of a leaf, when pages are given from
/// `at` on.
pub open spec fn leaf_spots(entries: Seq<Entry>, n: int, at: int) -> Seq<u64>
    decreases n,
{
    if n <= 0 {
        Seq::empty()
    } else {
        leaf_spots(entries, n - 1, at) + falling(
            at + leaf_chunks(entries, n - 1),
            entry_chunks(entries[n - 1]),
        )
    }
}

/// The pages of the nodes of an arena: each behind the chains of its values.
pub open spec fn node_spots(dirty: Seq<Option<Node>>, first: int) -> Seq<u64>
    decreases dirty.len(),
{
    if dirty.len() == 0 {
        Seq::empty()
    } else {
        node_spots(dirty.drop_last(), first).push((first + stock(dirty) - 1) as u64)
    }
}

/// The pages of the chains of an arena: those of a leaf behind the pages of the slots before
/// it.
pub open spec fn chain_spots(dirty: Seq<Option<Node>>, first: int) -> Seq<u64>
    decreases dirty.len(),
{
    if dirty.len() == 0 {
        Seq::empty()
    } else {
        let entries = slot_entries(dirty.last());
        chain_spots(dirty.drop_last(), first) + leaf_spots(
            entries,
            entries.len() as int,
            first + stock(dirty.drop_last()),
        )
    }
}

/// The pages of the nodes and then of the chains of an arena, from `first` on.
pub open spec fn spots(dirty: Seq<Option<Node>>, first: int) -> Seq<u64> {
    node_spots(dirty, first) + chain_spots(dirty, first)
}

/// Marks for all slots of an arena.
pub open spec fn all_slots(dirty: Seq<Option<Node>>) -> Seq<bool> {
    Seq::new(dirty.len(), |i: int| true)
}

/// Whether the pages from `first` up to `end` are those of an arena that holds the entries.
pub open spec fn streamed_by(
    dirty: Seq<Option<Node>>,
    map: Pages,
    first: u64,
    end: u64,
    entries: Seq<Entry>,
) -> bool {
    &&& stacked(dirty, entries)
    &&& end == first + stock(dirty)
    &&& forall|x: u64| #[trigger] map.contains_key(x) == (first <= x < end)
    &&& forall|slot: int|
        0 <= slot < dirty.len() ==> #[trigger] slot_filed(
            map,
            dirty,
            all_slots(dirty),
            spots(dirty, first as int),
            slot,
        )
}

/// Whether the pages hold the entries from `first` up to `end`, leaf by leaf, with the chains
/// of a leaf before it, and then the internal nodes level by level.
pub open spec fn streamed(pages: Pages, first: u64, end: u64, entries: Seq<Entry>) -> bool {
    exists|dirty: Seq<Option<Node>>, map: Pages| #[trigger]
        streamed_by(dirty, map, first, end, entries) && forall|x: u64| #[trigger]
            map.contains_key(x) ==> pages.contains_key(x) && pages[x] == map[x]
}

/// What is streamed stays so where the pages are kept.
pub proof fn lemma_streamed_kept(
    pages: Pages,
    other: Pages,
    first: u64,
    end: u64,
    entries: Seq<Entry>,
)
    requires
        streamed(pages, first, end, entries),
        forall|x: u64| #[trigger]
            pages.contains_key(x) && first <= x < end ==> other.contains_key(x) && other[x]
                == pages[x],
    ensures
        streamed(other, first, end, entries),
{
    let (dirty, map) = choose|dirty: Seq<Option<Node>>, map: Pages| #[trigger]
        streamed_by(dirty, map, first, end, entries) && forall|x: u64| #[trigger]
            map.contains_key(x) ==> pages.contains_key(x) && pages[x] == map[x];
    assert(streamed_by(dirty, map, first, end, entries));
    assert forall|x: u64| #[trigger] map.contains_key(x) implies other.contains_key(x) && other[x]
        == map[x] by {
        assert(pages.contains_key(x));
    }
}

/// The node that has a given child.
proof fn lemma_parent(dirty: Seq<Option<Node>>, k: int) -> (at: (int, int))
    requires
        0 <= k < kids(dirty).len(),
    ensures
        0 <= at.0 < dirty.len(),
        0 <= at.1 < slot_kids(dirty[at.0]).len(),
        slot_kids(dirty[at.0])[at.1] == kids(dirty)[k],
    decreases dirty.len(),
{
    let before = kids(dirty.drop_last());
    if k < before.len() {
        let at = lemma_parent(dirty.drop_last(), k);
        assert(dirty.drop_last()[at.0] == dirty[at.0]);
        at
    } else {
        (dirty.len() - 1, k - before.len())
    }
}

/// Every slot of a stacked arena belongs to the tree of the last one.
pub proof fn lemma_stacked_reached(env: Env, r: PageRef, h: nat, entries: Seq<Entry>, slot: usize)
    requires
        stacked(env.dirty, entries),
        r == PageRef::Dirty((env.dirty.len() - 1) as usize),
        env.dirty.len() <= usize::MAX,
        is_tree(env, r, h),
        slot < env.dirty.len(),
    ensures
        owns(env, r, h, PageRef::Dirty(slot)),
    decreases env.dirty.len() - slot,
{
    reveal(stacked);
    let dirty = env.dirty;
    if slot == dirty.len() - 1 {
        lemma_owns_root(env, r, h);
    } else {
        let q = PageRef::Dirty(slot);
        assert(first_slots(dirty.len() - 1)[slot as int] == q);
        let at = lemma_parent(dirty, slot as int);
        let p = at.0 as usize;
        let parent = PageRef::Dirty(p);
        assert(slot_kids(dirty[at.0])[at.1] == q);
        assert(slot < p);
        lemma_stacked_reached(env, r, h, entries, p);
        let below = lemma_owned_tree(env, r, h, p);
        let links = dirty[at.0]->0->Internal_0;
        assert(node_at(env, parent) == Some(Node::Internal(links)));
        assert(links[at.1].page == q);
        reveal(subtree);
        reveal(run_ok);
        let under = (below - 1) as nat;
        lemma_owns_root(env, links[at.1].page, under);
        assert(run_owns(env, links, under, q));
        assert(owns(env, parent, below, q)) by {
            reveal(owns);
        }
    }
}

/// With all slots marked, the demand is the stock.
pub proof fn lemma_all_slots(dirty: Seq<Option<Node>>, n: int)
    requires
        0 <= n <= dirty.len(),
    ensures
        rank(all_slots(dirty), n) == n,
        n + chunk_total(dirty, all_slots(dirty), n) == stock(dirty.take(n)),
        n == dirty.len() ==> page_demand(dirty, all_slots(dirty)) == stock(dirty),
    decreases n,
{
    if n > 0 {
        lemma_all_slots(dirty, n - 1);
        assert(dirty.take(n).drop_last() =~= dirty.take(n - 1));
        assert(dirty.take(n).last() == dirty[n - 1]);
    }
    if n == dirty.len() {
        assert(dirty.take(n) =~= dirty);
    }
}

/// The node of the last slot is given the last page.
pub proof fn lemma_last_spot(dirty: Seq<Option<Node>>, first: int)
    requires
        dirty.len() > 0,
    ensures
        spots(dirty, first)[dirty.len() - 1] == (first + stock(dirty) - 1) as u64,
{
    lemma_node_spots_len(dirty.drop_last(), first);
}

/// Every node is given a page.
proof fn lemma_node_spots_len(dirty: Seq<Option<Node>>, first: int)
    ensures
        node_spots(dirty, first).len() == dirty.len(),
    decreases dirty.len(),
{
    if dirty.len() > 0 {
        lemma_node_spots_len(dirty.drop_last(), first);
    }
}

/// A part of an arena needs no more pages.
pub proof fn lemma_stock_take(dirty: Seq<Option<Node>>, n: int)
    requires
        0 <= n <= dirty.len(),
    ensures
        stock(dirty.take(n)) <= stock(dirty),
    decreases dirty.len() - n,
{
    if n < dirty.len() {
        lemma_stock_take(dirty, n + 1);
        assert(dirty.take(n + 1).drop_last() =~= dirty.take(n));
    } else {
        assert(dirty.take(n) =~= dirty);
    }
}

/// What a list holds once a page is added.
proof fn lemma_push_contains(list: Seq<u64>, page: u64)
    ensures
        forall|x: u64| #[trigger]
            list.push(page).contains(x) == (list.contains(x) || x == page),
        list.no_duplicates() && !list.contains(page) ==> list.push(page).no_duplicates(),
{
    let more = list.push(page);
    assert forall|x: u64| #[trigger] more.contains(x) == (list.contains(x) || x == page) by {
        if list.contains(x) {
            let i = choose|i: int| 0 <= i < list.len() && list[i] == x;
            assert(more[i] == x);
        }
        if x == page {
            assert(more[list.len() as int] == x);
        }
        if more.contains(x) {
            let i = choose|i: int| 0 <= i < more.len() && more[i] == x;
            if i < list.len() {
                assert(list[i] == x);
            }
        }
    }
    if list.no_duplicates() && !list.contains(page) {
        assert forall|i: int, j: int| 0 <= i < j < more.len() implies more[i] != more[j] by {
            assert(list.contains(list[i]));
        }
    }
}

/// Whether two lists hold the pages from `first` up to `next` and from `low` up to `high`, and
/// no page twice.
spec fn tiles(nodes: Seq<u64>, chains: Seq<u64>, first: int, next: int, low: int, high: int) -> bool {
    &&& nodes.no_duplicates()
    &&& chains.no_duplicates()
    &&& forall|x: u64|
        #![trigger nodes.contains(x)]
        #![trigger chains.contains(x)]
        !(nodes.contains(x) && chains.contains(x)) && (nodes.contains(x) || chains.contains(x)) == (
        first <= x < next || low <= x < high)
}

/// Two lists without a page in common, one behind the other.
proof fn lemma_tiles_joined(nodes: Seq<u64>, chains: Seq<u64>, first: int, next: int)
    requires
        tiles(nodes, chains, first, next, next, next),
    ensures
        (nodes + chains).no_duplicates(),
        forall|x: u64| #[trigger] (nodes + chains).contains(x) == (first <= x < next),
{
    let all = nodes + chains;
    let n = nodes.len() as int;
    assert forall|x: u64| #[trigger] all.contains(x) == (nodes.contains(x) || chains.contains(x)) by {
        if nodes.contains(x) {
            let i = choose|i: int| 0 <= i < nodes.len() && nodes[i] == x;
            assert(all[i] == x);
        }
        if chains.contains(x) {
            let i = choose|i: int| 0 <= i < chains.len() && chains[i] == x;
            assert(all[n + i] == x);
        }
        if all.contains(x) {
            let i = choose|i: int| 0 <= i < all.len() && all[i] == x;
            if i < n {
                assert(nodes[i] == x);
            } else {
                assert(chains[i - n] == x);
            }
        }
    }
    assert forall|i: int, j: int| 0 <= i < j < all.len() implies all[i] != all[j] by {
        if i < n && j >= n {
            assert(nodes.contains(nodes[i]));
            assert(chains.contains(chains[j - n]));
        }
    }
}

/// Gives pages to the chain of a value, the last page first.
fn number_chain(
    chains: &mut Vec<u64>,
    at: u64,
    count: usize,
    Ghost(nodes): Ghost<Seq<u64>>,
    Ghost(first): Ghost<int>,
)
    requires
        tiles(nodes, old(chains)@, first, at as int, at as int, at as int),
        first <= at,
        at + count <= u64::MAX,
    ensures
        final(chains)@ == old(chains)@ + falling(at as int, count as nat),
        tiles(nodes, final(chains)@, first, at + count, at + count, at + count),
{
    let ghost before = chains@;
    let mut left: usize = count;
    assert(before + falling(at as int, count as nat).take(0) =~= before);
    while left > 0
        invariant
            left <= count,
            at + count <= u64::MAX,
            first <= at,
            chains@ == before + falling(at as int, count as nat).take(count - left),
            tiles(nodes, chains@, first, at as int, at + left, at + count),
        decreases left,
    {
        let ghost so_far = chains@;
        let page = at + (left - 1) as u64;
        proof {
            let pages = falling(at as int, count as nat);
            lemma_push_contains(so_far, page);
            assert(!so_far.contains(page));
            assert(!nodes.contains(page));
            assert(pages[count - left] == page);
            assert(before + pages.take(count - left + 1) =~= (before + pages.take(
                count - left,
            )).push(page));
        }
        chains.push(page);
        left = left - 1;
    }
    assert(falling(at as int, count as nat).take(count as int) =~= falling(
        at as int,
        count as nat,
    ));
}

/// Gives pages to the chains of a leaf.
fn number_leaf(
    entries: &Vec<crate::node::LeafEntry>,
    chains: &mut Vec<u64>,
    at: u64,
    Ghost(nodes): Ghost<Seq<u64>>,
    Ghost(first): Ghost<int>,
) -> (next: u64)
    requires
        tiles(nodes, old(chains)@, first, at as int, at as int, at as int),
        first <= at,
        crate::node::entries_fit(entries_of(entries@)),
        at + leaf_chunks(entries_of(entries@), entries@.len() as int) <= u64::MAX,
    ensures
        next == at + leaf_chunks(entries_of(entries@), entries@.len() as int),
        final(chains)@ == old(chains)@ + leaf_spots(
            entries_of(entries@),
            entries@.len() as int,
            at as int,
        ),
        tiles(nodes, final(chains)@, first, next as int, next as int, next as int),
{
    let ghost view = entries_of(entries@);
    let ghost before = chains@;
    let mut next = at;
    let mut index: usize = 0;
    assert(before + leaf_spots(view, 0, at as int) =~= before);
    while index < entries.len()
        invariant
            index <= entries@.len(),
            view == entries_of(entries@),
            first <= at <= next,
            crate::node::entries_fit(view),
            at + leaf_chunks(view, entries@.len() as int) <= u64::MAX,
            next == at + leaf_chunks(view, index as int),
            chains@ == before + leaf_spots(view, index as int, at as int),
            tiles(nodes, chains@, first, next as int, next as int, next as int),
        decreases entries@.len() - index,
    {
        proof {
            assert(view[index as int] == entries@[index as int]@);
            crate::finish::lemma_leaf_chunks(view, index + 1, entries@.len() as int);
        }
        let ghost so_far = chains@;
        match &entries[index].value {
            StoredValue::Pending(bytes) => {
                let count = chunk_count(bytes.len());
                number_chain(chains, next, count, Ghost(nodes), Ghost(first));
                proof {
                    assert(entry_chunks(view[index as int]) == count);
                    assert(chains@ =~= before + leaf_spots(view, index + 1, at as int));
                }
                next = next + count as u64;
            },
            _ => {
                proof {
                    assert(entry_chunks(view[index as int]) == 0);
                    assert(chains@ =~= before + leaf_spots(view, index + 1, at as int));
                }
            },
        }
        index = index + 1;
    }
    next
}

/// Gives pages from `first` on to the nodes and chains of an arena.
pub(crate) fn number_pages(tree: &MutableTree, first: u64) -> (pages: Vec<u64>)
    requires
        tree.inv(),
        forall|i: int| 0 <= i < tree.dirty@.len() ==> (#[trigger] arena(tree.dirty@)[i]) is Some,
        first + stock(arena(tree.dirty@)) <= u64::MAX,
    ensures
        pages@ == spots(arena(tree.dirty@), first as int),
        pages@.len() == stock(arena(tree.dirty@)),
        pages@.no_duplicates(),
        forall|x: u64| #[trigger]
            pages@.contains(x) == (first <= x < first + stock(arena(tree.dirty@))),
{
    let ghost dirty = arena(tree.dirty@);
    let mut nodes: Vec<u64> = Vec::new();
    let mut chains: Vec<u64> = Vec::new();
    let mut next = first;
    let mut slot: usize = 0;
    assert(dirty.take(0) =~= Seq::<Option<Node>>::empty());
    while slot < tree.dirty.len()
        invariant
            slot <= tree.dirty@.len(),
            dirty == arena(tree.dirty@),
            tree.inv(),
            forall|i: int| 0 <= i < tree.dirty@.len() ==> (#[trigger] dirty[i]) is Some,
            first + stock(dirty) <= u64::MAX,
            next == first + stock(dirty.take(slot as int)),
            nodes@ == node_spots(dirty.take(slot as int), first as int),
            chains@ == chain_spots(dirty.take(slot as int), first as int),
            nodes@.len() + chains@.len() == stock(dirty.take(slot as int)),
            tiles(nodes@, chains@, first as int, next as int, next as int, next as int),
        decreases tree.dirty@.len() - slot,
    {
        let ghost before = dirty.take(slot as int);
        let ghost after = dirty.take(slot + 1);
        proof {
            assert(after.drop_last() =~= before);
            assert(after.last() == dirty[slot as int]);
            lemma_stock_take(dirty, slot + 1);
            assert(dirty[slot as int] is Some);
        }
        if let Some(MutableNode::Leaf(entries)) = &tree.dirty[slot] {
            proof {
                assert(dirty[slot as int] == Some(Node::Leaf(entries_of(entries@))));
                assert(crate::tree::sturdy(dirty[slot as int]->0));
            }
            next = number_leaf(entries, &mut chains, next, Ghost(nodes@), Ghost(first as int));
            proof {
                lemma_leaf_spots_len(entries_of(entries@), entries@.len() as int, next as int);
                lemma_leaf_spots_len(
                    entries_of(entries@),
                    entries@.len() as int,
                    first + stock(before),
                );
            }
        } else {
            assert(dirty[slot as int]->0 is Internal);
        }
        proof {
            assert(chains@ =~= chain_spots(after, first as int));
            assert(next == first + stock(after) - 1);
            lemma_push_contains(nodes@, next);
            assert(!nodes@.contains(next) && !chains@.contains(next));
        }
        nodes.push(next);
        next = next + 1;
        slot = slot + 1;
    }
    proof {
        assert(tree.dirty@.len() == tree.dirty.len());
        assert(dirty.take(slot as int) =~= dirty);
        lemma_tiles_joined(nodes@, chains@, first as int, next as int);
    }
    nodes.append(&mut chains);
    nodes
}

/// Every overflow page of a leaf is given a page.
proof fn lemma_leaf_spots_len(entries: Seq<Entry>, n: int, at: int)
    requires
        0 <= n <= entries.len(),
    ensures
        leaf_spots(entries, n, at).len() == leaf_chunks(entries, n),
    decreases n,
{
    if n > 0 {
        lemma_leaf_spots_len(entries, n - 1, at);
    }
}

} // verus!
