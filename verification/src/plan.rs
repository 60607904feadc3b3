//! Deciding on every page that a commit writes: the pages of the changed nodes and large
//! values, and a new free tree.
use crate::branch::spreading;
use crate::collect::lemma_published_owns;
use crate::db::{lemma_aged_bounded, Database};
use crate::error::{corrupt, Result};
use crate::finish::{
    chain_sum, grantable, listed, page_demand, page_list, reached, written, FinishedTree,
};
use crate::format::{in_snapshot, META_PAGES};
use crate::free::{
    free_node, free_owns, lemma_layout_height, lemma_layout_size, lemma_record_map, level_sum,
    lists, record_map, records, BuiltFreeTree, Layout, Record, LEAF_CAPACITY,
};
use crate::io::{len, Storage};
use crate::model::{flat, is_tree, owns, published, rows_of, Pages};
use crate::node::PageRef;
use crate::keep::lemma_floor_below;
use crate::reader::MAX_DEPTH;
use crate::space::{
    aged_pages, allocate_segment, granted, lemma_granted_add, lemma_granted_none, lemma_segment,
    lemma_segment_exhausts, none_aged, segment,
};
use crate::store::listed_ids;
use crate::tree::MutableTree;
use std::collections::{BTreeMap, HashSet};
use vstd::prelude::*;

verus! {

// ---------------------------------------------------------------------------
// The pages of the changed tree
// ---------------------------------------------------------------------------

/// Whether the pages of a finished tree are those that were allocated, each once, and the
/// root and the pages left behind lie in their snapshots.
pub open spec fn in_place(
    finished: FinishedTree,
    allocations: Seq<u64>,
    page_count: u64,
    next_page: u64,
) -> bool {
    &&& in_snapshot(finished.root, next_page)
    &&& forall|k: int|
        0 <= k < finished.retired@.len() ==> in_snapshot(#[trigger] finished.retired@[k], page_count)
    &&& listed_ids(finished.pages@) == allocations.to_set()
    &&& forall|j: int, k: int|
        0 <= j < k < finished.pages@.len() ==> (#[trigger] finished.pages@[j]).0 != (
        #[trigger] finished.pages@[k]).0
}

/// The set of the pages of a list.
pub(crate) fn page_set(list: &Vec<u64>) -> (set: HashSet<u64>)
    ensures
        set@ == list@.to_set(),
{
    broadcast use vstd::std_specs::hash::group_hash_axioms;

    let mut set: HashSet<u64> = HashSet::new();
    let mut at: usize = 0;
    proof {
        assert(list@.take(0).to_set() =~= Set::<u64>::empty());
    }
    while at < list.len()
        invariant
            at <= list@.len(),
            set@ == list@.take(at as int).to_set(),
        decreases list@.len() - at,
    {
        broadcast use vstd::std_specs::hash::group_hash_axioms;

        let page = list[at];
        set.insert(page);
        proof {
            lemma_set_push(list@, at as int);
            assert(set@ =~= list@.take(at + 1).to_set());
        }
        at = at + 1;
    }
    assert(list@.take(at as int) =~= list@);
    set
}

/// Checks that a finished tree takes up exactly the pages that were allocated.
fn check_finished(
    finished: &FinishedTree,
    allocations: &Vec<u64>,
    page_count: u64,
    next_page: u64,
) -> (result: Result<()>)
    ensures
        result is Ok <==> in_place(*finished, allocations@, page_count, next_page),
        result matches Err(error) ==> error is Corrupt,
{
    broadcast use vstd::std_specs::hash::group_hash_axioms;

    if finished.root < META_PAGES || finished.root >= next_page {
        return Err(corrupt("tree root is outside the file"));
    }
    let mut index: usize = 0;
    while index < finished.retired.len()
        invariant
            index <= finished.retired@.len(),
            forall|k: int|
                0 <= k < index ==> in_snapshot(#[trigger] finished.retired@[k], page_count),
        decreases finished.retired@.len() - index,
    {
        let page = finished.retired[index];
        if page < META_PAGES || page >= page_count {
            assert(!in_snapshot(finished.retired@[index as int], page_count));
            return Err(corrupt("retired page is outside the file"));
        }
        index = index + 1;
    }
    let mut pool = page_set(allocations);
    let ghost all = allocations@.to_set();
    let ghost list = finished.pages@;
    let mut next: usize = 0;
    while next < finished.pages.len()
        invariant
            next <= finished.pages@.len(),
            list == finished.pages@,
            all == allocations@.to_set(),
            forall|j: int, k: int|
                0 <= j < k < next ==> (#[trigger] list[j]).0 != (#[trigger] list[k]).0,
            forall|k: int| 0 <= k < next ==> all.contains((#[trigger] list[k]).0),
            forall|id: u64| #[trigger]
                pool@.contains(id) == (all.contains(id) && forall|k: int|
                    0 <= k < next ==> (#[trigger] list[k]).0 != id),
        decreases finished.pages@.len() - next,
    {
        broadcast use vstd::std_specs::hash::group_hash_axioms;

        let id = finished.pages[next].0;
        let ghost before = pool@;
        if !pool.remove(&id) {
            proof {
                assert(list[next as int].0 == id);
                if listed_ids(list) == all {
                    assert(listed_ids(list).contains(id));
                    let k = choose|k: int| 0 <= k < next && (#[trigger] list[k]).0 == id;
                    assert(list[k].0 == list[next as int].0);
                }
            }
            return Err(corrupt("tree page was not allocated"));
        }
        proof {
            assert(list[next as int].0 == id);
            assert(before.contains(id));
        }
        next = next + 1;
    }
    proof {
        assert forall|id: u64| #[trigger] listed_ids(list).contains(id) implies all.contains(id) by {
            let k = choose|k: int| 0 <= k < list.len() && (#[trigger] list[k]).0 == id;
            assert(all.contains(list[k].0));
        }
    }
    if pool.len() != 0 {
        proof {
            assert(pool@.len() != 0);
            let id = pool@.choose();
            assert(pool@.contains(id)) by {
                if forall|x: u64| !pool@.contains(x) {
                    assert(pool@ =~= Set::<u64>::empty());
                }
            }
            if listed_ids(list) == all {
                assert(listed_ids(list).contains(id));
                let k = choose|k: int| 0 <= k < list.len() && (#[trigger] list[k]).0 == id;
                assert(list[k].0 == id);
            }
        }
        return Err(corrupt("allocated page was not used"));
    }
    proof {
        assert(pool@ =~= Set::<u64>::empty()) by {
            allocations@.lemma_cardinality_of_set();
            vstd::seq_lib::seq_to_set_is_finite(allocations@);
            assert(pool@.subset_of(all));
            vstd::set_lib::lemma_set_subset_finite(all, pool@);
            pool@.lemma_len0_is_empty();
        }
        assert forall|id: u64| #[trigger] all.contains(id) implies listed_ids(list).contains(id) by {
            assert(!pool@.contains(id));
            let k = choose|k: int| 0 <= k < list.len() && (#[trigger] list[k]).0 == id;
            assert(list[k].0 == id);
        }
        assert(listed_ids(list) =~= all);
    }
    Ok(())
}

/// The set of a list with one more element.
proof fn lemma_set_push(list: Seq<u64>, k: int)
    requires
        0 <= k < list.len(),
    ensures
        list.take(k + 1).to_set() == list.take(k).to_set().insert(list[k]),
{
    let shorter = list.take(k);
    let longer = list.take(k + 1);
    assert forall|p: u64| #[trigger] longer.to_set().contains(p) == shorter.to_set().insert(
        list[k],
    ).contains(p) by {
        if longer.contains(p) {
            let i = choose|i: int| 0 <= i < longer.len() && longer[i] == p;
            if i < k {
                assert(shorter[i] == p);
            }
        }
        if shorter.contains(p) {
            let i = choose|i: int| 0 <= i < shorter.len() && shorter[i] == p;
            assert(longer[i] == p);
        }
        if p == list[k] {
            assert(longer[k] == p);
        }
    }
    assert(longer.to_set() =~= shorter.to_set().insert(list[k]));
}

/// The entries with more pages, last used by a generation.
pub open spec fn with_pages(entries: Map<u64, u64>, pages: Seq<u64>, generation: u64) -> Map<u64, u64>
    decreases pages.len(),
{
    if pages.len() == 0 {
        entries
    } else {
        with_pages(entries, pages.drop_last(), generation).insert(pages.last(), generation)
    }
}

/// What is known of entries with more pages.
pub proof fn lemma_with_pages(entries: Map<u64, u64>, pages: Seq<u64>, generation: u64)
    requires
        entries.dom().finite(),
    ensures
        forall|p: u64| #[trigger]
            with_pages(entries, pages, generation).contains_key(p) == (entries.contains_key(p)
                || pages.contains(p)),
        forall|p: u64| #[trigger]
            with_pages(entries, pages, generation).contains_key(p) ==> with_pages(
                entries,
                pages,
                generation,
            )[p] == if pages.contains(p) {
                generation
            } else {
                entries[p]
            },
        with_pages(entries, pages, generation).dom().finite(),
        with_pages(entries, pages, generation).dom().len() <= entries.dom().len() + pages.len(),
    decreases pages.len(),
{
    if pages.len() > 0 {
        let rest = pages.drop_last();
        let last = pages.last();
        lemma_with_pages(entries, rest, generation);
        let before = with_pages(entries, rest, generation);
        let after = with_pages(entries, pages, generation);
        assert(after.dom() =~= before.dom().insert(last));
        assert forall|p: u64| #[trigger] pages.contains(p) == (rest.contains(p) || p == last) by {
            if pages.contains(p) {
                let i = choose|i: int| 0 <= i < pages.len() && pages[i] == p;
                if i < rest.len() {
                    assert(rest[i] == p);
                }
            }
            if rest.contains(p) {
                let i = choose|i: int| 0 <= i < rest.len() && rest[i] == p;
                assert(pages[i] == p);
            }
            if p == last {
                assert(pages[pages.len() - 1] == p);
            }
        }
    }
}

/// Records pages as free, last used by a generation.
fn add_pages(entries: &mut BTreeMap<u64, u64>, pages: &Vec<u64>, generation: u64)
    ensures
        final(entries)@ == with_pages(old(entries)@, pages@, generation),
{
    broadcast use vstd::std_specs::btree::group_btree_axioms;

    let mut index: usize = 0;
    assert(pages@.take(0) =~= Seq::<u64>::empty());
    while index < pages.len()
        invariant
            index <= pages@.len(),
            entries@ == with_pages(old(entries)@, pages@.take(index as int), generation),
        decreases pages@.len() - index,
    {
        broadcast use vstd::std_specs::btree::group_btree_axioms;

        let page = pages[index];
        entries.insert(page, generation);
        proof {
            assert(pages@.take(index + 1).drop_last() =~= pages@.take(index as int));
        }
        index = index + 1;
    }
    assert(pages@.take(index as int) =~= pages@);
}

/// Which slots belong to the tree of a transaction.
pub open spec fn live_slots(tree: MutableTree, pages: Pages) -> Seq<bool> {
    Seq::new(
        tree.env(pages).dirty.len(),
        |slot: int|
            owns(tree.env(pages), tree.root, tree.height@, PageRef::Dirty(slot as usize)),
    )
}

/// How many pages the changed nodes and values of a transaction need.
pub open spec fn user_demand(tree: MutableTree, pages: Pages) -> nat {
    page_demand(tree.env(pages).dirty, live_slots(tree, pages))
}

/// The slots of a tree are reached.
pub proof fn lemma_live_slots(tree: MutableTree, pages: Pages)
    requires
        tree.dirty@.len() <= usize::MAX,
    ensures
        reached(tree.env(pages), tree.root, tree.height@, live_slots(tree, pages)),
        forall|marks: Seq<bool>| #[trigger]
            reached(tree.env(pages), tree.root, tree.height@, marks) ==> marks == live_slots(
                tree,
                pages,
            ),
{
    let env = tree.env(pages);
    assert(env.dirty.len() == tree.dirty@.len());
    assert forall|marks: Seq<bool>| #[trigger]
        reached(env, tree.root, tree.height@, marks) implies marks == live_slots(tree, pages) by {
        assert forall|i: int| 0 <= i < marks.len() implies marks[i] == live_slots(tree, pages)[i] by {
            let slot = i as usize;
            assert(marks[slot as int] == owns(
                env,
                tree.root,
                tree.height@,
                PageRef::Dirty(slot),
            ));
        }
        assert(marks =~= live_slots(tree, pages));
    }
}

/// Whether the pages of a transaction do not include free pages.
pub open spec fn unshared(tree: MutableTree, pages: Pages, entries: Map<u64, u64>) -> bool {
    forall|x: u64| #[trigger]
        owns(tree.env(pages), tree.root, tree.height@, PageRef::Committed(x))
            ==> !entries.contains_key(x) && x < tree.page_count
}

/// Whether an overflow chain gets a segment behind the pages allocated so far.
pub open spec fn chain_drawn(
    before: Map<u64, u64>,
    after: Map<u64, u64>,
    floor: u64,
    count: nat,
    first: u64,
    next: u64,
    so_far: Seq<u64>,
    more: Seq<u64>,
    allocated: Seq<u64>,
) -> bool {
    segment(before, after, floor, count, first, next, more) && allocated == so_far + more
}

/// Whether the overflow chains get their pages one after the other, each a segment of its
/// own.
pub open spec fn chains_drawn(
    before: Map<u64, u64>,
    after: Map<u64, u64>,
    floor: u64,
    first: u64,
    next: u64,
    chains: Seq<usize>,
    allocated: Seq<u64>,
) -> bool
    decreases chains.len(),
{
    if chains.len() == 0 {
        after == before && next == first && allocated == Seq::<u64>::empty()
    } else {
        exists|middle: Map<u64, u64>, from: u64, so_far: Seq<u64>, more: Seq<u64>| #[trigger]
            chain_drawn(
                middle,
                after,
                floor,
                chains.last() as nat,
                from,
                next,
                so_far,
                more,
                allocated,
            ) && chains_drawn(before, middle, floor, first, from, chains.drop_last(), so_far)
    }
}

/// Chains take fresh pages only where no page is left that may be used again.
proof fn lemma_chains_exhaust(
    before: Map<u64, u64>,
    after: Map<u64, u64>,
    floor: u64,
    first: u64,
    next: u64,
    chains: Seq<usize>,
    allocated: Seq<u64>,
)
    requires
        chains_drawn(before, after, floor, first, next, chains, allocated),
    ensures
        first <= next,
        none_aged(before, floor) || next > first ==> none_aged(after, floor),
    decreases chains.len(),
{
    if chains.len() > 0 {
        let (middle, from, so_far, more) = choose|
            middle: Map<u64, u64>,
            from: u64,
            so_far: Seq<u64>,
            more: Seq<u64>,
        | #[trigger]
            chain_drawn(
                middle,
                after,
                floor,
                chains.last() as nat,
                from,
                next,
                so_far,
                more,
                allocated,
            ) && chains_drawn(before, middle, floor, first, from, chains.drop_last(), so_far);
        lemma_chains_exhaust(before, middle, floor, first, from, chains.drop_last(), so_far);
        lemma_segment_exhausts(middle, after, floor, chains.last() as nat, from, next, more);
    }
}

/// The pages of the user tree make the file grow only where no free page is left that may be
/// used again.
proof fn lemma_user_exhausts<I: Storage>(
    plan: CommitPlan,
    db: Database<I>,
    tree: MutableTree,
    floor: u64,
)
    requires
        plan.fits(db, tree, floor),
    ensures
        plan.user.next_page > db.meta().page_count ==> none_aged(plan.left(db.entries()), floor),
{
    let before = db.entries();
    let left = plan.left(before);
    let first = db.meta().page_count;
    let next = plan.user.next_page;
    let (chains, middle, from, values, nodes) = choose|
        chains: Seq<usize>,
        middle: Map<u64, u64>,
        from: u64,
        values: Seq<u64>,
        nodes: Seq<u64>,
    |
        #![trigger
            chains_drawn(before, middle, floor, first, from, chains, values),
            segment(middle, left, floor, nodes.len(), from, next, nodes)
        ]
        chains_drawn(before, middle, floor, first, from, chains, values) && segment(
            middle,
            left,
            floor,
            nodes.len(),
            from,
            next,
            nodes,
        ) && plan.user.allocations@ == nodes + values;
    lemma_chains_exhaust(before, middle, floor, first, from, chains, values);
    lemma_segment_exhausts(middle, left, floor, nodes.len(), from, next, nodes);
}

/// A plan makes the file grow only where no free page is left that may be used again.
pub proof fn lemma_plan_exhausts<I: Storage>(
    plan: CommitPlan,
    db: Database<I>,
    tree: MutableTree,
    floor: u64,
)
    requires
        db.inv(),
        plan.fits(db, tree, floor),
        floor <= db.meta().generation,
        plan.next_page > db.meta().page_count,
    ensures
        none_aged(plan.entries@, floor),
{
    let before = db.entries();
    let left = plan.left(before);
    let next = plan.user.next_page;
    lemma_user_exhausts(plan, db, tree, floor);
    let generation = db.meta().generation;
    let part = with_pages(left, plan.user.finished.retired@, generation);
    let full = plan.offered(before, generation);
    assert(left.dom() =~= before.dom().difference(plan.user.allocations@.to_set()));
    vstd::set_lib::lemma_set_subset_finite(before.dom(), left.dom());
    lemma_with_pages(left, plan.user.finished.retired@, generation);
    lemma_with_pages(part, plan.old_pages@, generation);
    if none_aged(left, floor) {
        assert(none_aged(part, floor)) by {
            assert forall|page: u64| #[trigger] part.contains_key(page) implies part[page] >= floor by {
                if !plan.user.finished.retired@.contains(page) {
                    assert(left.contains_key(page));
                }
            }
        }
        assert(none_aged(full, floor)) by {
            assert forall|page: u64| #[trigger] full.contains_key(page) implies full[page] >= floor by {
                if !plan.old_pages@.contains(page) {
                    assert(part.contains_key(page));
                }
            }
        }
    }
    lemma_segment_exhausts(
        full,
        plan.entries@,
        floor,
        plan.free_allocations@.len(),
        next,
        plan.next_page,
        plan.free_allocations@,
    );
}

/// One more chain.
proof fn lemma_chains_push(
    before: Map<u64, u64>,
    middle: Map<u64, u64>,
    after: Map<u64, u64>,
    floor: u64,
    first: u64,
    from: u64,
    next: u64,
    chains: Seq<usize>,
    chain: usize,
    so_far: Seq<u64>,
    more: Seq<u64>,
)
    requires
        chains_drawn(before, middle, floor, first, from, chains, so_far),
        segment(middle, after, floor, chain as nat, from, next, more),
    ensures
        chains_drawn(before, after, floor, first, next, chains.push(chain), so_far + more),
{
    let all = chains.push(chain);
    assert(all.drop_last() =~= chains);
    assert(chain_drawn(
        middle,
        after,
        floor,
        all.last() as nat,
        from,
        next,
        so_far,
        more,
        so_far + more,
    ));
}

/// Whether pages are allocated to some overflow chains first and then to the nodes, which
/// come first in the list.
pub open spec fn drawn(
    before: Map<u64, u64>,
    after: Map<u64, u64>,
    floor: u64,
    first: u64,
    next: u64,
    allocated: Seq<u64>,
) -> bool {
    exists|
        chains: Seq<usize>,
        middle: Map<u64, u64>,
        from: u64,
        values: Seq<u64>,
        nodes: Seq<u64>,
    |
        #![trigger
            chains_drawn(before, middle, floor, first, from, chains, values),
            segment(middle, after, floor, nodes.len(), from, next, nodes)
        ]
        chains_drawn(before, middle, floor, first, from, chains, values) && segment(
            middle,
            after,
            floor,
            nodes.len(),
            from,
            next,
            nodes,
        ) && allocated == nodes + values
}

/// Allocates the pages of all overflow chains.
fn allocate_chains(
    entries: &mut BTreeMap<u64, u64>,
    floor: u64,
    chains: &Vec<usize>,
    next_page: &mut u64,
) -> (result: Result<Vec<u64>>)
    requires
        forall|page: u64| #[trigger] old(entries)@.contains_key(page) ==> page < *old(next_page),
    ensures
        result matches Ok(allocated) ==> {
            &&& granted(
                old(entries)@,
                final(entries)@,
                floor,
                *old(next_page),
                *final(next_page),
                allocated@,
            )
            &&& chains_drawn(
                old(entries)@,
                final(entries)@,
                floor,
                *old(next_page),
                *final(next_page),
                chains@,
                allocated@,
            )
            &&& allocated@.len() == chain_sum(chains@)
            &&& *final(next_page) <= *old(next_page) + chain_sum(chains@)
        },
        result matches Err(error) ==> error is Corrupt && *old(next_page) + chain_sum(chains@)
            > u64::MAX,
{
    let ghost start = entries@;
    let ghost first = *next_page;
    let mut allocated: Vec<u64> = Vec::new();
    let mut index: usize = 0;
    proof {
        lemma_granted_none(start, floor, first);
        assert(allocated@ =~= Seq::<u64>::empty());
        assert(chains@.take(0) =~= Seq::<usize>::empty());
    }
    while index < chains.len()
        invariant
            index <= chains@.len(),
            start == old(entries)@,
            first == *old(next_page),
            forall|page: u64| #[trigger] start.contains_key(page) ==> page < first,
            granted(start, entries@, floor, first, *next_page, allocated@),
            chains_drawn(
                start,
                entries@,
                floor,
                first,
                *next_page,
                chains@.take(index as int),
                allocated@,
            ),
            allocated@.len() == chain_sum(chains@.take(index as int)),
            *next_page <= first + chain_sum(chains@.take(index as int)),
        decreases chains@.len() - index,
    {
        let ghost before = entries@;
        let ghost middle = *next_page;
        let ghost so_far = allocated@;
        proof {
            assert(chains@.take(index + 1).drop_last() =~= chains@.take(index as int));
            crate::finish::lemma_chain_sum_take(chains@, index + 1);
        }
        let mut more = match allocate_segment(entries, floor, chains[index], next_page) {
            Ok(more) => more,
            Err(error) => {
                return Err(error);
            },
        };
        proof {
            assert forall|page: u64| #[trigger] before.contains_key(page) implies page < middle by {
                assert(start.contains_key(page));
            }
            lemma_segment(
                before,
                entries@,
                floor,
                chains@[index as int] as nat,
                middle,
                *next_page,
                more@,
            );
            lemma_granted_add(
                start,
                before,
                entries@,
                floor,
                first,
                middle,
                *next_page,
                so_far,
                more@,
            );
        }
        let ghost added = more@;
        allocated.append(&mut more);
        proof {
            assert(allocated@ =~= so_far + added);
            lemma_chains_push(
                start,
                before,
                entries@,
                floor,
                first,
                middle,
                *next_page,
                chains@.take(index as int),
                chains@[index as int],
                so_far,
                added,
            );
            assert(chains@.take(index as int).push(chains@[index as int]) =~= chains@.take(
                index + 1,
            ));
        }
        index = index + 1;
    }
    assert(chains@.take(index as int) =~= chains@);
    Ok(allocated)
}

/// The pages that a transaction writes for its tree.
pub struct UserDraft {
    /// The tree on its pages.
    pub finished: FinishedTree,
    /// The allocated pages.
    pub allocations: Vec<u64>,
    /// The first page behind the file.
    pub next_page: u64,
}

/// Whether the pages of a draft hold the tree of a transaction.
pub open spec fn drafted_tree(draft: UserDraft, tree: MutableTree, pages: Pages) -> bool {
    let list = page_list(draft.finished.pages@);
    let other = published(written(pages, list), draft.next_page);
    let s = PageRef::Committed(draft.finished.root);
    &&& is_tree(other, s, tree.height@)
    &&& rows_of(other, flat(other, s, tree.height@)) == rows_of(
        tree.env(pages),
        tree.entries(pages),
    )
    &&& forall|x: u64| #[trigger]
        owns(other, s, tree.height@, PageRef::Committed(x)) == (owns(
            tree.env(pages),
            tree.root,
            tree.height@,
            PageRef::Committed(x),
        ) || draft.allocations@.contains(x))
    &&& tree.branches(pages) ==> spreading(other, s, tree.height@)
}

/// Decides where the changed nodes and values of a transaction go.
fn draft_tree(
    tree: &MutableTree,
    entries: &mut BTreeMap<u64, u64>,
    floor: u64,
    Ghost(pages): Ghost<Pages>,
) -> (result: Result<UserDraft>)
    requires
        tree.inv(),
        forall|page: u64| #[trigger] old(entries)@.contains_key(page) ==> META_PAGES <= page
            < tree.page_count,
        tree.page_count >= META_PAGES,
    ensures
        result matches Ok(draft) ==> {
            &&& granted(
                old(entries)@,
                final(entries)@,
                floor,
                tree.page_count,
                draft.next_page,
                draft.allocations@,
            )
            &&& drawn(
                old(entries)@,
                final(entries)@,
                floor,
                tree.page_count,
                draft.next_page,
                draft.allocations@,
            )
            &&& in_place(draft.finished, draft.allocations@, tree.page_count, draft.next_page)
            &&& draft.finished.retired@.no_duplicates()
            &&& draft.finished.retired@.to_set() == tree.retired@
            &&& tree.sound(pages) && unshared(*tree, pages, old(entries)@) ==> {
                &&& drafted_tree(draft, *tree, pages)
                &&& draft.allocations@.len() == user_demand(*tree, pages)
                &&& draft.next_page <= tree.page_count + user_demand(*tree, pages)
            }
        },
        result matches Err(error) ==> error is Corrupt && !(tree.sound(pages) && unshared(
            *tree,
            pages,
            old(entries)@,
        ) && tree.height@ < MAX_DEPTH && tree.fits(pages) && tree.page_count + user_demand(
            *tree,
            pages,
        ) <= u64::MAX && user_demand(*tree, pages) <= usize::MAX && base_readable(*tree)),
{
    let ghost env = tree.env(pages);
    let ghost h = tree.height@;
    let ghost start = entries@;
    let ghost good = tree.sound(pages) && unshared(*tree, pages, start);
    let ghost demand = user_demand(*tree, pages);
    proof {
        assert(tree.dirty@.len() == tree.dirty.len());
        lemma_live_slots(*tree, pages);
        assert(reached(env, tree.root, h, live_slots(*tree, pages)));
    }
    let plan = tree.allocation_plan(Ghost(pages))?;
    assert(good ==> plan.demand() == demand);
    let total = plan.total_pages()?;
    let mut next_page = tree.page_count;
    let mut overflow = match allocate_chains(entries, floor, &plan.overflow_chains, &mut next_page) {
        Ok(overflow) => overflow,
        Err(error) => {
            return Err(error);
        },
    };
    let ghost middle = next_page;
    let ghost between = entries@;
    let mut allocations = match allocate_segment(
        entries,
        floor,
        plan.tree_pages,
        &mut next_page,
    ) {
        Ok(allocations) => allocations,
        Err(error) => {
            return Err(error);
        },
    };
    proof {
        assert forall|page: u64| #[trigger] between.contains_key(page) implies page < middle by {
            assert(start.contains_key(page));
        }
        lemma_segment(
            between,
            entries@,
            floor,
            plan.tree_pages as nat,
            middle,
            next_page,
            allocations@,
        );
        lemma_granted_add(
            start,
            between,
            entries@,
            floor,
            tree.page_count,
            middle,
            next_page,
            overflow@,
            allocations@,
        );
    }
    let ghost first_part = allocations@;
    let ghost second_part = overflow@;
    allocations.append(&mut overflow);
    proof {
        assert(allocations@ =~= first_part + second_part);
        assert(segment(
            between,
            entries@,
            floor,
            first_part.len(),
            middle,
            next_page,
            first_part,
        ));
        assert(drawn(start, entries@, floor, tree.page_count, next_page, allocations@));
        assert(allocations@.len() == plan.demand());
    }
    let ghost alloc = allocations@;
    proof {
        if good {
            lemma_allocations_grantable(*tree, pages, start, entries@, floor, next_page, alloc);
            assert forall|marks: Seq<bool>| #[trigger] reached(env, tree.root, h, marks) implies
                alloc.len() == page_demand(env.dirty, marks) by {
                assert(marks == live_slots(*tree, pages));
            }
        }
    }
    let finished = match tree.finish(&allocations, next_page, Ghost(pages)) {
        Ok(finished) => finished,
        Err(error) => {
            return Err(error);
        },
    };
    proof {
        if good && base_readable(*tree) {
            lemma_finished_in_place(*tree, pages, finished, alloc, next_page);
        }
    }
    match check_finished(&finished, &allocations, tree.page_count, next_page) {
        Ok(()) => {},
        Err(error) => {
            return Err(error);
        },
    }
    Ok(UserDraft { finished, allocations, next_page })
}

/// Whether the pages that a transaction started from lie in its snapshot.
pub open spec fn base_readable(tree: MutableTree) -> bool {
    forall|p: u64| #[trigger] tree.base@.contains(p) ==> in_snapshot(p, tree.page_count)
}

/// Allocated pages can be given to the tree of a transaction.
proof fn lemma_allocations_grantable(
    tree: MutableTree,
    pages: Pages,
    before: Map<u64, u64>,
    after: Map<u64, u64>,
    floor: u64,
    next_page: u64,
    alloc: Seq<u64>,
)
    requires
        unshared(tree, pages, before),
        granted(before, after, floor, tree.page_count, next_page, alloc),
        forall|page: u64| #[trigger] before.contains_key(page) ==> META_PAGES <= page
            < tree.page_count,
        tree.page_count >= META_PAGES,
    ensures
        grantable(tree.env(pages), tree.root, tree.height@, alloc, next_page),
{
    assert forall|page: u64| #[trigger] before.contains_key(page) implies page < tree.page_count by {}
    assert forall|k: int| 0 <= k < alloc.len() implies in_snapshot(#[trigger] alloc[k], next_page)
        && !owns(
        tree.env(pages),
        tree.root,
        tree.height@,
        PageRef::Committed(alloc[k]),
    ) by {
        if before.contains_key(alloc[k]) {
        } else {
            assert(tree.page_count <= alloc[k] < next_page);
        }
    }
}

/// The pages of a finished tree are in place.
proof fn lemma_finished_in_place(
    tree: MutableTree,
    pages: Pages,
    finished: FinishedTree,
    alloc: Seq<u64>,
    next_page: u64,
)
    requires
        tree.sound(pages),
        base_readable(tree),
        finished.retired@.to_set() == tree.retired@,
        exists|map: Pages| #[trigger]
            listed(page_list(finished.pages@), map) && map.dom() == alloc.to_set(),
        is_tree(
            published(written(pages, page_list(finished.pages@)), next_page),
            PageRef::Committed(finished.root),
            tree.height@,
        ),
    ensures
        in_place(finished, alloc, tree.page_count, next_page),
{
    let list = finished.pages@;
    let items = page_list(list);
    let map = choose|map: Pages| #[trigger] listed(items, map) && map.dom() == alloc.to_set();
    let env = published(written(pages, items), next_page);
    let r = PageRef::Committed(finished.root);
    crate::graft::lemma_owns_root(env, r, tree.height@);
    lemma_published_owns(written(pages, items), next_page, finished.root, tree.height@, r);
    assert forall|k: int| 0 <= k < finished.retired@.len() implies in_snapshot(
        #[trigger] finished.retired@[k],
        tree.page_count,
    ) by {
        let p = finished.retired@[k];
        assert(finished.retired@.to_set().contains(p));
        assert(tree.base@.contains(p));
    }
    assert forall|id: u64| #[trigger] listed_ids(list).contains(id) == alloc.to_set().contains(id) by {
        if listed_ids(list).contains(id) {
            let k = choose|k: int| 0 <= k < list.len() && (#[trigger] list[k]).0 == id;
            assert(items[k].0 == id);
            assert(map.contains_key(items[k].0));
        }
        if alloc.to_set().contains(id) {
            assert(map.contains_key(id));
            let k = choose|k: int| 0 <= k < items.len() && (#[trigger] items[k]).0 == id;
            assert(list[k].0 == id);
        }
    }
    assert(listed_ids(list) =~= alloc.to_set());
    assert forall|j: int, k: int| 0 <= j < k < list.len() implies (#[trigger] list[j]).0 != (
    #[trigger] list[k]).0 by {
        assert(items[j].0 != items[k].0);
    }
}

// ---------------------------------------------------------------------------
// The pages of the free tree
// ---------------------------------------------------------------------------

/// Whether the pages of a built free tree hold exactly the entries, on the given pages.
pub open spec fn built_on(
    built: BuiltFreeTree,
    map: Pages,
    h: nat,
    entries: Map<u64, u64>,
    allocations: Seq<u64>,
) -> bool {
    &&& h < MAX_DEPTH
    &&& listed(page_list(built.pages@), map)
    &&& free_node(map, built.root, h)
    &&& record_map(records(map, built.root, h)) == entries
    &&& forall|p: u64| #[trigger] free_owns(map, built.root, h, p) == allocations.contains(p)
    &&& forall|p: u64| #[trigger] map.contains_key(p) == allocations.contains(p)
}

/// Whether a built free tree holds exactly the entries, on the given pages.
pub open spec fn built_for(built: BuiltFreeTree, entries: Map<u64, u64>, allocations: Seq<u64>) -> bool {
    exists|map: Pages, h: nat| #[trigger] built_on(built, map, h, entries, allocations)
}

/// The most pages that a free tree with so many records takes up.
pub open spec fn free_demand(count: nat) -> nat {
    3 * (count / LEAF_CAPACITY as nat + 1)
}

/// A free tree that has room for all records holds them all.
proof fn lemma_built_for(
    built: BuiltFreeTree,
    layout: Layout,
    entries: Map<u64, u64>,
    allocations: Seq<u64>,
)
    requires
        layout.inv(),
        built.stores(
            (layout.levels().len() - 1) as nat,
            entries,
            LEAF_CAPACITY * layout.levels()[0],
            allocations,
        ),
        entries.dom().len() <= LEAF_CAPACITY * layout.levels()[0],
    ensures
        built_for(built, entries, allocations),
{
    let h = (layout.levels().len() - 1) as nat;
    let capacity = LEAF_CAPACITY * layout.levels()[0];
    let map = choose|map: Pages| #[trigger] built.stands(map, h, entries, capacity, allocations);
    let own = records(map, built.root, h);
    let all = choose|all: Seq<Record>| #[trigger]
        lists(all, entries) && own == all.take(
            if all.len() <= capacity {
                all.len() as int
            } else {
                capacity
            },
        );
    lemma_record_map(all);
    assert(own =~= all);
    lemma_layout_height(layout);
    assert(built_on(built, map, h, entries, allocations));
}

/// The numbers of a layout for some entries.
proof fn lemma_layout_room(layout: Layout, count: int)
    requires
        layout.inv(),
        count >= 0,
        layout.levels()[0] == if count == 0 {
            1
        } else {
            crate::free::ceil(count, LEAF_CAPACITY as int)
        },
    ensures
        level_sum(layout.levels()) <= free_demand(count as nat),
        count <= LEAF_CAPACITY * layout.levels()[0],
        level_sum(layout.levels()) >= 1,
        layout.levels()[0] == 1 || count - level_sum(layout.levels()) >= layout.levels()[0],
{
    lemma_layout_size(layout);
    let leaves = layout.levels()[0] as int;
    assert(leaves == if count == 0 {
        1
    } else {
        (count + 252) / 253
    });
    assert(leaves <= count / 253 + 1);
    assert(count <= 253 * leaves);
    if leaves != 1 {
        assert(count >= 253 * (leaves - 1) + 1);
    }
    let levels = layout.levels();
    assert(level_sum(levels) == level_sum(levels.drop_last()) + levels.last());
}

/// Decides where the free tree goes, with the pages that a commit leaves behind.
fn draft_free(
    entries: &mut BTreeMap<u64, u64>,
    floor: u64,
    retired: &Vec<u64>,
    old_pages: &Vec<u64>,
    generation: u64,
    next_page: &mut u64,
) -> (result: Result<(BuiltFreeTree, Vec<u64>)>)
    requires
        old(entries)@.dom().finite(),
        forall|page: u64| #[trigger] old(entries)@.contains_key(page) ==> page < *old(next_page),
        forall|k: int| 0 <= k < retired@.len() ==> #[trigger] retired@[k] < *old(next_page),
        forall|k: int| 0 <= k < old_pages@.len() ==> #[trigger] old_pages@[k] < *old(next_page),
    ensures
        result matches Ok(drafted) ==> {
            &&& granted(
                with_pages(
                    with_pages(old(entries)@, retired@, generation),
                    old_pages@,
                    generation,
                ),
                final(entries)@,
                floor,
                *old(next_page),
                *final(next_page),
                drafted.1@,
            )
            &&& segment(
                with_pages(
                    with_pages(old(entries)@, retired@, generation),
                    old_pages@,
                    generation,
                ),
                final(entries)@,
                floor,
                drafted.1@.len(),
                *old(next_page),
                *final(next_page),
                drafted.1@,
            )
            &&& exists|layout: Layout| #[trigger]
                layout.smallest(
                    with_pages(
                        with_pages(old(entries)@, retired@, generation),
                        old_pages@,
                        generation,
                    ).dom().len(),
                ) && drafted.1@.len() == level_sum(layout.levels())
            &&& built_for(drafted.0, final(entries)@, drafted.1@)
            &&& drafted.0.root == drafted.1@.last()
            &&& drafted.1@.len() >= 1
            &&& *final(next_page) <= *old(next_page) + free_demand(
                old(entries)@.dom().len() + retired@.len() + old_pages@.len(),
            )
        },
        result matches Err(error) ==> error is Corrupt && *old(next_page) + free_demand(
            old(entries)@.dom().len() + retired@.len() + old_pages@.len(),
        ) > u64::MAX,
{
    broadcast use vstd::std_specs::btree::group_btree_axioms;

    let ghost start = entries@;
    let ghost first = *next_page;
    let ghost part = with_pages(start, retired@, generation);
    let ghost full = with_pages(part, old_pages@, generation);
    let ghost most = start.dom().len() + retired@.len() + old_pages@.len();
    add_pages(entries, retired, generation);
    add_pages(entries, old_pages, generation);
    proof {
        lemma_with_pages(start, retired@, generation);
        lemma_with_pages(part, old_pages@, generation);
        assert forall|page: u64| #[trigger] full.contains_key(page) implies page < first by {
            if old_pages@.contains(page) {
                let k = choose|k: int| 0 <= k < old_pages@.len() && old_pages@[k] == page;
            } else if retired@.contains(page) {
                let k = choose|k: int| 0 <= k < retired@.len() && retired@[k] == page;
            }
        }
        assert(full.dom().len() <= most);
        assert(free_demand(full.dom().len()) <= free_demand(most));
    }
    let count = entries.len();
    assert(count == full.dom().len());
    let layout = Layout::for_entries(count);
    proof {
        lemma_layout_room(layout, count as int);
    }
    let needed = layout.page_count();
    let allocations = match allocate_segment(entries, floor, needed, next_page) {
        Ok(allocations) => allocations,
        Err(error) => {
            return Err(error);
        },
    };
    proof {
        lemma_segment(full, entries@, floor, needed as nat, first, *next_page, allocations@);
        let gone = allocations@.to_set();
        allocations@.lemma_cardinality_of_set();
        vstd::seq_lib::seq_to_set_is_finite(allocations@);
        assert(entries@.dom() =~= full.dom().difference(gone));
        vstd::set_lib::lemma_len_difference(full.dom(), gone);
        lemma_left_over(full.dom(), gone);
        assert(entries@.dom().len() + needed >= count);
        assert(entries@.dom().len() <= count);
    }
    let built = match crate::free::build(entries, &layout, &allocations) {
        Ok(built) => built,
        Err(error) => {
            assert(false);
            return Err(error);
        },
    };
    proof {
        lemma_built_for(built, layout, entries@, allocations@);
    }
    Ok((built, allocations))
}

/// Taking some members out of a set leaves the others.
proof fn lemma_left_over(set: Set<u64>, gone: Set<u64>)
    requires
        set.finite(),
        gone.finite(),
    ensures
        set.difference(gone).len() + gone.len() >= set.len(),
{
    let rest = set.difference(gone);
    vstd::set_lib::lemma_set_subset_finite(set, rest);
    vstd::set_lib::lemma_set_union_finite_iff(rest, gone);
    vstd::set_lib::lemma_len_union(rest, gone);
    vstd::set_lib::lemma_len_subset(set, rest.union(gone));
}

// ---------------------------------------------------------------------------
// The plan of a commit
// ---------------------------------------------------------------------------

/// Every page that a commit writes, and the free tree that it leaves.
pub struct CommitPlan {
    /// The pages of the user tree.
    pub user: UserDraft,
    /// Whether anything changed.
    pub changed: bool,
    /// The free tree, without pages if nothing changed.
    pub built: BuiltFreeTree,
    /// The pages of the free tree.
    pub free_allocations: Vec<u64>,
    /// The pages of the free tree before.
    pub old_pages: Vec<u64>,
    /// The free pages and the last generations that used them.
    pub entries: BTreeMap<u64, u64>,
    /// The first page behind the file.
    pub next_page: u64,
}

/// How many pages a file grows by when it takes pages of which some are free.
pub open spec fn growth(taken: nat, reusable: u64) -> nat {
    if taken > reusable {
        (taken - reusable) as nat
    } else {
        0
    }
}

impl CommitPlan {
    /// How many pages the plan takes: those of the user tree and, if anything changed, those of
    /// the free tree.
    pub open spec fn taken(&self) -> nat {
        self.user.allocations@.len() + if self.changed {
            self.free_allocations@.len()
        } else {
            0
        }
    }

    /// The entries that allocating pages for the user tree leaves.
    pub open spec fn left(&self, before: Map<u64, u64>) -> Map<u64, u64> {
        before.remove_keys(self.user.allocations@.to_set())
    }

    /// The entries with the pages that the commit leaves behind.
    pub open spec fn offered(&self, before: Map<u64, u64>, generation: u64) -> Map<u64, u64> {
        with_pages(
            with_pages(self.left(before), self.user.finished.retired@, generation),
            self.old_pages@,
            generation,
        )
    }

    /// Whether the plan is one for a database and a transaction.
    pub open spec fn fits<I: Storage>(&self, db: Database<I>, tree: MutableTree, floor: u64) -> bool {
        let meta = db.meta();
        let user = self.user;
        &&& granted(
            db.entries(),
            self.left(db.entries()),
            floor,
            meta.page_count,
            user.next_page,
            user.allocations@,
        )
        &&& drawn(
            db.entries(),
            self.left(db.entries()),
            floor,
            meta.page_count,
            user.next_page,
            user.allocations@,
        )
        &&& in_place(user.finished, user.allocations@, meta.page_count, user.next_page)
        &&& user.finished.retired@.no_duplicates()
        &&& user.finished.retired@.to_set() == tree.retired@
        &&& self.old_pages@.no_duplicates()
        &&& self.old_pages@.to_set() == db.free.pages@
        &&& self.old_pages@.len() == db.free.pages@.len()
        &&& self.changed == (user.allocations@.len() > 0 || user.finished.retired@.len() > 0)
        &&& self.changed ==> {
            &&& granted(
                self.offered(db.entries(), meta.generation),
                self.entries@,
                floor,
                user.next_page,
                self.next_page,
                self.free_allocations@,
            )
            &&& segment(
                self.offered(db.entries(), meta.generation),
                self.entries@,
                floor,
                self.free_allocations@.len(),
                user.next_page,
                self.next_page,
                self.free_allocations@,
            )
            &&& exists|layout: Layout| #[trigger]
                layout.smallest(self.offered(db.entries(), meta.generation).dom().len())
                    && self.free_allocations@.len() == level_sum(layout.levels())
            &&& built_for(self.built, self.entries@, self.free_allocations@)
            &&& self.built.root == self.free_allocations@.last()
            &&& self.free_allocations@.len() >= 1
        }
        &&& !self.changed ==> {
            &&& self.entries@ == db.entries()
            &&& self.next_page == meta.page_count
            &&& self.built.root == meta.free_root
            &&& self.built.pages@.len() == 0
            &&& self.free_allocations@ == self.old_pages@
        }
    }
}

/// How many pages a commit needs at most.
pub open spec fn commit_demand<I: Storage>(db: Database<I>, tree: MutableTree, pages: Pages) -> nat {
    user_demand(tree, pages) + free_demand(
        db.entries().dom().len() + tree.retired@.len() + db.free.pages@.len(),
    )
}

/// A page list with no page.
proof fn lemma_no_pages(finished: FinishedTree, allocations: Seq<u64>, page_count: u64, next_page: u64)
    requires
        in_place(finished, allocations, page_count, next_page),
    ensures
        finished.pages@.len() == 0 <==> allocations.len() == 0,
{
    if finished.pages@.len() > 0 {
        assert(listed_ids(finished.pages@).contains(finished.pages@[0].0));
        assert(allocations.contains(finished.pages@[0].0));
    }
    if allocations.len() > 0 {
        assert(allocations.contains(allocations[0]));
        assert(allocations.to_set().contains(allocations[0]));
        assert(listed_ids(finished.pages@).contains(allocations[0]));
    }
}

/// Decides on every page that a commit writes.
pub(crate) fn plan_commit<I: Storage>(db: &Database<I>, tree: &MutableTree, floor: u64) -> (result: Result<
    CommitPlan,
>)
    requires
        db.inv(),
        tree.inv(),
        tree.page_count == db.meta().page_count,
    ensures
        result matches Ok(plan) ==> plan.fits(*db, *tree, floor),
        result matches Ok(plan) ==> tree.sound(db.pages()) && unshared(
            *tree,
            db.pages(),
            db.entries(),
        ) ==> {
            &&& drafted_tree(plan.user, *tree, db.pages())
            &&& plan.user.allocations@.len() == user_demand(*tree, db.pages())
            &&& plan.next_page <= db.meta().page_count + commit_demand(*db, *tree, db.pages())
        },
        result matches Err(error) ==> error is Corrupt && !(tree.sound(db.pages()) && unshared(
            *tree,
            db.pages(),
            db.entries(),
        ) && tree.height@ < MAX_DEPTH && tree.fits(db.pages()) && db.meta().page_count
            + commit_demand(*db, *tree, db.pages()) <= u64::MAX && user_demand(*tree, db.pages())
            <= usize::MAX && base_readable(*tree)),
{
    broadcast use vstd::std_specs::btree::group_btree_axioms;

    let ghost pages = db.pages();
    let ghost before = db.entries();
    let ghost good = tree.sound(pages) && unshared(*tree, pages, before);
    let meta = db.publication.current.meta;
    let mut entries = db.free.entries.clone();
    assert(entries@ == before);
    let old_pages = crate::finish::list_pages(&db.free.pages);
    let user = match draft_tree(tree, &mut entries, floor, Ghost(pages)) {
        Ok(user) => user,
        Err(error) => {
            return Err(error);
        },
    };
    let ghost left = entries@;
    proof {
        assert(left =~= before.remove_keys(user.allocations@.to_set()));
        lemma_no_pages(user.finished, user.allocations@, meta.page_count, user.next_page);
        assert(left.dom() =~= before.dom().difference(user.allocations@.to_set()));
        vstd::set_lib::lemma_set_subset_finite(before.dom(), left.dom());
        vstd::set_lib::lemma_len_subset(left.dom(), before.dom());
        user.finished.retired@.unique_seq_to_set();
        assert(user.finished.retired@.len() == tree.retired@.len());
    }
    let changed = user.finished.pages.len() > 0 || user.finished.retired.len() > 0;
    let mut next_page = user.next_page;
    if changed {
        proof {
            assert forall|k: int| 0 <= k < old_pages@.len() implies #[trigger] old_pages@[k]
                < next_page by {
                assert(old_pages@.to_set().contains(old_pages@[k]));
                assert(in_snapshot(old_pages@[k], meta.page_count));
            }
        }
        let drafted = draft_free(
            &mut entries,
            floor,
            &user.finished.retired,
            &old_pages,
            meta.generation,
            &mut next_page,
        );
        proof {
            let a = left.dom().len() + user.finished.retired@.len() + old_pages@.len();
            let b = before.dom().len() + tree.retired@.len() + db.free.pages@.len();
            assert(a <= b);
            assert(free_demand(a) <= free_demand(b));
        }
        match drafted {
            Ok((built, free_allocations)) => {
                let plan = CommitPlan {
                    user,
                    changed,
                    built,
                    free_allocations,
                    old_pages,
                    entries,
                    next_page,
                };
                proof {
                    assert(plan.left(before) == left);
                    let full = plan.offered(before, meta.generation);
                    let layout = choose|layout: Layout| #[trigger]
                        layout.smallest(full.dom().len()) && free_allocations@.len() == level_sum(
                            layout.levels(),
                        );
                    assert(layout.smallest(full.dom().len()));
                }
                Ok(plan)
            },
            Err(error) => Err(error),
        }
    } else {
        let built = BuiltFreeTree { root: meta.free_root, pages: Vec::new() };
        let free_allocations = copy_pages(&old_pages);
        proof {
            assert(user.allocations@ =~= Seq::<u64>::empty());
            assert(entries@ =~= before);
            if user.next_page > meta.page_count {
                assert(user.allocations@.contains(meta.page_count));
            }
        }
        Ok(CommitPlan { user, changed, built, free_allocations, old_pages, entries, next_page })
    }
}

/// Copies a list of pages.
fn copy_pages(list: &Vec<u64>) -> (copy: Vec<u64>)
    ensures
        copy@ == list@,
{
    let mut copy: Vec<u64> = Vec::new();
    let mut index: usize = 0;
    while index < list.len()
        invariant
            index <= list@.len(),
            copy@ == list@.take(index as int),
        decreases list@.len() - index,
    {
        copy.push(list[index]);
        assert(copy@ =~= list@.take(index + 1));
        index = index + 1;
    }
    assert(copy@ =~= list@);
    copy
}

/// What a plan leaves free, and what it writes.
pub open spec fn plan_facts<I: Storage>(plan: CommitPlan, db: Database<I>, floor: u64) -> bool {
    let count = db.meta().page_count;
    let after = plan.entries@;
    let alloc = plan.user.allocations@;
    let frees = plan.free_allocations@;
    &&& count <= plan.user.next_page <= plan.next_page
    &&& after.dom().finite()
    &&& alloc.no_duplicates()
    &&& frees.no_duplicates()
    &&& forall|p: u64| #[trigger]
        after.contains_key(p) ==> in_snapshot(p, count) && after[p] <= db.meta().generation
            && !frees.contains(p)
    &&& forall|p: u64| #[trigger]
        after.contains_key(p) && !plan.user.finished.retired@.contains(p) ==> !alloc.contains(p)
    &&& forall|p: u64| #[trigger]
        after.contains_key(p) ==> (db.entries().contains_key(p) && after[p] == db.entries()[p]) || (
        after[p] == db.meta().generation && (plan.user.finished.retired@.contains(p)
            || db.free.pages@.contains(p)))
    &&& forall|p: u64| #[trigger]
        alloc.contains(p) ==> db.spare(floor).contains(p) && in_snapshot(p, plan.user.next_page)
            && (db.entries().contains_key(p) || p >= count)
    &&& plan.changed ==> forall|p: u64| #[trigger]
        frees.contains(p) ==> db.spare(floor).contains(p) && in_snapshot(p, plan.next_page)
            && !alloc.contains(p) && (db.entries().contains_key(p) || p >= plan.user.next_page)
    &&& !plan.changed ==> forall|p: u64| #[trigger] frees.contains(p) == db.free.pages@.contains(p)
    &&& forall|p: u64| #[trigger]
        in_snapshot(p, plan.next_page) ==> (db.entries().contains_key(p) || db.free.pages@.contains(
            p,
        ) || plan.user.finished.retired@.contains(p) || p >= count) ==> alloc.contains(p)
            || frees.contains(p) || after.contains_key(p)
}

/// Taking pages of which each is free and may be used again, or is the next one behind the
/// file, makes the file grow by what the free ones do not cover.
proof fn lemma_taken(
    taken: Set<u64>,
    aged: Set<u64>,
    count: u64,
    next: u64,
    reusable: u64,
)
    requires
        count <= next,
        taken.finite(),
        aged.finite(),
        aged.len() == reusable,
        forall|p: u64| #[trigger] aged.contains(p) ==> p < count,
        forall|p: u64| #[trigger] taken.contains(p) ==> aged.contains(p) || count <= p < next,
        forall|p: u64| count <= p < next ==> #[trigger] taken.contains(p),
        next > count ==> aged.subset_of(taken),
    ensures
        next == count + growth(taken.len(), reusable),
        taken.intersect(aged).len() == if taken.len() < reusable {
            taken.len()
        } else {
            reusable as nat
        },
{
    let fresh_ones = Set::new(|p: u64| count <= p < next);
    let again = taken.intersect(aged);
    crate::open::lemma_range_len(fresh_ones, count, next);
    assert(taken =~= again.union(fresh_ones));
    assert(again.disjoint(fresh_ones));
    vstd::set_lib::lemma_set_disjoint_lens(again, fresh_ones);
    vstd::set_lib::lemma_len_subset(again, aged);
    if next > count {
        assert(again =~= aged);
    }
}

/// The pages of the user tree are taken out of those that may be used again, as far as they go.
pub proof fn lemma_user_left<I: Storage>(
    plan: CommitPlan,
    db: Database<I>,
    tree: MutableTree,
    floor: u64,
)
    requires
        db.inv(),
        db.floor(floor),
        plan.fits(db, tree, floor),
        plan_facts(plan, db, floor),
    ensures
        ({
            let taken = plan.user.allocations@.len();
            plan.left(db.entries()).dom().len() + (if taken < db.free.reusable_pages {
                taken
            } else {
                db.free.reusable_pages as nat
            }) == db.entries().dom().len()
        }),
        plan.left(db.entries()).dom().finite(),
{
    let count = db.meta().page_count;
    let next = plan.user.next_page;
    let before = db.entries();
    let left = plan.left(before);
    let aged = aged_pages(before, floor);
    let alloc = plan.user.allocations@;
    alloc.unique_seq_to_set();
    let taken = alloc.to_set();
    lemma_aged_bounded(before, floor);
    lemma_user_exhausts(plan, db, tree, floor);
    assert forall|p: u64| #[trigger] aged.contains(p) implies p < count by {
        assert(in_snapshot(p, count));
    }
    assert forall|p: u64| #[trigger] taken.contains(p) implies aged.contains(p) || count <= p < next by {
        assert(alloc.contains(p));
        assert(db.spare(floor).contains(p));
        if before.contains_key(p) {
            assert(in_snapshot(p, count));
        }
    }
    assert forall|p: u64| count <= p < next implies #[trigger] taken.contains(p) by {
        assert(alloc.contains(p));
    }
    if next > count {
        assert forall|p: u64| #[trigger] aged.contains(p) implies taken.contains(p) by {
            if !taken.contains(p) {
                assert(left.contains_key(p));
            }
        }
    }
    lemma_taken(taken, aged, count, next, db.free.reusable_pages);
    let again = taken.intersect(aged);
    assert(left.dom() =~= before.dom().difference(again)) by {
        assert forall|p: u64| before.contains_key(p) && #[trigger] taken.contains(p) implies aged.contains(
            p,
        ) by {
            assert(in_snapshot(p, count));
        }
    }
    assert(again.subset_of(before.dom()));
    assert(before.dom() =~= left.dom().union(again));
    vstd::set_lib::lemma_set_subset_finite(before.dom(), left.dom());
    vstd::set_lib::lemma_set_subset_finite(before.dom(), again);
    vstd::set_lib::lemma_set_disjoint_lens(left.dom(), again);
}

/// Entries with pages that none of them names are as many more.
pub proof fn lemma_with_new_pages(entries: Map<u64, u64>, pages: Seq<u64>, generation: u64)
    requires
        entries.dom().finite(),
        pages.no_duplicates(),
        forall|p: u64| #[trigger] pages.contains(p) ==> !entries.contains_key(p),
    ensures
        with_pages(entries, pages, generation).dom().len() == entries.dom().len() + pages.len(),
{
    lemma_with_pages(entries, pages, generation);
    pages.unique_seq_to_set();
    let full = with_pages(entries, pages, generation);
    assert(full.dom() =~= entries.dom().union(pages.to_set())) by {
        assert forall|p: u64| #[trigger] full.dom().contains(p) == entries.dom().union(
            pages.to_set(),
        ).contains(p) by {
            assert(full.contains_key(p) == (entries.contains_key(p) || pages.contains(p)));
            assert(pages.to_set().contains(p) == pages.contains(p));
        }
    }
    assert(entries.dom().disjoint(pages.to_set())) by {
        assert forall|p: u64| #[trigger] pages.to_set().contains(p) implies !entries.dom().contains(p) by {
            assert(pages.contains(p));
        }
    }
    vstd::set_lib::lemma_set_disjoint_lens(entries.dom(), pages.to_set());
}

/// A plan takes every page that may be used again before the file grows.
pub proof fn lemma_plan_growth<I: Storage>(
    plan: CommitPlan,
    db: Database<I>,
    tree: MutableTree,
    floor: u64,
)
    requires
        db.inv(),
        db.floor(floor),
        plan.fits(db, tree, floor),
        plan_facts(plan, db, floor),
        floor <= db.meta().generation,
        forall|p: u64| #[trigger]
            plan.user.finished.retired@.contains(p) ==> !db.entries().contains_key(p),
    ensures
        plan.next_page == db.meta().page_count + growth(plan.taken(), db.free.reusable_pages),
{
    let count = db.meta().page_count;
    let next = plan.next_page;
    let before = db.entries();
    let aged = aged_pages(before, floor);
    let alloc = plan.user.allocations@;
    let frees = if plan.changed {
        plan.free_allocations@
    } else {
        Seq::empty()
    };
    let all = alloc + frees;
    assert(all.no_duplicates()) by {
        assert forall|i: int, j: int| 0 <= i < all.len() && 0 <= j < all.len() && i != j implies all[i]
            != all[j] by {
            if i < alloc.len() && j >= alloc.len() {
                assert(alloc.contains(all[i]));
                assert(frees.contains(all[j]));
            } else if j < alloc.len() && i >= alloc.len() {
                assert(alloc.contains(all[j]));
                assert(frees.contains(all[i]));
            }
        }
    }
    all.unique_seq_to_set();
    let taken = all.to_set();
    lemma_aged_bounded(before, floor);
    assert forall|p: u64| #[trigger] taken.contains(p) == (alloc.contains(p) || frees.contains(p)) by {
        if taken.contains(p) {
            let k = choose|k: int| 0 <= k < all.len() && all[k] == p;
            if k < alloc.len() {
                assert(alloc[k] == p);
            } else {
                assert(frees[k - alloc.len()] == p);
            }
        }
        if alloc.contains(p) {
            let k = choose|k: int| 0 <= k < alloc.len() && alloc[k] == p;
            assert(all[k] == p);
        }
        if frees.contains(p) {
            let k = choose|k: int| 0 <= k < frees.len() && frees[k] == p;
            assert(all[alloc.len() + k] == p);
        }
    }
    assert forall|p: u64| #[trigger] aged.contains(p) implies p < count by {
        assert(in_snapshot(p, count));
    }
    assert forall|p: u64| #[trigger] taken.contains(p) implies aged.contains(p) || count <= p < next by {
        assert(db.spare(floor).contains(p));
        if before.contains_key(p) {
            assert(in_snapshot(p, count));
        }
    }
    assert forall|p: u64| count <= p < next implies #[trigger] taken.contains(p) by {
        assert(in_snapshot(p, next));
        assert(alloc.contains(p) || frees.contains(p));
    }
    if next > count {
        lemma_plan_exhausts(plan, db, tree, floor);
        assert forall|p: u64| #[trigger] aged.contains(p) implies taken.contains(p) by {
            assert(before.contains_key(p) && in_snapshot(p, count));
            assert(in_snapshot(p, next));
            assert(!plan.entries@.contains_key(p));
            assert(alloc.contains(p) || frees.contains(p));
        }
    }
    lemma_taken(taken, aged, count, next, db.free.reusable_pages);
}

/// What a plan leaves free, and what it writes.
pub proof fn lemma_plan<I: Storage>(plan: CommitPlan, db: Database<I>, tree: MutableTree, floor: u64)
    requires
        db.inv(),
        db.floor(floor),
        plan.fits(db, tree, floor),
    ensures
        plan_facts(plan, db, floor),
{
    let count = db.meta().page_count;
    let g = db.meta().generation;
    let before = db.entries();
    let left = plan.left(before);
    let after = plan.entries@;
    let alloc = plan.user.allocations@;
    let frees = plan.free_allocations@;
    let retired = plan.user.finished.retired@;
    let olds = plan.old_pages@;
    assert(left.dom() =~= before.dom().difference(alloc.to_set()));
    vstd::set_lib::lemma_set_subset_finite(before.dom(), left.dom());
    assert(db.retains(g)) by {
        let slot = db.publication.current.slot as int;
        assert(db.publication.slots@[slot] == Some(db.meta()));
        assert(slot == 0 || slot == 1);
    }
    lemma_floor_below(db, floor, g);
    assert forall|p: u64| #[trigger] before.contains_key(p) implies p < count by {
        assert(in_snapshot(p, count));
    }
    assert forall|p: u64| #[trigger] olds.contains(p) == db.free.pages@.contains(p) by {
        assert(olds.to_set().contains(p) == db.free.pages@.contains(p));
    }
    assert forall|p: u64| #[trigger] retired.contains(p) implies in_snapshot(p, count) by {
        let k = choose|k: int| 0 <= k < retired.len() && retired[k] == p;
        assert(in_snapshot(retired[k], count));
    }
    assert forall|p: u64| #[trigger] alloc.contains(p) implies db.spare(floor).contains(p)
        && in_snapshot(p, plan.user.next_page) && (before.contains_key(p) || p >= count) by {
        let k = choose|k: int| 0 <= k < alloc.len() && alloc[k] == p;
        if before.contains_key(alloc[k]) {
            assert(in_snapshot(p, count));
        }
    }
    if plan.changed {
        let part = with_pages(left, retired, g);
        let full = plan.offered(before, g);
        lemma_with_pages(left, retired, g);
        lemma_with_pages(part, olds, g);
        assert forall|p: u64| #[trigger] full.contains_key(p) implies in_snapshot(p, count) by {
            if olds.contains(p) {
                assert(db.free.pages@.contains(p));
            } else if retired.contains(p) {
            } else {
                assert(part.contains_key(p));
                assert(left.contains_key(p));
                assert(before.contains_key(p));
            }
        }
        assert(after.dom() =~= full.dom().difference(frees.to_set()));
        vstd::set_lib::lemma_set_subset_finite(full.dom(), after.dom());
        assert forall|p: u64| #[trigger] frees.contains(p) implies db.spare(floor).contains(p)
            && in_snapshot(p, plan.next_page) && !alloc.contains(p) && (before.contains_key(p) || p
            >= plan.user.next_page) by {
            let k = choose|k: int| 0 <= k < frees.len() && frees[k] == p;
            if full.contains_key(frees[k]) && full[frees[k]] < floor {
                assert(!olds.contains(p));
                assert(!retired.contains(p));
                assert(part.contains_key(p) && part[p] == full[p]);
                assert(left.contains_key(p) && left[p] == part[p]);
                assert(!alloc.to_set().contains(p));
            } else {
                assert(p >= plan.user.next_page);
                if alloc.contains(p) {
                    assert(in_snapshot(p, plan.user.next_page));
                }
            }
        }
        assert forall|p: u64| #[trigger] after.contains_key(p) implies (before.contains_key(p)
            && after[p] == before[p] && !alloc.contains(p)) || (after[p] == g && (retired.contains(p)
            || db.free.pages@.contains(p))) by {
            assert(full.contains_key(p) && after[p] == full[p]);
            if olds.contains(p) {
            } else {
                assert(part.contains_key(p) && part[p] == full[p]);
                if !retired.contains(p) {
                    assert(left.contains_key(p) && left[p] == part[p]);
                    assert(!alloc.to_set().contains(p));
                }
            }
        }
        assert forall|p: u64| #[trigger] after.contains_key(p) implies in_snapshot(p, count)
            && after[p] <= g && !frees.contains(p) by {
            assert(full.contains_key(p));
            assert(!frees.to_set().contains(p));
        }
        assert forall|p: u64| #[trigger] after.contains_key(p) && !retired.contains(p) implies !alloc.contains(p) by {
            if db.free.pages@.contains(p) && alloc.contains(p) {
                assert(before.contains_key(p) || p >= count);
                assert(in_snapshot(p, count));
            }
        }
        assert forall|p: u64| #[trigger] in_snapshot(p, plan.next_page) && (before.contains_key(p)
            || db.free.pages@.contains(p) || retired.contains(p) || p >= count) implies alloc.contains(p)
            || frees.contains(p) || after.contains_key(p) by {
            if p >= count {
                if p < plan.user.next_page {
                    assert(alloc.contains(p));
                } else {
                    assert(frees.contains(p));
                }
            } else {
                if before.contains_key(p) && !alloc.contains(p) {
                    assert(!alloc.to_set().contains(p));
                    assert(left.contains_key(p));
                    assert(part.contains_key(p));
                }
                if retired.contains(p) {
                    assert(part.contains_key(p));
                }
                if part.contains_key(p) || olds.contains(p) {
                    assert(full.contains_key(p));
                    if !frees.contains(p) {
                        assert(!frees.to_set().contains(p));
                        assert(after.contains_key(p));
                    }
                }
            }
        }
    } else {
        assert(alloc =~= Seq::<u64>::empty());
        assert(retired =~= Seq::<u64>::empty());
        if plan.user.next_page > count {
            assert(alloc.contains(count));
        }
    }
}

} // verus!
