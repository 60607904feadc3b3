//! Removing a key from the tree of a write transaction.
use crate::body::{
    body_flat, body_ok, body_owns, joined, lemma_body_built, lemma_body_join, lemma_body_kept,
    lemma_body_slots, lemma_body_split, lemma_joined_splits, lemma_opened_body,
};
use crate::branch::{
    branching, branching_body, branching_run, lemma_branching_add, lemma_branching_built,
    lemma_branching_opened, lemma_branching_run_edge, lemma_branching_run_kept, lone_wide,
    spreading, wide,
};
use crate::error::{corrupt, Result};
use crate::format::{MAX_KEY_SIZE, SLOT_SIZE};
use crate::graft::{
    changed_below, is_fresh, lemma_owned_slots, lemma_owns_root, lemma_run_child, lemma_run_cut,
    lemma_run_join, lemma_run_kept, lemma_run_one, lemma_run_slots, old_value_owns, snug, snug_run,
};
use crate::insert::{
    lemma_branching_children, lemma_few_size, lemma_opened_children, opened_at, owned, run_owned,
};
use crate::model::{
    flat, flat_all, is_tree, keyed, lemma_flat_all_one, node_at, owns, run_ok, run_owns, subtree,
    value_ok, value_owns, value_pages, values_ok, Env, Pages,
};
use crate::node::{
    child_at, child_index, combine_nodes, copy_bytes, entries_fit, entries_of, entry_index,
    internal_size, is_bare, leaf_size, links_of, node_encoded_size, node_size, sorted_entries,
    split_combined, Child, Entry, Link, MutableNode, Node, PageRef, Stored, PAGE_END,
};
use crate::order::{group_order, lt};
use crate::page::keys_fit;
use crate::reader::{
    fails_for, fresh_chain, hoards, honest, incomplete, lemma_near_value, lookup, near_below,
    steady, PageReader, MAX_DEPTH,
};
use crate::settle::{
    around, balanced, gave_up, gives_way, halves, keeps_slots, left_of, lemma_lone_wide,
    lemma_opened_kept, lemma_turns_kept, pair_of, rerooted, settles, shed, turns_into, vacated,
};
use crate::tree::{arena, lemma_opened_descend, opened, same_but_opened, sits, sturdy, MutableTree};
use vstd::prelude::*;

verus! {

// ---------------------------------------------------------------------------
// Runs with a hole
// ---------------------------------------------------------------------------

/// Whether two environments differ in slots only, and only in slots that are free or
/// belong to a set.
pub open spec fn changed_in(env: Env, other: Env, hole: Set<PageRef>) -> bool {
    &&& other.pages == env.pages
    &&& other.count == env.count
    &&& other.dirty.len() >= env.dirty.len()
    &&& forall|slot: int|
        0 <= slot < env.dirty.len() && !hole.contains(PageRef::Dirty(slot as usize))
            ==> #[trigger] other.dirty[slot] == env.dirty[slot]
}

/// Filling a hole between two runs with another run, in an environment that agrees on
/// the two runs.
pub proof fn lemma_fill(
    env: Env,
    other: Env,
    a: Seq<Link>,
    b: Seq<Link>,
    h: nat,
    hole: Set<PageRef>,
    run: Seq<Link>,
)
    requires
        run_ok(env, a, h),
        run_ok(env, b, h),
        keyed(env, a, h, 0),
        keyed(env, b, h, 0),
        forall|p: PageRef| !(#[trigger] run_owns(env, a, h, p) && run_owns(env, b, h, p)),
        forall|p: PageRef| !(#[trigger] run_owns(env, a, h, p) && hole.contains(p)),
        forall|p: PageRef| !(#[trigger] run_owns(env, b, h, p) && hole.contains(p)),
        run_ok(other, run, h),
        keyed(other, run, h, 0),
        changed_in(env, other, hole),
        forall|p: PageRef| #[trigger]
            run_owns(other, run, h, p) ==> hole.contains(p) || is_fresh(env, p),
    ensures
        run_ok(other, a + run + b, h),
        keyed(other, a + run + b, h, 0),
        flat_all(other, a + run + b, h) == flat_all(env, a, h) + flat_all(other, run, h) + flat_all(
            env,
            b,
            h,
        ),
        forall|p: PageRef| #[trigger]
            run_owns(other, a + run + b, h, p) == (run_owns(env, a, h, p) || run_owns(
                other,
                run,
                h,
                p,
            ) || run_owns(env, b, h, p)),
{
    assert forall|slot: usize|
        run_owns(env, a, h, PageRef::Dirty(slot)) || run_owns(
            env,
            b,
            h,
            PageRef::Dirty(slot),
        ) implies #[trigger] node_at(other, PageRef::Dirty(slot)) == node_at(
        env,
        PageRef::Dirty(slot),
    ) by {
        let p = PageRef::Dirty(slot);
        if run_owns(env, a, h, p) {
            lemma_run_slots(env, a, h, p);
        } else {
            lemma_run_slots(env, b, h, p);
        }
        assert(other.dirty[slot as int] == env.dirty[slot as int]);
    }
    lemma_run_kept(env, other, a, h);
    lemma_run_kept(env, other, b, h);
    assert forall|p: PageRef| !(#[trigger] run_owns(other, a, h, p) && run_owns(other, run, h, p)) by {
        if run_owns(other, a, h, p) && run_owns(other, run, h, p) {
            assert(run_owns(env, a, h, p));
            lemma_run_slots(env, a, h, p);
        }
    }
    lemma_run_join(other, a, run, h);
    assert forall|p: PageRef|
        !(#[trigger] run_owns(other, a + run, h, p) && run_owns(other, b, h, p)) by {
        if run_owns(other, a + run, h, p) && run_owns(other, b, h, p) {
            assert(run_owns(env, b, h, p));
            lemma_run_slots(env, b, h, p);
            if run_owns(other, a, h, p) {
                assert(run_owns(env, a, h, p));
            }
        }
    }
    lemma_run_join(other, a + run, b, h);
    assert forall|p: PageRef| #[trigger]
        run_owns(other, a + run + b, h, p) == (run_owns(env, a, h, p) || run_owns(other, run, h, p)
            || run_owns(env, b, h, p)) by {
        assert(run_owns(other, a, h, p) == run_owns(env, a, h, p));
        assert(run_owns(other, b, h, p) == run_owns(env, b, h, p));
        assert(run_owns(other, a + run, h, p) == (run_owns(other, a, h, p) || run_owns(
            other,
            run,
            h,
            p,
        )));
    }
}

/// Two neighbours in a run, apart from the children around them.
#[verifier::opaque]
pub open spec fn neighbours(
    env: Env,
    a: Seq<Link>,
    left: PageRef,
    right: PageRef,
    b: Seq<Link>,
    h: nat,
) -> bool {
    &&& run_ok(env, a, h)
    &&& run_ok(env, b, h)
    &&& keyed(env, a, h, 0)
    &&& keyed(env, b, h, 0)
    &&& subtree(env, left, h)
    &&& subtree(env, right, h)
    &&& flat(env, left, h).len() > 0 || flat(env, right, h).len() > 0
    &&& forall|p: PageRef| !(#[trigger] run_owns(env, a, h, p) && run_owns(env, b, h, p))
    &&& forall|p: PageRef| !(#[trigger] owns(env, left, h, p) && owns(env, right, h, p))
    &&& forall|p: PageRef| !(#[trigger] run_owns(env, a, h, p) && owns(env, left, h, p))
    &&& forall|p: PageRef| !(#[trigger] run_owns(env, a, h, p) && owns(env, right, h, p))
    &&& forall|p: PageRef| !(#[trigger] run_owns(env, b, h, p) && owns(env, left, h, p))
    &&& forall|p: PageRef| !(#[trigger] run_owns(env, b, h, p) && owns(env, right, h, p))
}

/// Whether `links` has taken the place of two neighbours and the children around them.
#[verifier::opaque]
pub open spec fn merged(
    env: Env,
    other: Env,
    gone: Set<u64>,
    gone_after: Set<u64>,
    a: Seq<Link>,
    left: PageRef,
    right: PageRef,
    b: Seq<Link>,
    h: nat,
    links: Seq<Link>,
) -> bool {
    &&& run_ok(other, links, h)
    &&& keyed(other, links, h, 0)
    &&& flat_all(other, links, h) == flat_all(env, a, h) + flat(env, left, h) + flat(env, right, h)
        + flat_all(env, b, h)
    &&& changed_in(env, other, owned(env, left, h).union(owned(env, right, h)))
    &&& forall|p: PageRef| #[trigger]
        run_owns(other, links, h, p) ==> run_owns(env, a, h, p) || owns(env, left, h, p) || owns(
            env,
            right,
            h,
            p,
        ) || run_owns(env, b, h, p) || is_fresh(env, p)
    &&& forall|id: u64| #[trigger]
        gone_after.contains(id) == (gone.contains(id) || ((owns(env, left, h, PageRef::Committed(id))
            || owns(env, right, h, PageRef::Committed(id))) && !run_owns(
            other,
            links,
            h,
            PageRef::Committed(id),
        )))
    &&& forall|id: u64|
        #![trigger run_owns(env, a, h, PageRef::Committed(id))]
        #![trigger run_owns(env, b, h, PageRef::Committed(id))]
        run_owns(env, a, h, PageRef::Committed(id)) || run_owns(env, b, h, PageRef::Committed(id))
            ==> run_owns(other, links, h, PageRef::Committed(id))
    &&& snug_run(env, a, h) && snug(env, left, h) && snug(env, right, h) && snug_run(env, b, h)
        ==> snug_run(other, links, h)
    &&& forall|edge: bool| #[trigger]
        branching_pair(
            env,
            a,
            opened(env, left, h),
            opened(env, right, h),
            b,
            h,
            edge,
        ) ==> branching_run(other, links, h, edge)
}

/// Whether what lies below two neighbours and the children around them branches, the last of
/// all but for its right edge if `edge` is set.
pub open spec fn branching_pair(
    env: Env,
    a: Seq<Link>,
    left: Node,
    right: Node,
    b: Seq<Link>,
    h: nat,
    edge: bool,
) -> bool {
    &&& branching_run(env, a, h, false)
    &&& branching_body(env, left, h, false)
    &&& branching_body(env, right, h, edge && b.len() == 0)
    &&& branching_run(env, b, h, edge)
}

/// Whether what lies below a node and the children around it branches, the last of all but
/// for its right edge if `edge` is set.
pub open spec fn branching_around(
    env: Env,
    a: Seq<Link>,
    node: Node,
    b: Seq<Link>,
    h: nat,
    edge: bool,
) -> bool {
    &&& branching_run(env, a, h, false)
    &&& branching_body(env, node, h, edge && b.len() == 0)
    &&& branching_run(env, b, h, edge)
}

/// What has happened to the arena once the nodes of two neighbours are in memory: the
/// slot of each is its own or a new one, and published pages are left behind.
pub open spec fn pair_opened(
    env: Env,
    other: Env,
    gone: Set<u64>,
    gone_after: Set<u64>,
    left: PageRef,
    right: PageRef,
    left_slot: usize,
    right_slot: Option<usize>,
) -> bool {
    &&& other.pages == env.pages
    &&& other.count == env.count
    &&& other.dirty.len() >= env.dirty.len()
    &&& left == PageRef::Dirty(left_slot) || (left is Committed && left_slot >= env.dirty.len())
    &&& right_slot matches Some(slot) ==> right == PageRef::Dirty(slot) || (right is Committed && slot
        >= env.dirty.len())
    &&& left_slot < other.dirty.len()
    &&& right_slot matches Some(slot) ==> slot < other.dirty.len() && slot != left_slot
    &&& forall|i: int|
        0 <= i < env.dirty.len() && i != left_slot && (right_slot matches Some(slot) ==> i != slot)
            ==> #[trigger] other.dirty[i] == env.dirty[i]
    &&& forall|id: u64| #[trigger]
        gone_after.contains(id) == (gone.contains(id) || left == PageRef::Committed(id) || right
            == PageRef::Committed(id))
}

/// Where the neighbours and the children around them fit into pages, so does what takes
/// their place.
proof fn lemma_merged_snug(
    env: Env,
    other: Env,
    gone: Set<u64>,
    gone_after: Set<u64>,
    a: Seq<Link>,
    left: PageRef,
    right: PageRef,
    b: Seq<Link>,
    h: nat,
    left_slot: usize,
    right_slot: Option<usize>,
    links: Seq<Link>,
)
    requires
        neighbours(env, a, left, right, b, h),
        pair_opened(env, other, gone, gone_after, left, right, left_slot, right_slot),
        node_size(node_at(other, PageRef::Dirty(left_slot))->0) <= PAGE_END,
        right_slot matches Some(slot) ==> node_size(node_at(other, PageRef::Dirty(slot))->0)
            <= PAGE_END,
        forall|p: PageRef| #[trigger]
            run_owns(other, links, h, p) ==> p == PageRef::Dirty(left_slot) || (right_slot matches Some(
                slot,
            ) && p == PageRef::Dirty(slot)) || run_owns(env, a, h, p) || owns(env, left, h, p)
                || owns(env, right, h, p) || run_owns(env, b, h, p),
    ensures
        snug_run(env, a, h) && snug(env, left, h) && snug(env, right, h) && snug_run(env, b, h)
            ==> snug_run(other, links, h),
{
    reveal(neighbours);
    if snug_run(env, a, h) && snug(env, left, h) && snug(env, right, h) && snug_run(env, b, h) {
        assert forall|s: usize| #[trigger] run_owns(other, links, h, PageRef::Dirty(s)) implies
            node_size(node_at(other, PageRef::Dirty(s))->0) <= PAGE_END by {
            let p = PageRef::Dirty(s);
            if s != left_slot && right_slot != Some(s) {
                if run_owns(env, a, h, p) {
                    lemma_run_slots(env, a, h, p);
                } else if run_owns(env, b, h, p) {
                    lemma_run_slots(env, b, h, p);
                } else if owns(env, left, h, p) {
                    lemma_owned_slots(env, left, h, p);
                } else {
                    lemma_owned_slots(env, right, h, p);
                }
                assert(other.dirty[s as int] == env.dirty[s as int]);
            }
        }
    }
}

/// Where the neighbours and the children around them branch, so does what takes their
/// place.
proof fn lemma_merged_branching(
    env: Env,
    other: Env,
    gone: Set<u64>,
    gone_after: Set<u64>,
    a: Seq<Link>,
    left: PageRef,
    right: PageRef,
    b: Seq<Link>,
    h: nat,
    left_slot: usize,
    right_slot: Option<usize>,
    node: Node,
    run: Seq<Link>,
    edge: bool,
)
    requires
        neighbours(env, a, left, right, b, h),
        pair_opened(env, other, gone, gone_after, left, right, left_slot, right_slot),
        node == joined(opened(env, left, h), opened(env, right, h)),
        forall|s: usize| #[trigger]
            body_owns(env, node, h, PageRef::Dirty(s)) ==> node_at(other, PageRef::Dirty(s))
                == node_at(env, PageRef::Dirty(s)),
        branching_body(other, node, h, edge && b.len() == 0) ==> branching_run(
            other,
            run,
            h,
            edge && b.len() == 0,
        ),
        run.len() > 0,
        branching_pair(env, a, opened(env, left, h), opened(env, right, h), b, h, edge),
    ensures
        branching_run(other, a + run + b, h, edge),
{
    let last = edge && b.len() == 0;
    reveal(neighbours);
    lemma_owns_root(env, left, h);
    lemma_owns_root(env, right, h);
    assert forall|s: usize| #[trigger] run_owns(env, a, h, PageRef::Dirty(s)) implies node_at(
        other,
        PageRef::Dirty(s),
    ) == node_at(env, PageRef::Dirty(s)) by {
        lemma_run_slots(env, a, h, PageRef::Dirty(s));
        assert(!owns(env, left, h, PageRef::Dirty(s)) && !owns(env, right, h, PageRef::Dirty(s)));
        assert(other.dirty[s as int] == env.dirty[s as int]);
    }
    lemma_branching_run_kept(env, other, a, h, false);
    assert forall|s: usize| #[trigger] run_owns(env, b, h, PageRef::Dirty(s)) implies node_at(
        other,
        PageRef::Dirty(s),
    ) == node_at(env, PageRef::Dirty(s)) by {
        lemma_run_slots(env, b, h, PageRef::Dirty(s));
        assert(!owns(env, left, h, PageRef::Dirty(s)) && !owns(env, right, h, PageRef::Dirty(s)));
        assert(other.dirty[s as int] == env.dirty[s as int]);
    }
    lemma_branching_run_kept(env, other, b, h, edge);
    if let Node::Internal(links) = node {
        lemma_opened_body(env, left, h);
        lemma_opened_body(env, right, h);
        let l = opened(env, left, h)->Internal_0;
        let r = opened(env, right, h)->Internal_0;
        let below = (h - 1) as nat;
        lemma_branching_run_edge(env, l, below, last && r.len() == 0);
        lemma_branching_add(env, l, r, below, last);
        assert forall|s: usize| #[trigger] run_owns(env, links, below, PageRef::Dirty(s)) implies
            node_at(other, PageRef::Dirty(s)) == node_at(env, PageRef::Dirty(s)) by {
            assert(body_owns(env, node, h, PageRef::Dirty(s)));
        }
        lemma_branching_run_kept(env, other, links, below, last);
    }
    lemma_branching_add(other, a, run, h, last);
    lemma_branching_add(other, a + run, b, h, edge);
}

/// Two neighbours merged into one node.
proof fn lemma_merge_one(
    env: Env,
    other: Env,
    gone: Set<u64>,
    gone_after: Set<u64>,
    a: Seq<Link>,
    left: PageRef,
    right: PageRef,
    b: Seq<Link>,
    h: nat,
    slot: usize,
    node: Node,
    key: Seq<u8>,
)
    requires
        neighbours(env, a, left, right, b, h),
        pair_opened(env, other, gone, gone_after, left, right, slot, None),
        node == joined(opened(env, left, h), opened(env, right, h)),
        node_at(other, PageRef::Dirty(slot)) == Some(node),
        node_size(node) <= PAGE_END,
        subtree(other, PageRef::Dirty(slot), h) && flat(other, PageRef::Dirty(slot), h).len() > 0
            ==> key == flat(other, PageRef::Dirty(slot), h)[0].key,
    ensures
        merged(
            env,
            other,
            gone,
            gone_after,
            a,
            left,
            right,
            b,
            h,
            a + seq![Link { key, page: PageRef::Dirty(slot) }] + b,
        ),
{
    reveal(neighbours);
    reveal(merged);
    let d = PageRef::Dirty(slot);
    let l = opened(env, left, h);
    let r = opened(env, right, h);
    let hole = owned(env, left, h).union(owned(env, right, h));
    lemma_opened_body(env, left, h);
    lemma_opened_body(env, right, h);
    assert forall|p: PageRef| !(#[trigger] body_owns(env, l, h, p) && body_owns(env, r, h, p)) by {
        assert(!(owns(env, left, h, p) && owns(env, right, h, p)));
    }
    lemma_body_join(env, l, r, h);
    lemma_body_apart(env, left, right, h, slot, node, gone, gone_after, other, None);
    lemma_body_kept(env, other, node, h);
    lemma_body_built(other, slot, node, h);
    let link = Link { key, page: d };
    lemma_run_one(other, link, h);
    assert forall|p: PageRef| #[trigger] run_owns(other, seq![link], h, p) == (p == d || body_owns(
        env,
        l,
        h,
        p,
    ) || body_owns(env, r, h, p)) by {
        assert(run_owns(other, seq![link], h, p) == owns(other, d, h, p));
        assert(body_owns(other, node, h, p) == body_owns(env, node, h, p));
        assert(body_owns(env, node, h, p) == (body_owns(env, l, h, p) || body_owns(env, r, h, p)));
    }
    lemma_owns_root(env, left, h);
    lemma_owns_root(env, right, h);
    lemma_fill_ready(env, other, a, left, right, b, h, slot, None);
    assert forall|p: PageRef| #[trigger] run_owns(other, seq![link], h, p) implies hole.contains(p)
        || is_fresh(env, p) by {
        assert(owns(env, left, h, p) == (p == left || body_owns(env, l, h, p)));
        assert(owns(env, right, h, p) == (p == right || body_owns(env, r, h, p)));
    }
    lemma_fill(env, other, a, b, h, hole, seq![link]);
    let links = a + seq![link] + b;
    assert(flat_all(other, seq![link], h) == flat(env, left, h) + flat(env, right, h));
    assert(flat_all(other, links, h) =~= flat_all(env, a, h) + flat(env, left, h) + flat(
        env,
        right,
        h,
    ) + flat_all(env, b, h));
    assert forall|id: u64| #[trigger]
        gone_after.contains(id) == (gone.contains(id) || ((owns(env, left, h, PageRef::Committed(id))
            || owns(env, right, h, PageRef::Committed(id))) && !run_owns(
            other,
            links,
            h,
            PageRef::Committed(id),
        ))) by {
        let p = PageRef::Committed(id);
        assert(owns(env, left, h, p) == (p == left || body_owns(env, l, h, p)));
        assert(owns(env, right, h, p) == (p == right || body_owns(env, r, h, p)));
        assert(run_owns(other, links, h, p) == (run_owns(env, a, h, p) || run_owns(
            other,
            seq![link],
            h,
            p,
        ) || run_owns(env, b, h, p)));
        assert(!(run_owns(env, a, h, p) && owns(env, left, h, p)));
        assert(!(run_owns(env, a, h, p) && owns(env, right, h, p)));
        assert(!(run_owns(env, b, h, p) && owns(env, left, h, p)));
        assert(!(run_owns(env, b, h, p) && owns(env, right, h, p)));
        assert(!(owns(env, left, h, p) && owns(env, right, h, p)));
    }
    assert forall|p: PageRef| #[trigger] run_owns(other, links, h, p) implies p == d || run_owns(
        env,
        a,
        h,
        p,
    ) || owns(env, left, h, p) || owns(env, right, h, p) || run_owns(env, b, h, p) by {
        assert(run_owns(other, links, h, p) == (run_owns(env, a, h, p) || run_owns(
            other,
            seq![link],
            h,
            p,
        ) || run_owns(env, b, h, p)));
        assert(owns(env, left, h, p) == (p == left || body_owns(env, l, h, p)));
        assert(owns(env, right, h, p) == (p == right || body_owns(env, r, h, p)));
    }
    lemma_merged_snug(env, other, gone, gone_after, a, left, right, b, h, slot, None, links);
    assert forall|edge: bool| #[trigger] branching_pair(env, a, l, r, b, h, edge) implies
        branching_run(other, links, h, edge) by {
        lemma_branching_built(other, d, node, h, edge && b.len() == 0);
        lemma_merged_branching(
            env,
            other,
            gone,
            gone_after,
            a,
            left,
            right,
            b,
            h,
            slot,
            None,
            node,
            seq![link],
            edge,
        );
    }
}

/// What is below two neighbours is apart from the slots that are written.
proof fn lemma_body_apart(
    env: Env,
    left: PageRef,
    right: PageRef,
    h: nat,
    left_slot: usize,
    node: Node,
    gone: Set<u64>,
    gone_after: Set<u64>,
    other: Env,
    right_slot: Option<usize>,
)
    requires
        subtree(env, left, h),
        subtree(env, right, h),
        forall|p: PageRef| !(#[trigger] owns(env, left, h, p) && owns(env, right, h, p)),
        pair_opened(env, other, gone, gone_after, left, right, left_slot, right_slot),
        body_ok(env, node, h),
        forall|p: PageRef| #[trigger]
            body_owns(env, node, h, p) == (body_owns(env, opened(env, left, h), h, p) || body_owns(
                env,
                opened(env, right, h),
                h,
                p,
            )),
    ensures
        !body_owns(env, node, h, PageRef::Dirty(left_slot)),
        right_slot matches Some(slot) ==> !body_owns(env, node, h, PageRef::Dirty(slot)),
        forall|s: usize| #[trigger]
            body_owns(env, node, h, PageRef::Dirty(s)) ==> node_at(other, PageRef::Dirty(s))
                == node_at(env, PageRef::Dirty(s)),
{
    lemma_opened_body(env, left, h);
    lemma_opened_body(env, right, h);
    lemma_owns_root(env, left, h);
    lemma_owns_root(env, right, h);
    assert forall|p: PageRef| #[trigger] body_owns(env, node, h, p) implies p != PageRef::Dirty(
        left_slot,
    ) && (right_slot matches Some(slot) ==> p != PageRef::Dirty(slot)) by {
        lemma_body_slots(env, node, h, p);
        assert(owns(env, left, h, p) == (p == left || body_owns(env, opened(env, left, h), h, p)));
        assert(owns(env, right, h, p) == (p == right || body_owns(
            env,
            opened(env, right, h),
            h,
            p,
        )));
        assert(!(owns(env, left, h, left) && owns(env, right, h, left)));
        assert(!(owns(env, left, h, right) && owns(env, right, h, right)));
    }
    assert forall|s: usize| #[trigger] body_owns(env, node, h, PageRef::Dirty(s)) implies node_at(
        other,
        PageRef::Dirty(s),
    ) == node_at(env, PageRef::Dirty(s)) by {
        lemma_body_slots(env, node, h, PageRef::Dirty(s));
        assert(other.dirty[s as int] == env.dirty[s as int]);
    }
}

/// The children around two neighbours are left alone.
proof fn lemma_fill_ready(
    env: Env,
    other: Env,
    a: Seq<Link>,
    left: PageRef,
    right: PageRef,
    b: Seq<Link>,
    h: nat,
    left_slot: usize,
    right_slot: Option<usize>,
)
    requires
        neighbours(env, a, left, right, b, h),
        exists|gone: Set<u64>, gone_after: Set<u64>| #[trigger]
            pair_opened(env, other, gone, gone_after, left, right, left_slot, right_slot),
    ensures
        changed_in(env, other, owned(env, left, h).union(owned(env, right, h))),
        forall|p: PageRef|
            !(#[trigger] run_owns(env, a, h, p) && owned(env, left, h).union(
                owned(env, right, h),
            ).contains(p)),
        forall|p: PageRef|
            !(#[trigger] run_owns(env, b, h, p) && owned(env, left, h).union(
                owned(env, right, h),
            ).contains(p)),
{
    reveal(neighbours);
    lemma_owns_root(env, left, h);
    lemma_owns_root(env, right, h);
    let hole = owned(env, left, h).union(owned(env, right, h));
    assert forall|slot: int|
        0 <= slot < env.dirty.len() && !hole.contains(PageRef::Dirty(slot as usize)) implies
        #[trigger] other.dirty[slot] == env.dirty[slot] by {
        assert(hole.contains(left));
        assert(hole.contains(right));
    }
    assert forall|p: PageRef| !(#[trigger] run_owns(env, a, h, p) && hole.contains(p)) by {
        assert(!(run_owns(env, a, h, p) && owns(env, left, h, p)));
        assert(!(run_owns(env, a, h, p) && owns(env, right, h, p)));
    }
    assert forall|p: PageRef| !(#[trigger] run_owns(env, b, h, p) && hole.contains(p)) by {
        assert(!(run_owns(env, b, h, p) && owns(env, left, h, p)));
        assert(!(run_owns(env, b, h, p) && owns(env, right, h, p)));
    }
}

/// The run that two halves of a split node make.
proof fn lemma_halves(
    env: Env,
    other: Env,
    h: nat,
    left_slot: usize,
    right_slot: usize,
    node: Node,
    low: Node,
    high: Node,
    left_key: Seq<u8>,
    right_key: Seq<u8>,
)
    requires
        left_slot != right_slot,
        body_ok(env, node, h),
        crate::node::is_best_split(node, low, high),
        other.pages == env.pages,
        other.count == env.count,
        node_at(other, PageRef::Dirty(left_slot)) == Some(low),
        node_at(other, PageRef::Dirty(right_slot)) == Some(high),
        !body_owns(env, node, h, PageRef::Dirty(left_slot)),
        !body_owns(env, node, h, PageRef::Dirty(right_slot)),
        forall|s: usize| #[trigger]
            body_owns(env, node, h, PageRef::Dirty(s)) ==> node_at(other, PageRef::Dirty(s))
                == node_at(env, PageRef::Dirty(s)),
        subtree(other, PageRef::Dirty(left_slot), h) && flat(
            other,
            PageRef::Dirty(left_slot),
            h,
        ).len() > 0 ==> left_key == flat(other, PageRef::Dirty(left_slot), h)[0].key,
        subtree(other, PageRef::Dirty(right_slot), h) && flat(
            other,
            PageRef::Dirty(right_slot),
            h,
        ).len() > 0 ==> right_key == flat(other, PageRef::Dirty(right_slot), h)[0].key,
    ensures
        ({
            let run = seq![
                Link { key: left_key, page: PageRef::Dirty(left_slot) },
                Link { key: right_key, page: PageRef::Dirty(right_slot) },
            ];
            &&& run_ok(other, run, h)
            &&& keyed(other, run, h, 0)
            &&& flat_all(other, run, h) == body_flat(env, node, h)
            &&& forall|p: PageRef| #[trigger]
                run_owns(other, run, h, p) == (p == PageRef::Dirty(left_slot) || p
                    == PageRef::Dirty(right_slot) || body_owns(env, node, h, p))
        }),
{
    let d = PageRef::Dirty(left_slot);
    let e = PageRef::Dirty(right_slot);
    lemma_body_kept(env, other, node, h);
    lemma_body_split(other, node, low, high, h);
    assert(!body_owns(other, node, h, d) && !body_owns(other, node, h, e));
    assert(!body_owns(other, low, h, d) && !body_owns(other, low, h, e));
    assert(!body_owns(other, high, h, d) && !body_owns(other, high, h, e));
    lemma_body_built(other, left_slot, low, h);
    lemma_body_built(other, right_slot, high, h);
    let first = Link { key: left_key, page: d };
    let second = Link { key: right_key, page: e };
    lemma_run_one(other, first, h);
    lemma_run_one(other, second, h);
    let x = seq![first];
    let y = seq![second];
    assert forall|p: PageRef| !(#[trigger] run_owns(other, x, h, p) && run_owns(other, y, h, p)) by {
        assert(run_owns(other, x, h, p) == owns(other, d, h, p));
        assert(run_owns(other, y, h, p) == owns(other, e, h, p));
        assert(owns(other, d, h, p) == (p == d || body_owns(other, low, h, p)));
        assert(owns(other, e, h, p) == (p == e || body_owns(other, high, h, p)));
        assert(!(body_owns(other, low, h, p) && body_owns(other, high, h, p)));
    }
    lemma_run_join(other, x, y, h);
    let run = seq![first, second];
    assert(x + y =~= run);
    assert forall|p: PageRef| #[trigger]
        run_owns(other, run, h, p) == (p == d || p == e || body_owns(env, node, h, p)) by {
        assert(run_owns(other, run, h, p) == (run_owns(other, x, h, p) || run_owns(other, y, h, p)));
        assert(run_owns(other, x, h, p) == owns(other, d, h, p));
        assert(run_owns(other, y, h, p) == owns(other, e, h, p));
        assert(owns(other, d, h, p) == (p == d || body_owns(other, low, h, p)));
        assert(owns(other, e, h, p) == (p == e || body_owns(other, high, h, p)));
        assert(body_owns(other, node, h, p) == (body_owns(other, low, h, p) || body_owns(
            other,
            high,
            h,
            p,
        )));
    }
}

/// Two neighbours joined and divided anew.
proof fn lemma_merge_two(
    env: Env,
    other: Env,
    gone: Set<u64>,
    gone_after: Set<u64>,
    a: Seq<Link>,
    left: PageRef,
    right: PageRef,
    b: Seq<Link>,
    h: nat,
    left_slot: usize,
    right_slot: usize,
    low: Node,
    high: Node,
    left_key: Seq<u8>,
    right_key: Seq<u8>,
)
    requires
        neighbours(env, a, left, right, b, h),
        pair_opened(env, other, gone, gone_after, left, right, left_slot, Some(right_slot)),
        crate::node::is_best_split(
            joined(opened(env, left, h), opened(env, right, h)),
            low,
            high,
        ),
        node_at(other, PageRef::Dirty(left_slot)) == Some(low),
        node_at(other, PageRef::Dirty(right_slot)) == Some(high),
        subtree(other, PageRef::Dirty(left_slot), h) && flat(
            other,
            PageRef::Dirty(left_slot),
            h,
        ).len() > 0 ==> left_key == flat(other, PageRef::Dirty(left_slot), h)[0].key,
        subtree(other, PageRef::Dirty(right_slot), h) && flat(
            other,
            PageRef::Dirty(right_slot),
            h,
        ).len() > 0 ==> right_key == flat(other, PageRef::Dirty(right_slot), h)[0].key,
    ensures
        merged(
            env,
            other,
            gone,
            gone_after,
            a,
            left,
            right,
            b,
            h,
            a + seq![
                Link { key: left_key, page: PageRef::Dirty(left_slot) },
                Link { key: right_key, page: PageRef::Dirty(right_slot) },
            ] + b,
        ),
{
    reveal(neighbours);
    reveal(merged);
    let d = PageRef::Dirty(left_slot);
    let e = PageRef::Dirty(right_slot);
    let l = opened(env, left, h);
    let r = opened(env, right, h);
    let node = joined(l, r);
    let hole = owned(env, left, h).union(owned(env, right, h));
    lemma_opened_body(env, left, h);
    lemma_opened_body(env, right, h);
    assert forall|p: PageRef| !(#[trigger] body_owns(env, l, h, p) && body_owns(env, r, h, p)) by {
        assert(!(owns(env, left, h, p) && owns(env, right, h, p)));
    }
    lemma_body_join(env, l, r, h);
    lemma_body_apart(
        env,
        left,
        right,
        h,
        left_slot,
        node,
        gone,
        gone_after,
        other,
        Some(right_slot),
    );
    lemma_halves(
        env,
        other,
        h,
        left_slot,
        right_slot,
        node,
        low,
        high,
        left_key,
        right_key,
    );
    let run = seq![Link { key: left_key, page: d }, Link { key: right_key, page: e }];
    lemma_owns_root(env, left, h);
    lemma_owns_root(env, right, h);
    lemma_fill_ready(env, other, a, left, right, b, h, left_slot, Some(right_slot));
    assert forall|p: PageRef| #[trigger] run_owns(other, run, h, p) implies hole.contains(p)
        || is_fresh(env, p) by {
        assert(owns(env, left, h, p) == (p == left || body_owns(env, l, h, p)));
        assert(owns(env, right, h, p) == (p == right || body_owns(env, r, h, p)));
        assert(body_owns(env, node, h, p) == (body_owns(env, l, h, p) || body_owns(env, r, h, p)));
    }
    lemma_fill(env, other, a, b, h, hole, run);
    let links = a + run + b;
    assert(flat_all(other, links, h) =~= flat_all(env, a, h) + flat(env, left, h) + flat(
        env,
        right,
        h,
    ) + flat_all(env, b, h));
    assert forall|id: u64| #[trigger]
        gone_after.contains(id) == (gone.contains(id) || ((owns(env, left, h, PageRef::Committed(id))
            || owns(env, right, h, PageRef::Committed(id))) && !run_owns(
            other,
            links,
            h,
            PageRef::Committed(id),
        ))) by {
        let p = PageRef::Committed(id);
        assert(owns(env, left, h, p) == (p == left || body_owns(env, l, h, p)));
        assert(owns(env, right, h, p) == (p == right || body_owns(env, r, h, p)));
        assert(body_owns(env, node, h, p) == (body_owns(env, l, h, p) || body_owns(env, r, h, p)));
        assert(run_owns(other, links, h, p) == (run_owns(env, a, h, p) || run_owns(other, run, h, p)
            || run_owns(env, b, h, p)));
        assert(!(run_owns(env, a, h, p) && owns(env, left, h, p)));
        assert(!(run_owns(env, a, h, p) && owns(env, right, h, p)));
        assert(!(run_owns(env, b, h, p) && owns(env, left, h, p)));
        assert(!(run_owns(env, b, h, p) && owns(env, right, h, p)));
        assert(!(owns(env, left, h, p) && owns(env, right, h, p)));
    }
    assert forall|p: PageRef| #[trigger] run_owns(other, links, h, p) implies p == d || p == e
        || run_owns(env, a, h, p) || owns(env, left, h, p) || owns(env, right, h, p) || run_owns(
        env,
        b,
        h,
        p,
    ) by {
        assert(run_owns(other, links, h, p) == (run_owns(env, a, h, p) || run_owns(other, run, h, p)
            || run_owns(env, b, h, p)));
        assert(body_owns(env, node, h, p) == (body_owns(env, l, h, p) || body_owns(env, r, h, p)));
        assert(owns(env, left, h, p) == (p == left || body_owns(env, l, h, p)));
        assert(owns(env, right, h, p) == (p == right || body_owns(env, r, h, p)));
    }
    lemma_merged_snug(
        env,
        other,
        gone,
        gone_after,
        a,
        left,
        right,
        b,
        h,
        left_slot,
        Some(right_slot),
        links,
    );
    assert forall|edge: bool| #[trigger] branching_pair(env, a, l, r, b, h, edge) implies
        branching_run(other, links, h, edge) by {
        let last = edge && b.len() == 0;
        lemma_branching_built(other, d, low, h, false);
        lemma_branching_built(other, e, high, h, last);
        if branching_body(other, node, h, last) {
            lemma_branching_halves(other, node, low, high, h, last);
        }
        lemma_merged_branching(
            env,
            other,
            gone,
            gone_after,
            a,
            left,
            right,
            b,
            h,
            left_slot,
            Some(right_slot),
            node,
            run,
            edge,
        );
    }
}

/// Both halves of a split node branch where the node does.
proof fn lemma_branching_halves(
    env: Env,
    node: Node,
    low: Node,
    high: Node,
    h: nat,
    edge: bool,
)
    requires
        crate::node::is_best_split(node, low, high),
        branching_body(env, node, h, edge),
    ensures
        branching_body(env, low, h, false),
        branching_body(env, high, h, edge),
        wide(low, false),
        wide(high, false),
{
    if let Node::Internal(links) = node {
        let split = choose|split: int| #[trigger]
            crate::node::best_internal_split_at(links, split) && low == Node::Internal(
                links.take(split),
            ) && high == Node::Internal(links.skip(split));
        assert(links =~= links.take(split) + links.skip(split));
        lemma_branching_add(env, links.take(split), links.skip(split), (h - 1) as nat, edge);
    }
}

// ---------------------------------------------------------------------------
// Runs with a child that has lost an entry
// ---------------------------------------------------------------------------

/// Whether a run is well formed, except that the child at `index` may be a tree in memory
/// that has become empty.
#[verifier::opaque]
pub open spec fn loose_run(env: Env, links: Seq<Link>, h: nat, index: int) -> bool {
    let a = links.take(index);
    let c = links[index].page;
    let b = links.skip(index + 1);
    &&& 0 <= index < links.len()
    &&& run_ok(env, a, h)
    &&& run_ok(env, b, h)
    &&& keyed(env, a, h, 0)
    &&& keyed(env, b, h, 0)
    &&& subtree(env, c, h) || hollow(env, c, h)
    &&& flat(env, c, h).len() > 0 ==> links[index].key == flat(env, c, h)[0].key
    &&& flat(env, c, h).len() == 0 ==> links.len() > 1
    &&& forall|p: PageRef| !(#[trigger] run_owns(env, a, h, p) && run_owns(env, b, h, p))
    &&& forall|p: PageRef| !(#[trigger] run_owns(env, a, h, p) && owns(env, c, h, p))
    &&& forall|p: PageRef| !(#[trigger] run_owns(env, b, h, p) && owns(env, c, h, p))
}

/// The entries below a loose run.
pub open spec fn loose_flat(env: Env, links: Seq<Link>, h: nat, index: int) -> Seq<Entry> {
    flat_all(env, links.take(index), h) + flat(env, links[index].page, h) + flat_all(
        env,
        links.skip(index + 1),
        h,
    )
}

/// What belongs to a loose run.
pub open spec fn loose_owns(env: Env, links: Seq<Link>, h: nat, index: int, p: PageRef) -> bool {
    run_owns(env, links.take(index), h, p) || owns(env, links[index].page, h, p) || run_owns(
        env,
        links.skip(index + 1),
        h,
        p,
    )
}

/// Whether every node in memory below a loose run fits into a page.
pub open spec fn snug_loose(env: Env, links: Seq<Link>, h: nat, index: int) -> bool {
    forall|slot: usize| #[trigger]
        loose_owns(env, links, h, index, PageRef::Dirty(slot)) ==> node_size(
            node_at(env, PageRef::Dirty(slot))->0,
        ) <= PAGE_END
}

/// Whether every node in memory below a loose run fits into a page, but for the child at
/// `index` itself.
pub open spec fn snug_around(env: Env, links: Seq<Link>, h: nat, index: int) -> bool {
    forall|slot: usize| #[trigger]
        loose_owns(env, links, h, index, PageRef::Dirty(slot)) && PageRef::Dirty(slot)
            != links[index].page ==> node_size(node_at(env, PageRef::Dirty(slot))->0) <= PAGE_END
}

/// Whether the children of a loose run branch, but for the one at `index`, whose own
/// children do.
pub open spec fn branching_loose(
    env: Env,
    links: Seq<Link>,
    h: nat,
    index: int,
    edge: bool,
) -> bool {
    &&& links.len() > 1 || edge
    &&& branching_around(
        env,
        links.take(index),
        opened(env, links[index].page, h),
        links.skip(index + 1),
        h,
        edge,
    )
}

/// Whether a run has taken the place of a loose one.
#[verifier::opaque]
pub open spec fn tightened(
    env: Env,
    other: Env,
    gone: Set<u64>,
    gone_after: Set<u64>,
    links: Seq<Link>,
    index: int,
    h: nat,
    after: Seq<Link>,
) -> bool {
    &&& after.len() > 0
    &&& internal_size(after) <= internal_size(links) + SLOT_SIZE + 2 * MAX_KEY_SIZE
    &&& snug_loose(env, links, h, index) ==> snug_run(other, after, h)
    &&& forall|edge: bool| #[trigger]
        branching_loose(env, links, h, index, edge) ==> branching_run(other, after, h, edge)
    &&& run_ok(other, after, h)
    &&& keyed(other, after, h, 0)
    &&& flat_all(other, after, h) == loose_flat(env, links, h, index)
    &&& changed_in(env, other, Set::new(|p: PageRef| loose_owns(env, links, h, index, p)))
    &&& forall|p: PageRef| #[trigger]
        run_owns(other, after, h, p) ==> loose_owns(env, links, h, index, p) || is_fresh(env, p)
    &&& forall|id: u64| #[trigger]
        gone_after.contains(id) == (gone.contains(id) || (loose_owns(
            env,
            links,
            h,
            index,
            PageRef::Committed(id),
        ) && !run_owns(other, after, h, PageRef::Committed(id))))
}

/// A loose run whose child is not empty is a run.
proof fn lemma_loose_whole(env: Env, links: Seq<Link>, h: nat, index: int)
    requires
        loose_run(env, links, h, index),
        flat(env, links[index].page, h).len() > 0,
    ensures
        run_ok(env, links, h),
        keyed(env, links, h, 0),
        flat_all(env, links, h) == loose_flat(env, links, h, index),
        forall|p: PageRef| #[trigger]
            run_owns(env, links, h, p) == loose_owns(env, links, h, index, p),
{
    reveal(loose_run);
    let a = links.take(index);
    let b = links.skip(index + 1);
    let one = seq![links[index]];
    if hollow(env, links[index].page, h) {
        lemma_hollow_flat(env, links[index].page, h);
    }
    lemma_run_one(env, links[index], h);
    assert forall|p: PageRef| !(#[trigger] run_owns(env, a, h, p) && run_owns(env, one, h, p)) by {
        assert(run_owns(env, one, h, p) == owns(env, links[index].page, h, p));
    }
    lemma_run_join(env, a, one, h);
    assert forall|p: PageRef|
        !(#[trigger] run_owns(env, a + one, h, p) && run_owns(env, b, h, p)) by {
        assert(run_owns(env, a + one, h, p) == (run_owns(env, a, h, p) || run_owns(env, one, h, p)));
        assert(run_owns(env, one, h, p) == owns(env, links[index].page, h, p));
        assert(!(run_owns(env, a, h, p) && run_owns(env, b, h, p)));
        assert(!(run_owns(env, b, h, p) && owns(env, links[index].page, h, p)));
    }
    lemma_run_join(env, a + one, b, h);
    assert(a + one + b =~= links);
    assert forall|p: PageRef| #[trigger]
        run_owns(env, links, h, p) == loose_owns(env, links, h, index, p) by {
        assert(run_owns(env, a + one, h, p) == (run_owns(env, a, h, p) || run_owns(env, one, h, p)));
        assert(run_owns(env, one, h, p) == owns(env, links[index].page, h, p));
    }
}

/// A loose run stays as it is.
proof fn lemma_tightened_same(env: Env, gone: Set<u64>, links: Seq<Link>, index: int, h: nat)
    requires
        loose_run(env, links, h, index),
        flat(env, links[index].page, h).len() > 0,
        links.len() > 1 ==> wide(opened(env, links[index].page, h), false),
    ensures
        tightened(env, env, gone, gone, links, index, h, links),
{
    reveal(tightened);
    lemma_loose_whole(env, links, h, index);
    reveal(loose_run);
    assert forall|edge: bool| #[trigger] branching_loose(env, links, h, index, edge) implies
        branching_run(env, links, h, edge) by {
        let a = links.take(index);
        let b = links.skip(index + 1);
        let one = seq![links[index]];
        let last = edge && b.len() == 0;
        if hollow(env, links[index].page, h) {
            lemma_hollow_flat(env, links[index].page, h);
        }
        lemma_branching_opened(env, links[index].page, h, last);
        assert(wide(opened(env, links[index].page, h), last)) by {
            reveal(subtree);
        }
        lemma_branching_add(env, a, one, h, last);
        lemma_branching_add(env, a + one, b, h, edge);
        assert(links =~= a + one + b);
    }
}

/// What the neighbours that are to be merged, and the children around them, share: no
/// page.
proof fn lemma_loose_apart(env: Env, links: Seq<Link>, h: nat, index: int, left: int, p: PageRef)
    requires
        loose_run(env, links, h, index),
        links.len() > 1,
        left == if index > 0 {
            index - 1
        } else {
            index
        },
    ensures
        ({
            let a = run_owns(env, links.take(left), h, p);
            let l = owns(env, links[left].page, h, p);
            let r = owns(env, links[left + 1].page, h, p);
            let b = run_owns(env, links.skip(left + 2), h, p);
            &&& loose_owns(env, links, h, index, p) == (a || l || r || b)
            &&& !(a && b) && !(l && r) && !(a && l) && !(a && r) && !(b && l) && !(b && r)
        }),
{
    reveal(loose_run);
    let a = links.take(index);
    let b = links.skip(index + 1);
    assert(!(run_owns(env, a, h, p) && run_owns(env, b, h, p)));
    assert(!(run_owns(env, a, h, p) && owns(env, links[index].page, h, p)));
    assert(!(run_owns(env, b, h, p) && owns(env, links[index].page, h, p)));
    if index > 0 {
        let n = index - 1;
        lemma_run_cut(env, a, h, n);
        assert(a.take(n) =~= links.take(n));
        assert(a.skip(n) =~= seq![links[n]]);
        lemma_run_child(env, a, h, n);
        assert(a[n] == links[n]);
        lemma_run_one(env, links[n], h);
        assert(links.skip(left + 2) =~= b);
        assert(run_owns(env, seq![links[n]], h, p) == owns(env, links[n].page, h, p));
        assert(run_owns(env, a, h, p) == (run_owns(env, a.take(n), h, p) || run_owns(
            env,
            a.skip(n),
            h,
            p,
        )));
        assert(!(run_owns(env, a.take(n), h, p) && run_owns(env, a.skip(n), h, p)));
    } else {
        lemma_run_cut(env, b, h, 1);
        assert(b.take(1) =~= seq![links[1]]);
        assert(b.skip(1) =~= links.skip(2));
        lemma_run_child(env, b, h, 0);
        assert(b[0] == links[1]);
        lemma_run_one(env, links[1], h);
        assert(links.take(left) =~= a);
        assert(run_owns(env, seq![links[1]], h, p) == owns(env, links[1].page, h, p));
        assert(run_owns(env, b, h, p) == (run_owns(env, b.take(1), h, p) || run_owns(
            env,
            b.skip(1),
            h,
            p,
        )));
        assert(!(run_owns(env, b.take(1), h, p) && run_owns(env, b.skip(1), h, p)));
    }
}

/// A loose run with more than one child has a pair of neighbours to merge.
proof fn lemma_loose_pair(env: Env, links: Seq<Link>, h: nat, index: int, left: int)
    requires
        loose_run(env, links, h, index),
        subtree(env, links[index].page, h),
        links.len() > 1,
        left == if index > 0 {
            index - 1
        } else {
            index
        },
    ensures
        neighbours(
            env,
            links.take(left),
            links[left].page,
            links[left + 1].page,
            links.skip(left + 2),
            h,
        ),
        flat_all(env, links.take(left), h) + flat(env, links[left].page, h) + flat(
            env,
            links[left + 1].page,
            h,
        ) + flat_all(env, links.skip(left + 2), h) == loose_flat(env, links, h, index),
        forall|p: PageRef| #[trigger]
            loose_owns(env, links, h, index, p) == (run_owns(env, links.take(left), h, p) || owns(
                env,
                links[left].page,
                h,
                p,
            ) || owns(env, links[left + 1].page, h, p) || run_owns(
                env,
                links.skip(left + 2),
                h,
                p,
            )),
        subtree(env, links[left].page, h),
        subtree(env, links[left + 1].page, h),
{
    reveal(loose_run);
    let a = links.take(index);
    let b = links.skip(index + 1);
    let x = links.take(left);
    let l = links[left].page;
    let r = links[left + 1].page;
    let y = links.skip(left + 2);
    if index > 0 {
        let n = index - 1;
        lemma_run_cut(env, a, h, n);
        assert(a.take(n) =~= links.take(n));
        assert(a.skip(n) =~= seq![links[n]]);
        lemma_run_child(env, a, h, n);
        assert(a[n] == links[n]);
        lemma_flat_all_one(env, links[n], h);
        assert(y =~= b);
    } else {
        lemma_run_cut(env, b, h, 1);
        assert(b.take(1) =~= seq![links[1]]);
        assert(b.skip(1) =~= links.skip(2));
        lemma_run_child(env, b, h, 0);
        assert(b[0] == links[1]);
        lemma_flat_all_one(env, links[1], h);
        assert(x =~= a);
        assert(flat_all(env, a, h) + flat(env, links[0].page, h) + flat(env, links[1].page, h)
            + flat_all(env, links.skip(2), h) =~= flat_all(env, a, h) + flat(env, links[0].page, h)
            + (flat(env, links[1].page, h) + flat_all(env, links.skip(2), h)));
    }
    assert forall|p: PageRef| #[trigger] loose_owns(env, links, h, index, p) == (run_owns(
        env,
        x,
        h,
        p,
    ) || owns(env, l, h, p) || owns(env, r, h, p) || run_owns(env, y, h, p)) by {
        lemma_loose_apart(env, links, h, index, left, p);
    }
    assert(neighbours(env, x, l, r, y, h)) by {
        reveal(neighbours);
        assert forall|p: PageRef| !(#[trigger] run_owns(env, x, h, p) && run_owns(env, y, h, p)) by {
            lemma_loose_apart(env, links, h, index, left, p);
        }
        assert forall|p: PageRef| !(#[trigger] owns(env, l, h, p) && owns(env, r, h, p)) by {
            lemma_loose_apart(env, links, h, index, left, p);
        }
        assert forall|p: PageRef| !(#[trigger] run_owns(env, x, h, p) && owns(env, l, h, p)) by {
            lemma_loose_apart(env, links, h, index, left, p);
        }
        assert forall|p: PageRef| !(#[trigger] run_owns(env, x, h, p) && owns(env, r, h, p)) by {
            lemma_loose_apart(env, links, h, index, left, p);
        }
        assert forall|p: PageRef| !(#[trigger] run_owns(env, y, h, p) && owns(env, l, h, p)) by {
            lemma_loose_apart(env, links, h, index, left, p);
        }
        assert forall|p: PageRef| !(#[trigger] run_owns(env, y, h, p) && owns(env, r, h, p)) by {
            lemma_loose_apart(env, links, h, index, left, p);
        }
    }
}

/// A merge makes a run of a loose one.
proof fn lemma_tightened_merged(
    env: Env,
    other: Env,
    gone: Set<u64>,
    gone_after: Set<u64>,
    links: Seq<Link>,
    index: int,
    left: int,
    h: nat,
    after: Seq<Link>,
)
    requires
        loose_run(env, links, h, index),
        subtree(env, links[index].page, h),
        links.len() > 1,
        left == if index > 0 {
            index - 1
        } else {
            index
        },
        0 < after.len() <= links.len(),
        internal_size(after) <= internal_size(links) + 2 * MAX_KEY_SIZE,
        merged(
            env,
            other,
            gone,
            gone_after,
            links.take(left),
            links[left].page,
            links[left + 1].page,
            links.skip(left + 2),
            h,
            after,
        ),
    ensures
        tightened(env, other, gone, gone_after, links, index, h, after),
{
    reveal(merged);
    reveal(tightened);
    lemma_loose_pair(env, links, h, index, left);
    let l = links[left].page;
    let r = links[left + 1].page;
    let all = Set::new(|p: PageRef| loose_owns(env, links, h, index, p));
    assert forall|slot: int|
        0 <= slot < env.dirty.len() && !all.contains(PageRef::Dirty(slot as usize)) implies
        #[trigger] other.dirty[slot] == env.dirty[slot] by {
        let p = PageRef::Dirty(slot as usize);
        assert(!loose_owns(env, links, h, index, p));
        assert(!owned(env, l, h).union(owned(env, r, h)).contains(p));
    }
    assert forall|id: u64| #[trigger]
        gone_after.contains(id) == (gone.contains(id) || (loose_owns(
            env,
            links,
            h,
            index,
            PageRef::Committed(id),
        ) && !run_owns(other, after, h, PageRef::Committed(id)))) by {
        let p = PageRef::Committed(id);
        assert(run_owns(env, links.take(left), h, p) || run_owns(env, links.skip(left + 2), h, p)
            ==> run_owns(other, after, h, p));
    }
    if snug_loose(env, links, h, index) {
        let a = links.take(left);
        let b = links.skip(left + 2);
        assert forall|s: usize|
            run_owns(env, a, h, PageRef::Dirty(s)) || owns(env, l, h, PageRef::Dirty(s)) || owns(
                env,
                r,
                h,
                PageRef::Dirty(s),
            ) || run_owns(env, b, h, PageRef::Dirty(s)) implies node_size(
            #[trigger] node_at(env, PageRef::Dirty(s))->0,
        ) <= PAGE_END by {
            assert(loose_owns(env, links, h, index, PageRef::Dirty(s)));
        }
        assert(snug_run(env, a, h) && snug(env, l, h) && snug(env, r, h) && snug_run(env, b, h));
    }
    assert forall|edge: bool| #[trigger] branching_loose(env, links, h, index, edge) implies
        branching_run(other, after, h, edge) by {
        let a = links.take(left);
        let b = links.skip(left + 2);
        assert(0 <= index < links.len()) by {
            reveal(loose_run);
        }
        if index > 0 {
            let one = seq![links[left]];
            assert(links.take(index) =~= a + one);
            lemma_branching_add(env, a, one, h, false);
            assert(one[0] == links[left]);
            assert(branching(env, l, h, false && 0 == one.len() - 1));
            lemma_branching_opened(env, l, h, false);
            assert(links.skip(index + 1) =~= b);
        } else {
            let one = seq![links[left + 1]];
            assert(links.skip(index + 1) =~= one + b);
            lemma_branching_add(env, one, b, h, edge);
            assert(one[0] == links[left + 1]);
            assert(branching(env, r, h, edge && b.len() == 0 && 0 == one.len() - 1));
            lemma_branching_opened(env, r, h, edge && b.len() == 0);
            assert(links.take(index) =~= a);
        }
        assert(branching_pair(env, a, opened(env, l, h), opened(env, r, h), b, h, edge));
    }
}

/// A node grows by the keys of two children at most when two children are replaced.
proof fn lemma_pair_replaced(links: Seq<Link>, left: int, run: Seq<Link>)
    requires
        0 <= left,
        left + 2 <= links.len(),
        1 <= run.len() <= 2,
        keys_fit(run),
    ensures
        internal_size(links.take(left) + run + links.skip(left + 2)) <= internal_size(links) + 2
            * MAX_KEY_SIZE,
{
    let a = links.take(left);
    let b = links.skip(left + 2);
    let after = a + run + b;
    let pair = links.subrange(left, left + 2);
    assert(links =~= a + pair + b);
    lemma_short_keys(run);
    crate::node::lemma_key_bytes_add(run, b);
    if left == 0 {
        assert(after.skip(1) =~= run.skip(1) + b);
        assert(links.skip(1) =~= pair.skip(1) + b);
        crate::node::lemma_key_bytes_add(run.skip(1), b);
        crate::node::lemma_key_bytes_add(pair.skip(1), b);
        assert(keys_fit(run.skip(1))) by {
            assert(forall|k: int| 0 <= k < run.len() - 1 ==> run.skip(1)[k] == run[k + 1]);
        }
        lemma_short_keys(run.skip(1));
    } else {
        assert(after.skip(1) =~= a.skip(1) + (run + b));
        assert(links.skip(1) =~= a.skip(1) + (pair + b));
        crate::node::lemma_key_bytes_add(a.skip(1), run + b);
        crate::node::lemma_key_bytes_add(a.skip(1), pair + b);
        crate::node::lemma_key_bytes_add(pair, b);
    }
}

proof fn lemma_short_keys(run: Seq<Link>)
    requires
        run.len() <= 2,
        keys_fit(run),
    ensures
        crate::node::key_bytes(run) <= 2 * MAX_KEY_SIZE,
{
    reveal_with_fuel(crate::node::key_bytes, 3);
    if run.len() > 0 {
        assert(run.last() == run[run.len() - 1]);
        if run.len() > 1 {
            assert(run.drop_last().last() == run[0]);
        }
    }
}

/// Whether the pages of two neighbours have not been left behind.
spec fn pair_present(env: Env, gone: Set<u64>, left: PageRef, right: PageRef, h: nat) -> bool {
    forall|id: u64|
        #![trigger owns(env, left, h, PageRef::Committed(id))]
        #![trigger owns(env, right, h, PageRef::Committed(id))]
        owns(env, left, h, PageRef::Committed(id)) || owns(env, right, h, PageRef::Committed(id))
            ==> !gone.contains(id)
}

impl MutableTree {
    /// Replaces two neighbours by one node.
    fn merge_pair<R: PageReader>(
        &mut self,
        reader: &mut R,
        children: &mut Vec<Child>,
        left_index: usize,
        combined: MutableNode,
        depth: usize,
        Ghost(h): Ghost<nat>,
    ) -> (result: Result<()>)
        requires
            old(reader).usable(),
            old(self).inv(),
            depth <= MAX_DEPTH,
            left_index + 1 < old(children)@.len(),
            keys_fit(links_of(old(children)@)),
            sturdy(combined@),
            node_size(combined@) <= PAGE_END,
        ensures
            final(reader).usable(),
            final(reader).origin() == old(reader).origin(),
            old(reader).failures() <= final(reader).failures(),
            hoards(*old(reader), *final(reader)),
            honest(
                result,
                old(reader).failures(),
                final(reader).failures(),
                final(reader).reported(),
                incomplete(old(reader).pages(), old(self).page_count),
            ),
            final(reader).pages() == old(reader).pages(),
            ({
                let pages = old(reader).pages();
                let env = old(self).env(pages);
                let links = links_of(old(children)@);
                let l = links[left_index as int].page;
                let r = links[left_index + 1].page;
                let a = links.take(left_index as int);
                let b = links.skip(left_index + 2);
                let good = neighbours(env, a, l, r, b, h) && pair_present(
                    env,
                    old(self).retired@,
                    l,
                    r,
                    h,
                ) && combined@ == joined(opened(env, l, h), opened(env, r, h));
                match result {
                    Ok(_) => {
                        &&& final(self).inv()
                        &&& same_but_opened(*old(self), *final(self))
                        &&& final(self).dirty@.len() >= old(self).dirty@.len()
                        &&& final(children)@.len() == old(children)@.len() - 1
                        &&& keys_fit(links_of(final(children)@))
                        &&& internal_size(links_of(final(children)@)) <= internal_size(links) + 2
                            * MAX_KEY_SIZE
                        &&& good ==> merged(
                            env,
                            final(self).env(pages),
                            old(self).retired@,
                            final(self).retired@,
                            a,
                            l,
                            r,
                            b,
                            h,
                            links_of(final(children)@),
                        )
                        &&& good ==> {
                            let after = links_of(final(children)@);
                            &&& around(links, left_index as int, 2, after, 1)
                            &&& node_at(final(self).env(pages), after[left_index as int].page)
                                == Some(combined@)
                            &&& keeps_slots(env, final(self).env(pages), links)
                        }
                    },
                    Err(error) => fails_for(
                        error,
                        !(good && depth + h < MAX_DEPTH),
                        final(reader).failures() > old(reader).failures(),
                    ),
                }
            }),
            steady(
                near_below(
                    old(self).env(old(reader).pages()),
                    links_of(old(children)@)[left_index as int].page,
                    h,
                    old(reader).at_hand(),
                ),
                old(reader).at_hand(),
                final(reader).at_hand(),
                result,
            ),
    {
        broadcast use vstd::std_specs::hash::group_hash_axioms;

        let ghost pages = reader.pages();
        let ghost env = self.env(pages);
        let ghost gone = self.retired@;
        let ghost links = links_of(children@);
        assert(children@.len() == children.len());
        let left_page = children[left_index].page;
        let right_page = children[left_index + 1].page;
        let ghost a = links.take(left_index as int);
        let ghost b = links.skip(left_index + 2);
        let ghost node = combined@;
        let ghost good = neighbours(env, a, left_page, right_page, b, h) && pair_present(
            env,
            gone,
            left_page,
            right_page,
            h,
        ) && node == joined(opened(env, left_page, h), opened(env, right_page, h));
        proof {
            assert(links[left_index as int] == children@[left_index as int]@);
            assert(links[left_index + 1] == children@[left_index + 1]@);
            lemma_owns_root(env, left_page, h);
            lemma_owns_root(env, right_page, h);
            if good {
                reveal(neighbours);
                lemma_owned_slots(env, left_page, h, left_page);
                if depth + h < MAX_DEPTH {
                    assert(sits(env, left_page, depth as nat));
                }
            }
        }
        let slot = self.ensure_dirty(reader, left_page, depth)?;
        assert(arena(self.dirty@).len() == self.dirty@.len());
        self.put_dirty(slot, combined)?;
        if let PageRef::Committed(page_id) = right_page {
            self.retired.insert(page_id);
        }
        let ghost other = self.env(pages);
        proof {
            if good {
                assert(pair_opened(
                    env,
                    other,
                    gone,
                    self.retired@,
                    left_page,
                    right_page,
                    slot,
                    None,
                ));
                lemma_merged_heads(
                    env,
                    other,
                    gone,
                    self.retired@,
                    a,
                    left_page,
                    right_page,
                    b,
                    h,
                    slot,
                    node,
                );
                if depth + h < MAX_DEPTH {
                    assert(sits(other, PageRef::Dirty(slot), depth as nat));
                }
            }
        }
        let first_key = self.first_key(reader, PageRef::Dirty(slot), depth)?;
        let ghost link = Link { key: first_key@, page: PageRef::Dirty(slot) };
        proof {
            if good {
                lemma_merge_one(
                    env,
                    other,
                    gone,
                    self.retired@,
                    a,
                    left_page,
                    right_page,
                    b,
                    h,
                    slot,
                    node,
                    first_key@,
                );
            }
        }
        children.set(left_index, Child { first_key, page: PageRef::Dirty(slot) });
        children.remove(left_index + 1);
        proof {
            let after = links_of(children@);
            let run = seq![link];
            assert(after =~= a + run + b);
            assert(after.take(left_index as int) =~= a);
            assert(after.skip(left_index + 1) =~= b);
            if good {
                assert(keeps_slots(env, self.env(pages), links)) by {
                    assert forall|s: usize|
                        s < env.dirty.len() && (forall|k: int|
                            0 <= k < links.len() ==> (#[trigger] links[k]).page
                                != PageRef::Dirty(s)) implies #[trigger] node_at(
                        self.env(pages),
                        PageRef::Dirty(s),
                    ) == node_at(env, PageRef::Dirty(s)) by {
                        assert(links[left_index as int].page != PageRef::Dirty(s));
                        assert(other.dirty[s as int] == env.dirty[s as int]);
                    }
                }
            }
            assert(keys_fit(run));
            lemma_pair_replaced(links, left_index as int, run);
            assert forall|k: int| 0 <= k < after.len() implies (#[trigger] after[k]).key.len()
                <= MAX_KEY_SIZE by {
                if k < left_index {
                    assert(after[k] == links[k]);
                } else if k > left_index {
                    assert(after[k] == links[k + 1]);
                }
            }
        }
        Ok(())
    }

    /// Makes sure that two neighbours are in memory, and finds their slots.
    fn open_pair<R: PageReader>(
        &mut self,
        reader: &mut R,
        left_page: PageRef,
        right_page: PageRef,
        depth: usize,
        Ghost(a): Ghost<Seq<Link>>,
        Ghost(b): Ghost<Seq<Link>>,
        Ghost(h): Ghost<nat>,
    ) -> (result: Result<(usize, usize)>)
        requires
            old(reader).usable(),
            old(self).inv(),
            depth <= MAX_DEPTH,
        ensures
            final(reader).usable(),
            final(reader).origin() == old(reader).origin(),
            old(reader).failures() <= final(reader).failures(),
            hoards(*old(reader), *final(reader)),
            honest(
                result,
                old(reader).failures(),
                final(reader).failures(),
                final(reader).reported(),
                incomplete(old(reader).pages(), old(self).page_count),
            ),
            final(reader).pages() == old(reader).pages(),
            final(self).inv(),
            same_but_opened(*old(self), *final(self)),
            final(self).dirty@.len() >= old(self).dirty@.len(),
            ({
                let pages = old(reader).pages();
                let env = old(self).env(pages);
                let good = neighbours(env, a, left_page, right_page, b, h) && pair_present(
                    env,
                    old(self).retired@,
                    left_page,
                    right_page,
                    h,
                );
                match result {
                    Ok((left_slot, right_slot)) => good ==> pair_opened(
                        env,
                        final(self).env(pages),
                        old(self).retired@,
                        final(self).retired@,
                        left_page,
                        right_page,
                        left_slot,
                        Some(right_slot),
                    ),
                    Err(error) => fails_for(
                        error,
                        !(good && depth + h < MAX_DEPTH),
                        final(reader).failures() > old(reader).failures(),
                    ),
                }
            }),
            ({
                let env = old(self).env(old(reader).pages());
                neighbours(env, a, left_page, right_page, b, h) && pair_present(
                    env,
                    old(self).retired@,
                    left_page,
                    right_page,
                    h,
                ) ==> steady(
                    near_below(env, left_page, h, old(reader).at_hand()) && near_below(
                        env,
                        right_page,
                        h,
                        old(reader).at_hand(),
                    ),
                    old(reader).at_hand(),
                    final(reader).at_hand(),
                    result,
                )
            }),
    {
        let ghost pages = reader.pages();
        let ghost env = self.env(pages);
        let ghost gone = self.retired@;
        let ghost good = neighbours(env, a, left_page, right_page, b, h) && pair_present(
            env,
            gone,
            left_page,
            right_page,
            h,
        );
        proof {
            lemma_owns_root(env, left_page, h);
            lemma_owns_root(env, right_page, h);
            if good {
                reveal(neighbours);
                lemma_owned_slots(env, left_page, h, left_page);
                lemma_owned_slots(env, right_page, h, right_page);
                assert(left_page != right_page);
                if depth + h < MAX_DEPTH {
                    assert(sits(env, left_page, depth as nat));
                }
            }
        }
        let left_slot = self.ensure_dirty(reader, left_page, depth)?;
        proof {
            assert(arena(self.dirty@).len() == self.dirty@.len());
            if good {
                let mid = self.env(pages);
                assert forall|p: PageRef| #[trigger] owns(env, right_page, h, p) implies
                    crate::model::same_at(env, mid, p) by {
                    lemma_owned_slots(env, right_page, h, p);
                }
                crate::model::lemma_tree_kept(env, mid, right_page, h);
                if near_below(env, right_page, h, old(reader).at_hand()) {
                    assert(near_below(mid, right_page, h, old(reader).at_hand()));
                }
                if depth + h < MAX_DEPTH {
                    assert(sits(mid, right_page, depth as nat));
                }
            }
        }
        let right_slot = self.ensure_dirty(reader, right_page, depth)?;
        assert(arena(self.dirty@).len() == self.dirty@.len());
        Ok((left_slot, right_slot))
    }

    /// Replaces two neighbours by the two halves of what they hold.
    fn divide_pair<R: PageReader>(
        &mut self,
        reader: &mut R,
        children: &mut Vec<Child>,
        left_index: usize,
        low: MutableNode,
        high: MutableNode,
        depth: usize,
        Ghost(h): Ghost<nat>,
    ) -> (result: Result<()>)
        requires
            old(reader).usable(),
            old(self).inv(),
            depth <= MAX_DEPTH,
            left_index + 1 < old(children)@.len(),
            keys_fit(links_of(old(children)@)),
            sturdy(low@),
            sturdy(high@),
        ensures
            final(reader).usable(),
            final(reader).origin() == old(reader).origin(),
            old(reader).failures() <= final(reader).failures(),
            hoards(*old(reader), *final(reader)),
            honest(
                result,
                old(reader).failures(),
                final(reader).failures(),
                final(reader).reported(),
                incomplete(old(reader).pages(), old(self).page_count),
            ),
            final(reader).pages() == old(reader).pages(),
            ({
                let pages = old(reader).pages();
                let env = old(self).env(pages);
                let links = links_of(old(children)@);
                let l = links[left_index as int].page;
                let r = links[left_index + 1].page;
                let a = links.take(left_index as int);
                let b = links.skip(left_index + 2);
                let good = neighbours(env, a, l, r, b, h) && pair_present(
                    env,
                    old(self).retired@,
                    l,
                    r,
                    h,
                ) && crate::node::is_best_split(
                    joined(opened(env, l, h), opened(env, r, h)),
                    low@,
                    high@,
                );
                match result {
                    Ok(_) => {
                        &&& final(self).inv()
                        &&& same_but_opened(*old(self), *final(self))
                        &&& final(self).dirty@.len() >= old(self).dirty@.len()
                        &&& final(children)@.len() == old(children)@.len()
                        &&& keys_fit(links_of(final(children)@))
                        &&& internal_size(links_of(final(children)@)) <= internal_size(links) + 2
                            * MAX_KEY_SIZE
                        &&& good ==> merged(
                            env,
                            final(self).env(pages),
                            old(self).retired@,
                            final(self).retired@,
                            a,
                            l,
                            r,
                            b,
                            h,
                            links_of(final(children)@),
                        )
                        &&& good ==> {
                            let after = links_of(final(children)@);
                            &&& around(links, left_index as int, 2, after, 2)
                            &&& node_at(final(self).env(pages), after[left_index as int].page)
                                == Some(low@)
                            &&& node_at(final(self).env(pages), after[left_index + 1].page) == Some(
                                high@,
                            )
                            &&& keeps_slots(env, final(self).env(pages), links)
                        }
                    },
                    Err(error) => fails_for(
                        error,
                        !(good && depth + h < MAX_DEPTH),
                        final(reader).failures() > old(reader).failures(),
                    ),
                }
            }),
            ({
                let env = old(self).env(old(reader).pages());
                let links = links_of(old(children)@);
                let l = links[left_index as int].page;
                let r = links[left_index + 1].page;
                neighbours(
                    env,
                    links.take(left_index as int),
                    l,
                    r,
                    links.skip(left_index + 2),
                    h,
                ) && pair_present(env, old(self).retired@, l, r, h) ==> steady(
                    near_below(env, l, h, old(reader).at_hand()) && near_below(
                        env,
                        r,
                        h,
                        old(reader).at_hand(),
                    ),
                    old(reader).at_hand(),
                    final(reader).at_hand(),
                    result,
                )
            }),
    {
        let ghost pages = reader.pages();
        let ghost env = self.env(pages);
        let ghost gone = self.retired@;
        let ghost links = links_of(children@);
        assert(children@.len() == children.len());
        let left_page = children[left_index].page;
        let right_page = children[left_index + 1].page;
        let ghost a = links.take(left_index as int);
        let ghost b = links.skip(left_index + 2);
        let ghost node = joined(opened(env, left_page, h), opened(env, right_page, h));
        let ghost low_view = low@;
        let ghost high_view = high@;
        let ghost good = neighbours(env, a, left_page, right_page, b, h) && pair_present(
            env,
            gone,
            left_page,
            right_page,
            h,
        ) && crate::node::is_best_split(node, low_view, high_view);
        proof {
            assert(links[left_index as int] == children@[left_index as int]@);
            assert(links[left_index + 1] == children@[left_index + 1]@);
        }
        let (left_slot, right_slot) = self.open_pair(
            reader,
            left_page,
            right_page,
            depth,
            Ghost(a),
            Ghost(b),
            Ghost(h),
        )?;
        self.put_dirty(left_slot, low)?;
        self.put_dirty(right_slot, high)?;
        let ghost other = self.env(pages);
        proof {
            if good {
                assert(pair_opened(
                    env,
                    other,
                    gone,
                    self.retired@,
                    left_page,
                    right_page,
                    left_slot,
                    Some(right_slot),
                ));
                lemma_divided_heads(
                    env,
                    other,
                    gone,
                    self.retired@,
                    a,
                    left_page,
                    right_page,
                    b,
                    h,
                    left_slot,
                    right_slot,
                    low_view,
                    high_view,
                );
                if depth + h < MAX_DEPTH {
                    assert(sits(other, PageRef::Dirty(left_slot), depth as nat));
                    assert(sits(other, PageRef::Dirty(right_slot), depth as nat));
                }
            }
        }
        let left_key = self.first_key(reader, PageRef::Dirty(left_slot), depth)?;
        let right_key = self.first_key(reader, PageRef::Dirty(right_slot), depth)?;
        let ghost run = seq![
            Link { key: left_key@, page: PageRef::Dirty(left_slot) },
            Link { key: right_key@, page: PageRef::Dirty(right_slot) },
        ];
        proof {
            if good {
                lemma_merge_two(
                    env,
                    other,
                    gone,
                    self.retired@,
                    a,
                    left_page,
                    right_page,
                    b,
                    h,
                    left_slot,
                    right_slot,
                    low_view,
                    high_view,
                    left_key@,
                    right_key@,
                );
            }
        }
        children.set(left_index, Child { first_key: left_key, page: PageRef::Dirty(left_slot) });
        children.set(
            left_index + 1,
            Child { first_key: right_key, page: PageRef::Dirty(right_slot) },
        );
        proof {
            let after = links_of(children@);
            assert(after =~= a + run + b);
            assert(after.take(left_index as int) =~= a);
            assert(after.skip(left_index + 2) =~= b);
            if good {
                assert(keeps_slots(env, self.env(pages), links)) by {
                    assert forall|s: usize|
                        s < env.dirty.len() && (forall|k: int|
                            0 <= k < links.len() ==> (#[trigger] links[k]).page
                                != PageRef::Dirty(s)) implies #[trigger] node_at(
                        self.env(pages),
                        PageRef::Dirty(s),
                    ) == node_at(env, PageRef::Dirty(s)) by {
                        assert(links[left_index as int].page != PageRef::Dirty(s));
                        assert(links[left_index + 1].page != PageRef::Dirty(s));
                        assert(other.dirty[s as int] == env.dirty[s as int]);
                    }
                }
            }
            assert(keys_fit(run));
            lemma_pair_replaced(links, left_index as int, run);
            assert forall|k: int| 0 <= k < after.len() implies (#[trigger] after[k]).key.len()
                <= MAX_KEY_SIZE by {
                if k < left_index || k > left_index + 1 {
                    assert(after[k] == links[k]);
                }
            }
        }
        Ok(())
    }
}

/// The node that two neighbours are merged into heads a tree.
proof fn lemma_merged_heads(
    env: Env,
    other: Env,
    gone: Set<u64>,
    gone_after: Set<u64>,
    a: Seq<Link>,
    left: PageRef,
    right: PageRef,
    b: Seq<Link>,
    h: nat,
    slot: usize,
    node: Node,
)
    requires
        neighbours(env, a, left, right, b, h),
        pair_opened(env, other, gone, gone_after, left, right, slot, None),
        node == joined(opened(env, left, h), opened(env, right, h)),
        node_at(other, PageRef::Dirty(slot)) == Some(node),
        node matches Node::Leaf(entries) ==> leaf_size(entries) <= PAGE_END,
    ensures
        subtree(other, PageRef::Dirty(slot), h),
{
    reveal(neighbours);
    let l = opened(env, left, h);
    let r = opened(env, right, h);
    lemma_opened_body(env, left, h);
    lemma_opened_body(env, right, h);
    assert forall|p: PageRef| !(#[trigger] body_owns(env, l, h, p) && body_owns(env, r, h, p)) by {
        assert(!(owns(env, left, h, p) && owns(env, right, h, p)));
    }
    lemma_body_join(env, l, r, h);
    lemma_body_apart(env, left, right, h, slot, node, gone, gone_after, other, None);
    lemma_body_kept(env, other, node, h);
    lemma_body_built(other, slot, node, h);
}

/// The nodes that two neighbours are divided into head trees.
proof fn lemma_divided_heads(
    env: Env,
    other: Env,
    gone: Set<u64>,
    gone_after: Set<u64>,
    a: Seq<Link>,
    left: PageRef,
    right: PageRef,
    b: Seq<Link>,
    h: nat,
    left_slot: usize,
    right_slot: usize,
    low: Node,
    high: Node,
)
    requires
        neighbours(env, a, left, right, b, h),
        pair_opened(env, other, gone, gone_after, left, right, left_slot, Some(right_slot)),
        crate::node::is_best_split(
            joined(opened(env, left, h), opened(env, right, h)),
            low,
            high,
        ),
        node_at(other, PageRef::Dirty(left_slot)) == Some(low),
        node_at(other, PageRef::Dirty(right_slot)) == Some(high),
    ensures
        subtree(other, PageRef::Dirty(left_slot), h),
        subtree(other, PageRef::Dirty(right_slot), h),
{
    reveal(neighbours);
    let l = opened(env, left, h);
    let r = opened(env, right, h);
    let node = joined(l, r);
    lemma_opened_body(env, left, h);
    lemma_opened_body(env, right, h);
    assert forall|p: PageRef| !(#[trigger] body_owns(env, l, h, p) && body_owns(env, r, h, p)) by {
        assert(!(owns(env, left, h, p) && owns(env, right, h, p)));
    }
    lemma_body_join(env, l, r, h);
    lemma_body_apart(
        env,
        left,
        right,
        h,
        left_slot,
        node,
        gone,
        gone_after,
        other,
        Some(right_slot),
    );
    lemma_body_kept(env, other, node, h);
    lemma_body_split(other, node, low, high, h);
    assert(!body_owns(other, node, h, PageRef::Dirty(left_slot)));
    assert(!body_owns(other, node, h, PageRef::Dirty(right_slot)));
    lemma_body_built(other, left_slot, low, h);
    lemma_body_built(other, right_slot, high, h);
}

/// Whether the keys and values of a node keep to the limits of the format.
spec fn contents_fit(node: Node) -> bool {
    match node {
        Node::Leaf(entries) => entries_fit(entries),
        Node::Internal(links) => links.len() > 0 && keys_fit(links),
    }
}

proof fn lemma_joined_fits(a: Node, b: Node)
    requires
        sturdy(a),
        sturdy(b),
        a is Leaf == b is Leaf,
    ensures
        contents_fit(joined(a, b)),
{
    match (a, b) {
        (Node::Leaf(left), Node::Leaf(right)) => {
            let both = left + right;
            assert forall|k: int| 0 <= k < both.len() implies crate::node::entry_fits(
                #[trigger] both[k],
            ) by {
                if k < left.len() {
                    assert(both[k] == left[k]);
                } else {
                    assert(both[k] == right[k - left.len()]);
                }
            }
        },
        (Node::Internal(left), Node::Internal(right)) => {
            let both = left + right;
            assert forall|k: int| 0 <= k < both.len() implies (#[trigger] both[k]).key.len()
                <= MAX_KEY_SIZE by {
                if k < left.len() {
                    assert(both[k] == left[k]);
                } else {
                    assert(both[k] == right[k - left.len()]);
                }
            }
        },
        _ => {},
    }
}

proof fn lemma_split_sturdy(node: Node, low: Node, high: Node)
    requires
        contents_fit(node),
        crate::node::is_best_split(node, low, high),
    ensures
        sturdy(low),
        sturdy(high),
{
    match node {
        Node::Leaf(entries) => {
            let split = choose|split: int| #[trigger]
                crate::node::best_leaf_split_at(entries, split) && low == Node::Leaf(
                    entries.take(split),
                ) && high == Node::Leaf(entries.skip(split));
            assert(forall|i: int| 0 <= i < split ==> entries.take(split)[i] == entries[i]);
            assert(forall|i: int|
                0 <= i < entries.len() - split ==> entries.skip(split)[i] == entries[i + split]);
        },
        Node::Internal(links) => {
            let split = choose|split: int| #[trigger]
                crate::node::best_internal_split_at(links, split) && low == Node::Internal(
                    links.take(split),
                ) && high == Node::Internal(links.skip(split));
            crate::graft::lemma_keys_fit_cut(links, split);
        },
    }
}

/// Whether all pages of a loose run are at hand.
pub open spec fn loose_near(env: Env, links: Seq<Link>, h: nat, index: int, hand: Set<u64>) -> bool {
    forall|id: u64| #[trigger]
        loose_owns(env, links, h, index, PageRef::Committed(id)) ==> hand.contains(id)
}

/// Whether the siblings of a child fit into pages, and the child into memory.
pub open spec fn siblings_sized(env: Env, links: Seq<Link>, index: int) -> bool {
    &&& forall|k: int|
        0 <= k < links.len() && k != index ==> crate::tree::page_sized(
            env,
            (#[trigger] links[k]).page,
        )
    &&& links[index].page is Dirty ==> node_size(node_at(env, links[index].page)->0) <= usize::MAX
}

impl MutableTree {
    /// Merges a child that has become too small with a neighbour, or divides anew what
    /// the two hold.
    fn rebalance<R: PageReader>(
        &mut self,
        reader: &mut R,
        children: &mut Vec<Child>,
        index: usize,
        depth: usize,
        Ghost(h): Ghost<nat>,
    ) -> (result: Result<()>)
        requires
            old(reader).usable(),
            old(self).inv(),
            depth <= MAX_DEPTH,
            index < old(children)@.len(),
            keys_fit(links_of(old(children)@)),
        ensures
            final(reader).usable(),
            final(reader).origin() == old(reader).origin(),
            old(reader).failures() <= final(reader).failures(),
            hoards(*old(reader), *final(reader)),
            honest(
                result,
                old(reader).failures(),
                final(reader).failures(),
                final(reader).reported(),
                incomplete(old(reader).pages(), old(self).page_count),
            ),
            final(reader).pages() == old(reader).pages(),
            ({
                let pages = old(reader).pages();
                let env = old(self).env(pages);
                let links = links_of(old(children)@);
                let good = loose_run(env, links, h, index as int) && (old(children)@.len() > 1
                    ==> subtree(env, links[index as int].page, h)) && forall|id: u64| #[trigger]
                    loose_owns(env, links, h, index as int, PageRef::Committed(id)) ==> !old(
                        self,
                    ).retired@.contains(id);
                match result {
                    Ok(_) => {
                        &&& final(self).inv()
                        &&& same_but_opened(*old(self), *final(self))
                        &&& final(self).dirty@.len() >= old(self).dirty@.len()
                        &&& final(children)@.len() > 0
                        &&& keys_fit(links_of(final(children)@))
                        &&& old(children)@.len() == 1 ==> *final(self) == *old(self)
                            && *final(children) == *old(children)
                        &&& good ==> tightened(
                            env,
                            final(self).env(pages),
                            old(self).retired@,
                            final(self).retired@,
                            links,
                            index as int,
                            h,
                            links_of(final(children)@),
                        )
                        &&& good && links[index as int].page is Dirty ==> balanced(
                            env,
                            final(self).env(pages),
                            links,
                            index as int,
                            h,
                            node_at(env, links[index as int].page)->0,
                            links_of(final(children)@),
                        )
                        &&& good ==> keeps_slots(env, final(self).env(pages), links)
                    },
                    Err(error) => {
                        &&& old(children)@.len() > 1
                        &&& fails_for(
                            error,
                            !(good && depth + h < MAX_DEPTH && siblings_sized(
                                env,
                                links,
                                index as int,
                            )),
                            final(reader).failures() > old(reader).failures(),
                        )
                    },
                }
            }),
            old(children)@.len() == 1 ==> *final(reader) == *old(reader) && result is Ok,
            ({
                let env = old(self).env(old(reader).pages());
                let links = links_of(old(children)@);
                loose_run(env, links, h, index as int) && (old(children)@.len() > 1 ==> subtree(
                    env,
                    links[index as int].page,
                    h,
                )) && (forall|id: u64| #[trigger]
                    loose_owns(env, links, h, index as int, PageRef::Committed(id)) ==> !old(
                        self,
                    ).retired@.contains(id)) ==> steady(
                    loose_near(env, links, h, index as int, old(reader).at_hand()),
                    old(reader).at_hand(),
                    final(reader).at_hand(),
                    result,
                )
            }),
    {
        let ghost pages = reader.pages();
        let ghost env = self.env(pages);
        let ghost gone = self.retired@;
        let ghost links = links_of(children@);
        let ghost at = index as int;
        let ghost good = loose_run(env, links, h, at) && (children@.len() > 1 ==> subtree(
            env,
            links[at].page,
            h,
        )) && forall|id: u64| #[trigger]
            loose_owns(env, links, h, at, PageRef::Committed(id)) ==> !gone.contains(id);
        let ghost able = good && depth + h < MAX_DEPTH && siblings_sized(env, links, at);
        proof {
            assert(links[at] == children@[at]@);
            if good {
                assert(links[at].page == children@[at].page);
                lemma_loose_child(env, links, h, at);
            }
        }
        if children.len() <= 1 {
            proof {
                if good {
                    lemma_tightened_same(env, gone, links, at, h);
                }
            }
            return Ok(());
        }
        let child_page = children[index].page;
        let ghost hand = reader.at_hand();
        let ghost near = good && loose_near(env, links, h, at, hand);
        proof {
            if able {
                assert(sits(env, child_page, 0));
            }
            if near {
                assert(near_below(env, child_page, h, hand)) by {
                    assert forall|id: u64| #[trigger]
                        owns(env, child_page, h, PageRef::Committed(id)) implies hand.contains(id) by {
                        assert(loose_owns(env, links, h, at, PageRef::Committed(id)));
                    }
                }
            }
        }
        let underfull = self.node_is_underfull(reader, child_page)?;
        if !underfull {
            proof {
                if good {
                    lemma_opened_body(env, child_page, h);
                    if let Node::Internal(inner) = opened(env, child_page, h) {
                        if inner.len() == 1 {
                            assert(inner.skip(1) =~= Seq::<Link>::empty());
                        }
                    }
                    lemma_tightened_same(env, gone, links, at, h);
                }
            }
            return Ok(());
        }
        let left_index = if index > 0 {
            index - 1
        } else {
            index
        };
        assert(children@.len() == children.len());
        let left_page = children[left_index].page;
        let right_page = children[left_index + 1].page;
        let ghost a = links.take(left_index as int);
        let ghost b = links.skip(left_index + 2);
        proof {
            assert(links[left_index as int] == children@[left_index as int]@);
            assert(links[left_index + 1] == children@[left_index + 1]@);
            if good {
                lemma_loose_pair(env, links, h, at, left_index as int);
                if depth + h < MAX_DEPTH {
                    assert(sits(env, left_page, depth as nat));
                    assert(sits(env, right_page, depth as nat));
                }
                if near {
                    assert forall|id: u64|
                        owns(env, left_page, h, PageRef::Committed(id)) || owns(
                            env,
                            right_page,
                            h,
                            PageRef::Committed(id),
                        ) implies #[trigger] hand.contains(id) by {
                        assert(loose_owns(env, links, h, at, PageRef::Committed(id)));
                    }
                    assert(near_below(env, left_page, h, hand));
                    assert(near_below(env, right_page, h, hand));
                }
            }
        }
        let left_node = self.load_node(reader, left_page, depth)?;
        let right_node = self.load_node(reader, right_page, depth)?;
        let ghost l = left_node@;
        let ghost r = right_node@;
        proof {
            if good {
                assert(l == opened(env, left_page, h) && r == opened(env, right_page, h));
                lemma_opened_body(env, left_page, h);
                lemma_opened_body(env, right_page, h);
                assert(pair_present(env, gone, left_page, right_page, h)) by {
                    assert forall|id: u64|
                        owns(env, left_page, h, PageRef::Committed(id)) || owns(
                            env,
                            right_page,
                            h,
                            PageRef::Committed(id),
                        ) implies !gone.contains(id) by {
                        assert(loose_owns(env, links, h, at, PageRef::Committed(id)));
                    }
                }
                if able {
                    assert(node_size(l) <= PAGE_END && node_size(r) <= PAGE_END);
                    if node_size(joined(l, r)) > PAGE_END {
                        lemma_joined_splits(l, r);
                    }
                }
            }
        }
        let combined = combine_nodes(left_node, right_node)?;
        proof {
            lemma_joined_fits(l, r);
        }
        let size = node_encoded_size(&combined)?;
        if size <= PAGE_END {
            let result = self.merge_pair(
                reader,
                children,
                left_index,
                combined,
                depth,
                Ghost(h),
            );
            proof {
                if result is Ok && good {
                    lemma_tightened_merged(
                        env,
                        self.env(pages),
                        gone,
                        self.retired@,
                        links,
                        at,
                        left_index as int,
                        h,
                        links_of(children@),
                    );
                }
            }
            return result;
        }
        let (low, high) = split_combined(combined)?;
        proof {
            lemma_split_sturdy(joined(l, r), low@, high@);
        }
        let result = self.divide_pair(
            reader,
            children,
            left_index,
            low,
            high,
            depth,
            Ghost(h),
        );
        proof {
            if result is Ok && good {
                lemma_tightened_merged(
                    env,
                    self.env(pages),
                    gone,
                    self.retired@,
                    links,
                    at,
                    left_index as int,
                    h,
                    links_of(children@),
                );
            }
        }
        result
    }
}

/// Only one of several children of a loose run is empty.
proof fn lemma_loose_child(env: Env, links: Seq<Link>, h: nat, index: int)
    requires
        loose_run(env, links, h, index),
    ensures
        flat(env, links[index].page, h).len() == 0 ==> links.len() > 1,
{
    reveal(loose_run);
}

/// A node shrinks when a child is taken out.
proof fn lemma_dropped_size(links: Seq<Link>, i: int)
    requires
        0 <= i < links.len(),
        links.len() > 1,
    ensures
        internal_size(links.remove(i)) <= internal_size(links),
{
    let after = links.remove(i);
    let one = seq![links[i]];
    if i == 0 {
        let rest = links.skip(2);
        let next = seq![links[1]];
        assert(after.skip(1) =~= rest);
        assert(links.skip(1) =~= next + rest);
        crate::node::lemma_key_bytes_add(next, rest);
    } else {
        let a = links.take(i).skip(1);
        let b = links.skip(i + 1);
        assert(after.skip(1) =~= a + b);
        assert(links.skip(1) =~= a + (one + b));
        crate::node::lemma_key_bytes_add(a, b);
        crate::node::lemma_key_bytes_add(a, one + b);
        crate::node::lemma_key_bytes_add(one, b);
    }
}

/// An emptied tree in memory belongs to no published page.
proof fn lemma_hollow_pages(env: Env, r: PageRef, h: nat, id: u64)
    requires
        hollow(env, r, h),
    ensures
        !owns(env, r, h, PageRef::Committed(id)),
    decreases h,
{
    reveal(owns);
    if let Some(Node::Internal(links)) = node_at(env, r) {
        lemma_hollow_pages(env, links[0].page, (h - 1) as nat, id);
        assert forall|i: int| 0 <= i < links.len() implies !owns(
            env,
            (#[trigger] links[i]).page,
            (h - 1) as nat,
            PageRef::Committed(id),
        ) by {
            assert(i == 0);
        }
    }
}

/// A child that has become empty can be taken out of a loose run.
proof fn lemma_tightened_dropped(env: Env, gone: Set<u64>, links: Seq<Link>, index: int, h: nat)
    requires
        loose_run(env, links, h, index),
        hollow(env, links[index].page, h),
        links.len() > 1,
    ensures
        tightened(env, env, gone, gone, links, index, h, links.remove(index)),
{
    reveal(tightened);
    reveal(loose_run);
    let a = links.take(index);
    let b = links.skip(index + 1);
    let c = links[index].page;
    let after = links.remove(index);
    assert(after =~= a + b);
    lemma_run_join(env, a, b, h);
    lemma_hollow_flat(env, c, h);
    lemma_dropped_size(links, index);
    assert(flat_all(env, after, h) =~= loose_flat(env, links, h, index));
    assert forall|p: PageRef| #[trigger] run_owns(env, after, h, p) == (run_owns(env, a, h, p)
        || run_owns(env, b, h, p)) by {}
    assert forall|id: u64| loose_owns(env, links, h, index, PageRef::Committed(id)) implies
        #[trigger] run_owns(env, after, h, PageRef::Committed(id)) by {
        lemma_hollow_pages(env, c, h, id);
    }
    assert forall|id: u64| #[trigger]
        gone.contains(id) == (gone.contains(id) || (loose_owns(
            env,
            links,
            h,
            index,
            PageRef::Committed(id),
        ) && !run_owns(env, after, h, PageRef::Committed(id)))) by {
        lemma_hollow_pages(env, c, h, id);
        assert(run_owns(env, after, h, PageRef::Committed(id)) == (run_owns(
            env,
            a,
            h,
            PageRef::Committed(id),
        ) || run_owns(env, b, h, PageRef::Committed(id))));
    }
    if snug_loose(env, links, h, index) {
        assert forall|s: usize| #[trigger] run_owns(env, after, h, PageRef::Dirty(s)) implies
            node_size(node_at(env, PageRef::Dirty(s))->0) <= PAGE_END by {
            assert(loose_owns(env, links, h, index, PageRef::Dirty(s)));
        }
    }
    assert forall|edge: bool| #[trigger] branching_loose(env, links, h, index, edge) implies
        branching_run(env, after, h, edge) by {
        lemma_branching_run_edge(env, a, h, edge && b.len() == 0);
        lemma_branching_add(env, a, b, h, edge);
    }
}

/// A node grows by one separator and the keys of two children at most when a child is split.
proof fn lemma_split_size(links: Seq<Link>, i: int, run: Seq<Link>)
    requires
        0 <= i < links.len(),
        run.len() == 2,
        keys_fit(run),
    ensures
        internal_size(links.take(i) + run + links.skip(i + 1)) <= internal_size(links) + SLOT_SIZE
            + 2 * MAX_KEY_SIZE,
{
    let a = links.take(i);
    let b = links.skip(i + 1);
    let after = a + run + b;
    let one = seq![links[i]];
    lemma_short_keys(run);
    if i == 0 {
        assert(after.skip(1) =~= run.skip(1) + b);
        assert(links.skip(1) =~= b);
        crate::node::lemma_key_bytes_add(run.skip(1), b);
        crate::graft::lemma_keys_fit_cut(run, 1);
        lemma_short_keys(run.skip(1));
    } else {
        assert(after.skip(1) =~= a.skip(1) + (run + b));
        assert(links.skip(1) =~= a.skip(1) + (one + b));
        crate::node::lemma_key_bytes_add(a.skip(1), run + b);
        crate::node::lemma_key_bytes_add(run, b);
        crate::node::lemma_key_bytes_add(a.skip(1), one + b);
        crate::node::lemma_key_bytes_add(one, b);
    }
}

/// A child in memory is split in two.
proof fn lemma_tightened_split(
    env: Env,
    other: Env,
    gone: Set<u64>,
    links: Seq<Link>,
    index: int,
    h: nat,
    slot: usize,
    right: usize,
    low: Node,
    high: Node,
    left_key: Seq<u8>,
    right_key: Seq<u8>,
)
    requires
        loose_run(env, links, h, index),
        links[index].page == PageRef::Dirty(slot),
        subtree(env, PageRef::Dirty(slot), h),
        crate::node::is_best_split(opened(env, PageRef::Dirty(slot), h), low, high),
        right == env.dirty.len(),
        slot < env.dirty.len(),
        other == (Env {
            dirty: env.dirty.update(slot as int, Some(low)).push(Some(high)),
            ..env
        }),
        left_key.len() <= MAX_KEY_SIZE,
        right_key.len() <= MAX_KEY_SIZE,
        subtree(other, PageRef::Dirty(slot), h) && flat(other, PageRef::Dirty(slot), h).len() > 0
            ==> left_key == flat(other, PageRef::Dirty(slot), h)[0].key,
        subtree(other, PageRef::Dirty(right), h) && flat(other, PageRef::Dirty(right), h).len() > 0
            ==> right_key == flat(other, PageRef::Dirty(right), h)[0].key,
    ensures
        ({
            let a = links.take(index);
            let b = links.skip(index + 1);
            let after = a + seq![
                Link { key: left_key, page: PageRef::Dirty(slot) },
                Link { key: right_key, page: PageRef::Dirty(right) },
            ] + b;
            &&& tightened(env, other, gone, gone, links, index, h, after)
            &&& forall|id: u64| #[trigger]
                run_owns(other, after, h, PageRef::Committed(id)) == loose_owns(
                    env,
                    links,
                    h,
                    index,
                    PageRef::Committed(id),
                )
            &&& snug_around(env, links, h, index) ==> snug_run(other, after, h)
            &&& forall|edge: bool| #[trigger]
                branching_around(env, a, opened(env, PageRef::Dirty(slot), h), b, h, edge)
                    ==> branching_run(other, after, h, edge)
        }),
{
    reveal(loose_run);
    reveal(tightened);
    let c = PageRef::Dirty(slot);
    let e = PageRef::Dirty(right);
    let a = links.take(index);
    let b = links.skip(index + 1);
    let node = opened(env, c, h);
    let run = seq![Link { key: left_key, page: c }, Link { key: right_key, page: e }];
    let after = a + run + b;
    let hole = owned(env, c, h);
    lemma_opened_body(env, c, h);
    lemma_owns_root(env, c, h);
    assert(node_at(other, c) == Some(low));
    assert(node_at(other, e) == Some(high));
    assert forall|p: PageRef| #[trigger] body_owns(env, node, h, p) implies p != e by {
        lemma_body_slots(env, node, h, p);
    }
    assert forall|s: usize| #[trigger] body_owns(env, node, h, PageRef::Dirty(s)) implies node_at(
        other,
        PageRef::Dirty(s),
    ) == node_at(env, PageRef::Dirty(s)) by {
        lemma_body_slots(env, node, h, PageRef::Dirty(s));
        assert(s != slot);
        assert(other.dirty[s as int] == env.dirty[s as int]);
    }
    lemma_halves(env, other, h, slot, right, node, low, high, left_key, right_key);
    assert forall|s: int|
        0 <= s < env.dirty.len() && !hole.contains(PageRef::Dirty(s as usize)) implies
        #[trigger] other.dirty[s] == env.dirty[s] by {
        assert(hole.contains(c));
        assert(s != slot);
    }
    assert forall|p: PageRef| #[trigger] run_owns(other, run, h, p) implies hole.contains(p)
        || is_fresh(env, p) by {
        assert(owns(env, c, h, p) == (p == c || body_owns(env, node, h, p)));
    }
    lemma_fill(env, other, a, b, h, hole, run);
    lemma_split_size(links, index, run);
    assert(flat_all(other, after, h) =~= loose_flat(env, links, h, index));
    let all = Set::new(|p: PageRef| loose_owns(env, links, h, index, p));
    assert forall|s: int|
        0 <= s < env.dirty.len() && !all.contains(PageRef::Dirty(s as usize)) implies
        #[trigger] other.dirty[s] == env.dirty[s] by {
        assert(!hole.contains(PageRef::Dirty(s as usize)));
    }
    assert forall|p: PageRef| #[trigger] run_owns(other, after, h, p) == (p == c || p == e
        || loose_owns(env, links, h, index, p)) by {
        assert(owns(env, c, h, p) == (p == c || body_owns(env, node, h, p)));
        assert(run_owns(other, run, h, p) == (p == c || p == e || body_owns(env, node, h, p)));
    }
    assert forall|id: u64| #[trigger]
        gone.contains(id) == (gone.contains(id) || (loose_owns(
            env,
            links,
            h,
            index,
            PageRef::Committed(id),
        ) && !run_owns(other, after, h, PageRef::Committed(id)))) by {
        assert(run_owns(other, after, h, PageRef::Committed(id)) == loose_owns(
            env,
            links,
            h,
            index,
            PageRef::Committed(id),
        ));
    }
    if snug_around(env, links, h, index) {
        assert forall|s: usize| #[trigger] run_owns(other, after, h, PageRef::Dirty(s)) implies
            node_size(node_at(other, PageRef::Dirty(s))->0) <= PAGE_END by {
            let p = PageRef::Dirty(s);
            if s != slot && s != right {
                assert(loose_owns(env, links, h, index, p));
                if run_owns(env, a, h, p) {
                    lemma_run_slots(env, a, h, p);
                } else if run_owns(env, b, h, p) {
                    lemma_run_slots(env, b, h, p);
                } else {
                    lemma_owned_slots(env, c, h, p);
                }
                assert(other.dirty[s as int] == env.dirty[s as int]);
            } else {
                lemma_split_pages(node, low, high);
            }
        }
    }
    assert forall|edge: bool| #[trigger] branching_around(env, a, node, b, h, edge) implies
        branching_run(other, a + run + b, h, edge) by {
        let last = edge && b.len() == 0;
        assert forall|s: usize|
            run_owns(env, a, h, PageRef::Dirty(s)) || run_owns(
                env,
                b,
                h,
                PageRef::Dirty(s),
            ) implies #[trigger] node_at(other, PageRef::Dirty(s)) == node_at(
            env,
            PageRef::Dirty(s),
        ) by {
            let p = PageRef::Dirty(s);
            if run_owns(env, a, h, p) {
                lemma_run_slots(env, a, h, p);
            } else {
                lemma_run_slots(env, b, h, p);
            }
            assert(!hole.contains(p));
            assert(other.dirty[s as int] == env.dirty[s as int]);
        }
        lemma_branching_run_kept(env, other, a, h, false);
        lemma_branching_run_kept(env, other, b, h, edge);
        if let Node::Internal(inner) = node {
            assert forall|s: usize| #[trigger]
                run_owns(env, inner, (h - 1) as nat, PageRef::Dirty(s)) implies node_at(
                other,
                PageRef::Dirty(s),
            ) == node_at(env, PageRef::Dirty(s)) by {
                assert(body_owns(env, node, h, PageRef::Dirty(s)));
            }
            lemma_branching_run_kept(env, other, inner, (h - 1) as nat, last);
        }
        lemma_branching_halves(other, node, low, high, h, last);
        lemma_branching_built(other, c, low, h, false);
        lemma_branching_built(other, e, high, h, last);
        assert(branching_run(other, run, h, last));
        lemma_branching_add(other, a, run, h, last);
        lemma_branching_add(other, a + run, b, h, edge);
    }
}

/// Both halves of a split node fit into pages.
proof fn lemma_split_pages(node: Node, low: Node, high: Node)
    requires
        crate::node::is_best_split(node, low, high),
    ensures
        node_size(low) <= PAGE_END,
        node_size(high) <= PAGE_END,
{
}

impl MutableTree {
    /// Whether a node in memory is too large for a page.
    fn is_oversized(&self, slot: usize) -> (result: Result<bool>)
        ensures
            match result {
                Ok(oversized) => {
                    &&& slot < self.dirty@.len()
                    &&& arena(self.dirty@)[slot as int] matches Some(node) && oversized == (
                    node_size(node) > PAGE_END) && node_size(node) <= usize::MAX
                },
                Err(error) => error is Corrupt && !(slot < self.dirty@.len() && (arena(
                    self.dirty@,
                )[slot as int] matches Some(node) && node_size(node) <= usize::MAX && !(
                node is Internal && is_bare(node)))),
            },
    {
        let node = self.dirty_node(slot)?;
        let size = node_encoded_size(node)?;
        Ok(size > PAGE_END)
    }

    /// Splits a child in memory that has become too large for a page.
    fn split_child<R: PageReader>(
        &mut self,
        reader: &mut R,
        children: &mut Vec<Child>,
        index: usize,
        slot: usize,
        depth: usize,
        Ghost(h): Ghost<nat>,
    ) -> (result: Result<()>)
        requires
            old(reader).usable(),
            old(self).inv(),
            depth <= MAX_DEPTH,
            index < old(children)@.len(),
            keys_fit(links_of(old(children)@)),
            slot < old(self).dirty@.len(),
            arena(old(self).dirty@)[slot as int] matches Some(node) && node_size(node)
                <= usize::MAX,
        ensures
            *final(reader) == *old(reader),
            ({
                let pages = old(reader).pages();
                let env = old(self).env(pages);
                let other = final(self).env(pages);
                let links = links_of(old(children)@);
                let a = links.take(index as int);
                let b = links.skip(index + 1);
                let c = PageRef::Dirty(slot);
                let good = loose_run(env, links, h, index as int) && links[index as int].page == c
                    && subtree(env, c, h);
                match result {
                    Ok(_) => {
                        let after = links_of(final(children)@);
                        &&& final(self).inv()
                        &&& same_but_opened(*old(self), *final(self))
                        &&& final(self).retired == old(self).retired
                        &&& final(self).dirty@.len() >= old(self).dirty@.len()
                        &&& final(children)@.len() == old(children)@.len() + 1
                        &&& keys_fit(after)
                        &&& good ==> {
                            &&& tightened(
                                env,
                                other,
                                old(self).retired@,
                                old(self).retired@,
                                links,
                                index as int,
                                h,
                                after,
                            )
                            &&& forall|id: u64| #[trigger]
                                run_owns(other, after, h, PageRef::Committed(id)) == loose_owns(
                                    env,
                                    links,
                                    h,
                                    index as int,
                                    PageRef::Committed(id),
                                )
                            &&& around(links, index as int, 1, after, 2)
                            &&& halves(
                                other,
                                opened(env, c, h),
                                after[index as int].page,
                                after[index + 1].page,
                            )
                            &&& keeps_slots(env, other, links)
                            &&& snug_around(env, links, h, index as int) ==> snug_run(
                                other,
                                after,
                                h,
                            )
                            &&& forall|edge: bool| #[trigger]
                                branching_around(env, a, opened(env, c, h), b, h, edge)
                                    ==> branching_run(other, after, h, edge)
                        }
                    },
                    Err(error) => error is Corrupt && !(good && depth + h < MAX_DEPTH
                        && crate::node::can_split(opened(env, c, h))),
                }
            }),
    {
        let ghost pages = reader.pages();
        let ghost env = self.env(pages);
        let ghost links = links_of(children@);
        let ghost at = index as int;
        let ghost c = PageRef::Dirty(slot);
        let ghost good = loose_run(env, links, h, at) && links[at].page == c && subtree(env, c, h);
        let node = self.take_dirty(slot)?;
        let ghost whole = node@;
        let (low, high) = split_combined(node)?;
        let ghost low_view = low@;
        let ghost high_view = high@;
        proof {
            lemma_split_sturdy(whole, low_view, high_view);
            assert(arena(self.dirty@).len() == self.dirty@.len());
        }
        self.put_dirty(slot, low)?;
        let right = self.new_dirty(high);
        let ghost right_slot = right->Dirty_0;
        let ghost other = self.env(pages);
        proof {
            assert(other.dirty =~= env.dirty.update(slot as int, Some(low_view)).push(
                Some(high_view),
            ));
        }
        let left_key = self.first_key(reader, PageRef::Dirty(slot), depth)?;
        let right_key = self.first_key(reader, right, depth)?;
        let ghost run = seq![
            Link { key: left_key@, page: c },
            Link { key: right_key@, page: right },
        ];
        proof {
            if good {
                lemma_tightened_split(
                    env,
                    other,
                    self.retired@,
                    links,
                    at,
                    h,
                    slot,
                    right_slot,
                    low_view,
                    high_view,
                    left_key@,
                    right_key@,
                );
            }
        }
        assert(children@.len() == children.len());
        children.set(index, Child { first_key: left_key, page: PageRef::Dirty(slot) });
        children.insert(index + 1, Child { first_key: right_key, page: right });
        proof {
            let after = links_of(children@);
            assert(after =~= links.take(at) + run + links.skip(at + 1));
            assert(after.take(at) =~= links.take(at));
            assert(after.skip(at + 2) =~= links.skip(at + 1));
            if good {
                assert(keeps_slots(env, other, links)) by {
                    assert forall|s: usize|
                        s < env.dirty.len() && (forall|k: int|
                            0 <= k < links.len() ==> (#[trigger] links[k]).page
                                != PageRef::Dirty(s)) implies #[trigger] node_at(
                        other,
                        PageRef::Dirty(s),
                    ) == node_at(env, PageRef::Dirty(s)) by {
                        assert(links[at].page != PageRef::Dirty(s));
                    }
                }
            }
            assert forall|k: int| 0 <= k < after.len() implies (#[trigger] after[k]).key.len()
                <= MAX_KEY_SIZE by {
                if k < at {
                    assert(after[k] == links[k]);
                } else if k > at + 1 {
                    assert(after[k] == links[k - 1]);
                }
            }
        }
        Ok(())
    }
}

// ---------------------------------------------------------------------------
// Removing one entry
// ---------------------------------------------------------------------------

/// Whether `after` is `before` without the entry at `p`, which has the key.
pub open spec fn drops_at(before: Seq<Entry>, after: Seq<Entry>, key: Seq<u8>, p: int) -> bool {
    &&& 0 <= p < before.len()
    &&& before[p].key == key
    &&& after == before.remove(p)
}

/// Whether `after` is `before` without the entry that has a key.
pub open spec fn drops(before: Seq<Entry>, after: Seq<Entry>, key: Seq<u8>) -> bool {
    exists|p: int| drops_at(before, after, key, p)
}

/// Removing an entry in the middle of entries removes it from the whole.
proof fn lemma_drops_within(
    a: Seq<Entry>,
    before: Seq<Entry>,
    after: Seq<Entry>,
    b: Seq<Entry>,
    key: Seq<u8>,
)
    requires
        drops(before, after, key),
    ensures
        drops(a + before + b, a + after + b, key),
{
    let p = choose|p: int| drops_at(before, after, key, p);
    let q = p + a.len();
    let whole = a + before + b;
    assert(whole[q] == before[p]);
    assert(a + after + b =~= whole.remove(q));
    assert(drops_at(whole, a + after + b, key, q));
}

/// What removing an entry from sorted entries gives.
pub proof fn lemma_drops(before: Seq<Entry>, after: Seq<Entry>, key: Seq<u8>)
    requires
        sorted_entries(before),
        drops(before, after, key),
    ensures
        sorted_entries(after),
        after.len() == before.len() - 1,
        lookup(before, key) is Some,
        lookup(after, key) is None,
        forall|other: Seq<u8>| other != key ==> #[trigger] lookup(after, other) == lookup(
            before,
            other,
        ),
{
    broadcast use group_order;

    let p = choose|p: int| drops_at(before, after, key, p);
    assert(forall|i: int| 0 <= i < p ==> after[i] == before[i]);
    assert(forall|i: int| p <= i < after.len() ==> after[i] == before[i + 1]);
    assert forall|i: int, j: int| 0 <= i < j < after.len() implies lt(
        #[trigger] after[i].key,
        #[trigger] after[j].key,
    ) by {
        let x = if i < p {
            i
        } else {
            i + 1
        };
        let y = if j < p {
            j
        } else {
            j + 1
        };
        assert(lt(before[x].key, before[y].key));
    }
    crate::reader::lemma_lookup(before, p);
    if lookup(after, key) is Some {
        let i = choose|i: int| 0 <= i < after.len() && (#[trigger] after[i]).key == key;
        let x = if i < p {
            i
        } else {
            i + 1
        };
        assert(before[x].key == key);
        if x < p {
            assert(lt(before[x].key, before[p].key));
        } else {
            assert(lt(before[p].key, before[x].key));
        }
    }
    assert forall|other: Seq<u8>| other != key implies #[trigger] lookup(after, other) == lookup(
        before,
        other,
    ) by {
        if lookup(before, other) is Some {
            let i = choose|i: int| 0 <= i < before.len() && (#[trigger] before[i]).key == other;
            let x = if i < p {
                i
            } else {
                i - 1
            };
            assert(after[x] == before[i]);
            crate::reader::lemma_lookup(after, x);
        } else if lookup(after, other) is Some {
            let i = choose|i: int| 0 <= i < after.len() && (#[trigger] after[i]).key == other;
            let x = if i < p {
                i
            } else {
                i + 1
            };
            assert(after[i] == before[x]);
        }
    }
}

/// Whether a chain of single children in memory leads down to an empty leaf.
pub open spec fn hollow(env: Env, r: PageRef, h: nat) -> bool
    decreases h,
{
    &&& r is Dirty
    &&& match node_at(env, r) {
        Some(Node::Leaf(entries)) => h == 0 && entries.len() == 0,
        Some(Node::Internal(links)) => h > 0 && links.len() == 1 && hollow(
            env,
            links[0].page,
            (h - 1) as nat,
        ),
        None => false,
    }
}

/// Whether every node in memory below `r` fits into a page, but for `r` itself.
pub open spec fn snug_under(env: Env, r: PageRef, h: nat) -> bool {
    forall|slot: usize| #[trigger]
        owns(env, r, h, PageRef::Dirty(slot)) && PageRef::Dirty(slot) != r ==> node_size(
            node_at(env, PageRef::Dirty(slot))->0,
        ) <= PAGE_END
}

/// Whether a node in memory has taken the place of a tree so that a key is gone.
#[verifier::opaque]
pub open spec fn removed(
    env: Env,
    other: Env,
    gone: Set<u64>,
    gone_after: Set<u64>,
    r: PageRef,
    h: nat,
    page: PageRef,
    key: Seq<u8>,
) -> bool {
    &&& page is Dirty
    &&& node_at(other, page) is Some
    &&& drops(flat(env, r, h), flat(other, page, h), key)
    &&& flat(env, r, h).len() > 1 ==> subtree(other, page, h)
    &&& flat(env, r, h).len() == 1 ==> hollow(other, page, h)
    &&& changed_below(env, other, r, h)
    &&& forall|p: PageRef| #[trigger]
        owns(other, page, h, p) ==> owns(env, r, h, p) || is_fresh(env, p)
    &&& forall|id: u64| #[trigger]
        gone_after.contains(id) == (gone.contains(id) || (owns(env, r, h, PageRef::Committed(id))
            && !owns(other, page, h, PageRef::Committed(id)) && !old_value_owns(
            env,
            flat(env, r, h),
            key,
            PageRef::Committed(id),
        )))
    &&& forall|p: PageRef| #[trigger]
        old_value_owns(env, flat(env, r, h), key, p) ==> !owns(other, page, h, p)
    &&& snug(env, r, h) ==> node_size(node_at(other, page)->0) <= PAGE_END + 3 * (SLOT_SIZE
        + MAX_KEY_SIZE) && snug_under(other, page, h)
    &&& forall|edge: bool| #[trigger]
        branching(env, r, h, edge) ==> branching_body(other, node_at(other, page)->0, h, edge)
}

/// A leaf without one of its entries.
proof fn lemma_remove_values(env: Env, r: PageRef, slot: usize, entries: Seq<Entry>, at: int)
    requires
        sorted_entries(entries),
        values_ok(env, r, entries),
        entries_fit(entries),
        0 <= at < entries.len(),
    ensures
        values_ok(env, PageRef::Dirty(slot), entries.remove(at)),
        entries_fit(entries.remove(at)),
        leaf_size(entries.remove(at)) <= leaf_size(entries),
        forall|p: PageRef| #[trigger]
            crate::graft::entries_own(env, entries.remove(at), p) == (crate::graft::entries_own(
                env,
                entries,
                p,
            ) && !value_owns(env, entries[at].value, p)),
{
    reveal(values_ok);
    let after = entries.remove(at);
    assert(forall|i: int| 0 <= i < at ==> after[i] == entries[i]);
    assert(forall|i: int| at <= i < after.len() ==> after[i] == entries[i + 1]);
    let origin = |i: int|
        if i < at {
            i
        } else {
            i + 1
        };
    assert(forall|i: int| 0 <= i < after.len() ==> #[trigger] after[i] == entries[origin(i)]);
    assert forall|i: int, j: int, p: PageRef| 0 <= i < j < after.len() implies !(
    #[trigger] value_owns(env, after[i].value, p) && #[trigger] value_owns(env, after[j].value, p)) by {
        assert(!(value_owns(env, entries[origin(i)].value, p) && value_owns(
            env,
            entries[origin(j)].value,
            p,
        )));
    }
    assert forall|i: int| 0 <= i < after.len() implies value_ok(
        env.pages,
        env.count,
        (#[trigger] after[i]).value,
    ) && !value_owns(env, after[i].value, PageRef::Dirty(slot)) by {
        assert(after[i] == entries[origin(i)]);
    }
    assert forall|i: int| 0 <= i < after.len() implies crate::node::entry_fits(#[trigger] after[i]) by {
        assert(after[i] == entries[origin(i)]);
    }
    assert forall|p: PageRef| #[trigger] crate::graft::entries_own(env, after, p) == (
    crate::graft::entries_own(env, entries, p) && !value_owns(env, entries[at].value, p)) by {
        if crate::graft::entries_own(env, after, p) {
            let i = choose|i: int|
                0 <= i < after.len() && value_owns(env, (#[trigger] after[i]).value, p);
            assert(value_owns(env, entries[origin(i)].value, p));
            if origin(i) < at {
                assert(!(value_owns(env, entries[origin(i)].value, p) && value_owns(
                    env,
                    entries[at].value,
                    p,
                )));
            } else {
                assert(!(value_owns(env, entries[at].value, p) && value_owns(
                    env,
                    entries[origin(i)].value,
                    p,
                )));
            }
        }
        if crate::graft::entries_own(env, entries, p) && !value_owns(env, entries[at].value, p) {
            let i = choose|i: int|
                0 <= i < entries.len() && value_owns(env, (#[trigger] entries[i]).value, p);
            let x = if i < at {
                i
            } else {
                i - 1
            };
            assert(after[x] == entries[i]);
        }
    }
    lemma_remove_size(entries, at);
}

/// A leaf without one of its entries is smaller.
proof fn lemma_remove_size(entries: Seq<Entry>, at: int)
    requires
        0 <= at < entries.len(),
    ensures
        leaf_size(entries.remove(at)) <= leaf_size(entries),
{
    let one = seq![entries[at]];
    let a = entries.take(at);
    let b = entries.skip(at + 1);
    assert(entries.remove(at) =~= a + b);
    assert(entries =~= a + (one + b));
    crate::node::lemma_payload_add(a, b);
    crate::node::lemma_payload_add(a, one + b);
    crate::node::lemma_payload_add(one, b);
}

/// Removing an entry from a leaf.
proof fn lemma_leaf_removed(
    env: Env,
    other: Env,
    gone: Set<u64>,
    gone_after: Set<u64>,
    r: PageRef,
    slot: usize,
    at: int,
    key: Seq<u8>,
)
    requires
        is_tree(env, r, 0),
        opened_at(env, other, gone, gone_after, r, slot),
        0 <= at < flat(env, r, 0).len(),
        flat(env, r, 0)[at].key == key,
        node_at(other, PageRef::Dirty(slot)) == Some(Node::Leaf(flat(env, r, 0).remove(at))),
    ensures
        removed(env, other, gone, gone_after, r, 0, PageRef::Dirty(slot), key),
{
    reveal(removed);
    let before = flat(env, r, 0);
    let after = before.remove(at);
    let d = PageRef::Dirty(slot);
    lemma_opened_body(env, r, 0);
    lemma_leaf_facts(env, r);
    lemma_remove_values(env, r, slot, before, at);
    assert(opened_pages(env, other)) by {
        reveal(opened_at);
    }
    crate::insert::lemma_values_env(env, other, d, after);
    crate::insert::lemma_leaf_built(other, slot, after);
    assert(drops_at(before, after, key, at));
    crate::reader::lemma_lookup(before, at);
    assert forall|p: PageRef| #[trigger] owns(other, d, 0, p) == (p == d || (
    crate::graft::entries_own(env, before, p) && !value_owns(env, before[at].value, p))) by {
        assert(crate::graft::entries_own(other, after, p) == crate::graft::entries_own(
            env,
            after,
            p,
        ));
    }
    assert forall|p: PageRef| #[trigger] old_value_owns(env, before, key, p) implies
        crate::graft::entries_own(env, before, p) && p is Committed by {
        assert(value_owns(env, before[at].value, p));
    }
    lemma_owns_root(env, r, 0);
    assert forall|s: usize| #[trigger] owns(other, d, 0, PageRef::Dirty(s)) implies node_size(
        node_at(other, PageRef::Dirty(s))->0,
    ) <= PAGE_END by {
        assert(!crate::graft::entries_own(env, before, PageRef::Dirty(s)));
    }
    reveal(opened_at);
}

/// Whether two environments have the same published pages.
spec fn opened_pages(env: Env, other: Env) -> bool {
    other.pages == env.pages && other.count == env.count
}

proof fn lemma_leaf_facts(env: Env, r: PageRef)
    requires
        subtree(env, r, 0),
    ensures
        values_ok(env, r, flat(env, r, 0)),
        entries_fit(flat(env, r, 0)),
        leaf_size(flat(env, r, 0)) <= PAGE_END,
        forall|p: PageRef| #[trigger]
            owns(env, r, 0, p) == (p == r || crate::graft::entries_own(env, flat(env, r, 0), p)),
        forall|slot: usize|
            !(#[trigger] crate::graft::entries_own(env, flat(env, r, 0), PageRef::Dirty(slot))),
        !crate::graft::entries_own(env, flat(env, r, 0), r),
{
    reveal(subtree);
    reveal(owns);
    reveal(values_ok);
    let entries = flat(env, r, 0);
    if crate::graft::entries_own(env, entries, r) {
        let i = choose|i: int|
            0 <= i < entries.len() && value_owns(env, (#[trigger] entries[i]).value, r);
        assert(false);
    }
}

/// An empty leaf in memory.
proof fn lemma_hollow_leaf(env: Env, r: PageRef)
    requires
        hollow(env, r, 0),
    ensures
        subtree(env, r, 0),
        flat(env, r, 0).len() == 0,
{
    reveal(subtree);
    reveal(values_ok);
    let entries = node_at(env, r)->0->Leaf_0;
    assert(entries =~= Seq::<Entry>::empty());
}

// ---------------------------------------------------------------------------
// Removing below an internal node
// ---------------------------------------------------------------------------

/// What belongs to a node and what is left behind, after one child `c` of the children
/// `a`, `c` and `b` became `n` and the children were rearranged into `f`.
proof fn lemma_removal_accounts(
    env: Env,
    mid: Env,
    later: Env,
    gone: Set<u64>,
    gone_mid: Set<u64>,
    gone_later: Set<u64>,
    gone_after: Set<u64>,
    r: PageRef,
    slot: usize,
    whole: Set<PageRef>,
    a: Set<PageRef>,
    c: Set<PageRef>,
    b: Set<PageRef>,
    n: Set<PageRef>,
    f: Set<PageRef>,
    old: Set<PageRef>,
)
    requires
        opened_at(env, mid, gone, gone_mid, r, slot),
        later.dirty.len() >= mid.dirty.len(),
        a.disjoint(c),
        c.disjoint(b),
        whole == a.union(c).union(b).insert(r),
        !a.union(c).union(b).contains(r),
        !a.union(c).union(b).contains(PageRef::Dirty(slot)),
        forall|p: PageRef| #[trigger] n.contains(p) ==> c.contains(p) || is_fresh(mid, p),
        forall|p: PageRef| #[trigger] old.contains(p) ==> c.contains(p) && !n.contains(p) && p is Committed,
        forall|id: u64| #[trigger]
            gone_later.contains(id) == (gone_mid.contains(id) || (c.contains(PageRef::Committed(id))
                && !n.contains(PageRef::Committed(id)) && !old.contains(PageRef::Committed(id)))),
        forall|p: PageRef| #[trigger]
            f.contains(p) ==> a.union(n).union(b).contains(p) || is_fresh(later, p),
        forall|id: u64| #[trigger]
            gone_after.contains(id) == (gone_later.contains(id) || (a.union(n).union(b).contains(
                PageRef::Committed(id),
            ) && !f.contains(PageRef::Committed(id)))),
    ensures
        forall|p: PageRef| #[trigger]
            f.contains(p) ==> p != PageRef::Dirty(slot) && p != r && (whole.contains(p) || is_fresh(
                env,
                p,
            )),
        forall|id: u64| #[trigger]
            gone_after.contains(id) == (gone.contains(id) || (whole.contains(
                PageRef::Committed(id),
            ) && !f.contains(PageRef::Committed(id)) && !old.contains(PageRef::Committed(id)))),
        forall|p: PageRef| #[trigger] old.contains(p) ==> !f.contains(p),
{
    reveal(opened_at);
    assert forall|id: u64| #[trigger]
        gone_after.contains(id) == (gone.contains(id) || (whole.contains(PageRef::Committed(id))
            && !f.contains(PageRef::Committed(id)) && !old.contains(PageRef::Committed(id)))) by {
        let p = PageRef::Committed(id);
        assert(n.contains(p) ==> c.contains(p));
        assert(f.contains(p) ==> a.union(n).union(b).contains(p));
        assert(gone_later.contains(id) == (gone_mid.contains(id) || (c.contains(p) && !n.contains(
            p,
        ) && !old.contains(p))));
    }
}

/// The children of a node once one of them has lost an entry.
#[verifier::rlimit(40)]
#[verifier::spinoff_prover]
proof fn lemma_loosened(
    env: Env,
    mid: Env,
    later: Env,
    gone: Set<u64>,
    gone_mid: Set<u64>,
    gone_later: Set<u64>,
    r: PageRef,
    h: nat,
    slot: usize,
    links: Seq<Link>,
    i: int,
    page: PageRef,
    first: Seq<u8>,
    key: Seq<u8>,
)
    requires
        is_tree(env, r, h),
        opened_at(env, mid, gone, gone_mid, r, slot),
        opened(env, r, h) == Node::Internal(links),
        child_at(links, key, i),
        h > 0,
        removed(
            mid,
            later,
            gone_mid,
            gone_later,
            links[i].page,
            (h - 1) as nat,
            page,
            key,
        ),
        flat(mid, links[i].page, (h - 1) as nat).len() == 1 ==> links.len() > 1,
        flat(later, page, (h - 1) as nat).len() > 0 ==> first == flat(
            later,
            page,
            (h - 1) as nat,
        )[0].key,
        forall|id: u64| #[trigger]
            owns(env, r, h, PageRef::Committed(id)) ==> !gone.contains(id),
    ensures
        ({
            let below = (h - 1) as nat;
            let loose = links.update(i, Link { key: first, page });
            &&& loose_run(later, loose, below, i)
            &&& loose_flat(later, loose, below, i) == flat_all(mid, links.take(i), below) + flat(
                later,
                page,
                below,
            ) + flat_all(mid, links.skip(i + 1), below)
            &&& forall|p: PageRef| #[trigger]
                loose_owns(later, loose, below, i, p) == (run_owns(mid, links.take(i), below, p)
                    || owns(later, page, below, p) || run_owns(mid, links.skip(i + 1), below, p))
            &&& forall|id: u64| #[trigger]
                loose_owns(later, loose, below, i, PageRef::Committed(id))
                    ==> !gone_later.contains(id) && owns(env, r, h, PageRef::Committed(id))
            &&& snug(env, r, h) ==> siblings_sized(later, loose, i) && snug_around(
                later,
                loose,
                below,
                i,
            )
            &&& forall|edge: bool| #[trigger]
                branching(env, r, h, edge) ==> branching_loose(later, loose, below, i, edge)
        }),
{
    reveal(removed);
    let below = (h - 1) as nat;
    let child = links[i].page;
    let loose = links.update(i, Link { key: first, page });
    let a = links.take(i);
    let b = links.skip(i + 1);
    lemma_opened_children(env, mid, gone, gone_mid, r, h, slot, links);
    lemma_run_cut(mid, links, below, i);
    lemma_run_cut(mid, links, below, i + 1);
    lemma_run_child(mid, links, below, i);
    assert(loose.take(i) =~= a);
    assert(loose.skip(i + 1) =~= b);
    assert forall|p: PageRef| true implies {
        &&& #[trigger] run_owns(mid, links, below, p) == (run_owns(mid, a, below, p) || owns(
            mid,
            child,
            below,
            p,
        ) || run_owns(mid, b, below, p))
        &&& !(run_owns(mid, a, below, p) && owns(mid, child, below, p))
        &&& !(run_owns(mid, a, below, p) && run_owns(mid, b, below, p))
        &&& !(owns(mid, child, below, p) && run_owns(mid, b, below, p))
    } by {
        crate::graft::lemma_run_owner(mid, links, below, i, p);
    }
    assert forall|s: usize|
        run_owns(mid, a, below, PageRef::Dirty(s)) || run_owns(
            mid,
            b,
            below,
            PageRef::Dirty(s),
        ) implies #[trigger] node_at(later, PageRef::Dirty(s)) == node_at(mid, PageRef::Dirty(s)) by {
        let p = PageRef::Dirty(s);
        assert(run_owns(mid, links, below, p));
        lemma_run_slots(mid, links, below, p);
        assert(!owns(mid, child, below, p));
        assert(later.dirty[s as int] == mid.dirty[s as int]);
    }
    lemma_run_kept(mid, later, a, below);
    lemma_run_kept(mid, later, b, below);
    if flat(mid, child, below).len() == 1 {
        lemma_hollow_flat(later, page, below);
    }
    assert(flat(mid, child, below).len() == flat(later, page, below).len() + 1) by {
        let p = choose|p: int|
            drops_at(flat(mid, child, below), flat(later, page, below), key, p);
    }
    assert(loose_run(later, loose, below, i)) by {
        reveal(loose_run);
        assert forall|p: PageRef|
            !(#[trigger] run_owns(later, a, below, p) && run_owns(later, b, below, p)) by {
            assert(run_owns(later, a, below, p) == run_owns(mid, a, below, p));
            assert(run_owns(later, b, below, p) == run_owns(mid, b, below, p));
            crate::graft::lemma_run_owner(mid, links, below, i, p);
        }
        assert forall|p: PageRef|
            !(#[trigger] run_owns(later, a, below, p) && owns(later, page, below, p)) by {
            if run_owns(later, a, below, p) && owns(later, page, below, p) {
                assert(run_owns(mid, links, below, p));
                lemma_run_slots(mid, links, below, p);
            }
        }
        assert forall|p: PageRef|
            !(#[trigger] run_owns(later, b, below, p) && owns(later, page, below, p)) by {
            if run_owns(later, b, below, p) && owns(later, page, below, p) {
                assert(run_owns(mid, links, below, p));
                lemma_run_slots(mid, links, below, p);
            }
        }
    }
    assert forall|id: u64| #[trigger]
        loose_owns(later, loose, below, i, PageRef::Committed(id)) implies !gone_later.contains(id)
        && owns(env, r, h, PageRef::Committed(id)) by {
        let p = PageRef::Committed(id);
        assert(owns(later, page, below, p) ==> owns(mid, child, below, p));
        assert(run_owns(mid, links, below, p));
        assert(owns(env, r, h, p));
        assert(!gone_mid.contains(id)) by {
            reveal(opened_at);
        }
        if owns(mid, child, below, p) {
            assert(owns(later, page, below, p));
        }
    }
    if snug(env, r, h) {
        assert forall|k: int| 0 <= k < loose.len() && k != i implies crate::tree::page_sized(
            later,
            (#[trigger] loose[k]).page,
        ) by {
            assert(loose[k] == links[k]);
            let p = links[k].page;
            lemma_owns_root(mid, p, below);
            assert(run_owns(mid, links, below, p));
            if k < i {
                assert(a[k] == links[k]);
                assert(run_owns(mid, a, below, p));
            } else {
                assert(b[k - i - 1] == links[k]);
                assert(run_owns(mid, b, below, p));
            }
        }
        assert(snug(mid, child, below)) by {
            assert forall|s: usize| #[trigger] owns(mid, child, below, PageRef::Dirty(s)) implies
                node_size(node_at(mid, PageRef::Dirty(s))->0) <= PAGE_END by {
                assert(run_owns(mid, links, below, PageRef::Dirty(s)));
            }
        }
        assert(snug_run(mid, a, below)) by {
            assert forall|s: usize| #[trigger] run_owns(mid, a, below, PageRef::Dirty(s)) implies
                node_size(node_at(mid, PageRef::Dirty(s))->0) <= PAGE_END by {
                assert(run_owns(mid, links, below, PageRef::Dirty(s)));
            }
        }
        assert(snug_run(mid, b, below)) by {
            assert forall|s: usize| #[trigger] run_owns(mid, b, below, PageRef::Dirty(s)) implies
                node_size(node_at(mid, PageRef::Dirty(s))->0) <= PAGE_END by {
                assert(run_owns(mid, links, below, PageRef::Dirty(s)));
            }
        }
        assert(snug_around(later, loose, below, i)) by {
            assert forall|s: usize| #[trigger]
                loose_owns(later, loose, below, i, PageRef::Dirty(s)) && PageRef::Dirty(s)
                    != page implies node_size(node_at(later, PageRef::Dirty(s))->0) <= PAGE_END by {
                let p = PageRef::Dirty(s);
                if run_owns(later, a, below, p) {
                    assert(run_owns(mid, a, below, p));
                } else if run_owns(later, b, below, p) {
                    assert(run_owns(mid, b, below, p));
                } else {
                    assert(owns(later, page, below, p));
                }
            }
        }
    }
    assert forall|edge: bool| #[trigger] branching(env, r, h, edge) implies branching_loose(
        later,
        loose,
        below,
        i,
        edge,
    ) by {
        let one = seq![links[i]];
        let last = edge && b.len() == 0;
        lemma_branching_children(env, mid, gone, gone_mid, r, h, slot, links, edge);
        assert(links =~= a + one + b);
        lemma_branching_add(mid, a + one, b, below, edge);
        lemma_branching_add(mid, a, one, below, last);
        assert(one[0] == links[i]);
        assert(branching(mid, links[i].page, below, last && 0 == one.len() - 1));
        assert(branching(mid, links[i].page, below, last));
        lemma_branching_run_kept(mid, later, a, below, false);
        lemma_branching_run_kept(mid, later, b, below, edge);
        assert(branching_body(later, opened(later, page, below), below, last));
    }
}

/// Removing an entry below an internal node whose children were rebalanced.
proof fn lemma_internal_removed(
    env: Env,
    mid: Env,
    later: Env,
    last: Env,
    other: Env,
    gone: Set<u64>,
    gone_mid: Set<u64>,
    gone_later: Set<u64>,
    gone_after: Set<u64>,
    r: PageRef,
    h: nat,
    slot: usize,
    links: Seq<Link>,
    i: int,
    page: PageRef,
    first: Seq<u8>,
    after: Seq<Link>,
    key: Seq<u8>,
)
    requires
        is_tree(env, r, h),
        opened_at(env, mid, gone, gone_mid, r, slot),
        opened(env, r, h) == Node::Internal(links),
        child_at(links, key, i),
        h > 0,
        removed(
            mid,
            later,
            gone_mid,
            gone_later,
            links[i].page,
            (h - 1) as nat,
            page,
            key,
        ),
        flat(mid, links[i].page, (h - 1) as nat).len() == 1 ==> links.len() > 1,
        flat(later, page, (h - 1) as nat).len() > 0 ==> first == flat(
            later,
            page,
            (h - 1) as nat,
        )[0].key,
        forall|id: u64| #[trigger]
            owns(env, r, h, PageRef::Committed(id)) ==> !gone.contains(id),
        tightened(
            later,
            last,
            gone_later,
            gone_after,
            links.update(i, Link { key: first, page }),
            i,
            (h - 1) as nat,
            after,
        ),
        other == (Env { dirty: last.dirty.update(slot as int, Some(Node::Internal(after))), ..last }),
        keys_fit(after),
        first.len() <= MAX_KEY_SIZE,
        snug(env, r, h) ==> internal_size(links) <= PAGE_END && snug_run(
            last,
            after,
            (h - 1) as nat,
        ),
    ensures
        removed(env, other, gone, gone_after, r, h, PageRef::Dirty(slot), key),
{
    let below = (h - 1) as nat;
    let child = links[i].page;
    let d = PageRef::Dirty(slot);
    let loose = links.update(i, Link { key: first, page });
    let x = links.take(i);
    let y = links.skip(i + 1);
    lemma_loosened(
        env,
        mid,
        later,
        gone,
        gone_mid,
        gone_later,
        r,
        h,
        slot,
        links,
        i,
        page,
        first,
        key,
    );
    lemma_opened_children(env, mid, gone, gone_mid, r, h, slot, links);
    reveal(removed);
    reveal(tightened);
    let whole = owned(env, r, h);
    let a = run_owned(mid, x, below);
    let c = owned(mid, child, below);
    let b = run_owned(mid, y, below);
    let n = owned(later, page, below);
    let f = run_owned(last, after, below);
    let before = flat(env, r, h);
    let old = Set::new(|p: PageRef| old_value_owns(env, before, key, p));
    lemma_run_child(mid, links, below, i);
    lemma_removal_entries(env, mid, gone, gone_mid, r, h, slot, links, i, key);
    assert(run_owned(mid, links, below) =~= a.union(c).union(b) && a.disjoint(c) && c.disjoint(b))
        by {
        assert forall|p: PageRef| true implies run_owns(mid, links, below, p) == (
        #[trigger] a.contains(p) || c.contains(p) || b.contains(p)) && !(a.contains(p)
            && c.contains(p)) && !(c.contains(p) && b.contains(p)) by {
            crate::graft::lemma_run_owner(mid, links, below, i, p);
        }
    }
    assert(whole =~= run_owned(mid, links, below).insert(r));
    assert(!run_owned(mid, links, below).contains(r));
    assert(!run_owned(mid, links, below).contains(d));
    assert forall|p: PageRef| #[trigger] old.contains(p) implies c.contains(p) && !n.contains(p)
        && p is Committed by {
        assert(old_value_owns(mid, flat(mid, child, below), key, p));
        crate::insert::lemma_tree_value(mid, child, below, key, p);
    }
    assert forall|p: PageRef| #[trigger] n.contains(p) implies c.contains(p) || is_fresh(mid, p) by {
        assert(owns(later, page, below, p));
    }
    assert forall|id: u64| #[trigger]
        gone_later.contains(id) == (gone_mid.contains(id) || (c.contains(PageRef::Committed(id))
            && !n.contains(PageRef::Committed(id)) && !old.contains(PageRef::Committed(id)))) by {
        assert(old.contains(PageRef::Committed(id)) == old_value_owns(
            mid,
            flat(mid, child, below),
            key,
            PageRef::Committed(id),
        ));
    }
    assert forall|p: PageRef| #[trigger] f.contains(p) implies a.union(n).union(b).contains(p)
        || is_fresh(later, p) by {
        assert(run_owns(last, after, below, p));
        assert(loose_owns(later, loose, below, i, p) == a.union(n).union(b).contains(p));
    }
    assert forall|id: u64| #[trigger]
        gone_after.contains(id) == (gone_later.contains(id) || (a.union(n).union(b).contains(
            PageRef::Committed(id),
        ) && !f.contains(PageRef::Committed(id)))) by {
        let p = PageRef::Committed(id);
        assert(loose_owns(later, loose, below, i, p) == a.union(n).union(b).contains(p));
    }
    lemma_removal_accounts(
        env,
        mid,
        later,
        gone,
        gone_mid,
        gone_later,
        gone_after,
        r,
        slot,
        whole,
        a,
        c,
        b,
        n,
        f,
        old,
    );
    assert forall|p: PageRef| #[trigger] old_value_owns(env, before, key, p) implies !f.contains(
        p,
    ) by {
        assert(old.contains(p));
    }
    lemma_removal_finish(
        env,
        mid,
        later,
        last,
        other,
        gone,
        gone_mid,
        gone_later,
        gone_after,
        r,
        h,
        slot,
        links,
        i,
        page,
        first,
        after,
        key,
    );
}

/// What is stored under a key is stored below the right child, before and after the
/// node is opened.
proof fn lemma_removal_entries(
    env: Env,
    mid: Env,
    gone: Set<u64>,
    gone_mid: Set<u64>,
    r: PageRef,
    h: nat,
    slot: usize,
    links: Seq<Link>,
    i: int,
    key: Seq<u8>,
)
    requires
        is_tree(env, r, h),
        opened_at(env, mid, gone, gone_mid, r, slot),
        opened(env, r, h) == Node::Internal(links),
        child_at(links, key, i),
    ensures
        h > 0,
        flat(mid, links[i].page, (h - 1) as nat) == flat(env, links[i].page, (h - 1) as nat),
        lookup(flat(env, r, h), key) == lookup(flat(mid, links[i].page, (h - 1) as nat), key),
        flat(env, r, h) == flat_all(mid, links.take(i), (h - 1) as nat) + flat(
            mid,
            links[i].page,
            (h - 1) as nat,
        ) + flat_all(mid, links.skip(i + 1), (h - 1) as nat),
        is_tree(mid, links[i].page, (h - 1) as nat),
        mid.pages == env.pages,
        mid.count == env.count,
{
    let below = (h - 1) as nat;
    let child = links[i].page;
    lemma_opened_descend(env, r, h, links, key, i);
    lemma_opened_children(env, mid, gone, gone_mid, r, h, slot, links);
    assert(mid.pages == env.pages && mid.count == env.count) by {
        reveal(opened_at);
    }
    assert forall|p: PageRef| #[trigger] owns(env, child, below, p) implies crate::model::same_at(
        env,
        mid,
        p,
    ) by {
        assert(run_owns(env, links, below, p));
    }
    crate::model::lemma_tree_kept(env, mid, child, below);
    crate::model::lemma_flat_all_split(mid, links, below, i);
}

/// The node that heads the rebalanced children.
proof fn lemma_removal_finish(
    env: Env,
    mid: Env,
    later: Env,
    last: Env,
    other: Env,
    gone: Set<u64>,
    gone_mid: Set<u64>,
    gone_later: Set<u64>,
    gone_after: Set<u64>,
    r: PageRef,
    h: nat,
    slot: usize,
    links: Seq<Link>,
    i: int,
    page: PageRef,
    first: Seq<u8>,
    after: Seq<Link>,
    key: Seq<u8>,
)
    requires
        is_tree(env, r, h),
        opened_at(env, mid, gone, gone_mid, r, slot),
        opened(env, r, h) == Node::Internal(links),
        child_at(links, key, i),
        h > 0,
        removed(
            mid,
            later,
            gone_mid,
            gone_later,
            links[i].page,
            (h - 1) as nat,
            page,
            key,
        ),
        flat(mid, links[i].page, (h - 1) as nat).len() == 1 ==> links.len() > 1,
        tightened(
            later,
            last,
            gone_later,
            gone_after,
            links.update(i, Link { key: first, page }),
            i,
            (h - 1) as nat,
            after,
        ),
        loose_flat(later, links.update(i, Link { key: first, page }), (h - 1) as nat, i) == flat_all(
            mid,
            links.take(i),
            (h - 1) as nat,
        ) + flat(later, page, (h - 1) as nat) + flat_all(mid, links.skip(i + 1), (h - 1) as nat),
        forall|p: PageRef| #[trigger]
            loose_owns(later, links.update(i, Link { key: first, page }), (h - 1) as nat, i, p)
                ==> owns(env, r, h, p) || is_fresh(mid, p),
        other == (Env { dirty: last.dirty.update(slot as int, Some(Node::Internal(after))), ..last }),
        keys_fit(after),
        first.len() <= MAX_KEY_SIZE,
        snug(env, r, h) ==> internal_size(links) <= PAGE_END && snug_run(
            last,
            after,
            (h - 1) as nat,
        ),
        forall|edge: bool| #[trigger]
            branching(env, r, h, edge) ==> branching_loose(
                later,
                links.update(i, Link { key: first, page }),
                (h - 1) as nat,
                i,
                edge,
            ),
        forall|p: PageRef| #[trigger]
            run_owned(last, after, (h - 1) as nat).contains(p) ==> p != PageRef::Dirty(slot) && p
                != r && (owned(env, r, h).contains(p) || is_fresh(env, p)),
        forall|id: u64| #[trigger]
            gone_after.contains(id) == (gone.contains(id) || (owned(env, r, h).contains(
                PageRef::Committed(id),
            ) && !run_owned(last, after, (h - 1) as nat).contains(PageRef::Committed(id))
                && !old_value_owns(env, flat(env, r, h), key, PageRef::Committed(id)))),
        forall|p: PageRef| #[trigger]
            old_value_owns(env, flat(env, r, h), key, p) ==> !run_owned(
                last,
                after,
                (h - 1) as nat,
            ).contains(p),
    ensures
        removed(env, other, gone, gone_after, r, h, PageRef::Dirty(slot), key),
{
    reveal(removed);
    reveal(tightened);
    let below = (h - 1) as nat;
    let d = PageRef::Dirty(slot);
    let child = links[i].page;
    let f = run_owned(last, after, below);
    let loose = links.update(i, Link { key: first, page });
    lemma_removal_entries(env, mid, gone, gone_mid, r, h, slot, links, i, key);
    assert(slot < last.dirty.len() && (r == d || slot >= env.dirty.len())) by {
        reveal(opened_at);
    }
    assert(!f.contains(d));
    lemma_run_kept(last, other, after, below);
    assert(!run_owns(other, after, below, d));
    crate::graft::lemma_node_built(other, slot, after, below);
    lemma_drops_within(
        flat_all(mid, links.take(i), below),
        flat(mid, child, below),
        flat(later, page, below),
        flat_all(mid, links.skip(i + 1), below),
        key,
    );
    assert forall|p: PageRef| #[trigger] owns(other, d, h, p) == (p == d || f.contains(p)) by {
        assert(run_owns(other, after, below, p) == run_owns(last, after, below, p));
    }
    lemma_owns_root(env, r, h);
    assert forall|p: PageRef| #[trigger] owns(other, d, h, p) implies owns(env, r, h, p)
        || is_fresh(env, p) by {
        if f.contains(p) {
            assert(owned(env, r, h).contains(p) || is_fresh(env, p));
        }
    }
    assert forall|id: u64| #[trigger]
        gone_after.contains(id) == (gone.contains(id) || (owns(env, r, h, PageRef::Committed(id))
            && !owns(other, d, h, PageRef::Committed(id)) && !old_value_owns(
            env,
            flat(env, r, h),
            key,
            PageRef::Committed(id),
        ))) by {
        assert(owned(env, r, h).contains(PageRef::Committed(id)) == owns(
            env,
            r,
            h,
            PageRef::Committed(id),
        ));
    }
    assert forall|p: PageRef| #[trigger]
        old_value_owns(env, flat(env, r, h), key, p) implies !owns(other, d, h, p) by {
        crate::insert::lemma_tree_value(env, r, h, key, p);
    }
    assert(other.pages == env.pages && other.count == env.count && other.dirty.len()
        >= env.dirty.len()) by {
        reveal(opened_at);
    }
    assert forall|s: int|
        0 <= s < env.dirty.len() && !owns(env, r, h, PageRef::Dirty(s as usize)) implies
        #[trigger] other.dirty[s] == env.dirty[s] by {
        let p = PageRef::Dirty(s as usize);
        reveal(opened_at);
        assert(mid.dirty[s] == env.dirty[s]);
        lemma_opened_children(env, mid, gone, gone_mid, r, h, slot, links);
        assert(!run_owns(mid, links, below, p));
        assert(!owns(mid, child, below, p));
        assert(later.dirty[s] == mid.dirty[s]);
        assert(!loose_owns(later, loose, below, i, p));
        let all = Set::new(|q: PageRef| loose_owns(later, loose, below, i, q));
        assert(!all.contains(p));
        assert(last.dirty[s] == later.dirty[s]);
    }
    assert(flat(env, r, h).len() > 1) by {
        let whole = flat(env, r, h);
        assert(flat(other, d, h).len() > 0);
        let q = choose|q: int| drops_at(whole, flat(other, d, h), key, q);
    }
    assert forall|edge: bool| #[trigger] branching(env, r, h, edge) implies branching_body(
        other,
        node_at(other, d)->0,
        h,
        edge,
    ) by {
        assert forall|s: usize| #[trigger] run_owns(last, after, below, PageRef::Dirty(s)) implies
            node_at(other, PageRef::Dirty(s)) == node_at(last, PageRef::Dirty(s)) by {
            assert(f.contains(PageRef::Dirty(s)));
        }
        lemma_branching_run_kept(last, other, after, below, edge);
    }
    if snug(env, r, h) {
        lemma_key_changed(links, i, Link { key: first, page });
        assert forall|s: usize| #[trigger]
            owns(other, d, h, PageRef::Dirty(s)) && PageRef::Dirty(s) != d implies node_size(
            node_at(other, PageRef::Dirty(s))->0,
        ) <= PAGE_END by {
            assert(f.contains(PageRef::Dirty(s)));
            assert(run_owns(last, after, below, PageRef::Dirty(s)));
        }
    }
}

/// A node grows by one key at most when one child is replaced.
proof fn lemma_key_changed(links: Seq<Link>, i: int, link: Link)
    requires
        0 <= i < links.len(),
        link.key.len() <= MAX_KEY_SIZE,
    ensures
        internal_size(links.update(i, link)) <= internal_size(links) + MAX_KEY_SIZE,
{
    let changed = links.update(i, link);
    if i == 0 {
        assert(changed.skip(1) =~= links.skip(1));
    } else {
        let a = links.take(i).skip(1);
        let b = links.skip(i + 1);
        let one = seq![links[i]];
        let new = seq![link];
        assert(links.skip(1) =~= a + (one + b));
        assert(changed.skip(1) =~= a + (new + b));
        crate::node::lemma_key_bytes_add(a, one + b);
        crate::node::lemma_key_bytes_add(one, b);
        crate::node::lemma_key_bytes_add(a, new + b);
        crate::node::lemma_key_bytes_add(new, b);
        assert(new.drop_last() =~= Seq::<Link>::empty());
        assert(crate::node::key_bytes(new) == crate::node::key_bytes(new.drop_last())
            + link.key.len());
    }
}

/// Removing the last entry below an internal node with a single child.
proof fn lemma_hollow_removed(
    env: Env,
    mid: Env,
    later: Env,
    other: Env,
    gone: Set<u64>,
    gone_mid: Set<u64>,
    gone_after: Set<u64>,
    r: PageRef,
    h: nat,
    slot: usize,
    links: Seq<Link>,
    page: PageRef,
    first: Seq<u8>,
    key: Seq<u8>,
)
    requires
        is_tree(env, r, h),
        opened_at(env, mid, gone, gone_mid, r, slot),
        opened(env, r, h) == Node::Internal(links),
        links.len() == 1,
        child_at(links, key, 0),
        h > 0,
        removed(
            mid,
            later,
            gone_mid,
            gone_after,
            links[0].page,
            (h - 1) as nat,
            page,
            key,
        ),
        flat(mid, links[0].page, (h - 1) as nat).len() == 1,
        other == (Env {
            dirty: later.dirty.update(
                slot as int,
                Some(Node::Internal(seq![Link { key: first, page }])),
            ),
            ..later
        }),
    ensures
        removed(env, other, gone, gone_after, r, h, PageRef::Dirty(slot), key),
{
    let below = (h - 1) as nat;
    let d = PageRef::Dirty(slot);
    let child = links[0].page;
    let single = seq![Link { key: first, page }];
    lemma_removal_entries(env, mid, gone, gone_mid, r, h, slot, links, 0, key);
    lemma_opened_children(env, mid, gone, gone_mid, r, h, slot, links);
    assert(links =~= seq![links[0]]);
    lemma_run_child(mid, links, below, 0);
    lemma_run_one(mid, links[0], below);
    reveal(removed);
    assert(flat_all(mid, links.take(0), below) =~= Seq::<Entry>::empty()) by {
        assert(links.take(0) =~= Seq::<Link>::empty());
    }
    assert(flat_all(mid, links.skip(1), below) =~= Seq::<Entry>::empty()) by {
        assert(links.skip(1) =~= Seq::<Link>::empty());
    }
    assert(flat(env, r, h) =~= flat(mid, child, below));
    assert(slot < later.dirty.len() && slot < mid.dirty.len() && (r == d || slot
        >= env.dirty.len()) && mid.dirty.len() >= env.dirty.len()) by {
        reveal(opened_at);
    }
    assert(!owns(later, page, below, d)) by {
        if owns(later, page, below, d) {
            assert(owns(mid, child, below, d));
            assert(run_owns(mid, links, below, d));
        }
    }
    lemma_hollow_kept(later, other, page, below, slot);
    assert(node_at(other, d) == Some(Node::Internal(single)));
    assert(single[0].page == page);
    assert(hollow(other, d, h));
    lemma_hollow_flat(other, d, h);
    lemma_hollow_flat(later, page, below);
    assert(flat(other, d, h) =~= flat(later, page, below));
    assert forall|p: PageRef| #[trigger] owns(other, d, h, p) == (p == d || owns(
        later,
        page,
        below,
        p,
    )) by {
        reveal(owns);
        if owns(later, page, below, p) {
            assert(owns(other, single[0].page, below, p));
        }
        if owns(other, d, h, p) && p != d {
            let i = choose|i: int|
                0 <= i < single.len() && owns(other, (#[trigger] single[i]).page, below, p);
            assert(owns(later, page, below, p));
        }
    }
    lemma_owns_root(env, r, h);
    lemma_hollow_accounts(
        env,
        mid,
        later,
        other,
        gone,
        gone_mid,
        gone_after,
        r,
        h,
        slot,
        links,
        page,
        key,
    );
    if snug(env, r, h) {
        assert(single.skip(1) =~= Seq::<Link>::empty());
    }
    lemma_hollow_snug(other, d, h);
    assert forall|edge: bool| #[trigger] branching(env, r, h, edge) implies branching_body(
        other,
        node_at(other, d)->0,
        h,
        edge,
    ) by {
        lemma_branching_opened(env, r, h, edge);
        lemma_hollow_branching(other, page, below);
    }
}

/// A hollow tree branches off its right edge.
proof fn lemma_hollow_branching(env: Env, r: PageRef, h: nat)
    requires
        hollow(env, r, h),
    ensures
        branching(env, r, h, true),
    decreases h,
{
    reveal(branching);
    if let Some(Node::Internal(links)) = node_at(env, r) {
        lemma_hollow_branching(env, links[0].page, (h - 1) as nat);
    }
}

/// The nodes of a hollow tree fit into pages.
proof fn lemma_hollow_snug(env: Env, r: PageRef, h: nat)
    requires
        hollow(env, r, h),
    ensures
        snug(env, r, h),
    decreases h,
{
    reveal(owns);
    match node_at(env, r)->0 {
        Node::Leaf(entries) => {
            assert(entries =~= Seq::<Entry>::empty());
        },
        Node::Internal(links) => {
            let below = (h - 1) as nat;
            lemma_hollow_snug(env, links[0].page, below);
            assert(links.skip(1) =~= Seq::<Link>::empty());
            assert forall|s: usize| #[trigger] owns(env, r, h, PageRef::Dirty(s)) implies node_size(
                node_at(env, PageRef::Dirty(s))->0,
            ) <= PAGE_END by {
                if PageRef::Dirty(s) != r {
                    let i = choose|i: int|
                        0 <= i < links.len() && owns(
                            env,
                            (#[trigger] links[i]).page,
                            below,
                            PageRef::Dirty(s),
                        );
                    assert(i == 0);
                }
            }
        },
    }
}

/// What belongs to a node whose only child has become hollow.
proof fn lemma_hollow_accounts(
    env: Env,
    mid: Env,
    later: Env,
    other: Env,
    gone: Set<u64>,
    gone_mid: Set<u64>,
    gone_after: Set<u64>,
    r: PageRef,
    h: nat,
    slot: usize,
    links: Seq<Link>,
    page: PageRef,
    key: Seq<u8>,
)
    requires
        is_tree(env, r, h),
        opened_at(env, mid, gone, gone_mid, r, slot),
        opened(env, r, h) == Node::Internal(links),
        links.len() == 1,
        h > 0,
        flat(env, r, h) == flat(mid, links[0].page, (h - 1) as nat),
        removed(
            mid,
            later,
            gone_mid,
            gone_after,
            links[0].page,
            (h - 1) as nat,
            page,
            key,
        ),
        later.dirty.len() <= other.dirty.len(),
        other.pages == later.pages,
        other.count == later.count,
        forall|s: int|
            0 <= s < later.dirty.len() && s != slot ==> #[trigger] other.dirty[s] == later.dirty[s],
        forall|p: PageRef| #[trigger]
            owns(other, PageRef::Dirty(slot), h, p) == (p == PageRef::Dirty(slot) || owns(
                later,
                page,
                (h - 1) as nat,
                p,
            )),
    ensures
        changed_below(env, other, r, h),
        forall|p: PageRef| #[trigger]
            owns(other, PageRef::Dirty(slot), h, p) ==> owns(env, r, h, p) || is_fresh(env, p),
        forall|id: u64| #[trigger]
            gone_after.contains(id) == (gone.contains(id) || (owns(
                env,
                r,
                h,
                PageRef::Committed(id),
            ) && !owns(other, PageRef::Dirty(slot), h, PageRef::Committed(id)) && !old_value_owns(
                env,
                flat(env, r, h),
                key,
                PageRef::Committed(id),
            ))),
        forall|p: PageRef| #[trigger]
            old_value_owns(env, flat(env, r, h), key, p) ==> !owns(
                other,
                PageRef::Dirty(slot),
                h,
                p,
            ),
{
    reveal(removed);
    reveal(opened_at);
    let below = (h - 1) as nat;
    let d = PageRef::Dirty(slot);
    let child = links[0].page;
    lemma_opened_children(env, mid, gone, gone_mid, r, h, slot, links);
    lemma_run_child(mid, links, below, 0);
    lemma_run_one(mid, links[0], below);
    assert(links =~= seq![links[0]]);
    assert forall|p: PageRef| #[trigger] owns(env, r, h, p) == (p == r || owns(
        mid,
        child,
        below,
        p,
    )) by {
        assert(run_owns(mid, links, below, p) == owns(mid, child, below, p));
    }
    assert(!owns(mid, child, below, r)) by {
        assert(run_owns(mid, links, below, r) == owns(mid, child, below, r));
    }
    assert forall|s: int|
        0 <= s < env.dirty.len() && !owns(env, r, h, PageRef::Dirty(s as usize)) implies
        #[trigger] other.dirty[s] == env.dirty[s] by {
        assert(owns(env, r, h, r));
        assert(!owns(mid, child, below, PageRef::Dirty(s as usize)));
        assert(mid.dirty[s] == env.dirty[s]);
        assert(later.dirty[s] == mid.dirty[s]);
    }
    assert forall|p: PageRef| #[trigger] old_value_owns(env, flat(env, r, h), key, p)
        == old_value_owns(mid, flat(mid, child, below), key, p) by {}
    assert forall|p: PageRef| #[trigger]
        old_value_owns(env, flat(env, r, h), key, p) implies !owns(other, d, h, p) by {
        crate::insert::lemma_tree_value(mid, child, below, key, p);
    }
    assert forall|id: u64| #[trigger]
        gone_after.contains(id) == (gone.contains(id) || (owns(env, r, h, PageRef::Committed(id))
            && !owns(other, d, h, PageRef::Committed(id)) && !old_value_owns(
            env,
            flat(env, r, h),
            key,
            PageRef::Committed(id),
        ))) by {
        let p = PageRef::Committed(id);
        assert(owns(later, page, below, p) ==> owns(mid, child, below, p));
        if old_value_owns(env, flat(env, r, h), key, p) {
            crate::insert::lemma_tree_value(mid, child, below, key, p);
        }
    }
}

/// A hollow tree stays hollow when a slot outside it changes.
proof fn lemma_hollow_kept(env: Env, other: Env, r: PageRef, h: nat, slot: usize)
    requires
        hollow(env, r, h),
        !owns(env, r, h, PageRef::Dirty(slot)),
        other.pages == env.pages,
        other.count == env.count,
        other.dirty.len() == env.dirty.len(),
        forall|s: int|
            0 <= s < env.dirty.len() && s != slot ==> #[trigger] other.dirty[s] == env.dirty[s],
    ensures
        hollow(other, r, h),
        forall|p: PageRef| #[trigger] owns(other, r, h, p) == owns(env, r, h, p),
    decreases h,
{
    reveal(owns);
    lemma_owns_root(env, r, h);
    let own = r->Dirty_0;
    assert(own < env.dirty.len());
    assert(other.dirty[own as int] == env.dirty[own as int]);
    assert(node_at(other, r) == node_at(env, r));
    match node_at(env, r)->0 {
        Node::Leaf(entries) => {
            assert forall|p: PageRef| #[trigger] owns(other, r, h, p) == owns(env, r, h, p) by {}
        },
        Node::Internal(links) => {
            let below = (h - 1) as nat;
            assert(!owns(env, links[0].page, below, PageRef::Dirty(slot)));
            lemma_hollow_kept(env, other, links[0].page, below, slot);
            assert forall|p: PageRef| #[trigger] owns(other, r, h, p) == owns(env, r, h, p) by {
                assert(owns(other, links[0].page, below, p) == owns(env, links[0].page, below, p));
                if owns(env, r, h, p) && p != r {
                    let i = choose|i: int|
                        0 <= i < links.len() && owns(env, (#[trigger] links[i]).page, below, p);
                    assert(i == 0);
                }
                if owns(other, r, h, p) && p != r {
                    let i = choose|i: int|
                        0 <= i < links.len() && owns(other, (#[trigger] links[i]).page, below, p);
                    assert(i == 0);
                }
            }
        },
    }
}

/// A hollow tree has no entries.
proof fn lemma_hollow_flat(env: Env, r: PageRef, h: nat)
    requires
        hollow(env, r, h),
    ensures
        flat(env, r, h) == Seq::<Entry>::empty(),
    decreases h,
{
    if let Some(Node::Internal(links)) = node_at(env, r) {
        lemma_hollow_flat(env, links[0].page, (h - 1) as nat);
        assert(links =~= seq![links[0]]);
        lemma_flat_all_one(env, links[0], (h - 1) as nat);
    } else {
        assert(flat(env, r, h) =~= Seq::<Entry>::empty());
    }
}

/// Once a node is open, the key can be removed below the right child.
proof fn lemma_removal_ready(
    env: Env,
    mid: Env,
    gone: Set<u64>,
    gone_mid: Set<u64>,
    r: PageRef,
    h: nat,
    slot: usize,
    links: Seq<Link>,
    i: int,
    key: Seq<u8>,
)
    requires
        is_tree(env, r, h),
        opened_at(env, mid, gone, gone_mid, r, slot),
        opened(env, r, h) == Node::Internal(links),
        child_at(links, key, i),
        forall|id: u64| #[trigger]
            owns(env, r, h, PageRef::Committed(id)) ==> !gone.contains(id),
    ensures
        h > 0,
        is_tree(mid, links[i].page, (h - 1) as nat),
        flat(mid, links[i].page, (h - 1) as nat).len() > 0,
        forall|id: u64| #[trigger]
            owns(mid, links[i].page, (h - 1) as nat, PageRef::Committed(id))
                ==> !gone_mid.contains(id),
        snug(env, r, h) ==> snug(mid, links[i].page, (h - 1) as nat),
        lookup(flat(env, r, h), key) == lookup(flat(mid, links[i].page, (h - 1) as nat), key),
        links.len() > 1 ==> flat(env, r, h).len() > 1,
        links.len() == 1 ==> flat(env, r, h).len() == flat(
            mid,
            links[i].page,
            (h - 1) as nat,
        ).len(),
        forall|hand: Set<u64>| #[trigger]
            near_below(env, r, h, hand) ==> near_below(mid, links[i].page, (h - 1) as nat, hand),
{
    let below = (h - 1) as nat;
    let child = links[i].page;
    lemma_removal_entries(env, mid, gone, gone_mid, r, h, slot, links, i, key);
    lemma_opened_children(env, mid, gone, gone_mid, r, h, slot, links);
    lemma_opened_descend(env, r, h, links, key, i);
    lemma_run_child(mid, links, below, i);
    assert forall|id: u64| #[trigger] owns(mid, child, below, PageRef::Committed(id)) implies
        !gone_mid.contains(id) by {
        reveal(opened_at);
        assert(run_owns(mid, links, below, PageRef::Committed(id)));
        assert(owns(env, r, h, PageRef::Committed(id)));
        assert(!run_owns(mid, links, below, r));
    }
    if snug(env, r, h) {
        assert forall|s: usize| #[trigger] owns(mid, child, below, PageRef::Dirty(s)) implies
            node_size(node_at(mid, PageRef::Dirty(s))->0) <= PAGE_END by {
            assert(run_owns(mid, links, below, PageRef::Dirty(s)));
        }
    }
    assert forall|hand: Set<u64>| #[trigger] near_below(env, r, h, hand) implies near_below(
        mid,
        child,
        below,
        hand,
    ) by {
        assert forall|id: u64| #[trigger] owns(mid, child, below, PageRef::Committed(id)) implies hand.contains(id) by {
            assert(run_owns(mid, links, below, PageRef::Committed(id)));
            assert(owns(env, r, h, PageRef::Committed(id)));
        }
    }
    if links.len() > 1 {
        lemma_two_children(mid, links, below, i);
    } else {
        assert(links.take(0) =~= Seq::<Link>::empty());
        assert(links.skip(1) =~= Seq::<Link>::empty());
    }
}

/// What lies below a tightened run lay below the loose one or is new.
proof fn lemma_tightened_owns(
    env: Env,
    other: Env,
    gone: Set<u64>,
    gone_after: Set<u64>,
    links: Seq<Link>,
    index: int,
    h: nat,
    after: Seq<Link>,
)
    requires
        tightened(env, other, gone, gone_after, links, index, h, after),
    ensures
        forall|p: PageRef| #[trigger]
            run_owns(other, after, h, p) ==> loose_owns(env, links, h, index, p) || is_fresh(
                env,
                p,
            ),
{
    reveal(tightened);
}

/// The neighbours of a child that was changed stay as they are, and neither they nor what the
/// child has become uses the slot of their parent.
#[verifier::rlimit(60)]
#[verifier::spinoff_prover]
proof fn lemma_beside(
    env: Env,
    mid: Env,
    later: Env,
    gone: Set<u64>,
    gone_mid: Set<u64>,
    gone_later: Set<u64>,
    r: PageRef,
    h: nat,
    slot: usize,
    links: Seq<Link>,
    i: int,
    page: PageRef,
    first: Seq<u8>,
    key: Seq<u8>,
)
    requires
        is_tree(env, r, h),
        opened_at(env, mid, gone, gone_mid, r, slot),
        opened(env, r, h) == Node::Internal(links),
        child_at(links, key, i),
        h > 0,
        removed(
            mid,
            later,
            gone_mid,
            gone_later,
            links[i].page,
            (h - 1) as nat,
            page,
            key,
        ),
    ensures
        ({
            let below = (h - 1) as nat;
            let loose = links.update(i, Link { key: first, page });
            &&& forall|k: int|
                0 <= k < links.len() && k != i ==> opened(
                    later,
                    (#[trigger] links[k]).page,
                    below,
                ) == opened(mid, links[k].page, below) && node_at(later, links[k].page) == node_at(
                    mid,
                    links[k].page,
                )
            &&& forall|p: PageRef| #[trigger]
                loose_owns(later, loose, below, i, p) ==> p != PageRef::Dirty(slot)
            &&& slot < later.dirty.len()
            &&& forall|s: usize, k: int|
                0 <= k < links.len() && k != i && #[trigger] owns(
                    later,
                    page,
                    below,
                    PageRef::Dirty(s),
                ) ==> (#[trigger] links[k]).page != PageRef::Dirty(s)
        }),
{
    let below = (h - 1) as nat;
    let child = links[i].page;
    let loose = links.update(i, Link { key: first, page });
    let a = links.take(i);
    let b = links.skip(i + 1);
    assert(slot < mid.dirty.len()) by {
        reveal(opened_at);
    }
    assert(changed_below(mid, later, child, below) && forall|p: PageRef| #[trigger]
        owns(later, page, below, p) ==> owns(mid, child, below, p) || is_fresh(mid, p)) by {
        reveal(removed);
    }
    lemma_opened_children(env, mid, gone, gone_mid, r, h, slot, links);
    lemma_run_cut(mid, links, below, i);
    lemma_run_cut(mid, links, below, i + 1);
    lemma_run_child(mid, links, below, i);
    assert(loose.take(i) =~= a);
    assert(loose.skip(i + 1) =~= b);
    assert forall|p: PageRef| true implies {
        &&& #[trigger] run_owns(mid, links, below, p) == (run_owns(mid, a, below, p) || owns(
            mid,
            child,
            below,
            p,
        ) || run_owns(mid, b, below, p))
        &&& !(run_owns(mid, a, below, p) && owns(mid, child, below, p))
        &&& !(owns(mid, child, below, p) && run_owns(mid, b, below, p))
    } by {
        crate::graft::lemma_run_owner(mid, links, below, i, p);
    }
    assert forall|s: usize|
        run_owns(mid, a, below, PageRef::Dirty(s)) || run_owns(
            mid,
            b,
            below,
            PageRef::Dirty(s),
        ) implies #[trigger] node_at(later, PageRef::Dirty(s)) == node_at(mid, PageRef::Dirty(s))
        && s < mid.dirty.len() by {
        let p = PageRef::Dirty(s);
        assert(run_owns(mid, links, below, p));
        lemma_run_slots(mid, links, below, p);
        assert(!owns(mid, child, below, p));
        assert(later.dirty[s as int] == mid.dirty[s as int]);
    }
    lemma_run_kept(mid, later, a, below);
    lemma_run_kept(mid, later, b, below);
    assert forall|k: int| 0 <= k < links.len() && k != i implies opened(
        later,
        (#[trigger] links[k]).page,
        below,
    ) == opened(mid, links[k].page, below) && node_at(later, links[k].page) == node_at(
        mid,
        links[k].page,
    ) by {
        lemma_run_child(mid, links, below, k);
        assert forall|s: usize| #[trigger]
            owns(mid, links[k].page, below, PageRef::Dirty(s)) implies node_at(
            later,
            PageRef::Dirty(s),
        ) == node_at(mid, PageRef::Dirty(s)) by {
            lemma_side_owned(mid, links, below, i, k, PageRef::Dirty(s));
        }
        lemma_opened_kept(mid, later, links[k].page, below);
    }
    assert forall|p: PageRef| #[trigger] loose_owns(later, loose, below, i, p) implies p
        != PageRef::Dirty(slot) by {
        if p == PageRef::Dirty(slot) {
            assert(!run_owns(mid, links, below, p));
            assert(run_owns(later, a, below, p) == run_owns(mid, a, below, p));
            assert(run_owns(later, b, below, p) == run_owns(mid, b, below, p));
        }
    }
    assert forall|s: usize, k: int|
        0 <= k < links.len() && k != i && #[trigger] owns(
            later,
            page,
            below,
            PageRef::Dirty(s),
        ) implies (#[trigger] links[k]).page != PageRef::Dirty(s) by {
        let p = PageRef::Dirty(s);
        if links[k].page == p {
            lemma_owns_root(mid, p, below);
            lemma_side_owned(mid, links, below, i, k, p);
            assert(run_owns(mid, links, below, p));
            assert(!owns(mid, child, below, p));
            assert(node_at(later, p) == node_at(mid, p));
        }
    }
}

/// What lies below a child beside another lies before or behind that one.
proof fn lemma_side_owned(env: Env, links: Seq<Link>, h: nat, i: int, k: int, p: PageRef)
    requires
        0 <= i < links.len(),
        0 <= k < links.len(),
        k != i,
        owns(env, links[k].page, h, p),
    ensures
        run_owns(env, links.take(i), h, p) || run_owns(env, links.skip(i + 1), h, p),
{
    if k < i {
        assert(links.take(i)[k] == links[k]);
    } else {
        assert(links.skip(i + 1)[k - i - 1] == links[k]);
    }
}

/// The children of a node open to the same before and after the node was opened.
proof fn lemma_opened_before(
    env: Env,
    mid: Env,
    gone: Set<u64>,
    gone_mid: Set<u64>,
    r: PageRef,
    h: nat,
    slot: usize,
    links: Seq<Link>,
)
    requires
        is_tree(env, r, h),
        opened_at(env, mid, gone, gone_mid, r, slot),
        opened(env, r, h) == Node::Internal(links),
        h > 0,
    ensures
        forall|k: int|
            0 <= k < links.len() ==> {
                let below = (h - 1) as nat;
                &&& subtree(mid, (#[trigger] links[k]).page, below)
                &&& opened(env, links[k].page, below) == opened(mid, links[k].page, below)
                &&& flat(env, links[k].page, below) == flat(mid, links[k].page, below)
                &&& node_at(env, links[k].page) == node_at(mid, links[k].page)
            },
{
    let below = (h - 1) as nat;
    lemma_opened_children(env, mid, gone, gone_mid, r, h, slot, links);
    assert(env.pages == mid.pages && env.count == mid.count) by {
        reveal(opened_at);
    }
    assert forall|k: int| 0 <= k < links.len() implies subtree(
        mid,
        (#[trigger] links[k]).page,
        below,
    ) && opened(env, links[k].page, below) == opened(mid, links[k].page, below) && flat(
        env,
        links[k].page,
        below,
    ) == flat(mid, links[k].page, below) && node_at(env, links[k].page) == node_at(
        mid,
        links[k].page,
    ) by {
        lemma_run_child(mid, links, below, k);
        assert forall|s: usize| #[trigger]
            owns(mid, links[k].page, below, PageRef::Dirty(s)) implies node_at(
            env,
            PageRef::Dirty(s),
        ) == node_at(mid, PageRef::Dirty(s)) by {
            assert(run_owns(mid, links, below, PageRef::Dirty(s)));
            assert(run_owns(env, links, below, PageRef::Dirty(s)));
        }
        lemma_opened_kept(mid, env, links[k].page, below);
    }
}

/// A node has turned into what its settled children make it.
#[verifier::rlimit(80)]
#[verifier::spinoff_prover]
proof fn lemma_turned(
    env: Env,
    mid: Env,
    later: Env,
    last: Env,
    other: Env,
    gone: Set<u64>,
    gone_mid: Set<u64>,
    gone_later: Set<u64>,
    r: PageRef,
    h: nat,
    slot: usize,
    links: Seq<Link>,
    i: int,
    page: PageRef,
    first: Seq<u8>,
    after: Seq<Link>,
    key: Seq<u8>,
)
    requires
        is_tree(env, r, h),
        opened_at(env, mid, gone, gone_mid, r, slot),
        opened(env, r, h) == Node::Internal(links),
        child_at(links, key, i),
        h > 0,
        removed(
            mid,
            later,
            gone_mid,
            gone_later,
            links[i].page,
            (h - 1) as nat,
            page,
            key,
        ),
        node_at(later, page) is Some,
        turns_into(mid, later, links[i].page, (h - 1) as nat, key, node_at(later, page)->0),
        ({
            let below = (h - 1) as nat;
            let loose = links.update(i, Link { key: first, page });
            let inner = node_at(later, page)->0;
            if links.len() > 1 && vacated(mid, links[i].page, below) {
                after == links.remove(i) && last == later
            } else {
                &&& keeps_slots(later, last, loose)
                &&& forall|p: PageRef| #[trigger]
                    run_owns(last, after, below, p) ==> loose_owns(later, loose, below, i, p)
                        || is_fresh(later, p)
                &&& if node_size(inner) > PAGE_END {
                    around(loose, i, 1, after, 2) && halves(
                        last,
                        inner,
                        after[i].page,
                        after[i + 1].page,
                    )
                } else {
                    balanced(later, last, loose, i, below, inner, after)
                }
            }
        }),
        other == (Env {
            dirty: last.dirty.update(slot as int, Some(Node::Internal(after))),
            ..last
        }),
    ensures
        node_at(other, PageRef::Dirty(slot)) == Some(Node::Internal(after)),
        turns_into(env, other, r, h, key, Node::Internal(after)),
{
    let below = (h - 1) as nat;
    let child = links[i].page;
    let loose = links.update(i, Link { key: first, page });
    let inner = node_at(later, page)->0;
    lemma_beside(
        env,
        mid,
        later,
        gone,
        gone_mid,
        gone_later,
        r,
        h,
        slot,
        links,
        i,
        page,
        first,
        key,
    );
    lemma_opened_children(env, mid, gone, gone_mid, r, h, slot, links);
    assert(env.pages == mid.pages && env.count == mid.count) by {
        reveal(opened_at);
    }
    assert(page is Dirty && later.pages == mid.pages && later.count == mid.count && (!vacated(
        mid,
        child,
        below,
    ) ==> subtree(later, page, below) || below == 0)) by {
        reveal(removed);
        lemma_removed_child(mid, later, gone_mid, gone_later, child, below, page, key);
    }
    lemma_opened_before(env, mid, gone, gone_mid, r, h, slot, links);
    let dropped = links.len() > 1 && vacated(mid, child, below);
    if !dropped {
        assert forall|k: int| 0 <= k < after.len() implies node_at(
            other,
            (#[trigger] after[k]).page,
        ) == node_at(last, after[k].page) by {
            lemma_owns_root(last, after[k].page, below);
            assert(run_owns(last, after, below, after[k].page));
        }
        assert(loose.take(i) =~= links.take(i));
        assert(loose.skip(i + 1) =~= links.skip(i + 1));
        let left = left_of(i);
        assert(loose.take(left) =~= links.take(left));
        if links.len() > 1 {
            assert(loose.skip(left + 2) =~= links.skip(left + 2));
        }
        assert(pair_of(later, loose, i, below, inner) == pair_of(env, links, i, below, inner)
            || links.len() == 1);
    }
    if dropped {
        assert forall|k: int| 0 <= k < after.len() implies node_at(
            other,
            (#[trigger] after[k]).page,
        ) == node_at(env, after[k].page) by {
            let j = if k < i {
                k
            } else {
                k + 1
            };
            assert(after[k] == links[j]);
            lemma_owns_root(later, links[j].page, below);
            lemma_side_owned(later, links, below, i, j, links[j].page);
            assert(loose.take(i) =~= links.take(i));
            assert(loose.skip(i + 1) =~= links.skip(i + 1));
            assert(loose_owns(later, loose, below, i, links[j].page));
        }
    }
    assert(vacated(env, links[i].page, below) == vacated(mid, child, below));
    assert(settles(env, other, links, key, i, below, inner, after));
    if !vacated(mid, child, below) {
        lemma_run_child(mid, links, below, i);
        if let Node::Internal(children) = inner {
            assert forall|s: usize| #[trigger]
                run_owns(later, children, (below - 1) as nat, PageRef::Dirty(s)) implies node_at(
                other,
                PageRef::Dirty(s),
            ) == node_at(later, PageRef::Dirty(s)) by {
                let p = PageRef::Dirty(s);
                if below > 0 {
                    lemma_opened_body(later, page, below);
                    assert(body_owns(later, inner, below, p));
                    assert(owns(later, page, below, p) && p != page);
                    lemma_owned_slots(later, page, below, p);
                    assert(loose_owns(later, loose, below, i, p));
                    assert forall|k: int| 0 <= k < loose.len() implies (
                    #[trigger] loose[k]).page != p by {
                        if k != i {
                            assert(loose[k] == links[k]);
                        }
                    }
                    assert(node_at(last, p) == node_at(later, p));
                } else {
                    reveal(turns_into);
                    reveal(subtree);
                }
            }
        }
        assert forall|s: usize| #[trigger] owns(mid, child, below, PageRef::Dirty(s)) implies node_at(
            env,
            PageRef::Dirty(s),
        ) == node_at(mid, PageRef::Dirty(s)) by {
            assert(run_owns(mid, links, below, PageRef::Dirty(s)));
            assert(run_owns(env, links, below, PageRef::Dirty(s)));
        }
        lemma_turns_kept(mid, env, later, other, child, below, key, inner);
        assert(turns_into(env, other, links[i].page, below, key, inner));
    }
    lemma_turned_into(env, other, r, h, links, key, i, inner, after);
}

/// What turning into a settled node means.
proof fn lemma_turned_into(
    env: Env,
    other: Env,
    r: PageRef,
    h: nat,
    links: Seq<Link>,
    key: Seq<u8>,
    i: int,
    inner: Node,
    after: Seq<Link>,
)
    requires
        h > 0,
        opened(env, r, h) == Node::Internal(links),
        settles(env, other, links, key, i, (h - 1) as nat, inner, after),
        vacated(env, links[i].page, (h - 1) as nat) || turns_into(
            env,
            other,
            links[i].page,
            (h - 1) as nat,
            key,
            inner,
        ),
    ensures
        turns_into(env, other, r, h, key, Node::Internal(after)),
{
    reveal(turns_into);
    let node = Node::Internal(after);
    assert(settles(env, other, links, key, i, (h - 1) as nat, inner, node->Internal_0));
}

/// Beside one of several children there are entries.
proof fn lemma_two_children(env: Env, links: Seq<Link>, h: nat, i: int)
    requires
        run_ok(env, links, h),
        links.len() > 1,
        0 <= i < links.len(),
    ensures
        flat_all(env, links.take(i), h).len() + flat_all(env, links.skip(i + 1), h).len() > 0,
{
    if i > 0 {
        let a = links.take(i);
        lemma_run_cut(env, links, h, i);
        lemma_run_child(env, a, h, 0);
        crate::model::lemma_flat_all_split(env, a, h, 0);
    } else {
        let b = links.skip(1);
        lemma_run_cut(env, links, h, 1);
        lemma_run_child(env, b, h, 0);
        crate::model::lemma_flat_all_split(env, b, h, 0);
    }
}

impl MutableTree {
    /// Removes a key below one of the children of a node that was taken out of its slot, and
    /// says whether nothing is left below it.
    ///
    /// An internal child below which nothing is left is taken out, and a child whose keys
    /// have outgrown its page is split.
    #[verifier::rlimit(60)]
    #[verifier::spinoff_prover]
    fn delete_below<R: PageReader>(
        &mut self,
        reader: &mut R,
        slot: usize,
        before: Vec<Child>,
        key: &[u8],
        depth: usize,
        Ghost(env): Ghost<Env>,
        Ghost(gone): Ghost<Set<u64>>,
        Ghost(page): Ghost<PageRef>,
        Ghost(h): Ghost<nat>,
        Ghost(good): Ghost<bool>,
    ) -> (result: Result<bool>)
        requires
            old(reader).usable(),
            old(self).inv(),
            slot < old(self).dirty@.len(),
            depth < MAX_DEPTH,
            before@.len() > 0,
            keys_fit(links_of(before@)),
            good ==> {
                &&& is_tree(env, page, h)
                &&& forall|id: u64| #[trigger]
                    owns(env, page, h, PageRef::Committed(id)) ==> !gone.contains(id)
                &&& lookup(flat(env, page, h), key@) is Some
                &&& opened_at(
                    env,
                    old(self).env(old(reader).pages()),
                    gone,
                    old(self).retired@,
                    page,
                    slot,
                )
                &&& opened(env, page, h) == Node::Internal(links_of(before@))
                &&& snug(env, page, h) ==> internal_size(links_of(before@)) <= PAGE_END
            },
        ensures
            final(reader).usable(),
            final(reader).origin() == old(reader).origin(),
            old(reader).failures() <= final(reader).failures(),
            hoards(*old(reader), *final(reader)),
            honest(
                result,
                old(reader).failures(),
                final(reader).failures(),
                final(reader).reported(),
                incomplete(old(reader).pages(), old(self).page_count),
            ),
            final(reader).pages() == old(reader).pages(),
            match result {
                Ok(vacant) => {
                    &&& final(self).inv()
                    &&& same_but_opened(*old(self), *final(self))
                    &&& final(self).dirty@.len() >= old(self).dirty@.len()
                    &&& good ==> removed(
                        env,
                        final(self).env(old(reader).pages()),
                        gone,
                        final(self).retired@,
                        page,
                        h,
                        PageRef::Dirty(slot),
                        key@,
                    ) && vacant == (flat(env, page, h).len() == 1)
                    &&& good ==> node_at(
                        final(self).env(old(reader).pages()),
                        PageRef::Dirty(slot),
                    ) is Some && turns_into(
                        env,
                        final(self).env(old(reader).pages()),
                        page,
                        h,
                        key@,
                        node_at(final(self).env(old(reader).pages()), PageRef::Dirty(slot))->0,
                    )
                },
                Err(error) => fails_for(
                    error,
                    !(good && depth + h < MAX_DEPTH && snug(env, page, h)),
                    final(reader).failures() > old(reader).failures(),
                ),
            },
            good ==> steady(
                near_below(env, page, h, old(reader).at_hand()),
                old(reader).at_hand(),
                final(reader).at_hand(),
                result,
            ),
        decreases MAX_DEPTH - depth, 0nat,
    {
        let mut children = before;
        let ghost pages = reader.pages();
        let ghost mid = self.env(pages);
        let ghost gone_mid = self.retired@;
        let ghost links = links_of(children@);
        let index = child_index(children.as_slice(), key);
        let ghost at = index as int;
        let ghost below = (h - 1) as nat;
        proof {
            assert(links[at] == children@[at]@);
            if good {
                lemma_opened_descend(env, page, h, links, key@, at);
                lemma_removal_ready(env, mid, gone, gone_mid, page, h, slot, links, at, key@);
            }
        }
        let old_page = children[index].page;
        let ghost hand = reader.at_hand();
        let ghost near = good && near_below(env, page, h, hand);
        let single = children.len() == 1;
        let (child_slot, vacant) = self.delete_from(
            reader,
            old_page,
            key,
            depth + 1,
            Ghost(below),
        )?;
        let child_page = PageRef::Dirty(child_slot);
        let ghost later = self.env(pages);
        let ghost gone_later = self.retired@;
        proof {
            if good {
                lemma_removed_child(
                    mid,
                    later,
                    gone_mid,
                    gone_later,
                    old_page,
                    below,
                    child_page,
                    key@,
                );
                if depth + h < MAX_DEPTH && flat(mid, old_page, below).len() > 1 {
                    assert(sits(later, child_page, (depth + 1) as nat));
                }
            }
        }
        if vacant && !single {
            children.remove(index);
            let ghost after = links_of(children@);
            proof {
                assert(after =~= links.remove(at));
                assert forall|k: int| 0 <= k < after.len() implies (#[trigger] after[k]).key.len()
                    <= MAX_KEY_SIZE by {
                    if k < at {
                        assert(after[k] == links[k]);
                    } else {
                        assert(after[k] == links[k + 1]);
                    }
                }
            }
            assert(arena(self.dirty@).len() == self.dirty@.len());
            self.put_dirty(slot, MutableNode::Internal(children))?;
            proof {
                if good {
                    lemma_child_dropped(
                        env,
                        mid,
                        later,
                        self.env(pages),
                        gone,
                        gone_mid,
                        gone_later,
                        page,
                        h,
                        slot,
                        links,
                        at,
                        child_page,
                        key@,
                    );
                    lemma_turned(
                        env,
                        mid,
                        later,
                        later,
                        self.env(pages),
                        gone,
                        gone_mid,
                        gone_later,
                        page,
                        h,
                        slot,
                        links,
                        at,
                        child_page,
                        Seq::empty(),
                        after,
                        key@,
                    );
                }
            }
            return Ok(false);
        }
        let emptied = self.node_is_empty(reader, child_page)?;
        let first_key = if emptied {
            copy_bytes(&children[index].first_key)
        } else {
            self.first_key(reader, child_page, depth + 1)?
        };
        let ghost first = first_key@;
        children.set(index, Child { first_key, page: child_page });
        let ghost loose = links.update(at, Link { key: first, page: child_page });
        let ghost solid = good && (flat(mid, old_page, below).len() > 1 || links.len() > 1);
        proof {
            assert(links_of(children@) =~= loose);
            assert(keys_fit(loose));
            if good {
                assert(subtree(later, child_page, below) || child_page is Dirty);
                lemma_first_after_removal(
                    mid,
                    later,
                    gone_mid,
                    gone_later,
                    old_page,
                    below,
                    child_page,
                    key@,
                );
                if solid {
                    lemma_loosened(
                        env,
                        mid,
                        later,
                        gone,
                        gone_mid,
                        gone_later,
                        page,
                        h,
                        slot,
                        links,
                        at,
                        child_page,
                        first,
                        key@,
                    );
                    if near {
                        assert(loose_near(later, loose, below, at, hand));
                    }
                }
                lemma_removed_size(
                    mid,
                    later,
                    gone_mid,
                    gone_later,
                    old_page,
                    below,
                    child_page,
                    key@,
                );
            }
        }
        let oversized = self.is_oversized(child_slot)?;
        if oversized {
            self.split_child(
                reader,
                &mut children,
                index,
                child_slot,
                depth + 1,
                Ghost(below),
            )?;
        } else {
            self.rebalance(reader, &mut children, index, depth + 1, Ghost(below))?;
        }
        let ghost last = self.env(pages);
        let ghost after = links_of(children@);
        proof {
            if solid && snug(env, page, h) && !oversized {
                lemma_settled_snug(
                    later,
                    last,
                    gone_later,
                    self.retired@,
                    loose,
                    at,
                    below,
                    after,
                );
            }
        }
        assert(arena(self.dirty@).len() == self.dirty@.len());
        self.put_dirty(slot, MutableNode::Internal(children))?;
        proof {
            if good {
                if solid {
                    lemma_internal_removed(
                        env,
                        mid,
                        later,
                        last,
                        self.env(pages),
                        gone,
                        gone_mid,
                        gone_later,
                        self.retired@,
                        page,
                        h,
                        slot,
                        links,
                        at,
                        child_page,
                        first,
                        after,
                        key@,
                    );
                } else {
                    assert(after =~= seq![Link { key: first, page: child_page }]);
                    lemma_hollow_removed(
                        env,
                        mid,
                        later,
                        self.env(pages),
                        gone,
                        gone_mid,
                        gone_later,
                        page,
                        h,
                        slot,
                        links,
                        child_page,
                        first,
                        key@,
                    );
                }
                if solid {
                    lemma_tightened_owns(
                        later,
                        last,
                        gone_later,
                        self.retired@,
                        loose,
                        at,
                        below,
                        after,
                    );
                }
                lemma_turned(
                    env,
                    mid,
                    later,
                    last,
                    self.env(pages),
                    gone,
                    gone_mid,
                    gone_later,
                    page,
                    h,
                    slot,
                    links,
                    at,
                    child_page,
                    first,
                    after,
                    key@,
                );
            }
        }
        Ok(single && (vacant || emptied))
    }

    /// Removes a key that is stored below a node. Says in which slot the node is, and whether
    /// it is an internal node below which nothing is left.
    fn delete_from<R: PageReader>(
        &mut self,
        reader: &mut R,
        page: PageRef,
        key: &[u8],
        depth: usize,
        Ghost(h): Ghost<nat>,
    ) -> (result: Result<(usize, bool)>)
        requires
            old(reader).usable(),
            old(self).inv(),
            depth <= MAX_DEPTH,
        ensures
            final(reader).usable(),
            final(reader).origin() == old(reader).origin(),
            old(reader).failures() <= final(reader).failures(),
            hoards(*old(reader), *final(reader)),
            honest(
                result,
                old(reader).failures(),
                final(reader).failures(),
                final(reader).reported(),
                incomplete(old(reader).pages(), old(self).page_count),
            ),
            final(reader).pages() == old(reader).pages(),
            ({
                let pages = old(reader).pages();
                let env = old(self).env(pages);
                let good = is_tree(env, page, h) && old(self).apart(pages, page, h) && lookup(
                    flat(env, page, h),
                    key@,
                ) is Some;
                match result {
                    Ok((slot, vacant)) => {
                        &&& final(self).inv()
                        &&& same_but_opened(*old(self), *final(self))
                        &&& final(self).dirty@.len() >= old(self).dirty@.len()
                        &&& slot < final(self).dirty@.len()
                        &&& good ==> removed(
                            env,
                            final(self).env(pages),
                            old(self).retired@,
                            final(self).retired@,
                            page,
                            h,
                            PageRef::Dirty(slot),
                            key@,
                        ) && vacant == (h > 0 && flat(env, page, h).len() == 1)
                        &&& good ==> node_at(final(self).env(pages), PageRef::Dirty(slot)) is Some
                            && turns_into(
                            env,
                            final(self).env(pages),
                            page,
                            h,
                            key@,
                            node_at(final(self).env(pages), PageRef::Dirty(slot))->0,
                        )
                    },
                    Err(error) => fails_for(
                        error,
                        !(good && depth + h < MAX_DEPTH && snug(env, page, h)),
                        final(reader).failures() > old(reader).failures(),
                    ),
                }
            }),
            ({
                let env = old(self).env(old(reader).pages());
                is_tree(env, page, h) && old(self).apart(old(reader).pages(), page, h) && lookup(
                    flat(env, page, h),
                    key@,
                ) is Some ==> steady(
                    near_below(env, page, h, old(reader).at_hand()),
                    old(reader).at_hand(),
                    final(reader).at_hand(),
                    result,
                )
            }),
        decreases MAX_DEPTH - depth, 1nat,
    {
        if depth >= MAX_DEPTH {
            return Err(corrupt("tree exceeds maximum depth"));
        }
        let ghost pages = reader.pages();
        let ghost env = self.env(pages);
        let ghost gone = self.retired@;
        let ghost good = is_tree(env, page, h) && self.apart(pages, page, h) && lookup(
            flat(env, page, h),
            key@,
        ) is Some;
        let (slot, node) = self.open_node(reader, page, depth, Ghost(h))?;
        let ghost mid = self.env(pages);
        let ghost gone_mid = self.retired@;
        match node {
            MutableNode::Leaf(mut entries) => {
                let ghost view = entries_of(entries@);
                proof {
                    broadcast use group_order;

                    if good {
                        lemma_opened_body(env, page, h);
                    }
                }
                let index = match entry_index(entries.as_slice(), key) {
                    Ok(index) => index,
                    Err(_) => {
                        proof {
                            broadcast use group_order;

                            if good {
                                let k = choose|k: int|
                                    0 <= k < view.len() && (#[trigger] view[k]).key == key@;
                                assert(false);
                            }
                        }
                        return Err(corrupt("delete key disappeared during mutation"));
                    },
                };
                proof {
                    assert(view[index as int] == entries@[index as int]@);
                    lemma_remove_size(view, index as int);
                }
                entries.remove(index);
                let ghost after = view.remove(index as int);
                proof {
                    assert(entries_of(entries@) =~= after);
                    assert(forall|i: int| 0 <= i < index ==> after[i] == view[i]);
                    assert(forall|i: int| index <= i < after.len() ==> after[i] == view[i + 1]);
                    assert(entries_fit(after));
                }
                self.put_dirty(slot, MutableNode::Leaf(entries))?;
                proof {
                    if good {
                        assert(opened_at(
                            env,
                            self.env(pages),
                            gone,
                            gone_mid,
                            page,
                            slot,
                        )) by {
                            reveal(opened_at);
                        }
                        lemma_leaf_removed(
                            env,
                            self.env(pages),
                            gone,
                            gone_mid,
                            page,
                            slot,
                            index as int,
                            key@,
                        );
                        reveal(subtree);
                        assert(turns_into(
                            env,
                            self.env(pages),
                            page,
                            h,
                            key@,
                            Node::Leaf(after),
                        )) by {
                            reveal(turns_into);
                            assert(drops_at(view, after, key@, index as int));
                        }
                    }
                }
                Ok((slot, false))
            },
            MutableNode::Internal(children) => {
                let vacant = self.delete_below(
                    reader,
                    slot,
                    children,
                    key,
                    depth,
                    Ghost(env),
                    Ghost(gone),
                    Ghost(page),
                    Ghost(h),
                    Ghost(good),
                )?;
                proof {
                    if good {
                        reveal(subtree);
                    }
                }
                Ok((slot, vacant))
            },
        }
    }
}

/// Where the child that has lost an entry fits into a page, so does the run around it.
proof fn lemma_settled_snug(
    env: Env,
    other: Env,
    gone: Set<u64>,
    gone_after: Set<u64>,
    links: Seq<Link>,
    index: int,
    h: nat,
    after: Seq<Link>,
)
    requires
        tightened(env, other, gone, gone_after, links, index, h, after),
        snug_around(env, links, h, index),
        links[index].page is Dirty,
        node_size(node_at(env, links[index].page)->0) <= PAGE_END,
    ensures
        snug_run(other, after, h),
{
    assert(snug_loose(env, links, h, index)) by {
        assert forall|s: usize| #[trigger]
            loose_owns(env, links, h, index, PageRef::Dirty(s)) implies node_size(
            node_at(env, PageRef::Dirty(s))->0,
        ) <= PAGE_END by {
            if PageRef::Dirty(s) == links[index].page {
                assert(node_at(env, PageRef::Dirty(s)) == node_at(env, links[index].page));
            }
        }
    }
    lemma_tightened_snug(env, other, gone, gone_after, links, index, h, after);
}

/// Removing the last entry below one of several internal children, which is taken out.
proof fn lemma_child_dropped(
    env: Env,
    mid: Env,
    later: Env,
    other: Env,
    gone: Set<u64>,
    gone_mid: Set<u64>,
    gone_later: Set<u64>,
    r: PageRef,
    h: nat,
    slot: usize,
    links: Seq<Link>,
    i: int,
    page: PageRef,
    key: Seq<u8>,
)
    requires
        is_tree(env, r, h),
        opened_at(env, mid, gone, gone_mid, r, slot),
        opened(env, r, h) == Node::Internal(links),
        child_at(links, key, i),
        h > 0,
        links.len() > 1,
        keys_fit(links),
        removed(
            mid,
            later,
            gone_mid,
            gone_later,
            links[i].page,
            (h - 1) as nat,
            page,
            key,
        ),
        flat(mid, links[i].page, (h - 1) as nat).len() == 1,
        forall|id: u64| #[trigger]
            owns(env, r, h, PageRef::Committed(id)) ==> !gone.contains(id),
        other == (Env {
            dirty: later.dirty.update(slot as int, Some(Node::Internal(links.remove(i)))),
            ..later
        }),
        keys_fit(links.remove(i)),
        snug(env, r, h) ==> internal_size(links) <= PAGE_END,
    ensures
        removed(env, other, gone, gone_later, r, h, PageRef::Dirty(slot), key),
{
    let below = (h - 1) as nat;
    let first = links[i].key;
    let loose = links.update(i, Link { key: first, page });
    let after = loose.remove(i);
    assert(after =~= links.remove(i));
    lemma_removed_size(mid, later, gone_mid, gone_later, links[i].page, below, page, key);
    lemma_loosened(
        env,
        mid,
        later,
        gone,
        gone_mid,
        gone_later,
        r,
        h,
        slot,
        links,
        i,
        page,
        first,
        key,
    );
    assert(loose[i].page == page);
    lemma_tightened_dropped(later, gone_later, loose, i, below);
    if snug(env, r, h) {
        lemma_emptied_snug(later, loose, below, i);
        lemma_tightened_snug(later, later, gone_later, gone_later, loose, i, below, after);
    }
    lemma_internal_removed(
        env,
        mid,
        later,
        later,
        other,
        gone,
        gone_mid,
        gone_later,
        gone_later,
        r,
        h,
        slot,
        links,
        i,
        page,
        first,
        after,
        key,
    );
}

/// An emptied child does not make a run too large for its pages.
proof fn lemma_emptied_snug(env: Env, links: Seq<Link>, h: nat, index: int)
    requires
        hollow(env, links[index].page, h),
        snug_around(env, links, h, index),
    ensures
        snug_loose(env, links, h, index),
{
    lemma_hollow_snug(env, links[index].page, h);
    lemma_owns_root(env, links[index].page, h);
}

/// A run that has taken the place of a loose one fits into pages where that did.
proof fn lemma_tightened_snug(
    env: Env,
    other: Env,
    gone: Set<u64>,
    gone_after: Set<u64>,
    links: Seq<Link>,
    index: int,
    h: nat,
    after: Seq<Link>,
)
    requires
        tightened(env, other, gone, gone_after, links, index, h, after),
        snug_loose(env, links, h, index),
    ensures
        snug_run(other, after, h),
{
    reveal(tightened);
}

/// How large a node is after a removal below it.
proof fn lemma_removed_size(
    env: Env,
    other: Env,
    gone: Set<u64>,
    gone_after: Set<u64>,
    r: PageRef,
    h: nat,
    page: PageRef,
    key: Seq<u8>,
)
    requires
        removed(env, other, gone, gone_after, r, h, page, key),
    ensures
        snug(env, r, h) ==> node_size(node_at(other, page)->0) <= PAGE_END + 3 * (SLOT_SIZE
            + MAX_KEY_SIZE) && snug_under(other, page, h),
        flat(env, r, h).len() == 1 ==> hollow(other, page, h) && node_size(
            node_at(other, page)->0,
        ) <= PAGE_END && !(node_at(other, page)->0 is Internal && is_bare(node_at(other, page)->0)),
        flat(env, r, h).len() > 1 && node_size(node_at(other, page)->0) > PAGE_END ==> node_at(
            other,
            page,
        )->0 is Internal,
        flat(env, r, h).len() > 1 ==> !is_bare(node_at(other, page)->0),
        flat(env, r, h).len() > 1 && PAGE_END < node_size(node_at(other, page)->0) <= PAGE_END + 3
            * (SLOT_SIZE + MAX_KEY_SIZE) ==> crate::node::can_split(opened(other, page, h)),
        flat(env, r, h).len() == flat(other, page, h).len() + 1,
{
    reveal(removed);
    let p = choose|p: int| drops_at(flat(env, r, h), flat(other, page, h), key, p);
    let node = node_at(other, page)->0;
    if flat(env, r, h).len() == 1 {
        lemma_hollow_snug(other, page, h);
        lemma_owns_root(other, page, h);
    } else {
        lemma_opened_body(other, page, h);
        if let Node::Internal(links) = node {
            reveal(subtree);
            assert(links.len() > 0 && keys_fit(links));
            if PAGE_END < internal_size(links) <= PAGE_END + 3 * (SLOT_SIZE + MAX_KEY_SIZE) {
                crate::graft::lemma_internal_splittable(links);
            }
        }
    }
}

/// What a removal below a child leaves.
proof fn lemma_removed_child(
    env: Env,
    other: Env,
    gone: Set<u64>,
    gone_after: Set<u64>,
    r: PageRef,
    h: nat,
    page: PageRef,
    key: Seq<u8>,
)
    requires
        removed(env, other, gone, gone_after, r, h, page, key),
    ensures
        page is Dirty,
        node_at(other, page) is Some,
        flat(env, r, h).len() > 1 ==> subtree(other, page, h),
        flat(env, r, h).len() == flat(other, page, h).len() + 1,
        flat(env, r, h).len() == 1 && h == 0 ==> subtree(other, page, h),
{
    reveal(removed);
    let p = choose|p: int| drops_at(flat(env, r, h), flat(other, page, h), key, p);
    if flat(env, r, h).len() == 1 && h == 0 {
        lemma_hollow_leaf(other, page);
    }
}

/// Only an emptied leaf has neither entries nor children after a removal.
proof fn lemma_first_after_removal(
    env: Env,
    other: Env,
    gone: Set<u64>,
    gone_after: Set<u64>,
    r: PageRef,
    h: nat,
    page: PageRef,
    key: Seq<u8>,
)
    requires
        removed(env, other, gone, gone_after, r, h, page, key),
    ensures
        flat(other, page, h).len() > 0 ==> !is_bare(opened(other, page, h)),
{
    reveal(removed);
    if flat(other, page, h).len() > 0 {
        let p = choose|p: int| drops_at(flat(env, r, h), flat(other, page, h), key, p);
        lemma_opened_body(other, page, h);
    }
}

// ---------------------------------------------------------------------------
// Whole trees
// ---------------------------------------------------------------------------

/// Whether a node heads a well-formed tree or a hollow one.
spec fn stands(env: Env, r: PageRef, h: nat) -> bool {
    is_tree(env, r, h) || hollow(env, r, h)
}

/// Whether a node in memory heads a tree that spreads once the node gives way to its child, if
/// it has only one.
spec fn pliant(env: Env, r: PageRef, h: nat) -> bool {
    &&& r is Dirty
    &&& branching_body(env, node_at(env, r)->0, h, true)
    &&& lone_wide(env, node_at(env, r)->0)
}

/// A root with a single child can give way to the child.
proof fn lemma_collapse(env: Env, slot: usize, h: nat, links: Seq<Link>)
    requires
        stands(env, PageRef::Dirty(slot), h),
        node_at(env, PageRef::Dirty(slot)) == Some(Node::Internal(links)),
        links.len() == 1,
    ensures
        h > 0,
        stands(env, links[0].page, (h - 1) as nat),
        flat(env, links[0].page, (h - 1) as nat) == flat(env, PageRef::Dirty(slot), h),
        forall|id: u64| #[trigger]
            owns(env, links[0].page, (h - 1) as nat, PageRef::Committed(id)) == owns(
                env,
                PageRef::Dirty(slot),
                h,
                PageRef::Committed(id),
            ),
        snug(env, PageRef::Dirty(slot), h) ==> snug(env, links[0].page, (h - 1) as nat),
        branching_run(env, links, (h - 1) as nat, true) ==> branching(
            env,
            links[0].page,
            (h - 1) as nat,
            true,
        ),
{
    reveal(subtree);
    reveal(run_ok);
    reveal(owns);
    let r = PageRef::Dirty(slot);
    let below = (h - 1) as nat;
    assert(links =~= seq![links[0]]);
    lemma_flat_all_one(env, links[0], below);
    if is_tree(env, r, h) {
        lemma_run_child(env, links, below, 0);
    }
    assert forall|id: u64| #[trigger]
        owns(env, links[0].page, below, PageRef::Committed(id)) == owns(
            env,
            r,
            h,
            PageRef::Committed(id),
        ) by {
        let p = PageRef::Committed(id);
        if owns(env, r, h, p) {
            let i = choose|i: int|
                0 <= i < links.len() && owns(env, (#[trigger] links[i]).page, below, p);
            assert(i == 0);
        }
        if owns(env, links[0].page, below, p) {
            assert(owns(env, links[0].page, below, p));
        }
    }
    if snug(env, r, h) {
        assert forall|s: usize| #[trigger] owns(env, links[0].page, below, PageRef::Dirty(s)) implies
            node_size(node_at(env, PageRef::Dirty(s))->0) <= PAGE_END by {
            assert(owns(env, r, h, PageRef::Dirty(s)));
        }
    }
}

/// A removal leaves a tree or a hollow one.
proof fn lemma_removed_stands(
    env: Env,
    other: Env,
    gone: Set<u64>,
    gone_after: Set<u64>,
    r: PageRef,
    h: nat,
    page: PageRef,
    key: Seq<u8>,
)
    requires
        is_tree(env, r, h),
        removed(env, other, gone, gone_after, r, h, page, key),
    ensures
        stands(other, page, h),
        drops(flat(env, r, h), flat(other, page, h), key),
        snug(env, r, h) ==> snug_under(other, page, h),
        snug(env, r, h) && node_size(node_at(other, page)->0) <= PAGE_END ==> snug(other, page, h),
        page is Dirty,
        branching(env, r, h, true) ==> branching_body(other, node_at(other, page)->0, h, true),
{
    reveal(removed);
    lemma_drops(flat(env, r, h), flat(other, page, h), key);
    if snug(env, r, h) && node_size(node_at(other, page)->0) <= PAGE_END {
        assert forall|s: usize| #[trigger] owns(other, page, h, PageRef::Dirty(s)) implies
            node_size(node_at(other, PageRef::Dirty(s))->0) <= PAGE_END by {
            if PageRef::Dirty(s) == page {
                assert(node_at(other, PageRef::Dirty(s)) == node_at(other, page));
            }
        }
    }
}

/// The pages of the value that is removed can be left behind.
proof fn lemma_removed_value(
    env: Env,
    other: Env,
    gone: Set<u64>,
    gone_after: Set<u64>,
    r: PageRef,
    h: nat,
    page: PageRef,
    key: Seq<u8>,
    old_value: Stored,
)
    requires
        is_tree(env, r, h),
        forall|id: u64| #[trigger]
            owns(env, r, h, PageRef::Committed(id)) ==> !gone.contains(id),
        removed(env, other, gone, gone_after, r, h, page, key),
        lookup(flat(env, r, h), key) == Some(old_value),
    ensures
        value_ok(env.pages, env.count, old_value),
        fresh_chain(value_pages(env.pages, env.count, old_value), gone_after),
{
    reveal(removed);
    let entries = flat(env, r, h);
    let k = choose|k: int| 0 <= k < entries.len() && (#[trigger] entries[k]).key == key;
    crate::insert::lemma_entry_readable(env, r, h, k);
    let ids = value_pages(env.pages, env.count, old_value);
    assert forall|i: int| 0 <= i < ids.len() implies !gone_after.contains(#[trigger] ids[i]) by {
        let p = PageRef::Committed(ids[i]);
        assert(ids.contains(ids[i]));
        assert(value_owns(env, old_value, p));
        assert(old_value_owns(env, entries, key, p));
        crate::insert::lemma_tree_value(env, r, h, key, p);
    }
}

/// What belongs to the tree and what was left behind, once the pages of the removed
/// value are left behind too.
proof fn lemma_delete_accounts(
    env: Env,
    other: Env,
    gone: Set<u64>,
    gone_mid: Set<u64>,
    gone_after: Set<u64>,
    r: PageRef,
    h: nat,
    page: PageRef,
    key: Seq<u8>,
    old_value: Stored,
)
    requires
        is_tree(env, r, h),
        forall|id: u64| #[trigger]
            owns(env, r, h, PageRef::Committed(id)) ==> !gone.contains(id),
        removed(env, other, gone, gone_mid, r, h, page, key),
        lookup(flat(env, r, h), key) == Some(old_value),
        gone_after == gone_mid.union(value_pages(env.pages, env.count, old_value).to_set()),
    ensures
        forall|id: u64| #[trigger]
            owns(other, page, h, PageRef::Committed(id)) ==> !gone_after.contains(id) && owns(
                env,
                r,
                h,
                PageRef::Committed(id),
            ),
        forall|id: u64| #[trigger]
            gone_after.contains(id) ==> gone.contains(id) || owns(env, r, h, PageRef::Committed(id)),
        forall|id: u64| #[trigger]
            owns(env, r, h, PageRef::Committed(id)) ==> owns(other, page, h, PageRef::Committed(id))
                || gone_after.contains(id),
        forall|id: u64| #[trigger] gone.contains(id) ==> gone_after.contains(id),
{
    reveal(removed);
    let entries = flat(env, r, h);
    assert forall|id: u64| #[trigger] gone_after.contains(id) == (gone_mid.contains(id)
        || old_value_owns(env, entries, key, PageRef::Committed(id))) by {}
    assert forall|id: u64| #[trigger] gone_after.contains(id) implies gone.contains(id) || owns(
        env,
        r,
        h,
        PageRef::Committed(id),
    ) by {
        if old_value_owns(env, entries, key, PageRef::Committed(id)) {
            crate::insert::lemma_tree_value(env, r, h, key, PageRef::Committed(id));
        }
    }
}

impl MutableTree {
    /// Lets a root with a single child give way to the child, as long as there is one.
    fn collapse(&mut self, Ghost(pages): Ghost<Pages>) -> (result: Result<()>)
        requires
            old(self).inv(),
        ensures
            final(self).inv(),
            final(self).dirty == old(self).dirty,
            final(self).dirty_by_original == old(self).dirty_by_original,
            final(self).retired == old(self).retired,
            final(self).page_count == old(self).page_count,
            final(self).base == old(self).base,
            ({
                let env = old(self).env(pages);
                let good = stands(env, old(self).root, old(self).height@) && old(self).height@
                    < MAX_DEPTH;
                match result {
                    Ok(_) => good ==> {
                        &&& is_tree(env, final(self).root, final(self).height@)
                        &&& final(self).height@ <= old(self).height@
                        &&& flat(env, final(self).root, final(self).height@) == flat(
                            env,
                            old(self).root,
                            old(self).height@,
                        )
                        &&& forall|id: u64| #[trigger]
                            owns(
                                env,
                                final(self).root,
                                final(self).height@,
                                PageRef::Committed(id),
                            ) == owns(
                                env,
                                old(self).root,
                                old(self).height@,
                                PageRef::Committed(id),
                            )
                        &&& shed(env, old(self).root, old(self).height@) == (
                            final(self).root,
                            final(self).height@,
                        )
                        &&& old(self).fits(pages) ==> final(self).fits(pages)
                        &&& pliant(env, old(self).root, old(self).height@) ==> spreading(
                            env,
                            final(self).root,
                            final(self).height@,
                        )
                    },
                    Err(error) => error is Corrupt && !good,
                }
            }),
    {
        let ghost env = self.env(pages);
        let ghost good = stands(env, self.root, self.height@) && self.height@ < MAX_DEPTH;
        let ghost limber = pliant(env, self.root, self.height@);
        let mut level: usize = 0;
        while level < MAX_DEPTH
            invariant
                level <= MAX_DEPTH,
                self.inv(),
                self.dirty == old(self).dirty,
                self.dirty_by_original == old(self).dirty_by_original,
                self.retired == old(self).retired,
                self.page_count == old(self).page_count,
                self.base == old(self).base,
                env == self.env(pages),
                env == old(self).env(pages),
                good == (stands(env, old(self).root, old(self).height@) && old(self).height@
                    < MAX_DEPTH),
                good ==> {
                    &&& stands(env, self.root, self.height@)
                    &&& self.height@ + level == old(self).height@
                    &&& flat(env, self.root, self.height@) == flat(
                        env,
                        old(self).root,
                        old(self).height@,
                    )
                    &&& forall|id: u64| #[trigger]
                        owns(env, self.root, self.height@, PageRef::Committed(id)) == owns(
                            env,
                            old(self).root,
                            old(self).height@,
                            PageRef::Committed(id),
                        )
                    &&& shed(env, old(self).root, old(self).height@) == shed(
                        env,
                        self.root,
                        self.height@,
                    )
                    &&& old(self).fits(pages) ==> self.fits(pages)
                    &&& limber && level == 0 ==> self.root == old(self).root
                    &&& limber && level > 0 ==> spreading(env, self.root, self.height@)
                },
                limber == pliant(env, old(self).root, old(self).height@),
            decreases MAX_DEPTH - level,
        {
            let slot = match self.root {
                PageRef::Dirty(slot) => slot,
                PageRef::Committed(_) => {
                    return Ok(());
                },
            };
            proof {
                if good {
                    reveal(subtree);
                    lemma_branching_built(
                        env,
                        self.root,
                        node_at(env, self.root)->0,
                        self.height@,
                        true,
                    );
                }
            }
            let next = match self.dirty_node(slot)? {
                MutableNode::Internal(children) => {
                    if children.len() == 1 {
                        proof {
                            let links = links_of(children@);
                            assert(links[0] == children@[0]@);
                            if good {
                                lemma_collapse(env, slot, self.height@, links);
                            }
                        }
                        Some(children[0].page)
                    } else {
                        None
                    }
                },
                MutableNode::Leaf(entries) => {
                    proof {
                        if good && hollow(env, self.root, self.height@) {
                            lemma_hollow_leaf(env, self.root);
                            assert(sorted_entries(flat(env, self.root, self.height@)));
                        }
                    }
                    None
                },
            };
            match next {
                Some(page) => {
                    self.root = page;
                    self.height = Ghost((self.height@ - 1) as nat);
                },
                None => {
                    return Ok(());
                },
            }
            level = level + 1;
        }
        Ok(())
    }

    /// Puts two halves of a root that has become too large for a page under a new root.
    fn replant<R: PageReader>(&mut self, reader: &mut R, slot: usize, Ghost(h): Ghost<nat>) -> (result:
        Result<()>)
        requires
            old(reader).usable(),
            old(self).inv(),
            slot < old(self).dirty@.len(),
            arena(old(self).dirty@)[slot as int] matches Some(node) && node_size(node)
                <= usize::MAX,
        ensures
            *final(reader) == *old(reader),
            ({
                let pages = old(reader).pages();
                let env = old(self).env(pages);
                let other = final(self).env(pages);
                let c = PageRef::Dirty(slot);
                let good = is_tree(env, c, h) && flat(env, c, h).len() > 0;
                match result {
                    Ok(_) => {
                        &&& final(self).inv()
                        &&& final(self).page_count == old(self).page_count
                        &&& final(self).base == old(self).base
                        &&& final(self).retired == old(self).retired
                        &&& final(self).height@ == h + 1
                        &&& good ==> {
                            &&& is_tree(other, final(self).root, h + 1)
                            &&& flat(other, final(self).root, h + 1) == flat(env, c, h)
                            &&& forall|id: u64| #[trigger]
                                owns(other, final(self).root, h + 1, PageRef::Committed(id))
                                    == owns(env, c, h, PageRef::Committed(id))
                            &&& rerooted(
                                other,
                                node_at(env, c)->0,
                                h,
                                final(self).root,
                                h + 1,
                            ) || node_size(node_at(env, c)->0) <= PAGE_END
                            &&& keeps_slots(env, other, seq![Link { key: Seq::empty(), page: c }])
                            &&& snug_under(env, c, h) ==> snug(other, final(self).root, h + 1)
                            &&& branching_body(env, opened(env, c, h), h, true) ==> spreading(
                                other,
                                final(self).root,
                                h + 1,
                            )
                        }
                    },
                    Err(error) => error is Corrupt && !(good && h < MAX_DEPTH
                        && crate::node::can_split(opened(env, c, h))),
                }
            }),
    {
        let ghost pages = reader.pages();
        let ghost env = self.env(pages);
        let ghost c = PageRef::Dirty(slot);
        let ghost good = is_tree(env, c, h) && flat(env, c, h).len() > 0;
        let first_key = self.first_key(reader, PageRef::Dirty(slot), 0)?;
        let mut children: Vec<Child> = Vec::new();
        children.push(Child { first_key, page: PageRef::Dirty(slot) });
        let ghost links = links_of(children@);
        proof {
            assert(links =~= seq![Link { key: first_key@, page: c }]);
            assert(keys_fit(links));
            if good {
                lemma_loose_single(env, links, h);
            }
        }
        self.split_child(reader, &mut children, 0, slot, 0, Ghost(h))?;
        let ghost middle = self.env(pages);
        let ghost after = links_of(children@);
        let root = self.new_dirty(MutableNode::Internal(children));
        self.root = root;
        self.height = Ghost(h + 1);
        proof {
            let other = self.env(pages);
            assert(other.dirty =~= middle.dirty.push(Some(Node::Internal(after))));
            if good {
                lemma_replanted(env, middle, other, self.retired@, links, h, after);
                assert(after.len() == 2);
                assert(halves(other, node_at(env, c)->0, after[0].page, after[1].page));
                assert(node_at(other, root) == Some(Node::Internal(after)));
                assert(keeps_slots(env, other, seq![Link { key: Seq::empty(), page: c }])) by {
                    assert forall|s: usize|
                        s < env.dirty.len() && (forall|k: int|
                            0 <= k < 1 ==> (#[trigger] seq![
                                Link { key: Seq::<u8>::empty(), page: c },
                            ][k]).page != PageRef::Dirty(s)) implies #[trigger] node_at(
                        other,
                        PageRef::Dirty(s),
                    ) == node_at(env, PageRef::Dirty(s)) by {
                        assert(seq![Link { key: Seq::<u8>::empty(), page: c }][0].page == c);
                        assert(links[0].page == c);
                        assert(node_at(middle, PageRef::Dirty(s)) == node_at(
                            env,
                            PageRef::Dirty(s),
                        ));
                    }
                }
            }
        }
        Ok(())
    }

    /// Removes a key, and says whether it was there.
    #[verifier::rlimit(40)]
    #[verifier::spinoff_prover]
    pub fn delete<R: PageReader>(&mut self, reader: &mut R, key: &[u8]) -> (result: Result<bool>)
        requires
            old(reader).usable(),
            old(self).inv(),
        ensures
            final(reader).usable(),
            final(reader).origin() == old(reader).origin(),
            old(reader).failures() <= final(reader).failures(),
            hoards(*old(reader), *final(reader)),
            honest(
                result,
                old(reader).failures(),
                final(reader).failures(),
                final(reader).reported(),
                incomplete(old(reader).pages(), old(self).page_count),
            ),
            final(reader).pages() == old(reader).pages(),
            ({
                let pages = old(reader).pages();
                let before = old(self).entries(pages);
                match result {
                    Ok(present) => {
                        &&& final(self).inv()
                        &&& final(self).page_count == old(self).page_count
                        &&& final(self).base == old(self).base
                        &&& !present ==> *final(self) == *old(self)
                        &&& old(self).sound(pages) ==> present == (lookup(before, key@) is Some)
                        &&& old(self).sound(pages) && old(self).height@ < MAX_DEPTH && present ==> {
                            &&& final(self).sound(pages)
                            &&& drops(before, final(self).entries(pages), key@)
                            &&& gave_up(*old(self), *final(self), pages, key@)
                            &&& final(self).height@ <= old(self).height@ + 1
                            &&& old(self).fits(pages) ==> final(self).fits(pages)
                            &&& old(self).branches(pages) ==> final(self).branches(pages)
                        }
                    },
                    Err(error) => fails_for(
                        error,
                        !(old(self).sound(pages) && old(self).height@ < MAX_DEPTH && old(self).fits(
                            pages,
                        )),
                        final(reader).failures() > old(reader).failures(),
                    ),
                }
            }),
            steady(
                old(self).sound(old(reader).pages()) && old(self).height@ < MAX_DEPTH && old(
                    self,
                ).near(old(reader).pages(), old(reader).at_hand()),
                old(reader).at_hand(),
                final(reader).at_hand(),
                result,
            ),
    {
        let ghost pages = reader.pages();
        let ghost env = self.env(pages);
        let ghost h = self.height@;
        let ghost r = self.root;
        let ghost gone = self.retired@;
        let ghost good = self.sound(pages) && h < MAX_DEPTH;
        let ghost hand = reader.at_hand();
        let old_value = match self.find_stored_value(reader, key)? {
            Some(value) => value,
            None => {
                return Ok(false);
            },
        };
        let root = self.root;
        let (slot, _) = self.delete_from(reader, root, key, 0, Ghost(h))?;
        let page = PageRef::Dirty(slot);
        let ghost mid = self.env(pages);
        let ghost gone_mid = self.retired@;
        proof {
            assert(arena(self.dirty@).len() == self.dirty@.len());
            if good {
                lemma_removed_stands(env, mid, gone, gone_mid, r, h, page, key@);
                lemma_removed_size(env, mid, gone, gone_mid, r, h, page, key@);
                if spreading(env, r, h) {
                    lemma_lone_wide(env, mid, r, h, key@, node_at(mid, page)->0);
                }
            }
        }
        let oversized = self.is_oversized(slot)?;
        if oversized {
            self.replant(reader, slot, Ghost(h))?;
        } else {
            self.root = page;
            self.height = Ghost(h);
            self.collapse(Ghost(pages))?;
        }
        proof {
            if good {
                let node = node_at(mid, page)->0;
                let other = self.env(pages);
                if oversized {
                    lemma_turned_root(env, mid, other, gone, gone_mid, r, h, page, key@, node);
                } else {
                    assert(gives_way(other, page, h, node, self.root, self.height@));
                }
                if spreading(env, r, h) {
                    assert(pliant(mid, page, h));
                    assert(spreading(other, self.root, self.height@));
                }
                assert(turns_into(env, other, r, h, key@, node));
                assert(rerooted(other, node, h, self.root, self.height@));
                lemma_removed_value(env, mid, gone, gone_mid, r, h, page, key@, old_value@);
                if near_below(env, r, h, hand) {
                    let before = flat(env, r, h);
                    let k = choose|k: int|
                        0 <= k < before.len() && (#[trigger] before[k]).key == key@;
                    lemma_near_value(env, r, h, k, hand);
                }
            }
        }
        self.retire_value(reader, &old_value)?;
        proof {
            if good {
                lemma_delete_accounts(
                    env,
                    mid,
                    gone,
                    gone_mid,
                    self.retired@,
                    r,
                    h,
                    page,
                    key@,
                    old_value@,
                );
                let other = self.env(pages);
                let node = node_at(mid, page)->0;
                assert(self.sound(pages));
                assert(drops(flat(env, r, h), self.entries(pages), key@));
                assert(turns_into(env, other, r, h, key@, node) && rerooted(
                    other,
                    node,
                    h,
                    self.root,
                    self.height@,
                ));
                assert(self.height@ <= h + 1);
                assert(old(self).fits(pages) ==> self.fits(pages));
                assert(old(self).branches(pages) ==> self.branches(pages));
            }
        }
        Ok(true)
    }
}

/// What a tree has turned into stays so when the node at its head is cut in two.
proof fn lemma_turned_root(
    env: Env,
    mid: Env,
    other: Env,
    gone: Set<u64>,
    gone_mid: Set<u64>,
    r: PageRef,
    h: nat,
    page: PageRef,
    key: Seq<u8>,
    node: Node,
)
    requires
        is_tree(env, r, h),
        removed(env, mid, gone, gone_mid, r, h, page, key),
        subtree(mid, page, h),
        turns_into(env, mid, r, h, key, node),
        node_at(mid, page) == Some(node),
        keeps_slots(mid, other, seq![Link { key: Seq::empty(), page }]),
    ensures
        turns_into(env, other, r, h, key, node),
{
    assert(page is Dirty) by {
        reveal(removed);
    }
    lemma_opened_body(mid, page, h);
    if let Node::Internal(after) = node {
        assert forall|s: usize| #[trigger]
            run_owns(mid, after, (h - 1) as nat, PageRef::Dirty(s)) implies node_at(
            other,
            PageRef::Dirty(s),
        ) == node_at(mid, PageRef::Dirty(s)) by {
            assert(body_owns(mid, node, h, PageRef::Dirty(s)));
            lemma_owned_slots(mid, page, h, PageRef::Dirty(s));
        }
    }
    lemma_turns_kept(env, env, mid, other, r, h, key, node);
}

/// One tree is a loose run.
proof fn lemma_loose_single(env: Env, links: Seq<Link>, h: nat)
    requires
        links.len() == 1,
        subtree(env, links[0].page, h),
        flat(env, links[0].page, h).len() > 0,
        links[0].key == flat(env, links[0].page, h)[0].key,
    ensures
        loose_run(env, links, h, 0),
        links.take(0) == Seq::<Link>::empty(),
        links.skip(1) == Seq::<Link>::empty(),
        loose_flat(env, links, h, 0) == flat(env, links[0].page, h),
        forall|p: PageRef| #[trigger]
            loose_owns(env, links, h, 0, p) == owns(env, links[0].page, h, p),
{
    reveal(loose_run);
    reveal(run_ok);
    let none = Seq::<Link>::empty();
    assert(links.take(0) =~= none);
    assert(links.skip(1) =~= none);
    assert(flat_all(env, none, h) =~= Seq::<Entry>::empty());
    assert(loose_flat(env, links, h, 0) =~= flat(env, links[0].page, h));
}

/// A root that was split and put under a new root.
proof fn lemma_replanted(
    env: Env,
    middle: Env,
    other: Env,
    gone: Set<u64>,
    links: Seq<Link>,
    h: nat,
    after: Seq<Link>,
)
    requires
        links.len() == 1,
        is_tree(env, links[0].page, h),
        links[0].page is Dirty,
        flat(env, links[0].page, h).len() > 0,
        links[0].key == flat(env, links[0].page, h)[0].key,
        tightened(env, middle, gone, gone, links, 0, h, after),
        after.len() == 2,
        keys_fit(after),
        forall|id: u64| #[trigger]
            run_owns(middle, after, h, PageRef::Committed(id)) == loose_owns(
                env,
                links,
                h,
                0,
                PageRef::Committed(id),
            ),
        snug_around(env, links, h, 0) ==> snug_run(middle, after, h),
        forall|edge: bool| #[trigger]
            branching_around(
                env,
                links.take(0),
                opened(env, links[0].page, h),
                links.skip(1),
                h,
                edge,
            ) ==> branching_run(middle, after, h, edge),
        middle.dirty.len() <= usize::MAX,
        other == (Env { dirty: middle.dirty.push(Some(Node::Internal(after))), ..middle }),
    ensures
        ({
            let root = PageRef::Dirty(middle.dirty.len() as usize);
            let c = links[0].page;
            &&& is_tree(other, root, h + 1)
            &&& flat(other, root, h + 1) == flat(env, c, h)
            &&& forall|id: u64| #[trigger]
                owns(other, root, h + 1, PageRef::Committed(id)) == owns(
                    env,
                    c,
                    h,
                    PageRef::Committed(id),
                )
            &&& snug_under(env, c, h) ==> snug(other, root, h + 1)
            &&& branching_body(env, opened(env, c, h), h, true) ==> spreading(other, root, h + 1)
        }),
{
    reveal(tightened);
    let slot = middle.dirty.len() as usize;
    let root = PageRef::Dirty(slot);
    let c = links[0].page;
    lemma_loose_single(env, links, h);
    assert forall|s: usize| #[trigger] run_owns(middle, after, h, PageRef::Dirty(s)) implies node_at(
        other,
        PageRef::Dirty(s),
    ) == node_at(middle, PageRef::Dirty(s)) by {
        lemma_run_slots(middle, after, h, PageRef::Dirty(s));
    }
    if run_owns(middle, after, h, root) {
        lemma_run_slots(middle, after, h, root);
    }
    lemma_run_kept(middle, other, after, h);
    assert(!run_owns(other, after, h, root));
    crate::graft::lemma_node_built(other, slot, after, h);
    lemma_few_size(after);
    assert forall|id: u64| #[trigger]
        owns(other, root, h + 1, PageRef::Committed(id)) == owns(env, c, h, PageRef::Committed(id)) by {
        let p = PageRef::Committed(id);
        assert(run_owns(other, after, h, p) == run_owns(middle, after, h, p));
        assert(loose_owns(env, links, h, 0, p) == owns(env, c, h, p));
        assert(run_owns(middle, after, h, p) == loose_owns(env, links, h, 0, p));
    }
    if snug_under(env, c, h) {
        assert(snug_around(env, links, h, 0)) by {
            assert forall|s: usize| #[trigger]
                loose_owns(env, links, h, 0, PageRef::Dirty(s)) && PageRef::Dirty(s)
                    != links[0].page implies node_size(node_at(env, PageRef::Dirty(s))->0)
                <= PAGE_END by {
                assert(owns(env, c, h, PageRef::Dirty(s)));
            }
        }
        assert forall|s: usize| #[trigger] run_owns(other, after, h, PageRef::Dirty(s)) implies
            node_size(node_at(other, PageRef::Dirty(s))->0) <= PAGE_END by {
            assert(run_owns(middle, after, h, PageRef::Dirty(s)));
        }
    }
    if branching_body(env, opened(env, c, h), h, true) {
        assert(branching_around(env, links.take(0), opened(env, c, h), links.skip(1), h, true));
        lemma_branching_run_kept(middle, other, after, h, true);
        lemma_branching_built(other, root, Node::Internal(after), h + 1, true);
    }
}

} // verus!
