//! Nodes apart from where they are stored: what is below a node, whether it is a leaf
//! or an internal node, and how nodes are joined and divided.
use crate::format::{MAX_KEY_SIZE, PAGE_HEADER};
use crate::graft::{
    entries_own, is_fresh, lemma_internal_splittable, lemma_keys_fit_cut, lemma_node_built,
    lemma_run_child, lemma_run_cut, lemma_run_join, lemma_run_kept, lemma_run_slots,
};
use crate::insert::{lemma_leaf_built, lemma_values_cut};
use crate::model::{
    flat, flat_all, keyed, node_at, owns, run_ok, run_owns, subtree, value_owns, values_ok, Env,
};
use crate::node::{
    can_split, entries_fit, internal_size, internal_split_fits, is_best_split, leaf_size,
    leaf_split_fits, lemma_payload_add, lemma_split_key_bytes, node_size, Entry, Link, Node,
    PageRef, PAGE_END,
};
use crate::page::keys_fit;
use crate::tree::{lemma_first_entry, lemma_opened_run, opened};
use vstd::prelude::*;

verus! {

/// Whether a node of a given height is well formed, wherever it is stored.
pub open spec fn body_ok(env: Env, node: Node, h: nat) -> bool {
    match node {
        Node::Leaf(entries) => {
            &&& h == 0
            &&& entries_fit(entries)
            &&& values_ok(env, PageRef::Dirty(0), entries)
        },
        Node::Internal(links) => {
            &&& h > 0
            &&& links.len() > 0
            &&& keys_fit(links)
            &&& run_ok(env, links, (h - 1) as nat)
            &&& keyed(env, links, (h - 1) as nat, 0)
        },
    }
}

/// The entries below a node.
pub open spec fn body_flat(env: Env, node: Node, h: nat) -> Seq<Entry> {
    match node {
        Node::Leaf(entries) => entries,
        Node::Internal(links) => flat_all(env, links, (h - 1) as nat),
    }
}

/// What belongs to the tree below a node, without the node itself.
pub open spec fn body_owns(env: Env, node: Node, h: nat, p: PageRef) -> bool {
    match node {
        Node::Leaf(entries) => entries_own(env, entries, p),
        Node::Internal(links) => run_owns(env, links, (h - 1) as nat, p),
    }
}

/// The values of a leaf in memory are well formed in any slot.
pub proof fn lemma_values_slot(env: Env, r: PageRef, slot: usize, entries: Seq<Entry>)
    requires
        values_ok(env, r, entries),
    ensures
        values_ok(env, PageRef::Dirty(slot), entries),
{
    reveal(values_ok);
}

/// A copied node stands for the tree that it heads.
pub proof fn lemma_opened_body(env: Env, r: PageRef, h: nat)
    requires
        subtree(env, r, h),
    ensures
        body_ok(env, opened(env, r, h), h),
        body_flat(env, opened(env, r, h), h) == flat(env, r, h),
        forall|p: PageRef| #[trigger]
            owns(env, r, h, p) == (p == r || body_owns(env, opened(env, r, h), h, p)),
        !body_owns(env, opened(env, r, h), h, r),
        flat(env, r, h).len() == 0 ==> opened(env, r, h) matches Node::Leaf(_),
        opened(env, r, h) matches Node::Leaf(entries) ==> leaf_size(entries) <= PAGE_END,
{
    reveal(subtree);
    reveal(owns);
    reveal(run_ok);
    let node = opened(env, r, h);
    match node {
        Node::Leaf(entries) => {
            lemma_values_slot(env, r, 0, entries);
            reveal(values_ok);
            if entries_own(env, entries, r) {
                let i = choose|i: int|
                    0 <= i < entries.len() && value_owns(env, (#[trigger] entries[i]).value, r);
                assert(false);
            }
        },
        Node::Internal(links) => {
            lemma_opened_run(env, r, h, links);
            lemma_first_entry(env, links, (h - 1) as nat);
            let inner = node_at(env, r)->0->Internal_0;
            assert(keys_fit(links)) by {
                if r is Committed {
                    lemma_first_key_fits(env, links[0].page, (h - 1) as nat);
                    assert(forall|k: int| 1 <= k < links.len() ==> links[k] == inner[k]);
                }
            }
        },
    }
}

/// The first key below a node fits.
proof fn lemma_first_key_fits(env: Env, r: PageRef, h: nat)
    requires
        subtree(env, r, h),
        flat(env, r, h).len() > 0,
    ensures
        flat(env, r, h)[0].key.len() <= MAX_KEY_SIZE,
    decreases h,
{
    reveal(subtree);
    reveal(run_ok);
    if let Some(Node::Internal(links)) = node_at(env, r) {
        lemma_run_child(env, links, (h - 1) as nat, 0);
        lemma_first_entry(env, links, (h - 1) as nat);
        lemma_first_key_fits(env, links[0].page, (h - 1) as nat);
    } else {
        assert(crate::node::entry_fits(flat(env, r, h)[0]));
    }
}

/// A node that is put into a slot heads a tree.
pub proof fn lemma_body_built(env: Env, slot: usize, node: Node, h: nat)
    requires
        node_at(env, PageRef::Dirty(slot)) == Some(node),
        body_ok(env, node, h),
        node matches Node::Leaf(entries) ==> leaf_size(entries) <= PAGE_END,
        !body_owns(env, node, h, PageRef::Dirty(slot)),
    ensures
        subtree(env, PageRef::Dirty(slot), h),
        flat(env, PageRef::Dirty(slot), h) == body_flat(env, node, h),
        forall|p: PageRef| #[trigger]
            owns(env, PageRef::Dirty(slot), h, p) == (p == PageRef::Dirty(slot) || body_owns(
                env,
                node,
                h,
                p,
            )),
{
    match node {
        Node::Leaf(entries) => {
            lemma_values_slot(env, PageRef::Dirty(0), slot, entries);
            lemma_leaf_built(env, slot, entries);
        },
        Node::Internal(links) => {
            lemma_node_built(env, slot, links, (h - 1) as nat);
        },
    }
}

/// A node reads the same in an environment that agrees on what is below it.
pub proof fn lemma_body_kept(env: Env, other: Env, node: Node, h: nat)
    requires
        body_ok(env, node, h),
        other.pages == env.pages,
        other.count == env.count,
        forall|slot: usize| #[trigger]
            body_owns(env, node, h, PageRef::Dirty(slot)) ==> node_at(other, PageRef::Dirty(slot))
                == node_at(env, PageRef::Dirty(slot)),
    ensures
        body_ok(other, node, h),
        body_flat(other, node, h) == body_flat(env, node, h),
        forall|p: PageRef| #[trigger] body_owns(other, node, h, p) == body_owns(env, node, h, p),
{
    match node {
        Node::Leaf(entries) => {
            crate::insert::lemma_values_env(env, other, PageRef::Dirty(0), entries);
        },
        Node::Internal(links) => {
            let below = (h - 1) as nat;
            assert forall|slot: usize| #[trigger]
                run_owns(env, links, below, PageRef::Dirty(slot)) implies node_at(
                other,
                PageRef::Dirty(slot),
            ) == node_at(env, PageRef::Dirty(slot)) by {
                assert(body_owns(env, node, h, PageRef::Dirty(slot)));
            }
            lemma_run_kept(env, other, links, below);
        },
    }
}

/// What is below a node has slots.
pub proof fn lemma_body_slots(env: Env, node: Node, h: nat, p: PageRef)
    requires
        body_ok(env, node, h),
        body_owns(env, node, h, p),
    ensures
        !is_fresh(env, p),
{
    if let Node::Internal(links) = node {
        lemma_run_slots(env, links, (h - 1) as nat, p);
    }
}

/// Two siblings as one node.
pub open spec fn joined(a: Node, b: Node) -> Node {
    match (a, b) {
        (Node::Leaf(left), Node::Leaf(right)) => Node::Leaf(left + right),
        (Node::Internal(left), Node::Internal(right)) => Node::Internal(left + right),
        _ => a,
    }
}

/// Siblings that share no page can be joined.
pub proof fn lemma_body_join(env: Env, a: Node, b: Node, h: nat)
    requires
        body_ok(env, a, h),
        body_ok(env, b, h),
        forall|p: PageRef| !(#[trigger] body_owns(env, a, h, p) && body_owns(env, b, h, p)),
    ensures
        body_ok(env, joined(a, b), h),
        a is Leaf == b is Leaf,
        body_flat(env, joined(a, b), h) == body_flat(env, a, h) + body_flat(env, b, h),
        forall|p: PageRef| #[trigger]
            body_owns(env, joined(a, b), h, p) == (body_owns(env, a, h, p) || body_owns(
                env,
                b,
                h,
                p,
            )),
{
    match (a, b) {
        (Node::Leaf(left), Node::Leaf(right)) => {
            assert forall|p: PageRef|
                !(#[trigger] entries_own(env, left, p) && entries_own(env, right, p)) by {
                assert(!(body_owns(env, a, h, p) && body_owns(env, b, h, p)));
            }
            lemma_values_join(env, left, right);
            assert forall|p: PageRef| #[trigger]
                body_owns(env, joined(a, b), h, p) == (body_owns(env, a, h, p) || body_owns(
                    env,
                    b,
                    h,
                    p,
                )) by {
                assert(entries_own(env, left + right, p) == (entries_own(env, left, p)
                    || entries_own(env, right, p)));
            }
        },
        (Node::Internal(left), Node::Internal(right)) => {
            let below = (h - 1) as nat;
            assert forall|p: PageRef|
                !(#[trigger] run_owns(env, left, below, p) && run_owns(env, right, below, p)) by {
                assert(!(body_owns(env, a, h, p) && body_owns(env, b, h, p)));
            }
            lemma_run_join(env, left, right, below);
            assert(keys_fit(left + right)) by {
                let both = left + right;
                assert forall|k: int| 0 <= k < both.len() implies (#[trigger] both[k]).key.len()
                    <= MAX_KEY_SIZE by {
                    if k < left.len() {
                        assert(both[k] == left[k]);
                    } else {
                        assert(both[k] == right[k - left.len()]);
                    }
                }
            }
            assert forall|p: PageRef| #[trigger]
                body_owns(env, joined(a, b), h, p) == (body_owns(env, a, h, p) || body_owns(
                    env,
                    b,
                    h,
                    p,
                )) by {
                assert(run_owns(env, left + right, below, p) == (run_owns(env, left, below, p)
                    || run_owns(env, right, below, p)));
            }
        },
        _ => {},
    }
}

proof fn lemma_values_join(env: Env, left: Seq<Entry>, right: Seq<Entry>)
    requires
        values_ok(env, PageRef::Dirty(0), left),
        values_ok(env, PageRef::Dirty(0), right),
        entries_fit(left),
        entries_fit(right),
        forall|p: PageRef| !(#[trigger] entries_own(env, left, p) && entries_own(env, right, p)),
    ensures
        values_ok(env, PageRef::Dirty(0), left + right),
        entries_fit(left + right),
        forall|p: PageRef| #[trigger]
            entries_own(env, left + right, p) == (entries_own(env, left, p) || entries_own(
                env,
                right,
                p,
            )),
{
    reveal(values_ok);
    let both = left + right;
    let n = left.len();
    assert(forall|i: int| 0 <= i < n ==> both[i] == left[i]);
    assert(forall|i: int| n <= i < both.len() ==> both[i] == right[i - n]);
    assert forall|i: int, j: int, p: PageRef| 0 <= i < j < both.len() implies !(
    #[trigger] value_owns(env, both[i].value, p) && #[trigger] value_owns(env, both[j].value, p)) by {
        if value_owns(env, both[i].value, p) && value_owns(env, both[j].value, p) {
            if j < n {
                assert(value_owns(env, left[i].value, p) && value_owns(env, left[j].value, p));
            } else if i >= n {
                assert(value_owns(env, right[i - n].value, p) && value_owns(
                    env,
                    right[j - n].value,
                    p,
                ));
            } else {
                assert(value_owns(env, left[i].value, p));
                assert(value_owns(env, right[j - n].value, p));
                assert(entries_own(env, left, p) && entries_own(env, right, p));
            }
        }
    }
    assert forall|p: PageRef| #[trigger] entries_own(env, both, p) == (entries_own(env, left, p)
        || entries_own(env, right, p)) by {
        if entries_own(env, both, p) {
            let i = choose|i: int|
                0 <= i < both.len() && value_owns(env, (#[trigger] both[i]).value, p);
            if i < n {
                assert(value_owns(env, left[i].value, p));
            } else {
                assert(value_owns(env, right[i - n].value, p));
            }
        }
        if entries_own(env, left, p) {
            let i = choose|i: int|
                0 <= i < left.len() && value_owns(env, (#[trigger] left[i]).value, p);
            assert(value_owns(env, both[i].value, p));
        }
        if entries_own(env, right, p) {
            let i = choose|i: int|
                0 <= i < right.len() && value_owns(env, (#[trigger] right[i]).value, p);
            assert(value_owns(env, both[i + n].value, p));
        }
    }
    assert forall|i: int| 0 <= i < both.len() implies crate::node::entry_fits(#[trigger] both[i]) by {
        if i < n {
            assert(both[i] == left[i]);
        } else {
            assert(both[i] == right[i - n]);
        }
    }
}

/// Both sides of a split node are well formed and not empty.
pub proof fn lemma_body_split(env: Env, node: Node, left: Node, right: Node, h: nat)
    requires
        body_ok(env, node, h),
        is_best_split(node, left, right),
    ensures
        body_ok(env, left, h),
        body_ok(env, right, h),
        node_size(left) <= PAGE_END,
        node_size(right) <= PAGE_END,
        body_flat(env, node, h) == body_flat(env, left, h) + body_flat(env, right, h),
        body_flat(env, left, h).len() > 0,
        body_flat(env, right, h).len() > 0,
        forall|p: PageRef| !(#[trigger] body_owns(env, left, h, p) && body_owns(env, right, h, p)),
        forall|p: PageRef| #[trigger]
            body_owns(env, node, h, p) == (body_owns(env, left, h, p) || body_owns(
                env,
                right,
                h,
                p,
            )),
{
    match node {
        Node::Leaf(entries) => {
            let split = choose|split: int| #[trigger]
                crate::node::best_leaf_split_at(entries, split) && left == Node::Leaf(
                    entries.take(split),
                ) && right == Node::Leaf(entries.skip(split));
            let a = entries.take(split);
            let b = entries.skip(split);
            lemma_values_cut(env, PageRef::Dirty(0), entries, split);
            assert(values_ok(env, PageRef::Dirty(0), a));
            assert(values_ok(env, PageRef::Dirty(0), b));
            assert(forall|i: int| 0 <= i < a.len() ==> a[i] == entries[i]);
            assert(forall|i: int| 0 <= i < b.len() ==> b[i] == entries[i + split]);
            assert(a + b =~= entries);
            assert forall|p: PageRef|
                !(#[trigger] body_owns(env, left, h, p) && body_owns(env, right, h, p)) by {
                assert(!(entries_own(env, a, p) && entries_own(env, b, p)));
            }
            assert forall|p: PageRef| #[trigger]
                body_owns(env, node, h, p) == (body_owns(env, left, h, p) || body_owns(
                    env,
                    right,
                    h,
                    p,
                )) by {
                assert(entries_own(env, entries, p) == (entries_own(env, a, p) || entries_own(
                    env,
                    b,
                    p,
                )));
            }
        },
        Node::Internal(links) => {
            let below = (h - 1) as nat;
            let split = choose|split: int| #[trigger]
                crate::node::best_internal_split_at(links, split) && left == Node::Internal(
                    links.take(split),
                ) && right == Node::Internal(links.skip(split));
            let a = links.take(split);
            let b = links.skip(split);
            lemma_run_cut(env, links, below, split);
            lemma_keys_fit_cut(links, split);
            lemma_run_child(env, a, below, 0);
            lemma_run_child(env, b, below, 0);
            lemma_first_entry(env, a, below);
            lemma_first_entry(env, b, below);
            assert forall|p: PageRef|
                !(#[trigger] body_owns(env, left, h, p) && body_owns(env, right, h, p)) by {
                assert(!(run_owns(env, a, below, p) && run_owns(env, b, below, p)));
            }
            assert forall|p: PageRef| #[trigger]
                body_owns(env, node, h, p) == (body_owns(env, left, h, p) || body_owns(
                    env,
                    right,
                    h,
                    p,
                )) by {
                assert(run_owns(env, links, below, p) == (run_owns(env, a, below, p) || run_owns(
                    env,
                    b,
                    below,
                    p,
                )));
            }
        },
    }
}

/// Siblings that each fit into a page fit into two pages together.
pub proof fn lemma_joined_splits(a: Node, b: Node)
    requires
        a is Leaf == b is Leaf,
        node_size(a) <= PAGE_END,
        node_size(b) <= PAGE_END,
        a matches Node::Internal(left) ==> left.len() > 0 && keys_fit(left),
        b matches Node::Internal(right) ==> right.len() > 0 && keys_fit(right),
        node_size(joined(a, b)) > PAGE_END,
    ensures
        can_split(joined(a, b)),
        node_size(joined(a, b)) <= 3 * PAGE_END,
{
    match (a, b) {
        (Node::Leaf(left), Node::Leaf(right)) => {
            let both = left + right;
            let n = left.len() as int;
            lemma_payload_add(left, right);
            assert(both.take(n) =~= left);
            assert(both.skip(n) =~= right);
            if left.len() == 0 {
                assert(both =~= right);
            }
            if right.len() == 0 {
                assert(both =~= left);
            }
            assert(leaf_split_fits(joined(a, b)->Leaf_0, n));
        },
        (Node::Internal(left), Node::Internal(right)) => {
            let both = left + right;
            let n = left.len() as int;
            assert(both.take(n) =~= left);
            assert(both.skip(n) =~= right);
            lemma_split_key_bytes(both, n);
            assert(both[n] == right[0]);
            if left.len() >= 2 && right.len() >= 2 {
                assert(internal_split_fits(joined(a, b)->Internal_0, n));
            } else {
                if left.len() == 1 {
                    assert(left.skip(1) =~= Seq::<Link>::empty());
                    assert(internal_size(left) == PAGE_HEADER);
                } else {
                    assert(right.skip(1) =~= Seq::<Link>::empty());
                    assert(internal_size(right) == PAGE_HEADER);
                }
                assert(keys_fit(both)) by {
                    assert forall|k: int| 0 <= k < both.len() implies (
                    #[trigger] both[k]).key.len() <= MAX_KEY_SIZE by {
                        if k < left.len() {
                            assert(both[k] == left[k]);
                        } else {
                            assert(both[k] == right[k - left.len()]);
                        }
                    }
                }
                lemma_internal_splittable(both);
            }
        },
        _ => {},
    }
}

} // verus!
