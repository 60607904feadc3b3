//! Storing a value in the tree of a write transaction.
use crate::branch::{
    branching, branching_run, lemma_branching_add, lemma_branching_built, lemma_branching_leaves,
    lemma_branching_opened, lemma_branching_run_kept, spreading, stays_wide, wide,
};
use crate::error::{corrupt, Result};
use crate::format::{MAX_KEY_SIZE, MAX_VALUE_SIZE, SLOT_SIZE};
use crate::graft::{
    changed_below, entries_own, is_fresh, lemma_added_size, lemma_graft, lemma_internal_splittable,
    lemma_key_bytes_bound, lemma_keys_fit_cut, lemma_node_built, lemma_owned_slots, lemma_owns_root,
    lemma_run_child, lemma_run_cut, lemma_run_join, lemma_run_kept, lemma_run_one, lemma_run_owner,
    lemma_run_slots, lemma_upsert, lemma_upsert_values, lemma_upsert_within, old_value_owns, snug,
    snug_run, upserts, upserts_at,
};
use crate::model::{
    child_start, flat, flat_all, is_tree, keyed, lemma_around_child, lemma_flat_all_split,
    lemma_run_sorted, lemma_tree_kept, node_at, owns, run_ok, run_owns, same_at, subtree, value_ok,
    value_owns, value_pages, values_ok, Env, Pages,
};
use crate::node::{
    all_sorted_links, best_internal_split, best_internal_split_at, best_leaf_split,
    best_leaf_split_at, can_split, child_at, child_index, copy_bytes, entries_fit, entries_of,
    entry_fits, entry_index, internal_encoded_size, internal_size, internal_split_fits, key_bytes,
    leaf_encoded_size, leaf_size, leaf_split_fits, lemma_key_bytes_add, lemma_payload_add, links_of,
    node_size, payload, sorted_entries, value_fits, Child, Entry, LeafEntry, Link, MutableNode,
    Node, PageRef, Stored, StoredValue, INLINE_VALUE_LIMIT, PAGE_END,
};
use crate::order::{compare, lt, Order};
use crate::page::keys_fit;
use crate::reader::{
    fails_for, found, fresh_chain, hoards, honest, incomplete, law_near_tree_needs_no_storage,
    lemma_near_value, lookup, near_below, steady, PageReader, MAX_DEPTH,
};
use crate::share::{
    all_dirty, crowned, grafts, lemma_shared_kept, nodes_at, shared_internal, shared_leaf,
    shared_out, took_in,
};
use crate::tree::{arena, lemma_opened_descend, opened, same_but_opened, sits, sturdy, MutableTree};
use vstd::prelude::*;

verus! {

/// What an insertion below a node leaves in its place: one node, and up to two more to its
/// right, each under its first key.
pub struct Mutation {
    pub page: PageRef,
    pub right: Vec<Child>,
}

impl Mutation {
    /// Whether the nodes are in memory, and the others are few and have keys that fit.
    pub open spec fn orderly(&self) -> bool {
        &&& self.page is Dirty
        &&& self.right@.len() <= 2
        &&& keys_fit(links_of(self.right@))
        &&& all_dirty(links_of(self.right@))
    }
}

/// The children that take the place of a node after an insertion.
pub open spec fn shoots(env: Env, mutation: Mutation, h: nat) -> Seq<Link> {
    run_of(flat(env, mutation.page, h)[0].key, mutation)
}

/// Whether a run has taken the place of a tree so that a value is stored under a key:
/// only free slots and slots of the tree have changed, and the pages that are no longer
/// used, but for those of the value that was replaced, are added to those left behind.
#[verifier::opaque]
pub open spec fn inserted(
    env: Env,
    other: Env,
    gone: Set<u64>,
    gone_after: Set<u64>,
    r: PageRef,
    h: nat,
    run: Seq<Link>,
    key: Seq<u8>,
    value: Stored,
) -> bool {
    &&& run_ok(other, run, h)
    &&& keyed(other, run, h, 0)
    &&& upserts(flat(env, r, h), flat_all(other, run, h), key, value)
    &&& changed_below(env, other, r, h)
    &&& forall|p: PageRef| #[trigger]
        run_owns(other, run, h, p) ==> owns(env, r, h, p) || is_fresh(env, p)
    &&& forall|id: u64| #[trigger]
        gone_after.contains(id) == (gone.contains(id) || (owns(env, r, h, PageRef::Committed(id))
            && !run_owns(other, run, h, PageRef::Committed(id)) && !old_value_owns(
            env,
            flat(env, r, h),
            key,
            PageRef::Committed(id),
        )))
    &&& forall|p: PageRef| #[trigger]
        old_value_owns(env, flat(env, r, h), key, p) ==> !run_owns(other, run, h, p)
    &&& snug(env, r, h) ==> snug_run(other, run, h)
    &&& forall|edge: bool| #[trigger]
        branching(env, r, h, edge) ==> branching_run(other, run, h, edge)
    &&& wide(node_at(env, r)->0, false) ==> stays_wide(other, run)
}

// ---------------------------------------------------------------------------
// Leaves
// ---------------------------------------------------------------------------

/// A leaf in memory.
pub proof fn lemma_leaf_built(env: Env, slot: usize, entries: Seq<Entry>)
    requires
        node_at(env, PageRef::Dirty(slot)) == Some(Node::Leaf(entries)),
        entries_fit(entries),
        leaf_size(entries) <= PAGE_END,
        values_ok(env, PageRef::Dirty(slot), entries),
    ensures
        subtree(env, PageRef::Dirty(slot), 0),
        flat(env, PageRef::Dirty(slot), 0) == entries,
        forall|p: PageRef| #[trigger]
            owns(env, PageRef::Dirty(slot), 0, p) == (p == PageRef::Dirty(slot) || entries_own(
                env,
                entries,
                p,
            )),
        snug(env, PageRef::Dirty(slot), 0),
{
    reveal(subtree);
    reveal(values_ok);
    reveal(owns);
    assert forall|p: PageRef| #[trigger]
        owns(env, PageRef::Dirty(slot), 0, p) == (p == PageRef::Dirty(slot) || entries_own(
            env,
            entries,
            p,
        )) by {}
    assert(forall|other: usize|
        !(#[trigger] entries_own(env, entries, PageRef::Dirty(other))));
}

/// The values of both sides of a leaf.
pub proof fn lemma_values_cut(env: Env, r: PageRef, entries: Seq<Entry>, at: int)
    requires
        values_ok(env, r, entries),
        r is Dirty,
        0 <= at <= entries.len(),
    ensures
        forall|slot: usize| #[trigger]
            values_ok(env, PageRef::Dirty(slot), entries.take(at)),
        forall|slot: usize| #[trigger]
            values_ok(env, PageRef::Dirty(slot), entries.skip(at)),
        forall|p: PageRef| #[trigger]
            entries_own(env, entries, p) == (entries_own(env, entries.take(at), p) || entries_own(
                env,
                entries.skip(at),
                p,
            )),
        forall|p: PageRef|
            !(#[trigger] entries_own(env, entries.take(at), p) && entries_own(
                env,
                entries.skip(at),
                p,
            )),
{
    reveal(values_ok);
    let a = entries.take(at);
    let b = entries.skip(at);
    assert(forall|i: int| 0 <= i < a.len() ==> a[i] == entries[i]);
    assert(forall|i: int| 0 <= i < b.len() ==> b[i] == entries[i + at]);
    assert forall|i: int, j: int, p: PageRef| 0 <= i < j < a.len() implies !(#[trigger] value_owns(
        env,
        a[i].value,
        p,
    ) && #[trigger] value_owns(env, a[j].value, p)) by {
        assert(!(value_owns(env, entries[i].value, p) && value_owns(env, entries[j].value, p)));
    }
    assert forall|i: int, j: int, p: PageRef| 0 <= i < j < b.len() implies !(#[trigger] value_owns(
        env,
        b[i].value,
        p,
    ) && #[trigger] value_owns(env, b[j].value, p)) by {
        assert(!(value_owns(env, entries[i + at].value, p) && value_owns(
            env,
            entries[j + at].value,
            p,
        )));
    }
    assert forall|p: PageRef| #[trigger]
        entries_own(env, entries, p) == (entries_own(env, a, p) || entries_own(env, b, p)) by {
        if entries_own(env, entries, p) {
            let i = choose|i: int|
                0 <= i < entries.len() && value_owns(env, (#[trigger] entries[i]).value, p);
            if i < at {
                assert(value_owns(env, a[i].value, p));
            } else {
                assert(value_owns(env, b[i - at].value, p));
            }
        }
        if entries_own(env, a, p) {
            let i = choose|i: int| 0 <= i < a.len() && value_owns(env, (#[trigger] a[i]).value, p);
            assert(value_owns(env, entries[i].value, p));
        }
        if entries_own(env, b, p) {
            let i = choose|i: int| 0 <= i < b.len() && value_owns(env, (#[trigger] b[i]).value, p);
            assert(value_owns(env, entries[i + at].value, p));
        }
    }
    assert forall|p: PageRef| !(#[trigger] entries_own(env, a, p) && entries_own(env, b, p)) by {
        if entries_own(env, a, p) && entries_own(env, b, p) {
            let i = choose|i: int| 0 <= i < a.len() && value_owns(env, (#[trigger] a[i]).value, p);
            let j = choose|j: int| 0 <= j < b.len() && value_owns(env, (#[trigger] b[j]).value, p);
            assert(value_owns(env, entries[i].value, p) && value_owns(
                env,
                entries[j + at].value,
                p,
            ));
        }
    }
}

/// What opening a node for change does to the arena and to the pages left behind: the
/// slot is either that of the node or the next free one.
#[verifier::opaque]
pub open spec fn opened_at(
    env: Env,
    other: Env,
    gone: Set<u64>,
    gone_after: Set<u64>,
    r: PageRef,
    slot: usize,
) -> bool {
    &&& other.pages == env.pages
    &&& other.count == env.count
    &&& slot < other.dirty.len()
    &&& match r {
        PageRef::Dirty(own) => {
            &&& slot == own
            &&& other.dirty.len() == env.dirty.len()
            &&& gone_after == gone
        },
        PageRef::Committed(id) => {
            &&& slot == env.dirty.len()
            &&& other.dirty.len() == env.dirty.len() + 1
            &&& gone_after == gone.insert(id)
        },
    }
    &&& forall|i: int| 0 <= i < env.dirty.len() && i != slot ==> #[trigger] other.dirty[i] == env.dirty[i]
}

/// An insertion into a leaf that needs no split.
#[verifier::rlimit(40)]
#[verifier::spinoff_prover]
proof fn lemma_leaf_inserted(
    env: Env,
    other: Env,
    gone: Set<u64>,
    gone_after: Set<u64>,
    r: PageRef,
    slot: usize,
    after: Seq<Entry>,
    key: Seq<u8>,
    value: Stored,
)
    requires
        is_tree(env, r, 0),
        opened_at(env, other, gone, gone_after, r, slot),
        node_at(other, PageRef::Dirty(slot)) == Some(Node::Leaf(after)),
        upserts(flat(env, r, 0), after, key, value),
        !(value is Overflow),
        entries_fit(after),
        leaf_size(after) <= PAGE_END,
    ensures
        inserted(
            env,
            other,
            gone,
            gone_after,
            r,
            0,
            seq![Link { key: after[0].key, page: PageRef::Dirty(slot) }],
            key,
            value,
        ),
        flat(other, PageRef::Dirty(slot), 0)[0].key == after[0].key,
{
    reveal(subtree);
    reveal(opened_at);
    reveal(inserted);
    let before = flat(env, r, 0);
    let d = PageRef::Dirty(slot);
    let link = Link { key: after[0].key, page: d };
    lemma_upsert(before, after, key, value);
    lemma_upsert_values(env, r, slot, before, after, key, value);
    lemma_values_env(env, other, d, after);
    lemma_leaf_built(other, slot, after);
    lemma_run_one(other, link, 0);
    lemma_leaf_ownership(env, r);
    assert forall|p: PageRef| #[trigger]
        run_owns(other, seq![link], 0, p) == (p == d || (entries_own(env, before, p)
            && !old_value_owns(env, before, key, p))) by {
        assert(owns(other, d, 0, p) == (p == d || entries_own(other, after, p)));
        assert(entries_own(other, after, p) == entries_own(env, after, p));
    }
    lemma_old_value(env, r, key);
    lemma_branching_leaves(other, seq![link], 0);
}

/// The pages of the value under a key belong to its leaf.
proof fn lemma_old_value(env: Env, r: PageRef, key: Seq<u8>)
    requires
        subtree(env, r, 0),
    ensures
        forall|p: PageRef| #[trigger]
            old_value_owns(env, flat(env, r, 0), key, p) ==> entries_own(env, flat(env, r, 0), p)
                && p is Committed,
{
    let entries = flat(env, r, 0);
    assert forall|p: PageRef| #[trigger] old_value_owns(env, entries, key, p) implies entries_own(
        env,
        entries,
        p,
    ) && p is Committed by {
        let i = choose|i: int| 0 <= i < entries.len() && (#[trigger] entries[i]).key == key;
        assert(value_owns(env, entries[i].value, p));
    }
}

/// What belongs to a leaf.
proof fn lemma_leaf_ownership(env: Env, r: PageRef)
    requires
        subtree(env, r, 0),
    ensures
        forall|p: PageRef| #[trigger]
            owns(env, r, 0, p) == (p == r || entries_own(env, flat(env, r, 0), p)),
        !entries_own(env, flat(env, r, 0), r),
        forall|slot: usize| !(#[trigger] entries_own(env, flat(env, r, 0), PageRef::Dirty(slot))),
{
    reveal(subtree);
    reveal(values_ok);
    reveal(owns);
    let entries = flat(env, r, 0);
    if entries_own(env, entries, r) {
        let i = choose|i: int|
            0 <= i < entries.len() && value_owns(env, (#[trigger] entries[i]).value, r);
        assert(false);
    }
}

/// The values of a leaf depend on the published pages only.
pub proof fn lemma_values_env(env: Env, other: Env, r: PageRef, entries: Seq<Entry>)
    requires
        values_ok(env, r, entries),
        other.pages == env.pages,
        other.count == env.count,
    ensures
        values_ok(other, r, entries),
        forall|p: PageRef| #[trigger]
            entries_own(other, entries, p) == entries_own(env, entries, p),
{
    reveal(values_ok);
    assert(forall|value: Stored, p: PageRef| #[trigger]
        value_owns(other, value, p) == value_owns(env, value, p));
    assert forall|p: PageRef| #[trigger]
        entries_own(other, entries, p) == entries_own(env, entries, p) by {
        if entries_own(env, entries, p) {
            let i = choose|i: int|
                0 <= i < entries.len() && value_owns(env, (#[trigger] entries[i]).value, p);
            assert(value_owns(other, entries[i].value, p));
        }
        if entries_own(other, entries, p) {
            let i = choose|i: int|
                0 <= i < entries.len() && value_owns(other, (#[trigger] entries[i]).value, p);
            assert(value_owns(env, entries[i].value, p));
        }
    }
    assert forall|i: int, j: int, p: PageRef| 0 <= i < j < entries.len() implies !(
    #[trigger] value_owns(other, entries[i].value, p) && #[trigger] value_owns(
        other,
        entries[j].value,
        p,
    )) by {
        assert(!(value_owns(env, entries[i].value, p) && value_owns(env, entries[j].value, p)));
    }
}

/// Two leaves in memory that share the entries of one.
proof fn lemma_leaf_pair(env: Env, slot: usize, right: usize, entries: Seq<Entry>, at: int)
    requires
        slot != right,
        node_at(env, PageRef::Dirty(slot)) == Some(Node::Leaf(entries.take(at))),
        node_at(env, PageRef::Dirty(right)) == Some(Node::Leaf(entries.skip(at))),
        values_ok(env, PageRef::Dirty(slot), entries),
        entries_fit(entries),
        leaf_split_fits(entries, at),
    ensures
        ({
            let run = seq![
                Link { key: entries[0].key, page: PageRef::Dirty(slot) },
                Link { key: entries[at].key, page: PageRef::Dirty(right) },
            ];
            &&& run_ok(env, run, 0)
            &&& keyed(env, run, 0, 0)
            &&& flat_all(env, run, 0) == entries
            &&& forall|p: PageRef| #[trigger]
                run_owns(env, run, 0, p) == (p == PageRef::Dirty(slot) || p == PageRef::Dirty(right)
                    || entries_own(env, entries, p))
            &&& snug_run(env, run, 0)
        }),
{
    let d = PageRef::Dirty(slot);
    let e = PageRef::Dirty(right);
    let low = entries.take(at);
    let high = entries.skip(at);
    let first = Link { key: entries[0].key, page: d };
    let second = Link { key: entries[at].key, page: e };
    lemma_values_cut(env, d, entries, at);
    assert(forall|i: int| 0 <= i < low.len() ==> low[i] == entries[i]);
    assert(forall|i: int| 0 <= i < high.len() ==> high[i] == entries[i + at]);
    assert(values_ok(env, PageRef::Dirty(slot), low));
    assert(values_ok(env, PageRef::Dirty(right), high));
    lemma_leaf_built(env, slot, low);
    lemma_leaf_built(env, right, high);
    lemma_run_one(env, first, 0);
    lemma_run_one(env, second, 0);
    let a = seq![first];
    let b = seq![second];
    assert forall|p: PageRef| !(#[trigger] run_owns(env, a, 0, p) && run_owns(env, b, 0, p)) by {
        assert(run_owns(env, a, 0, p) == owns(env, d, 0, p));
        assert(run_owns(env, b, 0, p) == owns(env, e, 0, p));
        assert(owns(env, d, 0, p) == (p == d || entries_own(env, low, p)));
        assert(owns(env, e, 0, p) == (p == e || entries_own(env, high, p)));
        assert(!(entries_own(env, low, p) && entries_own(env, high, p)));
    }
    lemma_run_join(env, a, b, 0);
    let run = seq![first, second];
    assert(a + b =~= run);
    assert(low + high =~= entries);
    assert forall|p: PageRef| #[trigger]
        run_owns(env, run, 0, p) == (p == d || p == e || entries_own(env, entries, p)) by {
        assert(run_owns(env, run, 0, p) == (run_owns(env, a, 0, p) || run_owns(env, b, 0, p)));
        assert(run_owns(env, a, 0, p) == owns(env, d, 0, p));
        assert(run_owns(env, b, 0, p) == owns(env, e, 0, p));
        assert(owns(env, d, 0, p) == (p == d || entries_own(env, low, p)));
        assert(owns(env, e, 0, p) == (p == e || entries_own(env, high, p)));
        assert(entries_own(env, entries, p) == (entries_own(env, low, p) || entries_own(
            env,
            high,
            p,
        )));
    }
    assert forall|s: usize| #[trigger] run_owns(env, run, 0, PageRef::Dirty(s)) implies node_size(
        node_at(env, PageRef::Dirty(s))->0,
    ) <= PAGE_END by {
        assert(!entries_own(env, entries, PageRef::Dirty(s)));
    }
}

/// An insertion into a leaf that is split in two.
proof fn lemma_leaf_split(
    env: Env,
    other: Env,
    gone: Set<u64>,
    gone_after: Set<u64>,
    r: PageRef,
    slot: usize,
    right: usize,
    after: Seq<Entry>,
    at: int,
    key: Seq<u8>,
    value: Stored,
)
    requires
        is_tree(env, r, 0),
        other.pages == env.pages,
        other.count == env.count,
        other.dirty.len() == right + 1,
        right >= env.dirty.len(),
        slot < right,
        opened_at(
            env,
            (Env { dirty: other.dirty.drop_last(), ..other }),
            gone,
            gone_after,
            r,
            slot,
        ),
        node_at(other, PageRef::Dirty(slot)) == Some(Node::Leaf(after.take(at))),
        node_at(other, PageRef::Dirty(right)) == Some(Node::Leaf(after.skip(at))),
        upserts(flat(env, r, 0), after, key, value),
        !(value is Overflow),
        entries_fit(after),
        leaf_split_fits(after, at),
    ensures
        inserted(
            env,
            other,
            gone,
            gone_after,
            r,
            0,
            seq![
                Link { key: after[0].key, page: PageRef::Dirty(slot) },
                Link { key: after[at].key, page: PageRef::Dirty(right) },
            ],
            key,
            value,
        ),
        flat(other, PageRef::Dirty(slot), 0)[0].key == after[0].key,
{
    reveal(subtree);
    reveal(opened_at);
    reveal(inserted);
    let before = flat(env, r, 0);
    let d = PageRef::Dirty(slot);
    let e = PageRef::Dirty(right);
    let run = seq![
        Link { key: after[0].key, page: d },
        Link { key: after[at].key, page: e },
    ];
    lemma_upsert_values(env, r, slot, before, after, key, value);
    lemma_values_env(env, other, d, after);
    lemma_leaf_pair(other, slot, right, after, at);
    assert(run[0].key == flat(other, run[0].page, 0)[0].key);
    lemma_leaf_ownership(env, r);
    lemma_old_value(env, r, key);
    assert forall|p: PageRef| #[trigger]
        run_owns(other, run, 0, p) == (p == d || p == e || (entries_own(env, before, p)
            && !old_value_owns(env, before, key, p))) by {
        assert(entries_own(other, after, p) == entries_own(env, after, p));
    }
    assert forall|s: int|
        0 <= s < env.dirty.len() && !owns(env, r, 0, PageRef::Dirty(s as usize)) implies
        #[trigger] other.dirty[s] == env.dirty[s] by {
        assert(other.dirty.drop_last()[s] == env.dirty[s]);
    }
    lemma_branching_leaves(other, run, 0);
}

/// Where no two pages hold a leaf, there are entries before and behind one whose
/// neighbours fit into pages of their own.
proof fn lemma_alone(entries: Seq<Entry>, at: int)
    requires
        entries_fit(entries),
        PAGE_END < leaf_size(entries),
        apart_fit(entries, at, PAGE_END as nat),
        forall|split: int| !#[trigger] leaf_split_fits(entries, split),
    ensures
        0 < at,
        at + 1 < entries.len(),
        leaf_split_fits(entries.skip(at), 1),
        leaf_size(entries.take(at)) <= PAGE_END,
{
    let one = seq![entries[at]];
    let tail = entries.skip(at);
    assert(entry_fits(entries[at]));
    assert(one.drop_last() =~= Seq::<Entry>::empty());
    assert(payload(one) == payload(one.drop_last()) + one.last().key.len() + crate::node::inline_len(
        one.last().value,
    ));
    assert(leaf_size(one) <= PAGE_END);
    assert(tail.take(1) =~= one);
    assert(tail.skip(1) =~= entries.skip(at + 1));
    if at == 0 {
        assert(entries.take(1) =~= one);
        if entries.len() > 1 {
            assert(!leaf_split_fits(entries, 1));
        } else {
            assert(entries =~= one);
        }
    }
    if at + 1 == entries.len() {
        assert(entries.skip(at) =~= one);
        assert(!leaf_split_fits(entries, at));
    }
}

/// Three leaves in memory that share the entries of one.
proof fn lemma_leaf_trio(
    env: Env,
    slot: usize,
    middle: usize,
    right: usize,
    entries: Seq<Entry>,
    at: int,
)
    requires
        slot != middle,
        slot != right,
        middle != right,
        node_at(env, PageRef::Dirty(slot)) == Some(Node::Leaf(entries.take(at))),
        node_at(env, PageRef::Dirty(middle)) == Some(Node::Leaf(entries.skip(at).take(1))),
        node_at(env, PageRef::Dirty(right)) == Some(Node::Leaf(entries.skip(at).skip(1))),
        values_ok(env, PageRef::Dirty(slot), entries),
        entries_fit(entries),
        0 < at,
        at + 1 < entries.len(),
        leaf_size(entries.take(at)) <= PAGE_END,
        leaf_split_fits(entries.skip(at), 1),
    ensures
        ({
            let run = seq![
                Link { key: entries[0].key, page: PageRef::Dirty(slot) },
                Link { key: entries[at].key, page: PageRef::Dirty(middle) },
                Link { key: entries[at + 1].key, page: PageRef::Dirty(right) },
            ];
            &&& run_ok(env, run, 0)
            &&& keyed(env, run, 0, 0)
            &&& flat_all(env, run, 0) == entries
            &&& forall|p: PageRef| #[trigger]
                run_owns(env, run, 0, p) == (p == PageRef::Dirty(slot) || p == PageRef::Dirty(
                    middle,
                ) || p == PageRef::Dirty(right) || entries_own(env, entries, p))
            &&& snug_run(env, run, 0)
        }),
{
    let d = PageRef::Dirty(slot);
    let m = PageRef::Dirty(middle);
    let e = PageRef::Dirty(right);
    let low = entries.take(at);
    let high = entries.skip(at);
    let first = Link { key: entries[0].key, page: d };
    let a = seq![first];
    let b = seq![Link { key: high[0].key, page: m }, Link { key: high[1].key, page: e }];
    let run = seq![
        first,
        Link { key: entries[at].key, page: m },
        Link { key: entries[at + 1].key, page: e },
    ];
    lemma_values_cut(env, d, entries, at);
    assert(forall|i: int| 0 <= i < low.len() ==> low[i] == entries[i]);
    assert(forall|i: int| 0 <= i < high.len() ==> high[i] == entries[i + at]);
    assert(values_ok(env, PageRef::Dirty(slot), low));
    assert(values_ok(env, PageRef::Dirty(middle), high));
    lemma_leaf_built(env, slot, low);
    lemma_leaf_pair(env, middle, right, high, 1);
    lemma_run_one(env, first, 0);
    assert forall|p: PageRef| #[trigger]
        run_owns(env, a, 0, p) == (p == d || entries_own(env, low, p)) by {
        assert(run_owns(env, a, 0, p) == owns(env, d, 0, p));
        assert(owns(env, d, 0, p) == (p == d || entries_own(env, low, p)));
    }
    assert forall|p: PageRef| !(#[trigger] run_owns(env, a, 0, p) && run_owns(env, b, 0, p)) by {
        assert(!(entries_own(env, low, p) && entries_own(env, high, p)));
    }
    lemma_run_join(env, a, b, 0);
    assert(a + b =~= run);
    assert(low + high =~= entries);
    assert forall|p: PageRef| #[trigger]
        run_owns(env, run, 0, p) == (p == d || p == m || p == e || entries_own(env, entries, p)) by {
        assert(run_owns(env, run, 0, p) == (run_owns(env, a, 0, p) || run_owns(env, b, 0, p)));
        assert(entries_own(env, entries, p) == (entries_own(env, low, p) || entries_own(
            env,
            high,
            p,
        )));
    }
    assert forall|s: usize| #[trigger] run_owns(env, run, 0, PageRef::Dirty(s)) implies node_size(
        node_at(env, PageRef::Dirty(s))->0,
    ) <= PAGE_END by {
        assert(!entries_own(env, entries, PageRef::Dirty(s)));
    }
}

/// An insertion into a leaf that is split in three.
proof fn lemma_leaf_split_three(
    env: Env,
    other: Env,
    gone: Set<u64>,
    gone_after: Set<u64>,
    r: PageRef,
    slot: usize,
    middle: usize,
    right: usize,
    after: Seq<Entry>,
    at: int,
    key: Seq<u8>,
    value: Stored,
)
    requires
        is_tree(env, r, 0),
        other.pages == env.pages,
        other.count == env.count,
        other.dirty.len() == right + 1,
        right == middle + 1,
        middle >= env.dirty.len(),
        slot < middle,
        opened_at(
            env,
            (Env { dirty: other.dirty.take(middle as int), ..other }),
            gone,
            gone_after,
            r,
            slot,
        ),
        node_at(other, PageRef::Dirty(slot)) == Some(Node::Leaf(after.take(at))),
        node_at(other, PageRef::Dirty(middle)) == Some(Node::Leaf(after.skip(at).take(1))),
        node_at(other, PageRef::Dirty(right)) == Some(Node::Leaf(after.skip(at).skip(1))),
        upserts(flat(env, r, 0), after, key, value),
        !(value is Overflow),
        entries_fit(after),
        0 < at,
        at + 1 < after.len(),
        leaf_size(after.take(at)) <= PAGE_END,
        leaf_split_fits(after.skip(at), 1),
    ensures
        inserted(
            env,
            other,
            gone,
            gone_after,
            r,
            0,
            seq![
                Link { key: after[0].key, page: PageRef::Dirty(slot) },
                Link { key: after[at].key, page: PageRef::Dirty(middle) },
                Link { key: after[at + 1].key, page: PageRef::Dirty(right) },
            ],
            key,
            value,
        ),
        flat(other, PageRef::Dirty(slot), 0)[0].key == after[0].key,
{
    reveal(subtree);
    reveal(opened_at);
    reveal(inserted);
    let before = flat(env, r, 0);
    let d = PageRef::Dirty(slot);
    let m = PageRef::Dirty(middle);
    let e = PageRef::Dirty(right);
    let run = seq![
        Link { key: after[0].key, page: d },
        Link { key: after[at].key, page: m },
        Link { key: after[at + 1].key, page: e },
    ];
    lemma_upsert_values(env, r, slot, before, after, key, value);
    lemma_values_env(env, other, d, after);
    lemma_leaf_trio(other, slot, middle, right, after, at);
    assert(run[0].key == flat(other, run[0].page, 0)[0].key);
    lemma_leaf_ownership(env, r);
    lemma_old_value(env, r, key);
    assert forall|p: PageRef| #[trigger]
        run_owns(other, run, 0, p) == (p == d || p == m || p == e || (entries_own(env, before, p)
            && !old_value_owns(env, before, key, p))) by {
        assert(entries_own(other, after, p) == entries_own(env, after, p));
    }
    assert forall|s: int|
        0 <= s < env.dirty.len() && !owns(env, r, 0, PageRef::Dirty(s as usize)) implies
        #[trigger] other.dirty[s] == env.dirty[s] by {
        assert(other.dirty.take(middle as int)[s] == env.dirty[s]);
    }
    lemma_branching_leaves(other, run, 0);
}

// ---------------------------------------------------------------------------
// Internal nodes
// ---------------------------------------------------------------------------

/// Opening a node leaves its children as they are.
pub proof fn lemma_opened_children(
    env: Env,
    other: Env,
    gone: Set<u64>,
    gone_after: Set<u64>,
    r: PageRef,
    h: nat,
    slot: usize,
    links: Seq<Link>,
)
    requires
        is_tree(env, r, h),
        opened_at(env, other, gone, gone_after, r, slot),
        opened(env, r, h) == Node::Internal(links),
    ensures
        h > 0,
        run_ok(other, links, (h - 1) as nat),
        keyed(other, links, (h - 1) as nat, 0),
        flat_all(other, links, (h - 1) as nat) == flat(env, r, h),
        sorted_entries(flat_all(other, links, (h - 1) as nat)),
        forall|p: PageRef| #[trigger]
            run_owns(other, links, (h - 1) as nat, p) == run_owns(env, links, (h - 1) as nat, p),
        forall|p: PageRef| #[trigger]
            owns(env, r, h, p) == (p == r || run_owns(other, links, (h - 1) as nat, p)),
        !run_owns(other, links, (h - 1) as nat, r),
        !run_owns(other, links, (h - 1) as nat, PageRef::Dirty(slot)),
        forall|s: usize| #[trigger]
            run_owns(env, links, (h - 1) as nat, PageRef::Dirty(s)) ==> node_at(
                other,
                PageRef::Dirty(s),
            ) == node_at(env, PageRef::Dirty(s)),
        snug(env, r, h) ==> snug_run(other, links, (h - 1) as nat),
        links.len() > 0,
{
    reveal(opened_at);
    let below = (h - 1) as nat;
    crate::tree::lemma_opened_run(env, r, h, links);
    assert forall|s: usize| #[trigger] run_owns(env, links, below, PageRef::Dirty(s)) implies
        node_at(other, PageRef::Dirty(s)) == node_at(env, PageRef::Dirty(s)) && s != slot by {
        lemma_run_slots(env, links, below, PageRef::Dirty(s));
        assert(other.dirty[s as int] == env.dirty[s as int]);
    }
    lemma_run_kept(env, other, links, below);
    if snug(env, r, h) {
        assert forall|s: usize| #[trigger] run_owns(env, links, below, PageRef::Dirty(s)) implies
            node_size(node_at(env, PageRef::Dirty(s))->0) <= PAGE_END by {
            assert(owns(env, r, h, PageRef::Dirty(s)));
        }
    }
}

/// What is known of the children of a node once one of them was inserted into.
#[verifier::opaque]
spec fn grown_from(
    env: Env,
    other: Env,
    gone: Set<u64>,
    gone_after: Set<u64>,
    r: PageRef,
    h: nat,
    slot: usize,
    grown: Seq<Link>,
    key: Seq<u8>,
    value: Stored,
) -> bool {
    let below = (h - 1) as nat;
    &&& h > 0
    &&& grown.len() > 0
    &&& run_ok(other, grown, below)
    &&& keyed(other, grown, below, 0)
    &&& upserts(flat(env, r, h), flat_all(other, grown, below), key, value)
    &&& other.pages == env.pages
    &&& other.count == env.count
    &&& other.dirty.len() >= env.dirty.len()
    &&& slot < other.dirty.len()
    &&& r == PageRef::Dirty(slot) || slot >= env.dirty.len()
    &&& forall|s: int|
        0 <= s < env.dirty.len() && !owns(env, r, h, PageRef::Dirty(s as usize))
            ==> #[trigger] other.dirty[s] == env.dirty[s]
    &&& forall|p: PageRef| #[trigger]
        run_owns(other, grown, below, p) ==> p != PageRef::Dirty(slot) && p != r && (owns(
            env,
            r,
            h,
            p,
        ) || is_fresh(env, p))
    &&& forall|id: u64| #[trigger]
        gone_after.contains(id) == (gone.contains(id) || (owns(env, r, h, PageRef::Committed(id))
            && !run_owns(other, grown, below, PageRef::Committed(id)) && !old_value_owns(
            env,
            flat(env, r, h),
            key,
            PageRef::Committed(id),
        )))
    &&& forall|p: PageRef| #[trigger]
        old_value_owns(env, flat(env, r, h), key, p) ==> !run_owns(other, grown, below, p)
    &&& snug(env, r, h) ==> snug_run(other, grown, below)
    &&& forall|edge: bool| #[trigger]
        branching(env, r, h, edge) ==> (grown.len() > 1 || edge) && branching_run(
            other,
            grown,
            below,
            edge,
        )
    &&& wide(node_at(env, r)->0, false) ==> grown.len() > 1
}

/// The children of a node that is opened branch where its tree does.
pub proof fn lemma_branching_children(
    env: Env,
    mid: Env,
    gone: Set<u64>,
    gone_mid: Set<u64>,
    r: PageRef,
    h: nat,
    slot: usize,
    links: Seq<Link>,
    edge: bool,
)
    requires
        is_tree(env, r, h),
        opened_at(env, mid, gone, gone_mid, r, slot),
        opened(env, r, h) == Node::Internal(links),
        branching(env, r, h, edge),
    ensures
        h > 0,
        links.len() > 1 || edge,
        branching_run(mid, links, (h - 1) as nat, edge),
{
    lemma_branching_opened(env, r, h, edge);
    lemma_opened_children(env, mid, gone, gone_mid, r, h, slot, links);
    assert(mid.pages == env.pages && mid.count == env.count) by {
        reveal(opened_at);
    }
    lemma_branching_run_kept(env, mid, links, (h - 1) as nat, edge);
}

/// The children of a node branch once one of them was inserted into.
proof fn lemma_branching_grown(
    env: Env,
    mid: Env,
    other: Env,
    gone: Set<u64>,
    gone_mid: Set<u64>,
    gone_after: Set<u64>,
    r: PageRef,
    h: nat,
    slot: usize,
    links: Seq<Link>,
    i: int,
    run: Seq<Link>,
    key: Seq<u8>,
    value: Stored,
    edge: bool,
)
    requires
        is_tree(env, r, h),
        opened_at(env, mid, gone, gone_mid, r, slot),
        opened(env, r, h) == Node::Internal(links),
        0 <= i < links.len(),
        h > 0,
        inserted(
            mid,
            other,
            gone_mid,
            gone_after,
            links[i].page,
            (h - 1) as nat,
            run,
            key,
            value,
        ),
        run.len() > 0,
        branching(env, r, h, edge),
    ensures
        ({
            let grown = links.take(i) + run + links.skip(i + 1);
            (grown.len() > 1 || edge) && branching_run(other, grown, (h - 1) as nat, edge)
        }),
{
    reveal(inserted);
    let below = (h - 1) as nat;
    let a = links.take(i);
    let b = links.skip(i + 1);
    let child = links[i].page;
    lemma_branching_children(env, mid, gone, gone_mid, r, h, slot, links, edge);
    lemma_opened_children(env, mid, gone, gone_mid, r, h, slot, links);
    assert(links =~= a + seq![links[i]] + b);
    let inner = edge && b.len() == 0;
    lemma_branching_add(mid, a + seq![links[i]], b, below, edge);
    lemma_branching_add(mid, a, seq![links[i]], below, inner);
    assert(seq![links[i]][0] == links[i]);
    assert(branching(mid, child, below, inner));
    assert forall|s: usize|
        run_owns(mid, a, below, PageRef::Dirty(s)) || run_owns(
            mid,
            b,
            below,
            PageRef::Dirty(s),
        ) implies #[trigger] node_at(other, PageRef::Dirty(s)) == node_at(
        mid,
        PageRef::Dirty(s),
    ) by {
        let p = PageRef::Dirty(s);
        lemma_run_owner(mid, links, below, i, p);
        lemma_run_slots(mid, links, below, p);
        assert(other.dirty[s as int] == mid.dirty[s as int]);
    }
    lemma_branching_run_kept(mid, other, a, below, false);
    lemma_branching_run_kept(mid, other, b, below, edge);
    lemma_branching_add(other, a, run, below, inner);
    lemma_branching_add(other, a + run, b, below, edge);
}

/// The entries below a node after an insertion below one of its children.
proof fn lemma_grown_entries(
    env: Env,
    mid: Env,
    other: Env,
    gone: Set<u64>,
    gone_mid: Set<u64>,
    gone_after: Set<u64>,
    r: PageRef,
    h: nat,
    slot: usize,
    links: Seq<Link>,
    i: int,
    run: Seq<Link>,
    key: Seq<u8>,
    value: Stored,
)
    requires
        is_tree(env, r, h),
        opened_at(env, mid, gone, gone_mid, r, slot),
        opened(env, r, h) == Node::Internal(links),
        child_at(links, key, i),
        h > 0,
        inserted(
            mid,
            other,
            gone_mid,
            gone_after,
            links[i].page,
            (h - 1) as nat,
            run,
            key,
            value,
        ),
        run.len() > 0,
    ensures
        ({
            let below = (h - 1) as nat;
            let child = links[i].page;
            let grown = links.take(i) + run + links.skip(i + 1);
            &&& flat_all(other, grown, below) == flat_all(mid, links.take(i), below) + flat_all(
                other,
                run,
                below,
            ) + flat_all(mid, links.skip(i + 1), below) ==> upserts(
                flat(env, r, h),
                flat_all(other, grown, below),
                key,
                value,
            )
            &&& lookup(flat(env, r, h), key) == lookup(flat(mid, child, below), key)
        }),
{
    reveal(opened_at);
    reveal(inserted);
    let below = (h - 1) as nat;
    let child = links[i].page;
    lemma_opened_descend(env, r, h, links, key, i);
    lemma_opened_children(env, mid, gone, gone_mid, r, h, slot, links);
    lemma_flat_all_split(mid, links, below, i);
    lemma_around_child(mid, links, below, key, i);
    let a = flat_all(mid, links.take(i), below);
    let b = flat_all(mid, links.skip(i + 1), below);
    let whole = flat_all(mid, links, below);
    let start = child_start(mid, links, below, i);
    assert forall|k: int| 0 <= k < a.len() implies lt((#[trigger] a[k]).key, key) by {
        assert(whole[k] == a[k]);
    }
    assert forall|k: int| 0 <= k < b.len() implies lt(key, (#[trigger] b[k]).key) by {
        assert(whole[start + flat(mid, child, below).len() + k] == b[k]);
    }
    lemma_upsert_within(
        a,
        flat(mid, child, below),
        flat_all(other, run, below),
        b,
        key,
        value,
    );
    assert(flat(mid, child, below) == flat(env, child, below)) by {
        assert forall|p: PageRef| #[trigger] owns(env, child, below, p) implies same_at(
            env,
            mid,
            p,
        ) by {
            assert(run_owns(env, links, below, p));
        }
        lemma_tree_kept(env, mid, child, below);
    }
}

/// What belongs to a tree.
pub open spec fn owned(env: Env, r: PageRef, h: nat) -> Set<PageRef> {
    Set::new(|p: PageRef| owns(env, r, h, p))
}

/// What belongs to a run.
pub open spec fn run_owned(env: Env, links: Seq<Link>, h: nat) -> Set<PageRef> {
    Set::new(|p: PageRef| run_owns(env, links, h, p))
}

/// What belongs to a node and what is left behind, after one child `c` of the children
/// `a`, `c` and `b` was replaced by the run `run`, which has left `old` behind.
proof fn lemma_exchange(
    env: Env,
    mid: Env,
    gone: Set<u64>,
    gone_mid: Set<u64>,
    gone_after: Set<u64>,
    r: PageRef,
    slot: usize,
    whole: Set<PageRef>,
    a: Set<PageRef>,
    c: Set<PageRef>,
    b: Set<PageRef>,
    run: Set<PageRef>,
    grown: Set<PageRef>,
    old: Set<PageRef>,
)
    requires
        opened_at(env, mid, gone, gone_mid, r, slot),
        grown == a.union(run).union(b),
        a.disjoint(c),
        c.disjoint(b),
        whole == a.union(c).union(b).insert(r),
        !a.union(c).union(b).contains(r),
        !a.union(c).union(b).contains(PageRef::Dirty(slot)),
        forall|p: PageRef| #[trigger] run.contains(p) ==> c.contains(p) || is_fresh(mid, p),
        forall|p: PageRef| #[trigger] old.contains(p) ==> c.contains(p) && !run.contains(p),
        forall|id: u64| #[trigger]
            gone_after.contains(id) == (gone_mid.contains(id) || (c.contains(PageRef::Committed(id))
                && !run.contains(PageRef::Committed(id)) && !old.contains(PageRef::Committed(id)))),
    ensures
        forall|p: PageRef| #[trigger]
            grown.contains(p) ==> p != PageRef::Dirty(slot) && p != r && (whole.contains(p)
                || is_fresh(env, p)),
        forall|id: u64| #[trigger]
            gone_after.contains(id) == (gone.contains(id) || (whole.contains(
                PageRef::Committed(id),
            ) && !grown.contains(PageRef::Committed(id)) && !old.contains(PageRef::Committed(id)))),
        forall|p: PageRef| #[trigger] old.contains(p) ==> !grown.contains(p),
{
    reveal(opened_at);
    assert forall|id: u64| #[trigger]
        gone_after.contains(id) == (gone.contains(id) || (whole.contains(PageRef::Committed(id))
            && !grown.contains(PageRef::Committed(id)) && !old.contains(
            PageRef::Committed(id),
        ))) by {
        let p = PageRef::Committed(id);
        assert(run.contains(p) ==> c.contains(p));
        assert(whole.contains(p) == (p == r || a.contains(p) || c.contains(p) || b.contains(p)));
    }
}

/// The children of a node after an insertion into one of them.
proof fn lemma_grown(
    env: Env,
    mid: Env,
    other: Env,
    gone: Set<u64>,
    gone_mid: Set<u64>,
    gone_after: Set<u64>,
    r: PageRef,
    h: nat,
    slot: usize,
    links: Seq<Link>,
    i: int,
    run: Seq<Link>,
    key: Seq<u8>,
    value: Stored,
)
    requires
        is_tree(env, r, h),
        opened_at(env, mid, gone, gone_mid, r, slot),
        opened(env, r, h) == Node::Internal(links),
        child_at(links, key, i),
        h > 0,
        inserted(
            mid,
            other,
            gone_mid,
            gone_after,
            links[i].page,
            (h - 1) as nat,
            run,
            key,
            value,
        ),
        run.len() > 0,
    ensures
        grown_from(
            env,
            other,
            gone,
            gone_after,
            r,
            h,
            slot,
            links.take(i) + run + links.skip(i + 1),
            key,
            value,
        ),
{
    reveal(opened_at);
    reveal(grown_from);
    reveal(inserted);
    let below = (h - 1) as nat;
    let grown = links.take(i) + run + links.skip(i + 1);
    let child = links[i].page;
    let before = flat(env, r, h);
    lemma_opened_children(env, mid, gone, gone_mid, r, h, slot, links);
    lemma_grown_entries(
        env,
        mid,
        other,
        gone,
        gone_mid,
        gone_after,
        r,
        h,
        slot,
        links,
        i,
        run,
        key,
        value,
    );
    lemma_graft(mid, other, links, below, i, run);
    lemma_run_child(mid, links, below, i);
    let whole = owned(env, r, h);
    let a = run_owned(mid, links.take(i), below);
    let c = owned(mid, child, below);
    let b = run_owned(mid, links.skip(i + 1), below);
    let new = run_owned(other, run, below);
    let all = run_owned(other, grown, below);
    let old = Set::new(|p: PageRef| old_value_owns(env, before, key, p));
    assert forall|edge: bool| #[trigger] branching(env, r, h, edge) implies (grown.len() > 1
        || edge) && branching_run(other, grown, below, edge) by {
        lemma_branching_grown(
            env,
            mid,
            other,
            gone,
            gone_mid,
            gone_after,
            r,
            h,
            slot,
            links,
            i,
            run,
            key,
            value,
            edge,
        );
    }
    lemma_branching_opened(env, r, h, false);
    assert(all =~= a.union(new).union(b));
    if snug(env, r, h) {
        assert forall|s: usize| #[trigger] owns(mid, child, below, PageRef::Dirty(s)) implies
            node_size(node_at(mid, PageRef::Dirty(s))->0) <= PAGE_END by {
            assert(run_owns(mid, links, below, PageRef::Dirty(s)));
        }
    }
    assert(run_owned(mid, links, below) =~= a.union(c).union(b) && a.disjoint(c) && c.disjoint(b))
        by {
        assert forall|p: PageRef| true implies run_owns(mid, links, below, p) == (
        #[trigger] a.contains(p) || c.contains(p) || b.contains(p)) && !(a.contains(p)
            && c.contains(p)) && !(c.contains(p) && b.contains(p)) by {
            lemma_run_owner(mid, links, below, i, p);
        }
    }
    assert(whole =~= run_owned(mid, links, below).insert(r));
    assert forall|p: PageRef| #[trigger] old.contains(p) implies c.contains(p) && !new.contains(
        p,
    ) by {
        assert(old_value_owns(mid, flat(mid, child, below), key, p));
        lemma_tree_value(mid, child, below, key, p);
    }
    assert forall|id: u64| #[trigger]
        gone_after.contains(id) == (gone_mid.contains(id) || (c.contains(PageRef::Committed(id))
            && !new.contains(PageRef::Committed(id)) && !old.contains(PageRef::Committed(id)))) by {
        assert(old.contains(PageRef::Committed(id)) == old_value_owns(
            mid,
            flat(mid, child, below),
            key,
            PageRef::Committed(id),
        ));
    }
    assert forall|p: PageRef| #[trigger] new.contains(p) implies c.contains(p) || is_fresh(
        mid,
        p,
    ) by {
        assert(run_owns(other, run, below, p));
    }
    assert(!run_owned(mid, links, below).contains(r));
    assert(!run_owned(mid, links, below).contains(PageRef::Dirty(slot)));
    lemma_exchange(
        env,
        mid,
        gone,
        gone_mid,
        gone_after,
        r,
        slot,
        whole,
        a,
        c,
        b,
        new,
        all,
        old,
    );
    assert forall|s: int|
        0 <= s < env.dirty.len() && !owns(env, r, h, PageRef::Dirty(s as usize)) implies
        #[trigger] other.dirty[s] == env.dirty[s] by {
        let p = PageRef::Dirty(s as usize);
        assert(!whole.contains(p));
        assert(!c.contains(p));
        assert(mid.dirty[s] == env.dirty[s]);
        assert(other.dirty[s] == mid.dirty[s]);
    }
    assert forall|p: PageRef| #[trigger] run_owns(other, grown, below, p) implies p
        != PageRef::Dirty(slot) && p != r && (owns(env, r, h, p) || is_fresh(env, p)) by {
        assert(all.contains(p));
    }
    assert forall|id: u64| #[trigger]
        gone_after.contains(id) == (gone.contains(id) || (owns(env, r, h, PageRef::Committed(id))
            && !run_owns(other, grown, below, PageRef::Committed(id)) && !old_value_owns(
            env,
            before,
            key,
            PageRef::Committed(id),
        ))) by {
        assert(whole.contains(PageRef::Committed(id)) == owns(env, r, h, PageRef::Committed(id)));
    }
    assert forall|p: PageRef| #[trigger]
        old_value_owns(env, before, key, p) implies !run_owns(other, grown, below, p) by {
        assert(old.contains(p));
    }
}

/// The pages of the value under a key belong to the tree.
pub proof fn lemma_tree_value(env: Env, r: PageRef, h: nat, key: Seq<u8>, p: PageRef)
    requires
        subtree(env, r, h),
        old_value_owns(env, flat(env, r, h), key, p),
    ensures
        owns(env, r, h, p),
        p is Committed,
{
    let entries = flat(env, r, h);
    let k = choose|k: int| 0 <= k < entries.len() && (#[trigger] entries[k]).key == key;
    lemma_entry_owner(env, r, h, k, p);
}

/// The pages of an entry belong to the tree.
pub proof fn lemma_entry_owner(env: Env, r: PageRef, h: nat, k: int, p: PageRef)
    requires
        subtree(env, r, h),
        0 <= k < flat(env, r, h).len(),
        value_owns(env, flat(env, r, h)[k].value, p),
    ensures
        owns(env, r, h, p),
    decreases h,
{
    reveal(subtree);
    reveal(owns);
    reveal(run_ok);
    match node_at(env, r)->0 {
        Node::Leaf(entries) => {
            assert(value_owns(env, entries[k].value, p));
        },
        Node::Internal(links) => {
            let at = crate::model::lemma_flat_all_index(env, links, (h - 1) as nat, k);
            lemma_entry_owner(env, links[at.0].page, (h - 1) as nat, at.1, p);
        },
    }
}

/// A node after an insertion below it that needs no split.
proof fn lemma_internal_inserted(
    env: Env,
    mid: Env,
    other: Env,
    gone: Set<u64>,
    gone_after: Set<u64>,
    r: PageRef,
    h: nat,
    slot: usize,
    grown: Seq<Link>,
    key: Seq<u8>,
    value: Stored,
)
    requires
        grown_from(env, mid, gone, gone_after, r, h, slot, grown, key, value),
        other == (Env { dirty: mid.dirty.update(slot as int, Some(Node::Internal(grown))), ..mid }),
        keys_fit(grown),
        internal_size(grown) <= PAGE_END,
    ensures
        inserted(
            env,
            other,
            gone,
            gone_after,
            r,
            h,
            seq![Link { key: grown[0].key, page: PageRef::Dirty(slot) }],
            key,
            value,
        ),
        flat(other, PageRef::Dirty(slot), h)[0].key == grown[0].key,
{
    reveal(grown_from);
    reveal(inserted);
    let below = (h - 1) as nat;
    let d = PageRef::Dirty(slot);
    let link = Link { key: grown[0].key, page: d };
    assert(!run_owns(mid, grown, below, d));
    lemma_run_kept(mid, other, grown, below);
    assert(!run_owns(other, grown, below, d));
    lemma_node_built(other, slot, grown, below);
    lemma_run_one(other, link, h);
    assert forall|p: PageRef| #[trigger]
        run_owns(other, seq![link], h, p) == (p == d || run_owns(mid, grown, below, p)) by {
        assert(owns(other, d, h, p) == (p == d || run_owns(other, grown, below, p)));
    }
    assert forall|s: int|
        0 <= s < env.dirty.len() && !owns(env, r, h, PageRef::Dirty(s as usize)) implies
        #[trigger] other.dirty[s] == env.dirty[s] by {
        lemma_owns_root(env, r, h);
        assert(mid.dirty[s] == env.dirty[s]);
    }
    if snug(env, r, h) {
        assert(snug(other, d, h));
        assert forall|s: usize| #[trigger]
            run_owns(other, seq![link], h, PageRef::Dirty(s)) implies node_size(
            node_at(other, PageRef::Dirty(s))->0,
        ) <= PAGE_END by {
            assert(owns(other, d, h, PageRef::Dirty(s)));
        }
    }
    assert forall|p: PageRef| #[trigger] run_owns(other, seq![link], h, p) implies owns(
        env,
        r,
        h,
        p,
    ) || is_fresh(env, p) by {
        lemma_owns_root(env, r, h);
    }
    assert forall|edge: bool| #[trigger] branching(env, r, h, edge) implies branching_run(
        other,
        seq![link],
        h,
        edge,
    ) by {
        lemma_branching_run_kept(mid, other, grown, below, edge);
        lemma_branching_built(other, d, Node::Internal(grown), h, edge);
    }
}

/// Two nodes in memory that share the children of one.
pub proof fn lemma_node_pair(
    env: Env,
    slot: usize,
    right: usize,
    links: Seq<Link>,
    at: int,
    h: nat,
)
    requires
        slot != right,
        node_at(env, PageRef::Dirty(slot)) == Some(Node::Internal(links.take(at))),
        node_at(env, PageRef::Dirty(right)) == Some(Node::Internal(links.skip(at))),
        run_ok(env, links, h),
        keyed(env, links, h, 0),
        keys_fit(links),
        internal_split_fits(links, at),
        !run_owns(env, links, h, PageRef::Dirty(slot)),
        !run_owns(env, links, h, PageRef::Dirty(right)),
    ensures
        ({
            let run = seq![
                Link { key: links[0].key, page: PageRef::Dirty(slot) },
                Link { key: links[at].key, page: PageRef::Dirty(right) },
            ];
            &&& run_ok(env, run, h + 1)
            &&& keyed(env, run, h + 1, 0)
            &&& flat_all(env, run, h + 1) == flat_all(env, links, h)
            &&& forall|p: PageRef| #[trigger]
                run_owns(env, run, h + 1, p) == (p == PageRef::Dirty(slot) || p == PageRef::Dirty(
                    right,
                ) || run_owns(env, links, h, p))
            &&& snug_run(env, links, h) ==> snug_run(env, run, h + 1)
        }),
{
    let d = PageRef::Dirty(slot);
    let e = PageRef::Dirty(right);
    let low = links.take(at);
    let high = links.skip(at);
    let first = Link { key: links[0].key, page: d };
    let second = Link { key: links[at].key, page: e };
    lemma_run_cut(env, links, h, at);
    lemma_keys_fit_cut(links, at);
    assert(low[0] == links[0]);
    assert(high[0] == links[at]);
    assert(!run_owns(env, low, h, d) && !run_owns(env, high, h, e));
    assert(!run_owns(env, low, h, e) && !run_owns(env, high, h, d));
    lemma_node_built(env, slot, low, h);
    lemma_node_built(env, right, high, h);
    lemma_run_one(env, first, h + 1);
    lemma_run_one(env, second, h + 1);
    let a = seq![first];
    let b = seq![second];
    assert forall|p: PageRef|
        !(#[trigger] run_owns(env, a, h + 1, p) && run_owns(env, b, h + 1, p)) by {
        assert(run_owns(env, a, h + 1, p) == owns(env, d, h + 1, p));
        assert(run_owns(env, b, h + 1, p) == owns(env, e, h + 1, p));
        assert(owns(env, d, h + 1, p) == (p == d || run_owns(env, low, h, p)));
        assert(owns(env, e, h + 1, p) == (p == e || run_owns(env, high, h, p)));
        assert(!(run_owns(env, low, h, p) && run_owns(env, high, h, p)));
    }
    lemma_run_join(env, a, b, h + 1);
    let run = seq![first, second];
    assert(a + b =~= run);
    assert forall|p: PageRef| #[trigger]
        run_owns(env, run, h + 1, p) == (p == d || p == e || run_owns(env, links, h, p)) by {
        assert(run_owns(env, run, h + 1, p) == (run_owns(env, a, h + 1, p) || run_owns(
            env,
            b,
            h + 1,
            p,
        )));
        assert(run_owns(env, a, h + 1, p) == owns(env, d, h + 1, p));
        assert(run_owns(env, b, h + 1, p) == owns(env, e, h + 1, p));
        assert(owns(env, d, h + 1, p) == (p == d || run_owns(env, low, h, p)));
        assert(owns(env, e, h + 1, p) == (p == e || run_owns(env, high, h, p)));
    }
}

/// A node after an insertion below it that splits it in two.
proof fn lemma_internal_split(
    env: Env,
    mid: Env,
    other: Env,
    gone: Set<u64>,
    gone_after: Set<u64>,
    r: PageRef,
    h: nat,
    slot: usize,
    right: usize,
    grown: Seq<Link>,
    at: int,
    key: Seq<u8>,
    value: Stored,
)
    requires
        grown_from(env, mid, gone, gone_after, r, h, slot, grown, key, value),
        right == mid.dirty.len(),
        other == (Env {
            dirty: mid.dirty.update(slot as int, Some(Node::Internal(grown.take(at)))).push(
                Some(Node::Internal(grown.skip(at))),
            ),
            ..mid
        }),
        keys_fit(grown),
        internal_split_fits(grown, at),
    ensures
        inserted(
            env,
            other,
            gone,
            gone_after,
            r,
            h,
            seq![
                Link { key: grown[0].key, page: PageRef::Dirty(slot) },
                Link { key: grown[at].key, page: PageRef::Dirty(right) },
            ],
            key,
            value,
        ),
        flat(other, PageRef::Dirty(slot), h)[0].key == grown[0].key,
{
    reveal(grown_from);
    reveal(inserted);
    let below = (h - 1) as nat;
    let d = PageRef::Dirty(slot);
    let e = PageRef::Dirty(right);
    let run = seq![
        Link { key: grown[0].key, page: d },
        Link { key: grown[at].key, page: e },
    ];
    assert(!run_owns(mid, grown, below, d));
    if run_owns(mid, grown, below, e) {
        lemma_run_slots(mid, grown, below, e);
    }
    assert forall|s: usize| #[trigger] run_owns(mid, grown, below, PageRef::Dirty(s)) implies
        node_at(other, PageRef::Dirty(s)) == node_at(mid, PageRef::Dirty(s)) by {
        lemma_run_slots(mid, grown, below, PageRef::Dirty(s));
    }
    lemma_run_kept(mid, other, grown, below);
    assert(!run_owns(other, grown, below, d) && !run_owns(other, grown, below, e));
    lemma_node_pair(other, slot, right, grown, at, below);
    assert(run[0].key == flat(other, run[0].page, h)[0].key);
    assert forall|p: PageRef| #[trigger]
        run_owns(other, run, h, p) == (p == d || p == e || run_owns(mid, grown, below, p)) by {
        assert(run_owns(other, grown, below, p) == run_owns(mid, grown, below, p));
    }
    assert forall|s: int|
        0 <= s < env.dirty.len() && !owns(env, r, h, PageRef::Dirty(s as usize)) implies
        #[trigger] other.dirty[s] == env.dirty[s] by {
        lemma_owns_root(env, r, h);
        assert(mid.dirty[s] == env.dirty[s]);
    }
    assert forall|p: PageRef| #[trigger] run_owns(other, run, h, p) implies owns(env, r, h, p)
        || is_fresh(env, p) by {
        lemma_owns_root(env, r, h);
    }
    assert forall|edge: bool| #[trigger] branching(env, r, h, edge) implies branching_run(
        other,
        run,
        h,
        edge,
    ) by {
        let low = grown.take(at);
        let high = grown.skip(at);
        lemma_branching_run_kept(mid, other, grown, below, edge);
        assert(grown =~= low + high);
        lemma_branching_add(other, low, high, below, edge);
        lemma_branching_built(other, d, Node::Internal(low), h, false);
        lemma_branching_built(other, e, Node::Internal(high), h, edge);
    }
}

/// A node grows by two separators at most when one of its children is split.
proof fn lemma_grown_size(links: Seq<Link>, i: int, run: Seq<Link>)
    requires
        0 <= i < links.len(),
        1 <= run.len() <= 3,
        i > 0 ==> run[0].key == links[i].key,
        keys_fit(run),
    ensures
        internal_size(links.take(i) + run + links.skip(i + 1)) <= internal_size(links) + 2 * (
        SLOT_SIZE + MAX_KEY_SIZE),
{
    let grown = links.take(i) + run + links.skip(i + 1);
    let rest = links.skip(i + 1);
    let extra = run.skip(1);
    lemma_keys_fit_cut(run, 1);
    lemma_key_bytes_bound(extra);
    assert(extra.len() * MAX_KEY_SIZE <= 2 * MAX_KEY_SIZE);
    lemma_key_bytes_add(extra, rest);
    if i == 0 {
        assert(grown.skip(1) =~= extra + rest);
        assert(links.skip(1) =~= rest);
    } else {
        let front = links.take(i).skip(1);
        let one = seq![links[i]];
        let same = seq![run[0]];
        assert(grown.skip(1) =~= front + (same + (extra + rest)));
        assert(links.skip(1) =~= front + (one + rest));
        lemma_key_bytes_add(front, same + (extra + rest));
        lemma_key_bytes_add(same, extra + rest);
        lemma_key_bytes_add(front, one + rest);
        lemma_key_bytes_add(one, rest);
        assert(one.drop_last() =~= same.drop_last());
        assert(key_bytes(one) == key_bytes(same)) by {
            assert(key_bytes(one) == key_bytes(one.drop_last()) + one.last().key.len());
            assert(key_bytes(same) == key_bytes(same.drop_last()) + same.last().key.len());
        }
    }
}

/// A run that has taken the place of a tree is well formed.
pub proof fn lemma_inserted_run(
    env: Env,
    other: Env,
    gone: Set<u64>,
    gone_after: Set<u64>,
    r: PageRef,
    h: nat,
    run: Seq<Link>,
    key: Seq<u8>,
    value: Stored,
)
    requires
        inserted(env, other, gone, gone_after, r, h, run, key, value),
        run.len() > 0,
    ensures
        run_ok(other, run, h),
        keyed(other, run, h, 0),
        subtree(other, run[0].page, h),
        flat(other, run[0].page, h).len() > 0,
        run[0].key == flat(other, run[0].page, h)[0].key,
{
    reveal(inserted);
    lemma_run_child(other, run, h, 0);
}

/// A node whose child was inserted into fits into two pages at most.
proof fn lemma_grown_bound(
    env: Env,
    other: Env,
    gone: Set<u64>,
    gone_after: Set<u64>,
    h: nat,
    links: Seq<Link>,
    i: int,
    run: Seq<Link>,
    key: Seq<u8>,
    value: Stored,
)
    requires
        inserted(env, other, gone, gone_after, links[i].page, h, run, key, value),
        is_tree(env, links[i].page, h),
        keyed(env, links, h, 0),
        child_at(links, key, i),
        flat(env, links[i].page, h).len() > 0,
        1 <= run.len() <= 3,
        keys_fit(run),
        keys_fit(links),
        internal_size(links) <= PAGE_END,
    ensures
        ({
            let grown = links.take(i) + run + links.skip(i + 1);
            &&& internal_size(grown) <= PAGE_END + 2 * (SLOT_SIZE + MAX_KEY_SIZE)
            &&& internal_size(grown) > PAGE_END ==> can_split(Node::Internal(grown))
        }),
{
    reveal(inserted);
    let grown = links.take(i) + run + links.skip(i + 1);
    lemma_upsert(flat(env, links[i].page, h), flat_all(other, run, h), key, value);
    lemma_run_child(other, run, h, 0);
    crate::tree::lemma_first_entry(other, run, h);
    assert(links[i].key == flat(env, links[i].page, h)[0].key);
    assert(run[0].key == flat(other, run[0].page, h)[0].key);
    lemma_grown_size(links, i, run);
    if internal_size(grown) > PAGE_END {
        assert(keys_fit(grown)) by {
            assert forall|k: int| 0 <= k < grown.len() implies (#[trigger] grown[k]).key.len()
                <= MAX_KEY_SIZE by {
                if k < i {
                    assert(grown[k] == links[k]);
                } else if k < i + run.len() {
                    assert(grown[k] == run[k - i]);
                } else {
                    assert(grown[k] == links[k - run.len() + 1]);
                }
            }
        }
        lemma_internal_splittable(grown);
    }
}

/// Once a node is open, the child that a key belongs to can be inserted into.
proof fn lemma_child_ready(
    env: Env,
    mid: Env,
    gone: Set<u64>,
    gone_mid: Set<u64>,
    r: PageRef,
    h: nat,
    slot: usize,
    links: Seq<Link>,
    i: int,
    key: Seq<u8>,
)
    requires
        is_tree(env, r, h),
        opened_at(env, mid, gone, gone_mid, r, slot),
        opened(env, r, h) == Node::Internal(links),
        child_at(links, key, i),
        all_sorted_links(links),
        forall|id: u64| #[trigger]
            owns(env, r, h, PageRef::Committed(id)) ==> !gone.contains(id),
    ensures
        h > 0,
        is_tree(mid, links[i].page, (h - 1) as nat),
        flat(mid, links[i].page, (h - 1) as nat).len() > 0,
        keyed(mid, links, (h - 1) as nat, 0),
        forall|id: u64| #[trigger]
            owns(mid, links[i].page, (h - 1) as nat, PageRef::Committed(id))
                ==> !gone_mid.contains(id),
        snug(env, r, h) ==> snug(mid, links[i].page, (h - 1) as nat),
        forall|hand: Set<u64>| #[trigger]
            near_below(env, r, h, hand) ==> near_below(mid, links[i].page, (h - 1) as nat, hand),
{
    reveal(opened_at);
    let below = (h - 1) as nat;
    let child = links[i].page;
    lemma_opened_descend(env, r, h, links, key, i);
    lemma_opened_children(env, mid, gone, gone_mid, r, h, slot, links);
    lemma_run_sorted(mid, links, below, 0);
    lemma_run_child(mid, links, below, i);
    assert forall|p: PageRef| #[trigger] owns(mid, child, below, p) implies run_owns(
        mid,
        links,
        below,
        p,
    ) by {}
    assert forall|id: u64| #[trigger] owns(mid, child, below, PageRef::Committed(id)) implies
        !gone_mid.contains(id) by {
        assert(run_owns(mid, links, below, PageRef::Committed(id)));
        assert(owns(env, r, h, PageRef::Committed(id)));
    }
    if snug(env, r, h) {
        assert forall|s: usize| #[trigger] owns(mid, child, below, PageRef::Dirty(s)) implies
            node_size(node_at(mid, PageRef::Dirty(s))->0) <= PAGE_END by {
            assert(run_owns(mid, links, below, PageRef::Dirty(s)));
        }
    }
    assert forall|hand: Set<u64>| #[trigger] near_below(env, r, h, hand) implies near_below(
        mid,
        child,
        below,
        hand,
    ) by {
        assert forall|id: u64| #[trigger] owns(mid, child, below, PageRef::Committed(id)) implies hand.contains(id) by {
            assert(run_owns(mid, links, below, PageRef::Committed(id)));
            assert(owns(env, r, h, PageRef::Committed(id)));
        }
    }
}

/// The children that a mutation leaves, under the first key of the first.
pub open spec fn run_of(first_key: Seq<u8>, mutation: Mutation) -> Seq<Link> {
    seq![Link { key: first_key, page: mutation.page }] + links_of(mutation.right@)
}

/// Puts what a mutation leaves in the place of one child.
fn adopt(children: Vec<Child>, index: usize, first_key: Vec<u8>, mutation: Mutation) -> (grown: Vec<
    Child,
>)
    requires
        index < children@.len(),
        keys_fit(links_of(children@)),
        first_key@.len() <= MAX_KEY_SIZE,
        mutation.orderly(),
    ensures
        links_of(grown@) == links_of(children@).take(index as int) + run_of(first_key@, mutation)
            + links_of(children@).skip(index + 1),
        keys_fit(links_of(grown@)),
        grown@.len() > 0,
{
    let ghost links = links_of(children@);
    let ghost run = run_of(first_key@, mutation);
    let mut grown = children;
    assert(grown@.len() == grown.len());
    grown.set(index, Child { first_key, page: mutation.page });
    let mut tail = grown.split_off(index + 1);
    let mut right = mutation.right;
    grown.append(&mut right);
    grown.append(&mut tail);
    assert(grown@ =~= children@.take(index as int).push(
        Child { first_key, page: mutation.page },
    ) + mutation.right@ + children@.skip(index + 1));
    let ghost whole = links.take(index as int) + run + links.skip(index + 1);
    proof {
        assert(links_of(grown@) =~= whole);
        assert forall|k: int| 0 <= k < whole.len() implies (#[trigger] whole[k]).key.len()
            <= MAX_KEY_SIZE by {
            if k < index {
                assert(whole[k] == links[k]);
            } else if k < index + run.len() {
                assert(whole[k] == run[k - index]);
            } else {
                assert(whole[k] == links[k - run.len() + 1]);
            }
        }
    }
    grown
}

/// Whether the entries before a position and those behind it take up no more than a leaf of
/// some size each.
pub open spec fn apart_fit(entries: Seq<Entry>, at: int, size: nat) -> bool {
    &&& 0 <= at < entries.len()
    &&& leaf_size(entries.take(at)) <= size
    &&& leaf_size(entries.skip(at + 1)) <= size
}

/// Stores a value under a key among entries in key order, and finds its position.
fn store_entry(leaf: Vec<LeafEntry>, key: &[u8], value: StoredValue) -> (stored: (
    Vec<LeafEntry>,
    usize,
))
    requires
        entries_fit(entries_of(leaf@)),
        key@.len() <= MAX_KEY_SIZE,
        value_fits(value@),
    ensures
        entries_fit(entries_of(stored.0@)),
        leaf_size(entries_of(stored.0@)) <= leaf_size(entries_of(leaf@)) + SLOT_SIZE + MAX_KEY_SIZE
            + INLINE_VALUE_LIMIT,
        sorted_entries(entries_of(leaf@)) ==> upserts(
            entries_of(leaf@),
            entries_of(stored.0@),
            key@,
            value@,
        ),
        apart_fit(entries_of(stored.0@), stored.1 as int, leaf_size(entries_of(leaf@))),
        entries_of(stored.0@)[stored.1 as int].key == key@,
{
    let mut entries = leaf;
    let ghost before = entries_of(leaf@);
    let ghost stored = value@;
    let ghost entry = Entry { key: key@, value: stored };
    let ghost mut at: int = 0;
    let position: usize;
    match entry_index(entries.as_slice(), key) {
        Ok(index) => {
            position = index;
            let kept = copy_bytes(&entries[index].key);
            entries.set(index, LeafEntry { key: kept, value });
            proof {
                at = index as int;
                assert(entries_of(entries@) =~= before.update(at, entry));
                assert(before[at].key == key@);
                assert(upserts_at(before, entries_of(entries@), key@, stored, at));
            }
        },
        Err(index) => {
            position = index;
            entries.insert(index, LeafEntry { key: vstd::slice::slice_to_vec(key), value });
            proof {
                at = index as int;
                assert(entries_of(entries@) =~= before.insert(at, entry));
                if sorted_entries(before) {
                    assert(upserts_at(before, entries_of(entries@), key@, stored, at));
                }
            }
        },
    }
    proof {
        let after = entries_of(entries@);
        assert forall|k: int| 0 <= k < after.len() implies crate::node::entry_fits(
            #[trigger] after[k],
        ) by {
            if k < at || (k > at && after.len() == before.len()) {
                assert(after[k] == before[k]);
            } else if k > at {
                assert(after[k] == before[k - 1]);
            }
        }
        lemma_added_size(before, after, entry, at);
        let rest = if after.len() == before.len() {
            before.skip(at + 1)
        } else {
            before.skip(at)
        };
        assert(after.take(at) =~= before.take(at));
        assert(after.skip(at + 1) =~= rest);
        assert(before =~= before.take(at) + before.skip(at));
        lemma_payload_add(before.take(at), before.skip(at));
        if after.len() == before.len() {
            assert(before =~= before.take(at + 1) + rest);
            lemma_payload_add(before.take(at + 1), rest);
        }
    }
    (entries, position)
}

/// A split in two.
fn mutation_of(slot: usize, separator: Vec<u8>, right: PageRef) -> (mutation: Mutation)
    requires
        separator@.len() <= MAX_KEY_SIZE,
        right is Dirty,
    ensures
        mutation.page == PageRef::Dirty(slot),
        links_of(mutation.right@) == seq![Link { key: separator@, page: right }],
        mutation.orderly(),
{
    let mut list: Vec<Child> = Vec::new();
    list.push(Child { first_key: separator, page: right });
    assert(links_of(list@) =~= seq![Link { key: separator@, page: right }]);
    Mutation { page: PageRef::Dirty(slot), right: list }
}

impl MutableTree {
    /// Splits a leaf that no two pages hold in three, with one entry between the others.
    #[verifier::rlimit(40)]
    #[verifier::spinoff_prover]
    fn insert_alone(
        &mut self,
        slot: usize,
        leaf: Vec<LeafEntry>,
        at: usize,
        Ghost(pages): Ghost<Pages>,
        Ghost(env): Ghost<Env>,
        Ghost(gone): Ghost<Set<u64>>,
        Ghost(page): Ghost<PageRef>,
        Ghost(key): Ghost<Seq<u8>>,
        Ghost(value): Ghost<Stored>,
        Ghost(good): Ghost<bool>,
    ) -> (result: Result<Mutation>)
        requires
            old(self).inv(),
            slot < old(self).dirty@.len(),
            entries_fit(entries_of(leaf@)),
            PAGE_END < leaf_size(entries_of(leaf@)),
            apart_fit(entries_of(leaf@), at as int, PAGE_END as nat),
            forall|split: int| !#[trigger] leaf_split_fits(entries_of(leaf@), split),
            entries_of(leaf@)[at as int].key == key,
            !(value is Overflow),
            good ==> is_tree(env, page, 0) && opened_at(
                env,
                old(self).env(pages),
                gone,
                old(self).retired@,
                page,
                slot,
            ) && upserts(flat(env, page, 0), entries_of(leaf@), key, value) && node_at(
                env,
                page,
            ) matches Some(Node::Leaf(_)),
        ensures
            match result {
                Ok(mutation) => {
                    &&& final(self).inv()
                    &&& same_but_opened(*old(self), *final(self))
                    &&& final(self).dirty@.len() >= old(self).dirty@.len()
                    &&& mutation.orderly()
                    &&& good ==> inserted(
                        env,
                        final(self).env(pages),
                        gone,
                        final(self).retired@,
                        page,
                        0,
                        shoots(final(self).env(pages), mutation, 0),
                        key,
                        value,
                    )
                    &&& good ==> shared_leaf(
                        entries_of(leaf@),
                        key,
                        nodes_at(
                            final(self).env(pages),
                            shoots(final(self).env(pages), mutation, 0),
                        ),
                    )
                },
                Err(error) => error is Corrupt && !good,
            },
    {
        let ghost mid = self.env(pages);
        let ghost gone_mid = self.retired@;
        let ghost after = entries_of(leaf@);
        let mut entries = leaf;
        proof {
            lemma_alone(after, at as int);
            assert(entries@.len() == entries.len());
        }
        let right_entries = entries.split_off(at + 1);
        let middle_entries = entries.split_off(at);
        proof {
            assert(entries_of(entries@) =~= after.take(at as int));
            assert(entries_of(middle_entries@) =~= after.skip(at as int).take(1));
            assert(entries_of(right_entries@) =~= after.skip(at as int).skip(1));
            assert(entries_of(middle_entries@)[0] == middle_entries@[0]@);
            assert(entries_of(right_entries@)[0] == right_entries@[0]@);
            assert(entry_fits(after[at as int]) && entry_fits(after[at + 1]));
            assert(after.skip(at as int).skip(1) =~= after.skip(at + 1));
            assert forall|k: int| 0 <= k < after.skip(at + 1).len() implies entry_fits(
                #[trigger] after.skip(at + 1)[k],
            ) by {
                assert(entry_fits(after[at + 1 + k]));
            }
            assert forall|k: int| 0 <= k < at implies entry_fits(#[trigger] after.take(at as int)[k]) by {
                assert(entry_fits(after[k]));
            }
        }
        let middle_key = copy_bytes(&middle_entries[0].key);
        let right_key = copy_bytes(&right_entries[0].key);
        self.put_dirty(slot, MutableNode::Leaf(entries))?;
        let middle = self.new_dirty(MutableNode::Leaf(middle_entries));
        let right = self.new_dirty(MutableNode::Leaf(right_entries));
        let mut list: Vec<Child> = Vec::new();
        list.push(Child { first_key: middle_key, page: middle });
        list.push(Child { first_key: right_key, page: right });
        let ghost pair = seq![
            Link { key: after[at as int].key, page: middle },
            Link { key: after[at + 1].key, page: right },
        ];
        assert(links_of(list@) =~= pair);
        let mutation = Mutation { page: PageRef::Dirty(slot), right: list };
        proof {
            reveal(opened_at);
            if good {
                let other = self.env(pages);
                assert(other.dirty.take(middle->Dirty_0 as int) =~= mid.dirty.update(
                    slot as int,
                    Some(Node::Leaf(after.take(at as int))),
                ));
                lemma_leaf_split_three(
                    env,
                    other,
                    gone,
                    gone_mid,
                    page,
                    slot,
                    middle->Dirty_0,
                    right->Dirty_0,
                    after,
                    at as int,
                    key,
                    value,
                );
                assert(shoots(other, mutation, 0) =~= seq![
                    Link { key: after[0].key, page: PageRef::Dirty(slot) },
                    pair[0],
                    pair[1],
                ]);
                assert(after[at as int].key == key);
                assert(nodes_at(other, shoots(other, mutation, 0)) =~= seq![
                    Some(Node::Leaf(after.take(at as int))),
                    Some(Node::Leaf(after.skip(at as int).take(1))),
                    Some(Node::Leaf(after.skip(at as int).skip(1))),
                ]);
            }
        }
        Ok(mutation)
    }

    /// Stores an entry in a leaf that was taken out of its slot.
    fn insert_entry(
        &mut self,
        slot: usize,
        leaf: Vec<LeafEntry>,
        key: &[u8],
        value: StoredValue,
        Ghost(pages): Ghost<Pages>,
        Ghost(env): Ghost<Env>,
        Ghost(gone): Ghost<Set<u64>>,
        Ghost(page): Ghost<PageRef>,
        Ghost(good): Ghost<bool>,
    ) -> (result: Result<Mutation>)
        requires
            old(self).inv(),
            slot < old(self).dirty@.len(),
            sturdy(Node::Leaf(entries_of(leaf@))),
            key@.len() <= MAX_KEY_SIZE,
            value_fits(value@),
            !(value@ is Overflow),
            good ==> is_tree(env, page, 0) && opened_at(
                env,
                old(self).env(pages),
                gone,
                old(self).retired@,
                page,
                slot,
            ) && flat(env, page, 0) == entries_of(leaf@) && node_at(env, page) matches Some(
                Node::Leaf(_),
            ),
        ensures
            match result {
                Ok(mutation) => {
                    &&& final(self).inv()
                    &&& same_but_opened(*old(self), *final(self))
                    &&& final(self).dirty@.len() >= old(self).dirty@.len()
                    &&& mutation.orderly()
                    &&& good ==> inserted(
                        env,
                        final(self).env(pages),
                        gone,
                        final(self).retired@,
                        page,
                        0,
                        shoots(final(self).env(pages), mutation, 0),
                        key@,
                        value@,
                    )
                    &&& good ==> shared_out(
                        env,
                        final(self).env(pages),
                        page,
                        0,
                        shoots(final(self).env(pages), mutation, 0),
                        key@,
                        value@,
                    )
                },
                Err(error) => error is Corrupt && !good,
            },
    {
        let ghost mid = self.env(pages);
        let ghost gone_mid = self.retired@;
        let ghost before = entries_of(leaf@);
        let ghost stored = value@;
        let (mut entries, at) = store_entry(leaf, key, value);
        let ghost after = entries_of(entries@);
        if leaf_encoded_size(entries.as_slice())? <= PAGE_END {
            self.put_dirty(slot, MutableNode::Leaf(entries))?;
            let mutation = Mutation { page: PageRef::Dirty(slot), right: Vec::new() };
            proof {
                reveal(opened_at);
                if good {
                    let other = self.env(pages);
                    lemma_leaf_inserted(
                        env,
                        other,
                        gone,
                        gone_mid,
                        page,
                        slot,
                        after,
                        key@,
                        stored,
                    );
                    assert(shoots(other, mutation, 0) =~= seq![
                        Link { key: after[0].key, page: PageRef::Dirty(slot) },
                    ]);
                    assert(nodes_at(other, shoots(other, mutation, 0)) =~= seq![
                        Some(Node::Leaf(after)),
                    ]);
                    lemma_leaf_shared(env, other, page, mutation, before, after, key@, stored);
                }
            }
            return Ok(mutation);
        }
        let split = match best_leaf_split(entries.as_slice()) {
            Ok(split) => split,
            Err(_) => {
                let result = self.insert_alone(
                    slot,
                    entries,
                    at,
                    Ghost(pages),
                    Ghost(env),
                    Ghost(gone),
                    Ghost(page),
                    Ghost(key@),
                    Ghost(stored),
                    Ghost(good),
                );
                proof {
                    if result is Ok {
                        let mutation = result->Ok_0;
                        if good {
                            let other = self.env(pages);
                            lemma_leaf_shared(
                                env,
                                other,
                                page,
                                mutation,
                                before,
                                after,
                                key@,
                                stored,
                            );
                        }
                    }
                }
                return result;
            },
        };
        let right_entries = entries.split_off(split);
        proof {
            assert(entries_of(entries@) =~= after.take(split as int));
            assert(entries_of(right_entries@) =~= after.skip(split as int));
            assert(entries_of(right_entries@)[0] == right_entries@[0]@);
            assert(crate::node::entry_fits(after[split as int]));
        }
        let separator = copy_bytes(&right_entries[0].key);
        self.put_dirty(slot, MutableNode::Leaf(entries))?;
        let right = self.new_dirty(MutableNode::Leaf(right_entries));
        let mutation = mutation_of(slot, separator, right);
        proof {
            reveal(opened_at);
            if good {
                let other = self.env(pages);
                let right_slot = right->Dirty_0;
                assert(other.dirty.drop_last() =~= mid.dirty.update(
                    slot as int,
                    Some(Node::Leaf(after.take(split as int))),
                ));
                lemma_leaf_split(
                    env,
                    other,
                    gone,
                    gone_mid,
                    page,
                    slot,
                    right_slot,
                    after,
                    split as int,
                    key@,
                    stored,
                );
                assert(shoots(other, mutation, 0) =~= seq![
                    Link { key: after[0].key, page: PageRef::Dirty(slot) },
                    Link { key: after[split as int].key, page: right },
                ]);
                assert(nodes_at(other, shoots(other, mutation, 0)) =~= seq![
                    Some(Node::Leaf(after.take(split as int))),
                    Some(Node::Leaf(after.skip(split as int))),
                ]);
                assert(best_leaf_split_at(after, split as int));
                lemma_leaf_shared(env, other, page, mutation, before, after, key@, stored);
            }
        }
        Ok(mutation)
    }

    /// Puts a node back into its slot after an insertion below it, and splits it if it
    /// has become too large.
    fn replace_children(
        &mut self,
        slot: usize,
        grown_children: Vec<Child>,
        Ghost(pages): Ghost<Pages>,
        Ghost(env): Ghost<Env>,
        Ghost(gone): Ghost<Set<u64>>,
        Ghost(page): Ghost<PageRef>,
        Ghost(h): Ghost<nat>,
        Ghost(key): Ghost<Seq<u8>>,
        Ghost(value): Ghost<Stored>,
        Ghost(good): Ghost<bool>,
    ) -> (result: Result<Mutation>)
        requires
            old(self).inv(),
            slot < old(self).dirty@.len(),
            grown_children@.len() > 0,
            keys_fit(links_of(grown_children@)),
            good ==> grown_from(
                env,
                old(self).env(pages),
                gone,
                old(self).retired@,
                page,
                h,
                slot,
                links_of(grown_children@),
                key,
                value,
            ),
        ensures
            match result {
                Ok(mutation) => {
                    &&& final(self).inv()
                    &&& same_but_opened(*old(self), *final(self))
                    &&& final(self).dirty@.len() >= old(self).dirty@.len()
                    &&& mutation.orderly()
                    &&& good ==> inserted(
                        env,
                        final(self).env(pages),
                        gone,
                        final(self).retired@,
                        page,
                        h,
                        shoots(final(self).env(pages), mutation, h),
                        key,
                        value,
                    )
                    &&& good ==> shared_internal(
                        links_of(grown_children@),
                        nodes_at(
                            final(self).env(pages),
                            shoots(final(self).env(pages), mutation, h),
                        ),
                    )
                    &&& good ==> forall|p: PageRef| #[trigger]
                        run_owns(
                            old(self).env(pages),
                            links_of(grown_children@),
                            (h - 1) as nat,
                            p,
                        ) ==> node_at(final(self).env(pages), p) == node_at(
                            old(self).env(pages),
                            p,
                        )
                },
                Err(error) => error is Corrupt && !(good && internal_size(
                    links_of(grown_children@),
                ) <= usize::MAX && (internal_size(links_of(grown_children@)) <= PAGE_END
                    || can_split(Node::Internal(links_of(grown_children@))))),
            },
    {
        let mut children = grown_children;
        let ghost grown = links_of(children@);
        let ghost later = self.env(pages);
        let ghost gone_after = self.retired@;
        let size = internal_encoded_size(children.as_slice())?;
        if size <= PAGE_END {
            self.put_dirty(slot, MutableNode::Internal(children))?;
            let mutation = Mutation { page: PageRef::Dirty(slot), right: Vec::new() };
            proof {
                if good {
                    lemma_internal_inserted(
                        env,
                        later,
                        self.env(pages),
                        gone,
                        gone_after,
                        page,
                        h,
                        slot,
                        grown,
                        key,
                        value,
                    );
                    assert(shoots(self.env(pages), mutation, h) =~= seq![
                        Link { key: grown[0].key, page: PageRef::Dirty(slot) },
                    ]);
                    assert(nodes_at(self.env(pages), shoots(self.env(pages), mutation, h)) =~= seq![
                        Some(Node::Internal(grown)),
                    ]);
                    lemma_grown_apart(
                        env,
                        later,
                        self.env(pages),
                        gone,
                        gone_after,
                        page,
                        h,
                        slot,
                        grown,
                        key,
                        value,
                    );
                }
            }
            return Ok(mutation);
        }
        let split = best_internal_split(children.as_slice())?;
        let right_children = children.split_off(split);
        proof {
            assert(links_of(children@) =~= grown.take(split as int));
            assert(links_of(right_children@) =~= grown.skip(split as int));
            assert(links_of(right_children@)[0] == right_children@[0]@);
            lemma_keys_fit_cut(grown, split as int);
        }
        let separator = copy_bytes(&right_children[0].first_key);
        self.put_dirty(slot, MutableNode::Internal(children))?;
        let right = self.new_dirty(MutableNode::Internal(right_children));
        let mutation = mutation_of(slot, separator, right);
        proof {
            if good {
                lemma_internal_split(
                    env,
                    later,
                    self.env(pages),
                    gone,
                    gone_after,
                    page,
                    h,
                    slot,
                    right->Dirty_0,
                    grown,
                    split as int,
                    key,
                    value,
                );
                assert(shoots(self.env(pages), mutation, h) =~= seq![
                    Link { key: grown[0].key, page: PageRef::Dirty(slot) },
                    Link { key: grown[split as int].key, page: right },
                ]);
                assert(best_internal_split_at(grown, split as int));
                assert(nodes_at(self.env(pages), shoots(self.env(pages), mutation, h)) =~= seq![
                    Some(Node::Internal(grown.take(split as int))),
                    Some(Node::Internal(grown.skip(split as int))),
                ]);
                lemma_grown_apart(
                    env,
                    later,
                    self.env(pages),
                    gone,
                    gone_after,
                    page,
                    h,
                    slot,
                    grown,
                    key,
                    value,
                );
            }
        }
        Ok(mutation)
    }

    /// Takes a node that is about to change out of its slot, after copying it into
    /// memory if need be.
    pub(crate) fn open_node<R: PageReader>(
        &mut self,
        reader: &mut R,
        page: PageRef,
        depth: usize,
        Ghost(h): Ghost<nat>,
    ) -> (result: Result<(usize, MutableNode)>)
        requires
            old(reader).usable(),
            old(self).inv(),
            depth <= MAX_DEPTH,
        ensures
            final(reader).usable(),
            final(reader).origin() == old(reader).origin(),
            old(reader).failures() <= final(reader).failures(),
            hoards(*old(reader), *final(reader)),
            honest(
                result,
                old(reader).failures(),
                final(reader).failures(),
                final(reader).reported(),
                incomplete(old(reader).pages(), old(self).page_count),
            ),
            final(reader).pages() == old(reader).pages(),
            final(self).inv(),
            same_but_opened(*old(self), *final(self)),
            final(self).dirty@.len() >= old(self).dirty@.len(),
            ({
                let pages = old(reader).pages();
                let env = old(self).env(pages);
                let good = is_tree(env, page, h) && old(self).apart(pages, page, h);
                match result {
                    Ok((slot, node)) => {
                        &&& slot < final(self).dirty@.len()
                        &&& sturdy(node@)
                        &&& good ==> {
                            &&& opened_at(
                                env,
                                final(self).env(pages),
                                old(self).retired@,
                                final(self).retired@,
                                page,
                                slot,
                            )
                            &&& node@ == opened(env, page, h)
                            &&& snug(env, page, h) ==> node_size(node@) <= PAGE_END
                        }
                    },
                    Err(error) => fails_for(
                        error,
                        !(good && depth + h < MAX_DEPTH),
                        final(reader).failures() > old(reader).failures(),
                    ),
                }
            }),
            steady(
                near_below(
                    old(self).env(old(reader).pages()),
                    page,
                    h,
                    old(reader).at_hand(),
                ),
                old(reader).at_hand(),
                final(reader).at_hand(),
                result,
            ),
    {
        proof {
            reveal(subtree);
        }
        let ghost pages = reader.pages();
        let ghost env = self.env(pages);
        let ghost good = is_tree(env, page, h) && self.apart(pages, page, h);
        proof {
            lemma_owns_root(env, page, h);
            if good && depth + h < MAX_DEPTH {
                assert(sits(env, page, depth as nat));
            }
        }
        let slot = self.ensure_dirty(reader, page, depth)?;
        proof {
            assert(arena(self.dirty@).len() == self.dirty@.len());
            if good {
                lemma_owned_slots(env, page, h, page);
                assert(arena(self.dirty@)[slot as int] is Some);
            }
        }
        let node = self.take_dirty(slot)?;
        proof {
            assert(arena(self.dirty@).len() == self.dirty@.len());
            reveal(opened_at);
            if good {
                assert(opened_at(
                    env,
                    self.env(pages),
                    old(self).retired@,
                    self.retired@,
                    page,
                    slot,
                ));
            }
        }
        Ok((slot, node))
    }

    /// Stores an entry below one of the children of a node that was taken out of its
    /// slot.
    fn insert_below<R: PageReader>(
        &mut self,
        reader: &mut R,
        slot: usize,
        children: Vec<Child>,
        key: &[u8],
        value: StoredValue,
        depth: usize,
        Ghost(env): Ghost<Env>,
        Ghost(gone): Ghost<Set<u64>>,
        Ghost(page): Ghost<PageRef>,
        Ghost(h): Ghost<nat>,
        Ghost(good): Ghost<bool>,
    ) -> (result: Result<Mutation>)
        requires
            old(reader).usable(),
            old(self).inv(),
            slot < old(self).dirty@.len(),
            depth < MAX_DEPTH,
            key@.len() <= MAX_KEY_SIZE,
            value_fits(value@),
            !(value@ is Overflow),
            children@.len() > 0,
            keys_fit(links_of(children@)),
            good ==> {
                &&& is_tree(env, page, h)
                &&& forall|id: u64| #[trigger]
                    owns(env, page, h, PageRef::Committed(id)) ==> !gone.contains(id)
                &&& opened_at(
                    env,
                    old(self).env(old(reader).pages()),
                    gone,
                    old(self).retired@,
                    page,
                    slot,
                )
                &&& opened(env, page, h) == Node::Internal(links_of(children@))
                &&& snug(env, page, h) ==> internal_size(links_of(children@)) <= PAGE_END
            },
        ensures
            final(reader).usable(),
            final(reader).origin() == old(reader).origin(),
            old(reader).failures() <= final(reader).failures(),
            hoards(*old(reader), *final(reader)),
            honest(
                result,
                old(reader).failures(),
                final(reader).failures(),
                final(reader).reported(),
                incomplete(old(reader).pages(), old(self).page_count),
            ),
            final(reader).pages() == old(reader).pages(),
            match result {
                Ok(mutation) => {
                    &&& final(self).inv()
                    &&& same_but_opened(*old(self), *final(self))
                    &&& final(self).dirty@.len() >= old(self).dirty@.len()
                    &&& mutation.orderly()
                    &&& good ==> inserted(
                        env,
                        final(self).env(old(reader).pages()),
                        gone,
                        final(self).retired@,
                        page,
                        h,
                        shoots(final(self).env(old(reader).pages()), mutation, h),
                        key@,
                        value@,
                    )
                    &&& good ==> shared_out(
                        env,
                        final(self).env(old(reader).pages()),
                        page,
                        h,
                        shoots(final(self).env(old(reader).pages()), mutation, h),
                        key@,
                        value@,
                    )
                },
                Err(error) => fails_for(
                    error,
                    !(good && depth + h < MAX_DEPTH && snug(env, page, h)),
                    final(reader).failures() > old(reader).failures(),
                ),
            },
            good ==> steady(
                near_below(env, page, h, old(reader).at_hand()),
                old(reader).at_hand(),
                final(reader).at_hand(),
                result,
            ),
        decreases MAX_DEPTH - depth, 0nat,
    {
        let ghost pages = reader.pages();
        let ghost stored = value@;
        let ghost mid = self.env(pages);
        let ghost gone_mid = self.retired@;
        let ghost links = links_of(children@);
        let index = child_index(children.as_slice(), key);
        let ghost below = (h - 1) as nat;
        proof {
            assert(links[index as int] == children@[index as int]@);
            assert(children@.len() == children.len());
            if good {
                lemma_opened_descend(env, page, h, links, key@, index as int);
                lemma_child_ready(
                    env,
                    mid,
                    gone,
                    gone_mid,
                    page,
                    h,
                    slot,
                    links,
                    index as int,
                    key@,
                );
            }
        }
        let child_page = children[index].page;
        let mutation = self.insert(
            reader,
            child_page,
            key,
            value,
            depth + 1,
            Ghost(below),
        )?;
        let ghost later = self.env(pages);
        let ghost run = shoots(later, mutation, below);
        proof {
            if good {
                lemma_inserted_run(
                    mid,
                    later,
                    gone_mid,
                    self.retired@,
                    child_page,
                    below,
                    run,
                    key@,
                    stored,
                );
                if depth + h < MAX_DEPTH {
                    assert(sits(later, mutation.page, (depth + 1) as nat));
                }
            }
        }
        let first_key = self.first_key(reader, mutation.page, depth + 1)?;
        let ghost grown = links.take(index as int) + run_of(first_key@, mutation)
            + links.skip(index + 1);
        proof {
            if good {
                assert(run_of(first_key@, mutation) =~= run);
                lemma_grown(
                    env,
                    mid,
                    later,
                    gone,
                    gone_mid,
                    self.retired@,
                    page,
                    h,
                    slot,
                    links,
                    index as int,
                    run,
                    key@,
                    stored,
                );
                if snug(env, page, h) {
                    lemma_grown_bound(
                        mid,
                        later,
                        gone_mid,
                        self.retired@,
                        below,
                        links,
                        index as int,
                        run,
                        key@,
                        stored,
                    );
                }
            }
        }
        let children = adopt(children, index, first_key, mutation);
        let result = self.replace_children(
            slot,
            children,
            Ghost(pages),
            Ghost(env),
            Ghost(gone),
            Ghost(page),
            Ghost(h),
            Ghost(key@),
            Ghost(stored),
            Ghost(good),
        );
        proof {
            if result is Ok {
                let whole = result->Ok_0;
                if good {
                    lemma_shoots_dirty(self.env(pages), whole, h);
                    lemma_shared_below(
                        env,
                        mid,
                        later,
                        self.env(pages),
                        gone,
                        gone_mid,
                        page,
                        h,
                        slot,
                        links,
                        index as int,
                        run,
                        shoots(self.env(pages), whole, h),
                        key@,
                        stored,
                    );
                }
            }
        }
        result
    }

    /// Stores an entry below a node.
    fn insert<R: PageReader>(
        &mut self,
        reader: &mut R,
        page: PageRef,
        key: &[u8],
        value: StoredValue,
        depth: usize,
        Ghost(h): Ghost<nat>,
    ) -> (result: Result<Mutation>)
        requires
            old(reader).usable(),
            old(self).inv(),
            depth <= MAX_DEPTH,
            key@.len() <= MAX_KEY_SIZE,
            value_fits(value@),
            !(value@ is Overflow),
        ensures
            final(reader).usable(),
            final(reader).origin() == old(reader).origin(),
            old(reader).failures() <= final(reader).failures(),
            hoards(*old(reader), *final(reader)),
            honest(
                result,
                old(reader).failures(),
                final(reader).failures(),
                final(reader).reported(),
                incomplete(old(reader).pages(), old(self).page_count),
            ),
            final(reader).pages() == old(reader).pages(),
            ({
                let pages = old(reader).pages();
                let env = old(self).env(pages);
                let good = is_tree(env, page, h) && old(self).apart(pages, page, h);
                match result {
                    Ok(mutation) => {
                        &&& final(self).inv()
                        &&& same_but_opened(*old(self), *final(self))
                        &&& final(self).dirty@.len() >= old(self).dirty@.len()
                        &&& mutation.orderly()
                        &&& good ==> inserted(
                            env,
                            final(self).env(pages),
                            old(self).retired@,
                            final(self).retired@,
                            page,
                            h,
                            shoots(final(self).env(pages), mutation, h),
                            key@,
                            value@,
                        )
                        &&& good ==> shared_out(
                            env,
                            final(self).env(pages),
                            page,
                            h,
                            shoots(final(self).env(pages), mutation, h),
                            key@,
                            value@,
                        )
                    },
                    Err(error) => fails_for(
                        error,
                        !(good && depth + h < MAX_DEPTH && snug(env, page, h)),
                        final(reader).failures() > old(reader).failures(),
                    ),
                }
            }),
            ({
                let env = old(self).env(old(reader).pages());
                is_tree(env, page, h) && old(self).apart(old(reader).pages(), page, h) ==> steady(
                    near_below(env, page, h, old(reader).at_hand()),
                    old(reader).at_hand(),
                    final(reader).at_hand(),
                    result,
                )
            }),
        decreases MAX_DEPTH - depth, 1nat,
    {
        proof {
            reveal(subtree);
        }
        if depth >= MAX_DEPTH {
            return Err(corrupt("tree exceeds maximum depth"));
        }
        let ghost pages = reader.pages();
        let ghost env = self.env(pages);
        let ghost gone = self.retired@;
        let ghost good = is_tree(env, page, h) && self.apart(pages, page, h);
        let ghost stored = value@;
        let (slot, node) = self.open_node(reader, page, depth, Ghost(h))?;
        let ghost mid = self.env(pages);
        let ghost gone_mid = self.retired@;
        match node {
            MutableNode::Leaf(entries) => {
                self.insert_entry(
                    slot,
                    entries,
                    key,
                    value,
                    Ghost(pages),
                    Ghost(env),
                    Ghost(gone),
                    Ghost(page),
                    Ghost(good),
                )
            },
            MutableNode::Internal(children) => {
                self.insert_below(
                    reader,
                    slot,
                    children,
                    key,
                    value,
                    depth,
                    Ghost(env),
                    Ghost(gone),
                    Ghost(page),
                    Ghost(h),
                    Ghost(good),
                )
            },
        }
    }
}

/// A leaf is shared out as its entries are.
proof fn lemma_leaf_shared(
    env: Env,
    other: Env,
    r: PageRef,
    mutation: Mutation,
    before: Seq<Entry>,
    after: Seq<Entry>,
    key: Seq<u8>,
    value: Stored,
)
    requires
        is_tree(env, r, 0),
        node_at(env, r) matches Some(Node::Leaf(_)),
        flat(env, r, 0) == before,
        upserts(before, after, key, value),
        shared_leaf(after, key, nodes_at(other, shoots(other, mutation, 0))),
        mutation.orderly(),
    ensures
        shared_out(env, other, r, 0, shoots(other, mutation, 0), key, value),
{
    reveal(shared_out);
    reveal(subtree);
    lemma_shoots_dirty(other, mutation, 0);
}

/// What an insertion leaves is in memory.
proof fn lemma_shoots_dirty(env: Env, mutation: Mutation, h: nat)
    requires
        mutation.orderly(),
    ensures
        all_dirty(shoots(env, mutation, h)),
{
    let run = shoots(env, mutation, h);
    assert forall|k: int| 0 <= k < run.len() implies (#[trigger] run[k]).page is Dirty by {
        if k > 0 {
            assert(run[k] == links_of(mutation.right@)[k - 1]);
        }
    }
}

/// Putting a node back leaves what lies below it as it is.
proof fn lemma_grown_apart(
    env: Env,
    later: Env,
    other: Env,
    gone: Set<u64>,
    gone_after: Set<u64>,
    r: PageRef,
    h: nat,
    slot: usize,
    grown: Seq<Link>,
    key: Seq<u8>,
    value: Stored,
)
    requires
        grown_from(env, later, gone, gone_after, r, h, slot, grown, key, value),
        other.pages == later.pages,
        other.count == later.count,
        other.dirty.len() >= later.dirty.len(),
        forall|s: int|
            0 <= s < later.dirty.len() && s != slot ==> #[trigger] other.dirty[s]
                == later.dirty[s],
    ensures
        forall|p: PageRef| #[trigger]
            run_owns(later, grown, (h - 1) as nat, p) ==> node_at(other, p) == node_at(later, p),
{
    reveal(grown_from);
    let below = (h - 1) as nat;
    assert forall|p: PageRef| #[trigger] run_owns(later, grown, below, p) implies node_at(other, p)
        == node_at(later, p) by {
        if let PageRef::Dirty(s) = p {
            lemma_run_slots(later, grown, below, p);
            assert(other.dirty[s as int] == later.dirty[s as int]);
        }
    }
}

/// A node is shared out once a child was and its own children are.
proof fn lemma_shared_below(
    env: Env,
    mid: Env,
    later: Env,
    other: Env,
    gone: Set<u64>,
    gone_mid: Set<u64>,
    r: PageRef,
    h: nat,
    slot: usize,
    links: Seq<Link>,
    i: int,
    inner: Seq<Link>,
    run: Seq<Link>,
    key: Seq<u8>,
    value: Stored,
)
    requires
        is_tree(env, r, h),
        opened_at(env, mid, gone, gone_mid, r, slot),
        opened(env, r, h) == Node::Internal(links),
        child_at(links, key, i),
        shared_out(mid, later, links[i].page, (h - 1) as nat, inner, key, value),
        shared_internal(links.take(i) + inner + links.skip(i + 1), nodes_at(other, run)),
        all_dirty(run),
        other.pages == later.pages,
        other.count == later.count,
        forall|p: PageRef| #[trigger]
            run_owns(later, links.take(i) + inner + links.skip(i + 1), (h - 1) as nat, p)
                ==> node_at(other, p) == node_at(later, p),
    ensures
        shared_out(env, other, r, h, run, key, value),
{
    reveal(shared_out);
    let below = (h - 1) as nat;
    let child = links[i].page;
    let grown = links.take(i) + inner + links.skip(i + 1);
    lemma_opened_children(env, mid, gone, gone_mid, r, h, slot, links);
    lemma_run_child(mid, links, below, i);
    assert(env.pages == mid.pages && env.count == mid.count) by {
        reveal(opened_at);
    }
    assert forall|s: usize| #[trigger] owns(mid, child, below, PageRef::Dirty(s)) implies node_at(
        env,
        PageRef::Dirty(s),
    ) == node_at(mid, PageRef::Dirty(s)) by {
        assert(run_owns(mid, links, below, PageRef::Dirty(s)));
        assert(run_owns(env, links, below, PageRef::Dirty(s)));
    }
    assert forall|s: usize| #[trigger] run_owns(later, inner, below, PageRef::Dirty(s)) implies
        node_at(other, PageRef::Dirty(s)) == node_at(later, PageRef::Dirty(s)) by {
        let k = choose|k: int|
            0 <= k < inner.len() && owns(later, (#[trigger] inner[k]).page, below, PageRef::Dirty(s));
        assert(grown[i + k] == inner[k]);
        assert(run_owns(later, grown, below, PageRef::Dirty(s)));
    }
    lemma_shared_kept(mid, env, later, other, child, below, inner, key, value);
    assert(grafts(links, key, i, inner, nodes_at(other, run)));
}

// ---------------------------------------------------------------------------
// Whole trees
// ---------------------------------------------------------------------------

/// How a value is stored in memory.
pub open spec fn stored_form(value: Seq<u8>) -> Stored {
    if value.len() <= INLINE_VALUE_LIMIT {
        Stored::Inline(value)
    } else {
        Stored::Pending(value)
    }
}

/// The height of a tree after an insertion at its root.
pub open spec fn top_of(mutation: Mutation, h: nat) -> nat {
    if mutation.right@.len() > 0 {
        h + 1
    } else {
        h
    }
}

/// What a call of `put` did.
pub struct PutOutcome {
    /// Whether the key was new.
    pub inserted: bool,
}

/// The values of a tree can be read.
pub proof fn lemma_entry_readable(env: Env, r: PageRef, h: nat, k: int)
    requires
        subtree(env, r, h),
        0 <= k < flat(env, r, h).len(),
    ensures
        value_ok(env.pages, env.count, flat(env, r, h)[k].value),
    decreases h,
{
    reveal(subtree);
    reveal(run_ok);
    if let Some(Node::Internal(links)) = node_at(env, r) {
        let below = (h - 1) as nat;
        let at = crate::model::lemma_flat_all_index(env, links, below, k);
        lemma_run_child(env, links, below, at.0);
        lemma_entry_readable(env, links[at.0].page, below, at.1);
    } else {
        reveal(values_ok);
        let entries = flat(env, r, h);
        assert(value_ok(env.pages, env.count, entries[k].value));
    }
}

/// The pages of the value that is replaced can be left behind.
proof fn lemma_old_value_leaves(
    env: Env,
    other: Env,
    gone: Set<u64>,
    gone_after: Set<u64>,
    r: PageRef,
    h: nat,
    run: Seq<Link>,
    key: Seq<u8>,
    value: Stored,
    old_value: Stored,
)
    requires
        is_tree(env, r, h),
        forall|id: u64| #[trigger]
            owns(env, r, h, PageRef::Committed(id)) ==> !gone.contains(id),
        inserted(env, other, gone, gone_after, r, h, run, key, value),
        lookup(flat(env, r, h), key) == Some(old_value),
    ensures
        value_ok(env.pages, env.count, old_value),
        fresh_chain(value_pages(env.pages, env.count, old_value), gone_after),
{
    reveal(inserted);
    let entries = flat(env, r, h);
    let k = choose|k: int| 0 <= k < entries.len() && (#[trigger] entries[k]).key == key;
    lemma_entry_readable(env, r, h, k);
    let ids = value_pages(env.pages, env.count, old_value);
    assert forall|i: int| 0 <= i < ids.len() implies !gone_after.contains(#[trigger] ids[i]) by {
        let p = PageRef::Committed(ids[i]);
        assert(ids.contains(ids[i]));
        assert(value_owns(env, old_value, p));
        assert(old_value_owns(env, entries, key, p));
        lemma_tree_value(env, r, h, key, p);
    }
}

/// What belongs to the tree and what was left behind, once the pages of the replaced
/// value are left behind too.
proof fn lemma_put_accounts(
    env: Env,
    other: Env,
    gone: Set<u64>,
    gone_mid: Set<u64>,
    gone_after: Set<u64>,
    r: PageRef,
    h: nat,
    run: Seq<Link>,
    key: Seq<u8>,
    value: Stored,
)
    requires
        is_tree(env, r, h),
        forall|id: u64| #[trigger]
            owns(env, r, h, PageRef::Committed(id)) ==> !gone.contains(id),
        inserted(env, other, gone, gone_mid, r, h, run, key, value),
        match lookup(flat(env, r, h), key) {
            Some(old_value) => gone_after == gone_mid.union(
                value_pages(env.pages, env.count, old_value).to_set(),
            ),
            None => gone_after == gone_mid,
        },
    ensures
        forall|id: u64| #[trigger]
            run_owns(other, run, h, PageRef::Committed(id)) ==> !gone_after.contains(id),
        forall|id: u64| #[trigger]
            gone_after.contains(id) ==> gone.contains(id) || owns(env, r, h, PageRef::Committed(id)),
        forall|id: u64| #[trigger]
            owns(env, r, h, PageRef::Committed(id)) ==> run_owns(
                other,
                run,
                h,
                PageRef::Committed(id),
            ) || gone_after.contains(id),
        forall|id: u64| #[trigger] gone.contains(id) ==> gone_after.contains(id),
        forall|id: u64| #[trigger]
            run_owns(other, run, h, PageRef::Committed(id)) ==> owns(
                env,
                r,
                h,
                PageRef::Committed(id),
            ),
{
    reveal(inserted);
    let entries = flat(env, r, h);
    assert forall|id: u64| #[trigger]
        old_value_owns(env, entries, key, PageRef::Committed(id)) == (lookup(entries, key)
            matches Some(old_value) && value_pages(
            env.pages,
            env.count,
            old_value,
        ).to_set().contains(id)) by {}
    assert forall|id: u64| #[trigger] gone_after.contains(id) == (gone_mid.contains(id)
        || old_value_owns(env, entries, key, PageRef::Committed(id))) by {}
    assert forall|id: u64| #[trigger] gone_after.contains(id) implies gone.contains(id) || owns(
        env,
        r,
        h,
        PageRef::Committed(id),
    ) by {
        if old_value_owns(env, entries, key, PageRef::Committed(id)) {
            lemma_tree_value(env, r, h, key, PageRef::Committed(id));
        }
    }
}

impl MutableTree {
    /// Makes a tree of what an insertion at the root leaves.
    fn plant<R: PageReader>(
        &mut self,
        reader: &mut R,
        mutation: Mutation,
        Ghost(h): Ghost<nat>,
    ) -> (result: Result<PageRef>)
        requires
            old(reader).usable(),
            old(self).inv(),
            mutation.orderly(),
        ensures
            *final(reader) == *old(reader),
            ({
                let pages = old(reader).pages();
                let env = old(self).env(pages);
                let other = final(self).env(pages);
                let run = shoots(env, mutation, h);
                let top = top_of(mutation, h);
                let good = run_ok(env, run, h) && keyed(env, run, h, 0);
                match result {
                    Ok(root) => {
                        &&& final(self).inv()
                        &&& same_but_opened(*old(self), *final(self))
                        &&& final(self).retired == old(self).retired
                        &&& good ==> {
                            &&& subtree(other, root, top)
                            &&& flat(other, root, top) == flat_all(env, run, h)
                            &&& forall|id: u64| #[trigger]
                                owns(other, root, top, PageRef::Committed(id)) == run_owns(
                                    env,
                                    run,
                                    h,
                                    PageRef::Committed(id),
                                )
                            &&& crowned(other, root, top, run, h)
                            &&& forall|p: PageRef| #[trigger]
                                run_owns(env, run, h, p) ==> node_at(other, p) == node_at(env, p)
                            &&& snug_run(env, run, h) ==> snug(other, root, top)
                            &&& branching_run(env, run, h, true) && stays_wide(env, run)
                                ==> spreading(other, root, top)
                        }
                    },
                    Err(error) => error is Corrupt && !(good && h < MAX_DEPTH),
                }
            }),
    {
        let ghost pages = reader.pages();
        let ghost env = self.env(pages);
        let ghost run = shoots(env, mutation, h);
        let ghost good = run_ok(env, run, h) && keyed(env, run, h, 0);
        proof {
            if good {
                lemma_run_child(env, run, h, 0);
                if h < MAX_DEPTH {
                    assert(sits(env, mutation.page, 0));
                }
            }
        }
        if mutation.right.len() == 0 {
            proof {
                if good {
                    assert(run =~= seq![run[0]]);
                    lemma_run_one(env, run[0], h);
                    assert(branching_run(env, run, h, true) ==> branching(
                        env,
                        run[0].page,
                        h,
                        true,
                    ));
                    assert forall|slot: usize| snug_run(env, run, h) && #[trigger] owns(
                        env,
                        mutation.page,
                        h,
                        PageRef::Dirty(slot),
                    ) implies node_size(node_at(env, PageRef::Dirty(slot))->0) <= PAGE_END by {
                        assert(run_owns(env, run, h, PageRef::Dirty(slot)));
                    }
                }
            }
            return Ok(mutation.page);
        }
        let left_key = self.first_key(reader, mutation.page, 0)?;
        let ghost links = run_of(left_key@, mutation);
        let mut children: Vec<Child> = Vec::new();
        children.push(Child { first_key: left_key, page: mutation.page });
        let mut right = mutation.right;
        children.append(&mut right);
        assert(links_of(children@) =~= links);
        assert(keys_fit(links)) by {
            assert forall|k: int| 0 <= k < links.len() implies (
            #[trigger] links[k]).key.len() <= MAX_KEY_SIZE by {
                if k > 0 {
                    assert(links[k] == links_of(mutation.right@)[k - 1]);
                }
            }
        }
        let root = self.new_dirty(MutableNode::Internal(children));
        proof {
            if good {
                let other = self.env(pages);
                let slot = root->Dirty_0;
                assert(links =~= run);
                assert forall|s: usize| #[trigger]
                    run_owns(env, run, h, PageRef::Dirty(s)) implies node_at(
                    other,
                    PageRef::Dirty(s),
                ) == node_at(env, PageRef::Dirty(s)) by {
                    lemma_run_slots(env, run, h, PageRef::Dirty(s));
                }
                if run_owns(env, run, h, root) {
                    lemma_run_slots(env, run, h, root);
                }
                lemma_run_kept(env, other, run, h);
                assert(!run_owns(other, run, h, root));
                lemma_node_built(other, slot, run, h);
                lemma_few_size(run);
                if branching_run(env, run, h, true) {
                    lemma_branching_run_kept(env, other, run, h, true);
                    lemma_branching_built(other, root, Node::Internal(run), h + 1, true);
                }
            }
        }
        Ok(root)
    }

    /// Stores a value under a key.
    pub fn put<R: PageReader>(&mut self, reader: &mut R, key: &[u8], value: &[u8]) -> (result: Result<
        PutOutcome,
    >)
        requires
            old(reader).usable(),
            old(self).inv(),
            key@.len() <= MAX_KEY_SIZE,
            value@.len() <= MAX_VALUE_SIZE,
        ensures
            final(reader).usable(),
            final(reader).origin() == old(reader).origin(),
            old(reader).failures() <= final(reader).failures(),
            hoards(*old(reader), *final(reader)),
            honest(
                result,
                old(reader).failures(),
                final(reader).failures(),
                final(reader).reported(),
                incomplete(old(reader).pages(), old(self).page_count),
            ),
            final(reader).pages() == old(reader).pages(),
            ({
                let pages = old(reader).pages();
                let before = old(self).entries(pages);
                let stored = stored_form(value@);
                let current = lookup(before, key@);
                match result {
                    Ok(outcome) => {
                        &&& final(self).inv()
                        &&& final(self).page_count == old(self).page_count
                        &&& final(self).base == old(self).base
                        &&& old(self).sound(pages) ==> {
                            &&& final(self).sound(pages)
                            &&& outcome.inserted == (current is None)
                            &&& found(pages, old(self).page_count, Some(current)) == Some(
                                Some(value@),
                            ) ==> *final(self) == *old(self)
                            &&& found(pages, old(self).page_count, Some(current)) != Some(
                                Some(value@),
                            ) ==> upserts(before, final(self).entries(pages), key@, stored)
                                && took_in(*old(self), *final(self), pages, key@, stored)
                            &&& final(self).height@ <= old(self).height@ + 1
                            &&& old(self).fits(pages) ==> final(self).fits(pages)
                            &&& old(self).branches(pages) ==> final(self).branches(pages)
                        }
                    },
                    Err(error) => fails_for(
                        error,
                        !(old(self).sound(pages) && old(self).height@ < MAX_DEPTH && old(self).fits(
                            pages,
                        )),
                        final(reader).failures() > old(reader).failures(),
                    ),
                }
            }),
            steady(
                old(self).sound(old(reader).pages()) && old(self).height@ < MAX_DEPTH && old(
                    self,
                ).near(old(reader).pages(), old(reader).at_hand()),
                old(reader).at_hand(),
                final(reader).at_hand(),
                result,
            ),
    {
        let ghost pages = reader.pages();
        let ghost env = self.env(pages);
        let ghost before = self.entries(pages);
        let ghost h = self.height@;
        let ghost r = self.root;
        let ghost gone = self.retired@;
        let ghost sound = self.sound(pages);
        let ghost form = stored_form(value@);
        let ghost hand = reader.at_hand();
        proof {
            if sound && h < MAX_DEPTH && self.near(pages, hand) {
                law_near_tree_needs_no_storage(env, r, h, key@, MAX_DEPTH as nat, hand);
            }
        }
        let existing = self.get(reader, key)?;
        let inserted = match &existing {
            Some(bytes) => {
                if matches!(compare(bytes.as_slice(), value), Order::Equal) {
                    return Ok(PutOutcome { inserted: false });
                }
                false
            },
            None => true,
        };
        let old_value = self.find_stored_value(reader, key)?;
        let stored = if value.len() <= INLINE_VALUE_LIMIT {
            StoredValue::Inline(vstd::slice::slice_to_vec(value))
        } else {
            StoredValue::Pending(vstd::slice::slice_to_vec(value))
        };
        assert(stored@ == form);
        let root = self.root;
        let mutation = self.insert(reader, root, key, stored, 0, Ghost(h))?;
        let ghost mid = self.env(pages);
        let ghost gone_mid = self.retired@;
        let ghost run = shoots(mid, mutation, h);
        let ghost top = top_of(mutation, h);
        proof {
            if sound {
                lemma_inserted_run(env, mid, gone, gone_mid, r, h, run, key@, form);
            }
        }
        let planted = self.plant(reader, mutation, Ghost(h))?;
        proof {
            if sound {
                lemma_shared_kept(env, env, mid, self.env(pages), r, h, run, key@, form);
            }
        }
        self.root = planted;
        self.height = Ghost(top);
        if let Some(old_value) = old_value {
            proof {
                if sound {
                    lemma_old_value_leaves(
                        env,
                        mid,
                        gone,
                        gone_mid,
                        r,
                        h,
                        run,
                        key@,
                        form,
                        old_value@,
                    );
                    if near_below(env, r, h, hand) {
                        let k = choose|k: int|
                            0 <= k < before.len() && (#[trigger] before[k]).key == key@;
                        lemma_near_value(env, r, h, k, hand);
                    }
                }
            }
            self.retire_value(reader, &old_value)?;
        }
        proof {
            if sound {
                lemma_put_accounts(
                    env,
                    mid,
                    gone,
                    gone_mid,
                    self.retired@,
                    r,
                    h,
                    run,
                    key@,
                    form,
                );
                lemma_inserted_entries(env, mid, gone, gone_mid, r, h, run, key@, form);
                assert(shared_out(env, self.env(pages), r, h, run, key@, form));
                assert(crowned(self.env(pages), self.root, self.height@, run, h));
                assert(took_in(*old(self), *self, pages, key@, form));
            }
        }
        Ok(PutOutcome { inserted })
    }
}

/// The entries of a run that has taken the place of a tree.
proof fn lemma_inserted_entries(
    env: Env,
    other: Env,
    gone: Set<u64>,
    gone_after: Set<u64>,
    r: PageRef,
    h: nat,
    run: Seq<Link>,
    key: Seq<u8>,
    value: Stored,
)
    requires
        is_tree(env, r, h),
        inserted(env, other, gone, gone_after, r, h, run, key, value),
    ensures
        upserts(flat(env, r, h), flat_all(other, run, h), key, value),
        sorted_entries(flat_all(other, run, h)),
        snug(env, r, h) ==> snug_run(other, run, h),
        spreading(env, r, h) ==> branching_run(other, run, h, true) && stays_wide(other, run),
{
    reveal(inserted);
    lemma_upsert(flat(env, r, h), flat_all(other, run, h), key, value);
}

/// A node with two or three children fits into a page.
pub proof fn lemma_few_size(links: Seq<Link>)
    requires
        2 <= links.len() <= 3,
        keys_fit(links),
    ensures
        internal_size(links) <= PAGE_END,
{
    lemma_keys_fit_cut(links, 1);
    lemma_key_bytes_bound(links.skip(1));
    assert(links.skip(1).len() * MAX_KEY_SIZE <= 2 * MAX_KEY_SIZE);
}

} // verus!
