//! How trees are put together from parts when nodes in memory change.
use crate::format::{MAX_KEY_SIZE, PAGE_HEADER, SLOT_SIZE};
use crate::model::{
    agree_on, flat, flat_all, keyed, lemma_flat_all_add, lemma_flat_all_kept, lemma_flat_all_one,
    lemma_tree_kept, node_at, owns, run_ok, run_owns, same_at, subtree, value_ok, value_owns,
    values_ok, Env,
};
use crate::node::{
    can_split, internal_size, internal_split_fits, key_bytes, leaf_size, lemma_payload_add,
    lemma_split_key_bytes, node_size, payload, sorted_entries, Entry, Link, Node, PageRef, Stored,
    INLINE_VALUE_LIMIT, PAGE_END,
};
use crate::order::{group_order, le, lt};
use crate::page::keys_fit;
use crate::reader::lookup;
use vstd::prelude::*;

verus! {

/// Whether a reference names a slot that an environment does not have yet.
pub open spec fn is_fresh(env: Env, p: PageRef) -> bool {
    p matches PageRef::Dirty(slot) && slot >= env.dirty.len()
}

/// Whether two environments differ in slots only, and only in slots that are free or
/// belong to the tree below `r`.
pub open spec fn changed_below(env: Env, other: Env, r: PageRef, h: nat) -> bool {
    &&& other.pages == env.pages
    &&& other.count == env.count
    &&& other.dirty.len() >= env.dirty.len()
    &&& forall|slot: int|
        0 <= slot < env.dirty.len() && !owns(env, r, h, PageRef::Dirty(slot as usize))
            ==> #[trigger] other.dirty[slot] == env.dirty[slot]
}

/// Whether every node in memory below a run fits into a page.
pub open spec fn snug_run(env: Env, links: Seq<Link>, h: nat) -> bool {
    forall|slot: usize| #[trigger]
        run_owns(env, links, h, PageRef::Dirty(slot)) ==> node_size(
            node_at(env, PageRef::Dirty(slot))->0,
        ) <= PAGE_END
}

/// Whether every node in memory below `r` fits into a page.
pub open spec fn snug(env: Env, r: PageRef, h: nat) -> bool {
    forall|slot: usize| #[trigger]
        owns(env, r, h, PageRef::Dirty(slot)) ==> node_size(
            node_at(env, PageRef::Dirty(slot))->0,
        ) <= PAGE_END
}

/// A tree owns its root.
pub proof fn lemma_owns_root(env: Env, r: PageRef, h: nat)
    ensures
        owns(env, r, h, r),
{
    reveal(owns);
}

/// The nodes in memory that a tree owns have slots.
pub proof fn lemma_owned_slots(env: Env, r: PageRef, h: nat, p: PageRef)
    requires
        subtree(env, r, h),
        owns(env, r, h, p),
    ensures
        !is_fresh(env, p),
        p is Dirty ==> node_at(env, p) is Some,
    decreases h,
{
    reveal(subtree);
    reveal(owns);
    reveal(run_ok);
    if p != r {
        match node_at(env, r)->0 {
            Node::Leaf(entries) => {},
            Node::Internal(links) => {
                let i = choose|i: int|
                    0 <= i < links.len() && owns(
                        env,
                        (#[trigger] links[i]).page,
                        (h - 1) as nat,
                        p,
                    );
                lemma_owned_slots(env, links[i].page, (h - 1) as nat, p);
            },
        }
    }
}

/// The nodes in memory that a run owns have slots.
pub proof fn lemma_run_slots(env: Env, links: Seq<Link>, h: nat, p: PageRef)
    requires
        run_ok(env, links, h),
        run_owns(env, links, h, p),
    ensures
        !is_fresh(env, p),
        p is Dirty ==> node_at(env, p) is Some,
{
    reveal(subtree);
    reveal(run_ok);
    let i = choose|i: int| 0 <= i < links.len() && owns(env, (#[trigger] links[i]).page, h, p);
    lemma_owned_slots(env, links[i].page, h, p);
}

/// Each child of a run heads a non-empty well-formed tree.
pub proof fn lemma_run_child(env: Env, links: Seq<Link>, h: nat, i: int)
    requires
        run_ok(env, links, h),
        0 <= i < links.len(),
    ensures
        subtree(env, links[i].page, h),
        flat(env, links[i].page, h).len() > 0,
{
    reveal(subtree);
    reveal(run_ok);
}

/// A run reads the same in an environment that agrees on what it owns.
pub proof fn lemma_run_kept(env: Env, other: Env, links: Seq<Link>, h: nat)
    requires
        run_ok(env, links, h),
        other.pages == env.pages,
        other.count == env.count,
        forall|slot: usize| #[trigger]
            run_owns(env, links, h, PageRef::Dirty(slot)) ==> node_at(other, PageRef::Dirty(slot))
                == node_at(env, PageRef::Dirty(slot)),
    ensures
        run_ok(other, links, h),
        flat_all(other, links, h) == flat_all(env, links, h),
        forall|from: int| #[trigger]
            keyed(env, links, h, from) && from >= 0 ==> keyed(other, links, h, from),
        forall|p: PageRef| #[trigger]
            run_owns(other, links, h, p) == run_owns(env, links, h, p),
        snug_run(env, links, h) ==> snug_run(other, links, h),
{
    reveal(subtree);
    reveal(run_ok);
    assert forall|i: int| 0 <= i < links.len() implies agree_on(
        env,
        other,
        (#[trigger] links[i]).page,
        h,
    ) by {
        assert forall|p: PageRef| #[trigger] owns(env, links[i].page, h, p) implies same_at(
            env,
            other,
            p,
        ) by {
            assert(run_owns(env, links, h, p));
        }
    }
    assert forall|i: int| 0 <= i < links.len() implies subtree(
        other,
        (#[trigger] links[i]).page,
        h,
    ) && flat(other, links[i].page, h) == flat(env, links[i].page, h) by {
        lemma_tree_kept(env, other, links[i].page, h);
    }
    assert forall|i: int, p: PageRef| 0 <= i < links.len() implies #[trigger] owns(
        other,
        links[i].page,
        h,
        p,
    ) == owns(env, links[i].page, h, p) by {
        assert(agree_on(env, other, links[i].page, h));
        lemma_tree_kept(env, other, links[i].page, h);
    }
    lemma_flat_all_kept(env, other, links, h);
    assert forall|p: PageRef| #[trigger]
        run_owns(other, links, h, p) == run_owns(env, links, h, p) by {
        if run_owns(env, links, h, p) {
            let i = choose|i: int|
                0 <= i < links.len() && owns(env, (#[trigger] links[i]).page, h, p);
            assert(owns(other, links[i].page, h, p));
        }
        if run_owns(other, links, h, p) {
            let i = choose|i: int|
                0 <= i < links.len() && owns(other, (#[trigger] links[i]).page, h, p);
            assert(owns(env, links[i].page, h, p));
        }
    }
}

/// Two runs that share no page make one run.
pub proof fn lemma_run_join(env: Env, a: Seq<Link>, b: Seq<Link>, h: nat)
    requires
        run_ok(env, a, h),
        run_ok(env, b, h),
        forall|p: PageRef| !(#[trigger] run_owns(env, a, h, p) && run_owns(env, b, h, p)),
    ensures
        run_ok(env, a + b, h),
        flat_all(env, a + b, h) == flat_all(env, a, h) + flat_all(env, b, h),
        forall|p: PageRef| #[trigger]
            run_owns(env, a + b, h, p) == (run_owns(env, a, h, p) || run_owns(env, b, h, p)),
        keyed(env, a, h, 0) && keyed(env, b, h, 0) ==> keyed(env, a + b, h, 0),
{
    reveal(subtree);
    reveal(run_ok);
    let both = a + b;
    lemma_flat_all_add(env, a, b, h);
    assert forall|i: int| 0 <= i < both.len() implies subtree(env, (#[trigger] both[i]).page, h)
        && flat(env, both[i].page, h).len() > 0 by {
        if i < a.len() {
            assert(both[i] == a[i]);
        } else {
            assert(both[i] == b[i - a.len()]);
        }
    }
    assert forall|i: int, j: int, p: PageRef| 0 <= i < j < both.len() implies !(#[trigger] owns(
        env,
        both[i].page,
        h,
        p,
    ) && #[trigger] owns(env, both[j].page, h, p)) by {
        if owns(env, both[i].page, h, p) && owns(env, both[j].page, h, p) {
            if j < a.len() {
                assert(both[i] == a[i] && both[j] == a[j]);
            } else if i >= a.len() {
                assert(both[i] == b[i - a.len()] && both[j] == b[j - a.len()]);
            } else {
                assert(both[i] == a[i] && both[j] == b[j - a.len()]);
                assert(run_owns(env, a, h, p) && run_owns(env, b, h, p));
            }
        }
    }
    assert forall|p: PageRef| #[trigger]
        run_owns(env, both, h, p) == (run_owns(env, a, h, p) || run_owns(env, b, h, p)) by {
        if run_owns(env, both, h, p) {
            let i = choose|i: int|
                0 <= i < both.len() && owns(env, (#[trigger] both[i]).page, h, p);
            if i < a.len() {
                assert(owns(env, a[i].page, h, p));
            } else {
                assert(owns(env, b[i - a.len()].page, h, p));
            }
        }
        if run_owns(env, a, h, p) {
            let i = choose|i: int| 0 <= i < a.len() && owns(env, (#[trigger] a[i]).page, h, p);
            assert(both[i] == a[i]);
        }
        if run_owns(env, b, h, p) {
            let i = choose|i: int| 0 <= i < b.len() && owns(env, (#[trigger] b[i]).page, h, p);
            assert(both[i + a.len()] == b[i]);
        }
    }
    if keyed(env, a, h, 0) && keyed(env, b, h, 0) {
        assert forall|i: int| 0 <= i < both.len() implies (#[trigger] both[i]).key == flat(
            env,
            both[i].page,
            h,
        )[0].key by {
            if i < a.len() {
                assert(both[i] == a[i]);
            } else {
                assert(both[i] == b[i - a.len()]);
            }
        }
    }
}

/// The two sides of a run are runs that share no page.
pub proof fn lemma_run_cut(env: Env, links: Seq<Link>, h: nat, at: int)
    requires
        run_ok(env, links, h),
        0 <= at <= links.len(),
    ensures
        run_ok(env, links.take(at), h),
        run_ok(env, links.skip(at), h),
        flat_all(env, links, h) == flat_all(env, links.take(at), h) + flat_all(
            env,
            links.skip(at),
            h,
        ),
        forall|p: PageRef|
            !(#[trigger] run_owns(env, links.take(at), h, p) && run_owns(env, links.skip(at), h, p)),
        forall|p: PageRef| #[trigger]
            run_owns(env, links, h, p) == (run_owns(env, links.take(at), h, p) || run_owns(
                env,
                links.skip(at),
                h,
                p,
            )),
        keyed(env, links, h, 0) ==> keyed(env, links.take(at), h, 0) && keyed(
            env,
            links.skip(at),
            h,
            0,
        ),
{
    reveal(run_ok);
    let a = links.take(at);
    let b = links.skip(at);
    assert(a + b =~= links);
    lemma_flat_all_add(env, a, b, h);
    assert(forall|i: int| 0 <= i < a.len() ==> a[i] == links[i]);
    assert(forall|i: int| 0 <= i < b.len() ==> b[i] == links[i + at]);
    assert forall|i: int, j: int, p: PageRef| 0 <= i < j < a.len() implies !(#[trigger] owns(
        env,
        a[i].page,
        h,
        p,
    ) && #[trigger] owns(env, a[j].page, h, p)) by {
        assert(!(owns(env, links[i].page, h, p) && owns(env, links[j].page, h, p)));
    }
    assert forall|i: int, j: int, p: PageRef| 0 <= i < j < b.len() implies !(#[trigger] owns(
        env,
        b[i].page,
        h,
        p,
    ) && #[trigger] owns(env, b[j].page, h, p)) by {
        assert(!(owns(env, links[i + at].page, h, p) && owns(env, links[j + at].page, h, p)));
    }
    assert forall|p: PageRef|
        !(#[trigger] run_owns(env, a, h, p) && run_owns(env, b, h, p)) by {
        if run_owns(env, a, h, p) && run_owns(env, b, h, p) {
            let i = choose|i: int| 0 <= i < a.len() && owns(env, (#[trigger] a[i]).page, h, p);
            let j = choose|j: int| 0 <= j < b.len() && owns(env, (#[trigger] b[j]).page, h, p);
            assert(owns(env, links[i].page, h, p) && owns(env, links[j + at].page, h, p));
        }
    }
    assert forall|p: PageRef| #[trigger]
        run_owns(env, links, h, p) == (run_owns(env, a, h, p) || run_owns(env, b, h, p)) by {
        if run_owns(env, links, h, p) {
            let i = choose|i: int|
                0 <= i < links.len() && owns(env, (#[trigger] links[i]).page, h, p);
            if i < at {
                assert(owns(env, a[i].page, h, p));
            } else {
                assert(owns(env, b[i - at].page, h, p));
            }
        }
        if run_owns(env, a, h, p) {
            let i = choose|i: int| 0 <= i < a.len() && owns(env, (#[trigger] a[i]).page, h, p);
            assert(owns(env, links[i].page, h, p));
        }
        if run_owns(env, b, h, p) {
            let i = choose|i: int| 0 <= i < b.len() && owns(env, (#[trigger] b[i]).page, h, p);
            assert(owns(env, links[i + at].page, h, p));
        }
    }
}

/// A run of one child.
pub proof fn lemma_run_one(env: Env, link: Link, h: nat)
    requires
        subtree(env, link.page, h),
        flat(env, link.page, h).len() > 0,
    ensures
        run_ok(env, seq![link], h),
        flat_all(env, seq![link], h) == flat(env, link.page, h),
        forall|p: PageRef| #[trigger]
            run_owns(env, seq![link], h, p) == owns(env, link.page, h, p),
        link.key == flat(env, link.page, h)[0].key ==> keyed(env, seq![link], h, 0),
{
    reveal(subtree);
    reveal(run_ok);
    lemma_flat_all_one(env, link, h);
    let one = seq![link];
    assert(one[0] == link);
}

/// What belongs to a run belongs to its children.
pub proof fn lemma_run_owner(env: Env, links: Seq<Link>, h: nat, i: int, p: PageRef)
    requires
        0 <= i < links.len(),
        run_ok(env, links, h),
    ensures
        run_owns(env, links, h, p) == (run_owns(env, links.take(i), h, p) || owns(
            env,
            links[i].page,
            h,
            p,
        ) || run_owns(env, links.skip(i + 1), h, p)),
        !(run_owns(env, links.take(i), h, p) && owns(env, links[i].page, h, p)),
        !(run_owns(env, links.take(i), h, p) && run_owns(env, links.skip(i + 1), h, p)),
        !(owns(env, links[i].page, h, p) && run_owns(env, links.skip(i + 1), h, p)),
{
    reveal(subtree);
    reveal(run_ok);
    lemma_run_cut(env, links, h, i);
    let rest = links.skip(i);
    lemma_run_cut(env, rest, h, 1);
    assert(rest.take(1) =~= seq![links[i]]);
    assert(rest.skip(1) =~= links.skip(i + 1));
    assert(links[i] == rest[0]);
    lemma_run_one(env, links[i], h);
    assert(run_owns(env, seq![links[i]], h, p) == owns(env, links[i].page, h, p));
}

/// Replacing one child of a run by another run, in an environment that agrees on the
/// other children.
pub proof fn lemma_graft(
    env: Env,
    other: Env,
    links: Seq<Link>,
    h: nat,
    i: int,
    run: Seq<Link>,
)
    requires
        run_ok(env, links, h),
        keyed(env, links, h, 0),
        0 <= i < links.len(),
        run_ok(other, run, h),
        keyed(other, run, h, 0),
        changed_below(env, other, links[i].page, h),
        forall|p: PageRef| #[trigger]
            run_owns(other, run, h, p) ==> owns(env, links[i].page, h, p) || is_fresh(env, p),
    ensures
        ({
            let grown = links.take(i) + run + links.skip(i + 1);
            &&& run_ok(other, grown, h)
            &&& keyed(other, grown, h, 0)
            &&& flat_all(other, grown, h) == flat_all(env, links.take(i), h) + flat_all(
                other,
                run,
                h,
            ) + flat_all(env, links.skip(i + 1), h)
            &&& forall|p: PageRef| #[trigger]
                run_owns(other, grown, h, p) == (run_owns(env, links.take(i), h, p) || run_owns(
                    other,
                    run,
                    h,
                    p,
                ) || run_owns(env, links.skip(i + 1), h, p))
            &&& snug_run(env, links, h) && snug_run(other, run, h) ==> snug_run(other, grown, h)
        }),
{
    let a = links.take(i);
    let b = links.skip(i + 1);
    lemma_run_cut(env, links, h, i);
    lemma_run_cut(env, links, h, i + 1);
    assert forall|p: PageRef| true implies {
        &&& #[trigger] run_owns(env, links, h, p) == (run_owns(env, a, h, p) || owns(
            env,
            links[i].page,
            h,
            p,
        ) || run_owns(env, b, h, p))
        &&& !(run_owns(env, a, h, p) && owns(env, links[i].page, h, p))
        &&& !(run_owns(env, a, h, p) && run_owns(env, b, h, p))
        &&& !(owns(env, links[i].page, h, p) && run_owns(env, b, h, p))
    } by {
        lemma_run_owner(env, links, h, i, p);
    }
    assert forall|slot: usize|
        run_owns(env, a, h, PageRef::Dirty(slot)) || run_owns(
            env,
            b,
            h,
            PageRef::Dirty(slot),
        ) implies #[trigger] node_at(other, PageRef::Dirty(slot)) == node_at(
        env,
        PageRef::Dirty(slot),
    ) by {
        let p = PageRef::Dirty(slot);
        assert(run_owns(env, links, h, p));
        lemma_run_slots(env, links, h, p);
        assert(!owns(env, links[i].page, h, p));
        assert(other.dirty[slot as int] == env.dirty[slot as int]);
    }
    lemma_run_kept(env, other, a, h);
    lemma_run_kept(env, other, b, h);
    assert forall|p: PageRef| !(#[trigger] run_owns(other, a, h, p) && run_owns(other, run, h, p)) by {
        if run_owns(other, a, h, p) && run_owns(other, run, h, p) {
            assert(run_owns(env, a, h, p));
            assert(run_owns(env, links, h, p));
            lemma_run_slots(env, links, h, p);
        }
    }
    lemma_run_join(other, a, run, h);
    assert forall|p: PageRef|
        !(#[trigger] run_owns(other, a + run, h, p) && run_owns(other, b, h, p)) by {
        if run_owns(other, a + run, h, p) && run_owns(other, b, h, p) {
            assert(run_owns(env, b, h, p));
            assert(run_owns(env, links, h, p));
            lemma_run_slots(env, links, h, p);
            if run_owns(other, a, h, p) {
                assert(run_owns(env, a, h, p));
            }
        }
    }
    lemma_run_join(other, a + run, b, h);
    let grown = a + run + b;
    assert forall|p: PageRef| #[trigger]
        run_owns(other, grown, h, p) == (run_owns(env, a, h, p) || run_owns(other, run, h, p)
            || run_owns(env, b, h, p)) by {
        assert(run_owns(other, grown, h, p) == (run_owns(other, a + run, h, p) || run_owns(
            other,
            b,
            h,
            p,
        )));
        assert(run_owns(other, a, h, p) == run_owns(env, a, h, p));
        assert(run_owns(other, b, h, p) == run_owns(env, b, h, p));
    }
    if snug_run(env, links, h) && snug_run(other, run, h) {
        assert forall|slot: usize| #[trigger]
            run_owns(other, grown, h, PageRef::Dirty(slot)) implies node_size(
            node_at(other, PageRef::Dirty(slot))->0,
        ) <= PAGE_END by {
            let p = PageRef::Dirty(slot);
            if !run_owns(other, run, h, p) {
                assert(run_owns(env, links, h, p));
            }
        }
    }
}

/// An internal node in memory over a run of children.
pub proof fn lemma_node_built(env: Env, slot: usize, links: Seq<Link>, h: nat)
    requires
        node_at(env, PageRef::Dirty(slot)) == Some(Node::Internal(links)),
        links.len() > 0,
        keys_fit(links),
        run_ok(env, links, h),
        keyed(env, links, h, 0),
        !run_owns(env, links, h, PageRef::Dirty(slot)),
    ensures
        subtree(env, PageRef::Dirty(slot), h + 1),
        flat(env, PageRef::Dirty(slot), h + 1) == flat_all(env, links, h),
        flat(env, PageRef::Dirty(slot), h + 1).len() > 0,
        flat(env, PageRef::Dirty(slot), h + 1)[0].key == links[0].key,
        forall|p: PageRef| #[trigger]
            owns(env, PageRef::Dirty(slot), h + 1, p) == (p == PageRef::Dirty(slot) || run_owns(
                env,
                links,
                h,
                p,
            )),
        snug_run(env, links, h) && internal_size(links) <= PAGE_END ==> snug(
            env,
            PageRef::Dirty(slot),
            h + 1,
        ),
{
    reveal(subtree);
    reveal(owns);
    reveal(run_ok);
    crate::tree::lemma_first_entry(env, links, h);
    assert(links[0].key == flat(env, links[0].page, h)[0].key);
    assert forall|p: PageRef| #[trigger]
        owns(env, PageRef::Dirty(slot), h + 1, p) == (p == PageRef::Dirty(slot) || run_owns(
            env,
            links,
            h,
            p,
        )) by {}
}

// ---------------------------------------------------------------------------
// Putting one entry into sorted entries
// ---------------------------------------------------------------------------

/// Whether `after` is `before` with the value under the key replaced at `p`, or a new
/// entry put in its place at `p`.
pub open spec fn upserts_at(
    before: Seq<Entry>,
    after: Seq<Entry>,
    key: Seq<u8>,
    value: Stored,
    p: int,
) -> bool {
    &&& 0 <= p <= before.len()
    &&& {
        ||| p < before.len() && before[p].key == key && after == before.update(
            p,
            Entry { key, value },
        )
        ||| {
            &&& forall|i: int| 0 <= i < p ==> lt((#[trigger] before[i]).key, key)
            &&& forall|i: int| p <= i < before.len() ==> lt(key, (#[trigger] before[i]).key)
            &&& after == before.insert(p, Entry { key, value })
        }
    }
}

/// Whether `after` is `before` with a value stored under a key.
pub open spec fn upserts(before: Seq<Entry>, after: Seq<Entry>, key: Seq<u8>, value: Stored) -> bool {
    exists|p: int| upserts_at(before, after, key, value, p)
}

/// Storing a value in the middle of sorted entries stores it in the whole.
pub proof fn lemma_upsert_within(
    a: Seq<Entry>,
    before: Seq<Entry>,
    after: Seq<Entry>,
    b: Seq<Entry>,
    key: Seq<u8>,
    value: Stored,
)
    requires
        upserts(before, after, key, value),
        forall|i: int| 0 <= i < a.len() ==> lt((#[trigger] a[i]).key, key),
        forall|i: int| 0 <= i < b.len() ==> lt(key, (#[trigger] b[i]).key),
    ensures
        upserts(a + before + b, a + after + b, key, value),
{
    let p = choose|p: int| upserts_at(before, after, key, value, p);
    let whole = a + before + b;
    let q = p + a.len();
    if p < before.len() && before[p].key == key && after == before.update(p, Entry { key, value }) {
        assert(a + after + b =~= whole.update(q, Entry { key, value }));
        assert(whole[q] == before[p]);
    } else {
        assert(a + after + b =~= whole.insert(q, Entry { key, value }));
        assert forall|i: int| 0 <= i < q implies lt((#[trigger] whole[i]).key, key) by {
            if i < a.len() {
                assert(whole[i] == a[i]);
            } else {
                assert(whole[i] == before[i - a.len()]);
            }
        }
        assert forall|i: int| q <= i < whole.len() implies lt(key, (#[trigger] whole[i]).key) by {
            if i < a.len() + before.len() {
                assert(whole[i] == before[i - a.len()]);
            } else {
                assert(whole[i] == b[i - a.len() - before.len()]);
            }
        }
    }
    assert(upserts_at(whole, a + after + b, key, value, q));
}

/// What storing a value in sorted entries gives.
pub proof fn lemma_upsert(before: Seq<Entry>, after: Seq<Entry>, key: Seq<u8>, value: Stored)
    requires
        sorted_entries(before),
        upserts(before, after, key, value),
    ensures
        sorted_entries(after),
        after.len() > 0,
        after.len() == before.len() + if lookup(before, key) is None {
            1int
        } else {
            0
        },
        before.len() > 0 && le(before[0].key, key) ==> after[0].key == before[0].key,
        lookup(after, key) == Some(value),
        forall|other: Seq<u8>| other != key ==> #[trigger] lookup(after, other) == lookup(
            before,
            other,
        ),
{
    broadcast use group_order;

    let p = choose|p: int| upserts_at(before, after, key, value, p);
    let replaces = p < before.len() && before[p].key == key && after == before.update(
        p,
        Entry { key, value },
    );
    if replaces {
        assert(lookup(before, key) is Some);
        assert forall|i: int, j: int| 0 <= i < j < after.len() implies lt(
            #[trigger] after[i].key,
            #[trigger] after[j].key,
        ) by {
            assert(lt(before[i].key, before[j].key));
        }
    } else {
        assert(lookup(before, key) is None);
        assert forall|i: int, j: int| 0 <= i < j < after.len() implies lt(
            #[trigger] after[i].key,
            #[trigger] after[j].key,
        ) by {
            let x = if i < p {
                i
            } else {
                i - 1
            };
            let y = if j < p {
                j
            } else {
                j - 1
            };
            if i != p {
                assert(after[i] == before[x]);
            }
            if j != p {
                assert(after[j] == before[y]);
            }
            if i != p && j != p {
                assert(lt(before[x].key, before[y].key));
            }
        }
        if before.len() > 0 && le(before[0].key, key) {
            assert(p > 0);
        }
    }
    assert(after[p] == Entry { key, value });
    crate::reader::lemma_lookup(after, p);
    assert forall|other: Seq<u8>| other != key implies #[trigger] lookup(after, other) == lookup(
        before,
        other,
    ) by {
        if lookup(before, other) is Some {
            let i = choose|i: int| 0 <= i < before.len() && (#[trigger] before[i]).key == other;
            let x = if replaces || i < p {
                i
            } else {
                i + 1
            };
            assert(after[x] == before[i]);
            crate::reader::lemma_lookup(after, x);
        } else if lookup(after, other) is Some {
            let i = choose|i: int| 0 <= i < after.len() && (#[trigger] after[i]).key == other;
            let x = if replaces || i < p {
                i
            } else {
                i - 1
            };
            assert(after[i] == before[x]);
        }
    }
}

/// Storing an entry makes a leaf larger by one entry at most.
pub proof fn lemma_added_size(before: Seq<Entry>, after: Seq<Entry>, entry: Entry, p: int)
    requires
        0 <= p <= before.len(),
        after == before.insert(p, entry) || (p < before.len() && after == before.update(p, entry)),
    ensures
        leaf_size(after) <= leaf_size(before) + SLOT_SIZE + entry.key.len() + INLINE_VALUE_LIMIT,
{
    let one = seq![entry];
    assert(one.drop_last() =~= Seq::<Entry>::empty());
    assert(payload(one) == payload(one.drop_last()) + entry.key.len() + crate::node::inline_len(
        entry.value,
    ));
    lemma_payload_add(before.take(p), before.skip(p));
    assert(before.take(p) + before.skip(p) =~= before);
    if after == before.insert(p, entry) {
        assert(after =~= before.take(p) + (one + before.skip(p)));
        lemma_payload_add(before.take(p), one + before.skip(p));
        lemma_payload_add(one, before.skip(p));
    } else {
        let rest = before.skip(p + 1);
        assert(after =~= before.take(p) + (one + rest));
        lemma_payload_add(before.take(p), one + rest);
        lemma_payload_add(one, rest);
        let gone = seq![before[p]];
        assert(before.skip(p) =~= gone + rest);
        lemma_payload_add(gone, rest);
    }
}

/// The values of a leaf after one of them was stored without overflow pages.
pub proof fn lemma_upsert_values(
    env: Env,
    r: PageRef,
    slot: usize,
    before: Seq<Entry>,
    after: Seq<Entry>,
    key: Seq<u8>,
    value: Stored,
)
    requires
        sorted_entries(before),
        values_ok(env, r, before),
        upserts(before, after, key, value),
        !(value is Overflow),
    ensures
        values_ok(env, PageRef::Dirty(slot), after),
        forall|p: PageRef| #[trigger]
            entries_own(env, after, p) == (entries_own(env, before, p) && !old_value_owns(
                env,
                before,
                key,
                p,
            )),
{
    reveal(values_ok);
    reveal(owns);
    broadcast use group_order;

    let at = choose|at: int| upserts_at(before, after, key, value, at);
    let replaces = at < before.len() && before[at].key == key && after == before.update(
        at,
        Entry { key, value },
    );
    let origin = |i: int|
        if replaces || i < at {
            i
        } else {
            i - 1
        };
    assert(forall|i: int|
        0 <= i < after.len() && i != at ==> #[trigger] after[i] == before[origin(i)]);
    assert(forall|p: PageRef| !(#[trigger] value_owns(env, value, p)));
    assert(read_ok(env, value));
    assert forall|i: int| 0 <= i < after.len() implies value_ok(
        env.pages,
        env.count,
        (#[trigger] after[i]).value,
    ) && !value_owns(env, after[i].value, PageRef::Dirty(slot)) by {
        if i != at {
            assert(after[i] == before[origin(i)]);
        }
    }
    assert forall|i: int, j: int, p: PageRef| 0 <= i < j < after.len() implies !(
    #[trigger] value_owns(env, after[i].value, p) && #[trigger] value_owns(env, after[j].value, p)) by {
        if i != at && j != at {
            assert(after[i] == before[origin(i)]);
            assert(after[j] == before[origin(j)]);
            assert(!(value_owns(env, before[origin(i)].value, p) && value_owns(
                env,
                before[origin(j)].value,
                p,
            )));
        }
    }
    if replaces {
        crate::reader::lemma_lookup(before, at);
    } else {
        assert(lookup(before, key) is None);
    }
    assert forall|p: PageRef| #[trigger]
        entries_own(env, after, p) == (entries_own(env, before, p) && !old_value_owns(
            env,
            before,
            key,
            p,
        )) by {
        if entries_own(env, after, p) {
            let i = choose|i: int|
                0 <= i < after.len() && value_owns(env, (#[trigger] after[i]).value, p);
            assert(value_owns(env, before[origin(i)].value, p));
            if replaces {
                assert(origin(i) != at);
                if origin(i) < at {
                    assert(!(value_owns(env, before[origin(i)].value, p) && value_owns(
                        env,
                        before[at].value,
                        p,
                    )));
                } else {
                    assert(!(value_owns(env, before[at].value, p) && value_owns(
                        env,
                        before[origin(i)].value,
                        p,
                    )));
                }
            }
        }
        if entries_own(env, before, p) && !old_value_owns(env, before, key, p) {
            let i = choose|i: int|
                0 <= i < before.len() && value_owns(env, (#[trigger] before[i]).value, p);
            let x = if replaces || i < at {
                i
            } else {
                i + 1
            };
            assert(after[x] == before[i]);
        }
    }
}

/// Whether a value can be read.
spec fn read_ok(env: Env, value: Stored) -> bool {
    value_ok(env.pages, env.count, value)
}

/// Whether a page belongs to the value of one of the entries.
pub open spec fn entries_own(env: Env, entries: Seq<Entry>, p: PageRef) -> bool {
    exists|i: int| 0 <= i < entries.len() && value_owns(env, (#[trigger] entries[i]).value, p)
}

/// Whether a page belongs to the value that is stored under a key.
pub open spec fn old_value_owns(env: Env, entries: Seq<Entry>, key: Seq<u8>, p: PageRef) -> bool {
    lookup(entries, key) matches Some(value) && value_owns(env, value, p)
}

// ---------------------------------------------------------------------------
// Sizes
// ---------------------------------------------------------------------------

/// The keys of both sides of a node fit if those of the node do.
pub proof fn lemma_keys_fit_cut(links: Seq<Link>, at: int)
    requires
        keys_fit(links),
        0 <= at <= links.len(),
    ensures
        keys_fit(links.take(at)),
        keys_fit(links.skip(at)),
{
    assert(forall|i: int| 0 <= i < at ==> links.take(at)[i] == links[i]);
    assert(forall|i: int| 0 <= i < links.len() - at ==> links.skip(at)[i] == links[i + at]);
}

/// An internal node with few separators too many can be split.
pub proof fn lemma_internal_splittable(links: Seq<Link>)
    requires
        links.len() > 0,
        keys_fit(links),
        PAGE_END < internal_size(links) <= PAGE_END + 3 * (SLOT_SIZE + MAX_KEY_SIZE),
    ensures
        can_split(Node::Internal(links)),
{
    let n = links.len() as int;
    lemma_keys_fit_cut(links, 1);
    lemma_key_bytes_bound(links.skip(1));
    assert(n >= 4) by (nonlinear_arith)
        requires
            PAGE_HEADER + (n - 1) * SLOT_SIZE + (n - 1) * MAX_KEY_SIZE > PAGE_END,
            PAGE_HEADER == 32,
            SLOT_SIZE == 16,
            MAX_KEY_SIZE == 1024,
            PAGE_END == 4092,
    ;
    lemma_splittable_from(links, 2);
}

pub proof fn lemma_key_bytes_bound(links: Seq<Link>)
    requires
        keys_fit(links),
    ensures
        key_bytes(links) <= links.len() * MAX_KEY_SIZE,
    decreases links.len(),
{
    if links.len() > 0 {
        assert forall|i: int| 0 <= i < links.drop_last().len() implies (
        #[trigger] links.drop_last()[i]).key.len() <= MAX_KEY_SIZE by {
            assert(links.drop_last()[i] == links[i]);
        }
        lemma_key_bytes_bound(links.drop_last());
        assert(links[links.len() - 1].key.len() <= MAX_KEY_SIZE);
        assert(links.len() * MAX_KEY_SIZE == (links.len() - 1) * MAX_KEY_SIZE + MAX_KEY_SIZE)
            by (nonlinear_arith);
    }
}

/// From a split whose left side fits, one moves right until the right side fits.
proof fn lemma_splittable_from(links: Seq<Link>, split: int)
    requires
        keys_fit(links),
        PAGE_END < internal_size(links) <= PAGE_END + 3 * (SLOT_SIZE + MAX_KEY_SIZE),
        2 <= split < links.len(),
        split == 2 || internal_size(links.skip(split - 1)) > PAGE_END,
    ensures
        can_split(Node::Internal(links)),
    decreases links.len() - split,
{
    lemma_split_key_bytes(links, split);
    lemma_keys_fit_cut(links, split);
    lemma_keys_fit_cut(links.take(split), 1);
    lemma_keys_fit_cut(links.skip(split), 1);
    lemma_key_bytes_bound(links.take(split).skip(1));
    lemma_key_bytes_bound(links.skip(split).skip(1));
    assert(links[split].key.len() <= MAX_KEY_SIZE);
    let left = internal_size(links.take(split));
    let right = internal_size(links.skip(split));
    if split == 2 {
        let two = links.take(2).skip(1);
        assert(two.len() == 1);
        assert(left <= PAGE_END);
    } else {
        lemma_split_key_bytes(links, split - 1);
        let inner = links.take(split);
        lemma_split_key_bytes(inner, split - 1);
        assert(inner.take(split - 1) =~= links.take(split - 1));
        assert(inner.skip(split - 1).len() == 1);
        assert(inner.skip(split - 1).skip(1) =~= Seq::<Link>::empty());
        assert(inner[split - 1] == links[split - 1]);
        assert(links[split - 1].key.len() <= MAX_KEY_SIZE);
        assert(left <= PAGE_END);
    }
    if right <= PAGE_END && split < links.len() - 1 {
        assert(internal_split_fits(Node::Internal(links)->Internal_0, split));
    } else if split < links.len() - 1 {
        lemma_splittable_from(links, split + 1);
    } else {
        assert(links.skip(split).skip(1) =~= Seq::<Link>::empty());
        if split > 2 {
            let pair = links.skip(split - 1);
            lemma_keys_fit_cut(links, split - 1);
            lemma_keys_fit_cut(pair, 1);
            lemma_key_bytes_bound(pair.skip(1));
            assert(pair.skip(1).len() == 1);
            assert(internal_size(pair) <= PAGE_END);
        } else {
            assert(links.skip(split).len() == 1);
            assert(key_bytes(links.skip(split).skip(1)) == 0);
            assert(links.take(split).skip(1).len() == 1);
            assert(internal_size(links) <= PAGE_END);
        }
    }
}

} // verus!
