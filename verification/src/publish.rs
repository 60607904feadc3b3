//! How the tree of a write transaction reads once its nodes have been given pages.
use crate::branch::{branching, lemma_branching_agrees, spreading, wide};
use crate::format::MAX_KEY_SIZE;
use crate::graft::{lemma_owns_root, lemma_run_child};
use crate::model::{
    chain, flat, flat_all, keyed, lemma_tree_kept, lemma_value_kept, node_at, owns, page_node,
    read_value, readable, rows_of, run_ok, run_owns, same_at, subtree, value_capacity, value_ok,
    value_owns, value_pages, values_ok, Env,
};
use crate::node::{Entry, Link, Node, PageRef, Stored};
use crate::page::{all_resolve, keys_fit, lemma_leaf_valid, resolve, resolved, settle, settled};
use vstd::prelude::*;

verus! {

/// Which pages the nodes and values of a transaction are given.
pub ghost struct Plan {
    /// The page of each slot.
    pub physical: Seq<Option<u64>>,
    /// The first page of the chain of each pending value, by slot and entry.
    pub heads: Seq<Seq<u64>>,
    /// The pages of the chain of each pending value, by slot and entry.
    pub chains: Seq<Seq<Seq<u64>>>,
    /// The slot that each new page belongs to.
    pub home: Map<u64, usize>,
}

/// Whether the pending value of an entry can be read from its chain.
pub open spec fn chain_placed(env: Env, other: Env, plan: Plan, slot: usize, i: int) -> bool {
    let entries = env.dirty[slot as int]->0->Leaf_0;
    entries[i].value matches Stored::Pending(bytes) ==> {
        let ids = plan.chains[slot as int][i];
        &&& chain(other.pages, other.count, plan.heads[slot as int][i], other.count as nat) == Some(
            (ids, bytes),
        )
        &&& ids.no_duplicates()
        &&& bytes.len() <= value_capacity(other.count)
        &&& forall|k: int|
            0 <= k < ids.len() ==> plan.home.contains_key(#[trigger] ids[k]) && plan.home[ids[k]]
                == slot && plan.physical[slot as int] != Some(ids[k])
    }
}

/// Whether the node in a slot can be read from the page that it was given.
pub open spec fn placed(env: Env, other: Env, plan: Plan, slot: usize) -> bool {
    let index = slot as int;
    &&& index < plan.physical.len()
    &&& plan.physical[index] matches Some(id) && readable(other.pages, other.count, id)
        && plan.home.contains_key(id) && plan.home[id] == slot && match env.dirty[index]->0 {
        Node::Leaf(entries) => {
            &&& page_node(other.pages[id], other.count) == Some(
                Node::Leaf(settled(entries, plan.heads[index])),
            )
            &&& crate::page::leaf_valid(other.pages[id])
            &&& forall|i: int|
                0 <= i < entries.len() ==> #[trigger] chain_placed(env, other, plan, slot, i)
            &&& forall|i: int, j: int, k: u64|
                0 <= i < j < entries.len() && entries[i].value is Pending && entries[j].value is Pending
                    ==> !(#[trigger] plan.chains[index][i].contains(k)
                    && #[trigger] plan.chains[index][j].contains(k))
        },
        Node::Internal(links) => {
            &&& all_resolve(links, plan.physical)
            &&& page_node(other.pages[id], other.count) == Some(
                Node::Internal(resolved(links, plan.physical)),
            )
        },
    }
    &&& forall|id: u64| #[trigger]
        plan.home.contains_key(id) && plan.home[id] == slot ==> plan.physical[index] == Some(id) || (
        env.dirty[index]->0 matches Node::Leaf(entries) && exists|i: int|
            0 <= i < entries.len() && (#[trigger] entries[i]).value is Pending
                && plan.chains[index][i].contains(id))
}

/// Whether a page belongs to a tree, or was given to a node or value of it.
pub open spec fn owns_placed(env: Env, plan: Plan, r: PageRef, h: nat, id: u64) -> bool {
    owns(env, r, h, PageRef::Committed(id)) || (plan.home.contains_key(id) && owns(
        env,
        r,
        h,
        PageRef::Dirty(plan.home[id]),
    ))
}

/// Whether a tree can be published: its published pages stay, its nodes are placed, and
/// no new page is one that it uses.
pub open spec fn publishable(env: Env, other: Env, plan: Plan, r: PageRef, h: nat) -> bool {
    &&& other.dirty.len() == 0
    &&& env.count <= other.count
    &&& forall|slot: usize| #[trigger]
        owns(env, r, h, PageRef::Dirty(slot)) ==> placed(env, other, plan, slot)
    &&& forall|id: u64| #[trigger]
        owns(env, r, h, PageRef::Committed(id)) ==> !plan.home.contains_key(id) && same_at(
            env,
            other,
            PageRef::Committed(id),
        )
}

/// A published page heads a tree of published pages only.
pub proof fn lemma_committed_owns(env: Env, page_id: u64, h: nat, p: PageRef)
    requires
        subtree(env, PageRef::Committed(page_id), h),
        owns(env, PageRef::Committed(page_id), h, p),
    ensures
        p is Committed,
    decreases h,
{
    reveal(subtree);
    reveal(run_ok);
    reveal(owns);
    let r = PageRef::Committed(page_id);
    if p != r {
        match node_at(env, r)->0 {
            Node::Leaf(entries) => {},
            Node::Internal(links) => {
                let i = choose|i: int|
                    0 <= i < links.len() && owns(
                        env,
                        (#[trigger] links[i]).page,
                        (h - 1) as nat,
                        p,
                    );
                assert(links == crate::page::internal_links(env.pages[page_id]));
                if let PageRef::Committed(child) = links[i].page {
                    lemma_committed_owns(env, child, (h - 1) as nat, p);
                }
            },
        }
    }
}

/// A leaf reads the same from the page that it was given.
proof fn lemma_translate_leaf(env: Env, other: Env, plan: Plan, slot: usize, h: nat)
    requires
        subtree(env, PageRef::Dirty(slot), h),
        publishable(env, other, plan, PageRef::Dirty(slot), h),
        node_at(env, PageRef::Dirty(slot)) matches Some(Node::Leaf(_)),
    ensures
        ({
            let r = PageRef::Dirty(slot);
            let id = plan.physical[slot as int]->0;
            let s = PageRef::Committed(id);
            &&& plan.physical[slot as int] is Some
            &&& subtree(other, s, h)
            &&& rows_of(other, flat(other, s, h)) == rows_of(env, flat(env, r, h))
            &&& forall|x: u64| #[trigger]
                owns(other, s, h, PageRef::Committed(x)) == owns_placed(env, plan, r, h, x)
        }),
{
    reveal(subtree);
    reveal(owns);
    let r = PageRef::Dirty(slot);
    lemma_owns_root(env, r, h);
    assert(placed(env, other, plan, slot));
    let index = slot as int;
    let id = plan.physical[index]->0;
    let s = PageRef::Committed(id);
    let entries = node_at(env, r)->0->Leaf_0;
    let heads = plan.heads[index];
    let after = settled(entries, heads);
    assert(node_at(other, s) == Some(Node::Leaf(after)));
    lemma_leaf_valid(other.pages[id]);
    assert(values_ok(env, r, entries));
    assert forall|i: int| 0 <= i < entries.len() implies {
        &&& value_ok(other.pages, other.count, (#[trigger] after[i]).value)
        &&& read_value(other.pages, other.count, after[i].value) == read_value(
            env.pages,
            env.count,
            entries[i].value,
        )
        &&& after[i].key == entries[i].key
        &&& entries[i].value is Pending ==> value_pages(other.pages, other.count, after[i].value)
            == plan.chains[index][i]
        &&& !(entries[i].value is Pending) ==> value_pages(other.pages, other.count, after[i].value)
            == value_pages(env.pages, env.count, entries[i].value)
    } by {
        lemma_translate_value(env, other, plan, slot, i, h);
    }
    assert(rows_of(other, after) =~= rows_of(env, entries));
    assert forall|i: int, x: u64| 0 <= i < entries.len() implies #[trigger] value_owns(
        other,
        after[i].value,
        PageRef::Committed(x),
    ) == (if entries[i].value is Pending {
        plan.chains[index][i].contains(x)
    } else {
        value_owns(env, entries[i].value, PageRef::Committed(x))
    }) by {
        assert(after[i].key == entries[i].key);
    }
    assert forall|i: int, x: u64|
        0 <= i < entries.len() && #[trigger] value_owns(
            env,
            entries[i].value,
            PageRef::Committed(x),
        ) implies !plan.home.contains_key(x) by {
        assert(owns(env, r, h, PageRef::Committed(x)));
    }
    assert forall|i: int, x: u64|
        0 <= i < entries.len() && entries[i].value is Pending
            && #[trigger] plan.chains[index][i].contains(x) implies plan.home.contains_key(x)
        && plan.home[x] == slot && x != id by {
        assert(chain_placed(env, other, plan, slot, i));
        let ids = plan.chains[index][i];
        let k = choose|k: int| 0 <= k < ids.len() && ids[k] == x;
        assert(plan.home.contains_key(ids[k]));
    }
    assert(values_ok(other, s, after)) by {
        reveal(values_ok);
        assert forall|i: int| 0 <= i < after.len() implies value_ok(
            other.pages,
            other.count,
            (#[trigger] after[i]).value,
        ) && !value_owns(other, after[i].value, s) by {
            assert(value_owns(other, after[i].value, PageRef::Committed(id)) == (
            if entries[i].value is Pending {
                plan.chains[index][i].contains(id)
            } else {
                value_owns(env, entries[i].value, PageRef::Committed(id))
            }));
        }
        assert forall|i: int, j: int, p: PageRef| 0 <= i < j < after.len() implies !(
        #[trigger] value_owns(other, after[i].value, p) && #[trigger] value_owns(
            other,
            after[j].value,
            p,
        )) by {
            if let PageRef::Committed(x) = p {
                assert(value_owns(other, after[i].value, PageRef::Committed(x)) == (
                if entries[i].value is Pending {
                    plan.chains[index][i].contains(x)
                } else {
                    value_owns(env, entries[i].value, PageRef::Committed(x))
                }));
                assert(value_owns(other, after[j].value, PageRef::Committed(x)) == (
                if entries[j].value is Pending {
                    plan.chains[index][j].contains(x)
                } else {
                    value_owns(env, entries[j].value, PageRef::Committed(x))
                }));
                if entries[i].value is Pending && entries[j].value is Pending {
                    assert(!(plan.chains[index][i].contains(x) && plan.chains[index][j].contains(
                        x,
                    )));
                } else if !(entries[i].value is Pending) && !(entries[j].value is Pending) {
                    assert(!(value_owns(env, entries[i].value, PageRef::Committed(x))
                        && value_owns(env, entries[j].value, PageRef::Committed(x))));
                }
            }
        }
    }
    assert(h == 0);
    assert(flat(other, s, h) == after);
    assert forall|x: u64| #[trigger]
        owns(other, s, h, PageRef::Committed(x)) == owns_placed(env, plan, r, h, x) by {
        lemma_translate_leaf_owner(env, other, plan, slot, h, x);
    }
}

proof fn lemma_translate_leaf_owner(
    env: Env,
    other: Env,
    plan: Plan,
    slot: usize,
    h: nat,
    x: u64,
)
    requires
        subtree(env, PageRef::Dirty(slot), h),
        placed(env, other, plan, slot),
        node_at(env, PageRef::Dirty(slot)) matches Some(Node::Leaf(_)),
        ({
            let index = slot as int;
            let entries = env.dirty[index]->0->Leaf_0;
            let after = settled(entries, plan.heads[index]);
            &&& forall|i: int|
                0 <= i < entries.len() ==> #[trigger] value_owns(
                    other,
                    after[i].value,
                    PageRef::Committed(x),
                ) == (if entries[i].value is Pending {
                    plan.chains[index][i].contains(x)
                } else {
                    value_owns(env, entries[i].value, PageRef::Committed(x))
                })
            &&& forall|i: int|
                0 <= i < entries.len() && entries[i].value is Pending
                    && #[trigger] plan.chains[index][i].contains(x) ==> plan.home.contains_key(x)
                    && plan.home[x] == slot
        }),
    ensures
        owns(
            other,
            PageRef::Committed(plan.physical[slot as int]->0),
            h,
            PageRef::Committed(x),
        ) == owns_placed(env, plan, PageRef::Dirty(slot), h, x),
{
    reveal(owns);
    let r = PageRef::Dirty(slot);
    let index = slot as int;
    let id = plan.physical[index]->0;
    let s = PageRef::Committed(id);
    let p = PageRef::Committed(x);
    let entries = env.dirty[index]->0->Leaf_0;
    let after = settled(entries, plan.heads[index]);
    assert(node_at(other, s) == Some(Node::Leaf(after)));
    if owns(other, s, h, p) {
        if x == id {
            lemma_owns_root(env, r, h);
            assert(owns_placed(env, plan, r, h, x));
        } else {
            let i = choose|i: int|
                0 <= i < after.len() && value_owns(other, (#[trigger] after[i]).value, p);
            assert(value_owns(other, after[i].value, p));
            if entries[i].value is Pending {
                assert(plan.chains[index][i].contains(x));
                lemma_owns_root(env, r, h);
            } else {
                assert(value_owns(env, entries[i].value, p));
            }
        }
    }
    if owns_placed(env, plan, r, h, x) {
        if owns(env, r, h, p) {
            let i = choose|i: int|
                0 <= i < entries.len() && value_owns(env, (#[trigger] entries[i]).value, p);
            assert(!(entries[i].value is Pending));
            assert(value_owns(other, after[i].value, p));
        } else {
            assert(plan.home.contains_key(x));
            assert(plan.home[x] == slot);
            if x != id {
                let i = choose|i: int|
                    0 <= i < entries.len() && (#[trigger] entries[i]).value is Pending
                        && plan.chains[index][i].contains(x);
                assert(value_owns(other, after[i].value, p));
            }
        }
    }
}

/// A value reads the same once its leaf is published.
proof fn lemma_translate_value(env: Env, other: Env, plan: Plan, slot: usize, i: int, h: nat)
    requires
        subtree(env, PageRef::Dirty(slot), h),
        publishable(env, other, plan, PageRef::Dirty(slot), h),
        node_at(env, PageRef::Dirty(slot)) matches Some(Node::Leaf(_)),
        0 <= i < env.dirty[slot as int]->0->Leaf_0.len(),
    ensures
        ({
            let index = slot as int;
            let entry = env.dirty[index]->0->Leaf_0[i];
            let after = settle(entry, plan.heads[index][i]);
            &&& value_ok(other.pages, other.count, after.value)
            &&& read_value(other.pages, other.count, after.value) == read_value(
                env.pages,
                env.count,
                entry.value,
            )
            &&& after.key == entry.key
            &&& entry.value is Pending ==> value_pages(other.pages, other.count, after.value)
                == plan.chains[index][i]
            &&& !(entry.value is Pending) ==> value_pages(other.pages, other.count, after.value)
                == value_pages(env.pages, env.count, entry.value)
        }),
{
    reveal(subtree);
    reveal(values_ok);
    let r = PageRef::Dirty(slot);
    lemma_owns_root(env, r, h);
    let entries = env.dirty[slot as int]->0->Leaf_0;
    let value = entries[i].value;
    assert(chain_placed(env, other, plan, slot, i));
    if !(value is Pending) {
        assert(value_ok(env.pages, env.count, entries[i].value));
        assert forall|p: PageRef| #[trigger] value_owns(env, value, p) implies same_at(
            env,
            other,
            p,
        ) by {
            reveal(owns);
            assert(owns(env, r, h, p));
        }
        lemma_value_kept(env, other, value);
    }
}

/// A run reads the same once its children are published.
proof fn lemma_translate_run(env: Env, other: Env, a: Seq<Link>, b: Seq<Link>, h: nat)
    requires
        a.len() == b.len(),
        forall|i: int|
            0 <= i < a.len() ==> rows_of(other, flat(other, (#[trigger] b[i]).page, h)) == rows_of(
                env,
                flat(env, a[i].page, h),
            ),
    ensures
        rows_of(other, flat_all(other, b, h)) == rows_of(env, flat_all(env, a, h)),
    decreases a.len(),
{
    if a.len() > 0 {
        let x = a.drop_last();
        let y = b.drop_last();
        assert forall|i: int| 0 <= i < x.len() implies rows_of(
            other,
            flat(other, (#[trigger] y[i]).page, h),
        ) == rows_of(env, flat(env, x[i].page, h)) by {
            assert(y[i] == b[i]);
        }
        lemma_translate_run(env, other, x, y, h);
        let last = a.len() - 1;
        assert(rows_of(other, flat(other, b[last].page, h)) == rows_of(
            env,
            flat(env, a[last].page, h),
        ));
        lemma_rows_add(other, flat_all(other, y, h), flat(other, b[last].page, h));
        lemma_rows_add(env, flat_all(env, x, h), flat(env, a[last].page, h));
    } else {
        assert(rows_of(other, flat_all(other, b, h)) =~= rows_of(env, flat_all(env, a, h)));
    }
}

/// The rows of two runs of entries are those of both together.
pub proof fn lemma_rows_add(env: Env, a: Seq<Entry>, b: Seq<Entry>)
    ensures
        rows_of(env, a + b) == rows_of(env, a) + rows_of(env, b),
{
    assert(rows_of(env, a + b) =~= rows_of(env, a) + rows_of(env, b));
}

/// A tree reads the same once it is published, and belongs to the pages that it used
/// and those that its nodes and values were given.
pub proof fn lemma_translate(env: Env, other: Env, plan: Plan, r: PageRef, h: nat)
    requires
        subtree(env, r, h),
        publishable(env, other, plan, r, h),
    ensures
        resolve(r, plan.physical) is Some,
        ({
            let s = PageRef::Committed(resolve(r, plan.physical)->0);
            &&& subtree(other, s, h)
            &&& rows_of(other, flat(other, s, h)) == rows_of(env, flat(env, r, h))
            &&& forall|x: u64| #[trigger]
                owns(other, s, h, PageRef::Committed(x)) == owns_placed(env, plan, r, h, x)
        }),
    decreases h, 1nat,
{
    match r {
        PageRef::Committed(id) => {
            assert forall|p: PageRef| #[trigger] owns(env, r, h, p) implies same_at(env, other, p) by {
                lemma_committed_owns(env, id, h, p);
            }
            lemma_tree_kept(env, other, r, h);
            assert forall|x: u64| #[trigger]
                owns(other, r, h, PageRef::Committed(x)) == owns_placed(env, plan, r, h, x) by {
                if owns_placed(env, plan, r, h, x) && !owns(env, r, h, PageRef::Committed(x)) {
                    lemma_committed_owns(env, id, h, PageRef::Dirty(plan.home[x]));
                }
            }
        },
        PageRef::Dirty(slot) => {
            reveal(subtree);
            match node_at(env, r)->0 {
                Node::Leaf(entries) => {
                    lemma_owns_root(env, r, h);
                    assert(placed(env, other, plan, slot));
                    lemma_translate_leaf(env, other, plan, slot, h);
                },
                Node::Internal(links) => {
                    lemma_translate_internal(env, other, plan, slot, h, links);
                },
            }
        },
    }
}

proof fn lemma_translate_internal(
    env: Env,
    other: Env,
    plan: Plan,
    slot: usize,
    h: nat,
    links: Seq<Link>,
)
    requires
        subtree(env, PageRef::Dirty(slot), h),
        publishable(env, other, plan, PageRef::Dirty(slot), h),
        node_at(env, PageRef::Dirty(slot)) == Some(Node::Internal(links)),
    ensures
        ({
            let r = PageRef::Dirty(slot);
            let s = PageRef::Committed(plan.physical[slot as int]->0);
            &&& resolve(r, plan.physical) == plan.physical[slot as int]
            &&& plan.physical[slot as int] is Some
            &&& subtree(other, s, h)
            &&& rows_of(other, flat(other, s, h)) == rows_of(env, flat(env, r, h))
            &&& forall|x: u64| #[trigger]
                owns(other, s, h, PageRef::Committed(x)) == owns_placed(env, plan, r, h, x)
        }),
    decreases h, 0nat,
{
    reveal(subtree);
    reveal(run_ok);
    let r = PageRef::Dirty(slot);
    lemma_owns_root(env, r, h);
    assert(placed(env, other, plan, slot));
    let id = plan.physical[slot as int]->0;
    let s = PageRef::Committed(id);
    let below = (h - 1) as nat;
    let after = resolved(links, plan.physical);
    assert(node_at(other, s) == Some(Node::Internal(after)));
    assert forall|p: PageRef| #[trigger] owns(env, r, h, p) == (p == r || run_owns(
        env,
        links,
        below,
        p,
    )) by {
        reveal(owns);
    }
    assert forall|i: int| 0 <= i < links.len() implies {
        &&& subtree(other, (#[trigger] after[i]).page, below)
        &&& rows_of(other, flat(other, after[i].page, below)) == rows_of(
            env,
            flat(env, links[i].page, below),
        )
        &&& flat(env, links[i].page, below).len() > 0
        &&& after[i].page == PageRef::Committed(resolve(links[i].page, plan.physical)->0)
    } by {
        lemma_child_publishable(env, other, plan, slot, h, links, i);
        lemma_run_child(env, links, below, i);
        lemma_translate(env, other, plan, links[i].page, below);
    }
    assert forall|i: int, x: u64| 0 <= i < links.len() implies #[trigger] owns(
        other,
        after[i].page,
        below,
        PageRef::Committed(x),
    ) == owns_placed(env, plan, links[i].page, below, x) by {
        lemma_child_publishable(env, other, plan, slot, h, links, i);
        lemma_run_child(env, links, below, i);
        lemma_translate(env, other, plan, links[i].page, below);
        assert(after[i].page == PageRef::Committed(resolve(links[i].page, plan.physical)->0));
    }
    assert forall|i: int| 0 <= i < links.len() implies flat(
        other,
        (#[trigger] after[i]).page,
        below,
    ).len() > 0 && flat(other, after[i].page, below)[0].key == flat(
        env,
        links[i].page,
        below,
    )[0].key by {
        let x = rows_of(other, flat(other, after[i].page, below));
        let y = rows_of(env, flat(env, links[i].page, below));
        assert(x == y);
        assert(x.len() == flat(other, after[i].page, below).len());
        assert(y.len() == flat(env, links[i].page, below).len());
        assert(x[0].0 == flat(other, after[i].page, below)[0].key);
        assert(y[0].0 == flat(env, links[i].page, below)[0].key);
    }
    assert(run_ok(other, after, below)) by {
        assert forall|i: int, j: int, p: PageRef| 0 <= i < j < after.len() implies !(#[trigger] owns(
            other,
            after[i].page,
            below,
            p,
        ) && #[trigger] owns(other, after[j].page, below, p)) by {
            if owns(other, after[i].page, below, p) && owns(other, after[j].page, below, p) {
                let a = after[i].page->Committed_0;
                lemma_committed_owns(other, a, below, p);
                let x = p->Committed_0;
                assert(owns_placed(env, plan, links[i].page, below, x));
                assert(owns_placed(env, plan, links[j].page, below, x));
                lemma_apart_placed(env, other, plan, slot, h, links, i, j, x);
            }
        }
    }
    assert(keyed(other, after, below, 1));
    assert(keys_fit(after)) by {
        assert forall|i: int| 0 <= i < after.len() implies (#[trigger] after[i]).key.len()
            <= MAX_KEY_SIZE by {
            assert(links[i].key.len() <= MAX_KEY_SIZE);
        }
    }
    assert forall|x: u64| #[trigger] run_owns(other, after, below, PageRef::Committed(x)) == (
    exists|i: int| 0 <= i < links.len() && owns_placed(env, plan, (#[trigger] links[i]).page, below, x)) by {
        if run_owns(other, after, below, PageRef::Committed(x)) {
            let i = choose|i: int|
                0 <= i < after.len() && owns(
                    other,
                    (#[trigger] after[i]).page,
                    below,
                    PageRef::Committed(x),
                );
            assert(owns_placed(env, plan, links[i].page, below, x));
        }
        if exists|i: int|
            0 <= i < links.len() && owns_placed(env, plan, (#[trigger] links[i]).page, below, x) {
            let i = choose|i: int|
                0 <= i < links.len() && owns_placed(
                    env,
                    plan,
                    (#[trigger] links[i]).page,
                    below,
                    x,
                );
            assert(owns(other, after[i].page, below, PageRef::Committed(x)));
        }
    }
    assert(!run_owns(other, after, below, s)) by {
        if run_owns(other, after, below, s) {
            let i = choose|i: int|
                0 <= i < links.len() && owns_placed(
                    env,
                    plan,
                    (#[trigger] links[i]).page,
                    below,
                    id,
                );
            if owns(env, links[i].page, below, PageRef::Committed(id)) {
                assert(run_owns(env, links, below, PageRef::Committed(id)));
                assert(owns(env, r, h, PageRef::Committed(id)));
            } else {
                assert(run_owns(env, links, below, r));
            }
        }
    }
    assert(subtree(other, s, h));
    lemma_translate_run(env, other, links, after, below);
    assert forall|x: u64| #[trigger]
        owns(other, s, h, PageRef::Committed(x)) == owns_placed(env, plan, r, h, x) by {
        reveal(owns);
        assert(owns(other, s, h, PageRef::Committed(x)) == (x == id || run_owns(
            other,
            after,
            below,
            PageRef::Committed(x),
        )));
        lemma_owner_placed(env, other, plan, slot, h, links, id, x);
    }
}

proof fn lemma_owner_placed(
    env: Env,
    other: Env,
    plan: Plan,
    slot: usize,
    h: nat,
    links: Seq<Link>,
    id: u64,
    x: u64,
)
    requires
        placed(env, other, plan, slot),
        plan.physical[slot as int] == Some(id),
        node_at(env, PageRef::Dirty(slot)) == Some(Node::Internal(links)),
        h > 0,
        forall|p: PageRef| #[trigger]
            owns(env, PageRef::Dirty(slot), h, p) == (p == PageRef::Dirty(slot) || run_owns(
                env,
                links,
                (h - 1) as nat,
                p,
            )),
    ensures
        owns_placed(env, plan, PageRef::Dirty(slot), h, x) == (x == id || exists|i: int|
            0 <= i < links.len() && owns_placed(
                env,
                plan,
                (#[trigger] links[i]).page,
                (h - 1) as nat,
                x,
            )),
{
    let r = PageRef::Dirty(slot);
    let below = (h - 1) as nat;
    lemma_owns_root(env, r, h);
    if owns_placed(env, plan, r, h, x) && x != id {
        if owns(env, r, h, PageRef::Committed(x)) {
            let i = choose|i: int|
                0 <= i < links.len() && owns(
                    env,
                    (#[trigger] links[i]).page,
                    below,
                    PageRef::Committed(x),
                );
            assert(owns_placed(env, plan, links[i].page, below, x));
        } else {
            let q = PageRef::Dirty(plan.home[x]);
            assert(q != r);
            let i = choose|i: int|
                0 <= i < links.len() && owns(env, (#[trigger] links[i]).page, below, q);
            assert(owns_placed(env, plan, links[i].page, below, x));
        }
    }
    if exists|i: int|
        0 <= i < links.len() && owns_placed(env, plan, (#[trigger] links[i]).page, below, x) {
        let i = choose|i: int|
            0 <= i < links.len() && owns_placed(env, plan, (#[trigger] links[i]).page, below, x);
        if owns(env, links[i].page, below, PageRef::Committed(x)) {
            assert(run_owns(env, links, below, PageRef::Committed(x)));
        } else {
            assert(run_owns(env, links, below, PageRef::Dirty(plan.home[x])));
        }
    }
}

proof fn lemma_apart_placed(
    env: Env,
    other: Env,
    plan: Plan,
    slot: usize,
    h: nat,
    links: Seq<Link>,
    i: int,
    j: int,
    x: u64,
)
    requires
        run_ok(env, links, (h - 1) as nat),
        publishable(env, other, plan, PageRef::Dirty(slot), h),
        0 <= i < j < links.len(),
        forall|p: PageRef| #[trigger]
            owns(env, PageRef::Dirty(slot), h, p) == (p == PageRef::Dirty(slot) || run_owns(
                env,
                links,
                (h - 1) as nat,
                p,
            )),
    ensures
        !(owns_placed(env, plan, links[i].page, (h - 1) as nat, x) && owns_placed(
            env,
            plan,
            links[j].page,
            (h - 1) as nat,
            x,
        )),
{
    reveal(run_ok);
    let below = (h - 1) as nat;
    let p = PageRef::Committed(x);
    let q = PageRef::Dirty(plan.home[x]);
    assert(!(owns(env, links[i].page, below, p) && owns(env, links[j].page, below, p)));
    assert(!(owns(env, links[i].page, below, q) && owns(env, links[j].page, below, q)));
    if owns(env, links[i].page, below, p) || owns(env, links[j].page, below, p) {
        assert(run_owns(env, links, below, p));
        assert(owns(env, PageRef::Dirty(slot), h, p));
    }
}

/// A tree branches once it is published where it did in memory.
proof fn lemma_branching_published(
    env: Env,
    other: Env,
    plan: Plan,
    r: PageRef,
    h: nat,
    edge: bool,
)
    requires
        subtree(env, r, h),
        publishable(env, other, plan, r, h),
        branching(env, r, h, edge),
        resolve(r, plan.physical) is Some,
    ensures
        branching(other, PageRef::Committed(resolve(r, plan.physical)->0), h, edge),
        forall|e: bool| #[trigger]
            wide(node_at(env, r)->0, e) ==> node_at(
                other,
                PageRef::Committed(resolve(r, plan.physical)->0),
            ) is Some && wide(
                node_at(other, PageRef::Committed(resolve(r, plan.physical)->0))->0,
                e,
            ),
    decreases h,
{
    match r {
        PageRef::Committed(id) => {
            assert forall|p: PageRef| #[trigger] owns(env, r, h, p) implies same_at(env, other, p) by {
                lemma_committed_owns(env, id, h, p);
            }
            lemma_branching_agrees(env, other, r, h, edge);
            lemma_owns_root(env, r, h);
            assert(node_at(env, r) is Some) by {
                reveal(branching);
            }
            crate::model::lemma_node_kept(env, other, r);
        },
        PageRef::Dirty(slot) => {
            reveal(subtree);
            reveal(run_ok);
            reveal(branching);
            lemma_owns_root(env, r, h);
            assert(placed(env, other, plan, slot));
            let s = PageRef::Committed(resolve(r, plan.physical)->0);
            if let Node::Internal(links) = node_at(env, r)->0 {
                let below = (h - 1) as nat;
                let after = resolved(links, plan.physical);
                assert(node_at(other, s) == Some(Node::Internal(after)));
                assert forall|p: PageRef| #[trigger] owns(env, r, h, p) == (p == r || run_owns(
                    env,
                    links,
                    below,
                    p,
                )) by {
                    reveal(owns);
                }
                assert forall|i: int| 0 <= i < after.len() implies branching(
                    other,
                    (#[trigger] after[i]).page,
                    below,
                    edge && i == after.len() - 1,
                ) by {
                    let last = edge && i == links.len() - 1;
                    lemma_child_publishable(env, other, plan, slot, h, links, i);
                    lemma_run_child(env, links, below, i);
                    assert(branching(env, links[i].page, below, last));
                    lemma_translate(env, other, plan, links[i].page, below);
                    lemma_branching_published(env, other, plan, links[i].page, below, last);
                }
            }
        },
    }
}

/// A tree spreads once it is published where it did in memory.
pub proof fn lemma_spreading_published(env: Env, other: Env, plan: Plan, r: PageRef, h: nat)
    requires
        subtree(env, r, h),
        publishable(env, other, plan, r, h),
        spreading(env, r, h),
        resolve(r, plan.physical) is Some,
    ensures
        spreading(other, PageRef::Committed(resolve(r, plan.physical)->0), h),
{
    lemma_branching_published(env, other, plan, r, h, true);
}

proof fn lemma_child_publishable(
    env: Env,
    other: Env,
    plan: Plan,
    slot: usize,
    h: nat,
    links: Seq<Link>,
    i: int,
)
    requires
        publishable(env, other, plan, PageRef::Dirty(slot), h),
        0 <= i < links.len(),
        forall|p: PageRef| #[trigger]
            owns(env, PageRef::Dirty(slot), h, p) == (p == PageRef::Dirty(slot) || run_owns(
                env,
                links,
                (h - 1) as nat,
                p,
            )),
    ensures
        publishable(env, other, plan, links[i].page, (h - 1) as nat),
{
    let below = (h - 1) as nat;
    assert forall|p: PageRef| #[trigger] owns(env, links[i].page, below, p) implies owns(
        env,
        PageRef::Dirty(slot),
        h,
        p,
    ) by {
        assert(run_owns(env, links, below, p));
    }
}

} // verus!
