//! How the entries and children of a node that has grown are shared out among nodes.
use crate::graft::{lemma_owns_root, lemma_run_child, upserts};
use crate::model::{lemma_tree_kept, node_at, owns, run_owns, same_at, subtree, Env, Pages};
use crate::node::{
    best_internal_split_at, best_leaf_split_at, child_at, internal_size, leaf_size, leaf_split_fits,
    Entry, Link, Node, PageRef, Stored, PAGE_END,
};
use crate::tree::{opened, MutableTree};
use vstd::prelude::*;

verus! {

/// The nodes that links lead to.
pub open spec fn nodes_at(env: Env, run: Seq<Link>) -> Seq<Option<Node>> {
    Seq::new(run.len(), |i: int| node_at(env, run[i].page))
}

/// Whether a leaf that a key was stored in stays one node if it fits into a page, and is
/// otherwise cut at its most even split, or, where no two pages hold it, around the entry of
/// the key.
pub open spec fn shared_leaf(entries: Seq<Entry>, key: Seq<u8>, nodes: Seq<Option<Node>>) -> bool {
    if leaf_size(entries) <= PAGE_END {
        nodes == seq![Some(Node::Leaf(entries))]
    } else if exists|split: int| #[trigger] leaf_split_fits(entries, split) {
        exists|split: int| #[trigger]
            best_leaf_split_at(entries, split) && nodes == seq![
                Some(Node::Leaf(entries.take(split))),
                Some(Node::Leaf(entries.skip(split))),
            ]
    } else {
        exists|at: int|
            0 <= at < entries.len() && (#[trigger] entries[at]).key == key && nodes == seq![
                Some(Node::Leaf(entries.take(at))),
                Some(Node::Leaf(entries.skip(at).take(1))),
                Some(Node::Leaf(entries.skip(at).skip(1))),
            ]
    }
}

/// Whether an internal node stays one node if it fits into a page, and is otherwise cut at its
/// most even split.
pub open spec fn shared_internal(links: Seq<Link>, nodes: Seq<Option<Node>>) -> bool {
    if internal_size(links) <= PAGE_END {
        nodes == seq![Some(Node::Internal(links))]
    } else {
        exists|split: int| #[trigger]
            best_internal_split_at(links, split) && nodes == seq![
                Some(Node::Internal(links.take(split))),
                Some(Node::Internal(links.skip(split))),
            ]
    }
}

/// Whether the child of a key gave way to other children, and the node was shared out.
pub open spec fn grafts(
    links: Seq<Link>,
    key: Seq<u8>,
    i: int,
    inner: Seq<Link>,
    nodes: Seq<Option<Node>>,
) -> bool {
    &&& child_at(links, key, i)
    &&& shared_internal(links.take(i) + inner + links.skip(i + 1), nodes)
}

/// Whether links lead to nodes in memory.
pub open spec fn all_dirty(run: Seq<Link>) -> bool {
    forall|k: int| 0 <= k < run.len() ==> (#[trigger] run[k]).page is Dirty
}

/// Whether a run takes the place of a tree that a value was stored in, and every node on the
/// path to the key is in memory and was cut where it is cut most evenly, and only if it had to
/// be.
#[verifier::opaque]
pub open spec fn shared_out(
    env: Env,
    other: Env,
    r: PageRef,
    h: nat,
    run: Seq<Link>,
    key: Seq<u8>,
    value: Stored,
) -> bool
    decreases h,
{
    all_dirty(run) && match opened(env, r, h) {
        Node::Leaf(entries) => exists|after: Seq<Entry>| #[trigger]
            upserts(entries, after, key, value) && shared_leaf(after, key, nodes_at(other, run)),
        Node::Internal(links) => h > 0 && exists|i: int, inner: Seq<Link>| #[trigger]
            grafts(links, key, i, inner, nodes_at(other, run)) && shared_out(
                env,
                other,
                links[i].page,
                (h - 1) as nat,
                inner,
                key,
                value,
            ),
    }
}

/// Whether what takes the place of a root is the root, or has a new root over it.
pub open spec fn crowned(env: Env, root: PageRef, top: nat, run: Seq<Link>, h: nat) -> bool {
    if run.len() == 1 {
        root == run[0].page && top == h
    } else {
        root is Dirty && node_at(env, root) == Some(Node::Internal(run)) && top == h + 1
    }
}

/// Whether a tree has become another by storing a value under a key: what took the place of its
/// root was shared out, and is the root or has a new root over it.
pub open spec fn took_in(
    before: MutableTree,
    after: MutableTree,
    pages: Pages,
    key: Seq<u8>,
    value: Stored,
) -> bool {
    exists|run: Seq<Link>| #[trigger]
        shared_out(
            before.env(pages),
            after.env(pages),
            before.root,
            before.height@,
            run,
            key,
            value,
        ) && crowned(after.env(pages), after.root, after.height@, run, before.height@)
}

/// Children that replaced others lie below the nodes that have them.
proof fn lemma_grafted_owned(
    env: Env,
    run: Seq<Link>,
    h: nat,
    links: Seq<Link>,
    key: Seq<u8>,
    i: int,
    inner: Seq<Link>,
    p: PageRef,
)
    requires
        h > 0,
        grafts(links, key, i, inner, nodes_at(env, run)),
        run_owns(env, inner, (h - 1) as nat, p),
    ensures
        run_owns(env, run, h, p),
{
    let below = (h - 1) as nat;
    let nodes = nodes_at(env, run);
    let grown = links.take(i) + inner + links.skip(i + 1);
    let k = choose|k: int| 0 <= k < inner.len() && owns(env, (#[trigger] inner[k]).page, below, p);
    let at = i + k;
    assert(grown[at] == inner[k]);
    assert(nodes.len() == run.len());
    if internal_size(grown) <= PAGE_END {
        assert(nodes.len() == 1);
        assert(nodes[0] == node_at(env, run[0].page));
        assert(owns(env, run[0].page, h, p)) by {
            reveal(owns);
        }
    } else {
        let split = choose|split: int| #[trigger]
            best_internal_split_at(grown, split) && nodes == seq![
                Some(Node::Internal(grown.take(split))),
                Some(Node::Internal(grown.skip(split))),
            ];
        assert(nodes.len() == 2);
        assert(nodes[0] == node_at(env, run[0].page));
        assert(nodes[1] == node_at(env, run[1].page));
        if at < split {
            assert(grown.take(split)[at] == inner[k]);
            assert(owns(env, run[0].page, h, p)) by {
                reveal(owns);
            }
        } else {
            assert(grown.skip(split)[at - split] == inner[k]);
            assert(owns(env, run[1].page, h, p)) by {
                reveal(owns);
            }
        }
    }
}

/// How a tree was shared out does not depend on nodes outside it and its successors.
pub proof fn lemma_shared_kept(
    env: Env,
    env_after: Env,
    other: Env,
    other_after: Env,
    r: PageRef,
    h: nat,
    run: Seq<Link>,
    key: Seq<u8>,
    value: Stored,
)
    requires
        shared_out(env, other, r, h, run, key, value),
        subtree(env, r, h),
        env_after.pages == env.pages,
        env_after.count == env.count,
        other_after.pages == other.pages,
        other_after.count == other.count,
        forall|slot: usize| #[trigger]
            owns(env, r, h, PageRef::Dirty(slot)) ==> node_at(env_after, PageRef::Dirty(slot))
                == node_at(env, PageRef::Dirty(slot)),
        forall|slot: usize| #[trigger]
            run_owns(other, run, h, PageRef::Dirty(slot)) ==> node_at(
                other_after,
                PageRef::Dirty(slot),
            ) == node_at(other, PageRef::Dirty(slot)),
    ensures
        shared_out(env_after, other_after, r, h, run, key, value),
    decreases h,
{
    reveal(shared_out);
    lemma_owns_root(env, r, h);
    assert(node_at(env_after, r) == node_at(env, r));
    assert(nodes_at(other_after, run) =~= nodes_at(other, run)) by {
        assert forall|i: int| 0 <= i < run.len() implies node_at(other_after, run[i].page)
            == node_at(other, run[i].page) by {
            lemma_owns_root(other, run[i].page, h);
            assert(run_owns(other, run, h, run[i].page));
        }
    }
    let nodes = nodes_at(other, run);
    if let Node::Internal(links) = opened(env, r, h) {
        reveal(subtree);
        let plain = node_at(env, r)->0->Internal_0;
        let below = (h - 1) as nat;
        let (i, inner) = choose|i: int, inner: Seq<Link>| #[trigger]
            grafts(links, key, i, inner, nodes) && shared_out(
                env,
                other,
                links[i].page,
                below,
                inner,
                key,
                value,
            );
        assert forall|k: int, slot: usize|
            0 <= k < plain.len() && #[trigger] owns(
                env,
                plain[k].page,
                below,
                PageRef::Dirty(slot),
            ) implies owns(env, r, h, PageRef::Dirty(slot)) by {
            reveal(owns);
        }
        lemma_run_child(env, plain, below, 0);
        assert forall|p: PageRef| #[trigger] owns(env, plain[0].page, below, p) implies same_at(
            env,
            env_after,
            p,
        ) by {
            if let PageRef::Dirty(slot) = p {
                assert(owns(env, plain[0].page, below, PageRef::Dirty(slot)));
            }
        }
        lemma_tree_kept(env, env_after, plain[0].page, below);
        assert(opened(env_after, r, h) == opened(env, r, h));
        assert(links[i].page == plain[i].page);
        lemma_run_child(env, plain, below, i);
        assert forall|slot: usize| #[trigger]
            run_owns(other, inner, below, PageRef::Dirty(slot)) implies node_at(
            other_after,
            PageRef::Dirty(slot),
        ) == node_at(other, PageRef::Dirty(slot)) by {
            lemma_grafted_owned(other, run, h, links, key, i, inner, PageRef::Dirty(slot));
        }
        lemma_shared_kept(
            env,
            env_after,
            other,
            other_after,
            links[i].page,
            below,
            inner,
            key,
            value,
        );
        assert(grafts(links, key, i, inner, nodes_at(other_after, run)));
    }
}

} // verus!
