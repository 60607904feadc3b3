//! How a tree settles once an entry was removed from it.
use crate::body::joined;
use crate::branch::{
    branching, lemma_branching_edge, lemma_branching_grows, lemma_branching_opened, lone_wide,
    spreading, wide,
};
use crate::graft::{lemma_owns_root, lemma_run_child};
use crate::model::{flat, lemma_tree_kept, node_at, owns, run_owns, same_at, subtree, Env, Pages};
use crate::node::{child_at, is_bare, is_best_split, node_size, Link, Node, PageRef, PAGE_END};
use crate::remove::drops;
use crate::tree::{opened, MutableTree, HALF_PAGE};
use vstd::prelude::*;

verus! {

/// Whether a node is empty or takes up less than half a page.
pub open spec fn lacking(node: Node) -> bool {
    is_bare(node) || node_size(node) < HALF_PAGE
}

/// Whether `m` links take the place of `n` links from `at` on, and the others stay.
pub open spec fn around(links: Seq<Link>, at: int, n: int, after: Seq<Link>, m: int) -> bool {
    &&& after.len() == links.len() - n + m
    &&& after.take(at) == links.take(at)
    &&& after.skip(at + m) == links.skip(at + n)
}

/// Whether no slots but those of the given children have changed.
pub open spec fn keeps_slots(env: Env, other: Env, links: Seq<Link>) -> bool {
    &&& other.pages == env.pages
    &&& other.count == env.count
    &&& other.dirty.len() >= env.dirty.len()
    &&& forall|s: usize|
        s < env.dirty.len() && (forall|k: int|
            0 <= k < links.len() ==> (#[trigger] links[k]).page != PageRef::Dirty(s))
            ==> #[trigger] node_at(other, PageRef::Dirty(s)) == node_at(env, PageRef::Dirty(s))
}

/// Whether two nodes are the halves that a node is most evenly cut into.
pub open spec fn halves(env: Env, node: Node, low: PageRef, high: PageRef) -> bool {
    &&& node_at(env, low) is Some
    &&& node_at(env, high) is Some
    &&& is_best_split(node, node_at(env, low)->0, node_at(env, high)->0)
}

/// The left one of a child that lacks bytes and the neighbour that it is joined with.
pub open spec fn left_of(i: int) -> int {
    if i > 0 {
        i - 1
    } else {
        i
    }
}

/// What two neighbours hold together, when the child at `i` has become `node`.
pub open spec fn pair_of(env: Env, links: Seq<Link>, i: int, h: nat, node: Node) -> Node {
    if i > 0 {
        joined(opened(env, links[i - 1].page, h), node)
    } else {
        joined(node, opened(env, links[1].page, h))
    }
}

/// Whether the children of a node are in balance after the child at `i` has become `node`: if
/// it takes up less than half a page, it is joined with a neighbour, or both are cut anew where
/// they do not fit into a page.
pub open spec fn balanced(
    env: Env,
    other: Env,
    links: Seq<Link>,
    i: int,
    h: nat,
    node: Node,
    after: Seq<Link>,
) -> bool {
    let left = left_of(i);
    let pair = pair_of(env, links, i, h, node);
    if links.len() == 1 || !lacking(node) {
        &&& around(links, i, 1, after, 1)
        &&& node_at(other, after[i].page) == Some(node)
    } else if node_size(pair) <= PAGE_END {
        &&& around(links, left, 2, after, 1)
        &&& node_at(other, after[left].page) == Some(pair)
    } else {
        &&& around(links, left, 2, after, 2)
        &&& halves(other, pair, after[left].page, after[left + 1].page)
    }
}

/// A child that takes up at least half a page, or has no sibling, stays as it is. Any other is
/// joined with a neighbour to one node if both fit into a page, and otherwise what the two hold
/// is shared out between two nodes that fit.
pub proof fn law_small_children_are_joined(
    env: Env,
    other: Env,
    links: Seq<Link>,
    i: int,
    h: nat,
    node: Node,
    after: Seq<Link>,
)
    requires
        balanced(env, other, links, i, h, node, after),
        0 <= i < links.len(),
    ensures
        links.len() == 1 || (!is_bare(node) && node_size(node) >= 2062) ==> after.len()
            == links.len() && node_at(other, after[i].page) == Some(node),
        links.len() > 1 && (is_bare(node) || node_size(node) < 2062) ==> {
            let left = if i > 0 {
                i - 1
            } else {
                0
            };
            let pair = if i > 0 {
                joined(opened(env, links[i - 1].page, h), node)
            } else {
                joined(node, opened(env, links[1].page, h))
            };
            &&& after.len() == links.len() - 1 <==> node_size(pair) <= PAGE_END
            &&& node_size(pair) <= PAGE_END ==> node_at(other, after[left].page) == Some(pair)
            &&& node_size(pair) > PAGE_END ==> after.len() == links.len() && is_best_split(
                pair,
                node_at(other, after[left].page)->0,
                node_at(other, after[left + 1].page)->0,
            )
        },
        forall|k: int|
            0 <= k < links.len() && (k < i - 1 || k > i + 1) ==> exists|j: int|
                0 <= j < after.len() && #[trigger] after[j] == #[trigger] links[k],
{
    assert forall|k: int| 0 <= k < links.len() && (k < i - 1 || k > i + 1) implies exists|j: int|
        0 <= j < after.len() && #[trigger] after[j] == #[trigger] links[k] by {
        let left = left_of(i);
        let (at, n, m) = if links.len() == 1 || !lacking(node) {
            (i, 1int, 1int)
        } else if node_size(pair_of(env, links, i, h, node)) <= PAGE_END {
            (left, 2int, 1int)
        } else {
            (left, 2int, 2int)
        };
        assert(around(links, at, n, after, m));
        if k < at {
            assert(after.take(at)[k] == links.take(at)[k]);
            assert(after[k] == links[k]);
        } else {
            assert(after.skip(at + m)[k - at - n] == links.skip(at + n)[k - at - n]);
            assert(after[k - n + m] == links[k]);
        }
    }
}

/// Whether removing its last entry leaves nothing below an internal node.
pub open spec fn vacated(env: Env, r: PageRef, h: nat) -> bool {
    h > 0 && flat(env, r, h).len() == 1
}

/// Whether the children of a node have settled after the child of a key has become `node`:
/// a child below which nothing is left is taken out if there are others, one that has outgrown
/// its page is cut in two, and any other is balanced with a neighbour.
pub open spec fn settles(
    env: Env,
    other: Env,
    links: Seq<Link>,
    key: Seq<u8>,
    i: int,
    h: nat,
    node: Node,
    after: Seq<Link>,
) -> bool {
    &&& child_at(links, key, i)
    &&& if links.len() > 1 && vacated(env, links[i].page, h) {
        &&& after == links.remove(i)
        &&& forall|k: int|
            0 <= k < after.len() ==> node_at(other, (#[trigger] after[k]).page) == node_at(
                env,
                after[k].page,
            )
    } else if node_size(node) > PAGE_END {
        around(links, i, 1, after, 2) && halves(other, node, after[i].page, after[i + 1].page)
    } else {
        balanced(env, other, links, i, h, node, after)
    }
}

/// Whether removing a key from a tree turns the node at its head into `node`, with every node
/// on the path to the key settled.
#[verifier::opaque]
pub open spec fn turns_into(
    env: Env,
    other: Env,
    r: PageRef,
    h: nat,
    key: Seq<u8>,
    node: Node,
) -> bool
    decreases h,
{
    match opened(env, r, h) {
        Node::Leaf(entries) => node matches Node::Leaf(after) && drops(entries, after, key),
        Node::Internal(links) => h > 0 && node is Internal && exists|i: int, inner: Node| #[trigger]
            settles(
                env,
                other,
                links,
                key,
                i,
                (h - 1) as nat,
                inner,
                node->Internal_0,
            ) && (vacated(env, links[i].page, (h - 1) as nat) || turns_into(
                env,
                other,
                links[i].page,
                (h - 1) as nat,
                key,
                inner,
            )),
    }
}

/// The root and the height that are left once roots in memory with a single child have given
/// way to the child.
pub open spec fn shed(env: Env, r: PageRef, h: nat) -> (PageRef, nat)
    decreases h,
{
    match node_at(env, r) {
        Some(Node::Internal(links)) => if r is Dirty && links.len() == 1 && h > 0 {
            shed(env, links[0].page, (h - 1) as nat)
        } else {
            (r, h)
        },
        _ => (r, h),
    }
}

/// Whether a node in memory gives way to the root of a tree.
pub open spec fn gives_way(
    env: Env,
    page: PageRef,
    h: nat,
    node: Node,
    root: PageRef,
    top: nat,
) -> bool {
    &&& page is Dirty
    &&& node_at(env, page) == Some(node)
    &&& shed(env, page, h) == (root, top)
}

/// Whether a tree has its root where the node at its head has become `node`: one that has
/// outgrown its page is cut in two under a new root, and one with a single child gives way to
/// the child.
pub open spec fn rerooted(env: Env, node: Node, h: nat, root: PageRef, top: nat) -> bool {
    if node_size(node) > PAGE_END {
        &&& top == h + 1
        &&& node_at(env, root) matches Some(Node::Internal(links))
        &&& links.len() == 2
        &&& halves(env, node, links[0].page, links[1].page)
    } else {
        exists|page: PageRef| #[trigger] gives_way(env, page, h, node, root, top)
    }
}

/// A node opens to the same where what lies below it is kept.
pub proof fn lemma_opened_kept(env: Env, other: Env, r: PageRef, h: nat)
    requires
        subtree(env, r, h),
        other.pages == env.pages,
        other.count == env.count,
        forall|slot: usize| #[trigger]
            owns(env, r, h, PageRef::Dirty(slot)) ==> node_at(other, PageRef::Dirty(slot))
                == node_at(env, PageRef::Dirty(slot)),
    ensures
        opened(other, r, h) == opened(env, r, h),
        node_at(other, r) == node_at(env, r),
        flat(other, r, h) == flat(env, r, h),
{
    lemma_owns_root(env, r, h);
    assert forall|p: PageRef| #[trigger] owns(env, r, h, p) implies same_at(env, other, p) by {
        if let PageRef::Dirty(slot) = p {
            assert(owns(env, r, h, PageRef::Dirty(slot)));
        }
    }
    lemma_tree_kept(env, other, r, h);
    if let Node::Internal(links) = node_at(env, r)->0 {
        reveal(subtree);
        let below = (h - 1) as nat;
        lemma_run_child(env, links, below, 0);
        assert forall|p: PageRef| #[trigger] owns(env, links[0].page, below, p) implies same_at(
            env,
            other,
            p,
        ) by {
            assert(owns(env, r, h, p)) by {
                reveal(owns);
            }
        }
        lemma_tree_kept(env, other, links[0].page, below);
    }
}

/// What lies below a child that has become `node` lies below the settled children.
proof fn lemma_inner_owned(
    env: Env,
    other: Env,
    links: Seq<Link>,
    key: Seq<u8>,
    i: int,
    h: nat,
    node: Node,
    after: Seq<Link>,
    p: PageRef,
)
    requires
        h > 0,
        forall|k: int| 0 <= k < links.len() ==> subtree(env, (#[trigger] links[k]).page, h),
        settles(env, other, links, key, i, h, node, after),
        !(links.len() > 1 && vacated(env, links[i].page, h)),
        node matches Node::Internal(inner) && run_owns(other, inner, (h - 1) as nat, p),
    ensures
        run_owns(other, after, h, p),
{
    let inner = node->Internal_0;
    let below = (h - 1) as nat;
    let k = choose|k: int| 0 <= k < inner.len() && owns(other, (#[trigger] inner[k]).page, below, p);
    if node_size(node) > PAGE_END {
        lemma_half_owned(other, node, after[i].page, after[i + 1].page, h, k, p);
    } else if links.len() == 1 || !lacking(node) {
        assert(owns(other, after[i].page, h, p)) by {
            reveal(owns);
        }
    } else {
        let left = left_of(i);
        let pair = pair_of(env, links, i, h, node);
        let other_side = if i > 0 {
            opened(env, links[i - 1].page, h)
        } else {
            opened(env, links[1].page, h)
        };
        if let Node::Internal(beside) = other_side {
            let at = if i > 0 {
                beside.len() + k
            } else {
                k
            };
            let all = pair->Internal_0;
            assert(all[at] == inner[k]);
            if node_size(pair) <= PAGE_END {
                assert(owns(other, after[left].page, h, p)) by {
                    reveal(owns);
                    assert(owns(other, all[at].page, below, p));
                }
            } else {
                lemma_half_owned(other, pair, after[left].page, after[left + 1].page, h, at, p);
            }
        } else {
            reveal(subtree);
            let j = if i > 0 {
                i - 1
            } else {
                1
            };
            assert(subtree(env, links[j].page, h));
        }
    }
}

/// How a tree has settled does not depend on nodes outside it and what it has become.
#[verifier::rlimit(60)]
#[verifier::spinoff_prover]
pub proof fn lemma_turns_kept(
    env: Env,
    env_after: Env,
    other: Env,
    other_after: Env,
    r: PageRef,
    h: nat,
    key: Seq<u8>,
    node: Node,
)
    requires
        turns_into(env, other, r, h, key, node),
        subtree(env, r, h),
        env_after.pages == env.pages,
        env_after.count == env.count,
        other_after.pages == other.pages,
        other_after.count == other.count,
        forall|slot: usize| #[trigger]
            owns(env, r, h, PageRef::Dirty(slot)) ==> node_at(env_after, PageRef::Dirty(slot))
                == node_at(env, PageRef::Dirty(slot)),
        node matches Node::Internal(after) ==> forall|slot: usize| #[trigger]
            run_owns(other, after, (h - 1) as nat, PageRef::Dirty(slot)) ==> node_at(
                other_after,
                PageRef::Dirty(slot),
            ) == node_at(other, PageRef::Dirty(slot)),
    ensures
        turns_into(env_after, other_after, r, h, key, node),
    decreases h,
{
    reveal(turns_into);
    lemma_opened_kept(env, env_after, r, h);
    if let Node::Internal(links) = opened(env, r, h) {
        reveal(subtree);
        let plain = node_at(env, r)->0->Internal_0;
        let below = (h - 1) as nat;
        let after = node->Internal_0;
        let (i, inner) = choose|i: int, inner: Node| #[trigger]
            settles(env, other, links, key, i, below, inner, after) && (vacated(
                env,
                links[i].page,
                below,
            ) || turns_into(env, other, links[i].page, below, key, inner));
        assert forall|k: int| 0 <= k < links.len() implies subtree(
            env,
            (#[trigger] links[k]).page,
            below,
        ) && opened(env_after, links[k].page, below) == opened(env, links[k].page, below) && flat(
            env_after,
            links[k].page,
            below,
        ) == flat(env, links[k].page, below) && node_at(env_after, links[k].page) == node_at(
            env,
            links[k].page,
        ) by {
            assert(links[k].page == plain[k].page);
            lemma_run_child(env, plain, below, k);
            assert forall|slot: usize| #[trigger]
                owns(env, links[k].page, below, PageRef::Dirty(slot)) implies node_at(
                env_after,
                PageRef::Dirty(slot),
            ) == node_at(env, PageRef::Dirty(slot)) by {
                assert(owns(env, r, h, PageRef::Dirty(slot))) by {
                    reveal(owns);
                }
            }
            lemma_opened_kept(env, env_after, links[k].page, below);
        }
        assert forall|k: int| 0 <= k < after.len() implies node_at(
            other_after,
            (#[trigger] after[k]).page,
        ) == node_at(other, after[k].page) by {
            lemma_owns_root(other, after[k].page, below);
            assert(run_owns(other, after, below, after[k].page));
        }
        assert(settles(env_after, other_after, links, key, i, below, inner, after));
        if !vacated(env, links[i].page, below) {
            assert forall|slot: usize| #[trigger]
                owns(env, links[i].page, below, PageRef::Dirty(slot)) implies node_at(
                env_after,
                PageRef::Dirty(slot),
            ) == node_at(env, PageRef::Dirty(slot)) by {
                assert(links[i].page == plain[i].page);
                assert(owns(env, r, h, PageRef::Dirty(slot))) by {
                    reveal(owns);
                }
            }
            if let Node::Internal(children) = inner {
                assert forall|slot: usize| #[trigger]
                    run_owns(other, children, (below - 1) as nat, PageRef::Dirty(slot)) implies
                    node_at(other_after, PageRef::Dirty(slot)) == node_at(
                    other,
                    PageRef::Dirty(slot),
                ) by {
                    if below > 0 {
                        lemma_inner_owned(
                            env,
                            other,
                            links,
                            key,
                            i,
                            below,
                            inner,
                            after,
                            PageRef::Dirty(slot),
                        );
                    }
                }
            }
            lemma_turns_kept(
                env,
                env_after,
                other,
                other_after,
                links[i].page,
                below,
                key,
                inner,
            );
        }
    }
}

/// Whether a tree has become another by removing a key: the nodes on the path to the key have
/// settled, and what its root has turned into, or what that gave way to, is the root.
pub open spec fn gave_up(
    before: MutableTree,
    after: MutableTree,
    pages: Pages,
    key: Seq<u8>,
) -> bool {
    exists|node: Node| #[trigger]
        turns_into(
            before.env(pages),
            after.env(pages),
            before.root,
            before.height@,
            key,
            node,
        ) && rerooted(after.env(pages), node, before.height@, after.root, after.height@)
}

/// What a tree has turned into is at its height, and an internal node has children.
proof fn lemma_turned_filled(env: Env, other: Env, r: PageRef, h: nat, key: Seq<u8>, node: Node)
    requires
        subtree(env, r, h),
        turns_into(env, other, r, h, key, node),
    ensures
        node is Internal == (h > 0),
        node matches Node::Internal(links) ==> links.len() > 0,
{
    reveal(turns_into);
    reveal(subtree);
    if let Node::Internal(links) = opened(env, r, h) {
        let below = (h - 1) as nat;
        let after = node->Internal_0;
        let (i, inner) = choose|i: int, inner: Node| #[trigger]
            settles(env, other, links, key, i, below, inner, after) && (vacated(
                env,
                links[i].page,
                below,
            ) || turns_into(env, other, links[i].page, below, key, inner));
        assert(settles(env, other, links, key, i, below, inner, after));
        assert(links.len() == (node_at(env, r)->0)->Internal_0.len());
    }
}

/// A tree that spreads turns into a node whose only child, if it has no other, has several
/// children or is a leaf.
pub proof fn lemma_lone_wide(env: Env, other: Env, r: PageRef, h: nat, key: Seq<u8>, node: Node)
    requires
        subtree(env, r, h),
        spreading(env, r, h),
        turns_into(env, other, r, h, key, node),
    ensures
        lone_wide(other, node),
{
    reveal(turns_into);
    lemma_branching_opened(env, r, h, true);
    if let Node::Internal(links) = opened(env, r, h) {
        let below = (h - 1) as nat;
        let after = node->Internal_0;
        let (i, inner) = choose|i: int, inner: Node| #[trigger]
            settles(env, other, links, key, i, below, inner, after) && (vacated(
                env,
                links[i].page,
                below,
            ) || turns_into(env, other, links[i].page, below, key, inner));
        assert(settles(env, other, links, key, i, below, inner, after));
        assert forall|k: int| 0 <= k < links.len() implies subtree(
            env,
            (#[trigger] links[k]).page,
            below,
        ) && flat(env, links[k].page, below).len() > 0 by {
            reveal(subtree);
            let plain = node_at(env, r)->0->Internal_0;
            assert(links[k].page == plain[k].page);
            lemma_run_child(env, plain, below, k);
        }
        assert(links.len() > 1);
        if after.len() == 1 {
            assert(branching(env, links[0].page, below, true && 0 == links.len() - 1));
            if vacated(env, links[i].page, below) {
                assert(links.len() == 2);
                if i == 0 {
                    lemma_branching_grows(env, links[0].page, below);
                    vstd::arithmetic::power2::lemma_pow2_unfold(below);
                    vstd::arithmetic::power2::lemma_pow2_pos((below - 1) as nat);
                } else {
                    assert(after[0] == links[0]);
                    lemma_branching_edge(env, links[0].page, below, false);
                }
            } else {
                lemma_turned_filled(env, other, links[i].page, below, key, inner);
                let beside = if i > 0 {
                    i - 1
                } else {
                    1
                };
                assert(subtree(env, links[beside].page, below));
                assert(opened(env, links[beside].page, below) is Internal == (below > 0) && (
                opened(env, links[beside].page, below) matches Node::Internal(inside)
                    ==> inside.len() > 0)) by {
                    reveal(subtree);
                }
                assert(wide(pair_of(env, links, i, below, inner), false));
            }
        }
    }
}

/// What lies below a child of a node lies below one of its halves.
proof fn lemma_half_owned(
    env: Env,
    node: Node,
    low: PageRef,
    high: PageRef,
    h: nat,
    k: int,
    p: PageRef,
)
    requires
        h > 0,
        halves(env, node, low, high),
        node matches Node::Internal(links) && 0 <= k < links.len() && owns(
            env,
            links[k].page,
            (h - 1) as nat,
            p,
        ),
    ensures
        owns(env, low, h, p) || owns(env, high, h, p),
{
    let links = node->Internal_0;
    let split = choose|split: int| #[trigger]
        crate::node::best_internal_split_at(links, split) && node_at(env, low)->0
            == Node::Internal(links.take(split)) && node_at(env, high)->0 == Node::Internal(
            links.skip(split),
        );
    reveal(owns);
    if k < split {
        assert(links.take(split)[k] == links[k]);
    } else {
        assert(links.skip(split)[k - split] == links[k]);
    }
}

} // verus!
