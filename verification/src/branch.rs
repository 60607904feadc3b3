//! Trees whose internal nodes have several children, but for nodes on the right edge.
use crate::graft::lemma_run_child;
use crate::model::{
    agree_on, flat, lemma_flat_all_one, lemma_flat_all_split, node_at, owns, run_owns, same_at,
    subtree, Env,
};
use crate::node::{Link, Node, PageRef};
use crate::reader::MAX_DEPTH;
use crate::tree::opened;
use vstd::arithmetic::power2::pow2;
use vstd::prelude::*;

verus! {

/// Whether every internal node of the tree below `r`, its root included, has at least
/// two children, or at least one if `edge` is set and the node is on the right edge.
#[verifier::opaque]
pub open spec fn branching(env: Env, r: PageRef, h: nat, edge: bool) -> bool
    decreases h,
{
    match node_at(env, r) {
        Some(Node::Leaf(_)) => true,
        Some(Node::Internal(links)) => h > 0 && (links.len() > 1 || (edge && links.len() > 0))
            && forall|i: int|
            0 <= i < links.len() ==> branching(
                env,
                (#[trigger] links[i]).page,
                (h - 1) as nat,
                edge && i == links.len() - 1,
            ),
        None => false,
    }
}

/// Whether the trees below a run of children branch, the last of them but for its right edge
/// if `edge` is set.
pub open spec fn branching_run(env: Env, links: Seq<Link>, h: nat, edge: bool) -> bool {
    forall|i: int|
        0 <= i < links.len() ==> branching(
            env,
            (#[trigger] links[i]).page,
            h,
            edge && i == links.len() - 1,
        )
}

/// Whether the trees below a node of a given height branch, however many they are.
pub open spec fn branching_body(env: Env, node: Node, h: nat, edge: bool) -> bool {
    match node {
        Node::Leaf(_) => true,
        Node::Internal(links) => branching_run(env, links, (h - 1) as nat, edge),
    }
}

/// Whether a node is a leaf or has at least two children, or at least one if `edge` is set.
pub open spec fn wide(node: Node, edge: bool) -> bool {
    node matches Node::Internal(links) ==> links.len() > 1 || (edge && links.len() > 0)
}

/// Whether a tree branches but for its right edge, and its root has at least two children or
/// is a leaf.
pub open spec fn spreading(env: Env, r: PageRef, h: nat) -> bool {
    &&& branching(env, r, h, true)
    &&& node_at(env, r) matches Some(node) && wide(node, false)
}

/// Whether a run that is a single node has at least two children there, or is a leaf.
pub open spec fn stays_wide(env: Env, run: Seq<Link>) -> bool {
    run.len() == 1 ==> (node_at(env, run[0].page) matches Some(node) && wide(node, false))
}

/// Whether the only child of a node, if it has no other, has at least two children or is a
/// leaf.
pub open spec fn lone_wide(env: Env, node: Node) -> bool {
    node matches Node::Internal(links) ==> stays_wide(env, links)
}

/// A tree that branches everywhere branches off the right edge.
pub proof fn lemma_branching_edge(env: Env, r: PageRef, h: nat, edge: bool)
    requires
        branching(env, r, h, false),
    ensures
        branching(env, r, h, edge),
        node_at(env, r) matches Some(node) && wide(node, false),
    decreases h,
{
    reveal(branching);
    if let Some(Node::Internal(links)) = node_at(env, r) {
        let below = (h - 1) as nat;
        assert forall|i: int| 0 <= i < links.len() implies branching(
            env,
            (#[trigger] links[i]).page,
            below,
            edge && i == links.len() - 1,
        ) by {
            lemma_branching_edge(env, links[i].page, below, edge && i == links.len() - 1);
        }
    }
}

/// Trees that branch everywhere branch off the right edge.
pub proof fn lemma_branching_run_edge(env: Env, links: Seq<Link>, h: nat, edge: bool)
    requires
        branching_run(env, links, h, false),
    ensures
        branching_run(env, links, h, edge),
{
    assert forall|i: int| 0 <= i < links.len() implies branching(
        env,
        (#[trigger] links[i]).page,
        h,
        edge && i == links.len() - 1,
    ) by {
        lemma_branching_edge(env, links[i].page, h, edge && i == links.len() - 1);
    }
}

/// Branching does not depend on nodes outside the tree.
pub proof fn lemma_branching_kept(env: Env, other: Env, r: PageRef, h: nat, edge: bool)
    requires
        branching(env, r, h, edge),
        other.pages == env.pages,
        other.count == env.count,
        forall|slot: usize| #[trigger]
            owns(env, r, h, PageRef::Dirty(slot)) ==> node_at(other, PageRef::Dirty(slot))
                == node_at(env, PageRef::Dirty(slot)),
    ensures
        branching(other, r, h, edge),
    decreases h,
{
    reveal(branching);
    crate::graft::lemma_owns_root(env, r, h);
    assert(node_at(other, r) == node_at(env, r));
    if let Some(Node::Internal(links)) = node_at(env, r) {
        let below = (h - 1) as nat;
        assert forall|i: int| 0 <= i < links.len() implies branching(
            other,
            (#[trigger] links[i]).page,
            below,
            edge && i == links.len() - 1,
        ) by {
            assert forall|slot: usize| #[trigger]
                owns(env, links[i].page, below, PageRef::Dirty(slot)) implies node_at(
                other,
                PageRef::Dirty(slot),
            ) == node_at(env, PageRef::Dirty(slot)) by {
                reveal(owns);
                assert(owns(env, r, h, PageRef::Dirty(slot)));
            }
            lemma_branching_kept(
                env,
                other,
                links[i].page,
                below,
                edge && i == links.len() - 1,
            );
        }
    }
}

/// A tree branches in an environment that agrees on what it owns.
pub proof fn lemma_branching_agrees(env: Env, other: Env, r: PageRef, h: nat, edge: bool)
    requires
        branching(env, r, h, edge),
        agree_on(env, other, r, h),
        env.count <= other.count,
    ensures
        branching(other, r, h, edge),
    decreases h,
{
    reveal(branching);
    crate::graft::lemma_owns_root(env, r, h);
    crate::model::lemma_node_kept(env, other, r);
    if let Some(Node::Internal(links)) = node_at(env, r) {
        let below = (h - 1) as nat;
        assert forall|i: int| 0 <= i < links.len() implies branching(
            other,
            (#[trigger] links[i]).page,
            below,
            edge && i == links.len() - 1,
        ) by {
            assert forall|p: PageRef| #[trigger] owns(env, links[i].page, below, p) implies same_at(
                env,
                other,
                p,
            ) by {
                reveal(owns);
                assert(owns(env, r, h, p));
            }
            lemma_branching_agrees(
                env,
                other,
                links[i].page,
                below,
                edge && i == links.len() - 1,
            );
        }
    }
}

/// Branching below a run does not depend on nodes outside it.
pub proof fn lemma_branching_run_kept(
    env: Env,
    other: Env,
    links: Seq<Link>,
    h: nat,
    edge: bool,
)
    requires
        branching_run(env, links, h, edge),
        other.pages == env.pages,
        other.count == env.count,
        forall|slot: usize| #[trigger]
            run_owns(env, links, h, PageRef::Dirty(slot)) ==> node_at(other, PageRef::Dirty(slot))
                == node_at(env, PageRef::Dirty(slot)),
    ensures
        branching_run(other, links, h, edge),
{
    assert forall|i: int| 0 <= i < links.len() implies branching(
        other,
        (#[trigger] links[i]).page,
        h,
        edge && i == links.len() - 1,
    ) by {
        assert forall|slot: usize| #[trigger]
            owns(env, links[i].page, h, PageRef::Dirty(slot)) implies node_at(
            other,
            PageRef::Dirty(slot),
        ) == node_at(env, PageRef::Dirty(slot)) by {
            assert(run_owns(env, links, h, PageRef::Dirty(slot)));
        }
        lemma_branching_kept(env, other, links[i].page, h, edge && i == links.len() - 1);
    }
}

/// A copied node branches where the tree that it heads does.
pub proof fn lemma_branching_opened(env: Env, r: PageRef, h: nat, edge: bool)
    requires
        subtree(env, r, h),
    ensures
        branching(env, r, h, edge) == (branching_body(env, opened(env, r, h), h, edge) && wide(
            opened(env, r, h),
            edge,
        )),
        forall|e: bool| #[trigger] wide(opened(env, r, h), e) == wide(node_at(env, r)->0, e),
        node_at(env, r) is Some,
{
    reveal(branching);
    reveal(subtree);
    if let Node::Internal(links) = node_at(env, r)->0 {
        let copied = opened(env, r, h)->Internal_0;
        assert(copied.len() == links.len());
        assert(forall|k: int| 0 <= k < links.len() ==> copied[k].page == links[k].page);
        if branching(env, r, h, edge) {
            assert forall|k: int| 0 <= k < copied.len() implies branching(
                env,
                (#[trigger] copied[k]).page,
                (h - 1) as nat,
                edge && k == copied.len() - 1,
            ) by {
                assert(branching(
                    env,
                    links[k].page,
                    (h - 1) as nat,
                    edge && k == links.len() - 1,
                ));
            }
        }
        if branching_body(env, opened(env, r, h), h, edge) {
            assert forall|k: int| 0 <= k < links.len() implies branching(
                env,
                (#[trigger] links[k]).page,
                (h - 1) as nat,
                edge && k == links.len() - 1,
            ) by {
                assert(branching(
                    env,
                    copied[k].page,
                    (h - 1) as nat,
                    edge && k == copied.len() - 1,
                ));
            }
        }
    }
}

/// A node in memory branches where its children do and it has several.
pub proof fn lemma_branching_built(env: Env, r: PageRef, node: Node, h: nat, edge: bool)
    requires
        node_at(env, r) == Some(node),
        node is Internal ==> h > 0,
    ensures
        branching(env, r, h, edge) == (branching_body(env, node, h, edge) && wide(node, edge)),
{
    reveal(branching);
}

/// A tree without entries spreads, being a leaf.
pub proof fn lemma_spreading_empty(env: Env, r: PageRef, h: nat)
    requires
        subtree(env, r, h),
        flat(env, r, h).len() == 0,
    ensures
        spreading(env, r, h),
{
    crate::body::lemma_opened_body(env, r, h);
    lemma_branching_opened(env, r, h, true);
}

/// A tree spreads in an environment that agrees on what it owns.
pub proof fn lemma_spreading_agrees(env: Env, other: Env, r: PageRef, h: nat)
    requires
        spreading(env, r, h),
        agree_on(env, other, r, h),
        env.count <= other.count,
    ensures
        spreading(other, r, h),
{
    lemma_branching_agrees(env, other, r, h, true);
    crate::graft::lemma_owns_root(env, r, h);
    crate::model::lemma_node_kept(env, other, r);
}

/// A tree that branches doubles its entries with every level.
pub proof fn lemma_branching_grows(env: Env, r: PageRef, h: nat)
    requires
        subtree(env, r, h),
        branching(env, r, h, false),
        flat(env, r, h).len() > 0,
    ensures
        flat(env, r, h).len() >= pow2(h),
    decreases h,
{
    reveal(branching);
    reveal(subtree);
    if h == 0 {
        vstd::arithmetic::power2::lemma2_to64();
    } else {
        let links = node_at(env, r)->0->Internal_0;
        let below = (h - 1) as nat;
        lemma_run_child(env, links, below, 0);
        lemma_run_child(env, links, below, 1);
        assert(branching(env, links[0].page, below, false));
        assert(branching(env, links[1].page, below, false));
        lemma_branching_grows(env, links[0].page, below);
        lemma_branching_grows(env, links[1].page, below);
        lemma_flat_all_split(env, links, below, 1);
        assert(links.take(1) =~= seq![links[0]]);
        lemma_flat_all_one(env, links[0], below);
        vstd::arithmetic::power2::lemma_pow2_unfold(h);
    }
}

/// A tree that spreads is below the depth limit as long as it holds no more than two to the
/// power of sixty-three entries.
pub proof fn law_spreading_is_shallow(env: Env, r: PageRef, h: nat)
    requires
        subtree(env, r, h),
        spreading(env, r, h),
        flat(env, r, h).len() <= 0x8000_0000_0000_0000,
    ensures
        h < MAX_DEPTH,
{
    reveal(subtree);
    reveal(branching);
    if flat(env, r, h).len() == 0 {
        crate::body::lemma_opened_body(env, r, h);
    } else if h > 0 {
        let links = node_at(env, r)->0->Internal_0;
        let below = (h - 1) as nat;
        lemma_run_child(env, links, below, 0);
        lemma_run_child(env, links, below, 1);
        assert(branching(env, links[0].page, below, false));
        lemma_branching_grows(env, links[0].page, below);
        lemma_flat_all_split(env, links, below, 1);
        assert(links.take(1) =~= seq![links[0]]);
        lemma_flat_all_one(env, links[0], below);
        if below >= 63 {
            vstd::arithmetic::power2::lemma2_to64_rest();
            if below > 63 {
                vstd::arithmetic::power2::lemma_pow2_strictly_increases(63, below);
            }
        }
    }
}

/// Leaves branch.
pub proof fn lemma_branching_leaves(env: Env, run: Seq<Link>, h: nat)
    requires
        forall|i: int|
            0 <= i < run.len() ==> node_at(env, (#[trigger] run[i]).page) matches Some(
                Node::Leaf(_),
            ),
    ensures
        forall|edge: bool| #[trigger] branching_run(env, run, h, edge),
        stays_wide(env, run),
{
    reveal(branching);
}

/// Runs that branch, one after the other: only the last one has the right edge.
pub proof fn lemma_branching_add(env: Env, a: Seq<Link>, b: Seq<Link>, h: nat, edge: bool)
    ensures
        branching_run(env, a + b, h, edge) == (branching_run(env, a, h, edge && b.len() == 0)
            && branching_run(env, b, h, edge)),
{
    let all = a + b;
    assert(forall|i: int| 0 <= i < a.len() ==> all[i] == a[i]);
    assert(forall|i: int| 0 <= i < b.len() ==> all[a.len() + i] == b[i]);
    if branching_run(env, all, h, edge) {
        assert forall|i: int| 0 <= i < a.len() implies branching(
            env,
            (#[trigger] a[i]).page,
            h,
            edge && b.len() == 0 && i == a.len() - 1,
        ) by {
            assert(branching(env, all[i].page, h, edge && i == all.len() - 1));
        }
        assert forall|i: int| 0 <= i < b.len() implies branching(
            env,
            (#[trigger] b[i]).page,
            h,
            edge && i == b.len() - 1,
        ) by {
            assert(branching(env, all[a.len() + i].page, h, edge && a.len() + i == all.len() - 1));
        }
    }
    if branching_run(env, a, h, edge && b.len() == 0) && branching_run(env, b, h, edge) {
        assert forall|i: int| 0 <= i < all.len() implies branching(
            env,
            (#[trigger] all[i]).page,
            h,
            edge && i == all.len() - 1,
        ) by {
            if i < a.len() {
                assert(branching(
                    env,
                    a[i].page,
                    h,
                    edge && b.len() == 0 && i == a.len() - 1,
                ));
            } else {
                assert(branching(env, b[i - a.len()].page, h, edge && i - a.len() == b.len() - 1));
            }
        }
    }
}

} // verus!
