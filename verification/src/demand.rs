//! How many pages a transaction needs, and by how many a commit makes the file grow.
use crate::db::Database;
use crate::finish::{chunk_total, entry_chunks, leaf_chunks, page_demand, rank};
use crate::free::{ceil, level_sum, Layout, INTERNAL_FANOUT, LEAF_CAPACITY};
use crate::graft::{lemma_owned_slots, lemma_run_child, lemma_run_cut, upserts, upserts_at};
use crate::io::Storage;
use crate::model::{node_at, owns, run_ok, run_owns, subtree, Env, Pages};
use crate::node::{
    best_internal_split_at, best_leaf_split_at, internal_size, leaf_size, leaf_split_fits, Entry,
    Link, Node, PageRef, Stored, PAGE_END,
};
use crate::plan::{
    growth, lemma_plan_growth, lemma_user_left, lemma_with_new_pages, lemma_with_pages, live_slots,
    plan_facts, user_demand, with_pages, CommitPlan,
};
use crate::publish::lemma_committed_owns;
use crate::share::{
    all_dirty, crowned, grafts, nodes_at, shared_internal, shared_leaf, shared_out, took_in,
};
use crate::tree::{opened, MutableTree};
use vstd::prelude::*;

verus! {

/// A page for each node in memory below `r`, and as many for the values of its leaves that have
/// no chain yet as they fill.
pub open spec fn memory_pages(env: Env, r: PageRef, h: nat) -> nat
    decreases h, 0nat,
{
    match (r, node_at(env, r)) {
        (PageRef::Dirty(_), Some(Node::Leaf(entries))) => 1 + leaf_chunks(
            entries,
            entries.len() as int,
        ),
        (PageRef::Dirty(_), Some(Node::Internal(links))) => if h > 0 {
            1 + memory_pages_all(env, links, (h - 1) as nat)
        } else {
            1
        },
        _ => 0,
    }
}

/// What the trees below a run of children need together.
pub open spec fn memory_pages_all(env: Env, links: Seq<Link>, h: nat) -> nat
    decreases h, links.len(),
{
    if links.len() == 0 {
        0
    } else {
        memory_pages_all(env, links.drop_last(), h) + memory_pages(env, links.last().page, h)
    }
}

/// The slots that belong to the tree below `r`.
spec fn slots_of(env: Env, r: PageRef, h: nat) -> Seq<bool> {
    Seq::new(env.dirty.len(), |slot: int| owns(env, r, h, PageRef::Dirty(slot as usize)))
}

/// The slots that belong to the trees below a run of children.
spec fn run_slots(env: Env, links: Seq<Link>, h: nat) -> Seq<bool> {
    Seq::new(env.dirty.len(), |slot: int| run_owns(env, links, h, PageRef::Dirty(slot as usize)))
}

/// Slots that are marked apart are counted apart.
proof fn lemma_demand_split(
    dirty: Seq<Option<Node>>,
    a: Seq<bool>,
    b: Seq<bool>,
    both: Seq<bool>,
    n: int,
)
    requires
        0 <= n <= both.len(),
        a.len() == both.len(),
        b.len() == both.len(),
        forall|i: int|
            0 <= i < both.len() ==> (#[trigger] both[i]) == (a[i] || b[i]) && !(a[i] && b[i]),
    ensures
        rank(both, n) == rank(a, n) + rank(b, n),
        chunk_total(dirty, both, n) == chunk_total(dirty, a, n) + chunk_total(dirty, b, n),
    decreases n,
{
    if n > 0 {
        lemma_demand_split(dirty, a, b, both, n - 1);
        assert(both[n - 1] == (a[n - 1] || b[n - 1]));
    }
}

/// No marked slot needs nothing.
proof fn lemma_demand_none(dirty: Seq<Option<Node>>, marks: Seq<bool>, n: int)
    requires
        0 <= n <= marks.len(),
        forall|i: int| 0 <= i < n ==> !#[trigger] marks[i],
    ensures
        rank(marks, n) == 0,
        chunk_total(dirty, marks, n) == 0,
    decreases n,
{
    if n > 0 {
        lemma_demand_none(dirty, marks, n - 1);
    }
}

/// One marked slot needs a page and those of its values.
proof fn lemma_demand_one(dirty: Seq<Option<Node>>, marks: Seq<bool>, slot: int, n: int)
    requires
        0 <= slot < n <= marks.len(),
        forall|i: int| 0 <= i < marks.len() ==> #[trigger] marks[i] == (i == slot),
    ensures
        rank(marks, n) == 1,
        chunk_total(dirty, marks, n) == crate::finish::slot_chunks(dirty[slot]),
    decreases n,
{
    if n - 1 == slot {
        lemma_demand_none(dirty, marks, n - 1);
    } else {
        lemma_demand_one(dirty, marks, slot, n - 1);
    }
}

/// The slots of a tree need what its nodes in memory need.
proof fn lemma_memory_pages(env: Env, r: PageRef, h: nat)
    requires
        subtree(env, r, h),
        env.dirty.len() <= usize::MAX,
    ensures
        page_demand(env.dirty, slots_of(env, r, h)) == memory_pages(env, r, h),
    decreases h, 0nat,
{
    let marks = slots_of(env, r, h);
    let n = env.dirty.len() as int;
    match r {
        PageRef::Committed(id) => {
            assert forall|i: int| 0 <= i < n implies !#[trigger] marks[i] by {
                if marks[i] {
                    lemma_committed_owns(env, id, h, PageRef::Dirty(i as usize));
                }
            }
            lemma_demand_none(env.dirty, marks, n);
        },
        PageRef::Dirty(slot) => {
            reveal(subtree);
            crate::graft::lemma_owns_root(env, r, h);
            lemma_owned_slots(env, r, h, r);
            let own = Seq::new(env.dirty.len(), |i: int| i == slot as int);
            lemma_demand_one(env.dirty, own, slot as int, n);
            match node_at(env, r)->0 {
                Node::Leaf(entries) => {
                    assert(marks =~= own) by {
                        reveal(owns);
                    }
                },
                Node::Internal(links) => {
                    let below = (h - 1) as nat;
                    let rest = run_slots(env, links, below);
                    assert forall|i: int| 0 <= i < n implies (#[trigger] marks[i]) == (own[i]
                        || rest[i]) && !(own[i] && rest[i]) by {
                        reveal(owns);
                    }
                    lemma_demand_split(env.dirty, own, rest, marks, n);
                    lemma_memory_run(env, links, below);
                },
            }
        },
    }
}

/// The slots of a run of trees need what their nodes in memory need.
proof fn lemma_memory_run(env: Env, links: Seq<Link>, h: nat)
    requires
        run_ok(env, links, h),
        env.dirty.len() <= usize::MAX,
    ensures
        page_demand(env.dirty, run_slots(env, links, h)) == memory_pages_all(env, links, h),
    decreases h, links.len() + 1,
{
    let marks = run_slots(env, links, h);
    let n = env.dirty.len() as int;
    if links.len() == 0 {
        lemma_demand_none(env.dirty, marks, n);
    } else {
        let last = links.len() - 1;
        let a = links.take(last);
        let r = links[last].page;
        lemma_run_cut(env, links, h, last);
        lemma_run_child(env, links, h, last);
        assert(a =~= links.drop_last());
        lemma_memory_run(env, a, h);
        lemma_memory_pages(env, r, h);
        let first = run_slots(env, a, h);
        let second = slots_of(env, r, h);
        assert forall|i: int| 0 <= i < n implies (#[trigger] marks[i]) == (first[i] || second[i])
            && !(first[i] && second[i]) by {
            let p = PageRef::Dirty(i as usize);
            assert(run_owns(env, links.skip(last), h, p) == owns(env, r, h, p)) by {
                let b = links.skip(last);
                assert(b.len() == 1 && b[0] == links[last]);
                if owns(env, r, h, p) {
                    assert(owns(env, b[0].page, h, p));
                }
            }
            assert(run_owns(env, links, h, p) == (run_owns(env, a, h, p) || run_owns(
                env,
                links.skip(last),
                h,
                p,
            )));
            assert(!(run_owns(env, a, h, p) && run_owns(env, links.skip(last), h, p)));
        }
        lemma_demand_split(env.dirty, first, second, marks, n);
    }
}

/// A transaction takes a page for each node of its tree that is in memory, and for each new
/// value as many as it fills.
pub proof fn law_demand(tree: MutableTree, pages: Pages)
    requires
        tree.sound(pages),
    ensures
        user_demand(tree, pages) == memory_pages(tree.env(pages), tree.root, tree.height@),
{
    let env = tree.env(pages);
    assert(tree.dirty@.len() == tree.dirty.len());
    lemma_memory_pages(env, tree.root, tree.height@);
    assert(live_slots(tree, pages) =~= slots_of(env, tree.root, tree.height@));
}

/// What runs of children need together is what each needs.
proof fn lemma_memory_add(env: Env, a: Seq<Link>, b: Seq<Link>, h: nat)
    ensures
        memory_pages_all(env, a + b, h) == memory_pages_all(env, a, h) + memory_pages_all(
            env,
            b,
            h,
        ),
    decreases b.len(),
{
    if b.len() == 0 {
        assert(a + b =~= a);
    } else {
        assert((a + b).drop_last() =~= a + b.drop_last());
        lemma_memory_add(env, a, b.drop_last(), h);
    }
}

/// Published trees need no page.
proof fn lemma_memory_none(env: Env, links: Seq<Link>, h: nat)
    requires
        forall|i: int| 0 <= i < links.len() ==> (#[trigger] links[i]).page is Committed,
    ensures
        memory_pages_all(env, links, h) == 0,
    decreases links.len(),
{
    if links.len() > 0 {
        assert(memory_pages(env, links.last().page, h) == 0);
        lemma_memory_none(env, links.drop_last(), h);
    }
}

/// The new values of a leaf are those of its parts.
proof fn lemma_chunks_cut(entries: Seq<Entry>, at: int, n: int)
    requires
        0 <= at <= n <= entries.len(),
    ensures
        leaf_chunks(entries, n) == leaf_chunks(entries.take(at), at) + leaf_chunks(
            entries.skip(at),
            n - at,
        ),
    decreases n,
{
    if n > at {
        lemma_chunks_cut(entries, at, n - 1);
        assert(entries.skip(at)[n - 1 - at] == entries[n - 1]);
    } else if n > 0 {
        lemma_chunks_cut(entries, at - 1, n - 1);
        lemma_chunks_same(entries.take(at), entries.take(at - 1), at - 1);
        assert(entries.take(at)[at - 1] == entries[at - 1]);
    }
}

/// The new values of the first entries are those of the entries.
proof fn lemma_chunks_same(a: Seq<Entry>, b: Seq<Entry>, n: int)
    requires
        n <= a.len(),
        n <= b.len(),
        forall|i: int| 0 <= i < n ==> #[trigger] a[i] == b[i],
    ensures
        leaf_chunks(a, n) == leaf_chunks(b, n),
    decreases n,
{
    if n > 0 {
        lemma_chunks_same(a, b, n - 1);
        assert(a[n - 1] == b[n - 1]);
    }
}

/// A leaf in which one value at most is new needs the pages of that value.
proof fn lemma_chunks_one(entries: Seq<Entry>, at: int, n: int)
    requires
        0 <= n <= entries.len(),
        forall|i: int|
            0 <= i < n && i != at ==> !((#[trigger] entries[i]).value is Pending),
    ensures
        leaf_chunks(entries, n) == if 0 <= at < n {
            entry_chunks(entries[at])
        } else {
            0
        },
    decreases n,
{
    if n > 0 {
        lemma_chunks_one(entries, at, n - 1);
    }
}

/// What a leaf that was shared out needs: a page for each part, and the pages of the value.
proof fn lemma_leaf_pages(
    env: Env,
    run: Seq<Link>,
    entries: Seq<Entry>,
    after: Seq<Entry>,
    key: Seq<u8>,
    value: Stored,
)
    requires
        all_dirty(run),
        forall|i: int| 0 <= i < entries.len() ==> !((#[trigger] entries[i]).value is Pending),
        upserts(entries, after, key, value),
        shared_leaf(after, key, nodes_at(env, run)),
    ensures
        0 < run.len() <= 3,
        memory_pages_all(env, run, 0) == run.len() + entry_chunks(Entry { key, value }),
{
    let nodes = nodes_at(env, run);
    let p = choose|p: int| upserts_at(entries, after, key, value, p);
    assert(upserts_at(entries, after, key, value, p));
    assert forall|i: int| 0 <= i < after.len() && i != p implies !((
    #[trigger] after[i]).value is Pending) by {
        if after.len() == entries.len() || i < p {
            assert(after[i] == entries[i]);
        } else {
            assert(after[i] == entries[i - 1]);
        }
    }
    lemma_chunks_one(after, p, after.len() as int);
    if leaf_size(after) <= PAGE_END {
        assert(nodes.len() == 1 && nodes[0] == Some(Node::Leaf(after)));
        lemma_part(env, run, 0, after);
    } else if exists|split: int| #[trigger] leaf_split_fits(after, split) {
        let split = choose|split: int| #[trigger]
            best_leaf_split_at(after, split) && nodes == seq![
                Some(Node::Leaf(after.take(split))),
                Some(Node::Leaf(after.skip(split))),
            ];
        assert(nodes.len() == 2 && nodes[0] == Some(Node::Leaf(after.take(split))) && nodes[1]
            == Some(Node::Leaf(after.skip(split))));
        lemma_part(env, run, 0, after.take(split));
        lemma_part(env, run, 1, after.skip(split));
        lemma_chunks_cut(after, split, after.len() as int);
    } else {
        let at = choose|at: int|
            0 <= at < after.len() && (#[trigger] after[at]).key == key && nodes == seq![
                Some(Node::Leaf(after.take(at))),
                Some(Node::Leaf(after.skip(at).take(1))),
                Some(Node::Leaf(after.skip(at).skip(1))),
            ];
        let rest = after.skip(at);
        assert(nodes.len() == 3 && nodes[0] == Some(Node::Leaf(after.take(at))) && nodes[1]
            == Some(Node::Leaf(rest.take(1))) && nodes[2] == Some(Node::Leaf(rest.skip(1))));
        lemma_part(env, run, 0, after.take(at));
        lemma_part(env, run, 1, rest.take(1));
        lemma_part(env, run, 2, rest.skip(1));
        lemma_chunks_cut(after, at, after.len() as int);
        lemma_chunks_cut(rest, 1, rest.len() as int);
    }
    lemma_run_memory(env, run, 0);
}

/// What a leaf in memory needs.
proof fn lemma_part(env: Env, run: Seq<Link>, k: int, entries: Seq<Entry>)
    requires
        all_dirty(run),
        0 <= k < run.len(),
        nodes_at(env, run)[k] == Some(Node::Leaf(entries)),
    ensures
        memory_pages(env, run[k].page, 0) == 1 + leaf_chunks(entries, entries.len() as int),
{
    assert(run[k].page is Dirty);
}

/// What an internal node that was shared out needs: a page for each part, and what its children
/// need.
proof fn lemma_internal_pages(env: Env, run: Seq<Link>, h: nat, grown: Seq<Link>)
    requires
        h > 0,
        all_dirty(run),
        shared_internal(grown, nodes_at(env, run)),
    ensures
        0 < run.len() <= 2,
        memory_pages_all(env, run, h) == run.len() + memory_pages_all(env, grown, (h - 1) as nat),
{
    let nodes = nodes_at(env, run);
    let below = (h - 1) as nat;
    if internal_size(grown) <= PAGE_END {
        assert(nodes.len() == 1 && nodes[0] == Some(Node::Internal(grown)));
        assert(run[0].page is Dirty);
        assert(memory_pages(env, run[0].page, h) == 1 + memory_pages_all(env, grown, below));
    } else {
        let split = choose|split: int| #[trigger]
            best_internal_split_at(grown, split) && nodes == seq![
                Some(Node::Internal(grown.take(split))),
                Some(Node::Internal(grown.skip(split))),
            ];
        let left = grown.take(split);
        let right = grown.skip(split);
        assert(nodes.len() == 2 && nodes[0] == Some(Node::Internal(left)) && nodes[1] == Some(
            Node::Internal(right),
        ));
        assert(run[0].page is Dirty && run[1].page is Dirty);
        assert(memory_pages(env, run[0].page, h) == 1 + memory_pages_all(env, left, below));
        assert(memory_pages(env, run[1].page, h) == 1 + memory_pages_all(env, right, below));
        assert(grown =~= left + right);
        lemma_memory_add(env, left, right, below);
    }
    lemma_run_memory(env, run, h);
}

/// Storing a value below a published node brings the nodes on the path into memory and no
/// others: one on each level, and one or two more where a node was cut.
proof fn lemma_path_pages(
    env: Env,
    other: Env,
    r: PageRef,
    h: nat,
    run: Seq<Link>,
    key: Seq<u8>,
    value: Stored,
)
    requires
        subtree(env, r, h),
        r is Committed,
        shared_out(env, other, r, h, run, key, value),
    ensures
        run.len() > 0,
        h + 1 + entry_chunks(Entry { key, value }) <= memory_pages_all(other, run, h) <= 2 * h + 3
            + entry_chunks(Entry { key, value }),
    decreases h,
{
    reveal(shared_out);
    reveal(subtree);
    let nodes = nodes_at(other, run);
    match opened(env, r, h) {
        Node::Leaf(entries) => {
            let after = choose|after: Seq<Entry>| #[trigger]
                upserts(entries, after, key, value) && shared_leaf(after, key, nodes);
            assert(forall|i: int|
                0 <= i < entries.len() ==> !((#[trigger] entries[i]).value is Pending));
            lemma_leaf_pages(other, run, entries, after, key, value);
        },
        Node::Internal(links) => {
            let below = (h - 1) as nat;
            let (i, inner) = choose|i: int, inner: Seq<Link>| #[trigger]
                grafts(links, key, i, inner, nodes) && shared_out(
                    env,
                    other,
                    links[i].page,
                    below,
                    inner,
                    key,
                    value,
                );
            assert(grafts(links, key, i, inner, nodes));
            let plain = node_at(env, r)->0->Internal_0;
            assert forall|k: int| 0 <= k < links.len() implies (
            #[trigger] links[k]).page is Committed by {
                assert(links[k].page == plain[k].page);
            }
            lemma_run_child(env, plain, below, i);
            lemma_path_pages(env, other, links[i].page, below, inner, key, value);
            lemma_memory_none(other, links.take(i), below);
            lemma_memory_none(other, links.skip(i + 1), below);
            lemma_memory_add(other, links.take(i), inner, below);
            lemma_memory_add(other, links.take(i) + inner, links.skip(i + 1), below);
            lemma_internal_pages(
                other,
                run,
                h,
                links.take(i) + inner + links.skip(i + 1),
            );
        },
    }
}

/// What a run of up to three nodes needs.
proof fn lemma_run_memory(env: Env, run: Seq<Link>, h: nat)
    requires
        0 < run.len() <= 3,
    ensures
        run.len() == 1 ==> memory_pages_all(env, run, h) == memory_pages(env, run[0].page, h),
        run.len() == 2 ==> memory_pages_all(env, run, h) == memory_pages(env, run[0].page, h)
            + memory_pages(env, run[1].page, h),
        run.len() == 3 ==> memory_pages_all(env, run, h) == memory_pages(env, run[0].page, h)
            + memory_pages(env, run[1].page, h) + memory_pages(env, run[2].page, h),
{
    reveal_with_fuel(memory_pages_all, 4);
}

/// A put into a transaction without changes copies the path to the key and nothing else: it
/// takes a page for each level, one or two more where a node was cut, and the pages that the
/// value fills.
pub proof fn law_put_copies_the_path(
    before: MutableTree,
    after: MutableTree,
    pages: Pages,
    key: Seq<u8>,
    value: Stored,
)
    requires
        before.sound(pages),
        before.root is Committed,
        after.sound(pages),
        took_in(before, after, pages, key, value),
    ensures
        before.height@ + 1 + entry_chunks(Entry { key, value }) <= user_demand(after, pages) <= 2
            * before.height@ + 4 + entry_chunks(Entry { key, value }),
{
    let env = before.env(pages);
    let other = after.env(pages);
    let h = before.height@;
    let run = choose|run: Seq<Link>| #[trigger]
        shared_out(env, other, before.root, h, run, key, value) && crowned(
            other,
            after.root,
            after.height@,
            run,
            h,
        );
    lemma_path_pages(env, other, before.root, h, run, key, value);
    law_demand(after, pages);
    if run.len() == 1 {
        lemma_run_memory(other, run, h);
    }
}

/// How many pages a free tree has from a level with so many on upwards.
pub open spec fn level_pages(count: nat) -> nat
    decreases count,
{
    if count <= 1 {
        1
    } else {
        proof {
            let n = count as int;
            let d = INTERNAL_FANOUT as int;
            assert(0 <= (n + d - 1) / d < n) by (nonlinear_arith)
                requires
                    n > 1,
                    d == 254,
            ;
        }
        count + level_pages(ceil(count as int, INTERNAL_FANOUT as int) as nat)
    }
}

/// How many pages the smallest free tree for so many records has.
pub open spec fn free_tree_size(records: nat) -> nat {
    level_pages(
        if records == 0 {
            1
        } else {
            ceil(records as int, LEAF_CAPACITY as int) as nat
        },
    )
}

/// The levels of a layout from one on upwards.
proof fn lemma_level_pages(layout: Layout, i: int)
    requires
        layout.inv(),
        0 <= i < layout.levels().len(),
    ensures
        level_sum(layout.levels()) == level_sum(layout.levels().take(i)) + level_pages(
            layout.levels()[i] as nat,
        ),
    decreases layout.levels().len() - i,
{
    let levels = layout.levels();
    let up = levels.take(i + 1);
    assert(up.drop_last() =~= levels.take(i));
    assert(up.last() == levels[i]);
    if i == levels.len() - 1 {
        assert(up =~= levels);
    } else {
        let j = i + 1;
        lemma_level_pages(layout, j);
        assert(1 < levels[i]);
        assert(levels[j] == ceil(levels[i] as int, INTERNAL_FANOUT as int));
    }
}

/// The smallest layout has as many pages as the smallest tree.
pub proof fn lemma_free_tree_size(layout: Layout, records: nat)
    requires
        layout.smallest(records),
    ensures
        level_sum(layout.levels()) == free_tree_size(records),
{
    lemma_level_pages(layout, 0);
    assert(layout.levels().take(0) =~= Seq::<usize>::empty());
}

/// How many pages the file has once a transaction is committed. Unless nothing has changed, it
/// takes the pages of the user tree and those of a free tree for all free pages, among them the
/// ones that the transaction and the former free tree leave behind; pages that may be used again
/// are taken first.
pub open spec fn pages_after<I: Storage>(db: Database<I>, tree: MutableTree) -> nat {
    let user = user_demand(tree, db.pages());
    let retired = tree.retired@.len();
    let reusable = db.free.reusable_pages;
    if user == 0 && retired == 0 {
        db.meta().page_count as nat
    } else {
        let reused = if user < reusable {
            user
        } else {
            reusable as nat
        };
        let records = (db.entries().dom().len() - reused + retired + db.free.pages@.len()) as nat;
        db.meta().page_count as nat + growth(user + free_tree_size(records), reusable)
    }
}

/// A plan gives the file the pages that the transaction needs.
pub proof fn lemma_pages_after<I: Storage>(
    plan: CommitPlan,
    db: Database<I>,
    tree: MutableTree,
    floor: u64,
)
    requires
        db.inv(),
        db.floor(floor),
        plan.fits(db, tree, floor),
        plan_facts(plan, db, floor),
        floor <= db.meta().generation,
        plan.user.allocations@.len() == user_demand(tree, db.pages()),
        forall|p: u64| #[trigger]
            tree.retired@.contains(p) ==> !db.entries().contains_key(p) && !db.free.pages@.contains(
                p,
            ),
    ensures
        plan.next_page == pages_after(db, tree),
{
    let generation = db.meta().generation;
    let before = db.entries();
    let left = plan.left(before);
    let retired = plan.user.finished.retired@;
    let olds = plan.old_pages@;
    retired.unique_seq_to_set();
    assert forall|p: u64| #[trigger] retired.contains(p) implies tree.retired@.contains(p) by {
        assert(retired.to_set().contains(p));
    }
    lemma_plan_growth(plan, db, tree, floor);
    if plan.changed {
        lemma_user_left(plan, db, tree, floor);
        assert forall|p: u64| #[trigger] retired.contains(p) implies !left.contains_key(p) by {
            assert(tree.retired@.contains(p));
        }
        lemma_with_new_pages(left, retired, generation);
        lemma_with_pages(left, retired, generation);
        let part = with_pages(left, retired, generation);
        assert forall|p: u64| #[trigger] olds.contains(p) implies !part.contains_key(p) by {
            assert(olds.to_set().contains(p));
            assert(db.free.pages@.contains(p));
            if left.contains_key(p) {
                assert(before.contains_key(p));
            }
            if retired.contains(p) {
                assert(tree.retired@.contains(p));
            }
        }
        lemma_with_new_pages(part, olds, generation);
        let full = plan.offered(before, generation);
        let layout = choose|layout: Layout| #[trigger]
            layout.smallest(full.dom().len()) && plan.free_allocations@.len() == level_sum(
                layout.levels(),
            );
        lemma_free_tree_size(layout, full.dom().len());
    }
}

} // verus!
