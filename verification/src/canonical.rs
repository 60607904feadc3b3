//! Building a tree from its rows, with every page as full as the order allows.
use crate::branch::{
    branching, branching_run, lemma_branching_add, lemma_branching_built, lemma_branching_leaves,
    lemma_branching_run_kept, spreading, stays_wide,
};
use crate::collect::{lemma_run_push, pairs_of};
use crate::error::{corrupt, Result};
use crate::db::weight;
use crate::finish::{
    chunks, filed_below, files_all, grantable, leaf_chunks, lemma_listed_unique, listed,
    page_demand, page_list, physical_of, reached, slot_chunks, slot_filed, written,
};
use crate::format::{
    in_snapshot, MAX_KEY_SIZE, MAX_VALUE_SIZE, META_PAGES, PAGE_HEADER, PAGE_SIZE, SLOT_SIZE,
};
use crate::graft::{
    is_fresh, lemma_node_built, lemma_run_cut, lemma_run_kept, lemma_run_one, lemma_run_slots, snug,
    snug_run,
};
use crate::insert::{lemma_leaf_built, stored_form};
use crate::model::{
    flat, flat_all, is_tree, keyed, node_at, owns, published, rows_of, run_ok, run_owns, subtree,
    values_ok, Env, Pages, Row,
};
use crate::node::{
    copy_bytes, entries_fit, entries_of, inline_len, internal_size, key_bytes, leaf_size, links_of,
    node_size, sorted_entries, Child, Entry, LeafEntry, Link, MutableNode, Node, PageRef,
    StoredValue, INLINE_VALUE_LIMIT, PAGE_END,
};
use crate::order::lt;
use crate::page::{keys_fit, resolve};
use crate::plan::{lemma_live_slots, live_slots};
use crate::io::{blamed, pages_of, Call, Storage};
use crate::reader::MAX_DEPTH;
use crate::spots::{
    all_slots, in_slots, lemma_all_slots, lemma_filled_none, lemma_internal_stacked,
    lemma_last_spot, lemma_leaf_stacked, lemma_leaf_tier, lemma_stacked_reached,
    lemma_streamed_kept, number_pages, rising, spills, spots, stacked, stock, streamed, streamed_by,
    tier,
};
use crate::store::{
    holds_pages, keeps, lemma_spoils_same, lemma_spoils_widen, lemma_tree_stored, listed_below,
    listed_ids, pages_from, put_pages, spoils, wrote_pages,
};
use crate::tree::{arena, MutableTree};
use crate::write::lemma_weight_add;
use vstd::prelude::*;

verus! {

/// The entries that store the given rows in memory.
pub open spec fn entries_for(rows: Seq<Row>) -> Seq<Entry> {
    rows.map_values(|row: Row| Entry { key: row.0, value: stored_form(row.1) })
}

/// Whether the keys of the rows increase.
pub open spec fn sorted_rows(rows: Seq<Row>) -> bool {
    forall|i: int, j: int|
        0 <= i < j < rows.len() ==> lt((#[trigger] rows[i]).0, (#[trigger] rows[j]).0)
}

/// Whether keys and values keep to the size limits of the format.
pub open spec fn rows_fit(rows: Seq<Row>) -> bool {
    forall|i: int|
        0 <= i < rows.len() ==> (#[trigger] rows[i]).0.len() <= MAX_KEY_SIZE && rows[i].1.len()
            <= MAX_VALUE_SIZE
}

/// The environment of a tree that lies wholly in memory.
pub open spec fn own_env(tree: MutableTree) -> Env {
    tree.env(Map::empty())
}

/// Whether the links head trees in memory that hold the entries among them.
#[verifier::opaque]
spec fn ranked(tree: MutableTree, links: Seq<Link>, h: nat, entries: Seq<Entry>) -> bool {
    let env = own_env(tree);
    &&& run_ok(env, links, h)
    &&& keyed(env, links, h, 0)
    &&& keys_fit(links)
    &&& flat_all(env, links, h) == entries
    &&& snug_run(env, links, h)
    &&& forall|x: u64| !#[trigger] run_owns(env, links, h, PageRef::Committed(x))
}

/// Entries that keep their values in memory own no page.
pub open spec fn in_memory(entries: Seq<Entry>) -> bool {
    forall|i: int| 0 <= i < entries.len() ==> !((#[trigger] entries[i]).value is Overflow)
}

/// The values of entries in memory can be read.
proof fn lemma_memory_values(env: Env, r: PageRef, entries: Seq<Entry>)
    requires
        in_memory(entries),
    ensures
        values_ok(env, r, entries),
        forall|p: PageRef| !#[trigger] crate::graft::entries_own(env, entries, p),
{
    reveal(values_ok);
}

/// Trees in memory stay as they are when a node is added to the arena.
proof fn lemma_ranked_kept(
    before: MutableTree,
    after: MutableTree,
    node: Node,
    links: Seq<Link>,
    h: nat,
    entries: Seq<Entry>,
)
    requires
        ranked(before, links, h, entries),
        arena(after.dirty@) == arena(before.dirty@).push(Some(node)),
        after.page_count == before.page_count,
    ensures
        ranked(after, links, h, entries),
        forall|p: PageRef| #[trigger]
            run_owns(own_env(after), links, h, p) == run_owns(own_env(before), links, h, p),
        forall|slot: usize| #[trigger]
            run_owns(own_env(after), links, h, PageRef::Dirty(slot)) ==> slot < arena(
                before.dirty@,
            ).len(),
{
    reveal(ranked);
    let env = own_env(before);
    let other = own_env(after);
    assert forall|slot: usize| #[trigger]
        run_owns(env, links, h, PageRef::Dirty(slot)) implies slot < env.dirty.len() && node_at(
        other,
        PageRef::Dirty(slot),
    ) == node_at(env, PageRef::Dirty(slot)) by {
        lemma_run_slots(env, links, h, PageRef::Dirty(slot));
        assert(!is_fresh(env, PageRef::Dirty(slot)));
    }
    lemma_run_kept(env, other, links, h);
}

/// The overflow pages of rows are no more than their bytes.
proof fn lemma_row_chunks(rows: Seq<Row>, n: int)
    requires
        0 <= n <= rows.len(),
    ensures
        leaf_chunks(entries_for(rows), n) <= weight(rows.take(n)),
    decreases n,
{
    if n > 0 {
        lemma_row_chunks(rows, n - 1);
        assert(rows.take(n).drop_last() =~= rows.take(n - 1));
        assert(rows.take(n).last() == rows[n - 1]);
        let len = rows[n - 1].1.len();
        assert(entries_for(rows)[n - 1].value == stored_form(rows[n - 1].1));
        assert(chunks(len) <= len + 1);
        assert(len > 0 ==> chunks(len) <= len);
    }
}

/// The overflow pages of a leaf that stores some of the rows.
proof fn lemma_leaf_stock(rows: Seq<Row>, from: int, to: int)
    requires
        0 <= from <= to <= rows.len(),
    ensures
        slot_chunks(Some(Node::Leaf(entries_for(rows).subrange(from, to)))) + weight(rows.take(from))
            <= weight(rows.take(to)),
{
    let part = rows.subrange(from, to);
    assert(entries_for(part) =~= entries_for(rows).subrange(from, to));
    lemma_row_chunks(part, part.len() as int);
    assert(part.take(part.len() as int) =~= part);
    assert(rows.take(to) =~= rows.take(from) + part);
    lemma_weight_add(rows.take(from), part);
}

/// The most pages that a tree with the rows needs.
pub open spec fn canonical_demand(rows: Seq<Row>) -> nat {
    3 * rows.len() + weight(rows) + 1
}

/// Whether the rows are few enough for a database of their own: there are enough page
/// numbers, and the pages can be listed in memory.
pub open spec fn spacious(rows: Seq<Row>, first_page: u64) -> bool {
    &&& (first_page + canonical_demand(rows) + 1) * PAGE_SIZE <= u64::MAX
    &&& canonical_demand(rows) <= usize::MAX
    &&& rows.len() <= 0x8000_0000_0000_0000
}

/// Trees in memory branch where they did when a node is added to the arena.
proof fn lemma_ranked_branching(
    before: MutableTree,
    after: MutableTree,
    node: Node,
    links: Seq<Link>,
    h: nat,
    entries: Seq<Entry>,
    edge: bool,
)
    requires
        ranked(before, links, h, entries),
        arena(after.dirty@) == arena(before.dirty@).push(Some(node)),
        after.page_count == before.page_count,
        branching_run(own_env(before), links, h, edge),
    ensures
        branching_run(own_env(after), links, h, edge),
{
    let env = own_env(before);
    let other = own_env(after);
    lemma_ranked_kept(before, after, node, links, h, entries);
    assert forall|slot: usize| #[trigger]
        run_owns(env, links, h, PageRef::Dirty(slot)) implies node_at(other, PageRef::Dirty(slot))
        == node_at(env, PageRef::Dirty(slot)) by {
        assert(run_owns(other, links, h, PageRef::Dirty(slot)));
    }
    lemma_branching_run_kept(env, other, links, h, edge);
}

/// Adds a full leaf to the arena.
fn add_leaf(
    tree: &mut MutableTree,
    nodes: &mut Vec<Child>,
    leaf: Vec<LeafEntry>,
    Ghost(done): Ghost<Seq<Entry>>,
)
    requires
        old(tree).inv(),
        ranked(*old(tree), links_of(old(nodes)@), 0, done),
        leaf@.len() > 0,
        entries_fit(entries_of(leaf@)),
        in_memory(entries_of(leaf@)),
        leaf_size(entries_of(leaf@)) <= PAGE_END,
    ensures
        final(tree).inv(),
        final(tree).page_count == old(tree).page_count,
        final(tree).retired@ == old(tree).retired@,
        ranked(*final(tree), links_of(final(nodes)@), 0, done + entries_of(leaf@)),
        final(nodes)@.len() == old(nodes)@.len() + 1,
        arena(final(tree).dirty@) == arena(old(tree).dirty@).push(
            Some(Node::Leaf(entries_of(leaf@))),
        ),
        in_slots(links_of(old(nodes)@), 0) && old(nodes)@.len() == old(tree).dirty@.len()
            ==> in_slots(links_of(final(nodes)@), 0) && final(nodes)@.len()
            == final(tree).dirty@.len(),
        stock(arena(final(tree).dirty@)) == stock(arena(old(tree).dirty@)) + 1 + slot_chunks(
            Some(Node::Leaf(entries_of(leaf@))),
        ),
{
    let ghost entries = entries_of(leaf@);
    let ghost links = links_of(nodes@);
    assert(entries[0] == leaf@[0]@);
    let first_key = copy_bytes(&leaf[0].key);
    let page = tree.new_dirty(MutableNode::Leaf(leaf));
    let ghost before_nodes = nodes@;
    nodes.push(Child { first_key, page });
    proof {
        let slot = page->Dirty_0;
        let node = Node::Leaf(entries);
        let env = own_env(*tree);
        let link = Link { key: entries[0].key, page };
        lemma_ranked_kept(*old(tree), *tree, node, links, 0, done);
        assert(node_at(env, page) == Some(node));
        assert(arena(tree.dirty@).drop_last() =~= arena(old(tree).dirty@));
        lemma_memory_values(env, page, entries);
        lemma_leaf_built(env, slot, entries);
        reveal(ranked);
        assert forall|p: PageRef| !(#[trigger] owns(env, link.page, 0, p) && run_owns(
            env,
            links,
            0,
            p,
        )) by {
            assert(!crate::graft::entries_own(env, entries, p));
        }
        lemma_run_push(env, links, link, 0);
        assert(links_of(nodes@) =~= links.push(link));
        lemma_pushed(env, links, link, 0);
        assert forall|x: u64|
            !#[trigger] run_owns(env, links.push(link), 0, PageRef::Committed(x)) by {
            assert(!crate::graft::entries_own(env, entries, PageRef::Committed(x)));
        }
    }
}

/// A run with one more tree keeps its separators and sizes.
proof fn lemma_pushed(env: Env, links: Seq<Link>, link: Link, h: nat)
    requires
        keyed(env, links, h, 0),
        keys_fit(links),
        snug_run(env, links, h),
        link.key == flat(env, link.page, h)[0].key,
        link.key.len() <= MAX_KEY_SIZE,
        snug(env, link.page, h),
        forall|p: PageRef| #[trigger]
            run_owns(env, links.push(link), h, p) == (run_owns(env, links, h, p) || owns(
                env,
                link.page,
                h,
                p,
            )),
    ensures
        keyed(env, links.push(link), h, 0),
        keys_fit(links.push(link)),
        snug_run(env, links.push(link), h),
{
    let more = links.push(link);
    assert forall|i: int| 0 <= i < more.len() implies (#[trigger] more[i]).key == flat(
        env,
        more[i].page,
        h,
    )[0].key by {
        if i < links.len() {
            assert(more[i] == links[i]);
        }
    }
    assert forall|i: int| 0 <= i < more.len() implies (#[trigger] more[i]).key.len()
        <= MAX_KEY_SIZE by {
        if i < links.len() {
            assert(more[i] == links[i]);
        }
    }
    assert forall|slot: usize| #[trigger]
        run_owns(env, more, h, PageRef::Dirty(slot)) implies node_size(
        node_at(env, PageRef::Dirty(slot))->0,
    ) <= PAGE_END by {
        if run_owns(env, links, h, PageRef::Dirty(slot)) {
        } else {
            assert(owns(env, link.page, h, PageRef::Dirty(slot)));
        }
    }
}

/// No tree holds no entry.
proof fn lemma_ranked_none(tree: MutableTree, h: nat)
    ensures
        ranked(tree, Seq::empty(), h, Seq::empty()),
{
    reveal(ranked);
    reveal(run_ok);
    assert(flat_all(own_env(tree), Seq::empty(), h) =~= Seq::<Entry>::empty());
}

/// The entry that stores a row in memory.
fn make_entry(key: &Vec<u8>, value: &Vec<u8>) -> (entry: LeafEntry)
    ensures
        entry@ == (Entry { key: key@, value: stored_form(value@) }),
{
    let stored = if value.len() <= INLINE_VALUE_LIMIT {
        StoredValue::Inline(copy_bytes(value))
    } else {
        StoredValue::Pending(copy_bytes(value))
    };
    LeafEntry { key: copy_bytes(key), value: stored }
}

/// Puts the rows into leaves, each as full as the order allows.
fn build_leaves(tree: &mut MutableTree, rows: &Vec<(Vec<u8>, Vec<u8>)>) -> (nodes: Vec<Child>)
    requires
        old(tree).inv(),
        old(tree).dirty@.len() == 0,
        rows@.len() > 0,
        rows_fit(pairs_of(rows@)),
    ensures
        final(tree).inv(),
        final(tree).page_count == old(tree).page_count,
        final(tree).retired@ == old(tree).retired@,
        nodes@.len() > 0,
        nodes@.len() <= rows@.len(),
        ranked(*final(tree), links_of(nodes@), 0, entries_for(pairs_of(rows@))),
        rising(arena(final(tree).dirty@), entries_for(pairs_of(rows@)), 0),
        in_slots(links_of(nodes@), 0),
        nodes@.len() == final(tree).dirty@.len(),
        forall|i: int|
            0 <= i < final(tree).dirty@.len() ==> #[trigger] tier(arena(final(tree).dirty@), i)
                == 0,
        branching_run(own_env(*final(tree)), links_of(nodes@), 0, true),
        stays_wide(own_env(*final(tree)), links_of(nodes@)),
        stock(arena(final(tree).dirty@)) <= stock(arena(old(tree).dirty@)) + nodes@.len() + weight(
            pairs_of(rows@),
        ),
{
    let ghost all = entries_for(pairs_of(rows@));
    let mut nodes: Vec<Child> = Vec::new();
    let mut leaf: Vec<LeafEntry> = Vec::new();
    let mut size: usize = PAGE_HEADER;
    let mut index: usize = 0;
    let ghost mut filed: int = 0;
    proof {
        assert(links_of(nodes@) =~= Seq::<Link>::empty());
        assert(all.take(0) =~= Seq::<Entry>::empty());
        assert(pairs_of(rows@).take(0) =~= Seq::<Row>::empty());
        assert(entries_of(leaf@) =~= Seq::<Entry>::empty());
        lemma_ranked_none(*tree, 0);
        assert(arena(tree.dirty@) =~= Seq::<Option<Node>>::empty());
        lemma_filled_none();
        assert(crate::spots::first_slots(0) =~= Seq::<PageRef>::empty());
    }
    while index < rows.len()
        invariant
            index <= rows@.len(),
            tree.inv(),
            tree.page_count == old(tree).page_count,
            tree.retired@ == old(tree).retired@,
            rows_fit(pairs_of(rows@)),
            all == entries_for(pairs_of(rows@)),
            0 <= filed <= index,
            index > 0 ==> leaf@.len() > 0,
            nodes@.len() <= filed,
            stock(arena(tree.dirty@)) <= stock(arena(old(tree).dirty@)) + nodes@.len() + weight(
                pairs_of(rows@).take(filed),
            ),
            ranked(*tree, links_of(nodes@), 0, all.take(filed)),
            rising(arena(tree.dirty@), all.take(filed), 0),
            forall|i: int|
                0 <= i < arena(tree.dirty@).len() ==> (#[trigger] arena(tree.dirty@)[i]) is Some
                    && arena(tree.dirty@)[i]->0 is Leaf,
            in_slots(links_of(nodes@), 0),
            nodes@.len() == tree.dirty@.len(),
            arena(tree.dirty@).len() > 0 && leaf@.len() > 0 ==> spills(
                arena(tree.dirty@).last()->0,
                Node::Leaf(entries_of(leaf@)),
            ),
            entries_of(leaf@) == all.subrange(filed, index as int),
            entries_fit(entries_of(leaf@)),
            in_memory(entries_of(leaf@)),
            size == leaf_size(entries_of(leaf@)),
            size <= PAGE_END,
        decreases rows@.len() - index,
    {
        let row = &rows[index];
        let entry = make_entry(&row.0, &row.1);
        proof {
            assert(pairs_of(rows@)[index as int] == (row.0@, row.1@));
            assert(all[index as int] == entry@);
        }
        let inline = if row.1.len() <= INLINE_VALUE_LIMIT {
            row.1.len()
        } else {
            0
        };
        let step = SLOT_SIZE + row.0.len() + inline;
        assert(step == SLOT_SIZE + entry@.key.len() + inline_len(entry@.value));
        if leaf.len() > 0 && size + step > PAGE_END {
            let mut full: Vec<LeafEntry> = Vec::new();
            std::mem::swap(&mut full, &mut leaf);
            let ghost done = all.take(filed);
            let ghost shelf = arena(tree.dirty@);
            let ghost written = entries_of(full@);
            add_leaf(tree, &mut nodes, full, Ghost(done));
            proof {
                assert(written.push(entry@).drop_last() =~= written);
                assert(leaf_size(written.push(entry@)) == size + step);
                lemma_leaf_stacked(shelf, done, all.subrange(filed, index as int));
                assert(done + all.subrange(filed, index as int) =~= all.take(index as int));
                lemma_leaf_stock(pairs_of(rows@), filed, index as int);
                filed = index as int;
                assert(entries_of(leaf@) =~= Seq::<Entry>::empty());
                assert(all.subrange(filed, index as int) =~= Seq::<Entry>::empty());
            }
            size = PAGE_HEADER;
        }
        let ghost before = entries_of(leaf@);
        leaf.push(entry);
        proof {
            assert(entries_of(leaf@) =~= before.push(entry@));
            assert(entries_of(leaf@).drop_last() =~= before);
            assert(entries_of(leaf@).last() == entry@);
            assert(crate::node::payload(entries_of(leaf@)) == crate::node::payload(before)
                + entry@.key.len() + inline_len(entry@.value));
            assert(entries_of(leaf@) =~= all.subrange(filed, index + 1));
            assert(before.len() > 0 ==> entries_of(leaf@)[0] == before[0]);
        }
        size = size + step;
        index = index + 1;
    }
    let ghost done = all.take(filed);
    let ghost shelf = arena(tree.dirty@);
    add_leaf(tree, &mut nodes, leaf, Ghost(done));
    proof {
        lemma_leaf_stacked(shelf, done, all.subrange(filed, index as int));
        assert(done + all.subrange(filed, index as int) =~= all);
        lemma_leaf_stock(pairs_of(rows@), filed, index as int);
        assert(pairs_of(rows@).take(index as int) =~= pairs_of(rows@));
        let links = links_of(nodes@);
        let env = own_env(*tree);
        assert forall|i: int| 0 <= i < links.len() implies node_at(
            env,
            (#[trigger] links[i]).page,
        ) matches Some(Node::Leaf(_)) by {
            assert(links[i].page == PageRef::Dirty(i as usize));
            assert(arena(tree.dirty@)[i] is Some && arena(tree.dirty@)[i]->0 is Leaf);
        }
        lemma_branching_leaves(env, links, 0);
        assert(branching_run(env, links, 0, true));
        assert forall|i: int| 0 <= i < tree.dirty@.len() implies #[trigger] tier(
            arena(tree.dirty@),
            i,
        ) == 0 by {
            assert(arena(tree.dirty@)[i]->0 is Leaf);
            lemma_leaf_tier(arena(tree.dirty@), i);
        }
    }
    nodes
}

/// Whether parents and the nodes that have none yet hold the entries among them.
#[verifier::opaque]
spec fn climbing(
    tree: MutableTree,
    parents: Seq<Link>,
    rest: Seq<Link>,
    h: nat,
    left: Seq<Entry>,
    right: Seq<Entry>,
) -> bool {
    let env = own_env(tree);
    &&& ranked(tree, parents, h + 1, left)
    &&& ranked(tree, rest, h, right)
    &&& forall|p: PageRef|
        !(#[trigger] run_owns(env, parents, h + 1, p) && run_owns(env, rest, h, p))
}

/// Adds an internal node over the first of the nodes that have no parent yet.
fn add_parent(
    tree: &mut MutableTree,
    parents: &mut Vec<Child>,
    group: Vec<Child>,
    Ghost(rest): Ghost<Seq<Link>>,
    Ghost(h): Ghost<nat>,
    Ghost(left): Ghost<Seq<Entry>>,
    Ghost(right): Ghost<Seq<Entry>>,
) -> (moved: Ghost<Seq<Entry>>)
    requires
        old(tree).inv(),
        climbing(*old(tree), links_of(old(parents)@), rest, h, left, right),
        0 < group@.len() <= rest.len(),
        links_of(group@) == rest.take(group@.len() as int),
        internal_size(links_of(group@)) <= PAGE_END,
    ensures
        final(tree).inv(),
        final(tree).page_count == old(tree).page_count,
        final(tree).retired@ == old(tree).retired@,
        final(parents)@.len() == old(parents)@.len() + 1,
        links_of(final(parents)@) == links_of(old(parents)@).push(
            Link {
                key: links_of(group@)[0].key,
                page: PageRef::Dirty(old(tree).dirty@.len() as usize),
            },
        ),
        stock(arena(final(tree).dirty@)) == stock(arena(old(tree).dirty@)) + 1,
        arena(final(tree).dirty@) == arena(old(tree).dirty@).push(
            Some(Node::Internal(links_of(group@))),
        ),
        old(tree).dirty@.len() <= usize::MAX,
        final(tree).dirty@.len() == old(tree).dirty@.len() + 1,
        forall|from: int| #[trigger]
            in_slots(links_of(old(parents)@), from) && from + old(parents)@.len() == old(
                tree,
            ).dirty@.len() ==> in_slots(links_of(final(parents)@), from),
        moved@ + right.skip(moved@.len() as int) == right,
        climbing(
            *final(tree),
            links_of(final(parents)@),
            rest.skip(group@.len() as int),
            h,
            left + moved@,
            right.skip(moved@.len() as int),
        ),
{
    let ghost links = links_of(group@);
    let ghost n = group@.len() as int;
    let ghost above = links_of(parents@);
    proof {
        reveal(climbing);
        reveal(ranked);
        assert(links[0] == group@[0]@);
        assert(rest.take(n)[0] == rest[0]);
        assert forall|i: int| 0 <= i < links.len() implies (#[trigger] links[i]).key.len()
            <= MAX_KEY_SIZE by {
            assert(links[i] == rest[i]);
        }
    }
    let first_key = copy_bytes(&group[0].first_key);
    let page = tree.new_dirty(MutableNode::Internal(group));
    parents.push(Child { first_key, page });
    let ghost env = own_env(*tree);
    let ghost taken = flat_all(env, links, h);
    proof {
        let slot = page->Dirty_0;
        let node = Node::Internal(links);
        let link = Link { key: links[0].key, page };
        let others = rest.skip(n);
        lemma_ranked_kept(*old(tree), *tree, node, above, h + 1, left);
        lemma_ranked_kept(*old(tree), *tree, node, rest, h, right);
        lemma_run_cut(env, rest, h, n);
        assert(node_at(env, page) == Some(node));
        assert(arena(tree.dirty@).drop_last() =~= arena(old(tree).dirty@));
        assert(!run_owns(env, links, h, page)) by {
            if run_owns(env, links, h, page) {
                assert(run_owns(env, rest, h, page));
            }
        }
        assert(snug_run(env, links, h)) by {
            assert forall|s: usize| #[trigger]
                run_owns(env, links, h, PageRef::Dirty(s)) implies node_size(
                node_at(env, PageRef::Dirty(s))->0,
            ) <= PAGE_END by {
                assert(run_owns(env, rest, h, PageRef::Dirty(s)));
            }
        }
        assert(snug_run(env, others, h)) by {
            assert forall|s: usize| #[trigger]
                run_owns(env, others, h, PageRef::Dirty(s)) implies node_size(
                node_at(env, PageRef::Dirty(s))->0,
            ) <= PAGE_END by {
                assert(run_owns(env, rest, h, PageRef::Dirty(s)));
            }
        }
        lemma_node_built(env, slot, links, h);
        assert forall|p: PageRef| !(#[trigger] owns(env, link.page, h + 1, p) && run_owns(
            env,
            above,
            h + 1,
            p,
        )) by {
            if owns(env, link.page, h + 1, p) && run_owns(env, above, h + 1, p) {
                if p != page {
                    assert(run_owns(env, rest, h, p));
                    assert(run_owns(own_env(*old(tree)), above, h + 1, p));
                    assert(run_owns(own_env(*old(tree)), rest, h, p));
                }
            }
        }
        lemma_run_push(env, above, link, h + 1);
        assert(links_of(parents@) =~= above.push(link));
        lemma_pushed(env, above, link, h + 1);
        assert(taken + flat_all(env, others, h) == right);
        assert(right.skip(taken.len() as int) =~= flat_all(env, others, h));
        assert forall|x: u64|
            !#[trigger] run_owns(env, above.push(link), h + 1, PageRef::Committed(x)) by {
            assert(!run_owns(env, rest, h, PageRef::Committed(x)));
            assert(!run_owns(env, links, h, PageRef::Committed(x)));
            assert(!run_owns(env, above, h + 1, PageRef::Committed(x)));
        }
        assert forall|x: u64| !#[trigger] run_owns(env, others, h, PageRef::Committed(x)) by {
            assert(!run_owns(env, rest, h, PageRef::Committed(x)));
        }
        assert(keys_fit(others)) by {
            assert forall|i: int| 0 <= i < others.len() implies (#[trigger] others[i]).key.len()
                <= MAX_KEY_SIZE by {
                assert(others[i] == rest[n + i]);
            }
        }
        assert forall|p: PageRef|
            !(#[trigger] run_owns(env, above.push(link), h + 1, p) && run_owns(
                env,
                others,
                h,
                p,
            )) by {
            if run_owns(env, above.push(link), h + 1, p) && run_owns(env, others, h, p) {
                assert(run_owns(env, rest, h, p));
                assert(run_owns(own_env(*old(tree)), rest, h, p));
                if run_owns(env, above, h + 1, p) {
                    assert(run_owns(own_env(*old(tree)), above, h + 1, p));
                } else if p == page {
                } else {
                    assert(run_owns(env, links, h, p));
                }
            }
        }
    }
    Ghost(taken)
}

/// Parents branch once another was put over the first of the nodes that have none yet, of which
/// there are several unless it is the last.
proof fn lemma_level_branching(
    before: MutableTree,
    after: MutableTree,
    above: Seq<Link>,
    rest: Seq<Link>,
    group: Seq<Link>,
    h: nat,
    left: Seq<Entry>,
    right: Seq<Entry>,
)
    requires
        climbing(before, above, rest, h, left, right),
        0 < group.len() <= rest.len(),
        group == rest.take(group.len() as int),
        group.len() > 1 || group.len() == rest.len(),
        before.dirty@.len() <= usize::MAX,
        arena(after.dirty@) == arena(before.dirty@).push(Some(Node::Internal(group))),
        after.page_count == before.page_count,
        branching_run(own_env(before), above, h + 1, false),
        branching_run(own_env(before), rest, h, true),
    ensures
        ({
            let env = own_env(after);
            let last = group.len() == rest.len();
            let r = PageRef::Dirty(before.dirty@.len() as usize);
            let link = Link { key: group[0].key, page: r };
            &&& branching_run(env, above.push(link), h + 1, last)
            &&& branching_run(env, rest.skip(group.len() as int), h, true)
            &&& node_at(env, r) == Some(Node::Internal(group))
        }),
{
    reveal(climbing);
    let env = own_env(after);
    let node = Node::Internal(group);
    let last = group.len() == rest.len();
    let r = PageRef::Dirty(before.dirty@.len() as usize);
    let link = Link { key: group[0].key, page: r };
    let others = rest.skip(group.len() as int);
    lemma_ranked_branching(before, after, node, above, h + 1, left, false);
    lemma_ranked_branching(before, after, node, rest, h, right, true);
    assert(rest =~= group + others);
    lemma_branching_add(env, group, others, h, true);
    assert(arena(before.dirty@).len() == before.dirty@.len());
    assert(node_at(env, r) == Some(node));
    lemma_branching_built(env, r, node, h + 1, last);
    assert(above.push(link) =~= above + seq![link]);
    lemma_branching_add(env, above, seq![link], h + 1, last);
}

/// Copies a reference to a child.
fn copy_child(child: &Child) -> (copy: Child)
    ensures
        copy@ == child@,
{
    Child { first_key: copy_bytes(&child.first_key), page: child.page }
}

/// Puts nodes under internal nodes, each as full as the order allows.
fn build_internal_level(
    tree: &mut MutableTree,
    children: &Vec<Child>,
    Ghost(h): Ghost<nat>,
    Ghost(all): Ghost<Seq<Entry>>,
    Ghost(from): Ghost<int>,
) -> (parents: Vec<Child>)
    requires
        old(tree).inv(),
        rising(arena(old(tree).dirty@), all, from),
        in_slots(links_of(children@), from),
        from + children@.len() == old(tree).dirty@.len(),
        children@.len() > 1,
        ranked(*old(tree), links_of(children@), h, all),
        branching_run(own_env(*old(tree)), links_of(children@), h, true),
        forall|i: int|
            from <= i < old(tree).dirty@.len() ==> #[trigger] tier(arena(old(tree).dirty@), i) == h,
    ensures
        final(tree).inv(),
        final(tree).page_count == old(tree).page_count,
        final(tree).retired@ == old(tree).retired@,
        0 < parents@.len() <= (children@.len() + 1) / 2,
        stock(arena(final(tree).dirty@)) == stock(arena(old(tree).dirty@)) + parents@.len(),
        ranked(*final(tree), links_of(parents@), h + 1, all),
        branching_run(own_env(*final(tree)), links_of(parents@), h + 1, true),
        stays_wide(own_env(*final(tree)), links_of(parents@)),
        rising(arena(final(tree).dirty@), all, from + children@.len()),
        in_slots(links_of(parents@), from + children@.len()),
        from + children@.len() + parents@.len() == final(tree).dirty@.len(),
        forall|i: int|
            from + children@.len() <= i < final(tree).dirty@.len() ==> #[trigger] tier(
                arena(final(tree).dirty@),
                i,
            ) == h + 1,
{
    let ghost links = links_of(children@);
    let mut parents: Vec<Child> = Vec::new();
    let mut start: usize = 0;
    let ghost mut left: Seq<Entry> = Seq::empty();
    let ghost mut right: Seq<Entry> = all;
    proof {
        reveal(climbing);
        reveal(ranked);
        lemma_ranked_none(*tree, h + 1);
        assert(links_of(parents@) =~= Seq::<Link>::empty());
        assert(links.skip(0) =~= links);
        assert(left + right =~= all);
    }
    while start < children.len()
        invariant
            start <= children@.len(),
            children@.len() > 1,
            links == links_of(children@),
            tree.inv(),
            tree.page_count == old(tree).page_count,
            tree.retired@ == old(tree).retired@,
            climbing(*tree, links_of(parents@), links.skip(start as int), h, left, right),
            branching_run(own_env(*tree), links.skip(start as int), h, true),
            branching_run(
                own_env(*tree),
                links_of(parents@),
                h + 1,
                start == children@.len(),
            ),
            start == children@.len() ==> stays_wide(own_env(*tree), links_of(parents@)),
            stock(arena(tree.dirty@)) == stock(arena(old(tree).dirty@)) + parents@.len(),
            left + right == all,
            2 * parents@.len() <= start || (start == children@.len() && 2 * parents@.len() <= start
                + 1),
            keys_fit(links),
            start > 0 ==> parents@.len() > 0,
            rising(arena(tree.dirty@), all, from + start),
            0 <= from,
            in_slots(links, from),
            in_slots(links_of(parents@), from + children@.len()),
            from + children@.len() + parents@.len() == tree.dirty@.len(),
            forall|i: int|
                from <= i < from + children@.len() ==> #[trigger] tier(arena(tree.dirty@), i) == h,
            forall|i: int|
                from + children@.len() <= i < tree.dirty@.len() ==> #[trigger] tier(
                    arena(tree.dirty@),
                    i,
                ) == h + 1,
            parents@.len() > 0 && start < children@.len() ==> (arena(
                tree.dirty@,
            ).last() matches Some(Node::Internal(last)) && last.len() > 1 && internal_size(
                last.push(links[start as int]),
            ) > PAGE_END),
        decreases children@.len() - start,
    {
        assert(children@.len() == children.len());
        let mut group: Vec<Child> = Vec::new();
        group.push(copy_child(&children[start]));
        let mut size: usize = PAGE_HEADER;
        let mut cursor: usize = start + 1;
        let mut full = false;
        proof {
            assert(links[start as int] == children@[start as int]@);
            assert(links_of(group@) =~= links.subrange(start as int, cursor as int));
            assert(links_of(group@).skip(1) =~= Seq::<Link>::empty());
        }
        while cursor < children.len() && !full
            invariant
                start < cursor <= children@.len(),
                links == links_of(children@),
                children@.len() == children.len(),
                group@.len() == cursor - start,
                links_of(group@) == links.subrange(start as int, cursor as int),
                size == internal_size(links_of(group@)),
                size <= PAGE_END,
                keys_fit(links),
                full ==> cursor > start + 1 && cursor < children@.len() && size + SLOT_SIZE
                    + links[cursor as int].key.len() > PAGE_END,
            decreases children@.len() - cursor, if full { 0int } else { 1int },
        {
            let key = &children[cursor].first_key;
            assert(links[cursor as int] == children@[cursor as int]@);
            let step = SLOT_SIZE + key.len();
            if cursor > start + 1 && size + step > PAGE_END {
                full = true;
            } else {
                let ghost before = links_of(group@);
                let child = copy_child(&children[cursor]);
                group.push(child);
                proof {
                    let after = links_of(group@);
                    assert(after =~= before.push(links[cursor as int]));
                    assert(after =~= links.subrange(start as int, cursor + 1));
                    assert(after.skip(1) =~= before.skip(1).push(links[cursor as int]));
                    assert(after.skip(1).drop_last() =~= before.skip(1));
                    assert(key_bytes(after.skip(1)) == key_bytes(before.skip(1))
                        + links[cursor as int].key.len());
                    if cursor == start + 1 {
                        assert(before.skip(1) =~= Seq::<Link>::empty());
                    }
                }
                size = size + step;
                cursor = cursor + 1;
            }
        }
        let ghost rest = links.skip(start as int);
        let ghost n = cursor - start;
        proof {
            assert(rest.take(n) =~= links.subrange(start as int, cursor as int));
            assert(rest.skip(n) =~= links.skip(cursor as int));
        }
        let ghost shelf = arena(tree.dirty@);
        let ghost grouped = links_of(group@);
        let ghost before = *tree;
        let ghost above = links_of(parents@);
        let moved = add_parent(
            tree,
            &mut parents,
            group,
            Ghost(rest),
            Ghost(h),
            Ghost(left),
            Ghost(right),
        );
        proof {
            assert forall|i: int| 0 <= i < grouped.len() implies (#[trigger] grouped[i]).page
                == PageRef::Dirty((from + start + i) as usize) by {
                assert(grouped[i] == links[start + i]);
            }
            assert(grouped[0] == links[start as int]);
            assert(shelf.len() == before.dirty@.len());
            lemma_internal_stacked(shelf, all, from + start, grouped);
            if cursor < children@.len() {
                let next = links[cursor as int];
                assert(grouped.push(next).skip(1) =~= grouped.skip(1).push(next));
                assert(grouped.skip(1).push(next).drop_last() =~= grouped.skip(1));
                assert(internal_size(grouped.push(next)) == internal_size(grouped) + SLOT_SIZE
                    + next.key.len());
            }
            lemma_level_branching(before, *tree, above, rest, grouped, h, left, right);
            assert(above.len() == 0 ==> start == 0);
            assert((left + moved@) + right.skip(moved@.len() as int) =~= left + right);
            left = left + moved@;
            right = right.skip(moved@.len() as int);
        }
        start = cursor;
    }
    proof {
        reveal(climbing);
        reveal(ranked);
        let none = links.skip(start as int);
        assert(none =~= Seq::<Link>::empty());
        assert(flat_all(own_env(*tree), none, h) =~= Seq::<Entry>::empty());
        assert(left =~= all);
    }
    parents
}

/// Rows in order give entries in order.
proof fn lemma_entries_sorted(rows: Seq<Row>)
    requires
        sorted_rows(rows),
    ensures
        sorted_entries(entries_for(rows)),
{
    let entries = entries_for(rows);
    assert forall|i: int, j: int| 0 <= i < j < entries.len() implies lt(
        #[trigger] entries[i].key,
        #[trigger] entries[j].key,
    ) by {
        assert(lt(rows[i].0, rows[j].0));
    }
}

/// The entries that store rows in memory read as those rows.
proof fn lemma_entries_read(env: Env, rows: Seq<Row>)
    ensures
        rows_of(env, entries_for(rows)) == rows,
{
    assert(rows_of(env, entries_for(rows)) =~= rows);
}

/// A tree in memory that holds the rows, with every node as full as the order allows.
pub(crate) fn pack(rows: &Vec<(Vec<u8>, Vec<u8>)>) -> (tree: MutableTree)
    requires
        rows_fit(pairs_of(rows@)),
        sorted_rows(pairs_of(rows@)),
    ensures
        tree.inv(),
        tree.page_count == META_PAGES,
        tree.retired@ == Set::<u64>::empty(),
        is_tree(own_env(tree), tree.root, tree.height@),
        tree.fits(Map::empty()),
        tree.branches(Map::empty()),
        rows_of(own_env(tree), tree.entries(Map::empty())) == pairs_of(rows@),
        forall|x: u64| !#[trigger] owns(
            own_env(tree),
            tree.root,
            tree.height@,
            PageRef::Committed(x),
        ),
        rows@.len() <= 0x8000_0000_0000_0000 ==> tree.height@ < MAX_DEPTH,
        stock(arena(tree.dirty@)) <= canonical_demand(pairs_of(rows@)),
        stacked(arena(tree.dirty@), entries_for(pairs_of(rows@))),
        tree.root == PageRef::Dirty((tree.dirty@.len() - 1) as usize),
{
    let ghost pairs = pairs_of(rows@);
    let ghost all = entries_for(pairs);
    let mut tree = MutableTree::new(META_PAGES, META_PAGES, Ghost(Map::empty()), Ghost(0));
    proof {
        lemma_entries_sorted(pairs);
    }
    if rows.len() == 0 {
        let none: Vec<LeafEntry> = Vec::new();
        assert(entries_of(none@) =~= Seq::<Entry>::empty());
        let ghost before = arena(tree.dirty@);
        let page = tree.new_dirty(MutableNode::Leaf(none));
        tree.root = page;
        proof {
            let env = own_env(tree);
            let entries = Seq::<Entry>::empty();
            assert(arena(tree.dirty@).drop_last() =~= before);
            assert(stock(before) == 0);
            assert(node_at(env, page) == Some(Node::Leaf(entries)));
            lemma_memory_values(env, page, entries);
            lemma_leaf_built(env, page->Dirty_0, entries);
            lemma_branching_built(env, page, Node::Leaf(entries), 0, true);
            assert forall|x: u64| !#[trigger] owns(env, page, 0, PageRef::Committed(x)) by {
                assert(!crate::graft::entries_own(env, entries, PageRef::Committed(x)));
            }
            assert(rows_of(env, entries) =~= pairs);
            assert(entries_for(pairs) =~= entries);
            assert(before =~= Seq::<Option<Node>>::empty());
            lemma_filled_none();
            assert(crate::spots::first_slots(0) =~= Seq::<PageRef>::empty());
            lemma_leaf_stacked(before, entries, entries);
            assert(entries + entries =~= entries);
            reveal(stacked);
        }
        return tree;
    }
    assert(stock(arena(tree.dirty@)) == 0);
    let mut level = build_leaves(&mut tree, rows);
    let ghost mut h: nat = 0;
    let ghost mut bound: nat = 0x8000_0000_0000_0000;
    let ghost mut from: int = 0;
    proof {
        vstd::arithmetic::power2::lemma2_to64_rest();
    }
    while level.len() > 1
        invariant
            tree.inv(),
            tree.page_count == META_PAGES,
            tree.retired@ == Set::<u64>::empty(),
            level@.len() > 0,
            ranked(tree, links_of(level@), h, all),
            branching_run(own_env(tree), links_of(level@), h, true),
            stays_wide(own_env(tree), links_of(level@)),
            rising(arena(tree.dirty@), all, from),
            in_slots(links_of(level@), from),
            from + level@.len() == tree.dirty@.len(),
            forall|i: int|
                from <= i < tree.dirty@.len() ==> #[trigger] tier(arena(tree.dirty@), i) == h,
            rows@.len() <= 0x8000_0000_0000_0000 ==> level@.len() <= bound && halved(h, bound),
            stock(arena(tree.dirty@)) + 2 * (level@.len() - 1) <= 3 * rows@.len() + weight(
                pairs_of(rows@),
            ),
        decreases level@.len(),
    {
        proof {
            if rows@.len() <= 0x8000_0000_0000_0000 {
                lemma_halved(h, bound, level@.len());
            }
        }
        let ghost children = level@.len();
        level = build_internal_level(&mut tree, &level, Ghost(h), Ghost(all), Ghost(from));
        proof {
            from = from + children;
            h = h + 1;
            bound = bound / 2;
        }
    }
    let root = level[0].page;
    tree.root = root;
    tree.height = Ghost(h);
    proof {
        let env = own_env(tree);
        let links = links_of(level@);
        reveal(ranked);
        reveal(run_ok);
        assert(links =~= seq![level@[0]@]);
        assert(links[0].page == root);
        assert(branching(env, links[0].page, h, true && 0 == links.len() - 1));
        assert(stacked(arena(tree.dirty@), all)) by {
            reveal(stacked);
        }
        assert(subtree(env, links[0].page, h));
        crate::model::lemma_flat_all_one(env, links[0], h);
        lemma_run_one(env, links[0], h);
        assert forall|x: u64| !#[trigger] owns(env, root, h, PageRef::Committed(x)) by {
            assert(!run_owns(env, links, h, PageRef::Committed(x)));
        }
        assert forall|slot: usize| #[trigger]
            owns(env, root, h, PageRef::Dirty(slot)) implies node_size(
            node_at(env, PageRef::Dirty(slot))->0,
        ) <= PAGE_END by {
            assert(run_owns(env, links, h, PageRef::Dirty(slot)));
        }
        lemma_entries_read(env, pairs);
        if rows@.len() <= 0x8000_0000_0000_0000 {
            lemma_halved_height(h, bound);
        }
    }
    tree
}

/// Whether a bound was halved `h` times from two to the power of sixty-three.
spec fn halved(h: nat, bound: nat) -> bool {
    &&& h <= 63
    &&& bound == vstd::arithmetic::power2::pow2((63 - h) as nat)
}

/// Halving the bound once more.
proof fn lemma_halved(h: nat, bound: nat, len: nat)
    requires
        halved(h, bound),
        1 < len <= bound,
    ensures
        halved(h + 1, bound / 2),
        (len + 1) / 2 <= bound / 2,
{
    if h == 63 {
        vstd::arithmetic::power2::lemma2_to64();
    }
    vstd::arithmetic::power2::lemma_pow2_unfold((63 - h) as nat);
}

/// A bound that was halved is reached below the depth limit.
proof fn lemma_halved_height(h: nat, bound: nat)
    requires
        halved(h, bound),
    ensures
        h < MAX_DEPTH,
{
}

/// A tree on storage.
pub struct BuiltTree {
    /// The page of the root.
    pub root: u64,
    /// The first page behind the tree.
    pub page_count: u64,
}

impl BuiltTree {
    /// Whether the pages hold the tree of height `h` with the given rows, on exactly the
    /// pages from `first_page` on: leaf by leaf, with the chains of a leaf before it, and then
    /// the internal nodes level by level, so that the root comes last.
    pub open spec fn stands(&self, pages: Pages, first_page: u64, rows: Seq<Row>, h: nat) -> bool {
        let env = published(pages, self.page_count);
        let r = PageRef::Committed(self.root);
        &&& is_tree(env, r, h)
        &&& rows_of(env, flat(env, r, h)) == rows
        &&& forall|x: u64| #[trigger]
            owns(env, r, h, PageRef::Committed(x)) == (first_page <= x < self.page_count)
        &&& first_page < self.page_count
        &&& self.root == self.page_count - 1
        &&& streamed(pages, first_page, self.page_count, entries_for(rows))
        &&& spreading(env, r, h)
        &&& rows.len() <= 0x8000_0000_0000_0000 ==> h < MAX_DEPTH
    }
}

impl BuiltTree {
    /// Whether the pages hold the tree with the given rows, on exactly the pages from
    /// `first_page` on.
    pub open spec fn holds(&self, pages: Pages, first_page: u64, rows: Seq<Row>) -> bool {
        exists|h: nat| #[trigger] self.stands(pages, first_page, rows, h)
    }
}

/// Whether a list of pages is the tree on the pages from `first_page` on.
pub open spec fn drafted(
    built: BuiltTree,
    list: Seq<(u64, [u8; PAGE_SIZE])>,
    map: Pages,
    first_page: u64,
    rows: Seq<Row>,
    h: nat,
) -> bool {
    &&& listed(page_list(list), map)
    &&& forall|j: int, k: int|
        0 <= j < k < list.len() ==> (#[trigger] list[j]).0 < (#[trigger] list[k]).0
    &&& forall|x: u64| #[trigger] map.contains_key(x) == (first_page <= x < built.page_count)
    &&& built.stands(map, first_page, rows, h)
}

/// Whether a list of pages is a tree on the pages from `first_page` on.
pub open spec fn has_draft(
    built: BuiltTree,
    list: Seq<(u64, [u8; PAGE_SIZE])>,
    first_page: u64,
    rows: Seq<Row>,
) -> bool {
    exists|map: Pages, h: nat| #[trigger] drafted(built, list, map, first_page, rows, h)
}

/// All slots of a packed tree belong to it.
proof fn lemma_packed_slots(tree: MutableTree, entries: Seq<Entry>)
    requires
        tree.dirty@.len() <= usize::MAX,
        is_tree(own_env(tree), tree.root, tree.height@),
        stacked(arena(tree.dirty@), entries),
        tree.root == PageRef::Dirty((tree.dirty@.len() - 1) as usize),
    ensures
        reached(own_env(tree), tree.root, tree.height@, all_slots(arena(tree.dirty@))),
        forall|marks: Seq<bool>| #[trigger]
            reached(own_env(tree), tree.root, tree.height@, marks) ==> marks == all_slots(
                arena(tree.dirty@),
            ),
        page_demand(arena(tree.dirty@), all_slots(arena(tree.dirty@))) == stock(
            arena(tree.dirty@),
        ),
{
    let none: Pages = Map::empty();
    let env = own_env(tree);
    let dirty = arena(tree.dirty@);
    let marks = live_slots(tree, none);
    lemma_live_slots(tree, none);
    assert forall|slot: int| 0 <= slot < marks.len() implies marks[slot] by {
        lemma_stacked_reached(env, tree.root, tree.height@, entries, slot as usize);
    }
    assert(marks =~= all_slots(dirty));
    lemma_all_slots(dirty, dirty.len() as int);
}

/// Pages that hold the slots of an arena one after the other are a stream.
proof fn lemma_all_streamed(
    dirty: Seq<Option<Node>>,
    map: Pages,
    first_page: u64,
    next_page: u64,
    entries: Seq<Entry>,
)
    requires
        stacked(dirty, entries),
        filed_below(
            map,
            dirty,
            all_slots(dirty),
            spots(dirty, first_page as int),
            dirty.len() as int,
        ),
        next_page == first_page + stock(dirty),
        forall|x: u64| #[trigger] map.contains_key(x) == (first_page <= x < next_page),
    ensures
        streamed(map, first_page, next_page, entries),
{
    let marks = all_slots(dirty);
    assert forall|slot: int| 0 <= slot < dirty.len() implies #[trigger] slot_filed(
        map,
        dirty,
        marks,
        spots(dirty, first_page as int),
        slot,
    ) by {
        assert(marks[slot]);
    }
    assert(streamed_by(dirty, map, first_page, next_page, entries));
}

/// The map of the pages of a draft.
proof fn lemma_draft_map(
    env: Env,
    r: PageRef,
    h: nat,
    alloc: Seq<u64>,
    list: Seq<(u64, Seq<u8>)>,
    first_page: u64,
    next_page: u64,
) -> (map: Pages)
    requires
        exists|map: Pages| #[trigger]
            listed(list, map) && map.dom() == alloc.to_set() && files_all(env, r, h, alloc, map),
        forall|x: u64| #[trigger] alloc.contains(x) == (first_page <= x < next_page),
    ensures
        listed(list, map),
        files_all(env, r, h, alloc, map),
        written(Map::empty(), list) == map,
        forall|x: u64| #[trigger] map.contains_key(x) == (first_page <= x < next_page),
{
    let map = choose|map: Pages| #[trigger]
        listed(list, map) && map.dom() == alloc.to_set() && files_all(env, r, h, alloc, map);
    let chosen = choose|chosen: Pages| listed(list, chosen);
    lemma_listed_unique(list, map, chosen);
    assert(written(Map::empty(), list) =~= map);
    assert forall|x: u64| #[trigger] map.contains_key(x) == (first_page <= x < next_page) by {
        assert(map.dom().contains(x) == alloc.contains(x));
    }
    map
}

/// The last slot of an arena goes to the last page.
proof fn lemma_draft_root(
    dirty: Seq<Option<Node>>,
    alloc: Seq<u64>,
    first_page: u64,
    entries: Seq<Entry>,
)
    requires
        stacked(dirty, entries),
        dirty.len() <= usize::MAX,
        alloc == spots(dirty, first_page as int),
        alloc.len() == stock(dirty),
        first_page + stock(dirty) <= u64::MAX,
    ensures
        dirty.len() > 0,
        resolve(
            PageRef::Dirty((dirty.len() - 1) as usize),
            physical_of(all_slots(dirty), alloc),
        ) == Some((first_page + stock(dirty) - 1) as u64),
{
    reveal(stacked);
    let top = dirty.len() - 1;
    lemma_all_slots(dirty, top);
    assert(physical_of(all_slots(dirty), alloc)[top] == Some(alloc[top]));
    lemma_last_spot(dirty, first_page as int);
}

/// A tree on pages of its own stands.
proof fn lemma_draft_stands(
    env: Env,
    root: PageRef,
    built: BuiltTree,
    map: Pages,
    alloc: Seq<u64>,
    first_page: u64,
    rows: Seq<Row>,
    h: nat,
)
    requires
        ({
            let other = published(map, built.page_count);
            let r = PageRef::Committed(built.root);
            &&& is_tree(other, r, h)
            &&& spreading(other, r, h)
            &&& rows_of(other, flat(other, r, h)) == rows
            &&& forall|x: u64| #[trigger]
                owns(other, r, h, PageRef::Committed(x)) == (owns(
                    env,
                    root,
                    h,
                    PageRef::Committed(x),
                ) || alloc.contains(x))
        }),
        forall|x: u64| !#[trigger] owns(env, root, h, PageRef::Committed(x)),
        forall|x: u64| #[trigger] alloc.contains(x) == (first_page <= x < built.page_count),
        built.root == built.page_count - 1,
        streamed(map, first_page, built.page_count, entries_for(rows)),
        rows.len() <= 0x8000_0000_0000_0000 ==> h < MAX_DEPTH,
    ensures
        built.stands(map, first_page, rows, h),
{
    crate::graft::lemma_owns_root(
        published(map, built.page_count),
        PageRef::Committed(built.root),
        h,
    );
    assert(alloc.contains(built.root));
}

/// A packed tree once its pages are encoded.
#[verifier::rlimit(60)]
#[verifier::spinoff_prover]
proof fn lemma_drafted(
    tree: MutableTree,
    first_page: u64,
    next_page: u64,
    alloc: Seq<u64>,
    built: BuiltTree,
    pages: Seq<(u64, [u8; PAGE_SIZE])>,
    rows: Seq<Row>,
)
    requires
        tree.dirty@.len() <= usize::MAX,
        is_tree(own_env(tree), tree.root, tree.height@),
        stacked(arena(tree.dirty@), entries_for(rows)),
        tree.root == PageRef::Dirty((tree.dirty@.len() - 1) as usize),
        rows_of(own_env(tree), tree.entries(Map::empty())) == rows,
        rows.len() <= 0x8000_0000_0000_0000 ==> tree.height@ < MAX_DEPTH,
        forall|x: u64| !#[trigger] owns(
            own_env(tree),
            tree.root,
            tree.height@,
            PageRef::Committed(x),
        ),
        alloc == spots(arena(tree.dirty@), first_page as int),
        alloc.len() == stock(arena(tree.dirty@)),
        next_page == first_page + stock(arena(tree.dirty@)),
        forall|x: u64| #[trigger] alloc.contains(x) == (first_page <= x < next_page),
        built.page_count == next_page,
        forall|i: int, j: int|
            0 <= i < j < pages.len() ==> (#[trigger] pages[i]).0 <= (#[trigger] pages[j]).0,
        exists|map: Pages| #[trigger]
            listed(page_list(pages), map) && map.dom() == alloc.to_set() && files_all(
                own_env(tree),
                tree.root,
                tree.height@,
                alloc,
                map,
            ),
        forall|marks: Seq<bool>| #[trigger]
            reached(own_env(tree), tree.root, tree.height@, marks) ==> Some(built.root) == resolve(
                tree.root,
                physical_of(marks, alloc),
            ),
        ({
            let other = published(written(Map::empty(), page_list(pages)), next_page);
            let r = PageRef::Committed(built.root);
            &&& is_tree(other, r, tree.height@)
            &&& spreading(other, r, tree.height@)
            &&& rows_of(other, flat(other, r, tree.height@)) == rows
            &&& forall|x: u64| #[trigger]
                owns(other, r, tree.height@, PageRef::Committed(x)) == (owns(
                    own_env(tree),
                    tree.root,
                    tree.height@,
                    PageRef::Committed(x),
                ) || alloc.contains(x))
        }),
    ensures
        has_draft(built, pages, first_page, rows),
{
    let env = own_env(tree);
    let h = tree.height@;
    let dirty = arena(tree.dirty@);
    let list = page_list(pages);
    let map = lemma_draft_map(env, tree.root, h, alloc, list, first_page, next_page);
    assert(streamed(map, first_page, next_page, entries_for(rows)) && built.root == next_page - 1)
        by {
        lemma_packed_slots(tree, entries_for(rows));
        assert(filed_below(map, dirty, all_slots(dirty), alloc, dirty.len() as int));
        lemma_all_streamed(dirty, map, first_page, next_page, entries_for(rows));
        lemma_draft_root(dirty, alloc, first_page, entries_for(rows));
        assert(resolve(tree.root, physical_of(all_slots(dirty), alloc)) == Some(built.root));
    }
    lemma_draft_stands(env, tree.root, built, map, alloc, first_page, rows, h);
    assert forall|j: int, k: int| 0 <= j < k < pages.len() implies (#[trigger] pages[j]).0 < (
    #[trigger] pages[k]).0 by {
        assert(list[j].0 != list[k].0);
    }
    assert(drafted(built, pages, map, first_page, rows, h));
}

/// Encodes a tree that holds the rows on the pages from `first_page` on.
#[verifier::spinoff_prover]
fn draft(rows: &Vec<(Vec<u8>, Vec<u8>)>, first_page: u64) -> (result: Result<
    (BuiltTree, Vec<(u64, [u8; PAGE_SIZE])>),
>)
    requires
        rows_fit(pairs_of(rows@)),
        sorted_rows(pairs_of(rows@)),
        first_page >= META_PAGES,
    ensures
        result matches Ok((built, list)) ==> has_draft(built, list@, first_page, pairs_of(rows@))
            && built.page_count <= first_page + canonical_demand(pairs_of(rows@)),
        result matches Err(error) ==> error is Corrupt && !spacious(pairs_of(rows@), first_page),
{
    let tree = pack(rows);
    let ghost none: Pages = Map::empty();
    let ghost env = own_env(tree);
    let ghost h = tree.height@;
    let ghost pairs = pairs_of(rows@);
    let plan = tree.allocation_plan(Ghost(none))?;
    let ghost dirty = arena(tree.dirty@);
    proof {
        assert(tree.dirty@.len() == tree.dirty.len());
        assert forall|i: int| 0 <= i < tree.dirty@.len() implies (#[trigger] dirty[i]) is Some by {
            reveal(stacked);
        }
        lemma_packed_slots(tree, entries_for(pairs));
        assert(plan.demand() == stock(dirty));
    }
    let total = plan.total_pages()?;
    let next_page = match first_page.checked_add(total as u64) {
        Some(next) => next,
        None => {
            return Err(corrupt("database page count overflow"));
        },
    };
    let allocations = number_pages(&tree, first_page);
    proof {
        let alloc = allocations@;
        assert forall|k: int| 0 <= k < alloc.len() implies in_snapshot(
            #[trigger] alloc[k],
            next_page,
        ) by {
            assert(alloc.contains(alloc[k]));
        }
        assert(grantable(env, tree.root, h, alloc, next_page));
    }
    let finished = tree.finish(&allocations, next_page, Ghost(none))?;
    let built = BuiltTree { root: finished.root, page_count: next_page };
    proof {
        lemma_drafted(tree, first_page, next_page, allocations@, built, finished.pages@, pairs);
    }
    Ok((built, finished.pages))
}

/// Whether the pages of a tree from `first` up to `end` were written in increasing order, each
/// once, and are stored.
pub open spec fn wrote_tree(
    before: Seq<Call>,
    after: Seq<Call>,
    contents: Seq<u8>,
    first: u64,
    end: u64,
) -> bool {
    exists|list: Seq<(u64, [u8; PAGE_SIZE])>| #[trigger]
        wrote_pages(before, after, list) && holds_pages(contents, list) && (forall|id: u64| #[trigger]
            listed_ids(list).contains(id) == (first <= id < end)) && forall|j: int, k: int|
            0 <= j < k < list.len() ==> (#[trigger] list[j]).0 < (#[trigger] list[k]).0
}

/// Writes a tree that holds the rows to the pages from `first_page` on.
pub fn build<I: Storage>(io: &mut I, rows: &Vec<(Vec<u8>, Vec<u8>)>, first_page: u64) -> (result:
    Result<BuiltTree>)
    requires
        rows_fit(pairs_of(rows@)),
        sorted_rows(pairs_of(rows@)),
        first_page >= META_PAGES,
    ensures
        keeps(old(io).contents(), final(io).contents(), pages_from(first_page)),
        spoils(old(io), final(io), pages_from(first_page), first_page),
        old(io).contents().len() <= final(io).contents().len(),
        result matches Ok(built) ==> built.holds(
            pages_of(final(io).contents()),
            first_page,
            pairs_of(rows@),
        ) && built.page_count <= first_page + canonical_demand(pairs_of(rows@)),
        result matches Ok(built) ==> wrote_tree(
            old(io).calls(),
            final(io).calls(),
            final(io).contents(),
            first_page,
            built.page_count,
        ),
        result matches Ok(built) ==> final(io).contents().len() <= old(io).contents().len()
            || final(io).contents().len() <= built.page_count * PAGE_SIZE,
        result matches Err(error) ==> blamed(error, old(io), final(io)) || (
        error is Corrupt && !spacious(pairs_of(rows@), first_page)),
        old(io).failures() <= final(io).failures(),
{
    let ghost behind = pages_from(first_page);
    proof {
        lemma_spoils_same(old(io), io, behind, first_page);
    }
    let (built, list) = draft(rows, first_page)?;
    let ghost (map, h) = choose|map: Pages, h: nat| #[trigger]
        drafted(built, list@, map, first_page, pairs_of(rows@), h);
    let ghost ids = listed_ids(list@);
    let outcome = put_pages(io, &list);
    proof {
        assert(ids.subset_of(behind)) by {
            assert forall|id: u64| ids.contains(id) implies #[trigger] behind.contains(id) by {
                let k = choose|k: int| 0 <= k < list@.len() && (#[trigger] list@[k]).0 == id;
                assert(page_list(list@)[k].0 == id);
                assert(map.contains_key(id));
            }
        }
        assert(listed_below(list@, built.page_count)) by {
            assert forall|k: int| 0 <= k < list@.len() implies (#[trigger] list@[k]).0
                < built.page_count by {
                assert(page_list(list@)[k].0 == list@[k].0);
                assert(map.contains_key(list@[k].0));
            }
        }
        lemma_spoils_widen(old(io), io, ids, behind, first_page);
    }
    match outcome {
        Ok(()) => {},
        Err(error) => {
            proof {
                if error is Corrupt {
                    let k = choose|k: int|
                        0 <= k < list@.len() && ((#[trigger] list@[k]).0 + 1) * PAGE_SIZE
                            > u64::MAX;
                    assert(page_list(list@)[k].0 == list@[k].0);
                    assert(map.contains_key(list@[k].0));
                }
            }
            return Err(error);
        },
    }
    proof {
        lemma_draft_stored(built, list@, map, first_page, pairs_of(rows@), h, io.contents());
        assert(built.holds(pages_of(io.contents()), first_page, pairs_of(rows@)));
        assert forall|id: u64| #[trigger] ids.contains(id) == (first_page <= id < built.page_count) by {
            if map.contains_key(id) {
                let k = choose|k: int|
                    0 <= k < page_list(list@).len() && (#[trigger] page_list(list@)[k]).0 == id;
                assert(list@[k].0 == id);
            }
            if ids.contains(id) {
                let k = choose|k: int| 0 <= k < list@.len() && (#[trigger] list@[k]).0 == id;
                assert(page_list(list@)[k].0 == id);
            }
        }
        assert(wrote_pages(old(io).calls(), io.calls(), list@));
    }
    Ok(built)
}

/// A tree stands once its pages are stored.
proof fn lemma_draft_stored(
    built: BuiltTree,
    list: Seq<(u64, [u8; PAGE_SIZE])>,
    map: Pages,
    first_page: u64,
    rows: Seq<Row>,
    h: nat,
    contents: Seq<u8>,
)
    requires
        drafted(built, list, map, first_page, rows, h),
        (forall|j: int, k: int|
            0 <= j < k < list.len() ==> (#[trigger] list[j]).0 != (#[trigger] list[k]).0)
            ==> holds_pages(contents, list),
    ensures
        built.stands(pages_of(contents), first_page, rows, h),
{
    let none: Pages = Map::empty();
    let items = page_list(list);
    assert forall|j: int, k: int| 0 <= j < k < list.len() implies (#[trigger] list[j]).0 != (
    #[trigger] list[k]).0 by {
        assert(items[j].0 != items[k].0);
    }
    let chosen = choose|chosen: Pages| listed(items, chosen);
    lemma_listed_unique(items, map, chosen);
    assert(written(none, items) =~= map);
    lemma_tree_stored(none, list, map, contents, built.page_count, built.root, h);
    lemma_streamed_kept(
        map,
        pages_of(contents),
        first_page,
        built.page_count,
        entries_for(rows),
    );
    let r = PageRef::Committed(built.root);
    assert forall|x: u64| #[trigger]
        owns(published(pages_of(contents), built.page_count), r, h, PageRef::Committed(x)) == (
        first_page <= x < built.page_count) by {
        assert(owns(published(map, built.page_count), r, h, PageRef::Committed(x)) == (first_page
            <= x < built.page_count));
    }
}

} // verus!
