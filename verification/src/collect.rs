//! Checking a published tree as a whole and collecting what it holds.
use crate::error::{corrupt, unexpected_tree_page, Result};
use crate::format::{in_snapshot, INTERNAL, LEAF, PAGE_HEADER, PAGE_SIZE, SLOT_SIZE};
use crate::model::{
    chain_ids, flat, flat_all, is_tree, keyed, lemma_child_piece, lemma_flat_all_one,
    lemma_height_unique, lemma_run_sorted, lemma_tree_rows, node_at, owns, published, read_value,
    readable, rows_of, run_ok, run_owns, subtree, tree_rows, value_ok, value_owns, value_pages,
    values_ok, Env, Pages, Row,
};
use crate::node::{copy_bytes, sorted_entries, Entry, Link, Node, PageRef, Stored, StoredValue};
use crate::order::{compare, lemma_lt_transitive, lt, Order};
use crate::page::{
    count_of, decode_entry, internal_key, internal_links, internal_slot_valid, internal_valid,
    leaf_entries, leaf_valid, lemma_internal_valid, lemma_leaf_valid, page_u16, page_u64,
    validate_internal, validate_leaf,
};
use crate::reader::{
    fails_for, fresh_chain, hoards, honest, incomplete, lemma_near_child, lemma_near_root,
    lemma_near_value, near_below, read_chain, steady, PageReader, MAX_DEPTH,
};
use std::collections::HashSet;
use vstd::prelude::*;

verus! {

/// Keys and values as mathematical rows.
pub open spec fn pairs_of(pairs: Seq<(Vec<u8>, Vec<u8>)>) -> Seq<Row> {
    pairs.map_values(|pair: (Vec<u8>, Vec<u8>)| (pair.0@, pair.1@))
}

/// What is known of a subtree once it has been collected.
struct Subtree {
    first_key: Option<Vec<u8>>,
    last_key: Option<Vec<u8>>,
    height: usize,
}

/// Whether `r` heads a well-formed tree of height `h` that ends above the depth limit
/// and owns no page that was visited before.
pub open spec fn collects(env: Env, r: PageRef, visited: Set<u64>, depth: nat, h: nat) -> bool {
    &&& h + depth < MAX_DEPTH
    &&& is_tree(env, r, h)
    &&& forall|id: u64| #[trigger]
        owns(env, r, h, PageRef::Committed(id)) ==> !visited.contains(id)
}

/// Whether the tree below `r` can be collected.
pub open spec fn collectable(env: Env, r: PageRef, visited: Set<u64>, depth: nat) -> bool {
    exists|h: nat| collects(env, r, visited, depth, h)
}

/// Whether the first and last keys are those of the entries.
spec fn spans(subtree: Subtree, entries: Seq<Entry>) -> bool {
    if entries.len() == 0 {
        subtree.first_key is None && subtree.last_key is None
    } else {
        &&& subtree.first_key matches Some(first) && first@ == entries[0].key
        &&& subtree.last_key matches Some(last) && last@ == entries.last().key
    }
}

/// Concatenating sorted entries gives sorted entries if the keys meet in order.
pub proof fn lemma_sorted_concat(a: Seq<Entry>, b: Seq<Entry>)
    requires
        sorted_entries(a),
        sorted_entries(b),
        a.len() > 0 && b.len() > 0 ==> lt(a.last().key, b[0].key),
    ensures
        sorted_entries(a + b),
{
    let both = a + b;
    assert forall|i: int, j: int| 0 <= i < j < both.len() implies lt(
        #[trigger] both[i].key,
        #[trigger] both[j].key,
    ) by {
        if i < a.len() && j >= a.len() {
            let last = a.len() - 1;
            if i < last {
                assert(lt(a[i].key, a[last].key));
                lemma_lt_transitive(a[i].key, a[last].key, b[0].key);
            }
            if j > a.len() {
                assert(lt(b[0].key, b[j - a.len()].key));
                lemma_lt_transitive(a[i].key, b[0].key, b[j - a.len()].key);
            }
        }
    }
}

/// A run that is extended by a tree apart from it.
pub proof fn lemma_run_push(env: Env, links: Seq<Link>, link: Link, h: nat)
    requires
        run_ok(env, links, h),
        subtree(env, link.page, h),
        flat(env, link.page, h).len() > 0,
        forall|p: PageRef|
            !(#[trigger] owns(env, link.page, h, p) && run_owns(env, links, h, p)),
    ensures
        run_ok(env, links.push(link), h),
        flat_all(env, links.push(link), h) == flat_all(env, links, h) + flat(env, link.page, h),
        forall|p: PageRef| #[trigger]
            run_owns(env, links.push(link), h, p) == (run_owns(env, links, h, p) || owns(
                env,
                link.page,
                h,
                p,
            )),
{
    reveal(subtree);
    reveal(run_ok);
    let more = links.push(link);
    assert(more.drop_last() =~= links);
    assert forall|i: int| 0 <= i < more.len() implies subtree(env, (#[trigger] more[i]).page, h)
        && flat(env, more[i].page, h).len() > 0 by {
        if i < links.len() {
            assert(more[i] == links[i]);
        }
    }
    assert forall|i: int, j: int, p: PageRef| 0 <= i < j < more.len() implies !(#[trigger] owns(
        env,
        more[i].page,
        h,
        p,
    ) && #[trigger] owns(env, more[j].page, h, p)) by {
        assert(more[i] == links[i]);
        if j < links.len() {
            assert(more[j] == links[j]);
        } else if owns(env, links[i].page, h, p) {
            assert(run_owns(env, links, h, p));
        }
    }
    assert forall|p: PageRef| #[trigger]
        run_owns(env, more, h, p) == (run_owns(env, links, h, p) || owns(env, link.page, h, p)) by {
        if run_owns(env, more, h, p) {
            let i = choose|i: int|
                0 <= i < more.len() && owns(env, (#[trigger] more[i]).page, h, p);
            if i < links.len() {
                assert(owns(env, links[i].page, h, p));
            }
        }
        if run_owns(env, links, h, p) {
            let i = choose|i: int|
                0 <= i < links.len() && owns(env, (#[trigger] links[i]).page, h, p);
            assert(more[i] == links[i]);
        }
        if owns(env, link.page, h, p) {
            assert(more[links.len() as int] == link);
        }
    }
}

/// If a tree can be collected, so can each child once the children before it are.
proof fn lemma_child_collects(
    env: Env,
    page_id: u64,
    links: Seq<Link>,
    visited: Set<u64>,
    depth: nat,
    h: nat,
    k: int,
    visited_then: Set<u64>,
)
    requires
        collects(env, PageRef::Committed(page_id), visited, depth, h),
        node_at(env, PageRef::Committed(page_id)) == Some(Node::Internal(links)),
        0 <= k < links.len(),
        forall|id: u64| #[trigger]
            visited_then.contains(id) ==> visited.contains(id) || id == page_id || run_owns(
                env,
                links.take(k),
                (h - 1) as nat,
                PageRef::Committed(id),
            ),
    ensures
        collects(env, links[k].page, visited_then, depth + 1, (h - 1) as nat),
{
    reveal(subtree);
    reveal(owns);
    reveal(run_ok);
    let r = PageRef::Committed(page_id);
    let below = (h - 1) as nat;
    lemma_run_sorted(env, links, below, 1);
    assert forall|id: u64| #[trigger]
        owns(env, links[k].page, below, PageRef::Committed(id)) implies !visited_then.contains(
        id,
    ) by {
        assert(owns(env, r, h, PageRef::Committed(id)));
        assert(run_owns(env, links, below, PageRef::Committed(id)));
        if run_owns(env, links.take(k), below, PageRef::Committed(id)) {
            let i = choose|i: int|
                0 <= i < links.take(k).len() && owns(
                    env,
                    (#[trigger] links.take(k)[i]).page,
                    below,
                    PageRef::Committed(id),
                );
            assert(owns(env, links[i].page, below, PageRef::Committed(id)));
        }
    }
}

/// The values of a leaf with one more entry.
proof fn lemma_values_push(env: Env, r: PageRef, entries: Seq<Entry>, entry: Entry)
    requires
        values_ok(env, r, entries),
        value_ok(env.pages, env.count, entry.value),
        !value_owns(env, entry.value, r),
        forall|i: int, p: PageRef|
            0 <= i < entries.len() ==> !(#[trigger] value_owns(env, entries[i].value, p)
                && value_owns(env, entry.value, p)),
    ensures
        values_ok(env, r, entries.push(entry)),
{
    reveal(values_ok);
    let more = entries.push(entry);
    assert(forall|i: int| 0 <= i < entries.len() ==> more[i] == entries[i]);
    assert forall|i: int, j: int, p: PageRef| 0 <= i < j < more.len() implies !(
    #[trigger] value_owns(env, more[i].value, p) && #[trigger] value_owns(env, more[j].value, p)) by {
        assert(more[i] == entries[i]);
        if j < entries.len() {
            assert(more[j] == entries[j]);
        }
    }
}

/// Collects the entries of one leaf.
fn collect_leaf<R: PageReader>(
    reader: &mut R,
    page: &[u8; PAGE_SIZE],
    page_id: u64,
    page_count: u64,
    output: &mut Vec<(Vec<u8>, Vec<u8>)>,
    visited: &mut HashSet<u64>,
) -> (result: Result<Subtree>)
    requires
        old(reader).usable(),
        leaf_valid(page@),
        node_at(published(old(reader).pages(), page_count), PageRef::Committed(page_id)) == Some(
            Node::Leaf(leaf_entries(page@)),
        ),
        old(visited)@.contains(page_id),
    ensures
        final(reader).usable(),
        final(reader).origin() == old(reader).origin(),
        old(reader).failures() <= final(reader).failures(),
        hoards(*old(reader), *final(reader)),
        honest(
            result,
            old(reader).failures(),
            final(reader).failures(),
            final(reader).reported(),
            incomplete(old(reader).pages(), page_count),
        ),
        final(reader).pages() == old(reader).pages(),
        ({
            let env = published(old(reader).pages(), page_count);
            let r = PageRef::Committed(page_id);
            let entries = leaf_entries(page@);
            match result {
                Ok(found) => {
                    &&& is_tree(env, r, 0)
                    &&& found.height == 0
                    &&& spans(found, entries)
                    &&& pairs_of(final(output)@) == pairs_of(old(output)@) + rows_of(env, entries)
                    &&& forall|id: u64| #[trigger]
                        final(visited)@.contains(id) == (old(visited)@.contains(id) || owns(
                            env,
                            r,
                            0,
                            PageRef::Committed(id),
                        ))
                    &&& forall|id: u64| #[trigger]
                        owns(env, r, 0, PageRef::Committed(id)) && id != page_id ==> !old(
                            visited,
                        )@.contains(id)
                },
                Err(error) => fails_for(
                    error,
                    !(is_tree(env, r, 0) && forall|id: u64| #[trigger]
                        owns(env, r, 0, PageRef::Committed(id)) && id != page_id ==> !old(
                            visited,
                        )@.contains(id)),
                    final(reader).failures() > old(reader).failures(),
                ),
            }
        }),
        steady(
            near_below(
                published(old(reader).pages(), page_count),
                PageRef::Committed(page_id),
                0,
                old(reader).at_hand(),
            ),
            old(reader).at_hand(),
            final(reader).at_hand(),
            result,
        ),
{
    proof {
        reveal(subtree);
    }
    proof {
        reveal(values_ok);
    }
    proof {
        reveal(owns);
    }
    broadcast use vstd::std_specs::hash::group_hash_axioms;

    let ghost env = published(reader.pages(), page_count);
    let ghost r = PageRef::Committed(page_id);
    let ghost entries = leaf_entries(page@);
    let ghost base = visited@;
    let ghost rows = pairs_of(output@);
    proof {
        lemma_leaf_valid(page@);
        assert(rows =~= rows + rows_of(env, entries.take(0)));
    }
    let count = page_u16(page, 2);
    let mut found = Subtree { first_key: None, last_key: None, height: 0 };
    let mut index: usize = 0;
    while index < count
        invariant
            index <= count,
            count == entries.len(),
            leaf_valid(page@),
            entries == leaf_entries(page@),
            reader.usable(),
            reader.origin() == old(reader).origin(),
            reader.failures() == old(reader).failures(),
            hoards(*old(reader), *reader),
            reader.pages() == old(reader).pages(),
            env == published(old(reader).pages(), page_count),
            r == PageRef::Committed(page_id),
            node_at(env, r) == Some(Node::Leaf(entries)),
            near_below(env, r, 0, old(reader).at_hand()) ==> reader.at_hand() == old(
                reader,
            ).at_hand(),
            base == old(visited)@,
            base.contains(page_id),
            rows == pairs_of(old(output)@),
            found.height == 0,
            spans(found, entries.take(index as int)),
            pairs_of(output@) == rows + rows_of(env, entries.take(index as int)),
            values_ok(env, r, entries.take(index as int)),
            forall|id: u64| #[trigger]
                visited@.contains(id) == (base.contains(id) || exists|i: int|
                    0 <= i < index && value_owns(
                        env,
                        (#[trigger] entries[i]).value,
                        PageRef::Committed(id),
                    )),
            forall|i: int, id: u64|
                0 <= i < index && #[trigger] value_owns(
                    env,
                    entries[i].value,
                    PageRef::Committed(id),
                ) ==> !base.contains(id),
        decreases count - index,
    {
        broadcast use vstd::std_specs::hash::group_hash_axioms;

        let ghost seen = visited@;
        let ghost prefix = entries.take(index as int);
        let entry = decode_entry(page, index);
        let ghost stored = entries[index as int].value;
        let bytes = match entry.value {
            StoredValue::Inline(bytes) => bytes,
            StoredValue::Pending(bytes) => bytes,
            StoredValue::Overflow { head, len } => {
                proof {
                    if near_below(env, r, 0, old(reader).at_hand()) {
                        assert(flat(env, r, 0) == entries);
                        lemma_near_value(env, r, 0, index as int, old(reader).at_hand());
                    }
                }
                let read = read_chain(reader, head, page_count, len, visited, true);
                match read {
                    Ok(bytes) => bytes,
                    Err(error) => {
                        proof {
                            lemma_leaf_blocked(env, r, page_id, entries, index as int, base, seen);
                        }
                        return Err(error);
                    },
                }
            },
        };
        proof {
            let ids = value_pages(env.pages, env.count, stored);
            assert(value_ok(env.pages, env.count, stored));
            assert(read_value(env.pages, env.count, stored) == Some(bytes@));
            assert(entries.take(index + 1) =~= prefix.push(entries[index as int]));
            assert forall|id: u64| #[trigger] ids.contains(id) implies !seen.contains(id) by {
                let k = choose|k: int| 0 <= k < ids.len() && ids[k] == id;
                assert(!seen.contains(ids[k]));
            }
            assert forall|i: int, p: PageRef| 0 <= i < index implies !(#[trigger] value_owns(
                env,
                entries[i].value,
                p,
            ) && value_owns(env, stored, p)) by {
                if value_owns(env, entries[i].value, p) && value_owns(env, stored, p) {
                    if let PageRef::Committed(id) = p {
                        assert(value_owns(env, entries[i].value, PageRef::Committed(id)));
                        assert(seen.contains(id));
                    }
                }
            }
            let more = entries.take(index + 1);
            assert forall|i: int, p: PageRef| 0 <= i < prefix.len() implies !(
            #[trigger] value_owns(env, prefix[i].value, p) && value_owns(env, stored, p)) by {
                assert(!(value_owns(env, entries[i].value, p) && value_owns(env, stored, p)));
            }
            lemma_values_push(env, r, prefix, entries[index as int]);
            assert forall|id: u64| #[trigger]
                visited@.contains(id) == (base.contains(id) || exists|i: int|
                    0 <= i < index + 1 && value_owns(
                        env,
                        (#[trigger] entries[i]).value,
                        PageRef::Committed(id),
                    )) by {
                if ids.contains(id) {
                    assert(value_owns(env, entries[index as int].value, PageRef::Committed(id)));
                }
                if seen.contains(id) && !base.contains(id) {
                    let i = choose|i: int|
                        0 <= i < index && value_owns(
                            env,
                            (#[trigger] entries[i]).value,
                            PageRef::Committed(id),
                        );
                    assert(value_owns(env, entries[i].value, PageRef::Committed(id)));
                }
            }
            assert(rows_of(env, more) =~= rows_of(env, prefix).push((entry.key@, bytes@)));
        }
        if found.first_key.is_none() {
            found.first_key = Some(copy_bytes(&entry.key));
        }
        found.last_key = Some(copy_bytes(&entry.key));
        let ghost before = output@;
        output.push((entry.key, bytes));
        proof {
            assert(pairs_of(output@) =~= pairs_of(before).push((entry.key@, bytes@)));
        }
        index = index + 1;
    }
    proof {
        assert(entries.take(index as int) =~= entries);
    }
    Ok(found)
}

/// A leaf cannot be collected if the chain of one of its values cannot.
proof fn lemma_leaf_blocked(
    env: Env,
    r: PageRef,
    page_id: u64,
    entries: Seq<Entry>,
    index: int,
    base: Set<u64>,
    seen: Set<u64>,
)
    requires
        r == PageRef::Committed(page_id),
        node_at(env, r) == Some(Node::Leaf(entries)),
        0 <= index < entries.len(),
        base.contains(page_id),
        forall|id: u64| #[trigger]
            seen.contains(id) == (base.contains(id) || exists|i: int|
                0 <= i < index && value_owns(
                    env,
                    (#[trigger] entries[i]).value,
                    PageRef::Committed(id),
                )),
    ensures
        is_tree(env, r, 0) && (forall|id: u64| #[trigger]
            owns(env, r, 0, PageRef::Committed(id)) && id != page_id ==> !base.contains(id))
            ==> value_ok(env.pages, env.count, entries[index].value) && fresh_chain(
            value_pages(env.pages, env.count, entries[index].value),
            seen,
        ),
{
    reveal(subtree);
    reveal(values_ok);
    reveal(owns);
    if is_tree(env, r, 0) && (forall|id: u64| #[trigger]
        owns(env, r, 0, PageRef::Committed(id)) && id != page_id ==> !base.contains(id)) {
        let ids = value_pages(env.pages, env.count, entries[index].value);
        assert forall|k: int| 0 <= k < ids.len() implies !seen.contains(#[trigger] ids[k]) by {
            let id = ids[k];
            assert(ids.contains(id));
            assert(value_owns(env, entries[index].value, PageRef::Committed(id)));
            assert(owns(env, r, 0, PageRef::Committed(id)));
            assert(id != page_id);
            if seen.contains(id) {
                let i = choose|i: int|
                    0 <= i < index && value_owns(
                        env,
                        (#[trigger] entries[i]).value,
                        PageRef::Committed(id),
                    );
                assert(value_owns(env, entries[i].value, PageRef::Committed(id)));
            }
        }
    }
}

/// Reads one child of an internal page with its separator.
pub fn child_of(page: &[u8; PAGE_SIZE], page_count: u64, index: usize) -> (child: (Vec<u8>, u64))
    requires
        internal_valid(page@, page_count),
        index < count_of(page@),
    ensures
        child.0@ == internal_links(page@)[index + 1].key,
        internal_links(page@)[index + 1].page == PageRef::Committed(child.1),
{
    proof {
        reveal(internal_valid);
        assert(internal_slot_valid(page@, page_count, index as int));
    }
    let separator = vstd::slice::slice_to_vec(internal_key(page, index));
    let child = page_u64(page, PAGE_HEADER + index * SLOT_SIZE + 8);
    (separator, child)
}

/// Whether the children of a node up to `k` have been collected.
spec fn collected(
    env: Env,
    page_id: u64,
    links: Seq<Link>,
    k: int,
    h: nat,
    base: Set<u64>,
    visited: Set<u64>,
) -> bool {
    let run = links.take(k);
    &&& run_ok(env, run, h)
    &&& keyed(env, run, h, 1)
    &&& sorted_entries(flat_all(env, run, h))
    &&& flat_all(env, run, h).len() > 0
    &&& !run_owns(env, run, h, PageRef::Committed(page_id))
    &&& forall|id: u64| #[trigger]
        run_owns(env, run, h, PageRef::Committed(id)) ==> !base.contains(id)
    &&& forall|id: u64| #[trigger]
        visited.contains(id) == (base.contains(id) || id == page_id || run_owns(
            env,
            run,
            h,
            PageRef::Committed(id),
        ))
}

/// If a tree can be collected, then with the height of its first child, and so can
/// the child that comes next.
proof fn lemma_next_collects(
    env: Env,
    page_id: u64,
    links: Seq<Link>,
    base: Set<u64>,
    depth: nat,
    h: nat,
    k: int,
    visited: Set<u64>,
)
    requires
        node_at(env, PageRef::Committed(page_id)) == Some(Node::Internal(links)),
        0 < k < links.len(),
        collected(env, page_id, links, k, h, base, visited),
    ensures
        collectable(env, PageRef::Committed(page_id), base, depth) ==> {
            &&& collects(env, PageRef::Committed(page_id), base, depth, h + 1)
            &&& collects(env, links[k].page, visited, depth + 1, h)
            &&& flat(env, links[k].page, h).len() > 0
            &&& links[k].key == flat(env, links[k].page, h)[0].key
            &&& lt(flat_all(env, links.take(k), h).last().key, links[k].key)
        },
{
    reveal(subtree);
    reveal(run_ok);
    let r = PageRef::Committed(page_id);
    if collectable(env, r, base, depth) {
        let g = choose|g: nat| collects(env, r, base, depth, g);
        assert(links.take(k)[0] == links[0]);
        lemma_height_unique(env, links[0].page, h, (g - 1) as nat);
        lemma_child_collects(env, page_id, links, base, depth, g, k, visited);
        let whole = flat_all(env, links, h);
        lemma_child_piece(env, links, h, k, 0);
        let start = crate::model::child_start(env, links, h, k);
        crate::model::lemma_flat_all_split(env, links, h, k);
        assert(flat_all(env, links.take(k), h).last() == whole[start - 1]);
        assert(lt(whole[start - 1].key, whole[start].key));
    }
}

/// Once all children are collected, so is the node.
proof fn lemma_node_collects(
    env: Env,
    page_id: u64,
    links: Seq<Link>,
    base: Set<u64>,
    depth: nat,
    h: nat,
    visited: Set<u64>,
)
    requires
        node_at(env, PageRef::Committed(page_id)) == Some(Node::Internal(links)),
        links.len() > 0,
        crate::page::keys_fit(links),
        collected(env, page_id, links, links.len() as int, h, base, visited),
        h + 1 + depth < MAX_DEPTH,
        !base.contains(page_id),
    ensures
        collects(env, PageRef::Committed(page_id), base, depth, h + 1),
        forall|id: u64| #[trigger]
            visited.contains(id) == (base.contains(id) || owns(
                env,
                PageRef::Committed(page_id),
                h + 1,
                PageRef::Committed(id),
            )),
{
    reveal(subtree);
    reveal(owns);
    reveal(run_ok);
    let r = PageRef::Committed(page_id);
    assert(links.take(links.len() as int) =~= links);
    assert forall|id: u64| #[trigger] owns(env, r, h + 1, PageRef::Committed(id)) == (id == page_id
        || run_owns(env, links, h, PageRef::Committed(id))) by {}
}

/// Collects the tree below a page.
fn collect_node<R: PageReader>(
    reader: &mut R,
    page_id: u64,
    page_count: u64,
    output: &mut Vec<(Vec<u8>, Vec<u8>)>,
    visited: &mut HashSet<u64>,
    depth: usize,
) -> (result: Result<Subtree>)
    requires
        old(reader).usable(),
        depth <= MAX_DEPTH,
    ensures
        final(reader).usable(),
        final(reader).origin() == old(reader).origin(),
        old(reader).failures() <= final(reader).failures(),
        hoards(*old(reader), *final(reader)),
        honest(
            result,
            old(reader).failures(),
            final(reader).failures(),
            final(reader).reported(),
            incomplete(old(reader).pages(), page_count),
        ),
        final(reader).pages() == old(reader).pages(),
        ({
            let env = published(old(reader).pages(), page_count);
            let r = PageRef::Committed(page_id);
            match result {
                Ok(found) => {
                    let entries = flat(env, r, found.height as nat);
                    &&& collects(env, r, old(visited)@, depth as nat, found.height as nat)
                    &&& spans(found, entries)
                    &&& pairs_of(final(output)@) == pairs_of(old(output)@) + rows_of(env, entries)
                    &&& forall|id: u64| #[trigger]
                        final(visited)@.contains(id) == (old(visited)@.contains(id) || owns(
                            env,
                            r,
                            found.height as nat,
                            PageRef::Committed(id),
                        ))
                },
                Err(error) => {
                    &&& fails_for(
                        error,
                        !collectable(env, r, old(visited)@, depth as nat),
                        final(reader).failures() > old(reader).failures(),
                    )
                    &&& depth >= MAX_DEPTH || old(visited)@.contains(page_id) || !in_snapshot(
                        page_id,
                        page_count,
                    ) ==> error is Corrupt
                },
            }
        }),
        depth >= MAX_DEPTH || old(visited)@.contains(page_id) || !in_snapshot(page_id, page_count)
            ==> result is Err,
        forall|h: nat| #[trigger]
            near_below(
                published(old(reader).pages(), page_count),
                PageRef::Committed(page_id),
                h,
                old(reader).at_hand(),
            ) ==> steady(true, old(reader).at_hand(), final(reader).at_hand(), result),
    decreases MAX_DEPTH - depth,
{
    proof {
        reveal(subtree);
    }
    proof {
        reveal(owns);
    }
    proof {
        reveal(run_ok);
    }
    broadcast use vstd::std_specs::hash::group_hash_axioms;

    let ghost env = published(reader.pages(), page_count);
    let ghost r = PageRef::Committed(page_id);
    let ghost base = visited@;
    if depth >= MAX_DEPTH {
        return Err(corrupt("tree exceeds maximum depth"));
    }
    if !visited.insert(page_id) {
        proof {
            if collectable(env, r, base, depth as nat) {
                let h = choose|h: nat| collects(env, r, base, depth as nat, h);
                assert(owns(env, r, h, PageRef::Committed(page_id)));
            }
        }
        return Err(corrupt("tree contains a cycle or duplicate child pointer"));
    }
    let ghost hand = reader.at_hand();
    let ghost ready = exists|h: nat| #[trigger] near_below(env, r, h, hand);
    proof {
        if ready {
            lemma_near_root(env, r, choose|h: nat| #[trigger] near_below(env, r, h, hand), hand);
        }
    }
    let frame = match reader.page(page_id, page_count) {
        Ok(frame) => frame,
        Err(error) => return Err(error),
    };
    if frame.bytes[0] == LEAF {
        validate_leaf(&frame.bytes)?;
        proof {
            if ready {
                let h = choose|h: nat| #[trigger] near_below(env, r, h, hand);
                assert(h == 0);
            }
        }
        let result = collect_leaf(reader, &frame.bytes, page_id, page_count, output, visited);
        proof {
            assert(owns(env, r, 0, r));
            if result is Ok {
                assert(collects(env, r, base, depth as nat, 0));
            } else if collectable(env, r, base, depth as nat) {
                let h = choose|h: nat| collects(env, r, base, depth as nat, h);
                assert(h == 0);
            }
        }
        return result;
    }
    if frame.bytes[0] != INTERNAL {
        return Err(unexpected_tree_page(frame.bytes[0]));
    }
    validate_internal(&frame.bytes, page_count)?;
    let ghost links = internal_links(frame.bytes@);
    proof {
        lemma_internal_valid(frame.bytes@, page_count);
        assert(node_at(env, r) == Some(Node::Internal(links)));
    }
    let first = page_u64(&frame.bytes, 8);
    let ghost rows = pairs_of(output@);
    proof {
        if ready {
            let h = choose|h: nat| #[trigger] near_below(env, r, h, hand);
            lemma_near_child(env, r, h, links, 0, hand);
        }
    }
    let attempt = collect_node(reader, first, page_count, output, visited, depth + 1);
    proof {
        assert(links[0].page == PageRef::Committed(first));
        if collectable(env, r, base, depth as nat) {
            let h = choose|h: nat| collects(env, r, base, depth as nat, h);
            lemma_child_collects(
                env,
                page_id,
                links,
                base,
                depth as nat,
                h,
                0,
                base.insert(page_id),
            );
            if attempt is Ok {
                lemma_height_unique(env, links[0].page, attempt->Ok_0.height as nat, (h - 1) as nat);
            }
        }
    }
    let mut found = attempt?;
    if found.first_key.is_none() {
        return Err(corrupt("internal node has an empty child"));
    }
    let ghost h = found.height as nat;
    let ghost first_key = flat(env, links[0].page, h)[0].key;
    proof {
        let run = links.take(1);
        assert(run =~= seq![links[0]]);
        assert(Seq::<Link>::empty().push(links[0]) =~= run);
        lemma_run_push(env, Seq::empty(), links[0], h);
        lemma_flat_all_one(env, links[0], h);
        assert(collected(env, page_id, links, 1, h, base, visited@)) by {
            assert forall|id: u64| #[trigger]
                run_owns(env, run, h, PageRef::Committed(id)) implies !base.contains(id) && id
                != page_id by {
                assert(owns(env, links[0].page, h, PageRef::Committed(id)));
            }
            assert forall|id: u64| #[trigger]
                visited@.contains(id) == (base.contains(id) || id == page_id || run_owns(
                    env,
                    run,
                    h,
                    PageRef::Committed(id),
                )) by {
                assert(run_owns(env, run, h, PageRef::Committed(id)) == owns(
                    env,
                    links[0].page,
                    h,
                    PageRef::Committed(id),
                ));
            }
        }
    }
    let count = page_u16(&frame.bytes, 2);
    let mut index: usize = 0;
    while index < count
        invariant
            index <= count,
            count == count_of(frame.bytes@),
            links == internal_links(frame.bytes@),
            internal_valid(frame.bytes@, page_count),
            depth < MAX_DEPTH,
            h + 1 + depth < MAX_DEPTH,
            h == found.height,
            in_snapshot(page_id, page_count),
            !base.contains(page_id),
            hand == old(reader).at_hand(),
            ready == exists|h: nat| #[trigger] near_below(env, r, h, hand),
            ready ==> reader.at_hand() == hand,
            reader.usable(),
            reader.origin() == old(reader).origin(),
            reader.failures() == old(reader).failures(),
            hoards(*old(reader), *reader),
            reader.pages() == old(reader).pages(),
            env == published(old(reader).pages(), page_count),
            r == PageRef::Committed(page_id),
            base == old(visited)@,
            node_at(env, r) == Some(Node::Internal(links)),
            collected(env, page_id, links, index + 1, h, base, visited@),
            spans(found, flat_all(env, links.take(index + 1), h)),
            rows == pairs_of(old(output)@),
            pairs_of(output@) == rows + rows_of(env, flat_all(env, links.take(index + 1), h)),
        decreases count - index,
    {
        let ghost k = index + 1;
        let ghost seen = visited@;
        let ghost so_far = flat_all(env, links.take(k), h);
        let ghost rows_before = pairs_of(output@);
        let (separator, child) = child_of(&frame.bytes, page_count, index);
        proof {
            lemma_next_collects(env, page_id, links, base, depth as nat, h, k, seen);
            if ready {
                let height = choose|h: nat| #[trigger] near_below(env, r, h, hand);
                lemma_near_child(env, r, height, links, k, hand);
            }
        }
        let right = collect_node(reader, child, page_count, output, visited, depth + 1)?;
        proof {
            if collects(env, links[k].page, seen, (depth + 1) as nat, h) {
                lemma_height_unique(env, links[k].page, right.height as nat, h);
            }
        }
        let matches_separator = match &right.first_key {
            Some(key) => matches!(compare(key, &separator), Order::Equal),
            None => false,
        };
        if !matches_separator {
            return Err(corrupt("internal separator does not match its right child"));
        }
        let in_order = match &found.last_key {
            Some(last) => matches!(compare(last, &separator), Order::Less),
            None => false,
        };
        if !in_order {
            return Err(corrupt("child key ranges overlap"));
        }
        if right.height != found.height {
            return Err(corrupt("tree leaves have unequal depths"));
        }
        proof {
            let run = links.take(k);
            let more = links.take(k + 1);
            let piece = flat(env, links[k].page, h);
            assert(more =~= run.push(links[k]));
            assert forall|p: PageRef|
                !(#[trigger] owns(env, links[k].page, h, p) && run_owns(env, run, h, p)) by {
                if owns(env, links[k].page, h, p) && run_owns(env, run, h, p) {
                    lemma_published_owns(env.pages, env.count, child, h, p);
                    if let PageRef::Committed(id) = p {
                        assert(owns(env, links[k].page, h, PageRef::Committed(id)));
                        assert(run_owns(env, run, h, PageRef::Committed(id)));
                        assert(seen.contains(id));
                    }
                }
            }
            lemma_run_push(env, run, links[k], h);
            lemma_sorted_concat(so_far, piece);
            assert(keyed(env, more, h, 1)) by {
                assert forall|i: int| 1 <= i < more.len() implies (#[trigger] more[i]).key == flat(
                    env,
                    more[i].page,
                    h,
                )[0].key by {
                    if i < k {
                        assert(more[i] == run[i]);
                    }
                }
            }
            assert forall|id: u64| #[trigger]
                run_owns(env, more, h, PageRef::Committed(id)) implies !base.contains(id) && id
                != page_id by {
                if owns(env, links[k].page, h, PageRef::Committed(id)) {
                    assert(!seen.contains(id));
                }
            }
            assert forall|id: u64| #[trigger]
                visited@.contains(id) == (base.contains(id) || id == page_id || run_owns(
                    env,
                    more,
                    h,
                    PageRef::Committed(id),
                )) by {
                assert(seen.contains(id) == (base.contains(id) || id == page_id || run_owns(
                    env,
                    run,
                    h,
                    PageRef::Committed(id),
                )));
                assert(run_owns(env, more, h, PageRef::Committed(id)) == (run_owns(
                    env,
                    run,
                    h,
                    PageRef::Committed(id),
                ) || owns(env, links[k].page, h, PageRef::Committed(id))));
            }
            assert(collected(env, page_id, links, k + 1, h, base, visited@));
            assert(rows_of(env, so_far + piece) =~= rows_of(env, so_far) + rows_of(env, piece));
            assert((so_far + piece).last() == piece.last());
            assert((so_far + piece)[0] == so_far[0]);
        }
        found.last_key = right.last_key;
        index = index + 1;
    }
    proof {
        assert(links.take(count + 1) =~= links);
        lemma_node_collects(env, page_id, links, base, depth as nat, h, visited@);
    }
    found.height = found.height + 1;
    Ok(found)
}

/// A published tree owns readable pages only.
pub proof fn lemma_published_owns(pages: Pages, count: u64, page_id: u64, h: nat, p: PageRef)
    requires
        subtree(published(pages, count), PageRef::Committed(page_id), h),
        owns(published(pages, count), PageRef::Committed(page_id), h, p),
    ensures
        p matches PageRef::Committed(id) && readable(pages, count, id),
    decreases h,
{
    reveal(subtree);
    reveal(owns);
    reveal(run_ok);
    let env = published(pages, count);
    let r = PageRef::Committed(page_id);
    if p != r {
        match node_at(env, r)->0 {
            Node::Leaf(entries) => {
                let i = choose|i: int|
                    0 <= i < entries.len() && value_owns(env, (#[trigger] entries[i]).value, p);
                let value = entries[i].value;
                if let Stored::Overflow { head, len } = value {
                    crate::model::lemma_chain_pages(pages, count, head, count as nat);
                    if let PageRef::Committed(id) = p {
                        assert(chain_ids(pages, count, head, count as nat).contains(id));
                    }
                }
            },
            Node::Internal(links) => {
                let i = choose|i: int|
                    0 <= i < links.len() && owns(
                        env,
                        (#[trigger] links[i]).page,
                        (h - 1) as nat,
                        p,
                    );
                assert(links == internal_links(pages[page_id]));
                if let PageRef::Committed(child) = links[i].page {
                    lemma_published_owns(pages, count, child, (h - 1) as nat, p);
                }
            },
        }
    }
}

/// Collects the keys and values of a published tree in order. Succeeds exactly if
/// the tree is well formed, not too deep, and holds as many entries as announced,
/// unless a page cannot be read.
pub fn collect<R: PageReader>(reader: &mut R, root: u64, page_count: u64, item_count: u64) -> (result:
    Result<Vec<(Vec<u8>, Vec<u8>)>>)
    requires
        old(reader).usable(),
    ensures
        final(reader).usable(),
        final(reader).origin() == old(reader).origin(),
        old(reader).failures() <= final(reader).failures(),
        hoards(*old(reader), *final(reader)),
        honest(
            result,
            old(reader).failures(),
            final(reader).failures(),
            final(reader).reported(),
            incomplete(old(reader).pages(), page_count),
        ),
        final(reader).pages() == old(reader).pages(),
        ({
            let env = published(old(reader).pages(), page_count);
            let r = PageRef::Committed(root);
            match result {
                Ok(pairs) => {
                    &&& exists|h: nat| h < MAX_DEPTH && #[trigger] is_tree(env, r, h)
                    &&& tree_rows(env, r) == Some(pairs_of(pairs@))
                    &&& pairs@.len() == item_count
                },
                Err(error) => fails_for(
                    error,
                    !(exists|h: nat| h < MAX_DEPTH && #[trigger] is_tree(env, r, h)) || tree_rows(
                        env,
                        r,
                    )->0.len() != item_count,
                    final(reader).failures() > old(reader).failures(),
                ),
            }
        }),
        forall|h: nat| #[trigger]
            near_below(
                published(old(reader).pages(), page_count),
                PageRef::Committed(root),
                h,
                old(reader).at_hand(),
            ) ==> steady(true, old(reader).at_hand(), final(reader).at_hand(), result),
{
    broadcast use vstd::std_specs::hash::group_hash_axioms;

    let ghost env = published(reader.pages(), page_count);
    let ghost r = PageRef::Committed(root);
    let mut output: Vec<(Vec<u8>, Vec<u8>)> = Vec::new();
    let mut visited: HashSet<u64> = HashSet::new();
    let attempt = collect_node(reader, root, page_count, &mut output, &mut visited, 0);
    proof {
        if exists|h: nat| h < MAX_DEPTH && #[trigger] is_tree(env, r, h) {
            let h = choose|h: nat| h < MAX_DEPTH && #[trigger] is_tree(env, r, h);
            assert(collects(env, r, Set::<u64>::empty(), 0, h));
        }
        if attempt is Ok {
            let height = attempt->Ok_0.height as nat;
            lemma_tree_rows(env, r, height);
            assert(pairs_of(Seq::<(Vec<u8>, Vec<u8>)>::empty()) =~= Seq::<Row>::empty());
            assert(pairs_of(output@) =~= rows_of(env, flat(env, r, height)));
        }
    }
    attempt?;
    if output.len() as u64 != item_count {
        return Err(corrupt("metadata item count does not match the tree"));
    }
    Ok(output)
}

} // verus!
