//! The tree of a write transaction: published pages below nodes that the
//! transaction has copied into memory.
use crate::error::{corrupt, unexpected_tree_page, Result};
use crate::format::{INTERNAL, LEAF, MAX_KEY_SIZE, OVERFLOW};
use crate::model::{
    chain, chain_ids, flat, flat_all, is_tree, keyed, lemma_child_at_unique, lemma_child_piece,
    lemma_run_sorted, link_ok, node_at, owns, published, read_value, run_ok, run_owns, subtree,
    value_ok, value_pages, values_ok, Env, Pages,
};
use crate::node::{
    all_sorted_links, child_at, child_index, copy_bytes, entries_fit, entries_of, entry_index,
    is_bare, leaf_size, lemma_links_push, links_of, node_encoded_size, node_is_empty, node_size,
    Child, Entry, Link, MutableNode, Node, PageRef, StoredValue, PAGE_END,
};
use crate::order::group_order;
use crate::page::{
    count_of, decode_leaf, internal_child, internal_links, internal_valid, keys_fit, leaf_entries,
    lemma_internal_valid, lemma_leaf_valid, page_u16, page_u64, validate_internal, validate_leaf,
    validate_overflow,
};
use crate::reader::{
    fails_for, found, fresh_chain, get_from_leaf, hoards, honest, incomplete, lemma_lookup,
    lemma_near_child, lemma_near_root, lookup, near_below, read_overflow, search, search_near,
    steady, value_near, PageReader, MAX_DEPTH,
};
use std::collections::{HashMap, HashSet};
use vstd::prelude::*;

verus! {

/// The nodes that the slots of an arena hold.
pub open spec fn arena(dirty: Seq<Option<MutableNode>>) -> Seq<Option<Node>> {
    dirty.map_values(
        |slot: Option<MutableNode>|
            match slot {
                Some(node) => Some(node@),
                None => None,
            },
    )
}

/// Whether a node in memory keeps to the limits that hold in every tree, however
/// damaged: keys and values fit, a leaf fits into a page, and an internal node has
/// a child.
pub open spec fn sturdy(node: Node) -> bool {
    match node {
        Node::Leaf(entries) => entries_fit(entries) && leaf_size(entries) <= PAGE_END,
        Node::Internal(links) => links.len() > 0 && keys_fit(links),
    }
}

/// Whether a node heads a tree that ends above the depth limit.
pub open spec fn sits(env: Env, r: PageRef, depth: nat) -> bool {
    exists|h: nat| depth + h < MAX_DEPTH && #[trigger] subtree(env, r, h)
}

/// The node at a reference as it is copied into memory: the key of the first child,
/// which a page does not store, is filled in.
pub open spec fn opened(env: Env, r: PageRef, h: nat) -> Node {
    match node_at(env, r)->0 {
        Node::Internal(links) => if r is Committed {
            Node::Internal(
                links.update(
                    0,
                    Link {
                        key: flat(env, links[0].page, (h - 1) as nat)[0].key,
                        page: links[0].page,
                    },
                ),
            )
        } else {
            Node::Internal(links)
        },
        node => node,
    }
}

/// The first entry below an internal node is the first entry below its first child.
pub proof fn lemma_first_entry(env: Env, links: Seq<Link>, h: nat)
    requires
        links.len() > 0,
        flat(env, links[0].page, h).len() > 0,
    ensures
        flat_all(env, links, h).len() > 0,
        flat_all(env, links, h)[0] == flat(env, links[0].page, h)[0],
{
    lemma_child_piece(env, links, h, 0, 0);
    assert(links.take(0) =~= Seq::<Link>::empty());
}

/// The tree of a write transaction.
pub struct MutableTree {
    /// Number of pages of the snapshot that the transaction started from.
    pub page_count: u64,
    /// The root of the tree.
    pub root: PageRef,
    /// The slot that each published page was copied into.
    pub dirty_by_original: HashMap<u64, usize>,
    /// The nodes in memory.
    pub dirty: Vec<Option<MutableNode>>,
    /// Published pages that the tree has left behind.
    pub retired: HashSet<u64>,
    /// The height of the tree, if it is well formed.
    pub height: Ghost<nat>,
    /// The pages of the tree that the transaction started from.
    pub base: Ghost<Set<u64>>,
}

/// The pages that belong to a published tree.
pub open spec fn tree_pages(env: Env, r: PageRef, h: nat) -> Set<u64> {
    Set::new(|id: u64| owns(env, r, h, PageRef::Committed(id)))
}

impl MutableTree {
    /// Where the tree is read, over the published pages.
    pub open spec fn env(&self, pages: Pages) -> Env {
        Env { pages, count: self.page_count, dirty: arena(self.dirty@) }
    }

    /// What holds of the parts in memory whatever the published pages hold.
    pub open spec fn inv(&self) -> bool {
        &&& forall|i: int|
            0 <= i < arena(self.dirty@).len() && (#[trigger] arena(self.dirty@)[i]) is Some
                ==> sturdy(arena(self.dirty@)[i]->0)
        &&& forall|id: u64| #[trigger]
            self.dirty_by_original@.contains_key(id) ==> self.retired@.contains(id)
                && self.dirty_by_original@[id] < self.dirty@.len()
    }

    /// Whether a tree of the transaction holds no page that was left behind.
    pub open spec fn apart(&self, pages: Pages, r: PageRef, h: nat) -> bool {
        forall|id: u64| #[trigger]
            owns(self.env(pages), r, h, PageRef::Committed(id)) ==> !self.retired@.contains(id)
    }

    /// Whether every page that the transaction started from either still belongs to
    /// the tree or was left behind.
    pub open spec fn accounted(&self, pages: Pages) -> bool {
        forall|id: u64| #[trigger]
            self.base@.contains(id) == (owns(
                self.env(pages),
                self.root,
                self.height@,
                PageRef::Committed(id),
            ) || self.retired@.contains(id))
    }

    /// Whether the tree is well formed over the published pages.
    pub open spec fn sound(&self, pages: Pages) -> bool {
        &&& self.inv()
        &&& is_tree(self.env(pages), self.root, self.height@)
        &&& self.apart(pages, self.root, self.height@)
        &&& self.accounted(pages)
    }

    /// Whether every node in memory fits into a page.
    pub open spec fn fits(&self, pages: Pages) -> bool {
        crate::graft::snug(self.env(pages), self.root, self.height@)
    }

    /// Whether every internal node has several children, but for those on the right edge below
    /// the root.
    pub open spec fn branches(&self, pages: Pages) -> bool {
        crate::branch::spreading(self.env(pages), self.root, self.height@)
    }

    /// The entries of the tree.
    pub open spec fn entries(&self, pages: Pages) -> Seq<Entry> {
        flat(self.env(pages), self.root, self.height@)
    }

    /// Starts from a published tree.
    pub fn new(root: u64, page_count: u64, Ghost(pages): Ghost<Pages>, Ghost(h): Ghost<nat>) -> (tree:
        Self)
        ensures
            tree.inv(),
            tree.page_count == page_count,
            tree.root == PageRef::Committed(root),
            tree.height@ == h,
            tree.dirty@.len() == 0,
            tree.retired@ == Set::<u64>::empty(),
            tree.env(pages) == published(pages, page_count),
            tree.base@ == tree_pages(published(pages, page_count), PageRef::Committed(root), h),
            is_tree(published(pages, page_count), PageRef::Committed(root), h) ==> tree.sound(pages),
    {
        broadcast use vstd::std_specs::hash::group_hash_axioms;

        let tree = MutableTree {
            page_count,
            root: PageRef::Committed(root),
            dirty_by_original: HashMap::new(),
            dirty: Vec::new(),
            retired: HashSet::new(),
            height: Ghost(h),
            base: Ghost(
                tree_pages(published(pages, page_count), PageRef::Committed(root), h),
            ),
        };
        proof {
            assert(arena(tree.dirty@) =~= Seq::<Option<Node>>::empty());
        }
        tree
    }

    /// Borrows a node in memory.
    pub(crate) fn dirty_node(&self, index: usize) -> (result: Result<&MutableNode>)
        ensures
            match result {
                Ok(node) => index < self.dirty@.len() && arena(self.dirty@)[index as int] == Some(
                    node@,
                ),
                Err(error) => error is Corrupt && (index >= self.dirty@.len() || arena(
                    self.dirty@,
                )[index as int] is None),
            },
    {
        if index < self.dirty.len() {
            if let Some(node) = &self.dirty[index] {
                return Ok(node);
            }
        }
        Err(corrupt("dirty page is unavailable"))
    }

    /// Finds the smallest key below a node.
    pub fn first_key<R: PageReader>(&self, reader: &mut R, page: PageRef, depth: usize) -> (result:
        Result<Vec<u8>>)
        requires
            old(reader).usable(),
            self.inv(),
            depth <= MAX_DEPTH,
        ensures
            final(reader).usable(),
            final(reader).origin() == old(reader).origin(),
            old(reader).failures() <= final(reader).failures(),
            hoards(*old(reader), *final(reader)),
            honest(
                result,
                old(reader).failures(),
                final(reader).failures(),
                final(reader).reported(),
                incomplete(old(reader).pages(), self.page_count),
            ),
            final(reader).pages() == old(reader).pages(),
            ({
                let env = self.env(old(reader).pages());
                match result {
                    Ok(key) => {
                        &&& key@.len() <= MAX_KEY_SIZE
                        &&& forall|h: nat| #[trigger]
                            subtree(env, page, h) && flat(env, page, h).len() > 0 ==> key@ == flat(
                                env,
                                page,
                                h,
                            )[0].key
                    },
                    Err(error) => {
                        &&& fails_for(
                            error,
                            !sits(env, page, depth as nat),
                            final(reader).failures() > old(reader).failures(),
                        )
                        &&& page is Dirty ==> depth == MAX_DEPTH || node_at(env, page) is None
                    },
                }
            }),
            forall|h: nat| #[trigger]
                near_below(
                    self.env(old(reader).pages()),
                    page,
                    h,
                    old(reader).at_hand(),
                ) ==> steady(true, old(reader).at_hand(), final(reader).at_hand(), result),
            page is Dirty ==> *final(reader) == *old(reader) && (result matches Err(error)
                ==> error is Corrupt),
        decreases MAX_DEPTH - depth,
    {
        proof {
            reveal(subtree);
        }
        proof {
            reveal(run_ok);
        }
        let ghost env = self.env(reader.pages());
        if depth >= MAX_DEPTH {
            return Err(corrupt("tree exceeds maximum depth"));
        }
        match page {
            PageRef::Dirty(index) => {
                let node = self.dirty_node(index)?;
                assert(sturdy(arena(self.dirty@)[index as int]->0));
                match node {
                    MutableNode::Leaf(entries) => {
                        if entries.len() == 0 {
                            Ok(Vec::new())
                        } else {
                            assert(entries_of(entries@)[0] == entries@[0]@);
                            Ok(copy_bytes(&entries[0].key))
                        }
                    },
                    MutableNode::Internal(children) => {
                        let ghost links = links_of(children@);
                        proof {
                            assert(links[0] == children@[0]@);
                            assert forall|h: nat| #[trigger]
                                subtree(env, page, h) && flat(env, page, h).len() > 0 implies
                                children@[0].first_key@ == flat(env, page, h)[0].key by {
                                lemma_first_entry(env, links, (h - 1) as nat);
                            }
                        }
                        Ok(copy_bytes(&children[0].first_key))
                    },
                }
            },
            PageRef::Committed(page_id) => {
                proof {
                    lemma_near_pages(env, page, reader.at_hand());
                }
                let frame = reader.page(page_id, self.page_count)?;
                if frame.bytes[0] == LEAF {
                    validate_leaf(&frame.bytes)?;
                    proof {
                        lemma_leaf_valid(frame.bytes@);
                    }
                    if page_u16(&frame.bytes, 2) == 0 {
                        Ok(Vec::new())
                    } else {
                        let entry = crate::page::decode_entry(&frame.bytes, 0);
                        assert(crate::node::entry_fits(leaf_entries(frame.bytes@)[0]));
                        Ok(entry.key)
                    }
                } else if frame.bytes[0] == INTERNAL {
                    validate_internal(&frame.bytes, self.page_count)?;
                    let first = page_u64(&frame.bytes, 8);
                    proof {
                        let links = internal_links(frame.bytes@);
                        lemma_internal_valid(frame.bytes@, self.page_count);
                        assert(node_at(env, page) == Some(Node::Internal(links)));
                        assert(links[0].page == PageRef::Committed(first));
                        if sits(env, page, depth as nat) {
                            let h = choose|h: nat|
                                depth + h < MAX_DEPTH && #[trigger] subtree(env, page, h);
                            assert(subtree(env, links[0].page, (h - 1) as nat));
                        }
                        assert forall|h: nat| #[trigger] subtree(env, page, h) implies subtree(
                            env,
                            links[0].page,
                            (h - 1) as nat,
                        ) && flat(env, page, h)[0] == flat(env, links[0].page, (h - 1) as nat)[0]
                            && flat(env, links[0].page, (h - 1) as nat).len() > 0 by {
                            assert(subtree(env, links[0].page, (h - 1) as nat));
                            lemma_first_entry(env, links, (h - 1) as nat);
                        }
                        lemma_near_children(env, page, links, old(reader).at_hand());
                    }
                    self.first_key(reader, PageRef::Committed(first), depth + 1)
                } else {
                    Err(unexpected_tree_page(frame.bytes[0]))
                }
            },
        }
    }

    /// Copies the node of a published page.
    pub(crate) fn decode_committed<R: PageReader>(&self, reader: &mut R, page_id: u64, depth: usize) -> (result:
        Result<MutableNode>)
        requires
            old(reader).usable(),
            self.inv(),
            depth <= MAX_DEPTH,
        ensures
            final(reader).usable(),
            final(reader).origin() == old(reader).origin(),
            old(reader).failures() <= final(reader).failures(),
            hoards(*old(reader), *final(reader)),
            honest(
                result,
                old(reader).failures(),
                final(reader).failures(),
                final(reader).reported(),
                incomplete(old(reader).pages(), self.page_count),
            ),
            final(reader).pages() == old(reader).pages(),
            ({
                let env = self.env(old(reader).pages());
                let r = PageRef::Committed(page_id);
                match result {
                    Ok(node) => {
                        &&& sturdy(node@)
                        &&& node_size(node@) <= PAGE_END
                        &&& forall|h: nat| #[trigger]
                            subtree(env, r, h) ==> node@ == opened(env, r, h)
                    },
                    Err(error) => fails_for(
                        error,
                        !sits(env, r, depth as nat),
                        final(reader).failures() > old(reader).failures(),
                    ),
                }
            }),
            forall|h: nat| #[trigger]
                near_below(
                    self.env(old(reader).pages()),
                    PageRef::Committed(page_id),
                    h,
                    old(reader).at_hand(),
                ) ==> steady(true, old(reader).at_hand(), final(reader).at_hand(), result),
    {
        proof {
            reveal(subtree);
        }
        proof {
            reveal(run_ok);
        }
        let ghost env = self.env(reader.pages());
        let ghost r = PageRef::Committed(page_id);
        if depth >= MAX_DEPTH {
            return Err(corrupt("tree exceeds maximum depth"));
        }
        proof {
            lemma_near_pages(env, r, reader.at_hand());
        }
        let frame = reader.page(page_id, self.page_count)?;
        if frame.bytes[0] == LEAF {
            validate_leaf(&frame.bytes)?;
            proof {
                lemma_leaf_valid(frame.bytes@);
            }
            return Ok(MutableNode::Leaf(decode_leaf(&frame.bytes)));
        }
        if frame.bytes[0] != INTERNAL {
            return Err(unexpected_tree_page(frame.bytes[0]));
        }
        validate_internal(&frame.bytes, self.page_count)?;
        let ghost links = internal_links(frame.bytes@);
        let first = page_u64(&frame.bytes, 8);
        proof {
            lemma_internal_valid(frame.bytes@, self.page_count);
            assert(node_at(env, r) == Some(Node::Internal(links)));
            assert(links[0].page == PageRef::Committed(first));
            if sits(env, r, depth as nat) {
                let h = choose|h: nat| depth + h < MAX_DEPTH && #[trigger] subtree(env, r, h);
                assert(subtree(env, links[0].page, (h - 1) as nat));
            }
            lemma_near_children(env, r, links, old(reader).at_hand());
        }
        let first_key = self.first_key(reader, PageRef::Committed(first), depth + 1)?;
        let ghost key = first_key@;
        let ghost whole = links.update(0, Link { key, page: links[0].page });
        let mut children: Vec<Child> = Vec::new();
        children.push(Child { first_key, page: PageRef::Committed(first) });
        assert(links_of(children@) =~= whole.take(1));
        let count = page_u16(&frame.bytes, 2);
        let mut index: usize = 0;
        while index < count
            invariant
                index <= count,
                count == count_of(frame.bytes@),
                internal_valid(frame.bytes@, self.page_count),
                links == internal_links(frame.bytes@),
                whole == links.update(0, Link { key, page: links[0].page }),
                links_of(children@) == whole.take(index + 1),
            decreases count - index,
        {
            let (separator, child) = crate::collect::child_of(&frame.bytes, self.page_count, index);
            let ghost before = children@;
            children.push(Child { first_key: separator, page: PageRef::Committed(child) });
            index = index + 1;
            proof {
                broadcast use lemma_links_push;

                assert(links_of(children@) =~= whole.take(index + 1));
            }
        }
        proof {
            assert(whole.take(count + 1) =~= whole);
            assert(links.skip(1) =~= whole.skip(1));
            assert(keys_fit(whole));
            assert forall|h: nat| #[trigger] subtree(env, r, h) implies Node::Internal(whole)
                == opened(env, r, h) by {
                assert(subtree(env, links[0].page, (h - 1) as nat));
            }
        }
        Ok(MutableNode::Internal(children))
    }

    /// Copies a node.
    pub(crate) fn load_node<R: PageReader>(&self, reader: &mut R, page: PageRef, depth: usize) -> (result: Result<
        MutableNode,
    >)
        requires
            old(reader).usable(),
            self.inv(),
            depth <= MAX_DEPTH,
        ensures
            final(reader).usable(),
            final(reader).origin() == old(reader).origin(),
            old(reader).failures() <= final(reader).failures(),
            hoards(*old(reader), *final(reader)),
            honest(
                result,
                old(reader).failures(),
                final(reader).failures(),
                final(reader).reported(),
                incomplete(old(reader).pages(), self.page_count),
            ),
            final(reader).pages() == old(reader).pages(),
            ({
                let env = self.env(old(reader).pages());
                match result {
                    Ok(node) => {
                        &&& sturdy(node@)
                        &&& page is Committed ==> node_size(node@) <= PAGE_END
                        &&& forall|h: nat| #[trigger]
                            subtree(env, page, h) ==> node@ == opened(env, page, h)
                        &&& page is Dirty ==> node_at(env, page) == Some(node@)
                    },
                    Err(error) => {
                        &&& fails_for(
                            error,
                            !sits(env, page, depth as nat),
                            final(reader).failures() > old(reader).failures(),
                        )
                        &&& page is Dirty ==> error is Corrupt && node_at(env, page) is None
                    },
                }
            }),
            forall|h: nat| #[trigger]
                near_below(
                    self.env(old(reader).pages()),
                    page,
                    h,
                    old(reader).at_hand(),
                ) ==> steady(true, old(reader).at_hand(), final(reader).at_hand(), result),
            page is Dirty ==> *final(reader) == *old(reader) && (result matches Err(error)
                ==> error is Corrupt),
    {
        proof {
            reveal(subtree);
        }
        match page {
            PageRef::Committed(page_id) => self.decode_committed(reader, page_id, depth),
            PageRef::Dirty(index) => {
                let node = self.dirty_node(index)?;
                assert(sturdy(arena(self.dirty@)[index as int]->0));
                Ok(node.clone())
            },
        }
    }

    /// Whether a node has neither entries nor children.
    pub(crate) fn node_is_empty<R: PageReader>(&self, reader: &mut R, page: PageRef) -> (result: Result<bool>)
        requires
            old(reader).usable(),
            self.inv(),
        ensures
            final(reader).usable(),
            final(reader).origin() == old(reader).origin(),
            old(reader).failures() <= final(reader).failures(),
            hoards(*old(reader), *final(reader)),
            honest(
                result,
                old(reader).failures(),
                final(reader).failures(),
                final(reader).reported(),
                incomplete(old(reader).pages(), self.page_count),
            ),
            final(reader).pages() == old(reader).pages(),
            ({
                let env = self.env(old(reader).pages());
                match result {
                    Ok(empty) => forall|h: nat| #[trigger]
                        subtree(env, page, h) || page is Dirty ==> empty == is_bare(
                            opened(env, page, h),
                        ),
                    Err(error) => {
                        &&& fails_for(
                            error,
                            !sits(env, page, 0),
                            final(reader).failures() > old(reader).failures(),
                        )
                        &&& page is Dirty ==> error is Corrupt && node_at(env, page) is None
                    },
                }
            }),
            forall|h: nat| #[trigger]
                near_below(
                    self.env(old(reader).pages()),
                    page,
                    h,
                    old(reader).at_hand(),
                ) ==> steady(true, old(reader).at_hand(), final(reader).at_hand(), result),
            page is Dirty ==> *final(reader) == *old(reader) && (result matches Err(error)
                ==> error is Corrupt),
    {
        let node = self.load_node(reader, page, 0)?;
        Ok(node_is_empty(&node))
    }

    /// Whether a node fills less than half of a page.
    pub(crate) fn node_is_underfull<R: PageReader>(&self, reader: &mut R, page: PageRef) -> (result: Result<bool>)
        requires
            old(reader).usable(),
            self.inv(),
        ensures
            final(reader).usable(),
            final(reader).origin() == old(reader).origin(),
            old(reader).failures() <= final(reader).failures(),
            hoards(*old(reader), *final(reader)),
            honest(
                result,
                old(reader).failures(),
                final(reader).failures(),
                final(reader).reported(),
                incomplete(old(reader).pages(), self.page_count),
            ),
            final(reader).pages() == old(reader).pages(),
            ({
                let env = self.env(old(reader).pages());
                match result {
                    Ok(underfull) => forall|h: nat| #[trigger]
                        subtree(env, page, h) || page is Dirty ==> underfull == (is_bare(
                            opened(env, page, h),
                        ) || node_size(opened(env, page, h)) < HALF_PAGE),
                    Err(error) => fails_for(
                        error,
                        !sits(env, page, 0) || (page is Dirty && node_size(node_at(env, page)->0)
                            > usize::MAX),
                        final(reader).failures() > old(reader).failures(),
                    ),
                }
            }),
            forall|h: nat| #[trigger]
                near_below(
                    self.env(old(reader).pages()),
                    page,
                    h,
                    old(reader).at_hand(),
                ) ==> steady(true, old(reader).at_hand(), final(reader).at_hand(), result),
            page is Dirty ==> *final(reader) == *old(reader) && (result matches Err(error)
                ==> error is Corrupt),
    {
        let node = self.load_node(reader, page, 0)?;
        if node_is_empty(&node) {
            return Ok(true);
        }
        let size = node_encoded_size(&node)?;
        Ok(size < HALF_PAGE)
    }

    /// Takes a node out of its slot.
    pub(crate) fn take_dirty(&mut self, index: usize) -> (result: Result<MutableNode>)
        requires
            old(self).inv(),
        ensures
            final(self).inv(),
            same_but_dirty(*old(self), *final(self)),
            match result {
                Ok(node) => {
                    &&& index < old(self).dirty@.len()
                    &&& arena(old(self).dirty@)[index as int] == Some(node@)
                    &&& arena(final(self).dirty@) == arena(old(self).dirty@).update(
                        index as int,
                        None,
                    )
                    &&& sturdy(node@)
                },
                Err(error) => {
                    &&& error is Corrupt
                    &&& index >= old(self).dirty@.len() || arena(
                        old(self).dirty@,
                    )[index as int] is None
                    &&& arena(final(self).dirty@) == arena(old(self).dirty@)
                },
            },
    {
        if index < self.dirty.len() {
            let mut slot: Option<MutableNode> = None;
            let ghost before = arena(self.dirty@);
            std::mem::swap(&mut slot, &mut self.dirty[index]);
            assert(arena(self.dirty@) =~= before.update(index as int, None));
            assert(before[index as int] is Some ==> sturdy(before[index as int]->0));
            if let Some(node) = slot {
                return Ok(node);
            }
            assert(arena(self.dirty@) =~= before);
        }
        Err(corrupt("dirty page is unavailable"))
    }

    /// Puts a node into a slot.
    pub(crate) fn put_dirty(&mut self, index: usize, node: MutableNode) -> (result: Result<()>)
        requires
            old(self).inv(),
            sturdy(node@),
        ensures
            final(self).inv(),
            same_but_dirty(*old(self), *final(self)),
            match result {
                Ok(_) => {
                    &&& index < old(self).dirty@.len()
                    &&& arena(final(self).dirty@) == arena(old(self).dirty@).update(
                        index as int,
                        Some(node@),
                    )
                },
                Err(error) => {
                    &&& error is Corrupt
                    &&& index >= old(self).dirty@.len()
                    &&& *final(self) == *old(self)
                },
            },
    {
        if index >= self.dirty.len() {
            return Err(corrupt("dirty page is unavailable"));
        }
        let ghost before = arena(self.dirty@);
        let ghost view = node@;
        self.dirty[index] = Some(node);
        assert(arena(self.dirty@) =~= before.update(index as int, Some(view)));
        Ok(())
    }

    /// Adds a node to the arena.
    pub(crate) fn new_dirty(&mut self, node: MutableNode) -> (page: PageRef)
        requires
            old(self).inv(),
            sturdy(node@),
        ensures
            final(self).inv(),
            same_but_dirty_grown(*old(self), *final(self)),
            page == PageRef::Dirty(old(self).dirty@.len() as usize),
            old(self).dirty@.len() <= usize::MAX,
            final(self).dirty@.len() == old(self).dirty@.len() + 1,
            arena(final(self).dirty@) == arena(old(self).dirty@).push(Some(node@)),
    {
        let index = self.dirty.len();
        let ghost before = arena(self.dirty@);
        let ghost view = node@;
        self.dirty.push(Some(node));
        assert(arena(self.dirty@) =~= before.push(Some(view)));
        PageRef::Dirty(index)
    }

    /// Makes sure that a node is in memory, and finds its slot.
    pub(crate) fn ensure_dirty<R: PageReader>(&mut self, reader: &mut R, page: PageRef, depth: usize) -> (result:
        Result<usize>)
        requires
            old(reader).usable(),
            old(self).inv(),
            depth <= MAX_DEPTH,
        ensures
            final(reader).usable(),
            final(reader).origin() == old(reader).origin(),
            old(reader).failures() <= final(reader).failures(),
            hoards(*old(reader), *final(reader)),
            honest(
                result,
                old(reader).failures(),
                final(reader).failures(),
                final(reader).reported(),
                incomplete(old(reader).pages(), old(self).page_count),
            ),
            final(reader).pages() == old(reader).pages(),
            final(self).inv(),
            same_but_opened(*old(self), *final(self)),
            final(self).dirty@.len() >= old(self).dirty@.len(),
            ({
                let env = old(self).env(old(reader).pages());
                match result {
                    Ok(index) => match page {
                        PageRef::Dirty(slot) => index == slot && *final(self) == *old(self),
                        PageRef::Committed(id) => {
                            if old(self).dirty_by_original@.contains_key(id) {
                                index == old(self).dirty_by_original@[id] && *final(self) == *old(
                                    self,
                                )
                            } else {
                                &&& index == old(self).dirty@.len()
                                &&& final(self).retired@ == old(self).retired@.insert(id)
                                &&& exists|node: Node|
                                    {
                                        &&& #[trigger] sturdy(node)
                                        &&& node_size(node) <= PAGE_END
                                        &&& arena(final(self).dirty@) == arena(
                                            old(self).dirty@,
                                        ).push(Some(node))
                                        &&& forall|h: nat| #[trigger]
                                            subtree(env, page, h) ==> node == opened(env, page, h)
                                    }
                            }
                        },
                    },
                    Err(error) => fails_for(
                        error,
                        !sits(env, page, depth as nat),
                        final(reader).failures() > old(reader).failures(),
                    ) && *final(self)
                        == *old(self),
                }
            }),
            forall|h: nat| #[trigger]
                near_below(
                    old(self).env(old(reader).pages()),
                    page,
                    h,
                    old(reader).at_hand(),
                ) ==> steady(true, old(reader).at_hand(), final(reader).at_hand(), result),
    {
        broadcast use vstd::std_specs::hash::group_hash_axioms;

        match page {
            PageRef::Dirty(index) => Ok(index),
            PageRef::Committed(page_id) => {
                if let Some(index) = self.dirty_by_original.get(&page_id) {
                    return Ok(*index);
                }
                let node = self.decode_committed(reader, page_id, depth)?;
                let index = self.dirty.len();
                let ghost before = arena(self.dirty@);
                let ghost view = node@;
                self.dirty.push(Some(node));
                self.dirty_by_original.insert(page_id, index);
                self.retired.insert(page_id);
                assert(arena(self.dirty@) =~= before.push(Some(view)));
                Ok(index)
            },
        }
    }

    /// Reads a value.
    pub(crate) fn value_bytes<R: PageReader>(&self, reader: &mut R, value: &StoredValue) -> (result: Result<
        Vec<u8>,
    >)
        requires
            old(reader).usable(),
        ensures
            final(reader).usable(),
            final(reader).origin() == old(reader).origin(),
            old(reader).failures() <= final(reader).failures(),
            hoards(*old(reader), *final(reader)),
            honest(
                result,
                old(reader).failures(),
                final(reader).failures(),
                final(reader).reported(),
                incomplete(old(reader).pages(), self.page_count),
            ),
            final(reader).pages() == old(reader).pages(),
            ({
                let expected = read_value(old(reader).pages(), self.page_count, value@);
                match result {
                    Ok(bytes) => expected == Some(bytes@),
                    Err(error) => fails_for(
                        error,
                        expected is None,
                        final(reader).failures() > old(reader).failures(),
                    ),
                }
            }),
            steady(
                value_near(
                    old(reader).pages(),
                    self.page_count,
                    value@,
                    old(reader).at_hand(),
                ),
                old(reader).at_hand(),
                final(reader).at_hand(),
                result,
            ),
    {
        match value {
            StoredValue::Inline(bytes) => Ok(copy_bytes(bytes)),
            StoredValue::Pending(bytes) => Ok(copy_bytes(bytes)),
            StoredValue::Overflow { head, len } => read_overflow(
                reader,
                *head,
                self.page_count,
                *len,
            ),
        }
    }

    /// Leaves the pages of a value behind.
    pub fn retire_value<R: PageReader>(&mut self, reader: &mut R, value: &StoredValue) -> (result:
        Result<()>)
        requires
            old(reader).usable(),
            old(self).inv(),
        ensures
            final(reader).usable(),
            final(reader).origin() == old(reader).origin(),
            old(reader).failures() <= final(reader).failures(),
            hoards(*old(reader), *final(reader)),
            honest(
                result,
                old(reader).failures(),
                final(reader).failures(),
                final(reader).reported(),
                incomplete(old(reader).pages(), old(self).page_count),
            ),
            final(reader).pages() == old(reader).pages(),
            final(self).inv(),
            final(self).dirty == old(self).dirty,
            final(self).root == old(self).root,
            final(self).page_count == old(self).page_count,
            final(self).height == old(self).height,
            final(self).base == old(self).base,
            ({
                let ids = value_pages(old(reader).pages(), old(self).page_count, value@);
                match result {
                    Ok(_) => fresh_chain(ids, old(self).retired@) && final(self).retired@ == old(
                        self,
                    ).retired@.union(ids.to_set()),
                    Err(error) => fails_for(
                        error,
                        !(value_ok(old(reader).pages(), old(self).page_count, value@)
                            && fresh_chain(ids, old(self).retired@)),
                        final(reader).failures() > old(reader).failures(),
                    ),
                }
            }),
            steady(
                value_near(
                    old(reader).pages(),
                    old(self).page_count,
                    value@,
                    old(reader).at_hand(),
                ),
                old(reader).at_hand(),
                final(reader).at_hand(),
                result,
            ),
    {
        broadcast use vstd::std_specs::hash::group_hash_axioms;

        let mut page_id = match value {
            StoredValue::Overflow { head, len: _ } => *head,
            _ => {
                assert(self.retired@.union(Seq::<u64>::empty().to_set()) =~= self.retired@);
                return Ok(());
            },
        };
        let page_count = self.page_count;
        let ghost pages = reader.pages();
        let ghost hand = reader.at_hand();
        let ghost ready = value_near(pages, page_count, value@, hand);
        let ghost before = self.retired@;
        let ghost head = page_id;
        let ghost whole = chain(pages, page_count, head, page_count as nat);
        let ghost mut done: Seq<u64> = Seq::empty();
        let mut remaining = page_count;
        proof {
            if let Some((ids, _)) = whole {
                assert(done + ids =~= ids);
            }
            assert(before.union(done.to_set()) =~= before);
        }
        while page_id != 0
            invariant
                reader.usable(),
                reader.origin() == old(reader).origin(),
                reader.failures() == old(reader).failures(),
                hoards(*old(reader), *reader),
                reader.pages() == pages,
                pages == old(reader).pages(),
                hand == old(reader).at_hand(),
                ready == value_near(pages, page_count, value@, hand),
                ready ==> reader.at_hand() == hand,
                self.inv(),
                self.dirty == old(self).dirty,
                self.root == old(self).root,
                self.page_count == old(self).page_count,
                self.height == old(self).height,
                self.base == old(self).base,
                page_count == self.page_count,
                before == old(self).retired@,
                self.retired@ == before.union(done.to_set()),
                fresh_chain(done, before),
                value@ is Overflow,
                value@->head == head,
                whole == chain(pages, page_count, head, page_count as nat),
                match chain(pages, page_count, page_id, remaining as nat) {
                    Some((ids, bytes)) => whole is Some && chain_ids(
                        pages,
                        page_count,
                        head,
                        page_count as nat,
                    ) == done + ids,
                    None => whole is None,
                },
            decreases remaining,
        {
            broadcast use vstd::std_specs::hash::group_hash_axioms;

            if remaining == 0 || !self.retired.insert(page_id) {
                proof {
                    if remaining > 0 {
                        if let Some((ids, bytes)) = whole {
                            let rest = chain_ids(pages, page_count, page_id, remaining as nat);
                            assert(rest.len() > 0 && rest[0] == page_id);
                            assert(ids[done.len() as int] == page_id);
                            if !before.contains(page_id) {
                                assert(done.to_set().contains(page_id));
                                let k = choose|k: int| 0 <= k < done.len() && done[k] == page_id;
                                assert(ids[k] == page_id);
                            }
                            assert(!fresh_chain(ids, before));
                        }
                    }
                }
                return Err(corrupt("overflow page cycle"));
            }
            proof {
                if ready {
                    let ids = value_pages(pages, page_count, value@);
                    let rest = chain_ids(pages, page_count, page_id, remaining as nat);
                    assert(rest.len() > 0 && rest[0] == page_id);
                    assert(ids[done.len() as int] == page_id);
                    assert(hand.contains(page_id));
                }
            }
            remaining = remaining - 1;
            let frame = match reader.page(page_id, page_count) {
                Ok(frame) => frame,
                Err(error) => return Err(error),
            };
            if frame.bytes[0] != OVERFLOW {
                return Err(corrupt("overflow pointer targets wrong page type"));
            }
            validate_overflow(&frame.bytes, page_count)?;
            assert(link_ok(pages, page_count, page_id));
            let ghost earlier = done;
            let next = page_u64(&frame.bytes, 8);
            proof {
                done = earlier.push(page_id);
                if let Some((ids, bytes)) = chain(pages, page_count, next, remaining as nat) {
                    assert(earlier + (seq![page_id] + ids) =~= done + ids);
                }
                lemma_push_union(before, earlier, page_id);
                assert forall|k: int| 0 <= k < earlier.len() implies earlier[k] != page_id by {
                    assert(earlier.to_set().contains(earlier[k]));
                }
            }
            page_id = next;
        }
        proof {
            assert(done + Seq::<u64>::empty() =~= done);
        }
        Ok(())
    }

    /// Whether the tree is well formed and all of its pages are at hand. Those of its nodes
    /// that are in memory need no page.
    pub open spec fn near(&self, pages: Pages, hand: Set<u64>) -> bool {
        &&& is_tree(self.env(pages), self.root, self.height@)
        &&& near_below(self.env(pages), self.root, self.height@, hand)
    }

    /// Whether the tree is well formed and the path to a key and its value need only pages at
    /// hand.
    pub open spec fn path_near(&self, pages: Pages, key: Seq<u8>, hand: Set<u64>) -> bool {
        &&& is_tree(self.env(pages), self.root, self.height@)
        &&& search_near(self.env(pages), self.root, key, MAX_DEPTH as nat, hand)
    }

    /// What reading a key gives where nothing was changed yet, whatever the pages hold:
    /// nothing where the path or the value is broken.
    pub open spec fn reading(&self, pages: Pages, key: Seq<u8>) -> Option<Option<Seq<u8>>> {
        found(
            pages,
            self.page_count,
            search(self.env(pages), self.root, key, MAX_DEPTH as nat),
        )
    }

    /// Finds how the value of a key is stored.
    pub fn find_stored_value<R: PageReader>(&self, reader: &mut R, key: &[u8]) -> (result: Result<
        Option<StoredValue>,
    >)
        requires
            old(reader).usable(),
            self.inv(),
        ensures
            final(reader).usable(),
            final(reader).origin() == old(reader).origin(),
            old(reader).failures() <= final(reader).failures(),
            hoards(*old(reader), *final(reader)),
            honest(
                result,
                old(reader).failures(),
                final(reader).failures(),
                final(reader).reported(),
                incomplete(old(reader).pages(), self.page_count),
            ),
            final(reader).pages() == old(reader).pages(),
            ({
                let pages = old(reader).pages();
                let well = is_tree(self.env(pages), self.root, self.height@);
                match result {
                    Ok(Some(value)) => well ==> lookup(self.entries(pages), key@) == Some(value@),
                    Ok(None) => well ==> lookup(self.entries(pages), key@) is None,
                    Err(error) => fails_for(
                        error,
                        !(well && self.height@ < MAX_DEPTH),
                        final(reader).failures() > old(reader).failures(),
                    ),
                }
            }),
            steady(
                self.near(old(reader).pages(), old(reader).at_hand()),
                old(reader).at_hand(),
                final(reader).at_hand(),
                result,
            ),
    {
        proof {
            reveal(subtree);
        }
        let ghost pages = reader.pages();
        let ghost env = self.env(pages);
        let ghost well = is_tree(env, self.root, self.height@);
        let ghost hand = reader.at_hand();
        let ghost ready = self.near(pages, hand);
        let mut page = self.root;
        let mut depth: usize = 0;
        let ghost mut h: nat = self.height@;
        while depth < MAX_DEPTH
            invariant
                depth <= MAX_DEPTH,
                reader.usable(),
                reader.origin() == old(reader).origin(),
                reader.failures() == old(reader).failures(),
                hoards(*old(reader), *reader),
                reader.pages() == pages,
                pages == old(reader).pages(),
                env == self.env(pages),
                self.inv(),
                well == is_tree(env, self.root, self.height@),
                hand == old(reader).at_hand(),
                ready == self.near(pages, hand),
                ready ==> well && reader.at_hand() == hand && near_below(env, page, h, hand),
                well ==> is_tree(env, page, h) && h + depth == self.height@ && lookup(
                    flat(env, page, h),
                    key@,
                ) == lookup(self.entries(pages), key@),
            decreases MAX_DEPTH - depth,
        {
            proof {
                reveal(subtree);
                if well && self.height@ < MAX_DEPTH {
                    assert(sits(env, page, depth as nat));
                }
            }
            let node = self.load_node(reader, page, depth)?;
            match node {
                MutableNode::Leaf(entries) => {
                    let ghost view = entries_of(entries@);
                    match entry_index(entries.as_slice(), key) {
                        Ok(index) => {
                            proof {
                                assert(view[index as int] == entries@[index as int]@);
                                if well {
                                    lemma_lookup(view, index as int);
                                }
                            }
                            return Ok(Some(entries[index].value.clone()));
                        },
                        Err(_) => {
                            proof {
                                broadcast use group_order;

                                if well {
                                    assert(lookup(view, key@) is None);
                                }
                            }
                            return Ok(None);
                        },
                    }
                },
                MutableNode::Internal(children) => {
                    let ghost links = links_of(children@);
                    let index = child_index(children.as_slice(), key);
                    proof {
                        if well {
                            lemma_opened_descend(env, page, h, links, key@, index as int);
                            if ready {
                                lemma_near_child(env, page, h, links, index as int, hand);
                            }
                            h = (h - 1) as nat;
                        }
                        assert(links[index as int] == children@[index as int]@);
                    }
                    page = children[index].page;
                },
            }
            depth = depth + 1;
        }
        Err(corrupt("tree exceeds maximum depth"))
    }
    /// Looks a key up.
    pub fn get<R: PageReader>(&self, reader: &mut R, key: &[u8]) -> (result: Result<Option<Vec<u8>>>)
        requires
            old(reader).usable(),
            self.inv(),
        ensures
            final(reader).usable(),
            final(reader).origin() == old(reader).origin(),
            old(reader).failures() <= final(reader).failures(),
            hoards(*old(reader), *final(reader)),
            honest(
                result,
                old(reader).failures(),
                final(reader).failures(),
                final(reader).reported(),
                incomplete(old(reader).pages(), self.page_count),
            ),
            final(reader).pages() == old(reader).pages(),
            ({
                let pages = old(reader).pages();
                let well = is_tree(self.env(pages), self.root, self.height@);
                let outcome = found(
                    pages,
                    self.page_count,
                    Some(lookup(self.entries(pages), key@)),
                );
                match result {
                    Ok(Some(bytes)) => well ==> outcome == Some(Some(bytes@)),
                    Ok(None) => well ==> outcome == Some(None::<Seq<u8>>),
                    Err(error) => fails_for(
                        error,
                        !(well && self.height@ < MAX_DEPTH),
                        final(reader).failures() > old(reader).failures(),
                    ),
                }
            }),
            self.root is Committed ==> {
                let outcome = self.reading(old(reader).pages(), key@);
                match result {
                    Ok(Some(bytes)) => outcome == Some(Some(bytes@)),
                    Ok(None) => outcome == Some(None::<Seq<u8>>),
                    Err(error) => fails_for(
                        error,
                        outcome is None,
                        final(reader).failures() > old(reader).failures(),
                    ),
                }
            },
            steady(
                self.path_near(old(reader).pages(), key@, old(reader).at_hand()),
                old(reader).at_hand(),
                final(reader).at_hand(),
                result,
            ),
    {
        proof {
            reveal(subtree);
        }
        let ghost pages = reader.pages();
        let ghost env = self.env(pages);
        let ghost well = is_tree(env, self.root, self.height@);
        let ghost hand = reader.at_hand();
        let ghost ready = self.path_near(pages, key@, hand);
        let mut page = self.root;
        let mut depth: usize = 0;
        let ghost mut h: nat = self.height@;
        while depth < MAX_DEPTH
            invariant
                depth <= MAX_DEPTH,
                reader.usable(),
                reader.origin() == old(reader).origin(),
                reader.failures() == old(reader).failures(),
                hoards(*old(reader), *reader),
                reader.pages() == pages,
                pages == old(reader).pages(),
                env == self.env(pages),
                self.inv(),
                well == is_tree(env, self.root, self.height@),
                hand == old(reader).at_hand(),
                ready == self.path_near(pages, key@, hand),
                ready ==> well && reader.at_hand() == hand && search_near(
                    env,
                    page,
                    key@,
                    (MAX_DEPTH - depth) as nat,
                    hand,
                ),
                self.root is Committed ==> page is Committed && search(
                    env,
                    self.root,
                    key@,
                    MAX_DEPTH as nat,
                ) == search(env, page, key@, (MAX_DEPTH - depth) as nat),
                well ==> is_tree(env, page, h) && h + depth == self.height@ && lookup(
                    flat(env, page, h),
                    key@,
                ) == lookup(self.entries(pages), key@),
            decreases MAX_DEPTH - depth,
        {
            proof {
                reveal(subtree);
            }
            match page {
                PageRef::Committed(page_id) => {
                    let frame = reader.page(page_id, self.page_count)?;
                    if frame.bytes[0] == LEAF {
                        validate_leaf(&frame.bytes)?;
                        proof {
                            if well {
                                lemma_leaf_values(env, page, h, key@);
                            }
                        }
                        let value = get_from_leaf(reader, frame, self.page_count, key)?;
                        return match value {
                            Some(value) => Ok(Some(vstd::slice::slice_to_vec(value.as_slice()))),
                            None => Ok(None),
                        };
                    } else if frame.bytes[0] == INTERNAL {
                        validate_internal(&frame.bytes, self.page_count)?;
                        let child = internal_child(&frame.bytes, self.page_count, key);
                        proof {
                            let links = internal_links(frame.bytes@);
                            let taken = choose|i: int| #[trigger]
                                child_at(links, key@, i) && links[i].page == PageRef::Committed(
                                    child,
                                );
                            if well {
                                crate::reader::lemma_descend(env, page, h, links, key@, taken);
                                h = (h - 1) as nat;
                            }
                            lemma_internal_valid(frame.bytes@, self.page_count);
                            lemma_child_at_unique(
                                links,
                                key@,
                                taken,
                                choose|i: int| child_at(links, key@, i),
                            );
                        }
                        page = PageRef::Committed(child);
                    } else {
                        return Err(unexpected_tree_page(frame.bytes[0]));
                    }
                },
                PageRef::Dirty(slot) => {
                    let node = self.dirty_node(slot)?;
                    assert(sturdy(arena(self.dirty@)[slot as int]->0));
                    match node {
                        MutableNode::Leaf(entries) => {
                            let ghost view = entries_of(entries@);
                            match entry_index(entries.as_slice(), key) {
                                Ok(index) => {
                                    proof {
                                        assert(view[index as int] == entries@[index as int]@);
                                        if well {
                                            lemma_lookup(view, index as int);
                                            lemma_leaf_values(env, page, h, key@);
                                        }
                                    }
                                    let bytes = self.value_bytes(reader, &entries[index].value)?;
                                    return Ok(Some(bytes));
                                },
                                Err(_) => {
                                    proof {
                                        broadcast use group_order;

                                        if well {
                                            assert(lookup(view, key@) is None);
                                        }
                                    }
                                    return Ok(None);
                                },
                            }
                        },
                        MutableNode::Internal(children) => {
                            let ghost links = links_of(children@);
                            let index = child_index(children.as_slice(), key);
                            proof {
                                if well {
                                    lemma_opened_descend(env, page, h, links, key@, index as int);
                                    h = (h - 1) as nat;
                                    lemma_child_at_unique(
                                        links,
                                        key@,
                                        index as int,
                                        choose|i: int| child_at(links, key@, i),
                                    );
                                }
                                assert(links[index as int] == children@[index as int]@);
                            }
                            page = children[index].page;
                        },
                    }
                },
            }
            depth = depth + 1;
        }
        Err(corrupt("tree exceeds maximum depth"))
    }
}

/// What is stored in a leaf of a well-formed tree can be read.
proof fn lemma_leaf_values(env: Env, r: PageRef, h: nat, key: Seq<u8>)
    requires
        subtree(env, r, h),
        node_at(env, r) matches Some(Node::Leaf(_)),
    ensures
        found(env.pages, env.count, Some(lookup(flat(env, r, h), key))) is Some,
{
    reveal(subtree);
    reveal(values_ok);
    reveal(owns);
    let entries = flat(env, r, h);
    if let Some(_) = lookup(entries, key) {
        let i = choose|i: int| 0 <= i < entries.len() && (#[trigger] entries[i]).key == key;
        assert(value_ok(env.pages, env.count, entries[i].value));
    }
}

/// A published page that heads a tree at hand is at hand.
proof fn lemma_near_pages(env: Env, r: PageRef, hand: Set<u64>)
    ensures
        forall|h: nat| #[trigger]
            near_below(env, r, h, hand) ==> (r matches PageRef::Committed(id) ==> hand.contains(id)),
{
    assert forall|h: nat| #[trigger] near_below(env, r, h, hand) implies (
    r matches PageRef::Committed(id) ==> hand.contains(id)) by {
        lemma_near_root(env, r, h, hand);
    }
}

/// The first child of a node whose tree is at hand heads such a tree.
proof fn lemma_near_children(env: Env, r: PageRef, links: Seq<Link>, hand: Set<u64>)
    requires
        node_at(env, r) == Some(Node::Internal(links)),
        links.len() > 0,
    ensures
        forall|h: nat| #[trigger]
            near_below(env, r, h, hand) ==> h > 0 && near_below(
                env,
                links[0].page,
                (h - 1) as nat,
                hand,
            ),
{
    assert forall|h: nat| #[trigger] near_below(env, r, h, hand) implies h > 0 && near_below(
        env,
        links[0].page,
        (h - 1) as nat,
        hand,
    ) by {
        lemma_near_child(env, r, h, links, 0, hand);
    }
}

/// A push adds one page to the union.
pub proof fn lemma_push_union(before: Set<u64>, done: Seq<u64>, page_id: u64)
    ensures
        before.union(done.to_set()).insert(page_id) == before.union(done.push(page_id).to_set()),
{
    let more = done.push(page_id);
    assert forall|p: u64| #[trigger] more.contains(p) == (done.contains(p) || p == page_id) by {
        if done.contains(p) {
            let k = choose|k: int| 0 <= k < done.len() && done[k] == p;
            assert(more[k] == p);
        }
        if p == page_id {
            assert(more[done.len() as int] == p);
        }
    }
    assert(before.union(done.to_set()).insert(page_id) =~= before.union(more.to_set()));
}

/// The children of a copied node stand in order, and the right child for a key is
/// where the key is stored.
pub proof fn lemma_opened_descend(
    env: Env,
    r: PageRef,
    h: nat,
    links: Seq<Link>,
    key: Seq<u8>,
    i: int,
)
    requires
        is_tree(env, r, h),
        opened(env, r, h) == Node::Internal(links),
        all_sorted_links(links) ==> child_at(links, key, i),
    ensures
        all_sorted_links(links),
        child_at(links, key, i),
        h > 0,
        run_ok(env, links, (h - 1) as nat),
        keyed(env, links, (h - 1) as nat, 0),
        flat_all(env, links, (h - 1) as nat) == flat(env, r, h),
        is_tree(env, links[i].page, (h - 1) as nat),
        lookup(flat(env, r, h), key) == lookup(flat(env, links[i].page, (h - 1) as nat), key),
        forall|p: PageRef| #[trigger]
            owns(env, r, h, p) == (p == r || run_owns(env, links, (h - 1) as nat, p)),
        !run_owns(env, links, (h - 1) as nat, r),
{
    reveal(subtree);
    let below = (h - 1) as nat;
    let inner = node_at(env, r)->0->Internal_0;
    lemma_opened_run(env, r, h, links);
    lemma_run_sorted(env, links, below, 0);
    assert(all_sorted_links(links));
    assert(child_at(inner, key, i)) by {
        assert(forall|k: int| 1 <= k < links.len() ==> links[k] == inner[k]);
    }
    crate::reader::lemma_descend(env, r, h, inner, key, i);
    assert(inner[i].page == links[i].page);
}

/// A copied internal node stands for the same run of children.
pub proof fn lemma_opened_run(env: Env, r: PageRef, h: nat, links: Seq<Link>)
    requires
        subtree(env, r, h),
        opened(env, r, h) == Node::Internal(links),
    ensures
        h > 0,
        links.len() > 0,
        run_ok(env, links, (h - 1) as nat),
        keyed(env, links, (h - 1) as nat, 0),
        flat_all(env, links, (h - 1) as nat) == flat(env, r, h),
        forall|p: PageRef| #[trigger]
            owns(env, r, h, p) == (p == r || run_owns(env, links, (h - 1) as nat, p)),
        !run_owns(env, links, (h - 1) as nat, r),
{
    reveal(subtree);
    reveal(owns);
    reveal(run_ok);
    let below = (h - 1) as nat;
    let inner = node_at(env, r)->0->Internal_0;
    assert(forall|k: int| 0 <= k < links.len() ==> links[k].page == inner[k].page);
    assert(forall|k: int| 1 <= k < links.len() ==> links[k] == inner[k]);
    assert forall|i: int| 0 <= i < links.len() implies subtree(
        env,
        (#[trigger] links[i]).page,
        below,
    ) && flat(env, links[i].page, below).len() > 0 by {
        assert(subtree(env, inner[i].page, below));
    }
    assert forall|i: int, j: int, p: PageRef| 0 <= i < j < links.len() implies !(#[trigger] owns(
        env,
        links[i].page,
        below,
        p,
    ) && #[trigger] owns(env, links[j].page, below, p)) by {
        assert(!(owns(env, inner[i].page, below, p) && owns(env, inner[j].page, below, p)));
    }
    assert forall|p: PageRef| #[trigger]
        run_owns(env, links, below, p) == run_owns(env, inner, below, p) by {
        if run_owns(env, links, below, p) {
            let i = choose|i: int|
                0 <= i < links.len() && owns(env, (#[trigger] links[i]).page, below, p);
            assert(owns(env, inner[i].page, below, p));
        }
        if run_owns(env, inner, below, p) {
            let i = choose|i: int|
                0 <= i < inner.len() && owns(env, (#[trigger] inner[i]).page, below, p);
            assert(owns(env, links[i].page, below, p));
        }
    }
    lemma_flat_all_pages(env, links, inner, below);
    assert forall|i: int| 0 <= i < links.len() implies (#[trigger] links[i]).key == flat(
        env,
        links[i].page,
        below,
    )[0].key by {
        if i > 0 || r is Dirty {
            assert(inner[i].key == flat(env, inner[i].page, below)[0].key);
        }
    }
}

/// The entries below a run depend on the pages of its children only.
pub proof fn lemma_flat_all_pages(env: Env, a: Seq<Link>, b: Seq<Link>, h: nat)
    requires
        a.len() == b.len(),
        forall|k: int| 0 <= k < a.len() ==> (#[trigger] a[k]).page == b[k].page,
    ensures
        flat_all(env, a, h) == flat_all(env, b, h),
    decreases a.len(),
{
    if a.len() > 0 {
        assert forall|k: int| 0 <= k < a.len() - 1 implies (#[trigger] a.drop_last()[k]).page
            == b.drop_last()[k].page by {
            assert(a[k].page == b[k].page);
        }
        lemma_flat_all_pages(env, a.drop_last(), b.drop_last(), h);
        assert(a[a.len() - 1].page == b[a.len() - 1].page);
    }
}

/// Whether nothing but the contents of slots differs.
pub open spec fn same_but_dirty(before: MutableTree, after: MutableTree) -> bool {
    &&& same_but_dirty_grown(before, after)
    &&& after.dirty@.len() == before.dirty@.len()
}

/// Whether nothing but the arena differs.
pub open spec fn same_but_dirty_grown(before: MutableTree, after: MutableTree) -> bool {
    &&& same_but_opened(before, after)
    &&& after.dirty_by_original == before.dirty_by_original
    &&& after.retired == before.retired
}

/// Whether nothing but the arena and the pages left behind differs.
pub open spec fn same_but_opened(before: MutableTree, after: MutableTree) -> bool {
    &&& after.page_count == before.page_count
    &&& after.root == before.root
    &&& after.height == before.height
    &&& after.base == before.base
}

/// Size below which a node is merged with a sibling.
pub const HALF_PAGE: usize = 2062;

/// Whether a node in memory fits into a page.
pub open spec fn page_sized(env: Env, r: PageRef) -> bool {
    r is Dirty ==> node_size(node_at(env, r)->0) <= PAGE_END
}

} // verus!
