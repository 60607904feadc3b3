//! Nodes of the user tree, in memory and as mathematical values.
use crate::error::{corrupt, Error, Result};
use crate::format::{MAX_KEY_SIZE, PAGE_HEADER, SLOT_SIZE};
use crate::order::{compare, group_order, le, lt, Order};
use vstd::prelude::*;

verus! {

/// End of the cells of a page.
pub const PAGE_END: usize = 4092;

/// Size of the header of an overflow page.
pub const OVERFLOW_HEADER: usize = 16;

/// Largest number of value bytes that one overflow page holds.
pub const OVERFLOW_CAPACITY: usize = 4076;

/// Largest value that is stored inside its leaf.
pub const INLINE_VALUE_LIMIT: usize = 1024;

/// Largest number of slots that a page can hold.
pub const MAX_SLOTS: usize = 253;

// ---------------------------------------------------------------------------
// The model
// ---------------------------------------------------------------------------

/// Where a node lives: in a published page, or in the memory of a transaction.
#[derive(Clone, Copy, Debug, PartialEq, Eq, Structural)]
pub enum PageRef {
    Committed(u64),
    Dirty(usize),
}

/// How a value is stored.
pub ghost enum Stored {
    /// Inside the leaf.
    Inline(Seq<u8>),
    /// In a published chain of overflow pages.
    Overflow { head: u64, len: nat },
    /// In memory, until the transaction lays out its overflow chain.
    Pending(Seq<u8>),
}

/// One entry of a leaf.
pub ghost struct Entry {
    pub key: Seq<u8>,
    pub value: Stored,
}

/// One child of an internal node, under the smallest key below it.
pub ghost struct Link {
    pub key: Seq<u8>,
    pub page: PageRef,
}

/// A node of the user tree.
pub ghost enum Node {
    Leaf(Seq<Entry>),
    Internal(Seq<Link>),
}

/// Whether keys come in strictly increasing order.
pub open spec fn sorted_entries(entries: Seq<Entry>) -> bool {
    forall|i: int, j: int|
        0 <= i < j < entries.len() ==> lt(#[trigger] entries[i].key, #[trigger] entries[j].key)
}

/// Whether a value is stored in the way that its length calls for.
pub open spec fn value_fits(value: Stored) -> bool {
    match value {
        Stored::Inline(bytes) => bytes.len() <= INLINE_VALUE_LIMIT,
        Stored::Overflow { head, len } => head != 0 && INLINE_VALUE_LIMIT < len <= u32::MAX,
        Stored::Pending(bytes) => INLINE_VALUE_LIMIT < bytes.len() <= u32::MAX,
    }
}

/// Whether an entry keeps to the size limits of the format.
pub open spec fn entry_fits(entry: Entry) -> bool {
    entry.key.len() <= MAX_KEY_SIZE && value_fits(entry.value)
}

/// Whether every entry keeps to the size limits of the format.
pub open spec fn entries_fit(entries: Seq<Entry>) -> bool {
    forall|i: int| 0 <= i < entries.len() ==> entry_fits(#[trigger] entries[i])
}

/// Number of bytes that a value takes up in its leaf.
pub open spec fn inline_len(value: Stored) -> nat {
    match value {
        Stored::Inline(bytes) => if bytes.len() <= INLINE_VALUE_LIMIT {
            bytes.len()
        } else {
            0
        },
        _ => 0,
    }
}

/// Number of bytes of cells that the entries take up.
pub open spec fn payload(entries: Seq<Entry>) -> nat
    decreases entries.len(),
{
    if entries.len() == 0 {
        0
    } else {
        payload(entries.drop_last()) + entries.last().key.len() + inline_len(entries.last().value)
    }
}

/// Number of bytes that a leaf takes up, without its checksum.
pub open spec fn leaf_size(entries: Seq<Entry>) -> nat {
    PAGE_HEADER as nat + entries.len() * SLOT_SIZE as nat + payload(entries)
}

/// Number of bytes of cells that the keys of the children take up.
pub open spec fn key_bytes(children: Seq<Link>) -> nat
    decreases children.len(),
{
    if children.len() == 0 {
        0
    } else {
        key_bytes(children.drop_last()) + children.last().key.len()
    }
}

/// Number of bytes that an internal node takes up, without its checksum. The
/// key of the first child is not stored.
pub open spec fn internal_size(children: Seq<Link>) -> nat {
    (PAGE_HEADER + (children.len() - 1) * SLOT_SIZE + key_bytes(children.skip(1))) as nat
}

// ---------------------------------------------------------------------------
// Nodes in memory
// ---------------------------------------------------------------------------

/// How a value is stored.
pub enum StoredValue {
    Inline(Vec<u8>),
    Overflow { head: u64, len: usize },
    Pending(Vec<u8>),
}

impl View for StoredValue {
    type V = Stored;

    open spec fn view(&self) -> Stored {
        match self {
            StoredValue::Inline(bytes) => Stored::Inline(bytes@),
            StoredValue::Overflow { head, len } => Stored::Overflow { head: *head, len: *len as nat },
            StoredValue::Pending(bytes) => Stored::Pending(bytes@),
        }
    }
}

/// One entry of a leaf.
pub struct LeafEntry {
    pub key: Vec<u8>,
    pub value: StoredValue,
}

impl View for LeafEntry {
    type V = Entry;

    open spec fn view(&self) -> Entry {
        Entry { key: self.key@, value: self.value@ }
    }
}

/// One child of an internal node.
pub struct Child {
    pub first_key: Vec<u8>,
    pub page: PageRef,
}

impl View for Child {
    type V = Link;

    open spec fn view(&self) -> Link {
        Link { key: self.first_key@, page: self.page }
    }
}

/// The entries that a sequence of leaf entries stands for.
pub open spec fn entries_of(entries: Seq<LeafEntry>) -> Seq<Entry> {
    entries.map_values(|entry: LeafEntry| entry@)
}

/// The links that a sequence of children stands for.
pub open spec fn links_of(children: Seq<Child>) -> Seq<Link> {
    children.map_values(|child: Child| child@)
}

/// Pushing an entry pushes what it stands for.
pub broadcast proof fn lemma_entries_push(entries: Seq<LeafEntry>, entry: LeafEntry)
    ensures
        #[trigger] entries_of(entries.push(entry)) == entries_of(entries).push(entry@),
{
    assert(entries_of(entries.push(entry)) =~= entries_of(entries).push(entry@));
}

/// Pushing a child pushes what it stands for.
pub broadcast proof fn lemma_links_push(children: Seq<Child>, child: Child)
    ensures
        #[trigger] links_of(children.push(child)) == links_of(children).push(child@),
{
    assert(links_of(children.push(child)) =~= links_of(children).push(child@));
}

/// A node that a transaction has copied into memory.
pub enum MutableNode {
    Leaf(Vec<LeafEntry>),
    Internal(Vec<Child>),
}

impl View for MutableNode {
    type V = Node;

    open spec fn view(&self) -> Node {
        match self {
            MutableNode::Leaf(entries) => Node::Leaf(entries_of(entries@)),
            MutableNode::Internal(children) => Node::Internal(links_of(children@)),
        }
    }
}

/// A copy of a byte string.
pub fn copy_bytes(bytes: &Vec<u8>) -> (copy: Vec<u8>)
    ensures
        copy@ == bytes@,
{
    vstd::slice::slice_to_vec(bytes.as_slice())
}

impl Clone for StoredValue {
    fn clone(&self) -> (copy: Self)
        ensures
            copy@ == self@,
    {
        match self {
            StoredValue::Inline(bytes) => StoredValue::Inline(copy_bytes(bytes)),
            StoredValue::Overflow { head, len } => StoredValue::Overflow { head: *head, len: *len },
            StoredValue::Pending(bytes) => StoredValue::Pending(copy_bytes(bytes)),
        }
    }
}

impl Clone for LeafEntry {
    fn clone(&self) -> (copy: Self)
        ensures
            copy@ == self@,
    {
        LeafEntry { key: copy_bytes(&self.key), value: self.value.clone() }
    }
}

impl Clone for Child {
    fn clone(&self) -> (copy: Self)
        ensures
            copy@ == self@,
    {
        Child { first_key: copy_bytes(&self.first_key), page: self.page }
    }
}

impl Clone for MutableNode {
    fn clone(&self) -> (copy: Self)
        ensures
            copy@ == self@,
    {
        match self {
            MutableNode::Leaf(entries) => {
                let mut copy: Vec<LeafEntry> = Vec::new();
                let mut i: usize = 0;
                while i < entries.len()
                    invariant
                        i <= entries@.len(),
                        entries_of(copy@) == entries_of(entries@).take(i as int),
                    decreases entries@.len() - i,
                {
                    copy.push(entries[i].clone());
                    i += 1;
                    broadcast use lemma_entries_push;

                    assert(entries_of(copy@) =~= entries_of(entries@).take(i as int));
                }
                assert(entries_of(copy@) =~= entries_of(entries@));
                MutableNode::Leaf(copy)
            },
            MutableNode::Internal(children) => {
                let mut copy: Vec<Child> = Vec::new();
                let mut i: usize = 0;
                while i < children.len()
                    invariant
                        i <= children@.len(),
                        links_of(copy@) == links_of(children@).take(i as int),
                    decreases children@.len() - i,
                {
                    copy.push(children[i].clone());
                    i += 1;
                    broadcast use lemma_links_push;

                    assert(links_of(copy@) =~= links_of(children@).take(i as int));
                }
                assert(links_of(copy@) =~= links_of(children@));
                MutableNode::Internal(copy)
            },
        }
    }
}

// ---------------------------------------------------------------------------
// Sizes
// ---------------------------------------------------------------------------

/// The payload of two runs of entries is that of both together.
pub proof fn lemma_payload_add(left: Seq<Entry>, right: Seq<Entry>)
    ensures
        payload(left + right) == payload(left) + payload(right),
    decreases right.len(),
{
    if right.len() == 0 {
        assert(left + right =~= left);
    } else {
        lemma_payload_add(left, right.drop_last());
        assert((left + right).drop_last() =~= left + right.drop_last());
    }
}

/// The key bytes of two runs of children are those of both together.
pub proof fn lemma_key_bytes_add(left: Seq<Link>, right: Seq<Link>)
    ensures
        key_bytes(left + right) == key_bytes(left) + key_bytes(right),
    decreases right.len(),
{
    if right.len() == 0 {
        assert(left + right =~= left);
    } else {
        lemma_key_bytes_add(left, right.drop_last());
        assert((left + right).drop_last() =~= left + right.drop_last());
    }
}

/// The payload of a prefix, one entry longer.
pub proof fn lemma_payload_step(entries: Seq<Entry>, i: int)
    requires
        0 <= i < entries.len(),
    ensures
        payload(entries.take(i + 1)) == payload(entries.take(i)) + entries[i].key.len() + inline_len(
            entries[i].value,
        ),
        payload(entries.take(i + 1)) <= payload(entries),
{
    assert(entries.take(i + 1).drop_last() =~= entries.take(i));
    lemma_payload_add(entries.take(i + 1), entries.skip(i + 1));
    assert(entries.take(i + 1) + entries.skip(i + 1) =~= entries);
}

/// The key bytes of a prefix, one child longer.
pub proof fn lemma_key_bytes_step(children: Seq<Link>, i: int)
    requires
        0 <= i < children.len(),
    ensures
        key_bytes(children.take(i + 1)) == key_bytes(children.take(i)) + children[i].key.len(),
        key_bytes(children.take(i + 1)) <= key_bytes(children),
{
    assert(children.take(i + 1).drop_last() =~= children.take(i));
    lemma_key_bytes_add(children.take(i + 1), children.skip(i + 1));
    assert(children.take(i + 1) + children.skip(i + 1) =~= children);
}

/// Number of bytes that a value takes up in its leaf.
pub fn value_payload_size(value: &StoredValue) -> (size: usize)
    ensures
        size == inline_len(value@),
{
    match value {
        StoredValue::Inline(value) if value.len() <= INLINE_VALUE_LIMIT => value.len(),
        _ => 0,
    }
}

/// Number of bytes that a leaf of these entries takes up.
pub fn leaf_encoded_size(entries: &[LeafEntry]) -> (result: Result<usize>)
    ensures
        match result {
            Ok(size) => size == leaf_size(entries_of(entries@)),
            Err(error) => error is Corrupt && leaf_size(entries_of(entries@)) > usize::MAX,
        },
{
    let ghost view = entries_of(entries@);
    let slots = match entries.len().checked_mul(SLOT_SIZE) {
        Some(slots) => slots,
        None => {
            return Err(corrupt("leaf slot array size overflow"));
        },
    };
    let mut size = match PAGE_HEADER.checked_add(slots) {
        Some(size) => size,
        None => {
            return Err(corrupt("leaf size overflow"));
        },
    };
    let mut i: usize = 0;
    assert(view.take(0) =~= Seq::<Entry>::empty());
    while i < entries.len()
        invariant
            i <= entries@.len(),
            view == entries_of(entries@),
            size == PAGE_HEADER + entries@.len() * SLOT_SIZE + payload(view.take(i as int)),
        decreases entries@.len() - i,
    {
        proof {
            lemma_payload_step(view, i as int);
        }
        size = match size.checked_add(entries[i].key.len()) {
            Some(size) => size,
            None => {
                return Err(corrupt("leaf size overflow"));
            },
        };
        size = match size.checked_add(value_payload_size(&entries[i].value)) {
            Some(size) => size,
            None => {
                return Err(corrupt("leaf size overflow"));
            },
        };
        i += 1;
    }
    assert(view.take(i as int) =~= view);
    Ok(size)
}

/// Number of bytes that an internal node of these children takes up. A node
/// without children is refused.
pub fn internal_encoded_size(children: &[Child]) -> (result: Result<usize>)
    ensures
        match result {
            Ok(size) => children@.len() > 0 && size == internal_size(links_of(children@)),
            Err(error) => error is Corrupt && (children@.len() == 0 || internal_size(
                links_of(children@),
            ) > usize::MAX),
        },
{
    if children.len() == 0 {
        return Err(corrupt("internal node has no children"));
    }
    let ghost view = links_of(children@);
    let ghost stored = view.skip(1);
    let separator_count = children.len() - 1;
    let slots = match separator_count.checked_mul(SLOT_SIZE) {
        Some(slots) => slots,
        None => {
            return Err(corrupt("internal slot array size overflow"));
        },
    };
    let mut size = match PAGE_HEADER.checked_add(slots) {
        Some(size) => size,
        None => {
            return Err(corrupt("internal size overflow"));
        },
    };
    let mut i: usize = 1;
    assert(stored.take(0) =~= Seq::<Link>::empty());
    while i < children.len()
        invariant
            1 <= i <= children@.len(),
            view == links_of(children@),
            stored == view.skip(1),
            size == PAGE_HEADER + (children@.len() - 1) * SLOT_SIZE + key_bytes(stored.take(i - 1)),
        decreases children@.len() - i,
    {
        proof {
            lemma_key_bytes_step(stored, i - 1);
        }
        size = match size.checked_add(children[i].first_key.len()) {
            Some(size) => size,
            None => {
                return Err(corrupt("internal size overflow"));
            },
        };
        i += 1;
    }
    assert(stored.take(i - 1) =~= stored);
    Ok(size)
}

/// Number of bytes that a node takes up.
pub open spec fn node_size(node: Node) -> nat {
    match node {
        Node::Leaf(entries) => leaf_size(entries),
        Node::Internal(children) => internal_size(children),
    }
}

/// Whether a node has neither entries nor children.
pub open spec fn is_bare(node: Node) -> bool {
    match node {
        Node::Leaf(entries) => entries.len() == 0,
        Node::Internal(children) => children.len() == 0,
    }
}

/// Number of bytes that a node takes up.
pub fn node_encoded_size(node: &MutableNode) -> (result: Result<usize>)
    ensures
        match result {
            Ok(size) => size == node_size(node@) && (node@ is Internal ==> !is_bare(node@)),
            Err(error) => error is Corrupt && ((node@ is Internal && is_bare(node@)) || node_size(
                node@,
            ) > usize::MAX),
        },
{
    match node {
        MutableNode::Leaf(entries) => leaf_encoded_size(entries.as_slice()),
        MutableNode::Internal(children) => internal_encoded_size(children.as_slice()),
    }
}

/// Whether a node has neither entries nor children.
pub fn node_is_empty(node: &MutableNode) -> (empty: bool)
    ensures
        empty == is_bare(node@),
{
    match node {
        MutableNode::Leaf(entries) => entries.len() == 0,
        MutableNode::Internal(children) => children.len() == 0,
    }
}

// ---------------------------------------------------------------------------
// Splitting and joining
// ---------------------------------------------------------------------------

/// Whether both sides of a leaf split fit into a page.
pub open spec fn leaf_split_fits(entries: Seq<Entry>, split: int) -> bool {
    &&& 1 <= split < entries.len()
    &&& leaf_size(entries.take(split)) <= PAGE_END
    &&& leaf_size(entries.skip(split)) <= PAGE_END
}

/// How unevenly a split divides the bytes of a leaf.
pub open spec fn leaf_imbalance(entries: Seq<Entry>, split: int) -> int {
    let difference = leaf_size(entries.take(split)) - leaf_size(entries.skip(split));
    if difference < 0 {
        -difference
    } else {
        difference
    }
}

/// Whether both sides of an internal split fit into a page and keep at least two
/// children.
pub open spec fn internal_split_fits(children: Seq<Link>, split: int) -> bool {
    &&& 2 <= split < children.len() - 1
    &&& internal_size(children.take(split)) <= PAGE_END
    &&& internal_size(children.skip(split)) <= PAGE_END
}

/// How unevenly a split divides the bytes of an internal node.
pub open spec fn internal_imbalance(children: Seq<Link>, split: int) -> int {
    let difference = internal_size(children.take(split)) - internal_size(children.skip(split));
    if difference < 0 {
        -difference
    } else {
        difference
    }
}

/// The leaf split that divides the bytes most evenly, the first of those if there
/// are several.
pub open spec fn best_leaf_split_at(entries: Seq<Entry>, split: int) -> bool {
    &&& leaf_split_fits(entries, split)
    &&& forall|other: int| #[trigger]
        leaf_split_fits(entries, other) ==> leaf_imbalance(entries, split) <= leaf_imbalance(
            entries,
            other,
        ) && (other < split ==> leaf_imbalance(entries, split) < leaf_imbalance(entries, other))
}

/// The internal split that divides the bytes most evenly, the first of those if
/// there are several.
pub open spec fn best_internal_split_at(children: Seq<Link>, split: int) -> bool {
    &&& internal_split_fits(children, split)
    &&& forall|other: int| #[trigger]
        internal_split_fits(children, other) ==> internal_imbalance(children, split)
            <= internal_imbalance(children, other) && (other < split ==> internal_imbalance(
            children,
            split,
        ) < internal_imbalance(children, other))
}

/// A leaf is cut where both parts fit into a page and differ least in size, and the first such
/// place is taken.
pub proof fn law_leaf_cut_is_even(entries: Seq<Entry>, split: int, other: int)
    requires
        best_leaf_split_at(entries, split),
    ensures
        1 <= split < entries.len(),
        leaf_size(entries.take(split)) <= PAGE_END,
        leaf_size(entries.skip(split)) <= PAGE_END,
        1 <= other < entries.len() && leaf_size(entries.take(other)) <= PAGE_END && leaf_size(
            entries.skip(other),
        ) <= PAGE_END ==> {
            let a = leaf_size(entries.take(split)) - leaf_size(entries.skip(split));
            let b = leaf_size(entries.take(other)) - leaf_size(entries.skip(other));
            &&& -b <= a <= b || b <= a <= -b
            &&& other < split ==> -b < a < b || b < a < -b
        },
{
    if 1 <= other < entries.len() && leaf_size(entries.take(other)) <= PAGE_END && leaf_size(
        entries.skip(other),
    ) <= PAGE_END {
        assert(leaf_split_fits(entries, other));
    }
}

/// An internal node is cut where both parts have at least two children, fit into a page and
/// differ least in size, and the first such place is taken.
pub proof fn law_internal_cut_is_even(children: Seq<Link>, split: int, other: int)
    requires
        best_internal_split_at(children, split),
    ensures
        2 <= split < children.len() - 1,
        internal_size(children.take(split)) <= PAGE_END,
        internal_size(children.skip(split)) <= PAGE_END,
        2 <= other < children.len() - 1 && internal_size(children.take(other)) <= PAGE_END
            && internal_size(children.skip(other)) <= PAGE_END ==> {
            let a = internal_size(children.take(split)) - internal_size(children.skip(split));
            let b = internal_size(children.take(other)) - internal_size(children.skip(other));
            &&& -b <= a <= b || b <= a <= -b
            &&& other < split ==> -b < a < b || b < a < -b
        },
{
    if 2 <= other < children.len() - 1 && internal_size(children.take(other)) <= PAGE_END
        && internal_size(children.skip(other)) <= PAGE_END {
        assert(internal_split_fits(children, other));
    }
}

/// A leaf takes up its header, a slot for each entry, the keys, and the values that are stored
/// in it; an entry more takes up a slot, its key and such a value.
pub proof fn law_leaf_size(entries: Seq<Entry>, entry: Entry)
    ensures
        leaf_size(Seq::empty()) == 32,
        leaf_size(entries.push(entry)) == leaf_size(entries) + 16 + entry.key.len()
            + match entry.value {
            Stored::Inline(bytes) => if bytes.len() <= 1024 {
                bytes.len()
            } else {
                0
            },
            _ => 0,
        },
{
    assert(entries.push(entry).drop_last() =~= entries);
}

/// The distance between two numbers.
fn distance(a: usize, b: usize) -> (difference: usize)
    ensures
        difference == if a < b {
            b - a
        } else {
            a - b
        },
{
    if a < b {
        b - a
    } else {
        a - b
    }
}

/// Finds the most even split of a leaf. A leaf no split of which fits into two
/// pages is refused.
pub fn best_leaf_split(entries: &[LeafEntry]) -> (result: Result<usize>)
    requires
        leaf_size(entries_of(entries@)) <= usize::MAX,
    ensures
        match result {
            Ok(split) => best_leaf_split_at(entries_of(entries@), split as int),
            Err(error) => error is Corrupt && forall|split: int|
                !(#[trigger] leaf_split_fits(entries_of(entries@), split)),
        },
{
    let ghost view = entries_of(entries@);
    let mut best: Option<(usize, usize)> = None;
    let mut split: usize = 1;
    while split < entries.len()
        invariant
            1 <= split,
            view == entries_of(entries@),
            leaf_size(view) <= usize::MAX,
            match best {
                Some((at, difference)) => {
                    &&& leaf_split_fits(view, at as int)
                    &&& difference == leaf_imbalance(view, at as int)
                    &&& at < split
                    &&& forall|other: int| #[trigger]
                        leaf_split_fits(view, other) && other < split ==> difference
                            <= leaf_imbalance(view, other) && (other < at ==> difference
                            < leaf_imbalance(view, other))
                },
                None => forall|other: int|
                    #![trigger leaf_split_fits(view, other)]
                    other < split ==> !leaf_split_fits(view, other),
            },
        decreases entries@.len() - split,
    {
        let low = &entries[0..split];
        let high = &entries[split..entries.len()];
        proof {
            assert(entries_of(low@) =~= view.take(split as int));
            assert(entries_of(high@) =~= view.skip(split as int));
            lemma_payload_add(view.take(split as int), view.skip(split as int));
            assert(view.take(split as int) + view.skip(split as int) =~= view);
        }
        let left = leaf_encoded_size(low)?;
        let right = leaf_encoded_size(high)?;
        if left <= PAGE_END && right <= PAGE_END {
            let difference = distance(left, right);
            match best {
                Some((_, least)) => {
                    if difference < least {
                        best = Some((split, difference));
                    }
                },
                None => {
                    best = Some((split, difference));
                },
            }
        }
        split += 1;
    }
    match best {
        Some((split, _)) => Ok(split),
        None => Err(corrupt("leaf cannot be split within page capacity")),
    }
}

/// Finds the most even split of an internal node. A node no split of which fits
/// into two pages is refused.
pub fn best_internal_split(children: &[Child]) -> (result: Result<usize>)
    requires
        internal_size(links_of(children@)) <= usize::MAX,
    ensures
        match result {
            Ok(split) => best_internal_split_at(links_of(children@), split as int),
            Err(error) => error is Corrupt && forall|split: int|
                !(#[trigger] internal_split_fits(links_of(children@), split)),
        },
{
    let ghost view = links_of(children@);
    let mut best: Option<(usize, usize)> = None;
    let mut split: usize = 2;
    while split < children.len().saturating_sub(1)
        invariant
            2 <= split,
            view == links_of(children@),
            internal_size(view) <= usize::MAX,
            match best {
                Some((at, difference)) => {
                    &&& internal_split_fits(view, at as int)
                    &&& difference == internal_imbalance(view, at as int)
                    &&& at < split
                    &&& forall|other: int| #[trigger]
                        internal_split_fits(view, other) && other < split ==> difference
                            <= internal_imbalance(view, other) && (other < at ==> difference
                            < internal_imbalance(view, other))
                },
                None => forall|other: int|
                    #![trigger internal_split_fits(view, other)]
                    other < split ==> !internal_split_fits(view, other),
            },
        decreases children@.len() - split,
    {
        let low = &children[0..split];
        let high = &children[split..children.len()];
        proof {
            assert(links_of(low@) =~= view.take(split as int));
            assert(links_of(high@) =~= view.skip(split as int));
            lemma_split_key_bytes(view, split as int);
        }
        let left = internal_encoded_size(low)?;
        let right = internal_encoded_size(high)?;
        if left <= PAGE_END && right <= PAGE_END {
            let difference = distance(left, right);
            match best {
                Some((_, least)) => {
                    if difference < least {
                        best = Some((split, difference));
                    }
                },
                None => {
                    best = Some((split, difference));
                },
            }
        }
        split += 1;
    }
    match best {
        Some((split, _)) => Ok(split),
        None => Err(corrupt("internal node cannot be split within page capacity")),
    }
}

/// A split of an internal node takes one separator out and divides the others.
pub proof fn lemma_split_key_bytes(children: Seq<Link>, split: int)
    requires
        1 <= split < children.len(),
    ensures
        key_bytes(children.skip(1)) == key_bytes(children.take(split).skip(1))
            + children[split].key.len() + key_bytes(children.skip(split).skip(1)),
        internal_size(children) == internal_size(children.take(split)) + internal_size(
            children.skip(split),
        ) - PAGE_HEADER + SLOT_SIZE + children[split].key.len(),
{
    let low = children.take(split).skip(1);
    let one = seq![children[split]];
    let high = children.skip(split).skip(1);
    assert(children.skip(1) =~= low + (one + high));
    lemma_key_bytes_add(low, one + high);
    lemma_key_bytes_add(one, high);
    assert(one.drop_last() =~= Seq::<Link>::empty());
    assert(key_bytes(one) == key_bytes(one.drop_last()) + one.last().key.len());
}

/// Joins two siblings. Siblings of different kinds are refused.
pub fn combine_nodes(left: MutableNode, right: MutableNode) -> (result: Result<MutableNode>)
    ensures
        match (left@, right@) {
            (Node::Leaf(a), Node::Leaf(b)) => result matches Ok(node) && node@ == Node::Leaf(a + b),
            (Node::Internal(a), Node::Internal(b)) => result matches Ok(node) && node@
                == Node::Internal(a + b),
            _ => {
                &&& result matches Err(Error::Corrupt(message))
                &&& message@ == "tree siblings have different kinds"@
            },
        },
{
    match (left, right) {
        (MutableNode::Leaf(mut left), MutableNode::Leaf(mut right)) => {
            let ghost a = left@;
            let ghost b = right@;
            left.append(&mut right);
            assert(entries_of(left@) =~= entries_of(a) + entries_of(b));
            Ok(MutableNode::Leaf(left))
        },
        (MutableNode::Internal(mut left), MutableNode::Internal(mut right)) => {
            let ghost a = left@;
            let ghost b = right@;
            left.append(&mut right);
            assert(links_of(left@) =~= links_of(a) + links_of(b));
            Ok(MutableNode::Internal(left))
        },
        _ => Err(corrupt("tree siblings have different kinds")),
    }
}

/// Whether `left` and `right` are the two sides of the most even split of `node`.
pub open spec fn is_best_split(node: Node, left: Node, right: Node) -> bool {
    match node {
        Node::Leaf(entries) => exists|split: int| #[trigger]
            best_leaf_split_at(entries, split) && left == Node::Leaf(entries.take(split)) && right
                == Node::Leaf(entries.skip(split)),
        Node::Internal(children) => exists|split: int| #[trigger]
            best_internal_split_at(children, split) && left == Node::Internal(children.take(split))
                && right == Node::Internal(children.skip(split)),
    }
}

/// Whether some split of the node fits into two pages.
pub open spec fn can_split(node: Node) -> bool {
    match node {
        Node::Leaf(entries) => exists|split: int| #[trigger] leaf_split_fits(entries, split),
        Node::Internal(children) => exists|split: int| #[trigger]
            internal_split_fits(children, split),
    }
}

/// Divides a node that is too large for one page.
pub fn split_combined(node: MutableNode) -> (result: Result<(MutableNode, MutableNode)>)
    requires
        node_size(node@) <= usize::MAX,
    ensures
        match result {
            Ok((left, right)) => is_best_split(node@, left@, right@),
            Err(error) => error is Corrupt && !can_split(node@),
        },
{
    match node {
        MutableNode::Leaf(mut entries) => {
            let ghost view = entries_of(entries@);
            let split = best_leaf_split(entries.as_slice())?;
            let right = entries.split_off(split);
            assert(entries_of(entries@) =~= view.take(split as int));
            assert(entries_of(right@) =~= view.skip(split as int));
            assert(best_leaf_split_at(view, split as int));
            Ok((MutableNode::Leaf(entries), MutableNode::Leaf(right)))
        },
        MutableNode::Internal(mut children) => {
            let ghost view = links_of(children@);
            let split = best_internal_split(children.as_slice())?;
            let right = children.split_off(split);
            assert(links_of(children@) =~= view.take(split as int));
            assert(links_of(right@) =~= view.skip(split as int));
            assert(best_internal_split_at(view, split as int));
            Ok((MutableNode::Internal(children), MutableNode::Internal(right)))
        },
    }
}

// ---------------------------------------------------------------------------
// Searching
// ---------------------------------------------------------------------------

/// Whether keys increase over all children.
pub open spec fn all_sorted_links(links: Seq<Link>) -> bool {
    forall|i: int, j: int|
        0 <= i < j < links.len() ==> lt(#[trigger] links[i].key, #[trigger] links[j].key)
}

/// Whether `index` is the child under which `key` belongs: the last whose key is
/// not above it, or the first child.
pub open spec fn child_at(links: Seq<Link>, key: Seq<u8>, index: int) -> bool {
    &&& 0 <= index < links.len()
    &&& index > 0 ==> le(links[index].key, key)
    &&& index + 1 < links.len() ==> lt(key, links[index + 1].key)
}

/// Finds the child under which `key` belongs.
pub fn child_index(children: &[Child], key: &[u8]) -> (index: usize)
    requires
        children@.len() > 0,
    ensures
        index < children@.len(),
        all_sorted_links(links_of(children@)) ==> child_at(
            links_of(children@),
            key@,
            index as int,
        ),
{
    let ghost links = links_of(children@);
    let mut low: usize = 0;
    let mut high = children.len();
    while low < high
        invariant
            low <= high <= children@.len(),
            links == links_of(children@),
            all_sorted_links(links) ==> {
                &&& forall|i: int| 0 <= i < low ==> le(#[trigger] links[i].key, key@)
                &&& forall|i: int| high <= i < links.len() ==> lt(key@, #[trigger] links[i].key)
            },
        decreases high - low,
    {
        broadcast use group_order;

        let middle = low + (high - low) / 2;
        assert(links[middle as int].key == children@[middle as int].first_key@);
        if compare(children[middle].first_key.as_slice(), key) != Order::Greater {
            low = middle + 1;
        } else {
            high = middle;
        }
    }
    low.saturating_sub(1)
}

/// Looks a key up in the entries of a leaf: the position of its entry, or the
/// position at which it would have to be inserted.
pub fn entry_index(entries: &[LeafEntry], key: &[u8]) -> (result: std::result::Result<usize, usize>)
    ensures
        match result {
            Ok(index) => index < entries@.len() && entries@[index as int].key@ == key@,
            Err(index) => index <= entries@.len(),
        },
        sorted_entries(entries_of(entries@)) ==> {
            let view = entries_of(entries@);
            match result {
                Ok(index) => true,
                Err(index) => {
                    &&& forall|i: int| 0 <= i < index ==> lt(#[trigger] view[i].key, key@)
                    &&& forall|i: int| index <= i < view.len() ==> lt(key@, #[trigger] view[i].key)
                },
            }
        },
{
    let ghost view = entries_of(entries@);
    let mut low: usize = 0;
    let mut high = entries.len();
    while low < high
        invariant
            low <= high <= entries@.len(),
            view == entries_of(entries@),
            sorted_entries(view) ==> {
                &&& forall|i: int| 0 <= i < low ==> lt(#[trigger] view[i].key, key@)
                &&& forall|i: int| high <= i < view.len() ==> lt(key@, #[trigger] view[i].key)
            },
        decreases high - low,
    {
        broadcast use group_order;

        let middle = low + (high - low) / 2;
        assert(view[middle as int].key == entries@[middle as int].key@);
        match compare(entries[middle].key.as_slice(), key) {
            Order::Less => {
                low = middle + 1;
            },
            Order::Greater => {
                high = middle;
            },
            Order::Equal => {
                return Ok(middle);
            },
        }
    }
    Err(low)
}

} // verus!
