//! Creating, recovering and compacting databases.
use crate::branch::{lemma_spreading_agrees, lemma_spreading_empty, spreading};
use crate::cache::{Cache, Cached};
use crate::canonical::{
    build, canonical_demand, entries_for, rows_fit, sorted_rows, spacious, wrote_tree, BuiltTree,
};
use crate::commit::flushed;
use crate::collect::pairs_of;
use crate::db::{
    free_held, free_stands, is_least_key, root_of, rows_at, tree_branches, tree_stands, user_pages,
    weight, Database,
};
use crate::error::{corrupt, Error, Result};
use crate::format::{
    decode_meta, encode_meta, has_layout, has_magic, in_snapshot, is_meta_page, meta_fields,
    meta_intact, meta_sane, u16_at, Meta, FORMAT_VERSION, META_PAGES, PAGE_SIZE, PAGE_SIZE_U64,
};
use crate::free::{
    free_owns, free_tree, loadable, record_map, records, Layout, LoadedFreeTree, Record,
};
use crate::io::{blamed, len, mute, pages_of, quiet, read_page, struck, wrote, Call, Storage};
use crate::model::{flat, is_tree, owns, published, rows_of, Pages, Row};
use crate::node::PageRef;
use crate::options::{Durability, Options};
use crate::recovery::{at_rest, named, record_at};
use crate::reader::{fails_for, honest, incomplete, PageReader, MAX_DEPTH};
use crate::space::{generation_counts, safe_generation, FreeState, Publication, Published};
use crate::spots::{lemma_streamed_kept, streamed};
use crate::store::{
    cut, flush, holds_pages, keeps, lasts, lemma_spoils_compose, listed_ids, pads, pages_from,
    put_page, spoils, wrote_pages,
};
use std::collections::BTreeMap;
use vstd::prelude::*;

verus! {

// ---------------------------------------------------------------------------
// Choosing the generation to open
// ---------------------------------------------------------------------------

/// The record of a metadata page, if the page could be read and is valid.
pub open spec fn record_in(page: Option<Seq<u8>>) -> Option<Meta> {
    match page {
        Some(bytes) => if is_meta_page(bytes) {
            Some(meta_fields(bytes))
        } else {
            None
        },
        None => None,
    }
}

/// The version that a page of another version names.
pub open spec fn other_version(page: Option<Seq<u8>>) -> Option<u16> {
    match page {
        Some(bytes) => if has_magic(bytes) && u16_at(bytes, 8) != FORMAT_VERSION {
            Some(u16_at(bytes, 8))
        } else {
            None
        },
        None => None,
    }
}

/// Whether a page of this format and version is damaged.
pub open spec fn damaged(page: Option<Seq<u8>>) -> bool {
    page matches Some(bytes) && has_magic(bytes) && u16_at(bytes, 8) == FORMAT_VERSION && has_layout(
        bytes,
    ) && !meta_intact(bytes)
}

/// The newest of the recorded generations, that of the second page if both are equally
/// new.
pub open spec fn newest(first: Option<Meta>, second: Option<Meta>) -> Option<Published> {
    match (first, second) {
        (Some(a), Some(b)) => if b.generation >= a.generation {
            Some(Published { meta: b, slot: 1 })
        } else {
            Some(Published { meta: a, slot: 0 })
        },
        (Some(a), None) => Some(Published { meta: a, slot: 0 }),
        (None, Some(b)) => Some(Published { meta: b, slot: 1 }),
        (None, None) => None,
    }
}

/// The bytes of a page that may not have been read.
pub open spec fn bytes_of(page: Option<[u8; PAGE_SIZE]>) -> Option<Seq<u8>> {
    match page {
        Some(bytes) => Some(bytes@),
        None => None,
    }
}

/// What a metadata page says of its generation.
enum SlotState {
    Valid(Meta),
    Damaged,
    Unsupported(u16),
    Foreign,
}

/// Examines a metadata page that may not have been read.
fn examine(page: &Option<[u8; PAGE_SIZE]>) -> (state: SlotState)
    ensures
        match state {
            SlotState::Valid(meta) => record_in(bytes_of(*page)) == Some(meta),
            SlotState::Damaged => record_in(bytes_of(*page)) is None && damaged(bytes_of(*page))
                && other_version(bytes_of(*page)) is None,
            SlotState::Unsupported(version) => record_in(bytes_of(*page)) is None && other_version(
                bytes_of(*page),
            ) == Some(version) && !damaged(bytes_of(*page)),
            SlotState::Foreign => record_in(bytes_of(*page)) is None && !damaged(bytes_of(*page))
                && other_version(bytes_of(*page)) is None,
        },
{
    match page {
        Some(bytes) => match decode_meta(bytes) {
            Ok(meta) => SlotState::Valid(meta),
            Err(Error::Corrupt(_)) => SlotState::Damaged,
            Err(Error::UnsupportedVersion(version)) => SlotState::Unsupported(version),
            Err(_) => SlotState::Foreign,
        },
        None => SlotState::Foreign,
    }
}

/// Why no generation is named by two metadata pages neither of which is valid: another
/// version is reported before damage, and damage before a foreign file.
pub open spec fn unnamed(a: Option<Seq<u8>>, b: Option<Seq<u8>>, error: Error) -> bool {
    match error {
        Error::UnsupportedVersion(version) => if other_version(b) is Some {
            other_version(b) == Some(version)
        } else {
            other_version(a) == Some(version)
        },
        Error::Corrupt(_) => other_version(a) is None && other_version(b) is None && (damaged(a)
            || damaged(b)),
        Error::InvalidFormat(_) => other_version(a) is None && other_version(b) is None && !damaged(a)
            && !damaged(b),
        _ => false,
    }
}

/// Why a file is refused whose metadata pages are both invalid: if one of them opens with the
/// magic bytes and names another version, that version is unsupported, with the second page
/// before the first; if one of them is of this version and layout, the file is damaged; and
/// otherwise it is no file of this format.
pub proof fn law_refusal(first: Seq<u8>, second: Seq<u8>, error: Error)
    requires
        unnamed(Some(first), Some(second), error),
        record_in(Some(first)) is None,
        record_in(Some(second)) is None,
        first.len() == PAGE_SIZE,
        second.len() == PAGE_SIZE,
    ensures
        ({
            let magic = seq![0x41u8, 0x43, 0x54, 0x44, 0x42, 0x00, 0x0d, 0x0a];
            let ours = |page: Seq<u8>| page.subrange(0, 8) == magic;
            let sized = |page: Seq<u8>|
                u16_at(page, 10) == 4096 && crate::format::u32_at(page, 12) == 2;
            let foreign = |page: Seq<u8>| ours(page) && u16_at(page, 8) != 1;
            let broken = |page: Seq<u8>| ours(page) && u16_at(page, 8) == 1 && sized(page);
            if foreign(second) {
                error == Error::UnsupportedVersion(u16_at(second, 8))
            } else if foreign(first) {
                error == Error::UnsupportedVersion(u16_at(first, 8))
            } else if broken(first) || broken(second) {
                error is Corrupt
            } else {
                error is InvalidFormat
            }
        }),
{
}

/// Chooses the generation to open from both metadata pages, as far as they could be read:
/// the newest valid one. With no valid page, another version is reported before damage,
/// and damage before a foreign file.
pub fn choose_published(first: &Option<[u8; PAGE_SIZE]>, second: &Option<[u8; PAGE_SIZE]>) -> (result:
    Result<Publication>)
    ensures
        ({
            let a = bytes_of(*first);
            let b = bytes_of(*second);
            match result {
                Ok(publication) => {
                    &&& newest(record_in(a), record_in(b)) == Some(publication.current)
                    &&& publication.slots@[0] == record_in(a)
                    &&& publication.slots@[1] == record_in(b)
                },
                Err(error) => {
                    &&& record_in(a) is None
                    &&& record_in(b) is None
                    &&& unnamed(a, b, error)
                },
            }
        }),
{
    let one = examine(first);
    let two = examine(second);
    let slot_one = match &one {
        SlotState::Valid(meta) => Some(*meta),
        _ => None,
    };
    let slot_two = match &two {
        SlotState::Valid(meta) => Some(*meta),
        _ => None,
    };
    let slots = [slot_one, slot_two];
    match (slot_one, slot_two) {
        (Some(a), Some(b)) => {
            let current = if b.generation >= a.generation {
                Published { meta: b, slot: 1 }
            } else {
                Published { meta: a, slot: 0 }
            };
            return Ok(Publication { current, slots });
        },
        (Some(a), None) => {
            return Ok(Publication { current: Published { meta: a, slot: 0 }, slots });
        },
        (None, Some(b)) => {
            return Ok(Publication { current: Published { meta: b, slot: 1 }, slots });
        },
        (None, None) => {},
    }
    if let SlotState::Unsupported(version) = two {
        return Err(Error::UnsupportedVersion(version));
    }
    if let SlotState::Unsupported(version) = one {
        return Err(Error::UnsupportedVersion(version));
    }
    if matches!(one, SlotState::Damaged) || matches!(two, SlotState::Damaged) {
        return Err(corrupt("neither metadata page is valid"));
    }
    Err(Error::InvalidFormat("neither metadata page is valid"))
}

/// A page, if it is there.
pub open spec fn page_in(pages: Pages, slot: u64) -> Option<Seq<u8>> {
    if pages.contains_key(slot) {
        Some(pages[slot])
    } else {
        None
    }
}

/// Whether a publication is the newest that the metadata pages record.
pub open spec fn chosen_from(pages: Pages, publication: Publication) -> bool {
    let first = record_in(page_in(pages, 0));
    let second = record_in(page_in(pages, 1));
    &&& newest(first, second) == Some(publication.current)
    &&& publication.slots@[0] == first
    &&& publication.slots@[1] == second
}

/// Why a file cannot be opened: no generation is named, or the named one cannot be opened.
pub open spec fn refused(contents: Seq<u8>, error: Error) -> bool {
    let first = page_in(pages_of(contents), 0);
    let second = page_in(pages_of(contents), 1);
    match newest(record_in(first), record_in(second)) {
        Some(named) => error is Corrupt && !attachable(contents, named.meta),
        None => unnamed(first, second, error),
    }
}

/// Reads a metadata page, if the storage is long enough to hold it.
fn read_slot<I: Storage>(io: &mut I, slot: u64, length: u64) -> (result: Result<
    Option<[u8; PAGE_SIZE]>,
>)
    requires
        slot < META_PAGES,
        length == old(io).contents().len(),
    ensures
        quiet(old(io), final(io)),
        match result {
            Ok(page) => bytes_of(page) == page_in(pages_of(old(io).contents()), slot),
            Err(error) => blamed(error, old(io), final(io)),
        },
        old(io).failures() <= final(io).failures(),
{
    if length < (slot + 1) * PAGE_SIZE_U64 {
        return Ok(None);
    }
    match read_page(io, slot) {
        Ok(page) => Ok(Some(page)),
        Err(error) => Err(error),
    }
}

/// Reads both metadata pages and chooses the generation to open. A page behind the end of
/// the storage counts as invalid.
pub fn load_published<I: Storage>(io: &mut I) -> (result: Result<Publication>)
    ensures
        quiet(old(io), final(io)),
        match result {
            Ok(publication) => {
                &&& chosen_from(pages_of(old(io).contents()), publication)
                &&& named(old(io).contents()) == Some(publication.current)
                &&& publication.slots@[0] == record_at(old(io).contents(), 0)
                &&& publication.slots@[1] == record_at(old(io).contents(), 1)
            },
            Err(error) => blamed(error, old(io), final(io)) || (error is Io && mute(old(io)))
                || {
                &&& named(old(io).contents()) is None
                &&& unnamed(
                    page_in(pages_of(old(io).contents()), 0),
                    page_in(pages_of(old(io).contents()), 1),
                    error,
                )
            },
        },
        old(io).failures() <= final(io).failures(),
{
    proof {
        reveal(record_at);
    }
    let length = len(io)?;
    let first = read_slot(io, 0, length)?;
    let second = read_slot(io, 1, length)?;
    choose_published(&first, &second)
}

/// What a chosen publication records.
pub proof fn lemma_chosen(pages: Pages, publication: Publication)
    requires
        chosen_from(pages, publication),
    ensures
        publication.current.slot < META_PAGES,
        publication.slots@[publication.current.slot as int] == Some(publication.current.meta),
        meta_sane(publication.current.meta),
        pages.contains_key(publication.current.slot),
        is_meta_page(pages[publication.current.slot]),
        meta_fields(pages[publication.current.slot]) == publication.current.meta,
        forall|k: int|
            0 <= k < 2 ==> ((#[trigger] publication.slots@[k]) matches Some(meta)
                ==> meta.generation <= publication.current.meta.generation),
{
    assert forall|k: int| 0 <= k < 2 implies ((#[trigger] publication.slots@[k]) matches Some(meta)
        ==> meta.generation <= publication.current.meta.generation) by {
        if k == 0 {
        } else {
            assert(k == 1);
        }
    }
}

// ---------------------------------------------------------------------------
// Creating a database
// ---------------------------------------------------------------------------

/// Whether the pages hold a first generation with the given rows: the user tree on the
/// pages from the metadata up to the free tree, and an empty free tree on the last page.
pub open spec fn laid_out(pages: Pages, meta: Meta, rows: Seq<Row>, h: nat) -> bool {
    &&& meta_sane(meta)
    &&& meta.generation == 1
    &&& meta.page_count == meta.free_root + 1
    &&& meta.item_count == rows.len()
    &&& meta.logical_bytes == weight(rows)
    &&& meta.user_tree_pages == meta.free_root - META_PAGES
    &&& meta.free_tree_pages == 1
    &&& meta.free_pages == 0
    &&& meta.fallback_pages == 0
    &&& tree_stands(pages, meta, h)
    &&& tree_branches(pages, meta, h)
    &&& rows_at(pages, meta, h) == rows
    &&& meta.root == meta.free_root - 1
    &&& streamed(pages, META_PAGES, meta.free_root, entries_for(rows))
    &&& forall|p: u64| #[trigger]
        user_pages(pages, meta, h).contains(p) == (META_PAGES <= p < meta.free_root)
    &&& free_stands(pages, meta, Map::empty(), set![meta.free_root], 0)
    &&& rows.len() <= 0x8000_0000_0000_0000 ==> h < MAX_DEPTH
}

/// Whether the storage holds a first generation that its first metadata page records.
pub open spec fn founded(contents: Seq<u8>, meta: Meta, rows: Seq<Row>) -> bool {
    &&& pages_of(contents).contains_key(0)
    &&& is_meta_page(pages_of(contents)[0])
    &&& meta_fields(pages_of(contents)[0]) == meta
    &&& exists|h: nat| #[trigger] laid_out(pages_of(contents), meta, rows, h)
}

/// A tree reads the same where its pages are kept and the snapshot has not shrunk.
pub proof fn lemma_tree_carried(
    pages: Pages,
    other: Pages,
    count: u64,
    larger: u64,
    root: u64,
    h: nat,
)
    requires
        is_tree(published(pages, count), PageRef::Committed(root), h),
        count <= larger,
        forall|x: u64| #[trigger]
            owns(published(pages, count), PageRef::Committed(root), h, PageRef::Committed(x))
                && pages.contains_key(x) ==> other.contains_key(x) && other[x] == pages[x],
    ensures
        is_tree(published(other, larger), PageRef::Committed(root), h),
        rows_of(
            published(other, larger),
            flat(published(other, larger), PageRef::Committed(root), h),
        ) == rows_of(
            published(pages, count),
            flat(published(pages, count), PageRef::Committed(root), h),
        ),
        forall|p: PageRef| #[trigger]
            owns(published(other, larger), PageRef::Committed(root), h, p) == owns(
                published(pages, count),
                PageRef::Committed(root),
                h,
                p,
            ),
        spreading(published(pages, count), PageRef::Committed(root), h) ==> spreading(
            published(other, larger),
            PageRef::Committed(root),
            h,
        ),
{
    let env = published(pages, count);
    let next = published(other, larger);
    let r = PageRef::Committed(root);
    assert forall|p: PageRef| #[trigger] owns(env, r, h, p) implies crate::model::same_at(
        env,
        next,
        p,
    ) by {
        if let PageRef::Committed(x) = p {
            assert(owns(env, r, h, PageRef::Committed(x)));
        }
    }
    crate::model::lemma_tree_kept(env, next, r, h);
    if spreading(env, r, h) {
        lemma_spreading_agrees(env, next, r, h);
    }
}

/// The bytes of the keys and values of the rows.
fn logical_size(rows: &Vec<(Vec<u8>, Vec<u8>)>) -> (result: Result<u64>)
    ensures
        match result {
            Ok(total) => total == weight(pairs_of(rows@)),
            Err(error) => error is Corrupt && weight(pairs_of(rows@)) > u64::MAX,
        },
{
    let ghost pairs = pairs_of(rows@);
    let mut total: u64 = 0;
    let mut index: usize = 0;
    assert(pairs.take(0) =~= Seq::<Row>::empty());
    while index < rows.len()
        invariant
            index <= rows@.len(),
            pairs == pairs_of(rows@),
            total == weight(pairs.take(index as int)),
        decreases rows@.len() - index,
    {
        let (key, value) = &rows[index];
        proof {
            assert(pairs.take(index + 1).drop_last() =~= pairs.take(index as int));
            assert(pairs[index as int] == (key@, value@));
            lemma_weight_prefix(pairs, index + 1);
        }
        total = match total.checked_add(key.len() as u64) {
            Some(bytes) => match bytes.checked_add(value.len() as u64) {
                Some(bytes) => bytes,
                None => {
                    return Err(corrupt("logical byte count overflow"));
                },
            },
            None => {
                return Err(corrupt("logical byte count overflow"));
            },
        };
        index = index + 1;
    }
    assert(pairs.take(index as int) =~= pairs);
    Ok(total)
}

/// The first rows weigh no more than all of them.
pub proof fn lemma_weight_prefix(rows: Seq<Row>, k: int)
    requires
        0 <= k <= rows.len(),
    ensures
        weight(rows.take(k)) <= weight(rows),
    decreases rows.len() - k,
{
    if k == rows.len() {
        assert(rows.take(k) =~= rows);
    } else {
        lemma_weight_prefix(rows, k + 1);
        assert(rows.take(k + 1).drop_last() =~= rows.take(k));
    }
}

/// Encodes an empty free tree on one page.
fn empty_free_tree(page_id: u64) -> (result: Result<[u8; PAGE_SIZE]>)
    ensures
        match result {
            Ok(page) => forall|pages: Pages| #[trigger]
                pages.contains_key(page_id) && pages[page_id] == page@
                    ==> crate::free::free_node(pages, page_id, 0) && records(pages, page_id, 0)
                    == Seq::<Record>::empty(),
            Err(_) => false,
        },
{
    broadcast use vstd::std_specs::btree::group_btree_axioms;

    let none: BTreeMap<u64, u64> = BTreeMap::new();
    let layout = Layout::for_entries(0);
    let mut ids: Vec<u64> = Vec::new();
    ids.push(page_id);
    proof {
        let levels = layout.levels();
        assert(levels.len() == 1) by {
            if levels.len() > 1 {
                assert(1 < levels[0]);
            }
        }
        assert(levels =~= seq![1usize]);
        assert(levels.drop_last() =~= Seq::<usize>::empty());
        assert(crate::free::level_sum(levels.drop_last()) == 0);
        assert(crate::free::level_sum(levels) == 1);
        assert(ids@.no_duplicates());
    }
    let built = crate::free::build(&none, &layout, &ids)?;
    assert(built.stores(0, none@, 253 * layout.levels()[0], ids@));
    let ghost map = choose|map: Pages| #[trigger]
        built.stands(map, 0, none@, 253 * layout.levels()[0], ids@);
    proof {
        assert(built.stands(map, 0, none@, 253 * layout.levels()[0], ids@));
        let list = crate::finish::page_list(built.pages@);
        assert(list[0].0 == built.pages@[0].0);
        assert(map.contains_key(list[0].0));
        assert(ids@.contains(list[0].0));
        assert(free_owns(map, built.root, 0, built.root));
        assert(ids@.contains(built.root));
        assert(built.root == page_id);
        assert(map[page_id] == built.pages@[0].1@);
        let kept = records(map, page_id, 0);
        assert(crate::free::holds(kept, none@, 253 * layout.levels()[0]));
        let all = choose|all: Seq<Record>| #[trigger]
            crate::free::lists(all, none@) && kept == all.take(
                if all.len() <= 253 * layout.levels()[0] {
                    all.len() as int
                } else {
                    253 * layout.levels()[0]
                },
            );
        crate::free::lemma_record_map(all);
        if all.len() > 0 {
            assert(record_map(all).contains_key(all[0].0));
        }
        assert(kept =~= Seq::<Record>::empty());
    }
    let page = built.pages[0].1;
    proof {
        assert forall|pages: Pages| #[trigger] pages.contains_key(page_id) && pages[page_id]
            == page@ implies crate::free::free_node(pages, page_id, 0) && records(pages, page_id, 0)
            == Seq::<Record>::empty() by {
            assert(crate::free::free_node(map, page_id, 0));
            assert(pages[page_id] == map[page_id]);
            assert(records(pages, page_id, 0) == records(map, page_id, 0));
        }
    }
    Ok(page)
}

/// The trees of a first generation once all of its pages are stored.
proof fn lemma_laid_out(
    built: BuiltTree,
    before: Seq<u8>,
    contents: Seq<u8>,
    meta: Meta,
    rows: Seq<Row>,
    free_page: Seq<u8>,
)
    requires
        built.holds(pages_of(before), META_PAGES, rows),
        forall|x: u64| #[trigger]
            pages_of(before).contains_key(x) && META_PAGES <= x < built.page_count ==> pages_of(
                contents,
            ).contains_key(x) && pages_of(contents)[x] == pages_of(before)[x],
        pages_of(contents).contains_key(built.page_count),
        pages_of(contents)[built.page_count] == free_page,
        forall|pages: Pages| #[trigger]
            pages.contains_key(built.page_count) && pages[built.page_count] == free_page
                ==> crate::free::free_node(pages, built.page_count, 0) && records(
                pages,
                built.page_count,
                0,
            ) == Seq::<Record>::empty(),
        meta.generation == 1,
        meta.root == built.root,
        meta.page_count == built.page_count + 1,
        meta.item_count == rows.len(),
        meta.free_root == built.page_count,
        meta.logical_bytes == weight(rows),
        meta.user_tree_pages == built.page_count - META_PAGES,
        meta.free_tree_pages == 1,
        meta.free_pages == 0,
        meta.fallback_pages == 0,
    ensures
        meta_sane(meta),
        exists|h: nat| #[trigger] laid_out(pages_of(contents), meta, rows, h),
{
    let h = choose|h: nat| #[trigger] built.stands(pages_of(before), META_PAGES, rows, h);
    assert(built.stands(pages_of(before), META_PAGES, rows, h));
    let env = published(pages_of(before), built.page_count);
    let r = PageRef::Committed(built.root);
    let pages = pages_of(contents);
    crate::graft::lemma_owns_root(env, r, h);
    assert(owns(env, r, h, PageRef::Committed(built.root)));
    lemma_tree_carried(
        pages_of(before),
        pages,
        built.page_count,
        meta.page_count,
        built.root,
        h,
    );
    assert forall|p: u64| #[trigger] user_pages(pages, meta, h).contains(p) == (META_PAGES <= p
        < meta.free_root) by {
        assert(owns(env, r, h, PageRef::Committed(p)) == (META_PAGES <= p < built.page_count));
        assert(owns(
            published(pages, meta.page_count),
            r,
            h,
            PageRef::Committed(p),
        ) == owns(env, r, h, PageRef::Committed(p)));
    }
    assert(pages.contains_key(built.page_count));
    assert(crate::free::free_node(pages, built.page_count, 0));
    assert(record_map(records(pages, meta.free_root, 0)) =~= Map::<u64, u64>::empty());
    assert forall|p: u64| #[trigger] free_owns(pages, meta.free_root, 0, p) implies in_snapshot(
        p,
        meta.page_count,
    ) by {}
    assert(free_tree(pages, meta.page_count, meta.free_root, 0));
    assert(loadable(pages, meta.page_count, meta.free_root, 0));
    assert(free_stands(pages, meta, Map::empty(), set![meta.free_root], 0));
    assert(rows_at(pages, meta, h) == rows);
    lemma_streamed_kept(
        pages_of(before),
        pages,
        META_PAGES,
        built.page_count,
        entries_for(rows),
    );
    assert(laid_out(pages, meta, rows, h));
}

/// Whether the calls `after` are those `before` and then those that lay out a first generation:
/// the length is set, the user tree and the free tree are written and made durable, and then
/// the first metadata page is written and made durable.
pub open spec fn founding_calls(
    before: Seq<Call>,
    after: Seq<Call>,
    contents: Seq<u8>,
    meta: Meta,
) -> bool {
    exists|stored: Seq<Call>, filed: Seq<Call>, recorded: Seq<Call>|
        #![trigger
            wrote_tree(
                before.push(Call::Resize(META_PAGES * PAGE_SIZE)),
                stored,
                contents,
                META_PAGES,
                meta.free_root,
            ),
            wrote(filed.push(Call::Sync), recorded, 0, pages_of(contents)[0])
        ]
        wrote_tree(
            before.push(Call::Resize(META_PAGES * PAGE_SIZE)),
            stored,
            contents,
            META_PAGES,
            meta.free_root,
        ) && wrote(
            stored,
            filed,
            meta.free_root * PAGE_SIZE,
            pages_of(contents)[meta.free_root],
        ) && wrote(filed.push(Call::Sync), recorded, 0, pages_of(contents)[0]) && after
            == recorded.push(Call::Sync)
}

/// Whether an image is one that a crash might have left `before`, but for pages behind the
/// metadata and zeros that fill up the metadata pages.
pub open spec fn begun<I: Storage>(before: &I, image: Seq<u8>) -> bool {
    exists|base: Seq<u8>| #[trigger]
        before.survives(base) && keeps(base, image, pages_from(META_PAGES)) && pads(
            base,
            image,
            pages_from(META_PAGES),
        )
}

/// Whether the metadata pages of an image are untouched, or both trees of a first generation
/// with the given rows are whole.
pub open spec fn founding_image<I: Storage>(before: &I, image: Seq<u8>, rows: Seq<Row>) -> bool {
    begun(before, image) || exists|meta: Meta, h: nat| #[trigger]
        laid_out(pages_of(image), meta, rows, h)
}

/// A crash while a database is laid out on storage that records none leaves storage that
/// records none, or one that holds both trees of the generation whole.
pub proof fn law_founding_is_atomic<I: Storage>(before: &I, image: Seq<u8>, rows: Seq<Row>)
    requires
        founding_image(before, image, rows),
        forall|base: Seq<u8>| #[trigger]
            before.survives(base) ==> base.len() == 0 || (base.len() >= PAGE_SIZE && record_at(
                base,
                0,
            ) is None),
    ensures
        record_at(image, 0) is None || exists|meta: Meta, h: nat| #[trigger]
            laid_out(pages_of(image), meta, rows, h),
{
    reveal(record_at);
    if begun(before, image) {
        let base = choose|base: Seq<u8>| #[trigger]
            before.survives(base) && keeps(base, image, pages_from(META_PAGES)) && pads(
                base,
                image,
                pages_from(META_PAGES),
            );
        if pages_of(image).contains_key(0) {
            if base.len() == 0 {
                assert(image[0] == 0);
                assert(pages_of(image)[0][0] == 0);
            } else {
                assert(pages_of(base).contains_key(0) && !pages_from(META_PAGES).contains(0));
            }
        }
    }
}

/// What changes pages behind the metadata alone leaves the images begun.
pub proof fn lemma_begun<I: Storage>(before: &I, after: &I, rows: Seq<Row>)
    requires
        spoils(before, after, pages_from(META_PAGES), META_PAGES),
    ensures
        forall|image: Seq<u8>| #[trigger]
            after.survives(image) ==> begun(before, image) && founding_image(before, image, rows),
{
    assert forall|image: Seq<u8>| #[trigger] after.survives(image) implies begun(before, image) by {
        let base = choose|base: Seq<u8>| #[trigger]
            before.survives(base) && keeps(base, image, pages_from(META_PAGES)) && lasts(
                base,
                image,
                META_PAGES,
            ) && pads(base, image, pages_from(META_PAGES));
        assert(before.survives(base));
    }
}

/// Once both trees are durable, every image holds them.
proof fn lemma_founded_images<I: Storage>(
    before: &I,
    after: &I,
    meta: Meta,
    rows: Seq<Row>,
    h: nat,
)
    requires
        flushed(*before),
        laid_out(pages_of(before.contents()), meta, rows, h),
        spoils(before, after, set![0u64], META_PAGES),
    ensures
        forall|image: Seq<u8>| #[trigger]
            after.survives(image) ==> laid_out(pages_of(image), meta, rows, h),
{
    assert forall|image: Seq<u8>| #[trigger] after.survives(image) implies laid_out(
        pages_of(image),
        meta,
        rows,
        h,
    ) by {
        let base = choose|base: Seq<u8>| #[trigger]
            before.survives(base) && keeps(base, image, set![0u64]) && lasts(
                base,
                image,
                META_PAGES,
            ) && pads(base, image, set![0u64]);
        lemma_laid_out_kept(base, image, set![0u64], meta, rows, h);
    }
}

/// What was written is stored as long as it is kept.
proof fn lemma_wrote_tree_kept(
    before: Seq<Call>,
    after: Seq<Call>,
    contents: Seq<u8>,
    later: Seq<u8>,
    first: u64,
    end: u64,
)
    requires
        wrote_tree(before, after, contents, first, end),
        forall|x: u64| #[trigger]
            pages_of(contents).contains_key(x) && first <= x < end ==> pages_of(later).contains_key(
                x,
            ) && pages_of(later)[x] == pages_of(contents)[x],
    ensures
        wrote_tree(before, after, later, first, end),
{
    let list = choose|list: Seq<(u64, [u8; PAGE_SIZE])>| #[trigger]
        wrote_pages(before, after, list) && holds_pages(contents, list) && (forall|id: u64| #[trigger]
            listed_ids(list).contains(id) == (first <= id < end)) && forall|j: int, k: int|
            0 <= j < k < list.len() ==> (#[trigger] list[j]).0 < (#[trigger] list[k]).0;
    assert forall|k: int| 0 <= k < list.len() implies pages_of(later).contains_key(
        (#[trigger] list[k]).0,
    ) && pages_of(later)[list[k].0] == list[k].1@ by {
        assert(listed_ids(list).contains(list[k].0));
        assert(pages_of(contents).contains_key(list[k].0));
    }
    assert(wrote_pages(before, after, list));
}

/// Writes a first generation that holds the rows, and makes it durable.
fn lay_out<I: Storage>(io: &mut I, rows: &Vec<(Vec<u8>, Vec<u8>)>) -> (result: Result<Meta>)
    requires
        rows_fit(pairs_of(rows@)),
        sorted_rows(pairs_of(rows@)),
    ensures
        result matches Ok(meta) ==> founded(final(io).contents(), meta, pairs_of(rows@)),
        result matches Ok(meta) ==> meta.page_count * PAGE_SIZE <= u64::MAX
            && meta.page_count * PAGE_SIZE == final(io).contents().len() && meta.page_count
            <= META_PAGES + canonical_demand(pairs_of(rows@)) + 1,
        result is Ok ==> flushed(*final(io)),
        result is Ok && old(io).contents().len() == 0 ==> record_at(
            final(io).contents(),
            1,
        ) is None,
        result matches Err(error) ==> blamed(error, old(io), final(io)) || (
        error is Corrupt && !spacious(pairs_of(rows@), META_PAGES)),
        old(io).failures() <= final(io).failures(),
        result matches Ok(meta) ==> founding_calls(
            old(io).calls(),
            final(io).calls(),
            final(io).contents(),
            meta,
        ),
        forall|image: Seq<u8>| #[trigger]
            final(io).survives(image) ==> founding_image(old(io), image, pairs_of(rows@)),
{
    let ghost behind = pages_from(META_PAGES);
    let outcome = cut(io, META_PAGES);
    proof {
        lemma_begun(old(io), io, pairs_of(rows@));
    }
    outcome?;
    let ghost emptied = io.contents();
    let ghost first = *io;
    let outcome = build(io, rows, META_PAGES);
    proof {
        lemma_spoils_compose(old(io), &first, io, behind, behind, behind, META_PAGES);
        lemma_begun(old(io), io, pairs_of(rows@));
    }
    let built = outcome?;
    let ghost with_tree = io.contents();
    let ghost second = *io;
    let free_page = empty_free_tree(built.page_count)?;
    assert(built.page_count > META_PAGES) by {
        let h = choose|h: nat| #[trigger]
            built.stands(pages_of(with_tree), META_PAGES, pairs_of(rows@), h);
        assert(built.stands(pages_of(with_tree), META_PAGES, pairs_of(rows@), h));
    }
    let outcome = put_page(io, built.page_count, &free_page);
    proof {
        let one = set![built.page_count];
        assert(spoils(&second, io, one, META_PAGES));
        assert(one.subset_of(behind));
        lemma_spoils_compose(old(io), &second, io, behind, one, behind, META_PAGES);
        lemma_begun(old(io), io, pairs_of(rows@));
    }
    outcome?;
    let logical_bytes = logical_size(rows)?;
    let ghost third = *io;
    let outcome = flush(io);
    proof {
        if outcome is Err {
            assert(spoils(&third, io, behind, META_PAGES));
            lemma_spoils_compose(old(io), &third, io, behind, behind, behind, META_PAGES);
            lemma_begun(old(io), io, pairs_of(rows@));
        }
    }
    outcome?;
    let ghost with_free = io.contents();
    let page_count = built.page_count + 1;
    let meta = Meta {
        generation: 1,
        root: built.root,
        page_count,
        item_count: rows.len() as u64,
        free_root: built.page_count,
        logical_bytes,
        user_tree_pages: built.page_count - META_PAGES,
        free_tree_pages: 1,
        free_pages: 0,
        fallback_pages: 0,
    };
    let page = encode_meta(meta);
    proof {
        assert(pairs_of(rows@).len() == rows@.len());
        assert forall|x: u64| #[trigger]
            pages_of(with_tree).contains_key(x) && META_PAGES <= x < built.page_count implies
            pages_of(with_free).contains_key(x) && pages_of(with_free)[x] == pages_of(
            with_tree,
        )[x] by {
            assert(!set![built.page_count].contains(x));
        }
        lemma_laid_out(built, with_tree, with_free, meta, pairs_of(rows@), free_page@);
    }
    let ghost h = choose|h: nat| #[trigger]
        laid_out(pages_of(with_free), meta, pairs_of(rows@), h);
    let ghost synced = *io;
    let outcome = put_page(io, 0, &page);
    proof {
        assert(spoils(&synced, io, set![0u64], META_PAGES));
        lemma_founded_images(&synced, io, meta, pairs_of(rows@), h);
    }
    outcome?;
    let ghost fourth = *io;
    let outcome = flush(io);
    proof {
        if outcome is Err {
            assert(spoils(&fourth, io, set![0u64], META_PAGES));
            lemma_spoils_compose(
                &synced,
                &fourth,
                io,
                set![0u64],
                set![0u64],
                set![0u64],
                META_PAGES,
            );
            lemma_founded_images(&synced, io, meta, pairs_of(rows@), h);
        }
    }
    outcome?;
    proof {
        let contents = io.contents();
        assert(pairs_of(rows@).len() == rows@.len());
        assert forall|x: u64| #[trigger]
            pages_of(with_tree).contains_key(x) && META_PAGES <= x < built.page_count implies
            pages_of(contents).contains_key(x) && pages_of(contents)[x] == pages_of(with_tree)[x] by {
            assert(!set![built.page_count].contains(x));
            assert(pages_of(with_free).contains_key(x));
            assert(!set![0u64].contains(x));
        }
        assert(pages_of(with_free).contains_key(built.page_count));
        assert(!set![0u64].contains(built.page_count));
        lemma_laid_out(built, with_tree, contents, meta, pairs_of(rows@), free_page@);
        crate::format::law_meta_round_trip(meta, page@);
        assert(founded(contents, meta, pairs_of(rows@)));
        lemma_wrote_tree_kept(
            first.calls(),
            second.calls(),
            with_tree,
            contents,
            META_PAGES,
            built.page_count,
        );
        assert(wrote(
            second.calls(),
            third.calls(),
            meta.free_root * PAGE_SIZE,
            pages_of(contents)[meta.free_root],
        ));
        assert(wrote(synced.calls(), fourth.calls(), 0, pages_of(contents)[0]));
        assert(founding_calls(old(io).calls(), io.calls(), contents, meta));
        if old(io).contents().len() == 0 {
            assert(pages_of(emptied).contains_key(1));
            assert(!pages_from(META_PAGES).contains(1));
            assert(!set![built.page_count].contains(1));
            assert(!set![0u64].contains(1));
            assert(pages_of(contents)[1] == pages_of(emptied)[1]);
            assert(pages_of(emptied)[1][0] == emptied[PAGE_SIZE as int]);
            reveal(record_at);
        }
    }
    Ok(meta)
}

/// What the metadata of an empty database records.
pub open spec fn first_meta() -> Meta {
    Meta {
        generation: 1,
        root: 2,
        page_count: 4,
        item_count: 0,
        free_root: 3,
        logical_bytes: 0,
        user_tree_pages: 1,
        free_tree_pages: 1,
        free_pages: 0,
        fallback_pages: 0,
    }
}

/// The first generation of an empty database is the documented one.
proof fn lemma_first_meta(pages: Pages, meta: Meta, h: nat)
    requires
        laid_out(pages, meta, Seq::empty(), h),
        meta.page_count <= META_PAGES + canonical_demand(Seq::empty()) + 1,
    ensures
        meta == first_meta(),
        h == 0,
{
    let env = published(pages, meta.page_count);
    crate::graft::lemma_owns_root(env, root_of(meta), h);
    assert(user_pages(pages, meta, h).contains(meta.root));
    crate::body::lemma_opened_body(env, root_of(meta), h);
}

/// Creates an empty database.
pub fn initialize<I: Storage>(io: &mut I) -> (result: Result<Publication>)
    ensures
        result matches Ok(publication) ==> {
            &&& founded(final(io).contents(), publication.current.meta, Seq::empty())
            &&& publication.current == (Published { meta: first_meta(), slot: 0 })
            &&& publication.slots@[0] == Some(first_meta())
            &&& publication.slots@[1] is None
            &&& final(io).contents().len() == 4 * PAGE_SIZE
            &&& old(io).contents().len() == 0 ==> chosen_from(
                pages_of(final(io).contents()),
                publication,
            )
        },
        result is Ok ==> flushed(*final(io)),
        result is Ok && old(io).contents().len() == 0 ==> record_at(
            final(io).contents(),
            1,
        ) is None,
        result matches Err(error) ==> blamed(error, old(io), final(io)),
        old(io).failures() <= final(io).failures(),
        result is Ok ==> founding_calls(
            old(io).calls(),
            final(io).calls(),
            final(io).contents(),
            first_meta(),
        ),
        forall|image: Seq<u8>| #[trigger]
            final(io).survives(image) ==> founding_image(old(io), image, Seq::empty()),
{
    let rows: Vec<(Vec<u8>, Vec<u8>)> = Vec::new();
    assert(pairs_of(rows@) =~= Seq::<Row>::empty());
    let meta = lay_out(io, &rows)?;
    proof {
        let h = choose|h: nat| #[trigger]
            laid_out(pages_of(io.contents()), meta, Seq::empty(), h);
        lemma_first_meta(pages_of(io.contents()), meta, h);
        reveal(record_at);
    }
    Ok(Publication { current: Published { meta, slot: 0 }, slots: [Some(meta), None] })
}

/// Writes a database that holds the rows and nothing else.
pub fn write_canonical<I: Storage>(io: &mut I, rows: &Vec<(Vec<u8>, Vec<u8>)>) -> (result: Result<
    (),
>)
    requires
        rows_fit(pairs_of(rows@)),
        sorted_rows(pairs_of(rows@)),
    ensures
        result is Ok ==> canonical(final(io).contents(), pairs_of(rows@)),
        result is Ok ==> flushed(*final(io)),
        result is Ok && old(io).contents().len() == 0 ==> record_at(
            final(io).contents(),
            1,
        ) is None,
        result matches Err(error) ==> blamed(error, old(io), final(io)) || (
        error is Corrupt && !spacious(pairs_of(rows@), META_PAGES)),
        old(io).failures() <= final(io).failures(),
        result is Ok ==> exists|meta: Meta| #[trigger]
            founded(final(io).contents(), meta, pairs_of(rows@)) && founding_calls(
                old(io).calls(),
                final(io).calls(),
                final(io).contents(),
                meta,
            ),
        forall|image: Seq<u8>| #[trigger]
            final(io).survives(image) ==> founding_image(old(io), image, pairs_of(rows@)),
{
    let meta = lay_out(io, rows)?;
    assert(canonical(io.contents(), pairs_of(rows@)));
    Ok(())
}

/// Whether the storage holds a first generation with the given rows.
pub open spec fn canonical(contents: Seq<u8>, rows: Seq<Row>) -> bool {
    exists|meta: Meta| #[trigger] founded(contents, meta, rows)
}

// ---------------------------------------------------------------------------
// Opening a database
// ---------------------------------------------------------------------------

/// Whether the free tree of a generation can be loaded and is as the metadata says: as
/// many free pages and tree pages, none of which is both, and no generation of the future.
pub open spec fn free_sound(pages: Pages, meta: Meta, h: nat) -> bool {
    let entries = record_map(records(pages, meta.free_root, h));
    &&& loadable(pages, meta.page_count, meta.free_root, h)
    &&& entries.dom().len() == meta.free_pages
    &&& Set::new(|p: u64| free_owns(pages, meta.free_root, h, p)).len() == meta.free_tree_pages
    &&& forall|p: u64| #[trigger]
        entries.contains_key(p) ==> !free_owns(pages, meta.free_root, h, p) && entries[p]
            <= meta.generation
}

/// Whether a generation can be opened: the file is long enough and the free tree is sound.
pub open spec fn attachable(contents: Seq<u8>, meta: Meta) -> bool {
    &&& meta.page_count * PAGE_SIZE <= u64::MAX
    &&& meta.page_count * PAGE_SIZE <= contents.len()
    &&& exists|h: nat| #[trigger] free_sound(pages_of(contents), meta, h)
}

/// Pages behind the snapshot play no part in its free tree.
proof fn lemma_free_cut(contents: Seq<u8>, after: Seq<u8>, meta: Meta, h: nat)
    requires
        free_sound(pages_of(contents), meta, h),
        keeps(contents, after, pages_from(meta.page_count)),
    ensures
        free_sound(pages_of(after), meta, h),
{
    let a = pages_of(contents);
    let b = pages_of(after);
    let root = meta.free_root;
    assert(crate::free::agrees(a, b, root, h)) by {
        assert forall|p: u64| #[trigger] free_owns(a, root, h, p) && a.contains_key(p) implies
            b.contains_key(p) && b[p] == a[p] by {
            assert(in_snapshot(p, meta.page_count));
            assert(!pages_from(meta.page_count).contains(p));
        }
    }
    crate::free::lemma_free_carried(a, b, meta.page_count, meta.page_count, root, h);
    assert(Set::new(|p: u64| free_owns(a, root, h, p)) =~= Set::new(
        |p: u64| free_owns(b, root, h, p),
    ));
    assert forall|p: u64| #[trigger]
        record_map(records(b, root, h)).contains_key(p) implies !free_owns(b, root, h, p)
        && record_map(records(b, root, h))[p] <= meta.generation by {
        assert(!free_owns(a, root, h, p));
    }
}

/// A loaded free tree is the only one.
proof fn lemma_free_sound_loaded(pages: Pages, meta: Meta, loaded: LoadedFreeTree, h: nat, other: nat)
    requires
        loadable(pages, meta.page_count, meta.free_root, h),
        loaded.entries@ == record_map(records(pages, meta.free_root, h)),
        forall|p: u64| #[trigger]
            loaded.pages@.contains(p) == free_owns(pages, meta.free_root, h, p),
        free_sound(pages, meta, other),
    ensures
        h == other,
        loaded.entries@.dom().len() == meta.free_pages,
        loaded.pages@.len() == meta.free_tree_pages,
        forall|p: u64| #[trigger]
            loaded.entries@.contains_key(p) ==> !loaded.pages@.contains(p) && loaded.entries@[p]
                <= meta.generation,
{
    crate::free::lemma_free_height(pages, meta.free_root, h, other);
    assert(loaded.pages@ =~= Set::new(|p: u64| free_owns(pages, meta.free_root, h, p)));
}

/// Checks that no free page belongs to the free tree or was used by a future generation.
fn check_records(loaded: &LoadedFreeTree, generation: u64) -> (result: Result<()>)
    ensures
        result is Ok <==> forall|p: u64| #[trigger]
            loaded.entries@.contains_key(p) ==> !loaded.pages@.contains(p) && loaded.entries@[p]
                <= generation,
        result matches Err(error) ==> error is Corrupt,
{
    broadcast use vstd::std_specs::hash::group_hash_axioms;

    let all = crate::free::list_records(&loaded.entries);
    proof {
        crate::free::lemma_record_map(all@);
    }
    let mut index: usize = 0;
    while index < all.len()
        invariant
            index <= all@.len(),
            crate::free::lists(all@, loaded.entries@),
            forall|i: int|
                0 <= i < index ==> !loaded.pages@.contains((#[trigger] all@[i]).0) && all@[i].1
                    <= generation,
        decreases all@.len() - index,
    {
        broadcast use vstd::std_specs::hash::group_hash_axioms;

        let (page, last) = all[index];
        if loaded.pages.contains(&page) || last > generation {
            proof {
                crate::free::lemma_record_map(all@);
                assert(loaded.entries@.contains_key(all@[index as int].0));
            }
            return Err(corrupt("free records overlap their tree or name a future generation"));
        }
        index = index + 1;
    }
    assert forall|p: u64| #[trigger]
        loaded.entries@.contains_key(p) implies !loaded.pages@.contains(p) && loaded.entries@[p]
        <= generation by {
        let i = choose|i: int| 0 <= i < all@.len() && (#[trigger] all@[i]).0 == p;
        assert(all@[i].0 == p);
    }
    Ok(())
}

/// Whether storage of the length of the snapshot was left as it was, and longer storage was cut
/// to that length and synchronized.
pub open spec fn cut_back<I: Storage>(before: I, after: I, page_count: u64) -> bool {
    if before.contents().len() == page_count * PAGE_SIZE {
        quiet(&before, &after)
    } else {
        &&& after.calls() == before.calls().push(Call::Resize(page_count * PAGE_SIZE)).push(
            Call::Sync,
        )
        &&& flushed(after)
    }
}

/// Brings the storage to the length of the snapshot.
fn trim<I: Storage>(io: &mut I, page_count: u64) -> (result: Result<()>)
    requires
        META_PAGES <= page_count,
    ensures
        keeps(old(io).contents(), final(io).contents(), pages_from(page_count)),
        match result {
            Ok(_) => {
                &&& page_count * PAGE_SIZE <= u64::MAX
                &&& page_count * PAGE_SIZE <= old(io).contents().len()
                &&& final(io).contents().len() == page_count * PAGE_SIZE
                &&& cut_back(*old(io), *final(io), page_count)
            },
            Err(error) => blamed(error, old(io), final(io)) || (error is Io && mute(old(io))) || (error is Corrupt && !(page_count * PAGE_SIZE <= u64::MAX && page_count
                * PAGE_SIZE <= old(io).contents().len())),
        },
        old(io).failures() <= final(io).failures(),
{
    let expected_len = match page_count.checked_mul(PAGE_SIZE_U64) {
        Some(length) => length,
        None => {
            return Err(corrupt("database file length overflow"));
        },
    };
    let actual_len = len(io)?;
    if actual_len < expected_len {
        return Err(corrupt("file is shorter than committed metadata"));
    }
    if actual_len > expected_len {
        cut(io, page_count)?;
        flush(io)?;
    }
    Ok(())
}

/// Whether a publication can be one that was chosen or created.
pub open spec fn plausible(publication: Publication) -> bool {
    let current = publication.current;
    &&& meta_sane(current.meta)
    &&& current.slot < META_PAGES
    &&& publication.slots@[current.slot as int] == Some(current.meta)
    &&& forall|k: int|
        0 <= k < 2 ==> ((#[trigger] publication.slots@[k]) matches Some(meta) ==> meta.generation
            <= current.meta.generation)
}

/// Loads the free tree of a generation and checks it against the metadata.
fn load_free<I: Storage>(source: &mut Cached<I>, meta: Meta) -> (result: Result<LoadedFreeTree>)
    requires
        old(source).usable(),
    ensures
        final(source).origin() == old(source).origin(),
        old(source).failures() <= final(source).failures(),
        honest(
            result,
            old(source).failures(),
            final(source).failures(),
            final(source).reported(),
            incomplete(old(source).pages(), meta.page_count),
        ),
        result matches Ok(loaded) ==> {
            &&& free_held(old(source).pages(), meta, loaded.entries@, loaded.pages@)
            &&& loaded.entries@.dom().finite()
            &&& loaded.entries@.dom().len() == meta.free_pages
            &&& loaded.pages@.len() == meta.free_tree_pages
            &&& forall|p: u64| #[trigger]
                loaded.entries@.contains_key(p) ==> in_snapshot(p, meta.page_count)
                    && loaded.entries@[p] <= meta.generation && !loaded.pages@.contains(p)
            &&& forall|p: u64| #[trigger]
                loaded.pages@.contains(p) ==> in_snapshot(p, meta.page_count)
        },
        result matches Err(error) ==> fails_for(
            error,
            forall|h: nat| !#[trigger] free_sound(old(source).pages(), meta, h),
            final(source).failures() > old(source).failures(),
        ),
{
    broadcast use vstd::std_specs::hash::group_hash_axioms;
    broadcast use vstd::std_specs::btree::group_btree_axioms;

    let ghost pages = source.pages();
    let loaded = match crate::free::load(source, meta.free_root, meta.page_count) {
        Ok(loaded) => loaded,
        Err(error) => {
            proof {
                assert forall|h: nat| error is Corrupt implies !#[trigger] free_sound(
                    pages,
                    meta,
                    h,
                ) by {
                    assert(error is Corrupt ==> !loadable(
                        pages,
                        meta.page_count,
                        meta.free_root,
                        h,
                    ));
                }
            }
            return Err(error);
        },
    };
    let ghost h = choose|h: nat| #[trigger]
        loadable(pages, meta.page_count, meta.free_root, h) && loaded.entries@ == record_map(
            records(pages, meta.free_root, h),
        ) && forall|p: u64| #[trigger]
            loaded.pages@.contains(p) == free_owns(pages, meta.free_root, h, p);
    let ghost all = records(pages, meta.free_root, h);
    proof {
        crate::free::lemma_node_ascending(pages, meta.free_root, h);
        crate::free::lemma_record_map(all);
        assert(free_stands(pages, meta, loaded.entries@, loaded.pages@, h));
        assert forall|other: nat| #[trigger] free_sound(pages, meta, other) implies
            loaded.entries@.dom().len() == meta.free_pages && loaded.pages@.len()
            == meta.free_tree_pages && (forall|p: u64| #[trigger]
            loaded.entries@.contains_key(p) ==> !loaded.pages@.contains(p) && loaded.entries@[p]
                <= meta.generation) by {
            lemma_free_sound_loaded(pages, meta, loaded, h, other);
        }
    }
    if loaded.entries.len() as u64 != meta.free_pages || loaded.pages.len() as u64
        != meta.free_tree_pages {
        return Err(corrupt("free-tree metadata counts do not match"));
    }
    check_records(&loaded, meta.generation)?;
    proof {
        assert forall|p: u64| #[trigger] loaded.entries@.contains_key(p) implies in_snapshot(
            p,
            meta.page_count,
        ) by {
            let i = choose|i: int| 0 <= i < all.len() && (#[trigger] all[i]).0 == p;
            assert(in_snapshot(records(pages, meta.free_root, h)[i].0, meta.page_count));
        }
        assert forall|p: u64| #[trigger] loaded.pages@.contains(p) implies in_snapshot(
            p,
            meta.page_count,
        ) by {
            assert(free_owns(pages, meta.free_root, h, p));
        }
    }
    Ok(loaded)
}

/// Storage that is long enough for a snapshot holds its pages.
proof fn lemma_all_stored(contents: Seq<u8>, count: u64)
    requires
        count * PAGE_SIZE <= u64::MAX,
        count * PAGE_SIZE <= contents.len(),
    ensures
        !incomplete(pages_of(contents), count),
{
    reveal(incomplete);
    assert forall|id: u64| in_snapshot(id, count) implies #[trigger] pages_of(
        contents,
    ).contains_key(id) by {
        assert((id + 1) * PAGE_SIZE <= count * PAGE_SIZE) by (nonlinear_arith)
            requires
                id + 1 <= count,
                PAGE_SIZE >= 0,
        ;
    }
}

/// Opens a generation: cuts off whatever lies behind its pages and loads its free tree.
pub fn attach<I: Storage>(storage: I, publication: Publication, options: &Options) -> (result:
    Result<Database<I>>)
    requires
        plausible(publication),
    ensures
        result matches Ok(db) ==> {
            &&& db.inv()
            &&& db.publication == publication
            &&& db.snapshots@ == Map::<u64, u64>::empty()
            &&& db.durability == options.policy()
            &&& db.at_hand() == Set::<u64>::empty()
            &&& db.source.cache.limit() == if options.capacity() as int / PAGE_SIZE as int >= 2 {
                options.capacity() as int / PAGE_SIZE as int
            } else {
                2
            }
            &&& keeps(
                storage.contents(),
                db.source.storage.contents(),
                pages_from(publication.current.meta.page_count),
            )
            &&& db.source.storage.contents().len() == publication.current.meta.page_count * PAGE_SIZE
            &&& db.source.storage.contents().len() <= storage.contents().len()
            &&& cut_back(storage, db.source.storage, publication.current.meta.page_count)
        },
        result matches Err(error) ==> (error is Io && struck(&storage)) || (error is Corrupt
            && !attachable(storage.contents(), publication.current.meta)),
{
    broadcast use vstd::std_specs::btree::group_btree_axioms;

    let meta = publication.current.meta;
    let mut storage = storage;
    let ghost start = storage;
    let ghost before = storage.contents();
    let outcome = trim(&mut storage, meta.page_count);
    proof {
        if storage.failures() > start.failures() || mute(&start) {
            assert(storage.failures() > start.failures() || (start.failures() >= 0 && mute(&start)));
        }
    }
    outcome?;
    let ghost after = storage.contents();
    proof {
        assert forall|h: nat| #[trigger] free_sound(pages_of(before), meta, h) implies free_sound(
            pages_of(after),
            meta,
            h,
        ) by {
            lemma_free_cut(before, after, meta, h);
        }
    }
    let mut reader = Cached { storage, cache: Cache::new(options.cache_bytes()) };
    let ghost trimmed = reader;
    proof {
        lemma_all_stored(after, meta.page_count);
    }
    let outcome = load_free(&mut reader, meta);
    proof {
        if reader.failures() > start.failures() {
            assert(reader.storage.failures() > start.failures());
        }
    }
    let loaded = outcome?;
    let ghost read = reader;
    let Cached { storage, cache: _ } = reader;
    proof {
        assert(storage.contents() == after);
        assert forall|image: Seq<u8>| #[trigger] storage.survives(image)
            == trimmed.storage.survives(image) by {
            assert(read.origin().images.contains(image) == trimmed.origin().images.contains(
                image,
            ));
        }
    }
    let counts = generation_counts(&loaded.entries);
    let floor = safe_generation(&publication, None);
    let reusable_pages = crate::db::count_reusable(&loaded.entries, &counts, floor);
    let db = Database {
        source: Cached { storage, cache: Cache::new(options.cache_bytes()) },
        publication,
        snapshots: BTreeMap::new(),
        free: FreeState {
            entries: loaded.entries,
            pages: loaded.pages,
            generation_counts: counts,
            reusable_pages,
        },
        durability: options.commit_policy(),
    };
    proof {
        assert(db.snapshots@ =~= Map::<u64, u64>::empty());
        assert(is_least_key(db.snapshots@, None));
        db.lemma_reusable(None, floor);
    }
    Ok(db)
}

/// Whether an opened database stands on what was stored.
pub open spec fn opened_from<I: Storage>(db: Database<I>, contents: Seq<u8>) -> bool {
    &&& chosen_from(pages_of(contents), db.publication)
    &&& keeps(contents, db.source.storage.contents(), pages_from(db.meta().page_count))
    &&& db.source.storage.contents().len() == db.meta().page_count * PAGE_SIZE
    &&& contents.len() >= db.source.storage.contents().len()
}

impl<I: Storage> Database<I> {
    /// A created or compacted database is whole and leaks no page.
    pub proof fn lemma_founded(&self, rows: Seq<Row>, h: nat)
        requires
            self.inv(),
            laid_out(self.pages(), self.meta(), rows, h),
        ensures
            self.whole(h),
            self.sealed(h),
            rows_at(self.pages(), self.meta(), h) == rows,
            tree_branches(self.pages(), self.meta(), h),
            rows.len() <= 0x8000_0000_0000_0000 ==> h < MAX_DEPTH,
    {
        let meta = self.meta();
        let pages = self.pages();
        let users = user_pages(pages, meta, h);
        let fh = choose|fh: nat| #[trigger]
            free_stands(pages, meta, self.entries(), self.free.pages@, fh);
        assert(free_stands(pages, meta, self.entries(), self.free.pages@, fh));
        crate::free::lemma_free_height(pages, meta.free_root, 0, fh);
        assert(self.entries() =~= Map::<u64, u64>::empty());
        assert forall|p: u64| #[trigger] self.free.pages@.contains(p) == (p == meta.free_root) by {
            assert(set![meta.free_root].contains(p) == free_owns(pages, meta.free_root, 0, p));
        }
        let range = vstd::set_lib::set_int_range(META_PAGES as int, meta.free_root as int);
        vstd::set_lib::lemma_int_range(META_PAGES as int, meta.free_root as int);
        lemma_range_len(users, META_PAGES, meta.free_root);
    }

    /// Opens or creates a database with default options.
    pub fn open(storage: I) -> (result: Result<Self>)
        ensures
            result matches Ok(db) ==> {
                &&& db.inv()
                &&& db.snapshots@ == Map::<u64, u64>::empty()
                &&& db.durability == Durability::Strict
                &&& db.at_hand() == Set::<u64>::empty()
                &&& db.source.cache.limit() == 4096
                &&& db.recorded()
                &&& storage.contents().len() > 0 ==> opened_from(db, storage.contents())
                    && cut_back(storage, db.source.storage, db.meta().page_count)
                &&& storage.contents().len() == 0 ==> db.created() && at_rest(db)
                    && founding_calls(
                    storage.calls(),
                    db.source.storage.calls(),
                    db.source.storage.contents(),
                    first_meta(),
                )
            },
            result matches Err(error) ==> (error is Io && struck(&storage)) || (
            storage.contents().len() > 0 && refused(storage.contents(), error)),
    {
        let options = Options::new();
        Database::open_with_options(storage, &options)
    }

    /// Whether the database holds its first generation, which is whole, leaks no page and
    /// holds nothing, and nothing is stored behind it.
    pub open spec fn created(&self) -> bool {
        &&& self.publication.current == (Published { meta: first_meta(), slot: 0 })
        &&& self.publication.slots@[0] == Some(first_meta())
        &&& self.publication.slots@[1] is None
        &&& self.source.storage.contents().len() == 4 * PAGE_SIZE
        &&& self.whole(0)
        &&& self.sealed(0)
        &&& rows_at(self.pages(), self.meta(), 0).len() == 0
        &&& tree_branches(self.pages(), self.meta(), 0)
    }

    /// Opens a database, or creates it where the storage is empty.
    ///
    /// Fails for invalid options, and otherwise where the storage fails or holds no database
    /// that can be opened.
    pub fn open_with_options(storage: I, options: &Options) -> (result: Result<Self>)
        ensures
            result matches Ok(db) ==> {
                &&& db.inv()
                &&& db.snapshots@ == Map::<u64, u64>::empty()
                &&& db.durability == options.policy()
                &&& db.at_hand() == Set::<u64>::empty()
                &&& db.source.cache.limit() == if options.capacity() as int / PAGE_SIZE as int >= 2 {
                    options.capacity() as int / PAGE_SIZE as int
                } else {
                    2
                }
                &&& db.recorded()
                &&& storage.contents().len() > 0 ==> opened_from(db, storage.contents())
                    && cut_back(storage, db.source.storage, db.meta().page_count)
                &&& storage.contents().len() == 0 ==> db.created() && at_rest(db)
                    && founding_calls(
                    storage.calls(),
                    db.source.storage.calls(),
                    db.source.storage.contents(),
                    first_meta(),
                )
            },
            options.capacity() < 2 * PAGE_SIZE ==> (result matches Err(error)
                && error is InvalidOption),
            result matches Err(error) ==> options.capacity() >= 2 * PAGE_SIZE ==> (error is Io
                && struck(&storage)) || (storage.contents().len() > 0 && refused(storage.contents(), error)),
    {
        options.validate()?;
        let mut storage = storage;
        let ghost start = storage;
        let outcome = len(&storage);
        proof {
            assert(start.failures() >= 0);
        }
        let length = outcome?;
        if length == 0 {
            let outcome = initialize(&mut storage);
            proof {
                assert(storage.failures() >= start.failures());
            }
            let publication = outcome?;
            let ghost founded_as = storage.contents();
            proof {
                let h = choose|h: nat| #[trigger]
                    laid_out(pages_of(founded_as), publication.current.meta, Seq::empty(), h);
                assert(laid_out(pages_of(founded_as), publication.current.meta, Seq::empty(), h));
                assert forall|k: int| 0 <= k < 2 implies ((
                #[trigger] publication.slots@[k]) matches Some(meta) ==> meta.generation
                    <= publication.current.meta.generation) by {
                    if k == 0 {
                    } else {
                        assert(k == 1);
                    }
                }
            }
            let db = match attach(storage, publication, options) {
                Ok(db) => db,
                Err(error) => {
                    proof {
                        let h = choose|h: nat| #[trigger]
                            laid_out(
                                pages_of(founded_as),
                                publication.current.meta,
                                Seq::empty(),
                                h,
                            );
                        lemma_laid_out_attachable(
                            founded_as,
                            publication.current.meta,
                            Seq::empty(),
                            h,
                        );
                    }
                    return Err(error);
                },
            };
            proof {
                lemma_recorded(founded_as, db);
                let h = choose|h: nat| #[trigger]
                    laid_out(pages_of(founded_as), publication.current.meta, Seq::empty(), h);
                lemma_laid_out_kept(
                    founded_as,
                    db.source.storage.contents(),
                    pages_from(publication.current.meta.page_count),
                    publication.current.meta,
                    Seq::empty(),
                    h,
                );
                db.lemma_founded(Seq::empty(), h);
                lemma_first_meta(db.pages(), db.meta(), h);
                lemma_spreading_empty(
                    published(db.pages(), db.meta().page_count),
                    root_of(db.meta()),
                    h,
                );
                assert(db.created());
                assert(flushed(db.source.storage));
                assert(!pages_from(db.meta().page_count).contains(1));
                assert(record_at(db.source.storage.contents(), 1) is None) by {
                    reveal(record_at);
                }
                assert(at_rest(db));
            }
            Ok(db)
        } else {
            let publication = match load_published(&mut storage) {
                Ok(publication) => publication,
                Err(error) => {
                    proof {
                        reveal(record_at);
                    }
                    return Err(error);
                },
            };
            let ghost pages = pages_of(storage.contents());
            proof {
                lemma_chosen(pages, publication);
            }
            let ghost contents = storage.contents();
            let db = match attach(storage, publication, options) {
                Ok(db) => db,
                Err(error) => {
                    return Err(error);
                },
            };
            proof {
                lemma_recorded(contents, db);
            }
            Ok(db)
        }
    }
}

/// The metadata page of an opened generation is kept.
proof fn lemma_recorded<I: Storage>(contents: Seq<u8>, db: Database<I>)
    requires
        db.inv(),
        keeps(contents, db.source.storage.contents(), pages_from(db.meta().page_count)),
        pages_of(contents).contains_key(db.publication.current.slot),
        is_meta_page(pages_of(contents)[db.publication.current.slot]),
        meta_fields(pages_of(contents)[db.publication.current.slot]) == db.meta(),
    ensures
        db.recorded(),
{
    let slot = db.publication.current.slot;
    assert(!pages_from(db.meta().page_count).contains(slot));
    assert(db.pages()[slot] == pages_of(contents)[slot]);
    reveal(record_at);
}

/// A first generation can be opened.
proof fn lemma_laid_out_attachable(contents: Seq<u8>, meta: Meta, rows: Seq<Row>, h: nat)
    requires
        laid_out(pages_of(contents), meta, rows, h),
        meta.page_count * PAGE_SIZE <= u64::MAX,
        meta.page_count * PAGE_SIZE <= contents.len(),
    ensures
        attachable(contents, meta),
{
    let pages = pages_of(contents);
    let one = set![meta.free_root];
    assert(Set::new(|p: u64| free_owns(pages, meta.free_root, 0, p)) =~= one) by {
        assert forall|p: u64| one.contains(p) == #[trigger] free_owns(pages, meta.free_root, 0, p) by {}
    }
    assert(Map::<u64, u64>::empty().dom() =~= Set::<u64>::empty());
    assert(free_sound(pages, meta, 0));
}

/// As many pages as lie between two bounds.
pub proof fn lemma_range_len(pages: Set<u64>, low: u64, high: u64)
    requires
        low <= high,
        forall|p: u64| #[trigger] pages.contains(p) == (low <= p < high),
    ensures
        pages.finite(),
        pages.len() == high - low,
    decreases high - low,
{
    if low == high {
        assert(pages =~= Set::<u64>::empty());
    } else {
        let last = (high - 1) as u64;
        let rest = pages.remove(last);
        assert forall|p: u64| #[trigger] rest.contains(p) == (low <= p < last) by {
            assert(pages.contains(p) == (low <= p < high));
        }
        lemma_range_len(rest, low, last);
        assert(pages.contains(last));
        assert(pages =~= rest.insert(last));
    }
}

/// A first generation stays as it is when its pages are kept.
pub proof fn lemma_laid_out_kept(
    before: Seq<u8>,
    after: Seq<u8>,
    ids: Set<u64>,
    meta: Meta,
    rows: Seq<Row>,
    h: nat,
)
    requires
        laid_out(pages_of(before), meta, rows, h),
        keeps(before, after, ids),
        forall|id: u64| META_PAGES <= id < meta.page_count ==> !#[trigger] ids.contains(id),
    ensures
        laid_out(pages_of(after), meta, rows, h),
{
    let a = pages_of(before);
    let b = pages_of(after);
    let env = published(a, meta.page_count);
    assert forall|x: u64| #[trigger]
        owns(env, root_of(meta), h, PageRef::Committed(x)) && a.contains_key(x) implies
        b.contains_key(x) && b[x] == a[x] by {
        assert(user_pages(a, meta, h).contains(x));
        assert(!ids.contains(x));
    }
    assert forall|x: u64| #[trigger] a.contains_key(x) && META_PAGES <= x < meta.free_root implies
        b.contains_key(x) && b[x] == a[x] by {
        assert(!ids.contains(x));
    }
    lemma_streamed_kept(a, b, META_PAGES, meta.free_root, entries_for(rows));
    lemma_tree_carried(a, b, meta.page_count, meta.page_count, meta.root, h);
    assert forall|p: u64| #[trigger] user_pages(b, meta, h).contains(p) == (META_PAGES <= p
        < meta.free_root) by {
        assert(user_pages(a, meta, h).contains(p) == (META_PAGES <= p < meta.free_root));
        assert(owns(
            published(b, meta.page_count),
            root_of(meta),
            h,
            PageRef::Committed(p),
        ) == owns(env, root_of(meta), h, PageRef::Committed(p)));
    }
    assert(crate::free::agrees(a, b, meta.free_root, 0)) by {
        assert(!ids.contains(meta.free_root));
    }
    crate::free::lemma_free_carried(a, b, meta.page_count, meta.page_count, meta.free_root, 0);
    assert(free_stands(b, meta, Map::empty(), set![meta.free_root], 0)) by {
        assert forall|p: u64| #[trigger]
            set![meta.free_root].contains(p) == free_owns(b, meta.free_root, 0, p) by {
            assert(set![meta.free_root].contains(p) == free_owns(a, meta.free_root, 0, p));
        }
    }
}

} // verus!
