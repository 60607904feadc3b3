//! What writing does to the pages of the storage.
use crate::branch::{lemma_spreading_agrees, spreading};
use crate::error::Result;
use crate::finish::{lemma_listed_unique, listed, page_list, written};
use crate::format::{META_PAGES, PAGE_SIZE, PAGE_SIZE_U64};
use crate::io::{
    blamed, pages_of, resized, set_len, sync_all, torn, write_page, wrote, Call, Storage,
};
use crate::model::{flat, is_tree, lemma_tree_kept, owns, published, rows_of, same_at, Pages};
use crate::node::PageRef;
use vstd::prelude::*;

verus! {

/// Whether every page but the given ones is kept.
pub open spec fn keeps(before: Seq<u8>, after: Seq<u8>, ids: Set<u64>) -> bool {
    forall|id: u64| #[trigger]
        pages_of(before).contains_key(id) && !ids.contains(id) ==> pages_of(after).contains_key(id)
            && pages_of(after)[id] == pages_of(before)[id]
}

/// Whether `after` is not cut below the first `count` pages if `before` had them.
pub open spec fn lasts(before: Seq<u8>, after: Seq<u8>, count: u64) -> bool {
    count * PAGE_SIZE <= before.len() ==> count * PAGE_SIZE <= after.len()
}

/// Whether the metadata pages are kept byte for byte but for the given pages, and filled up
/// with zeros.
pub open spec fn pads(before: Seq<u8>, after: Seq<u8>, ids: Set<u64>) -> bool {
    &&& before.len() <= after.len() || META_PAGES * PAGE_SIZE <= after.len()
    &&& forall|i: int|
        0 <= i < after.len() && i < META_PAGES * PAGE_SIZE && !ids.contains(
            (i / PAGE_SIZE as int) as u64,
        ) ==> #[trigger] after[i] == if i < before.len() {
            before[i]
        } else {
            0
        }
}

/// Whether every image that a crash may leave `after` behind is one that it may have left
/// `before`, but for the given pages and what lies behind the first `count` pages.
pub open spec fn spoils<I: Storage>(before: &I, after: &I, ids: Set<u64>, count: u64) -> bool {
    forall|image: Seq<u8>| #[trigger]
        after.survives(image) ==> exists|base: Seq<u8>| #[trigger]
            before.survives(base) && keeps(base, image, ids) && lasts(base, image, count) && pads(
                base,
                image,
                ids,
            )
}

/// The pages from `count` on.
pub open spec fn pages_from(count: u64) -> Set<u64> {
    Set::new(|id: u64| id >= count)
}

/// Storage that has the same images keeps its pages.
pub proof fn lemma_spoils_same<I: Storage>(before: &I, after: &I, ids: Set<u64>, count: u64)
    requires
        forall|image: Seq<u8>| #[trigger] after.survives(image) ==> before.survives(image),
    ensures
        spoils(before, after, ids, count),
{
    assert forall|image: Seq<u8>| #[trigger] after.survives(image) implies exists|base: Seq<u8>|
        #[trigger]
        before.survives(base) && keeps(base, image, ids) && lasts(base, image, count) && pads(
        base,
        image,
        ids,
    ) by {
        assert(keeps(image, image, ids) && pads(image, image, ids));
    }
}

/// What keeps all but some pages keeps all but more pages.
pub proof fn lemma_spoils_widen<I: Storage>(
    before: &I,
    after: &I,
    ids: Set<u64>,
    all: Set<u64>,
    count: u64,
)
    requires
        spoils(before, after, ids, count),
        ids.subset_of(all),
    ensures
        spoils(before, after, all, count),
        keeps(before.contents(), after.contents(), ids) ==> keeps(
            before.contents(),
            after.contents(),
            all,
        ),
{
    assert forall|image: Seq<u8>| #[trigger] after.survives(image) implies exists|base: Seq<u8>|
        #[trigger]
        before.survives(base) && keeps(base, image, all) && lasts(base, image, count) && pads(
        base,
        image,
        all,
    ) by {
        let base = choose|base: Seq<u8>| #[trigger]
            before.survives(base) && keeps(base, image, ids) && lasts(base, image, count) && pads(
                base,
                image,
                ids,
            );
        assert(keeps(base, image, all) && pads(base, image, all));
    }
}

/// What two steps keep of the images, both keep together.
pub proof fn lemma_spoils_compose<I: Storage>(
    a: &I,
    b: &I,
    c: &I,
    ids: Set<u64>,
    more: Set<u64>,
    all: Set<u64>,
    count: u64,
)
    requires
        spoils(a, b, ids, count),
        spoils(b, c, more, count),
        ids.subset_of(all),
        more.subset_of(all),
    ensures
        spoils(a, c, all, count),
{
    assert forall|image: Seq<u8>| #[trigger] c.survives(image) implies exists|base: Seq<u8>|
        #[trigger]
        a.survives(base) && keeps(base, image, all) && lasts(base, image, count) && pads(
        base,
        image,
        all,
    ) by {
        let middle = choose|middle: Seq<u8>| #[trigger]
            b.survives(middle) && keeps(middle, image, more) && lasts(middle, image, count) && pads(
                middle,
                image,
                more,
            );
        let base = choose|base: Seq<u8>| #[trigger]
            a.survives(base) && keeps(base, middle, ids) && lasts(base, middle, count) && pads(
                base,
                middle,
                ids,
            );
        assert(keeps(base, image, all));
        assert(pads(base, image, all));
    }
}

/// A write inside one page keeps every other page.
pub proof fn lemma_torn_keeps(before: Seq<u8>, after: Seq<u8>, id: u64)
    requires
        torn(before, after, id * PAGE_SIZE, id * PAGE_SIZE + PAGE_SIZE),
    ensures
        keeps(before, after, set![id]),
        pads(before, after, set![id]),
{
    assert forall|i: int|
        0 <= i < after.len() && i < META_PAGES * PAGE_SIZE && !set![id].contains(
            (i / PAGE_SIZE as int) as u64,
        ) implies #[trigger] after[i] == if i < before.len() {
        before[i]
    } else {
        0
    } by {
        assert(i / PAGE_SIZE as int != id);
    }
    assert forall|other: u64| #[trigger]
        pages_of(before).contains_key(other) && !set![id].contains(other) implies pages_of(
        after,
    ).contains_key(other) && pages_of(after)[other] == pages_of(before)[other] by {
        assert(other != id);
        assert forall|i: int| 0 <= i < PAGE_SIZE implies #[trigger] pages_of(after)[other][i]
            == pages_of(before)[other][i] by {
            let at = other * PAGE_SIZE + i;
            assert(after[at] == before[at]);
        }
        assert(pages_of(after)[other] =~= pages_of(before)[other]);
    }
}

/// Setting the length keeps the pages below it.
pub proof fn lemma_resized_keeps(before: Seq<u8>, after: Seq<u8>, count: u64)
    requires
        resized(before, after, count * PAGE_SIZE),
    ensures
        keeps(before, after, pages_from(count)),
        count >= META_PAGES ==> pads(before, after, pages_from(count)),
{
    assert forall|i: int|
        0 <= i < after.len() && i < META_PAGES * PAGE_SIZE && !pages_from(count).contains(
            (i / PAGE_SIZE as int) as u64,
        ) implies #[trigger] after[i] == if i < before.len() {
        before[i]
    } else {
        0
    } by {
        assert((i / PAGE_SIZE as int) < count);
    }
    assert forall|other: u64| #[trigger]
        pages_of(before).contains_key(other) && !pages_from(count).contains(other) implies pages_of(
        after,
    ).contains_key(other) && pages_of(after)[other] == pages_of(before)[other] by {
        assert((other + 1) * PAGE_SIZE <= count * PAGE_SIZE);
        assert forall|i: int| 0 <= i < PAGE_SIZE implies #[trigger] pages_of(after)[other][i]
            == pages_of(before)[other][i] by {
            let at = other * PAGE_SIZE + i;
            assert(after[at] == before[at]);
        }
        assert(pages_of(after)[other] =~= pages_of(before)[other]);
    }
}

/// Writes one page.
pub fn put_page<I: Storage>(io: &mut I, page_id: u64, page: &[u8; PAGE_SIZE]) -> (result: Result<()>)
    ensures
        keeps(old(io).contents(), final(io).contents(), set![page_id]),
        forall|count: u64| #[trigger] spoils(old(io), final(io), set![page_id], count),
        old(io).contents().len() <= final(io).contents().len(),
        final(io).contents().len() <= old(io).contents().len() || final(io).contents().len() <= (
        page_id + 1) * PAGE_SIZE,
        match result {
            Ok(_) => pages_of(final(io).contents()).contains_key(page_id) && pages_of(
                final(io).contents(),
            )[page_id] == page@,
            Err(error) => blamed(error, old(io), final(io)) || (
            error is Corrupt && (page_id + 1) * PAGE_SIZE > u64::MAX),
        },
        old(io).failures() <= final(io).failures(),
        result is Ok ==> wrote(old(io).calls(), final(io).calls(), page_id * PAGE_SIZE, page@),
{
    let result = write_page(io, page_id, page);
    proof {
        lemma_torn_keeps(old(io).contents(), io.contents(), page_id);
        assert forall|count: u64| #[trigger] spoils(old(io), io, set![page_id], count) by {
            assert forall|image: Seq<u8>| #[trigger] io.survives(image) implies exists|
                base: Seq<u8>,
            | #[trigger]
                old(io).survives(base) && keeps(base, image, set![page_id]) && lasts(
                    base,
                    image,
                    count,
                ) && pads(base, image, set![page_id]) by {
                let base = choose|base: Seq<u8>| #[trigger]
                    old(io).survives(base) && torn(
                        base,
                        image,
                        page_id * PAGE_SIZE,
                        page_id * PAGE_SIZE + PAGE_SIZE,
                    );
                lemma_torn_keeps(base, image, page_id);
            }
        }
    }
    result
}

/// Cuts the storage behind the first `count` pages.
pub fn cut<I: Storage>(io: &mut I, count: u64) -> (result: Result<()>)
    requires
        META_PAGES <= count,
        count * PAGE_SIZE <= u64::MAX,
    ensures
        keeps(old(io).contents(), final(io).contents(), pages_from(count)),
        spoils(old(io), final(io), pages_from(count), count),
        count * PAGE_SIZE <= old(io).contents().len() ==> count * PAGE_SIZE <= final(io).contents().len(),
        match result {
            Ok(_) => final(io).contents().len() == count * PAGE_SIZE && forall|i: int|
                old(io).contents().len() <= i < count * PAGE_SIZE ==> #[trigger] final(io).contents()[i] == 0,
            Err(error) => blamed(error, old(io), final(io)),
        },
        old(io).failures() <= final(io).failures(),
        final(io).calls() == if result is Ok {
            old(io).calls().push(Call::Resize(count * PAGE_SIZE))
        } else {
            old(io).calls()
        },
{
    let result = set_len(io, count * PAGE_SIZE_U64);
    proof {
        lemma_resized_keeps(old(io).contents(), io.contents(), count);
        assert forall|image: Seq<u8>| #[trigger] io.survives(image) implies exists|base: Seq<u8>|
            #[trigger]
            old(io).survives(base) && keeps(base, image, pages_from(count)) && lasts(
            base,
            image,
            count,
        ) && pads(base, image, pages_from(count)) by {
            let base = choose|base: Seq<u8>| #[trigger]
                old(io).survives(base) && resized(base, image, count * PAGE_SIZE);
            lemma_resized_keeps(base, image, count);
        }
    }
    result
}

/// The identifiers of a list of pages.
pub open spec fn listed_ids(list: Seq<(u64, [u8; PAGE_SIZE])>) -> Set<u64> {
    Set::new(|id: u64| exists|k: int| 0 <= k < list.len() && (#[trigger] list[k]).0 == id)
}

/// Whether no later page of a list has the same identifier.
pub open spec fn last_of(list: Seq<(u64, [u8; PAGE_SIZE])>, k: int) -> bool {
    forall|j: int| k < j < list.len() ==> (#[trigger] list[j]).0 != list[k].0
}

/// Whether a page of the list is stored.
pub open spec fn holds_page(contents: Seq<u8>, list: Seq<(u64, [u8; PAGE_SIZE])>, k: int) -> bool {
    pages_of(contents).contains_key(list[k].0) && pages_of(contents)[list[k].0] == list[k].1@
}

/// Whether every page of the list is stored.
pub open spec fn holds_pages(contents: Seq<u8>, list: Seq<(u64, [u8; PAGE_SIZE])>) -> bool {
    forall|k: int|
        0 <= k < list.len() ==> pages_of(contents).contains_key((#[trigger] list[k]).0) && pages_of(
            contents,
        )[list[k].0] == list[k].1@
}

/// Whether all pages of a list lie below `count`.
pub open spec fn listed_below(list: Seq<(u64, [u8; PAGE_SIZE])>, count: u64) -> bool {
    forall|k: int| 0 <= k < list.len() ==> (#[trigger] list[k]).0 < count
}

/// Whether each page of a list was written between one state of the calls and the next.
pub open spec fn page_writes(states: Seq<Seq<Call>>, list: Seq<(u64, [u8; PAGE_SIZE])>) -> bool {
    &&& states.len() == list.len() + 1
    &&& forall|k: int|
        0 <= k < list.len() ==> wrote(
            states[k],
            states[k + 1],
            (#[trigger] list[k]).0 * PAGE_SIZE,
            list[k].1@,
        )
}

/// Whether the calls `after` are those `before` and then the writes of the pages of a list,
/// one page behind the other.
pub open spec fn wrote_pages(
    before: Seq<Call>,
    after: Seq<Call>,
    list: Seq<(u64, [u8; PAGE_SIZE])>,
) -> bool {
    exists|states: Seq<Seq<Call>>| #[trigger]
        page_writes(states, list) && states[0] == before && states.last() == after
}

/// Writes the pages of a list one after the other.
pub fn put_pages<I: Storage>(io: &mut I, list: &Vec<(u64, [u8; PAGE_SIZE])>) -> (result: Result<()>)
    ensures
        keeps(old(io).contents(), final(io).contents(), listed_ids(list@)),
        forall|count: u64| #[trigger] spoils(old(io), final(io), listed_ids(list@), count),
        old(io).contents().len() <= final(io).contents().len(),
        forall|count: u64| #[trigger]
            listed_below(list@, count) ==> final(io).contents().len() <= old(io).contents().len()
                || final(io).contents().len() <= count * PAGE_SIZE,
        result is Ok ==> forall|k: int|
            0 <= k < list@.len() && #[trigger] last_of(list@, k) ==> holds_page(
                final(io).contents(),
                list@,
                k,
            ),
        result is Ok ==> (forall|j: int, k: int|
            0 <= j < k < list@.len() ==> (#[trigger] list@[j]).0 != (#[trigger] list@[k]).0)
            ==> holds_pages(final(io).contents(), list@),
        result matches Err(error) ==> blamed(error, old(io), final(io)) || (
        error is Corrupt && exists|k: int|
            0 <= k < list@.len() && ((#[trigger] list@[k]).0 + 1) * PAGE_SIZE > u64::MAX),
        old(io).failures() <= final(io).failures(),
        result is Ok ==> wrote_pages(old(io).calls(), final(io).calls(), list@),
{
    let ghost ids = listed_ids(list@);
    let mut index: usize = 0;
    let ghost mut states: Seq<Seq<Call>> = seq![io.calls()];
    proof {
        assert forall|count: u64| #[trigger] spoils(old(io), io, ids, count) by {
            lemma_spoils_same(old(io), io, ids, count);
        }
    }
    while index < list.len()
        invariant
            index <= list@.len(),
            ids == listed_ids(list@),
            keeps(old(io).contents(), io.contents(), ids),
            forall|count: u64| #[trigger] spoils(old(io), io, ids, count),
            page_writes(states, list@.take(index as int)),
            states[0] == old(io).calls(),
            states.last() == io.calls(),
            old(io).contents().len() <= io.contents().len(),
            old(io).failures() <= io.failures(),
            forall|count: u64| #[trigger]
                listed_below(list@, count) ==> io.contents().len() <= old(io).contents().len()
                    || io.contents().len() <= count * PAGE_SIZE,
            forall|k: int|
                0 <= k < index && (forall|j: int|
                    k < j < index ==> (#[trigger] list@[j]).0 != list@[k].0) ==> #[trigger] holds_page(
                    io.contents(),
                    list@,
                    k,
                ),
        decreases list@.len() - index,
    {
        let ghost before = *io;
        let (page_id, page) = &list[index];
        let outcome = put_page(io, *page_id, page);
        proof {
            let one = set![*page_id];
            assert(list@[index as int].0 == *page_id);
            assert(one.subset_of(ids)) by {
                assert(ids.contains(*page_id));
            }
            assert forall|count: u64| #[trigger] listed_below(list@, count) implies io.contents().len()
                <= old(io).contents().len() || io.contents().len() <= count * PAGE_SIZE by {
                assert(list@[index as int].0 < count);
            }
            assert forall|count: u64| #[trigger] spoils(old(io), io, ids, count) by {
                assert(spoils(old(io), &before, ids, count));
                assert(spoils(&before, io, one, count));
                lemma_spoils_compose(old(io), &before, io, ids, one, ids, count);
            }
        }
        match outcome {
            Ok(()) => {},
            Err(error) => {
                return Err(error);
            },
        }
        proof {
            let done = list@.take(index + 1);
            let more = states.push(io.calls());
            assert forall|k: int| 0 <= k < done.len() implies wrote(
                more[k],
                more[k + 1],
                (#[trigger] done[k]).0 * PAGE_SIZE,
                done[k].1@,
            ) by {
                if k < index {
                    assert(list@.take(index as int)[k] == done[k]);
                }
            }
            states = more;
            assert forall|k: int|
                0 <= k < index + 1 && (forall|j: int|
                    k < j < index + 1 ==> (#[trigger] list@[j]).0 != list@[k].0) implies
                #[trigger] holds_page(io.contents(), list@, k) by {
                if k < index {
                    assert(list@[index as int].0 != list@[k].0);
                    assert(holds_page(before.contents(), list@, k));
                }
            }
        }
        index = index + 1;
    }
    proof {
        assert(list@.take(index as int) =~= list@);
        assert forall|k: int| 0 <= k < list@.len() && #[trigger] last_of(list@, k) implies holds_page(
            io.contents(),
            list@,
            k,
        ) by {}
        if forall|j: int, k: int|
            0 <= j < k < list@.len() ==> (#[trigger] list@[j]).0 != (#[trigger] list@[k]).0 {
            assert forall|k: int| 0 <= k < list@.len() implies pages_of(io.contents()).contains_key(
                (#[trigger] list@[k]).0,
            ) && pages_of(io.contents())[list@[k].0] == list@[k].1@ by {
                assert(last_of(list@, k));
                assert(holds_page(io.contents(), list@, k));
            }
        }
    }
    Ok(())
}

/// Makes all preceding changes durable.
pub fn flush<I: Storage>(io: &mut I) -> (result: Result<()>)
    ensures
        result matches Err(error) ==> blamed(error, old(io), final(io)),
        old(io).failures() <= final(io).failures(),
        final(io).contents() == old(io).contents(),
        final(io).calls() == if result is Ok {
            old(io).calls().push(Call::Sync)
        } else {
            old(io).calls()
        },
        result is Ok ==> forall|image: Seq<u8>| #[trigger]
            final(io).survives(image) ==> image == final(io).contents(),
        forall|ids: Set<u64>, count: u64|
            result is Err ==> #[trigger] spoils(old(io), final(io), ids, count),
{
    let result = sync_all(io);
    proof {
        if result is Err {
            assert forall|ids: Set<u64>, count: u64| #[trigger] spoils(old(io), io, ids, count) by {
                lemma_spoils_same(old(io), io, ids, count);
            }
        }
    }
    result
}

/// A tree over the pages of a list and the pages before them reads the same once the list
/// is stored.
pub proof fn lemma_tree_stored(
    before: Pages,
    list: Seq<(u64, [u8; PAGE_SIZE])>,
    map: Pages,
    contents: Seq<u8>,
    count: u64,
    root: u64,
    h: nat,
)
    requires
        listed(page_list(list), map),
        is_tree(published(written(before, page_list(list)), count), PageRef::Committed(root), h),
        holds_pages(contents, list),
        forall|x: u64| #[trigger]
            owns(
                published(written(before, page_list(list)), count),
                PageRef::Committed(root),
                h,
                PageRef::Committed(x),
            ) && !map.contains_key(x) && before.contains_key(x) ==> pages_of(contents).contains_key(x)
                && pages_of(contents)[x] == before[x],
    ensures
        is_tree(published(pages_of(contents), count), PageRef::Committed(root), h),
        rows_of(
            published(pages_of(contents), count),
            flat(published(pages_of(contents), count), PageRef::Committed(root), h),
        ) == rows_of(
            published(written(before, page_list(list)), count),
            flat(
                published(written(before, page_list(list)), count),
                PageRef::Committed(root),
                h,
            ),
        ),
        forall|p: PageRef| #[trigger]
            owns(published(pages_of(contents), count), PageRef::Committed(root), h, p) == owns(
                published(written(before, page_list(list)), count),
                PageRef::Committed(root),
                h,
                p,
            ),
        spreading(published(written(before, page_list(list)), count), PageRef::Committed(root), h)
            ==> spreading(published(pages_of(contents), count), PageRef::Committed(root), h),
{
    let chosen = choose|chosen: Pages| listed(page_list(list), chosen);
    lemma_listed_unique(page_list(list), map, chosen);
    let r = PageRef::Committed(root);
    let env = published(written(before, page_list(list)), count);
    let other = published(pages_of(contents), count);
    assert forall|p: PageRef| #[trigger] owns(env, r, h, p) implies same_at(env, other, p) by {
        if let PageRef::Committed(x) = p {
            if map.contains_key(x) {
                let k = choose|k: int|
                    0 <= k < page_list(list).len() && (#[trigger] page_list(list)[k]).0 == x;
                assert(page_list(list)[k].0 == list[k].0);
                assert(map[page_list(list)[k].0] == page_list(list)[k].1);
                assert(pages_of(contents).contains_key(list[k].0));
            }
        }
    }
    lemma_tree_kept(env, other, r, h);
    if spreading(env, r, h) {
        lemma_spreading_agrees(env, other, r, h);
    }
}

} // verus!
