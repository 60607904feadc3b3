//! Copying a database into a file of its own, without free pages.
use crate::canonical::{rows_fit, sorted_rows, spacious};
use crate::collect::{collect, pairs_of};
use crate::commit::flushed;
use crate::db::{lemma_stored_in_full, root_of, rows_at, tree_branches, tree_stands, Database};
use crate::error::Result;
use crate::format::{Meta, META_PAGES};
use crate::io::{blamed, pages_of, Storage};
use crate::model::{
    flat, is_tree, lemma_flat_all_index, lemma_height_unique, node_at, published, rows_of, run_ok,
    subtree, tree_rows, Env, Pages, Row,
};
use crate::node::{entry_fits, Node, PageRef};
use crate::open::{
    begun, canonical, founded, founding_calls, founding_image, laid_out, lemma_begun, lemma_chosen,
    lemma_laid_out_kept, opened_from, write_canonical,
};
use crate::reader::{fails_for, near_below, steady, PageReader, MAX_DEPTH};
use crate::recovery::record_at;
use crate::store::{lemma_spoils_same, pages_from};
use crate::txn::{lemma_same_but_cache, same_but_cache};
use vstd::prelude::*;

verus! {

/// The entries of a tree keep to the size limits.
pub proof fn lemma_entry_sized(env: Env, r: PageRef, h: nat, k: int)
    requires
        subtree(env, r, h),
        0 <= k < flat(env, r, h).len(),
    ensures
        entry_fits(flat(env, r, h)[k]),
    decreases h,
{
    reveal(subtree);
    reveal(run_ok);
    if let Some(Node::Internal(links)) = node_at(env, r) {
        let below = (h - 1) as nat;
        let at = lemma_flat_all_index(env, links, below, k);
        crate::graft::lemma_run_child(env, links, below, at.0);
        lemma_entry_sized(env, links[at.0].page, below, at.1);
    }
}

/// The rows of a tree are in order and keep to the size limits.
pub proof fn law_tree_rows(env: Env, r: PageRef, h: nat)
    requires
        is_tree(env, r, h),
    ensures
        rows_fit(rows_of(env, flat(env, r, h))),
        sorted_rows(rows_of(env, flat(env, r, h))),
{
    let entries = flat(env, r, h);
    let rows = rows_of(env, entries);
    assert forall|i: int| 0 <= i < rows.len() implies (#[trigger] rows[i]).0.len()
        <= crate::format::MAX_KEY_SIZE && rows[i].1.len() <= crate::format::MAX_VALUE_SIZE by {
        lemma_entry_sized(env, r, h, i);
        crate::insert::lemma_entry_readable(env, r, h, i);
        assert(entry_fits(entries[i]));
    }
    assert forall|i: int, j: int| 0 <= i < j < rows.len() implies crate::order::lt(
        (#[trigger] rows[i]).0,
        (#[trigger] rows[j]).0,
    ) by {
        assert(crate::order::lt(entries[i].key, entries[j].key));
    }
}

/// Whether the rows of a generation can be read: its tree is well formed, not too deep and
/// holds as many entries as recorded.
pub open spec fn readable(pages: Pages, meta: Meta, h: nat) -> bool {
    &&& h < MAX_DEPTH
    &&& tree_stands(pages, meta, h)
    &&& rows_at(pages, meta, h).len() == meta.item_count
}

/// Whether a generation can be copied: its rows can be read, and the copy has enough page
/// numbers.
pub open spec fn copyable(pages: Pages, meta: Meta, h: nat) -> bool {
    readable(pages, meta, h) && spacious(rows_at(pages, meta, h), META_PAGES)
}

impl<I: Storage> Database<I> {
    /// Reads the rows of the current generation, which a compacted copy is made of.
    pub fn rows(&mut self) -> (result: Result<Vec<(Vec<u8>, Vec<u8>)>>)
        requires
            old(self).inv(),
        ensures
            final(self).inv(),
            same_but_cache(*old(self), *final(self)),
            old(self).failures() <= final(self).failures(),
            final(self).source.cache.queue().len() + 1 < final(self).source.cache.limit() ==> old(
                self,
            ).at_hand().subset_of(final(self).at_hand()),
            result matches Err(error) ==> error is Io ==> blamed(
                error,
                &old(self).source.storage,
                &final(self).source.storage,
            ),
            match result {
                Ok(rows) => {
                    &&& exists|h: nat| #[trigger]
                        readable(old(self).pages(), old(self).meta(), h) && pairs_of(rows@)
                            == rows_at(old(self).pages(), old(self).meta(), h)
                    &&& rows_fit(pairs_of(rows@))
                    &&& sorted_rows(pairs_of(rows@))
                },
                Err(error) => fails_for(
                    error,
                    forall|h: nat| !#[trigger] readable(old(self).pages(), old(self).meta(), h),
                    final(self).failures() > old(self).failures(),
                ),
            },
            forall|h: nat| #[trigger]
                near_below(
                    published(old(self).pages(), old(self).meta().page_count),
                    root_of(old(self).meta()),
                    h,
                    old(self).at_hand(),
                ) ==> steady(true, old(self).at_hand(), final(self).at_hand(), result),
    {
        let meta = self.publication.current.meta;
        let ghost pages = self.pages();
        let ghost env = published(pages, meta.page_count);
        let ghost r = PageRef::Committed(meta.root);
        let ghost hand = self.source.at_hand();
        let collected = collect(&mut self.source, meta.root, meta.page_count, meta.item_count);
        let ghost kept = self.source.at_hand();
        proof {
            lemma_same_but_cache(*old(self), *self);
            lemma_stored_in_full(*old(self), meta.page_count);
            lemma_rows_unique(pages, meta);
            assert(hand == old(self).at_hand() && kept == self.at_hand());
            assert(root_of(meta) == r);
            assert forall|h: nat| #[trigger] near_below(env, root_of(meta), h, hand) implies steady(
                true,
                hand,
                kept,
                collected,
            ) by {
                assert(near_below(env, r, h, hand));
            }
        }
        match collected {
            Ok(rows) => {
                proof {
                    let h = choose|h: nat| h < MAX_DEPTH && #[trigger] is_tree(env, r, h);
                    assert(tree_stands(pages, meta, h));
                    law_tree_rows(env, r, h);
                    assert(readable(pages, meta, h));
                }
                Ok(rows)
            },
            Err(error) => {
                proof {
                    assert forall|h: nat| error is Corrupt implies !#[trigger] readable(
                        pages,
                        meta,
                        h,
                    ) by {
                        if readable(pages, meta, h) {
                            assert(is_tree(env, r, h));
                        }
                    }
                }
                Err(error)
            },
        }
    }

    /// Writes a compacted copy of the current generation to other storage, whose contents are
    /// replaced, and makes it durable.
    pub fn compact_to<J: Storage>(&mut self, target: &mut J) -> (result: Result<()>)
        requires
            old(self).inv(),
        ensures
            final(self).inv(),
            same_but_cache(*old(self), *final(self)),
            old(self).failures() <= final(self).failures(),
            final(self).source.cache.queue().len() + 1 < final(self).source.cache.limit() ==> old(
                self,
            ).at_hand().subset_of(final(self).at_hand()),
            result matches Err(error) ==> error is Io ==> blamed(
                error,
                &old(self).source.storage,
                &final(self).source.storage,
            ) || blamed(error, old(target), final(target)),
            result is Ok ==> exists|h: nat| #[trigger]
                tree_stands(old(self).pages(), old(self).meta(), h) && h < MAX_DEPTH && canonical(
                    final(target).contents(),
                    rows_at(old(self).pages(), old(self).meta(), h),
                ),
            result is Ok ==> flushed(*final(target)),
            result is Ok ==> exists|meta: Meta, h: nat|
                #![trigger founded(
                    final(target).contents(),
                    meta,
                    rows_at(old(self).pages(), old(self).meta(), h),
                )]
                tree_stands(old(self).pages(), old(self).meta(), h) && founded(
                    final(target).contents(),
                    meta,
                    rows_at(old(self).pages(), old(self).meta(), h),
                ) && founding_calls(
                    old(target).calls(),
                    final(target).calls(),
                    final(target).contents(),
                    meta,
                ),
            forall|image: Seq<u8>| #[trigger]
                final(target).survives(image) ==> begun(old(target), image) || exists|h: nat|
                    #[trigger]
                    tree_stands(old(self).pages(), old(self).meta(), h) && founding_image(
                        old(target),
                        image,
                        rows_at(old(self).pages(), old(self).meta(), h),
                    ),
            result is Ok && old(target).contents().len() == 0 ==> record_at(
                final(target).contents(),
                1,
            ) is None,
            result matches Err(error) ==> fails_for(
                error,
                forall|h: nat| !#[trigger] copyable(old(self).pages(), old(self).meta(), h),
                final(self).failures() > old(self).failures() || final(target).failures() > old(
                    target,
                ).failures(),
            ),
            old(target).failures() <= final(target).failures(),
    {
        let ghost meta = self.meta();
        let ghost pages = self.pages();
        proof {
            lemma_spoils_same(old(target), target, pages_from(META_PAGES), META_PAGES);
            lemma_begun(old(target), target, Seq::empty());
            lemma_rows_unique(pages, meta);
        }
        let rows = match self.rows() {
            Ok(rows) => rows,
            Err(error) => {
                return Err(error);
            },
        };
        let ghost h = choose|h: nat| #[trigger]
            readable(pages, meta, h) && pairs_of(rows@) == rows_at(pages, meta, h);
        let result = write_canonical(target, &rows);
        proof {
            assert(tree_stands(pages, meta, h));
            assert forall|other: nat| !spacious(pairs_of(rows@), META_PAGES) implies !#[trigger] copyable(
                pages,
                meta,
                other,
            ) by {
                if copyable(pages, meta, other) {
                    assert(tree_stands(pages, meta, other));
                }
            }
        }
        result
    }
}

/// All heights of a tree give the same rows.
proof fn lemma_rows_unique(pages: Pages, meta: Meta)
    ensures
        forall|h: nat| #[trigger]
            tree_stands(pages, meta, h) ==> tree_rows(
                published(pages, meta.page_count),
                PageRef::Committed(meta.root),
            ) == Some(rows_at(pages, meta, h)),
{
    let env = published(pages, meta.page_count);
    let r = PageRef::Committed(meta.root);
    assert forall|h: nat| #[trigger] tree_stands(pages, meta, h) implies tree_rows(env, r) == Some(
        rows_at(pages, meta, h),
    ) by {
        let chosen = choose|chosen: nat| is_tree(env, r, chosen);
        assert(is_tree(env, r, h));
        lemma_height_unique(env, r, h, chosen);
    }
}

/// Opening a compacted copy gives back the same rows, in a database that leaks no page and
/// whose tree spreads, so that it is below the depth limit and stays there.
pub proof fn law_copy_opens<I: Storage>(db: Database<I>, contents: Seq<u8>, rows: Seq<Row>)
    requires
        canonical(contents, rows),
        record_at(contents, 1) is None,
        db.inv(),
        opened_from(db, contents),
    ensures
        exists|h: nat| #[trigger]
            db.whole(h) && db.sealed(h) && rows_at(db.pages(), db.meta(), h) == rows
                && tree_branches(db.pages(), db.meta(), h) && (rows.len() <= 0x8000_0000_0000_0000
                ==> h < MAX_DEPTH),
{
    let pages = pages_of(contents);
    let meta = choose|meta: Meta| #[trigger] founded(contents, meta, rows);
    let h = choose|h: nat| #[trigger] laid_out(pages, meta, rows, h);
    lemma_chosen(pages, db.publication);
    assert(db.meta() == meta) by {
        if db.publication.current.slot != 0 {
            assert(db.publication.current.slot == 1);
            reveal(record_at);
        }
    }
    lemma_laid_out_kept(
        contents,
        db.source.storage.contents(),
        pages_from(meta.page_count),
        meta,
        rows,
        h,
    );
    db.lemma_founded(rows, h);
}

} // verus!
