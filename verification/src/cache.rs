//! The page cache: frames that readers share, loads that wait for each other, and
//! eviction.
//!
//! A page that is being loaded has an entry that other readers of the page wait on. A
//! loaded page is indexed if there is room; a page that finds no room is handed to the
//! readers that wait for it and then forgotten. Room is made by walking the queue of
//! indexed pages from the front: a page that was visited since the walk last met it, or
//! that a reader still holds, goes to the back, any other page is evicted.
use crate::error::{corrupt, outside_snapshot, Error, Result};
use crate::format::{in_snapshot, page_ok, validate_page, META_PAGES, PAGE_SIZE};
use crate::io::{pages_of, quiet, read_page, Storage};
use crate::model::{readable, Pages};
use crate::reader::{fails_for, honest, incomplete, Frame, Origin, PageReader};
use std::collections::{HashMap, VecDeque};
use std::sync::Arc;
use vstd::prelude::*;
use vstd::std_specs::iter::IteratorSpec;

verus! {

/// What the cache knows of a page.
pub enum Entry {
    /// One reader loads the page and the others wait.
    Loading {
        /// Tells this load from earlier loads of the page.
        token: u64,
        /// Number of readers that wait.
        waiters: usize,
    },
    /// The page is indexed.
    Ready {
        /// The page.
        frame: Arc<Frame>,
        /// Whether the page was read since the eviction walk last met it.
        visited: bool,
    },
    /// The page found no room and is kept for the readers that wait for it.
    Handoff {
        /// The page.
        frame: Arc<Frame>,
        /// Number of readers that have not taken the page yet.
        waiters: usize,
    },
}

/// How often the cache was asked, loaded and evicted pages.
#[derive(Clone, Copy)]
pub struct Metrics {
    pub hits: u64,
    pub misses: u64,
    pub loads: u64,
    pub evictions: u64,
}

/// What a reader has to do next.
pub enum Step {
    /// Take the page.
    Hit(Arc<Frame>),
    /// Wait until the cache changes, and ask again.
    Wait,
    /// Load the page, and report the outcome with the token.
    Load(u64),
}

/// The page cache.
pub struct Cache {
    capacity: usize,
    entries: HashMap<u64, Entry>,
    queue: VecDeque<u64>,
    next_load: u64,
    metrics: Metrics,
}

/// Calls `std::sync::Arc::strong_count`. The number depends on who else holds the page:
/// nothing is claimed of it.
#[verifier::external_body]
pub(crate) fn holders(frame: &Arc<Frame>) -> usize {
    Arc::strong_count(frame)
}

/// A second reference to a page.
fn share(frame: &Arc<Frame>) -> (shared: Arc<Frame>)
    ensures
        shared == *frame,
{
    Arc::clone(frame)
}

/// The page that an entry holds, if it is loaded.
pub open spec fn frame_of(entry: Entry) -> Option<Arc<Frame>> {
    match entry {
        Entry::Loading { .. } => None,
        Entry::Ready { frame, .. } => Some(frame),
        Entry::Handoff { frame, .. } => Some(frame),
    }
}

/// Whether a change of the entries by an eviction walk may lead from `before` to `after`:
/// indexed pages lose their mark or are evicted, and nothing else changes.
pub open spec fn walked(before: Map<u64, Entry>, after: Map<u64, Entry>) -> bool {
    &&& forall|id: u64| #[trigger] after.contains_key(id) ==> before.contains_key(id)
    &&& forall|id: u64| #[trigger]
        before.contains_key(id) && !(before[id] is Ready) ==> after.contains_key(id) && after[id]
            == before[id]
    &&& forall|id: u64| #[trigger]
        after.contains_key(id) && before[id] is Ready ==> after[id] is Ready && frame_of(after[id])
            == frame_of(before[id])
}

/// What an eviction walk sees and changes.
pub ghost struct Shelf {
    /// The indexed pages in the order in which the walk meets them.
    pub queue: Seq<u64>,
    /// What is known of each page.
    pub entries: Map<u64, Entry>,
    /// How many pages were evicted.
    pub evictions: u64,
}

/// What is left once the walk has met the page at the front: a page that is held or was
/// visited goes to the back, the latter without its mark, and any other page is evicted.
pub open spec fn met(shelf: Shelf, held: bool) -> Shelf {
    let id = shelf.queue[0];
    let rest = shelf.queue.skip(1);
    match shelf.entries[id] {
        Entry::Ready { frame, visited } => if held || visited {
            Shelf {
                queue: rest.push(id),
                entries: shelf.entries.insert(
                    id,
                    Entry::Ready { frame, visited: held && visited },
                ),
                evictions: shelf.evictions,
            }
        } else {
            Shelf {
                queue: rest,
                entries: shelf.entries.remove(id),
                evictions: shelf.evictions.wrapping_add(1),
            }
        },
        _ => Shelf { queue: rest, ..shelf },
    }
}

/// What is left once the walk has met as many pages as there are answers to whether the
/// page at the front is held.
pub open spec fn met_all(shelf: Shelf, held: Seq<bool>) -> Shelf
    decreases held.len(),
{
    if held.len() == 0 {
        shelf
    } else {
        met(met_all(shelf, held.drop_last()), held.last())
    }
}

/// Whether an answer says that the page at the front is held: more references to it were
/// counted than the cache has.
pub closed spec fn answered(shelf: Shelf, held: bool) -> bool {
    match shelf.entries[shelf.queue[0]] {
        Entry::Ready { frame, visited: _ } => exists|count: usize| #[trigger]
            call_ensures(holders, (&frame,), count) && held == (count > 1),
        _ => !held,
    }
}

/// Whether a walk with these answers leads from `before` to `after`: it goes on until fewer
/// pages than the limit are indexed, at most twice around.
pub open spec fn roams(before: Shelf, after: Shelf, held: Seq<bool>, limit: int) -> bool {
    &&& after == met_all(before, held)
    &&& held.len() <= 2 * before.queue.len()
    &&& after.queue.len() < limit || held.len() == 2 * before.queue.len()
    &&& forall|k: int|
        0 <= k < held.len() ==> (#[trigger] met_all(before, held.take(k))).queue.len() >= limit
            && answered(met_all(before, held.take(k)), held[k])
}

/// Whether a walk may lead from `before` to `after`. Which pages are held decides.
pub open spec fn made_room(before: Shelf, after: Shelf, limit: int) -> bool {
    exists|held: Seq<bool>| #[trigger] roams(before, after, held, limit)
}

/// What is left once a loaded page was indexed, if there is room, or kept for the readers
/// that wait for it.
pub open spec fn shelved_in(
    room: Shelf,
    page_id: u64,
    frame: Arc<Frame>,
    waiters: usize,
    limit: int,
) -> Shelf {
    if room.queue.len() < limit {
        Shelf {
            queue: room.queue.push(page_id),
            entries: room.entries.insert(page_id, Entry::Ready { frame, visited: true }),
            ..room
        }
    } else if waiters == 0 {
        Shelf { entries: room.entries.remove(page_id), ..room }
    } else {
        Shelf { entries: room.entries.insert(page_id, Entry::Handoff { frame, waiters }), ..room }
    }
}

/// Whether the queue lists indexed pages only, each once.
pub open spec fn shelved(shelf: Shelf) -> bool {
    &&& shelf.queue.no_duplicates()
    &&& forall|i: int|
        0 <= i < shelf.queue.len() ==> shelf.entries.contains_key(#[trigger] shelf.queue[i])
            && shelf.entries[shelf.queue[i]] is Ready
}

/// While no page is held and none was evicted, the walk turns the queue and takes the marks
/// off the pages that it has met.
proof fn lemma_turned(before: Shelf, held: Seq<bool>, limit: int, k: int)
    requires
        shelved(before),
        before.queue.len() <= limit,
        0 <= k <= held.len(),
        k <= before.queue.len(),
        forall|i: int| 0 <= i < held.len() ==> !#[trigger] held[i],
        forall|j: int|
            0 <= j <= k ==> (#[trigger] met_all(before, held.take(j))).queue.len() >= limit,
    ensures
        ({
            let now = met_all(before, held.take(k));
            &&& now.queue == before.queue.skip(k) + before.queue.take(k)
            &&& forall|i: int|
                0 <= i < before.queue.len() ==> now.entries[#[trigger] before.queue[i]] is Ready
            &&& forall|i: int|
                0 <= i < k ==> !now.entries[#[trigger] before.queue[i]]->Ready_visited
        }),
    decreases k,
{
    let now = met_all(before, held.take(k));
    if k == 0 {
        assert(held.take(0) =~= Seq::<bool>::empty());
        assert(now.queue =~= before.queue.skip(0) + before.queue.take(0));
    } else {
        lemma_turned(before, held, limit, k - 1);
        let last = met_all(before, held.take(k - 1));
        assert(held.take(k).drop_last() =~= held.take(k - 1));
        assert(held.take(k).last() == held[k - 1]);
        assert(now == met(last, false));
        let id = last.queue[0];
        assert(id == before.queue[k - 1]);
        assert(last.entries[before.queue[k - 1]] is Ready);
        assert(now.queue =~= before.queue.skip(k) + before.queue.take(k));
        assert forall|i: int| 0 <= i < before.queue.len() && i != k - 1 implies now.entries[
            #[trigger] before.queue[i]] == last.entries[before.queue[i]] by {
            assert(before.queue[i] != id);
        }
    }
}

/// An eviction walk does not see a page that is being loaded.
proof fn lemma_met_apart(
    before: Shelf,
    waiting: Shelf,
    held: Seq<bool>,
    page_id: u64,
    k: int,
)
    requires
        !before.queue.contains(page_id),
        !before.entries.contains_key(page_id),
        waiting.queue == before.queue,
        waiting.evictions == before.evictions,
        waiting.entries.remove(page_id) == before.entries,
        0 <= k <= held.len(),
        forall|j: int|
            0 <= j < k ==> (#[trigger] met_all(waiting, held.take(j))).queue.len() > 0,
    ensures
        ({
            let a = met_all(before, held.take(k));
            let b = met_all(waiting, held.take(k));
            &&& b.queue == a.queue
            &&& b.evictions == a.evictions
            &&& b.entries.remove(page_id) == a.entries
            &&& !a.queue.contains(page_id)
        }),
    decreases k,
{
    if k == 0 {
        assert(held.take(0) =~= Seq::<bool>::empty());
    } else {
        lemma_met_apart(before, waiting, held, page_id, k - 1);
        let a = met_all(before, held.take(k - 1));
        let b = met_all(waiting, held.take(k - 1));
        assert(held.take(k).drop_last() =~= held.take(k - 1));
        assert(held.take(k).last() == held[k - 1]);
        let next_a = met_all(before, held.take(k));
        let next_b = met_all(waiting, held.take(k));
        assert(next_a == met(a, held[k - 1]));
        assert(next_b == met(b, held[k - 1]));
        let id = a.queue[0];
        assert(a.queue.contains(id));
        assert(b.entries.remove(page_id)[id] == b.entries[id]) by {
            assert(id != page_id);
        }
        assert(a.entries[id] == b.entries[id]);
        assert(next_b.entries.remove(page_id) =~= next_a.entries);
        if next_a.queue.contains(page_id) {
            let i = choose|i: int| 0 <= i < next_a.queue.len() && next_a.queue[i] == page_id;
            if i + 1 < a.queue.len() {
                assert(a.queue[i + 1] == page_id);
            }
        }
    }
}

/// Room that was made while a page was being loaded is room that could have been made
/// before.
proof fn lemma_made_room_apart(
    before: Shelf,
    waiting: Shelf,
    room: Shelf,
    page_id: u64,
    limit: int,
)
    requires
        !before.queue.contains(page_id),
        !before.entries.contains_key(page_id),
        waiting.queue == before.queue,
        waiting.evictions == before.evictions,
        waiting.entries.remove(page_id) == before.entries,
        made_room(waiting, room, limit),
        0 < limit,
    ensures
        made_room(before, (Shelf { entries: room.entries.remove(page_id), ..room }), limit),
{
    let held = choose|held: Seq<bool>| #[trigger] roams(waiting, room, held, limit);
    let apart = Shelf { entries: room.entries.remove(page_id), ..room };
    assert(held.take(held.len() as int) =~= held);
    lemma_met_apart(before, waiting, held, page_id, held.len() as int);
    assert forall|k: int| 0 <= k < held.len() implies (#[trigger] met_all(
        before,
        held.take(k),
    )).queue.len() >= limit && answered(met_all(before, held.take(k)), held[k]) by {
        lemma_met_apart(before, waiting, held, page_id, k);
        let a = met_all(before, held.take(k));
        let b = met_all(waiting, held.take(k));
        assert(b.queue.len() >= limit);
        assert(a.queue.contains(a.queue[0]));
        assert(b.entries.remove(page_id)[a.queue[0]] == b.entries[a.queue[0]]);
    }
    assert(roams(before, apart, held, limit));
}

/// Where no page is held, an eviction walk makes room.
pub proof fn law_unheld_pages_make_room(before: Shelf, after: Shelf, held: Seq<bool>, limit: int)
    requires
        shelved(before),
        0 < limit,
        before.queue.len() <= limit,
        roams(before, after, held, limit),
        forall|i: int| 0 <= i < held.len() ==> !#[trigger] held[i],
    ensures
        after.queue.len() < limit,
{
    let n = before.queue.len() as int;
    if after.queue.len() >= limit {
        assert(held.take(held.len() as int) =~= held);
        assert forall|j: int| 0 <= j <= held.len() implies (#[trigger] met_all(
            before,
            held.take(j),
        )).queue.len() >= limit by {}
        assert(n > 0) by {
            if n == 0 {
                assert(held =~= Seq::<bool>::empty());
            }
        }
        lemma_turned(before, held, limit, n);
        let turned = met_all(before, held.take(n));
        assert(turned.queue =~= before.queue);
        assert(held.take(n + 1).drop_last() =~= held.take(n));
        assert(held.take(n + 1).last() == held[n]);
        let next = met_all(before, held.take(n + 1));
        assert(next == met(turned, false));
        assert(!turned.entries[before.queue[0]]->Ready_visited);
        assert(next.queue.len() == n - 1);
    }
}

/// A page that an eviction walk meets stays, at the back, if it is held or was visited since
/// the walk last met it, and is evicted otherwise. A page that stays keeps its mark only if it
/// is held, and no other page is touched.
pub proof fn law_visited_pages_stay(shelf: Shelf, held: bool)
    requires
        shelf.queue.len() > 0,
        shelf.entries.contains_key(shelf.queue[0]),
        shelf.entries[shelf.queue[0]] is Ready,
    ensures
        ({
            let id = shelf.queue[0];
            let page = shelf.entries[id];
            let after = met(shelf, held);
            &&& after.entries.contains_key(id) <==> held || page->Ready_visited
            &&& if held || page->Ready_visited {
                &&& after.queue == shelf.queue.skip(1).push(id)
                &&& after.evictions == shelf.evictions
                &&& frame_of(after.entries[id]) == frame_of(page)
                &&& after.entries[id] is Ready
                &&& after.entries[id]->Ready_visited <==> held && page->Ready_visited
            } else {
                &&& after.queue == shelf.queue.skip(1)
                &&& after.evictions == shelf.evictions.wrapping_add(1)
            }
            &&& forall|other: u64|
                other != id ==> (#[trigger] after.entries.contains_key(other)
                    == shelf.entries.contains_key(other)) && after.entries[other]
                    == shelf.entries[other]
        }),
{
}

/// In an eviction walk a page counts as held exactly where more references to it were counted
/// than the cache has.
pub(crate) proof fn law_holders_decide(before: Shelf, after: Shelf, held: Seq<bool>, limit: int, k: int)
    requires
        roams(before, after, held, limit),
        0 <= k < held.len(),
    ensures
        ({
            let shelf = met_all(before, held.take(k));
            shelf.entries[shelf.queue[0]] matches Entry::Ready { frame, visited } ==> exists|
                count: usize,
            | #[trigger]
                call_ensures(holders, (&frame,), count) && held[k] == (count > 1)
        }),
{
    assert(answered(met_all(before, held.take(k)), held[k]));
}

/// No page is evicted while there is room, and no more pages are than need be: an eviction walk
/// over a cache that is not overfull evicts at most one page.
pub proof fn law_evictions_are_needed(before: Shelf, after: Shelf, limit: int)
    requires
        made_room(before, after, limit),
        0 < limit,
        before.queue.len() <= limit,
    ensures
        before.queue.len() < limit ==> after == before,
        before.queue.len() == limit ==> limit - 1 <= after.queue.len() <= limit,
{
    let held = choose|held: Seq<bool>| #[trigger] roams(before, after, held, limit);
    assert(held.take(0) =~= Seq::<bool>::empty());
    if held.len() > 0 {
        assert(met_all(before, held.take(0)).queue.len() >= limit);
        lemma_met_length(before, held, held.len() as int, limit);
        assert(held.take(held.len() as int) =~= held);
    } else {
        assert(held =~= Seq::<bool>::empty());
    }
}

/// How many pages are indexed in the course of an eviction walk.
proof fn lemma_met_length(before: Shelf, held: Seq<bool>, k: int, limit: int)
    requires
        0 <= k <= held.len(),
        0 < limit,
        before.queue.len() <= limit,
        forall|j: int|
            0 <= j < held.len() ==> (#[trigger] met_all(before, held.take(j))).queue.len() >= limit,
        before.queue.len() >= limit,
    ensures
        met_all(before, held.take(k)).queue.len() <= limit,
        met_all(before, held.take(k)).queue.len() >= limit - 1,
    decreases k,
{
    if k == 0 {
        assert(held.take(0) =~= Seq::<bool>::empty());
    } else {
        lemma_met_length(before, held, k - 1, limit);
        assert(held.take(k).drop_last() =~= held.take(k - 1));
        assert(met_all(before, held.take(k - 1)).queue.len() >= limit);
    }
}

/// A page that was loaded is indexed behind all others, with a mark, if there is room, and it
/// displaces no other page.
pub proof fn law_loaded_pages_come_last(
    room: Shelf,
    page_id: u64,
    frame: Arc<Frame>,
    waiters: usize,
    limit: int,
)
    ensures
        ({
            let after = shelved_in(room, page_id, frame, waiters, limit);
            &&& room.queue.len() < limit ==> after.queue == room.queue.push(page_id)
                && after.entries == room.entries.insert(
                page_id,
                Entry::Ready { frame, visited: true },
            )
            &&& room.queue.len() >= limit ==> after.queue == room.queue
            &&& after.evictions == room.evictions
            &&& forall|other: u64|
                other != page_id ==> (#[trigger] after.entries.contains_key(other)
                    == room.entries.contains_key(other)) && after.entries[other]
                    == room.entries[other]
        }),
{
}

impl Cache {
    /// What an eviction walk sees.
    pub open spec fn shelf(&self) -> Shelf {
        Shelf {
            queue: self.queue(),
            entries: self.entries(),
            evictions: self.counts().evictions,
        }
    }

    /// What the cache knows of each page.
    pub closed spec fn entries(&self) -> Map<u64, Entry> {
        self.entries@
    }

    /// The indexed pages in the order in which the eviction walk meets them.
    pub closed spec fn queue(&self) -> Seq<u64> {
        self.queue@
    }

    /// Number of pages that the cache indexes at most.
    pub closed spec fn limit(&self) -> int {
        self.capacity as int
    }

    /// The token of the latest load.
    pub closed spec fn latest(&self) -> u64 {
        self.next_load
    }

    /// How often the cache was asked, loaded and evicted pages.
    pub closed spec fn counts(&self) -> Metrics {
        self.metrics
    }

    /// The queue lists exactly the indexed pages, each once, and they are no more than the
    /// limit; a page is kept for hand-off only while readers wait for it.
    pub open spec fn inv(&self) -> bool {
        &&& 2 <= self.limit()
        &&& self.limit() * PAGE_SIZE <= usize::MAX
        &&& self.queue().no_duplicates()
        &&& self.queue().len() <= self.limit()
        &&& forall|id: u64| #[trigger]
            self.queue().contains(id) == (self.entries().contains_key(id) && self.entries()[id] is Ready)
        &&& forall|id: u64| #[trigger]
            self.entries().contains_key(id) ==> (self.entries()[id] matches Entry::Handoff {
                waiters,
                ..
            } ==> waiters > 0)
    }

    /// Whether no load is pending and no page is kept for hand-off.
    pub open spec fn idle(&self) -> bool {
        forall|id: u64| #[trigger] self.entries().contains_key(id) ==> self.entries()[id] is Ready
    }

    /// Whether every page in the cache is the stored one and has the right checksum.
    pub open spec fn coherent(&self, pages: Pages) -> bool {
        forall|id: u64| #[trigger]
            self.entries().contains_key(id) ==> (frame_of(self.entries()[id]) matches Some(frame)
                ==> pages.contains_key(id) && pages[id] == frame.bytes@ && page_ok(pages[id]))
    }

    /// An empty cache for the given number of bytes, but at least two pages.
    pub fn new(capacity_bytes: usize) -> (cache: Self)
        ensures
            cache.inv(),
            cache.entries() == Map::<u64, Entry>::empty(),
            cache.limit() == if capacity_bytes as int / PAGE_SIZE as int >= 2 {
                capacity_bytes as int / PAGE_SIZE as int
            } else {
                2
            },
            cache.counts() == (Metrics { hits: 0, misses: 0, loads: 0, evictions: 0 }),
    {
        broadcast use vstd::std_specs::hash::group_hash_axioms;

        let mut capacity = capacity_bytes / PAGE_SIZE;
        if capacity < 2 {
            capacity = 2;
        }
        Cache {
            capacity,
            entries: HashMap::new(),
            queue: VecDeque::new(),
            next_load: 0,
            metrics: Metrics { hits: 0, misses: 0, loads: 0, evictions: 0 },
        }
    }

    /// Asks for a page. `classified` tells that the request was already counted as a hit or
    /// a miss, and `waiting` that it was already told to wait.
    pub fn begin(
        &mut self,
        page_id: u64,
        page_count: u64,
        classified: bool,
        waiting: bool,
    ) -> (result: Result<Step>)
        requires
            old(self).inv(),
            old(self).entries().contains_key(page_id) ==> (
            old(self).entries()[page_id] matches Entry::Loading { waiters, .. } ==> waiters
                < usize::MAX),
        ensures
            final(self).inv(),
            final(self).limit() == old(self).limit(),
            final(self).queue() == old(self).queue(),
            ({
                let before = old(self).entries();
                let after = final(self).entries();
                let counts = old(self).counts();
                let missed = if classified {
                    counts
                } else {
                    Metrics { misses: counts.misses.wrapping_add(1), ..counts }
                };
                let hit = Metrics { hits: counts.hits.wrapping_add(1), ..counts };
                match result {
                    Err(error) => {
                        &&& error is Corrupt
                        &&& !in_snapshot(page_id, page_count)
                        &&& *final(self) == *old(self)
                    },
                    Ok(step) => in_snapshot(page_id, page_count) && if !before.contains_key(
                        page_id,
                    ) {
                        let token = old(self).latest().wrapping_add(1);
                        &&& step == Step::Load(token)
                        &&& final(self).latest() == token
                        &&& after == before.insert(page_id, Entry::Loading { token, waiters: 0 })
                        &&& final(self).counts() == missed
                    } else {
                        &&& final(self).latest() == old(self).latest()
                        &&& match before[page_id] {
                            Entry::Ready { frame, .. } => {
                                &&& step == Step::Hit(frame)
                                &&& after == before.insert(
                                    page_id,
                                    Entry::Ready { frame, visited: true },
                                )
                                &&& final(self).counts() == if classified {
                                    counts
                                } else {
                                    hit
                                }
                            },
                            Entry::Loading { token, waiters } => {
                                &&& step == Step::Wait
                                &&& after == if waiting {
                                    before
                                } else {
                                    before.insert(
                                        page_id,
                                        Entry::Loading { token, waiters: (waiters + 1) as usize },
                                    )
                                }
                                &&& final(self).counts() == missed
                            },
                            Entry::Handoff { frame, waiters } => {
                                &&& step == Step::Hit(frame)
                                &&& after == if !waiting {
                                    before
                                } else if waiters == 1 {
                                    before.remove(page_id)
                                } else {
                                    before.insert(
                                        page_id,
                                        Entry::Handoff { frame, waiters: (waiters - 1) as usize },
                                    )
                                }
                                &&& final(self).counts() == if waiting {
                                    counts
                                } else {
                                    hit
                                }
                            },
                        }
                    },
                }
            }),
    {
        broadcast use vstd::std_specs::hash::group_hash_axioms;

        if page_id < META_PAGES || page_id >= page_count {
            return Err(outside_snapshot(page_id));
        }
        let ghost before = self.entries@;
        match self.entries.remove(&page_id) {
            Some(Entry::Ready { frame, visited: _ }) => {
                if !classified {
                    self.metrics.hits = self.metrics.hits.wrapping_add(1);
                }
                let shared = share(&frame);
                self.entries.insert(page_id, Entry::Ready { frame, visited: true });
                proof {
                    assert(self.entries@ =~= before.insert(
                        page_id,
                        Entry::Ready { frame, visited: true },
                    ));
                    assert(forall|id: u64| #[trigger]
                        self.queue().contains(id) == old(self).queue().contains(id));
                }
                Ok(Step::Hit(shared))
            },
            Some(Entry::Loading { token, waiters }) => {
                if !classified {
                    self.metrics.misses = self.metrics.misses.wrapping_add(1);
                }
                let now = if waiting {
                    waiters
                } else {
                    waiters + 1
                };
                self.entries.insert(page_id, Entry::Loading { token, waiters: now });
                assert(waiting ==> self.entries@ =~= before);
                assert(!waiting ==> self.entries@ =~= before.insert(
                    page_id,
                    Entry::Loading { token, waiters: now },
                ));
                Ok(Step::Wait)
            },
            Some(Entry::Handoff { frame, waiters }) => {
                let shared = share(&frame);
                if !waiting {
                    self.metrics.hits = self.metrics.hits.wrapping_add(1);
                    self.entries.insert(page_id, Entry::Handoff { frame, waiters });
                    assert(self.entries@ =~= before);
                } else if waiters > 1 {
                    self.entries.insert(page_id, Entry::Handoff { frame, waiters: waiters - 1 });
                    assert(self.entries@ =~= before.insert(
                        page_id,
                        Entry::Handoff { frame, waiters: (waiters - 1) as usize },
                    ));
                }
                Ok(Step::Hit(shared))
            },
            None => {
                if !classified {
                    self.metrics.misses = self.metrics.misses.wrapping_add(1);
                }
                self.next_load = self.next_load.wrapping_add(1);
                let token = self.next_load;
                assert(self.entries@ =~= before);
                self.entries.insert(page_id, Entry::Loading { token, waiters: 0 });
                Ok(Step::Load(token))
            },
        }
    }

    /// Meets the page at the front of the queue, given whether a reader holds it.
    pub fn meet(&mut self, held: bool)
        requires
            old(self).inv(),
            old(self).queue().len() > 0,
        ensures
            final(self).inv(),
            final(self).limit() == old(self).limit(),
            final(self).latest() == old(self).latest(),
            final(self).shelf() == met(old(self).shelf(), held),
            walked(old(self).entries(), final(self).entries()),
            final(self).counts().hits == old(self).counts().hits,
            final(self).counts().misses == old(self).counts().misses,
            final(self).counts().loads == old(self).counts().loads,
    {
        broadcast use vstd::std_specs::hash::group_hash_axioms;

        let ghost queue = self.queue@;
        let ghost entries = self.entries@;
        if let Some(page_id) = self.queue.pop_front() {
            proof {
                assert(queue[0] == page_id);
                assert(queue.contains(page_id));
                assert(self.queue@ =~= queue.skip(1));
                assert forall|id: u64| #[trigger] self.queue@.contains(id) == (queue.contains(id)
                    && id != page_id) by {
                    if self.queue@.contains(id) {
                        let i = choose|i: int| 0 <= i < self.queue@.len() && self.queue@[i] == id;
                        assert(queue[i + 1] == id);
                    }
                    if queue.contains(id) && id != page_id {
                        let i = choose|i: int| 0 <= i < queue.len() && queue[i] == id;
                        assert(self.queue@[i - 1] == id);
                    }
                }
                assert(self.queue@.no_duplicates()) by {
                    assert forall|i: int, j: int| 0 <= i < j < self.queue@.len() implies
                        self.queue@[i] != self.queue@[j] by {
                        assert(queue[i + 1] != queue[j + 1]);
                    }
                }
            }
            if let Some(Entry::Ready { frame, visited }) = self.entries.remove(&page_id) {
                if held || visited {
                    let ghost rest = self.queue@;
                    self.queue.push_back(page_id);
                    self.entries.insert(page_id, Entry::Ready { frame, visited: held && visited });
                    proof {
                        assert forall|id: u64| #[trigger] self.queue@.contains(id)
                            == queue.contains(id) by {
                            if rest.contains(id) {
                                let i = choose|i: int| 0 <= i < rest.len() && rest[i] == id;
                                assert(self.queue@[i] == id);
                            }
                            if id == page_id {
                                assert(self.queue@[rest.len() as int] == id);
                            }
                            if self.queue@.contains(id) {
                                let i = choose|i: int|
                                    0 <= i < self.queue@.len() && self.queue@[i] == id;
                                if i < rest.len() {
                                    assert(rest[i] == id);
                                }
                            }
                        }
                        assert(self.queue@.no_duplicates()) by {
                            assert forall|i: int, j: int| 0 <= i < j < self.queue@.len() implies
                                self.queue@[i] != self.queue@[j] by {
                                if j == rest.len() {
                                    assert(rest.contains(rest[i]));
                                }
                            }
                        }
                        assert(self.entries@ =~= entries.insert(
                            page_id,
                            Entry::Ready { frame, visited: held && visited },
                        ));
                    }
                } else {
                    self.metrics.evictions = self.metrics.evictions.wrapping_add(1);
                }
            }
        }
    }

    /// Walks the queue until a page fewer than the limit is indexed, at most twice around.
    /// Which pages are held decides which of them are evicted.
    fn make_room(&mut self)
        requires
            old(self).inv(),
        ensures
            final(self).inv(),
            final(self).limit() == old(self).limit(),
            final(self).latest() == old(self).latest(),
            made_room(old(self).shelf(), final(self).shelf(), old(self).limit()),
            walked(old(self).entries(), final(self).entries()),
            old(self).queue().len() < old(self).limit() ==> *final(self) == *old(self),
            final(self).counts().hits == old(self).counts().hits,
            final(self).counts().misses == old(self).counts().misses,
            final(self).counts().loads == old(self).counts().loads,
    {
        let ghost start = self.shelf();
        let ghost mut held: Seq<bool> = Seq::empty();
        assert(self.queue@.len() == self.queue.len());
        let mut attempts = self.queue.len() * 2;
        while self.queue.len() >= self.capacity && attempts > 0
            invariant
                self.inv(),
                self.limit() == old(self).limit(),
                self.latest() == old(self).latest(),
                start == old(self).shelf(),
                self.shelf() == met_all(start, held),
                held.len() + attempts == 2 * start.queue.len(),
                forall|k: int|
                    0 <= k < held.len() ==> (#[trigger] met_all(start, held.take(k))).queue.len()
                        >= self.limit() && answered(met_all(start, held.take(k)), held[k]),
                walked(start.entries, self.entries()),
                old(self).queue().len() < old(self).limit() ==> *self == *old(self),
                self.counts().hits == old(self).counts().hits,
                self.counts().misses == old(self).counts().misses,
                self.counts().loads == old(self).counts().loads,
            decreases attempts,
        {
            broadcast use vstd::std_specs::hash::group_hash_axioms;

            attempts = attempts - 1;
            assert(self.queue@.len() == self.queue.len());
            assert(self.queue().contains(self.queue()[0]));
            let answer = match self.entries.get(&self.queue[0]) {
                Some(Entry::Ready { frame, visited: _ }) => {
                    let count = holders(frame);
                    assert(call_ensures(holders, (frame,), count));
                    assert(frame_of(self.entries()[self.queue()[0]]) == Some(*frame));
                    count > 1
                },
                _ => false,
            };
            let ghost earlier = held;
            let ghost seen = self.entries();
            assert(answered(self.shelf(), answer));
            self.meet(answer);
            proof {
                held = earlier.push(answer);
                assert(held.drop_last() =~= earlier);
                assert forall|k: int| 0 <= k < held.len() implies (#[trigger] met_all(
                    start,
                    held.take(k),
                )).queue.len() >= self.limit() && answered(
                    met_all(start, held.take(k)),
                    held[k],
                ) by {
                    if k < earlier.len() {
                        assert(held.take(k) =~= earlier.take(k));
                    } else {
                        assert(held.take(k) =~= earlier);
                    }
                }
                lemma_walked(start.entries, seen, self.entries());
            }
        }
        assert(self.queue@.len() == self.queue.len());
        assert(roams(start, self.shelf(), held, self.limit()));
    }
}

/// One change by an eviction walk after another.
proof fn lemma_walked(a: Map<u64, Entry>, b: Map<u64, Entry>, c: Map<u64, Entry>)
    requires
        walked(a, b),
        walked(b, c),
    ensures
        walked(a, c),
{
    assert forall|id: u64| #[trigger] a.contains_key(id) && !(a[id] is Ready) implies c.contains_key(
        id,
    ) && c[id] == a[id] by {
        assert(b.contains_key(id) && b[id] == a[id]);
    }
    assert forall|id: u64| #[trigger] c.contains_key(id) && a[id] is Ready implies c[id] is Ready
        && frame_of(c[id]) == frame_of(a[id]) by {
        assert(b.contains_key(id));
    }
}

/// The pages of a queue that have an entry, in their order.
pub open spec fn known_in(queue: Seq<u64>, entries: Map<u64, Entry>) -> Seq<u64>
    decreases queue.len(),
{
    if queue.len() == 0 {
        Seq::empty()
    } else {
        let rest = known_in(queue.drop_last(), entries);
        if entries.contains_key(queue.last()) {
            rest.push(queue.last())
        } else {
            rest
        }
    }
}

impl Cache {
    /// Reports the outcome of a load. The page is indexed if there is room after an
    /// eviction walk, and otherwise kept for the readers that wait for it; a failed load is
    /// forgotten. A load that was replaced meanwhile changes nothing.
    pub fn complete(&mut self, page_id: u64, token: u64, loaded: Result<Arc<Frame>>) -> (result:
        Result<Arc<Frame>>)
        requires
            old(self).inv(),
        ensures
            final(self).inv(),
            final(self).limit() == old(self).limit(),
            final(self).latest() == old(self).latest(),
            final(self).counts().hits == old(self).counts().hits,
            final(self).counts().misses == old(self).counts().misses,
            ({
                let before = old(self).entries();
                let after = final(self).entries();
                let pending = before.contains_key(page_id) && (
                before[page_id] matches Entry::Loading { token: current, .. } && current == token);
                if !pending {
                    &&& result matches Err(error) && error is Corrupt
                    &&& *final(self) == *old(self)
                } else {
                    match loaded {
                        Err(error) => {
                            &&& result == Err::<Arc<Frame>, Error>(error)
                            &&& after == before.remove(page_id)
                            &&& final(self).counts() == old(self).counts()
                            &&& final(self).queue() == old(self).queue()
                        },
                        Ok(frame) => {
                            let waiters = before[page_id]->Loading_waiters;
                            &&& result == Ok::<Arc<Frame>, Error>(frame)
                            &&& final(self).counts().loads == old(self).counts().loads.wrapping_add(
                                1,
                            )
                            &&& walked(before.remove(page_id), after.remove(page_id))
                            &&& exists|room: Shelf| #[trigger]
                                made_room(old(self).shelf(), room, old(self).limit())
                                    && final(self).shelf() == shelved_in(
                                    room,
                                    page_id,
                                    frame,
                                    waiters,
                                    old(self).limit(),
                                )
                            &&& old(self).queue().len() < old(self).limit() ==> {
                                &&& after == before.insert(
                                    page_id,
                                    Entry::Ready { frame, visited: true },
                                )
                                &&& final(self).queue() == old(self).queue().push(page_id)
                            }
                            &&& if after.contains_key(page_id) {
                                ||| after[page_id] == (Entry::Ready { frame, visited: true })
                                ||| waiters > 0 && final(self).queue().len() == final(self).limit()
                                    && after[page_id] == (Entry::Handoff { frame, waiters })
                            } else {
                                waiters == 0 && final(self).queue().len() == final(self).limit()
                            }
                        },
                    }
                }
            }),
    {
        broadcast use vstd::std_specs::hash::group_hash_axioms;

        let waiters = match self.entries.get(&page_id) {
            Some(Entry::Loading { token: current, waiters }) => if *current == token {
                *waiters
            } else {
                return Err(corrupt("cache load state changed unexpectedly"));
            },
            _ => {
                return Err(corrupt("cache load state changed unexpectedly"));
            },
        };
        let ghost before = self.entries@;
        match loaded {
            Err(error) => {
                self.entries.remove(&page_id);
                Err(error)
            },
            Ok(frame) => {
                self.metrics.loads = self.metrics.loads.wrapping_add(1);
                self.make_room();
                let ghost walked_to = self.entries@;
                let ghost room = self.shelf();
                let ghost queue = self.queue@;
                proof {
                    assert(before.contains_key(page_id));
                    assert(walked_to.contains_key(page_id) && walked_to[page_id] == before[page_id]);
                    assert(self.queue@.len() == self.queue.len());
                    assert(!queue.contains(page_id));
                }
                let shared = share(&frame);
                if self.queue.len() < self.capacity {
                    self.entries.insert(page_id, Entry::Ready { frame, visited: true });
                    self.queue.push_back(page_id);
                    proof {
                        assert forall|id: u64| #[trigger]
                            self.queue@.contains(id) == (queue.contains(id) || id == page_id) by {
                            if queue.contains(id) {
                                let i = choose|i: int| 0 <= i < queue.len() && queue[i] == id;
                                assert(self.queue@[i] == id);
                            }
                            if id == page_id {
                                assert(self.queue@[queue.len() as int] == id);
                            }
                            if self.queue@.contains(id) {
                                let i = choose|i: int|
                                    0 <= i < self.queue@.len() && self.queue@[i] == id;
                                if i < queue.len() {
                                    assert(queue[i] == id);
                                }
                            }
                        }
                        assert(self.queue@.no_duplicates()) by {
                            assert forall|i: int, j: int| 0 <= i < j < self.queue@.len() implies
                                self.queue@[i] != self.queue@[j] by {
                                if j == queue.len() {
                                    assert(queue.contains(queue[i]));
                                }
                            }
                        }
                    }
                } else if waiters == 0 {
                    self.entries.remove(&page_id);
                } else {
                    self.entries.insert(page_id, Entry::Handoff { frame, waiters });
                }
                assert(made_room(old(self).shelf(), room, old(self).limit()));
                assert(self.shelf() == shelved_in(room, page_id, frame, waiters, old(self).limit()));
                Ok(shared)
            },
        }
    }

    /// Forgets a load whose reader gave up.
    pub fn abandon(&mut self, page_id: u64, token: u64)
        requires
            old(self).inv(),
        ensures
            final(self).inv(),
            final(self).limit() == old(self).limit(),
            final(self).latest() == old(self).latest(),
            final(self).queue() == old(self).queue(),
            final(self).counts() == old(self).counts(),
            final(self).entries() == if old(self).entries().contains_key(page_id) && (
            old(self).entries()[page_id] matches Entry::Loading { token: current, .. } && current
                == token) {
                old(self).entries().remove(page_id)
            } else {
                old(self).entries()
            },
    {
        broadcast use vstd::std_specs::hash::group_hash_axioms;

        let pending = match self.entries.get(&page_id) {
            Some(Entry::Loading { token: current, waiters: _ }) => *current == token,
            _ => false,
        };
        if pending {
            self.entries.remove(&page_id);
        }
    }

    /// Returns a page of a snapshot, from the cache or from storage.
    pub fn get<I: Storage>(&mut self, storage: &mut I, page_id: u64, page_count: u64) -> (result:
        Result<Arc<Frame>>)
        requires
            old(self).inv(),
            old(self).idle(),
            old(self).coherent(pages_of(old(storage).contents())),
        ensures
            final(self).inv(),
            final(self).idle(),
            final(self).coherent(pages_of(old(storage).contents())),
            quiet(old(storage), final(storage)),
            old(storage).failures() <= final(storage).failures(),
            honest(
                result,
                old(storage).failures(),
                final(storage).failures(),
                final(storage).reported(),
                incomplete(pages_of(old(storage).contents()), page_count),
            ),
            old(self).entries().contains_key(page_id) || !in_snapshot(page_id, page_count)
                ==> *final(storage) == *old(storage),
            final(self).limit() == old(self).limit(),
            ({
                let pages = pages_of(old(storage).contents());
                let known = old(self).entries().contains_key(page_id);
                let before = old(self).counts();
                let after = final(self).counts();
                match result {
                    Ok(frame) => {
                        &&& readable(pages, page_count, page_id)
                        &&& frame.bytes@ == pages[page_id]
                        &&& after.hits == if known {
                            before.hits.wrapping_add(1)
                        } else {
                            before.hits
                        }
                        &&& after.misses == if known {
                            before.misses
                        } else {
                            before.misses.wrapping_add(1)
                        }
                        &&& after.loads == if known {
                            before.loads
                        } else {
                            before.loads.wrapping_add(1)
                        }
                        &&& !known && old(self).queue().len() < old(self).limit()
                            ==> final(self).queue() == old(self).queue().push(page_id)
                        &&& known ==> {
                            &&& frame_of(old(self).entries()[page_id]) == Some(frame)
                            &&& final(self).shelf() == (Shelf {
                                entries: old(self).entries().insert(
                                    page_id,
                                    Entry::Ready { frame, visited: true },
                                ),
                                ..old(self).shelf()
                            })
                        }
                        &&& !known ==> exists|room: Shelf| #[trigger]
                            made_room(old(self).shelf(), room, old(self).limit())
                                && final(self).shelf() == shelved_in(
                                room,
                                page_id,
                                frame,
                                0,
                                old(self).limit(),
                            )
                    },
                    Err(error) => {
                        &&& !in_snapshot(page_id, page_count) ==> error is Corrupt && *final(self)
                            == *old(self)
                        &&& in_snapshot(page_id, page_count) ==> !known && after == (Metrics {
                            misses: before.misses.wrapping_add(1),
                            ..before
                        })
                        &&& fails_for(
                            error,
                            !readable(pages, page_count, page_id),
                            final(storage).failures() > old(storage).failures(),
                        )
                        &&& final(self).entries() == old(self).entries()
                        &&& final(self).queue() == old(self).queue()
                    },
                }
            }),
    {
        let ghost pages = pages_of(storage.contents());
        let ghost before = self.entries();
        let ghost start = self.shelf();
        let step = self.begin(page_id, page_count, false, false)?;
        match step {
            Step::Hit(frame) => Ok(frame),
            Step::Wait => Err(corrupt("cache load state changed unexpectedly")),
            Step::Load(token) => {
                let ghost pending = self.entries();
                let loaded = match read_page(storage, page_id) {
                    Ok(bytes) => match validate_page(&bytes) {
                        Ok(()) => Ok(Arc::new(Frame { bytes })),
                        Err(error) => Err(error),
                    },
                    Err(error) => Err(error),
                };
                proof {
                    reveal(incomplete);
                    assert((page_id + 1) * PAGE_SIZE > old(storage).contents().len()
                        ==> !pages.contains_key(page_id));
                }
                let ghost outcome = loaded;
                let ghost waiting = self.shelf();
                let result = self.complete(page_id, token, loaded);
                proof {
                    if let Ok(frame) = outcome {
                        let room = choose|room: Shelf| #[trigger]
                            made_room(waiting, room, self.limit()) && self.shelf() == shelved_in(
                                room,
                                page_id,
                                frame,
                                0,
                                self.limit(),
                            );
                        assert(waiting.entries.remove(page_id) =~= before);
                        lemma_made_room_apart(start, waiting, room, page_id, self.limit());
                        let apart = Shelf { entries: room.entries.remove(page_id), ..room };
                        assert(self.shelf().entries =~= shelved_in(
                            apart,
                            page_id,
                            frame,
                            0,
                            self.limit(),
                        ).entries);
                    }
                    assert(pending.remove(page_id) =~= before);
                    if let Ok(frame) = outcome {
                        let after = self.entries();
                        assert forall|id: u64| #[trigger] after.contains_key(id) implies
                            after[id] is Ready && (id != page_id ==> before.contains_key(id)
                            && frame_of(after[id]) == frame_of(before[id])) by {
                            if id != page_id {
                                assert(after.remove(page_id).contains_key(id));
                                assert(pending.remove(page_id).contains_key(id));
                            }
                        }
                    }
                }
                result
            },
        }
    }

    /// Lists the pages that have an entry.
    fn known_pages(&self) -> (known: Vec<u64>)
        ensures
            forall|id: u64| #[trigger] known@.contains(id) == self.entries().contains_key(id),
    {
        broadcast use vstd::std_specs::hash::group_hash_axioms;

        let mut known: Vec<u64> = Vec::new();
        let ghost items = self.entries.keys().remaining();
        for id in iter: self.entries.keys()
            invariant
                iter.seq() == items,
                known@.len() == iter.index(),
                forall|i: int| 0 <= i < known@.len() ==> #[trigger] known@[i] == *items[i],
        {
            known.push(*id);
        }
        proof {
            assert(known@ =~= items.unref());
            assert forall|id: u64| #[trigger] known@.contains(id) == self.entries().contains_key(id) by {
                assert(items.unref().to_set().contains(id) == self.entries@.dom().contains(id));
            }
        }
        known
    }

    /// Whether a load or a hand-off of one of the given pages is pending.
    fn busy(&self, pages: &Vec<u64>) -> (busy: bool)
        ensures
            busy == exists|i: int|
                0 <= i < pages@.len() && self.entries().contains_key(#[trigger] pages@[i])
                    && !(self.entries()[pages@[i]] is Ready),
    {
        broadcast use vstd::std_specs::hash::group_hash_axioms;

        let mut index: usize = 0;
        while index < pages.len()
            invariant
                index <= pages@.len(),
                forall|i: int|
                    0 <= i < index ==> !(self.entries().contains_key(#[trigger] pages@[i])
                        && !(self.entries()[pages@[i]] is Ready)),
            decreases pages@.len() - index,
        {
            broadcast use vstd::std_specs::hash::group_hash_axioms;

            match self.entries.get(&pages[index]) {
                Some(Entry::Loading { token: _, waiters: _ }) => {
                    assert(self.entries().contains_key(pages@[index as int]));
                    return true;
                },
                Some(Entry::Handoff { frame: _, waiters: _ }) => {
                    assert(self.entries().contains_key(pages@[index as int]));
                    return true;
                },
                _ => {},
            }
            index = index + 1;
        }
        false
    }

    /// Forgets the given pages, and keeps the others in the order of the queue.
    fn forget(&mut self, pages: &Vec<u64>)
        requires
            old(self).inv(),
        ensures
            final(self).inv(),
            final(self).limit() == old(self).limit(),
            final(self).latest() == old(self).latest(),
            final(self).counts() == old(self).counts(),
            final(self).entries() == old(self).entries().remove_keys(pages@.to_set()),
            final(self).queue() == known_in(old(self).queue(), final(self).entries()),
    {
        broadcast use vstd::std_specs::hash::group_hash_axioms;

        let ghost before = self.entries@;
        let ghost old_queue = self.queue@;
        let mut queue: VecDeque<u64> = VecDeque::new();
        let mut index: usize = 0;
        assert(before.remove_keys(pages@.take(0).to_set()) =~= before);
        while index < pages.len()
            invariant
                index <= pages@.len(),
                self.entries@ == before.remove_keys(pages@.take(index as int).to_set()),
                self.queue@ == old_queue,
                self.capacity == old(self).capacity,
                self.next_load == old(self).next_load,
                self.metrics == old(self).metrics,
            decreases pages@.len() - index,
        {
            broadcast use vstd::std_specs::hash::group_hash_axioms;

            let page = pages[index];
            self.entries.remove(&page);
            proof {
                let shorter = pages@.take(index as int);
                let longer = pages@.take(index + 1);
                assert(longer =~= shorter.push(page));
                assert forall|p: u64| longer.to_set().contains(p) == (shorter.to_set().contains(p)
                    || p == page) by {
                    if longer.contains(p) {
                        let i = choose|i: int| 0 <= i < longer.len() && longer[i] == p;
                        if i < index {
                            assert(shorter[i] == p);
                        }
                    }
                    if shorter.contains(p) {
                        let i = choose|i: int| 0 <= i < shorter.len() && shorter[i] == p;
                        assert(longer[i] == p);
                    }
                    if p == page {
                        assert(longer[index as int] == p);
                    }
                }
                assert(self.entries@ =~= before.remove_keys(longer.to_set()));
            }
            index = index + 1;
        }
        assert(pages@.take(index as int) =~= pages@);
        let mut at: usize = 0;
        while at < self.queue.len()
            invariant
                at <= old_queue.len(),
                self.queue@ == old_queue,
                old_queue.no_duplicates(),
                self.capacity == old(self).capacity,
                self.next_load == old(self).next_load,
                self.metrics == old(self).metrics,
                self.entries@ == before.remove_keys(pages@.to_set()),
                old_queue.len() <= self.capacity,
                queue@.len() <= at,
                queue@.no_duplicates(),
                queue@ == known_in(old_queue.take(at as int), self.entries@),
                forall|id: u64| #[trigger]
                    queue@.contains(id) == (old_queue.take(at as int).contains(id)
                        && self.entries@.contains_key(id)),
            decreases old_queue.len() - at,
        {
            broadcast use vstd::std_specs::hash::group_hash_axioms;

            let page = self.queue[at];
            let ghost so_far = queue@;
            let ghost shorter = old_queue.take(at as int);
            let ghost longer = old_queue.take(at + 1);
            let keep = self.entries.contains_key(&page);
            proof {
                assert(longer =~= shorter.push(page));
                assert(longer.drop_last() =~= shorter);
                if shorter.contains(page) {
                    let i = choose|i: int| 0 <= i < shorter.len() && shorter[i] == page;
                    assert(old_queue[i] == old_queue[at as int]);
                }
                assert forall|id: u64| #[trigger] longer.contains(id) == (shorter.contains(id) || id
                    == page) by {
                    if longer.contains(id) {
                        let i = choose|i: int| 0 <= i < longer.len() && longer[i] == id;
                        if i < at {
                            assert(shorter[i] == id);
                        }
                    }
                    if shorter.contains(id) {
                        let i = choose|i: int| 0 <= i < shorter.len() && shorter[i] == id;
                        assert(longer[i] == id);
                    }
                    if id == page {
                        assert(longer[at as int] == id);
                    }
                }
            }
            if keep {
                queue.push_back(page);
                proof {
                    assert(!so_far.contains(page));
                    assert forall|id: u64| #[trigger] queue@.contains(id) == (so_far.contains(id)
                        || id == page) by {
                        if so_far.contains(id) {
                            let i = choose|i: int| 0 <= i < so_far.len() && so_far[i] == id;
                            assert(queue@[i] == id);
                        }
                        if id == page {
                            assert(queue@[so_far.len() as int] == id);
                        }
                        if queue@.contains(id) {
                            let i = choose|i: int| 0 <= i < queue@.len() && queue@[i] == id;
                            if i < so_far.len() {
                                assert(so_far[i] == id);
                            }
                        }
                    }
                    assert(queue@.no_duplicates()) by {
                        assert forall|i: int, j: int| 0 <= i < j < queue@.len() implies queue@[i]
                            != queue@[j] by {
                            if j == so_far.len() {
                                assert(so_far.contains(so_far[i]));
                            }
                        }
                    }
                }
            }
            at = at + 1;
        }
        assert(old_queue.take(at as int) =~= old_queue);
        self.queue = queue;
    }

    /// Forgets every page from `first_page` on. Where a load or a hand-off of such a page
    /// is pending, nothing changes and the caller has to wait.
    pub fn invalidate_from(&mut self, first_page: u64) -> (done: bool)
        requires
            old(self).inv(),
        ensures
            final(self).inv(),
            final(self).limit() == old(self).limit(),
            final(self).latest() == old(self).latest(),
            final(self).counts() == old(self).counts(),
            done ==> final(self).queue() == known_in(old(self).queue(), final(self).entries()),
            done <==> forall|id: u64| #[trigger]
                old(self).entries().contains_key(id) && id >= first_page ==> old(
                    self,
                ).entries()[id] is Ready,
            !done ==> *final(self) == *old(self),
            done ==> forall|id: u64| #[trigger]
                final(self).entries().contains_key(id) <==> old(self).entries().contains_key(id)
                    && id < first_page,
            forall|id: u64| #[trigger]
                final(self).entries().contains_key(id) ==> final(self).entries()[id] == old(
                    self,
                ).entries()[id],
    {
        let known = self.known_pages();
        let mut pages: Vec<u64> = Vec::new();
        let mut index: usize = 0;
        while index < known.len()
            invariant
                index <= known@.len(),
                forall|id: u64| #[trigger]
                    pages@.contains(id) == (known@.take(index as int).contains(id) && id
                        >= first_page),
            decreases known@.len() - index,
        {
            let page = known[index];
            let ghost so_far = pages@;
            if page >= first_page {
                pages.push(page);
            }
            proof {
                lemma_filter_step(known@, index as int, so_far, pages@, page >= first_page);
            }
            index = index + 1;
        }
        assert(known@.take(index as int) =~= known@);
        if self.busy(&pages) {
            proof {
                let i = choose|i: int|
                    0 <= i < pages@.len() && self.entries().contains_key(#[trigger] pages@[i])
                        && !(self.entries()[pages@[i]] is Ready);
                assert(pages@.contains(pages@[i]));
            }
            return false;
        }
        proof {
            assert forall|id: u64| #[trigger]
                self.entries().contains_key(id) && id >= first_page implies self.entries()[id] is Ready by {
                assert(known@.contains(id));
                assert(pages@.contains(id));
                let i = choose|i: int| 0 <= i < pages@.len() && pages@[i] == id;
                assert(self.entries().contains_key(pages@[i]));
            }
        }
        self.forget(&pages);
        proof {
            assert forall|id: u64| #[trigger]
                self.entries().contains_key(id) <==> old(self).entries().contains_key(id) && id
                    < first_page by {
                assert(pages@.to_set().contains(id) == pages@.contains(id));
                assert(known@.contains(id) == old(self).entries().contains_key(id));
            }
        }
        true
    }

    /// Forgets the given pages. Where a load or a hand-off of one of them is pending,
    /// nothing changes and the caller has to wait.
    pub fn invalidate_pages(&mut self, pages: &Vec<u64>) -> (done: bool)
        requires
            old(self).inv(),
        ensures
            final(self).inv(),
            final(self).limit() == old(self).limit(),
            final(self).latest() == old(self).latest(),
            final(self).counts() == old(self).counts(),
            done ==> final(self).queue() == known_in(old(self).queue(), final(self).entries()),
            done <==> forall|id: u64| #[trigger]
                old(self).entries().contains_key(id) && pages@.contains(id) ==> old(
                    self,
                ).entries()[id] is Ready,
            !done ==> *final(self) == *old(self),
            done ==> forall|id: u64| #[trigger]
                final(self).entries().contains_key(id) <==> old(self).entries().contains_key(id)
                    && !pages@.contains(id),
            forall|id: u64| #[trigger]
                final(self).entries().contains_key(id) ==> final(self).entries()[id] == old(
                    self,
                ).entries()[id],
    {
        if self.busy(pages) {
            proof {
                let i = choose|i: int|
                    0 <= i < pages@.len() && self.entries().contains_key(#[trigger] pages@[i])
                        && !(self.entries()[pages@[i]] is Ready);
                assert(pages@.contains(pages@[i]));
            }
            return false;
        }
        proof {
            assert forall|id: u64| #[trigger]
                self.entries().contains_key(id) && pages@.contains(id) implies self.entries()[id] is Ready by {
                let i = choose|i: int| 0 <= i < pages@.len() && pages@[i] == id;
                assert(self.entries().contains_key(pages@[i]));
            }
        }
        self.forget(pages);
        proof {
            assert forall|id: u64| #[trigger]
                self.entries().contains_key(id) <==> old(self).entries().contains_key(id)
                    && !pages@.contains(id) by {
                assert(pages@.to_set().contains(id) == pages@.contains(id));
            }
        }
        true
    }

    /// The number of indexed pages, the bytes that they take, and the limit in bytes.
    pub fn occupancy(&self) -> (result: (usize, usize, usize))
        requires
            self.inv(),
        ensures
            result.0 == self.queue().len(),
            result.1 == self.queue().len() * PAGE_SIZE,
            result.2 == self.limit() * PAGE_SIZE,
            result.0 <= self.limit(),
    {
        assert(self.queue@.len() == self.queue.len());
        let pages = self.queue.len();
        (pages, pages * PAGE_SIZE, self.capacity * PAGE_SIZE)
    }

    /// How often the cache was asked, loaded and evicted pages.
    pub fn metrics(&self) -> (metrics: Metrics)
        ensures
            metrics == self.counts(),
    {
        self.metrics
    }
}

/// One step of filtering a list.
proof fn lemma_filter_step(
    list: Seq<u64>,
    index: int,
    before: Seq<u64>,
    after: Seq<u64>,
    keep: bool,
)
    requires
        0 <= index < list.len(),
        after == if keep {
            before.push(list[index])
        } else {
            before
        },
    ensures
        forall|id: u64| #[trigger]
            list.take(index + 1).contains(id) == (list.take(index).contains(id) || id
                == list[index]),
        forall|id: u64| #[trigger]
            after.contains(id) == (before.contains(id) || (keep && id == list[index])),
{
    let shorter = list.take(index);
    let longer = list.take(index + 1);
    assert forall|id: u64| #[trigger] longer.contains(id) == (shorter.contains(id) || id
        == list[index]) by {
        if longer.contains(id) {
            let i = choose|i: int| 0 <= i < longer.len() && longer[i] == id;
            if i < index {
                assert(shorter[i] == id);
            }
        }
        if shorter.contains(id) {
            let i = choose|i: int| 0 <= i < shorter.len() && shorter[i] == id;
            assert(longer[i] == id);
        }
        if id == list[index] {
            assert(longer[index] == id);
        }
    }
    assert forall|id: u64| #[trigger] after.contains(id) == (before.contains(id) || (keep && id
        == list[index])) by {
        if before.contains(id) {
            let i = choose|i: int| 0 <= i < before.len() && before[i] == id;
            assert(after[i] == id);
        }
        if keep && id == list[index] {
            assert(after[before.len() as int] == id);
        }
        if after.contains(id) {
            let i = choose|i: int| 0 <= i < after.len() && after[i] == id;
            if i < before.len() {
                assert(before[i] == id);
            }
        }
    }
}

/// Storage read through a cache.
pub struct Cached<I: Storage> {
    pub storage: I,
    pub cache: Cache,
}

impl<I: Storage> PageReader for Cached<I> {
    open spec fn origin(&self) -> Origin {
        Origin {
            contents: self.storage.contents(),
            calls: self.storage.calls(),
            images: Set::new(|image: Seq<u8>| self.storage.survives(image)),
            capacity: self.cache.limit(),
        }
    }

    open spec fn failures(&self) -> nat {
        self.storage.failures()
    }

    open spec fn reported(&self) -> Option<std::io::Error> {
        self.storage.reported()
    }

    open spec fn pages(&self) -> Pages {
        pages_of(self.storage.contents())
    }

    open spec fn usable(&self) -> bool {
        &&& self.cache.inv()
        &&& self.cache.idle()
        &&& self.cache.coherent(self.pages())
    }

    open spec fn at_hand(&self) -> Set<u64> {
        self.cache.entries().dom()
    }

    open spec fn crowded(&self) -> bool {
        self.cache.queue().len() >= self.cache.limit() - 1
    }

    fn page(&mut self, page_id: u64, page_count: u64) -> (result: Result<Arc<Frame>>) {
        let result = self.cache.get(&mut self.storage, page_id, page_count);
        proof {
            assert(self.origin().images =~= old(self).origin().images);
            let before = old(self).cache.shelf();
            let limit = old(self).cache.limit();
            if result is Ok {
                let frame = result->Ok_0;
                if !before.entries.contains_key(page_id) {
                    let room = choose|room: Shelf| #[trigger]
                        made_room(before, room, limit) && self.cache.shelf() == shelved_in(
                            room,
                            page_id,
                            frame,
                            0,
                            limit,
                        );
                    law_evictions_are_needed(before, room, limit);
                    law_loaded_pages_come_last(room, page_id, frame, 0, limit);
                }
            }
            assert(old(self).at_hand().contains(page_id) ==> self.at_hand() =~= old(
                self,
            ).at_hand());
        }
        result
    }
}

} // verus!
