//! Which generations are published, and which free pages a writer may take.
use crate::error::{corrupt, Result};
use crate::format::Meta;
use crate::free::{eligible, extent, lists, pages_in, picked, record_map, take_reusable, Record};
use std::collections::{BTreeMap, HashSet};
use vstd::prelude::*;

verus! {

/// A published generation and the metadata page that records it.
#[derive(Clone, Copy, Debug, PartialEq, Eq, Structural)]
pub struct Published {
    pub meta: Meta,
    pub slot: u64,
}

/// The current generation and what is known of both metadata pages.
#[derive(Clone, Copy, Debug)]
pub struct Publication {
    pub current: Published,
    pub slots: [Option<Meta>; 2],
}

/// The free tree of the current generation in memory.
pub struct FreeState {
    /// The free pages and the last generations that used them.
    pub entries: BTreeMap<u64, u64>,
    /// The pages of the free tree itself.
    pub pages: HashSet<u64>,
    /// How many free pages each generation was the last to use.
    pub generation_counts: BTreeMap<u64, u64>,
    /// How many free pages the next writer may take.
    pub reusable_pages: u64,
}

// ---------------------------------------------------------------------------
// The oldest generation that must stay readable
// ---------------------------------------------------------------------------

/// Whether a generation is recorded by a metadata page or held by a reader.
pub open spec fn retained(publication: Publication, oldest_reader: Option<u64>, generation: u64) -> bool {
    ||| publication.slots@[0] matches Some(meta) && meta.generation == generation
    ||| publication.slots@[1] matches Some(meta) && meta.generation == generation
    ||| oldest_reader == Some(generation)
}

/// Whether `floor` is the smallest retained generation, or the current one if none is.
pub open spec fn is_floor(publication: Publication, oldest_reader: Option<u64>, floor: u64) -> bool {
    if exists|generation: u64| #[trigger] retained(publication, oldest_reader, generation) {
        &&& retained(publication, oldest_reader, floor)
        &&& forall|generation: u64| #[trigger]
            retained(publication, oldest_reader, generation) ==> floor <= generation
    } else {
        floor == publication.current.meta.generation
    }
}

/// The oldest generation whose pages must not be reused.
pub fn safe_generation(publication: &Publication, oldest_reader: Option<u64>) -> (floor: u64)
    ensures
        is_floor(*publication, oldest_reader, floor),
{
    let mut floor = oldest_reader;
    if let Some(meta) = publication.slots[0] {
        floor = match floor {
            Some(least) => if least <= meta.generation {
                Some(least)
            } else {
                Some(meta.generation)
            },
            None => Some(meta.generation),
        };
    }
    if let Some(meta) = publication.slots[1] {
        floor = match floor {
            Some(least) => if least <= meta.generation {
                Some(least)
            } else {
                Some(meta.generation)
            },
            None => Some(meta.generation),
        };
    }
    match floor {
        Some(least) => {
            assert(retained(*publication, oldest_reader, least));
            least
        },
        None => publication.current.meta.generation,
    }
}

// ---------------------------------------------------------------------------
// Counting free pages
// ---------------------------------------------------------------------------

/// The sum of the counts of the generations before `safe`.
pub open spec fn sum_below(counts: Map<u64, u64>, safe: int) -> nat
    recommends
        counts.dom().finite(),
    decreases counts.dom().len(),
    when counts.dom().finite()
{
    if counts.dom().len() == 0 {
        0
    } else {
        let key = counts.dom().choose();
        sum_below(counts.remove(key), safe) + if key < safe {
            counts[key] as nat
        } else {
            0
        }
    }
}

/// The free pages last used before a generation.
pub open spec fn aged_pages(entries: Map<u64, u64>, safe: u64) -> Set<u64> {
    entries.dom().filter(|page: u64| entries[page] < safe)
}

/// The free pages last used by a generation.
pub open spec fn used_by(entries: Map<u64, u64>, generation: u64) -> Set<u64> {
    entries.dom().filter(|page: u64| entries[page] == generation)
}

/// Any key can be taken out of the sum first.
pub proof fn lemma_sum_remove(counts: Map<u64, u64>, safe: int, key: u64)
    requires
        counts.dom().finite(),
        counts.contains_key(key),
    ensures
        sum_below(counts, safe) == sum_below(counts.remove(key), safe) + if key < safe {
            counts[key] as nat
        } else {
            0
        },
    decreases counts.dom().len(),
{
    let first = counts.dom().choose();
    assert(counts.dom().contains(key));
    assert(counts.dom().len() > 0) by {
        if counts.dom().len() == 0 {
            counts.dom().lemma_len0_is_empty();
        }
    }
    assert(counts.dom().contains(first));
    if first != key {
        let rest = counts.remove(first);
        assert(rest.dom() =~= counts.dom().remove(first));
        lemma_sum_remove(rest, safe, key);
        let other = counts.remove(key);
        assert(other.dom() =~= counts.dom().remove(key));
        lemma_sum_remove(other, safe, first);
        assert(rest.remove(key) =~= other.remove(first));
    }
}

/// Setting one count.
pub proof fn lemma_sum_insert(counts: Map<u64, u64>, safe: int, key: u64, count: u64)
    requires
        counts.dom().finite(),
    ensures
        sum_below(counts.insert(key, count), safe) == sum_below(counts.remove(key), safe) + if key
            < safe {
            count as nat
        } else {
            0
        },
        counts.contains_key(key) ==> sum_below(counts, safe) == sum_below(counts.remove(key), safe)
            + if key < safe {
            counts[key] as nat
        } else {
            0
        },
        !counts.contains_key(key) ==> counts.remove(key) == counts,
{
    let more = counts.insert(key, count);
    lemma_sum_remove(more, safe, key);
    assert(more.remove(key) =~= counts.remove(key));
    if counts.contains_key(key) {
        lemma_sum_remove(counts, safe, key);
    } else {
        assert(counts.remove(key) =~= counts);
    }
}

/// Whether the counts are those of the entries.
pub open spec fn counts_for(entries: Map<u64, u64>, counts: Map<u64, u64>) -> bool {
    &&& counts.dom().finite()
    &&& forall|generation: u64|
        (if counts.contains_key(generation) {
            counts[generation] as nat
        } else {
            0
        }) == #[trigger] used_by(entries, generation).len()
    &&& forall|generation: u64| #[trigger]
        counts.contains_key(generation) ==> counts[generation] > 0
    &&& forall|safe: u64| sum_below(counts, safe as int) == (#[trigger] aged_pages(entries, safe)).len()
}

/// One more free page.
proof fn lemma_counts_step(
    entries: Map<u64, u64>,
    counts: Map<u64, u64>,
    page: u64,
    generation: u64,
    count: u64,
)
    requires
        entries.dom().finite(),
        counts_for(entries, counts),
        !entries.contains_key(page),
        count == 1 + if counts.contains_key(generation) {
            counts[generation] as int
        } else {
            0
        },
    ensures
        counts_for(entries.insert(page, generation), counts.insert(generation, count)),
{
    let more = entries.insert(page, generation);
    let after = counts.insert(generation, count);
    assert forall|g: u64|
        (if after.contains_key(g) {
            after[g] as nat
        } else {
            0
        }) == #[trigger] used_by(more, g).len() by {
        assert(used_by(entries, g).len() == if counts.contains_key(g) {
            counts[g] as nat
        } else {
            0
        });
        if g == generation {
            assert(used_by(more, g) =~= used_by(entries, g).insert(page));
        } else {
            assert(used_by(more, g) =~= used_by(entries, g));
        }
    }
    assert forall|safe: u64| sum_below(after, safe as int) == (#[trigger] aged_pages(more, safe)).len() by {
        lemma_sum_insert(counts, safe as int, generation, count);
        assert(sum_below(counts, safe as int) == aged_pages(entries, safe).len());
        if generation < safe {
            assert(aged_pages(more, safe) =~= aged_pages(entries, safe).insert(page));
        } else {
            assert(aged_pages(more, safe) =~= aged_pages(entries, safe));
        }
    }
}

/// No free page gives no count.
proof fn lemma_counts_none()
    ensures
        counts_for(Map::empty(), Map::empty()),
{
    let none = Map::<u64, u64>::empty();
    assert forall|g: u64| #[trigger] used_by(none, g).len() == 0 by {
        assert(used_by(none, g) =~= Set::<u64>::empty());
    }
    assert forall|safe: u64| sum_below(none, safe as int) == (#[trigger] aged_pages(none, safe)).len() by {
        assert(aged_pages(none, safe) =~= Set::<u64>::empty());
        assert(none.dom() =~= Set::<u64>::empty());
    }
}

/// Counts how many free pages each generation was the last to use.
pub fn generation_counts(entries: &BTreeMap<u64, u64>) -> (counts: BTreeMap<u64, u64>)
    ensures
        counts_for(entries@, counts@),
{
    broadcast use vstd::std_specs::btree::group_btree_axioms;

    let all = crate::free::list_records(entries);
    let mut counts: BTreeMap<u64, u64> = BTreeMap::new();
    let mut index: usize = 0;
    proof {
        assert(all@.take(0) =~= Seq::<Record>::empty());
        assert(record_map(all@.take(0)) =~= Map::<u64, u64>::empty());
        assert(counts@ =~= Map::<u64, u64>::empty());
        lemma_counts_none();
    }
    while index < all.len()
        invariant
            index <= all@.len(),
            lists(all@, entries@),
            counts_for(record_map(all@.take(index as int)), counts@),
        decreases all@.len() - index,
    {
        broadcast use vstd::std_specs::btree::group_btree_axioms;

        let (page, generation) = all[index];
        let ghost shorter = all@.take(index as int);
        let ghost longer = all@.take(index + 1);
        proof {
            assert(longer =~= shorter.push((page, generation)));
            assert(longer.drop_last() =~= shorter);
            assert(crate::free::ascending(shorter)) by {
                assert forall|i: int, j: int| 0 <= i < j < shorter.len() implies (
                #[trigger] shorter[i]).0 < (#[trigger] shorter[j]).0 by {
                    assert(shorter[i] == all@[i] && shorter[j] == all@[j]);
                }
            }
            crate::free::lemma_record_map(shorter);
            if record_map(shorter).contains_key(page) {
                let i = choose|i: int| 0 <= i < shorter.len() && (#[trigger] shorter[i]).0 == page;
                assert(all@[i].0 < all@[index as int].0);
            }
            let ages = used_by(record_map(shorter), generation);
            vstd::set_lib::lemma_len_subset(ages, record_map(shorter).dom());
            assert(ages.len() <= index);
        }
        let previous = match counts.get(&generation) {
            Some(count) => *count,
            None => 0,
        };
        let count = previous + 1;
        let ghost before = counts@;
        counts.insert(generation, count);
        proof {
            lemma_counts_step(record_map(shorter), before, page, generation, count);
        }
        index = index + 1;
    }
    assert(all@.take(index as int) =~= all@);
    counts
}

/// How many free pages were last used before a generation.
pub fn reusable_count(counts: &BTreeMap<u64, u64>, safe_generation: u64) -> (total: u64)
    requires
        sum_below(counts@, safe_generation as int) <= u64::MAX,
    ensures
        total == sum_below(counts@, safe_generation as int),
{
    broadcast use vstd::std_specs::btree::group_btree_axioms;

    let all = crate::free::list_records(counts);
    let mut total: u64 = 0;
    let mut index: usize = 0;
    proof {
        assert(all@.take(0) =~= Seq::<Record>::empty());
        assert(record_map(all@.take(0)).dom() =~= Set::<u64>::empty());
    }
    while index < all.len()
        invariant
            index <= all@.len(),
            lists(all@, counts@),
            total == sum_below(record_map(all@.take(index as int)), safe_generation as int),
            sum_below(counts@, safe_generation as int) <= u64::MAX,
        decreases all@.len() - index,
    {
        let (generation, count) = all[index];
        proof {
            let shorter = all@.take(index as int);
            let longer = all@.take(index + 1);
            assert(longer =~= shorter.push((generation, count)));
            assert(longer.drop_last() =~= shorter);
            lemma_prefix_ascends(all@, index as int);
            lemma_prefix_ascends(all@, index + 1);
            crate::free::lemma_record_map(shorter);
            if record_map(shorter).contains_key(generation) {
                let i = choose|i: int|
                    0 <= i < shorter.len() && (#[trigger] shorter[i]).0 == generation;
                assert(all@[i].0 < all@[index as int].0);
            }
            lemma_sum_insert(record_map(shorter), safe_generation as int, generation, count);
            lemma_sum_prefix(all@, index + 1, safe_generation as int);
        }
        if generation < safe_generation {
            total = total + count;
        }
        index = index + 1;
    }
    assert(all@.take(index as int) =~= all@);
    total
}

/// The sum of all counts.
pub open spec fn sum_of(counts: Map<u64, u64>) -> nat {
    sum_below(counts, 0x1_0000_0000_0000_0000)
}

/// The sum of all counts, unless it is too large.
pub fn sum_counts(counts: &BTreeMap<u64, u64>) -> (total: Option<u64>)
    ensures
        match total {
            Some(sum) => sum == sum_of(counts@),
            None => sum_of(counts@) > u64::MAX,
        },
{
    broadcast use vstd::std_specs::btree::group_btree_axioms;

    let ghost all_keys: int = 0x1_0000_0000_0000_0000;
    let all = crate::free::list_records(counts);
    let mut total: u64 = 0;
    let mut index: usize = 0;
    proof {
        assert(all@.take(0) =~= Seq::<Record>::empty());
        assert(record_map(all@.take(0)).dom() =~= Set::<u64>::empty());
    }
    while index < all.len()
        invariant
            index <= all@.len(),
            lists(all@, counts@),
            all_keys == 0x1_0000_0000_0000_0000,
            total == sum_below(record_map(all@.take(index as int)), all_keys),
        decreases all@.len() - index,
    {
        let (generation, count) = all[index];
        proof {
            let shorter = all@.take(index as int);
            let longer = all@.take(index + 1);
            assert(longer =~= shorter.push((generation, count)));
            assert(longer.drop_last() =~= shorter);
            lemma_prefix_ascends(all@, index as int);
            crate::free::lemma_record_map(shorter);
            if record_map(shorter).contains_key(generation) {
                let i = choose|i: int|
                    0 <= i < shorter.len() && (#[trigger] shorter[i]).0 == generation;
                assert(all@[i].0 < all@[index as int].0);
            }
            lemma_sum_insert(record_map(shorter), all_keys, generation, count);
            lemma_sum_prefix(all@, index + 1, all_keys);
        }
        total = match total.checked_add(count) {
            Some(sum) => sum,
            None => {
                return None;
            },
        };
        index = index + 1;
    }
    assert(all@.take(index as int) =~= all@);
    Some(total)
}

/// A prefix of ascending records ascends.
proof fn lemma_prefix_ascends(all: Seq<Record>, k: int)
    requires
        crate::free::ascending(all),
        0 <= k <= all.len(),
    ensures
        crate::free::ascending(all.take(k)),
{
    let part = all.take(k);
    assert forall|i: int, j: int| 0 <= i < j < part.len() implies (#[trigger] part[i]).0 < (
    #[trigger] part[j]).0 by {
        assert(part[i] == all[i] && part[j] == all[j]);
    }
}

/// The sum over a prefix is no larger than the whole sum.
proof fn lemma_sum_prefix(all: Seq<Record>, k: int, safe: int)
    requires
        crate::free::ascending(all),
        0 <= k <= all.len(),
    ensures
        sum_below(record_map(all.take(k)), safe) <= sum_below(record_map(all), safe),
    decreases all.len() - k,
{
    if k == all.len() {
        assert(all.take(k) =~= all);
    } else {
        lemma_sum_prefix(all, k + 1, safe);
        let shorter = all.take(k);
        let longer = all.take(k + 1);
        let (generation, count) = all[k];
        assert(longer =~= shorter.push((generation, count)));
        assert(longer.drop_last() =~= shorter);
        lemma_prefix_ascends(all, k);
        crate::free::lemma_record_map(shorter);
        if record_map(shorter).contains_key(generation) {
            let i = choose|i: int|
                0 <= i < shorter.len() && (#[trigger] shorter[i]).0 == generation;
            assert(all[i].0 < all[k].0);
        }
        lemma_sum_insert(record_map(shorter), safe, generation, count);
    }
}

// ---------------------------------------------------------------------------
// Allocating pages
// ---------------------------------------------------------------------------

/// Whether `taken` are the pages that are reused when `count` pages are asked for.
pub open spec fn reused(entries: Map<u64, u64>, safe: u64, count: nat, taken: Seq<u64>) -> bool {
    if count == 0 {
        taken.len() == 0
    } else {
        exists|pages: Seq<u64>| #[trigger]
            eligible(pages, entries, safe) && picked(pages, count as int, taken)
    }
}

/// The pages from `first` on, `count` of them.
pub open spec fn fresh(first: u64, count: nat) -> Seq<u64> {
    Seq::new(count, |k: int| (first + k) as u64)
}

/// What is known of pages taken for reuse.
pub proof fn lemma_reused(entries: Map<u64, u64>, safe: u64, count: nat, taken: Seq<u64>)
    requires
        reused(entries, safe, count, taken),
    ensures
        taken.len() <= count,
        taken.no_duplicates(),
        forall|k: int|
            0 <= k < taken.len() ==> entries.contains_key(#[trigger] taken[k]) && entries[taken[k]]
                < safe,
{
    if count > 0 {
        let pages = choose|pages: Seq<u64>| #[trigger]
            eligible(pages, entries, safe) && picked(pages, count as int, taken);
        let from = if exists|start: int| extent(pages, start, count as int) {
            choose|start: int| #[trigger]
                extent(pages, start, count as int) && (forall|earlier: int|
                    earlier < start ==> !#[trigger] extent(pages, earlier, count as int)) && taken
                    == pages.subrange(start, start + count)
        } else {
            0
        };
        assert forall|k: int| 0 <= k < taken.len() implies #[trigger] taken[k] == pages[from + k] by {}
        assert forall|k: int| 0 <= k < taken.len() implies entries.contains_key(#[trigger] taken[k])
            && entries[taken[k]] < safe by {
            assert(pages.contains(pages[from + k]));
        }
        assert forall|i: int, j: int| 0 <= i < taken.len() && 0 <= j < taken.len() && i != j implies
            taken[i] != taken[j] by {
            if i < j {
                assert(pages[from + i] < pages[from + j]);
            } else {
                assert(pages[from + j] < pages[from + i]);
            }
        }
    }
}

/// Whether pages were allocated out of the entries and behind the file.
pub open spec fn granted(
    before: Map<u64, u64>,
    after: Map<u64, u64>,
    safe: u64,
    first: u64,
    next: u64,
    allocated: Seq<u64>,
) -> bool {
    &&& first <= next
    &&& after == before.remove_keys(allocated.to_set())
    &&& forall|k: int|
        0 <= k < allocated.len() ==> (before.contains_key(#[trigger] allocated[k])
            && before[allocated[k]] < safe) || first <= allocated[k] < next
    &&& forall|page: u64| first <= page < next ==> #[trigger] allocated.contains(page)
    &&& (forall|page: u64| #[trigger] before.contains_key(page) ==> page < first)
        ==> allocated.no_duplicates()
}

/// Nothing allocated.
pub proof fn lemma_granted_none(entries: Map<u64, u64>, safe: u64, next: u64)
    ensures
        granted(entries, entries, safe, next, next, Seq::empty()),
{
    assert(entries.remove_keys(Seq::<u64>::empty().to_set()) =~= entries);
}

/// Two allocations one after the other.
pub proof fn lemma_granted_add(
    a: Map<u64, u64>,
    b: Map<u64, u64>,
    c: Map<u64, u64>,
    safe: u64,
    first: u64,
    middle: u64,
    next: u64,
    left: Seq<u64>,
    right: Seq<u64>,
)
    requires
        granted(a, b, safe, first, middle, left),
        granted(b, c, safe, middle, next, right),
    ensures
        granted(a, c, safe, first, next, left + right),
        granted(a, c, safe, first, next, right + left),
{
    lemma_granted_join(a, b, c, safe, first, middle, next, left, right, left + right);
    lemma_granted_join(a, b, c, safe, first, middle, next, left, right, right + left);
}

/// Two allocations in either order.
proof fn lemma_granted_join(
    a: Map<u64, u64>,
    b: Map<u64, u64>,
    c: Map<u64, u64>,
    safe: u64,
    first: u64,
    middle: u64,
    next: u64,
    left: Seq<u64>,
    right: Seq<u64>,
    both: Seq<u64>,
)
    requires
        granted(a, b, safe, first, middle, left),
        granted(b, c, safe, middle, next, right),
        both == left + right || both == right + left,
    ensures
        granted(a, c, safe, first, next, both),
{
    assert forall|page: u64| #[trigger] both.contains(page) == (left.contains(page) || right.contains(
        page,
    )) by {
        if both.contains(page) {
            let i = choose|i: int| 0 <= i < both.len() && both[i] == page;
            if both == left + right {
                if i < left.len() {
                    assert(left[i] == page);
                } else {
                    assert(right[i - left.len()] == page);
                }
            } else {
                if i < right.len() {
                    assert(right[i] == page);
                } else {
                    assert(left[i - right.len()] == page);
                }
            }
        }
        if left.contains(page) {
            let i = choose|i: int| 0 <= i < left.len() && left[i] == page;
            if both == left + right {
                assert(both[i] == page);
            } else {
                assert(both[right.len() + i] == page);
            }
        }
        if right.contains(page) {
            let i = choose|i: int| 0 <= i < right.len() && right[i] == page;
            if both == left + right {
                assert(both[left.len() + i] == page);
            } else {
                assert(both[i] == page);
            }
        }
    }
    assert forall|page: u64| both.to_set().contains(page) == (left.to_set().contains(page)
        || right.to_set().contains(page)) by {
        assert(both.contains(page) == (left.contains(page) || right.contains(page)));
    }
    assert(c =~= a.remove_keys(both.to_set()));
    assert forall|k: int| 0 <= k < both.len() implies (a.contains_key(#[trigger] both[k])
        && a[both[k]] < safe) || first <= both[k] < next by {
        assert(both.contains(both[k]));
        if left.contains(both[k]) {
            let i = choose|i: int| 0 <= i < left.len() && left[i] == both[k];
            assert(left[i] == both[k]);
        } else {
            let i = choose|i: int| 0 <= i < right.len() && right[i] == both[k];
            assert(right[i] == both[k]);
        }
    }
    assert forall|page: u64| first <= page < next implies #[trigger] both.contains(page) by {
        if page < middle {
            assert(left.contains(page));
        } else {
            assert(right.contains(page));
        }
    }
    if forall|page: u64| #[trigger] a.contains_key(page) ==> page < first {
        assert forall|page: u64| #[trigger] b.contains_key(page) implies page < middle by {
            assert(a.contains_key(page));
        }
        assert forall|page: u64| left.contains(page) implies !#[trigger] right.contains(page) by {
            if right.contains(page) {
                let i = choose|i: int| 0 <= i < right.len() && right[i] == page;
                let j = choose|j: int| 0 <= j < left.len() && left[j] == page;
                assert(right[i] == page && left[j] == page);
                assert(left.to_set().contains(page));
                assert(!b.contains_key(page));
                if a.contains_key(page) && a[page] < safe {
                    assert(page < first);
                }
            }
        }
        assert forall|i: int, j: int| 0 <= i < both.len() && 0 <= j < both.len() && i != j implies
            both[i] != both[j] by {
            if both == left + right {
                let n = left.len();
                if i < n && j >= n {
                    assert(left.contains(left[i]));
                    assert(right.contains(right[j - n]));
                } else if i >= n && j < n {
                    assert(left.contains(left[j]));
                    assert(right.contains(right[i - n]));
                }
            } else {
                let n = right.len();
                if i < n && j >= n {
                    assert(right.contains(right[i]));
                    assert(left.contains(left[j - n]));
                } else if i >= n && j < n {
                    assert(right.contains(right[j]));
                    assert(left.contains(left[i - n]));
                }
            }
        }
    }
}

/// Whether `allocated` are `count` pages: as many free pages as can be reused, and then
/// pages from `first` up to `next`.
pub open spec fn segment(
    before: Map<u64, u64>,
    after: Map<u64, u64>,
    safe: u64,
    count: nat,
    first: u64,
    next: u64,
    allocated: Seq<u64>,
) -> bool {
    exists|taken: Seq<u64>| #[trigger]
        reused(before, safe, count, taken) && after == before.remove_keys(taken.to_set()) && next
            == first + (count - taken.len()) && allocated == taken + fresh(
            first,
            (count - taken.len()) as nat,
        )
}

/// Whether there are too few page numbers for the pages that cannot be reused.
pub open spec fn exhausted(entries: Map<u64, u64>, safe: u64, count: nat, first: u64) -> bool {
    exists|taken: Seq<u64>| #[trigger]
        reused(entries, safe, count, taken) && first + (count - taken.len()) > u64::MAX
}

/// Allocates pages: free pages first, then pages behind the file.
pub fn allocate_segment(
    entries: &mut BTreeMap<u64, u64>,
    safe_generation: u64,
    count: usize,
    next_page: &mut u64,
) -> (result: Result<Vec<u64>>)
    ensures
        result matches Ok(allocated) ==> segment(
            old(entries)@,
            final(entries)@,
            safe_generation,
            count as nat,
            *old(next_page),
            *final(next_page),
            allocated@,
        ),
        result matches Err(error) ==> error is Corrupt && exhausted(
            old(entries)@,
            safe_generation,
            count as nat,
            *old(next_page),
        ),
{
    let ghost before = entries@;
    let ghost first = *next_page;
    let reusable = take_reusable(entries, safe_generation, count);
    let ghost taken = pages_in(reusable@);
    let mut allocated: Vec<u64> = Vec::new();
    let mut index: usize = 0;
    while index < reusable.len()
        invariant
            index <= reusable@.len(),
            taken == pages_in(reusable@),
            allocated@ == taken.take(index as int),
        decreases reusable@.len() - index,
    {
        allocated.push(reusable[index].0);
        index = index + 1;
        assert(allocated@ =~= taken.take(index as int));
    }
    assert(allocated@ =~= taken);
    proof {
        assert(reused(before, safe_generation, count as nat, taken));
        lemma_reused(before, safe_generation, count as nat, taken);
        assert(taken + fresh(first, 0) =~= taken);
    }
    while allocated.len() < count
        invariant
            taken.len() <= allocated@.len() <= count,
            before == old(entries)@,
            first == *old(next_page),
            reused(before, safe_generation, count as nat, taken),
            entries@ == before.remove_keys(taken.to_set()),
            *next_page == first + (allocated@.len() - taken.len()),
            allocated@ == taken + fresh(first, (allocated@.len() - taken.len()) as nat),
        decreases count - allocated@.len(),
    {
        allocated.push(*next_page);
        *next_page = match next_page.checked_add(1) {
            Some(next) => next,
            None => {
                assert(exhausted(before, safe_generation, count as nat, first));
                return Err(corrupt("database page count overflow"));
            },
        };
        assert(allocated@ =~= taken + fresh(first, (allocated@.len() - taken.len()) as nat));
    }
    assert(segment(
        before,
        entries@,
        safe_generation,
        count as nat,
        first,
        *next_page,
        allocated@,
    ));
    Ok(allocated)
}

/// Whether no free page may be used again yet.
pub open spec fn none_aged(entries: Map<u64, u64>, safe: u64) -> bool {
    forall|page: u64| #[trigger] entries.contains_key(page) ==> entries[page] >= safe
}

/// A segment takes fresh pages only where no page is left that may be used again.
pub proof fn lemma_segment_exhausts(
    before: Map<u64, u64>,
    after: Map<u64, u64>,
    safe: u64,
    count: nat,
    first: u64,
    next: u64,
    allocated: Seq<u64>,
)
    requires
        segment(before, after, safe, count, first, next, allocated),
    ensures
        first <= next,
        none_aged(before, safe) || next > first ==> none_aged(after, safe),
{
    let taken = choose|taken: Seq<u64>| #[trigger]
        reused(before, safe, count, taken) && after == before.remove_keys(taken.to_set()) && next
            == first + (count - taken.len()) && allocated == taken + fresh(
            first,
            (count - taken.len()) as nat,
        );
    lemma_reused(before, safe, count, taken);
    if next > first {
        let pages = choose|pages: Seq<u64>| #[trigger]
            eligible(pages, before, safe) && picked(pages, count as int, taken);
        if exists|start: int| extent(pages, start, count as int) {
            let start = choose|start: int| #[trigger]
                extent(pages, start, count as int) && (forall|earlier: int|
                    earlier < start ==> !#[trigger] extent(pages, earlier, count as int)) && taken
                    == pages.subrange(start, start + count);
            assert(taken.len() == count);
        }
        assert(taken =~= pages);
        assert forall|page: u64| #[trigger] after.contains_key(page) implies after[page] >= safe by {
            if after[page] < safe {
                assert(pages.contains(page));
            }
        }
    }
}

/// Reused and fresh pages are distinct where every free page lies in the file.
pub proof fn lemma_segment(
    before: Map<u64, u64>,
    after: Map<u64, u64>,
    safe: u64,
    count: nat,
    first: u64,
    next: u64,
    allocated: Seq<u64>,
)
    requires
        segment(before, after, safe, count, first, next, allocated),
        forall|page: u64| #[trigger] before.contains_key(page) ==> page < first,
    ensures
        granted(before, after, safe, first, next, allocated),
        allocated.len() == count,
{
    let taken = choose|taken: Seq<u64>| #[trigger]
        reused(before, safe, count, taken) && after == before.remove_keys(taken.to_set()) && next
            == first + (count - taken.len()) && allocated == taken + fresh(
            first,
            (count - taken.len()) as nat,
        );
    lemma_reused(before, safe, count, taken);
    let both = allocated;
    assert forall|page: u64| both.to_set().contains(page) == (taken.to_set().contains(page) || (
    first <= page < next)) by {
        if both.contains(page) {
            let i = choose|i: int| 0 <= i < both.len() && both[i] == page;
            if i < taken.len() {
                assert(taken[i] == page);
            }
        }
        if taken.contains(page) {
            let i = choose|i: int| 0 <= i < taken.len() && taken[i] == page;
            assert(both[i] == page);
        }
        if first <= page < next {
            assert(both[taken.len() + (page - first)] == page);
        }
    }
    assert(after =~= before.remove_keys(both.to_set()));
    assert forall|page: u64| first <= page < next implies #[trigger] both.contains(page) by {
        assert(both.to_set().contains(page));
    }
    assert forall|i: int, j: int| 0 <= i < both.len() && 0 <= j < both.len() && i != j implies
        both[i] != both[j] by {
        let n = taken.len();
        if i < n && j >= n {
            assert(before.contains_key(taken[i]));
        } else if i >= n && j < n {
            assert(before.contains_key(taken[j]));
        }
    }
}

/// The sum of the counts is the number of readers: none for no generation, and setting the
/// count of one generation changes the sum by as much.
pub proof fn law_readers_are_counted(counts: Map<u64, u64>, generation: u64, count: u64)
    requires
        counts.dom().finite(),
    ensures
        sum_of(Map::<u64, u64>::empty()) == 0,
        sum_of(counts.insert(generation, count)) + (if counts.contains_key(generation) {
            counts[generation] as nat
        } else {
            0
        }) == sum_of(counts) + count,
        counts.contains_key(generation) ==> sum_of(counts.remove(generation)) + counts[generation]
            == sum_of(counts),
{
    assert(Map::<u64, u64>::empty().dom() =~= Set::<u64>::empty());
    lemma_sum_insert(counts, 0x1_0000_0000_0000_0000, generation, count);
}

/// An ascending sequence that holds consecutive numbers holds them side by side.
proof fn lemma_side_by_side(pages: Seq<u64>, at: int, n: int)
    requires
        0 <= at < pages.len(),
        n > 0,
        forall|i: int, j: int|
            0 <= i < j < pages.len() ==> (#[trigger] pages[i]) < (#[trigger] pages[j]),
        pages[at] + n - 1 <= u64::MAX,
        forall|k: int| 0 <= k < n ==> #[trigger] pages.contains((pages[at] + k) as u64),
    ensures
        extent(pages, at, n),
    decreases n,
{
    if n > 1 {
        lemma_side_by_side(pages, at, n - 1);
        let last = (pages[at] + (n - 1)) as u64;
        assert(pages.contains(last));
        let i = choose|i: int| 0 <= i < pages.len() && pages[i] == last;
        assert(pages[at + n - 2] == pages[at] + (n - 2));
        if i < at + n - 1 {
            if i < at + n - 2 {
                assert(pages[i] < pages[at + n - 2]);
            }
        } else if i > at + n - 1 {
            assert(pages[at + n - 2] < pages[at + n - 1]);
            assert(pages[at + n - 1] < pages[i]);
        }
    }
}

/// What pages a writer gets: as many as it asked for, no page twice, free pages that may be
/// used again before pages behind the file, which follow each other. Where so many free pages
/// lie side by side, it gets the first ones that do; otherwise none of the free pages that are
/// left comes before one that it got.
pub proof fn law_allocation(
    before: Map<u64, u64>,
    after: Map<u64, u64>,
    safe: u64,
    count: nat,
    first: u64,
    next: u64,
    allocated: Seq<u64>,
)
    requires
        segment(before, after, safe, count, first, next, allocated),
        forall|page: u64| #[trigger] before.contains_key(page) ==> page < first,
    ensures
        allocated.len() == count,
        allocated.no_duplicates(),
        first <= next <= first + count,
        forall|k: int|
            0 <= k < count - (next - first) ==> before.contains_key(#[trigger] allocated[k])
                && before[allocated[k]] < safe,
        forall|k: int|
            count - (next - first) <= k < count ==> #[trigger] allocated[k] == first + (k - (count - (
            next - first))),
        forall|page: u64| #[trigger]
            after.contains_key(page) <==> before.contains_key(page) && !allocated.contains(page),
        forall|page: u64| #[trigger] after.contains_key(page) ==> after[page] == before[page],
        next > first ==> forall|page: u64| #[trigger]
            after.contains_key(page) ==> after[page] >= safe,
        forall|start: u64|
            count > 0 && start + count - 1 <= u64::MAX && #[trigger] before.contains_key(start)
                && (forall|k: int|
                0 <= k < count ==> before.contains_key(#[trigger] ((start + k) as u64))
                    && before[(start + k) as u64] < safe) ==> next == first && allocated[0] <= start
                && forall|k: int| 0 <= k < count ==> #[trigger] allocated[k] == allocated[0] + k,
        (forall|k: int| 0 <= k < count ==> #[trigger] allocated[k] == allocated[0] + k)
            || forall|page: u64, k: int|
            #![trigger after.contains_key(page), allocated[k]]
            after.contains_key(page) && after[page] < safe && 0 <= k < count ==> allocated[k]
                < page,
{
    lemma_segment(before, after, safe, count, first, next, allocated);
    lemma_segment_exhausts(before, after, safe, count, first, next, allocated);
    let taken = choose|taken: Seq<u64>| #[trigger]
        reused(before, safe, count, taken) && after == before.remove_keys(taken.to_set()) && next
            == first + (count - taken.len()) && allocated == taken + fresh(
            first,
            (count - taken.len()) as nat,
        );
    lemma_reused(before, safe, count, taken);
    assert forall|page: u64| #[trigger] after.contains_key(page) <==> before.contains_key(page)
        && !allocated.contains(page) by {
        assert(allocated.to_set().contains(page) == allocated.contains(page));
    }
    assert forall|k: int| 0 <= k < taken.len() implies before.contains_key(#[trigger] allocated[k])
        && before[allocated[k]] < safe by {
        assert(allocated[k] == taken[k]);
    }
    if count > 0 {
        let pages = choose|pages: Seq<u64>| #[trigger]
            eligible(pages, before, safe) && picked(pages, count as int, taken);
        assert forall|start: u64|
            start + count - 1 <= u64::MAX && #[trigger] before.contains_key(start) && (forall|
                k: int,
            |
                0 <= k < count ==> before.contains_key(#[trigger] ((start + k) as u64))
                    && before[(start + k) as u64] < safe) implies next == first && allocated[0]
            <= start && forall|k: int| 0 <= k < count ==> #[trigger] allocated[k] == allocated[0]
            + k by {
            assert forall|k: int| 0 <= k < count implies #[trigger] pages.contains(
                (start + k) as u64,
            ) by {
                assert(before.contains_key((start + k) as u64));
            }
            assert(pages.contains((start + 0) as u64));
            let at = choose|at: int| 0 <= at < pages.len() && pages[at] == start;
            lemma_side_by_side(pages, at, count as int);
            let from = choose|from: int| #[trigger]
                extent(pages, from, count as int) && (forall|earlier: int|
                    earlier < from ==> !#[trigger] extent(pages, earlier, count as int)) && taken
                    == pages.subrange(from, from + count);
            assert(from <= at);
            assert(taken.len() == count);
            assert(allocated =~= taken);
            assert(allocated[0] == pages[from]);
            if from < at {
                assert(pages[from] < pages[at]);
            }
            assert forall|k: int| 0 <= k < count implies #[trigger] allocated[k] == allocated[0]
                + k by {
                assert(pages[from + k] == pages[from] + k);
            }
        }
        if exists|from: int| extent(pages, from, count as int) {
            let from = choose|from: int| #[trigger]
                extent(pages, from, count as int) && (forall|earlier: int|
                    earlier < from ==> !#[trigger] extent(pages, earlier, count as int)) && taken
                    == pages.subrange(from, from + count);
            assert(allocated =~= taken);
            assert forall|k: int| 0 <= k < count implies #[trigger] allocated[k] == allocated[0]
                + k by {
                assert(pages[from + k] == pages[from] + k);
            }
        } else {
            assert forall|page: u64, k: int|
                #![trigger after.contains_key(page), allocated[k]]
                after.contains_key(page) && after[page] < safe && 0 <= k < count implies allocated[k]
                < page by {
                assert(pages.contains(page));
                let i = choose|i: int| 0 <= i < pages.len() && pages[i] == page;
                if next > first {
                    assert(after[page] >= safe);
                } else {
                    if i < taken.len() {
                        assert(allocated[i] == page);
                        assert(allocated.contains(page));
                    }
                    assert(pages[k] < pages[i]);
                }
            }
        }
    }
}

} // verus!
