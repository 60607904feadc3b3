//! The free tree, and the pages that a writer takes from it.

use std::collections::BTreeMap;

use actdb::cache::{Cache, Cached};
use actdb::fault::FaultDisk;
use actdb::format::{finish_page, get_u64, put_u64, PAGE_HEADER, PAGE_SIZE, PAGE_SIZE_U64};
use actdb::free::{build, load, take_reusable, Layout, LEAF_CAPACITY};
use actdb::io::{set_len, write_page};
use actdb::space::{allocate_segment, generation_counts, reusable_count, sum_counts};
use actdb::{Error, Result};

#[test]
fn load_should_reject_separator_that_does_not_match_right_child() -> Result<()> {
    let mut file = FaultDisk::new();
    let page_count = 2_000;
    set_len(&mut file, page_count * PAGE_SIZE_U64)?;
    let entries = (100..100 + LEAF_CAPACITY as u64 + 1)
        .map(|page| (page, 1))
        .collect::<BTreeMap<_, _>>();
    let layout = Layout::for_entries(entries.len());
    let allocations = (2..2 + layout.page_count() as u64).collect::<Vec<_>>();
    let mut built = build(&entries, &layout, &allocations)?;
    let root_id = built.root;
    let (_, root) = built
        .pages
        .iter_mut()
        .find(|(page, _)| *page == root_id)
        .expect("free-tree root was not built");
    let separator = get_u64(root, PAGE_HEADER)?;
    put_u64(root, PAGE_HEADER, separator + 1);
    finish_page(root);
    for (page, bytes) in built.pages {
        write_page(&mut file, page, &bytes)?;
    }

    let mut reader = Cached {
        storage: file,
        cache: Cache::new(PAGE_SIZE * 4),
    };
    assert!(matches!(
        load(&mut reader, built.root, page_count),
        Err(Error::Corrupt(_))
    ));
    Ok(())
}

fn stored(entries: &BTreeMap<u64, u64>) -> Result<(FaultDisk, u64)> {
    let mut file = FaultDisk::new();
    let layout = Layout::for_entries(entries.len());
    let allocations = (2..2 + layout.page_count() as u64).collect::<Vec<_>>();
    let built = build(entries, &layout, &allocations)?;
    for (page, bytes) in &built.pages {
        write_page(&mut file, *page, bytes)?;
    }
    Ok((file, built.root))
}

#[test]
fn built_free_tree_should_load_with_the_same_records() -> Result<()> {
    for count in [0_u64, 1, 253, 254, 1_000, 70_000] {
        let entries = (0..count)
            .map(|number| (1_000 + 3 * number, number % 7))
            .collect::<BTreeMap<_, _>>();
        let (file, root) = stored(&entries)?;
        let mut reader = Cached {
            storage: file,
            cache: Cache::new(PAGE_SIZE * 4),
        };
        let loaded = load(&mut reader, root, 1_000_000)?;
        assert!(loaded.entries == entries);
        assert_eq!(
            loaded.pages.len(),
            Layout::for_entries(entries.len()).page_count()
        );
    }
    Ok(())
}

#[test]
fn layout_should_have_as_few_pages_as_the_fanout_allows() {
    assert_eq!(Layout::for_entries(0).page_count(), 1);
    assert_eq!(Layout::for_entries(253).page_count(), 1);
    assert_eq!(Layout::for_entries(254).page_count(), 3);
    assert_eq!(Layout::for_entries(253 * 254).page_count(), 255);
    assert_eq!(Layout::for_entries(253 * 254 + 1).page_count(), 258);
}

#[test]
fn free_tree_with_a_wrong_number_of_pages_should_be_refused() {
    let entries = BTreeMap::from([(10, 1)]);
    let layout = Layout::for_entries(entries.len());
    assert!(matches!(
        build(&entries, &layout, &vec![2, 3]),
        Err(Error::Corrupt(_))
    ));
}

#[test]
fn reuse_should_prefer_the_first_run_of_old_pages() {
    let mut entries = BTreeMap::from([(4, 1), (6, 1), (7, 1), (8, 5), (9, 1), (10, 1), (11, 1)]);
    assert_eq!(take_reusable(&mut entries, 5, 2), vec![(6, 1), (7, 1)]);
    assert_eq!(take_reusable(&mut entries, 5, 3), vec![(9, 1), (10, 1), (11, 1)]);
    assert_eq!(take_reusable(&mut entries, 5, 2), vec![(4, 1)]);
    assert!(entries == BTreeMap::from([(8, 5)]));
    assert!(take_reusable(&mut entries, 5, 1).is_empty());
    assert_eq!(take_reusable(&mut entries, 6, 1), vec![(8, 5)]);
}

#[test]
fn segment_should_continue_behind_the_file() -> Result<()> {
    let mut entries = BTreeMap::from([(4, 1), (9, 3)]);
    let mut next_page = 20;
    assert_eq!(
        allocate_segment(&mut entries, 2, 3, &mut next_page)?,
        vec![4, 20, 21]
    );
    assert_eq!(next_page, 22);
    assert!(entries == BTreeMap::from([(9, 3)]));
    next_page = u64::MAX;
    assert!(matches!(
        allocate_segment(&mut entries, 2, 1, &mut next_page),
        Err(Error::Corrupt(_))
    ));
    Ok(())
}

#[test]
fn counts_should_be_those_of_each_generation() {
    let entries = BTreeMap::from([(4, 1), (5, 3), (6, 1), (7, 4)]);
    let counts = generation_counts(&entries);
    assert!(counts == BTreeMap::from([(1, 2), (3, 1), (4, 1)]));
    assert_eq!(reusable_count(&counts, 0), 0);
    assert_eq!(reusable_count(&counts, 3), 2);
    assert_eq!(reusable_count(&counts, 5), 4);
    assert_eq!(sum_counts(&counts), Some(4));
    assert_eq!(sum_counts(&BTreeMap::from([(1, u64::MAX), (2, 1)])), None);
}

#[test]
fn free_tree_pages_should_come_in_order() -> Result<()> {
    let entries = (100..100 + LEAF_CAPACITY as u64 + 1)
        .map(|page| (page, 1))
        .collect::<BTreeMap<_, _>>();
    let layout = Layout::for_entries(entries.len());
    let built = build(&entries, &layout, &vec![9, 3, 5])?;
    let ids = built.pages.iter().map(|(page, _)| *page).collect::<Vec<_>>();
    assert_eq!(ids, vec![3, 5, 9]);
    Ok(())
}
