//! The page cache.

use std::sync::Arc;

use actdb::cache::{Cache, Step};
use actdb::fault::FaultDisk;
use actdb::format::{finish_page, LEAF, META_PAGES, PAGE_SIZE};
use actdb::io::write_page;
use actdb::{Error, Result};

fn storage(page_count: u64) -> Result<FaultDisk> {
    let mut disk = FaultDisk::new();
    for slot in 0..META_PAGES {
        write_page(&mut disk, slot, &[0; PAGE_SIZE])?;
    }
    for page_id in META_PAGES..page_count {
        let mut page = [0; PAGE_SIZE];
        page[0] = LEAF;
        finish_page(&mut page);
        write_page(&mut disk, page_id, &page)?;
    }
    Ok(disk)
}

#[test]
fn pinned_frames_should_not_force_indexed_capacity_overflow() -> Result<()> {
    let mut cache = Cache::new(PAGE_SIZE * 2);
    let mut storage = storage(5)?;
    let first = cache.get(&mut storage, 2, 5)?;
    let second = cache.get(&mut storage, 3, 5)?;
    let unadmitted = cache.get(&mut storage, 4, 5)?;
    assert_eq!(cache.occupancy().0, 2);
    assert_eq!(cache.get(&mut storage, 4, 5)?.bytes, unadmitted.bytes);
    assert_eq!(cache.occupancy().0, 2);
    drop((first, second, unadmitted));
    Ok(())
}

#[test]
fn released_frame_should_make_room() -> Result<()> {
    let mut cache = Cache::new(PAGE_SIZE * 2);
    let mut storage = storage(5)?;
    cache.get(&mut storage, 2, 5)?;
    cache.get(&mut storage, 3, 5)?;
    let pinned = cache.get(&mut storage, 4, 5)?;
    assert_eq!(cache.occupancy().0, 2);
    assert_eq!(cache.metrics().evictions, 1);
    assert!(Arc::ptr_eq(&pinned, &cache.get(&mut storage, 4, 5)?));
    Ok(())
}

#[test]
fn page_should_be_loaded_once_and_shared() -> Result<()> {
    let mut io = storage(4)?;
    let mut cache = Cache::new(PAGE_SIZE * 4);
    let first = cache.get(&mut io, 2, 4)?;
    let second = cache.get(&mut io, 2, 4)?;
    assert!(Arc::ptr_eq(&first, &second));
    let metrics = cache.metrics();
    assert_eq!(metrics.misses, 1);
    assert_eq!(metrics.hits, 1);
    Ok(())
}

#[test]
fn second_miss_should_wait_for_the_pending_load() -> Result<()> {
    let mut io = storage(4)?;
    let mut cache = Cache::new(PAGE_SIZE * 4);
    let token = match cache.begin(2, 4, false, false)? {
        Step::Load(token) => token,
        _ => panic!("an empty cache knows no page"),
    };
    assert!(matches!(cache.begin(2, 4, false, false)?, Step::Wait));
    assert!(!cache.invalidate_from(2));
    cache.abandon(2, token);
    assert!(cache.invalidate_from(2));
    assert_eq!(cache.get(&mut io, 2, 4)?.bytes[0], LEAF);
    Ok(())
}

#[test]
fn invalidated_pages_should_be_read_again() -> Result<()> {
    let mut io = storage(4)?;
    let mut cache = Cache::new(PAGE_SIZE * 4);
    assert_eq!(cache.get(&mut io, 3, 4)?.bytes[1], 0);
    let mut page = [0; PAGE_SIZE];
    page[0] = LEAF;
    page[1] = 7;
    finish_page(&mut page);
    write_page(&mut io, 3, &page)?;
    assert_eq!(cache.get(&mut io, 3, 4)?.bytes[1], 0);
    assert!(cache.invalidate_pages(&vec![3]));
    assert_eq!(cache.get(&mut io, 3, 4)?.bytes[1], 7);
    Ok(())
}

#[test]
fn page_outside_the_snapshot_should_be_corrupt() -> Result<()> {
    let mut io = storage(4)?;
    let mut cache = Cache::new(PAGE_SIZE * 4);
    assert!(matches!(cache.get(&mut io, 1, 4), Err(Error::Corrupt(_))));
    assert!(matches!(cache.get(&mut io, 4, 4), Err(Error::Corrupt(_))));
    Ok(())
}

#[test]
fn damaged_page_should_be_corrupt_and_not_cached() -> Result<()> {
    let mut io = storage(4)?;
    let mut page = [0; PAGE_SIZE];
    page[0] = LEAF;
    finish_page(&mut page);
    page[100] = 1;
    write_page(&mut io, 3, &page)?;
    let mut cache = Cache::new(PAGE_SIZE * 4);
    assert!(matches!(cache.get(&mut io, 3, 4), Err(Error::Corrupt(_))));
    assert_eq!(cache.occupancy().0, 0);
    Ok(())
}

#[test]
fn small_capacity_should_hold_two_pages() {
    let cache = Cache::new(0);
    let (pages, bytes, capacity) = cache.occupancy();
    assert_eq!(pages, 0);
    assert_eq!(bytes, 0);
    assert_eq!(capacity, PAGE_SIZE * 2);
}

#[test]
fn corruption_should_name_the_page() -> Result<()> {
    let mut io = storage(4)?;
    let mut cache = Cache::new(PAGE_SIZE * 4);
    match cache.get(&mut io, 1_204, 4) {
        Err(Error::Corrupt(message)) => {
            assert_eq!(message, "page 1204 is outside the snapshot")
        }
        _ => panic!("a page outside the snapshot was read"),
    }
    Ok(())
}

#[test]
fn walk_should_spare_held_and_visited_pages_once() -> Result<()> {
    let mut io = storage(5)?;
    let mut cache = Cache::new(PAGE_SIZE * 3);
    cache.get(&mut io, 2, 5)?;
    cache.get(&mut io, 3, 5)?;
    cache.meet(true);
    cache.meet(false);
    assert_eq!(cache.occupancy().0, 2);
    cache.meet(false);
    assert_eq!(cache.occupancy().0, 2);
    cache.meet(false);
    assert_eq!(cache.occupancy().0, 1);
    assert_eq!(cache.metrics().evictions, 1);
    cache.get(&mut io, 2, 5)?;
    assert_eq!(cache.metrics().hits, 1);
    cache.get(&mut io, 3, 5)?;
    assert_eq!(cache.metrics().misses, 3);
    Ok(())
}

#[test]
fn pages_kept_by_an_invalidation_should_keep_their_order() -> Result<()> {
    let mut io = storage(8)?;
    let mut cache = Cache::new(PAGE_SIZE * 3);
    for page_id in 2..5 {
        cache.get(&mut io, page_id, 8)?;
    }
    assert!(cache.invalidate_pages(&vec![2]));
    assert_eq!(cache.occupancy().0, 2);
    cache.get(&mut io, 5, 8)?;
    cache.get(&mut io, 6, 8)?;
    assert_eq!(cache.metrics().evictions, 1);
    assert_eq!(cache.metrics().loads, 5);
    for page_id in 4..7 {
        cache.get(&mut io, page_id, 8)?;
    }
    assert_eq!(cache.metrics().loads, 5);
    cache.get(&mut io, 3, 8)?;
    assert_eq!(cache.metrics().loads, 6);
    Ok(())
}
