//! Free space, statistics and compaction.

use actdb::fault::FaultDisk;
use actdb::format::Meta;
use actdb::{Bound, Database, Result, Storage};

fn get(database: &mut Database<FaultDisk>, key: &[u8]) -> Result<Option<Vec<u8>>> {
    let read = database.read()?;
    let value = read.get(database, key)?;
    database.release(read);
    Ok(value.map(|value| value.as_slice().to_vec()))
}

fn put(database: &mut Database<FaultDisk>, key: &[u8], value: &[u8]) -> Result<()> {
    let mut write = database.write();
    write.put(database, key, value)?;
    write.commit(database)
}

#[test]
fn stats_should_track_logical_storage_cache_and_snapshots() -> Result<()> {
    let mut database = Database::open(FaultDisk::new())?;
    let initial = database.stats()?;
    assert_eq!(initial.logical_bytes, 0);
    assert_eq!(initial.user_tree_pages, 1);
    assert_eq!(initial.free_tree_pages, 1);

    put(&mut database, b"key", b"value")?;
    let snapshot = database.read()?;
    let populated = database.stats()?;
    assert_eq!(populated.logical_bytes, 8);
    assert_eq!(populated.pinned_snapshots, 1);
    assert_eq!(
        populated.oldest_snapshot_generation,
        Some(populated.current_generation)
    );
    assert!(populated.cache_capacity_bytes >= populated.cache_bytes);
    database.release(snapshot);
    assert_eq!(database.stats()?.pinned_snapshots, 0);
    Ok(())
}

#[test]
fn active_reader_should_defer_page_reuse_until_drop() -> Result<()> {
    let mut database = Database::open(FaultDisk::new())?;
    put(&mut database, b"key", b"zero")?;
    let reader = database.read()?;
    for revision in 1_u64..8 {
        put(&mut database, b"key", &revision.to_le_bytes())?;
    }
    let pinned = database.stats()?;
    assert_eq!(pinned.pinned_snapshots, 1);
    assert!(pinned.deferred_pages > 0);
    let value = reader.get(&mut database, b"key")?;
    assert_eq!(value.as_ref().map(|value| value.as_slice()), Some(&b"zero"[..]));

    database.release(reader);
    for revision in 8_u64..20 {
        put(&mut database, b"key", &revision.to_le_bytes())?;
    }
    let released = database.stats()?;
    assert_eq!(released.pinned_snapshots, 0);
    assert!(released.reusable_pages > 0);
    Ok(())
}

#[test]
fn repeated_updates_should_reach_a_bounded_file_size() -> Result<()> {
    let mut database = Database::open(FaultDisk::new())?;
    let mut lengths = Vec::new();
    for revision in 0_u64..100 {
        put(&mut database, b"key", &revision.to_le_bytes())?;
        lengths.push(database.source.storage.len().unwrap());
    }
    let steady = &lengths[80..];
    assert_eq!(steady.iter().min(), steady.iter().max());
    Ok(())
}

#[test]
fn compact_to_should_publish_a_canonical_file_without_touching_source() -> Result<()> {
    let mut database = Database::open(FaultDisk::new())?;
    for revision in 0_u64..20 {
        let mut write = database.write();
        write.put(&mut database, b"inline", &revision.to_le_bytes())?;
        write.put(&mut database, b"overflow", &vec![revision as u8; 9_000])?;
        write.commit(&mut database)?;
    }
    let source = database.source.storage.durable_image();
    let mut destination = FaultDisk::new();
    database.compact_to(&mut destination)?;
    assert!(database.source.storage.durable_image() == source);
    let mut compacted = Database::open(destination)?;
    assert_eq!(compacted.stats()?.current_generation, 1);
    assert_eq!(compacted.stats()?.free_pages, 0);
    assert_eq!(
        get(&mut compacted, b"inline")?.as_deref(),
        Some(&19_u64.to_le_bytes()[..])
    );
    assert_eq!(
        get(&mut compacted, b"overflow")?.as_deref(),
        Some(&vec![19; 9_000][..])
    );
    Ok(())
}

#[test]
fn detached_guard_should_keep_old_bytes_after_its_page_is_reused() -> Result<()> {
    let mut database = Database::open(FaultDisk::new())?;
    put(&mut database, b"key", b"old")?;
    let read = database.read()?;
    let guard = read.get(&mut database, b"key")?.unwrap();
    database.release(read);

    for revision in 0_u64..12 {
        put(&mut database, b"key", &revision.to_le_bytes())?;
    }
    assert_eq!(guard.as_slice(), b"old");
    assert_eq!(
        get(&mut database, b"key")?.as_deref(),
        Some(&11_u64.to_le_bytes()[..])
    );
    Ok(())
}

#[test]
fn every_page_should_be_in_use_or_free() -> Result<()> {
    let mut database = Database::open(FaultDisk::new())?;
    for revision in 0_u32..60 {
        let mut write = database.write();
        for number in 0_u32..40 {
            let key = (number * 7 + revision).to_be_bytes();
            let size = ((number * 331 + revision * 97) % 5_000) as usize;
            write.put(&mut database, &key, &vec![number as u8; size])?;
        }
        for number in 0_u32..10 {
            write.delete(&mut database, &(number * 3).to_be_bytes())?;
        }
        write.commit(&mut database)?;
        let stats = database.stats()?;
        assert_eq!(
            stats.physical_bytes / 4_096,
            2 + stats.live_pages + stats.free_pages
        );
        assert_eq!(
            stats.live_pages,
            stats.user_tree_pages + stats.free_tree_pages
        );
        assert_eq!(
            stats.deferred_pages,
            stats.free_pages - stats.reusable_pages
        );
    }
    Ok(())
}

#[test]
fn leaf_emptied_below_a_lone_child_should_be_taken_out() -> Result<()> {
    let mut database = Database::open(FaultDisk::new())?;
    for number in 0_u8..5 {
        put(&mut database, &vec![number; 1_024], &vec![number; 1_024])?;
    }
    let mut destination = FaultDisk::new();
    database.compact_to(&mut destination)?;
    let mut compacted = Database::open(destination)?;
    let mut write = compacted.write();
    assert!(write.delete(&mut compacted, &vec![4; 1_024])?);
    write.commit(&mut compacted)?;
    assert_eq!(get(&mut compacted, &vec![4; 1_024])?, None);
    assert_eq!(get(&mut compacted, &vec![3; 1_024])?, Some(vec![3; 1_024]));
    let read = compacted.read()?;
    let mut scan = read.scan(&mut compacted, Bound::Unbounded, Bound::Unbounded)?;
    for number in 0_u8..4 {
        assert_eq!(scan.next(), Some((vec![number; 1_024], vec![number; 1_024])));
    }
    assert_eq!(scan.next(), None);
    compacted.release(read);
    for number in 0_u8..4 {
        let mut write = compacted.write();
        assert!(write.delete(&mut compacted, &vec![number; 1_024])?);
        write.commit(&mut compacted)?;
    }
    let read = compacted.read()?;
    assert!(read.is_empty());
    assert!(read
        .scan(&mut compacted, Bound::Unbounded, Bound::Unbounded)?
        .is_empty());
    Ok(())
}

#[test]
fn first_commit_should_leave_the_first_generation_free() -> Result<()> {
    let mut database = Database::open(FaultDisk::new())?;
    assert_eq!(
        database.publication.current.meta,
        Meta {
            generation: 1,
            root: 2,
            page_count: 4,
            item_count: 0,
            free_root: 3,
            logical_bytes: 0,
            user_tree_pages: 1,
            free_tree_pages: 1,
            free_pages: 0,
            fallback_pages: 0,
        }
    );
    assert_eq!(database.source.storage.durable_image().len(), 4 * 4_096);
    put(&mut database, b"key", b"value")?;
    assert_eq!(
        database.publication.current.meta,
        Meta {
            generation: 2,
            root: 4,
            page_count: 6,
            item_count: 1,
            free_root: 5,
            logical_bytes: 8,
            user_tree_pages: 1,
            free_tree_pages: 1,
            free_pages: 2,
            fallback_pages: 2,
        }
    );
    assert_eq!(database.source.storage.durable_image().len(), 6 * 4_096);
    assert_eq!(
        database.free.entries.iter().map(|(page, last)| (*page, *last)).collect::<Vec<_>>(),
        vec![(2, 1), (3, 1)]
    );
    assert_eq!(database.publication.slots[0].map(|meta| meta.generation), Some(1));
    Ok(())
}

#[test]
fn pages_that_no_generation_needs_should_be_taken_before_the_file_grows() -> Result<()> {
    let mut database = Database::open(FaultDisk::new())?;
    for number in 0_u8..3 {
        put(&mut database, b"key", &[number])?;
    }
    let length = database.source.storage.durable_image().len();
    for number in 0_u8..20 {
        put(&mut database, b"key", &[number])?;
    }
    assert_eq!(database.source.storage.durable_image().len(), length);
    Ok(())
}
