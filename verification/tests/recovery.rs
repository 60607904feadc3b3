//! Falling back to older metadata, cutting off file tails, and crashes.

use std::collections::BTreeMap;

use actdb::cache::{Cache, Cached};
use actdb::canonical::build;
use actdb::fault::FaultDisk;
use actdb::format::{encode_meta, Meta};
use actdb::free::{self, Layout};
use actdb::io::{sync_all, write_page};
use actdb::open::{initialize, load_published};
use actdb::reader;
use actdb::space::Published;
use actdb::{Database, Durability, Error, Options, Result};

const PAGE_SIZE: usize = 4096;

fn image_with(key: &[u8], value: &[u8]) -> Result<Vec<u8>> {
    let mut database = Database::open(FaultDisk::new())?;
    let mut write = database.write();
    write.put(&mut database, key, value)?;
    write.commit(&mut database)?;
    Ok(database.source.storage.durable_image())
}

fn get(database: &mut Database<FaultDisk>, key: &[u8]) -> Result<Option<Vec<u8>>> {
    let read = database.read()?;
    let value = read.get(database, key)?;
    database.release(read);
    Ok(value.map(|value| value.as_slice().to_vec()))
}

#[test]
fn corrupt_latest_metadata_should_recover_previous_generation() -> Result<()> {
    let mut image = image_with(b"latest", b"value")?;
    image[PAGE_SIZE + 128] ^= 0xff;
    let mut database = Database::open(FaultDisk::from_durable(image))?;
    assert!(get(&mut database, b"latest")?.is_none());
    Ok(())
}

#[test]
fn trailing_failed_transaction_pages_should_be_truncated() -> Result<()> {
    let database = Database::open(FaultDisk::new())?;
    let mut image = database.source.storage.durable_image();
    let committed_len = image.len();
    image.resize(committed_len + PAGE_SIZE, 0);
    let database = Database::open(FaultDisk::from_durable(image))?;
    assert_eq!(database.source.storage.durable_image().len(), committed_len);
    Ok(())
}

#[test]
fn file_shorter_than_committed_metadata_should_be_corrupt() -> Result<()> {
    let mut image = image_with(b"key", b"value")?;
    image.truncate(PAGE_SIZE * 2);
    assert!(matches!(
        Database::open(FaultDisk::from_durable(image)),
        Err(Error::Corrupt(_))
    ));
    Ok(())
}

fn publish_test_generation(storage: &mut FaultDisk, base: Published) -> Result<()> {
    let entries = vec![(b"key".to_vec(), b"value".to_vec())];
    let built = build(storage, &entries, base.meta.page_count)?;
    let free_entries = BTreeMap::from([
        (base.meta.root, base.meta.generation),
        (base.meta.free_root, base.meta.generation),
    ]);
    let layout = Layout::for_entries(free_entries.len());
    let free_page = built.page_count;
    let built_free = free::build(&free_entries, &layout, &vec![free_page])?;
    for (page_id, page) in &built_free.pages {
        write_page(storage, *page_id, page)?;
    }
    sync_all(storage)?;
    let meta = Meta {
        generation: 2,
        root: built.root,
        page_count: free_page + 1,
        item_count: 1,
        free_root: built_free.root,
        logical_bytes: 8,
        user_tree_pages: built.page_count - base.meta.page_count,
        free_tree_pages: 1,
        free_pages: 2,
        fallback_pages: 2,
    };
    write_page(storage, 1, &encode_meta(meta))?;
    sync_all(storage)
}

#[test]
fn crash_at_each_free_tree_publication_operation_should_recover_old_or_new() -> Result<()> {
    let mut initial = FaultDisk::new();
    let base = initialize(&mut initial)?;
    let durable = initial.durable_image();

    for failure in 0..=5 {
        let mut disk = FaultDisk::from_durable(durable.clone());
        disk.fail_at(failure);
        let _ = publish_test_generation(&mut disk, base.current);
        disk.crash();
        let recovered = load_published(&mut disk)?;
        let mut pages = Cached {
            storage: disk,
            cache: Cache::new(PAGE_SIZE * 4),
        };
        let value = reader::get(
            &mut pages,
            recovered.current.meta.root,
            recovered.current.meta.page_count,
            b"key",
        )?;
        assert!(matches!(
            (
                recovered.current.meta.generation,
                value.as_ref().map(|value| value.as_slice())
            ),
            (1, None) | (2, Some(b"value"))
        ));
        let loaded = free::load(
            &mut pages,
            recovered.current.meta.free_root,
            recovered.current.meta.page_count,
        )?;
        assert!(loaded
            .pages
            .is_disjoint(&loaded.entries.keys().copied().collect()));
    }
    Ok(())
}

fn committed_state() -> Result<Vec<u8>> {
    let mut database = Database::open(FaultDisk::new())?;
    for revision in 0_u8..6 {
        let mut write = database.write();
        write.put(&mut database, b"key", &[revision; 40])?;
        write.put(&mut database, b"large", &vec![revision; 6_000])?;
        write.commit(&mut database)?;
    }
    Ok(database.source.storage.durable_image())
}

#[test]
fn crash_at_each_commit_operation_should_recover_old_or_new() -> Result<()> {
    let durable = committed_state()?;
    let mut old = 0;
    let mut new = 0;
    for failure in 0..12 {
        for torn in [0, 1, 200, 4_095] {
            let mut database = Database::open(FaultDisk::from_durable(durable.clone()))?;
            database.source.storage.fail_at(failure);
            let mut write = database.write();
            let staged = write
                .put(&mut database, b"key", &[9; 40])
                .and_then(|()| write.put(&mut database, b"large", &vec![9; 7_000]))
                .and_then(|()| write.commit(&mut database));
            let published = staged.is_ok();
            database.source.storage.crash_with_torn_last_write(torn);
            let mut recovered = Database::open(database.source.storage)?;
            let key = get(&mut recovered, b"key")?;
            let large = get(&mut recovered, b"large")?;
            if key == Some(vec![9; 40]) {
                assert_eq!(large, Some(vec![9; 7_000]));
                new += 1;
            } else {
                assert!(!published);
                assert_eq!(key, Some(vec![5; 40]));
                assert_eq!(large, Some(vec![5; 6_000]));
                old += 1;
            }
        }
    }
    assert!(old > 0 && new > 0);
    Ok(())
}

#[test]
fn reordered_write_should_never_mix_generations() -> Result<()> {
    let durable = committed_state()?;
    for failure in 0..12 {
        for survivor in 0..8 {
            let mut database = Database::open(FaultDisk::from_durable(durable.clone()))?;
            database.source.storage.fail_at(failure);
            let mut write = database.write();
            let _ = write
                .put(&mut database, b"key", &[9; 40])
                .and_then(|()| write.commit(&mut database));
            database.source.storage.crash_with_reordered_write(survivor);
            let mut recovered = Database::open(database.source.storage)?;
            let key = get(&mut recovered, b"key")?;
            assert!(key == Some(vec![5; 40]) || key == Some(vec![9; 40]));
            assert_eq!(get(&mut recovered, b"large")?, Some(vec![5; 6_000]));
        }
    }
    Ok(())
}

#[test]
fn failed_commit_should_leave_the_database_usable() -> Result<()> {
    let mut database = Database::open(FaultDisk::from_durable(committed_state()?))?;
    database.source.storage.fail_at(1);
    let mut failed = database.write();
    failed.put(&mut database, b"key", b"lost")?;
    assert!(matches!(failed.commit(&mut database), Err(Error::Io(_))));
    assert_eq!(get(&mut database, b"key")?, Some(vec![5; 40]));
    let mut next = database.write();
    next.put(&mut database, b"key", b"kept")?;
    next.commit(&mut database)?;
    let mut database = Database::open(database.source.storage)?;
    assert_eq!(get(&mut database, b"key")?, Some(b"kept".to_vec()));
    Ok(())
}

#[test]
fn relaxed_commits_should_recover_to_a_recorded_generation() -> Result<()> {
    let options = Options::new().durability(Durability::Relaxed);
    for commits in 1_u8..6 {
        let disk = FaultDisk::from_durable(committed_state()?);
        let mut database = Database::open_with_options(disk, &options)?;
        for revision in 10..10 + commits {
            let mut write = database.write();
            write.put(&mut database, b"key", &[revision; 40])?;
            write.commit(&mut database)?;
        }
        database.source.storage.crash();
        let mut recovered = Database::open(database.source.storage)?;
        let expected = if commits == 1 { 5 } else { 8 + commits };
        assert_eq!(get(&mut recovered, b"key")?, Some(vec![expected; 40]));
    }
    Ok(())
}

#[test]
fn metadata_that_cannot_be_read_should_be_an_io_error() -> Result<()> {
    let image = image_with(b"key", b"value")?;
    let mut disk = FaultDisk::from_durable(image);
    disk.fail_at(0);
    assert!(matches!(load_published(&mut disk), Err(Error::Io(_))));
    Ok(())
}

#[test]
fn initialized_storage_should_be_found_again() -> Result<()> {
    let mut disk = FaultDisk::new();
    let made = initialize(&mut disk)?;
    let found = load_published(&mut disk)?;
    assert_eq!(found.current.slot, made.current.slot);
    assert_eq!(found.current.meta, made.current.meta);
    assert_eq!(disk.durable_image().len(), 4 * PAGE_SIZE);
    Ok(())
}
