//! The public interface.

use actdb::fault::FaultDisk;
use actdb::{Bound, Database, Durability, Error, Options, Result, Storage};

const PAGE_SIZE: usize = 4096;

fn reopened(database: Database<FaultDisk>) -> Result<Database<FaultDisk>> {
    Database::open(database.source.storage)
}

fn length(database: &Database<FaultDisk>) -> u64 {
    database.source.storage.len().unwrap()
}

fn get(database: &mut Database<FaultDisk>, key: &[u8]) -> Result<Option<Vec<u8>>> {
    let read = database.read()?;
    let value = read.get(database, key)?;
    database.release(read);
    Ok(value.map(|value| value.as_slice().to_vec()))
}

fn page_at(image: &[u8], page_id: u64) -> &[u8] {
    &image[page_id as usize * PAGE_SIZE..(page_id as usize + 1) * PAGE_SIZE]
}

fn u64_at(bytes: &[u8], offset: usize) -> u64 {
    u64::from_le_bytes(bytes[offset..offset + 8].try_into().unwrap())
}

fn leftmost_tree_page_count(database: &Database<FaultDisk>) -> u64 {
    let image = database.source.storage.durable_image();
    let first = u64_at(page_at(&image, 0), 16);
    let second = u64_at(page_at(&image, 1), 16);
    let latest = if second >= first { 1 } else { 0 };
    let mut page_id = u64_at(page_at(&image, latest), 24);
    let mut count = 1;
    while page_at(&image, page_id)[0] == 2 {
        page_id = u64_at(page_at(&image, page_id), 8);
        count += 1;
    }
    count
}

#[test]
fn committed_values_should_persist_across_reopen() -> Result<()> {
    let mut database = Database::open(FaultDisk::new())?;
    let mut write = database.write();
    write.put(&mut database, b"alpha", b"one")?;
    write.put(&mut database, b"beta", b"two")?;
    write.commit(&mut database)?;
    let mut database = reopened(database)?;
    assert_eq!(get(&mut database, b"alpha")?.as_deref(), Some(&b"one"[..]));
    Ok(())
}

#[test]
fn dropped_write_should_roll_back() -> Result<()> {
    let mut database = Database::open(FaultDisk::new())?;
    {
        let mut write = database.write();
        write.put(&mut database, b"key", b"value")?;
    }
    assert!(database.read()?.is_empty());
    Ok(())
}

#[test]
fn overflow_value_should_round_trip() -> Result<()> {
    let mut database = Database::open(FaultDisk::new())?;
    let value = vec![42_u8; 4096 * 3];
    let mut write = database.write();
    write.put(&mut database, b"large", &value)?;
    write.commit(&mut database)?;
    assert_eq!(
        get(&mut database, b"large")?.as_deref(),
        Some(value.as_slice())
    );
    Ok(())
}

#[test]
fn scan_should_honor_all_bound_kinds() -> Result<()> {
    let mut database = Database::open(FaultDisk::new())?;
    let mut write = database.write();
    for key in [b"a", b"b", b"c", b"d"] {
        write.put(&mut database, key, key)?;
    }
    write.commit(&mut database)?;
    let read = database.read()?;
    let mut scan = read.scan(&mut database, Bound::Included(b"b"), Bound::Excluded(b"d"))?;
    let mut keys = Vec::new();
    while let Some((key, _)) = scan.next() {
        keys.push(key);
    }
    assert_eq!(keys, vec![b"b".to_vec(), b"c".to_vec()]);
    Ok(())
}

#[test]
fn oversized_keys_should_return_structured_error() -> Result<()> {
    let mut database = Database::open(FaultDisk::new())?;
    let read = database.read()?;
    assert!(matches!(
        read.get(&mut database, &vec![0; 1025]),
        Err(Error::KeyTooLarge {
            actual: 1025,
            maximum: 1024
        })
    ));
    Ok(())
}

#[test]
fn single_inline_update_should_append_only_the_tree_path() -> Result<()> {
    let mut database = Database::open(FaultDisk::new())?;
    let mut initial = database.write();
    for number in 0_u32..5_000 {
        initial.put(&mut database, &number.to_be_bytes(), b"initial-value")?;
    }
    initial.commit(&mut database)?;

    let path_pages = leftmost_tree_page_count(&database);
    let length_before = length(&database);

    let mut update = database.write();
    update.put(&mut database, &0_u32.to_be_bytes(), b"replacement")?;
    update.commit(&mut database)?;
    let appended_pages = (length(&database) - length_before) / PAGE_SIZE as u64;
    assert_eq!(appended_pages, path_pages + 1);
    Ok(())
}

#[test]
fn repeated_updates_to_one_leaf_should_write_the_path_once() -> Result<()> {
    let mut database = Database::open(FaultDisk::new())?;
    let mut initial = database.write();
    for number in 0_u32..5_000 {
        initial.put(&mut database, &number.to_be_bytes(), b"initial-value")?;
    }
    initial.commit(&mut database)?;

    let path_pages = leftmost_tree_page_count(&database);
    let length_before = length(&database);

    let mut update = database.write();
    for revision in 0_u32..100 {
        update.put(&mut database, &0_u32.to_be_bytes(), &revision.to_le_bytes())?;
    }
    update.commit(&mut database)?;
    let appended_pages = (length(&database) - length_before) / PAGE_SIZE as u64;
    assert_eq!(appended_pages, path_pages + 1);
    Ok(())
}

#[test]
fn unchanged_put_should_not_append_tree_pages() -> Result<()> {
    let mut database = Database::open(FaultDisk::new())?;
    let mut initial = database.write();
    initial.put(&mut database, b"key", b"value")?;
    initial.commit(&mut database)?;
    let length_before = length(&database);

    let mut unchanged = database.write();
    unchanged.put(&mut database, b"key", b"value")?;
    unchanged.commit(&mut database)?;
    assert_eq!(length(&database), length_before);
    Ok(())
}

#[test]
fn overflow_update_should_append_only_path_and_new_chain() -> Result<()> {
    const OVERFLOW_PAYLOAD: usize = PAGE_SIZE - 4 - 16;

    let mut database = Database::open(FaultDisk::new())?;
    let original = vec![1_u8; OVERFLOW_PAYLOAD * 2 + 7];
    let replacement = vec![2_u8; OVERFLOW_PAYLOAD * 3 + 9];
    let mut initial = database.write();
    initial.put(&mut database, b"key", &original)?;
    initial.commit(&mut database)?;

    let path_pages = leftmost_tree_page_count(&database);
    let length_before = length(&database);

    let mut update = database.write();
    update.put(&mut database, b"key", &replacement)?;
    update.commit(&mut database)?;
    let appended_pages = (length(&database) - length_before) / PAGE_SIZE as u64;
    let overflow_pages = replacement.len().div_ceil(OVERFLOW_PAYLOAD) as u64;
    assert_eq!(appended_pages, path_pages + overflow_pages + 1);
    Ok(())
}

#[test]
fn failed_operation_should_poison_only_its_transaction() -> Result<()> {
    let mut database = Database::open(FaultDisk::new())?;
    let length_before = length(&database);
    let mut failed = database.write();
    assert!(matches!(
        failed.put(&mut database, &vec![0; 1_025], b"value"),
        Err(Error::KeyTooLarge { .. })
    ));
    assert!(matches!(
        failed.get(&mut database, b"key"),
        Err(Error::TransactionClosed)
    ));
    assert!(matches!(
        failed.commit(&mut database),
        Err(Error::TransactionClosed)
    ));
    assert_eq!(length(&database), length_before);

    let mut next = database.write();
    next.put(&mut database, b"key", b"value")?;
    next.commit(&mut database)?;
    assert_eq!(get(&mut database, b"key")?.as_deref(), Some(&b"value"[..]));
    Ok(())
}

#[test]
fn deleting_every_key_should_collapse_to_an_empty_root() -> Result<()> {
    let mut database = Database::open(FaultDisk::new())?;
    let mut initial = database.write();
    for number in 0_u32..5_000 {
        initial.put(&mut database, &number.to_be_bytes(), b"value")?;
    }
    initial.commit(&mut database)?;

    let mut deletion = database.write();
    for number in 0_u32..5_000 {
        assert!(deletion.delete(&mut database, &number.to_be_bytes())?);
    }
    deletion.commit(&mut database)?;

    let mut reopened = reopened(database)?;
    assert!(reopened.read()?.is_empty());
    Ok(())
}

#[test]
fn transaction_should_see_its_own_changes() -> Result<()> {
    let mut database = Database::open(FaultDisk::new())?;
    let mut write = database.write();
    assert_eq!(write.get(&mut database, b"key")?, None);
    write.put(&mut database, b"key", b"value")?;
    assert_eq!(write.get(&mut database, b"key")?, Some(b"value".to_vec()));
    assert!(write.delete(&mut database, b"key")?);
    assert!(!write.delete(&mut database, b"key")?);
    assert_eq!(write.get(&mut database, b"key")?, None);
    assert_eq!(write.item_count, 0);
    Ok(())
}

#[test]
fn empty_keys_and_values_should_be_stored() -> Result<()> {
    let mut database = Database::open(FaultDisk::new())?;
    let mut write = database.write();
    write.put(&mut database, b"", b"")?;
    write.commit(&mut database)?;
    assert_eq!(get(&mut database, b"")?, Some(Vec::new()));
    let read = database.read()?;
    assert!(read.contains_key(&mut database, b"")?);
    assert!(!read.contains_key(&mut database, b"a")?);
    assert_eq!(read.len(), 1);
    Ok(())
}

#[test]
fn values_around_the_inline_limit_should_round_trip() -> Result<()> {
    let mut database = Database::open(FaultDisk::new())?;
    for size in [1_023_usize, 1_024, 1_025, 4_076, 4_077, 8_152] {
        let value = vec![size as u8; size];
        let mut write = database.write();
        write.put(&mut database, b"key", &value)?;
        write.commit(&mut database)?;
        assert_eq!(get(&mut database, b"key")?, Some(value));
    }
    Ok(())
}

#[test]
fn scan_bounds_should_be_open_or_closed_as_asked() -> Result<()> {
    let mut database = Database::open(FaultDisk::new())?;
    let mut write = database.write();
    for key in [b"a", b"b", b"c"] {
        write.put(&mut database, key, b"x")?;
    }
    write.commit(&mut database)?;
    let read = database.read()?;
    let mut counted = Vec::new();
    for (start, end) in [
        (Bound::Unbounded, Bound::Unbounded),
        (Bound::Excluded(b"a"), Bound::Included(b"c")),
        (Bound::Included(b"b"), Bound::Included(b"b")),
        (Bound::Excluded(b"c"), Bound::Unbounded),
        (Bound::Included(b"c"), Bound::Excluded(b"a")),
    ] {
        counted.push(read.scan(&mut database, start, end)?.len());
    }
    assert_eq!(counted, vec![3, 2, 1, 0, 0]);
    assert!(matches!(
        read.scan(&mut database, Bound::Included(&[0; 1_025]), Bound::Unbounded),
        Err(Error::KeyTooLarge { .. })
    ));
    Ok(())
}

#[test]
fn small_cache_should_be_an_invalid_option() {
    let options = Options::new().cache_capacity(2 * PAGE_SIZE - 1);
    assert!(matches!(
        Database::open_with_options(FaultDisk::new(), &options),
        Err(Error::InvalidOption(_))
    ));
    let options = Options::new().cache_capacity(2 * PAGE_SIZE);
    assert!(Database::open_with_options(FaultDisk::new(), &options).is_ok());
}

#[test]
fn relaxed_commit_should_become_durable_on_sync() -> Result<()> {
    let options = Options::new().durability(Durability::Relaxed);
    let mut database = Database::open_with_options(FaultDisk::new(), &options)?;
    let mut write = database.write();
    write.put(&mut database, b"key", b"value")?;
    write.commit(&mut database)?;
    let before = database.source.storage.durable_image();
    let mut lost = Database::open(FaultDisk::from_durable(before))?;
    assert_eq!(get(&mut lost, b"key")?, None);
    database.sync()?;
    let after = database.source.storage.durable_image();
    let mut kept = Database::open(FaultDisk::from_durable(after))?;
    assert_eq!(get(&mut kept, b"key")?, Some(b"value".to_vec()));
    Ok(())
}

#[test]
fn leaf_that_no_two_pages_hold_should_be_split_in_three() -> Result<()> {
    let mut database = Database::open(FaultDisk::new())?;
    let mut write = database.write();
    let sizes = [2_063_usize - 16 - 1_024, 2_064 - 16 - 1_024, 1_997 - 16 - 1_024];
    for number in [0_usize, 2, 1] {
        let key = vec![number as u8; 1_024];
        write.put(&mut database, &key, &vec![number as u8; sizes[number]])?;
    }
    for number in 0_usize..3 {
        assert_eq!(
            write.get(&mut database, &vec![number as u8; 1_024])?,
            Some(vec![number as u8; sizes[number]])
        );
    }
    write.commit(&mut database)?;
    assert_eq!(database.publication.current.meta.user_tree_pages, 4);
    for number in 0_usize..3 {
        assert_eq!(
            get(&mut database, &vec![number as u8; 1_024])?,
            Some(vec![number as u8; sizes[number]])
        );
    }
    Ok(())
}

#[test]
fn separators_that_outgrow_their_page_should_split_it() -> Result<()> {
    let mut database = Database::open(FaultDisk::new())?;
    let mut write = database.write();
    for number in 0_u16..400 {
        let short = number.to_be_bytes();
        let mut long = short.to_vec();
        long.resize(1_000, 7);
        write.put(&mut database, &short, &vec![1; 900])?;
        write.put(&mut database, &long, &vec![2; 1_000])?;
    }
    write.commit(&mut database)?;
    let mut write = database.write();
    for number in 0_u16..400 {
        assert!(write.delete(&mut database, &number.to_be_bytes())?);
    }
    write.commit(&mut database)?;
    let read = database.read()?;
    let mut scan = read.scan(&mut database, Bound::Unbounded, Bound::Unbounded)?;
    for number in 0_u16..400 {
        let mut long = number.to_be_bytes().to_vec();
        long.resize(1_000, 7);
        assert_eq!(scan.next(), Some((long, vec![2; 1_000])));
    }
    assert_eq!(scan.next(), None);
    database.release(read);
    Ok(())
}

#[test]
fn transaction_in_memory_should_not_need_the_storage() -> Result<()> {
    let mut database = Database::open(FaultDisk::new())?;
    let mut write = database.write();
    write.put(&mut database, b"first", b"one")?;
    database.source.storage.fail_at(0);
    assert_eq!(write.get(&mut database, b"first")?, Some(b"one".to_vec()));
    write.put(&mut database, b"second", b"two")?;
    assert!(write.delete(&mut database, b"first")?);
    assert_eq!(write.get(&mut database, b"first")?, None);
    Ok(())
}

#[test]
fn cached_snapshot_should_not_need_the_storage() -> Result<()> {
    let mut database = Database::open(FaultDisk::new())?;
    let mut write = database.write();
    write.put(&mut database, b"key", b"value")?;
    write.commit(&mut database)?;
    assert_eq!(get(&mut database, b"key")?, Some(b"value".to_vec()));
    database.source.storage.fail_at(0);
    assert_eq!(get(&mut database, b"key")?, Some(b"value".to_vec()));
    let read = database.read()?;
    assert!(!read.contains_key(&mut database, b"other")?);
    assert_eq!(
        read.scan(&mut database, Bound::Unbounded, Bound::Unbounded)?.len(),
        1
    );
    Ok(())
}

#[test]
fn entries_of_which_two_fill_a_page_should_find_room() -> Result<()> {
    let mut database = Database::open(FaultDisk::new())?;
    let mut write = database.write();
    for number in 0_u8..64 {
        let key = vec![number.wrapping_mul(37) % 64; 1_000];
        write.put(&mut database, &key, &vec![number; 1_014])?;
    }
    write.commit(&mut database)?;
    let read = database.read()?;
    assert_eq!(read.len(), 64);
    database.release(read);
    for number in 0_u8..64 {
        let key = vec![number.wrapping_mul(37) % 64; 1_000];
        assert_eq!(get(&mut database, &key)?, Some(vec![number; 1_014]));
    }
    Ok(())
}

#[test]
fn keys_of_one_length_should_come_and_go_without_refusal() -> Result<()> {
    let mut database = Database::open(FaultDisk::new())?;
    for round in 0_u32..4 {
        let mut write = database.write();
        for number in 0_u32..900 {
            let mut key = vec![(number.wrapping_mul(7) % 90) as u8; 200];
            key[199] = (number % 10) as u8;
            if (number + round) % 3 == 0 {
                write.delete(&mut database, &key)?;
            } else {
                write.put(&mut database, &key, &number.to_be_bytes())?;
            }
        }
        write.commit(&mut database)?;
    }
    let mut write = database.write();
    let mut removed = 0;
    for number in 0_u32..900 {
        let mut key = vec![(number.wrapping_mul(7) % 90) as u8; 200];
        key[199] = (number % 10) as u8;
        if write.delete(&mut database, &key)? {
            removed += 1;
        }
    }
    assert!(removed > 0);
    write.commit(&mut database)?;
    assert!(reopened(database)?.read()?.is_empty());
    Ok(())
}

#[test]
fn every_level_should_at_least_double_the_entries() -> Result<()> {
    let mut database = Database::open(FaultDisk::new())?;
    let mut write = database.write();
    for number in 0_u32..512 {
        let mut key = vec![0_u8; 1_000];
        key[..4].copy_from_slice(&number.wrapping_mul(229).to_be_bytes());
        write.put(&mut database, &key, b"value")?;
    }
    write.commit(&mut database)?;
    let height = leftmost_tree_page_count(&database) - 1;
    assert!(height >= 2);
    assert!(1 << height <= 512);
    Ok(())
}
