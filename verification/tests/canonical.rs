//! Where nodes lie on pages, how full they are, and what a copy can do.

use actdb::canonical::build;
use actdb::collect::child_of;
use actdb::fault::FaultDisk;
use actdb::format::{decode_meta, encode_meta, INTERNAL, LEAF, OVERFLOW};
use actdb::io::read_page;
use actdb::node::StoredValue;
use actdb::open::load_published;
use actdb::page::decode_leaf;
use actdb::{Bound, Database, Durability, Options, Result};

const PAGE_SIZE: usize = 4096;

fn page_of(disk: &mut FaultDisk, page_id: u64) -> Result<[u8; PAGE_SIZE]> {
    read_page(disk, page_id)
}

fn next_of(page: &[u8; PAGE_SIZE]) -> u64 {
    u64::from_le_bytes(page[8..16].try_into().unwrap())
}

fn count_of(page: &[u8; PAGE_SIZE]) -> usize {
    usize::from(u16::from_le_bytes([page[2], page[3]]))
}

fn children_of(page: &[u8; PAGE_SIZE], page_count: u64) -> Vec<u64> {
    let mut children = vec![next_of(page)];
    for index in 0..count_of(page) {
        children.push(child_of(page, page_count, index).1);
    }
    children
}

fn long_key(number: u32) -> Vec<u8> {
    let mut key = vec![b'k'; 900];
    key[..4].copy_from_slice(&number.to_be_bytes());
    key
}

fn keys(database: &mut Database<FaultDisk>) -> Result<Vec<Vec<u8>>> {
    let read = database.read()?;
    let mut scan = read.scan(database, Bound::Unbounded, Bound::Unbounded)?;
    let mut keys = Vec::new();
    while let Some((key, _)) = scan.next() {
        keys.push(key);
    }
    database.release(read);
    Ok(keys)
}

fn leaf_counts(database: &mut Database<FaultDisk>) -> Result<Vec<usize>> {
    let meta = load_published(&mut database.source.storage)?.current.meta;
    let root = page_of(&mut database.source.storage, meta.root)?;
    if root[0] == LEAF {
        return Ok(vec![decode_leaf(&root).len()]);
    }
    let mut counts = Vec::new();
    for child in children_of(&root, meta.page_count) {
        counts.push(decode_leaf(&page_of(&mut database.source.storage, child)?).len());
    }
    Ok(counts)
}

fn with_entries(numbers: &[u8]) -> Result<Database<FaultDisk>> {
    let mut database = Database::open(FaultDisk::new())?;
    let mut write = database.write();
    for number in numbers {
        write.put(&mut database, &[*number; 600], &[*number; 64])?;
    }
    write.commit(&mut database)?;
    Ok(database)
}

fn copied(count: u32) -> Result<FaultDisk> {
    let mut database = Database::open(FaultDisk::new())?;
    let mut write = database.write();
    for number in 0..count {
        write.put(&mut database, &long_key(number), b"value")?;
    }
    write.commit(&mut database)?;
    let mut target = FaultDisk::new();
    database.compact_to(&mut target)?;
    Ok(target)
}

#[test]
fn chain_should_lie_before_its_leaf_with_its_last_page_first() -> Result<()> {
    let mut disk = FaultDisk::new();
    let rows = vec![
        (b"a".to_vec(), b"small".to_vec()),
        (b"b".to_vec(), vec![7_u8; 2 * 4_076 + 1]),
        (b"c".to_vec(), vec![9_u8; 4_076 + 2]),
    ];
    let built = build(&mut disk, &rows, 2)?;
    assert_eq!(built.root, 7);
    assert_eq!(built.page_count, 8);
    let leaf = page_of(&mut disk, 7)?;
    assert_eq!(leaf[0], LEAF);
    let entries = decode_leaf(&leaf);
    assert!(matches!(entries[0].value, StoredValue::Inline(_)));
    assert!(matches!(
        entries[1].value,
        StoredValue::Overflow { head: 4, .. }
    ));
    assert!(matches!(
        entries[2].value,
        StoredValue::Overflow { head: 6, .. }
    ));
    let expected = [(4, 3, 4_076), (3, 2, 4_076), (2, 0, 1), (6, 5, 4_076), (5, 0, 2)];
    for (page_id, next, length) in expected {
        let page = page_of(&mut disk, page_id)?;
        assert_eq!(page[0], OVERFLOW);
        assert_eq!((next_of(&page), count_of(&page)), (next, length));
    }
    Ok(())
}

#[test]
fn internal_nodes_should_follow_the_leaves_level_by_level() -> Result<()> {
    let mut disk = FaultDisk::new();
    let rows = (0_u32..24)
        .map(|number| (long_key(number), b"value".to_vec()))
        .collect::<Vec<_>>();
    let built = build(&mut disk, &rows, 2)?;
    for page_id in 2..8 {
        let page = page_of(&mut disk, page_id)?;
        assert_eq!(page[0], LEAF);
        assert_eq!(decode_leaf(&page).len(), 4);
    }
    let first = page_of(&mut disk, 8)?;
    let second = page_of(&mut disk, 9)?;
    let root = page_of(&mut disk, 10)?;
    assert_eq!([first[0], second[0], root[0]], [INTERNAL; 3]);
    assert_eq!(children_of(&first, 11), vec![2, 3, 4, 5, 6]);
    assert_eq!(children_of(&second, 11), vec![7]);
    assert_eq!(children_of(&root, 11), vec![8, 9]);
    assert_eq!((built.root, built.page_count), (10, 11));
    Ok(())
}

#[test]
fn copy_should_have_a_single_child_at_most_on_the_right_edge() -> Result<()> {
    for count in 21..=60 {
        let mut disk = copied(count)?;
        let meta = load_published(&mut disk)?.current.meta;
        let mut level = vec![meta.root];
        while page_of(&mut disk, level[0])?[0] == INTERNAL {
            let mut below = Vec::new();
            for (index, page_id) in level.iter().enumerate() {
                let children = children_of(&page_of(&mut disk, *page_id)?, meta.page_count);
                assert!(children.len() > 1 || (index > 0 && index == level.len() - 1));
                below.extend(children);
            }
            level = below;
        }
    }
    Ok(())
}

#[test]
fn compacted_copy_should_stay_writable() -> Result<()> {
    for count in [20_u32, 21, 24, 25, 61] {
        let mut database = Database::open(copied(count)?)?;
        let mut expected = (0..count).map(long_key).collect::<Vec<_>>();
        assert_eq!(keys(&mut database)?, expected);
        for _ in 0..6 {
            let mut write = database.write();
            assert!(write.delete(&mut database, &expected.pop().unwrap())?);
            write.commit(&mut database)?;
            assert_eq!(keys(&mut database)?, expected);
        }
        let mut write = database.write();
        for number in count..count + 30 {
            write.put(&mut database, &long_key(number), b"again")?;
            expected.push(long_key(number));
        }
        write.commit(&mut database)?;
        assert_eq!(keys(&mut database)?, expected);
        let mut write = database.write();
        for key in &expected {
            assert!(write.delete(&mut database, key)?);
        }
        write.commit(&mut database)?;
        assert!(database.read()?.is_empty());
    }
    Ok(())
}

#[test]
fn overfull_leaf_should_be_cut_most_evenly() -> Result<()> {
    let mut database = with_entries(&[1, 2, 3, 4, 5])?;
    assert_eq!(leaf_counts(&mut database)?, vec![5]);
    let mut database = with_entries(&[1, 2, 3, 4, 5, 6])?;
    assert_eq!(leaf_counts(&mut database)?, vec![3, 3]);
    Ok(())
}

#[test]
fn underfull_leaf_should_be_joined_with_its_neighbour() -> Result<()> {
    let mut database = with_entries(&[1, 2, 3, 4, 5, 6])?;
    let mut write = database.write();
    write.delete(&mut database, &[5; 600])?;
    write.commit(&mut database)?;
    assert_eq!(leaf_counts(&mut database)?, vec![5]);
    Ok(())
}

#[test]
fn underfull_leaf_should_share_with_a_full_neighbour() -> Result<()> {
    let mut database = with_entries(&[1, 2, 3, 4, 5, 6, 7, 8])?;
    assert_eq!(leaf_counts(&mut database)?, vec![3, 5]);
    let mut write = database.write();
    write.delete(&mut database, &[2; 600])?;
    write.commit(&mut database)?;
    assert_eq!(leaf_counts(&mut database)?, vec![3, 4]);
    Ok(())
}

#[test]
fn commit_without_changes_should_keep_the_tree() -> Result<()> {
    let mut database = with_entries(&[1, 2, 3, 4, 5, 6])?;
    let before = load_published(&mut database.source.storage)?.current.meta;
    let mut write = database.write();
    write.put(&mut database, &[3; 600], &[3; 64])?;
    write.commit(&mut database)?;
    let after = load_published(&mut database.source.storage)?.current.meta;
    assert_eq!(after.root, before.root);
    assert_eq!(after.user_tree_pages, before.user_tree_pages);
    Ok(())
}

fn commit_operations(durability: Durability) -> Result<usize> {
    let mut operations = 0;
    loop {
        let options = Options::new().durability(durability);
        let mut database = Database::open_with_options(FaultDisk::new(), &options)?;
        let mut write = database.write();
        write.put(&mut database, b"key", b"value")?;
        database.source.storage.fail_at(operations);
        if write.commit(&mut database).is_ok() {
            return Ok(operations);
        }
        operations += 1;
    }
}

#[test]
fn strict_commit_should_synchronize_once_more_than_a_relaxed_one() -> Result<()> {
    let relaxed = commit_operations(Durability::Relaxed)?;
    assert_eq!(commit_operations(Durability::Strict)?, relaxed + 1);
    Ok(())
}

#[test]
fn crash_while_creating_should_leave_no_record_or_a_whole_database() -> Result<()> {
    let mut operations = 0;
    loop {
        let mut disk = FaultDisk::new();
        disk.fail_at(operations);
        let made = actdb::open::initialize(&mut disk).is_ok();
        for reordered in 0..4 {
            let mut crashed = FaultDisk::new();
            crashed.fail_at(operations);
            let again = actdb::open::initialize(&mut crashed).is_ok();
            assert_eq!(again, made);
            if reordered < 3 {
                crashed.crash_with_reordered_write(reordered);
            } else {
                crashed.crash();
            }
            let image = crashed.durable_image();
            let recorded = image.len() >= PAGE_SIZE
                && decode_meta(&image[..PAGE_SIZE].try_into().unwrap()).is_ok();
            assert!(recorded || !made);
            if recorded {
                let mut database = Database::open(FaultDisk::from_durable(image))?;
                assert!(database.read()?.is_empty());
            }
        }
        if made {
            return Ok(());
        }
        operations += 1;
    }
}

#[test]
fn rows_should_be_what_a_copy_is_made_of() -> Result<()> {
    let mut database = with_entries(&[2, 1, 3])?;
    let rows = database.rows()?;
    let expected = [1_u8, 2, 3].map(|number| (vec![number; 600], vec![number; 64]));
    assert_eq!(rows, expected.to_vec());
    let mut whole = FaultDisk::new();
    database.compact_to(&mut whole)?;
    let mut written = FaultDisk::new();
    actdb::open::write_canonical(&mut written, &rows)?;
    assert_eq!(whole.durable_image(), written.durable_image());
    Ok(())
}

#[test]
fn overlong_storage_should_be_cut_and_synchronized() -> Result<()> {
    let database = with_entries(&[1, 2, 3])?;
    let image = database.source.storage.durable_image();
    let mut longer = image.clone();
    longer.resize(image.len() + PAGE_SIZE + 1, 0xff);
    let opened = Database::open(FaultDisk::from_durable(longer))?;
    assert_eq!(opened.source.storage.durable_image(), image);
    Ok(())
}

#[test]
fn understated_page_count_should_not_refuse_a_commit() -> Result<()> {
    let mut image = copied(21)?.durable_image();
    let mut meta = decode_meta(&image[..PAGE_SIZE].try_into().unwrap())?;
    assert_eq!(meta.user_tree_pages, 9);
    meta.user_tree_pages = 3;
    image[..PAGE_SIZE].copy_from_slice(&encode_meta(meta));
    let mut database = Database::open(FaultDisk::from_durable(image))?;
    let mut write = database.write();
    assert!(write.delete(&mut database, &long_key(20))?);
    write.commit(&mut database)?;
    assert_eq!(database.stats()?.user_tree_pages, 0);
    assert_eq!(keys(&mut database)?.len(), 20);
    let mut reopened = Database::open(database.source.storage)?;
    assert_eq!(keys(&mut reopened)?.len(), 21);
    Ok(())
}

#[test]
fn unchanged_put_should_leave_the_transaction_as_it_was() -> Result<()> {
    let mut database = with_entries(&[1, 2, 3, 4, 5, 6])?;
    let mut write = database.write();
    write.put(&mut database, &[3; 600], &[3; 64])?;
    assert!(write.tree.dirty.is_empty());
    assert!(write.tree.retired.is_empty());
    write.put(&mut database, &[3; 600], &[4; 64])?;
    assert_eq!(write.tree.dirty.len(), 2);
    assert_eq!(write.tree.retired.len(), 2);
    Ok(())
}

#[test]
fn commit_should_take_a_page_for_each_changed_node_and_value_piece() -> Result<()> {
    let mut database = with_entries(&[1, 2, 3, 4, 5, 6])?;
    let before = load_published(&mut database.source.storage)?.current.meta;
    let mut write = database.write();
    write.put(&mut database, &[3; 600], &vec![7; 2 * 4_076 + 1])?;
    write.commit(&mut database)?;
    let after = load_published(&mut database.source.storage)?.current.meta;
    assert_eq!(after.page_count, before.page_count + 2 + 3 + 1);
    assert_eq!(after.user_tree_pages, before.user_tree_pages + 3);
    Ok(())
}

fn levels_of(disk: &mut FaultDisk) -> Result<Vec<Vec<u64>>> {
    let meta = load_published(disk)?.current.meta;
    let mut levels = vec![vec![meta.root]];
    loop {
        let level = levels[levels.len() - 1].clone();
        let mut below = Vec::new();
        for page_id in level {
            let page = page_of(disk, page_id)?;
            if page[0] == INTERNAL {
                below.extend(children_of(&page, meta.page_count));
            }
        }
        if below.is_empty() {
            return Ok(levels);
        }
        levels.push(below);
    }
}

#[test]
fn put_should_copy_the_path_and_nothing_else() -> Result<()> {
    let mut database = Database::open(FaultDisk::new())?;
    let mut write = database.write();
    for number in 0..40 {
        write.put(&mut database, &long_key(number), b"value")?;
    }
    write.commit(&mut database)?;
    assert!(levels_of(&mut database.source.storage)?.len() >= 3);
    for number in [0, 17, 39] {
        let before = levels_of(&mut database.source.storage)?;
        let mut write = database.write();
        write.put(&mut database, &long_key(number), &number.to_be_bytes())?;
        write.commit(&mut database)?;
        let after = levels_of(&mut database.source.storage)?;
        assert_eq!(after.len(), before.len());
        for (old, new) in before.iter().zip(&after) {
            assert_eq!(new.len(), old.len());
            let copied = new.iter().filter(|page_id| !old.contains(page_id));
            assert_eq!(copied.count(), 1);
        }
    }
    Ok(())
}
