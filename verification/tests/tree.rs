//! Nodes, and copying them on write.

use actdb::fault::FaultDisk;
use actdb::format::META_PAGES;
use actdb::node::{
    best_internal_split, best_leaf_split, leaf_encoded_size, Child, LeafEntry, PageRef,
    StoredValue, PAGE_END,
};
use actdb::{Database, Error, Result};

#[test]
fn leaf_split_should_balance_actual_encoded_bytes() -> Result<()> {
    let entries = (0_u8..7)
        .map(|number| LeafEntry {
            key: vec![number; 600],
            value: StoredValue::Inline(vec![number; 64]),
        })
        .collect::<Vec<_>>();
    let split = best_leaf_split(&entries)?;
    assert!(
        leaf_encoded_size(&entries[..split])? <= PAGE_END
            && leaf_encoded_size(&entries[split..])? <= PAGE_END
    );
    Ok(())
}

#[test]
fn internal_split_should_leave_two_children_on_each_side() -> Result<()> {
    let children = (0_u8..7)
        .map(|number| Child {
            first_key: vec![number; 900],
            page: PageRef::Committed(u64::from(number) + META_PAGES),
        })
        .collect::<Vec<_>>();
    let split = best_internal_split(&children)?;
    assert!(split >= 2 && children.len() - split >= 2);
    Ok(())
}

#[test]
fn repeated_updates_should_copy_a_committed_leaf_once() -> Result<()> {
    let mut database = Database::open(FaultDisk::new())?;
    let mut initial = database.write();
    initial.put(&mut database, b"first", b"value")?;
    initial.put(&mut database, b"second", b"value")?;
    initial.commit(&mut database)?;
    let mut write = database.write();
    write.put(&mut database, b"first", b"one")?;
    write.put(&mut database, b"second", b"two")?;
    assert_eq!(write.tree.dirty_by_original.len(), 1);
    Ok(())
}

#[test]
fn leaf_split_should_be_the_most_even_one() -> Result<()> {
    let entries = (0_u8..7)
        .map(|number| LeafEntry {
            key: vec![number; 600],
            value: StoredValue::Inline(vec![number; 64]),
        })
        .collect::<Vec<_>>();
    assert_eq!(leaf_encoded_size(&entries)?, 32 + 7 * (16 + 600 + 64));
    assert_eq!(best_leaf_split(&entries)?, 3);
    Ok(())
}

#[test]
fn leaf_that_cannot_be_split_should_be_corrupt() {
    let sizes = [2_063_usize, 2_064, 1_997];
    let entries = sizes
        .iter()
        .enumerate()
        .map(|(number, size)| LeafEntry {
            key: vec![number as u8; 1_024],
            value: StoredValue::Inline(vec![0; size - 16 - 1_024]),
        })
        .collect::<Vec<_>>();
    assert!(matches!(best_leaf_split(&entries), Err(Error::Corrupt(_))));
}
