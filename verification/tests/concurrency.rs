//! Snapshots and what outlives them.

use actdb::fault::FaultDisk;
use actdb::{Database, Result};

#[test]
fn reader_should_keep_snapshot_across_commit() -> Result<()> {
    let mut database = Database::open(FaultDisk::new())?;
    let mut first = database.write();
    first.put(&mut database, b"key", b"old")?;
    first.commit(&mut database)?;
    let snapshot = database.read()?;
    let mut second = database.write();
    second.put(&mut database, b"key", b"new")?;
    second.commit(&mut database)?;
    let value = snapshot.get(&mut database, b"key")?;
    assert_eq!(value.as_ref().map(|value| value.as_slice()), Some(&b"old"[..]));
    Ok(())
}

#[test]
fn value_guard_should_outlive_read_transaction_and_database() -> Result<()> {
    let guard = {
        let mut database = Database::open(FaultDisk::new())?;
        let mut write = database.write();
        write.put(&mut database, b"key", b"value")?;
        write.commit(&mut database)?;
        let read = database.read()?;
        read.get(&mut database, b"key")?.unwrap()
    };
    assert_eq!(guard.as_slice(), b"value");
    Ok(())
}

#[test]
fn released_reader_should_unregister_its_generation() -> Result<()> {
    let mut database = Database::open(FaultDisk::new())?;
    let first = database.read()?;
    let second = database.read()?;
    assert_eq!(database.stats()?.pinned_snapshots, 2);
    database.release(first);
    assert_eq!(database.stats()?.pinned_snapshots, 1);
    database.release(second);
    assert_eq!(database.stats()?.pinned_snapshots, 0);
    assert_eq!(database.stats()?.oldest_snapshot_generation, None);
    Ok(())
}
