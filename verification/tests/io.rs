//! Whole-page transfers and storage that fails on demand.

use actdb::fault::FaultDisk;
use actdb::format::{PAGE_SIZE, PAGE_SIZE_U64};
use actdb::io::{advance, len, read_page, set_len, sync_all, write_page, Advance};
use actdb::{Error, Result, Storage};

#[test]
fn crash_should_discard_unsynchronized_writes() -> Result<()> {
    let mut disk = FaultDisk::new();
    set_len(&mut disk, PAGE_SIZE_U64)?;
    sync_all(&mut disk)?;
    write_page(&mut disk, 0, &[7; PAGE_SIZE])?;
    disk.crash();
    assert_eq!(read_page(&mut disk, 0)?, [0; PAGE_SIZE]);
    Ok(())
}

#[test]
fn page_io_should_complete_short_transfers_and_surface_failures() -> Result<()> {
    let mut disk = FaultDisk::new();
    disk.limit_transfers(17);
    write_page(&mut disk, 0, &[9; PAGE_SIZE])?;
    assert_eq!(read_page(&mut disk, 0)?, [9; PAGE_SIZE]);
    disk.fail_at(0);
    assert!(matches!(read_page(&mut disk, 0), Err(Error::Io(_))));
    Ok(())
}

#[test]
fn crash_should_support_torn_and_reordered_persistence() -> Result<()> {
    let mut torn = FaultDisk::new();
    set_len(&mut torn, PAGE_SIZE_U64)?;
    sync_all(&mut torn)?;
    torn.write_at(&[3; 32], 64).unwrap();
    torn.crash_with_torn_last_write(7);
    let mut bytes = [0; 32];
    torn.read_at(&mut bytes, 64).unwrap();
    assert_eq!(&bytes[..7], &[3; 7]);
    assert_eq!(&bytes[7..], &[0; 25]);

    let mut reordered = FaultDisk::new();
    set_len(&mut reordered, PAGE_SIZE_U64)?;
    sync_all(&mut reordered)?;
    reordered.write_at(&[1; 8], 0).unwrap();
    reordered.write_at(&[2; 8], 16).unwrap();
    reordered.crash_with_reordered_write(1);
    let mut bytes = [0; 24];
    reordered.read_at(&mut bytes, 0).unwrap();
    assert_eq!(&bytes[..8], &[0; 8]);
    assert_eq!(&bytes[16..], &[2; 8]);
    Ok(())
}

#[test]
fn read_behind_the_end_should_report_unexpected_eof() -> Result<()> {
    let mut disk = FaultDisk::new();
    write_page(&mut disk, 0, &[1; PAGE_SIZE])?;
    match read_page(&mut disk, 1) {
        Err(Error::Io(error)) => {
            assert_eq!(error.kind(), std::io::ErrorKind::UnexpectedEof)
        }
        _ => panic!("a page behind the end was read"),
    }
    Ok(())
}

#[test]
fn stalled_write_should_report_write_zero() {
    let mut disk = FaultDisk::new();
    disk.limit_transfers(0);
    match write_page(&mut disk, 0, &[1; PAGE_SIZE]) {
        Err(Error::Io(error)) => assert_eq!(error.kind(), std::io::ErrorKind::WriteZero),
        _ => panic!("a write without progress went through"),
    }
}

#[test]
fn page_offset_overflow_should_be_corrupt() {
    let mut disk = FaultDisk::new();
    assert!(matches!(read_page(&mut disk, u64::MAX), Err(Error::Corrupt(_))));
    assert!(matches!(
        write_page(&mut disk, u64::MAX, &[0; PAGE_SIZE]),
        Err(Error::Corrupt(_))
    ));
}

#[test]
fn storage_length_should_follow_writes_and_resizing() -> Result<()> {
    let mut disk = FaultDisk::new();
    assert!(disk.is_empty().unwrap());
    write_page(&mut disk, 2, &[5; PAGE_SIZE])?;
    assert_eq!(len(&disk)?, 3 * PAGE_SIZE_U64);
    assert_eq!(read_page(&mut disk, 1)?, [0; PAGE_SIZE]);
    set_len(&mut disk, PAGE_SIZE_U64)?;
    assert_eq!(len(&disk)?, PAGE_SIZE_U64);
    assert!(!disk.is_empty().unwrap());
    Ok(())
}

#[test]
fn failing_operation_should_be_the_counted_one() -> Result<()> {
    let mut disk = FaultDisk::new();
    disk.fail_at(1);
    write_page(&mut disk, 0, &[1; PAGE_SIZE])?;
    assert!(matches!(sync_all(&mut disk), Err(Error::Io(_))));
    assert!(disk.durable_image().is_empty());
    sync_all(&mut disk)?;
    assert_eq!(disk.durable_image().len(), PAGE_SIZE);
    Ok(())
}

#[test]
fn transfer_should_move_as_many_bytes_as_allowed() {
    let mut disk = FaultDisk::new();
    disk.limit_transfers(3);
    assert_eq!(disk.write_at(&[1, 2, 3, 4], 2).unwrap(), 3);
    assert_eq!(disk.len().unwrap(), 5);
    let mut buffer = [9; 4];
    assert_eq!(disk.read_at(&mut buffer, 3).unwrap(), 2);
    assert_eq!(buffer, [2, 3, 9, 9]);
    assert_eq!(disk.read_at(&mut buffer, 0).unwrap(), 3);
    assert_eq!(buffer, [0, 0, 1, 9]);
    assert_eq!(disk.read_at(&mut buffer, 5).unwrap(), 0);
}

#[test]
fn empty_transfer_should_reach_up_to_its_offset() {
    let mut disk = FaultDisk::new();
    disk.limit_transfers(0);
    assert_eq!(disk.write_at(&[1], 3).unwrap(), 0);
    assert_eq!(disk.len().unwrap(), 3);
    disk.crash_with_reordered_write(0);
    assert_eq!(disk.durable_image(), vec![0; 3]);
}

#[test]
fn transfer_should_advance_by_what_was_moved() {
    assert!(matches!(advance(0, 10, Ok(0)), Advance::Stalled));
    assert!(matches!(advance(0, 10, Ok(4)), Advance::Onward(4)));
    assert!(matches!(advance(4, 10, Ok(5)), Advance::Onward(9)));
    assert!(matches!(advance(4, 10, Ok(6)), Advance::Complete));
    let refused = std::io::Error::from(std::io::ErrorKind::PermissionDenied);
    assert!(matches!(
        advance(4, 10, Err(refused)),
        Advance::Failed(error) if error.kind() == std::io::ErrorKind::PermissionDenied
    ));
}

#[test]
fn reads_should_count_as_operations() -> Result<()> {
    let mut disk = FaultDisk::new();
    write_page(&mut disk, 0, &[1; PAGE_SIZE])?;
    disk.fail_at(2);
    assert_eq!(read_page(&mut disk, 0)?, [1; PAGE_SIZE]);
    assert_eq!(read_page(&mut disk, 0)?, [1; PAGE_SIZE]);
    assert!(matches!(read_page(&mut disk, 0), Err(Error::Io(_))));
    assert_eq!(read_page(&mut disk, 0)?, [1; PAGE_SIZE]);
    disk.fail_at(1);
    assert_eq!(read_page(&mut disk, 0)?, [1; PAGE_SIZE]);
    assert!(matches!(sync_all(&mut disk), Err(Error::Io(_))));
    sync_all(&mut disk)
}
