//! Byte layout, and what happens on hostile persistent input.

use actdb::fault::FaultDisk;
use actdb::{Bound, Database, Error, Result};

const PAGE_SIZE: usize = 4096;
const CHECKSUM_OFFSET: usize = PAGE_SIZE - 4;

fn page_of(image: &[u8], page_id: u64) -> [u8; PAGE_SIZE] {
    let start = page_id as usize * PAGE_SIZE;
    image[start..start + PAGE_SIZE].try_into().unwrap()
}

fn set_page(image: &mut [u8], page_id: u64, page: &[u8; PAGE_SIZE]) {
    let start = page_id as usize * PAGE_SIZE;
    image[start..start + PAGE_SIZE].copy_from_slice(page);
}

fn get_u16(bytes: &[u8], offset: usize) -> u16 {
    u16::from_le_bytes(bytes[offset..offset + 2].try_into().unwrap())
}

fn get_u32(bytes: &[u8], offset: usize) -> u32 {
    u32::from_le_bytes(bytes[offset..offset + 4].try_into().unwrap())
}

fn get_u64(bytes: &[u8], offset: usize) -> u64 {
    u64::from_le_bytes(bytes[offset..offset + 8].try_into().unwrap())
}

fn put_u16(bytes: &mut [u8], offset: usize, value: u16) {
    bytes[offset..offset + 2].copy_from_slice(&value.to_le_bytes());
}

fn put_u32(bytes: &mut [u8], offset: usize, value: u32) {
    bytes[offset..offset + 4].copy_from_slice(&value.to_le_bytes());
}

fn put_u64(bytes: &mut [u8], offset: usize, value: u64) {
    bytes[offset..offset + 8].copy_from_slice(&value.to_le_bytes());
}

fn finish_page(page: &mut [u8; PAGE_SIZE]) {
    let checksum = crc32fast::hash(&page[..CHECKSUM_OFFSET]);
    put_u32(page, CHECKSUM_OFFSET, checksum);
}

fn empty_image() -> Result<Vec<u8>> {
    let database = Database::open(FaultDisk::new())?;
    Ok(database.source.storage.durable_image())
}

fn open(image: Vec<u8>) -> Result<Database<FaultDisk>> {
    Database::open(FaultDisk::from_durable(image))
}

fn single_leaf(value: &[u8]) -> Result<(Vec<u8>, u64)> {
    let mut database = Database::open(FaultDisk::new())?;
    let mut write = database.write();
    write.put(&mut database, b"key", value)?;
    write.commit(&mut database)?;
    let image = database.source.storage.durable_image();
    let root = get_u64(&page_of(&image, 1), 24);
    Ok((image, root))
}

#[test]
fn integer_helpers_should_use_little_endian_encoding() -> Result<()> {
    let mut bytes = [0_u8; 16];
    actdb::format::put_u16(&mut bytes, 0, 0x1234);
    actdb::format::put_u32(&mut bytes, 2, 0x1234_5678);
    actdb::format::put_u64(&mut bytes, 6, 0x0123_4567_89ab_cdef);
    assert_eq!(
        &bytes[..14],
        &[
            0x34, 0x12, 0x78, 0x56, 0x34, 0x12, 0xef, 0xcd, 0xab, 0x89, 0x67, 0x45, 0x23, 0x01
        ]
    );
    assert_eq!(actdb::format::get_u16(&bytes, 0)?, 0x1234);
    assert_eq!(actdb::format::get_u32(&bytes, 2)?, 0x1234_5678);
    assert_eq!(actdb::format::get_u64(&bytes, 6)?, 0x0123_4567_89ab_cdef);
    Ok(())
}

#[test]
fn truncated_integer_should_return_corrupt() {
    assert!(matches!(actdb::format::get_u64(&[0; 7], 0), Err(Error::Corrupt(_))));
}

#[test]
fn initialized_file_should_match_the_documented_metadata_layout() -> Result<()> {
    let image = empty_image()?;
    let meta = page_of(&image, 0);
    assert_eq!(&meta[0..8], b"ACTDB\0\r\n");
    assert_eq!(get_u16(&meta, 8), 1);
    assert_eq!(get_u16(&meta, 10), PAGE_SIZE as u16);
    assert_eq!(get_u32(&meta, 12), 2);
    assert_eq!(get_u64(&meta, 16), 1);
    assert_eq!(get_u64(&meta, 24), 2);
    assert_eq!(get_u64(&meta, 32), 4);
    assert_eq!(get_u64(&meta, 40), 0);
    assert_eq!(get_u64(&meta, 48), 3);
    assert_eq!(get_u64(&meta, 64), 1);
    assert_eq!(get_u64(&meta, 72), 1);
    assert!(meta[96..CHECKSUM_OFFSET].iter().all(|byte| *byte == 0));
    assert_eq!(
        get_u32(&meta, CHECKSUM_OFFSET),
        crc32fast::hash(&meta[..CHECKSUM_OFFSET])
    );
    Ok(())
}

#[test]
fn nonzero_metadata_reserved_bytes_should_invalidate_both_slots() -> Result<()> {
    let mut image = empty_image()?;
    for slot in 0..2 {
        let mut page = page_of(&image, slot);
        page[96] = 1;
        finish_page(&mut page);
        set_page(&mut image, slot, &page);
    }
    assert!(matches!(open(image), Err(Error::Corrupt(_))));
    Ok(())
}

#[test]
fn hostile_leaf_slot_count_should_return_corrupt_without_panicking() -> Result<()> {
    let (mut image, root) = single_leaf(b"value")?;
    let mut page = page_of(&image, root);
    put_u16(&mut page, 2, u16::MAX);
    finish_page(&mut page);
    set_page(&mut image, root, &page);
    let mut database = open(image)?;
    let read = database.read()?;
    assert!(matches!(
        read.get(&mut database, b"key"),
        Err(Error::Corrupt(_))
    ));
    Ok(())
}

#[test]
fn nonzero_leaf_reserved_byte_should_return_corrupt() -> Result<()> {
    let (mut image, root) = single_leaf(b"value")?;
    let mut page = page_of(&image, root);
    page[4] = 1;
    finish_page(&mut page);
    set_page(&mut image, root, &page);
    let mut database = open(image)?;
    let read = database.read()?;
    assert!(matches!(
        read.get(&mut database, b"key"),
        Err(Error::Corrupt(_))
    ));
    Ok(())
}

#[test]
fn impossible_overflow_length_should_return_corrupt_before_allocation() -> Result<()> {
    let (mut image, root) = single_leaf(&vec![7; 2048])?;
    let mut page = page_of(&image, root);
    put_u32(&mut page, 32 + 4, u32::MAX);
    finish_page(&mut page);
    set_page(&mut image, root, &page);
    let mut database = open(image)?;
    let read = database.read()?;
    assert!(matches!(
        read.get(&mut database, b"key"),
        Err(Error::Corrupt(_))
    ));
    Ok(())
}

#[test]
fn metadata_item_count_mismatch_should_be_detected_during_traversal() -> Result<()> {
    let (mut image, _) = single_leaf(b"value")?;
    let mut meta = page_of(&image, 1);
    put_u64(&mut meta, 40, 2);
    finish_page(&mut meta);
    set_page(&mut image, 1, &meta);
    let mut database = open(image)?;
    let read = database.read()?;
    assert!(matches!(
        read.scan(&mut database, Bound::Unbounded, Bound::Unbounded),
        Err(Error::Corrupt(_))
    ));
    Ok(())
}

#[test]
fn duplicate_internal_child_should_return_corrupt_during_scan() -> Result<()> {
    let mut database = Database::open(FaultDisk::new())?;
    let mut write = database.write();
    for number in 0_u32..2_000 {
        write.put(&mut database, &number.to_be_bytes(), b"value")?;
    }
    write.commit(&mut database)?;
    let mut image = database.source.storage.durable_image();
    let meta = page_of(&image, 1);
    let root = get_u64(&meta, 24);
    let mut page = page_of(&image, root);
    assert_eq!(page[0], 2);
    let first_child = get_u64(&page, 8);
    put_u64(&mut page, 40, first_child);
    finish_page(&mut page);
    set_page(&mut image, root, &page);
    let mut database = open(image)?;
    let read = database.read()?;
    assert!(matches!(
        read.scan(&mut database, Bound::Unbounded, Bound::Unbounded),
        Err(Error::Corrupt(_))
    ));
    Ok(())
}

#[test]
fn recognizable_unsupported_version_should_return_unsupported_version() -> Result<()> {
    let mut image = empty_image()?;
    let mut meta = page_of(&image, 0);
    put_u16(&mut meta, 8, 2);
    finish_page(&mut meta);
    set_page(&mut image, 0, &meta);
    assert!(matches!(open(image), Err(Error::UnsupportedVersion(2))));
    Ok(())
}

#[test]
fn obsolete_prerelease_layout_should_be_rejected() -> Result<()> {
    let mut image = empty_image()?;
    for slot in 0..2 {
        let mut meta = page_of(&image, slot);
        put_u32(&mut meta, 12, 0);
        finish_page(&mut meta);
        set_page(&mut image, slot, &meta);
    }
    assert!(matches!(open(image), Err(Error::InvalidFormat(_))));
    Ok(())
}

#[test]
fn corrupt_free_tree_should_be_rejected_during_open() -> Result<()> {
    let mut image = empty_image()?;
    let meta = page_of(&image, 0);
    let free_root = get_u64(&meta, 48);
    let mut page = page_of(&image, free_root);
    page[4] = 1;
    finish_page(&mut page);
    set_page(&mut image, free_root, &page);
    assert!(matches!(open(image), Err(Error::Corrupt(_))));
    Ok(())
}

#[test]
fn checksum_should_be_the_one_of_the_page_before_it() {
    let mut page = [0_u8; PAGE_SIZE];
    page[0] = 1;
    page[77] = 0xaa;
    let expected = crc32fast::hash(&page[..CHECKSUM_OFFSET]);
    actdb::format::finish_page(&mut page);
    assert_eq!(get_u32(&page, CHECKSUM_OFFSET), expected);
    assert!(actdb::format::validate_page(&page).is_ok());
    page[78] ^= 1;
    assert!(matches!(
        actdb::format::validate_page(&page),
        Err(Error::Corrupt(_))
    ));
}

#[test]
fn metadata_should_round_trip() -> Result<()> {
    let meta = actdb::format::Meta {
        generation: 7,
        root: 5,
        page_count: 9,
        item_count: 3,
        free_root: 6,
        logical_bytes: 44,
        user_tree_pages: 2,
        free_tree_pages: 1,
        free_pages: 4,
        fallback_pages: 1,
    };
    assert!(actdb::format::decode_meta(&actdb::format::encode_meta(meta))? == meta);
    Ok(())
}

#[test]
fn foreign_file_should_be_invalid() {
    assert!(matches!(
        open(vec![0x55; PAGE_SIZE * 2]),
        Err(Error::InvalidFormat(_))
    ));
    assert!(matches!(open(vec![0x55; 10]), Err(Error::InvalidFormat(_))));
}
