use chisel::data_page::{DataPage, SLOT_ENTRY_SIZE, SLOT_FLAG_LIVE};
use chisel::page::{CHECKSUM_OFFSET, DATA_PAGE_HEADER_SIZE, PAGE_SIZE};

fn fresh_page() -> [u8; PAGE_SIZE] {
    let mut buf = [0u8; PAGE_SIZE];
    DataPage::init_page(&mut buf);
    buf
}

#[test]
fn reserved_common_header_bytes_stay_zero() {
    let mut buf = fresh_page();
    assert_eq!(
        &buf[8..16],
        &[0u8; 8],
        "init_page must zero the reserved 8..16"
    );
    DataPage::insert(&mut buf, b"hello world").unwrap();
    assert_eq!(
        &buf[8..16],
        &[0u8; 8],
        "insert must not write into the reserved 8..16"
    );
    assert_eq!(
        DataPage::slot_count(&buf),
        1,
        "the value should have landed in slot 0"
    );
}

#[test]
fn read_returns_none_on_corrupt_slot_count() {
    let mut buf = fresh_page();
    buf[2..4].copy_from_slice(&0xFFFFu16.to_le_bytes());
    assert!(DataPage::read(&buf, 0).is_none());
    assert!(DataPage::read(&buf, 1365).is_none());
    assert!(DataPage::read(&buf, 0xFFFE).is_none());
}

#[test]
fn read_returns_none_on_out_of_range_offset_length() {
    let mut buf = fresh_page();
    buf[2..4].copy_from_slice(&1u16.to_le_bytes());
    let free_start = (DATA_PAGE_HEADER_SIZE + SLOT_ENTRY_SIZE) as u16;
    buf[4..6].copy_from_slice(&free_start.to_le_bytes());
    let base = DATA_PAGE_HEADER_SIZE;
    buf[base..base + 2].copy_from_slice(&8000u16.to_le_bytes());
    buf[base + 2..base + 4].copy_from_slice(&500u16.to_le_bytes());
    buf[base + 4..base + 6].copy_from_slice(&SLOT_FLAG_LIVE.to_le_bytes());
    assert!(DataPage::read(&buf, 0).is_none());
}

#[test]
fn read_returns_none_on_offset_below_header() {
    let mut buf = fresh_page();
    buf[2..4].copy_from_slice(&1u16.to_le_bytes());
    buf[4..6]
        .copy_from_slice(&((DATA_PAGE_HEADER_SIZE + SLOT_ENTRY_SIZE) as u16).to_le_bytes());
    let base = DATA_PAGE_HEADER_SIZE;
    buf[base..base + 2].copy_from_slice(&4u16.to_le_bytes());
    buf[base + 2..base + 4].copy_from_slice(&1u16.to_le_bytes());
    buf[base + 4..base + 6].copy_from_slice(&SLOT_FLAG_LIVE.to_le_bytes());
    assert!(DataPage::read(&buf, 0).is_none());
}

#[test]
fn read_returns_none_on_free_end_past_page_body() {
    let mut buf = fresh_page();
    buf[6..8].copy_from_slice(&(CHECKSUM_OFFSET as u16 + 100).to_le_bytes());
    assert!(DataPage::read(&buf, 0).is_none());
    assert_eq!(DataPage::free_space(&buf), 0);
}

#[test]
fn read_returns_none_on_free_start_less_than_header() {
    let mut buf = fresh_page();
    buf[4..6].copy_from_slice(&4u16.to_le_bytes());
    assert!(DataPage::read(&buf, 0).is_none());
}

#[test]
fn read_returns_none_on_wrong_page_type() {
    let mut buf = fresh_page();
    buf[0] = 0xFF;
    assert!(DataPage::read(&buf, 0).is_none());
    assert_eq!(DataPage::used_space(&buf), 0);
    assert_eq!(DataPage::iter_live(&buf).len(), 0);
}

#[test]
fn insert_refuses_corrupt_header() {
    let mut buf = fresh_page();
    buf[4..6].copy_from_slice(&(CHECKSUM_OFFSET as u16 + 1).to_le_bytes());
    assert!(DataPage::insert(&mut buf, b"x").is_none());
}

#[test]
fn iter_live_and_used_space_survive_oversized_slot_count() {
    let mut buf = fresh_page();
    DataPage::insert(&mut buf, b"abc").unwrap();
    buf[2..4].copy_from_slice(&2000u16.to_le_bytes());
    assert_eq!(DataPage::iter_live(&buf).len(), 0);
    assert_eq!(DataPage::used_space(&buf), 0);
}

#[test]
fn test_data_page_insert_and_read() {
    let mut buf = [0u8; PAGE_SIZE];
    DataPage::init_page(&mut buf);
    let slot = DataPage::insert(&mut buf, b"hello world").unwrap();
    let data = DataPage::read(&buf, slot).unwrap();
    assert_eq!(data, b"hello world");
}

#[test]
fn test_data_page_multiple_inserts() {
    let mut buf = [0u8; PAGE_SIZE];
    DataPage::init_page(&mut buf);
    let s0 = DataPage::insert(&mut buf, b"aaa").unwrap();
    let s1 = DataPage::insert(&mut buf, b"bbb").unwrap();
    let s2 = DataPage::insert(&mut buf, b"ccc").unwrap();
    assert_eq!(DataPage::read(&buf, s0).unwrap(), b"aaa");
    assert_eq!(DataPage::read(&buf, s1).unwrap(), b"bbb");
    assert_eq!(DataPage::read(&buf, s2).unwrap(), b"ccc");
    assert_eq!(DataPage::slot_count(&buf), 3);
}

#[test]
fn test_data_page_full() {
    let mut buf = [0u8; PAGE_SIZE];
    DataPage::init_page(&mut buf);
    let big = vec![0xABu8; 2000];
    let mut count = 0;
    while DataPage::insert(&mut buf, &big).is_some() {
        count += 1;
    }
    assert!(count >= 3);
    assert!(count <= 4);
}

#[test]
fn test_data_page_max_value() {
    let mut buf = [0u8; PAGE_SIZE];
    DataPage::init_page(&mut buf);
    let max_val = vec![0xCD; 8162];
    let slot = DataPage::insert(&mut buf, &max_val);
    assert!(slot.is_some());
    assert_eq!(DataPage::read(&buf, slot.unwrap()).unwrap().len(), 8162);
}
