use chisel::options::DrainInsertion;
use chisel::overflow::{Overflow, OVERFLOW_PAYLOAD};
use chisel::page::{stamp_checksum, PageType, PAGE_SIZE};
use chisel::page_cache::PageCache;
use chisel::page_io::PageIo;
use chisel::ChiselError;

fn make_cache() -> PageCache {
    let io = PageIo::open_in_memory().unwrap();
    let mut cache = PageCache::new(io, 64 * PAGE_SIZE as u64, 0, DrainInsertion::LruTail);
    cache.set_next_page_id(2);
    cache
}

fn write_three_page_chain(cache: &mut PageCache) -> (u64, Vec<u8>) {
    let value_len = OVERFLOW_PAYLOAD * 2 + 100;
    let value: Vec<u8> = (0..value_len).map(|i| (i % 251) as u8).collect();
    let first = Overflow::write(cache, &value).unwrap();
    (first, value)
}

fn patch_next_page(cache: &mut PageCache, page_id: u64, new_next: u64) {
    let buf = cache.get_mut(page_id).unwrap();
    buf[24..32].copy_from_slice(&new_next.to_le_bytes());
    stamp_checksum(buf);
}

fn read_next_page(cache: &mut PageCache, page_id: u64) -> u64 {
    let buf = cache.get(page_id).unwrap();
    let mut bytes = [0u8; 8];
    bytes.copy_from_slice(&buf[24..32]);
    u64::from_le_bytes(bytes)
}

#[test]
fn read_detects_cycle_in_chain() {
    let mut cache = make_cache();
    let (first, _) = write_three_page_chain(&mut cache);
    let second = read_next_page(&mut cache, first);
    let third = read_next_page(&mut cache, second);
    patch_next_page(&mut cache, third, second);

    match Overflow::read(&mut cache, first) {
        Err(ChiselError::CorruptPage { page_id: _ }) => {}
        other => panic!("expected CorruptPage, got {other:?}"),
    }
}

#[test]
fn delete_detects_cycle_in_chain() {
    let mut cache = make_cache();
    let (first, _) = write_three_page_chain(&mut cache);
    let second = read_next_page(&mut cache, first);
    let third = read_next_page(&mut cache, second);
    patch_next_page(&mut cache, third, first);

    match Overflow::collect_chain_pages(&mut cache, first) {
        Err(ChiselError::CorruptPage { page_id: _ }) => {}
        other => panic!("expected CorruptPage, got {other:?}"),
    }
}

#[test]
fn read_detects_short_chain() {
    let mut cache = make_cache();
    let (first, _) = write_three_page_chain(&mut cache);
    patch_next_page(&mut cache, first, 0);

    match Overflow::read(&mut cache, first) {
        Err(ChiselError::CorruptPage { page_id: _ }) => {}
        other => panic!("expected CorruptPage, got {other:?}"),
    }
}

#[test]
fn read_roundtrip_well_formed_chain() {
    let mut cache = make_cache();
    let (first, expected) = write_three_page_chain(&mut cache);
    let got = Overflow::read(&mut cache, first).unwrap();
    assert_eq!(got, expected);
}

#[test]
fn write_and_read_value_smaller_than_threshold() {
    let mut cache = make_cache();
    let value = vec![0xAB; 4000];
    let first_page = Overflow::write(&mut cache, &value).unwrap();
    let read_back = Overflow::read(&mut cache, first_page).unwrap();
    assert_eq!(read_back, value);
}

#[test]
fn write_and_read_multi_page_value() {
    let mut cache = make_cache();
    let value = vec![0xCD; 20000];
    let first_page = Overflow::write(&mut cache, &value).unwrap();
    let read_back = Overflow::read(&mut cache, first_page).unwrap();
    assert_eq!(read_back, value);
}

#[test]
fn delete_returns_every_chain_page() {
    let mut cache = make_cache();
    let value = vec![0xEF; 20000];
    let first_page = Overflow::write(&mut cache, &value).unwrap();
    let freed = Overflow::collect_chain_pages(&mut cache, first_page).unwrap();
    assert!(freed.len() >= 3);
}

#[test]
fn read_and_delete_reject_wrong_page_type_at_first_page() {
    let mut cache = make_cache();
    let id = cache.new_page().unwrap();
    {
        let buf = cache.get_mut(id).unwrap();
        buf.fill(0);
        buf[0] = PageType::Data.code();
        buf[16..24].copy_from_slice(&u64::MAX.to_le_bytes());
        stamp_checksum(buf);
    }
    assert!(
        matches!(Overflow::read(&mut cache, id), Err(ChiselError::CorruptPage { page_id }) if page_id == id),
        "read must reject a wrong-type first page before trusting its total_length"
    );
    assert!(
        matches!(Overflow::collect_chain_pages(&mut cache, id), Err(ChiselError::CorruptPage { page_id }) if page_id == id),
        "collect_chain_pages must reject a wrong-type first page"
    );
}

#[test]
fn read_rejects_wrong_page_type_mid_chain() {
    let mut cache = make_cache();
    let (first, _value) = write_three_page_chain(&mut cache);
    let second = read_next_page(&mut cache, first);
    assert_ne!(second, 0, "a three-page chain must have a second page");
    {
        let buf = cache.get_mut(second).unwrap();
        buf[0] = PageType::Data.code();
        stamp_checksum(buf);
    }
    assert!(
        matches!(Overflow::read(&mut cache, first), Err(ChiselError::CorruptPage { page_id }) if page_id == second),
        "read must reject a wrong-type page mid-walk"
    );
}

#[test]
fn write_fails_beyond_the_limits() {
    let io = PageIo::open_in_memory().unwrap();
    let mut cache = PageCache::new(io, 2 * PAGE_SIZE as u64, 0, DrainInsertion::LruTail);
    cache.set_next_page_id(2);
    assert!(matches!(Overflow::write(&mut cache, &[7u8; 3 * PAGE_SIZE]), Err(ChiselError::CacheFull { limit: 2 })));
    assert!(matches!(Overflow::write(&mut cache, &[7u8; 10]), Err(ChiselError::CacheFull { limit: 2 })));
}
