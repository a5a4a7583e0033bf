use chisel::freemap::FreeMap;
use chisel::page::{PAGE_BODY_SIZE, PAGE_SIZE};

#[test]
fn first_free_bit_from_returns_lowest_at_or_above_lo() {
    let mut buf = [0u8; PAGE_SIZE];
    FreeMap::init_page(&mut buf);
    FreeMap::mark_free(&mut buf, 12);
    FreeMap::mark_free(&mut buf, 40);
    FreeMap::mark_free(&mut buf, 300);
    assert_eq!(FreeMap::first_free_bit_from(&buf, 0), Some(12));
    assert_eq!(FreeMap::first_free_bit_from(&buf, 12), Some(12));
    assert_eq!(FreeMap::first_free_bit_from(&buf, 13), Some(40));
    assert_eq!(FreeMap::first_free_bit_from(&buf, 41), Some(300));
}

#[test]
fn first_free_bit_from_is_none_when_all_below_lo() {
    let mut buf = [0u8; PAGE_SIZE];
    FreeMap::init_page(&mut buf);
    FreeMap::mark_free(&mut buf, 5);
    FreeMap::mark_free(&mut buf, 100);
    assert_eq!(FreeMap::first_free_bit_from(&buf, 101), None);
    assert_eq!(
        FreeMap::first_free_bit_from(&buf, PAGE_BODY_SIZE as u64 * 8),
        None
    );
}

#[test]
fn clear_bit_clears_named_id_and_leaves_others() {
    let mut buf = [0u8; PAGE_SIZE];
    FreeMap::init_page(&mut buf);
    FreeMap::mark_free(&mut buf, 7);
    FreeMap::mark_free(&mut buf, 8);
    FreeMap::mark_free(&mut buf, 9);
    FreeMap::clear_bit(&mut buf, 8);
    assert!(FreeMap::is_free(&buf, 7), "7 must remain free");
    assert!(!FreeMap::is_free(&buf, 8), "8 must be cleared");
    assert!(FreeMap::is_free(&buf, 9), "9 must remain free");
}
