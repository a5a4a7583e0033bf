use chisel::data_page::DataPage;
use chisel::freemap::FreeMap;
use chisel::page::{
    compute_checksum, current_version, format_major, format_minor, pack_format_version, page_format_version,
    stamp_checksum, verify_checksum, PageType, CHECKSUM_OFFSET, FORMAT_MINOR_VERSION, FORMAT_VERSION, MAGIC,
    PAGE_BODY_SIZE, PAGE_FORMAT_VERSION_CURRENT, PAGE_SIZE,
};

#[test]
fn fresh_pages_report_current_version() {
    let mut buf = [0u8; PAGE_SIZE];
    DataPage::init_page(&mut buf);
    assert_eq!(buf[1], PAGE_FORMAT_VERSION_CURRENT);

    let mut buf = [0u8; PAGE_SIZE];
    FreeMap::init_page(&mut buf);
    assert_eq!(buf[1], PAGE_FORMAT_VERSION_CURRENT);

}

#[test]
fn test_checksum_roundtrip() {
    let mut buf = [0u8; PAGE_SIZE];
    buf[0] = 0x42;
    buf[100] = 0xFF;
    stamp_checksum(&mut buf);
    assert!(verify_checksum(&buf));
}

#[test]
fn test_checksum_detects_corruption() {
    let mut buf = [0u8; PAGE_SIZE];
    buf[0] = 0x42;
    stamp_checksum(&mut buf);
    buf[50] = 0xAA;
    assert!(!verify_checksum(&buf));
}

#[test]
fn test_checksum_detects_torn_write() {
    let mut buf = [0u8; PAGE_SIZE];
    buf[0] = 0x42;
    stamp_checksum(&mut buf);
    buf[PAGE_SIZE - 2] = 0;
    buf[PAGE_SIZE - 1] = 0;
    assert!(!verify_checksum(&buf));
}

#[test]
fn test_checksum_stamp_is_deterministic() {
    let mut a = [0u8; PAGE_SIZE];
    let mut b = [0u8; PAGE_SIZE];
    a[42] = 0xAB;
    b[42] = 0xAB;
    stamp_checksum(&mut a);
    stamp_checksum(&mut b);
    assert_eq!(a[CHECKSUM_OFFSET..], b[CHECKSUM_OFFSET..]);
}

#[test]
fn test_checksum_detects_every_single_byte_flip_at_sampled_offsets() {
    let mut base = [0u8; PAGE_SIZE];
    for (i, b) in base.iter_mut().enumerate().take(CHECKSUM_OFFSET) {
        *b = (i & 0xFF) as u8;
    }
    stamp_checksum(&mut base);
    assert!(verify_checksum(&base));

    let offsets = [0usize, 1, 127, 4096, CHECKSUM_OFFSET - 1];
    for &off in &offsets {
        let mut buf = base;
        buf[off] ^= 0x01;
        assert!(
            !verify_checksum(&buf),
            "bit flip at offset {off} undetected",
        );
    }
}

#[test]
fn test_checksum_detects_flip_in_checksum_region() {
    let mut buf = [0u8; PAGE_SIZE];
    buf[0] = 0xFF;
    stamp_checksum(&mut buf);
    buf[CHECKSUM_OFFSET] ^= 0x80;
    assert!(!verify_checksum(&buf));
}

#[test]
fn test_compute_checksum_ignores_trailing_bytes() {
    let mut a = [0u8; PAGE_SIZE];
    let mut b = [0u8; PAGE_SIZE];
    a[5] = 0x11;
    b[5] = 0x11;
    b[PAGE_SIZE - 1] = 0xFF;
    assert_eq!(compute_checksum(&a), compute_checksum(&b));
}

#[test]
fn test_page_layout_constants_are_self_consistent() {
    assert_eq!(CHECKSUM_OFFSET + 8, PAGE_SIZE);
    assert_eq!(PAGE_BODY_SIZE + 16 + 8, PAGE_SIZE);
    assert_eq!(MAGIC, 0x4348534C);
}

#[test]
fn page_format_version_dispatches_offset_on_page_type() {
    let mut buf = [0u8; PAGE_SIZE];
    buf[0] = PageType::HandleTable.code();
    buf[1] = 0x01;
    buf[2] = 7;
    assert_eq!(page_format_version(&buf), 7);

    for pt in [
        PageType::Data,
        PageType::Overflow,
        PageType::FreeMap,
        PageType::FreeMapInterior,
        PageType::MembershipInterior,
        PageType::MembershipLeaf,
    ] {
        let mut buf = [0u8; PAGE_SIZE];
        buf[0] = pt.code();
        buf[1] = 5;
        buf[2] = 99;
        assert_eq!(page_format_version(&buf), 5, "type {pt:?}");
    }
}

#[test]
fn current_version_is_zero_for_all_types_today() {
    for pt in [
        PageType::HandleTable,
        PageType::Data,
        PageType::Overflow,
        PageType::FreeMap,
        PageType::FreeMapInterior,
        PageType::MembershipInterior,
        PageType::MembershipLeaf,
    ] {
        assert_eq!(current_version(pt), 0, "type {pt:?}");
    }
}

#[test]
fn freemap_interior_type_tag_and_version() {
    assert_eq!(PageType::FreeMapInterior.code(), 0x07);
    assert_eq!(
        current_version(PageType::FreeMapInterior),
        PAGE_FORMAT_VERSION_CURRENT
    );
}

#[test]
fn format_minor_extracts_low_16_bits() {
    let v = pack_format_version(3, 42);
    assert_eq!(format_major(v), 3);
    assert_eq!(format_minor(v), 42);
    assert_eq!(format_minor(FORMAT_VERSION), FORMAT_MINOR_VERSION);
}
