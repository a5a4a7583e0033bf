use chisel::page::PAGE_SIZE;
use chisel::page_io::PageIo;
use chisel::ChiselError;

fn seeded_pages() -> Vec<[u8; PAGE_SIZE]> {
    vec![[0u8; PAGE_SIZE]]
}

#[test]
fn write_page_on_read_only_returns_read_only_mode() {
    let f = seeded_pages();
    let mut io = PageIo::open(f, true);
    let err = io.write_page(0, &[0u8; PAGE_SIZE]).unwrap_err();
    assert!(
        matches!(err, ChiselError::ReadOnlyMode),
        "expected ReadOnlyMode, got {err:?}"
    );
}

#[test]
fn fsync_on_read_only_returns_read_only_mode() {
    let f = seeded_pages();
    let mut io = PageIo::open(f, true);
    let err = io.fsync().unwrap_err();
    assert!(
        matches!(err, ChiselError::ReadOnlyMode),
        "expected ReadOnlyMode, got {err:?}"
    );
}

#[test]
fn set_page_count_on_read_only_returns_read_only_mode() {
    let f = seeded_pages();
    let mut io = PageIo::open(f, true);
    let err = io.set_page_count(0).unwrap_err();
    assert!(
        matches!(err, ChiselError::ReadOnlyMode),
        "expected ReadOnlyMode, got {err:?}"
    );
}

#[test]
fn read_page_on_read_only_succeeds() {
    let f = seeded_pages();
    let io = PageIo::open(f, true);
    let buf = io.read_page(0).unwrap();
    assert_eq!(buf, [0u8; PAGE_SIZE]);
}

#[test]
fn force_read_only_blocks_writes_after_a_read_write_open() {
    let mut io = PageIo::open(Vec::new(), false);
    assert!(!io.is_read_only());

    io.force_read_only();

    assert!(io.is_read_only());
    let buf = [0u8; PAGE_SIZE];
    assert!(matches!(
        io.write_page(0, &buf),
        Err(ChiselError::ReadOnlyMode)
    ));
}

#[test]
fn fsync_count_increments_per_successful_fsync() {
    let f = seeded_pages();
    let mut io = PageIo::open(f, false);
    assert_eq!(io.fsync_count(), 0);
    io.fsync().unwrap();
    assert_eq!(io.fsync_count(), 1);
    io.fsync().unwrap();
    assert_eq!(io.fsync_count(), 2);
}

#[test]
fn test_page_io_write_and_read() {
    let mut io = PageIo::open(Vec::new(), false);
    let mut buf = [0u8; PAGE_SIZE];
    buf[0] = 0xAB;
    buf[100] = 0xCD;
    io.write_page(0, &buf).unwrap();
    let read_buf = io.read_page(0).unwrap();
    assert_eq!(read_buf[0], 0xAB);
    assert_eq!(read_buf[100], 0xCD);
}

#[test]
fn test_page_io_multiple_pages() {
    let mut io = PageIo::open(Vec::new(), false);
    let mut buf1 = [0u8; PAGE_SIZE];
    let mut buf2 = [0u8; PAGE_SIZE];
    buf1[0] = 1;
    buf2[0] = 2;
    io.write_page(0, &buf1).unwrap();
    io.write_page(1, &buf2).unwrap();
    assert_eq!(io.read_page(0).unwrap()[0], 1);
    assert_eq!(io.read_page(1).unwrap()[0], 2);
}

#[test]
fn test_page_io_fsync() {
    let mut io = PageIo::open(Vec::new(), false);
    let buf = [0u8; PAGE_SIZE];
    io.write_page(0, &buf).unwrap();
    io.fsync().unwrap();
}

#[test]
fn test_page_io_file_len() {
    let mut io = PageIo::open(Vec::new(), false);
    assert_eq!(io.page_count().unwrap(), 0);
    let buf = [0u8; PAGE_SIZE];
    io.write_page(0, &buf).unwrap();
    assert_eq!(io.page_count().unwrap(), 1);
    io.write_page(2, &buf).unwrap();
    assert_eq!(io.page_count().unwrap(), 3);
}

#[test]
fn page_count_cache_seeded_from_file_length_on_open() {
    let f = seeded_pages();
    let io = PageIo::open(f, false);
    assert_eq!(io.page_count().unwrap(), 1);
    assert_eq!(io.read_page(0).unwrap(), [0u8; PAGE_SIZE]);
}

#[test]
fn page_count_cache_survives_drop_and_reopen() {
    let mut pages: Vec<[u8; PAGE_SIZE]> = Vec::new();
    {
        let mut io = PageIo::open(pages.clone(), false);
        io.write_page(0, &[0u8; PAGE_SIZE]).unwrap();
        io.write_page(1, &[0u8; PAGE_SIZE]).unwrap();
        io.write_page(2, &[0u8; PAGE_SIZE]).unwrap();
        assert_eq!(io.page_count().unwrap(), 3);
        for id in 0..3 {
            pages.push(io.read_page(id).unwrap());
        }
    }
    let mut io = PageIo::open(pages, false);
    assert_eq!(io.page_count().unwrap(), 3);
}

#[test]
fn memory_starts_with_zero_pages() {
    let io = PageIo::open_in_memory().unwrap();
    assert_eq!(io.page_count().unwrap(), 0);
}

#[test]
fn memory_write_then_read_roundtrip() {
    let mut io = PageIo::open_in_memory().unwrap();
    let mut buf = [0u8; PAGE_SIZE];
    buf[0] = 0x42;
    buf[PAGE_SIZE - 1] = 0xFF;
    io.write_page(0, &buf).unwrap();
    let read = io.read_page(0).unwrap();
    assert_eq!(read, buf);
}

#[test]
fn memory_write_extends_page_count() {
    let mut io = PageIo::open_in_memory().unwrap();
    io.write_page(0, &[0u8; PAGE_SIZE]).unwrap();
    io.write_page(1, &[0u8; PAGE_SIZE]).unwrap();
    io.write_page(2, &[0u8; PAGE_SIZE]).unwrap();
    assert_eq!(io.page_count().unwrap(), 3);
}

#[test]
fn memory_write_beyond_end_grows_with_zero_fill() {
    let mut io = PageIo::open_in_memory().unwrap();
    let mut buf = [0u8; PAGE_SIZE];
    buf[42] = 0xAB;
    io.write_page(5, &buf).unwrap();
    assert_eq!(io.page_count().unwrap(), 6);
    for p in 0..5 {
        assert_eq!(io.read_page(p).unwrap(), [0u8; PAGE_SIZE]);
    }
    assert_eq!(io.read_page(5).unwrap(), buf);
}

#[test]
fn memory_read_out_of_range_is_invalid_page_id() {
    let mut io = PageIo::open_in_memory().unwrap();
    io.write_page(0, &[0u8; PAGE_SIZE]).unwrap();
    let err = io.read_page(1).unwrap_err();
    assert!(
        matches!(err, ChiselError::InvalidPageId { page_id: 1 }),
        "expected InvalidPageId {{ 1 }}, got {err:?}"
    );
}

#[test]
fn memory_fsync_is_noop() {
    let mut io = PageIo::open_in_memory().unwrap();
    let mut marker = [0u8; PAGE_SIZE];
    marker[0] = 0xA5;
    marker[PAGE_SIZE - 1] = 0x5A;
    io.write_page(0, &marker).unwrap();
    io.write_page(1, &[0u8; PAGE_SIZE]).unwrap();

    let before_count = io.page_count().unwrap();
    io.fsync().unwrap();
    let after_count = io.page_count().unwrap();

    assert_eq!(before_count, after_count);
    assert_eq!(io.read_page(0).unwrap(), marker);
    assert_eq!(io.read_page(1).unwrap(), [0u8; PAGE_SIZE]);
}

#[test]
fn memory_set_page_count_shrinks_and_grows() {
    let mut io = PageIo::open_in_memory().unwrap();
    io.write_page(0, &[1u8; PAGE_SIZE]).unwrap();
    io.write_page(1, &[2u8; PAGE_SIZE]).unwrap();
    io.write_page(2, &[3u8; PAGE_SIZE]).unwrap();
    io.set_page_count(1).unwrap();
    assert_eq!(io.page_count().unwrap(), 1);
    assert_eq!(io.read_page(0).unwrap(), [1u8; PAGE_SIZE]);
    io.set_page_count(4).unwrap();
    assert_eq!(io.page_count().unwrap(), 4);
    for p in 1..4 {
        assert_eq!(io.read_page(p).unwrap(), [0u8; PAGE_SIZE]);
    }
}

#[test]
fn fsync_count_in_memory_backing_also_increments() {
    let mut io = PageIo::open_in_memory().unwrap();
    assert_eq!(io.fsync_count(), 0);
    io.fsync().unwrap();
    io.fsync().unwrap();
    assert_eq!(io.fsync_count(), 2);
}

#[test]
fn page_count_cache_extends_on_write_past_eof() {
    let mut io = PageIo::open_in_memory().unwrap();
    assert_eq!(io.page_count().unwrap(), 0);
    io.write_page(4, &[0u8; PAGE_SIZE]).unwrap();
    assert_eq!(io.page_count().unwrap(), 5);
}

#[test]
fn page_count_cache_does_not_shrink_on_intra_cache_write() {
    let mut io = PageIo::open_in_memory().unwrap();
    io.write_page(5, &[0u8; PAGE_SIZE]).unwrap();
    assert_eq!(io.page_count().unwrap(), 6);
    io.write_page(2, &[0u8; PAGE_SIZE]).unwrap();
    assert_eq!(io.page_count().unwrap(), 6);
}

#[test]
fn page_count_cache_tracks_set_page_count_both_directions() {
    let mut io = PageIo::open_in_memory().unwrap();
    io.set_page_count(10).unwrap();
    assert_eq!(io.page_count().unwrap(), 10);
    io.set_page_count(3).unwrap();
    assert_eq!(io.page_count().unwrap(), 3);
    io.set_page_count(7).unwrap();
    assert_eq!(io.page_count().unwrap(), 7);
}

#[test]
fn memory_records_nothing() {
    let mut io = PageIo::open_in_memory().unwrap();
    assert!(io.take_journal().is_empty());
    io.write_page(0, &[1u8; PAGE_SIZE]).unwrap();
    io.fsync().unwrap();
    assert!(io.take_journal().is_empty());
}
