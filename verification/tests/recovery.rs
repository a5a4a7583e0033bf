use chisel::page;
use chisel::page::{PageType, PAGE_SIZE};
use chisel::page_io::IoAction;
use chisel::superblock::{NamedRoot, Superblock, SuperblockDefect, DEFAULT_SUPERBLOCK_COUNT, NAMED_ROOT_COUNT};
use chisel::{Chisel, ChiselError, Handle, Options, Tag};

/// The pages of a file.
type File = Vec<[u8; PAGE_SIZE]>;

/// Carry out what a database did to its storage.
fn save(db: &mut Chisel, file: &mut File) {
    for action in db.take_journal().unwrap() {
        match action {
            IoAction::Write { page_id, bytes } => {
                let at = page_id as usize;
                if file.len() <= at {
                    file.resize(at + 1, [0u8; PAGE_SIZE]);
                }
                file[at] = *bytes;
            }
            IoAction::SetPageCount { count } => file.resize(count as usize, [0u8; PAGE_SIZE]),
            IoAction::Sync => {}
        }
    }
}

fn open(file: &mut File, options: Options) -> Result<Chisel, ChiselError> {
    let mut db = Chisel::open_pages(file.clone(), options)?;
    save(&mut db, file);
    Ok(db)
}

fn find_page_of_type(file: &File, want: PageType) -> u64 {
    for p in 2..file.len() {
        if file[p][0] == want.code() {
            return p as u64;
        }
    }
    panic!("no page of type {want:?} found");
}

fn rewrite_page_with_valid_checksum(file: &mut File, page_id: u64, mutate: impl FnOnce(&mut [u8; PAGE_SIZE])) {
    let mut buf = file[page_id as usize];
    mutate(&mut buf);
    page::stamp_checksum(&mut buf);
    file[page_id as usize] = buf;
}

fn active_superblock(file: &File) -> Superblock {
    let slots = file[..DEFAULT_SUPERBLOCK_COUNT as usize].to_vec();
    Superblock::select(&slots).expect("a valid winning superblock")
}

#[test]
fn test_recovery_cyclic_handle_table_spine_is_rejected_not_hung() {
    let mut file: File = Vec::new();
    {
        let mut db = open(&mut file, Options::default()).unwrap();
        db.begin().unwrap();
        for i in 0..600u64 {
            db.allocate(&i.to_le_bytes()).unwrap();
        }
        db.commit().unwrap();
        save(&mut db, &mut file);
    }
    let root = active_superblock(&file).root_handle_table_page;
    rewrite_page_with_valid_checksum(&mut file, root, |buf| {
        buf[page::DATA_PAGE_HEADER_SIZE..page::DATA_PAGE_HEADER_SIZE + 8]
            .copy_from_slice(&root.to_le_bytes());
    });
    match open(&mut file, Options::default()) {
        Err(e) => assert!(e.is_fatal(), "expected a fatal error, got {e:?}"),
        Ok(_) => panic!("Chisel::open accepted a cyclic handle-table spine"),
    }
}

#[test]
fn test_recovery_corrupt_membership_inner_depth_is_corrupt_page() {
    let mut file: File = Vec::new();
    {
        let mut db = open(&mut file, Options::default()).unwrap();
        db.begin().unwrap();
        db.allocate_tagged(b"row", Tag::new(7).unwrap())
            .unwrap();
        db.commit().unwrap();
        save(&mut db, &mut file);
    }
    let outer = active_superblock(&file).root_membership_index_page;
    rewrite_page_with_valid_checksum(&mut file, outer, |buf| {
        let off = page::DATA_PAGE_HEADER_SIZE + 7 * 8;
        let packed = u64::from_le_bytes(buf[off..off + 8].try_into().unwrap());
        let corrupt = (packed & ((1u64 << 58) - 1)) | (30u64 << 58);
        buf[off..off + 8].copy_from_slice(&corrupt.to_le_bytes());
    });
    let mut db = open(&mut file, Options::default()).unwrap();
    match db.handles_with_tag(Tag::new(7).unwrap()) {
        Err(ChiselError::CorruptPage { .. }) => {}
        other => panic!("expected CorruptPage, got {other:?}"),
    }
}

#[test]
fn test_recovery_after_clean_close() {
    let mut file: File = Vec::new();
    let handle;
    {
        let mut db = open(&mut file, Options::default()).unwrap();
        db.begin().unwrap();
        handle = db.allocate(b"durable data").unwrap();
        db.commit().unwrap();
        save(&mut db, &mut file);
    }
    let mut db = open(&mut file, Options::default()).unwrap();
    assert_eq!(db.read(handle).unwrap(), b"durable data");
}

#[test]
fn test_recovery_uncommitted_data_lost() {
    let mut file: File = Vec::new();
    let committed_handle;
    {
        let mut db = open(&mut file, Options::default()).unwrap();
        db.begin().unwrap();
        committed_handle = db.allocate(b"committed").unwrap();
        db.commit().unwrap();
        save(&mut db, &mut file);
        db.begin().unwrap();
        db.allocate(b"uncommitted").unwrap();
    }
    let mut db = open(&mut file, Options::default()).unwrap();
    assert_eq!(db.read(committed_handle).unwrap(), b"committed");
    assert!(db
        .read(Handle::from(committed_handle.get() + 1))
        .is_err());
}

#[test]
fn test_recovery_corrupt_superblock_b() {
    let mut file: File = Vec::new();
    let handle;
    {
        let mut db = open(&mut file, Options::default()).unwrap();
        db.begin().unwrap();
        handle = db.allocate(b"safe").unwrap();
        db.commit().unwrap();
        save(&mut db, &mut file);
    }
    file[1] = [0u8; PAGE_SIZE];
    let mut db = open(&mut file, Options::default()).unwrap();
    assert_eq!(db.read(handle).unwrap(), b"safe");
}

#[test]
fn test_recovery_tagged_index_recovers_from_prior_superblock() {
    let mut file: File = Vec::new();
    let h1;
    let h2;
    {
        let mut db = open(&mut file, Options::default()).unwrap();
        db.begin().unwrap();
        h1 = db
            .allocate_tagged(b"row1", Tag::new(9).unwrap())
            .unwrap();
        db.commit().unwrap();
        save(&mut db, &mut file);
        db.begin().unwrap();
        h2 = db
            .allocate_tagged(b"row2", Tag::new(9).unwrap())
            .unwrap();
        db.commit().unwrap();
        save(&mut db, &mut file);
    }
    file[1] = [0u8; PAGE_SIZE];
    let mut db = open(&mut file, Options::default()).unwrap();
    assert_eq!(
        db.handles_with_tag(Tag::new(9).unwrap()).unwrap(),
        vec![h1]
    );
    assert_eq!(db.tag(h1).unwrap().unwrap(), 9);
    assert!(db.read(h2).is_err());
}

#[test]
fn test_recovery_crash_between_data_fsync_and_superblock_fsync() {
    let mut file: File = Vec::new();

    let ha;
    {
        let mut db = open(&mut file, Options::default()).unwrap();
        db.begin().unwrap();
        ha = db.allocate(b"state-A-value").unwrap();
        db.commit().unwrap();
        save(&mut db, &mut file);
    }

    let sb_pages = active_superblock(&file).superblock_count as usize;
    let sb_region = file[..sb_pages].to_vec();

    let hb;
    {
        let mut db = open(&mut file, Options::default()).unwrap();
        db.begin().unwrap();
        hb = db.allocate(b"state-B-value-must-be-lost").unwrap();
        db.commit().unwrap();
        save(&mut db, &mut file);
    }
    let len_after_b = file.len() as u64 * PAGE_SIZE as u64;
    assert!(
        len_after_b > (sb_pages as u64 + 1) * PAGE_SIZE as u64,
        "B should have written data pages past the superblock region"
    );

    file[..sb_pages].copy_from_slice(&sb_region);

    {
        let mut db = open(&mut file, Options::default()).unwrap();
        assert_eq!(db.read(ha).unwrap(), b"state-A-value");
        assert!(
            db.read(hb).is_err(),
            "state-B transaction must be lost atomically, not half-applied"
        );
        assert_eq!(
            db.handles().unwrap().len(),
            1,
            "recovered table must hold only state A's handle"
        );
    }

    let hc;
    {
        let mut db = open(&mut file, Options::default()).unwrap();
        db.begin().unwrap();
        hc = db.allocate(b"state-C-after-recovery").unwrap();
        db.commit().unwrap();
        save(&mut db, &mut file);
        assert_eq!(
            hc, hb,
            "next_handle must have rewound to state A on recovery"
        );
    }
    let mut db = open(&mut file, Options::default()).unwrap();
    assert_eq!(db.read(ha).unwrap(), b"state-A-value");
    assert_eq!(db.read(hc).unwrap(), b"state-C-after-recovery");
}

#[test]
fn test_recovery_torn_first_commit() {
    let mut file: File = Vec::new();

    {
        let _db = open(&mut file, Options::default()).unwrap();
    }

    file[0] = [0u8; PAGE_SIZE];

    let mut db = open(&mut file, Options::default()).unwrap();
    assert_eq!(db.handles().unwrap().len(), 0);
}

#[test]
fn test_recovery_both_superblocks_corrupt() {
    let mut file: File = Vec::new();
    {
        let mut db = open(&mut file, Options::default()).unwrap();
        db.begin().unwrap();
        db.allocate(b"doomed").unwrap();
        db.commit().unwrap();
        save(&mut db, &mut file);
    }
    file[0] = [0u8; PAGE_SIZE];
    file[1] = [0u8; PAGE_SIZE];
    let result = open(&mut file, Options::default());
    assert!(result.is_err());
}

#[test]
fn test_recovery_corrupted_overflow_page_surfaces_fatal_error() {
    let mut file: File = Vec::new();

    let handle;
    {
        let mut db = open(&mut file, Options::default()).unwrap();
        db.begin().unwrap();
        handle = db.allocate(&vec![0xAB; 20_000]).unwrap();
        db.commit().unwrap();
        save(&mut db, &mut file);
    }

    let overflow_page = find_page_of_type(&file, PageType::Overflow);
    file[overflow_page as usize] = [0u8; PAGE_SIZE];

    let mut db = open(&mut file, Options::default())
        .expect("open should still succeed — only an overflow page is damaged");
    let err = db
        .read(handle)
        .expect_err("read of a broken overflow chain must fail");
    match err {
        ChiselError::ChecksumMismatch { page_id } => {
            assert_eq!(page_id, overflow_page, "wrong page id in error");
        }
        other => panic!("expected ChecksumMismatch on the overflow page, got {other:?}"),
    }
}

#[test]
fn test_read_of_structurally_broken_data_page_returns_corrupt_page() {
    let mut file: File = Vec::new();

    let handle;
    {
        let mut db = open(&mut file, Options::default()).unwrap();
        db.begin().unwrap();
        handle = db.allocate(b"alive but doomed").unwrap();
        db.commit().unwrap();
        save(&mut db, &mut file);
    }

    let data_page = find_page_of_type(&file, PageType::Data);
    rewrite_page_with_valid_checksum(&mut file, data_page, |buf| {
        buf[0] = 0xFF;
    });

    let mut db = open(&mut file, Options::default())
        .expect("open scans the handle table only, not data pages");
    let err = db.read(handle).expect_err("read must fail");
    match err {
        ChiselError::CorruptPage { page_id } => {
            assert_eq!(page_id, data_page, "CorruptPage error had wrong page id");
        }
        ChiselError::InvalidHandle(_) => panic!(
            "structurally-broken data page was misclassified as InvalidHandle"
        ),
        other => panic!("expected CorruptPage, got {other:?}"),
    }
}

#[test]
fn test_recovery_truncated_file_is_rejected() {
    let mut file: File = Vec::new();
    {
        let mut db = open(&mut file, Options::default()).unwrap();
        db.begin().unwrap();
        db.allocate(b"x").unwrap();
        db.commit().unwrap();
        save(&mut db, &mut file);
    }
    file.truncate(1);
    let err = match open(&mut file, Options::default()) {
        Ok(_) => panic!("truncated file was accepted by Chisel::open"),
        Err(e) => e,
    };
    assert!(
        matches!(
            err,
            ChiselError::InvalidPageId { .. }
                | ChiselError::CorruptSuperblock { .. }
                | ChiselError::FileSizeMismatch { .. }
        ),
        "expected a typed integrity error, got {err:?}"
    );
    assert!(
        err.is_fatal(),
        "truncation rejection must be a fatal error, got {err:?}"
    );
}

#[test]
fn test_recovery_superblock_pointing_past_eof_is_rejected() {
    let mut file: File = Vec::new();
    {
        let mut db = open(&mut file, Options::default()).unwrap();
        db.begin().unwrap();
        db.allocate(b"seed").unwrap();
        db.commit().unwrap();
        save(&mut db, &mut file);
    }

    let sb = Superblock {
        magic: page::MAGIC,
        format_version: page::FORMAT_VERSION,
        txn_counter: u64::MAX / 2,
        root_handle_table_page: page::PAGE_ID_NONE,
        root_freemap_page: page::PAGE_ID_NONE,
        freemap_depth: 0,
        total_pages: 1_000_000,
        next_handle: 0,
        page_size: PAGE_SIZE as u32,
        named_roots: [NamedRoot::empty(); NAMED_ROOT_COUNT],
        superblock_count: DEFAULT_SUPERBLOCK_COUNT,
        root_membership_index_page: page::PAGE_ID_NONE,
    };
    let buf = sb.serialize();
    file[0] = buf;
    file[1] = [0u8; PAGE_SIZE];

    match open(&mut file, Options::default()) {
        Err(ChiselError::FileSizeMismatch { expected, actual }) => {
            assert_eq!(expected, 1_000_000 * PAGE_SIZE as u64);
            assert!(actual < expected);
        }
        Err(other) => panic!("expected FileSizeMismatch, got {other:?}"),
        Ok(_) => panic!("expected FileSizeMismatch, open succeeded"),
    }
}

#[test]
fn test_recovery_torn_second_superblock_falls_back_to_previous() {
    let mut file: File = Vec::new();

    let h1;
    let h2;
    {
        let mut db = open(&mut file, Options::default()).unwrap();
        db.begin().unwrap();
        h1 = db.allocate(b"from commit 1").unwrap();
        db.commit().unwrap();
        save(&mut db, &mut file);

        db.begin().unwrap();
        h2 = db.allocate(b"from commit 2").unwrap();
        db.commit().unwrap();
        save(&mut db, &mut file);
    }

    file[1] = [0u8; PAGE_SIZE];

    let mut db = open(&mut file, Options::default()).unwrap();
    assert_eq!(db.read(h1).unwrap(), b"from commit 1");
    assert!(
        db.read(h2).is_err(),
        "handle from the torn commit should not be visible after recovery"
    );
}

#[test]
fn test_reject_unsupported_format_version() {
    let mut file: File = Vec::new();

    {
        let _db = open(&mut file, Options::default()).unwrap();
    }

    let future_major = page::pack_format_version(page::FORMAT_MAJOR_VERSION.wrapping_add(1), 0);
    let mut sb = Superblock {
        magic: page::MAGIC,
        format_version: future_major,
        txn_counter: 5,
        root_handle_table_page: page::PAGE_ID_NONE,
        root_freemap_page: page::PAGE_ID_NONE,
        freemap_depth: 0,
        total_pages: 2,
        next_handle: 0,
        page_size: PAGE_SIZE as u32,
        named_roots: [NamedRoot::empty(); NAMED_ROOT_COUNT],
        superblock_count: DEFAULT_SUPERBLOCK_COUNT,
        root_membership_index_page: page::PAGE_ID_NONE,
    };
    let buf_a = sb.serialize();
    sb.txn_counter = 4;
    let buf_b = sb.serialize();
    file[0] = buf_a;
    file[1] = buf_b;

    match open(&mut file, Options::default()) {
        Err(ChiselError::UnsupportedFormatVersion { found, expected }) => {
            assert_eq!(found, future_major);
            assert_eq!(expected, page::FORMAT_VERSION);
        }
        Err(other) => panic!("expected UnsupportedFormatVersion, got error {:?}", other),
        Ok(_) => panic!("expected UnsupportedFormatVersion, but open succeeded"),
    }
}

#[test]
fn test_poison_recovery_by_reopen() {
    let mut file: File = Vec::new();

    let handle = {
        let mut db = open(&mut file, Options::default()).unwrap();
        assert!(!db.is_poisoned());
        db.begin().unwrap();
        let h = db.allocate(b"survives recovery").unwrap();
        db.commit().unwrap();
        save(&mut db, &mut file);
        h
    };

    let mut db = open(&mut file, Options::default()).unwrap();
    assert!(!db.is_poisoned());
    assert_eq!(db.read(handle).unwrap(), b"survives recovery");
}

#[test]
fn test_named_roots_survive_commit_and_reopen() {
    let mut file: File = Vec::new();

    let meta_handle;
    {
        let mut db = open(&mut file, Options::default()).unwrap();
        db.begin().unwrap();
        meta_handle = db.allocate(b"meta btree root state").unwrap();
        db.set_root_name("meta", meta_handle).unwrap();
        db.commit().unwrap();
        save(&mut db, &mut file);
    }

    let mut db = open(&mut file, Options::default()).unwrap();
    assert_eq!(db.get_root_name("meta").unwrap(), Some(meta_handle));
    assert_eq!(db.read(meta_handle).unwrap(), b"meta btree root state");
    assert_eq!(db.get_root_name("does_not_exist").unwrap(), None);
}

#[test]
fn test_named_roots_revert_on_rollback() {
    let mut file: File = Vec::new();

    let mut db = open(&mut file, Options::default()).unwrap();
    db.begin().unwrap();
    let h1 = db.allocate(b"initial").unwrap();
    db.set_root_name("meta", h1).unwrap();
    db.commit().unwrap();
    save(&mut db, &mut file);

    db.begin().unwrap();
    let h2 = db.allocate(b"replacement").unwrap();
    db.set_root_name("meta", h2).unwrap();
    assert_eq!(db.get_root_name("meta").unwrap(), Some(h2));
    db.rollback().unwrap();

    assert_eq!(db.get_root_name("meta").unwrap(), Some(h1));
}

#[test]
fn test_named_roots_revert_on_rollback_to_savepoint() {
    let mut file: File = Vec::new();

    let mut db = open(&mut file, Options::default()).unwrap();
    db.begin().unwrap();
    let h1 = db.allocate(b"a").unwrap();
    db.set_root_name("meta", h1).unwrap();
    db.savepoint("sp").unwrap();

    let h2 = db.allocate(b"b").unwrap();
    db.set_root_name("meta", h2).unwrap();
    db.set_root_name("index", h2).unwrap();
    assert_eq!(db.get_root_name("meta").unwrap(), Some(h2));
    assert_eq!(db.get_root_name("index").unwrap(), Some(h2));

    db.rollback_to("sp").unwrap();
    assert_eq!(db.get_root_name("meta").unwrap(), Some(h1));
    assert_eq!(db.get_root_name("index").unwrap(), None);
    db.commit().unwrap();
    save(&mut db, &mut file);
}

#[test]
fn test_named_roots_validation_errors() {
    let mut file: File = Vec::new();

    let mut db = open(&mut file, Options::default()).unwrap();
    db.begin().unwrap();

    assert!(matches!(
        db.set_root_name("", Handle::from(0)),
        Err(ChiselError::InvalidRootName)
    ));
    let too_long = "a".repeat(25);
    assert!(matches!(
        db.set_root_name(&too_long, Handle::from(0)),
        Err(ChiselError::InvalidRootName)
    ));
    assert!(matches!(
        db.set_root_name("bad\0name", Handle::from(0)),
        Err(ChiselError::InvalidRootName)
    ));
    let exactly_24 = "a".repeat(24);
    assert!(db
        .set_root_name(&exactly_24, Handle::from(42))
        .is_ok());
    assert_eq!(
        db.get_root_name(&exactly_24).unwrap(),
        Some(Handle::from(42))
    );
    db.commit().unwrap();
    save(&mut db, &mut file);
}

#[test]
fn test_named_roots_table_full() {
    let mut file: File = Vec::new();

    let mut db = open(&mut file, Options::default()).unwrap();
    db.begin().unwrap();

    for i in 0..8 {
        let name = format!("r{i}");
        db.set_root_name(&name, Handle::from(i as u64))
            .unwrap();
    }
    db.set_root_name("r3", Handle::from(999)).unwrap();
    assert_eq!(
        db.get_root_name("r3").unwrap(),
        Some(Handle::from(999))
    );

    assert!(matches!(
        db.set_root_name("overflow", Handle::from(1234)),
        Err(ChiselError::RootNameTableFull)
    ));

    db.clear_root_name("r0").unwrap();
    assert!(db
        .set_root_name("new_one", Handle::from(1234))
        .is_ok());
    assert_eq!(
        db.get_root_name("new_one").unwrap(),
        Some(Handle::from(1234))
    );
    db.commit().unwrap();
    save(&mut db, &mut file);
}

#[test]
fn test_named_roots_clear_is_idempotent() {
    let mut file: File = Vec::new();

    let mut db = open(&mut file, Options::default()).unwrap();
    db.begin().unwrap();
    db.set_root_name("meta", Handle::from(7)).unwrap();
    db.clear_root_name("meta").unwrap();
    assert_eq!(db.get_root_name("meta").unwrap(), None);
    db.clear_root_name("meta").unwrap();
    db.clear_root_name("never_set").unwrap();
    db.commit().unwrap();
    save(&mut db, &mut file);
}

#[test]
fn test_delete_then_allocate_reuses_pages() {
    let mut file: File = Vec::new();

    let mut db = open(&mut file, Options::default()).unwrap();

    db.begin().unwrap();
    let mut handles = Vec::new();
    for i in 0..20 {
        handles.push(db.allocate(format!("value-{i}").as_bytes()).unwrap());
    }
    db.commit().unwrap();
    save(&mut db, &mut file);

    db.begin().unwrap();
    for &h in &handles {
        db.delete(h).unwrap();
    }
    db.commit().unwrap();
    save(&mut db, &mut file);
    let pages_after_delete = db.stats().unwrap().total_pages;

    db.begin().unwrap();
    for i in 0..20 {
        db.allocate(format!("replacement-{i}").as_bytes()).unwrap();
    }
    db.commit().unwrap();
    save(&mut db, &mut file);
    let pages_after_reuse = db.stats().unwrap().total_pages;
    let growth = pages_after_reuse - pages_after_delete;
    assert!(
        growth < 30,
        "delete+reallocate grew file by {growth} pages; data pages must be used again"
    );
}

#[test]
fn test_update_does_not_leak_old_inline_page() {
    let mut file: File = Vec::new();

    let mut db = open(&mut file, Options::default()).unwrap();
    db.begin().unwrap();
    let handle = db.allocate(b"initial").unwrap();
    db.commit().unwrap();
    save(&mut db, &mut file);
    let pages_after_initial = db.stats().unwrap().total_pages;

    for i in 0..50 {
        db.begin().unwrap();
        db.update(handle, format!("round-{i}").as_bytes()).unwrap();
        db.commit().unwrap();
        save(&mut db, &mut file);
    }
    let pages_after_updates = db.stats().unwrap().total_pages;
    let growth = pages_after_updates - pages_after_initial;
    assert!(
        growth < 90,
        "50 updates grew the file by {growth} pages; old data pages must be used again"
    );
    assert_eq!(db.read(handle).unwrap(), b"round-49");
}

#[test]
fn test_rollback_after_delete_does_not_free_pages() {
    let mut file: File = Vec::new();

    let mut db = open(&mut file, Options::default()).unwrap();
    db.begin().unwrap();
    let handle = db.allocate(b"keep me").unwrap();
    db.commit().unwrap();
    save(&mut db, &mut file);

    db.begin().unwrap();
    db.delete(handle).unwrap();
    db.rollback().unwrap();

    assert_eq!(db.read(handle).unwrap(), b"keep me");

    db.begin().unwrap();
    db.allocate(b"new value").unwrap();
    db.commit().unwrap();
    save(&mut db, &mut file);
    assert_eq!(db.read(handle).unwrap(), b"keep me");
}

#[test]
fn test_delete_many_atomicity() {
    let mut file: File = Vec::new();

    let mut db = open(&mut file, Options::default()).unwrap();
    db.begin().unwrap();
    let handles: Vec<Handle> = (0..10)
        .map(|i| db.allocate(format!("h{i}").as_bytes()).unwrap())
        .collect();
    db.commit().unwrap();
    save(&mut db, &mut file);

    db.begin().unwrap();
    db.delete_many(&handles).unwrap();
    db.rollback().unwrap();
    for (i, &h) in handles.iter().enumerate() {
        assert_eq!(db.read(h).unwrap(), format!("h{i}").as_bytes());
    }

    db.begin().unwrap();
    db.delete_many(&handles).unwrap();
    db.commit().unwrap();
    save(&mut db, &mut file);
    for &h in &handles {
        assert!(matches!(db.read(h), Err(ChiselError::InvalidHandle(_))));
    }

    let pages_before = db.stats().unwrap().total_pages;
    db.begin().unwrap();
    for i in 0..10 {
        db.allocate(format!("r{i}").as_bytes()).unwrap();
    }
    db.commit().unwrap();
    save(&mut db, &mut file);
    let pages_after = db.stats().unwrap().total_pages;
    let growth = pages_after - pages_before;
    assert!(
        growth < 15,
        "bulk delete_many + re-allocate grew file by {growth} pages; without reuse this would be ~20+"
    );
}

#[test]
fn test_r1_small_values_pack_into_data_pages() {
    let mut file: File = Vec::new();

    let mut db = open(&mut file, Options::default()).unwrap();
    let pages_before = db.stats().unwrap().total_pages;
    db.begin().unwrap();
    for i in 0..100 {
        db.allocate(format!("v{i}").as_bytes()).unwrap();
    }
    db.commit().unwrap();
    save(&mut db, &mut file);
    let pages_after = db.stats().unwrap().total_pages;
    let growth = pages_after - pages_before;
    assert!(
        growth < 150,
        "100 small values grew the file by {growth} pages; small values must share data pages"
    );
}

#[test]
fn test_r1_packed_values_are_readable_after_reopen() {
    let mut file: File = Vec::new();

    let handles: Vec<Handle>;
    {
        let mut db = open(&mut file, Options::default()).unwrap();
        db.begin().unwrap();
        handles = (0..50)
            .map(|i| db.allocate(format!("packed-{i}").as_bytes()).unwrap())
            .collect();
        db.commit().unwrap();
        save(&mut db, &mut file);
    }

    let mut db = open(&mut file, Options::default()).unwrap();
    for (i, &h) in handles.iter().enumerate() {
        assert_eq!(db.read(h).unwrap(), format!("packed-{i}").as_bytes());
    }
}

#[test]
fn test_r1_deleting_last_slot_frees_the_page() {
    let mut file: File = Vec::new();

    let mut db = open(&mut file, Options::default()).unwrap();
    db.begin().unwrap();
    let handles: Vec<Handle> = (0..5)
        .map(|i| db.allocate(format!("s{i}").as_bytes()).unwrap())
        .collect();
    db.commit().unwrap();
    save(&mut db, &mut file);
    let pages_after_alloc = db.stats().unwrap().total_pages;

    db.begin().unwrap();
    for &h in &handles {
        db.delete(h).unwrap();
    }
    db.commit().unwrap();
    save(&mut db, &mut file);

    db.begin().unwrap();
    for i in 0..5 {
        db.allocate(format!("r{i}").as_bytes()).unwrap();
    }
    db.commit().unwrap();
    save(&mut db, &mut file);
    let pages_after_reuse = db.stats().unwrap().total_pages;
    let growth = pages_after_reuse - pages_after_alloc;
    assert!(
        growth < 15,
        "re-allocate after bulk delete grew file by {growth} pages; packed page should be reusable"
    );
}

#[test]
fn test_r1_rollback_reverts_slot_counts() {
    let mut file: File = Vec::new();

    let mut db = open(&mut file, Options::default()).unwrap();
    db.begin().unwrap();
    let h1 = db.allocate(b"survive-1").unwrap();
    let h2 = db.allocate(b"survive-2").unwrap();
    db.commit().unwrap();
    save(&mut db, &mut file);

    db.begin().unwrap();
    let _ = db.allocate(b"rolled-back-1").unwrap();
    let _ = db.allocate(b"rolled-back-2").unwrap();
    db.rollback().unwrap();

    assert_eq!(db.read(h1).unwrap(), b"survive-1");
    assert_eq!(db.read(h2).unwrap(), b"survive-2");

    db.begin().unwrap();
    let h3 = db.allocate(b"after-rollback").unwrap();
    db.commit().unwrap();
    save(&mut db, &mut file);
    assert_eq!(db.read(h3).unwrap(), b"after-rollback");
}

#[test]
fn test_freemap_persists_across_reopen() {
    let mut file: File = Vec::new();
    let handle_to_delete;
    let pages_after_delete;
    {
        let mut db = open(&mut file, Options::default()).unwrap();
        db.begin().unwrap();
        for i in 0..5 {
            db.allocate(format!("keep-{i}").as_bytes()).unwrap();
        }
        handle_to_delete = db.allocate(b"delete me").unwrap();
        db.commit().unwrap();
        save(&mut db, &mut file);

        db.begin().unwrap();
        db.delete(handle_to_delete).unwrap();
        db.commit().unwrap();
        save(&mut db, &mut file);
        pages_after_delete = db.stats().unwrap().total_pages;
    }

    let mut db = open(&mut file, Options::default()).unwrap();
    db.begin().unwrap();
    db.allocate(b"reuse after reopen").unwrap();
    db.commit().unwrap();
    save(&mut db, &mut file);
    let pages_after_reopen_alloc = db.stats().unwrap().total_pages;
    let growth = pages_after_reopen_alloc - pages_after_delete;
    assert!(
        growth < 3,
        "after reopen, an allocation should reuse the freemap-tracked page (growth {growth})"
    );
}

#[test]
fn test_r4_create_with_custom_superblock_count() {
    let mut file: File = Vec::new();

    {
        let mut db = open(&mut file, Options::default().superblock_count(4)).unwrap();
        db.begin().unwrap();
        let h = db.allocate(b"r4 payload").unwrap();
        db.commit().unwrap();
        save(&mut db, &mut file);
        assert_eq!(db.read(h).unwrap(), b"r4 payload");
    }

    let mut db = open(&mut file, Options::default()).unwrap();
    assert_eq!(db.handles().unwrap().len(), 1);
}

#[test]
fn test_r4_invalid_superblock_count_rejected() {
    let mut file: File = Vec::new();
    let result = open(&mut file, Options::default().superblock_count(1));
    assert!(matches!(
        result,
        Err(ChiselError::InvalidSuperblockCount { value: 1 })
    ));

    let mut file2: File = Vec::new();
    let result = open(&mut file2, Options::default().superblock_count(17));
    assert!(matches!(
        result,
        Err(ChiselError::InvalidSuperblockCount { value: 17 })
    ));
}

#[test]
fn test_r4_n3_survives_two_consecutive_torn_writes() {
    let mut file: File = Vec::new();

    let handle;
    {
        let mut db = open(&mut file, Options::default().superblock_count(3)).unwrap();
        db.begin().unwrap();
        handle = db.allocate(b"survives two tears").unwrap();
        db.commit().unwrap();
        save(&mut db, &mut file);
        db.begin().unwrap();
        db.allocate(b"txn 2").unwrap();
        db.commit().unwrap();
        save(&mut db, &mut file);
        db.begin().unwrap();
        db.allocate(b"txn 3").unwrap();
        db.commit().unwrap();
        save(&mut db, &mut file);
    }

    file[0] = [0u8; PAGE_SIZE];
    file[1] = [0u8; PAGE_SIZE];

    let mut db = open(&mut file, Options::default()).unwrap();
    assert_eq!(db.read(handle).unwrap(), b"survives two tears");
    assert_eq!(db.handles().unwrap().len(), 3);
}

#[test]
fn test_r4_commits_rotate_through_all_slots() {
    let mut file: File = Vec::new();

    let mut db = open(&mut file, Options::default().superblock_count(3)).unwrap();

    db.begin().unwrap();
    db.allocate(b"first").unwrap();
    db.commit().unwrap();
    save(&mut db, &mut file);
    let baseline = db.stats().unwrap().total_pages;

    db.begin().unwrap();
    let h = db.allocate(b"packed").unwrap();
    db.commit().unwrap();
    save(&mut db, &mut file);
    for i in 0..4 {
        db.begin().unwrap();
        db.update(h, format!("update {i}").as_bytes()).unwrap();
        db.commit().unwrap();
        save(&mut db, &mut file);
    }
    let after = db.stats().unwrap().total_pages;

    assert!(
        after - baseline < 20,
        "5 commits under N=3 shouldn't grow the file significantly (baseline={baseline}, after={after})"
    );
}

#[test]
fn test_r4_default_is_two_slots() {
    let mut file: File = Vec::new();
    let mut db = open(&mut file, Options::default()).unwrap();
    assert_eq!(db.stats().unwrap().total_pages, 2);
}

#[test]
fn corrupt_magic_surfaces_as_corrupt_superblock_not_invalid_magic() {
    let mut file: File = Vec::new();
    {
        let mut db = open(&mut file, Options::default()).unwrap();
        db.begin().unwrap();
        db.allocate(b"x").unwrap();
        db.commit().unwrap();
        save(&mut db, &mut file);
        db.close().unwrap();
    }
    for slot in 0..DEFAULT_SUPERBLOCK_COUNT as u64 {
        rewrite_page_with_valid_checksum(&mut file, slot, |buf| {
            buf[0] ^= 0xFF;
        });
    }
    match open(&mut file, Options::default()) {
        Err(ChiselError::CorruptSuperblock { defects }) => {
            for slot in 0..DEFAULT_SUPERBLOCK_COUNT {
                assert!(
                    defects.iter().any(|d| d.slot == slot
                        && d.defect == SuperblockDefect::BadMagic),
                    "slot {slot} should be reported BadMagic, got {defects:?}"
                );
            }
        }
        Err(e) => panic!("bad magic must surface as CorruptSuperblock, got {e:?}"),
        Ok(_) => panic!("Chisel::open accepted a fully-corrupted-magic file"),
    };
}
