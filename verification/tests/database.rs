use chisel::opening::{check_before_open, check_length};
use chisel::page::{stamp_checksum, PageType, PAGE_SIZE};
use chisel::page_io::IoAction;
use chisel::{Chisel, ChiselError, DrainInsertion, Handle, Options, SuperblockDefect, Tag};

type File = Vec<[u8; PAGE_SIZE]>;

fn apply(action: &IoAction, file: &mut File) {
    match action {
        IoAction::Write { page_id, bytes } => {
            let at = *page_id as usize;
            if file.len() <= at {
                file.resize(at + 1, [0u8; PAGE_SIZE]);
            }
            file[at] = **bytes;
        }
        IoAction::SetPageCount { count } => file.resize(*count as usize, [0u8; PAGE_SIZE]),
        IoAction::Sync => {}
    }
}

fn save(db: &mut Chisel, file: &mut File) {
    for action in db.take_journal().unwrap() {
        apply(&action, file);
    }
}

fn tag(n: u32) -> Tag {
    Tag::new(n).unwrap()
}

/// A transaction that stores `values`; the handles they got.
fn store(db: &mut Chisel, values: &[&[u8]]) -> Vec<Handle> {
    db.begin().unwrap();
    let handles = values.iter().map(|v| db.allocate(v).unwrap()).collect();
    db.commit().unwrap();
    handles
}

#[test]
fn values_come_back_under_their_handles() {
    let mut db = Chisel::open_in_memory().unwrap();
    let long = vec![7u8; 40_000];
    let fits = vec![8u8; 8162];
    let over = vec![9u8; 8163];
    let h = store(&mut db, &[b"", b"a", &long, &fits, &over]);
    assert_eq!(h.iter().map(|h| h.get()).collect::<Vec<u64>>(), vec![1, 2, 3, 4, 5]);
    assert_eq!(db.read(h[0]).unwrap(), b"");
    assert_eq!(db.read(h[1]).unwrap(), b"a");
    assert_eq!(db.read(h[2]).unwrap(), long);
    assert_eq!(db.read(h[3]).unwrap(), fits);
    assert_eq!(db.read(h[4]).unwrap(), over);
    assert_eq!(db.handles().unwrap(), h);
}

#[test]
fn update_keeps_handle_tag_and_byte() {
    let mut db = Chisel::open_in_memory().unwrap();
    db.begin().unwrap();
    let h = db.allocate_tagged(b"small", tag(5)).unwrap();
    db.set_client_byte(h, 42).unwrap();
    db.update(h, &vec![1u8; 20_000]).unwrap();
    assert_eq!(db.read(h).unwrap(), vec![1u8; 20_000]);
    db.update(h, b"again small").unwrap();
    assert_eq!(db.read(h).unwrap(), b"again small");
    assert_eq!(db.tag(h).unwrap(), Some(tag(5)));
    assert_eq!(db.client_byte(h).unwrap(), 42);
    db.commit().unwrap();
    assert_eq!(db.client_byte(h).unwrap(), 42);
    assert_eq!(db.handles_with_tag(tag(5)).unwrap(), vec![h]);
}

#[test]
fn handles_are_never_used_again() {
    let mut db = Chisel::open_in_memory().unwrap();
    let h = store(&mut db, &[b"x"])[0];
    db.begin().unwrap();
    db.delete(h).unwrap();
    let next = db.allocate(b"y").unwrap();
    db.commit().unwrap();
    assert_eq!(next.get(), h.get() + 1);
    assert!(matches!(db.read(h), Err(ChiselError::InvalidHandle(n)) if n == h.get()));
}

#[test]
fn unknown_handles_are_refused() {
    let mut db = Chisel::open_in_memory().unwrap();
    let ghost = Handle::from(77);
    db.begin().unwrap();
    assert!(matches!(db.read(ghost), Err(ChiselError::InvalidHandle(77))));
    assert!(matches!(db.update(ghost, b"v"), Err(ChiselError::InvalidHandle(77))));
    assert!(matches!(db.delete(ghost), Err(ChiselError::InvalidHandle(77))));
    assert!(matches!(db.tag(ghost), Err(ChiselError::InvalidHandle(77))));
    assert!(matches!(db.client_byte(ghost), Err(ChiselError::InvalidHandle(77))));
    assert!(matches!(db.set_client_byte(ghost, 1), Err(ChiselError::InvalidHandle(77))));
    assert!(matches!(db.delete_tagged(ghost, tag(1)), Err(ChiselError::InvalidHandle(77))));
    assert!(!db.is_poisoned());
}

#[test]
fn changes_need_a_transaction() {
    let mut db = Chisel::open_in_memory().unwrap();
    let h = store(&mut db, &[b"x"])[0];
    assert!(matches!(db.allocate(b"v"), Err(ChiselError::NoActiveTransaction)));
    assert!(matches!(db.update(h, b"v"), Err(ChiselError::NoActiveTransaction)));
    assert!(matches!(db.delete(h), Err(ChiselError::NoActiveTransaction)));
    assert!(matches!(db.commit(), Err(ChiselError::NoActiveTransaction)));
    assert!(matches!(db.rollback(), Err(ChiselError::NoActiveTransaction)));
    assert!(matches!(db.savepoint("s"), Err(ChiselError::NoActiveTransaction)));
    assert!(matches!(db.set_root_name("n", h), Err(ChiselError::NoActiveTransaction)));
    assert!(matches!(db.delete_with_tag(tag(1), 0), Err(ChiselError::NoActiveTransaction)));
    assert!(matches!(db.delete_many(&[h]), Err(ChiselError::NoActiveTransaction)));
    db.begin().unwrap();
    assert!(matches!(db.begin(), Err(ChiselError::TransactionAlreadyActive)));
    db.rollback().unwrap();
    assert_eq!(db.read(h).unwrap(), b"x");
}

#[test]
fn rollback_restores_the_committed_state() {
    let mut db = Chisel::open_in_memory().unwrap();
    let h = store(&mut db, &[b"one", b"two"]);
    db.begin().unwrap();
    db.update(h[0], b"changed").unwrap();
    db.delete(h[1]).unwrap();
    let fresh = db.allocate_tagged(b"three", tag(3)).unwrap();
    db.rollback().unwrap();
    assert_eq!(db.read(h[0]).unwrap(), b"one");
    assert_eq!(db.read(h[1]).unwrap(), b"two");
    assert!(db.read(fresh).is_err());
    assert!(db.handles_with_tag(tag(3)).unwrap().is_empty());
}

#[test]
fn savepoints_nest() {
    let mut db = Chisel::open_in_memory().unwrap();
    db.begin().unwrap();
    let h = db.allocate(b"0").unwrap();
    db.savepoint("a").unwrap();
    db.update(h, b"1").unwrap();
    db.savepoint("b").unwrap();
    db.update(h, b"2").unwrap();
    assert!(matches!(db.savepoint("a"), Err(ChiselError::DuplicateSavepoint(n)) if n == "a"));
    db.rollback_to("b").unwrap();
    assert_eq!(db.read(h).unwrap(), b"1");
    db.update(h, b"3").unwrap();
    db.rollback_to("b").unwrap();
    assert_eq!(db.read(h).unwrap(), b"1");
    db.rollback_to("a").unwrap();
    assert_eq!(db.read(h).unwrap(), b"0");
    assert!(matches!(db.rollback_to("b"), Err(ChiselError::SavepointNotFound(n)) if n == "b"));
    db.release("a").unwrap();
    assert!(matches!(db.release("a"), Err(ChiselError::SavepointNotFound(n)) if n == "a"));
    db.commit().unwrap();
    assert_eq!(db.read(h).unwrap(), b"0");
}

#[test]
fn tags_group_handles() {
    let mut db = Chisel::open_in_memory().unwrap();
    db.begin().unwrap();
    let a = db.allocate_tagged(b"a", tag(9)).unwrap();
    let b = db.allocate_tagged(b"b", tag(9)).unwrap();
    let c = db.allocate_tagged(b"c", tag(10)).unwrap();
    let d = db.allocate(b"d").unwrap();
    db.commit().unwrap();
    assert_eq!(db.handles_with_tag(tag(9)).unwrap(), vec![a, b]);
    assert_eq!(db.handles_with_tag(tag(10)).unwrap(), vec![c]);
    assert_eq!(db.tag(d).unwrap(), None);
    db.begin().unwrap();
    match db.delete_tagged(c, tag(9)) {
        Err(ChiselError::TagMismatch { handle, expected, actual }) => {
            assert_eq!((handle, expected, actual), (c.get(), 9, 10));
        }
        other => panic!("expected TagMismatch, got {other:?}"),
    }
    match db.delete_tagged(d, tag(9)) {
        Err(ChiselError::TagMismatch { handle, expected, actual }) => {
            assert_eq!((handle, expected, actual), (d.get(), 9, 0));
        }
        other => panic!("expected TagMismatch, got {other:?}"),
    }
    db.delete_tagged(a, tag(9)).unwrap();
    assert_eq!(db.handles_with_tag(tag(9)).unwrap(), vec![b]);
    db.commit().unwrap();
}

#[test]
fn a_tag_is_dropped_in_steps() {
    let mut db = Chisel::open_in_memory().unwrap();
    db.begin().unwrap();
    let h: Vec<Handle> = (0..5u8).map(|i| db.allocate_tagged(&[i], tag(4)).unwrap()).collect();
    let other = db.allocate_tagged(b"other", tag(5)).unwrap();
    let step = db.delete_with_tag(tag(4), 2).unwrap();
    assert_eq!(step.deleted.len(), 2);
    assert!(!step.complete);
    let idle = db.delete_with_tag(tag(4), 0).unwrap();
    assert!(idle.deleted.is_empty() && !idle.complete);
    let rest = db.delete_with_tag(tag(4), 10).unwrap();
    assert_eq!(rest.deleted.len() + step.deleted.len(), 5);
    assert!(rest.complete);
    for x in &h {
        assert!(db.read(*x).is_err());
    }
    assert_eq!(db.read(other).unwrap(), b"other");
    let none = db.delete_with_tag(tag(4), 3).unwrap();
    assert!(none.deleted.is_empty() && none.complete);
    db.commit().unwrap();
}

#[test]
fn delete_many_takes_all_away() {
    let mut db = Chisel::open_in_memory().unwrap();
    let h = store(&mut db, &[b"a", b"b", b"c"]);
    db.begin().unwrap();
    db.delete_many(&[h[0], h[2]]).unwrap();
    db.commit().unwrap();
    assert_eq!(db.handles().unwrap(), vec![h[1]]);
    db.begin().unwrap();
    assert!(matches!(db.delete_many(&[h[1], h[0]]), Err(ChiselError::InvalidHandle(_))));
    db.rollback().unwrap();
    assert_eq!(db.handles().unwrap(), vec![h[1]]);
}

#[test]
fn a_database_opened_for_reading_refuses_changes() {
    let mut file: File = Vec::new();
    let mut db = Chisel::open_pages(file.clone(), Options::default()).unwrap();
    let h = store(&mut db, &[b"kept"])[0];
    save(&mut db, &mut file);
    let mut db = Chisel::open_pages(file, Options::default().read_only(true)).unwrap();
    assert_eq!(db.read(h).unwrap(), b"kept");
    assert!(matches!(db.begin(), Err(ChiselError::ReadOnlyMode)));
    assert!(matches!(
        Chisel::open_pages(Vec::new(), Options::default().read_only(true)),
        Err(ChiselError::ReadOnlyMode)
    ));
    assert!(matches!(
        Chisel::open_in_memory_with_options(Options::default().read_only(true)),
        Err(ChiselError::ReadOnlyMode)
    ));
}

#[test]
fn settings_change_between_transactions_only() {
    let mut db = Chisel::open_in_memory().unwrap();
    db.begin().unwrap();
    assert!(matches!(db.set_cache_max_bytes(1 << 20), Err(ChiselError::TransactionInProgress)));
    assert!(matches!(db.set_spillway_max_bytes(0), Err(ChiselError::TransactionInProgress)));
    assert!(matches!(db.set_drain_insertion(DrainInsertion::Mru), Err(ChiselError::TransactionInProgress)));
    db.rollback().unwrap();
    db.set_cache_max_bytes(1 << 20).unwrap();
    db.set_spillway_max_bytes(0).unwrap();
    db.set_drain_insertion(DrainInsertion::Mru).unwrap();
}

#[test]
fn a_full_cache_is_reported_and_can_be_rolled_back() {
    let options = Options::default().cache_max_bytes(8 * PAGE_SIZE as u64).spillway_max_bytes(0);
    let mut db = Chisel::open_in_memory_with_options(options).unwrap();
    let h = store(&mut db, &[b"before"])[0];
    db.begin().unwrap();
    match db.allocate(&vec![1u8; 100_000]) {
        Err(ChiselError::CacheFull { limit }) => assert_eq!(limit, 8),
        other => panic!("expected CacheFull, got {other:?}"),
    }
    assert!(!db.is_poisoned());
    db.rollback().unwrap();
    assert_eq!(db.read(h).unwrap(), b"before");
}

#[test]
fn a_full_spillway_is_reported() {
    let options =
        Options::default().cache_max_bytes(4 * PAGE_SIZE as u64).spillway_max_bytes(4 * PAGE_SIZE as u64);
    let mut db = Chisel::open_in_memory_with_options(options).unwrap();
    db.begin().unwrap();
    match db.allocate(&vec![1u8; 200_000]) {
        Err(ChiselError::SpillwayFull { limit_bytes }) => assert_eq!(limit_bytes, 4 * PAGE_SIZE as u64),
        other => panic!("expected SpillwayFull, got {other:?}"),
    }
    db.rollback().unwrap();
}

#[test]
fn spilled_pages_are_committed_too() {
    let options =
        Options::default().cache_max_bytes(4 * PAGE_SIZE as u64).spillway_max_bytes(64 * PAGE_SIZE as u64);
    let mut db = Chisel::open_in_memory_with_options(options).unwrap();
    let big: Vec<u8> = (0..150_000u32).map(|i| (i % 253) as u8).collect();
    let h = store(&mut db, &[&big])[0];
    assert_eq!(db.read(h).unwrap(), big);
    let stats = db.stats().unwrap();
    assert_eq!(stats.spillway_logical_bytes, Some(0));
    assert_eq!(stats.spillway_max_bytes, Some(64 * PAGE_SIZE as u64));
}

#[test]
fn a_commit_syncs_three_times() {
    let mut db = Chisel::open_in_memory().unwrap();
    let before = db.counters().unwrap().fsync_calls;
    store(&mut db, &[b"x"]);
    assert_eq!(db.counters().unwrap().fsync_calls, before + 3);
}

#[test]
fn stats_describe_the_storage() {
    let mut db = Chisel::open_in_memory().unwrap();
    store(&mut db, &[b"x", b"y"]);
    let stats = db.stats().unwrap();
    assert_eq!(stats.handle_count, 2);
    assert_eq!(stats.file_size_bytes, stats.total_pages * PAGE_SIZE as u64);
    assert_eq!(stats.spillway_logical_bytes, None);
    assert_eq!(stats.spillway_max_bytes, None);
    assert_eq!(db.file_size_bytes().unwrap(), stats.file_size_bytes);
}

#[test]
fn a_crash_at_any_point_of_a_commit_leaves_one_of_the_two_states() {
    let mut file: File = Vec::new();
    let mut db = Chisel::open_pages(file.clone(), Options::default()).unwrap();
    let h = store(&mut db, &[b"old", &vec![3u8; 20_000]]);
    save(&mut db, &mut file);
    db.begin().unwrap();
    db.update(h[0], b"new").unwrap();
    db.delete(h[1]).unwrap();
    db.set_root_name("root", h[0]).unwrap();
    db.commit().unwrap();
    let actions = db.take_journal().unwrap();
    let mut seen_new = false;
    for cut in 0..actions.len() + 1 {
        let mut image = file.clone();
        for action in &actions[..cut] {
            apply(action, &mut image);
        }
        let mut back = Chisel::open_pages(image, Options::default()).unwrap();
        back.begin().unwrap();
        let value = back.read(h[0]).unwrap();
        if value == b"new" {
            assert!(back.read(h[1]).is_err());
            assert_eq!(back.get_root_name("root").unwrap(), Some(h[0]));
            seen_new = true;
        } else {
            assert!(!seen_new);
            assert_eq!(value, b"old");
            assert_eq!(back.read(h[1]).unwrap(), vec![3u8; 20_000]);
            assert_eq!(back.get_root_name("root").unwrap(), None);
        }
    }
    assert!(seen_new);
}

#[test]
fn reopened_storage_holds_what_was_committed() {
    let mut file: File = Vec::new();
    let mut db = Chisel::open_pages(file.clone(), Options::default().superblock_count(3)).unwrap();
    db.begin().unwrap();
    let handles: Vec<Handle> =
        (0..700u32).map(|i| db.allocate_tagged(&i.to_le_bytes(), tag(1 + i % 3)).unwrap()).collect();
    db.set_client_byte(handles[3], 200).unwrap();
    db.commit().unwrap();
    save(&mut db, &mut file);
    db.begin().unwrap();
    db.allocate(b"never committed").unwrap();
    db.rollback().unwrap();
    save(&mut db, &mut file);
    let mut back = Chisel::open_pages(file, Options::default()).unwrap();
    assert_eq!(back.handles().unwrap(), handles);
    for (i, &h) in handles.iter().enumerate() {
        assert_eq!(back.read(h).unwrap(), (i as u32).to_le_bytes());
        assert_eq!(back.tag(h).unwrap(), Some(tag(1 + i as u32 % 3)));
    }
    assert_eq!(back.client_byte(handles[3]).unwrap(), 200);
    back.begin().unwrap();
    let next = back.allocate(b"next").unwrap();
    assert_eq!(next.get(), handles[699].get() + 1);
    back.commit().unwrap();
}

#[test]
fn storage_of_another_page_size_is_refused() {
    let mut file: File = Vec::new();
    let mut db = Chisel::open_pages(file.clone(), Options::default()).unwrap();
    save(&mut db, &mut file);
    for slot in 0..2 {
        file[slot][48..52].copy_from_slice(&4096u32.to_le_bytes());
        chisel::page::stamp_checksum(&mut file[slot]);
    }
    assert!(matches!(
        Chisel::open_pages(file, Options::default()),
        Err(ChiselError::UnsupportedPageSize { stored: 4096, compiled: 8192 })
    ));
}

#[test]
fn a_newer_minor_version_is_opened_for_reading_only() {
    let mut file: File = Vec::new();
    let mut db = Chisel::open_pages(file.clone(), Options::default()).unwrap();
    let h = store(&mut db, &[b"kept"])[0];
    save(&mut db, &mut file);
    let version = chisel::page::pack_format_version(
        chisel::page::FORMAT_MAJOR_VERSION,
        chisel::page::FORMAT_MINOR_VERSION + 1,
    );
    for slot in 0..2 {
        file[slot][4..8].copy_from_slice(&version.to_le_bytes());
        chisel::page::stamp_checksum(&mut file[slot]);
    }
    let mut back = Chisel::open_pages(file, Options::default()).unwrap();
    assert_eq!(back.read(h).unwrap(), b"kept");
    assert!(matches!(back.begin(), Err(ChiselError::ReadOnlyMode)));
}

#[test]
fn a_key_for_a_plain_database_is_refused() {
    let key = chisel::Key::Passphrase(chisel::crypto::SecretString::new("pw".to_string()));
    assert!(matches!(
        Chisel::open_in_memory_with_options(Options::default().encryption_key(key)),
        Err(ChiselError::EncryptionNotSupported)
    ));
}

#[test]
fn damage_is_found_before_the_first_change() {
    let mut file: File = Vec::new();
    let mut db = Chisel::open_pages(file.clone(), Options::default()).unwrap();
    let h = store(&mut db, &[b"one"])[0];
    save(&mut db, &mut file);
    let data = (2..file.len()).find(|&p| file[p][0] == 2).unwrap();
    file[data][4000] ^= 1;
    let mut back = Chisel::open_pages(file, Options::default()).unwrap();
    match back.begin() {
        Err(ChiselError::ChecksumMismatch { page_id }) => assert_eq!(page_id, data as u64),
        Err(e) => assert!(e.is_fatal()),
        Ok(_) => panic!("damage was not found"),
    }
    assert!(back.is_poisoned());
    assert!(matches!(back.read(h), Err(ChiselError::Poisoned)));
}

#[test]
fn room_is_there_for_ordinary_values() {
    let mut db = Chisel::open_in_memory().unwrap();
    db.begin().unwrap();
    assert!(db.has_room_for(1_000_000));
    assert!(db.has_room_for_pages(1_000_000));
    assert!(db.has_commit_room());
}

#[test]
fn closing_loses_nothing_that_was_committed() {
    let mut file: File = Vec::new();
    let mut db = Chisel::open_pages(file.clone(), Options::default()).unwrap();
    let h = store(&mut db, &[b"closed"])[0];
    save(&mut db, &mut file);
    db.close().unwrap();
    let mut back = Chisel::open_pages(file, Options::default()).unwrap();
    assert_eq!(back.read(h).unwrap(), b"closed");
}

#[test]
fn files_are_judged_by_their_length() {
    use_lengths(None, true, Ok(()));
    use_lengths(Some(0), false, Err(()));
    use_lengths(None, false, Err(()));
    use_lengths(Some(1), false, Ok(()));
    let options = Options::default();
    assert_eq!(check_length(0, &options).unwrap(), 0);
    assert_eq!(check_length(PAGE_SIZE as u64, &options).unwrap(), 1);
    assert_eq!(check_length(3 * PAGE_SIZE as u64 + 5, &options).unwrap(), 3);
    match check_length(PAGE_SIZE as u64 - 1, &options) {
        Err(ChiselError::CorruptSuperblock { defects }) => {
            assert_eq!(defects.len(), 1);
            assert_eq!((defects[0].slot, defects[0].defect), (0, SuperblockDefect::TooShort));
        }
        other => panic!("expected CorruptSuperblock, got {other:?}"),
    }
    assert!(matches!(check_length(0, &options.create_if_missing(false)), Err(ChiselError::FileNotFound)));
    assert!(matches!(
        check_before_open(None, &Options::default().superblock_count(1)),
        Err(ChiselError::InvalidSuperblockCount { value: 1 })
    ));
}

fn use_lengths(length: Option<u64>, create: bool, expected: Result<(), ()>) {
    let outcome = check_before_open(length, &Options::default().create_if_missing(create));
    match expected {
        Ok(()) => assert!(outcome.is_ok()),
        Err(()) => assert!(matches!(outcome, Err(ChiselError::FileNotFound))),
    }
}

#[test]
fn keys_of_a_plain_database_cannot_be_changed() {
    let key = || chisel::Key::Raw(chisel::crypto::SecretBytes::new(vec![1u8; 32]));
    let mut db = Chisel::open_in_memory().unwrap();
    assert!(matches!(db.add_key(&key(), &key()), Err(ChiselError::EncryptionNotSupported)));
    assert!(matches!(db.rotate_key(&key(), &key()), Err(ChiselError::EncryptionNotSupported)));
    assert!(matches!(db.remove_key(&key()), Err(ChiselError::EncryptionNotSupported)));
    db.begin().unwrap();
    assert!(matches!(db.add_key(&key(), &key()), Err(ChiselError::TransactionInProgress)));
    assert!(matches!(db.remove_key(&key()), Err(ChiselError::TransactionInProgress)));
}

#[test]
fn committed_handles_stay_spent() {
    let mut db = Chisel::open_in_memory().unwrap();
    let first = store(&mut db, &[b"first"])[0];
    db.begin().unwrap();
    let lost = db.allocate(b"lost").unwrap();
    db.rollback().unwrap();
    db.begin().unwrap();
    db.delete(first).unwrap();
    db.savepoint("s").unwrap();
    let again = db.allocate(b"again").unwrap();
    assert_eq!(again, lost);
    db.rollback_to("s").unwrap();
    let kept = db.allocate(b"kept").unwrap();
    db.commit().unwrap();
    assert_eq!(kept, lost);
    assert!(kept.get() > first.get());
    db.begin().unwrap();
    db.delete(kept).unwrap();
    assert!(db.allocate(b"next").unwrap().get() > kept.get());
    db.commit().unwrap();
}

#[test]
fn freed_pages_are_used_again_without_harm() {
    let mut db = Chisel::open_in_memory().unwrap();
    let keep = store(&mut db, &[&vec![5u8; 3_000]])[0];
    for round in 0..20u8 {
        let h = store(&mut db, &[&vec![round; 3_000]])[0];
        assert_eq!(db.read(h).unwrap(), vec![round; 3_000]);
        db.begin().unwrap();
        db.delete(h).unwrap();
        db.commit().unwrap();
        assert_eq!(db.read(keep).unwrap(), vec![5u8; 3_000]);
    }
    assert!(db.stats().unwrap().total_pages < 100);
}

#[test]
fn a_storage_that_failed_makes_the_database_unusable() {
    let mut db = Chisel::open_in_memory().unwrap();
    let h = store(&mut db, &[b"kept"])[0];
    db.settle_journal(Ok(())).unwrap();
    assert!(!db.is_poisoned());
    let full = std::io::Error::from(std::io::ErrorKind::StorageFull);
    let e = db.settle_journal(Err(full)).unwrap_err();
    assert!(matches!(e, ChiselError::IoError(_)));
    assert!(db.is_poisoned());
    assert!(matches!(db.read(h), Err(ChiselError::Poisoned)));
    assert!(matches!(db.begin(), Err(ChiselError::Poisoned)));
    let mut other = Chisel::open_in_memory().unwrap();
    let gone = std::io::Error::from(std::io::ErrorKind::NotFound);
    assert!(matches!(other.settle_journal(Err(gone)), Err(ChiselError::FileNotFound)));
    assert!(other.is_poisoned());
}

#[test]
fn what_cannot_be_changed_says_why() {
    let mut db = Chisel::open_in_memory().unwrap();
    assert!(matches!(db.check_active(), Err(ChiselError::NoActiveTransaction)));
    db.begin().unwrap();
    assert!(db.check_active().is_ok());
    let lost = std::io::Error::from(std::io::ErrorKind::BrokenPipe);
    assert!(db.settle_journal(Err(lost)).is_err());
    assert!(matches!(db.check_active(), Err(ChiselError::Poisoned)));
}

#[test]
fn a_reopened_database_reads_what_was_committed() {
    let mut file: File = Vec::new();
    let mut db = Chisel::open_pages(Vec::new(), Options::default()).unwrap();
    let big = vec![0x5A; 20_000];
    db.begin().unwrap();
    let small = db.allocate_tagged(b"small", tag(3)).unwrap();
    let large = db.allocate_tagged(&big, tag(3)).unwrap();
    db.set_client_byte(small, 8).unwrap();
    db.commit().unwrap();
    save(&mut db, &mut file);
    let mut again = Chisel::open_pages(file, Options::default()).unwrap();
    assert_eq!(again.read(small).unwrap(), b"small");
    assert_eq!(again.read(large).unwrap(), big);
    assert_eq!(again.tag(small).unwrap(), Some(tag(3)));
    assert_eq!(again.client_byte(small).unwrap(), 8);
    assert_eq!(again.handles_with_tag(tag(3)).unwrap(), vec![small, large]);
    assert_eq!(again.handles().unwrap(), vec![small, large]);
}

#[test]
fn a_damaged_value_page_is_named() {
    let mut file: File = Vec::new();
    let mut db = Chisel::open_pages(Vec::new(), Options::default()).unwrap();
    let h = store(&mut db, &[b"value to damage"])[0];
    save(&mut db, &mut file);
    let marker = b"value to damage";
    let page = file.iter().position(|p| p.windows(marker.len()).any(|w| w == marker)).unwrap() as u64;
    file[page as usize][2000] ^= 1;
    let mut again = Chisel::open_pages(file, Options::default()).unwrap();
    assert!(matches!(again.read(h), Err(ChiselError::ChecksumMismatch { page_id }) if page_id == page));
    assert!(again.is_poisoned());
}

#[test]
fn pages_are_used_again() {
    let mut db = Chisel::open_in_memory().unwrap();
    let mut sizes = Vec::new();
    for round in 0..12u8 {
        db.begin().unwrap();
        let h = db.allocate(&[round; 100]).unwrap();
        db.commit().unwrap();
        db.begin().unwrap();
        db.delete(h).unwrap();
        db.commit().unwrap();
        sizes.push(db.file_size_bytes().unwrap());
    }
    let page = PAGE_SIZE as u64;
    assert!(
        sizes.windows(2).skip(4).all(|w| w[1] - w[0] <= 2 * page),
        "under a steady load a commit adds no page but one of the freemap: {sizes:?}"
    );
}

#[test]
fn eight_names_fill_the_table() {
    let mut db = Chisel::open_in_memory().unwrap();
    db.begin().unwrap();
    let h = db.allocate(b"target").unwrap();
    for n in 0..8 {
        db.set_root_name(&format!("name{n}"), h).unwrap();
        db.set_root_name(&format!("name{n}"), h).unwrap();
    }
    assert!(matches!(db.set_root_name("ninth", h), Err(ChiselError::RootNameTableFull)));
    db.set_root_name("name3", h).unwrap();
    db.clear_root_name("name5").unwrap();
    db.set_root_name("ninth", h).unwrap();
    assert_eq!(db.get_root_name("name5").unwrap(), None);
    assert!(matches!(db.set_root_name("tenth", h), Err(ChiselError::RootNameTableFull)));
}

#[test]
fn a_rollback_brings_names_back() {
    let mut db = Chisel::open_in_memory().unwrap();
    db.begin().unwrap();
    let h = db.allocate(b"kept").unwrap();
    db.set_root_name("before", h).unwrap();
    db.commit().unwrap();
    db.begin().unwrap();
    db.set_root_name("after", h).unwrap();
    db.clear_root_name("before").unwrap();
    db.rollback().unwrap();
    assert_eq!(db.get_root_name("before").unwrap(), Some(h));
    assert_eq!(db.get_root_name("after").unwrap(), None);
}

#[test]
fn unknown_handles_are_refused_when_the_cache_is_nearly_full() {
    let options = Options::default().cache_max_bytes(24 * PAGE_SIZE as u64).spillway_max_bytes(0);
    let mut db = Chisel::open_in_memory_with_options(options).unwrap();
    db.begin().unwrap();
    let a = db.allocate(b"a").unwrap();
    let b = db.allocate_tagged(b"b", tag(4)).unwrap();
    let gone = db.allocate(b"gone").unwrap();
    db.delete(gone).unwrap();
    let id = gone.get();
    assert!(matches!(db.update(gone, b"x"), Err(ChiselError::InvalidHandle(h)) if h == id));
    assert!(matches!(db.delete(gone), Err(ChiselError::InvalidHandle(h)) if h == id));
    assert!(matches!(db.set_client_byte(gone, 1), Err(ChiselError::InvalidHandle(h)) if h == id));
    assert!(matches!(db.delete_tagged(gone, tag(4)), Err(ChiselError::InvalidHandle(h)) if h == id));
    assert!(matches!(
        db.delete_tagged(b, tag(5)),
        Err(ChiselError::TagMismatch { expected: 5, actual: 4, .. })
    ));
    assert!(matches!(db.delete_many(&[gone, a]), Err(ChiselError::InvalidHandle(h)) if h == id));
    assert_eq!(db.read(a).unwrap(), b"a");
}

#[test]
fn a_freed_data_page_is_used_before_a_new_one() {
    let mut db = Chisel::open_in_memory().unwrap();
    let big = vec![7u8; 8000];
    let handles = store(&mut db, &[&big[..], &big[..], &big[..], &big[..]]);
    db.begin().unwrap();
    for &h in &handles {
        db.delete(h).unwrap();
    }
    db.commit().unwrap();
    let before = db.stats().unwrap().total_pages;
    store(&mut db, &[&big[..], &big[..], &big[..]]);
    let after = db.stats().unwrap().total_pages;
    assert!(after <= before + 2, "three data pages were free: {before} to {after}");
}

#[test]
fn a_damaged_page_of_the_table_is_found_on_opening() {
    let mut file: File = Vec::new();
    let mut db = Chisel::open_pages(Vec::new(), Options::default()).unwrap();
    db.begin().unwrap();
    for _ in 0..600 {
        db.allocate(b"v").unwrap();
    }
    db.commit().unwrap();
    save(&mut db, &mut file);
    let mut refused = 0;
    for id in 2..file.len() {
        if file[id][0] == PageType::HandleTable.code() {
            let mut damaged = file.clone();
            damaged[id][4000] ^= 1;
            if let Err(e) = Chisel::open_pages(damaged, Options::default()) {
                assert!(matches!(e, ChiselError::ChecksumMismatch { page_id } if page_id == id as u64));
                refused += 1;
            }
        }
    }
    assert_eq!(refused, 3, "root and two leaves");
}

#[test]
fn two_names_that_are_the_same_are_damage() {
    let mut file: File = Vec::new();
    let mut db = Chisel::open_pages(Vec::new(), Options::default()).unwrap();
    db.begin().unwrap();
    let h = db.allocate(b"v").unwrap();
    db.set_root_name("aaaa", h).unwrap();
    db.set_root_name("bbbb", h).unwrap();
    db.commit().unwrap();
    save(&mut db, &mut file);
    for page in file.iter_mut().take(2) {
        if let Some(at) = page.windows(4).position(|w| w == b"bbbb") {
            page[at..at + 4].copy_from_slice(b"aaaa");
            stamp_checksum(page);
        }
    }
    let mut again = Chisel::open_pages(file, Options::default()).unwrap();
    assert!(matches!(again.begin(), Err(ChiselError::CorruptSuperblock { .. })));
}
