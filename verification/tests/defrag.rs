use chisel::page::PAGE_SIZE;
use chisel::page_io::IoAction;
use chisel::{Chisel, ChiselError, Handle, Options};

type File = Vec<[u8; PAGE_SIZE]>;

fn save(db: &mut Chisel, file: &mut File) {
    for action in db.take_journal().unwrap() {
        match action {
            IoAction::Write { page_id, bytes } => {
                let at = page_id as usize;
                if file.len() <= at {
                    file.resize(at + 1, [0u8; PAGE_SIZE]);
                }
                file[at] = *bytes;
            }
            IoAction::SetPageCount { count } => file.resize(count as usize, [0u8; PAGE_SIZE]),
            IoAction::Sync => {}
        }
    }
}

/// The storage after a crash: everything that only the running program knew of is
/// lost.
fn crash(mut db: Chisel) -> Chisel {
    let mut file: File = Vec::new();
    save(&mut db, &mut file);
    Chisel::open_pages(file, Options::default()).unwrap()
}

fn sparse_pages(db: &mut Chisel, threshold: f64) -> Vec<u64> {
    let fill = db.page_fill().unwrap();
    fill.iter().filter(|f| (f.live as f64) / (f.stored as f64) < threshold).map(|f| f.page).collect()
}

fn thinned(keep: usize) -> (Chisel, Vec<Handle>) {
    let mut db = Chisel::open_pages(Vec::new(), Options::default()).unwrap();
    db.begin().unwrap();
    let all: Vec<Handle> = (0..60).map(|_| db.allocate(&vec![0xAB; 400]).unwrap()).collect();
    db.commit().unwrap();
    let mut kept = Vec::new();
    db.begin().unwrap();
    for (i, &h) in all.iter().enumerate() {
        if i % keep == 0 {
            kept.push(h);
        } else {
            db.delete(h).unwrap();
        }
    }
    db.commit().unwrap();
    (db, kept)
}

#[test]
fn defrag_reports_freemap_orphans_reclaimed() {
    let mut db = Chisel::open_pages(Vec::new(), Options::default()).unwrap();
    let big: Vec<u8> = vec![0xCD; 1 << 14];
    db.begin().unwrap();
    let h = db.allocate(&big).unwrap();
    db.commit().unwrap();
    db.begin().unwrap();
    db.delete(h).unwrap();
    db.commit().unwrap();
    db.begin().unwrap();
    let h = db.allocate(&big).unwrap();
    db.delete(h).unwrap();
    db.commit().unwrap();

    let mut db = crash(db);
    db.begin().unwrap();
    let stats = db.defrag(&Vec::new(), 0).unwrap();
    db.commit().unwrap();
    assert!(
        stats.freemap_orphans_reclaimed >= 1,
        "defrag must report the orphan as reclaimed, got {}",
        stats.freemap_orphans_reclaimed
    );

    db.begin().unwrap();
    let again = db.defrag(&Vec::new(), 0).unwrap();
    db.commit().unwrap();
    assert_eq!(again.freemap_orphans_reclaimed, 0, "second sweep must find no orphans (idempotent)");
}

#[test]
fn defrag_compact_and_sweep_excludes_structural_superseded() {
    let (db, kept) = thinned(4);
    let value: Vec<u8> = vec![0xAB; 400];
    let mut db = crash(db);
    db.begin().unwrap();
    let sparse = sparse_pages(&mut db, 0.5);
    let stats = db.defrag(&sparse, 0).unwrap();
    assert!(stats.values_moved > 0, "at least one value must have been moved");
    assert_eq!(
        stats.freemap_orphans_reclaimed, 1,
        "exactly the one orphan must be reclaimed; got {}",
        stats.freemap_orphans_reclaimed
    );
    db.commit().unwrap();

    db.begin().unwrap();
    for &h in &kept {
        assert_eq!(db.read(h).unwrap(), value, "handle {h:?} returned wrong data after compact+sweep defrag");
    }
    db.rollback().unwrap();
}

#[test]
fn defrag_on_a_poisoned_database_refuses() {
    let mut file: File = Vec::new();
    let mut db = Chisel::open_pages(file.clone(), Options::default()).unwrap();
    db.begin().unwrap();
    let h = db.allocate(b"doomed").unwrap();
    db.commit().unwrap();
    save(&mut db, &mut file);
    for page in file.iter_mut().skip(2) {
        page[100] ^= 0xFF;
    }
    if let Ok(mut db) = Chisel::open_pages(file, Options::default()) {
        assert!(db.read(h).unwrap_err().is_fatal());
        assert!(db.is_poisoned());
        assert!(matches!(db.defrag(&Vec::new(), 0), Err(ChiselError::Poisoned)));
        assert!(matches!(db.begin(), Err(ChiselError::Poisoned)));
        assert!(matches!(db.read(h), Err(ChiselError::Poisoned)));
        assert!(matches!(db.handles(), Err(ChiselError::Poisoned)));
        assert!(matches!(db.counters(), Err(ChiselError::Poisoned)));
    }
}

#[test]
fn defrag_needs_a_transaction() {
    let mut db = Chisel::open_in_memory().unwrap();
    assert!(matches!(db.defrag(&Vec::new(), 0), Err(ChiselError::NoActiveTransaction)));
}

#[test]
fn defrag_of_an_empty_database_does_nothing() {
    let mut db = Chisel::open_in_memory().unwrap();
    db.begin().unwrap();
    let stats = db.defrag(&Vec::new(), 0).unwrap();
    assert_eq!(
        (stats.pages_examined, stats.pages_freed, stats.values_moved, stats.freemap_orphans_reclaimed),
        (0, 0, 0, 0)
    );
}

#[test]
fn defrag_moves_everything_off_sparse_pages() {
    let (mut db, kept) = thinned(10);
    db.begin().unwrap();
    let sparse = sparse_pages(&mut db, 0.5);
    assert_eq!(sparse.len(), 3);
    let stats = db.defrag(&sparse, 0).unwrap();
    assert_eq!(stats.values_moved, 6);
    assert_eq!(stats.pages_examined, 3);
    assert_eq!(stats.pages_freed, 3);
    let fill = db.page_fill().unwrap();
    assert_eq!(fill.len(), 1);
    assert_eq!((fill[0].live, fill[0].stored), (6, 6));
    db.commit().unwrap();
    for &h in &kept {
        assert_eq!(db.read(h).unwrap(), vec![0xAB; 400]);
    }
    assert_eq!(db.handles().unwrap(), kept);
}

#[test]
fn defrag_stops_at_the_limit() {
    let (mut db, kept) = thinned(10);
    db.begin().unwrap();
    let sparse = sparse_pages(&mut db, 0.5);
    let stats = db.defrag(&sparse, 2).unwrap();
    assert_eq!(stats.values_moved, 2);
    db.commit().unwrap();
    for &h in &kept {
        assert_eq!(db.read(h).unwrap(), vec![0xAB; 400]);
    }
}

#[test]
fn defrag_leaves_dense_pages_alone() {
    let (mut db, _) = thinned(1);
    db.begin().unwrap();
    let before = db.page_fill().unwrap();
    let sparse = sparse_pages(&mut db, 0.25);
    assert!(sparse.is_empty());
    let stats = db.defrag(&sparse, 0).unwrap();
    assert_eq!((stats.values_moved, stats.pages_freed), (0, 0));
    assert_eq!(db.page_fill().unwrap(), before);
}

#[test]
fn a_rolled_back_report_is_made_again() {
    let (db, _) = thinned(4);
    let mut db = crash(db);
    db.begin().unwrap();
    assert_eq!(db.defrag(&Vec::new(), 0).unwrap().freemap_orphans_reclaimed, 1);
    assert_eq!(db.defrag(&Vec::new(), 0).unwrap().freemap_orphans_reclaimed, 0);
    db.rollback().unwrap();
    db.begin().unwrap();
    db.savepoint("s").unwrap();
    assert_eq!(db.defrag(&Vec::new(), 0).unwrap().freemap_orphans_reclaimed, 0);
    db.release("s").unwrap();
    assert_eq!(db.defrag(&Vec::new(), 0).unwrap().freemap_orphans_reclaimed, 1);
    db.commit().unwrap();
}

#[test]
fn defrag_on_a_poisoned_empty_database_refuses() {
    let mut db = Chisel::open_in_memory().unwrap();
    db.begin().unwrap();
    assert!(db.handles().unwrap().is_empty());
    let lost = std::io::Error::from(std::io::ErrorKind::BrokenPipe);
    assert!(db.settle_journal(Err(lost)).unwrap_err().is_fatal());
    let err = db.defrag(&Vec::new(), 0).unwrap_err();
    assert!(
        matches!(err, ChiselError::Poisoned),
        "expected Poisoned from a defrag pass on a dead manager, got {err:?}"
    );
}

#[test]
fn page_fill_needs_a_transaction_and_ascends() {
    let (mut db, _) = thinned(3);
    assert!(matches!(db.page_fill(), Err(ChiselError::NoActiveTransaction)));
    db.begin().unwrap();
    let fill = db.page_fill().unwrap();
    assert!(fill.len() > 1);
    assert!(fill.windows(2).all(|w| w[0].page < w[1].page));
}

#[test]
fn defrag_packs_the_values_of_sparse_pages() {
    let (mut db, kept) = thinned(4);
    db.begin().unwrap();
    let before: Vec<u64> = db.page_fill().unwrap().iter().map(|f| f.page).collect();
    let sparse = sparse_pages(&mut db, 0.5);
    assert_eq!(sparse, before);
    let stats = db.defrag(&sparse, 0).unwrap();
    let after: Vec<u64> = db.page_fill().unwrap().iter().map(|f| f.page).collect();
    assert_eq!(stats.values_moved as usize, kept.len());
    assert_eq!(after.len(), 1, "fifteen values of 400 bytes fit on one page");
    assert!(!sparse.contains(&after[0]));
    assert_eq!(stats.pages_freed as usize, sparse.len());
    let again = db.defrag(&Vec::new(), 0).unwrap();
    assert_eq!((again.values_moved, again.pages_freed), (0, 0));
    db.commit().unwrap();
    for h in kept {
        assert_eq!(db.read(h).unwrap(), vec![0xAB; 400]);
    }
}

#[test]
fn freemap_orphans_wait_for_a_pass() {
    let mut db = Chisel::open_pages(Vec::new(), Options::default()).unwrap();
    let big: Vec<u8> = vec![0xCD; 1 << 14];
    for _ in 0..2 {
        db.begin().unwrap();
        let h = db.allocate(&big).unwrap();
        db.commit().unwrap();
        db.begin().unwrap();
        db.delete(h).unwrap();
        db.commit().unwrap();
    }
    let mut db = crash(db);
    for _ in 0..2 {
        db.begin().unwrap();
        db.allocate(b"no pass").unwrap();
        db.commit().unwrap();
    }
    db.begin().unwrap();
    let first = db.defrag(&Vec::new(), 0).unwrap();
    assert!(first.freemap_orphans_reclaimed >= 1);
    db.rollback().unwrap();
    db.begin().unwrap();
    let again = db.defrag(&Vec::new(), 0).unwrap();
    assert_eq!(again.freemap_orphans_reclaimed, first.freemap_orphans_reclaimed);
    db.commit().unwrap();
    db.begin().unwrap();
    assert_eq!(db.defrag(&Vec::new(), 0).unwrap().freemap_orphans_reclaimed, 0);
}
