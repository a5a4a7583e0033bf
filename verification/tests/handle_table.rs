use chisel::handle_table::{HandleEntry, HandleFlags, HandleTable, ENTRIES_PER_LEAF, FLAG_INTERIOR};
use chisel::options::DrainInsertion;
use chisel::page::{stamp_checksum, PageType, DATA_PAGE_HEADER_SIZE, PAGE_FORMAT_VERSION_CURRENT, PAGE_SIZE};
use chisel::page_cache::PageCache;
use chisel::page_io::PageIo;
use chisel::page_source::Extend;
use chisel::radix::FANOUT;
use chisel::ChiselError;

const PTRS_PER_INTERIOR: usize = FANOUT;
const DEPTH2_BOUNDARY: u64 = ENTRIES_PER_LEAF as u64 * PTRS_PER_INTERIOR as u64;

fn make_cache() -> PageCache {
    ht_cache(1024)
}

fn ht_cache(max_pages: usize) -> PageCache {
    let io = PageIo::open_in_memory().unwrap();
    let mut cache = PageCache::new(io, max_pages as u64 * PAGE_SIZE as u64, 0, DrainInsertion::LruTail);
    cache.set_next_page_id(2);
    cache
}

fn insert_t(
    ht: &mut HandleTable,
    cache: &mut PageCache,
    root: u64,
    handle: u64,
    entry: &HandleEntry,
) -> Result<u64, ChiselError> {
    ht.insert(cache, root, handle, entry, &mut Extend, &mut Vec::new())
}

fn delete_t(
    ht: &mut HandleTable,
    cache: &mut PageCache,
    root: u64,
    handle: u64,
) -> Result<(u64, Option<HandleEntry>), ChiselError> {
    ht.delete(cache, root, handle, &mut Extend, &mut Vec::new())
}

#[test]
fn handle_table_capacity_and_span_saturate_on_out_of_range_depth() {
    let mut ht = HandleTable::new();
    ht.set_depth(30);
    assert_eq!(ht.capacity(), u64::MAX);
    assert_eq!(ht.span_at_level(30), u64::MAX);
}

#[test]
fn handle_table_recover_depth_rejects_cyclic_spine() {
    let mut cache = make_cache();
    let id = cache.new_page().unwrap();
    {
        let buf = cache.get_mut(id).unwrap();
        buf.fill(0);
        buf[0] = PageType::HandleTable.code();
        buf[1] = FLAG_INTERIOR;
        buf[2] = PAGE_FORMAT_VERSION_CURRENT;
        buf[DATA_PAGE_HEADER_SIZE..DATA_PAGE_HEADER_SIZE + 8]
            .copy_from_slice(&id.to_le_bytes());
        stamp_checksum(buf);
    }
    let err = match HandleTable::recover_depth(&mut cache, id) {
        Ok(d) => panic!("recover_depth accepted a cyclic spine (depth {d})"),
        Err(e) => e,
    };
    assert!(
        matches!(err, ChiselError::CorruptPage { .. }),
        "expected CorruptPage, got {err:?}"
    );
}

#[test]
fn lookup_sparse_range_in_depth1_tree_returns_none() {
    let mut cache = make_cache();
    let mut ht = HandleTable::new();
    let root0 = ht.create_root(&mut cache).unwrap();

    let entry = HandleEntry {
        page_id: 42,
        slot_index: 7,
        flags: HandleFlags::Live,
        tag: 0,
        client_byte: 0,
    };
    let root1 = insert_t(&mut ht, &mut cache, root0, 0, &entry).unwrap();
    let root2 = insert_t(&mut ht, &mut cache, root1, 510, &entry).unwrap();
    assert_eq!(ht.depth(), 1);

    {
        let buf = cache.get_mut(root2).unwrap();
        let flags_offset = DATA_PAGE_HEADER_SIZE + 10;
        buf[flags_offset] = HandleFlags::Live.to_u8();
        stamp_checksum(buf);
    }

    let result = ht.lookup(&mut cache, root2, 1020).unwrap();
    assert_eq!(
        result, None,
        "sparse handle must report absent, not a bogus entry"
    );
}

#[test]
fn delete_returns_some_for_live_entry() {
    let mut cache = make_cache();
    let mut ht = HandleTable::new();
    let root = ht.create_root(&mut cache).unwrap();

    let live_entry = HandleEntry {
        page_id: 42,
        slot_index: 7,
        flags: HandleFlags::Live,
        tag: 0,
        client_byte: 0,
    };
    let root_after_insert = insert_t(&mut ht, &mut cache, root, 100, &live_entry).unwrap();

    let (new_root, prev_entry) = delete_t(&mut ht, &mut cache, root_after_insert, 100).unwrap();

    assert_ne!(
        new_root, root_after_insert,
        "delete of a Live entry must COW the leaf"
    );
    let entry = prev_entry.expect("delete of a Live entry must return Some(entry)");
    assert_eq!(entry.page_id, 42);
    assert_eq!(entry.slot_index, 7);
    assert_eq!(entry.flags, HandleFlags::Live);
}

#[test]
fn delete_returns_some_for_overflow_entry() {
    let mut cache = make_cache();
    let mut ht = HandleTable::new();
    let root = ht.create_root(&mut cache).unwrap();

    let overflow_entry = HandleEntry {
        page_id: 99,
        slot_index: 0,
        flags: HandleFlags::Overflow,
        tag: 0,
        client_byte: 0,
    };
    let root_after_insert = insert_t(&mut ht, &mut cache, root, 200, &overflow_entry).unwrap();

    let (new_root, prev_entry) = delete_t(&mut ht, &mut cache, root_after_insert, 200).unwrap();

    assert_ne!(
        new_root, root_after_insert,
        "delete of an Overflow entry must COW the leaf"
    );
    let entry = prev_entry.expect("delete of an Overflow entry must return Some(entry)");
    assert_eq!(entry.page_id, 99);
    assert_eq!(entry.flags, HandleFlags::Overflow);
}

#[test]
fn delete_returns_none_for_already_deleted() {
    let mut cache = make_cache();
    let mut ht = HandleTable::new();
    let root = ht.create_root(&mut cache).unwrap();

    let live_entry = HandleEntry {
        page_id: 42,
        slot_index: 7,
        flags: HandleFlags::Live,
        tag: 0,
        client_byte: 0,
    };
    let root_after_insert = insert_t(&mut ht, &mut cache, root, 100, &live_entry).unwrap();

    let (root_after_first_delete, _) = delete_t(&mut ht, &mut cache, root_after_insert, 100).unwrap();

    let (root_after_second_delete, prev_entry) = delete_t(&mut ht, &mut cache, root_after_first_delete, 100)
        .unwrap();

    assert_eq!(
        prev_entry, None,
        "delete of an already-tombstoned handle must return None"
    );
    assert_eq!(
        root_after_second_delete, root_after_first_delete,
        "no-op delete must not COW the tree (root unchanged)"
    );
}

#[test]
fn delete_returns_none_for_absent_handle_in_existing_subtree() {
    let mut cache = make_cache();
    let mut ht = HandleTable::new();
    let root = ht.create_root(&mut cache).unwrap();

    let live_entry = HandleEntry {
        page_id: 42,
        slot_index: 7,
        flags: HandleFlags::Live,
        tag: 0,
        client_byte: 0,
    };
    let root_after_insert = insert_t(&mut ht, &mut cache, root, 100, &live_entry).unwrap();

    let (new_root, prev_entry) = delete_t(&mut ht, &mut cache, root_after_insert, 200).unwrap();

    assert_eq!(
        prev_entry, None,
        "delete of an absent slot must return None"
    );
    assert_eq!(
        new_root, root_after_insert,
        "delete of an absent slot must not COW the tree"
    );
}

#[test]
fn delete_does_not_grow_tree_for_handle_beyond_capacity() {
    let mut cache = make_cache();
    let mut ht = HandleTable::new();
    let root = ht.create_root(&mut cache).unwrap();

    assert_eq!(ht.depth(), 0);

    let (new_root, prev_entry) = delete_t(&mut ht, &mut cache, root, u64::MAX).unwrap();

    assert_eq!(prev_entry, None);
    assert_eq!(
        new_root, root,
        "delete beyond capacity must not COW the tree"
    );
    assert_eq!(
        ht.depth(),
        0,
        "delete beyond capacity must NOT grow the tree (insert would have grown; delete must not)"
    );
}

#[test]
fn lookup_handle_beyond_capacity_returns_none() {
    let mut cache = make_cache();
    let mut ht = HandleTable::new();
    let root0 = ht.create_root(&mut cache).unwrap();

    let entry = HandleEntry {
        page_id: 42,
        slot_index: 7,
        flags: HandleFlags::Live,
        tag: 0,
        client_byte: 0,
    };
    let root1 = insert_t(&mut ht, &mut cache, root0, 0, &entry).unwrap();
    let root2 = insert_t(&mut ht, &mut cache, root1, ENTRIES_PER_LEAF as u64, &entry)
        .unwrap();
    assert_eq!(ht.depth(), 1);

    let first_over = (ENTRIES_PER_LEAF as u64) * (PTRS_PER_INTERIOR as u64);
    assert_eq!(
        ht.lookup(&mut cache, root2, first_over).unwrap(),
        None,
        "handle at exact capacity must be reported absent, not trigger a fatal cache.get"
    );

    assert_eq!(
        ht.lookup(&mut cache, root2, u64::MAX).unwrap(),
        None,
        "u64::MAX handle must not panic nor read past the page"
    );
}

#[test]
fn lookup_out_of_range_handle_at_depth_0_returns_none() {
    let mut cache = make_cache();
    let mut ht = HandleTable::new();
    let root = ht.create_root(&mut cache).unwrap();

    let entry = HandleEntry {
        page_id: 42,
        slot_index: 7,
        flags: HandleFlags::Live,
        tag: 0,
        client_byte: 0,
    };
    let root = insert_t(&mut ht, &mut cache, root, 6, &entry).unwrap();
    assert_eq!(ht.depth(), 0, "single insert must not grow the tree");

    assert_eq!(
        ht.lookup(&mut cache, root, 6).unwrap(),
        Some(entry),
        "in-range handle must resolve to its entry"
    );
    let aliasing = 6 + ENTRIES_PER_LEAF as u64;
    assert_eq!(
        ht.lookup(&mut cache, root, aliasing).unwrap(),
        None,
        "out-of-range handle at depth 0 must be absent, not alias an occupied slot"
    );
}

#[test]
fn test_handle_table_insert_and_lookup() {
    let mut cache = ht_cache(64);
    let mut ht = HandleTable::new();
    let root = ht.create_root(&mut cache).unwrap();
    let entry = HandleEntry {
        page_id: 10,
        slot_index: 3,
        flags: HandleFlags::Live,
        tag: 0,
        client_byte: 0,
    };
    let new_root = insert_t(&mut ht, &mut cache, root, 0, &entry).unwrap();
    let found = ht.lookup(&mut cache, new_root, 0).unwrap().unwrap();
    assert_eq!(found.page_id, 10);
    assert_eq!(found.slot_index, 3);
}

#[test]
fn test_handle_table_multiple_entries() {
    let mut cache = ht_cache(64);
    let mut ht = HandleTable::new();
    let mut root = ht.create_root(&mut cache).unwrap();
    for i in 0..10u64 {
        let entry = HandleEntry {
            page_id: 100 + i,
            slot_index: i as u16,
            flags: HandleFlags::Live,
            tag: 0,
            client_byte: 0,
        };
        root = insert_t(&mut ht, &mut cache, root, i, &entry).unwrap();
    }
    for i in 0..10u64 {
        let found = ht.lookup(&mut cache, root, i).unwrap().unwrap();
        assert_eq!(found.page_id, 100 + i);
        assert_eq!(found.slot_index, i as u16);
    }
}

#[test]
fn test_handle_table_cow_returns_new_root() {
    let mut cache = ht_cache(64);
    let mut ht = HandleTable::new();
    let root1 = ht.create_root(&mut cache).unwrap();
    let entry = HandleEntry {
        page_id: 10,
        slot_index: 0,
        flags: HandleFlags::Live,
        tag: 0,
        client_byte: 0,
    };
    let root2 = insert_t(&mut ht, &mut cache, root1, 0, &entry).unwrap();
    assert_ne!(root1, root2);
}

#[test]
fn test_handle_table_grows_to_depth_one() {
    let mut cache = ht_cache(2048);
    let mut ht = HandleTable::new();
    let mut root = ht.create_root(&mut cache).unwrap();
    for i in 0..(ENTRIES_PER_LEAF as u64 + 10) {
        let entry = HandleEntry {
            page_id: i,
            slot_index: 0,
            flags: HandleFlags::Live,
            tag: 0,
            client_byte: 0,
        };
        root = insert_t(&mut ht, &mut cache, root, i, &entry).unwrap();
    }
    assert_eq!(ht.depth(), 1, "520 handles must grow the tree to depth 1");
    for i in 0..(ENTRIES_PER_LEAF as u64 + 10) {
        let found = ht.lookup(&mut cache, root, i).unwrap().unwrap();
        assert_eq!(found.page_id, i);
    }
}

#[test]
fn test_handle_table_grows_to_depth_two() {
    let mut cache = ht_cache(256);
    let mut ht = HandleTable::new();
    let mut root = ht.create_root(&mut cache).unwrap();
    let handles = [
        0u64,
        5,
        509,
        ENTRIES_PER_LEAF as u64,
        DEPTH2_BOUNDARY,
        DEPTH2_BOUNDARY + 7,
        1_000_000,
    ];
    for &h in &handles {
        let entry = HandleEntry {
            page_id: h.wrapping_add(100),
            slot_index: (h % 1021) as u16,
            flags: HandleFlags::Live,
            tag: 0,
            client_byte: 0,
        };
        root = insert_t(&mut ht, &mut cache, root, h, &entry).unwrap();
    }
    assert_eq!(
        ht.depth(),
        2,
        "a handle >= capacity(1) must grow the tree to depth 2"
    );
    for &h in &handles {
        let found = ht
            .lookup(&mut cache, root, h)
            .unwrap()
            .unwrap_or_else(|| panic!("handle {h} missing after depth-2 grow"));
        assert_eq!(
            found.page_id,
            h.wrapping_add(100),
            "page_id mismatch for {h}"
        );
        assert_eq!(
            found.slot_index,
            (h % 1021) as u16,
            "slot_index mismatch for {h}"
        );
    }
    assert!(ht
        .lookup(&mut cache, root, DEPTH2_BOUNDARY + 1)
        .unwrap()
        .is_none());
}

#[test]
fn test_handle_table_delete() {
    let mut cache = ht_cache(64);
    let mut ht = HandleTable::new();
    let mut root = ht.create_root(&mut cache).unwrap();
    let entry = HandleEntry {
        page_id: 10,
        slot_index: 0,
        flags: HandleFlags::Live,
        tag: 0,
        client_byte: 0,
    };
    root = insert_t(&mut ht, &mut cache, root, 0, &entry).unwrap();
    let (new_root, prev) = delete_t(&mut ht, &mut cache, root, 0).unwrap();
    root = new_root;
    assert_eq!(
        prev,
        Some(entry),
        "delete of a live entry must return the original entry"
    );
    let found = ht.lookup(&mut cache, root, 0).unwrap();
    assert!(found.is_none());
}

#[test]
fn insert_lookup_roundtrips_client_byte() {
    let mut cache = make_cache();
    let mut ht = HandleTable::new();
    let root = ht.create_root(&mut cache).unwrap();
    let e = HandleEntry {
        page_id: 42,
        slot_index: 3,
        flags: HandleFlags::Live,
        tag: 9,
        client_byte: 200,
    };
    let root = insert_t(&mut ht, &mut cache, root, 1, &e).unwrap();
    let got = ht.lookup(&mut cache, root, 1).unwrap().unwrap();
    assert_eq!(got.client_byte, 200);
    assert_eq!(got.tag, 9, "tag neighbor must be undisturbed");
}

#[test]
fn handle_entry_tag_round_trips_through_a_leaf_slot() {
    let mut buf = [0u8; PAGE_SIZE];
    let entry = HandleEntry {
        page_id: 42,
        slot_index: 7,
        flags: HandleFlags::Live,
        tag: 0xDEADBEEF,
        client_byte: 0,
    };
    HandleTable::write_entry(&mut buf, 3, &entry);
    let read = HandleTable::read_entry(&buf, 3);
    assert_eq!(read, entry);
    assert_eq!(read.tag, 0xDEADBEEF);
    let zeroed = HandleTable::read_entry(&[0u8; PAGE_SIZE], 0);
    assert_eq!(zeroed.tag, 0);
}

fn entry_on(page_id: u64) -> HandleEntry {
    HandleEntry { page_id, slot_index: 3, flags: HandleFlags::Live, tag: 7, client_byte: 9 }
}

#[test]
fn the_last_handle_takes_the_last_depth() {
    let mut cache = make_cache();
    let mut ht = HandleTable::new();
    let root0 = ht.create_root(&mut cache).unwrap();
    let root1 = insert_t(&mut ht, &mut cache, root0, 5, &entry_on(50)).unwrap();
    let root2 = insert_t(&mut ht, &mut cache, root1, u64::MAX, &entry_on(60)).unwrap();
    assert_eq!(ht.depth(), 6);
    assert_eq!(ht.lookup(&mut cache, root2, u64::MAX).unwrap(), Some(entry_on(60)));
    assert_eq!(ht.lookup(&mut cache, root2, 5).unwrap(), Some(entry_on(50)));
    assert_eq!(ht.lookup(&mut cache, root2, u64::MAX - 1).unwrap(), None);
    let list = ht.iter_live(&mut cache, root2).unwrap();
    assert_eq!(list, vec![(5, entry_on(50)), (u64::MAX, entry_on(60))]);
    assert_eq!(ht.iter_live(&mut cache, root2).unwrap(), list);
    let (root3, gone) = delete_t(&mut ht, &mut cache, root2, u64::MAX).unwrap();
    assert_eq!(gone, Some(entry_on(60)));
    assert_eq!(ht.lookup(&mut cache, root3, u64::MAX).unwrap(), None);
    assert_eq!(ht.iter_live(&mut cache, root3).unwrap(), vec![(5, entry_on(50))]);
}

#[test]
fn an_old_root_gives_the_old_answers() {
    let mut cache = make_cache();
    let mut ht = HandleTable::new();
    let root0 = ht.create_root(&mut cache).unwrap();
    let root1 = insert_t(&mut ht, &mut cache, root0, 5, &entry_on(50)).unwrap();
    let old = HandleTable::new();
    assert_eq!(old.depth(), ht.depth());
    let root2 = insert_t(&mut ht, &mut cache, root1, 5, &entry_on(51)).unwrap();
    let root3 = insert_t(&mut ht, &mut cache, root2, 600, &entry_on(52)).unwrap();
    assert_eq!(ht.lookup(&mut cache, root3, 5).unwrap(), Some(entry_on(51)));
    assert_eq!(ht.lookup(&mut cache, root3, 600).unwrap(), Some(entry_on(52)));
    assert_eq!(old.lookup(&mut cache, root1, 5).unwrap(), Some(entry_on(50)));
    assert_eq!(old.lookup(&mut cache, root1, 600).unwrap(), None);
}

#[test]
fn an_over_deep_table_says_nothing() {
    let mut cache = make_cache();
    let mut ht = HandleTable::new();
    let root0 = ht.create_root(&mut cache).unwrap();
    let root1 = insert_t(&mut ht, &mut cache, root0, 5, &entry_on(50)).unwrap();
    ht.set_depth(30);
    assert_eq!(ht.lookup(&mut cache, root1, 5).unwrap(), None);
    assert_eq!(ht.lookup(&mut cache, root1, u64::MAX).unwrap(), None);
    assert_eq!(ht.iter_live(&mut cache, root1).unwrap(), vec![]);
}

#[test]
fn every_replaced_page_is_freed() {
    let mut cache = make_cache();
    let mut ht = HandleTable::new();
    let mut freed = Vec::new();
    let root0 = ht.create_root(&mut cache).unwrap();
    let root1 = ht.insert(&mut cache, root0, 600, &entry_on(50), &mut Extend, &mut freed).unwrap();
    assert_eq!(ht.depth(), 1);
    let top = cache.next_page_id();
    let mut lost: Vec<u64> = (2..top).collect();
    lost.retain(|id| !freed.contains(id));
    assert!(lost.contains(&root0) && lost.contains(&root1));
    assert_eq!(lost.len(), 3, "old leaf, new leaf, root: {lost:?} of {top}, freed {freed:?}");
    freed.clear();
    let root2 = ht.insert(&mut cache, root1, 600, &entry_on(51), &mut Extend, &mut freed).unwrap();
    assert_ne!(root2, root1);
    assert_eq!(freed.len(), 2);
    assert!(freed.contains(&root1));
}

#[test]
fn no_page_is_freed_twice() {
    let mut cache = make_cache();
    let mut ht = HandleTable::new();
    let root0 = ht.create_root(&mut cache).unwrap();
    let root1 = insert_t(&mut ht, &mut cache, root0, DEPTH2_BOUNDARY, &entry_on(50)).unwrap();
    assert_eq!(ht.depth(), 2);
    let mut freed = Vec::new();
    let top = cache.next_page_id();
    let far = DEPTH2_BOUNDARY * 5;
    ht.insert(&mut cache, root1, far, &entry_on(51), &mut Extend, &mut freed).unwrap();
    assert_eq!(cache.next_page_id() - top, 5, "three pages of the path, and two children that were absent");
    assert_eq!(freed.len(), 3);
    assert_eq!(freed[0], root1);
    freed.sort_unstable();
    freed.dedup();
    assert_eq!(freed.len(), 3);
}
