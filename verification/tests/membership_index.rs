use chisel::membership_index::{MembershipIndex, INNER_ROOT_BITS, INNER_ROOT_MASK};
use chisel::options::DrainInsertion;
use chisel::page::{
    stamp_checksum, PageType, DATA_PAGE_HEADER_SIZE, PAGE_FORMAT_VERSION_CURRENT, PAGE_ID_NONE, PAGE_SIZE,
};
use chisel::page_cache::PageCache;
use chisel::page_io::PageIo;
use chisel::page_source::Extend;
use chisel::radix_u64::{RadixU64, MAX_DEPTH};
use chisel::ChiselError;

fn cache(max_pages: usize) -> PageCache {
    let io = PageIo::open_in_memory().unwrap();
    let mut c = PageCache::new(io, max_pages as u64 * PAGE_SIZE as u64, 0, DrainInsertion::LruTail);
    c.set_next_page_id(2);
    c
}

fn read_slot(buf: &[u8; PAGE_SIZE], i: usize) -> u64 {
    let at = DATA_PAGE_HEADER_SIZE + i * 8;
    let mut bytes = [0u8; 8];
    bytes.copy_from_slice(&buf[at..at + 8]);
    u64::from_le_bytes(bytes)
}

fn write_slot(buf: &mut [u8; PAGE_SIZE], i: usize, value: u64) {
    let at = DATA_PAGE_HEADER_SIZE + i * 8;
    buf[at..at + 8].copy_from_slice(&value.to_le_bytes());
}

fn insert_key(t: &mut RadixU64, c: &mut PageCache, root: u64, key: u64, value: u64) -> Result<u64, ChiselError> {
    t.insert(c, root, key, value, &mut Extend, &mut Vec::new())
}

fn delete_key(t: &mut RadixU64, c: &mut PageCache, root: u64, key: u64) -> Result<(u64, u64), ChiselError> {
    t.delete(c, root, key, &mut Extend, &mut Vec::new())
}

fn insert_member(
    idx: &mut MembershipIndex,
    c: &mut PageCache,
    root: u64,
    tag: u32,
    handle: u64,
) -> Result<u64, ChiselError> {
    idx.insert(c, root, tag, handle, &mut Extend, &mut Vec::new())
}

fn remove_member(
    idx: &mut MembershipIndex,
    c: &mut PageCache,
    root: u64,
    tag: u32,
    handle: u64,
) -> Result<(u64, bool), ChiselError> {
    idx.remove(c, root, tag, handle, &mut Extend, &mut Vec::new())
}

#[test]
fn insert_lookup_delete_single_level() {
    let mut c = cache(64);
    let mut t = RadixU64::new();
    let root = t.create_root(&mut c).unwrap();
    assert_eq!(t.lookup(&mut c, root, 5).unwrap(), 0);
    let r = insert_key(&mut t, &mut c, root, 5, 99).unwrap();
    assert_eq!(t.lookup(&mut c, r, 5).unwrap(), 99);
    assert!(t.any_present(&mut c, r).unwrap());
    let (r2, prev) = delete_key(&mut t, &mut c, r, 5).unwrap();
    assert_eq!(prev, 99);
    assert_eq!(t.lookup(&mut c, r2, 5).unwrap(), 0);
    assert!(!t.any_present(&mut c, r2).unwrap());
}

#[test]
fn membership_index_capacity_and_span_saturate_on_out_of_range_depth() {
    let r = RadixU64 { depth: 30 };
    assert_eq!(r.capacity(), u64::MAX);
    assert_eq!(r.span_at_level(30), u64::MAX);
}

#[test]
fn membership_index_recover_depth_rejects_cyclic_spine() {
    let mut c = cache(64);
    let id = c.new_page().unwrap();
    {
        let buf = c.get_mut(id).unwrap();
        buf.fill(0);
        buf[0] = PageType::MembershipInterior.code();
        buf[1] = PAGE_FORMAT_VERSION_CURRENT;
        write_slot(buf, 0, id);
        stamp_checksum(buf);
    }
    let err = match RadixU64::recover_depth(&mut c, id) {
        Ok(d) => panic!("recover_depth accepted a cyclic spine (depth {d})"),
        Err(e) => e,
    };
    assert!(
        matches!(err, ChiselError::CorruptPage { .. }),
        "expected CorruptPage, got {err:?}"
    );
}

#[test]
fn corrupt_inner_depth_is_corrupt_page() {
    let mut c = cache(64);
    let mut idx = MembershipIndex::new();
    let root = insert_member(&mut idx, &mut c, PAGE_ID_NONE, 7, 5).unwrap();
    {
        let buf = c.get_mut(root).unwrap();
        let packed = read_slot(buf, 7);
        assert_ne!(packed, 0, "tag 7 should occupy outer slot 7");
        let corrupt = (packed & INNER_ROOT_MASK) | (30u64 << INNER_ROOT_BITS);
        write_slot(buf, 7, corrupt);
        stamp_checksum(buf);
    }
    let err = match idx.handles_for_tag(&mut c, root, 7) {
        Ok(hs) => panic!("handles_for_tag accepted a corrupt inner depth: {hs:?}"),
        Err(e) => e,
    };
    assert!(
        matches!(err, ChiselError::CorruptPage { .. }),
        "expected CorruptPage, got {err:?}"
    );
}

#[test]
fn iter_bounded_saturates_prefix_on_corrupt_max_depth() {
    let mut c = cache(64);
    let id = c.new_page().unwrap();
    {
        let buf = c.get_mut(id).unwrap();
        buf.fill(0);
        buf[0] = PageType::MembershipInterior.code();
        buf[1] = PAGE_FORMAT_VERSION_CURRENT;
        write_slot(buf, 20, id);
        stamp_checksum(buf);
    }
    let t = RadixU64 { depth: MAX_DEPTH };
    let _ = t.iter_bounded(&mut c, id, 8).unwrap();
}

#[test]
fn grows_and_iterates_across_levels() {
    let mut c = cache(8192);
    let mut t = RadixU64::new();
    let mut root = t.create_root(&mut c).unwrap();
    for k in [0u64, 1, 1021, 2000, 1_000_000] {
        root = insert_key(&mut t, &mut c, root, k, k + 7).unwrap();
    }
    assert!(t.depth >= 1, "tree should have grown");
    for k in [0u64, 1, 1021, 2000, 1_000_000] {
        assert_eq!(t.lookup(&mut c, root, k).unwrap(), k + 7);
    }
    let mut pairs = t.iter(&mut c, root).unwrap();
    pairs.sort();
    assert_eq!(
        pairs,
        vec![
            (0, 7),
            (1, 8),
            (1021, 1028),
            (2000, 2007),
            (1_000_000, 1_000_007)
        ]
    );
}

#[test]
fn iter_bounded_caps_collection() {
    let mut c = cache(8192);
    let mut t = RadixU64::new();
    let mut root = t.create_root(&mut c).unwrap();
    for k in 0..50u64 {
        root = insert_key(&mut t, &mut c, root, k, k + 1).unwrap();
    }
    assert_eq!(t.iter_bounded(&mut c, root, 10).unwrap().len(), 10);
    assert_eq!(t.iter_bounded(&mut c, root, 100).unwrap().len(), 50);
}

#[test]
fn delete_absent_is_noop() {
    let mut c = cache(64);
    let mut t = RadixU64::new();
    let root = t.create_root(&mut c).unwrap();
    let (r, prev) = delete_key(&mut t, &mut c, root, 42).unwrap();
    assert_eq!(prev, 0);
    assert_eq!(r, root, "no COW for an absent key");
}

#[test]
fn recover_depth_matches_after_grow() {
    let mut c = cache(8192);
    let mut t = RadixU64::new();
    let mut root = t.create_root(&mut c).unwrap();
    root = insert_key(&mut t, &mut c, root, 5_000_000, 1).unwrap();
    let recovered = RadixU64::recover_depth(&mut c, root).unwrap();
    assert_eq!(recovered, t.depth);
}

#[test]
fn membership_insert_contains_remove() {
    let mut c = cache(8192);
    let mut idx = MembershipIndex::new();
    let mut root = PAGE_ID_NONE;
    root = insert_member(&mut idx, &mut c, root, 7, 100).unwrap();
    root = insert_member(&mut idx, &mut c, root, 7, 200).unwrap();
    root = insert_member(&mut idx, &mut c, root, 9, 300).unwrap();
    assert!(idx.contains(&mut c, root, 7, 100).unwrap());
    assert!(idx.contains(&mut c, root, 7, 200).unwrap());
    assert!(!idx.contains(&mut c, root, 7, 300).unwrap());
    let mut h7 = idx.handles_for_tag(&mut c, root, 7).unwrap();
    h7.sort();
    assert_eq!(h7, vec![100, 200]);
    assert_eq!(idx.handles_for_tag(&mut c, root, 9).unwrap(), vec![300]);

    let (root2, removed) = remove_member(&mut idx, &mut c, root, 7, 100).unwrap();
    assert!(removed);
    assert!(!idx.contains(&mut c, root2, 7, 100).unwrap());
    assert!(idx.contains(&mut c, root2, 7, 200).unwrap());
    let (_root3, removed_again) = remove_member(&mut idx, &mut c, root2, 7, 100).unwrap();
    assert!(!removed_again, "removing an absent member reports false");
}

#[test]
fn handles_for_tag_bounded_caps_results() {
    let mut c = cache(16384);
    let mut idx = MembershipIndex::new();
    let mut root = PAGE_ID_NONE;
    for h in 0..10u64 {
        root = insert_member(&mut idx, &mut c, root, 3, 1000 + h).unwrap();
    }
    assert_eq!(
        idx.handles_for_tag_bounded(&mut c, root, 3, 4)
            .unwrap()
            .len(),
        4
    );
    assert_eq!(
        idx.handles_for_tag_bounded(&mut c, root, 3, 100)
            .unwrap()
            .len(),
        10
    );
    assert_eq!(
        idx.handles_for_tag_bounded(&mut c, root, 3, 5)
            .unwrap()
            .len(),
        5
    );
}

#[test]
fn inner_grow_roundtrip() {
    let mut c = cache(1_000_000);
    let mut idx = MembershipIndex::new();
    let mut root = PAGE_ID_NONE;
    let n = 1100u64;
    for h in 0..n {
        root = insert_member(&mut idx, &mut c, root, 7, h).unwrap();
    }
    let mut got = idx.handles_for_tag(&mut c, root, 7).unwrap();
    got.sort();
    assert_eq!(got, (0..n).collect::<Vec<_>>());
    for h in 0..n {
        let (r, removed) = remove_member(&mut idx, &mut c, root, 7, h).unwrap();
        root = r;
        assert!(removed);
    }
    assert!(idx.handles_for_tag(&mut c, root, 7).unwrap().is_empty());
}

#[test]
fn the_last_handle_can_carry_a_tag() {
    let mut c = cache(512);
    let mut idx = MembershipIndex::new();
    let mut root = insert_member(&mut idx, &mut c, PAGE_ID_NONE, 7, 3).unwrap();
    root = insert_member(&mut idx, &mut c, root, 7, u64::MAX).unwrap();
    root = insert_member(&mut idx, &mut c, root, 7, u64::MAX).unwrap();
    assert!(idx.contains(&mut c, root, 7, u64::MAX).unwrap());
    assert_eq!(idx.handles_for_tag(&mut c, root, 7).unwrap(), vec![3, u64::MAX]);
    assert_eq!(idx.handles_for_tag_bounded(&mut c, root, 7, 1).unwrap(), vec![3]);
    let (root, found) = remove_member(&mut idx, &mut c, root, 7, u64::MAX).unwrap();
    assert!(found);
    assert_eq!(idx.handles_for_tag(&mut c, root, 7).unwrap(), vec![3]);
    let (_, again) = remove_member(&mut idx, &mut c, root, 7, u64::MAX).unwrap();
    assert!(!again);
}

#[test]
fn the_last_key_has_a_value() {
    let mut c = cache(512);
    let mut t = RadixU64 { depth: 0 };
    let root = t.create_root(&mut c).unwrap();
    let root = insert_key(&mut t, &mut c, root, u64::MAX, 11).unwrap();
    assert_eq!(t.depth, MAX_DEPTH);
    assert_eq!(t.lookup(&mut c, root, u64::MAX).unwrap(), 11);
    let (root, found) = delete_key(&mut t, &mut c, root, u64::MAX).unwrap();
    assert_eq!(found, 11);
    assert_eq!(t.lookup(&mut c, root, u64::MAX).unwrap(), 0);
}

#[test]
fn two_tags_fit_in_sixty_four_pages() {
    let mut c = cache(64);
    let mut x = MembershipIndex::new();
    let r1 = insert_member(&mut x, &mut c, PAGE_ID_NONE, 7, 100).unwrap();
    let r2 = insert_member(&mut x, &mut c, r1, 1028, 300).unwrap();
    assert_eq!(x.handles_for_tag(&mut c, r2, 1028).unwrap(), vec![300]);
    assert_eq!(x.handles_for_tag(&mut c, r2, 7).unwrap(), vec![100]);
}
