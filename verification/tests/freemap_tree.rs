use chisel::freemap::FreeMap;
use chisel::freemap_tree::{FreeMapTree, LEAF_CAPACITY, MAX_DEPTH};
use chisel::options::DrainInsertion;
use chisel::page::{stamp_checksum, PageType, DATA_PAGE_HEADER_SIZE, PAGE_SIZE};
use chisel::page_cache::PageCache;
use chisel::page_io::PageIo;
use chisel::page_source::Extend;
use chisel::ChiselError;

fn make_cache(max_pages: usize) -> PageCache {
    let io = PageIo::open_in_memory().unwrap();
    let mut cache = PageCache::new(io, max_pages as u64 * PAGE_SIZE as u64, 0, DrainInsertion::LruTail);
    cache.set_next_page_id(2);
    cache
}

fn read_child(buf: &[u8; PAGE_SIZE], i: usize) -> u64 {
    let at = DATA_PAGE_HEADER_SIZE + i * 8;
    let mut bytes = [0u8; 8];
    bytes.copy_from_slice(&buf[at..at + 8]);
    u64::from_le_bytes(bytes)
}

fn assert_rejected(label: &str, r: Result<(), ChiselError>, phantom_root: u64) {
    match r {
        Err(ChiselError::CorruptPage { page_id }) => assert_eq!(
            page_id, phantom_root,
            "{label}: the guard must blame the tree root it refused to descend"
        ),
        other => panic!("{label}: expected CorruptPage, got {other:?}"),
    };
}

#[test]
fn depth0_is_free_round_trip() {
    let mut c = make_cache(256);
    let mut t = FreeMapTree::create(&mut c, &mut Extend).unwrap();
    assert_eq!(t.depth, 0);
    t.mark_free(&mut c, 5, &mut Extend).unwrap();
    assert!(t.is_free(&mut c, 5).unwrap());
    assert!(!t.is_free(&mut c, 6).unwrap());
}

#[test]
fn mark_free_materializes_absent_subtree_at_depth1() {
    let mut c = make_cache(256);
    let mut t = FreeMapTree::create(&mut c, &mut Extend).unwrap();
    t.grow(&mut c, &mut Extend).unwrap();
    assert_eq!(t.depth, 1);
    let id_a = LEAF_CAPACITY + 42;
    let id_b = LEAF_CAPACITY + 99;
    t.mark_free(&mut c, id_a, &mut Extend).unwrap();
    assert!(t.is_free(&mut c, id_a).unwrap());
    t.mark_free(&mut c, id_b, &mut Extend).unwrap();
    assert!(t.is_free(&mut c, id_b).unwrap());
    assert!(!t.is_free(&mut c, 7).unwrap());
}

#[test]
fn mark_free_structural_alloc_is_extend_only() {
    let mut c = make_cache(256);
    let mut t = FreeMapTree::create(&mut c, &mut Extend).unwrap();
    t.grow(&mut c, &mut Extend).unwrap();
    let before = c.next_page_id();
    t.mark_free(&mut c, LEAF_CAPACITY + 7, &mut Extend).unwrap();
    assert!(
        c.next_page_id() > before,
        "materializing an absent leaf must allocate via extend"
    );
}

#[test]
fn grow_increases_depth_and_preserves_existing_frees() {
    let mut c = make_cache(256);
    let mut t = FreeMapTree::create(&mut c, &mut Extend).unwrap();
    t.mark_free(&mut c, 7, &mut Extend).unwrap();
    t.grow(&mut c, &mut Extend).unwrap();
    assert_eq!(t.depth, 1);
    assert!(t.is_free(&mut c, 7).unwrap());
    assert!(!t.is_free(&mut c, LEAF_CAPACITY + 3).unwrap());
}

#[test]
fn mark_free_growing_grows_to_reach_high_id() {
    let mut c = make_cache(256);
    let mut t = FreeMapTree::create(&mut c, &mut Extend).unwrap();
    let id = LEAF_CAPACITY * 3 + 17;
    t.mark_free_growing(&mut c, id, &mut Extend).unwrap();
    assert!(t.depth >= 1, "high id must grow the tree");
    assert!(t.is_free(&mut c, id).unwrap());
}

#[test]
fn allocate_first_returns_lowest_free_and_clears_it() {
    let mut c = make_cache(256);
    let mut t = FreeMapTree::create(&mut c, &mut Extend).unwrap();
    t.mark_free_growing(&mut c, 500, &mut Extend).unwrap();
    t.mark_free_growing(&mut c, 9, &mut Extend).unwrap();
    t.mark_free_growing(&mut c, LEAF_CAPACITY + 4, &mut Extend)
        .unwrap();

    let mut hint = 0u64;
    assert_eq!(
        t.allocate_first(&mut c, &mut hint, &mut Extend).unwrap(),
        Some(9)
    );
    assert_eq!(
        t.allocate_first(&mut c, &mut hint, &mut Extend).unwrap(),
        Some(500)
    );
    assert_eq!(
        t.allocate_first(&mut c, &mut hint, &mut Extend).unwrap(),
        Some(LEAF_CAPACITY + 4)
    );
    assert_eq!(
        t.allocate_first(&mut c, &mut hint, &mut Extend).unwrap(),
        None
    );

    assert!(!t.is_free(&mut c, 9).unwrap());
    assert!(!t.is_free(&mut c, 500).unwrap());
    assert!(!t.is_free(&mut c, LEAF_CAPACITY + 4).unwrap());
}

#[test]
fn descent_rejects_wrong_type_child_as_corrupt_page() {
    let mut c = make_cache(256);
    let mut t = FreeMapTree::create(&mut c, &mut Extend).unwrap();
    t.grow(&mut c, &mut Extend).unwrap();
    t.mark_free(&mut c, 5, &mut Extend).unwrap();
    let leaf = read_child(c.get(t.root).unwrap(), 0);
    {
        let buf = c.get_mut(leaf).unwrap();
        buf[0] = PageType::Data.code();
        stamp_checksum(buf);
    }
    let err = match t.is_free(&mut c, 5) {
        Ok(v) => panic!("is_free accepted a wrong-type leaf: {v}"),
        Err(e) => e,
    };
    assert!(
        matches!(err, ChiselError::CorruptPage { .. }),
        "expected CorruptPage, got {err:?}"
    );
}

#[test]
fn mark_free_rejects_wrong_position_page_on_cow_spine() {
    let mut c = make_cache(256);
    let mut t = FreeMapTree::create(&mut c, &mut Extend).unwrap();
    t.grow(&mut c, &mut Extend).unwrap();
    t.grow(&mut c, &mut Extend).unwrap();
    assert_eq!(t.depth, 2);
    t.mark_free(&mut c, 5, &mut Extend).unwrap();
    let interior_child = read_child(c.get(t.root).unwrap(), 0);
    {
        let buf = c.get_mut(interior_child).unwrap();
        FreeMap::init_page(buf);
        stamp_checksum(buf);
    }
    let mut t2 = FreeMapTree::from_roots(t.root, t.depth);
    let err = match t2.mark_free(&mut c, 5, &mut Extend) {
        Ok(()) => panic!("mark_free accepted a position-wrong interior child"),
        Err(e) => e,
    };
    assert!(
        matches!(err, ChiselError::CorruptPage { page_id } if page_id == interior_child),
        "expected CorruptPage {{ page_id: {interior_child} }}, got {err:?}"
    );
}

#[test]
fn reachable_pages_collects_every_node() {
    let mut c = make_cache(256);
    let mut t = FreeMapTree::create(&mut c, &mut Extend).unwrap();
    t.grow(&mut c, &mut Extend).unwrap();
    assert_eq!(t.depth, 1);
    t.mark_free(&mut c, 5, &mut Extend).unwrap();
    t.mark_free(&mut c, LEAF_CAPACITY + 7, &mut Extend).unwrap();
    let reachable = t.reachable_pages(&mut c).unwrap();
    assert!(reachable.contains(&t.root), "root must be reachable");
    assert_eq!(
        reachable.len(),
        3,
        "1 root-interior + 2 materialized leaves (depth 1)"
    );
    for id in reachable.iter() {
        assert!(*id != 0, "the superblock page must never be a tree page");
    }
}

#[test]
fn an_out_of_reach_id_is_rejected_by_the_write_path_not_aliased() {
    let mut c = make_cache(256);
    let mut t = FreeMapTree::create(&mut c, &mut Extend).unwrap();
    assert_eq!(t.depth, 0, "the aliasing case is the depth-0 tree");
    let out_of_reach = LEAF_CAPACITY + 7;

    assert!(
        !t.is_free(&mut c, out_of_reach).unwrap(),
        "precondition: the read path reports an out-of-reach id as in-use"
    );

    let err = match t.mark_free(&mut c, out_of_reach, &mut Extend) {
        Ok(()) => panic!("the write path accepted an out-of-reach id"),
        Err(e) => e,
    };
    assert!(
        matches!(err, ChiselError::CorruptPage { .. }),
        "expected CorruptPage, got {err:?}"
    );

    assert!(
        !t.is_free(&mut c, 7).unwrap(),
        "aliased write: freeing LEAF_CAPACITY + 7 set the free bit for LIVE \
         page 7, which the next allocate_first would hand out"
    );
}

#[test]
fn an_over_deep_depth_is_rejected_before_any_page_is_read() {
    let mut c = make_cache(256);
    let phantom_root = 4_242;
    let bad_depth = MAX_DEPTH + 1;


    let t = FreeMapTree::from_roots(phantom_root, bad_depth);
    assert_rejected("is_free", t.is_free(&mut c, 7).map(|_| ()), phantom_root);
    assert_rejected("reachable_pages", t.reachable_pages(&mut c).map(|_| ()), phantom_root);

    let mut t = FreeMapTree::from_roots(phantom_root, bad_depth);
    let mut hint = 0u64;
    assert_rejected("allocate_first", t.allocate_first(&mut c, &mut hint, &mut Extend).map(|_| ()), phantom_root);
    assert_rejected("mark_free", t.mark_free(&mut c, 7, &mut Extend), phantom_root);
    let mut t = FreeMapTree::from_roots(phantom_root, u32::MAX);
    assert_rejected("mark_free_growing", t.mark_free_growing(&mut c, 7, &mut Extend), phantom_root);

    let t = FreeMapTree::from_roots(phantom_root, MAX_DEPTH);
    assert!(
        !matches!(
            t.is_free(&mut c, 7),
            Err(ChiselError::CorruptPage { page_id }) if page_id == phantom_root
        ),
        "MAX_DEPTH itself must not be rejected by the depth guard"
    );
}
