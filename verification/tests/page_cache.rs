use chisel::options::DrainInsertion;
use chisel::page::{stamp_checksum, verify_checksum, PAGE_SIZE};
use chisel::page_cache::PageCache;
use chisel::page_io::{IoAction, PageIo};
use chisel::stats::ChiselCounters;
use chisel::ChiselError;

fn fresh_cache(max_pages: usize) -> PageCache {
    fresh_cache_with_spillway(max_pages, 0)
}

fn fresh_cache_with_spillway(max_pages: usize, spillway_max_bytes: u64) -> PageCache {
    let io = PageIo::open_in_memory().unwrap();
    PageCache::new(io, max_pages as u64 * PAGE_SIZE as u64, spillway_max_bytes, DrainInsertion::LruTail)
}

fn slot_count(cache: &PageCache) -> u64 {
    cache.spillway_capacity().unwrap().0 / PAGE_SIZE as u64
}

fn drop_clean_pages(cache: &mut PageCache) {
    cache.set_cache_max_bytes(PAGE_SIZE as u64).unwrap();
    let other = cache.new_page().unwrap();
    stamp_checksum(cache.get_mut(other).unwrap());
    cache.flush().unwrap();
}

#[test]
fn cache_full_fires_at_strict_cap_when_spillway_disabled() {
    let max_pages = 4;
    let mut cache = fresh_cache(max_pages);
    for _ in 0..max_pages {
        cache
            .new_page()
            .expect("allocations up to the strict cap must succeed");
    }
    assert_eq!(cache.cached_count(), max_pages);
    let err = cache.new_page().unwrap_err();
    assert!(
        matches!(err, ChiselError::CacheFull { limit } if limit == max_pages),
        "expected CacheFull {{ limit: {max_pages} }}, got {err:?}"
    );
}

#[test]
fn cache_full_is_recoverable_via_flush() {
    let max_pages = 4;
    let mut cache = fresh_cache(max_pages);
    for _ in 0..max_pages {
        cache.new_page().unwrap();
    }
    assert!(matches!(
        cache.new_page(),
        Err(ChiselError::CacheFull { .. })
    ));
    cache.flush().unwrap();
    cache
        .new_page()
        .expect("post-flush allocation should succeed");
    assert!(cache.cached_count() <= max_pages);
}

#[test]
fn dirty_overflow_spills_when_spillway_enabled() {
    let max_pages = 4;
    let spillway_bytes = 8 * PAGE_SIZE as u64;
    let mut cache = fresh_cache_with_spillway(max_pages, spillway_bytes);
    for _ in 0..8 {
        cache
            .new_page()
            .expect("allocations should spill, not fail");
    }
    assert_eq!(cache.cached_count(), max_pages);
    assert_eq!(slot_count(&cache), 4);
}

#[test]
fn spillway_full_fires_when_both_cache_and_spillway_exhausted() {
    let max_pages = 4;
    let spillway_bytes = 4 * PAGE_SIZE as u64;
    let mut cache = fresh_cache_with_spillway(max_pages, spillway_bytes);
    for _ in 0..(max_pages + 4) {
        cache.new_page().unwrap();
    }
    let err = cache.new_page().unwrap_err();
    assert!(
        matches!(err, ChiselError::SpillwayFull { limit_bytes } if limit_bytes == spillway_bytes),
        "expected SpillwayFull {{ limit_bytes: {spillway_bytes} }}, got {err:?}"
    );
    assert_eq!(cache.cached_count(), max_pages + 1);
    assert_eq!(cache.dirty_count(), max_pages + 1);
}

#[test]
fn spillway_full_during_evict_preserves_victim_page() {
    let max_pages = 4;
    let spillway_bytes = 4 * PAGE_SIZE as u64;
    let mut cache = fresh_cache_with_spillway(max_pages, spillway_bytes);

    // The fifth of eight pages is the least recently used one that is still in
    // the cache when the eighth has been allocated.
    let mut victim = 0;
    for i in 0..(max_pages + 4) {
        let id = cache.new_page().unwrap();
        if i == 4 {
            cache.get_mut(id).unwrap()[0] = 0xCD;
            victim = id;
        }
    }
    assert!(cache.is_cached(victim));

    let err = cache.new_page().unwrap_err();
    assert!(
        matches!(err, ChiselError::SpillwayFull { .. }),
        "expected SpillwayFull, got {err:?}"
    );
    assert!(
        cache.is_cached(victim),
        "victim was silently dropped from the cache on SpillwayFull"
    );
    assert_eq!(
        cache.get(victim).unwrap()[0],
        0xCD,
        "victim's uncommitted write was lost on SpillwayFull"
    );
}

#[test]
fn rehydrate_after_spill_returns_in_flight_bytes_not_disk() {
    let max_pages = 2;
    let spillway_bytes = 4 * PAGE_SIZE as u64;
    let mut cache = fresh_cache_with_spillway(max_pages, spillway_bytes);

    let id_a = cache.new_page().unwrap();
    {
        let buf = cache.get_mut(id_a).unwrap();
        buf[0] = 0xAA;
    }

    for _ in 0..max_pages {
        cache.new_page().unwrap();
    }

    assert!(!cache.is_cached(id_a));
    assert!(cache.is_spilled(id_a));

    let buf = cache.get_mut(id_a).unwrap();
    assert_eq!(buf[0], 0xAA, "rehydrated page must hold in-flight write");
}

#[test]
fn claim_page_keeps_dirty_count_consistent() {
    let mut cache = fresh_cache(64);
    let id = cache.new_page().unwrap();
    cache.flush().unwrap();
    assert!(
        !cache.is_dirty(id),
        "precondition: page clean before reclaim"
    );

    let before = cache.dirty_count();
    cache.claim_page(id).unwrap();
    assert!(cache.is_dirty(id), "reclaimed page is dirty");
    assert_eq!(
        cache.dirty_count(),
        before + 1,
        "claim of a clean page must add exactly one dirty entry"
    );
    let actual_dirty = (0..cache.next_page_id()).filter(|p| cache.is_dirty(*p)).count();
    assert_eq!(
        cache.dirty_count(), actual_dirty,
        "dirty_count must equal the live dirty-entry count"
    );
}

#[test]
fn cache_hits_and_misses_track_correctly() {
    let io = PageIo::open_in_memory().unwrap();
    let mut cache = PageCache::new(io, 16 * PAGE_SIZE as u64, 0, DrainInsertion::LruTail);

    let id = cache.new_page().unwrap();
    {
        let buf = cache.get_mut(id).unwrap();
        stamp_checksum(buf);
    }
    cache.flush().unwrap();

    let h0 = cache.cache_hit_count();
    let m0 = cache.cache_miss_count();
    let _ = cache.get(id).unwrap();
    assert_eq!(cache.cache_hit_count(), h0 + 1);
    assert_eq!(cache.cache_miss_count(), m0);

    for _ in 0..32 {
        let nid = cache.new_page().unwrap();
        {
            let buf = cache.get_mut(nid).unwrap();
            stamp_checksum(buf);
        }
        cache.flush().unwrap();
    }
    let h1 = cache.cache_hit_count();
    let m1 = cache.cache_miss_count();
    let _ = cache.get(id).unwrap();
    assert_eq!(
        cache.cache_hit_count(),
        h1,
        "evicted page re-fetch must not be a cache hit"
    );
    assert_eq!(
        cache.cache_miss_count(),
        m1 + 1,
        "evicted page re-fetch must record a cache miss"
    );
}

#[test]
fn pages_allocated_counter_increments_per_new_page() {
    let io = PageIo::open_in_memory().unwrap();
    let mut cache = PageCache::new(io, 16 * PAGE_SIZE as u64, 0, DrainInsertion::LruTail);
    assert_eq!(cache.pages_allocated_count(), 0);
    for _ in 0..3 {
        let id = cache.new_page().unwrap();
        stamp_checksum(cache.get_mut(id).unwrap());
    }
    assert_eq!(cache.pages_allocated_count(), 3);

    cache.flush().unwrap();

    cache.claim_page(0).unwrap();
    assert_eq!(cache.pages_allocated_count(), 4);
}

#[test]
fn counters_aggregates_cache_and_io_state() {

    let io = PageIo::open_in_memory().unwrap();
    let mut cache = PageCache::new(io, 16 * PAGE_SIZE as u64, 0, DrainInsertion::LruTail);

    let fresh: ChiselCounters = cache.counters();
    assert_eq!(
        (fresh.cache_hits, fresh.cache_misses, fresh.pages_allocated, fresh.fsync_calls),
        (0, 0, 0, 0)
    );

    for _ in 0..2 {
        let id = cache.new_page().unwrap();
        let buf = cache.get_mut(id).unwrap();
        stamp_checksum(buf);
    }
    cache.flush().unwrap();

    let c = cache.counters();
    assert_eq!(c.pages_allocated, 2);
    assert_eq!(c.fsync_calls, 1, "flush() does exactly one fsync");
    assert_eq!(c.cache_hits, 2);
    assert_eq!(c.cache_misses, 0);
}

#[test]
fn discard_all_dirty_truncates_spillway() {
    let max_pages = 2;
    let spillway_bytes = 8 * PAGE_SIZE as u64;
    let mut cache = fresh_cache_with_spillway(max_pages, spillway_bytes);
    for _ in 0..4 {
        cache.new_page().unwrap();
    }
    assert_eq!(slot_count(&cache), 2);
    cache.discard_all_dirty();
    assert_eq!(slot_count(&cache), 0);
}

#[test]
fn truncate_drops_spillway_entries_above_watermark() {
    let max_pages = 2;
    let spillway_bytes = 8 * PAGE_SIZE as u64;
    let mut cache = fresh_cache_with_spillway(max_pages, spillway_bytes);
    for _ in 0..6 {
        cache.new_page().unwrap();
    }
    let pre_count = slot_count(&cache);
    cache.truncate(3).unwrap();
    let post_count = slot_count(&cache);
    assert!(
        post_count <= pre_count,
        "truncate should not grow the spillway"
    );
    for id in 3..6 {
        assert!(
            !cache.is_spilled(id),
            "page {id} should be gone after truncate(3)"
        );
    }
}

#[test]
fn flush_drains_spilled_pages_to_main_file() {
    let max_pages = 2;
    let spillway_bytes = 8 * PAGE_SIZE as u64;
    let mut cache = fresh_cache_with_spillway(max_pages, spillway_bytes);

    let mut ids = Vec::new();
    for i in 0..4 {
        let id = cache.new_page().unwrap();
        ids.push(id);
        let buf = cache.get_mut(id).unwrap();
        buf[0] = i as u8;
        stamp_checksum(buf);
    }
    assert_eq!(
        slot_count(&cache),
        2,
        "two pages should have been spilled"
    );

    cache.flush().unwrap();

    assert_eq!(slot_count(&cache), 0, "spillway must be empty after flush");

    for (i, &id) in ids.iter().enumerate() {
        let buf = cache.get(id).unwrap();
        assert_eq!(
            buf[0], i as u8,
            "page {id} lost its sentinel after flush drain"
        );
    }
}

#[test]
fn test_cache_write_and_read() {
    let io = PageIo::open_in_memory().unwrap();
    let mut cache = PageCache::new(io, 16 * PAGE_SIZE as u64, 0, DrainInsertion::LruTail);

    let page_id = cache.new_page().unwrap();
    {
        let buf = cache.get_mut(page_id).unwrap();
        buf[0] = 0x42;
        buf[100] = 0xFF;
        stamp_checksum(buf);
    }
    let buf = cache.get(page_id).unwrap();
    assert_eq!(buf[0], 0x42);
    assert_eq!(buf[100], 0xFF);
}

#[test]
fn test_cache_flush_persists_to_disk() {
    let mut pages: Vec<[u8; PAGE_SIZE]> = Vec::new();
    {
        let io = PageIo::open(pages.clone(), false);
        let mut cache = PageCache::new(io, 16 * PAGE_SIZE as u64, 0, DrainInsertion::LruTail);
        let page_id = cache.new_page().unwrap();
        {
            let buf = cache.get_mut(page_id).unwrap();
            buf[0] = 0xAB;
            stamp_checksum(buf);
        }
        cache.flush().unwrap();
        for action in cache.take_journal() {
            if let IoAction::Write { page_id, bytes } = action {
                pages.resize(page_id as usize + 1, [0u8; PAGE_SIZE]);
                pages[page_id as usize] = *bytes;
            }
        }
    }

    {
        let io = PageIo::open(pages, false);
        let buf = io.read_page(0).unwrap();
        assert_eq!(buf[0], 0xAB);
        assert!(verify_checksum(&buf));
    }
}

#[test]
fn test_cache_eviction_does_not_evict_dirty() {
    let io = PageIo::open_in_memory().unwrap();
    let mut cache = PageCache::new(io, 3 * PAGE_SIZE as u64, 0, DrainInsertion::LruTail);

    let p0 = cache.new_page().unwrap();
    let p1 = cache.new_page().unwrap();
    {
        let buf = cache.get_mut(p0).unwrap();
        buf[0] = 0x01;
        stamp_checksum(buf);
    }
    {
        let buf = cache.get_mut(p1).unwrap();
        buf[0] = 0x02;
        stamp_checksum(buf);
    }

    let p2 = cache.new_page().unwrap();
    {
        let buf = cache.get_mut(p2).unwrap();
        buf[0] = 0x03;
        stamp_checksum(buf);
    }

    assert_eq!(cache.get(p0).unwrap()[0], 0x01);
    assert_eq!(cache.get(p1).unwrap()[0], 0x02);
    assert_eq!(cache.get(p2).unwrap()[0], 0x03);
}

#[test]
fn plaintext_page_roundtrip_unaffected() {
    let mut cache = fresh_cache(8);
    let pid = cache.new_page().unwrap();
    {
        let buf = cache.get_mut(pid).unwrap();
        buf[0] = 0x11;
        buf[4096] = 0xFF;
        stamp_checksum(buf);
    }
    cache.flush().unwrap();
    drop_clean_pages(&mut cache);
    assert!(!cache.is_cached(pid));
    let read = cache.get(pid).unwrap();
    assert_eq!(read[0], 0x11);
    assert_eq!(read[4096], 0xFF);
}

#[test]
fn plaintext_spill_drain_unchanged() {
    let max_pages = 2;
    let spillway_bytes = 4 * PAGE_SIZE as u64;
    let mut cache = fresh_cache_with_spillway(max_pages, spillway_bytes);

    let mut ids = Vec::new();
    for n in 0..4u8 {
        let pid = cache.new_page().unwrap();
        {
            let buf = cache.get_mut(pid).unwrap();
            buf[0] = 0xB0 | n;
            stamp_checksum(buf);
        }
        ids.push(pid);
    }
    cache.flush().unwrap();

    drop_clean_pages(&mut cache);
    for &pid in &ids {
        assert!(!cache.is_cached(pid));
    }
    for (n, &pid) in ids.iter().enumerate() {
        let buf = cache.get(pid).unwrap();
        assert_eq!(
            buf[0],
            0xB0 | n as u8,
            "plaintext spill/drain page {pid} byte mismatch"
        );
    }
}

#[test]
fn discarding_a_page_drops_its_changes() {
    let mut cache = fresh_cache(8);
    let id = cache.new_page().unwrap();
    cache.get_mut(id).unwrap()[0] = 7;
    stamp_checksum(cache.get_mut(id).unwrap());
    cache.flush().unwrap();
    cache.get_mut(id).unwrap()[0] = 9;
    assert_eq!(cache.dirty_count(), 1);
    cache.discard(id);
    assert_eq!(cache.dirty_count(), 0);
    assert_eq!(cache.get(id).unwrap()[0], 7);
}

#[test]
fn a_corrupt_page_stays_out_of_the_cache() {
    let mut cache = fresh_cache(8);
    let id = cache.new_page().unwrap();
    {
        let buf = cache.get_mut(id).unwrap();
        buf[0] = 7;
        stamp_checksum(buf);
        buf[1000] ^= 1;
    }
    cache.flush().unwrap();
    drop_clean_pages(&mut cache);
    for _ in 0..2 {
        assert!(matches!(cache.get(id), Err(ChiselError::ChecksumMismatch { page_id }) if page_id == id));
        assert!(!cache.is_cached(id));
    }
}
