//! Page cache: the choke point through which every other module reads and
//! writes pages.
//!
//! - Checksums are verified when a page is loaded; a page in the cache is
//!   trusted.
//! - A dirty page is never dropped: it is written by [`PageCache::flush`], or
//!   moves to the spillway when the cache is full of dirty pages.
//! - [`PageCache::new_page`] hands out a fresh id past every allocated page,
//!   so copy-on-write never touches a live page.
//! - The cache is bounded by a page limit and the spillway by a byte limit.
//!   When the dirty pages exceed both, operations fail with `CacheFull` (no
//!   spillway) or `SpillwayFull`.

use vstd::prelude::*;

use crate::error::ChiselError;
use crate::fx::{map_contains, map_get, map_get_mut, map_insert, map_len, map_new, map_remove};
use crate::lru::{lemma_without, without, LruIndex};
use crate::options::DrainInsertion;
use crate::page::{checksum_ok, verify_checksum, zeroed, PAGE_SIZE};
use crate::page_io::{
    bump, bumped, lemma_wrote_chain, lemma_wrote_none, lemma_wrote_one, lemma_wrote_sync, resized, written, wrote, zero_page, IoAction,
    PageIo,
};
use crate::spillway::Spillway;
use crate::stats::ChiselCounters;
use rustc_hash::FxHashMap;

verus! {

/// A page in the cache. `dirty`: modified since the last flush.
struct CacheEntry {
    buf: Box<[u8; PAGE_SIZE]>,
    dirty: bool,
}

/// The page cache.
pub struct PageCache {
    io: PageIo,
    entries: FxHashMap<u64, CacheEntry>,
    lru: LruIndex,
    dirty_count: usize,
    max_pages: usize,
    spillway_max_bytes: u64,
    drain_insertion: DrainInsertion,
    spillway: Option<Spillway>,
    next_page_id: u64,
    cache_hits: u64,
    cache_misses: u64,
    pages_allocated: u64,
}

/// `order` without its first `excess` ids that are not in `dirty`.
pub open spec fn trimmed(order: Seq<u64>, dirty: Set<u64>, excess: int) -> Seq<u64>
    decreases order.len(),
{
    if excess <= 0 || order.len() == 0 {
        order
    } else if dirty.contains(order[0]) {
        seq![order[0]] + trimmed(order.skip(1), dirty, excess)
    } else {
        trimmed(order.skip(1), dirty, excess - 1)
    }
}

/// What is left of `order` when the limit is enforced: first clean pages go, least
/// recently used first, then any.
pub open spec fn remaining(order: Seq<u64>, dirty: Set<u64>, limit: nat) -> Seq<u64> {
    let rest = trimmed(order, dirty, order.len() - limit);
    if rest.len() > limit {
        rest.skip(rest.len() - limit)
    } else {
        rest
    }
}

/// The dirty pages that leave `order` for the spillway when the limit is enforced, in the
/// order in which they leave.
pub open spec fn pushed_out(order: Seq<u64>, dirty: Set<u64>, limit: nat) -> Seq<u64> {
    let rest = trimmed(order, dirty, order.len() - limit);
    rest.take(
        if rest.len() > limit {
            rest.len() - limit
        } else {
            0
        },
    )
}

/// `order` after `ids` were drained into it, one after the other.
pub open spec fn inserted(order: Seq<u64>, ids: Seq<u64>, policy: DrainInsertion) -> Seq<u64>
    decreases ids.len(),
{
    if ids.len() == 0 {
        order
    } else {
        let before = inserted(order, ids.drop_last(), policy);
        match policy {
            DrainInsertion::LruTail => seq![ids.last()] + before,
            DrainInsertion::Mru => before.push(ids.last()),
        }
    }
}

/// The LRU order after a drain: `ids` enter in batches of `max`, and after
/// each batch the order is cut down to the `max` most recently used.
pub open spec fn drained(order: Seq<u64>, ids: Seq<u64>, policy: DrainInsertion, max: nat) -> Seq<u64>
    decreases ids.len(),
{
    if ids.len() == 0 || max == 0 {
        order
    } else {
        let n: int = if ids.len() < max {
            ids.len() as int
        } else {
            max as int
        };
        let grown = inserted(order, ids.take(n), policy);
        drained(trimmed(grown, Set::empty(), grown.len() - max), ids.skip(n), policy, max)
    }
}

/// `order` without the ids in `drop`.
pub open spec fn kept(order: Seq<u64>, drop: Set<u64>) -> Seq<u64>
    decreases order.len(),
{
    if order.len() == 0 {
        order
    } else if drop.contains(order.last()) {
        kept(order.drop_last(), drop)
    } else {
        kept(order.drop_last(), drop).push(order.last())
    }
}

/// `after` is storage `before` once `changes` were written to it: nothing else
/// changed, and pages in between that did not exist are zero.
pub open spec fn saved(before: Seq<Seq<u8>>, after: Seq<Seq<u8>>, changes: Map<u64, Seq<u8>>) -> bool {
    &&& after.len() >= before.len()
    &&& forall|id: u64| #[trigger] changes.contains_key(id) ==> id < after.len() && after[id as int] == changes[id]
    &&& forall|id: u64|
        id < after.len() && !changes.contains_key(id) ==> #[trigger] after[id as int] == (if id < before.len() {
            before[id as int]
        } else {
            zero_page()
        })
    &&& after.len() == before.len() || after.len() <= u64::MAX && changes.contains_key((after.len() - 1) as u64)
}

proof fn lemma_saved_step(
    before: Seq<Seq<u8>>,
    after: Seq<Seq<u8>>,
    changes: Map<u64, Seq<u8>>,
    id: u64,
    bytes: Seq<u8>,
)
    requires
        saved(before, after, changes),
        id < u64::MAX,
    ensures
        saved(before, written(after, id, bytes), changes.insert(id, bytes)),
{
    let next = written(after, id, bytes);
    assert forall|x: u64| x < next.len() && !changes.insert(id, bytes).contains_key(x) implies #[trigger] next[x as int] == (
    if x < before.len() {
        before[x as int]
    } else {
        zero_page()
    }) by {
        if x < after.len() {
            assert(next[x as int] == after[x as int]);
        }
    }
    assert forall|x: u64| #[trigger] changes.insert(id, bytes).contains_key(x) implies x < next.len()
        && next[x as int] == changes.insert(id, bytes)[x] by {
        if x != id {
            assert(changes.contains_key(x));
            assert(next[x as int] == after[x as int]);
        }
    }
}

/// One step of dropping ids from `ids`, of which the first `i` were handled.
pub proof fn lemma_kept_step(ids: Seq<u64>, drop: Set<u64>, i: int)
    requires
        0 <= i < ids.len(),
        ids.no_duplicates(),
    ensures
        ({
            let cur = kept(ids.take(i), drop) + ids.skip(i);
            let next = kept(ids.take(i + 1), drop) + ids.skip(i + 1);
            if drop.contains(ids[i]) {
                next == without(cur, ids[i])
            } else {
                next == cur
            }
        }),
{
    let head = kept(ids.take(i), drop);
    let cur = head + ids.skip(i);
    let more = ids.take(i + 1);
    assert(more.drop_last() =~= ids.take(i));
    assert(more.last() == ids[i]);
    if drop.contains(ids[i]) {
        lemma_kept_members(ids.take(i), drop);
        let k = head.len() as int;
        assert(cur[k] == ids[i]);
        assert forall|j: int| 0 <= j < cur.len() && cur[j] == ids[i] implies j == k by {
            if j < k {
                assert(head.contains(head[j]));
                assert(ids.take(i).contains(ids[i]));
                let m = ids.take(i).index_of(ids[i]);
                assert(ids[m] == ids[i]);
            } else {
                assert(cur[j] == ids[i + (j - k)]);
            }
        }
        assert(cur.contains(ids[i]));
        assert(cur.index_of(ids[i]) == k);
        assert(cur.remove(k) =~= head + ids.skip(i + 1));
    } else {
        assert(cur =~= head.push(ids[i]) + ids.skip(i + 1));
    }
}

proof fn lemma_kept_members(s: Seq<u64>, drop: Set<u64>)
    ensures
        forall|x: u64| #[trigger] kept(s, drop).contains(x) ==> s.contains(x),
    decreases s.len(),
{
    if s.len() > 0 {
        lemma_kept_members(s.drop_last(), drop);
        assert forall|x: u64| #[trigger] kept(s, drop).contains(x) implies s.contains(x) by {
            let j = kept(s, drop).index_of(x);
            let init = kept(s.drop_last(), drop);
            if drop.contains(s.last()) || j < init.len() {
                assert(init[j] == x);
                assert(init.contains(x));
                assert(s.drop_last().contains(x));
                let m = s.drop_last().index_of(x);
                assert(s[m] == x);
            } else {
                assert(s[s.len() - 1] == x);
            }
        }
    }
}

/// The first id of `order` that is not in `dirty` is at `i`.
spec fn first_clean_at(order: Seq<u64>, dirty: Set<u64>, i: int) -> bool {
    &&& 0 <= i < order.len()
    &&& !dirty.contains(order[i])
    &&& forall|j: int| 0 <= j < i ==> dirty.contains(#[trigger] order[j])
}

proof fn lemma_trim_step(order: Seq<u64>, dirty: Set<u64>, excess: int, i: int)
    requires
        first_clean_at(order, dirty, i),
        excess > 0,
    ensures
        trimmed(order, dirty, excess) == trimmed(order.remove(i), dirty, excess - 1),
    decreases order.len(),
{
    let rest = order.skip(1);
    if i == 0 {
        assert(order.remove(0) =~= rest);
    } else {
        assert(dirty.contains(order[0]));
        assert forall|j: int| 0 <= j < i - 1 implies dirty.contains(#[trigger] rest[j]) by {
            assert(rest[j] == order[j + 1]);
        }
        lemma_trim_step(rest, dirty, excess, i - 1);
        let less = order.remove(i);
        assert(less[0] == order[0]);
        assert(less.skip(1) =~= rest.remove(i - 1));
        if excess == 1 {
            assert(trimmed(order, dirty, excess) =~= less);
        }
    }
}

proof fn lemma_trim_all_dirty(order: Seq<u64>, dirty: Set<u64>, excess: int)
    requires
        forall|j: int| 0 <= j < order.len() ==> dirty.contains(#[trigger] order[j]),
    ensures
        trimmed(order, dirty, excess) == order,
    decreases order.len(),
{
    if excess > 0 && order.len() > 0 {
        let rest = order.skip(1);
        assert forall|j: int| 0 <= j < rest.len() implies dirty.contains(#[trigger] rest[j]) by {
            assert(rest[j] == order[j + 1]);
        }
        lemma_trim_all_dirty(rest, dirty, excess);
        assert(dirty.contains(order[0]));
        assert(seq![order[0]] + rest =~= order);
    }
}

impl PageCache {
    // --- The state, as contracts see it ---

    /// The pages in the cache.
    pub closed spec fn cached(&self) -> Map<u64, Seq<u8>> {
        Map::new(|id: u64| self.entries@.contains_key(id), |id: u64| self.entries@[id].buf@)
    }

    /// The ids of the dirty pages in the cache.
    pub closed spec fn dirty(&self) -> Set<u64> {
        Set::new(|id: u64| self.entries@.contains_key(id) && self.entries@[id].dirty)
    }

    /// The ids in the cache, least recently used first.
    pub closed spec fn order(&self) -> Seq<u64> {
        self.lru@
    }

    /// The pages in the spillway.
    pub closed spec fn spilled(&self) -> Map<u64, Seq<u8>> {
        match self.spillway {
            Some(s) => s.pages(),
            None => Map::empty(),
        }
    }

    /// The ids in the spillway, in the order they were spilled.
    pub closed spec fn spill_order(&self) -> Seq<u64> {
        match self.spillway {
            Some(s) => s.order(),
            None => Seq::empty(),
        }
    }

    /// The storage underneath.
    pub closed spec fn storage(&self) -> PageIo {
        self.io
    }

    /// The pages on storage.
    pub open spec fn disk(&self) -> Seq<Seq<u8>> {
        self.storage().pages()
    }

    /// Limit on the pages in the cache.
    pub closed spec fn page_limit(&self) -> nat {
        self.max_pages as nat
    }

    /// Limit on the spillway, in bytes.
    pub closed spec fn spill_limit(&self) -> u64 {
        self.spillway_max_bytes
    }

    /// Where drained pages enter the LRU order.
    pub closed spec fn policy(&self) -> DrainInsertion {
        self.drain_insertion
    }

    /// The id that the next new page gets.
    pub closed spec fn watermark(&self) -> u64 {
        self.next_page_id
    }

    /// Page requests served from the cache.
    pub closed spec fn hits(&self) -> u64 {
        self.cache_hits
    }

    /// Page requests that had to look further.
    pub closed spec fn misses(&self) -> u64 {
        self.cache_misses
    }

    /// Pages allocated.
    pub closed spec fn allocations(&self) -> u64 {
        self.pages_allocated
    }

    /// The spillway was used at least once.
    pub closed spec fn has_spillway(&self) -> bool {
        self.spillway is Some
    }

    // --- Derived notions ---

    /// A page with this id exists somewhere.
    pub open spec fn present(&self, id: u64) -> bool {
        ||| self.cached().contains_key(id)
        ||| self.spilled().contains_key(id)
        ||| id < self.disk().len()
    }

    /// The current bytes of a page: those in the cache, else those in the
    /// spillway, else those on storage.
    pub open spec fn bytes(&self, id: u64) -> Seq<u8> {
        if self.cached().contains_key(id) {
            self.cached()[id]
        } else if self.spilled().contains_key(id) {
            self.spilled()[id]
        } else {
            self.disk()[id as int]
        }
    }

    /// The current bytes of every page, wherever they are.
    pub closed spec fn contents(&self) -> Map<u64, Seq<u8>> {
        Map::new(|id: u64| self.present(id), |id: u64| self.bytes(id))
    }

    /// Number of pages that a commit would write.
    pub closed spec fn pending(&self) -> nat {
        self.dirty().len() + self.spilled().dom().len()
    }

    /// Number of pages that the spillway can hold.
    pub open spec fn spill_capacity(&self) -> nat {
        (self.spill_limit() / PAGE_SIZE as u64) as nat
    }

    /// Number of dirty pages that cache and spillway can hold together.
    pub open spec fn capacity(&self) -> nat {
        self.page_limit() + self.spill_capacity()
    }

    /// The spillway is within its limit. It may not be after the limit was lowered.
    pub open spec fn spill_fits(&self) -> bool {
        self.spilled().dom().len() <= self.spill_capacity()
    }

    /// The dirty pages exceed what cache and spillway can hold.
    pub open spec fn over_limit(&self) -> bool {
        self.dirty().len() > self.page_limit() && self.pending() > self.capacity()
    }

    /// The error that an operation fails with when the limits are exceeded.
    pub open spec fn pressure_error(&self) -> ChiselError {
        if self.spill_limit() == 0 {
            ChiselError::CacheFull { limit: self.page_limit() as usize }
        } else {
            ChiselError::SpillwayFull { limit_bytes: self.spill_limit() }
        }
    }

    /// A page can be read: it is in the cache or the spillway, or its stored
    /// bytes match their checksum.
    pub open spec fn readable(&self, id: u64) -> bool {
        ||| self.cached().contains_key(id)
        ||| self.spilled().contains_key(id)
        ||| id < self.disk().len() && checksum_ok(self.disk()[id as int])
    }

    /// The error of reading a page that cannot be read.
    pub open spec fn read_error(&self, id: u64) -> ChiselError {
        if id < self.disk().len() {
            ChiselError::ChecksumMismatch { page_id: id }
        } else {
            ChiselError::InvalidPageId { page_id: id }
        }
    }

    /// Limits, policy and mode agree.
    pub open spec fn same_config(&self, other: &PageCache) -> bool {
        &&& self.page_limit() == other.page_limit()
        &&& self.spill_limit() == other.spill_limit()
        &&& self.policy() == other.policy()
        &&& self.storage().same_mode(&other.storage())
    }

    /// `self` differs from `other` at most in where the pages are kept: cache,
    /// spillway or storage.
    pub open spec fn same_pages(&self, other: &PageCache) -> bool {
        &&& self.same_config(other)
        &&& self.contents() == other.contents()
        &&& self.pending() == other.pending()
        &&& self.disk() == other.disk()
        &&& self.storage() == other.storage()
        &&& self.watermark() == other.watermark()
        &&& self.allocations() == other.allocations()
        &&& self.unsaved() == other.unsaved()
    }

    /// The pages that a commit would write.
    pub closed spec fn unsaved(&self) -> Set<u64> {
        self.dirty().union(self.spilled().dom())
    }

    /// Every unsaved page lies below the watermark, which fits the address
    /// space.
    pub open spec fn bounded(&self) -> bool {
        &&& self.watermark() <= usize::MAX
        &&& forall|id: u64| #[trigger] self.unsaved().contains(id) ==> id < self.watermark()
    }

    /// The storage is in order.
    pub proof fn lemma_storage(&self)
        requires
            self.inv(),
        ensures
            self.storage().inv(),
            self.disk() == self.storage().pages(),
    {
    }

    /// What every operation keeps.
    pub closed spec fn inv(&self) -> bool {
        &&& self.io.inv()
        &&& self.lru.inv()
        &&& self.entries@.dom() == self.lru@.to_set()
        &&& self.dirty_count == self.dirty().len()
        &&& self.max_pages >= 1
        &&& (self.spillway matches Some(s) ==> s.inv() && s.limit() == self.spillway_max_bytes)
        &&& forall|id: u64|
            #![trigger self.entries@.contains_key(id)]
            #![trigger self.spilled().contains_key(id)]
            !(self.entries@.contains_key(id) && self.spilled().contains_key(id))
        &&& forall|id: u64| #[trigger]
            self.entries@.contains_key(id) && !self.entries@[id].dirty ==> id < self.io.pages().len()
                && self.entries@[id].buf@ == self.io.pages()[id as int]
    }

    /// What the derived notions stand for.
    pub proof fn lemma_notions(&self)
        ensures
            self.contents() == Map::new(|id: u64| self.present(id), |id: u64| self.bytes(id)),
            self.unsaved() == self.dirty().union(self.spilled().dom()),
            self.pending() == self.dirty().len() + self.spilled().dom().len(),
    {
    }

    /// A page that is not unsaved is as the storage has it.
    pub proof fn lemma_saved_page(&self, id: u64)
        requires
            self.inv(),
            !self.unsaved().contains(id),
        ensures
            self.contents().contains_key(id) <==> id < self.disk().len(),
            id < self.disk().len() ==> self.contents()[id] == self.disk()[id as int],
    {
    }

    /// What the invariant says about the visible state.
    pub proof fn lemma_inv(&self)
        requires
            self.inv(),
        ensures
            self.order().no_duplicates(),
            self.order().to_set() == self.cached().dom(),
            self.order().len() == self.cached().dom().len(),
            self.cached().dom().finite(),
            self.dirty().subset_of(self.cached().dom()),
            self.dirty().finite(),
            self.dirty().len() <= self.cached().dom().len(),
            self.spill_order().no_duplicates(),
            self.spill_order().to_set() == self.spilled().dom(),
            self.spill_order().len() == self.spilled().dom().len(),
            self.spilled().dom().finite(),
            self.page_limit() >= 1,
            self.page_limit() <= usize::MAX,
            forall|id: u64| !(self.cached().contains_key(id) && #[trigger] self.spilled().contains_key(id)),
            forall|id: u64| #[trigger]
                self.cached().contains_key(id) && !self.dirty().contains(id) ==> id < self.disk().len()
                    && self.cached()[id] == self.disk()[id as int],
            forall|id: u64| self.present(id) ==> (#[trigger] self.bytes(id)).len() == PAGE_SIZE,
            self.disk().len() <= usize::MAX,
    {
        self.lru.lemma_no_duplicates();
        self.lru@.unique_seq_to_set();
        self.io.lemma_pages();
        assert(self.cached().dom() =~= self.entries@.dom());
        vstd::set_lib::lemma_set_subset_finite(self.cached().dom(), self.dirty());
        vstd::set_lib::lemma_len_subset(self.dirty(), self.cached().dom());
        match self.spillway {
            Some(s) => {
                s.lemma_order();
            },
            None => {
                assert(Seq::<u64>::empty().to_set() =~= Set::<u64>::empty());
                assert(Map::<u64, Seq<u8>>::empty().dom() =~= Set::<u64>::empty());
            },
        }
    }

    // --- Construction and configuration ---

    /// A cache over `io`. The byte limit of the cache is rounded down to whole
    /// pages, but at least one; a spillway limit of 0 disables the spillway.
    pub fn new(
        io: PageIo,
        cache_max_bytes: u64,
        spillway_max_bytes: u64,
        drain_insertion: DrainInsertion,
    ) -> (cache: PageCache)
        requires
            io.inv(),
            cache_max_bytes / (PAGE_SIZE as u64) <= usize::MAX,
        ensures
            cache.inv(),
            cache.storage() == io,
            cache.cached() == Map::<u64, Seq<u8>>::empty(),
            cache.dirty() == Set::<u64>::empty(),
            cache.order().len() == 0,
            cache.spilled() == Map::<u64, Seq<u8>>::empty(),
            !cache.has_spillway(),
            cache.page_limit() == page_limit_of(cache_max_bytes),
            cache.page_limit() == 1 || cache.page_limit() * 8192 <= cache_max_bytes,
            cache_max_bytes < (cache.page_limit() + 1) * 8192,
            cache.spill_limit() == spillway_max_bytes,
            cache.policy() == drain_insertion,
            cache.watermark() == io.pages().len(),
            cache.bounded(),
            cache.hits() == 0 && cache.misses() == 0 && cache.allocations() == 0,
            cache.pending() == 0,
            cache.unsaved() == Set::<u64>::empty(),
            cache.contents() == Map::new(
                |id: u64| id < io.pages().len(),
                |id: u64| io.pages()[id as int],
            ),
    {
        proof {
            law_page_limit_fits_the_bytes(cache_max_bytes);
        }
        let wanted: u64 = cache_max_bytes / PAGE_SIZE as u64;
        let max_pages: usize = if wanted < 1 {
            1
        } else {
            wanted as usize
        };
        let next_page_id: u64 = match io.page_count() {
            Ok(n) => n,
            Err(_) => 0,
        };
        proof {
            io.lemma_pages();
        }
        let entries = map_new();
        let lru = LruIndex::new();
        let cache = PageCache {
            io,
            entries,
            lru,
            dirty_count: 0,
            max_pages,
            spillway_max_bytes,
            drain_insertion,
            spillway: None,
            next_page_id,
            cache_hits: 0,
            cache_misses: 0,
            pages_allocated: 0,
        };
        proof {
            assert(cache.lru@.to_set() =~= Set::<u64>::empty());
            assert(cache.dirty() =~= Set::<u64>::empty());
            assert(cache.cached() =~= Map::<u64, Seq<u8>>::empty());
            assert(cache.spilled().dom() =~= Set::<u64>::empty());
        }
        cache
    }
}

impl PageCache {
    // --- Moving entries in and out ---

    /// Everything but entries, LRU order and dirty count agrees.
    spec fn same_rest(&self, other: &PageCache) -> bool {
        &&& self.io == other.io
        &&& self.max_pages == other.max_pages
        &&& self.spillway_max_bytes == other.spillway_max_bytes
        &&& self.drain_insertion == other.drain_insertion
        &&& self.spillway == other.spillway
        &&& self.next_page_id == other.next_page_id
        &&& self.cache_hits == other.cache_hits
        &&& self.cache_misses == other.cache_misses
        &&& self.pages_allocated == other.pages_allocated
    }

    /// Take a page out of the cache.
    fn take_entry(&mut self, id: u64) -> (entry: Option<CacheEntry>)
        requires
            old(self).inv(),
        ensures
            final(self).inv(),
            final(self).same_rest(old(self)),
            final(self).cached() == old(self).cached().remove(id),
            final(self).dirty() == old(self).dirty().remove(id),
            final(self).order() == without(old(self).order(), id),
            match entry {
                Some(e) => {
                    &&& old(self).cached().contains_key(id)
                    &&& e.buf@ == old(self).cached()[id]
                    &&& e.dirty == old(self).dirty().contains(id)
                },
                None => !old(self).cached().contains_key(id),
            },
    {
        proof {
            self.lemma_inv();
            self.lru.lemma_no_duplicates();
            lemma_without(self.lru@, id);
        }
        let entry = map_remove(&mut self.entries, id);
        match &entry {
            Some(e) => {
                if e.dirty {
                    assert(old(self).dirty().contains(id));
                    self.dirty_count = self.dirty_count - 1;
                }
            },
            None => {},
        }
        self.lru.remove(id);
        proof {
            assert(self.dirty() =~= old(self).dirty().remove(id));
            assert(self.cached() =~= old(self).cached().remove(id));
            assert(self.entries@.dom() =~= self.lru@.to_set());
            assert(self.spilled() == old(self).spilled());
        }
        entry
    }

    /// Put a page into the cache, as the most or least recently used.
    fn put_entry(&mut self, id: u64, entry: CacheEntry, at_tail: bool)
        requires
            old(self).inv(),
            !old(self).dirty().contains(id),
            !old(self).spilled().contains_key(id),
            !entry.dirty ==> id < old(self).disk().len() && entry.buf@ == old(self).disk()[id as int],
        ensures
            final(self).inv(),
            final(self).same_rest(old(self)),
            final(self).cached() == old(self).cached().insert(id, entry.buf@),
            final(self).dirty() == (if entry.dirty {
                old(self).dirty().insert(id)
            } else {
                old(self).dirty()
            }),
            final(self).order() == (if at_tail {
                seq![id] + without(old(self).order(), id)
            } else {
                without(old(self).order(), id).push(id)
            }),
    {
        proof {
            self.lemma_inv();
            self.lru.lemma_no_duplicates();
            lemma_without(self.lru@, id);
        }
        let ghost is_dirty = entry.dirty;
        let ghost bytes = entry.buf@;
        let ghost rest = without(self.lru@, id);
        let fresh: bool = entry.dirty;
        map_insert(&mut self.entries, id, entry);
        if at_tail {
            self.lru.push_back(id);
        } else {
            self.lru.push_front(id);
        }
        proof {
            assert(self.dirty() =~= (if is_dirty {
                old(self).dirty().insert(id)
            } else {
                old(self).dirty()
            }));
            assert(self.cached() =~= old(self).cached().insert(id, bytes));
            let order = self.lru@;
            assert forall|x: u64| order.contains(x) <==> rest.contains(x) || x == id by {
                if rest.contains(x) {
                    let k = rest.index_of(x);
                    if at_tail {
                        assert(order[k + 1] == x);
                    } else {
                        assert(order[k] == x);
                    }
                }
                if at_tail {
                    assert(order[0] == id);
                } else {
                    assert(order[rest.len() as int] == id);
                }
                if order.contains(x) && x != id {
                    let k = order.index_of(x);
                    if at_tail {
                        assert(rest[k - 1] == x);
                    } else {
                        assert(rest[k] == x);
                    }
                }
            }
            assert(self.entries@.dom() =~= self.lru@.to_set());
            assert(self.spilled() == old(self).spilled());
            self.lru.lemma_no_duplicates();
            self.lru@.unique_seq_to_set();
            vstd::set_lib::lemma_set_subset_finite(self.entries@.dom(), self.dirty());
            vstd::set_lib::lemma_len_subset(self.dirty(), self.entries@.dom());
        }
        if fresh {
            let n: usize = map_len(&self.entries);
            assert(self.dirty_count < n);
            self.dirty_count = self.dirty_count + 1;
        }
        proof {
            assert(self.dirty() =~= (if is_dirty {
                old(self).dirty().insert(id)
            } else {
                old(self).dirty()
            }));
            assert(self.cached() =~= old(self).cached().insert(id, bytes));
            assert(self.spilled() == old(self).spilled());
        }
    }

    /// The least recently used clean page.
    fn find_clean(&self) -> (victim: Option<u64>)
        requires
            self.inv(),
        ensures
            match victim {
                Some(id) => exists|i: int| first_clean_at(self.order(), self.dirty(), i) && self.order()[i] == id,
                None => forall|j: int|
                    0 <= j < self.order().len() ==> self.dirty().contains(#[trigger] self.order()[j]),
            },
    {
        let mut iter = self.lru.iter_lru_to_mru();
        loop
            invariant_except_break
                self.inv(),
                iter.inv(),
                iter.ids() == self.order(),
                forall|j: int| 0 <= j < iter.index() ==> self.dirty().contains(#[trigger] self.order()[j]),
            ensures
                forall|j: int| 0 <= j < self.order().len() ==> self.dirty().contains(#[trigger] self.order()[j]),
            decreases self.order().len() - iter.index(),
        {
            let ghost i = iter.index();
            proof {
                iter.lemma_bounds();
                self.lemma_inv();
            }
            match iter.next() {
                Some(id) => {
                    assert(self.order().contains(id));
                    assert(self.order().to_set().contains(id));
                    match map_get(&self.entries, id) {
                        Some(e) => {
                            if !e.dirty {
                                assert(first_clean_at(self.order(), self.dirty(), i));
                                return Some(id);
                            }
                        },
                        None => {},
                    }
                },
                None => {
                    break;
                },
            }
        }
        None
    }

    /// Evict clean pages, least recently used first, until the cache is within
    /// its limit or holds dirty pages only.
    fn evict_clean_to_cap(&mut self)
        requires
            old(self).inv(),
        ensures
            final(self).inv(),
            final(self).same_rest(old(self)),
            final(self).dirty() == old(self).dirty(),
            final(self).order() == trimmed(
                old(self).order(),
                old(self).dirty(),
                old(self).order().len() - old(self).page_limit(),
            ),
            forall|id: u64| #[trigger] final(self).cached().contains_key(id) ==> old(self).cached().contains_key(id)
                && final(self).cached()[id] == old(self).cached()[id],
            forall|id: u64| old(self).dirty().contains(id) ==> #[trigger] final(self).cached().contains_key(id),
            final(self).cached().dom().len() <= final(self).page_limit() || final(self).cached().dom()
                == final(self).dirty(),
    {
        let ghost want = trimmed(self.order(), self.dirty(), self.order().len() - self.page_limit());
        proof {
            self.lemma_inv();
        }
        while map_len(&self.entries) > self.max_pages
            invariant
                self.inv(),
                self.same_rest(old(self)),
                self.dirty() == old(self).dirty(),
                trimmed(self.order(), self.dirty(), self.order().len() - self.page_limit()) == want,
                want == trimmed(
                    old(self).order(),
                    old(self).dirty(),
                    old(self).order().len() - old(self).page_limit(),
                ),
                forall|id: u64| #[trigger] self.cached().contains_key(id) ==> old(self).cached().contains_key(id)
                    && self.cached()[id] == old(self).cached()[id],
                forall|id: u64| old(self).dirty().contains(id) ==> #[trigger] self.cached().contains_key(id),
            decreases self.order().len(),
        {
            proof {
                self.lemma_inv();
                assert(self.entries@.dom() =~= self.cached().dom());
            }
            if self.dirty_count == map_len(&self.entries) {
                proof {
                    vstd::set_lib::lemma_subset_equality(self.dirty(), self.cached().dom());
                    assert forall|j: int| 0 <= j < self.order().len() implies self.dirty().contains(
                        #[trigger] self.order()[j],
                    ) by {
                        assert(self.order().to_set().contains(self.order()[j]));
                    }
                    lemma_trim_all_dirty(self.order(), self.dirty(), self.order().len() - self.page_limit());
                }
                return;
            }
            match self.find_clean() {
                Some(id) => {
                    let ghost order = self.order();
                    let ghost i = choose|i: int| first_clean_at(self.order(), self.dirty(), i) && self.order()[i] == id;
                    proof {
                        lemma_trim_step(order, self.dirty(), order.len() - self.page_limit(), i);
                        lemma_without(order, id);
                        assert(order.index_of(id) == i);
                    }
                    self.take_entry(id);
                    assert(self.dirty() =~= old(self).dirty());
                },
                None => {
                    proof {
                        lemma_trim_all_dirty(self.order(), self.dirty(), self.order().len() - self.page_limit());
                        assert forall|x: u64| self.cached().contains_key(x) implies self.dirty().contains(x) by {
                            assert(self.order().to_set().contains(x));
                            let j = self.order().index_of(x);
                            assert(self.order()[j] == x);
                        }
                        assert(self.cached().dom() =~= self.dirty());
                    }
                    return;
                },
            }
        }
        proof {
            self.lemma_inv();
            assert(self.entries@.dom() =~= self.cached().dom());
        }
    }
}

impl PageCache {
    // --- Limits ---

    /// Dropping clean pages from the cache changes no contents.
    proof fn lemma_evicted(&self, before: &PageCache)
        requires
            before.inv(),
            self.inv(),
            self.same_rest(before),
            self.dirty() == before.dirty(),
            forall|id: u64| #[trigger] self.cached().contains_key(id) ==> before.cached().contains_key(id)
                && self.cached()[id] == before.cached()[id],
            forall|id: u64| before.dirty().contains(id) ==> #[trigger] self.cached().contains_key(id),
        ensures
            self.same_pages(before),
    {
        before.lemma_inv();
        self.lemma_inv();
        assert(self.contents() =~= before.contents()) by {
            assert forall|id: u64| self.present(id) == before.present(id) && (self.present(id) ==> self.bytes(id)
                == before.bytes(id)) by {
                if before.cached().contains_key(id) && !self.cached().contains_key(id) {
                    assert(!before.dirty().contains(id));
                }
            }
        }
    }

    /// Enforce the limits: evict clean pages, then spill dirty ones, least
    /// recently used first. Fails exactly if the dirty pages exceed what cache
    /// and spillway can hold; no page is lost then either.
    fn maybe_evict(&mut self) -> (outcome: Result<(), ChiselError>)
        requires
            old(self).inv(),
        ensures
            final(self).inv(),
            final(self).same_pages(old(self)),
            final(self).hits() == old(self).hits(),
            final(self).misses() == old(self).misses(),
            forall|id: u64| #[trigger] final(self).cached().contains_key(id) ==> old(self).cached().contains_key(id),
            old(self).spill_fits() ==> final(self).spill_fits(),
            match outcome {
                Ok(_) => {
                    &&& !old(self).over_limit()
                    &&& final(self).cached().dom().len() <= final(self).page_limit()
                    &&& final(self).order() == remaining(old(self).order(), old(self).dirty(), old(self).page_limit())
                    &&& final(self).spill_order() == old(self).spill_order() + pushed_out(
                        old(self).order(),
                        old(self).dirty(),
                        old(self).page_limit(),
                    )
                    &&& final(self).has_spillway() == (old(self).has_spillway() || pushed_out(
                        old(self).order(),
                        old(self).dirty(),
                        old(self).page_limit(),
                    ).len() > 0)
                },
                Err(e) => old(self).over_limit() && e == old(self).pressure_error(),
            },
    {
        self.evict_clean_to_cap();
        proof {
            self.lemma_evicted(old(self));
            self.lemma_inv();
            assert(self.entries@.dom() =~= self.cached().dom());
        }
        let ghost rest = self.order();
        assert(rest.skip(0) =~= rest);
        assert(self.spill_order() + rest.take(0) =~= old(self).spill_order());
        while map_len(&self.entries) > self.max_pages
            invariant
                self.inv(),
                self.same_pages(old(self)),
                self.hits() == old(self).hits(),
                self.misses() == old(self).misses(),
                self.entries@.dom() == self.cached().dom(),
                self.cached().dom().len() <= self.page_limit() || self.cached().dom() == self.dirty(),
                self.dirty().len() <= old(self).dirty().len(),
                forall|id: u64| #[trigger] self.cached().contains_key(id) ==> old(self).cached().contains_key(id),
                self.spilled().dom().len() <= self.spill_capacity() || self.dirty() == old(self).dirty(),
                old(self).spill_fits() ==> self.spill_fits(),
                rest == trimmed(
                    old(self).order(),
                    old(self).dirty(),
                    old(self).order().len() - old(self).page_limit(),
                ),
                self.order().len() <= rest.len(),
                self.order() == rest.skip(rest.len() - self.order().len()),
                self.order().len() >= self.page_limit() || self.order() == rest,
                self.spill_order() == old(self).spill_order() + rest.take(rest.len() - self.order().len()),
                self.has_spillway() == (old(self).has_spillway() || self.order().len() < rest.len()),
            decreases self.order().len(),
        {
            proof {
                self.lemma_inv();
            }
            if self.spillway_max_bytes == 0 {
                return Err(ChiselError::CacheFull { limit: self.max_pages });
            }
            let victim_id: u64 = match self.lru.iter_lru_to_mru().next() {
                Some(id) => id,
                None => {
                    assert(false);
                    return Ok(());
                },
            };
            assert(self.order()[0] == victim_id);
            assert(self.order().to_set().contains(victim_id));
            let ghost before = *self;
            let entry = match self.take_entry(victim_id) {
                Some(entry) => entry,
                None => {
                    assert(false);
                    return Err(ChiselError::CorruptPage { page_id: victim_id });
                },
            };
            let ghost bytes = entry.buf@;
            proof {
                lemma_without(before.order(), victim_id);
                assert(before.dirty().contains(victim_id));
            }
            if self.spillway.is_none() {
                self.spillway = Some(Spillway::new(self.spillway_max_bytes));
            }
            assert(self.spilled() =~= before.spilled());
            assert(self.spill_order() =~= before.spill_order());
            assert(self.inv()) by {
                assert(self.dirty() =~= before.dirty().remove(victim_id));
            }
            proof {
                self.lemma_inv();
            }
            let outcome = match &mut self.spillway {
                Some(spillway) => spillway.spill(victim_id, &entry.buf),
                None => Ok(()),
            };
            proof {
                assert(self.dirty() =~= before.dirty().remove(victim_id));
                assert(self.cached() =~= before.cached().remove(victim_id));
            }
            match outcome {
                Err(e) => {
                    assert(self.spilled() =~= before.spilled());
                    self.put_entry(victim_id, entry, true);
                    proof {
                        assert(self.cached() =~= before.cached());
                        assert(self.dirty() =~= before.dirty());
                        assert(self.contents() =~= before.contents());
                        before.lemma_inv();
                    }
                    return Err(e);
                },
                Ok(_) => {
                    proof {
                        assert(self.spilled() =~= before.spilled().insert(victim_id, bytes));
                        assert(self.inv());
                        self.lemma_inv();
                        assert(self.spilled().dom() =~= before.spilled().dom().insert(victim_id));
                        assert(self.contents() =~= before.contents()) by {
                            assert forall|id: u64| self.present(id) == before.present(id) && (self.present(id)
                                ==> self.bytes(id) == before.bytes(id)) by {
                                if id == victim_id {
                                    assert(self.spilled().contains_key(id));
                                    assert(self.bytes(id) == bytes);
                                }
                            }
                        }
                        assert(self.cached().dom() =~= self.dirty());
                        assert(self.entries@.dom() =~= self.cached().dom());
                        assert(self.unsaved() =~= old(self).unsaved());
                        assert(before.order().index_of(victim_id) == 0);
                        assert(self.order() =~= before.order().skip(1));
                        assert(before.order().len() == before.entries@.dom().len());
                        before.lemma_inv();
                        assert(!before.spilled().contains_key(victim_id));
                        assert(!before.spill_order().to_set().contains(victim_id));
                        assert(self.spill_order() =~= before.spill_order().push(victim_id));
                        let n = rest.len() - before.order().len();
                        assert(rest[n] == victim_id);
                        assert(rest.take(n).push(victim_id) =~= rest.take(n + 1));
                    }
                },
            }
        }
        proof {
            self.lemma_inv();
            old(self).lemma_inv();
        }
        Ok(())
    }
}

impl PageCache {
    // --- Reading and writing pages ---

    /// Bring a page that is not in the cache into it: from the spillway, where
    /// it keeps being dirty, or else from storage, if its checksum holds.
    fn load_page(&mut self, page_id: u64) -> (outcome: Result<(), ChiselError>)
        requires
            old(self).inv(),
            !old(self).cached().contains_key(page_id),
        ensures
            final(self).inv(),
            final(self).same_pages(old(self)),
            final(self).hits() == old(self).hits(),
            final(self).misses() == old(self).misses(),
            forall|id: u64| #[trigger]
                final(self).cached().contains_key(id) ==> old(self).cached().contains_key(id) || id == page_id,
            match outcome {
                Ok(_) => {
                    &&& !old(self).over_limit()
                    &&& old(self).readable(page_id)
                    &&& final(self).cached().contains_key(page_id)
                    &&& final(self).cached()[page_id] == old(self).bytes(page_id)
                    &&& final(self).dirty().contains(page_id) == old(self).spilled().contains_key(page_id)
                    &&& final(self).order() == remaining(
                        old(self).order(),
                        old(self).dirty(),
                        old(self).page_limit(),
                    ).push(page_id)
                    &&& final(self).spill_order() == old(self).spilling(page_id)
                    &&& final(self).has_spillway() == old(self).spilled_once(page_id)
                },
                Err(e) => {
                    &&& !final(self).cached().contains_key(page_id)
                    &&& if old(self).over_limit() {
                        e == old(self).pressure_error()
                    } else {
                        !old(self).readable(page_id) && e == old(self).read_error(page_id)
                    }
                },
            },
    {
        match self.maybe_evict() {
            Ok(_) => {},
            Err(e) => {
                return Err(e);
            },
        }
        proof {
            self.lemma_inv();
            old(self).lemma_inv();
            assert(old(self).present(page_id) == old(self).contents().contains_key(page_id));
            assert(self.present(page_id) == self.contents().contains_key(page_id));
            assert(old(self).unsaved().contains(page_id) <==> self.unsaved().contains(page_id));
        }
        let ghost before = *self;
        let spilled: Option<[u8; PAGE_SIZE]> = match &mut self.spillway {
            Some(spillway) => {
                let page = spillway.rehydrate(page_id);
                if page.is_some() {
                    spillway.forget(page_id);
                }
                page
            },
            None => None,
        };
        match spilled {
            Some(bytes) => {
                proof {
                    assert(self.dirty() =~= before.dirty());
                    assert(self.cached() =~= before.cached());
                    assert(self.spilled() =~= before.spilled().remove(page_id));
                    assert(self.inv());
                }
                self.put_entry(page_id, CacheEntry { buf: Box::new(bytes), dirty: true }, false);
                proof {
                    self.lemma_inv();
                    assert(self.spilled().dom() =~= before.spilled().dom().remove(page_id));
                    assert(before.spilled().contains_key(page_id));
                    assert(!before.dirty().contains(page_id));
                    assert(self.contents() =~= before.contents());
                    assert(self.unsaved() =~= old(self).unsaved());
                    assert(before.unsaved().contains(page_id));
                    assert(old(self).spilled().contains_key(page_id));
                    assert(self.contents()[page_id] == self.bytes(page_id));
                    assert(old(self).contents()[page_id] == old(self).bytes(page_id));
                    assert(!before.order().to_set().contains(page_id));
                    assert(without(before.order(), page_id) == before.order());
                    assert(self.spill_order() =~= without(before.spill_order(), page_id));
                }
                return Ok(());
            },
            None => {},
        }
        proof {
            assert(self.dirty() =~= before.dirty());
            assert(self.cached() =~= before.cached());
            assert(self.spilled() =~= before.spilled());
            assert(self.contents() =~= before.contents());
            assert(self.inv());
            assert(self.unsaved() =~= old(self).unsaved());
        }
        let bytes: [u8; PAGE_SIZE] = match self.io.read_page(page_id) {
            Ok(bytes) => bytes,
            Err(e) => {
                return Err(e);
            },
        };
        if !verify_checksum(&bytes) {
            return Err(ChiselError::ChecksumMismatch { page_id });
        }
        proof {
            assert(!self.order().to_set().contains(page_id));
            assert(without(self.order(), page_id) == self.order());
            assert(self.spill_order() =~= before.spill_order());
            assert(!before.spill_order().to_set().contains(page_id));
            assert(without(before.spill_order(), page_id) == before.spill_order());
        }
        self.put_entry(page_id, CacheEntry { buf: Box::new(bytes), dirty: false }, false);
        proof {
            assert(self.contents() =~= before.contents());
            assert(self.unsaved() =~= old(self).unsaved());
        }
        Ok(())
    }

    /// Count the request, make sure the page is in the cache, and mark it most
    /// recently used.
    fn fetch(&mut self, page_id: u64) -> (outcome: Result<(), ChiselError>)
        requires
            old(self).inv(),
        ensures
            final(self).inv(),
            final(self).same_pages(old(self)),
            final(self).hits() == (if old(self).cached().contains_key(page_id) {
                bumped(old(self).hits())
            } else {
                old(self).hits()
            }),
            final(self).misses() == (if old(self).cached().contains_key(page_id) {
                old(self).misses()
            } else {
                bumped(old(self).misses())
            }),
            old(self).cached().contains_key(page_id) ==> final(self).cached() == old(self).cached(),
            forall|id: u64| #[trigger]
                final(self).cached().contains_key(id) ==> old(self).cached().contains_key(id) || id == page_id,
            match outcome {
                Ok(_) => {
                    &&& old(self).fetchable(page_id)
                    &&& final(self).cached().contains_key(page_id)
                    &&& final(self).cached()[page_id] == old(self).bytes(page_id)
                    &&& final(self).order() == old(self).touched(page_id)
                    &&& final(self).spill_order() == old(self).spilling(page_id)
                    &&& final(self).has_spillway() == old(self).spilled_once(page_id)
                },
                Err(e) => {
                    &&& !old(self).fetchable(page_id)
                    &&& e == old(self).fetch_error(page_id)
                    &&& !final(self).cached().contains_key(page_id)
                },
            },
    {
        if map_contains(&self.entries, page_id) {
            self.cache_hits = bump(self.cache_hits);
        } else {
            self.cache_misses = bump(self.cache_misses);
            assert(self.cached() =~= old(self).cached());
            assert(self.dirty() =~= old(self).dirty());
            assert(self.inv());
            assert(self.contents() =~= old(self).contents());
            match self.load_page(page_id) {
                Ok(_) => {},
                Err(e) => {
                    return Err(e);
                },
            }
        }
        let ghost before = *self;
        proof {
            assert(self.dirty() =~= before.dirty());
            old(self).lemma_inv();
            before.lru.lemma_no_duplicates();
            lemma_without(before.lru@, page_id);
            assert(before.cached().contains_key(page_id));
            assert(before.lru@.to_set().contains(page_id));
        }
        self.lru.push_front(page_id);
        proof {
            let rest = without(before.lru@, page_id);
            let order = self.lru@;
            assert forall|x: u64| order.contains(x) <==> rest.contains(x) || x == page_id by {
                if rest.contains(x) {
                    assert(order[rest.index_of(x)] == x);
                }
                assert(order[rest.len() as int] == page_id);
            }
            assert(self.entries@.dom() =~= self.lru@.to_set());
            assert(self.dirty() =~= before.dirty());
            assert(self.cached() =~= before.cached());
            assert(self.contents() =~= old(self).contents()) by {
                assert(self.contents() =~= before.contents());
            }
            assert(old(self).present(page_id) == old(self).contents().contains_key(page_id));
            assert(self.contents()[page_id] == self.bytes(page_id));
            assert(old(self).contents()[page_id] == old(self).bytes(page_id));
            assert(self.unsaved() =~= old(self).unsaved());
            if !old(self).cached().contains_key(page_id) {
                let kept = remaining(old(self).order(), old(self).dirty(), old(self).page_limit());
                assert(before.order() == kept.push(page_id));
                assert(kept.push(page_id)[kept.len() as int] == page_id);
                assert(rest =~= kept);
            }
        }
        Ok(())
    }

    /// The order after a page was requested: the page is the most recently used one,
    /// and the limit was enforced if it had to be brought in.
    pub open spec fn touched(&self, id: u64) -> Seq<u64> {
        if self.cached().contains_key(id) {
            without(self.order(), id).push(id)
        } else {
            remaining(self.order(), self.dirty(), self.page_limit()).push(id)
        }
    }

    /// The ids in the spillway after a page was requested, in order: if it had to be
    /// brought in, dirty pages may have made room for it, and it has left the spillway.
    pub open spec fn spilling(&self, id: u64) -> Seq<u64> {
        if self.cached().contains_key(id) {
            self.spill_order()
        } else {
            without(self.spill_order() + pushed_out(self.order(), self.dirty(), self.page_limit()), id)
        }
    }

    /// There is a spillway after a page was requested: there was one, or dirty pages had to
    /// make room.
    pub open spec fn spilled_once(&self, id: u64) -> bool {
        self.has_spillway() || !self.cached().contains_key(id) && pushed_out(
            self.order(),
            self.dirty(),
            self.page_limit(),
        ).len() > 0
    }

    /// A request for this page succeeds: it is in the cache, or there is room
    /// and it can be read.
    pub open spec fn fetchable(&self, id: u64) -> bool {
        self.cached().contains_key(id) || !self.over_limit() && self.readable(id)
    }

    /// The error of a request that does not succeed.
    pub open spec fn fetch_error(&self, id: u64) -> ChiselError {
        if self.over_limit() {
            self.pressure_error()
        } else {
            self.read_error(id)
        }
    }

    /// Read a page.
    pub fn get(&mut self, page_id: u64) -> (page: Result<&[u8; PAGE_SIZE], ChiselError>)
        requires
            old(self).inv(),
        ensures
            final(self).inv(),
            final(self).same_pages(old(self)),
            old(self).bounded() ==> final(self).bounded(),
            final(self).hits() == (if old(self).cached().contains_key(page_id) {
                bumped(old(self).hits())
            } else {
                old(self).hits()
            }),
            final(self).misses() == (if old(self).cached().contains_key(page_id) {
                old(self).misses()
            } else {
                bumped(old(self).misses())
            }),
            old(self).cached().contains_key(page_id) ==> final(self).cached() == old(self).cached(),
            old(self).all_sound() ==> final(self).all_sound(),
            old(self).all_sound() && page is Ok ==> old(self).sound(page_id),
            match page {
                Ok(buf) => {
                    &&& old(self).fetchable(page_id)
                    &&& buf@ == old(self).bytes(page_id)
                    &&& old(self).contents().contains_key(page_id)
                    &&& buf@ == old(self).contents()[page_id]
                    &&& final(self).cached().contains_key(page_id)
                    &&& final(self).order() == old(self).touched(page_id)
                    &&& final(self).spill_order() == old(self).spilling(page_id)
                    &&& final(self).has_spillway() == old(self).spilled_once(page_id)
                },
                Err(e) => {
                    &&& !old(self).fetchable(page_id)
                    &&& e == old(self).fetch_error(page_id)
                    &&& !final(self).cached().contains_key(page_id)
                },
            },
    {
        let fetched = self.fetch(page_id);
        proof {
            old(self).lemma_fetched(&*self, page_id);
        }
        match fetched {
            Ok(_) => {},
            Err(e) => {
                return Err(e);
            },
        }
        match map_get(&self.entries, page_id) {
            Some(entry) => Ok(&*entry.buf),
            None => Err(ChiselError::CorruptPage { page_id }),
        }
    }

    /// Read a page in order to change it: the page becomes dirty, and what the
    /// caller writes through the reference becomes its contents.
    pub fn get_mut(&mut self, page_id: u64) -> (page: Result<&mut [u8; PAGE_SIZE], ChiselError>)
        requires
            old(self).inv(),
        ensures
            final(self).inv(),
            final(self).same_config(old(self)),
            final(self).disk() == old(self).disk(),
            final(self).storage() == old(self).storage(),
            final(self).watermark() == old(self).watermark(),
            final(self).allocations() == old(self).allocations(),
            final(self).hits() == (if old(self).cached().contains_key(page_id) {
                bumped(old(self).hits())
            } else {
                old(self).hits()
            }),
            final(self).misses() == (if old(self).cached().contains_key(page_id) {
                old(self).misses()
            } else {
                bumped(old(self).misses())
            }),
            page is Ok <==> old(self).fetchable(page_id),
            page matches Ok(buf) ==> old(self).contents().contains_key(page_id) && buf@ == old(
                self,
            ).contents()[page_id],
            page matches Ok(buf) ==> final(self).contents() == old(self).contents().insert(page_id, final(buf)@),
            page is Ok ==> final(self).unsaved() == old(self).unsaved().insert(page_id),
            page is Ok ==> final(self).pending() == (if old(self).unsaved().contains(page_id) {
                old(self).pending()
            } else {
                old(self).pending() + 1
            }),
            page is Ok ==> final(self).order() == old(self).touched(page_id),
            page is Ok ==> final(self).spill_order() == old(self).spilling(page_id),
            page is Ok ==> final(self).has_spillway() == old(self).spilled_once(page_id),
            page matches Err(e) ==> {
                &&& e == old(self).fetch_error(page_id)
                &&& final(self).same_pages(old(self))
                &&& !final(self).cached().contains_key(page_id)
            },
    {
        match self.fetch(page_id) {
            Ok(_) => {},
            Err(e) => {
                return Err(e);
            },
        }
        proof {
            self.lemma_inv();
            old(self).lemma_inv();
        }
        let ghost before = *self;
        self.set_dirty(page_id);
        proof {
            self.lemma_inv();
            before.lemma_inv();
            assert(old(self).unsaved().contains(page_id) <==> before.unsaved().contains(page_id));
            assert(self.contents() =~= before.contents());
            assert(old(self).contents().contains_key(page_id));
            assert(self.pending() == (if old(self).unsaved().contains(page_id) {
                old(self).pending()
            } else {
                old(self).pending() + 1
            })) by {
                if old(self).unsaved().contains(page_id) {
                    assert(before.dirty().contains(page_id));
                    assert(self.dirty() =~= before.dirty());
                }
            }
            assert(self.unsaved() =~= old(self).unsaved().insert(page_id));
            assert forall|c: PageCache, e: CacheEntry|
                #![trigger c.inv(), self.entries@.insert(page_id, e)]
                #![trigger c.contents(), self.entries@.insert(page_id, e)]
                #![trigger c.unsaved(), self.entries@.insert(page_id, e)]
                #![trigger c.pending(), self.entries@.insert(page_id, e)]
                e.dirty && c.same_rest(&*self) && c.lru == self.lru && c.dirty_count == self.dirty_count && c.entries@
                == self.entries@.insert(page_id, e) implies {
                &&& c.inv()
                &&& c.contents() == old(self).contents().insert(page_id, e.buf@)
                &&& c.pending() == (if old(self).unsaved().contains(page_id) {
                    old(self).pending()
                } else {
                    old(self).pending() + 1
                })
                &&& c.unsaved() == old(self).unsaved().insert(page_id)
            } by {
                assert(c.dirty() =~= self.dirty());
                assert(c.entries@.dom() =~= self.entries@.dom());
                assert(c.spilled() == self.spilled());
                assert(c.contents() =~= self.contents().insert(page_id, e.buf@));
            }
        }
        match map_get_mut(&mut self.entries, page_id) {
            Some(entry) => Ok(&mut *entry.buf),
            None => Err(ChiselError::CorruptPage { page_id }),
        }
    }

    /// Mark a cached page dirty.
    fn set_dirty(&mut self, page_id: u64)
        requires
            old(self).inv(),
            old(self).cached().contains_key(page_id),
        ensures
            final(self).inv(),
            final(self).same_rest(old(self)),
            final(self).order() == old(self).order(),
            final(self).cached() == old(self).cached(),
            final(self).dirty() == old(self).dirty().insert(page_id),
    {
        proof {
            self.lemma_inv();
            if !self.dirty().contains(page_id) {
                vstd::set_lib::lemma_len_subset(self.dirty().insert(page_id), self.cached().dom());
            }
            assert(self.cached().dom() =~= self.entries@.dom());
        }
        let n: usize = map_len(&self.entries);
        assert(!self.dirty().contains(page_id) ==> self.dirty_count < n);
        if let Some(entry) = map_get_mut(&mut self.entries, page_id) {
            if !entry.dirty {
                entry.dirty = true;
                self.dirty_count = self.dirty_count + 1;
            }
        }
        proof {
            assert(self.cached() =~= old(self).cached());
            assert(self.dirty() =~= old(self).dirty().insert(page_id));
            assert(self.entries@.dom() =~= old(self).entries@.dom());
            assert(self.spilled() == old(self).spilled());
        }
    }
}

impl PageCache {
    // --- Allocation ---

    /// The limits hold no further dirty page.
    pub open spec fn full(&self) -> bool {
        self.dirty().len() + 1 > self.page_limit() && self.pending() + 1 > self.capacity()
    }

    /// What allocating page `id` does: a zero page becomes its contents, and a
    /// commit would write it.
    pub open spec fn allocated(&self, before: &PageCache, id: u64) -> bool {
        &&& self.same_config(before)
        &&& self.contents() == before.contents().insert(id, zero_page())
        &&& self.unsaved() == before.unsaved().insert(id)
        &&& self.pending() == before.pending() + 1
        &&& self.disk() == before.disk()
        &&& self.storage() == before.storage()
        &&& self.allocations() == bumped(before.allocations())
    }

    /// Put a zero page at `page_id` and enforce the limits.
    fn install(&mut self, page_id: u64) -> (outcome: Result<(), ChiselError>)
        requires
            old(self).inv(),
            !old(self).unsaved().contains(page_id),
        ensures
            final(self).inv(),
            final(self).allocated(old(self), page_id),
            final(self).hits() == old(self).hits(),
            final(self).misses() == old(self).misses(),
            final(self).watermark() == old(self).watermark(),
            old(self).spill_fits() ==> final(self).spill_fits(),
            match outcome {
                Ok(_) => {
                    &&& !old(self).full()
                    &&& final(self).order() == remaining(
                        without(old(self).order(), page_id).push(page_id),
                        old(self).dirty().insert(page_id),
                        old(self).page_limit(),
                    )
                    &&& final(self).spill_order() == old(self).spill_order() + pushed_out(
                        without(old(self).order(), page_id).push(page_id),
                        old(self).dirty().insert(page_id),
                        old(self).page_limit(),
                    )
                    &&& final(self).has_spillway() == (old(self).has_spillway() || pushed_out(
                        without(old(self).order(), page_id).push(page_id),
                        old(self).dirty().insert(page_id),
                        old(self).page_limit(),
                    ).len() > 0)
                },
                Err(e) => old(self).full() && e == old(self).pressure_error(),
            },
    {
        proof {
            self.lemma_inv();
        }
        let buf: Box<[u8; PAGE_SIZE]> = Box::new(zeroed());
        assert(buf@ =~= zero_page());
        self.put_entry(page_id, CacheEntry { buf, dirty: true }, false);
        let ghost mid = *self;
        proof {
            assert(self.contents() =~= old(self).contents().insert(page_id, zero_page()));
            assert(self.unsaved() =~= old(self).unsaved().insert(page_id));
        }
        self.pages_allocated = bump(self.pages_allocated);
        proof {
            assert(self.dirty() =~= mid.dirty());
            assert(self.cached() =~= mid.cached());
            assert(self.inv());
            assert(self.contents() =~= mid.contents());
            assert(self.unsaved() =~= mid.unsaved());
        }
        self.maybe_evict()
    }

    /// Allocate a zero page at the watermark and return its id. The page is
    /// allocated even if the limits are then found to be exceeded.
    pub fn new_page(&mut self) -> (outcome: Result<u64, ChiselError>)
        requires
            old(self).inv(),
            old(self).bounded(),
            old(self).watermark() < usize::MAX,
        ensures
            final(self).inv(),
            final(self).bounded(),
            final(self).allocated(old(self), old(self).watermark()),
            final(self).hits() == old(self).hits(),
            final(self).misses() == old(self).misses(),
            final(self).watermark() == old(self).watermark() + 1,
            old(self).spill_fits() ==> final(self).spill_fits(),
            match outcome {
                Ok(id) => {
                    &&& !old(self).full()
                    &&& id == old(self).watermark()
                    &&& final(self).order() == remaining(
                        without(old(self).order(), id).push(id),
                        old(self).dirty().insert(id),
                        old(self).page_limit(),
                    )
                    &&& final(self).spill_order() == old(self).spill_order() + pushed_out(
                        without(old(self).order(), id).push(id),
                        old(self).dirty().insert(id),
                        old(self).page_limit(),
                    )
                    &&& final(self).has_spillway() == (old(self).has_spillway() || pushed_out(
                        without(old(self).order(), id).push(id),
                        old(self).dirty().insert(id),
                        old(self).page_limit(),
                    ).len() > 0)
                },
                Err(e) => old(self).full() && e == old(self).pressure_error(),
            },
    {
        let page_id: u64 = self.next_page_id;
        self.next_page_id = self.next_page_id + 1;
        proof {
            assert(self.dirty() =~= old(self).dirty());
            assert(self.cached() =~= old(self).cached());
            assert(self.inv());
            assert(self.contents() =~= old(self).contents());
            assert(self.unsaved() =~= old(self).unsaved());
            assert(!old(self).unsaved().contains(page_id));
        }
        match self.install(page_id) {
            Ok(_) => Ok(page_id),
            Err(e) => Err(e),
        }
    }

    /// Allocate a zero page at an id that was free. Whatever the cache held
    /// under that id is dropped. The page must not have unsaved changes.
    pub fn claim_page(&mut self, page_id: u64) -> (outcome: Result<(), ChiselError>)
        requires
            old(self).inv(),
            !old(self).unsaved().contains(page_id),
        ensures
            final(self).inv(),
            old(self).bounded() && page_id < old(self).watermark() ==> final(self).bounded(),
            final(self).allocated(old(self), page_id),
            final(self).hits() == old(self).hits(),
            final(self).misses() == old(self).misses(),
            final(self).watermark() == old(self).watermark(),
            match outcome {
                Ok(_) => {
                    &&& !old(self).full()
                    &&& final(self).order() == remaining(
                        without(old(self).order(), page_id).push(page_id),
                        old(self).dirty().insert(page_id),
                        old(self).page_limit(),
                    )
                    &&& final(self).spill_order() == old(self).spill_order() + pushed_out(
                        without(old(self).order(), page_id).push(page_id),
                        old(self).dirty().insert(page_id),
                        old(self).page_limit(),
                    )
                    &&& final(self).has_spillway() == (old(self).has_spillway() || pushed_out(
                        without(old(self).order(), page_id).push(page_id),
                        old(self).dirty().insert(page_id),
                        old(self).page_limit(),
                    ).len() > 0)
                },
                Err(e) => old(self).full() && e == old(self).pressure_error(),
            },
    {
        self.install(page_id)
    }

    /// Copy the contents of page `src` over those of page `dst`.
    pub fn copy_page(&mut self, src: u64, dst: u64) -> (outcome: Result<(), ChiselError>)
        requires
            old(self).inv(),
        ensures
            final(self).inv(),
            final(self).same_config(old(self)),
            final(self).disk() == old(self).disk(),
            final(self).storage() == old(self).storage(),
            final(self).watermark() == old(self).watermark(),
            final(self).allocations() == old(self).allocations(),
            match outcome {
                Ok(_) => {
                    &&& old(self).fetchable(src)
                    &&& old(self).contents().contains_key(src)
                    &&& old(self).contents().contains_key(dst)
                    &&& final(self).contents() == old(self).contents().insert(dst, old(self).contents()[src])
                    &&& final(self).unsaved() == old(self).unsaved().insert(dst)
                    &&& final(self).order().len() > 0 && final(self).order().last() == dst
                    &&& final(self).pending() == (if old(self).unsaved().contains(dst) {
                        old(self).pending()
                    } else {
                        old(self).pending() + 1
                    })
                },
                Err(e) => {
                    &&& final(self).same_pages(old(self))
                    &&& old(self).explains(e, src) || old(self).explains(e, dst)
                },
            },
    {
        let bytes: [u8; PAGE_SIZE] = match self.get(src) {
            Ok(buf) => *buf,
            Err(e) => {
                return Err(e);
            },
        };
        proof {
            old(self).lemma_explains(src);
            self.lemma_explains(dst);
            old(self).lemma_same_explains(&*self, dst);
        }
        match self.get_mut(dst) {
            Ok(buf) => {
                *buf = bytes;
                Ok(())
            },
            Err(e) => Err(e),
        }
    }

    /// A sound page can be read, wherever it is kept.
    pub proof fn lemma_sound_readable(&self, id: u64)
        requires
            self.inv(),
            self.sound(id),
        ensures
            self.readable(id),
            !self.over_limit() ==> self.fetchable(id),
    {
        self.lemma_inv();
        assert(self.present(id));
        assert(self.contents()[id] == self.bytes(id));
    }

    /// A page exists, and its current bytes are not saved yet or match their
    /// checksum: it can be read wherever it is kept.
    pub open spec fn sound(&self, id: u64) -> bool {
        self.contents().contains_key(id) && (self.unsaved().contains(id) || checksum_ok(self.contents()[id]))
    }

    /// Every page in the cache is sound.
    pub open spec fn all_sound(&self) -> bool {
        forall|id: u64| #[trigger] self.cached().contains_key(id) ==> self.sound(id)
    }

    /// Bringing a sound page into the cache keeps all sound, and only a sound page is
    /// brought in.
    proof fn lemma_fetched(&self, after: &PageCache, page_id: u64)
        requires
            self.inv(),
            after.same_pages(self),
            forall|id: u64| #[trigger]
                after.cached().contains_key(id) ==> self.cached().contains_key(id) || id == page_id,
            after.cached().contains_key(page_id) ==> self.fetchable(page_id),
        ensures
            self.all_sound() ==> after.all_sound(),
            self.all_sound() && self.fetchable(page_id) ==> self.sound(page_id),
    {
        self.lemma_inv();
        self.lemma_notions();
        if self.all_sound() {
            if self.fetchable(page_id) && !self.cached().contains_key(page_id) {
                if self.spilled().contains_key(page_id) {
                    assert(self.unsaved().contains(page_id));
                    assert(self.present(page_id));
                } else {
                    assert(self.present(page_id));
                    assert(self.contents()[page_id] == self.bytes(page_id));
                }
            }
            assert forall|id: u64| #[trigger] after.cached().contains_key(id) implies after.sound(id) by {
                assert(self.cached().contains_key(id) || id == page_id);
            }
        }
    }

    /// `e` is a possible outcome of requesting page `id`: the limits are
    /// exceeded, or the page is not sound.
    pub open spec fn explains(&self, e: ChiselError, id: u64) -> bool {
        ||| self.pending() > self.capacity() && e == self.pressure_error()
        ||| !self.sound(id) && e == self.read_error(id)
    }

    /// A request that fails has one of these reasons.
    pub proof fn lemma_explains(&self, id: u64)
        requires
            self.inv(),
        ensures
            !self.fetchable(id) ==> self.explains(self.fetch_error(id), id),
            self.sound(id) && self.pending() <= self.capacity() ==> self.fetchable(id),
    {
        if self.sound(id) {
            self.lemma_sound_readable(id);
        }
    }

    /// Where pages are kept does not matter for the reasons of a failure.
    pub proof fn lemma_same_explains(&self, other: &PageCache, id: u64)
        requires
            other.same_pages(self),
        ensures
            forall|e: ChiselError| self.explains(e, id) <==> other.explains(e, id),
            self.sound(id) == other.sound(id),
    {
    }

    // --- Simple queries and settings ---

    /// The id that the next new page gets.
    pub fn next_page_id(&self) -> (id: u64)
        ensures
            id == self.watermark(),
    {
        self.next_page_id
    }

    /// Set the watermark. No unsaved page may lie at or above it.
    pub fn set_next_page_id(&mut self, id: u64)
        requires
            old(self).inv(),
            id <= usize::MAX,
            forall|p: u64| #[trigger] old(self).unsaved().contains(p) ==> p < id,
        ensures
            final(self).inv(),
            final(self).has_spillway() == old(self).has_spillway(),
            final(self).spill_order() == old(self).spill_order(),
            final(self).hits() == old(self).hits(),
            final(self).misses() == old(self).misses(),
            final(self).bounded(),
            final(self).same_config(old(self)),
            final(self).cached() == old(self).cached(),
            final(self).contents() == old(self).contents(),
            final(self).unsaved() == old(self).unsaved(),
            final(self).pending() == old(self).pending(),
            final(self).disk() == old(self).disk(),
            final(self).storage() == old(self).storage(),
            final(self).watermark() == id,
            final(self).allocations() == old(self).allocations(),
    {
        self.next_page_id = id;
        proof {
            assert(self.dirty() =~= old(self).dirty());
            assert(self.cached() =~= old(self).cached());
            assert(self.contents() =~= old(self).contents());
            assert(self.unsaved() =~= old(self).unsaved());
        }
    }

    /// Whether the cache holds unsaved changes of this page.
    pub fn is_dirty(&self, page_id: u64) -> (dirty: bool)
        ensures
            dirty == self.dirty().contains(page_id),
    {
        match map_get(&self.entries, page_id) {
            Some(entry) => entry.dirty,
            None => false,
        }
    }

    /// Snapshot of the activity counters.
    pub fn counters(&self) -> (counters: ChiselCounters)
        ensures
            counters.cache_hits == self.hits(),
            counters.cache_misses == self.misses(),
            counters.pages_allocated == self.allocations(),
            counters.fsync_calls == self.storage().syncs(),
    {
        ChiselCounters {
            cache_hits: self.cache_hits,
            cache_misses: self.cache_misses,
            pages_allocated: self.pages_allocated,
            fsync_calls: self.io.fsync_count(),
        }
    }

    /// Bytes in use and limit of the spillway; `None` if no page was ever
    /// spilled.
    pub fn spillway_capacity(&self) -> (usage: Option<(u64, u64)>)
        requires
            self.inv(),
        ensures
            match usage {
                Some((used, limit)) => {
                    &&& self.has_spillway()
                    &&& limit == self.spill_limit()
                    &&& used == (if self.spill_order().len() * PAGE_SIZE <= u64::MAX {
                        self.spill_order().len() * PAGE_SIZE
                    } else {
                        u64::MAX as int
                    })
                },
                None => !self.has_spillway(),
            },
    {
        match &self.spillway {
            Some(s) => Some((s.logical_bytes(), s.max_bytes())),
            None => None,
        }
    }

    /// Number of pages on storage.
    pub fn file_page_count(&self) -> (outcome: Result<u64, ChiselError>)
        ensures
            match outcome {
                Ok(n) => n == self.disk().len(),
                Err(_) => false,
            },
    {
        self.io.page_count()
    }

    /// The storage underneath.
    pub fn io(&self) -> (io: &PageIo)
        ensures
            *io == self.storage(),
    {
        &self.io
    }

    /// Change the limit on the cache. Clean pages beyond it are evicted, least
    /// recently used first; dirty pages stay.
    pub fn set_cache_max_bytes(&mut self, bytes: u64) -> (outcome: Result<(), ChiselError>)
        requires
            old(self).inv(),
            bytes / (PAGE_SIZE as u64) <= usize::MAX,
        ensures
            final(self).inv(),
            final(self).has_spillway() == old(self).has_spillway(),
            final(self).spill_order() == old(self).spill_order(),
            final(self).hits() == old(self).hits(),
            final(self).misses() == old(self).misses(),
            outcome is Ok,
            final(self).page_limit() == page_limit_of(bytes),
            final(self).page_limit() == 1 || final(self).page_limit() * 8192 <= bytes,
            bytes < (final(self).page_limit() + 1) * 8192,
            final(self).order() == trimmed(
                old(self).order(),
                old(self).dirty(),
                old(self).order().len() - page_limit_of(bytes),
            ),
            final(self).spill_limit() == old(self).spill_limit(),
            final(self).policy() == old(self).policy(),
            final(self).storage() == old(self).storage(),
            final(self).contents() == old(self).contents(),
            final(self).dirty() == old(self).dirty(),
            final(self).spilled() == old(self).spilled(),
            final(self).watermark() == old(self).watermark(),
            final(self).allocations() == old(self).allocations(),
    {
        proof {
            law_page_limit_fits_the_bytes(bytes);
        }
        let wanted: u64 = bytes / PAGE_SIZE as u64;
        self.max_pages = if wanted < 1 {
            1
        } else {
            wanted as usize
        };
        let ghost mid = *self;
        proof {
            assert(self.dirty() =~= old(self).dirty());
            assert(self.cached() =~= old(self).cached());
            assert(self.inv());
            assert(self.contents() =~= old(self).contents());
        }
        self.evict_clean_to_cap();
        proof {
            self.lemma_evicted(&mid);
        }
        Ok(())
    }

    /// Change the limit on the spillway; 0 disables it.
    pub fn set_spillway_max_bytes(&mut self, bytes: u64) -> (outcome: Result<(), ChiselError>)
        requires
            old(self).inv(),
        ensures
            final(self).inv(),
            final(self).has_spillway() == old(self).has_spillway(),
            final(self).spill_order() == old(self).spill_order(),
            final(self).hits() == old(self).hits(),
            final(self).misses() == old(self).misses(),
            outcome is Ok,
            final(self).spill_limit() == bytes,
            final(self).page_limit() == old(self).page_limit(),
            final(self).policy() == old(self).policy(),
            final(self).storage() == old(self).storage(),
            final(self).cached() == old(self).cached(),
            final(self).order() == old(self).order(),
            final(self).dirty() == old(self).dirty(),
            final(self).spilled() == old(self).spilled(),
            final(self).contents() == old(self).contents(),
            final(self).watermark() == old(self).watermark(),
            final(self).allocations() == old(self).allocations(),
    {
        self.spillway_max_bytes = bytes;
        match &mut self.spillway {
            Some(s) => s.set_max_bytes(bytes),
            None => {},
        }
        proof {
            assert(self.dirty() =~= old(self).dirty());
            assert(self.cached() =~= old(self).cached());
            assert(self.spilled() =~= old(self).spilled());
            assert(self.contents() =~= old(self).contents());
        }
        Ok(())
    }

    /// Page requests served from the cache.
    pub fn cache_hit_count(&self) -> (n: u64)
        ensures
            n == self.hits(),
    {
        self.cache_hits
    }

    /// Page requests that had to look further.
    pub fn cache_miss_count(&self) -> (n: u64)
        ensures
            n == self.misses(),
    {
        self.cache_misses
    }

    /// Pages allocated, by extension or by reuse.
    pub fn pages_allocated_count(&self) -> (n: u64)
        ensures
            n == self.allocations(),
    {
        self.pages_allocated
    }

    /// Number of pages in the cache.
    pub fn cached_count(&self) -> (n: usize)
        requires
            self.inv(),
        ensures
            n == self.cached().dom().len(),
    {
        proof {
            self.lemma_inv();
        }
        self.lru.len()
    }

    /// Number of dirty pages in the cache.
    pub fn dirty_count(&self) -> (n: usize)
        requires
            self.inv(),
        ensures
            n == self.dirty().len(),
    {
        self.dirty_count
    }

    /// The page is in the cache.
    pub fn is_cached(&self, page_id: u64) -> (cached: bool)
        ensures
            cached == self.cached().contains_key(page_id),
    {
        map_contains(&self.entries, page_id)
    }

    /// The page is in the spillway.
    pub fn is_spilled(&self, page_id: u64) -> (spilled: bool)
        requires
            self.inv(),
        ensures
            spilled == self.spilled().contains_key(page_id),
    {
        match &self.spillway {
            Some(spillway) => spillway.is_resident(page_id),
            None => false,
        }
    }

    /// Refuse to write to the storage from now on.
    pub fn force_read_only(&mut self)
        requires
            old(self).inv(),
        ensures
            final(self).inv(),
            final(self).has_spillway() == old(self).has_spillway(),
            final(self).spill_order() == old(self).spill_order(),
            final(self).hits() == old(self).hits(),
            final(self).misses() == old(self).misses(),
            final(self).storage().spec_read_only(),
            final(self).disk() == old(self).disk(),
            final(self).cached() == old(self).cached(),
            final(self).contents() == old(self).contents(),
            final(self).unsaved() == old(self).unsaved(),
            final(self).pending() == old(self).pending(),
            final(self).watermark() == old(self).watermark(),
            final(self).page_limit() == old(self).page_limit(),
            final(self).spill_limit() == old(self).spill_limit(),
            final(self).policy() == old(self).policy(),
    {
        self.io.force_read_only();
        proof {
            assert(self.dirty() =~= old(self).dirty());
            assert(self.cached() =~= old(self).cached());
            assert(self.contents() =~= old(self).contents());
        }
    }

    /// Change where drained pages enter the LRU order.
    pub fn set_drain_insertion(&mut self, policy: DrainInsertion)
        requires
            old(self).inv(),
        ensures
            final(self).inv(),
            final(self).has_spillway() == old(self).has_spillway(),
            final(self).spill_order() == old(self).spill_order(),
            final(self).hits() == old(self).hits(),
            final(self).misses() == old(self).misses(),
            final(self).policy() == policy,
            final(self).page_limit() == old(self).page_limit(),
            final(self).spill_limit() == old(self).spill_limit(),
            final(self).storage() == old(self).storage(),
            final(self).cached() == old(self).cached(),
            final(self).order() == old(self).order(),
            final(self).dirty() == old(self).dirty(),
            final(self).spilled() == old(self).spilled(),
            final(self).contents() == old(self).contents(),
            final(self).watermark() == old(self).watermark(),
            final(self).allocations() == old(self).allocations(),
    {
        self.drain_insertion = policy;
        proof {
            assert(self.dirty() =~= old(self).dirty());
            assert(self.cached() =~= old(self).cached());
            assert(self.contents() =~= old(self).contents());
        }
    }

    /// Hand over what was done to the storage since the last hand-over.
    pub fn take_journal(&mut self) -> (actions: Vec<IoAction>)
        requires
            old(self).inv(),
        ensures
            final(self).inv(),
            final(self).has_spillway() == old(self).has_spillway(),
            final(self).spill_order() == old(self).spill_order(),
            final(self).hits() == old(self).hits(),
            final(self).misses() == old(self).misses(),
            actions@ == old(self).storage().recorded(),
            final(self).storage().recorded().len() == 0,
            final(self).storage().is_file_image() == old(self).storage().is_file_image(),
            final(self).storage().spec_read_only() == old(self).storage().spec_read_only(),
            final(self).storage().syncs() == old(self).storage().syncs(),
            old(self).storage().is_file_image() ==> final(self).storage().base() == old(self).disk(),
            final(self).page_limit() == old(self).page_limit(),
            final(self).spill_limit() == old(self).spill_limit(),
            final(self).policy() == old(self).policy(),
            final(self).disk() == old(self).disk(),
            final(self).contents() == old(self).contents(),
            final(self).unsaved() == old(self).unsaved(),
            final(self).pending() == old(self).pending(),
            final(self).watermark() == old(self).watermark(),
    {
        let actions = self.io.take_journal();
        proof {
            assert(self.dirty() =~= old(self).dirty());
            assert(self.cached() =~= old(self).cached());
            assert(self.contents() =~= old(self).contents());
            assert(self.unsaved() =~= old(self).unsaved());
        }
        actions
    }
}

impl PageCache {
    // --- Dropping pages ---

    /// The ids in the cache, least recently used first.
    fn cached_ids(&self) -> (ids: Vec<u64>)
        requires
            self.inv(),
        ensures
            ids@ == self.order(),
    {
        let mut ids: Vec<u64> = Vec::new();
        let mut iter = self.lru.iter_lru_to_mru();
        loop
            invariant_except_break
                iter.inv(),
                iter.ids() == self.order(),
                iter.index() == ids@.len(),
                ids@.len() <= self.order().len(),
                ids@ == self.order().take(ids@.len() as int),
            ensures
                ids@ == self.order(),
            decreases self.order().len() - iter.index(),
        {
            proof {
                iter.lemma_bounds();
            }
            match iter.next() {
                Some(id) => {
                    ids.push(id);
                    assert(ids@ =~= self.order().take(ids@.len() as int));
                },
                None => {
                    assert(self.order().take(ids@.len() as int) =~= self.order());
                    break;
                },
            }
        }
        ids
    }

    /// Drop a page from the cache, with its unsaved changes.
    pub fn discard(&mut self, page_id: u64)
        requires
            old(self).inv(),
        ensures
            final(self).inv(),
            final(self).has_spillway() == old(self).has_spillway(),
            final(self).spill_order() == old(self).spill_order(),
            final(self).hits() == old(self).hits(),
            final(self).misses() == old(self).misses(),
            final(self).same_config(old(self)),
            final(self).cached() == old(self).cached().remove(page_id),
            final(self).dirty() == old(self).dirty().remove(page_id),
            final(self).order() == without(old(self).order(), page_id),
            final(self).spilled() == old(self).spilled(),
            final(self).storage() == old(self).storage(),
            final(self).watermark() == old(self).watermark(),
    {
        self.take_entry(page_id);
    }

    /// Drop every unsaved page from cache and spillway. Clean pages stay: what
    /// is left is exactly what is on storage.
    pub fn discard_all_dirty(&mut self)
        requires
            old(self).inv(),
        ensures
            final(self).inv(),
            final(self).has_spillway() == old(self).has_spillway(),
            final(self).hits() == old(self).hits(),
            final(self).misses() == old(self).misses(),
            final(self).same_config(old(self)),
            final(self).cached() == old(self).cached().remove_keys(old(self).dirty()),
            final(self).order() == kept(old(self).order(), old(self).dirty()),
            final(self).dirty() == Set::<u64>::empty(),
            final(self).spilled() == Map::<u64, Seq<u8>>::empty(),
            final(self).unsaved() == Set::<u64>::empty(),
            final(self).pending() == 0,
            final(self).storage() == old(self).storage(),
            final(self).watermark() == old(self).watermark(),
            final(self).allocations() == old(self).allocations(),
            final(self).contents() == Map::new(
                |id: u64| id < old(self).disk().len(),
                |id: u64| old(self).disk()[id as int],
            ),
    {
        let ids: Vec<u64> = self.cached_ids();
        let ghost drop = self.dirty();
        let ghost order = self.order();
        proof {
            self.lemma_inv();
            assert(ids@.take(0) =~= Seq::<u64>::empty());
            assert(kept(ids@.take(0), drop) + ids@.skip(0) =~= order);
            assert(self.cached() =~= old(self).cached().remove_keys(Set::<u64>::empty()));
        }
        let mut i: usize = 0;
        while i < ids.len()
            invariant
                i <= ids@.len(),
                ids@ == order,
                order == old(self).order(),
                ids@.no_duplicates(),
                drop == old(self).dirty(),
                self.inv(),
                self.same_rest(old(self)),
                self.order() == kept(ids@.take(i as int), drop) + ids@.skip(i as int),
                forall|id: u64| #[trigger] self.cached().contains_key(id) <==> old(self).cached().contains_key(id)
                    && !(drop.contains(id) && ids@.take(i as int).contains(id)),
                forall|id: u64| #[trigger] self.dirty().contains(id) <==> drop.contains(id) && !ids@.take(
                    i as int,
                ).contains(id),
                forall|id: u64| self.cached().contains_key(id) ==> #[trigger] self.cached()[id] == old(self).cached()[id],
            decreases ids@.len() - i,
        {
            let id: u64 = ids[i];
            let ghost before = *self;
            proof {
                lemma_kept_step(ids@, drop, i as int);
                assert forall|x: u64| ids@.take(i + 1).contains(x) <==> ids@.take(i as int).contains(x) || x == id by {
                    if ids@.take(i as int).contains(x) {
                        assert(ids@.take(i + 1)[ids@.take(i as int).index_of(x)] == x);
                    }
                    assert(ids@.take(i + 1)[i as int] == id);
                    if ids@.take(i + 1).contains(x) && x != id {
                        let m = ids@.take(i + 1).index_of(x);
                        assert(ids@.take(i as int)[m] == x);
                    }
                }
                assert(!ids@.take(i as int).contains(id)) by {
                    if ids@.take(i as int).contains(id) {
                        let m = ids@.take(i as int).index_of(id);
                        assert(ids@[m] == ids@[i as int]);
                    }
                }
                assert(self.dirty().contains(id) <==> drop.contains(id));
            }
            if self.is_dirty(id) {
                self.take_entry(id);
            }
            i += 1;
        }
        let ghost mid = *self;
        match &mut self.spillway {
            Some(s) => s.truncate(),
            None => {},
        }
        proof {
            assert(self.cached() =~= mid.cached());
            assert(self.dirty() =~= mid.dirty());
            assert(ids@.take(ids@.len() as int) =~= ids@);
            assert(ids@.skip(ids@.len() as int) =~= Seq::<u64>::empty());
            assert(self.order() =~= kept(order, drop));
            assert forall|x: u64| drop.contains(x) implies ids@.contains(x) by {
                old(self).lemma_inv();
                assert(order.to_set().contains(x));
            }
            assert(self.dirty() =~= Set::<u64>::empty());
            assert(self.cached() =~= old(self).cached().remove_keys(drop));
            assert(self.spilled() =~= Map::<u64, Seq<u8>>::empty());
            assert(self.spilled().dom() =~= Set::<u64>::empty());
            assert(self.unsaved() =~= Set::<u64>::empty());
            assert(self.inv());
            self.lemma_inv();
            assert(self.contents() =~= Map::new(
                |id: u64| id < old(self).disk().len(),
                |id: u64| old(self).disk()[id as int],
            ));
        }
    }

    /// Cut the storage off at `n` pages, or extend it with zero pages. Pages
    /// at or above `n` are dropped wherever they are, unsaved or not, and the
    /// watermark comes down to `n`.
    pub fn truncate(&mut self, n: u64) -> (outcome: Result<(), ChiselError>)
        requires
            old(self).inv(),
            n <= usize::MAX,
        ensures
            final(self).inv(),
            final(self).has_spillway() == old(self).has_spillway(),
            final(self).hits() == old(self).hits(),
            final(self).misses() == old(self).misses(),
            final(self).same_config(old(self)),
            old(self).bounded() ==> final(self).bounded(),
            final(self).cached() == old(self).cached().restrict(Set::new(|id: u64| id < n)),
            final(self).order() == kept(old(self).order(), Set::new(|id: u64| id >= n)),
            final(self).dirty() == old(self).dirty().intersect(Set::new(|id: u64| id < n)),
            final(self).spilled() == old(self).spilled().restrict(Set::new(|id: u64| id < n)),
            final(self).spill_order() == kept(old(self).spill_order(), Set::new(|id: u64| id >= n)),
            final(self).allocations() == old(self).allocations(),
            final(self).storage().syncs() == old(self).storage().syncs(),
            match outcome {
                Ok(_) => {
                    &&& !old(self).storage().spec_read_only()
                    &&& final(self).disk() == resized(old(self).disk(), n as nat)
                    &&& final(self).watermark() == (if old(self).watermark() > n {
                        n
                    } else {
                        old(self).watermark()
                    })
                    &&& final(self).contents() == Map::new(
                        |id: u64| id < n,
                        |id: u64|
                            if old(self).contents().contains_key(id) {
                                old(self).contents()[id]
                            } else {
                                zero_page()
                            },
                    )
                },
                Err(e) => {
                    &&& old(self).storage().spec_read_only()
                    &&& e is ReadOnlyMode
                    &&& final(self).storage() == old(self).storage()
                    &&& final(self).watermark() == old(self).watermark()
                },
            },
    {
        let ids: Vec<u64> = self.cached_ids();
        let ghost drop = Set::new(|id: u64| id >= n);
        let ghost order = self.order();
        proof {
            self.lemma_inv();
            assert(ids@.take(0) =~= Seq::<u64>::empty());
            assert(kept(ids@.take(0), drop) + ids@.skip(0) =~= order);
        }
        let mut i: usize = 0;
        while i < ids.len()
            invariant
                i <= ids@.len(),
                ids@ == order,
                order == old(self).order(),
                ids@.no_duplicates(),
                drop == Set::new(|id: u64| id >= n),
                self.inv(),
                self.same_rest(old(self)),
                self.order() == kept(ids@.take(i as int), drop) + ids@.skip(i as int),
                forall|id: u64| #[trigger] self.cached().contains_key(id) <==> old(self).cached().contains_key(id)
                    && !(id >= n && ids@.take(i as int).contains(id)),
                forall|id: u64| #[trigger] self.dirty().contains(id) <==> old(self).dirty().contains(id) && !(id >= n
                    && ids@.take(i as int).contains(id)),
                forall|id: u64| self.cached().contains_key(id) ==> #[trigger] self.cached()[id] == old(self).cached()[id],
            decreases ids@.len() - i,
        {
            let id: u64 = ids[i];
            proof {
                lemma_kept_step(ids@, drop, i as int);
                assert forall|x: u64| ids@.take(i + 1).contains(x) <==> ids@.take(i as int).contains(x) || x == id by {
                    if ids@.take(i as int).contains(x) {
                        assert(ids@.take(i + 1)[ids@.take(i as int).index_of(x)] == x);
                    }
                    assert(ids@.take(i + 1)[i as int] == id);
                    if ids@.take(i + 1).contains(x) && x != id {
                        let m = ids@.take(i + 1).index_of(x);
                        assert(ids@.take(i as int)[m] == x);
                    }
                }
            }
            if id >= n {
                self.take_entry(id);
            }
            i += 1;
        }
        let ghost dropped = *self;
        match &mut self.spillway {
            Some(s) => s.forget_above(n),
            None => {},
        }
        proof {
            assert(self.cached() =~= dropped.cached());
            assert(self.dirty() =~= dropped.dirty());
            assert(ids@.take(ids@.len() as int) =~= ids@);
            assert(ids@.skip(ids@.len() as int) =~= Seq::<u64>::empty());
            assert(self.order() =~= kept(order, drop));
            old(self).lemma_inv();
            assert forall|x: u64| old(self).cached().contains_key(x) implies ids@.contains(x) by {
                assert(order.to_set().contains(x));
            }
            assert(self.cached() =~= old(self).cached().restrict(Set::new(|id: u64| id < n)));
            assert(self.dirty() =~= old(self).dirty().intersect(Set::new(|id: u64| id < n)));
            assert(self.spilled() =~= old(self).spilled().restrict(Set::new(|id: u64| id < n)));
            assert(self.inv());
        }
        let ghost mid = *self;
        let outcome = self.io.set_page_count(n);
        proof {
            mid.lemma_inv();
            assert(self.cached() =~= mid.cached());
            assert(self.dirty() =~= mid.dirty());
            assert(self.spilled() == mid.spilled());
            assert forall|id: u64| #[trigger] self.entries@.contains_key(id) && !self.entries@[id].dirty implies id
                < self.io.pages().len() && self.entries@[id].buf@ == self.io.pages()[id as int] by {
                assert(mid.cached().contains_key(id));
                assert(id < n);
                assert(mid.entries@.contains_key(id));
            }
            assert(self.inv());
            assert forall|id: u64| #[trigger] self.unsaved().contains(id) implies old(self).unsaved().contains(id) by {}
        }
        match outcome {
            Ok(_) => {
                if self.next_page_id > n {
                    self.next_page_id = n;
                }
                proof {
                    assert(self.cached() =~= mid.cached());
                    assert(self.dirty() =~= mid.dirty());
                    assert(self.inv());
                    assert(self.contents() =~= Map::new(
                        |id: u64| id < n,
                        |id: u64|
                            if old(self).contents().contains_key(id) {
                                old(self).contents()[id]
                            } else {
                                zero_page()
                            },
                    ));
                }
                Ok(())
            },
            Err(e) => Err(e),
        }
    }
}

impl PageCache {
    // --- Committing ---

    /// The pages that a commit would write, with their bytes.
    pub open spec fn unsaved_pages(&self) -> Map<u64, Seq<u8>> {
        Map::new(|id: u64| self.unsaved().contains(id), |id: u64| self.bytes(id))
    }

    /// Everything but storage, entries, LRU order, dirty count and the contents of
    /// the spillway agrees.
    spec fn same_settings(&self, other: &PageCache) -> bool {
        &&& self.io.same_mode(&other.io)
        &&& self.io.syncs() == other.io.syncs()
        &&& self.max_pages == other.max_pages
        &&& self.spillway_max_bytes == other.spillway_max_bytes
        &&& self.drain_insertion == other.drain_insertion
        &&& self.next_page_id == other.next_page_id
        &&& self.cache_hits == other.cache_hits
        &&& self.cache_misses == other.cache_misses
        &&& self.pages_allocated == other.pages_allocated
        &&& (self.spillway is Some) == (other.spillway is Some)
    }

    /// Write one cached page to storage and mark it clean.
    fn write_one(&mut self, id: u64) -> (outcome: Result<(), ChiselError>)
        requires
            old(self).inv(),
            old(self).dirty().contains(id),
            id < usize::MAX,
        ensures
            final(self).inv(),
            final(self).same_settings(old(self)),
            final(self).cached() == old(self).cached(),
            final(self).order() == old(self).order(),
            final(self).spillway == old(self).spillway,
            match outcome {
                Ok(_) => {
                    &&& !old(self).storage().spec_read_only()
                    &&& final(self).dirty() == old(self).dirty().remove(id)
                    &&& final(self).disk() == written(old(self).disk(), id, old(self).cached()[id])
                    &&& wrote(
                        &old(self).storage(),
                        &final(self).storage(),
                        Map::<u64, Seq<u8>>::empty().insert(id, old(self).cached()[id]),
                    )
                },
                Err(e) => {
                    &&& old(self).storage().spec_read_only()
                    &&& e is ReadOnlyMode
                    &&& final(self).dirty() == old(self).dirty()
                    &&& final(self).disk() == old(self).disk()
                },
            },
    {
        proof {
            self.lemma_inv();
        }
        let bytes: [u8; PAGE_SIZE] = match map_get(&self.entries, id) {
            Some(entry) => *entry.buf,
            None => {
                assert(false);
                zeroed()
            },
        };
        let outcome = self.io.write_page(id, &bytes);
        let ghost mid = *self;
        match outcome {
            Ok(_) => {
                if let Some(entry) = map_get_mut(&mut self.entries, id) {
                    entry.dirty = false;
                }
                self.dirty_count = self.dirty_count - 1;
                proof {
                    lemma_wrote_one(&old(self).io, &self.io, id, bytes@);
                    assert(self.dirty() =~= old(self).dirty().remove(id));
                    assert(self.cached() =~= old(self).cached());
                    assert(self.entries@.dom() =~= old(self).entries@.dom());
                    assert(self.spilled() == old(self).spilled());
                    assert forall|x: u64| #[trigger] self.entries@.contains_key(x) && !self.entries@[x].dirty implies x
                        < self.io.pages().len() && self.entries@[x].buf@ == self.io.pages()[x as int] by {
                        if x != id {
                            assert(old(self).entries@.contains_key(x));
                        }
                    }
                    assert(self.inv());
                }
                Ok(())
            },
            Err(e) => {
                proof {
                    assert(self.dirty() =~= old(self).dirty());
                    assert(self.cached() =~= old(self).cached());
                }
                Err(e)
            },
        }
    }

    /// Write every dirty page of the cache to storage.
    fn write_dirty(&mut self) -> (outcome: Result<(), ChiselError>)
        requires
            old(self).inv(),
            forall|id: u64| #[trigger] old(self).dirty().contains(id) ==> id < usize::MAX,
        ensures
            final(self).inv(),
            final(self).same_settings(old(self)),
            final(self).cached() == old(self).cached(),
            final(self).order() == old(self).order(),
            final(self).spillway == old(self).spillway,
            match outcome {
                Ok(_) => {
                    &&& final(self).dirty() == Set::<u64>::empty()
                    &&& saved(
                        old(self).disk(),
                        final(self).disk(),
                        old(self).cached().restrict(old(self).dirty()),
                    )
                    &&& wrote(
                        &old(self).storage(),
                        &final(self).storage(),
                        old(self).cached().restrict(old(self).dirty()),
                    )
                },
                Err(e) => old(self).storage().spec_read_only() && e is ReadOnlyMode,
            },
    {
        let ids: Vec<u64> = self.cached_ids();
        let mut i: usize = 0;
        let ghost mut changes = Map::<u64, Seq<u8>>::empty();
        proof {
            self.lemma_inv();
            lemma_wrote_none(&self.io, self.cached().restrict(self.dirty()));
        }
        while i < ids.len()
            invariant
                i <= ids@.len(),
                ids@ == old(self).order(),
                self.inv(),
                self.same_settings(old(self)),
                wrote(&old(self).storage(), &self.storage(), old(self).cached().restrict(old(self).dirty())),
                self.cached() == old(self).cached(),
                self.order() == old(self).order(),
                self.spillway == old(self).spillway,
                forall|id: u64| #[trigger] old(self).dirty().contains(id) ==> id < usize::MAX,
                saved(old(self).disk(), self.disk(), changes),
                forall|id: u64| #[trigger] changes.contains_key(id) <==> old(self).dirty().contains(id)
                    && !self.dirty().contains(id),
                forall|id: u64| #[trigger] changes.contains_key(id) ==> changes[id] == old(self).cached()[id],
                forall|id: u64| #[trigger] self.dirty().contains(id) ==> old(self).dirty().contains(id),
                forall|k: int| 0 <= k < i ==> !self.dirty().contains(#[trigger] ids@[k]),
            decreases ids@.len() - i,
        {
            let id: u64 = ids[i];
            if self.is_dirty(id) {
                proof {
                    lemma_saved_step(old(self).disk(), self.disk(), changes, id, self.cached()[id]);
                }
                let ghost before = self.io;
                match self.write_one(id) {
                    Ok(_) => {
                        proof {
                            lemma_wrote_chain(
                                &old(self).io,
                                &before,
                                &self.io,
                                old(self).cached().restrict(old(self).dirty()),
                                Map::<u64, Seq<u8>>::empty().insert(id, old(self).cached()[id]),
                                old(self).cached().restrict(old(self).dirty()),
                            );
                            changes = changes.insert(id, old(self).cached()[id]);
                        }
                    },
                    Err(e) => {
                        return Err(e);
                    },
                }
            }
            i += 1;
        }
        proof {
            old(self).lemma_inv();
            self.lemma_inv();
            assert forall|x: u64| !self.dirty().contains(x) by {
                if self.dirty().contains(x) {
                    assert(self.order().to_set().contains(x));
                    let k = ids@.index_of(x);
                    assert(ids@[k] == x);
                }
            }
            assert(self.dirty() =~= Set::<u64>::empty());
            assert(changes =~= old(self).cached().restrict(old(self).dirty()));
        }
        Ok(())
    }

    /// Move one page from the spillway to storage; it stays in the cache as a
    /// clean page.
    fn drain_one(&mut self, id: u64) -> (outcome: Result<(), ChiselError>)
        requires
            old(self).inv(),
            old(self).spilled().contains_key(id),
            id < usize::MAX,
        ensures
            final(self).inv(),
            final(self).same_settings(old(self)),
            match outcome {
                Ok(_) => {
                    &&& final(self).dirty() == old(self).dirty()
                    &&& final(self).spilled() == old(self).spilled().remove(id)
                    &&& final(self).spill_order() == without(old(self).spill_order(), id)
                    &&& final(self).disk() == written(old(self).disk(), id, old(self).spilled()[id])
                    &&& final(self).cached() == old(self).cached().insert(id, old(self).spilled()[id])
                    &&& final(self).order() == inserted(old(self).order(), seq![id], old(self).policy())
                    &&& wrote(
                        &old(self).storage(),
                        &final(self).storage(),
                        Map::<u64, Seq<u8>>::empty().insert(id, old(self).spilled()[id]),
                    )
                },
                Err(e) => old(self).storage().spec_read_only() && e is ReadOnlyMode,
            },
    {
        proof {
            self.lemma_inv();
            assert(!self.cached().contains_key(id));
            assert(!self.order().to_set().contains(id));
        }
        let page: Option<[u8; PAGE_SIZE]> = match &mut self.spillway {
            Some(spillway) => {
                let page = spillway.rehydrate(id);
                spillway.forget(id);
                page
            },
            None => None,
        };
        let bytes: [u8; PAGE_SIZE] = match page {
            Some(bytes) => bytes,
            None => {
                assert(false);
                zeroed()
            },
        };
        let ghost forgot = *self;
        proof {
            assert(self.dirty() =~= old(self).dirty());
            assert(self.cached() =~= old(self).cached());
            assert(self.spilled() =~= old(self).spilled().remove(id));
            assert(self.inv());
        }
        let outcome = self.io.write_page(id, &bytes);
        proof {
            assert(self.dirty() =~= old(self).dirty());
            assert(self.cached() =~= old(self).cached());
            assert(self.spilled() == forgot.spilled());
            assert forall|x: u64| #[trigger] self.entries@.contains_key(x) && !self.entries@[x].dirty implies x
                < self.io.pages().len() && self.entries@[x].buf@ == self.io.pages()[x as int] by {
                assert(old(self).entries@.contains_key(x));
                assert(old(self).cached().contains_key(x));
            }
            assert(self.inv());
        }
        match outcome {
            Ok(_) => {
                let at_tail: bool = match self.drain_insertion {
                    DrainInsertion::LruTail => true,
                    DrainInsertion::Mru => false,
                };
                self.put_entry(id, CacheEntry { buf: Box::new(bytes), dirty: false }, at_tail);
                proof {
                    lemma_wrote_one(&old(self).io, &self.io, id, bytes@);
                    let one = seq![id];
                    assert(one.drop_last() =~= Seq::<u64>::empty());
                    assert(inserted(old(self).order(), one.drop_last(), old(self).policy()) == old(self).order());
                    assert(one.last() == id);
                    assert(without(old(self).order(), id) == old(self).order());
                }
                Ok(())
            },
            Err(e) => Err(e),
        }
    }

    /// Move every page from the spillway to storage, in batches of the page
    /// limit, and empty the spillway.
    fn drain_all(&mut self) -> (outcome: Result<(), ChiselError>)
        requires
            old(self).inv(),
            old(self).dirty() == Set::<u64>::empty(),
            forall|id: u64| #[trigger] old(self).spilled().contains_key(id) ==> id < usize::MAX,
        ensures
            final(self).inv(),
            final(self).same_settings(old(self)),
            match outcome {
                Ok(_) => {
                    &&& final(self).dirty() == Set::<u64>::empty()
                    &&& final(self).spilled() == Map::<u64, Seq<u8>>::empty()
                    &&& saved(old(self).disk(), final(self).disk(), old(self).spilled())
                    &&& wrote(&old(self).storage(), &final(self).storage(), old(self).spilled())
                    &&& final(self).order() == drained(
                        old(self).order(),
                        old(self).spill_order(),
                        old(self).policy(),
                        old(self).page_limit(),
                    )
                },
                Err(e) => old(self).storage().spec_read_only() && e is ReadOnlyMode,
            },
    {
        let ghost policy = self.policy();
        let ghost max = self.page_limit();
        let ghost want = drained(self.order(), self.spill_order(), policy, max);
        let ghost mut changes = Map::<u64, Seq<u8>>::empty();
        proof {
            lemma_wrote_none(&self.io, self.spilled());
        }
        loop
            invariant_except_break
                self.inv(),
                self.same_settings(old(self)),
                wrote(&old(self).storage(), &self.storage(), old(self).spilled()),
                policy == self.policy(),
                max == self.page_limit(),
                self.dirty() == Set::<u64>::empty(),
                drained(self.order(), self.spill_order(), policy, max) == want,
                forall|id: u64| #[trigger] old(self).spilled().contains_key(id) ==> id < usize::MAX,
                self.spilled().submap_of(old(self).spilled()),
                saved(old(self).disk(), self.disk(), changes),
                changes.submap_of(old(self).spilled()),
                forall|id: u64| #[trigger] changes.contains_key(id) <==> old(self).spilled().contains_key(id)
                    && !self.spilled().contains_key(id),
            ensures
                self.inv(),
                self.same_settings(old(self)),
                wrote(&old(self).storage(), &self.storage(), old(self).spilled()),
                self.dirty() == Set::<u64>::empty(),
                self.spilled() == Map::<u64, Seq<u8>>::empty(),
                saved(old(self).disk(), self.disk(), changes),
                changes == old(self).spilled(),
                self.order() == want,
            decreases self.spill_order().len(),
        {
            proof {
                self.lemma_inv();
            }
            let batch: Vec<u64> = match &self.spillway {
                Some(spillway) => if spillway.slot_count() > 0 {
                    spillway.drain_batch(self.max_pages)
                } else {
                    Vec::new()
                },
                None => Vec::new(),
            };
            if batch.len() == 0 {
                proof {
                    assert(self.spill_order().len() == 0);
                    assert(self.spilled().dom() =~= Set::<u64>::empty());
                    assert(self.spilled() =~= Map::<u64, Seq<u8>>::empty());
                    assert(changes =~= old(self).spilled());
                }
                break;
            }
            let ghost start = *self;
            let ghost ids = self.spill_order();
            let ghost n = batch@.len() as int;
            proof {
                assert(batch@ =~= ids.take(n));
                assert(batch@.take(0) =~= Seq::<u64>::empty());
                assert(ids.skip(0) =~= ids);
            }
            let mut i: usize = 0;
            while i < batch.len()
                invariant
                    i <= batch@.len(),
                    batch@ == ids.take(n),
                    n == batch@.len(),
                    n <= ids.len(),
                    ids == start.spill_order(),
                    start.inv(),
                    ids.no_duplicates(),
                    start.policy() == policy,
                    start.same_settings(old(self)),
                    self.inv(),
                    self.same_settings(old(self)),
                    wrote(&old(self).storage(), &self.storage(), old(self).spilled()),
                    self.dirty() == Set::<u64>::empty(),
                    self.spill_order() == ids.skip(i as int),
                    self.order() == inserted(start.order(), batch@.take(i as int), policy),
                    forall|id: u64| #[trigger] old(self).spilled().contains_key(id) ==> id < usize::MAX,
                    self.spilled().submap_of(old(self).spilled()),
                    saved(old(self).disk(), self.disk(), changes),
                    changes.submap_of(old(self).spilled()),
                    forall|id: u64| #[trigger] changes.contains_key(id) <==> old(self).spilled().contains_key(id)
                        && !self.spilled().contains_key(id),
                decreases batch@.len() - i,
            {
                let id: u64 = batch[i];
                proof {
                    self.lemma_inv();
                    assert(self.spill_order()[0] == id);
                    assert(self.spill_order().to_set().contains(id));
                    assert(self.spilled().contains_key(id));
                    assert(old(self).spilled().contains_key(id));
                    lemma_saved_step(old(self).disk(), self.disk(), changes, id, self.spilled()[id]);
                    let rest = ids.skip(i as int);
                    assert(rest.contains(id));
                    assert(rest.index_of(id) == 0);
                    assert(without(rest, id) =~= ids.skip(i + 1));
                    assert(batch@.take(i + 1).drop_last() =~= batch@.take(i as int));
                    assert(batch@.take(i + 1).last() == id);
                    let one = seq![id];
                    assert(one.drop_last() =~= Seq::<u64>::empty());
                    assert(one.last() == id);
                    assert(inserted(self.order(), one.drop_last(), policy) == self.order());
                }
                let ghost before = *self;
                match self.drain_one(id) {
                    Ok(_) => {},
                    Err(e) => {
                        return Err(e);
                    },
                }
                proof {
                    lemma_wrote_chain(
                        &old(self).io,
                        &before.io,
                        &self.io,
                        old(self).spilled(),
                        Map::<u64, Seq<u8>>::empty().insert(id, before.spilled()[id]),
                        old(self).spilled(),
                    );
                    changes = changes.insert(id, before.spilled()[id]);
                    assert forall|x: u64| #[trigger] self.spilled().contains_key(x) implies old(
                        self,
                    ).spilled().contains_key(x) && self.spilled()[x] == old(self).spilled()[x] by {
                        assert(self.spilled() == before.spilled().remove(id));
                        assert(before.spilled().dom().contains(x));
                        assert(before.spilled()[x] == self.spilled()[x]);
                        assert(before.spilled().submap_of(old(self).spilled()));
                        assert(old(self).spilled().dom().contains(x));
                    }
                }
                i += 1;
            }
            proof {
                assert(batch@.take(n) =~= batch@);
            }
            let ghost full = *self;
            self.evict_clean_to_cap();
            proof {
                full.lemma_inv();
                self.lemma_inv();
                assert(self.spilled() == full.spilled());
                assert(self.spill_order() == full.spill_order());
            }
        }
        match &mut self.spillway {
            Some(spillway) => spillway.truncate(),
            None => {},
        }
        proof {
            assert(self.dirty() =~= Set::<u64>::empty());
            assert(self.spilled() =~= Map::<u64, Seq<u8>>::empty());
        }
        Ok(())
    }

    /// Write every unsaved page to storage, from the cache and from the
    /// spillway, and sync. Afterwards every page is clean; drained pages enter
    /// the LRU order as the policy says. Fails exactly if the storage is read
    /// only; unsaved pages may be lost then.
    pub fn flush(&mut self) -> (outcome: Result<(), ChiselError>)
        requires
            old(self).inv(),
            old(self).bounded(),
        ensures
            final(self).inv(),
            final(self).has_spillway() == old(self).has_spillway(),
            final(self).same_config(old(self)),
            final(self).watermark() == old(self).watermark(),
            final(self).allocations() == old(self).allocations(),
            final(self).hits() == old(self).hits(),
            final(self).misses() == old(self).misses(),
            match outcome {
                Ok(_) => {
                    &&& !old(self).storage().spec_read_only()
                    &&& final(self).bounded()
                    &&& final(self).dirty() == Set::<u64>::empty()
                    &&& final(self).spilled() == Map::<u64, Seq<u8>>::empty()
                    &&& final(self).unsaved() == Set::<u64>::empty()
                    &&& final(self).pending() == 0
                    &&& saved(old(self).disk(), final(self).disk(), old(self).unsaved_pages())
                    &&& wrote(&old(self).storage(), &final(self).storage(), old(self).unsaved_pages())
                    &&& old(self).storage().is_file_image() ==> final(self).storage().synced_since(&old(self).storage())
                    &&& final(self).storage().syncs() == bumped(old(self).storage().syncs())
                    &&& final(self).order() == drained(
                        old(self).order(),
                        old(self).spill_order(),
                        old(self).policy(),
                        old(self).page_limit(),
                    )
                    &&& final(self).contents() == Map::new(
                        |id: u64| id < final(self).disk().len(),
                        |id: u64| final(self).disk()[id as int],
                    )
                    &&& old(self).contents().submap_of(final(self).contents())
                },
                Err(e) => old(self).storage().spec_read_only() && e is ReadOnlyMode,
            },
    {
        proof {
            self.lemma_inv();
            assert forall|id: u64| #[trigger] self.dirty().contains(id) implies id < usize::MAX by {
                assert(self.unsaved().contains(id));
            }
        }
        match self.write_dirty() {
            Ok(_) => {},
            Err(e) => {
                return Err(e);
            },
        }
        let ghost mid = *self;
        proof {
            mid.lemma_inv();
            assert(mid.spilled() == old(self).spilled());
            assert forall|id: u64| #[trigger] mid.spilled().contains_key(id) implies id < usize::MAX by {
                assert(old(self).unsaved().contains(id));
            }
        }
        match self.drain_all() {
            Ok(_) => {},
            Err(e) => {
                return Err(e);
            },
        }
        let ghost done = *self;
        match self.io.fsync() {
            Ok(_) => {},
            Err(e) => {
                proof {
                    assert(self.dirty() =~= done.dirty());
                    assert(self.cached() =~= done.cached());
                }
                return Err(e);
            },
        }
        proof {
            assert(self.dirty() =~= done.dirty());
            assert(self.cached() =~= done.cached());
            assert(self.inv());
            self.lemma_inv();
            old(self).lemma_flushed(&mid, &*self);
            lemma_wrote_chain(
                &old(self).io,
                &mid.io,
                &done.io,
                old(self).cached().restrict(old(self).dirty()),
                old(self).spilled(),
                old(self).unsaved_pages(),
            );
            lemma_wrote_sync(&done.io, &self.io, old(self).unsaved_pages());
            lemma_wrote_chain(
                &old(self).io,
                &done.io,
                &self.io,
                old(self).unsaved_pages(),
                old(self).unsaved_pages(),
                old(self).unsaved_pages(),
            );
            assert(self.spilled().dom() =~= Set::<u64>::empty());
            assert(self.unsaved() =~= Set::<u64>::empty());
            assert(self.contents() =~= Map::new(
                |id: u64| id < self.disk().len(),
                |id: u64| self.disk()[id as int],
            ));
        }
        Ok(())
    }

    /// Writing first the dirty and then the spilled pages saves all of them.
    proof fn lemma_flushed(&self, mid: &PageCache, done: &PageCache)
        requires
            self.inv(),
            saved(self.disk(), mid.disk(), self.cached().restrict(self.dirty())),
            saved(mid.disk(), done.disk(), self.spilled()),
            done.inv(),
            done.dirty() == Set::<u64>::empty(),
            done.spilled() == Map::<u64, Seq<u8>>::empty(),
        ensures
            saved(self.disk(), done.disk(), self.unsaved_pages()),
            self.contents().submap_of(done.contents()),
    {
        self.lemma_inv();
        done.lemma_inv();
        let a = self.cached().restrict(self.dirty());
        let b = self.spilled();
        let all = self.unsaved_pages();
        assert forall|id: u64| #[trigger] all.contains_key(id) implies id < done.disk().len()
            && done.disk()[id as int] == all[id] by {
            if b.contains_key(id) {
                assert(all[id] == b[id]);
            } else {
                assert(a.contains_key(id));
                assert(all[id] == a[id]);
                assert(done.disk()[id as int] == mid.disk()[id as int]);
            }
        }
        assert forall|id: u64| id < done.disk().len() && !all.contains_key(id) implies #[trigger] done.disk()[id as int] == (
        if id < self.disk().len() {
            self.disk()[id as int]
        } else {
            zero_page()
        }) by {
            assert(!a.contains_key(id) && !b.contains_key(id));
            if id < mid.disk().len() {
                assert(done.disk()[id as int] == mid.disk()[id as int]);
            }
        }
        if done.disk().len() != self.disk().len() {
            if done.disk().len() != mid.disk().len() {
                let top = (done.disk().len() - 1) as u64;
                assert(b.contains_key(top));
                assert(all.contains_key(top));
            } else {
                let top = (mid.disk().len() - 1) as u64;
                assert(a.contains_key(top));
                assert(all.contains_key(top));
            }
        }
        assert forall|id: u64| #[trigger] self.contents().contains_key(id) implies done.contents().contains_key(id)
            && self.contents()[id] == done.contents()[id] by {
            assert(self.present(id));
            if all.contains_key(id) {
                assert(done.disk()[id as int] == all[id]);
            } else {
                assert(id < self.disk().len());
                assert(done.disk()[id as int] == self.disk()[id as int]);
            }
            assert(done.present(id));
            if done.cached().contains_key(id) {
                assert(done.cached()[id] == done.disk()[id as int]);
            }
        }
    }
}

/// A page is found in the cache, else in the spillway, else on storage, and no page is in
/// cache and spillway at once. What waits to be saved is what is dirty in the cache and all
/// that is in the spillway; what is clean is as it is on storage. The order names each page
/// of the cache once.
pub proof fn law_where_pages_are(c: &PageCache, id: u64)
    requires
        c.inv(),
    ensures
        c.contents().contains_key(id) <==> c.cached().contains_key(id) || c.spilled().contains_key(id) || id
            < c.disk().len(),
        c.cached().contains_key(id) ==> c.contents()[id] == c.cached()[id] && !c.spilled().contains_key(id),
        c.spilled().contains_key(id) ==> c.contents()[id] == c.spilled()[id],
        id < c.disk().len() && !c.unsaved().contains(id) ==> c.contents()[id] == c.disk()[id as int],
        c.unsaved().contains(id) <==> c.dirty().contains(id) || c.spilled().contains_key(id),
        c.pending() == c.unsaved().len(),
        c.order().contains(id) <==> c.cached().contains_key(id),
        c.order().no_duplicates(),
        c.spill_order().contains(id) <==> c.spilled().contains_key(id),
        c.spill_order().no_duplicates(),
        c.sound(id) <==> c.contents().contains_key(id) && (c.unsaved().contains(id) || crate::bytes::le64(
            c.contents()[id],
            8184,
        ) == crate::page::xxh3_hash(c.contents()[id].subrange(0, 8184))),
        c.unsaved_pages().contains_key(id) <==> c.unsaved().contains(id),
        c.unsaved().contains(id) ==> c.unsaved_pages()[id] == c.contents()[id],
{
    c.lemma_inv();
    assert(c.dirty().disjoint(c.spilled().dom()));
    vstd::set_lib::lemma_set_disjoint_lens(c.dirty(), c.spilled().dom());
    assert(c.dirty() + c.spilled().dom() =~= c.unsaved());
    assert(c.order().to_set().contains(id) == c.order().contains(id));
    assert(c.spill_order().to_set().contains(id) == c.spill_order().contains(id));
}

/// A page that was allocated holds zeros and waits to be saved; every other page holds what
/// it held.
pub proof fn law_allocated_pages(before: &PageCache, after: &PageCache, id: u64, other: u64)
    requires
        after.allocated(before, id),
    ensures
        after.contents().contains_key(id),
        after.contents()[id] == Seq::new(8192, |i: int| 0u8),
        after.unsaved().contains(id),
        after.pending() == before.pending() + 1,
        after.allocations() == (before.allocations() + 1) % 0x1_0000_0000_0000_0000,
        other != id ==> after.contents().contains_key(other) == before.contents().contains_key(other),
        other != id && before.contents().contains_key(other) ==> after.contents()[other] == before.contents()[other],
        other != id ==> after.unsaved().contains(other) == before.unsaved().contains(other),
        after.disk() == before.disk(),
{
}

/// Pages that are the same hold the same, wherever they are kept, and the limits are the
/// same.
pub proof fn law_same_pages(before: &PageCache, after: &PageCache)
    requires
        after.same_pages(before),
    ensures
        after.contents() == before.contents(),
        after.unsaved() == before.unsaved(),
        after.disk() == before.disk(),
        after.watermark() == before.watermark(),
        after.page_limit() == before.page_limit(),
        after.spill_limit() == before.spill_limit(),
        after.policy() == before.policy(),
{
}

/// The error of reading a page says that the limits are passed, that the page is damaged, or
/// that storage does not have it.
pub proof fn law_errors_of_reading(c: &PageCache, e: ChiselError, id: u64)
    requires
        c.explains(e, id),
    ensures
        c.pending() > c.capacity() && e == c.pressure_error() || !c.sound(id) && if id < c.disk().len() {
            e == (ChiselError::ChecksumMismatch { page_id: id })
        } else {
            e == (ChiselError::InvalidPageId { page_id: id })
        },
{
}

/// A cache holds as many whole pages as fit in the bytes asked for, and at least one.
pub proof fn law_page_limit_fits_the_bytes(bytes: u64)
    ensures
        page_limit_of(bytes) >= 1,
        page_limit_of(bytes) == 1 || page_limit_of(bytes) * 8192 <= bytes,
        bytes < (page_limit_of(bytes) + 1) * 8192,
{
    vstd::arithmetic::div_mod::lemma_fundamental_div_mod(bytes as int, 8192);
    assert(bytes / (PAGE_SIZE as u64) == bytes as int / 8192);
}

/// The page limit that a byte limit stands for: whole pages, but at least one.
pub open spec fn page_limit_of(bytes: u64) -> nat {
    if bytes / (PAGE_SIZE as u64) < 1 {
        1
    } else {
        (bytes / (PAGE_SIZE as u64)) as nat
    }
}

} // verus!
