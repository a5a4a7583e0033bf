//! Overflow storage for dirty pages that no longer fit the cache.
//!
//! The spillway holds the pages of the transaction in flight only: it is
//! drained by a commit and emptied by a rollback. Its limit counts the pages
//! that are resident, not those that ever were.

use vstd::prelude::*;

use crate::error::ChiselError;
use crate::fx::{map_contains, map_get, map_insert, map_new, map_remove};
use crate::lru::{lemma_without, without, LruIndex};
use crate::page::PAGE_SIZE;
use crate::page_cache::{kept, lemma_kept_step};
use rustc_hash::FxHashMap;

verus! {

/// Pages spilled from the cache.
pub struct Spillway {
    slots: FxHashMap<u64, Box<[u8; PAGE_SIZE]>>,
    order: LruIndex,
    max_bytes: u64,
}

/// The contents of each page.
pub open spec fn box_bytes(m: Map<u64, Box<[u8; PAGE_SIZE]>>) -> Map<u64, Seq<u8>> {
    m.map_values(|b: Box<[u8; PAGE_SIZE]>| b@)
}

impl Spillway {
    /// The order lists each resident page once.
    pub closed spec fn inv(&self) -> bool {
        &&& self.order.inv()
        &&& self.slots@.dom() == self.order@.to_set()
    }

    /// The resident pages.
    pub closed spec fn pages(&self) -> Map<u64, Seq<u8>> {
        box_bytes(self.slots@)
    }

    /// The resident ids in the order they were spilled.
    pub closed spec fn order(&self) -> Seq<u64> {
        self.order@
    }

    /// The limit on resident pages, in bytes.
    pub closed spec fn limit(&self) -> u64 {
        self.max_bytes
    }

    pub proof fn lemma_order(&self)
        requires
            self.inv(),
        ensures
            self.order().no_duplicates(),
            self.order().to_set() == self.pages().dom(),
            self.order().len() == self.pages().dom().len(),
            self.pages().dom().finite(),
            forall|id: u64| self.pages().contains_key(id) ==> (#[trigger] self.pages()[id]).len() == PAGE_SIZE,
    {
        self.order.lemma_no_duplicates();
        self.order@.unique_seq_to_set();
        assert(self.pages().dom() =~= self.slots@.dom());
    }

    /// An empty spillway.
    pub fn new(max_bytes: u64) -> (spillway: Self)
        ensures
            spillway.inv(),
            spillway.pages() == Map::<u64, Seq<u8>>::empty(),
            spillway.order().len() == 0,
            spillway.limit() == max_bytes,
    {
        let slots = map_new();
        let order = LruIndex::new();
        let spillway = Spillway { slots, order, max_bytes };
        assert(spillway.order@.to_set() =~= Set::<u64>::empty());
        assert(spillway.pages() =~= Map::<u64, Seq<u8>>::empty());
        spillway
    }

    /// Number of resident pages.
    pub fn slot_count(&self) -> (n: usize)
        requires
            self.inv(),
        ensures
            n == self.order().len(),
    {
        self.order.len()
    }

    /// Bytes in use; saturates at `u64::MAX`.
    pub fn logical_bytes(&self) -> (n: u64)
        requires
            self.inv(),
        ensures
            n == (if self.order().len() * PAGE_SIZE <= u64::MAX {
                self.order().len() * PAGE_SIZE
            } else {
                u64::MAX as int
            }),
    {
        let count: u64 = self.order.len() as u64;
        if count <= u64::MAX / PAGE_SIZE as u64 {
            count * PAGE_SIZE as u64
        } else {
            u64::MAX
        }
    }

    /// The limit in bytes.
    pub fn max_bytes(&self) -> (n: u64)
        ensures
            n == self.limit(),
    {
        self.max_bytes
    }

    /// Change the limit. Resident pages stay.
    pub fn set_max_bytes(&mut self, bytes: u64)
        requires
            old(self).inv(),
        ensures
            final(self).inv(),
            final(self).pages() == old(self).pages(),
            final(self).order() == old(self).order(),
            final(self).limit() == bytes,
    {
        self.max_bytes = bytes;
    }

    /// Whether `page_id` is resident.
    pub fn is_resident(&self, page_id: u64) -> (resident: bool)
        requires
            self.inv(),
        ensures
            resident == self.pages().contains_key(page_id),
    {
        map_contains(&self.slots, page_id)
    }

    /// Take in a page. `SpillwayFull` if it is not resident yet and one page
    /// more would exceed the limit.
    pub fn spill(&mut self, page_id: u64, buf: &[u8; PAGE_SIZE]) -> (outcome: Result<(), ChiselError>)
        requires
            old(self).inv(),
        ensures
            final(self).inv(),
            final(self).limit() == old(self).limit(),
            match outcome {
                Ok(_) => {
                    &&& old(self).pages().contains_key(page_id) || (old(self).order().len() + 1) * PAGE_SIZE
                        <= old(self).limit()
                    &&& final(self).pages() == old(self).pages().insert(page_id, buf@)
                    &&& final(self).order() == without(old(self).order(), page_id).push(page_id)
                },
                Err(e) => {
                    &&& !old(self).pages().contains_key(page_id)
                    &&& (old(self).order().len() + 1) * PAGE_SIZE > old(self).limit()
                    &&& e == (ChiselError::SpillwayFull { limit_bytes: old(self).limit() })
                    &&& final(self).pages() == old(self).pages()
                    &&& final(self).order() == old(self).order()
                },
            },
    {
        if !map_contains(&self.slots, page_id) {
            let count: u64 = self.order.len() as u64;
            if count >= self.max_bytes / PAGE_SIZE as u64 {
                return Err(ChiselError::SpillwayFull { limit_bytes: self.max_bytes });
            }
        }
        proof {
            self.order.lemma_no_duplicates();
            lemma_without(self.order@, page_id);
        }
        map_insert(&mut self.slots, page_id, Box::new(*buf));
        self.order.push_front(page_id);
        proof {
            let rest = without(old(self).order@, page_id);
            let order = rest.push(page_id);
            assert forall|x: u64| order.contains(x) <==> rest.contains(x) || x == page_id by {
                if rest.contains(x) {
                    assert(order[rest.index_of(x)] == x);
                }
                assert(order[rest.len() as int] == page_id);
            }
            assert(self.slots@.dom() =~= self.order@.to_set());
            assert(self.pages() =~= old(self).pages().insert(page_id, buf@));
        }
        Ok(())
    }

    /// A copy of a resident page.
    pub fn rehydrate(&self, page_id: u64) -> (page: Option<[u8; PAGE_SIZE]>)
        requires
            self.inv(),
        ensures
            match page {
                Some(bytes) => self.pages().contains_key(page_id) && bytes@ == self.pages()[page_id],
                None => !self.pages().contains_key(page_id),
            },
    {
        match map_get(&self.slots, page_id) {
            Some(buf) => Some(**buf),
            None => None,
        }
    }

    /// Let go of a page.
    pub fn forget(&mut self, page_id: u64)
        requires
            old(self).inv(),
        ensures
            final(self).inv(),
            final(self).limit() == old(self).limit(),
            final(self).pages() == old(self).pages().remove(page_id),
            final(self).order() == without(old(self).order(), page_id),
    {
        proof {
            self.order.lemma_no_duplicates();
            lemma_without(self.order@, page_id);
        }
        map_remove(&mut self.slots, page_id);
        self.order.remove(page_id);
        proof {
            assert(self.slots@.dom() =~= self.order@.to_set());
            assert(self.pages() =~= old(self).pages().remove(page_id));
        }
    }

    /// Let go of every page with an id of at least `n`.
    pub fn forget_above(&mut self, n: u64)
        requires
            old(self).inv(),
        ensures
            final(self).inv(),
            final(self).limit() == old(self).limit(),
            final(self).pages() == old(self).pages().restrict(Set::new(|id: u64| id < n)),
            final(self).order() == kept(old(self).order(), Set::new(|id: u64| id >= n)),
    {
        let ghost drop = Set::new(|id: u64| id >= n);
        let ids: Vec<u64> = self.drain_batch(self.slot_count());
        let mut i: usize = 0;
        proof {
            old(self).lemma_order();
            assert(ids@ =~= old(self).order());
            assert(kept(ids@.take(0), drop) + ids@.skip(0) =~= ids@);
        }
        while i < ids.len()
            invariant
                i <= ids@.len(),
                ids@ == old(self).order(),
                ids@.no_duplicates(),
                drop == Set::new(|id: u64| id >= n),
                self.order() == kept(ids@.take(i as int), drop) + ids@.skip(i as int),
                self.inv(),
                self.limit() == old(self).limit(),
                forall|id: u64| #[trigger] self.pages().contains_key(id) <==> old(self).pages().contains_key(id)
                    && !(id >= n && exists|k: int| 0 <= k < i && ids@[k] == id),
                forall|id: u64| self.pages().contains_key(id) ==> #[trigger] self.pages()[id] == old(self).pages()[id],
            decreases ids@.len() - i,
        {
            let ghost before = self.pages();
            let id: u64 = ids[i];
            proof {
                lemma_kept_step(ids@, drop, i as int);
            }
            if id >= n {
                self.forget(id);
            }
            i += 1;
            proof {
                assert forall|x: u64| #[trigger] self.pages().contains_key(x) <==> old(self).pages().contains_key(x)
                    && !(x >= n && exists|k: int| 0 <= k < i && ids@[k] == x) by {
                    assert(before.contains_key(x) <==> old(self).pages().contains_key(x) && !(x >= n && exists|
                        k: int,
                    |
                        0 <= k < i - 1 && ids@[k] == x));
                    if x == id {
                        assert(ids@[i - 1] == x);
                    }
                }
            }
        }
        proof {
            old(self).lemma_order();
            let want = old(self).pages().restrict(Set::new(|id: u64| id < n));
            assert forall|x: u64| self.pages().contains_key(x) == want.contains_key(x) by {
                if old(self).pages().contains_key(x) && x >= n {
                    assert(old(self).order().to_set().contains(x));
                    let k = ids@.index_of(x);
                    assert(ids@[k] == x);
                }
            }
            assert(self.pages() =~= want);
            assert(ids@.take(ids@.len() as int) =~= ids@);
            assert(self.order() =~= kept(ids@, drop));
        }
    }

    /// The first `n` resident ids in the order they were spilled.
    pub fn drain_batch(&self, n: usize) -> (ids: Vec<u64>)
        requires
            self.inv(),
        ensures
            ids@ == self.order().take(if n < self.order().len() { n as int } else { self.order().len() as int }),
    {
        let mut ids: Vec<u64> = Vec::new();
        let mut iter = self.order.iter_lru_to_mru();
        while ids.len() < n
            invariant_except_break
                ids@.len() <= n,
                iter.index() < self.order().len() || iter.index() == self.order().len(),
            invariant
                self.inv(),
                iter.inv(),
                iter.ids() == self.order(),
                iter.index() == ids@.len(),
                ids@.len() <= self.order().len(),
                ids@ == self.order().take(ids@.len() as int),
            ensures
                ids@.len() == (if n < self.order().len() { n as int } else { self.order().len() as int }),
            decreases n - ids@.len(),
        {
            proof {
                iter.lemma_bounds();
            }
            match iter.next() {
                Some(id) => {
                    ids.push(id);
                    assert(ids@ =~= self.order().take(ids@.len() as int));
                },
                None => {
                    break;
                },
            }
        }
        ids
    }

    /// Let go of every page.
    pub fn truncate(&mut self)
        requires
            old(self).inv(),
        ensures
            final(self).inv(),
            final(self).limit() == old(self).limit(),
            final(self).pages() == Map::<u64, Seq<u8>>::empty(),
            final(self).order().len() == 0,
    {
        *self = Spillway::new(self.max_bytes);
    }
}

} // verus!
