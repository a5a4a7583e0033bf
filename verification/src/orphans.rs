//! Pages of former freemaps that nothing leads to any more.
//!
//! The pages that a commit replaces in the freemap can be freed with the commit
//! after it only. Until then nothing but the running program knows of them, so a
//! program that stops leaves them behind.

use vstd::prelude::*;

use rustc_hash::FxHashSet;

use crate::audit::{lemma_map_fine, map_fine, map_pages, opened};
use crate::audit_values::{chain_nodes, entries_listed};
use crate::commit::lemma_source_ready;
use crate::fx::{map_contains, set_contains};
use crate::handle_table::{HandleEntry, HandleFlags};
use crate::page::{checksum_ok, verify_checksum, PageType, PAGE_SIZE};
use crate::page_source::PageSource;
use crate::pool::{counts_ok, good, lemma_residents_finite, residents, stray};
use crate::store::{entry_of, holds_value, index_nodes, sound_store, table_nodes, value_pages};
use crate::workspace::{looked, Workspace};

verus! {

/// A page that was part of a freemap, and that nothing leads to.
pub open spec fn orphan(w: &Workspace, id: u64) -> bool {
    &&& stray(&w.cache, &w.recycler, w.slots, w.roots, id)
    &&& is_map_page(w.cache.contents()[id])
}

/// The contents of a page of a freemap.
pub open spec fn is_map_page(s: Seq<u8>) -> bool {
    checksum_ok(s) && (s[0] == PageType::FreeMap.spec_code() || s[0] == PageType::FreeMapInterior.spec_code())
}

/// The list names every such page once.
pub open spec fn orphans_listed(w: &Workspace, list: Seq<u64>) -> bool {
    &&& forall|i: int, j: int| 0 <= i < j < list.len() ==> list[i] < list[j]
    &&& forall|id: u64| #[trigger] list.contains(id) <==> orphan(w, id)
}

/// All such pages.
pub open spec fn orphans(w: &Workspace) -> Set<u64> {
    Set::new(|id: u64| orphan(w, id))
}

/// The list is as long as there are such pages.
pub proof fn lemma_orphan_count(w: &Workspace, list: Seq<u64>)
    requires
        orphans_listed(w, list),
    ensures
        list.len() == orphans(w).len(),
{
    assert(list.no_duplicates());
    list.unique_seq_to_set();
    assert(list.to_set() =~= orphans(w)) by {
        assert forall|id: u64| list.to_set().contains(id) == orphans(w).contains(id) by {
            assert(list.contains(id) <==> orphan(w, id));
        }
    }
}

/// The pages that freemap, table, index and chains have, or that are free.
pub open spec fn claimed_pages(w: &Workspace, list: Seq<(u64, HandleEntry)>) -> Set<u64> {
    map_pages(w).union(table_nodes(w.cache.contents(), w.roots)).union(index_nodes(w.cache.contents(), w.roots)).union(
        chain_nodes(w.cache.contents(), list, list.len() as int),
    )
}

/// A page that is not claimed and holds no value is a stray one.
proof fn lemma_stray(w: &Workspace, list: Seq<(u64, HandleEntry)>, id: u64)
    requires
        opened(w),
        map_fine(w),
        sound_store(w.cache.contents(), good(&w.cache, &w.recycler, w.slots), w.roots),
        entries_listed(w.cache.contents(), w.roots, list),
        counts_ok(w.live@, w.cache.contents(), w.roots),
        w.slots <= id < w.cache.watermark(),
    ensures
        stray(&w.cache, &w.recycler, w.slots, w.roots, id) <==> !claimed_pages(w, list).contains(id)
            && !w.live@.contains_key(id),
{
    let pages = w.cache.contents();
    let r = w.roots;
    lemma_map_fine(w);
    lemma_source_ready(&w.cache, &w.recycler);
    assert(w.recycler.footprint(&w.cache).contains(id) <==> map_pages(w).contains(id));
    let here = residents(pages, r, id);
    lemma_residents_finite(pages, good(&w.cache, &w.recycler, w.slots), r, id);
    if holds_value(pages, r, id) {
        let h = choose|h: u64|
            (#[trigger] entry_of(pages, r, h)) matches Some(e) && value_pages(pages, e).contains(id);
        let e = entry_of(pages, r, h)->0;
        if e.flags == HandleFlags::Live {
            assert(here.contains(h));
            assert(w.live@.contains_key(id));
        } else {
            assert(list.contains((h, e)));
            let j = list.index_of((h, e));
            assert(list[j].1.flags == HandleFlags::Overflow);
            assert(chain_nodes(pages, list, list.len() as int).contains(id));
        }
    }
    if w.live@.contains_key(id) {
        assert(here.len() > 0);
        let h = here.choose();
        assert(here.contains(h));
        assert(entry_of(pages, r, h) is Some);
        assert(value_pages(pages, entry_of(pages, r, h)->0).contains(id));
    }
    if chain_nodes(pages, list, list.len() as int).contains(id) {
        let j = choose|j: int|
            0 <= j < list.len() && (#[trigger] list[j]).1.flags == HandleFlags::Overflow && value_pages(
                pages,
                list[j].1,
            ).contains(id);
        assert(list.contains(list[j]));
        assert(entry_of(pages, r, list[j].0) == Some(list[j].1));
    }
}

/// The contents are those of a page of a freemap.
fn check_map_page(buf: &[u8; PAGE_SIZE]) -> (found: bool)
    ensures
        found == is_map_page(buf@),
{
    verify_checksum(buf) && (buf[0] == PageType::FreeMap.code() || buf[0] == PageType::FreeMapInterior.code())
}

impl Workspace {
    /// The pages of former freemaps that nothing leads to, given the pages that
    /// something leads to.
    pub fn find_orphans(&mut self, claimed: &FxHashSet<u64>, Ghost(list): Ghost<Seq<(u64, HandleEntry)>>) -> (orphans: Vec<
        u64,
    >)
        requires
            opened(old(self)),
            map_fine(old(self)),
            sound_store(
                old(self).cache.contents(),
                good(&old(self).cache, &old(self).recycler, old(self).slots),
                old(self).roots,
            ),
            entries_listed(old(self).cache.contents(), old(self).roots, list),
            counts_ok(old(self).live@, old(self).cache.contents(), old(self).roots),
            claimed@ == claimed_pages(old(self), list),
        ensures
            looked(old(self), final(self)),
            orphans_listed(old(self), orphans@),
    {
        let ghost w0 = *self;
        let mut orphans: Vec<u64> = Vec::new();
        let top: u64 = self.cache.next_page_id();
        let mut id: u64 = self.slots as u64;
        while id < top
            invariant
                w0 == *old(self),
                opened(&w0),
                map_fine(&w0),
                sound_store(w0.cache.contents(), good(&w0.cache, &w0.recycler, w0.slots), w0.roots),
                entries_listed(w0.cache.contents(), w0.roots, list),
                counts_ok(w0.live@, w0.cache.contents(), w0.roots),
                claimed@ == claimed_pages(&w0, list),
                looked(&w0, self),
                top == w0.cache.watermark(),
                w0.slots <= id,
                forall|i: int, j: int| 0 <= i < j < orphans@.len() ==> orphans@[i] < orphans@[j],
                forall|x: u64| #[trigger] orphans@.contains(x) <==> x < id && orphan(&w0, x),
            decreases top - id,
        {
            let ghost before = orphans@;
            proof {
                lemma_stray(&w0, list, id);
                assert(orphans@.len() > 0 ==> orphans@.contains(orphans@.last()));
            }
            if !set_contains(claimed, id) && !map_contains(&self.live, id) {
                let ghost c1 = self.cache;
                let found: bool = match self.cache.get(id) {
                    Ok(buf) => check_map_page(buf),
                    Err(_) => {
                        proof {
                            c1.lemma_explains(id);
                        }
                        false
                    },
                };
                if found {
                    orphans.push(id);
                }
            }
            proof {
                assert forall|x: u64| #[trigger] orphans@.contains(x) <==> x < id + 1 && orphan(&w0, x) by {
                    if before.contains(x) {
                        assert(orphans@[before.index_of(x)] == x);
                    }
                    if orphans@.contains(x) && x != id {
                        let k = orphans@.index_of(x);
                        assert(before[k] == x);
                    }
                    if x == id && orphan(&w0, x) {
                        assert(orphans@[before.len() as int] == x);
                    }
                }
            }
            id += 1;
        }
        orphans
    }
}

} // verus!
