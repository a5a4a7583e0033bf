//! The pages that a transaction works on, and the state that it has reached.
//!
//! A transaction works on fresh pages only: pages that nothing used when it
//! began, or that it took itself. Data pages that it filled can take further
//! values. So every state that it went through is still there.

use vstd::prelude::*;

use rustc_hash::FxHashMap;

use crate::data_page::{slot_value, DataPage};
use crate::error::ChiselError;
use crate::handle_table::{HandleEntry, HandleFlags, HandleTable, ENTRIES_PER_LEAF};
use crate::listing::tree_explains;
use crate::membership_index::{index_explains, index_roots};
use crate::overflow::{
    chain_complete, chain_end, chain_explains, claimed_length, link, next_of, pages_for, reaches, read_defect, ChainEnd, Overflow,
};
use crate::page::PAGE_ID_NONE;
use crate::page_cache::PageCache;
use crate::page_source::{cow_step, grown_by, lemma_agree_at, lemma_cow_look, overrun, too_many, PageSource};
use crate::pool::{
    appended, bin_ok, counts_ok, good, lemma_pool_append, lemma_pool_cow, lemma_same_counts, lemma_store_append,
    lemma_store_cow, pool_ok, store_ok, stray,
};
use crate::radix::{node_at, page_at, reach, tree_in};
use crate::radix_u64::SLOTS_PER_PAGE;
use crate::recycler::Recycler;
use crate::spine::path_unsound;
use crate::store::{
    chain_pages, data_only, database, entry_of, holds_value, index_nodes, lemma_used_good, same_store, sound_store,
    table_nodes, tags_agree, unused, value_of, value_ok, value_pages, Record, Roots,
};

verus! {

/// The pages of a database and the state that a transaction has reached.
pub struct Workspace {
    /// The pages.
    pub cache: PageCache,
    /// The source of fresh pages.
    pub recycler: Recycler,
    /// The number of superblock slots.
    pub slots: u32,
    /// The state reached.
    pub roots: Roots,
    /// Pages that this state no longer uses.
    pub freed: Vec<u64>,
    /// Pages that can be freed with the next commit.
    pub deferred: Vec<u64>,
    /// The data page that values are added to.
    pub cursor: Option<u64>,
    /// The number of values on each data page.
    pub live: FxHashMap<u64, u64>,
    /// Every data page that values can be added to.
    pub bins: Ghost<Set<u64>>,
}

impl Workspace {
    /// Cache and source can be used, and so can the data pages.
    pub open spec fn usable(&self) -> bool {
        &&& pool_ok(&self.cache, &self.recycler, self.slots)
        &&& forall|q: u64| #[trigger]
            self.bins@.contains(q) ==> bin_ok(&self.cache, &self.recycler, self.slots, q)
        &&& forall|i: int|
            0 <= i < self.deferred@.len() ==> !self.bins@.contains(#[trigger] self.deferred@[i])
                && !self.recycler.footprint(&self.cache).contains(self.deferred@[i])
    }

    /// The pages hold a sound state with these roots; freed pages are used by
    /// nothing in it, and data pages that take values are nothing else.
    pub open spec fn holds(&self, r: Roots, freed: Seq<u64>, cursor: Option<u64>) -> bool {
        &&& store_ok(&self.cache, &self.recycler, self.slots, r)
        &&& forall|i: int|
            0 <= i < freed.len() ==> stray(&self.cache, &self.recycler, self.slots, r, #[trigger] freed[i]) && cursor
                != Some(freed[i])
        &&& forall|i: int|
            0 <= i < self.deferred@.len() ==> stray(
                &self.cache,
                &self.recycler,
                self.slots,
                r,
                #[trigger] self.deferred@[i],
            )
        &&& none_noted(freed, self.deferred@)
        &&& cursor matches Some(q) ==> self.bins@.contains(q)
        &&& forall|q: u64| #[trigger] self.bins@.contains(q) ==> data_only(self.cache.contents(), r, q)
    }

    /// The index and the counts fit a state.
    pub open spec fn fits(&self, r: Roots, live: Map<u64, u64>) -> bool {
        tags_agree(self.cache.contents(), r) && counts_ok(live, self.cache.contents(), r)
    }

    /// The state reached is sound.
    pub open spec fn inv(&self) -> bool {
        &&& self.usable()
        &&& self.holds(self.roots, self.freed@, self.cursor)
        &&& self.fits(self.roots, self.live@)
    }

    /// What the handles stand for.
    pub open spec fn db(&self) -> Map<u64, Record> {
        database(self.cache.contents(), self.roots)
    }
}

/// Every state that was there still is, and says the same.
pub open spec fn states_kept(w0: &Workspace, w1: &Workspace) -> bool {
    forall|r: Roots, freed: Seq<u64>, cursor: Option<u64>| #[trigger]
        w0.holds(r, freed, cursor) ==> w1.holds(r, freed, cursor) && same_store(
            w0.cache.contents(),
            w1.cache.contents(),
            r,
        )
}

/// The pages have changed in a way that keeps every state; at most `m` more of
/// them are unsaved.
#[verifier::opaque]
pub open spec fn evolved(w0: &Workspace, w1: &Workspace, m: nat) -> bool {
    &&& w1.usable()
    &&& w1.slots == w0.slots
    &&& w1.deferred@ == w0.deferred@
    &&& w0.freed@.is_prefix_of(w1.freed@)
    &&& w0.bins@.subset_of(w1.bins@)
    &&& w1.recycler.footprint(&w1.cache).subset_of(w0.recycler.footprint(&w0.cache))
    &&& w1.recycler.anchor() == w0.recycler.anchor()
    &&& good(&w0.cache, &w0.recycler, w0.slots).subset_of(good(&w1.cache, &w1.recycler, w1.slots))
    &&& grown_by(&w0.cache, &w1.cache, m)
    &&& forall|id: u64| #[trigger]
        w1.cache.unsaved().contains(id) ==> w0.cache.unsaved().contains(id) || w0.recycler.footprint(
            &w0.cache,
        ).contains(id)
    &&& states_kept(w0, w1)
    &&& w0.recycler.settled(&w0.cache) && w0.cache.pending() + m <= w0.cache.capacity() ==> w1.recycler.settled(
        &w1.cache,
    )
}

/// What a change means for one state.
pub proof fn lemma_evolved_state(
    w0: &Workspace,
    w1: &Workspace,
    m: nat,
    r: Roots,
    live: Map<u64, u64>,
    freed: Seq<u64>,
    cursor: Option<u64>,
)
    requires
        evolved(w0, w1, m),
        w0.holds(r, freed, cursor),
    ensures
        w1.usable(),
        w1.slots == w0.slots,
        w1.deferred@ == w0.deferred@,
        w0.freed@.is_prefix_of(w1.freed@),
        grown_by(&w0.cache, &w1.cache, m),
        good(&w0.cache, &w0.recycler, w0.slots).subset_of(good(&w1.cache, &w1.recycler, w1.slots)),
        w1.recycler.footprint(&w1.cache).subset_of(w0.recycler.footprint(&w0.cache)),
        w1.holds(r, freed, cursor),
        same_store(w0.cache.contents(), w1.cache.contents(), r),
        w0.fits(r, live) ==> w1.fits(r, live),
{
    reveal(evolved);
    if w0.fits(r, live) {
        lemma_same_counts(live, w0.cache.contents(), w1.cache.contents(), r, r);
    }
}

/// Two changes make one.
pub proof fn lemma_evolved_chain(w0: &Workspace, w1: &Workspace, w2: &Workspace, m: nat, k: nat)
    requires
        evolved(w0, w1, m),
        evolved(w1, w2, k),
    ensures
        evolved(w0, w2, m + k),
{
    reveal(evolved);
    assert forall|r: Roots, freed: Seq<u64>, cursor: Option<u64>| #[trigger] w0.holds(r, freed, cursor) implies w2.holds(
        r,
        freed,
        cursor,
    ) && same_store(w0.cache.contents(), w2.cache.contents(), r) by {
        assert(w1.holds(r, freed, cursor));
        lemma_same_store_chain(w0.cache.contents(), w1.cache.contents(), w2.cache.contents(), r);
    }
}

/// Saying the same carries over.
proof fn lemma_same_store_chain(a: Map<u64, Seq<u8>>, b: Map<u64, Seq<u8>>, c: Map<u64, Seq<u8>>, r: Roots)
    requires
        same_store(a, b, r),
        same_store(b, c, r),
    ensures
        same_store(a, c, r),
{
    assert forall|h: u64| #[trigger] entry_of(c, r, h) == entry_of(a, r, h) by {
        assert(entry_of(b, r, h) == entry_of(a, r, h));
    }
    assert forall|tag: u32, h: u64| #[trigger] crate::store::index_has(c, r, tag, h) == crate::store::index_has(
        a,
        r,
        tag,
        h,
    ) by {
        assert(crate::store::index_has(b, r, tag, h) == crate::store::index_has(a, r, tag, h));
    }
    assert forall|h: u64| (#[trigger] entry_of(a, r, h)) matches Some(e) ==> {
        &&& crate::store::value_of(c, e) == crate::store::value_of(a, e)
        &&& value_pages(c, e) == value_pages(a, e)
    } by {
        assert(entry_of(b, r, h) == entry_of(a, r, h));
    }
    assert forall|id: u64| #[trigger] unused(c, r, id) == unused(a, r, id) by {
        assert(unused(b, r, id) == unused(a, r, id));
    }
    assert forall|id: u64| #[trigger] data_only(c, r, id) == data_only(a, r, id) by {
        assert(data_only(b, r, id) == data_only(a, r, id));
    }
}

/// A step of the source keeps every state. Pages that it took may join the data
/// pages.
pub proof fn lemma_evolved_cow(w0: &Workspace, w1: &Workspace, m: nat)
    requires
        w0.usable(),
        w1.slots == w0.slots,
        w1.deferred@ == w0.deferred@,
        w0.freed@.is_prefix_of(w1.freed@),
        cow_step(&w0.recycler, &w0.cache, &w1.recycler, &w1.cache, m),
        w0.bins@.subset_of(w1.bins@),
        forall|q: u64| #[trigger]
            w1.bins@.contains(q) && !w0.bins@.contains(q) ==> w0.recycler.footprint(&w0.cache).contains(q) && bin_ok(
                &w1.cache,
                &w1.recycler,
                w1.slots,
                q,
            ),
    ensures
        evolved(w0, w1, m),
{
    reveal(evolved);
    let n = w0.slots;
    lemma_pool_cow(&w0.recycler, &w0.cache, &w1.recycler, &w1.cache, m, n);
    assert forall|id: u64| #[trigger] w1.cache.unsaved().contains(id) implies w0.cache.unsaved().contains(id)
        || w0.recycler.footprint(&w0.cache).contains(id) by {
        let f0 = w0.recycler.footprint(&w0.cache);
        if !f0.contains(id) {
            lemma_agree_at(&w0.cache, &w1.cache, f0.complement(), id);
        }
    }
    assert forall|r: Roots, freed: Seq<u64>, cursor: Option<u64>| #[trigger] w0.holds(r, freed, cursor) implies w1.holds(
        r,
        freed,
        cursor,
    ) && same_store(w0.cache.contents(), w1.cache.contents(), r) by {
        lemma_store_cow(&w0.recycler, &w0.cache, &w1.recycler, &w1.cache, m, n, r);
        lemma_used_good(w0.cache.contents(), good(&w0.cache, &w0.recycler, n), r);
        assert forall|q: u64| #[trigger] w1.bins@.contains(q) implies data_only(w1.cache.contents(), r, q) by {
            if !w0.bins@.contains(q) {
                assert(data_only(w0.cache.contents(), r, q));
            }
        }
    }
}

/// The pages are what matters: roots and counts can be set to others.
pub proof fn lemma_evolved_reset(w0: &Workspace, w1: &Workspace, w2: &Workspace, m: nat)
    requires
        evolved(w0, w1, m),
        w2.cache == w1.cache,
        w2.recycler == w1.recycler,
        w2.slots == w1.slots,
        w2.deferred@ == w1.deferred@,
        w2.bins == w1.bins,
        w0.freed@.is_prefix_of(w2.freed@),
    ensures
        evolved(w0, w2, m),
        forall|r: Roots, freed: Seq<u64>, cursor: Option<u64>|
            w1.holds(r, freed, cursor) ==> #[trigger] w2.holds(r, freed, cursor),
{
    reveal(evolved);
    assert forall|r: Roots, freed: Seq<u64>, cursor: Option<u64>| #[trigger] w0.holds(r, freed, cursor) implies w2.holds(
        r,
        freed,
        cursor,
    ) && same_store(w0.cache.contents(), w2.cache.contents(), r) by {
        assert(w1.holds(r, freed, cursor));
    }
}

/// Adding values to a data page keeps every state.
pub proof fn lemma_evolved_append(w0: &Workspace, w1: &Workspace, x: u64)
    requires
        w0.usable(),
        w1.slots == w0.slots,
        w1.deferred@ == w0.deferred@,
        w0.freed@.is_prefix_of(w1.freed@),
        w1.recycler == w0.recycler,
        w1.bins@ == w0.bins@,
        w0.bins@.contains(x),
        appended(&w0.cache, &w1.cache, x),
    ensures
        evolved(w0, w1, 0),
{
    reveal(evolved);
    let n = w0.slots;
    lemma_pool_append(&w0.recycler, &w0.cache, &w1.cache, n, x);
    assert forall|r: Roots, freed: Seq<u64>, cursor: Option<u64>| #[trigger] w0.holds(r, freed, cursor) implies w1.holds(
        r,
        freed,
        cursor,
    ) && same_store(w0.cache.contents(), w1.cache.contents(), r) by {
        lemma_store_append(&w0.recycler, &w0.cache, &w1.cache, n, r, x);
    }
}

/// It is known of a page what it is for: it is a slot, is used, is free or on the way
/// to be, or belongs to the freemap.
pub open spec fn kept_by(w: &Workspace, id: u64) -> bool {
    ||| id < w.slots
    ||| w.recycler.footprint(&w.cache).contains(id)
    ||| !unused(w.cache.contents(), w.roots, id)
    ||| w.freed@.contains(id)
    ||| w.deferred@.contains(id)
}

/// The pages that the source has given away are among these.
pub open spec fn spends(w0: &Workspace, w1: &Workspace, pages: Set<u64>) -> bool {
    forall|id: u64| #[trigger]
        w0.recycler.footprint(&w0.cache).contains(id) ==> w1.recycler.footprint(&w1.cache).contains(id)
            || pages.contains(id)
}

/// Of no page is it forgotten what it is for, but perhaps of these.
#[verifier::opaque]
pub open spec fn loses_only(w0: &Workspace, w1: &Workspace, pages: Set<u64>) -> bool {
    forall|id: u64| kept_by(w0, id) ==> #[trigger] kept_by(w1, id) || pages.contains(id)
}

/// Of no page is it forgotten what it is for.
pub open spec fn loses_none(w0: &Workspace, w1: &Workspace) -> bool {
    loses_only(w0, w1, Set::<u64>::empty())
}

/// No page that was freed is among those noted before.
#[verifier::opaque]
pub open spec fn none_noted(freed: Seq<u64>, noted: Seq<u64>) -> bool {
    forall|i: int| 0 <= i < freed.len() ==> !noted.contains(#[trigger] freed[i])
}

/// Nothing was freed.
pub proof fn lemma_none_noted(freed: Seq<u64>, noted: Seq<u64>)
    ensures
        freed.len() == 0 ==> none_noted(freed, noted),
{
    reveal(none_noted);
}

/// A page that is used, or can be handed out, is not noted to be freed.
pub proof fn lemma_not_noted(w: &Workspace, freed: Seq<u64>, id: u64)
    requires
        w.holds(w.roots, freed, w.cursor),
        w.recycler.footprint(&w.cache).contains(id) || !unused(w.cache.contents(), w.roots, id),
    ensures
        !w.deferred@.contains(id),
{
    if w.deferred@.contains(id) {
        let i = w.deferred@.index_of(id);
        assert(stray(&w.cache, &w.recycler, w.slots, w.roots, w.deferred@[i]));
    }
}

/// What became of nodes, values and the pages of the source decides what is lost.
pub proof fn lemma_loses_only(w0: &Workspace, w1: &Workspace, m: nat, pages: Set<u64>)
    requires
        evolved(w0, w1, m),
        w0.holds(w0.roots, w0.freed@, w0.cursor),
        forall|id: u64| #[trigger]
            table_nodes(w0.cache.contents(), w0.roots).contains(id) ==> kept_by(w1, id) || pages.contains(id),
        forall|id: u64| #[trigger]
            index_nodes(w0.cache.contents(), w0.roots).contains(id) ==> kept_by(w1, id) || pages.contains(id),
        forall|id: u64| #[trigger]
            w0.recycler.footprint(&w0.cache).contains(id) ==> kept_by(w1, id) || pages.contains(id),
        forall|k: u64| (#[trigger] entry_of(w0.cache.contents(), w0.roots, k)) matches Some(e) ==> entry_of(
            w1.cache.contents(),
            w1.roots,
            k,
        ) == Some(e) || value_pages(w0.cache.contents(), e).subset_of(pages),
    ensures
        loses_only(w0, w1, pages),
{
    reveal(loses_only);
    lemma_evolved_state(w0, w1, m, w0.roots, w0.live@, w0.freed@, w0.cursor);
    let p0 = w0.cache.contents();
    let p1 = w1.cache.contents();
    assert forall|id: u64| kept_by(w0, id) implies #[trigger] kept_by(w1, id) || pages.contains(id) by {
        if w0.freed@.contains(id) {
            let i = w0.freed@.index_of(id);
            assert(w1.freed@[i] == id);
        }
        if holds_value(p0, w0.roots, id) {
            let k = choose|k: u64|
                (#[trigger] entry_of(p0, w0.roots, k)) matches Some(e) && value_pages(p0, e).contains(id);
            let e = entry_of(p0, w0.roots, k)->0;
            if entry_of(p1, w1.roots, k) == Some(e) {
                assert(value_pages(p1, e) == value_pages(p0, e));
                assert(holds_value(p1, w1.roots, id));
            }
        }
    }
}

/// What two changes lose is what either does.
pub proof fn lemma_loses_chain(w0: &Workspace, w1: &Workspace, w2: &Workspace, a: Set<u64>, b: Set<u64>)
    requires
        loses_only(w0, w1, a),
        loses_only(w1, w2, b),
    ensures
        loses_only(w0, w2, a.union(b)),
{
    reveal(loses_only);
    assert forall|id: u64| kept_by(w0, id) implies #[trigger] kept_by(w2, id) || a.union(b).contains(id) by {
        assert(kept_by(w1, id) || a.contains(id));
    }
}

/// Pages of which it is known again what they are for are not lost.
pub proof fn lemma_loses_none(w0: &Workspace, w1: &Workspace, pages: Set<u64>)
    requires
        loses_only(w0, w1, pages),
        forall|id: u64| #[trigger] pages.contains(id) ==> kept_by(w1, id),
    ensures
        loses_none(w0, w1),
{
    reveal(loses_only);
}

/// Pages of which it is known again what they are for need not be counted as lost.
pub proof fn lemma_loses_fewer(w0: &Workspace, w1: &Workspace, pages: Set<u64>, fewer: Set<u64>)
    requires
        loses_only(w0, w1, pages),
        forall|id: u64| #[trigger] pages.contains(id) ==> fewer.contains(id) || kept_by(w1, id),
    ensures
        loses_only(w0, w1, fewer),
{
    reveal(loses_only);
    assert forall|id: u64| kept_by(w0, id) implies #[trigger] kept_by(w1, id) || fewer.contains(id) by {
        assert(kept_by(w1, id) || pages.contains(id));
    }
}

/// What is lost does not depend on counts.
pub proof fn lemma_loses_recounted(w0: &Workspace, w1: &Workspace, w2: &Workspace, pages: Set<u64>)
    requires
        loses_only(w0, w1, pages),
        w2.cache == w1.cache,
        w2.recycler == w1.recycler,
        w2.slots == w1.slots,
        w2.roots == w1.roots,
        w2.deferred@ == w1.deferred@,
        forall|id: u64| #[trigger] w1.freed@.contains(id) ==> w2.freed@.contains(id),
    ensures
        loses_only(w0, w2, pages),
{
    reveal(loses_only);
    assert forall|id: u64| kept_by(w0, id) implies #[trigger] kept_by(w2, id) || pages.contains(id) by {
        assert(kept_by(w1, id) || pages.contains(id));
    }
}

/// Looking at pages loses none.
pub proof fn lemma_loses_looked(w0: &Workspace, w1: &Workspace)
    requires
        w0.cache.inv(),
        w0.cache.bounded(),
        w0.recycler.ready(&w0.cache),
        looked(w0, w1),
    ensures
        loses_none(w0, w1),
{
    reveal(loses_only);
    lemma_cow_look(&w0.recycler, &w0.cache, &w1.cache);
    assert forall|id: u64| kept_by(w0, id) implies #[trigger] kept_by(w1, id) by {}
}

/// While the limits allow every request, what loses no page keeps account of all.
pub proof fn lemma_accounted(w0: &Workspace, w1: &Workspace, m: nat)
    requires
        evolved(w0, w1, m),
        loses_none(w0, w1),
        accounted(w0),
        w0.cache.pending() + m <= w0.cache.capacity(),
    ensures
        accounted(w1),
{
    reveal(evolved);
    reveal(loses_only);
    reveal(accounted);
    assert forall|id: u64| #[trigger] kept_by(w1, id) by {
        assert(kept_by(w0, id));
    }
}

/// What loses no page keeps account of all if the limits allow every request.
pub proof fn lemma_keeps_account(w0: &Workspace, w1: &Workspace, m: nat)
    requires
        evolved(w0, w1, m),
        loses_none(w0, w1),
    ensures
        accounted(w0) && w0.cache.pending() + m <= w0.cache.capacity() ==> accounted(w1),
{
    if accounted(w0) && w0.cache.pending() + m <= w0.cache.capacity() {
        lemma_accounted(w0, w1, m);
    }
}

/// It is known of every page what it is for.
#[verifier::opaque]
pub open spec fn accounted(w: &Workspace) -> bool {
    &&& w.recycler.settled(&w.cache)
    &&& forall|id: u64| #[trigger] kept_by(w, id)
}

/// Where pages are kept does not matter.
pub open spec fn looked(w0: &Workspace, w1: &Workspace) -> bool {
    &&& w1.cache.inv()
    &&& w1.cache.bounded()
    &&& w1.cache.same_pages(&w0.cache)
    &&& w1.recycler == w0.recycler
    &&& w1.slots == w0.slots
    &&& w1.roots == w0.roots
    &&& w1.freed == w0.freed
    &&& w1.deferred == w0.deferred
    &&& w1.cursor == w0.cursor
    &&& w1.live == w0.live
    &&& w1.bins == w0.bins
}

/// Looking at pages keeps every state.
pub proof fn lemma_looked(w0: &Workspace, w1: &Workspace)
    requires
        w0.usable(),
        looked(w0, w1),
    ensures
        evolved(w0, w1, 0),
        w0.inv() ==> w1.inv(),
{
    lemma_cow_look(&w0.recycler, &w0.cache, &w1.cache);
    lemma_evolved_cow(w0, w1, 0);
    if w0.inv() {
        lemma_evolved_state(w0, w1, 0, w0.roots, w0.live@, w0.freed@, w0.cursor);
    }
}

/// A tree of good pages has no node that cannot be read.
pub proof fn lemma_tree_reads(c: &PageCache, good: Set<u64>, b: nat, root: u64, depth: nat, e: ChiselError)
    requires
        tree_in(c.contents(), b, root, depth, good),
        forall|id: u64| #[trigger] good.contains(id) ==> c.sound(id),
    ensures
        tree_explains(c, b, root, depth, e) ==> too_many(c, e, 0),
        forall|h: nat| h < reach(b, depth) ==> !(#[trigger] path_unsound(c, b, root, depth, h, e)),
{
    if tree_explains(c, b, root, depth, e) && !too_many(c, e, 0) {
        let (k, l) = choose|k: nat, l: nat|
            k < reach(b, depth) && l <= depth && ((#[trigger] node_at(c.contents(), b, root, depth, k, l)) matches Some(
                id,
            ) && !c.sound(id) && e == c.read_error(id));
        assert(good.contains(node_at(c.contents(), b, root, depth, k, l)->0));
    }
    assert forall|h: nat| h < reach(b, depth) implies !(#[trigger] path_unsound(c, b, root, depth, h, e)) by {
        if path_unsound(c, b, root, depth, h, e) {
            let l = choose|l: nat|
                l <= depth && ((#[trigger] node_at(c.contents(), b, root, depth, h, l)) matches Some(id) && !c.sound(
                    id,
                ) && e == c.read_error(id));
            assert(good.contains(node_at(c.contents(), b, root, depth, h, l)->0));
        }
    }
}

/// A complete chain ends with its last page.
proof fn lemma_chain_ends(pages: Map<u64, Seq<u8>>, first: u64, max: nat, i: nat)
    requires
        chain_end(pages, first, max, i) matches ChainEnd::Complete(k),
    ensures
        ({
            let k = chain_end(pages, first, max, i)->Complete_0;
            i < k <= max && next_of(page_at(pages, link(pages, first, (k - 1) as nat))) == 0
        }),
    decreases max - i,
{
    if i < max && next_of(page_at(pages, link(pages, first, i))) != 0 {
        lemma_chain_ends(pages, first, max, i + 1);
    }
}

/// A complete chain of good pages can be read.
pub proof fn lemma_chain_reads(c: &PageCache, good: Set<u64>, first: u64, e: ChiselError)
    requires
        chain_complete(c.contents(), first),
        chain_pages(c.contents(), first).subset_of(good),
        forall|id: u64| #[trigger] good.contains(id) ==> c.sound(id),
    ensures
        chain_explains(c, first, e) ==> too_many(c, e, 0),
{
    let pages = c.contents();
    if chain_explains(c, first, e) {
        let i = choose|i: nat| reaches(pages, first, i) && c.explains(e, #[trigger] link(pages, first, i));
        let max = pages_for(claimed_length(page_at(pages, first)));
        lemma_chain_ends(pages, first, max, 0);
        if i >= max {
            assert(next_of(page_at(pages, link(pages, first, (max - 1) as nat))) != 0);
        }
        assert(chain_pages(pages, first).contains(link(pages, first, i)));
    }
}

/// A sound index has no page that cannot be read.
pub proof fn lemma_index_reads(c: &PageCache, good: Set<u64>, r: Roots, tag: u32, e: ChiselError)
    requires
        sound_store(c.contents(), good, r),
        forall|id: u64| #[trigger] good.contains(id) ==> c.sound(id),
    ensures
        index_explains(c, r.index_root, r.index_depth as nat, tag, e) ==> too_many(c, e, 0),
{
    reveal(sound_store);
    let pages = c.contents();
    let d = r.index_depth as nat;
    let b = SLOTS_PER_PAGE as nat;
    let roots = index_roots(pages, r.index_root, d);
    if index_explains(c, r.index_root, d, tag, e) && !too_many(c, e, 0) {
        if r.index_root != PAGE_ID_NONE && path_unsound(c, b, r.index_root, d, tag as nat, e) {
            assert(roots(None) == Some((r.index_root, d)));
            lemma_tree_reads(c, good, b, r.index_root, d, e);
            assert(tag < reach(b, d));
        }
        assert(roots(Some(tag)) is Some || roots(Some(tag)) is None);
        if roots(Some(tag)) is Some {
            let p = roots(Some(tag))->0;
            lemma_tree_reads(c, good, b, p.0, p.1, e);
        }
    }
}

/// Good pages can be read.
pub proof fn lemma_good_reads(w: &Workspace)
    ensures
        forall|id: u64| #[trigger]
            good(&w.cache, &w.recycler, w.slots).contains(id) ==> w.cache.sound(id),
{
}

impl Workspace {
    /// The table as its depth says.
    pub fn table(&self) -> (table: HandleTable)
        ensures
            table.spec_depth() == self.roots.table_depth,
    {
        let mut table = HandleTable::new();
        table.set_depth(self.roots.table_depth);
        table
    }

    /// The pages can be read, whatever they hold.
    pub open spec fn readable(&self) -> bool {
        &&& self.cache.inv()
        &&& self.cache.bounded()
        &&& self.roots.table_root != PAGE_ID_NONE ==> self.roots.table_depth <= 6
        &&& self.roots.index_depth <= 6
    }

    /// A sound state can be read.
    pub proof fn lemma_readable(&self)
        requires
            self.usable(),
            self.holds(self.roots, self.freed@, self.cursor),
        ensures
            self.readable(),
    {
        reveal(sound_store);
    }

    /// `e` is the error of reading a page that leads to the entry of a handle.
    pub open spec fn entry_damaged(&self, h: u64, e: ChiselError) -> bool {
        self.roots.table_root != PAGE_ID_NONE && path_unsound(
            &self.cache,
            ENTRIES_PER_LEAF as nat,
            self.roots.table_root,
            self.roots.table_depth as nat,
            h as nat,
            e,
        )
    }

    /// `e` is the error of reading a page of the value of an entry, or says what is
    /// wrong with it.
    pub open spec fn value_damaged(&self, entry: HandleEntry, e: ChiselError) -> bool {
        let pages = self.cache.contents();
        if entry.flags == HandleFlags::Overflow {
            ||| read_defect(pages, entry.page_id) == Some(e)
            ||| exists|i: nat|
                reaches(pages, entry.page_id, i) && !self.cache.sound(#[trigger] link(pages, entry.page_id, i)) && e
                    == self.cache.read_error(link(pages, entry.page_id, i))
        } else {
            ||| !self.cache.sound(entry.page_id) && e == self.cache.read_error(entry.page_id)
            ||| slot_value(page_at(pages, entry.page_id), entry.slot_index as int) is None && e == (
            ChiselError::CorruptPage { page_id: entry.page_id })
        }
    }

    /// The entry of a handle. Fails for good if a page of the table is damaged.
    pub fn entry(&mut self, handle: u64) -> (outcome: Result<Option<HandleEntry>, ChiselError>)
        requires
            old(self).readable(),
        ensures
            looked(old(self), final(self)),
            match outcome {
                Ok(found) => found == entry_of(old(self).cache.contents(), old(self).roots, handle),
                Err(e) => overrun(&old(self).cache, &final(self).cache, e, 0) || {
                    &&& e.spec_is_fatal()
                    &&& old(self).entry_damaged(handle, e)
                    &&& !(old(self).usable() && old(self).holds(old(self).roots, old(self).freed@, old(self).cursor))
                },
            },
    {
        if self.roots.table_root == PAGE_ID_NONE {
            return Ok(None);
        }
        let table = self.table();
        let outcome = table.lookup(&mut self.cache, self.roots.table_root, handle);
        proof {
            let w0 = *old(self);
            if outcome is Err && w0.usable() && w0.holds(w0.roots, w0.freed@, w0.cursor) {
                reveal(sound_store);
                lemma_good_reads(&w0);
                lemma_tree_reads(
                    &w0.cache,
                    good(&w0.cache, &w0.recycler, w0.slots),
                    ENTRIES_PER_LEAF as nat,
                    w0.roots.table_root,
                    w0.roots.table_depth as nat,
                    outcome->Err_0,
                );
            }
        }
        outcome
    }

    /// The value of an entry. Fails for good if a page of it is damaged.
    pub fn value(&mut self, entry: &HandleEntry) -> (outcome: Result<Vec<u8>, ChiselError>)
        requires
            old(self).readable(),
            entry.flags != HandleFlags::Deleted,
        ensures
            looked(old(self), final(self)),
            match outcome {
                Ok(value) => value@ == value_of(old(self).cache.contents(), *entry),
                Err(e) => overrun(&old(self).cache, &final(self).cache, e, 0) || {
                    &&& e.spec_is_fatal()
                    &&& old(self).value_damaged(*entry, e)
                    &&& !value_ok(
                        old(self).cache.contents(),
                        good(&old(self).cache, &old(self).recycler, old(self).slots),
                        *entry,
                    )
                },
            },
    {
        let ghost g = good(&self.cache, &self.recycler, self.slots);
        let ghost ok = value_ok(self.cache.contents(), g, *entry);
        proof {
            lemma_good_reads(self);
            self.cache.lemma_explains(entry.page_id);
        }
        if matches!(entry.flags, HandleFlags::Overflow) {
            let outcome = Overflow::read(&mut self.cache, entry.page_id);
            proof {
                if outcome is Err && ok {
                    lemma_chain_reads(&old(self).cache, g, entry.page_id, outcome->Err_0);
                }
                if outcome is Err && chain_explains(&old(self).cache, entry.page_id, outcome->Err_0) {
                    let e = outcome->Err_0;
                    let pages = old(self).cache.contents();
                    let i = choose|i: nat|
                        reaches(pages, entry.page_id, i) && old(self).cache.explains(
                            e,
                            #[trigger] link(pages, entry.page_id, i),
                        );
                    assert(old(self).cache.explains(e, link(pages, entry.page_id, i)));
                }
            }
            return outcome;
        }
        proof {
            if ok {
                assert(value_pages(self.cache.contents(), *entry).contains(entry.page_id));
            }
        }
        match self.cache.get(entry.page_id) {
            Ok(buf) => match DataPage::read(buf, entry.slot_index) {
                Some(bytes) => Ok(vstd::slice::slice_to_vec(bytes)),
                None => Err(ChiselError::CorruptPage { page_id: entry.page_id }),
            },
            Err(e) => Err(e),
        }
    }
}

} // verus!
