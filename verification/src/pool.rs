//! The pages of a database under change: which are in use, which can be taken.

use vstd::prelude::*;

use crate::data_page::well_packed;
use crate::handle_table::HandleFlags;
use crate::page::{checksum_ok, PAGE_ID_NONE};
use crate::page_cache::PageCache;
use crate::page_source::{agree_on, cow_step, lemma_cow_edit, taken, PageSource};
use crate::radix::{page_at, same_on};
use crate::recycler::Recycler;
use crate::spine::{edited, taken_pages};
use crate::store::{data_only, entry_of, lemma_store_kept, same_store, slots_kept, sound_store, unused, Roots};

verus! {

/// The pages that a database may use: past the superblock slots, matching their
/// checksum, and not the source's to hand out.
pub open spec fn good(c: &PageCache, s: &Recycler, n: u32) -> Set<u64> {
    Set::new(
        |id: u64|
            n <= id && c.contents().contains_key(id) && checksum_ok(c.contents()[id]) && !s.footprint(c).contains(id),
    )
}

/// Cache and source can be used; the source does not hand out superblock slots.
pub open spec fn pool_ok(c: &PageCache, s: &Recycler, n: u32) -> bool {
    &&& c.inv()
    &&& c.bounded()
    &&& s.ready(c)
    &&& 2 <= n <= c.watermark()
    &&& forall|id: u64| id < n ==> !(#[trigger] s.footprint(c).contains(id))
}

/// The database with these roots is sound.
pub open spec fn store_ok(c: &PageCache, s: &Recycler, n: u32, r: Roots) -> bool {
    sound_store(c.contents(), good(c, s, n), r)
}

/// A page is past the superblock slots and in use by nothing, and the source
/// does not know of it.
pub open spec fn stray(c: &PageCache, s: &Recycler, n: u32, r: Roots, id: u64) -> bool {
    &&& n <= id < c.watermark()
    &&& !s.footprint(c).contains(id)
    &&& unused(c.contents(), r, id)
}

/// A data page that values can be added to.
pub open spec fn bin_ok(c: &PageCache, s: &Recycler, n: u32, id: u64) -> bool {
    &&& good(c, s, n).contains(id)
    &&& c.unsaved().contains(id)
    &&& well_packed(c.contents()[id])
}

/// The number of values that each data page holds.
pub open spec fn counts_ok(live: Map<u64, u64>, pages: Map<u64, Seq<u8>>, r: Roots) -> bool {
    forall|p: u64| #[trigger] live.contains_key(p) == (residents(pages, r, p).len() > 0) && (live.contains_key(p)
        ==> live[p] == residents(pages, r, p).len())
}

/// The handles whose values a data page holds.
pub open spec fn residents(pages: Map<u64, Seq<u8>>, r: Roots, p: u64) -> Set<u64> {
    Set::new(
        |h: u64| (entry_of(pages, r, h) matches Some(e) && e.flags == HandleFlags::Live && e.page_id == p),
    )
}

/// What a step of the source means for a database.
pub proof fn lemma_store_cow(s0: &Recycler, c0: &PageCache, s1: &Recycler, c1: &PageCache, m: nat, n: u32, r: Roots)
    requires
        pool_ok(c0, s0, n),
        cow_step(s0, c0, s1, c1, m),
        store_ok(c0, s0, n, r),
    ensures
        store_ok(c1, s1, n, r),
        same_store(c0.contents(), c1.contents(), r),
{
    lemma_pool_cow(s0, c0, s1, c1, m, n);
    lemma_store_kept(c0.contents(), c1.contents(), good(c0, s0, n), good(c1, s1, n), r, PAGE_ID_NONE);
}

/// What a step of the source means for the pages.
pub proof fn lemma_pool_cow(s0: &Recycler, c0: &PageCache, s1: &Recycler, c1: &PageCache, m: nat, n: u32)
    requires
        pool_ok(c0, s0, n),
        cow_step(s0, c0, s1, c1, m),
    ensures
        pool_ok(c1, s1, n),
        good(c0, s0, n).subset_of(good(c1, s1, n)),
        same_on(c0.contents(), c1.contents(), good(c0, s0, n)),
        !good(c0, s0, n).contains(PAGE_ID_NONE),
        taken_pages(s0, c0, s1, c1).subset_of(good(c1, s1, n)),
        taken_pages(s0, c0, s1, c1).disjoint(good(c0, s0, n)),
        forall|id: u64| bin_ok(c0, s0, n, id) ==> #[trigger] bin_ok(c1, s1, n, id),
        forall|id: u64|
            bin_ok(c0, s0, n, id) ==> #[trigger] c1.contents()[id] == c0.contents()[id],
{
    reveal(agree_on);
    let g0 = good(c0, s0, n);
    let g1 = good(c1, s1, n);
    assert forall|id: u64| #[trigger] g0.contains(id) implies g1.contains(id) && page_at(c0.contents(), id) == page_at(
        c1.contents(),
        id,
    ) by {
        assert(s0.footprint(c0).complement().contains(id));
    }
    assert forall|id: u64| #[trigger] taken_pages(s0, c0, s1, c1).contains(id) implies g1.contains(id) by {
        assert(taken(s0, c0, s1, c1, id));
        assert(s0.footprint(c0).contains(id));
    }
    assert(s0.footprint(c0).contains(PAGE_ID_NONE));
    assert forall|id: u64| bin_ok(c0, s0, n, id) implies #[trigger] bin_ok(c1, s1, n, id) && c1.contents()[id]
        == c0.contents()[id] by {
        assert(s0.footprint(c0).complement().contains(id));
    }
}

/// Adding values to a data page.
pub open spec fn appended(c0: &PageCache, c1: &PageCache, x: u64) -> bool {
    &&& edited(c0, c1, x)
    &&& slots_kept(page_at(c0.contents(), x), page_at(c1.contents(), x))
    &&& checksum_ok(c1.contents()[x])
    &&& well_packed(c1.contents()[x])
}

/// What adding values to a data page means for the pages.
pub proof fn lemma_pool_append(s: &Recycler, c0: &PageCache, c1: &PageCache, n: u32, x: u64)
    requires
        pool_ok(c0, s, n),
        bin_ok(c0, s, n, x),
        appended(c0, c1, x),
    ensures
        pool_ok(c1, s, n),
        s.footprint(c1) == s.footprint(c0),
        s.settled(c0) ==> s.settled(c1),
        good(c1, s, n) == good(c0, s, n),
        same_on(c0.contents(), c1.contents(), good(c0, s, n).remove(x)),
        forall|id: u64| bin_ok(c0, s, n, id) ==> #[trigger] bin_ok(c1, s, n, id),
{
    lemma_cow_edit(s, c0, c1, x);
    assert(c1.unsaved() =~= c0.unsaved());
    assert(good(c1, s, n) =~= good(c0, s, n)) by {
        assert forall|id: u64| good(c1, s, n).contains(id) == good(c0, s, n).contains(id) by {
            assert(c1.contents().dom().contains(id) == c0.contents().dom().contains(id));
        }
    }
    assert forall|id: u64| bin_ok(c0, s, n, id) implies #[trigger] bin_ok(c1, s, n, id) by {
        assert(c1.contents().dom().contains(id) == c0.contents().dom().contains(id));
    }
}

/// What adding values to a data page means for a database.
pub proof fn lemma_store_append(s: &Recycler, c0: &PageCache, c1: &PageCache, n: u32, r: Roots, x: u64)
    requires
        pool_ok(c0, s, n),
        bin_ok(c0, s, n, x),
        appended(c0, c1, x),
        store_ok(c0, s, n, r),
        data_only(c0.contents(), r, x),
    ensures
        store_ok(c1, s, n, r),
        same_store(c0.contents(), c1.contents(), r),
{
    lemma_pool_append(s, c0, c1, n, x);
    lemma_store_kept(c0.contents(), c1.contents(), good(c0, s, n), good(c1, s, n), r, x);
}

/// The counts depend on the entries only.
pub proof fn lemma_same_counts(live: Map<u64, u64>, p0: Map<u64, Seq<u8>>, p1: Map<u64, Seq<u8>>, r0: Roots, r1: Roots)
    requires
        counts_ok(live, p0, r0),
        forall|h: u64| #[trigger] entry_of(p1, r1, h) == entry_of(p0, r0, h),
    ensures
        counts_ok(live, p1, r1),
{
    assert forall|p: u64| #[trigger] live.contains_key(p) == (residents(p1, r1, p).len() > 0) && (live.contains_key(p)
        ==> live[p] == residents(p1, r1, p).len()) by {
        assert(residents(p1, r1, p) =~= residents(p0, r0, p)) by {
            assert forall|h: u64| residents(p1, r1, p).contains(h) == residents(p0, r0, p).contains(h) by {
                assert(entry_of(p1, r1, h) == entry_of(p0, r0, h));
            }
        }
    }
}

/// A data page holds finitely many values.
pub proof fn lemma_residents_finite(pages: Map<u64, Seq<u8>>, g: Set<u64>, r: Roots, p: u64)
    requires
        sound_store(pages, g, r),
    ensures
        residents(pages, r, p).finite(),
        residents(pages, r, p).len() < r.next_handle,
{
    reveal(sound_store);
    lemma_below_len(r.next_handle);
    let all = Set::new(|h: u64| h < r.next_handle);
    assert(all.contains(0));
    assert forall|h: u64| residents(pages, r, p).contains(h) implies #[trigger] all.remove(0).contains(h) by {
        assert(entry_of(pages, r, h) is Some);
    }
    vstd::set_lib::lemma_len_subset(residents(pages, r, p), all.remove(0));
}

/// How many numbers are below a bound.
pub proof fn lemma_below_len(n: u64)
    ensures
        Set::new(|h: u64| h < n).len() == n,
        Set::new(|h: u64| h < n).finite(),
    decreases n,
{
    if n == 0 {
        assert(Set::new(|h: u64| h < n) =~= Set::<u64>::empty());
    } else {
        let m = (n - 1) as u64;
        lemma_below_len(m);
        assert(Set::new(|h: u64| h < n) =~= Set::new(|h: u64| h < m).insert(m));
    }
}

} // verus!
