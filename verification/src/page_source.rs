//! Where copy-on-write structures get their pages from.

use vstd::prelude::*;

use crate::error::ChiselError;
use crate::page::PAGE_ID_NONE;
use crate::page_cache::PageCache;
use crate::page_io::zero_page;

verus! {

/// The two caches hold the same bytes, saved or not, for every page in `ids`.
#[verifier::opaque]
pub open spec fn agree_on(a: &PageCache, b: &PageCache, ids: Set<u64>) -> bool {
    &&& forall|id: u64| #[trigger]
        ids.contains(id) ==> {
            &&& a.contents().contains_key(id) == b.contents().contains_key(id)
            &&& a.contents().contains_key(id) ==> a.contents()[id] == b.contents()[id]
            &&& a.unsaved().contains(id) == b.unsaved().contains(id)
        }
}

/// What agreement says about one page.
pub proof fn lemma_agree_at(a: &PageCache, b: &PageCache, ids: Set<u64>, id: u64)
    requires
        agree_on(a, b, ids),
        ids.contains(id),
    ensures
        a.contents().contains_key(id) == b.contents().contains_key(id),
        a.contents().contains_key(id) ==> a.contents()[id] == b.contents()[id],
        a.unsaved().contains(id) == b.unsaved().contains(id),
        a.disk() == b.disk() ==> a.sound(id) == b.sound(id) && a.read_error(id) == b.read_error(id),
{
    reveal(agree_on);
}

/// Every page below the watermark is there.
pub open spec fn filled(c: &PageCache) -> bool {
    forall|id: u64| id < c.watermark() ==> #[trigger] c.contents().contains_key(id)
}

/// Settings and storage agree, the watermark has moved by at most `n`, and at
/// most `n` more pages are unsaved, and not fewer. No page has gone.
pub open spec fn grown_by(a: &PageCache, b: &PageCache, n: nat) -> bool {
    &&& b.same_config(a)
    &&& b.disk() == a.disk()
    &&& b.storage() == a.storage()
    &&& a.watermark() <= b.watermark() <= a.watermark() + n
    &&& a.pending() <= b.pending() <= a.pending() + n
    &&& filled(a) ==> filled(b)
}

/// The `n` ids from `start` on.
pub open spec fn ids_from(start: u64, n: nat) -> Set<u64> {
    Set::new(|id: u64| start <= id < start + n)
}

/// `b` is `a` with `n` more pages, from the watermark of `a` on.
pub open spec fn extended(a: &PageCache, b: &PageCache, n: nat) -> bool {
    &&& b.same_config(a)
    &&& b.disk() == a.disk()
    &&& b.storage() == a.storage()
    &&& b.watermark() == a.watermark() + n
    &&& b.unsaved() == a.unsaved().union(ids_from(a.watermark(), n))
    &&& b.pending() == a.pending() + n
    &&& b.contents().dom() == a.contents().dom().union(ids_from(a.watermark(), n))
    &&& forall|id: u64| !ids_from(a.watermark(), n).contains(id) ==> #[trigger] b.contents()[id] == a.contents()[id]
}

/// One new page extends the cache.
pub proof fn lemma_extended_by_one(a: &PageCache, b: &PageCache)
    requires
        b.same_config(a),
        b.disk() == a.disk(),
        b.storage() == a.storage(),
        b.watermark() == a.watermark() + 1,
        b.unsaved() =~= a.unsaved().insert(a.watermark()),
        b.pending() == a.pending() + 1,
        b.contents() =~= a.contents().insert(a.watermark(), b.contents()[a.watermark()]),
    ensures
        extended(a, b, 1),
{
    assert(b.unsaved() =~= a.unsaved().union(ids_from(a.watermark(), 1)));
    assert(b.contents().dom() =~= a.contents().dom().union(ids_from(a.watermark(), 1)));
}

/// A source of fresh pages for copy-on-write.
pub trait PageSource {
    /// The source can be asked for pages of `cache`.
    spec fn ready(&self, cache: &PageCache) -> bool;

    /// Every page that the source may hand out or write to.
    spec fn footprint(&self, cache: &PageCache) -> Set<u64>;

    /// The pages that are handed out before the storage is extended.
    spec fn spare(&self, cache: &PageCache) -> Set<u64>;

    /// The source knows of every page in its footprint what has become of it.
    spec fn settled(&self, cache: &PageCache) -> bool;

    /// Bound on the pages that one request newly allocates.
    spec fn growth() -> nat;

    /// What no request changes about the source.
    spec fn anchor(&self) -> (u64, nat);

    /// Changes to pages outside the footprint do not concern the source.
    proof fn lemma_frame(&self, a: &PageCache, b: &PageCache)
        requires
            a.inv(),
            b.inv(),
            self.ready(a),
            agree_on(a, b, self.footprint(a)),
            b.same_config(a),
            b.disk() == a.disk(),
            b.watermark() == a.watermark(),
        ensures
            self.ready(b),
            self.footprint(b) == self.footprint(a),
            self.settled(a) ==> self.settled(b),
    ;

    /// The cache can be extended past the source: new pages lie in the footprint
    /// and leave it.
    proof fn lemma_extend(&self, a: &PageCache, b: &PageCache, n: nat)
        requires
            a.inv(),
            a.bounded(),
            b.inv(),
            b.bounded(),
            self.ready(a),
            extended(a, b, n),
        ensures
            self.ready(b),
            ids_from(a.watermark(), n).subset_of(self.footprint(a)),
            self.footprint(b) == self.footprint(a).difference(ids_from(a.watermark(), n)),
            self.settled(a) ==> self.settled(b),
    ;

    /// Hand out a zero page: the lowest spare one, and a new one only if there is
    /// none. It leaves the footprint, which loses nothing else, and nothing outside
    /// the footprint changes. Fails only if the limits of the cache are exceeded.
    fn next_page(&mut self, cache: &mut PageCache) -> (outcome: Result<u64, ChiselError>)
        requires
            old(cache).inv(),
            old(cache).bounded(),
            old(self).ready(old(cache)),
            old(cache).watermark() + Self::growth() <= usize::MAX,
        ensures
            final(cache).inv(),
            final(cache).bounded(),
            final(self).ready(final(cache)),
            final(self).footprint(final(cache)).subset_of(old(self).footprint(old(cache))),
            final(self).anchor() == old(self).anchor(),
            grown_by(old(cache), final(cache), Self::growth()),
            agree_on(old(cache), final(cache), old(self).footprint(old(cache)).complement()),
            match outcome {
                Ok(id) => {
                    &&& id != 0
                    &&& old(self).footprint(old(cache)).contains(id)
                    &&& if old(self).spare(old(cache)).contains(id) {
                        forall|k: u64| #[trigger] old(self).spare(old(cache)).contains(k) ==> id <= k
                    } else {
                        id >= old(cache).watermark() && old(self).spare(old(cache)) == Set::<u64>::empty()
                    }
                    &&& final(self).footprint(final(cache)) == old(self).footprint(old(cache)).remove(id)
                    &&& old(self).settled(old(cache)) ==> final(self).settled(final(cache))
                    &&& final(cache).contents().contains_key(id)
                    &&& final(cache).contents()[id] == zero_page()
                    &&& final(cache).unsaved().contains(id)
                },
                Err(e) => overrun(old(cache), final(cache), e, Self::growth()),
            },
    ;
}

/// The limits of the cache do not hold `n` more dirty pages, and `e` says so.
pub open spec fn too_many(cache: &PageCache, e: ChiselError, n: nat) -> bool {
    cache.pending() + n > cache.capacity() && e == cache.pressure_error()
}

/// `e` says that the limits of the cache are passed, as they then are. They would
/// not be if they held `n` more dirty pages than there were before.
pub open spec fn overrun(before: &PageCache, after: &PageCache, e: ChiselError, n: nat) -> bool {
    &&& too_many(before, e, n)
    &&& after.pending() > after.capacity()
}

/// What every step of a copy-on-write operation keeps, whatever its outcome:
/// the source stays usable, its footprint only shrinks, and nothing outside
/// the footprint changes. While the limits of the cache allow every request, the
/// source stays settled.
pub open spec fn cow_step<A: PageSource>(
    source0: &A,
    cache0: &PageCache,
    source1: &A,
    cache1: &PageCache,
    n: nat,
) -> bool {
    &&& cache1.inv()
    &&& cache1.bounded()
    &&& source1.ready(cache1)
    &&& source1.footprint(cache1).subset_of(source0.footprint(cache0))
    &&& source1.anchor() == source0.anchor()
    &&& grown_by(cache0, cache1, n)
    &&& agree_on(cache0, cache1, source0.footprint(cache0).complement())
    &&& source0.settled(cache0) && cache0.pending() + n <= cache0.capacity() ==> source1.settled(cache1)
}

/// `id` was taken out of the footprint and holds unsaved contents.
pub open spec fn taken<A: PageSource>(
    source0: &A,
    cache0: &PageCache,
    source1: &A,
    cache1: &PageCache,
    id: u64,
) -> bool {
    &&& id != 0
    &&& source0.footprint(cache0).contains(id)
    &&& !source1.footprint(cache1).contains(id)
    &&& cache1.contents().contains_key(id)
    &&& cache1.unsaved().contains(id)
}

/// A page that was taken has an ordinary id.
pub proof fn lemma_taken_id<A: PageSource>(
    source0: &A,
    cache0: &PageCache,
    source1: &A,
    cache1: &PageCache,
    id: u64,
)
    requires
        cache1.inv(),
        cache1.bounded(),
        taken(source0, cache0, source1, cache1, id),
    ensures
        id != PAGE_ID_NONE,
        id < cache1.watermark(),
{
}

/// Two steps make one.
pub proof fn lemma_cow_chain<A: PageSource>(
    source0: &A,
    cache0: &PageCache,
    source1: &A,
    cache1: &PageCache,
    source2: &A,
    cache2: &PageCache,
    n: nat,
    m: nat,
)
    requires
        cow_step(source0, cache0, source1, cache1, n),
        cow_step(source1, cache1, source2, cache2, m),
    ensures
        cow_step(source0, cache0, source2, cache2, n + m),
        forall|id: u64| taken(source0, cache0, source1, cache1, id) ==> #[trigger] taken(
            source0,
            cache0,
            source2,
            cache2,
            id,
        ) && cache2.contents()[id] == cache1.contents()[id],
        forall|id: u64| taken(source1, cache1, source2, cache2, id) ==> #[trigger] taken(
            source0,
            cache0,
            source2,
            cache2,
            id,
        ),
        forall|e: ChiselError| #[trigger] too_many(cache1, e, m) ==> too_many(cache0, e, n + m),
{
    reveal(agree_on);
    let f0 = source0.footprint(cache0);
    let f1 = source1.footprint(cache1);
    assert forall|id: u64| #[trigger] f0.complement().contains(id) implies f1.complement().contains(id) by {}
    assert forall|id: u64| taken(source0, cache0, source1, cache1, id) implies #[trigger] taken(
        source0,
        cache0,
        source2,
        cache2,
        id,
    ) && cache2.contents()[id] == cache1.contents()[id] by {
        assert(f1.complement().contains(id));
    }
}

/// A bound on new pages can be raised.
pub proof fn lemma_cow_more<A: PageSource>(
    source0: &A,
    cache0: &PageCache,
    source1: &A,
    cache1: &PageCache,
    n: nat,
    k: nat,
)
    requires
        cow_step(source0, cache0, source1, cache1, n),
        n <= k,
    ensures
        cow_step(source0, cache0, source1, cache1, k),
{
}

/// Extending the cache past the source is a step.
pub proof fn lemma_cow_extend<A: PageSource>(source: &A, a: &PageCache, b: &PageCache, n: nat)
    requires
        a.inv(),
        a.bounded(),
        b.inv(),
        b.bounded(),
        a.watermark() > 0,
        source.ready(a),
        extended(a, b, n),
    ensures
        cow_step(source, a, source, b, n),
        forall|id: u64| a.watermark() <= id < a.watermark() + n ==> #[trigger] taken(source, a, source, b, id),
        forall|id: u64| #[trigger]
            source.footprint(a).contains(id) ==> source.footprint(b).contains(id) || a.watermark() <= id < a.watermark()
                + n,
{
    reveal(agree_on);
    source.lemma_extend(a, b, n);
    let fresh = ids_from(a.watermark(), n);
    assert forall|id: u64| #[trigger] source.footprint(a).complement().contains(id) implies {
        &&& a.contents().contains_key(id) == b.contents().contains_key(id)
        &&& a.contents().contains_key(id) ==> a.contents()[id] == b.contents()[id]
        &&& a.unsaved().contains(id) == b.unsaved().contains(id)
    } by {
        assert(!fresh.contains(id));
        assert(b.contents().dom().contains(id) == a.contents().dom().contains(id));
        assert(b.contents()[id] == a.contents()[id]);
    }
    assert forall|id: u64| a.watermark() <= id < a.watermark() + n implies #[trigger] taken(
        source,
        a,
        source,
        b,
        id,
    ) by {
        assert(fresh.contains(id));
        assert(b.contents().dom().contains(id));
    }
}

/// Looking at pages is a step.
pub proof fn lemma_cow_look<A: PageSource>(source: &A, a: &PageCache, b: &PageCache)
    requires
        a.inv(),
        a.bounded(),
        b.inv(),
        source.ready(a),
        b.same_pages(a),
    ensures
        cow_step(source, a, source, b, 0),
        source.footprint(b) == source.footprint(a),
{
    reveal(agree_on);
    source.lemma_frame(a, b);
}

/// Changing a page outside the footprint that is unsaved already is a step,
/// except that this page changes.
pub proof fn lemma_cow_edit<A: PageSource>(source: &A, a: &PageCache, b: &PageCache, n: u64)
    requires
        a.inv(),
        a.bounded(),
        b.inv(),
        source.ready(a),
        !source.footprint(a).contains(n),
        a.unsaved().contains(n),
        a.contents().contains_key(n),
        b.same_config(a),
        b.disk() == a.disk(),
        b.storage() == a.storage(),
        b.watermark() == a.watermark(),
        b.contents() == a.contents().insert(n, b.contents()[n]),
        b.unsaved() == a.unsaved().insert(n),
        b.pending() == a.pending(),
    ensures
        b.bounded(),
        source.ready(b),
        source.footprint(b) == source.footprint(a),
        grown_by(a, b, 0),
        agree_on(a, b, Set::<u64>::full().remove(n)),
        source.settled(a) ==> source.settled(b),
{
    reveal(agree_on);
    assert(b.unsaved() =~= a.unsaved());
    source.lemma_frame(a, b);
}

/// Editing a page that a step took out of the footprint extends the step.
pub proof fn lemma_cow_edit_taken<A: PageSource>(
    source0: &A,
    cache0: &PageCache,
    source1: &A,
    cache1: &PageCache,
    b: &PageCache,
    id: u64,
    n: nat,
)
    requires
        cow_step(source0, cache0, source1, cache1, n),
        taken(source0, cache0, source1, cache1, id),
        b.inv(),
        b.same_config(cache1),
        b.disk() == cache1.disk(),
        b.storage() == cache1.storage(),
        b.watermark() == cache1.watermark(),
        b.contents() == cache1.contents().insert(id, b.contents()[id]),
        b.unsaved() == cache1.unsaved().insert(id),
        b.pending() == cache1.pending(),
    ensures
        cow_step(source0, cache0, source1, b, n),
        source1.footprint(b) == source1.footprint(cache1),
        taken(source0, cache0, source1, b, id),
        forall|x: u64| taken(source0, cache0, source1, cache1, x) ==> #[trigger] taken(
            source0,
            cache0,
            source1,
            b,
            x,
        ),
        forall|x: u64| x != id ==> #[trigger] b.contents()[x] == cache1.contents()[x],
{
    reveal(agree_on);
    lemma_cow_edit(source1, cache1, b, id);
    assert forall|x: u64| #[trigger] source0.footprint(cache0).complement().contains(x) implies {
        &&& cache0.contents().contains_key(x) == b.contents().contains_key(x)
        &&& cache0.contents().contains_key(x) ==> cache0.contents()[x] == b.contents()[x]
        &&& cache0.unsaved().contains(x) == b.unsaved().contains(x)
    } by {
        assert(x != id);
    }
}

/// Take a page from the source and copy page `page` to it.
pub fn cow_page<A: PageSource>(cache: &mut PageCache, source: &mut A, page: u64) -> (outcome: Result<
    u64,
    ChiselError,
>)
    requires
        old(cache).inv(),
        old(cache).bounded(),
        old(source).ready(old(cache)),
        old(cache).watermark() + A::growth() <= usize::MAX,
        !old(source).footprint(old(cache)).contains(page),
    ensures
        cow_step(old(source), old(cache), final(source), final(cache), A::growth()),
        match outcome {
            Ok(n) => {
                &&& taken(old(source), old(cache), final(source), final(cache), n)
                &&& final(source).footprint(final(cache)) == old(source).footprint(old(cache)).remove(n)
                &&& old(cache).contents().contains_key(page)
                &&& final(cache).contents()[n] == old(cache).contents()[page]
            },
            Err(e) => overrun(old(cache), final(cache), e, A::growth()) || !old(cache).sound(page) && e == old(cache).read_error(
                page,
            ),
        },
{
    let n: u64 = match source.next_page(cache) {
        Ok(n) => n,
        Err(e) => {
            return Err(e);
        },
    };
    let ghost mid = *cache;
    proof {
        lemma_agree_at(old(cache), cache, old(source).footprint(old(cache)).complement(), page);
    }
    match cache.copy_page(page, n) {
        Ok(_) => {
            proof {
                lemma_cow_edit_taken(old(source), old(cache), source, &mid, cache, n, A::growth());
            }
            Ok(n)
        },
        Err(e) => {
            proof {
                lemma_cow_look(source, &mid, cache);
                lemma_cow_chain(old(source), old(cache), source, &mid, source, cache, A::growth(), 0);
            }
            Err(e)
        },
    }
}

/// The source that extends the storage: every page is new.
pub struct Extend;

impl PageSource for Extend {
    open spec fn ready(&self, cache: &PageCache) -> bool {
        cache.watermark() > 0
    }

    open spec fn footprint(&self, cache: &PageCache) -> Set<u64> {
        Set::new(|id: u64| id >= cache.watermark())
    }

    open spec fn spare(&self, cache: &PageCache) -> Set<u64> {
        Set::<u64>::empty()
    }

    open spec fn settled(&self, cache: &PageCache) -> bool {
        true
    }

    open spec fn growth() -> nat {
        1
    }

    open spec fn anchor(&self) -> (u64, nat) {
        (0, 0)
    }

    proof fn lemma_frame(&self, a: &PageCache, b: &PageCache) {
    }

    proof fn lemma_extend(&self, a: &PageCache, b: &PageCache, n: nat) {
        assert(self.footprint(b) =~= self.footprint(a).difference(ids_from(a.watermark(), n)));
    }

    fn next_page(&mut self, cache: &mut PageCache) -> (outcome: Result<u64, ChiselError>) {
        proof {
            reveal(agree_on);
        }
        let fresh = cache.new_page();
        proof {
            if fresh is Ok {
                assert(self.footprint(cache) =~= old(self).footprint(old(cache)).remove(fresh->Ok_0));
            }
        }
        fresh
    }
}

} // verus!
