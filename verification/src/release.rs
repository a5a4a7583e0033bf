//! Giving up the pages of values that are no longer there.

use vstd::prelude::*;

use rustc_hash::FxHashMap;

use crate::entries::old_nodes_only;
use crate::fx::{map_get, map_insert, map_remove};
use crate::handle_table::{HandleEntry, HandleFlags};
use crate::pool::{counts_ok, good, lemma_residents_finite, residents, stray};
use crate::store::{entry_of, holds_value, sound_store, value_pages, Roots};
use crate::workspace::{evolved, lemma_evolved_state, Workspace};

verus! {

/// The number of values that a page is said to hold.
pub open spec fn count_of(live: Map<u64, u64>, page: u64) -> int {
    if live.contains_key(page) {
        live[page] as int
    } else {
        0
    }
}

/// A value is on a data page: 1, or 0 if it is not.
pub open spec fn on_page(entry: Option<HandleEntry>, page: u64) -> int {
    if entry matches Some(e) && e.flags == HandleFlags::Live && e.page_id == page {
        1
    } else {
        0
    }
}

/// A value has moved, come or gone.
pub open spec fn recounted(
    live0: Map<u64, u64>,
    live1: Map<u64, u64>,
    before: Option<HandleEntry>,
    after: Option<HandleEntry>,
) -> bool {
    &&& forall|p: u64| #[trigger]
        count_of(live1, p) == count_of(live0, p) - on_page(before, p) + on_page(after, p)
    &&& forall|p: u64| #[trigger] live1.contains_key(p) ==> live1[p] > 0
}

/// The counts are right again.
pub proof fn lemma_recounted(
    live0: Map<u64, u64>,
    live1: Map<u64, u64>,
    p0: Map<u64, Seq<u8>>,
    r0: Roots,
    p1: Map<u64, Seq<u8>>,
    r1: Roots,
    g: Set<u64>,
    h: u64,
    after: Option<HandleEntry>,
)
    requires
        counts_ok(live0, p0, r0),
        sound_store(p0, g, r0),
        recounted(live0, live1, entry_of(p0, r0, h), after),
        forall|k: u64| #[trigger]
            entry_of(p1, r1, k) == (if k == h {
                after
            } else {
                entry_of(p0, r0, k)
            }),
    ensures
        counts_ok(live1, p1, r1),
{
    let before = entry_of(p0, r0, h);
    assert forall|p: u64| #[trigger] live1.contains_key(p) == (residents(p1, r1, p).len() > 0) && (live1.contains_key(p)
        ==> live1[p] == residents(p1, r1, p).len()) by {
        let a = residents(p0, r0, p);
        let b = residents(p1, r1, p);
        lemma_residents_finite(p0, g, r0, p);
        assert(live0.contains_key(p) == (a.len() > 0));
        assert(count_of(live0, p) == a.len());
        assert(a.contains(h) <==> on_page(before, p) == 1);
        let rest = a.remove(h);
        assert(rest.len() == a.len() - on_page(before, p));
        assert forall|k: u64| b.contains(k) == (if on_page(after, p) == 1 {
            rest.insert(h)
        } else {
            rest
        }).contains(k) by {
            assert(entry_of(p1, r1, k) == (if k == h {
                after
            } else {
                entry_of(p0, r0, k)
            }));
        }
        if on_page(after, p) == 1 {
            assert(b =~= rest.insert(h));
        } else {
            assert(b =~= rest);
        }
        assert(count_of(live1, p) == b.len());
    }
}

/// Count one more value on a page.
pub fn count_up(live: &mut FxHashMap<u64, u64>, page: u64)
    requires
        count_of(old(live)@, page) < u64::MAX,
    ensures
        final(live)@ == old(live)@.insert(page, (count_of(old(live)@, page) + 1) as u64),
{
    let count: u64 = match map_get(live, page) {
        Some(count) => *count,
        None => 0,
    };
    map_insert(live, page, count + 1);
}

/// Count one value less on a page; says if it was the last.
fn count_down(live: &mut FxHashMap<u64, u64>, page: u64) -> (last: bool)
    requires
        count_of(old(live)@, page) > 0,
    ensures
        last == (old(live)@[page] == 1),
        final(live)@ == (if last {
            old(live)@.remove(page)
        } else {
            old(live)@.insert(page, (old(live)@[page] - 1) as u64)
        }),
{
    let count: u64 = match map_get(live, page) {
        Some(count) => *count,
        None => 1,
    };
    if count == 1 {
        map_remove(live, page);
        true
    } else {
        map_insert(live, page, count - 1);
        false
    }
}

/// Count a value that has moved, come or gone. Gives the page that holds nothing
/// any more, if there is one.
pub fn recount(live: &mut FxHashMap<u64, u64>, before: Option<HandleEntry>, after: Option<HandleEntry>) -> (emptied:
    Option<u64>)
    requires
        forall|p: u64| #[trigger] old(live)@.contains_key(p) ==> old(live)@[p] > 0,
        forall|p: u64| on_page(before, p) <= #[trigger] count_of(old(live)@, p) < u64::MAX,
    ensures
        recounted(old(live)@, final(live)@, before, after),
        match emptied {
            Some(p) => on_page(before, p) == 1 && count_of(final(live)@, p) == 0,
            None => forall|p: u64| on_page(before, p) == 1 ==> #[trigger] count_of(final(live)@, p) > 0,
        },
{
    if let Some(e) = after {
        if matches!(e.flags, HandleFlags::Live) {
            assert(count_of(live@, e.page_id) < u64::MAX);
            count_up(live, e.page_id);
        }
    }
    let ghost mid = live@;
    assert forall|p: u64| #[trigger] count_of(mid, p) == count_of(old(live)@, p) + on_page(after, p) by {}
    if let Some(e) = before {
        if matches!(e.flags, HandleFlags::Live) {
            assert(count_of(mid, e.page_id) >= on_page(before, e.page_id));
            let last = count_down(live, e.page_id);
            assert forall|p: u64| #[trigger] count_of(live@, p) == count_of(mid, p) - on_page(before, p) by {}
            if last {
                return Some(e.page_id);
            }
        }
    }
    None
}

/// A page of a value that is no longer there is used by nothing.
pub proof fn lemma_released(w0: &Workspace, w1: &Workspace, m: nat, h: u64, after: Option<HandleEntry>, id: u64)
    requires
        w0.holds(w0.roots, w0.freed@, w0.cursor),
        evolved(w0, w1, m),
        old_nodes_only(w0, w1),
        entry_of(w0.cache.contents(), w0.roots, h) is Some,
        value_pages(w0.cache.contents(), entry_of(w0.cache.contents(), w0.roots, h)->0).contains(id),
        forall|k: u64| #[trigger]
            entry_of(w1.cache.contents(), w1.roots, k) == (if k == h {
                after
            } else {
                entry_of(w0.cache.contents(), w0.roots, k)
            }),
        after matches Some(e) ==> !value_pages(w1.cache.contents(), e).contains(id),
        entry_of(w0.cache.contents(), w0.roots, h)->0.flags == HandleFlags::Live ==> residents(
            w1.cache.contents(),
            w1.roots,
            id,
        ) == Set::<u64>::empty(),
    ensures
        stray(&w1.cache, &w1.recycler, w1.slots, w1.roots, id),
{
    reveal(sound_store);
    let p0 = w0.cache.contents();
    let p1 = w1.cache.contents();
    let e0 = entry_of(p0, w0.roots, h)->0;
    lemma_evolved_state(w0, w1, m, w0.roots, w0.live@, w0.freed@, w0.cursor);
    let g0 = good(&w0.cache, &w0.recycler, w0.slots);
    assert(g0.contains(id));
    if holds_value(p1, w1.roots, id) {
        let k = choose|k: u64| (#[trigger] entry_of(p1, w1.roots, k)) matches Some(e) && value_pages(p1, e).contains(id);
        let e = entry_of(p1, w1.roots, k)->0;
        assert(k != h);
        assert(entry_of(p0, w0.roots, k) == Some(e));
        assert(value_pages(p0, e).contains(id));
        if e0.flags != HandleFlags::Overflow && e.flags != HandleFlags::Overflow {
            assert(residents(p1, w1.roots, id).contains(k));
        }
    }
}

} // verus!
