//! What a transaction does with one handle: give it a value, change it, take it
//! away.

use vstd::prelude::*;

use crate::tagging::still_tagged;
use crate::entries::{entry_set, held_pages, lemma_own_settable, lemma_placed_settable, old_nodes_only, table_set_pages};
use crate::error::ChiselError;
use crate::handle_table::{if_live, tombstone, HandleEntry, HandleFlags};
use crate::membership_index::{index_insert_pages, index_remove_pages, INNER_ROOT_MASK};
use crate::overflow::{chain_complete, claimed_length, link, pages_for, ChainEnd, Overflow};
use crate::page_source::{lemma_cow_look, overrun, PageSource};
use crate::placement::{
    goes_to, lemma_evolved_more, lemma_spends, next_in_line, placement_pages, room_found, takes_no_more,
};
use crate::pool::{counts_ok, good, lemma_residents_finite, residents, stray};
use crate::radix::page_at;
use crate::recycler::Recycler;
use crate::release::{count_of, lemma_recounted, lemma_released, on_page, recount, recounted};
use crate::store::{
    data_only, entry_of, holds_value, in_chain, index_has, index_nodes, record_of, sound_store, table_nodes, tags_agree,
    unused, value_ok, value_pages, Record, Roots,
};
use crate::workspace::{
    evolved, kept_by, lemma_chain_reads, lemma_evolved_chain, lemma_evolved_reset, lemma_evolved_state,
    lemma_good_reads, lemma_looked, lemma_loses_chain, lemma_loses_fewer, lemma_loses_looked, lemma_loses_none,
    lemma_loses_recounted, lemma_not_noted, looked, loses_none, loses_only, none_noted, spends, Workspace,
};

verus! {

/// How many pages a new value takes at most.
pub open spec fn allocate_pages(n: nat, tag: u32) -> nat {
    placement_pages(n) + table_set_pages() + if tag == 0 {
        0
    } else {
        index_insert_pages(Recycler::growth())
    }
}

/// How many pages a change of a value takes at most.
pub open spec fn update_pages(n: nat) -> nat {
    placement_pages(n) + table_set_pages()
}

/// How many pages taking a value away takes at most.
pub open spec fn delete_pages() -> nat {
    table_set_pages() + index_remove_pages(Recycler::growth())
}

/// There is room for so many more pages.
pub open spec fn has_room(w: &Workspace, n: nat) -> bool {
    &&& w.cache.watermark() + n <= usize::MAX
    &&& w.cache.watermark() + n <= INNER_ROOT_MASK
}

/// A failed operation has changed nothing that can be seen.
pub open spec fn unchanged(w0: &Workspace, w1: &Workspace) -> bool {
    &&& w1.inv()
    &&& w1.roots == w0.roots
    &&& w1.freed@ == w0.freed@
    &&& w1.live == w0.live
    &&& w1.db() == w0.db()
}

/// Why a change of the value of a handle was refused: there is no such handle, or the
/// limits were passed on the way. Looking the handle up passes no limit that was not
/// passed before.
pub open spec fn refused(w0: &Workspace, w1: &Workspace, h: u64, e: ChiselError, n: nat) -> bool {
    if w0.db().contains_key(h) {
        overrun(&w0.cache, &w1.cache, e, n)
    } else {
        e == ChiselError::InvalidHandle(h) || overrun(&w0.cache, &w1.cache, e, 0)
    }
}

/// The counts have room for one more value.
proof fn lemma_counts_fit(w: &Workspace, p: u64)
    requires
        w.inv(),
    ensures
        count_of(w.live@, p) < u64::MAX,
        count_of(w.live@, p) == residents(w.cache.contents(), w.roots, p).len(),
        w.live@.contains_key(p) ==> w.live@[p] > 0,
{
    lemma_residents_finite(w.cache.contents(), good(&w.cache, &w.recycler, w.slots), w.roots, p);
    assert(w.live@.contains_key(p) == (residents(w.cache.contents(), w.roots, p).len() > 0));
}

impl Workspace {
    /// Go back to other roots.
    fn back_to(&mut self, roots: Roots, freed: usize)
        requires
            freed <= old(self).freed@.len(),
        ensures
            final(self).cache == old(self).cache,
            final(self).recycler == old(self).recycler,
            final(self).slots == old(self).slots,
            final(self).deferred == old(self).deferred,
            final(self).bins == old(self).bins,
            final(self).cursor == old(self).cursor,
            final(self).live == old(self).live,
            final(self).roots == roots,
            final(self).freed@ == old(self).freed@.take(freed as int),
    {
        self.roots = roots;
        self.freed.truncate(freed);
        assert(self.freed@ =~= old(self).freed@.take(freed as int));
    }

    /// Store a value and its entry; counts are not yet right.
    fn try_allocate(&mut self, value: &[u8], tag: u32) -> (outcome: Result<HandleEntry, ChiselError>)
        requires
            old(self).inv(),
            old(self).roots.next_handle < u64::MAX,
            has_room(old(self), allocate_pages(value@.len(), tag)),
        ensures
            evolved(old(self), final(self), allocate_pages(value@.len(), tag)),
            final(self).live == old(self).live,
            match outcome {
                Ok(entry) => {
                    let h = old(self).roots.next_handle;
                    &&& final(self).usable()
                    &&& final(self).holds(final(self).roots, final(self).freed@, final(self).cursor)
                    &&& final(self).roots.next_handle == h + 1
                    &&& final(self).roots.names == old(self).roots.names
                    &&& final(self).db() == old(self).db().insert(h, (Record { value: value@, tag, byte: 0 }))
                    &&& forall|k: u64| #[trigger]
                        entry_of(final(self).cache.contents(), final(self).roots, k) == (if k == h {
                            Some(entry)
                        } else {
                            entry_of(old(self).cache.contents(), old(self).roots, k)
                        })
                    &&& entry.tag == tag
                    &&& goes_to(old(self), entry, value@.len())
                    &&& final(self).cursor == (if entry.flags == HandleFlags::Live {
                        Some(entry.page_id)
                    } else {
                        old(self).cursor
                    })
                    &&& entry.flags == HandleFlags::Live ==> takes_no_more(
                        old(self),
                        final(self).cache.contents()[entry.page_id],
                        entry.slot_index,
                        value@.len(),
                    )
                    &&& loses_none(old(self), final(self))
                    &&& forall|t: u32, k: u64| #[trigger]
                        index_has(final(self).cache.contents(), final(self).roots, t, k) == (k == h && t == tag && tag
                            != 0 || index_has(old(self).cache.contents(), old(self).roots, t, k))
                },
                Err(e) => {
                    &&& overrun(&old(self).cache, &final(self).cache, e, allocate_pages(value@.len(), tag))
                    &&& final(self).holds(old(self).roots, old(self).freed@, final(self).cursor)
                },
            },
    {
        let ghost w0 = *self;
        let ghost m1 = placement_pages(value@.len());
        let ghost m2 = table_set_pages();
        let ghost m3 = if tag == 0 {
            0
        } else {
            index_insert_pages(Recycler::growth())
        };
        let handle: u64 = self.roots.next_handle;
        proof {
            lemma_never_given_out(&w0);
        }
        let entry: HandleEntry = match self.place(value, tag, 0) {
            Ok(entry) => entry,
            Err(e) => {
                proof {
                    lemma_evolved_more(&w0, self, m1, m1 + m2 + m3);
                }
                return Err(e);
            },
        };
        let ghost w1 = *self;
        proof {
            lemma_evolved_state(&w0, &w1, m1, w0.roots, w0.live@, w0.freed@, w0.cursor);
            lemma_placed_settable(&w1, handle, entry, value@);
        }
        match self.set_entry(handle, &entry, handle + 1) {
            Ok(_) => {},
            Err(e) => {
                proof {
                    lemma_evolved_state(&w1, self, m2, w1.roots, w1.live@, w1.freed@, w1.cursor);
                    lemma_evolved_chain(&w0, &w1, self, m1, m2);
                    lemma_evolved_more(&w0, self, m1 + m2, m1 + m2 + m3);
                }
                return Err(e);
            },
        }
        let ghost w2 = *self;
        proof {
            lemma_evolved_state(&w1, &w2, m2, w1.roots, w1.live@, w1.freed@, w1.cursor);
            lemma_evolved_chain(&w0, &w1, &w2, m1, m2);
            assert(record_of(w2.cache.contents(), entry) == (Record { value: value@, tag, byte: 0 }));
            lemma_entry_added(&w0, &w1, &w2, handle, entry);
            lemma_value_added(&w0, &w1, &w2, m1, handle, entry);
        }
        if tag == 0 {
            return Ok(entry);
        }
        match self.enter_tag(tag, handle) {
            Ok(_) => {
                proof {
                    lemma_evolved_chain(&w0, &w2, self, m1 + m2, m3);
                    assert(index_has(self.cache.contents(), self.roots, tag, handle));
                    lemma_loses_chain(&w0, &w2, self, Set::<u64>::empty(), Set::<u64>::empty());
                    assert(Set::<u64>::empty().union(Set::<u64>::empty()) =~= Set::<u64>::empty());
                }
                Ok(entry)
            },
            Err(e) => {
                proof {
                    lemma_evolved_state(&w2, self, m3, w1.roots, w1.live@, w1.freed@, w1.cursor);
                    lemma_evolved_chain(&w0, &w2, self, m1 + m2, m3);
                }
                Err(e)
            },
        }
    }

    /// Store a value under a new handle.
    pub fn allocate(&mut self, value: &[u8], tag: u32) -> (outcome: Result<u64, ChiselError>)
        requires
            old(self).inv(),
            old(self).roots.next_handle < u64::MAX,
            has_room(old(self), allocate_pages(value@.len(), tag)),
        ensures
            evolved(old(self), final(self), allocate_pages(value@.len(), tag)),
            match outcome {
                Ok(h) => {
                    &&& final(self).inv()
                    &&& h == old(self).roots.next_handle
                    &&& final(self).roots.next_handle == h + 1
                    &&& final(self).roots.names == old(self).roots.names
                    &&& !old(self).db().contains_key(h)
                    &&& final(self).db() == old(self).db().insert(h, (Record { value: value@, tag, byte: 0 }))
                    &&& newly_placed(old(self), final(self), h, value@.len())
                    &&& loses_none(old(self), final(self))
                },
                Err(e) => {
                    &&& unchanged(old(self), final(self))
                    &&& overrun(&old(self).cache, &final(self).cache, e, allocate_pages(value@.len(), tag))
                },
            },
    {
        let ghost w0 = *self;
        let ghost m = allocate_pages(value@.len(), tag);
        let roots = self.roots;
        let freed: usize = self.freed.len();
        let handle: u64 = self.roots.next_handle;
        proof {
            lemma_never_given_out(&w0);
            lemma_counts_all(&w0);
        }
        let tried = self.try_allocate(value, tag);
        let ghost w1 = *self;
        match tried {
            Ok(entry) => {
                recount(&mut self.live, None, Some(entry));
                proof {
                    lemma_evolved_state(&w0, &w1, m, w0.roots, w0.live@, w0.freed@, w0.cursor);
                    lemma_evolved_reset(&w0, &w1, self, m);
                    lemma_recounted(
                        w0.live@,
                        self.live@,
                        w0.cache.contents(),
                        w0.roots,
                        self.cache.contents(),
                        self.roots,
                        good(&w0.cache, &w0.recycler, w0.slots),
                        handle,
                        Some(entry),
                    );
                    lemma_tags_added(&w0, self, handle, entry);
                    lemma_loses_recounted(&w0, &w1, self, Set::<u64>::empty());
                }
                Ok(handle)
            },
            Err(e) => {
                proof {
                    lemma_evolved_state(&w0, &w1, m, w0.roots, w0.live@, w0.freed@, w0.cursor);
                }
                self.back_to(roots, freed);
                proof {
                    assert(self.freed@ =~= w0.freed@);
                    lemma_evolved_reset(&w0, &w1, self, m);
                    assert(self.holds(w0.roots, w0.freed@, self.cursor));
                }
                Err(e)
            },
        }
    }
}

/// Setting an entry after storing the value.
proof fn lemma_entry_added(w0: &Workspace, w1: &Workspace, w2: &Workspace, h: u64, entry: HandleEntry)
    requires
        w1.roots == w0.roots,
        crate::store::same_store(w0.cache.contents(), w1.cache.contents(), w0.roots),
        entry_set(w1, w2, h, entry),
    ensures
        forall|k: u64| #[trigger]
            entry_of(w2.cache.contents(), w2.roots, k) == (if k == h {
                if_live(entry)
            } else {
                entry_of(w0.cache.contents(), w0.roots, k)
            }),
        forall|t: u32, k: u64| #[trigger]
            index_has(w2.cache.contents(), w2.roots, t, k) == index_has(w0.cache.contents(), w0.roots, t, k),
{
    assert forall|k: u64| #[trigger]
        entry_of(w2.cache.contents(), w2.roots, k) == (if k == h {
            if_live(entry)
        } else {
            entry_of(w0.cache.contents(), w0.roots, k)
        }) by {
        assert(entry_of(w1.cache.contents(), w1.roots, k) == entry_of(w0.cache.contents(), w0.roots, k));
    }
    assert forall|t: u32, k: u64| #[trigger]
        index_has(w2.cache.contents(), w2.roots, t, k) == index_has(w0.cache.contents(), w0.roots, t, k) by {
        assert(index_has(w1.cache.contents(), w1.roots, t, k) == index_has(w0.cache.contents(), w0.roots, t, k));
    }
}

/// A value that was stored and has its entry has lost no pages.
proof fn lemma_value_added(w0: &Workspace, w1: &Workspace, w2: &Workspace, m: nat, h: u64, entry: HandleEntry)
    requires
        w0.holds(w0.roots, w0.freed@, w0.cursor),
        evolved(w0, w1, m),
        w1.roots == w0.roots,
        spends(w0, w1, value_pages(w1.cache.contents(), entry)),
        entry_set(w1, w2, h, entry),
        entry.flags != HandleFlags::Deleted,
    ensures
        loses_only(w0, w2, held_pages(w0, h)),
        entry_of(w0.cache.contents(), w0.roots, h) is None ==> loses_none(w0, w2),
{
    let held = held_pages(w0, h);
    let new = value_pages(w1.cache.contents(), entry);
    lemma_spends(w0, w1, m, new);
    lemma_evolved_state(w0, w1, m, w0.roots, w0.live@, w0.freed@, w0.cursor);
    assert(entry_of(w1.cache.contents(), w1.roots, h) == entry_of(w0.cache.contents(), w0.roots, h));
    assert(held_pages(w1, h) == held);
    lemma_loses_chain(w0, w1, w2, new, held);
    assert forall|id: u64| #[trigger] new.contains(id) implies kept_by(w2, id) by {
        assert(entry_of(w2.cache.contents(), w2.roots, h) == Some(entry));
        assert(holds_value(w2.cache.contents(), w2.roots, id));
    }
    lemma_loses_fewer(w0, w2, new.union(held), held);
    if entry_of(w0.cache.contents(), w0.roots, h) is None {
        assert(held =~= Set::<u64>::empty());
    }
}

/// An entry that leads to the same pages loses none.
proof fn lemma_byte_loses(w0: &Workspace, w1: &Workspace, w2: &Workspace, h: u64, before: HandleEntry, entry: HandleEntry)
    requires
        w0.usable(),
        looked(w0, w1),
        entry_of(w1.cache.contents(), w1.roots, h) == Some(before),
        entry_set(w1, w2, h, entry),
        entry.page_id == before.page_id,
        entry.flags == before.flags,
        entry.flags != HandleFlags::Deleted,
    ensures
        loses_none(w0, w2),
{
    let none = Set::<u64>::empty();
    let held = held_pages(w1, h);
    lemma_loses_looked(w0, w1);
    lemma_loses_chain(w0, w1, w2, none, held);
    assert(value_pages(w1.cache.contents(), entry) == value_pages(w1.cache.contents(), before));
    assert forall|id: u64| #[trigger] none.union(held).contains(id) implies kept_by(w2, id) by {
        assert(entry_of(w2.cache.contents(), w2.roots, h) == Some(entry));
        assert(holds_value(w2.cache.contents(), w2.roots, id));
    }
    lemma_loses_none(w0, w2, none.union(held));
}

/// The index fits again after a new handle was entered in it.
proof fn lemma_tags_added(w0: &Workspace, w1: &Workspace, h: u64, entry: HandleEntry)
    requires
        tags_agree(w0.cache.contents(), w0.roots),
        entry_of(w0.cache.contents(), w0.roots, h) is None,
        forall|k: u64| #[trigger]
            entry_of(w1.cache.contents(), w1.roots, k) == (if k == h {
                Some(entry)
            } else {
                entry_of(w0.cache.contents(), w0.roots, k)
            }),
        forall|t: u32, k: u64| #[trigger]
            index_has(w1.cache.contents(), w1.roots, t, k) == (k == h && t == entry.tag && entry.tag != 0 || index_has(
                w0.cache.contents(),
                w0.roots,
                t,
                k,
            )),
    ensures
        tags_agree(w1.cache.contents(), w1.roots),
{
    assert forall|t: u32, k: u64| #[trigger]
        index_has(w1.cache.contents(), w1.roots, t, k) <==> (entry_of(
            w1.cache.contents(),
            w1.roots,
            k,
        ) matches Some(e) && e.tag == t && t != 0) by {
        assert(index_has(w0.cache.contents(), w0.roots, t, k) <==> (entry_of(
            w0.cache.contents(),
            w0.roots,
            k,
        ) matches Some(e) && e.tag == t && t != 0));
    }
}

/// The counts have room for one more value.
proof fn lemma_counts_all(w: &Workspace)
    requires
        w.inv(),
    ensures
        forall|p: u64| 0 <= #[trigger] count_of(w.live@, p) < u64::MAX,
        forall|p: u64| #[trigger] w.live@.contains_key(p) ==> w.live@[p] > 0,
{
    assert forall|p: u64| 0 <= #[trigger] count_of(w.live@, p) < u64::MAX by {
        lemma_counts_fit(w, p);
    }
    assert forall|p: u64| #[trigger] w.live@.contains_key(p) implies w.live@[p] > 0 by {
        lemma_counts_fit(w, p);
    }
}

/// The value of a handle, of `n` bytes, was put where values are being added, which
/// is now its page, and has taken no more room than it needs.
pub open spec fn newly_placed(w0: &Workspace, w1: &Workspace, h: u64, n: nat) -> bool {
    entry_of(w1.cache.contents(), w1.roots, h) matches Some(e) && {
        &&& goes_to(w0, e, n)
        &&& if e.flags == HandleFlags::Live {
            w1.cursor == Some(e.page_id) && takes_no_more(w0, w1.cache.contents()[e.page_id], e.slot_index, n)
        } else {
            w1.cursor is None || w1.cursor == w0.cursor
        }
    }
}

/// The pages of a chain, as they are listed.
pub open spec fn lists_chain(pages: Map<u64, Seq<u8>>, entry: HandleEntry, chain: Seq<u64>) -> bool {
    if entry.flags == HandleFlags::Overflow {
        forall|id: u64| #[trigger] chain.contains(id) <==> value_pages(pages, entry).contains(id)
    } else {
        chain.len() == 0
    }
}

/// The pages that are given up with a value.
pub open spec fn gives_up(
    w1: &Workspace,
    w2: &Workspace,
    emptied: Option<u64>,
    chain: Seq<u64>,
) -> bool {
    &&& w2.cache == w1.cache
    &&& w2.recycler == w1.recycler
    &&& w2.slots == w1.slots
    &&& w2.roots == w1.roots
    &&& w2.deferred == w1.deferred
    &&& w2.bins == w1.bins
    &&& w2.cursor == (if emptied is Some && w1.cursor == emptied {
        None
    } else {
        w1.cursor
    })
    &&& w2.freed@ == (match emptied {
        Some(p) => w1.freed@.push(p),
        None => w1.freed@,
    }) + chain
}

/// The pages of the value that a handle had are given back, but for those that
/// something else uses.
#[verifier::opaque]
pub open spec fn gave_back(w0: &Workspace, w1: &Workspace, h: u64) -> bool {
    entry_of(w0.cache.contents(), w0.roots, h) matches Some(e) ==> forall|id: u64| #[trigger]
        value_pages(w0.cache.contents(), e).contains(id) && unused(w1.cache.contents(), w1.roots, id)
            ==> w1.freed@.contains(id)
}

/// What is given back does not depend on what was looked at before.
proof fn lemma_gave_back_looked(w0: &Workspace, w1: &Workspace, w2: &Workspace, h: u64)
    requires
        looked(w0, w1),
        gave_back(w1, w2, h),
    ensures
        gave_back(w0, w2, h),
{
    reveal(gave_back);
}

/// The value of an entry is sound.
proof fn lemma_entry_ok(w: &Workspace, h: u64)
    requires
        w.inv(),
    ensures
        entry_of(w.cache.contents(), w.roots, h) matches Some(e) ==> value_ok(
            w.cache.contents(),
            good(&w.cache, &w.recycler, w.slots),
            e,
        ),
{
    reveal(sound_store);
}

/// Where a value went does not depend on what was looked at before.
pub proof fn lemma_placed_looked(w0: &Workspace, w1: &Workspace, e: HandleEntry, n: nat)
    requires
        looked(w0, w1),
        goes_to(w1, e, n),
        w0.usable(),
    ensures
        goes_to(w0, e, n),
        room_found(w0, n) == room_found(w1, n),
{
    reveal(next_in_line);
    lemma_cow_look(&w0.recycler, &w0.cache, &w1.cache);
    assert(w1.recycler.spare(&w1.cache) =~= w0.recycler.spare(&w0.cache)) by {
        assert forall|id: u64| w1.recycler.frees(&w1.cache, id) == w0.recycler.frees(&w0.cache, id) by {}
    }
}

/// What was given back is not lost.
proof fn lemma_given_kept(w0: &Workspace, w1: &Workspace, w2: &Workspace, w3: &Workspace, h: u64)
    requires
        w0.usable(),
        looked(w0, w1),
        loses_only(w1, w2, held_pages(w1, h)),
        gave_back(w1, w3, h),
        w3.cache == w2.cache,
        w3.recycler == w2.recycler,
        w3.slots == w2.slots,
        w3.roots == w2.roots,
        w3.deferred@ == w2.deferred@,
        w2.freed@.is_prefix_of(w3.freed@),
    ensures
        loses_none(w0, w3),
{
    let none = Set::<u64>::empty();
    let held = held_pages(w1, h);
    assert forall|id: u64| #[trigger] w2.freed@.contains(id) implies w3.freed@.contains(id) by {
        let i = w2.freed@.index_of(id);
        assert(w3.freed@[i] == id);
    }
    lemma_loses_recounted(w1, w2, w3, held);
    lemma_loses_looked(w0, w1);
    lemma_loses_chain(w0, w1, w3, none, held);
    assert forall|id: u64| #[trigger] none.union(held).contains(id) implies kept_by(w3, id) by {
        reveal(gave_back);
        if unused(w3.cache.contents(), w3.roots, id) {
            assert(value_pages(w1.cache.contents(), entry_of(w1.cache.contents(), w1.roots, h)->0).contains(id));
        }
    }
    lemma_loses_none(w0, w3, none.union(held));
}

/// After giving up pages the state is sound.
proof fn lemma_given_up(
    w0: &Workspace,
    w1: &Workspace,
    w2: &Workspace,
    m: nat,
    h: u64,
    after: Option<HandleEntry>,
    emptied: Option<u64>,
    chain: Seq<u64>,
)
    requires
        w0.inv(),
        entry_of(w0.cache.contents(), w0.roots, h) is Some,
        evolved(w0, w1, m),
        old_nodes_only(w0, w1),
        w1.holds(w1.roots, w1.freed@, w1.cursor),
        forall|k: u64| #[trigger]
            entry_of(w1.cache.contents(), w1.roots, k) == (if k == h {
                after
            } else {
                entry_of(w0.cache.contents(), w0.roots, k)
            }),
        lists_chain(w0.cache.contents(), entry_of(w0.cache.contents(), w0.roots, h)->0, chain),
        after matches Some(e) ==> value_pages(w1.cache.contents(), e).disjoint(chain.to_set()),
        after matches Some(e) ==> e.flags == HandleFlags::Overflow ==> forall|id: u64| #[trigger]
            value_pages(w1.cache.contents(), e).contains(id) ==> unused(w0.cache.contents(), w0.roots, id),
        recounted(w0.live@, w2.live@, entry_of(w0.cache.contents(), w0.roots, h), after),
        match emptied {
            Some(p) => on_page(entry_of(w0.cache.contents(), w0.roots, h), p) == 1 && count_of(w2.live@, p) == 0,
            None => forall|p: u64|
                on_page(entry_of(w0.cache.contents(), w0.roots, h), p) == 1 ==> #[trigger] count_of(w2.live@, p) > 0,
        },
        gives_up(w1, w2, emptied, chain),
    ensures
        evolved(w0, w2, m),
        w2.usable(),
        w2.holds(w2.roots, w2.freed@, w2.cursor),
        counts_ok(w2.live@, w2.cache.contents(), w2.roots),
        gave_back(w0, w2, h),
{
    let p0 = w0.cache.contents();
    let p1 = w1.cache.contents();
    let before = entry_of(p0, w0.roots, h);
    let e0 = before->0;
    lemma_evolved_state(w0, w1, m, w0.roots, w0.live@, w0.freed@, w0.cursor);
    lemma_evolved_reset(w0, w1, w2, m);
    lemma_recounted(
        w0.live@,
        w2.live@,
        p0,
        w0.roots,
        p1,
        w1.roots,
        good(&w0.cache, &w0.recycler, w0.slots),
        h,
        after,
    );
    lemma_evolved_state(w0, w2, m, w0.roots, w0.live@, w0.freed@, w0.cursor);
    assert forall|i: int| 0 <= i < w2.freed@.len() implies stray(
        &w2.cache,
        &w2.recycler,
        w2.slots,
        w2.roots,
        #[trigger] w2.freed@[i],
    ) && w2.cursor != Some(w2.freed@[i]) by {
        let id = w2.freed@[i];
        if i < w1.freed@.len() {
            assert(id == w1.freed@[i]);
            assert(stray(&w1.cache, &w1.recycler, w1.slots, w1.roots, w1.freed@[i]));
        } else if emptied is Some && i == w1.freed@.len() {
            assert(id == emptied->0);
            assert(residents(p1, w1.roots, id) == Set::<u64>::empty()) by {
                assert(w2.live@.contains_key(id) == (residents(p1, w1.roots, id).len() > 0));
                lemma_residents_finite(p1, good(&w1.cache, &w1.recycler, w1.slots), w1.roots, id);
                assert(!w2.live@.contains_key(id));
                assert(residents(p1, w1.roots, id) =~= Set::<u64>::empty());
            }
            if let Some(e) = after {
                if value_pages(p1, e).contains(id) {
                    assert(entry_of(p1, w1.roots, h) == Some(e));
                    if e.flags == HandleFlags::Live {
                        assert(residents(p1, w1.roots, id).contains(h));
                    } else {
                        assert(unused(p0, w0.roots, id));
                        assert(holds_value(p0, w0.roots, id)) by {
                            assert(value_pages(p0, e0).contains(id));
                        }
                    }
                }
            }
            lemma_released(w0, w1, m, h, after, id);
        } else {
            assert(chain.contains(id));
            assert(chain.to_set().contains(id));
            assert(value_pages(p0, e0).contains(id));
            lemma_released(w0, w1, m, h, after, id);
            if w2.cursor == Some(id) {
                lemma_chain_no_bin(w0, w1, m, h, id);
            }
        }
    }
    reveal(none_noted);
    assert forall|i: int| 0 <= i < w2.freed@.len() implies !w2.deferred@.contains(#[trigger] w2.freed@[i]) by {
        let id = w2.freed@[i];
        if i < w1.freed@.len() {
            assert(id == w1.freed@[i]);
            assert(!w1.deferred@.contains(w1.freed@[i]));
        } else {
            if !(emptied is Some && i == w1.freed@.len()) {
                assert(chain.contains(id));
            }
            assert(value_pages(p0, e0).contains(id));
            assert(holds_value(p0, w0.roots, id));
            lemma_not_noted(w0, w0.freed@, id);
        }
    }
    reveal(gave_back);
    assert forall|id: u64| #[trigger] value_pages(p0, e0).contains(id) && unused(p1, w1.roots, id) implies w2.freed@.contains(
        id,
    ) by {
        let kept = match emptied {
            Some(p) => w1.freed@.push(p),
            None => w1.freed@,
        };
        if e0.flags == HandleFlags::Live {
            assert(on_page(before, id) == 1);
            if count_of(w2.live@, id) > 0 {
                lemma_residents_finite(p1, good(&w1.cache, &w1.recycler, w1.slots), w1.roots, id);
                assert(w2.live@.contains_key(id));
                let k = residents(p1, w1.roots, id).choose();
                assert(residents(p1, w1.roots, id).contains(k));
                assert(value_pages(p1, entry_of(p1, w1.roots, k)->0).contains(id));
                assert(holds_value(p1, w1.roots, id));
                assert(false);
            }
            assert(emptied == Some(id));
            assert(w2.freed@[w1.freed@.len() as int] == id);
        } else {
            let i = chain.index_of(id);
            assert(chain.contains(id));
            assert(w2.freed@[kept.len() + i] == id);
        }
    }
}

/// A page of a chain does not take values.
proof fn lemma_chain_no_bin(w0: &Workspace, w1: &Workspace, m: nat, h: u64, id: u64)
    requires
        w0.inv(),
        evolved(w0, w1, m),
        entry_of(w0.cache.contents(), w0.roots, h) is Some,
        entry_of(w0.cache.contents(), w0.roots, h)->0.flags == HandleFlags::Overflow,
        value_pages(w0.cache.contents(), entry_of(w0.cache.contents(), w0.roots, h)->0).contains(id),
    ensures
        !w1.bins@.contains(id),
{
    let p1 = w1.cache.contents();
    let e0 = entry_of(w0.cache.contents(), w0.roots, h)->0;
    lemma_evolved_state(w0, w1, m, w0.roots, w0.live@, w0.freed@, w0.cursor);
    if w1.bins@.contains(id) {
        assert(data_only(p1, w0.roots, id));
        assert(entry_of(p1, w0.roots, h) == Some(e0));
        assert(value_pages(p1, e0).contains(id));
        assert(in_chain(p1, w0.roots, id));
    }
}

/// Nothing is stored under the next handle.
proof fn lemma_never_given_out(w: &Workspace)
    requires
        w.inv(),
    ensures
        entry_of(w.cache.contents(), w.roots, w.roots.next_handle) is None,
        !w.db().contains_key(w.roots.next_handle),
        w.roots.next_handle > 0,
{
    reveal(sound_store);
}

/// Nodes that were in use carry over.
proof fn lemma_nodes_chain(w0: &Workspace, w1: &Workspace, w2: &Workspace, m: nat)
    requires
        w0.holds(w0.roots, w0.freed@, w0.cursor),
        evolved(w0, w1, m),
        w1.roots == w0.roots || old_nodes_only(w0, w1),
        old_nodes_only(w1, w2),
    ensures
        old_nodes_only(w0, w2),
{
    lemma_evolved_state(w0, w1, m, w0.roots, w0.live@, w0.freed@, w0.cursor);
    let g0 = good(&w0.cache, &w0.recycler, w0.slots);
    let g1 = good(&w1.cache, &w1.recycler, w1.slots);
    assert forall|id: u64|
        g0.contains(id) && #[trigger] table_nodes(w2.cache.contents(), w2.roots).contains(id) implies table_nodes(
        w0.cache.contents(),
        w0.roots,
    ).contains(id) by {
        assert(g1.contains(id));
        assert(table_nodes(w1.cache.contents(), w1.roots).contains(id));
    }
    assert forall|id: u64|
        g0.contains(id) && #[trigger] index_nodes(w2.cache.contents(), w2.roots).contains(id) implies index_nodes(
        w0.cache.contents(),
        w0.roots,
    ).contains(id) by {
        assert(g1.contains(id));
        assert(index_nodes(w1.cache.contents(), w1.roots).contains(id));
    }
}

/// The pages of a complete chain are listed.
pub proof fn lemma_lists_chain(pages: Map<u64, Seq<u8>>, entry: HandleEntry, chain: Seq<u64>)
    requires
        entry.flags == HandleFlags::Overflow,
        chain_complete(pages, entry.page_id),
        crate::overflow::chain_result(pages, entry.page_id) == ChainEnd::Complete(chain.len()),
        chain == Seq::new(chain.len(), |i: int| link(pages, entry.page_id, i as nat)),
    ensures
        lists_chain(pages, entry, chain),
{
    let first = entry.page_id;
    let n = pages_for(claimed_length(page_at(pages, first)));
    assert(chain.len() == n);
    assert forall|id: u64| #[trigger] chain.contains(id) <==> value_pages(pages, entry).contains(id) by {
        if chain.contains(id) {
            let i = choose|i: int| 0 <= i < chain.len() && chain[i] == id;
            assert(link(pages, first, i as nat) == id);
        }
        if value_pages(pages, entry).contains(id) {
            let i = choose|i: nat| i < n && #[trigger] link(pages, first, i) == id;
            assert(chain[i as int] == id);
        }
    }
}

impl Workspace {
    /// The pages of the chain that holds a value, if one does.
    fn chain_of(&mut self, entry: &HandleEntry) -> (outcome: Result<Vec<u64>, ChiselError>)
        requires
            old(self).usable(),
            value_ok(
                old(self).cache.contents(),
                good(&old(self).cache, &old(self).recycler, old(self).slots),
                *entry,
            ),
        ensures
            looked(old(self), final(self)),
            match outcome {
                Ok(chain) => lists_chain(old(self).cache.contents(), *entry, chain@),
                Err(e) => overrun(&old(self).cache, &final(self).cache, e, 0),
            },
    {
        let ghost w0 = *self;
        if matches!(entry.flags, HandleFlags::Overflow) {
            let walked = Overflow::collect_chain_pages(&mut self.cache, entry.page_id);
            match walked {
                Ok(chain) => {
                    proof {
                        lemma_lists_chain(w0.cache.contents(), *entry, chain@);
                    }
                    Ok(chain)
                },
                Err(e) => {
                    proof {
                        lemma_good_reads(&w0);
                        lemma_chain_reads(
                            &w0.cache,
                            good(&w0.cache, &w0.recycler, w0.slots),
                            entry.page_id,
                            e,
                        );
                    }
                    Err(e)
                },
            }
        } else {
            Ok(Vec::new())
        }
    }

    /// Give up the pages of a value that has moved or gone.
    fn give_up(&mut self, before: HandleEntry, after: Option<HandleEntry>, chain: Vec<u64>) -> (emptied: Ghost<
        Option<u64>,
    >)
        requires
            forall|p: u64| #[trigger] old(self).live@.contains_key(p) ==> old(self).live@[p] > 0,
            forall|p: u64| on_page(Some(before), p) <= #[trigger] count_of(old(self).live@, p) < u64::MAX,
        ensures
            gives_up(old(self), final(self), emptied@, chain@),
            recounted(old(self).live@, final(self).live@, Some(before), after),
            match emptied@ {
                Some(p) => on_page(Some(before), p) == 1 && count_of(final(self).live@, p) == 0,
                None => forall|p: u64| on_page(Some(before), p) == 1 ==> #[trigger] count_of(final(self).live@, p) > 0,
            },
    {
        let emptied = recount(&mut self.live, Some(before), after);
        if let Some(page) = emptied {
            if self.cursor == Some(page) {
                self.cursor = None;
            }
            self.freed.push(page);
        }
        let mut chain = chain;
        self.freed.append(&mut chain);
        Ghost(emptied)
    }

    /// Store a value and change the entry; counts are not yet right.
    fn try_update(&mut self, handle: u64, value: &[u8], before: &HandleEntry) -> (outcome: Result<
        HandleEntry,
        ChiselError,
    >)
        requires
            old(self).inv(),
            entry_of(old(self).cache.contents(), old(self).roots, handle) == Some(*before),
            has_room(old(self), update_pages(value@.len())),
        ensures
            evolved(old(self), final(self), update_pages(value@.len())),
            final(self).live == old(self).live,
            match outcome {
                Ok(entry) => {
                    let p0 = old(self).cache.contents();
                    let p1 = final(self).cache.contents();
                    &&& final(self).usable()
                    &&& final(self).holds(final(self).roots, final(self).freed@, final(self).cursor)
                    &&& final(self).roots.next_handle == old(self).roots.next_handle
                    &&& final(self).roots.names == old(self).roots.names
                    &&& final(self).db() == old(self).db().insert(
                        handle,
                        (Record { value: value@, tag: before.tag, byte: before.client_byte }),
                    )
                    &&& forall|k: u64| #[trigger]
                        entry_of(p1, final(self).roots, k) == (if k == handle {
                            Some(entry)
                        } else {
                            entry_of(p0, old(self).roots, k)
                        })
                    &&& forall|t: u32, k: u64| #[trigger]
                        index_has(p1, final(self).roots, t, k) == index_has(p0, old(self).roots, t, k)
                    &&& old_nodes_only(old(self), final(self))
                    &&& entry.tag == before.tag
                    &&& goes_to(old(self), entry, value@.len())
                    &&& final(self).cursor == (if entry.flags == HandleFlags::Live {
                        Some(entry.page_id)
                    } else {
                        old(self).cursor
                    })
                    &&& entry.flags == HandleFlags::Live ==> takes_no_more(
                        old(self),
                        final(self).cache.contents()[entry.page_id],
                        entry.slot_index,
                        value@.len(),
                    )
                    &&& entry.flags == HandleFlags::Live ==> final(self).bins@.contains(entry.page_id)
                    &&& entry.flags == HandleFlags::Overflow ==> forall|id: u64| #[trigger]
                        value_pages(p1, entry).contains(id) ==> unused(p0, old(self).roots, id)
                    &&& entry.flags != HandleFlags::Deleted
                    &&& loses_only(old(self), final(self), held_pages(old(self), handle))
                },
                Err(e) => {
                    &&& overrun(&old(self).cache, &final(self).cache, e, update_pages(value@.len()))
                    &&& final(self).holds(old(self).roots, old(self).freed@, final(self).cursor)
                },
            },
    {
        let ghost w0 = *self;
        let ghost m1 = placement_pages(value@.len());
        let ghost m2 = table_set_pages();
        let next_handle: u64 = self.roots.next_handle;
        proof {
            reveal(sound_store);
        }
        let entry: HandleEntry = match self.place(value, before.tag, before.client_byte) {
            Ok(entry) => entry,
            Err(e) => {
                proof {
                    lemma_evolved_more(&w0, self, m1, m1 + m2);
                }
                return Err(e);
            },
        };
        let ghost w1 = *self;
        proof {
            lemma_evolved_state(&w0, &w1, m1, w0.roots, w0.live@, w0.freed@, w0.cursor);
            lemma_placed_settable(&w1, handle, entry, value@);
        }
        match self.set_entry(handle, &entry, next_handle) {
            Ok(_) => {
                proof {
                    lemma_evolved_state(&w1, self, m2, w1.roots, w1.live@, w1.freed@, w1.cursor);
                    lemma_evolved_chain(&w0, &w1, self, m1, m2);
                    assert(record_of(self.cache.contents(), entry) == (Record {
                        value: value@,
                        tag: before.tag,
                        byte: before.client_byte,
                    }));
                    lemma_entry_added(&w0, &w1, self, handle, entry);
                    lemma_value_added(&w0, &w1, self, m1, handle, entry);
                    lemma_nodes_chain(&w0, &w1, self, m1);
                    if entry.flags == HandleFlags::Overflow {
                        assert forall|id: u64| #[trigger] value_pages(
                            self.cache.contents(),
                            entry,
                        ).contains(id) implies unused(w0.cache.contents(), w0.roots, id) by {
                            assert(value_pages(w1.cache.contents(), entry).contains(id));
                            assert(unused(w1.cache.contents(), w1.roots, id));
                        }
                    }
                }
                Ok(entry)
            },
            Err(e) => {
                proof {
                    lemma_evolved_state(&w1, self, m2, w1.roots, w1.live@, w1.freed@, w1.cursor);
                    lemma_evolved_chain(&w0, &w1, self, m1, m2);
                }
                Err(e)
            },
        }
    }

    /// Replace the value of a handle. The new value goes where values are being
    /// added.
    #[verifier::rlimit(60)]
    #[verifier::spinoff_prover]
    pub fn update(&mut self, handle: u64, value: &[u8]) -> (outcome: Result<(), ChiselError>)
        requires
            old(self).inv(),
            has_room(old(self), update_pages(value@.len())),
        ensures
            evolved(old(self), final(self), update_pages(value@.len())),
            match outcome {
                Ok(_) => {
                    let before = old(self).db()[handle];
                    &&& final(self).inv()
                    &&& old(self).db().contains_key(handle)
                    &&& forall|k: u64|
                        k != handle ==> #[trigger] entry_of(final(self).cache.contents(), final(self).roots, k)
                            == entry_of(old(self).cache.contents(), old(self).roots, k)
                    &&& newly_placed(old(self), final(self), handle, value@.len())
                    &&& gave_back(old(self), final(self), handle)
                    &&& loses_none(old(self), final(self))
                    &&& final(self).roots.next_handle == old(self).roots.next_handle
                    &&& final(self).roots.names == old(self).roots.names
                    &&& final(self).db() == old(self).db().insert(
                        handle,
                        (Record { value: value@, tag: before.tag, byte: before.byte }),
                    )
                },
                Err(e) => {
                    &&& unchanged(old(self), final(self))
                    &&& refused(old(self), final(self), handle, e, update_pages(value@.len()))
                },
            },
    {
        let ghost w0 = *self;
        let ghost m = update_pages(value@.len());
        let roots = self.roots;
        let freed: usize = self.freed.len();
        proof {
            self.lemma_readable();
        }
        let looked_up = self.entry(handle);
        let ghost w1 = *self;
        proof {
            lemma_looked(&w0, &w1);
            lemma_evolved_more(&w0, &w1, 0, m);
        }
        let before: HandleEntry = match looked_up {
            Ok(Some(before)) => before,
            Ok(None) => {
                return Err(ChiselError::InvalidHandle(handle));
            },
            Err(e) => {
                return Err(e);
            },
        };
        proof {
            lemma_entry_ok(&w1, handle);
        }
        let walked = self.chain_of(&before);
        let ghost w2 = *self;
        proof {
            lemma_looked(&w1, &w2);
            lemma_evolved_chain(&w0, &w1, &w2, 0, 0);
            lemma_evolved_more(&w0, &w2, 0, m);
            lemma_counts_all(&w2);
        }
        let chain: Vec<u64> = match walked {
            Ok(chain) => chain,
            Err(e) => {
                return Err(e);
            },
        };
        let tried = self.try_update(handle, value, &before);
        let ghost w3 = *self;
        proof {
            lemma_evolved_chain(&w0, &w2, &w3, 0, m);
            lemma_evolved_state(&w2, &w3, m, w2.roots, w2.live@, w2.freed@, w2.cursor);
        }
        match tried {
            Ok(entry) => {
                proof {
                    lemma_on_page(&w2, handle);
                    lemma_new_apart(&w2, &w3, m, handle, entry, chain@);
                }
                let emptied = self.give_up(before, Some(entry), chain);
                proof {
                    lemma_given_up(&w2, &w3, self, m, handle, Some(entry), emptied@, chain@);
                    lemma_evolved_chain(&w0, &w2, self, 0, m);
                    lemma_tags_same(&w2, self, handle, entry);
                    lemma_gave_back_looked(&w0, &w2, self, handle);
                    lemma_given_kept(&w0, &w2, &w3, self, handle);
                    lemma_placed_looked(&w0, &w2, entry, value@.len());
                }
                Ok(())
            },
            Err(e) => {
                self.back_to(roots, freed);
                proof {
                    assert(self.freed@ =~= w0.freed@);
                    lemma_evolved_reset(&w0, &w3, self, m);
                    assert(self.holds(w0.roots, w0.freed@, self.cursor));
                }
                Err(e)
            },
        }
    }
}

/// The page of a value counts it.
proof fn lemma_on_page(w: &Workspace, h: u64)
    requires
        w.inv(),
        entry_of(w.cache.contents(), w.roots, h) is Some,
    ensures
        forall|p: u64| on_page(entry_of(w.cache.contents(), w.roots, h), p) <= #[trigger] count_of(w.live@, p) < u64::MAX,
{
    let e = entry_of(w.cache.contents(), w.roots, h)->0;
    assert forall|p: u64| on_page(entry_of(w.cache.contents(), w.roots, h), p) <= #[trigger] count_of(w.live@, p)
        < u64::MAX by {
        lemma_counts_fit(w, p);
        if e.flags == HandleFlags::Live && e.page_id == p {
            lemma_residents_finite(w.cache.contents(), good(&w.cache, &w.recycler, w.slots), w.roots, p);
            assert(residents(w.cache.contents(), w.roots, p).contains(h));
            if residents(w.cache.contents(), w.roots, p).len() == 0 {
                assert(residents(w.cache.contents(), w.roots, p) =~= Set::<u64>::empty());
            }
        }
    }
}

/// A new value shares no page with the old chain.
proof fn lemma_new_apart(w0: &Workspace, w1: &Workspace, m: nat, h: u64, entry: HandleEntry, chain: Seq<u64>)
    requires
        w0.inv(),
        evolved(w0, w1, m),
        entry_of(w0.cache.contents(), w0.roots, h) is Some,
        lists_chain(w0.cache.contents(), entry_of(w0.cache.contents(), w0.roots, h)->0, chain),
        entry.flags != HandleFlags::Deleted,
        entry.flags == HandleFlags::Live ==> w1.bins@.contains(entry.page_id),
        entry.flags == HandleFlags::Overflow ==> forall|id: u64| #[trigger]
            value_pages(w1.cache.contents(), entry).contains(id) ==> unused(w0.cache.contents(), w0.roots, id),
    ensures
        value_pages(w1.cache.contents(), entry).disjoint(chain.to_set()),
{
    let p0 = w0.cache.contents();
    assert forall|id: u64| value_pages(w1.cache.contents(), entry).contains(id) && chain.to_set().contains(
        id,
    ) implies false by {
        assert(chain.contains(id));
        let e0 = entry_of(p0, w0.roots, h)->0;
        assert(value_pages(p0, e0).contains(id));
        if entry.flags == HandleFlags::Overflow {
            assert(crate::store::holds_value(p0, w0.roots, id));
        } else {
            lemma_chain_no_bin(w0, w1, m, h, id);
        }
    }
}

/// The index still fits if a handle keeps its tag.
proof fn lemma_tags_same(w0: &Workspace, w1: &Workspace, h: u64, entry: HandleEntry)
    requires
        tags_agree(w0.cache.contents(), w0.roots),
        entry_of(w0.cache.contents(), w0.roots, h) is Some,
        entry.tag == entry_of(w0.cache.contents(), w0.roots, h)->0.tag,
        forall|k: u64| #[trigger]
            entry_of(w1.cache.contents(), w1.roots, k) == (if k == h {
                Some(entry)
            } else {
                entry_of(w0.cache.contents(), w0.roots, k)
            }),
        forall|t: u32, k: u64| #[trigger]
            index_has(w1.cache.contents(), w1.roots, t, k) == index_has(w0.cache.contents(), w0.roots, t, k),
    ensures
        tags_agree(w1.cache.contents(), w1.roots),
{
    assert forall|t: u32, k: u64| #[trigger]
        index_has(w1.cache.contents(), w1.roots, t, k) <==> (entry_of(
            w1.cache.contents(),
            w1.roots,
            k,
        ) matches Some(e) && e.tag == t && t != 0) by {
        assert(index_has(w0.cache.contents(), w0.roots, t, k) <==> (entry_of(
            w0.cache.contents(),
            w0.roots,
            k,
        ) matches Some(e) && e.tag == t && t != 0));
    }
}

/// The index fits again after a handle was taken out of it.
proof fn lemma_tags_removed(w0: &Workspace, w1: &Workspace, h: u64, tag: u32)
    requires
        tags_agree(w0.cache.contents(), w0.roots),
        entry_of(w0.cache.contents(), w0.roots, h) is Some,
        tag == entry_of(w0.cache.contents(), w0.roots, h)->0.tag,
        forall|k: u64| #[trigger]
            entry_of(w1.cache.contents(), w1.roots, k) == (if k == h {
                None
            } else {
                entry_of(w0.cache.contents(), w0.roots, k)
            }),
        forall|t: u32, k: u64| #[trigger]
            index_has(w1.cache.contents(), w1.roots, t, k) == (!(t == tag && k == h) && index_has(
                w0.cache.contents(),
                w0.roots,
                t,
                k,
            )),
    ensures
        tags_agree(w1.cache.contents(), w1.roots),
{
    assert forall|t: u32, k: u64| #[trigger]
        index_has(w1.cache.contents(), w1.roots, t, k) <==> (entry_of(
            w1.cache.contents(),
            w1.roots,
            k,
        ) matches Some(e) && e.tag == t && t != 0) by {
        assert(index_has(w0.cache.contents(), w0.roots, t, k) <==> (entry_of(
            w0.cache.contents(),
            w0.roots,
            k,
        ) matches Some(e) && e.tag == t && t != 0));
    }
}

impl Workspace {
    /// Take the entry away and the handle out of the index; counts are not yet
    /// right.
    fn try_delete(&mut self, handle: u64, before: &HandleEntry) -> (outcome: Result<(), ChiselError>)
        requires
            old(self).inv(),
            entry_of(old(self).cache.contents(), old(self).roots, handle) == Some(*before),
            has_room(old(self), delete_pages()),
        ensures
            evolved(old(self), final(self), delete_pages()),
            final(self).live == old(self).live,
            final(self).cursor == old(self).cursor,
            match outcome {
                Ok(_) => {
                    let p0 = old(self).cache.contents();
                    let p1 = final(self).cache.contents();
                    &&& final(self).usable()
                    &&& final(self).holds(final(self).roots, final(self).freed@, final(self).cursor)
                    &&& final(self).roots.next_handle == old(self).roots.next_handle
                    &&& final(self).roots.names == old(self).roots.names
                    &&& final(self).db() == old(self).db().remove(handle)
                    &&& forall|k: u64| #[trigger]
                        entry_of(p1, final(self).roots, k) == (if k == handle {
                            None
                        } else {
                            entry_of(p0, old(self).roots, k)
                        })
                    &&& tags_agree(p1, final(self).roots)
                    &&& old_nodes_only(old(self), final(self))
                    &&& before.tag == 0 || still_tagged(final(self), before.tag) ==> loses_only(
                        old(self),
                        final(self),
                        held_pages(old(self), handle),
                    )
                },
                Err(e) => overrun(&old(self).cache, &final(self).cache, e, delete_pages()),
            },
    {
        let ghost w0 = *self;
        let ghost m1 = table_set_pages();
        let ghost m2 = index_remove_pages(Recycler::growth());
        proof {
            reveal(sound_store);
        }
        match self.clear_entry(handle) {
            Ok(_) => {},
            Err(e) => {
                proof {
                    lemma_evolved_more(&w0, self, m1, m1 + m2);
                }
                return Err(e);
            },
        }
        let ghost w1 = *self;
        proof {
            lemma_evolved_state(&w0, &w1, m1, w0.roots, w0.live@, w0.freed@, w0.cursor);
            assert(index_has(w0.cache.contents(), w0.roots, before.tag, handle) <==> before.tag != 0);
            assert(index_has(w1.cache.contents(), w1.roots, before.tag, handle) == index_has(
                w0.cache.contents(),
                w0.roots,
                before.tag,
                handle,
            ));
        }
        if before.tag == 0 {
            proof {
                lemma_evolved_more(&w0, self, m1, m1 + m2);
                lemma_tags_removed(&w0, self, handle, before.tag);
            }
            return Ok(());
        }
        match self.leave_tag(before.tag, handle) {
            Ok(_) => {
                proof {
                    lemma_evolved_chain(&w0, &w1, self, m1, m2);
                    lemma_nodes_chain(&w0, &w1, self, m1);
                    assert forall|k: u64| #[trigger]
                        entry_of(self.cache.contents(), self.roots, k) == (if k == handle {
                            None
                        } else {
                            entry_of(w0.cache.contents(), w0.roots, k)
                        }) by {
                        assert(entry_of(w1.cache.contents(), w1.roots, k) == (if k == handle {
                            if_live(tombstone())
                        } else {
                            entry_of(w0.cache.contents(), w0.roots, k)
                        }));
                    }
                    assert forall|t: u32, k: u64| #[trigger]
                        index_has(self.cache.contents(), self.roots, t, k) == (!(t == before.tag && k == handle)
                            && index_has(w0.cache.contents(), w0.roots, t, k)) by {
                        assert(index_has(w1.cache.contents(), w1.roots, t, k) == index_has(
                            w0.cache.contents(),
                            w0.roots,
                            t,
                            k,
                        ));
                    }
                    lemma_tags_removed(&w0, self, handle, before.tag);
                    if still_tagged(self, before.tag) {
                        let held = held_pages(&w0, handle);
                        lemma_loses_chain(&w0, &w1, self, held, Set::<u64>::empty());
                        assert(held.union(Set::<u64>::empty()) =~= held);
                    }
                }
                Ok(())
            },
            Err(e) => {
                proof {
                    lemma_evolved_chain(&w0, &w1, self, m1, m2);
                }
                Err(e)
            },
        }
    }

    /// Take a handle and its value away.
    pub fn delete(&mut self, handle: u64) -> (outcome: Result<(), ChiselError>)
        requires
            old(self).inv(),
            has_room(old(self), delete_pages()),
        ensures
            evolved(old(self), final(self), delete_pages()),
            match outcome {
                Ok(_) => {
                    &&& final(self).inv()
                    &&& old(self).db().contains_key(handle)
                    &&& final(self).roots.next_handle == old(self).roots.next_handle
                    &&& final(self).roots.names == old(self).roots.names
                    &&& final(self).db() == old(self).db().remove(handle)
                    &&& gave_back(old(self), final(self), handle)
                    &&& ({
                        let tag = old(self).db()[handle].tag;
                        tag == 0 || still_tagged(final(self), tag)
                    }) ==> loses_none(old(self), final(self))
                },
                Err(e) => {
                    &&& unchanged(old(self), final(self))
                    &&& refused(old(self), final(self), handle, e, delete_pages())
                },
            },
    {
        let ghost w0 = *self;
        let ghost m = delete_pages();
        let roots = self.roots;
        let freed: usize = self.freed.len();
        proof {
            self.lemma_readable();
        }
        let looked_up = self.entry(handle);
        let ghost w1 = *self;
        proof {
            lemma_looked(&w0, &w1);
            lemma_evolved_more(&w0, &w1, 0, m);
        }
        let before: HandleEntry = match looked_up {
            Ok(Some(before)) => before,
            Ok(None) => {
                return Err(ChiselError::InvalidHandle(handle));
            },
            Err(e) => {
                return Err(e);
            },
        };
        proof {
            lemma_entry_ok(&w1, handle);
        }
        let walked = self.chain_of(&before);
        let ghost w2 = *self;
        proof {
            lemma_looked(&w1, &w2);
            lemma_evolved_chain(&w0, &w1, &w2, 0, 0);
            lemma_evolved_more(&w0, &w2, 0, m);
            lemma_counts_all(&w2);
        }
        let chain: Vec<u64> = match walked {
            Ok(chain) => chain,
            Err(e) => {
                return Err(e);
            },
        };
        let tried = self.try_delete(handle, &before);
        let ghost w3 = *self;
        proof {
            lemma_evolved_chain(&w0, &w2, &w3, 0, m);
            lemma_evolved_state(&w2, &w3, m, w2.roots, w2.live@, w2.freed@, w2.cursor);
        }
        match tried {
            Ok(_) => {
                proof {
                    lemma_on_page(&w2, handle);
                }
                let emptied = self.give_up(before, None, chain);
                proof {
                    lemma_given_up(&w2, &w3, self, m, handle, None, emptied@, chain@);
                    lemma_evolved_chain(&w0, &w2, self, 0, m);
                    lemma_gave_back_looked(&w0, &w2, self, handle);
                    let tag = w0.db()[handle].tag;
                    assert(tag == before.tag);
                    if tag == 0 || still_tagged(self, tag) {
                        if tag != 0 {
                            let k = choose|k: u64| #[trigger] index_has(self.cache.contents(), self.roots, tag, k);
                            assert(index_has(w3.cache.contents(), w3.roots, tag, k));
                        }
                        lemma_given_kept(&w0, &w2, &w3, self, handle);
                    }
                }
                Ok(())
            },
            Err(e) => {
                self.back_to(roots, freed);
                proof {
                    assert(self.freed@ =~= w0.freed@);
                    lemma_evolved_reset(&w0, &w3, self, m);
                    assert(self.holds(w0.roots, w0.freed@, self.cursor));
                }
                Err(e)
            },
        }
    }

    /// Set the client byte of a handle.
    pub fn set_byte(&mut self, handle: u64, byte: u8) -> (outcome: Result<(), ChiselError>)
        requires
            old(self).inv(),
            has_room(old(self), table_set_pages()),
        ensures
            evolved(old(self), final(self), table_set_pages()),
            match outcome {
                Ok(_) => {
                    let before = old(self).db()[handle];
                    &&& final(self).inv()
                    &&& old(self).db().contains_key(handle)
                    &&& final(self).roots.next_handle == old(self).roots.next_handle
                    &&& final(self).roots.names == old(self).roots.names
                    &&& final(self).db() == old(self).db().insert(
                        handle,
                        (Record { value: before.value, tag: before.tag, byte }),
                    )
                    &&& loses_none(old(self), final(self))
                },
                Err(e) => {
                    &&& unchanged(old(self), final(self))
                    &&& refused(old(self), final(self), handle, e, table_set_pages())
                },
            },
    {
        let ghost w0 = *self;
        let ghost m = table_set_pages();
        let roots = self.roots;
        let freed: usize = self.freed.len();
        proof {
            self.lemma_readable();
        }
        let looked_up = self.entry(handle);
        let ghost w1 = *self;
        proof {
            lemma_looked(&w0, &w1);
            lemma_evolved_more(&w0, &w1, 0, m);
        }
        let before: HandleEntry = match looked_up {
            Ok(Some(before)) => before,
            Ok(None) => {
                return Err(ChiselError::InvalidHandle(handle));
            },
            Err(e) => {
                return Err(e);
            },
        };
        let entry = HandleEntry {
            page_id: before.page_id,
            slot_index: before.slot_index,
            flags: before.flags,
            tag: before.tag,
            client_byte: byte,
        };
        proof {
            lemma_own_settable(&w1, handle, before, entry);
            lemma_counts_all(&w1);
            assert(entry_of(w1.cache.contents(), w1.roots, handle) is Some);
            reveal(sound_store);
        }
        let next_handle: u64 = self.roots.next_handle;
        let tried = self.set_entry(handle, &entry, next_handle);
        let ghost w2 = *self;
        proof {
            lemma_evolved_chain(&w0, &w1, &w2, 0, m);
            lemma_evolved_state(&w1, &w2, m, w1.roots, w1.live@, w1.freed@, w1.cursor);
        }
        match tried {
            Ok(_) => {
                proof {
                    assert(recounted(w1.live@, self.live@, Some(before), Some(entry)));
                    lemma_recounted(
                        w1.live@,
                        self.live@,
                        w1.cache.contents(),
                        w1.roots,
                        self.cache.contents(),
                        self.roots,
                        good(&w1.cache, &w1.recycler, w1.slots),
                        handle,
                        Some(entry),
                    );
                    lemma_tags_same(&w1, self, handle, entry);
                    lemma_byte_loses(&w0, &w1, self, handle, before, entry);
                    assert(record_of(self.cache.contents(), entry) == (Record {
                        value: w0.db()[handle].value,
                        tag: before.tag,
                        byte,
                    }));
                }
                Ok(())
            },
            Err(e) => {
                self.back_to(roots, freed);
                proof {
                    assert(self.freed@ =~= w0.freed@);
                    lemma_evolved_reset(&w0, &w2, self, m);
                    assert(self.holds(w0.roots, w0.freed@, self.cursor));
                }
                Err(e)
            },
        }
    }
}

} // verus!
