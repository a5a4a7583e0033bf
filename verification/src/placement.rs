//! Where values are put: in a slot of a data page, or in an overflow chain.

use vstd::prelude::*;

use crate::data_page::{
    free_end_of, free_start_of, lemma_stamped, slot_count_of, slot_value, well_packed, DataPage, SLOT_ENTRY_SIZE,
};
use crate::error::ChiselError;
use crate::handle_table::{HandleEntry, HandleFlags};
use crate::overflow::{chain_at, chain_written, claimed_length, law_read_after_write, link, pages_for, Overflow};
use crate::page::{checksum_ok, stamp_checksum, CHECKSUM_OFFSET, DATA_PAGE_HEADER_SIZE};
use crate::page_cache::PageCache;
use crate::page_source::{lemma_cow_edit_taken, lemma_cow_extend, lemma_cow_look, overrun, taken, PageSource};
use crate::pool::{appended, bin_ok, good, lemma_pool_append};
use crate::radix::page_at;
use crate::recycler::Recycler;
use crate::spine::edited;
use crate::store::{
    entry_of, index_nodes, lemma_used_good, slots_kept, table_nodes, unused, value_of, value_ok, value_pages,
};
use crate::workspace::{
    evolved, kept_by, lemma_evolved_append, lemma_evolved_chain, lemma_evolved_cow, lemma_evolved_state,
    lemma_loses_only, loses_only, spends, Workspace,
};

verus! {

/// Longest value that is stored in a slot of a data page.
pub const MAX_INLINE_VALUE: usize = 8162;

/// How many pages storing a value takes at most.
pub open spec fn placement_pages(n: nat) -> nat {
    if n <= MAX_INLINE_VALUE {
        Recycler::growth()
    } else {
        pages_for(n)
    }
}

/// The entry stands for `value`, which is stored apart from everything else.
pub open spec fn placed(w: &Workspace, e: HandleEntry, value: Seq<u8>) -> bool {
    &&& value_ok(w.cache.contents(), good(&w.cache, &w.recycler, w.slots), e)
    &&& value_of(w.cache.contents(), e) == value
    &&& match e.flags {
        HandleFlags::Live => w.cursor == Some(e.page_id),
        HandleFlags::Overflow => forall|id: u64| #[trigger]
            value_pages(w.cache.contents(), e).contains(id) ==> {
                &&& unused(w.cache.contents(), w.roots, id)
                &&& !w.freed@.contains(id)
                &&& !w.deferred@.contains(id)
                &&& !w.bins@.contains(id)
            },
        HandleFlags::Deleted => false,
    }
}

/// A value of `n` bytes fits on the page that values are being added to.
pub open spec fn cursor_fits(w: &Workspace, n: nat) -> bool {
    w.cursor matches Some(page) && {
        let s = w.cache.contents()[page];
        free_end_of(s) - free_start_of(s) >= SLOT_ENTRY_SIZE + n
    }
}

/// The room for slots and values on a data page.
pub open spec fn room_of(s: Seq<u8>) -> int {
    free_end_of(s) - free_start_of(s)
}

/// The room that a value of `n` bytes finds on the page that it goes to.
pub open spec fn room_found(w: &Workspace, n: nat) -> int {
    if cursor_fits(w, n) {
        room_of(w.cache.contents()[w.cursor->0])
    } else {
        CHECKSUM_OFFSET - DATA_PAGE_HEADER_SIZE
    }
}

/// A value of `n` bytes takes its bytes and one slot of its page, and nothing else.
pub open spec fn takes_no_more(w0: &Workspace, s: Seq<u8>, slot: u16, n: nat) -> bool {
    &&& room_of(s) == room_found(w0, n) - SLOT_ENTRY_SIZE - n
    &&& slot_count_of(s) == slot + 1
}

/// Where a value of `n` bytes goes: behind the last slot of the page that values
/// are being added to if it fits there, else into the first slot of the lowest free
/// page, or of a new page if none is free; if it is long, into a chain past all
/// pages.
pub open spec fn goes_to(w: &Workspace, e: HandleEntry, n: nat) -> bool {
    if n > MAX_INLINE_VALUE {
        e.flags == HandleFlags::Overflow && e.page_id == w.cache.watermark()
    } else {
        &&& e.flags == HandleFlags::Live
        &&& if cursor_fits(w, n) {
            w.cursor == Some(e.page_id) && e.slot_index == slot_count_of(w.cache.contents()[e.page_id])
        } else {
            next_in_line(w, e.page_id) && e.slot_index == 0
        }
    }
}

/// The page that is handed out next: the lowest free one, and a new one only if none
/// is free.
#[verifier::opaque]
pub open spec fn next_in_line(w: &Workspace, page: u64) -> bool {
    let spare = w.recycler.spare(&w.cache);
    &&& w.recycler.footprint(&w.cache).contains(page)
    &&& if spare.contains(page) {
        forall|k: u64| #[trigger] spare.contains(k) ==> page <= k
    } else {
        page >= w.cache.watermark() && spare == Set::<u64>::empty()
    }
}

/// Add a value to a data page, if it fits.
fn append_value(cache: &mut PageCache, page: u64, value: &[u8]) -> (outcome: Result<Option<u16>, ChiselError>)
    requires
        old(cache).inv(),
        old(cache).bounded(),
        old(cache).contents().contains_key(page),
        old(cache).unsaved().contains(page),
        well_packed(old(cache).contents()[page]),
    ensures
        final(cache).inv(),
        final(cache).bounded(),
        match outcome {
            Ok(Some(slot)) => {
                &&& appended(old(cache), final(cache), page)
                &&& slot == slot_count_of(old(cache).contents()[page])
                &&& free_end_of(old(cache).contents()[page]) - free_start_of(old(cache).contents()[page])
                    >= SLOT_ENTRY_SIZE + value@.len()
                &&& slot_value(final(cache).contents()[page], slot as int) == Some(value@)
                &&& slot_count_of(final(cache).contents()[page]) == slot + 1
                &&& room_of(final(cache).contents()[page]) == room_of(old(cache).contents()[page]) - SLOT_ENTRY_SIZE
                    - value@.len()
            },
            Ok(None) => {
                &&& final(cache).same_pages(old(cache))
                &&& free_end_of(old(cache).contents()[page]) - free_start_of(old(cache).contents()[page])
                    < SLOT_ENTRY_SIZE + value@.len()
            },
            Err(e) => final(cache).same_pages(old(cache)) && overrun(old(cache), final(cache), e, 0),
        },
{
    proof {
        cache.lemma_explains(page);
    }
    let fits: bool = match cache.get(page) {
        Ok(buf) => {
            let space: usize = DataPage::free_space(buf);
            space >= SLOT_ENTRY_SIZE && space - SLOT_ENTRY_SIZE >= value.len()
        },
        Err(e) => {
            return Err(e);
        },
    };
    if !fits {
        return Ok(None);
    }
    let ghost mid = *cache;
    proof {
        cache.lemma_explains(page);
    }
    let slot: Option<u16> = match cache.get_mut(page) {
        Ok(buf) => {
            let ghost s0 = buf@;
            let slot = DataPage::insert(buf, value);
            let ghost s1 = buf@;
            stamp_checksum(buf);
            proof {
                lemma_stamped(s1, buf@);
                assert forall|i: int| 0 <= i implies ((#[trigger] slot_value(s0, i)) matches Some(v) ==> slot_value(
                    buf@,
                    i,
                ) == Some(v)) by {
                    if i < slot_count_of(s0) {
                        assert(slot_value(s1, i) == slot_value(s0, i));
                        assert(slot_value(buf@, i) == slot_value(s1, i));
                    }
                }
                assert(slots_kept(s0, buf@));
            }
            slot
        },
        Err(e) => {
            return Err(e);
        },
    };
    proof {
        assert(cache.contents().dom() =~= old(cache).contents().dom());
        assert(cache.unsaved() =~= old(cache).unsaved());
    }
    Ok(slot)
}

/// Make a fresh page a data page that holds one value.
fn start_page(cache: &mut PageCache, page: u64, value: &[u8]) -> (outcome: Result<u16, ChiselError>)
    requires
        old(cache).inv(),
        old(cache).bounded(),
        old(cache).contents().contains_key(page),
        old(cache).unsaved().contains(page),
        value@.len() <= MAX_INLINE_VALUE,
    ensures
        final(cache).inv(),
        final(cache).bounded(),
        match outcome {
            Ok(slot) => {
                &&& slot == 0
                &&& edited(old(cache), final(cache), page)
                &&& checksum_ok(final(cache).contents()[page])
                &&& well_packed(final(cache).contents()[page])
                &&& slot_value(final(cache).contents()[page], slot as int) == Some(value@)
                &&& slot_count_of(final(cache).contents()[page]) == slot + 1
                &&& room_of(final(cache).contents()[page]) == CHECKSUM_OFFSET - DATA_PAGE_HEADER_SIZE
                    - SLOT_ENTRY_SIZE - value@.len()
            },
            Err(e) => final(cache).same_pages(old(cache)) && overrun(old(cache), final(cache), e, 0),
        },
{
    proof {
        cache.lemma_explains(page);
    }
    let slot: u16 = match cache.get_mut(page) {
        Ok(buf) => {
            DataPage::init_page(buf);
            let slot = DataPage::insert(buf, value);
            let ghost s1 = buf@;
            stamp_checksum(buf);
            proof {
                lemma_stamped(s1, buf@);
            }
            match slot {
                Some(slot) => slot,
                None => 0,
            }
        },
        Err(e) => {
            return Err(e);
        },
    };
    proof {
        assert(cache.contents().dom() =~= old(cache).contents().dom());
        assert(cache.unsaved() =~= old(cache).unsaved());
    }
    Ok(slot)
}

impl Workspace {
    /// Put a value in a slot of a data page.
    #[verifier::rlimit(40)]
    fn put_inline(&mut self, value: &[u8]) -> (outcome: Result<(u64, u16), ChiselError>)
        requires
            old(self).usable(),
            old(self).holds(old(self).roots, old(self).freed@, old(self).cursor),
            value@.len() <= MAX_INLINE_VALUE,
            old(self).cache.watermark() + Recycler::growth() <= usize::MAX,
        ensures
            evolved(old(self), final(self), Recycler::growth()),
            final(self).holds(final(self).roots, final(self).freed@, final(self).cursor),
            final(self).roots == old(self).roots,
            final(self).freed == old(self).freed,
            final(self).live == old(self).live,
            match outcome {
                Ok((page, slot)) => {
                    &&& final(self).cursor == Some(page)
                    &&& if cursor_fits(old(self), value@.len()) {
                        old(self).cursor == Some(page) && slot == slot_count_of(old(self).cache.contents()[page])
                    } else {
                        next_in_line(old(self), page) && slot == 0
                    }
                    &&& slot_value(final(self).cache.contents()[page], slot as int) == Some(value@)
                    &&& spends(old(self), final(self), Set::<u64>::empty().insert(page))
                    &&& takes_no_more(old(self), final(self).cache.contents()[page], slot, value@.len())
                },
                Err(e) => overrun(&old(self).cache, &final(self).cache, e, Recycler::growth()),
            },
    {
        let ghost w0 = *self;
        let g: Ghost<nat> = Ghost(Recycler::growth());
        if let Some(page) = self.cursor {
            let appended = append_value(&mut self.cache, page, value);
            proof {
                if appended is Ok && appended->Ok_0 is Some {
                    lemma_evolved_append(&w0, self, page);
                    lemma_pool_append(&w0.recycler, &w0.cache, &self.cache, w0.slots, page);
                    assert(self.recycler.footprint(&self.cache) == w0.recycler.footprint(&w0.cache));
                } else {
                    lemma_cow_look(&w0.recycler, &w0.cache, &self.cache);
                    lemma_evolved_cow(&w0, self, 0);
                }
                lemma_evolved_state(&w0, self, 0, w0.roots, w0.live@, w0.freed@, w0.cursor);
                lemma_evolved_more(&w0, self, 0, g@);
            }
            match appended {
                Ok(Some(slot)) => {
                    return Ok((page, slot));
                },
                Ok(None) => {},
                Err(e) => {
                    return Err(e);
                },
            }
        }
        let ghost w1 = *self;
        proof {
            if w0.cursor is None {
                lemma_cow_look(&w0.recycler, &w0.cache, &self.cache);
                lemma_evolved_cow(&w0, self, 0);
                lemma_evolved_state(&w0, self, 0, w0.roots, w0.live@, w0.freed@, w0.cursor);
            }
            assert(w1.recycler.footprint(&w1.cache) == w0.recycler.footprint(&w0.cache));
            assert(w1.recycler.spare(&w1.cache) =~= w0.recycler.spare(&w0.cache)) by {
                assert forall|id: u64| w1.recycler.frees(&w1.cache, id) == w0.recycler.frees(&w0.cache, id) by {}
            }
        }
        let taken_page = self.recycler.next_page(&mut self.cache);
        let ghost w2 = *self;
        proof {
            lemma_evolved_cow(&w1, &w2, g@);
            lemma_evolved_state(&w1, &w2, g@, w0.roots, w0.live@, w0.freed@, w0.cursor);
            lemma_evolved_chain(&w0, &w1, &w2, 0, g@);
        }
        let page: u64 = match taken_page {
            Ok(page) => page,
            Err(e) => {
                return Err(e);
            },
        };
        let started = start_page(&mut self.cache, page, value);
        match started {
            Ok(slot) => {
                self.cursor = Some(page);
                proof {
                    lemma_cow_edit_taken(&w1.recycler, &w1.cache, &w2.recycler, &w2.cache, &self.cache, page, g@);
                    assert(self.recycler.footprint(&self.cache) == w0.recycler.footprint(&w0.cache).remove(page));
                    assert(next_in_line(&w0, page)) by {
                        reveal(next_in_line);
                    }
                    self.bins = Ghost(self.bins@.insert(page));
                    assert(bin_ok(&self.cache, &self.recycler, self.slots, page));
                    lemma_evolved_cow(&w1, self, g@);
                    lemma_evolved_state(&w1, self, g@, w0.roots, w0.live@, w0.freed@, w0.cursor);
                    lemma_evolved_chain(&w0, &w1, self, 0, g@);
                    assert forall|i: int| 0 <= i < self.freed@.len() implies self.cursor != Some(#[trigger] self.freed@[i]) by {
                        assert(crate::pool::stray(&w1.cache, &w1.recycler, w1.slots, w1.roots, self.freed@[i]));
                    }
                }
                Ok((page, slot))
            },
            Err(e) => {
                proof {
                    lemma_cow_look(&w2.recycler, &w2.cache, &self.cache);
                    lemma_evolved_cow(&w2, self, 0);
                    lemma_evolved_state(&w2, self, 0, w0.roots, w0.live@, w0.freed@, w0.cursor);
                    lemma_evolved_chain(&w0, &w2, self, g@, 0);
                }
                Err(e)
            },
        }
    }
}

/// A chain that was just written is apart from everything else.
proof fn lemma_chain_placed(w0: &Workspace, w1: &Workspace, e: HandleEntry, value: Seq<u8>)
    requires
        w0.usable(),
        w0.holds(w0.roots, w0.freed@, w0.cursor),
        chain_written(&w0.cache, &w1.cache, value),
        0 < value.len() <= u64::MAX,
        w1.cache.inv(),
        w1.cache.bounded(),
        w1.recycler == w0.recycler,
        w1.slots == w0.slots,
        w1.roots == w0.roots,
        w1.freed == w0.freed,
        w1.deferred == w0.deferred,
        w1.cursor == w0.cursor,
        w1.bins == w0.bins,
        w1.live == w0.live,
        e.flags == HandleFlags::Overflow,
        e.page_id == w0.cache.watermark(),
    ensures
        evolved(w0, w1, pages_for(value.len())),
        w1.holds(w1.roots, w1.freed@, w1.cursor),
        placed(w1, e, value),
        spends(w0, w1, value_pages(w1.cache.contents(), e)),
{
    let k = pages_for(value.len());
    let first = w0.cache.watermark();
    lemma_cow_extend(&w0.recycler, &w0.cache, &w1.cache, k);
    lemma_evolved_cow(w0, w1, k);
    lemma_evolved_state(w0, w1, k, w0.roots, w0.live@, w0.freed@, w0.cursor);
    law_read_after_write(&w0.cache, &w1.cache, value);
    let g1 = good(&w1.cache, &w1.recycler, w1.slots);
    lemma_used_good(w0.cache.contents(), good(&w0.cache, &w0.recycler, w0.slots), w0.roots);
    assert forall|id: u64| #[trigger] value_pages(w1.cache.contents(), e).contains(id) implies {
        &&& g1.contains(id)
        &&& unused(w1.cache.contents(), w1.roots, id)
        &&& !w1.freed@.contains(id)
        &&& !w1.deferred@.contains(id)
        &&& !w1.bins@.contains(id)
    } by {
        let i = choose|i: nat|
            i < pages_for(claimed_length(page_at(w1.cache.contents(), first))) && #[trigger] link(
                w1.cache.contents(),
                first,
                i,
            ) == id;
        assert(chain_at(w1.cache.contents(), value, first, i));
        assert(id == first + i);
        assert(taken(&w0.recycler, &w0.cache, &w1.recycler, &w1.cache, id));
        assert(unused(w0.cache.contents(), w0.roots, id));
    }
    assert forall|id: u64| #[trigger] w0.recycler.footprint(&w0.cache).contains(id) implies w1.recycler.footprint(
        &w1.cache,
    ).contains(id) || value_pages(w1.cache.contents(), e).contains(id) by {
        if first <= id < first + k {
            let i = (id - first) as nat;
            assert(link(w1.cache.contents(), first, i) == id);
        }
    }
}

impl Workspace {
    /// Store a value. The flags of the entry say where it went.
    pub fn place(&mut self, value: &[u8], tag: u32, client_byte: u8) -> (outcome: Result<HandleEntry, ChiselError>)
        requires
            old(self).usable(),
            old(self).holds(old(self).roots, old(self).freed@, old(self).cursor),
            old(self).cache.watermark() + placement_pages(value@.len()) <= usize::MAX,
        ensures
            evolved(old(self), final(self), placement_pages(value@.len())),
            final(self).holds(final(self).roots, final(self).freed@, final(self).cursor),
            final(self).roots == old(self).roots,
            final(self).freed == old(self).freed,
            final(self).live == old(self).live,
            match outcome {
                Ok(e) => {
                    &&& placed(final(self), e, value@)
                    &&& goes_to(old(self), e, value@.len())
                    &&& spends(old(self), final(self), value_pages(final(self).cache.contents(), e))
                    &&& e.flags == HandleFlags::Overflow ==> final(self).cursor == old(self).cursor
                    &&& e.flags == HandleFlags::Live ==> takes_no_more(
                        old(self),
                        final(self).cache.contents()[e.page_id],
                        e.slot_index,
                        value@.len(),
                    )
                    &&& e.flags == HandleFlags::Live ==> good(
                        &final(self).cache,
                        &final(self).recycler,
                        final(self).slots,
                    ).contains(e.page_id)
                    &&& e.tag == tag
                    &&& e.client_byte == client_byte
                    &&& e.flags == (if value@.len() <= MAX_INLINE_VALUE {
                        HandleFlags::Live
                    } else {
                        HandleFlags::Overflow
                    })
                },
                Err(e) => overrun(&old(self).cache, &final(self).cache, e, placement_pages(value@.len())),
            },
    {
        let ghost w0 = *self;
        if value.len() <= MAX_INLINE_VALUE {
            match self.put_inline(value) {
                Ok((page, slot)) => {
                    let entry = HandleEntry {
                        page_id: page,
                        slot_index: slot,
                        flags: HandleFlags::Live,
                        tag,
                        client_byte,
                    };
                    assert(bin_ok(&self.cache, &self.recycler, self.slots, page)) by {
                        reveal(evolved);
                        assert(self.bins@.contains(page));
                    }
                    Ok(entry)
                },
                Err(e) => Err(e),
            }
        } else {
            let written = Overflow::write(&mut self.cache, value);
            match written {
                Ok(first) => {
                    let entry = HandleEntry {
                        page_id: first,
                        slot_index: 0,
                        flags: HandleFlags::Overflow,
                        tag,
                        client_byte,
                    };
                    proof {
                        lemma_chain_placed(&w0, self, entry, value@);
                    }
                    Ok(entry)
                },
                Err(e) => {
                    proof {
                        let k = (self.cache.watermark() - w0.cache.watermark()) as nat;
                        lemma_cow_extend(&w0.recycler, &w0.cache, &self.cache, k);
                        lemma_evolved_cow(&w0, self, k);
                        lemma_evolved_state(&w0, self, k, w0.roots, w0.live@, w0.freed@, w0.cursor);
                        lemma_evolved_more(&w0, self, k, pages_for(value@.len()));
                    }
                    Err(e)
                },
            }
        }
    }
}

/// Storing a value loses no pages but those that hold it.
pub proof fn lemma_spends(w0: &Workspace, w1: &Workspace, m: nat, pages: Set<u64>)
    requires
        w0.holds(w0.roots, w0.freed@, w0.cursor),
        evolved(w0, w1, m),
        w1.roots == w0.roots,
        spends(w0, w1, pages),
    ensures
        loses_only(w0, w1, pages),
{
    lemma_evolved_state(w0, w1, m, w0.roots, w0.live@, w0.freed@, w0.cursor);
    let p0 = w0.cache.contents();
    let p1 = w1.cache.contents();
    assert forall|id: u64| #[trigger] table_nodes(p0, w0.roots).contains(id) implies kept_by(w1, id) by {
        assert(unused(p1, w0.roots, id) == unused(p0, w0.roots, id));
    }
    assert forall|id: u64| #[trigger] index_nodes(p0, w0.roots).contains(id) implies kept_by(w1, id) by {
        assert(unused(p1, w0.roots, id) == unused(p0, w0.roots, id));
    }
    assert forall|k: u64| (#[trigger] entry_of(p0, w0.roots, k)) matches Some(e) ==> entry_of(p1, w1.roots, k) == Some(
        e,
    ) by {
        assert(entry_of(p1, w0.roots, k) == entry_of(p0, w0.roots, k));
    }
    lemma_loses_only(w0, w1, m, pages);
}

/// A bound on unsaved pages can be raised.
pub proof fn lemma_evolved_more(w0: &Workspace, w1: &Workspace, m: nat, k: nat)
    requires
        evolved(w0, w1, m),
        m <= k,
    ensures
        evolved(w0, w1, k),
{
    reveal(evolved);
}

} // verus!
