//! Laws of the values: how a value is cut into the pages of a chain, where it is put, and
//! what the handles stand for.

use vstd::prelude::*;

use crate::bytes::le64;
use crate::data_page::slot_value;
use crate::error::ChiselError;
use crate::handle_table::{HandleEntry, HandleFlags};
use crate::listing::tree_explains;
use crate::operations::{newly_placed, refused};
use crate::orphans::{is_map_page, orphan, orphans, orphans_listed};
use crate::overflow::{
    chain_complete, chain_end, chain_page, chain_value, claimed_length, link, next_of, pages_for, reaches, read_defect,
    walk_defect, ChainEnd, OVERFLOW_PAYLOAD,
};
use crate::page::xxh3_hash;
use crate::page_cache::PageCache;
use crate::page_source::{ids_from, overrun, too_many};
use crate::placement::{cursor_fits, goes_to, room_of, MAX_INLINE_VALUE};
use crate::pool::{counts_ok, residents};
use crate::radix::page_at;
use crate::store::{
    chain_pages, database, entry_of, record_of, tags_agree, unused, used_pages, value_of, value_pages, Roots,
};
use crate::workspace::Workspace;

verus! {

/// A value has as many pages as it fills, 8152 bytes to a page, and none too many.
pub proof fn law_pages_for_a_value(n: nat)
    ensures
        n <= pages_for(n) * 8152,
        n > 0 ==> (pages_for(n) - 1) * 8152 < n,
        pages_for(0) == 0,
{
    vstd::arithmetic::div_mod::lemma_fundamental_div_mod(n as int + 8151, 8152);
}

/// A page of a chain says how long the value is and which page comes next.
pub proof fn law_chain_page_layout(s: Seq<u8>)
    ensures
        claimed_length(s) == le64(s, 16),
        next_of(s) == le64(s, 24),
        OVERFLOW_PAYLOAD == 8184 - 32,
{
    crate::format_laws::law_u64_bytes(s, 16);
    crate::format_laws::law_u64_bytes(s, 24);
}

/// A chain begins at its first page, and each page is followed by the one that it names.
pub proof fn law_chain_links(pages: Map<u64, Seq<u8>>, first: u64, i: nat)
    ensures
        link(pages, first, 0) == first,
        link(pages, first, i + 1) == le64(page_at(pages, link(pages, first, i)), 24),
{
    crate::format_laws::law_u64_bytes(page_at(pages, link(pages, first, i)), 24);
}

/// Each page of a chain holds 8152 bytes of the value, from its byte 32 on, the first page
/// the first.
pub proof fn law_value_of_a_chain(pages: Map<u64, Seq<u8>>, first: u64, n: nat, i: nat, k: int)
    requires
        0 <= k < 8152,
        i * 8152 + k < n,
    ensures
        chain_value(pages, first, n).len() == n,
        chain_value(pages, first, n)[i * 8152 + k] == page_at(pages, link(pages, first, i))[32 + k],
{
    let j = i * 8152 + k;
    vstd::arithmetic::div_mod::lemma_fundamental_div_mod_converse(j, 8152, i as int, k);
}

/// What a page of a chain that was written holds: its part of the value, the length of all
/// of it, the tag of its kind and the number of the page behind it.
pub proof fn law_written_chain_page(s: Seq<u8>, value: Seq<u8>, first: u64, n: nat, i: nat, k: int)
    requires
        chain_page(s, value, first, n, i),
        value.len() <= u64::MAX,
        first + n <= u64::MAX,
        0 <= k < 8152,
        i * 8152 + k < value.len(),
    ensures
        s[0] == 3,
        le64(s, 16) == value.len(),
        le64(s, 24) == (if i + 1 < n { first + i + 1 } else { 0 }),
        s[32 + k] == value[i * 8152 + k],
        le64(s, 8184) == xxh3_hash(s.subrange(0, 8184)),
{
    law_chain_page_layout(s);
    assert(s[crate::overflow::OVERFLOW_HEADER_END + k] == value[i * OVERFLOW_PAYLOAD + k]);
}

/// The walk along a chain of at most `max` pages comes to its end on the page that it
/// should: all pages to there are of the right kind, and each but the last names another.
proof fn lemma_chain_ends(pages: Map<u64, Seq<u8>>, first: u64, max: nat, i: nat)
    requires
        i < max,
    ensures
        chain_end(pages, first, max, i) == ChainEnd::Complete(max) <==> {
            &&& forall|j: nat| i <= j < max ==> page_at(pages, #[trigger] link(pages, first, j))[0] == 3
            &&& forall|j: nat| i <= j && j + 1 < max ==> next_of(page_at(pages, #[trigger] link(pages, first, j))) != 0
            &&& next_of(page_at(pages, link(pages, first, (max - 1) as nat))) == 0
        },
    decreases max - i,
{
    let s = page_at(pages, link(pages, first, i));
    let ends = {
        &&& forall|j: nat| i <= j < max ==> page_at(pages, #[trigger] link(pages, first, j))[0] == 3
        &&& forall|j: nat| i <= j && j + 1 < max ==> next_of(page_at(pages, #[trigger] link(pages, first, j))) != 0
        &&& next_of(page_at(pages, link(pages, first, (max - 1) as nat))) == 0
    };
    if s[0] != 3 {
        assert(!ends);
    } else if next_of(s) == 0 {
        if i + 1 < max {
            assert(!ends);
        } else {
            assert(ends);
        }
    } else if i + 1 < max {
        lemma_chain_ends(pages, first, max, i + 1);
        if chain_end(pages, first, max, i + 1) == ChainEnd::Complete(max) {
            assert(ends) by {
                assert forall|j: nat| i <= j < max implies page_at(pages, #[trigger] link(pages, first, j))[0] == 3 by {}
                assert forall|j: nat| i <= j && j + 1 < max implies next_of(
                    page_at(pages, #[trigger] link(pages, first, j)),
                ) != 0 by {}
            }
        }
    } else {
        assert(chain_end(pages, first, max, i + 1) is TooLong);
    }
}

/// A chain can be read exactly if it claims a value that is not empty and has as many
/// pages as that value fills: all of the right kind, each but the last naming another.
pub proof fn law_complete_chains(pages: Map<u64, Seq<u8>>, first: u64)
    ensures
        chain_complete(pages, first) <==> {
            let n = pages_for(claimed_length(page_at(pages, first)));
            &&& claimed_length(page_at(pages, first)) > 0
            &&& forall|j: nat| j < n ==> page_at(pages, #[trigger] link(pages, first, j))[0] == 3
            &&& forall|j: nat| j + 1 < n ==> next_of(page_at(pages, #[trigger] link(pages, first, j))) != 0
            &&& next_of(page_at(pages, link(pages, first, (n - 1) as nat))) == 0
        },
        read_defect(pages, first) is None <==> chain_complete(pages, first),
{
    let n = pages_for(claimed_length(page_at(pages, first)));
    law_pages_for_a_value(claimed_length(page_at(pages, first)));
    if claimed_length(page_at(pages, first)) > 0 {
        lemma_chain_ends(pages, first, n, 0);
        assert(link(pages, first, 0) == first);
    }
}

/// The walk from page `i` on stops at a page of another kind, if it comes to one in time.
proof fn lemma_wrong_page_is_found(pages: Map<u64, Seq<u8>>, first: u64, max: nat, i: nat, j: nat)
    requires
        i <= j < max,
        page_at(pages, link(pages, first, j))[0] != 3,
        forall|k: nat|
            i <= k < j ==> page_at(pages, #[trigger] link(pages, first, k))[0] == 3 && next_of(
                page_at(pages, link(pages, first, k)),
            ) != 0,
    ensures
        chain_end(pages, first, max, i) == ChainEnd::WrongType(link(pages, first, j)),
    decreases j - i,
{
    if i < j {
        assert(page_at(pages, link(pages, first, i))[0] == 3);
        lemma_wrong_page_is_found(pages, first, max, i + 1, j);
    }
}

/// If a chain cannot be read, the error names the page of another kind that the walk comes
/// to, and otherwise the first page.
pub proof fn law_broken_chains(pages: Map<u64, Seq<u8>>, first: u64, j: nat)
    ensures
        read_defect(pages, first) matches Some(e) ==> e is CorruptPage,
        claimed_length(page_at(pages, first)) == 0 ==> read_defect(pages, first) == Some(
            ChiselError::CorruptPage { page_id: first },
        ),
        claimed_length(page_at(pages, first)) > 0 && j < pages_for(claimed_length(page_at(pages, first)))
            && reaches(pages, first, j) && page_at(pages, link(pages, first, j))[0] != 3 ==> {
            &&& read_defect(pages, first) == Some(ChiselError::CorruptPage { page_id: link(pages, first, j) })
            &&& walk_defect(pages, first) == read_defect(pages, first)
        },
        walk_defect(pages, first) is Some ==> walk_defect(pages, first) == read_defect(pages, first),
        chain_complete(pages, first) ==> walk_defect(pages, first) is None,
{
    let n = pages_for(claimed_length(page_at(pages, first)));
    if claimed_length(page_at(pages, first)) > 0 && j < n && reaches(pages, first, j) && page_at(
        pages,
        link(pages, first, j),
    )[0] != 3 {
        lemma_wrong_page_is_found(pages, first, n, 0, j);
        assert(link(pages, first, 0) == first);
    }
}

/// The pages of a chain are those that the walk comes to.
pub proof fn law_pages_of_a_chain(pages: Map<u64, Seq<u8>>, first: u64, id: u64)
    ensures
        chain_pages(pages, first).contains(id) <==> exists|i: nat|
            i < pages_for(claimed_length(page_at(pages, first))) && #[trigger] link(pages, first, i) == id,
{
}

/// A value on a data page is what its slot holds; one in a chain is what the chain holds,
/// as long as its first page says.
pub proof fn law_value_of_an_entry(pages: Map<u64, Seq<u8>>, e: HandleEntry)
    ensures
        e.flags == HandleFlags::Live ==> {
            &&& slot_value(page_at(pages, e.page_id), e.slot_index as int) matches Some(value) ==> value_of(pages, e) == value
            &&& value_pages(pages, e) == set![e.page_id]
        },
        e.flags == HandleFlags::Overflow ==> {
            &&& value_of(pages, e).len() == claimed_length(page_at(pages, e.page_id))
            &&& value_of(pages, e) == chain_value(pages, e.page_id, claimed_length(page_at(pages, e.page_id)))
            &&& value_pages(pages, e) == chain_pages(pages, e.page_id)
        },
{
}

/// A handle stands for something exactly if the table has an entry for it, and then for
/// the value, the tag and the byte of that entry.
pub proof fn law_what_handles_stand_for(pages: Map<u64, Seq<u8>>, r: Roots, h: u64)
    ensures
        database(pages, r).contains_key(h) <==> entry_of(pages, r, h) is Some,
        entry_of(pages, r, h) matches Some(e) ==> {
            &&& database(pages, r)[h].value == value_of(pages, e)
            &&& database(pages, r)[h].tag == e.tag
            &&& database(pages, r)[h].byte == e.client_byte
            &&& database(pages, r)[h] == record_of(pages, e)
        },
        entry_of(pages, r, h) == crate::handle_table::table_lookup(pages, r.table_root, r.table_depth as nat, h),
{
}

/// The index lists a handle under a tag exactly if the handle carries it.
pub proof fn law_index_fits(pages: Map<u64, Seq<u8>>, r: Roots, tag: u32, h: u64)
    requires
        tags_agree(pages, r),
    ensures
        crate::store::index_has(pages, r, tag, h) <==> database(pages, r).contains_key(h) && database(pages, r)[h].tag
            == tag && tag != 0,
{
}

/// Each data page is counted with the number of values on it, and none without a value is.
pub proof fn law_counts_of_values(live: Map<u64, u64>, pages: Map<u64, Seq<u8>>, r: Roots, p: u64, h: u64)
    requires
        counts_ok(live, pages, r),
    ensures
        residents(pages, r, p).contains(h) <==> (entry_of(pages, r, h) matches Some(e) && e.flags == HandleFlags::Live
            && e.page_id == p),
        live.contains_key(p) <==> residents(pages, r, p).len() > 0,
        live.contains_key(p) ==> live[p] == residents(pages, r, p).len(),
{
    assert(live.contains_key(p) == (residents(pages, r, p).len() > 0));
}

/// A page is used exactly if it is a page of the table or the index, or holds part of a
/// value.
pub proof fn law_pages_in_use(pages: Map<u64, Seq<u8>>, r: Roots, id: u64)
    ensures
        used_pages(pages, r).contains(id) <==> !unused(pages, r, id),
        unused(pages, r, id) <==> {
            &&& !crate::store::table_nodes(pages, r).contains(id)
            &&& !crate::store::index_nodes(pages, r).contains(id)
            &&& forall|h: u64|
                (#[trigger] entry_of(pages, r, h)) matches Some(e) ==> !value_pages(pages, e).contains(id)
        },
{
}

/// A value of up to 8162 bytes goes on a data page, a longer one into a chain. That is the
/// longest value that an empty data page has room for, with its slot.
pub proof fn law_long_values_go_into_chains(w: &Workspace, e: HandleEntry, n: nat)
    requires
        goes_to(w, e, n),
    ensures
        n <= 8162 <==> e.flags == HandleFlags::Live,
        n > 8162 <==> e.flags == HandleFlags::Overflow,
        n > 8162 ==> e.page_id == w.cache.watermark(),
        MAX_INLINE_VALUE + 6 + 16 == 8184,
{
}

/// A value goes behind the last one on the page that values are being added to as long as
/// that page has room for it and its slot; if not, it goes into the first slot of another
/// page.
pub proof fn law_values_fill_pages(w: &Workspace, e: HandleEntry, n: nat)
    requires
        goes_to(w, e, n),
        n <= 8162,
    ensures
        w.cursor matches Some(page) ==> room_of(w.cache.contents()[page]) >= n + 6 ==> {
            &&& e.page_id == page
            &&& e.slot_index == crate::bytes::le16(w.cache.contents()[page], 2)
        },
        w.cursor is None || room_of(w.cache.contents()[w.cursor->0]) < n + 6 ==> e.slot_index == 0,
{
}

/// The room on a data page is the hole between its directory and its values.
pub proof fn law_room_on_a_page(s: Seq<u8>)
    ensures
        room_of(s) == crate::bytes::le16(s, 6) - crate::bytes::le16(s, 4),
{
}

/// A value that was put on a page has taken its own length and six bytes of the room that
/// was there.
pub proof fn law_values_take_their_length(w0: &Workspace, w1: &Workspace, h: u64, n: nat)
    requires
        newly_placed(w0, w1, h, n),
        n <= 8162,
    ensures
        entry_of(w1.cache.contents(), w1.roots, h) matches Some(e) && {
            &&& w1.cursor == Some(e.page_id)
            &&& cursor_fits(w0, n) ==> room_of(w1.cache.contents()[e.page_id]) == room_of(
                w0.cache.contents()[e.page_id],
            ) - n - 6
            &&& !cursor_fits(w0, n) ==> room_of(w1.cache.contents()[e.page_id]) == 8168 - n - 6
            &&& crate::bytes::le16(w1.cache.contents()[e.page_id], 2) == e.slot_index + 1
        },
{
}

/// A change that the limits turn down has passed them: the pages that wait to be saved are
/// more than cache and spillway hold, and would be even if the change had needed as many
/// as it may. The error is the one of the limit that there is.
pub proof fn law_changes_that_are_turned_down(before: &PageCache, after: &PageCache, e: ChiselError, n: nat)
    requires
        overrun(before, after, e, n),
    ensures
        (after.pending() - after.page_limit()) * 8192 > after.spill_limit(),
        (before.pending() + n - before.page_limit()) * 8192 > before.spill_limit(),
        too_many(before, e, n),
        e == before.pressure_error(),
        before.spill_limit() == 0 ==> e is CacheFull,
        before.spill_limit() != 0 ==> (e matches ChiselError::SpillwayFull { limit_bytes } && limit_bytes
            == before.spill_limit()),
{
    crate::cache_laws::law_spillway_holds_its_bytes(after);
    crate::cache_laws::law_spillway_holds_its_bytes(before);
}

/// A change of a value is refused for want of the handle, or by the limits; for want of the
/// handle only if there is no such handle.
pub proof fn law_changes_that_are_refused(w0: &Workspace, w1: &Workspace, h: u64, e: ChiselError, n: nat)
    requires
        refused(w0, w1, h, e, n),
    ensures
        e is InvalidHandle ==> e == ChiselError::InvalidHandle(h) && !w0.db().contains_key(h),
        w0.db().contains_key(h) ==> overrun(&w0.cache, &w1.cache, e, n),
        !w0.db().contains_key(h) && w0.cache.pending() <= w0.cache.capacity() ==> e == ChiselError::InvalidHandle(h),
        e is InvalidHandle || e is CacheFull || e is SpillwayFull,
{
}

/// A lost page of a freemap is an intact page of one, past the superblock slots, that
/// nothing uses and that is not free.
pub proof fn law_lost_pages(w: &Workspace, id: u64)
    ensures
        orphan(w, id) <==> {
            &&& w.slots <= id < w.cache.watermark()
            &&& le64(w.cache.contents()[id], 8184) == xxh3_hash(w.cache.contents()[id].subrange(0, 8184))
            &&& w.cache.contents()[id][0] == 4 || w.cache.contents()[id][0] == 7
            &&& unused(w.cache.contents(), w.roots, id)
            &&& !crate::page_source::PageSource::footprint(&w.recycler, &w.cache).contains(id)
        },
        is_map_page(w.cache.contents()[id]) ==> w.cache.contents()[id][0] == 4 || w.cache.contents()[id][0] == 7,
{
}

/// Lost pages are listed in ascending order, all of them and no others.
pub proof fn law_lost_pages_are_listed(w: &Workspace, list: Seq<u64>, id: u64)
    requires
        orphans_listed(w, list),
    ensures
        list.contains(id) <==> orphan(w, id),
        orphans(w).contains(id) <==> orphan(w, id),
        forall|i: int, j: int| 0 <= i < j < list.len() ==> #[trigger] list[i] < #[trigger] list[j],
{
}

/// The pages from one on, so many of them.
pub proof fn law_pages_from(start: u64, n: nat, id: u64)
    ensures
        ids_from(start, n).contains(id) <==> start <= id && id - start < n,
{
}

/// A value that is damaged is reported with the page that is: on a data page that page; in a
/// chain one of its pages, or what the walk along it finds.
pub proof fn law_damaged_values(w: &Workspace, entry: HandleEntry, e: ChiselError)
    requires
        w.value_damaged(entry, e),
    ensures
        e.is_fatal(),
        e is CorruptPage || e is ChecksumMismatch || e is InvalidPageId,
        entry.flags == HandleFlags::Live ==> {
            ||| e == (ChiselError::CorruptPage { page_id: entry.page_id })
            ||| e == (ChiselError::ChecksumMismatch { page_id: entry.page_id })
            ||| e == (ChiselError::InvalidPageId { page_id: entry.page_id })
        },
{
    law_broken_chains(w.cache.contents(), entry.page_id, 0);
}

/// A page of a table or an index that is damaged is reported as such, with its number.
pub proof fn law_damaged_nodes(c: &PageCache, n: nat, page: u64, level: nat, e: ChiselError)
    requires
        tree_explains(c, n, page, level, e),
        c.pending() <= c.capacity(),
    ensures
        e.is_fatal(),
        e is ChecksumMismatch || e is InvalidPageId,
        exists|id: u64| !(#[trigger] c.sound(id)) && e == c.read_error(id),
{
    let (k, l) = choose|k: nat, l: nat|
        k < crate::radix::reach(n, level) && l <= level && ((#[trigger] crate::radix::node_at(
            c.contents(),
            n,
            page,
            level,
            k,
            l,
        )) matches Some(id) && !c.sound(id) && e == c.read_error(id));
    let id = crate::radix::node_at(c.contents(), n, page, level, k, l)->0;
    assert(!c.sound(id));
}

} // verus!
