//! Laws of the steps that a change is made of: what each leaves as it was, how many pages
//! it may take, and what it fails with.

use vstd::prelude::*;

use crate::audit::{intact, tags_listed};
use crate::audit_values::{chain_nodes, entries_listed};
use crate::commit::{disk_kept, persist_pages, published, save_load};
use crate::defrag::moves_pages;
use crate::entries::{entry_set, held_pages, table_set_pages};
use crate::error::ChiselError;
use crate::freemap::free_ids;
use crate::freemap_tree::{empty_interior, empty_leaf, limits_fault, page_fault, path_fault, tree_fault};
use crate::handle_table::{insert_pages, HandleEntry, HandleFlags};
use crate::inspect::unclaimed;
use crate::membership_index::{index_explains, index_insert_pages, index_remove_pages, tag_value};
use crate::operations::{allocate_pages, delete_pages, gives_up, lists_chain, unchanged, update_pages};
use crate::overflow::{chain_explains, link, pages_for};
use crate::page::xxh3_hash;
use crate::page_cache::PageCache;
use crate::page_source::{extended, grown_by, Extend, PageSource};
use crate::persist::{map_frees, mark_pages, marked, marks_pages};
use crate::placement::placement_pages;
use crate::pool::appended;
use crate::radix::{child_of, page_at};
use crate::radix_u64::radix_insert_pages;
use crate::recycler::Recycler;
use crate::release::{count_of, on_page, recounted};
use crate::spine::{edited, head_of, path_explains, path_unsound};
use crate::store::{entry_of, index_has, record_of, value_of, value_ok, value_pages, Roots};
use crate::superblock::slot_defect;
use crate::tagging::{still_tagged, tag_set};
use crate::transaction::{deletes_pages, slot_for, slots_fit, TransactionManager};
use crate::workspace::Workspace;

verus! {

/// How many pages changes take at most: each level of a tree two new pages, each new level
/// one, each request for a page up to seven; a long value one page for each 8152 bytes.
pub proof fn law_pages_that_changes_take(n: nat, tag: u32)
    ensures
        Recycler::growth() == 7,
        Extend::growth() == 1,
        table_set_pages() == 1 + 19 * 7,
        placement_pages(n) == (if n <= 8162 { 7 } else { pages_for(n) }),
        allocate_pages(n, 0) == placement_pages(n) + 134,
        tag != 0 ==> allocate_pages(n, tag) == placement_pages(n) + 134 + 268,
        update_pages(n) == placement_pages(n) + 134,
        index_insert_pages(7) == 2 + 2 * 19 * 7,
        index_remove_pages(7) == 7 * 7 + 19 * 7,
        delete_pages() == 134 + 182,
        deletes_pages(n) == n * 316,
        moves_pages(n) == n * 141,
        mark_pages() == 11,
        marks_pages(n) == 1 + n * 11,
{
}

/// A tree grows by a root for each level that is added; its path is then two pages for each
/// level but the top.
pub proof fn law_pages_that_insertion_takes(depth: nat, key: u64, g: nat)
    requires
        depth <= 6,
    ensures
        ({
            let d = crate::handle_table::depth_for(depth, key);
            insert_pages(depth, key, g) == (3 * d - depth + 1) * g
        }),
        ({
            let d = crate::radix_u64::radix_depth_for(depth, key);
            radix_insert_pages(depth, key, g) == (3 * d - depth + 1) * g
        }),
{
    crate::tree_laws::law_depth_for_a_handle(depth, key, depth);
    crate::tree_laws::law_depth_for_a_key(depth, key, depth);
    let a = crate::handle_table::depth_for(depth, key);
    let b = crate::radix_u64::radix_depth_for(depth, key);
    assert(a - depth + 2 * a + 1 == 3 * a - depth + 1);
    assert(b - depth + 2 * b + 1 == 3 * b - depth + 1);
    assert((3 * a - depth + 1) * g >= 0) by (nonlinear_arith)
        requires
            3 * a - depth + 1 >= 0,
            g >= 0,
    ;
    assert((3 * b - depth + 1) * g >= 0) by (nonlinear_arith)
        requires
            3 * b - depth + 1 >= 0,
            g >= 0,
    ;
}

/// A commit takes up to eleven pages for each page that it frees.
pub proof fn law_pages_that_a_commit_takes(w: &Workspace)
    ensures
        persist_pages(w) == 1 + 11 * (w.freed@.len() + w.deferred@.len()),
        save_load(w) == w.recycler.tree.session_owned@.len() + persist_pages(w),
{
    assert(mark_pages() == 11);
}

/// Setting the entry of a handle changes what this handle stands for, and no other.
pub proof fn law_entries_that_are_set(w0: &Workspace, w1: &Workspace, h: u64, entry: HandleEntry, k: u64)
    requires
        entry_set(w0, w1, h, entry),
    ensures
        entry.flags != HandleFlags::Deleted ==> w1.db().contains_key(h) && w1.db()[h].value == value_of(
            w1.cache.contents(),
            entry,
        ) && w1.db()[h].tag == entry.tag && w1.db()[h].byte == entry.client_byte,
        entry.flags == HandleFlags::Deleted ==> !w1.db().contains_key(h),
        k != h ==> w1.db().contains_key(k) == w0.db().contains_key(k),
        k != h && w0.db().contains_key(k) ==> w1.db()[k] == w0.db()[k],
        k != h ==> entry_of(w1.cache.contents(), w1.roots, k) == entry_of(w0.cache.contents(), w0.roots, k),
        w1.roots.names == w0.roots.names,
{
    assert(record_of(w1.cache.contents(), entry).tag == entry.tag);
    assert(entry_of(w1.cache.contents(), w1.roots, k) == (if k == h {
        crate::handle_table::if_live(entry)
    } else {
        entry_of(w0.cache.contents(), w0.roots, k)
    }));
}

/// The pages that a handle holds are those of its value.
pub proof fn law_pages_that_a_handle_holds(w: &Workspace, h: u64)
    ensures
        match entry_of(w.cache.contents(), w.roots, h) {
            Some(e) => held_pages(w, h) == value_pages(w.cache.contents(), e),
            None => held_pages(w, h) == Set::<u64>::empty(),
        },
{
}

/// Entering a handle in the index, or taking it out, changes what the index says of this
/// handle and this tag, and nothing else.
pub proof fn law_tags_that_are_set(w0: &Workspace, w1: &Workspace, tag: u32, h: u64, now: bool, t: u32, k: u64)
    requires
        tag_set(w0, w1, tag, h, now),
    ensures
        index_has(w1.cache.contents(), w1.roots, tag, h) == now,
        t != tag || k != h ==> index_has(w1.cache.contents(), w1.roots, t, k) == index_has(
            w0.cache.contents(),
            w0.roots,
            t,
            k,
        ),
        now ==> still_tagged(w1, tag),
        w1.db() == w0.db(),
{
    assert(index_has(w1.cache.contents(), w1.roots, tag, h) == now);
    assert(index_has(w1.cache.contents(), w1.roots, t, k) == (if t == tag && k == h {
        now
    } else {
        index_has(w0.cache.contents(), w0.roots, t, k)
    }));
}

/// Marking pages free marks these, keeps the marks of others, and leaves every page that the
/// freemap may not change.
pub proof fn law_pages_that_are_marked(
    c0: &PageCache,
    t0: &crate::freemap_tree::FreeMapTree,
    c1: &PageCache,
    t1: &crate::freemap_tree::FreeMapTree,
    ids: Seq<u64>,
    m: nat,
    id: u64,
)
    requires
        marked(c0, t0, c1, t1, ids, m),
    ensures
        map_frees(c1, t1, id) <==> map_frees(c0, t0, id) || ids.contains(id),
        map_frees(c1, t1, id) <==> t1.root != u64::MAX && crate::freemap_tree::tracked_free(
            c1.contents(),
            t1.root,
            t1.depth as nat,
            id,
        ),
        c1.watermark() <= c0.watermark() + m,
        id < c0.watermark() && c0.contents().contains_key(id) && !t0.session_owned@.contains(id) ==> c1.contents()[id]
            == c0.contents()[id],
{
    assert(map_frees(c1, t1, id) == (map_frees(c0, t0, id) || ids.contains(id)));
    assert(id < c0.watermark() ==> c1.contents().contains_key(id) == c0.contents().contains_key(id));
}

/// A failed operation has left what the handles stand for, the names and the next handle.
pub proof fn law_nothing_changed(w0: &Workspace, w1: &Workspace)
    requires
        unchanged(w0, w1),
    ensures
        w1.db() == w0.db(),
        w1.roots == w0.roots,
        w1.freed@ == w0.freed@,
        w1.live == w0.live,
{
}

/// Changing one page changes no other.
pub proof fn law_one_page_edited(a: &PageCache, b: &PageCache, n: u64, id: u64)
    requires
        edited(a, b, n),
    ensures
        b.contents().contains_key(id) == a.contents().contains_key(id),
        id != n && a.contents().contains_key(id) ==> b.contents()[id] == a.contents()[id],
        b.unsaved().contains(n),
        id != n ==> b.unsaved().contains(id) == a.unsaved().contains(id),
        b.disk() == a.disk(),
        b.watermark() == a.watermark(),
{
    assert(b.contents().dom().contains(id) == a.contents().dom().contains(id));
    assert(id != n ==> a.contents().insert(n, b.contents()[n])[id] == a.contents()[id]);
}

/// Adding a value to a data page keeps the values in the slots that were there.
pub proof fn law_values_stay_in_their_slots(a: &PageCache, b: &PageCache, page: u64, slot: int)
    requires
        appended(a, b, page),
        slot >= 0,
    ensures
        crate::data_page::slot_value(page_at(a.contents(), page), slot) matches Some(value)
            ==> crate::data_page::slot_value(page_at(b.contents(), page), slot) == Some(value),
        crate::bytes::le64(b.contents()[page], 8184) == xxh3_hash(b.contents()[page].subrange(0, 8184)),
{
}

/// Adding pages at the end leaves all that were there.
pub proof fn law_pages_added_at_the_end(a: &PageCache, b: &PageCache, n: nat, id: u64)
    requires
        extended(a, b, n),
    ensures
        b.watermark() == a.watermark() + n,
        a.watermark() <= id && id - a.watermark() < n ==> b.contents().contains_key(id) && b.unsaved().contains(id),
        id < a.watermark() ==> b.contents().contains_key(id) == a.contents().contains_key(id),
        id < a.watermark() ==> b.contents()[id] == a.contents()[id],
        b.pending() == a.pending() + n,
        b.disk() == a.disk(),
{
    let new = crate::page_source::ids_from(a.watermark(), n);
    assert(new.contains(id) <==> a.watermark() <= id && id - a.watermark() < n);
    assert(b.contents().dom().contains(id) == (a.contents().dom().contains(id) || new.contains(id)));
}

/// A step takes no more pages than it may, and gives none back.
pub proof fn law_pages_that_a_step_takes(a: &PageCache, b: &PageCache, n: nat)
    requires
        grown_by(a, b, n),
    ensures
        a.watermark() <= b.watermark() <= a.watermark() + n,
        a.pending() <= b.pending() <= a.pending() + n,
        b.disk() == a.disk(),
        b.page_limit() == a.page_limit(),
        b.spill_limit() == a.spill_limit(),
{
}

/// When a value comes, goes or moves, the page that it left counts one value less and the page
/// that it came to one more; all others count what they did.
pub proof fn law_values_are_recounted(
    live0: Map<u64, u64>,
    live1: Map<u64, u64>,
    before: Option<HandleEntry>,
    after: Option<HandleEntry>,
    p: u64,
)
    requires
        recounted(live0, live1, before, after),
    ensures
        count_of(live1, p) - count_of(live0, p) == on_page(after, p) - on_page(before, p),
        count_of(live0, p) == (if live0.contains_key(p) { live0[p] as int } else { 0 }),
        on_page(after, p) == (match after {
            Some(e) => if e.flags == HandleFlags::Live && e.page_id == p { 1int } else { 0 },
            None => 0,
        }),
        live1.contains_key(p) ==> live1[p] > 0,
{
    assert(count_of(live1, p) == count_of(live0, p) - on_page(before, p) + on_page(after, p));
}

/// With a value go the page that it leaves empty and the pages of its chain, in turn; nothing
/// else is given up.
pub proof fn law_pages_given_up(w1: &Workspace, w2: &Workspace, emptied: Option<u64>, chain: Seq<u64>, id: u64)
    requires
        gives_up(w1, w2, emptied, chain),
    ensures
        w2.freed@.contains(id) <==> w1.freed@.contains(id) || emptied == Some(id) || chain.contains(id),
        w2.db() == w1.db(),
        emptied matches Some(p) ==> w2.cursor != Some(p),
{
    let kept = match emptied {
        Some(p) => w1.freed@.push(p),
        None => w1.freed@,
    };
    assert(kept.contains(id) <==> w1.freed@.contains(id) || emptied == Some(id)) by {
        if let Some(p) = emptied {
            if w1.freed@.contains(id) {
                assert(kept[w1.freed@.index_of(id)] == id);
            }
            assert(kept[w1.freed@.len() as int] == p);
        }
    }
    let all = kept + chain;
    if kept.contains(id) {
        assert(all[kept.index_of(id)] == id);
    }
    if chain.contains(id) {
        assert(all[kept.len() + chain.index_of(id)] == id);
    }
    if all.contains(id) {
        let i = all.index_of(id);
        assert(all[i] == id);
        if i < kept.len() {
            assert(kept[i] == id);
        } else {
            assert(chain[i - kept.len()] == id);
        }
    }
}

/// The pages of a value in a chain are listed; a value on a data page has none to list.
pub proof fn law_chain_is_listed(pages: Map<u64, Seq<u8>>, entry: HandleEntry, chain: Seq<u64>, id: u64)
    requires
        lists_chain(pages, entry, chain),
    ensures
        entry.flags == HandleFlags::Overflow ==> (chain.contains(id) <==> value_pages(pages, entry).contains(id)),
        entry.flags != HandleFlags::Overflow ==> chain.len() == 0,
{
}

/// A page of a freemap cannot be used if it is damaged or of another kind, and the error says
/// which.
pub proof fn law_faults_of_a_freemap(c: &PageCache, p: u64, level: nat, e: ChiselError)
    requires
        page_fault(c, p, level, e),
    ensures
        e.is_fatal(),
        e is CorruptPage ==> e == (ChiselError::CorruptPage { page_id: p }) && page_at(c.contents(), p)[0] != (
        if level == 0 {
            4u8
        } else {
            7u8
        }),
        e !is CorruptPage ==> !c.sound(p),
        e is ChecksumMismatch ==> e == (ChiselError::ChecksumMismatch { page_id: p }),
        e is InvalidPageId ==> e == (ChiselError::InvalidPageId { page_id: p }),
        e is CorruptPage || e is ChecksumMismatch || e is InvalidPageId,
{
}

/// A fault on the path of a page, or anywhere in a freemap, is that of one of its pages.
pub proof fn law_faults_are_of_pages(c: &PageCache, root: u64, depth: nat, h: nat, e: ChiselError)
    requires
        path_fault(c, root, depth, h, e) || tree_fault(c, root, depth, e),
    ensures
        e.is_fatal(),
        e is ChecksumMismatch || e is InvalidPageId || e is CorruptPage,
{
}

/// The limits are at fault only if they are passed.
pub proof fn law_faults_of_the_limits(c: &PageCache, e: ChiselError)
    ensures
        limits_fault(c, e) <==> (c.pending() - c.page_limit()) * 8192 > c.spill_limit() && e == c.pressure_error(),
{
    crate::cache_laws::law_spillway_holds_its_bytes(c);
}

/// A lookup fails by the limits or by a damaged page on the way.
pub proof fn law_errors_on_a_path(c: &PageCache, n: nat, page: u64, level: nat, h: nat, e: ChiselError)
    requires
        path_explains(c, n, page, level, h, e),
    ensures
        c.pending() <= c.capacity() ==> path_unsound(c, n, page, level, h, e),
        path_unsound(c, n, page, level, h, e) ==> e is ChecksumMismatch || e is InvalidPageId,
        e == c.pressure_error() || e.is_fatal(),
{
}

/// A lookup of a tag fails by the limits, by a damaged page, or by a damaged record of the tag.
pub proof fn law_errors_of_the_index(c: &PageCache, root: u64, depth: nat, tag: u32, e: ChiselError)
    requires
        index_explains(c, root, depth, tag, e),
        c.pending() <= c.capacity(),
    ensures
        e.is_fatal(),
        e is CorruptPage ==> ({
            let packed = tag_value(c.contents(), root, depth, tag);
            &&& e == (ChiselError::CorruptPage { page_id: (packed % 0x400_0000_0000_0000) as u64 })
            &&& packed / 0x400_0000_0000_0000 > 6
        }),
{
}

/// A chain that cannot be read fails by the limits or by a damaged page that the walk comes to.
pub proof fn law_errors_on_a_chain(c: &PageCache, first: u64, e: ChiselError)
    requires
        chain_explains(c, first, e),
        c.pending() <= c.capacity(),
    ensures
        e is ChecksumMismatch || e is InvalidPageId,
        exists|i: nat| e == c.read_error(#[trigger] link(c.contents(), first, i)),
{
}

/// The entries of a table are listed in ascending order of their handles, all of them.
pub proof fn law_entries_are_listed(
    pages: Map<u64, Seq<u8>>,
    r: Roots,
    list: Seq<(u64, HandleEntry)>,
    h: u64,
    e: HandleEntry,
    i: int,
    j: int,
)
    requires
        entries_listed(pages, r, list),
    ensures
        list.contains((h, e)) <==> entry_of(pages, r, h) == Some(e),
        0 <= i < j < list.len() ==> list[i].0 < list[j].0,
{
}

/// The tags of an index are listed in ascending order, each with its record.
pub proof fn law_tags_are_listed(
    pages: Map<u64, Seq<u8>>,
    r: Roots,
    list: Seq<(u32, u64)>,
    t: u32,
    v: u64,
    i: int,
    j: int,
)
    requires
        tags_listed(pages, r, list),
    ensures
        list.contains((t, v)) <==> tag_value(pages, r.index_root, r.index_depth as nat, t) == v && v != 0,
        0 <= i < j < list.len() ==> list[i].0 < list[j].0,
{
}

/// The pages of the chains of some entries.
pub proof fn law_pages_of_chains(pages: Map<u64, Seq<u8>>, list: Seq<(u64, HandleEntry)>, i: int, j: int, id: u64)
    requires
        0 <= j < i <= list.len(),
        list[j].1.flags == HandleFlags::Overflow,
        value_pages(pages, list[j].1).contains(id),
    ensures
        chain_nodes(pages, list, i).contains(id),
{
}

/// A value can be read exactly if its pages are good, and its slot is live or its chain is
/// complete.
pub proof fn law_values_that_can_be_read(pages: Map<u64, Seq<u8>>, good: Set<u64>, e: HandleEntry)
    ensures
        e.flags == HandleFlags::Live ==> (value_ok(pages, good, e) <==> good.contains(e.page_id)
            && crate::data_page::slot_value(page_at(pages, e.page_id), e.slot_index as int) is Some),
        e.flags == HandleFlags::Overflow ==> (value_ok(pages, good, e) <==> crate::store::chain_pages(
            pages,
            e.page_id,
        ).subset_of(good) && crate::overflow::chain_complete(pages, e.page_id)),
{
    if e.flags == HandleFlags::Live {
        assert(value_pages(pages, e).contains(e.page_id));
    }
}

/// What is unclaimed lies in the range and is not claimed; it is intact if its checksum is
/// right.
pub proof fn law_unclaimed_pages(pages: Map<u64, Seq<u8>>, lo: u64, hi: u64, claimed: Set<u64>, id: u64)
    ensures
        unclaimed(lo, hi, claimed).contains(id) <==> lo <= id && id < hi && !claimed.contains(id),
        intact(pages, lo, hi, claimed).contains(id) <==> lo <= id && id < hi && !claimed.contains(id)
            && crate::bytes::le64(page_at(pages, id), 8184) == xxh3_hash(page_at(pages, id).subrange(0, 8184)),
{
}

/// A state that is published is on storage: its pages are saved, its superblock stands in the
/// slot of its counter, and the other slots are as they were.
pub proof fn law_published_states(w0: &Workspace, w1: &Workspace, counter: u64, j: int)
    requires
        published(w0, w1, counter),
        w0.slots > 0,
        0 <= j < w0.slots,
    ensures
        w1.db() == w0.db(),
        w1.roots == w0.roots,
        w1.cache.pending() == 0,
        j != counter % (w0.slots as u64) ==> w1.cache.disk()[j] == w0.cache.disk()[j],
        j == counter % (w0.slots as u64) ==> {
            &&& crate::bytes::le64(w1.cache.disk()[j], 8) == counter
            &&& crate::bytes::le64(w1.cache.disk()[j], 8184) == xxh3_hash(w1.cache.disk()[j].subrange(0, 8184))
            &&& crate::bytes::le64(w1.cache.disk()[j], 40) == w1.roots.next_handle
            &&& crate::bytes::le64(w1.cache.disk()[j], 16) == w1.roots.table_root
        },
{
}

/// Saving pages leaves on storage every page that was saved before and has not changed.
pub proof fn law_saving_leaves_saved_pages(w: &Workspace, disk: Seq<Seq<u8>>, id: u64)
    requires
        disk_kept(w, disk),
        id < w.cache.disk().len(),
        id < w.cache.watermark(),
        !w.cache.unsaved().contains(id),
    ensures
        id < disk.len(),
        disk[id as int] == w.cache.disk()[id as int],
{
}

/// The limits are passed exactly if more pages wait than cache and spillway hold.
pub proof fn law_overfull(tm: &TransactionManager, e: ChiselError)
    ensures
        tm.overfull(e) <==> ({
            let c = tm.current().cache;
            (c.pending() - c.page_limit()) * 8192 > c.spill_limit() && e == c.pressure_error()
        }),
{
    crate::cache_laws::law_spillway_holds_its_bytes(&tm.current().cache);
}

/// Superblock slots fit each other if the slot of the counter has it and every other valid slot
/// has a lower one.
pub proof fn law_slots_that_fit(disk: Seq<Seq<u8>>, n: u32, counter: u64, j: int)
    requires
        slots_fit(disk, n, counter),
        0 <= j < n,
        slot_defect(disk[j]) is None,
    ensures
        slot_for(counter, n) == counter % (n as u64),
        j == counter % (n as u64) ==> crate::bytes::le64(disk[j], 8) == counter,
        j != counter % (n as u64) ==> crate::bytes::le64(disk[j], 8) < counter,
{
}

/// New pages of a freemap mark nothing free and have no children.
pub proof fn law_new_pages_of_a_freemap(s: Seq<u8>, i: nat, id: u64)
    ensures
        empty_leaf(s) ==> s[0] == 4 && !free_ids(s).contains(id),
        empty_interior(s) && i < 1021 ==> s[0] == 7 && child_of(s, i) == 0,
        head_of(s) == (s[0], s[1]),
{
    if empty_leaf(s) && id < 65344 {
        assert(!crate::freemap::marked_free(s, (id as nat) as u64));
    }
}

/// A source that only extends the storage hands out pages past its end; one with a freemap
/// hands out what the freemap marks free first.
pub proof fn law_pages_to_hand_out(x: &Extend, r: &Recycler, c: &PageCache, id: u64)
    ensures
        x.footprint(c).contains(id) <==> id >= c.watermark(),
        !x.spare(c).contains(id),
        r.spare(c).contains(id) <==> r.tree.root != u64::MAX && crate::freemap_tree::tracked_free(
            c.contents(),
            r.tree.root,
            r.tree.depth as nat,
            id,
        ),
        id >= c.watermark() || r.spare(c).contains(id) ==> r.footprint(c).contains(id),
{
}

} // verus!
