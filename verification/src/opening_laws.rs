//! Laws of opening a database: which superblock counts, what is turned down, and what
//! the options ask for.

use vstd::prelude::*;

use crate::bytes::{le32, le64};
use crate::chisel::{cache_options, is_empty, is_new, Chisel};
use crate::error::ChiselError;
use crate::opening::{
    all_defective, byte_size, current_superblock, defect_at, file_there, first_valid, is_current, refused_options,
    rejected, slot_span, unopenable,
};
use crate::options::Options;
use crate::page_cache::PageCache;
use crate::superblock::{encodes, slot_defect, SlotDefect, Superblock, SuperblockDefect};
use crate::transaction::{describes, empty_roots, empty_superblock, opened_as, slot_for, superblock_of, TransactionManager};
use crate::workspace::Workspace;

verus! {

/// A slot counts as a superblock exactly if the storage has it, its page is one, and the
/// count on that page covers the slot.
pub proof fn law_slots_that_count(disk: Seq<Seq<u8>>, i: int)
    requires
        0 <= i,
    ensures
        defect_at(disk, i) is None <==> i < disk.len() && slot_defect(disk[i]) is None && i < le32(disk[i], 52),
        i >= disk.len() ==> defect_at(disk, i) == Some(SuperblockDefect::TooShort),
        i < disk.len() && slot_defect(disk[i]) is Some ==> defect_at(disk, i) == slot_defect(disk[i]),
        i < disk.len() && slot_defect(disk[i]) is None && le32(disk[i], 52) <= i ==> (defect_at(disk, i) matches Some(
            SuperblockDefect::BadCount(n),
        ) && n == le32(disk[i], 52)),
{
    if i < disk.len() {
        crate::format_laws::law_u32_bytes(disk[i], 52);
    }
}

/// The first superblock is one, and no slot before it is; there is none exactly if none
/// of the sixteen slots is one.
pub proof fn law_first_superblock(disk: Seq<Seq<u8>>, i: int)
    requires
        0 <= i <= 16,
    ensures
        match first_valid(disk, i) {
            Some(k) => {
                &&& i <= k < 16
                &&& defect_at(disk, k) is None
                &&& forall|j: int| i <= j < k ==> #[trigger] defect_at(disk, j) is Some
            },
            None => forall|j: int| i <= j < 16 ==> #[trigger] defect_at(disk, j) is Some,
        },
    decreases 16 - i,
{
    if i < 16 && defect_at(disk, i) is Some {
        law_first_superblock(disk, i + 1);
    }
}

/// The slots to choose from are as many as the first superblock says, cut off at the end
/// of the storage.
pub proof fn law_slots_to_choose_from(disk: Seq<Seq<u8>>)
    ensures
        first_valid(disk, 0) is None ==> slot_span(disk) == 0,
        first_valid(disk, 0) matches Some(k) ==> {
            &&& k < slot_span(disk) <= 16
            &&& slot_span(disk) <= disk.len()
            &&& slot_span(disk) <= le32(disk[k], 52)
            &&& slot_span(disk) == disk.len() || slot_span(disk) == le32(disk[k], 52)
        },
{
    law_first_superblock(disk, 0);
    if let Some(k) = first_valid(disk, 0) {
        crate::format_laws::law_superblock_defects(disk[k]);
    }
}

/// The current superblock is the newest of those to choose from: each of the others has
/// made fewer commits, or as many and stands behind it. So there is at most one.
pub proof fn law_current_superblock_is_newest(disk: Seq<Seq<u8>>, i: int, j: int)
    requires
        is_current(disk, i),
        0 <= j < slot_span(disk),
        slot_defect(disk[j]) is None,
    ensures
        0 <= i < slot_span(disk),
        slot_defect(disk[i]) is None,
        le64(disk[j], 8) < le64(disk[i], 8) || le64(disk[j], 8) == le64(disk[i], 8) && i <= j,
        is_current(disk, j) ==> i == j,
{
}

/// Two readings of the current superblock agree.
pub proof fn law_one_current_superblock(disk: Seq<Seq<u8>>, a: Superblock, b: Superblock)
    requires
        current_superblock(disk, a),
        current_superblock(disk, b),
    ensures
        a.txn_counter == b.txn_counter,
        a.format_version == b.format_version,
        a.page_size == b.page_size,
        a.root_handle_table_page == b.root_handle_table_page,
        a.root_freemap_page == b.root_freemap_page,
        a.freemap_depth == b.freemap_depth,
        a.root_membership_index_page == b.root_membership_index_page,
        a.total_pages == b.total_pages,
        a.next_handle == b.next_handle,
        a.superblock_count == b.superblock_count,
{
    let i = choose|i: int| #[trigger] is_current(disk, i) && encodes(disk[i], a);
    let j = choose|j: int| #[trigger] is_current(disk, j) && encodes(disk[j], b);
    assert(i == j);
    crate::superblock::law_superblock_round_trip(disk[i], a, b);
}

/// A size in bytes is 8192 times the number of pages, or the highest number if that is
/// too much.
pub proof fn law_size_in_bytes(pages: nat)
    ensures
        pages * 8192 <= u64::MAX ==> byte_size(pages) == pages * 8192,
        pages * 8192 > u64::MAX ==> byte_size(pages) == u64::MAX,
{
}

/// A storage is turned down exactly if its major version is not 1, its pages are not of
/// 8192 bytes, or it is shorter than its superblock says; the first of these is reported,
/// with what was found and what was expected.
pub proof fn law_storage_that_is_turned_down(disk: Seq<Seq<u8>>, sb: Superblock)
    ensures
        rejected(disk, sb) is None <==> sb.format_version / 0x1_0000 == 1 && sb.page_size == 8192 && sb.total_pages
            <= disk.len(),
        sb.format_version / 0x1_0000 != 1 ==> (rejected(disk, sb) matches Some(
            ChiselError::UnsupportedFormatVersion { found, expected },
        ) && found == sb.format_version && expected == 0x1_0001),
        sb.format_version / 0x1_0000 == 1 && sb.page_size != 8192 ==> (rejected(disk, sb) matches Some(
            ChiselError::UnsupportedPageSize { stored, compiled },
        ) && stored == sb.page_size && compiled == 8192),
        sb.format_version / 0x1_0000 == 1 && sb.page_size == 8192 && sb.total_pages > disk.len() ==> (rejected(
            disk,
            sb,
        ) matches Some(ChiselError::FileSizeMismatch { expected, actual }) && {
            &&& sb.total_pages * 8192 <= u64::MAX ==> expected == sb.total_pages * 8192
            &&& disk.len() * 8192 <= u64::MAX ==> actual == disk.len() * 8192
        }),
{
}

/// If no slot is a superblock, the defects of all sixteen are listed in turn.
pub proof fn law_all_defects_are_listed(disk: Seq<Seq<u8>>, defects: Seq<SlotDefect>, i: int)
    requires
        all_defective(disk, defects),
        0 <= i < 16,
    ensures
        defects.len() == 16,
        defects[i].slot == i,
        defect_at(disk, i) == Some(defects[i].defect),
        first_valid(disk, 0) is None,
{
    law_first_superblock(disk, 0);
    if let Some(k) = first_valid(disk, 0) {
        assert(defects[k].slot == k);
    }
    assert(defects[i].slot == i);
}

/// Options are refused exactly if they ask for fewer than two or more than sixteen
/// superblock slots, or for key derivation costs that cannot be used; the slots are
/// looked at first.
pub proof fn law_options_that_are_refused(options: Options)
    ensures
        refused_options(options) is None <==> 2 <= options.superblock_count <= 16 && (options.argon2_params matches Some(p)
            ==> p.t_cost >= 1 && p.p_cost >= 1 && p.m_cost >= 8 * p.p_cost),
        !(2 <= options.superblock_count <= 16) ==> (refused_options(options) matches Some(
            ChiselError::InvalidSuperblockCount { value },
        ) && value == options.superblock_count),
        2 <= options.superblock_count <= 16 && refused_options(options) is Some ==> (refused_options(options) matches Some(
            ChiselError::InvalidArgon2Params { m_cost, t_cost, p_cost },
        ) && (options.argon2_params matches Some(p) && m_cost == p.m_cost && t_cost == p.t_cost && p_cost == p.p_cost)),
{
}

/// A file is opened unless the options are refused, or it is missing or empty and must
/// not be made.
pub proof fn law_files_that_are_opened(length: Option<u64>, options: Options)
    ensures
        file_there(length) <==> length is Some && length != Some(0u64),
        unopenable(length, options) is None <==> refused_options(options) is None && (options.create_if_missing
            || length is Some && length != Some(0u64)),
        refused_options(options) is Some ==> unopenable(length, options) == refused_options(options),
        refused_options(options) is None && unopenable(length, options) is Some ==> unopenable(length, options)->0 is FileNotFound,
{
}

/// The cache of an opened database has the limits that the options ask for: as many
/// whole pages as fit the byte limit, but at least one.
pub proof fn law_cache_is_as_asked(c: &PageCache, options: Options)
    requires
        cache_options(c, options),
    ensures
        c.page_limit() >= 1,
        c.page_limit() == 1 || c.page_limit() * 8192 <= options.cache_max_bytes,
        options.cache_max_bytes < (c.page_limit() + 1) * 8192,
        c.spill_limit() == options.spillway_max_bytes,
        c.policy() == options.drain_insertion,
{
    crate::page_cache::law_page_limit_fits_the_bytes(options.cache_max_bytes);
}

/// A new database has no value and no name, its first value gets handle 1, and its
/// storage is its superblock slots.
pub proof fn law_new_database(db: &Chisel, options: Options)
    requires
        is_new(db, options),
    ensures
        is_empty(db),
        forall|h: u64| !(#[trigger] db.db().contains_key(h)) && !db.committed_db().contains_key(h),
        forall|name: Seq<u8>| !(#[trigger] db.names().contains_key(name)),
        db.manager().next_handle() == 1,
        !db.manager().running(),
        !db.manager().spoiled(),
        db.manager().current().slots == options.superblock_count,
        db.manager().current().cache.disk().len() == options.superblock_count,
{
    assert forall|h: u64| !(#[trigger] db.db().contains_key(h)) && !db.committed_db().contains_key(h) by {}
}

/// The roots of an empty database lead nowhere.
pub proof fn law_empty_database(n: u32, counter: u64, names: [crate::superblock::NamedRoot; 8])
    ensures
        empty_roots(names).table_root == u64::MAX,
        empty_roots(names).index_root == u64::MAX,
        empty_roots(names).next_handle == 1,
        empty_superblock(n, counter, names).root_handle_table_page == u64::MAX,
        empty_superblock(n, counter, names).root_freemap_page == u64::MAX,
        empty_superblock(n, counter, names).root_membership_index_page == u64::MAX,
        empty_superblock(n, counter, names).txn_counter == counter,
        empty_superblock(n, counter, names).total_pages == n,
        empty_superblock(n, counter, names).superblock_count == n,
        empty_superblock(n, counter, names).next_handle == 1,
        empty_superblock(n, counter, names).magic == 0x4348_534c,
        empty_superblock(n, counter, names).format_version == 0x1_0001,
        empty_superblock(n, counter, names).page_size == 8192,
        empty_superblock(n, counter, names).named_roots == names,
{
}

/// What was opened goes on where the superblock says: with its count of commits, its
/// next handle, its names, its number of pages and slots, and its roots.
pub proof fn law_opened_where_it_was_left(tm: &TransactionManager, sb: Superblock)
    requires
        opened_as(tm, sb),
    ensures
        tm.commits() == sb.txn_counter,
        tm.next_handle() == sb.next_handle,
        tm.current().cache.watermark() == sb.total_pages,
        tm.current().slots == sb.superblock_count,
        tm.current().roots.table_root == sb.root_handle_table_page,
        tm.current().roots.index_root == sb.root_membership_index_page,
        tm.current().recycler.saved_root == sb.root_freemap_page,
        tm.current().recycler.saved_depth == sb.freemap_depth,
        tm.current().roots.names == sb.named_roots,
        tm.names() == crate::names::bindings(sb.named_roots@),
{
}

/// Commits go round the superblock slots: each has a slot, a commit takes the slot after
/// that of the commit before, and after the last slot comes the first.
pub proof fn law_slots_take_turns(counter: u64, n: u32)
    requires
        n > 0,
    ensures
        0 <= slot_for(counter, n) < n,
        counter < n ==> slot_for(counter, n) == counter,
        counter < u64::MAX && slot_for(counter, n) + 1 < n ==> slot_for((counter + 1) as u64, n) == slot_for(counter, n)
            + 1,
        counter < u64::MAX && slot_for(counter, n) + 1 == n ==> slot_for((counter + 1) as u64, n) == 0,
{
    let m = n as int;
    let c = counter as int;
    vstd::arithmetic::div_mod::lemma_fundamental_div_mod(c, m);
    vstd::arithmetic::div_mod::lemma_mod_bound(c, m);
    let q = c / m;
    let r = c % m;
    if counter < n {
        vstd::arithmetic::div_mod::lemma_small_mod(counter as nat, n as nat);
    }
    if r + 1 < m {
        vstd::arithmetic::div_mod::lemma_fundamental_div_mod_converse(c + 1, m, q, r + 1);
    } else {
        assert(c + 1 == m * (q + 1)) by (nonlinear_arith)
            requires
                c == m * q + r,
                r + 1 == m,
        ;
        vstd::arithmetic::div_mod::lemma_fundamental_div_mod_converse(c + 1, m, q + 1, 0);
    }
}

/// A storage that describes a superblock has it in the slot of its counter, and no other
/// slot has one as new.
pub proof fn law_described_superblock(disk: Seq<Seq<u8>>, n: u32, sb: Superblock, j: int)
    requires
        describes(disk, n, sb),
        0 <= j < n,
    ensures
        2 <= n <= 16,
        n <= disk.len(),
        sb.superblock_count == n,
        j == sb.txn_counter % (n as u64) ==> slot_defect(disk[j]) is None && le64(disk[j], 8) == sb.txn_counter,
        j != sb.txn_counter % (n as u64) && slot_defect(disk[j]) is None ==> le64(disk[j], 8) < sb.txn_counter,
{
}

/// The superblock of a state records its roots, its next handle, its names, its number of
/// pages and slots, and its freemap.
pub proof fn law_superblock_of_a_state(w: &Workspace, counter: u64, version: u32)
    ensures
        superblock_of(w, counter, version).magic == 0x4348_534c,
        superblock_of(w, counter, version).format_version == version,
        superblock_of(w, counter, version).txn_counter == counter,
        superblock_of(w, counter, version).page_size == 8192,
        superblock_of(w, counter, version).superblock_count == w.slots,
        superblock_of(w, counter, version).total_pages == w.cache.watermark(),
        superblock_of(w, counter, version).next_handle == w.roots.next_handle,
        superblock_of(w, counter, version).root_handle_table_page == w.roots.table_root,
        superblock_of(w, counter, version).root_membership_index_page == w.roots.index_root,
        superblock_of(w, counter, version).root_freemap_page == w.recycler.saved_root,
        superblock_of(w, counter, version).freemap_depth == w.recycler.saved_depth,
        superblock_of(w, counter, version).named_roots == w.roots.names,
{
}

} // verus!
