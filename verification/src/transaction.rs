//! Transactions.
//!
//! The superblock that the storage holds describes the committed state. A
//! transaction works on pages that this state does not use, so it can be given
//! up at any time; a commit writes the next superblock.

use vstd::prelude::*;

use vstd::utf8::encode_utf8;

use rustc_hash::FxHashMap;

use crate::tagging::still_tagged;
use crate::audit::{fine, lemma_clean_fine, lemma_map_fine, map_fine, map_pages, opened};
use crate::bytes::le32;
use crate::commit::{
    at_risk, clean, disk_map, held_apart, lemma_held_all, persist_pages, published, save_load, saved_in_order, to_free,
};
use crate::data_page::{lemma_slot_length, slot_count_of, DataPage};
use crate::entries::table_set_pages;
use crate::error::{io_failure, ChiselError};
use crate::forest::{lemma_nodes, nodes_of};
use crate::freemap_tree::{node_ok, tree_typed, LEAF_CAPACITY};
use crate::fx::{map_clone, map_contains, map_get, map_new};
use crate::handle_table::{
    law_depth_is_recovered, left_depth, left_page, HandleEntry, HandleFlags, HandleTable, ENTRIES_PER_LEAF,
};
use crate::inspect::{fits, unclaimed, Shape};
use crate::listing::tree_explains;
use crate::membership_index::{
    index_explains, index_in, index_ok, index_page, index_roots, is_member, members_listed, tag_value, INNER_ROOT_MASK,
};
use crate::names::{
    bind_root, bindings, find_root, first_named, free_names, law_full_table, lemma_padded, name_valid, names_apart,
    padded, stored_name, unbind_root,
};
use crate::opening::{
    all_defective, current_superblock, discover, first_valid, is_current, rejected, slot_span,
};
use crate::operations::{allocate_pages, delete_pages, gave_back, has_room, newly_placed, refused, update_pages};
use crate::orphans::{lemma_orphan_count, orphans};
use crate::overflow::{pages_for, OVERFLOW_PAYLOAD};
use crate::page::{
    checksum_ok, format_minor, FORMAT_MAJOR_VERSION, FORMAT_MINOR_VERSION, FORMAT_VERSION, MAGIC, PAGE_ID_NONE,
    PAGE_SIZE,
};
use crate::options::DrainInsertion;
use crate::page_cache::{page_limit_of, trimmed, PageCache};
use crate::page_io::{bumped, lemma_replay_next, replay, written, IoAction, PageIo};
use crate::page_source::{agree_on, filled, grown_by, overrun, too_many, PageSource};
use crate::pool::{counts_ok, good, lemma_below_len, lemma_residents_finite, lemma_same_counts, residents, stray};
use crate::persist::{map_frees, map_nodes};
use crate::placement::{cursor_fits, goes_to, next_in_line, MAX_INLINE_VALUE};
use crate::radix::{child_of, is_tree, lemma_reach_pos, node_at, page_at, reach, same_on, tree_in};
use crate::radix_u64::{law_radix_depth_is_recovered, radix_left_depth, radix_left_page, RadixU64, SLOTS_PER_PAGE};
use crate::recycler::{lemma_map_same, sound_pages, Recycler};
use crate::stats::ChiselCounters;
use crate::store::{
    database, entry_of, index_has, index_nodes, lemma_same_places, lemma_store_kept, lemma_used_good, record_of,
    same_places, same_store, sound_store, table_nodes, tags_agree, unused, value_of, value_ok, value_pages, Record,
    Roots,
};
use crate::superblock::{
    count_ok, counter_of, encodes, law_superblock_round_trip, slot_defect, MAX_SUPERBLOCKS, NAMED_ROOT_COUNT, NamedRoot,
    Superblock,
};
use crate::text::same_text;
use crate::workspace::{
    accounted, evolved, kept_by, lemma_evolved_chain, lemma_evolved_reset, lemma_evolved_state, lemma_good_reads,
    lemma_index_reads, lemma_keeps_account, lemma_looked, lemma_none_noted, lemma_tree_reads, looked, Workspace,
};

verus! {

/// The superblock slots fit each other: the slot of the counter has it, and the
/// others have lower ones.
pub open spec fn slots_fit(disk: Seq<Seq<u8>>, n: u32, counter: u64) -> bool {
    &&& n <= disk.len()
    &&& slot_defect(disk[slot_for(counter, n)]) is None
    &&& counter_of(disk[slot_for(counter, n)]) == counter
    &&& forall|j: int|
        0 <= j < n && j != slot_for(counter, n) && slot_defect(#[trigger] disk[j]) is None ==> counter_of(disk[j])
            < counter && le32(disk[j], 52) == n
}

/// Slots that fit each other describe the current superblock.
proof fn lemma_slots_described(disk: Seq<Seq<u8>>, n: u32, sb: Superblock)
    requires
        count_ok(n as int),
        sb.superblock_count == n,
        current_superblock(disk, sb),
        slots_fit(disk, n, sb.txn_counter),
    ensures
        describes(disk, n, sb),
{
    let i = choose|i: int| #[trigger] is_current(disk, i) && encodes(disk[i], sb);
    let s = slot_for(sb.txn_counter, n);
    assert(counter_of(disk[i]) == sb.txn_counter);
    if i != s {
        if i < n {
            assert(counter_of(disk[i]) < sb.txn_counter);
        } else {
            assert(counter_of(disk[s]) < counter_of(disk[i]));
        }
    }
}

/// The superblock slots fit each other.
fn check_slots(io: &PageIo, n: u32, counter: u64) -> (fit: bool)
    requires
        count_ok(n as int),
    ensures
        fit == slots_fit(io.pages(), n, counter),
{
    let ghost disk = io.pages();
    let current: u64 = counter % (n as u64);
    let mut i: u64 = 0;
    while i < n as u64
        invariant
            i <= n,
            count_ok(n as int),
            disk == io.pages(),
            current == slot_for(counter, n),
            i <= disk.len(),
            forall|j: int|
                0 <= j < i && j != current && slot_defect(#[trigger] disk[j]) is None ==> counter_of(disk[j]) < counter
                    && le32(disk[j], 52) == n,
            current < i ==> slot_defect(disk[current as int]) is None && counter_of(disk[current as int]) == counter,
        decreases n - i,
    {
        let page = match io.read_page(i) {
            Ok(page) => page,
            Err(_) => {
                return false;
            },
        };
        assert(page@ == disk[i as int]);
        match Superblock::deserialize(&page) {
            Ok(sb) => {
                if i == current {
                    if sb.txn_counter != counter {
                        return false;
                    }
                } else if sb.txn_counter >= counter || sb.superblock_count != n {
                    return false;
                }
            },
            Err(_) => {
                if i == current {
                    return false;
                }
            },
        }
        i += 1;
    }
    true
}

/// A named mark within a transaction.
pub struct Savepoint {
    /// The name.
    pub name: String,
    /// The roots at the time.
    pub roots: Roots,
    /// How many pages had been freed.
    pub freed: usize,
    /// The data page that values were added to.
    pub cursor: Option<u64>,
    /// The number of values on each data page.
    pub live: FxHashMap<u64, u64>,
}

/// The superblock slot with this counter.
pub open spec fn slot_for(counter: u64, n: u32) -> int {
    (counter % (n as u64)) as int
}

/// The storage says what the committed state is: the slot of its counter holds
/// its superblock, and no other slot has a counter as high or another count.
pub open spec fn describes(disk: Seq<Seq<u8>>, n: u32, sb: Superblock) -> bool {
    &&& count_ok(n as int)
    &&& n <= disk.len()
    &&& sb.superblock_count == n
    &&& slot_defect(disk[slot_for(sb.txn_counter, n)]) is None
    &&& encodes(disk[slot_for(sb.txn_counter, n)], sb)
    &&& forall|j: int|
        0 <= j < n && j != slot_for(sb.txn_counter, n) && slot_defect(#[trigger] disk[j]) is None ==> counter_of(
            disk[j],
        ) < sb.txn_counter && le32(disk[j], 52) == n
}

/// The superblock that describes a state.
pub open spec fn superblock_of(w: &Workspace, counter: u64, version: u32) -> Superblock {
    Superblock {
        magic: MAGIC,
        format_version: version,
        txn_counter: counter,
        root_handle_table_page: w.roots.table_root,
        root_freemap_page: w.recycler.saved_root,
        freemap_depth: w.recycler.saved_depth,
        root_membership_index_page: w.roots.index_root,
        total_pages: w.cache.watermark(),
        next_handle: w.roots.next_handle,
        page_size: PAGE_SIZE as u32,
        superblock_count: w.slots,
        named_roots: w.roots.names,
    }
}

/// A savepoint can be gone back to.
pub open spec fn savepoint_ok(w: &Workspace, sp: Savepoint) -> bool {
    &&& sp.freed <= w.freed@.len()
    &&& w.holds(sp.roots, w.freed@.take(sp.freed as int), sp.cursor)
    &&& w.fits(sp.roots, sp.live@)
}

/// The savepoints can be gone back to, and no two have the same name.
pub open spec fn savepoints_ok(w: &Workspace, savepoints: Seq<Savepoint>) -> bool {
    &&& forall|i: int| 0 <= i < savepoints.len() ==> savepoint_ok(w, #[trigger] savepoints[i])
    &&& forall|i: int, j: int|
        0 <= i < j < savepoints.len() ==> (#[trigger] savepoints[i]).name@ != (#[trigger] savepoints[j]).name@
            && savepoints[i].freed <= savepoints[j].freed
}

/// Runs transactions on the pages of a database.
pub struct TransactionManager {
    work: Workspace,
    base: Ghost<Workspace>,
    spent: Ghost<nat>,
    counter: u64,
    version: u32,
    committed: Roots,
    committed_pages: u64,
    committed_live: FxHashMap<u64, u64>,
    active: bool,
    poisoned: bool,
    checked: bool,
    found: u64,
    told: bool,
    savepoints: Vec<Savepoint>,
}

impl TransactionManager {
    /// The state that a transaction has reached.
    pub closed spec fn current(&self) -> Workspace {
        self.work
    }

    /// The committed state, as it was when the transaction began.
    pub closed spec fn origin(&self) -> Workspace {
        self.base@
    }

    /// Counts the commits.
    pub closed spec fn commits(&self) -> u64 {
        self.counter
    }

    /// A transaction is running.
    pub closed spec fn running(&self) -> bool {
        self.active
    }

    /// A failure was for good.
    pub closed spec fn spoiled(&self) -> bool {
        self.poisoned
    }

    /// The pages are known to be sound.
    pub closed spec fn vetted(&self) -> bool {
        self.checked
    }

    /// How many pages of former freemaps were found that nothing led to. They are the
    /// first of those noted to be freed; a commit frees them if its transaction has
    /// reported them.
    pub closed spec fn stranded(&self) -> u64 {
        self.found
    }

    /// The running transaction has reported them.
    pub closed spec fn told(&self) -> bool {
        self.told
    }

    /// The savepoints.
    pub closed spec fn marks(&self) -> Seq<Savepoint> {
        self.savepoints@
    }

    /// What the handles stand for.
    pub open spec fn db(&self) -> Map<u64, Record> {
        self.current().db()
    }

    /// What the handles stand for in the committed state.
    pub open spec fn committed_db(&self) -> Map<u64, Record> {
        self.origin().db()
    }

    /// What the handles stood for at a savepoint.
    pub open spec fn marked_db(&self, i: int) -> Map<u64, Record> {
        database(self.current().cache.contents(), self.marks()[i].roots)
    }

    /// Everything fits, unless a failure was for good. Pages that were only
    /// opened may hold anything.
    pub closed spec fn inv(&self) -> bool {
        self.poisoned || !self.checked && self.just_opened() || self.checked && {
            &&& clean(&self.base@)
            &&& self.work.inv()
            &&& evolved(&self.base@, &self.work, self.spent@)
            &&& savepoints_ok(&self.work, self.savepoints@)
            &&& self.committed == self.base@.roots
            &&& self.committed_pages == self.base@.cache.watermark()
            &&& self.committed_live@ == self.base@.live@
            &&& describes(self.base@.cache.disk(), self.base@.slots, superblock_of(&self.base@, self.counter, self.version))
            &&& self.version / 0x1_0000 == FORMAT_MAJOR_VERSION
            &&& held_apart(self.work.deferred@, self.found as int)
            &&& self.active ==> !self.work.cache.storage().spec_read_only()
            &&& !self.active ==> self.at_rest()
            &&& self.base@.roots.next_handle <= self.work.roots.next_handle
            &&& forall|i: int|
                0 <= i < self.savepoints@.len() ==> self.base@.roots.next_handle <= (
                #[trigger] self.savepoints@[i]).roots.next_handle
        }
    }

    /// A superblock describes the pages, but nothing has looked at them.
    closed spec fn just_opened(&self) -> bool {
        &&& !self.active
        &&& self.savepoints@.len() == 0
        &&& self.work.roots == self.committed
        &&& self.work.cache.watermark() == self.committed_pages
        &&& opened(&self.work)
        &&& self.version / 0x1_0000 == FORMAT_MAJOR_VERSION
        &&& current_superblock(self.work.cache.disk(), superblock_of(&self.work, self.counter, self.version))
        &&& self.base@.cache.contents() == self.work.cache.contents()
        &&& self.base@.roots == self.work.roots
    }

    /// No transaction is running, so nothing has changed.
    closed spec fn at_rest(&self) -> bool {
        &&& self.savepoints@.len() == 0
        &&& self.work.roots == self.base@.roots
        &&& self.work.recycler == self.base@.recycler
        &&& self.work.freed@.len() == 0
        &&& self.work.cursor is None
        &&& self.work.live@ == self.base@.live@
        &&& self.work.bins@ == Set::<u64>::empty()
        &&& self.work.deferred@ == self.base@.deferred@
        &&& self.work.cache.unsaved() == Set::<u64>::empty()
        &&& self.work.cache.pending() == 0
        &&& self.work.cache.contents() == self.base@.cache.contents()
        &&& self.work.cache.watermark() == self.base@.cache.watermark()
    }

    /// Only the state reached differs.
    closed spec fn stepped(&self, before: &TransactionManager, m: nat) -> bool {
        &&& self.base == before.base
        &&& self.spent@ == before.spent@ + m
        &&& self.counter == before.counter
        &&& self.version == before.version
        &&& self.committed == before.committed
        &&& self.committed_pages == before.committed_pages
        &&& self.committed_live == before.committed_live
        &&& self.active == before.active
        &&& self.poisoned == before.poisoned
        &&& self.checked == before.checked
        &&& self.found == before.found
        &&& self.told == before.told
        &&& self.savepoints == before.savepoints
    }

    /// The committed state and the savepoints are as they were, and nothing was
    /// reported.
    pub open spec fn rest_same(&self, before: &TransactionManager) -> bool {
        &&& self.rest_kept(before)
        &&& self.told() == before.told()
    }

    /// The committed state and the savepoints are as they were.
    pub open spec fn rest_kept(&self, before: &TransactionManager) -> bool {
        &&& self.origin() == before.origin()
        &&& self.stranded() == before.stranded()
        &&& self.commits() == before.commits()
        &&& self.running() == before.running()
        &&& self.spoiled() == before.spoiled()
        &&& self.vetted() == before.vetted()
        &&& self.marks() == before.marks()
        &&& forall|i: int| 0 <= i < self.marks().len() ==> #[trigger] self.marked_db(i) == before.marked_db(i)
    }

    /// A savepoint still stands for what it stood for.
    pub open spec fn keeps_mark(&self, before: &TransactionManager, i: int) -> bool {
        &&& 0 <= i < self.marks().len()
        &&& 0 <= i < before.marks().len()
        &&& self.marks()[i] == before.marks()[i]
        &&& self.marked_db(i) == before.marked_db(i)
    }

    /// The state is that of the savepoint.
    pub open spec fn returned(&self, before: &TransactionManager, i: int) -> bool {
        &&& self.db() == before.marked_db(i)
        &&& self.current().roots == before.marks()[i].roots
    }

    /// The state is the committed one.
    pub open spec fn undone(&self, before: &TransactionManager) -> bool {
        &&& self.db() == before.committed_db()
        &&& self.current().roots == before.origin().roots
    }

    /// A step of the running transaction.
    proof fn lemma_stepped(before: &TransactionManager, after: &TransactionManager, m: nat)
        requires
            before.inv(),
            !before.poisoned,
            before.checked,
            after.stepped(before, m),
            evolved(&before.work, &after.work, m),
            after.work.inv(),
            before.active || looked(&before.work, &after.work),
            before.work.roots.next_handle <= after.work.roots.next_handle,
        ensures
            after.inv(),
            after.rest_same(before),
    {
        lemma_evolved_chain(&before.base@, &before.work, &after.work, before.spent@, m);
        lemma_savepoints_kept(&before.work, &after.work, m, before.savepoints@);
        lemma_evolved_state(
            &before.work,
            &after.work,
            m,
            before.work.roots,
            before.work.live@,
            before.work.freed@,
            before.work.cursor,
        );
        assert forall|i: int| 0 <= i < after.marks().len() implies #[trigger] after.marked_db(i) == before.marked_db(i) by {
            assert(savepoint_ok(&before.work, before.savepoints@[i]));
            let sp = before.savepoints@[i];
            lemma_evolved_state(
                &before.work,
                &after.work,
                m,
                sp.roots,
                sp.live@,
                before.work.freed@.take(sp.freed as int),
                sp.cursor,
            );
        }
    }
}

/// A change that keeps every state keeps the savepoints.
proof fn lemma_savepoints_kept(w0: &Workspace, w1: &Workspace, m: nat, savepoints: Seq<Savepoint>)
    requires
        w0.inv(),
        evolved(w0, w1, m),
        savepoints_ok(w0, savepoints),
    ensures
        savepoints_ok(w1, savepoints),
{
    lemma_evolved_state(w0, w1, m, w0.roots, w0.live@, w0.freed@, w0.cursor);
    assert forall|i: int| 0 <= i < savepoints.len() implies savepoint_ok(w1, #[trigger] savepoints[i]) by {
        let sp = savepoints[i];
        assert(savepoint_ok(w0, sp));
        let freed = w0.freed@.take(sp.freed as int);
        lemma_evolved_state(w0, w1, m, sp.roots, sp.live@, freed, sp.cursor);
        assert(w1.freed@.take(sp.freed as int) =~= freed) by {
            assert(w1.freed@.take(w0.freed@.len() as int) =~= w0.freed@);
        }
    }
}

impl TransactionManager {
    /// Looking at the database changes nothing that can be seen, unless it finds
    /// damage.
    pub open spec fn peeked(&self, before: &TransactionManager) -> bool {
        &&& self.inv()
        &&& before.spoiled() ==> *self == *before
        &&& !before.spoiled() ==> {
            &&& looked(&before.current(), &self.current())
            &&& self.origin() == before.origin()
            &&& self.commits() == before.commits()
            &&& self.running() == before.running()
            &&& self.vetted() == before.vetted()
            &&& self.stranded() == before.stranded()
            &&& self.told() == before.told()
            &&& self.spoiled() ==> !before.vetted()
            &&& self.marks() == before.marks()
            &&& forall|i: int| 0 <= i < self.marks().len() ==> #[trigger] self.marked_db(i) == before.marked_db(i)
        }
    }

    /// Pages that nothing had looked at turned out to be damaged.
    pub open spec fn found_damage(&self, before: &TransactionManager, e: ChiselError) -> bool {
        &&& !before.vetted()
        &&& !before.storage_sound()
        &&& e.spec_is_fatal()
        &&& self.spoiled()
    }

    /// A page that leads to the entry of a handle turned out to be damaged.
    pub open spec fn found_entry_damage(&self, before: &TransactionManager, handle: u64, e: ChiselError) -> bool {
        self.found_damage(before, e) && before.current().entry_damaged(handle, e)
    }

    /// A page of the value of a handle turned out to be damaged.
    pub open spec fn found_value_damage(&self, before: &TransactionManager, handle: u64, e: ChiselError) -> bool {
        self.found_damage(before, e) && (before.place_of(handle) matches Some(entry)
            && before.current().value_damaged(entry, e))
    }

    /// Sound pages that were only opened hold a sound state.
    proof fn lemma_sound_state(&self)
        requires
            self.inv(),
            !self.spoiled(),
            self.vetted() || self.storage_sound(),
        ensures
            self.work.usable(),
            self.work.holds(self.work.roots, self.work.freed@, self.work.cursor),
            tags_agree(self.work.cache.contents(), self.work.roots),
    {
        if !self.checked {
            lemma_map_fine(&self.work);
            lemma_none_noted(self.work.freed@, self.work.deferred@);
        }
    }

    /// Looking at pages.
    proof fn lemma_peeked(before: &TransactionManager, after: &TransactionManager)
        requires
            before.inv(),
            !before.poisoned,
            after.stepped(before, 0),
            looked(&before.work, &after.work),
        ensures
            after.peeked(before),
            after.rest_same(before),
    {
        if before.checked {
            lemma_looked(&before.work, &after.work);
            Self::lemma_stepped(before, after, 0);
        } else {
            assert(superblock_of(&after.work, after.counter, after.version) == superblock_of(
                &before.work,
                before.counter,
                before.version,
            ));
        }
    }

    /// A failure that is for good is remembered.
    fn note(&mut self, e: ChiselError) -> (error: ChiselError)
        requires
            old(self).inv(),
            !old(self).spoiled(),
            e.spec_is_fatal() ==> !old(self).vetted(),
        ensures
            error == e,
            final(self).peeked(old(self)),
            final(self).spoiled() == e.spec_is_fatal(),
    {
        let ghost before = *self;
        if e.is_fatal() {
            self.poisoned = true;
        } else {
            proof {
                assert(looked(&before.work, &self.work)) by {
                    before.lemma_bounded();
                }
            }
        }
        proof {
            before.lemma_bounded();
        }
        e
    }

    /// The cache can be used.
    proof fn lemma_bounded(&self)
        requires
            self.inv(),
            !self.poisoned,
        ensures
            self.work.readable(),
            looked(&self.work, &self.work),
    {
        if self.checked {
            self.work.lemma_readable();
        }
    }

    /// The pages that wait to be saved exceed the limits, and `e` says so.
    pub open spec fn overfull(&self, e: ChiselError) -> bool {
        too_many(&self.current().cache, e, 0)
    }

    /// A failed operation has to be given up for good.
    pub fn is_poisoned(&self) -> (poisoned: bool)
        ensures
            poisoned == self.spoiled(),
    {
        self.poisoned
    }

    /// A transaction is running.
    pub fn is_active(&self) -> (active: bool)
        ensures
            active == self.running(),
    {
        self.active
    }

    /// The entry of a handle.
    fn entry(&mut self, handle: u64) -> (outcome: Result<HandleEntry, ChiselError>)
        requires
            old(self).inv(),
            !old(self).spoiled(),
        ensures
            final(self).peeked(old(self)),
            match outcome {
                Ok(e) => {
                    &&& !final(self).spoiled()
                    &&& entry_of(old(self).current().cache.contents(), old(self).current().roots, handle) == Some(e)
                    &&& old(self).db().contains_key(handle)
                    &&& old(self).db()[handle] == record_of(old(self).current().cache.contents(), e)
                    &&& e.flags != HandleFlags::Deleted
                    &&& old(self).vetted() || old(self).storage_sound() ==> value_ok(
                        old(self).current().cache.contents(),
                        good(
                            &old(self).current().cache,
                            &old(self).current().recycler,
                            old(self).current().slots,
                        ),
                        e,
                    )
                },
                Err(e) => final(self).unfound(old(self), handle, e),
            },
    {
        proof {
            self.lemma_bounded();
            if self.checked || self.storage_sound() {
                self.lemma_sound_state();
            }
            reveal(sound_store);
        }
        let found = self.work.entry(handle);
        proof {
            Self::lemma_peeked(old(self), self);
        }
        let ghost mid = *self;
        match found {
            Ok(Some(entry)) => Ok(entry),
            Ok(None) => Err(ChiselError::InvalidHandle(handle)),
            Err(e) => Err(self.note(e)),
        }
    }

    /// Why the entry of a handle could not be read.
    pub open spec fn unfound(&self, before: &TransactionManager, handle: u64, e: ChiselError) -> bool {
        ||| !self.spoiled() && !before.db().contains_key(handle) && e == ChiselError::InvalidHandle(handle)
        ||| !self.spoiled() && before.overfull(e)
        ||| self.found_entry_damage(before, handle, e)
    }

    /// Why the value of a handle could not be read.
    pub open spec fn unread(&self, before: &TransactionManager, handle: u64, e: ChiselError) -> bool {
        ||| self.unfound(before, handle, e)
        ||| self.found_value_damage(before, handle, e)
    }

    /// What reading a value says.
    pub open spec fn reads(
        &self,
        before: &TransactionManager,
        handle: u64,
        outcome: Result<Vec<u8>, ChiselError>,
    ) -> bool {
        &&& self.peeked(before)
        &&& before.spoiled() ==> (outcome matches Err(e) && e is Poisoned)
        &&& !before.spoiled() ==> match outcome {
            Ok(value) => {
                &&& !self.spoiled()
                &&& before.db().contains_key(handle)
                &&& value@ == before.db()[handle].value
            },
            Err(e) => self.unread(before, handle, e),
        }
    }

    /// The value of a handle.
    pub fn read(&mut self, handle: u64) -> (outcome: Result<Vec<u8>, ChiselError>)
        requires
            old(self).inv(),
        ensures
            final(self).reads(old(self), handle, outcome),
    {
        if self.poisoned {
            return Err(ChiselError::Poisoned);
        }
        let entry: HandleEntry = match self.entry(handle) {
            Ok(entry) => entry,
            Err(e) => {
                return Err(e);
            },
        };
        let ghost mid = *self;
        proof {
            self.lemma_bounded();
        }
        let value = self.work.value(&entry);
        proof {
            Self::lemma_peeked(&mid, self);
        }
        match value {
            Ok(value) => Ok(value),
            Err(e) => Err(self.note(e)),
        }
    }

    /// The tag of a handle; 0 if it has none.
    pub fn tag(&mut self, handle: u64) -> (outcome: Result<u32, ChiselError>)
        requires
            old(self).inv(),
        ensures
            final(self).peeked(old(self)),
            old(self).spoiled() ==> (outcome matches Err(e) && e is Poisoned),
            !old(self).spoiled() ==> match outcome {
                Ok(tag) => {
                    &&& !final(self).spoiled()
                    &&& old(self).db().contains_key(handle)
                    &&& tag == old(self).db()[handle].tag
                },
                Err(e) => final(self).unfound(old(self), handle, e),
            },
    {
        if self.poisoned {
            return Err(ChiselError::Poisoned);
        }
        match self.entry(handle) {
            Ok(entry) => Ok(entry.tag),
            Err(e) => Err(e),
        }
    }

    /// The client byte of a handle.
    pub fn client_byte(&mut self, handle: u64) -> (outcome: Result<u8, ChiselError>)
        requires
            old(self).inv(),
        ensures
            final(self).peeked(old(self)),
            old(self).spoiled() ==> (outcome matches Err(e) && e is Poisoned),
            !old(self).spoiled() ==> match outcome {
                Ok(byte) => {
                    &&& !final(self).spoiled()
                    &&& old(self).db().contains_key(handle)
                    &&& byte == old(self).db()[handle].byte
                },
                Err(e) => final(self).unfound(old(self), handle, e),
            },
    {
        if self.poisoned {
            return Err(ChiselError::Poisoned);
        }
        match self.entry(handle) {
            Ok(entry) => Ok(entry.client_byte),
            Err(e) => Err(e),
        }
    }
}

/// A list of handles, each once, in ascending order.
pub open spec fn ascending(list: Seq<u64>) -> bool {
    forall|i: int, j: int| 0 <= i < j < list.len() ==> #[trigger] list[i] < #[trigger] list[j]
}

/// The handles below a bound, in their order.
fn below(list: &Vec<u64>, bound: u64) -> (kept: Vec<u64>)
    requires
        forall|i: int, j: int|
            0 <= i < j < list@.len() && list@[j] < bound ==> #[trigger] list@[i] < #[trigger] list@[j],
    ensures
        ascending(kept@),
        forall|h: u64| #[trigger] kept@.contains(h) <==> h < bound && list@.contains(h),
        kept@.len() <= list@.len(),
        (forall|i: int| 0 <= i < list@.len() ==> #[trigger] list@[i] < bound) ==> kept@ == list@,
{
    let mut kept: Vec<u64> = Vec::new();
    let mut i: usize = 0;
    while i < list.len()
        invariant
            i <= list@.len(),
            forall|i: int, j: int|
                0 <= i < j < list@.len() && list@[j] < bound ==> #[trigger] list@[i] < #[trigger] list@[j],
            ascending(kept@),
            kept@.len() <= i,
            (forall|k: int| 0 <= k < i ==> #[trigger] list@[k] < bound) ==> kept@ == list@.take(i as int),
            forall|k: int|
                0 <= k < kept@.len() ==> exists|j: int| 0 <= j < i && list@[j] == #[trigger] kept@[k] && kept@[k] < bound,
            forall|j: int| 0 <= j < i && #[trigger] list@[j] < bound ==> kept@.contains(list@[j]),
        decreases list@.len() - i,
    {
        let handle: u64 = list[i];
        proof {
            assert(list@.take(i + 1) =~= list@.take(i as int).push(handle));
            assert(list@[i as int] == handle);
        }
        if handle < bound {
            let ghost before = kept@;
            proof {
                assert forall|k: int| 0 <= k < before.len() implies #[trigger] before[k] < handle by {
                    let j = choose|j: int| 0 <= j < i && list@[j] == before[k] && before[k] < bound;
                    assert(list@[j] < list@[i as int]);
                }
            }
            kept.push(handle);
            proof {
                assert forall|j: int| 0 <= j < i + 1 && #[trigger] list@[j] < bound implies kept@.contains(list@[j]) by {
                    if j < i {
                        let k = before.index_of(list@[j]);
                        assert(kept@[k] == list@[j]);
                    } else {
                        assert(kept@[before.len() as int] == handle);
                    }
                }
                assert forall|k: int| 0 <= k < kept@.len() implies exists|j: int|
                    0 <= j < i + 1 && list@[j] == #[trigger] kept@[k] && kept@[k] < bound by {
                    if k < before.len() {
                        assert(kept@[k] == before[k]);
                        let j = choose|j: int| 0 <= j < i && list@[j] == before[k] && before[k] < bound;
                        assert(list@[j] == kept@[k]);
                    } else {
                        assert(list@[i as int] == kept@[k]);
                    }
                }
            }
        }
        i += 1;
    }
    assert(list@.take(i as int) =~= list@);
    assert forall|h: u64| #[trigger] kept@.contains(h) <==> h < bound && list@.contains(h) by {
        if kept@.contains(h) {
            let k = kept@.index_of(h);
            let j = choose|j: int| 0 <= j < i && list@[j] == kept@[k] && kept@[k] < bound;
            assert(list@[j] == h);
        }
        if h < bound && list@.contains(h) {
            let j = list@.index_of(h);
            assert(list@[j] == h);
        }
    }
    kept
}

/// The handles of a list of entries.
fn handles_of(entries: &Vec<(u64, HandleEntry)>) -> (handles: Vec<u64>)
    ensures
        handles@ == Seq::new(entries@.len(), |i: int| entries@[i].0),
{
    let mut handles: Vec<u64> = Vec::new();
    let mut i: usize = 0;
    while i < entries.len()
        invariant
            i <= entries@.len(),
            handles@.len() == i,
            forall|k: int| 0 <= k < i ==> #[trigger] handles@[k] == entries@[k].0,
        decreases entries@.len() - i,
    {
        handles.push(entries[i].0);
        i += 1;
    }
    assert(handles@ =~= Seq::new(entries@.len(), |i: int| entries@[i].0));
    handles
}

/// The index lists the handles that carry a tag.
proof fn lemma_tag_bounded(w: &Workspace, tag: u32, limit: Option<usize>, all: Seq<u64>, list: Seq<u64>)
    requires
        members_listed(
            w.cache.contents(),
            w.roots.index_root,
            w.roots.index_depth as nat,
            tag,
            match limit {
                Some(n) => Some(n as nat),
                None => None,
            },
            all,
        ),
        forall|h: u64| #[trigger] list.contains(h) <==> h < u64::MAX && all.contains(h),
        list.len() <= all.len(),
        (forall|i: int| 0 <= i < all.len() ==> #[trigger] all[i] < u64::MAX) ==> list == all,
    ensures
        limit matches Some(n) ==> list.len() <= n,
        forall|h: u64| #[trigger] list.contains(h) ==> h < u64::MAX && index_has(w.cache.contents(), w.roots, tag, h),
        forall|h: u64|
            h < u64::MAX && #[trigger] index_has(w.cache.contents(), w.roots, tag, h) && !list.contains(h) ==> limit
                == Some(list.len() as usize) && forall|k: u64| #[trigger] list.contains(k) ==> k < h,
{
    let pages = w.cache.contents();
    assert forall|h: u64| #[trigger] list.contains(h) implies h < u64::MAX && index_has(pages, w.roots, tag, h) by {
        let i = all.index_of(h);
        assert(is_member(pages, w.roots.index_root, w.roots.index_depth as nat, tag, all[i]));
    }
    assert forall|h: u64|
        h < u64::MAX && #[trigger] index_has(pages, w.roots, tag, h) && !list.contains(h) implies limit == Some(
        list.len() as usize,
    ) && forall|k: u64| #[trigger] list.contains(k) ==> k < h by {
        assert(is_member(pages, w.roots.index_root, w.roots.index_depth as nat, tag, h));
        assert(!all.contains(h));
        assert(list == all);
        assert forall|k: u64| #[trigger] list.contains(k) implies k < h by {
            let i = all.index_of(k);
            assert(all[i] < h);
        }
    }
}

impl TransactionManager {
    /// Why the handles could not be listed: the limits, or a damaged page of the
    /// table.
    pub open spec fn unlisted(&self, before: &TransactionManager, e: ChiselError) -> bool {
        let w = before.current();
        ||| !self.spoiled() && before.overfull(e)
        ||| self.found_damage(before, e) && w.roots.table_root != PAGE_ID_NONE && tree_explains(
            &w.cache,
            ENTRIES_PER_LEAF as nat,
            w.roots.table_root,
            w.roots.table_depth as nat,
            e,
        )
    }

    /// Why the handles with a tag could not be listed: the limits, or a damaged page
    /// of the index.
    pub open spec fn unlisted_tag(&self, before: &TransactionManager, tag: u32, e: ChiselError) -> bool {
        let w = before.current();
        ||| !self.spoiled() && before.overfull(e)
        ||| self.found_damage(before, e) && index_explains(
            &w.cache,
            w.roots.index_root,
            w.roots.index_depth as nat,
            tag,
            e,
        )
    }

    /// All handles.
    pub fn handles(&mut self) -> (outcome: Result<Vec<u64>, ChiselError>)
        requires
            old(self).inv(),
        ensures
            final(self).peeked(old(self)),
            old(self).spoiled() ==> (outcome matches Err(e) && e is Poisoned),
            !old(self).spoiled() ==> match outcome {
                Ok(list) => {
                    &&& !final(self).spoiled()
                    &&& ascending(list@)
                    &&& forall|h: u64| #[trigger] list@.contains(h) <==> old(self).db().contains_key(h)
                },
                Err(e) => final(self).unlisted(old(self), e),
            },
    {
        if self.poisoned {
            return Err(ChiselError::Poisoned);
        }
        let ghost w0 = self.work;
        proof {
            self.lemma_bounded();
        }
        let root: u64 = self.work.roots.table_root;
        let listed = self.work.list_entries();
        proof {
            Self::lemma_peeked(old(self), self);
        }
        match listed {
            Ok(entries) => {
                let list: Vec<u64> = handles_of(&entries);
                proof {
                    let pages = w0.cache.contents();
                    assert forall|h: u64| #[trigger] list@.contains(h) <==> w0.db().contains_key(h) by {
                        if list@.contains(h) {
                            let i = list@.index_of(h);
                            assert(entries@[i] == (h, entries@[i].1));
                            assert(entries@.contains((h, entries@[i].1)));
                        }
                        if w0.db().contains_key(h) {
                            let e = entry_of(pages, w0.roots, h)->0;
                            assert(entry_of(pages, w0.roots, h) == Some(e));
                            assert(entries@.contains((h, e)));
                            let i = entries@.index_of((h, e));
                            assert(list@[i] == h);
                        }
                    }
                    assert forall|i: int, j: int| 0 <= i < j < list@.len() implies #[trigger] list@[i] < #[trigger] list@[j] by {
                        assert(entries@[i].0 < entries@[j].0);
                    }
                }
                Ok(list)
            },
            Err(e) => {
                proof {
                    if old(self).checked || old(self).storage_sound() {
                        old(self).lemma_sound_state();
                        reveal(sound_store);
                        lemma_good_reads(&w0);
                        lemma_tree_reads(
                            &w0.cache,
                            good(&w0.cache, &w0.recycler, w0.slots),
                            ENTRIES_PER_LEAF as nat,
                            root,
                            w0.roots.table_depth as nat,
                            e,
                        );
                    }
                }
                Err(self.note(e))
            },
        }
    }

    /// The index lists a handle under a tag.
    pub open spec fn indexed(&self, tag: u32, h: u64) -> bool {
        index_has(self.current().cache.contents(), self.current().roots, tag, h)
    }

    /// The handles that carry a tag, the first `limit` of them if there is one.
    fn tagged(&mut self, tag: u32, limit: Option<usize>) -> (outcome: Result<Vec<u64>, ChiselError>)
        requires
            old(self).inv(),
            !old(self).spoiled(),
            tag != 0,
        ensures
            final(self).peeked(old(self)),
            match outcome {
                Ok(list) => {
                    &&& !final(self).spoiled()
                    &&& ascending(list@)
                    &&& limit matches Some(n) ==> list@.len() <= n
                    &&& forall|h: u64| #[trigger] list@.contains(h) ==> h < u64::MAX && old(self).indexed(tag, h)
                    &&& forall|h: u64|
                        h < u64::MAX && #[trigger] old(self).indexed(tag, h) && !list@.contains(h) ==> limit == Some(
                            list@.len() as usize,
                        ) && forall|k: u64| #[trigger] list@.contains(k) ==> k < h
                },
                Err(e) => final(self).unlisted_tag(old(self), tag, e),
            },
    {
        let ghost w0 = self.work;
        proof {
            self.lemma_bounded();
        }
        let index = self.work.index();
        let root: u64 = self.work.roots.index_root;
        let listed = match limit {
            Some(limit) => index.handles_for_tag_bounded(&mut self.work.cache, root, tag, limit),
            None => index.handles_for_tag(&mut self.work.cache, root, tag),
        };
        proof {
            Self::lemma_peeked(old(self), self);
        }
        match listed {
            Ok(all) => {
                proof {
                    assert forall|i: int, j: int| 0 <= i < j < all@.len() && all@[j] < u64::MAX implies #[trigger] all@[i]
                        < #[trigger] all@[j] by {}
                }
                let list: Vec<u64> = below(&all, u64::MAX);
                proof {
                    lemma_tag_bounded(&w0, tag, limit, all@, list@);
                }
                Ok(list)
            },
            Err(e) => {
                proof {
                    if old(self).checked || old(self).storage_sound() {
                        old(self).lemma_sound_state();
                        lemma_good_reads(&w0);
                        lemma_index_reads(&w0.cache, good(&w0.cache, &w0.recycler, w0.slots), w0.roots, tag, e);
                    }
                }
                Err(self.note(e))
            },
        }
    }

    /// The index of sound pages lists the handles that carry a tag.
    proof fn lemma_indexed(&self, tag: u32)
        requires
            self.inv(),
            !self.spoiled(),
            self.vetted() || self.storage_sound(),
            tag != 0,
        ensures
            forall|h: u64| #[trigger] self.indexed(tag, h) <==> self.tagged_handles(tag).contains(h),
            forall|h: u64| #[trigger] self.tagged_handles(tag).contains(h) ==> h < u64::MAX,
    {
        reveal(sound_store);
        self.lemma_sound_state();
        let w = self.current();
        assert forall|h: u64| #[trigger] self.indexed(tag, h) <==> self.tagged_handles(tag).contains(h) by {
            assert(index_has(w.cache.contents(), w.roots, tag, h) <==> (entry_of(
                w.cache.contents(),
                w.roots,
                h,
            ) matches Some(e) && e.tag == tag && tag != 0));
        }
        assert forall|h: u64| #[trigger] self.tagged_handles(tag).contains(h) implies h < u64::MAX by {
            assert(entry_of(w.cache.contents(), w.roots, h) is Some);
        }
    }
}

impl TransactionManager {
    /// The handle that the next value gets.
    pub open spec fn next_handle(&self) -> u64 {
        self.current().roots.next_handle
    }

    /// Where the value of a handle is.
    pub open spec fn place_of(&self, h: u64) -> Option<HandleEntry> {
        entry_of(self.current().cache.contents(), self.current().roots, h)
    }

    /// What the names stand for.
    pub open spec fn names(&self) -> Map<Seq<u8>, u64> {
        bindings(self.current().roots.names@)
    }

    /// No transaction is running: nothing can be changed.
    pub open spec fn barred(&self) -> Option<ChiselError> {
        if self.spoiled() {
            Some(ChiselError::Poisoned)
        } else if !self.running() {
            Some(ChiselError::NoActiveTransaction)
        } else {
            None
        }
    }

    /// It is known of every page what it is for.
    pub open spec fn accounted(&self) -> bool {
        accounted(&self.current())
    }

    /// It is still known of every page what it is for, if it was before and the limits
    /// of the cache hold so many more pages.
    pub open spec fn keeps_account(&self, before: &TransactionManager, n: nat) -> bool {
        let cache = before.current().cache;
        before.accounted() && cache.pending() + n <= cache.capacity() ==> self.accounted()
    }

    /// No page can be handed out that could not be before.
    pub open spec fn hands_out_less(&self, before: &TransactionManager) -> bool {
        let (w0, w1) = (before.current(), self.current());
        w1.recycler.footprint(&w1.cache).subset_of(w0.recycler.footprint(&w0.cache))
    }

    /// There is room for so many more pages.
    pub open spec fn room(&self, n: nat) -> bool {
        has_room(&self.current(), n)
    }

    /// A failed change has changed nothing that can be seen.
    pub open spec fn kept(&self, before: &TransactionManager) -> bool {
        &&& self.db() == before.db()
        &&& self.names() == before.names()
        &&& self.next_handle() == before.next_handle()
    }

    /// Says why nothing can be changed, if that is so.
    pub fn check_active(&self) -> (outcome: Result<(), ChiselError>)
        ensures
            match outcome {
                Ok(_) => self.barred() is None,
                Err(e) => self.barred() == Some(e),
            },
    {
        if self.poisoned {
            Err(ChiselError::Poisoned)
        } else if !self.active {
            Err(ChiselError::NoActiveTransaction)
        } else {
            Ok(())
        }
    }

    /// Store a value under a new handle.
    pub fn allocate(&mut self, value: &[u8], tag: u32) -> (outcome: Result<u64, ChiselError>)
        requires
            old(self).inv(),
            old(self).barred() is None ==> old(self).next_handle() < u64::MAX && old(self).room(
                allocate_pages(value@.len(), tag),
            ),
        ensures
            final(self).inv(),
            final(self).rest_same(old(self)),
            old(self).barred() matches Some(b) ==> outcome == Err::<u64, ChiselError>(b) && *final(self) == *old(self),
            old(self).barred() is None ==> match outcome {
                Ok(h) => {
                    &&& h == old(self).next_handle()
                    &&& final(self).next_handle() == h + 1
                    &&& !old(self).db().contains_key(h)
                    &&& final(self).db() == old(self).db().insert(h, (Record { value: value@, tag, byte: 0 }))
                    &&& final(self).names() == old(self).names()
                    &&& newly_placed(&old(self).current(), &final(self).current(), h, value@.len())
                    &&& final(self).keeps_account(old(self), allocate_pages(value@.len(), tag))
                },
                Err(e) => {
                    &&& final(self).kept(old(self))
                    &&& overrun(&old(self).current().cache, &final(self).current().cache, e, allocate_pages(value@.len(), tag))
                },
            },
    {
        match self.check_active() {
            Ok(_) => {},
            Err(e) => {
                return Err(e);
            },
        }
        let ghost m = allocate_pages(value@.len(), tag);
        let ghost w0 = self.work;
        let outcome = self.work.allocate(value, tag);
        proof {
            if outcome is Ok {
                lemma_keeps_account(&w0, &self.work, m);
            }
            self.spent = Ghost(self.spent@ + m);
            Self::lemma_stepped(old(self), self, m);
        }
        outcome
    }

    /// Replace the value of a handle.
    pub fn update(&mut self, handle: u64, value: &[u8]) -> (outcome: Result<(), ChiselError>)
        requires
            old(self).inv(),
            old(self).barred() is None ==> old(self).room(update_pages(value@.len())),
        ensures
            final(self).inv(),
            final(self).rest_same(old(self)),
            old(self).barred() matches Some(b) ==> outcome == Err::<(), ChiselError>(b) && *final(self) == *old(self),
            old(self).barred() is None ==> grown_by(
                &old(self).current().cache,
                &final(self).current().cache,
                update_pages(value@.len()),
            ),
            old(self).barred() is None ==> match outcome {
                Ok(_) => {
                    let before = old(self).db()[handle];
                    &&& old(self).db().contains_key(handle)
                    &&& final(self).db() == old(self).db().insert(
                        handle,
                        (Record { value: value@, tag: before.tag, byte: before.byte }),
                    )
                    &&& final(self).names() == old(self).names()
                    &&& final(self).next_handle() == old(self).next_handle()
                    &&& newly_placed(&old(self).current(), &final(self).current(), handle, value@.len())
                    &&& gave_back(&old(self).current(), &final(self).current(), handle)
                    &&& final(self).keeps_account(old(self), update_pages(value@.len()))
                    &&& final(self).hands_out_less(old(self))
                    &&& forall|k: u64| k != handle ==> #[trigger] final(self).place_of(k) == old(self).place_of(k)
                },
                Err(e) => {
                    &&& final(self).kept(old(self))
                    &&& refused(&old(self).current(), &final(self).current(), handle, e, update_pages(value@.len()))
                },
            },
    {
        match self.check_active() {
            Ok(_) => {},
            Err(e) => {
                return Err(e);
            },
        }
        let ghost m = update_pages(value@.len());
        let ghost w0 = self.work;
        let outcome = self.work.update(handle, value);
        proof {
            if outcome is Ok {
                lemma_keeps_account(&w0, &self.work, m);
            }
            self.spent = Ghost(self.spent@ + m);
            Self::lemma_stepped(old(self), self, m);
            lemma_evolved_state(&w0, &self.work, m, w0.roots, w0.live@, w0.freed@, w0.cursor);
        }
        outcome
    }

    /// Take a handle and its value away.
    pub fn delete(&mut self, handle: u64) -> (outcome: Result<(), ChiselError>)
        requires
            old(self).inv(),
            old(self).barred() is None ==> old(self).room(delete_pages()),
        ensures
            final(self).inv(),
            final(self).rest_same(old(self)),
            old(self).barred() matches Some(b) ==> outcome == Err::<(), ChiselError>(b) && *final(self) == *old(self),
            old(self).barred() is None ==> grown_by(
                &old(self).current().cache,
                &final(self).current().cache,
                delete_pages(),
            ),
            old(self).barred() is None ==> match outcome {
                Ok(_) => {
                    &&& old(self).db().contains_key(handle)
                    &&& final(self).db() == old(self).db().remove(handle)
                    &&& final(self).names() == old(self).names()
                    &&& final(self).next_handle() == old(self).next_handle()
                    &&& gave_back(&old(self).current(), &final(self).current(), handle)
                    &&& ({
                        let tag = old(self).db()[handle].tag;
                        tag == 0 || still_tagged(&final(self).current(), tag)
                    }) ==> final(self).keeps_account(old(self), delete_pages())
                },
                Err(e) => {
                    &&& final(self).kept(old(self))
                    &&& refused(&old(self).current(), &final(self).current(), handle, e, delete_pages())
                },
            },
    {
        match self.check_active() {
            Ok(_) => {},
            Err(e) => {
                return Err(e);
            },
        }
        let ghost m = delete_pages();
        let ghost w0 = self.work;
        let outcome = self.work.delete(handle);
        proof {
            if outcome is Ok {
                let tag = w0.db()[handle].tag;
                if tag == 0 || still_tagged(&self.work, tag) {
                    lemma_keeps_account(&w0, &self.work, m);
                }
            }
            self.spent = Ghost(self.spent@ + m);
            Self::lemma_stepped(old(self), self, m);
            lemma_evolved_state(&w0, &self.work, m, w0.roots, w0.live@, w0.freed@, w0.cursor);
        }
        outcome
    }

    /// Set the client byte of a handle.
    pub fn set_client_byte(&mut self, handle: u64, byte: u8) -> (outcome: Result<(), ChiselError>)
        requires
            old(self).inv(),
            old(self).barred() is None ==> old(self).room(table_set_pages()),
        ensures
            final(self).inv(),
            final(self).rest_same(old(self)),
            old(self).barred() matches Some(b) ==> outcome == Err::<(), ChiselError>(b) && *final(self) == *old(self),
            old(self).barred() is None ==> match outcome {
                Ok(_) => {
                    let before = old(self).db()[handle];
                    &&& old(self).db().contains_key(handle)
                    &&& final(self).db() == old(self).db().insert(
                        handle,
                        (Record { value: before.value, tag: before.tag, byte }),
                    )
                    &&& final(self).names() == old(self).names()
                    &&& final(self).next_handle() == old(self).next_handle()
                    &&& final(self).keeps_account(old(self), table_set_pages())
                },
                Err(e) => {
                    &&& final(self).kept(old(self))
                    &&& refused(&old(self).current(), &final(self).current(), handle, e, table_set_pages())
                },
            },
    {
        match self.check_active() {
            Ok(_) => {},
            Err(e) => {
                return Err(e);
            },
        }
        let ghost m = table_set_pages();
        let ghost w0 = self.work;
        let outcome = self.work.set_byte(handle, byte);
        proof {
            if outcome is Ok {
                lemma_keeps_account(&w0, &self.work, m);
            }
            self.spent = Ghost(self.spent@ + m);
            Self::lemma_stepped(old(self), self, m);
        }
        outcome
    }

    /// Take a handle away if it carries a tag.
    pub fn delete_tagged(&mut self, handle: u64, tag: u32) -> (outcome: Result<(), ChiselError>)
        requires
            old(self).inv(),
            old(self).barred() is None ==> old(self).room(delete_pages()),
        ensures
            final(self).inv(),
            final(self).rest_same(old(self)),
            old(self).barred() matches Some(b) ==> outcome == Err::<(), ChiselError>(b) && *final(self) == *old(self),
            old(self).barred() is None ==> match outcome {
                Ok(_) => {
                    &&& old(self).db().contains_key(handle)
                    &&& old(self).db()[handle].tag == tag
                    &&& final(self).db() == old(self).db().remove(handle)
                    &&& final(self).names() == old(self).names()
                    &&& final(self).next_handle() == old(self).next_handle()
                    &&& gave_back(&old(self).current(), &final(self).current(), handle)
                },
                Err(e) => {
                    &&& final(self).kept(old(self))
                    &&& if old(self).db().contains_key(handle) && old(self).db()[handle].tag != tag {
                        e == (ChiselError::TagMismatch { handle, expected: tag, actual: old(self).db()[handle].tag })
                            || overrun(&old(self).current().cache, &final(self).current().cache, e, 0)
                    } else {
                        refused(&old(self).current(), &final(self).current(), handle, e, delete_pages())
                    }
                },
            },
    {
        match self.check_active() {
            Ok(_) => {},
            Err(e) => {
                return Err(e);
            },
        }
        let actual: u32 = match self.tag(handle) {
            Ok(actual) => actual,
            Err(e) => {
                return Err(e);
            },
        };
        if actual != tag {
            return Err(ChiselError::TagMismatch { handle, expected: tag, actual });
        }
        let ghost mid = self.work;
        let outcome = self.delete(handle);
        proof {
            if outcome is Ok {
                reveal(gave_back);
                assert(gave_back(&mid, &self.work, handle));
            }
        }
        outcome
    }
}

/// A database without the first `k` handles of a list.
pub open spec fn without(db: Map<u64, Record>, handles: Seq<u64>, k: int) -> Map<u64, Record> {
    db.remove_keys(handles.take(k).to_set())
}

/// Taking handles away stopped at the `k`th. Those before it are gone. It is not there,
/// or the limits were passed.
pub open spec fn stopped_at(
    before: &TransactionManager,
    after: &TransactionManager,
    handles: Seq<u64>,
    k: int,
    e: ChiselError,
) -> bool {
    &&& 0 <= k < handles.len()
    &&& after.db() == without(before.db(), handles, k)
    &&& forall|j: int| 0 <= j < k ==> without(before.db(), handles, j).contains_key(#[trigger] handles[j])
    &&& if without(before.db(), handles, k).contains_key(handles[k]) {
        overrun(&before.current().cache, &after.current().cache, e, deletes_pages((k + 1) as nat))
    } else {
        e == ChiselError::InvalidHandle(handles[k]) || overrun(
            &before.current().cache,
            &after.current().cache,
            e,
            deletes_pages(k as nat),
        )
    }
}

/// How many pages taking `n` values away takes at most.
pub open spec fn deletes_pages(n: nat) -> nat {
    n * delete_pages()
}

/// One more value takes that many more.
proof fn lemma_deletes_pages(i: nat, n: nat)
    requires
        i < n,
    ensures
        deletes_pages(i + 1) == deletes_pages(i) + delete_pages(),
        deletes_pages(i + 1) <= deletes_pages(n),
{
    assert((i + 1) * delete_pages() == i * delete_pages() + delete_pages()) by (nonlinear_arith);
    assert((i + 1) * delete_pages() <= n * delete_pages()) by (nonlinear_arith)
        requires
            i + 1 <= n,
    ;
}

/// Taking one more handle away.
proof fn lemma_without(db: Map<u64, Record>, handles: Seq<u64>, k: int)
    requires
        0 <= k < handles.len(),
    ensures
        without(db, handles, k + 1) == without(db, handles, k).remove(handles[k]),
{
    assert(handles.take(k + 1) =~= handles.take(k).push(handles[k]));
    assert forall|h: u64| handles.take(k + 1).to_set().contains(h) == handles.take(k).to_set().insert(
        handles[k],
    ).contains(h) by {
        if handles.take(k).contains(h) {
            let i = handles.take(k).index_of(h);
            assert(handles.take(k + 1)[i] == h);
        }
        if handles.take(k + 1).contains(h) {
            let i = handles.take(k + 1).index_of(h);
            if i < k {
                assert(handles.take(k)[i] == h);
            }
        }
        assert(handles.take(k + 1)[k] == handles[k]);
    }
    assert(handles.take(k + 1).to_set() =~= handles.take(k).to_set().insert(handles[k]));
    assert(without(db, handles, k + 1) =~= without(db, handles, k).remove(handles[k]));
}

/// More values take more pages.
proof fn lemma_deletes_mono(i: nat, n: nat)
    requires
        i <= n,
    ensures
        deletes_pages(i) <= deletes_pages(n),
{
    assert(i * delete_pages() <= n * delete_pages()) by (nonlinear_arith)
        requires
            i <= n,
    ;
}

/// A handle of a list in ascending order is there until it is taken away.
proof fn lemma_still_there(db: Map<u64, Record>, list: Seq<u64>, k: int)
    requires
        ascending(list),
        forall|h: u64| #[trigger] list.contains(h) ==> db.contains_key(h),
        0 <= k < list.len(),
    ensures
        without(db, list, k).contains_key(list[k]),
{
    assert(list.contains(list[k]));
    if list.take(k).contains(list[k]) {
        let i = list.take(k).index_of(list[k]);
        assert(list[i] < list[k]);
    }
}

/// A list in ascending order is no longer than the set of what it lists.
proof fn lemma_ascending_len(list: Seq<u64>, all: Set<u64>)
    requires
        ascending(list),
        all.finite(),
        forall|h: u64| #[trigger] list.contains(h) ==> all.contains(h),
    ensures
        list.len() <= all.len(),
{
    assert(list.no_duplicates());
    list.unique_seq_to_set();
    vstd::set_lib::lemma_len_subset(list.to_set(), all);
}

/// The handles to take away are the lowest that carry the tag.
proof fn lemma_first_tagged(
    tm: &TransactionManager,
    tag: u32,
    limit: Option<usize>,
    max: usize,
    found: Seq<u64>,
    list: Seq<u64>,
)
    requires
        tm.inv(),
        !tm.spoiled(),
        tm.vetted(),
        max > 0,
        limit == (if max < usize::MAX {
            Some((max + 1) as usize)
        } else {
            None
        }),
        found.len() <= usize::MAX,
        ascending(found),
        limit matches Some(n) ==> found.len() <= n,
        forall|h: u64| #[trigger] found.contains(h) ==> tm.db().contains_key(h) && tm.db()[h].tag == tag,
        forall|h: u64| #[trigger]
            tm.db().contains_key(h) && tm.db()[h].tag == tag && !found.contains(h) ==> limit == Some(
                found.len() as usize,
            ) && forall|k: u64| #[trigger] found.contains(k) ==> k < h,
        list == found.take(list.len() as int),
        list.len() == (if found.len() <= max {
            found.len()
        } else {
            max as nat
        }),
    ensures
        ascending(list),
        list.len() <= max,
        list.len() <= tm.tagged_handles(tag).len(),
        forall|h: u64| #[trigger] list.contains(h) ==> tm.tagged_handles(tag).contains(h),
        forall|h: u64| #[trigger]
            tm.tagged_handles(tag).contains(h) && !list.contains(h) ==> list.len() == max && forall|k: u64| #[trigger]
                list.contains(k) ==> k < h,
        found.len() <= max ==> forall|h: u64| #[trigger] tm.tagged_handles(tag).contains(h) ==> list.contains(h),
        found.len() > max ==> tm.tagged_handles(tag).contains(found[max as int]) && !list.contains(found[max as int]),
{
    let all = tm.tagged_handles(tag);
    assert forall|i: int, j: int| 0 <= i < j < list.len() implies #[trigger] list[i] < #[trigger] list[j] by {
        assert(found[i] < found[j]);
    }
    assert forall|h: u64| #[trigger] list.contains(h) implies all.contains(h) && found.contains(h) by {
        let i = list.index_of(h);
        assert(found[i] == h);
        assert(found.contains(h));
    }
    assert forall|h: u64| #[trigger] all.contains(h) && !list.contains(h) implies list.len() == max && forall|
        k: u64,
    | #[trigger]
        list.contains(k) ==> k < h by {
        if found.contains(h) {
            let j = found.index_of(h);
            if j < list.len() {
                assert(list[j] == h);
            }
            assert forall|k: u64| #[trigger] list.contains(k) implies k < h by {
                let i = list.index_of(k);
                assert(found[i] < found[j]);
            }
        } else {
            assert(tm.db().contains_key(h));
            assert(limit == Some(found.len() as usize));
        }
    }
    if found.len() <= max {
        assert(list =~= found);
    } else {
        let x = found[max as int];
        assert(found.contains(x));
        if list.contains(x) {
            let i = list.index_of(x);
            assert(found[i] < found[max as int]);
        }
    }
    lemma_tagged_finite(tm, tag);
    lemma_ascending_len(list, all);
}

/// Whether the tag is drained.
proof fn lemma_drained(
    tm: &TransactionManager,
    db0: Map<u64, Record>,
    all: Set<u64>,
    tag: u32,
    max: usize,
    found: Seq<u64>,
    list: Seq<u64>,
)
    requires
        forall|h: u64| #[trigger] all.contains(h) <==> db0.contains_key(h) && db0[h].tag == tag,
        found.len() <= max ==> forall|h: u64| #[trigger] all.contains(h) ==> list.contains(h),
        found.len() > max ==> all.contains(found[max as int]) && !list.contains(found[max as int]),
    ensures
        tm.db() == db0.remove_keys(list.to_set()) ==> (tm.tagged_handles(tag) == Set::<u64>::empty() <==> found.len()
            <= max),
{
    if tm.db() == db0.remove_keys(list.to_set()) {
        let left = tm.tagged_handles(tag);
        if found.len() <= max {
            assert forall|h: u64| !left.contains(h) by {
                if left.contains(h) {
                    assert(all.contains(h));
                    assert(list.to_set().contains(h));
                }
            }
            assert(left =~= Set::<u64>::empty());
        } else {
            assert(left.contains(found[max as int]));
        }
    }
}

/// Finitely many handles carry a tag.
proof fn lemma_tagged_finite(tm: &TransactionManager, tag: u32)
    requires
        tm.inv(),
        !tm.spoiled(),
        tm.vetted(),
    ensures
        tm.tagged_handles(tag).finite(),
{
    reveal(sound_store);
    let w = tm.current();
    let bound = w.roots.next_handle;
    lemma_below_len(bound);
    let given_out = Set::new(|h: u64| h < bound);
    assert forall|h: u64| tm.tagged_handles(tag).contains(h) implies #[trigger] given_out.contains(h) by {
        assert(entry_of(w.cache.contents(), w.roots, h) is Some);
    }
    vstd::set_lib::lemma_len_subset(tm.tagged_handles(tag), given_out);
}

impl TransactionManager {
    /// Handles that carry a tag.
    pub open spec fn tagged_handles(&self, tag: u32) -> Set<u64> {
        Set::new(|h: u64| self.db().contains_key(h) && self.db()[h].tag == tag)
    }

    /// Take handles and their values away, one after the other. Those before a
    /// failure stay away.
    pub fn delete_many(&mut self, handles: &[u64]) -> (outcome: Result<(), ChiselError>)
        requires
            old(self).inv(),
            old(self).barred() is None ==> old(self).room(deletes_pages(handles@.len())),
        ensures
            final(self).inv(),
            final(self).rest_same(old(self)),
            old(self).barred() matches Some(b) ==> outcome == Err::<(), ChiselError>(b) && *final(self) == *old(self),
            old(self).barred() is None ==> {
                &&& final(self).names() == old(self).names()
                &&& final(self).next_handle() == old(self).next_handle()
                &&& match outcome {
                    Ok(_) => {
                        &&& final(self).db() == without(old(self).db(), handles@, handles@.len() as int)
                        &&& forall|i: int|
                            0 <= i < handles@.len() ==> without(old(self).db(), handles@, i).contains_key(
                                #[trigger] handles@[i],
                            )
                    },
                    Err(e) => exists|k: int| #[trigger] stopped_at(old(self), final(self), handles@, k, e),
                }
            },
    {
        match self.check_active() {
            Ok(_) => {},
            Err(e) => {
                return Err(e);
            },
        }
        proof {
            assert(handles@.take(0).to_set() =~= Set::<u64>::empty());
            assert(without(self.db(), handles@, 0) =~= self.db());
        }
        let mut i: usize = 0;
        while i < handles.len()
            invariant
                i <= handles@.len(),
                self.inv(),
                self.rest_same(old(self)),
                old(self).barred() is None,
                old(self).room(deletes_pages(handles@.len())),
                grown_by(&old(self).current().cache, &self.current().cache, deletes_pages(i as nat)),
                self.names() == old(self).names(),
                self.next_handle() == old(self).next_handle(),
                self.db() == without(old(self).db(), handles@, i as int),
                forall|k: int|
                    0 <= k < i ==> without(old(self).db(), handles@, k).contains_key(#[trigger] handles@[k]),
            decreases handles@.len() - i,
        {
            let ghost before = *self;
            proof {
                lemma_deletes_pages(i as nat, handles@.len());
                lemma_without(old(self).db(), handles@, i as int);
            }
            match self.delete(handles[i]) {
                Ok(_) => {},
                Err(e) => {
                    assert(self.db() == without(old(self).db(), handles@, i as int));
                    assert(stopped_at(old(self), self, handles@, i as int, e));
                    return Err(e);
                },
            }
            i += 1;
        }
        Ok(())
    }

    /// Take handles that are there away, in ascending order.
    fn delete_list(&mut self, list: &Vec<u64>) -> (outcome: Result<(), ChiselError>)
        requires
            old(self).inv(),
            old(self).barred() is None,
            old(self).room(deletes_pages(list@.len())),
            ascending(list@),
            forall|h: u64| #[trigger] list@.contains(h) ==> old(self).db().contains_key(h),
        ensures
            final(self).inv(),
            final(self).rest_same(old(self)),
            final(self).names() == old(self).names(),
            final(self).next_handle() == old(self).next_handle(),
            match outcome {
                Ok(_) => final(self).db() == old(self).db().remove_keys(list@.to_set()),
                Err(e) => {
                    &&& overrun(&old(self).current().cache, &final(self).current().cache, e, deletes_pages(list@.len()))
                    &&& exists|gone: Set<u64>|
                        gone.subset_of(list@.to_set()) && final(self).db() == #[trigger] old(self).db().remove_keys(gone)
                },
            },
    {
        let ghost db0 = self.db();
        match self.delete_many(list.as_slice()) {
            Ok(_) => {
                assert(list@.take(list@.len() as int) =~= list@);
                Ok(())
            },
            Err(e) => {
                proof {
                    let k = choose|k: int| #[trigger] stopped_at(old(self), self, list@, k, e);
                    lemma_still_there(db0, list@, k);
                    lemma_deletes_mono((k + 1) as nat, list@.len());
                    let gone = list@.take(k).to_set();
                    assert forall|h: u64| gone.contains(h) implies #[trigger] list@.to_set().contains(h) by {
                        let i = list@.take(k).index_of(h);
                        assert(list@[i] == h);
                    }
                    assert(self.db() == db0.remove_keys(gone));
                }
                Err(e)
            },
        }
    }

    /// The handles that carry a tag.
    pub fn handles_with_tag(&mut self, tag: u32) -> (outcome: Result<Vec<u64>, ChiselError>)
        requires
            old(self).inv(),
            tag != 0,
        ensures
            final(self).peeked(old(self)),
            old(self).spoiled() ==> (outcome matches Err(e) && e is Poisoned),
            !old(self).spoiled() ==> match outcome {
                Ok(list) => {
                    &&& !final(self).spoiled()
                    &&& ascending(list@)
                    &&& forall|h: u64| #[trigger] list@.contains(h) <==> h < u64::MAX && old(self).indexed(tag, h)
                    &&& old(self).vetted() || old(self).storage_sound() ==> forall|h: u64| #[trigger]
                        list@.contains(h) <==> old(self).tagged_handles(tag).contains(h)
                },
                Err(e) => final(self).unlisted_tag(old(self), tag, e),
            },
    {
        if self.poisoned {
            return Err(ChiselError::Poisoned);
        }
        proof {
            if self.checked || self.storage_sound() {
                self.lemma_indexed(tag);
            }
        }
        let listed = self.tagged(tag, None);
        proof {
            if listed is Ok {
                let list = listed->Ok_0@;
                assert forall|h: u64| #[trigger] list.contains(h) <==> h < u64::MAX && old(self).indexed(tag, h) by {}
                if old(self).checked || old(self).storage_sound() {
                    assert forall|h: u64| #[trigger] list.contains(h) <==> old(self).tagged_handles(tag).contains(h) by {
                        assert(old(self).indexed(tag, h) <==> old(self).tagged_handles(tag).contains(h));
                    }
                }
            }
        }
        listed
    }

    /// Take up to `max` handles that carry a tag away, the lowest first. Says
    /// which, and whether none is left.
    pub fn delete_with_tag(&mut self, tag: u32, max: usize) -> (outcome: Result<(Vec<u64>, bool), ChiselError>)
        requires
            old(self).inv(),
            tag != 0,
            old(self).barred() is None ==> old(self).room(
                deletes_pages(old(self).tagged_handles(tag).len()),
            ) || old(self).room(deletes_pages(max as nat)),
        ensures
            final(self).inv(),
            final(self).rest_same(old(self)),
            old(self).barred() matches Some(b) ==> outcome == Err::<(Vec<u64>, bool), ChiselError>(b) && *final(self)
                == *old(self),
            old(self).barred() is None ==> {
                &&& final(self).names() == old(self).names()
                &&& final(self).next_handle() == old(self).next_handle()
                &&& match outcome {
                    Ok((deleted, complete)) => {
                        &&& ascending(deleted@)
                        &&& deleted@.len() <= max
                        &&& final(self).db() == old(self).db().remove_keys(deleted@.to_set())
                        &&& forall|h: u64| #[trigger]
                            deleted@.contains(h) ==> old(self).tagged_handles(tag).contains(h)
                        &&& forall|h: u64| #[trigger]
                            old(self).tagged_handles(tag).contains(h) && !deleted@.contains(h) ==> deleted@.len() == max
                                && forall|k: u64| #[trigger] deleted@.contains(k) ==> k < h
                        &&& complete == (max > 0 && final(self).tagged_handles(tag) == Set::<u64>::empty())
                    },
                    Err(e) => {
                        &&& overrun(
                            &old(self).current().cache, &final(self).current().cache,
                            e,
                            deletes_pages(old(self).tagged_handles(tag).len()),
                        ) || overrun(&old(self).current().cache, &final(self).current().cache, e, deletes_pages(max as nat))
                        &&& exists|gone: Set<u64>|
                            gone.subset_of(old(self).tagged_handles(tag)) && final(self).db()
                                == #[trigger] old(self).db().remove_keys(gone)
                    },
                }
            },
    {
        match self.check_active() {
            Ok(_) => {},
            Err(e) => {
                return Err(e);
            },
        }
        let ghost db0 = self.db();
        let ghost all = self.tagged_handles(tag);
        if max == 0 {
            proof {
                assert(Seq::<u64>::empty().to_set() =~= Set::<u64>::empty());
                assert(db0.remove_keys(Set::<u64>::empty()) =~= db0);
            }
            return Ok((Vec::new(), false));
        }
        let limit: Option<usize> = if max < usize::MAX {
            Some(max + 1)
        } else {
            None
        };
        proof {
            self.lemma_indexed(tag);
        }
        let ghost start = *self;
        let mut list: Vec<u64> = match self.tagged(tag, limit) {
            Ok(list) => list,
            Err(e) => {
                proof {
                    assert(db0.remove_keys(Set::<u64>::empty()) =~= db0);
                }
                return Err(e);
            },
        };
        let ghost found = list@;
        let complete: bool = list.len() <= max;
        list.truncate(max);
        proof {
            assert(list@ == found.take(list@.len() as int));
            assert forall|h: u64| #[trigger]
                self.db().contains_key(h) && self.db()[h].tag == tag && !found.contains(h) implies limit == Some(
                found.len() as usize,
            ) && forall|k: u64| #[trigger] found.contains(k) ==> k < h by {
                assert(start.tagged_handles(tag).contains(h));
                assert(start.indexed(tag, h));
            }
            assert forall|h: u64| #[trigger] found.contains(h) implies self.db().contains_key(h) && self.db()[h].tag
                == tag by {
                assert(start.indexed(tag, h));
                assert(start.tagged_handles(tag).contains(h));
            }
            lemma_first_tagged(self, tag, limit, max, found, list@);
        }
        proof {
            lemma_deletes_mono(list@.len(), all.len());
            lemma_deletes_mono(list@.len(), max as nat);
        }
        let dropped = self.delete_list(&list);
        proof {
            lemma_drained(self, db0, all, tag, max, found, list@);
        }
        match dropped {
            Ok(_) => Ok((list, complete)),
            Err(e) => {
                proof {
                    let gone = choose|gone: Set<u64>|
                        gone.subset_of(list@.to_set()) && self.db() == #[trigger] db0.remove_keys(gone);
                    assert(gone.subset_of(all));
                }
                Err(e)
            },
        }
    }
}

/// Names do not matter for the pages.
proof fn lemma_renamed(w0: &Workspace, w1: &Workspace)
    requires
        w0.inv(),
        w1.cache == w0.cache,
        w1.recycler == w0.recycler,
        w1.slots == w0.slots,
        w1.freed == w0.freed,
        w1.deferred == w0.deferred,
        w1.cursor == w0.cursor,
        w1.live == w0.live,
        w1.bins == w0.bins,
        same_places(w0.roots, w1.roots),
        names_apart(w0.roots.names@) ==> names_apart(w1.roots.names@),
    ensures
        evolved(w0, w1, 0),
        w1.inv(),
        w1.db() == w0.db(),
{
    lemma_looked(w0, w0);
    lemma_evolved_reset(w0, w0, w1, 0);
    lemma_same_places(w0.cache.contents(), good(&w0.cache, &w0.recycler, w0.slots), w0.roots, w1.roots);
    lemma_same_counts(w0.live@, w0.cache.contents(), w0.cache.contents(), w0.roots, w1.roots);
    assert forall|i: int| 0 <= i < w1.freed@.len() implies stray(
        &w1.cache,
        &w1.recycler,
        w1.slots,
        w1.roots,
        #[trigger] w1.freed@[i],
    ) by {
        assert(stray(&w0.cache, &w0.recycler, w0.slots, w0.roots, w0.freed@[i]));
        assert(unused(w0.cache.contents(), w1.roots, w1.freed@[i]));
    }
    assert forall|i: int| 0 <= i < w1.deferred@.len() implies stray(
        &w1.cache,
        &w1.recycler,
        w1.slots,
        w1.roots,
        #[trigger] w1.deferred@[i],
    ) by {
        assert(stray(&w0.cache, &w0.recycler, w0.slots, w0.roots, w0.deferred@[i]));
        assert(unused(w0.cache.contents(), w1.roots, w1.deferred@[i]));
    }
}

/// Going back to a savepoint.
proof fn lemma_went_back(b: &Workspace, w0: &Workspace, w1: &Workspace, m: nat, sp: Savepoint)
    requires
        evolved(b, w0, m),
        b.freed@.len() == 0,
        w0.usable(),
        savepoint_ok(w0, sp),
        w1.cache == w0.cache,
        w1.recycler == w0.recycler,
        w1.slots == w0.slots,
        w1.deferred == w0.deferred,
        w1.bins == w0.bins,
        w1.roots == sp.roots,
        w1.freed@ == w0.freed@.take(sp.freed as int),
        w1.cursor == sp.cursor,
        w1.live@ == sp.live@,
    ensures
        evolved(b, w1, m),
        w1.inv(),
        forall|r: Roots, freed: Seq<u64>, cursor: Option<u64>|
            w0.holds(r, freed, cursor) ==> #[trigger] w1.holds(r, freed, cursor),
{
    lemma_evolved_reset(b, w0, w1, m);
    assert(w1.holds(sp.roots, w0.freed@.take(sp.freed as int), sp.cursor));
}

impl TransactionManager {
    /// Let a name stand for a handle.
    pub fn set_root_name(&mut self, name: &str, handle: u64) -> (outcome: Result<(), ChiselError>)
        requires
            old(self).inv(),
        ensures
            final(self).inv(),
            final(self).rest_same(old(self)),
            old(self).barred() matches Some(b) ==> outcome == Err::<(), ChiselError>(b) && *final(self) == *old(self),
            old(self).barred() is None ==> {
                let key = padded(encode_utf8(name@));
                let full = !old(self).names().contains_key(key) && old(self).names().dom().len() == NAMED_ROOT_COUNT;
                &&& final(self).db() == old(self).db()
                &&& final(self).next_handle() == old(self).next_handle()
                &&& match outcome {
                    Ok(_) => {
                        &&& name_valid(encode_utf8(name@))
                        &&& !full
                        &&& final(self).names() == old(self).names().insert(key, handle)
                    },
                    Err(e) => {
                        &&& final(self).names() == old(self).names()
                        &&& if name_valid(encode_utf8(name@)) {
                            full && e is RootNameTableFull
                        } else {
                            e is InvalidRootName
                        }
                    },
                }
            },
    {
        match self.check_active() {
            Ok(_) => {},
            Err(e) => {
                return Err(e);
            },
        }
        let ghost w0 = self.work;
        let key = match stored_name(name) {
            Ok(key) => key,
            Err(e) => {
                return Err(e);
            },
        };
        proof {
            lemma_padded(encode_utf8(name@));
        }
        let outcome = bind_root(&mut self.work.roots.names, key, handle);
        proof {
            assert(names_apart(w0.roots.names@)) by {
                reveal(sound_store);
            }
            law_full_table(w0.roots.names@);
            lemma_renamed(&w0, &self.work);
            Self::lemma_stepped(old(self), self, 0);
        }
        outcome
    }

    /// The handle that a name stands for.
    pub fn get_root_name(&self, name: &str) -> (outcome: Result<Option<u64>, ChiselError>)
        ensures
            self.spoiled() ==> (outcome matches Err(e) && e is Poisoned),
            !self.spoiled() ==> {
                let key = padded(encode_utf8(name@));
                match outcome {
                    Ok(found) => name_valid(encode_utf8(name@)) && found == (if self.names().contains_key(key) {
                        Some(self.names()[key])
                    } else {
                        None
                    }),
                    Err(e) => !name_valid(encode_utf8(name@)) && e is InvalidRootName,
                }
            },
    {
        if self.poisoned {
            return Err(ChiselError::Poisoned);
        }
        match stored_name(name) {
            Ok(key) => {
                proof {
                    lemma_padded(encode_utf8(name@));
                }
                Ok(find_root(&self.work.roots.names, &key))
            },
            Err(e) => Err(e),
        }
    }

    /// Let a name stand for nothing.
    pub fn clear_root_name(&mut self, name: &str) -> (outcome: Result<(), ChiselError>)
        requires
            old(self).inv(),
        ensures
            final(self).inv(),
            final(self).rest_same(old(self)),
            old(self).barred() matches Some(b) ==> outcome == Err::<(), ChiselError>(b) && *final(self) == *old(self),
            old(self).barred() is None ==> {
                &&& final(self).db() == old(self).db()
                &&& final(self).next_handle() == old(self).next_handle()
                &&& match outcome {
                    Ok(_) => {
                        &&& name_valid(encode_utf8(name@))
                        &&& final(self).names() == old(self).names().remove(padded(encode_utf8(name@)))
                    },
                    Err(e) => {
                        &&& !name_valid(encode_utf8(name@))
                        &&& e is InvalidRootName
                        &&& final(self).names() == old(self).names()
                    },
                }
            },
    {
        match self.check_active() {
            Ok(_) => {},
            Err(e) => {
                return Err(e);
            },
        }
        let ghost w0 = self.work;
        let key = match stored_name(name) {
            Ok(key) => key,
            Err(e) => {
                return Err(e);
            },
        };
        proof {
            lemma_padded(encode_utf8(name@));
        }
        unbind_root(&mut self.work.roots.names, &key);
        proof {
            lemma_renamed(&w0, &self.work);
            Self::lemma_stepped(old(self), self, 0);
        }
        Ok(())
    }

    /// The savepoint with a name.
    pub open spec fn mark_named(&self, name: Seq<char>, i: int) -> bool {
        0 <= i < self.marks().len() && self.marks()[i].name@ == name
    }

    /// Where the savepoint with a name is.
    fn find_mark(&self, name: &str) -> (found: Option<usize>)
        requires
            self.inv(),
            !self.spoiled(),
        ensures
            match found {
                Some(i) => self.mark_named(name@, i as int) && i < self.marks().len() && self.marks()[i as int].name@
                    == name@,
                None => {
                    &&& forall|i: int| !(#[trigger] self.mark_named(name@, i))
                    &&& forall|i: int| 0 <= i < self.marks().len() ==> (#[trigger] self.marks()[i]).name@ != name@
                },
            },
    {
        let mut i: usize = 0;
        while i < self.savepoints.len()
            invariant
                i <= self.savepoints@.len(),
                forall|k: int| 0 <= k < i ==> (#[trigger] self.savepoints@[k]).name@ != name@,
            decreases self.savepoints@.len() - i,
        {
            if same_text(self.savepoints[i].name.as_str(), name) {
                return Some(i);
            }
            i += 1;
        }
        assert forall|i: int| !(#[trigger] self.mark_named(name@, i)) by {
            if self.mark_named(name@, i) {
                assert(self.savepoints@[i].name@ == name@);
            }
        }
        None
    }

    /// The storage is sound, and its superblocks fit each other.
    pub open spec fn storage_sound(&self) -> bool {
        &&& fine(&self.current())
        &&& slots_fit(self.current().cache.disk(), self.current().slots, self.commits())
    }

    /// Look at everything once, before it is changed for the first time.
    fn vet(&mut self) -> (outcome: Result<(), ChiselError>)
        requires
            old(self).inv(),
            !old(self).spoiled(),
            !old(self).vetted(),
        ensures
            final(self).inv(),
            final(self).current().cache.same_pages(&old(self).current().cache),
            final(self).current().roots == old(self).current().roots,
            final(self).origin().roots == old(self).origin().roots,
            final(self).committed_db() == old(self).committed_db(),
            final(self).commits() == old(self).commits(),
            !final(self).running(),
            final(self).marks().len() == 0,
            match outcome {
                Ok(_) => {
                    &&& old(self).storage_sound() && final(self).vetted() && !final(self).spoiled()
                    &&& final(self).stranded() == orphans(&final(self).current()).len() && !final(self).told()
                },
                Err(e) => !old(self).storage_sound() && e.spec_is_fatal() && final(self).spoiled(),
            },
    {
        let ghost w0 = self.work;
        let ghost sb = superblock_of(&w0, self.counter, self.version);
        if !check_slots(self.work.cache.io(), self.work.slots, self.counter) {
            self.poisoned = true;
            proof {
                old(self).lemma_bounded();
            }
            return Err(ChiselError::CorruptSuperblock { defects: Vec::new() });
        }
        match self.work.audit() {
            Ok(_) => {},
            Err(e) => {
                self.poisoned = true;
                return Err(e);
            },
        }
        self.checked = true;
        self.committed_live = map_clone(&self.work.live);
        self.found = self.work.deferred.len() as u64;
        self.told = false;
        proof {
            lemma_orphan_count(&self.work, self.work.deferred@);
            lemma_held_all(self.work.deferred@);
            lemma_slots_described(w0.cache.disk(), w0.slots, sb);
            self.base = Ghost(self.work);
            self.spent = Ghost(0nat);
            assert(superblock_of(&self.work, self.counter, self.version) == sb);
            self.lemma_settled();
        }
        Ok(())
    }

    /// Begin a transaction.
    pub fn begin(&mut self) -> (outcome: Result<(), ChiselError>)
        requires
            old(self).inv(),
        ensures
            final(self).inv(),
            final(self).current().cache.same_pages(&old(self).current().cache),
            final(self).current().roots == old(self).current().roots,
            final(self).origin().roots == old(self).origin().roots,
            final(self).committed_db() == old(self).committed_db(),
            final(self).commits() == old(self).commits(),
            match outcome {
                Ok(_) => {
                    &&& !old(self).spoiled() && !old(self).running()
                    &&& !old(self).current().cache.storage().spec_read_only()
                    &&& !old(self).vetted() ==> {
                        &&& old(self).storage_sound()
                        &&& final(self).stranded() == orphans(&final(self).current()).len() && !final(self).told()
                    }
                    &&& old(self).vetted() ==> {
                        &&& final(self).current() == old(self).current()
                        &&& final(self).origin() == old(self).origin()
                        &&& final(self).stranded() == old(self).stranded()
                        &&& final(self).told() == old(self).told()
                    }
                    &&& final(self).running() && final(self).vetted() && !final(self).spoiled()
                    &&& final(self).marks().len() == 0
                },
                Err(e) => {
                    &&& e.spec_is_fatal() || *final(self) == *old(self)
                    &&& if old(self).spoiled() {
                        e is Poisoned
                    } else if old(self).current().cache.storage().spec_read_only() {
                        e is ReadOnlyMode
                    } else if old(self).running() {
                        e is TransactionAlreadyActive
                    } else {
                        &&& !old(self).vetted() && !old(self).storage_sound()
                        &&& e.spec_is_fatal() && final(self).spoiled()
                    }
                },
            },
    {
        if self.poisoned {
            return Err(ChiselError::Poisoned);
        }
        if self.work.cache.io().is_read_only() {
            return Err(ChiselError::ReadOnlyMode);
        }
        if self.active {
            return Err(ChiselError::TransactionAlreadyActive);
        }
        if !self.checked {
            match self.vet() {
                Ok(_) => {},
                Err(e) => {
                    return Err(e);
                },
            }
        }
        self.active = true;
        Ok(())
    }

    /// Set a savepoint.
    pub fn savepoint(&mut self, name: &str) -> (outcome: Result<(), ChiselError>)
        requires
            old(self).inv(),
        ensures
            final(self).inv(),
            final(self).current() == old(self).current(),
            final(self).origin() == old(self).origin(),
            final(self).commits() == old(self).commits(),
            final(self).stranded() == old(self).stranded(),
            final(self).told() == old(self).told(),
            final(self).running() == old(self).running(),
            final(self).spoiled() == old(self).spoiled(),
            outcome is Err ==> *final(self) == *old(self),
            old(self).barred() matches Some(b) ==> outcome == Err::<(), ChiselError>(b),
            old(self).barred() is None ==> match outcome {
                Ok(_) => {
                    let n = old(self).marks().len() as int;
                    &&& forall|i: int| !(#[trigger] old(self).mark_named(name@, i))
                    &&& forall|i: int| 0 <= i < n ==> (#[trigger] old(self).marks()[i]).name@ != name@
                    &&& final(self).marks()[n].name@ == name@
                    &&& final(self).marks().len() == n + 1
                    &&& final(self).marks().take(n) == old(self).marks()
                    &&& final(self).mark_named(name@, n)
                    &&& final(self).marks()[n].roots == old(self).current().roots
                    &&& final(self).marked_db(n) == old(self).db()
                },
                Err(e) => {
                    &&& exists|i: int| #[trigger] old(self).mark_named(name@, i)
                    &&& exists|i: int|
                        0 <= i < old(self).marks().len() && (#[trigger] old(self).marks()[i]).name@ == name@
                    &&& e matches ChiselError::DuplicateSavepoint(text) && text@ == name@
                },
            },
    {
        match self.check_active() {
            Ok(_) => {},
            Err(e) => {
                return Err(e);
            },
        }
        if self.find_mark(name).is_some() {
            return Err(ChiselError::DuplicateSavepoint(name.to_owned()));
        }
        let sp = Savepoint {
            name: name.to_owned(),
            roots: self.work.roots,
            freed: self.work.freed.len(),
            cursor: self.work.cursor,
            live: map_clone(&self.work.live),
        };
        self.savepoints.push(sp);
        proof {
            let before = old(self).savepoints@;
            let after = self.savepoints@;
            assert(self.work.freed@.take(sp.freed as int) =~= self.work.freed@);
            assert forall|i: int| 0 <= i < after.len() implies savepoint_ok(&self.work, #[trigger] after[i]) by {
                if i < before.len() {
                    assert(after[i] == before[i]);
                }
            }
            assert forall|i: int, j: int| 0 <= i < j < after.len() implies (#[trigger] after[i]).name@ != (
            #[trigger] after[j]).name@ && after[i].freed <= after[j].freed by {
                assert(after[i] == before[i]);
                assert(savepoint_ok(&self.work, before[i]));
                assert(!old(self).mark_named(name@, i));
                if j < before.len() {
                    assert(after[j] == before[j]);
                }
            }
            assert(self.marks().take(before.len() as int) =~= before);
        }
        Ok(())
    }

    /// Go back to a savepoint. It stays; those set after it do not.
    pub fn rollback_to(&mut self, name: &str) -> (outcome: Result<(), ChiselError>)
        requires
            old(self).inv(),
        ensures
            final(self).inv(),
            final(self).origin() == old(self).origin(),
            final(self).commits() == old(self).commits(),
            final(self).stranded() == old(self).stranded(),
            final(self).told() == old(self).told(),
            final(self).running() == old(self).running(),
            final(self).spoiled() == old(self).spoiled(),
            outcome is Err ==> *final(self) == *old(self),
            old(self).barred() matches Some(b) ==> outcome == Err::<(), ChiselError>(b),
            old(self).barred() is None ==> match outcome {
                Ok(_) => exists|i: int|
                    {
                        &&& #[trigger] old(self).mark_named(name@, i)
                        &&& 0 <= i < old(self).marks().len()
                        &&& old(self).marks()[i].name@ == name@
                        &&& final(self).marks() == old(self).marks().take(i + 1)
                        &&& final(self).current().roots == old(self).marks()[i].roots
                        &&& final(self).db() == old(self).marked_db(i)
                        &&& forall|k: int| 0 <= k <= i ==> #[trigger] final(self).marked_db(k) == old(self).marked_db(k)
                    },
                Err(e) => {
                    &&& forall|i: int| !(#[trigger] old(self).mark_named(name@, i))
                    &&& forall|i: int| 0 <= i < old(self).marks().len() ==> (#[trigger] old(self).marks()[i]).name@ != name@
                    &&& e matches ChiselError::SavepointNotFound(text) && text@ == name@
                },
            },
    {
        match self.check_active() {
            Ok(_) => {},
            Err(e) => {
                return Err(e);
            },
        }
        let i: usize = match self.find_mark(name) {
            Some(i) => i,
            None => {
                return Err(ChiselError::SavepointNotFound(name.to_owned()));
            },
        };
        let ghost before = *self;
        let ghost sp = self.savepoints@[i as int];
        let count: usize = self.savepoints.len();
        assert(i < count);
        self.savepoints.truncate(i + 1);
        self.work.roots = self.savepoints[i].roots;
        self.work.freed.truncate(self.savepoints[i].freed);
        self.work.cursor = self.savepoints[i].cursor;
        self.work.live = map_clone(&self.savepoints[i].live);
        proof {
            assert(savepoint_ok(&before.work, sp));
            assert(self.savepoints@ =~= before.savepoints@.take(i + 1));
            assert(self.work.freed@ =~= before.work.freed@.take(sp.freed as int));
            lemma_went_back(&before.base@, &before.work, &self.work, before.spent@, sp);
            assert forall|k: int| 0 <= k < self.savepoints@.len() implies savepoint_ok(
                &self.work,
                #[trigger] self.savepoints@[k],
            ) by {
                assert(savepoint_ok(&before.work, before.savepoints@[k]));
                assert(self.savepoints@[k] == before.savepoints@[k]);
                let f: int = before.savepoints@[k].freed as int;
                assert(f <= sp.freed);
                assert(self.work.freed@.take(f) =~= before.work.freed@.take(f));
            }
            assert(old(self).mark_named(name@, i as int));
        }
        Ok(())
    }
}

/// Two sources are the same, but the second may start looking earlier.
spec fn same_source(a: &Recycler, b: &Recycler) -> bool {
    &&& b.tree.root == a.tree.root
    &&& b.tree.depth == a.tree.depth
    &&& b.tree.session_owned@ == a.tree.session_owned@
    &&& b.tree.pending_superseded@ == a.tree.pending_superseded@
    &&& b.saved_root == a.saved_root
    &&& b.saved_depth == a.saved_depth
    &&& b.hint <= a.hint
}

/// A source that starts looking earlier is as good.
proof fn lemma_same_source(a: &Recycler, b: &Recycler, c: &PageCache)
    requires
        same_source(a, b),
        a.ready(c),
    ensures
        b.ready(c),
        b.footprint(c) == a.footprint(c),
{
    assert(b.nodes(c) == a.nodes(c));
    assert(b.saved_nodes(c) == a.saved_nodes(c));
    assert forall|id: u64| #[trigger] b.frees(c, id) == a.frees(c, id) by {}
    assert(b.footprint(c) =~= a.footprint(c));
    assert forall|id: u64| #[trigger] b.tree.marks_free(c, id) implies a.tree.marks_free(c, id) by {}
}

/// A clean state whose pages are the same is clean.
proof fn lemma_clean_again(b: &Workspace, w: &Workspace)
    requires
        clean(b),
        w.cache.inv(),
        w.cache.bounded(),
        w.cache.contents() == b.cache.contents(),
        w.cache.unsaved() == b.cache.unsaved(),
        w.cache.pending() == 0,
        w.cache.disk() == b.cache.disk(),
        w.cache.watermark() == b.cache.watermark(),
        same_source(&b.recycler, &w.recycler),
        w.slots == b.slots,
        w.roots == b.roots,
        w.freed@.len() == 0,
        w.deferred@ == b.deferred@,
        w.cursor is None,
        w.live@ == b.live@,
        w.bins@ == Set::<u64>::empty(),
    ensures
        clean(w),
        w.db() == b.db(),
{
    lemma_none_noted(w.freed@, w.deferred@);
    reveal(agree_on);
    assert(agree_on(&b.cache, &w.cache, Set::<u64>::full()));
    b.recycler.lemma_copied(&b.cache, &w.cache, Set::<u64>::full());
    assert(b.recycler.footprint(&w.cache) =~= b.recycler.footprint(&b.cache));
    lemma_same_source(&b.recycler, &w.recycler, &w.cache);
    assert(good(&w.cache, &w.recycler, w.slots) =~= good(&b.cache, &b.recycler, b.slots));
    assert forall|i: int| 0 <= i < w.deferred@.len() implies stray(
        &w.cache,
        &w.recycler,
        w.slots,
        w.roots,
        #[trigger] w.deferred@[i],
    ) && !w.recycler.footprint(&w.cache).contains(w.deferred@[i]) by {
        assert(stray(&b.cache, &b.recycler, b.slots, b.roots, b.deferred@[i]));
    }
}

impl TransactionManager {
    /// Give a savepoint up, and those set after it, without going back.
    pub fn release(&mut self, name: &str) -> (outcome: Result<(), ChiselError>)
        requires
            old(self).inv(),
        ensures
            final(self).inv(),
            final(self).current() == old(self).current(),
            final(self).origin() == old(self).origin(),
            final(self).commits() == old(self).commits(),
            final(self).stranded() == old(self).stranded(),
            final(self).told() == old(self).told(),
            final(self).running() == old(self).running(),
            final(self).spoiled() == old(self).spoiled(),
            outcome is Err ==> *final(self) == *old(self),
            old(self).barred() matches Some(b) ==> outcome == Err::<(), ChiselError>(b),
            old(self).barred() is None ==> match outcome {
                Ok(_) => exists|i: int|
                    {
                        &&& #[trigger] old(self).mark_named(name@, i)
                        &&& 0 <= i < old(self).marks().len()
                        &&& old(self).marks()[i].name@ == name@
                        &&& final(self).marks() == old(self).marks().take(i)
                    },
                Err(e) => {
                    &&& forall|i: int| !(#[trigger] old(self).mark_named(name@, i))
                    &&& forall|i: int| 0 <= i < old(self).marks().len() ==> (#[trigger] old(self).marks()[i]).name@ != name@
                    &&& e matches ChiselError::SavepointNotFound(text) && text@ == name@
                },
            },
    {
        match self.check_active() {
            Ok(_) => {},
            Err(e) => {
                return Err(e);
            },
        }
        let i: usize = match self.find_mark(name) {
            Some(i) => i,
            None => {
                return Err(ChiselError::SavepointNotFound(name.to_owned()));
            },
        };
        self.savepoints.truncate(i);
        proof {
            assert(self.savepoints@ =~= old(self).savepoints@.take(i as int));
            assert(old(self).mark_named(name@, i as int));
            assert forall|k: int| 0 <= k < self.savepoints@.len() implies savepoint_ok(
                &self.work,
                #[trigger] self.savepoints@[k],
            ) by {
                assert(savepoint_ok(&self.work, old(self).savepoints@[k]));
            }
        }
        Ok(())
    }

    /// How many pages of former freemaps the commit of the running transaction
    /// frees; says so once, and not while there are savepoints.
    pub fn report_orphans(&mut self) -> (count: u64)
        requires
            old(self).inv(),
        ensures
            final(self).inv(),
            final(self).current() == old(self).current(),
            final(self).rest_kept(old(self)),
            if old(self).marks().len() > 0 {
                count == 0 && final(self).told() == old(self).told()
            } else {
                count == old(self).unreported() && final(self).told()
            },
    {
        if self.savepoints.len() > 0 || self.told {
            0
        } else {
            self.told = true;
            self.found
        }
    }

    /// How many of the pages noted to be freed a commit holds back.
    fn held_back(&self) -> (held: usize)
        requires
            self.inv(),
            !self.spoiled(),
            self.vetted(),
        ensures
            held == self.unreported(),
            held_apart(self.current().deferred@, held as int),
    {
        proof {
            lemma_held_all(self.work.deferred@);
        }
        if self.told {
            0
        } else {
            let noted: usize = self.work.deferred.len();
            assert(self.found <= noted) by {
                reveal(held_apart);
            }
            self.found as usize
        }
    }

    /// How many pages of former freemaps a report would tell of.
    pub open spec fn unreported(&self) -> u64 {
        if self.told() {
            0
        } else {
            self.stranded()
        }
    }

    /// The state is that of the storage: a transaction can begin from it.
    proof fn lemma_settled(&self)
        requires
            self.base@ == self.work,
            self.spent@ == 0,
            held_apart(self.work.deferred@, self.found as int),
            clean(&self.work),
            self.savepoints@.len() == 0,
            self.committed == self.work.roots,
            self.committed_pages == self.work.cache.watermark(),
            self.committed_live@ == self.work.live@,
            describes(
                self.work.cache.disk(),
                self.work.slots,
                superblock_of(&self.work, self.counter, self.version),
            ),
            !self.active,
            self.checked,
            self.version / 0x1_0000 == FORMAT_MAJOR_VERSION,
        ensures
            self.inv(),
    {
        lemma_looked(&self.work, &self.work);
    }

    /// Give the transaction up: everything is as it was committed.
    pub fn rollback(&mut self) -> (outcome: Result<(), ChiselError>)
        requires
            old(self).inv(),
        ensures
            final(self).inv(),
            final(self).spoiled() == old(self).spoiled(),
            final(self).commits() == old(self).commits(),
            final(self).committed_db() == old(self).committed_db(),
            final(self).origin().roots == old(self).origin().roots,
            old(self).barred() matches Some(b) ==> outcome == Err::<(), ChiselError>(b) && *final(self) == *old(self),
            old(self).barred() is None ==> {
                &&& outcome is Ok
                &&& !final(self).running() && final(self).vetted()
                &&& final(self).current().cache.same_config(&old(self).current().cache)
                &&& !final(self).current().cache.storage().spec_read_only()
                &&& final(self).db() == old(self).committed_db()
                &&& final(self).current().roots == old(self).origin().roots
                &&& final(self).marks().len() == 0
                &&& final(self).stranded() == old(self).stranded() && !final(self).told()
                &&& final(self).current().cache.disk() == old(self).current().cache.disk()
            },
    {
        match self.check_active() {
            Ok(_) => {},
            Err(e) => {
                return Err(e);
            },
        }
        let ghost b = self.base@;
        let ghost w0 = self.work;
        proof {
            reveal(evolved);
        }
        self.work.cache.discard_all_dirty();
        self.work.cache.set_next_page_id(self.committed_pages);
        self.work.recycler = Recycler::new(self.work.recycler.saved_root, self.work.recycler.saved_depth);
        self.work.roots = self.committed;
        self.work.freed = Vec::new();
        self.work.cursor = None;
        self.work.live = map_clone(&self.committed_live);
        self.savepoints = Vec::new();
        self.active = false;
        self.told = false;
        proof {
            self.work.bins = Ghost(Set::empty());
            assert(self.work.cache.contents() =~= b.cache.contents());
            assert(self.work.recycler.tree.pending_superseded@ =~= b.recycler.tree.pending_superseded@);
            lemma_clean_again(&b, &self.work);
            self.base = Ghost(self.work);
            self.spent = Ghost(0nat);
            self.lemma_settled();
        }
        Ok(())
    }
}

/// Writing the next slot makes its superblock the one that the storage holds.
proof fn lemma_next_described(
    disk0: Seq<Seq<u8>>,
    disk1: Seq<Seq<u8>>,
    n: u32,
    before: Superblock,
    after: Superblock,
    page: Seq<u8>,
)
    requires
        describes(disk0, n, before),
        after.txn_counter == before.txn_counter + 1,
        after.superblock_count == n,
        after.magic == MAGIC,
        checksum_ok(page),
        encodes(page, after),
        n <= disk1.len(),
        disk1[slot_for(after.txn_counter, n)] == page,
        forall|j: int|
            0 <= j < n && j != slot_for(after.txn_counter, n) ==> #[trigger] disk1[j] == disk0[j],
    ensures
        describes(disk1, n, after),
{
    assert(slot_defect(page) is None);
    assert forall|j: int|
        0 <= j < n && j != slot_for(after.txn_counter, n) && slot_defect(#[trigger] disk1[j]) is None implies counter_of(
        disk1[j],
    ) < after.txn_counter by {
        assert(disk1[j] == disk0[j]);
        if j != slot_for(before.txn_counter, n) {
            assert(counter_of(disk0[j]) < before.txn_counter);
        }
    }
}

impl TransactionManager {
    /// The transaction can be committed: counters and page ids do not run out.
    pub open spec fn commit_room(&self) -> bool {
        &&& self.commits() < u64::MAX
        &&& self.current().cache.watermark() + persist_pages(&self.current()) <= usize::MAX
    }

    /// A page can be used again.
    pub open spec fn page_free(&self, id: u64) -> bool {
        self.current().recycler.frees(&self.current().cache, id)
    }

    /// The state reached was made the committed one.
    pub open spec fn committed_from(&self, before: &TransactionManager) -> bool {
        &&& !self.spoiled() && self.vetted()
        &&& !self.running()
        &&& self.current().cache.same_config(&before.current().cache)
        &&& !self.current().cache.storage().spec_read_only()
        &&& self.db() == before.db()
        &&& self.committed_db() == before.db()
        &&& self.current().roots == before.current().roots
        &&& self.origin().roots == before.current().roots
        &&& self.commits() == before.commits() + 1
        &&& before.accounted() ==> self.accounted()
        &&& self.marks().len() == 0
        &&& self.stranded() == before.unreported() && !self.told()
        &&& forall|id: u64| #[trigger]
            self.page_free(id) == (before.page_free(id) || to_free(
                &before.current(),
                before.unreported() as int,
            ).contains(id))
        &&& exists|m: int| #[trigger]
            saved_in_order(
                &before.current(),
                &self.current(),
                slot_for(self.commits(), before.current().slots) as u64,
                m,
            )
        &&& self.current().cache.storage().syncs() == bumped(
            bumped(bumped(before.current().cache.storage().syncs())),
        )
    }

    /// What saving a state means for what can be seen.
    #[verifier::spinoff_prover]
    proof fn lemma_committed_from(before: &TransactionManager, after: &TransactionManager)
        requires
            before.counter < u64::MAX,
            after.counter == before.counter + 1,
            published(&before.work, &after.work, after.counter),
            after.savepoints@.len() == 0,
            !after.active,
            after.checked,
            after.base@ == after.work,
            !after.poisoned,
            !after.told,
            after.found == before.unreported(),
            accounted(&before.work) ==> accounted(&after.work),
            after.work.cache.same_config(&before.work.cache),
            !after.work.cache.storage().spec_read_only(),
            forall|id: u64| #[trigger]
                after.work.recycler.frees(&after.work.cache, id) == (before.work.recycler.frees(
                    &before.work.cache,
                    id,
                ) || to_free(&before.work, before.unreported() as int).contains(id)),
            after.work.cache.storage().syncs() == bumped(bumped(bumped(before.work.cache.storage().syncs()))),
        ensures
            after.committed_from(before),
    {
        let slot = slot_for(after.counter, before.work.slots) as u64;
        let m = choose|m: int| #[trigger] saved_in_order(&before.work, &after.work, slot, m);
        assert(saved_in_order(
            &before.current(),
            &after.current(),
            slot_for(after.commits(), before.current().slots) as u64,
            m,
        ));
        assert(after.db() == before.db() && after.committed_db() == before.db());
        assert(after.stranded() == before.unreported() && !after.told());
        assert(before.accounted() ==> after.accounted());
        assert(after.current().roots == before.current().roots && after.origin().roots == before.current().roots);
        assert forall|id: u64| #[trigger] after.page_free(id) == (before.page_free(id) || to_free(
            &before.current(),
            before.unreported() as int,
        ).contains(id)) by {
            assert(after.work.recycler.frees(&after.work.cache, id) == (before.work.recycler.frees(
                &before.work.cache,
                id,
            ) || to_free(&before.work, before.unreported() as int).contains(id)));
        }
    }

    /// A state that was saved and described is the committed one.
    #[verifier::rlimit(60)]
    #[verifier::spinoff_prover]
    proof fn lemma_committed(before: &TransactionManager, after: &TransactionManager)
        requires
            before.inv(),
            before.barred() is None,
            before.counter < u64::MAX,
            after.counter == before.counter + 1,
            published(&before.work, &after.work, after.counter),
            after.version == FORMAT_VERSION,
            after.committed == after.work.roots,
            after.committed_pages == after.work.cache.watermark(),
            after.committed_live@ == after.work.live@,
            after.savepoints@.len() == 0,
            !after.active,
            after.checked,
            after.base@ == after.work,
            after.spent@ == 0,
            held_apart(after.work.deferred@, after.found as int),
        ensures
            after.inv(),
    {
        reveal(evolved);
        let b = before.base@;
        lemma_next_described(
            b.cache.disk(),
            after.work.cache.disk(),
            b.slots,
            superblock_of(&b, before.counter, before.version),
            superblock_of(&after.work, after.counter, FORMAT_VERSION),
            after.work.cache.disk()[slot_for(after.counter, b.slots)],
        );
        after.lemma_settled();
    }

    /// Save the state reached, and describe it in a superblock slot.
    #[verifier::rlimit(40)]
    #[verifier::spinoff_prover]
    fn save(&mut self, counter: u64, held: usize) -> (outcome: Result<(), ChiselError>)
        requires
            old(self).inv(),
            old(self).barred() is None,
            old(self).commit_room(),
            held_apart(old(self).current().deferred@, held as int),
        ensures
            *final(self) == (TransactionManager { work: final(self).work, ..*old(self) }),
            match outcome {
                Ok(_) => {
                    let (w0, w1) = (old(self).work, final(self).work);
                    &&& published(&w0, &w1, counter)
                    &&& accounted(&w0) ==> accounted(&w1)
                    &&& w1.cache.same_config(&w0.cache)
                    &&& forall|id: u64| #[trigger]
                        w1.recycler.frees(&w1.cache, id) == (w0.recycler.frees(&w0.cache, id) || to_free(
                            &w0,
                            held as int,
                        ).contains(id))
                    &&& held_apart(w1.deferred@, held as int)
                    &&& w1.cache.storage().syncs() == bumped(bumped(bumped(w0.cache.storage().syncs())))
                    &&& !w1.cache.storage().spec_read_only()
                },
                Err(e) => {
                    &&& save_load(&old(self).work) > old(self).work.cache.capacity()
                    &&& e == old(self).work.cache.pressure_error()
                    &&& final(self).work.cache.pending() > final(self).work.cache.capacity()
                },
            },
    {
        let ghost b = self.base@;
        let ghost w0 = self.work;
        assert(filled(&w0.cache) && w0.slots == b.slots && w0.cache.disk() == b.cache.disk()) by {
            reveal(evolved);
        }
        proof {
            self.lemma_slots_spared();
        }
        self.work.publish(counter, held)
    }

    /// Make the state reached the committed one. The pages that it freed can be
    /// used again. A failure is for good.
    #[verifier::rlimit(60)]
    #[verifier::spinoff_prover]
    pub fn commit(&mut self) -> (outcome: Result<(), ChiselError>)
        requires
            old(self).inv(),
            old(self).barred() is None ==> old(self).commit_room(),
        ensures
            final(self).inv(),
            old(self).barred() matches Some(b) ==> outcome == Err::<(), ChiselError>(b) && *final(self) == *old(self),
            old(self).barred() is None ==> match outcome {
                Ok(_) => final(self).committed_from(old(self)),
                Err(e) => {
                    &&& final(self).spoiled()
                    &&& final(self).current().cache.pending() > final(self).current().cache.capacity()
                    &&& save_load(&old(self).current()) > old(self).current().cache.capacity()
                    &&& e == old(self).current().cache.pressure_error()
                },
            },
    {
        match self.check_active() {
            Ok(_) => {},
            Err(e) => {
                return Err(e);
            },
        }
        let counter: u64 = self.counter + 1;
        let held: usize = self.held_back();
        match self.save(counter, held) {
            Ok(_) => {},
            Err(e) => {
                self.poisoned = true;
                return Err(e);
            },
        }
        self.counter = counter;
        self.version = FORMAT_VERSION;
        self.committed = self.work.roots;
        self.committed_pages = self.work.cache.next_page_id();
        self.committed_live = map_clone(&self.work.live);
        self.savepoints = Vec::new();
        self.active = false;
        self.found = held as u64;
        self.told = false;
        proof {
            self.base = Ghost(self.work);
            self.spent = Ghost(0nat);
            Self::lemma_committed(old(self), self);
            Self::lemma_committed_from(old(self), self);
        }
        Ok(())
    }
}

/// The roots of an empty database.
pub open spec fn empty_roots(names: [NamedRoot; NAMED_ROOT_COUNT]) -> Roots {
    Roots {
        table_root: PAGE_ID_NONE,
        table_depth: 0,
        index_root: PAGE_ID_NONE,
        index_depth: 0,
        next_handle: 1,
        names,
    }
}

/// The superblock of an empty database.
pub open spec fn empty_superblock(n: u32, counter: u64, names: [NamedRoot; NAMED_ROOT_COUNT]) -> Superblock {
    Superblock {
        magic: MAGIC,
        format_version: FORMAT_VERSION,
        txn_counter: counter,
        root_handle_table_page: PAGE_ID_NONE,
        root_freemap_page: PAGE_ID_NONE,
        freemap_depth: 0,
        root_membership_index_page: PAGE_ID_NONE,
        total_pages: n as u64,
        next_handle: 1,
        page_size: PAGE_SIZE as u32,
        superblock_count: n,
        named_roots: names,
    }
}

/// An empty database is sound.
proof fn lemma_empty_store(pages: Map<u64, Seq<u8>>, good: Set<u64>, r: Roots)
    requires
        r == empty_roots(r.names),
        names_apart(r.names@),
    ensures
        sound_store(pages, good, r),
        tags_agree(pages, r),
        counts_ok(Map::<u64, u64>::empty(), pages, r),
        database(pages, r) == Map::<u64, Record>::empty(),
        forall|id: u64| unused(pages, r, id),
{
    reveal(sound_store);
    assert forall|h: u64| #[trigger] entry_of(pages, r, h) is None by {}
    assert(database(pages, r) =~= Map::<u64, Record>::empty());
    assert forall|tag: u32, h: u64| !(#[trigger] index_has(pages, r, tag, h)) by {
        assert(!is_member(pages, r.index_root, r.index_depth as nat, tag, h));
    }
    let roots = index_roots(pages, r.index_root, r.index_depth as nat);
    assert forall|i: Option<u32>| #[trigger] roots(i) is None by {}
    assert forall|id: u64| !index_nodes(pages, r).contains(id) by {
        if index_nodes(pages, r).contains(id) {
            let i = choose|i: Option<u32>| #[trigger]
                index_page(pages, r.index_root, r.index_depth as nat, i, id);
            assert(roots(i) is None);
        }
    }
    assert forall|p: u64| residents(pages, r, p).len() == 0 by {
        assert(residents(pages, r, p) =~= Set::<u64>::empty());
    }
}

/// Add a superblock slot to a storage that holds nothing else.
fn add_slot(cache: &mut PageCache, page: &[u8; PAGE_SIZE]) -> (outcome: Result<(), ChiselError>)
    requires
        old(cache).inv(),
        old(cache).bounded(),
        old(cache).unsaved() == Set::<u64>::empty(),
        old(cache).pending() == 0,
        old(cache).contents() == disk_map(old(cache).disk()),
        old(cache).watermark() == old(cache).disk().len(),
        old(cache).watermark() < MAX_SUPERBLOCKS,
        !old(cache).storage().spec_read_only(),
    ensures
        outcome is Ok,
        final(cache).inv(),
        final(cache).bounded(),
        final(cache).unsaved() == Set::<u64>::empty(),
        final(cache).pending() == 0,
        final(cache).contents() == disk_map(final(cache).disk()),
        final(cache).disk() == old(cache).disk().push(page@),
        final(cache).watermark() == final(cache).disk().len(),
        final(cache).same_config(old(cache)),
{
    let ghost d0 = cache.disk();
    proof {
        cache.lemma_inv();
        cache.lemma_notions();
    }
    let id: u64 = match cache.new_page() {
        Ok(id) => id,
        Err(e) => {
            return Err(e);
        },
    };
    let ghost c1 = *cache;
    proof {
        cache.lemma_inv();
        cache.lemma_explains(id);
    }
    match cache.get_mut(id) {
        Ok(buf) => {
            *buf = *page;
        },
        Err(e) => {
            return Err(e);
        },
    }
    let ghost c2 = *cache;
    proof {
        assert(c2.unsaved() =~= Set::<u64>::empty().insert(id));
        c2.lemma_notions();
        let by_page = Map::new(|id: u64| c2.present(id), |id: u64| c2.bytes(id));
        assert(by_page.contains_key(id));
        assert(by_page[id] == c2.bytes(id));
    }
    match cache.flush() {
        Ok(_) => {},
        Err(e) => {
            return Err(e);
        },
    }
    proof {
        let d1 = cache.disk();
        cache.lemma_inv();
        assert(c2.unsaved_pages().contains_key(id));
        assert(c2.unsaved_pages()[id] == page@);
        assert(d1.len() == d0.len() + 1) by {
            if d1.len() != d0.len() {
                assert(c2.unsaved_pages().contains_key((d1.len() - 1) as u64));
            }
        }
        assert forall|i: int| 0 <= i < d1.len() implies d1[i] == d0.push(page@)[i] by {
            let x = i as u64;
            assert(c2.unsaved_pages().contains_key(x) == (x == id));
            assert(d1[x as int] == d1[i]);
        }
        assert(d1 =~= d0.push(page@));
    }
    Ok(())
}

impl TransactionManager {
    /// An empty database with so many superblock slots.
    pub fn create_new(cache: PageCache, slots: u32) -> (outcome: Result<TransactionManager, ChiselError>)
        requires
            cache.inv(),
            cache.bounded(),
            cache.unsaved() == Set::<u64>::empty(),
            cache.pending() == 0,
            cache.contents() == disk_map(cache.disk()),
            cache.disk().len() == 0,
            cache.watermark() == 0,
            !cache.storage().spec_read_only(),
            count_ok(slots as int),
        ensures
            match outcome {
                Ok(tm) => {
                    &&& tm.inv()
                    &&& !tm.spoiled()
                    &&& !tm.running()
                    &&& tm.vetted()
                    &&& tm.db() == Map::<u64, Record>::empty()
                    &&& tm.committed_db() == Map::<u64, Record>::empty()
                    &&& tm.names() == Map::<Seq<u8>, u64>::empty()
                    &&& tm.next_handle() == 1
                    &&& tm.commits() == slots - 1
                    &&& tm.unreported() == 0
                    &&& tm.current().slots == slots
                    &&& tm.current().cache.watermark() == slots
                    &&& tm.current().cache.disk().len() == slots
                    &&& tm.current().cache.same_config(&cache)
                    &&& tm.accounted()
                },
                Err(_) => false,
            },
    {
        let mut cache = cache;
        let ghost c0 = cache;
        let names = free_names();
        let mut i: u32 = 0;
        while i < slots
            invariant
                i <= slots,
                count_ok(slots as int),
                cache.inv(),
                cache.bounded(),
                cache.unsaved() == Set::<u64>::empty(),
                cache.pending() == 0,
                cache.contents() == disk_map(cache.disk()),
                cache.watermark() == cache.disk().len(),
                cache.disk().len() == i,
                !cache.storage().spec_read_only(),
                cache.same_config(&c0),
                forall|j: int|
                    0 <= j < i ==> checksum_ok(#[trigger] cache.disk()[j]) && encodes(
                        cache.disk()[j],
                        empty_superblock(slots, j as u64, names),
                    ),
            decreases slots - i,
        {
            let sb = Superblock {
                magic: MAGIC,
                format_version: FORMAT_VERSION,
                txn_counter: i as u64,
                root_handle_table_page: PAGE_ID_NONE,
                root_freemap_page: PAGE_ID_NONE,
                freemap_depth: 0,
                root_membership_index_page: PAGE_ID_NONE,
                total_pages: slots as u64,
                next_handle: 1,
                page_size: PAGE_SIZE as u32,
                superblock_count: slots,
                named_roots: names,
            };
            let page = sb.serialize();
            match add_slot(&mut cache, &page) {
                Ok(_) => {},
                Err(e) => {
                    return Err(e);
                },
            }
            i += 1;
        }
        let roots = Roots {
            table_root: PAGE_ID_NONE,
            table_depth: 0,
            index_root: PAGE_ID_NONE,
            index_depth: 0,
            next_handle: 1,
            names,
        };
        let work = Workspace {
            cache,
            recycler: Recycler::new(PAGE_ID_NONE, 0),
            slots,
            roots,
            freed: Vec::new(),
            deferred: Vec::new(),
            cursor: None,
            live: map_new(),
            bins: Ghost(Set::empty()),
        };
        proof {
            lemma_empty_store(
                work.cache.contents(),
                good(&work.cache, &work.recycler, slots),
                roots,
            );
            lemma_none_noted(work.freed@, work.deferred@);
            assert(work.live@ =~= Map::<u64, u64>::empty());
            assert(accounted(&work)) by {
                reveal(accounted);
                assert forall|id: u64| #[trigger] kept_by(&work, id) by {
                    assert(id < slots || work.recycler.footprint(&work.cache).contains(id));
                }
            }
            assert forall|id: u64| !(#[trigger] work.recycler.frees(&work.cache, id)) by {}
            assert(clean(&work));
            let counter = (slots - 1) as u64;
            assert(superblock_of(&work, counter, FORMAT_VERSION) == empty_superblock(slots, counter, names));
            assert(slot_for(counter, slots) == slots - 1) by {
                vstd::arithmetic::div_mod::lemma_small_mod((slots - 1) as nat, slots as nat);
            }
            assert(describes(work.cache.disk(), slots, superblock_of(&work, counter, FORMAT_VERSION)));
        }
        let tm = TransactionManager {
            base: Ghost(work),
            spent: Ghost(0nat),
            counter: (slots - 1) as u64,
            version: FORMAT_VERSION,
            committed: roots,
            committed_pages: slots as u64,
            committed_live: map_clone(&work.live),
            active: false,
            poisoned: false,
            checked: true,
            found: 0,
            told: false,
            savepoints: Vec::new(),
            work,
        };
        proof {
            lemma_held_all(tm.work.deferred@);
            tm.lemma_settled();
        }
        Ok(tm)
    }
}

impl TransactionManager {
    /// Settings cannot be changed now.
    pub open spec fn busy(&self) -> Option<ChiselError> {
        if self.spoiled() {
            Some(ChiselError::Poisoned)
        } else if self.running() {
            Some(ChiselError::TransactionInProgress)
        } else {
            None
        }
    }

    /// Only settings of the cache have changed.
    pub open spec fn resized(&self, before: &TransactionManager) -> bool {
        &&& self.commits() == before.commits()
        &&& self.vetted() == before.vetted()
        &&& self.stranded() == before.stranded()
        &&& self.told() == before.told()
        &&& !self.running()
        &&& !self.spoiled()
        &&& self.marks().len() == 0
        &&& self.db() == before.db()
        &&& self.committed_db() == before.committed_db()
        &&& self.names() == before.names()
        &&& self.next_handle() == before.next_handle()
        &&& self.current().cache.disk() == before.current().cache.disk()
        &&& self.current().cache.storage().spec_read_only() == before.current().cache.storage().spec_read_only()
    }

    /// Says why settings cannot be changed, if that is so.
    fn check_idle(&self) -> (outcome: Result<(), ChiselError>)
        ensures
            match outcome {
                Ok(_) => self.busy() is None,
                Err(e) => self.busy() == Some(e),
            },
    {
        if self.poisoned {
            Err(ChiselError::Poisoned)
        } else if self.active {
            Err(ChiselError::TransactionInProgress)
        } else {
            Ok(())
        }
    }

    /// Says why nothing about the storage can be changed between transactions, if
    /// that is so.
    pub fn check_writable(&self) -> (outcome: Result<(), ChiselError>)
        ensures
            match outcome {
                Ok(_) => self.busy() is None && !self.current().cache.storage().spec_read_only(),
                Err(e) => if self.busy() is Some {
                    self.busy() == Some(e)
                } else {
                    self.current().cache.storage().spec_read_only() && e is ReadOnlyMode
                },
            },
    {
        match self.check_idle() {
            Ok(_) => {},
            Err(e) => {
                return Err(e);
            },
        }
        if self.work.cache.io().is_read_only() {
            return Err(ChiselError::ReadOnlyMode);
        }
        Ok(())
    }

    /// The cache may have changed, but for its pages.
    proof fn lemma_resized(before: &TransactionManager, after: &TransactionManager)
        requires
            before.inv(),
            before.busy() is None,
            after.counter == before.counter,
            after.version == before.version,
            after.committed == before.committed,
            after.committed_pages == before.committed_pages,
            after.committed_live == before.committed_live,
            after.active == before.active,
            after.poisoned == before.poisoned,
            after.checked == before.checked,
            after.found == before.found,
            after.told == before.told,
            after.savepoints == before.savepoints,
            after.work.recycler == before.work.recycler,
            after.work.slots == before.work.slots,
            after.work.roots == before.work.roots,
            after.work.freed == before.work.freed,
            after.work.deferred == before.work.deferred,
            after.work.cursor == before.work.cursor,
            after.work.live == before.work.live,
            after.work.bins == before.work.bins,
            after.work.cache.inv(),
            after.work.cache.contents() == before.work.cache.contents(),
            after.work.cache.unsaved() == before.work.cache.unsaved(),
            after.work.cache.pending() == before.work.cache.pending(),
            after.work.cache.disk() == before.work.cache.disk(),
            after.work.cache.watermark() == before.work.cache.watermark(),
            after.work.cache.storage().spec_read_only() == before.work.cache.storage().spec_read_only(),
            after.base@ == after.work,
            after.spent@ == 0,
        ensures
            after.inv(),
            after.resized(before),
    {
        if before.checked {
            reveal(evolved);
            lemma_clean_again(&before.base@, &after.work);
            after.lemma_settled();
        } else {
            assert(superblock_of(&after.work, after.counter, after.version) == superblock_of(
                &before.work,
                before.counter,
                before.version,
            ));
        }
    }

    /// Set how many bytes the cache may hold.
    pub fn set_cache_max_bytes(&mut self, bytes: u64) -> (outcome: Result<(), ChiselError>)
        requires
            old(self).inv(),
            bytes / (PAGE_SIZE as u64) <= usize::MAX,
        ensures
            final(self).inv(),
            old(self).busy() matches Some(b) ==> outcome == Err::<(), ChiselError>(b) && *final(self) == *old(self),
            old(self).busy() is None ==> {
                &&& outcome is Ok
                &&& final(self).resized(old(self))
                &&& final(self).current().cache.page_limit() == page_limit_of(bytes)
                &&& final(self).current().cache.order() == trimmed(
                    old(self).current().cache.order(),
                    old(self).current().cache.dirty(),
                    old(self).current().cache.order().len() - page_limit_of(bytes),
                )
                &&& final(self).current().cache.spill_limit() == old(self).current().cache.spill_limit()
                &&& final(self).current().cache.policy() == old(self).current().cache.policy()
            },
    {
        match self.check_idle() {
            Ok(_) => {},
            Err(e) => {
                return Err(e);
            },
        }
        let outcome = self.work.cache.set_cache_max_bytes(bytes);
        proof {
            old(self).work.cache.lemma_notions();
            self.work.cache.lemma_notions();
            self.base = Ghost(self.work);
            self.spent = Ghost(0nat);
            Self::lemma_resized(old(self), self);
        }
        outcome
    }

    /// Set how many bytes may be spilled.
    pub fn set_spillway_max_bytes(&mut self, bytes: u64) -> (outcome: Result<(), ChiselError>)
        requires
            old(self).inv(),
        ensures
            final(self).inv(),
            old(self).busy() matches Some(b) ==> outcome == Err::<(), ChiselError>(b) && *final(self) == *old(self),
            old(self).busy() is None ==> {
                &&& outcome is Ok
                &&& final(self).resized(old(self))
                &&& final(self).current().cache.page_limit() == old(self).current().cache.page_limit()
                &&& final(self).current().cache.spill_limit() == bytes
                &&& final(self).current().cache.policy() == old(self).current().cache.policy()
            },
    {
        match self.check_idle() {
            Ok(_) => {},
            Err(e) => {
                return Err(e);
            },
        }
        let outcome = self.work.cache.set_spillway_max_bytes(bytes);
        proof {
            old(self).work.cache.lemma_notions();
            self.work.cache.lemma_notions();
            self.base = Ghost(self.work);
            self.spent = Ghost(0nat);
            Self::lemma_resized(old(self), self);
        }
        outcome
    }

    /// Set where pages go that a commit brings back from the spillway.
    pub fn set_drain_insertion(&mut self, policy: DrainInsertion) -> (outcome: Result<(), ChiselError>)
        requires
            old(self).inv(),
        ensures
            final(self).inv(),
            old(self).busy() matches Some(b) ==> outcome == Err::<(), ChiselError>(b) && *final(self) == *old(self),
            old(self).busy() is None ==> {
                &&& outcome is Ok
                &&& final(self).resized(old(self))
                &&& final(self).current().cache.page_limit() == old(self).current().cache.page_limit()
                &&& final(self).current().cache.spill_limit() == old(self).current().cache.spill_limit()
                &&& final(self).current().cache.policy() == policy
            },
    {
        match self.check_idle() {
            Ok(_) => {},
            Err(e) => {
                return Err(e);
            },
        }
        self.work.cache.set_drain_insertion(policy);
        proof {
            old(self).work.cache.lemma_notions();
            self.work.cache.lemma_notions();
            self.base = Ghost(self.work);
            self.spent = Ghost(0nat);
            Self::lemma_resized(old(self), self);
        }
        Ok(())
    }

    /// Take what was done to the storage since it was last asked for.
    pub fn take_journal(&mut self) -> (outcome: Result<Vec<IoAction>, ChiselError>)
        requires
            old(self).inv(),
        ensures
            final(self).inv(),
            old(self).busy() matches Some(b) ==> outcome == Err::<Vec<IoAction>, ChiselError>(b) && *final(self) == *old(
                self,
            ),
            old(self).busy() is None ==> {
                &&& final(self).resized(old(self))
                &&& outcome matches Ok(actions) && actions@ == old(self).current().cache.storage().recorded()
                &&& final(self).current().cache.storage().recorded().len() == 0
                &&& final(self).current().cache.storage().is_file_image() == old(
                    self,
                ).current().cache.storage().is_file_image()
                &&& old(self).current().cache.storage().is_file_image() ==> final(self).current().cache.storage().base()
                    == old(self).current().cache.disk()
                &&& final(self).current().cache.page_limit() == old(self).current().cache.page_limit()
                &&& final(self).current().cache.spill_limit() == old(self).current().cache.spill_limit()
                &&& final(self).current().cache.policy() == old(self).current().cache.policy()
            },
    {
        match self.check_idle() {
            Ok(_) => {},
            Err(e) => {
                return Err(e);
            },
        }
        let actions = self.work.cache.take_journal();
        proof {
            self.base = Ghost(self.work);
            self.spent = Ghost(0nat);
            Self::lemma_resized(old(self), self);
        }
        Ok(actions)
    }

    /// Take note of whether what was done to the storage could be carried out where
    /// it is kept. A failure is for good.
    pub fn settle_journal(&mut self, carried: Result<(), std::io::Error>) -> (outcome: Result<(), ChiselError>)
        requires
            old(self).inv(),
        ensures
            final(self).inv(),
            final(self).current() == old(self).current(),
            final(self).origin() == old(self).origin(),
            match carried {
                Ok(_) => outcome is Ok && *final(self) == *old(self),
                Err(e) => final(self).spoiled() && outcome == Err::<(), ChiselError>(io_failure(e)),
            },
    {
        match carried {
            Ok(_) => Ok(()),
            Err(e) => {
                self.poisoned = true;
                Err(ChiselError::from(e))
            },
        }
    }

    /// The number of pages that the storage holds.
    pub fn file_page_count(&self) -> (outcome: Result<u64, ChiselError>)
        ensures
            self.spoiled() ==> (outcome matches Err(e) && e is Poisoned),
            !self.spoiled() ==> (outcome matches Ok(n) && n == self.current().cache.disk().len()),
    {
        if self.poisoned {
            return Err(ChiselError::Poisoned);
        }
        self.work.cache.file_page_count()
    }

    /// How full the spillway is, and how full it may be; `None` until it is used.
    pub fn spillway_capacity(&self) -> (outcome: Result<Option<(u64, u64)>, ChiselError>)
        requires
            self.inv(),
        ensures
            self.spoiled() ==> (outcome matches Err(e) && e is Poisoned),
            !self.spoiled() ==> match outcome {
                Ok(usage) => {
                    let c = self.current().cache;
                    match usage {
                        Some((used, limit)) => {
                            &&& c.has_spillway()
                            &&& limit == c.spill_limit()
                            &&& used == (if c.spill_order().len() * PAGE_SIZE <= u64::MAX {
                                c.spill_order().len() * PAGE_SIZE
                            } else {
                                u64::MAX as int
                            })
                        },
                        None => !c.has_spillway(),
                    }
                },
                Err(_) => false,
            },
    {
        if self.poisoned {
            return Err(ChiselError::Poisoned);
        }
        Ok(self.work.cache.spillway_capacity())
    }

    /// What has been done since the database was opened.
    pub fn counters(&self) -> (outcome: Result<ChiselCounters, ChiselError>)
        ensures
            self.spoiled() ==> (outcome matches Err(e) && e is Poisoned),
            !self.spoiled() ==> (outcome matches Ok(counters) && {
                &&& counters.cache_hits == self.current().cache.hits()
                &&& counters.cache_misses == self.current().cache.misses()
                &&& counters.pages_allocated == self.current().cache.allocations()
                &&& counters.fsync_calls == self.current().cache.storage().syncs()
            }),
    {
        if self.poisoned {
            return Err(ChiselError::Poisoned);
        }
        Ok(self.work.cache.counters())
    }

    /// A value of this length can be stored, updated or deleted.
    pub fn has_room_for(&self, length: usize) -> (fits: bool)
        requires
            self.inv(),
            !self.spoiled(),
        ensures
            fits ==> self.next_handle() < u64::MAX,
            fits ==> forall|tag: u32| #[trigger] self.room(allocate_pages(length as nat, tag)),
            fits ==> self.room(update_pages(length as nat)),
            fits ==> self.room(delete_pages()),
            fits ==> self.room(table_set_pages()),
            self.next_handle() < u64::MAX && self.room((length / OVERFLOW_PAYLOAD + 1000) as nat) ==> fits,
    {
        let top: u64 = self.work.cache.next_page_id();
        let pages: u64 = (length / OVERFLOW_PAYLOAD) as u64 + 1000;
        let fits: bool = self.work.roots.next_handle < u64::MAX && pages <= INNER_ROOT_MASK && top <= INNER_ROOT_MASK
            - pages && pages <= usize::MAX as u64 && top <= usize::MAX as u64 - pages;
        proof {
            assert(pages_for(length as nat) <= length / OVERFLOW_PAYLOAD + 1);
        }
        fits
    }
}

/// Every page of the table can be read.
pub open spec fn table_intact(w: &Workspace) -> bool {
    w.roots.table_root != PAGE_ID_NONE ==> tree_in(
        w.cache.contents(),
        ENTRIES_PER_LEAF as nat,
        w.roots.table_root,
        w.roots.table_depth as nat,
        sound_pages(&w.cache),
    )
}

/// A page of the table cannot be read.
pub open spec fn table_damaged(c: &PageCache, root: u64, e: ChiselError) -> bool {
    left_depth(c.contents(), root, 0) matches Ok(d) && exists|k: nat, l: nat|
        k < reach(ENTRIES_PER_LEAF as nat, d) && l <= d && ((#[trigger] node_at(
            c.contents(),
            ENTRIES_PER_LEAF as nat,
            root,
            d,
            k,
            l,
        )) matches Some(id) && !c.sound(id) && e == c.read_error(id))
}

/// A page of the table, or the left edge of the index, cannot be read.
pub open spec fn edge_damaged(c: &PageCache, sb: Superblock, e: ChiselError) -> bool {
    let table = sb.root_handle_table_page;
    let index = sb.root_membership_index_page;
    ||| table != PAGE_ID_NONE && (left_depth(c.contents(), table, 0) matches Err(page_id) && e == (
    ChiselError::CorruptPage { page_id }))
    ||| index != PAGE_ID_NONE && (radix_left_depth(c.contents(), index, 0) matches Err(page_id) && e == (
    ChiselError::CorruptPage { page_id }))
    ||| table != PAGE_ID_NONE && exists|i: nat|
        !c.sound(#[trigger] left_page(c.contents(), table, i)) && e == c.read_error(left_page(c.contents(), table, i))
            && (left_depth(c.contents(), table, 0) matches Ok(d) ==> i <= d)
    ||| index != PAGE_ID_NONE && exists|i: nat|
        !c.sound(#[trigger] radix_left_page(c.contents(), index, i)) && e == c.read_error(
            radix_left_page(c.contents(), index, i),
        ) && (radix_left_depth(c.contents(), index, 0) matches Ok(d) ==> i <= d)
    ||| table != PAGE_ID_NONE && table_damaged(c, table, e)
}

/// What the failure to read an edge says.
spec fn edge_error(c: &PageCache, sb: Superblock, e: ChiselError) -> bool {
    let table = sb.root_handle_table_page;
    let index = sb.root_membership_index_page;
    ||| table != PAGE_ID_NONE && (left_depth(c.contents(), table, 0) matches Err(page_id) && e == (
    ChiselError::CorruptPage { page_id }))
    ||| index != PAGE_ID_NONE && (radix_left_depth(c.contents(), index, 0) matches Err(page_id) && e == (
    ChiselError::CorruptPage { page_id }))
    ||| table != PAGE_ID_NONE && exists|i: nat|
        c.explains(e, #[trigger] left_page(c.contents(), table, i)) && (left_depth(c.contents(), table, 0) matches Ok(d)
            ==> i <= d)
    ||| index != PAGE_ID_NONE && exists|i: nat|
        c.explains(e, #[trigger] radix_left_page(c.contents(), index, i)) && (radix_left_depth(
            c.contents(),
            index,
            0,
        ) matches Ok(d) ==> i <= d)
}

/// Where the failure to read an edge comes from.
proof fn lemma_edge_errors(c0: &PageCache, c1: &PageCache, sb: Superblock, e: ChiselError)
    requires
        c1.inv(),
        c1.contents() == c0.contents(),
        c1.unsaved() == c0.unsaved(),
        c1.disk() == c0.disk(),
        c1.pending() == 0,
        edge_error(c1, sb, e),
    ensures
        edge_damaged(c0, sb, e),
{
    let table = sb.root_handle_table_page;
    let index = sb.root_membership_index_page;
    if table != PAGE_ID_NONE && exists|i: nat|
        c1.explains(e, #[trigger] left_page(c1.contents(), table, i)) && (left_depth(
            c1.contents(),
            table,
            0,
        ) matches Ok(d) ==> i <= d) {
        let i = choose|i: nat|
            c1.explains(e, #[trigger] left_page(c1.contents(), table, i)) && (left_depth(
                c1.contents(),
                table,
                0,
            ) matches Ok(d) ==> i <= d);
        assert(!c0.sound(left_page(c0.contents(), table, i)));
    } else if index != PAGE_ID_NONE && exists|i: nat|
        c1.explains(e, #[trigger] radix_left_page(c1.contents(), index, i)) && (radix_left_depth(
            c1.contents(),
            index,
            0,
        ) matches Ok(d) ==> i <= d) {
        let i = choose|i: nat|
            c1.explains(e, #[trigger] radix_left_page(c1.contents(), index, i)) && (radix_left_depth(
                c1.contents(),
                index,
                0,
            ) matches Ok(d) ==> i <= d);
        assert(!c0.sound(radix_left_page(c0.contents(), index, i)));
    }
}

/// A scan of the table fails only if a page of it cannot be read.
proof fn lemma_table_damaged(c0: &PageCache, c1: &PageCache, root: u64, d: nat, e: ChiselError)
    requires
        c1.inv(),
        c1.contents() == c0.contents(),
        c1.unsaved() == c0.unsaved(),
        c1.disk() == c0.disk(),
        c1.pending() == 0,
        left_depth(c0.contents(), root, 0) == Ok::<nat, u64>(d),
        tree_explains(c1, ENTRIES_PER_LEAF as nat, root, d, e),
    ensures
        table_damaged(c0, root, e),
{
    let c = ENTRIES_PER_LEAF as nat;
    let (k, l) = choose|k: nat, l: nat|
        k < reach(c, d) && l <= d && ((#[trigger] node_at(c1.contents(), c, root, d, k, l)) matches Some(id)
            && !c1.sound(id) && e == c1.read_error(id));
    let id = node_at(c0.contents(), c, root, d, k, l)->0;
    assert(!c0.sound(id));
}

/// A depth that can be found is one that a tree can have.
proof fn lemma_left_bound(pages: Map<u64, Seq<u8>>, page: u64, depth: nat)
    requires
        depth <= 6,
    ensures
        left_depth(pages, page, depth) matches Ok(d) ==> d <= 6,
    decreases 6 - depth,
{
    let s = crate::radix::page_at(pages, page);
    if depth < 6 {
        lemma_left_bound(pages, crate::radix::child_of(s, 0), depth + 1);
    }
}

/// A depth that can be found is one that an index can have.
proof fn lemma_radix_left_bound(pages: Map<u64, Seq<u8>>, page: u64, depth: nat)
    requires
        depth <= 6,
    ensures
        radix_left_depth(pages, page, depth) matches Ok(d) ==> d <= 6,
    decreases 6 - depth,
{
    let s = crate::radix::page_at(pages, page);
    if depth < 6 {
        lemma_radix_left_bound(pages, crate::radix::child_of(s, 0), depth + 1);
    }
}

/// How full a data page is.
#[derive(Debug, Clone, Copy, PartialEq, Eq, Structural)]
pub struct PageFill {
    /// The page.
    pub page: u64,
    /// How many of its slots hold a value of the database.
    pub live: u64,
    /// How many slots it has.
    pub stored: u64,
}

impl TransactionManager {
    /// The data pages that hold a value.
    pub open spec fn data_pages(&self) -> Set<u64> {
        self.current().live@.dom()
    }

    /// The data page that holds the value of a handle; `None` if an overflow chain
    /// does.
    pub fn handle_live_page_id(&mut self, handle: u64) -> (outcome: Result<Option<u64>, ChiselError>)
        requires
            old(self).inv(),
        ensures
            final(self).peeked(old(self)),
            old(self).spoiled() ==> (outcome matches Err(e) && e is Poisoned),
            !old(self).spoiled() ==> match outcome {
                Ok(found) => {
                    &&& !final(self).spoiled()
                    &&& old(self).place_of(handle) matches Some(e) && found == (if e.flags == HandleFlags::Live {
                        Some(e.page_id)
                    } else {
                        None
                    })
                },
                Err(e) => final(self).unfound(old(self), handle, e),
            },
    {
        if self.poisoned {
            return Err(ChiselError::Poisoned);
        }
        match self.entry(handle) {
            Ok(entry) => if matches!(entry.flags, HandleFlags::Live) {
                Ok(Some(entry.page_id))
            } else {
                Ok(None)
            },
            Err(e) => Err(e),
        }
    }

    /// The data pages that hold a value, in ascending order.
    pub fn data_page_ids_snapshot(&self) -> (list: Vec<u64>)
        requires
            self.inv(),
            !self.spoiled(),
            self.vetted(),
        ensures
            ascending(list@),
            list@.to_set() == self.data_pages(),
    {
        let top: u64 = self.work.cache.next_page_id();
        let ghost live = self.work.live@;
        let mut list: Vec<u64> = Vec::new();
        let mut id: u64 = 0;
        while id < top
            invariant
                id <= top,
                live == self.work.live@,
                ascending(list@),
                forall|k: int| 0 <= k < list@.len() ==> #[trigger] list@[k] < id && live.contains_key(list@[k]),
                forall|p: u64| p < id && #[trigger] live.contains_key(p) ==> list@.contains(p),
            decreases top - id,
        {
            if map_contains(&self.work.live, id) {
                let ghost before = list@;
                list.push(id);
                proof {
                    assert forall|p: u64| p < id + 1 && #[trigger] live.contains_key(p) implies list@.contains(p) by {
                        if p < id {
                            let k = before.index_of(p);
                            assert(list@[k] == p);
                        } else {
                            assert(list@[before.len() as int] == p);
                        }
                    }
                }
            }
            id += 1;
        }
        proof {
            assert forall|p: u64| list@.to_set().contains(p) == live.dom().contains(p) by {
                if live.contains_key(p) {
                    lemma_live_below(&self.work, p);
                    assert(list@.contains(p));
                }
                if list@.contains(p) {
                    let k = list@.index_of(p);
                    assert(live.contains_key(list@[k]));
                }
            }
            assert(list@.to_set() =~= live.dom());
        }
        list
    }

    /// How full each data page is that holds a value, in ascending order.
    pub fn page_fill(&mut self) -> (outcome: Result<Vec<PageFill>, ChiselError>)
        requires
            old(self).inv(),
        ensures
            final(self).peeked(old(self)),
            old(self).barred() matches Some(b) ==> outcome == Err::<Vec<PageFill>, ChiselError>(b) && *final(self)
                == *old(self),
            old(self).barred() is None ==> match outcome {
                Ok(list) => {
                    &&& !final(self).spoiled()
                    &&& ascending(Seq::new(list@.len(), |i: int| list@[i].page))
                    &&& forall|i: int|
                        0 <= i < list@.len() ==> {
                            let fill = #[trigger] list@[i];
                            &&& old(self).data_pages().contains(fill.page)
                            &&& fill.live == old(self).current().live@[fill.page]
                            &&& fill.stored == slot_count_of(page_at(old(self).current().cache.contents(), fill.page))
                        }
                    &&& Seq::new(list@.len(), |i: int| list@[i].page).to_set() == old(self).data_pages()
                },
                Err(e) => !final(self).spoiled() && old(self).overfull(e),
            },
    {
        match self.check_active() {
            Ok(_) => {},
            Err(e) => {
                proof {
                    if !self.poisoned {
                        self.lemma_bounded();
                    }
                }
                return Err(e);
            },
        }
        let ids: Vec<u64> = self.data_page_ids_snapshot();
        let ghost w0 = self.work;
        let ghost start = *self;
        let mut list: Vec<PageFill> = Vec::new();
        proof {
            self.lemma_bounded();
            Self::lemma_peeked(old(self), self);
        }
        let mut i: usize = 0;
        while i < ids.len()
            invariant
                i <= ids@.len(),
                start == *old(self),
                start.inv(),
                !start.poisoned,
                start.checked,
                w0 == start.work,
                self.peeked(&start),
                !self.poisoned,
                ids@.to_set() == start.data_pages(),
                ascending(ids@),
                list@.len() == i,
                forall|k: int|
                    0 <= k < i ==> {
                        let fill = #[trigger] list@[k];
                        &&& fill.page == ids@[k]
                        &&& start.data_pages().contains(fill.page)
                        &&& fill.live == w0.live@[fill.page]
                        &&& fill.stored == slot_count_of(page_at(w0.cache.contents(), fill.page))
                    },
            decreases ids@.len() - i,
        {
            let page: u64 = ids[i];
            let ghost before = *self;
            proof {
                assert(ids@.contains(page));
                assert(ids@.to_set().contains(page));
                lemma_live_below(&w0, page);
                before.lemma_bounded();
                self.work.cache.lemma_explains(page);
            }
            let live: u64 = match map_get(&self.work.live, page) {
                Some(live) => *live,
                None => 0,
            };
            let stored: u64 = match self.work.cache.get(page) {
                Ok(buf) => DataPage::slot_count(buf) as u64,
                Err(e) => {
                    proof {
                        Self::lemma_peeked(&before, self);
                    }
                    return Err(e);
                },
            };
            proof {
                Self::lemma_peeked(&before, self);
            }
            list.push(PageFill { page, live, stored });
            i += 1;
        }
        proof {
            assert(Seq::new(list@.len(), |i: int| list@[i].page) =~= ids@);
        }
        Ok(list)
    }

    /// The number of unsaved pages and of all pages leaves room for so many more.
    pub fn has_room_for_pages(&self, n: u64) -> (fits: bool)
        ensures
            fits == self.room(n as nat),
    {
        let top: u64 = self.work.cache.next_page_id();
        n <= INNER_ROOT_MASK && top <= INNER_ROOT_MASK - n && n <= usize::MAX as u64 && top <= usize::MAX as u64 - n
    }

    /// A transaction can be committed.
    pub fn has_commit_room(&self) -> (fits: bool)
        ensures
            fits ==> self.commit_room(),
            self.commits() < u64::MAX && self.current().freed@.len() + self.current().deferred@.len() <= 0x1_0000_0000
                && self.current().cache.watermark() + 0xC_0000_0000 <= usize::MAX ==> fits,
    {
        let count: u64 = match (self.work.freed.len() as u64).checked_add(self.work.deferred.len() as u64) {
            Some(count) => count,
            None => {
                return false;
            },
        };
        if self.counter == u64::MAX || count > 0x1_0000_0000 {
            return false;
        }
        let pages: u64 = 1 + count * 11;
        let top: u64 = self.work.cache.next_page_id();
        pages <= usize::MAX as u64 && top <= usize::MAX as u64 - pages
    }
}

/// A transaction runs on sound pages.
pub proof fn lemma_running_vetted(tm: &TransactionManager)
    requires
        tm.inv(),
        tm.barred() is None,
    ensures
        tm.vetted(),
{
}

/// The value of a handle lies on a data page.
pub open spec fn lies_on(tm: &TransactionManager, h: u64, page: u64) -> bool {
    tm.place_of(h) matches Some(e) && e.flags == HandleFlags::Live && e.page_id == page
}

/// The data pages are the pages on which some value lies, each counted with the number of
/// values on it.
pub proof fn law_data_pages(tm: &TransactionManager)
    requires
        tm.inv(),
        !tm.spoiled(),
        tm.vetted(),
    ensures
        forall|p: u64| #[trigger] tm.data_pages().contains(p) <==> exists|h: u64| #[trigger] lies_on(tm, h, p),
        forall|p: u64| #[trigger]
            tm.data_pages().contains(p) ==> tm.current().live@[p] == Set::new(|h: u64| lies_on(tm, h, p)).len(),
{
    let w = &tm.work;
    let pages = w.cache.contents();
    assert forall|p: u64| #[trigger] tm.data_pages().contains(p) <==> exists|h: u64| #[trigger] lies_on(tm, h, p) by {
        let set = residents(pages, w.roots, p);
        lemma_residents_finite(pages, good(&w.cache, &w.recycler, w.slots), w.roots, p);
        assert(w.live@.contains_key(p) == (set.len() > 0));
        if set.len() > 0 {
            let h = set.choose();
            assert(set.contains(h));
            assert(lies_on(tm, h, p));
        }
        if exists|h: u64| #[trigger] lies_on(tm, h, p) {
            let h = choose|h: u64| #[trigger] lies_on(tm, h, p);
            assert(set.contains(h));
            if set.len() == 0 {
                assert(set =~= Set::<u64>::empty());
            }
        }
    }
    assert forall|p: u64| #[trigger] tm.data_pages().contains(p) implies tm.current().live@[p] == Set::new(
        |h: u64| lies_on(tm, h, p),
    ).len() by {
        assert(Set::new(|h: u64| lies_on(tm, h, p)) =~= residents(pages, w.roots, p));
        assert(w.live@.contains_key(p));
    }
}

/// A sound state can be used.
pub proof fn lemma_usable(tm: &TransactionManager)
    requires
        tm.inv(),
        !tm.spoiled(),
        tm.vetted(),
    ensures
        tm.current().usable(),
        tm.current().cache.inv(),
        tm.current().cache.bounded(),
        tm.current().recycler.ready(&tm.current().cache),
{
}

/// The page of a value is not handed out.
pub proof fn lemma_not_handed_out(tm: &TransactionManager, h: u64)
    requires
        tm.inv(),
        !tm.spoiled(),
        tm.vetted(),
    ensures
        tm.place_of(h) matches Some(e) ==> e.flags == HandleFlags::Live ==> !tm.current().recycler.footprint(
            &tm.current().cache,
        ).contains(e.page_id),
{
    reveal(sound_store);
    let w = &tm.work;
    if let Some(e) = tm.place_of(h) {
        if e.flags == HandleFlags::Live {
            let g = good(&w.cache, &w.recycler, w.slots);
            assert(value_ok(w.cache.contents(), g, e));
            assert(value_pages(w.cache.contents(), e).contains(e.page_id));
            assert(g.contains(e.page_id));
        }
    }
}

/// A value goes to another place than one that is taken.
pub proof fn lemma_goes_elsewhere(tm: &TransactionManager, h: u64, e: HandleEntry, n: nat)
    requires
        tm.inv(),
        !tm.spoiled(),
        tm.vetted(),
        tm.place_of(h) matches Some(at) && at.flags == HandleFlags::Live,
        goes_to(&tm.current(), e, n),
    ensures
        elsewhere(tm.place_of(h)->0, e),
{
    reveal(next_in_line);
    reveal(sound_store);
    let w = &tm.work;
    let at = tm.place_of(h)->0;
    let g = good(&w.cache, &w.recycler, w.slots);
    assert(value_ok(w.cache.contents(), g, at));
    assert(value_pages(w.cache.contents(), at).contains(at.page_id));
    assert(g.contains(at.page_id));
    assert(w.recycler.footprint(&w.cache).contains(w.cache.watermark()));
}

/// Another slot, or another page.
pub open spec fn elsewhere(a: HandleEntry, b: HandleEntry) -> bool {
    a.page_id != b.page_id || a.slot_index != b.slot_index
}

/// A value on a data page is no longer than the page allows.
pub proof fn lemma_inline_length(tm: &TransactionManager, h: u64)
    requires
        tm.inv(),
        !tm.spoiled(),
        tm.vetted(),
        tm.place_of(h) matches Some(e) && e.flags == HandleFlags::Live,
    ensures
        tm.db().contains_key(h),
        tm.db()[h].value.len() <= 8168,
        update_pages(tm.db()[h].value.len()) <= 141,
{
    let n = tm.db()[h].value.len();
    assert(n <= 8168) by {
        let w = &tm.work;
        let pages = w.cache.contents();
        let e = entry_of(pages, w.roots, h)->0;
        let s = page_at(pages, e.page_id);
        w.cache.lemma_inv();
        w.cache.lemma_notions();
        let by_page = Map::new(|id: u64| w.cache.present(id), |id: u64| w.cache.bytes(id));
        assert(s.len() == PAGE_SIZE) by {
            if pages.contains_key(e.page_id) {
                assert(by_page[e.page_id] == w.cache.bytes(e.page_id));
            }
        }
        lemma_slot_length(s, e.slot_index as int);
        assert(tm.db()[h].value == value_of(pages, e));
    }
    assert(pages_for(n) <= 2) by {
        assert((n + 8151) / 8152 <= 2);
    }
}

/// A page that holds a value is below the watermark, and intact.
proof fn lemma_live_below(w: &Workspace, p: u64)
    requires
        w.inv(),
        w.live@.contains_key(p),
    ensures
        p < w.cache.watermark(),
        w.cache.sound(p),
{
    reveal(sound_store);
    let pages = w.cache.contents();
    let set = residents(pages, w.roots, p);
    assert(set.len() > 0);
    assert(set != Set::<u64>::empty());
    if forall|h: u64| !set.contains(h) {
        assert(set =~= Set::<u64>::empty());
    }
    let h = choose|h: u64| set.contains(h);
    let e = entry_of(pages, w.roots, h)->0;
    assert(value_ok(pages, good(&w.cache, &w.recycler, w.slots), e));
    assert(crate::store::value_pages(pages, e).contains(p));
    assert(good(&w.cache, &w.recycler, w.slots).contains(p));
}

/// What was opened is what the superblock says.
pub open spec fn opened_as(tm: &TransactionManager, sb: Superblock) -> bool {
    let w = tm.current();
    &&& tm.commits() == sb.txn_counter
    &&& w.roots.table_root == sb.root_handle_table_page
    &&& w.roots.table_root == PAGE_ID_NONE ==> w.roots.table_depth == 0
    &&& w.roots.index_root == PAGE_ID_NONE ==> w.roots.index_depth == 0
    &&& w.roots.table_root != PAGE_ID_NONE ==> left_depth(w.cache.contents(), w.roots.table_root, 0) == Ok::<nat, u64>(
        w.roots.table_depth as nat,
    )
    &&& w.roots.index_root == sb.root_membership_index_page
    &&& w.roots.index_root != PAGE_ID_NONE ==> radix_left_depth(w.cache.contents(), w.roots.index_root, 0) == Ok::<
        nat,
        u64,
    >(w.roots.index_depth as nat)
    &&& w.roots.next_handle == sb.next_handle
    &&& w.roots.names == sb.named_roots
    &&& w.recycler.saved_root == sb.root_freemap_page
    &&& w.recycler.saved_depth == sb.freemap_depth
    &&& w.slots == sb.superblock_count
    &&& w.cache.watermark() == sb.total_pages
}

impl TransactionManager {
    /// Open a database that exists already. The superblock, the table and the left edge
    /// of the index are looked at. A storage with a newer minor format version can only
    /// be read.
    pub fn open_existing(cache: PageCache) -> (outcome: Result<TransactionManager, ChiselError>)
        requires
            cache.inv(),
            cache.bounded(),
            cache.unsaved() == Set::<u64>::empty(),
            cache.pending() == 0,
            cache.contents() == disk_map(cache.disk()),
        ensures
            match outcome {
                Ok(tm) => {
                    &&& tm.inv()
                    &&& !tm.spoiled() && !tm.running() && !tm.vetted()
                    &&& tm.current().cache.contents() == cache.contents()
                    &&& tm.current().cache.disk() == cache.disk()
                    &&& tm.current().cache.page_limit() == cache.page_limit()
                    &&& tm.current().cache.spill_limit() == cache.spill_limit()
                    &&& tm.current().cache.policy() == cache.policy()
                    &&& cache.all_sound() ==> table_intact(&tm.current())
                    &&& exists|sb: Superblock|
                        {
                            &&& #[trigger] current_superblock(cache.disk(), sb)
                            &&& rejected(cache.disk(), sb) is None
                            &&& opened_as(&tm, sb)
                            &&& tm.current().cache.storage().spec_read_only() == (cache.storage().spec_read_only()
                                || sb.format_version % 0x1_0000 > FORMAT_MINOR_VERSION)
                        }
                },
                Err(e) => {
                    ||| first_valid(cache.disk(), 0) is None && (e matches ChiselError::CorruptSuperblock { defects }
                        && all_defective(cache.disk(), defects@))
                    ||| exists|sb: Superblock| #[trigger]
                        current_superblock(cache.disk(), sb) && rejected(cache.disk(), sb) == Some(e)
                    ||| exists|sb: Superblock|
                        {
                            &&& #[trigger] current_superblock(cache.disk(), sb)
                            &&& rejected(cache.disk(), sb) is None
                            &&& edge_damaged(&cache, sb, e)
                        }
                },
            },
    {
        let mut cache = cache;
        let ghost c0 = cache;
        let sb: Superblock = match discover(cache.io()) {
            Ok(sb) => sb,
            Err(e) => {
                return Err(e);
            },
        };
        proof {
            c0.lemma_inv();
        }
        if format_minor(sb.format_version) > FORMAT_MINOR_VERSION {
            cache.force_read_only();
        }
        cache.set_next_page_id(sb.total_pages);
        let ghost c1 = cache;
        let table_depth: u32 = match HandleTable::recover_depth(&mut cache, sb.root_handle_table_page) {
            Ok(depth) => depth,
            Err(e) => {
                proof {
                    lemma_edge_errors(&c0, &c1, sb, e);
                }
                return Err(e);
            },
        };
        let ghost c2 = cache;
        let index_depth: u32 = match RadixU64::recover_depth(&mut cache, sb.root_membership_index_page) {
            Ok(depth) => depth,
            Err(e) => {
                proof {
                    lemma_edge_errors(&c0, &c2, sb, e);
                }
                return Err(e);
            },
        };
        proof {
            lemma_left_bound(c0.contents(), sb.root_handle_table_page, 0);
            lemma_radix_left_bound(c0.contents(), sb.root_membership_index_page, 0);
        }
        let ghost c3 = cache;
        let mut table = HandleTable::new();
        table.set_depth(table_depth);
        match table.iter_live(&mut cache, sb.root_handle_table_page) {
            Ok(_) => {},
            Err(e) => {
                proof {
                    lemma_table_damaged(&c0, &c3, sb.root_handle_table_page, table_depth as nat, e);
                }
                return Err(e);
            },
        }
        proof {
            assert(c0.all_sound() ==> c1.all_sound()) by {
                if c0.all_sound() {
                    assert forall|id: u64| #[trigger] c1.cached().contains_key(id) implies c1.sound(id) by {
                        assert(c0.cached().contains_key(id));
                    }
                }
            }
            assert(sound_pages(&c3) =~= sound_pages(&cache));
        }
        let roots = Roots {
            table_root: sb.root_handle_table_page,
            table_depth,
            index_root: sb.root_membership_index_page,
            index_depth,
            next_handle: sb.next_handle,
            names: sb.named_roots,
        };
        let work = Workspace {
            cache,
            recycler: Recycler::new(sb.root_freemap_page, sb.freemap_depth),
            slots: sb.superblock_count,
            roots,
            freed: Vec::new(),
            deferred: Vec::new(),
            cursor: None,
            live: map_new(),
            bins: Ghost(Set::empty()),
        };
        let tm = TransactionManager {
            base: Ghost(work),
            spent: Ghost(0nat),
            counter: sb.txn_counter,
            version: sb.format_version,
            committed: roots,
            committed_pages: sb.total_pages,
            committed_live: map_new(),
            active: false,
            poisoned: false,
            checked: false,
            found: 0,
            told: false,
            savepoints: Vec::new(),
            work,
        };
        proof {
            let i = choose|i: int| #[trigger] is_current(c0.disk(), i) && encodes(c0.disk()[i], sb);
            assert(slot_defect(c0.disk()[i]) is None);
            assert(sb == superblock_of(&tm.work, sb.txn_counter, sb.format_version));
            assert(opened_as(&tm, sb));
        }
        Ok(tm)
    }
}

impl TransactionManager {
    /// The format version that the storage records.
    pub closed spec fn format(&self) -> u32 {
        self.version
    }

    /// What may become of the storage if a commit is cut short: pages that wait to
    /// be saved may hold anything, pages may have been added, and a superblock slot
    /// other than the current one may have been written in part.
    pub open spec fn torn(&self, disk: Seq<Seq<u8>>) -> bool {
        let c = self.current().cache;
        let n = self.current().slots;
        &&& disk.len() >= c.disk().len()
        &&& forall|id: u64|
            n <= id < c.disk().len() && id < c.watermark() && !c.unsaved().contains(id) ==> #[trigger] disk[id as int]
                == c.disk()[id as int]
        &&& forall|j: int|
            0 <= j < n ==> #[trigger] disk[j] == c.disk()[j] || j != slot_for(self.commits(), n) && slot_defect(
                disk[j],
            ) is Some
    }

    /// The freemap that the storage holds is not among the pages at risk.
    proof fn lemma_map_kept(&self, disk: Seq<Seq<u8>>, id: u64)
        requires
            self.inv(),
            !self.spoiled(),
            self.vetted(),
            self.torn(disk),
            self.base@.recycler.nodes(&self.base@.cache).contains(id),
        ensures
            id < self.base@.cache.disk().len(),
            disk[id as int] == self.base@.cache.disk()[id as int],
    {
        reveal(evolved);
        let b = &self.base@;
        let w = &self.work;
        let c = LEAF_CAPACITY as nat;
        let root = b.recycler.saved_root;
        let d = b.recycler.saved_depth as nat;
        let saved = w.recycler.saved_nodes(&w.cache);
        assert(w.recycler.anchor() == b.recycler.anchor());
        lemma_nodes(w.cache.contents(), c, root, d);
        assert(same_on(w.cache.contents(), b.cache.contents(), saved)) by {
            assert forall|x: u64| #[trigger] saved.contains(x) implies page_at(w.cache.contents(), x) == page_at(
                b.cache.contents(),
                x,
            ) by {
                assert(!w.cache.unsaved().contains(x));
                w.cache.lemma_saved_page(x);
            }
        }
        lemma_map_same(w.cache.contents(), b.cache.contents(), root, d, saved);
        assert(saved.contains(id));
        assert(b.recycler.saved_nodes(&b.cache).contains(id));
        assert(b.recycler.footprint(&b.cache).contains(id));
        assert(b.cache.contents().contains_key(id));
    }

    /// A page of the committed state is not among the pages at risk.
    proof fn lemma_page_kept(&self, disk: Seq<Seq<u8>>, id: u64)
        requires
            self.inv(),
            !self.spoiled(),
            self.vetted(),
            self.torn(disk),
            !self.base@.recycler.footprint(&self.base@.cache).contains(id),
            self.base@.slots <= id < self.base@.cache.watermark(),
        ensures
            id < self.base@.cache.disk().len(),
            disk[id as int] == self.base@.cache.disk()[id as int],
    {
        reveal(evolved);
        assert(self.base@.cache.contents().contains_key(id));
        assert(!self.work.cache.unsaved().contains(id));
    }

    /// What the storage says is the committed state stays, whatever becomes of the
    /// pages at risk.
    proof fn lemma_still_described(&self, disk: Seq<Seq<u8>>)
        requires
            self.inv(),
            !self.spoiled(),
            self.vetted(),
            self.torn(disk),
        ensures
            describes(disk, self.base@.slots, superblock_of(&self.base@, self.counter, self.version)),
    {
        reveal(evolved);
        let b = &self.base@;
        let n = b.slots;
        let sb = superblock_of(b, self.counter, self.version);
        assert(self.work.slots == n && self.work.cache.disk() == b.cache.disk());
        assert forall|j: int|
            0 <= j < n && j != slot_for(sb.txn_counter, n) && slot_defect(#[trigger] disk[j]) is None implies counter_of(
            disk[j],
        ) < sb.txn_counter && le32(disk[j], 52) == n by {
            assert(disk[j] == b.cache.disk()[j]);
        }
        let s = slot_for(sb.txn_counter, n);
        assert(0 <= s < n);
        assert(disk[s] == b.cache.disk()[s]);
    }
}

/// A storage that describes a superblock has it as its current one.
proof fn lemma_described_current(disk: Seq<Seq<u8>>, n: u32, sb: Superblock)
    requires
        describes(disk, n, sb),
    ensures
        current_superblock(disk, sb),
        slots_fit(disk, n, sb.txn_counter),
        first_valid(disk, 0) is Some,
        forall|i: int| #[trigger] is_current(disk, i) ==> i == slot_for(sb.txn_counter, n),
{
    let s = slot_for(sb.txn_counter, n);
    assert(0 <= s < n);
    assert(le32(disk[s], 52) == n);
    lemma_first_found(disk, 0, s);
    let f = first_valid(disk, 0)->0;
    assert(le32(disk[f], 52) == n) by {
        if f != s {
            assert(slot_defect(disk[f]) is None);
        }
    }
    assert(slot_span(disk) == n);
    assert(is_current(disk, s)) by {
        assert forall|j: int| 0 <= j < n && slot_defect(#[trigger] disk[j]) is None implies counter_of(disk[j])
            <= counter_of(disk[s]) && (j < s ==> counter_of(disk[j]) < counter_of(disk[s])) by {
            if j != s {
                assert(counter_of(disk[j]) < sb.txn_counter);
            }
        }
    }
    assert forall|i: int| #[trigger] is_current(disk, i) implies i == s by {
        if i != s {
            assert(counter_of(disk[i]) < sb.txn_counter);
            assert(counter_of(disk[s]) <= counter_of(disk[i]));
        }
    }
}

/// A valid slot is found, or one before it.
proof fn lemma_first_found(disk: Seq<Seq<u8>>, i: int, s: int)
    requires
        0 <= i <= s < MAX_SUPERBLOCKS,
        s < disk.len(),
        slot_defect(disk[s]) is None,
        s < le32(disk[s], 52),
    ensures
        first_valid(disk, i) matches Some(f) && i <= f <= s && slot_defect(disk[f]) is None,
    decreases s - i,
{
    if i < s && !(slot_defect(disk[i]) is None && i < le32(disk[i], 52)) {
        lemma_first_found(disk, i + 1, s);
    }
}

impl TransactionManager {
    /// The pages of the committed state are still sound, whatever becomes of the
    /// pages at risk.
    proof fn lemma_still_sound(&self, disk: Seq<Seq<u8>>, w: &Workspace)
        requires
            self.inv(),
            !self.spoiled(),
            self.vetted(),
            self.torn(disk),
            opened(w),
            w.cache.disk() == disk,
            w.slots == self.base@.slots,
            w.cache.watermark() == self.base@.cache.watermark(),
            w.recycler.saved_root == self.base@.recycler.saved_root,
            w.recycler.saved_depth == self.base@.recycler.saved_depth,
        ensures
            w.slots <= w.cache.watermark(),
            map_fine(w),
            sound_store(w.cache.contents(), good(&w.cache, &w.recycler, w.slots), self.base@.roots),
            same_store(self.base@.cache.contents(), w.cache.contents(), self.base@.roots),
    {
        let b = &self.base@;
        let n = b.slots;
        let p0 = b.cache.contents();
        let p1 = w.cache.contents();
        let c = LEAF_CAPACITY as nat;
        let t = &b.recycler.tree;
        let top = b.cache.watermark();
        lemma_clean_fine(b);
        let nodes = b.recycler.nodes(&b.cache);
        assert(nodes == map_nodes(&b.cache, t));
        if t.root != PAGE_ID_NONE {
            lemma_nodes(p0, c, t.root, t.spec_depth());
            assert(same_on(p0, p1, nodes)) by {
                assert forall|x: u64| #[trigger] nodes.contains(x) implies page_at(p0, x) == page_at(p1, x) by {
                    self.lemma_map_kept(disk, x);
                }
            }
            lemma_map_same(p0, p1, t.root, t.spec_depth(), nodes);
            assert forall|k: nat, l: nat| k < reach(c, t.spec_depth()) && l <= t.spec_depth() implies ((
            #[trigger] node_at(p1, c, t.root, t.spec_depth(), k, l)) matches Some(id) ==> fits(
                Shape::Freemap,
                page_at(p1, id),
                l,
            )) by {
                if node_at(p1, c, t.root, t.spec_depth(), k, l) is Some {
                    let id = node_at(p1, c, t.root, t.spec_depth(), k, l)->0;
                    assert(tree_typed(p1, t.root, t.spec_depth()));
                    assert(node_ok(page_at(p1, id), l));
                }
            }
        }
        assert(map_nodes(&w.cache, &w.recycler.tree) == nodes);
        assert forall|id: u64| #[trigger] map_frees(&w.cache, &w.recycler.tree, id) == map_frees(&b.cache, t, id) by {}
        assert(map_fine(w)) by {
            if t.root != PAGE_ID_NONE {
                let room = unclaimed(n as u64, top, Set::<u64>::empty());
                assert(tree_in(p0, c, t.root, t.spec_depth(), room));
                assert(tree_in(p1, c, t.root, t.spec_depth(), room));
                assert forall|id: u64| #[trigger] map_frees(&w.cache, &w.recycler.tree, id) implies w.slots <= id
                    < w.cache.watermark() && !map_nodes(&w.cache, &w.recycler.tree).contains(id) by {
                    assert(map_frees(&b.cache, t, id));
                }
            }
        }
        lemma_map_fine(w);
        let g0 = good(&b.cache, &b.recycler, n);
        let g1 = good(&w.cache, &w.recycler, n);
        let f0 = b.recycler.footprint(&b.cache);
        assert forall|id: u64| #[trigger] g0.contains(id) implies g1.contains(id) && page_at(p0, id) == page_at(p1, id) by {
            assert(!f0.contains(id));
            assert(id < top);
            self.lemma_page_kept(disk, id);
            assert(p1.contains_key(id));
            assert(!map_pages(w).contains(id)) by {
                if nodes.contains(id) {
                    assert(f0.contains(id));
                }
                if map_frees(&w.cache, &w.recycler.tree, id) {
                    assert(map_frees(&b.cache, t, id));
                    assert(b.recycler.frees(&b.cache, id));
                    assert(f0.contains(id));
                }
            }
            assert(unclaimed(n as u64, top, map_pages(w)).contains(id));
        }
        lemma_store_kept(p0, p1, g0, g1, b.roots, PAGE_ID_NONE);
    }
}

/// The roots of two states lead to the same places.
spec fn same_roots(a: Roots, b: Roots) -> bool {
    &&& b.table_root == a.table_root
    &&& a.table_root != PAGE_ID_NONE ==> b.table_depth == a.table_depth
    &&& b.index_root == a.index_root
    &&& a.index_root != PAGE_ID_NONE ==> b.index_depth == a.index_depth
    &&& b.next_handle == a.next_handle
    &&& names_apart(a.names@) ==> names_apart(b.names@)
    &&& b.index_depth <= 6
}

/// The depth of a tree that is not there does not matter.
proof fn lemma_same_roots(pages: Map<u64, Seq<u8>>, good: Set<u64>, a: Roots, b: Roots)
    requires
        sound_store(pages, good, a),
        tags_agree(pages, a),
        same_roots(a, b),
    ensures
        sound_store(pages, good, b),
        tags_agree(pages, b),
        database(pages, b) == database(pages, a),
{
    reveal(sound_store);
    assert forall|h: u64| #[trigger] entry_of(pages, b, h) == entry_of(pages, a, h) by {}
    assert(database(pages, b) =~= database(pages, a));
    let ra = index_roots(pages, a.index_root, a.index_depth as nat);
    let rb = index_roots(pages, b.index_root, b.index_depth as nat);
    assert forall|t: u32| #[trigger] tag_value(pages, b.index_root, b.index_depth as nat, t) == tag_value(
        pages,
        a.index_root,
        a.index_depth as nat,
        t,
    ) by {}
    assert forall|i: Option<u32>| #[trigger] rb(i) == ra(i) by {
        if let Some(t) = i {
            assert(tag_value(pages, b.index_root, b.index_depth as nat, t) == tag_value(
                pages,
                a.index_root,
                a.index_depth as nat,
                t,
            ));
        }
    }
    assert forall|tag: u32, h: u64| #[trigger] index_has(pages, b, tag, h) == index_has(pages, a, tag, h) by {
        assert(tag_value(pages, b.index_root, b.index_depth as nat, tag) == tag_value(
            pages,
            a.index_root,
            a.index_depth as nat,
            tag,
        ));
    }
    assert(index_in(pages, b.index_root, b.index_depth as nat, good)) by {
        assert forall|i: Option<u32>| (#[trigger] rb(i)) matches Some(p) ==> tree_in(
            pages,
            SLOTS_PER_PAGE as nat,
            p.0,
            p.1,
            good,
        ) by {
            assert(ra(i) == rb(i));
        }
    }
    assert(index_ok(pages, b.index_root, b.index_depth as nat)) by {
        assert forall|i: Option<u32>| (#[trigger] rb(i)) matches Some(p) ==> is_tree(
            pages,
            SLOTS_PER_PAGE as nat,
            p.0,
            p.1,
        ) by {
            assert(ra(i) == rb(i));
        }
        assert forall|i: Option<u32>, j: Option<u32>| i != j implies ((#[trigger] rb(i)) matches Some(p) ==> ((
        #[trigger] rb(j)) matches Some(q) ==> nodes_of(pages, SLOTS_PER_PAGE as nat, p.0, p.1).disjoint(
            nodes_of(pages, SLOTS_PER_PAGE as nat, q.0, q.1),
        ))) by {
            assert(ra(i) == rb(i) && ra(j) == rb(j));
        }
    }
    assert(index_nodes(pages, b) =~= index_nodes(pages, a)) by {
        assert forall|id: u64| index_nodes(pages, b).contains(id) == index_nodes(pages, a).contains(id) by {
            if index_nodes(pages, a).contains(id) {
                let i = choose|i: Option<u32>| #[trigger]
                    index_page(pages, a.index_root, a.index_depth as nat, i, id);
                assert(ra(i) == rb(i));
                assert(index_page(pages, b.index_root, b.index_depth as nat, i, id));
            }
            if index_nodes(pages, b).contains(id) {
                let i = choose|i: Option<u32>| #[trigger]
                    index_page(pages, b.index_root, b.index_depth as nat, i, id);
                assert(ra(i) == rb(i));
                assert(index_page(pages, a.index_root, a.index_depth as nat, i, id));
            }
        }
    }
    assert(table_nodes(pages, b) == table_nodes(pages, a));
}

/// A database that is opened again is the one that was last committed, even if a
/// later commit was cut short while pages or a superblock slot were written, and a
/// transaction can begin on it.
pub proof fn law_reopen_recovers(tm: &TransactionManager, disk: Seq<Seq<u8>>, again: &TransactionManager)
    requires
        tm.inv(),
        !tm.spoiled(),
        tm.vetted(),
        tm.torn(disk),
        again.inv(),
        !again.spoiled(),
        !again.vetted(),
        again.current().cache.disk() == disk,
        exists|sb: Superblock| #[trigger] current_superblock(disk, sb) && opened_as(again, sb),
    ensures
        again.db() == tm.committed_db(),
        again.next_handle() == tm.origin().roots.next_handle,
        again.names() == bindings(tm.origin().roots.names@),
        again.commits() == tm.commits(),
        again.storage_sound(),
{
    let b = &tm.base@;
    let w = &again.work;
    let sb0 = superblock_of(b, tm.counter, tm.version);
    let sb = choose|sb: Superblock| #[trigger] current_superblock(disk, sb) && opened_as(again, sb);
    tm.lemma_still_described(disk);
    lemma_described_current(disk, b.slots, sb0);
    let i = choose|i: int| #[trigger] is_current(disk, i) && encodes(disk[i], sb);
    assert(i == slot_for(sb0.txn_counter, b.slots));
    law_superblock_round_trip(disk[i], sb, sb0);
    tm.lemma_still_sound(disk, w);
    let p0 = b.cache.contents();
    let p1 = w.cache.contents();
    assert(sound_store(p1, good(&w.cache, &w.recycler, w.slots), b.roots));
    lemma_same_apart(sb0.named_roots@, sb.named_roots@);
    assert(same_roots(b.roots, w.roots)) by {
        reveal(sound_store);
        if b.roots.table_root != PAGE_ID_NONE {
            law_depth_is_recovered(p1, b.roots.table_root, b.roots.table_depth as nat);
        }
        if b.roots.index_root != PAGE_ID_NONE {
            law_radix_depth_is_recovered(p1, b.roots.index_root, b.roots.index_depth as nat);
        }
    }
    lemma_same_roots(p1, good(&w.cache, &w.recycler, w.slots), b.roots, w.roots);
    lemma_same_bindings(sb0.named_roots@, sb.named_roots@);
}

/// A database that is opened again can be read at once: every handle gives the value
/// that was last committed, and no other handle gives any, even if a later commit
/// was cut short.
pub proof fn law_reopened_reads(
    tm: &TransactionManager,
    disk: Seq<Seq<u8>>,
    again: &TransactionManager,
    after: &TransactionManager,
    h: u64,
    outcome: Result<Vec<u8>, ChiselError>,
)
    requires
        tm.inv(),
        !tm.spoiled(),
        tm.vetted(),
        tm.torn(disk),
        again.inv(),
        !again.spoiled(),
        !again.vetted(),
        again.current().cache.disk() == disk,
        exists|sb: Superblock| #[trigger] current_superblock(disk, sb) && opened_as(again, sb),
        after.reads(again, h, outcome),
    ensures
        tm.committed_db().contains_key(h) ==> (outcome matches Ok(value) && value@ == tm.committed_db()[h].value),
        !tm.committed_db().contains_key(h) ==> outcome == Err::<Vec<u8>, ChiselError>(ChiselError::InvalidHandle(h)),
{
    law_reopen_recovers(tm, disk, again);
    assert(again.work.cache.pending() == 0);
}

/// A database that is opened again can be listed at once, and the entry of every handle that
/// was committed is found, even if a later commit was cut short.
pub proof fn law_reopened_lists(
    tm: &TransactionManager,
    disk: Seq<Seq<u8>>,
    again: &TransactionManager,
    after: &TransactionManager,
    h: u64,
    tag: u32,
    e: ChiselError,
)
    requires
        tm.inv(),
        !tm.spoiled(),
        tm.vetted(),
        tm.torn(disk),
        again.inv(),
        !again.spoiled(),
        !again.vetted(),
        again.current().cache.disk() == disk,
        exists|sb: Superblock| #[trigger] current_superblock(disk, sb) && opened_as(again, sb),
    ensures
        !after.unlisted(again, e),
        !after.unlisted_tag(again, tag, e),
        after.unfound(again, h, e) ==> !tm.committed_db().contains_key(h) && e == ChiselError::InvalidHandle(h),
        forall|k: u64| #[trigger] again.db().contains_key(k) <==> tm.committed_db().contains_key(k),
{
    law_reopen_recovers(tm, disk, again);
    assert(again.work.cache.pending() == 0);
}

/// Whether names are apart depends on the bytes that are stored.
proof fn lemma_same_apart(a: Seq<NamedRoot>, b: Seq<NamedRoot>)
    requires
        a.len() == b.len(),
        forall|i: int| 0 <= i < a.len() ==> (#[trigger] a[i]).name@ == b[i].name@ && a[i].handle == b[i].handle,
    ensures
        names_apart(a) ==> names_apart(b),
{
    if names_apart(a) {
        assert forall|i: int, j: int| 0 <= i < j < b.len() && (#[trigger] b[i]).name@[0] != 0 implies b[i].name@ != (
        #[trigger] b[j]).name@ by {
            assert(a[i].name@ == b[i].name@ && a[j].name@ == b[j].name@);
        }
    }
}

/// The names depend on the bytes that are stored.
proof fn lemma_same_bindings(a: Seq<NamedRoot>, b: Seq<NamedRoot>)
    requires
        a.len() == b.len(),
        forall|i: int| 0 <= i < a.len() ==> (#[trigger] a[i]).name@ == b[i].name@ && a[i].handle == b[i].handle,
    ensures
        bindings(b) == bindings(a),
{
    assert forall|key: Seq<u8>| #[trigger] first_named(b, key, 0) == first_named(a, key, 0) by {
        lemma_same_first(a, b, key, 0);
    }
    assert forall|key: Seq<u8>| #[trigger] bindings(b).contains_key(key) implies bindings(b)[key] == bindings(a)[key] by {
        lemma_first_in(a, key, 0);
    }
    assert(bindings(b) =~= bindings(a));
}

/// The search for a name depends on the bytes that are stored.
proof fn lemma_same_first(a: Seq<NamedRoot>, b: Seq<NamedRoot>, key: Seq<u8>, i: int)
    requires
        0 <= i,
        a.len() == b.len(),
        forall|i: int| 0 <= i < a.len() ==> (#[trigger] a[i]).name@ == b[i].name@ && a[i].handle == b[i].handle,
    ensures
        first_named(b, key, i) == first_named(a, key, i),
    decreases a.len() - i,
{
    if i < a.len() {
        assert(a[i].name@ == b[i].name@);
        lemma_same_first(a, b, key, i + 1);
    }
}

/// A name that is found is in the table.
proof fn lemma_first_in(a: Seq<NamedRoot>, key: Seq<u8>, i: int)
    requires
        0 <= i,
    ensures
        first_named(a, key, i) matches Some(j) ==> i <= j < a.len(),
    decreases a.len() - i,
{
    if i < a.len() {
        lemma_first_in(a, key, i + 1);
    }
}

/// The pages on the left edge of a sound table are intact.
proof fn lemma_left_edge(pages: Map<u64, Seq<u8>>, c: nat, root: u64, depth: nat, good: Set<u64>, i: nat)
    requires
        c > 0,
        i <= depth,
        tree_in(pages, c, root, depth, good),
        node_at(pages, c, root, depth, 0, 0) is Some,
    ensures
        good.contains(left_page(pages, root, i)),
        left_page(pages, root, i) == radix_left_page(pages, root, i),
    decreases i,
{
    lemma_left_nodes(pages, c, root, depth, i);
    lemma_reach_pos(c, depth);
    assert(node_at(pages, c, root, depth, 0, (depth - i) as nat) == Some(left_page(pages, root, i)));
}

/// The left edge consists of the nodes on the path of the first key.
proof fn lemma_left_nodes(pages: Map<u64, Seq<u8>>, c: nat, root: u64, depth: nat, i: nat)
    requires
        c > 0,
        i <= depth,
        node_at(pages, c, root, depth, 0, 0) is Some,
    ensures
        node_at(pages, c, root, depth, 0, (depth - i) as nat) == Some(left_page(pages, root, i)),
        left_page(pages, root, i) == radix_left_page(pages, root, i),
    decreases i,
{
    if i > 0 {
        lemma_left_nodes(pages, c, root, depth, (i - 1) as nat);
        lemma_left_step(pages, c, root, depth, (depth - i) as nat);
    }
}

/// One step down the left edge.
proof fn lemma_left_step(pages: Map<u64, Seq<u8>>, c: nat, page: u64, level: nat, l: nat)
    requires
        c > 0,
        l < level,
        node_at(pages, c, page, level, 0, 0) is Some,
        node_at(pages, c, page, level, 0, l + 1) is Some,
    ensures
        node_at(pages, c, page, level, 0, l) == Some(
            child_of(page_at(pages, node_at(pages, c, page, level, 0, l + 1)->0), 0),
        ),
    decreases level,
{
    let sub = (level - 1) as nat;
    let span = reach(c, sub);
    lemma_reach_pos(c, sub);
    vstd::arithmetic::div_mod::lemma_div_basics(span as int);
    vstd::arithmetic::div_mod::lemma_small_mod(0, span);
    assert(0nat / span == 0 && 0nat % span == 0);
    let child = child_of(page_at(pages, page), 0);
    if l + 1 < level {
        assert(node_at(pages, c, page, level, 0, l + 1) == node_at(pages, c, child, sub, 0, l + 1));
        assert(node_at(pages, c, page, level, 0, 0) == node_at(pages, c, child, sub, 0, 0));
        lemma_left_step(pages, c, child, sub, l);
        assert(node_at(pages, c, page, level, 0, l) == node_at(pages, c, child, sub, 0, l));
    } else {
        assert(node_at(pages, c, page, level, 0, l) == node_at(pages, c, child, sub, 0, l));
        assert(child != 0);
    }
}

/// A database that was committed can be opened again, even if a later commit was cut
/// short while pages or a superblock slot were written: nothing that makes opening
/// fail is the case.
pub proof fn law_reopen_succeeds(tm: &TransactionManager, cache: &PageCache, sb: Superblock, e: ChiselError)
    requires
        tm.inv(),
        !tm.spoiled(),
        tm.vetted(),
        tm.torn(cache.disk()),
        cache.inv(),
        cache.unsaved() == Set::<u64>::empty(),
        cache.contents() == disk_map(cache.disk()),
        current_superblock(cache.disk(), sb),
    ensures
        first_valid(cache.disk(), 0) is Some,
        rejected(cache.disk(), sb) is None,
        !edge_damaged(cache, sb, e),
{
    let b = &tm.base@;
    let disk = cache.disk();
    let sb0 = superblock_of(b, tm.counter, tm.version);
    tm.lemma_still_described(disk);
    lemma_described_current(disk, b.slots, sb0);
    let i = choose|i: int| #[trigger] is_current(disk, i) && encodes(disk[i], sb);
    law_superblock_round_trip(disk[i], sb, sb0);
    assert(b.cache.watermark() <= disk.len()) by {
        reveal(evolved);
        let top = b.cache.watermark();
        assert(b.cache.contents().contains_key((top - 1) as u64));
    }
    let g0 = good(&b.cache, &b.recycler, b.slots);
    let p0 = b.cache.contents();
    let p1 = cache.contents();
    assert forall|id: u64| #[trigger] g0.contains(id) implies page_at(p0, id) == page_at(p1, id) && cache.sound(id) by {
        tm.lemma_page_kept(disk, id);
        assert(p1.contains_key(id));
    }
    lemma_store_kept(p0, p1, g0, g0, b.roots, PAGE_ID_NONE);
    reveal(sound_store);
    let table = b.roots.table_root;
    let index = b.roots.index_root;
    if table != PAGE_ID_NONE {
        let d = b.roots.table_depth as nat;
        law_depth_is_recovered(p1, table, d);
        assert forall|k: nat| k <= d implies cache.sound(#[trigger] left_page(p1, table, k)) by {
            lemma_left_edge(p1, ENTRIES_PER_LEAF as nat, table, d, g0, k);
        }
    }
    if index != PAGE_ID_NONE {
        let d = b.roots.index_depth as nat;
        law_radix_depth_is_recovered(p1, index, d);
        let roots = index_roots(p1, index, d);
        assert(roots(None) == Some((index, d)));
        assert forall|k: nat| k <= d implies cache.sound(#[trigger] radix_left_page(p1, index, k)) by {
            lemma_left_edge(p1, SLOTS_PER_PAGE as nat, index, d, g0, k);
        }
    }
}

/// What was given out stays below the next handle, and the next handle stands for
/// nothing: a handle is not given out twice.
pub proof fn law_handles_are_fresh(tm: &TransactionManager, h: u64)
    requires
        tm.inv(),
        !tm.spoiled(),
        tm.vetted(),
        tm.db().contains_key(h),
    ensures
        0 < h < tm.next_handle(),
        !tm.db().contains_key(tm.next_handle()),
{
    reveal(sound_store);
    let w = tm.current();
    assert(entry_of(w.cache.contents(), w.roots, h) is Some);
    assert(entry_of(w.cache.contents(), w.roots, w.roots.next_handle) is None);
}

/// A handle that a commit has given out is not given out again, whatever happens:
/// later transactions start above it, and so does one that was rolled back, to its
/// beginning or to a savepoint.
pub proof fn law_committed_handles_are_spent(tm: &TransactionManager, h: u64, i: int)
    requires
        tm.inv(),
        !tm.spoiled(),
        tm.vetted(),
        h < tm.origin().roots.next_handle,
    ensures
        h < tm.next_handle(),
        0 <= i < tm.marks().len() ==> h < tm.marks()[i].roots.next_handle,
{
}

/// Freed space is used before the storage grows: as long as some page is free, a
/// value that needs a data page gets the lowest free one, not a new one.
pub proof fn law_free_pages_first(before: &TransactionManager, after: &TransactionManager, h: u64, n: nat, free: u64)
    requires
        before.page_free(free),
        newly_placed(&before.current(), &after.current(), h, n),
        n <= MAX_INLINE_VALUE,
        !cursor_fits(&before.current(), n),
    ensures
        after.place_of(h) matches Some(e) && {
            &&& e.flags == HandleFlags::Live
            &&& before.page_free(e.page_id)
            &&& e.page_id <= free
            &&& forall|id: u64| #[trigger] before.page_free(id) ==> e.page_id <= id
        },
{
    reveal(next_in_line);
    let w = before.current();
    assert(w.recycler.spare(&w.cache).contains(free));
    assert forall|id: u64| #[trigger] before.page_free(id) implies w.recycler.spare(&w.cache).contains(id) by {}
}

/// The space of a value that was taken away, or replaced, is used again: once that is
/// committed, each of its pages that nothing else uses is free, so a value that then
/// needs a data page gets none past it.
pub proof fn law_freed_space_is_reused(
    before: &TransactionManager,
    freed: &TransactionManager,
    committed: &TransactionManager,
    after: &TransactionManager,
    h: u64,
    page: u64,
    k: u64,
    n: nat,
)
    requires
        before.place_of(h) matches Some(e) && value_pages(before.current().cache.contents(), e).contains(page),
        gave_back(&before.current(), &freed.current(), h),
        unused(freed.current().cache.contents(), freed.current().roots, page),
        forall|id: u64| #[trigger]
            committed.page_free(id) == (freed.page_free(id) || to_free(
                &freed.current(),
                freed.unreported() as int,
            ).contains(id)),
        newly_placed(&committed.current(), &after.current(), k, n),
        n <= MAX_INLINE_VALUE,
        !cursor_fits(&committed.current(), n),
    ensures
        committed.page_free(page),
        after.place_of(k) matches Some(e) && committed.page_free(e.page_id) && e.page_id <= page,
{
    reveal(gave_back);
    let w = freed.current();
    let i = w.freed@.index_of(page);
    assert(w.freed@.contains(page));
    assert(to_free(&w, freed.unreported() as int)[i] == page);
    law_free_pages_first(committed, after, k, n, page);
}

/// Where account is kept of all pages and no transaction runs, every page below the
/// watermark is a superblock slot, used by the database, part of the freemap, free, or
/// noted to be freed later.
pub proof fn law_every_page_has_a_use(tm: &TransactionManager, id: u64)
    requires
        tm.inv(),
        !tm.spoiled(),
        !tm.running(),
        tm.vetted(),
        tm.accounted(),
        id < tm.current().cache.watermark(),
    ensures
        ({
            let w = tm.current();
            ||| id < w.slots
            ||| !unused(w.cache.contents(), w.roots, id)
            ||| w.recycler.nodes(&w.cache).contains(id)
            ||| tm.page_free(id)
            ||| w.deferred@.contains(id)
        }),
{
    reveal(accounted);
    let w = tm.work;
    assert(kept_by(&w, id));
}

/// While no transaction runs, the database is as it was committed.
pub proof fn law_idle_is_committed(tm: &TransactionManager)
    requires
        tm.inv(),
        !tm.spoiled(),
        !tm.running(),
    ensures
        tm.db() == tm.committed_db(),
        tm.names() == bindings(tm.origin().roots.names@),
        tm.next_handle() == tm.origin().roots.next_handle,
{
}

/// Between transactions nothing waits to be saved, nothing waits to be freed but what was
/// noted before, there is no savepoint, and no page is being filled.
pub proof fn law_nothing_waits_at_rest(tm: &TransactionManager)
    requires
        tm.inv(),
        !tm.spoiled(),
        !tm.running(),
    ensures
        tm.current().cache.pending() == 0,
        forall|id: u64| !(#[trigger] tm.current().cache.unsaved().contains(id)),
        tm.current().freed@.len() == 0,
        tm.current().cursor is None,
        tm.marks().len() == 0,
{
}

/// A page can be used again exactly if there is a freemap and it marks the page free.
pub proof fn law_free_pages_are_marked(tm: &TransactionManager, id: u64)
    ensures
        tm.page_free(id) <==> tm.current().recycler.tree.root != u64::MAX && crate::freemap_tree::tracked_free(
            tm.current().cache.contents(),
            tm.current().recycler.tree.root,
            tm.current().recycler.tree.depth as nat,
            id,
        ),
{
}

/// A rollback brings back what was there when the transaction began, whatever was
/// done in between: no call but a commit changes the committed state.
pub proof fn law_rollback_restores(
    idle: &TransactionManager,
    before: &TransactionManager,
    after: &TransactionManager,
)
    requires
        idle.inv(),
        !idle.spoiled(),
        !idle.running(),
        before.committed_db() == idle.committed_db(),
        before.origin().roots == idle.origin().roots,
        after.undone(before),
    ensures
        after.db() == idle.db(),
        after.names() == idle.names(),
        after.next_handle() == idle.next_handle(),
{
    law_idle_is_committed(idle);
}

/// No two savepoints have one name: a name leads to one savepoint at most.
pub proof fn law_savepoint_names_differ(tm: &TransactionManager, name: Seq<char>, i: int, j: int)
    requires
        tm.inv(),
        !tm.spoiled(),
        tm.mark_named(name, i),
        tm.mark_named(name, j),
    ensures
        i == j,
{
    if i < j {
        assert(tm.savepoints@[i].name@ != tm.savepoints@[j].name@);
    } else if j < i {
        assert(tm.savepoints@[j].name@ != tm.savepoints@[i].name@);
    }
}

/// The index lists a handle under a tag exactly if the handle stands for something with that
/// tag, which is not 0.
pub proof fn law_index_lists_the_tagged(tm: &TransactionManager, tag: u32, h: u64)
    requires
        tm.inv(),
        !tm.spoiled(),
        tm.vetted(),
    ensures
        tm.indexed(tag, h) <==> tag != 0 && tm.db().contains_key(h) && tm.db()[h].tag == tag,
{
}

/// There is room for more pages as long as their numbers fit the address space and the
/// index. A commit has room as long as that holds of the pages that it needs and the
/// commits can be counted.
pub proof fn law_room(tm: &TransactionManager, n: nat)
    ensures
        tm.room(n) <==> tm.current().cache.watermark() + n <= usize::MAX && tm.current().cache.watermark() + n
            < 0x400_0000_0000_0000,
        tm.commit_room() <==> tm.commits() < u64::MAX && tm.current().cache.watermark() + persist_pages(&tm.current())
            <= usize::MAX,
{
}

/// It stays known of every page what it is for, as long as the limits of the cache hold the
/// pages that a change may need.
pub proof fn law_account_is_kept(before: &TransactionManager, after: &TransactionManager, n: nat)
    requires
        after.keeps_account(before, n),
        before.accounted(),
        before.current().cache.pending() + n <= before.current().cache.capacity(),
    ensures
        after.accounted(),
{
}

/// Going back to a savepoint brings back what was there when it was set, whatever
/// was done since: no call changes what a savepoint that it keeps stands for.
pub proof fn law_savepoint_restores(
    set: &TransactionManager,
    before: &TransactionManager,
    after: &TransactionManager,
    i: int,
)
    requires
        0 <= i < set.marks().len(),
        set.marks()[i].roots == set.current().roots,
        before.keeps_mark(set, i),
        after.returned(before, i),
    ensures
        after.db() == set.db(),
        after.names() == set.names(),
        after.next_handle() == set.next_handle(),
{
}

/// Savepoints that are kept through two calls are kept through both.
pub proof fn law_savepoints_stay(a: &TransactionManager, b: &TransactionManager, c: &TransactionManager, i: int)
    requires
        b.keeps_mark(a, i),
        c.keeps_mark(b, i),
    ensures
        c.keeps_mark(a, i),
{
}

/// A page that can be used again is no superblock slot, and is used neither by the
/// state reached nor by the committed one, which a rollback or a crash goes back to.
pub proof fn law_free_pages_are_unused(tm: &TransactionManager, id: u64)
    requires
        tm.inv(),
        !tm.spoiled(),
        tm.vetted(),
        tm.page_free(id),
    ensures
        tm.current().slots <= id < tm.current().cache.watermark(),
        unused(tm.current().cache.contents(), tm.current().roots, id),
        unused(tm.origin().cache.contents(), tm.origin().roots, id),
{
    reveal(evolved);
    let w = &tm.work;
    let b = &tm.base@;
    assert(w.recycler.footprint(&w.cache).contains(id));
    assert(b.recycler.footprint(&b.cache).contains(id));
    assert(w.recycler.tree.marks_free(&w.cache, id));
    lemma_used_good(w.cache.contents(), good(&w.cache, &w.recycler, w.slots), w.roots);
    lemma_used_good(b.cache.contents(), good(&b.cache, &b.recycler, b.slots), b.roots);
}

/// While a transaction runs and until its commit is complete, the storage holds the
/// committed state: it says the same, and stands for the same.
pub proof fn law_commit_is_atomic(tm: &TransactionManager, disk: Seq<Seq<u8>>)
    requires
        tm.inv(),
        !tm.spoiled(),
        tm.vetted(),
        tm.torn(disk),
    ensures
        describes(disk, tm.origin().slots, superblock_of(&tm.origin(), tm.commits(), tm.format())),
        database(disk_map(disk), tm.origin().roots) == tm.committed_db(),
{
    let b = &tm.base@;
    tm.lemma_still_described(disk);
    let g0 = good(&b.cache, &b.recycler, b.slots);
    let p0 = b.cache.contents();
    let p1 = disk_map(disk);
    assert forall|id: u64| #[trigger] g0.contains(id) implies page_at(p0, id) == page_at(p1, id) by {
        tm.lemma_page_kept(disk, id);
        reveal(evolved);
        assert(p1.contains_key(id));
    }
    lemma_store_kept(p0, p1, g0, g0, b.roots, PAGE_ID_NONE);
}

/// Whatever part of what a commit does to a file was carried out, the storage holds
/// the state before, as a commit that was cut short leaves it, or the state after.
pub proof fn law_commit_cut_short(before: &TransactionManager, after: &TransactionManager, m: int, k: int)
    requires
        before.inv(),
        !before.spoiled(),
        before.vetted(),
        after.inv(),
        !after.spoiled(),
        before.current().cache.storage().is_file_image(),
        before.commits() < u64::MAX,
        after.commits() == before.commits() + 1,
        saved_in_order(
            &before.current(),
            &after.current(),
            slot_for(after.commits(), before.current().slots) as u64,
            m,
        ),
        before.current().cache.storage().recorded().len() <= k <= after.current().cache.storage().recorded().len(),
    ensures
        ({
            let done = after.current().cache.storage();
            let disk = replay(done.base(), done.recorded().take(k));
            before.torn(disk) || disk == after.current().cache.disk()
        }),
{
    before.lemma_slots_spared();
    after.lemma_image();
    let n = before.work.slots;
    let slot = slot_for(after.counter, n) as u64;
    let done = after.work.cache.storage();
    let start = before.work.cache.storage();
    start.law_journal_replays();
    done.law_journal_replays();
    let total = done.recorded().len() as int;
    assert(done.recorded().take(total) =~= done.recorded());
    let low = if k < m {
        k
    } else {
        m
    };
    lemma_cut_before(before, &done, m, low);
    if k > m {
        let disk = replay(done.base(), done.recorded().take(m));
        let page = after.work.cache.disk()[slot as int];
        lemma_cut_after(&done, disk, slot, page, m, k);
        lemma_cut_after(&done, disk, slot, page, m, total);
        let ended = replay(done.base(), done.recorded().take(total));
        assert(ended == after.work.cache.disk());
        if ended == disk {
            assert(written(disk, slot, page) =~= disk);
        }
    }
}

/// Superblock slots are not at risk.
spec fn slots_spared(tm: &TransactionManager) -> bool {
    let c = &tm.work.cache;
    &&& count_ok(tm.work.slots as int)
    &&& tm.work.slots <= c.disk().len()
    &&& tm.work.slots <= c.watermark()
    &&& forall|j: u64| j < tm.work.slots ==> !(#[trigger] c.unsaved().contains(j))
}

impl TransactionManager {
    /// The storage is in order.
    proof fn lemma_image(&self)
        requires
            self.inv(),
            !self.spoiled(),
        ensures
            self.work.cache.storage().inv(),
            self.work.cache.disk() == self.work.cache.storage().pages(),
    {
        self.lemma_bounded();
        self.work.cache.lemma_storage();
    }

    /// Saving pages does not touch the superblock slots.
    proof fn lemma_slots_spared(&self)
        requires
            self.inv(),
            !self.spoiled(),
            self.vetted(),
        ensures
            self.work.cache.storage().inv(),
            self.work.cache.disk() == self.work.cache.storage().pages(),
            slots_spared(self),
    {
        self.lemma_image();
        reveal(evolved);
        let b = &self.base@;
        let c = &self.work.cache;
        assert forall|j: u64| j < self.work.slots implies !(#[trigger] c.unsaved().contains(j)) by {
            assert(!b.recycler.footprint(&b.cache).contains(j));
        }
    }
}

/// Before the slot is written, nothing of the committed state is.
proof fn lemma_cut_before(before: &TransactionManager, done: &PageIo, m: int, k: int)
    requires
        slots_spared(before),
        replay(done.base(), before.work.cache.storage().recorded()) == before.work.cache.disk(),
        done.follows(&before.work.cache.storage()),
        before.work.cache.storage().recorded().len() <= k <= m <= done.recorded().len(),
        forall|i: int|
            before.work.cache.storage().recorded().len() <= i < m ==> (#[trigger] done.recorded()[i]).spares_all_but(
                at_risk(&before.work),
            ),
    ensures
        before.torn(replay(done.base(), done.recorded().take(k))),
        replay(done.base(), done.recorded().take(k)).len() >= before.work.slots,
    decreases k,
{
    let start = before.work.cache.storage();
    let n = before.work.slots;
    let c = &before.work.cache;
    if k > start.recorded().len() {
        lemma_cut_before(before, done, m, k - 1);
        lemma_replay_next(done.base(), done.recorded(), k - 1);
        let was = replay(done.base(), done.recorded().take(k - 1));
        let now = replay(done.base(), done.recorded().take(k));
        let action = done.recorded()[k - 1];
        assert(action.spares_all_but(at_risk(&before.work)));
        if let IoAction::Write { page_id, bytes } = action {
            assert(now == written(was, page_id, bytes@));
            assert forall|id: u64|
                n <= id < c.disk().len() && id < c.watermark() && !c.unsaved().contains(id) implies #[trigger] now[id as int]
                == c.disk()[id as int] by {
                assert(was[id as int] == c.disk()[id as int]);
            }
            assert forall|j: int| 0 <= j < n implies #[trigger] now[j] == c.disk()[j] || j != slot_for(
                before.counter,
                n,
            ) && slot_defect(now[j]) is Some by {
                assert(!c.unsaved().contains(j as u64));
                assert(now[j] == was[j]);
            }
        }
    } else {
        assert(done.recorded().take(k) == start.recorded());
    }
}

/// After the sync, the slot is written or not.
proof fn lemma_cut_after(done: &PageIo, disk: Seq<Seq<u8>>, slot: u64, page: Seq<u8>, m: int, k: int)
    requires
        0 <= m <= k <= done.recorded().len(),
        disk == replay(done.base(), done.recorded().take(m)),
        slot < disk.len(),
        forall|i: int|
            m <= i < done.recorded().len() ==> (#[trigger] done.recorded()[i]).stays_within(
                Map::<u64, Seq<u8>>::empty().insert(slot, page),
            ),
    ensures
        ({
            let now = replay(done.base(), done.recorded().take(k));
            now == disk || now == written(disk, slot, page)
        }),
    decreases k - m,
{
    if k > m {
        lemma_cut_after(done, disk, slot, page, m, k - 1);
        lemma_replay_next(done.base(), done.recorded(), k - 1);
        let action = done.recorded()[k - 1];
        assert(action.stays_within(Map::<u64, Seq<u8>>::empty().insert(slot, page)));
        assert(written(written(disk, slot, page), slot, page) =~= written(disk, slot, page));
    }
}

/// A superblock slot that was written only in part does not count: the storage
/// still says what it said.
pub proof fn law_torn_superblock_is_ignored(disk: Seq<Seq<u8>>, n: u32, sb: Superblock, slot: int, page: Seq<u8>)
    requires
        describes(disk, n, sb),
        0 <= slot < n,
        slot != slot_for(sb.txn_counter, n),
        slot_defect(page) is Some,
    ensures
        describes(disk.update(slot, page), n, sb),
{
    let after = disk.update(slot, page);
    assert forall|j: int|
        0 <= j < n && j != slot_for(sb.txn_counter, n) && slot_defect(#[trigger] after[j]) is None implies counter_of(
        after[j],
    ) < sb.txn_counter && le32(after[j], 52) == n by {
        assert(after[j] == disk[j]);
    }
}

/// The slot that the next commit writes is not the one that the storage's
/// superblock is in.
pub proof fn law_next_slot_differs(counter: u64, n: u32)
    requires
        count_ok(n as int),
        counter < u64::MAX,
    ensures
        slot_for((counter + 1) as u64, n) != slot_for(counter, n),
{
    let a = counter as int;
    let b = a + 1;
    let m = n as int;
    if a % m == b % m {
        vstd::arithmetic::div_mod::lemma_fundamental_div_mod(a, m);
        vstd::arithmetic::div_mod::lemma_fundamental_div_mod(b, m);
        assert(1 == m * (b / m) - m * (a / m));
        let k = b / m - a / m;
        assert(m * (b / m) - m * (a / m) == m * k) by (nonlinear_arith)
            requires
                k == b / m - a / m,
        ;
        assert(false) by (nonlinear_arith)
            requires
                1 == m * k,
                m >= 2,
        ;
    }
}

} // verus!
