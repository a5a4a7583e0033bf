//! Laws of the database: what a caller sees of one call after another.

use vstd::prelude::*;
use vstd::utf8::{encode_utf8, encode_utf8_decode_utf8};

use crate::chisel::{views, Chisel};
use crate::commit::{at_risk, disk_map, to_free};
use crate::defrag::{data_kept, swept, DefragStats};
use crate::error::ChiselError;
use crate::handle::Handle;
use crate::handle_table::HandleEntry;
use crate::names::{
    bindings, first_named, law_stored_names_differ, name_valid, names_apart, padded, table_full,
};
use crate::store::{database, Record};
use crate::superblock::NamedRoot;
use crate::transaction::{ascending, elsewhere, lies_on, stopped_at, without, TransactionManager};
use crate::workspace::{looked, Workspace};

verus! {

/// What was stored is what the new handle stands for, with the tag it was given and the
/// byte 0. The handle is the next one and stood for nothing; every other handle stands for
/// what it stood for.
pub proof fn law_stored_values(
    before: &Chisel,
    after: &Chisel,
    value: Seq<u8>,
    tag: u32,
    h: Handle,
    other: u64,
)
    requires
        after.stored(before, value, tag, Ok(h)),
    ensures
        h@ == before.manager().next_handle(),
        !before.db().contains_key(h@),
        after.db().contains_key(h@),
        after.db()[h@].value == value,
        after.db()[h@].tag == tag,
        after.db()[h@].byte == 0,
        other != h@ ==> after.db().contains_key(other) == before.db().contains_key(other),
        other != h@ && before.db().contains_key(other) ==> after.db()[other] == before.db()[other],
        after.names() == before.names(),
        after.manager().next_handle() == before.manager().next_handle() + 1,
{
}

/// A value that could not be stored has changed nothing.
pub proof fn law_values_not_stored(before: &Chisel, after: &Chisel, value: Seq<u8>, tag: u32, e: ChiselError)
    requires
        after.stored(before, value, tag, Err(e)),
    ensures
        after.db() == before.db(),
        after.names() == before.names(),
        after.manager().next_handle() == before.manager().next_handle(),
        e is CacheFull || e is SpillwayFull,
        after.manager().current().cache.pending() > after.manager().current().cache.capacity(),
{
}

/// Looking at a database changes nothing: values, names, savepoints, the committed state
/// and the transaction stay as they are.
pub proof fn law_looking_changes_nothing(before: &TransactionManager, after: &TransactionManager)
    requires
        after.peeked(before),
    ensures
        after.db() == before.db(),
        after.committed_db() == before.committed_db(),
        after.names() == before.names(),
        after.next_handle() == before.next_handle(),
        after.commits() == before.commits(),
        after.running() == before.running(),
        after.marks() == before.marks(),
        after.current().cache.disk() == before.current().cache.disk(),
        before.spoiled() ==> after.spoiled(),
        before.vetted() ==> after.spoiled() == before.spoiled(),
        forall|i: int| 0 <= i < after.marks().len() ==> #[trigger] after.marked_db(i) == before.marked_db(i),
{
}

/// Looking at pages leaves what they hold.
pub proof fn law_looking_leaves_the_pages(w0: &Workspace, w1: &Workspace)
    requires
        looked(w0, w1),
    ensures
        w1.cache.contents() == w0.cache.contents(),
        w1.roots == w0.roots,
        w1.db() == w0.db(),
        w1.cache.unsaved() == w0.cache.unsaved(),
        w1.cache.watermark() == w0.cache.watermark(),
{
}

/// A read gives the value that the handle stands for, and fails with `InvalidHandle` only
/// if it stands for nothing. On a database that is known to be sound, with pages within
/// the limits, a read of a handle that stands for something succeeds.
pub proof fn law_reads(
    before: &TransactionManager,
    after: &TransactionManager,
    h: u64,
    outcome: Result<Vec<u8>, ChiselError>,
)
    requires
        after.reads(before, h, outcome),
        !before.spoiled(),
    ensures
        outcome matches Ok(value) ==> before.db().contains_key(h) && value@ == before.db()[h].value,
        outcome matches Err(ChiselError::InvalidHandle(k)) ==> k == h && !before.db().contains_key(h),
        before.vetted() && before.current().cache.pending() <= before.current().cache.capacity() ==> {
            &&& before.db().contains_key(h) ==> outcome is Ok
            &&& !before.db().contains_key(h) ==> outcome == Err::<Vec<u8>, ChiselError>(ChiselError::InvalidHandle(h))
        },
        before.vetted() && outcome is Err && outcome->Err_0 !is InvalidHandle ==> {
            &&& before.current().cache.pending() > before.current().cache.capacity()
            &&& outcome->Err_0 is CacheFull || outcome->Err_0 is SpillwayFull
        },
{
}

/// What was stored is read back.
pub proof fn law_stored_values_are_read(
    before: &Chisel,
    stored: &Chisel,
    after: &Chisel,
    value: Seq<u8>,
    tag: u32,
    h: Handle,
    outcome: Result<Vec<u8>, ChiselError>,
)
    requires
        stored.stored(before, value, tag, Ok(h)),
        !stored.manager().spoiled(),
        stored.manager().vetted(),
        stored.manager().current().cache.pending() <= stored.manager().current().cache.capacity(),
        after.manager().reads(&stored.manager(), h@, outcome),
    ensures
        outcome matches Ok(bytes) && bytes@ == value,
{
    law_stored_values(before, stored, value, tag, h, 0);
}

/// Why an entry could not be found on a sound database: there is no such handle, or the
/// limits are passed.
pub proof fn law_entries_not_found(before: &TransactionManager, after: &TransactionManager, h: u64, e: ChiselError)
    requires
        after.unfound(before, h, e),
    ensures
        e is InvalidHandle ==> e == ChiselError::InvalidHandle(h) && !before.db().contains_key(h),
        before.vetted() && before.db().contains_key(h) ==> {
            &&& before.current().cache.pending() > before.current().cache.capacity()
            &&& e is CacheFull || e is SpillwayFull
        },
        after.spoiled() ==> e.is_fatal() && !before.vetted(),
        after.unread(before, h, e),
{
}

/// Listing fails on a sound database only if the limits are passed.
pub proof fn law_lists_not_made(before: &TransactionManager, after: &TransactionManager, tag: u32, e: ChiselError)
    requires
        before.vetted(),
        after.unlisted(before, e) || after.unlisted_tag(before, tag, e),
    ensures
        before.current().cache.pending() > before.current().cache.capacity(),
        e is CacheFull || e is SpillwayFull,
        !after.spoiled(),
{
}

/// A change that leaves the rest as it was keeps the committed state, the transaction and
/// every savepoint.
pub proof fn law_the_rest_stays(before: &TransactionManager, after: &TransactionManager, i: int)
    requires
        after.rest_same(before),
    ensures
        after.committed_db() == before.committed_db(),
        after.commits() == before.commits(),
        after.running() == before.running(),
        after.spoiled() == before.spoiled(),
        after.vetted() == before.vetted(),
        after.marks().len() == before.marks().len(),
        0 <= i < before.marks().len() ==> after.keeps_mark(before, i) && after.marked_db(i) == before.marked_db(i)
            && after.marks()[i].name@ == before.marks()[i].name@,
        after.unreported() == before.unreported(),
        after.rest_kept(before),
{
}

/// A failed change has changed nothing.
pub proof fn law_failed_changes(before: &TransactionManager, after: &TransactionManager, h: u64)
    requires
        after.kept(before),
    ensures
        after.db().contains_key(h) == before.db().contains_key(h),
        before.db().contains_key(h) ==> after.db()[h] == before.db()[h],
        after.names() == before.names(),
        after.next_handle() == before.next_handle(),
{
}

/// Nothing can be changed without a running transaction, nor after a failure that was for
/// good.
pub proof fn law_changes_need_a_transaction(tm: &TransactionManager)
    ensures
        tm.barred() is None <==> tm.running() && !tm.spoiled(),
        tm.spoiled() ==> (tm.barred() matches Some(e) && e is Poisoned),
        !tm.spoiled() && !tm.running() ==> (tm.barred() matches Some(e) && e is NoActiveTransaction),
{
}

/// Settings can be changed only between transactions, and not after a failure that was for
/// good.
pub proof fn law_settings_need_rest(tm: &TransactionManager)
    ensures
        tm.busy() is None <==> !tm.running() && !tm.spoiled(),
        tm.spoiled() ==> (tm.busy() matches Some(e) && e is Poisoned),
        !tm.spoiled() && tm.running() ==> (tm.busy() matches Some(e) && e is TransactionInProgress),
{
}

/// Keys can never be changed. What is said is the first that holds: a failure for good, a
/// transaction, a storage that cannot be written, and else that there are none.
pub proof fn law_keys_cannot_be_changed(db: &Chisel)
    ensures
        db.keyless() is Poisoned <==> db.manager().spoiled(),
        db.keyless() is TransactionInProgress <==> !db.manager().spoiled() && db.manager().running(),
        db.keyless() is ReadOnlyMode <==> !db.manager().spoiled() && !db.manager().running()
            && db.manager().current().cache.storage().spec_read_only(),
        db.keyless() is EncryptionNotSupported <==> !db.manager().spoiled() && !db.manager().running()
            && !db.manager().current().cache.storage().spec_read_only(),
{
}

/// The handles with a tag are those that stand for something with that tag.
pub proof fn law_handles_with_a_tag(tm: &TransactionManager, tag: u32, h: u64)
    ensures
        tm.tagged_handles(tag).contains(h) <==> tm.db().contains_key(h) && tm.db()[h].tag == tag,
{
}

/// A list in ascending order names nothing twice, and what comes first is lower.
pub proof fn law_ascending(list: Seq<u64>, i: int, j: int)
    requires
        ascending(list),
        0 <= i < list.len(),
        0 <= j < list.len(),
    ensures
        i < j <==> list[i] < list[j],
        i == j <==> list[i] == list[j],
{
    if i < j {
        assert(list[i] < list[j]);
    } else if j < i {
        assert(list[j] < list[i]);
    }
}

/// The numbers of handles, one by one.
pub proof fn law_numbers_of_handles(handles: Seq<Handle>, i: int)
    requires
        0 <= i < handles.len(),
    ensures
        views(handles).len() == handles.len(),
        views(handles)[i] == handles[i]@,
{
}

/// Taking handles away takes these, and leaves all others with what they stand for.
pub proof fn law_handles_taken_away(db: Map<u64, Record>, handles: Seq<u64>, k: int, h: u64)
    requires
        0 <= k <= handles.len(),
    ensures
        without(db, handles, k).contains_key(h) <==> db.contains_key(h) && forall|i: int|
            0 <= i < k ==> #[trigger] handles[i] != h,
        without(db, handles, k).contains_key(h) ==> without(db, handles, k)[h] == db[h],
        without(db, handles, 0) == db,
{
    let gone = handles.take(k).to_set();
    if exists|i: int| 0 <= i < k && #[trigger] handles[i] == h {
        let i = choose|i: int| 0 <= i < k && #[trigger] handles[i] == h;
        assert(handles.take(k)[i] == h);
        assert(gone.contains(h));
    } else if gone.contains(h) {
        let i = handles.take(k).index_of(h);
        assert(handles.take(k)[i] == h);
        assert(handles[i] == h);
    }
    assert(without(db, handles, 0) =~= db);
}

/// Taking handles away stops at the first that is not there, or at the limits. Those before
/// it are gone, and no others.
pub proof fn law_taking_away_stops(
    before: &TransactionManager,
    after: &TransactionManager,
    handles: Seq<u64>,
    k: int,
    e: ChiselError,
    h: u64,
)
    requires
        stopped_at(before, after, handles, k, e),
    ensures
        0 <= k < handles.len(),
        after.db().contains_key(h) <==> before.db().contains_key(h) && forall|i: int|
            0 <= i < k ==> #[trigger] handles[i] != h,
        after.db().contains_key(h) ==> after.db()[h] == before.db()[h],
        e is InvalidHandle ==> e == ChiselError::InvalidHandle(handles[k]) && !after.db().contains_key(handles[k]),
        e !is InvalidHandle ==> {
            &&& e is CacheFull || e is SpillwayFull
            &&& after.current().cache.pending() > after.current().cache.capacity()
        },
{
    law_handles_taken_away(before.db(), handles, k, h);
}

/// The entry that has a name is the first that has it.
pub proof fn law_entry_with_a_name(names: Seq<NamedRoot>, key: Seq<u8>, i: int)
    requires
        0 <= i <= names.len(),
    ensures
        match first_named(names, key, i) {
            Some(k) => {
                &&& i <= k < names.len()
                &&& names[k].name@ == key
                &&& forall|j: int| i <= j < k ==> (#[trigger] names[j]).name@ != key
            },
            None => forall|j: int| i <= j < names.len() ==> (#[trigger] names[j]).name@ != key,
        },
    decreases names.len() - i,
{
    if i < names.len() && names[i].name@ != key {
        law_entry_with_a_name(names, key, i + 1);
    }
}

/// What a name stands for is what the table has next to it. The table has a name if one of
/// its entries has it; an entry whose name begins with a zero byte is free.
pub proof fn law_names_in_the_table(names: Seq<NamedRoot>, key: Seq<u8>, i: int)
    requires
        names_apart(names),
        0 <= i < names.len(),
        names[i].name@ == key,
        key.len() == 24,
    ensures
        bindings(names).contains_key(key) <==> key[0] != 0,
        key[0] != 0 ==> bindings(names)[key] == names[i].handle,
        table_full(names) ==> key[0] != 0,
{
    law_entry_with_a_name(names, key, 0);
    if key[0] != 0 {
        let k = first_named(names, key, 0)->0;
        if k < i {
            assert(names[k].name@ != names[i].name@);
        }
    }
}

/// The table has only names of its entries.
pub proof fn law_no_other_names(names: Seq<NamedRoot>, key: Seq<u8>)
    requires
        bindings(names).contains_key(key),
    ensures
        key.len() == 24,
        key[0] != 0,
        exists|i: int| 0 <= i < names.len() && (#[trigger] names[i]).name@ == key && bindings(names)[key] == names[i].handle,
{
    law_entry_with_a_name(names, key, 0);
}

/// Binding a name binds that name and no other: it then stands for the handle, and every
/// other name, however alike, stands for what it stood for.
pub proof fn law_binding_one_name(before: Map<Seq<u8>, u64>, name: Seq<char>, other: Seq<char>, h: u64)
    requires
        name_valid(encode_utf8(name)),
        name_valid(encode_utf8(other)),
    ensures
        ({
            let after = before.insert(padded(encode_utf8(name)), h);
            let key = padded(encode_utf8(other));
            &&& name == other ==> after.contains_key(key) && after[key] == h
            &&& name != other ==> after.contains_key(key) == before.contains_key(key)
            &&& name != other && before.contains_key(key) ==> after[key] == before[key]
        }),
{
    lemma_names_are_told_apart(name, other);
}

/// Removing a name removes that name and no other.
pub proof fn law_removing_one_name(before: Map<Seq<u8>, u64>, name: Seq<char>, other: Seq<char>)
    requires
        name_valid(encode_utf8(name)),
        name_valid(encode_utf8(other)),
    ensures
        ({
            let after = before.remove(padded(encode_utf8(name)));
            let key = padded(encode_utf8(other));
            &&& name == other ==> !after.contains_key(key)
            &&& name != other ==> after.contains_key(key) == before.contains_key(key)
            &&& name != other && before.contains_key(key) ==> after[key] == before[key]
        }),
{
    lemma_names_are_told_apart(name, other);
}

/// Names that are stored alike are the same.
proof fn lemma_names_are_told_apart(a: Seq<char>, b: Seq<char>)
    requires
        name_valid(encode_utf8(a)),
        name_valid(encode_utf8(b)),
    ensures
        padded(encode_utf8(a)) == padded(encode_utf8(b)) ==> a == b,
{
    if padded(encode_utf8(a)) == padded(encode_utf8(b)) {
        law_stored_names_differ(encode_utf8(a), encode_utf8(b));
        encode_utf8_decode_utf8(a);
        encode_utf8_decode_utf8(b);
    }
}

/// A savepoint has a name exactly if that is its name, letter for letter.
pub proof fn law_savepoint_with_a_name(tm: &TransactionManager, name: Seq<char>, i: int)
    ensures
        tm.mark_named(name, i) <==> 0 <= i < tm.marks().len() && tm.marks()[i].name@.len() == name.len() && forall|k: int|
            0 <= k < name.len() ==> #[trigger] tm.marks()[i].name@[k] == name[k],
{
    if 0 <= i < tm.marks().len() && tm.marks()[i].name@.len() == name.len() && forall|k: int|
        0 <= k < name.len() ==> #[trigger] tm.marks()[i].name@[k] == name[k] {
        assert(tm.marks()[i].name@ =~= name);
    }
}

/// A rollback brings back the committed state, and going back to a savepoint its state.
pub proof fn law_states_gone_back_to(before: &TransactionManager, after: &TransactionManager, i: int)
    ensures
        after.undone(before) ==> after.db() == before.committed_db(),
        after.returned(before, i) ==> after.db() == before.marked_db(i),
        before.marked_db(i) == database(before.current().cache.contents(), before.marks()[i].roots),
        before.committed_db() == database(before.origin().cache.contents(), before.origin().roots),
        before.db() == database(before.current().cache.contents(), before.current().roots),
{
}

/// A commit makes the state reached the committed one, ends the transaction and its
/// savepoints, and counts one commit more.
pub proof fn law_commits(before: &TransactionManager, after: &TransactionManager)
    requires
        after.committed_from(before),
    ensures
        after.db() == before.db(),
        after.committed_db() == before.db(),
        after.names() == before.names(),
        after.next_handle() == before.next_handle(),
        after.commits() == before.commits() + 1,
        !after.running(),
        !after.spoiled(),
        after.marks().len() == 0,
{
}

/// A commit frees the pages that were given up, and those noted before but for the first
/// `held`.
pub proof fn law_pages_that_a_commit_frees(w: &Workspace, held: int, id: u64)
    requires
        0 <= held <= w.deferred@.len(),
    ensures
        to_free(w, held).contains(id) <==> w.freed@.contains(id) || exists|i: int|
            held <= i < w.deferred@.len() && #[trigger] w.deferred@[i] == id,
{
    let all = to_free(w, held);
    let n = w.freed@.len() as int;
    if all.contains(id) {
        let i = all.index_of(id);
        assert(all[i] == id);
        if i < n {
            assert(w.freed@[i] == id);
        } else {
            assert(w.deferred@[held + i - n] == id);
        }
    }
    if w.freed@.contains(id) {
        let i = w.freed@.index_of(id);
        assert(all[i] == w.freed@[i]);
    }
    if exists|i: int| held <= i < w.deferred@.len() && #[trigger] w.deferred@[i] == id {
        let i = choose|i: int| held <= i < w.deferred@.len() && #[trigger] w.deferred@[i] == id;
        assert(all[n + i - held] == id);
    }
}

/// The pages of a storage are numbered from 0 on.
pub proof fn law_pages_of_a_storage(disk: Seq<Seq<u8>>, id: u64)
    ensures
        disk_map(disk).contains_key(id) <==> id < disk.len(),
        id < disk.len() ==> disk_map(disk)[id] == disk[id as int],
{
}

/// Saving a state may write pages that wait to be saved, and new ones; no other.
pub proof fn law_pages_that_saving_spares(w: &Workspace, id: u64)
    ensures
        at_risk(w).contains(id) <==> id >= w.cache.watermark() || w.cache.unsaved().contains(id),
{
}

/// Another place is another page or another slot; a value lies on the page that its entry
/// names.
pub proof fn law_places(tm: &TransactionManager, h: u64, page: u64, a: HandleEntry, b: HandleEntry)
    ensures
        !elsewhere(a, b) <==> a.page_id == b.page_id && a.slot_index == b.slot_index,
        lies_on(tm, h, page) ==> tm.place_of(h) is Some && tm.place_of(h)->0.page_id == page,
{
}

/// A pass that moves values reports how many data pages it has emptied, and tells of lost
/// pages only where no savepoint could bring them back. No value changes.
pub proof fn law_defrag_reports(
    before: &TransactionManager,
    after: &TransactionManager,
    list: Seq<u64>,
    sparse: Set<u64>,
    max: nat,
    stats: DefragStats,
)
    requires
        swept(before, after, list, sparse, max, stats),
        data_kept(before, after),
    ensures
        stats.pages_freed == Set::new(|p: u64| before.data_pages().contains(p) && !after.data_pages().contains(p)).len(),
        before.marks().len() > 0 ==> stats.freemap_orphans_reclaimed == 0,
        before.marks().len() == 0 ==> stats.freemap_orphans_reclaimed == (if before.told() { 0 } else { before.stranded() }),
        after.db() == before.db(),
        after.names() == before.names(),
        after.committed_db() == before.committed_db(),
{
    assert(Set::new(|p: u64| before.data_pages().contains(p) && !after.data_pages().contains(p)) =~= before.data_pages().difference(
        after.data_pages(),
    ));
}

/// A change of settings changes nothing else.
pub proof fn law_settings_change_nothing_else(before: &TransactionManager, after: &TransactionManager)
    requires
        after.resized(before),
    ensures
        after.db() == before.db(),
        after.committed_db() == before.committed_db(),
        after.names() == before.names(),
        after.next_handle() == before.next_handle(),
        after.commits() == before.commits(),
        after.current().cache.disk() == before.current().cache.disk(),
        !after.running(),
        !after.spoiled(),
{
}

/// What a chisel shows is what its transactions have reached.
pub proof fn law_chisel_shows_the_state(db: &Chisel)
    ensures
        db.db() == db.manager().db(),
        db.committed_db() == db.manager().committed_db(),
        db.names() == bindings(db.manager().current().roots.names@),
        db.barred() == db.manager().barred(),
        db.inv() == db.manager().inv(),
{
}

/// A change to values leaves the committed state, the transaction and the savepoints.
pub proof fn law_only_values_change(before: &Chisel, after: &Chisel)
    requires
        after.only_data(before),
    ensures
        after.inv(),
        after.committed_db() == before.committed_db(),
        after.manager().running() == before.manager().running(),
        after.manager().spoiled() == before.manager().spoiled(),
        after.manager().commits() == before.manager().commits(),
        after.manager().marks() == before.manager().marks(),
{
}

} // verus!
