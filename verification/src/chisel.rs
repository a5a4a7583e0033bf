//! The database: values under stable handles, changed in transactions.

use vstd::prelude::*;

use vstd::utf8::encode_utf8;

use crate::tagging::still_tagged;
use crate::commit::{disk_map, save_load, saved_in_order, to_free};
use crate::crypto::Key;
use crate::defrag::{all_handles, defrag, data_kept, move_pages, moves_pages, swept, DefragStats};
use crate::entries::table_set_pages;
use crate::error::{io_failure, ChiselError};
use crate::handle::{Handle, Tag, TagDropProgress};
use crate::names::{name_valid, padded};
use crate::opening::{
    all_defective, byte_size, check_options, current_superblock, first_valid, pages_to_bytes, refused_options, rejected,
};
use crate::operations::{allocate_pages, delete_pages, gave_back, newly_placed, refused, update_pages};
use crate::options::{DrainInsertion, Options};
use crate::orphans::orphans;
use crate::overflow::OVERFLOW_PAYLOAD;
use crate::page::{FORMAT_MINOR_VERSION, PAGE_SIZE};
use crate::page_cache::{page_limit_of, trimmed, PageCache};
use crate::page_io::{bumped, page_bytes, IoAction, PageIo};
use crate::page_source::overrun;
use crate::stats::{ChiselCounters, Stats};
use crate::store::Record;
use crate::superblock::{DEFAULT_SUPERBLOCK_COUNT, NAMED_ROOT_COUNT, Superblock};
use crate::transaction::{
    ascending, deletes_pages, edge_damaged, opened_as, slot_for, stopped_at, table_intact, without, PageFill,
    TransactionManager,
};

verus! {

/// A live database.
///
/// A failure that is for good leaves it poisoned: every later request is refused,
/// and the database has to be opened again. What was committed is still there
/// then.
pub struct Chisel {
    txm: TransactionManager,
}

/// The cache that the options ask for.
pub open spec fn cache_options(c: &PageCache, options: Options) -> bool {
    &&& c.page_limit() == page_limit_of(options.cache_max_bytes)
    &&& c.spill_limit() == options.spillway_max_bytes
    &&& c.policy() == options.drain_insertion
}

/// An empty database.
pub open spec fn is_new(db: &Chisel, options: Options) -> bool {
    &&& is_empty(db)
    &&& db.manager().current().slots == options.superblock_count
    &&& db.manager().current().cache.disk().len() == options.superblock_count
    &&& cache_options(&db.manager().current().cache, options)
}

/// A database that holds nothing yet, and can be changed.
pub open spec fn is_empty(db: &Chisel) -> bool {
    &&& db.inv()
    &&& !db.manager().spoiled()
    &&& !db.manager().running()
    &&& db.manager().vetted()
    &&& !db.manager().current().cache.storage().spec_read_only()
    &&& db.db() == Map::<u64, Record>::empty()
    &&& db.committed_db() == Map::<u64, Record>::empty()
    &&& db.names() == Map::<Seq<u8>, u64>::empty()
    &&& db.manager().next_handle() == 1
    &&& db.manager().unreported() == 0
}

/// Handles as numbers.
fn raw_handles(handles: &[Handle]) -> (raw: Vec<u64>)
    ensures
        raw@ == Seq::new(handles@.len(), |i: int| handles@[i]@),
{
    let mut raw: Vec<u64> = Vec::new();
    let mut i: usize = 0;
    while i < handles.len()
        invariant
            i <= handles@.len(),
            raw@.len() == i,
            forall|k: int| 0 <= k < i ==> #[trigger] raw@[k] == handles@[k]@,
        decreases handles@.len() - i,
    {
        raw.push(handles[i].get());
        i += 1;
    }
    assert(raw@ =~= Seq::new(handles@.len(), |i: int| handles@[i]@));
    raw
}

/// Numbers as handles.
fn to_handles(raw: &Vec<u64>) -> (handles: Vec<Handle>)
    ensures
        views(handles@) == raw@,
{
    let mut handles: Vec<Handle> = Vec::new();
    let mut i: usize = 0;
    while i < raw.len()
        invariant
            i <= raw@.len(),
            handles@.len() == i,
            forall|k: int| 0 <= k < i ==> (#[trigger] handles@[k])@ == raw@[k],
        decreases raw@.len() - i,
    {
        proof {
            Handle::lemma_of_view(raw@[i as int]);
        }
        handles.push(Handle::from(raw[i]));
        i += 1;
    }
    assert(views(handles@) =~= raw@);
    handles
}

/// The numbers that handles stand for.
pub open spec fn views(handles: Seq<Handle>) -> Seq<u64> {
    Seq::new(handles.len(), |i: int| handles[i]@)
}

impl Chisel {
    /// What runs the transactions.
    pub closed spec fn manager(&self) -> TransactionManager {
        self.txm
    }

    /// The database can be used.
    pub open spec fn inv(&self) -> bool {
        self.manager().inv()
    }

    /// What the handles stand for.
    pub open spec fn db(&self) -> Map<u64, Record> {
        self.manager().db()
    }

    /// What the handles stand for in the committed state.
    pub open spec fn committed_db(&self) -> Map<u64, Record> {
        self.manager().committed_db()
    }

    /// What the names stand for.
    pub open spec fn names(&self) -> Map<Seq<u8>, u64> {
        self.manager().names()
    }

    /// Why nothing can be changed, if that is so.
    pub open spec fn barred(&self) -> Option<ChiselError> {
        self.manager().barred()
    }

    /// Open a new database in memory, with default options.
    pub fn open_in_memory() -> (outcome: Result<Chisel, ChiselError>)
        ensures
            match outcome {
                Ok(db) => is_empty(&db) && db.manager().current().slots == DEFAULT_SUPERBLOCK_COUNT,
                Err(_) => false,
            },
    {
        Self::open_in_memory_with_options(Options::default())
    }

    /// Open a new database in memory.
    pub fn open_in_memory_with_options(options: Options) -> (outcome: Result<Chisel, ChiselError>)
        requires
            options.cache_max_bytes / (PAGE_SIZE as u64) <= usize::MAX,
        ensures
            match outcome {
                Ok(db) => {
                    &&& !options.read_only && refused_options(options) is None
                    &&& options.encryption_key is None
                    &&& is_new(&db, options)
                },
                Err(e) => if options.read_only {
                    e is ReadOnlyMode
                } else if refused_options(options) is Some {
                    refused_options(options) == Some(e)
                } else {
                    options.encryption_key is Some && e is EncryptionNotSupported
                },
            },
    {
        if options.read_only {
            return Err(ChiselError::ReadOnlyMode);
        }
        match check_options(&options) {
            Ok(_) => {},
            Err(e) => {
                return Err(e);
            },
        }
        if options.encryption_key.is_some() {
            return Err(ChiselError::EncryptionNotSupported);
        }
        let io: PageIo = match PageIo::open_in_memory() {
            Ok(io) => io,
            Err(e) => {
                return Err(e);
            },
        };
        let cache = PageCache::new(
            io,
            options.cache_max_bytes,
            options.spillway_max_bytes,
            options.drain_insertion,
        );
        assert(cache.contents() =~= disk_map(cache.disk()));
        match TransactionManager::create_new(cache, options.superblock_count) {
            Ok(txm) => Ok(Chisel { txm }),
            Err(e) => Err(e),
        }
    }

    /// Open the database whose storage holds these pages; a storage without pages
    /// becomes a new database, unless it is opened for reading only.
    pub fn open_pages(pages: Vec<[u8; PAGE_SIZE]>, options: Options) -> (outcome: Result<Chisel, ChiselError>)
        requires
            options.cache_max_bytes / (PAGE_SIZE as u64) <= usize::MAX,
        ensures
            ({
                let disk = page_bytes(pages@);
                match outcome {
                    Ok(db) => {
                        &&& refused_options(options) is None
                        &&& options.encryption_key is None
                        &&& if pages@.len() == 0 {
                            !options.read_only && is_new(&db, options)
                        } else {
                            let c = db.manager().current().cache;
                            &&& db.inv()
                            &&& !db.manager().spoiled() && !db.manager().running() && !db.manager().vetted()
                            &&& c.disk() == disk
                            &&& cache_options(&c, options)
                            &&& table_intact(&db.manager().current())
                            &&& exists|sb: Superblock|
                                {
                                    &&& #[trigger] current_superblock(disk, sb)
                                    &&& rejected(disk, sb) is None
                                    &&& opened_as(&db.manager(), sb)
                                    &&& c.storage().spec_read_only() == (options.read_only || sb.format_version
                                        % 0x1_0000 > FORMAT_MINOR_VERSION)
                                }
                        }
                    },
                    Err(e) => if refused_options(options) is Some {
                        refused_options(options) == Some(e)
                    } else if options.encryption_key is Some {
                        e is EncryptionNotSupported
                    } else if pages@.len() == 0 {
                        options.read_only && e is ReadOnlyMode
                    } else {
                        ||| first_valid(disk, 0) is None && (e matches ChiselError::CorruptSuperblock { defects }
                            && all_defective(disk, defects@))
                        ||| exists|sb: Superblock| #[trigger]
                            current_superblock(disk, sb) && rejected(disk, sb) == Some(e)
                        ||| exists|sb: Superblock, c: PageCache|
                            #![trigger current_superblock(disk, sb), c.disk()]
                            {
                                &&& current_superblock(disk, sb)
                                &&& rejected(disk, sb) is None
                                &&& c.disk() == disk
                                &&& c.contents() == disk_map(disk)
                                &&& c.unsaved() == Set::<u64>::empty()
                                &&& edge_damaged(&c, sb, e)
                            }
                    },
                }
            }),
    {
        match check_options(&options) {
            Ok(_) => {},
            Err(e) => {
                return Err(e);
            },
        }
        if options.encryption_key.is_some() {
            return Err(ChiselError::EncryptionNotSupported);
        }
        let existed: bool = pages.len() > 0;
        if !existed && options.read_only {
            return Err(ChiselError::ReadOnlyMode);
        }
        let io = PageIo::open(pages, options.read_only);
        let cache = PageCache::new(
            io,
            options.cache_max_bytes,
            options.spillway_max_bytes,
            options.drain_insertion,
        );
        let ghost c0 = cache;
        assert(cache.contents() =~= disk_map(cache.disk()));
        if existed {
            match TransactionManager::open_existing(cache) {
                Ok(txm) => Ok(Chisel { txm }),
                Err(e) => {
                    assert(c0.disk() == page_bytes(pages@));
                    Err(e)
                },
            }
        } else {
            match TransactionManager::create_new(cache, options.superblock_count) {
                Ok(txm) => Ok(Chisel { txm }),
                Err(e) => Err(e),
            }
        }
    }

    /// Close the database. What was not committed is lost.
    pub fn close(self) -> (outcome: Result<(), ChiselError>)
        ensures
            outcome is Ok,
    {
        Ok(())
    }
}

impl Chisel {
    /// Begin a transaction. The first one on pages that were only opened looks at
    /// everything that the superblock leads to.
    pub fn begin(&mut self) -> (outcome: Result<(), ChiselError>)
        requires
            old(self).inv(),
        ensures
            final(self).inv(),
            final(self).db() == old(self).db(),
            final(self).committed_db() == old(self).committed_db(),
            final(self).names() == old(self).names(),
            final(self).manager().origin().roots == old(self).manager().origin().roots,
            final(self).manager().next_handle() == old(self).manager().next_handle(),
            match outcome {
                Ok(_) => {
                    let before = old(self).manager();
                    &&& !before.spoiled() && !before.running()
                    &&& !before.current().cache.storage().spec_read_only()
                    &&& !before.vetted() ==> {
                        &&& before.storage_sound()
                        &&& final(self).manager().unreported() == orphans(&final(self).manager().current()).len()
                    }
                    &&& before.vetted() ==> final(self).manager().unreported() == before.unreported()
                    &&& final(self).barred() is None
                    &&& final(self).manager().vetted()
                    &&& final(self).manager().marks().len() == 0
                },
                Err(e) => {
                    let before = old(self).manager();
                    &&& e.spec_is_fatal() || *final(self) == *old(self)
                    &&& if before.spoiled() {
                        e is Poisoned
                    } else if before.current().cache.storage().spec_read_only() {
                        e is ReadOnlyMode
                    } else if before.running() {
                        e is TransactionAlreadyActive
                    } else {
                        &&& !before.vetted() && !before.storage_sound()
                        &&& e.spec_is_fatal() && final(self).manager().spoiled()
                    }
                },
            },
    {
        self.txm.begin()
    }

    /// Commit the transaction: what it did is durable when this returns. A failure
    /// is for good.
    pub fn commit(&mut self) -> (outcome: Result<(), ChiselError>)
        requires
            old(self).inv(),
            old(self).barred() is None ==> old(self).manager().commit_room(),
        ensures
            final(self).inv(),
            old(self).barred() matches Some(b) ==> outcome == Err::<(), ChiselError>(b) && *final(self) == *old(self),
            old(self).barred() is None ==> match outcome {
                Ok(_) => {
                    &&& !final(self).manager().spoiled() && !final(self).manager().running()
                    &&& final(self).manager().vetted()
                    &&& final(self).manager().current().cache.same_config(&old(self).manager().current().cache)
                    &&& !final(self).manager().current().cache.storage().spec_read_only()
                    &&& final(self).db() == old(self).db()
                    &&& final(self).committed_db() == old(self).db()
                    &&& old(self).manager().accounted() ==> final(self).manager().accounted()
                    &&& final(self).names() == old(self).names()
                    &&& final(self).manager().next_handle() == old(self).manager().next_handle()
                    &&& final(self).manager().commits() == old(self).manager().commits() + 1
                    &&& final(self).manager().unreported() == old(self).manager().unreported()
                    &&& exists|m: int| #[trigger]
                        saved_in_order(
                            &old(self).manager().current(),
                            &final(self).manager().current(),
                            slot_for(final(self).manager().commits(), old(self).manager().current().slots) as u64,
                            m,
                        )
                    &&& forall|id: u64| #[trigger]
                        final(self).manager().page_free(id) == (old(self).manager().page_free(id) || to_free(
                            &old(self).manager().current(),
                            old(self).manager().unreported() as int,
                        ).contains(id))
                    &&& final(self).manager().current().cache.storage().syncs() == bumped(
                        bumped(bumped(old(self).manager().current().cache.storage().syncs())),
                    )
                },
                Err(e) => {
                    let cache = old(self).manager().current().cache;
                    &&& final(self).manager().spoiled()
                    &&& final(self).manager().current().cache.pending() > final(self).manager().current().cache.capacity()
                    &&& save_load(&old(self).manager().current()) > cache.capacity()
                    &&& e == cache.pressure_error()
                },
            },
    {
        self.txm.commit()
    }

    /// Give the transaction up.
    pub fn rollback(&mut self) -> (outcome: Result<(), ChiselError>)
        requires
            old(self).inv(),
        ensures
            final(self).inv(),
            old(self).barred() matches Some(b) ==> outcome == Err::<(), ChiselError>(b) && *final(self) == *old(self),
            old(self).barred() is None ==> {
                &&& outcome is Ok
                &&& !final(self).manager().spoiled() && !final(self).manager().running()
                &&& final(self).manager().vetted()
                &&& final(self).manager().current().cache.same_config(&old(self).manager().current().cache)
                &&& !final(self).manager().current().cache.storage().spec_read_only()
                &&& final(self).manager().unreported() == old(self).manager().stranded()
                &&& final(self).db() == old(self).committed_db()
                &&& final(self).committed_db() == old(self).committed_db()
                &&& final(self).manager().current().roots == old(self).manager().origin().roots
            },
    {
        self.txm.rollback()
    }

    /// Set a savepoint.
    pub fn savepoint(&mut self, name: &str) -> (outcome: Result<(), ChiselError>)
        requires
            old(self).inv(),
        ensures
            final(self).inv(),
            final(self).manager().current() == old(self).manager().current(),
            final(self).manager().origin() == old(self).manager().origin(),
            final(self).barred() == old(self).barred(),
            outcome is Err ==> *final(self) == *old(self),
            old(self).barred() matches Some(b) ==> outcome == Err::<(), ChiselError>(b),
            old(self).barred() is None ==> match outcome {
                Ok(_) => {
                    let n = old(self).manager().marks().len() as int;
                    &&& forall|i: int| !(#[trigger] old(self).manager().mark_named(name@, i))
                    &&& forall|i: int| 0 <= i < n ==> (#[trigger] old(self).manager().marks()[i]).name@ != name@
                    &&& final(self).manager().marks()[n].name@ == name@
                    &&& final(self).manager().marks().len() == n + 1
                    &&& final(self).manager().marks().take(n) == old(self).manager().marks()
                    &&& final(self).manager().mark_named(name@, n)
                    &&& final(self).manager().marks()[n].roots == old(self).manager().current().roots
                    &&& final(self).manager().marked_db(n) == old(self).db()
                },
                Err(e) => {
                    &&& exists|i: int| #[trigger] old(self).manager().mark_named(name@, i)
                    &&& exists|i: int|
                        0 <= i < old(self).manager().marks().len() && (#[trigger] old(self).manager().marks()[i]).name@ == name@
                    &&& e matches ChiselError::DuplicateSavepoint(text) && text@ == name@
                },
            },
    {
        self.txm.savepoint(name)
    }

    /// Go back to a savepoint. It stays; those set after it do not.
    pub fn rollback_to(&mut self, name: &str) -> (outcome: Result<(), ChiselError>)
        requires
            old(self).inv(),
        ensures
            final(self).inv(),
            final(self).manager().origin() == old(self).manager().origin(),
            final(self).barred() == old(self).barred(),
            outcome is Err ==> *final(self) == *old(self),
            old(self).barred() matches Some(b) ==> outcome == Err::<(), ChiselError>(b),
            old(self).barred() is None ==> match outcome {
                Ok(_) => exists|i: int|
                    {
                        &&& #[trigger] old(self).manager().mark_named(name@, i)
                        &&& 0 <= i < old(self).manager().marks().len()
                        &&& old(self).manager().marks()[i].name@ == name@
                        &&& final(self).manager().marks() == old(self).manager().marks().take(i + 1)
                        &&& final(self).manager().current().roots == old(self).manager().marks()[i].roots
                        &&& final(self).db() == old(self).manager().marked_db(i)
                        &&& forall|k: int|
                            0 <= k <= i ==> #[trigger] final(self).manager().marked_db(k) == old(self).manager().marked_db(k)
                    },
                Err(e) => {
                    &&& forall|i: int| !(#[trigger] old(self).manager().mark_named(name@, i))
                    &&& forall|i: int| 0 <= i < old(self).manager().marks().len() ==> (#[trigger] old(self).manager().marks()[i]).name@ != name@
                    &&& e matches ChiselError::SavepointNotFound(text) && text@ == name@
                },
            },
    {
        self.txm.rollback_to(name)
    }

    /// Give a savepoint up, and those set after it, without going back.
    pub fn release(&mut self, name: &str) -> (outcome: Result<(), ChiselError>)
        requires
            old(self).inv(),
        ensures
            final(self).inv(),
            final(self).manager().current() == old(self).manager().current(),
            final(self).manager().origin() == old(self).manager().origin(),
            final(self).barred() == old(self).barred(),
            outcome is Err ==> *final(self) == *old(self),
            old(self).barred() matches Some(b) ==> outcome == Err::<(), ChiselError>(b),
            old(self).barred() is None ==> match outcome {
                Ok(_) => exists|i: int|
                    {
                        &&& #[trigger] old(self).manager().mark_named(name@, i)
                        &&& 0 <= i < old(self).manager().marks().len()
                        &&& old(self).manager().marks()[i].name@ == name@
                        &&& final(self).manager().marks() == old(self).manager().marks().take(i)
                    },
                Err(e) => {
                    &&& forall|i: int| !(#[trigger] old(self).manager().mark_named(name@, i))
                    &&& forall|i: int| 0 <= i < old(self).manager().marks().len() ==> (#[trigger] old(self).manager().marks()[i]).name@ != name@
                    &&& e matches ChiselError::SavepointNotFound(text) && text@ == name@
                },
            },
    {
        self.txm.release(name)
    }

    /// Nothing but the values has changed.
    pub open spec fn only_data(&self, before: &Chisel) -> bool {
        &&& self.inv()
        &&& self.manager().rest_same(&before.manager())
    }

    /// What a new value means.
    pub open spec fn stored(&self, before: &Chisel, value: Seq<u8>, tag: u32, outcome: Result<Handle, ChiselError>) -> bool {
        match outcome {
            Ok(h) => {
                &&& h@ == before.manager().next_handle()
                &&& self.manager().next_handle() == h@ + 1
                &&& !before.db().contains_key(h@)
                &&& self.db() == before.db().insert(h@, (Record { value, tag, byte: 0 }))
                &&& self.names() == before.names()
                &&& newly_placed(&before.manager().current(), &self.manager().current(), h@, value.len())
                &&& self.manager().keeps_account(&before.manager(), allocate_pages(value.len(), tag))
            },
            Err(e) => {
                &&& self.manager().kept(&before.manager())
                &&& overrun(
                    &before.manager().current().cache,
                    &self.manager().current().cache,
                    e,
                    allocate_pages(value.len(), tag),
                )
            },
        }
    }

    /// Store a value under a new handle.
    pub fn allocate(&mut self, value: &[u8]) -> (outcome: Result<Handle, ChiselError>)
        requires
            old(self).inv(),
            old(self).barred() is None ==> old(self).manager().next_handle() < u64::MAX && old(self).manager().room(
                allocate_pages(value@.len(), 0),
            ),
        ensures
            final(self).only_data(old(self)),
            old(self).barred() matches Some(b) ==> outcome == Err::<Handle, ChiselError>(b) && *final(self) == *old(self),
            old(self).barred() is None ==> final(self).stored(old(self), value@, 0, outcome),
    {
        match self.txm.allocate(value, 0) {
            Ok(handle) => {
                proof {
                    Handle::lemma_of_view(handle);
                }
                Ok(Handle::from(handle))
            },
            Err(e) => Err(e),
        }
    }

    /// Store a value under a new handle that carries a tag.
    pub fn allocate_tagged(&mut self, value: &[u8], tag: Tag) -> (outcome: Result<Handle, ChiselError>)
        requires
            old(self).inv(),
            old(self).barred() is None ==> old(self).manager().next_handle() < u64::MAX && old(self).manager().room(
                allocate_pages(value@.len(), tag@),
            ),
        ensures
            final(self).only_data(old(self)),
            old(self).barred() matches Some(b) ==> outcome == Err::<Handle, ChiselError>(b) && *final(self) == *old(self),
            old(self).barred() is None ==> final(self).stored(old(self), value@, tag@, outcome),
    {
        match self.txm.allocate(value, tag.get()) {
            Ok(handle) => {
                proof {
                    Handle::lemma_of_view(handle);
                }
                Ok(Handle::from(handle))
            },
            Err(e) => Err(e),
        }
    }

    /// Looking at the database has changed nothing that can be seen, unless it has
    /// found damage.
    pub open spec fn peeked(&self, before: &Chisel) -> bool {
        self.manager().peeked(&before.manager())
    }

    /// Why the entry of a handle could not be read.
    pub open spec fn unfound(&self, before: &Chisel, handle: Handle, e: ChiselError) -> bool {
        self.manager().unfound(&before.manager(), handle@, e)
    }

    /// Why a handle could not be read.
    pub open spec fn unread(&self, before: &Chisel, handle: Handle, e: ChiselError) -> bool {
        self.manager().unread(&before.manager(), handle@, e)
    }

    /// The tag of a handle; `None` if it has none.
    pub fn tag(&mut self, handle: Handle) -> (outcome: Result<Option<Tag>, ChiselError>)
        requires
            old(self).inv(),
        ensures
            final(self).peeked(old(self)),
            old(self).manager().spoiled() ==> (outcome matches Err(e) && e is Poisoned),
            !old(self).manager().spoiled() ==> match outcome {
                Ok(tag) => {
                    &&& !final(self).manager().spoiled()
                    &&& old(self).db().contains_key(handle@)
                    &&& match tag {
                        Some(t) => t@ == old(self).db()[handle@].tag && t@ != 0,
                        None => old(self).db()[handle@].tag == 0,
                    }
                },
                Err(e) => final(self).unfound(old(self), handle, e),
            },
    {
        match self.txm.tag(handle.get()) {
            Ok(tag) => Ok(Tag::new(tag)),
            Err(e) => Err(e),
        }
    }

    /// The client byte of a handle; 0 if it was never set.
    pub fn client_byte(&mut self, handle: Handle) -> (outcome: Result<u8, ChiselError>)
        requires
            old(self).inv(),
        ensures
            final(self).peeked(old(self)),
            old(self).manager().spoiled() ==> (outcome matches Err(e) && e is Poisoned),
            !old(self).manager().spoiled() ==> match outcome {
                Ok(byte) => {
                    &&& !final(self).manager().spoiled()
                    &&& old(self).db().contains_key(handle@)
                    &&& byte == old(self).db()[handle@].byte
                },
                Err(e) => final(self).unfound(old(self), handle, e),
            },
    {
        self.txm.client_byte(handle.get())
    }

    /// Set the client byte of a handle.
    pub fn set_client_byte(&mut self, handle: Handle, byte: u8) -> (outcome: Result<(), ChiselError>)
        requires
            old(self).inv(),
            old(self).barred() is None ==> old(self).manager().room(table_set_pages()),
        ensures
            final(self).only_data(old(self)),
            old(self).barred() matches Some(b) ==> outcome == Err::<(), ChiselError>(b) && *final(self) == *old(self),
            old(self).barred() is None ==> match outcome {
                Ok(_) => {
                    let before = old(self).db()[handle@];
                    &&& old(self).db().contains_key(handle@)
                    &&& final(self).db() == old(self).db().insert(
                        handle@,
                        (Record { value: before.value, tag: before.tag, byte }),
                    )
                    &&& final(self).manager().keeps_account(&old(self).manager(), table_set_pages())
                    &&& final(self).names() == old(self).names()
                    &&& final(self).manager().next_handle() == old(self).manager().next_handle()
                },
                Err(e) => {
                    &&& final(self).manager().kept(&old(self).manager())
                    &&& refused(
                        &old(self).manager().current(),
                        &final(self).manager().current(),
                        handle@,
                        e,
                        table_set_pages(),
                    )
                },
            },
    {
        self.txm.set_client_byte(handle.get(), byte)
    }

    /// The handles that carry a tag, in ascending order.
    pub fn handles_with_tag(&mut self, tag: Tag) -> (outcome: Result<Vec<Handle>, ChiselError>)
        requires
            old(self).inv(),
        ensures
            final(self).peeked(old(self)),
            old(self).manager().spoiled() ==> (outcome matches Err(e) && e is Poisoned),
            !old(self).manager().spoiled() ==> match outcome {
                Ok(list) => {
                    &&& !final(self).manager().spoiled()
                    &&& ascending(views(list@))
                    &&& forall|h: u64| #[trigger]
                        views(list@).contains(h) <==> h < u64::MAX && old(self).manager().indexed(tag@, h)
                    &&& old(self).manager().vetted() || old(self).manager().storage_sound() ==> forall|h: u64| #[trigger]
                        views(list@).contains(h) <==> old(self).manager().tagged_handles(tag@).contains(h)
                },
                Err(e) => final(self).manager().unlisted_tag(&old(self).manager(), tag@, e),
            },
    {
        match self.txm.handles_with_tag(tag.get()) {
            Ok(list) => Ok(to_handles(&list)),
            Err(e) => Err(e),
        }
    }

    /// The value of a handle.
    pub fn read(&mut self, handle: Handle) -> (outcome: Result<Vec<u8>, ChiselError>)
        requires
            old(self).inv(),
        ensures
            final(self).peeked(old(self)),
            old(self).manager().spoiled() ==> (outcome matches Err(e) && e is Poisoned),
            !old(self).manager().spoiled() ==> match outcome {
                Ok(value) => {
                    &&& !final(self).manager().spoiled()
                    &&& old(self).db().contains_key(handle@)
                    &&& value@ == old(self).db()[handle@].value
                },
                Err(e) => final(self).unread(old(self), handle, e),
            },
    {
        self.txm.read(handle.get())
    }

    /// Replace the value of a handle. Its tag and client byte stay.
    pub fn update(&mut self, handle: Handle, value: &[u8]) -> (outcome: Result<(), ChiselError>)
        requires
            old(self).inv(),
            old(self).barred() is None ==> old(self).manager().room(update_pages(value@.len())),
        ensures
            final(self).only_data(old(self)),
            old(self).barred() matches Some(b) ==> outcome == Err::<(), ChiselError>(b) && *final(self) == *old(self),
            old(self).barred() is None ==> match outcome {
                Ok(_) => {
                    let before = old(self).db()[handle@];
                    &&& old(self).db().contains_key(handle@)
                    &&& final(self).db() == old(self).db().insert(
                        handle@,
                        (Record { value: value@, tag: before.tag, byte: before.byte }),
                    )
                    &&& newly_placed(
                        &old(self).manager().current(),
                        &final(self).manager().current(),
                        handle@,
                        value@.len(),
                    )
                    &&& gave_back(&old(self).manager().current(), &final(self).manager().current(), handle@)
                    &&& final(self).manager().keeps_account(&old(self).manager(), update_pages(value@.len()))
                    &&& final(self).names() == old(self).names()
                    &&& final(self).manager().next_handle() == old(self).manager().next_handle()
                },
                Err(e) => {
                    &&& final(self).manager().kept(&old(self).manager())
                    &&& refused(
                        &old(self).manager().current(),
                        &final(self).manager().current(),
                        handle@,
                        e,
                        update_pages(value@.len()),
                    )
                },
            },
    {
        self.txm.update(handle.get(), value)
    }

    /// Take a handle and its value away.
    pub fn delete(&mut self, handle: Handle) -> (outcome: Result<(), ChiselError>)
        requires
            old(self).inv(),
            old(self).barred() is None ==> old(self).manager().room(delete_pages()),
        ensures
            final(self).only_data(old(self)),
            old(self).barred() matches Some(b) ==> outcome == Err::<(), ChiselError>(b) && *final(self) == *old(self),
            old(self).barred() is None ==> match outcome {
                Ok(_) => {
                    &&& old(self).db().contains_key(handle@)
                    &&& final(self).db() == old(self).db().remove(handle@)
                    &&& gave_back(&old(self).manager().current(), &final(self).manager().current(), handle@)
                    &&& ({
                        let tag = old(self).db()[handle@].tag;
                        tag == 0 || still_tagged(&final(self).manager().current(), tag)
                    }) ==> final(self).manager().keeps_account(&old(self).manager(), delete_pages())
                    &&& final(self).names() == old(self).names()
                    &&& final(self).manager().next_handle() == old(self).manager().next_handle()
                },
                Err(e) => {
                    &&& final(self).manager().kept(&old(self).manager())
                    &&& refused(
                        &old(self).manager().current(),
                        &final(self).manager().current(),
                        handle@,
                        e,
                        delete_pages(),
                    )
                },
            },
    {
        self.txm.delete(handle.get())
    }

    /// Take a handle away if it carries a tag.
    pub fn delete_tagged(&mut self, handle: Handle, tag: Tag) -> (outcome: Result<(), ChiselError>)
        requires
            old(self).inv(),
            old(self).barred() is None ==> old(self).manager().room(delete_pages()),
        ensures
            final(self).only_data(old(self)),
            old(self).barred() matches Some(b) ==> outcome == Err::<(), ChiselError>(b) && *final(self) == *old(self),
            old(self).barred() is None ==> match outcome {
                Ok(_) => {
                    &&& old(self).db().contains_key(handle@)
                    &&& old(self).db()[handle@].tag == tag@
                    &&& final(self).db() == old(self).db().remove(handle@)
                    &&& gave_back(&old(self).manager().current(), &final(self).manager().current(), handle@)
                    &&& final(self).names() == old(self).names()
                    &&& final(self).manager().next_handle() == old(self).manager().next_handle()
                },
                Err(e) => {
                    let actual = old(self).db()[handle@].tag;
                    &&& final(self).manager().kept(&old(self).manager())
                    &&& if old(self).db().contains_key(handle@) && actual != tag@ {
                        e == (ChiselError::TagMismatch { handle: handle@, expected: tag@, actual }) || overrun(
                            &old(self).manager().current().cache,
                            &final(self).manager().current().cache,
                            e,
                            0,
                        )
                    } else {
                        refused(
                            &old(self).manager().current(),
                            &final(self).manager().current(),
                            handle@,
                            e,
                            delete_pages(),
                        )
                    }
                },
            },
    {
        self.txm.delete_tagged(handle.get(), tag.get())
    }

    /// Take up to `max` handles that carry a tag away, the lowest first.
    pub fn delete_with_tag(&mut self, tag: Tag, max: usize) -> (outcome: Result<TagDropProgress, ChiselError>)
        requires
            old(self).inv(),
            old(self).barred() is None ==> old(self).manager().room(
                deletes_pages(old(self).manager().tagged_handles(tag@).len()),
            ) || old(self).manager().room(deletes_pages(max as nat)),
        ensures
            final(self).only_data(old(self)),
            old(self).barred() matches Some(b) ==> outcome == Err::<TagDropProgress, ChiselError>(b) && *final(self)
                == *old(self),
            old(self).barred() is None ==> {
                let all = old(self).manager().tagged_handles(tag@);
                &&& final(self).names() == old(self).names()
                &&& final(self).manager().next_handle() == old(self).manager().next_handle()
                &&& match outcome {
                    Ok(progress) => {
                        let deleted = views(progress.deleted@);
                        &&& ascending(deleted)
                        &&& deleted.len() <= max
                        &&& final(self).db() == old(self).db().remove_keys(deleted.to_set())
                        &&& forall|h: u64| #[trigger] deleted.contains(h) ==> all.contains(h)
                        &&& forall|h: u64| #[trigger]
                            all.contains(h) && !deleted.contains(h) ==> deleted.len() == max && forall|k: u64| #[trigger]
                                deleted.contains(k) ==> k < h
                        &&& progress.complete == (max > 0 && final(self).manager().tagged_handles(tag@) == Set::<
                            u64,
                        >::empty())
                    },
                    Err(e) => {
                        &&& overrun(&old(self).manager().current().cache, &final(self).manager().current().cache, e, deletes_pages(all.len())) || overrun(
                            &old(self).manager().current().cache, &final(self).manager().current().cache,
                            e,
                            deletes_pages(max as nat),
                        )
                        &&& exists|gone: Set<u64>|
                            gone.subset_of(all) && final(self).db() == #[trigger] old(self).db().remove_keys(gone)
                    },
                }
            },
    {
        match self.txm.delete_with_tag(tag.get(), max) {
            Ok((ids, complete)) => Ok(TagDropProgress { deleted: to_handles(&ids), complete }),
            Err(e) => {
                proof {
                    let before = old(self).txm;
                    if before.barred() is None {
                        let gone = choose|gone: Set<u64>|
                            gone.subset_of(before.tagged_handles(tag@)) && self.txm.db()
                                == #[trigger] before.db().remove_keys(gone);
                        assert(self.db() == old(self).db().remove_keys(gone));
                    }
                }
                Err(e)
            },
        }
    }

    /// Take handles away, one after the other. Those before a failure stay away.
    pub fn delete_many(&mut self, handles: &[Handle]) -> (outcome: Result<(), ChiselError>)
        requires
            old(self).inv(),
            old(self).barred() is None ==> old(self).manager().room(deletes_pages(handles@.len())),
        ensures
            final(self).only_data(old(self)),
            old(self).barred() matches Some(b) ==> outcome == Err::<(), ChiselError>(b) && *final(self) == *old(self),
            old(self).barred() is None ==> {
                let raw = views(handles@);
                &&& final(self).names() == old(self).names()
                &&& final(self).manager().next_handle() == old(self).manager().next_handle()
                &&& match outcome {
                    Ok(_) => {
                        &&& final(self).db() == without(old(self).db(), raw, raw.len() as int)
                        &&& forall|i: int|
                            0 <= i < raw.len() ==> without(old(self).db(), raw, i).contains_key(#[trigger] raw[i])
                    },
                    Err(e) => exists|k: int| #[trigger]
                        stopped_at(&old(self).manager(), &final(self).manager(), raw, k, e),
                }
            },
    {
        let raw: Vec<u64> = raw_handles(handles);
        assert(raw@ =~= views(handles@));
        let outcome = self.txm.delete_many(raw.as_slice());
        proof {
            let before = old(self).txm;
            if before.barred() is None && outcome is Err {
                let e = outcome->Err_0;
                let k = choose|k: int| #[trigger] stopped_at(&before, &self.txm, raw@, k, e);
                assert(stopped_at(&old(self).manager(), &self.manager(), views(handles@), k, e));
            }
        }
        outcome
    }

    /// Let a name stand for a handle.
    pub fn set_root_name(&mut self, name: &str, handle: Handle) -> (outcome: Result<(), ChiselError>)
        requires
            old(self).inv(),
        ensures
            final(self).only_data(old(self)),
            old(self).barred() matches Some(b) ==> outcome == Err::<(), ChiselError>(b) && *final(self) == *old(self),
            old(self).barred() is None ==> {
                let key = padded(encode_utf8(name@));
                let full = !old(self).names().contains_key(key) && old(self).names().dom().len() == NAMED_ROOT_COUNT;
                &&& final(self).db() == old(self).db()
                &&& final(self).manager().next_handle() == old(self).manager().next_handle()
                &&& match outcome {
                    Ok(_) => {
                        &&& name_valid(encode_utf8(name@))
                        &&& !full
                        &&& final(self).names() == old(self).names().insert(key, handle@)
                    },
                    Err(e) => {
                        &&& final(self).names() == old(self).names()
                        &&& if name_valid(encode_utf8(name@)) {
                            full && e is RootNameTableFull
                        } else {
                            e is InvalidRootName
                        }
                    },
                }
            },
    {
        self.txm.set_root_name(name, handle.get())
    }

    /// The handle that a name stands for.
    pub fn get_root_name(&self, name: &str) -> (outcome: Result<Option<Handle>, ChiselError>)
        ensures
            self.manager().spoiled() ==> (outcome matches Err(e) && e is Poisoned),
            !self.manager().spoiled() ==> {
                let key = padded(encode_utf8(name@));
                match outcome {
                    Ok(found) => name_valid(encode_utf8(name@)) && match found {
                        Some(h) => self.names().contains_key(key) && h@ == self.names()[key],
                        None => !self.names().contains_key(key),
                    },
                    Err(e) => !name_valid(encode_utf8(name@)) && e is InvalidRootName,
                }
            },
    {
        match self.txm.get_root_name(name) {
            Ok(Some(handle)) => {
                proof {
                    Handle::lemma_of_view(handle);
                }
                Ok(Some(Handle::from(handle)))
            },
            Ok(None) => Ok(None),
            Err(e) => Err(e),
        }
    }

    /// Let a name stand for nothing.
    pub fn clear_root_name(&mut self, name: &str) -> (outcome: Result<(), ChiselError>)
        requires
            old(self).inv(),
        ensures
            final(self).only_data(old(self)),
            old(self).barred() matches Some(b) ==> outcome == Err::<(), ChiselError>(b) && *final(self) == *old(self),
            old(self).barred() is None ==> {
                &&& final(self).db() == old(self).db()
                &&& final(self).manager().next_handle() == old(self).manager().next_handle()
                &&& match outcome {
                    Ok(_) => {
                        &&& name_valid(encode_utf8(name@))
                        &&& final(self).names() == old(self).names().remove(padded(encode_utf8(name@)))
                    },
                    Err(e) => {
                        &&& !name_valid(encode_utf8(name@))
                        &&& e is InvalidRootName
                        &&& final(self).names() == old(self).names()
                    },
                }
            },
    {
        self.txm.clear_root_name(name)
    }

    /// All handles, in ascending order.
    pub fn handles(&mut self) -> (outcome: Result<Vec<Handle>, ChiselError>)
        requires
            old(self).inv(),
        ensures
            final(self).peeked(old(self)),
            old(self).manager().spoiled() ==> (outcome matches Err(e) && e is Poisoned),
            !old(self).manager().spoiled() ==> match outcome {
                Ok(list) => {
                    &&& !final(self).manager().spoiled()
                    &&& ascending(views(list@))
                    &&& forall|h: u64| #[trigger] views(list@).contains(h) <==> old(self).db().contains_key(h)
                },
                Err(e) => final(self).manager().unlisted(&old(self).manager(), e),
            },
    {
        match self.txm.handles() {
            Ok(list) => Ok(to_handles(&list)),
            Err(e) => Err(e),
        }
    }

    /// A summary of the database.
    pub fn stats(&mut self) -> (outcome: Result<Stats, ChiselError>)
        requires
            old(self).inv(),
        ensures
            final(self).peeked(old(self)),
            old(self).manager().spoiled() ==> (outcome matches Err(e) && e is Poisoned),
            !old(self).manager().spoiled() ==> match outcome {
                Ok(stats) => {
                    let cache = final(self).manager().current().cache;
                    &&& !final(self).manager().spoiled()
                    &&& stats.handle_count == old(self).db().dom().len()
                    &&& stats.total_pages == cache.disk().len()
                    &&& stats.file_size_bytes == byte_size(cache.disk().len())
                    &&& stats.spillway_logical_bytes is Some <==> cache.has_spillway()
                    &&& stats.spillway_logical_bytes matches Some(used) ==> used == byte_size(
                        cache.spill_order().len(),
                    )
                    &&& stats.spillway_max_bytes == (if cache.has_spillway() {
                        Some(cache.spill_limit())
                    } else {
                        None
                    })
                },
                Err(e) => final(self).manager().unlisted(&old(self).manager(), e),
            },
    {
        let handles: Vec<u64> = match self.txm.handles() {
            Ok(handles) => handles,
            Err(e) => {
                return Err(e);
            },
        };
        proof {
            lemma_handle_count(old(self).db(), handles@);
        }
        let page_count: u64 = match self.txm.file_page_count() {
            Ok(page_count) => page_count,
            Err(e) => {
                return Err(e);
            },
        };
        let usage: Option<(u64, u64)> = match self.txm.spillway_capacity() {
            Ok(usage) => usage,
            Err(e) => {
                return Err(e);
            },
        };
        let (logical, limit): (Option<u64>, Option<u64>) = match usage {
            Some((used, limit)) => (Some(used), Some(limit)),
            None => (None, None),
        };
        Ok(
            Stats {
                handle_count: handles.len() as u64,
                total_pages: page_count,
                file_size_bytes: pages_to_bytes(page_count),
                spillway_logical_bytes: logical,
                spillway_max_bytes: limit,
            },
        )
    }

    /// What has been done since the database was opened.
    pub fn counters(&self) -> (outcome: Result<ChiselCounters, ChiselError>)
        ensures
            self.manager().spoiled() ==> (outcome matches Err(e) && e is Poisoned),
            !self.manager().spoiled() ==> (outcome matches Ok(counters) && {
                &&& counters.cache_hits == self.manager().current().cache.hits()
                &&& counters.cache_misses == self.manager().current().cache.misses()
                &&& counters.pages_allocated == self.manager().current().cache.allocations()
                &&& counters.fsync_calls == self.manager().current().cache.storage().syncs()
            }),
    {
        self.txm.counters()
    }

    /// Size of the storage in bytes; saturates.
    pub fn file_size_bytes(&self) -> (outcome: Result<u64, ChiselError>)
        ensures
            self.manager().spoiled() ==> (outcome matches Err(e) && e is Poisoned),
            !self.manager().spoiled() ==> (outcome matches Ok(size) && size == byte_size(
                self.manager().current().cache.disk().len(),
            )),
    {
        match self.txm.file_page_count() {
            Ok(pages) => Ok(pages_to_bytes(pages)),
            Err(e) => Err(e),
        }
    }

    /// A failure was for good.
    pub fn is_poisoned(&self) -> (poisoned: bool)
        ensures
            poisoned == self.manager().spoiled(),
    {
        self.txm.is_poisoned()
    }

    /// How full each data page is that holds a value.
    pub fn page_fill(&mut self) -> (outcome: Result<Vec<PageFill>, ChiselError>)
        requires
            old(self).inv(),
        ensures
            final(self).peeked(old(self)),
            old(self).barred() matches Some(b) ==> outcome == Err::<Vec<PageFill>, ChiselError>(b) && *final(self)
                == *old(self),
            old(self).barred() is None ==> match outcome {
                Ok(list) => {
                    let before = old(self).manager();
                    &&& ascending(Seq::new(list@.len(), |i: int| list@[i].page))
                    &&& forall|i: int|
                        0 <= i < list@.len() ==> {
                            let fill = #[trigger] list@[i];
                            &&& before.data_pages().contains(fill.page)
                            &&& fill.live == before.current().live@[fill.page]
                            &&& fill.stored == crate::data_page::slot_count_of(
                                crate::radix::page_at(before.current().cache.contents(), fill.page),
                            )
                        }
                    &&& Seq::new(list@.len(), |i: int| list@[i].page).to_set() == before.data_pages()
                },
                Err(e) => old(self).manager().overfull(e),
            },
    {
        self.txm.page_fill()
    }

    /// Move values off sparse data pages, up to `max_values` of them; 0 means no
    /// limit.
    pub fn defrag(&mut self, sparse: &Vec<u64>, max_values: usize) -> (outcome: Result<DefragStats, ChiselError>)
        requires
            old(self).inv(),
            old(self).barred() is None ==> old(self).manager().room(moves_pages(old(self).db().dom().len())),
        ensures
            old(self).barred() matches Some(b) ==> outcome == Err::<DefragStats, ChiselError>(b) && *final(self)
                == *old(self),
            old(self).barred() is None ==> {
                &&& data_kept(&old(self).manager(), &final(self).manager())
                &&& outcome matches Ok(stats) ==> max_values > 0 ==> stats.values_moved <= max_values
                &&& match outcome {
                    Ok(stats) => exists|list: Seq<u64>|
                        #[trigger] all_handles(&old(self).manager(), list) && swept(
                            &old(self).manager(),
                            &final(self).manager(),
                            list,
                            sparse@.to_set(),
                            max_values as nat,
                            stats,
                        ),
                    Err(e) => overrun(
                        &old(self).manager().current().cache, &final(self).manager().current().cache,
                        e,
                        moves_pages(old(self).db().dom().len()),
                    ),
                }
            },
    {
        defrag(&mut self.txm, sparse, max_values)
    }

    /// Set how many bytes the cache may hold.
    pub fn set_cache_max_bytes(&mut self, bytes: u64) -> (outcome: Result<(), ChiselError>)
        requires
            old(self).inv(),
            bytes / (PAGE_SIZE as u64) <= usize::MAX,
        ensures
            final(self).inv(),
            old(self).manager().busy() matches Some(b) ==> outcome == Err::<(), ChiselError>(b) && *final(self) == *old(self),
            old(self).manager().busy() is None ==> {
                let (before, after) = (old(self).manager().current().cache, final(self).manager().current().cache);
                &&& outcome is Ok
                &&& final(self).manager().resized(&old(self).manager())
                &&& after.page_limit() == page_limit_of(bytes)
                &&& after.order() == trimmed(before.order(), before.dirty(), before.order().len() - page_limit_of(bytes))
                &&& after.spill_limit() == before.spill_limit()
                &&& after.policy() == before.policy()
            },
    {
        self.txm.set_cache_max_bytes(bytes)
    }

    /// Set how many bytes may be spilled; 0 disables the spillway.
    pub fn set_spillway_max_bytes(&mut self, bytes: u64) -> (outcome: Result<(), ChiselError>)
        requires
            old(self).inv(),
        ensures
            final(self).inv(),
            old(self).manager().busy() matches Some(b) ==> outcome == Err::<(), ChiselError>(b) && *final(self) == *old(self),
            old(self).manager().busy() is None ==> {
                let (before, after) = (old(self).manager().current().cache, final(self).manager().current().cache);
                &&& outcome is Ok
                &&& final(self).manager().resized(&old(self).manager())
                &&& after.page_limit() == before.page_limit()
                &&& after.spill_limit() == bytes
                &&& after.policy() == before.policy()
            },
    {
        self.txm.set_spillway_max_bytes(bytes)
    }

    /// Set where pages go that a commit brings back from the spillway.
    pub fn set_drain_insertion(&mut self, policy: DrainInsertion) -> (outcome: Result<(), ChiselError>)
        requires
            old(self).inv(),
        ensures
            final(self).inv(),
            old(self).manager().busy() matches Some(b) ==> outcome == Err::<(), ChiselError>(b) && *final(self) == *old(self),
            old(self).manager().busy() is None ==> {
                let (before, after) = (old(self).manager().current().cache, final(self).manager().current().cache);
                &&& outcome is Ok
                &&& final(self).manager().resized(&old(self).manager())
                &&& after.page_limit() == before.page_limit()
                &&& after.spill_limit() == before.spill_limit()
                &&& after.policy() == policy
            },
    {
        self.txm.set_drain_insertion(policy)
    }

    /// Take what was done to the storage since it was last asked for.
    pub fn take_journal(&mut self) -> (outcome: Result<Vec<IoAction>, ChiselError>)
        requires
            old(self).inv(),
        ensures
            final(self).inv(),
            old(self).manager().busy() matches Some(b) ==> outcome == Err::<Vec<IoAction>, ChiselError>(b)
                && *final(self) == *old(self),
            old(self).manager().busy() is None ==> {
                &&& final(self).manager().resized(&old(self).manager())
                &&& outcome matches Ok(actions) && actions@
                    == old(self).manager().current().cache.storage().recorded()
                &&& final(self).manager().current().cache.storage().recorded().len() == 0
                &&& old(self).manager().current().cache.storage().is_file_image()
                    ==> final(self).manager().current().cache.storage().base()
                    == old(self).manager().current().cache.disk()
                &&& final(self).manager().current().cache.page_limit() == old(
                    self,
                ).manager().current().cache.page_limit()
                &&& final(self).manager().current().cache.spill_limit() == old(
                    self,
                ).manager().current().cache.spill_limit()
                &&& final(self).manager().current().cache.policy() == old(self).manager().current().cache.policy()
            },
    {
        self.txm.take_journal()
    }

    /// Take note of whether what was done to the storage could be carried out where
    /// it is kept. After a failure the database can no longer be used.
    pub fn settle_journal(&mut self, carried: Result<(), std::io::Error>) -> (outcome: Result<(), ChiselError>)
        requires
            old(self).inv(),
        ensures
            final(self).inv(),
            final(self).db() == old(self).db(),
            final(self).committed_db() == old(self).committed_db(),
            match carried {
                Ok(_) => outcome is Ok && *final(self) == *old(self),
                Err(e) => final(self).manager().spoiled() && outcome == Err::<(), ChiselError>(io_failure(e)),
            },
    {
        self.txm.settle_journal(carried)
    }

    /// Says why nothing can be changed, if that is so.
    pub fn check_active(&self) -> (outcome: Result<(), ChiselError>)
        ensures
            match outcome {
                Ok(_) => self.barred() is None,
                Err(e) => self.barred() == Some(e),
            },
    {
        self.txm.check_active()
    }

    /// A value of this length can be stored, and smaller changes be made, without
    /// page ids or handles running out.
    pub fn has_room_for(&self, length: usize) -> (fits: bool)
        requires
            self.inv(),
            !self.manager().spoiled(),
        ensures
            fits ==> self.manager().next_handle() < u64::MAX,
            fits ==> forall|tag: u32| #[trigger] self.manager().room(allocate_pages(length as nat, tag)),
            fits ==> self.manager().room(update_pages(length as nat)),
            fits ==> self.manager().room(delete_pages()),
            fits ==> self.manager().room(table_set_pages()),
            self.manager().next_handle() < u64::MAX && self.manager().room((length / OVERFLOW_PAYLOAD + 1000) as nat)
                ==> fits,
    {
        self.txm.has_room_for(length)
    }

    /// So many values can be deleted or moved without page ids running out.
    pub fn has_room_for_changes(&self, count: u64) -> (fits: bool)
        ensures
            fits ==> self.manager().room(deletes_pages(count as nat)),
            fits ==> self.manager().room(moves_pages(count as nat)),
            self.manager().room((count * 1000) as nat) ==> fits,
    {
        match count.checked_mul(1000) {
            Some(pages) => {
                proof {
                    assert(count * delete_pages() <= count * 1000) by (nonlinear_arith)
                        requires
                            delete_pages() <= 1000,
                    ;
                    assert(count * move_pages() <= count * 1000) by (nonlinear_arith)
                        requires
                            move_pages() <= 1000,
                    ;
                }
                self.txm.has_room_for_pages(pages)
            },
            None => false,
        }
    }

    /// So many more pages can be added without page ids running out.
    pub fn has_room_for_pages(&self, pages: u64) -> (fits: bool)
        ensures
            fits == self.manager().room(pages as nat),
    {
        self.txm.has_room_for_pages(pages)
    }

    /// The transaction can be committed without page ids or counters running out.
    pub fn has_commit_room(&self) -> (fits: bool)
        ensures
            fits ==> self.manager().commit_room(),
            self.manager().commits() < u64::MAX && self.manager().current().freed@.len()
                + self.manager().current().deferred@.len() <= 0x1_0000_0000 && self.manager().current().cache.watermark()
                + 0xC_0000_0000 <= usize::MAX ==> fits,
    {
        self.txm.has_commit_room()
    }
}

impl Chisel {
    /// Why the keys of the database cannot be changed. No database has any: pages
    /// are stored as they are.
    pub open spec fn keyless(&self) -> ChiselError {
        if self.manager().spoiled() {
            ChiselError::Poisoned
        } else if self.manager().running() {
            ChiselError::TransactionInProgress
        } else if self.manager().current().cache.storage().spec_read_only() {
            ChiselError::ReadOnlyMode
        } else {
            ChiselError::EncryptionNotSupported
        }
    }

    /// Say why the keys cannot be changed.
    fn refuse_keys(&self) -> (e: ChiselError)
        ensures
            e == self.keyless(),
    {
        match self.txm.check_writable() {
            Ok(_) => ChiselError::EncryptionNotSupported,
            Err(e) => e,
        }
    }

    /// Add a key that opens the database; refused, as there is no encryption.
    pub fn add_key(&mut self, existing: &Key, new: &Key) -> (outcome: Result<(), ChiselError>)
        ensures
            *final(self) == *old(self),
            outcome == Err::<(), ChiselError>(old(self).keyless()),
    {
        Err(self.refuse_keys())
    }

    /// Replace a key that opens the database; refused, as there is no encryption.
    pub fn rotate_key(&mut self, old_key: &Key, new: &Key) -> (outcome: Result<(), ChiselError>)
        ensures
            *final(self) == *old(self),
            outcome == Err::<(), ChiselError>(old(self).keyless()),
    {
        Err(self.refuse_keys())
    }

    /// Take away a key that opens the database; refused, as there is no encryption.
    pub fn remove_key(&mut self, key: &Key) -> (outcome: Result<(), ChiselError>)
        ensures
            *final(self) == *old(self),
            outcome == Err::<(), ChiselError>(old(self).keyless()),
    {
        Err(self.refuse_keys())
    }
}

/// A list of all handles is as long as there are handles.
proof fn lemma_handle_count(db: Map<u64, Record>, list: Seq<u64>)
    requires
        ascending(list),
        forall|h: u64| #[trigger] list.contains(h) <==> db.contains_key(h),
    ensures
        list.len() == db.dom().len(),
{
    assert(list.no_duplicates());
    list.unique_seq_to_set();
    assert(list.to_set() =~= db.dom()) by {
        assert forall|h: u64| list.to_set().contains(h) == db.dom().contains(h) by {
            assert(list.contains(h) <==> db.contains_key(h));
        }
    }
}

} // verus!
