//! Page storage: a sequence of pages that is read, written, resized and
//! synced by page id.
//!
//! A [`PageIo`] is either purely in memory, or the image of a database file.
//! The image of a file also keeps a journal of what was done to it, in order;
//! the owner of the file takes the journal and performs the same actions on
//! the file.

use vstd::prelude::*;

use crate::error::ChiselError;
use crate::page::{zeroed, PAGE_SIZE};

verus! {

/// A page full of zeros.
pub open spec fn zero_page() -> Seq<u8> {
    Seq::new(PAGE_SIZE as nat, |i: int| 0u8)
}

/// `pages` cut off or padded with zero pages to length `n`.
pub open spec fn resized(pages: Seq<Seq<u8>>, n: nat) -> Seq<Seq<u8>> {
    Seq::new(
        n,
        |i: int|
            if i < pages.len() {
                pages[i]
            } else {
                zero_page()
            },
    )
}

/// `pages` after `bytes` was written at `id`; a write past the end extends.
pub open spec fn written(pages: Seq<Seq<u8>>, id: u64, bytes: Seq<u8>) -> Seq<Seq<u8>> {
    let n: nat = if id < pages.len() {
        pages.len()
    } else {
        (id + 1) as nat
    };
    resized(pages, n).update(id as int, bytes)
}

/// A number that counts events, one later. It starts over at 0 after
/// `u64::MAX`.
pub open spec fn bumped(n: u64) -> u64 {
    if n == u64::MAX {
        0
    } else {
        (n + 1) as u64
    }
}

/// Count one more event.
pub fn bump(n: u64) -> (m: u64)
    ensures
        m == bumped(n),
{
    if n == u64::MAX {
        0
    } else {
        n + 1
    }
}

/// One thing that was done to a file image.
pub enum IoAction {
    /// A page was written.
    Write { page_id: u64, bytes: Box<[u8; PAGE_SIZE]> },
    /// The file was cut off or extended.
    SetPageCount { count: u64 },
    /// Everything so far must be durable before anything that follows.
    Sync,
}

impl IoAction {
    /// The effect of the action on the pages of a file.
    pub open spec fn apply(self, pages: Seq<Seq<u8>>) -> Seq<Seq<u8>> {
        match self {
            IoAction::Write { page_id, bytes } => written(pages, page_id, bytes@),
            IoAction::SetPageCount { count } => resized(pages, count as nat),
            IoAction::Sync => pages,
        }
    }
}

impl IoAction {
    /// The action writes these bytes to a page.
    pub open spec fn writes(self, id: u64, contents: Seq<u8>) -> bool {
        self matches IoAction::Write { page_id, bytes } && page_id == id && bytes@ == contents
    }

    /// The action writes nothing but these contents to these pages.
    pub open spec fn stays_within(self, pages: Map<u64, Seq<u8>>) -> bool {
        match self {
            IoAction::Write { page_id, bytes } => pages.contains_key(page_id) && pages[page_id] == bytes@,
            IoAction::SetPageCount { count } => false,
            IoAction::Sync => true,
        }
    }

    /// The action does nothing to pages other than these.
    pub open spec fn spares_all_but(self, ids: Set<u64>) -> bool {
        match self {
            IoAction::Write { page_id, bytes } => ids.contains(page_id),
            IoAction::SetPageCount { count } => false,
            IoAction::Sync => true,
        }
    }
}

/// Between two states of a file image, nothing but these contents were written to
/// these pages.
pub open spec fn wrote(a: &PageIo, b: &PageIo, pages: Map<u64, Seq<u8>>) -> bool {
    a.is_file_image() ==> {
        &&& b.follows(a)
        &&& forall|i: int|
            a.recorded().len() <= i < b.recorded().len() ==> (#[trigger] b.recorded()[i]).stays_within(pages)
    }
}

/// Between two states of a file image, only these pages were written.
pub open spec fn wrote_only(a: &PageIo, b: &PageIo, ids: Set<u64>) -> bool {
    a.is_file_image() ==> {
        &&& b.follows(a)
        &&& forall|i: int|
            a.recorded().len() <= i < b.recorded().len() ==> (#[trigger] b.recorded()[i]).spares_all_but(ids)
    }
}

/// Nothing was done.
pub proof fn lemma_wrote_none(a: &PageIo, pages: Map<u64, Seq<u8>>)
    ensures
        wrote(a, a, pages),
{
    assert(a.recorded().take(a.recorded().len() as int) =~= a.recorded());
}

/// A page was written.
pub proof fn lemma_wrote_one(a: &PageIo, b: &PageIo, id: u64, contents: Seq<u8>)
    requires
        b.same_mode(a),
        a.is_file_image() ==> b.recorded() == a.recorded().push(b.recorded().last()) && b.recorded().last().writes(
            id,
            contents,
        ),
    ensures
        wrote(a, b, Map::<u64, Seq<u8>>::empty().insert(id, contents)),
{
    if a.is_file_image() {
        assert(b.recorded().take(a.recorded().len() as int) =~= a.recorded());
    }
}

/// A sync was done.
pub proof fn lemma_wrote_sync(a: &PageIo, b: &PageIo, pages: Map<u64, Seq<u8>>)
    requires
        b.same_mode(a),
        a.is_file_image() ==> b.recorded() == a.recorded().push(IoAction::Sync),
    ensures
        wrote(a, b, pages),
        a.is_file_image() ==> b.synced_since(a),
{
    if a.is_file_image() {
        assert(b.recorded().take(a.recorded().len() as int) =~= a.recorded());
    }
}

/// What was done in two stretches.
pub proof fn lemma_wrote_chain(
    a: &PageIo,
    b: &PageIo,
    c: &PageIo,
    x: Map<u64, Seq<u8>>,
    y: Map<u64, Seq<u8>>,
    all: Map<u64, Seq<u8>>,
)
    requires
        wrote(a, b, x),
        wrote(b, c, y),
        x.submap_of(all),
        y.submap_of(all),
    ensures
        wrote(a, c, all),
{
    if a.is_file_image() {
        let n = a.recorded().len() as int;
        let m = b.recorded().len() as int;
        assert(c.recorded().take(n) =~= c.recorded().take(m).take(n));
        assert forall|i: int| n <= i < c.recorded().len() implies (#[trigger] c.recorded()[i]).stays_within(all) by {
            if i < m {
                assert(c.recorded().take(m)[i] == b.recorded()[i]);
            }
            if let IoAction::Write { page_id, bytes } = c.recorded()[i] {
                assert(x.dom().contains(page_id) || y.dom().contains(page_id));
            }
        }
    }
}

/// What was done in two stretches to pages of a set.
pub proof fn lemma_wrote_within(
    a: &PageIo,
    b: &PageIo,
    c: &PageIo,
    x: Map<u64, Seq<u8>>,
    y: Map<u64, Seq<u8>>,
    ids: Set<u64>,
)
    requires
        wrote(a, b, x),
        wrote(b, c, y),
        x.dom().subset_of(ids),
        y.dom().subset_of(ids),
    ensures
        wrote_only(a, c, ids),
{
    if a.is_file_image() {
        let n = a.recorded().len() as int;
        let m = b.recorded().len() as int;
        assert(c.recorded().take(n) =~= c.recorded().take(m).take(n));
        assert forall|i: int| n <= i < c.recorded().len() implies (#[trigger] c.recorded()[i]).spares_all_but(ids) by {
            if i < m {
                assert(c.recorded().take(m)[i] == b.recorded()[i]);
            }
            assert(c.recorded()[i].stays_within(x) || c.recorded()[i].stays_within(y));
            if let IoAction::Write { page_id, bytes } = c.recorded()[i] {
                assert(x.dom().contains(page_id) || y.dom().contains(page_id));
            }
        }
    }
}

/// The pages of a file after the actions, in order.
pub open spec fn replay(pages: Seq<Seq<u8>>, actions: Seq<IoAction>) -> Seq<Seq<u8>>
    decreases actions.len(),
{
    if actions.len() == 0 {
        pages
    } else {
        actions.last().apply(replay(pages, actions.drop_last()))
    }
}

/// The pages after one more action.
pub proof fn lemma_replay_next(pages: Seq<Seq<u8>>, actions: Seq<IoAction>, k: int)
    requires
        0 <= k < actions.len(),
    ensures
        replay(pages, actions.take(k + 1)) == actions[k].apply(replay(pages, actions.take(k))),
{
    assert(actions.take(k + 1).drop_last() =~= actions.take(k));
    assert(actions.take(k + 1).last() == actions[k]);
}

/// The contents of each page.
pub open spec fn page_bytes(pages: Seq<[u8; PAGE_SIZE]>) -> Seq<Seq<u8>> {
    Seq::new(pages.len(), |i: int| pages[i]@)
}

/// Page storage.
pub struct PageIo {
    pages: Vec<[u8; PAGE_SIZE]>,
    read_only: bool,
    fsync_calls: u64,
    journaled: bool,
    journal: Vec<IoAction>,
    base: Ghost<Seq<Seq<u8>>>,
}

impl PageIo {
    /// The journal leads from the pages at the last hand-over to the present
    /// pages; without a journal nothing is recorded.
    pub closed spec fn inv(&self) -> bool {
        if self.journaled {
            replay(self.base@, self.journal@) == page_bytes(self.pages@)
        } else {
            self.journal@.len() == 0
        }
    }

    /// The pages.
    pub closed spec fn pages(&self) -> Seq<Seq<u8>> {
        page_bytes(self.pages@)
    }

    /// Mutations are refused.
    pub closed spec fn spec_read_only(&self) -> bool {
        self.read_only
    }

    /// Number of successful syncs.
    pub closed spec fn syncs(&self) -> u64 {
        self.fsync_calls
    }

    /// This is the image of a file.
    pub closed spec fn is_file_image(&self) -> bool {
        self.journaled
    }

    /// The pages as they were when the journal was last taken.
    pub closed spec fn base(&self) -> Seq<Seq<u8>> {
        self.base@
    }

    /// What was done since then.
    pub closed spec fn recorded(&self) -> Seq<IoAction> {
        self.journal@
    }

    /// The last thing done since another state was a sync.
    pub open spec fn synced_since(&self, other: &PageIo) -> bool {
        self.recorded().len() > other.recorded().len() && self.recorded().last() is Sync
    }

    /// More may have been done than in the other state.
    pub open spec fn follows(&self, other: &PageIo) -> bool {
        &&& self.is_file_image()
        &&& self.base() == other.base()
        &&& other.recorded().len() <= self.recorded().len()
        &&& self.recorded().take(other.recorded().len() as int) == other.recorded()
    }

    /// Nothing but pages, sync count and journal differs.
    pub open spec fn same_mode(&self, other: &PageIo) -> bool {
        &&& self.spec_read_only() == other.spec_read_only()
        &&& self.is_file_image() == other.is_file_image()
        &&& self.base() == other.base()
    }

    /// Every page has the page size.
    pub proof fn lemma_pages(&self)
        requires
            self.inv(),
        ensures
            forall|i: int| 0 <= i < self.pages().len() ==> (#[trigger] self.pages()[i]).len() == PAGE_SIZE,
            self.pages().len() <= usize::MAX,
    {
        assert(self.pages.len() == self.pages@.len());
    }

    /// The journal, applied to the pages that it started from, gives the
    /// present pages: a file on which it is performed equals the image.
    pub proof fn law_journal_replays(&self)
        requires
            self.inv(),
            self.is_file_image(),
        ensures
            replay(self.base(), self.recorded()) == self.pages(),
    {
    }

    /// The image of a file with the given contents.
    pub fn open(pages: Vec<[u8; PAGE_SIZE]>, read_only: bool) -> (io: PageIo)
        ensures
            io.inv(),
            io.pages() == page_bytes(pages@),
            io.spec_read_only() == read_only,
            io.syncs() == 0,
            io.is_file_image(),
            io.base() == io.pages(),
            io.recorded().len() == 0,
    {
        let ghost base = page_bytes(pages@);
        PageIo { pages, read_only, fsync_calls: 0, journaled: true, journal: Vec::new(), base: Ghost(base) }
    }

    /// Empty storage in memory. It is not durable: dropping it discards all
    /// pages.
    pub fn open_in_memory() -> (outcome: Result<PageIo, ChiselError>)
        ensures
            match outcome {
                Ok(io) => {
                    &&& io.inv()
                    &&& io.pages().len() == 0
                    &&& !io.spec_read_only()
                    &&& io.syncs() == 0
                    &&& !io.is_file_image()
                    &&& io.base() == io.pages()
                    &&& io.recorded().len() == 0
                },
                Err(_) => false,
            },
    {
        Ok(
            PageIo {
                pages: Vec::new(),
                read_only: false,
                fsync_calls: 0,
                journaled: false,
                journal: Vec::new(),
                base: Ghost(Seq::empty()),
            },
        )
    }

    /// Whether mutations are refused.
    pub fn is_read_only(&self) -> (read_only: bool)
        ensures
            read_only == self.spec_read_only(),
    {
        self.read_only
    }

    /// Refuse mutations from now on.
    pub fn force_read_only(&mut self)
        requires
            old(self).inv(),
        ensures
            final(self).inv(),
            final(self).spec_read_only(),
            final(self).pages() == old(self).pages(),
            final(self).syncs() == old(self).syncs(),
            final(self).is_file_image() == old(self).is_file_image(),
            final(self).base() == old(self).base(),
            final(self).recorded() == old(self).recorded(),
    {
        self.read_only = true;
    }

    /// Read a page. An id past the end is `InvalidPageId`.
    pub fn read_page(&self, page_id: u64) -> (page: Result<[u8; PAGE_SIZE], ChiselError>)
        ensures
            match page {
                Ok(bytes) => page_id < self.pages().len() && bytes@ == self.pages()[page_id as int],
                Err(e) => page_id >= self.pages().len() && e == (ChiselError::InvalidPageId { page_id }),
            },
    {
        if page_id >= self.pages.len() as u64 {
            return Err(ChiselError::InvalidPageId { page_id });
        }
        Ok(self.pages[page_id as usize])
    }

    /// Write a page. A write past the end extends, with zero pages in between.
    /// Not durable before the next sync.
    pub fn write_page(&mut self, page_id: u64, buf: &[u8; PAGE_SIZE]) -> (outcome: Result<(), ChiselError>)
        requires
            old(self).inv(),
            page_id < usize::MAX,
        ensures
            final(self).inv(),
            final(self).same_mode(old(self)),
            final(self).syncs() == old(self).syncs(),
            match outcome {
                Ok(_) => {
                    &&& !old(self).spec_read_only()
                    &&& final(self).pages() == written(old(self).pages(), page_id, buf@)
                    &&& old(self).is_file_image() ==> {
                        &&& final(self).recorded() == old(self).recorded().push(final(self).recorded().last())
                        &&& final(self).recorded().last().writes(page_id, buf@)
                    }
                },
                Err(e) => {
                    &&& old(self).spec_read_only()
                    &&& e is ReadOnlyMode
                    &&& *final(self) == *old(self)
                },
            },
    {
        if self.read_only {
            return Err(ChiselError::ReadOnlyMode);
        }
        let ghost pages0 = self.pages@;
        if page_id >= self.pages.len() as u64 {
            self.resize(page_id as usize + 1);
        }
        assert(page_bytes(self.pages@).len() == self.pages@.len());
        self.pages.set(page_id as usize, *buf);
        assert(page_bytes(self.pages@) =~= written(page_bytes(pages0), page_id, buf@));
        self.record(IoAction::Write { page_id, bytes: Box::new(*buf) });
        Ok(())
    }

    /// Make everything written so far durable. An operation on memory does
    /// nothing but count.
    pub fn fsync(&mut self) -> (outcome: Result<(), ChiselError>)
        requires
            old(self).inv(),
        ensures
            final(self).inv(),
            final(self).same_mode(old(self)),
            final(self).pages() == old(self).pages(),
            match outcome {
                Ok(_) => {
                    &&& !old(self).spec_read_only()
                    &&& final(self).syncs() == bumped(old(self).syncs())
                    &&& old(self).is_file_image() ==> final(self).recorded() == old(self).recorded().push(
                        IoAction::Sync,
                    )
                },
                Err(e) => {
                    &&& old(self).spec_read_only()
                    &&& e is ReadOnlyMode
                    &&& *final(self) == *old(self)
                },
            },
    {
        if self.read_only {
            return Err(ChiselError::ReadOnlyMode);
        }
        self.record(IoAction::Sync);
        self.fsync_calls = bump(self.fsync_calls);
        Ok(())
    }

    /// Number of successful syncs so far.
    pub fn fsync_count(&self) -> (n: u64)
        ensures
            n == self.syncs(),
    {
        self.fsync_calls
    }

    /// Number of pages.
    pub fn page_count(&self) -> (outcome: Result<u64, ChiselError>)
        ensures
            match outcome {
                Ok(n) => n == self.pages().len(),
                Err(_) => false,
            },
    {
        Ok(self.pages.len() as u64)
    }

    /// Cut off or extend to exactly `n` pages.
    pub fn set_page_count(&mut self, n: u64) -> (outcome: Result<(), ChiselError>)
        requires
            old(self).inv(),
            n <= usize::MAX,
        ensures
            final(self).inv(),
            final(self).same_mode(old(self)),
            final(self).syncs() == old(self).syncs(),
            match outcome {
                Ok(_) => {
                    &&& !old(self).spec_read_only()
                    &&& final(self).pages() == resized(old(self).pages(), n as nat)
                },
                Err(e) => {
                    &&& old(self).spec_read_only()
                    &&& e is ReadOnlyMode
                    &&& *final(self) == *old(self)
                },
            },
    {
        if self.read_only {
            return Err(ChiselError::ReadOnlyMode);
        }
        self.resize(n as usize);
        self.record(IoAction::SetPageCount { count: n });
        Ok(())
    }

    /// Hand over what was done since the last hand-over, in order.
    pub fn take_journal(&mut self) -> (actions: Vec<IoAction>)
        requires
            old(self).inv(),
        ensures
            final(self).inv(),
            actions@ == old(self).recorded(),
            final(self).recorded().len() == 0,
            final(self).pages() == old(self).pages(),
            final(self).syncs() == old(self).syncs(),
            final(self).spec_read_only() == old(self).spec_read_only(),
            final(self).is_file_image() == old(self).is_file_image(),
            old(self).is_file_image() ==> final(self).base() == old(self).pages(),
    {
        let mut actions: Vec<IoAction> = Vec::new();
        std::mem::swap(&mut actions, &mut self.journal);
        self.base = Ghost(page_bytes(self.pages@));
        actions
    }

    /// Cut off or pad the pages.
    fn resize(&mut self, n: usize)
        ensures
            page_bytes(final(self).pages@) == resized(page_bytes(old(self).pages@), n as nat),
            final(self).read_only == old(self).read_only,
            final(self).fsync_calls == old(self).fsync_calls,
            final(self).journaled == old(self).journaled,
            final(self).journal == old(self).journal,
            final(self).base == old(self).base,
    {
        if n < self.pages.len() {
            self.pages.truncate(n);
        }
        while self.pages.len() < n
            invariant
                self.pages@.len() <= n,
                forall|i: int|
                    0 <= i < self.pages@.len() ==> #[trigger] self.pages@[i]@ == (if i < old(self).pages@.len() {
                        old(self).pages@[i]@
                    } else {
                        zero_page()
                    }),
                old(self).pages@.len() <= self.pages@.len() || self.pages@.len() == n,
                self.read_only == old(self).read_only,
                self.fsync_calls == old(self).fsync_calls,
                self.journaled == old(self).journaled,
                self.journal == old(self).journal,
                self.base == old(self).base,
            decreases n - self.pages@.len(),
        {
            let page: [u8; PAGE_SIZE] = zeroed();
            assert(page@ =~= zero_page());
            self.pages.push(page);
        }
        assert(page_bytes(self.pages@) =~= resized(page_bytes(old(self).pages@), n as nat));
    }

    /// Note an action that has just been done to the pages.
    fn record(&mut self, action: IoAction)
        requires
            old(self).journaled ==> action.apply(replay(old(self).base@, old(self).journal@)) == page_bytes(
                old(self).pages@,
            ),
            !old(self).journaled ==> old(self).journal@.len() == 0,
        ensures
            final(self).inv(),
            final(self).pages == old(self).pages,
            final(self).read_only == old(self).read_only,
            final(self).fsync_calls == old(self).fsync_calls,
            final(self).journaled == old(self).journaled,
            final(self).base == old(self).base,
            final(self).journal@ == (if old(self).journaled {
                old(self).journal@.push(action)
            } else {
                old(self).journal@
            }),
    {
        if self.journaled {
            let ghost before = self.journal@;
            self.journal.push(action);
            assert(self.journal@.drop_last() =~= before);
        }
    }
}

} // verus!
