//! The handle table: a copy-on-write radix tree from handles to the places
//! where their values are stored.
//!
//! Leaves hold [`ENTRIES_PER_LEAF`] entries of sixteen bytes, interior pages
//! [`FANOUT`] child page ids; a zero child means that nothing below it was
//! ever written, and a zeroed entry reads as deleted. Every mutation copies
//! the pages on the path of its handle to fresh pages and returns the new
//! root; the old tree stays intact. Growing puts a new root above the old one,
//! which becomes child 0, so the depth can be recovered from the leftmost
//! pages.

use vstd::prelude::*;

use crate::recycler::sound_pages;
use crate::forest::nodes_of;
use crate::bytes::{le16, le32, le64, read_u16, read_u32, read_u64, write_u16, write_u32, write_u64};
use crate::error::ChiselError;
use crate::listing::{
    child_base, lemma_child_explains, lemma_lists_child, lemma_lists_empty, lemma_lists_facts, lemma_lists_gap,
    lemma_lists_push, lemma_lists_rebase, lemma_lists_skip, lemma_same_tree_explains, lemma_top_explains, lists,
    lists_all, read_children, tree_explains, Reading,
};
use crate::page::{
    checksum_ok, current_version, stamp_checksum, zeroed, PageType, CHECKSUM_OFFSET, DATA_PAGE_HEADER_SIZE,
    PAGE_ID_NONE, PAGE_SIZE,
};
use crate::page_cache::PageCache;
use crate::page_source::{
    cow_page, cow_step, extended, lemma_agree_at, lemma_cow_chain, lemma_cow_edit_taken, lemma_cow_look,
    lemma_extended_by_one, lemma_taken_id, overrun, taken, too_many, PageSource,
};
use crate::spine::{
    absent, accounted, edited, freed_ok, grown_tree, head_of, lemma_absent, lemma_absent_same, lemma_child_tree,
    lemma_freed_step, lemma_good_kept, lemma_grown_none, lemma_grown_step, lemma_headed_grown, lemma_headed_kept,
    lemma_headed_step, lemma_not_in_news, lemma_off_path_stays, lemma_parent_copied, lemma_path_ids,
    lemma_path_replaced, lemma_prefix_trans, lemma_spine_facts, lemma_spine_len, lemma_spine_nodes, lemma_spine_step,
    lemma_spine_tree, lemma_unsound_up, lemma_value_grown, lemma_value_written, link_child, on_new_path, path_explains,
    path_freed, path_has, path_headed, path_ids, path_unsound, spine_written, tree_headed, tree_kept, tree_value,
};
use crate::radix::{
    child_of, is_tree, lemma_ascend, lemma_child_outside, lemma_descend, lemma_node_in, lemma_reach_pos,
    lemma_replaced_leaf, lemma_subtree_in, lemma_tree_same, node_at, page_at, reach, read_child, same_on, saturated,
    saturating_reach, slot_of, tree_in, write_child, FANOUT,
};

verus! {

/// Size of a leaf entry.
pub const ENTRY_SIZE: usize = 16;

/// Entries per leaf.
pub const ENTRIES_PER_LEAF: usize = 510;

/// Deepest tree that 64-bit handles can need.
pub const MAX_DEPTH: u32 = 6;

/// Byte 1 of a leaf.
pub const FLAG_LEAF: u8 = 0x01;

/// Byte 1 of an interior page.
pub const FLAG_INTERIOR: u8 = 0x02;

/// State of an entry. A deleted entry stays in place as a tombstone;
/// `Overflow` means that `page_id` starts an overflow chain.
#[derive(Debug, Clone, Copy, PartialEq, Eq, Structural)]
pub enum HandleFlags {
    Live,
    Deleted,
    Overflow,
}

impl HandleFlags {
    /// The byte that stands for this state.
    pub open spec fn code(self) -> u8 {
        match self {
            HandleFlags::Live => 0x01u8,
            HandleFlags::Deleted => 0x00u8,
            HandleFlags::Overflow => 0x02u8,
        }
    }

    /// The state that a byte stands for; every other byte means deleted.
    pub open spec fn of(v: u8) -> HandleFlags {
        if v == 0x01 {
            HandleFlags::Live
        } else if v == 0x02 {
            HandleFlags::Overflow
        } else {
            HandleFlags::Deleted
        }
    }

    /// The byte that stands for this state.
    pub fn to_u8(self) -> (v: u8)
        ensures
            v == self.code(),
            HandleFlags::of(v) == self,
    {
        match self {
            HandleFlags::Live => 0x01,
            HandleFlags::Deleted => 0x00,
            HandleFlags::Overflow => 0x02,
        }
    }

    fn from_u8(v: u8) -> (flags: HandleFlags)
        ensures
            flags == HandleFlags::of(v),
    {
        if v == 0x01 {
            HandleFlags::Live
        } else if v == 0x02 {
            HandleFlags::Overflow
        } else {
            HandleFlags::Deleted
        }
    }
}

/// Where the value of a handle is stored, and what the client attached to it.
#[derive(Debug, Clone, Copy, PartialEq, Eq, Structural)]
pub struct HandleEntry {
    /// Data page, or first page of the overflow chain.
    pub page_id: u64,
    /// Slot in the data page.
    pub slot_index: u16,
    /// State of the entry.
    pub flags: HandleFlags,
    /// Immutable grouping tag; 0 is untagged.
    pub tag: u32,
    /// Opaque byte owned by the client; 0 is unset.
    pub client_byte: u8,
}

/// A deleted entry.
pub open spec fn tombstone() -> HandleEntry {
    HandleEntry { page_id: 0, slot_index: 0, flags: HandleFlags::Deleted, tag: 0, client_byte: 0 }
}

/// Offset of entry `i` in a leaf.
pub open spec fn entry_offset(i: nat) -> int {
    DATA_PAGE_HEADER_SIZE + ENTRY_SIZE * i
}

/// Entry `i` of a leaf with contents `s`.
pub open spec fn entry_at(s: Seq<u8>, i: nat) -> HandleEntry {
    let base = entry_offset(i);
    HandleEntry {
        page_id: le64(s, base) as u64,
        slot_index: le16(s, base + 8) as u16,
        flags: HandleFlags::of(s[base + 10]),
        tag: le32(s, base + 11) as u32,
        client_byte: s[base + 15],
    }
}

/// The entry of key `k` below a node, deleted entries included.
pub open spec fn node_entry(pages: Map<u64, Seq<u8>>, page: u64, level: nat, k: nat) -> HandleEntry {
    match node_at(pages, ENTRIES_PER_LEAF as nat, page, level, k, 0) {
        Some(leaf) => entry_at(page_at(pages, leaf), slot_of(ENTRIES_PER_LEAF as nat, level, k)),
        None => tombstone(),
    }
}

/// The entry if it is not deleted.
pub open spec fn if_live(entry: HandleEntry) -> Option<HandleEntry> {
    if entry.flags == HandleFlags::Deleted {
        None
    } else {
        Some(entry)
    }
}

/// What the table with this root and depth says about a handle. No table is
/// deeper than [`MAX_DEPTH`]: one that claims to be says nothing.
pub open spec fn table_lookup(pages: Map<u64, Seq<u8>>, root: u64, depth: nat, handle: u64) -> Option<HandleEntry> {
    if root == PAGE_ID_NONE || depth > MAX_DEPTH || handle >= reach(ENTRIES_PER_LEAF as nat, depth) {
        None
    } else {
        if_live(node_entry(pages, root, depth, handle as nat))
    }
}

/// How far a table of each depth reaches: within 64 bits up to depth 5, and
/// beyond at depth 6.
pub proof fn lemma_reach()
    ensures
        reach(510, 0) == 510,
        reach(510, 1) == 520710,
        reach(510, 2) == 531644910,
        reach(510, 3) == 542809453110,
        reach(510, 4) == 554208451625310,
        reach(510, 5) == 565846829109441510,
        reach(510, 6) > u64::MAX,
{
    reveal_with_fuel(reach, 7);
}

/// A node further down reaches less far.
pub proof fn lemma_reach_bound(level: nat)
    requires
        level <= 6,
    ensures
        level < 6 ==> reach(510, level) < u64::MAX,
        level == 6 ==> reach(510, level) > u64::MAX,
        reach(510, level) >= 510,
{
    lemma_reach();
    if level == 0 {
    } else if level == 1 {
    } else if level == 2 {
    } else if level == 3 {
    } else if level == 4 {
    } else if level == 5 {
    } else {
        assert(level == 6);
    }
}

/// Entries and pointers do not depend on the checksum.
proof fn lemma_stamped(a: Seq<u8>, b: Seq<u8>)
    requires
        a.len() == PAGE_SIZE,
        crate::bytes::same_outside(a, b, CHECKSUM_OFFSET as int, PAGE_SIZE as int),
    ensures
        forall|i: nat| i < ENTRIES_PER_LEAF ==> #[trigger] entry_at(b, i) == entry_at(a, i),
        forall|i: nat| i < FANOUT ==> #[trigger] child_of(b, i) == child_of(a, i),
{
    assert forall|i: nat| i < FANOUT implies #[trigger] child_of(b, i) == child_of(a, i) by {
        lemma_child_outside(a, b, i);
    }
}

/// An initialized node: no entries, no children.
spec fn blank(s: Seq<u8>) -> bool {
    &&& checksum_ok(s)
    &&& forall|i: nat| i < ENTRIES_PER_LEAF ==> #[trigger] entry_at(s, i) == tombstone()
    &&& forall|i: nat| i < FANOUT ==> #[trigger] child_of(s, i) == 0
}

/// The leaf on the path of the handle now says `entry` in slot `slot`, and what
/// the old leaf said, if there was one, in all others.
pub open spec fn leaf_updated(
    before: Map<u64, Seq<u8>>,
    old_leaf: Option<u64>,
    new_leaf: Seq<u8>,
    slot: nat,
    entry: HandleEntry,
) -> bool {
    forall|s: nat|
        s < ENTRIES_PER_LEAF ==> #[trigger] entry_at(new_leaf, s) == (if s == slot {
            entry
        } else {
            match old_leaf {
                Some(leaf) => entry_at(page_at(before, leaf), s),
                None => tombstone(),
            }
        })
}

/// A new path for `h` below `n`, whose leaf says `entry` for `h`.
pub open spec fn path_written<A: PageSource>(
    source0: &A,
    cache0: &PageCache,
    source1: &A,
    cache1: &PageCache,
    page: u64,
    n: u64,
    level: nat,
    h: nat,
    entry: HandleEntry,
    news: Seq<u64>,
) -> bool {
    let c = ENTRIES_PER_LEAF as nat;
    &&& spine_written(source0, cache0, source1, cache1, c, page, n, level, h, news)
    &&& leaf_updated(
        cache0.contents(),
        node_at(cache0.contents(), c, page, level, h, 0),
        page_at(cache1.contents(), news[0]),
        slot_of(c, level, h),
        entry,
    )
    &&& path_headed(cache0.contents(), cache1.contents(), c, page, level, h, news, table_head())
}

/// How the pages of a handle table begin: page type and flag.
pub open spec fn table_head() -> spec_fn(nat) -> (u8, u8) {
    |level: nat|
        (PageType::HandleTable.spec_code(), if level == 0 {
            FLAG_LEAF
        } else {
            FLAG_INTERIOR
        })
}

/// There is a new path for `h` below `n`, whose leaf says `entry` for `h`.
pub open spec fn path_changed<A: PageSource>(
    source0: &A,
    cache0: &PageCache,
    source1: &A,
    cache1: &PageCache,
    page: u64,
    n: u64,
    level: nat,
    h: nat,
    entry: HandleEntry,
) -> bool {
    exists|news: Seq<u64>| #[trigger]
        path_written(source0, cache0, source1, cache1, page, n, level, h, entry, news)
}

/// The handle table. It knows only its depth: the pages live in the cache, and
/// the root page id with the transaction.
pub struct HandleTable {
    depth: u32,
}

impl HandleTable {
    /// The depth of the tree; 0 if the root is a leaf.
    pub closed spec fn spec_depth(&self) -> nat {
        self.depth as nat
    }

    /// A table of depth 0.
    pub fn new() -> (table: HandleTable)
        ensures
            table.spec_depth() == 0,
    {
        HandleTable { depth: 0 }
    }

    /// Set the depth, as found by [`HandleTable::recover_depth`].
    pub fn set_depth(&mut self, depth: u32)
        ensures
            final(self).spec_depth() == depth,
    {
        self.depth = depth;
    }

    /// The depth of the tree.
    pub fn depth(&self) -> (depth: u32)
        ensures
            depth == self.spec_depth(),
    {
        self.depth
    }

    /// Number of handles that the table can address; saturates.
    pub fn capacity(&self) -> (n: u64)
        ensures
            n == saturated(reach(ENTRIES_PER_LEAF as nat, self.spec_depth())),
    {
        saturating_reach(ENTRIES_PER_LEAF as u64, self.depth)
    }

    /// Whether a handle lies within the table's reach. At the last depth every
    /// 64-bit handle does.
    fn reaches(&self, handle: u64) -> (within: bool)
        requires
            self.spec_depth() <= MAX_DEPTH,
        ensures
            within == (handle < reach(ENTRIES_PER_LEAF as nat, self.spec_depth())),
    {
        proof {
            lemma_reach_bound(self.spec_depth());
        }
        let cap: u64 = self.capacity();
        cap == u64::MAX || handle < cap
    }

    /// Number of handles below each child of a node at `level`; saturates.
    pub fn span_at_level(&self, level: u32) -> (n: u64)
        ensures
            n == saturated(reach(ENTRIES_PER_LEAF as nat, if level > 0 {
                (level - 1) as nat
            } else {
                0
            })),
    {
        if level == 0 {
            saturating_reach(ENTRIES_PER_LEAF as u64, 0)
        } else {
            saturating_reach(ENTRIES_PER_LEAF as u64, level - 1)
        }
    }

    /// Parse entry `index` of a leaf.
    pub fn read_entry(buf: &[u8; PAGE_SIZE], index: usize) -> (entry: HandleEntry)
        requires
            index < ENTRIES_PER_LEAF,
        ensures
            entry == entry_at(buf@, index as nat),
    {
        let base: usize = DATA_PAGE_HEADER_SIZE + index * ENTRY_SIZE;
        HandleEntry {
            page_id: read_u64(buf, base),
            slot_index: read_u16(buf, base + 8),
            flags: HandleFlags::from_u8(buf[base + 10]),
            tag: read_u32(buf, base + 11),
            client_byte: buf[base + 15],
        }
    }

    /// Write entry `index` of a leaf. The other entries stay.
    pub fn write_entry(buf: &mut [u8; PAGE_SIZE], index: usize, entry: &HandleEntry)
        requires
            index < ENTRIES_PER_LEAF,
        ensures
            entry_at(final(buf)@, index as nat) == *entry,
            forall|i: nat|
                i < ENTRIES_PER_LEAF && i != index ==> #[trigger] entry_at(final(buf)@, i) == entry_at(old(buf)@, i),
            crate::bytes::same_outside(
                old(buf)@,
                final(buf)@,
                entry_offset(index as nat),
                entry_offset(index as nat) + ENTRY_SIZE,
            ),
    {
        let base: usize = DATA_PAGE_HEADER_SIZE + index * ENTRY_SIZE;
        write_u64(buf, base, entry.page_id);
        write_u16(buf, base + 8, entry.slot_index);
        buf[base + 10] = entry.flags.to_u8();
        write_u32(buf, base + 11, entry.tag);
        buf[base + 15] = entry.client_byte;
    }

    /// Make a page an empty node with the given flag byte.
    fn init_node(buf: &mut [u8; PAGE_SIZE], flag: u8)
        ensures
            blank(final(buf)@),
            final(buf)@[0] == PageType::HandleTable.code(),
            final(buf)@[1] == flag,
    {
        *buf = zeroed();
        buf[0] = PageType::HandleTable.code();
        buf[1] = flag;
        buf[2] = current_version(PageType::HandleTable);
        let ghost s = buf@;
        stamp_checksum(buf);
        proof {
            lemma_stamped(s, buf@);
        }
    }
}

impl HandleTable {
    /// The leaf of a handle and the handle's slot there; `None` if the handle
    /// is out of reach or its leaf was never made.
    fn find_leaf(&self, cache: &mut PageCache, root: u64, handle: u64) -> (outcome: Result<
        Option<(u64, usize)>,
        ChiselError,
    >)
        requires
            old(cache).inv(),
        ensures
            final(cache).inv(),
            final(cache).same_pages(old(cache)),
            old(cache).bounded() ==> final(cache).bounded(),
            match outcome {
                Ok(Some((leaf, index))) => {
                    &&& self.spec_depth() <= MAX_DEPTH
                    &&& handle < reach(ENTRIES_PER_LEAF as nat, self.spec_depth())
                    &&& node_at(
                        old(cache).contents(),
                        ENTRIES_PER_LEAF as nat,
                        root,
                        self.spec_depth(),
                        handle as nat,
                        0,
                    ) == Some(leaf)
                    &&& index == slot_of(ENTRIES_PER_LEAF as nat, self.spec_depth(), handle as nat)
                    &&& index < ENTRIES_PER_LEAF
                },
                Ok(None) => self.spec_depth() > MAX_DEPTH || handle >= reach(
                    ENTRIES_PER_LEAF as nat,
                    self.spec_depth(),
                ) || node_at(
                    old(cache).contents(),
                    ENTRIES_PER_LEAF as nat,
                    root,
                    self.spec_depth(),
                    handle as nat,
                    0,
                ) is None,
                Err(e) => self.spec_depth() <= MAX_DEPTH && handle < reach(
                    ENTRIES_PER_LEAF as nat,
                    self.spec_depth(),
                ) && path_explains(
                    old(cache),
                    ENTRIES_PER_LEAF as nat,
                    root,
                    self.spec_depth(),
                    handle as nat,
                    e,
                ),
            },
    {
        let ghost c = ENTRIES_PER_LEAF as nat;
        let ghost depth = self.spec_depth();
        let ghost pages = cache.contents();
        if self.depth > MAX_DEPTH {
            return Ok(None);
        }
        proof {
            lemma_reach_bound(depth);
        }
        if !self.reaches(handle) {
            return Ok(None);
        }
        let mut current: u64 = root;
        let mut remaining: u64 = handle;
        let mut level: u32 = self.depth;
        while level > 0
            invariant
                c == ENTRIES_PER_LEAF as nat,
                depth == self.spec_depth(),
                level <= depth <= MAX_DEPTH,
                handle < reach(c, depth),
                remaining < reach(c, level as nat),
                cache.inv(),
                cache.same_pages(old(cache)),
                old(cache).bounded() ==> cache.bounded(),
                pages == old(cache).contents(),
                forall|l: nat|
                    l <= level ==> #[trigger] node_at(pages, c, root, depth, handle as nat, l) == node_at(
                        pages,
                        c,
                        current,
                        level as nat,
                        remaining as nat,
                        l,
                    ),
                slot_of(c, depth, handle as nat) == slot_of(c, level as nat, remaining as nat),
            decreases level,
        {
            let ghost span = reach(c, (level - 1) as nat);
            proof {
                lemma_reach_bound((level - 1) as nat);
                lemma_descend(c, level as nat, remaining as nat);
                assert(node_at(pages, c, root, depth, handle as nat, level as nat) == Some(current));
                cache.lemma_explains(current);
                old(cache).lemma_same_explains(&*cache, current);
            }
            let child_span: u64 = self.span_at_level(level);
            let child_idx: usize = (remaining / child_span) as usize;
            let child: u64 = match cache.get(current) {
                Ok(buf) => read_child(buf, child_idx),
                Err(e) => {
                    return Err(e);
                },
            };
            assert(child == child_of(page_at(pages, current), remaining as nat / span));
            if child == 0 {
                assert(node_at(pages, c, root, depth, handle as nat, 0) is None);
                return Ok(None);
            }
            proof {
                assert forall|l: nat| l <= level - 1 implies #[trigger] node_at(pages, c, root, depth, handle as nat, l)
                    == node_at(pages, c, child, (level - 1) as nat, remaining as nat % span, l) by {
                    assert(node_at(pages, c, current, level as nat, remaining as nat, l) == node_at(
                        pages,
                        c,
                        child,
                        (level - 1) as nat,
                        remaining as nat % span,
                        l,
                    ));
                }
            }
            remaining = remaining % child_span;
            current = child;
            level = level - 1;
        }
        assert(node_at(pages, c, root, depth, handle as nat, 0) == Some(current));
        Ok(Some((current, remaining as usize)))
    }

    /// Look up a handle. `None` if it does not exist or is deleted.
    pub fn lookup(&self, cache: &mut PageCache, root: u64, handle: u64) -> (outcome: Result<
        Option<HandleEntry>,
        ChiselError,
    >)
        requires
            old(cache).inv(),
        ensures
            final(cache).inv(),
            final(cache).same_pages(old(cache)),
            old(cache).bounded() ==> final(cache).bounded(),
            match outcome {
                Ok(found) => found == table_lookup(old(cache).contents(), root, self.spec_depth(), handle),
                Err(e) => root != PAGE_ID_NONE && self.spec_depth() <= MAX_DEPTH && handle < reach(
                    ENTRIES_PER_LEAF as nat,
                    self.spec_depth(),
                ) && path_explains(
                    old(cache),
                    ENTRIES_PER_LEAF as nat,
                    root,
                    self.spec_depth(),
                    handle as nat,
                    e,
                ),
            },
    {
        if root == PAGE_ID_NONE {
            return Ok(None);
        }
        let (leaf, index) = match self.find_leaf(cache, root, handle) {
            Ok(Some(place)) => place,
            Ok(None) => {
                return Ok(None);
            },
            Err(e) => {
                return Err(e);
            },
        };
        proof {
            cache.lemma_explains(leaf);
            old(cache).lemma_same_explains(&*cache, leaf);
        }
        let entry: HandleEntry = match cache.get(leaf) {
            Ok(buf) => Self::read_entry(buf, index),
            Err(e) => {
                return Err(e);
            },
        };
        if entry.flags == HandleFlags::Deleted {
            Ok(None)
        } else {
            Ok(Some(entry))
        }
    }

    /// Take a page from the source and make it an empty node.
    fn fresh_node<A: PageSource>(cache: &mut PageCache, source: &mut A, flag: u8) -> (outcome: Result<
        u64,
        ChiselError,
    >)
        requires
            old(cache).inv(),
            old(cache).bounded(),
            old(source).ready(old(cache)),
            old(cache).watermark() + A::growth() <= usize::MAX,
        ensures
            cow_step(old(source), old(cache), final(source), final(cache), A::growth()),
            match outcome {
                Ok(n) => {
                    &&& taken(old(source), old(cache), final(source), final(cache), n)
                    &&& final(source).footprint(final(cache)) == old(source).footprint(old(cache)).remove(n)
                    &&& blank(final(cache).contents()[n])
                    &&& final(cache).contents()[n][0] == PageType::HandleTable.code()
                    &&& final(cache).contents()[n][1] == flag
                },
                Err(e) => overrun(old(cache), final(cache), e, A::growth()),
            },
    {
        let n: u64 = match source.next_page(cache) {
            Ok(n) => n,
            Err(e) => {
                return Err(e);
            },
        };
        let ghost mid = *cache;
        proof {
            cache.lemma_explains(n);
        }
        match cache.get_mut(n) {
            Ok(buf) => {
                Self::init_node(buf, flag);
            },
            Err(e) => {
                proof {
                    lemma_cow_look(source, &mid, cache);
                    lemma_cow_chain(old(source), old(cache), source, &mid, source, cache, A::growth(), 0);
                }
                return Err(e);
            },
        }
        proof {
            lemma_cow_edit_taken(old(source), old(cache), source, &mid, cache, n, A::growth());
        }
        Ok(n)
    }

    /// Write an entry to an unsaved leaf.
    fn put_entry(cache: &mut PageCache, leaf: u64, index: usize, entry: &HandleEntry) -> (outcome: Result<
        (),
        ChiselError,
    >)
        requires
            old(cache).inv(),
            old(cache).contents().contains_key(leaf),
            old(cache).unsaved().contains(leaf),
            index < ENTRIES_PER_LEAF,
        ensures
            final(cache).inv(),
            match outcome {
                Ok(_) => {
                    &&& edited(old(cache), final(cache), leaf)
                    &&& checksum_ok(final(cache).contents()[leaf])
                    &&& head_of(final(cache).contents()[leaf]) == head_of(old(cache).contents()[leaf])
                    &&& entry_at(final(cache).contents()[leaf], index as nat) == *entry
                    &&& forall|i: nat|
                        i < ENTRIES_PER_LEAF && i != index ==> #[trigger] entry_at(final(cache).contents()[leaf], i)
                            == entry_at(old(cache).contents()[leaf], i)
                },
                Err(e) => final(cache).same_pages(old(cache)) && overrun(old(cache), final(cache), e, 0),
            },
    {
        proof {
            cache.lemma_explains(leaf);
        }
        match cache.get_mut(leaf) {
            Ok(buf) => {
                Self::write_entry(buf, index, entry);
                let ghost s = buf@;
                stamp_checksum(buf);
                proof {
                    lemma_stamped(s, buf@);
                }
            },
            Err(e) => {
                return Err(e);
            },
        }
        proof {
            assert(cache.contents().dom() =~= old(cache).contents().dom());
        }
        Ok(())
    }

    /// Copy a leaf to a fresh page and write `entry` there.
    fn insert_leaf<A: PageSource>(
        cache: &mut PageCache,
        page_id: u64,
        handle: u64,
        entry: &HandleEntry,
        source: &mut A,
        freed: &mut Vec<u64>,
    ) -> (outcome: Result<u64, ChiselError>)
        requires
            old(cache).inv(),
            old(cache).bounded(),
            old(source).ready(old(cache)),
            handle < ENTRIES_PER_LEAF,
            old(cache).watermark() + A::growth() <= usize::MAX,
            !old(source).footprint(old(cache)).contains(page_id),
        ensures
            cow_step(old(source), old(cache), final(source), final(cache), A::growth()),
            outcome matches Ok(n) ==> path_written(
                old(source),
                old(cache),
                final(source),
                final(cache),
                page_id,
                n,
                0,
                handle as nat,
                *entry,
                seq![n],
            ),
            outcome matches Ok(n) ==> path_freed(
                old(source),
                old(cache),
                final(source),
                final(cache),
                ENTRIES_PER_LEAF as nat,
                page_id,
                0,
                handle as nat,
                old(freed)@,
                final(freed)@,
                seq![n],
            ),
            outcome matches Err(e) ==> overrun(old(cache), final(cache), e, A::growth()) || path_unsound(
                old(cache),
                ENTRIES_PER_LEAF as nat,
                page_id,
                0,
                handle as nat,
                e,
            ),
            old(freed)@.is_prefix_of(final(freed)@),
    {
        let ghost c = ENTRIES_PER_LEAF as nat;
        let ghost h = handle as nat;
        let ghost g = A::growth();
        let ghost s0 = *source;
        let ghost c0 = *cache;
        let ghost f0 = freed@;
        let ghost p0 = cache.contents();
        proof {
            assert(node_at(p0, c, page_id, 0, h, 0) == Some(page_id));
        }
        let new_page: u64 = match cow_page(cache, source, page_id) {
            Ok(n) => n,
            Err(e) => {
                return Err(e);
            },
        };
        let ghost s1 = *source;
        let ghost c1 = *cache;
        freed.push(page_id);
        let ghost f1 = freed@;
        let index: usize = (handle % ENTRIES_PER_LEAF as u64) as usize;
        match Self::put_entry(cache, new_page, index, entry) {
            Ok(_) => {},
            Err(e) => {
                proof {
                    lemma_cow_look(source, &c1, cache);
                    lemma_cow_chain(&s0, &c0, &s1, &c1, source, cache, g, 0);
                }
                return Err(e);
            },
        }
        proof {
            lemma_reach();
            lemma_cow_edit_taken(&s0, &c0, &s1, &c1, cache, new_page, g);
            let news = seq![new_page];
            reveal(spine_written);
            reveal(path_freed);
            reveal(path_headed);
            lemma_replaced_leaf(p0, cache.contents(), c, page_id, new_page, h);
            vstd::arithmetic::div_mod::lemma_small_mod(h, ENTRIES_PER_LEAF as nat);
            assert(index == handle);
            assert(slot_of(c, 0, h) == h);
            assert(page_at(cache.contents(), news[0]) == cache.contents()[new_page]);
            assert(leaf_updated(p0, Some(page_id), cache.contents()[new_page], index as nat, *entry));
            assert(path_written(&s0, &c0, source, cache, page_id, new_page, 0, h, *entry, news));
            assert(accounted(&s0, &c0, source, cache, news, f0, f1)) by {
                assert forall|x: u64| #[trigger] s0.footprint(&c0).contains(x) implies source.footprint(cache).contains(x)
                    || news.contains(x) by {
                    assert(news[0] == new_page);
                }
            }
            assert(path_freed(&s0, &c0, source, cache, c, page_id, 0, h, f0, f1, news));
        }
        Ok(new_page)
    }

    /// Copy the pages on the path of `handle` below `page_id` to fresh pages,
    /// and write `entry` to the new leaf. Returns the page that takes the
    /// place of `page_id`.
    #[verifier::rlimit(60)]
    #[verifier::spinoff_prover]
    fn insert_recursive<A: PageSource>(
        &self,
        cache: &mut PageCache,
        page_id: u64,
        handle: u64,
        entry: &HandleEntry,
        level: u32,
        source: &mut A,
        freed: &mut Vec<u64>,
    ) -> (outcome: Result<u64, ChiselError>)
        requires
            old(cache).inv(),
            old(cache).bounded(),
            old(source).ready(old(cache)),
            level <= MAX_DEPTH,
            handle < reach(ENTRIES_PER_LEAF as nat, level as nat),
            old(cache).watermark() + (2 * level + 1) * A::growth() <= usize::MAX,
            tree_in(
                old(cache).contents(),
                ENTRIES_PER_LEAF as nat,
                page_id,
                level as nat,
                old(source).footprint(old(cache)).complement(),
            ),
        ensures
            cow_step(
                old(source),
                old(cache),
                final(source),
                final(cache),
                ((level + 1 + absent(
                    old(cache).contents(),
                    ENTRIES_PER_LEAF as nat,
                    page_id,
                    level as nat,
                    handle as nat,
                )) * A::growth()) as nat,
            ),
            match outcome {
                Ok(n) => exists|news: Seq<u64>| #[trigger]
                    path_written(
                        old(source),
                        old(cache),
                        final(source),
                        final(cache),
                        page_id,
                        n,
                        level as nat,
                        handle as nat,
                        *entry,
                        news,
                    ) && path_freed(
                        old(source),
                        old(cache),
                        final(source),
                        final(cache),
                        ENTRIES_PER_LEAF as nat,
                        page_id,
                        level as nat,
                        handle as nat,
                        old(freed)@,
                        final(freed)@,
                        news,
                    ),
                Err(e) => {
                    &&& overrun(
                        old(cache), final(cache),
                        e,
                        ((level + 1 + absent(
                    old(cache).contents(),
                    ENTRIES_PER_LEAF as nat,
                    page_id,
                    level as nat,
                    handle as nat,
                )) * A::growth()) as nat,
                    ) || path_unsound(
                        old(cache),
                        ENTRIES_PER_LEAF as nat,
                        page_id,
                        level as nat,
                        handle as nat,
                        e,
                    )
                    &&& old(freed)@.is_prefix_of(final(freed)@)
                },
            },
        decreases level,
    {
        let ghost c = ENTRIES_PER_LEAF as nat;
        let ghost lv = level as nat;
        let ghost h = handle as nat;
        let ghost g = A::growth();
        let ghost s0 = *source;
        let ghost c0 = *cache;
        let ghost f0 = freed@;
        let ghost good = source.footprint(cache).complement();
        let ghost p0 = cache.contents();
        let ghost missing = absent(p0, c, page_id, lv, h);
        let ghost total = ((level + 1 + missing) * g) as nat;
        proof {
            lemma_reach_bound(lv);
            lemma_reach();
            assert(node_at(p0, c, page_id, lv, h, lv) == Some(page_id));
            assert(good.contains(page_id));
            lemma_absent(p0, c, page_id, lv, h);
            assert((level + 1 + missing) * g >= g && (level + 1 + missing) * g <= (2 * level + 1) * g) by (nonlinear_arith)
                requires
                    level >= 0,
                    g >= 0,
                    0 <= missing <= level,
            ;
        }
        if level == 0 {
            return Self::insert_leaf(cache, page_id, handle, entry, source, freed);
        }
        let new_page: u64 = match cow_page(cache, source, page_id) {
            Ok(n) => n,
            Err(e) => {
                return Err(e);
            },
        };
        let ghost s1 = *source;
        let ghost c1 = *cache;
        let ghost p1 = cache.contents();
        freed.push(page_id);
        let ghost f1 = freed@;
        proof {
            assert(f0.is_prefix_of(f1));
            cache.lemma_explains(new_page);
        }
        let ghost span = reach(c, (level - 1) as nat);
        let ghost i = h / span;
        proof {
            lemma_reach_bound((level - 1) as nat);
            lemma_descend(c, lv, h);
        }
        let child_span: u64 = self.span_at_level(level);
        let child_idx: usize = (handle / child_span) as usize;
        let child_page: u64 = match cache.get(new_page) {
            Ok(buf) => read_child(buf, child_idx),
            Err(e) => {
                proof {
                    lemma_cow_look(source, &c1, cache);
                    lemma_cow_chain(&s0, &c0, &s1, &c1, source, cache, g, 0);
                }
                return Err(e);
            },
        };
        let ghost c2 = *cache;
        proof {
            lemma_cow_look(source, &c1, cache);
            lemma_cow_chain(&s0, &c0, &s1, &c1, source, cache, g, 0);
            assert(child_page == child_of(page_at(p0, page_id), i));
            assert((2 * level + 1) * g == g + g + (2 * (level - 1) + 1) * g) by (nonlinear_arith);
            assert(child_page == 0 ==> total == g + g + (2 * (level - 1) + 1) * g);
            assert(g + g <= (2 * level + 1) * g) by (nonlinear_arith)
                requires
                    level >= 1,
                    g >= 0,
            ;
        }
        let actual_child: u64 = if child_page == 0 {
            let flag: u8 = if level == 1 {
                FLAG_LEAF
            } else {
                FLAG_INTERIOR
            };
            let fresh: u64 = match Self::fresh_node(cache, source, flag) {
                Ok(n) => n,
                Err(e) => {
                    proof {
                        lemma_cow_chain(&s0, &c0, &s1, &c2, source, cache, g, g);
                        assert(too_many(&c2, e, g));
                    }
                    return Err(e);
                },
            };
            proof {
                lemma_cow_chain(&s0, &c0, &s1, &c2, source, cache, g, g);
                assert(taken(&s1, &c2, source, cache, fresh));
                assert(taken(&s0, &c0, source, cache, new_page));
                assert(new_page != fresh);
            }
            fresh
        } else {
            proof {
                assert(cow_step(&s0, &c0, source, cache, g));
                assert(node_at(p0, c, child_page, (lv - 1) as nat, h % span, (lv - 1) as nat) == Some(child_page));
                assert(node_at(p0, c, page_id, lv, h, (lv - 1) as nat) == Some(child_page));
            }
            child_page
        };
        let ghost s4 = *source;
        let ghost c4 = *cache;
        let ghost p4 = cache.contents();
        let ghost good4 = source.footprint(cache).complement();
        let ghost m4: nat = if child_page == 0 {
            g + g
        } else {
            g
        };
        let ghost left = absent(p4, c, actual_child, (lv - 1) as nat, h % span);
        let ghost m5 = ((level - 1 + 1 + left) * g) as nat;
        proof {
            assert(taken(&s0, &c0, &s4, &c4, new_page));
            assert(p4[new_page] == p1[new_page]);
            lemma_child_tree(&s0, &c0, &s4, &c4, c, page_id, lv, h, actual_child);
            assert(handle % child_span == h % span);
            lemma_absent(p4, c, actual_child, (lv - 1) as nat, h % span);
            if child_page == 0 {
                if level > 1 {
                    assert(child_of(page_at(p4, actual_child), (h % span) / reach(c, (lv - 2) as nat)) == 0) by {
                        lemma_descend(c, (lv - 1) as nat, h % span);
                    }
                }
                assert(left == level - 1);
                assert(missing == level);
            } else {
                lemma_subtree_in(p0, c, page_id, lv, i, good);
                assert(same_on(p0, p4, good)) by {
                    assert forall|x: u64| #[trigger] good.contains(x) implies page_at(p0, x) == page_at(p4, x) by {
                        lemma_agree_at(&c0, &c4, good, x);
                    }
                }
                lemma_absent_same(p0, p4, c, child_page, (lv - 1) as nat, h % span, good);
                assert(left == missing);
            }
            assert(total == m4 + m5) by (nonlinear_arith)
                requires
                    total == (level + 1 + missing) * g,
                    m5 == (level - 1 + 1 + left) * g,
                    child_page == 0 ==> m4 == g + g && left == level - 1 && missing == level,
                    child_page != 0 ==> m4 == g && left == missing,
            ;
            assert(m5 <= (2 * (level - 1) + 1) * g) by (nonlinear_arith)
                requires
                    m5 == (level - 1 + 1 + left) * g,
                    left <= level - 1,
                    g >= 0,
            ;
            assert(cow_step(&s0, &c0, &s4, &c4, m4));
            assert forall|x: u64| #[trigger] s0.footprint(&c0).contains(x) implies s4.footprint(&c4).contains(x) || x
                == new_page || x == actual_child by {}
        }
        let new_child: u64 = match self.insert_recursive(
            cache,
            actual_child,
            handle % child_span,
            entry,
            level - 1,
            source,
            freed,
        ) {
            Ok(n) => n,
            Err(e) => {
                proof {
                    lemma_prefix_trans(f0, f1, freed@);
                    lemma_cow_chain(&s0, &c0, &s4, &c4, source, cache, m4, m5);
                    if path_unsound(&c4, c, actual_child, (lv - 1) as nat, h % span, e) {
                        lemma_unsound_up(&s0, &c0, &s4, &c4, c, page_id, lv, h, actual_child, e);
                    } else {
                        assert(too_many(&c4, e, m5));
                    }
                }
                return Err(e);
            },
        };
        let ghost s5 = *source;
        let ghost c5 = *cache;
        let ghost p5 = cache.contents();
        let ghost news = choose|news: Seq<u64>| #[trigger]
            path_written(
                &s4,
                &c4,
                &s5,
                &c5,
                actual_child,
                new_child,
                (lv - 1) as nat,
                h % span,
                *entry,
                news,
            ) && path_freed(
                &s4,
                &c4,
                &s5,
                &c5,
                c,
                actual_child,
                (lv - 1) as nat,
                h % span,
                f1,
                freed@,
                news,
            );
        proof {
            lemma_cow_chain(&s0, &c0, &s4, &c4, &s5, &c5, m4, m5);
            assert(taken(&s0, &c0, &s5, &c5, new_page));
            assert(p5[new_page] == p1[new_page]);
            cache.lemma_explains(new_page);
            lemma_spine_facts(
                &s4,
                &c4,
                &s5,
                &c5,
                c,
                actual_child,
                new_child,
                (lv - 1) as nat,
                h % span,
                news,
                f1,
                freed@,
            );
            lemma_prefix_trans(f0, f1, freed@);
        }
        match link_child(cache, new_page, child_idx, new_child) {
            Ok(_) => {},
            Err(e) => {
                proof {
                    lemma_cow_look(source, &c5, cache);
                    lemma_cow_chain(&s0, &c0, &s5, &c5, source, cache, total, 0);
                }
                return Err(e);
            },
        }
        proof {
            lemma_cow_edit_taken(&s0, &c0, &s5, &c5, cache, new_page, total);
            lemma_not_in_news(&s4, &c4, &s5, &c5, c, actual_child, new_child, (lv - 1) as nat, h % span, news, new_page);
            lemma_spine_step(
                &s0,
                &c0,
                &s4,
                &c4,
                &s5,
                &c5,
                source,
                cache,
                c,
                page_id,
                new_page,
                lv,
                h,
                actual_child,
                news,
            );
            lemma_freed_step(
                &s0,
                &c0,
                &s4,
                &c4,
                &s5,
                &c5,
                source,
                cache,
                c,
                page_id,
                new_page,
                lv,
                h,
                actual_child,
                news,
                f0,
                freed@,
            );
            lemma_headed_step(
                &s0,
                &c0,
                &c4,
                &c5,
                cache,
                c,
                page_id,
                new_page,
                lv,
                h,
                actual_child,
                news,
                table_head(),
            );
            assert(path_written(&s0, &c0, source, cache, page_id, new_page, lv, h, *entry, news.push(new_page)));
        }
        Ok(new_page)
    }
}

impl HandleTable {
    /// Find the entry of `handle` in a leaf and, if it is not deleted, copy the
    /// leaf to a fresh page with a tombstone in its place.
    fn delete_leaf<A: PageSource>(
        cache: &mut PageCache,
        page: u64,
        handle: u64,
        source: &mut A,
        freed: &mut Vec<u64>,
    ) -> (outcome: Result<(u64, Option<HandleEntry>), ChiselError>)
        requires
            old(cache).inv(),
            old(cache).bounded(),
            old(source).ready(old(cache)),
            handle < ENTRIES_PER_LEAF,
            old(cache).watermark() + A::growth() <= usize::MAX,
            !old(source).footprint(old(cache)).contains(page),
        ensures
            cow_step(old(source), old(cache), final(source), final(cache), A::growth()),
            outcome matches Ok((n, found)) ==> found == if_live(
                entry_at(page_at(old(cache).contents(), page), handle as nat),
            ),
            outcome matches Ok((n, None)) ==> n == page && final(cache).same_pages(old(cache)) && *final(source) == *old(
                source,
            ) && final(freed)@ == old(freed)@,
            outcome matches Ok((n, Some(_))) ==> path_written(
                old(source),
                old(cache),
                final(source),
                final(cache),
                page,
                n,
                0,
                handle as nat,
                tombstone(),
                seq![n],
            ),
            outcome matches Ok((n, Some(_))) ==> final(freed)@ == old(freed)@.push(page),
            outcome matches Ok((n, Some(_))) ==> on_new_path(
                old(source),
                old(cache),
                final(source),
                final(cache),
                ENTRIES_PER_LEAF as nat,
                n,
                0,
                handle as nat,
            ),
            outcome matches Err(e) ==> overrun(old(cache), final(cache), e, A::growth()) || path_unsound(
                old(cache),
                ENTRIES_PER_LEAF as nat,
                page,
                0,
                handle as nat,
                e,
            ),
            old(freed)@.is_prefix_of(final(freed)@),
    {
        let ghost c = ENTRIES_PER_LEAF as nat;
        let ghost h = handle as nat;
        let ghost g = A::growth();
        let ghost s0 = *source;
        let ghost c0 = *cache;
        let ghost p0 = cache.contents();
        let index: usize = (handle % ENTRIES_PER_LEAF as u64) as usize;
        proof {
            lemma_reach();
            vstd::arithmetic::div_mod::lemma_small_mod(h, ENTRIES_PER_LEAF as nat);
            assert(index == handle);
            assert(node_at(p0, c, page, 0, h, 0) == Some(page));
            cache.lemma_explains(page);
        }
        let entry: HandleEntry = match cache.get(page) {
            Ok(buf) => Self::read_entry(buf, index),
            Err(e) => {
                proof {
                    lemma_cow_look(source, &c0, cache);
                }
                return Err(e);
            },
        };
        let ghost c1 = *cache;
        proof {
            lemma_cow_look(source, &c0, cache);
            c0.lemma_same_explains(&c1, page);
        }
        if entry.flags == HandleFlags::Deleted {
            return Ok((page, None));
        }
        let new_leaf: u64 = match cow_page(cache, source, page) {
            Ok(n) => n,
            Err(e) => {
                proof {
                    lemma_cow_chain(&s0, &c0, &s0, &c1, source, cache, 0, g);
                }
                return Err(e);
            },
        };
        let ghost s2 = *source;
        let ghost c2 = *cache;
        proof {
            lemma_cow_chain(&s0, &c0, &s0, &c1, &s2, &c2, 0, g);
            assert(taken(&s0, &c1, &s2, &c2, new_leaf));
        }
        freed.push(page);
        let dead = HandleEntry { page_id: 0, slot_index: 0, flags: HandleFlags::Deleted, tag: 0, client_byte: 0 };
        match Self::put_entry(cache, new_leaf, index, &dead) {
            Ok(_) => {},
            Err(e) => {
                proof {
                    lemma_cow_look(source, &c2, cache);
                    lemma_cow_chain(&s0, &c0, &s2, &c2, source, cache, g, 0);
                }
                return Err(e);
            },
        }
        proof {
            lemma_cow_edit_taken(&s0, &c0, &s2, &c2, cache, new_leaf, g);
            let news = seq![new_leaf];
            reveal(spine_written);
            reveal(path_headed);
            lemma_replaced_leaf(p0, cache.contents(), c, page, new_leaf, h);
            assert(node_at(cache.contents(), c, new_leaf, 0, h, 0) == Some(new_leaf));
            assert(path_has(cache.contents(), c, new_leaf, 0, h, new_leaf));
            assert(on_new_path(&s0, &c0, source, cache, c, new_leaf, 0, h));
            assert(slot_of(c, 0, h) == h);
            assert(page_at(cache.contents(), news[0]) == cache.contents()[new_leaf]);
            assert(leaf_updated(p0, Some(page), cache.contents()[new_leaf], index as nat, tombstone()));
            assert(path_written(&s0, &c0, source, cache, page, new_leaf, 0, h, tombstone(), news));
        }
        Ok((new_leaf, Some(entry)))
    }

    /// Find the entry of `handle` below `page` and, if it is not deleted, copy
    /// the pages on its path to fresh pages with a tombstone in its place.
    /// Returns the page that takes the place of `page` and the entry; without
    /// an entry nothing is copied.
    #[verifier::rlimit(60)]
    #[verifier::spinoff_prover]
    fn delete_recursive<A: PageSource>(
        &self,
        cache: &mut PageCache,
        page: u64,
        handle: u64,
        level: u32,
        source: &mut A,
        freed: &mut Vec<u64>,
    ) -> (outcome: Result<(u64, Option<HandleEntry>), ChiselError>)
        requires
            old(cache).inv(),
            old(cache).bounded(),
            old(source).ready(old(cache)),
            level <= MAX_DEPTH,
            handle < reach(ENTRIES_PER_LEAF as nat, level as nat),
            old(cache).watermark() + (level + 1) * A::growth() <= usize::MAX,
            tree_in(
                old(cache).contents(),
                ENTRIES_PER_LEAF as nat,
                page,
                level as nat,
                old(source).footprint(old(cache)).complement(),
            ),
        ensures
            cow_step(old(source), old(cache), final(source), final(cache), ((level + 1) * A::growth()) as nat),
            outcome matches Ok((n, found)) ==> found == if_live(
                node_entry(old(cache).contents(), page, level as nat, handle as nat),
            ),
            outcome matches Ok((n, None)) ==> n == page && final(cache).same_pages(old(cache)) && *final(source) == *old(
                source,
            ) && final(freed)@ == old(freed)@,
            outcome matches Ok((n, Some(_))) ==> path_changed(
                old(source),
                old(cache),
                final(source),
                final(cache),
                page,
                n,
                level as nat,
                handle as nat,
                tombstone(),
            ),
            outcome matches Ok((n, Some(_))) ==> on_new_path(
                old(source),
                old(cache),
                final(source),
                final(cache),
                ENTRIES_PER_LEAF as nat,
                n,
                level as nat,
                handle as nat,
            ),
            outcome matches Ok((n, Some(_))) ==> final(freed)@ == old(freed)@ + path_ids(
                old(cache).contents(),
                ENTRIES_PER_LEAF as nat,
                page,
                level as nat,
                handle as nat,
            ),
            outcome matches Err(e) ==> overrun(old(cache), final(cache), e, ((level + 1) * A::growth()) as nat) || path_unsound(
                old(cache),
                ENTRIES_PER_LEAF as nat,
                page,
                level as nat,
                handle as nat,
                e,
            ),
            old(freed)@.is_prefix_of(final(freed)@),
        decreases level,
    {
        let ghost c = ENTRIES_PER_LEAF as nat;
        let ghost lv = level as nat;
        let ghost h = handle as nat;
        let ghost g = A::growth();
        let ghost s0 = *source;
        let ghost c0 = *cache;
        let ghost f0 = freed@;
        let ghost good = source.footprint(cache).complement();
        let ghost p0 = cache.contents();
        let ghost total = ((level + 1) * g) as nat;
        proof {
            lemma_reach_bound(lv);
            lemma_reach();
            assert(node_at(p0, c, page, lv, h, lv) == Some(page));
            assert(good.contains(page));
            assert((level + 1) * g >= g) by (nonlinear_arith)
                requires
                    level >= 0,
                    g >= 0,
            ;
            cache.lemma_explains(page);
        }
        if level == 0 {
            let outcome = Self::delete_leaf(cache, page, handle, source, freed);
            proof {
                if let Ok((n, Some(_))) = outcome {
                    assert(path_changed(&s0, &c0, source, cache, page, n, lv, h, tombstone()));
                    assert(freed@ =~= f0 + path_ids(p0, c, page, lv, h));
                }
            }
            return outcome;
        }
        let ghost span = reach(c, (level - 1) as nat);
        let ghost i = h / span;
        proof {
            lemma_reach_bound((level - 1) as nat);
            lemma_descend(c, lv, h);
        }
        let child_span: u64 = self.span_at_level(level);
        let child_idx: usize = (handle / child_span) as usize;
        let child_page: u64 = match cache.get(page) {
            Ok(buf) => read_child(buf, child_idx),
            Err(e) => {
                proof {
                    lemma_cow_look(source, &c0, cache);
                }
                return Err(e);
            },
        };
        let ghost c4 = *cache;
        proof {
            lemma_cow_look(source, &c0, cache);
            assert(child_page == child_of(page_at(p0, page), i));
            assert((level + 1) * g == g + (level - 1 + 1) * g) by (nonlinear_arith);
        }
        if child_page == 0 {
            return Ok((page, None));
        }
        proof {
            assert(node_at(p0, c, child_page, (lv - 1) as nat, h % span, (lv - 1) as nat) == Some(child_page));
            assert(node_at(p0, c, page, lv, h, (lv - 1) as nat) == Some(child_page));
            lemma_child_tree(&s0, &c0, &s0, &c4, c, page, lv, h, child_page);
            assert(handle % child_span == h % span);
            assert(node_at(p0, c, page, lv, h, 0) == node_at(p0, c, child_page, (lv - 1) as nat, h % span, 0));
        }
        let ghost m = (level * g) as nat;
        let (new_child, found) = match self.delete_recursive(
            cache,
            child_page,
            handle % child_span,
            level - 1,
            source,
            freed,
        ) {
            Ok(r) => r,
            Err(e) => {
                proof {
                    lemma_cow_chain(&s0, &c0, &s0, &c4, source, cache, 0, m);
                    if path_unsound(&c4, c, child_page, (lv - 1) as nat, h % span, e) {
                        lemma_unsound_up(&s0, &c0, &s0, &c4, c, page, lv, h, child_page, e);
                    } else {
                        assert(too_many(&c4, e, m));
                    }
                }
                return Err(e);
            },
        };
        let ghost s5 = *source;
        let ghost c5 = *cache;
        let ghost f5 = freed@;
        proof {
            lemma_cow_chain(&s0, &c0, &s0, &c4, &s5, &c5, 0, m);
            lemma_agree_at(&c0, &c5, good, page);
            lemma_agree_at(&c0, &c5, good, child_page);
        }
        if found.is_none() {
            return Ok((page, None));
        }
        let ghost news = choose|news: Seq<u64>| #[trigger]
            path_written(&s0, &c4, &s5, &c5, child_page, new_child, (lv - 1) as nat, h % span, tombstone(), news);
        let new_page: u64 = match cow_page(cache, source, page) {
            Ok(n) => n,
            Err(e) => {
                proof {
                    lemma_cow_chain(&s0, &c0, &s5, &c5, source, cache, m, g);
                    if !too_many(&c5, e, g) {
                        assert(node_at(p0, c, page, lv, h, lv) == Some(page));
                        assert(path_unsound(&c0, c, page, lv, h, e));
                    }
                }
                return Err(e);
            },
        };
        let ghost s6 = *source;
        let ghost c6 = *cache;
        freed.push(page);
        proof {
            lemma_cow_chain(&s0, &c0, &s5, &c5, &s6, &c6, m, g);
            assert(taken(&s5, &c5, &s6, &c6, new_page));
            assert(freed@ =~= f0 + path_ids(p0, c, page, lv, h));
        }
        match link_child(cache, new_page, child_idx, new_child) {
            Ok(_) => {},
            Err(e) => {
                proof {
                    lemma_cow_look(source, &c6, cache);
                    lemma_cow_chain(&s0, &c0, &s6, &c6, source, cache, total, 0);
                }
                return Err(e);
            },
        }
        proof {
            lemma_parent_copied(
                &s0,
                &c0,
                &s5,
                &c5,
                &s6,
                &c6,
                cache,
                c,
                child_page,
                new_child,
                (lv - 1) as nat,
                h % span,
                news,
                &c4,
                new_page,
                g,
            );
            lemma_cow_edit_taken(&s0, &c0, &s6, &c6, cache, new_page, total);
            lemma_spine_len(&s0, &c4, &s5, &c5, c, child_page, new_child, (lv - 1) as nat, h % span, news);
            assert forall|x: u64| taken(&s0, &c4, &s5, &c5, x) implies #[trigger] taken(&s0, &c0, source, cache, x) by {
                assert(taken(&s0, &c0, &s5, &c5, x));
                assert(taken(&s0, &c0, &s6, &c6, x));
            }
            lemma_spine_step(
                &s0,
                &c0,
                &s0,
                &c4,
                &s5,
                &c5,
                source,
                cache,
                c,
                page,
                new_page,
                lv,
                h,
                child_page,
                news,
            );
            lemma_headed_step(
                &s0,
                &c0,
                &c4,
                &c5,
                cache,
                c,
                page,
                new_page,
                lv,
                h,
                child_page,
                news,
                table_head(),
            );
            assert(path_written(&s0, &c0, source, cache, page, new_page, lv, h, tombstone(), news.push(new_page)));
            lemma_spine_nodes(&s0, &c0, source, cache, c, page, new_page, lv, h, news.push(new_page));
            lemma_spine_nodes(&s0, &c4, &s5, &c5, c, child_page, new_child, (lv - 1) as nat, h % span, news);
            assert forall|x: u64| #[trigger] s0.footprint(&c0).contains(x) implies source.footprint(cache).contains(x)
                || path_has(cache.contents(), c, new_page, lv, h, x) by {
                if x == new_page {
                    assert(node_at(cache.contents(), c, new_page, lv, h, lv) == Some(x));
                } else if !s5.footprint(&c5).contains(x) {
                    assert(path_has(c5.contents(), c, new_child, (lv - 1) as nat, h % span, x));
                    let l = choose|l: nat|
                        l <= (lv - 1) as nat && #[trigger] node_at(
                            c5.contents(),
                            c,
                            new_child,
                            (lv - 1) as nat,
                            h % span,
                            l,
                        ) == Some(x);
                    assert(news.push(new_page)[l as int] == news[l as int]);
                    assert(node_at(cache.contents(), c, new_page, lv, h, l) == Some(x));
                }
            }
            assert(on_new_path(&s0, &c0, source, cache, c, new_page, lv, h));
            assert(path_changed(&s0, &c0, source, cache, page, new_page, lv, h, tombstone()));
        }
        Ok((new_page, found))
    }
}

/// How a leaf is read.
pub open spec fn entry_reader() -> spec_fn(Seq<u8>, nat) -> HandleEntry {
    |s: Seq<u8>, i: nat| entry_at(s, i)
}

/// Bound on the pages that one insertion allocates, in requests: up to six new
/// roots, and two pages for each level but the top.
pub open spec fn insert_requests() -> nat {
    19
}

/// Bound on the pages that one insertion into a tree of this depth allocates, if a
/// request to the source takes at most `g`: a root for each level that is added, and
/// two pages for each level but the top.
pub open spec fn insert_pages(depth: nat, handle: u64, g: nat) -> nat {
    let d = depth_for(depth, handle);
    ((d - depth + 2 * d + 1) * g) as nat
}

/// No insertion takes more than the deepest tree asks for.
pub proof fn lemma_insert_pages(depth: nat, handle: u64, g: nat)
    requires
        depth <= MAX_DEPTH,
    ensures
        insert_pages(depth, handle, g) <= insert_requests() * g,
{
    lemma_depth_for(depth, handle);
    let d = depth_for(depth, handle);
    assert((d - depth + 2 * d + 1) * g <= 19 * g) by (nonlinear_arith)
        requires
            d - depth + 2 * d + 1 <= 19,
            g >= 0,
    ;
}

/// The smallest depth from `depth` on at which `handle` is within reach.
pub open spec fn depth_for(depth: nat, handle: u64) -> nat
    decreases MAX_DEPTH - depth,
{
    if depth >= MAX_DEPTH || handle < reach(ENTRIES_PER_LEAF as nat, depth) {
        depth
    } else {
        depth_for(depth + 1, handle)
    }
}

/// A table holds nothing beyond the 64-bit handles.
pub open spec fn table_within(pages: Map<u64, Seq<u8>>, root: u64, depth: nat) -> bool {
    forall|k: nat|
        u64::MAX < k < reach(ENTRIES_PER_LEAF as nat, depth) ==> (#[trigger] node_entry(pages, root, depth, k)).flags
            == HandleFlags::Deleted
}

/// The new table says `entry` about `handle` and the same as the old one about
/// every other handle. It holds nothing beyond 64 bits if the old one does not.
pub open spec fn table_updated(
    before: Map<u64, Seq<u8>>,
    root0: u64,
    depth0: nat,
    after: Map<u64, Seq<u8>>,
    root1: u64,
    depth1: nat,
    handle: u64,
    entry: HandleEntry,
) -> bool {
    &&& forall|k: u64| #[trigger]
        table_lookup(after, root1, depth1, k) == (if k == handle {
            if_live(entry)
        } else {
            table_lookup(before, root0, depth0, k)
        })
    &&& table_within(before, root0, depth0) ==> table_within(after, root1, depth1)
}

/// Every entry of the grown table is that of the table below it.
spec fn entries_grown(
    before: Map<u64, Seq<u8>>,
    root0: u64,
    depth0: nat,
    after: Map<u64, Seq<u8>>,
    root1: u64,
    depth1: nat,
) -> bool {
    forall|k: nat|
        k < reach(ENTRIES_PER_LEAF as nat, depth1) ==> #[trigger] node_entry(after, root1, depth1, k) == (if k < reach(
            ENTRIES_PER_LEAF as nat,
            depth0,
        ) {
            node_entry(before, root0, depth0, k)
        } else {
            tombstone()
        })
}

/// Replacing a path changes the entry of its handle and no other.
proof fn lemma_entry_written<A: PageSource>(
    s0: &A,
    c0: &PageCache,
    s1: &A,
    c1: &PageCache,
    page: u64,
    n: u64,
    level: nat,
    h: nat,
    entry: HandleEntry,
    news: Seq<u64>,
    m: nat,
)
    requires
        h < reach(ENTRIES_PER_LEAF as nat, level),
        cow_step(s0, c0, s1, c1, m),
        path_written(s0, c0, s1, c1, page, n, level, h, entry, news),
        tree_in(c0.contents(), ENTRIES_PER_LEAF as nat, page, level, s0.footprint(c0).complement()),
    ensures
        forall|k: nat|
            k < reach(ENTRIES_PER_LEAF as nat, level) ==> #[trigger] node_entry(c1.contents(), n, level, k) == (if k
                == h {
                entry
            } else {
                node_entry(c0.contents(), page, level, k)
            }),
{
    let c = ENTRIES_PER_LEAF as nat;
    let read = entry_reader();
    lemma_value_written(s0, c0, s1, c1, c, page, n, level, h, news, m, read, tombstone(), entry);
    assert forall|k: nat| k < reach(c, level) implies #[trigger] node_entry(c1.contents(), n, level, k) == (if k == h {
        entry
    } else {
        node_entry(c0.contents(), page, level, k)
    }) by {
        assert(node_entry(c1.contents(), n, level, k) == tree_value(
            c1.contents(),
            c,
            n,
            level,
            k,
            read,
            tombstone(),
        ));
        assert(node_entry(c0.contents(), page, level, k) == tree_value(
            c0.contents(),
            c,
            page,
            level,
            k,
            read,
            tombstone(),
        ));
    }
}

/// Putting a root above the table keeps all entries.
proof fn lemma_entries_grown<A: PageSource>(
    s1: &A,
    c1: &PageCache,
    s2: &A,
    c2: &PageCache,
    cur: u64,
    d: nat,
    n: u64,
)
    requires
        tree_in(c1.contents(), ENTRIES_PER_LEAF as nat, cur, d, s1.footprint(c1).complement()),
        same_on(c1.contents(), c2.contents(), s1.footprint(c1).complement()),
        forall|k: nat, l: nat|
            k < reach(ENTRIES_PER_LEAF as nat, d + 1) && l <= d ==> #[trigger] node_at(
                c2.contents(),
                ENTRIES_PER_LEAF as nat,
                n,
                d + 1,
                k,
                l,
            ) == (if k < reach(ENTRIES_PER_LEAF as nat, d) {
                node_at(c1.contents(), ENTRIES_PER_LEAF as nat, cur, d, k, l)
            } else {
                None
            }),
        forall|k: nat|
            k < reach(ENTRIES_PER_LEAF as nat, d) ==> #[trigger] slot_of(ENTRIES_PER_LEAF as nat, d + 1, k) == slot_of(
                ENTRIES_PER_LEAF as nat,
                d,
                k,
            ),
    ensures
        reach(ENTRIES_PER_LEAF as nat, d) < reach(ENTRIES_PER_LEAF as nat, d + 1),
        entries_grown(c1.contents(), cur, d, c2.contents(), n, d + 1),
{
    let c = ENTRIES_PER_LEAF as nat;
    let read = entry_reader();
    lemma_value_grown(s1, c1, s2, c2, c, cur, d, n, read, tombstone());
    assert forall|k: nat| k < reach(c, d + 1) implies #[trigger] node_entry(c2.contents(), n, d + 1, k) == (if k
        < reach(c, d) {
        node_entry(c1.contents(), cur, d, k)
    } else {
        tombstone()
    }) by {
        assert(node_entry(c2.contents(), n, d + 1, k) == tree_value(
            c2.contents(),
            c,
            n,
            d + 1,
            k,
            read,
            tombstone(),
        ));
        assert(node_entry(c1.contents(), cur, d, k) == tree_value(c1.contents(), c, cur, d, k, read, tombstone()));
    }
}

/// A table that was grown and then changed at one handle.
proof fn lemma_table_updated(
    p0: Map<u64, Seq<u8>>,
    root: u64,
    d0: nat,
    p1: Map<u64, Seq<u8>>,
    cur: u64,
    d: nat,
    p2: Map<u64, Seq<u8>>,
    n: u64,
    handle: u64,
    entry: HandleEntry,
)
    requires
        d0 <= d <= MAX_DEPTH,
        root != PAGE_ID_NONE,
        n != PAGE_ID_NONE,
        handle < reach(ENTRIES_PER_LEAF as nat, d),
        entries_grown(p0, root, d0, p1, cur, d),
        forall|k: nat|
            k < reach(ENTRIES_PER_LEAF as nat, d) ==> #[trigger] node_entry(p2, n, d, k) == (if k == handle {
                entry
            } else {
                node_entry(p1, cur, d, k)
            }),
    ensures
        table_updated(p0, root, d0, p2, n, d, handle, entry),
{
    let c = ENTRIES_PER_LEAF as nat;
    lemma_reach_bound(d0);
    lemma_reach_bound(d);
    lemma_reach_mono(d0, d);
    assert forall|k: u64| #[trigger]
        table_lookup(p2, n, d, k) == (if k == handle {
            if_live(entry)
        } else {
            table_lookup(p0, root, d0, k)
        }) by {
        if k < reach(c, d) {
            assert(node_entry(p2, n, d, k as nat) == (if k == handle {
                entry
            } else {
                node_entry(p1, cur, d, k as nat)
            }));
            assert(node_entry(p1, cur, d, k as nat) == (if k < reach(c, d0) {
                node_entry(p0, root, d0, k as nat)
            } else {
                tombstone()
            }));
        }
    }
}

/// A deeper table reaches further.
pub proof fn lemma_reach_mono(a: nat, b: nat)
    requires
        a <= b,
    ensures
        reach(ENTRIES_PER_LEAF as nat, a) <= reach(ENTRIES_PER_LEAF as nat, b),
    decreases b,
{
    if a < b {
        lemma_reach_mono(a, (b - 1) as nat);
    }
}

/// The depth for a handle is in range, and sufficient.
pub proof fn lemma_depth_for(depth: nat, handle: u64)
    requires
        depth <= MAX_DEPTH,
    ensures
        depth <= depth_for(depth, handle) <= MAX_DEPTH,
        handle < reach(ENTRIES_PER_LEAF as nat, depth_for(depth, handle)),
    decreases MAX_DEPTH - depth,
{
    if depth >= MAX_DEPTH {
        lemma_reach_bound(depth);
    } else if handle >= reach(ENTRIES_PER_LEAF as nat, depth) {
        lemma_depth_for(depth + 1, handle);
    }
}

impl HandleTable {
    /// Make a new root whose child 0 is `old_root`. The depth grows by one.
    fn grow<A: PageSource>(&mut self, cache: &mut PageCache, old_root: u64, source: &mut A) -> (outcome: Result<
        u64,
        ChiselError,
    >)
        requires
            old(cache).inv(),
            old(cache).bounded(),
            old(source).ready(old(cache)),
            old(cache).watermark() + A::growth() <= usize::MAX,
            old(self).spec_depth() < MAX_DEPTH,
        ensures
            cow_step(old(source), old(cache), final(source), final(cache), A::growth()),
            match outcome {
                Ok(n) => {
                    &&& final(self).spec_depth() == old(self).spec_depth() + 1
                    &&& taken(old(source), old(cache), final(source), final(cache), n)
                    &&& final(source).footprint(final(cache)) == old(source).footprint(old(cache)).remove(n)
                    &&& final(cache).contents()[n][0] == PageType::HandleTable.code()
                    &&& final(cache).contents()[n][1] == FLAG_INTERIOR
                    &&& checksum_ok(final(cache).contents()[n])
                    &&& child_of(final(cache).contents()[n], 0) == old_root
                    &&& forall|i: nat| 0 < i < FANOUT ==> #[trigger] child_of(final(cache).contents()[n], i) == 0
                },
                Err(e) => final(self).spec_depth() == old(self).spec_depth() && overrun(old(cache), final(cache), e, A::growth()),
            },
    {
        let n: u64 = match source.next_page(cache) {
            Ok(n) => n,
            Err(e) => {
                return Err(e);
            },
        };
        let ghost mid = *cache;
        proof {
            cache.lemma_explains(n);
        }
        match cache.get_mut(n) {
            Ok(buf) => {
                *buf = zeroed();
                buf[0] = PageType::HandleTable.code();
                buf[1] = FLAG_INTERIOR;
                buf[2] = current_version(PageType::HandleTable);
                write_child(buf, 0, old_root);
                let ghost s = buf@;
                stamp_checksum(buf);
                proof {
                    lemma_stamped(s, buf@);
                }
            },
            Err(e) => {
                proof {
                    lemma_cow_look(source, &mid, cache);
                    lemma_cow_chain(old(source), old(cache), source, &mid, source, cache, A::growth(), 0);
                }
                return Err(e);
            },
        }
        self.depth = self.depth + 1;
        proof {
            lemma_cow_edit_taken(old(source), old(cache), source, &mid, cache, n, A::growth());
        }
        Ok(n)
    }

    /// Insert or replace the entry of a handle. Returns the new root. The tree
    /// grows until it reaches the handle; if that fails half-way, the depth
    /// stays where it got to, above a root that is not returned. The pages that
    /// the new tree no longer uses are appended to `freed`.
    pub fn insert<A: PageSource>(
        &mut self,
        cache: &mut PageCache,
        root: u64,
        handle: u64,
        entry: &HandleEntry,
        source: &mut A,
        freed: &mut Vec<u64>,
    ) -> (outcome: Result<u64, ChiselError>)
        requires
            old(cache).inv(),
            old(cache).bounded(),
            old(source).ready(old(cache)),
            old(self).spec_depth() <= MAX_DEPTH,
            root != 0,
            root != PAGE_ID_NONE,
            old(cache).watermark() + insert_requests() * A::growth() <= usize::MAX,
            tree_in(
                old(cache).contents(),
                ENTRIES_PER_LEAF as nat,
                root,
                old(self).spec_depth(),
                old(source).footprint(old(cache)).complement(),
            ),
        ensures
            cow_step(
                old(source),
                old(cache),
                final(source),
                final(cache),
                insert_pages(old(self).spec_depth(), handle, A::growth()),
            ),
            old(self).spec_depth() <= final(self).spec_depth() <= depth_for(old(self).spec_depth(), handle),
            depth_for(old(self).spec_depth(), handle) <= MAX_DEPTH,
            outcome matches Ok(n) ==> {
                &&& n != 0 && n != PAGE_ID_NONE
                &&& taken(old(source), old(cache), final(source), final(cache), n)
                &&& final(self).spec_depth() == depth_for(old(self).spec_depth(), handle)
                &&& table_updated(
                    old(cache).contents(),
                    root,
                    old(self).spec_depth(),
                    final(cache).contents(),
                    n,
                    final(self).spec_depth(),
                    handle,
                    *entry,
                )
                &&& tree_headed(
                    old(cache).contents(),
                    ENTRIES_PER_LEAF as nat,
                    root,
                    old(self).spec_depth(),
                    table_head(),
                ) ==> tree_headed(
                    final(cache).contents(),
                    ENTRIES_PER_LEAF as nat,
                    n,
                    final(self).spec_depth(),
                    table_head(),
                )
                &&& tree_kept(
                    old(source),
                    old(cache),
                    final(source),
                    final(cache),
                    ENTRIES_PER_LEAF as nat,
                    root,
                    old(self).spec_depth(),
                    n,
                    final(self).spec_depth(),
                )
                &&& freed_ok(
                    old(source),
                    old(cache),
                    final(source),
                    final(cache),
                    ENTRIES_PER_LEAF as nat,
                    root,
                    old(self).spec_depth(),
                    n,
                    final(self).spec_depth(),
                    handle as nat,
                    old(freed)@,
                    final(freed)@,
                )
            },
            outcome matches Err(e) ==> {
                &&& overrun(
                    old(cache),
                    final(cache),
                    e,
                    insert_pages(old(self).spec_depth(), handle, A::growth()),
                ) || handle < reach(
                    ENTRIES_PER_LEAF as nat,
                    old(self).spec_depth(),
                ) && path_unsound(
                    old(cache),
                    ENTRIES_PER_LEAF as nat,
                    root,
                    old(self).spec_depth(),
                    handle as nat,
                    e,
                )
                &&& old(freed)@.is_prefix_of(final(freed)@)
            },
    {
        let ghost c = ENTRIES_PER_LEAF as nat;
        let ghost h = handle as nat;
        let ghost g = A::growth();
        let ghost s0 = *source;
        let ghost c0 = *cache;
        let ghost d0 = self.spec_depth();
        let ghost f0 = freed@;
        let mut current_root: u64 = root;
        proof {
            lemma_grown_none(source, cache, c, root, d0, h);
            lemma_reach_bound(d0);
            lemma_depth_for(d0, handle);
            lemma_cow_look(source, &c0, cache);
            assert((d0 - d0) * g == 0) by (nonlinear_arith);
            lemma_insert_pages(d0, handle, g);
        }
        while !self.reaches(handle)
            invariant
                c == ENTRIES_PER_LEAF as nat,
                h == handle as nat,
                g == A::growth(),
                s0 == *old(source),
                c0 == *old(cache),
                d0 == old(self).spec_depth(),
                f0 == old(freed)@,
                freed@ == f0,
                d0 <= self.spec_depth() <= MAX_DEPTH,
                depth_for(d0, handle) == depth_for(self.spec_depth(), handle),
                c0.watermark() + insert_requests() * g <= usize::MAX,
                cow_step(&s0, &c0, source, cache, ((self.spec_depth() - d0) * g) as nat),
                grown_tree(&s0, &c0, source, cache, c, root, d0, current_root, self.spec_depth(), h),
                entries_grown(c0.contents(), root, d0, cache.contents(), current_root, self.spec_depth()),
                tree_headed(c0.contents(), c, root, d0, table_head()) ==> tree_headed(
                    cache.contents(),
                    c,
                    current_root,
                    self.spec_depth(),
                    table_head(),
                ),
                self.spec_depth() <= depth_for(d0, handle) <= MAX_DEPTH,
            decreases MAX_DEPTH - self.spec_depth(),
        {
            let ghost s1 = *source;
            let ghost c1 = *cache;
            let ghost d = self.spec_depth();
            proof {
                lemma_reach_bound(d);
                lemma_depth_for(d, handle);
                assert((d - d0) * g + g == (d + 1 - d0) * g) by (nonlinear_arith);
                let top = depth_for(d0, handle);
                lemma_depth_for(d + 1, handle);
                assert(d + 1 <= top);
                assert((d + 1 - d0) * g <= (top - d0 + 2 * top + 1) * g) by (nonlinear_arith)
                    requires
                        d0 <= d,
                        d + 1 <= top,
                        g >= 0,
                ;
                assert((top - d0 + 2 * top + 1) * g <= 19 * g) by (nonlinear_arith)
                    requires
                        top - d0 + 2 * top + 1 <= 19,
                        g >= 0,
                ;
            }
            match self.grow(cache, current_root, source) {
                Ok(n) => {
                    proof {
                        lemma_cow_chain(&s0, &c0, &s1, &c1, source, cache, ((d - d0) * g) as nat, g);
                        lemma_grown_step(
                            &s0,
                            &c0,
                            &s1,
                            &c1,
                            source,
                            cache,
                            c,
                            root,
                            d0,
                            current_root,
                            d,
                            n,
                            h,
                            ((d - d0) * g) as nat,
                            g,
                        );
                        lemma_entries_grown(&s1, &c1, source, cache, current_root, d, n);
                        lemma_reach_mono(d0, d);
                        if tree_headed(c1.contents(), c, current_root, d, table_head()) {
                            lemma_headed_grown(&s1, &c1, source, cache, c, current_root, d, n, table_head());
                        }
                        assert(entries_grown(c0.contents(), root, d0, cache.contents(), n, d + 1));
                    }
                    current_root = n;
                },
                Err(e) => {
                    proof {
                        lemma_cow_chain(&s0, &c0, &s1, &c1, source, cache, ((d - d0) * g) as nat, g);
                        assert(too_many(&c1, e, g));
                    }
                    return Err(e);
                },
            }
        }
        let ghost s1 = *source;
        let ghost c1 = *cache;
        let ghost d = self.spec_depth();
        let ghost a = ((d - d0) * g) as nat;
        let ghost missing = absent(c1.contents(), c, current_root, d, h);
        let ghost b = ((d + 1 + missing) * g) as nat;
        proof {
            lemma_absent(c1.contents(), c, current_root, d, h);
            lemma_reach_bound(d);
            assert(d == depth_for(d0, handle));
            assert(a + b <= (d - d0 + 2 * d + 1) * g) by (nonlinear_arith)
                requires
                    a == (d - d0) * g,
                    b == (d + 1 + missing) * g,
                    missing <= d,
                    g >= 0,
            ;
            assert(a + (2 * d + 1) * g <= 19 * g) by (nonlinear_arith)
                requires
                    a == (d - d0) * g,
                    d - d0 + 2 * d + 1 <= 19,
                    g >= 0,
            ;
        }
        match self.insert_recursive(cache, current_root, handle, entry, self.depth, source, freed) {
            Ok(n) => {
                proof {
                    let news = choose|news: Seq<u64>| #[trigger]
                        path_written(&s1, &c1, source, cache, current_root, n, d, h, *entry, news) && path_freed(
                            &s1,
                            &c1,
                            source,
                            cache,
                            c,
                            current_root,
                            d,
                            h,
                            f0,
                            freed@,
                            news,
                        );
                    lemma_path_replaced(
                        &s0,
                        &c0,
                        &s1,
                        &c1,
                        source,
                        cache,
                        c,
                        root,
                        d0,
                        current_root,
                        d,
                        n,
                        h,
                        news,
                        f0,
                        freed@,
                        a,
                        b,
                    );
                    lemma_entry_written(&s1, &c1, source, cache, current_root, n, d, h, *entry, news, b);
                    lemma_taken_id(&s0, &c0, source, cache, n);
                    if tree_headed(c1.contents(), c, current_root, d, table_head()) {
                        lemma_headed_kept(&s1, &c1, source, cache, c, current_root, n, d, h, news, table_head(), b);
                    }
                    lemma_table_updated(
                        c0.contents(),
                        root,
                        d0,
                        c1.contents(),
                        current_root,
                        d,
                        cache.contents(),
                        n,
                        handle,
                        *entry,
                    );
                }
                Ok(n)
            },
            Err(e) => {
                proof {
                    lemma_cow_chain(&s0, &c0, &s1, &c1, source, cache, a, b);
                    if !too_many(&c1, e, b) && d > d0 {
                        let l = choose|l: nat|
                            l <= d && ((#[trigger] node_at(c1.contents(), c, current_root, d, h, l)) matches Some(id)
                                && !c1.sound(id) && e == c1.read_error(id));
                        assert(l == d);
                        assert(false);
                    }
                }
                Err(e)
            },
        }
    }
}

impl HandleTable {
    /// Delete a handle. Returns the new root and the entry that the handle had;
    /// if it had none, the root is the old one and nothing is copied.
    pub fn delete<A: PageSource>(
        &mut self,
        cache: &mut PageCache,
        root: u64,
        handle: u64,
        source: &mut A,
        freed: &mut Vec<u64>,
    ) -> (outcome: Result<(u64, Option<HandleEntry>), ChiselError>)
        requires
            old(cache).inv(),
            old(cache).bounded(),
            old(source).ready(old(cache)),
            old(self).spec_depth() <= MAX_DEPTH,
            old(cache).watermark() + (MAX_DEPTH + 1) * A::growth() <= usize::MAX,
            root != PAGE_ID_NONE ==> tree_in(
                old(cache).contents(),
                ENTRIES_PER_LEAF as nat,
                root,
                old(self).spec_depth(),
                old(source).footprint(old(cache)).complement(),
            ),
        ensures
            cow_step(old(source), old(cache), final(source), final(cache), ((MAX_DEPTH + 1) * A::growth()) as nat),
            final(self).spec_depth() == old(self).spec_depth(),
            outcome matches Ok((n, found)) ==> found == table_lookup(
                old(cache).contents(),
                root,
                old(self).spec_depth(),
                handle,
            ),
            outcome matches Ok((n, None)) ==> n == root && final(cache).same_pages(old(cache)) && *final(source) == *old(
                source,
            ) && final(freed)@ == old(freed)@,
            outcome matches Ok((n, Some(_))) ==> {
                &&& n != 0 && n != PAGE_ID_NONE
                &&& taken(old(source), old(cache), final(source), final(cache), n)
                &&& table_updated(
                    old(cache).contents(),
                    root,
                    old(self).spec_depth(),
                    final(cache).contents(),
                    n,
                    final(self).spec_depth(),
                    handle,
                    tombstone(),
                )
                &&& tree_headed(
                    old(cache).contents(),
                    ENTRIES_PER_LEAF as nat,
                    root,
                    old(self).spec_depth(),
                    table_head(),
                ) ==> tree_headed(
                    final(cache).contents(),
                    ENTRIES_PER_LEAF as nat,
                    n,
                    final(self).spec_depth(),
                    table_head(),
                )
                &&& tree_kept(
                    old(source),
                    old(cache),
                    final(source),
                    final(cache),
                    ENTRIES_PER_LEAF as nat,
                    root,
                    old(self).spec_depth(),
                    n,
                    final(self).spec_depth(),
                )
                &&& freed_ok(
                    old(source),
                    old(cache),
                    final(source),
                    final(cache),
                    ENTRIES_PER_LEAF as nat,
                    root,
                    old(self).spec_depth(),
                    n,
                    final(self).spec_depth(),
                    handle as nat,
                    old(freed)@,
                    final(freed)@,
                )
            },
            outcome matches Err(e) ==> {
                &&& root != PAGE_ID_NONE
                &&& handle < reach(ENTRIES_PER_LEAF as nat, old(self).spec_depth())
                &&& overrun(old(cache), final(cache), e, ((MAX_DEPTH + 1) * A::growth()) as nat) || path_unsound(
                    old(cache),
                    ENTRIES_PER_LEAF as nat,
                    root,
                    old(self).spec_depth(),
                    handle as nat,
                    e,
                )
                &&& old(freed)@.is_prefix_of(final(freed)@)
            },
    {
        let ghost c = ENTRIES_PER_LEAF as nat;
        let ghost h = handle as nat;
        let ghost g = A::growth();
        let ghost s0 = *source;
        let ghost c0 = *cache;
        let ghost d = self.spec_depth();
        let ghost f0 = freed@;
        let ghost m = ((d + 1) * g) as nat;
        proof {
            lemma_cow_look(source, &c0, cache);
            lemma_reach_bound(d);
            assert((d + 1) * g <= (MAX_DEPTH + 1) * g) by (nonlinear_arith)
                requires
                    d <= MAX_DEPTH,
                    g >= 0,
            ;
        }
        if root == PAGE_ID_NONE {
            return Ok((root, None));
        }
        if !self.reaches(handle) {
            return Ok((root, None));
        }
        let outcome = self.delete_recursive(cache, root, handle, self.depth, source, freed);
        proof {
            if let Ok((n, Some(_))) = outcome {
                let news = choose|news: Seq<u64>| #[trigger]
                    path_written(&s0, &c0, source, cache, root, n, d, h, tombstone(), news);
                lemma_spine_tree(&s0, &c0, source, cache, c, root, n, d, h, news, m);
                lemma_spine_len(&s0, &c0, source, cache, c, root, n, d, h, news);
                lemma_entry_written(&s0, &c0, source, cache, root, n, d, h, tombstone(), news, m);
                lemma_taken_id(&s0, &c0, source, cache, n);
                assert(entries_grown(c0.contents(), root, d, c0.contents(), root, d));
                lemma_table_updated(
                    c0.contents(),
                    root,
                    d,
                    c0.contents(),
                    root,
                    d,
                    cache.contents(),
                    n,
                    handle,
                    tombstone(),
                );
                if tree_headed(c0.contents(), c, root, d, table_head()) {
                    lemma_headed_kept(&s0, &c0, source, cache, c, root, n, d, h, news, table_head(), m);
                }
                lemma_path_ids(c0.contents(), c, root, d, h);
                let gone = path_ids(c0.contents(), c, root, d, h);
                let tail = freed@.skip(f0.len() as int);
                assert(tail =~= gone);
                assert forall|l: nat| l <= d implies ((#[trigger] node_at(c0.contents(), c, root, d, h, l)) matches Some(id)
                    ==> tail.contains(id)) by {
                    assert(gone[l as int] == node_at(c0.contents(), c, root, d, h, l)->0);
                }
                assert forall|id: u64| #[trigger] nodes_of(c0.contents(), c, root, d).contains(id) implies nodes_of(
                    cache.contents(),
                    c,
                    n,
                    d,
                ).contains(id) || tail.contains(id) by {
                    if path_has(c0.contents(), c, root, d, h, id) {
                        let l = choose|l: nat|
                            l <= d && #[trigger] node_at(c0.contents(), c, root, d, h, l) == Some(id);
                        assert(tail.contains(id));
                    } else {
                        lemma_off_path_stays(&s0, &c0, source, cache, c, root, n, d, h, news, id);
                    }
                }
                assert forall|id: u64| #[trigger] s0.footprint(&c0).contains(id) implies source.footprint(cache).contains(
                    id,
                ) || nodes_of(cache.contents(), c, n, d).contains(id) by {
                    if path_has(cache.contents(), c, n, d, h, id) {
                        let l = choose|l: nat|
                            l <= d && #[trigger] node_at(cache.contents(), c, n, d, h, l) == Some(id);
                        assert(node_at(cache.contents(), c, n, d, h, l) == Some(id));
                    }
                }
                assert forall|i: int| f0.len() <= i < freed@.len() implies {
                    &&& exists|l: nat|
                        l <= d && #[trigger] node_at(c0.contents(), c, root, d, h, l) == Some(#[trigger] freed@[i])
                    &&& is_tree(c0.contents(), c, root, d) ==> tree_in(
                        cache.contents(),
                        c,
                        n,
                        d,
                        Set::<u64>::full().remove(freed@[i]),
                    )
                } by {
                    let l = (i - f0.len()) as nat;
                    assert(gone[l as int] == freed@[i]);
                    assert(node_at(c0.contents(), c, root, d, h, l) == Some(freed@[i]));
                }
            }
        }
        outcome
    }

    /// Make an empty leaf the root, at depth 0.
    pub fn create_root(&mut self, cache: &mut PageCache) -> (outcome: Result<u64, ChiselError>)
        requires
            old(cache).inv(),
            old(cache).bounded(),
            0 < old(cache).watermark() < usize::MAX,
        ensures
            final(cache).inv(),
            final(cache).bounded(),
            extended(old(cache), final(cache), 1),
            outcome matches Ok(n) ==> {
                &&& n == old(cache).watermark()
                &&& final(self).spec_depth() == 0
                &&& checksum_ok(final(cache).contents()[n])
                &&& tree_headed(final(cache).contents(), ENTRIES_PER_LEAF as nat, n, 0, table_head())
                &&& forall|k: u64| #[trigger] table_lookup(final(cache).contents(), n, 0, k) is None
            },
            outcome matches Err(e) ==> final(self).spec_depth() == old(self).spec_depth() && overrun(old(cache), final(cache), e, 1),
    {
        let page_id: u64 = match cache.new_page() {
            Ok(id) => id,
            Err(e) => {
                proof {
                    lemma_extended_by_one(old(cache), cache);
                }
                return Err(e);
            },
        };
        proof {
            cache.lemma_explains(page_id);
        }
        match cache.get_mut(page_id) {
            Ok(buf) => {
                Self::init_node(buf, FLAG_LEAF);
            },
            Err(e) => {
                proof {
                    lemma_extended_by_one(old(cache), cache);
                }
                return Err(e);
            },
        }
        self.depth = 0;
        proof {
            lemma_reach();
            lemma_extended_by_one(old(cache), cache);
            assert forall|k: u64| #[trigger] table_lookup(cache.contents(), page_id, 0, k) is None by {
                if k < reach(510, 0) {
                    assert(node_at(cache.contents(), 510, page_id, 0, k as nat, 0) == Some(page_id));
                    assert(entry_at(page_at(cache.contents(), page_id), slot_of(510, 0, k as nat)) == tombstone());
                }
            }
        }
        Ok(page_id)
    }
}

/// The depth found by walking down the leftmost pages from `page`, which is
/// `depth` levels down; `Err` is the page at which the walk finds the tree
/// corrupt: an interior page of another type, or one below the deepest level.
pub open spec fn left_depth(pages: Map<u64, Seq<u8>>, page: u64, depth: nat) -> Result<nat, u64>
    decreases MAX_DEPTH + 1 - depth,
{
    let s = page_at(pages, page);
    if s[1] != FLAG_INTERIOR {
        Ok(depth)
    } else if s[0] != PageType::HandleTable.spec_code() || depth >= MAX_DEPTH {
        Err(page)
    } else if child_of(s, 0) == 0 {
        Ok(depth + 1)
    } else {
        left_depth(pages, child_of(s, 0), depth + 1)
    }
}

/// A depth is found no higher up than where the walk is.
proof fn lemma_left_depth_least(pages: Map<u64, Seq<u8>>, page: u64, depth: nat)
    requires
        depth <= MAX_DEPTH,
    ensures
        left_depth(pages, page, depth) matches Ok(d) ==> depth <= d,
    decreases MAX_DEPTH - depth,
{
    if depth < MAX_DEPTH {
        lemma_left_depth_least(pages, child_of(page_at(pages, page), 0), depth + 1);
    }
}

/// The page `i` levels down along the leftmost pointers.
pub open spec fn left_page(pages: Map<u64, Seq<u8>>, root: u64, i: nat) -> u64
    decreases i,
{
    if i == 0 {
        root
    } else {
        child_of(page_at(pages, left_page(pages, root, (i - 1) as nat)), 0)
    }
}

/// The walk down the leftmost pages of a table whose pages begin as they
/// should finds its depth.
proof fn lemma_left_depth(pages: Map<u64, Seq<u8>>, page: u64, level: nat, depth: nat)
    requires
        level + depth <= MAX_DEPTH,
        tree_headed(pages, ENTRIES_PER_LEAF as nat, page, level, table_head()),
    ensures
        left_depth(pages, page, depth) == Ok::<nat, u64>(level + depth),
    decreases level,
{
    let c = ENTRIES_PER_LEAF as nat;
    lemma_reach_pos(c, level);
    assert(node_at(pages, c, page, level, 0, level) == Some(page));
    assert(head_of(page_at(pages, page)) == table_head()(level));
    if level > 0 {
        let down = (level - 1) as nat;
        let span = reach(c, down);
        lemma_descend(c, level, 0);
        vstd::arithmetic::div_mod::lemma_basic_div(0, span as int);
        vstd::arithmetic::div_mod::lemma_small_mod(0, span);
        let child = child_of(page_at(pages, page), 0);
        assert(child != 0);
        assert forall|k: nat, l: nat| k < span && l <= down implies ((#[trigger] node_at(
            pages,
            c,
            child,
            down,
            k,
            l,
        )) matches Some(id) ==> head_of(page_at(pages, id)) == table_head()(l)) by {
            lemma_ascend(c, level, 0, k);
            assert(node_at(pages, c, page, level, k, l) == node_at(pages, c, child, down, k, l));
        }
        lemma_left_depth(pages, child, down, depth + 1);
    }
}

/// The depth of a table that was built by creating a root, inserting and
/// deleting is the one that walking down its leftmost pages finds.
pub proof fn law_depth_is_recovered(pages: Map<u64, Seq<u8>>, root: u64, depth: nat)
    requires
        depth <= MAX_DEPTH,
        tree_headed(pages, ENTRIES_PER_LEAF as nat, root, depth, table_head()),
    ensures
        left_depth(pages, root, 0) == Ok::<nat, u64>(depth),
{
    lemma_left_depth(pages, root, depth, 0);
}

impl HandleTable {
    /// Find the depth of the tree by walking down its leftmost pages.
    pub fn recover_depth(cache: &mut PageCache, root: u64) -> (outcome: Result<u32, ChiselError>)
        requires
            old(cache).inv(),
        ensures
            final(cache).inv(),
            final(cache).same_pages(old(cache)),
            old(cache).all_sound() ==> final(cache).all_sound(),
            old(cache).bounded() ==> final(cache).bounded(),
            root == PAGE_ID_NONE ==> outcome == Ok::<u32, ChiselError>(0),
            root != PAGE_ID_NONE ==> (outcome matches Ok(depth) ==> left_depth(old(cache).contents(), root, 0) == Ok::<
                nat,
                u64,
            >(depth as nat)),
            outcome matches Err(e) ==> {
                ||| left_depth(old(cache).contents(), root, 0) matches Err(page_id) && e == ChiselError::CorruptPage {
                    page_id,
                }
                ||| exists|i: nat|
                    i <= MAX_DEPTH && (left_depth(old(cache).contents(), root, 0) matches Ok(d) ==> i <= d) && old(
                        cache,
                    ).explains(e, #[trigger] left_page(old(cache).contents(), root, i))
            },
    {
        if root == PAGE_ID_NONE {
            return Ok(0);
        }
        let ghost pages = cache.contents();
        let mut depth: u32 = 0;
        let mut current: u64 = root;
        loop
            invariant
                cache.inv(),
                cache.same_pages(old(cache)),
                old(cache).all_sound() ==> cache.all_sound(),
                old(cache).bounded() ==> cache.bounded(),
                pages == old(cache).contents(),
                root != PAGE_ID_NONE,
                depth <= MAX_DEPTH,
                current == left_page(pages, root, depth as nat),
                left_depth(pages, root, 0) == left_depth(pages, current, depth as nat),
            decreases MAX_DEPTH - depth,
        {
            proof {
                cache.lemma_explains(current);
                old(cache).lemma_same_explains(&*cache, current);
            }
            let buf: &[u8; PAGE_SIZE] = match cache.get(current) {
                Ok(buf) => buf,
                Err(e) => {
                    proof {
                        lemma_left_depth_least(pages, current, depth as nat);
                    }
                    return Err(e);
                },
            };
            assert(buf@ == page_at(pages, current));
            if buf[1] != FLAG_INTERIOR {
                return Ok(depth);
            }
            if buf[0] != PageType::HandleTable.code() {
                return Err(ChiselError::CorruptPage { page_id: current });
            }
            depth = depth + 1;
            if depth > MAX_DEPTH {
                return Err(ChiselError::CorruptPage { page_id: current });
            }
            let child: u64 = read_child(buf, 0);
            if child == 0 {
                return Ok(depth);
            }
            current = child;
        }
    }
}

impl Default for HandleTable {
    fn default() -> (table: HandleTable)
        ensures
            table.spec_depth() == 0,
    {
        HandleTable::new()
    }
}

/// How the table is read when it is enumerated: entries that are not deleted
/// are present.
pub open spec fn table_reading() -> Reading<HandleEntry> {
    Reading {
        read: entry_reader(),
        none: tombstone(),
        live: |entry: HandleEntry| entry.flags != HandleFlags::Deleted,
    }
}

impl HandleTable {
    /// All entries that are not deleted, in ascending order of their handles.
    pub fn iter_live(&self, cache: &mut PageCache, root: u64) -> (outcome: Result<
        Vec<(u64, HandleEntry)>,
        ChiselError,
    >)
        requires
            old(cache).inv(),
        ensures
            final(cache).inv(),
            final(cache).same_pages(old(cache)),
            old(cache).bounded() ==> final(cache).bounded(),
            old(cache).all_sound() ==> final(cache).all_sound(),
            old(cache).all_sound() && outcome is Ok && root != PAGE_ID_NONE && self.spec_depth() <= MAX_DEPTH ==> tree_in(
                old(cache).contents(),
                ENTRIES_PER_LEAF as nat,
                root,
                self.spec_depth(),
                sound_pages(old(cache)),
            ),
            root == PAGE_ID_NONE || self.spec_depth() > MAX_DEPTH ==> (outcome matches Ok(list) && list@ == Seq::<
                (u64, HandleEntry),
            >::empty()),
            root != PAGE_ID_NONE && self.spec_depth() <= MAX_DEPTH ==> match outcome {
                Ok(list) => lists_all(
                    old(cache).contents(),
                    ENTRIES_PER_LEAF as nat,
                    root,
                    self.spec_depth(),
                    table_reading(),
                    0,
                    list@,
                ),
                Err(e) => tree_explains(old(cache), ENTRIES_PER_LEAF as nat, root, self.spec_depth(), e),
            },
    {
        let mut result: Vec<(u64, HandleEntry)> = Vec::new();
        if root == PAGE_ID_NONE || self.depth > MAX_DEPTH {
            return Ok(result);
        }
        match self.iter_recursive(cache, root, 0, self.depth, &mut result) {
            Ok(_) => {
                assert(result@.skip(0) =~= result@);
                Ok(result)
            },
            Err(e) => Err(e),
        }
    }

    /// Append the entries below a page that are not deleted.
    fn iter_recursive(
        &self,
        cache: &mut PageCache,
        page_id: u64,
        base_handle: u64,
        level: u32,
        result: &mut Vec<(u64, HandleEntry)>,
    ) -> (outcome: Result<(), ChiselError>)
        requires
            old(cache).inv(),
            level <= MAX_DEPTH,
        ensures
            final(cache).inv(),
            final(cache).same_pages(old(cache)),
            old(cache).bounded() ==> final(cache).bounded(),
            old(cache).all_sound() ==> final(cache).all_sound(),
            match outcome {
                Ok(_) => {
                    &&& old(cache).all_sound() ==> tree_in(
                        old(cache).contents(),
                        ENTRIES_PER_LEAF as nat,
                        page_id,
                        level as nat,
                        sound_pages(old(cache)),
                    )
                    &&& old(result)@.is_prefix_of(final(result)@)
                    &&& lists_all(
                        old(cache).contents(),
                        ENTRIES_PER_LEAF as nat,
                        page_id,
                        level as nat,
                        table_reading(),
                        base_handle as nat,
                        final(result)@.skip(old(result)@.len() as int),
                    )
                },
                Err(e) => tree_explains(old(cache), ENTRIES_PER_LEAF as nat, page_id, level as nat, e),
            },
        decreases level,
    {
        let ghost c = ENTRIES_PER_LEAF as nat;
        let ghost lv = level as nat;
        let ghost r = table_reading();
        let ghost base = base_handle as nat;
        let ghost pages = cache.contents();
        let ghost c0 = *cache;
        let ghost r0 = result@;
        let ghost mut keys: Seq<nat> = Seq::empty();
        proof {
            lemma_reach();
            lemma_reach_bound(lv);
            lemma_lists_empty(pages, c, page_id, lv, r, base);
            assert(result@ =~= r0 + Seq::<(u64, HandleEntry)>::empty());
            cache.lemma_explains(page_id);
        }
        let ghost mut out: Seq<(u64, HandleEntry)> = Seq::empty();
        if level == 0 {
            let buf: &[u8; PAGE_SIZE] = match cache.get(page_id) {
                Ok(buf) => buf,
                Err(e) => {
                    proof {
                        lemma_top_explains(&c0, c, page_id, lv, e);
                    }
                    return Err(e);
                },
            };
            let mut i: usize = 0;
            while i < ENTRIES_PER_LEAF
                invariant
                    i <= ENTRIES_PER_LEAF,
                    c == ENTRIES_PER_LEAF as nat,
                    r == table_reading(),
                    base == base_handle as nat,
                    buf@ == page_at(pages, page_id),
                    lists(pages, c, page_id, 0, r, base, i as nat, keys, out),
                    result@ == r0 + out,
                decreases ENTRIES_PER_LEAF - i,
            {
                let entry: HandleEntry = Self::read_entry(buf, i);
                proof {
                    assert(node_at(pages, c, page_id, 0, i as nat, 0) == Some(page_id));
                    assert(slot_of(c, 0, i as nat) == i);
                    assert(r.value(pages, c, page_id, 0, i as nat) == entry);
                }
                if entry.flags != HandleFlags::Deleted {
                    result.push((base_handle.saturating_add(i as u64), entry));
                    proof {
                        lemma_lists_push(pages, c, page_id, 0, r, base, i as nat, keys, out);
                        out = out.push((saturated(base + i as nat), entry));
                        keys = keys.push(i as nat);
                        assert(result@ =~= r0 + out);
                    }
                } else {
                    proof {
                        lemma_lists_skip(pages, c, page_id, 0, r, base, i as nat, i as nat + 1, keys, out);
                    }
                }
                i = i + 1;
            }
            proof {
                assert(result@.skip(r0.len() as int) =~= out);
                assert(r0.is_prefix_of(result@));
                assert forall|k: nat, l: nat| l <= 0 implies #[trigger] node_at(pages, c, page_id, 0, k, l) == Some(
                    page_id,
                ) by {}
            }
            return Ok(());
        }
        let ghost down = (level - 1) as nat;
        let ghost span = reach(c, down);
        proof {
            lemma_reach_bound(down);
        }
        let child_span: u64 = self.span_at_level(level);
        let children: Vec<u64> = match read_children(cache, page_id) {
            Ok(children) => children,
            Err(e) => {
                proof {
                    lemma_top_explains(&c0, c, page_id, lv, e);
                }
                return Err(e);
            },
        };
        let mut i: usize = 0;
        proof {
            assert(0 * span == 0) by (nonlinear_arith);
        }
        while i < FANOUT
            invariant
                i <= FANOUT,
                0 < level <= MAX_DEPTH,
                c == ENTRIES_PER_LEAF as nat,
                lv == level as nat,
                down == (level - 1) as nat,
                span == reach(c, down),
                child_span == span,
                r == table_reading(),
                base == base_handle as nat,
                cache.inv(),
                c0.inv(),
                c0 == *old(cache),
                pages == c0.contents(),
                cache.same_pages(&c0),
                c0.bounded() ==> cache.bounded(),
                c0.all_sound() ==> cache.all_sound() && c0.sound(page_id),
                c0.all_sound() ==> forall|j: nat|
                    j < i && #[trigger] child_of(page_at(pages, page_id), j) != 0 ==> tree_in(
                        pages,
                        c,
                        child_of(page_at(pages, page_id), j),
                        down,
                        sound_pages(&c0),
                    ),
                children@.len() == FANOUT,
                forall|j: int| 0 <= j < FANOUT ==> #[trigger] children@[j] == child_of(page_at(pages, page_id), j as nat),
                lists(pages, c, page_id, lv, r, base, i as nat * span, keys, out),
                result@ == r0 + out,
            decreases FANOUT - i,
        {
            let child: u64 = children[i];
            if child != 0 {
                let next_base: u64 = child_base(base_handle, i as u64, child_span);
                let ghost before = *cache;
                let ghost r1 = result@;
                match self.iter_recursive(cache, child, next_base, level - 1, result) {
                    Ok(_) => {
                        proof {
                            assert(sound_pages(&before) =~= sound_pages(&c0));
                            let sub_out = result@.skip(r1.len() as int);
                            let sub_keys = choose|k: Seq<nat>| #[trigger]
                                lists(pages, c, child, down, r, next_base as nat, reach(c, down), k, sub_out);
                            assert(base_handle + i as u64 * child_span == base + i as nat * span);
                            lemma_lists_rebase(
                                pages,
                                c,
                                child,
                                down,
                                r,
                                base + i as nat * span,
                                span,
                                sub_keys,
                                sub_out,
                            );
                            lemma_lists_child(
                                pages,
                                c,
                                page_id,
                                lv,
                                r,
                                base,
                                i as nat,
                                child,
                                span,
                                keys,
                                out,
                                sub_keys,
                                sub_out,
                            );
                            assert(i as nat * span + span == (i + 1) as nat * span) by (nonlinear_arith);
                            assert(result@ =~= r1 + sub_out);
                            assert(result@ =~= r0 + (out + sub_out));
                            keys = keys + sub_keys.map(|j: int, k: nat| i as nat * reach(c, (lv - 1) as nat) + k);
                            out = out + sub_out;
                        }
                    },
                    Err(e) => {
                        proof {
                            lemma_same_tree_explains(&c0, &before, c, child, down, e);
                            lemma_child_explains(&c0, c, page_id, lv, i as nat, e);
                        }
                        return Err(e);
                    },
                }
            } else {
                proof {
                    lemma_lists_gap(pages, c, page_id, lv, r, base, i as nat, keys, out);
                    assert((i + 1) as nat == i as nat + 1);
                }
            }
            i = i + 1;
        }
        proof {
            if c0.all_sound() {
                lemma_node_in(pages, c, page_id, lv, sound_pages(&c0));
            }
            assert(result@.skip(r0.len() as int) =~= out);
            assert(r0.is_prefix_of(result@));
        }
        Ok(())
    }
}

/// Whatever a copy-on-write operation does, a table outside the footprint of
/// its page source says the same as before: a reader of the old root sees the
/// old table.
pub proof fn law_old_table_stays<A: PageSource>(
    source0: &A,
    cache0: &PageCache,
    source1: &A,
    cache1: &PageCache,
    n: nat,
    root: u64,
    depth: nat,
    handle: u64,
)
    requires
        cow_step(source0, cache0, source1, cache1, n),
        tree_in(
            cache0.contents(),
            ENTRIES_PER_LEAF as nat,
            root,
            depth,
            source0.footprint(cache0).complement(),
        ),
    ensures
        table_lookup(cache1.contents(), root, depth, handle) == table_lookup(cache0.contents(), root, depth, handle),
{
    let c = ENTRIES_PER_LEAF as nat;
    let out = source0.footprint(cache0).complement();
    lemma_good_kept(source0, cache0, source1, cache1, n);
    lemma_tree_same(cache0.contents(), cache1.contents(), c, root, depth, out);
    if handle < reach(c, depth) {
        let h = handle as nat;
        assert(node_at(cache0.contents(), c, root, depth, h, 0) == node_at(cache1.contents(), c, root, depth, h, 0));
        if node_at(cache0.contents(), c, root, depth, h, 0) is Some {
            assert(out.contains(node_at(cache0.contents(), c, root, depth, h, 0)->0));
        }
    }
}

/// Inserting gives back what was inserted: the new table says `entry` about
/// `handle` and what the old one said about every other handle, and a reader of the
/// old root still gets every old answer.
pub proof fn law_insert_is_read_back<A: PageSource>(
    source0: &A,
    cache0: &PageCache,
    source1: &A,
    cache1: &PageCache,
    root0: u64,
    depth0: nat,
    root1: u64,
    depth1: nat,
    handle: u64,
    entry: HandleEntry,
)
    requires
        entry.flags != HandleFlags::Deleted,
        tree_in(
            cache0.contents(),
            ENTRIES_PER_LEAF as nat,
            root0,
            depth0,
            source0.footprint(cache0).complement(),
        ),
        cow_step(source0, cache0, source1, cache1, insert_pages(depth0, handle, A::growth())),
        table_updated(cache0.contents(), root0, depth0, cache1.contents(), root1, depth1, handle, entry),
    ensures
        table_lookup(cache1.contents(), root1, depth1, handle) == Some(entry),
        forall|k: u64|
            k != handle ==> #[trigger] table_lookup(cache1.contents(), root1, depth1, k) == table_lookup(
                cache0.contents(),
                root0,
                depth0,
                k,
            ),
        forall|k: u64| #[trigger]
            table_lookup(cache1.contents(), root0, depth0, k) == table_lookup(cache0.contents(), root0, depth0, k),
{
    assert forall|k: u64| #[trigger]
        table_lookup(cache1.contents(), root0, depth0, k) == table_lookup(cache0.contents(), root0, depth0, k) by {
        law_old_table_stays(
            source0,
            cache0,
            source1,
            cache1,
            insert_pages(depth0, handle, A::growth()),
            root0,
            depth0,
            k,
        );
    }
}

/// Deleting takes one handle away: the new table has no entry for it and says what the
/// old one said about every other handle, and a reader of the old root still gets every
/// old answer.
pub proof fn law_delete_is_read_back<A: PageSource>(
    source0: &A,
    cache0: &PageCache,
    source1: &A,
    cache1: &PageCache,
    root0: u64,
    depth: nat,
    root1: u64,
    handle: u64,
)
    requires
        tree_in(
            cache0.contents(),
            ENTRIES_PER_LEAF as nat,
            root0,
            depth,
            source0.footprint(cache0).complement(),
        ),
        cow_step(source0, cache0, source1, cache1, ((MAX_DEPTH + 1) * A::growth()) as nat),
        table_updated(cache0.contents(), root0, depth, cache1.contents(), root1, depth, handle, tombstone()),
    ensures
        table_lookup(cache1.contents(), root1, depth, handle) is None,
        forall|k: u64|
            k != handle ==> #[trigger] table_lookup(cache1.contents(), root1, depth, k) == table_lookup(
                cache0.contents(),
                root0,
                depth,
                k,
            ),
        forall|k: u64| #[trigger]
            table_lookup(cache1.contents(), root0, depth, k) == table_lookup(cache0.contents(), root0, depth, k),
{
    assert forall|k: u64| #[trigger]
        table_lookup(cache1.contents(), root0, depth, k) == table_lookup(cache0.contents(), root0, depth, k) by {
        law_old_table_stays(
            source0,
            cache0,
            source1,
            cache1,
            ((MAX_DEPTH + 1) * A::growth()) as nat,
            root0,
            depth,
            k,
        );
    }
}

/// The enumeration of a table holds a pair of handle and entry exactly if
/// looking up the handle gives the entry, and its handles ascend. Of the last
/// 64-bit number this holds unless the table has something beyond it, which the
/// enumeration would list there.
pub proof fn law_listing_is_lookup(
    pages: Map<u64, Seq<u8>>,
    root: u64,
    depth: nat,
    list: Seq<(u64, HandleEntry)>,
)
    requires
        root != PAGE_ID_NONE,
        depth <= MAX_DEPTH,
        lists_all(pages, ENTRIES_PER_LEAF as nat, root, depth, table_reading(), 0, list),
    ensures
        forall|k: u64, entry: HandleEntry|
            k < u64::MAX || table_within(pages, root, depth) ==> (#[trigger] list.contains((k, entry))
                <==> table_lookup(pages, root, depth, k) == Some(entry)),
        forall|k: u64, entry: HandleEntry|
            table_lookup(pages, root, depth, k) == Some(entry) ==> #[trigger] list.contains((k, entry)),
        forall|i: int, j: int| 0 <= i < j < list.len() ==> (#[trigger] list[i]).0 <= (#[trigger] list[j]).0,
        forall|i: int, j: int|
            0 <= i < j < list.len() && (list[j].0 < u64::MAX || table_within(pages, root, depth)) ==> (
            #[trigger] list[i]).0 < (#[trigger] list[j]).0,
        depth < MAX_DEPTH ==> table_within(pages, root, depth),
{
    let c = ENTRIES_PER_LEAF as nat;
    let r = table_reading();
    let keys = choose|keys: Seq<nat>| #[trigger] lists(pages, c, root, depth, r, 0, reach(c, depth), keys, list);
    lemma_lists_facts(pages, c, root, depth, r, 0, reach(c, depth), keys, list);
    lemma_reach_bound(depth);
    assert forall|i: int| table_within(pages, root, depth) && 0 <= i < keys.len() implies #[trigger] keys[i] <= u64::MAX by {
        assert(node_entry(pages, root, depth, keys[i]) == r.value(pages, c, root, depth, keys[i]));
        assert(r.present(pages, c, root, depth, keys[i]));
    }
    assert forall|k: u64, entry: HandleEntry|
        (k < u64::MAX || table_within(pages, root, depth) ==> (#[trigger] list.contains((k, entry)) <==> table_lookup(
            pages,
            root,
            depth,
            k,
        ) == Some(entry))) && (table_lookup(pages, root, depth, k) == Some(entry) ==> list.contains((k, entry))) by {
        if (k < u64::MAX || table_within(pages, root, depth)) && list.contains((k, entry)) {
            let i = list.index_of((k, entry));
            assert(keys[i] < reach(c, depth));
            assert(saturated(keys[i]) == k);
            assert(keys[i] == k);
            assert(node_entry(pages, root, depth, k as nat) == r.value(pages, c, root, depth, k as nat));
        }
        if table_lookup(pages, root, depth, k) == Some(entry) {
            assert(node_entry(pages, root, depth, k as nat) == r.value(pages, c, root, depth, k as nat));
            assert(r.present(pages, c, root, depth, k as nat));
            let i = keys.index_of(k as nat);
            assert(list[i] == (k, entry));
        }
    }
    assert forall|i: int, j: int| 0 <= i < j < list.len() implies (#[trigger] list[i]).0 <= (#[trigger] list[j]).0 && (
    list[j].0 < u64::MAX || table_within(pages, root, depth) ==> list[i].0 < list[j].0) by {
        assert(keys[i] < keys[j]);
        assert(keys[j] < reach(c, depth));
        assert(saturated(keys[i]) == list[i].0);
        assert(saturated(keys[j]) == list[j].0);
    }
}

} // verus!
