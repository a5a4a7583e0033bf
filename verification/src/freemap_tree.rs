//! The freemap: a copy-on-write radix tree of bitmap pages that tracks which
//! page ids are free.
//!
//! A leaf is a freemap page with one bit per id; an interior page holds child
//! page ids, and a zero child means that every id below it is in use. The pages
//! of the tree itself never come out of the tree: they are taken from a page
//! source that extends the storage.
//!
//! The first mutation in a session that touches a page copies it to a fresh
//! page and puts the old id on the list of superseded pages. Pages that the
//! session made are edited in place.

use vstd::prelude::*;

use rustc_hash::FxHashSet;

use crate::error::ChiselError;
use crate::forest::{lemma_nodes, nodes_of};
use crate::freemap::{free_ids, marked_free, FreeMap, BITMAP_OFFSET, BITS_PER_PAGE};
use crate::graft::{
    lemma_leaf_edited, lemma_only_at, lemma_rest, lemma_rest_down, lemma_swapped, lemma_swapped_root,
    lemma_swapped_tree, lemma_swapped_value, lemma_touched, lemma_unmoved, rest_of, swapped,
};
use crate::fx::{set_contains, set_insert, set_new};
use crate::page::{
    checksum_ok, current_version, stamp_checksum, zeroed, PageType, CHECKSUM_OFFSET, PAGE_ID_NONE, PAGE_SIZE,
};
use crate::page_cache::PageCache;
use crate::page_source::{
    agree_on, cow_page, cow_step, grown_by, lemma_agree_at, lemma_cow_chain, lemma_cow_edit, lemma_cow_edit_taken,
    lemma_cow_look, overrun, taken, too_many, PageSource,
};
use crate::radix::{
    child_of, is_tree, lemma_ascend, lemma_child_outside, lemma_descend, lemma_reach_pos, lemma_shared_node, lemma_tree_same,
    node_at, page_at, reach, read_child, same_on, saturated, saturating_reach, shares, slot_of, tree_in, write_child,
    FANOUT,
};
use crate::spine::{
    edited, head_of, lemma_good_kept, lemma_grown, lemma_prefix_trans, lemma_tree_mono, link_child, tree_value,
};

verus! {

/// Page ids that one leaf covers.
pub const LEAF_CAPACITY: u64 = 65344;

/// Deepest tree that 64-bit ids can need.
pub const MAX_DEPTH: u32 = 5;

/// How a leaf is read.
pub open spec fn bit_reader() -> spec_fn(Seq<u8>, nat) -> bool {
    |s: Seq<u8>, i: nat| marked_free(s, i as u64)
}

/// Whether the bit of key `k` below a node is set.
pub open spec fn node_bit(pages: Map<u64, Seq<u8>>, page: u64, level: nat, k: nat) -> bool {
    tree_value(pages, LEAF_CAPACITY as nat, page, level, k, bit_reader(), false)
}

/// Whether the tree marks an id free.
pub open spec fn tracked_free(pages: Map<u64, Seq<u8>>, root: u64, depth: nat, id: u64) -> bool {
    id < reach(LEAF_CAPACITY as nat, depth) && node_bit(pages, root, depth, id as nat)
}

/// The page type that belongs at a level.
pub open spec fn node_code(level: nat) -> u8 {
    if level == 0 {
        PageType::FreeMap.spec_code()
    } else {
        PageType::FreeMapInterior.spec_code()
    }
}

/// `e` is what using page `p` at level `l` fails with: the page is not sound, or
/// of the wrong type.
pub open spec fn page_fault(cache: &PageCache, p: u64, l: nat, e: ChiselError) -> bool {
    ||| !cache.sound(p) && e == cache.read_error(p)
    ||| page_at(cache.contents(), p)[0] != node_code(l) && e == (ChiselError::CorruptPage { page_id: p })
}

/// `e` comes from a page on the path of `h`.
pub open spec fn path_fault(cache: &PageCache, root: u64, depth: nat, h: nat, e: ChiselError) -> bool {
    exists|l: nat|
        l <= depth && ((#[trigger] node_at(cache.contents(), LEAF_CAPACITY as nat, root, depth, h, l)) matches Some(p)
            && page_fault(cache, p, l, e))
}

/// `e` comes from a page of the tree.
pub open spec fn tree_fault(cache: &PageCache, root: u64, depth: nat, e: ChiselError) -> bool {
    exists|k: nat, l: nat|
        k < reach(LEAF_CAPACITY as nat, depth) && l <= depth && ((#[trigger] node_at(
            cache.contents(),
            LEAF_CAPACITY as nat,
            root,
            depth,
            k,
            l,
        )) matches Some(p) && page_fault(cache, p, l, e))
}

/// The limits of the cache are exceeded, and `e` says so.
pub open spec fn limits_fault(cache: &PageCache, e: ChiselError) -> bool {
    cache.pending() > cache.capacity() && e == cache.pressure_error()
}

/// How far a tree of each depth reaches: within 64 bits up to depth 4, and
/// beyond at depth 5.
pub proof fn lemma_reach_leaf()
    ensures
        reach(65344, 0) == 65344,
        reach(65344, 1) == 66716224,
        reach(65344, 2) == 68117264704,
        reach(65344, 3) == 69547727262784,
        reach(65344, 4) == 71008229535302464,
        reach(65344, 5) > u64::MAX,
{
    reveal_with_fuel(reach, 6);
}

/// A node further down reaches less far.
pub proof fn lemma_bound_leaf(level: nat)
    requires
        level <= 5,
    ensures
        level < 5 ==> reach(65344, level) < u64::MAX,
        level == 5 ==> reach(65344, level) > u64::MAX,
        reach(65344, level) >= 65344,
{
    lemma_reach_leaf();
    if level == 0 {
    } else if level == 1 {
    } else if level == 2 {
    } else if level == 3 {
    } else if level == 4 {
    } else {
        assert(level == 5);
    }
}

/// Bits do not depend on the checksum, and pointers neither.
proof fn lemma_stamped(a: Seq<u8>, b: Seq<u8>)
    requires
        a.len() == PAGE_SIZE,
        crate::bytes::same_outside(a, b, CHECKSUM_OFFSET as int, PAGE_SIZE as int),
    ensures
        free_ids(b) == free_ids(a),
        forall|i: nat| i < LEAF_CAPACITY ==> #[trigger] marked_free(b, i as u64) == marked_free(a, i as u64),
        forall|i: nat| i < FANOUT ==> #[trigger] child_of(b, i) == child_of(a, i),
        b[0] == a[0],
{
    assert forall|i: nat| i < FANOUT implies #[trigger] child_of(b, i) == child_of(a, i) by {
        lemma_child_outside(a, b, i);
    }
    assert forall|id: u64| marked_free(b, id) == marked_free(a, id) by {
        if id < BITS_PER_PAGE {
            assert(b[BITMAP_OFFSET + id / 8] == a[BITMAP_OFFSET + id / 8]);
        }
    }
    assert(free_ids(b) =~= free_ids(a));
}

/// An initialized leaf: nothing is free.
pub open spec fn empty_leaf(s: Seq<u8>) -> bool {
    &&& checksum_ok(s)
    &&& s[0] == node_code(0)
    &&& forall|i: nat| i < LEAF_CAPACITY ==> !(#[trigger] marked_free(s, i as u64))
}

/// An initialized interior page: no children.
pub open spec fn empty_interior(s: Seq<u8>) -> bool {
    &&& checksum_ok(s)
    &&& s[0] == node_code(1)
    &&& forall|i: nat| i < FANOUT ==> #[trigger] child_of(s, i) == 0
}

/// Make a page an interior page without children.
fn init_interior(buf: &mut [u8; PAGE_SIZE])
    ensures
        empty_interior(final(buf)@),
{
    *buf = zeroed();
    buf[0] = PageType::FreeMapInterior.code();
    buf[1] = current_version(PageType::FreeMapInterior);
    let ghost s = buf@;
    stamp_checksum(buf);
    proof {
        lemma_stamped(s, buf@);
    }
}

/// Make a page a leaf without free ids.
fn init_leaf(buf: &mut [u8; PAGE_SIZE])
    ensures
        empty_leaf(final(buf)@),
        forall|i: nat| i < FANOUT ==> #[trigger] child_of(final(buf)@, i) == 0,
{
    FreeMap::init_page(buf);
    let ghost s = buf@;
    stamp_checksum(buf);
    proof {
        lemma_stamped(s, buf@);
        assert forall|i: nat| i < LEAF_CAPACITY implies !(#[trigger] marked_free(buf@, i as u64)) by {
            assert(!free_ids(s).contains(i as u64));
        }
    }
}

/// A freemap tree in one session.
pub struct FreeMapTree {
    /// The root page.
    pub root: u64,
    /// The depth of the tree; 0 if the root is a leaf.
    pub depth: u32,
    /// Pages that copies have taken the place of, oldest first.
    pub pending_superseded: Vec<u64>,
    /// Pages that this session made.
    pub session_owned: FxHashSet<u64>,
}

impl FreeMapTree {
    /// The depth of the tree.
    pub open spec fn spec_depth(&self) -> nat {
        self.depth as nat
    }

    /// Whether the tree marks an id free.
    pub open spec fn marks_free(&self, cache: &PageCache, id: u64) -> bool {
        tracked_free(cache.contents(), self.root, self.spec_depth(), id)
    }

    /// A tree with a known root and depth, at the start of a session.
    pub fn from_roots(root: u64, depth: u32) -> (tree: FreeMapTree)
        ensures
            tree.root == root,
            tree.depth == depth,
            tree.pending_superseded@ == Seq::<u64>::empty(),
            tree.session_owned@ == Set::<u64>::empty(),
    {
        FreeMapTree { root, depth, pending_superseded: Vec::new(), session_owned: set_new() }
    }

    /// Number of ids that the tree covers; saturates.
    pub fn capacity(&self) -> (n: u64)
        ensures
            n == saturated(reach(LEAF_CAPACITY as nat, self.spec_depth())),
    {
        saturating_reach(LEAF_CAPACITY, self.depth)
    }

    /// Number of ids below each child of a page at `level`; saturates.
    fn child_span(&self, level: u32) -> (n: u64)
        ensures
            n == saturated(reach(LEAF_CAPACITY as nat, if level > 0 {
                (level - 1) as nat
            } else {
                0
            })),
    {
        if level == 0 {
            saturating_reach(LEAF_CAPACITY, 0)
        } else {
            saturating_reach(LEAF_CAPACITY, level - 1)
        }
    }

    /// Reject a depth that no tree can have.
    fn check_depth(&self) -> (outcome: Result<(), ChiselError>)
        ensures
            match outcome {
                Ok(_) => self.depth <= MAX_DEPTH,
                Err(e) => self.depth > MAX_DEPTH && e == (ChiselError::CorruptPage { page_id: self.root }),
            },
    {
        if self.depth > MAX_DEPTH {
            return Err(ChiselError::CorruptPage { page_id: self.root });
        }
        Ok(())
    }

    /// The leaf that covers `id`; `None` if the id is out of reach or its leaf
    /// was never made.
    fn find_leaf(&self, cache: &mut PageCache, id: u64) -> (outcome: Result<Option<u64>, ChiselError>)
        requires
            old(cache).inv(),
        ensures
            final(cache).inv(),
            final(cache).same_pages(old(cache)),
            old(cache).bounded() ==> final(cache).bounded(),
            match outcome {
                Ok(Some(leaf)) => {
                    &&& self.depth <= MAX_DEPTH
                    &&& id < reach(LEAF_CAPACITY as nat, self.spec_depth())
                    &&& node_at(
                        old(cache).contents(),
                        LEAF_CAPACITY as nat,
                        self.root,
                        self.spec_depth(),
                        id as nat,
                        0,
                    ) == Some(leaf)
                },
                Ok(None) => {
                    &&& self.depth <= MAX_DEPTH
                    &&& id >= reach(LEAF_CAPACITY as nat, self.spec_depth()) || node_at(
                        old(cache).contents(),
                        LEAF_CAPACITY as nat,
                        self.root,
                        self.spec_depth(),
                        id as nat,
                        0,
                    ) is None
                },
                Err(e) => if self.depth > MAX_DEPTH {
                    e == (ChiselError::CorruptPage { page_id: self.root })
                } else {
                    &&& id < reach(LEAF_CAPACITY as nat, self.spec_depth())
                    &&& limits_fault(old(cache), e) || path_fault(
                        old(cache),
                        self.root,
                        self.spec_depth(),
                        id as nat,
                        e,
                    )
                },
            },
    {
        match self.check_depth() {
            Ok(_) => {},
            Err(e) => {
                return Err(e);
            },
        }
        let ghost c = LEAF_CAPACITY as nat;
        let ghost depth = self.spec_depth();
        let ghost pages = cache.contents();
        let ghost h = id as nat;
        proof {
            lemma_bound_leaf(depth);
        }
        let cap: u64 = self.capacity();
        if cap != u64::MAX && id >= cap {
            return Ok(None);
        }
        let mut current: u64 = self.root;
        let mut remaining: u64 = id;
        let mut level: u32 = self.depth;
        while level > 0
            invariant
                c == LEAF_CAPACITY as nat,
                depth == self.spec_depth(),
                level <= depth <= MAX_DEPTH,
                h == id as nat,
                h < reach(c, depth),
                remaining < reach(c, level as nat),
                cache.inv(),
                cache.same_pages(old(cache)),
                old(cache).bounded() ==> cache.bounded(),
                pages == old(cache).contents(),
                forall|l: nat|
                    l <= level ==> #[trigger] node_at(pages, c, self.root, depth, h, l) == node_at(
                        pages,
                        c,
                        current,
                        level as nat,
                        remaining as nat,
                        l,
                    ),
            decreases level,
        {
            let ghost span = reach(c, (level - 1) as nat);
            proof {
                lemma_bound_leaf((level - 1) as nat);
                lemma_descend(c, level as nat, remaining as nat);
                assert(node_at(pages, c, self.root, depth, h, level as nat) == Some(current));
                cache.lemma_explains(current);
                old(cache).lemma_same_explains(&*cache, current);
            }
            let span_here: u64 = self.child_span(level);
            let child_idx: usize = (remaining / span_here) as usize;
            let child: u64 = match cache.get(current) {
                Ok(buf) => {
                    if buf[0] != PageType::FreeMapInterior.code() {
                        return Err(ChiselError::CorruptPage { page_id: current });
                    }
                    read_child(buf, child_idx)
                },
                Err(e) => {
                    return Err(e);
                },
            };
            assert(child == child_of(page_at(pages, current), remaining as nat / span));
            if child == 0 {
                assert(node_at(pages, c, self.root, depth, h, 0) is None);
                return Ok(None);
            }
            proof {
                assert forall|l: nat| l <= level - 1 implies #[trigger] node_at(pages, c, self.root, depth, h, l)
                    == node_at(pages, c, child, (level - 1) as nat, remaining as nat % span, l) by {
                    assert(node_at(pages, c, current, level as nat, remaining as nat, l) == node_at(
                        pages,
                        c,
                        child,
                        (level - 1) as nat,
                        remaining as nat % span,
                        l,
                    ));
                }
            }
            remaining = remaining % span_here;
            current = child;
            level = level - 1;
        }
        proof {
            assert(node_at(pages, c, self.root, depth, h, 0) == Some(current));
            cache.lemma_explains(current);
            old(cache).lemma_same_explains(&*cache, current);
        }
        match cache.get(current) {
            Ok(buf) => {
                if buf[0] != PageType::FreeMap.code() {
                    return Err(ChiselError::CorruptPage { page_id: current });
                }
                Ok(Some(current))
            },
            Err(e) => Err(e),
        }
    }

    /// Whether `id` is marked free. Ids out of reach are in use.
    pub fn is_free(&self, cache: &mut PageCache, id: u64) -> (outcome: Result<bool, ChiselError>)
        requires
            old(cache).inv(),
        ensures
            final(cache).inv(),
            final(cache).same_pages(old(cache)),
            old(cache).bounded() ==> final(cache).bounded(),
            match outcome {
                Ok(free) => self.depth <= MAX_DEPTH && free == self.marks_free(old(cache), id),
                Err(e) => if self.depth > MAX_DEPTH {
                    e == (ChiselError::CorruptPage { page_id: self.root })
                } else {
                    &&& id < reach(LEAF_CAPACITY as nat, self.spec_depth())
                    &&& limits_fault(old(cache), e) || path_fault(
                        old(cache),
                        self.root,
                        self.spec_depth(),
                        id as nat,
                        e,
                    )
                },
            },
    {
        let leaf: u64 = match self.find_leaf(cache, id) {
            Ok(Some(leaf)) => leaf,
            Ok(None) => {
                return Ok(false);
            },
            Err(e) => {
                return Err(e);
            },
        };
        let ghost c = LEAF_CAPACITY as nat;
        proof {
            cache.lemma_explains(leaf);
            old(cache).lemma_same_explains(&*cache, leaf);
            lemma_slot_mod(self.spec_depth(), id as nat);
        }
        match cache.get(leaf) {
            Ok(buf) => Ok(FreeMap::is_free(buf, id % LEAF_CAPACITY)),
            Err(e) => Err(e),
        }
    }
}

/// The slot of an id in its leaf is its remainder.
pub proof fn lemma_slot_mod(level: nat, k: nat)
    requires
        k < reach(LEAF_CAPACITY as nat, level),
    ensures
        slot_of(LEAF_CAPACITY as nat, level, k) == k % (LEAF_CAPACITY as nat),
        slot_of(LEAF_CAPACITY as nat, level, k) < LEAF_CAPACITY,
    decreases level,
{
    let c = LEAF_CAPACITY as nat;
    if level > 0 {
        let span = reach(c, (level - 1) as nat);
        lemma_descend(c, level, k);
        lemma_slot_mod((level - 1) as nat, k % span);
        lemma_reach_multiple((level - 1) as nat);
        let m = span / c;
        vstd::arithmetic::div_mod::lemma_fundamental_div_mod(k as int, span as int);
        let q = k as int / span as int;
        let r = k as int % span as int;
        assert(k as int == (q * m) * c + r) by (nonlinear_arith)
            requires
                k as int == span * q + r,
                span == m * c,
        ;
        vstd::arithmetic::div_mod::lemma_mod_multiples_vanish(q * m, r, c as int);
        assert(c * (q * m) == (q * m) * c) by (nonlinear_arith);
    } else {
        vstd::arithmetic::div_mod::lemma_small_mod(k, c);
    }
}

/// How far a node reaches is a multiple of what a leaf covers.
proof fn lemma_reach_multiple(level: nat)
    ensures
        reach(LEAF_CAPACITY as nat, level) == (reach(LEAF_CAPACITY as nat, level) / (LEAF_CAPACITY as nat)) * (
        LEAF_CAPACITY as nat),
    decreases level,
{
    let c = LEAF_CAPACITY as nat;
    if level > 0 {
        lemma_reach_multiple((level - 1) as nat);
        let m = reach(c, (level - 1) as nat) / c;
        let f = FANOUT as nat;
        assert(reach(c, level) == f * (m * c));
        assert(f * (m * c) == (f * m) * c) by (nonlinear_arith);
        vstd::arithmetic::div_mod::lemma_div_multiples_vanish((f * m) as int, c as int);
        assert((f * m) * c == c * (f * m)) by (nonlinear_arith);
    } else {
        assert(c / c == 1);
    }
}

/// The bit of a key below a child.
proof fn lemma_child_bit(pages: Map<u64, Seq<u8>>, page: u64, level: nat, i: nat, k: nat)
    requires
        level > 0,
        i < FANOUT,
        k < reach(LEAF_CAPACITY as nat, (level - 1) as nat),
    ensures
        i * reach(LEAF_CAPACITY as nat, (level - 1) as nat) + k < reach(LEAF_CAPACITY as nat, level),
        node_bit(pages, page, level, i * reach(LEAF_CAPACITY as nat, (level - 1) as nat) + k) == (child_of(
            page_at(pages, page),
            i,
        ) != 0 && node_bit(pages, child_of(page_at(pages, page), i), (level - 1) as nat, k)),
{
    lemma_ascend(LEAF_CAPACITY as nat, level, i, k);
    lemma_reach_pos(LEAF_CAPACITY as nat, (level - 1) as nat);
}

/// A fault below a child is one below its parent.
proof fn lemma_child_fault(cache: &PageCache, page: u64, level: nat, i: nat, e: ChiselError)
    requires
        level > 0,
        i < FANOUT,
        child_of(page_at(cache.contents(), page), i) != 0,
        tree_fault(cache, child_of(page_at(cache.contents(), page), i), (level - 1) as nat, e),
    ensures
        tree_fault(cache, page, level, e),
{
    let c = LEAF_CAPACITY as nat;
    let pages = cache.contents();
    let child = child_of(page_at(pages, page), i);
    let down = (level - 1) as nat;
    let (k, l) = choose|k: nat, l: nat|
        k < reach(c, down) && l <= down && ((#[trigger] node_at(pages, c, child, down, k, l)) matches Some(p)
            && page_fault(cache, p, l, e));
    lemma_ascend(c, level, i, k);
    lemma_reach_pos(c, down);
    assert(node_at(pages, c, page, level, i * reach(c, down) + k, l) == node_at(pages, c, child, down, k, l));
}

/// A fault on the top page.
proof fn lemma_top_fault(cache: &PageCache, page: u64, level: nat, e: ChiselError)
    requires
        page_fault(cache, page, level, e),
    ensures
        tree_fault(cache, page, level, e),
{
    lemma_reach_pos(LEAF_CAPACITY as nat, level);
    assert(node_at(cache.contents(), LEAF_CAPACITY as nat, page, level, 0, level) == Some(page));
}

/// Where pages are kept does not matter.
proof fn lemma_same_fault(a: &PageCache, b: &PageCache, page: u64, level: nat, e: ChiselError)
    requires
        b.same_pages(a),
    ensures
        tree_fault(b, page, level, e) ==> tree_fault(a, page, level, e),
        limits_fault(b, e) ==> limits_fault(a, e),
{
    let c = LEAF_CAPACITY as nat;
    if tree_fault(b, page, level, e) {
        let (k, l) = choose|k: nat, l: nat|
            k < reach(c, level) && l <= level && ((#[trigger] node_at(b.contents(), c, page, level, k, l)) matches Some(
                p,
            ) && page_fault(b, p, l, e));
        assert(node_at(a.contents(), c, page, level, k, l) == node_at(b.contents(), c, page, level, k, l));
    }
}

/// Read the pointers of an interior page of the tree.
fn typed_children(cache: &mut PageCache, page: u64) -> (outcome: Result<Vec<u64>, ChiselError>)
    requires
        old(cache).inv(),
    ensures
        final(cache).inv(),
        final(cache).same_pages(old(cache)),
        old(cache).bounded() ==> final(cache).bounded(),
        match outcome {
            Ok(children) => {
                &&& page_at(old(cache).contents(), page)[0] == node_code(1)
                &&& children@.len() == FANOUT
                &&& forall|i: int|
                    0 <= i < FANOUT ==> #[trigger] children@[i] == child_of(
                        page_at(old(cache).contents(), page),
                        i as nat,
                    )
            },
            Err(e) => limits_fault(old(cache), e) || page_fault(old(cache), page, 1, e),
        },
{
    proof {
        cache.lemma_explains(page);
    }
    let ghost s = page_at(cache.contents(), page);
    let buf: &[u8; PAGE_SIZE] = match cache.get(page) {
        Ok(buf) => buf,
        Err(e) => {
            return Err(e);
        },
    };
    if buf[0] != PageType::FreeMapInterior.code() {
        return Err(ChiselError::CorruptPage { page_id: page });
    }
    let mut children: Vec<u64> = Vec::new();
    let mut i: usize = 0;
    while i < FANOUT
        invariant
            i <= FANOUT,
            buf@ == s,
            children@.len() == i,
            forall|j: int| 0 <= j < i ==> #[trigger] children@[j] == child_of(s, j as nat),
        decreases FANOUT - i,
    {
        children.push(read_child(buf, i));
        i = i + 1;
    }
    Ok(children)
}

/// `found` is the lowest id from `lo` on that is marked free below a page whose
/// ids start at `base`.
pub open spec fn lowest_free(
    pages: Map<u64, Seq<u8>>,
    page: u64,
    level: nat,
    base: u64,
    lo: u64,
    found: Option<u64>,
) -> bool {
    match found {
        Some(id) => {
            &&& lo <= id
            &&& base <= id < base + reach(LEAF_CAPACITY as nat, level)
            &&& node_bit(pages, page, level, (id - base) as nat)
            &&& forall|k: nat| lo <= base + k < id ==> !(#[trigger] node_bit(pages, page, level, k))
        },
        None => forall|k: nat|
            k < reach(LEAF_CAPACITY as nat, level) && lo <= base + k <= u64::MAX ==> !(#[trigger] node_bit(
                pages,
                page,
                level,
                k,
            )),
    }
}

impl FreeMapTree {
    /// The lowest id from `lo` on that is marked free.
    pub fn scan_from(&self, cache: &mut PageCache, lo: u64) -> (outcome: Result<Option<u64>, ChiselError>)
        requires
            old(cache).inv(),
        ensures
            final(cache).inv(),
            final(cache).same_pages(old(cache)),
            old(cache).bounded() ==> final(cache).bounded(),
            match outcome {
                Ok(Some(id)) => {
                    &&& self.depth <= MAX_DEPTH
                    &&& lo <= id
                    &&& self.marks_free(old(cache), id)
                    &&& forall|k: u64| lo <= k < id ==> !(#[trigger] self.marks_free(old(cache), k))
                },
                Ok(None) => {
                    &&& self.depth <= MAX_DEPTH
                    &&& forall|k: u64| lo <= k ==> !(#[trigger] self.marks_free(old(cache), k))
                },
                Err(e) => if self.depth > MAX_DEPTH {
                    e == (ChiselError::CorruptPage { page_id: self.root })
                } else {
                    limits_fault(old(cache), e) || tree_fault(old(cache), self.root, self.spec_depth(), e)
                },
            },
    {
        match self.check_depth() {
            Ok(_) => {},
            Err(e) => {
                return Err(e);
            },
        }
        let found = self.scan_node(cache, self.root, self.depth, 0, lo);
        proof {
            if let Ok(Some(id)) = found {
                assert forall|k: u64| lo <= k < id implies !(#[trigger] self.marks_free(old(cache), k)) by {
                    assert(!node_bit(old(cache).contents(), self.root, self.spec_depth(), k as nat));
                }
            }
            if let Ok(None) = found {
                assert forall|k: u64| lo <= k implies !(#[trigger] self.marks_free(old(cache), k)) by {
                    if k < reach(LEAF_CAPACITY as nat, self.spec_depth()) {
                        assert(!node_bit(old(cache).contents(), self.root, self.spec_depth(), k as nat));
                    }
                }
            }
        }
        found
    }

    /// The lowest id from `lo` on that is marked free below a page, whose ids
    /// start at `base`.
    fn scan_node(&self, cache: &mut PageCache, page_id: u64, level: u32, base: u64, lo: u64) -> (outcome: Result<
        Option<u64>,
        ChiselError,
    >)
        requires
            old(cache).inv(),
            level <= MAX_DEPTH,
        ensures
            final(cache).inv(),
            final(cache).same_pages(old(cache)),
            old(cache).bounded() ==> final(cache).bounded(),
            match outcome {
                Ok(found) => lowest_free(old(cache).contents(), page_id, level as nat, base, lo, found),
                Err(e) => limits_fault(old(cache), e) || tree_fault(old(cache), page_id, level as nat, e),
            },
        decreases level,
    {
        let ghost c = LEAF_CAPACITY as nat;
        let ghost lv = level as nat;
        let ghost c0 = *cache;
        let ghost pages = cache.contents();
        proof {
            lemma_reach_leaf();
            cache.lemma_explains(page_id);
        }
        if level == 0 {
            let buf: &[u8; PAGE_SIZE] = match cache.get(page_id) {
                Ok(buf) => buf,
                Err(e) => {
                    proof {
                        if !limits_fault(&c0, e) {
                            lemma_top_fault(&c0, page_id, lv, e);
                        }
                    }
                    return Err(e);
                },
            };
            if buf[0] != PageType::FreeMap.code() {
                proof {
                    lemma_top_fault(&c0, page_id, lv, ChiselError::CorruptPage { page_id });
                }
                return Err(ChiselError::CorruptPage { page_id });
            }
            let local_lo: u64 = if lo > base {
                lo - base
            } else {
                0
            };
            let bit: Option<u64> = FreeMap::first_free_bit_from(buf, local_lo);
            proof {
                assert forall|k: nat| k < c implies #[trigger] node_bit(pages, page_id, 0, k) == free_ids(
                    buf@,
                ).contains(k as u64) by {
                    assert(slot_of(c, 0, k) == k);
                }
            }
            return match bit {
                Some(b) => match base.checked_add(b) {
                    Some(id) => {
                        proof {
                            assert(b < c);
                            assert forall|k: nat| lo <= base + k < id implies !(#[trigger] node_bit(
                                pages,
                                page_id,
                                0,
                                k,
                            )) by {
                                assert(!free_ids(buf@).contains(k as u64));
                            }
                        }
                        Ok(Some(id))
                    },
                    None => {
                        proof {
                            assert forall|k: nat|
                                k < reach(c, 0) && lo <= base + k <= u64::MAX implies !(#[trigger] node_bit(
                                pages,
                                page_id,
                                0,
                                k,
                            )) by {
                                assert(!free_ids(buf@).contains(k as u64));
                            }
                        }
                        Ok(None)
                    },
                },
                None => {
                    proof {
                        assert forall|k: nat|
                            k < reach(c, 0) && lo <= base + k <= u64::MAX implies !(#[trigger] node_bit(
                            pages,
                            page_id,
                            0,
                            k,
                        )) by {
                            assert(!free_ids(buf@).contains(k as u64));
                        }
                    }
                    Ok(None)
                },
            };
        }
        let ghost down = (level - 1) as nat;
        let ghost span = reach(c, down);
        proof {
            lemma_bound_leaf(down);
            lemma_reach_pos(c, down);
        }
        let span_here: u64 = self.child_span(level);
        let children: Vec<u64> = match typed_children(cache, page_id) {
            Ok(children) => children,
            Err(e) => {
                proof {
                    if !limits_fault(&c0, e) {
                        assert(page_fault(&c0, page_id, lv, e));
                        lemma_top_fault(&c0, page_id, lv, e);
                    }
                }
                return Err(e);
            },
        };
        let mut i: usize = 0;
        proof {
            assert(0 * span == 0) by (nonlinear_arith);
        }
        while i < FANOUT
            invariant
                i <= FANOUT,
                0 < level <= MAX_DEPTH,
                c == LEAF_CAPACITY as nat,
                lv == level as nat,
                down == (level - 1) as nat,
                span == reach(c, down),
                span > 0,
                span_here == span,
                cache.inv(),
                c0.inv(),
                c0 == *old(cache),
                pages == c0.contents(),
                cache.same_pages(&c0),
                c0.bounded() ==> cache.bounded(),
                children@.len() == FANOUT,
                forall|j: int|
                    0 <= j < FANOUT ==> #[trigger] children@[j] == child_of(page_at(pages, page_id), j as nat),
                forall|k: nat|
                    k < i as nat * span && lo <= base + k <= u64::MAX ==> !(#[trigger] node_bit(pages, page_id, lv, k)),
            decreases FANOUT - i,
        {
            let child: u64 = children[i];
            let ghost before = *cache;
            let ghost off = i as nat * span;
            proof {
                assert((i + 1) as nat * span == off + span) by (nonlinear_arith)
                    requires
                        off == i as nat * span,
                ;
                assert forall|k: nat| off <= k < off + span implies #[trigger] node_bit(pages, page_id, lv, k) == (child
                    != 0 && node_bit(pages, child, down, (k - off) as nat)) by {
                    lemma_child_bit(pages, page_id, lv, i as nat, (k - off) as nat);
                }
                assert((i as u64) * span_here == off);
            }
            let start: Option<u64> = match (i as u64).checked_mul(span_here) {
                Some(m) => base.checked_add(m),
                None => None,
            };
            if let Some(child_base) = start {
                let below: bool = match child_base.checked_add(span_here) {
                    Some(child_end) => child_end <= lo,
                    None => false,
                };
                if child != 0 && !below {
                    match self.scan_node(cache, child, level - 1, child_base, lo) {
                        Ok(Some(id)) => {
                            proof {
                                lemma_found_below(pages, page_id, lv, i as nat, base, child_base, lo, id);
                            }
                            return Ok(Some(id));
                        },
                        Ok(None) => {
                            proof {
                                assert forall|k: nat|
                                    off <= k < off + span && lo <= base + k <= u64::MAX implies !(#[trigger] node_bit(
                                    pages,
                                    page_id,
                                    lv,
                                    k,
                                )) by {
                                    assert(!node_bit(pages, child, down, (k - off) as nat));
                                }
                            }
                        },
                        Err(e) => {
                            proof {
                                lemma_same_fault(&c0, &before, child, down, e);
                                if !limits_fault(&c0, e) {
                                    lemma_child_fault(&c0, page_id, lv, i as nat, e);
                                }
                            }
                            return Err(e);
                        },
                    }
                }
            }
            i = i + 1;
        }
        Ok(None)
    }

    /// The pages of the tree.
    pub fn reachable_pages(&self, cache: &mut PageCache) -> (outcome: Result<FxHashSet<u64>, ChiselError>)
        requires
            old(cache).inv(),
        ensures
            final(cache).inv(),
            final(cache).same_pages(old(cache)),
            old(cache).bounded() ==> final(cache).bounded(),
            match outcome {
                Ok(set) => {
                    &&& self.depth <= MAX_DEPTH
                    &&& set@ == (if self.root == PAGE_ID_NONE {
                        Set::<u64>::empty()
                    } else {
                        nodes_of(old(cache).contents(), LEAF_CAPACITY as nat, self.root, self.spec_depth())
                    })
                },
                Err(e) => if self.depth > MAX_DEPTH {
                    e == (ChiselError::CorruptPage { page_id: self.root })
                } else {
                    limits_fault(old(cache), e) || tree_fault(old(cache), self.root, self.spec_depth(), e)
                },
            },
    {
        match self.check_depth() {
            Ok(_) => {},
            Err(e) => {
                return Err(e);
            },
        }
        let mut set: FxHashSet<u64> = set_new();
        if self.root != PAGE_ID_NONE {
            match self.collect_reachable(cache, self.root, self.depth, &mut set) {
                Ok(_) => {},
                Err(e) => {
                    return Err(e);
                },
            }
            assert(set@ =~= nodes_of(
                old(cache).contents(),
                LEAF_CAPACITY as nat,
                self.root,
                self.spec_depth(),
            ));
        }
        Ok(set)
    }

    /// Add the pages of a subtree to the set.
    fn collect_reachable(&self, cache: &mut PageCache, page: u64, level: u32, set: &mut FxHashSet<u64>) -> (outcome:
        Result<(), ChiselError>)
        requires
            old(cache).inv(),
            level <= MAX_DEPTH,
        ensures
            final(cache).inv(),
            final(cache).same_pages(old(cache)),
            old(cache).bounded() ==> final(cache).bounded(),
            match outcome {
                Ok(_) => final(set)@ == old(set)@.union(
                    nodes_of(old(cache).contents(), LEAF_CAPACITY as nat, page, level as nat),
                ),
                Err(e) => limits_fault(old(cache), e) || tree_fault(old(cache), page, level as nat, e),
            },
        decreases level,
    {
        let ghost c = LEAF_CAPACITY as nat;
        let ghost lv = level as nat;
        let ghost c0 = *cache;
        let ghost pages = cache.contents();
        let ghost all0 = set@;
        set_insert(set, page);
        proof {
            lemma_reach_leaf();
            cache.lemma_explains(page);
        }
        if level == 0 {
            match cache.get(page) {
                Ok(buf) => {
                    if buf[0] != PageType::FreeMap.code() {
                        proof {
                            lemma_top_fault(&c0, page, lv, ChiselError::CorruptPage { page_id: page });
                        }
                        return Err(ChiselError::CorruptPage { page_id: page });
                    }
                },
                Err(e) => {
                    proof {
                        if !limits_fault(&c0, e) {
                            lemma_top_fault(&c0, page, lv, e);
                        }
                    }
                    return Err(e);
                },
            }
            proof {
                assert(node_at(pages, c, page, 0, 0, 0) == Some(page));
                assert(nodes_of(pages, c, page, 0) =~= Set::<u64>::empty().insert(page));
                assert(set@ =~= all0.union(nodes_of(pages, c, page, 0)));
            }
            return Ok(());
        }
        let ghost down = (level - 1) as nat;
        let children: Vec<u64> = match typed_children(cache, page) {
            Ok(children) => children,
            Err(e) => {
                proof {
                    if !limits_fault(&c0, e) {
                        assert(page_fault(&c0, page, lv, e));
                        lemma_top_fault(&c0, page, lv, e);
                    }
                }
                return Err(e);
            },
        };
        let mut i: usize = 0;
        proof {
            assert(set@ =~= all0.insert(page).union(nodes_upto(pages, page, lv, 0)));
        }
        while i < FANOUT
            invariant
                i <= FANOUT,
                0 < level <= MAX_DEPTH,
                c == LEAF_CAPACITY as nat,
                lv == level as nat,
                down == (level - 1) as nat,
                cache.inv(),
                c0.inv(),
                c0 == *old(cache),
                pages == c0.contents(),
                cache.same_pages(&c0),
                c0.bounded() ==> cache.bounded(),
                children@.len() == FANOUT,
                forall|j: int| 0 <= j < FANOUT ==> #[trigger] children@[j] == child_of(page_at(pages, page), j as nat),
                set@ == all0.insert(page).union(nodes_upto(pages, page, lv, i as nat)),
            decreases FANOUT - i,
        {
            let child: u64 = children[i];
            let ghost before = *cache;
            if child != 0 {
                match self.collect_reachable(cache, child, level - 1, set) {
                    Ok(_) => {},
                    Err(e) => {
                        proof {
                            lemma_same_fault(&c0, &before, child, down, e);
                            if !limits_fault(&c0, e) {
                                lemma_child_fault(&c0, page, lv, i as nat, e);
                            }
                        }
                        return Err(e);
                    },
                }
            }
            proof {
                lemma_nodes_more(pages, page, lv, i as nat);
                assert(set@ =~= all0.insert(page).union(nodes_upto(pages, page, lv, (i + 1) as nat)));
            }
            i = i + 1;
        }
        proof {
            lemma_nodes_children(pages, page, lv);
            assert(set@ =~= all0.union(nodes_of(pages, c, page, lv)));
        }
        Ok(())
    }
}

/// The pages below the first `n` children of a page.
spec fn nodes_upto(pages: Map<u64, Seq<u8>>, page: u64, level: nat, n: nat) -> Set<u64> {
    Set::new(
        |id: u64|
            exists|i: nat|
                i < n && child_of(page_at(pages, page), i) != 0 && #[trigger] nodes_of(
                    pages,
                    LEAF_CAPACITY as nat,
                    child_of(page_at(pages, page), i),
                    (level - 1) as nat,
                ).contains(id),
    )
}

/// One child more.
proof fn lemma_nodes_more(pages: Map<u64, Seq<u8>>, page: u64, level: nat, n: nat)
    requires
        level > 0,
    ensures
        nodes_upto(pages, page, level, n + 1) == (if child_of(page_at(pages, page), n) != 0 {
            nodes_upto(pages, page, level, n).union(
                nodes_of(pages, LEAF_CAPACITY as nat, child_of(page_at(pages, page), n), (level - 1) as nat),
            )
        } else {
            nodes_upto(pages, page, level, n)
        }),
{
    let c = LEAF_CAPACITY as nat;
    let right = if child_of(page_at(pages, page), n) != 0 {
        nodes_upto(pages, page, level, n).union(
            nodes_of(pages, c, child_of(page_at(pages, page), n), (level - 1) as nat),
        )
    } else {
        nodes_upto(pages, page, level, n)
    };
    assert forall|id: u64| nodes_upto(pages, page, level, n + 1).contains(id) == right.contains(id) by {
        if nodes_upto(pages, page, level, n + 1).contains(id) {
            let i = choose|i: nat|
                i < n + 1 && child_of(page_at(pages, page), i) != 0 && #[trigger] nodes_of(
                    pages,
                    c,
                    child_of(page_at(pages, page), i),
                    (level - 1) as nat,
                ).contains(id);
            assert(i < n || i == n);
        }
        if nodes_upto(pages, page, level, n).contains(id) {
            let i = choose|i: nat|
                i < n && child_of(page_at(pages, page), i) != 0 && #[trigger] nodes_of(
                    pages,
                    c,
                    child_of(page_at(pages, page), i),
                    (level - 1) as nat,
                ).contains(id);
            assert(i < n + 1);
        }
    }
    assert(nodes_upto(pages, page, level, n + 1) =~= right);
}

/// The pages of a tree are its root and the pages below its children.
proof fn lemma_nodes_children(pages: Map<u64, Seq<u8>>, page: u64, level: nat)
    requires
        level > 0,
    ensures
        nodes_of(pages, LEAF_CAPACITY as nat, page, level) == nodes_upto(pages, page, level, FANOUT as nat).insert(page),
{
    let c = LEAF_CAPACITY as nat;
    let down = (level - 1) as nat;
    let span = reach(c, down);
    lemma_reach_pos(c, down);
    lemma_reach_pos(c, level);
    let right = nodes_upto(pages, page, level, FANOUT as nat).insert(page);
    assert forall|id: u64| nodes_of(pages, c, page, level).contains(id) == right.contains(id) by {
        if nodes_of(pages, c, page, level).contains(id) {
            let (k, l) = choose|k: nat, l: nat|
                k < reach(c, level) && l <= level && #[trigger] node_at(pages, c, page, level, k, l) == Some(id);
            if l < level {
                lemma_descend(c, level, k);
                let child = child_of(page_at(pages, page), k / span);
                assert(node_at(pages, c, child, down, k % span, l) == Some(id));
                assert(nodes_of(pages, c, child, down).contains(id));
            }
        }
        if id == page {
            assert(node_at(pages, c, page, level, 0, level) == Some(page));
        }
        if nodes_upto(pages, page, level, FANOUT as nat).contains(id) {
            let i = choose|i: nat|
                i < FANOUT && child_of(page_at(pages, page), i) != 0 && #[trigger] nodes_of(
                    pages,
                    c,
                    child_of(page_at(pages, page), i),
                    down,
                ).contains(id);
            let child = child_of(page_at(pages, page), i);
            let (k, l) = choose|k: nat, l: nat|
                k < reach(c, down) && l <= down && #[trigger] node_at(pages, c, child, down, k, l) == Some(id);
            lemma_ascend(c, level, i, k);
            assert(node_at(pages, c, page, level, i * span + k, l) == Some(id));
        }
    }
    assert(nodes_of(pages, c, page, level) =~= right);
}

/// What was found below child `i` is what was sought.
proof fn lemma_found_below(
    pages: Map<u64, Seq<u8>>,
    page: u64,
    level: nat,
    i: nat,
    base: u64,
    child_base: u64,
    lo: u64,
    id: u64,
)
    requires
        level > 0,
        i < FANOUT,
        child_of(page_at(pages, page), i) != 0,
        child_base == base + i * reach(LEAF_CAPACITY as nat, (level - 1) as nat),
        lowest_free(
            pages,
            child_of(page_at(pages, page), i),
            (level - 1) as nat,
            child_base,
            lo,
            Some(id),
        ),
        forall|k: nat|
            k < i * reach(LEAF_CAPACITY as nat, (level - 1) as nat) && lo <= base + k <= u64::MAX ==> !(
            #[trigger] node_bit(pages, page, level, k)),
    ensures
        lowest_free(pages, page, level, base, lo, Some(id)),
{
    let c = LEAF_CAPACITY as nat;
    let down = (level - 1) as nat;
    let span = reach(c, down);
    let off = i * span;
    let child = child_of(page_at(pages, page), i);
    lemma_child_bit(pages, page, level, i, (id - child_base) as nat);
    assert forall|k: nat| lo <= base + k < id implies !(#[trigger] node_bit(pages, page, level, k)) by {
        if k >= off {
            lemma_child_bit(pages, page, level, i, (k - off) as nat);
            assert(!node_bit(pages, child, down, (k - off) as nat));
        }
    }
}

/// The pages of a session are unsaved, and out of the source's reach.
pub open spec fn owned_ok<A: PageSource>(source: &A, cache: &PageCache, owned: Set<u64>) -> bool {
    forall|id: u64| #[trigger]
        owned.contains(id) ==> {
            &&& id != 0
            &&& cache.contents().contains_key(id)
            &&& cache.unsaved().contains(id)
            &&& !source.footprint(cache).contains(id)
        }
}

/// What every step of a session keeps: nothing changes but the pages of the
/// session and those that the source may hand out.
pub open spec fn session_step<A: PageSource>(
    source0: &A,
    cache0: &PageCache,
    owned0: Set<u64>,
    source1: &A,
    cache1: &PageCache,
    owned1: Set<u64>,
    n: nat,
) -> bool {
    &&& cache1.inv()
    &&& cache1.bounded()
    &&& source1.ready(cache1)
    &&& source1.footprint(cache1).subset_of(source0.footprint(cache0))
    &&& grown_by(cache0, cache1, n)
    &&& agree_on(cache0, cache1, source0.footprint(cache0).union(owned0).complement())
    &&& owned0.subset_of(owned1)
    &&& forall|id: u64| #[trigger]
        owned1.contains(id) ==> owned0.contains(id) || taken(source0, cache0, source1, cache1, id)
    &&& owned_ok(source1, cache1, owned1)
}

/// A step of the source, within a session.
proof fn lemma_session_cow<A: PageSource>(
    s0: &A,
    c0: &PageCache,
    own0: Set<u64>,
    s1: &A,
    c1: &PageCache,
    own1: Set<u64>,
    s2: &A,
    c2: &PageCache,
    a: nat,
    b: nat,
)
    requires
        session_step(s0, c0, own0, s1, c1, own1, a),
        cow_step(s1, c1, s2, c2, b),
    ensures
        session_step(s0, c0, own0, s2, c2, own1, a + b),
        forall|n: u64| #[trigger]
            taken(s1, c1, s2, c2, n) ==> taken(s0, c0, s2, c2, n) && session_step(
                s0,
                c0,
                own0,
                s2,
                c2,
                own1.insert(n),
                a + b,
            ),
        forall|n: u64| taken(s0, c0, s1, c1, n) ==> #[trigger] taken(s0, c0, s2, c2, n),
        forall|e: ChiselError| #[trigger] too_many(c1, e, b) ==> too_many(c0, e, a + b),
{
    reveal(agree_on);
    let f0 = s0.footprint(c0);
    let f1 = s1.footprint(c1);
    assert forall|id: u64| #[trigger] f0.union(own0).complement().contains(id) implies f1.complement().contains(id) by {}
    assert forall|id: u64| #[trigger] own1.contains(id) implies {
        &&& c2.contents().contains_key(id)
        &&& c2.unsaved().contains(id)
        &&& !s2.footprint(c2).contains(id)
    } by {
        assert(f1.complement().contains(id));
    }
    assert forall|n: u64| taken(s0, c0, s1, c1, n) implies #[trigger] taken(s0, c0, s2, c2, n) by {
        assert(f1.complement().contains(n));
    }
}

/// An edit of a page of the session.
proof fn lemma_session_edit<A: PageSource>(
    s0: &A,
    c0: &PageCache,
    own0: Set<u64>,
    s1: &A,
    c1: &PageCache,
    own1: Set<u64>,
    c2: &PageCache,
    x: u64,
    a: nat,
)
    requires
        session_step(s0, c0, own0, s1, c1, own1, a),
        own1.contains(x),
        edited(c1, c2, x),
    ensures
        session_step(s0, c0, own0, s1, c2, own1, a),
        s1.footprint(c2) == s1.footprint(c1),
        forall|n: u64| taken(s0, c0, s1, c1, n) ==> #[trigger] taken(s0, c0, s1, c2, n),
        forall|id: u64| id != x ==> #[trigger] page_at(c2.contents(), id) == page_at(c1.contents(), id),
{
    reveal(agree_on);
    lemma_cow_edit(s1, c1, c2, x);
    let f0 = s0.footprint(c0);
    assert(c2.unsaved() =~= c1.unsaved());
    assert forall|id: u64| #[trigger] f0.union(own0).complement().contains(id) implies {
        &&& c0.contents().contains_key(id) == c2.contents().contains_key(id)
        &&& c0.contents().contains_key(id) ==> c0.contents()[id] == c2.contents()[id]
        &&& c0.unsaved().contains(id) == c2.unsaved().contains(id)
    } by {
        assert(id != x);
        assert(c2.contents().dom().contains(id) == c1.contents().dom().contains(id));
    }
    assert forall|id: u64| #[trigger] own1.contains(id) implies c2.contents().contains_key(id) by {
        assert(c2.contents().dom().contains(id));
    }
    assert forall|n: u64| taken(s0, c0, s1, c1, n) implies #[trigger] taken(s0, c0, s1, c2, n) by {
        assert(c2.contents().dom().contains(n));
    }
}

impl FreeMapTree {
    /// The tree can be changed: its pages are out of the source's reach, and each
    /// occurs once.
    pub open spec fn ready<A: PageSource>(&self, source: &A, cache: &PageCache) -> bool {
        &&& self.root != 0
        &&& owned_ok(source, cache, self.session_owned@)
        &&& is_tree(cache.contents(), LEAF_CAPACITY as nat, self.root, self.spec_depth())
        &&& tree_in(
            cache.contents(),
            LEAF_CAPACITY as nat,
            self.root,
            self.spec_depth(),
            source.footprint(cache).complement(),
        )
    }

    /// Copy a page unless the session made it. Returns the page to edit.
    fn cow_node<A: PageSource>(&mut self, cache: &mut PageCache, page_id: u64, expected: PageType, source: &mut A) -> (
    outcome: Result<u64, ChiselError>)
        requires
            old(cache).inv(),
            old(cache).bounded(),
            old(source).ready(old(cache)),
            old(cache).watermark() + A::growth() <= usize::MAX,
            !old(source).footprint(old(cache)).contains(page_id),
        ensures
            cow_step(old(source), old(cache), final(source), final(cache), A::growth()),
            final(self).root == old(self).root,
            final(self).depth == old(self).depth,
            match outcome {
                Ok(n) => if old(self).session_owned@.contains(page_id) {
                    &&& n == page_id
                    &&& *final(source) == *old(source)
                    &&& *final(cache) == *old(cache)
                    &&& final(self).session_owned@ == old(self).session_owned@
                    &&& final(self).pending_superseded@ == old(self).pending_superseded@
                } else {
                    &&& taken(old(source), old(cache), final(source), final(cache), n)
                    &&& final(source).footprint(final(cache)) == old(source).footprint(old(cache)).remove(n)
                    &&& old(cache).contents().contains_key(page_id)
                    &&& final(cache).contents()[n] == old(cache).contents()[page_id]
                    &&& old(cache).contents()[page_id][0] == expected.spec_code()
                    &&& final(self).session_owned@ == old(self).session_owned@.insert(n)
                    &&& final(self).pending_superseded@ == old(self).pending_superseded@.push(page_id)
                },
                Err(e) => {
                    &&& !old(self).session_owned@.contains(page_id)
                    &&& final(self).session_owned@ == old(self).session_owned@
                    &&& final(self).pending_superseded@ == old(self).pending_superseded@
                    &&& {
                        ||| overrun(old(cache), final(cache), e, A::growth())
                        ||| !old(cache).sound(page_id) && e == old(cache).read_error(page_id)
                        ||| page_at(old(cache).contents(), page_id)[0] != expected.spec_code() && e == (
                        ChiselError::CorruptPage { page_id })
                    }
                },
            },
    {
        let ghost s0 = *source;
        let ghost c0 = *cache;
        proof {
            lemma_cow_look(source, &c0, cache);
            cache.lemma_explains(page_id);
        }
        if set_contains(&self.session_owned, page_id) {
            return Ok(page_id);
        }
        match cache.get(page_id) {
            Ok(buf) => {
                if buf[0] != expected.code() {
                    proof {
                        lemma_cow_look(source, &c0, cache);
                    }
                    return Err(ChiselError::CorruptPage { page_id });
                }
            },
            Err(e) => {
                proof {
                    lemma_cow_look(source, &c0, cache);
                }
                return Err(e);
            },
        }
        let ghost c1 = *cache;
        proof {
            lemma_cow_look(source, &c0, cache);
            c0.lemma_same_explains(&c1, page_id);
        }
        match cow_page(cache, source, page_id) {
            Ok(n) => {
                proof {
                    lemma_cow_chain(&s0, &c0, &s0, &c1, source, cache, 0, A::growth());
                    assert(taken(&s0, &c1, source, cache, n));
                }
                set_insert(&mut self.session_owned, n);
                self.pending_superseded.push(page_id);
                Ok(n)
            },
            Err(e) => {
                proof {
                    lemma_cow_chain(&s0, &c0, &s0, &c1, source, cache, 0, A::growth());
                }
                Err(e)
            },
        }
    }

    /// Take a page from the source and make it an empty node.
    fn fresh_node<A: PageSource>(&mut self, cache: &mut PageCache, leaf: bool, source: &mut A) -> (outcome: Result<
        u64,
        ChiselError,
    >)
        requires
            old(cache).inv(),
            old(cache).bounded(),
            old(source).ready(old(cache)),
            old(cache).watermark() + A::growth() <= usize::MAX,
        ensures
            cow_step(old(source), old(cache), final(source), final(cache), A::growth()),
            final(self).root == old(self).root,
            final(self).depth == old(self).depth,
            final(self).pending_superseded@ == old(self).pending_superseded@,
            match outcome {
                Ok(n) => {
                    &&& taken(old(source), old(cache), final(source), final(cache), n)
                    &&& final(source).footprint(final(cache)) == old(source).footprint(old(cache)).remove(n)
                    &&& final(self).session_owned@ == old(self).session_owned@.insert(n)
                    &&& leaf ==> empty_leaf(final(cache).contents()[n])
                    &&& !leaf ==> empty_interior(final(cache).contents()[n])
                    &&& forall|i: nat| i < FANOUT ==> #[trigger] child_of(final(cache).contents()[n], i) == 0
                },
                Err(e) => final(self).session_owned@ == old(self).session_owned@ && overrun(
                    old(cache), final(cache),
                    e,
                    A::growth(),
                ),
            },
    {
        let n: u64 = match source.next_page(cache) {
            Ok(n) => n,
            Err(e) => {
                return Err(e);
            },
        };
        let ghost mid = *cache;
        proof {
            cache.lemma_explains(n);
        }
        match cache.get_mut(n) {
            Ok(buf) => {
                if leaf {
                    init_leaf(buf);
                } else {
                    init_interior(buf);
                }
            },
            Err(e) => {
                proof {
                    lemma_cow_look(source, &mid, cache);
                    lemma_cow_chain(old(source), old(cache), source, &mid, source, cache, A::growth(), 0);
                }
                return Err(e);
            },
        }
        proof {
            lemma_cow_edit_taken(old(source), old(cache), source, &mid, cache, n, A::growth());
        }
        set_insert(&mut self.session_owned, n);
        Ok(n)
    }

    /// Go from a page of the session at `level` to its child, which the session
    /// then also owns: a child that is missing is made, and one that the session
    /// did not make is copied.
    fn step_down<A: PageSource>(
        &mut self,
        cache: &mut PageCache,
        current: u64,
        child_idx: usize,
        level: u32,
        source: &mut A,
    ) -> (outcome: Result<u64, ChiselError>)
        requires
            old(cache).inv(),
            old(cache).bounded(),
            old(source).ready(old(cache)),
            old(cache).watermark() + A::growth() <= usize::MAX,
            owned_ok(old(source), old(cache), old(self).session_owned@),
            old(self).session_owned@.contains(current),
            level > 0,
            child_idx < FANOUT,
            !old(source).footprint(old(cache)).contains(
                child_of(page_at(old(cache).contents(), current), child_idx as nat),
            ) || child_of(page_at(old(cache).contents(), current), child_idx as nat) == 0,
        ensures
            session_step(
                old(source),
                old(cache),
                old(self).session_owned@,
                final(source),
                final(cache),
                final(self).session_owned@,
                A::growth(),
            ),
            final(self).root == old(self).root,
            final(self).depth == old(self).depth,
            forall|id: u64|
                !old(source).footprint(old(cache)).contains(id) && id != current ==> #[trigger] page_at(
                    final(cache).contents(),
                    id,
                ) == page_at(old(cache).contents(), id),
            outcome matches Ok(n) ==> went_down(
                old(self),
                old(source),
                old(cache),
                final(self),
                final(source),
                final(cache),
                current,
                child_idx as nat,
                level as nat,
                n,
            ),
            outcome matches Err(e) ==> {
                let x = child_of(page_at(old(cache).contents(), current), child_idx as nat);
                &&& page_at(final(cache).contents(), current) == page_at(old(cache).contents(), current)
                &&& old(self).pending_superseded@.is_prefix_of(final(self).pending_superseded@)
                &&& overrun(old(cache), final(cache), e, A::growth()) || x != 0 && !old(self).session_owned@.contains(x)
                    && page_fault(old(cache), x, (level - 1) as nat, e)
            },
    {
        let ghost s0 = *source;
        let ghost c0 = *cache;
        let ghost own0 = self.session_owned@;
        let ghost pend0 = self.pending_superseded@;
        let ghost g = A::growth();
        proof {
            cache.lemma_explains(current);
            reveal(agree_on);
        }
        let child: u64 = match cache.get(current) {
            Ok(buf) => read_child(buf, child_idx),
            Err(e) => {
                proof {
                    lemma_cow_look(source, &c0, cache);
                    lemma_session_start(&s0, &c0, own0);
                    lemma_session_cow(&s0, &c0, own0, &s0, &c0, own0, source, cache, 0, 0);
                }
                return Err(e);
            },
        };
        let ghost c1 = *cache;
        proof {
            lemma_cow_look(source, &c0, cache);
            lemma_session_start(&s0, &c0, own0);
            lemma_session_cow(&s0, &c0, own0, &s0, &c0, own0, &s0, &c1, 0, 0);
        }
        let got: Result<u64, ChiselError> = if child == 0 {
            self.fresh_node(cache, level == 1, source)
        } else {
            let expected: PageType = if level == 1 {
                PageType::FreeMap
            } else {
                PageType::FreeMapInterior
            };
            self.cow_node(cache, child, expected, source)
        };
        let ghost s2 = *source;
        let ghost c2 = *cache;
        proof {
            lemma_session_cow(&s0, &c0, own0, &s0, &c1, own0, &s2, &c2, 0, g);
            assert forall|id: u64| !s0.footprint(&c0).contains(id) implies #[trigger] page_at(c2.contents(), id)
                == page_at(c0.contents(), id) by {
                lemma_agree_at(&c1, &c2, s0.footprint(&c1).complement(), id);
            }
        }
        let new_child: u64 = match got {
            Ok(n) => n,
            Err(e) => {
                proof {
                    if child != 0 && !too_many(&c1, e, g) {
                        c0.lemma_same_explains(&c1, child);
                        assert(page_fault(&c0, child, (level - 1) as nat, e));
                    }
                }
                return Err(e);
            },
        };
        let ghost own2 = self.session_owned@;
        let ghost made = child == 0 || !own0.contains(child);
        proof {
            if made {
                assert(taken(&s0, &c1, &s2, &c2, new_child));
            }
            assert(own2 =~= own0.insert(new_child));
            assert(session_step(&s0, &c0, own0, &s2, &c2, own2, g));
            assert(own2.contains(current));
        }
        match link_child(cache, current, child_idx, new_child) {
            Ok(_) => {},
            Err(e) => {
                proof {
                    lemma_cow_look(source, &c2, cache);
                    lemma_session_cow(&s0, &c0, own0, &s2, &c2, own2, source, cache, g, 0);
                    assert(too_many(&c2, e, 0));
                }
                return Err(e);
            },
        }
        proof {
            lemma_session_edit(&s0, &c0, own0, &s2, &c2, own2, cache, current, g);
            if new_child != current {
                assert(page_at(cache.contents(), new_child) == page_at(c2.contents(), new_child));
            }
            if made {
                assert(taken(&s0, &c0, &s2, &c2, new_child));
                assert(taken(&s0, &c0, source, cache, new_child));
                assert(new_child != current);
                assert(!own0.contains(new_child));
            }
            assert(page_at(c2.contents(), current) == page_at(c0.contents(), current));
        }
        Ok(new_child)
    }
}

/// How the child at slot `i` of `current` came to be owned: it was already, or
/// `n` is a fresh copy of it, or `n` is new and empty.
pub open spec fn went_down<A: PageSource>(
    tree0: &FreeMapTree,
    source0: &A,
    cache0: &PageCache,
    tree1: &FreeMapTree,
    source1: &A,
    cache1: &PageCache,
    current: u64,
    i: nat,
    level: nat,
    n: u64,
) -> bool {
    let p0 = cache0.contents();
    let p1 = cache1.contents();
    let x = child_of(page_at(p0, current), i);
    let own0 = tree0.session_owned@;
    &&& n != 0
    &&& tree1.session_owned@ == own0.insert(n)
    &&& child_of(page_at(p1, current), i) == n
    &&& head_of(page_at(p1, current)) == head_of(page_at(p0, current))
    &&& checksum_ok(page_at(p1, current))
    &&& forall|j: nat| j < FANOUT && j != i ==> #[trigger] child_of(page_at(p1, current), j) == child_of(
        page_at(p0, current),
        j,
    )
    &&& if x != 0 && own0.contains(x) {
        &&& n == x
        &&& tree1.pending_superseded@ == tree0.pending_superseded@
        &&& source1.footprint(cache1) == source0.footprint(cache0)
    } else {
        &&& taken(source0, cache0, source1, cache1, n)
        &&& source1.footprint(cache1) == source0.footprint(cache0).remove(n)
        &&& !own0.contains(n)
        &&& x != 0 ==> {
            &&& page_at(p1, n) == page_at(p0, x)
            &&& page_at(p0, x)[0] == node_code((level - 1) as nat)
            &&& tree1.pending_superseded@ == tree0.pending_superseded@.push(x)
        }
        &&& x == 0 ==> {
            &&& forall|j: nat| j < FANOUT ==> #[trigger] child_of(page_at(p1, n), j) == 0
            &&& level == 1 ==> empty_leaf(page_at(p1, n))
            &&& level > 1 ==> empty_interior(page_at(p1, n))
            &&& tree1.pending_superseded@ == tree0.pending_superseded@
        }
    }
}

/// The start of a session.
proof fn lemma_session_start<A: PageSource>(source: &A, cache: &PageCache, owned: Set<u64>)
    requires
        cache.inv(),
        cache.bounded(),
        source.ready(cache),
        owned_ok(source, cache, owned),
    ensures
        session_step(source, cache, owned, source, cache, owned, 0),
{
    reveal(agree_on);
}

/// Two steps of a session make one.
proof fn lemma_session_chain<A: PageSource>(
    s0: &A,
    c0: &PageCache,
    own0: Set<u64>,
    s1: &A,
    c1: &PageCache,
    own1: Set<u64>,
    s2: &A,
    c2: &PageCache,
    own2: Set<u64>,
    a: nat,
    b: nat,
)
    requires
        session_step(s0, c0, own0, s1, c1, own1, a),
        session_step(s1, c1, own1, s2, c2, own2, b),
    ensures
        session_step(s0, c0, own0, s2, c2, own2, a + b),
        forall|n: u64| taken(s1, c1, s2, c2, n) ==> #[trigger] taken(s0, c0, s2, c2, n),
        forall|n: u64| taken(s0, c0, s1, c1, n) && own1.contains(n) ==> #[trigger] taken(s0, c0, s2, c2, n),
        forall|n: u64| taken(s0, c0, s1, c1, n) ==> #[trigger] taken(s0, c0, s2, c2, n),
        forall|e: ChiselError| #[trigger] too_many(c1, e, b) ==> too_many(c0, e, a + b),
{
    reveal(agree_on);
    let f0 = s0.footprint(c0);
    let f1 = s1.footprint(c1);
    let out0 = f0.union(own0).complement();
    let out1 = f1.union(own1).complement();
    assert forall|id: u64| #[trigger] out0.contains(id) implies out1.contains(id) by {
        if own1.contains(id) {
            assert(taken(s0, c0, s1, c1, id));
        }
    }
    assert forall|n: u64| taken(s0, c0, s1, c1, n) implies #[trigger] taken(s0, c0, s2, c2, n) by {
        if own1.contains(n) {
            assert(own2.contains(n));
        } else {
            assert(out1.contains(n));
        }
    }
    assert forall|id: u64| #[trigger] own2.contains(id) implies own0.contains(id) || taken(s0, c0, s2, c2, id) by {
        if own1.contains(id) {
            if !own0.contains(id) {
                assert(taken(s0, c0, s1, c1, id));
            }
        } else {
            assert(taken(s1, c1, s2, c2, id));
        }
    }
}

/// The pages put on the list of superseded pages: the pages of the old tree that the
/// new tree no longer has. The session had made none of them.
pub open spec fn superseded_ok(
    before: Map<u64, Seq<u8>>,
    root0: u64,
    depth0: nat,
    owned0: Set<u64>,
    after: Map<u64, Seq<u8>>,
    root1: u64,
    depth1: nat,
    pending0: Seq<u64>,
    pending1: Seq<u64>,
) -> bool {
    &&& pending0.is_prefix_of(pending1)
    &&& forall|i: int|
        pending0.len() <= i < pending1.len() ==> {
            &&& nodes_of(before, LEAF_CAPACITY as nat, root0, depth0).contains(#[trigger] pending1[i])
            &&& !owned0.contains(pending1[i])
            &&& tree_in(after, LEAF_CAPACITY as nat, root1, depth1, Set::<u64>::full().remove(pending1[i]))
        }
    &&& all_superseded(before, root0, depth0, after, root1, depth1, pending0, pending1)
}

/// Every page of the old tree that the new tree no longer has is put on the list.
pub open spec fn all_superseded(
    before: Map<u64, Seq<u8>>,
    root0: u64,
    depth0: nat,
    after: Map<u64, Seq<u8>>,
    root1: u64,
    depth1: nat,
    pending0: Seq<u64>,
    pending1: Seq<u64>,
) -> bool {
    forall|id: u64| #[trigger]
        nodes_of(before, LEAF_CAPACITY as nat, root0, depth0).contains(id) ==> nodes_of(
            after,
            LEAF_CAPACITY as nat,
            root1,
            depth1,
        ).contains(id) || pending1.skip(pending0.len() as int).contains(id)
}

/// A list that grows keeps what it has past a point.
proof fn lemma_skip_prefix(a: Seq<u64>, b: Seq<u64>, n: int)
    requires
        a.is_prefix_of(b),
        0 <= n <= a.len(),
    ensures
        forall|id: u64| #[trigger] a.skip(n).contains(id) ==> b.skip(n).contains(id),
{
    assert forall|id: u64| #[trigger] a.skip(n).contains(id) implies b.skip(n).contains(id) by {
        let j = a.skip(n).index_of(id);
        assert(b.skip(n)[j] == id);
    }
}

/// Pages that do not move are not superseded.
proof fn lemma_superseded_same(
    p0: Map<u64, Seq<u8>>,
    root0: u64,
    d0: nat,
    p1: Map<u64, Seq<u8>>,
    p2: Map<u64, Seq<u8>>,
    root: u64,
    d: nat,
    pend0: Seq<u64>,
    pend1: Seq<u64>,
    pend2: Seq<u64>,
)
    requires
        all_superseded(p0, root0, d0, p1, root, d, pend0, pend1),
        pend0.is_prefix_of(pend1),
        pend1.is_prefix_of(pend2),
        forall|k: nat, l: nat|
            k < reach(LEAF_CAPACITY as nat, d) && l <= d ==> #[trigger] node_at(p2, LEAF_CAPACITY as nat, root, d, k, l)
                == node_at(p1, LEAF_CAPACITY as nat, root, d, k, l),
    ensures
        all_superseded(p0, root0, d0, p2, root, d, pend0, pend2),
{
    let c = LEAF_CAPACITY as nat;
    lemma_skip_prefix(pend1, pend2, pend0.len() as int);
    assert forall|id: u64| #[trigger] nodes_of(p0, c, root0, d0).contains(id) implies nodes_of(p2, c, root, d).contains(id)
        || pend2.skip(pend0.len() as int).contains(id) by {
        if nodes_of(p1, c, root, d).contains(id) {
            let (k, l) = choose|k: nat, l: nat|
                k < reach(c, d) && l <= d && #[trigger] node_at(p1, c, root, d, k, l) == Some(id);
            assert(node_at(p2, c, root, d, k, l) == Some(id));
        }
    }
}

/// When a node is exchanged, at most the old one is lost.
proof fn lemma_superseded_swapped(
    p0: Map<u64, Seq<u8>>,
    root0: u64,
    d0: nat,
    p1: Map<u64, Seq<u8>>,
    root1: u64,
    p2: Map<u64, Seq<u8>>,
    root2: u64,
    d: nat,
    h: nat,
    down: nat,
    n: u64,
    pend0: Seq<u64>,
    pend1: Seq<u64>,
    pend2: Seq<u64>,
)
    requires
        all_superseded(p0, root0, d0, p1, root1, d, pend0, pend1),
        pend0.is_prefix_of(pend1),
        pend1.is_prefix_of(pend2),
        h < reach(LEAF_CAPACITY as nat, d),
        down <= d,
        swapped(p1, p2, LEAF_CAPACITY as nat, root1, root2, d, h, down, n),
        node_at(p1, LEAF_CAPACITY as nat, root1, d, h, down) matches Some(x) ==> pend2.skip(
            pend0.len() as int,
        ).contains(x),
    ensures
        all_superseded(p0, root0, d0, p2, root2, d, pend0, pend2),
{
    let c = LEAF_CAPACITY as nat;
    lemma_skip_prefix(pend1, pend2, pend0.len() as int);
    assert forall|id: u64| #[trigger] nodes_of(p0, c, root0, d0).contains(id) implies nodes_of(p2, c, root2, d).contains(id)
        || pend2.skip(pend0.len() as int).contains(id) by {
        if nodes_of(p1, c, root1, d).contains(id) {
            let (k, l) = choose|k: nat, l: nat|
                k < reach(c, d) && l <= d && #[trigger] node_at(p1, c, root1, d, k, l) == Some(id);
            if l == down && shares(c, d, k, h, down) {
                lemma_shared_node(p1, c, root1, d, k, h, down);
            } else {
                assert(node_at(p2, c, root2, d, k, l) == Some(id));
            }
        }
    }
}

/// The page has the type that belongs at a level, and matches its checksum.
pub open spec fn node_ok(s: Seq<u8>, level: nat) -> bool {
    s[0] == node_code(level) && checksum_ok(s)
}

/// Every page of the tree has the type that belongs at its level, and matches
/// its checksum.
pub open spec fn tree_typed(pages: Map<u64, Seq<u8>>, root: u64, depth: nat) -> bool {
    forall|k: nat, l: nat|
        k < reach(LEAF_CAPACITY as nat, depth) && l <= depth ==> ((#[trigger] node_at(
            pages,
            LEAF_CAPACITY as nat,
            root,
            depth,
            k,
            l,
        )) matches Some(p) ==> node_ok(page_at(pages, p), l))
}

/// What a change to the tree hands on from the old tree to the new one, whatever
/// its outcome.
pub open spec fn map_kept<A: PageSource>(
    tree0: &FreeMapTree,
    source0: &A,
    cache0: &PageCache,
    tree1: &FreeMapTree,
    source1: &A,
    cache1: &PageCache,
    n: nat,
) -> bool {
    &&& session_step(
        source0,
        cache0,
        tree0.session_owned@,
        source1,
        cache1,
        tree1.session_owned@,
        n,
    )
    &&& tree1.ready(source1, cache1)
    &&& tree0.depth <= tree1.depth
    &&& tree0.depth <= MAX_DEPTH ==> tree1.depth <= MAX_DEPTH
    &&& tree_typed(cache0.contents(), tree0.root, tree0.spec_depth()) ==> tree_typed(
        cache1.contents(),
        tree1.root,
        tree1.spec_depth(),
    )
    &&& forall|pages: Set<u64>|
        pages.disjoint(source0.footprint(cache0)) && #[trigger] tree_in(
            cache0.contents(),
            LEAF_CAPACITY as nat,
            tree0.root,
            tree0.spec_depth(),
            pages,
        ) ==> tree_in(
            cache1.contents(),
            LEAF_CAPACITY as nat,
            tree1.root,
            tree1.spec_depth(),
            pages.union(tree1.session_owned@.difference(tree0.session_owned@)),
        )
}

/// No page was lost: what left the source's reach belongs to the session, and what
/// the session has made is in the tree.
pub open spec fn tidy<A: PageSource>(
    tree0: &FreeMapTree,
    source0: &A,
    cache0: &PageCache,
    tree1: &FreeMapTree,
    source1: &A,
    cache1: &PageCache,
) -> bool {
    &&& forall|id: u64| #[trigger]
        source0.footprint(cache0).contains(id) ==> source1.footprint(cache1).contains(id)
            || tree1.session_owned@.contains(id)
    &&& forall|id: u64| #[trigger]
        tree1.session_owned@.contains(id) ==> tree0.session_owned@.contains(id) || nodes_of(
            cache1.contents(),
            LEAF_CAPACITY as nat,
            tree1.root,
            tree1.spec_depth(),
        ).contains(id)
}

/// No page is lost in two steps if none is lost in either.
proof fn lemma_tidy_chain<A: PageSource>(
    t0: &FreeMapTree,
    s0: &A,
    c0: &PageCache,
    t1: &FreeMapTree,
    s1: &A,
    c1: &PageCache,
    t2: &FreeMapTree,
    s2: &A,
    c2: &PageCache,
)
    requires
        tidy(t0, s0, c0, t1, s1, c1),
        tidy(t1, s1, c1, t2, s2, c2),
        t1.session_owned@.subset_of(t2.session_owned@),
        forall|id: u64| #[trigger]
            t1.session_owned@.contains(id) && nodes_of(
                c1.contents(),
                LEAF_CAPACITY as nat,
                t1.root,
                t1.spec_depth(),
            ).contains(id) ==> nodes_of(c2.contents(), LEAF_CAPACITY as nat, t2.root, t2.spec_depth()).contains(id),
    ensures
        tidy(t0, s0, c0, t2, s2, c2),
{
}

/// Half-way down the path of `h`: the pages down to `current` at `level` belong
/// to the session, and what the tree says has not changed.
#[verifier::opaque]
pub open spec fn descending<A: PageSource>(
    tree0: &FreeMapTree,
    source0: &A,
    cache0: &PageCache,
    tree1: &FreeMapTree,
    source1: &A,
    cache1: &PageCache,
    h: nat,
    level: nat,
    current: u64,
    n: nat,
) -> bool {
    let c = LEAF_CAPACITY as nat;
    let p0 = cache0.contents();
    let p1 = cache1.contents();
    let d = tree0.spec_depth();
    &&& map_kept(tree0, source0, cache0, tree1, source1, cache1, n)
    &&& tree1.depth == tree0.depth
    &&& forall|k: nat| k < reach(c, d) ==> #[trigger] node_bit(p1, tree1.root, d, k) == node_bit(p0, tree0.root, d, k)
    &&& superseded_ok(
        p0,
        tree0.root,
        d,
        tree0.session_owned@,
        p1,
        tree1.root,
        d,
        tree0.pending_superseded@,
        tree1.pending_superseded@,
    )
    &&& tidy(tree0, source0, cache0, tree1, source1, cache1)
    &&& level <= d
    &&& node_at(p1, c, tree1.root, d, h, level) == Some(current)
    &&& tree1.session_owned@.contains(current)
    &&& forall|l: nat|
        l < level ==> #[trigger] node_at(p1, c, tree1.root, d, h, l) == node_at(p0, c, tree0.root, d, h, l)
    &&& forall|l: nat|
        l < level ==> ((#[trigger] node_at(p1, c, tree1.root, d, h, l)) matches Some(x) ==> page_at(p1, x) == page_at(
            p0,
            x,
        ))
    &&& level == 0 ==> page_at(p1, current)[0] == node_code(0) || node_at(p0, c, tree0.root, d, h, 0) == Some(current)
        && page_at(p0, current)[0] == page_at(p1, current)[0]
}

/// The child was the session's already: nothing moves.
proof fn lemma_down_owned<A: PageSource>(
    t0: &FreeMapTree,
    s0: &A,
    c0: &PageCache,
    t1: &FreeMapTree,
    s1: &A,
    c1: &PageCache,
    t2: &FreeMapTree,
    s2: &A,
    c2: &PageCache,
    h: nat,
    level: nat,
    current: u64,
    n: u64,
    a: nat,
    g: nat,
)
    requires
        descending(t0, s0, c0, t1, s1, c1, h, level, current, a),
        level > 0,
        h < reach(LEAF_CAPACITY as nat, t0.spec_depth()),
        tree_in(
            c0.contents(),
            LEAF_CAPACITY as nat,
            t0.root,
            t0.spec_depth(),
            s0.footprint(c0).complement(),
        ),
        session_step(s1, c1, t1.session_owned@, s2, c2, t2.session_owned@, g),
        t2.root == t1.root,
        t2.depth == t1.depth,
        forall|id: u64|
            !s1.footprint(c1).contains(id) && id != current ==> #[trigger] page_at(c2.contents(), id) == page_at(
                c1.contents(),
                id,
            ),
        ({
            let i = rest_of(LEAF_CAPACITY as nat, t0.spec_depth(), h, level) / reach(
                LEAF_CAPACITY as nat,
                (level - 1) as nat,
            );
            &&& went_down(t1, s1, c1, t2, s2, c2, current, i, level, n)
            &&& child_of(page_at(c1.contents(), current), i) != 0
            &&& t1.session_owned@.contains(child_of(page_at(c1.contents(), current), i))
        }),
    ensures
        descending(t0, s0, c0, t2, s2, c2, h, (level - 1) as nat, n, a + g),
{
    reveal(descending);
    let c = LEAF_CAPACITY as nat;
    let d = t0.spec_depth();
    let root = t1.root;
    let p0 = c0.contents();
    let p1 = c1.contents();
    let p2 = c2.contents();
    let good = s1.footprint(c1).complement();
    let down = (level - 1) as nat;
    let rest = rest_of(c, d, h, level);
    lemma_session_chain(
        s0,
        c0,
        t0.session_owned@,
        s1,
        c1,
        t1.session_owned@,
        s2,
        c2,
        t2.session_owned@,
        a,
        g,
    );
    lemma_rest(p1, c, root, d, h, level);
    lemma_descend(c, level, rest);
    assert(node_at(p1, c, root, d, h, down) == node_at(p1, c, current, level, rest, down));
    assert(node_at(p1, c, n, down, rest % reach(c, down), down) == Some(n));
    assert(node_at(p1, c, root, d, h, down) == Some(n));
    lemma_only_at(p1, c, root, d, h, level, current);
    lemma_touched(p1, p2, c, root, d, h, level, current, good);
    lemma_unmoved(p1, p2, c, root, d);
    assert forall|pages: Set<u64>|
        pages.disjoint(s0.footprint(c0)) && #[trigger] tree_in(p0, c, t0.root, d, pages) implies tree_in(
        p2,
        c,
        root,
        d,
        pages.union(t2.session_owned@.difference(t0.session_owned@)),
    ) by {
        let some = pages.union(t1.session_owned@.difference(t0.session_owned@));
        let all = pages.union(t2.session_owned@.difference(t0.session_owned@));
        assert(some.subset_of(all));
        assert(tree_in(p1, c, root, d, some));
        lemma_tree_mono(p2, c, root, d, some, all);
    }
    assert forall|k: nat| k < reach(c, d) implies #[trigger] node_bit(p2, root, d, k) == node_bit(p0, t0.root, d, k) by {
        assert(node_bit(p1, root, d, k) == node_bit(p0, t0.root, d, k));
        assert(node_at(p2, c, root, d, k, 0) == node_at(p1, c, root, d, k, 0));
        if node_at(p1, c, root, d, k, 0) is Some {
            let leaf = node_at(p1, c, root, d, k, 0)->0;
            assert(good.contains(leaf));
            assert(leaf != current);
        }
    }
    assert forall|l: nat| l < down implies #[trigger] node_at(p2, c, root, d, h, l) == node_at(p0, c, t0.root, d, h, l)
        && (node_at(p2, c, root, d, h, l) matches Some(x) ==> page_at(p2, x) == page_at(p0, x)) by {
        assert(node_at(p2, c, root, d, h, l) == node_at(p1, c, root, d, h, l));
        if node_at(p1, c, root, d, h, l) is Some {
            let x = node_at(p1, c, root, d, h, l)->0;
            assert(good.contains(x));
            assert(x != current);
        }
    }
    assert(node_at(p2, c, root, d, h, down) == Some(n));
    assert(n != current);
    assert(good.contains(n));
    if tree_typed(p1, root, d) {
        assert forall|k: nat, l: nat| k < reach(c, d) && l <= d implies ((#[trigger] node_at(
            p2,
            c,
            root,
            d,
            k,
            l,
        )) matches Some(p) ==> node_ok(page_at(p2, p), l)) by {
            assert(node_at(p2, c, root, d, k, l) == node_at(p1, c, root, d, k, l));
            if node_at(p1, c, root, d, k, l) is Some {
                assert(good.contains(node_at(p1, c, root, d, k, l)->0));
            }
        }
    }
    assert forall|id: u64| #[trigger] t2.session_owned@.contains(id) implies t0.session_owned@.contains(id)
        || nodes_of(p2, c, root, d).contains(id) by {
        if !t0.session_owned@.contains(id) {
            assert(nodes_of(p1, c, root, d).contains(id));
            let (k, l) = choose|k: nat, l: nat|
                k < reach(c, d) && l <= d && #[trigger] node_at(p1, c, root, d, k, l) == Some(id);
            assert(node_at(p2, c, root, d, k, l) == Some(id));
        }
    }
    lemma_superseded_same(
        p0,
        t0.root,
        d,
        p1,
        p2,
        root,
        d,
        t0.pending_superseded@,
        t1.pending_superseded@,
        t2.pending_superseded@,
    );
    let pend0 = t0.pending_superseded@;
    let pend2 = t2.pending_superseded@;
    assert forall|i: int| pend0.len() <= i < pend2.len() implies tree_in(
        p2,
        c,
        root,
        d,
        Set::<u64>::full().remove(#[trigger] pend2[i]),
    ) by {
        assert(tree_in(p1, c, root, d, Set::<u64>::full().remove(pend2[i])));
    }
}

/// The child was copied or made: it takes its place.
proof fn lemma_down_fresh<A: PageSource>(
    t0: &FreeMapTree,
    s0: &A,
    c0: &PageCache,
    t1: &FreeMapTree,
    s1: &A,
    c1: &PageCache,
    t2: &FreeMapTree,
    s2: &A,
    c2: &PageCache,
    h: nat,
    level: nat,
    current: u64,
    n: u64,
    a: nat,
    g: nat,
)
    requires
        descending(t0, s0, c0, t1, s1, c1, h, level, current, a),
        level > 0,
        h < reach(LEAF_CAPACITY as nat, t0.spec_depth()),
        tree_in(
            c0.contents(),
            LEAF_CAPACITY as nat,
            t0.root,
            t0.spec_depth(),
            s0.footprint(c0).complement(),
        ),
        session_step(s1, c1, t1.session_owned@, s2, c2, t2.session_owned@, g),
        t2.root == t1.root,
        t2.depth == t1.depth,
        forall|id: u64|
            !s1.footprint(c1).contains(id) && id != current ==> #[trigger] page_at(c2.contents(), id) == page_at(
                c1.contents(),
                id,
            ),
        ({
            let i = rest_of(LEAF_CAPACITY as nat, t0.spec_depth(), h, level) / reach(
                LEAF_CAPACITY as nat,
                (level - 1) as nat,
            );
            let x = child_of(page_at(c1.contents(), current), i);
            &&& went_down(t1, s1, c1, t2, s2, c2, current, i, level, n)
            &&& !(x != 0 && t1.session_owned@.contains(x))
        }),
    ensures
        descending(t0, s0, c0, t2, s2, c2, h, (level - 1) as nat, n, a + g),
{
    reveal(descending);
    let c = LEAF_CAPACITY as nat;
    let d = t0.spec_depth();
    let root = t1.root;
    let p0 = c0.contents();
    let p1 = c1.contents();
    let p2 = c2.contents();
    let good = s1.footprint(c1).complement();
    let down = (level - 1) as nat;
    let rest = rest_of(c, d, h, level);
    let i = rest / reach(c, down);
    let x = child_of(page_at(p1, current), i);
    lemma_session_chain(
        s0,
        c0,
        t0.session_owned@,
        s1,
        c1,
        t1.session_owned@,
        s2,
        c2,
        t2.session_owned@,
        a,
        g,
    );
    lemma_rest(p1, c, root, d, h, level);
    lemma_descend(c, level, rest);
    assert(node_at(p1, c, root, d, h, down) == node_at(p1, c, current, level, rest, down));
    assert(node_at(p1, c, x, down, rest % reach(c, down), down) == Some(x));
    assert(node_at(p1, c, root, d, h, down) == (if x == 0 {
        None
    } else {
        Some(x)
    }));
    lemma_only_at(p1, c, root, d, h, level, current);
    assert(taken(s1, c1, s2, c2, n));
    assert(taken(s0, c0, s2, c2, n));
    assert(!good.contains(n));
    lemma_swapped(p1, p2, c, root, d, h, level, current, n, good);
    lemma_tree_mono(p1, c, root, d, good, Set::<u64>::full().remove(n));
    lemma_swapped_tree(p1, p2, c, root, root, d, h, down, n);
    // Where the pages lie.
    let good2 = s2.footprint(c2).complement();
    assert(tree_in(p2, c, root, d, good.insert(n)));
    lemma_tree_mono(p2, c, root, d, good.insert(n), good2);
    assert forall|pages: Set<u64>|
        pages.disjoint(s0.footprint(c0)) && #[trigger] tree_in(p0, c, t0.root, d, pages) implies tree_in(
        p2,
        c,
        root,
        d,
        pages.union(t2.session_owned@.difference(t0.session_owned@)),
    ) by {
        let some = pages.union(t1.session_owned@.difference(t0.session_owned@));
        let all = pages.union(t2.session_owned@.difference(t0.session_owned@));
        assert(some.insert(n).subset_of(all));
        assert(tree_in(p1, c, root, d, some));
        lemma_tree_mono(p2, c, root, d, some.insert(n), all);
    }
    // What the tree says.
    let read = bit_reader();
    assert forall|k: nat| k < reach(c, d) && !(down == 0 && shares(c, d, k, h, 0)) implies ((#[trigger] node_at(
        p1,
        c,
        root,
        d,
        k,
        0,
    )) matches Some(leaf) ==> forall|s: nat|
        s < c ==> #[trigger] read(page_at(p2, leaf), s) == read(page_at(p1, leaf), s)) by {
        if node_at(p1, c, root, d, k, 0) is Some {
            let leaf = node_at(p1, c, root, d, k, 0)->0;
            assert(good.contains(leaf));
            assert(leaf != current);
        }
    }
    lemma_swapped_value(p1, p2, c, root, root, d, h, down, n, read, false);
    assert forall|k: nat| k < reach(c, d) implies #[trigger] node_bit(p2, root, d, k) == node_bit(p0, t0.root, d, k) by {
        assert(node_bit(p1, root, d, k) == node_bit(p0, t0.root, d, k));
        assert(node_bit(p2, root, d, k) == tree_value(p2, c, root, d, k, read, false));
    }
    assert forall|l: nat| l < down implies #[trigger] node_at(p2, c, root, d, h, l) == node_at(p0, c, t0.root, d, h, l)
        && (node_at(p2, c, root, d, h, l) matches Some(y) ==> page_at(p2, y) == page_at(p0, y)) by {
        assert(node_at(p2, c, root, d, h, l) == node_at(p1, c, root, d, h, l));
        if node_at(p1, c, root, d, h, l) is Some {
            let y = node_at(p1, c, root, d, h, l)->0;
            assert(good.contains(y));
            assert(y != current);
        }
    }
    if tree_typed(p1, root, d) {
        assert forall|k: nat, l: nat| k < reach(c, d) && l <= d implies ((#[trigger] node_at(
            p2,
            c,
            root,
            d,
            k,
            l,
        )) matches Some(p) ==> node_ok(page_at(p2, p), l)) by {
            if !(l == down && shares(c, d, k, h, down)) {
                assert(node_at(p2, c, root, d, k, l) == node_at(p1, c, root, d, k, l));
                if node_at(p1, c, root, d, k, l) is Some {
                    assert(good.contains(node_at(p1, c, root, d, k, l)->0));
                }
            }
        }
    }
    // What was superseded.
    let pend0 = t0.pending_superseded@;
    let pend1 = t1.pending_superseded@;
    let pend2 = t2.pending_superseded@;
    lemma_nodes(p0, c, t0.root, d);
    assert(pend0.is_prefix_of(pend2)) by {
        assert(pend1.is_prefix_of(pend2));
        lemma_prefix_trans(pend0, pend1, pend2);
    }
    assert forall|id: u64| #[trigger] t2.session_owned@.contains(id) implies t0.session_owned@.contains(id)
        || nodes_of(p2, c, root, d).contains(id) by {
        if id == n {
            assert(node_at(p2, c, root, d, h, down) == Some(n));
        } else if !t0.session_owned@.contains(id) {
            assert(t1.session_owned@.contains(id));
            assert(nodes_of(p1, c, root, d).contains(id));
            lemma_stays(p1, root, p2, root, d, h, down, n, id);
        }
    }
    assert(pend1.is_prefix_of(pend2));
    if x != 0 {
        assert(pend2[pend1.len() as int] == x);
        assert(pend2.skip(pend0.len() as int)[pend1.len() - pend0.len()] == x);
    }
    lemma_superseded_swapped(p0, t0.root, d, p1, root, p2, root, d, h, down, n, pend0, pend1, pend2);
    assert forall|j: int| pend0.len() <= j < pend2.len() implies {
        &&& nodes_of(p0, c, t0.root, d).contains(#[trigger] pend2[j])
        &&& !t0.session_owned@.contains(pend2[j])
        &&& tree_in(p2, c, root, d, Set::<u64>::full().remove(pend2[j]))
    } by {
        if j < pend1.len() {
            let y = pend1[j];
            assert(pend2[j] == y);
            assert(nodes_of(p0, c, t0.root, d).contains(y));
            assert(s0.footprint(c0).complement().contains(y));
            let rest_set = Set::<u64>::full().remove(y);
            assert(tree_in(p1, c, root, d, rest_set));
            lemma_tree_mono(p2, c, root, d, rest_set.insert(n), rest_set);
        } else {
            assert(pend2[j] == x);
            assert(node_at(p1, c, root, d, h, down) == node_at(p0, c, t0.root, d, h, down));
            assert(node_at(p0, c, t0.root, d, h, down) == Some(x));
        }
    }
}

/// A page that is not exchanged stays in the tree.
proof fn lemma_stays(
    p1: Map<u64, Seq<u8>>,
    root1: u64,
    p2: Map<u64, Seq<u8>>,
    root2: u64,
    d: nat,
    h: nat,
    down: nat,
    n: u64,
    id: u64,
)
    requires
        h < reach(LEAF_CAPACITY as nat, d),
        down <= d,
        swapped(p1, p2, LEAF_CAPACITY as nat, root1, root2, d, h, down, n),
        nodes_of(p1, LEAF_CAPACITY as nat, root1, d).contains(id),
        node_at(p1, LEAF_CAPACITY as nat, root1, d, h, down) != Some(id),
    ensures
        nodes_of(p2, LEAF_CAPACITY as nat, root2, d).contains(id),
{
    let c = LEAF_CAPACITY as nat;
    let (k, l) = choose|k: nat, l: nat|
        k < reach(c, d) && l <= d && #[trigger] node_at(p1, c, root1, d, k, l) == Some(id);
    if l == down && shares(c, d, k, h, down) {
        lemma_shared_node(p1, c, root1, d, k, h, down);
    }
    assert(node_at(p2, c, root2, d, k, l) == Some(id));
}

/// What the tree says has not changed.
pub open spec fn bits_kept(
    tree0: &FreeMapTree,
    cache0: &PageCache,
    tree1: &FreeMapTree,
    cache1: &PageCache,
) -> bool {
    forall|k: u64| #[trigger] tree1.marks_free(cache1, k) == tree0.marks_free(cache0, k)
}

/// The tree says `free` about `id`, and the same as before about all other ids.
pub open spec fn bit_set(
    tree0: &FreeMapTree,
    cache0: &PageCache,
    tree1: &FreeMapTree,
    cache1: &PageCache,
    id: u64,
    free: bool,
) -> bool {
    forall|k: u64| #[trigger]
        tree1.marks_free(cache1, k) == (if k == id {
            free
        } else {
            tree0.marks_free(cache0, k)
        })
}

/// The way down begins at the root, which the session owned or has copied.
proof fn lemma_descending_start<A: PageSource>(
    t0: &FreeMapTree,
    s0: &A,
    c0: &PageCache,
    t1: &FreeMapTree,
    s1: &A,
    c1: &PageCache,
    h: nat,
    n: u64,
    g: nat,
)
    requires
        c0.inv(),
        c0.bounded(),
        s0.ready(c0),
        t0.ready(s0, c0),
        h < reach(LEAF_CAPACITY as nat, t0.spec_depth()),
        cow_step(s0, c0, s1, c1, g),
        t1.root == n,
        t1.depth == t0.depth,
        if t0.session_owned@.contains(t0.root) {
            &&& n == t0.root
            &&& *s1 == *s0
            &&& *c1 == *c0
            &&& t1.session_owned@ == t0.session_owned@
            &&& t1.pending_superseded@ == t0.pending_superseded@
        } else {
            &&& taken(s0, c0, s1, c1, n)
            &&& s1.footprint(c1) == s0.footprint(c0).remove(n)
            &&& c0.contents().contains_key(t0.root)
            &&& c1.contents()[n] == c0.contents()[t0.root]
            &&& c0.contents()[t0.root][0] == node_code(t0.spec_depth())
            &&& t1.session_owned@ == t0.session_owned@.insert(n)
            &&& t1.pending_superseded@ == t0.pending_superseded@.push(t0.root)
        },
    ensures
        descending(t0, s0, c0, t1, s1, c1, h, t0.spec_depth(), n, g),
{
    reveal(descending);
    let c = LEAF_CAPACITY as nat;
    let d = t0.spec_depth();
    let p0 = c0.contents();
    let p1 = c1.contents();
    let good = s0.footprint(c0).complement();
    let own0 = t0.session_owned@;
    lemma_session_start(s0, c0, own0);
    lemma_session_cow(s0, c0, own0, s0, c0, own0, s1, c1, 0, g);
    assert(node_at(p0, c, t0.root, d, h, d) == Some(t0.root));
    assert(good.contains(t0.root));
    let pend = t0.pending_superseded@;
    assert(all_superseded(p0, t0.root, d, p0, t0.root, d, pend, pend));
    if own0.contains(t0.root) {
        assert forall|pages: Set<u64>| #[trigger] tree_in(p0, c, t0.root, d, pages) implies tree_in(
            p1,
            c,
            n,
            d,
            pages.union(t1.session_owned@.difference(t0.session_owned@)),
        ) by {
            lemma_tree_mono(p1, c, n, d, pages, pages.union(t1.session_owned@.difference(t0.session_owned@)));
        }
    } else {
        assert(!good.contains(n));
        lemma_good_kept(s0, c0, s1, c1, g);
        assert(page_at(p1, n) == page_at(p0, t0.root));
        lemma_swapped_root(p0, p1, c, t0.root, n, d, h, good);
        lemma_tree_mono(p0, c, t0.root, d, good, Set::<u64>::full().remove(n));
        lemma_swapped_tree(p0, p1, c, t0.root, n, d, h, d, n);
        assert(tree_in(p1, c, n, d, good.insert(n)));
        lemma_tree_mono(p1, c, n, d, good.insert(n), s1.footprint(c1).complement());
        assert forall|pages: Set<u64>| #[trigger] tree_in(p0, c, t0.root, d, pages) implies tree_in(
            p1,
            c,
            n,
            d,
            pages.union(t1.session_owned@.difference(t0.session_owned@)),
        ) by {
            lemma_tree_mono(p1, c, n, d, pages.insert(n), pages.union(t1.session_owned@.difference(t0.session_owned@)));
        }
        let read = bit_reader();
        assert forall|k: nat| k < reach(c, d) && !(d == 0 && shares(c, d, k, h, 0)) implies ((#[trigger] node_at(
            p0,
            c,
            t0.root,
            d,
            k,
            0,
        )) matches Some(leaf) ==> forall|s: nat|
            s < c ==> #[trigger] read(page_at(p1, leaf), s) == read(page_at(p0, leaf), s)) by {
            if node_at(p0, c, t0.root, d, k, 0) is Some {
                assert(good.contains(node_at(p0, c, t0.root, d, k, 0)->0));
            }
        }
        lemma_swapped_value(p0, p1, c, t0.root, n, d, h, d, n, read, false);
        assert forall|k: nat| k < reach(c, d) implies #[trigger] node_bit(p1, n, d, k) == node_bit(p0, t0.root, d, k) by {
            assert(node_bit(p1, n, d, k) == tree_value(p1, c, n, d, k, read, false));
        }
        assert forall|l: nat| l < d implies #[trigger] node_at(p1, c, n, d, h, l) == node_at(p0, c, t0.root, d, h, l)
            && (node_at(p1, c, n, d, h, l) matches Some(x) ==> page_at(p1, x) == page_at(p0, x)) by {
            if node_at(p0, c, t0.root, d, h, l) is Some {
                assert(good.contains(node_at(p0, c, t0.root, d, h, l)->0));
            }
        }
        if tree_typed(p0, t0.root, d) {
            assert forall|k: nat, l: nat| k < reach(c, d) && l <= d implies ((#[trigger] node_at(
                p1,
                c,
                n,
                d,
                k,
                l,
            )) matches Some(p) ==> node_ok(page_at(p1, p), l)) by {
                if l < d {
                    assert(node_at(p1, c, n, d, k, l) == node_at(p0, c, t0.root, d, k, l));
                    if node_at(p0, c, t0.root, d, k, l) is Some {
                        assert(good.contains(node_at(p0, c, t0.root, d, k, l)->0));
                    }
                }
            }
        }
        let pend1 = t1.pending_superseded@;
        assert(t0.pending_superseded@.is_prefix_of(pend1));
        assert(pend1.skip(pend.len() as int)[0] == t0.root);
        assert(node_at(p1, c, n, d, h, d) == Some(n));
        lemma_superseded_swapped(p0, t0.root, d, p0, t0.root, p1, n, d, h, d, n, pend, pend, pend1);
        assert forall|i: int| t0.pending_superseded@.len() <= i < pend1.len() implies {
            &&& nodes_of(p0, c, t0.root, d).contains(#[trigger] pend1[i])
            &&& !own0.contains(pend1[i])
            &&& tree_in(p1, c, n, d, Set::<u64>::full().remove(pend1[i]))
        } by {
            assert(pend1[i] == t0.root);
        }
    }
}

/// Stopping half-way leaves a tree that says what it said.
proof fn lemma_stopped<A: PageSource>(
    t0: &FreeMapTree,
    s0: &A,
    c0: &PageCache,
    t1: &FreeMapTree,
    s1: &A,
    c1: &PageCache,
    t2: &FreeMapTree,
    s2: &A,
    c2: &PageCache,
    h: nat,
    level: nat,
    current: u64,
    a: nat,
    g: nat,
)
    requires
        descending(t0, s0, c0, t1, s1, c1, h, level, current, a),
        session_step(s1, c1, t1.session_owned@, s2, c2, t2.session_owned@, g),
        t2.root == t1.root,
        t2.depth == t1.depth,
        t1.pending_superseded@.is_prefix_of(t2.pending_superseded@),
        forall|id: u64|
            !s1.footprint(c1).contains(id) ==> #[trigger] page_at(c2.contents(), id) == page_at(c1.contents(), id),
    ensures
        map_kept(t0, s0, c0, t2, s2, c2, a + g),
        bits_kept(t0, c0, t2, c2),
        t0.pending_superseded@.is_prefix_of(t2.pending_superseded@),
{
    reveal(descending);
    let c = LEAF_CAPACITY as nat;
    let d = t0.spec_depth();
    let root = t1.root;
    let p0 = c0.contents();
    let p1 = c1.contents();
    let p2 = c2.contents();
    let good = s1.footprint(c1).complement();
    lemma_session_chain(
        s0,
        c0,
        t0.session_owned@,
        s1,
        c1,
        t1.session_owned@,
        s2,
        c2,
        t2.session_owned@,
        a,
        g,
    );
    assert(same_on(p1, p2, good));
    lemma_tree_same(p1, p2, c, root, d, good);
    lemma_unmoved(p1, p2, c, root, d);
    lemma_tree_mono(p2, c, root, d, good, s2.footprint(c2).complement());
    assert forall|pages: Set<u64>|
        pages.disjoint(s0.footprint(c0)) && #[trigger] tree_in(p0, c, t0.root, d, pages) implies tree_in(
        p2,
        c,
        root,
        d,
        pages.union(t2.session_owned@.difference(t0.session_owned@)),
    ) by {
        let some = pages.union(t1.session_owned@.difference(t0.session_owned@));
        let all = pages.union(t2.session_owned@.difference(t0.session_owned@));
        assert(some.subset_of(all));
        assert(tree_in(p1, c, root, d, some));
        lemma_tree_mono(p2, c, root, d, some, all);
    }
    assert forall|k: u64| #[trigger] t2.marks_free(c2, k) == t0.marks_free(c0, k) by {
        if k < reach(c, d) {
            assert(node_bit(p1, root, d, k as nat) == node_bit(p0, t0.root, d, k as nat));
            assert(node_at(p2, c, root, d, k as nat, 0) == node_at(p1, c, root, d, k as nat, 0));
            if node_at(p1, c, root, d, k as nat, 0) is Some {
                assert(good.contains(node_at(p1, c, root, d, k as nat, 0)->0));
            }
        }
    }
    lemma_prefix_trans(t0.pending_superseded@, t1.pending_superseded@, t2.pending_superseded@);
    lemma_typed_same(p1, p2, root, d, good);
}

/// The bit of the id was changed in its leaf.
proof fn lemma_leaf_done<A: PageSource>(
    t0: &FreeMapTree,
    s0: &A,
    c0: &PageCache,
    t1: &FreeMapTree,
    s1: &A,
    c1: &PageCache,
    c2: &PageCache,
    id: u64,
    leaf: u64,
    free: bool,
    a: nat,
)
    requires
        descending(t0, s0, c0, t1, s1, c1, id as nat, 0, leaf, a),
        id < reach(LEAF_CAPACITY as nat, t0.spec_depth()),
        edited(c1, c2, leaf),
        page_at(c2.contents(), leaf)[0] == page_at(c1.contents(), leaf)[0],
        checksum_ok(page_at(c2.contents(), leaf)),
        forall|s: nat|
            s < LEAF_CAPACITY ==> #[trigger] marked_free(page_at(c2.contents(), leaf), s as u64) == (if s == slot_of(
                LEAF_CAPACITY as nat,
                t0.spec_depth(),
                id as nat,
            ) {
                free
            } else {
                marked_free(page_at(c1.contents(), leaf), s as u64)
            }),
    ensures
        map_kept(t0, s0, c0, t1, s1, c2, a),
        tidy(t0, s0, c0, t1, s1, c2),
        bit_set(t0, c0, t1, c2, id, free),
        superseded_ok(
            c0.contents(),
            t0.root,
            t0.spec_depth(),
            t0.session_owned@,
            c2.contents(),
            t1.root,
            t1.spec_depth(),
            t0.pending_superseded@,
            t1.pending_superseded@,
        ),
{
    reveal(descending);
    let c = LEAF_CAPACITY as nat;
    let d = t0.spec_depth();
    let root = t1.root;
    let p0 = c0.contents();
    let p1 = c1.contents();
    let p2 = c2.contents();
    let h = id as nat;
    let good = s1.footprint(c1).complement();
    lemma_session_edit(s0, c0, t0.session_owned@, s1, c1, t1.session_owned@, c2, leaf, a);
    let read = bit_reader();
    lemma_leaf_edited(p1, p2, c, root, d, h, leaf, good, read, false, free);
    lemma_unmoved(p1, p2, c, root, d);
    assert forall|pages: Set<u64>|
        pages.disjoint(s0.footprint(c0)) && #[trigger] tree_in(p0, c, t0.root, d, pages) implies tree_in(
        p2,
        c,
        root,
        d,
        pages.union(t1.session_owned@.difference(t0.session_owned@)),
    ) by {
        let some = pages.union(t1.session_owned@.difference(t0.session_owned@));
        let all = pages.union(t1.session_owned@.difference(t0.session_owned@));
        assert(some.subset_of(all));
        assert(tree_in(p1, c, root, d, some));
        lemma_tree_mono(p2, c, root, d, some, all);
    }
    assert forall|k: u64| #[trigger] t1.marks_free(c2, k) == (if k == id {
        free
    } else {
        t0.marks_free(c0, k)
    }) by {
        if k < reach(c, d) {
            assert(node_bit(p1, root, d, k as nat) == node_bit(p0, t0.root, d, k as nat));
            assert(node_bit(p2, root, d, k as nat) == tree_value(p2, c, root, d, k as nat, read, false));
            assert(node_bit(p1, root, d, k as nat) == tree_value(p1, c, root, d, k as nat, read, false));
        }
    }
    if tree_typed(p1, root, d) {
        assert forall|k: nat, l: nat| k < reach(c, d) && l <= d implies ((#[trigger] node_at(
            p2,
            c,
            root,
            d,
            k,
            l,
        )) matches Some(p) ==> node_ok(page_at(p2, p), l)) by {
            assert(node_at(p2, c, root, d, k, l) == node_at(p1, c, root, d, k, l));
            if node_at(p1, c, root, d, k, l) is Some {
                assert(good.contains(node_at(p1, c, root, d, k, l)->0));
            }
        }
    }
    assert forall|x: u64| #[trigger] t1.session_owned@.contains(x) implies t0.session_owned@.contains(x) || nodes_of(
        p2,
        c,
        root,
        d,
    ).contains(x) by {
        if !t0.session_owned@.contains(x) {
            assert(nodes_of(p1, c, root, d).contains(x));
            let (k, l) = choose|k: nat, l: nat|
                k < reach(c, d) && l <= d && #[trigger] node_at(p1, c, root, d, k, l) == Some(x);
            assert(node_at(p2, c, root, d, k, l) == Some(x));
        }
    }
    lemma_superseded_same(
        p0,
        t0.root,
        d,
        p1,
        p2,
        root,
        d,
        t0.pending_superseded@,
        t1.pending_superseded@,
        t1.pending_superseded@,
    );
    let pend0 = t0.pending_superseded@;
    let pend1 = t1.pending_superseded@;
    assert forall|i: int| pend0.len() <= i < pend1.len() implies tree_in(
        p2,
        c,
        root,
        d,
        Set::<u64>::full().remove(#[trigger] pend1[i]),
    ) by {
        assert(tree_in(p1, c, root, d, Set::<u64>::full().remove(pend1[i])));
    }
}

/// The types depend on the pages of the tree only.
pub proof fn lemma_typed_same(
    before: Map<u64, Seq<u8>>,
    after: Map<u64, Seq<u8>>,
    root: u64,
    depth: nat,
    good: Set<u64>,
)
    requires
        tree_in(before, LEAF_CAPACITY as nat, root, depth, good),
        same_on(before, after, good),
    ensures
        tree_typed(before, root, depth) ==> tree_typed(after, root, depth),
{
    let c = LEAF_CAPACITY as nat;
    lemma_tree_same(before, after, c, root, depth, good);
    if tree_typed(before, root, depth) {
        assert forall|k: nat, l: nat| k < reach(c, depth) && l <= depth implies ((#[trigger] node_at(
            after,
            c,
            root,
            depth,
            k,
            l,
        )) matches Some(p) ==> node_ok(page_at(after, p), l)) by {
            assert(node_at(before, c, root, depth, k, l) == node_at(after, c, root, depth, k, l));
            if node_at(before, c, root, depth, k, l) is Some {
                assert(good.contains(node_at(before, c, root, depth, k, l)->0));
            }
        }
    }
}

/// Doing nothing keeps the tree.
proof fn lemma_same_map<A: PageSource>(t: &FreeMapTree, s: &A, c: &PageCache)
    requires
        c.inv(),
        c.bounded(),
        s.ready(c),
        t.ready(s, c),
    ensures
        forall|n: nat| #[trigger] map_kept(t, s, c, t, s, c, n),
{
    lemma_session_start(s, c, t.session_owned@);
    assert forall|pages: Set<u64>| #[trigger] tree_in(
        c.contents(),
        LEAF_CAPACITY as nat,
        t.root,
        t.spec_depth(),
        pages,
    ) implies tree_in(
        c.contents(),
        LEAF_CAPACITY as nat,
        t.root,
        t.spec_depth(),
        pages.union(t.session_owned@.difference(t.session_owned@)),
    ) by {
        lemma_tree_mono(
            c.contents(),
            LEAF_CAPACITY as nat,
            t.root,
            t.spec_depth(),
            pages,
            pages.union(t.session_owned@.difference(t.session_owned@)),
        );
    }
}

/// A larger bound on the pages.
proof fn lemma_map_more<A: PageSource>(
    t0: &FreeMapTree,
    s0: &A,
    c0: &PageCache,
    t1: &FreeMapTree,
    s1: &A,
    c1: &PageCache,
    n: nat,
    m: nat,
)
    requires
        map_kept(t0, s0, c0, t1, s1, c1, n),
        n <= m,
    ensures
        map_kept(t0, s0, c0, t1, s1, c1, m),
{
}

/// A step of the source alone keeps the tree.
proof fn lemma_failed_early<A: PageSource>(
    t0: &FreeMapTree,
    s0: &A,
    c0: &PageCache,
    t1: &FreeMapTree,
    s1: &A,
    c1: &PageCache,
    g: nat,
)
    requires
        c0.inv(),
        c0.bounded(),
        s0.ready(c0),
        t0.ready(s0, c0),
        cow_step(s0, c0, s1, c1, g),
        t1.root == t0.root,
        t1.depth == t0.depth,
        t1.session_owned@ == t0.session_owned@,
    ensures
        map_kept(t0, s0, c0, t1, s1, c1, g),
        bits_kept(t0, c0, t1, c1),
{
    let c = LEAF_CAPACITY as nat;
    let d = t0.spec_depth();
    let root = t0.root;
    let p0 = c0.contents();
    let p1 = c1.contents();
    let own = t0.session_owned@;
    let good = s0.footprint(c0).complement();
    lemma_session_start(s0, c0, own);
    lemma_session_cow(s0, c0, own, s0, c0, own, s1, c1, 0, g);
    lemma_good_kept(s0, c0, s1, c1, g);
    lemma_tree_same(p0, p1, c, root, d, good);
    lemma_typed_same(p0, p1, root, d, good);
    lemma_unmoved(p0, p1, c, root, d);
    lemma_tree_mono(p1, c, root, d, good, s1.footprint(c1).complement());
    assert forall|pages: Set<u64>| #[trigger] tree_in(p0, c, root, d, pages) implies tree_in(
        p1,
        c,
        root,
        d,
        pages.union(t1.session_owned@.difference(t0.session_owned@)),
    ) by {
        lemma_tree_mono(p1, c, root, d, pages, pages.union(t1.session_owned@.difference(t0.session_owned@)));
    }
    assert forall|k: u64| #[trigger] t1.marks_free(c1, k) == t0.marks_free(c0, k) by {
        if k < reach(c, d) {
            assert(node_at(p1, c, root, d, k as nat, 0) == node_at(p0, c, root, d, k as nat, 0));
            if node_at(p0, c, root, d, k as nat, 0) is Some {
                assert(good.contains(node_at(p0, c, root, d, k as nat, 0)->0));
            }
        }
    }
}

/// What the next step down needs to know.
proof fn lemma_ready_to_step<A: PageSource>(
    t0: &FreeMapTree,
    s0: &A,
    c0: &PageCache,
    t1: &FreeMapTree,
    s1: &A,
    c1: &PageCache,
    h: nat,
    level: nat,
    current: u64,
    a: nat,
)
    requires
        descending(t0, s0, c0, t1, s1, c1, h, level, current, a),
        h < reach(LEAF_CAPACITY as nat, t0.spec_depth()),
    ensures
        c1.inv(),
        c1.bounded(),
        s1.ready(c1),
        c1.watermark() <= c0.watermark() + a,
        t1.session_owned@.contains(current),
        owned_ok(s1, c1, t1.session_owned@),
        t1.root != 0,
        level > 0 ==> ({
            let i = rest_of(LEAF_CAPACITY as nat, t0.spec_depth(), h, level) / reach(
                LEAF_CAPACITY as nat,
                (level - 1) as nat,
            );
            let x = child_of(page_at(c1.contents(), current), i);
            x == 0 || !s1.footprint(c1).contains(x)
        }),
        grown_by(c0, c1, a),
{
    reveal(descending);
    let c = LEAF_CAPACITY as nat;
    let d = t0.spec_depth();
    let p1 = c1.contents();
    lemma_rest(p1, c, t1.root, d, h, level);
    if level > 0 {
        let rest = rest_of(c, d, h, level);
        let down = (level - 1) as nat;
        lemma_descend(c, level, rest);
        let x = child_of(page_at(p1, current), rest / reach(c, down));
        if x != 0 {
            assert(node_at(p1, c, x, down, rest % reach(c, down), down) == Some(x));
            assert(node_at(p1, c, current, level, rest, down) == Some(x));
            assert(node_at(p1, c, t1.root, d, h, down) == Some(x));
            assert(s1.footprint(c1).complement().contains(x));
        }
    }
}

/// A fault of the next page is one on the path in the old tree.
proof fn lemma_step_fault<A: PageSource>(
    t0: &FreeMapTree,
    s0: &A,
    c0: &PageCache,
    t1: &FreeMapTree,
    s1: &A,
    c1: &PageCache,
    h: nat,
    level: nat,
    current: u64,
    a: nat,
    g: nat,
    e: ChiselError,
)
    requires
        descending(t0, s0, c0, t1, s1, c1, h, level, current, a),
        h < reach(LEAF_CAPACITY as nat, t0.spec_depth()),
        level > 0,
        t0.ready(s0, c0),
        ({
            let i = rest_of(LEAF_CAPACITY as nat, t0.spec_depth(), h, level) / reach(
                LEAF_CAPACITY as nat,
                (level - 1) as nat,
            );
            let x = child_of(page_at(c1.contents(), current), i);
            too_many(c1, e, g) || x != 0 && !t1.session_owned@.contains(x) && page_fault(c1, x, (level - 1) as nat, e)
        }),
    ensures
        too_many(c0, e, a + g) || path_fault(c0, t0.root, t0.spec_depth(), h, e),
{
    reveal(descending);
    let c = LEAF_CAPACITY as nat;
    let d = t0.spec_depth();
    let p1 = c1.contents();
    let p0 = c0.contents();
    if !too_many(c1, e, g) {
        lemma_rest(p1, c, t1.root, d, h, level);
        let rest = rest_of(c, d, h, level);
        let down = (level - 1) as nat;
        lemma_descend(c, level, rest);
        let x = child_of(page_at(p1, current), rest / reach(c, down));
        assert(node_at(p1, c, x, down, rest % reach(c, down), down) == Some(x));
        assert(node_at(p1, c, current, level, rest, down) == Some(x));
        assert(node_at(p1, c, t1.root, d, h, down) == Some(x));
        assert(node_at(p0, c, t0.root, d, h, down) == Some(x));
        assert(s0.footprint(c0).complement().contains(x));
        lemma_agree_at(c0, c1, s0.footprint(c0).union(t0.session_owned@).complement(), x);
        assert(page_fault(c0, x, down, e));
    }
}

/// A leaf of the wrong type is a fault on the path in the old tree.
proof fn lemma_leaf_fault<A: PageSource>(
    t0: &FreeMapTree,
    s0: &A,
    c0: &PageCache,
    t1: &FreeMapTree,
    s1: &A,
    c1: &PageCache,
    h: nat,
    leaf: u64,
    a: nat,
)
    requires
        descending(t0, s0, c0, t1, s1, c1, h, 0, leaf, a),
        page_at(c1.contents(), leaf)[0] != node_code(0),
    ensures
        path_fault(c0, t0.root, t0.spec_depth(), h, ChiselError::CorruptPage { page_id: leaf }),
{
    reveal(descending);
    assert(node_at(c0.contents(), LEAF_CAPACITY as nat, t0.root, t0.spec_depth(), h, 0) == Some(leaf));
    assert(page_fault(c0, leaf, 0, ChiselError::CorruptPage { page_id: leaf }));
}

impl FreeMapTree {
    /// Say `free` about one id of a leaf.
    fn set_bit(buf: &mut [u8; PAGE_SIZE], bit: u64, free: bool)
        requires
            bit < LEAF_CAPACITY,
        ensures
            checksum_ok(final(buf)@),
            final(buf)@[0] == old(buf)@[0],
            forall|j: nat|
                j < LEAF_CAPACITY ==> #[trigger] marked_free(final(buf)@, j as u64) == (if j == bit {
                    free
                } else {
                    marked_free(old(buf)@, j as u64)
                }),
    {
        let ghost before = buf@;
        if free {
            FreeMap::mark_free(buf, bit);
        } else {
            FreeMap::clear_bit(buf, bit);
        }
        let ghost s = buf@;
        stamp_checksum(buf);
        proof {
            lemma_stamped(s, buf@);
            assert forall|j: nat| j < LEAF_CAPACITY implies #[trigger] marked_free(buf@, j as u64) == (if j == bit {
                free
            } else {
                marked_free(before, j as u64)
            }) by {
                assert(free_ids(s).contains(j as u64) == marked_free(s, j as u64));
                assert(free_ids(before).contains(j as u64) == marked_free(before, j as u64));
            }
        }
    }

    /// Make the pages on the path of `id` belong to the session, then say `free`
    /// about `id` in its leaf. An id out of reach is refused.
    #[verifier::rlimit(40)]
    #[verifier::spinoff_prover]
    fn cow_descend<A: PageSource>(&mut self, cache: &mut PageCache, id: u64, free: bool, source: &mut A) -> (outcome:
        Result<(), ChiselError>)
        requires
            old(cache).inv(),
            old(cache).bounded(),
            old(source).ready(old(cache)),
            old(self).ready(old(source), old(cache)),
            old(cache).watermark() + (MAX_DEPTH + 1) * A::growth() <= usize::MAX,
        ensures
            map_kept(
                old(self),
                old(source),
                old(cache),
                final(self),
                final(source),
                final(cache),
                ((MAX_DEPTH + 1) * A::growth()) as nat,
            ),
            final(self).depth == old(self).depth,
            outcome matches Ok(_) ==> {
                &&& old(self).depth <= MAX_DEPTH
                &&& id < reach(LEAF_CAPACITY as nat, old(self).spec_depth())
                &&& tidy(old(self), old(source), old(cache), final(self), final(source), final(cache))
                &&& bit_set(old(self), old(cache), final(self), final(cache), id, free)
                &&& superseded_ok(
                    old(cache).contents(),
                    old(self).root,
                    old(self).spec_depth(),
                    old(self).session_owned@,
                    final(cache).contents(),
                    final(self).root,
                    final(self).spec_depth(),
                    old(self).pending_superseded@,
                    final(self).pending_superseded@,
                )
            },
            outcome matches Err(e) ==> {
                &&& bits_kept(old(self), old(cache), final(self), final(cache))
                &&& old(self).pending_superseded@.is_prefix_of(final(self).pending_superseded@)
                &&& if old(self).depth > MAX_DEPTH || id >= reach(LEAF_CAPACITY as nat, old(self).spec_depth()) {
                    &&& e == (ChiselError::CorruptPage { page_id: old(self).root })
                    &&& *final(self) == *old(self)
                    &&& *final(source) == *old(source)
                    &&& *final(cache) == *old(cache)
                } else {
                    overrun(old(cache), final(cache), e, ((MAX_DEPTH + 1) * A::growth()) as nat) || path_fault(
                        old(cache),
                        old(self).root,
                        old(self).spec_depth(),
                        id as nat,
                        e,
                    )
                }
            },
    {
        let ghost c = LEAF_CAPACITY as nat;
        let ghost g = A::growth();
        let ghost t0 = *self;
        let ghost s0 = *source;
        let ghost c0 = *cache;
        let ghost d = self.spec_depth();
        let ghost h = id as nat;
        let ghost total = ((MAX_DEPTH + 1) * g) as nat;
        proof {
            lemma_session_start(source, cache, self.session_owned@);
            lemma_same_map(self, source, cache);
        }
        match self.check_depth() {
            Ok(_) => {},
            Err(e) => {
                return Err(e);
            },
        }
        proof {
            lemma_bound_leaf(d);
        }
        let cap: u64 = self.capacity();
        if cap != u64::MAX && id >= cap {
            return Err(ChiselError::CorruptPage { page_id: self.root });
        }
        let root_expected: PageType = if self.depth > 0 {
            PageType::FreeMapInterior
        } else {
            PageType::FreeMap
        };
        proof {
            assert(node_at(c0.contents(), c, t0.root, d, h, d) == Some(t0.root));
            assert(s0.footprint(&c0).complement().contains(t0.root));
            assert(g <= total && (1 + d) * g <= total) by (nonlinear_arith)
                requires
                    total == (MAX_DEPTH + 1) * g,
                    d <= MAX_DEPTH,
                    MAX_DEPTH == 5,
                    g >= 0,
            ;
            assert((1 + d - d) * g == g) by (nonlinear_arith);
        }
        let old_root: u64 = self.root;
        let new_root: u64 = match self.cow_node(cache, old_root, root_expected, source) {
            Ok(n) => n,
            Err(e) => {
                proof {
                    lemma_failed_early(&t0, &s0, &c0, self, source, cache, g);
                    lemma_map_more(&t0, &s0, &c0, self, source, cache, g, total);
                    if !too_many(&c0, e, g) {
                        assert(page_fault(&c0, t0.root, d, e));
                    }
                }
                return Err(e);
            },
        };
        self.root = new_root;
        proof {
            lemma_descending_start(&t0, &s0, &c0, self, source, cache, h, new_root, g);
        }
        let mut current: u64 = new_root;
        let mut remaining: u64 = id;
        let mut level: u32 = self.depth;
        while level > 0
            invariant
                c == LEAF_CAPACITY as nat,
                g == A::growth(),
                t0 == *old(self),
                s0 == *old(source),
                c0 == *old(cache),
                d == t0.spec_depth(),
                self.depth == t0.depth,
                level <= self.depth <= MAX_DEPTH,
                h == id as nat,
                h < reach(c, d),
                total == ((MAX_DEPTH + 1) * g) as nat,
                (1 + d) * g <= total,
                c0.watermark() + (MAX_DEPTH + 1) * g <= usize::MAX,
                t0.ready(&s0, &c0),
                remaining == rest_of(c, d, h, level as nat),
                descending(&t0, &s0, &c0, self, source, cache, h, level as nat, current, ((1 + d - level) * g) as nat),
            decreases level,
        {
            let ghost t1 = *self;
            let ghost s1 = *source;
            let ghost c1 = *cache;
            let ghost lv = level as nat;
            let ghost a = ((1 + d - lv) * g) as nat;
            let ghost down = (lv - 1) as nat;
            proof {
                lemma_bound_leaf(down);
                lemma_rest(c1.contents(), c, t1.root, d, h, lv);
                lemma_rest_down(c, d, h, lv);
                lemma_descend(c, lv, remaining as nat);
                lemma_ready_to_step(&t0, &s0, &c0, &t1, &s1, &c1, h, lv, current, a);
                assert(a + g <= total && a + g == (1 + d - down) * g) by (nonlinear_arith)
                    requires
                        a == (1 + d - lv) * g,
                        down == lv - 1,
                        lv >= 1,
                        (1 + d) * g <= total,
                        g >= 0,
                ;
            }
            let span: u64 = self.child_span(level);
            let child_idx: usize = (remaining / span) as usize;
            let ghost i = child_idx as nat;
            assert(i == rest_of(c, d, h, lv) / reach(c, down));
            match self.step_down(cache, current, child_idx, level, source) {
                Ok(n) => {
                    proof {
                        let x = child_of(page_at(c1.contents(), current), i);
                        if x != 0 && t1.session_owned@.contains(x) {
                            lemma_down_owned(
                                &t0,
                                &s0,
                                &c0,
                                &t1,
                                &s1,
                                &c1,
                                self,
                                source,
                                cache,
                                h,
                                lv,
                                current,
                                n,
                                a,
                                g,
                            );
                        } else {
                            lemma_down_fresh(
                                &t0,
                                &s0,
                                &c0,
                                &t1,
                                &s1,
                                &c1,
                                self,
                                source,
                                cache,
                                h,
                                lv,
                                current,
                                n,
                                a,
                                g,
                            );
                        }
                    }
                    current = n;
                },
                Err(e) => {
                    proof {
                        lemma_stopped(
                            &t0,
                            &s0,
                            &c0,
                            &t1,
                            &s1,
                            &c1,
                            self,
                            source,
                            cache,
                            h,
                            lv,
                            current,
                            a,
                            g,
                        );
                        lemma_map_more(&t0, &s0, &c0, self, source, cache, a + g, total);
                        lemma_step_fault(&t0, &s0, &c0, &t1, &s1, &c1, h, lv, current, a, g, e);
                    }
                    return Err(e);
                },
            }
            remaining = remaining % span;
            level = level - 1;
        }
        let ghost t1 = *self;
        let ghost c1 = *cache;
        let ghost a = ((1 + d) * g) as nat;
        proof {
            assert((1 + d - 0) * g == (1 + d) * g) by (nonlinear_arith);
            lemma_slot_mod(d, h);
            lemma_rest(c1.contents(), c, t1.root, d, h, 0);
            assert(slot_of(c, 0, rest_of(c, d, h, 0)) == rest_of(c, d, h, 0));
            lemma_ready_to_step(&t0, &s0, &c0, &t1, source, &c1, h, 0, current, a);
            cache.lemma_explains(current);
        }
        let bit: u64 = remaining % LEAF_CAPACITY;
        proof {
            vstd::arithmetic::div_mod::lemma_small_mod(remaining as nat, LEAF_CAPACITY as nat);
        }
        let typed: bool = match cache.get_mut(current) {
            Ok(buf) => {
                if buf[0] == PageType::FreeMap.code() {
                    Self::set_bit(buf, bit, free);
                    true
                } else {
                    false
                }
            },
            Err(e) => {
                proof {
                    lemma_cow_look(source, &c1, cache);
                    lemma_session_start(source, &c1, t1.session_owned@);
                    lemma_session_cow(source, &c1, t1.session_owned@, source, &c1, t1.session_owned@, source, cache, 0, 0);
                    lemma_stopped(&t0, &s0, &c0, &t1, source, &c1, self, source, cache, h, 0, current, a, 0);
                    lemma_map_more(&t0, &s0, &c0, self, source, cache, a, total);
                    assert(too_many(&c1, e, 0));
                }
                return Err(e);
            },
        };
        proof {
            assert(cache.contents().dom() =~= c1.contents().dom());
            assert(edited(&c1, cache, current));
        }
        if !typed {
            proof {
                lemma_leaf_fault(&t0, &s0, &c0, &t1, source, &c1, h, current, a);
                lemma_session_start(source, &c1, t1.session_owned@);
                lemma_session_edit(
                    source,
                    &c1,
                    t1.session_owned@,
                    source,
                    &c1,
                    t1.session_owned@,
                    cache,
                    current,
                    0,
                );
                lemma_stopped(&t0, &s0, &c0, &t1, source, &c1, self, source, cache, h, 0, current, a, 0);
                lemma_map_more(&t0, &s0, &c0, self, source, cache, a, total);
            }
            return Err(ChiselError::CorruptPage { page_id: current });
        }
        proof {
            lemma_leaf_done(&t0, &s0, &c0, &t1, source, &c1, cache, id, current, free, a);
            lemma_map_more(&t0, &s0, &c0, self, source, cache, a, total);
        }
        Ok(())
    }
}

impl FreeMapTree {
    /// Mark an id free. An id out of reach is refused; use
    /// [`FreeMapTree::mark_free_growing`] to have the tree grow.
    pub fn mark_free<A: PageSource>(&mut self, cache: &mut PageCache, id: u64, source: &mut A) -> (outcome: Result<
        (),
        ChiselError,
    >)
        requires
            old(cache).inv(),
            old(cache).bounded(),
            old(source).ready(old(cache)),
            old(self).ready(old(source), old(cache)),
            old(cache).watermark() + (MAX_DEPTH + 1) * A::growth() <= usize::MAX,
        ensures
            map_kept(
                old(self),
                old(source),
                old(cache),
                final(self),
                final(source),
                final(cache),
                ((MAX_DEPTH + 1) * A::growth()) as nat,
            ),
            final(self).depth == old(self).depth,
            outcome matches Ok(_) ==> {
                &&& old(self).depth <= MAX_DEPTH
                &&& id < reach(LEAF_CAPACITY as nat, old(self).spec_depth())
                &&& tidy(old(self), old(source), old(cache), final(self), final(source), final(cache))
                &&& bit_set(old(self), old(cache), final(self), final(cache), id, true)
                &&& superseded_ok(
                    old(cache).contents(),
                    old(self).root,
                    old(self).spec_depth(),
                    old(self).session_owned@,
                    final(cache).contents(),
                    final(self).root,
                    final(self).spec_depth(),
                    old(self).pending_superseded@,
                    final(self).pending_superseded@,
                )
            },
            outcome matches Err(e) ==> {
                &&& bits_kept(old(self), old(cache), final(self), final(cache))
                &&& old(self).pending_superseded@.is_prefix_of(final(self).pending_superseded@)
                &&& if old(self).depth > MAX_DEPTH || id >= reach(LEAF_CAPACITY as nat, old(self).spec_depth()) {
                    &&& e == (ChiselError::CorruptPage { page_id: old(self).root })
                    &&& *final(self) == *old(self)
                    &&& *final(source) == *old(source)
                    &&& *final(cache) == *old(cache)
                } else {
                    overrun(old(cache), final(cache), e, ((MAX_DEPTH + 1) * A::growth()) as nat) || path_fault(
                        old(cache),
                        old(self).root,
                        old(self).spec_depth(),
                        id as nat,
                        e,
                    )
                }
            },
    {
        self.cow_descend(cache, id, true, source)
    }

    /// Mark an id as in use.
    fn clear_bit<A: PageSource>(&mut self, cache: &mut PageCache, id: u64, source: &mut A) -> (outcome: Result<
        (),
        ChiselError,
    >)
        requires
            old(cache).inv(),
            old(cache).bounded(),
            old(source).ready(old(cache)),
            old(self).ready(old(source), old(cache)),
            old(cache).watermark() + (MAX_DEPTH + 1) * A::growth() <= usize::MAX,
        ensures
            map_kept(
                old(self),
                old(source),
                old(cache),
                final(self),
                final(source),
                final(cache),
                ((MAX_DEPTH + 1) * A::growth()) as nat,
            ),
            final(self).depth == old(self).depth,
            outcome matches Ok(_) ==> {
                &&& old(self).depth <= MAX_DEPTH
                &&& id < reach(LEAF_CAPACITY as nat, old(self).spec_depth())
                &&& tidy(old(self), old(source), old(cache), final(self), final(source), final(cache))
                &&& bit_set(old(self), old(cache), final(self), final(cache), id, false)
                &&& superseded_ok(
                    old(cache).contents(),
                    old(self).root,
                    old(self).spec_depth(),
                    old(self).session_owned@,
                    final(cache).contents(),
                    final(self).root,
                    final(self).spec_depth(),
                    old(self).pending_superseded@,
                    final(self).pending_superseded@,
                )
            },
            outcome matches Err(e) ==> {
                &&& bits_kept(old(self), old(cache), final(self), final(cache))
                &&& old(self).pending_superseded@.is_prefix_of(final(self).pending_superseded@)
                &&& if old(self).depth > MAX_DEPTH || id >= reach(LEAF_CAPACITY as nat, old(self).spec_depth()) {
                    &&& e == (ChiselError::CorruptPage { page_id: old(self).root })
                    &&& *final(self) == *old(self)
                    &&& *final(source) == *old(source)
                    &&& *final(cache) == *old(cache)
                } else {
                    overrun(old(cache), final(cache), e, ((MAX_DEPTH + 1) * A::growth()) as nat) || path_fault(
                        old(cache),
                        old(self).root,
                        old(self).spec_depth(),
                        id as nat,
                        e,
                    )
                }
            },
    {
        self.cow_descend(cache, id, false, source)
    }

    /// A tree of depth 0 in which nothing is free.
    pub fn create<A: PageSource>(cache: &mut PageCache, source: &mut A) -> (outcome: Result<FreeMapTree, ChiselError>)
        requires
            old(cache).inv(),
            old(cache).bounded(),
            old(source).ready(old(cache)),
            old(cache).watermark() + A::growth() <= usize::MAX,
        ensures
            cow_step(old(source), old(cache), final(source), final(cache), A::growth()),
            match outcome {
                Ok(tree) => {
                    &&& taken(old(source), old(cache), final(source), final(cache), tree.root)
                    &&& final(source).footprint(final(cache)) == old(source).footprint(old(cache)).remove(tree.root)
                    &&& tree.depth == 0
                    &&& tree.pending_superseded@ == Seq::<u64>::empty()
                    &&& tree.session_owned@ == Set::<u64>::empty().insert(tree.root)
                    &&& tree.ready(final(source), final(cache))
                    &&& empty_leaf(final(cache).contents()[tree.root])
                    &&& tree_typed(final(cache).contents(), tree.root, 0)
                    &&& forall|k: u64| !(#[trigger] tree.marks_free(final(cache), k))
                },
                Err(e) => overrun(old(cache), final(cache), e, A::growth()),
            },
    {
        let ghost c = LEAF_CAPACITY as nat;
        let mut tree = FreeMapTree { root: 0, depth: 0, pending_superseded: Vec::new(), session_owned: set_new() };
        match tree.fresh_node(cache, true, source) {
            Ok(n) => {
                tree.root = n;
                proof {
                    let pages = cache.contents();
                    lemma_reach_leaf();
                    assert(tree.session_owned@ =~= Set::<u64>::empty().insert(n));
                    assert forall|k: nat, l: nat| k < reach(c, 0) && l <= 0 implies #[trigger] node_at(
                        pages,
                        c,
                        n,
                        0,
                        k,
                        l,
                    ) == Some(n) && shares(c, 0, k, k, 0) by {}
                    assert(is_tree(pages, c, n, 0));
                    assert(tree_in(pages, c, n, 0, source.footprint(cache).complement()));
                    assert forall|k: u64| !(#[trigger] tree.marks_free(cache, k)) by {
                        if k < reach(c, 0) {
                            assert(node_at(pages, c, n, 0, k as nat, 0) == Some(n));
                            assert(slot_of(c, 0, k as nat) == k);
                            assert(!marked_free(pages[n], (k as nat) as u64));
                        }
                    }
                }
                Ok(tree)
            },
            Err(e) => Err(e),
        }
    }

    /// Put a new root above the old one, which becomes child 0. A tree of the
    /// greatest depth stays as it is.
    pub fn grow<A: PageSource>(&mut self, cache: &mut PageCache, source: &mut A) -> (outcome: Result<(), ChiselError>)
        requires
            old(cache).inv(),
            old(cache).bounded(),
            old(source).ready(old(cache)),
            old(self).ready(old(source), old(cache)),
            old(cache).watermark() + A::growth() <= usize::MAX,
        ensures
            map_kept(old(self), old(source), old(cache), final(self), final(source), final(cache), A::growth()),
            cow_step(old(source), old(cache), final(source), final(cache), A::growth()),
            bits_kept(old(self), old(cache), final(self), final(cache)),
            final(self).pending_superseded@ == old(self).pending_superseded@,
            match outcome {
                Ok(_) => if old(self).depth >= MAX_DEPTH {
                    *final(self) == *old(self) && *final(cache) == *old(cache) && *final(source) == *old(source)
                } else {
                    &&& final(source).footprint(final(cache)) == old(source).footprint(old(cache)).remove(
                        final(self).root,
                    )
                    &&& final(self).depth == old(self).depth + 1
                    &&& final(self).session_owned@ == old(self).session_owned@.insert(final(self).root)
                    &&& taken(old(source), old(cache), final(source), final(cache), final(self).root)
                    &&& node_ok(final(cache).contents()[final(self).root], 1)
                    &&& child_of(final(cache).contents()[final(self).root], 0) == old(self).root
                    &&& forall|i: nat|
                        0 < i < FANOUT ==> #[trigger] child_of(final(cache).contents()[final(self).root], i) == 0
                },
                Err(e) => {
                    &&& old(self).depth < MAX_DEPTH
                    &&& final(self).depth == old(self).depth
                    &&& final(self).root == old(self).root
                    &&& final(self).session_owned@ == old(self).session_owned@
                    &&& overrun(old(cache), final(cache), e, A::growth())
                },
            },
    {
        let ghost c = LEAF_CAPACITY as nat;
        let ghost g = A::growth();
        let ghost t0 = *self;
        let ghost s0 = *source;
        let ghost c0 = *cache;
        proof {
            lemma_same_map(self, source, cache);
            lemma_cow_look(source, &c0, cache);
        }
        if self.depth >= MAX_DEPTH {
            return Ok(());
        }
        let new_root: u64 = match source.next_page(cache) {
            Ok(n) => n,
            Err(e) => {
                proof {
                    assert(cow_step(&s0, &c0, source, cache, g));
                    lemma_failed_early(&t0, &s0, &c0, self, source, cache, g);
                }
                return Err(e);
            },
        };
        let ghost mid = *cache;
        let old_root: u64 = self.root;
        proof {
            assert(cow_step(&s0, &c0, source, &mid, g));
            assert(taken(&s0, &c0, source, &mid, new_root));
            cache.lemma_explains(new_root);
        }
        match cache.get_mut(new_root) {
            Ok(buf) => {
                init_interior(buf);
                write_child(buf, 0, old_root);
                let ghost s = buf@;
                stamp_checksum(buf);
                proof {
                    lemma_stamped(s, buf@);
                }
            },
            Err(e) => {
                proof {
                    lemma_cow_look(source, &mid, cache);
                    lemma_cow_chain(&s0, &c0, source, &mid, source, cache, g, 0);
                    lemma_failed_early(&t0, &s0, &c0, self, source, cache, g);
                }
                return Err(e);
            },
        }
        proof {
            lemma_cow_edit_taken(&s0, &c0, source, &mid, cache, new_root, g);
        }
        set_insert(&mut self.session_owned, new_root);
        self.root = new_root;
        self.depth = self.depth + 1;
        proof {
            lemma_grown_map(&t0, &s0, &c0, self, source, cache, g);
        }
        Ok(())
    }

    /// Mark an id free. The tree grows until it reaches the id.
    pub fn mark_free_growing<A: PageSource>(&mut self, cache: &mut PageCache, id: u64, source: &mut A) -> (outcome:
        Result<(), ChiselError>)
        requires
            old(cache).inv(),
            old(cache).bounded(),
            old(source).ready(old(cache)),
            old(self).ready(old(source), old(cache)),
            old(cache).watermark() + (2 * MAX_DEPTH + 1) * A::growth() <= usize::MAX,
        ensures
            map_kept(
                old(self),
                old(source),
                old(cache),
                final(self),
                final(source),
                final(cache),
                ((2 * MAX_DEPTH + 1) * A::growth()) as nat,
            ),
            outcome matches Ok(_) ==> {
                &&& old(self).depth <= MAX_DEPTH
                &&& tidy(old(self), old(source), old(cache), final(self), final(source), final(cache))
                &&& bit_set(old(self), old(cache), final(self), final(cache), id, true)
                &&& superseded_ok(
                    old(cache).contents(),
                    old(self).root,
                    old(self).spec_depth(),
                    old(self).session_owned@,
                    final(cache).contents(),
                    final(self).root,
                    final(self).spec_depth(),
                    old(self).pending_superseded@,
                    final(self).pending_superseded@,
                )
            },
            outcome matches Err(e) ==> {
                &&& bits_kept(old(self), old(cache), final(self), final(cache))
                &&& old(self).pending_superseded@.is_prefix_of(final(self).pending_superseded@)
                &&& if old(self).depth > MAX_DEPTH {
                    &&& e == (ChiselError::CorruptPage { page_id: old(self).root })
                    &&& *final(self) == *old(self)
                    &&& *final(cache) == *old(cache)
                } else {
                    overrun(old(cache), final(cache), e, ((2 * MAX_DEPTH + 1) * A::growth()) as nat) || tree_fault(
                        old(cache),
                        old(self).root,
                        old(self).spec_depth(),
                        e,
                    )
                }
            },
    {
        let ghost c = LEAF_CAPACITY as nat;
        let ghost g = A::growth();
        let ghost t0 = *self;
        let ghost s0 = *source;
        let ghost c0 = *cache;
        let ghost total = ((2 * MAX_DEPTH + 1) * g) as nat;
        let ghost d0 = self.spec_depth();
        proof {
            lemma_same_map(self, source, cache);
        }
        match self.check_depth() {
            Ok(_) => {},
            Err(e) => {
                return Err(e);
            },
        }
        proof {
            assert(map_kept(&t0, &s0, &c0, self, source, cache, 0));
            assert((d0 - d0) * g == 0) by (nonlinear_arith);
            lemma_grown_only_start(&t0, &s0, &c0);
        }
        while self.capacity() <= id && self.depth < MAX_DEPTH
            invariant
                c == LEAF_CAPACITY as nat,
                g == A::growth(),
                t0 == *old(self),
                s0 == *old(source),
                c0 == *old(cache),
                d0 == t0.spec_depth(),
                d0 <= self.spec_depth() <= MAX_DEPTH,
                total == ((2 * MAX_DEPTH + 1) * g) as nat,
                c0.watermark() + (2 * MAX_DEPTH + 1) * g <= usize::MAX,
                t0.ready(&s0, &c0),
                map_kept(&t0, &s0, &c0, self, source, cache, ((self.spec_depth() - d0) * g) as nat),
                bits_kept(&t0, &c0, self, cache),
                self.pending_superseded@ == t0.pending_superseded@,
                grown_only(&t0, &c0, self, cache),
                tidy(&t0, &s0, &c0, self, source, cache),
            decreases MAX_DEPTH - self.depth,
        {
            let ghost t1 = *self;
            let ghost s1 = *source;
            let ghost c1 = *cache;
            let ghost a = ((self.spec_depth() - d0) * g) as nat;
            let ghost d1 = self.spec_depth();
            proof {
                assert(a + g == (d1 + 1 - d0) * g && a + g <= total) by (nonlinear_arith)
                    requires
                        a == (d1 - d0) * g,
                        total == (2 * MAX_DEPTH + 1) * g,
                        d1 + 1 - d0 <= 2 * MAX_DEPTH + 1,
                        g >= 0,
                ;
            }
            let grown = self.grow(cache, source);
            proof {
                lemma_map_chain(&t0, &s0, &c0, &t1, &s1, &c1, self, source, cache, a, g);
            }
            match grown {
                Ok(_) => {
                    proof {
                        lemma_grown_only(&t0, &s0, &c0, &t1, &s1, &c1, self, source, cache, g);
                        lemma_grown_only_start(&t1, &s1, &c1);
                        lemma_grown_only(&t1, &s1, &c1, &t1, &s1, &c1, self, source, cache, g);
                        lemma_reach_pos(c, self.spec_depth());
                        assert(node_at(cache.contents(), c, self.root, self.spec_depth(), 0, self.spec_depth()) == Some(
                            self.root,
                        ));
                        assert(tidy(&t1, &s1, &c1, self, source, cache));
                        lemma_tidy_chain(&t0, &s0, &c0, &t1, &s1, &c1, self, source, cache);
                    }
                },
                Err(e) => {
                    proof {
                        lemma_map_more(&t0, &s0, &c0, self, source, cache, a + g, total);
                        assert(too_many(&c1, e, g));
                    }
                    return Err(e);
                },
            }
        }
        let ghost t1 = *self;
        let ghost s1 = *source;
        let ghost c1 = *cache;
        let ghost d1 = self.spec_depth();
        let ghost a = ((d1 - d0) * g) as nat;
        let ghost b = ((MAX_DEPTH + 1) * g) as nat;
        proof {
            lemma_bound_leaf(d1);
            assert(a + b <= total) by (nonlinear_arith)
                requires
                    a == (d1 - d0) * g,
                    b == (MAX_DEPTH + 1) * g,
                    total == (2 * MAX_DEPTH + 1) * g,
                    d1 - d0 <= MAX_DEPTH,
                    g >= 0,
            ;
        }
        let marked = self.mark_free(cache, id, source);
        proof {
            lemma_map_chain(&t0, &s0, &c0, &t1, &s1, &c1, self, source, cache, a, b);
            lemma_map_more(&t0, &s0, &c0, self, source, cache, a + b, total);
        }
        match marked {
            Ok(_) => {
                proof {
                    assert forall|k: u64| #[trigger] self.marks_free(cache, k) == (if k == id {
                        true
                    } else {
                        t0.marks_free(&c0, k)
                    }) by {
                        assert(t1.marks_free(&c1, k) == t0.marks_free(&c0, k));
                    }
                    lemma_superseded_grown(&t0, &c0, &t1, &c1, self, cache);
                    assert forall|x: u64| #[trigger] t1.session_owned@.contains(x) && nodes_of(
                        c1.contents(),
                        c,
                        t1.root,
                        t1.spec_depth(),
                    ).contains(x) implies nodes_of(cache.contents(), c, self.root, self.spec_depth()).contains(x) by {
                        let more = self.pending_superseded@.skip(t1.pending_superseded@.len() as int);
                        if more.contains(x) {
                            let j = more.index_of(x);
                            assert(self.pending_superseded@[t1.pending_superseded@.len() + j] == x);
                        }
                    }
                    lemma_tidy_chain(&t0, &s0, &c0, &t1, &s1, &c1, self, source, cache);
                }
                Ok(())
            },
            Err(e) => {
                proof {
                    assert forall|k: u64| #[trigger] self.marks_free(cache, k) == t0.marks_free(&c0, k) by {
                        assert(t1.marks_free(&c1, k) == t0.marks_free(&c0, k));
                    }
                    if !too_many(&c1, e, b) {
                        lemma_grown_fault(&t0, &s0, &c0, &t1, &s1, &c1, id as nat, a, e);
                    }
                }
                Err(e)
            },
        }
    }

    /// Take the lowest free id from `hint` on out of the map, and move `hint`
    /// there. `None` if there is no such id.
    pub fn allocate_first<A: PageSource>(&mut self, cache: &mut PageCache, hint: &mut u64, source: &mut A) -> (outcome:
        Result<Option<u64>, ChiselError>)
        requires
            old(cache).inv(),
            old(cache).bounded(),
            old(source).ready(old(cache)),
            old(self).ready(old(source), old(cache)),
            old(cache).watermark() + (MAX_DEPTH + 1) * A::growth() <= usize::MAX,
        ensures
            map_kept(
                old(self),
                old(source),
                old(cache),
                final(self),
                final(source),
                final(cache),
                ((MAX_DEPTH + 1) * A::growth()) as nat,
            ),
            final(self).depth == old(self).depth,
            outcome matches Ok(Some(id)) ==> {
                &&& *old(hint) <= id
                &&& old(self).marks_free(old(cache), id)
                &&& forall|k: u64| *old(hint) <= k < id ==> !(#[trigger] old(self).marks_free(old(cache), k))
                &&& tidy(old(self), old(source), old(cache), final(self), final(source), final(cache))
                &&& bit_set(old(self), old(cache), final(self), final(cache), id, false)
                &&& *final(hint) == id
                &&& superseded_ok(
                    old(cache).contents(),
                    old(self).root,
                    old(self).spec_depth(),
                    old(self).session_owned@,
                    final(cache).contents(),
                    final(self).root,
                    final(self).spec_depth(),
                    old(self).pending_superseded@,
                    final(self).pending_superseded@,
                )
            },
            outcome matches Ok(None) ==> {
                &&& forall|k: u64| *old(hint) <= k ==> !(#[trigger] old(self).marks_free(old(cache), k))
                &&& *final(self) == *old(self)
                &&& final(cache).same_pages(old(cache))
                &&& *final(hint) == *old(hint)
            },
            outcome matches Err(e) ==> {
                &&& bits_kept(old(self), old(cache), final(self), final(cache))
                &&& old(self).pending_superseded@.is_prefix_of(final(self).pending_superseded@)
                &&& *final(hint) == *old(hint)
                &&& if old(self).depth > MAX_DEPTH {
                    e == (ChiselError::CorruptPage { page_id: old(self).root })
                } else {
                    overrun(old(cache), final(cache), e, ((MAX_DEPTH + 1) * A::growth()) as nat) || tree_fault(
                        old(cache),
                        old(self).root,
                        old(self).spec_depth(),
                        e,
                    )
                }
            },
    {
        let ghost t0 = *self;
        let ghost s0 = *source;
        let ghost c0 = *cache;
        let ghost b = ((MAX_DEPTH + 1) * A::growth()) as nat;
        let scanned = self.scan_from(cache, *hint);
        let ghost c1 = *cache;
        proof {
            lemma_cow_look(source, &c0, cache);
            lemma_failed_early(&t0, &s0, &c0, self, source, cache, 0);
            lemma_map_more(&t0, &s0, &c0, self, source, cache, 0, b);
        }
        let found: u64 = match scanned {
            Ok(Some(found)) => found,
            Ok(None) => {
                return Ok(None);
            },
            Err(e) => {
                return Err(e);
            },
        };
        let cleared = self.clear_bit(cache, found, source);
        proof {
            lemma_map_chain(&t0, &s0, &c0, &t0, &s0, &c1, self, source, cache, 0, b);
        }
        match cleared {
            Ok(_) => {
                *hint = found;
                proof {
                    assert forall|k: u64| #[trigger] self.marks_free(cache, k) == (if k == found {
                        false
                    } else {
                        t0.marks_free(&c0, k)
                    }) by {
                        assert(t0.marks_free(&c1, k) == t0.marks_free(&c0, k));
                    }
                }
                Ok(Some(found))
            },
            Err(e) => {
                proof {
                    assert forall|k: u64| #[trigger] self.marks_free(cache, k) == t0.marks_free(&c0, k) by {
                        assert(t0.marks_free(&c1, k) == t0.marks_free(&c0, k));
                    }
                    if !too_many(&c1, e, b) {
                        lemma_path_fault_tree(&c1, t0.root, t0.spec_depth(), found as nat, e);
                        lemma_same_fault(&c0, &c1, t0.root, t0.spec_depth(), e);
                    }
                }
                Err(e)
            },
        }
    }
}

/// A fault on a path is one in the tree.
proof fn lemma_path_fault_tree(cache: &PageCache, root: u64, depth: nat, h: nat, e: ChiselError)
    requires
        h < reach(LEAF_CAPACITY as nat, depth),
        path_fault(cache, root, depth, h, e),
    ensures
        tree_fault(cache, root, depth, e),
{
}

/// What a new root above the tree keeps.
proof fn lemma_grown_map<A: PageSource>(
    t0: &FreeMapTree,
    s0: &A,
    c0: &PageCache,
    t1: &FreeMapTree,
    s1: &A,
    c1: &PageCache,
    g: nat,
)
    requires
        c0.inv(),
        c0.bounded(),
        s0.ready(c0),
        t0.ready(s0, c0),
        t0.depth < MAX_DEPTH,
        cow_step(s0, c0, s1, c1, g),
        taken(s0, c0, s1, c1, t1.root),
        t1.depth == t0.depth + 1,
        t1.session_owned@ == t0.session_owned@.insert(t1.root),
        node_ok(c1.contents()[t1.root], 1),
        child_of(c1.contents()[t1.root], 0) == t0.root,
        forall|i: nat| 0 < i < FANOUT ==> #[trigger] child_of(c1.contents()[t1.root], i) == 0,
    ensures
        map_kept(t0, s0, c0, t1, s1, c1, g),
        bits_kept(t0, c0, t1, c1),
{
    let c = LEAF_CAPACITY as nat;
    let d = t0.spec_depth();
    let root = t0.root;
    let n = t1.root;
    let p0 = c0.contents();
    let p1 = c1.contents();
    let own = t0.session_owned@;
    let good = s0.footprint(c0).complement();
    lemma_session_start(s0, c0, own);
    lemma_session_cow(s0, c0, own, s0, c0, own, s1, c1, 0, g);
    lemma_good_kept(s0, c0, s1, c1, g);
    lemma_grown(p0, p1, c, root, n, d, good);
    lemma_tree_mono(p1, c, n, d + 1, good.insert(n), s1.footprint(c1).complement());
    if tree_typed(p0, root, d) {
        assert forall|k: nat, l: nat| k < reach(c, d + 1) && l <= d + 1 implies ((#[trigger] node_at(
            p1,
            c,
            n,
            d + 1,
            k,
            l,
        )) matches Some(p) ==> node_ok(page_at(p1, p), l)) by {
            if l <= d && k < reach(c, d) {
                assert(node_at(p1, c, n, d + 1, k, l) == node_at(p0, c, root, d, k, l));
                if node_at(p0, c, root, d, k, l) is Some {
                    assert(good.contains(node_at(p0, c, root, d, k, l)->0));
                }
            }
        }
    }
    assert forall|pages: Set<u64>|
        pages.disjoint(s0.footprint(c0)) && #[trigger] tree_in(p0, c, root, d, pages) implies tree_in(
        p1,
        c,
        n,
        d + 1,
        pages.union(t1.session_owned@.difference(own)),
    ) by {
        assert forall|id: u64| #[trigger] pages.contains(id) implies page_at(p0, id) == page_at(p1, id) by {
            assert(good.contains(id));
        }
        lemma_grown(p0, p1, c, root, n, d, pages);
        lemma_tree_mono(p1, c, n, d + 1, pages.insert(n), pages.union(t1.session_owned@.difference(own)));
    }
    assert forall|k: u64| #[trigger] t1.marks_free(c1, k) == t0.marks_free(c0, k) by {
        if k < reach(c, d + 1) {
            assert(node_at(p1, c, n, d + 1, k as nat, 0) == (if k < reach(c, d) {
                node_at(p0, c, root, d, k as nat, 0)
            } else {
                None
            }));
            if k < reach(c, d) {
                assert(slot_of(c, d + 1, k as nat) == slot_of(c, d, k as nat));
                if node_at(p0, c, root, d, k as nat, 0) is Some {
                    assert(good.contains(node_at(p0, c, root, d, k as nat, 0)->0));
                }
            }
        }
    }
}

/// Two changes make one.
proof fn lemma_map_chain<A: PageSource>(
    t0: &FreeMapTree,
    s0: &A,
    c0: &PageCache,
    t1: &FreeMapTree,
    s1: &A,
    c1: &PageCache,
    t2: &FreeMapTree,
    s2: &A,
    c2: &PageCache,
    a: nat,
    b: nat,
)
    requires
        map_kept(t0, s0, c0, t1, s1, c1, a),
        map_kept(t1, s1, c1, t2, s2, c2, b),
        t0.ready(s0, c0),
    ensures
        map_kept(t0, s0, c0, t2, s2, c2, a + b),
        forall|e: ChiselError| #[trigger] too_many(c1, e, b) ==> too_many(c0, e, a + b),
{
    let c = LEAF_CAPACITY as nat;
    lemma_session_chain(
        s0,
        c0,
        t0.session_owned@,
        s1,
        c1,
        t1.session_owned@,
        s2,
        c2,
        t2.session_owned@,
        a,
        b,
    );
    assert forall|pages: Set<u64>|
        pages.disjoint(s0.footprint(c0)) && #[trigger] tree_in(
            c0.contents(),
            c,
            t0.root,
            t0.spec_depth(),
            pages,
        ) implies tree_in(
        c2.contents(),
        c,
        t2.root,
        t2.spec_depth(),
        pages.union(t2.session_owned@.difference(t0.session_owned@)),
    ) by {
        let some = pages.union(t1.session_owned@.difference(t0.session_owned@));
        let more = some.union(t2.session_owned@.difference(t1.session_owned@));
        let all = pages.union(t2.session_owned@.difference(t0.session_owned@));
        assert forall|id: u64| #[trigger] some.contains(id) implies !s1.footprint(c1).contains(id) by {
            if t1.session_owned@.contains(id) {
                assert(!s1.footprint(c1).contains(id));
            }
        }
        assert(some.disjoint(s1.footprint(c1)));
        assert(tree_in(c1.contents(), c, t1.root, t1.spec_depth(), some));
        assert(more.subset_of(all));
        lemma_tree_mono(c2.contents(), c, t2.root, t2.spec_depth(), more, all);
    }
}

/// The grown tree has the pages of the old one and new roots of the session, and
/// the old pages are unchanged.
spec fn grown_only(t0: &FreeMapTree, c0: &PageCache, t1: &FreeMapTree, c1: &PageCache) -> bool {
    let c = LEAF_CAPACITY as nat;
    &&& forall|k: nat, l: nat|
        k < reach(c, t1.spec_depth()) && l <= t1.spec_depth() ==> ((#[trigger] node_at(
            c1.contents(),
            c,
            t1.root,
            t1.spec_depth(),
            k,
            l,
        )) matches Some(x) ==> t1.session_owned@.contains(x) && !t0.session_owned@.contains(x) && c1.unsaved().contains(
            x,
        ) && c1.contents().contains_key(x) && page_at(c1.contents(), x)[0] == node_code(l) || k < reach(
            c,
            t0.spec_depth(),
        ) && l <= t0.spec_depth() && node_at(c0.contents(), c, t0.root, t0.spec_depth(), k, l) == Some(x)
            && page_at(c1.contents(), x) == page_at(c0.contents(), x) && c1.sound(x) == c0.sound(x) && c1.read_error(x)
            == c0.read_error(x))
    &&& nodes_of(c0.contents(), c, t0.root, t0.spec_depth()).subset_of(
        nodes_of(c1.contents(), c, t1.root, t1.spec_depth()),
    )
}

proof fn lemma_grown_only_start<A: PageSource>(t0: &FreeMapTree, s0: &A, c0: &PageCache)
    ensures
        grown_only(t0, c0, t0, c0),
{
}

/// One more root.
proof fn lemma_grown_only<A: PageSource>(
    t0: &FreeMapTree,
    s0: &A,
    c0: &PageCache,
    t1: &FreeMapTree,
    s1: &A,
    c1: &PageCache,
    t2: &FreeMapTree,
    s2: &A,
    c2: &PageCache,
    g: nat,
)
    requires
        grown_only(t0, c0, t1, c1),
        t1.ready(s1, c1),
        t0.session_owned@.subset_of(t1.session_owned@),
        t0.depth <= t1.depth,
        cow_step(s1, c1, s2, c2, g),
        taken(s1, c1, s2, c2, t2.root),
        t2.depth == t1.depth + 1,
        t2.session_owned@ == t1.session_owned@.insert(t2.root),
        c2.contents()[t2.root][0] == node_code(1),
        child_of(c2.contents()[t2.root], 0) == t1.root,
        forall|i: nat| 0 < i < FANOUT ==> #[trigger] child_of(c2.contents()[t2.root], i) == 0,
    ensures
        grown_only(t0, c0, t2, c2),
{
    let c = LEAF_CAPACITY as nat;
    let d = t1.spec_depth();
    let n = t2.root;
    let p1 = c1.contents();
    let p2 = c2.contents();
    let good = s1.footprint(c1).complement();
    lemma_good_kept(s1, c1, s2, c2, g);
    lemma_grown(p1, p2, c, t1.root, n, d, good);
    assert(!t0.session_owned@.contains(n)) by {
        if t1.session_owned@.contains(n) {
            assert(!s1.footprint(c1).contains(n));
        }
    }
    assert forall|k: nat, l: nat| k < reach(c, d + 1) && l <= d + 1 implies ((#[trigger] node_at(
        p2,
        c,
        n,
        d + 1,
        k,
        l,
    )) matches Some(x) ==> t2.session_owned@.contains(x) && !t0.session_owned@.contains(x) && c2.unsaved().contains(x)
        && c2.contents().contains_key(x) && page_at(p2, x)[0] == node_code(l) || k < reach(c, t0.spec_depth()) && l
        <= t0.spec_depth() && node_at(c0.contents(), c, t0.root, t0.spec_depth(), k, l) == Some(x) && page_at(p2, x)
        == page_at(c0.contents(), x) && c2.sound(x) == c0.sound(x) && c2.read_error(x) == c0.read_error(x)) by {
        if l <= d && node_at(p2, c, n, d + 1, k, l) is Some {
            assert(k < reach(c, d));
            let x = node_at(p1, c, t1.root, d, k, l)->0;
            assert(node_at(p2, c, n, d + 1, k, l) == node_at(p1, c, t1.root, d, k, l));
            assert(good.contains(x));
            lemma_agree_at(c1, c2, good, x);
            assert(page_at(p2, x) == page_at(p1, x));
        }
    }
    let old = nodes_of(c0.contents(), c, t0.root, t0.spec_depth());
    assert forall|x: u64| #[trigger] old.contains(x) implies nodes_of(p2, c, n, d + 1).contains(x) by {
        assert(nodes_of(p1, c, t1.root, d).contains(x));
        let (k, l) = choose|k: nat, l: nat|
            k < reach(c, d) && l <= d && #[trigger] node_at(p1, c, t1.root, d, k, l) == Some(x);
        lemma_reach_pos(c, d);
        assert(k < reach(c, d + 1)) by (nonlinear_arith)
            requires
                k < reach(c, d),
                reach(c, d + 1) == FANOUT * reach(c, d),
                FANOUT >= 1,
        ;
        assert(node_at(p2, c, n, d + 1, k, l) == Some(x));
    }
}

/// What a change to the grown tree supersedes are pages of the old tree.
proof fn lemma_superseded_grown(
    t0: &FreeMapTree,
    c0: &PageCache,
    t1: &FreeMapTree,
    c1: &PageCache,
    t2: &FreeMapTree,
    c2: &PageCache,
)
    requires
        grown_only(t0, c0, t1, c1),
        t0.session_owned@.subset_of(t1.session_owned@),
        t1.pending_superseded@ == t0.pending_superseded@,
        superseded_ok(
            c1.contents(),
            t1.root,
            t1.spec_depth(),
            t1.session_owned@,
            c2.contents(),
            t2.root,
            t2.spec_depth(),
            t1.pending_superseded@,
            t2.pending_superseded@,
        ),
    ensures
        superseded_ok(
            c0.contents(),
            t0.root,
            t0.spec_depth(),
            t0.session_owned@,
            c2.contents(),
            t2.root,
            t2.spec_depth(),
            t0.pending_superseded@,
            t2.pending_superseded@,
        ),
{
    let c = LEAF_CAPACITY as nat;
    let pend0 = t0.pending_superseded@;
    let pend2 = t2.pending_superseded@;
    assert forall|i: int| pend0.len() <= i < pend2.len() implies {
        &&& nodes_of(c0.contents(), c, t0.root, t0.spec_depth()).contains(#[trigger] pend2[i])
        &&& !t0.session_owned@.contains(pend2[i])
    } by {
        let x = pend2[i];
        assert(nodes_of(c1.contents(), c, t1.root, t1.spec_depth()).contains(x));
        let (k, l) = choose|k: nat, l: nat|
            k < reach(c, t1.spec_depth()) && l <= t1.spec_depth() && #[trigger] node_at(
                c1.contents(),
                c,
                t1.root,
                t1.spec_depth(),
                k,
                l,
            ) == Some(x);
        assert(!t1.session_owned@.contains(x));
        assert(node_at(c0.contents(), c, t0.root, t0.spec_depth(), k, l) == Some(x));
    }
}

/// A fault in the grown tree is one in the old tree.
proof fn lemma_grown_fault<A: PageSource>(
    t0: &FreeMapTree,
    s0: &A,
    c0: &PageCache,
    t1: &FreeMapTree,
    s1: &A,
    c1: &PageCache,
    h: nat,
    a: nat,
    e: ChiselError,
)
    requires
        grown_only(t0, c0, t1, c1),
        h < reach(LEAF_CAPACITY as nat, t1.spec_depth()),
        path_fault(c1, t1.root, t1.spec_depth(), h, e),
    ensures
        tree_fault(c0, t0.root, t0.spec_depth(), e),
{
    let c = LEAF_CAPACITY as nat;
    let l = choose|l: nat|
        l <= t1.spec_depth() && ((#[trigger] node_at(c1.contents(), c, t1.root, t1.spec_depth(), h, l)) matches Some(p)
            && page_fault(c1, p, l, e));
    let p = node_at(c1.contents(), c, t1.root, t1.spec_depth(), h, l)->0;
    assert(node_at(c0.contents(), c, t0.root, t0.spec_depth(), h, l) == Some(p));
    assert(page_fault(c0, p, l, e));
}

} // verus!
