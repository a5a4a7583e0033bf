//! A copy-on-write radix tree from 64-bit keys to 64-bit values.
//!
//! Leaves hold [`SLOTS_PER_PAGE`] values, interior pages as many child page
//! ids; zero means absent in both. Every mutation copies the pages on the path
//! of its key to fresh pages and returns the new root; the old tree stays
//! intact. Growing puts a new root above the old one, which becomes child 0.

use vstd::prelude::*;

use crate::forest::nodes_of;
use crate::error::ChiselError;
use crate::listing::{
    child_base, lemma_child_explains, lemma_child_value, lemma_lists_child, lemma_lists_empty, lemma_lists_facts,
    lemma_lists_gap, lemma_lists_push, lemma_lists_rebase, lemma_lists_skip, lemma_same_tree_explains,
    lemma_top_explains, lists, lists_all, lists_first, read_children, tree_explains, Reading,
};
use crate::page::{checksum_ok, stamp_checksum, zeroed, PageType, PAGE_FORMAT_VERSION_CURRENT, PAGE_ID_NONE, PAGE_SIZE};
use crate::page_cache::PageCache;
use crate::page_source::{
    cow_page, cow_step, extended, lemma_agree_at, lemma_cow_chain, lemma_cow_edit_taken, lemma_cow_look,
    lemma_extended_by_one, lemma_taken_id, overrun, taken, too_many, PageSource,
};
use crate::radix::{
    child_of, is_tree, lemma_ascend, lemma_child_outside, lemma_descend, lemma_reach_pos, lemma_replaced_leaf,
    lemma_subtree_in, lemma_tree_same, node_at, page_at, reach, read_child, same_on, saturated, saturating_reach,
    slot_of, tree_in, write_child, FANOUT,
};
use crate::spine::{
    absent, accounted, freed_ok, grown_tree, head_of, lemma_absent, lemma_absent_same, lemma_child_tree,
    lemma_freed_step, lemma_good_kept, lemma_grown_none, lemma_grown_step, lemma_headed_grown, lemma_headed_kept,
    lemma_headed_step, lemma_not_in_news, lemma_off_path_stays, lemma_parent_copied, lemma_path_ids,
    lemma_path_replaced, lemma_prefix_trans, lemma_spine_facts, lemma_spine_len, lemma_spine_nodes, lemma_spine_step,
    lemma_spine_tree, lemma_unsound_up, lemma_value_grown, lemma_value_written, link_child, on_new_path, path_explains,
    path_freed, path_has, path_headed, path_ids, path_unsound, spine_written, tree_headed, tree_kept, tree_value,
};

verus! {

/// Values per leaf, and pointers per interior page.
pub const SLOTS_PER_PAGE: usize = 1021;

/// Deepest tree that 64-bit keys can need.
pub const MAX_DEPTH: u32 = 6;

/// How a leaf is read.
pub open spec fn slot_reader() -> spec_fn(Seq<u8>, nat) -> u64 {
    |s: Seq<u8>, i: nat| child_of(s, i)
}

/// How the tree is read when it is enumerated: values other than zero are
/// present.
pub open spec fn radix_reading() -> Reading<u64> {
    Reading { read: slot_reader(), none: 0u64, live: |value: u64| value != 0 }
}

/// The value of key `k` below a node; zero if absent.
pub open spec fn node_value(pages: Map<u64, Seq<u8>>, page: u64, level: nat, k: nat) -> u64 {
    match node_at(pages, SLOTS_PER_PAGE as nat, page, level, k, 0) {
        Some(leaf) => child_of(page_at(pages, leaf), slot_of(SLOTS_PER_PAGE as nat, level, k)),
        None => 0,
    }
}

/// What the tree with this root and depth says about a key; zero if absent.
pub open spec fn radix_lookup(pages: Map<u64, Seq<u8>>, root: u64, depth: nat, key: u64) -> u64 {
    if root == PAGE_ID_NONE || key >= reach(SLOTS_PER_PAGE as nat, depth) {
        0
    } else {
        node_value(pages, root, depth, key as nat)
    }
}

/// How far a tree of each depth reaches: within 64 bits up to depth 5, and
/// beyond at depth 6.
pub proof fn lemma_reach_1021()
    ensures
        reach(1021, 0) == 1021,
        reach(1021, 1) == 1042441,
        reach(1021, 2) == 1064332261,
        reach(1021, 3) == 1086683238481,
        reach(1021, 4) == 1109503586489101,
        reach(1021, 5) == 1132803161805372121,
        reach(1021, 6) > u64::MAX,
{
    reveal_with_fuel(reach, 7);
}

/// A node further down reaches less far.
pub proof fn lemma_bound_1021(level: nat)
    requires
        level <= 6,
    ensures
        level < 6 ==> reach(1021, level) < u64::MAX,
        level == 6 ==> reach(1021, level) > u64::MAX,
        reach(1021, level) >= 1021,
{
    lemma_reach_1021();
    if level == 0 {
    } else if level == 1 {
    } else if level == 2 {
    } else if level == 3 {
    } else if level == 4 {
    } else if level == 5 {
    } else {
        assert(level == 6);
    }
}

/// A deeper tree reaches further.
pub proof fn lemma_mono_1021(a: nat, b: nat)
    requires
        a <= b,
    ensures
        reach(SLOTS_PER_PAGE as nat, a) <= reach(SLOTS_PER_PAGE as nat, b),
    decreases b,
{
    if a < b {
        lemma_mono_1021(a, (b - 1) as nat);
    }
}

/// How the pages of the tree begin: page type and version.
pub open spec fn radix_head() -> spec_fn(nat) -> (u8, u8) {
    |level: nat|
        (
            if level == 0 {
                PageType::MembershipLeaf.spec_code()
            } else {
                PageType::MembershipInterior.spec_code()
            },
            PAGE_FORMAT_VERSION_CURRENT,
        )
}

/// An initialized node: nothing but zero slots.
spec fn blank(s: Seq<u8>) -> bool {
    &&& checksum_ok(s)
    &&& forall|i: nat| i < FANOUT ==> #[trigger] child_of(s, i) == 0
}

/// A new path for `h` below `n`, whose leaf says `value` for `h`.
pub open spec fn value_written<A: PageSource>(
    source0: &A,
    cache0: &PageCache,
    source1: &A,
    cache1: &PageCache,
    page: u64,
    n: u64,
    level: nat,
    h: nat,
    value: u64,
    news: Seq<u64>,
) -> bool {
    let c = SLOTS_PER_PAGE as nat;
    &&& spine_written(source0, cache0, source1, cache1, c, page, n, level, h, news)
    &&& slots_updated(
        cache0.contents(),
        node_at(cache0.contents(), c, page, level, h, 0),
        page_at(cache1.contents(), news[0]),
        slot_of(c, level, h),
        value,
    )
    &&& path_headed(cache0.contents(), cache1.contents(), c, page, level, h, news, radix_head())
}

/// The leaf on the path of the key now says `value` in slot `slot`, and what
/// the old leaf said, if there was one, in all others.
pub open spec fn slots_updated(
    before: Map<u64, Seq<u8>>,
    old_leaf: Option<u64>,
    new_leaf: Seq<u8>,
    slot: nat,
    value: u64,
) -> bool {
    forall|s: nat|
        s < SLOTS_PER_PAGE ==> #[trigger] child_of(new_leaf, s) == (if s == slot {
            value
        } else {
            match old_leaf {
                Some(leaf) => child_of(page_at(before, leaf), s),
                None => 0,
            }
        })
}

/// There is a new path for `h` below `n`, whose leaf says `value` for `h`.
pub open spec fn value_changed<A: PageSource>(
    source0: &A,
    cache0: &PageCache,
    source1: &A,
    cache1: &PageCache,
    page: u64,
    n: u64,
    level: nat,
    h: nat,
    value: u64,
) -> bool {
    exists|news: Seq<u64>| #[trigger]
        value_written(source0, cache0, source1, cache1, page, n, level, h, value, news)
}

/// A radix tree. It knows only its depth: the pages live in the cache, and the
/// root page id with the caller.
pub struct RadixU64 {
    /// The depth of the tree; 0 if the root is a leaf.
    pub depth: u32,
}

impl RadixU64 {
    /// The depth of the tree; 0 if the root is a leaf.
    pub open spec fn spec_depth(&self) -> nat {
        self.depth as nat
    }

    /// A tree of depth 0.
    pub fn new() -> (tree: RadixU64)
        ensures
            tree.depth == 0,
    {
        RadixU64 { depth: 0 }
    }

    /// Number of keys that the tree can address; saturates.
    pub fn capacity(&self) -> (n: u64)
        ensures
            n == saturated(reach(SLOTS_PER_PAGE as nat, self.spec_depth())),
    {
        saturating_reach(SLOTS_PER_PAGE as u64, self.depth)
    }

    /// Whether a key lies within the tree's reach. At the last depth every 64-bit
    /// key does.
    fn reaches(&self, key: u64) -> (within: bool)
        requires
            self.spec_depth() <= MAX_DEPTH,
        ensures
            within == (key < reach(SLOTS_PER_PAGE as nat, self.spec_depth())),
    {
        proof {
            lemma_bound_1021(self.spec_depth());
        }
        let cap: u64 = self.capacity();
        cap == u64::MAX || key < cap
    }

    /// Number of keys below each child of a node at `level`; saturates.
    pub fn span_at_level(&self, level: u32) -> (n: u64)
        ensures
            n == saturated(reach(SLOTS_PER_PAGE as nat, if level > 0 {
                (level - 1) as nat
            } else {
                0
            })),
    {
        if level == 0 {
            saturating_reach(SLOTS_PER_PAGE as u64, 0)
        } else {
            saturating_reach(SLOTS_PER_PAGE as u64, level - 1)
        }
    }

    /// Make a page an empty node of the given type.
    fn init_node(buf: &mut [u8; PAGE_SIZE], page_type: PageType)
        ensures
            blank(final(buf)@),
            head_of(final(buf)@) == (page_type.spec_code(), PAGE_FORMAT_VERSION_CURRENT),
    {
        *buf = zeroed();
        buf[0] = page_type.code();
        buf[1] = PAGE_FORMAT_VERSION_CURRENT;
        let ghost s = buf@;
        stamp_checksum(buf);
        proof {
            assert forall|i: nat| i < FANOUT implies #[trigger] child_of(buf@, i) == 0 by {
                lemma_child_outside(s, buf@, i);
            }
        }
    }
}

impl RadixU64 {
    /// The leaf of a key and the key's slot there; `None` if the key
    /// is out of reach or its leaf was never made.
    fn find_leaf(&self, cache: &mut PageCache, root: u64, key: u64) -> (outcome: Result<
        Option<(u64, usize)>,
        ChiselError,
    >)
        requires
            old(cache).inv(),
            self.spec_depth() <= MAX_DEPTH,
        ensures
            final(cache).inv(),
            final(cache).same_pages(old(cache)),
            old(cache).bounded() ==> final(cache).bounded(),
            match outcome {
                Ok(Some((leaf, index))) => {
                    &&& key < reach(SLOTS_PER_PAGE as nat, self.spec_depth())
                    &&& node_at(
                        old(cache).contents(),
                        SLOTS_PER_PAGE as nat,
                        root,
                        self.spec_depth(),
                        key as nat,
                        0,
                    ) == Some(leaf)
                    &&& index == slot_of(SLOTS_PER_PAGE as nat, self.spec_depth(), key as nat)
                    &&& index < SLOTS_PER_PAGE
                },
                Ok(None) => key >= reach(SLOTS_PER_PAGE as nat, self.spec_depth()) || node_at(
                    old(cache).contents(),
                    SLOTS_PER_PAGE as nat,
                    root,
                    self.spec_depth(),
                    key as nat,
                    0,
                ) is None,
                Err(e) => key < reach(SLOTS_PER_PAGE as nat, self.spec_depth()) && path_explains(
                    old(cache),
                    SLOTS_PER_PAGE as nat,
                    root,
                    self.spec_depth(),
                    key as nat,
                    e,
                ),
            },
    {
        let ghost c = SLOTS_PER_PAGE as nat;
        let ghost depth = self.spec_depth();
        let ghost pages = cache.contents();
        proof {
            lemma_bound_1021(depth);
        }
        if !self.reaches(key) {
            return Ok(None);
        }
        let mut current: u64 = root;
        let mut remaining: u64 = key;
        let mut level: u32 = self.depth;
        while level > 0
            invariant
                c == SLOTS_PER_PAGE as nat,
                depth == self.spec_depth(),
                level <= depth <= MAX_DEPTH,
                key < reach(c, depth),
                remaining < reach(c, level as nat),
                cache.inv(),
                cache.same_pages(old(cache)),
                old(cache).bounded() ==> cache.bounded(),
                pages == old(cache).contents(),
                forall|l: nat|
                    l <= level ==> #[trigger] node_at(pages, c, root, depth, key as nat, l) == node_at(
                        pages,
                        c,
                        current,
                        level as nat,
                        remaining as nat,
                        l,
                    ),
                slot_of(c, depth, key as nat) == slot_of(c, level as nat, remaining as nat),
            decreases level,
        {
            let ghost span = reach(c, (level - 1) as nat);
            proof {
                lemma_bound_1021((level - 1) as nat);
                lemma_descend(c, level as nat, remaining as nat);
                assert(node_at(pages, c, root, depth, key as nat, level as nat) == Some(current));
                cache.lemma_explains(current);
                old(cache).lemma_same_explains(&*cache, current);
            }
            let child_span: u64 = self.span_at_level(level);
            let child_idx: usize = (remaining / child_span) as usize;
            let child: u64 = match cache.get(current) {
                Ok(buf) => read_child(buf, child_idx),
                Err(e) => {
                    return Err(e);
                },
            };
            assert(child == child_of(page_at(pages, current), remaining as nat / span));
            if child == 0 {
                assert(node_at(pages, c, root, depth, key as nat, 0) is None);
                return Ok(None);
            }
            proof {
                assert forall|l: nat| l <= level - 1 implies #[trigger] node_at(pages, c, root, depth, key as nat, l)
                    == node_at(pages, c, child, (level - 1) as nat, remaining as nat % span, l) by {
                    assert(node_at(pages, c, current, level as nat, remaining as nat, l) == node_at(
                        pages,
                        c,
                        child,
                        (level - 1) as nat,
                        remaining as nat % span,
                        l,
                    ));
                }
            }
            remaining = remaining % child_span;
            current = child;
            level = level - 1;
        }
        assert(node_at(pages, c, root, depth, key as nat, 0) == Some(current));
        Ok(Some((current, remaining as usize)))
    }

    /// The value of a key; zero if it is absent.
    pub fn lookup(&self, cache: &mut PageCache, root: u64, key: u64) -> (outcome: Result<u64, ChiselError>)
        requires
            old(cache).inv(),
            self.spec_depth() <= MAX_DEPTH,
        ensures
            final(cache).inv(),
            final(cache).same_pages(old(cache)),
            old(cache).bounded() ==> final(cache).bounded(),
            match outcome {
                Ok(value) => value == radix_lookup(old(cache).contents(), root, self.spec_depth(), key),
                Err(e) => root != PAGE_ID_NONE && key < reach(SLOTS_PER_PAGE as nat, self.spec_depth())
                    && path_explains(
                    old(cache),
                    SLOTS_PER_PAGE as nat,
                    root,
                    self.spec_depth(),
                    key as nat,
                    e,
                ),
            },
    {
        if root == PAGE_ID_NONE {
            return Ok(0);
        }
        let (leaf, index) = match self.find_leaf(cache, root, key) {
            Ok(Some(place)) => place,
            Ok(None) => {
                return Ok(0);
            },
            Err(e) => {
                return Err(e);
            },
        };
        proof {
            cache.lemma_explains(leaf);
            old(cache).lemma_same_explains(&*cache, leaf);
        }
        match cache.get(leaf) {
            Ok(buf) => Ok(read_child(buf, index)),
            Err(e) => Err(e),
        }
    }

    /// Take a page from the source and make it an empty node.
    fn fresh_node<A: PageSource>(cache: &mut PageCache, source: &mut A, page_type: PageType) -> (outcome: Result<
        u64,
        ChiselError,
    >)
        requires
            old(cache).inv(),
            old(cache).bounded(),
            old(source).ready(old(cache)),
            old(cache).watermark() + A::growth() <= usize::MAX,
        ensures
            cow_step(old(source), old(cache), final(source), final(cache), A::growth()),
            match outcome {
                Ok(n) => {
                    &&& taken(old(source), old(cache), final(source), final(cache), n)
                    &&& final(source).footprint(final(cache)) == old(source).footprint(old(cache)).remove(n)
                    &&& blank(final(cache).contents()[n])
                    &&& head_of(final(cache).contents()[n]) == (page_type.spec_code(), PAGE_FORMAT_VERSION_CURRENT)
                },
                Err(e) => overrun(old(cache), final(cache), e, A::growth()),
            },
    {
        let n: u64 = match source.next_page(cache) {
            Ok(n) => n,
            Err(e) => {
                return Err(e);
            },
        };
        let ghost mid = *cache;
        proof {
            cache.lemma_explains(n);
        }
        match cache.get_mut(n) {
            Ok(buf) => {
                Self::init_node(buf, page_type);
            },
            Err(e) => {
                proof {
                    lemma_cow_look(source, &mid, cache);
                    lemma_cow_chain(old(source), old(cache), source, &mid, source, cache, A::growth(), 0);
                }
                return Err(e);
            },
        }
        proof {
            lemma_cow_edit_taken(old(source), old(cache), source, &mid, cache, n, A::growth());
        }
        Ok(n)
    }

    /// Copy a leaf to a fresh page and write `value` there.
    fn insert_leaf<A: PageSource>(
        cache: &mut PageCache,
        page_id: u64,
        key: u64,
        value: u64,
        source: &mut A,
        freed: &mut Vec<u64>,
    ) -> (outcome: Result<u64, ChiselError>)
        requires
            old(cache).inv(),
            old(cache).bounded(),
            old(source).ready(old(cache)),
            key < SLOTS_PER_PAGE,
            old(cache).watermark() + A::growth() <= usize::MAX,
            !old(source).footprint(old(cache)).contains(page_id),
        ensures
            cow_step(old(source), old(cache), final(source), final(cache), A::growth()),
            outcome matches Ok(n) ==> value_written(
                old(source),
                old(cache),
                final(source),
                final(cache),
                page_id,
                n,
                0,
                key as nat,
                value,
                seq![n],
            ),
            outcome matches Ok(n) ==> path_freed(
                old(source),
                old(cache),
                final(source),
                final(cache),
                SLOTS_PER_PAGE as nat,
                page_id,
                0,
                key as nat,
                old(freed)@,
                final(freed)@,
                seq![n],
            ),
            outcome matches Err(e) ==> overrun(old(cache), final(cache), e, A::growth()) || path_unsound(
                old(cache),
                SLOTS_PER_PAGE as nat,
                page_id,
                0,
                key as nat,
                e,
            ),
            old(freed)@.is_prefix_of(final(freed)@),
    {
        let ghost c = SLOTS_PER_PAGE as nat;
        let ghost h = key as nat;
        let ghost g = A::growth();
        let ghost s0 = *source;
        let ghost c0 = *cache;
        let ghost f0 = freed@;
        let ghost p0 = cache.contents();
        proof {
            assert(node_at(p0, c, page_id, 0, h, 0) == Some(page_id));
        }
        let new_page: u64 = match cow_page(cache, source, page_id) {
            Ok(n) => n,
            Err(e) => {
                return Err(e);
            },
        };
        let ghost s1 = *source;
        let ghost c1 = *cache;
        freed.push(page_id);
        let ghost f1 = freed@;
        let index: usize = (key % SLOTS_PER_PAGE as u64) as usize;
        match link_child(cache, new_page, index, value) {
            Ok(_) => {},
            Err(e) => {
                proof {
                    lemma_cow_look(source, &c1, cache);
                    lemma_cow_chain(&s0, &c0, &s1, &c1, source, cache, g, 0);
                }
                return Err(e);
            },
        }
        proof {
            lemma_reach_1021();
            lemma_cow_edit_taken(&s0, &c0, &s1, &c1, cache, new_page, g);
            let news = seq![new_page];
            reveal(spine_written);
            reveal(path_freed);
            reveal(path_headed);
            lemma_replaced_leaf(p0, cache.contents(), c, page_id, new_page, h);
            vstd::arithmetic::div_mod::lemma_small_mod(h, SLOTS_PER_PAGE as nat);
            assert(index == key);
            assert(slot_of(c, 0, h) == h);
            assert(page_at(cache.contents(), news[0]) == cache.contents()[new_page]);
            assert(slots_updated(p0, Some(page_id), cache.contents()[new_page], index as nat, value));
            assert(value_written(&s0, &c0, source, cache, page_id, new_page, 0, h, value, news));
            assert(accounted(&s0, &c0, source, cache, news, f0, f1)) by {
                assert forall|x: u64| #[trigger] s0.footprint(&c0).contains(x) implies source.footprint(cache).contains(x)
                    || news.contains(x) by {
                    assert(news[0] == new_page);
                }
            }
            assert(path_freed(&s0, &c0, source, cache, c, page_id, 0, h, f0, f1, news));
        }
        Ok(new_page)
    }

    /// Copy the pages on the path of `key` below `page_id` to fresh pages,
    /// and write `value` to the new leaf. Returns the page that takes the
    /// place of `page_id`.
    #[verifier::rlimit(60)]
    #[verifier::spinoff_prover]
    fn insert_recursive<A: PageSource>(
        &self,
        cache: &mut PageCache,
        page_id: u64,
        key: u64,
        value: u64,
        level: u32,
        source: &mut A,
        freed: &mut Vec<u64>,
    ) -> (outcome: Result<u64, ChiselError>)
        requires
            old(cache).inv(),
            old(cache).bounded(),
            old(source).ready(old(cache)),
            level <= MAX_DEPTH,
            key < reach(SLOTS_PER_PAGE as nat, level as nat),
            old(cache).watermark() + (2 * level + 1) * A::growth() <= usize::MAX,
            tree_in(
                old(cache).contents(),
                SLOTS_PER_PAGE as nat,
                page_id,
                level as nat,
                old(source).footprint(old(cache)).complement(),
            ),
        ensures
            cow_step(
                old(source),
                old(cache),
                final(source),
                final(cache),
                ((level + 1 + absent(
                    old(cache).contents(),
                    SLOTS_PER_PAGE as nat,
                    page_id,
                    level as nat,
                    key as nat,
                )) * A::growth()) as nat,
            ),
            match outcome {
                Ok(n) => exists|news: Seq<u64>| #[trigger]
                    value_written(
                        old(source),
                        old(cache),
                        final(source),
                        final(cache),
                        page_id,
                        n,
                        level as nat,
                        key as nat,
                        value,
                        news,
                    ) && path_freed(
                        old(source),
                        old(cache),
                        final(source),
                        final(cache),
                        SLOTS_PER_PAGE as nat,
                        page_id,
                        level as nat,
                        key as nat,
                        old(freed)@,
                        final(freed)@,
                        news,
                    ),
                Err(e) => {
                    &&& overrun(
                        old(cache), final(cache),
                        e,
                        ((level + 1 + absent(
                    old(cache).contents(),
                    SLOTS_PER_PAGE as nat,
                    page_id,
                    level as nat,
                    key as nat,
                )) * A::growth()) as nat,
                    ) || path_unsound(
                        old(cache),
                        SLOTS_PER_PAGE as nat,
                        page_id,
                        level as nat,
                        key as nat,
                        e,
                    )
                    &&& old(freed)@.is_prefix_of(final(freed)@)
                },
            },
        decreases level,
    {
        let ghost c = SLOTS_PER_PAGE as nat;
        let ghost lv = level as nat;
        let ghost h = key as nat;
        let ghost g = A::growth();
        let ghost s0 = *source;
        let ghost c0 = *cache;
        let ghost f0 = freed@;
        let ghost good = source.footprint(cache).complement();
        let ghost p0 = cache.contents();
        let ghost missing = absent(p0, c, page_id, lv, h);
        let ghost total = ((level + 1 + missing) * g) as nat;
        proof {
            lemma_bound_1021(lv);
            lemma_reach_1021();
            assert(node_at(p0, c, page_id, lv, h, lv) == Some(page_id));
            assert(good.contains(page_id));
            lemma_absent(p0, c, page_id, lv, h);
            assert((level + 1 + missing) * g >= g && (level + 1 + missing) * g <= (2 * level + 1) * g) by (nonlinear_arith)
                requires
                    level >= 0,
                    g >= 0,
                    0 <= missing <= level,
            ;
        }
        if level == 0 {
            return Self::insert_leaf(cache, page_id, key, value, source, freed);
        }
        let new_page: u64 = match cow_page(cache, source, page_id) {
            Ok(n) => n,
            Err(e) => {
                return Err(e);
            },
        };
        let ghost s1 = *source;
        let ghost c1 = *cache;
        let ghost p1 = cache.contents();
        freed.push(page_id);
        let ghost f1 = freed@;
        proof {
            assert(f0.is_prefix_of(f1));
            cache.lemma_explains(new_page);
        }
        let ghost span = reach(c, (level - 1) as nat);
        let ghost i = h / span;
        proof {
            lemma_bound_1021((level - 1) as nat);
            lemma_descend(c, lv, h);
        }
        let child_span: u64 = self.span_at_level(level);
        let child_idx: usize = (key / child_span) as usize;
        let child_page: u64 = match cache.get(new_page) {
            Ok(buf) => read_child(buf, child_idx),
            Err(e) => {
                proof {
                    lemma_cow_look(source, &c1, cache);
                    lemma_cow_chain(&s0, &c0, &s1, &c1, source, cache, g, 0);
                }
                return Err(e);
            },
        };
        let ghost c2 = *cache;
        proof {
            lemma_cow_look(source, &c1, cache);
            lemma_cow_chain(&s0, &c0, &s1, &c1, source, cache, g, 0);
            assert(child_page == child_of(page_at(p0, page_id), i));
            assert((2 * level + 1) * g == g + g + (2 * (level - 1) + 1) * g) by (nonlinear_arith);
            assert(child_page == 0 ==> total == g + g + (2 * (level - 1) + 1) * g);
            assert(g + g <= (2 * level + 1) * g) by (nonlinear_arith)
                requires
                    level >= 1,
                    g >= 0,
            ;
        }
        let actual_child: u64 = if child_page == 0 {
            let page_type: PageType = if level == 1 {
                PageType::MembershipLeaf
            } else {
                PageType::MembershipInterior
            };
            let fresh: u64 = match Self::fresh_node(cache, source, page_type) {
                Ok(n) => n,
                Err(e) => {
                    proof {
                        lemma_cow_chain(&s0, &c0, &s1, &c2, source, cache, g, g);
                        assert(too_many(&c2, e, g));
                    }
                    return Err(e);
                },
            };
            proof {
                lemma_cow_chain(&s0, &c0, &s1, &c2, source, cache, g, g);
                assert(taken(&s1, &c2, source, cache, fresh));
                assert(taken(&s0, &c0, source, cache, new_page));
                assert(new_page != fresh);
            }
            fresh
        } else {
            proof {
                assert(cow_step(&s0, &c0, source, cache, g));
                assert(node_at(p0, c, child_page, (lv - 1) as nat, h % span, (lv - 1) as nat) == Some(child_page));
                assert(node_at(p0, c, page_id, lv, h, (lv - 1) as nat) == Some(child_page));
            }
            child_page
        };
        let ghost s4 = *source;
        let ghost c4 = *cache;
        let ghost p4 = cache.contents();
        let ghost good4 = source.footprint(cache).complement();
        let ghost m4: nat = if child_page == 0 {
            g + g
        } else {
            g
        };
        let ghost left = absent(p4, c, actual_child, (lv - 1) as nat, h % span);
        let ghost m5 = ((level - 1 + 1 + left) * g) as nat;
        proof {
            assert(taken(&s0, &c0, &s4, &c4, new_page));
            assert(p4[new_page] == p1[new_page]);
            lemma_child_tree(&s0, &c0, &s4, &c4, c, page_id, lv, h, actual_child);
            assert(key % child_span == h % span);
            lemma_absent(p4, c, actual_child, (lv - 1) as nat, h % span);
            if child_page == 0 {
                if level > 1 {
                    assert(child_of(page_at(p4, actual_child), (h % span) / reach(c, (lv - 2) as nat)) == 0) by {
                        lemma_descend(c, (lv - 1) as nat, h % span);
                    }
                }
                assert(left == level - 1);
                assert(missing == level);
            } else {
                lemma_subtree_in(p0, c, page_id, lv, i, good);
                assert(same_on(p0, p4, good)) by {
                    assert forall|x: u64| #[trigger] good.contains(x) implies page_at(p0, x) == page_at(p4, x) by {
                        lemma_agree_at(&c0, &c4, good, x);
                    }
                }
                lemma_absent_same(p0, p4, c, child_page, (lv - 1) as nat, h % span, good);
                assert(left == missing);
            }
            assert(total == m4 + m5) by (nonlinear_arith)
                requires
                    total == (level + 1 + missing) * g,
                    m5 == (level - 1 + 1 + left) * g,
                    child_page == 0 ==> m4 == g + g && left == level - 1 && missing == level,
                    child_page != 0 ==> m4 == g && left == missing,
            ;
            assert(m5 <= (2 * (level - 1) + 1) * g) by (nonlinear_arith)
                requires
                    m5 == (level - 1 + 1 + left) * g,
                    left <= level - 1,
                    g >= 0,
            ;
            assert(cow_step(&s0, &c0, &s4, &c4, m4));
            assert forall|x: u64| #[trigger] s0.footprint(&c0).contains(x) implies s4.footprint(&c4).contains(x) || x
                == new_page || x == actual_child by {}
        }
        let new_child: u64 = match self.insert_recursive(
            cache,
            actual_child,
            key % child_span,
            value,
            level - 1,
            source,
            freed,
        ) {
            Ok(n) => n,
            Err(e) => {
                proof {
                    lemma_prefix_trans(f0, f1, freed@);
                    lemma_cow_chain(&s0, &c0, &s4, &c4, source, cache, m4, m5);
                    if path_unsound(&c4, c, actual_child, (lv - 1) as nat, h % span, e) {
                        lemma_unsound_up(&s0, &c0, &s4, &c4, c, page_id, lv, h, actual_child, e);
                    } else {
                        assert(too_many(&c4, e, m5));
                    }
                }
                return Err(e);
            },
        };
        let ghost s5 = *source;
        let ghost c5 = *cache;
        let ghost p5 = cache.contents();
        let ghost news = choose|news: Seq<u64>| #[trigger]
            value_written(
                &s4,
                &c4,
                &s5,
                &c5,
                actual_child,
                new_child,
                (lv - 1) as nat,
                h % span,
                value,
                news,
            ) && path_freed(
                &s4,
                &c4,
                &s5,
                &c5,
                c,
                actual_child,
                (lv - 1) as nat,
                h % span,
                f1,
                freed@,
                news,
            );
        proof {
            lemma_cow_chain(&s0, &c0, &s4, &c4, &s5, &c5, m4, m5);
            assert(taken(&s0, &c0, &s5, &c5, new_page));
            assert(p5[new_page] == p1[new_page]);
            cache.lemma_explains(new_page);
            lemma_spine_facts(
                &s4,
                &c4,
                &s5,
                &c5,
                c,
                actual_child,
                new_child,
                (lv - 1) as nat,
                h % span,
                news,
                f1,
                freed@,
            );
            lemma_prefix_trans(f0, f1, freed@);
        }
        match link_child(cache, new_page, child_idx, new_child) {
            Ok(_) => {},
            Err(e) => {
                proof {
                    lemma_cow_look(source, &c5, cache);
                    lemma_cow_chain(&s0, &c0, &s5, &c5, source, cache, total, 0);
                }
                return Err(e);
            },
        }
        proof {
            lemma_cow_edit_taken(&s0, &c0, &s5, &c5, cache, new_page, total);
            lemma_not_in_news(&s4, &c4, &s5, &c5, c, actual_child, new_child, (lv - 1) as nat, h % span, news, new_page);
            lemma_spine_step(
                &s0,
                &c0,
                &s4,
                &c4,
                &s5,
                &c5,
                source,
                cache,
                c,
                page_id,
                new_page,
                lv,
                h,
                actual_child,
                news,
            );
            lemma_freed_step(
                &s0,
                &c0,
                &s4,
                &c4,
                &s5,
                &c5,
                source,
                cache,
                c,
                page_id,
                new_page,
                lv,
                h,
                actual_child,
                news,
                f0,
                freed@,
            );
            lemma_headed_step(
                &s0,
                &c0,
                &c4,
                &c5,
                cache,
                c,
                page_id,
                new_page,
                lv,
                h,
                actual_child,
                news,
                radix_head(),
            );
            assert(value_written(&s0, &c0, source, cache, page_id, new_page, lv, h, value, news.push(new_page)));
        }
        Ok(new_page)
    }
}

impl RadixU64 {
    /// Find the value of `key` in a leaf and, if it is not zero, copy the leaf to
    /// a fresh page with zero in its place.
    fn delete_leaf<A: PageSource>(
        cache: &mut PageCache,
        page: u64,
        key: u64,
        source: &mut A,
        freed: &mut Vec<u64>,
    ) -> (outcome: Result<(u64, u64), ChiselError>)
        requires
            old(cache).inv(),
            old(cache).bounded(),
            old(source).ready(old(cache)),
            key < SLOTS_PER_PAGE,
            old(cache).watermark() + A::growth() <= usize::MAX,
            !old(source).footprint(old(cache)).contains(page),
        ensures
            cow_step(old(source), old(cache), final(source), final(cache), A::growth()),
            outcome matches Ok((n, found)) ==> found == child_of(page_at(old(cache).contents(), page), key as nat),
            outcome matches Ok((n, found)) ==> found == 0 ==> n == page && final(cache).same_pages(old(cache))
                && *final(source) == *old(source) && final(freed)@ == old(freed)@,
            outcome matches Ok((n, found)) ==> found != 0 ==> value_written(
                old(source),
                old(cache),
                final(source),
                final(cache),
                page,
                n,
                0,
                key as nat,
                0u64,
                seq![n],
            ),
            outcome matches Ok((n, found)) ==> found != 0 ==> final(freed)@ == old(freed)@.push(page),
            outcome matches Ok((n, found)) ==> found != 0 ==> on_new_path(
                old(source),
                old(cache),
                final(source),
                final(cache),
                SLOTS_PER_PAGE as nat,
                n,
                0,
                key as nat,
            ),
            outcome matches Err(e) ==> overrun(old(cache), final(cache), e, A::growth()) || path_unsound(
                old(cache),
                SLOTS_PER_PAGE as nat,
                page,
                0,
                key as nat,
                e,
            ),
            old(freed)@.is_prefix_of(final(freed)@),
    {
        let ghost c = SLOTS_PER_PAGE as nat;
        let ghost h = key as nat;
        let ghost g = A::growth();
        let ghost s0 = *source;
        let ghost c0 = *cache;
        let ghost p0 = cache.contents();
        let index: usize = (key % SLOTS_PER_PAGE as u64) as usize;
        proof {
            lemma_reach_1021();
            vstd::arithmetic::div_mod::lemma_small_mod(h, SLOTS_PER_PAGE as nat);
            assert(index == key);
            assert(node_at(p0, c, page, 0, h, 0) == Some(page));
            cache.lemma_explains(page);
        }
        let value: u64 = match cache.get(page) {
            Ok(buf) => read_child(buf, index),
            Err(e) => {
                proof {
                    lemma_cow_look(source, &c0, cache);
                }
                return Err(e);
            },
        };
        let ghost c1 = *cache;
        proof {
            lemma_cow_look(source, &c0, cache);
            c0.lemma_same_explains(&c1, page);
        }
        if value == 0 {
            return Ok((page, 0));
        }
        let new_leaf: u64 = match cow_page(cache, source, page) {
            Ok(n) => n,
            Err(e) => {
                proof {
                    lemma_cow_chain(&s0, &c0, &s0, &c1, source, cache, 0, g);
                }
                return Err(e);
            },
        };
        let ghost s2 = *source;
        let ghost c2 = *cache;
        proof {
            lemma_cow_chain(&s0, &c0, &s0, &c1, &s2, &c2, 0, g);
            assert(taken(&s0, &c1, &s2, &c2, new_leaf));
        }
        freed.push(page);
        match link_child(cache, new_leaf, index, 0) {
            Ok(_) => {},
            Err(e) => {
                proof {
                    lemma_cow_look(source, &c2, cache);
                    lemma_cow_chain(&s0, &c0, &s2, &c2, source, cache, g, 0);
                }
                return Err(e);
            },
        }
        proof {
            lemma_cow_edit_taken(&s0, &c0, &s2, &c2, cache, new_leaf, g);
            let news = seq![new_leaf];
            reveal(spine_written);
            reveal(path_headed);
            lemma_replaced_leaf(p0, cache.contents(), c, page, new_leaf, h);
            assert(node_at(cache.contents(), c, new_leaf, 0, h, 0) == Some(new_leaf));
            assert(path_has(cache.contents(), c, new_leaf, 0, h, new_leaf));
            assert(on_new_path(&s0, &c0, source, cache, c, new_leaf, 0, h));
            assert(slot_of(c, 0, h) == h);
            assert(page_at(cache.contents(), news[0]) == cache.contents()[new_leaf]);
            assert(slots_updated(p0, Some(page), cache.contents()[new_leaf], index as nat, 0u64));
            assert(value_written(&s0, &c0, source, cache, page, new_leaf, 0, h, 0u64, news));
        }
        Ok((new_leaf, value))
    }

    /// Find the value of `key` below `page` and, if it is not zero, copy the
    /// pages on its path to fresh pages with zero in its place. Returns the
    /// page that takes the place of `page` and the value; if that is zero,
    /// nothing is copied.
    #[verifier::rlimit(60)]
    #[verifier::spinoff_prover]
    fn delete_recursive<A: PageSource>(
        &self,
        cache: &mut PageCache,
        page: u64,
        key: u64,
        level: u32,
        source: &mut A,
        freed: &mut Vec<u64>,
    ) -> (outcome: Result<(u64, u64), ChiselError>)
        requires
            old(cache).inv(),
            old(cache).bounded(),
            old(source).ready(old(cache)),
            level <= MAX_DEPTH,
            key < reach(SLOTS_PER_PAGE as nat, level as nat),
            old(cache).watermark() + (level + 1) * A::growth() <= usize::MAX,
            tree_in(
                old(cache).contents(),
                SLOTS_PER_PAGE as nat,
                page,
                level as nat,
                old(source).footprint(old(cache)).complement(),
            ),
        ensures
            cow_step(old(source), old(cache), final(source), final(cache), ((level + 1) * A::growth()) as nat),
            outcome matches Ok((n, found)) ==> found == node_value(
                old(cache).contents(),
                page,
                level as nat,
                key as nat,
            ),
            outcome matches Ok((n, found)) ==> found == 0 ==> n == page && final(cache).same_pages(old(cache)) && *final(source) == *old(
                source,
            ) && final(freed)@ == old(freed)@,
            outcome matches Ok((n, found)) ==> found != 0 ==> value_changed(
                old(source),
                old(cache),
                final(source),
                final(cache),
                page,
                n,
                level as nat,
                key as nat,
                0u64,
            ),
            outcome matches Ok((n, found)) ==> found != 0 ==> on_new_path(
                old(source),
                old(cache),
                final(source),
                final(cache),
                SLOTS_PER_PAGE as nat,
                n,
                level as nat,
                key as nat,
            ),
            outcome matches Ok((n, found)) ==> found != 0 ==> final(freed)@ == old(freed)@ + path_ids(
                old(cache).contents(),
                SLOTS_PER_PAGE as nat,
                page,
                level as nat,
                key as nat,
            ),
            outcome matches Err(e) ==> overrun(old(cache), final(cache), e, ((level + 1) * A::growth()) as nat) || path_unsound(
                old(cache),
                SLOTS_PER_PAGE as nat,
                page,
                level as nat,
                key as nat,
                e,
            ),
            old(freed)@.is_prefix_of(final(freed)@),
        decreases level,
    {
        let ghost c = SLOTS_PER_PAGE as nat;
        let ghost lv = level as nat;
        let ghost h = key as nat;
        let ghost g = A::growth();
        let ghost s0 = *source;
        let ghost c0 = *cache;
        let ghost f0 = freed@;
        let ghost good = source.footprint(cache).complement();
        let ghost p0 = cache.contents();
        let ghost total = ((level + 1) * g) as nat;
        proof {
            lemma_bound_1021(lv);
            lemma_reach_1021();
            assert(node_at(p0, c, page, lv, h, lv) == Some(page));
            assert(good.contains(page));
            assert((level + 1) * g >= g) by (nonlinear_arith)
                requires
                    level >= 0,
                    g >= 0,
            ;
            cache.lemma_explains(page);
        }
        if level == 0 {
            let outcome = Self::delete_leaf(cache, page, key, source, freed);
            proof {
                if let Ok((n, found)) = outcome {
                    if found != 0 {
                        assert(value_changed(&s0, &c0, source, cache, page, n, lv, h, 0u64));
                        assert(freed@ =~= f0 + path_ids(p0, c, page, lv, h));
                    }
                }
            }
            return outcome;
        }
        let ghost span = reach(c, (level - 1) as nat);
        let ghost i = h / span;
        proof {
            lemma_bound_1021((level - 1) as nat);
            lemma_descend(c, lv, h);
        }
        let child_span: u64 = self.span_at_level(level);
        let child_idx: usize = (key / child_span) as usize;
        let child_page: u64 = match cache.get(page) {
            Ok(buf) => read_child(buf, child_idx),
            Err(e) => {
                proof {
                    lemma_cow_look(source, &c0, cache);
                }
                return Err(e);
            },
        };
        let ghost c4 = *cache;
        proof {
            lemma_cow_look(source, &c0, cache);
            assert(child_page == child_of(page_at(p0, page), i));
            assert((level + 1) * g == g + (level - 1 + 1) * g) by (nonlinear_arith);
        }
        if child_page == 0 {
            return Ok((page, 0));
        }
        proof {
            assert(node_at(p0, c, child_page, (lv - 1) as nat, h % span, (lv - 1) as nat) == Some(child_page));
            assert(node_at(p0, c, page, lv, h, (lv - 1) as nat) == Some(child_page));
            lemma_child_tree(&s0, &c0, &s0, &c4, c, page, lv, h, child_page);
            assert(key % child_span == h % span);
            assert(node_at(p0, c, page, lv, h, 0) == node_at(p0, c, child_page, (lv - 1) as nat, h % span, 0));
        }
        let ghost m = (level * g) as nat;
        let (new_child, found) = match self.delete_recursive(
            cache,
            child_page,
            key % child_span,
            level - 1,
            source,
            freed,
        ) {
            Ok(r) => r,
            Err(e) => {
                proof {
                    lemma_cow_chain(&s0, &c0, &s0, &c4, source, cache, 0, m);
                    if path_unsound(&c4, c, child_page, (lv - 1) as nat, h % span, e) {
                        lemma_unsound_up(&s0, &c0, &s0, &c4, c, page, lv, h, child_page, e);
                    } else {
                        assert(too_many(&c4, e, m));
                    }
                }
                return Err(e);
            },
        };
        let ghost s5 = *source;
        let ghost c5 = *cache;
        let ghost f5 = freed@;
        proof {
            lemma_cow_chain(&s0, &c0, &s0, &c4, &s5, &c5, 0, m);
            lemma_agree_at(&c0, &c5, good, page);
            lemma_agree_at(&c0, &c5, good, child_page);
        }
        if found == 0 {
            return Ok((page, 0));
        }
        let ghost news = choose|news: Seq<u64>| #[trigger]
            value_written(&s0, &c4, &s5, &c5, child_page, new_child, (lv - 1) as nat, h % span, 0u64, news);
        let new_page: u64 = match cow_page(cache, source, page) {
            Ok(n) => n,
            Err(e) => {
                proof {
                    lemma_cow_chain(&s0, &c0, &s5, &c5, source, cache, m, g);
                    if !too_many(&c5, e, g) {
                        assert(node_at(p0, c, page, lv, h, lv) == Some(page));
                        assert(path_unsound(&c0, c, page, lv, h, e));
                    }
                }
                return Err(e);
            },
        };
        let ghost s6 = *source;
        let ghost c6 = *cache;
        freed.push(page);
        proof {
            lemma_cow_chain(&s0, &c0, &s5, &c5, &s6, &c6, m, g);
            assert(taken(&s5, &c5, &s6, &c6, new_page));
            assert(freed@ =~= f0 + path_ids(p0, c, page, lv, h));
        }
        match link_child(cache, new_page, child_idx, new_child) {
            Ok(_) => {},
            Err(e) => {
                proof {
                    lemma_cow_look(source, &c6, cache);
                    lemma_cow_chain(&s0, &c0, &s6, &c6, source, cache, total, 0);
                }
                return Err(e);
            },
        }
        proof {
            lemma_parent_copied(
                &s0,
                &c0,
                &s5,
                &c5,
                &s6,
                &c6,
                cache,
                c,
                child_page,
                new_child,
                (lv - 1) as nat,
                h % span,
                news,
                &c4,
                new_page,
                g,
            );
            lemma_cow_edit_taken(&s0, &c0, &s6, &c6, cache, new_page, total);
            lemma_spine_len(&s0, &c4, &s5, &c5, c, child_page, new_child, (lv - 1) as nat, h % span, news);
            assert forall|x: u64| taken(&s0, &c4, &s5, &c5, x) implies #[trigger] taken(&s0, &c0, source, cache, x) by {
                assert(taken(&s0, &c0, &s5, &c5, x));
                assert(taken(&s0, &c0, &s6, &c6, x));
            }
            lemma_spine_step(
                &s0,
                &c0,
                &s0,
                &c4,
                &s5,
                &c5,
                source,
                cache,
                c,
                page,
                new_page,
                lv,
                h,
                child_page,
                news,
            );
            lemma_headed_step(
                &s0,
                &c0,
                &c4,
                &c5,
                cache,
                c,
                page,
                new_page,
                lv,
                h,
                child_page,
                news,
                radix_head(),
            );
            assert(value_written(&s0, &c0, source, cache, page, new_page, lv, h, 0u64, news.push(new_page)));
            lemma_spine_nodes(&s0, &c0, source, cache, c, page, new_page, lv, h, news.push(new_page));
            lemma_spine_nodes(&s0, &c4, &s5, &c5, c, child_page, new_child, (lv - 1) as nat, h % span, news);
            assert forall|x: u64| #[trigger] s0.footprint(&c0).contains(x) implies source.footprint(cache).contains(x)
                || path_has(cache.contents(), c, new_page, lv, h, x) by {
                if x == new_page {
                    assert(node_at(cache.contents(), c, new_page, lv, h, lv) == Some(x));
                } else if !s5.footprint(&c5).contains(x) {
                    assert(path_has(c5.contents(), c, new_child, (lv - 1) as nat, h % span, x));
                    let l = choose|l: nat|
                        l <= (lv - 1) as nat && #[trigger] node_at(
                            c5.contents(),
                            c,
                            new_child,
                            (lv - 1) as nat,
                            h % span,
                            l,
                        ) == Some(x);
                    assert(news.push(new_page)[l as int] == news[l as int]);
                    assert(node_at(cache.contents(), c, new_page, lv, h, l) == Some(x));
                }
            }
            assert(on_new_path(&s0, &c0, source, cache, c, new_page, lv, h));
            assert(value_changed(&s0, &c0, source, cache, page, new_page, lv, h, 0u64));
        }
        Ok((new_page, found))
    }
}

/// Bound on the pages that one insertion allocates, in requests: up to six new
/// roots, and two pages for each level but the top.
pub open spec fn radix_insert_requests() -> nat {
    19
}

/// Bound on the pages that one insertion into a tree of this depth allocates, if a
/// request to the source takes at most `g`: a root for each level that is added, and
/// two pages for each level but the top.
pub open spec fn radix_insert_pages(depth: nat, key: u64, g: nat) -> nat {
    let d = radix_depth_for(depth, key);
    ((d - depth + 2 * d + 1) * g) as nat
}

/// No insertion takes more than the deepest tree asks for.
pub proof fn lemma_radix_insert_pages(depth: nat, key: u64, g: nat)
    requires
        depth <= MAX_DEPTH,
    ensures
        radix_insert_pages(depth, key, g) <= radix_insert_requests() * g,
{
    lemma_radix_depth(depth, key);
    let d = radix_depth_for(depth, key);
    assert((d - depth + 2 * d + 1) * g <= 19 * g) by (nonlinear_arith)
        requires
            d - depth + 2 * d + 1 <= 19,
            g >= 0,
    ;
}

/// The smallest depth from `depth` on at which `key` is within reach.
pub open spec fn radix_depth_for(depth: nat, key: u64) -> nat
    decreases MAX_DEPTH - depth,
{
    if depth >= MAX_DEPTH || key < reach(SLOTS_PER_PAGE as nat, depth) {
        depth
    } else {
        radix_depth_for(depth + 1, key)
    }
}

/// A tree holds nothing beyond the 64-bit keys.
pub open spec fn radix_within(pages: Map<u64, Seq<u8>>, root: u64, depth: nat) -> bool {
    forall|k: nat|
        u64::MAX < k < reach(SLOTS_PER_PAGE as nat, depth) ==> #[trigger] node_value(pages, root, depth, k) == 0
}

/// The new tree says `value` about `key` and the same as the old one about
/// every other key. It holds nothing beyond 64 bits if the old one does not.
pub open spec fn radix_updated(
    before: Map<u64, Seq<u8>>,
    root0: u64,
    depth0: nat,
    after: Map<u64, Seq<u8>>,
    root1: u64,
    depth1: nat,
    key: u64,
    value: u64,
) -> bool {
    &&& forall|k: u64| #[trigger]
        radix_lookup(after, root1, depth1, k) == (if k == key {
            value
        } else {
            radix_lookup(before, root0, depth0, k)
        })
    &&& radix_within(before, root0, depth0) ==> radix_within(after, root1, depth1)
}

/// Every value of the grown tree is that of the tree below it.
spec fn values_grown(
    before: Map<u64, Seq<u8>>,
    root0: u64,
    depth0: nat,
    after: Map<u64, Seq<u8>>,
    root1: u64,
    depth1: nat,
) -> bool {
    forall|k: nat|
        k < reach(SLOTS_PER_PAGE as nat, depth1) ==> #[trigger] node_value(after, root1, depth1, k) == (if k < reach(
            SLOTS_PER_PAGE as nat,
            depth0,
        ) {
            node_value(before, root0, depth0, k)
        } else {
            0u64
        })
}

/// Replacing a path changes the value of its key and no other.
proof fn lemma_radix_written<A: PageSource>(
    s0: &A,
    c0: &PageCache,
    s1: &A,
    c1: &PageCache,
    page: u64,
    n: u64,
    level: nat,
    h: nat,
    value: u64,
    news: Seq<u64>,
    m: nat,
)
    requires
        h < reach(SLOTS_PER_PAGE as nat, level),
        cow_step(s0, c0, s1, c1, m),
        value_written(s0, c0, s1, c1, page, n, level, h, value, news),
        tree_in(c0.contents(), SLOTS_PER_PAGE as nat, page, level, s0.footprint(c0).complement()),
    ensures
        forall|k: nat|
            k < reach(SLOTS_PER_PAGE as nat, level) ==> #[trigger] node_value(c1.contents(), n, level, k) == (if k
                == h {
                value
            } else {
                node_value(c0.contents(), page, level, k)
            }),
{
    let c = SLOTS_PER_PAGE as nat;
    let read = slot_reader();
    lemma_value_written(s0, c0, s1, c1, c, page, n, level, h, news, m, read, 0u64, value);
    assert forall|k: nat| k < reach(c, level) implies #[trigger] node_value(c1.contents(), n, level, k) == (if k == h {
        value
    } else {
        node_value(c0.contents(), page, level, k)
    }) by {
        assert(node_value(c1.contents(), n, level, k) == tree_value(
            c1.contents(),
            c,
            n,
            level,
            k,
            read,
            0u64,
        ));
        assert(node_value(c0.contents(), page, level, k) == tree_value(
            c0.contents(),
            c,
            page,
            level,
            k,
            read,
            0u64,
        ));
    }
}

/// Putting a root above the tree keeps all values.
proof fn lemma_values_grown<A: PageSource>(
    s1: &A,
    c1: &PageCache,
    s2: &A,
    c2: &PageCache,
    cur: u64,
    d: nat,
    n: u64,
)
    requires
        tree_in(c1.contents(), SLOTS_PER_PAGE as nat, cur, d, s1.footprint(c1).complement()),
        same_on(c1.contents(), c2.contents(), s1.footprint(c1).complement()),
        forall|k: nat, l: nat|
            k < reach(SLOTS_PER_PAGE as nat, d + 1) && l <= d ==> #[trigger] node_at(
                c2.contents(),
                SLOTS_PER_PAGE as nat,
                n,
                d + 1,
                k,
                l,
            ) == (if k < reach(SLOTS_PER_PAGE as nat, d) {
                node_at(c1.contents(), SLOTS_PER_PAGE as nat, cur, d, k, l)
            } else {
                None
            }),
        forall|k: nat|
            k < reach(SLOTS_PER_PAGE as nat, d) ==> #[trigger] slot_of(SLOTS_PER_PAGE as nat, d + 1, k) == slot_of(
                SLOTS_PER_PAGE as nat,
                d,
                k,
            ),
    ensures
        reach(SLOTS_PER_PAGE as nat, d) < reach(SLOTS_PER_PAGE as nat, d + 1),
        values_grown(c1.contents(), cur, d, c2.contents(), n, d + 1),
{
    let c = SLOTS_PER_PAGE as nat;
    let read = slot_reader();
    lemma_value_grown(s1, c1, s2, c2, c, cur, d, n, read, 0u64);
    assert forall|k: nat| k < reach(c, d + 1) implies #[trigger] node_value(c2.contents(), n, d + 1, k) == (if k
        < reach(c, d) {
        node_value(c1.contents(), cur, d, k)
    } else {
        0u64
    }) by {
        assert(node_value(c2.contents(), n, d + 1, k) == tree_value(
            c2.contents(),
            c,
            n,
            d + 1,
            k,
            read,
            0u64,
        ));
        assert(node_value(c1.contents(), cur, d, k) == tree_value(c1.contents(), c, cur, d, k, read, 0u64));
    }
}

/// A tree that was grown and then changed at one key.
proof fn lemma_radix_updated(
    p0: Map<u64, Seq<u8>>,
    root: u64,
    d0: nat,
    p1: Map<u64, Seq<u8>>,
    cur: u64,
    d: nat,
    p2: Map<u64, Seq<u8>>,
    n: u64,
    key: u64,
    value: u64,
)
    requires
        d0 <= d <= MAX_DEPTH,
        root != PAGE_ID_NONE,
        n != PAGE_ID_NONE,
        key < reach(SLOTS_PER_PAGE as nat, d),
        values_grown(p0, root, d0, p1, cur, d),
        forall|k: nat|
            k < reach(SLOTS_PER_PAGE as nat, d) ==> #[trigger] node_value(p2, n, d, k) == (if k == key {
                value
            } else {
                node_value(p1, cur, d, k)
            }),
    ensures
        radix_updated(p0, root, d0, p2, n, d, key, value),
{
    let c = SLOTS_PER_PAGE as nat;
    lemma_bound_1021(d0);
    lemma_bound_1021(d);
    lemma_mono_1021(d0, d);
    assert forall|k: u64| #[trigger]
        radix_lookup(p2, n, d, k) == (if k == key {
            value
        } else {
            radix_lookup(p0, root, d0, k)
        }) by {
        if k < reach(c, d) {
            assert(node_value(p2, n, d, k as nat) == (if k == key {
                value
            } else {
                node_value(p1, cur, d, k as nat)
            }));
            assert(node_value(p1, cur, d, k as nat) == (if k < reach(c, d0) {
                node_value(p0, root, d0, k as nat)
            } else {
                0u64
            }));
        }
    }
}

/// The depth for a key is in range, and sufficient.
pub proof fn lemma_radix_depth(depth: nat, key: u64)
    requires
        depth <= MAX_DEPTH,
    ensures
        depth <= radix_depth_for(depth, key) <= MAX_DEPTH,
        key < reach(SLOTS_PER_PAGE as nat, radix_depth_for(depth, key)),
    decreases MAX_DEPTH - depth,
{
    if depth >= MAX_DEPTH {
        lemma_bound_1021(depth);
    } else if key >= reach(SLOTS_PER_PAGE as nat, depth) {
        lemma_radix_depth(depth + 1, key);
    }
}

impl RadixU64 {
    /// Make a new root whose child 0 is `old_root`. The depth grows by one.
    fn grow<A: PageSource>(&mut self, cache: &mut PageCache, old_root: u64, source: &mut A) -> (outcome: Result<
        u64,
        ChiselError,
    >)
        requires
            old(cache).inv(),
            old(cache).bounded(),
            old(source).ready(old(cache)),
            old(cache).watermark() + A::growth() <= usize::MAX,
            old(self).spec_depth() < MAX_DEPTH,
        ensures
            cow_step(old(source), old(cache), final(source), final(cache), A::growth()),
            match outcome {
                Ok(n) => {
                    &&& final(self).spec_depth() == old(self).spec_depth() + 1
                    &&& taken(old(source), old(cache), final(source), final(cache), n)
                    &&& final(source).footprint(final(cache)) == old(source).footprint(old(cache)).remove(n)
                    &&& head_of(final(cache).contents()[n]) == radix_head()(1)
                    &&& checksum_ok(final(cache).contents()[n])
                    &&& child_of(final(cache).contents()[n], 0) == old_root
                    &&& forall|i: nat| 0 < i < FANOUT ==> #[trigger] child_of(final(cache).contents()[n], i) == 0
                },
                Err(e) => final(self).spec_depth() == old(self).spec_depth() && overrun(old(cache), final(cache), e, A::growth()),
            },
    {
        let n: u64 = match source.next_page(cache) {
            Ok(n) => n,
            Err(e) => {
                return Err(e);
            },
        };
        let ghost mid = *cache;
        proof {
            cache.lemma_explains(n);
        }
        match cache.get_mut(n) {
            Ok(buf) => {
                *buf = zeroed();
                buf[0] = PageType::MembershipInterior.code();
                buf[1] = PAGE_FORMAT_VERSION_CURRENT;
                write_child(buf, 0, old_root);
                let ghost s = buf@;
                stamp_checksum(buf);
                proof {
                    assert forall|i: nat| i < FANOUT implies #[trigger] child_of(buf@, i) == child_of(s, i) by {
                        lemma_child_outside(s, buf@, i);
                    }
                }
            },
            Err(e) => {
                proof {
                    lemma_cow_look(source, &mid, cache);
                    lemma_cow_chain(old(source), old(cache), source, &mid, source, cache, A::growth(), 0);
                }
                return Err(e);
            },
        }
        self.depth = self.depth + 1;
        proof {
            lemma_cow_edit_taken(old(source), old(cache), source, &mid, cache, n, A::growth());
        }
        Ok(n)
    }

    /// Insert or replace the value of a key. Returns the new root. The tree
    /// grows until it reaches the key; if that fails half-way, the depth
    /// stays where it got to, above a root that is not returned. The pages that
    /// the new tree no longer uses are appended to `freed`.
    pub fn insert<A: PageSource>(
        &mut self,
        cache: &mut PageCache,
        root: u64,
        key: u64,
        value: u64,
        source: &mut A,
        freed: &mut Vec<u64>,
    ) -> (outcome: Result<u64, ChiselError>)
        requires
            old(cache).inv(),
            old(cache).bounded(),
            old(source).ready(old(cache)),
            old(self).spec_depth() <= MAX_DEPTH,
            value != 0,
            root != 0,
            root != PAGE_ID_NONE,
            old(cache).watermark() + radix_insert_requests() * A::growth() <= usize::MAX,
            tree_in(
                old(cache).contents(),
                SLOTS_PER_PAGE as nat,
                root,
                old(self).spec_depth(),
                old(source).footprint(old(cache)).complement(),
            ),
        ensures
            cow_step(
                old(source),
                old(cache),
                final(source),
                final(cache),
                radix_insert_pages(old(self).spec_depth(), key, A::growth()),
            ),
            old(self).spec_depth() <= final(self).spec_depth() <= radix_depth_for(old(self).spec_depth(), key),
            radix_depth_for(old(self).spec_depth(), key) <= MAX_DEPTH,
            outcome matches Ok(n) ==> {
                &&& n != 0 && n != PAGE_ID_NONE
                &&& taken(old(source), old(cache), final(source), final(cache), n)
                &&& final(self).spec_depth() == radix_depth_for(old(self).spec_depth(), key)
                &&& radix_updated(
                    old(cache).contents(),
                    root,
                    old(self).spec_depth(),
                    final(cache).contents(),
                    n,
                    final(self).spec_depth(),
                    key,
                    value,
                )
                &&& tree_headed(
                    old(cache).contents(),
                    SLOTS_PER_PAGE as nat,
                    root,
                    old(self).spec_depth(),
                    radix_head(),
                ) ==> tree_headed(
                    final(cache).contents(),
                    SLOTS_PER_PAGE as nat,
                    n,
                    final(self).spec_depth(),
                    radix_head(),
                )
                &&& tree_kept(
                    old(source),
                    old(cache),
                    final(source),
                    final(cache),
                    SLOTS_PER_PAGE as nat,
                    root,
                    old(self).spec_depth(),
                    n,
                    final(self).spec_depth(),
                )
                &&& freed_ok(
                    old(source),
                    old(cache),
                    final(source),
                    final(cache),
                    SLOTS_PER_PAGE as nat,
                    root,
                    old(self).spec_depth(),
                    n,
                    final(self).spec_depth(),
                    key as nat,
                    old(freed)@,
                    final(freed)@,
                )
            },
            outcome matches Err(e) ==> {
                &&& overrun(
                    old(cache),
                    final(cache),
                    e,
                    radix_insert_pages(old(self).spec_depth(), key, A::growth()),
                ) || key < reach(
                    SLOTS_PER_PAGE as nat,
                    old(self).spec_depth(),
                ) && path_unsound(
                    old(cache),
                    SLOTS_PER_PAGE as nat,
                    root,
                    old(self).spec_depth(),
                    key as nat,
                    e,
                )
                &&& old(freed)@.is_prefix_of(final(freed)@)
            },
    {
        let ghost c = SLOTS_PER_PAGE as nat;
        let ghost h = key as nat;
        let ghost g = A::growth();
        let ghost s0 = *source;
        let ghost c0 = *cache;
        let ghost d0 = self.spec_depth();
        let ghost f0 = freed@;
        let mut current_root: u64 = root;
        proof {
            lemma_grown_none(source, cache, c, root, d0, h);
            lemma_bound_1021(d0);
            lemma_radix_depth(d0, key);
            lemma_cow_look(source, &c0, cache);
            assert((d0 - d0) * g == 0) by (nonlinear_arith);
            lemma_radix_insert_pages(d0, key, g);
        }
        while !self.reaches(key)
            invariant
                c == SLOTS_PER_PAGE as nat,
                h == key as nat,
                g == A::growth(),
                s0 == *old(source),
                c0 == *old(cache),
                d0 == old(self).spec_depth(),
                f0 == old(freed)@,
                freed@ == f0,
                d0 <= self.spec_depth() <= MAX_DEPTH,
                radix_depth_for(d0, key) == radix_depth_for(self.spec_depth(), key),
                c0.watermark() + radix_insert_requests() * g <= usize::MAX,
                cow_step(&s0, &c0, source, cache, ((self.spec_depth() - d0) * g) as nat),
                grown_tree(&s0, &c0, source, cache, c, root, d0, current_root, self.spec_depth(), h),
                values_grown(c0.contents(), root, d0, cache.contents(), current_root, self.spec_depth()),
                tree_headed(c0.contents(), c, root, d0, radix_head()) ==> tree_headed(
                    cache.contents(),
                    c,
                    current_root,
                    self.spec_depth(),
                    radix_head(),
                ),
                self.spec_depth() <= radix_depth_for(d0, key) <= MAX_DEPTH,
            decreases MAX_DEPTH - self.spec_depth(),
        {
            let ghost s1 = *source;
            let ghost c1 = *cache;
            let ghost d = self.spec_depth();
            proof {
                lemma_bound_1021(d);
                lemma_radix_depth(d, key);
                assert((d - d0) * g + g == (d + 1 - d0) * g) by (nonlinear_arith);
                let top = radix_depth_for(d0, key);
                lemma_radix_depth(d + 1, key);
                assert(d + 1 <= top);
                assert((d + 1 - d0) * g <= (top - d0 + 2 * top + 1) * g) by (nonlinear_arith)
                    requires
                        d0 <= d,
                        d + 1 <= top,
                        g >= 0,
                ;
                assert((top - d0 + 2 * top + 1) * g <= 19 * g) by (nonlinear_arith)
                    requires
                        top - d0 + 2 * top + 1 <= 19,
                        g >= 0,
                ;
            }
            match self.grow(cache, current_root, source) {
                Ok(n) => {
                    proof {
                        lemma_cow_chain(&s0, &c0, &s1, &c1, source, cache, ((d - d0) * g) as nat, g);
                        lemma_grown_step(
                            &s0,
                            &c0,
                            &s1,
                            &c1,
                            source,
                            cache,
                            c,
                            root,
                            d0,
                            current_root,
                            d,
                            n,
                            h,
                            ((d - d0) * g) as nat,
                            g,
                        );
                        lemma_values_grown(&s1, &c1, source, cache, current_root, d, n);
                        lemma_mono_1021(d0, d);
                        if tree_headed(c1.contents(), c, current_root, d, radix_head()) {
                            lemma_headed_grown(&s1, &c1, source, cache, c, current_root, d, n, radix_head());
                        }
                        assert(values_grown(c0.contents(), root, d0, cache.contents(), n, d + 1));
                    }
                    current_root = n;
                },
                Err(e) => {
                    proof {
                        lemma_cow_chain(&s0, &c0, &s1, &c1, source, cache, ((d - d0) * g) as nat, g);
                        assert(too_many(&c1, e, g));
                    }
                    return Err(e);
                },
            }
        }
        let ghost s1 = *source;
        let ghost c1 = *cache;
        let ghost d = self.spec_depth();
        let ghost a = ((d - d0) * g) as nat;
        let ghost missing = absent(c1.contents(), c, current_root, d, h);
        let ghost b = ((d + 1 + missing) * g) as nat;
        proof {
            lemma_absent(c1.contents(), c, current_root, d, h);
            lemma_bound_1021(d);
            assert(d == radix_depth_for(d0, key));
            assert(a + b <= (d - d0 + 2 * d + 1) * g) by (nonlinear_arith)
                requires
                    a == (d - d0) * g,
                    b == (d + 1 + missing) * g,
                    missing <= d,
                    g >= 0,
            ;
            assert(a + (2 * d + 1) * g <= 19 * g) by (nonlinear_arith)
                requires
                    a == (d - d0) * g,
                    d - d0 + 2 * d + 1 <= 19,
                    g >= 0,
            ;
        }
        match self.insert_recursive(cache, current_root, key, value, self.depth, source, freed) {
            Ok(n) => {
                proof {
                    let news = choose|news: Seq<u64>| #[trigger]
                        value_written(&s1, &c1, source, cache, current_root, n, d, h, value, news) && path_freed(
                            &s1,
                            &c1,
                            source,
                            cache,
                            c,
                            current_root,
                            d,
                            h,
                            f0,
                            freed@,
                            news,
                        );
                    lemma_path_replaced(
                        &s0,
                        &c0,
                        &s1,
                        &c1,
                        source,
                        cache,
                        c,
                        root,
                        d0,
                        current_root,
                        d,
                        n,
                        h,
                        news,
                        f0,
                        freed@,
                        a,
                        b,
                    );
                    lemma_radix_written(&s1, &c1, source, cache, current_root, n, d, h, value, news, b);
                    lemma_taken_id(&s0, &c0, source, cache, n);
                    if tree_headed(c1.contents(), c, current_root, d, radix_head()) {
                        lemma_headed_kept(&s1, &c1, source, cache, c, current_root, n, d, h, news, radix_head(), b);
                    }
                    lemma_radix_updated(
                        c0.contents(),
                        root,
                        d0,
                        c1.contents(),
                        current_root,
                        d,
                        cache.contents(),
                        n,
                        key,
                        value,
                    );
                }
                Ok(n)
            },
            Err(e) => {
                proof {
                    lemma_cow_chain(&s0, &c0, &s1, &c1, source, cache, a, b);
                    if !too_many(&c1, e, b) && d > d0 {
                        let l = choose|l: nat|
                            l <= d && ((#[trigger] node_at(c1.contents(), c, current_root, d, h, l)) matches Some(id)
                                && !c1.sound(id) && e == c1.read_error(id));
                        assert(l == d);
                        assert(false);
                    }
                }
                Err(e)
            },
        }
    }
}

impl RadixU64 {
    /// Make a key absent. Returns the new root and the value that the key had;
    /// if that is zero, the root is the old one and nothing is copied.
    pub fn delete<A: PageSource>(
        &mut self,
        cache: &mut PageCache,
        root: u64,
        key: u64,
        source: &mut A,
        freed: &mut Vec<u64>,
    ) -> (outcome: Result<(u64, u64), ChiselError>)
        requires
            old(cache).inv(),
            old(cache).bounded(),
            old(source).ready(old(cache)),
            old(self).spec_depth() <= MAX_DEPTH,
            old(cache).watermark() + (MAX_DEPTH + 1) * A::growth() <= usize::MAX,
            root != PAGE_ID_NONE ==> tree_in(
                old(cache).contents(),
                SLOTS_PER_PAGE as nat,
                root,
                old(self).spec_depth(),
                old(source).footprint(old(cache)).complement(),
            ),
        ensures
            cow_step(old(source), old(cache), final(source), final(cache), ((MAX_DEPTH + 1) * A::growth()) as nat),
            final(self).spec_depth() == old(self).spec_depth(),
            outcome matches Ok((n, found)) ==> found == radix_lookup(
                old(cache).contents(),
                root,
                old(self).spec_depth(),
                key,
            ),
            outcome matches Ok((n, found)) ==> found == 0 ==> n == root && final(cache).same_pages(old(cache)) && *final(source) == *old(
                source,
            ) && final(freed)@ == old(freed)@,
            outcome matches Ok((n, found)) ==> found != 0 ==> {
                &&& n != 0 && n != PAGE_ID_NONE
                &&& taken(old(source), old(cache), final(source), final(cache), n)
                &&& radix_updated(
                    old(cache).contents(),
                    root,
                    old(self).spec_depth(),
                    final(cache).contents(),
                    n,
                    final(self).spec_depth(),
                    key,
                    0u64,
                )
                &&& tree_headed(
                    old(cache).contents(),
                    SLOTS_PER_PAGE as nat,
                    root,
                    old(self).spec_depth(),
                    radix_head(),
                ) ==> tree_headed(
                    final(cache).contents(),
                    SLOTS_PER_PAGE as nat,
                    n,
                    final(self).spec_depth(),
                    radix_head(),
                )
                &&& tree_kept(
                    old(source),
                    old(cache),
                    final(source),
                    final(cache),
                    SLOTS_PER_PAGE as nat,
                    root,
                    old(self).spec_depth(),
                    n,
                    final(self).spec_depth(),
                )
                &&& freed_ok(
                    old(source),
                    old(cache),
                    final(source),
                    final(cache),
                    SLOTS_PER_PAGE as nat,
                    root,
                    old(self).spec_depth(),
                    n,
                    final(self).spec_depth(),
                    key as nat,
                    old(freed)@,
                    final(freed)@,
                )
            },
            outcome matches Err(e) ==> {
                &&& root != PAGE_ID_NONE
                &&& key < reach(SLOTS_PER_PAGE as nat, old(self).spec_depth())
                &&& overrun(old(cache), final(cache), e, ((MAX_DEPTH + 1) * A::growth()) as nat) || path_unsound(
                    old(cache),
                    SLOTS_PER_PAGE as nat,
                    root,
                    old(self).spec_depth(),
                    key as nat,
                    e,
                )
                &&& old(freed)@.is_prefix_of(final(freed)@)
            },
    {
        let ghost c = SLOTS_PER_PAGE as nat;
        let ghost h = key as nat;
        let ghost g = A::growth();
        let ghost s0 = *source;
        let ghost c0 = *cache;
        let ghost d = self.spec_depth();
        let ghost f0 = freed@;
        let ghost m = ((d + 1) * g) as nat;
        proof {
            lemma_cow_look(source, &c0, cache);
            lemma_bound_1021(d);
            assert((d + 1) * g <= (MAX_DEPTH + 1) * g) by (nonlinear_arith)
                requires
                    d <= MAX_DEPTH,
                    g >= 0,
            ;
        }
        if root == PAGE_ID_NONE {
            return Ok((root, 0));
        }
        if !self.reaches(key) {
            return Ok((root, 0));
        }
        let outcome = self.delete_recursive(cache, root, key, self.depth, source, freed);
        proof {
            if let Ok((n, found)) = outcome {
                if found != 0 {
                    let news = choose|news: Seq<u64>| #[trigger]
                        value_written(&s0, &c0, source, cache, root, n, d, h, 0u64, news);
                    lemma_spine_tree(&s0, &c0, source, cache, c, root, n, d, h, news, m);
                    lemma_spine_len(&s0, &c0, source, cache, c, root, n, d, h, news);
                    lemma_radix_written(&s0, &c0, source, cache, root, n, d, h, 0u64, news, m);
                    lemma_taken_id(&s0, &c0, source, cache, n);
                    assert(values_grown(c0.contents(), root, d, c0.contents(), root, d));
                    lemma_radix_updated(
                        c0.contents(),
                        root,
                        d,
                        c0.contents(),
                        root,
                        d,
                        cache.contents(),
                        n,
                        key,
                        0u64,
                    );
                    if tree_headed(c0.contents(), c, root, d, radix_head()) {
                        lemma_headed_kept(&s0, &c0, source, cache, c, root, n, d, h, news, radix_head(), m);
                    }
                    lemma_path_ids(c0.contents(), c, root, d, h);
                    let gone = path_ids(c0.contents(), c, root, d, h);
                    let tail = freed@.skip(f0.len() as int);
                    assert(tail =~= gone);
                    assert forall|l: nat| l <= d implies ((#[trigger] node_at(c0.contents(), c, root, d, h, l)) matches Some(id)
                        ==> tail.contains(id)) by {
                        assert(gone[l as int] == node_at(c0.contents(), c, root, d, h, l)->0);
                    }
                    assert forall|id: u64| #[trigger] nodes_of(c0.contents(), c, root, d).contains(id) implies nodes_of(
                        cache.contents(),
                        c,
                        n,
                        d,
                    ).contains(id) || tail.contains(id) by {
                        if path_has(c0.contents(), c, root, d, h, id) {
                            let l = choose|l: nat|
                                l <= d && #[trigger] node_at(c0.contents(), c, root, d, h, l) == Some(id);
                            assert(tail.contains(id));
                        } else {
                            lemma_off_path_stays(&s0, &c0, source, cache, c, root, n, d, h, news, id);
                        }
                    }
                    assert forall|id: u64| #[trigger] s0.footprint(&c0).contains(id) implies source.footprint(cache).contains(
                        id,
                    ) || nodes_of(cache.contents(), c, n, d).contains(id) by {
                        if path_has(cache.contents(), c, n, d, h, id) {
                            let l = choose|l: nat|
                                l <= d && #[trigger] node_at(cache.contents(), c, n, d, h, l) == Some(id);
                            assert(node_at(cache.contents(), c, n, d, h, l) == Some(id));
                        }
                    }
                    assert forall|i: int| f0.len() <= i < freed@.len() implies {
                        &&& exists|l: nat|
                            l <= d && #[trigger] node_at(c0.contents(), c, root, d, h, l) == Some(#[trigger] freed@[i])
                        &&& is_tree(c0.contents(), c, root, d) ==> tree_in(
                            cache.contents(),
                            c,
                            n,
                            d,
                            Set::<u64>::full().remove(freed@[i]),
                        )
                    } by {
                        let l = (i - f0.len()) as nat;
                        assert(gone[l as int] == freed@[i]);
                        assert(node_at(c0.contents(), c, root, d, h, l) == Some(freed@[i]));
                    }
                }
            }
        }
        outcome
    }

    /// Make an empty leaf the root, at depth 0.
    pub fn create_root(&mut self, cache: &mut PageCache) -> (outcome: Result<u64, ChiselError>)
        requires
            old(cache).inv(),
            old(cache).bounded(),
            0 < old(cache).watermark() < usize::MAX,
        ensures
            final(self).spec_depth() == 0,
            final(cache).inv(),
            final(cache).bounded(),
            extended(old(cache), final(cache), 1),
            outcome matches Ok(n) ==> {
                &&& n == old(cache).watermark()
                &&& checksum_ok(final(cache).contents()[n])
                &&& tree_headed(final(cache).contents(), SLOTS_PER_PAGE as nat, n, 0, radix_head())
                &&& forall|k: u64| #[trigger] radix_lookup(final(cache).contents(), n, 0, k) == 0
            },
            outcome matches Err(e) ==> overrun(old(cache), final(cache), e, 1),
    {
        self.depth = 0;
        let page_id: u64 = match cache.new_page() {
            Ok(id) => id,
            Err(e) => {
                proof {
                    lemma_extended_by_one(old(cache), cache);
                }
                return Err(e);
            },
        };
        proof {
            cache.lemma_explains(page_id);
        }
        match cache.get_mut(page_id) {
            Ok(buf) => {
                Self::init_node(buf, PageType::MembershipLeaf);
            },
            Err(e) => {
                proof {
                    lemma_extended_by_one(old(cache), cache);
                }
                return Err(e);
            },
        }
        proof {
            lemma_reach_1021();
            lemma_extended_by_one(old(cache), cache);
            assert forall|k: u64| #[trigger] radix_lookup(cache.contents(), page_id, 0, k) == 0 by {
                if k < reach(1021, 0) {
                    assert(node_at(cache.contents(), 1021, page_id, 0, k as nat, 0) == Some(page_id));
                    assert(child_of(page_at(cache.contents(), page_id), slot_of(1021, 0, k as nat)) == 0);
                }
            }
        }
        Ok(page_id)
    }
}

/// The depth found by walking down the leftmost pages from `page`, which is
/// `depth` levels down; `Err` is the page at which the walk finds the tree
/// corrupt: an interior page below the deepest level.
pub open spec fn radix_left_depth(pages: Map<u64, Seq<u8>>, page: u64, depth: nat) -> Result<nat, u64>
    decreases MAX_DEPTH + 1 - depth,
{
    let s = page_at(pages, page);
    if s[0] != PageType::MembershipInterior.spec_code() {
        Ok(depth)
    } else if depth >= MAX_DEPTH {
        Err(page)
    } else if child_of(s, 0) == 0 {
        Ok(depth + 1)
    } else {
        radix_left_depth(pages, child_of(s, 0), depth + 1)
    }
}

/// A depth is found no higher up than where the walk is.
proof fn lemma_radix_left_depth_least(pages: Map<u64, Seq<u8>>, page: u64, depth: nat)
    requires
        depth <= MAX_DEPTH,
    ensures
        radix_left_depth(pages, page, depth) matches Ok(d) ==> depth <= d,
    decreases MAX_DEPTH - depth,
{
    if depth < MAX_DEPTH {
        lemma_radix_left_depth_least(pages, child_of(page_at(pages, page), 0), depth + 1);
    }
}

/// The page `i` levels down along the leftmost pointers.
pub open spec fn radix_left_page(pages: Map<u64, Seq<u8>>, root: u64, i: nat) -> u64
    decreases i,
{
    if i == 0 {
        root
    } else {
        child_of(page_at(pages, radix_left_page(pages, root, (i - 1) as nat)), 0)
    }
}

/// The walk down the leftmost pages of a tree whose pages begin as they
/// should finds its depth.
proof fn lemma_left_depth(pages: Map<u64, Seq<u8>>, page: u64, level: nat, depth: nat)
    requires
        level + depth <= MAX_DEPTH,
        tree_headed(pages, SLOTS_PER_PAGE as nat, page, level, radix_head()),
    ensures
        radix_left_depth(pages, page, depth) == Ok::<nat, u64>(level + depth),
    decreases level,
{
    let c = SLOTS_PER_PAGE as nat;
    lemma_reach_pos(c, level);
    assert(node_at(pages, c, page, level, 0, level) == Some(page));
    assert(head_of(page_at(pages, page)) == radix_head()(level));
    if level > 0 {
        let down = (level - 1) as nat;
        let span = reach(c, down);
        lemma_descend(c, level, 0);
        vstd::arithmetic::div_mod::lemma_basic_div(0, span as int);
        vstd::arithmetic::div_mod::lemma_small_mod(0, span);
        let child = child_of(page_at(pages, page), 0);
        assert(child != 0);
        assert forall|k: nat, l: nat| k < span && l <= down implies ((#[trigger] node_at(
            pages,
            c,
            child,
            down,
            k,
            l,
        )) matches Some(id) ==> head_of(page_at(pages, id)) == radix_head()(l)) by {
            lemma_ascend(c, level, 0, k);
            assert(node_at(pages, c, page, level, k, l) == node_at(pages, c, child, down, k, l));
        }
        lemma_left_depth(pages, child, down, depth + 1);
    }
}

/// The depth of a tree that was built by creating a root, inserting and
/// deleting is the one that walking down its leftmost pages finds.
pub proof fn law_radix_depth_is_recovered(pages: Map<u64, Seq<u8>>, root: u64, depth: nat)
    requires
        depth <= MAX_DEPTH,
        tree_headed(pages, SLOTS_PER_PAGE as nat, root, depth, radix_head()),
    ensures
        radix_left_depth(pages, root, 0) == Ok::<nat, u64>(depth),
{
    lemma_left_depth(pages, root, depth, 0);
}

impl RadixU64 {
    /// Find the depth of the tree by walking down its leftmost pages.
    pub fn recover_depth(cache: &mut PageCache, root: u64) -> (outcome: Result<u32, ChiselError>)
        requires
            old(cache).inv(),
        ensures
            final(cache).inv(),
            final(cache).same_pages(old(cache)),
            old(cache).all_sound() ==> final(cache).all_sound(),
            old(cache).bounded() ==> final(cache).bounded(),
            root == PAGE_ID_NONE ==> outcome == Ok::<u32, ChiselError>(0),
            root != PAGE_ID_NONE ==> (outcome matches Ok(depth) ==> radix_left_depth(old(cache).contents(), root, 0) == Ok::<
                nat,
                u64,
            >(depth as nat)),
            outcome matches Err(e) ==> {
                ||| radix_left_depth(old(cache).contents(), root, 0) matches Err(page_id) && e == ChiselError::CorruptPage {
                    page_id,
                }
                ||| exists|i: nat|
                    i <= MAX_DEPTH && (radix_left_depth(old(cache).contents(), root, 0) matches Ok(d) ==> i <= d) && old(
                        cache,
                    ).explains(e, #[trigger] radix_left_page(old(cache).contents(), root, i))
            },
    {
        if root == PAGE_ID_NONE {
            return Ok(0);
        }
        let ghost pages = cache.contents();
        let mut depth: u32 = 0;
        let mut current: u64 = root;
        loop
            invariant
                cache.inv(),
                cache.same_pages(old(cache)),
                old(cache).all_sound() ==> cache.all_sound(),
                old(cache).bounded() ==> cache.bounded(),
                pages == old(cache).contents(),
                root != PAGE_ID_NONE,
                depth <= MAX_DEPTH,
                current == radix_left_page(pages, root, depth as nat),
                radix_left_depth(pages, root, 0) == radix_left_depth(pages, current, depth as nat),
            decreases MAX_DEPTH - depth,
        {
            proof {
                cache.lemma_explains(current);
                old(cache).lemma_same_explains(&*cache, current);
            }
            let buf: &[u8; PAGE_SIZE] = match cache.get(current) {
                Ok(buf) => buf,
                Err(e) => {
                    proof {
                        lemma_radix_left_depth_least(pages, current, depth as nat);
                    }
                    return Err(e);
                },
            };
            assert(buf@ == page_at(pages, current));
            if buf[0] != PageType::MembershipInterior.code() {
                return Ok(depth);
            }
            depth = depth + 1;
            if depth > MAX_DEPTH {
                return Err(ChiselError::CorruptPage { page_id: current });
            }
            let child: u64 = read_child(buf, 0);
            if child == 0 {
                return Ok(depth);
            }
            current = child;
        }
    }
}

impl RadixU64 {
    /// All pairs of a key and its value, in ascending order of the keys.
    pub fn iter(&self, cache: &mut PageCache, root: u64) -> (outcome: Result<
        Vec<(u64, u64)>,
        ChiselError,
    >)
        requires
            old(cache).inv(),
            self.spec_depth() <= MAX_DEPTH,
        ensures
            final(cache).inv(),
            final(cache).same_pages(old(cache)),
            old(cache).bounded() ==> final(cache).bounded(),
            root == PAGE_ID_NONE ==> (outcome matches Ok(list) && list@ == Seq::<(u64, u64)>::empty()),
            root != PAGE_ID_NONE ==> match outcome {
                Ok(list) => lists_all(
                    old(cache).contents(),
                    SLOTS_PER_PAGE as nat,
                    root,
                    self.spec_depth(),
                    radix_reading(),
                    0,
                    list@,
                ),
                Err(e) => tree_explains(old(cache), SLOTS_PER_PAGE as nat, root, self.spec_depth(), e),
            },
    {
        let mut result: Vec<(u64, u64)> = Vec::new();
        if root == PAGE_ID_NONE {
            return Ok(result);
        }
        match self.iter_recursive(cache, root, 0, self.depth, &mut result) {
            Ok(_) => {
                assert(result@.skip(0) =~= result@);
                Ok(result)
            },
            Err(e) => Err(e),
        }
    }

    /// Append the pairs below a page.
    fn iter_recursive(
        &self,
        cache: &mut PageCache,
        page_id: u64,
        base_key: u64,
        level: u32,
        result: &mut Vec<(u64, u64)>,
    ) -> (outcome: Result<(), ChiselError>)
        requires
            old(cache).inv(),
            level <= MAX_DEPTH,
        ensures
            final(cache).inv(),
            final(cache).same_pages(old(cache)),
            old(cache).bounded() ==> final(cache).bounded(),
            match outcome {
                Ok(_) => {
                    &&& old(result)@.is_prefix_of(final(result)@)
                    &&& lists_all(
                        old(cache).contents(),
                        SLOTS_PER_PAGE as nat,
                        page_id,
                        level as nat,
                        radix_reading(),
                        base_key as nat,
                        final(result)@.skip(old(result)@.len() as int),
                    )
                },
                Err(e) => tree_explains(old(cache), SLOTS_PER_PAGE as nat, page_id, level as nat, e),
            },
        decreases level,
    {
        let ghost c = SLOTS_PER_PAGE as nat;
        let ghost lv = level as nat;
        let ghost r = radix_reading();
        let ghost base = base_key as nat;
        let ghost pages = cache.contents();
        let ghost c0 = *cache;
        let ghost r0 = result@;
        let ghost mut keys: Seq<nat> = Seq::empty();
        proof {
            lemma_reach_1021();
            lemma_bound_1021(lv);
            lemma_lists_empty(pages, c, page_id, lv, r, base);
            assert(result@ =~= r0 + Seq::<(u64, u64)>::empty());
            cache.lemma_explains(page_id);
        }
        let ghost mut out: Seq<(u64, u64)> = Seq::empty();
        if level == 0 {
            let buf: &[u8; PAGE_SIZE] = match cache.get(page_id) {
                Ok(buf) => buf,
                Err(e) => {
                    proof {
                        lemma_top_explains(&c0, c, page_id, lv, e);
                    }
                    return Err(e);
                },
            };
            let mut i: usize = 0;
            while i < SLOTS_PER_PAGE
                invariant
                    i <= SLOTS_PER_PAGE,
                    c == SLOTS_PER_PAGE as nat,
                    r == radix_reading(),
                    base == base_key as nat,
                    buf@ == page_at(pages, page_id),
                    lists(pages, c, page_id, 0, r, base, i as nat, keys, out),
                    result@ == r0 + out,
                decreases SLOTS_PER_PAGE - i,
            {
                let value: u64 = read_child(buf, i);
                proof {
                    assert(node_at(pages, c, page_id, 0, i as nat, 0) == Some(page_id));
                    assert(slot_of(c, 0, i as nat) == i);
                    assert(r.value(pages, c, page_id, 0, i as nat) == value);
                }
                if value != 0 {
                    result.push((base_key.saturating_add(i as u64), value));
                    proof {
                        lemma_lists_push(pages, c, page_id, 0, r, base, i as nat, keys, out);
                        out = out.push((saturated(base + i as nat), value));
                        keys = keys.push(i as nat);
                        assert(result@ =~= r0 + out);
                    }
                } else {
                    proof {
                        lemma_lists_skip(pages, c, page_id, 0, r, base, i as nat, i as nat + 1, keys, out);
                    }
                }
                i = i + 1;
            }
            proof {
                assert(result@.skip(r0.len() as int) =~= out);
                assert(r0.is_prefix_of(result@));
            }
            return Ok(());
        }
        let ghost down = (level - 1) as nat;
        let ghost span = reach(c, down);
        proof {
            lemma_bound_1021(down);
        }
        let child_span: u64 = self.span_at_level(level);
        let children: Vec<u64> = match read_children(cache, page_id) {
            Ok(children) => children,
            Err(e) => {
                proof {
                    lemma_top_explains(&c0, c, page_id, lv, e);
                }
                return Err(e);
            },
        };
        let mut i: usize = 0;
        proof {
            assert(0 * span == 0) by (nonlinear_arith);
        }
        while i < FANOUT
            invariant
                i <= FANOUT,
                0 < level <= MAX_DEPTH,
                c == SLOTS_PER_PAGE as nat,
                lv == level as nat,
                down == (level - 1) as nat,
                span == reach(c, down),
                child_span == span,
                r == radix_reading(),
                base == base_key as nat,
                cache.inv(),
                c0.inv(),
                c0 == *old(cache),
                pages == c0.contents(),
                cache.same_pages(&c0),
                c0.bounded() ==> cache.bounded(),
                children@.len() == FANOUT,
                forall|j: int| 0 <= j < FANOUT ==> #[trigger] children@[j] == child_of(page_at(pages, page_id), j as nat),
                lists(pages, c, page_id, lv, r, base, i as nat * span, keys, out),
                result@ == r0 + out,
            decreases FANOUT - i,
        {
            let child: u64 = children[i];
            if child != 0 {
                let next_base: u64 = child_base(base_key, i as u64, child_span);
                let ghost before = *cache;
                let ghost r1 = result@;
                match self.iter_recursive(cache, child, next_base, level - 1, result) {
                    Ok(_) => {
                        proof {
                            let sub_out = result@.skip(r1.len() as int);
                            let sub_keys = choose|k: Seq<nat>| #[trigger]
                                lists(pages, c, child, down, r, next_base as nat, reach(c, down), k, sub_out);
                            assert(base_key + i as u64 * child_span == base + i as nat * span);
                            lemma_lists_rebase(
                                pages,
                                c,
                                child,
                                down,
                                r,
                                base + i as nat * span,
                                span,
                                sub_keys,
                                sub_out,
                            );
                            lemma_lists_child(
                                pages,
                                c,
                                page_id,
                                lv,
                                r,
                                base,
                                i as nat,
                                child,
                                span,
                                keys,
                                out,
                                sub_keys,
                                sub_out,
                            );
                            assert(i as nat * span + span == (i + 1) as nat * span) by (nonlinear_arith);
                            assert(result@ =~= r1 + sub_out);
                            assert(result@ =~= r0 + (out + sub_out));
                            keys = keys + sub_keys.map(|j: int, k: nat| i as nat * reach(c, (lv - 1) as nat) + k);
                            out = out + sub_out;
                        }
                    },
                    Err(e) => {
                        proof {
                            lemma_same_tree_explains(&c0, &before, c, child, down, e);
                            lemma_child_explains(&c0, c, page_id, lv, i as nat, e);
                        }
                        return Err(e);
                    },
                }
            } else {
                proof {
                    lemma_lists_gap(pages, c, page_id, lv, r, base, i as nat, keys, out);
                    assert((i + 1) as nat == i as nat + 1);
                }
            }
            i = i + 1;
        }
        proof {
            assert(result@.skip(r0.len() as int) =~= out);
            assert(r0.is_prefix_of(result@));
        }
        Ok(())
    }
}

/// Whatever a copy-on-write operation does, a tree outside the footprint of
/// its page source says the same as before: a reader of the old root sees the
/// old tree.
pub proof fn law_old_tree_stays<A: PageSource>(
    source0: &A,
    cache0: &PageCache,
    source1: &A,
    cache1: &PageCache,
    n: nat,
    root: u64,
    depth: nat,
    key: u64,
)
    requires
        cow_step(source0, cache0, source1, cache1, n),
        tree_in(
            cache0.contents(),
            SLOTS_PER_PAGE as nat,
            root,
            depth,
            source0.footprint(cache0).complement(),
        ),
    ensures
        radix_lookup(cache1.contents(), root, depth, key) == radix_lookup(cache0.contents(), root, depth, key),
{
    lemma_old_values(source0, cache0, source1, cache1, n, root, depth);
}

/// A tree outside the footprint of a page source keeps its values.
pub proof fn lemma_old_values<A: PageSource>(
    source0: &A,
    cache0: &PageCache,
    source1: &A,
    cache1: &PageCache,
    n: nat,
    root: u64,
    depth: nat,
)
    requires
        cow_step(source0, cache0, source1, cache1, n),
        tree_in(
            cache0.contents(),
            SLOTS_PER_PAGE as nat,
            root,
            depth,
            source0.footprint(cache0).complement(),
        ),
    ensures
        forall|k: nat|
            k < reach(SLOTS_PER_PAGE as nat, depth) ==> #[trigger] node_value(cache1.contents(), root, depth, k)
                == node_value(cache0.contents(), root, depth, k),
        radix_within(cache1.contents(), root, depth) == radix_within(cache0.contents(), root, depth),
{
    let c = SLOTS_PER_PAGE as nat;
    let p0 = cache0.contents();
    let p1 = cache1.contents();
    let out = source0.footprint(cache0).complement();
    lemma_good_kept(source0, cache0, source1, cache1, n);
    lemma_tree_same(p0, p1, c, root, depth, out);
    assert forall|k: nat| k < reach(c, depth) implies #[trigger] node_value(p1, root, depth, k) == node_value(
        p0,
        root,
        depth,
        k,
    ) by {
        assert(node_at(p0, c, root, depth, k, 0) == node_at(p1, c, root, depth, k, 0));
        if node_at(p0, c, root, depth, k, 0) is Some {
            assert(out.contains(node_at(p0, c, root, depth, k, 0)->0));
        }
    }
    if radix_within(p0, root, depth) {
        assert forall|k: nat| u64::MAX < k < reach(c, depth) implies #[trigger] node_value(p1, root, depth, k) == 0 by {
            assert(node_value(p0, root, depth, k) == 0);
        }
    }
    if radix_within(p1, root, depth) {
        assert forall|k: nat| u64::MAX < k < reach(c, depth) implies #[trigger] node_value(p0, root, depth, k) == 0 by {
            assert(node_value(p1, root, depth, k) == 0);
        }
    }
}

/// The enumeration of a tree holds a pair of key and value exactly if looking
/// up the key gives the value and it is not zero, and its keys ascend. Of the
/// last 64-bit number this holds unless the tree has something beyond it, which
/// the enumeration would list there.
pub proof fn law_radix_listing_is_lookup(
    pages: Map<u64, Seq<u8>>,
    root: u64,
    depth: nat,
    list: Seq<(u64, u64)>,
)
    requires
        root != PAGE_ID_NONE,
        depth <= MAX_DEPTH,
        lists_all(pages, SLOTS_PER_PAGE as nat, root, depth, radix_reading(), 0, list),
    ensures
        forall|k: u64, value: u64|
            k < u64::MAX || radix_within(pages, root, depth) ==> (#[trigger] list.contains((k, value))
                <==> radix_lookup(pages, root, depth, k) == value && value != 0),
        forall|k: u64, value: u64|
            radix_lookup(pages, root, depth, k) == value && value != 0 ==> #[trigger] list.contains((k, value)),
        forall|i: int, j: int| 0 <= i < j < list.len() ==> (#[trigger] list[i]).0 <= (#[trigger] list[j]).0,
        forall|i: int, j: int|
            0 <= i < j < list.len() && (list[j].0 < u64::MAX || radix_within(pages, root, depth)) ==> (
            #[trigger] list[i]).0 < (#[trigger] list[j]).0,
        depth < MAX_DEPTH ==> radix_within(pages, root, depth),
{
    let c = SLOTS_PER_PAGE as nat;
    let r = radix_reading();
    let keys = choose|keys: Seq<nat>| #[trigger] lists(pages, c, root, depth, r, 0, reach(c, depth), keys, list);
    lemma_lists_facts(pages, c, root, depth, r, 0, reach(c, depth), keys, list);
    lemma_bound_1021(depth);
    assert forall|i: int| radix_within(pages, root, depth) && 0 <= i < keys.len() implies #[trigger] keys[i] <= u64::MAX by {
        assert(node_value(pages, root, depth, keys[i]) == r.value(pages, c, root, depth, keys[i]));
        assert(r.present(pages, c, root, depth, keys[i]));
    }
    assert forall|k: u64, value: u64|
        (k < u64::MAX || radix_within(pages, root, depth) ==> (#[trigger] list.contains((k, value)) <==> radix_lookup(
            pages,
            root,
            depth,
            k,
        ) == value && value != 0)) && (radix_lookup(pages, root, depth, k) == value && value != 0 ==> list.contains(
            (k, value),
        )) by {
        if (k < u64::MAX || radix_within(pages, root, depth)) && list.contains((k, value)) {
            let i = list.index_of((k, value));
            assert(keys[i] < reach(c, depth));
            assert(saturated(keys[i]) == k);
            assert(keys[i] == k);
            assert(node_value(pages, root, depth, k as nat) == r.value(pages, c, root, depth, k as nat));
        }
        if radix_lookup(pages, root, depth, k) == value && value != 0 {
            assert(node_value(pages, root, depth, k as nat) == r.value(pages, c, root, depth, k as nat));
            assert(r.present(pages, c, root, depth, k as nat));
            let i = keys.index_of(k as nat);
            assert(list[i] == (k, value));
        }
    }
    assert forall|i: int, j: int| 0 <= i < j < list.len() implies (#[trigger] list[i]).0 <= (#[trigger] list[j]).0 && (
    list[j].0 < u64::MAX || radix_within(pages, root, depth) ==> list[i].0 < list[j].0) by {
        assert(keys[i] < keys[j]);
        assert(keys[j] < reach(c, depth));
        assert(saturated(keys[i]) == list[i].0);
        assert(saturated(keys[j]) == list[j].0);
    }
}

impl RadixU64 {
    /// The first `limit` pairs of a key and its value, in ascending order of
    /// the keys; all of them if there are no more.
    pub fn iter_bounded(&self, cache: &mut PageCache, root: u64, limit: usize) -> (outcome: Result<
        Vec<(u64, u64)>,
        ChiselError,
    >)
        requires
            old(cache).inv(),
            self.spec_depth() <= MAX_DEPTH,
        ensures
            final(cache).inv(),
            final(cache).same_pages(old(cache)),
            old(cache).bounded() ==> final(cache).bounded(),
            root == PAGE_ID_NONE || limit == 0 ==> (outcome matches Ok(list) && list@ == Seq::<(u64, u64)>::empty()),
            root != PAGE_ID_NONE ==> match outcome {
                Ok(list) => lists_first(
                    old(cache).contents(),
                    SLOTS_PER_PAGE as nat,
                    root,
                    self.spec_depth(),
                    radix_reading(),
                    0,
                    limit as nat,
                    list@,
                ),
                Err(e) => tree_explains(old(cache), SLOTS_PER_PAGE as nat, root, self.spec_depth(), e),
            },
    {
        let mut out: Vec<(u64, u64)> = Vec::new();
        if root == PAGE_ID_NONE || limit == 0 {
            proof {
                let c = SLOTS_PER_PAGE as nat;
                lemma_lists_empty(cache.contents(), c, root, self.spec_depth(), radix_reading(), 0);
                assert(out@ =~= Seq::<(u64, u64)>::empty());
            }
            return Ok(out);
        }
        match self.iter_bounded_recursive(cache, root, 0, self.depth, limit, &mut out) {
            Ok(_) => {
                assert(out@.skip(0) =~= out@);
                Ok(out)
            },
            Err(e) => Err(e),
        }
    }

    /// Append the pairs below a page until `limit` pairs are collected.
    fn iter_bounded_recursive(
        &self,
        cache: &mut PageCache,
        page: u64,
        base: u64,
        level: u32,
        limit: usize,
        out: &mut Vec<(u64, u64)>,
    ) -> (outcome: Result<(), ChiselError>)
        requires
            old(cache).inv(),
            level <= MAX_DEPTH,
            old(out)@.len() <= limit,
        ensures
            final(cache).inv(),
            final(cache).same_pages(old(cache)),
            old(cache).bounded() ==> final(cache).bounded(),
            match outcome {
                Ok(_) => {
                    &&& old(out)@.is_prefix_of(final(out)@)
                    &&& lists_first(
                        old(cache).contents(),
                        SLOTS_PER_PAGE as nat,
                        page,
                        level as nat,
                        radix_reading(),
                        base as nat,
                        (limit - old(out)@.len()) as nat,
                        final(out)@.skip(old(out)@.len() as int),
                    )
                },
                Err(e) => tree_explains(old(cache), SLOTS_PER_PAGE as nat, page, level as nat, e),
            },
        decreases level,
    {
        let ghost c = SLOTS_PER_PAGE as nat;
        let ghost lv = level as nat;
        let ghost r = radix_reading();
        let ghost b = base as nat;
        let ghost pages = cache.contents();
        let ghost c0 = *cache;
        let ghost r0 = out@;
        let ghost mut keys: Seq<nat> = Seq::empty();
        let ghost mut part: Seq<(u64, u64)> = Seq::empty();
        proof {
            lemma_reach_1021();
            lemma_bound_1021(lv);
            lemma_lists_empty(pages, c, page, lv, r, b);
            assert(out@ =~= r0 + part);
            assert(out@.skip(r0.len() as int) =~= part);
            cache.lemma_explains(page);
        }
        if out.len() >= limit {
            return Ok(());
        }
        if level == 0 {
            let buf: &[u8; PAGE_SIZE] = match cache.get(page) {
                Ok(buf) => buf,
                Err(e) => {
                    proof {
                        lemma_top_explains(&c0, c, page, lv, e);
                    }
                    return Err(e);
                },
            };
            let mut i: usize = 0;
            while i < SLOTS_PER_PAGE && out.len() < limit
                invariant
                    i <= SLOTS_PER_PAGE,
                    c == SLOTS_PER_PAGE as nat,
                    r == radix_reading(),
                    b == base as nat,
                    buf@ == page_at(pages, page),
                    lists(pages, c, page, 0, r, b, i as nat, keys, part),
                    out@ == r0 + part,
                    out@.len() <= limit,
                decreases SLOTS_PER_PAGE - i,
            {
                let value: u64 = read_child(buf, i);
                proof {
                    assert(node_at(pages, c, page, 0, i as nat, 0) == Some(page));
                    assert(slot_of(c, 0, i as nat) == i);
                    assert(r.value(pages, c, page, 0, i as nat) == value);
                }
                if value != 0 {
                    out.push((base.saturating_add(i as u64), value));
                    proof {
                        lemma_lists_push(pages, c, page, 0, r, b, i as nat, keys, part);
                        part = part.push((saturated(b + i as nat), value));
                        keys = keys.push(i as nat);
                        assert(out@ =~= r0 + part);
                    }
                } else {
                    proof {
                        lemma_lists_skip(pages, c, page, 0, r, b, i as nat, i as nat + 1, keys, part);
                    }
                }
                i = i + 1;
            }
            proof {
                assert(out@.skip(r0.len() as int) =~= part);
                assert(r0.is_prefix_of(out@));
            }
            return Ok(());
        }
        let ghost down = (level - 1) as nat;
        let ghost span = reach(c, down);
        proof {
            lemma_bound_1021(down);
        }
        let child_span: u64 = self.span_at_level(level);
        let children: Vec<u64> = match read_children(cache, page) {
            Ok(children) => children,
            Err(e) => {
                proof {
                    lemma_top_explains(&c0, c, page, lv, e);
                }
                return Err(e);
            },
        };
        let mut i: usize = 0;
        let ghost mut bound: nat = 0;
        proof {
            assert(0 * span == 0) by (nonlinear_arith);
        }
        while i < FANOUT && out.len() < limit
            invariant
                i <= FANOUT,
                0 < level <= MAX_DEPTH,
                c == SLOTS_PER_PAGE as nat,
                lv == level as nat,
                down == (level - 1) as nat,
                span == reach(c, down),
                child_span == span,
                r == radix_reading(),
                b == base as nat,
                cache.inv(),
                c0.inv(),
                c0 == *old(cache),
                pages == c0.contents(),
                cache.same_pages(&c0),
                c0.bounded() ==> cache.bounded(),
                children@.len() == FANOUT,
                forall|j: int| 0 <= j < FANOUT ==> #[trigger] children@[j] == child_of(page_at(pages, page), j as nat),
                bound <= i as nat * span,
                bound == i as nat * span || out@.len() == limit,
                lists(pages, c, page, lv, r, b, bound, keys, part),
                out@ == r0 + part,
                out@.len() <= limit,
            decreases FANOUT - i,
        {
            let child: u64 = children[i];
            if child != 0 {
                let next_base: u64 = child_base(base, i as u64, child_span);
                let ghost before = *cache;
                let ghost r1 = out@;
                match self.iter_bounded_recursive(cache, child, next_base, level - 1, limit, out) {
                    Ok(_) => {
                        proof {
                            let sub_out = out@.skip(r1.len() as int);
                            let rest = (limit - r1.len()) as nat;
                            let (sub_bound, sub_keys) = choose|m: nat, k: Seq<nat>|
                                m <= reach(c, down) && (m == reach(c, down) || sub_out.len() == rest) && #[trigger] lists(
                                    pages,
                                    c,
                                    child,
                                    down,
                                    r,
                                    next_base as nat,
                                    m,
                                    k,
                                    sub_out,
                                );
                            assert(base + i as u64 * child_span == b + i as nat * span);
                            lemma_lists_rebase(
                                pages,
                                c,
                                child,
                                down,
                                r,
                                b + i as nat * span,
                                sub_bound,
                                sub_keys,
                                sub_out,
                            );
                            lemma_lists_child(
                                pages,
                                c,
                                page,
                                lv,
                                r,
                                b,
                                i as nat,
                                child,
                                sub_bound,
                                keys,
                                part,
                                sub_keys,
                                sub_out,
                            );
                            assert(i as nat * span + span == (i + 1) as nat * span) by (nonlinear_arith);
                            assert(out@ =~= r1 + sub_out);
                            assert(out@ =~= r0 + (part + sub_out));
                            keys = keys + sub_keys.map(|j: int, k: nat| i as nat * reach(c, (lv - 1) as nat) + k);
                            part = part + sub_out;
                            bound = i as nat * span + sub_bound;
                        }
                    },
                    Err(e) => {
                        proof {
                            lemma_same_tree_explains(&c0, &before, c, child, down, e);
                            lemma_child_explains(&c0, c, page, lv, i as nat, e);
                        }
                        return Err(e);
                    },
                }
            } else {
                proof {
                    lemma_lists_gap(pages, c, page, lv, r, b, i as nat, keys, part);
                    bound = (i + 1) as nat * span;
                }
            }
            i = i + 1;
        }
        proof {
            assert(i as nat * span <= FANOUT as nat * span) by (nonlinear_arith)
                requires
                    i <= FANOUT,
            ;
            assert(out@.skip(r0.len() as int) =~= part);
            assert(r0.is_prefix_of(out@));
        }
        Ok(())
    }

    /// Whether any key is present.
    pub fn any_present(&self, cache: &mut PageCache, root: u64) -> (outcome: Result<bool, ChiselError>)
        requires
            old(cache).inv(),
            self.spec_depth() <= MAX_DEPTH,
        ensures
            final(cache).inv(),
            final(cache).same_pages(old(cache)),
            old(cache).bounded() ==> final(cache).bounded(),
            root == PAGE_ID_NONE ==> outcome == Ok::<bool, ChiselError>(false),
            root != PAGE_ID_NONE ==> match outcome {
                Ok(found) => found == any_below(old(cache).contents(), root, self.spec_depth()),
                Err(e) => tree_explains(old(cache), SLOTS_PER_PAGE as nat, root, self.spec_depth(), e),
            },
    {
        if root == PAGE_ID_NONE {
            return Ok(false);
        }
        self.any_recursive(cache, root, self.depth)
    }

    /// Whether a leaf holds a value other than zero.
    fn any_slot(buf: &[u8; PAGE_SIZE]) -> (found: bool)
        ensures
            found == exists|k: nat| k < SLOTS_PER_PAGE && #[trigger] child_of(buf@, k) != 0,
    {
        let mut i: usize = 0;
        while i < SLOTS_PER_PAGE
            invariant
                i <= SLOTS_PER_PAGE,
                forall|k: nat| k < i ==> #[trigger] child_of(buf@, k) == 0,
            decreases SLOTS_PER_PAGE - i,
        {
            if read_child(buf, i) != 0 {
                assert(child_of(buf@, i as nat) != 0);
                return true;
            }
            i = i + 1;
        }
        false
    }

    /// Whether any key below a page is present.
    fn any_recursive(&self, cache: &mut PageCache, page: u64, level: u32) -> (outcome: Result<bool, ChiselError>)
        requires
            old(cache).inv(),
            level <= MAX_DEPTH,
        ensures
            final(cache).inv(),
            final(cache).same_pages(old(cache)),
            old(cache).bounded() ==> final(cache).bounded(),
            match outcome {
                Ok(found) => found == any_below(old(cache).contents(), page, level as nat),
                Err(e) => tree_explains(old(cache), SLOTS_PER_PAGE as nat, page, level as nat, e),
            },
        decreases level,
    {
        let ghost c = SLOTS_PER_PAGE as nat;
        let ghost lv = level as nat;
        let ghost r = radix_reading();
        let ghost pages = cache.contents();
        let ghost c0 = *cache;
        proof {
            lemma_reach_1021();
            cache.lemma_explains(page);
        }
        if level == 0 {
            let buf: &[u8; PAGE_SIZE] = match cache.get(page) {
                Ok(buf) => buf,
                Err(e) => {
                    proof {
                        lemma_top_explains(&c0, c, page, lv, e);
                    }
                    return Err(e);
                },
            };
            let found: bool = Self::any_slot(buf);
            proof {
                assert forall|k: nat| k < SLOTS_PER_PAGE implies #[trigger] node_value(pages, page, 0, k) == child_of(
                    buf@,
                    k,
                ) by {}
                if found {
                    let k = choose|k: nat| k < SLOTS_PER_PAGE && #[trigger] child_of(buf@, k) != 0;
                    assert(node_value(pages, page, 0, k) != 0);
                }
            }
            return Ok(found);
        }
        let ghost down = (level - 1) as nat;
        let ghost span = reach(c, down);
        let children: Vec<u64> = match read_children(cache, page) {
            Ok(children) => children,
            Err(e) => {
                proof {
                    lemma_top_explains(&c0, c, page, lv, e);
                }
                return Err(e);
            },
        };
        let mut i: usize = 0;
        proof {
            assert(0 * span == 0) by (nonlinear_arith);
        }
        while i < FANOUT
            invariant
                i <= FANOUT,
                0 < level <= MAX_DEPTH,
                c == SLOTS_PER_PAGE as nat,
                lv == level as nat,
                down == (level - 1) as nat,
                span == reach(c, down),
                r == radix_reading(),
                cache.inv(),
                c0.inv(),
                c0 == *old(cache),
                pages == c0.contents(),
                cache.same_pages(&c0),
                c0.bounded() ==> cache.bounded(),
                children@.len() == FANOUT,
                forall|j: int| 0 <= j < FANOUT ==> #[trigger] children@[j] == child_of(page_at(pages, page), j as nat),
                forall|k: nat| k < i as nat * span ==> #[trigger] node_value(pages, page, lv, k) == 0,
            decreases FANOUT - i,
        {
            let child: u64 = children[i];
            let ghost before = *cache;
            proof {
                assert((i + 1) as nat * span == i as nat * span + span) by (nonlinear_arith);
                assert forall|k: nat| i as nat * span <= k < (i + 1) as nat * span implies #[trigger] node_value(
                    pages,
                    page,
                    lv,
                    k,
                ) == (if child == 0 {
                    0
                } else {
                    node_value(pages, child, down, (k - i as nat * span) as nat)
                }) by {
                    lemma_child_value(pages, c, page, lv, r, i as nat, (k - i as nat * span) as nat);
                }
            }
            if child != 0 {
                match self.any_recursive(cache, child, level - 1) {
                    Ok(found) => {
                        if found {
                            proof {
                                let k = choose|k: nat| k < reach(c, down) && #[trigger] node_value(pages, child, down, k)
                                    != 0;
                                lemma_child_value(pages, c, page, lv, r, i as nat, k);
                                assert(node_value(pages, page, lv, i as nat * span + k) != 0);
                            }
                            return Ok(true);
                        }
                    },
                    Err(e) => {
                        proof {
                            lemma_same_tree_explains(&c0, &before, c, child, down, e);
                            lemma_child_explains(&c0, c, page, lv, i as nat, e);
                        }
                        return Err(e);
                    },
                }
            }
            i = i + 1;
        }
        Ok(false)
    }
}

/// Some key below a node is present.
pub open spec fn any_below(pages: Map<u64, Seq<u8>>, page: u64, level: nat) -> bool {
    exists|k: nat| k < reach(SLOTS_PER_PAGE as nat, level) && #[trigger] node_value(pages, page, level, k) != 0
}

} // verus!
