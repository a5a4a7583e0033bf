//! The membership index: which handles carry a tag.
//!
//! Two levels of the same radix tree. The outer tree is keyed by tag; its value
//! packs the root and the depth of the tag's inner tree, which is keyed by
//! handle and says 1 for every member.

use vstd::prelude::*;

use crate::error::ChiselError;
use crate::forest::{
    forest_in, forest_ok, forest_set, grows_from, lemma_freed_place, lemma_forest_avoids, lemma_forest_mono,
    lemma_forest_step, lemma_forest_sub, lemma_grows_chain, lemma_kept_grows, lemma_nodes, lemma_single_grows,
    lemma_tree_stays, nodes_of, place_freed, Place,
};
use crate::listing::{lemma_lists_facts, lemma_same_tree_explains, lists, tree_explains};
use crate::page::{checksum_ok, PAGE_ID_NONE};
use crate::page_cache::PageCache;
use crate::page_source::{
    cow_step, lemma_agree_at, lemma_cow_chain, lemma_cow_extend, lemma_cow_look, lemma_cow_more, lemma_taken_id,
    overrun, taken, too_many, PageSource,
};
use crate::radix::{is_tree, lemma_reach_pos, node_at, page_at, reach, saturated, tree_in};
use crate::radix_u64::{
    any_below, law_old_tree_stays, lemma_bound_1021, lemma_old_values, lemma_radix_depth, lemma_radix_insert_pages,
    node_value, radix_head, radix_insert_pages, radix_insert_requests, radix_lookup, radix_reading, radix_updated,
    radix_within, MAX_DEPTH, RadixU64, SLOTS_PER_PAGE,
};
use crate::spine::{
    head_of, lemma_prefix_trans, lemma_tree_mono, path_explains, path_unsound, taken_pages, tree_headed, tree_kept,
};

verus! {

/// Bits of a packed value that hold the root of the inner tree; its depth is in
/// the bits above.
pub const INNER_ROOT_BITS: u32 = 58;

/// The largest page id that can be packed.
pub const INNER_ROOT_MASK: u64 = 0x3ff_ffff_ffff_ffff;

/// The root of the inner tree that a packed value names; zero if there is none.
pub open spec fn inner_root(packed: u64) -> u64 {
    (packed % 0x400_0000_0000_0000) as u64
}

/// The depth of the inner tree that a packed value names.
pub open spec fn inner_depth(packed: u64) -> nat {
    (packed / 0x400_0000_0000_0000) as nat
}

/// Pack root and depth of an inner tree.
pub fn pack_inner(root: u64, depth: u32) -> (packed: u64)
    requires
        root <= INNER_ROOT_MASK,
        depth < 64,
    ensures
        inner_root(packed) == root,
        inner_depth(packed) == depth,
{
    let packed: u64 = ((depth as u64) << INNER_ROOT_BITS) | root;
    proof {
        let d = depth as u64;
        assert(((d << 58u32) | root) % 0x400_0000_0000_0000 == root && ((d << 58u32) | root) / 0x400_0000_0000_0000
            == d) by (bit_vector)
            requires
                root <= 0x3ff_ffff_ffff_ffffu64,
                d < 64,
        ;
    }
    packed
}

/// Root and depth of the inner tree that a packed value names.
pub fn unpack_inner(packed: u64) -> (inner: (u64, u32))
    ensures
        inner.0 == inner_root(packed),
        inner.1 == inner_depth(packed),
{
    proof {
        assert(packed & 0x3ff_ffff_ffff_ffff == packed % 0x400_0000_0000_0000) by (bit_vector);
        assert(packed >> 58u32 == packed / 0x400_0000_0000_0000 && packed >> 58u32 < 64) by (bit_vector);
    }
    (packed & INNER_ROOT_MASK, (packed >> INNER_ROOT_BITS) as u32)
}

/// The packed value of a tag; zero if the tag has no members.
pub open spec fn tag_value(pages: Map<u64, Seq<u8>>, root: u64, depth: nat, tag: u32) -> u64 {
    radix_lookup(pages, root, depth, tag as u64)
}

/// The handle carries the tag.
pub open spec fn is_member(pages: Map<u64, Seq<u8>>, root: u64, depth: nat, tag: u32, handle: u64) -> bool {
    let packed = tag_value(pages, root, depth, tag);
    inner_present(packed) && radix_lookup(pages, inner_root(packed), inner_depth(packed), handle) != 0
}

/// The packed value names an inner tree that is too deep.
pub open spec fn inner_corrupt(packed: u64) -> bool {
    inner_root(packed) != 0 && inner_depth(packed) > MAX_DEPTH
}

/// The packed value names an inner tree.
pub open spec fn inner_present(packed: u64) -> bool {
    inner_root(packed) != 0 && inner_depth(packed) <= MAX_DEPTH
}

/// No tag names an inner tree that is too deep.
pub open spec fn index_clean(pages: Map<u64, Seq<u8>>, root: u64, depth: nat) -> bool {
    forall|tag: u32| !inner_corrupt(#[trigger] tag_value(pages, root, depth, tag))
}

/// A tag has nothing beyond the 64-bit handles.
pub open spec fn tag_within(pages: Map<u64, Seq<u8>>, root: u64, depth: nat, tag: u32) -> bool {
    let packed = tag_value(pages, root, depth, tag);
    inner_present(packed) ==> radix_within(pages, inner_root(packed), inner_depth(packed))
}

/// No tag has anything beyond the 64-bit handles.
pub open spec fn index_within(pages: Map<u64, Seq<u8>>, root: u64, depth: nat) -> bool {
    forall|tag: u32| #[trigger] tag_within(pages, root, depth, tag)
}

/// The trees of the index: the outer one under `None`, the inner tree of a tag
/// under the tag.
pub open spec fn index_roots(pages: Map<u64, Seq<u8>>, root: u64, depth: nat) -> spec_fn(Option<u32>) -> Option<Place> {
    |i: Option<u32>|
        match i {
            None => if root != PAGE_ID_NONE {
                Some((root, depth))
            } else {
                None
            },
            Some(tag) => if inner_present(tag_value(pages, root, depth, tag)) {
                Some(
                    (
                        inner_root(tag_value(pages, root, depth, tag)),
                        inner_depth(tag_value(pages, root, depth, tag)),
                    ),
                )
            } else {
                None
            },
        }
}

/// Every page of the index lies in `good`.
pub open spec fn index_in(pages: Map<u64, Seq<u8>>, root: u64, depth: nat, good: Set<u64>) -> bool {
    forest_in(pages, SLOTS_PER_PAGE as nat, index_roots(pages, root, depth), good)
}

/// No page occurs at two places of the index.
pub open spec fn index_ok(pages: Map<u64, Seq<u8>>, root: u64, depth: nat) -> bool {
    forest_ok(pages, SLOTS_PER_PAGE as nat, index_roots(pages, root, depth))
}

/// `id` is a page of the tree of the index that `i` names.
pub open spec fn index_page(pages: Map<u64, Seq<u8>>, root: u64, depth: nat, i: Option<u32>, id: u64) -> bool {
    index_roots(pages, root, depth)(i) matches Some(p) && nodes_of(pages, SLOTS_PER_PAGE as nat, p.0, p.1).contains(id)
}

/// What a change to the index hands on from the old index to the new one.
#[verifier::opaque]
pub open spec fn index_kept<A: PageSource>(
    source0: &A,
    cache0: &PageCache,
    source1: &A,
    cache1: &PageCache,
    root0: u64,
    depth0: nat,
    root1: u64,
    depth1: nat,
) -> bool {
    &&& index_in(cache1.contents(), root1, depth1, source1.footprint(cache1).complement())
    &&& forall|pages: Set<u64>|
        pages.disjoint(source0.footprint(cache0)) && #[trigger] index_in(cache0.contents(), root0, depth0, pages)
            ==> index_in(
            cache1.contents(),
            root1,
            depth1,
            pages.union(taken_pages(source0, cache0, source1, cache1)),
        )
    &&& index_ok(cache0.contents(), root0, depth0) ==> index_ok(cache1.contents(), root1, depth1)
}

/// `id` is a page of the index.
pub open spec fn in_index(pages: Map<u64, Seq<u8>>, root: u64, depth: nat, id: u64) -> bool {
    exists|i: Option<u32>| #[trigger] index_page(pages, root, depth, i, id)
}

/// The pages put on the list of freed pages: pages of the outer tree and of the
/// tag's inner tree, or pages taken on the way. No page of the new index is
/// among them. While the tag has an inner tree, no page of the old index or taken is
/// missing from both; the pages of an inner tree that became empty are.
#[verifier::opaque]
pub open spec fn index_freed<A: PageSource>(
    source0: &A,
    cache0: &PageCache,
    source1: &A,
    cache1: &PageCache,
    root0: u64,
    depth0: nat,
    root1: u64,
    depth1: nat,
    tag: u32,
    freed0: Seq<u64>,
    freed1: Seq<u64>,
) -> bool {
    &&& freed0.is_prefix_of(freed1)
    &&& forall|i: int|
        freed0.len() <= i < freed1.len() ==> {
            ||| taken(source0, cache0, source1, cache1, #[trigger] freed1[i])
            ||| index_page(cache0.contents(), root0, depth0, None, freed1[i])
            ||| index_page(cache0.contents(), root0, depth0, Some(tag), freed1[i])
        }
    &&& index_ok(cache0.contents(), root0, depth0) ==> forall|i: int|
        freed0.len() <= i < freed1.len() ==> index_in(
            cache1.contents(),
            root1,
            depth1,
            Set::<u64>::full().remove(#[trigger] freed1[i]),
        )
    &&& forall|id: u64| #[trigger]
        index_page(cache0.contents(), root0, depth0, None, id) ==> in_index(cache1.contents(), root1, depth1, id)
            || freed1.skip(freed0.len() as int).contains(id)
    &&& inner_present(tag_value(cache1.contents(), root1, depth1, tag)) ==> {
        &&& forall|i: Option<u32>, id: u64| #[trigger]
            index_page(cache0.contents(), root0, depth0, i, id) ==> in_index(cache1.contents(), root1, depth1, id)
                || freed1.skip(freed0.len() as int).contains(id)
        &&& forall|id: u64| #[trigger]
            source0.footprint(cache0).contains(id) ==> source1.footprint(cache1).contains(id) || in_index(
                cache1.contents(),
                root1,
                depth1,
                id,
            ) || freed1.skip(freed0.len() as int).contains(id)
    }
}

/// Whether a handle carries a tag differs between two indexes for this tag and
/// handle only, where the new index says `now`. The new index holds nothing
/// beyond 64 bits if the old one does not.
pub open spec fn members_updated(
    before: Map<u64, Seq<u8>>,
    root0: u64,
    depth0: nat,
    after: Map<u64, Seq<u8>>,
    root1: u64,
    depth1: nat,
    tag: u32,
    handle: u64,
    now: bool,
) -> bool {
    &&& forall|t: u32, h: u64| #[trigger]
        is_member(after, root1, depth1, t, h) == (if t == tag && h == handle {
            now
        } else {
            is_member(before, root0, depth0, t, h)
        })
    &&& index_within(before, root0, depth0) ==> index_within(after, root1, depth1)
}

/// `e` comes from looking up a tag, or from the inner tree of that tag.
pub open spec fn index_explains(cache: &PageCache, root: u64, depth: nat, tag: u32, e: ChiselError) -> bool {
    let packed = tag_value(cache.contents(), root, depth, tag);
    ||| cache.pending() > cache.capacity() && e == cache.pressure_error()
    ||| root != PAGE_ID_NONE && tag < reach(SLOTS_PER_PAGE as nat, depth) && path_unsound(
        cache,
        SLOTS_PER_PAGE as nat,
        root,
        depth,
        tag as nat,
        e,
    )
    ||| inner_corrupt(packed) && e == (ChiselError::CorruptPage { page_id: inner_root(packed) })
    ||| inner_present(packed) && tree_explains(
        cache,
        SLOTS_PER_PAGE as nat,
        inner_root(packed),
        inner_depth(packed),
        e,
    )
}

/// Failing on the path of a key is failing in the tree.
proof fn lemma_path_tree_explains(cache: &PageCache, root: u64, depth: nat, key: u64, e: ChiselError)
    requires
        key < reach(SLOTS_PER_PAGE as nat, depth),
        path_explains(cache, SLOTS_PER_PAGE as nat, root, depth, key as nat, e),
    ensures
        tree_explains(cache, SLOTS_PER_PAGE as nat, root, depth, e),
{
}

/// `list` holds the handles that carry the tag in ascending order: all of them,
/// or the first `n` if the limit is `n`. Should the tag have keys beyond 64 bits,
/// which no insertion makes, the largest 64-bit number stands for each.
pub open spec fn members_listed(
    pages: Map<u64, Seq<u8>>,
    root: u64,
    depth: nat,
    tag: u32,
    limit: Option<nat>,
    list: Seq<u64>,
) -> bool {
    &&& limit matches Some(n) ==> list.len() <= n
    &&& forall|i: int, j: int|
        0 <= i < j < list.len() ==> #[trigger] list[i] < #[trigger] list[j] || list[j] == u64::MAX && !tag_within(
            pages,
            root,
            depth,
            tag,
        )
    &&& forall|i: int|
        0 <= i < list.len() ==> is_member(pages, root, depth, tag, #[trigger] list[i]) || list[i] == u64::MAX
            && !tag_within(pages, root, depth, tag)
    &&& forall|h: u64| #[trigger]
        is_member(pages, root, depth, tag, h) && !list.contains(h) ==> {
            &&& limit == Some(list.len())
            &&& forall|i: int| 0 <= i < list.len() ==> #[trigger] list[i] < h
        }
}

/// From the pairs of an inner tree to the members of the tag.
proof fn lemma_members(
    pages: Map<u64, Seq<u8>>,
    root: u64,
    depth: nat,
    tag: u32,
    limit: Option<nat>,
    bound: nat,
    keys: Seq<nat>,
    pairs: Seq<(u64, u64)>,
    list: Seq<u64>,
)
    requires
        ({
            let packed = tag_value(pages, root, depth, tag);
            let c = SLOTS_PER_PAGE as nat;
            &&& inner_root(packed) != 0
            &&& inner_depth(packed) <= MAX_DEPTH
            &&& bound <= reach(c, inner_depth(packed))
            &&& bound == reach(c, inner_depth(packed)) || limit == Some(pairs.len())
            &&& lists(
                pages,
                c,
                inner_root(packed),
                inner_depth(packed),
                radix_reading(),
                0,
                bound,
                keys,
                pairs,
            )
        }),
        limit matches Some(n) ==> pairs.len() <= n,
        list == firsts(pairs),
    ensures
        members_listed(pages, root, depth, tag, limit, list),
{
    let packed = tag_value(pages, root, depth, tag);
    let c = SLOTS_PER_PAGE as nat;
    let r = radix_reading();
    let ir = inner_root(packed);
    let id = inner_depth(packed);
    lemma_lists_facts(pages, c, ir, id, r, 0, bound, keys, pairs);
    lemma_bound_1021(id);
    assert forall|i: int| tag_within(pages, root, depth, tag) && 0 <= i < keys.len() implies #[trigger] keys[i]
        <= u64::MAX by {
        assert(node_value(pages, ir, id, keys[i]) == r.value(pages, c, ir, id, keys[i]));
        assert(r.present(pages, c, ir, id, keys[i]));
    }
    assert forall|i: int, j: int| 0 <= i < j < list.len() implies #[trigger] list[i] < #[trigger] list[j] || list[j]
        == u64::MAX && !tag_within(pages, root, depth, tag) by {
        assert(keys[i] < keys[j]);
        assert(pairs[i].0 == saturated(keys[i]) && pairs[j].0 == saturated(keys[j]));
    }
    assert forall|i: int| 0 <= i < list.len() implies is_member(pages, root, depth, tag, #[trigger] list[i])
        || list[i] == u64::MAX && !tag_within(pages, root, depth, tag) by {
        assert(keys[i] < bound);
        assert(pairs[i].0 == saturated(keys[i]));
        assert(node_value(pages, ir, id, keys[i]) == r.value(pages, c, ir, id, keys[i]));
    }
    assert forall|h: u64| #[trigger] is_member(pages, root, depth, tag, h) && !list.contains(h) implies {
        &&& limit == Some(list.len())
        &&& forall|i: int| 0 <= i < list.len() ==> #[trigger] list[i] < h
    } by {
        assert(node_value(pages, ir, id, h as nat) == r.value(pages, c, ir, id, h as nat));
        assert(r.present(pages, c, ir, id, h as nat));
        if h < bound {
            let i = keys.index_of(h as nat);
            assert(list[i] == h);
        }
        assert forall|i: int| 0 <= i < list.len() implies #[trigger] list[i] < h by {
            assert(keys[i] < bound);
            assert(pairs[i].0 == saturated(keys[i]));
        }
    }
}

/// The keys of a list of pairs.
pub open spec fn firsts(pairs: Seq<(u64, u64)>) -> Seq<u64> {
    Seq::new(pairs.len(), |i: int| pairs[i].0)
}

/// The keys of a list of pairs.
fn first_of(pairs: &Vec<(u64, u64)>) -> (list: Vec<u64>)
    ensures
        list@ == firsts(pairs@),
{
    let mut list: Vec<u64> = Vec::new();
    let mut i: usize = 0;
    while i < pairs.len()
        invariant
            i <= pairs@.len(),
            list@.len() == i,
            forall|j: int| 0 <= j < i ==> #[trigger] list@[j] == pairs@[j].0,
        decreases pairs@.len() - i,
    {
        list.push(pairs[i].0);
        i = i + 1;
    }
    assert(list@ =~= firsts(pairs@));
    list
}

/// The membership index. It knows only the depth of the outer tree: inner
/// depths are packed with the inner roots.
pub struct MembershipIndex {
    outer_depth: u32,
}

impl MembershipIndex {
    /// The depth of the outer tree.
    pub closed spec fn spec_depth(&self) -> nat {
        self.outer_depth as nat
    }

    /// An index of depth 0.
    pub fn new() -> (index: MembershipIndex)
        ensures
            index.spec_depth() == 0,
    {
        MembershipIndex { outer_depth: 0 }
    }

    /// Set the depth of the outer tree, as found by [`RadixU64::recover_depth`].
    pub fn set_outer_depth(&mut self, depth: u32)
        ensures
            final(self).spec_depth() == depth,
    {
        self.outer_depth = depth;
    }

    /// The depth of the outer tree.
    pub fn outer_depth(&self) -> (depth: u32)
        ensures
            depth == self.spec_depth(),
    {
        self.outer_depth
    }

    /// Root and depth of a tag's inner tree; the root is zero if the tag has no
    /// members.
    fn find_inner(outer: &RadixU64, cache: &mut PageCache, outer_root: u64, tag: u32) -> (outcome: Result<
        (u64, u32),
        ChiselError,
    >)
        requires
            old(cache).inv(),
            outer.spec_depth() <= MAX_DEPTH,
        ensures
            final(cache).inv(),
            final(cache).same_pages(old(cache)),
            old(cache).bounded() ==> final(cache).bounded(),
            outcome matches Ok((root, depth)) ==> {
                let packed = tag_value(old(cache).contents(), outer_root, outer.spec_depth(), tag);
                root == inner_root(packed) && depth == inner_depth(packed) && (root != 0 ==> depth <= MAX_DEPTH)
            },
            outcome matches Err(e) ==> index_explains(old(cache), outer_root, outer.spec_depth(), tag, e)
                && outer_root != PAGE_ID_NONE,
    {
        let packed: u64 = match outer.lookup(cache, outer_root, tag as u64) {
            Ok(packed) => packed,
            Err(e) => {
                return Err(e);
            },
        };
        let (inner_root, inner_depth) = unpack_inner(packed);
        if inner_root != 0 && inner_depth > MAX_DEPTH {
            return Err(ChiselError::CorruptPage { page_id: inner_root });
        }
        Ok((inner_root, inner_depth))
    }

    /// Whether the handle carries the tag.
    pub fn contains(&self, cache: &mut PageCache, outer_root: u64, tag: u32, handle: u64) -> (outcome: Result<
        bool,
        ChiselError,
    >)
        requires
            old(cache).inv(),
            self.spec_depth() <= MAX_DEPTH,
        ensures
            final(cache).inv(),
            final(cache).same_pages(old(cache)),
            old(cache).bounded() ==> final(cache).bounded(),
            match outcome {
                Ok(found) => found == is_member(old(cache).contents(), outer_root, self.spec_depth(), tag, handle),
                Err(e) => index_explains(old(cache), outer_root, self.spec_depth(), tag, e),
            },
    {
        if outer_root == PAGE_ID_NONE {
            return Ok(false);
        }
        let outer = RadixU64 { depth: self.outer_depth };
        let (root, depth) = match Self::find_inner(&outer, cache, outer_root, tag) {
            Ok(inner) => inner,
            Err(e) => {
                return Err(e);
            },
        };
        if root == 0 {
            return Ok(false);
        }
        let inner = RadixU64 { depth };
        match inner.lookup(cache, root, handle) {
            Ok(value) => Ok(value != 0),
            Err(e) => {
                proof {
                    lemma_path_tree_explains(&*cache, root, depth as nat, handle, e);
                }
                Err(e)
            },
        }
    }

    /// The handles that carry the tag, in ascending order.
    pub fn handles_for_tag(&self, cache: &mut PageCache, outer_root: u64, tag: u32) -> (outcome: Result<
        Vec<u64>,
        ChiselError,
    >)
        requires
            old(cache).inv(),
            self.spec_depth() <= MAX_DEPTH,
        ensures
            final(cache).inv(),
            final(cache).same_pages(old(cache)),
            old(cache).bounded() ==> final(cache).bounded(),
            match outcome {
                Ok(list) => members_listed(
                    old(cache).contents(),
                    outer_root,
                    self.spec_depth(),
                    tag,
                    None,
                    list@,
                ),
                Err(e) => index_explains(old(cache), outer_root, self.spec_depth(), tag, e),
            },
    {
        if outer_root == PAGE_ID_NONE {
            return Ok(Vec::new());
        }
        let outer = RadixU64 { depth: self.outer_depth };
        let (root, depth) = match Self::find_inner(&outer, cache, outer_root, tag) {
            Ok(inner) => inner,
            Err(e) => {
                return Err(e);
            },
        };
        if root == 0 {
            return Ok(Vec::new());
        }
        let inner = RadixU64 { depth };
        match inner.iter(cache, root) {
            Ok(pairs) => {
                proof {
                    let c = SLOTS_PER_PAGE as nat;
                    let pages = old(cache).contents();
                    let keys = choose|keys: Seq<nat>| #[trigger]
                        lists(pages, c, root, depth as nat, radix_reading(), 0, reach(c, depth as nat), keys, pairs@);
                    lemma_members(
                        pages,
                        outer_root,
                        self.spec_depth(),
                        tag,
                        None,
                        reach(c, depth as nat),
                        keys,
                        pairs@,
                        firsts(pairs@),
                    );
                }
                Ok(first_of(&pairs))
            },
            Err(e) => Err(e),
        }
    }

    /// The first `limit` handles that carry the tag, in ascending order; all of
    /// them if there are no more.
    pub fn handles_for_tag_bounded(&self, cache: &mut PageCache, outer_root: u64, tag: u32, limit: usize) -> (outcome:
        Result<Vec<u64>, ChiselError>)
        requires
            old(cache).inv(),
            self.spec_depth() <= MAX_DEPTH,
        ensures
            final(cache).inv(),
            final(cache).same_pages(old(cache)),
            old(cache).bounded() ==> final(cache).bounded(),
            match outcome {
                Ok(list) => members_listed(
                    old(cache).contents(),
                    outer_root,
                    self.spec_depth(),
                    tag,
                    Some(limit as nat),
                    list@,
                ),
                Err(e) => index_explains(old(cache), outer_root, self.spec_depth(), tag, e),
            },
    {
        if outer_root == PAGE_ID_NONE {
            return Ok(Vec::new());
        }
        let outer = RadixU64 { depth: self.outer_depth };
        let (root, depth) = match Self::find_inner(&outer, cache, outer_root, tag) {
            Ok(inner) => inner,
            Err(e) => {
                return Err(e);
            },
        };
        if root == 0 {
            return Ok(Vec::new());
        }
        let inner = RadixU64 { depth };
        match inner.iter_bounded(cache, root, limit) {
            Ok(pairs) => {
                proof {
                    let c = SLOTS_PER_PAGE as nat;
                    let pages = old(cache).contents();
                    let (bound, keys) = choose|bound: nat, keys: Seq<nat>|
                        bound <= reach(c, depth as nat) && (bound == reach(c, depth as nat) || pairs@.len() == limit)
                            && #[trigger] lists(
                            pages,
                            c,
                            root,
                            depth as nat,
                            radix_reading(),
                            0,
                            bound,
                            keys,
                            pairs@,
                        );
                    lemma_members(
                        pages,
                        outer_root,
                        self.spec_depth(),
                        tag,
                        Some(limit as nat),
                        bound,
                        keys,
                        pairs@,
                        firsts(pairs@),
                    );
                }
                Ok(first_of(&pairs))
            },
            Err(e) => Err(e),
        }
    }
}

/// Bound on the pages that one insertion allocates, if a request to the source
/// takes at most `g`: two roots, and two insertions into trees.
pub open spec fn index_insert_pages(g: nat) -> nat {
    2 + 2 * (radix_insert_requests() * g)
}

/// Bound on the pages that entering `handle` under `tag` allocates: two roots, an
/// insertion into the inner tree, and one into the outer.
pub open spec fn enter_pages(pages: Map<u64, Seq<u8>>, root: u64, depth: nat, tag: u32, handle: u64, g: nat) -> nat {
    let packed = tag_value(pages, root, depth, tag);
    2 + radix_insert_pages(
        if inner_root(packed) == 0 {
            0
        } else {
            inner_depth(packed)
        },
        handle,
        g,
    ) + radix_insert_pages(
        if root == PAGE_ID_NONE {
            0
        } else {
            depth
        },
        tag as u64,
        g,
    )
}

/// Entering a handle takes no more than the deepest trees ask for.
pub proof fn lemma_enter_pages(pages: Map<u64, Seq<u8>>, root: u64, depth: nat, tag: u32, handle: u64, g: nat)
    requires
        depth <= MAX_DEPTH,
        !inner_corrupt(tag_value(pages, root, depth, tag)),
    ensures
        enter_pages(pages, root, depth, tag, handle, g) <= index_insert_pages(g),
{
    let packed = tag_value(pages, root, depth, tag);
    lemma_radix_insert_pages(0, handle, g);
    lemma_radix_insert_pages(0, tag as u64, g);
    lemma_radix_insert_pages(depth, tag as u64, g);
    if inner_root(packed) != 0 {
        lemma_radix_insert_pages(inner_depth(packed), handle, g);
    }
}

/// Bound on the pages that one removal allocates.
pub open spec fn index_remove_pages(g: nat) -> nat {
    ((MAX_DEPTH + 1) * g + radix_insert_requests() * g) as nat
}

/// A tree that a step does not touch says the same as before.
proof fn lemma_lookup_stays<A: PageSource>(
    s0: &A,
    c0: &PageCache,
    s1: &A,
    c1: &PageCache,
    m: nat,
    root: u64,
    depth: nat,
)
    requires
        cow_step(s0, c0, s1, c1, m),
        tree_in(c0.contents(), SLOTS_PER_PAGE as nat, root, depth, s0.footprint(c0).complement()),
    ensures
        forall|k: u64| #[trigger]
            radix_lookup(c1.contents(), root, depth, k) == radix_lookup(c0.contents(), root, depth, k),
        radix_within(c1.contents(), root, depth) == radix_within(c0.contents(), root, depth),
{
    lemma_old_values(s0, c0, s1, c1, m, root, depth);
    assert forall|k: u64| #[trigger]
        radix_lookup(c1.contents(), root, depth, k) == radix_lookup(c0.contents(), root, depth, k) by {
        law_old_tree_stays(s0, c0, s1, c1, m, root, depth, k);
    }
}

/// The inner tree of `tag` became the tree at `(nir, nid)`, and then the outer
/// tree was changed to name it, or to name none if it is empty.
proof fn lemma_index_changed<A: PageSource>(
    s1: &A,
    c1: &PageCache,
    s2: &A,
    c2: &PageCache,
    s3: &A,
    c3: &PageCache,
    a: nat,
    b: nat,
    root1: u64,
    d1: nat,
    nir: u64,
    nid: nat,
    n: u64,
    d3: nat,
    tag: u32,
    handle: u64,
    value: u64,
    now: bool,
)
    requires
        cow_step(s1, c1, s2, c2, a),
        cow_step(s2, c2, s3, c3, b),
        root1 != PAGE_ID_NONE,
        n != PAGE_ID_NONE,
        index_in(c1.contents(), root1, d1, s1.footprint(c1).complement()),
        !inner_corrupt(tag_value(c1.contents(), root1, d1, tag)),
        grows_from(
            s1,
            c1,
            s2,
            c2,
            SLOTS_PER_PAGE as nat,
            index_roots(c1.contents(), root1, d1)(Some(tag)),
            (nir, nid),
        ),
        nir != 0,
        nid <= MAX_DEPTH,
        forall|h: u64| #[trigger]
            radix_lookup(c2.contents(), nir, nid, h) != 0 <==> (if h == handle {
                now
            } else {
                is_member(c1.contents(), root1, d1, tag, h)
            }),
        tag_within(c1.contents(), root1, d1, tag) ==> radix_within(c2.contents(), nir, nid),
        radix_updated(c2.contents(), root1, d1, c3.contents(), n, d3, tag as u64, value),
        tree_kept(s2, c2, s3, c3, SLOTS_PER_PAGE as nat, root1, d1, n, d3),
        value != 0 ==> inner_root(value) == nir && inner_depth(value) == nid,
        value == 0 ==> forall|h: u64| #[trigger] radix_lookup(c2.contents(), nir, nid, h) == 0,
    ensures
        cow_step(s1, c1, s3, c3, a + b),
        index_kept(s1, c1, s3, c3, root1, d1, n, d3),
        members_updated(c1.contents(), root1, d1, c3.contents(), n, d3, tag, handle, now),
        index_clean(c1.contents(), root1, d1) ==> index_clean(c3.contents(), n, d3),
{
    reveal(index_kept);
    let c = SLOTS_PER_PAGE as nat;
    let p1 = c1.contents();
    let p2 = c2.contents();
    let p3 = c3.contents();
    let r1 = index_roots(p1, root1, d1);
    let r2 = |i: Option<u32>|
        if i == Some(tag) {
            Some((nir, nid))
        } else {
            r1(i)
        };
    let r3 = |i: Option<u32>|
        if i == None::<u32> {
            Some((n, d3))
        } else {
            r2(i)
        };
    lemma_cow_chain(s1, c1, s2, c2, s3, c3, a, b);
    assert(forest_set(r1, r2, Some(tag), (nir, nid)));
    lemma_forest_step(s1, c1, s2, c2, a, c, r1, r2, Some(tag), (nir, nid));
    assert(r1(None::<u32>) == Some((root1, d1)));
    assert(tree_in(p1, c, root1, d1, s1.footprint(c1).complement()));
    lemma_lookup_stays(s1, c1, s2, c2, a, root1, d1);
    assert(r2(None::<u32>) == Some((root1, d1)));
    lemma_kept_grows(s2, c2, s3, c3, c, root1, d1, n, d3);
    assert(forest_set(r2, r3, None::<u32>, (n, d3)));
    lemma_forest_step(s2, c2, s3, c3, b, c, r2, r3, None::<u32>, (n, d3));
    // The trees that the new index names.
    assert forall|t: u32| #[trigger] tag_value(p3, n, d3, t) == (if t == tag {
        value
    } else {
        tag_value(p1, root1, d1, t)
    }) by {
        assert(radix_lookup(p2, root1, d1, t as u64) == radix_lookup(p1, root1, d1, t as u64));
    }
    let new_roots = index_roots(p3, n, d3);
    assert forall|i: Option<u32>| (#[trigger] new_roots(i)) is Some implies new_roots(i) == r3(i) by {
        if i is Some {
            let t = i->0;
            assert(tag_value(p3, n, d3, t) == (if t == tag {
                value
            } else {
                tag_value(p1, root1, d1, t)
            }));
        }
    }
    lemma_forest_sub(p3, c, r3, new_roots);
    assert(forest_in(p3, c, r3, s3.footprint(c3).complement()));
    assert forall|pages: Set<u64>|
        pages.disjoint(s1.footprint(c1)) && #[trigger] index_in(p1, root1, d1, pages) implies index_in(
        p3,
        n,
        d3,
        pages.union(taken_pages(s1, c1, s3, c3)),
    ) by {
        let some = pages.union(taken_pages(s1, c1, s2, c2));
        let more = some.union(taken_pages(s2, c2, s3, c3));
        let all = pages.union(taken_pages(s1, c1, s3, c3));
        assert(some.disjoint(s2.footprint(c2)));
        assert(forest_in(p2, c, r2, some));
        assert(forest_in(p3, c, r3, more));
        assert forall|id: u64| #[trigger] more.contains(id) implies all.contains(id) by {
            if taken(s1, c1, s2, c2, id) || taken(s2, c2, s3, c3, id) {
                assert(taken(s1, c1, s3, c3, id));
            }
        }
        lemma_forest_mono(p3, c, r3, more, all);
    }
    if index_clean(p1, root1, d1) {
        assert forall|t: u32| !inner_corrupt(#[trigger] tag_value(p3, n, d3, t)) by {
            assert(tag_value(p3, n, d3, t) == (if t == tag {
                value
            } else {
                tag_value(p1, root1, d1, t)
            }));
            assert(!inner_corrupt(tag_value(p1, root1, d1, t)));
        }
    }
    if index_within(p1, root1, d1) {
        assert(tag_within(p1, root1, d1, tag));
        assert forall|t: u32| #[trigger] tag_within(p3, n, d3, t) by {
            assert(tag_within(p1, root1, d1, t));
            assert(tag_value(p3, n, d3, t) == (if t == tag {
                value
            } else {
                tag_value(p1, root1, d1, t)
            }));
            if t == tag {
                assert(r2(Some(tag)) == Some((nir, nid)));
                lemma_lookup_stays(s2, c2, s3, c3, b, nir, nid);
            } else if inner_present(tag_value(p1, root1, d1, t)) {
                let ir = inner_root(tag_value(p1, root1, d1, t));
                let id = inner_depth(tag_value(p1, root1, d1, t));
                assert(r1(Some(t)) == Some((ir, id)));
                lemma_lookup_stays(s1, c1, s3, c3, a + b, ir, id);
            }
        }
    }
    // The members.
    assert forall|t: u32, h: u64| #[trigger]
        is_member(p3, n, d3, t, h) == (if t == tag && h == handle {
            now
        } else {
            is_member(p1, root1, d1, t, h)
        }) by {
        assert(tag_value(p3, n, d3, t) == (if t == tag {
            value
        } else {
            tag_value(p1, root1, d1, t)
        }));
        if t == tag {
            assert(r2(Some(tag)) == Some((nir, nid)));
            assert(tree_in(p2, c, nir, nid, s2.footprint(c2).complement()));
            lemma_lookup_stays(s2, c2, s3, c3, b, nir, nid);
            assert(radix_lookup(p3, nir, nid, h) == radix_lookup(p2, nir, nid, h));
        } else if inner_present(tag_value(p1, root1, d1, t)) {
            let ir = inner_root(tag_value(p1, root1, d1, t));
            let id = inner_depth(tag_value(p1, root1, d1, t));
            assert(r1(Some(t)) == Some((ir, id)));
            assert(tree_in(p1, c, ir, id, s1.footprint(c1).complement()));
            lemma_lookup_stays(s1, c1, s3, c3, a + b, ir, id);
            assert(radix_lookup(p3, ir, id, h) == radix_lookup(p1, ir, id, h));
        }
    }
}

/// The pages freed by the same change.
proof fn lemma_index_freed<A: PageSource>(
    s1: &A,
    c1: &PageCache,
    s2: &A,
    c2: &PageCache,
    s3: &A,
    c3: &PageCache,
    a: nat,
    b: nat,
    root1: u64,
    d1: nat,
    nir: u64,
    nid: nat,
    n: u64,
    d3: nat,
    tag: u32,
    value: u64,
    freed1: Seq<u64>,
    freed2: Seq<u64>,
    freed3: Seq<u64>,
)
    requires
        cow_step(s1, c1, s2, c2, a),
        cow_step(s2, c2, s3, c3, b),
        root1 != PAGE_ID_NONE,
        n != PAGE_ID_NONE,
        index_in(c1.contents(), root1, d1, s1.footprint(c1).complement()),
        grows_from(
            s1,
            c1,
            s2,
            c2,
            SLOTS_PER_PAGE as nat,
            index_roots(c1.contents(), root1, d1)(Some(tag)),
            (nir, nid),
        ),
        nir != 0,
        nid <= MAX_DEPTH,
        radix_updated(c2.contents(), root1, d1, c3.contents(), n, d3, tag as u64, value),
        tree_kept(s2, c2, s3, c3, SLOTS_PER_PAGE as nat, root1, d1, n, d3),
        value != 0 ==> inner_root(value) == nir && inner_depth(value) == nid,
        place_freed(
            s1,
            c1,
            s2,
            c2,
            SLOTS_PER_PAGE as nat,
            index_roots(c1.contents(), root1, d1)(Some(tag)),
            (nir, nid),
            freed1,
            freed2,
        ),
        place_freed(
            s2,
            c2,
            s3,
            c3,
            SLOTS_PER_PAGE as nat,
            Some((root1, d1)),
            (n, d3),
            freed2,
            freed3,
        ),
    ensures
        index_freed(s1, c1, s3, c3, root1, d1, n, d3, tag, freed1, freed3),
{
    reveal(index_freed);
    reveal(place_freed);
    let c = SLOTS_PER_PAGE as nat;
    let p1 = c1.contents();
    let p2 = c2.contents();
    let p3 = c3.contents();
    let r1 = index_roots(p1, root1, d1);
    let r2 = |i: Option<u32>|
        if i == Some(tag) {
            Some((nir, nid))
        } else {
            r1(i)
        };
    let r3 = |i: Option<u32>|
        if i == None::<u32> {
            Some((n, d3))
        } else {
            r2(i)
        };
    lemma_cow_chain(s1, c1, s2, c2, s3, c3, a, b);
    lemma_prefix_trans(freed1, freed2, freed3);
    assert(forest_set(r1, r2, Some(tag), (nir, nid)));
    lemma_forest_step(s1, c1, s2, c2, a, c, r1, r2, Some(tag), (nir, nid));
    assert(r1(None::<u32>) == Some((root1, d1)));
    assert(tree_in(p1, c, root1, d1, s1.footprint(c1).complement()));
    lemma_lookup_stays(s1, c1, s2, c2, a, root1, d1);
    lemma_tree_stays(s1, c1, s2, c2, a, c, root1, d1);
    assert(r2(None::<u32>) == Some((root1, d1)));
    lemma_kept_grows(s2, c2, s3, c3, c, root1, d1, n, d3);
    assert(forest_set(r2, r3, None::<u32>, (n, d3)));
    lemma_forest_step(s2, c2, s3, c3, b, c, r2, r3, None::<u32>, (n, d3));
    let new_roots = index_roots(p3, n, d3);
    assert forall|i: Option<u32>| (#[trigger] new_roots(i)) is Some implies new_roots(i) == r3(i) by {
        if i is Some {
            let t = i->0;
            assert(radix_lookup(p3, n, d3, t as u64) == (if t == tag {
                value
            } else {
                radix_lookup(p2, root1, d1, t as u64)
            }));
            assert(radix_lookup(p2, root1, d1, t as u64) == radix_lookup(p1, root1, d1, t as u64));
        }
    }
    lemma_forest_sub(p3, c, r3, new_roots);
    assert forall|i: int| freed1.len() <= i < freed3.len() implies {
        &&& {
            ||| taken(s1, c1, s3, c3, #[trigger] freed3[i])
            ||| index_page(p1, root1, d1, None, freed3[i])
            ||| index_page(p1, root1, d1, Some(tag), freed3[i])
        }
        &&& index_ok(p1, root1, d1) ==> index_in(p3, n, d3, Set::<u64>::full().remove(freed3[i]))
    } by {
        let x = freed3[i];
        let rest = Set::<u64>::full().remove(x);
        if i < freed2.len() {
            assert(freed3[i] == freed2[i]) by {
                assert(freed3.take(freed2.len() as int) =~= freed2);
                assert(freed3.take(freed2.len() as int)[i] == freed3[i]);
            }
            assert(taken(s1, c1, s2, c2, freed2[i]) || index_page(p1, root1, d1, Some(tag), x));
            if taken(s1, c1, s2, c2, x) {
                assert(taken(s1, c1, s3, c3, x));
            }
            if index_ok(p1, root1, d1) {
                if r1(Some(tag)) is Some {
                    let p = r1(Some(tag))->0;
                    assert(is_tree(p1, c, p.0, p.1));
                    lemma_nodes(p1, c, p.0, p.1);
                }
                assert(tree_in(p2, c, nir, nid, Set::<u64>::full().remove(freed2[i])));
                assert(forest_in(p2, c, r2, rest));
                lemma_forest_avoids(s2, c2, s3, c3, b, c, r2, r3, None::<u32>, (n, d3), x);
                assert(forest_in(p3, c, r3, rest));
            }
        } else {
            assert(taken(s2, c2, s3, c3, freed3[i]) || nodes_of(p2, c, root1, d1).contains(x));
            if taken(s2, c2, s3, c3, x) {
                assert(taken(s1, c1, s3, c3, x));
            } else {
                assert(nodes_of(p1, c, root1, d1).contains(x));
                assert(index_page(p1, root1, d1, None, x));
            }
            if index_ok(p1, root1, d1) {
                assert(forest_ok(p2, c, r2));
                assert(is_tree(p2, c, root1, d1));
                assert(tree_in(p3, c, n, d3, Set::<u64>::full().remove(freed3[i])));
                assert(forest_in(p3, c, r3, rest));
            }
        }
    }
    // Nothing is lost.
    let tail = freed3.skip(freed1.len() as int);
    assert forall|x: u64| #[trigger] freed2.skip(freed1.len() as int).contains(x) implies tail.contains(x) by {
        let j = freed2.skip(freed1.len() as int).index_of(x);
        assert(freed3.take(freed2.len() as int) =~= freed2);
        assert(freed3.take(freed2.len() as int)[freed1.len() + j] == freed3[freed1.len() + j]);
        assert(tail[j] == x);
    }
    assert forall|x: u64| #[trigger] freed3.skip(freed2.len() as int).contains(x) implies tail.contains(x) by {
        let j = freed3.skip(freed2.len() as int).index_of(x);
        assert(tail[freed2.len() - freed1.len() + j] == x);
    }
    assert(new_roots(None::<u32>) == Some((n, d3)));
    assert forall|x: u64| #[trigger] nodes_of(p3, c, n, d3).contains(x) implies in_index(p3, n, d3, x) by {
        assert(index_page(p3, n, d3, None, x));
    }
    assert forall|x: u64| #[trigger] index_page(p1, root1, d1, None, x) implies in_index(p3, n, d3, x) || tail.contains(
        x,
    ) by {
        assert(nodes_of(p2, c, root1, d1).contains(x));
    }
    if inner_present(tag_value(p3, n, d3, tag)) {
        assert(radix_lookup(p3, n, d3, tag as u64) == value);
        assert(new_roots(Some(tag)) == Some((nir, nid)));
        assert(r2(Some(tag)) == Some((nir, nid)));
        assert(tree_in(p2, c, nir, nid, s2.footprint(c2).complement()));
        lemma_tree_stays(s2, c2, s3, c3, b, c, nir, nid);
        assert forall|x: u64| #[trigger] nodes_of(p2, c, nir, nid).contains(x) implies in_index(p3, n, d3, x) by {
            assert(nodes_of(p3, c, nir, nid).contains(x));
            assert(index_page(p3, n, d3, Some(tag), x));
        }
        assert forall|i: Option<u32>, x: u64| #[trigger] index_page(p1, root1, d1, i, x) implies in_index(p3, n, d3, x)
            || tail.contains(x) by {
            if i is Some && i != Some(tag) {
                let t = i->0;
                let p = r1(i)->0;
                assert(tree_in(p1, c, p.0, p.1, s1.footprint(c1).complement()));
                lemma_tree_stays(s1, c1, s3, c3, a + b, c, p.0, p.1);
                assert(radix_lookup(p2, root1, d1, t as u64) == radix_lookup(p1, root1, d1, t as u64));
                assert(radix_lookup(p3, n, d3, t as u64) == radix_lookup(p2, root1, d1, t as u64));
                assert(new_roots(i) == Some(p));
                assert(nodes_of(p3, c, p.0, p.1).contains(x));
                assert(index_page(p3, n, d3, i, x));
            } else if i == Some(tag) {
                assert(r1(Some(tag)) is Some);
            }
        }
        assert forall|x: u64| #[trigger] s1.footprint(c1).contains(x) implies s3.footprint(c3).contains(x) || in_index(
            p3,
            n,
            d3,
            x,
        ) || tail.contains(x) by {
            if s2.footprint(c2).contains(x) {
                assert(s3.footprint(c3).contains(x) || nodes_of(p3, c, n, d3).contains(x) || freed3.skip(
                    freed2.len() as int,
                ).contains(x));
            } else {
                assert(nodes_of(p2, c, nir, nid).contains(x) || freed2.skip(freed1.len() as int).contains(x));
            }
        }
    }
}

/// The depth at which an inner tree starts; one that is made has depth 0.
pub open spec fn start_depth(root: u64, depth: u32) -> nat {
    if root == 0 {
        0
    } else {
        depth as nat
    }
}

/// The place of an inner tree, if its root is not zero.
pub open spec fn inner_place(root: u64, depth: nat) -> Option<Place> {
    if root != 0 {
        Some((root, depth))
    } else {
        None
    }
}

impl MembershipIndex {
    /// Add a handle to an inner tree, which is made if `root` is zero. Returns
    /// the new root and depth.
    fn insert_inner<A: PageSource>(
        cache: &mut PageCache,
        root: u64,
        depth: u32,
        handle: u64,
        source: &mut A,
        freed: &mut Vec<u64>,
    ) -> (outcome: Result<(u64, u32), ChiselError>)
        requires
            old(cache).inv(),
            old(cache).bounded(),
            old(source).ready(old(cache)),
            old(cache).watermark() > 0,
            root != PAGE_ID_NONE,
            root != 0 ==> depth <= MAX_DEPTH && tree_in(
                old(cache).contents(),
                SLOTS_PER_PAGE as nat,
                root,
                depth as nat,
                old(source).footprint(old(cache)).complement(),
            ),
            old(cache).watermark() + 1 + radix_insert_requests() * A::growth() <= usize::MAX,
        ensures
            cow_step(
                old(source),
                old(cache),
                final(source),
                final(cache),
                1 + radix_insert_pages(start_depth(root, depth), handle, A::growth()),
            ),
            outcome matches Ok((n, d)) ==> {
                &&& n != 0 && n != PAGE_ID_NONE
                &&& d <= MAX_DEPTH
                &&& taken(old(source), old(cache), final(source), final(cache), n)
                &&& grows_from(
                    old(source),
                    old(cache),
                    final(source),
                    final(cache),
                    SLOTS_PER_PAGE as nat,
                    inner_place(root, depth as nat),
                    (n, d as nat),
                )
                &&& place_freed(
                    old(source),
                    old(cache),
                    final(source),
                    final(cache),
                    SLOTS_PER_PAGE as nat,
                    inner_place(root, depth as nat),
                    (n, d as nat),
                    old(freed)@,
                    final(freed)@,
                )
                &&& forall|h: u64| #[trigger]
                    radix_lookup(final(cache).contents(), n, d as nat, h) == (if h == handle {
                        1
                    } else if root != 0 {
                        radix_lookup(old(cache).contents(), root, depth as nat, h)
                    } else {
                        0
                    })
                &&& (root != 0 ==> radix_within(old(cache).contents(), root, depth as nat)) ==> radix_within(
                    final(cache).contents(),
                    n,
                    d as nat,
                )
            },
            outcome matches Err(e) ==> overrun(
                old(cache),
                final(cache),
                e,
                1 + radix_insert_pages(start_depth(root, depth), handle, A::growth()),
            ) || root != 0
                && handle < reach(SLOTS_PER_PAGE as nat, depth as nat) && path_unsound(
                old(cache),
                SLOTS_PER_PAGE as nat,
                root,
                depth as nat,
                handle as nat,
                e,
            ),
            old(freed)@.is_prefix_of(final(freed)@),
    {
        let ghost c = SLOTS_PER_PAGE as nat;
        let ghost g = A::growth();
        let ghost m = radix_insert_pages(start_depth(root, depth), handle, g);
        let ghost s0 = *source;
        let ghost c0 = *cache;
        let ghost f0 = freed@;
        let mut inner = RadixU64 { depth };
        let start: u64 = if root == 0 {
            let fresh = inner.create_root(cache);
            proof {
                lemma_cow_extend(source, &c0, cache, 1);
            }
            match fresh {
                Ok(id) => {
                    proof {
                        lemma_single_grows(&s0, &c0, source, cache, c, id);
                    }
                    id
                },
                Err(e) => {
                    return Err(e);
                },
            }
        } else {
            proof {
                lemma_cow_look(source, &c0, cache);
            }
            root
        };
        let ghost s1 = *source;
        let ghost c1 = *cache;
        let ghost d1 = inner.spec_depth();
        proof {
            if root == 0 {
                assert(taken(&s0, &c0, &s1, &c1, start));
                lemma_taken_id(&s0, &c0, &s1, &c1, start);
                assert(node_at(c1.contents(), c, start, 0, 0, 0) == Some(start));
                assert(tree_in(c1.contents(), c, start, 0, s1.footprint(&c1).complement()));
                lemma_nodes(c1.contents(), c, start, 0);
            }
        }
        match inner.insert(cache, start, handle, 1, source, freed) {
            Ok(n) => {
                proof {
                    lemma_kept_grows(&s1, &c1, source, cache, c, start, d1, n, inner.spec_depth());
                    lemma_freed_place(
                        &s1,
                        &c1,
                        source,
                        cache,
                        c,
                        start,
                        d1,
                        n,
                        inner.spec_depth(),
                        handle as nat,
                        f0,
                        freed@,
                    );
                    if root == 0 {
                        lemma_cow_chain(&s0, &c0, &s1, &c1, source, cache, 1, m);
                        lemma_grows_chain(
                            &s0,
                            &c0,
                            &s1,
                            &c1,
                            source,
                            cache,
                            1,
                            m,
                            c,
                            None,
                            (start, 0nat),
                            (n, inner.spec_depth()),
                        );
                        assert(taken(&s0, &c0, source, cache, start));
                        assert(taken(&s0, &c0, source, cache, n));
                        reveal(place_freed);
                        reveal(grows_from);
                        let one = Set::<u64>::empty().insert(start);
                        assert(tree_in(c1.contents(), c, start, 0, one));
                        assert forall|i: int| f0.len() <= i < freed@.len() implies taken(
                            &s0,
                            &c0,
                            source,
                            cache,
                            #[trigger] freed@[i],
                        ) by {
                            if !taken(&s1, &c1, source, cache, freed@[i]) {
                                assert(nodes_of(c1.contents(), c, start, 0).contains(freed@[i]));
                                assert(one.contains(freed@[i]));
                            }
                        }
                    }
                }
                Ok((n, inner.depth))
            },
            Err(e) => {
                proof {
                    if root == 0 {
                        lemma_cow_chain(&s0, &c0, &s1, &c1, source, cache, 1, m);
                        if !too_many(&c1, e, m) {
                            assert(path_unsound(&c1, c, start, 0, handle as nat, e));
                            assert(c1.sound(start));
                            assert(false);
                        }
                    }
                }
                Err(e)
            },
        }
    }
}

/// An outer root was made for an index that had none.
proof fn lemma_index_created<A: PageSource>(s0: &A, c0: &PageCache, s1: &A, c1: &PageCache, d: nat, root: u64)
    requires
        taken(s0, c0, s1, c1, root),
        checksum_ok(c1.contents()[root]),
        root != PAGE_ID_NONE,
        forall|k: u64| #[trigger] radix_lookup(c1.contents(), root, 0, k) == 0,
    ensures
        index_kept(s0, c0, s1, c1, PAGE_ID_NONE, d, root, 0),
        forall|t: u32, h: u64| !(#[trigger] is_member(c1.contents(), root, 0, t, h)),
        index_within(c1.contents(), root, 0),
        index_clean(c1.contents(), root, 0),
        forall|i: Option<u32>, x: u64| #[trigger] index_page(c1.contents(), root, 0, i, x) ==> x == root,
        index_page(c1.contents(), root, 0, None, root),
{
    reveal(index_kept);
    reveal(grows_from);
    let c = SLOTS_PER_PAGE as nat;
    let p1 = c1.contents();
    let roots = index_roots(p1, root, 0);
    lemma_single_grows(s0, c0, s1, c1, c, root);
    assert forall|i: Option<u32>| (#[trigger] roots(i)) is Some implies i is None && roots(i) == Some((root, 0nat)) by {
        if i is Some {
            assert(tag_value(p1, root, 0, i->0) == 0);
        }
    }
    assert forall|pages: Set<u64>| pages.disjoint(s0.footprint(c0)) implies index_in(
        p1,
        root,
        0,
        #[trigger] pages.union(taken_pages(s0, c0, s1, c1)),
    ) by {}
    let none = Set::<u64>::empty();
    assert(none.disjoint(s0.footprint(c0)));
    assert(index_in(p1, root, 0, none.union(taken_pages(s0, c0, s1, c1))));
    lemma_forest_mono(p1, c, roots, none.union(taken_pages(s0, c0, s1, c1)), s1.footprint(c1).complement());
    let one = none.insert(root);
    assert(tree_in(p1, c, root, 0, one));
    lemma_nodes(p1, c, root, 0);
    assert forall|i: Option<u32>, x: u64| #[trigger] index_page(p1, root, 0, i, x) implies x == root by {
        assert(roots(i) == Some((root, 0nat)));
        assert(one.contains(x));
    }
    assert forall|t: u32| #[trigger] tag_within(p1, root, 0, t) by {
        assert(tag_value(p1, root, 0, t) == 0);
    }
    assert(node_at(p1, c, root, 0, 0, 0) == Some(root));
    lemma_reach_pos(c, 0);
    assert(nodes_of(p1, c, root, 0).contains(root));
    assert(roots(None) == Some((root, 0nat)));
    assert forall|t: u32, h: u64| !(#[trigger] is_member(p1, root, 0, t, h)) by {
        assert(tag_value(p1, root, 0, t) == 0);
    }
    assert forall|t: u32| !inner_corrupt(#[trigger] tag_value(p1, root, 0, t)) by {}
}

/// Looking at pages keeps the index.
proof fn lemma_index_looked<A: PageSource>(s: &A, a: &PageCache, b: &PageCache, root: u64, depth: nat)
    requires
        a.inv(),
        a.bounded(),
        b.inv(),
        s.ready(a),
        b.same_pages(a),
        index_in(a.contents(), root, depth, s.footprint(a).complement()),
    ensures
        index_kept(s, a, s, b, root, depth, root, depth),
{
    reveal(index_kept);
    lemma_cow_look(s, a, b);
    assert forall|pages: Set<u64>| #[trigger] index_in(a.contents(), root, depth, pages) implies index_in(
        b.contents(),
        root,
        depth,
        pages.union(taken_pages(s, a, s, b)),
    ) by {
        lemma_forest_mono(
            b.contents(),
            SLOTS_PER_PAGE as nat,
            index_roots(b.contents(), root, depth),
            pages,
            pages.union(taken_pages(s, a, s, b)),
        );
    }
}

/// The new index lies outside the footprint.
pub proof fn lemma_index_outside<A: PageSource>(
    s0: &A,
    c0: &PageCache,
    s1: &A,
    c1: &PageCache,
    root0: u64,
    d0: nat,
    root1: u64,
    d1: nat,
)
    requires
        index_kept(s0, c0, s1, c1, root0, d0, root1, d1),
    ensures
        index_in(c1.contents(), root1, d1, s1.footprint(c1).complement()),
        root1 != PAGE_ID_NONE ==> tree_in(
            c1.contents(),
            SLOTS_PER_PAGE as nat,
            root1,
            d1,
            s1.footprint(c1).complement(),
        ),
{
    reveal(index_kept);
    assert(root1 != PAGE_ID_NONE ==> index_roots(c1.contents(), root1, d1)(None::<u32>) == Some((root1, d1)));
}

/// Two changes make one.
proof fn lemma_index_chain<A: PageSource>(
    s0: &A,
    c0: &PageCache,
    s1: &A,
    c1: &PageCache,
    s2: &A,
    c2: &PageCache,
    a: nat,
    b: nat,
    root0: u64,
    d0: nat,
    root1: u64,
    d1: nat,
    root2: u64,
    d2: nat,
)
    requires
        cow_step(s0, c0, s1, c1, a),
        cow_step(s1, c1, s2, c2, b),
        index_kept(s0, c0, s1, c1, root0, d0, root1, d1),
        index_kept(s1, c1, s2, c2, root1, d1, root2, d2),
    ensures
        index_kept(s0, c0, s2, c2, root0, d0, root2, d2),
{
    reveal(index_kept);
    lemma_cow_chain(s0, c0, s1, c1, s2, c2, a, b);
    assert forall|pages: Set<u64>|
        pages.disjoint(s0.footprint(c0)) && #[trigger] index_in(c0.contents(), root0, d0, pages) implies index_in(
        c2.contents(),
        root2,
        d2,
        pages.union(taken_pages(s0, c0, s2, c2)),
    ) by {
        let some = pages.union(taken_pages(s0, c0, s1, c1));
        let more = some.union(taken_pages(s1, c1, s2, c2));
        let all = pages.union(taken_pages(s0, c0, s2, c2));
        assert(some.disjoint(s1.footprint(c1)));
        assert(index_in(c1.contents(), root1, d1, some));
        assert forall|id: u64| #[trigger] more.contains(id) implies all.contains(id) by {
            if taken(s0, c0, s1, c1, id) || taken(s1, c1, s2, c2, id) {
                assert(taken(s0, c0, s2, c2, id));
            }
        }
        lemma_forest_mono(
            c2.contents(),
            SLOTS_PER_PAGE as nat,
            index_roots(c2.contents(), root2, d2),
            more,
            all,
        );
    }
}

/// Unsound pages on a path outside the footprint were unsound before.
proof fn lemma_unsound_before<A: PageSource>(
    s0: &A,
    c0: &PageCache,
    s1: &A,
    c1: &PageCache,
    m: nat,
    root: u64,
    depth: nat,
    key: u64,
    e: ChiselError,
)
    requires
        cow_step(s0, c0, s1, c1, m),
        tree_in(c0.contents(), SLOTS_PER_PAGE as nat, root, depth, s0.footprint(c0).complement()),
        key < reach(SLOTS_PER_PAGE as nat, depth),
        path_unsound(c1, SLOTS_PER_PAGE as nat, root, depth, key as nat, e),
    ensures
        path_unsound(c0, SLOTS_PER_PAGE as nat, root, depth, key as nat, e),
{
    let c = SLOTS_PER_PAGE as nat;
    lemma_tree_stays(s0, c0, s1, c1, m, c, root, depth);
    let l = choose|l: nat|
        l <= depth && ((#[trigger] node_at(c1.contents(), c, root, depth, key as nat, l)) matches Some(id) && !c1.sound(
            id,
        ) && e == c1.read_error(id));
    let id = node_at(c1.contents(), c, root, depth, key as nat, l)->0;
    assert(node_at(c0.contents(), c, root, depth, key as nat, l) == Some(id));
    lemma_agree_at(c0, c1, s0.footprint(c0).complement(), id);
}

/// Reading a fresh outer root fails only if the limits are exceeded.
proof fn lemma_fresh_unsound<A: PageSource>(
    s0: &A,
    c0: &PageCache,
    s1: &A,
    c1: &PageCache,
    root: u64,
    tag: u32,
    e: ChiselError,
)
    requires
        taken(s0, c0, s1, c1, root),
    ensures
        !path_unsound(c1, SLOTS_PER_PAGE as nat, root, 0, tag as nat, e),
{
    assert(c1.sound(root));
}

/// The same for everything that looking up a tag reads.
proof fn lemma_fresh_explains<A: PageSource>(
    s0: &A,
    c0: &PageCache,
    s1: &A,
    c1: &PageCache,
    root: u64,
    tag: u32,
    e: ChiselError,
)
    requires
        taken(s0, c0, s1, c1, root),
        forall|k: u64| #[trigger] radix_lookup(c1.contents(), root, 0, k) == 0,
        index_explains(c1, root, 0, tag, e),
    ensures
        too_many(c1, e, 0),
{
    lemma_fresh_unsound(s0, c0, s1, c1, root, tag, e);
    assert(tag_value(c1.contents(), root, 0, tag) == 0);
}

/// A tree that a step does not touch begins as before.
proof fn lemma_headed_stays<A: PageSource>(
    s0: &A,
    c0: &PageCache,
    s1: &A,
    c1: &PageCache,
    m: nat,
    root: u64,
    depth: nat,
)
    requires
        cow_step(s0, c0, s1, c1, m),
        tree_in(c0.contents(), SLOTS_PER_PAGE as nat, root, depth, s0.footprint(c0).complement()),
    ensures
        tree_headed(c0.contents(), SLOTS_PER_PAGE as nat, root, depth, radix_head()) ==> tree_headed(
            c1.contents(),
            SLOTS_PER_PAGE as nat,
            root,
            depth,
            radix_head(),
        ),
{
    let c = SLOTS_PER_PAGE as nat;
    lemma_tree_stays(s0, c0, s1, c1, m, c, root, depth);
    lemma_nodes(c0.contents(), c, root, depth);
    lemma_reach_pos(c, depth);
    if tree_headed(c0.contents(), c, root, depth, radix_head()) {
        assert forall|k: nat, l: nat| k < reach(c, depth) && l <= depth implies ((#[trigger] node_at(
            c1.contents(),
            c,
            root,
            depth,
            k,
            l,
        )) matches Some(id) ==> head_of(page_at(c1.contents(), id)) == radix_head()(l)) by {
            assert(node_at(c0.contents(), c, root, depth, k, l) == node_at(c1.contents(), c, root, depth, k, l));
            if node_at(c0.contents(), c, root, depth, k, l) is Some {
                assert(nodes_of(c0.contents(), c, root, depth).contains(
                    node_at(c0.contents(), c, root, depth, k, l)->0,
                ));
            }
        }
        assert(node_at(c1.contents(), c, root, depth, 0, 0) is Some);
    }
}

/// What a change frees, seen from before an outer root was made.
proof fn lemma_freed_lift<A: PageSource>(
    s0: &A,
    c0: &PageCache,
    s1: &A,
    c1: &PageCache,
    s2: &A,
    c2: &PageCache,
    a: nat,
    b: nat,
    root0: u64,
    d0: nat,
    root1: u64,
    d1: nat,
    root2: u64,
    d2: nat,
    tag: u32,
    freed0: Seq<u64>,
    freed1: Seq<u64>,
)
    requires
        cow_step(s0, c0, s1, c1, a),
        cow_step(s1, c1, s2, c2, b),
        index_kept(s0, c0, s1, c1, root0, d0, root1, d1),
        index_freed(s1, c1, s2, c2, root1, d1, root2, d2, tag, freed0, freed1),
        forall|i: Option<u32>, x: u64| #[trigger]
            index_page(c1.contents(), root1, d1, i, x) ==> taken(s0, c0, s1, c1, x) || index_page(
                c0.contents(),
                root0,
                d0,
                i,
                x,
            ),
        forall|i: Option<u32>, x: u64| #[trigger]
            index_page(c0.contents(), root0, d0, i, x) ==> index_page(c1.contents(), root1, d1, i, x),
        forall|x: u64| #[trigger]
            s0.footprint(c0).contains(x) ==> s1.footprint(c1).contains(x) || in_index(c1.contents(), root1, d1, x),
    ensures
        index_freed(s0, c0, s2, c2, root0, d0, root2, d2, tag, freed0, freed1),
{
    reveal(index_freed);
    reveal(index_kept);
    lemma_cow_chain(s0, c0, s1, c1, s2, c2, a, b);
    assert forall|i: int| freed0.len() <= i < freed1.len() implies {
        ||| taken(s0, c0, s2, c2, #[trigger] freed1[i])
        ||| index_page(c0.contents(), root0, d0, None, freed1[i])
        ||| index_page(c0.contents(), root0, d0, Some(tag), freed1[i])
    } by {
        let x = freed1[i];
        if taken(s1, c1, s2, c2, x) || taken(s0, c0, s1, c1, x) {
            assert(taken(s0, c0, s2, c2, x));
        }
    }
    assert forall|x: u64| #[trigger] index_page(c0.contents(), root0, d0, None, x) implies in_index(
        c2.contents(),
        root2,
        d2,
        x,
    ) || freed1.skip(freed0.len() as int).contains(x) by {
        assert(index_page(c1.contents(), root1, d1, None, x));
    }
    if inner_present(tag_value(c2.contents(), root2, d2, tag)) {
        assert forall|i: Option<u32>, x: u64| #[trigger] index_page(c0.contents(), root0, d0, i, x) implies in_index(
            c2.contents(),
            root2,
            d2,
            x,
        ) || freed1.skip(freed0.len() as int).contains(x) by {
            assert(index_page(c1.contents(), root1, d1, i, x));
        }
        assert forall|x: u64| #[trigger] s0.footprint(c0).contains(x) implies s2.footprint(c2).contains(x) || in_index(
            c2.contents(),
            root2,
            d2,
            x,
        ) || freed1.skip(freed0.len() as int).contains(x) by {
            if !s1.footprint(c1).contains(x) {
                let i = choose|i: Option<u32>| #[trigger] index_page(c1.contents(), root1, d1, i, x);
                assert(index_page(c1.contents(), root1, d1, i, x));
            }
        }
    }
}

impl MembershipIndex {
    /// Record that a handle carries a tag. Returns the new outer root; an index
    /// without a root gets one. The pages that the new index no longer uses are
    /// appended to `freed`.
    #[verifier::rlimit(40)]
    #[verifier::spinoff_prover]
    pub fn insert<A: PageSource>(
        &mut self,
        cache: &mut PageCache,
        outer_root: u64,
        tag: u32,
        handle: u64,
        source: &mut A,
        freed: &mut Vec<u64>,
    ) -> (outcome: Result<u64, ChiselError>)
        requires
            old(cache).inv(),
            old(cache).bounded(),
            old(source).ready(old(cache)),
            old(cache).watermark() > 0,
            old(self).spec_depth() <= MAX_DEPTH,
            outer_root != 0,
            old(cache).watermark() + index_insert_pages(A::growth()) <= usize::MAX,
            old(cache).watermark() + index_insert_pages(A::growth()) <= INNER_ROOT_MASK,
            index_in(
                old(cache).contents(),
                outer_root,
                old(self).spec_depth(),
                old(source).footprint(old(cache)).complement(),
            ),
        ensures
            cow_step(
                old(source),
                old(cache),
                final(source),
                final(cache),
                enter_pages(old(cache).contents(), outer_root, old(self).spec_depth(), tag, handle, A::growth()),
            ),
            final(self).spec_depth() <= MAX_DEPTH,
            outcome matches Ok(n) ==> {
                &&& n != 0 && n != PAGE_ID_NONE
                &&& members_updated(
                    old(cache).contents(),
                    outer_root,
                    old(self).spec_depth(),
                    final(cache).contents(),
                    n,
                    final(self).spec_depth(),
                    tag,
                    handle,
                    true,
                )
                &&& index_clean(old(cache).contents(), outer_root, old(self).spec_depth()) ==> index_clean(
                    final(cache).contents(),
                    n,
                    final(self).spec_depth(),
                )
                &&& index_kept(
                    old(source),
                    old(cache),
                    final(source),
                    final(cache),
                    outer_root,
                    old(self).spec_depth(),
                    n,
                    final(self).spec_depth(),
                )
                &&& index_freed(
                    old(source),
                    old(cache),
                    final(source),
                    final(cache),
                    outer_root,
                    old(self).spec_depth(),
                    n,
                    final(self).spec_depth(),
                    tag,
                    old(freed)@,
                    final(freed)@,
                )
                &&& (outer_root == PAGE_ID_NONE || tree_headed(
                    old(cache).contents(),
                    SLOTS_PER_PAGE as nat,
                    outer_root,
                    old(self).spec_depth(),
                    radix_head(),
                )) ==> tree_headed(
                    final(cache).contents(),
                    SLOTS_PER_PAGE as nat,
                    n,
                    final(self).spec_depth(),
                    radix_head(),
                )
            },
            outcome matches Err(e) ==> {
                &&& final(self).spec_depth() == old(self).spec_depth()
                &&& overrun(
                    old(cache),
                    final(cache),
                    e,
                    enter_pages(old(cache).contents(), outer_root, old(self).spec_depth(), tag, handle, A::growth()),
                ) || index_explains(
                    old(cache),
                    outer_root,
                    old(self).spec_depth(),
                    tag,
                    e,
                )
                &&& old(freed)@.is_prefix_of(final(freed)@)
            },
    {
        let ghost c = SLOTS_PER_PAGE as nat;
        let ghost g = A::growth();
        let ghost total = enter_pages(cache.contents(), outer_root, self.spec_depth(), tag, handle, g);
        let ghost s0 = *source;
        let ghost c0 = *cache;
        let ghost f0 = freed@;
        let ghost d0 = self.spec_depth();
        let ghost made: nat = if outer_root == PAGE_ID_NONE {
            1
        } else {
            0
        };
        let mut outer = RadixU64 { depth: self.outer_depth };
        let root: u64 = if outer_root == PAGE_ID_NONE {
            let fresh = outer.create_root(cache);
            proof {
                lemma_cow_extend(source, &c0, cache, 1);
            }
            match fresh {
                Ok(id) => {
                    proof {
                        lemma_index_created(&s0, &c0, source, cache, d0, id);
                    }
                    id
                },
                Err(e) => {
                    return Err(e);
                },
            }
        } else {
            proof {
                lemma_cow_look(source, &c0, cache);
                lemma_index_looked(source, &c0, cache, outer_root, d0);
            }
            outer_root
        };
        let ghost c1 = *cache;
        let ghost d1 = outer.spec_depth();
        proof {
            assert(cow_step(&s0, &c0, &s0, &c1, made));
            assert(index_kept(&s0, &c0, &s0, &c1, outer_root, d0, root, d1));
            lemma_index_outside(&s0, &c0, &s0, &c1, outer_root, d0, root, d1);
        }
        let (inner_root_id, inner_depth_now) = match Self::find_inner(&outer, cache, root, tag) {
            Ok(inner) => inner,
            Err(e) => {
                proof {
                    lemma_cow_look(source, &c1, cache);
                    lemma_cow_chain(&s0, &c0, &s0, &c1, source, cache, made, 0);
                    if made == 1 {
                        lemma_fresh_explains(&s0, &c0, &s0, &c1, root, tag, e);
                    }
                }
                return Err(e);
            },
        };
        let ghost c2 = *cache;
        let ghost m1 = radix_insert_pages(start_depth(inner_root_id, inner_depth_now), handle, g);
        let ghost m2 = radix_insert_pages(d1, tag as u64, g);
        proof {
            lemma_radix_insert_pages(start_depth(inner_root_id, inner_depth_now), handle, g);
            lemma_radix_insert_pages(d1, tag as u64, g);
            assert(total == 2 + m1 + m2);
            lemma_cow_look(source, &c1, cache);
            lemma_index_looked(source, &c1, cache, root, d1);
            lemma_cow_chain(&s0, &c0, &s0, &c1, &s0, &c2, made, 0);
            lemma_index_chain(&s0, &c0, &s0, &c1, &s0, &c2, made, 0, outer_root, d0, root, d1, root, d1);
            lemma_index_outside(&s0, &c0, &s0, &c2, outer_root, d0, root, d1);
            let roots = index_roots(c2.contents(), root, d1);
            assert(roots(Some(tag)) == inner_place(inner_root_id, inner_depth_now as nat));
            assert forall|x: u64| #[trigger] s0.footprint(&c0).contains(x) implies s0.footprint(&c2).contains(x)
                || in_index(c2.contents(), root, d1, x) by {
                if made == 1 && !s0.footprint(&c1).contains(x) {
                    assert(x == root);
                    assert(index_page(c2.contents(), root, d1, None, x));
                }
            }
        }
        let (new_inner, new_depth) = match Self::insert_inner(
            cache,
            inner_root_id,
            inner_depth_now,
            handle,
            source,
            freed,
        ) {
            Ok(inner) => inner,
            Err(e) => {
                proof {
                    lemma_cow_chain(&s0, &c0, &s0, &c2, source, cache, made, 1 + m1);
                    if !too_many(&c2, e, 1 + m1) {
                        assert(inner_root_id != 0);
                        if made == 1 {
                            assert(tag_value(c1.contents(), root, 0, tag) == 0);
                            assert(false);
                        }
                        lemma_path_tree_explains(&c2, inner_root_id, inner_depth_now as nat, handle, e);
                        lemma_same_tree_explains(&c0, &c2, c, inner_root_id, inner_depth_now as nat, e);
                    }
                }
                return Err(e);
            },
        };
        let ghost s3 = *source;
        let ghost c3 = *cache;
        let ghost f3 = freed@;
        proof {
            lemma_cow_chain(&s0, &c0, &s0, &c2, &s3, &c3, made, 1 + m1);
            lemma_tree_stays(&s0, &c2, &s3, &c3, 1 + m1, c, root, d1);
            lemma_tree_mono(
                c3.contents(),
                c,
                root,
                d1,
                s0.footprint(&c2).complement(),
                s3.footprint(&c3).complement(),
            );
            lemma_taken_id(&s0, &c2, &s3, &c3, new_inner);
        }
        let packed: u64 = pack_inner(new_inner, new_depth);
        match outer.insert(cache, root, tag as u64, packed, source, freed) {
            Ok(n) => {
                proof {
                    let d5 = outer.spec_depth();
                    lemma_radix_depth(d1, tag as u64);
                    lemma_cow_chain(&s0, &c0, &s3, &c3, source, cache, made + (1 + m1), m2);
                    lemma_freed_place(&s3, &c3, source, cache, c, root, d1, n, d5, tag as nat, f3, freed@);
                    lemma_index_changed(
                        &s0,
                        &c2,
                        &s3,
                        &c3,
                        source,
                        cache,
                        1 + m1,
                        m2,
                        root,
                        d1,
                        new_inner,
                        new_depth as nat,
                        n,
                        d5,
                        tag,
                        handle,
                        packed,
                        true,
                    );
                    lemma_index_freed(
                        &s0,
                        &c2,
                        &s3,
                        &c3,
                        source,
                        cache,
                        1 + m1,
                        m2,
                        root,
                        d1,
                        new_inner,
                        new_depth as nat,
                        n,
                        d5,
                        tag,
                        packed,
                        f0,
                        f3,
                        freed@,
                    );
                    lemma_index_chain(
                        &s0,
                        &c0,
                        &s0,
                        &c2,
                        source,
                        cache,
                        made,
                        1 + m1 + m2,
                        outer_root,
                        d0,
                        root,
                        d1,
                        n,
                        d5,
                    );
                    lemma_freed_lift(
                        &s0,
                        &c0,
                        &s0,
                        &c2,
                        source,
                        cache,
                        made,
                        1 + m1 + m2,
                        outer_root,
                        d0,
                        root,
                        d1,
                        n,
                        d5,
                        tag,
                        f0,
                        freed@,
                    );
                    lemma_headed_stays(&s0, &c2, &s3, &c3, 1 + m1, root, d1);
                }
                self.outer_depth = outer.depth;
                Ok(n)
            },
            Err(e) => {
                proof {
                    lemma_cow_chain(&s0, &c0, &s3, &c3, source, cache, made + (1 + m1), m2);
                    if !too_many(&c3, e, m2) {
                        lemma_unsound_before(&s0, &c2, &s3, &c3, 1 + m1, root, d1, tag as u64, e);
                        if made == 1 {
                            lemma_fresh_unsound(&s0, &c0, &s0, &c1, root, tag, e);
                        }
                    }
                }
                Err(e)
            },
        }
    }
}

/// A failure in a tree that grew from another is one in that tree, or comes from
/// the limits: fresh pages are sound.
proof fn lemma_grown_explains<A: PageSource>(
    s0: &A,
    c0: &PageCache,
    s1: &A,
    c1: &PageCache,
    m: nat,
    old: Place,
    new: Place,
    e: ChiselError,
)
    requires
        cow_step(s0, c0, s1, c1, m),
        tree_in(c0.contents(), SLOTS_PER_PAGE as nat, old.0, old.1, s0.footprint(c0).complement()),
        grows_from(s0, c0, s1, c1, SLOTS_PER_PAGE as nat, Some(old), new),
        tree_explains(c1, SLOTS_PER_PAGE as nat, new.0, new.1, e),
    ensures
        too_many(c0, e, m) || tree_explains(c0, SLOTS_PER_PAGE as nat, old.0, old.1, e),
{
    reveal(grows_from);
    let c = SLOTS_PER_PAGE as nat;
    if !too_many(c0, e, m) {
        let (k, l) = choose|k: nat, l: nat|
            k < reach(c, new.1) && l <= new.1 && ((#[trigger] node_at(c1.contents(), c, new.0, new.1, k, l)) matches Some(
                id,
            ) && !c1.sound(id) && e == c1.read_error(id));
        let id = node_at(c1.contents(), c, new.0, new.1, k, l)->0;
        let nodes = nodes_of(c0.contents(), c, old.0, old.1);
        lemma_nodes(c0.contents(), c, old.0, old.1);
        assert(nodes.disjoint(s0.footprint(c0)));
        assert(nodes.union(taken_pages(s0, c0, s1, c1)).contains(id));
        assert(!taken(s0, c0, s1, c1, id));
        assert(nodes.contains(id));
        let (k0, l0) = choose|k: nat, l: nat|
            k < reach(c, old.1) && l <= old.1 && #[trigger] node_at(c0.contents(), c, old.0, old.1, k, l) == Some(id);
        lemma_agree_at(c0, c1, s0.footprint(c0).complement(), id);
        assert(node_at(c0.contents(), c, old.0, old.1, k0, l0) == Some(id));
    }
}

/// Looking at pages does not change what became of a tree.
proof fn lemma_looked_place<A: PageSource>(
    s0: &A,
    c0: &PageCache,
    s1: &A,
    c1: &PageCache,
    c2: &PageCache,
    c: nat,
    old: Option<Place>,
    new: Place,
    freed0: Seq<u64>,
    freed1: Seq<u64>,
)
    requires
        c2.same_pages(c1),
        s1.footprint(c2) == s1.footprint(c1),
        grows_from(s0, c0, s1, c1, c, old, new),
        place_freed(s0, c0, s1, c1, c, old, new, freed0, freed1),
    ensures
        grows_from(s0, c0, s1, c2, c, old, new),
        place_freed(s0, c0, s1, c2, c, old, new, freed0, freed1),
{
    reveal(grows_from);
    reveal(place_freed);
    assert(taken_pages(s0, c0, s1, c1) =~= taken_pages(s0, c0, s1, c2));
    assert forall|x: u64| taken(s0, c0, s1, c1, x) == taken(s0, c0, s1, c2, x) by {}
}

/// Members of the tag after its inner tree lost one handle.
proof fn lemma_deleted_members(
    before: Map<u64, Seq<u8>>,
    after: Map<u64, Seq<u8>>,
    root: u64,
    depth: nat,
    new_root: u64,
    new_depth: nat,
    tag: u32,
    handle: u64,
)
    requires
        inner_present(tag_value(before, root, depth, tag)),
        radix_updated(
            before,
            inner_root(tag_value(before, root, depth, tag)),
            inner_depth(tag_value(before, root, depth, tag)),
            after,
            new_root,
            new_depth,
            handle,
            0,
        ),
    ensures
        forall|h: u64| #[trigger]
            radix_lookup(after, new_root, new_depth, h) != 0 <==> (if h == handle {
                false
            } else {
                is_member(before, root, depth, tag, h)
            }),
        !any_below(after, new_root, new_depth) ==> forall|h: u64| #[trigger]
            radix_lookup(after, new_root, new_depth, h) == 0,
{
    if !any_below(after, new_root, new_depth) {
        assert forall|h: u64| #[trigger] radix_lookup(after, new_root, new_depth, h) == 0 by {
            if h < reach(SLOTS_PER_PAGE as nat, new_depth) {
                assert(node_value(after, new_root, new_depth, h as nat) == 0);
            }
        }
    }
}

impl MembershipIndex {
    /// Record that a handle no longer carries a tag. Returns the outer root and
    /// whether the handle carried the tag; if it did not, nothing changes. The
    /// outer entry of a tag without members is removed. The pages that the new
    /// index no longer uses are appended to `freed`, except for those of an
    /// inner tree that became empty.
    #[verifier::rlimit(40)]
    #[verifier::spinoff_prover]
    pub fn remove<A: PageSource>(
        &mut self,
        cache: &mut PageCache,
        outer_root: u64,
        tag: u32,
        handle: u64,
        source: &mut A,
        freed: &mut Vec<u64>,
    ) -> (outcome: Result<(u64, bool), ChiselError>)
        requires
            old(cache).inv(),
            old(cache).bounded(),
            old(source).ready(old(cache)),
            old(self).spec_depth() <= MAX_DEPTH,
            outer_root != 0,
            old(cache).watermark() + index_remove_pages(A::growth()) <= usize::MAX,
            old(cache).watermark() + index_remove_pages(A::growth()) <= INNER_ROOT_MASK,
            index_in(
                old(cache).contents(),
                outer_root,
                old(self).spec_depth(),
                old(source).footprint(old(cache)).complement(),
            ),
        ensures
            cow_step(old(source), old(cache), final(source), final(cache), index_remove_pages(A::growth())),
            final(self).spec_depth() <= MAX_DEPTH,
            outcome matches Ok((n, found)) ==> found == is_member(
                old(cache).contents(),
                outer_root,
                old(self).spec_depth(),
                tag,
                handle,
            ),
            outcome matches Ok((n, false)) ==> n == outer_root && final(self).spec_depth() == old(self).spec_depth()
                && final(cache).same_pages(old(cache)) && *final(source) == *old(source) && final(freed)@ == old(freed)@,
            outcome matches Ok((n, true)) ==> {
                &&& n != 0 && n != PAGE_ID_NONE
                &&& members_updated(
                    old(cache).contents(),
                    outer_root,
                    old(self).spec_depth(),
                    final(cache).contents(),
                    n,
                    final(self).spec_depth(),
                    tag,
                    handle,
                    false,
                )
                &&& index_clean(old(cache).contents(), outer_root, old(self).spec_depth()) ==> index_clean(
                    final(cache).contents(),
                    n,
                    final(self).spec_depth(),
                )
                &&& index_kept(
                    old(source),
                    old(cache),
                    final(source),
                    final(cache),
                    outer_root,
                    old(self).spec_depth(),
                    n,
                    final(self).spec_depth(),
                )
                &&& index_freed(
                    old(source),
                    old(cache),
                    final(source),
                    final(cache),
                    outer_root,
                    old(self).spec_depth(),
                    n,
                    final(self).spec_depth(),
                    tag,
                    old(freed)@,
                    final(freed)@,
                )
                &&& tree_headed(
                    old(cache).contents(),
                    SLOTS_PER_PAGE as nat,
                    outer_root,
                    old(self).spec_depth(),
                    radix_head(),
                ) ==> tree_headed(
                    final(cache).contents(),
                    SLOTS_PER_PAGE as nat,
                    n,
                    final(self).spec_depth(),
                    radix_head(),
                )
            },
            outcome matches Err(e) ==> {
                &&& final(self).spec_depth() == old(self).spec_depth()
                &&& overrun(old(cache), final(cache), e, index_remove_pages(A::growth())) || index_explains(
                    old(cache),
                    outer_root,
                    old(self).spec_depth(),
                    tag,
                    e,
                )
                &&& old(freed)@.is_prefix_of(final(freed)@)
            },
    {
        let ghost c = SLOTS_PER_PAGE as nat;
        let ghost g = A::growth();
        let ghost m = radix_insert_requests() * g;
        let ghost q = ((MAX_DEPTH + 1) * g) as nat;
        let ghost s0 = *source;
        let ghost c0 = *cache;
        let ghost f0 = freed@;
        let ghost d0 = self.spec_depth();
        proof {
            lemma_cow_look(source, &c0, cache);
            assert(q <= m) by (nonlinear_arith)
                requires
                    q == (MAX_DEPTH + 1) * g,
                    m == 19 * g,
                    MAX_DEPTH == 6,
                    g >= 0,
            ;
        }
        if outer_root == PAGE_ID_NONE {
            return Ok((outer_root, false));
        }
        let mut outer = RadixU64 { depth: self.outer_depth };
        let (root, depth) = match Self::find_inner(&outer, cache, outer_root, tag) {
            Ok(inner) => inner,
            Err(e) => {
                proof {
                    lemma_cow_look(source, &c0, cache);
                }
                return Err(e);
            },
        };
        let ghost c1 = *cache;
        proof {
            lemma_cow_look(source, &c0, cache);
            lemma_index_looked(source, &c0, cache, outer_root, d0);
            lemma_index_outside(&s0, &c0, &s0, &c1, outer_root, d0, outer_root, d0);
            let roots = index_roots(c1.contents(), outer_root, d0);
            assert(roots(Some(tag)) == inner_place(root, depth as nat));
        }
        if root == 0 {
            return Ok((outer_root, false));
        }
        let mut inner = RadixU64 { depth };
        let (new_inner, before) = match inner.delete(cache, root, handle, source, freed) {
            Ok(r) => r,
            Err(e) => {
                proof {
                    lemma_cow_chain(&s0, &c0, &s0, &c1, source, cache, 0, q);
                    if !too_many(&c1, e, q) {
                        lemma_path_tree_explains(&c1, root, depth as nat, handle, e);
                        lemma_same_tree_explains(&c0, &c1, c, root, depth as nat, e);
                    }
                }
                return Err(e);
            },
        };
        let ghost s2 = *source;
        let ghost c2 = *cache;
        let ghost f2 = freed@;
        proof {
            lemma_cow_chain(&s0, &c0, &s0, &c1, &s2, &c2, 0, q);
        }
        if before == 0 {
            return Ok((outer_root, false));
        }
        proof {
            lemma_kept_grows(&s0, &c1, &s2, &c2, c, root, depth as nat, new_inner, depth as nat);
            lemma_freed_place(
                &s0,
                &c1,
                &s2,
                &c2,
                c,
                root,
                depth as nat,
                new_inner,
                depth as nat,
                handle as nat,
                f0,
                f2,
            );
            lemma_taken_id(&s0, &c1, &s2, &c2, new_inner);
        }
        let any: bool = match inner.any_present(cache, new_inner) {
            Ok(any) => any,
            Err(e) => {
                proof {
                    lemma_cow_look(source, &c2, cache);
                    lemma_cow_chain(&s0, &c0, &s2, &c2, source, cache, q, 0);
                    lemma_grown_explains(
                        &s0,
                        &c1,
                        &s2,
                        &c2,
                        q,
                        (root, depth as nat),
                        (new_inner, depth as nat),
                        e,
                    );
                    if !too_many(&c1, e, q) {
                        lemma_same_tree_explains(&c0, &c1, c, root, depth as nat, e);
                    }
                }
                return Err(e);
            },
        };
        let ghost c3 = *cache;
        proof {
            lemma_cow_look(source, &c2, cache);
            lemma_cow_chain(&s0, &c1, &s2, &c2, &s2, &c3, q, 0);
            lemma_cow_chain(&s0, &c0, &s2, &c2, &s2, &c3, q, 0);
            lemma_looked_place(&s0, &c1, &s2, &c2, &c3, c, Some((root, depth as nat)), (new_inner, depth as nat), f0, f2);
            lemma_tree_stays(&s0, &c1, &s2, &c3, q, c, outer_root, d0);
            lemma_tree_mono(
                c3.contents(),
                c,
                outer_root,
                d0,
                s0.footprint(&c1).complement(),
                s2.footprint(&c3).complement(),
            );
            lemma_headed_stays(&s0, &c1, &s2, &c3, q, outer_root, d0);
            lemma_lookup_stays(&s0, &c1, &s2, &c3, q, outer_root, d0);
            lemma_deleted_members(c1.contents(), c3.contents(), outer_root, d0, new_inner, depth as nat, tag, handle);
        }
        let packed: u64 = if any {
            pack_inner(new_inner, inner.depth)
        } else {
            0
        };
        let changed: Result<u64, ChiselError> = if any {
            outer.insert(cache, outer_root, tag as u64, packed, source, freed)
        } else {
            match outer.delete(cache, outer_root, tag as u64, source, freed) {
                Ok((n, _)) => Ok(n),
                Err(e) => Err(e),
            }
        };
        proof {
            lemma_radix_insert_pages(d0, tag as u64, g);
            if any {
                lemma_cow_more(&s2, &c3, source, cache, radix_insert_pages(d0, tag as u64, g), m);
            } else {
                lemma_cow_more(&s2, &c3, source, cache, q, m);
            }
            lemma_cow_chain(&s0, &c0, &s2, &c3, source, cache, q, m);
        }
        match changed {
            Ok(n) => {
                proof {
                    let d5 = outer.spec_depth();
                    lemma_radix_depth(d0, tag as u64);
                    lemma_freed_place(&s2, &c3, source, cache, c, outer_root, d0, n, d5, tag as nat, f2, freed@);
                    lemma_index_changed(
                        &s0,
                        &c1,
                        &s2,
                        &c3,
                        source,
                        cache,
                        q,
                        m,
                        outer_root,
                        d0,
                        new_inner,
                        depth as nat,
                        n,
                        d5,
                        tag,
                        handle,
                        packed,
                        false,
                    );
                    lemma_index_freed(
                        &s0,
                        &c1,
                        &s2,
                        &c3,
                        source,
                        cache,
                        q,
                        m,
                        outer_root,
                        d0,
                        new_inner,
                        depth as nat,
                        n,
                        d5,
                        tag,
                        packed,
                        f0,
                        f2,
                        freed@,
                    );
                    lemma_index_chain(
                        &s0,
                        &c0,
                        &s0,
                        &c1,
                        source,
                        cache,
                        0,
                        q + m,
                        outer_root,
                        d0,
                        outer_root,
                        d0,
                        n,
                        d5,
                    );
                    lemma_freed_lift(
                        &s0,
                        &c0,
                        &s0,
                        &c1,
                        source,
                        cache,
                        0,
                        q + m,
                        outer_root,
                        d0,
                        outer_root,
                        d0,
                        n,
                        d5,
                        tag,
                        f0,
                        freed@,
                    );
                }
                self.outer_depth = outer.depth;
                Ok((n, true))
            },
            Err(e) => {
                proof {
                    lemma_prefix_trans(f0, f2, freed@);
                    if !too_many(&c3, e, m) {
                        lemma_unsound_before(&s0, &c1, &s2, &c3, q, outer_root, d0, tag as u64, e);
                    }
                }
                Err(e)
            },
        }
    }
}

} // verus!
