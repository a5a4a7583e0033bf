//! Checking that the pages of a database are sound.
//!
//! Pages that were only opened may hold anything. Before the first transaction
//! changes them, every page that the superblock leads to is looked at once.

use vstd::prelude::*;

use rustc_hash::FxHashSet;

use crate::commit::{clean, disk_map};
use crate::error::ChiselError;
use crate::forest::{lemma_nodes, nodes_of};
use crate::freemap_tree::{page_fault, path_fault, tree_fault, tree_typed, LEAF_CAPACITY, MAX_DEPTH};
use crate::fx::{set_contains, set_insert};
use crate::handle_table::{table_head, ENTRIES_PER_LEAF};
use crate::inspect::{claim_tree, fits, reaches_leaf, tree_fits, tree_sane, unclaimed, Shape};
use crate::listing::tree_explains;
use crate::membership_index::{
    index_page, index_roots, inner_corrupt, inner_depth, inner_present, inner_root, tag_value, unpack_inner,
};
use crate::page::{checksum_ok, PAGE_ID_NONE};
use crate::page_cache::PageCache;
use crate::page_source::{Extend, PageSource};
use crate::persist::{map_frees, map_nodes, map_sound};
use crate::pool::{good, pool_ok};
use crate::radix::{is_tree, node_at, page_at, reach, tree_in};
use crate::radix_u64::{law_radix_listing_is_lookup, radix_head, radix_lookup, RadixU64, SLOTS_PER_PAGE};
use crate::recycler::{lemma_no_fault, sound_pages};
use crate::spine::{head_of, lemma_tree_mono, tree_headed};
use crate::store::{index_nodes, index_sound, sound_store, table_nodes, table_sound, tags_agree, Roots};
use crate::superblock::count_ok;
use crate::workspace::{looked, Workspace};

verus! {

/// Pages that were opened, and nothing more.
pub open spec fn opened(w: &Workspace) -> bool {
    &&& w.readable()
    &&& count_ok(w.slots as int)
    &&& w.cache.watermark() <= w.cache.disk().len()
    &&& w.freed@.len() == 0
    &&& w.deferred@.len() == 0
    &&& w.cursor is None
    &&& w.bins@ == Set::<u64>::empty()
    &&& w.cache.unsaved() == Set::<u64>::empty()
    &&& w.cache.pending() == 0
    &&& w.cache.contents() == disk_map(w.cache.disk())
    &&& w.recycler.tree.root == w.recycler.saved_root
    &&& w.recycler.tree.depth == w.recycler.saved_depth
    &&& w.recycler.tree.session_owned@ == Set::<u64>::empty()
    &&& w.recycler.tree.pending_superseded@.len() == 0
    &&& w.recycler.hint == 0
}

/// The freemap has pages of its own past the superblock slots, and marks only
/// other pages past the slots.
pub open spec fn map_fine(w: &Workspace) -> bool {
    let c = &w.cache;
    let t = &w.recycler.tree;
    t.root != PAGE_ID_NONE ==> {
        &&& t.depth <= MAX_DEPTH
        &&& t.root != 0
        &&& tree_sane(
            c.contents(),
            LEAF_CAPACITY as nat,
            t.root,
            t.spec_depth(),
            Shape::Freemap,
            unclaimed(w.slots as u64, c.watermark(), Set::<u64>::empty()),
        )
        &&& forall|id: u64| #[trigger]
            map_frees(c, t, id) ==> w.slots <= id < c.watermark() && !map_nodes(c, t).contains(id)
    }
}

/// The pages are sound.
pub open spec fn fine(w: &Workspace) -> bool {
    &&& w.slots <= w.cache.watermark()
    &&& map_fine(w)
    &&& sound_store(w.cache.contents(), good(&w.cache, &w.recycler, w.slots), w.roots)
    &&& tags_agree(w.cache.contents(), w.roots)
}

/// The pages that the freemap has or marks free.
pub open spec fn map_pages(w: &Workspace) -> Set<u64> {
    Set::new(
        |id: u64|
            map_nodes(&w.cache, &w.recycler.tree).contains(id) || map_frees(&w.cache, &w.recycler.tree, id),
    )
}

/// A freemap with pages of its own can be read.
proof fn lemma_sane_map(w: &Workspace)
    requires
        opened(w),
        w.recycler.tree.root != PAGE_ID_NONE ==> {
            &&& w.recycler.tree.depth <= MAX_DEPTH
            &&& w.recycler.tree.root != 0
            &&& tree_sane(
                w.cache.contents(),
                LEAF_CAPACITY as nat,
                w.recycler.tree.root,
                w.recycler.tree.spec_depth(),
                Shape::Freemap,
                unclaimed(w.slots as u64, w.cache.watermark(), Set::<u64>::empty()),
            )
        },
    ensures
        map_sound(&w.cache, &w.recycler.tree),
        forall|id: u64| #[trigger]
            map_nodes(&w.cache, &w.recycler.tree).contains(id) ==> w.slots <= id < w.cache.watermark(),
{
    let c = &w.cache;
    let t = &w.recycler.tree;
    let pages = c.contents();
    let b = LEAF_CAPACITY as nat;
    let d = t.spec_depth();
    let room = unclaimed(w.slots as u64, c.watermark(), Set::<u64>::empty());
    if t.root != PAGE_ID_NONE {
        lemma_nodes(pages, b, t.root, d);
        assert(tree_in(pages, b, t.root, d, room));
        lemma_tree_mono(pages, b, t.root, d, room, Extend.footprint(c).complement());
        assert(tree_typed(pages, t.root, d)) by {
            assert forall|k: nat, l: nat| k < reach(b, d) && l <= d implies ((#[trigger] node_at(
                pages,
                b,
                t.root,
                d,
                k,
                l,
            )) matches Some(p) ==> crate::freemap_tree::node_ok(page_at(pages, p), l)) by {
                assert(tree_fits(pages, b, t.root, d, Shape::Freemap));
            }
        }
        assert(tree_in(pages, b, t.root, d, sound_pages(c))) by {
            assert forall|k: nat, l: nat| k < reach(b, d) && l <= d implies ((#[trigger] node_at(
                pages,
                b,
                t.root,
                d,
                k,
                l,
            )) matches Some(p) ==> sound_pages(c).contains(p)) by {
                if node_at(pages, b, t.root, d, k, l) is Some {
                    let p = node_at(pages, b, t.root, d, k, l)->0;
                    assert(room.contains(p));
                    assert(pages.contains_key(p));
                    assert(fits(Shape::Freemap, page_at(pages, p), l));
                }
            }
        }
        assert forall|id: u64| #[trigger] map_nodes(c, t).contains(id) implies room.contains(id) by {}
    }
}

/// A freemap with pages of its own can be used.
pub proof fn lemma_map_fine(w: &Workspace)
    requires
        opened(w),
        w.slots <= w.cache.watermark(),
        map_fine(w),
    ensures
        map_sound(&w.cache, &w.recycler.tree),
        pool_ok(&w.cache, &w.recycler, w.slots),
        good(&w.cache, &w.recycler, w.slots) == Set::new(
            |id: u64|
                unclaimed(w.slots as u64, w.cache.watermark(), map_pages(w)).contains(id) && checksum_ok(
                    w.cache.contents()[id],
                ),
        ),
        forall|id: u64| #[trigger] map_pages(w).contains(id) ==> w.slots <= id < w.cache.watermark(),
{
    let c = &w.cache;
    let t = &w.recycler.tree;
    lemma_sane_map(w);
    crate::commit::lemma_source_ready(c, &w.recycler);
    let f = w.recycler.footprint(c);
    assert forall|id: u64| id < w.slots implies !(#[trigger] f.contains(id)) by {
        if map_frees(c, t, id) {
            assert(w.slots <= id);
        }
    }
    assert(good(c, &w.recycler, w.slots) =~= Set::new(
        |id: u64|
            unclaimed(w.slots as u64, c.watermark(), map_pages(w)).contains(id) && checksum_ok(c.contents()[id]),
    ));
}

/// The freemap of a clean state has pages of its own.
pub proof fn lemma_clean_fine(w: &Workspace)
    requires
        clean(w),
        count_ok(w.slots as int),
    ensures
        fine(w),
{
    let c = &w.cache;
    let t = &w.recycler.tree;
    let pages = c.contents();
    let b = LEAF_CAPACITY as nat;
    let d = t.spec_depth();
    let f = w.recycler.footprint(c);
    let room = unclaimed(w.slots as u64, c.watermark(), Set::<u64>::empty());
    if t.root != PAGE_ID_NONE {
        lemma_nodes(pages, b, t.root, d);
        assert(map_nodes(c, t) == w.recycler.nodes(c));
        assert forall|id: u64| #[trigger] map_nodes(c, t).contains(id) implies room.contains(id) by {
            assert(f.contains(id));
            assert(Extend.footprint(c).complement().contains(id));
        }
        lemma_tree_mono(pages, b, t.root, d, map_nodes(c, t), room);
        assert forall|k: nat, l: nat| k < reach(b, d) && l <= d implies ((#[trigger] node_at(
            pages,
            b,
            t.root,
            d,
            k,
            l,
        )) matches Some(p) ==> fits(Shape::Freemap, page_at(pages, p), l)) by {
            if node_at(pages, b, t.root, d, k, l) is Some {
                let p = node_at(pages, b, t.root, d, k, l)->0;
                assert(crate::freemap_tree::node_ok(page_at(pages, p), l));
            }
        }
        assert forall|id: u64| #[trigger] map_frees(c, t, id) implies w.slots <= id < c.watermark() && !map_nodes(
            c,
            t,
        ).contains(id) by {
            assert(w.recycler.frees(c, id));
            assert(t.marks_free(c, id));
            assert(f.contains(id));
        }
    }
}

impl Workspace {
    /// Claim the pages that the freemap marks free; says if they are other pages
    /// past the slots.
    fn audit_free(&mut self, claimed: &mut FxHashSet<u64>) -> (outcome: Result<bool, ChiselError>)
        requires
            opened(old(self)),
            old(self).slots <= old(self).cache.watermark(),
            old(self).recycler.tree.root != PAGE_ID_NONE,
            old(self).recycler.tree.root != 0,
            old(self).recycler.tree.depth <= MAX_DEPTH,
            tree_sane(
                old(self).cache.contents(),
                LEAF_CAPACITY as nat,
                old(self).recycler.tree.root,
                old(self).recycler.tree.spec_depth(),
                Shape::Freemap,
                unclaimed(old(self).slots as u64, old(self).cache.watermark(), Set::<u64>::empty()),
            ),
            old(claimed)@ == map_nodes(&old(self).cache, &old(self).recycler.tree),
        ensures
            looked(old(self), final(self)),
            match outcome {
                Ok(true) => map_fine(old(self)) && final(claimed)@ == map_pages(old(self)),
                Ok(false) => !map_fine(old(self)),
                Err(_) => false,
            },
    {
        let ghost w0 = *self;
        let ghost c0 = self.cache;
        let ghost t0 = self.recycler.tree;
        let ghost nodes = claimed@;
        let lo: u64 = self.slots as u64;
        let hi: u64 = self.cache.next_page_id();
        proof {
            lemma_sane_map(&w0);
        }
        match self.recycler.tree.scan_from(&mut self.cache, hi) {
            Ok(None) => {},
            Ok(Some(id)) => {
                assert(map_frees(&c0, &t0, id));
                return Ok(false);
            },
            Err(e) => {
                proof {
                    lemma_no_fault(&c0, t0.root, t0.spec_depth(), e);
                }
                return Err(e);
            },
        }
        let mut id: u64 = 0;
        while id < hi
            invariant
                id <= hi,
                lo == w0.slots,
                hi == c0.watermark(),
                lo <= hi,
                c0 == w0.cache,
                t0 == w0.recycler.tree,
                w0 == *old(self),
                opened(&w0),
                looked(&w0, self),
                t0.root != PAGE_ID_NONE,
                t0.depth <= MAX_DEPTH,
                map_sound(&c0, &t0),
                nodes == map_nodes(&c0, &t0),
                forall|k: u64| hi <= k ==> !(#[trigger] t0.marks_free(&c0, k)),
                forall|k: u64| k < id && #[trigger] t0.marks_free(&c0, k) ==> lo <= k && !nodes.contains(k),
                forall|k: u64| #[trigger] claimed@.contains(k) <==> nodes.contains(k) || k < id && t0.marks_free(&c0, k),
            decreases hi - id,
        {
            let free: bool = match self.recycler.tree.is_free(&mut self.cache, id) {
                Ok(free) => free,
                Err(e) => {
                    proof {
                        lemma_no_path_fault(&c0, t0.root, t0.spec_depth(), id as nat, e);
                    }
                    return Err(e);
                },
            };
            if free {
                if id < lo || set_contains(claimed, id) {
                    assert(map_frees(&c0, &t0, id));
                    return Ok(false);
                }
                set_insert(claimed, id);
            }
            id += 1;
        }
        proof {
            assert forall|k: u64| #[trigger] map_frees(&c0, &t0, k) implies lo <= k < hi && !nodes.contains(k) by {
                assert(t0.marks_free(&c0, k));
            }
            assert forall|k: u64| claimed@.contains(k) == map_pages(&w0).contains(k) by {
                if map_frees(&c0, &t0, k) {
                    assert(t0.marks_free(&c0, k));
                }
            }
            assert(claimed@ =~= map_pages(&w0));
        }
        Ok(true)
    }

    /// Claim the pages that the freemap has or marks free; says if it is sound.
    pub fn audit_map(&mut self, claimed: &mut FxHashSet<u64>) -> (outcome: Result<bool, ChiselError>)
        requires
            opened(old(self)),
            old(self).slots <= old(self).cache.watermark(),
            old(claimed)@ == Set::<u64>::empty(),
        ensures
            looked(old(self), final(self)),
            match outcome {
                Ok(true) => map_fine(old(self)) && final(claimed)@ == map_pages(old(self)),
                Ok(false) => !map_fine(old(self)),
                Err(e) => e.spec_is_fatal() && !map_fine(old(self)),
            },
    {
        let ghost w0 = *self;
        let ghost c0 = self.cache;
        let ghost t0 = self.recycler.tree;
        let root: u64 = self.recycler.tree.root;
        if root == PAGE_ID_NONE {
            assert(map_pages(&w0) =~= Set::<u64>::empty());
            return Ok(true);
        }
        if self.recycler.tree.depth > MAX_DEPTH || root == 0 {
            return Ok(false);
        }
        let lo: u64 = self.slots as u64;
        let hi: u64 = self.cache.next_page_id();
        let depth: u32 = self.recycler.tree.depth;
        let ghost b = LEAF_CAPACITY as nat;
        let ghost room = unclaimed(lo, hi, Set::<u64>::empty());
        match claim_tree(&mut self.cache, claimed, lo, hi, root, depth, Shape::Freemap, Ghost(LEAF_CAPACITY as nat)) {
            Ok(true) => {},
            Ok(false) => {
                return Ok(false);
            },
            Err(e) => {
                proof {
                    lemma_sane_reads(&w0, b, root, depth as nat, Shape::Freemap, room, e);
                }
                return Err(e);
            },
        }
        proof {
            assert(claimed@ =~= map_nodes(&c0, &t0));
        }
        let ghost w1 = *self;
        proof {
            lemma_same_map(&w0, &w1);
        }
        self.audit_free(claimed)
    }
}

/// Where pages are kept does not matter for the freemap.
pub proof fn lemma_same_map(w0: &Workspace, w1: &Workspace)
    requires
        looked(w0, w1),
    ensures
        map_fine(w1) == map_fine(w0),
        map_pages(w1) == map_pages(w0),
        map_nodes(&w1.cache, &w1.recycler.tree) == map_nodes(&w0.cache, &w0.recycler.tree),
{
    assert forall|id: u64| #[trigger] map_frees(&w1.cache, &w1.recycler.tree, id) == map_frees(
        &w0.cache,
        &w0.recycler.tree,
        id,
    ) by {}
    assert(map_pages(w1) =~= map_pages(w0));
    if map_fine(w0) {
        assert forall|id: u64| #[trigger] map_frees(&w1.cache, &w1.recycler.tree, id) implies w1.slots <= id
            < w1.cache.watermark() && !map_nodes(&w1.cache, &w1.recycler.tree).contains(id) by {
            assert(map_frees(&w0.cache, &w0.recycler.tree, id));
        }
    }
    if map_fine(w1) {
        assert forall|id: u64| #[trigger] map_frees(&w0.cache, &w0.recycler.tree, id) implies w0.slots <= id
            < w0.cache.watermark() && !map_nodes(&w0.cache, &w0.recycler.tree).contains(id) by {
            assert(map_frees(&w1.cache, &w1.recycler.tree, id));
        }
    }
}

/// A sound tree has no faults on its paths.
proof fn lemma_no_path_fault(c: &PageCache, root: u64, depth: nat, h: nat, e: ChiselError)
    requires
        tree_typed(c.contents(), root, depth),
        tree_in(c.contents(), LEAF_CAPACITY as nat, root, depth, sound_pages(c)),
        h < reach(LEAF_CAPACITY as nat, depth),
    ensures
        !path_fault(c, root, depth, h, e),
{
    lemma_no_fault(c, root, depth, e);
    if path_fault(c, root, depth, h, e) {
        let l = choose|l: nat|
            l <= depth && ((#[trigger] node_at(c.contents(), LEAF_CAPACITY as nat, root, depth, h, l)) matches Some(p)
                && page_fault(c, p, l, e));
        assert(tree_fault(c, root, depth, e));
    }
}

/// A tree with pages of its own can be read.
proof fn lemma_sane_reads(w: &Workspace, b: nat, root: u64, depth: nat, shape: Shape, room: Set<u64>, e: ChiselError)
    requires
        opened(w),
        forall|id: u64| #[trigger] room.contains(id) ==> id < w.cache.watermark(),
        tree_explains(&w.cache, b, root, depth, e),
    ensures
        e.spec_is_fatal(),
        !tree_sane(w.cache.contents(), b, root, depth, shape, room),
{
    let pages = w.cache.contents();
    let (k, l) = choose|k: nat, l: nat|
        k < reach(b, depth) && l <= depth && ((#[trigger] node_at(pages, b, root, depth, k, l)) matches Some(id)
            && !w.cache.sound(id) && e == w.cache.read_error(id));
    let id = node_at(pages, b, root, depth, k, l)->0;
    if tree_sane(pages, b, root, depth, shape, room) {
        assert(room.contains(id));
        assert(pages.contains_key(id));
        assert(fits(shape, page_at(pages, id), l));
    }
}

/// Pages that nothing has claimed, whose checksum matches.
pub open spec fn intact(pages: Map<u64, Seq<u8>>, lo: u64, hi: u64, claimed: Set<u64>) -> Set<u64> {
    Set::new(|id: u64| unclaimed(lo, hi, claimed).contains(id) && checksum_ok(page_at(pages, id)))
}

/// The heads that nodes have.
pub open spec fn shape_head(shape: Shape) -> spec_fn(nat) -> (u8, u8) {
    match shape {
        Shape::Table => table_head(),
        _ => radix_head(),
    }
}

/// A tree with pages of its own, in other words.
proof fn lemma_sane_headed(pages: Map<u64, Seq<u8>>, c: nat, root: u64, depth: nat, shape: Shape, lo: u64, hi: u64, own: Set<u64>)
    requires
        c > 0,
        shape is Table || shape is Outer,
    ensures
        tree_sane(pages, c, root, depth, shape, unclaimed(lo, hi, own)) && node_at(pages, c, root, depth, 0, 0) is Some
            <==> tree_in(pages, c, root, depth, intact(pages, lo, hi, own)) && is_tree(pages, c, root, depth)
            && tree_headed(pages, c, root, depth, shape_head(shape)),
{
    let good = intact(pages, lo, hi, own);
    let room = unclaimed(lo, hi, own);
    let head = shape_head(shape);
    if tree_sane(pages, c, root, depth, shape, room) && node_at(pages, c, root, depth, 0, 0) is Some {
        assert forall|k: nat, l: nat| k < reach(c, depth) && l <= depth implies ((#[trigger] node_at(
            pages,
            c,
            root,
            depth,
            k,
            l,
        )) matches Some(id) ==> good.contains(id) && head_of(page_at(pages, id)) == head(l)) by {
            if node_at(pages, c, root, depth, k, l) is Some {
                let id = node_at(pages, c, root, depth, k, l)->0;
                assert(fits(shape, page_at(pages, id), l));
                assert(room.contains(id));
            }
        }
    }
    if tree_in(pages, c, root, depth, good) && is_tree(pages, c, root, depth) && tree_headed(
        pages,
        c,
        root,
        depth,
        head,
    ) {
        assert forall|k: nat, l: nat| k < reach(c, depth) && l <= depth implies ((#[trigger] node_at(
            pages,
            c,
            root,
            depth,
            k,
            l,
        )) matches Some(id) ==> room.contains(id) && fits(shape, page_at(pages, id), l)) by {
            if node_at(pages, c, root, depth, k, l) is Some {
                let id = node_at(pages, c, root, depth, k, l)->0;
                assert(good.contains(id));
                assert(head_of(page_at(pages, id)) == head(l));
            }
        }
    }
}

impl Workspace {
    /// Claim the pages of a tree with heads of their own; says if it is sound.
    fn audit_headed(&mut self, claimed: &mut FxHashSet<u64>, root: u64, depth: u32, shape: Shape, Ghost(c): Ghost<nat>) -> (outcome:
        Result<bool, ChiselError>)
        requires
            opened(old(self)),
            c > 0,
            shape is Table || shape is Outer,
        ensures
            looked(old(self), final(self)),
            ({
                let pages = old(self).cache.contents();
                let good = intact(pages, old(self).slots as u64, old(self).cache.watermark(), old(claimed)@);
                let sound = tree_in(pages, c, root, depth as nat, good) && is_tree(pages, c, root, depth as nat)
                    && tree_headed(pages, c, root, depth as nat, shape_head(shape));
                match outcome {
                    Ok(true) => sound && final(claimed)@ == old(claimed)@.union(nodes_of(pages, c, root, depth as nat)),
                    Ok(false) => !sound,
                    Err(e) => e.spec_is_fatal() && !sound,
                }
            }),
    {
        let ghost w0 = *self;
        let ghost pages = self.cache.contents();
        let lo: u64 = self.slots as u64;
        let hi: u64 = self.cache.next_page_id();
        let ghost own = claimed@;
        let ghost room = unclaimed(lo, hi, own);
        proof {
            lemma_sane_headed(pages, c, root, depth as nat, shape, lo, hi, own);
        }
        match claim_tree(&mut self.cache, claimed, lo, hi, root, depth, shape, Ghost(c)) {
            Ok(true) => {},
            Ok(false) => {
                return Ok(false);
            },
            Err(e) => {
                proof {
                    lemma_sane_reads(&w0, c, root, depth as nat, shape, room, e);
                }
                return Err(e);
            },
        }
        let ghost w1 = *self;
        match reaches_leaf(&mut self.cache, root, depth, Ghost(c)) {
            Ok(found) => Ok(found),
            Err(e) => {
                proof {
                    lemma_sane_reads(&w1, c, root, depth as nat, shape, room, e);
                }
                Err(e)
            },
        }
    }

    /// Claim the pages of the handle table; says if it is sound.
    pub fn audit_table(&mut self, claimed: &mut FxHashSet<u64>) -> (outcome: Result<bool, ChiselError>)
        requires
            opened(old(self)),
        ensures
            looked(old(self), final(self)),
            ({
                let pages = old(self).cache.contents();
                let good = intact(pages, old(self).slots as u64, old(self).cache.watermark(), old(claimed)@);
                let sound = table_sound(pages, good, old(self).roots);
                match outcome {
                    Ok(true) => sound && final(claimed)@ == old(claimed)@.union(table_nodes(pages, old(self).roots)),
                    Ok(false) => !sound,
                    Err(e) => e.spec_is_fatal() && !sound,
                }
            }),
    {
        let root: u64 = self.roots.table_root;
        let depth: u32 = self.roots.table_depth;
        if root == PAGE_ID_NONE {
            assert(claimed@ =~= claimed@.union(Set::<u64>::empty()));
            return Ok(true);
        }
        if root == 0 {
            return Ok(false);
        }
        self.audit_headed(claimed, root, depth, Shape::Table, Ghost(ENTRIES_PER_LEAF as nat))
    }
}

/// The tags that the index has a value for, each with its value.
pub open spec fn tags_listed(pages: Map<u64, Seq<u8>>, r: Roots, list: Seq<(u32, u64)>) -> bool {
    &&& forall|t: u32, v: u64| #[trigger]
        list.contains((t, v)) <==> tag_value(pages, r.index_root, r.index_depth as nat, t) == v && v != 0
    &&& forall|i: int, j: int| 0 <= i < j < list.len() ==> (#[trigger] list[i]).0 < (#[trigger] list[j]).0
}

/// The entries of the index that stand for tags.
fn tags_of(all: &Vec<(u64, u64)>, Ghost(pages): Ghost<Map<u64, Seq<u8>>>, Ghost(r): Ghost<Roots>) -> (list: Vec<
    (u32, u64),
>)
    requires
        forall|k: u64, value: u64|
            k < u64::MAX ==> (#[trigger] all@.contains((k, value)) <==> radix_lookup(
                pages,
                r.index_root,
                r.index_depth as nat,
                k,
            ) == value && value != 0),
        forall|i: int, j: int|
            0 <= i < j < all@.len() && all@[j].0 < u64::MAX ==> (#[trigger] all@[i]).0 < (#[trigger] all@[j]).0,
    ensures
        tags_listed(pages, r, list@),
{
    let mut list: Vec<(u32, u64)> = Vec::new();
    let mut i: usize = 0;
    while i < all.len()
        invariant
            i <= all@.len(),
            forall|i: int, j: int|
                0 <= i < j < all@.len() && all@[j].0 < u64::MAX ==> (#[trigger] all@[i]).0 < (#[trigger] all@[j]).0,
            forall|a: int, b: int| 0 <= a < b < list@.len() ==> (#[trigger] list@[a]).0 < (#[trigger] list@[b]).0,
            forall|a: int|
                0 <= a < list@.len() ==> exists|j: int|
                    0 <= j < i && all@[j] == ((#[trigger] list@[a]).0 as u64, list@[a].1),
            forall|j: int|
                0 <= j < i && (#[trigger] all@[j]).0 <= u32::MAX ==> list@.contains((all@[j].0 as u32, all@[j].1)),
        decreases all@.len() - i,
    {
        let (key, value): (u64, u64) = all[i];
        if key <= u32::MAX as u64 {
            let ghost before = list@;
            proof {
                assert forall|a: int| 0 <= a < before.len() implies (#[trigger] before[a]).0 < key as u32 by {
                    let j = choose|j: int| 0 <= j < i && all@[j] == (before[a].0 as u64, before[a].1);
                    assert(all@[j].0 < all@[i as int].0);
                }
            }
            list.push((key as u32, value));
            proof {
                assert forall|a: int| 0 <= a < list@.len() implies exists|j: int|
                    0 <= j < i + 1 && all@[j] == ((#[trigger] list@[a]).0 as u64, list@[a].1) by {
                    if a < before.len() {
                        assert(list@[a] == before[a]);
                        let j = choose|j: int| 0 <= j < i && all@[j] == (before[a].0 as u64, before[a].1);
                        assert(all@[j] == (list@[a].0 as u64, list@[a].1));
                    } else {
                        assert(all@[i as int] == (list@[a].0 as u64, list@[a].1));
                    }
                }
                assert forall|j: int| 0 <= j < i + 1 && (#[trigger] all@[j]).0 <= u32::MAX implies list@.contains(
                    (all@[j].0 as u32, all@[j].1),
                ) by {
                    if j < i {
                        let a = before.index_of((all@[j].0 as u32, all@[j].1));
                        assert(list@[a] == before[a]);
                    } else {
                        assert(list@[before.len() as int] == (all@[j].0 as u32, all@[j].1));
                    }
                }
            }
        }
        i += 1;
    }
    assert forall|t: u32, v: u64| #[trigger] list@.contains((t, v)) <==> tag_value(
        pages,
        r.index_root,
        r.index_depth as nat,
        t,
    ) == v && v != 0 by {
        if list@.contains((t, v)) {
            let a = list@.index_of((t, v));
            let j = choose|j: int| 0 <= j < i && all@[j] == (list@[a].0 as u64, list@[a].1);
            assert(all@.contains((t as u64, v)));
        }
        if tag_value(pages, r.index_root, r.index_depth as nat, t) == v && v != 0 {
            assert(all@.contains((t as u64, v)));
            let j = all@.index_of((t as u64, v));
            assert(list@.contains((all@[j].0 as u32, all@[j].1)));
        }
    }
    list
}

/// The pages of the inner trees of the first `i` tags.
spec fn inner_nodes(pages: Map<u64, Seq<u8>>, list: Seq<(u32, u64)>, i: int) -> Set<u64> {
    Set::new(
        |id: u64|
            exists|j: int|
                0 <= j < i && inner_present((#[trigger] list[j]).1) && nodes_of(
                    pages,
                    SLOTS_PER_PAGE as nat,
                    inner_root(list[j].1),
                    inner_depth(list[j].1),
                ).contains(id),
    )
}

/// The inner trees of the first `i` tags have pages of their own.
spec fn inner_sane(pages: Map<u64, Seq<u8>>, list: Seq<(u32, u64)>, room: Set<u64>, i: int) -> bool {
    &&& forall|j: int| 0 <= j < i ==> !inner_corrupt((#[trigger] list[j]).1)
    &&& forall|j: int|
        0 <= j < i && inner_present((#[trigger] list[j]).1) ==> tree_sane(
            pages,
            SLOTS_PER_PAGE as nat,
            inner_root(list[j].1),
            inner_depth(list[j].1),
            Shape::Inner,
            room,
        )
    &&& forall|j: int, m: int|
        0 <= j < m < i && inner_present((#[trigger] list[j]).1) && inner_present((#[trigger] list[m]).1) ==> nodes_of(
            pages,
            SLOTS_PER_PAGE as nat,
            inner_root(list[j].1),
            inner_depth(list[j].1),
        ).disjoint(
            nodes_of(pages, SLOTS_PER_PAGE as nat, inner_root(list[m].1), inner_depth(list[m].1)),
        )
}

/// The outer tree of a sound index.
spec fn outer_sound(pages: Map<u64, Seq<u8>>, good: Set<u64>, r: Roots) -> bool {
    let c = SLOTS_PER_PAGE as nat;
    let d = r.index_depth as nat;
    tree_in(pages, c, r.index_root, d, good) && is_tree(pages, c, r.index_root, d) && tree_headed(
        pages,
        c,
        r.index_root,
        d,
        radix_head(),
    )
}

/// An index is sound if its trees have pages of their own.
proof fn lemma_index_made(pages: Map<u64, Seq<u8>>, r: Roots, list: Seq<(u32, u64)>, lo: u64, hi: u64, own: Set<u64>)
    requires
        r.index_root != PAGE_ID_NONE,
        r.index_root != 0,
        r.index_depth <= 6,
        tags_listed(pages, r, list),
        outer_sound(pages, intact(pages, lo, hi, own), r),
        inner_sane(
            pages,
            list,
            unclaimed(lo, hi, own.union(nodes_of(pages, SLOTS_PER_PAGE as nat, r.index_root, r.index_depth as nat))),
            list.len() as int,
        ),
    ensures
        index_sound(pages, intact(pages, lo, hi, own), r),
        index_nodes(pages, r) == nodes_of(
            pages,
            SLOTS_PER_PAGE as nat,
            r.index_root,
            r.index_depth as nat,
        ).union(inner_nodes(pages, list, list.len() as int)),
{
    let c = SLOTS_PER_PAGE as nat;
    let d = r.index_depth as nat;
    let good = intact(pages, lo, hi, own);
    let outer = nodes_of(pages, c, r.index_root, d);
    let room = unclaimed(lo, hi, own.union(outer));
    let roots = index_roots(pages, r.index_root, d);
    assert(roots(None) == Some((r.index_root, d)));
    lemma_nodes(pages, c, r.index_root, d);
    assert forall|t: u32| (#[trigger] roots(Some(t))) matches Some(p) ==> exists|j: int|
        0 <= j < list.len() && (#[trigger] list[j]).0 == t && inner_present(list[j].1) && p == (
            inner_root(list[j].1),
            inner_depth(list[j].1),
        ) by {
        if roots(Some(t)) is Some {
            let v = tag_value(pages, r.index_root, d, t);
            assert(list.contains((t, v)));
            let j = list.index_of((t, v));
            assert(list[j].0 == t);
        }
    }
    assert forall|t: u32| !inner_corrupt(#[trigger] tag_value(pages, r.index_root, d, t)) by {
        let v = tag_value(pages, r.index_root, d, t);
        if inner_corrupt(v) {
            assert(v != 0);
            assert(list.contains((t, v)));
            let j = list.index_of((t, v));
            assert(!inner_corrupt(list[j].1));
        }
    }
    assert forall|i: Option<u32>| (#[trigger] roots(i)) matches Some(p) ==> tree_in(pages, c, p.0, p.1, good)
        && is_tree(pages, c, p.0, p.1) && (i is Some ==> nodes_of(pages, c, p.0, p.1).subset_of(room)) by {
        if let Some(t) = i {
            if roots(i) is Some {
                assert(roots(Some(t)) is Some);
                let j = choose|j: int|
                    0 <= j < list.len() && (#[trigger] list[j]).0 == t && inner_present(list[j].1) && roots(Some(t))->0
                        == (inner_root(list[j].1), inner_depth(list[j].1));
                let p = roots(i)->0;
                assert(tree_sane(pages, c, p.0, p.1, Shape::Inner, room));
                lemma_nodes(pages, c, p.0, p.1);
                lemma_inner_intact(pages, p.0, p.1, room, good);
            }
        }
    }
    assert forall|i: Option<u32>, j: Option<u32>| i != j implies ((#[trigger] roots(i)) matches Some(p) ==> ((
    #[trigger] roots(j)) matches Some(q) ==> nodes_of(pages, c, p.0, p.1).disjoint(nodes_of(pages, c, q.0, q.1)))) by {
        if roots(i) is Some && roots(j) is Some {
            if i is Some && j is Some {
                let a = choose|a: int|
                    0 <= a < list.len() && (#[trigger] list[a]).0 == i->0 && inner_present(list[a].1) && roots(
                        Some(i->0),
                    )->0 == (inner_root(list[a].1), inner_depth(list[a].1));
                let b = choose|b: int|
                    0 <= b < list.len() && (#[trigger] list[b]).0 == j->0 && inner_present(list[b].1) && roots(
                        Some(j->0),
                    )->0 == (inner_root(list[b].1), inner_depth(list[b].1));
                assert(a != b);
                if a < b {
                    assert(inner_present(list[a].1) && inner_present(list[b].1));
                } else {
                    assert(inner_present(list[b].1) && inner_present(list[a].1));
                }
            }
        }
    }
    let all = outer.union(inner_nodes(pages, list, list.len() as int));
    assert forall|id: u64| index_nodes(pages, r).contains(id) == all.contains(id) by {
        if index_nodes(pages, r).contains(id) {
            let i = choose|i: Option<u32>| #[trigger] index_page(pages, r.index_root, d, i, id);
            if let Some(t) = i {
                assert(roots(Some(t)) is Some);
                let j = choose|j: int|
                    0 <= j < list.len() && (#[trigger] list[j]).0 == t && inner_present(list[j].1) && roots(Some(t))->0
                        == (inner_root(list[j].1), inner_depth(list[j].1));
                assert(inner_present(list[j].1));
            }
        }
        if outer.contains(id) {
            assert(index_page(pages, r.index_root, d, None, id));
        }
        if inner_nodes(pages, list, list.len() as int).contains(id) {
            let j = choose|j: int|
                0 <= j < list.len() && inner_present((#[trigger] list[j]).1) && nodes_of(
                    pages,
                    c,
                    inner_root(list[j].1),
                    inner_depth(list[j].1),
                ).contains(id);
            assert(list.contains((list[j].0, list[j].1)));
            assert(index_page(pages, r.index_root, d, Some(list[j].0), id));
        }
    }
    assert(index_nodes(pages, r) =~= all);
}

/// The nodes of an inner tree are intact.
proof fn lemma_inner_intact(pages: Map<u64, Seq<u8>>, root: u64, depth: nat, room: Set<u64>, good: Set<u64>)
    requires
        tree_sane(pages, SLOTS_PER_PAGE as nat, root, depth, Shape::Inner, room),
        forall|id: u64| #[trigger] room.contains(id) && checksum_ok(page_at(pages, id)) ==> good.contains(id),
    ensures
        tree_in(pages, SLOTS_PER_PAGE as nat, root, depth, good),
{
    let c = SLOTS_PER_PAGE as nat;
    assert forall|k: nat, l: nat| k < reach(c, depth) && l <= depth implies ((#[trigger] node_at(
        pages,
        c,
        root,
        depth,
        k,
        l,
    )) matches Some(id) ==> good.contains(id)) by {
        if node_at(pages, c, root, depth, k, l) is Some {
            let id = node_at(pages, c, root, depth, k, l)->0;
            assert(fits(Shape::Inner, page_at(pages, id), l));
            assert(room.contains(id));
        }
    }
}

/// The inner tree of the next tag of a sound index has pages of its own.
proof fn lemma_index_split(pages: Map<u64, Seq<u8>>, r: Roots, list: Seq<(u32, u64)>, lo: u64, hi: u64, own: Set<u64>, i: int)
    requires
        r.index_root != PAGE_ID_NONE,
        tags_listed(pages, r, list),
        0 <= i < list.len(),
        index_sound(pages, intact(pages, lo, hi, own), r),
    ensures
        !inner_corrupt(list[i].1),
        inner_present(list[i].1) ==> tree_sane(
            pages,
            SLOTS_PER_PAGE as nat,
            inner_root(list[i].1),
            inner_depth(list[i].1),
            Shape::Inner,
            unclaimed(
                lo,
                hi,
                own.union(nodes_of(pages, SLOTS_PER_PAGE as nat, r.index_root, r.index_depth as nat)).union(
                    inner_nodes(pages, list, i),
                ),
            ),
        ),
{
    let c = SLOTS_PER_PAGE as nat;
    let d = r.index_depth as nat;
    let good = intact(pages, lo, hi, own);
    let outer = nodes_of(pages, c, r.index_root, d);
    let before = inner_nodes(pages, list, i);
    let room = unclaimed(lo, hi, own.union(outer).union(before));
    let roots = index_roots(pages, r.index_root, d);
    let (t, v) = list[i];
    assert(list.contains((t, v)));
    assert(tag_value(pages, r.index_root, d, t) == v);
    if inner_present(v) {
        let root = inner_root(v);
        let depth = inner_depth(v);
        assert(roots(Some(t)) == Some((root, depth)));
        assert(roots(None) == Some((r.index_root, d)));
        let nodes = nodes_of(pages, c, root, depth);
        assert(outer.disjoint(nodes));
        assert(tree_in(pages, c, root, depth, good));
        assert forall|k: nat, l: nat| k < reach(c, depth) && l <= depth implies ((#[trigger] node_at(
            pages,
            c,
            root,
            depth,
            k,
            l,
        )) matches Some(id) ==> room.contains(id) && fits(Shape::Inner, page_at(pages, id), l)) by {
            if node_at(pages, c, root, depth, k, l) is Some {
                let id = node_at(pages, c, root, depth, k, l)->0;
                assert(good.contains(id));
                assert(nodes.contains(id));
                if before.contains(id) {
                    let j = choose|j: int|
                        0 <= j < i && inner_present((#[trigger] list[j]).1) && nodes_of(
                            pages,
                            c,
                            inner_root(list[j].1),
                            inner_depth(list[j].1),
                        ).contains(id);
                    assert(list.contains((list[j].0, list[j].1)));
                    assert(roots(Some(list[j].0)) == Some((inner_root(list[j].1), inner_depth(list[j].1))));
                    assert(list[j].0 < list[i].0);
                }
            }
        }
    }
}

/// One more inner tree has pages of its own.
proof fn lemma_inner_claimed(pages: Map<u64, Seq<u8>>, list: Seq<(u32, u64)>, room: Set<u64>, i: int, left: Set<u64>)
    requires
        0 <= i < list.len(),
        inner_sane(pages, list, room, i),
        !inner_corrupt(list[i].1),
        inner_present(list[i].1) ==> tree_sane(
            pages,
            SLOTS_PER_PAGE as nat,
            inner_root(list[i].1),
            inner_depth(list[i].1),
            Shape::Inner,
            left,
        ),
        left.subset_of(room),
        left.disjoint(inner_nodes(pages, list, i)),
    ensures
        inner_sane(pages, list, room, i + 1),
        !inner_present(list[i].1) ==> inner_nodes(pages, list, i + 1) == inner_nodes(pages, list, i),
        inner_present(list[i].1) ==> inner_nodes(pages, list, i + 1) == inner_nodes(pages, list, i).union(
            nodes_of(pages, SLOTS_PER_PAGE as nat, inner_root(list[i].1), inner_depth(list[i].1)),
        ),
{
    let c = SLOTS_PER_PAGE as nat;
    let before = inner_nodes(pages, list, i);
    let after = inner_nodes(pages, list, i + 1);
    let root = inner_root(list[i].1);
    let depth = inner_depth(list[i].1);
    let nodes = nodes_of(pages, c, root, depth);
    if inner_present(list[i].1) {
        lemma_nodes(pages, c, root, depth);
        assert(tree_in(pages, c, root, depth, left));
        lemma_tree_mono(pages, c, root, depth, left, room);
        assert forall|j: int, m: int| 0 <= j < m < i + 1 && inner_present((#[trigger] list[j]).1) && inner_present(
            (#[trigger] list[m]).1,
        ) implies nodes_of(pages, c, inner_root(list[j].1), inner_depth(list[j].1)).disjoint(
            nodes_of(pages, c, inner_root(list[m].1), inner_depth(list[m].1)),
        ) by {
            if m == i {
                assert forall|id: u64| nodes_of(
                    pages,
                    c,
                    inner_root(list[j].1),
                    inner_depth(list[j].1),
                ).contains(id) implies before.contains(id) by {
                    assert(inner_present(list[j].1));
                }
            }
        }
        assert forall|id: u64| after.contains(id) == before.union(nodes).contains(id) by {
            if after.contains(id) && !before.contains(id) {
                let j = choose|j: int|
                    0 <= j < i + 1 && inner_present((#[trigger] list[j]).1) && nodes_of(
                        pages,
                        c,
                        inner_root(list[j].1),
                        inner_depth(list[j].1),
                    ).contains(id);
                assert(j == i);
            }
            if before.contains(id) {
                let j = choose|j: int|
                    0 <= j < i && inner_present((#[trigger] list[j]).1) && nodes_of(
                        pages,
                        c,
                        inner_root(list[j].1),
                        inner_depth(list[j].1),
                    ).contains(id);
                assert(inner_present(list[j].1));
            }
            if nodes.contains(id) {
                assert(inner_present(list[i].1));
            }
        }
        assert(after =~= before.union(nodes));
    } else {
        assert forall|id: u64| after.contains(id) == before.contains(id) by {
            if after.contains(id) {
                let j = choose|j: int|
                    0 <= j < i + 1 && inner_present((#[trigger] list[j]).1) && nodes_of(
                        pages,
                        c,
                        inner_root(list[j].1),
                        inner_depth(list[j].1),
                    ).contains(id);
                assert(j < i);
            }
        }
        assert(after =~= before);
    }
}

/// No index is a sound one.
proof fn lemma_no_index(pages: Map<u64, Seq<u8>>, good: Set<u64>, r: Roots)
    requires
        r.index_root == PAGE_ID_NONE,
        r.index_depth <= 6,
    ensures
        index_sound(pages, good, r),
        index_nodes(pages, r) == Set::<u64>::empty(),
{
    let roots = index_roots(pages, r.index_root, r.index_depth as nat);
    assert forall|i: Option<u32>| #[trigger] roots(i) is None by {}
    assert forall|id: u64| !index_nodes(pages, r).contains(id) by {
        if index_nodes(pages, r).contains(id) {
            let i = choose|i: Option<u32>| #[trigger]
                index_page(pages, r.index_root, r.index_depth as nat, i, id);
            assert(roots(i) is None);
        }
    }
    assert(index_nodes(pages, r) =~= Set::<u64>::empty());
}

impl Workspace {
    /// The tags that the index has a value for.
    pub fn list_tags(&mut self) -> (outcome: Result<Vec<(u32, u64)>, ChiselError>)
        requires
            old(self).readable(),
        ensures
            looked(old(self), final(self)),
            match outcome {
                Ok(list) => tags_listed(old(self).cache.contents(), old(self).roots, list@),
                Err(e) => old(self).roots.index_root != PAGE_ID_NONE && tree_explains(
                    &old(self).cache,
                    SLOTS_PER_PAGE as nat,
                    old(self).roots.index_root,
                    old(self).roots.index_depth as nat,
                    e,
                ),
            },
    {
        let ghost w0 = *self;
        let root: u64 = self.roots.index_root;
        if root == PAGE_ID_NONE {
            return Ok(Vec::new());
        }
        let tree = RadixU64 { depth: self.roots.index_depth };
        match tree.iter(&mut self.cache, root) {
            Ok(all) => {
                proof {
                    law_radix_listing_is_lookup(w0.cache.contents(), root, w0.roots.index_depth as nat, all@);
                }
                Ok(tags_of(&all, Ghost(w0.cache.contents()), Ghost(w0.roots)))
            },
            Err(e) => Err(e),
        }
    }

    /// Claim the pages of the index; says if it is sound.
    pub fn audit_index(&mut self, claimed: &mut FxHashSet<u64>) -> (outcome: Result<bool, ChiselError>)
        requires
            opened(old(self)),
        ensures
            looked(old(self), final(self)),
            ({
                let pages = old(self).cache.contents();
                let good = intact(pages, old(self).slots as u64, old(self).cache.watermark(), old(claimed)@);
                let sound = index_sound(pages, good, old(self).roots);
                match outcome {
                    Ok(true) => sound && final(claimed)@ == old(claimed)@.union(index_nodes(pages, old(self).roots)),
                    Ok(false) => !sound,
                    Err(e) => e.spec_is_fatal() && !sound,
                }
            }),
    {
        let ghost w0 = *self;
        let ghost pages = self.cache.contents();
        let ghost own = claimed@;
        let ghost c = SLOTS_PER_PAGE as nat;
        let root: u64 = self.roots.index_root;
        let depth: u32 = self.roots.index_depth;
        let lo: u64 = self.slots as u64;
        let hi: u64 = self.cache.next_page_id();
        let ghost good = intact(pages, lo, hi, own);
        if root == PAGE_ID_NONE {
            proof {
                lemma_no_index(pages, good, w0.roots);
                assert(claimed@ =~= own.union(Set::<u64>::empty()));
            }
            return Ok(true);
        }
        if root == 0 {
            return Ok(false);
        }
        proof {
            let roots = index_roots(pages, root, depth as nat);
            assert(roots(None) == Some((root, depth as nat)));
        }
        match self.audit_headed(claimed, root, depth, Shape::Outer, Ghost(SLOTS_PER_PAGE as nat)) {
            Ok(true) => {},
            Ok(false) => {
                return Ok(false);
            },
            Err(e) => {
                return Err(e);
            },
        }
        let ghost outer = nodes_of(pages, c, root, depth as nat);
        let ghost room = unclaimed(lo, hi, own.union(outer));
        let ghost w1 = *self;
        let list: Vec<(u32, u64)> = match self.list_tags() {
            Ok(list) => list,
            Err(e) => {
                proof {
                    lemma_sane_headed(pages, c, root, depth as nat, Shape::Outer, lo, hi, own);
                    lemma_sane_reads(&w1, c, root, depth as nat, Shape::Outer, unclaimed(lo, hi, own), e);
                }
                return Err(e);
            },
        };
        proof {
            assert(inner_nodes(pages, list@, 0) =~= Set::<u64>::empty());
            assert(claimed@ =~= own.union(outer).union(inner_nodes(pages, list@, 0)));
        }
        let mut i: usize = 0;
        while i < list.len()
            invariant
                i <= list@.len(),
                w0 == *old(self),
                opened(&w0),
                looked(&w0, self),
                pages == w0.cache.contents(),
                c == SLOTS_PER_PAGE,
                own == old(claimed)@,
                root == w0.roots.index_root,
                root != PAGE_ID_NONE,
                root != 0,
                depth == w0.roots.index_depth,
                lo == w0.slots,
                hi == w0.cache.watermark(),
                good == intact(pages, lo, hi, own),
                outer == nodes_of(pages, c, root, depth as nat),
                room == unclaimed(lo, hi, own.union(outer)),
                tags_listed(pages, w0.roots, list@),
                outer_sound(pages, good, w0.roots),
                inner_sane(pages, list@, room, i as int),
                claimed@ == own.union(outer).union(inner_nodes(pages, list@, i as int)),
            decreases list@.len() - i,
        {
            let (inner, inner_level): (u64, u32) = unpack_inner(list[i].1);
            let ghost v = list@[i as int].1;
            let ghost left = unclaimed(lo, hi, claimed@);
            let ghost w2 = *self;
            proof {
                assert(left =~= room.difference(inner_nodes(pages, list@, i as int)));
                if index_sound(pages, good, w0.roots) {
                    lemma_index_split(pages, w0.roots, list@, lo, hi, own, i as int);
                }
            }
            if inner != 0 {
                if inner_level > crate::radix_u64::MAX_DEPTH {
                    return Ok(false);
                }
                match claim_tree(
                    &mut self.cache,
                    claimed,
                    lo,
                    hi,
                    inner,
                    inner_level,
                    Shape::Inner,
                    Ghost(SLOTS_PER_PAGE as nat),
                ) {
                    Ok(true) => {},
                    Ok(false) => {
                        return Ok(false);
                    },
                    Err(e) => {
                        proof {
                            lemma_sane_reads(&w2, c, inner, inner_level as nat, Shape::Inner, left, e);
                        }
                        return Err(e);
                    },
                }
            }
            proof {
                lemma_inner_claimed(pages, list@, room, i as int, left);
                assert(claimed@ =~= own.union(outer).union(inner_nodes(pages, list@, i + 1)));
            }
            i += 1;
        }
        proof {
            lemma_index_made(pages, w0.roots, list@, lo, hi, own);
            assert(claimed@ =~= own.union(index_nodes(pages, w0.roots)));
        }
        Ok(true)
    }
}

} // verus!
