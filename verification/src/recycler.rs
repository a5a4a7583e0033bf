//! The page source of a transaction: free pages first, then new ones.

use vstd::prelude::*;

use crate::error::ChiselError;
use crate::forest::{lemma_nodes, nodes_of};
use crate::freemap_tree::{
    lemma_typed_same, map_kept, tidy, owned_ok, page_fault, superseded_ok, tracked_free, tree_fault, tree_typed, FreeMapTree,
    LEAF_CAPACITY, MAX_DEPTH,
};
use crate::page::PAGE_ID_NONE;
use crate::page_cache::PageCache;
use crate::page_source::{
    agree_on, extended, grown_by, ids_from, lemma_extended_by_one, taken, Extend, PageSource,
};
use crate::radix::{is_tree, lemma_tree_same, node_at, page_at, reach, same_on, tree_in};
use crate::spine::lemma_tree_mono;

verus! {

/// The pages that can be read wherever they are kept.
pub open spec fn sound_pages(cache: &PageCache) -> Set<u64> {
    Set::new(|id: u64| cache.sound(id))
}

/// A freemap tree depends on its own pages only.
pub proof fn lemma_map_same(pa: Map<u64, Seq<u8>>, pb: Map<u64, Seq<u8>>, root: u64, depth: nat, ids: Set<u64>)
    requires
        tree_in(pa, LEAF_CAPACITY as nat, root, depth, ids),
        same_on(pa, pb, ids),
    ensures
        nodes_of(pb, LEAF_CAPACITY as nat, root, depth) == nodes_of(pa, LEAF_CAPACITY as nat, root, depth),
        is_tree(pa, LEAF_CAPACITY as nat, root, depth) ==> is_tree(pb, LEAF_CAPACITY as nat, root, depth),
        tree_typed(pa, root, depth) ==> tree_typed(pb, root, depth),
        forall|id: u64| #[trigger] tracked_free(pb, root, depth, id) == tracked_free(pa, root, depth, id),
        forall|good: Set<u64>| #[trigger]
            tree_in(pa, LEAF_CAPACITY as nat, root, depth, good) ==> tree_in(
                pb,
                LEAF_CAPACITY as nat,
                root,
                depth,
                good,
            ),
{
    let c = LEAF_CAPACITY as nat;
    lemma_tree_same(pa, pb, c, root, depth, ids);
    lemma_typed_same(pa, pb, root, depth, ids);
    crate::graft::lemma_unmoved(pa, pb, c, root, depth);
    assert forall|id: u64| nodes_of(pb, c, root, depth).contains(id) == nodes_of(pa, c, root, depth).contains(id) by {
        if nodes_of(pa, c, root, depth).contains(id) {
            let (k, l) = choose|k: nat, l: nat|
                k < reach(c, depth) && l <= depth && #[trigger] node_at(pa, c, root, depth, k, l) == Some(id);
            assert(node_at(pb, c, root, depth, k, l) == Some(id));
        }
        if nodes_of(pb, c, root, depth).contains(id) {
            let (k, l) = choose|k: nat, l: nat|
                k < reach(c, depth) && l <= depth && #[trigger] node_at(pb, c, root, depth, k, l) == Some(id);
            assert(node_at(pa, c, root, depth, k, l) == Some(id));
        }
    }
    assert(nodes_of(pb, c, root, depth) =~= nodes_of(pa, c, root, depth));
    assert forall|id: u64| #[trigger] tracked_free(pb, root, depth, id) == tracked_free(pa, root, depth, id) by {
        if id < reach(c, depth) {
            assert(node_at(pb, c, root, depth, id as nat, 0) == node_at(pa, c, root, depth, id as nat, 0));
            if node_at(pa, c, root, depth, id as nat, 0) is Some {
                assert(ids.contains(node_at(pa, c, root, depth, id as nat, 0)->0));
            }
        }
    }
}

/// A freemap tree within pages on which two caches agree is the same in both.
pub proof fn lemma_map_copied(a: &PageCache, b: &PageCache, root: u64, depth: nat, ids: Set<u64>)
    requires
        tree_in(a.contents(), LEAF_CAPACITY as nat, root, depth, ids),
        agree_on(a, b, ids),
    ensures
        nodes_of(b.contents(), LEAF_CAPACITY as nat, root, depth) == nodes_of(
            a.contents(),
            LEAF_CAPACITY as nat,
            root,
            depth,
        ),
        is_tree(a.contents(), LEAF_CAPACITY as nat, root, depth) ==> is_tree(
            b.contents(),
            LEAF_CAPACITY as nat,
            root,
            depth,
        ),
        tree_typed(a.contents(), root, depth) ==> tree_typed(b.contents(), root, depth),
        forall|id: u64| #[trigger]
            tracked_free(b.contents(), root, depth, id) == tracked_free(a.contents(), root, depth, id),
        forall|good: Set<u64>| #[trigger]
            tree_in(a.contents(), LEAF_CAPACITY as nat, root, depth, good) ==> tree_in(
                b.contents(),
                LEAF_CAPACITY as nat,
                root,
                depth,
                good,
            ),
{
    reveal(agree_on);
    assert(same_on(a.contents(), b.contents(), ids)) by {
        assert forall|id: u64| #[trigger] ids.contains(id) implies page_at(a.contents(), id) == page_at(
            b.contents(),
            id,
        ) by {}
    }
    lemma_map_same(a.contents(), b.contents(), root, depth, ids);
}

/// Hands out the free pages of the freemap, lowest first, and extends the
/// storage when there are none. A freemap without a root has no free pages.
pub struct Recycler {
    /// The freemap.
    pub tree: FreeMapTree,
    /// No page below this one is free.
    pub hint: u64,
    /// The root of the freemap that the storage holds.
    pub saved_root: u64,
    /// Its depth.
    pub saved_depth: u32,
}

impl Recycler {
    /// Hands out the free pages of the freemap that the storage holds.
    pub fn new(root: u64, depth: u32) -> (recycler: Recycler)
        ensures
            recycler.tree.root == root,
            recycler.tree.depth == depth,
            recycler.tree.pending_superseded@ == Seq::<u64>::empty(),
            recycler.tree.session_owned@ == Set::<u64>::empty(),
            recycler.saved_root == root,
            recycler.saved_depth == depth,
            recycler.hint == 0,
    {
        Recycler { tree: FreeMapTree::from_roots(root, depth), hint: 0, saved_root: root, saved_depth: depth }
    }

    /// There is a freemap.
    pub open spec fn has_tree(&self) -> bool {
        self.tree.root != PAGE_ID_NONE
    }

    /// A page is free.
    pub open spec fn frees(&self, cache: &PageCache, id: u64) -> bool {
        self.has_tree() && self.tree.marks_free(cache, id)
    }

    /// The pages of the freemap.
    pub open spec fn nodes(&self, cache: &PageCache) -> Set<u64> {
        if self.has_tree() {
            nodes_of(cache.contents(), LEAF_CAPACITY as nat, self.tree.root, self.tree.spec_depth())
        } else {
            Set::<u64>::empty()
        }
    }

    /// The pages of the freemap that the storage holds.
    pub open spec fn saved_nodes(&self, cache: &PageCache) -> Set<u64> {
        if self.saved_root != PAGE_ID_NONE {
            nodes_of(cache.contents(), LEAF_CAPACITY as nat, self.saved_root, self.saved_depth as nat)
        } else {
            Set::<u64>::empty()
        }
    }

    /// The freemap is a tree of sound pages, and no free page is one of them.
    pub open spec fn map_ok(&self, cache: &PageCache) -> bool {
        &&& cache.watermark() > 0
        &&& owned_ok(&Extend, cache, self.tree.session_owned@)
        &&& self.has_tree() ==> {
            &&& self.tree.depth <= MAX_DEPTH
            &&& self.tree.ready(&Extend, cache)
            &&& tree_typed(cache.contents(), self.tree.root, self.tree.spec_depth())
            &&& tree_in(
                cache.contents(),
                LEAF_CAPACITY as nat,
                self.tree.root,
                self.tree.spec_depth(),
                sound_pages(cache),
            )
            &&& forall|id: u64| #[trigger]
                self.tree.marks_free(cache, id) ==> {
                    &&& self.hint <= id
                    &&& 0 < id < cache.watermark()
                    &&& !self.nodes(cache).contains(id)
                    &&& !self.tree.session_owned@.contains(id)
                }
        }
    }

    /// The freemap that the storage holds has not been touched, and none of its
    /// pages is free.
    pub open spec fn saved_ok(&self, cache: &PageCache) -> bool {
        forall|id: u64| #[trigger]
            self.saved_nodes(cache).contains(id) ==> {
                &&& id < cache.watermark()
                &&& !cache.unsaved().contains(id)
                &&& !self.frees(cache, id)
            }
    }
}

impl Recycler {
    /// The pages of the freemap are saved, or were made in this session, and the
    /// superseded ones are saved pages that it no longer has.
    pub open spec fn session_ok(&self, cache: &PageCache) -> bool {
        &&& self.nodes(cache).subset_of(self.saved_nodes(cache).union(self.tree.session_owned@))
        &&& forall|i: int|
            0 <= i < self.tree.pending_superseded@.len() ==> {
                &&& self.saved_nodes(cache).contains(#[trigger] self.tree.pending_superseded@[i])
                &&& !self.nodes(cache).contains(self.tree.pending_superseded@[i])
            }
    }
}

/// What a step of the source keeps.
spec fn recycled(r0: &Recycler, c0: &PageCache, r1: &Recycler, c1: &PageCache, n: nat) -> bool {
    &&& c1.inv()
    &&& c1.bounded()
    &&& r1.ready(c1)
    &&& r1.footprint(c1).subset_of(r0.footprint(c0))
    &&& grown_by(c0, c1, n)
    &&& agree_on(c0, c1, r0.footprint(c0).complement())
}

impl Recycler {
    /// The source depends on its own pages only.
    pub proof fn lemma_copied(&self, a: &PageCache, b: &PageCache, ids: Set<u64>)
        requires
            self.ready(a),
            agree_on(a, b, ids),
            a.watermark() <= b.watermark(),
            forall|id: u64|
                id < a.watermark() && #[trigger] self.footprint(a).contains(id) ==> ids.contains(id),
        ensures
            self.ready(b),
            self.nodes(b) == self.nodes(a),
            self.saved_nodes(b) == self.saved_nodes(a),
            forall|id: u64| #[trigger] self.frees(b, id) == self.frees(a, id),
    {
        let c = LEAF_CAPACITY as nat;
        let own = self.tree.session_owned@;
        let foot = self.footprint(a);
        assert forall|id: u64| own.contains(id) || self.nodes(a).contains(id) || self.saved_nodes(a).contains(id)
            || self.frees(a, id) implies id < a.watermark() && #[trigger] ids.contains(id) by {
            if own.contains(id) {
                assert(!Extend.footprint(a).contains(id));
            }
            if self.nodes(a).contains(id) {
                lemma_nodes(a.contents(), c, self.tree.root, self.tree.spec_depth());
                assert(Extend.footprint(a).complement().contains(id));
            }
            assert(foot.contains(id));
        }
        assert forall|id: u64| ids.contains(id) implies a.sound(id) == b.sound(id) && a.unsaved().contains(id)
            == b.unsaved().contains(id) && a.contents().contains_key(id) == b.contents().contains_key(id) by {
            reveal(agree_on);
        }
        assert forall|id: u64| #[trigger] own.contains(id) implies {
            &&& b.contents().contains_key(id)
            &&& b.unsaved().contains(id)
            &&& !Extend.footprint(b).contains(id)
        } by {
            assert(ids.contains(id));
        }
        if self.saved_root != PAGE_ID_NONE {
            let root = self.saved_root;
            let depth = self.saved_depth as nat;
            lemma_nodes(a.contents(), c, root, depth);
            lemma_tree_mono(a.contents(), c, root, depth, self.saved_nodes(a), ids);
            lemma_map_copied(a, b, root, depth, ids);
        }
        if self.has_tree() {
            let root = self.tree.root;
            let depth = self.tree.spec_depth();
            lemma_nodes(a.contents(), c, root, depth);
            lemma_tree_mono(a.contents(), c, root, depth, self.nodes(a), ids);
            lemma_map_copied(a, b, root, depth, ids);
            let below = Extend.footprint(b).complement();
            assert(self.nodes(a).subset_of(below));
            assert(tree_in(b.contents(), c, root, depth, self.nodes(a)));
            lemma_tree_mono(b.contents(), c, root, depth, self.nodes(a), below);
            assert forall|id: u64| self.nodes(a).contains(id) implies #[trigger] sound_pages(b).contains(id) by {
                assert(ids.contains(id));
                assert(sound_pages(a).contains(id));
            }
            lemma_tree_mono(b.contents(), c, root, depth, self.nodes(a), sound_pages(b));
            assert forall|id: u64| #[trigger] self.tree.marks_free(b, id) == self.tree.marks_free(a, id) by {
                assert(tracked_free(b.contents(), root, depth, id) == tracked_free(a.contents(), root, depth, id));
            }
        }
        assert forall|id: u64| #[trigger] self.frees(b, id) implies !b.unsaved().contains(id) by {
            assert(self.frees(a, id));
            assert(ids.contains(id));
        }
    }

    /// What a change to the freemap means for the source, if no page became free.
    proof fn lemma_map_changed(&self, c0: &PageCache, after: &Recycler, c1: &PageCache, n: nat)
        requires
            c0.inv(),
            c0.bounded(),
            self.ready(c0),
            self.has_tree(),
            map_kept(&self.tree, &Extend, c0, &after.tree, &Extend, c1, n),
            after.saved_root == self.saved_root,
            after.saved_depth == self.saved_depth,
            forall|id: u64| #[trigger]
                after.tree.marks_free(c1, id) ==> self.tree.marks_free(c0, id) && after.hint <= id,
            after.tree.pending_superseded@ == self.tree.pending_superseded@ || superseded_ok(
                c0.contents(),
                self.tree.root,
                self.tree.spec_depth(),
                self.tree.session_owned@,
                c1.contents(),
                after.tree.root,
                after.tree.spec_depth(),
                self.tree.pending_superseded@,
                after.tree.pending_superseded@,
            ),
        ensures
            recycled(self, c0, after, c1, n),
            after.has_tree(),
            forall|id: u64| #[trigger] self.frees(c0, id) ==> id < c0.watermark() && !c1.unsaved().contains(id),
            forall|id: u64| #[trigger]
                self.frees(c0, id) && !after.frees(c1, id) ==> !after.footprint(c1).contains(id),
            tidy(&self.tree, &Extend, c0, &after.tree, &Extend, c1) ==> forall|id: u64| #[trigger]
                self.footprint(c0).contains(id) ==> after.footprint(c1).contains(id) || self.frees(c0, id)
                    && !after.frees(c1, id),
            tidy(&self.tree, &Extend, c0, &after.tree, &Extend, c1) && superseded_ok(
                c0.contents(),
                self.tree.root,
                self.tree.spec_depth(),
                self.tree.session_owned@,
                c1.contents(),
                after.tree.root,
                after.tree.spec_depth(),
                self.tree.pending_superseded@,
                after.tree.pending_superseded@,
            ) && self.settled(c0) ==> after.settled(c1),
    {
        reveal(agree_on);
        let c = LEAF_CAPACITY as nat;
        let p0 = c0.contents();
        let p1 = c1.contents();
        let own0 = self.tree.session_owned@;
        let own1 = after.tree.session_owned@;
        let root0 = self.tree.root;
        let root1 = after.tree.root;
        let d0 = self.tree.spec_depth();
        let d1 = after.tree.spec_depth();
        let out = Extend.footprint(c0).union(own0).complement();
        let nodes0 = self.nodes(c0);
        lemma_nodes(p0, c, root0, d0);
        assert forall|id: u64| nodes0.contains(id) implies #[trigger] Extend.footprint(c0).complement().contains(id) by {}
        assert(nodes0.disjoint(Extend.footprint(c0)));
        assert(tree_in(p0, c, root0, d0, nodes0));
        let fresh = own1.difference(own0);
        assert(tree_in(p1, c, root1, d1, nodes0.union(fresh)));
        lemma_nodes(p1, c, root1, d1);
        let nodes1 = nodes_of(p1, c, root1, d1);
        assert(nodes1.subset_of(nodes0.union(fresh)));
        assert forall|id: u64| #[trigger] fresh.contains(id) implies c0.watermark() <= id < c1.watermark() by {
            assert(taken(&Extend, c0, &Extend, c1, id));
        }
        assert forall|id: u64| #[trigger] own1.contains(id) implies own0.contains(id) || fresh.contains(id) by {}
        crate::radix::lemma_reach_pos(c, d1);
        assert(node_at(p1, c, root1, d1, 0, d1) == Some(root1));
        assert(Extend.footprint(c1).complement().contains(root1));
        assert(root1 < c1.watermark());
        // Saved pages.
        assert forall|id: u64| #[trigger] self.saved_nodes(c0).contains(id) implies out.contains(id) by {
            if own0.contains(id) {
                assert(c0.unsaved().contains(id));
            }
        }
        if self.saved_root != PAGE_ID_NONE {
            lemma_nodes(p0, c, self.saved_root, self.saved_depth as nat);
            lemma_tree_mono(p0, c, self.saved_root, self.saved_depth as nat, self.saved_nodes(c0), out);
            lemma_map_copied(c0, c1, self.saved_root, self.saved_depth as nat, out);
        }
        assert(after.saved_nodes(c1) == self.saved_nodes(c0));
        // Sound pages.
        assert forall|id: u64| nodes1.contains(id) implies #[trigger] sound_pages(c1).contains(id) by {
            if own1.contains(id) {
                assert(c1.unsaved().contains(id));
            } else {
                assert(nodes0.contains(id));
                assert(sound_pages(c0).contains(id));
                assert(out.contains(id));
            }
        }
        lemma_tree_mono(p1, c, root1, d1, nodes1, sound_pages(c1));
        // Free pages.
        assert forall|id: u64| #[trigger] self.tree.marks_free(c0, id) implies out.contains(id) by {}
        assert forall|id: u64| #[trigger] after.tree.marks_free(c1, id) implies {
            &&& after.hint <= id
            &&& 0 < id < c1.watermark()
            &&& !nodes1.contains(id)
            &&& !own1.contains(id)
        } by {
            assert(self.tree.marks_free(c0, id));
        }
        assert forall|id: u64| #[trigger] self.frees(c0, id) implies id < c0.watermark() && !c1.unsaved().contains(id) by {
            assert(self.tree.marks_free(c0, id));
            assert(out.contains(id));
        }
        assert forall|id: u64| #[trigger] after.frees(c1, id) implies !c1.unsaved().contains(id) by {
            assert(after.tree.marks_free(c1, id));
            assert(self.frees(c0, id));
        }
        assert forall|id: u64| #[trigger] after.saved_nodes(c1).contains(id) implies {
            &&& id < c1.watermark()
            &&& !c1.unsaved().contains(id)
            &&& !after.frees(c1, id)
        } by {
            assert(self.saved_nodes(c0).contains(id));
            assert(out.contains(id));
            if after.frees(c1, id) {
                assert(after.tree.marks_free(c1, id));
                assert(self.frees(c0, id));
            }
        }
        assert forall|id: u64| #[trigger] after.footprint(c1).contains(id) implies self.footprint(c0).contains(id) by {
            if after.frees(c1, id) {
                assert(after.tree.marks_free(c1, id));
            }
        }
        // Superseded pages.
        let pend0 = self.tree.pending_superseded@;
        let pend1 = after.tree.pending_superseded@;
        assert forall|i: int| 0 <= i < pend1.len() implies {
            &&& after.saved_nodes(c1).contains(#[trigger] pend1[i])
            &&& !nodes1.contains(pend1[i])
        } by {
            if i < pend0.len() {
                assert(pend1[i] == pend0[i]);
                assert(self.saved_nodes(c0).contains(pend0[i]));
                assert(!fresh.contains(pend0[i]));
            } else {
                assert(nodes0.contains(pend1[i]));
                assert(!own0.contains(pend1[i]));
                let rest = Set::<u64>::full().remove(pend1[i]);
                assert(tree_in(p1, c, root1, d1, rest));
                assert(nodes1.subset_of(rest));
            }
        }
        assert forall|id: u64| #[trigger] self.footprint(c0).complement().contains(id) implies out.contains(id) by {}
        if tidy(&self.tree, &Extend, c0, &after.tree, &Extend, c1) {
            assert forall|id: u64| #[trigger] self.footprint(c0).contains(id) implies after.footprint(c1).contains(id)
                || self.frees(c0, id) && !after.frees(c1, id) by {
                if id >= c0.watermark() {
                    assert(Extend.footprint(c0).contains(id));
                }
            }
        }
        if tidy(&self.tree, &Extend, c0, &after.tree, &Extend, c1) && self.settled(c0) && superseded_ok(
            p0,
            root0,
            d0,
            own0,
            p1,
            root1,
            d1,
            pend0,
            pend1,
        ) {
            let tail = pend1.skip(pend0.len() as int);
            assert forall|id: u64| #[trigger] tail.contains(id) implies pend1.contains(id) && !own0.contains(id) by {
                let i = tail.index_of(id);
                assert(pend1[pend0.len() + i] == id);
            }
            assert forall|id: u64| #[trigger] pend0.contains(id) implies pend1.contains(id) by {
                let i = pend0.index_of(id);
                assert(pend1[i] == id);
            }
            assert forall|id: u64| #[trigger] own1.contains(id) implies nodes1.contains(id) by {
                if own0.contains(id) {
                    assert(nodes0.contains(id));
                }
            }
            assert(after.settled(c1));
        }
        assert forall|id: u64| #[trigger]
            self.frees(c0, id) && !after.frees(c1, id) implies !after.footprint(c1).contains(id) by {
            assert(self.tree.marks_free(c0, id));
            assert(!own0.contains(id));
            assert(!nodes0.contains(id));
        }
    }
}

/// A sound tree of the right types has no faults.
pub proof fn lemma_no_fault(cache: &PageCache, root: u64, depth: nat, e: ChiselError)
    requires
        tree_typed(cache.contents(), root, depth),
        tree_in(cache.contents(), LEAF_CAPACITY as nat, root, depth, sound_pages(cache)),
    ensures
        !tree_fault(cache, root, depth, e),
{
    let c = LEAF_CAPACITY as nat;
    if tree_fault(cache, root, depth, e) {
        let (k, l) = choose|k: nat, l: nat|
            k < reach(c, depth) && l <= depth && ((#[trigger] node_at(cache.contents(), c, root, depth, k, l)) matches Some(
                p,
            ) && page_fault(cache, p, l, e));
        let p = node_at(cache.contents(), c, root, depth, k, l)->0;
        assert(sound_pages(cache).contains(p));
    }
}

/// Taking no step.
proof fn lemma_same_step(r: &Recycler, c: &PageCache)
    requires
        c.inv(),
        c.bounded(),
        r.ready(c),
    ensures
        recycled(r, c, r, c, 0),
{
    reveal(agree_on);
}

/// Claiming a page that has just ceased to be free.
proof fn lemma_claimed(r0: &Recycler, c0: &PageCache, r1: &Recycler, c1: &PageCache, c2: &PageCache, id: u64, n: nat)
    requires
        recycled(r0, c0, r1, c1, n),
        r0.frees(c0, id),
        !r1.footprint(c1).contains(id),
        c2.inv(),
        c2.bounded(),
        c2.allocated(c1, id),
        c2.watermark() == c1.watermark(),
    ensures
        recycled(r0, c0, r1, c2, n + 1),
        !r1.footprint(c2).contains(id),
        r1.footprint(c2) == r1.footprint(c1),
        r1.settled(c1) ==> r1.settled(c2),
{
    reveal(agree_on);
    assert(agree_on(c1, c2, r1.footprint(c1)));
    r1.lemma_frame(c1, c2);
    assert forall|x: u64| #[trigger] r0.footprint(c0).complement().contains(x) implies x != id by {}
}

/// Extending the storage.
proof fn lemma_extended(r0: &Recycler, c0: &PageCache, r1: &Recycler, c1: &PageCache, c2: &PageCache, n: nat)
    requires
        recycled(r0, c0, r1, c1, n),
        c2.inv(),
        c2.bounded(),
        extended(c1, c2, 1),
    ensures
        recycled(r0, c0, r1, c2, n + 1),
        !r1.footprint(c2).contains(c1.watermark()),
        r1.footprint(c2) == r1.footprint(c1).remove(c1.watermark()),
        r1.settled(c1) ==> r1.settled(c2),
{
    reveal(agree_on);
    r1.lemma_extend(c1, c2, 1);
    assert(ids_from(c1.watermark(), 1).contains(c1.watermark()));
    assert(r1.footprint(c2) =~= r1.footprint(c1).remove(c1.watermark()));
    assert forall|x: u64| #[trigger] r0.footprint(c0).complement().contains(x) implies {
        &&& c0.contents().contains_key(x) == c2.contents().contains_key(x)
        &&& c0.contents().contains_key(x) ==> c0.contents()[x] == c2.contents()[x]
        &&& c0.unsaved().contains(x) == c2.unsaved().contains(x)
    } by {
        assert(!ids_from(c1.watermark(), 1).contains(x));
        assert(c2.contents().dom().contains(x) == c1.contents().dom().contains(x));
        assert(c2.contents()[x] == c1.contents()[x]);
    }
}

impl PageSource for Recycler {
    open spec fn ready(&self, cache: &PageCache) -> bool {
        &&& self.map_ok(cache)
        &&& self.saved_ok(cache)
        &&& self.session_ok(cache)
        &&& forall|id: u64| #[trigger] self.frees(cache, id) ==> !cache.unsaved().contains(id)
    }

    open spec fn footprint(&self, cache: &PageCache) -> Set<u64> {
        Set::new(
            |id: u64|
                id >= cache.watermark() || self.tree.session_owned@.contains(id) || self.nodes(cache).contains(id)
                    || self.saved_nodes(cache).contains(id) || self.frees(cache, id),
        )
    }

    /// The pages that the freemap says are free.
    open spec fn spare(&self, cache: &PageCache) -> Set<u64> {
        Set::new(|id: u64| self.frees(cache, id))
    }

    /// What was made in this session is part of the freemap, and what it no longer
    /// has of the saved one is on the list of superseded pages.
    open spec fn settled(&self, cache: &PageCache) -> bool {
        &&& self.tree.session_owned@.subset_of(self.nodes(cache))
        &&& forall|id: u64| #[trigger]
            self.saved_nodes(cache).contains(id) ==> self.nodes(cache).contains(id)
                || self.tree.pending_superseded@.contains(id)
    }

    /// Finding a free page copies up to one page per level of the freemap.
    open spec fn growth() -> nat {
        7
    }

    /// The freemap that the storage holds.
    open spec fn anchor(&self) -> (u64, nat) {
        (self.saved_root, self.saved_depth as nat)
    }

    proof fn lemma_frame(&self, a: &PageCache, b: &PageCache) {
        self.lemma_copied(a, b, self.footprint(a));
        assert(self.footprint(b) =~= self.footprint(a));
    }

    proof fn lemma_extend(&self, a: &PageCache, b: &PageCache, n: nat) {
        reveal(agree_on);
        let fresh = ids_from(a.watermark(), n);
        let ids = self.footprint(a).difference(Set::new(|id: u64| id >= a.watermark()));
        assert(agree_on(a, b, ids)) by {
            assert forall|id: u64| #[trigger] ids.contains(id) implies {
                &&& a.contents().contains_key(id) == b.contents().contains_key(id)
                &&& a.contents().contains_key(id) ==> a.contents()[id] == b.contents()[id]
                &&& a.unsaved().contains(id) == b.unsaved().contains(id)
            } by {
                assert(!fresh.contains(id));
                assert(b.contents().dom().contains(id) == a.contents().dom().contains(id));
                assert(b.contents()[id] == a.contents()[id]);
            }
        }
        self.lemma_copied(a, b, ids);
        assert(self.footprint(b) =~= self.footprint(a).difference(fresh));
    }

    fn next_page(&mut self, cache: &mut PageCache) -> (outcome: Result<u64, ChiselError>) {
        let ghost r0 = *self;
        let ghost c0 = *cache;
        proof {
            lemma_same_step(self, cache);
        }
        let found: Option<u64> = if self.tree.root == PAGE_ID_NONE {
            None
        } else {
            let mut extend = Extend;
            let mut hint: u64 = self.hint;
            let superseded: usize = self.tree.pending_superseded.len();
            match self.tree.allocate_first(cache, &mut hint, &mut extend) {
                Ok(found) => {
                    self.hint = hint;
                    proof {
                        assert forall|id: u64| #[trigger] self.tree.marks_free(cache, id) implies r0.tree.marks_free(
                            &c0,
                            id,
                        ) by {}
                        if found is Some {
                            assert(tidy(&r0.tree, &Extend, &c0, &self.tree, &Extend, cache));
                        }
                        r0.lemma_map_changed(&c0, self, cache, 6);
                    }
                    found
                },
                Err(e) => {
                    let ghost t1 = self.tree;
                    self.tree.pending_superseded.truncate(superseded);
                    proof {
                        assert(self.tree.pending_superseded@ =~= r0.tree.pending_superseded@);
                        assert forall|id: u64| #[trigger] self.tree.marks_free(cache, id) implies r0.tree.marks_free(
                            &c0,
                            id,
                        ) by {
                            assert(t1.marks_free(cache, id));
                        }
                        r0.lemma_map_changed(&c0, self, cache, 6);
                        lemma_no_fault(&c0, r0.tree.root, r0.tree.spec_depth(), e);
                    }
                    return Err(e);
                },
            }
        };
        let ghost r1 = *self;
        let ghost c1 = *cache;
        match found {
            Some(id) => {
                proof {
                    assert(r0.frees(&c0, id));
                    assert(!r1.tree.marks_free(&c1, id));
                    assert(r1.footprint(&c1) =~= r0.footprint(&c0).remove(id)) by {
                        assert forall|x: u64| r0.footprint(&c0).contains(x) && x != id implies #[trigger] r1.footprint(
                            &c1,
                        ).contains(x) by {
                            assert(r1.footprint(&c1).contains(x) || r0.frees(&c0, x) && !r1.frees(&c1, x));
                            if r0.frees(&c0, x) {
                                assert(r1.tree.marks_free(&c1, x) == r0.tree.marks_free(&c0, x));
                            }
                        }
                    }
                    assert forall|k: u64| #[trigger] r0.spare(&c0).contains(k) implies id <= k by {
                        assert(r0.tree.marks_free(&c0, k));
                    }
                }
                let claimed = cache.claim_page(id);
                proof {
                    lemma_claimed(&r0, &c0, &r1, &c1, cache, id, 6);
                }
                match claimed {
                    Ok(_) => Ok(id),
                    Err(e) => Err(e),
                }
            },
            None => {
                let fresh = cache.new_page();
                proof {
                    assert forall|k: u64| !(#[trigger] r0.spare(&c0).contains(k)) by {
                        if r0.frees(&c0, k) {
                            assert(r0.tree.marks_free(&c0, k));
                        }
                    }
                    assert(r0.spare(&c0) =~= Set::<u64>::empty());
                    assert(agree_on(&c0, &c1, r0.footprint(&c0))) by {
                        reveal(agree_on);
                    }
                    r0.lemma_frame(&c0, &c1);
                    assert(r0.settled(&c0) ==> r1.settled(&c1));
                    assert(r1.footprint(&c1) =~= r0.footprint(&c0));
                    lemma_extended_by_one(&c1, cache);
                    lemma_extended(&r0, &c0, &r1, &c1, cache, 6);
                }
                fresh
            },
        }
    }
}

} // verus!
