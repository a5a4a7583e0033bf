//! Saving the pages of a state, so that a superblock can describe it.

use vstd::prelude::*;

use rustc_hash::FxHashSet;

use crate::error::ChiselError;
use crate::forest::lemma_nodes;
use crate::freemap_tree::{owned_ok, FreeMapTree, LEAF_CAPACITY};
use crate::page::{checksum_ok, FORMAT_VERSION, MAGIC, PAGE_ID_NONE, PAGE_SIZE};
use crate::page_cache::PageCache;
use crate::page_io::{bumped, lemma_wrote_within, wrote, wrote_only};
use crate::page_source::{agree_on, filled, Extend, PageSource};
use crate::persist::{
    lemma_marks_mono, map_frees, map_nodes, map_owned, map_sound, mark_all, marked, marks_pages, retake,
};
use crate::pool::{good, lemma_below_len, lemma_same_counts, pool_ok, stray};
use crate::radix::{node_at, page_at, reach, same_on, tree_in};
use crate::recycler::{lemma_map_same, sound_pages, Recycler};
use crate::spine::lemma_tree_mono;
use crate::store::{lemma_store_kept, lemma_store_used, lemma_used_good, unused, used_pages};
use crate::superblock::{count_ok, encodes, Superblock};
use crate::transaction::{slot_for, superblock_of};
use crate::workspace::{accounted, kept_by, none_noted, Workspace};

verus! {

/// What the storage holds, by page.
pub open spec fn disk_map(disk: Seq<Seq<u8>>) -> Map<u64, Seq<u8>> {
    Map::new(|id: u64| id < disk.len(), |id: u64| disk[id as int])
}

/// The state is what the storage holds, and nothing else has begun.
pub open spec fn clean(w: &Workspace) -> bool {
    &&& w.inv()
    &&& w.freed@.len() == 0
    &&& w.cursor is None
    &&& w.bins@ == Set::<u64>::empty()
    &&& w.cache.unsaved() == Set::<u64>::empty()
    &&& w.cache.pending() == 0
    &&& w.cache.contents() == disk_map(w.cache.disk())
    &&& filled(&w.cache)
    &&& w.recycler.tree.root == w.recycler.saved_root
    &&& w.recycler.tree.depth == w.recycler.saved_depth
    &&& w.recycler.tree.session_owned@ == Set::<u64>::empty()
    &&& w.recycler.tree.pending_superseded@.len() == 0
}

/// The pages that saving a state records as free: those freed, and those noted before,
/// but for the first `held` of these.
pub open spec fn to_free(w: &Workspace, held: int) -> Seq<u64> {
    w.freed@ + w.deferred@.skip(held)
}

/// None of the first `held` pages noted is noted again.
#[verifier::opaque]
pub open spec fn held_apart(noted: Seq<u64>, held: int) -> bool {
    &&& 0 <= held <= noted.len()
    &&& forall|i: int, j: int| 0 <= i < held <= j < noted.len() ==> #[trigger] noted[i] != #[trigger] noted[j]
}

/// Pages may be held back from none to all.
pub proof fn lemma_held_all(noted: Seq<u64>)
    ensures
        held_apart(noted, 0),
        held_apart(noted, noted.len() as int),
{
    reveal(held_apart);
}

/// How many pages saving a state takes at most.
pub open spec fn persist_pages(w: &Workspace) -> nat {
    marks_pages(w.freed@.len() + w.deferred@.len())
}

/// How many pages recording the free pages keeps from being saved at most: those
/// of the freemap that were made before, and new ones.
pub open spec fn save_load(w: &Workspace) -> nat {
    w.recycler.tree.session_owned@.len() + persist_pages(w)
}

/// Saving pages keeps a freemap.
proof fn lemma_map_flushed(a: &PageCache, ta: &FreeMapTree, b: &PageCache, tb: &FreeMapTree)
    requires
        map_sound(a, ta),
        tb.root == ta.root,
        tb.depth == ta.depth,
        owned_ok(&Extend, b, tb.session_owned@),
        b.watermark() == a.watermark(),
        a.contents().submap_of(b.contents()),
    ensures
        map_sound(b, tb),
        map_nodes(b, tb) == map_nodes(a, ta),
        forall|id: u64| #[trigger] map_frees(b, tb, id) == map_frees(a, ta, id),
        forall|id: u64| #[trigger] map_nodes(a, ta).contains(id) ==> id < a.watermark(),
{
    if ta.root != PAGE_ID_NONE {
        let c = LEAF_CAPACITY as nat;
        let pa = a.contents();
        let pb = b.contents();
        let root = ta.root;
        let d = ta.spec_depth();
        let nodes = map_nodes(a, ta);
        lemma_nodes(pa, c, root, d);
        assert(same_on(pa, pb, nodes)) by {
            assert forall|id: u64| #[trigger] nodes.contains(id) implies page_at(pa, id) == page_at(pb, id) by {
                assert(sound_pages(a).contains(id));
                assert(pa.dom().contains(id));
            }
        }
        lemma_map_same(pa, pb, root, d, nodes);
        assert(tree_in(pb, c, root, d, nodes));
        assert forall|id: u64| #[trigger] nodes.contains(id) implies sound_pages(b).contains(id) && id < a.watermark() by {
            assert(sound_pages(a).contains(id));
            assert(pa.dom().contains(id));
            let (k, l) = choose|k: nat, l: nat|
                k < reach(c, d) && l <= d && #[trigger] node_at(pa, c, root, d, k, l) == Some(id);
            assert(crate::freemap_tree::node_ok(page_at(pa, id), l));
            assert(Extend.footprint(a).complement().contains(id));
        }
        lemma_tree_mono(pb, c, root, d, nodes, sound_pages(b));
        assert(Extend.footprint(b) =~= Extend.footprint(a));
        assert forall|id: u64| #[trigger] map_frees(b, tb, id) == map_frees(a, ta, id) by {}
    }
}

/// The source for a freemap that was saved can be used.
pub proof fn lemma_source_ready(c: &PageCache, s: &Recycler)
    requires
        c.inv(),
        c.bounded(),
        c.watermark() > 0,
        c.unsaved() == Set::<u64>::empty(),
        map_sound(c, &s.tree),
        s.tree.root == s.saved_root,
        s.tree.depth == s.saved_depth,
        s.tree.session_owned@ == Set::<u64>::empty(),
        s.tree.pending_superseded@.len() == 0,
        s.hint == 0,
        forall|id: u64| #[trigger] map_nodes(c, &s.tree).contains(id) ==> id < c.watermark(),
        forall|id: u64| #[trigger]
            map_frees(c, &s.tree, id) ==> 0 < id < c.watermark() && !map_nodes(c, &s.tree).contains(id),
    ensures
        s.ready(c),
        forall|id: u64| #[trigger]
            s.footprint(c).contains(id) <==> id >= c.watermark() || map_nodes(c, &s.tree).contains(id) || map_frees(
                c,
                &s.tree,
                id,
            ),
{
    assert(s.nodes(c) == map_nodes(c, &s.tree));
    assert(s.saved_nodes(c) == map_nodes(c, &s.tree));
    assert forall|id: u64| #[trigger] s.frees(c, id) == map_frees(c, &s.tree, id) by {}
    if s.has_tree() {
        assert forall|id: u64| #[trigger] s.tree.marks_free(c, id) implies {
            &&& 0 < id < c.watermark()
            &&& !s.nodes(c).contains(id)
            &&& !s.tree.session_owned@.contains(id)
        } by {
            assert(map_frees(c, &s.tree, id));
        }
    }
    assert forall|id: u64| #[trigger] s.saved_nodes(c).contains(id) implies id < c.watermark() && !s.frees(c, id) by {
        assert(map_nodes(c, &s.tree).contains(id));
        if s.frees(c, id) {
            assert(map_frees(c, &s.tree, id));
        }
    }
}

/// The pages between two states of a commit.
spec fn pages_grown(w0: &Workspace, c: &PageCache) -> bool {
    &&& c.watermark() >= w0.cache.watermark()
    &&& forall|id: u64|
        id < w0.cache.watermark() && #[trigger] w0.cache.contents().contains_key(id) ==> c.contents().contains_key(id)
            && (w0.recycler.tree.session_owned@.contains(id) || c.contents()[id] == w0.cache.contents()[id])
}

/// A state whose pages were saved, with the pages that it freed recorded as
/// free, is clean.
#[verifier::spinoff_prover]
proof fn lemma_persisted(
    w0: &Workspace,
    c1: &PageCache,
    t1: &FreeMapTree,
    c2: &PageCache,
    t2: &FreeMapTree,
    w3: &Workspace,
    held: int,
    m: nat,
)
    requires
        w0.inv(),
        held_apart(w0.deferred@, held),
        map_nodes(c1, t1) == w0.recycler.nodes(&w0.cache),
        forall|id: u64| #[trigger] map_frees(c1, t1, id) == w0.recycler.frees(&w0.cache, id),
        c1.watermark() == w0.cache.watermark(),
        t1.pending_superseded@ == w0.recycler.tree.pending_superseded@,
        t1.session_owned@.subset_of(w0.recycler.tree.session_owned@),
        marked(c1, t1, c2, t2, to_free(w0, held), m),
        w3.cache.inv(),
        w3.cache.bounded(),
        w3.cache.watermark() == c2.watermark(),
        c2.contents().submap_of(w3.cache.contents()),
        w3.cache.unsaved() == Set::<u64>::empty(),
        w3.cache.pending() == 0,
        w3.cache.contents() == disk_map(w3.cache.disk()),
        filled(&w3.cache),
        pages_grown(w0, &w3.cache),
        w3.recycler.tree.root == t2.root,
        w3.recycler.tree.depth == t2.depth,
        w3.recycler.tree.session_owned@ == Set::<u64>::empty(),
        w3.recycler.tree.pending_superseded@.len() == 0,
        w3.recycler.saved_root == t2.root,
        w3.recycler.saved_depth == t2.depth,
        w3.recycler.hint == 0,
        w3.slots == w0.slots,
        w3.roots == w0.roots,
        w3.live == w0.live,
        w3.freed@.len() == 0,
        w3.deferred@ == w0.deferred@.take(held) + t2.pending_superseded@,
        w3.cursor is None,
        w3.bins@ == Set::<u64>::empty(),
    ensures
        clean(w3),
        w3.db() == w0.db(),
        forall|id: u64| #[trigger]
            w3.recycler.frees(&w3.cache, id) == (w0.recycler.frees(&w0.cache, id) || to_free(w0, held).contains(id)),
        accounted(w0) ==> accounted(w3),
        held_apart(w3.deferred@, held),
{
    let n = w0.slots;
    let r = w0.roots;
    let c3 = &w3.cache;
    let s3 = &w3.recycler;
    let top = w0.cache.watermark();
    let f0 = w0.recycler.footprint(&w0.cache);
    reveal(held_apart);
    reveal(none_noted);
    let ids = to_free(w0, held);
    let rest = w0.deferred@.skip(held);
    let p0 = w0.cache.contents();
    let p3 = c3.contents();
    lemma_map_flushed(c2, t2, c3, &s3.tree);
    let nodes0 = w0.recycler.nodes(&w0.cache);
    let nodes3 = map_nodes(c3, &s3.tree);
    let own0 = w0.recycler.tree.session_owned@;
    // What was freed is no page of the source, and unused.
    assert forall|id: u64| #[trigger] ids.contains(id) implies n <= id < top && !f0.contains(id) && unused(p0, r, id) by {
        let i = ids.index_of(id);
        if i < w0.freed@.len() {
            assert(id == w0.freed@[i]);
            assert(stray(&w0.cache, &w0.recycler, n, r, w0.freed@[i]));
        } else {
            assert(id == rest[i - w0.freed@.len()]);
            assert(id == w0.deferred@[held + i - w0.freed@.len()]);
            assert(stray(&w0.cache, &w0.recycler, n, r, w0.deferred@[held + i - w0.freed@.len()]));
        }
    }
    assert forall|id: u64| #[trigger] nodes3.contains(id) implies nodes0.contains(id) || id >= top
        || own0.contains(id) by {
        assert(map_nodes(c2, t2).contains(id));
        if map_owned(t2).contains(id) && id < top {
            assert(map_owned(t1).contains(id));
        }
    }
    assert forall|id: u64| #[trigger] nodes0.contains(id) implies f0.contains(id) && n <= id < top && !w0.recycler.frees(
        &w0.cache,
        id,
    ) by {
        lemma_nodes(
            p0,
            LEAF_CAPACITY as nat,
            w0.recycler.tree.root,
            w0.recycler.tree.spec_depth(),
        );
        assert(Extend.footprint(&w0.cache).complement().contains(id));
        if w0.recycler.frees(&w0.cache, id) {
            assert(w0.recycler.tree.marks_free(&w0.cache, id));
        }
    }
    assert forall|id: u64| #[trigger] map_frees(c3, &s3.tree, id) == (w0.recycler.frees(&w0.cache, id) || ids.contains(
        id,
    )) by {
        assert(map_frees(c2, t2, id) == (map_frees(c1, t1, id) || ids.contains(id)));
    }
    assert forall|id: u64| #[trigger] map_frees(c3, &s3.tree, id) implies n <= id < top && !nodes3.contains(id) by {
        if w0.recycler.frees(&w0.cache, id) {
            assert(f0.contains(id));
            assert(w0.recycler.tree.marks_free(&w0.cache, id));
        }
    }
    lemma_source_ready(c3, s3);
    let f3 = s3.footprint(c3);
    assert forall|id: u64| id < n implies !(#[trigger] f3.contains(id)) by {
        if nodes3.contains(id) {
            assert(nodes0.contains(id) || own0.contains(id));
            assert(f0.contains(id));
        }
    }
    assert(pool_ok(c3, s3, n));
    // The pages of the database.
    let g0 = good(&w0.cache, &w0.recycler, n);
    let g3 = good(c3, s3, n);
    let used = used_pages(p0, r);
    lemma_store_used(p0, g0, r);
    lemma_used_good(p0, g0, r);
    assert forall|id: u64| #[trigger] used.contains(id) implies g3.contains(id) && page_at(p0, id) == page_at(p3, id) by {
        assert(g0.contains(id));
        assert(p0.contains_key(id));
        assert(!f0.contains(id));
        assert(id < top);
        if map_frees(c3, &s3.tree, id) {
            assert(ids.contains(id));
        }
        if nodes3.contains(id) {
            assert(nodes0.contains(id) || own0.contains(id));
            assert(f0.contains(id));
        }
    }
    lemma_store_kept(p0, p3, used, g3, r, PAGE_ID_NONE);
    lemma_same_counts(w0.live@, p0, p3, r, r);
    // What the new freemap no longer has can be freed next.
    let pend2 = t2.pending_superseded@;
    assert forall|i: int| 0 <= i < pend2.len() implies stray(c3, s3, n, r, #[trigger] pend2[i]) && f0.contains(pend2[i]) by {
        let id = pend2[i];
        if i < t1.pending_superseded@.len() {
            assert(id == w0.recycler.tree.pending_superseded@[i]);
            assert(w0.recycler.saved_nodes(&w0.cache).contains(id));
            assert(!nodes0.contains(id));
            assert(!own0.contains(id));
        } else {
            assert(nodes0.contains(t2.pending_superseded@[i]));
            assert(!map_nodes(c2, t2).contains(t2.pending_superseded@[i]));
        }
        assert(f0.contains(id));
        assert(n <= id < top);
        assert(!g0.contains(id));
        assert(unused(p0, r, id));
        assert(unused(p3, r, id));
        assert(!nodes3.contains(id));
        assert(!map_frees(c3, &s3.tree, id));
    }
    // What is held back stays as it is.
    assert forall|i: int| 0 <= i < held implies stray(c3, s3, n, r, #[trigger] w0.deferred@[i]) && !f0.contains(
        w0.deferred@[i],
    ) by {
        let id = w0.deferred@[i];
        assert(stray(&w0.cache, &w0.recycler, n, r, w0.deferred@[i]));
        assert(!ids.contains(id)) by {
            if ids.contains(id) {
                let j = ids.index_of(id);
                if j < w0.freed@.len() {
                    assert(id == w0.freed@[j]);
                    assert(w0.deferred@.contains(w0.freed@[j]));
                } else {
                    assert(id == rest[j - w0.freed@.len()]);
                    assert(id == w0.deferred@[held + j - w0.freed@.len()]);
                }
            }
        }
        assert(unused(p3, r, id));
        assert(!nodes3.contains(id)) by {
            if nodes3.contains(id) {
                assert(nodes0.contains(id) || own0.contains(id));
                assert(f0.contains(id));
            }
        }
        assert(!map_frees(c3, &s3.tree, id)) by {
            if w0.recycler.frees(&w0.cache, id) {
                assert(f0.contains(id));
            }
        }
    }
    assert forall|i: int| 0 <= i < w3.deferred@.len() implies stray(c3, s3, n, r, #[trigger] w3.deferred@[i]) by {
        if i < held {
            assert(w3.deferred@[i] == w0.deferred@[i]);
        } else {
            assert(w3.deferred@[i] == pend2[i - held]);
        }
    }
    assert(held_apart(w3.deferred@, held)) by {
        assert forall|i: int, j: int| 0 <= i < held <= j < w3.deferred@.len() implies #[trigger] w3.deferred@[i]
            != #[trigger] w3.deferred@[j] by {
            assert(w3.deferred@[i] == w0.deferred@[i]);
            assert(w3.deferred@[j] == pend2[j - held]);
        }
    }
    assert forall|id: u64| #[trigger] s3.frees(c3, id) == (w0.recycler.frees(&w0.cache, id) || ids.contains(id)) by {
        assert(s3.frees(c3, id) == map_frees(c3, &s3.tree, id));
    }
    reveal(accounted);
    if accounted(w0) {
        let pend1 = t1.pending_superseded@;
        assert forall|id: u64| pend2.contains(id) implies #[trigger] w3.deferred@.contains(id) by {
            let i = pend2.index_of(id);
            assert(w3.deferred@[held + i] == id);
        }
        assert forall|id: u64| pend1.contains(id) implies #[trigger] w3.deferred@.contains(id) by {
            let i = pend1.index_of(id);
            assert(pend2[i] == id);
        }
        assert forall|id: u64| #[trigger] kept_by(w3, id) by {
            assert(kept_by(w0, id));
            if f0.contains(id) {
                if id >= top && id < c3.watermark() {
                    assert(map_nodes(c2, t2).contains(id));
                    assert(nodes3.contains(id));
                } else if nodes0.contains(id) || own0.contains(id) || w0.recycler.saved_nodes(&w0.cache).contains(id) {
                    assert(nodes0.contains(id) || pend1.contains(id));
                    if nodes0.contains(id) {
                        assert(map_nodes(c1, t1).contains(id));
                        assert(map_nodes(c2, t2).contains(id) || t2.pending_superseded@.contains(id));
                    }
                } else if w0.recycler.frees(&w0.cache, id) {
                    assert(map_frees(c3, &s3.tree, id));
                }
            } else if !unused(p0, r, id) {
                assert(used.contains(id));
                assert(!unused(p3, r, id));
            } else if w0.freed@.contains(id) {
                assert(ids[w0.freed@.index_of(id)] == id);
                assert(s3.frees(c3, id));
            } else if w0.deferred@.contains(id) {
                let i = w0.deferred@.index_of(id);
                if i < held {
                    assert(w3.deferred@[i] == id);
                } else {
                    assert(rest[i - held] == id);
                    assert(ids[w0.freed@.len() + i - held] == id);
                    assert(s3.frees(c3, id));
                }
            }
        }
        assert(s3.settled(c3));
    }
}

/// The pages that saving a state may write.
pub open spec fn at_risk(w: &Workspace) -> Set<u64> {
    Set::new(|id: u64| id >= w.cache.watermark() || w.cache.unsaved().contains(id))
}

/// A state was saved in this order: pages at risk, up to a sync; after it, nothing
/// but a superblock slot.
pub open spec fn saved_in_order(w0: &Workspace, w1: &Workspace, slot: u64, m: int) -> bool {
    let a = w0.cache.storage();
    let b = w1.cache.storage();
    a.is_file_image() ==> {
        &&& b.follows(&a)
        &&& a.recorded().len() < m <= b.recorded().len()
        &&& b.recorded()[m - 1] is Sync
        &&& forall|i: int| a.recorded().len() <= i < m ==> (#[trigger] b.recorded()[i]).spares_all_but(at_risk(w0))
        &&& forall|i: int|
            m <= i < b.recorded().len() ==> (#[trigger] b.recorded()[i]).stays_within(
                Map::<u64, Seq<u8>>::empty().insert(slot, w1.cache.disk()[slot as int]),
            )
    }
}

/// First the pages, then the slot.
pub proof fn lemma_saved_in_order(w0: &Workspace, mid: &Workspace, w1: &Workspace, slot: u64)
    requires
        wrote_only(&w0.cache.storage(), &mid.cache.storage(), at_risk(w0)),
        w0.cache.storage().is_file_image() ==> mid.cache.storage().synced_since(&w0.cache.storage()),
        wrote(
            &mid.cache.storage(),
            &w1.cache.storage(),
            Map::<u64, Seq<u8>>::empty().insert(slot, w1.cache.disk()[slot as int]),
        ),
    ensures
        saved_in_order(w0, w1, slot, mid.cache.storage().recorded().len() as int),
{
    let a = w0.cache.storage();
    let b = mid.cache.storage();
    let c = w1.cache.storage();
    if a.is_file_image() {
        let n = a.recorded().len() as int;
        let m = b.recorded().len() as int;
        assert(c.recorded().take(n) =~= c.recorded().take(m).take(n));
        assert forall|i: int| n <= i < m implies (#[trigger] c.recorded()[i]).spares_all_but(at_risk(w0)) by {
            assert(c.recorded().take(m)[i] == b.recorded()[i]);
        }
        assert(c.recorded().take(m)[m - 1] == b.recorded()[m - 1]);
    }
}

/// What saving pages leaves of the storage.
pub open spec fn disk_kept(w0: &Workspace, disk: Seq<Seq<u8>>) -> bool {
    &&& disk.len() >= w0.cache.disk().len()
    &&& forall|id: u64|
        id < w0.cache.disk().len() && id < w0.cache.watermark() && !w0.cache.unsaved().contains(id)
            ==> #[trigger] disk[id as int] == w0.cache.disk()[id as int]
}

impl Workspace {
    /// Save the pages of the state, and record the pages that it freed as free. The
    /// first `held` pages that were noted to be freed are held back.
    pub fn persist(&mut self, held: usize) -> (outcome: Result<(), ChiselError>)
        requires
            old(self).inv(),
            held_apart(old(self).deferred@, held as int),
            !old(self).cache.storage().spec_read_only(),
            filled(&old(self).cache),
            old(self).cache.watermark() + persist_pages(old(self)) <= usize::MAX,
        ensures
            match outcome {
                Ok(_) => {
                    &&& clean(final(self))
                    &&& final(self).cache.same_config(&old(self).cache)
                    &&& final(self).db() == old(self).db()
                    &&& final(self).slots == old(self).slots
                    &&& final(self).roots == old(self).roots
                    &&& final(self).live == old(self).live
                    &&& disk_kept(old(self), final(self).cache.disk())
                    &&& forall|id: u64| #[trigger]
                        final(self).recycler.frees(&final(self).cache, id) == (old(self).recycler.frees(
                            &old(self).cache,
                            id,
                        ) || to_free(old(self), held as int).contains(id))
                    &&& held_apart(final(self).deferred@, held as int)
                    &&& accounted(old(self)) ==> accounted(final(self))
                    &&& wrote_only(&old(self).cache.storage(), &final(self).cache.storage(), at_risk(old(self)))
                    &&& old(self).cache.storage().is_file_image() ==> final(self).cache.storage().synced_since(
                        &old(self).cache.storage(),
                    )
                    &&& final(self).cache.storage().syncs() == bumped(bumped(old(self).cache.storage().syncs()))
                },
                Err(e) => {
                    &&& save_load(old(self)) > old(self).cache.capacity()
                    &&& e == old(self).cache.pressure_error()
                    &&& final(self).cache.pending() > final(self).cache.capacity()
                },
            },
    {
        let ghost w0 = *self;
        let start: u64 = match self.cache.file_page_count() {
            Ok(n) => n,
            Err(e) => {
                return Err(e);
            },
        };
        match self.cache.flush() {
            Ok(_) => {},
            Err(e) => {
                return Err(e);
            },
        }
        let kept: FxHashSet<u64> = retake(&mut self.cache, &self.recycler.tree.session_owned, start);
        self.recycler.tree.session_owned = kept;
        let ghost c1 = self.cache;
        let ghost t1 = self.recycler.tree;
        proof {
            let own0 = w0.recycler.tree.session_owned@;
            let below = Set::new(|id: u64| id < w0.cache.watermark());
            lemma_below_len(w0.cache.watermark());
            assert(own0.subset_of(below)) by {
                assert forall|id: u64| #[trigger] own0.contains(id) implies below.contains(id) by {
                    assert(!Extend.footprint(&w0.cache).contains(id));
                }
            }
            vstd::set_lib::lemma_len_subset(own0, below);
            vstd::set_lib::lemma_len_subset(t1.session_owned@, own0);
            assert(owned_ok(&Extend, &c1, t1.session_owned@));
            assert(map_sound(&w0.cache, &w0.recycler.tree));
            lemma_map_flushed(&w0.cache, &w0.recycler.tree, &c1, &t1);
            assert(map_nodes(&w0.cache, &w0.recycler.tree) == w0.recycler.nodes(&w0.cache));
            assert forall|id: u64| #[trigger] map_frees(&c1, &t1, id) == w0.recycler.frees(&w0.cache, id) by {
                assert(map_frees(&w0.cache, &w0.recycler.tree, id) == w0.recycler.frees(&w0.cache, id));
            }
        }
        let mut ids: Vec<u64> = Vec::new();
        ids.append(&mut self.freed);
        proof {
            reveal(held_apart);
        }
        let mut rest: Vec<u64> = self.deferred.split_off(held);
        ids.append(&mut rest);
        proof {
            assert(ids@ =~= to_free(&w0, held as int));
            assert(self.deferred@ =~= w0.deferred@.take(held as int));
            lemma_marks_mono(ids@.len(), w0.freed@.len() + w0.deferred@.len());
        }
        match mark_all(&mut self.cache, &mut self.recycler.tree, &ids) {
            Ok(_) => {},
            Err(e) => {
                return Err(e);
            },
        }
        let ghost c2 = self.cache;
        let ghost t2 = self.recycler.tree;
        match self.cache.flush() {
            Ok(_) => {},
            Err(e) => {
                return Err(e);
            },
        }
        self.deferred.append(&mut self.recycler.tree.pending_superseded);
        self.recycler = Recycler::new(self.recycler.tree.root, self.recycler.tree.depth);
        self.freed = Vec::new();
        self.cursor = None;
        proof {
            self.bins = Ghost(Set::empty());
            assert(self.deferred@ =~= w0.deferred@.take(held as int) + t2.pending_superseded@);
            assert(pages_grown(&w0, &self.cache)) by {
                assert forall|id: u64| id < w0.cache.watermark() && #[trigger] w0.cache.contents().contains_key(
                    id,
                ) implies self.cache.contents().contains_key(id) && (w0.recycler.tree.session_owned@.contains(id)
                    || self.cache.contents()[id] == w0.cache.contents()[id]) by {
                    assert(w0.cache.contents().dom().contains(id));
                    assert(c1.contents().contains_key(id));
                    assert(c2.contents().contains_key(id));
                    assert(c2.contents().dom().contains(id));
                    assert(map_owned(&t1).contains(id) ==> w0.recycler.tree.session_owned@.contains(id));
                }
            }
            assert(filled(&self.cache)) by {
                assert forall|id: u64| id < self.cache.watermark() implies #[trigger] self.cache.contents().contains_key(
                    id,
                ) by {
                    assert(filled(&c1)) by {
                        assert forall|id: u64| id < c1.watermark() implies #[trigger] c1.contents().contains_key(id) by {
                            assert(w0.cache.contents().contains_key(id));
                            assert(w0.cache.contents().dom().contains(id));
                        }
                    }
                    assert(c2.contents().contains_key(id));
                    assert(c2.contents().dom().contains(id));
                }
            }
            lemma_persisted(&w0, &c1, &t1, &c2, &t2, self, held as int, marks_pages(ids@.len()));
            lemma_wrote_within(
                &w0.cache.storage(),
                &c1.storage(),
                &self.cache.storage(),
                w0.cache.unsaved_pages(),
                c2.unsaved_pages(),
                at_risk(&w0),
            );
            assert forall|id: u64|
                id < w0.cache.disk().len() && id < w0.cache.watermark() && !w0.cache.unsaved().contains(
                    id,
                ) implies #[trigger] self.cache.disk()[id as int] == w0.cache.disk()[id as int] by {
                assert(!w0.cache.unsaved_pages().contains_key(id));
                assert(c1.disk()[id as int] == w0.cache.disk()[id as int]);
                assert(!c2.unsaved().contains(id));
                assert(!c2.unsaved_pages().contains_key(id));
                assert(c2.disk()[id as int] == c1.disk()[id as int]);
            }
        }
        Ok(())
    }
}

/// A clean state stays clean when a superblock slot is written.
proof fn lemma_slot_written(w0: &Workspace, w1: &Workspace, slot: u64)
    requires
        clean(w0),
        slot < w0.slots,
        w1.cache.inv(),
        w1.cache.bounded(),
        w1.cache.unsaved() == Set::<u64>::empty(),
        w1.cache.pending() == 0,
        w1.cache.contents() == disk_map(w1.cache.disk()),
        w1.cache.watermark() == w0.cache.watermark(),
        forall|id: u64|
            id != slot && #[trigger] w0.cache.contents().contains_key(id) ==> w1.cache.contents().contains_key(id)
                && w1.cache.contents()[id] == w0.cache.contents()[id],
        forall|id: u64|
            id != slot && #[trigger] w1.cache.contents().contains_key(id) ==> w0.cache.contents().contains_key(id),
        w1.cache.contents().contains_key(slot),
        w1.recycler == w0.recycler,
        w1.slots == w0.slots,
        w1.roots == w0.roots,
        w1.freed == w0.freed,
        w1.deferred == w0.deferred,
        w1.cursor == w0.cursor,
        w1.live == w0.live,
        w1.bins == w0.bins,
    ensures
        clean(w1),
        w1.db() == w0.db(),
        forall|id: u64| #[trigger] w1.recycler.frees(&w1.cache, id) == w0.recycler.frees(&w0.cache, id),
        accounted(w0) ==> accounted(w1),
{
    let ids = Set::<u64>::full().remove(slot);
    let n = w0.slots;
    assert(agree_on(&w0.cache, &w1.cache, ids)) by {
        reveal(agree_on);
        assert forall|id: u64| #[trigger] ids.contains(id) implies {
            &&& w0.cache.contents().contains_key(id) == w1.cache.contents().contains_key(id)
            &&& w0.cache.contents().contains_key(id) ==> w0.cache.contents()[id] == w1.cache.contents()[id]
            &&& w0.cache.unsaved().contains(id) == w1.cache.unsaved().contains(id)
        } by {}
    }
    assert(filled(&w1.cache)) by {
        assert forall|id: u64| id < w1.cache.watermark() implies #[trigger] w1.cache.contents().contains_key(id) by {
            assert(w0.cache.contents().contains_key(id));
        }
    }
    assert(!w0.recycler.footprint(&w0.cache).contains(slot));
    w0.recycler.lemma_copied(&w0.cache, &w1.cache, ids);
    let f0 = w0.recycler.footprint(&w0.cache);
    assert(w1.recycler.footprint(&w1.cache) =~= f0);
    let g0 = good(&w0.cache, &w0.recycler, n);
    let g1 = good(&w1.cache, &w1.recycler, n);
    assert(g1 =~= g0);
    assert(same_on(w0.cache.contents(), w1.cache.contents(), g0.remove(PAGE_ID_NONE)));
    lemma_store_kept(w0.cache.contents(), w1.cache.contents(), g0, g1, w0.roots, PAGE_ID_NONE);
    lemma_same_counts(w0.live@, w0.cache.contents(), w1.cache.contents(), w0.roots, w0.roots);
    assert forall|i: int| 0 <= i < w1.deferred@.len() implies stray(
        &w1.cache,
        &w1.recycler,
        n,
        w1.roots,
        #[trigger] w1.deferred@[i],
    ) && !w1.recycler.footprint(&w1.cache).contains(w1.deferred@[i]) by {
        assert(stray(&w0.cache, &w0.recycler, n, w0.roots, w0.deferred@[i]));
    }
    if accounted(w0) {
        reveal(accounted);
        assert forall|id: u64| #[trigger] kept_by(w1, id) by {
            assert(kept_by(w0, id));
            assert(unused(w1.cache.contents(), w1.roots, id) == unused(w0.cache.contents(), w0.roots, id));
        }
    }
}

impl Workspace {
    /// Write a superblock slot.
    pub fn write_slot(&mut self, slot: u64, page: &[u8; PAGE_SIZE]) -> (outcome: Result<(), ChiselError>)
        requires
            clean(old(self)),
            !old(self).cache.storage().spec_read_only(),
            slot < old(self).slots,
            slot < old(self).cache.disk().len(),
        ensures
            outcome is Ok,
            clean(final(self)),
            final(self).db() == old(self).db(),
            final(self).slots == old(self).slots,
            final(self).roots == old(self).roots,
            final(self).live == old(self).live,
            final(self).recycler == old(self).recycler,
            final(self).deferred == old(self).deferred,
            forall|id: u64| #[trigger]
                final(self).recycler.frees(&final(self).cache, id) == old(self).recycler.frees(&old(self).cache, id),
            accounted(old(self)) ==> accounted(final(self)),
            final(self).cache.same_config(&old(self).cache),
            final(self).cache.watermark() == old(self).cache.watermark(),
            final(self).cache.disk() == old(self).cache.disk().update(slot as int, page@),
            final(self).cache.storage().syncs() == bumped(old(self).cache.storage().syncs()),
            wrote(
                &old(self).cache.storage(),
                &final(self).cache.storage(),
                Map::<u64, Seq<u8>>::empty().insert(slot, page@),
            ),
    {
        let ghost w0 = *self;
        let ghost d0 = self.cache.disk();
        proof {
            self.cache.lemma_inv();
            self.cache.lemma_notions();
        }
        match self.cache.claim_page(slot) {
            Ok(_) => {},
            Err(e) => {
                return Err(e);
            },
        }
        let ghost c1 = self.cache;
        proof {
            self.cache.lemma_inv();
            self.cache.lemma_explains(slot);
        }
        match self.cache.get_mut(slot) {
            Ok(buf) => {
                *buf = *page;
            },
            Err(e) => {
                return Err(e);
            },
        }
        let ghost c2 = self.cache;
        proof {
            assert(c2.unsaved() =~= Set::<u64>::empty().insert(slot));
            assert(c2.contents() =~= w0.cache.contents().insert(slot, page@));
            c2.lemma_notions();
            let by_page = Map::new(|id: u64| c2.present(id), |id: u64| c2.bytes(id));
            assert(by_page.contains_key(slot));
            assert(by_page[slot] == c2.bytes(slot));
        }
        match self.cache.flush() {
            Ok(_) => {},
            Err(e) => {
                return Err(e);
            },
        }
        proof {
            let d1 = self.cache.disk();
            assert(c2.unsaved_pages().contains_key(slot));
            assert(c2.unsaved_pages()[slot] == page@);
            assert(c2.unsaved_pages() =~= Map::<u64, Seq<u8>>::empty().insert(slot, page@));
            assert forall|id: u64| id < d1.len() implies #[trigger] d1[id as int] == (if id == slot {
                page@
            } else {
                d0[id as int]
            }) by {
                assert(c2.unsaved_pages().contains_key(id) == (id == slot));
            }
            assert(d1.len() == d0.len());
            self.cache.lemma_inv();
            assert forall|i: int| 0 <= i < d1.len() implies d1[i] == d0.update(slot as int, page@)[i] by {
                assert(d1[(i as u64) as int] == (if i as u64 == slot {
                    page@
                } else {
                    d0[(i as u64) as int]
                }));
            }
            assert(d1 =~= d0.update(slot as int, page@));
            lemma_slot_written(&w0, self, slot);
        }
        Ok(())
    }
}

/// What makes a state the one that the storage describes: its pages are saved, and
/// the slot of the counter holds its superblock.
pub open spec fn published(w0: &Workspace, w1: &Workspace, counter: u64) -> bool {
    let slot = slot_for(counter, w0.slots);
    &&& clean(w1)
    &&& w1.db() == w0.db()
    &&& w1.slots == w0.slots
    &&& w1.roots == w0.roots
    &&& w1.live == w0.live
    &&& w0.slots <= w1.cache.disk().len()
    &&& checksum_ok(w1.cache.disk()[slot])
    &&& encodes(w1.cache.disk()[slot], superblock_of(w1, counter, FORMAT_VERSION))
    &&& forall|j: int| 0 <= j < w0.slots && j != slot ==> #[trigger] w1.cache.disk()[j] == w0.cache.disk()[j]
    &&& exists|m: int| #[trigger] saved_in_order(w0, w1, slot as u64, m)
}

impl Workspace {
    /// Save the state, and describe it in the superblock slot of the counter.
    pub fn publish(&mut self, counter: u64, held: usize) -> (outcome: Result<(), ChiselError>)
        requires
            old(self).inv(),
            held_apart(old(self).deferred@, held as int),
            count_ok(old(self).slots as int),
            !old(self).cache.storage().spec_read_only(),
            filled(&old(self).cache),
            old(self).slots <= old(self).cache.disk().len(),
            old(self).cache.watermark() + persist_pages(old(self)) <= usize::MAX,
            forall|j: u64| j < old(self).slots ==> !(#[trigger] old(self).cache.unsaved().contains(j)),
        ensures
            match outcome {
                Ok(_) => {
                    &&& published(old(self), final(self), counter)
                    &&& accounted(old(self)) ==> accounted(final(self))
                    &&& final(self).cache.same_config(&old(self).cache)
                    &&& forall|id: u64| #[trigger]
                        final(self).recycler.frees(&final(self).cache, id) == (old(self).recycler.frees(
                            &old(self).cache,
                            id,
                        ) || to_free(old(self), held as int).contains(id))
                    &&& held_apart(final(self).deferred@, held as int)
                    &&& final(self).cache.storage().syncs() == bumped(
                        bumped(bumped(old(self).cache.storage().syncs())),
                    )
                },
                Err(e) => {
                    &&& save_load(old(self)) > old(self).cache.capacity()
                    &&& e == old(self).cache.pressure_error()
                    &&& final(self).cache.pending() > final(self).cache.capacity()
                },
            },
    {
        let ghost w0 = *self;
        match self.persist(held) {
            Ok(_) => {},
            Err(e) => {
                return Err(e);
            },
        }
        let ghost w1 = *self;
        let sb = Superblock {
            magic: MAGIC,
            format_version: FORMAT_VERSION,
            txn_counter: counter,
            root_handle_table_page: self.roots.table_root,
            root_freemap_page: self.recycler.saved_root,
            freemap_depth: self.recycler.saved_depth,
            root_membership_index_page: self.roots.index_root,
            total_pages: self.cache.next_page_id(),
            next_handle: self.roots.next_handle,
            page_size: PAGE_SIZE as u32,
            superblock_count: self.slots,
            named_roots: self.roots.names,
        };
        let page = sb.serialize();
        let slot: u64 = counter % (self.slots as u64);
        proof {
            assert forall|j: int| 0 <= j < w0.slots implies #[trigger] w1.cache.disk()[j] == w0.cache.disk()[j] by {
                let id = j as u64;
                assert(!w0.cache.unsaved().contains(id));
                assert(w1.cache.disk()[id as int] == w0.cache.disk()[id as int]);
            }
        }
        match self.write_slot(slot, &page) {
            Ok(_) => {},
            Err(e) => {
                return Err(e);
            },
        }
        proof {
            assert(self.cache.disk()[slot as int] == page@);
            lemma_saved_in_order(&w0, &w1, self, slot);
            assert(slot_for(counter, w0.slots) as u64 == slot);
            assert(sb == superblock_of(self, counter, FORMAT_VERSION));
        }
        Ok(())
    }
}

} // verus!
