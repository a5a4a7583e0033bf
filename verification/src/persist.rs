//! Recording free pages when a transaction commits.

use vstd::prelude::*;

use rustc_hash::FxHashSet;

use crate::error::ChiselError;
use crate::forest::{lemma_nodes, nodes_of};
use crate::freemap_tree::{
    bit_set, map_kept, owned_ok, superseded_ok, tidy, tree_typed, FreeMapTree, LEAF_CAPACITY, MAX_DEPTH,
};
use crate::fx::{set_contains, set_insert, set_new};
use crate::page::PAGE_ID_NONE;
use crate::page_cache::PageCache;
use crate::page_source::{agree_on, cow_step, grown_by, overrun, taken, Extend, PageSource};
use crate::radix::{node_at, tree_in};
use crate::recycler::{lemma_no_fault, sound_pages};

verus! {

/// The pages of a freemap; none if there is no freemap.
pub open spec fn map_nodes(c: &PageCache, t: &FreeMapTree) -> Set<u64> {
    if t.root == PAGE_ID_NONE {
        Set::<u64>::empty()
    } else {
        nodes_of(c.contents(), LEAF_CAPACITY as nat, t.root, t.spec_depth())
    }
}

/// A freemap says that a page is free.
pub open spec fn map_frees(c: &PageCache, t: &FreeMapTree, id: u64) -> bool {
    t.root != PAGE_ID_NONE && t.marks_free(c, id)
}

/// A freemap can be used and changed.
pub open spec fn map_sound(c: &PageCache, t: &FreeMapTree) -> bool {
    t.root != PAGE_ID_NONE ==> {
        &&& t.depth <= MAX_DEPTH
        &&& t.ready(&Extend, c)
        &&& tree_typed(c.contents(), t.root, t.spec_depth())
        &&& tree_in(c.contents(), LEAF_CAPACITY as nat, t.root, t.spec_depth(), sound_pages(c))
    }
}

/// How many pages marking a page free takes at most.
pub open spec fn mark_pages() -> nat {
    ((2 * MAX_DEPTH + 1) * Extend::growth()) as nat
}

/// How many pages marking `n` pages free takes at most.
pub open spec fn marks_pages(n: nat) -> nat {
    1 + n * mark_pages()
}

/// One more page takes that many more.
proof fn lemma_marks_pages(i: nat, n: nat)
    requires
        i < n,
    ensures
        marks_pages(i + 1) == marks_pages(i) + mark_pages(),
        marks_pages(i + 1) <= marks_pages(n),
{
    assert((i + 1) * mark_pages() == i * mark_pages() + mark_pages()) by (nonlinear_arith);
    assert((i + 1) * mark_pages() <= n * mark_pages()) by (nonlinear_arith)
        requires
            i + 1 <= n,
    ;
}

/// More pages take more.
pub proof fn lemma_marks_mono(i: nat, n: nat)
    requires
        i <= n,
    ensures
        marks_pages(i) <= marks_pages(n),
{
    assert(i * mark_pages() <= n * mark_pages()) by (nonlinear_arith)
        requires
            i <= n,
    ;
}

/// The pages that a freemap may change in place.
pub open spec fn map_owned(t: &FreeMapTree) -> Set<u64> {
    if t.root == PAGE_ID_NONE {
        Set::<u64>::empty()
    } else {
        t.session_owned@
    }
}

/// The freemap was changed by adding pages and by changing its own, and says of
/// further pages that they are free. Every page added is one of its own, and every
/// page that it no longer has is superseded.
pub open spec fn marked(
    c0: &PageCache,
    t0: &FreeMapTree,
    c1: &PageCache,
    t1: &FreeMapTree,
    ids: Seq<u64>,
    m: nat,
) -> bool {
    &&& c1.inv()
    &&& c1.bounded()
    &&& c1.watermark() > 0
    &&& grown_by(c0, c1, m)
    &&& forall|id: u64|
        id < c0.watermark() ==> {
            &&& #[trigger] c1.contents().contains_key(id) == c0.contents().contains_key(id)
            &&& c0.contents().contains_key(id) && !map_owned(t0).contains(id) ==> c1.contents()[id]
                == c0.contents()[id]
        }
    &&& forall|id: u64| #[trigger] c1.unsaved().contains(id) ==> id >= c0.watermark() || c0.unsaved().contains(id)
    &&& map_sound(c1, t1)
    &&& forall|id: u64| #[trigger] map_owned(t1).contains(id) ==> id >= c0.watermark() || map_owned(t0).contains(id)
    &&& forall|id: u64| #[trigger]
        map_nodes(c1, t1).contains(id) ==> map_nodes(c0, t0).contains(id) || map_owned(t1).contains(id)
    &&& forall|id: u64| #[trigger] map_frees(c1, t1, id) == (map_frees(c0, t0, id) || ids.contains(id))
    &&& t0.pending_superseded@.is_prefix_of(t1.pending_superseded@)
    &&& forall|i: int|
        t0.pending_superseded@.len() <= i < t1.pending_superseded@.len() ==> {
            &&& map_nodes(c0, t0).contains(#[trigger] t1.pending_superseded@[i])
            &&& !map_nodes(c1, t1).contains(t1.pending_superseded@[i])
        }
    &&& forall|id: u64|
        c0.watermark() <= id < c1.watermark() ==> #[trigger] map_nodes(c1, t1).contains(id)
    &&& forall|id: u64| #[trigger]
        map_nodes(c0, t0).contains(id) ==> map_nodes(c1, t1).contains(id) || t1.pending_superseded@.contains(id)
}

/// A freemap that was just made.
proof fn lemma_map_created(c0: &PageCache, t0: &FreeMapTree, c1: &PageCache, t1: &FreeMapTree)
    requires
        c0.inv(),
        c0.bounded(),
        c0.watermark() > 0,
        t0.root == PAGE_ID_NONE,
        cow_step(&Extend, c0, &Extend, c1, 1),
        taken(&Extend, c0, &Extend, c1, t1.root),
        t1.depth == 0,
        t1.pending_superseded@ == t0.pending_superseded@,
        t1.session_owned@ == Set::<u64>::empty().insert(t1.root),
        t1.ready(&Extend, c1),
        tree_typed(c1.contents(), t1.root, 0),
        forall|k: u64| !(#[trigger] t1.marks_free(c1, k)),
    ensures
        marked(c0, t0, c1, t1, Seq::<u64>::empty(), 1),
{
    reveal(agree_on);
    let c = LEAF_CAPACITY as nat;
    assert forall|id: u64| id < c0.watermark() implies {
        &&& #[trigger] c1.contents().contains_key(id) == c0.contents().contains_key(id)
        &&& c0.contents().contains_key(id) ==> c1.contents()[id] == c0.contents()[id]
    } by {
        assert(Extend.footprint(c0).complement().contains(id));
    }
    assert forall|id: u64| #[trigger] c1.unsaved().contains(id) implies id >= c0.watermark() || c0.unsaved().contains(
        id,
    ) by {
        if id < c0.watermark() {
            assert(Extend.footprint(c0).complement().contains(id));
        }
    }
    assert forall|k: nat, l: nat| l <= 0 implies #[trigger] node_at(c1.contents(), c, t1.root, 0, k, l) == Some(
        t1.root,
    ) by {}
    lemma_nodes(c1.contents(), c, t1.root, 0);
    assert(sound_pages(c1).contains(t1.root));
    crate::radix::lemma_reach_pos(c, 0);
    assert(node_at(c1.contents(), c, t1.root, 0, 0, 0) == Some(t1.root));
    assert forall|id: u64| c0.watermark() <= id < c1.watermark() implies #[trigger] map_nodes(c1, t1).contains(id) by {
        assert(id == t1.root);
    }
}

/// One more page is marked free.
proof fn lemma_marked_one(
    c0: &PageCache,
    t0: &FreeMapTree,
    c1: &PageCache,
    t1: &FreeMapTree,
    c2: &PageCache,
    t2: &FreeMapTree,
    ids: Seq<u64>,
    id: u64,
    m: nat,
)
    requires
        c0.inv(),
        c0.bounded(),
        marked(c0, t0, c1, t1, ids, m),
        map_sound(c0, t0),
        t1.root != PAGE_ID_NONE,
        map_kept(t1, &Extend, c1, t2, &Extend, c2, mark_pages()),
        bit_set(t1, c1, t2, c2, id, true),
        superseded_ok(
            c1.contents(),
            t1.root,
            t1.spec_depth(),
            t1.session_owned@,
            c2.contents(),
            t2.root,
            t2.spec_depth(),
            t1.pending_superseded@,
            t2.pending_superseded@,
        ),
        tidy(t1, &Extend, c1, t2, &Extend, c2),
        forall|x: u64| #[trigger] map_nodes(c0, t0).contains(x) ==> x < c0.watermark(),
    ensures
        marked(c0, t0, c2, t2, ids.push(id), m + mark_pages()),
        t2.root != PAGE_ID_NONE,
{
    reveal(agree_on);
    let c = LEAF_CAPACITY as nat;
    let away = Extend.footprint(c1).union(t1.session_owned@).complement();
    assert forall|x: u64| x < c0.watermark() implies {
        &&& #[trigger] c2.contents().contains_key(x) == c0.contents().contains_key(x)
        &&& c0.contents().contains_key(x) && !map_owned(t0).contains(x) ==> c2.contents()[x] == c0.contents()[x]
    } by {
        assert(c1.contents().contains_key(x) == c0.contents().contains_key(x));
        if map_owned(t1).contains(x) {
            assert(t2.session_owned@.contains(x));
        } else {
            assert(away.contains(x));
        }
    }
    assert forall|x: u64| #[trigger] c2.unsaved().contains(x) implies x >= c0.watermark() || c0.unsaved().contains(x) by {
        if x < c0.watermark() {
            if map_owned(t1).contains(x) {
                assert(map_owned(t0).contains(x));
                assert(owned_ok(&Extend, c0, t0.session_owned@));
            } else {
                assert(away.contains(x));
            }
        }
    }
    assert forall|x: u64| t2.session_owned@.contains(x) implies x >= c0.watermark() || #[trigger] map_owned(
        t0,
    ).contains(x) by {
        if !map_owned(t1).contains(x) {
            assert(taken(&Extend, c1, &Extend, c2, x));
        }
    }
    lemma_nodes(c1.contents(), c, t1.root, t1.spec_depth());
    let nodes1 = map_nodes(c1, t1);
    assert(nodes1.disjoint(Extend.footprint(c1))) by {
        assert(tree_in(c1.contents(), c, t1.root, t1.spec_depth(), Extend.footprint(c1).complement()));
    }
    let grown = nodes1.union(t2.session_owned@.difference(t1.session_owned@));
    assert(tree_in(c2.contents(), c, t2.root, t2.spec_depth(), grown));
    assert(t2.root != PAGE_ID_NONE) by {
        assert(node_at(c2.contents(), c, t2.root, t2.spec_depth(), 0, t2.spec_depth()) == Some(t2.root));
        crate::radix::lemma_reach_pos(c, t2.spec_depth());
        assert(grown.contains(t2.root));
    }
    lemma_nodes(c2.contents(), c, t2.root, t2.spec_depth());
    assert forall|x: u64| #[trigger] map_nodes(c2, t2).contains(x) implies map_nodes(c0, t0).contains(x)
        || map_owned(t2).contains(x) by {
        assert(grown.contains(x));
        if nodes1.contains(x) {
            assert(map_nodes(c0, t0).contains(x) || map_owned(t1).contains(x));
        }
    }
    assert forall|x: u64| #[trigger] map_frees(c2, t2, x) == (map_frees(c0, t0, x) || ids.push(id).contains(x)) by {
        assert(map_frees(c1, t1, x) == (map_frees(c0, t0, x) || ids.contains(x)));
        assert(t2.marks_free(c2, x) == (if x == id {
            true
        } else {
            t1.marks_free(c1, x)
        }));
        assert(ids.push(id)[ids.len() as int] == id);
        if ids.contains(x) {
            let i = choose|i: int| 0 <= i < ids.len() && ids[i] == x;
            assert(ids.push(id)[i] == x);
        }
    }
    assert(tree_in(c2.contents(), c, t2.root, t2.spec_depth(), sound_pages(c2))) by {
        assert forall|x: u64| #[trigger] grown.contains(x) implies sound_pages(c2).contains(x) by {
            if !t2.session_owned@.contains(x) {
                assert(sound_pages(c1).contains(x));
                assert(away.contains(x));
            }
        }
        crate::spine::lemma_tree_mono(c2.contents(), c, t2.root, t2.spec_depth(), grown, sound_pages(c2));
    }
    assert forall|i: int| t0.pending_superseded@.len() <= i < t2.pending_superseded@.len() implies {
        &&& map_nodes(c0, t0).contains(#[trigger] t2.pending_superseded@[i])
        &&& !map_nodes(c2, t2).contains(t2.pending_superseded@[i])
    } by {
        let x = t2.pending_superseded@[i];
        if i < t1.pending_superseded@.len() {
            assert(x == t1.pending_superseded@[i]);
            assert(!nodes1.contains(x));
            assert(x < c0.watermark());
            if map_nodes(c2, t2).contains(x) {
                assert(grown.contains(x));
                assert(t2.session_owned@.contains(x));
                assert(taken(&Extend, c1, &Extend, c2, x));
            }
        } else {
            assert(nodes1.contains(x));
            assert(!t1.session_owned@.contains(x));
            assert(map_nodes(c2, t2).contains(x) ==> Set::<u64>::full().remove(x).contains(x));
        }
    }
    let pend1 = t1.pending_superseded@;
    let pend2 = t2.pending_superseded@;
    let tail = pend2.skip(pend1.len() as int);
    assert forall|x: u64| #[trigger] tail.contains(x) implies pend2.contains(x) && !t1.session_owned@.contains(x) by {
        let i = tail.index_of(x);
        assert(pend2[pend1.len() + i] == x);
    }
    assert forall|x: u64| c0.watermark() <= x < c2.watermark() implies #[trigger] map_nodes(c2, t2).contains(x) by {
        if x < c1.watermark() {
            assert(nodes1.contains(x));
            assert(map_owned(t1).contains(x));
        } else {
            assert(Extend.footprint(c1).contains(x));
            assert(!Extend.footprint(c2).contains(x));
            assert(t2.session_owned@.contains(x));
            if t1.session_owned@.contains(x) {
                assert(owned_ok(&Extend, c1, t1.session_owned@));
            }
        }
    }
    assert forall|x: u64| #[trigger] map_nodes(c0, t0).contains(x) implies map_nodes(c2, t2).contains(x)
        || pend2.contains(x) by {
        if pend1.contains(x) {
            let i = pend1.index_of(x);
            assert(pend2[i] == x);
        } else {
            assert(nodes1.contains(x));
        }
    }
}

/// Nothing was marked yet.
proof fn lemma_marked_none(c: &PageCache, t: &FreeMapTree)
    requires
        c.inv(),
        c.bounded(),
        c.watermark() > 0,
        map_sound(c, t),
    ensures
        marked(c, t, c, t, Seq::<u64>::empty(), 0),
{
}

/// Take pages that were just saved back into work, so that they can be changed in
/// place: those from `start` on that were made in the session.
pub fn retake(cache: &mut PageCache, owned: &FxHashSet<u64>, start: u64) -> (kept: FxHashSet<u64>)
    requires
        old(cache).inv(),
        old(cache).bounded(),
        old(cache).unsaved() == Set::<u64>::empty(),
        old(cache).pending() == 0,
    ensures
        final(cache).inv(),
        final(cache).bounded(),
        final(cache).same_config(old(cache)),
        final(cache).disk() == old(cache).disk(),
        final(cache).storage() == old(cache).storage(),
        final(cache).watermark() == old(cache).watermark(),
        final(cache).contents() == old(cache).contents(),
        final(cache).unsaved() == kept@,
        kept@.finite(),
        final(cache).pending() == kept@.len(),
        kept@.subset_of(owned@),
        forall|id: u64| #[trigger]
            kept@.contains(id) ==> start <= id < old(cache).watermark() && old(cache).contents().contains_key(id),
{
    let ghost c0 = *cache;
    let mut kept: FxHashSet<u64> = set_new();
    let top: u64 = cache.next_page_id();
    let mut id: u64 = start;
    while id < top
        invariant
            c0 == *old(cache),
            start <= id,
            top == c0.watermark(),
            cache.inv(),
            cache.bounded(),
            cache.same_config(&c0),
            cache.disk() == c0.disk(),
            cache.storage() == c0.storage(),
            cache.watermark() == c0.watermark(),
            cache.contents() == c0.contents(),
            cache.unsaved() == kept@,
            kept@.finite(),
            cache.pending() == kept@.len(),
            kept@.subset_of(owned@),
            forall|x: u64| #[trigger] kept@.contains(x) ==> start <= x < id && c0.contents().contains_key(x),
        decreases top - id,
    {
        if set_contains(owned, id) {
            let ghost c1 = *cache;
            match cache.get_mut(id) {
                Ok(_) => {
                    set_insert(&mut kept, id);
                },
                Err(_) => {},
            }
            proof {
                assert(cache.contents() =~= c1.contents());
            }
        }
        id += 1;
    }
    kept
}

/// Record that pages are free. Makes a freemap if there is none.
pub fn mark_all(cache: &mut PageCache, tree: &mut FreeMapTree, ids: &Vec<u64>) -> (outcome: Result<(), ChiselError>)
    requires
        old(cache).inv(),
        old(cache).bounded(),
        old(cache).watermark() > 0,
        map_sound(old(cache), old(tree)),
        old(cache).watermark() + marks_pages(ids@.len()) <= usize::MAX,
        forall|x: u64| #[trigger] map_nodes(old(cache), old(tree)).contains(x) ==> x < old(cache).watermark(),
    ensures
        final(cache).inv(),
        final(cache).bounded(),
        match outcome {
            Ok(_) => marked(
                old(cache),
                old(tree),
                final(cache),
                final(tree),
                ids@,
                marks_pages(ids@.len()),
            ),
            Err(e) => overrun(old(cache), final(cache), e, marks_pages(ids@.len())),
        },
{
    let ghost c0 = *cache;
    let ghost t0 = *tree;
    proof {
        lemma_marked_none(&c0, &t0);
    }
    if ids.len() == 0 {
        assert(ids@ =~= Seq::<u64>::empty());
        return Ok(());
    }
    let mut extend = Extend;
    if tree.root == PAGE_ID_NONE {
        let made = FreeMapTree::create(cache, &mut extend);
        match made {
            Ok(made) => {
                proof {
                    crate::page_source::lemma_taken_id(&Extend, &c0, &Extend, cache, made.root);
                }
                tree.root = made.root;
                tree.depth = 0;
                tree.session_owned = made.session_owned;
                proof {
                    lemma_map_created(&c0, &t0, cache, tree);
                }
            },
            Err(e) => {
                return Err(e);
            },
        }
    }
    assert(ids@.take(0) =~= Seq::<u64>::empty());
    let mut i: usize = 0;
    while i < ids.len()
        invariant
            i <= ids@.len(),
            c0 == *old(cache),
            t0 == *old(tree),
            c0.inv(),
            c0.bounded(),
            map_sound(&c0, &t0),
            tree.root != PAGE_ID_NONE,
            marked(&c0, &t0, cache, tree, ids@.take(i as int), marks_pages(i as nat)),
            c0.watermark() + marks_pages(ids@.len()) <= usize::MAX,
            forall|x: u64| #[trigger] map_nodes(&c0, &t0).contains(x) ==> x < c0.watermark(),
        decreases ids@.len() - i,
    {
        let ghost c1 = *cache;
        let ghost t1 = *tree;
        proof {
            lemma_marks_pages(i as nat, ids@.len());
        }
        match tree.mark_free_growing(cache, ids[i], &mut extend) {
            Ok(_) => {},
            Err(e) => {
                proof {
                    lemma_no_fault(&c1, t1.root, t1.spec_depth(), e);
                }
                return Err(e);
            },
        }
        proof {
            lemma_marked_one(
                &c0,
                &t0,
                &c1,
                &t1,
                cache,
                tree,
                ids@.take(i as int),
                ids@[i as int],
                marks_pages(i as nat),
            );
            assert(ids@.take(i + 1) =~= ids@.take(i as int).push(ids@[i as int]));
        }
        i += 1;
    }
    assert(ids@.take(i as int) =~= ids@);
    Ok(())
}

} // verus!
