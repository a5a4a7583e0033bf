//! Entering handles in the index of tags, and taking them out.

use vstd::prelude::*;

use crate::error::ChiselError;
use crate::forest::lemma_forest_mono;
use crate::membership_index::{
    enter_pages, in_index, index_clean, index_freed, index_in, index_insert_pages, index_kept, index_page,
    index_remove_pages, index_roots, inner_present, is_member, lemma_enter_pages, members_updated, tag_value,
    INNER_ROOT_MASK, MembershipIndex,
};
use crate::entries::{good_same, lemma_good_same, old_nodes_only};
use crate::page::PAGE_ID_NONE;
use crate::page_source::{cow_step, lemma_cow_more, overrun, taken, PageSource};
use crate::pool::{good, lemma_pool_cow, stray};
use crate::radix_u64::{radix_head, SLOTS_PER_PAGE};
use crate::recycler::Recycler;
use crate::spine::{taken_pages, tree_headed};
use crate::store::{
    data_only, entry_of, index_has, index_nodes, lemma_index_nodes, lemma_index_set, lemma_used_good, sound_store,
    table_nodes, unused,
};
use crate::workspace::{
    evolved, kept_by, lemma_evolved_cow, lemma_evolved_state, lemma_good_reads, lemma_index_reads, lemma_loses_only,
    lemma_not_noted, loses_none, none_noted, Workspace,
};

verus! {

/// The index says of one handle whether it carries a tag.
pub open spec fn tag_set(w0: &Workspace, w1: &Workspace, tag: u32, h: u64, now: bool) -> bool {
    let p0 = w0.cache.contents();
    let p1 = w1.cache.contents();
    &&& w1.usable()
    &&& w1.holds(w1.roots, w1.freed@, w1.cursor)
    &&& w1.cursor == w0.cursor
    &&& w1.live == w0.live
    &&& w1.bins == w0.bins
    &&& w1.roots.names == w0.roots.names
    &&& w1.roots.next_handle == w0.roots.next_handle
    &&& forall|k: u64| #[trigger] entry_of(p1, w1.roots, k) == entry_of(p0, w0.roots, k)
    &&& forall|t: u32, k: u64| #[trigger]
        index_has(p1, w1.roots, t, k) == (if t == tag && k == h {
            now
        } else {
            index_has(p0, w0.roots, t, k)
        })
    &&& w1.db() == w0.db()
    &&& old_nodes_only(w0, w1)
    &&& still_tagged(w1, tag) ==> loses_none(w0, w1)
    &&& good_same(w0, w1)
}

/// Some handle carries the tag.
pub open spec fn still_tagged(w: &Workspace, tag: u32) -> bool {
    exists|h: u64| #[trigger] index_has(w.cache.contents(), w.roots, tag, h)
}

/// A change of the index loses no page while the tag has members.
#[verifier::spinoff_prover]
proof fn lemma_tag_loses(w0: &Workspace, w1: &Workspace, m: nat, tag: u32)
    requires
        w0.holds(w0.roots, w0.freed@, w0.cursor),
        evolved(w0, w1, m),
        w1.roots.table_root == w0.roots.table_root,
        w1.roots.table_depth == w0.roots.table_depth,
        index_freed(
            &w0.recycler,
            &w0.cache,
            &w1.recycler,
            &w1.cache,
            w0.roots.index_root,
            w0.roots.index_depth as nat,
            w1.roots.index_root,
            w1.roots.index_depth as nat,
            tag,
            w0.freed@,
            w1.freed@,
        ),
    ensures
        still_tagged(w1, tag) ==> loses_none(w0, w1),
{
    reveal(index_freed);
    let p0 = w0.cache.contents();
    let p1 = w1.cache.contents();
    let r0 = w0.roots;
    let r1 = w1.roots;
    let d0 = r0.index_depth as nat;
    let d1 = r1.index_depth as nat;
    let nodes0 = index_nodes(p0, r0);
    let nodes1 = index_nodes(p1, r1);
    lemma_evolved_state(w0, w1, m, r0, w0.live@, w0.freed@, w0.cursor);
    if still_tagged(w1, tag) {
        let k = choose|k: u64| #[trigger] index_has(p1, r1, tag, k);
        assert(is_member(p1, r1.index_root, d1, tag, k));
        assert(inner_present(tag_value(p1, r1.index_root, d1, tag)));
        let tail = w1.freed@.skip(w0.freed@.len() as int);
        assert forall|id: u64| #[trigger] tail.contains(id) implies w1.freed@.contains(id) by {
            let i = tail.index_of(id);
            assert(w1.freed@[w0.freed@.len() + i] == id);
        }
        assert forall|id: u64| #[trigger] in_index(p1, r1.index_root, d1, id) implies nodes1.contains(id) by {}
        assert forall|id: u64| #[trigger] nodes0.contains(id) implies kept_by(w1, id) by {
            let i = choose|i: Option<u32>| #[trigger] index_page(p0, r0.index_root, d0, i, id);
            assert(index_page(p0, r0.index_root, d0, i, id));
            assert(in_index(p1, r1.index_root, d1, id) || tail.contains(id));
        }
        assert(table_nodes(p1, r1) == table_nodes(p0, r0)) by {
            assert(table_nodes(p1, r0) == table_nodes(p0, r0));
            assert(table_nodes(p1, r1) =~= table_nodes(p1, r0));
        }
        assert forall|k: u64| entry_of(p1, r1, k) == #[trigger] entry_of(p0, r0, k) by {
            assert(entry_of(p1, r0, k) == entry_of(p0, r0, k));
        }
        assert forall|id: u64| #[trigger] w0.recycler.footprint(&w0.cache).contains(id) implies kept_by(w1, id) by {
            assert(w1.recycler.footprint(&w1.cache).contains(id) || in_index(p1, r1.index_root, d1, id)
                || tail.contains(id));
        }
        lemma_loses_only(w0, w1, m, Set::<u64>::empty());
    }
}

/// What a change of the index by copying its paths amounts to.
#[verifier::rlimit(50)]
#[verifier::spinoff_prover]
proof fn lemma_tag_set(w0: &Workspace, w1: &Workspace, m: nat, tag: u32, h: u64, now: bool)
    requires
        w0.usable(),
        w0.holds(w0.roots, w0.freed@, w0.cursor),
        cow_step(&w0.recycler, &w0.cache, &w1.recycler, &w1.cache, m),
        w1.slots == w0.slots,
        w1.deferred == w0.deferred,
        w1.cursor == w0.cursor,
        w1.live == w0.live,
        w1.bins == w0.bins,
        w1.roots.names == w0.roots.names,
        w1.roots.table_root == w0.roots.table_root,
        w1.roots.table_depth == w0.roots.table_depth,
        w1.roots.next_handle == w0.roots.next_handle,
        w1.roots.index_root != PAGE_ID_NONE,
        w1.roots.index_root != 0,
        w1.roots.index_depth <= 6,
        members_updated(
            w0.cache.contents(),
            w0.roots.index_root,
            w0.roots.index_depth as nat,
            w1.cache.contents(),
            w1.roots.index_root,
            w1.roots.index_depth as nat,
            tag,
            h,
            now,
        ),
        index_clean(w1.cache.contents(), w1.roots.index_root, w1.roots.index_depth as nat),
        index_kept(
            &w0.recycler,
            &w0.cache,
            &w1.recycler,
            &w1.cache,
            w0.roots.index_root,
            w0.roots.index_depth as nat,
            w1.roots.index_root,
            w1.roots.index_depth as nat,
        ),
        index_freed(
            &w0.recycler,
            &w0.cache,
            &w1.recycler,
            &w1.cache,
            w0.roots.index_root,
            w0.roots.index_depth as nat,
            w1.roots.index_root,
            w1.roots.index_depth as nat,
            tag,
            w0.freed@,
            w1.freed@,
        ),
        tree_headed(
            w1.cache.contents(),
            SLOTS_PER_PAGE as nat,
            w1.roots.index_root,
            w1.roots.index_depth as nat,
            radix_head(),
        ),
    ensures
        evolved(w0, w1, m),
        tag_set(w0, w1, tag, h, now),
{
    reveal(index_kept);
    reveal(index_freed);
    let p0 = w0.cache.contents();
    let p1 = w1.cache.contents();
    let r0 = w0.roots;
    let r1 = w1.roots;
    let d0 = r0.index_depth as nat;
    let d1 = r1.index_depth as nat;
    let n = w0.slots;
    let g0 = good(&w0.cache, &w0.recycler, n);
    let g1 = good(&w1.cache, &w1.recycler, n);
    lemma_evolved_cow(w0, w1, m);
    lemma_evolved_state(w0, w1, m, r0, w0.live@, w0.freed@, w0.cursor);
    lemma_pool_cow(&w0.recycler, &w0.cache, &w1.recycler, &w1.cache, m, n);
    lemma_used_good(p0, g0, r0);
    lemma_index_nodes(p0, r0);
    lemma_index_nodes(p1, r1);
    let taken_set = taken_pages(&w0.recycler, &w0.cache, &w1.recycler, &w1.cache);
    let nodes0 = index_nodes(p0, r0);
    let nodes1 = index_nodes(p1, r1);
    let fresh = taken_set.intersect(nodes1);
    assert(index_in(p1, r1.index_root, d1, nodes0.union(taken_set)));
    assert(nodes1.subset_of(nodes0.union(fresh)));
    lemma_forest_mono(p1, SLOTS_PER_PAGE as nat, index_roots(p1, r1.index_root, d1), nodes1, nodes0.union(fresh));
    assert(sound_store(p0, g0, r0) ==> crate::membership_index::index_ok(p0, r0.index_root, d0)) by {
        reveal(sound_store);
    }
    lemma_index_set(p0, p1, g0, g1, r0, r1, fresh);
    assert forall|i: int| 0 <= i < w1.freed@.len() implies stray(&w1.cache, &w1.recycler, n, r1, #[trigger] w1.freed@[i])
        && w1.cursor != Some(w1.freed@[i]) by {
        let id = w1.freed@[i];
        if i < w0.freed@.len() {
            assert(id == w0.freed@[i]);
            assert(stray(&w0.cache, &w0.recycler, n, r0, id));
            assert(unused(p0, r0, id));
        } else {
            assert(!nodes1.contains(id)) by {
                assert(index_in(p1, r1.index_root, d1, Set::<u64>::full().remove(id)));
            }
            if nodes0.contains(id) {
                assert(g0.contains(id));
                if w0.cursor == Some(id) {
                    assert(data_only(p0, r0, id));
                }
            } else {
                assert(!index_page(p0, r0.index_root, d0, None, id));
                assert(!index_page(p0, r0.index_root, d0, Some(tag), id));
                assert(taken(&w0.recycler, &w0.cache, &w1.recycler, &w1.cache, id));
                assert(unused(p0, r0, id));
                if w0.cursor == Some(id) {
                    assert(w0.bins@.contains(id));
                }
            }
        }
    }
    reveal(none_noted);
    assert forall|i: int| 0 <= i < w1.freed@.len() implies !w1.deferred@.contains(#[trigger] w1.freed@[i]) by {
        if i < w0.freed@.len() {
            assert(w1.freed@[i] == w0.freed@[i]);
        } else {
            assert(nodes0.contains(w1.freed@[i]) || taken(
                &w0.recycler,
                &w0.cache,
                &w1.recycler,
                &w1.cache,
                w1.freed@[i],
            ));
            lemma_not_noted(w0, w0.freed@, w1.freed@[i]);
        }
    }
    assert forall|i: int| 0 <= i < w1.deferred@.len() implies stray(
        &w1.cache,
        &w1.recycler,
        n,
        r1,
        #[trigger] w1.deferred@[i],
    ) by {
        assert(stray(&w0.cache, &w0.recycler, n, r0, w0.deferred@[i]));
        assert(unused(p0, r0, w1.deferred@[i]));
    }
    assert forall|q: u64| #[trigger] w1.bins@.contains(q) implies data_only(p1, r1, q) by {
        assert(data_only(p0, r0, q));
        assert(g0.contains(q));
    }
    assert forall|t: u32, k: u64| #[trigger]
        index_has(p1, w1.roots, t, k) == (if t == tag && k == h {
            now
        } else {
            index_has(p0, w0.roots, t, k)
        }) by {
        assert(is_member(p1, r1.index_root, d1, t, k) == (if t == tag && k == h {
            now
        } else {
            is_member(p0, r0.index_root, d0, t, k)
        }));
    }
    lemma_tag_loses(w0, w1, m, tag);
    lemma_good_same(w0, w1, m);
}

impl Workspace {
    /// The index as its depth says.
    pub fn index(&self) -> (index: MembershipIndex)
        ensures
            index.spec_depth() == self.roots.index_depth,
    {
        let mut index = MembershipIndex::new();
        index.set_outer_depth(self.roots.index_depth);
        index
    }

    /// Enter a handle under a tag.
    pub fn enter_tag(&mut self, tag: u32, handle: u64) -> (outcome: Result<(), ChiselError>)
        requires
            old(self).usable(),
            old(self).holds(old(self).roots, old(self).freed@, old(self).cursor),
            old(self).cache.watermark() + index_insert_pages(Recycler::growth()) <= usize::MAX,
            old(self).cache.watermark() + index_insert_pages(Recycler::growth()) <= INNER_ROOT_MASK,
        ensures
            evolved(old(self), final(self), index_insert_pages(Recycler::growth())),
            match outcome {
                Ok(_) => tag_set(old(self), final(self), tag, handle, true),
                Err(e) => overrun(&old(self).cache, &final(self).cache, e, index_insert_pages(Recycler::growth())),
            },
            outcome is Err ==> final(self).roots == old(self).roots,
            outcome is Err ==> final(self).cursor == old(self).cursor,
            outcome is Err ==> final(self).live == old(self).live,
    {
        let ghost w0 = *self;
        let ghost g0 = good(&w0.cache, &w0.recycler, w0.slots);
        let ghost m = index_insert_pages(Recycler::growth());
        proof {
            reveal(sound_store);
            lemma_forest_mono(
                w0.cache.contents(),
                SLOTS_PER_PAGE as nat,
                index_roots(w0.cache.contents(), w0.roots.index_root, w0.roots.index_depth as nat),
                g0,
                w0.recycler.footprint(&w0.cache).complement(),
            );
            lemma_good_reads(&w0);
        }
        let mut index = self.index();
        let root: u64 = self.roots.index_root;
        let inserted = index.insert(&mut self.cache, root, tag, handle, &mut self.recycler, &mut self.freed);
        proof {
            let p0 = w0.cache.contents();
            let d = w0.roots.index_depth as nat;
            let used = enter_pages(p0, root, d, tag, handle, Recycler::growth());
            lemma_enter_pages(p0, root, d, tag, handle, Recycler::growth());
            lemma_cow_more(&w0.recycler, &w0.cache, &self.recycler, &self.cache, used, m);
        }
        match inserted {
            Ok(n) => {
                self.roots.index_root = n;
                self.roots.index_depth = index.outer_depth();
                proof {
                    lemma_tag_set(&w0, self, m, tag, handle, true);
                }
                Ok(())
            },
            Err(e) => {
                proof {
                    lemma_evolved_cow(&w0, self, m);
                    lemma_index_reads(&w0.cache, g0, w0.roots, tag, e);
                }
                Err(e)
            },
        }
    }

    /// Take a handle out from under a tag.
    pub fn leave_tag(&mut self, tag: u32, handle: u64) -> (outcome: Result<(), ChiselError>)
        requires
            old(self).usable(),
            old(self).holds(old(self).roots, old(self).freed@, old(self).cursor),
            index_has(old(self).cache.contents(), old(self).roots, tag, handle),
            old(self).cache.watermark() + index_remove_pages(Recycler::growth()) <= usize::MAX,
            old(self).cache.watermark() + index_remove_pages(Recycler::growth()) <= INNER_ROOT_MASK,
        ensures
            evolved(old(self), final(self), index_remove_pages(Recycler::growth())),
            match outcome {
                Ok(_) => tag_set(old(self), final(self), tag, handle, false),
                Err(e) => overrun(&old(self).cache, &final(self).cache, e, index_remove_pages(Recycler::growth())),
            },
            outcome is Err ==> final(self).roots == old(self).roots,
            outcome is Err ==> final(self).cursor == old(self).cursor,
            outcome is Err ==> final(self).live == old(self).live,
    {
        let ghost w0 = *self;
        let ghost g0 = good(&w0.cache, &w0.recycler, w0.slots);
        let ghost m = index_remove_pages(Recycler::growth());
        proof {
            reveal(sound_store);
            lemma_forest_mono(
                w0.cache.contents(),
                SLOTS_PER_PAGE as nat,
                index_roots(w0.cache.contents(), w0.roots.index_root, w0.roots.index_depth as nat),
                g0,
                w0.recycler.footprint(&w0.cache).complement(),
            );
            lemma_good_reads(&w0);
            assert(is_member(
                w0.cache.contents(),
                w0.roots.index_root,
                w0.roots.index_depth as nat,
                tag,
                handle,
            ));
        }
        let mut index = self.index();
        let root: u64 = self.roots.index_root;
        match index.remove(&mut self.cache, root, tag, handle, &mut self.recycler, &mut self.freed) {
            Ok((n, _)) => {
                self.roots.index_root = n;
                self.roots.index_depth = index.outer_depth();
                proof {
                    lemma_tag_set(&w0, self, m, tag, handle, false);
                }
                Ok(())
            },
            Err(e) => {
                proof {
                    lemma_evolved_cow(&w0, self, m);
                    lemma_index_reads(&w0.cache, g0, w0.roots, tag, e);
                }
                Err(e)
            },
        }
    }
}

} // verus!
