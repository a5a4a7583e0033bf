//! Changing the entry of one handle: in the handle table, and in the index of
//! tags.

use vstd::prelude::*;

use crate::error::ChiselError;
use crate::forest::{lemma_nodes, nodes_of};
use crate::handle_table::{
    if_live, insert_pages, insert_requests, lemma_insert_pages, table_head, table_lookup, table_updated, tombstone,
    ENTRIES_PER_LEAF, HandleEntry, HandleFlags, HandleTable,
};
use crate::page::PAGE_ID_NONE;
use crate::page_source::{
    cow_step, lemma_agree_at, lemma_cow_chain, lemma_cow_extend, lemma_cow_look, lemma_cow_more, lemma_taken_id,
    overrun, taken, too_many, PageSource,
};
use crate::placement::{lemma_evolved_more, placed};
use crate::pool::{good, lemma_pool_cow, stray};
use crate::radix::{is_tree, lemma_reach_pos, node_at, reach, tree_in};
use crate::recycler::Recycler;
use crate::spine::{freed_ok, lemma_tree_mono, path_unsound, taken_pages, tree_headed, tree_kept};
use crate::store::{
    data_only, entry_apart, entry_of, in_chain, index_has, index_nodes, lemma_table_set, lemma_used_good, record_of,
    same_store, sound_store, table_nodes, unused, value_of, value_ok, value_pages,
};
use crate::workspace::{
    evolved, lemma_evolved_cow, lemma_evolved_state, lemma_good_reads, lemma_loses_only, lemma_not_noted,
    lemma_tree_reads, loses_only, none_noted, spends, Workspace,
};

verus! {

/// A handle can be given an entry: the value can be read, and its pages are
/// used by nothing else.
pub open spec fn settable(w: &Workspace, h: u64, entry: HandleEntry) -> bool {
    let pages = w.cache.contents();
    &&& entry.flags != HandleFlags::Deleted
    &&& value_ok(pages, good(&w.cache, &w.recycler, w.slots), entry)
    &&& forall|id: u64| #[trigger]
        value_pages(pages, entry).contains(id) ==> {
            &&& !table_nodes(pages, w.roots).contains(id)
            &&& !index_nodes(pages, w.roots).contains(id)
            &&& !w.freed@.contains(id)
            &&& !w.deferred@.contains(id)
            &&& entry.flags == HandleFlags::Overflow ==> !w.bins@.contains(id)
        }
    &&& forall|k: u64|
        k != h ==> ((#[trigger] entry_of(pages, w.roots, k)) matches Some(e) ==> (entry.flags == HandleFlags::Overflow
            || e.flags == HandleFlags::Overflow) ==> value_pages(pages, entry).disjoint(value_pages(pages, e)))
}

/// One handle has got a new entry.
pub open spec fn entry_set(w0: &Workspace, w1: &Workspace, h: u64, entry: HandleEntry) -> bool {
    let p0 = w0.cache.contents();
    let p1 = w1.cache.contents();
    &&& w1.usable()
    &&& w1.holds(w1.roots, w1.freed@, w1.cursor)
    &&& w1.cursor == w0.cursor
    &&& w1.live == w0.live
    &&& w1.bins == w0.bins
    &&& w1.roots.names == w0.roots.names
    &&& forall|k: u64| #[trigger]
        entry_of(p1, w1.roots, k) == (if k == h {
            if_live(entry)
        } else {
            entry_of(p0, w0.roots, k)
        })
    &&& forall|tag: u32, k: u64| #[trigger] index_has(p1, w1.roots, tag, k) == index_has(p0, w0.roots, tag, k)
    &&& w1.db() == (if entry.flags != HandleFlags::Deleted {
        w0.db().insert(h, record_of(p1, entry))
    } else {
        w0.db().remove(h)
    })
    &&& old_nodes_only(w0, w1)
    &&& loses_only(w0, w1, held_pages(w0, h))
    &&& entry.flags != HandleFlags::Deleted ==> value_pages(p1, entry) == value_pages(p0, entry)
    &&& good_same(w0, w1)
}

/// The good pages have not changed.
pub open spec fn good_same(w0: &Workspace, w1: &Workspace) -> bool {
    forall|id: u64| #[trigger]
        good(&w0.cache, &w0.recycler, w0.slots).contains(id) ==> w1.cache.contents()[id] == w0.cache.contents()[id]
            && good(&w1.cache, &w1.recycler, w1.slots).contains(id)
}

/// A step of the source does not touch the good pages.
pub proof fn lemma_good_same(w0: &Workspace, w1: &Workspace, m: nat)
    requires
        w1.slots == w0.slots,
        cow_step(&w0.recycler, &w0.cache, &w1.recycler, &w1.cache, m),
        good(&w0.cache, &w0.recycler, w0.slots).subset_of(good(&w1.cache, &w1.recycler, w1.slots)),
    ensures
        good_same(w0, w1),
{
    let f0 = w0.recycler.footprint(&w0.cache);
    assert forall|id: u64| #[trigger] good(&w0.cache, &w0.recycler, w0.slots).contains(
        id,
    ) implies w1.cache.contents()[id] == w0.cache.contents()[id] by {
        lemma_agree_at(&w0.cache, &w1.cache, f0.complement(), id);
    }
}

/// The pages of the value that a handle has.
pub open spec fn held_pages(w: &Workspace, h: u64) -> Set<u64> {
    match entry_of(w.cache.contents(), w.roots, h) {
        Some(e) => value_pages(w.cache.contents(), e),
        None => Set::<u64>::empty(),
    }
}

/// The pages of the table, and those that the source gave away, are pages of the new
/// table or freed.
spec fn table_pages_kept(w0: &Workspace, w1: &Workspace) -> bool {
    forall|id: u64|
        #![trigger table_nodes(w0.cache.contents(), w0.roots).contains(id)]
        #![trigger w0.recycler.footprint(&w0.cache).contains(id)]
        table_nodes(w0.cache.contents(), w0.roots).contains(id) || w0.recycler.footprint(&w0.cache).contains(id)
            ==> table_nodes(w1.cache.contents(), w1.roots).contains(id) || w1.recycler.footprint(&w1.cache).contains(id)
            || w1.freed@.contains(id)
}

/// Of the pages that were in use, none has become a node.
pub open spec fn old_nodes_only(w0: &Workspace, w1: &Workspace) -> bool {
    let g0 = good(&w0.cache, &w0.recycler, w0.slots);
    &&& forall|id: u64|
        g0.contains(id) && #[trigger] table_nodes(w1.cache.contents(), w1.roots).contains(id) ==> table_nodes(
            w0.cache.contents(),
            w0.roots,
        ).contains(id)
    &&& forall|id: u64|
        g0.contains(id) && #[trigger] index_nodes(w1.cache.contents(), w1.roots).contains(id) ==> index_nodes(
            w0.cache.contents(),
            w0.roots,
        ).contains(id)
}

/// A value that was just stored can be given to any handle.
pub proof fn lemma_placed_settable(w: &Workspace, h: u64, entry: HandleEntry, value: Seq<u8>)
    requires
        w.usable(),
        w.holds(w.roots, w.freed@, w.cursor),
        placed(w, entry, value),
    ensures
        settable(w, h, entry),
{
    let pages = w.cache.contents();
    assert forall|id: u64| #[trigger] value_pages(pages, entry).contains(id) implies {
        &&& !table_nodes(pages, w.roots).contains(id)
        &&& !index_nodes(pages, w.roots).contains(id)
        &&& !w.freed@.contains(id)
        &&& !w.deferred@.contains(id)
        &&& entry.flags == HandleFlags::Overflow ==> !w.bins@.contains(id)
    } by {
        if entry.flags == HandleFlags::Live {
            assert(w.bins@.contains(id));
        }
    }
    assert forall|k: u64| k != h implies ((#[trigger] entry_of(pages, w.roots, k)) matches Some(e) ==> (entry.flags
        == HandleFlags::Overflow || e.flags == HandleFlags::Overflow) ==> value_pages(pages, entry).disjoint(
        value_pages(pages, e),
    )) by {
        if let Some(e) = entry_of(pages, w.roots, k) {
            assert forall|id: u64| value_pages(pages, entry).contains(id) && value_pages(pages, e).contains(id)
                && (entry.flags == HandleFlags::Overflow || e.flags == HandleFlags::Overflow) implies false by {
                if entry.flags == HandleFlags::Overflow {
                    assert(crate::store::holds_value(pages, w.roots, id));
                } else {
                    assert(w.bins@.contains(id));
                    assert(in_chain(pages, w.roots, id));
                }
            }
        }
    }
}

/// The entry of a handle can be given to it again, with another tag or byte.
pub proof fn lemma_own_settable(w: &Workspace, h: u64, e0: HandleEntry, entry: HandleEntry)
    requires
        w.usable(),
        w.holds(w.roots, w.freed@, w.cursor),
        entry_of(w.cache.contents(), w.roots, h) == Some(e0),
        entry.page_id == e0.page_id,
        entry.slot_index == e0.slot_index,
        entry.flags == e0.flags,
    ensures
        settable(w, h, entry),
{
    reveal(sound_store);
    let pages = w.cache.contents();
    assert(value_pages(pages, entry) == value_pages(pages, e0));
    assert forall|id: u64| #[trigger] value_pages(pages, entry).contains(id) implies {
        &&& !table_nodes(pages, w.roots).contains(id)
        &&& !index_nodes(pages, w.roots).contains(id)
        &&& !w.freed@.contains(id)
        &&& !w.deferred@.contains(id)
        &&& entry.flags == HandleFlags::Overflow ==> !w.bins@.contains(id)
    } by {
        assert(entry_of(pages, w.roots, h) is Some);
        assert(crate::store::holds_value(pages, w.roots, id));
        if entry.flags == HandleFlags::Overflow {
            assert(in_chain(pages, w.roots, id));
        }
    }
    assert(e0.flags != HandleFlags::Deleted);
    assert forall|k: u64| k != h implies ((#[trigger] entry_of(pages, w.roots, k)) matches Some(e) ==> (entry.flags
        == HandleFlags::Overflow || e.flags == HandleFlags::Overflow) ==> value_pages(pages, entry).disjoint(
        value_pages(pages, e),
    )) by {
        assert(entry_of(pages, w.roots, h) is Some);
    }
}

/// What a change of the table by copying its paths amounts to.
#[verifier::spinoff_prover]
proof fn lemma_entry_set(w0: &Workspace, w1: &Workspace, m: nat, h: u64, entry: HandleEntry)
    requires
        w0.usable(),
        w0.holds(w0.roots, w0.freed@, w0.cursor),
        cow_step(&w0.recycler, &w0.cache, &w1.recycler, &w1.cache, m),
        w1.slots == w0.slots,
        w1.deferred == w0.deferred,
        w1.cursor == w0.cursor,
        w1.live == w0.live,
        w1.bins == w0.bins,
        w1.roots.names == w0.roots.names,
        w1.roots.index_root == w0.roots.index_root,
        w1.roots.index_depth == w0.roots.index_depth,
        w1.roots.next_handle >= w0.roots.next_handle,
        w1.roots.table_root != PAGE_ID_NONE,
        w1.roots.table_root != 0,
        w1.roots.table_depth <= 6,
        tree_in(
            w1.cache.contents(),
            ENTRIES_PER_LEAF as nat,
            w1.roots.table_root,
            w1.roots.table_depth as nat,
            table_nodes(w0.cache.contents(), w0.roots).union(
                taken_pages(&w0.recycler, &w0.cache, &w1.recycler, &w1.cache),
            ),
        ),
        is_tree(w1.cache.contents(), ENTRIES_PER_LEAF as nat, w1.roots.table_root, w1.roots.table_depth as nat),
        tree_headed(
            w1.cache.contents(),
            ENTRIES_PER_LEAF as nat,
            w1.roots.table_root,
            w1.roots.table_depth as nat,
            table_head(),
        ),
        forall|k: u64| #[trigger]
            entry_of(w1.cache.contents(), w1.roots, k) == (if k == h {
                if_live(entry)
            } else {
                entry_of(w0.cache.contents(), w0.roots, k)
            }),
        entry.flags != HandleFlags::Deleted ==> 0 < h < w1.roots.next_handle && settable(w0, h, entry),
        w0.freed@.is_prefix_of(w1.freed@),
        table_pages_kept(w0, w1),
        forall|i: int|
            w0.freed@.len() <= i < w1.freed@.len() ==> {
                &&& taken(&w0.recycler, &w0.cache, &w1.recycler, &w1.cache, #[trigger] w1.freed@[i]) || table_nodes(
                    w0.cache.contents(),
                    w0.roots,
                ).contains(w1.freed@[i])
                &&& tree_in(
                    w1.cache.contents(),
                    ENTRIES_PER_LEAF as nat,
                    w1.roots.table_root,
                    w1.roots.table_depth as nat,
                    Set::<u64>::full().remove(w1.freed@[i]),
                )
            },
    ensures
        evolved(w0, w1, m),
        entry_set(w0, w1, h, entry),
{
    let p0 = w0.cache.contents();
    let p1 = w1.cache.contents();
    let r0 = w0.roots;
    let r1 = w1.roots;
    let n = w0.slots;
    let c = ENTRIES_PER_LEAF as nat;
    let d1 = r1.table_depth as nat;
    let g0 = good(&w0.cache, &w0.recycler, n);
    let g1 = good(&w1.cache, &w1.recycler, n);
    lemma_evolved_cow(w0, w1, m);
    lemma_evolved_state(w0, w1, m, r0, w0.live@, w0.freed@, w0.cursor);
    lemma_pool_cow(&w0.recycler, &w0.cache, &w1.recycler, &w1.cache, m, n);
    lemma_used_good(p0, g0, r0);
    let taken_set = taken_pages(&w0.recycler, &w0.cache, &w1.recycler, &w1.cache);
    lemma_nodes(p1, c, r1.table_root, d1);
    let nodes1 = table_nodes(p1, r1);
    let fresh = taken_set.intersect(nodes1);
    assert(nodes1.subset_of(table_nodes(p0, r0).union(fresh))) by {
        assert forall|id: u64| #[trigger] nodes1.contains(id) implies table_nodes(p0, r0).union(fresh).contains(id) by {
            assert(table_nodes(p0, r0).union(taken_set).contains(id));
        }
    }
    lemma_tree_mono(p1, c, r1.table_root, d1, nodes1, table_nodes(p0, r0).union(fresh));
    if entry.flags != HandleFlags::Deleted {
        lemma_settable_kept(w0, w1, h, entry, fresh);
    }
    lemma_table_set(p0, p1, g0, g1, r0, r1, fresh, h, entry);
    assert forall|i: int| 0 <= i < w1.freed@.len() implies stray(&w1.cache, &w1.recycler, n, r1, #[trigger] w1.freed@[i])
        && w1.cursor != Some(w1.freed@[i]) by {
        let id = w1.freed@[i];
        if i < w0.freed@.len() {
            assert(id == w0.freed@[i]);
            assert(stray(&w0.cache, &w0.recycler, n, r0, id));
            assert(w0.freed@.contains(id));
            assert(unused(p0, r0, id));
            if entry.flags != HandleFlags::Deleted {
                assert(!value_pages(p0, entry).contains(id));
            }
        } else {
            assert(!nodes1.contains(id)) by {
                assert(nodes1.contains(id) ==> Set::<u64>::full().remove(id).contains(id));
            }
            if entry.flags != HandleFlags::Deleted {
                assert(!value_pages(p0, entry).contains(id));
            }
            if table_nodes(p0, r0).contains(id) {
                assert(g0.contains(id));
                if w0.cursor == Some(id) {
                    assert(data_only(p0, r0, id));
                }
            } else {
                assert(taken(&w0.recycler, &w0.cache, &w1.recycler, &w1.cache, id));
                assert(!g0.contains(id));
                assert(unused(p0, r0, id));
                if w0.cursor == Some(id) {
                    assert(w0.bins@.contains(id));
                }
            }
        }
    }
    reveal(none_noted);
    assert forall|i: int| 0 <= i < w1.freed@.len() implies !w1.deferred@.contains(#[trigger] w1.freed@[i]) by {
        if i < w0.freed@.len() {
            assert(w1.freed@[i] == w0.freed@[i]);
        } else {
            lemma_not_noted(w0, w0.freed@, w1.freed@[i]);
        }
    }
    assert forall|i: int| 0 <= i < w1.deferred@.len() implies stray(
        &w1.cache,
        &w1.recycler,
        n,
        r1,
        #[trigger] w1.deferred@[i],
    ) by {
        let id = w1.deferred@[i];
        assert(stray(&w0.cache, &w0.recycler, n, r0, w0.deferred@[i]));
        assert(w0.deferred@.contains(id));
        assert(unused(p0, r0, id));
        if entry.flags != HandleFlags::Deleted {
            assert(!value_pages(p0, entry).contains(id));
        }
    }
    assert forall|q: u64| #[trigger] w1.bins@.contains(q) implies data_only(p1, r1, q) by {
        assert(w0.bins@.contains(q));
        assert(data_only(p0, r0, q));
        assert(g0.contains(q));
    }
    assert(index_nodes(p1, r1) == index_nodes(p0, r0)) by {
        assert(index_nodes(p1, r0) == index_nodes(p0, r0));
        assert(index_nodes(p1, r1) =~= index_nodes(p1, r0));
    }
    lemma_loses_only(w0, w1, m, held_pages(w0, h));
    lemma_good_same(w0, w1, m);
}

/// The pages of a value are still apart from everything after a step that does
/// not touch them.
proof fn lemma_settable_kept(w0: &Workspace, w1: &Workspace, h: u64, entry: HandleEntry, fresh: Set<u64>)
    requires
        settable(w0, h, entry),
        w1.slots == w0.slots,
        sound_store(w0.cache.contents(), good(&w0.cache, &w0.recycler, w0.slots), w0.roots),
        same_store(w0.cache.contents(), w1.cache.contents(), w0.roots),
        good(&w0.cache, &w0.recycler, w0.slots).subset_of(good(&w1.cache, &w1.recycler, w1.slots)),
        crate::radix::same_on(
            w0.cache.contents(),
            w1.cache.contents(),
            good(&w0.cache, &w0.recycler, w0.slots),
        ),
        fresh.disjoint(good(&w0.cache, &w0.recycler, w0.slots)),
    ensures
        value_pages(w1.cache.contents(), entry) == value_pages(w0.cache.contents(), entry),
        value_ok(w1.cache.contents(), good(&w1.cache, &w1.recycler, w1.slots), entry),
        crate::store::value_of(w1.cache.contents(), entry) == crate::store::value_of(w0.cache.contents(), entry),
        entry_apart(w1.cache.contents(), w0.roots, fresh, h, entry),
{
    let p0 = w0.cache.contents();
    let p1 = w1.cache.contents();
    let g0 = good(&w0.cache, &w0.recycler, w0.slots);
    if entry.flags == HandleFlags::Overflow {
        crate::store::lemma_same_chain(p0, p1, entry.page_id, g0);
    } else {
        assert(value_pages(p0, entry).contains(entry.page_id));
        assert(g0.contains(entry.page_id));
    }
    assert forall|k: u64| k != h implies ((#[trigger] entry_of(p1, w0.roots, k)) matches Some(e) ==> (entry.flags
        == HandleFlags::Overflow || e.flags == HandleFlags::Overflow) ==> value_pages(p1, entry).disjoint(
        value_pages(p1, e),
    )) by {
        assert(entry_of(p1, w0.roots, k) == entry_of(p0, w0.roots, k));
    }
}

/// Only where pages are kept, or which pages there are, differs.
spec fn same_but_pages(w0: &Workspace, w1: &Workspace) -> bool {
    &&& w1.recycler == w0.recycler
    &&& w1.slots == w0.slots
    &&& w1.roots == w0.roots
    &&& w1.freed == w0.freed
    &&& w1.deferred == w0.deferred
    &&& w1.cursor == w0.cursor
    &&& w1.live == w0.live
    &&& w1.bins == w0.bins
}

/// There is a table with the entries of the state, in pages that are in use by
/// it or were just taken.
spec fn started(w0: &Workspace, w1: &Workspace, root: u64, depth: nat) -> bool {
    let c = ENTRIES_PER_LEAF as nat;
    let pages = started_pages(w0, w1);
    &&& same_but_pages(w0, w1)
    &&& cow_step(&w0.recycler, &w0.cache, &w1.recycler, &w1.cache, 1)
    &&& root != 0
    &&& root != PAGE_ID_NONE
    &&& depth <= 6
    &&& tree_in(w1.cache.contents(), c, root, depth, pages)
    &&& is_tree(w1.cache.contents(), c, root, depth)
    &&& tree_headed(w1.cache.contents(), c, root, depth, table_head())
    &&& pages.disjoint(w1.recycler.footprint(&w1.cache))
    &&& forall|id: u64| #[trigger] pages.contains(id) ==> w1.cache.sound(id)
    &&& forall|k: u64| #[trigger]
        table_lookup(w1.cache.contents(), root, depth, k) == entry_of(w0.cache.contents(), w0.roots, k)
    &&& table_nodes(w0.cache.contents(), w0.roots).subset_of(nodes_of(w1.cache.contents(), c, root, depth))
    &&& spends(w0, w1, nodes_of(w1.cache.contents(), c, root, depth))
}

/// The pages of the table, or those just taken for it.
spec fn started_pages(w0: &Workspace, w1: &Workspace) -> Set<u64> {
    table_nodes(w0.cache.contents(), w0.roots).union(
        taken_pages(&w0.recycler, &w0.cache, &w1.recycler, &w1.cache),
    )
}

/// How many pages setting an entry takes at most.
pub open spec fn table_set_pages() -> nat {
    1 + insert_requests() * Recycler::growth()
}

impl Workspace {
    /// The table, made if there is none.
    fn start_table(&mut self) -> (outcome: Result<(u64, HandleTable), ChiselError>)
        requires
            old(self).usable(),
            old(self).holds(old(self).roots, old(self).freed@, old(self).cursor),
            old(self).cache.watermark() < usize::MAX,
        ensures
            same_but_pages(old(self), final(self)),
            evolved(old(self), final(self), 1),
            match outcome {
                Ok((root, table)) => started(old(self), final(self), root, table.spec_depth()),
                Err(e) => overrun(&old(self).cache, &final(self).cache, e, 1),
            },
    {
        let ghost w0 = *self;
        let ghost c = ENTRIES_PER_LEAF as nat;
        let mut table = self.table();
        if self.roots.table_root != PAGE_ID_NONE {
            proof {
                let g0 = good(&w0.cache, &w0.recycler, w0.slots);
                lemma_cow_look(&self.recycler, &w0.cache, &self.cache);
                lemma_evolved_cow(&w0, self, 1);
                lemma_good_reads(self);
                lemma_used_good(w0.cache.contents(), g0, w0.roots);
                reveal(sound_store);
                lemma_nodes(w0.cache.contents(), c, w0.roots.table_root, w0.roots.table_depth as nat);
                lemma_tree_mono(
                    w0.cache.contents(),
                    c,
                    w0.roots.table_root,
                    w0.roots.table_depth as nat,
                    table_nodes(w0.cache.contents(), w0.roots),
                    started_pages(&w0, self),
                );
                assert forall|id: u64| #[trigger] started_pages(&w0, self).contains(id) implies self.cache.sound(id)
                    && !self.recycler.footprint(&self.cache).contains(id) by {
                    assert(!taken(&w0.recycler, &w0.cache, &self.recycler, &self.cache, id));
                    assert(g0.contains(id));
                }
            }
            return Ok((self.roots.table_root, table));
        }
        let made = table.create_root(&mut self.cache);
        proof {
            lemma_cow_extend(&w0.recycler, &w0.cache, &self.cache, 1);
            lemma_evolved_cow(&w0, self, 1);
        }
        match made {
            Ok(root) => {
                proof {
                    let pages = started_pages(&w0, self);
                    let p1 = self.cache.contents();
                    assert(taken(&w0.recycler, &w0.cache, &self.recycler, &self.cache, root));
                    lemma_taken_id(&w0.recycler, &w0.cache, &self.recycler, &self.cache, root);
                    assert(pages.contains(root));
                    assert forall|k: nat, l: nat| l <= 0 implies #[trigger] node_at(p1, c, root, 0, k, l) == Some(root) by {}
                    assert(is_tree(p1, c, root, 0));
                    lemma_reach_pos(c, 0);
                    assert(node_at(p1, c, root, 0, 0, 0) == Some(root));
                    assert(nodes_of(p1, c, root, 0).contains(root));
                    assert(spends(&w0, self, nodes_of(p1, c, root, 0)));
                }
                Ok((root, table))
            },
            Err(e) => Err(e),
        }
    }
}

/// What a table operation amounts to.
#[verifier::spinoff_prover]
proof fn lemma_table_changed(
    w0: &Workspace,
    w1: &Workspace,
    w2: &Workspace,
    root: u64,
    depth: nat,
    m: nat,
    h: u64,
    entry: HandleEntry,
)
    requires
        w0.usable(),
        w0.holds(w0.roots, w0.freed@, w0.cursor),
        started(w0, w1, root, depth),
        cow_step(&w1.recycler, &w1.cache, &w2.recycler, &w2.cache, m),
        w2.slots == w0.slots,
        w2.deferred == w0.deferred,
        w2.cursor == w0.cursor,
        w2.live == w0.live,
        w2.bins == w0.bins,
        w2.roots.names == w0.roots.names,
        w2.roots.index_root == w0.roots.index_root,
        w2.roots.index_depth == w0.roots.index_depth,
        w2.roots.next_handle >= w0.roots.next_handle,
        w2.roots.table_root != PAGE_ID_NONE,
        w2.roots.table_root != 0,
        w2.roots.table_depth <= 6,
        entry.flags != HandleFlags::Deleted ==> 0 < h < w2.roots.next_handle && settable(w0, h, entry),
        table_updated(
            w1.cache.contents(),
            root,
            depth,
            w2.cache.contents(),
            w2.roots.table_root,
            w2.roots.table_depth as nat,
            h,
            entry,
        ),
        tree_headed(
            w2.cache.contents(),
            ENTRIES_PER_LEAF as nat,
            w2.roots.table_root,
            w2.roots.table_depth as nat,
            table_head(),
        ),
        tree_kept(
            &w1.recycler,
            &w1.cache,
            &w2.recycler,
            &w2.cache,
            ENTRIES_PER_LEAF as nat,
            root,
            depth,
            w2.roots.table_root,
            w2.roots.table_depth as nat,
        ),
        freed_ok(
            &w1.recycler,
            &w1.cache,
            &w2.recycler,
            &w2.cache,
            ENTRIES_PER_LEAF as nat,
            root,
            depth,
            w2.roots.table_root,
            w2.roots.table_depth as nat,
            h as nat,
            w0.freed@,
            w2.freed@,
        ),
    ensures
        evolved(w0, w2, 1 + m),
        entry_set(w0, w2, h, entry),
{
    let c = ENTRIES_PER_LEAF as nat;
    let p1 = w1.cache.contents();
    let p2 = w2.cache.contents();
    let r2 = w2.roots;
    let d2 = r2.table_depth as nat;
    lemma_cow_chain(&w0.recycler, &w0.cache, &w1.recycler, &w1.cache, &w2.recycler, &w2.cache, 1, m);
    let pages = started_pages(w0, w1);
    let taken1 = taken_pages(&w1.recycler, &w1.cache, &w2.recycler, &w2.cache);
    let target = table_nodes(w0.cache.contents(), w0.roots).union(
        taken_pages(&w0.recycler, &w0.cache, &w2.recycler, &w2.cache),
    );
    assert(pages.union(taken1).subset_of(target)) by {
        assert forall|id: u64| #[trigger] pages.union(taken1).contains(id) implies target.contains(id) by {
            if taken1.contains(id) {
                assert(taken(&w1.recycler, &w1.cache, &w2.recycler, &w2.cache, id));
            } else if !table_nodes(w0.cache.contents(), w0.roots).contains(id) {
                assert(taken(&w0.recycler, &w0.cache, &w1.recycler, &w1.cache, id));
                assert(taken(&w0.recycler, &w0.cache, &w2.recycler, &w2.cache, id));
            }
        }
    }
    assert(tree_in(p1, c, root, depth, pages));
    lemma_tree_mono(p2, c, r2.table_root, d2, pages.union(taken1), target);
    assert forall|k: u64| #[trigger] entry_of(p2, r2, k) == (if k == h {
        if_live(entry)
    } else {
        entry_of(w0.cache.contents(), w0.roots, k)
    }) by {
        assert(table_lookup(p2, r2.table_root, d2, k) == (if k == h {
            if_live(entry)
        } else {
            table_lookup(p1, root, depth, k)
        }));
    }
    assert forall|i: int| w0.freed@.len() <= i < w2.freed@.len() implies {
        &&& taken(&w0.recycler, &w0.cache, &w2.recycler, &w2.cache, #[trigger] w2.freed@[i]) || table_nodes(
            w0.cache.contents(),
            w0.roots,
        ).contains(w2.freed@[i])
        &&& tree_in(p2, c, r2.table_root, d2, Set::<u64>::full().remove(w2.freed@[i]))
    } by {
        let id = w2.freed@[i];
        if !taken(&w1.recycler, &w1.cache, &w2.recycler, &w2.cache, id) {
            let l = choose|l: nat| l <= depth && #[trigger] node_at(p1, c, root, depth, h as nat, l) == Some(id);
            assert(pages.contains(id));
        }
    }
    let tail = w2.freed@.skip(w0.freed@.len() as int);
    assert forall|id: u64| #[trigger] tail.contains(id) implies w2.freed@.contains(id) by {
        let i = tail.index_of(id);
        assert(w2.freed@[w0.freed@.len() + i] == id);
    }
    assert(table_nodes(p2, r2) == nodes_of(p2, c, r2.table_root, d2));
    assert(table_pages_kept(w0, w2)) by {
        assert forall|id: u64|
            #![trigger table_nodes(w0.cache.contents(), w0.roots).contains(id)]
            #![trigger w0.recycler.footprint(&w0.cache).contains(id)]
            table_nodes(w0.cache.contents(), w0.roots).contains(id) || w0.recycler.footprint(&w0.cache).contains(
                id,
            ) implies table_nodes(p2, r2).contains(id) || w2.recycler.footprint(&w2.cache).contains(id)
            || w2.freed@.contains(id) by {
            if nodes_of(p1, c, root, depth).contains(id) {
                assert(nodes_of(p2, c, r2.table_root, d2).contains(id) || tail.contains(id));
            } else {
                assert(w1.recycler.footprint(&w1.cache).contains(id));
            }
        }
    }
    lemma_entry_set(w0, w2, 1 + m, h, entry);
}

/// A failed table operation leaves every state as it was.
proof fn lemma_table_failed(w0: &Workspace, w1: &Workspace, w2: &Workspace, root: u64, depth: nat, m: nat)
    requires
        w0.usable(),
        started(w0, w1, root, depth),
        cow_step(&w1.recycler, &w1.cache, &w2.recycler, &w2.cache, m),
        w2.slots == w0.slots,
        w2.deferred == w0.deferred,
        w2.bins == w0.bins,
        w0.freed@.is_prefix_of(w2.freed@),
    ensures
        evolved(w0, w2, 1 + m),
        forall|e: ChiselError| #[trigger] too_many(&w1.cache, e, m) ==> too_many(&w0.cache, e, 1 + m),
        forall|e: ChiselError, h: nat|
            h < reach(ENTRIES_PER_LEAF as nat, depth) ==> !(#[trigger] path_unsound(
                &w1.cache,
                ENTRIES_PER_LEAF as nat,
                root,
                depth,
                h,
                e,
            )),
{
    lemma_cow_chain(&w0.recycler, &w0.cache, &w1.recycler, &w1.cache, &w2.recycler, &w2.cache, 1, m);
    lemma_evolved_cow(w0, w2, 1 + m);
    assert forall|e: ChiselError, h: nat| h < reach(ENTRIES_PER_LEAF as nat, depth) implies !(#[trigger] path_unsound(
        &w1.cache,
        ENTRIES_PER_LEAF as nat,
        root,
        depth,
        h,
        e,
    )) by {
        lemma_tree_reads(&w1.cache, started_pages(w0, w1), ENTRIES_PER_LEAF as nat, root, depth, e);
    }
}

impl Workspace {
    /// Give a handle an entry.
    pub fn set_entry(&mut self, handle: u64, entry: &HandleEntry, next_handle: u64) -> (outcome: Result<(), ChiselError>)
        requires
            old(self).usable(),
            old(self).holds(old(self).roots, old(self).freed@, old(self).cursor),
            settable(old(self), handle, *entry),
            0 < handle < next_handle,
            old(self).roots.next_handle <= next_handle,
            old(self).cache.watermark() + table_set_pages() <= usize::MAX,
        ensures
            evolved(old(self), final(self), table_set_pages()),
            match outcome {
                Ok(_) => {
                    &&& entry_set(old(self), final(self), handle, *entry)
                    &&& final(self).roots.next_handle == next_handle
                    &&& value_of(final(self).cache.contents(), *entry) == value_of(old(self).cache.contents(), *entry)
                    &&& value_pages(final(self).cache.contents(), *entry) == value_pages(
                        old(self).cache.contents(),
                        *entry,
                    )
                },
                Err(e) => overrun(&old(self).cache, &final(self).cache, e, table_set_pages()),
            },
            outcome is Err ==> final(self).roots == old(self).roots,
            outcome is Err ==> final(self).cursor == old(self).cursor,
            outcome is Err ==> final(self).live == old(self).live,
    {
        let ghost w0 = *self;
        let ghost m = (insert_requests() * Recycler::growth()) as nat;
        let (root, mut table): (u64, HandleTable) = match self.start_table() {
            Ok(start) => start,
            Err(e) => {
                proof {
                    lemma_evolved_more(&w0, self, 1, table_set_pages());
                }
                return Err(e);
            },
        };
        let ghost w1 = *self;
        let ghost d = table.spec_depth();
        proof {
            lemma_tree_mono(
                w1.cache.contents(),
                ENTRIES_PER_LEAF as nat,
                root,
                d,
                started_pages(&w0, &w1),
                w1.recycler.footprint(&w1.cache).complement(),
            );
        }
        let inserted = table.insert(&mut self.cache, root, handle, entry, &mut self.recycler, &mut self.freed);
        proof {
            let used = insert_pages(d, handle, Recycler::growth());
            lemma_insert_pages(d, handle, Recycler::growth());
            lemma_cow_more(&w1.recycler, &w1.cache, &self.recycler, &self.cache, used, m);
        }
        match inserted {
            Ok(n) => {
                self.roots.table_root = n;
                self.roots.table_depth = table.depth();
                self.roots.next_handle = next_handle;
                proof {
                    lemma_table_changed(&w0, &w1, self, root, d, m, handle, *entry);
                    lemma_cow_chain(
                        &w0.recycler,
                        &w0.cache,
                        &w1.recycler,
                        &w1.cache,
                        &self.recycler,
                        &self.cache,
                        1,
                        m,
                    );
                    lemma_value_stays(&w0, self, table_set_pages(), handle, *entry);
                }
                Ok(())
            },
            Err(e) => {
                proof {
                    lemma_table_failed(&w0, &w1, self, root, d, m);
                }
                Err(e)
            },
        }
    }

    /// Take the entry of a handle away.
    pub fn clear_entry(&mut self, handle: u64) -> (outcome: Result<(), ChiselError>)
        requires
            old(self).usable(),
            old(self).holds(old(self).roots, old(self).freed@, old(self).cursor),
            entry_of(old(self).cache.contents(), old(self).roots, handle) is Some,
            old(self).cache.watermark() + table_set_pages() <= usize::MAX,
        ensures
            evolved(old(self), final(self), table_set_pages()),
            match outcome {
                Ok(_) => {
                    &&& entry_set(old(self), final(self), handle, tombstone())
                    &&& final(self).roots.next_handle == old(self).roots.next_handle
                },
                Err(e) => overrun(&old(self).cache, &final(self).cache, e, table_set_pages()),
            },
            outcome is Err ==> final(self).roots == old(self).roots,
            outcome is Err ==> final(self).cursor == old(self).cursor,
            outcome is Err ==> final(self).live == old(self).live,
    {
        let ghost w0 = *self;
        let ghost m = ((crate::handle_table::MAX_DEPTH + 1) * Recycler::growth()) as nat;
        let (root, mut table): (u64, HandleTable) = match self.start_table() {
            Ok(start) => start,
            Err(e) => {
                proof {
                    lemma_evolved_more(&w0, self, 1, table_set_pages());
                }
                return Err(e);
            },
        };
        let ghost w1 = *self;
        let ghost d = table.spec_depth();
        proof {
            lemma_tree_mono(
                w1.cache.contents(),
                ENTRIES_PER_LEAF as nat,
                root,
                d,
                started_pages(&w0, &w1),
                w1.recycler.footprint(&w1.cache).complement(),
            );
            assert(table_lookup(w1.cache.contents(), root, d, handle) is Some);
        }
        let deleted = table.delete(&mut self.cache, root, handle, &mut self.recycler, &mut self.freed);
        match deleted {
            Ok((n, _)) => {
                self.roots.table_root = n;
                self.roots.table_depth = table.depth();
                proof {
                    lemma_table_changed(&w0, &w1, self, root, d, m, handle, tombstone());
                    lemma_evolved_more(&w0, self, 1 + m, table_set_pages());
                }
                Ok(())
            },
            Err(e) => {
                proof {
                    lemma_table_failed(&w0, &w1, self, root, d, m);
                    lemma_evolved_more(&w0, self, 1 + m, table_set_pages());
                }
                Err(e)
            },
        }
    }
}

/// A value that can be given to a handle stays the same.
proof fn lemma_value_stays(w0: &Workspace, w1: &Workspace, m: nat, h: u64, entry: HandleEntry)
    requires
        w0.usable(),
        w0.holds(w0.roots, w0.freed@, w0.cursor),
        settable(w0, h, entry),
        cow_step(&w0.recycler, &w0.cache, &w1.recycler, &w1.cache, m),
        w1.slots == w0.slots,
    ensures
        value_of(w1.cache.contents(), entry) == value_of(w0.cache.contents(), entry),
        value_pages(w1.cache.contents(), entry) == value_pages(w0.cache.contents(), entry),
{
    lemma_pool_cow(&w0.recycler, &w0.cache, &w1.recycler, &w1.cache, m, w0.slots);
    crate::pool::lemma_store_cow(&w0.recycler, &w0.cache, &w1.recycler, &w1.cache, m, w0.slots, w0.roots);
    lemma_settable_kept(w0, w1, h, entry, Set::<u64>::empty());
}

} // verus!
