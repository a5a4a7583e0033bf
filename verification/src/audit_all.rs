//! Checking everything that a superblock leads to.

use vstd::prelude::*;

use rustc_hash::FxHashSet;

use crate::names::{check_names, names_apart};
use crate::audit::{
    fine, intact, lemma_map_fine, map_fine, map_pages, opened, tags_listed,
};
use crate::audit_values::{count_values, entries_listed, values_fine};
use crate::commit::clean;
use crate::error::ChiselError;
use crate::forest::lemma_forest_mono;
use crate::fx::set_new;
use crate::handle_table::{HandleEntry, ENTRIES_PER_LEAF};
use crate::inspect::unclaimed;
use crate::membership_index::{index_roots, inner_present, is_member, members_listed, tag_value};
use crate::orphans::{claimed_pages, orphan, orphans_listed};
use crate::pool::{good, stray};
use crate::radix_u64::SLOTS_PER_PAGE;
use crate::store::{
    apart, entry_of, index_has, index_nodes, index_sound, lemma_index_nodes, lemma_used_good, sound_store, table_nodes,
    table_sound, tags_agree, value_ok, value_pages, values_sound, Roots,
};
use crate::workspace::{lemma_good_reads, lemma_index_reads, lemma_none_noted, lemma_tree_reads, looked, Workspace};

verus! {

/// What makes a database sound, in the order in which it is checked.
spec fn parts_sound(pages: Map<u64, Seq<u8>>, r: Roots, lo: u64, hi: u64, own: Set<u64>) -> bool {
    let t = table_nodes(pages, r);
    let x = index_nodes(pages, r);
    &&& r.next_handle > 0
    &&& names_apart(r.names@)
    &&& table_sound(pages, intact(pages, lo, hi, own), r)
    &&& index_sound(pages, intact(pages, lo, hi, own.union(t)), r)
    &&& values_fine(pages, r, lo, hi, own.union(t).union(x))
}

/// The parts of a sound database, and what they make up.
proof fn lemma_parts(pages: Map<u64, Seq<u8>>, r: Roots, lo: u64, hi: u64, own: Set<u64>)
    ensures
        parts_sound(pages, r, lo, hi, own) <==> sound_store(pages, intact(pages, lo, hi, own), r),
{
    let g0 = intact(pages, lo, hi, own);
    let t = table_nodes(pages, r);
    let x = index_nodes(pages, r);
    let g1 = intact(pages, lo, hi, own.union(t));
    let g2 = intact(pages, lo, hi, own.union(t).union(x));
    let c = SLOTS_PER_PAGE as nat;
    let d = r.index_depth as nat;
    let roots = index_roots(pages, r.index_root, d);
    assert(g1.subset_of(g0));
    assert(g2.subset_of(g1));
    lemma_index_nodes(pages, r);
    if parts_sound(pages, r, lo, hi, own) {
        reveal(sound_store);
        lemma_forest_mono(pages, c, roots, g1, g0);
        assert(x.subset_of(g1));
        assert(t.disjoint(x));
        assert forall|h: u64| (#[trigger] entry_of(pages, r, h)) matches Some(e) ==> {
            &&& 0 < h < r.next_handle
            &&& value_ok(pages, g0, e)
            &&& value_pages(pages, e).disjoint(t)
            &&& value_pages(pages, e).disjoint(x)
        } by {
            if let Some(e) = entry_of(pages, r, h) {
                assert(value_ok(pages, g2, e));
                assert forall|id: u64| value_pages(pages, e).contains(id) implies g0.contains(id) && !t.contains(id)
                    && !x.contains(id) by {
                    assert(g2.contains(id));
                }
            }
        }
        assert(values_sound(pages, g0, r));
        assert(apart(pages, r));
    }
    if sound_store(pages, g0, r) {
        lemma_used_good(pages, g0, r);
        reveal(sound_store);
        assert(x.subset_of(g1));
        lemma_forest_mono(pages, c, roots, x, g1);
        assert forall|h: u64| (#[trigger] entry_of(pages, r, h)) matches Some(e) ==> value_ok(pages, g2, e) by {
            if let Some(e) = entry_of(pages, r, h) {
                assert(value_ok(pages, g0, e));
                assert forall|id: u64| value_pages(pages, e).contains(id) implies g2.contains(id) by {
                    assert(g0.contains(id));
                }
            }
        }
    }
}

/// Every entry with a tag is in the index.
spec fn entries_tagged(pages: Map<u64, Seq<u8>>, r: Roots, list: Seq<(u64, HandleEntry)>, i: int) -> bool {
    forall|k: int|
        0 <= k < i && (#[trigger] list[k]).1.tag != 0 ==> index_has(pages, r, list[k].1.tag, list[k].0)
}

/// The index lists only handles with the tag.
spec fn members_tagged(pages: Map<u64, Seq<u8>>, r: Roots, tag: u32) -> bool {
    forall|h: u64| #[trigger]
        index_has(pages, r, tag, h) ==> (entry_of(pages, r, h) matches Some(e) && e.tag == tag && tag != 0)
}

/// The index fits the entries if both directions do.
proof fn lemma_tags_made(
    pages: Map<u64, Seq<u8>>,
    r: Roots,
    list: Seq<(u64, HandleEntry)>,
    tags: Seq<(u32, u64)>,
)
    requires
        entries_listed(pages, r, list),
        tags_listed(pages, r, tags),
        entries_tagged(pages, r, list, list.len() as int),
        forall|i: int| 0 <= i < tags.len() ==> members_tagged(pages, r, (#[trigger] tags[i]).0),
    ensures
        tags_agree(pages, r),
{
    assert forall|tag: u32, h: u64| #[trigger]
        index_has(pages, r, tag, h) <==> (entry_of(pages, r, h) matches Some(e) && e.tag == tag && tag != 0) by {
        if index_has(pages, r, tag, h) {
            let v = tag_value(pages, r.index_root, r.index_depth as nat, tag);
            assert(inner_present(v));
            assert(tags.contains((tag, v)));
            let i = tags.index_of((tag, v));
            assert(members_tagged(pages, r, tags[i].0));
        }
        if let Some(e) = entry_of(pages, r, h) {
            if e.tag == tag && tag != 0 {
                assert(list.contains((h, e)));
                let k = list.index_of((h, e));
                assert(list[k].1.tag != 0);
            }
        }
    }
}

impl Workspace {
    /// The pages are known to be sound, but for the index fitting the entries.
    spec fn known(&self) -> bool {
        &&& opened(self)
        &&& self.slots <= self.cache.watermark()
        &&& map_fine(self)
        &&& sound_store(self.cache.contents(), good(&self.cache, &self.recycler, self.slots), self.roots)
    }

    /// What is known can be used.
    proof fn lemma_known(&self)
        requires
            self.known(),
        ensures
            self.usable(),
            self.holds(self.roots, self.freed@, self.cursor),
    {
        lemma_none_noted(self.freed@, self.deferred@);
        lemma_map_fine(self);
    }

    /// The index lists only handles with the tag.
    fn audit_members(&mut self, tag: u32) -> (outcome: Result<bool, ChiselError>)
        requires
            old(self).known(),
        ensures
            looked(old(self), final(self)),
            final(self).known(),
            match outcome {
                Ok(sound) => sound == members_tagged(old(self).cache.contents(), old(self).roots, tag),
                Err(_) => false,
            },
    {
        let ghost w0 = *self;
        let ghost pages = self.cache.contents();
        let ghost r = self.roots;
        proof {
            self.lemma_known();
            lemma_good_reads(&w0);
        }
        let index = self.index();
        let root: u64 = self.roots.index_root;
        let top: bool = match index.contains(&mut self.cache, root, tag, u64::MAX) {
            Ok(top) => top,
            Err(e) => {
                proof {
                    lemma_index_reads(&w0.cache, good(&w0.cache, &w0.recycler, w0.slots), r, tag, e);
                }
                return Err(e);
            },
        };
        proof {
            lemma_known_kept(&w0, self);
            assert(top == index_has(pages, r, tag, u64::MAX));
            assert(entry_of(pages, r, u64::MAX) is None) by {
                reveal(sound_store);
            }
        }
        if top {
            return Ok(false);
        }
        let ghost w1 = *self;
        proof {
            self.lemma_known();
            lemma_good_reads(&w1);
        }
        let members: Vec<u64> = match index.handles_for_tag(&mut self.cache, root, tag) {
            Ok(members) => members,
            Err(e) => {
                proof {
                    lemma_index_reads(&w1.cache, good(&w1.cache, &w1.recycler, w1.slots), r, tag, e);
                }
                return Err(e);
            },
        };
        proof {
            lemma_known_kept(&w1, self);
        }
        let mut i: usize = 0;
        while i < members.len()
            invariant
                i <= members@.len(),
                w0 == *old(self),
                looked(&w0, self),
                self.known(),
                pages == w0.cache.contents(),
                r == w0.roots,
                members_listed(pages, r.index_root, r.index_depth as nat, tag, None, members@),
                forall|k: int|
                    0 <= k < i && #[trigger] members@[k] < u64::MAX ==> (entry_of(pages, r, members@[k]) matches Some(e)
                        && e.tag == tag && tag != 0),
            decreases members@.len() - i,
        {
            let handle: u64 = members[i];
            if handle < u64::MAX {
                let ghost w2 = *self;
                proof {
                    self.lemma_known();
                    self.lemma_readable();
                    assert(is_member(pages, r.index_root, r.index_depth as nat, tag, members@[i as int]));
                    assert(index_has(pages, r, tag, handle));
                }
                let found: bool = match self.entry(handle) {
                    Ok(Some(entry)) => entry.tag == tag && tag != 0,
                    Ok(None) => false,
                    Err(e) => {
                        return Err(e);
                    },
                };
                proof {
                    lemma_known_kept(&w2, self);
                }
                if !found {
                    return Ok(false);
                }
            }
            i += 1;
        }
        proof {
            assert forall|h: u64| #[trigger] index_has(pages, r, tag, h) implies (entry_of(pages, r, h) matches Some(e)
                && e.tag == tag && tag != 0) by {
                assert(h < u64::MAX);
                assert(is_member(pages, r.index_root, r.index_depth as nat, tag, h));
                assert(members@.contains(h));
                let k = members@.index_of(h);
                assert(members@[k] == h);
            }
        }
        Ok(true)
    }

    /// The index fits the entries.
    fn audit_tags(&mut self, list: &Vec<(u64, HandleEntry)>) -> (outcome: Result<bool, ChiselError>)
        requires
            old(self).known(),
            entries_listed(old(self).cache.contents(), old(self).roots, list@),
        ensures
            looked(old(self), final(self)),
            final(self).known(),
            match outcome {
                Ok(sound) => sound == tags_agree(old(self).cache.contents(), old(self).roots),
                Err(_) => false,
            },
    {
        let ghost w0 = *self;
        let ghost pages = self.cache.contents();
        let ghost r = self.roots;
        let index = self.index();
        let root: u64 = self.roots.index_root;
        proof {
            self.lemma_known();
            self.lemma_readable();
        }
        let mut i: usize = 0;
        while i < list.len()
            invariant
                i <= list@.len(),
                w0 == *old(self),
                looked(&w0, self),
                self.known(),
                pages == w0.cache.contents(),
                r == w0.roots,
                root == r.index_root,
                index.spec_depth() == r.index_depth,
                r.index_depth <= 6,
                entries_listed(pages, r, list@),
                entries_tagged(pages, r, list@, i as int),
            decreases list@.len() - i,
        {
            let (handle, entry): (u64, HandleEntry) = list[i];
            if entry.tag != 0 {
                let ghost w1 = *self;
                proof {
                    self.lemma_known();
                    lemma_good_reads(&w1);
                    assert(list@.contains((handle, entry)));
                }
                let found: bool = match index.contains(&mut self.cache, root, entry.tag, handle) {
                    Ok(found) => found,
                    Err(e) => {
                        proof {
                            lemma_index_reads(&w1.cache, good(&w1.cache, &w1.recycler, w1.slots), r, entry.tag, e);
                        }
                        return Err(e);
                    },
                };
                proof {
                    lemma_known_kept(&w1, self);
                    assert(found == index_has(pages, r, entry.tag, handle));
                }
                if !found {
                    return Ok(false);
                }
            }
            i += 1;
        }
        let ghost w2 = *self;
        proof {
            self.lemma_known();
            self.lemma_readable();
        }
        let tags: Vec<(u32, u64)> = match self.list_tags() {
            Ok(tags) => tags,
            Err(e) => {
                proof {
                    reveal(sound_store);
                    lemma_good_reads(&w2);
                    let roots = index_roots(pages, r.index_root, r.index_depth as nat);
                    assert(roots(None) == Some((r.index_root, r.index_depth as nat)));
                    lemma_tree_reads(
                        &w2.cache,
                        good(&w2.cache, &w2.recycler, w2.slots),
                        SLOTS_PER_PAGE as nat,
                        r.index_root,
                        r.index_depth as nat,
                        e,
                    );
                }
                return Err(e);
            },
        };
        proof {
            lemma_known_kept(&w2, self);
        }
        let mut j: usize = 0;
        while j < tags.len()
            invariant
                j <= tags@.len(),
                w0 == *old(self),
                looked(&w0, self),
                self.known(),
                pages == w0.cache.contents(),
                r == w0.roots,
                forall|k: int| 0 <= k < j ==> members_tagged(pages, r, (#[trigger] tags@[k]).0),
            decreases tags@.len() - j,
        {
            let tag: u32 = tags[j].0;
            match self.audit_members(tag) {
                Ok(true) => {},
                Ok(false) => {
                    return Ok(false);
                },
                Err(e) => {
                    return Err(e);
                },
            }
            j += 1;
        }
        proof {
            lemma_tags_made(pages, r, list@, tags@);
        }
        Ok(true)
    }
}

/// What is known stays known.
proof fn lemma_known_kept(w0: &Workspace, w1: &Workspace)
    requires
        w0.known(),
        looked(w0, w1),
    ensures
        w1.known(),
{
    crate::audit::lemma_same_map(w0, w1);
    lemma_map_fine(w0);
    assert(opened(w1));
    lemma_map_fine(w1);
    assert(good(&w1.cache, &w1.recycler, w1.slots) =~= good(&w0.cache, &w0.recycler, w0.slots));
}

impl Workspace {
    /// Claim the pages of the freemap, the table, the index and the chains; says if
    /// all of it and the values are sound.
    fn audit_store(&mut self, claimed: &mut FxHashSet<u64>) -> (outcome: Result<
        Option<Vec<(u64, HandleEntry)>>,
        ChiselError,
    >)
        requires
            opened(old(self)),
            old(self).slots <= old(self).cache.watermark(),
            old(claimed)@ == Set::<u64>::empty(),
        ensures
            looked(old(self), final(self)),
            match outcome {
                Ok(Some(list)) => {
                    &&& final(claimed)@ == claimed_pages(old(self), list@)
                    &&& final(self).known()
                    &&& old(self).known()
                    &&& entries_listed(old(self).cache.contents(), old(self).roots, list@)
                },
                Ok(None) => !old(self).known(),
                Err(e) => e.spec_is_fatal() && !old(self).known(),
            },
    {
        let ghost w0 = *self;
        let ghost pages = self.cache.contents();
        let ghost r = self.roots;
        let ghost lo = self.slots as u64;
        let ghost hi = self.cache.watermark();
        match self.audit_map(claimed) {
            Ok(true) => {},
            Ok(false) => {
                return Ok(None);
            },
            Err(e) => {
                return Err(e);
            },
        }
        let ghost own = claimed@;
        proof {
            lemma_map_fine(&w0);
            assert(good(&w0.cache, &w0.recycler, w0.slots) =~= intact(pages, lo, hi, own)) by {
                assert forall|id: u64| good(&w0.cache, &w0.recycler, w0.slots).contains(id) == intact(
                    pages,
                    lo,
                    hi,
                    own,
                ).contains(id) by {
                    if unclaimed(lo, hi, own).contains(id) {
                        assert(pages.contains_key(id));
                    }
                }
            }
            lemma_parts(pages, r, lo, hi, own);
        }
        if !check_names(&self.roots.names) {
            return Err(ChiselError::CorruptSuperblock { defects: Vec::new() });
        }
        if self.roots.next_handle == 0 {
            return Ok(None);
        }
        match self.audit_table(claimed) {
            Ok(true) => {},
            Ok(false) => {
                return Ok(None);
            },
            Err(e) => {
                return Err(e);
            },
        }
        match self.audit_index(claimed) {
            Ok(true) => {},
            Ok(false) => {
                return Ok(None);
            },
            Err(e) => {
                return Err(e);
            },
        }
        let ghost w1 = *self;
        let list: Vec<(u64, HandleEntry)> = match self.list_entries() {
            Ok(list) => list,
            Err(e) => {
                proof {
                    let g = intact(pages, lo, hi, own);
                    assert forall|id: u64| #[trigger] g.contains(id) implies w1.cache.sound(id) by {
                        assert(pages.contains_key(id));
                    }
                    lemma_tree_reads(
                        &w1.cache,
                        g,
                        ENTRIES_PER_LEAF as nat,
                        r.table_root,
                        r.table_depth as nat,
                        e,
                    );
                }
                return Err(e);
            },
        };
        match self.audit_values(claimed, &list) {
            Ok(true) => {},
            Ok(false) => {
                return Ok(None);
            },
            Err(e) => {
                return Err(e);
            },
        }
        proof {
            lemma_known_kept(&w0, self);
        }
        Ok(Some(list))
    }

    /// Check everything that the superblock leads to, and count the values. Fails
    /// for good if something is not sound.
    pub fn audit(&mut self) -> (outcome: Result<(), ChiselError>)
        requires
            opened(old(self)),
        ensures
            final(self).cache.same_pages(&old(self).cache),
            final(self).cache.inv(),
            final(self).cache.bounded(),
            final(self).recycler == old(self).recycler,
            final(self).slots == old(self).slots,
            final(self).roots == old(self).roots,
            match outcome {
                Ok(_) => {
                    &&& fine(old(self)) && clean(final(self))
                    &&& orphans_listed(final(self), final(self).deferred@)
                },
                Err(e) => e.spec_is_fatal() && !fine(old(self)),
            },
    {
        let ghost w0 = *self;
        if self.slots as u64 > self.cache.next_page_id() {
            return Err(ChiselError::CorruptPage { page_id: 0 });
        }
        let mut claimed: FxHashSet<u64> = set_new();
        let list: Vec<(u64, HandleEntry)> = match self.audit_store(&mut claimed) {
            Ok(Some(list)) => list,
            Ok(None) => {
                return Err(ChiselError::CorruptPage { page_id: self.roots.table_root });
            },
            Err(e) => {
                return Err(e);
            },
        };
        let ghost w1 = *self;
        match self.audit_tags(&list) {
            Ok(true) => {},
            Ok(false) => {
                return Err(ChiselError::CorruptPage { page_id: self.roots.index_root });
            },
            Err(e) => {
                return Err(e);
            },
        }
        let ghost w2 = *self;
        self.live = count_values(&list, Ghost(w0.cache.contents()), Ghost(w0.roots));
        proof {
            w2.lemma_known();
            assert(self.usable());
            assert(self.holds(self.roots, self.freed@, self.cursor));
        }
        let ghost w3 = *self;
        proof {
            crate::audit::lemma_same_map(&w0, &w2);
            assert(map_pages(&w3) =~= map_pages(&w0));
            assert(w3.known());
        }
        let orphans: Vec<u64> = self.find_orphans(&claimed, Ghost(list@));
        proof {
            lemma_known_kept(&w3, self);
            self.lemma_known();
        }
        self.deferred = orphans;
        proof {
            lemma_none_noted(self.freed@, self.deferred@);
            assert(orphans_listed(self, self.deferred@)) by {
                assert forall|id: u64| #[trigger] self.deferred@.contains(id) <==> orphan(self, id) by {
                    assert(orphan(self, id) == orphan(&w3, id));
                }
            }
            assert forall|i: int| 0 <= i < self.deferred@.len() implies stray(
                &self.cache,
                &self.recycler,
                self.slots,
                self.roots,
                #[trigger] self.deferred@[i],
            ) by {
                assert(self.deferred@.contains(self.deferred@[i]));
                assert(orphan(self, self.deferred@[i]));
            }
            assert(self.usable());
            assert(self.holds(self.roots, self.freed@, self.cursor));
        }
        Ok(())
    }
}

} // verus!
