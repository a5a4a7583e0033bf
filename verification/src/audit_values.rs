//! Checking that every value can be read, from pages of its own.

use vstd::prelude::*;

use rustc_hash::{FxHashMap, FxHashSet};

use crate::audit::{intact, opened};
use crate::data_page::DataPage;
use crate::error::ChiselError;
use crate::fx::{map_new, set_contains, set_insert};
use crate::handle_table::{
    law_listing_is_lookup, table_lookup, HandleEntry, HandleFlags, ENTRIES_PER_LEAF,
};
use crate::listing::{lemma_same_tree_explains, tree_explains};
use crate::operations::{lemma_lists_chain, lists_chain};
use crate::overflow::Overflow;
use crate::page::{verify_checksum, PAGE_ID_NONE};
use crate::pool::{counts_ok, residents};
use crate::release::{count_of, count_up, on_page};
use crate::store::{entry_of, value_ok, value_pages, Roots};
use crate::workspace::{lemma_chain_reads, looked, Workspace};

verus! {

/// The entries of the handle table, in ascending order of their handles.
pub open spec fn entries_listed(pages: Map<u64, Seq<u8>>, r: Roots, list: Seq<(u64, HandleEntry)>) -> bool {
    &&& forall|h: u64, e: HandleEntry| #[trigger] list.contains((h, e)) <==> entry_of(pages, r, h) == Some(e)
    &&& forall|i: int, j: int| 0 <= i < j < list.len() ==> (#[trigger] list[i]).0 < (#[trigger] list[j]).0
}

/// The entries whose handles lie below the last 64-bit number.
fn entries_of(all: &Vec<(u64, HandleEntry)>) -> (list: Vec<(u64, HandleEntry)>)
    requires
        forall|i: int, j: int|
            0 <= i < j < all@.len() && all@[j].0 < u64::MAX ==> (#[trigger] all@[i]).0 < (#[trigger] all@[j]).0,
    ensures
        forall|h: u64, e: HandleEntry| #[trigger] list@.contains((h, e)) <==> h < u64::MAX && all@.contains((h, e)),
        forall|i: int, j: int| 0 <= i < j < list@.len() ==> (#[trigger] list@[i]).0 < (#[trigger] list@[j]).0,
        list@.len() <= all@.len(),
        list@.len() == all@.len() ==> forall|i: int| 0 <= i < all@.len() ==> (#[trigger] all@[i]).0 < u64::MAX,
{
    let mut list: Vec<(u64, HandleEntry)> = Vec::new();
    let mut i: usize = 0;
    while i < all.len()
        invariant
            i <= all@.len(),
            forall|i: int, j: int|
                0 <= i < j < all@.len() && all@[j].0 < u64::MAX ==> (#[trigger] all@[i]).0 < (#[trigger] all@[j]).0,
            forall|a: int, b: int| 0 <= a < b < list@.len() ==> (#[trigger] list@[a]).0 < (#[trigger] list@[b]).0,
            forall|a: int|
                0 <= a < list@.len() ==> (#[trigger] list@[a]).0 < u64::MAX && exists|j: int|
                    0 <= j < i && #[trigger] all@[j] == list@[a],
            forall|j: int| 0 <= j < i && (#[trigger] all@[j]).0 < u64::MAX ==> list@.contains(all@[j]),
            list@.len() <= i,
            list@.len() == i ==> forall|j: int| 0 <= j < i ==> (#[trigger] all@[j]).0 < u64::MAX,
        decreases all@.len() - i,
    {
        let (handle, entry): (u64, HandleEntry) = all[i];
        if handle < u64::MAX {
            let ghost before = list@;
            proof {
                assert forall|a: int| 0 <= a < before.len() implies (#[trigger] before[a]).0 < handle by {
                    let j = choose|j: int| 0 <= j < i && #[trigger] all@[j] == before[a];
                    assert(all@[j].0 < all@[i as int].0);
                }
            }
            list.push((handle, entry));
            proof {
                assert forall|a: int| 0 <= a < list@.len() implies (#[trigger] list@[a]).0 < u64::MAX && exists|j: int|
                    0 <= j < i + 1 && #[trigger] all@[j] == list@[a] by {
                    if a < before.len() {
                        assert(list@[a] == before[a]);
                        let j = choose|j: int| 0 <= j < i && #[trigger] all@[j] == before[a];
                        assert(all@[j] == list@[a]);
                    } else {
                        assert(all@[i as int] == list@[a]);
                    }
                }
                assert forall|j: int| 0 <= j < i + 1 && (#[trigger] all@[j]).0 < u64::MAX implies list@.contains(
                    all@[j],
                ) by {
                    if j < i {
                        let a = before.index_of(all@[j]);
                        assert(list@[a] == before[a]);
                    } else {
                        assert(list@[before.len() as int] == all@[j]);
                    }
                }
            }
        }
        i += 1;
    }
    assert forall|h: u64, e: HandleEntry| #[trigger] list@.contains((h, e)) <==> h < u64::MAX && all@.contains(
        (h, e),
    ) by {
        if list@.contains((h, e)) {
            let a = list@.index_of((h, e));
            let j = choose|j: int| 0 <= j < i && #[trigger] all@[j] == list@[a];
            assert(all@.contains((h, e)));
        }
        if h < u64::MAX && all@.contains((h, e)) {
            let j = all@.index_of((h, e));
            assert(list@.contains(all@[j]));
        }
    }
    list
}

impl Workspace {
    /// The entries of the handle table.
    pub fn list_entries(&mut self) -> (outcome: Result<Vec<(u64, HandleEntry)>, ChiselError>)
        requires
            old(self).readable(),
        ensures
            looked(old(self), final(self)),
            match outcome {
                Ok(list) => entries_listed(old(self).cache.contents(), old(self).roots, list@),
                Err(e) => old(self).roots.table_root != PAGE_ID_NONE && tree_explains(
                    &old(self).cache,
                    ENTRIES_PER_LEAF as nat,
                    old(self).roots.table_root,
                    old(self).roots.table_depth as nat,
                    e,
                ),
            },
    {
        let ghost w0 = *self;
        let root: u64 = self.roots.table_root;
        if root == PAGE_ID_NONE {
            return Ok(Vec::new());
        }
        let table = self.table();
        match table.iter_live(&mut self.cache, root) {
            Ok(all) => {
                let ghost pages = w0.cache.contents();
                let ghost d = w0.roots.table_depth as nat;
                proof {
                    law_listing_is_lookup(pages, root, d, all@);
                }
                let mut list: Vec<(u64, HandleEntry)> = entries_of(&all);
                let ghost most = list@;
                if list.len() < all.len() {
                    let ghost w1 = *self;
                    match table.lookup(&mut self.cache, root, u64::MAX) {
                        Ok(Some(entry)) => {
                            list.push((u64::MAX, entry));
                        },
                        Ok(None) => {},
                        Err(e) => {
                            proof {
                                lemma_same_tree_explains(&w0.cache, &w1.cache, ENTRIES_PER_LEAF as nat, root, d, e);
                            }
                            return Err(e);
                        },
                    }
                }
                proof {
                    let top = table_lookup(pages, root, d, u64::MAX);
                    assert(list@ == (match top {
                        Some(entry) => most.push((u64::MAX, entry)),
                        None => most,
                    })) by {
                        if top is Some && most.len() == all@.len() {
                            assert(all@.contains((u64::MAX, top->0)));
                            let i = all@.index_of((u64::MAX, top->0));
                            assert(all@[i].0 < u64::MAX);
                        }
                    }
                    assert forall|h: u64, e: HandleEntry| #[trigger] list@.contains((h, e)) <==> entry_of(
                        pages,
                        w0.roots,
                        h,
                    ) == Some(e) by {
                        assert(entry_of(pages, w0.roots, h) == table_lookup(pages, root, d, h));
                        if most.contains((h, e)) {
                            let i = most.index_of((h, e));
                            assert(list@[i] == (h, e));
                        }
                        if h == u64::MAX && top == Some(e) {
                            assert(list@[most.len() as int] == (h, e));
                        }
                        if list@.contains((h, e)) && !most.contains((h, e)) {
                            let i = list@.index_of((h, e));
                            assert(i == most.len());
                        }
                    }
                    assert forall|i: int, j: int| 0 <= i < j < list@.len() implies (#[trigger] list@[i]).0 < (
                    #[trigger] list@[j]).0 by {
                        assert(list@[i] == most[i]);
                        assert(most.contains((most[i].0, most[i].1)));
                    }
                }
                Ok(list)
            },
            Err(e) => Err(e),
        }
    }

    /// A page is intact, and nothing has claimed it.
    fn page_intact(&mut self, claimed: &FxHashSet<u64>, id: u64) -> (outcome: Result<bool, ChiselError>)
        requires
            opened(old(self)),
        ensures
            looked(old(self), final(self)),
            ({
                let good = intact(
                    old(self).cache.contents(),
                    old(self).slots as u64,
                    old(self).cache.watermark(),
                    claimed@,
                );
                match outcome {
                    Ok(sound) => sound == good.contains(id),
                    Err(e) => e.spec_is_fatal() && !good.contains(id),
                }
            }),
    {
        let lo: u64 = self.slots as u64;
        let hi: u64 = self.cache.next_page_id();
        if id < lo || id >= hi || set_contains(claimed, id) {
            return Ok(false);
        }
        proof {
            self.cache.lemma_explains(id);
            assert(self.cache.contents().contains_key(id));
        }
        match self.cache.get(id) {
            Ok(buf) => Ok(verify_checksum(buf)),
            Err(e) => Err(e),
        }
    }

    /// Claim the pages of the chain that holds a value; says if it is sound.
    fn claim_chain(&mut self, claimed: &mut FxHashSet<u64>, entry: &HandleEntry) -> (outcome: Result<bool, ChiselError>)
        requires
            opened(old(self)),
            entry.flags == HandleFlags::Overflow,
        ensures
            looked(old(self), final(self)),
            ({
                let pages = old(self).cache.contents();
                let good = intact(pages, old(self).slots as u64, old(self).cache.watermark(), old(claimed)@);
                let sound = value_ok(pages, good, *entry);
                match outcome {
                    Ok(true) => sound && final(claimed)@ == old(claimed)@.union(value_pages(pages, *entry)),
                    Ok(false) => !sound,
                    Err(e) => e.spec_is_fatal() && !sound,
                }
            }),
    {
        let ghost w0 = *self;
        let ghost pages = self.cache.contents();
        let ghost own = claimed@;
        let ghost good = intact(pages, self.slots as u64, self.cache.watermark(), own);
        proof {
            assert forall|id: u64| #[trigger] good.contains(id) implies w0.cache.sound(id) by {
                assert(pages.contains_key(id));
            }
        }
        match Overflow::read(&mut self.cache, entry.page_id) {
            Ok(_) => {},
            Err(e) => {
                proof {
                    if value_ok(pages, good, *entry) {
                        lemma_chain_reads(&w0.cache, good, entry.page_id, e);
                    }
                }
                return Err(e);
            },
        }
        let ghost c1 = self.cache;
        let chain: Vec<u64> = match Overflow::collect_chain_pages(&mut self.cache, entry.page_id) {
            Ok(chain) => chain,
            Err(e) => {
                proof {
                    if value_ok(pages, good, *entry) {
                        lemma_chain_reads(&c1, good, entry.page_id, e);
                    }
                }
                return Err(e);
            },
        };
        proof {
            lemma_lists_chain(pages, *entry, chain@);
        }
        let mut i: usize = 0;
        while i < chain.len()
            invariant
                i <= chain@.len(),
                w0 == *old(self),
                opened(&w0),
                looked(&w0, self),
                pages == w0.cache.contents(),
                own == old(claimed)@,
                claimed@ == own,
                good == intact(pages, w0.slots as u64, w0.cache.watermark(), own),
                lists_chain(pages, *entry, chain@),
                entry.flags == HandleFlags::Overflow,
                forall|k: int| 0 <= k < i ==> good.contains(#[trigger] chain@[k]),
            decreases chain@.len() - i,
        {
            proof {
                assert(chain@.contains(chain@[i as int]));
                assert(value_pages(pages, *entry).contains(chain@[i as int]));
            }
            match self.page_intact(claimed, chain[i]) {
                Ok(true) => {},
                Ok(false) => {
                    return Ok(false);
                },
                Err(e) => {
                    return Err(e);
                },
            }
            i += 1;
        }
        let mut j: usize = 0;
        while j < chain.len()
            invariant
                j <= chain@.len(),
                forall|id: u64| #[trigger]
                    claimed@.contains(id) <==> own.contains(id) || exists|k: int| 0 <= k < j && #[trigger] chain@[k] == id,
            decreases chain@.len() - j,
        {
            let ghost before = claimed@;
            set_insert(claimed, chain[j]);
            proof {
                assert forall|id: u64| #[trigger]
                    claimed@.contains(id) <==> own.contains(id) || exists|k: int|
                        0 <= k < j + 1 && #[trigger] chain@[k] == id by {
                    if before.contains(id) && !own.contains(id) {
                        let k = choose|k: int| 0 <= k < j && #[trigger] chain@[k] == id;
                        assert(chain@[k] == id);
                    }
                    if id == chain@[j as int] {
                        assert(chain@[j as int] == id);
                    }
                }
            }
            j += 1;
        }
        proof {
            assert forall|id: u64| #[trigger] value_pages(pages, *entry).contains(id) implies good.contains(id) by {
                assert(chain@.contains(id));
                let k = chain@.index_of(id);
                assert(good.contains(chain@[k]));
            }
            assert forall|id: u64| claimed@.contains(id) == own.union(value_pages(pages, *entry)).contains(id) by {
                if value_pages(pages, *entry).contains(id) {
                    assert(chain@.contains(id));
                    let k = chain@.index_of(id);
                    assert(chain@[k] == id);
                }
                if claimed@.contains(id) && !own.contains(id) {
                    let k = choose|k: int| 0 <= k < j && #[trigger] chain@[k] == id;
                    assert(chain@.contains(id));
                }
            }
            assert(claimed@ =~= own.union(value_pages(pages, *entry)));
        }
        Ok(true)
    }

    /// A value in a data page can be read, and nothing has claimed the page.
    fn slot_sound(&mut self, claimed: &FxHashSet<u64>, entry: &HandleEntry) -> (outcome: Result<bool, ChiselError>)
        requires
            opened(old(self)),
            entry.flags == HandleFlags::Live,
        ensures
            looked(old(self), final(self)),
            ({
                let pages = old(self).cache.contents();
                let good = intact(pages, old(self).slots as u64, old(self).cache.watermark(), claimed@);
                match outcome {
                    Ok(sound) => sound == value_ok(pages, good, *entry),
                    Err(e) => e.spec_is_fatal() && !value_ok(pages, good, *entry),
                }
            }),
    {
        let ghost pages = self.cache.contents();
        let ghost w0 = *self;
        assert(value_pages(pages, *entry).contains(entry.page_id));
        match self.page_intact(claimed, entry.page_id) {
            Ok(true) => {},
            Ok(false) => {
                return Ok(false);
            },
            Err(e) => {
                return Err(e);
            },
        }
        proof {
            self.cache.lemma_explains(entry.page_id);
            assert(self.cache.contents().contains_key(entry.page_id));
        }
        match self.cache.get(entry.page_id) {
            Ok(buf) => Ok(DataPage::read(buf, entry.slot_index).is_some()),
            Err(e) => Err(e),
        }
    }
}

/// The pages of the chains of the first `i` entries.
pub open spec fn chain_nodes(pages: Map<u64, Seq<u8>>, list: Seq<(u64, HandleEntry)>, i: int) -> Set<u64> {
    Set::new(
        |id: u64|
            exists|j: int|
                0 <= j < i && (#[trigger] list[j]).1.flags == HandleFlags::Overflow && value_pages(
                    pages,
                    list[j].1,
                ).contains(id),
    )
}

/// The chains of the first `i` entries have pages of their own.
pub open spec fn chains_sane(pages: Map<u64, Seq<u8>>, list: Seq<(u64, HandleEntry)>, good: Set<u64>, i: int) -> bool {
    &&& forall|j: int|
        0 <= j < i && (#[trigger] list[j]).1.flags == HandleFlags::Overflow ==> value_ok(pages, good, list[j].1)
    &&& forall|j: int, m: int|
        0 <= j < m < i && (#[trigger] list[j]).1.flags == HandleFlags::Overflow && (#[trigger] list[m]).1.flags
            == HandleFlags::Overflow ==> value_pages(pages, list[j].1).disjoint(value_pages(pages, list[m].1))
}

/// One more chain has pages of its own.
proof fn lemma_chain_claimed(
    pages: Map<u64, Seq<u8>>,
    list: Seq<(u64, HandleEntry)>,
    good: Set<u64>,
    i: int,
    left: Set<u64>,
)
    requires
        0 <= i < list.len(),
        chains_sane(pages, list, good, i),
        list[i].1.flags == HandleFlags::Overflow ==> value_ok(pages, left, list[i].1),
        left.subset_of(good),
        left.disjoint(chain_nodes(pages, list, i)),
    ensures
        chains_sane(pages, list, good, i + 1),
        list[i].1.flags != HandleFlags::Overflow ==> chain_nodes(pages, list, i + 1) == chain_nodes(pages, list, i),
        list[i].1.flags == HandleFlags::Overflow ==> chain_nodes(pages, list, i + 1) == chain_nodes(
            pages,
            list,
            i,
        ).union(value_pages(pages, list[i].1)),
{
    let before = chain_nodes(pages, list, i);
    let after = chain_nodes(pages, list, i + 1);
    let own = value_pages(pages, list[i].1);
    let over = list[i].1.flags == HandleFlags::Overflow;
    if over {
        assert forall|j: int, m: int| 0 <= j < m < i + 1 && (#[trigger] list[j]).1.flags == HandleFlags::Overflow && (
        #[trigger] list[m]).1.flags == HandleFlags::Overflow implies value_pages(pages, list[j].1).disjoint(
            value_pages(pages, list[m].1),
        ) by {
            if m == i {
                assert forall|id: u64| value_pages(pages, list[j].1).contains(id) implies before.contains(id) by {
                    assert(list[j].1.flags == HandleFlags::Overflow);
                }
            }
        }
    }
    assert forall|id: u64| after.contains(id) == (before.contains(id) || over && own.contains(id)) by {
        if after.contains(id) {
            let j = choose|j: int|
                0 <= j < i + 1 && (#[trigger] list[j]).1.flags == HandleFlags::Overflow && value_pages(
                    pages,
                    list[j].1,
                ).contains(id);
            if j < i {
                assert(list[j].1.flags == HandleFlags::Overflow);
            }
        }
        if before.contains(id) {
            let j = choose|j: int|
                0 <= j < i && (#[trigger] list[j]).1.flags == HandleFlags::Overflow && value_pages(
                    pages,
                    list[j].1,
                ).contains(id);
            assert(list[j].1.flags == HandleFlags::Overflow);
        }
        if over && own.contains(id) {
            assert(list[i].1.flags == HandleFlags::Overflow);
        }
    }
    if over {
        assert(after =~= before.union(own));
    } else {
        assert(after =~= before);
    }
}

/// What makes values sound, given the pages that nodes have.
pub open spec fn values_fine(pages: Map<u64, Seq<u8>>, r: Roots, lo: u64, hi: u64, claimed: Set<u64>) -> bool {
    &&& forall|h: u64| (#[trigger] entry_of(pages, r, h)) matches Some(e) ==> {
        &&& 0 < h < r.next_handle
        &&& value_ok(pages, intact(pages, lo, hi, claimed), e)
    }
    &&& forall|h1: u64, h2: u64|
        h1 != h2 ==> ((#[trigger] entry_of(pages, r, h1)) matches Some(e1) ==> ((#[trigger] entry_of(
            pages,
            r,
            h2,
        )) matches Some(e2) ==> e1.flags == HandleFlags::Overflow ==> value_pages(pages, e1).disjoint(
            value_pages(pages, e2),
        )))
}

/// In sound values the next chain has pages of its own.
proof fn lemma_chain_apart(
    pages: Map<u64, Seq<u8>>,
    r: Roots,
    list: Seq<(u64, HandleEntry)>,
    lo: u64,
    hi: u64,
    own: Set<u64>,
    i: int,
    n: int,
)
    requires
        entries_listed(pages, r, list),
        0 <= i < list.len(),
        0 <= n <= list.len(),
        list[i].1.flags == HandleFlags::Overflow ==> n <= i,
        values_fine(pages, r, lo, hi, own),
    ensures
        value_ok(pages, intact(pages, lo, hi, own.union(chain_nodes(pages, list, n))), list[i].1),
        0 < list[i].0 < r.next_handle,
{
    let e = list[i].1;
    assert(list.contains((list[i].0, e)));
    assert(entry_of(pages, r, list[i].0) == Some(e));
    let good = intact(pages, lo, hi, own);
    let left = intact(pages, lo, hi, own.union(chain_nodes(pages, list, n)));
    assert forall|id: u64| #[trigger] value_pages(pages, e).contains(id) implies left.contains(id) by {
        assert(good.contains(id));
        if chain_nodes(pages, list, n).contains(id) {
            let j = choose|j: int|
                0 <= j < n && (#[trigger] list[j]).1.flags == HandleFlags::Overflow && value_pages(
                    pages,
                    list[j].1,
                ).contains(id);
            assert(list.contains((list[j].0, list[j].1)));
            assert(entry_of(pages, r, list[j].0) == Some(list[j].1));
            assert(j != i);
            if j < i {
                assert(list[j].0 < list[i].0);
            } else {
                assert(list[i].0 < list[j].0);
            }
        }
    }
}

/// Values are sound if chains have pages of their own, and so have slots.
proof fn lemma_values_made(
    pages: Map<u64, Seq<u8>>,
    r: Roots,
    list: Seq<(u64, HandleEntry)>,
    lo: u64,
    hi: u64,
    own: Set<u64>,
)
    requires
        entries_listed(pages, r, list),
        chains_sane(pages, list, intact(pages, lo, hi, own), list.len() as int),
        forall|j: int|
            0 <= j < list.len() ==> {
                &&& 0 < (#[trigger] list[j]).0 < r.next_handle
                &&& list[j].1.flags == HandleFlags::Live ==> value_ok(
                    pages,
                    intact(pages, lo, hi, own.union(chain_nodes(pages, list, list.len() as int))),
                    list[j].1,
                )
            },
    ensures
        values_fine(pages, r, lo, hi, own),
{
    let n = list.len() as int;
    let good = intact(pages, lo, hi, own);
    let left = intact(pages, lo, hi, own.union(chain_nodes(pages, list, n)));
    assert forall|h: u64| (#[trigger] entry_of(pages, r, h)) matches Some(e) ==> {
        &&& 0 < h < r.next_handle
        &&& value_ok(pages, good, e)
    } by {
        if let Some(e) = entry_of(pages, r, h) {
            assert(list.contains((h, e)));
            let j = list.index_of((h, e));
            assert(list[j] == (h, e));
            assert(left.subset_of(good));
        }
    }
    assert forall|h1: u64, h2: u64| h1 != h2 implies ((#[trigger] entry_of(pages, r, h1)) matches Some(e1) ==> ((
    #[trigger] entry_of(pages, r, h2)) matches Some(e2) ==> e1.flags == HandleFlags::Overflow ==> value_pages(
        pages,
        e1,
    ).disjoint(value_pages(pages, e2)))) by {
        if entry_of(pages, r, h1) is Some && entry_of(pages, r, h2) is Some {
            let e1 = entry_of(pages, r, h1)->0;
            let e2 = entry_of(pages, r, h2)->0;
            assert(list.contains((h1, e1)) && list.contains((h2, e2)));
            let a = list.index_of((h1, e1));
            let b = list.index_of((h2, e2));
            assert(list[a] == (h1, e1) && list[b] == (h2, e2));
            if e1.flags == HandleFlags::Overflow {
                if e2.flags == HandleFlags::Overflow {
                    if a < b {
                        assert(list[a].1.flags == HandleFlags::Overflow && list[b].1.flags == HandleFlags::Overflow);
                    } else {
                        assert(list[b].1.flags == HandleFlags::Overflow && list[a].1.flags == HandleFlags::Overflow);
                    }
                } else {
                    assert forall|id: u64| value_pages(pages, e1).contains(id) && value_pages(pages, e2).contains(
                        id,
                    ) implies false by {
                        assert(left.contains(id));
                        assert(list[a].1.flags == HandleFlags::Overflow);
                        assert(chain_nodes(pages, list, n).contains(id));
                    }
                }
            }
        }
    }
}

impl Workspace {
    /// Claim the pages of all chains; says if every value is sound.
    pub fn audit_values(&mut self, claimed: &mut FxHashSet<u64>, list: &Vec<(u64, HandleEntry)>) -> (outcome: Result<
        bool,
        ChiselError,
    >)
        requires
            opened(old(self)),
            entries_listed(old(self).cache.contents(), old(self).roots, list@),
        ensures
            looked(old(self), final(self)),
            ({
                let sound = values_fine(
                    old(self).cache.contents(),
                    old(self).roots,
                    old(self).slots as u64,
                    old(self).cache.watermark(),
                    old(claimed)@,
                );
                match outcome {
                    Ok(true) => sound && final(claimed)@ == old(claimed)@.union(
                        chain_nodes(old(self).cache.contents(), list@, list@.len() as int),
                    ),
                    Ok(false) => !sound,
                    Err(e) => e.spec_is_fatal() && !sound,
                }
            }),
    {
        let ghost w0 = *self;
        let ghost pages = self.cache.contents();
        let ghost r = self.roots;
        let ghost own = claimed@;
        let ghost lo = self.slots as u64;
        let ghost hi = self.cache.watermark();
        let ghost good = intact(pages, lo, hi, own);
        let next: u64 = self.roots.next_handle;
        proof {
            assert(chain_nodes(pages, list@, 0) =~= Set::<u64>::empty());
            assert(claimed@ =~= own.union(chain_nodes(pages, list@, 0)));
        }
        let mut i: usize = 0;
        while i < list.len()
            invariant
                i <= list@.len(),
                w0 == *old(self),
                opened(&w0),
                looked(&w0, self),
                pages == w0.cache.contents(),
                r == w0.roots,
                next == r.next_handle,
                own == old(claimed)@,
                lo == w0.slots,
                hi == w0.cache.watermark(),
                good == intact(pages, lo, hi, own),
                entries_listed(pages, r, list@),
                forall|j: int| 0 <= j < i ==> 0 < (#[trigger] list@[j]).0 < r.next_handle,
                chains_sane(pages, list@, good, i as int),
                claimed@ == own.union(chain_nodes(pages, list@, i as int)),
            decreases list@.len() - i,
        {
            let (handle, entry): (u64, HandleEntry) = list[i];
            let ghost left = intact(pages, lo, hi, claimed@);
            proof {
                if values_fine(pages, r, lo, hi, own) {
                    lemma_chain_apart(
                        pages,
                        r,
                        list@,
                        lo,
                        hi,
                        own,
                        i as int,
                        if entry.flags == HandleFlags::Overflow {
                            i as int
                        } else {
                            0
                        },
                    );
                }
            }
            if handle == 0 || handle >= next {
                return Ok(false);
            }
            if matches!(entry.flags, HandleFlags::Overflow) {
                match self.claim_chain(claimed, &entry) {
                    Ok(true) => {},
                    Ok(false) => {
                        return Ok(false);
                    },
                    Err(e) => {
                        return Err(e);
                    },
                }
            }
            proof {
                lemma_chain_claimed(pages, list@, good, i as int, left);
                assert(claimed@ =~= own.union(chain_nodes(pages, list@, i + 1)));
            }
            i += 1;
        }
        let ghost n = list@.len() as int;
        let ghost left = intact(pages, lo, hi, claimed@);
        let mut j: usize = 0;
        while j < list.len()
            invariant
                j <= list@.len(),
                n == list@.len(),
                w0 == *old(self),
                opened(&w0),
                looked(&w0, self),
                pages == w0.cache.contents(),
                r == w0.roots,
                own == old(claimed)@,
                lo == w0.slots,
                hi == w0.cache.watermark(),
                entries_listed(pages, r, list@),
                claimed@ == own.union(chain_nodes(pages, list@, n)),
                left == intact(pages, lo, hi, claimed@),
                forall|k: int|
                    0 <= k < j && (#[trigger] list@[k]).1.flags == HandleFlags::Live ==> value_ok(
                        pages,
                        left,
                        list@[k].1,
                    ),
            decreases list@.len() - j,
        {
            let (_, entry): (u64, HandleEntry) = list[j];
            if matches!(entry.flags, HandleFlags::Live) {
                proof {
                    if values_fine(pages, r, lo, hi, own) {
                        lemma_chain_apart(pages, r, list@, lo, hi, own, j as int, n);
                    }
                }
                match self.slot_sound(claimed, &entry) {
                    Ok(true) => {},
                    Ok(false) => {
                        return Ok(false);
                    },
                    Err(e) => {
                        return Err(e);
                    },
                }
            }
            j += 1;
        }
        proof {
            lemma_values_made(pages, r, list@, lo, hi, own);
        }
        Ok(true)
    }
}

/// The handles among the first `i` entries whose values a page holds.
spec fn residents_upto(list: Seq<(u64, HandleEntry)>, i: int, p: u64) -> Set<u64> {
    Set::new(
        |h: u64|
            exists|k: int|
                0 <= k < i && (#[trigger] list[k]).0 == h && list[k].1.flags == HandleFlags::Live && list[k].1.page_id == p,
    )
}

/// One more entry.
proof fn lemma_residents_next(list: Seq<(u64, HandleEntry)>, i: int, p: u64)
    requires
        0 <= i < list.len(),
        forall|i: int, j: int| 0 <= i < j < list.len() ==> (#[trigger] list[i]).0 < (#[trigger] list[j]).0,
        residents_upto(list, i, p).finite(),
    ensures
        residents_upto(list, i + 1, p).finite(),
        residents_upto(list, i + 1, p).len() == residents_upto(list, i, p).len() + on_page(Some(list[i].1), p),
{
    let before = residents_upto(list, i, p);
    let after = residents_upto(list, i + 1, p);
    let h = list[i].0;
    assert(!before.contains(h)) by {
        if before.contains(h) {
            let k = choose|k: int|
                0 <= k < i && (#[trigger] list[k]).0 == h && list[k].1.flags == HandleFlags::Live && list[k].1.page_id == p;
            assert(list[k].0 < list[i].0);
        }
    }
    assert forall|x: u64| after.contains(x) == (before.contains(x) || x == h && on_page(Some(list[i].1), p) == 1) by {
        if after.contains(x) {
            let k = choose|k: int|
                0 <= k < i + 1 && (#[trigger] list[k]).0 == x && list[k].1.flags == HandleFlags::Live && list[k].1.page_id
                    == p;
            if k < i {
                assert(list[k].0 == x);
            }
        }
        if before.contains(x) {
            let k = choose|k: int|
                0 <= k < i && (#[trigger] list[k]).0 == x && list[k].1.flags == HandleFlags::Live && list[k].1.page_id == p;
            assert(list[k].0 == x);
        }
        if x == h && on_page(Some(list[i].1), p) == 1 {
            assert(list[i].0 == x);
        }
    }
    if on_page(Some(list[i].1), p) == 1 {
        assert(after =~= before.insert(h));
    } else {
        assert(after =~= before);
    }
}

/// Count the values on each data page.
pub fn count_values(list: &Vec<(u64, HandleEntry)>, Ghost(pages): Ghost<Map<u64, Seq<u8>>>, Ghost(r): Ghost<Roots>) -> (live: FxHashMap<
    u64,
    u64,
>)
    requires
        entries_listed(pages, r, list@),
    ensures
        counts_ok(live@, pages, r),
{
    let mut live: FxHashMap<u64, u64> = map_new();
    proof {
        assert forall|p: u64| #[trigger] count_of(live@, p) == residents_upto(list@, 0, p).len() && residents_upto(
            list@,
            0,
            p,
        ).finite() by {
            assert(residents_upto(list@, 0, p) =~= Set::<u64>::empty());
        }
    }
    let mut i: usize = 0;
    while i < list.len()
        invariant
            i <= list@.len(),
            entries_listed(pages, r, list@),
            forall|p: u64| #[trigger]
                count_of(live@, p) == residents_upto(list@, i as int, p).len() && residents_upto(
                    list@,
                    i as int,
                    p,
                ).finite(),
            forall|p: u64| #[trigger] count_of(live@, p) <= i,
            forall|p: u64| #[trigger] live@.contains_key(p) ==> live@[p] > 0,
        decreases list@.len() - i,
    {
        let (_, entry): (u64, HandleEntry) = list[i];
        let ghost before = live@;
        if matches!(entry.flags, HandleFlags::Live) {
            assert(count_of(live@, entry.page_id) <= i);
            count_up(&mut live, entry.page_id);
        }
        proof {
            assert forall|p: u64| #[trigger] count_of(live@, p) == residents_upto(list@, i + 1, p).len()
                && residents_upto(list@, i + 1, p).finite() && count_of(live@, p) <= i + 1 by {
                assert(count_of(before, p) == residents_upto(list@, i as int, p).len());
                lemma_residents_next(list@, i as int, p);
                assert(count_of(live@, p) == count_of(before, p) + on_page(Some(entry), p));
            }
        }
        i += 1;
    }
    proof {
        assert forall|p: u64| #[trigger] live@.contains_key(p) == (residents(pages, r, p).len() > 0) && (
        live@.contains_key(p) ==> live@[p] == residents(pages, r, p).len()) by {
            let a = residents_upto(list@, i as int, p);
            let b = residents(pages, r, p);
            assert(count_of(live@, p) == a.len());
            assert forall|h: u64| a.contains(h) == b.contains(h) by {
                if a.contains(h) {
                    let k = choose|k: int|
                        0 <= k < i && (#[trigger] list@[k]).0 == h && list@[k].1.flags == HandleFlags::Live
                            && list@[k].1.page_id == p;
                    assert(list@.contains((h, list@[k].1)));
                }
                if b.contains(h) {
                    let e = entry_of(pages, r, h)->0;
                    assert(list@.contains((h, e)));
                    let k = list@.index_of((h, e));
                    assert(list@[k].0 == h);
                }
            }
            assert(a =~= b);
        }
    }
    live
}

} // verus!
