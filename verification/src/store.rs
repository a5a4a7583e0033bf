//! What the pages of a database say, and which pages it uses.

use vstd::prelude::*;

use crate::names::names_apart;
use crate::data_page::slot_value;
use crate::forest::{lemma_forest_mono, lemma_nodes, lemma_same_headed, lemma_same_tree, nodes_of};
use crate::handle_table::{if_live, table_head, table_lookup, HandleEntry, HandleFlags, ENTRIES_PER_LEAF};
use crate::membership_index::{
    index_clean, index_in, index_ok, index_page, index_roots, inner_corrupt, inner_depth, inner_present, inner_root,
    is_member, tag_value,
};
use crate::overflow::{chain_complete, chain_end, chain_value, claimed_length, link, pages_for};
use crate::page::PAGE_ID_NONE;
use crate::radix::{is_tree, node_at, page_at, reach, same_on, tree_in};
use crate::radix_u64::{radix_head, radix_lookup, SLOTS_PER_PAGE};
use crate::spine::{lemma_tree_mono, tree_headed};
use crate::superblock::{NamedRoot, NAMED_ROOT_COUNT};

verus! {

/// Where the structures of a database begin.
#[derive(Debug, Clone, Copy)]
pub struct Roots {
    /// Root of the handle table.
    pub table_root: u64,
    /// Its depth.
    pub table_depth: u32,
    /// Root of the membership index.
    pub index_root: u64,
    /// Depth of its outer tree.
    pub index_depth: u32,
    /// The handle that the next value gets.
    pub next_handle: u64,
    /// The named roots.
    pub names: [NamedRoot; NAMED_ROOT_COUNT],
}

/// What a handle stands for.
pub ghost struct Record {
    /// The value.
    pub value: Seq<u8>,
    /// The tag; 0 if untagged.
    pub tag: u32,
    /// The client byte.
    pub byte: u8,
}

/// The entry of a handle.
pub open spec fn entry_of(pages: Map<u64, Seq<u8>>, r: Roots, h: u64) -> Option<HandleEntry> {
    table_lookup(pages, r.table_root, r.table_depth as nat, h)
}

/// The index says that a handle carries a tag.
pub open spec fn index_has(pages: Map<u64, Seq<u8>>, r: Roots, tag: u32, h: u64) -> bool {
    is_member(pages, r.index_root, r.index_depth as nat, tag, h)
}

/// The pages of the overflow chain that starts at `first`.
pub open spec fn chain_pages(pages: Map<u64, Seq<u8>>, first: u64) -> Set<u64> {
    Set::new(
        |id: u64|
            exists|i: nat|
                i < pages_for(claimed_length(page_at(pages, first))) && #[trigger] link(pages, first, i) == id,
    )
}

/// The pages that hold the value of an entry.
pub open spec fn value_pages(pages: Map<u64, Seq<u8>>, e: HandleEntry) -> Set<u64> {
    match e.flags {
        HandleFlags::Live => Set::<u64>::empty().insert(e.page_id),
        HandleFlags::Overflow => chain_pages(pages, e.page_id),
        HandleFlags::Deleted => Set::<u64>::empty(),
    }
}

/// The value of an entry.
pub open spec fn value_of(pages: Map<u64, Seq<u8>>, e: HandleEntry) -> Seq<u8> {
    match e.flags {
        HandleFlags::Live => match slot_value(page_at(pages, e.page_id), e.slot_index as int) {
            Some(value) => value,
            None => Seq::<u8>::empty(),
        },
        HandleFlags::Overflow => chain_value(pages, e.page_id, claimed_length(page_at(pages, e.page_id))),
        HandleFlags::Deleted => Seq::<u8>::empty(),
    }
}

/// The value of an entry can be read.
pub open spec fn value_ok(pages: Map<u64, Seq<u8>>, good: Set<u64>, e: HandleEntry) -> bool {
    &&& value_pages(pages, e).subset_of(good)
    &&& match e.flags {
        HandleFlags::Live => slot_value(page_at(pages, e.page_id), e.slot_index as int) is Some,
        HandleFlags::Overflow => chain_complete(pages, e.page_id),
        HandleFlags::Deleted => true,
    }
}

/// What an entry stands for.
pub open spec fn record_of(pages: Map<u64, Seq<u8>>, e: HandleEntry) -> Record {
    Record { value: value_of(pages, e), tag: e.tag, byte: e.client_byte }
}

/// What every handle stands for.
pub open spec fn database(pages: Map<u64, Seq<u8>>, r: Roots) -> Map<u64, Record> {
    Map::new(
        |h: u64| entry_of(pages, r, h) is Some,
        |h: u64| record_of(pages, entry_of(pages, r, h)->0),
    )
}

/// The pages of the handle table.
pub open spec fn table_nodes(pages: Map<u64, Seq<u8>>, r: Roots) -> Set<u64> {
    if r.table_root == PAGE_ID_NONE {
        Set::<u64>::empty()
    } else {
        nodes_of(pages, ENTRIES_PER_LEAF as nat, r.table_root, r.table_depth as nat)
    }
}

/// The pages of the membership index.
pub open spec fn index_nodes(pages: Map<u64, Seq<u8>>, r: Roots) -> Set<u64> {
    Set::new(
        |id: u64| exists|i: Option<u32>| #[trigger] index_page(pages, r.index_root, r.index_depth as nat, i, id),
    )
}

/// A page holds part of a value.
pub open spec fn holds_value(pages: Map<u64, Seq<u8>>, r: Roots, id: u64) -> bool {
    exists|h: u64| (#[trigger] entry_of(pages, r, h)) matches Some(e) && value_pages(pages, e).contains(id)
}

/// A page belongs to an overflow chain.
pub open spec fn in_chain(pages: Map<u64, Seq<u8>>, r: Roots, id: u64) -> bool {
    exists|h: u64|
        (#[trigger] entry_of(pages, r, h)) matches Some(e) && e.flags == HandleFlags::Overflow && value_pages(
            pages,
            e,
        ).contains(id)
}

/// A page is used by nothing.
pub open spec fn unused(pages: Map<u64, Seq<u8>>, r: Roots, id: u64) -> bool {
    &&& !table_nodes(pages, r).contains(id)
    &&& !index_nodes(pages, r).contains(id)
    &&& !holds_value(pages, r, id)
}

/// A page is a data page if it is anything.
pub open spec fn data_only(pages: Map<u64, Seq<u8>>, r: Roots, id: u64) -> bool {
    &&& !table_nodes(pages, r).contains(id)
    &&& !index_nodes(pages, r).contains(id)
    &&& !in_chain(pages, r, id)
}

/// The handle table is a tree of good pages.
pub open spec fn table_sound(pages: Map<u64, Seq<u8>>, good: Set<u64>, r: Roots) -> bool {
    r.table_root != PAGE_ID_NONE ==> {
        &&& r.table_root != 0
        &&& r.table_depth <= 6
        &&& tree_in(pages, ENTRIES_PER_LEAF as nat, r.table_root, r.table_depth as nat, good)
        &&& is_tree(pages, ENTRIES_PER_LEAF as nat, r.table_root, r.table_depth as nat)
        &&& tree_headed(pages, ENTRIES_PER_LEAF as nat, r.table_root, r.table_depth as nat, table_head())
    }
}

/// The membership index consists of trees of good pages.
pub open spec fn index_sound(pages: Map<u64, Seq<u8>>, good: Set<u64>, r: Roots) -> bool {
    &&& r.index_root != 0
    &&& r.index_depth <= 6
    &&& index_in(pages, r.index_root, r.index_depth as nat, good)
    &&& index_ok(pages, r.index_root, r.index_depth as nat)
    &&& index_clean(pages, r.index_root, r.index_depth as nat)
    &&& r.index_root != PAGE_ID_NONE ==> tree_headed(
        pages,
        SLOTS_PER_PAGE as nat,
        r.index_root,
        r.index_depth as nat,
        radix_head(),
    )
}

/// Every value can be read, and belongs to a handle that was given out.
pub open spec fn values_sound(pages: Map<u64, Seq<u8>>, good: Set<u64>, r: Roots) -> bool {
    forall|h: u64| (#[trigger] entry_of(pages, r, h)) matches Some(e) ==> {
        &&& 0 < h < r.next_handle
        &&& value_ok(pages, good, e)
    }
}

/// No page is used for two purposes; only data pages are shared, among values.
pub open spec fn apart(pages: Map<u64, Seq<u8>>, r: Roots) -> bool {
    &&& table_nodes(pages, r).disjoint(index_nodes(pages, r))
    &&& forall|h: u64| (#[trigger] entry_of(pages, r, h)) matches Some(e) ==> {
        &&& value_pages(pages, e).disjoint(table_nodes(pages, r))
        &&& value_pages(pages, e).disjoint(index_nodes(pages, r))
    }
    &&& forall|h1: u64, h2: u64|
        h1 != h2 ==> ((#[trigger] entry_of(pages, r, h1)) matches Some(e1) ==> ((#[trigger] entry_of(
            pages,
            r,
            h2,
        )) matches Some(e2) ==> e1.flags == HandleFlags::Overflow ==> value_pages(pages, e1).disjoint(
            value_pages(pages, e2),
        )))
}

/// The index lists exactly the handles that carry a tag.
pub open spec fn tags_agree(pages: Map<u64, Seq<u8>>, r: Roots) -> bool {
    forall|tag: u32, h: u64| #[trigger]
        index_has(pages, r, tag, h) <==> (entry_of(pages, r, h) matches Some(e) && e.tag == tag && tag != 0)
}

/// The structures of a database fit together, within good pages.
#[verifier::opaque]
pub open spec fn sound_store(pages: Map<u64, Seq<u8>>, good: Set<u64>, r: Roots) -> bool {
    &&& r.next_handle > 0
    &&& table_sound(pages, good, r)
    &&& index_sound(pages, good, r)
    &&& values_sound(pages, good, r)
    &&& apart(pages, r)
    &&& names_apart(r.names@)
}

/// The chain that starts at `first` depends on its own pages only.
pub proof fn lemma_same_chain(p0: Map<u64, Seq<u8>>, p1: Map<u64, Seq<u8>>, first: u64, good: Set<u64>)
    requires
        chain_complete(p0, first),
        chain_pages(p0, first).subset_of(good),
        same_on(p0, p1, good),
    ensures
        chain_complete(p1, first),
        chain_pages(p1, first) == chain_pages(p0, first),
        claimed_length(page_at(p1, first)) == claimed_length(page_at(p0, first)),
        chain_value(p1, first, claimed_length(page_at(p1, first))) == chain_value(
            p0,
            first,
            claimed_length(page_at(p0, first)),
        ),
        forall|i: nat|
            i < pages_for(claimed_length(page_at(p0, first))) ==> #[trigger] link(p1, first, i) == link(p0, first, i),
{
    let n = claimed_length(page_at(p0, first));
    let max = pages_for(n);
    assert(max > 0) by {
        reveal_with_fuel(chain_end, 1);
    }
    assert(link(p0, first, 0) == first);
    assert(chain_pages(p0, first).contains(first));
    assert(good.contains(first));
    lemma_same_links(p0, p1, first, good, max, 0);
    assert forall|i: nat| i < max implies #[trigger] link(p1, first, i) == link(p0, first, i) by {
        lemma_same_link(p0, p1, first, good, i);
    }
    assert forall|id: u64| chain_pages(p1, first).contains(id) == chain_pages(p0, first).contains(id) by {
        if chain_pages(p1, first).contains(id) {
            let i = choose|i: nat| i < max && #[trigger] link(p1, first, i) == id;
            assert(link(p0, first, i) == id);
        }
        if chain_pages(p0, first).contains(id) {
            let i = choose|i: nat| i < max && #[trigger] link(p0, first, i) == id;
            assert(link(p1, first, i) == id);
        }
    }
    assert(chain_pages(p1, first) =~= chain_pages(p0, first));
    let v0 = chain_value(p0, first, n);
    let v1 = chain_value(p1, first, n);
    assert forall|j: int| 0 <= j < n implies v0[j] == v1[j] by {
        crate::overflow::lemma_page_of(n, j as nat);
        let i = (j / crate::overflow::OVERFLOW_PAYLOAD as int) as nat;
        assert(link(p1, first, i) == link(p0, first, i));
        assert(chain_pages(p0, first).contains(link(p0, first, i)));
    }
    assert(v0 =~= v1);
}

/// One page of the chain.
proof fn lemma_same_link(p0: Map<u64, Seq<u8>>, p1: Map<u64, Seq<u8>>, first: u64, good: Set<u64>, i: nat)
    requires
        chain_pages(p0, first).subset_of(good),
        same_on(p0, p1, good),
        i < pages_for(claimed_length(page_at(p0, first))),
    ensures
        link(p1, first, i) == link(p0, first, i),
    decreases i,
{
    if i > 0 {
        let j = (i - 1) as nat;
        lemma_same_link(p0, p1, first, good, j);
        assert(chain_pages(p0, first).contains(link(p0, first, j)));
        assert(good.contains(link(p0, first, j)));
    }
}

/// The walk along the chain.
proof fn lemma_same_links(
    p0: Map<u64, Seq<u8>>,
    p1: Map<u64, Seq<u8>>,
    first: u64,
    good: Set<u64>,
    max: nat,
    i: nat,
)
    requires
        chain_pages(p0, first).subset_of(good),
        same_on(p0, p1, good),
        max == pages_for(claimed_length(page_at(p0, first))),
    ensures
        chain_end(p1, first, max, i) == chain_end(p0, first, max, i),
    decreases max - i,
{
    if i < max {
        lemma_same_link(p0, p1, first, good, i);
        assert(chain_pages(p0, first).contains(link(p0, first, i)));
        assert(good.contains(link(p0, first, i)));
        lemma_same_links(p0, p1, first, good, max, i + 1);
    }
}

/// The index depends on its own pages only.
pub proof fn lemma_same_index(
    p0: Map<u64, Seq<u8>>,
    p1: Map<u64, Seq<u8>>,
    root: u64,
    depth: nat,
    good: Set<u64>,
)
    requires
        index_in(p0, root, depth, good),
        same_on(p0, p1, good),
    ensures
        forall|tag: u32| #[trigger] tag_value(p1, root, depth, tag) == tag_value(p0, root, depth, tag),
        forall|tag: u32, h: u64| #[trigger]
            is_member(p1, root, depth, tag, h) == is_member(p0, root, depth, tag, h),
        forall|s: Set<u64>| #[trigger] index_in(p0, root, depth, s) ==> index_in(p1, root, depth, s),
        index_ok(p0, root, depth) ==> index_ok(p1, root, depth),
        index_clean(p0, root, depth) ==> index_clean(p1, root, depth),
        forall|i: Option<u32>, id: u64| #[trigger]
            index_page(p1, root, depth, i, id) == index_page(p0, root, depth, i, id),
{
    let c = SLOTS_PER_PAGE as nat;
    let r0 = index_roots(p0, root, depth);
    let r1 = index_roots(p1, root, depth);
    assert forall|tag: u32| #[trigger] tag_value(p1, root, depth, tag) == tag_value(p0, root, depth, tag) by {
        if root != PAGE_ID_NONE {
            assert(r0(None::<u32>) == Some((root, depth)));
            lemma_same_radix(p0, p1, root, depth, good, tag as u64);
        }
    }
    assert forall|i: Option<u32>| #[trigger] r1(i) == r0(i) by {
        if i is Some {
            assert(tag_value(p1, root, depth, i->0) == tag_value(p0, root, depth, i->0));
        }
    }
    assert forall|i: Option<u32>| (#[trigger] r0(i)) matches Some(p) ==> {
        &&& nodes_of(p1, c, p.0, p.1) == nodes_of(p0, c, p.0, p.1)
        &&& is_tree(p1, c, p.0, p.1) == is_tree(p0, c, p.0, p.1)
        &&& forall|s: Set<u64>| #[trigger] tree_in(p0, c, p.0, p.1, s) <==> tree_in(p1, c, p.0, p.1, s)
    } by {
        if r0(i) is Some {
            let p = r0(i)->0;
            lemma_same_tree(p0, p1, c, p.0, p.1, good);
        }
    }
    assert forall|tag: u32, h: u64| #[trigger]
        is_member(p1, root, depth, tag, h) == is_member(p0, root, depth, tag, h) by {
        let packed = tag_value(p0, root, depth, tag);
        assert(tag_value(p1, root, depth, tag) == packed);
        if inner_present(packed) {
            assert(r0(Some(tag)) == Some((inner_root(packed), inner_depth(packed))));
            lemma_same_radix(p0, p1, inner_root(packed), inner_depth(packed), good, h);
        }
    }
    assert forall|s: Set<u64>| #[trigger] index_in(p0, root, depth, s) implies index_in(p1, root, depth, s) by {
        assert forall|i: Option<u32>| (#[trigger] r1(i)) matches Some(p) ==> tree_in(p1, c, p.0, p.1, s) by {
            assert(r1(i) == r0(i));
            if r0(i) is Some {
                let p = r0(i)->0;
                assert(tree_in(p0, c, p.0, p.1, s));
            }
        }
    }
    if index_ok(p0, root, depth) {
        assert forall|i: Option<u32>, j: Option<u32>|
            i != j implies ((#[trigger] r1(i)) matches Some(p) ==> ((#[trigger] r1(j)) matches Some(q) ==> nodes_of(
            p1,
            c,
            p.0,
            p.1,
        ).disjoint(nodes_of(p1, c, q.0, q.1)))) by {
            assert(r1(i) == r0(i) && r1(j) == r0(j));
        }
        assert forall|i: Option<u32>| (#[trigger] r1(i)) matches Some(p) ==> is_tree(p1, c, p.0, p.1) by {
            assert(r1(i) == r0(i));
        }
    }
    assert forall|i: Option<u32>, id: u64| #[trigger]
        index_page(p1, root, depth, i, id) == index_page(p0, root, depth, i, id) by {
        assert(r1(i) == r0(i));
    }
    if index_clean(p0, root, depth) {
        assert forall|tag: u32| !inner_corrupt(#[trigger] tag_value(p1, root, depth, tag)) by {
            assert(!inner_corrupt(tag_value(p0, root, depth, tag)));
        }
    }
}

/// A value of a radix tree depends on the pages of the tree only.
proof fn lemma_same_radix(
    p0: Map<u64, Seq<u8>>,
    p1: Map<u64, Seq<u8>>,
    root: u64,
    depth: nat,
    good: Set<u64>,
    key: u64,
)
    requires
        tree_in(p0, SLOTS_PER_PAGE as nat, root, depth, good),
        same_on(p0, p1, good),
    ensures
        radix_lookup(p1, root, depth, key) == radix_lookup(p0, root, depth, key),
{
    let c = SLOTS_PER_PAGE as nat;
    lemma_same_tree(p0, p1, c, root, depth, good);
    if key < reach(c, depth) {
        assert(node_at(p0, c, root, depth, key as nat, 0) == node_at(p1, c, root, depth, key as nat, 0));
        if node_at(p0, c, root, depth, key as nat, 0) is Some {
            assert(good.contains(node_at(p0, c, root, depth, key as nat, 0)->0));
        }
    }
}

/// An entry of the handle table depends on the pages of the table only.
proof fn lemma_same_entry(p0: Map<u64, Seq<u8>>, p1: Map<u64, Seq<u8>>, good: Set<u64>, r: Roots, h: u64)
    requires
        table_sound(p0, good, r),
        same_on(p0, p1, good),
    ensures
        entry_of(p1, r, h) == entry_of(p0, r, h),
{
    let c = ENTRIES_PER_LEAF as nat;
    if r.table_root != PAGE_ID_NONE && h < reach(c, r.table_depth as nat) {
        lemma_same_tree(p0, p1, c, r.table_root, r.table_depth as nat, good);
        let d = r.table_depth as nat;
        assert(node_at(p0, c, r.table_root, d, h as nat, 0) == node_at(p1, c, r.table_root, d, h as nat, 0));
        if node_at(p0, c, r.table_root, d, h as nat, 0) is Some {
            assert(good.contains(node_at(p0, c, r.table_root, d, h as nat, 0)->0));
        }
    }
}

/// Page `x` keeps the values in its slots.
pub open spec fn slots_kept(before: Seq<u8>, after: Seq<u8>) -> bool {
    forall|s: int|
        0 <= s ==> ((#[trigger] slot_value(before, s)) matches Some(value) ==> slot_value(after, s) == Some(value))
}

/// Two page maps say the same about a database.
pub open spec fn same_store(p0: Map<u64, Seq<u8>>, p1: Map<u64, Seq<u8>>, r: Roots) -> bool {
    &&& forall|h: u64| #[trigger] entry_of(p1, r, h) == entry_of(p0, r, h)
    &&& forall|tag: u32, h: u64| #[trigger] index_has(p1, r, tag, h) == index_has(p0, r, tag, h)
    &&& forall|h: u64| (#[trigger] entry_of(p0, r, h)) matches Some(e) ==> {
        &&& value_of(p1, e) == value_of(p0, e)
        &&& value_pages(p1, e) == value_pages(p0, e)
    }
    &&& table_nodes(p1, r) == table_nodes(p0, r)
    &&& index_nodes(p1, r) == index_nodes(p0, r)
    &&& forall|id: u64| #[trigger] unused(p1, r, id) == unused(p0, r, id)
    &&& forall|id: u64| #[trigger] data_only(p1, r, id) == data_only(p0, r, id)
    &&& database(p1, r) == database(p0, r)
    &&& tags_agree(p1, r) == tags_agree(p0, r)
}

/// Changes to other pages, and values added to a data page, leave a database as
/// it is.
pub proof fn lemma_store_kept(
    p0: Map<u64, Seq<u8>>,
    p1: Map<u64, Seq<u8>>,
    good0: Set<u64>,
    good1: Set<u64>,
    r: Roots,
    x: u64,
)
    requires
        sound_store(p0, good0, r),
        good0.subset_of(good1),
        same_on(p0, p1, good0.remove(x)),
        good0.contains(x) ==> data_only(p0, r, x) && slots_kept(page_at(p0, x), page_at(p1, x)),
    ensures
        sound_store(p1, good1, r),
        same_store(p0, p1, r),
{
    reveal(sound_store);
    let rest = good0.remove(x);
    let c = ENTRIES_PER_LEAF as nat;
    let d = r.table_depth as nat;
    assert(same_on(p0, p0, good0));
    // The table.
    if r.table_root != PAGE_ID_NONE {
        lemma_nodes(p0, c, r.table_root, d);
        assert(table_nodes(p0, r).subset_of(rest));
        lemma_tree_mono(p0, c, r.table_root, d, table_nodes(p0, r), rest);
        lemma_same_tree(p0, p1, c, r.table_root, d, rest);
        lemma_same_headed(p0, p1, c, r.table_root, d, rest, table_head());
        lemma_tree_mono(p1, c, r.table_root, d, rest, good1);
    }
    assert(table_sound(p0, rest, r));
    assert forall|h: u64| #[trigger] entry_of(p1, r, h) == entry_of(p0, r, h) by {
        lemma_same_entry(p0, p1, rest, r, h);
    }
    // The index.
    let s = SLOTS_PER_PAGE as nat;
    let roots = index_roots(p0, r.index_root, r.index_depth as nat);
    assert forall|i: Option<u32>| (#[trigger] roots(i)) matches Some(p) ==> tree_in(p0, s, p.0, p.1, rest) by {
        if roots(i) is Some {
            let p = roots(i)->0;
            lemma_nodes(p0, s, p.0, p.1);
            assert forall|id: u64| nodes_of(p0, s, p.0, p.1).contains(id) implies #[trigger] rest.contains(id) by {
                assert(index_page(p0, r.index_root, r.index_depth as nat, i, id));
                assert(index_nodes(p0, r).contains(id));
                assert(tree_in(p0, s, p.0, p.1, good0));
            }
            lemma_tree_mono(p0, s, p.0, p.1, nodes_of(p0, s, p.0, p.1), rest);
        }
    }
    assert(index_in(p0, r.index_root, r.index_depth as nat, rest));
    lemma_same_index(p0, p1, r.index_root, r.index_depth as nat, rest);
    lemma_forest_mono(p1, s, index_roots(p1, r.index_root, r.index_depth as nat), rest, good1);
    if r.index_root != PAGE_ID_NONE {
        assert(roots(None::<u32>) == Some((r.index_root, r.index_depth as nat)));
        lemma_same_headed(p0, p1, s, r.index_root, r.index_depth as nat, rest, radix_head());
    }
    assert(index_nodes(p1, r) =~= index_nodes(p0, r)) by {
        assert forall|id: u64| index_nodes(p1, r).contains(id) == index_nodes(p0, r).contains(id) by {
            if index_nodes(p1, r).contains(id) {
                let i = choose|i: Option<u32>| #[trigger]
                    index_page(p1, r.index_root, r.index_depth as nat, i, id);
                assert(index_page(p0, r.index_root, r.index_depth as nat, i, id));
            }
            if index_nodes(p0, r).contains(id) {
                let i = choose|i: Option<u32>| #[trigger]
                    index_page(p0, r.index_root, r.index_depth as nat, i, id);
                assert(index_page(p1, r.index_root, r.index_depth as nat, i, id));
            }
        }
    }
    // The values.
    assert forall|h: u64| (#[trigger] entry_of(p0, r, h)) matches Some(e) ==> {
        &&& value_of(p1, e) == value_of(p0, e)
        &&& value_pages(p1, e) == value_pages(p0, e)
        &&& value_ok(p1, good1, e)
    } by {
        if entry_of(p0, r, h) is Some {
            let e = entry_of(p0, r, h)->0;
            assert(value_ok(p0, good0, e));
            match e.flags {
                HandleFlags::Live => {
                    assert(value_pages(p0, e).contains(e.page_id));
                    assert(good0.contains(e.page_id));
                    if e.page_id != x {
                        assert(rest.contains(e.page_id));
                    } else {
                        let v = slot_value(page_at(p0, x), e.slot_index as int);
                        assert(v is Some);
                    }
                },
                HandleFlags::Overflow => {
                    assert forall|id: u64| chain_pages(p0, e.page_id).contains(id) implies #[trigger] rest.contains(
                        id,
                    ) by {
                        assert(value_pages(p0, e).contains(id));
                        if id == x {
                            assert(in_chain(p0, r, x));
                        }
                    }
                    lemma_same_chain(p0, p1, e.page_id, rest);
                },
                HandleFlags::Deleted => {},
            }
        }
    }
    assert forall|id: u64| holds_value(p1, r, id) == holds_value(p0, r, id) by {
        if holds_value(p1, r, id) {
            let h = choose|h: u64|
                (#[trigger] entry_of(p1, r, h)) matches Some(e) && value_pages(p1, e).contains(id);
            assert(entry_of(p0, r, h) == entry_of(p1, r, h));
        }
        if holds_value(p0, r, id) {
            let h = choose|h: u64|
                (#[trigger] entry_of(p0, r, h)) matches Some(e) && value_pages(p0, e).contains(id);
            assert(entry_of(p0, r, h) == entry_of(p1, r, h));
        }
    }
    assert forall|id: u64| in_chain(p1, r, id) == in_chain(p0, r, id) by {
        if in_chain(p1, r, id) {
            let h = choose|h: u64|
                (#[trigger] entry_of(p1, r, h)) matches Some(e) && e.flags == HandleFlags::Overflow && value_pages(
                    p1,
                    e,
                ).contains(id);
            assert(entry_of(p0, r, h) == entry_of(p1, r, h));
        }
        if in_chain(p0, r, id) {
            let h = choose|h: u64|
                (#[trigger] entry_of(p0, r, h)) matches Some(e) && e.flags == HandleFlags::Overflow && value_pages(
                    p0,
                    e,
                ).contains(id);
            assert(entry_of(p0, r, h) == entry_of(p1, r, h));
        }
    }
    assert(apart(p1, r)) by {
        assert forall|h1: u64, h2: u64|
            h1 != h2 implies ((#[trigger] entry_of(p1, r, h1)) matches Some(e1) ==> ((#[trigger] entry_of(
            p1,
            r,
            h2,
        )) matches Some(e2) ==> e1.flags == HandleFlags::Overflow ==> value_pages(p1, e1).disjoint(
            value_pages(p1, e2),
        ))) by {
            assert(entry_of(p0, r, h1) == entry_of(p1, r, h1) && entry_of(p0, r, h2) == entry_of(p1, r, h2));
        }
        assert forall|h: u64| (#[trigger] entry_of(p1, r, h)) matches Some(e) ==> {
            &&& value_pages(p1, e).disjoint(table_nodes(p1, r))
            &&& value_pages(p1, e).disjoint(index_nodes(p1, r))
        } by {
            assert(entry_of(p0, r, h) == entry_of(p1, r, h));
        }
    }
    assert(values_sound(p1, good1, r)) by {
        assert forall|h: u64| (#[trigger] entry_of(p1, r, h)) matches Some(e) ==> {
            &&& 0 < h < r.next_handle
            &&& value_ok(p1, good1, e)
        } by {
            assert(entry_of(p0, r, h) == entry_of(p1, r, h));
        }
    }
    assert(database(p1, r) =~= database(p0, r)) by {
        assert forall|h: u64| #[trigger] database(p1, r).contains_key(h) == database(p0, r).contains_key(h) && (database(
            p0,
            r,
        ).contains_key(h) ==> database(p1, r)[h] == database(p0, r)[h]) by {
            assert(entry_of(p0, r, h) == entry_of(p1, r, h));
        }
    }
    assert(tags_agree(p1, r) == tags_agree(p0, r)) by {
        assert forall|tag: u32, h: u64| #[trigger] index_has(p1, r, tag, h) == index_has(p0, r, tag, h) by {}
        if tags_agree(p0, r) {
            assert forall|tag: u32, h: u64| #[trigger]
                index_has(p1, r, tag, h) <==> (entry_of(p1, r, h) matches Some(e) && e.tag == tag && tag != 0) by {
                assert(index_has(p0, r, tag, h) == index_has(p1, r, tag, h));
                assert(entry_of(p0, r, h) == entry_of(p1, r, h));
            }
        }
        if tags_agree(p1, r) {
            assert forall|tag: u32, h: u64| #[trigger]
                index_has(p0, r, tag, h) <==> (entry_of(p0, r, h) matches Some(e) && e.tag == tag && tag != 0) by {
                assert(index_has(p0, r, tag, h) == index_has(p1, r, tag, h));
                assert(entry_of(p0, r, h) == entry_of(p1, r, h));
            }
        }
    }
}

/// The index lies within its own pages.
pub proof fn lemma_index_nodes(pages: Map<u64, Seq<u8>>, r: Roots)
    ensures
        index_in(pages, r.index_root, r.index_depth as nat, index_nodes(pages, r)),
        forall|good: Set<u64>| #[trigger]
            index_in(pages, r.index_root, r.index_depth as nat, good) ==> index_nodes(pages, r).subset_of(good),
{
    let s = SLOTS_PER_PAGE as nat;
    let roots = index_roots(pages, r.index_root, r.index_depth as nat);
    assert forall|i: Option<u32>| (#[trigger] roots(i)) matches Some(p) ==> tree_in(
        pages,
        s,
        p.0,
        p.1,
        index_nodes(pages, r),
    ) by {
        if roots(i) is Some {
            let p = roots(i)->0;
            lemma_nodes(pages, s, p.0, p.1);
            assert forall|id: u64| nodes_of(pages, s, p.0, p.1).contains(id) implies #[trigger] index_nodes(
                pages,
                r,
            ).contains(id) by {
                assert(index_page(pages, r.index_root, r.index_depth as nat, i, id));
            }
            lemma_tree_mono(pages, s, p.0, p.1, nodes_of(pages, s, p.0, p.1), index_nodes(pages, r));
        }
    }
    assert forall|good: Set<u64>| #[trigger]
        index_in(pages, r.index_root, r.index_depth as nat, good) implies index_nodes(pages, r).subset_of(good) by {
        assert forall|id: u64| index_nodes(pages, r).contains(id) implies #[trigger] good.contains(id) by {
            let i = choose|i: Option<u32>| #[trigger] index_page(pages, r.index_root, r.index_depth as nat, i, id);
            let p = roots(i)->0;
            assert(tree_in(pages, s, p.0, p.1, good));
            lemma_nodes(pages, s, p.0, p.1);
        }
    }
}

/// Everything that a sound database uses lies within the good pages.
pub proof fn lemma_used_good(pages: Map<u64, Seq<u8>>, good: Set<u64>, r: Roots)
    requires
        sound_store(pages, good, r),
    ensures
        table_nodes(pages, r).subset_of(good),
        index_nodes(pages, r).subset_of(good),
        forall|id: u64| #[trigger] holds_value(pages, r, id) ==> good.contains(id),
        forall|id: u64| !good.contains(id) ==> #[trigger] unused(pages, r, id),
        forall|id: u64| !good.contains(id) ==> #[trigger] data_only(pages, r, id),
{
    reveal(sound_store);
    lemma_index_nodes(pages, r);
    if r.table_root != PAGE_ID_NONE {
        lemma_nodes(pages, ENTRIES_PER_LEAF as nat, r.table_root, r.table_depth as nat);
    }
    assert forall|id: u64| #[trigger] holds_value(pages, r, id) implies good.contains(id) by {
        let h = choose|h: u64|
            (#[trigger] entry_of(pages, r, h)) matches Some(e) && value_pages(pages, e).contains(id);
        assert(value_ok(pages, good, entry_of(pages, r, h)->0));
    }
    assert forall|id: u64| in_chain(pages, r, id) implies holds_value(pages, r, id) by {
        let h = choose|h: u64|
            (#[trigger] entry_of(pages, r, h)) matches Some(e) && e.flags == HandleFlags::Overflow && value_pages(
                pages,
                e,
            ).contains(id);
        assert(entry_of(pages, r, h) is Some);
    }
}

/// The part of the roots that says where pages are.
pub open spec fn same_places(r0: Roots, r1: Roots) -> bool {
    &&& r1.table_root == r0.table_root
    &&& r1.table_depth == r0.table_depth
    &&& r1.index_root == r0.index_root
    &&& r1.index_depth == r0.index_depth
    &&& r1.next_handle == r0.next_handle
}

/// The names of a database do not matter for its pages.
pub proof fn lemma_same_places(pages: Map<u64, Seq<u8>>, good: Set<u64>, r0: Roots, r1: Roots)
    requires
        sound_store(pages, good, r0),
        same_places(r0, r1),
        names_apart(r0.names@) ==> names_apart(r1.names@),
    ensures
        sound_store(pages, good, r1),
        database(pages, r1) == database(pages, r0),
        tags_agree(pages, r1) == tags_agree(pages, r0),
        forall|id: u64| #[trigger] unused(pages, r1, id) == unused(pages, r0, id),
        forall|id: u64| #[trigger] data_only(pages, r1, id) == data_only(pages, r0, id),
        forall|h: u64| #[trigger] entry_of(pages, r1, h) == entry_of(pages, r0, h),
{
    reveal(sound_store);
    assert forall|h: u64| #[trigger] entry_of(pages, r1, h) == entry_of(pages, r0, h) by {}
    assert forall|tag: u32, h: u64| #[trigger] index_has(pages, r1, tag, h) == index_has(pages, r0, tag, h) by {}
    assert(table_nodes(pages, r1) == table_nodes(pages, r0));
    assert(index_nodes(pages, r1) =~= index_nodes(pages, r0));
    assert(database(pages, r1) =~= database(pages, r0));
    assert forall|id: u64| holds_value(pages, r1, id) == holds_value(pages, r0, id) by {
        if holds_value(pages, r0, id) {
            let h = choose|h: u64|
                (#[trigger] entry_of(pages, r0, h)) matches Some(e) && value_pages(pages, e).contains(id);
            assert(entry_of(pages, r1, h) is Some);
        }
        if holds_value(pages, r1, id) {
            let h = choose|h: u64|
                (#[trigger] entry_of(pages, r1, h)) matches Some(e) && value_pages(pages, e).contains(id);
            assert(entry_of(pages, r0, h) is Some);
        }
    }
    assert forall|id: u64| in_chain(pages, r1, id) == in_chain(pages, r0, id) by {
        if in_chain(pages, r0, id) {
            let h = choose|h: u64|
                (#[trigger] entry_of(pages, r0, h)) matches Some(e) && e.flags == HandleFlags::Overflow && value_pages(
                    pages,
                    e,
                ).contains(id);
            assert(entry_of(pages, r1, h) is Some);
        }
        if in_chain(pages, r1, id) {
            let h = choose|h: u64|
                (#[trigger] entry_of(pages, r1, h)) matches Some(e) && e.flags == HandleFlags::Overflow && value_pages(
                    pages,
                    e,
                ).contains(id);
            assert(entry_of(pages, r0, h) is Some);
        }
    }
    assert(apart(pages, r1)) by {
        assert forall|h1: u64, h2: u64|
            h1 != h2 implies ((#[trigger] entry_of(pages, r1, h1)) matches Some(e1) ==> ((#[trigger] entry_of(
            pages,
            r1,
            h2,
        )) matches Some(e2) ==> e1.flags == HandleFlags::Overflow ==> value_pages(pages, e1).disjoint(
            value_pages(pages, e2),
        ))) by {
            assert(entry_of(pages, r0, h1) == entry_of(pages, r1, h1));
            assert(entry_of(pages, r0, h2) == entry_of(pages, r1, h2));
        }
        assert forall|h: u64| (#[trigger] entry_of(pages, r1, h)) matches Some(e) ==> {
            &&& value_pages(pages, e).disjoint(table_nodes(pages, r1))
            &&& value_pages(pages, e).disjoint(index_nodes(pages, r1))
        } by {
            assert(entry_of(pages, r0, h) == entry_of(pages, r1, h));
        }
    }
    assert(values_sound(pages, good, r1)) by {
        assert forall|h: u64| (#[trigger] entry_of(pages, r1, h)) matches Some(e) ==> {
            &&& 0 < h < r1.next_handle
            &&& value_ok(pages, good, e)
        } by {
            assert(entry_of(pages, r0, h) == entry_of(pages, r1, h));
        }
    }
    assert(tags_agree(pages, r1) == tags_agree(pages, r0)) by {
        if tags_agree(pages, r0) {
            assert forall|tag: u32, h: u64| #[trigger]
                index_has(pages, r1, tag, h) <==> (entry_of(pages, r1, h) matches Some(e) && e.tag == tag && tag
                    != 0) by {
                assert(index_has(pages, r0, tag, h) == index_has(pages, r1, tag, h));
                assert(entry_of(pages, r0, h) == entry_of(pages, r1, h));
            }
        }
        if tags_agree(pages, r1) {
            assert forall|tag: u32, h: u64| #[trigger]
                index_has(pages, r0, tag, h) <==> (entry_of(pages, r0, h) matches Some(e) && e.tag == tag && tag
                    != 0) by {
                assert(index_has(pages, r0, tag, h) == index_has(pages, r1, tag, h));
                assert(entry_of(pages, r0, h) == entry_of(pages, r1, h));
            }
        }
    }
}

/// The value pages of an entry are those of no table, index or other chain.
pub open spec fn entry_apart(
    pages: Map<u64, Seq<u8>>,
    r: Roots,
    fresh: Set<u64>,
    h: u64,
    entry: HandleEntry,
) -> bool {
    &&& value_pages(pages, entry).disjoint(fresh)
    &&& value_pages(pages, entry).disjoint(table_nodes(pages, r))
    &&& value_pages(pages, entry).disjoint(index_nodes(pages, r))
    &&& forall|k: u64|
        k != h ==> ((#[trigger] entry_of(pages, r, k)) matches Some(e) ==> (entry.flags == HandleFlags::Overflow
            || e.flags == HandleFlags::Overflow) ==> value_pages(pages, entry).disjoint(value_pages(pages, e)))
}

/// Changing one entry of the handle table by copying its path to fresh pages.
pub proof fn lemma_table_set(
    p0: Map<u64, Seq<u8>>,
    p1: Map<u64, Seq<u8>>,
    good0: Set<u64>,
    good1: Set<u64>,
    r0: Roots,
    r1: Roots,
    fresh: Set<u64>,
    h: u64,
    entry: HandleEntry,
)
    requires
        sound_store(p0, good0, r0),
        !good0.contains(PAGE_ID_NONE),
        same_on(p0, p1, good0),
        good0.subset_of(good1),
        fresh.subset_of(good1),
        fresh.disjoint(good0),
        r1.index_root == r0.index_root,
        r1.index_depth == r0.index_depth,
        r1.next_handle >= r0.next_handle,
        r1.names == r0.names,
        r1.table_root != PAGE_ID_NONE,
        r1.table_root != 0,
        r1.table_depth <= 6,
        tree_in(
            p1,
            ENTRIES_PER_LEAF as nat,
            r1.table_root,
            r1.table_depth as nat,
            table_nodes(p0, r0).union(fresh),
        ),
        is_tree(p1, ENTRIES_PER_LEAF as nat, r1.table_root, r1.table_depth as nat),
        tree_headed(p1, ENTRIES_PER_LEAF as nat, r1.table_root, r1.table_depth as nat, table_head()),
        forall|k: u64| #[trigger]
            entry_of(p1, r1, k) == (if k == h {
                if_live(entry)
            } else {
                entry_of(p0, r0, k)
            }),
        entry.flags != HandleFlags::Deleted ==> {
            &&& 0 < h < r1.next_handle
            &&& value_ok(p1, good1, entry)
            &&& entry_apart(p1, r0, fresh, h, entry)
        },
    ensures
        sound_store(p1, good1, r1),
        database(p1, r1) == (if entry.flags != HandleFlags::Deleted {
            database(p0, r0).insert(h, record_of(p1, entry))
        } else {
            database(p0, r0).remove(h)
        }),
        forall|tag: u32, k: u64| #[trigger] index_has(p1, r1, tag, k) == index_has(p0, r0, tag, k),
        table_nodes(p1, r1).subset_of(table_nodes(p0, r0).union(fresh)),
        index_nodes(p1, r1) == index_nodes(p0, r0),
        forall|id: u64|
            unused(p0, r0, id) && !fresh.contains(id) && !value_pages(p1, entry).contains(id) ==> #[trigger] unused(
                p1,
                r1,
                id,
            ),
        forall|id: u64|
            data_only(p0, r0, id) && !fresh.contains(id) && (entry.flags != HandleFlags::Overflow || !value_pages(
                p1,
                entry,
            ).contains(id)) ==> #[trigger] data_only(p1, r1, id),
        forall|id: u64|
            table_nodes(p0, r0).contains(id) && !table_nodes(p1, r1).contains(id) && (entry.flags
                != HandleFlags::Deleted ==> !value_pages(p1, entry).contains(id)) ==> #[trigger] unused(p1, r1, id),
        same_store(p0, p1, r0),
{
    lemma_store_kept(p0, p1, good0, good1, r0, PAGE_ID_NONE);
    lemma_used_good(p1, good1, r0);
    lemma_used_good(p0, good0, r0);
    reveal(sound_store);
    let c = ENTRIES_PER_LEAF as nat;
    let d1 = r1.table_depth as nat;
    lemma_nodes(p1, c, r1.table_root, d1);
    let old_nodes = table_nodes(p0, r0);
    assert(table_nodes(p1, r1).subset_of(old_nodes.union(fresh)));
    lemma_tree_mono(p1, c, r1.table_root, d1, old_nodes.union(fresh), good1);
    assert(index_nodes(p1, r1) =~= index_nodes(p1, r0));
    assert forall|tag: u32, k: u64| #[trigger] index_has(p1, r1, tag, k) == index_has(p0, r0, tag, k) by {
        assert(index_has(p1, r0, tag, k) == index_has(p0, r0, tag, k));
    }
    assert(index_sound(p1, good1, r1));
    // Old values are apart from the new table.
    assert forall|k: u64| k != h implies ((#[trigger] entry_of(p1, r1, k)) matches Some(e) ==> {
        &&& entry_of(p1, r0, k) == Some(e)
        &&& value_pages(p1, e) == value_pages(p0, e)
        &&& value_pages(p1, e).disjoint(fresh)
    }) by {
        if entry_of(p1, r1, k) is Some {
            let e = entry_of(p1, r1, k)->0;
            assert(entry_of(p0, r0, k) == Some(e));
            assert(entry_of(p1, r0, k) == Some(e));
            assert(value_ok(p0, good0, e));
        }
    }
    assert(values_sound(p1, good1, r1)) by {
        assert forall|k: u64| (#[trigger] entry_of(p1, r1, k)) matches Some(e) ==> {
            &&& 0 < k < r1.next_handle
            &&& value_ok(p1, good1, e)
        } by {
            if k != h && entry_of(p1, r1, k) is Some {
                assert(entry_of(p1, r0, k) is Some);
            }
        }
    }
    assert(apart(p1, r1)) by {
        assert forall|h1: u64, h2: u64|
            h1 != h2 implies ((#[trigger] entry_of(p1, r1, h1)) matches Some(e1) ==> ((#[trigger] entry_of(
            p1,
            r1,
            h2,
        )) matches Some(e2) ==> e1.flags == HandleFlags::Overflow ==> value_pages(p1, e1).disjoint(
            value_pages(p1, e2),
        ))) by {
            if entry_of(p1, r1, h1) is Some && entry_of(p1, r1, h2) is Some {
                if h1 == h {
                    assert(entry_of(p1, r0, h2) == entry_of(p1, r1, h2));
                } else if h2 == h {
                    assert(entry_of(p1, r0, h1) == entry_of(p1, r1, h1));
                } else {
                    assert(entry_of(p1, r0, h1) == entry_of(p1, r1, h1));
                    assert(entry_of(p1, r0, h2) == entry_of(p1, r1, h2));
                }
            }
        }
        assert forall|k: u64| (#[trigger] entry_of(p1, r1, k)) matches Some(e) ==> {
            &&& value_pages(p1, e).disjoint(table_nodes(p1, r1))
            &&& value_pages(p1, e).disjoint(index_nodes(p1, r1))
        } by {
            if k != h && entry_of(p1, r1, k) is Some {
                assert(entry_of(p1, r0, k) == entry_of(p1, r1, k));
            }
        }
        assert(table_nodes(p1, r1).disjoint(index_nodes(p1, r1))) by {
            assert(index_nodes(p0, r0).subset_of(good0));
        }
    }
    assert(table_sound(p1, good1, r1));
    let want = if entry.flags != HandleFlags::Deleted {
        database(p0, r0).insert(h, record_of(p1, entry))
    } else {
        database(p0, r0).remove(h)
    };
    assert(database(p1, r1) =~= want) by {
        assert forall|k: u64| #[trigger] database(p1, r1).contains_key(k) == want.contains_key(k) && (want.contains_key(
            k,
        ) ==> database(p1, r1)[k] == want[k]) by {
            assert(entry_of(p1, r1, k) == (if k == h {
                if_live(entry)
            } else {
                entry_of(p0, r0, k)
            }));
            if k != h {
                assert(database(p1, r0).contains_key(k) == database(p0, r0).contains_key(k));
                assert(entry_of(p1, r0, k) == entry_of(p0, r0, k));
            }
        }
    }
    assert forall|id: u64|
        unused(p0, r0, id) && !fresh.contains(id) && !value_pages(p1, entry).contains(id) implies #[trigger] unused(
        p1,
        r1,
        id,
    ) by {
        lemma_not_held(p0, p1, r0, r1, h, entry, id);
    }
    assert forall|id: u64|
        table_nodes(p0, r0).contains(id) && !table_nodes(p1, r1).contains(id) && (entry.flags != HandleFlags::Deleted
            ==> !value_pages(p1, entry).contains(id)) implies #[trigger] unused(p1, r1, id) by {
        assert(!holds_value(p0, r0, id)) by {
            if holds_value(p0, r0, id) {
                let k = choose|k: u64|
                    (#[trigger] entry_of(p0, r0, k)) matches Some(e) && value_pages(p0, e).contains(id);
                assert(entry_of(p0, r0, k) is Some);
            }
        }
        lemma_not_held(p0, p1, r0, r1, h, entry, id);
    }
    assert forall|id: u64|
        data_only(p0, r0, id) && !fresh.contains(id) && (entry.flags != HandleFlags::Overflow || !value_pages(
            p1,
            entry,
        ).contains(id)) implies #[trigger] data_only(p1, r1, id) by {
        if in_chain(p1, r1, id) {
            let k = choose|k: u64|
                (#[trigger] entry_of(p1, r1, k)) matches Some(e) && e.flags == HandleFlags::Overflow && value_pages(
                    p1,
                    e,
                ).contains(id);
            if k != h {
                assert(entry_of(p0, r0, k) == entry_of(p1, r1, k));
                assert(in_chain(p0, r0, id));
            }
        }
    }
}

/// No value but the new one has come to lie in a page.
proof fn lemma_not_held(
    p0: Map<u64, Seq<u8>>,
    p1: Map<u64, Seq<u8>>,
    r0: Roots,
    r1: Roots,
    h: u64,
    entry: HandleEntry,
    id: u64,
)
    requires
        !holds_value(p0, r0, id),
        entry.flags != HandleFlags::Deleted ==> !value_pages(p1, entry).contains(id),
        forall|k: u64| #[trigger]
            entry_of(p1, r1, k) == (if k == h {
                if_live(entry)
            } else {
                entry_of(p0, r0, k)
            }),
        forall|k: u64|
            k != h ==> ((#[trigger] entry_of(p1, r1, k)) matches Some(e) ==> value_pages(p1, e) == value_pages(p0, e)),
    ensures
        !holds_value(p1, r1, id),
{
    if holds_value(p1, r1, id) {
        let k = choose|k: u64| (#[trigger] entry_of(p1, r1, k)) matches Some(e) && value_pages(p1, e).contains(id);
        if k != h {
            assert(entry_of(p0, r0, k) == entry_of(p1, r1, k));
        }
    }
}

/// Changing the membership index by copying paths to fresh pages.
pub proof fn lemma_index_set(
    p0: Map<u64, Seq<u8>>,
    p1: Map<u64, Seq<u8>>,
    good0: Set<u64>,
    good1: Set<u64>,
    r0: Roots,
    r1: Roots,
    fresh: Set<u64>,
)
    requires
        sound_store(p0, good0, r0),
        !good0.contains(PAGE_ID_NONE),
        same_on(p0, p1, good0),
        good0.subset_of(good1),
        fresh.subset_of(good1),
        fresh.disjoint(good0),
        r1.table_root == r0.table_root,
        r1.table_depth == r0.table_depth,
        r1.next_handle == r0.next_handle,
        r1.names == r0.names,
        r1.index_root != PAGE_ID_NONE,
        r1.index_root != 0,
        r1.index_depth <= 6,
        index_in(p1, r1.index_root, r1.index_depth as nat, index_nodes(p0, r0).union(fresh)),
        index_ok(p1, r1.index_root, r1.index_depth as nat),
        index_clean(p1, r1.index_root, r1.index_depth as nat),
        tree_headed(p1, SLOTS_PER_PAGE as nat, r1.index_root, r1.index_depth as nat, radix_head()),
    ensures
        sound_store(p1, good1, r1),
        database(p1, r1) == database(p0, r0),
        forall|h: u64| #[trigger] entry_of(p1, r1, h) == entry_of(p0, r0, h),
        table_nodes(p1, r1) == table_nodes(p0, r0),
        index_nodes(p1, r1).subset_of(index_nodes(p0, r0).union(fresh)),
        forall|id: u64| unused(p0, r0, id) && !fresh.contains(id) ==> #[trigger] unused(p1, r1, id),
        forall|id: u64| data_only(p0, r0, id) && !fresh.contains(id) ==> #[trigger] data_only(p1, r1, id),
        forall|id: u64|
            index_nodes(p0, r0).contains(id) && !index_nodes(p1, r1).contains(id) ==> #[trigger] unused(p1, r1, id),
        same_store(p0, p1, r0),
{
    lemma_store_kept(p0, p1, good0, good1, r0, PAGE_ID_NONE);
    lemma_used_good(p0, good0, r0);
    lemma_index_nodes(p1, r1);
    reveal(sound_store);
    let s = SLOTS_PER_PAGE as nat;
    let old_nodes = index_nodes(p0, r0);
    assert(index_nodes(p1, r1).subset_of(old_nodes.union(fresh)));
    lemma_forest_mono(
        p1,
        s,
        index_roots(p1, r1.index_root, r1.index_depth as nat),
        old_nodes.union(fresh),
        good1,
    );
    assert(index_sound(p1, good1, r1));
    assert forall|h: u64| #[trigger] entry_of(p1, r1, h) == entry_of(p0, r0, h) by {
        assert(entry_of(p1, r0, h) == entry_of(p0, r0, h));
    }
    assert(table_nodes(p1, r1) == table_nodes(p0, r0));
    assert(table_sound(p1, good1, r1));
    assert(values_sound(p1, good1, r1)) by {
        assert forall|h: u64| (#[trigger] entry_of(p1, r1, h)) matches Some(e) ==> {
            &&& 0 < h < r1.next_handle
            &&& value_ok(p1, good1, e)
        } by {
            assert(entry_of(p1, r0, h) == entry_of(p1, r1, h));
        }
    }
    assert(apart(p1, r1)) by {
        assert forall|h1: u64, h2: u64|
            h1 != h2 implies ((#[trigger] entry_of(p1, r1, h1)) matches Some(e1) ==> ((#[trigger] entry_of(
            p1,
            r1,
            h2,
        )) matches Some(e2) ==> e1.flags == HandleFlags::Overflow ==> value_pages(p1, e1).disjoint(
            value_pages(p1, e2),
        ))) by {
            assert(entry_of(p1, r0, h1) == entry_of(p1, r1, h1));
            assert(entry_of(p1, r0, h2) == entry_of(p1, r1, h2));
        }
        assert forall|h: u64| (#[trigger] entry_of(p1, r1, h)) matches Some(e) ==> {
            &&& value_pages(p1, e).disjoint(table_nodes(p1, r1))
            &&& value_pages(p1, e).disjoint(index_nodes(p1, r1))
        } by {
            assert(entry_of(p1, r0, h) == entry_of(p1, r1, h));
            if entry_of(p1, r1, h) is Some {
                let e = entry_of(p1, r1, h)->0;
                assert(entry_of(p0, r0, h) == Some(e));
                assert(value_ok(p0, good0, e));
                assert(value_pages(p1, e) == value_pages(p0, e));
            }
        }
    }
    assert(database(p1, r1) =~= database(p1, r0)) by {
        assert forall|h: u64| #[trigger] database(p1, r1).contains_key(h) == database(p1, r0).contains_key(h) && (
        database(p1, r0).contains_key(h) ==> database(p1, r1)[h] == database(p1, r0)[h]) by {
            assert(entry_of(p1, r0, h) == entry_of(p1, r1, h));
        }
    }
    assert forall|id: u64| holds_value(p1, r1, id) == holds_value(p0, r0, id) by {
        if holds_value(p1, r1, id) {
            let h = choose|h: u64|
                (#[trigger] entry_of(p1, r1, h)) matches Some(e) && value_pages(p1, e).contains(id);
            assert(entry_of(p0, r0, h) == entry_of(p1, r1, h));
        }
        if holds_value(p0, r0, id) {
            let h = choose|h: u64|
                (#[trigger] entry_of(p0, r0, h)) matches Some(e) && value_pages(p0, e).contains(id);
            assert(entry_of(p0, r0, h) == entry_of(p1, r1, h));
        }
    }
    assert forall|id: u64| in_chain(p1, r1, id) implies in_chain(p0, r0, id) by {
        let h = choose|h: u64|
            (#[trigger] entry_of(p1, r1, h)) matches Some(e) && e.flags == HandleFlags::Overflow && value_pages(
                p1,
                e,
            ).contains(id);
        assert(entry_of(p0, r0, h) == entry_of(p1, r1, h));
    }
    assert forall|id: u64|
        index_nodes(p0, r0).contains(id) && !index_nodes(p1, r1).contains(id) implies #[trigger] unused(p1, r1, id) by {
        assert(!holds_value(p0, r0, id)) by {
            if holds_value(p0, r0, id) {
                let k = choose|k: u64|
                    (#[trigger] entry_of(p0, r0, k)) matches Some(e) && value_pages(p0, e).contains(id);
                assert(entry_of(p0, r0, k) is Some);
            }
        }
    }
}

/// The pages that a database uses.
pub open spec fn used_pages(pages: Map<u64, Seq<u8>>, r: Roots) -> Set<u64> {
    Set::new(|id: u64| !unused(pages, r, id))
}

/// A sound database needs no pages but those that it uses.
pub proof fn lemma_store_used(pages: Map<u64, Seq<u8>>, good: Set<u64>, r: Roots)
    requires
        sound_store(pages, good, r),
    ensures
        sound_store(pages, used_pages(pages, r), r),
        used_pages(pages, r).subset_of(good),
{
    lemma_used_good(pages, good, r);
    reveal(sound_store);
    let used = used_pages(pages, r);
    if r.table_root != PAGE_ID_NONE {
        let c = ENTRIES_PER_LEAF as nat;
        let d = r.table_depth as nat;
        lemma_nodes(pages, c, r.table_root, d);
        lemma_tree_mono(pages, c, r.table_root, d, table_nodes(pages, r), used);
    }
    lemma_index_nodes(pages, r);
    lemma_forest_mono(
        pages,
        SLOTS_PER_PAGE as nat,
        index_roots(pages, r.index_root, r.index_depth as nat),
        index_nodes(pages, r),
        used,
    );
    assert forall|h: u64| (#[trigger] entry_of(pages, r, h)) matches Some(e) ==> value_ok(pages, used, e) by {
        if let Some(e) = entry_of(pages, r, h) {
            assert forall|id: u64| value_pages(pages, e).contains(id) implies #[trigger] used.contains(id) by {
                assert(holds_value(pages, r, id));
            }
        }
    }
    assert forall|id: u64| #[trigger] used.contains(id) implies good.contains(id) by {
        if !good.contains(id) {
            assert(unused(pages, r, id));
        }
    }
}

} // verus!
