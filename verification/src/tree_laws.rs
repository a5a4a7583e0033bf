//! Laws of the trees: where an entry, a member or a free page is recorded, byte by
//! byte, and how deep a tree has to be.

use vstd::prelude::*;

use crate::bytes::{le16, le32, le64};
use crate::forest::nodes_of;
use crate::freemap::marked_free;
use crate::freemap_tree::{bit_set, lowest_free, node_bit, node_code, tracked_free, FreeMapTree, LEAF_CAPACITY};
use crate::handle_table::{
    depth_for, entry_at, if_live, left_depth, node_entry, table_head, table_lookup, tombstone, HandleEntry, HandleFlags, ENTRIES_PER_LEAF,
};
use crate::membership_index::{
    firsts, inner_corrupt, inner_depth, inner_present, inner_root, is_member, members_listed, members_updated, tag_value, tag_within,
};
use crate::page_cache::PageCache;
use crate::radix::{child_of, node_at, page_at, reach, saturated, slot_of};
use crate::radix_u64::{
    any_below, node_value, radix_depth_for, radix_head, radix_left_depth, radix_lookup, radix_updated, SLOTS_PER_PAGE,
};

verus! {

/// A leaf holds sixteen bytes for each handle: the page, the slot, the state, the tag and
/// the byte of the client, in this order.
pub proof fn law_entry_layout(s: Seq<u8>, i: nat)
    ensures
        entry_at(s, i).page_id == le64(s, 16 + 16 * (i as int)),
        entry_at(s, i).slot_index == le16(s, 24 + 16 * (i as int)),
        s[26 + 16 * (i as int)] == 1 <==> entry_at(s, i).flags == HandleFlags::Live,
        s[26 + 16 * (i as int)] == 2 <==> entry_at(s, i).flags == HandleFlags::Overflow,
        entry_at(s, i).tag == le32(s, 27 + 16 * (i as int)),
        entry_at(s, i).client_byte == s[31 + 16 * (i as int)],
{
    crate::format_laws::law_u64_bytes(s, 16 + 16 * (i as int));
    crate::format_laws::law_u32_bytes(s, 27 + 16 * (i as int));
    crate::format_laws::law_u16_bytes(s, 24 + 16 * (i as int));
}

/// The byte of a state stands for that state.
pub proof fn law_state_bytes(state: HandleFlags)
    ensures
        HandleFlags::of(state.code()) == state,
        state == HandleFlags::Live <==> state.code() == 1,
        state == HandleFlags::Overflow <==> state.code() == 2,
        state == HandleFlags::Deleted <==> state.code() == 0,
{
}

/// A pointer to a child is eight bytes, behind the header of sixteen.
pub proof fn law_pointer_layout(s: Seq<u8>, i: nat)
    ensures
        child_of(s, i) == le64(s, 16 + 8 * (i as int)),
{
    crate::format_laws::law_u64_bytes(s, 16 + 8 * (i as int));
}

/// Each level has 1021 times as many keys as the one below it.
pub proof fn law_reach(c: nat, level: nat)
    ensures
        reach(c, 0) == c,
        reach(c, level + 1) == 1021 * reach(c, level),
{
}

/// A number of keys that does not fit 64 bits counts as the highest that does.
pub proof fn law_saturated(n: nat)
    ensures
        saturated(n) <= n,
        n <= u64::MAX ==> saturated(n) == n,
        n > u64::MAX ==> saturated(n) == u64::MAX,
{
}

/// All keys of a level fill whole leaves.
proof fn lemma_whole_leaves(c: nat, level: nat)
    ensures
        reach(c, level) == c * reach(1, level),
    decreases level,
{
    if level > 0 {
        lemma_whole_leaves(c, (level - 1) as nat);
        let r = reach(1, (level - 1) as nat);
        assert(1021 * (c * r) == c * (1021 * r)) by (nonlinear_arith);
    } else {
        assert(c * 1 == c) by (nonlinear_arith);
    }
}

/// Keys follow one another within a leaf: the slot of a key is what is left of it when
/// full leaves are taken away.
pub proof fn law_slot_of_a_key(c: nat, level: nat, k: nat)
    requires
        c > 0,
        k < reach(c, level),
    ensures
        slot_of(c, level, k) == k % c,
    decreases level,
{
    if level == 0 {
        vstd::arithmetic::div_mod::lemma_small_mod(k, c);
    } else {
        let below = (level - 1) as nat;
        let span = reach(c, below);
        crate::radix::lemma_reach_pos(c, below);
        crate::radix::lemma_reach_pos(1, below);
        vstd::arithmetic::div_mod::lemma_mod_bound(k as int, span as int);
        law_slot_of_a_key(c, below, k % span);
        lemma_whole_leaves(c, below);
        vstd::arithmetic::div_mod::lemma_mod_mod(k as int, c as int, reach(1, below) as int);
    }
}

/// The path of a key goes down from a node to the child that its number gives: the first
/// child has the first keys, the next the next, all children equally many.
pub proof fn law_path_of_a_key(pages: Map<u64, Seq<u8>>, c: nat, page: u64, level: nat, k: nat, l: nat, i: nat)
    requires
        c > 0,
        l <= level,
        i * reach(c, level) <= k < (i + 1) * reach(c, level),
    ensures
        child_of(page_at(pages, page), i) == 0 ==> node_at(pages, c, page, level + 1, k, l) is None,
        child_of(page_at(pages, page), i) != 0 ==> node_at(pages, c, page, level + 1, k, l) == node_at(
            pages,
            c,
            child_of(page_at(pages, page), i),
            level,
            (k - i * reach(c, level)) as nat,
            l,
        ),
        node_at(pages, c, page, level, k, level) == Some(page),
{
    let span = reach(c, level);
    crate::radix::lemma_reach_pos(c, level);
    lemma_child_of_key(k, span, i);
}

/// Which child a key belongs to.
proof fn lemma_child_of_key(k: nat, span: nat, i: nat)
    requires
        span > 0,
        i * span <= k < (i + 1) * span,
    ensures
        k / span == i,
        k % span == k - i * span,
{
    assert((i + 1) * span == i * span + span) by (nonlinear_arith);
    vstd::arithmetic::div_mod::lemma_fundamental_div_mod_converse(
        k as int,
        span as int,
        i as int,
        k - i * span,
    );
}

/// In a table of one leaf the entry of a handle stands at the place of its number. There
/// is none beyond the 510 that the leaf has room for, nor where the state is neither of
/// the two that stand for a value.
pub proof fn law_lookup_in_a_leaf(pages: Map<u64, Seq<u8>>, root: u64, h: u64)
    requires
        root != u64::MAX,
    ensures
        table_lookup(pages, root, 0, h) is Some <==> h < 510 && (page_at(pages, root)[26 + 16 * h] == 1 || page_at(
            pages,
            root,
        )[26 + 16 * h] == 2),
        table_lookup(pages, root, 0, h) matches Some(e) ==> e == entry_at(page_at(pages, root), h as nat),
{
    assert(node_entry(pages, root, 0, h as nat) == entry_at(page_at(pages, root), h as nat));
}

/// In a deeper table a handle is looked up below the child that its number gives, as in a
/// table of one level less. There is nothing below a missing child.
pub proof fn law_lookup_below(pages: Map<u64, Seq<u8>>, root: u64, depth: nat, h: u64, i: nat)
    requires
        root != u64::MAX,
        depth < 6,
        i < 1021,
        child_of(page_at(pages, root), i) != u64::MAX,
        i * reach(510, depth) <= h < (i + 1) * reach(510, depth),
    ensures
        child_of(page_at(pages, root), i) == 0 ==> table_lookup(pages, root, depth + 1, h) is None,
        child_of(page_at(pages, root), i) != 0 ==> table_lookup(pages, root, depth + 1, h) == table_lookup(
            pages,
            child_of(page_at(pages, root), i),
            depth,
            (h - i * reach(510, depth)) as u64,
        ),
{
    let span = reach(510, depth);
    crate::radix::lemma_reach_pos(510, depth);
    law_path_of_a_key(pages, 510, root, depth, h as nat, 0, i);
    lemma_child_of_key(h as nat, span, i);
    assert((i + 1) * span <= 1021 * span && i * span + span == (i + 1) * span) by (nonlinear_arith)
        requires
            i < 1021,
    ;
    assert(reach(510, depth + 1) == 1021 * span);
    let child = child_of(page_at(pages, root), i);
    assert(slot_of(510, depth + 1, h as nat) == slot_of(510, depth, (h - i * span) as nat));
    if child != 0 {
        assert(node_entry(pages, root, depth + 1, h as nat) == node_entry(pages, child, depth, (h - i * span) as nat));
    }
}

/// A table says nothing of handles beyond its reach, nor if there is no table.
pub proof fn law_lookup_beyond(pages: Map<u64, Seq<u8>>, root: u64, depth: nat, h: u64)
    ensures
        root == u64::MAX ==> table_lookup(pages, root, depth, h) is None,
        h >= reach(510, depth) ==> table_lookup(pages, root, depth, h) is None,
        depth > 6 ==> table_lookup(pages, root, depth, h) is None,
        table_lookup(pages, root, depth, h) matches Some(e) ==> e.flags != HandleFlags::Deleted,
{
}

/// An entry counts unless it is deleted.
pub proof fn law_entries_that_count(e: HandleEntry)
    ensures
        if_live(e) == (if e.flags == HandleFlags::Live || e.flags == HandleFlags::Overflow {
            Some(e)
        } else {
            None
        }),
        if_live(tombstone()) is None,
{
}

/// A table is made no deeper than a handle needs, and never less deep.
pub proof fn law_depth_for_a_handle(depth: nat, h: u64, d: nat)
    requires
        depth <= 6,
    ensures
        depth <= depth_for(depth, h) <= 6,
        depth_for(depth, h) < 6 ==> h < reach(510, depth_for(depth, h)),
        depth <= d < depth_for(depth, h) ==> h >= reach(510, d),
    decreases 6 - depth,
{
    if depth < 6 && h >= reach(510, depth) {
        law_depth_for_a_handle(depth + 1, h, d);
    }
}

/// A tree of keys is made no deeper than a key needs, and never less deep.
pub proof fn law_depth_for_a_key(depth: nat, key: u64, d: nat)
    requires
        depth <= 6,
    ensures
        depth <= radix_depth_for(depth, key) <= 6,
        radix_depth_for(depth, key) < 6 ==> key < reach(1021, radix_depth_for(depth, key)),
        depth <= d < radix_depth_for(depth, key) ==> key >= reach(1021, d),
    decreases 6 - depth,
{
    if depth < 6 && key >= reach(1021, depth) {
        law_depth_for_a_key(depth + 1, key, d);
    }
}

/// In a tree of one leaf the value of a key stands at the place of its number.
pub proof fn law_value_in_a_leaf(pages: Map<u64, Seq<u8>>, root: u64, key: u64)
    ensures
        root != u64::MAX && key < 1021 ==> radix_lookup(pages, root, 0, key) == le64(page_at(pages, root), 16 + 8 * key),
        root == u64::MAX || key >= 1021 ==> radix_lookup(pages, root, 0, key) == 0,
{
    if root != u64::MAX && key < 1021 {
        law_pointer_layout(page_at(pages, root), key as nat);
        assert(node_value(pages, root, 0, key as nat) == child_of(page_at(pages, root), key as nat));
    }
}

/// In a deeper tree a key is looked up below the child that its number gives, as in a tree
/// of one level less. There is nothing below a missing child.
pub proof fn law_value_below(pages: Map<u64, Seq<u8>>, root: u64, depth: nat, key: u64, i: nat)
    requires
        root != u64::MAX,
        i < 1021,
        child_of(page_at(pages, root), i) != u64::MAX,
        i * reach(1021, depth) <= key < (i + 1) * reach(1021, depth),
    ensures
        child_of(page_at(pages, root), i) == 0 ==> radix_lookup(pages, root, depth + 1, key) == 0,
        child_of(page_at(pages, root), i) != 0 ==> radix_lookup(pages, root, depth + 1, key) == radix_lookup(
            pages,
            child_of(page_at(pages, root), i),
            depth,
            (key - i * reach(1021, depth)) as u64,
        ),
{
    let span = reach(1021, depth);
    crate::radix::lemma_reach_pos(1021, depth);
    law_path_of_a_key(pages, 1021, root, depth, key as nat, 0, i);
    lemma_child_of_key(key as nat, span, i);
    assert((i + 1) * span <= 1021 * span && i * span + span == (i + 1) * span) by (nonlinear_arith)
        requires
            i < 1021,
    ;
    assert(reach(1021, depth + 1) == 1021 * span);
    let child = child_of(page_at(pages, root), i);
    assert(slot_of(1021, depth + 1, key as nat) == slot_of(1021, depth, (key - i * span) as nat));
    if child != 0 {
        assert(node_value(pages, root, depth + 1, key as nat) == node_value(pages, child, depth, (key - i * span) as nat));
    }
}

/// A freemap of one page is a bitmap.
pub proof fn law_free_in_a_leaf(pages: Map<u64, Seq<u8>>, root: u64, id: u64)
    ensures
        tracked_free(pages, root, 0, id) <==> marked_free(page_at(pages, root), id),
{
    assert(node_bit(pages, root, 0, id as nat) == marked_free(page_at(pages, root), id));
}

/// In a deeper freemap a page is looked up below the child that its number gives, as in
/// one of one level less. Nothing below a missing child is free.
pub proof fn law_free_below(pages: Map<u64, Seq<u8>>, root: u64, depth: nat, id: u64, i: nat)
    requires
        i < 1021,
        i * reach(65344, depth) <= id < (i + 1) * reach(65344, depth),
    ensures
        child_of(page_at(pages, root), i) == 0 ==> !tracked_free(pages, root, depth + 1, id),
        child_of(page_at(pages, root), i) != 0 ==> tracked_free(pages, root, depth + 1, id) == tracked_free(
            pages,
            child_of(page_at(pages, root), i),
            depth,
            (id - i * reach(65344, depth)) as u64,
        ),
{
    let span = reach(65344, depth);
    crate::radix::lemma_reach_pos(65344, depth);
    law_path_of_a_key(pages, 65344, root, depth, id as nat, 0, i);
    lemma_child_of_key(id as nat, span, i);
    assert((i + 1) * span <= 1021 * span && i * span + span == (i + 1) * span) by (nonlinear_arith)
        requires
            i < 1021,
    ;
    assert(reach(65344, depth + 1) == 1021 * span);
    assert(slot_of(65344, depth + 1, id as nat) == slot_of(65344, depth, (id - i * span) as nat));
}

/// No page beyond the reach of a freemap is free.
pub proof fn law_free_beyond(pages: Map<u64, Seq<u8>>, root: u64, depth: nat, id: u64)
    ensures
        id >= reach(65344, depth) ==> !tracked_free(pages, root, depth, id),
{
}

/// The tree of a tag is recorded as one number: its root below 2 to the power of 58, and
/// its depth above.
pub proof fn law_tag_record(packed: u64)
    ensures
        packed == inner_root(packed) + 0x400_0000_0000_0000 * inner_depth(packed),
        inner_root(packed) < 0x400_0000_0000_0000,
{
}

/// A handle carries a tag exactly if the tag has a tree, no deeper than six levels, and
/// the tree has the handle.
pub proof fn law_members(pages: Map<u64, Seq<u8>>, root: u64, depth: nat, tag: u32, h: u64)
    ensures
        tag_value(pages, root, depth, tag) == radix_lookup(pages, root, depth, tag as u64),
        is_member(pages, root, depth, tag, h) <==> {
            let packed = radix_lookup(pages, root, depth, tag as u64);
            &&& packed % 0x400_0000_0000_0000 != 0
            &&& packed / 0x400_0000_0000_0000 <= 6
            &&& radix_lookup(
                pages,
                (packed % 0x400_0000_0000_0000) as u64,
                (packed / 0x400_0000_0000_0000) as nat,
                h,
            ) != 0
        },
{
}

/// The members of a tag are listed in ascending order, each once. Without a limit all are
/// listed; with one, no more than it says, and then those with the lowest numbers.
pub proof fn law_members_are_listed(
    pages: Map<u64, Seq<u8>>,
    root: u64,
    depth: nat,
    tag: u32,
    limit: Option<nat>,
    list: Seq<u64>,
    h: u64,
)
    requires
        members_listed(pages, root, depth, tag, limit, list),
        tag_within(pages, root, depth, tag),
    ensures
        forall|i: int, j: int| 0 <= i < j < list.len() ==> #[trigger] list[i] < #[trigger] list[j],
        list.contains(h) ==> is_member(pages, root, depth, tag, h),
        limit is None ==> (list.contains(h) <==> is_member(pages, root, depth, tag, h)),
        limit matches Some(n) ==> list.len() <= n,
        limit matches Some(n) ==> is_member(pages, root, depth, tag, h) && !list.contains(h) ==> list.len() == n
            && forall|i: int| 0 <= i < list.len() ==> #[trigger] list[i] < h,
{
}

/// What a leaf has room for.
pub proof fn law_leaves()
    ensures
        ENTRIES_PER_LEAF == 510,
        SLOTS_PER_PAGE == 1021,
        LEAF_CAPACITY == 65344,
        16 + 16 * ENTRIES_PER_LEAF <= 8184,
        8184 < 16 + 16 * (ENTRIES_PER_LEAF + 1),
        16 + 8 * SLOTS_PER_PAGE <= 8184,
        8184 < 16 + 8 * (SLOTS_PER_PAGE + 1),
        8 * 16 + LEAF_CAPACITY == 8 * 8184,
{
}

/// The lowest free page from `lo` on is free, and none before it is; there is none exactly if
/// none is free from there on.
pub proof fn law_lowest_free_page(pages: Map<u64, Seq<u8>>, root: u64, depth: nat, lo: u64, found: Option<u64>, id: u64)
    requires
        lowest_free(pages, root, depth, 0, lo, found),
        lo <= id,
    ensures
        found matches Some(first) ==> lo <= first && tracked_free(pages, root, depth, first),
        found matches Some(first) ==> tracked_free(pages, root, depth, id) ==> first <= id,
        found is None ==> !tracked_free(pages, root, depth, id),
{
    if tracked_free(pages, root, depth, id) {
        assert(node_bit(pages, root, depth, id as nat));
    }
}

/// A tree of keys that was changed gives the new value for the key and the old one for every
/// other.
pub proof fn law_changed_value_is_read_back(
    before: Map<u64, Seq<u8>>,
    root0: u64,
    depth0: nat,
    after: Map<u64, Seq<u8>>,
    root1: u64,
    depth1: nat,
    key: u64,
    value: u64,
    other: u64,
)
    requires
        radix_updated(before, root0, depth0, after, root1, depth1, key, value),
    ensures
        radix_lookup(after, root1, depth1, key) == value,
        other != key ==> radix_lookup(after, root1, depth1, other) == radix_lookup(before, root0, depth0, other),
{
}

/// An index that was changed says the new thing of one handle and one tag, and the old thing
/// of every other handle or tag.
pub proof fn law_changed_member_is_read_back(
    before: Map<u64, Seq<u8>>,
    root0: u64,
    depth0: nat,
    after: Map<u64, Seq<u8>>,
    root1: u64,
    depth1: nat,
    tag: u32,
    h: u64,
    now: bool,
    t: u32,
    k: u64,
)
    requires
        members_updated(before, root0, depth0, after, root1, depth1, tag, h, now),
    ensures
        is_member(after, root1, depth1, tag, h) == now,
        t != tag || k != h ==> is_member(after, root1, depth1, t, k) == is_member(before, root0, depth0, t, k),
{
}

/// A freemap that was changed says the new thing of one page and the old thing of every other.
pub proof fn law_changed_mark_is_read_back(
    tree0: &FreeMapTree,
    cache0: &PageCache,
    tree1: &FreeMapTree,
    cache1: &PageCache,
    id: u64,
    free: bool,
    k: u64,
)
    requires
        bit_set(tree0, cache0, tree1, cache1, id, free),
    ensures
        tracked_free(cache1.contents(), tree1.root, tree1.depth as nat, id) == free,
        k != id ==> tracked_free(cache1.contents(), tree1.root, tree1.depth as nat, k) == tracked_free(
            cache0.contents(),
            tree0.root,
            tree0.depth as nat,
            k,
        ),
{
    assert(tree1.marks_free(cache1, id) == free);
    assert(k != id ==> tree1.marks_free(cache1, k) == tree0.marks_free(cache0, k));
}

/// The pages of a tree are those that the path of some key comes to.
pub proof fn law_pages_of_a_tree(pages: Map<u64, Seq<u8>>, c: nat, root: u64, depth: nat, id: u64)
    requires
        c > 0,
    ensures
        nodes_of(pages, c, root, depth).contains(id) <==> exists|k: nat, l: nat|
            k < reach(c, depth) && l <= depth && #[trigger] node_at(pages, c, root, depth, k, l) == Some(id),
        nodes_of(pages, c, root, depth).contains(root),
{
    crate::radix::lemma_reach_pos(c, depth);
    assert(node_at(pages, c, root, depth, 0, depth) == Some(root));
}

/// How the pages of the trees begin.
pub proof fn law_heads_of_nodes(level: nat)
    ensures
        table_head()(0) == (1u8, 1u8),
        table_head()(level + 1) == (1u8, 2u8),
        radix_head()(0) == (6u8, 0u8),
        radix_head()(level + 1) == (5u8, 0u8),
        node_code(0) == 4,
        node_code(level + 1) == 7,
{
}

/// The depth of a table is found along its left edge: a page without the mark of an interior
/// page ends it, and so does a missing child. A page with that mark that is of another kind,
/// or six levels down, is where the table is damaged.
pub proof fn law_left_edge_of_a_table(pages: Map<u64, Seq<u8>>, page: u64, depth: nat)
    ensures
        page_at(pages, page)[1] != 2 ==> left_depth(pages, page, depth) == Ok::<nat, u64>(depth),
        page_at(pages, page)[1] == 2 && (page_at(pages, page)[0] != 1 || depth >= 6) ==> left_depth(pages, page, depth)
            == Err::<nat, u64>(page),
        page_at(pages, page)[1] == 2 && page_at(pages, page)[0] == 1 && depth < 6 ==> left_depth(pages, page, depth) == (
        if child_of(page_at(pages, page), 0) == 0 {
            Ok::<nat, u64>(depth + 1)
        } else {
            left_depth(pages, child_of(page_at(pages, page), 0), depth + 1)
        }),
{
}

/// The depth of a tree of keys is found along its left edge: a page that is no interior page
/// ends it, and so does a missing child. An interior page six levels down is where the tree is
/// damaged.
pub proof fn law_left_edge_of_a_tree(pages: Map<u64, Seq<u8>>, page: u64, depth: nat)
    ensures
        page_at(pages, page)[0] != 5 ==> radix_left_depth(pages, page, depth) == Ok::<nat, u64>(depth),
        page_at(pages, page)[0] == 5 && depth >= 6 ==> radix_left_depth(pages, page, depth) == Err::<nat, u64>(page),
        page_at(pages, page)[0] == 5 && depth < 6 ==> radix_left_depth(pages, page, depth) == (if child_of(
            page_at(pages, page),
            0,
        ) == 0 {
            Ok::<nat, u64>(depth + 1)
        } else {
            radix_left_depth(pages, child_of(page_at(pages, page), 0), depth + 1)
        }),
{
}

/// The record of a tag is damaged exactly if it names a tree of more than six levels.
pub proof fn law_damaged_tag_records(packed: u64)
    ensures
        inner_corrupt(packed) <==> packed % 0x400_0000_0000_0000 != 0 && packed / 0x400_0000_0000_0000 > 6,
        inner_present(packed) <==> packed % 0x400_0000_0000_0000 != 0 && packed / 0x400_0000_0000_0000 <= 6,
{
}

/// There is something below a node exactly if some key there has a value.
pub proof fn law_something_below(pages: Map<u64, Seq<u8>>, page: u64, level: nat, k: nat)
    requires
        k < reach(1021, level),
        node_value(pages, page, level, k) != 0,
    ensures
        any_below(pages, page, level),
{
}

/// The keys of pairs, one by one.
pub proof fn law_keys_of_pairs(pairs: Seq<(u64, u64)>, i: int)
    requires
        0 <= i < pairs.len(),
    ensures
        firsts(pairs).len() == pairs.len(),
        firsts(pairs)[i] == pairs[i].0,
{
}

} // verus!
