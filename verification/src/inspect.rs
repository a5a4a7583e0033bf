//! Inspecting pages: a tree that occupies pages of its own.

use vstd::prelude::*;

use rustc_hash::FxHashSet;

use crate::error::ChiselError;
use crate::forest::{lemma_nodes, nodes_of};
use crate::freemap_tree::node_code;
use crate::fx::{set_contains, set_insert};
use crate::handle_table::{table_head, FLAG_INTERIOR, FLAG_LEAF};
use crate::listing::{lemma_child_explains, lemma_top_explains, read_children, tree_explains};
use crate::page::{checksum_ok, verify_checksum, PageType, PAGE_FORMAT_VERSION_CURRENT, PAGE_SIZE};
use crate::page_cache::PageCache;
use crate::radix::{
    child_of, is_tree, lemma_ascend, lemma_descend, lemma_reach_pos, node_at, page_at, reach, shares, tree_in, FANOUT,
};
use crate::radix_u64::radix_head;
use crate::spine::{head_of, lemma_tree_mono};

verus! {

/// What the nodes of a tree look like.
#[derive(Clone, Copy)]
pub enum Shape {
    /// Nodes of the freemap.
    Freemap,
    /// Nodes of the handle table.
    Table,
    /// Nodes of the outer tree of the index.
    Outer,
    /// Nodes of an inner tree of the index.
    Inner,
}

/// A page can be a node at this level.
pub open spec fn fits(shape: Shape, s: Seq<u8>, level: nat) -> bool {
    &&& checksum_ok(s)
    &&& match shape {
        Shape::Freemap => s[0] == node_code(level),
        Shape::Table => head_of(s) == table_head()(level),
        Shape::Outer => head_of(s) == radix_head()(level),
        Shape::Inner => true,
    }
}

/// Every node of a tree looks as it should.
pub open spec fn tree_fits(pages: Map<u64, Seq<u8>>, c: nat, page: u64, level: nat, shape: Shape) -> bool {
    forall|k: nat, l: nat|
        k < reach(c, level) && l <= level ==> ((#[trigger] node_at(pages, c, page, level, k, l)) matches Some(id)
            ==> fits(shape, page_at(pages, id), l))
}

/// The pages from `lo` up to `hi` that nothing has claimed.
pub open spec fn unclaimed(lo: u64, hi: u64, claimed: Set<u64>) -> Set<u64> {
    Set::new(|id: u64| lo <= id < hi && !claimed.contains(id))
}

/// A tree occupies pages of its own, in a set of pages.
pub open spec fn tree_sane(
    pages: Map<u64, Seq<u8>>,
    c: nat,
    page: u64,
    level: nat,
    shape: Shape,
    room: Set<u64>,
) -> bool {
    &&& tree_in(pages, c, page, level, room)
    &&& is_tree(pages, c, page, level)
    &&& tree_fits(pages, c, page, level, shape)
}

/// The pages of the first `i` children of a node.
spec fn child_nodes(pages: Map<u64, Seq<u8>>, c: nat, page: u64, level: nat, i: nat) -> Set<u64> {
    Set::new(
        |id: u64|
            exists|j: nat|
                j < i && child_of(page_at(pages, page), j) != 0 && #[trigger] nodes_of(
                    pages,
                    c,
                    child_of(page_at(pages, page), j),
                    (level - 1) as nat,
                ).contains(id),
    )
}

/// The first `i` children of a node are trees with pages of their own.
spec fn children_sane(
    pages: Map<u64, Seq<u8>>,
    c: nat,
    page: u64,
    level: nat,
    shape: Shape,
    room: Set<u64>,
    i: nat,
) -> bool {
    &&& forall|j: nat|
        j < i && #[trigger] child_of(page_at(pages, page), j) != 0 ==> tree_sane(
            pages,
            c,
            child_of(page_at(pages, page), j),
            (level - 1) as nat,
            shape,
            room.remove(page),
        )
    &&& forall|j: nat, m: nat|
        j < m < i && #[trigger] child_of(page_at(pages, page), j) != 0 && #[trigger] child_of(page_at(pages, page), m)
            != 0 ==> nodes_of(pages, c, child_of(page_at(pages, page), j), (level - 1) as nat).disjoint(
            nodes_of(pages, c, child_of(page_at(pages, page), m), (level - 1) as nat),
        )
}

/// A node on a path is one of its tree.
proof fn lemma_is_node(pages: Map<u64, Seq<u8>>, c: nat, page: u64, level: nat, k: nat, l: nat)
    requires
        k < reach(c, level),
        l <= level,
        node_at(pages, c, page, level, k, l) is Some,
    ensures
        nodes_of(pages, c, page, level).contains(node_at(pages, c, page, level, k, l)->0),
{
}

/// Trees with pages of their own make up a tree.
proof fn lemma_composed(pages: Map<u64, Seq<u8>>, c: nat, page: u64, level: nat, shape: Shape, room: Set<u64>)
    requires
        c > 0,
        level > 0,
        room.contains(page),
        fits(shape, page_at(pages, page), level),
        children_sane(pages, c, page, level, shape, room, FANOUT as nat),
    ensures
        tree_sane(pages, c, page, level, shape, room),
        nodes_of(pages, c, page, level) == child_nodes(pages, c, page, level, FANOUT as nat).insert(page),
{
    let s = page_at(pages, page);
    let sub = (level - 1) as nat;
    let span = reach(c, sub);
    assert forall|k: nat, l: nat| k < reach(c, level) && l <= level implies ((#[trigger] node_at(
        pages,
        c,
        page,
        level,
        k,
        l,
    )) matches Some(id) ==> room.contains(id) && fits(shape, page_at(pages, id), l)) by {
        if l < level && node_at(pages, c, page, level, k, l) is Some {
            lemma_descend(c, level, k);
            let child = child_of(s, k / span);
            assert(node_at(pages, c, child, sub, k % span, l) == node_at(pages, c, page, level, k, l));
        }
    }
    assert forall|k1: nat, l1: nat, k2: nat, l2: nat|
        k1 < reach(c, level) && k2 < reach(c, level) && l1 <= level && l2 <= level && (#[trigger] node_at(
            pages,
            c,
            page,
            level,
            k1,
            l1,
        )) is Some && node_at(pages, c, page, level, k1, l1) == (#[trigger] node_at(pages, c, page, level, k2, l2)) implies l1
        == l2 && shares(c, level, k1, k2, l1) by {
        lemma_descend(c, level, k1);
        lemma_descend(c, level, k2);
        let i1 = k1 / span;
        let i2 = k2 / span;
        let id = node_at(pages, c, page, level, k1, l1)->0;
        if l1 < level {
            let c1 = child_of(s, i1);
            assert(node_at(pages, c, c1, sub, k1 % span, l1) == Some(id));
            lemma_is_node(pages, c, c1, sub, k1 % span, l1);
            assert(tree_sane(pages, c, c1, sub, shape, room.remove(page)));
            assert(id != page);
        }
        if l2 < level {
            let c2 = child_of(s, i2);
            assert(node_at(pages, c, c2, sub, k2 % span, l2) == Some(id));
            lemma_is_node(pages, c, c2, sub, k2 % span, l2);
            assert(tree_sane(pages, c, c2, sub, shape, room.remove(page)));
            assert(id != page);
        }
        if l1 < level && l2 < level {
            if i1 < i2 {
                assert(child_of(s, i1) != 0 && child_of(s, i2) != 0);
            }
            if i2 < i1 {
                assert(child_of(s, i1) != 0 && child_of(s, i2) != 0);
            }
            assert(i1 == i2);
        }
    }
    let all = child_nodes(pages, c, page, level, FANOUT as nat).insert(page);
    assert forall|id: u64| nodes_of(pages, c, page, level).contains(id) == all.contains(id) by {
        lemma_reach_pos(c, level);
        if nodes_of(pages, c, page, level).contains(id) && id != page {
            let (k, l) = choose|k: nat, l: nat|
                k < reach(c, level) && l <= level && #[trigger] node_at(pages, c, page, level, k, l) == Some(id);
            lemma_descend(c, level, k);
            let child = child_of(s, k / span);
            assert(node_at(pages, c, child, sub, k % span, l) == Some(id));
            lemma_is_node(pages, c, child, sub, k % span, l);
        }
        if all.contains(id) && id != page {
            let j = choose|j: nat|
                j < FANOUT && child_of(s, j) != 0 && #[trigger] nodes_of(pages, c, child_of(s, j), sub).contains(id);
            let (k, l) = choose|k: nat, l: nat|
                k < reach(c, sub) && l <= sub && #[trigger] node_at(pages, c, child_of(s, j), sub, k, l) == Some(id);
            lemma_ascend(c, level, j, k);
            assert(node_at(pages, c, page, level, j * span + k, l) == Some(id));
        }
        if id == page {
            assert(node_at(pages, c, page, level, 0, level) == Some(page));
        }
    }
    assert(nodes_of(pages, c, page, level) =~= all);
}

/// A tree is made up of trees with pages of their own.
proof fn lemma_decomposed(pages: Map<u64, Seq<u8>>, c: nat, page: u64, level: nat, shape: Shape, room: Set<u64>)
    requires
        c > 0,
        level > 0,
        tree_sane(pages, c, page, level, shape, room),
    ensures
        room.contains(page),
        fits(shape, page_at(pages, page), level),
        children_sane(pages, c, page, level, shape, room, FANOUT as nat),
{
    let s = page_at(pages, page);
    let sub = (level - 1) as nat;
    let span = reach(c, sub);
    lemma_reach_pos(c, level);
    assert(node_at(pages, c, page, level, 0, level) == Some(page));
    assert forall|j: nat| j < FANOUT && #[trigger] child_of(s, j) != 0 implies tree_sane(
        pages,
        c,
        child_of(s, j),
        sub,
        shape,
        room.remove(page),
    ) by {
        let child = child_of(s, j);
        assert forall|k: nat, l: nat| k < reach(c, sub) && l <= sub implies ((#[trigger] node_at(
            pages,
            c,
            child,
            sub,
            k,
            l,
        )) matches Some(id) ==> room.remove(page).contains(id) && fits(shape, page_at(pages, id), l)) by {
            lemma_ascend(c, level, j, k);
            assert(node_at(pages, c, page, level, j * span + k, l) == node_at(pages, c, child, sub, k, l));
            if node_at(pages, c, child, sub, k, l) == Some(page) {
                assert(node_at(pages, c, page, level, 0, level) == node_at(pages, c, page, level, j * span + k, l));
            }
        }
        assert forall|k1: nat, l1: nat, k2: nat, l2: nat|
            k1 < reach(c, sub) && k2 < reach(c, sub) && l1 <= sub && l2 <= sub && (#[trigger] node_at(
                pages,
                c,
                child,
                sub,
                k1,
                l1,
            )) is Some && node_at(pages, c, child, sub, k1, l1) == (#[trigger] node_at(
                pages,
                c,
                child,
                sub,
                k2,
                l2,
            )) implies l1 == l2 && shares(c, sub, k1, k2, l1) by {
            lemma_ascend(c, level, j, k1);
            lemma_ascend(c, level, j, k2);
            assert(node_at(pages, c, page, level, j * span + k1, l1) == node_at(pages, c, child, sub, k1, l1));
            assert(node_at(pages, c, page, level, j * span + k2, l2) == node_at(pages, c, child, sub, k2, l2));
            assert(shares(c, level, j * span + k1, j * span + k2, l1));
        }
    }
    assert forall|j: nat, m: nat|
        j < m < FANOUT && #[trigger] child_of(s, j) != 0 && #[trigger] child_of(s, m) != 0 implies nodes_of(
        pages,
        c,
        child_of(s, j),
        sub,
    ).disjoint(nodes_of(pages, c, child_of(s, m), sub)) by {
        let a = child_of(s, j);
        let b = child_of(s, m);
        assert forall|id: u64| nodes_of(pages, c, a, sub).contains(id) && nodes_of(pages, c, b, sub).contains(
            id,
        ) implies false by {
            let (k1, l1) = choose|k: nat, l: nat|
                k < reach(c, sub) && l <= sub && #[trigger] node_at(pages, c, a, sub, k, l) == Some(id);
            let (k2, l2) = choose|k: nat, l: nat|
                k < reach(c, sub) && l <= sub && #[trigger] node_at(pages, c, b, sub, k, l) == Some(id);
            lemma_ascend(c, level, j, k1);
            lemma_ascend(c, level, m, k2);
            assert(node_at(pages, c, page, level, j * span + k1, l1) == Some(id));
            assert(node_at(pages, c, page, level, m * span + k2, l2) == Some(id));
            assert(shares(c, level, j * span + k1, m * span + k2, l1));
        }
    }
}

/// A page can be a node at this level.
fn check_shape(shape: Shape, buf: &[u8; PAGE_SIZE], level: u32) -> (fit: bool)
    ensures
        fit == fits(shape, buf@, level as nat),
{
    if !verify_checksum(buf) {
        return false;
    }
    match shape {
        Shape::Freemap => if level == 0 {
            buf[0] == PageType::FreeMap.code()
        } else {
            buf[0] == PageType::FreeMapInterior.code()
        },
        Shape::Table => buf[0] == PageType::HandleTable.code() && buf[1] == (if level == 0 {
            FLAG_LEAF
        } else {
            FLAG_INTERIOR
        }),
        Shape::Outer => buf[1] == PAGE_FORMAT_VERSION_CURRENT && buf[0] == (if level == 0 {
            PageType::MembershipLeaf.code()
        } else {
            PageType::MembershipInterior.code()
        }),
        Shape::Inner => true,
    }
}

/// One more child has pages of its own.
proof fn lemma_child_claimed(
    pages: Map<u64, Seq<u8>>,
    c: nat,
    page: u64,
    level: nat,
    shape: Shape,
    room: Set<u64>,
    i: nat,
    left: Set<u64>,
)
    requires
        level > 0,
        i < FANOUT,
        children_sane(pages, c, page, level, shape, room, i),
        child_of(page_at(pages, page), i) != 0 ==> tree_sane(
            pages,
            c,
            child_of(page_at(pages, page), i),
            (level - 1) as nat,
            shape,
            left,
        ),
        left.subset_of(room.remove(page)),
        left.disjoint(child_nodes(pages, c, page, level, i)),
    ensures
        children_sane(pages, c, page, level, shape, room, i + 1),
        child_of(page_at(pages, page), i) == 0 ==> child_nodes(pages, c, page, level, i + 1) == child_nodes(
            pages,
            c,
            page,
            level,
            i,
        ),
        child_of(page_at(pages, page), i) != 0 ==> child_nodes(pages, c, page, level, i + 1) == child_nodes(
            pages,
            c,
            page,
            level,
            i,
        ).union(nodes_of(pages, c, child_of(page_at(pages, page), i), (level - 1) as nat)),
{
    let s = page_at(pages, page);
    let sub = (level - 1) as nat;
    let before = child_nodes(pages, c, page, level, i);
    let after = child_nodes(pages, c, page, level, i + 1);
    let child = child_of(s, i);
    if child != 0 {
        let nodes = nodes_of(pages, c, child, sub);
        lemma_nodes(pages, c, child, sub);
        assert(tree_in(pages, c, child, sub, left));
        assert(nodes.subset_of(left));
        lemma_tree_mono(pages, c, child, sub, left, room.remove(page));
        assert forall|j: nat, m: nat| j < m < i + 1 && #[trigger] child_of(s, j) != 0 && #[trigger] child_of(s, m)
            != 0 implies nodes_of(pages, c, child_of(s, j), sub).disjoint(nodes_of(pages, c, child_of(s, m), sub)) by {
            if m == i {
                assert forall|id: u64| nodes_of(pages, c, child_of(s, j), sub).contains(id) implies before.contains(
                    id,
                ) by {}
            }
        }
        assert forall|id: u64| after.contains(id) == before.union(nodes).contains(id) by {
            if after.contains(id) {
                let j = choose|j: nat|
                    j < i + 1 && child_of(s, j) != 0 && #[trigger] nodes_of(pages, c, child_of(s, j), sub).contains(id);
                if j < i {
                    assert(nodes_of(pages, c, child_of(s, j), sub).contains(id));
                }
            }
            if before.contains(id) {
                let j = choose|j: nat|
                    j < i && child_of(s, j) != 0 && #[trigger] nodes_of(pages, c, child_of(s, j), sub).contains(id);
                assert(nodes_of(pages, c, child_of(s, j), sub).contains(id));
            }
        }
        assert(after =~= before.union(nodes));
    } else {
        assert forall|id: u64| after.contains(id) == before.contains(id) by {
            if after.contains(id) {
                let j = choose|j: nat|
                    j < i + 1 && child_of(s, j) != 0 && #[trigger] nodes_of(pages, c, child_of(s, j), sub).contains(id);
                assert(j < i);
            }
        }
        assert(after =~= before);
    }
}

/// In a tree no child shares pages with those before it.
proof fn lemma_child_apart(
    pages: Map<u64, Seq<u8>>,
    c: nat,
    page: u64,
    level: nat,
    shape: Shape,
    room: Set<u64>,
    i: nat,
    left: Set<u64>,
)
    requires
        c > 0,
        level > 0,
        i < FANOUT,
        tree_sane(pages, c, page, level, shape, room),
        child_of(page_at(pages, page), i) != 0,
        room.remove(page).difference(child_nodes(pages, c, page, level, i)).subset_of(left),
    ensures
        tree_sane(pages, c, child_of(page_at(pages, page), i), (level - 1) as nat, shape, left),
{
    let s = page_at(pages, page);
    let sub = (level - 1) as nat;
    let child = child_of(s, i);
    lemma_decomposed(pages, c, page, level, shape, room);
    lemma_nodes(pages, c, child, sub);
    let nodes = nodes_of(pages, c, child, sub);
    assert(tree_sane(pages, c, child, sub, shape, room.remove(page)));
    assert(nodes.subset_of(room.remove(page)));
    assert forall|id: u64| #[trigger] nodes.contains(id) implies left.contains(id) by {
        if child_nodes(pages, c, page, level, i).contains(id) {
            let j = choose|j: nat|
                j < i && child_of(s, j) != 0 && #[trigger] nodes_of(pages, c, child_of(s, j), sub).contains(id);
            assert(child_of(s, j) != 0 && child_of(s, i) != 0);
        }
        assert(room.remove(page).difference(child_nodes(pages, c, page, level, i)).contains(id));
    }
    lemma_tree_mono(pages, c, child, sub, nodes, left);
}

/// A tree of one node.
proof fn lemma_single(pages: Map<u64, Seq<u8>>, c: nat, page: u64, shape: Shape, room: Set<u64>)
    requires
        c > 0,
    ensures
        tree_sane(pages, c, page, 0, shape, room) <==> room.contains(page) && fits(shape, page_at(pages, page), 0),
        nodes_of(pages, c, page, 0) == Set::<u64>::empty().insert(page),
{
    assert forall|k: nat, l: nat| l <= 0 implies #[trigger] node_at(pages, c, page, 0, k, l) == Some(page) by {}
    lemma_reach_pos(c, 0);
    assert(node_at(pages, c, page, 0, 0, 0) == Some(page));
    assert(nodes_of(pages, c, page, 0) =~= Set::<u64>::empty().insert(page));
    assert(is_tree(pages, c, page, 0));
}

/// Claim the pages of a tree; says if it has pages of its own, in their range.
pub fn claim_tree(
    cache: &mut PageCache,
    claimed: &mut FxHashSet<u64>,
    lo: u64,
    hi: u64,
    page: u64,
    level: u32,
    shape: Shape,
    Ghost(c): Ghost<nat>,
) -> (outcome: Result<bool, ChiselError>)
    requires
        old(cache).inv(),
        old(cache).bounded(),
        c > 0,
    ensures
        final(cache).inv(),
        final(cache).bounded(),
        final(cache).same_pages(old(cache)),
        match outcome {
            Ok(true) => {
                &&& tree_sane(
                    old(cache).contents(),
                    c,
                    page,
                    level as nat,
                    shape,
                    unclaimed(lo, hi, old(claimed)@),
                )
                &&& final(claimed)@ == old(claimed)@.union(nodes_of(old(cache).contents(), c, page, level as nat))
            },
            Ok(false) => !tree_sane(
                old(cache).contents(),
                c,
                page,
                level as nat,
                shape,
                unclaimed(lo, hi, old(claimed)@),
            ),
            Err(e) => tree_explains(old(cache), c, page, level as nat, e),
        },
    decreases level,
{
    let ghost pages = cache.contents();
    let ghost c0 = *cache;
    let ghost own = claimed@;
    let ghost room = unclaimed(lo, hi, own);
    let ghost lv = level as nat;
    proof {
        cache.lemma_explains(page);
        lemma_reach_pos(c, lv);
        assert(node_at(pages, c, page, lv, 0, lv) == Some(page));
    }
    if page < lo || page >= hi || set_contains(claimed, page) {
        assert(!room.contains(page));
        return Ok(false);
    }
    let fit: bool = match cache.get(page) {
        Ok(buf) => check_shape(shape, buf, level),
        Err(e) => {
            proof {
                lemma_top_explains(&c0, c, page, lv, e);
            }
            return Err(e);
        },
    };
    if !fit {
        return Ok(false);
    }
    set_insert(claimed, page);
    if level == 0 {
        proof {
            lemma_single(pages, c, page, shape, room);
            assert(claimed@ =~= own.union(nodes_of(pages, c, page, 0)));
        }
        return Ok(true);
    }
    let ghost c1 = *cache;
    let children: Vec<u64> = match read_children(cache, page) {
        Ok(children) => children,
        Err(e) => {
            proof {
                c1.lemma_same_explains(&c0, page);
                lemma_top_explains(&c0, c, page, lv, e);
            }
            return Err(e);
        },
    };
    proof {
        assert(child_nodes(pages, c, page, lv, 0) =~= Set::<u64>::empty());
        assert(claimed@ =~= own.insert(page).union(child_nodes(pages, c, page, lv, 0)));
    }
    let mut i: usize = 0;
    while i < FANOUT
        invariant
            i <= FANOUT,
            cache.inv(),
            cache.bounded(),
            cache.same_pages(&c0),
            c0 == *old(cache),
            pages == c0.contents(),
            c > 0,
            own == old(claimed)@,
            room == unclaimed(lo, hi, own),
            lv == level,
            level > 0,
            room.contains(page),
            fits(shape, page_at(pages, page), lv),
            children@.len() == FANOUT,
            forall|j: int| 0 <= j < FANOUT ==> #[trigger] children@[j] == child_of(page_at(pages, page), j as nat),
            children_sane(pages, c, page, lv, shape, room, i as nat),
            claimed@ == own.insert(page).union(child_nodes(pages, c, page, lv, i as nat)),
        decreases FANOUT - i,
    {
        let child: u64 = children[i];
        let ghost left = unclaimed(lo, hi, claimed@);
        let ghost before = claimed@;
        let ghost mid = *cache;
        proof {
            assert(left =~= room.remove(page).difference(child_nodes(pages, c, page, lv, i as nat)));
        }
        if child != 0 {
            match claim_tree(cache, claimed, lo, hi, child, level - 1, shape, Ghost(c)) {
                Ok(true) => {},
                Ok(false) => {
                    proof {
                        if tree_sane(pages, c, page, lv, shape, room) {
                            lemma_child_apart(pages, c, page, lv, shape, room, i as nat, left);
                        }
                    }
                    return Ok(false);
                },
                Err(e) => {
                    proof {
                        crate::listing::lemma_same_tree_explains(&mid, &c0, c, child, (lv - 1) as nat, e);
                        lemma_child_explains(&c0, c, page, lv, i as nat, e);
                    }
                    return Err(e);
                },
            }
        }
        proof {
            lemma_child_claimed(pages, c, page, lv, shape, room, i as nat, left);
            assert(claimed@ =~= own.insert(page).union(child_nodes(pages, c, page, lv, (i + 1) as nat)));
        }
        i += 1;
    }
    proof {
        lemma_composed(pages, c, page, lv, shape, room);
        assert(claimed@ =~= own.union(nodes_of(pages, c, page, lv)));
    }
    Ok(true)
}

/// The lowest path of a tree reaches a leaf.
pub fn reaches_leaf(cache: &mut PageCache, page: u64, level: u32, Ghost(c): Ghost<nat>) -> (outcome: Result<
    bool,
    ChiselError,
>)
    requires
        old(cache).inv(),
        old(cache).bounded(),
        c > 0,
    ensures
        final(cache).inv(),
        final(cache).bounded(),
        final(cache).same_pages(old(cache)),
        match outcome {
            Ok(found) => found == (node_at(old(cache).contents(), c, page, level as nat, 0, 0) is Some),
            Err(e) => tree_explains(old(cache), c, page, level as nat, e),
        },
    decreases level,
{
    if level == 0 {
        return Ok(true);
    }
    let ghost c0 = *cache;
    let ghost lv = level as nat;
    let children: Vec<u64> = match read_children(cache, page) {
        Ok(children) => children,
        Err(e) => {
            proof {
                lemma_top_explains(&c0, c, page, lv, e);
            }
            return Err(e);
        },
    };
    let child: u64 = children[0];
    let ghost c1 = *cache;
    proof {
        let span = reach(c, (lv - 1) as nat);
        lemma_reach_pos(c, (lv - 1) as nat);
        vstd::arithmetic::div_mod::lemma_div_basics(span as int);
        vstd::arithmetic::div_mod::lemma_small_mod(0, span);
        assert(0nat / span == 0 && 0nat % span == 0);
        assert(child == child_of(page_at(c0.contents(), page), 0));
    }
    if child == 0 {
        return Ok(false);
    }
    match reaches_leaf(cache, child, level - 1, Ghost(c)) {
        Ok(found) => Ok(found),
        Err(e) => {
            proof {
                crate::listing::lemma_same_tree_explains(&c0, &c1, c, child, (lv - 1) as nat, e);
                lemma_child_explains(&c0, c, page, lv, 0, e);
            }
            Err(e)
        },
    }
}

} // verus!
