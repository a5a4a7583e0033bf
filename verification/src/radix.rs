//! Paths through page trees.
//!
//! The page trees of this crate share one shape: interior pages hold child
//! page ids, leaves hold `c` slots each, and a zero child means that nothing
//! below it exists. A key descends by repeated division. What a tree is made
//! of is described by [`node_at`]: the page at a given level on the path of a
//! given key.

use vstd::prelude::*;

use crate::bytes::{le64, read_u64, write_u64};
use crate::page_io::zero_page;
use crate::page::{CHECKSUM_OFFSET, DATA_PAGE_HEADER_SIZE, PAGE_SIZE};

verus! {

/// Child pointers per interior page.
pub const FANOUT: usize = 1021;

/// Number of keys below a node at `level` when a leaf holds `c` of them.
pub open spec fn reach(c: nat, level: nat) -> nat
    decreases level,
{
    if level == 0 {
        c
    } else {
        FANOUT as nat * reach(c, (level - 1) as nat)
    }
}

/// Number of keys, as far as 64 bits go.
pub open spec fn saturated(n: nat) -> u64 {
    if n > u64::MAX {
        u64::MAX
    } else {
        n as u64
    }
}

/// The pointer in slot `i` of an interior page with contents `s`.
pub open spec fn child_of(s: Seq<u8>, i: nat) -> u64 {
    le64(s, DATA_PAGE_HEADER_SIZE + 8 * i) as u64
}

/// The contents of a page; a page that does not exist counts as zeroed.
pub open spec fn page_at(pages: Map<u64, Seq<u8>>, id: u64) -> Seq<u8> {
    if pages.contains_key(id) {
        pages[id]
    } else {
        zero_page()
    }
}

/// The page at level `l` on the path of key `k` below node `page`, which is at
/// `level`; `None` if the path ends before.
pub open spec fn node_at(
    pages: Map<u64, Seq<u8>>,
    c: nat,
    page: u64,
    level: nat,
    k: nat,
    l: nat,
) -> Option<u64>
    decreases level,
{
    if l >= level {
        Some(page)
    } else {
        let span = reach(c, (level - 1) as nat);
        let child = child_of(page_at(pages, page), k / span);
        if child == 0 {
            None
        } else {
            node_at(pages, c, child, (level - 1) as nat, k % span, l)
        }
    }
}

/// The paths of `k` and `h` below a node at `level` agree down to level `l`.
pub open spec fn shares(c: nat, level: nat, k: nat, h: nat, l: nat) -> bool
    decreases level,
{
    if l >= level {
        true
    } else {
        let span = reach(c, (level - 1) as nat);
        k / span == h / span && shares(c, (level - 1) as nat, k % span, h % span, l)
    }
}

/// The slot of key `k` in its leaf.
pub open spec fn slot_of(c: nat, level: nat, k: nat) -> nat
    decreases level,
{
    if level == 0 {
        k
    } else {
        slot_of(c, (level - 1) as nat, k % reach(c, (level - 1) as nat))
    }
}

/// Every node below `page` lies in `good`.
pub open spec fn tree_in(pages: Map<u64, Seq<u8>>, c: nat, page: u64, level: nat, good: Set<u64>) -> bool {
    forall|k: nat, l: nat|
        k < reach(c, level) && l <= level ==> ((#[trigger] node_at(pages, c, page, level, k, l)) matches Some(id)
            ==> good.contains(id))
}

/// Every node on the path of `k` lies in `good`.
pub open spec fn path_in(
    pages: Map<u64, Seq<u8>>,
    c: nat,
    page: u64,
    level: nat,
    k: nat,
    good: Set<u64>,
) -> bool {
    forall|l: nat|
        l <= level ==> ((#[trigger] node_at(pages, c, page, level, k, l)) matches Some(id) ==> good.contains(id))
}

/// No page occurs at two places of the tree.
pub open spec fn is_tree(pages: Map<u64, Seq<u8>>, c: nat, page: u64, level: nat) -> bool {
    forall|k1: nat, l1: nat, k2: nat, l2: nat|
        k1 < reach(c, level) && k2 < reach(c, level) && l1 <= level && l2 <= level && (#[trigger] node_at(
            pages,
            c,
            page,
            level,
            k1,
            l1,
        )) is Some && node_at(pages, c, page, level, k1, l1) == (#[trigger] node_at(pages, c, page, level, k2, l2))
            ==> l1 == l2 && shares(c, level, k1, k2, l1)
}

/// `news` are the nodes of the path of `h` below `n`, leaf first, and off that
/// path the tree below `n` is the tree that was below `page`.
pub open spec fn replaced(
    before: Map<u64, Seq<u8>>,
    after: Map<u64, Seq<u8>>,
    c: nat,
    page: u64,
    n: u64,
    level: nat,
    h: nat,
    news: Seq<u64>,
) -> bool {
    &&& news.len() == level + 1
    &&& news[level as int] == n
    &&& forall|k: nat, l: nat|
        k < reach(c, level) && l <= level ==> #[trigger] node_at(after, c, n, level, k, l) == (if shares(
            c,
            level,
            k,
            h,
            l,
        ) {
            Some(news[l as int])
        } else {
            node_at(before, c, page, level, k, l)
        })
}

/// The two page maps agree on `good`.
pub open spec fn same_on(a: Map<u64, Seq<u8>>, b: Map<u64, Seq<u8>>, good: Set<u64>) -> bool {
    forall|id: u64| #[trigger] good.contains(id) ==> page_at(a, id) == page_at(b, id)
}

pub proof fn lemma_reach_pos(c: nat, level: nat)
    requires
        c > 0,
    ensures
        reach(c, level) > 0,
    decreases level,
{
    if level > 0 {
        lemma_reach_pos(c, (level - 1) as nat);
    }
}

/// A key below a node at `level` takes a child that exists, and goes on with a
/// key below it.
pub proof fn lemma_descend(c: nat, level: nat, k: nat)
    requires
        c > 0,
        level > 0,
        k < reach(c, level),
    ensures
        reach(c, (level - 1) as nat) > 0,
        k / reach(c, (level - 1) as nat) < FANOUT,
        k % reach(c, (level - 1) as nat) < reach(c, (level - 1) as nat),
{
    let span = reach(c, (level - 1) as nat);
    lemma_reach_pos(c, (level - 1) as nat);
    assert(k / span < FANOUT) by (nonlinear_arith)
        requires
            k < 1021 * span,
            span > 0,
            FANOUT == 1021,
    ;
}

/// A key is given by its child index and the key below that child.
pub proof fn lemma_ascend(c: nat, level: nat, i: nat, k: nat)
    requires
        c > 0,
        level > 0,
        i < FANOUT,
        k < reach(c, (level - 1) as nat),
    ensures
        i * reach(c, (level - 1) as nat) + k < reach(c, level),
        (i * reach(c, (level - 1) as nat) + k) / reach(c, (level - 1) as nat) == i,
        (i * reach(c, (level - 1) as nat) + k) % reach(c, (level - 1) as nat) == k,
{
    let span = reach(c, (level - 1) as nat);
    lemma_reach_pos(c, (level - 1) as nat);
    assert(i * span + k < 1021 * span) by (nonlinear_arith)
        requires
            i + 1 <= 1021,
            k < span,
    ;
    vstd::arithmetic::div_mod::lemma_fundamental_div_mod_converse(
        (i * span + k) as int,
        span as int,
        i as int,
        k as int,
    );
}

/// A leaf slot index is in range.
pub proof fn lemma_slot_bound(c: nat, level: nat, k: nat)
    requires
        c > 0,
        k < reach(c, level),
    ensures
        slot_of(c, level, k) < c,
    decreases level,
{
    if level > 0 {
        lemma_descend(c, level, k);
        lemma_slot_bound(c, (level - 1) as nat, k % reach(c, (level - 1) as nat));
    }
}

/// A key is determined by its leaf and its slot there.
pub proof fn lemma_slot_unique(c: nat, level: nat, k: nat, h: nat)
    requires
        c > 0,
        k < reach(c, level),
        h < reach(c, level),
        shares(c, level, k, h, 0),
        slot_of(c, level, k) == slot_of(c, level, h),
    ensures
        k == h,
    decreases level,
{
    if level > 0 {
        let span = reach(c, (level - 1) as nat);
        lemma_descend(c, level, k);
        lemma_descend(c, level, h);
        lemma_slot_unique(c, (level - 1) as nat, k % span, h % span);
        vstd::arithmetic::div_mod::lemma_fundamental_div_mod(k as int, span as int);
        vstd::arithmetic::div_mod::lemma_fundamental_div_mod(h as int, span as int);
    }
}

/// A path agrees with itself.
pub proof fn lemma_shares_self(c: nat, level: nat, k: nat, l: nat)
    requires
        c > 0,
    ensures
        shares(c, level, k, k, l),
    decreases level,
{
    if l < level {
        lemma_reach_pos(c, (level - 1) as nat);
        lemma_shares_self(c, (level - 1) as nat, k % reach(c, (level - 1) as nat), l);
    }
}

/// Sharing a path is symmetric and transitive.
pub proof fn lemma_shares_euclid(c: nat, level: nat, a: nat, b: nat, d: nat, l: nat)
    requires
        c > 0,
        shares(c, level, a, b, l),
        shares(c, level, a, d, l),
    ensures
        shares(c, level, b, d, l),
        shares(c, level, b, a, l),
    decreases level,
{
    if l < level {
        lemma_reach_pos(c, (level - 1) as nat);
        let span = reach(c, (level - 1) as nat);
        lemma_shares_euclid(c, (level - 1) as nat, a % span, b % span, d % span, l);
    }
}

/// Keys that share a path down to `l` have the same nodes on it.
pub proof fn lemma_shared_node(
    pages: Map<u64, Seq<u8>>,
    c: nat,
    page: u64,
    level: nat,
    k: nat,
    h: nat,
    l: nat,
)
    requires
        c > 0,
        shares(c, level, k, h, l),
    ensures
        node_at(pages, c, page, level, k, l) == node_at(pages, c, page, level, h, l),
    decreases level,
{
    if l < level {
        lemma_reach_pos(c, (level - 1) as nat);
        let span = reach(c, (level - 1) as nat);
        let child = child_of(page_at(pages, page), k / span);
        if child != 0 {
            lemma_shared_node(pages, c, child, (level - 1) as nat, k % span, h % span, l);
        }
    }
}

/// The nodes on a path depend on those nodes only.
pub proof fn lemma_path_same(
    a: Map<u64, Seq<u8>>,
    b: Map<u64, Seq<u8>>,
    c: nat,
    page: u64,
    level: nat,
    k: nat,
    good: Set<u64>,
)
    requires
        c > 0,
        path_in(a, c, page, level, k, good),
        same_on(a, b, good),
    ensures
        forall|l: nat| l <= level ==> node_at(a, c, page, level, k, l) == #[trigger] node_at(b, c, page, level, k, l),
    decreases level,
{
    if level > 0 {
        lemma_reach_pos(c, (level - 1) as nat);
        assert(node_at(a, c, page, level, k, level) == Some(page));
        assert(good.contains(page));
        let span = reach(c, (level - 1) as nat);
        let child = child_of(page_at(a, page), k / span);
        if child != 0 {
            assert forall|l: nat| l <= level - 1 implies ((#[trigger] node_at(
                a,
                c,
                child,
                (level - 1) as nat,
                k % span,
                l,
            )) matches Some(id) ==> good.contains(id)) by {
                assert(node_at(a, c, page, level, k, l) == node_at(a, c, child, (level - 1) as nat, k % span, l));
            }
            lemma_path_same(a, b, c, child, (level - 1) as nat, k % span, good);
        }
        assert forall|l: nat| l <= level implies node_at(a, c, page, level, k, l) == #[trigger] node_at(
            b,
            c,
            page,
            level,
            k,
            l,
        ) by {
            if l < level && child != 0 {
                assert(node_at(a, c, child, (level - 1) as nat, k % span, l) == node_at(
                    b,
                    c,
                    child,
                    (level - 1) as nat,
                    k % span,
                    l,
                ));
            }
        }
    }
}

/// A tree depends on its nodes only.
pub proof fn lemma_tree_same(
    a: Map<u64, Seq<u8>>,
    b: Map<u64, Seq<u8>>,
    c: nat,
    page: u64,
    level: nat,
    good: Set<u64>,
)
    requires
        c > 0,
        tree_in(a, c, page, level, good),
        same_on(a, b, good),
    ensures
        forall|k: nat, l: nat|
            k < reach(c, level) && l <= level ==> node_at(a, c, page, level, k, l) == #[trigger] node_at(
                b,
                c,
                page,
                level,
                k,
                l,
            ),
        tree_in(b, c, page, level, good),
{
    assert forall|k: nat, l: nat| k < reach(c, level) && l <= level implies node_at(a, c, page, level, k, l)
        == #[trigger] node_at(b, c, page, level, k, l) by {
        lemma_path_same(a, b, c, page, level, k, good);
    }
    assert forall|k: nat, l: nat| k < reach(c, level) && l <= level implies ((#[trigger] node_at(
        b,
        c,
        page,
        level,
        k,
        l,
    )) matches Some(id) ==> good.contains(id)) by {
        assert(node_at(a, c, page, level, k, l) == node_at(b, c, page, level, k, l));
    }
}

/// A node whose children lie within a set, as it does itself, lies within it with all
/// that is below.
pub proof fn lemma_node_in(pages: Map<u64, Seq<u8>>, c: nat, page: u64, level: nat, good: Set<u64>)
    requires
        c > 0,
        level > 0,
        good.contains(page),
        forall|i: nat|
            i < FANOUT && #[trigger] child_of(page_at(pages, page), i) != 0 ==> tree_in(
                pages,
                c,
                child_of(page_at(pages, page), i),
                (level - 1) as nat,
                good,
            ),
    ensures
        tree_in(pages, c, page, level, good),
{
    let span = reach(c, (level - 1) as nat);
    lemma_reach_pos(c, (level - 1) as nat);
    assert forall|k: nat, l: nat| k < reach(c, level) && l <= level implies ((#[trigger] node_at(
        pages,
        c,
        page,
        level,
        k,
        l,
    )) matches Some(id) ==> good.contains(id)) by {
        if l < level {
            lemma_descend(c, level, k);
            let child = child_of(page_at(pages, page), k / span);
            if child != 0 {
                assert(tree_in(pages, c, child, (level - 1) as nat, good));
                assert(node_at(pages, c, page, level, k, l) == node_at(
                    pages,
                    c,
                    child,
                    (level - 1) as nat,
                    k % span,
                    l,
                ));
            }
        }
    }
}

/// Below a child of a node in the tree there is a tree.
pub proof fn lemma_subtree_in(
    pages: Map<u64, Seq<u8>>,
    c: nat,
    page: u64,
    level: nat,
    i: nat,
    good: Set<u64>,
)
    requires
        c > 0,
        level > 0,
        i < FANOUT,
        child_of(page_at(pages, page), i) != 0,
        tree_in(pages, c, page, level, good),
    ensures
        tree_in(pages, c, child_of(page_at(pages, page), i), (level - 1) as nat, good),
{
    let span = reach(c, (level - 1) as nat);
    let child = child_of(page_at(pages, page), i);
    assert forall|k: nat, l: nat| k < span && l <= level - 1 implies ((#[trigger] node_at(
        pages,
        c,
        child,
        (level - 1) as nat,
        k,
        l,
    )) matches Some(id) ==> good.contains(id)) by {
        lemma_ascend(c, level, i, k);
        let whole = i * span + k;
        assert(node_at(pages, c, page, level, whole, l) == node_at(pages, c, child, (level - 1) as nat, k, l));
    }
}

/// Replacing a leaf: the one-node tree of level 0.
pub proof fn lemma_replaced_leaf(
    before: Map<u64, Seq<u8>>,
    after: Map<u64, Seq<u8>>,
    c: nat,
    page: u64,
    n: u64,
    h: nat,
)
    ensures
        replaced(before, after, c, page, n, 0, h, seq![n]),
{
}

/// Replacing an interior node: `n` is a copy of `page` in which the child on
/// the path of `h` has been replaced. `kid` is the child on that path as the
/// replacement saw it: the child of `page`, or an empty node made for it.
pub proof fn lemma_replaced_interior(
    before: Map<u64, Seq<u8>>,
    mid: Map<u64, Seq<u8>>,
    after: Map<u64, Seq<u8>>,
    c: nat,
    page: u64,
    n: u64,
    level: nat,
    h: nat,
    kid: u64,
    news: Seq<u64>,
    good: Set<u64>,
)
    requires
        c > 0,
        level > 0,
        h < reach(c, level),
        tree_in(before, c, page, level, good),
        same_on(before, after, good),
        ({
            let span = reach(c, (level - 1) as nat);
            let i = h / span;
            let child = child_of(page_at(before, page), i);
            &&& news.len() == level
            &&& news[level - 1] != 0
            &&& child_of(page_at(after, n), i) == news[level - 1]
            &&& forall|j: nat| j < FANOUT && j != i ==> #[trigger] child_of(page_at(after, n), j) == child_of(page_at(before, page), j)
            &&& replaced(mid, after, c, kid, news[level - 1], (level - 1) as nat, h % span, news)
            &&& if child != 0 {
                &&& kid == child
                &&& same_on(before, mid, good)
            } else {
                forall|j: nat| j < FANOUT ==> #[trigger] child_of(page_at(mid, kid), j) == 0
            }
        }),
    ensures
        replaced(before, after, c, page, n, level, h, news.push(n)),
{
    let span = reach(c, (level - 1) as nat);
    let i = h / span;
    let child = child_of(page_at(before, page), i);
    let down = (level - 1) as nat;
    lemma_descend(c, level, h);
    if child != 0 {
        lemma_subtree_in(before, c, page, level, i, good);
        lemma_tree_same(before, mid, c, child, down, good);
    }
    assert forall|k: nat, l: nat| k < reach(c, level) && l <= level implies #[trigger] node_at(
        after,
        c,
        n,
        level,
        k,
        l,
    ) == (if shares(c, level, k, h, l) {
        Some(news.push(n)[l as int])
    } else {
        node_at(before, c, page, level, k, l)
    }) by {
        if l < level {
            lemma_descend(c, level, k);
            let j = k / span;
            if j == i {
                assert(node_at(after, c, n, level, k, l) == node_at(after, c, news[level - 1], down, k % span, l));
                if !shares(c, down, k % span, h % span, l) {
                    assert(node_at(after, c, news[level - 1], down, k % span, l) == node_at(
                        mid,
                        c,
                        kid,
                        down,
                        k % span,
                        l,
                    ));
                    if child != 0 {
                        assert(node_at(before, c, child, down, k % span, l) == node_at(
                            mid,
                            c,
                            child,
                            down,
                            k % span,
                            l,
                        ));
                    } else {
                        assert(l < down);
                        lemma_descend(c, down, k % span);
                        assert(child_of(page_at(mid, kid), (k % span) / reach(c, (down - 1) as nat)) == 0);
                    }
                }
            } else {
                assert(child_of(page_at(after, n), j) == child_of(page_at(before, page), j));
                let other = child_of(page_at(before, page), j);
                if other != 0 {
                    lemma_subtree_in(before, c, page, level, j, good);
                    lemma_tree_same(before, after, c, other, down, good);
                    assert(node_at(before, c, other, down, k % span, l) == node_at(
                        after,
                        c,
                        other,
                        down,
                        k % span,
                        l,
                    ));
                }
            }
        }
    }
}

/// After a replacement every node is new or was there before.
pub proof fn lemma_replaced_in(
    before: Map<u64, Seq<u8>>,
    after: Map<u64, Seq<u8>>,
    c: nat,
    page: u64,
    n: u64,
    level: nat,
    h: nat,
    news: Seq<u64>,
    good: Set<u64>,
    all: Set<u64>,
)
    requires
        replaced(before, after, c, page, n, level, h, news),
        tree_in(before, c, page, level, good),
        good.subset_of(all),
        forall|i: int| 0 <= i < news.len() ==> all.contains(#[trigger] news[i]),
    ensures
        tree_in(after, c, n, level, all),
{
    assert forall|k: nat, l: nat| k < reach(c, level) && l <= level implies ((#[trigger] node_at(
        after,
        c,
        n,
        level,
        k,
        l,
    )) matches Some(id) ==> all.contains(id)) by {
        if shares(c, level, k, h, l) {
            assert(all.contains(news[l as int]));
        } else {
            assert(node_at(after, c, n, level, k, l) == node_at(before, c, page, level, k, l));
        }
    }
}

/// A replacement by fresh pages keeps every page at one place, and takes the
/// replaced pages out of the tree.
pub proof fn lemma_replaced_is_tree(
    before: Map<u64, Seq<u8>>,
    after: Map<u64, Seq<u8>>,
    c: nat,
    page: u64,
    n: u64,
    level: nat,
    h: nat,
    news: Seq<u64>,
    good: Set<u64>,
)
    requires
        c > 0,
        h < reach(c, level),
        replaced(before, after, c, page, n, level, h, news),
        tree_in(before, c, page, level, good),
        is_tree(before, c, page, level),
        news.no_duplicates(),
        forall|i: int| 0 <= i < news.len() ==> !good.contains(#[trigger] news[i]),
    ensures
        is_tree(after, c, n, level),
        forall|l: nat, id: u64|
            l <= level && #[trigger] node_at(before, c, page, level, h, l) == Some(id) ==> tree_in(
                after,
                c,
                n,
                level,
                #[trigger] Set::<u64>::full().remove(id),
            ),
{
    assert forall|k1: nat, l1: nat, k2: nat, l2: nat|
        k1 < reach(c, level) && k2 < reach(c, level) && l1 <= level && l2 <= level && (#[trigger] node_at(
            after,
            c,
            n,
            level,
            k1,
            l1,
        )) is Some && node_at(after, c, n, level, k1, l1) == (#[trigger] node_at(
            after,
            c,
            n,
            level,
            k2,
            l2,
        )) implies l1 == l2 && shares(c, level, k1, k2, l1) by {
        let id = node_at(after, c, n, level, k1, l1)->0;
        let s1 = shares(c, level, k1, h, l1);
        let s2 = shares(c, level, k2, h, l2);
        if s1 && s2 {
            assert(news[l1 as int] == news[l2 as int]);
            lemma_shares_self(c, level, k1, l1);
            lemma_shares_euclid(c, level, k1, h, k1, l1);
            lemma_shares_self(c, level, k2, l2);
            lemma_shares_euclid(c, level, k2, h, k2, l2);
            lemma_shares_euclid(c, level, h, k1, k2, l1);
        } else if s1 {
            assert(node_at(before, c, page, level, k2, l2) == Some(id));
            assert(good.contains(id));
            assert(!good.contains(news[l1 as int]));
        } else if s2 {
            assert(node_at(before, c, page, level, k1, l1) == Some(id));
            assert(good.contains(id));
            assert(!good.contains(news[l2 as int]));
        } else {
            assert(node_at(before, c, page, level, k1, l1) == node_at(before, c, page, level, k2, l2));
        }
    }
    assert forall|l: nat, id: u64|
        l <= level && #[trigger] node_at(before, c, page, level, h, l) == Some(id) implies tree_in(
        after,
        c,
        n,
        level,
        #[trigger] Set::<u64>::full().remove(id),
    ) by {
        assert(good.contains(id));
        assert forall|k: nat, m: nat| k < reach(c, level) && m <= level implies ((#[trigger] node_at(
            after,
            c,
            n,
            level,
            k,
            m,
        )) matches Some(x) ==> Set::<u64>::full().remove(id).contains(x)) by {
            if node_at(after, c, n, level, k, m) == Some(id) {
                if shares(c, level, k, h, m) {
                    assert(!good.contains(news[m as int]));
                } else {
                    assert(node_at(before, c, page, level, k, m) == Some(id));
                    assert(shares(c, level, k, h, m));
                }
            }
        }
    }
}

/// Read the pointer in slot `i` of an interior page.
pub fn read_child(buf: &[u8; PAGE_SIZE], i: usize) -> (child: u64)
    requires
        i < FANOUT,
    ensures
        child == child_of(buf@, i as nat),
{
    read_u64(buf, DATA_PAGE_HEADER_SIZE + i * 8)
}

/// Write the pointer in slot `i` of an interior page.
pub fn write_child(buf: &mut [u8; PAGE_SIZE], i: usize, child: u64)
    requires
        i < FANOUT,
    ensures
        child_of(final(buf)@, i as nat) == child,
        forall|j: nat| j < FANOUT && j != i ==> #[trigger] child_of(final(buf)@, j) == child_of(old(buf)@, j),
        crate::bytes::same_outside(
            old(buf)@,
            final(buf)@,
            DATA_PAGE_HEADER_SIZE + 8 * i,
            DATA_PAGE_HEADER_SIZE + 8 * i + 8,
        ),
{
    write_u64(buf, DATA_PAGE_HEADER_SIZE + i * 8, child);
}

/// `reach(c, level)`, capped at `u64::MAX`.
pub fn saturating_reach(c: u64, level: u32) -> (n: u64)
    requires
        c > 0,
    ensures
        n == saturated(reach(c as nat, level as nat)),
{
    let mut n: u64 = c;
    let mut i: u32 = 0;
    while i < level
        invariant
            c > 0,
            i <= level,
            n == saturated(reach(c as nat, i as nat)),
        decreases level - i,
    {
        proof {
            lemma_reach_pos(c as nat, i as nat);
        }
        if n <= u64::MAX / FANOUT as u64 {
            n = n * FANOUT as u64;
        } else {
            n = u64::MAX;
        }
        i += 1;
    }
    n
}

/// The pointers of a page do not depend on its checksum.
pub proof fn lemma_child_outside(a: Seq<u8>, b: Seq<u8>, i: nat)
    requires
        i < FANOUT,
        crate::bytes::same_outside(a, b, CHECKSUM_OFFSET as int, PAGE_SIZE as int),
        a.len() == PAGE_SIZE,
    ensures
        child_of(a, i) == child_of(b, i),
{
}

} // verus!
