//! Replacing or editing single nodes of a page tree.

use vstd::prelude::*;

use crate::radix::{
    child_of, is_tree, lemma_ascend, lemma_descend, lemma_reach_pos, lemma_shared_node, lemma_shares_euclid,
    lemma_shares_self, lemma_slot_bound, lemma_slot_unique, lemma_subtree_in, lemma_tree_same, node_at, page_at, reach,
    same_on, shares, slot_of, tree_in, FANOUT,
};
use crate::spine::tree_value;

verus! {

/// What is left of key `h` at level `lv` on the way down from `level`.
pub open spec fn rest_of(c: nat, level: nat, h: nat, lv: nat) -> nat
    decreases level,
{
    if level <= lv {
        h
    } else {
        rest_of(c, (level - 1) as nat, h % reach(c, (level - 1) as nat), lv)
    }
}

/// The page `cur` occurs below `page` at most at level `lv` on the path of `h`.
pub open spec fn only_at(
    pages: Map<u64, Seq<u8>>,
    c: nat,
    page: u64,
    level: nat,
    h: nat,
    lv: nat,
    cur: u64,
) -> bool {
    forall|k: nat, l: nat|
        k < reach(c, level) && l <= level && #[trigger] node_at(pages, c, page, level, k, l) == Some(cur) ==> l == lv
            && shares(c, level, k, h, lv)
}

/// In a tree every page occurs at one place.
pub proof fn lemma_only_at(pages: Map<u64, Seq<u8>>, c: nat, page: u64, level: nat, h: nat, lv: nat, cur: u64)
    requires
        c > 0,
        h < reach(c, level),
        lv <= level,
        is_tree(pages, c, page, level),
        node_at(pages, c, page, level, h, lv) == Some(cur),
    ensures
        only_at(pages, c, page, level, h, lv, cur),
{
}

/// Below `root1` is what was below `root0`, except that the node at level `l0`
/// on the path of `h` is `n`.
pub open spec fn swapped(
    before: Map<u64, Seq<u8>>,
    after: Map<u64, Seq<u8>>,
    c: nat,
    root0: u64,
    root1: u64,
    level: nat,
    h: nat,
    l0: nat,
    n: u64,
) -> bool {
    forall|k: nat, l: nat|
        k < reach(c, level) && l <= level ==> #[trigger] node_at(after, c, root1, level, k, l) == (if l == l0 && shares(
            c,
            level,
            k,
            h,
            l0,
        ) {
            Some(n)
        } else {
            node_at(before, c, root0, level, k, l)
        })
}

/// What is left of a key is within reach, and leads on along the same path.
pub proof fn lemma_rest(pages: Map<u64, Seq<u8>>, c: nat, page: u64, level: nat, h: nat, lv: nat)
    requires
        c > 0,
        h < reach(c, level),
        lv <= level,
    ensures
        rest_of(c, level, h, lv) < reach(c, lv),
        slot_of(c, level, h) == slot_of(c, lv, rest_of(c, level, h, lv)),
        forall|l: nat|
            l <= lv ==> (node_at(pages, c, page, level, h, lv) matches Some(cur) ==> #[trigger] node_at(
                pages,
                c,
                page,
                level,
                h,
                l,
            ) == node_at(pages, c, cur, lv, rest_of(c, level, h, lv), l)),
        forall|l: nat|
            l <= lv ==> (node_at(pages, c, page, level, h, lv) is None ==> (#[trigger] node_at(
                pages,
                c,
                page,
                level,
                h,
                l,
            )) is None),
    decreases level,
{
    if level > lv {
        let span = reach(c, (level - 1) as nat);
        lemma_descend(c, level, h);
        let child = child_of(page_at(pages, page), h / span);
        lemma_rest(pages, c, child, (level - 1) as nat, h % span, lv);
        assert forall|l: nat| l <= lv implies (node_at(pages, c, page, level, h, lv) matches Some(cur) ==> #[trigger] node_at(
            pages,
            c,
            page,
            level,
            h,
            l,
        ) == node_at(pages, c, cur, lv, rest_of(c, level, h, lv), l)) by {
            if child != 0 {
                assert(node_at(pages, c, page, level, h, l) == node_at(pages, c, child, (level - 1) as nat, h % span, l));
            }
        }
        assert forall|l: nat| l <= lv implies (node_at(pages, c, page, level, h, lv) is None ==> (#[trigger] node_at(
            pages,
            c,
            page,
            level,
            h,
            l,
        )) is None) by {
            if child != 0 {
                assert(node_at(pages, c, page, level, h, l) == node_at(pages, c, child, (level - 1) as nat, h % span, l));
            }
        }
    }
}

/// One level further down.
pub proof fn lemma_rest_down(c: nat, level: nat, h: nat, lv: nat)
    requires
        c > 0,
        0 < lv <= level,
    ensures
        rest_of(c, level, h, (lv - 1) as nat) == rest_of(c, level, h, lv) % reach(c, (lv - 1) as nat),
    decreases level,
{
    lemma_reach_pos(c, (lv - 1) as nat);
    lemma_reach_pos(c, (level - 1) as nat);
    if level > lv {
        lemma_rest_down(c, (level - 1) as nat, h % reach(c, (level - 1) as nat), lv);
    } else {
        let r = h % reach(c, (lv - 1) as nat);
        assert(rest_of(c, (level - 1) as nat, r, (lv - 1) as nat) == r);
    }
}

/// The child on the path of `h` below a page keeps the uniqueness of `cur`, and
/// no other child leads to `cur`.
proof fn lemma_only_down(
    pages: Map<u64, Seq<u8>>,
    c: nat,
    page: u64,
    level: nat,
    h: nat,
    lv: nat,
    cur: u64,
    j: nat,
)
    requires
        c > 0,
        lv < level,
        h < reach(c, level),
        j < FANOUT,
        child_of(page_at(pages, page), j) != 0,
        only_at(pages, c, page, level, h, lv, cur),
    ensures
        page != cur,
        j == h / reach(c, (level - 1) as nat) ==> only_at(
            pages,
            c,
            child_of(page_at(pages, page), j),
            (level - 1) as nat,
            h % reach(c, (level - 1) as nat),
            lv,
            cur,
        ),
        j != h / reach(c, (level - 1) as nat) ==> tree_in(
            pages,
            c,
            child_of(page_at(pages, page), j),
            (level - 1) as nat,
            Set::<u64>::full().remove(cur),
        ),
{
    let down = (level - 1) as nat;
    let span = reach(c, down);
    let child = child_of(page_at(pages, page), j);
    lemma_descend(c, level, h);
    lemma_reach_pos(c, level);
    assert(node_at(pages, c, page, level, h, level) == Some(page));
    assert forall|k: nat, l: nat|
        k < reach(c, down) && l <= down && #[trigger] node_at(pages, c, child, down, k, l) == Some(cur) implies {
        &&& l == lv
        &&& j == h / span
        &&& shares(c, down, k, h % span, lv)
    } by {
        lemma_ascend(c, level, j, k);
        let full = j * span + k;
        assert(node_at(pages, c, page, level, full, l) == Some(cur));
        assert(shares(c, level, full, h, lv));
    }
}

/// A subtree that neither holds `cur` nor leaves `good` stays.
proof fn lemma_off_path(
    before: Map<u64, Seq<u8>>,
    after: Map<u64, Seq<u8>>,
    c: nat,
    child: u64,
    down: nat,
    cur: u64,
    good: Set<u64>,
)
    requires
        c > 0,
        tree_in(before, c, child, down, good),
        tree_in(before, c, child, down, Set::<u64>::full().remove(cur)),
        forall|id: u64| #[trigger] good.contains(id) && id != cur ==> page_at(after, id) == page_at(before, id),
    ensures
        forall|k: nat, l: nat|
            k < reach(c, down) && l <= down ==> #[trigger] node_at(after, c, child, down, k, l) == node_at(
                before,
                c,
                child,
                down,
                k,
                l,
            ),
{
    let both = good.remove(cur);
    assert forall|k: nat, l: nat| k < reach(c, down) && l <= down implies ((#[trigger] node_at(
        before,
        c,
        child,
        down,
        k,
        l,
    )) matches Some(id) ==> both.contains(id)) by {
        if node_at(before, c, child, down, k, l) is Some {
            assert(good.contains(node_at(before, c, child, down, k, l)->0));
            assert(Set::<u64>::full().remove(cur).contains(node_at(before, c, child, down, k, l)->0));
        }
    }
    assert(same_on(before, after, both));
    lemma_tree_same(before, after, c, child, down, both);
}

/// Editing the page at one place of a tree, without changing its pointers,
/// moves nothing.
pub proof fn lemma_touched(
    before: Map<u64, Seq<u8>>,
    after: Map<u64, Seq<u8>>,
    c: nat,
    page: u64,
    level: nat,
    h: nat,
    lv: nat,
    cur: u64,
    good: Set<u64>,
)
    requires
        c > 0,
        lv <= level,
        h < reach(c, level),
        only_at(before, c, page, level, h, lv, cur),
        tree_in(before, c, page, level, good),
        forall|id: u64| #[trigger] good.contains(id) && id != cur ==> page_at(after, id) == page_at(before, id),
        lv > 0 ==> forall|j: nat|
            j < FANOUT ==> #[trigger] child_of(page_at(after, cur), j) == child_of(page_at(before, cur), j),
    ensures
        forall|k: nat, l: nat|
            k < reach(c, level) && l <= level ==> #[trigger] node_at(after, c, page, level, k, l) == node_at(
                before,
                c,
                page,
                level,
                k,
                l,
            ),
    decreases level,
{
    if level > 0 {
        let down = (level - 1) as nat;
        let span = reach(c, down);
        lemma_descend(c, level, h);
        lemma_reach_pos(c, level);
        assert(node_at(before, c, page, level, h, level) == Some(page));
        assert(good.contains(page));
        if level > lv && page == cur {
            assert(false);
        }
        assert forall|j: nat| j < FANOUT implies #[trigger] child_of(page_at(after, page), j) == child_of(
            page_at(before, page),
            j,
        ) by {
            if page == cur {
                assert(level == lv);
            }
        }
        assert forall|k: nat, l: nat| k < reach(c, level) && l <= level implies #[trigger] node_at(
            after,
            c,
            page,
            level,
            k,
            l,
        ) == node_at(before, c, page, level, k, l) by {
            if l < level {
                lemma_descend(c, level, k);
                let j = k / span;
                let child = child_of(page_at(before, page), j);
                assert(child_of(page_at(after, page), j) == child);
                if child != 0 {
                    lemma_subtree_in(before, c, page, level, j, good);
                    if level > lv {
                        lemma_only_down(before, c, page, level, h, lv, cur, j);
                        if j == h / span {
                            lemma_touched(before, after, c, child, down, h % span, lv, cur, good);
                        } else {
                            lemma_off_path(before, after, c, child, down, cur, good);
                        }
                    } else {
                        lemma_below_cur(before, c, page, level, h, cur, j);
                        lemma_off_path(before, after, c, child, down, cur, good);
                    }
                    assert(node_at(after, c, child, down, k % span, l) == node_at(before, c, child, down, k % span, l));
                }
            }
        }
    }
}

/// If `cur` is only at the top, it is not below.
proof fn lemma_below_cur(pages: Map<u64, Seq<u8>>, c: nat, page: u64, level: nat, h: nat, cur: u64, j: nat)
    requires
        c > 0,
        level > 0,
        j < FANOUT,
        child_of(page_at(pages, page), j) != 0,
        only_at(pages, c, page, level, h, level, cur),
    ensures
        tree_in(pages, c, child_of(page_at(pages, page), j), (level - 1) as nat, Set::<u64>::full().remove(cur)),
{
    let down = (level - 1) as nat;
    let child = child_of(page_at(pages, page), j);
    assert forall|k: nat, l: nat| k < reach(c, down) && l <= down implies ((#[trigger] node_at(
        pages,
        c,
        child,
        down,
        k,
        l,
    )) matches Some(id) ==> Set::<u64>::full().remove(cur).contains(id)) by {
        lemma_ascend(c, level, j, k);
        lemma_reach_pos(c, down);
        let full = j * reach(c, down) + k;
        assert(node_at(pages, c, page, level, full, l) == node_at(pages, c, child, down, k, l));
    }
}

/// Pointing `cur` at `n`, which looks like the child that was there, or is empty
/// if there was none.
pub proof fn lemma_swapped(
    before: Map<u64, Seq<u8>>,
    after: Map<u64, Seq<u8>>,
    c: nat,
    page: u64,
    level: nat,
    h: nat,
    lv: nat,
    cur: u64,
    n: u64,
    good: Set<u64>,
)
    requires
        c > 0,
        0 < lv <= level,
        h < reach(c, level),
        node_at(before, c, page, level, h, lv) == Some(cur),
        only_at(before, c, page, level, h, lv, cur),
        tree_in(before, c, page, level, good),
        forall|id: u64| #[trigger] good.contains(id) && id != cur ==> page_at(after, id) == page_at(before, id),
        n != 0,
        ({
            let i = rest_of(c, level, h, lv) / reach(c, (lv - 1) as nat);
            let x = child_of(page_at(before, cur), i);
            &&& child_of(page_at(after, cur), i) == n
            &&& forall|j: nat| j < FANOUT && j != i ==> #[trigger] child_of(page_at(after, cur), j) == child_of(
                page_at(before, cur),
                j,
            )
            &&& forall|j: nat| j < FANOUT ==> #[trigger] child_of(page_at(after, n), j) == (if x == 0 {
                0
            } else {
                child_of(page_at(before, x), j)
            })
        }),
    ensures
        swapped(before, after, c, page, page, level, h, (lv - 1) as nat, n),
    decreases level,
{
    let down = (level - 1) as nat;
    let span = reach(c, down);
    let l0 = (lv - 1) as nat;
    lemma_descend(c, level, h);
    lemma_reach_pos(c, level);
    assert(node_at(before, c, page, level, h, level) == Some(page));
    assert(good.contains(page));
    if level > lv {
        let child = child_of(page_at(before, page), h / span);
        assert(child != 0);
        lemma_only_down(before, c, page, level, h, lv, cur, h / span);
        lemma_subtree_in(before, c, page, level, h / span, good);
        lemma_swapped(before, after, c, child, down, h % span, lv, cur, n, good);
        assert forall|k: nat, l: nat| k < reach(c, level) && l <= level implies #[trigger] node_at(
            after,
            c,
            page,
            level,
            k,
            l,
        ) == (if l == l0 && shares(c, level, k, h, l0) {
            Some(n)
        } else {
            node_at(before, c, page, level, k, l)
        }) by {
            if l < level {
                lemma_descend(c, level, k);
                let j = k / span;
                let kid = child_of(page_at(before, page), j);
                assert(child_of(page_at(after, page), j) == kid);
                if kid != 0 {
                    lemma_subtree_in(before, c, page, level, j, good);
                    if j == h / span {
                        assert(node_at(after, c, child, down, k % span, l) == (if l == l0 && shares(
                            c,
                            down,
                            k % span,
                            h % span,
                            l0,
                        ) {
                            Some(n)
                        } else {
                            node_at(before, c, child, down, k % span, l)
                        }));
                    } else {
                        lemma_only_down(before, c, page, level, h, lv, cur, j);
                        lemma_off_path(before, after, c, kid, down, cur, good);
                        assert(node_at(after, c, kid, down, k % span, l) == node_at(before, c, kid, down, k % span, l));
                    }
                }
            }
        }
    } else {
        assert(page == cur);
        assert(rest_of(c, level, h, lv) == h);
        let i = h / span;
        let x = child_of(page_at(before, cur), i);
        assert forall|k: nat, l: nat| k < reach(c, level) && l <= level implies #[trigger] node_at(
            after,
            c,
            page,
            level,
            k,
            l,
        ) == (if l == l0 && shares(c, level, k, h, l0) {
            Some(n)
        } else {
            node_at(before, c, page, level, k, l)
        }) by {
            if l < level {
                lemma_descend(c, level, k);
                let j = k / span;
                if j == i {
                    assert(shares(c, down, k % span, h % span, l0));
                    assert(node_at(after, c, page, level, k, l) == node_at(after, c, n, down, k % span, l));
                    if l < down {
                        lemma_descend(c, down, k % span);
                        let jj = (k % span) / reach(c, (down - 1) as nat);
                        let y = child_of(page_at(after, n), jj);
                        assert(node_at(after, c, n, down, k % span, l) == (if y == 0 {
                            None
                        } else {
                            node_at(after, c, y, (down - 1) as nat, (k % span) % reach(c, (down - 1) as nat), l)
                        }));
                        if x != 0 {
                            assert(y == child_of(page_at(before, x), jj));
                            assert(node_at(before, c, page, level, k, l) == node_at(before, c, x, down, k % span, l));
                            assert(node_at(before, c, x, down, k % span, l) == (if y == 0 {
                                None
                            } else {
                                node_at(before, c, y, (down - 1) as nat, (k % span) % reach(c, (down - 1) as nat), l)
                            }));
                            if y != 0 {
                                lemma_subtree_in(before, c, page, level, i, good);
                                lemma_below_cur(before, c, page, level, h, cur, i);
                                lemma_off_path_below(before, after, c, x, down, jj, cur, good);
                                let kk = (k % span) % reach(c, (down - 1) as nat);
                                assert(kk < reach(c, (down - 1) as nat));
                                assert(node_at(after, c, y, (down - 1) as nat, kk, l) == node_at(
                                    before,
                                    c,
                                    y,
                                    (down - 1) as nat,
                                    kk,
                                    l,
                                ));
                            }
                        }
                    }
                } else {
                    let kid = child_of(page_at(before, cur), j);
                    assert(child_of(page_at(after, cur), j) == kid);
                    if kid != 0 {
                        lemma_subtree_in(before, c, page, level, j, good);
                        lemma_below_cur(before, c, page, level, h, cur, j);
                        lemma_off_path(before, after, c, kid, down, cur, good);
                        assert(node_at(after, c, kid, down, k % span, l) == node_at(before, c, kid, down, k % span, l));
                    }
                }
            }
        }
    }
}

/// The children of an untouched subtree are untouched.
proof fn lemma_off_path_below(
    before: Map<u64, Seq<u8>>,
    after: Map<u64, Seq<u8>>,
    c: nat,
    x: u64,
    down: nat,
    jj: nat,
    cur: u64,
    good: Set<u64>,
)
    requires
        c > 0,
        down > 0,
        jj < FANOUT,
        child_of(page_at(before, x), jj) != 0,
        tree_in(before, c, x, down, good),
        tree_in(before, c, x, down, Set::<u64>::full().remove(cur)),
        forall|id: u64| #[trigger] good.contains(id) && id != cur ==> page_at(after, id) == page_at(before, id),
    ensures
        forall|k: nat, l: nat|
            k < reach(c, (down - 1) as nat) && l <= down - 1 ==> #[trigger] node_at(
                after,
                c,
                child_of(page_at(before, x), jj),
                (down - 1) as nat,
                k,
                l,
            ) == node_at(before, c, child_of(page_at(before, x), jj), (down - 1) as nat, k, l),
{
    let y = child_of(page_at(before, x), jj);
    lemma_subtree_in(before, c, x, down, jj, good);
    lemma_subtree_in(before, c, x, down, jj, Set::<u64>::full().remove(cur));
    lemma_off_path(before, after, c, y, (down - 1) as nat, cur, good);
}

/// Replacing the root by a page that looks like it.
pub proof fn lemma_swapped_root(
    before: Map<u64, Seq<u8>>,
    after: Map<u64, Seq<u8>>,
    c: nat,
    root: u64,
    n: u64,
    level: nat,
    h: nat,
    good: Set<u64>,
)
    requires
        c > 0,
        tree_in(before, c, root, level, good),
        same_on(before, after, good),
        level > 0 ==> forall|j: nat|
            j < FANOUT ==> #[trigger] child_of(page_at(after, n), j) == child_of(page_at(before, root), j),
    ensures
        swapped(before, after, c, root, n, level, h, level, n),
{
    lemma_tree_same(before, after, c, root, level, good);
    assert forall|k: nat, l: nat| k < reach(c, level) && l <= level implies #[trigger] node_at(
        after,
        c,
        n,
        level,
        k,
        l,
    ) == (if l == level && shares(c, level, k, h, level) {
        Some(n)
    } else {
        node_at(before, c, root, level, k, l)
    }) by {
        if l < level {
            lemma_descend(c, level, k);
            assert(node_at(before, c, root, level, k, l) == node_at(after, c, root, level, k, l));
            assert(good.contains(root)) by {
                assert(node_at(before, c, root, level, k, level) == Some(root));
            }
        }
    }
}

/// Swapping one node for a page that is not in the tree keeps it a tree, within
/// the old pages and the new one, and without the page that was replaced.
pub proof fn lemma_swapped_tree(
    before: Map<u64, Seq<u8>>,
    after: Map<u64, Seq<u8>>,
    c: nat,
    root0: u64,
    root1: u64,
    level: nat,
    h: nat,
    l0: nat,
    n: u64,
)
    requires
        c > 0,
        h < reach(c, level),
        l0 <= level,
        swapped(before, after, c, root0, root1, level, h, l0, n),
        tree_in(before, c, root0, level, Set::<u64>::full().remove(n)),
        is_tree(before, c, root0, level),
    ensures
        is_tree(after, c, root1, level),
        forall|good: Set<u64>| #[trigger]
            tree_in(before, c, root0, level, good) ==> tree_in(after, c, root1, level, good.insert(n)),
        node_at(before, c, root0, level, h, l0) matches Some(x) ==> tree_in(
            after,
            c,
            root1,
            level,
            Set::<u64>::full().remove(x),
        ),
        node_at(after, c, root1, level, h, l0) == Some(n),
{
    lemma_shares_self(c, level, h, l0);
    let rest = Set::<u64>::full().remove(n);
    assert forall|k1: nat, l1: nat, k2: nat, l2: nat|
        k1 < reach(c, level) && k2 < reach(c, level) && l1 <= level && l2 <= level && (#[trigger] node_at(
            after,
            c,
            root1,
            level,
            k1,
            l1,
        )) is Some && node_at(after, c, root1, level, k1, l1) == (#[trigger] node_at(after, c, root1, level, k2, l2))
        implies l1 == l2 && shares(c, level, k1, k2, l1) by {
        let new1 = l1 == l0 && shares(c, level, k1, h, l0);
        let new2 = l2 == l0 && shares(c, level, k2, h, l0);
        if new1 && new2 {
            lemma_shares_self(c, level, k1, l0);
            lemma_shares_euclid(c, level, k1, h, k1, l0);
            lemma_shares_self(c, level, k2, l0);
            lemma_shares_euclid(c, level, k2, h, k2, l0);
            lemma_shares_euclid(c, level, h, k1, k2, l0);
        } else if new1 {
            assert(node_at(before, c, root0, level, k2, l2) == Some(n));
            assert(rest.contains(n));
        } else if new2 {
            assert(node_at(before, c, root0, level, k1, l1) == Some(n));
            assert(rest.contains(n));
        } else {
            assert(node_at(before, c, root0, level, k1, l1) == node_at(before, c, root0, level, k2, l2));
        }
    }
    assert forall|good: Set<u64>| #[trigger] tree_in(before, c, root0, level, good) implies tree_in(
        after,
        c,
        root1,
        level,
        good.insert(n),
    ) by {
        assert forall|k: nat, l: nat| k < reach(c, level) && l <= level implies ((#[trigger] node_at(
            after,
            c,
            root1,
            level,
            k,
            l,
        )) matches Some(id) ==> good.insert(n).contains(id)) by {
            if !(l == l0 && shares(c, level, k, h, l0)) {
                assert(node_at(after, c, root1, level, k, l) == node_at(before, c, root0, level, k, l));
            }
        }
    }
    if node_at(before, c, root0, level, h, l0) is Some {
        let x = node_at(before, c, root0, level, h, l0)->0;
        assert forall|k: nat, l: nat| k < reach(c, level) && l <= level implies ((#[trigger] node_at(
            after,
            c,
            root1,
            level,
            k,
            l,
        )) matches Some(id) ==> Set::<u64>::full().remove(x).contains(id)) by {
            if l == l0 && shares(c, level, k, h, l0) {
                assert(rest.contains(x));
            } else if node_at(before, c, root0, level, k, l) == Some(x) {
                assert(node_at(before, c, root0, level, h, l0) == Some(x));
                assert(l == l0 && shares(c, level, k, h, l0));
            }
        }
    }
}

/// Swapping one node for a page that says the same keeps all values.
pub proof fn lemma_swapped_value<T>(
    before: Map<u64, Seq<u8>>,
    after: Map<u64, Seq<u8>>,
    c: nat,
    root0: u64,
    root1: u64,
    level: nat,
    h: nat,
    l0: nat,
    n: u64,
    read: spec_fn(Seq<u8>, nat) -> T,
    none: T,
)
    requires
        c > 0,
        h < reach(c, level),
        l0 <= level,
        swapped(before, after, c, root0, root1, level, h, l0, n),
        forall|k: nat|
            k < reach(c, level) && !(l0 == 0 && shares(c, level, k, h, 0)) ==> ((#[trigger] node_at(
                before,
                c,
                root0,
                level,
                k,
                0,
            )) matches Some(leaf) ==> forall|s: nat|
                s < c ==> #[trigger] read(page_at(after, leaf), s) == read(page_at(before, leaf), s)),
        l0 == 0 ==> forall|s: nat|
            s < c ==> #[trigger] read(page_at(after, n), s) == (match node_at(before, c, root0, level, h, 0) {
                Some(leaf) => read(page_at(before, leaf), s),
                None => none,
            }),
    ensures
        forall|k: nat|
            k < reach(c, level) ==> #[trigger] tree_value(after, c, root1, level, k, read, none) == tree_value(
                before,
                c,
                root0,
                level,
                k,
                read,
                none,
            ),
{
    assert forall|k: nat| k < reach(c, level) implies #[trigger] tree_value(after, c, root1, level, k, read, none)
        == tree_value(before, c, root0, level, k, read, none) by {
        lemma_slot_bound(c, level, k);
        assert(node_at(after, c, root1, level, k, 0) == (if 0 == l0 && shares(c, level, k, h, l0) {
            Some(n)
        } else {
            node_at(before, c, root0, level, k, 0)
        }));
        if l0 == 0 && shares(c, level, k, h, 0) {
            lemma_shared_node(before, c, root0, level, k, h, 0);
        } else {
            assert(node_at(before, c, root0, level, k, 0) == node_at(after, c, root1, level, k, 0));
            if node_at(before, c, root0, level, k, 0) is Some {
                let leaf = node_at(before, c, root0, level, k, 0)->0;
                assert(read(page_at(after, leaf), slot_of(c, level, k)) == read(
                    page_at(before, leaf),
                    slot_of(c, level, k),
                ));
            }
        }
    }
}

/// Editing one slot of a leaf changes one value.
pub proof fn lemma_leaf_edited<T>(
    before: Map<u64, Seq<u8>>,
    after: Map<u64, Seq<u8>>,
    c: nat,
    root: u64,
    level: nat,
    h: nat,
    leaf: u64,
    good: Set<u64>,
    read: spec_fn(Seq<u8>, nat) -> T,
    none: T,
    value: T,
)
    requires
        c > 0,
        h < reach(c, level),
        is_tree(before, c, root, level),
        node_at(before, c, root, level, h, 0) == Some(leaf),
        tree_in(before, c, root, level, good),
        forall|id: u64| #[trigger] good.contains(id) && id != leaf ==> page_at(after, id) == page_at(before, id),
        forall|s: nat|
            s < c ==> #[trigger] read(page_at(after, leaf), s) == (if s == slot_of(c, level, h) {
                value
            } else {
                read(page_at(before, leaf), s)
            }),
    ensures
        forall|k: nat, l: nat|
            k < reach(c, level) && l <= level ==> #[trigger] node_at(after, c, root, level, k, l) == node_at(
                before,
                c,
                root,
                level,
                k,
                l,
            ),
        forall|k: nat|
            k < reach(c, level) ==> #[trigger] tree_value(after, c, root, level, k, read, none) == (if k == h {
                value
            } else {
                tree_value(before, c, root, level, k, read, none)
            }),
{
    lemma_only_at(before, c, root, level, h, 0, leaf);
    lemma_touched(before, after, c, root, level, h, 0, leaf, good);
    assert forall|k: nat| k < reach(c, level) implies #[trigger] tree_value(after, c, root, level, k, read, none) == (
    if k == h {
        value
    } else {
        tree_value(before, c, root, level, k, read, none)
    }) by {
        lemma_slot_bound(c, level, k);
        assert(node_at(after, c, root, level, k, 0) == node_at(before, c, root, level, k, 0));
        if node_at(before, c, root, level, k, 0) == Some(leaf) {
            assert(shares(c, level, k, h, 0));
            if slot_of(c, level, k) == slot_of(c, level, h) {
                lemma_slot_unique(c, level, k, h);
            }
            assert(read(page_at(after, leaf), slot_of(c, level, k)) == (if slot_of(c, level, k) == slot_of(c, level, h) {
                value
            } else {
                read(page_at(before, leaf), slot_of(c, level, k))
            }));
        } else if node_at(before, c, root, level, k, 0) is Some {
            assert(good.contains(node_at(before, c, root, level, k, 0)->0));
        }
    }
}

/// If no node moved, the tree is still one, in the same pages.
pub proof fn lemma_unmoved(before: Map<u64, Seq<u8>>, after: Map<u64, Seq<u8>>, c: nat, root: u64, level: nat)
    requires
        forall|k: nat, l: nat|
            k < reach(c, level) && l <= level ==> #[trigger] node_at(after, c, root, level, k, l) == node_at(
                before,
                c,
                root,
                level,
                k,
                l,
            ),
    ensures
        is_tree(before, c, root, level) ==> is_tree(after, c, root, level),
        forall|good: Set<u64>| #[trigger]
            tree_in(before, c, root, level, good) ==> tree_in(after, c, root, level, good),
{
    assert forall|good: Set<u64>| #[trigger] tree_in(before, c, root, level, good) implies tree_in(
        after,
        c,
        root,
        level,
        good,
    ) by {
        assert forall|k: nat, l: nat| k < reach(c, level) && l <= level implies ((#[trigger] node_at(
            after,
            c,
            root,
            level,
            k,
            l,
        )) matches Some(id) ==> good.contains(id)) by {
            assert(node_at(before, c, root, level, k, l) == node_at(after, c, root, level, k, l));
        }
    }
    if is_tree(before, c, root, level) {
        assert forall|k1: nat, l1: nat, k2: nat, l2: nat|
            k1 < reach(c, level) && k2 < reach(c, level) && l1 <= level && l2 <= level && (#[trigger] node_at(
                after,
                c,
                root,
                level,
                k1,
                l1,
            )) is Some && node_at(after, c, root, level, k1, l1) == (#[trigger] node_at(after, c, root, level, k2, l2))
            implies l1 == l2 && shares(c, level, k1, k2, l1) by {
            assert(node_at(before, c, root, level, k1, l1) == node_at(before, c, root, level, k2, l2));
        }
    }
}

} // verus!
