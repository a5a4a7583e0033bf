//! Copy-on-write of the path of one key in a page tree.

use vstd::prelude::*;

use crate::error::ChiselError;
use crate::forest::nodes_of;
use crate::page::{checksum_ok, stamp_checksum};
use crate::page_cache::PageCache;
use crate::page_source::{agree_on, cow_step, lemma_agree_at, lemma_cow_chain, overrun, taken, PageSource};
use crate::radix::{
    child_of, is_tree, lemma_child_outside, lemma_descend, lemma_reach_pos, lemma_replaced_in, lemma_replaced_interior,
    lemma_replaced_is_tree, lemma_shared_node, lemma_shares_self, lemma_slot_bound, lemma_slot_unique, lemma_subtree_in,
    lemma_tree_same, node_at, page_at, reach, replaced, same_on, shares, slot_of, tree_in, write_child, FANOUT,
};

verus! {

/// A new path for `h` below `n`, made of fresh pages that match their
/// checksums; `news` lists them, leaf first. Off the path the tree is as it
/// was below `page`.
#[verifier::opaque]
pub open spec fn spine_written<A: PageSource>(
    source0: &A,
    cache0: &PageCache,
    source1: &A,
    cache1: &PageCache,
    c: nat,
    page: u64,
    n: u64,
    level: nat,
    h: nat,
    news: Seq<u64>,
) -> bool {
    &&& replaced(cache0.contents(), cache1.contents(), c, page, n, level, h, news)
    &&& news.no_duplicates()
    &&& forall|i: int|
        0 <= i < news.len() ==> taken(source0, cache0, source1, cache1, #[trigger] news[i]) && checksum_ok(
            cache1.contents()[news[i]],
        )
}

/// Pages of the path of `h` were put on the list of freed pages, root first:
/// at each level the page that was there, or one that was made on the way. No page
/// was put there twice.
#[verifier::opaque]
pub open spec fn path_freed<A: PageSource>(
    source0: &A,
    cache0: &PageCache,
    source1: &A,
    cache1: &PageCache,
    c: nat,
    page: u64,
    level: nat,
    h: nat,
    freed0: Seq<u64>,
    freed1: Seq<u64>,
    news: Seq<u64>,
) -> bool {
    &&& freed1.len() == freed0.len() + level + 1
    &&& freed0.is_prefix_of(freed1)
    &&& forall|l: nat|
        l <= level ==> match #[trigger] node_at(
            cache0.contents(),
            c,
            page,
            level,
            h,
            l,
        ) {
            Some(id) => freed1[freed0.len() + level - l] == id,
            None => taken(source0, cache0, source1, cache1, freed1[freed0.len() + level - l]) && !news.contains(
                freed1[freed0.len() + level - l],
            ),
        }
    &&& forall|i: int, j: int|
        freed0.len() <= i < j < freed1.len() && node_at(
            cache0.contents(),
            c,
            page,
            level,
            h,
            (freed0.len() + level - j) as nat,
        ) is None ==> #[trigger] freed1[i] != #[trigger] freed1[j]
    &&& is_tree(cache0.contents(), c, page, level) ==> freed1.skip(freed0.len() as int).no_duplicates()
    &&& accounted(source0, cache0, source1, cache1, news, freed0, freed1)
}

/// Every page that left the source's reach is a page of the new path or on the list
/// of freed pages.
pub open spec fn accounted<A: PageSource>(
    source0: &A,
    cache0: &PageCache,
    source1: &A,
    cache1: &PageCache,
    news: Seq<u64>,
    freed0: Seq<u64>,
    freed1: Seq<u64>,
) -> bool {
    forall|id: u64| #[trigger]
        source0.footprint(cache0).contains(id) ==> source1.footprint(cache1).contains(id) || news.contains(id)
            || freed1.skip(freed0.len() as int).contains(id)
}

/// The number of children that are missing on the path of `h` below a node.
pub open spec fn absent(pages: Map<u64, Seq<u8>>, c: nat, page: u64, level: nat, h: nat) -> nat
    decreases level,
{
    if level == 0 {
        0
    } else {
        let span = reach(c, (level - 1) as nat);
        let child = child_of(page_at(pages, page), h / span);
        if child == 0 {
            level
        } else {
            absent(pages, c, child, (level - 1) as nat, h % span)
        }
    }
}

/// No more children are missing than there are levels.
pub proof fn lemma_absent(pages: Map<u64, Seq<u8>>, c: nat, page: u64, level: nat, h: nat)
    requires
        c > 0,
    ensures
        absent(pages, c, page, level, h) <= level,
    decreases level,
{
    if level > 0 {
        lemma_reach_pos(c, (level - 1) as nat);
        let span = reach(c, (level - 1) as nat);
        let child = child_of(page_at(pages, page), h / span);
        if child != 0 {
            lemma_absent(pages, c, child, (level - 1) as nat, h % span);
            assert(absent(pages, c, page, level, h) == absent(pages, c, child, (level - 1) as nat, h % span));
        } else {
            assert(absent(pages, c, page, level, h) == level);
        }
    }
}

/// Every page that left the source's reach is on the path of `h` below `n`.
pub open spec fn on_new_path<A: PageSource>(
    source0: &A,
    cache0: &PageCache,
    source1: &A,
    cache1: &PageCache,
    c: nat,
    n: u64,
    level: nat,
    h: nat,
) -> bool {
    forall|id: u64| #[trigger]
        source0.footprint(cache0).contains(id) ==> source1.footprint(cache1).contains(id) || path_has(
            cache1.contents(),
            c,
            n,
            level,
            h,
            id,
        )
}

/// A page is on the path of `h` below a node.
pub open spec fn path_has(pages: Map<u64, Seq<u8>>, c: nat, page: u64, level: nat, h: nat, id: u64) -> bool {
    exists|l: nat| l <= level && #[trigger] node_at(pages, c, page, level, h, l) == Some(id)
}

/// The pages of a new path are where they belong.
pub proof fn lemma_spine_nodes<A: PageSource>(
    source0: &A,
    cache0: &PageCache,
    source1: &A,
    cache1: &PageCache,
    c: nat,
    page: u64,
    n: u64,
    level: nat,
    h: nat,
    news: Seq<u64>,
)
    requires
        c > 0,
        h < reach(c, level),
        spine_written(source0, cache0, source1, cache1, c, page, n, level, h, news),
    ensures
        forall|l: nat|
            l <= level ==> #[trigger] node_at(cache1.contents(), c, n, level, h, l) == Some(news[l as int]),
{
    reveal(spine_written);
    assert forall|l: nat| l <= level implies #[trigger] node_at(cache1.contents(), c, n, level, h, l) == Some(
        news[l as int],
    ) by {
        lemma_shares_self(c, level, h, l);
    }
}

/// What is missing depends on the pages of the tree only.
pub proof fn lemma_absent_same(
    before: Map<u64, Seq<u8>>,
    after: Map<u64, Seq<u8>>,
    c: nat,
    page: u64,
    level: nat,
    h: nat,
    good: Set<u64>,
)
    requires
        c > 0,
        h < reach(c, level),
        tree_in(before, c, page, level, good),
        same_on(before, after, good),
    ensures
        absent(after, c, page, level, h) == absent(before, c, page, level, h),
    decreases level,
{
    if level > 0 {
        let span = reach(c, (level - 1) as nat);
        let i = h / span;
        let child = child_of(page_at(before, page), i);
        assert(node_at(before, c, page, level, h, level) == Some(page));
        assert(good.contains(page));
        lemma_descend(c, level, h);
        if child != 0 {
            lemma_subtree_in(before, c, page, level, i, good);
            lemma_absent_same(before, after, c, child, (level - 1) as nat, h % span, good);
        }
    }
}

/// The new path has a page for each level, the one on top last, and the freed
/// pages were appended.
pub proof fn lemma_spine_facts<A: PageSource>(
    source0: &A,
    cache0: &PageCache,
    source1: &A,
    cache1: &PageCache,
    c: nat,
    page: u64,
    n: u64,
    level: nat,
    h: nat,
    news: Seq<u64>,
    freed0: Seq<u64>,
    freed1: Seq<u64>,
)
    requires
        spine_written(source0, cache0, source1, cache1, c, page, n, level, h, news),
        path_freed(source0, cache0, source1, cache1, c, page, level, h, freed0, freed1, news),
    ensures
        news.len() == level + 1,
        news[level as int] == n,
        taken(source0, cache0, source1, cache1, n),
        freed0.is_prefix_of(freed1),
{
    reveal(spine_written);
    reveal(path_freed);
    assert(taken(source0, cache0, source1, cache1, news[level as int]));
}

/// The new path has a page for each level, the one on top last.
pub proof fn lemma_spine_len<A: PageSource>(
    source0: &A,
    cache0: &PageCache,
    source1: &A,
    cache1: &PageCache,
    c: nat,
    page: u64,
    n: u64,
    level: nat,
    h: nat,
    news: Seq<u64>,
)
    requires
        spine_written(source0, cache0, source1, cache1, c, page, n, level, h, news),
    ensures
        news.len() == level + 1,
        news[level as int] == n,
        taken(source0, cache0, source1, cache1, n),
{
    reveal(spine_written);
    assert(taken(source0, cache0, source1, cache1, news[level as int]));
}

/// A page outside the footprint is not among the new pages.
pub proof fn lemma_not_in_news<A: PageSource>(
    source0: &A,
    cache0: &PageCache,
    source1: &A,
    cache1: &PageCache,
    c: nat,
    page: u64,
    n: u64,
    level: nat,
    h: nat,
    news: Seq<u64>,
    x: u64,
)
    requires
        spine_written(source0, cache0, source1, cache1, c, page, n, level, h, news),
        !source0.footprint(cache0).contains(x) || source1.footprint(cache1).contains(x),
    ensures
        !news.contains(x),
{
    reveal(spine_written);
    if news.contains(x) {
        let j = news.index_of(x);
        assert(taken(source0, cache0, source1, cache1, news[j]));
    }
}

/// Page type and flags of a page.
pub open spec fn head_of(s: Seq<u8>) -> (u8, u8) {
    (s[0], s[1])
}

/// The new pages begin like the pages that they replace, and pages that
/// replace none begin as `head` says for their level.
#[verifier::opaque]
pub open spec fn path_headed(
    before: Map<u64, Seq<u8>>,
    after: Map<u64, Seq<u8>>,
    c: nat,
    page: u64,
    level: nat,
    h: nat,
    news: Seq<u64>,
    head: spec_fn(nat) -> (u8, u8),
) -> bool {
    forall|l: nat|
        l <= level ==> head_of(page_at(after, #[trigger] news[l as int])) == match node_at(before, c, page, level, h, l) {
            Some(id) => head_of(page_at(before, id)),
            None => head(l),
        }
}

/// The last step of replacing a path, seen from the first bytes of the pages.
pub proof fn lemma_headed_step<A: PageSource>(
    s0: &A,
    c0: &PageCache,
    c4: &PageCache,
    c5: &PageCache,
    c6: &PageCache,
    c: nat,
    page: u64,
    n: u64,
    level: nat,
    h: nat,
    kid: u64,
    news: Seq<u64>,
    head: spec_fn(nat) -> (u8, u8),
)
    requires
        c > 0,
        level > 0,
        h < reach(c, level),
        news.len() == level,
        tree_in(c0.contents(), c, page, level, s0.footprint(c0).complement()),
        agree_on(c0, c4, s0.footprint(c0).complement()),
        forall|x: u64|
            s0.footprint(c0).complement().contains(x) || news.contains(x) || x == kid ==> #[trigger] page_at(
                c6.contents(),
                x,
            ) == page_at(c5.contents(), x),
        head_of(page_at(c6.contents(), n)) == head_of(page_at(c0.contents(), page)),
        ({
            let span = reach(c, (level - 1) as nat);
            let child = child_of(page_at(c0.contents(), page), h / span);
            &&& path_headed(
                c4.contents(),
                c5.contents(),
                c,
                kid,
                (level - 1) as nat,
                h % span,
                news,
                head,
            )
            &&& if child != 0 {
                kid == child
            } else {
                &&& head_of(page_at(c4.contents(), kid)) == head((level - 1) as nat)
                &&& forall|j: nat| j < FANOUT ==> #[trigger] child_of(page_at(c4.contents(), kid), j) == 0
            }
        }),
    ensures
        path_headed(c0.contents(), c6.contents(), c, page, level, h, news.push(n), head),
{
    reveal(path_headed);
    reveal(agree_on);
    let span = reach(c, (level - 1) as nat);
    let good = s0.footprint(c0).complement();
    let p0 = c0.contents();
    let p4 = c4.contents();
    let p5 = c5.contents();
    let p6 = c6.contents();
    let down = (level - 1) as nat;
    let child = child_of(page_at(p0, page), h / span);
    let all = news.push(n);
    lemma_descend(c, level, h);
    if child != 0 {
        lemma_subtree_in(p0, c, page, level, h / span, good);
        lemma_tree_same(p0, p4, c, child, down, good);
    }
    assert forall|l: nat| l <= level implies head_of(page_at(p6, #[trigger] all[l as int])) == match node_at(
        p0,
        c,
        page,
        level,
        h,
        l,
    ) {
        Some(id) => head_of(page_at(p0, id)),
        None => head(l),
    } by {
        if l < level {
            assert(news.contains(news[l as int]));
            assert(page_at(p6, news[l as int]) == page_at(p5, news[l as int]));
            if child != 0 {
                assert(node_at(p4, c, child, down, h % span, l) == node_at(p0, c, child, down, h % span, l));
                if node_at(p0, c, child, down, h % span, l) is Some {
                    let id = node_at(p0, c, child, down, h % span, l)->0;
                    assert(good.contains(id));
                    assert(page_at(p0, id) == page_at(p4, id));
                }
            } else if l < down {
                lemma_descend(c, down, h % span);
                assert(child_of(page_at(p4, kid), (h % span) / reach(c, (down - 1) as nat)) == 0);
            }
        }
    }
}

/// Every page of the tree begins as `head` says for its level, and the
/// leftmost leaf exists.
pub open spec fn tree_headed(
    pages: Map<u64, Seq<u8>>,
    c: nat,
    page: u64,
    level: nat,
    head: spec_fn(nat) -> (u8, u8),
) -> bool {
    &&& forall|k: nat, l: nat|
        k < reach(c, level) && l <= level ==> ((#[trigger] node_at(pages, c, page, level, k, l)) matches Some(id)
            ==> head_of(page_at(pages, id)) == head(l))
    &&& node_at(pages, c, page, level, 0, 0) is Some
}

/// Replacing a path keeps the beginnings of the pages.
pub proof fn lemma_headed_kept<A: PageSource>(
    s0: &A,
    c0: &PageCache,
    s1: &A,
    c1: &PageCache,
    c: nat,
    page: u64,
    n: u64,
    level: nat,
    h: nat,
    news: Seq<u64>,
    head: spec_fn(nat) -> (u8, u8),
    m: nat,
)
    requires
        c > 0,
        h < reach(c, level),
        cow_step(s0, c0, s1, c1, m),
        spine_written(s0, c0, s1, c1, c, page, n, level, h, news),
        path_headed(c0.contents(), c1.contents(), c, page, level, h, news, head),
        tree_in(c0.contents(), c, page, level, s0.footprint(c0).complement()),
        tree_headed(c0.contents(), c, page, level, head),
    ensures
        tree_headed(c1.contents(), c, n, level, head),
{
    reveal(spine_written);
    reveal(path_headed);
    lemma_good_kept(s0, c0, s1, c1, m);
    lemma_reach_pos(c, level);
    let p0 = c0.contents();
    let p1 = c1.contents();
    assert forall|k: nat, l: nat| k < reach(c, level) && l <= level implies ((#[trigger] node_at(
        p1,
        c,
        n,
        level,
        k,
        l,
    )) matches Some(id) ==> head_of(page_at(p1, id)) == head(l)) by {
        if shares(c, level, k, h, l) {
            assert(node_at(p1, c, n, level, k, l) == Some(news[l as int]));
            assert(node_at(p0, c, page, level, h, l) matches Some(id) ==> head_of(page_at(p0, id)) == head(l));
        } else {
            assert(node_at(p1, c, n, level, k, l) == node_at(p0, c, page, level, k, l));
            if node_at(p0, c, page, level, k, l) is Some {
                assert(s0.footprint(c0).complement().contains(node_at(p0, c, page, level, k, l)->0));
            }
        }
    }
    assert(node_at(p1, c, n, level, 0, 0) is Some);
}

/// Prefixes of prefixes are prefixes.
pub proof fn lemma_prefix_trans(a: Seq<u64>, b: Seq<u64>, d: Seq<u64>)
    requires
        a.is_prefix_of(b),
        b.is_prefix_of(d),
    ensures
        a.is_prefix_of(d),
{
    assert(d.take(a.len() as int) =~= b.take(a.len() as int));
}

/// A node on the path of `h` explains the failure `e`: it is not sound, or the
/// limits of the cache are exceeded.
pub open spec fn path_explains(cache: &PageCache, c: nat, page: u64, level: nat, h: nat, e: ChiselError) -> bool {
    ||| cache.pending() > cache.capacity() && e == cache.pressure_error()
    ||| path_unsound(cache, c, page, level, h, e)
}

/// `e` is the error of reading a node on the path of `h` that is not sound.
pub open spec fn path_unsound(cache: &PageCache, c: nat, page: u64, level: nat, h: nat, e: ChiselError) -> bool {
    exists|l: nat|
        l <= level && ((#[trigger] node_at(cache.contents(), c, page, level, h, l)) matches Some(
            id,
        ) && !cache.sound(id) && e == cache.read_error(id))
}

/// The last step of replacing a path: `n` is a copy of `page` that points at the
/// new child.
pub proof fn lemma_spine_step<A: PageSource>(
    s0: &A,
    c0: &PageCache,
    s4: &A,
    c4: &PageCache,
    s5: &A,
    c5: &PageCache,
    s6: &A,
    c6: &PageCache,
    c: nat,
    page: u64,
    n: u64,
    level: nat,
    h: nat,
    kid: u64,
    news: Seq<u64>,
)
    requires
        c > 0,
        level > 0,
        h < reach(c, level),
        tree_in(c0.contents(), c, page, level, s0.footprint(c0).complement()),
        agree_on(c0, c4, s0.footprint(c0).complement()),
        agree_on(c0, c6, s0.footprint(c0).complement()),
        s0.footprint(c0).contains(n),
        !news.contains(n),
        kid != n,
        taken(s0, c0, s6, c6, n),
        checksum_ok(c6.contents()[n]),
        forall|x: u64|
            s0.footprint(c0).complement().contains(x) || news.contains(x) || x == kid ==> #[trigger] page_at(
                c6.contents(),
                x,
            ) == page_at(c5.contents(), x),
        forall|x: u64| taken(s4, c4, s5, c5, x) ==> #[trigger] taken(s0, c0, s6, c6, x),
        ({
            let span = reach(c, (level - 1) as nat);
            let i = h / span;
            let child = child_of(page_at(c0.contents(), page), i);
            &&& news.len() == level
            &&& spine_written(s4, c4, s5, c5, c, kid, news[level - 1], (level - 1) as nat, h % span, news)
            &&& child_of(page_at(c6.contents(), n), i) == news[level - 1]
            &&& forall|j: nat| j < FANOUT && j != i ==> #[trigger] child_of(page_at(c6.contents(), n), j) == child_of(
                page_at(c0.contents(), page),
                j,
            )
            &&& if child != 0 {
                kid == child
            } else {
                forall|j: nat| j < FANOUT ==> #[trigger] child_of(page_at(c4.contents(), kid), j) == 0
            }
        }),
    ensures
        spine_written(s0, c0, s6, c6, c, page, n, level, h, news.push(n)),
        page_at(c6.contents(), news[0]) == page_at(c5.contents(), news[0]),
        ({
            let span = reach(c, (level - 1) as nat);
            let child = child_of(page_at(c0.contents(), page), h / span);
            let leaf0 = node_at(c0.contents(), c, page, level, h, 0);
            let leaf4 = node_at(c4.contents(), c, kid, (level - 1) as nat, h % span, 0);
            if child != 0 {
                leaf0 == leaf4 && (leaf0 matches Some(x) ==> page_at(c0.contents(), x) == page_at(c4.contents(), x))
            } else {
                leaf0 is None && (leaf4 matches Some(x) ==> x == kid)
            }
        }),
{
    reveal(agree_on);
    reveal(spine_written);
    let span = reach(c, (level - 1) as nat);
    let i = h / span;
    let good = s0.footprint(c0).complement();
    let p0 = c0.contents();
    let p4 = c4.contents();
    let p5 = c5.contents();
    let p6 = c6.contents();
    let child = child_of(page_at(p0, page), i);
    let down = (level - 1) as nat;
    lemma_descend(c, level, h);
    let off = Set::new(|x: u64| page_at(p5, x) == page_at(p6, x));
    assert(same_on(p5, p6, off));
    assert(tree_in(p4, c, kid, down, off)) by {
        if child != 0 {
            lemma_subtree_in(p0, c, page, level, i, good);
            lemma_tree_same(p0, p4, c, child, down, good);
        }
        assert forall|k: nat, l: nat| k < span && l <= down implies ((#[trigger] node_at(
            p4,
            c,
            kid,
            down,
            k,
            l,
        )) matches Some(id) ==> off.contains(id)) by {
            if child != 0 {
                assert(node_at(p4, c, kid, down, k, l) == node_at(p0, c, child, down, k, l));
                if node_at(p4, c, kid, down, k, l) is Some {
                    assert(good.contains(node_at(p4, c, kid, down, k, l)->0));
                }
            } else if l < down {
                lemma_descend(c, down, k);
                assert(child_of(page_at(p4, kid), k / reach(c, (down - 1) as nat)) == 0);
            }
        }
    }
    assert forall|j: int| 0 <= j < news.len() implies off.contains(#[trigger] news[j]) by {
        assert(news.contains(news[j]));
    }
    lemma_replaced_in(p4, p5, c, kid, news[level - 1], down, h % span, news, off, off);
    lemma_tree_same(p5, p6, c, news[level - 1], down, off);
    assert(replaced(p4, p6, c, kid, news[level - 1], down, h % span, news));
    lemma_replaced_interior(p0, p4, p6, c, page, n, level, h, kid, news, good);
    let all = news.push(n);
    assert(all.no_duplicates()) by {
        assert forall|a: int, b: int| 0 <= a < all.len() && 0 <= b < all.len() && a != b implies all[a] != all[b] by {
            if a < news.len() {
                assert(news.contains(news[a]));
            }
            if b < news.len() {
                assert(news.contains(news[b]));
            }
        }
    }
    assert forall|j: int| 0 <= j < all.len() implies taken(s0, c0, s6, c6, #[trigger] all[j]) && checksum_ok(
        c6.contents()[all[j]],
    ) by {
        if j < news.len() {
            assert(taken(s4, c4, s5, c5, news[j]));
            assert(taken(s0, c0, s6, c6, news[j]));
            assert(news.contains(news[j]));
            assert(page_at(p6, news[j]) == page_at(p5, news[j]));
        }
    }
    // The leaf.
    assert(news.contains(news[0]));
    assert(page_at(p6, all[0]) == page_at(p5, news[0]));
    let leaf0 = node_at(p0, c, page, level, h, 0);
    let leaf4 = node_at(p4, c, kid, down, h % span, 0);
    if child != 0 {
        lemma_subtree_in(p0, c, page, level, i, good);
        lemma_tree_same(p0, p4, c, child, down, good);
        assert(leaf0 == leaf4);
        if leaf0 is Some {
            assert(good.contains(leaf0->0));
            assert(page_at(p0, leaf0->0) == page_at(p4, leaf0->0));
        }
    } else {
        if down > 0 {
            lemma_descend(c, down, h % span);
            assert(child_of(page_at(p4, kid), (h % span) / reach(c, (down - 1) as nat)) == 0);
        }
    }
}

/// The last step of replacing a path, seen from the list of freed pages.
#[verifier::rlimit(50)]
#[verifier::spinoff_prover]
pub proof fn lemma_freed_step<A: PageSource>(
    s0: &A,
    c0: &PageCache,
    s4: &A,
    c4: &PageCache,
    s5: &A,
    c5: &PageCache,
    s6: &A,
    c6: &PageCache,
    c: nat,
    page: u64,
    n: u64,
    level: nat,
    h: nat,
    kid: u64,
    news: Seq<u64>,
    freed0: Seq<u64>,
    freed1: Seq<u64>,
)
    requires
        c > 0,
        level > 0,
        h < reach(c, level),
        tree_in(c0.contents(), c, page, level, s0.footprint(c0).complement()),
        agree_on(c0, c4, s0.footprint(c0).complement()),
        taken(s0, c0, s4, c4, n),
        forall|x: u64| taken(s4, c4, s5, c5, x) ==> #[trigger] taken(s0, c0, s6, c6, x),
        forall|x: u64| taken(s0, c0, s4, c4, x) ==> #[trigger] taken(s0, c0, s6, c6, x),
        ({
            let span = reach(c, (level - 1) as nat);
            let child = child_of(page_at(c0.contents(), page), h / span);
            &&& news.len() == level
            &&& spine_written(s4, c4, s5, c5, c, kid, news[level - 1], (level - 1) as nat, h % span, news)
            &&& path_freed(
                s4,
                c4,
                s5,
                c5,
                c,
                kid,
                (level - 1) as nat,
                h % span,
                freed0.push(page),
                freed1,
                news,
            )
            &&& if child != 0 {
                kid == child
            } else {
                &&& taken(s0, c0, s4, c4, kid)
                &&& kid != n
                &&& forall|j: nat| j < FANOUT ==> #[trigger] child_of(page_at(c4.contents(), kid), j) == 0
            }
            &&& forall|x: u64| #[trigger]
                s0.footprint(c0).contains(x) ==> s4.footprint(c4).contains(x) || x == n || x == kid
            &&& s6.footprint(c6) == s5.footprint(c5)
        }),
    ensures
        path_freed(s0, c0, s6, c6, c, page, level, h, freed0, freed1, news.push(n)),
{
    reveal(agree_on);
    reveal(spine_written);
    reveal(path_freed);
    let span = reach(c, (level - 1) as nat);
    let i = h / span;
    let good = s0.footprint(c0).complement();
    let p0 = c0.contents();
    let p4 = c4.contents();
    let child = child_of(page_at(p0, page), i);
    let down = (level - 1) as nat;
    let all = news.push(n);
    lemma_descend(c, level, h);
    if child != 0 {
        lemma_subtree_in(p0, c, page, level, i, good);
        lemma_tree_same(p0, p4, c, child, down, good);
    }
    let f = freed0.push(page);
    assert(accounted(s0, c0, s6, c6, all, freed0, freed1)) by {
        let tail = freed1.skip(freed0.len() as int);
        assert forall|x: u64| #[trigger] s0.footprint(c0).contains(x) implies s6.footprint(c6).contains(x)
            || all.contains(x) || tail.contains(x) by {
            if x == n {
                assert(all[news.len() as int] == n);
            } else if x == kid {
                assert(node_at(p4, c, kid, down, h % span, down) == Some(kid));
                assert(freed1[f.len() + down - down] == kid);
                assert(tail[1] == kid);
            } else if s4.footprint(c4).contains(x) && !s5.footprint(c5).contains(x) {
                let rest = freed1.skip(f.len() as int);
                if news.contains(x) {
                    assert(all[news.index_of(x)] == x);
                } else {
                    let j = rest.index_of(x);
                    assert(tail[j + 1] == x);
                }
            }
        }
    }
    assert(freed0.is_prefix_of(freed1)) by {
        assert(f.is_prefix_of(freed1));
        assert(freed1.take(freed0.len() as int) =~= freed0);
    }
    assert forall|l: nat| l <= level implies match #[trigger] node_at(p0, c, page, level, h, l) {
        Some(id) => freed1[freed0.len() + level - l] == id,
        None => taken(s0, c0, s6, c6, freed1[freed0.len() + level - l]) && !all.contains(
            freed1[freed0.len() + level - l],
        ),
    } by {
        if l == level {
            assert(f.is_prefix_of(freed1));
            assert(freed1[freed0.len() as int] == f[freed0.len() as int]);
        } else {
            let x = freed1[freed0.len() + level - l];
            assert(freed0.len() + level - l == f.len() + down - l);
            let sub = node_at(p4, c, kid, down, h % span, l);
            assert(match sub {
                Some(id) => x == id,
                None => taken(s4, c4, s5, c5, x) && !news.contains(x),
            });
            assert(all.contains(x) ==> news.contains(x) || x == n) by {
                if all.contains(x) {
                    let j = all.index_of(x);
                    assert(j < news.len() ==> news[j] == x);
                }
            }
            if child != 0 {
                assert(node_at(p0, c, page, level, h, l) == sub);
            } else {
                assert(node_at(p0, c, page, level, h, l) is None);
                if l == down {
                    assert(x == kid);
                    if news.contains(kid) {
                        let j = news.index_of(kid);
                        assert(taken(s4, c4, s5, c5, news[j]));
                    }
                } else {
                    lemma_descend(c, down, h % span);
                    assert(child_of(page_at(p4, kid), (h % span) / reach(c, (down - 1) as nat)) == 0);
                    assert(sub is None);
                }
            }
        }
    }
    assert forall|a: int, b: int|
        freed0.len() <= a < b < freed1.len() && node_at(p0, c, page, level, h, (freed0.len() + level - b) as nat)
            is None implies #[trigger] freed1[a] != #[trigger] freed1[b] by {
        let l = (freed0.len() + level - b) as nat;
        assert(taken(s0, c0, s6, c6, freed1[freed0.len() + level - l]));
        if a == freed0.len() {
            assert(f.is_prefix_of(freed1));
            assert(freed1[a] == f[a]);
            assert(node_at(p0, c, page, level, h, level) == Some(page));
            assert(good.contains(page));
        } else {
            let sub = node_at(p4, c, kid, down, h % span, l);
            if child != 0 {
                assert(node_at(p0, c, page, level, h, l) == sub);
            } else {
                lemma_descend(c, down, h % span);
                assert(child_of(page_at(p4, kid), (h % span) / reach(c, (down - 1) as nat)) == 0);
                assert(sub is None);
            }
            assert((f.len() + down - b) as nat == l);
        }
    }
    if is_tree(p0, c, page, level) {
        let tail = freed1.skip(freed0.len() as int);
        assert forall|a: int, b: int| 0 <= a < b < tail.len() implies tail[a] != tail[b] by {
            let la = (level - a) as nat;
            let lb = (level - b) as nat;
            assert(freed1[freed0.len() + a] == tail[a] && freed1[freed0.len() + b] == tail[b]);
            assert((freed0.len() + level - (freed0.len() + b)) as nat == lb);
            if node_at(p0, c, page, level, h, lb) is Some {
                assert(freed1[freed0.len() + level - lb] == node_at(p0, c, page, level, h, lb)->0);
                if node_at(p0, c, page, level, h, la) is Some {
                    assert(freed1[freed0.len() + level - la] == node_at(p0, c, page, level, h, la)->0);
                } else {
                    assert(taken(s0, c0, s6, c6, freed1[freed0.len() + level - la]));
                    assert(good.contains(node_at(p0, c, page, level, h, lb)->0));
                }
            }
        }
    }
}

/// A node that is not sound below the child is not sound below its parent.
pub proof fn lemma_unsound_up<A: PageSource>(
    s0: &A,
    c0: &PageCache,
    s4: &A,
    c4: &PageCache,
    c: nat,
    page: u64,
    level: nat,
    h: nat,
    kid: u64,
    e: ChiselError,
)
    requires
        c > 0,
        level > 0,
        h < reach(c, level),
        c4.disk() == c0.disk(),
        agree_on(c0, c4, s0.footprint(c0).complement()),
        tree_in(c0.contents(), c, page, level, s0.footprint(c0).complement()),
        ({
            let span = reach(c, (level - 1) as nat);
            let child = child_of(page_at(c0.contents(), page), h / span);
            &&& path_unsound(c4, c, kid, (level - 1) as nat, h % span, e)
            &&& if child != 0 {
                kid == child
            } else {
                &&& c4.sound(kid)
                &&& forall|j: nat| j < FANOUT ==> #[trigger] child_of(page_at(c4.contents(), kid), j) == 0
            }
        }),
    ensures
        path_unsound(c0, c, page, level, h, e),
{
    reveal(agree_on);
    let span = reach(c, (level - 1) as nat);
    let child = child_of(page_at(c0.contents(), page), h / span);
    let good = s0.footprint(c0).complement();
    lemma_descend(c, level, h);
    let l = choose|l: nat|
        l <= level - 1 && ((#[trigger] node_at(c4.contents(), c, kid, (level - 1) as nat, h % span, l)) matches Some(
            id,
        ) && !c4.sound(id) && e == c4.read_error(id));
    if child != 0 {
        lemma_subtree_in(c0.contents(), c, page, level, h / span, good);
        assert(same_on(c0.contents(), c4.contents(), good));
        lemma_tree_same(c0.contents(), c4.contents(), c, child, (level - 1) as nat, good);
        let id = node_at(c4.contents(), c, kid, (level - 1) as nat, h % span, l)->0;
        assert(node_at(c0.contents(), c, page, level, h, l) == Some(id));
        assert(good.contains(id));
    } else {
        if l < level - 1 {
            lemma_descend(c, (level - 1) as nat, h % span);
            assert(child_of(page_at(c4.contents(), kid), (h % span) / reach(c, (level - 2) as nat)) == 0);
        }
    }
}

/// The tree below the child on the path of `h`, or below an empty node made in
/// its place, is outside the footprint.
pub proof fn lemma_child_tree<A: PageSource>(
    s0: &A,
    c0: &PageCache,
    s4: &A,
    c4: &PageCache,
    c: nat,
    page: u64,
    level: nat,
    h: nat,
    kid: u64,
)
    requires
        c > 0,
        level > 0,
        h < reach(c, level),
        tree_in(c0.contents(), c, page, level, s0.footprint(c0).complement()),
        agree_on(c0, c4, s0.footprint(c0).complement()),
        s4.footprint(c4).subset_of(s0.footprint(c0)),
        ({
            let child = child_of(page_at(c0.contents(), page), h / reach(c, (level - 1) as nat));
            if child != 0 {
                kid == child
            } else {
                &&& !s4.footprint(c4).contains(kid)
                &&& forall|j: nat| j < FANOUT ==> #[trigger] child_of(page_at(c4.contents(), kid), j) == 0
            }
        }),
    ensures
        tree_in(c4.contents(), c, kid, (level - 1) as nat, s4.footprint(c4).complement()),
{
    reveal(agree_on);
    let span = reach(c, (level - 1) as nat);
    let i = h / span;
    let good = s0.footprint(c0).complement();
    let p0 = c0.contents();
    let p4 = c4.contents();
    let down = (level - 1) as nat;
    lemma_descend(c, level, h);
    let child = child_of(page_at(p0, page), i);
    if child != 0 {
        lemma_subtree_in(p0, c, page, level, i, good);
        lemma_tree_same(p0, p4, c, child, down, good);
    }
    assert forall|k: nat, l: nat| k < span && l <= down implies ((#[trigger] node_at(
        p4,
        c,
        kid,
        down,
        k,
        l,
    )) matches Some(id) ==> s4.footprint(c4).complement().contains(id)) by {
        if child != 0 {
            assert(node_at(p0, c, child, down, k, l) == node_at(p4, c, child, down, k, l));
            if node_at(p4, c, child, down, k, l) is Some {
                assert(good.contains(node_at(p4, c, child, down, k, l)->0));
            }
        } else if l < down {
            lemma_descend(c, down, k);
            assert(child_of(page_at(p4, kid), k / reach(c, (down - 1) as nat)) == 0);
        }
    }
}

/// `b` is `a` with new contents in page `n`, which was unsaved already.
pub open spec fn edited(a: &PageCache, b: &PageCache, n: u64) -> bool {
    &&& b.inv()
    &&& b.same_config(a)
    &&& b.disk() == a.disk()
    &&& b.storage() == a.storage()
    &&& b.watermark() == a.watermark()
    &&& b.contents() == a.contents().insert(n, b.contents()[n])
    &&& b.contents().dom() == a.contents().dom()
    &&& b.unsaved() == a.unsaved().insert(n)
    &&& b.pending() == a.pending()
}

/// Point slot `i` of an unsaved interior page at `child`.
pub fn link_child(cache: &mut PageCache, node: u64, i: usize, child: u64) -> (outcome: Result<(), ChiselError>)
    requires
        old(cache).inv(),
        old(cache).contents().contains_key(node),
        old(cache).unsaved().contains(node),
        i < FANOUT,
    ensures
        final(cache).inv(),
        match outcome {
            Ok(_) => {
                &&& edited(old(cache), final(cache), node)
                &&& checksum_ok(final(cache).contents()[node])
                &&& head_of(final(cache).contents()[node]) == head_of(old(cache).contents()[node])
                &&& child_of(final(cache).contents()[node], i as nat) == child
                &&& forall|j: nat|
                    j < FANOUT && j != i ==> #[trigger] child_of(final(cache).contents()[node], j) == child_of(
                        old(cache).contents()[node],
                        j,
                    )
            },
            Err(e) => final(cache).same_pages(old(cache)) && overrun(old(cache), final(cache), e, 0),
        },
{
    proof {
        cache.lemma_explains(node);
    }
    match cache.get_mut(node) {
        Ok(buf) => {
            write_child(buf, i, child);
            let ghost s = buf@;
            stamp_checksum(buf);
            proof {
                assert forall|j: nat| j < FANOUT implies #[trigger] child_of(buf@, j) == child_of(s, j) by {
                    lemma_child_outside(s, buf@, j);
                }
            }
        },
        Err(e) => {
            return Err(e);
        },
    }
    proof {
        assert(cache.contents().dom() =~= old(cache).contents().dom());
    }
    Ok(())
}

/// The pages on the path of `h`, leaf first; the path must be complete.
pub open spec fn path_ids(pages: Map<u64, Seq<u8>>, c: nat, page: u64, level: nat, h: nat) -> Seq<u64>
    decreases level,
{
    if level == 0 {
        seq![page]
    } else {
        let span = reach(c, (level - 1) as nat);
        path_ids(pages, c, child_of(page_at(pages, page), h / span), (level - 1) as nat, h % span).push(page)
    }
}

/// Each page of a complete path is where it belongs.
pub proof fn lemma_path_ids(pages: Map<u64, Seq<u8>>, c: nat, page: u64, level: nat, h: nat)
    requires
        c > 0,
        node_at(pages, c, page, level, h, 0) is Some,
    ensures
        path_ids(pages, c, page, level, h).len() == level + 1,
        forall|l: nat|
            l <= level ==> node_at(pages, c, page, level, h, l) == Some(
                #[trigger] path_ids(pages, c, page, level, h)[l as int],
            ),
    decreases level,
{
    if level > 0 {
        lemma_reach_pos(c, (level - 1) as nat);
        let span = reach(c, (level - 1) as nat);
        let child = child_of(page_at(pages, page), h / span);
        lemma_path_ids(pages, c, child, (level - 1) as nat, h % span);
        let sub = path_ids(pages, c, child, (level - 1) as nat, h % span);
        assert forall|l: nat| l <= level implies node_at(pages, c, page, level, h, l) == Some(
            #[trigger] path_ids(pages, c, page, level, h)[l as int],
        ) by {
            if l < level {
                assert(node_at(pages, c, child, (level - 1) as nat, h % span, l) == Some(sub[l as int]));
            }
        }
    }
}

/// A new root above `root`: it reaches further, and what is below `root` stays
/// where it was.
pub proof fn lemma_grown(
    before: Map<u64, Seq<u8>>,
    after: Map<u64, Seq<u8>>,
    c: nat,
    root: u64,
    n: u64,
    level: nat,
    good: Set<u64>,
)
    requires
        c > 0,
        root != 0,
        tree_in(before, c, root, level, good),
        same_on(before, after, good),
        child_of(page_at(after, n), 0) == root,
        forall|i: nat| 0 < i < FANOUT ==> #[trigger] child_of(page_at(after, n), i) == 0,
        !good.contains(n),
    ensures
        forall|k: nat, l: nat|
            k < reach(c, level + 1) && l <= level ==> #[trigger] node_at(after, c, n, level + 1, k, l) == (if k
                < reach(c, level) {
                node_at(before, c, root, level, k, l)
            } else {
                None
            }),
        forall|k: nat| k < reach(c, level) ==> #[trigger] slot_of(c, level + 1, k) == slot_of(c, level, k),
        tree_in(after, c, n, level + 1, good.insert(n)),
        is_tree(before, c, root, level) ==> is_tree(after, c, n, level + 1),
        reach(c, level) < reach(c, level + 1),
{
    let span = reach(c, level);
    lemma_reach_pos(c, level);
    lemma_tree_same(before, after, c, root, level, good);
    assert forall|k: nat, l: nat| k < reach(c, level + 1) && l <= level implies #[trigger] node_at(
        after,
        c,
        n,
        level + 1,
        k,
        l,
    ) == (if k < reach(c, level) {
        node_at(before, c, root, level, k, l)
    } else {
        None
    }) by {
        lemma_descend(c, level + 1, k);
        if k < span {
            vstd::arithmetic::div_mod::lemma_basic_div(k as int, span as int);
            vstd::arithmetic::div_mod::lemma_small_mod(k, span);
            assert(node_at(before, c, root, level, k, l) == node_at(after, c, root, level, k, l));
        } else {
            assert(k / span > 0) by (nonlinear_arith)
                requires
                    k >= span,
                    span > 0,
            ;
        }
    }
    assert forall|k: nat| k < reach(c, level) implies #[trigger] slot_of(c, level + 1, k) == slot_of(c, level, k) by {
        vstd::arithmetic::div_mod::lemma_small_mod(k, span);
    }
    assert forall|k: nat, l: nat| k < reach(c, level + 1) && l <= level + 1 implies ((#[trigger] node_at(
        after,
        c,
        n,
        level + 1,
        k,
        l,
    )) matches Some(id) ==> good.insert(n).contains(id)) by {
        if l <= level && k < span {
            assert(node_at(after, c, n, level + 1, k, l) == node_at(before, c, root, level, k, l));
        }
    }
    if is_tree(before, c, root, level) {
        assert forall|k1: nat, l1: nat, k2: nat, l2: nat|
            k1 < reach(c, level + 1) && k2 < reach(c, level + 1) && l1 <= level + 1 && l2 <= level + 1 && (
            #[trigger] node_at(after, c, n, level + 1, k1, l1)) is Some && node_at(after, c, n, level + 1, k1, l1)
                == (#[trigger] node_at(after, c, n, level + 1, k2, l2)) implies l1 == l2 && shares(
            c,
            level + 1,
            k1,
            k2,
            l1,
        ) by {
            if l1 <= level && l2 <= level {
                assert(k1 < span && k2 < span);
                assert(node_at(before, c, root, level, k1, l1) == node_at(before, c, root, level, k2, l2));
                vstd::arithmetic::div_mod::lemma_basic_div(k1 as int, span as int);
                vstd::arithmetic::div_mod::lemma_small_mod(k1, span);
                vstd::arithmetic::div_mod::lemma_basic_div(k2 as int, span as int);
                vstd::arithmetic::div_mod::lemma_small_mod(k2, span);
            } else if l1 <= level {
                assert(node_at(before, c, root, level, k1, l1) == Some(n));
            } else if l2 <= level {
                assert(node_at(before, c, root, level, k2, l2) == Some(n));
            }
        }
    }
}

/// After the child was replaced, copying the parent and pointing the copy at
/// the new child leaves the old tree and the new child's path alone.
pub proof fn lemma_parent_copied<A: PageSource>(
    s0: &A,
    c0: &PageCache,
    s5: &A,
    c5: &PageCache,
    s6: &A,
    c6: &PageCache,
    c7: &PageCache,
    c: nat,
    kid: u64,
    top: u64,
    down: nat,
    h: nat,
    news: Seq<u64>,
    c4: &PageCache,
    n: u64,
    g: nat,
)
    requires
        spine_written(s0, c4, s5, c5, c, kid, top, down, h, news),
        s5.footprint(c5).subset_of(s0.footprint(c0)),
        cow_step(s5, c5, s6, c6, g),
        taken(s5, c5, s6, c6, n),
        edited(c6, c7, n),
        !s0.footprint(c0).contains(kid),
        s0.footprint(c0) == s0.footprint(c4),
    ensures
        !news.contains(n),
        forall|x: u64|
            s0.footprint(c0).complement().contains(x) || news.contains(x) || x == kid ==> #[trigger] page_at(
                c7.contents(),
                x,
            ) == page_at(c5.contents(), x),
{
    lemma_not_in_news(s0, c4, s5, c5, c, kid, top, down, h, news, n);
    assert forall|x: u64|
        s0.footprint(c0).complement().contains(x) || news.contains(x) || x == kid implies #[trigger] page_at(
        c7.contents(),
        x,
    ) == page_at(c5.contents(), x) by {
        assert(!s5.footprint(c5).contains(x)) by {
            if news.contains(x) {
                reveal(spine_written);
                let j = news.index_of(x);
                assert(taken(s0, c4, s5, c5, news[j]));
            }
        }
        lemma_agree_at(c5, c6, s5.footprint(c5).complement(), x);
    }
}

/// The sound pages outside `avoid`.
pub open spec fn good_pages(cache: &PageCache, avoid: Set<u64>) -> Set<u64> {
    Set::new(|id: u64| cache.sound(id) && !avoid.contains(id))
}

/// A tree within a set is within every larger set.
pub proof fn lemma_tree_mono(pages: Map<u64, Seq<u8>>, c: nat, page: u64, level: nat, a: Set<u64>, b: Set<u64>)
    requires
        tree_in(pages, c, page, level, a),
        a.subset_of(b),
    ensures
        tree_in(pages, c, page, level, b),
{
}

/// Sound pages outside the footprint stay so.
pub proof fn lemma_good_kept<A: PageSource>(s0: &A, c0: &PageCache, s1: &A, c1: &PageCache, n: nat)
    requires
        cow_step(s0, c0, s1, c1, n),
    ensures
        good_pages(c0, s0.footprint(c0)).subset_of(good_pages(c1, s1.footprint(c1))),
        same_on(c0.contents(), c1.contents(), s0.footprint(c0).complement()),
{
    reveal(agree_on);
    let good0 = good_pages(c0, s0.footprint(c0));
    let good1 = good_pages(c1, s1.footprint(c1));
    assert forall|id: u64| #[trigger] good0.contains(id) implies good1.contains(id) by {
        assert(s0.footprint(c0).complement().contains(id));
    }
    assert(good0.subset_of(good1));
}

/// A path made of fresh pages, at the level of the whole tree: outside the
/// footprint, of sound pages, each page at one place, and without the pages
/// that it replaced.
pub proof fn lemma_spine_tree<A: PageSource>(
    s0: &A,
    c0: &PageCache,
    s1: &A,
    c1: &PageCache,
    c: nat,
    page: u64,
    n: u64,
    level: nat,
    h: nat,
    news: Seq<u64>,
    m: nat,
)
    requires
        c > 0,
        h < reach(c, level),
        cow_step(s0, c0, s1, c1, m),
        spine_written(s0, c0, s1, c1, c, page, n, level, h, news),
        tree_in(c0.contents(), c, page, level, s0.footprint(c0).complement()),
    ensures
        tree_in(c1.contents(), c, n, level, s1.footprint(c1).complement()),
        tree_in(c0.contents(), c, page, level, good_pages(c0, s0.footprint(c0))) ==> tree_in(
            c1.contents(),
            c,
            n,
            level,
            good_pages(c1, s1.footprint(c1)),
        ),
        is_tree(c0.contents(), c, page, level) ==> is_tree(c1.contents(), c, n, level),
        forall|pages: Set<u64>|
            pages.disjoint(s0.footprint(c0)) && #[trigger] tree_in(c0.contents(), c, page, level, pages) ==> tree_in(
                c1.contents(),
                c,
                n,
                level,
                pages.union(taken_pages(s0, c0, s1, c1)),
            ),
        forall|x: u64| #![trigger Set::<u64>::full().remove(x)]
            is_tree(c0.contents(), c, page, level) && (exists|l: nat|
                l <= level && #[trigger] node_at(c0.contents(), c, page, level, h, l) == Some(x)) ==> tree_in(
                c1.contents(),
                c,
                n,
                level,
                Set::<u64>::full().remove(x),
            ),
        forall|x: u64| #![trigger Set::<u64>::full().remove(x)]
            s0.footprint(c0).contains(x) && !news.contains(x) ==> tree_in(
                c1.contents(),
                c,
                n,
                level,
                Set::<u64>::full().remove(x),
            ),
{
    reveal(spine_written);
    let p0 = c0.contents();
    let p1 = c1.contents();
    let out = s0.footprint(c0).complement();
    lemma_good_kept(s0, c0, s1, c1, m);
    assert forall|i: int| 0 <= i < news.len() implies s1.footprint(c1).complement().contains(#[trigger] news[i]) by {
        assert(taken(s0, c0, s1, c1, news[i]));
    }
    lemma_replaced_in(p0, p1, c, page, n, level, h, news, out, s1.footprint(c1).complement());
    let good0 = good_pages(c0, s0.footprint(c0));
    let good1 = good_pages(c1, s1.footprint(c1));
    if tree_in(p0, c, page, level, good0) {
        assert forall|i: int| 0 <= i < news.len() implies good1.contains(#[trigger] news[i]) by {
            assert(taken(s0, c0, s1, c1, news[i]));
        }
        lemma_replaced_in(p0, p1, c, page, n, level, h, news, good0, good1);
    }
    assert forall|pages: Set<u64>|
        pages.disjoint(s0.footprint(c0)) && #[trigger] tree_in(p0, c, page, level, pages) implies tree_in(
        p1,
        c,
        n,
        level,
        pages.union(taken_pages(s0, c0, s1, c1)),
    ) by {
        let all = pages.union(taken_pages(s0, c0, s1, c1));
        assert forall|i: int| 0 <= i < news.len() implies all.contains(#[trigger] news[i]) by {
            assert(taken(s0, c0, s1, c1, news[i]));
        }
        assert forall|id: u64| #[trigger] pages.contains(id) implies page_at(p0, id) == page_at(p1, id) by {
            assert(out.contains(id));
        }
        lemma_replaced_in(p0, p1, c, page, n, level, h, news, pages, all);
    }
    if is_tree(p0, c, page, level) {
        assert forall|i: int| 0 <= i < news.len() implies !out.contains(#[trigger] news[i]) by {
            assert(taken(s0, c0, s1, c1, news[i]));
        }
        lemma_replaced_is_tree(p0, p1, c, page, n, level, h, news, out);
    }
    assert forall|x: u64| #![trigger Set::<u64>::full().remove(x)]
        s0.footprint(c0).contains(x) && !news.contains(x) implies tree_in(
        p1,
        c,
        n,
        level,
        Set::<u64>::full().remove(x),
    ) by {
        let rest = Set::<u64>::full().remove(x);
        assert forall|i: int| 0 <= i < news.len() implies rest.contains(#[trigger] news[i]) by {
            assert(news.contains(news[i]));
        }
        assert(out.subset_of(rest));
        lemma_replaced_in(p0, p1, c, page, n, level, h, news, out, rest);
    }
}

/// What a copy-on-write operation hands on from the old tree to the new one.
pub open spec fn tree_kept<A: PageSource>(
    source0: &A,
    cache0: &PageCache,
    source1: &A,
    cache1: &PageCache,
    c: nat,
    root0: u64,
    depth0: nat,
    root1: u64,
    depth1: nat,
) -> bool {
    &&& tree_in(cache1.contents(), c, root1, depth1, source1.footprint(cache1).complement())
    &&& tree_in(cache0.contents(), c, root0, depth0, good_pages(cache0, source0.footprint(cache0))) ==> tree_in(
        cache1.contents(),
        c,
        root1,
        depth1,
        good_pages(cache1, source1.footprint(cache1)),
    )
    &&& is_tree(cache0.contents(), c, root0, depth0) ==> is_tree(cache1.contents(), c, root1, depth1)
    &&& forall|pages: Set<u64>|
        pages.disjoint(source0.footprint(cache0)) && #[trigger] tree_in(
            cache0.contents(),
            c,
            root0,
            depth0,
            pages,
        ) ==> tree_in(
            cache1.contents(),
            c,
            root1,
            depth1,
            pages.union(taken_pages(source0, cache0, source1, cache1)),
        )
}

/// The pages that were taken out of the footprint and hold unsaved contents that
/// match their checksum.
pub open spec fn taken_pages<A: PageSource>(
    source0: &A,
    cache0: &PageCache,
    source1: &A,
    cache1: &PageCache,
) -> Set<u64> {
    Set::new(|id: u64| taken(source0, cache0, source1, cache1, id) && checksum_ok(cache1.contents()[id]))
}

/// The pages put on the list of freed pages: the nodes on the path of `h` in the
/// old tree, and pages taken on the way. No page of the new tree is among them, and
/// no page of the old tree or taken is missing from both.
pub open spec fn freed_ok<A: PageSource>(
    source0: &A,
    cache0: &PageCache,
    source1: &A,
    cache1: &PageCache,
    c: nat,
    root0: u64,
    depth0: nat,
    root1: u64,
    depth1: nat,
    h: nat,
    freed0: Seq<u64>,
    freed1: Seq<u64>,
) -> bool {
    &&& freed0.is_prefix_of(freed1)
    &&& forall|i: int|
        freed0.len() <= i < freed1.len() ==> (taken(source0, cache0, source1, cache1, #[trigger] freed1[i])
            || h < reach(c, depth0) && exists|l: nat|
            l <= depth0 && #[trigger] node_at(cache0.contents(), c, root0, depth0, h, l) == Some(freed1[i]))
    &&& is_tree(cache0.contents(), c, root0, depth0) ==> forall|i: int|
        freed0.len() <= i < freed1.len() ==> tree_in(
            cache1.contents(),
            c,
            root1,
            depth1,
            Set::<u64>::full().remove(#[trigger] freed1[i]),
        )
    &&& h < reach(c, depth0) ==> forall|l: nat|
        l <= depth0 ==> ((#[trigger] node_at(cache0.contents(), c, root0, depth0, h, l)) matches Some(id)
            ==> freed1.skip(freed0.len() as int).contains(id))
    &&& forall|id: u64| #[trigger]
        nodes_of(cache0.contents(), c, root0, depth0).contains(id) ==> nodes_of(
            cache1.contents(),
            c,
            root1,
            depth1,
        ).contains(id) || freed1.skip(freed0.len() as int).contains(id)
    &&& forall|id: u64| #[trigger]
        source0.footprint(cache0).contains(id) ==> source1.footprint(cache1).contains(id) || nodes_of(
            cache1.contents(),
            c,
            root1,
            depth1,
        ).contains(id) || freed1.skip(freed0.len() as int).contains(id)
}

/// A node that is not on the path of `h` stays in the tree.
pub proof fn lemma_off_path_stays<A: PageSource>(
    s0: &A,
    c0: &PageCache,
    s1: &A,
    c1: &PageCache,
    c: nat,
    page: u64,
    n: u64,
    level: nat,
    h: nat,
    news: Seq<u64>,
    id: u64,
)
    requires
        c > 0,
        h < reach(c, level),
        spine_written(s0, c0, s1, c1, c, page, n, level, h, news),
        nodes_of(c0.contents(), c, page, level).contains(id),
        !path_has(c0.contents(), c, page, level, h, id),
    ensures
        nodes_of(c1.contents(), c, n, level).contains(id),
{
    reveal(spine_written);
    let (k, l) = choose|k: nat, l: nat|
        k < reach(c, level) && l <= level && #[trigger] node_at(c0.contents(), c, page, level, k, l) == Some(id);
    if shares(c, level, k, h, l) {
        lemma_shared_node(c0.contents(), c, page, level, k, h, l);
        assert(node_at(c0.contents(), c, page, level, h, l) == Some(id));
    }
    assert(node_at(c1.contents(), c, n, level, k, l) == Some(id));
}

/// New roots were put above the tree until `h` was within reach: `cur` at depth
/// `d` stands for `root` at depth `d0`.
pub open spec fn grown_tree<A: PageSource>(
    source0: &A,
    cache0: &PageCache,
    source1: &A,
    cache1: &PageCache,
    c: nat,
    root: u64,
    d0: nat,
    cur: u64,
    d: nat,
    h: nat,
) -> bool {
    &&& d0 <= d
    &&& cur != 0
    &&& tree_kept(source0, cache0, source1, cache1, c, root, d0, cur, d)
    &&& d == d0 ==> cur == root && *cache1 == *cache0 && *source1 == *source0
    &&& d > d0 ==> taken(source0, cache0, source1, cache1, cur) && h >= reach(c, (d - 1) as nat)
    &&& d > d0 && h < reach(c, d) ==> forall|l: nat|
        l < d ==> #[trigger] node_at(cache1.contents(), c, cur, d, h, l) is None
    &&& nodes_of(cache0.contents(), c, root, d0).subset_of(nodes_of(cache1.contents(), c, cur, d))
    &&& forall|id: u64| #[trigger]
        source0.footprint(cache0).contains(id) ==> source1.footprint(cache1).contains(id) || nodes_of(
            cache1.contents(),
            c,
            cur,
            d,
        ).contains(id)
}

/// A tree that needs no new root.
pub proof fn lemma_grown_none<A: PageSource>(source: &A, cache: &PageCache, c: nat, root: u64, d: nat, h: nat)
    requires
        root != 0,
        tree_in(cache.contents(), c, root, d, source.footprint(cache).complement()),
    ensures
        grown_tree(source, cache, source, cache, c, root, d, root, d, h),
{
    assert forall|pages: Set<u64>| #[trigger] tree_in(cache.contents(), c, root, d, pages) implies tree_in(
        cache.contents(),
        c,
        root,
        d,
        pages.union(taken_pages(source, cache, source, cache)),
    ) by {
        lemma_tree_mono(
            cache.contents(),
            c,
            root,
            d,
            pages,
            pages.union(taken_pages(source, cache, source, cache)),
        );
    }
}

/// One more root.
pub proof fn lemma_grown_step<A: PageSource>(
    s0: &A,
    c0: &PageCache,
    s1: &A,
    c1: &PageCache,
    s2: &A,
    c2: &PageCache,
    c: nat,
    root: u64,
    d0: nat,
    cur: u64,
    d: nat,
    n: u64,
    h: nat,
    a: nat,
    b: nat,
)
    requires
        c > 0,
        cow_step(s0, c0, s1, c1, a),
        cow_step(s1, c1, s2, c2, b),
        grown_tree(s0, c0, s1, c1, c, root, d0, cur, d, h),
        taken(s1, c1, s2, c2, n),
        s2.footprint(c2) == s1.footprint(c1).remove(n),
        checksum_ok(c2.contents()[n]),
        child_of(page_at(c2.contents(), n), 0) == cur,
        forall|i: nat| 0 < i < FANOUT ==> #[trigger] child_of(page_at(c2.contents(), n), i) == 0,
        h >= reach(c, d),
    ensures
        grown_tree(s0, c0, s2, c2, c, root, d0, n, d + 1, h),
        forall|k: nat, l: nat|
            k < reach(c, d + 1) && l <= d ==> #[trigger] node_at(c2.contents(), c, n, d + 1, k, l) == (if k < reach(
                c,
                d,
            ) {
                node_at(c1.contents(), c, cur, d, k, l)
            } else {
                None
            }),
        forall|k: nat| k < reach(c, d) ==> #[trigger] slot_of(c, d + 1, k) == slot_of(c, d, k),
        same_on(c1.contents(), c2.contents(), s1.footprint(c1).complement()),
{
    lemma_cow_chain(s0, c0, s1, c1, s2, c2, a, b);
    lemma_good_kept(s1, c1, s2, c2, b);
    let p1 = c1.contents();
    let p2 = c2.contents();
    let out1 = s1.footprint(c1).complement();
    let out2 = s2.footprint(c2).complement();
    lemma_grown(p1, p2, c, cur, n, d, out1);
    lemma_tree_mono(p2, c, n, d + 1, out1.insert(n), out2);
    let good1 = good_pages(c1, s1.footprint(c1));
    let good2 = good_pages(c2, s2.footprint(c2));
    if tree_in(p1, c, cur, d, good1) {
        assert forall|id: u64| #[trigger] good1.contains(id) implies page_at(p1, id) == page_at(p2, id) by {
            assert(out1.contains(id));
        }
        lemma_grown(p1, p2, c, cur, n, d, good1);
        assert(good2.contains(n));
        lemma_tree_mono(p2, c, n, d + 1, good1.insert(n), good2);
    }
    assert(taken(s0, c0, s2, c2, n));
    assert forall|pages: Set<u64>|
        pages.disjoint(s0.footprint(c0)) && #[trigger] tree_in(c0.contents(), c, root, d0, pages) implies tree_in(
        p2,
        c,
        n,
        d + 1,
        pages.union(taken_pages(s0, c0, s2, c2)),
    ) by {
        let mid = pages.union(taken_pages(s0, c0, s1, c1));
        let all = pages.union(taken_pages(s0, c0, s2, c2));
        assert forall|id: u64| #[trigger] mid.contains(id) implies page_at(p1, id) == page_at(p2, id) by {
            assert(out1.contains(id));
        }
        lemma_grown(p1, p2, c, cur, n, d, mid);
        assert forall|id: u64| #[trigger] mid.insert(n).contains(id) implies all.contains(id) by {
            if taken(s0, c0, s1, c1, id) {
                assert(taken(s0, c0, s2, c2, id));
            }
        }
        lemma_tree_mono(p2, c, n, d + 1, mid.insert(n), all);
    }
    assert(tree_kept(s0, c0, s2, c2, c, root, d0, n, d + 1));
    let nodes1 = nodes_of(p1, c, cur, d);
    let nodes2 = nodes_of(p2, c, n, d + 1);
    lemma_reach_pos(c, d);
    lemma_reach_pos(c, d + 1);
    assert forall|id: u64| #[trigger] nodes1.contains(id) implies nodes2.contains(id) by {
        let (k, l) = choose|k: nat, l: nat|
            k < reach(c, d) && l <= d && #[trigger] node_at(p1, c, cur, d, k, l) == Some(id);
        assert(k < reach(c, d + 1)) by (nonlinear_arith)
            requires
                k < reach(c, d),
                reach(c, d + 1) == FANOUT * reach(c, d),
                FANOUT >= 1,
        ;
        assert(node_at(p2, c, n, d + 1, k, l) == Some(id));
    }
    assert(node_at(p2, c, n, d + 1, 0, d + 1) == Some(n));
    assert(nodes2.contains(n));
}

/// A new root begins as its level says, and the leftmost leaf stays.
pub proof fn lemma_headed_grown<A: PageSource>(
    s1: &A,
    c1: &PageCache,
    s2: &A,
    c2: &PageCache,
    c: nat,
    cur: u64,
    d: nat,
    n: u64,
    head: spec_fn(nat) -> (u8, u8),
)
    requires
        c > 0,
        tree_in(c1.contents(), c, cur, d, s1.footprint(c1).complement()),
        same_on(c1.contents(), c2.contents(), s1.footprint(c1).complement()),
        forall|k: nat, l: nat|
            k < reach(c, d + 1) && l <= d ==> #[trigger] node_at(c2.contents(), c, n, d + 1, k, l) == (if k < reach(
                c,
                d,
            ) {
                node_at(c1.contents(), c, cur, d, k, l)
            } else {
                None
            }),
        head_of(page_at(c2.contents(), n)) == head(d + 1),
        tree_headed(c1.contents(), c, cur, d, head),
    ensures
        tree_headed(c2.contents(), c, n, d + 1, head),
{
    lemma_reach_pos(c, d);
    let p1 = c1.contents();
    let p2 = c2.contents();
    assert forall|k: nat, l: nat| k < reach(c, d + 1) && l <= d + 1 implies ((#[trigger] node_at(
        p2,
        c,
        n,
        d + 1,
        k,
        l,
    )) matches Some(id) ==> head_of(page_at(p2, id)) == head(l)) by {
        if l <= d && k < reach(c, d) {
            assert(node_at(p2, c, n, d + 1, k, l) == node_at(p1, c, cur, d, k, l));
            if node_at(p1, c, cur, d, k, l) is Some {
                assert(s1.footprint(c1).complement().contains(node_at(p1, c, cur, d, k, l)->0));
            }
        }
    }
    assert(node_at(p2, c, n, d + 1, 0, 0) is Some);
}

/// What becomes of the tree when the path of `h` is replaced after growing.
#[verifier::rlimit(50)]
#[verifier::spinoff_prover]
pub proof fn lemma_path_replaced<A: PageSource>(
    s0: &A,
    c0: &PageCache,
    s1: &A,
    c1: &PageCache,
    s2: &A,
    c2: &PageCache,
    c: nat,
    root: u64,
    d0: nat,
    cur: u64,
    d: nat,
    n: u64,
    h: nat,
    news: Seq<u64>,
    freed0: Seq<u64>,
    freed1: Seq<u64>,
    a: nat,
    b: nat,
)
    requires
        c > 0,
        h < reach(c, d),
        cow_step(s0, c0, s1, c1, a),
        cow_step(s1, c1, s2, c2, b),
        grown_tree(s0, c0, s1, c1, c, root, d0, cur, d, h),
        spine_written(s1, c1, s2, c2, c, cur, n, d, h, news),
        path_freed(s1, c1, s2, c2, c, cur, d, h, freed0, freed1, news),
    ensures
        cow_step(s0, c0, s2, c2, a + b),
        tree_kept(s0, c0, s2, c2, c, root, d0, n, d),
        freed_ok(s0, c0, s2, c2, c, root, d0, n, d, h, freed0, freed1),
        taken(s0, c0, s2, c2, n),
{
    lemma_cow_chain(s0, c0, s1, c1, s2, c2, a, b);
    lemma_spine_tree(s1, c1, s2, c2, c, cur, n, d, h, news, b);
    lemma_spine_facts(s1, c1, s2, c2, c, cur, n, d, h, news, freed0, freed1);
    assert(taken(s0, c0, s2, c2, n));
    let p0 = c0.contents();
    let p1 = c1.contents();
    assert forall|pages: Set<u64>|
        pages.disjoint(s0.footprint(c0)) && #[trigger] tree_in(p0, c, root, d0, pages) implies tree_in(
        c2.contents(),
        c,
        n,
        d,
        pages.union(taken_pages(s0, c0, s2, c2)),
    ) by {
        let mid = pages.union(taken_pages(s0, c0, s1, c1));
        let end = mid.union(taken_pages(s1, c1, s2, c2));
        let all = pages.union(taken_pages(s0, c0, s2, c2));
        assert(tree_in(p1, c, cur, d, mid));
        assert forall|id: u64| #[trigger] end.contains(id) implies all.contains(id) by {
            if taken(s0, c0, s1, c1, id) || taken(s1, c1, s2, c2, id) {
                assert(taken(s0, c0, s2, c2, id));
            }
        }
        lemma_tree_mono(c2.contents(), c, n, d, end, all);
    }
    assert forall|i: int| freed0.len() <= i < freed1.len() implies {
        &&& (taken(s0, c0, s2, c2, #[trigger] freed1[i]) || h < reach(c, d0) && exists|l: nat|
            l <= d0 && #[trigger] node_at(p0, c, root, d0, h, l) == Some(freed1[i]))
        &&& is_tree(p0, c, root, d0) ==> tree_in(c2.contents(), c, n, d, Set::<u64>::full().remove(freed1[i]))
    } by {
        reveal(path_freed);
        let l = (freed0.len() + d - i) as nat;
        assert(freed1[freed0.len() + d - l] == freed1[i]);
        match node_at(p1, c, cur, d, h, l) {
            Some(id) => {
                assert(id == freed1[i]);
                if d > d0 {
                    assert(l == d);
                    assert(id == cur);
                    assert(taken(s0, c0, s2, c2, cur));
                } else {
                    assert(node_at(p0, c, root, d0, h, l) == Some(freed1[i]));
                }
            },
            None => {
                assert(taken(s1, c1, s2, c2, freed1[i]));
                assert(taken(s0, c0, s2, c2, freed1[i]));
            },
        }
    }
    // Nothing is lost.
    let tail = freed1.skip(freed0.len() as int);
    let p2 = c2.contents();
    let new = nodes_of(p2, c, n, d);
    assert forall|l: nat| l <= d implies ((#[trigger] node_at(p1, c, cur, d, h, l)) matches Some(id) ==> tail.contains(
        id,
    )) by {
        reveal(path_freed);
        if node_at(p1, c, cur, d, h, l) is Some {
            let id = node_at(p1, c, cur, d, h, l)->0;
            assert(freed1[freed0.len() + d - l] == id);
            assert(tail[d - l] == id);
        }
    }
    assert forall|id: u64| #[trigger] nodes_of(p1, c, cur, d).contains(id) implies new.contains(id) || tail.contains(id) by {
        if path_has(p1, c, cur, d, h, id) {
            let l = choose|l: nat| l <= d && #[trigger] node_at(p1, c, cur, d, h, l) == Some(id);
            assert(tail.contains(id));
        } else {
            lemma_off_path_stays(s1, c1, s2, c2, c, cur, n, d, h, news, id);
        }
    }
    assert forall|id: u64| #[trigger] s0.footprint(c0).contains(id) implies s2.footprint(c2).contains(id)
        || new.contains(id) || tail.contains(id) by {
        if s1.footprint(c1).contains(id) {
            reveal(path_freed);
            if news.contains(id) {
                let l = news.index_of(id) as nat;
                lemma_spine_nodes(s1, c1, s2, c2, c, cur, n, d, h, news);
                assert(node_at(p2, c, n, d, h, l) == Some(id));
            }
        } else {
            assert(nodes_of(p1, c, cur, d).contains(id));
        }
    }
    assert(h < reach(c, d0) ==> d == d0) by {
        if d > d0 {
            lemma_reach_grows(c, d0, (d - 1) as nat);
        }
    }
}

/// A deeper tree reaches as far.
proof fn lemma_reach_grows(c: nat, a: nat, b: nat)
    requires
        a <= b,
    ensures
        reach(c, a) <= reach(c, b),
    decreases b - a,
{
    if a < b {
        lemma_reach_grows(c, a, (b - 1) as nat);
        assert(reach(c, (b - 1) as nat) <= FANOUT * reach(c, (b - 1) as nat)) by (nonlinear_arith)
            requires
                FANOUT >= 1,
        ;
    }
}

/// The value of key `k` below a node: `read` of its leaf and slot, or `none` if
/// the path ends before.
pub open spec fn tree_value<T>(
    pages: Map<u64, Seq<u8>>,
    c: nat,
    page: u64,
    level: nat,
    k: nat,
    read: spec_fn(Seq<u8>, nat) -> T,
    none: T,
) -> T {
    match node_at(pages, c, page, level, k, 0) {
        Some(leaf) => read(page_at(pages, leaf), slot_of(c, level, k)),
        None => none,
    }
}

/// The leaf of the new path holds `value` in the slot of the key, and what the
/// old leaf held, if there was one, in all others.
pub open spec fn leaf_changed<T>(
    before: Map<u64, Seq<u8>>,
    old_leaf: Option<u64>,
    new_leaf: Seq<u8>,
    c: nat,
    slot: nat,
    read: spec_fn(Seq<u8>, nat) -> T,
    none: T,
    value: T,
) -> bool {
    forall|s: nat|
        s < c ==> #[trigger] read(new_leaf, s) == (if s == slot {
            value
        } else {
            match old_leaf {
                Some(leaf) => read(page_at(before, leaf), s),
                None => none,
            }
        })
}

/// Replacing the path of `h` changes the value of `h` and no other.
pub proof fn lemma_value_written<A: PageSource, T>(
    s0: &A,
    c0: &PageCache,
    s1: &A,
    c1: &PageCache,
    c: nat,
    page: u64,
    n: u64,
    level: nat,
    h: nat,
    news: Seq<u64>,
    m: nat,
    read: spec_fn(Seq<u8>, nat) -> T,
    none: T,
    value: T,
)
    requires
        c > 0,
        h < reach(c, level),
        cow_step(s0, c0, s1, c1, m),
        spine_written(s0, c0, s1, c1, c, page, n, level, h, news),
        tree_in(c0.contents(), c, page, level, s0.footprint(c0).complement()),
        leaf_changed(
            c0.contents(),
            node_at(c0.contents(), c, page, level, h, 0),
            page_at(c1.contents(), news[0]),
            c,
            slot_of(c, level, h),
            read,
            none,
            value,
        ),
    ensures
        forall|k: nat|
            k < reach(c, level) ==> #[trigger] tree_value(c1.contents(), c, n, level, k, read, none) == (if k == h {
                value
            } else {
                tree_value(c0.contents(), c, page, level, k, read, none)
            }),
{
    reveal(spine_written);
    let p0 = c0.contents();
    let p1 = c1.contents();
    lemma_good_kept(s0, c0, s1, c1, m);
    assert forall|k: nat| k < reach(c, level) implies #[trigger] tree_value(p1, c, n, level, k, read, none) == (if k
        == h {
        value
    } else {
        tree_value(p0, c, page, level, k, read, none)
    }) by {
        lemma_slot_bound(c, level, k);
        if k == h {
            lemma_shares_self(c, level, h, 0);
        }
        if shares(c, level, k, h, 0) {
            lemma_shared_node(p0, c, page, level, k, h, 0);
            assert(node_at(p1, c, n, level, k, 0) == Some(news[0]));
            if slot_of(c, level, k) == slot_of(c, level, h) {
                lemma_slot_unique(c, level, k, h);
            }
        } else {
            assert(node_at(p1, c, n, level, k, 0) == node_at(p0, c, page, level, k, 0));
            if node_at(p0, c, page, level, k, 0) is Some {
                let leaf = node_at(p0, c, page, level, k, 0)->0;
                assert(s0.footprint(c0).complement().contains(leaf));
            }
        }
    }
}

/// Putting a root above the tree keeps all values.
pub proof fn lemma_value_grown<A: PageSource, T>(
    s1: &A,
    c1: &PageCache,
    s2: &A,
    c2: &PageCache,
    c: nat,
    cur: u64,
    d: nat,
    n: u64,
    read: spec_fn(Seq<u8>, nat) -> T,
    none: T,
)
    requires
        c > 0,
        tree_in(c1.contents(), c, cur, d, s1.footprint(c1).complement()),
        same_on(c1.contents(), c2.contents(), s1.footprint(c1).complement()),
        forall|k: nat, l: nat|
            k < reach(c, d + 1) && l <= d ==> #[trigger] node_at(c2.contents(), c, n, d + 1, k, l) == (if k < reach(
                c,
                d,
            ) {
                node_at(c1.contents(), c, cur, d, k, l)
            } else {
                None
            }),
        forall|k: nat| k < reach(c, d) ==> #[trigger] slot_of(c, d + 1, k) == slot_of(c, d, k),
    ensures
        reach(c, d) < reach(c, d + 1),
        forall|k: nat|
            k < reach(c, d + 1) ==> #[trigger] tree_value(c2.contents(), c, n, d + 1, k, read, none) == (if k < reach(
                c,
                d,
            ) {
                tree_value(c1.contents(), c, cur, d, k, read, none)
            } else {
                none
            }),
{
    lemma_reach_pos(c, d);
    assert forall|k: nat| k < reach(c, d + 1) implies #[trigger] tree_value(
        c2.contents(),
        c,
        n,
        d + 1,
        k,
        read,
        none,
    ) == (if k < reach(c, d) {
        tree_value(c1.contents(), c, cur, d, k, read, none)
    } else {
        none
    }) by {
        assert(node_at(c2.contents(), c, n, d + 1, k, 0) == (if k < reach(c, d) {
            node_at(c1.contents(), c, cur, d, k, 0)
        } else {
            None
        }));
        if k < reach(c, d) && node_at(c1.contents(), c, cur, d, k, 0) is Some {
            let leaf = node_at(c1.contents(), c, cur, d, k, 0)->0;
            assert(s1.footprint(c1).complement().contains(leaf));
        }
    }
}

} // verus!
