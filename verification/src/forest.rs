//! Several page trees side by side.

use vstd::prelude::*;

use crate::page::checksum_ok;
use crate::page_cache::PageCache;
use crate::page_source::{cow_step, lemma_cow_chain, taken, PageSource};
use crate::radix::{is_tree, lemma_reach_pos, lemma_tree_same, node_at, page_at, reach, same_on, tree_in};
use crate::spine::{freed_ok, head_of, lemma_good_kept, lemma_tree_mono, taken_pages, tree_headed, tree_kept};

verus! {

/// The pages of a tree.
pub open spec fn nodes_of(pages: Map<u64, Seq<u8>>, c: nat, root: u64, depth: nat) -> Set<u64> {
    Set::new(
        |id: u64|
            exists|k: nat, l: nat|
                k < reach(c, depth) && l <= depth && #[trigger] node_at(pages, c, root, depth, k, l) == Some(id),
    )
}

/// A tree lies within its own pages, and these within every set that it lies
/// within.
pub proof fn lemma_nodes(pages: Map<u64, Seq<u8>>, c: nat, root: u64, depth: nat)
    ensures
        tree_in(pages, c, root, depth, nodes_of(pages, c, root, depth)),
        forall|good: Set<u64>| #[trigger]
            tree_in(pages, c, root, depth, good) ==> nodes_of(pages, c, root, depth).subset_of(good),
{
    assert forall|good: Set<u64>| #[trigger] tree_in(pages, c, root, depth, good) implies nodes_of(
        pages,
        c,
        root,
        depth,
    ).subset_of(good) by {
        assert forall|id: u64| nodes_of(pages, c, root, depth).contains(id) implies #[trigger] good.contains(id) by {
            let (k, l) = choose|k: nat, l: nat|
                k < reach(c, depth) && l <= depth && #[trigger] node_at(pages, c, root, depth, k, l) == Some(id);
            assert(node_at(pages, c, root, depth, k, l) == Some(id));
        }
    }
}

/// A tree within pages that two maps agree on is the same in both.
pub proof fn lemma_same_tree(
    p0: Map<u64, Seq<u8>>,
    p1: Map<u64, Seq<u8>>,
    c: nat,
    root: u64,
    depth: nat,
    good: Set<u64>,
)
    requires
        c > 0,
        tree_in(p0, c, root, depth, good),
        same_on(p0, p1, good),
    ensures
        forall|k: nat, l: nat|
            k < reach(c, depth) && l <= depth ==> node_at(p0, c, root, depth, k, l) == #[trigger] node_at(
                p1,
                c,
                root,
                depth,
                k,
                l,
            ),
        forall|s: Set<u64>| #[trigger] tree_in(p0, c, root, depth, s) <==> tree_in(p1, c, root, depth, s),
        is_tree(p0, c, root, depth) == is_tree(p1, c, root, depth),
        nodes_of(p0, c, root, depth) == nodes_of(p1, c, root, depth),
        same_on_nodes(p0, p1, c, root, depth),
{
    lemma_tree_same(p0, p1, c, root, depth, good);
    assert forall|s: Set<u64>| #[trigger] tree_in(p0, c, root, depth, s) <==> tree_in(p1, c, root, depth, s) by {
        if tree_in(p0, c, root, depth, s) {
            assert forall|k: nat, l: nat| k < reach(c, depth) && l <= depth implies ((#[trigger] node_at(
                p1,
                c,
                root,
                depth,
                k,
                l,
            )) matches Some(id) ==> s.contains(id)) by {
                assert(node_at(p0, c, root, depth, k, l) == node_at(p1, c, root, depth, k, l));
            }
        }
        if tree_in(p1, c, root, depth, s) {
            assert forall|k: nat, l: nat| k < reach(c, depth) && l <= depth implies ((#[trigger] node_at(
                p0,
                c,
                root,
                depth,
                k,
                l,
            )) matches Some(id) ==> s.contains(id)) by {
                assert(node_at(p0, c, root, depth, k, l) == node_at(p1, c, root, depth, k, l));
            }
        }
    }
    assert(is_tree(p0, c, root, depth) == is_tree(p1, c, root, depth)) by {
        assert forall|k: nat, l: nat| k < reach(c, depth) && l <= depth implies #[trigger] node_at(
            p0,
            c,
            root,
            depth,
            k,
            l,
        ) == node_at(p1, c, root, depth, k, l) by {}
    }
    assert forall|id: u64| nodes_of(p0, c, root, depth).contains(id) == nodes_of(p1, c, root, depth).contains(id) by {
        if nodes_of(p0, c, root, depth).contains(id) {
            let (k, l) = choose|k: nat, l: nat|
                k < reach(c, depth) && l <= depth && #[trigger] node_at(p0, c, root, depth, k, l) == Some(id);
            assert(node_at(p1, c, root, depth, k, l) == Some(id));
        }
        if nodes_of(p1, c, root, depth).contains(id) {
            let (k, l) = choose|k: nat, l: nat|
                k < reach(c, depth) && l <= depth && #[trigger] node_at(p1, c, root, depth, k, l) == Some(id);
            assert(node_at(p0, c, root, depth, k, l) == Some(id));
        }
    }
    assert(nodes_of(p0, c, root, depth) =~= nodes_of(p1, c, root, depth));
    lemma_nodes(p0, c, root, depth);
    assert forall|id: u64| #[trigger] nodes_of(p0, c, root, depth).contains(id) implies page_at(p0, id) == page_at(
        p1,
        id,
    ) by {
        assert(good.contains(id));
    }
}

/// The beginnings of the pages of a tree depend on those pages only.
pub proof fn lemma_same_headed(
    p0: Map<u64, Seq<u8>>,
    p1: Map<u64, Seq<u8>>,
    c: nat,
    root: u64,
    depth: nat,
    good: Set<u64>,
    head: spec_fn(nat) -> (u8, u8),
)
    requires
        c > 0,
        tree_in(p0, c, root, depth, good),
        same_on(p0, p1, good),
    ensures
        tree_headed(p0, c, root, depth, head) ==> tree_headed(p1, c, root, depth, head),
{
    lemma_tree_same(p0, p1, c, root, depth, good);
    lemma_reach_pos(c, depth);
    if tree_headed(p0, c, root, depth, head) {
        assert forall|k: nat, l: nat| k < reach(c, depth) && l <= depth implies ((#[trigger] node_at(
            p1,
            c,
            root,
            depth,
            k,
            l,
        )) matches Some(id) ==> head_of(page_at(p1, id)) == head(l)) by {
            assert(node_at(p0, c, root, depth, k, l) == node_at(p1, c, root, depth, k, l));
            if node_at(p0, c, root, depth, k, l) is Some {
                assert(good.contains(node_at(p0, c, root, depth, k, l)->0));
            }
        }
        assert(node_at(p1, c, root, depth, 0, 0) is Some);
    }
}

/// A tree that a step does not touch stays as it is.
pub proof fn lemma_tree_stays<A: PageSource>(
    s0: &A,
    c0: &PageCache,
    s1: &A,
    c1: &PageCache,
    m: nat,
    c: nat,
    root: u64,
    depth: nat,
)
    requires
        c > 0,
        cow_step(s0, c0, s1, c1, m),
        tree_in(c0.contents(), c, root, depth, s0.footprint(c0).complement()),
    ensures
        forall|k: nat, l: nat|
            k < reach(c, depth) && l <= depth ==> node_at(c0.contents(), c, root, depth, k, l) == #[trigger] node_at(
                c1.contents(),
                c,
                root,
                depth,
                k,
                l,
            ),
        forall|good: Set<u64>| #[trigger]
            tree_in(c0.contents(), c, root, depth, good) <==> tree_in(c1.contents(), c, root, depth, good),
        is_tree(c0.contents(), c, root, depth) == is_tree(c1.contents(), c, root, depth),
        nodes_of(c0.contents(), c, root, depth) == nodes_of(c1.contents(), c, root, depth),
        same_on_nodes(c0.contents(), c1.contents(), c, root, depth),
{
    lemma_good_kept(s0, c0, s1, c1, m);
    lemma_same_tree(c0.contents(), c1.contents(), c, root, depth, s0.footprint(c0).complement());
}

/// The pages of the tree have the same contents in both maps.
pub open spec fn same_on_nodes(
    a: Map<u64, Seq<u8>>,
    b: Map<u64, Seq<u8>>,
    c: nat,
    root: u64,
    depth: nat,
) -> bool {
    forall|id: u64| #[trigger] nodes_of(a, c, root, depth).contains(id) ==> page_at(a, id) == page_at(b, id)
}

/// Root and depth of a tree.
pub type Place = (u64, nat);

/// Every tree of the forest lies in `good`.
pub open spec fn forest_in<K>(
    pages: Map<u64, Seq<u8>>,
    c: nat,
    roots: spec_fn(K) -> Option<Place>,
    good: Set<u64>,
) -> bool {
    forall|i: K| (#[trigger] roots(i)) matches Some(p) ==> tree_in(pages, c, p.0, p.1, good)
}

/// No page occurs at two places of the forest.
pub open spec fn forest_ok<K>(pages: Map<u64, Seq<u8>>, c: nat, roots: spec_fn(K) -> Option<Place>) -> bool {
    &&& forall|i: K| (#[trigger] roots(i)) matches Some(p) ==> is_tree(pages, c, p.0, p.1)
    &&& forall|i: K, j: K|
        i != j ==> ((#[trigger] roots(i)) matches Some(p) ==> ((#[trigger] roots(j)) matches Some(q) ==> nodes_of(
            pages,
            c,
            p.0,
            p.1,
        ).disjoint(nodes_of(pages, c, q.0, q.1))))
}

/// The tree at `new` came out of the tree at `old`, if there was one, and pages
/// taken on the way.
#[verifier::opaque]
pub open spec fn grows_from<A: PageSource>(
    s0: &A,
    c0: &PageCache,
    s1: &A,
    c1: &PageCache,
    c: nat,
    old: Option<Place>,
    new: Place,
) -> bool {
    &&& forall|pages: Set<u64>| #![trigger pages.disjoint(s0.footprint(c0))]
        pages.disjoint(s0.footprint(c0)) && (old matches Some(p) ==> tree_in(c0.contents(), c, p.0, p.1, pages))
            ==> tree_in(c1.contents(), c, new.0, new.1, pages.union(taken_pages(s0, c0, s1, c1)))
    &&& (old matches Some(p) ==> is_tree(c0.contents(), c, p.0, p.1)) ==> is_tree(c1.contents(), c, new.0, new.1)
}

/// What copy-on-write keeps, in these terms.
pub proof fn lemma_kept_grows<A: PageSource>(
    s0: &A,
    c0: &PageCache,
    s1: &A,
    c1: &PageCache,
    c: nat,
    root0: u64,
    depth0: nat,
    root1: u64,
    depth1: nat,
)
    requires
        tree_kept(s0, c0, s1, c1, c, root0, depth0, root1, depth1),
    ensures
        grows_from(s0, c0, s1, c1, c, Some((root0, depth0)), (root1, depth1)),
{
    reveal(grows_from);
}

/// A new tree that is one page.
pub proof fn lemma_single_grows<A: PageSource>(
    s0: &A,
    c0: &PageCache,
    s1: &A,
    c1: &PageCache,
    c: nat,
    root: u64,
)
    requires
        c > 0,
        taken(s0, c0, s1, c1, root),
        checksum_ok(c1.contents()[root]),
    ensures
        grows_from(s0, c0, s1, c1, c, None, (root, 0)),
{
    reveal(grows_from);
    let p1 = c1.contents();
    assert forall|pages: Set<u64>| #![trigger pages.disjoint(s0.footprint(c0))]
        pages.disjoint(s0.footprint(c0)) implies tree_in(
        p1,
        c,
        root,
        0,
        pages.union(taken_pages(s0, c0, s1, c1)),
    ) by {
        assert(taken_pages(s0, c0, s1, c1).contains(root));
    }
    assert forall|k1: nat, l1: nat, k2: nat, l2: nat|
        k1 < reach(c, 0) && k2 < reach(c, 0) && l1 <= 0 && l2 <= 0 && (#[trigger] node_at(p1, c, root, 0, k1, l1))
            is Some && node_at(p1, c, root, 0, k1, l1) == (#[trigger] node_at(p1, c, root, 0, k2, l2)) implies l1 == l2
        && crate::radix::shares(c, 0, k1, k2, l1) by {}
}

/// Two steps make one.
pub proof fn lemma_grows_chain<A: PageSource>(
    s0: &A,
    c0: &PageCache,
    s1: &A,
    c1: &PageCache,
    s2: &A,
    c2: &PageCache,
    a: nat,
    b: nat,
    c: nat,
    old: Option<Place>,
    mid: Place,
    new: Place,
)
    requires
        cow_step(s0, c0, s1, c1, a),
        cow_step(s1, c1, s2, c2, b),
        grows_from(s0, c0, s1, c1, c, old, mid),
        grows_from(s1, c1, s2, c2, c, Some(mid), new),
    ensures
        grows_from(s0, c0, s2, c2, c, old, new),
{
    reveal(grows_from);
    lemma_cow_chain(s0, c0, s1, c1, s2, c2, a, b);
    assert forall|pages: Set<u64>| #![trigger pages.disjoint(s0.footprint(c0))]
        pages.disjoint(s0.footprint(c0)) && (old matches Some(p) ==> tree_in(c0.contents(), c, p.0, p.1, pages))
        implies tree_in(c2.contents(), c, new.0, new.1, pages.union(taken_pages(s0, c0, s2, c2))) by {
        let some = pages.union(taken_pages(s0, c0, s1, c1));
        let more = some.union(taken_pages(s1, c1, s2, c2));
        let all = pages.union(taken_pages(s0, c0, s2, c2));
        assert(some.disjoint(s1.footprint(c1)));
        assert forall|id: u64| #[trigger] more.contains(id) implies all.contains(id) by {
            if taken(s0, c0, s1, c1, id) || taken(s1, c1, s2, c2, id) {
                assert(taken(s0, c0, s2, c2, id));
            }
        }
        lemma_tree_mono(c2.contents(), c, new.0, new.1, more, all);
    }
}

/// `after` is `before` with the tree `i` at `new`.
pub open spec fn forest_set<K>(
    before: spec_fn(K) -> Option<Place>,
    after: spec_fn(K) -> Option<Place>,
    i: K,
    new: Place,
) -> bool {
    &&& after(i) == Some(new)
    &&& forall|j: K| j != i ==> #[trigger] after(j) == before(j)
}

/// A step that replaces one tree of a forest.
pub proof fn lemma_forest_step<A: PageSource, K>(
    s0: &A,
    c0: &PageCache,
    s1: &A,
    c1: &PageCache,
    m: nat,
    c: nat,
    before: spec_fn(K) -> Option<Place>,
    after: spec_fn(K) -> Option<Place>,
    i: K,
    new: Place,
)
    requires
        c > 0,
        cow_step(s0, c0, s1, c1, m),
        forest_in(c0.contents(), c, before, s0.footprint(c0).complement()),
        forest_set(before, after, i, new),
        grows_from(s0, c0, s1, c1, c, before(i), new),
    ensures
        forest_in(c1.contents(), c, after, s1.footprint(c1).complement()),
        forall|pages: Set<u64>|
            pages.disjoint(s0.footprint(c0)) && #[trigger] forest_in(c0.contents(), c, before, pages) ==> forest_in(
                c1.contents(),
                c,
                after,
                pages.union(taken_pages(s0, c0, s1, c1)),
            ),
        forest_ok(c0.contents(), c, before) ==> forest_ok(c1.contents(), c, after),
        forall|x: u64| #![trigger Set::<u64>::full().remove(x)]
            forest_ok(c0.contents(), c, before) && (taken(s0, c0, s1, c1, x) || (before(i) matches Some(p) && nodes_of(
                c0.contents(),
                c,
                p.0,
                p.1,
            ).contains(x))) && tree_in(c1.contents(), c, new.0, new.1, Set::<u64>::full().remove(x)) ==> forest_in(
                c1.contents(),
                c,
                after,
                Set::<u64>::full().remove(x),
            ),
{
    reveal(grows_from);
    let p0 = c0.contents();
    let p1 = c1.contents();
    let out0 = s0.footprint(c0).complement();
    let out1 = s1.footprint(c1).complement();
    let got = taken_pages(s0, c0, s1, c1);
    assert forall|j: K| j != i implies ((#[trigger] after(j)) matches Some(p) ==> {
        &&& before(j) == Some(p)
        &&& tree_in(p0, c, p.0, p.1, out0)
        &&& is_tree(p0, c, p.0, p.1) == is_tree(p1, c, p.0, p.1)
        &&& nodes_of(p0, c, p.0, p.1) == nodes_of(p1, c, p.0, p.1)
        &&& nodes_of(p0, c, p.0, p.1).subset_of(out0)
        &&& forall|good: Set<u64>| #[trigger] tree_in(p0, c, p.0, p.1, good) <==> tree_in(p1, c, p.0, p.1, good)
    }) by {
        if after(j) is Some {
            let p = after(j)->0;
            assert(before(j) == Some(p));
            lemma_tree_stays(s0, c0, s1, c1, m, c, p.0, p.1);
            lemma_nodes(p0, c, p.0, p.1);
        }
    }
    // The general statement gives the one on footprints.
    assert forall|pages: Set<u64>|
        pages.disjoint(s0.footprint(c0)) && #[trigger] forest_in(p0, c, before, pages) implies forest_in(
        p1,
        c,
        after,
        pages.union(got),
    ) by {
        assert forall|j: K| (#[trigger] after(j)) matches Some(p) ==> tree_in(p1, c, p.0, p.1, pages.union(got)) by {
            if j != i {
                if after(j) is Some {
                    let p = after(j)->0;
                    assert(before(j) == Some(p));
                    assert(tree_in(p0, c, p.0, p.1, pages));
                    lemma_tree_mono(p1, c, p.0, p.1, pages, pages.union(got));
                }
            }
        }
    }
    assert(out0.disjoint(s0.footprint(c0)));
    assert(forest_in(p1, c, after, out0.union(got)));
    assert(out0.union(got).subset_of(out1));
    assert forall|j: K| (#[trigger] after(j)) matches Some(p) ==> tree_in(p1, c, p.0, p.1, out1) by {
        if after(j) is Some {
            let p = after(j)->0;
            lemma_tree_mono(p1, c, p.0, p.1, out0.union(got), out1);
        }
    }
    // The pages of the new tree.
    let old_nodes = match before(i) {
        Some(p) => nodes_of(p0, c, p.0, p.1),
        None => Set::<u64>::empty(),
    };
    if before(i) is Some {
        let p = before(i)->0;
        lemma_nodes(p0, c, p.0, p.1);
    }
    lemma_nodes(p1, c, new.0, new.1);
    assert(old_nodes.disjoint(s0.footprint(c0)));
    assert(tree_in(p1, c, new.0, new.1, old_nodes.union(got)));
    assert(nodes_of(p1, c, new.0, new.1).subset_of(old_nodes.union(got)));
    if forest_ok(p0, c, before) {
        assert forall|j: K| j != i implies ((#[trigger] after(j)) matches Some(p) ==> old_nodes.disjoint(
            nodes_of(p0, c, p.0, p.1),
        ) && got.disjoint(nodes_of(p0, c, p.0, p.1))) by {
            if after(j) is Some {
                assert(before(j) == after(j));
                if before(i) is Some {
                    assert(before(i) is Some && before(j) is Some);
                }
            }
        }
        assert forall|j1: K, j2: K|
            j1 != j2 implies ((#[trigger] after(j1)) matches Some(p) ==> ((#[trigger] after(j2)) matches Some(q)
            ==> nodes_of(p1, c, p.0, p.1).disjoint(nodes_of(p1, c, q.0, q.1)))) by {
            if after(j1) is Some && after(j2) is Some {
                if j1 != i && j2 != i {
                    assert(before(j1) == after(j1) && before(j2) == after(j2));
                } else if j1 == i {
                    let q = after(j2)->0;
                    assert(nodes_of(p1, c, q.0, q.1) == nodes_of(p0, c, q.0, q.1));
                } else {
                    let q = after(j1)->0;
                    assert(nodes_of(p1, c, q.0, q.1) == nodes_of(p0, c, q.0, q.1));
                }
            }
        }
        assert forall|j: K| (#[trigger] after(j)) matches Some(p) ==> is_tree(p1, c, p.0, p.1) by {
            if j != i && after(j) is Some {
                assert(before(j) == after(j));
            }
        }
        assert forall|x: u64| #![trigger Set::<u64>::full().remove(x)]
            (taken(s0, c0, s1, c1, x) || old_nodes.contains(x)) && tree_in(
                p1,
                c,
                new.0,
                new.1,
                Set::<u64>::full().remove(x),
            ) implies forest_in(p1, c, after, Set::<u64>::full().remove(x)) by {
            let rest = Set::<u64>::full().remove(x);
            assert forall|j: K| (#[trigger] after(j)) matches Some(p) ==> tree_in(p1, c, p.0, p.1, rest) by {
                if j != i && after(j) is Some {
                    let p = after(j)->0;
                    assert(nodes_of(p0, c, p.0, p.1).subset_of(out0));
                    assert(!out0.contains(x) || old_nodes.contains(x));
                    assert(!nodes_of(p0, c, p.0, p.1).contains(x));
                    lemma_nodes(p1, c, p.0, p.1);
                    lemma_tree_mono(p1, c, p.0, p.1, nodes_of(p1, c, p.0, p.1), rest);
                }
            }
        }
    }
}

/// A forest within a set is within every larger set.
pub proof fn lemma_forest_mono<K>(
    pages: Map<u64, Seq<u8>>,
    c: nat,
    roots: spec_fn(K) -> Option<Place>,
    a: Set<u64>,
    b: Set<u64>,
)
    requires
        forest_in(pages, c, roots, a),
        a.subset_of(b),
    ensures
        forest_in(pages, c, roots, b),
{
    assert forall|i: K| (#[trigger] roots(i)) matches Some(p) ==> tree_in(pages, c, p.0, p.1, b) by {
        if roots(i) is Some {
            let p = roots(i)->0;
            lemma_tree_mono(pages, c, p.0, p.1, a, b);
        }
    }
}

/// Leaving trees out of a forest.
pub proof fn lemma_forest_sub<K>(
    pages: Map<u64, Seq<u8>>,
    c: nat,
    all: spec_fn(K) -> Option<Place>,
    some: spec_fn(K) -> Option<Place>,
)
    requires
        forall|i: K| (#[trigger] some(i)) is Some ==> some(i) == all(i),
    ensures
        forall|good: Set<u64>| #[trigger] forest_in(pages, c, all, good) ==> forest_in(pages, c, some, good),
        forest_ok(pages, c, all) ==> forest_ok(pages, c, some),
{
    assert forall|good: Set<u64>| #[trigger] forest_in(pages, c, all, good) implies forest_in(
        pages,
        c,
        some,
        good,
    ) by {
        assert forall|i: K| (#[trigger] some(i)) matches Some(p) ==> tree_in(pages, c, p.0, p.1, good) by {
            if some(i) is Some {
                assert(all(i) == some(i));
            }
        }
    }
    if forest_ok(pages, c, all) {
        assert forall|i: K, j: K|
            i != j implies ((#[trigger] some(i)) matches Some(p) ==> ((#[trigger] some(j)) matches Some(q)
            ==> nodes_of(pages, c, p.0, p.1).disjoint(nodes_of(pages, c, q.0, q.1)))) by {
            if some(i) is Some && some(j) is Some {
                assert(all(i) == some(i) && all(j) == some(j));
            }
        }
        assert forall|i: K| (#[trigger] some(i)) matches Some(p) ==> is_tree(pages, c, p.0, p.1) by {
            if some(i) is Some {
                assert(all(i) == some(i));
            }
        }
    }
}

/// A page that is in no tree of the forest and cannot be taken stays out.
pub proof fn lemma_forest_avoids<A: PageSource, K>(
    s0: &A,
    c0: &PageCache,
    s1: &A,
    c1: &PageCache,
    m: nat,
    c: nat,
    before: spec_fn(K) -> Option<Place>,
    after: spec_fn(K) -> Option<Place>,
    i: K,
    new: Place,
    x: u64,
)
    requires
        c > 0,
        cow_step(s0, c0, s1, c1, m),
        forest_in(c0.contents(), c, before, s0.footprint(c0).complement()),
        forest_set(before, after, i, new),
        grows_from(s0, c0, s1, c1, c, before(i), new),
        forest_in(c0.contents(), c, before, Set::<u64>::full().remove(x)),
        !s0.footprint(c0).contains(x),
    ensures
        forest_in(c1.contents(), c, after, Set::<u64>::full().remove(x)),
{
    reveal(grows_from);
    let out0 = s0.footprint(c0).complement();
    let rest = Set::<u64>::full().remove(x);
    let both = out0.intersect(rest);
    lemma_forest_step(s0, c0, s1, c1, m, c, before, after, i, new);
    assert forall|j: K| (#[trigger] before(j)) matches Some(p) ==> tree_in(c0.contents(), c, p.0, p.1, both) by {
        if before(j) is Some {
            let p = before(j)->0;
            assert(tree_in(c0.contents(), c, p.0, p.1, out0));
            assert(tree_in(c0.contents(), c, p.0, p.1, rest));
        }
    }
    assert(forest_in(c0.contents(), c, before, both));
    assert(both.disjoint(s0.footprint(c0)));
    let all = both.union(taken_pages(s0, c0, s1, c1));
    assert(forest_in(c1.contents(), c, after, all));
    assert(all.subset_of(rest));
    assert forall|j: K| (#[trigger] after(j)) matches Some(p) ==> tree_in(c1.contents(), c, p.0, p.1, rest) by {
        if after(j) is Some {
            let p = after(j)->0;
            lemma_tree_mono(c1.contents(), c, p.0, p.1, all, rest);
        }
    }
}

/// The pages put on the list of freed pages when the tree at `old`, if there was
/// one, became the tree at `new`: pages of the old tree, or pages taken on the
/// way. No page of the new tree is among them.
#[verifier::opaque]
pub open spec fn place_freed<A: PageSource>(
    s0: &A,
    c0: &PageCache,
    s1: &A,
    c1: &PageCache,
    c: nat,
    old: Option<Place>,
    new: Place,
    freed0: Seq<u64>,
    freed1: Seq<u64>,
) -> bool {
    &&& freed0.is_prefix_of(freed1)
    &&& forall|i: int|
        freed0.len() <= i < freed1.len() ==> taken(s0, c0, s1, c1, #[trigger] freed1[i]) || (old matches Some(p)
            && nodes_of(c0.contents(), c, p.0, p.1).contains(freed1[i]))
    &&& (old matches Some(p) ==> is_tree(c0.contents(), c, p.0, p.1)) ==> forall|i: int|
        freed0.len() <= i < freed1.len() ==> tree_in(
            c1.contents(),
            c,
            new.0,
            new.1,
            Set::<u64>::full().remove(#[trigger] freed1[i]),
        )
    &&& old matches Some(p) ==> forall|id: u64| #[trigger]
        nodes_of(c0.contents(), c, p.0, p.1).contains(id) ==> nodes_of(c1.contents(), c, new.0, new.1).contains(id)
            || freed1.skip(freed0.len() as int).contains(id)
    &&& forall|id: u64| #[trigger]
        s0.footprint(c0).contains(id) ==> s1.footprint(c1).contains(id) || nodes_of(
            c1.contents(),
            c,
            new.0,
            new.1,
        ).contains(id) || freed1.skip(freed0.len() as int).contains(id)
}

/// What copy-on-write frees, in these terms.
pub proof fn lemma_freed_place<A: PageSource>(
    s0: &A,
    c0: &PageCache,
    s1: &A,
    c1: &PageCache,
    c: nat,
    root0: u64,
    depth0: nat,
    root1: u64,
    depth1: nat,
    h: nat,
    freed0: Seq<u64>,
    freed1: Seq<u64>,
)
    requires
        c > 0,
        freed_ok(s0, c0, s1, c1, c, root0, depth0, root1, depth1, h, freed0, freed1),
    ensures
        place_freed(s0, c0, s1, c1, c, Some((root0, depth0)), (root1, depth1), freed0, freed1),
{
    reveal(place_freed);
    assert forall|i: int| freed0.len() <= i < freed1.len() implies taken(s0, c0, s1, c1, #[trigger] freed1[i])
        || nodes_of(c0.contents(), c, root0, depth0).contains(freed1[i]) by {
        if !taken(s0, c0, s1, c1, freed1[i]) {
            let l = choose|l: nat|
                l <= depth0 && #[trigger] node_at(c0.contents(), c, root0, depth0, h, l) == Some(freed1[i]);
            assert(node_at(c0.contents(), c, root0, depth0, h, l) == Some(freed1[i]));
        }
    }
}

} // verus!
