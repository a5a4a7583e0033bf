//! Enumerating the keys of a page tree in ascending order.

use vstd::prelude::*;

use crate::error::ChiselError;
use crate::page::PAGE_SIZE;
use crate::page_cache::PageCache;
use crate::radix::{child_of, lemma_ascend, lemma_reach_pos, node_at, page_at, reach, read_child, saturated, FANOUT};
use crate::spine::tree_value;

verus! {

/// How the leaves of a tree are read: the value in a slot, the value of a key
/// whose path ends early, and which values count as present.
#[verifier::reject_recursive_types(T)]
pub ghost struct Reading<T> {
    pub read: spec_fn(Seq<u8>, nat) -> T,
    pub none: T,
    pub live: spec_fn(T) -> bool,
}

impl<T> Reading<T> {
    /// The value of key `k` below a node.
    pub open spec fn value(self, pages: Map<u64, Seq<u8>>, c: nat, page: u64, level: nat, k: nat) -> T {
        tree_value(pages, c, page, level, k, self.read, self.none)
    }

    /// Key `k` is present below a node.
    pub open spec fn present(self, pages: Map<u64, Seq<u8>>, c: nat, page: u64, level: nat, k: nat) -> bool {
        (self.live)(self.value(pages, c, page, level, k))
    }
}

/// `keys` are the keys below `bound` that are present below a node, in
/// ascending order, and `out` holds them, counted from `base`, with their
/// values. Keys beyond 64 bits saturate.
#[verifier::opaque]
pub open spec fn lists<T>(
    pages: Map<u64, Seq<u8>>,
    c: nat,
    page: u64,
    level: nat,
    r: Reading<T>,
    base: nat,
    bound: nat,
    keys: Seq<nat>,
    out: Seq<(u64, T)>,
) -> bool {
    &&& keys.len() == out.len()
    &&& forall|i: int, j: int| 0 <= i < j < keys.len() ==> #[trigger] keys[i] < #[trigger] keys[j]
    &&& forall|i: int|
        0 <= i < keys.len() ==> {
            &&& #[trigger] keys[i] < bound
            &&& r.present(pages, c, page, level, keys[i])
            &&& out[i] == (saturated(base + keys[i]), r.value(pages, c, page, level, keys[i]))
        }
    &&& forall|k: nat| k < bound && #[trigger] r.present(pages, c, page, level, k) ==> keys.contains(k)
}

/// `out` lists all keys that are present below a node.
pub open spec fn lists_all<T>(
    pages: Map<u64, Seq<u8>>,
    c: nat,
    page: u64,
    level: nat,
    r: Reading<T>,
    base: nat,
    out: Seq<(u64, T)>,
) -> bool {
    exists|keys: Seq<nat>| #[trigger] lists(pages, c, page, level, r, base, reach(c, level), keys, out)
}

/// There is one list of the keys that are present below a node: enumerating twice
/// gives the same.
pub proof fn law_listing_is_one<T>(
    pages: Map<u64, Seq<u8>>,
    c: nat,
    page: u64,
    level: nat,
    r: Reading<T>,
    base: nat,
    a: Seq<(u64, T)>,
    b: Seq<(u64, T)>,
)
    requires
        lists_all(pages, c, page, level, r, base, a),
        lists_all(pages, c, page, level, r, base, b),
    ensures
        a == b,
{
    reveal(lists);
    let bound = reach(c, level);
    let x = choose|keys: Seq<nat>| #[trigger] lists(pages, c, page, level, r, base, bound, keys, a);
    let y = choose|keys: Seq<nat>| #[trigger] lists(pages, c, page, level, r, base, bound, keys, b);
    lemma_ascending_prefix(x, y, x.len());
    lemma_ascending_prefix(y, x, y.len());
    assert forall|i: int| 0 <= i < a.len() implies a[i] == b[i] by {
        assert(x[i] == y[i]);
    }
    assert(a =~= b);
}

/// Of two ascending sequences with the same elements one starts as the other.
proof fn lemma_ascending_prefix(x: Seq<nat>, y: Seq<nat>, n: nat)
    requires
        n <= x.len(),
        forall|i: int, j: int| 0 <= i < j < x.len() ==> #[trigger] x[i] < #[trigger] x[j],
        forall|i: int, j: int| 0 <= i < j < y.len() ==> #[trigger] y[i] < #[trigger] y[j],
        forall|i: int| 0 <= i < x.len() ==> y.contains(#[trigger] x[i]),
        forall|i: int| 0 <= i < y.len() ==> x.contains(#[trigger] y[i]),
    ensures
        n <= y.len(),
        forall|i: int| 0 <= i < n ==> #[trigger] x[i] == y[i],
    decreases n,
{
    if n > 0 {
        let m = n - 1;
        lemma_ascending_prefix(x, y, m as nat);
        let i = y.index_of(x[m]);
        assert(y[i] == x[m]);
        if i < m {
            assert(x[i] == y[i]);
            assert(x[i] < x[m]);
        }
        let j = x.index_of(y[m]);
        assert(x[j] == y[m]);
        if j < m {
            assert(x[j] == y[j]);
            assert(y[j] < y[m]);
        }
        if i > m {
            assert(y[m] < y[i]);
            if j > m {
                assert(x[m] < x[j]);
            }
        }
    }
}

/// `out` lists the first `limit` keys that are present below a node, or all of
/// them if there are no more.
pub open spec fn lists_first<T>(
    pages: Map<u64, Seq<u8>>,
    c: nat,
    page: u64,
    level: nat,
    r: Reading<T>,
    base: nat,
    limit: nat,
    out: Seq<(u64, T)>,
) -> bool {
    &&& out.len() <= limit
    &&& exists|bound: nat, keys: Seq<nat>|
        bound <= reach(c, level) && (bound == reach(c, level) || out.len() == limit) && #[trigger] lists(
            pages,
            c,
            page,
            level,
            r,
            base,
            bound,
            keys,
            out,
        )
}

/// What a listing says.
pub proof fn lemma_lists_facts<T>(
    pages: Map<u64, Seq<u8>>,
    c: nat,
    page: u64,
    level: nat,
    r: Reading<T>,
    base: nat,
    bound: nat,
    keys: Seq<nat>,
    out: Seq<(u64, T)>,
)
    requires
        lists(pages, c, page, level, r, base, bound, keys, out),
    ensures
        keys.len() == out.len(),
        forall|i: int, j: int| 0 <= i < j < keys.len() ==> #[trigger] keys[i] < #[trigger] keys[j],
        forall|i: int|
            0 <= i < keys.len() ==> {
                &&& #[trigger] keys[i] < bound
                &&& r.present(pages, c, page, level, keys[i])
                &&& out[i] == (saturated(base + keys[i]), r.value(pages, c, page, level, keys[i]))
            },
        forall|k: nat| k < bound && #[trigger] r.present(pages, c, page, level, k) ==> keys.contains(k),
{
    reveal(lists);
}

/// The empty listing.
pub proof fn lemma_lists_empty<T>(
    pages: Map<u64, Seq<u8>>,
    c: nat,
    page: u64,
    level: nat,
    r: Reading<T>,
    base: nat,
)
    ensures
        lists(pages, c, page, level, r, base, 0, Seq::<nat>::empty(), Seq::<(u64, T)>::empty()),
{
    reveal(lists);
}

/// Keys that are not present add nothing.
pub proof fn lemma_lists_skip<T>(
    pages: Map<u64, Seq<u8>>,
    c: nat,
    page: u64,
    level: nat,
    r: Reading<T>,
    base: nat,
    bound: nat,
    more: nat,
    keys: Seq<nat>,
    out: Seq<(u64, T)>,
)
    requires
        lists(pages, c, page, level, r, base, bound, keys, out),
        bound <= more,
        forall|k: nat| bound <= k < more ==> !(#[trigger] r.present(pages, c, page, level, k)),
    ensures
        lists(pages, c, page, level, r, base, more, keys, out),
{
    reveal(lists);
}

/// A base that saturates already can saturate at once.
pub proof fn lemma_lists_rebase<T>(
    pages: Map<u64, Seq<u8>>,
    c: nat,
    page: u64,
    level: nat,
    r: Reading<T>,
    base: nat,
    bound: nat,
    keys: Seq<nat>,
    out: Seq<(u64, T)>,
)
    requires
        lists(pages, c, page, level, r, saturated(base) as nat, bound, keys, out),
    ensures
        lists(pages, c, page, level, r, base, bound, keys, out),
{
    reveal(lists);
}

/// A key that is present comes next.
pub proof fn lemma_lists_push<T>(
    pages: Map<u64, Seq<u8>>,
    c: nat,
    page: u64,
    level: nat,
    r: Reading<T>,
    base: nat,
    k: nat,
    keys: Seq<nat>,
    out: Seq<(u64, T)>,
)
    requires
        lists(pages, c, page, level, r, base, k, keys, out),
        r.present(pages, c, page, level, k),
    ensures
        lists(
            pages,
            c,
            page,
            level,
            r,
            base,
            k + 1,
            keys.push(k),
            out.push((saturated(base + k), r.value(pages, c, page, level, k))),
        ),
{
    reveal(lists);
    let all = keys.push(k);
    assert forall|x: nat| x < k + 1 && #[trigger] r.present(pages, c, page, level, x) implies all.contains(x) by {
        if x < k {
            let i = keys.index_of(x);
            assert(all[i] == x);
        } else {
            assert(all[keys.len() as int] == x);
        }
    }
}

/// The listing of child `i` continues that of the children before it.
pub proof fn lemma_lists_child<T>(
    pages: Map<u64, Seq<u8>>,
    c: nat,
    page: u64,
    level: nat,
    r: Reading<T>,
    base: nat,
    i: nat,
    child: u64,
    bound: nat,
    keys: Seq<nat>,
    out: Seq<(u64, T)>,
    sub_keys: Seq<nat>,
    sub_out: Seq<(u64, T)>,
)
    requires
        c > 0,
        level > 0,
        i < FANOUT,
        child == child_of(page_at(pages, page), i),
        child != 0,
        bound <= reach(c, (level - 1) as nat),
        lists(pages, c, page, level, r, base, i * reach(c, (level - 1) as nat), keys, out),
        lists(
            pages,
            c,
            child,
            (level - 1) as nat,
            r,
            base + i * reach(c, (level - 1) as nat),
            bound,
            sub_keys,
            sub_out,
        ),
    ensures
        lists(
            pages,
            c,
            page,
            level,
            r,
            base,
            i * reach(c, (level - 1) as nat) + bound,
            keys + sub_keys.map(|j: int, k: nat| i * reach(c, (level - 1) as nat) + k),
            out + sub_out,
        ),
{
    reveal(lists);
    let down = (level - 1) as nat;
    let span = reach(c, down);
    let off = i * span;
    let moved = sub_keys.map(|j: int, k: nat| i * span + k);
    let all = keys + moved;
    assert forall|k: nat| k < span implies r.value(pages, c, page, level, off + k) == #[trigger] r.value(
        pages,
        c,
        child,
        down,
        k,
    ) by {
        lemma_child_value(pages, c, page, level, r, i, k);
    }
    assert forall|j: int| 0 <= j < all.len() implies {
        &&& #[trigger] all[j] < off + bound
        &&& r.present(pages, c, page, level, all[j])
        &&& (out + sub_out)[j] == (saturated(base + all[j]), r.value(pages, c, page, level, all[j]))
    } by {
        if j < keys.len() {
            assert(all[j] == keys[j]);
        } else {
            let s = sub_keys[j - keys.len()];
            assert(all[j] == off + s);
            assert(r.value(pages, c, child, down, s) == r.value(pages, c, page, level, off + s));
            assert(r.present(pages, c, child, down, s));
        }
    }
    assert forall|a: int, b: int| 0 <= a < b < all.len() implies #[trigger] all[a] < #[trigger] all[b] by {
        if b < keys.len() {
            assert(keys[a] < keys[b]);
        } else if a >= keys.len() {
            assert(sub_keys[a - keys.len()] < sub_keys[b - keys.len()]);
        } else {
            assert(keys[a] < off);
        }
    }
    assert forall|k: nat| k < off + bound && #[trigger] r.present(pages, c, page, level, k) implies all.contains(k) by {
        if k < off {
            let j = keys.index_of(k);
            assert(all[j] == k);
        } else {
            let s = (k - off) as nat;
            assert(r.value(pages, c, child, down, s) == r.value(pages, c, page, level, off + s));
            assert(r.present(pages, c, child, down, s));
            let j = sub_keys.index_of(s);
            assert(all[keys.len() + j] == k);
        }
    }
}

/// A key below a child has the value that the child says.
pub proof fn lemma_child_value<T>(
    pages: Map<u64, Seq<u8>>,
    c: nat,
    page: u64,
    level: nat,
    r: Reading<T>,
    i: nat,
    k: nat,
)
    requires
        c > 0,
        level > 0,
        i < FANOUT,
        k < reach(c, (level - 1) as nat),
    ensures
        i * reach(c, (level - 1) as nat) + k < reach(c, level),
        r.value(pages, c, page, level, i * reach(c, (level - 1) as nat) + k) == (if child_of(page_at(pages, page), i)
            == 0 {
            r.none
        } else {
            r.value(pages, c, child_of(page_at(pages, page), i), (level - 1) as nat, k)
        }),
{
    lemma_ascend(c, level, i, k);
    lemma_reach_pos(c, (level - 1) as nat);
}

/// A child that was never made has no keys.
pub proof fn lemma_lists_gap<T>(
    pages: Map<u64, Seq<u8>>,
    c: nat,
    page: u64,
    level: nat,
    r: Reading<T>,
    base: nat,
    i: nat,
    keys: Seq<nat>,
    out: Seq<(u64, T)>,
)
    requires
        c > 0,
        level > 0,
        i < FANOUT,
        child_of(page_at(pages, page), i) == 0,
        !(r.live)(r.none),
        lists(pages, c, page, level, r, base, i * reach(c, (level - 1) as nat), keys, out),
    ensures
        lists(pages, c, page, level, r, base, (i + 1) * reach(c, (level - 1) as nat), keys, out),
{
    let span = reach(c, (level - 1) as nat);
    assert((i + 1) * span == i * span + span) by (nonlinear_arith);
    assert forall|k: nat| i * span <= k < (i + 1) * span implies !(#[trigger] r.present(pages, c, page, level, k)) by {
        lemma_child_value(pages, c, page, level, r, i, (k - i * span) as nat);
    }
    lemma_lists_skip(pages, c, page, level, r, base, i * span, (i + 1) * span, keys, out);
}

/// `e` comes from a page of the tree, or from the limits of the cache.
pub open spec fn tree_explains(cache: &PageCache, c: nat, page: u64, level: nat, e: ChiselError) -> bool {
    ||| cache.pending() > cache.capacity() && e == cache.pressure_error()
    ||| exists|k: nat, l: nat|
        k < reach(c, level) && l <= level && ((#[trigger] node_at(cache.contents(), c, page, level, k, l)) matches Some(
            id,
        ) && !cache.sound(id) && e == cache.read_error(id))
}

/// A failure on the top page.
pub proof fn lemma_top_explains(cache: &PageCache, c: nat, page: u64, level: nat, e: ChiselError)
    requires
        c > 0,
        cache.explains(e, page),
    ensures
        tree_explains(cache, c, page, level, e),
{
    lemma_reach_pos(c, level);
    assert(node_at(cache.contents(), c, page, level, 0, level) == Some(page));
}

/// Where pages are kept does not matter for the reasons of a failure.
pub proof fn lemma_same_tree_explains(
    a: &PageCache,
    b: &PageCache,
    c: nat,
    page: u64,
    level: nat,
    e: ChiselError,
)
    requires
        b.same_pages(a),
        tree_explains(b, c, page, level, e),
    ensures
        tree_explains(a, c, page, level, e),
{
    if !(b.pending() > b.capacity() && e == b.pressure_error()) {
        let (k, l) = choose|k: nat, l: nat|
            k < reach(c, level) && l <= level && ((#[trigger] node_at(b.contents(), c, page, level, k, l)) matches Some(
                id,
            ) && !b.sound(id) && e == b.read_error(id));
        assert(node_at(a.contents(), c, page, level, k, l) == node_at(b.contents(), c, page, level, k, l));
    }
}

/// A failure below a child is one below its parent.
pub proof fn lemma_child_explains(cache: &PageCache, c: nat, page: u64, level: nat, i: nat, e: ChiselError)
    requires
        c > 0,
        level > 0,
        i < FANOUT,
        child_of(page_at(cache.contents(), page), i) != 0,
        tree_explains(cache, c, child_of(page_at(cache.contents(), page), i), (level - 1) as nat, e),
    ensures
        tree_explains(cache, c, page, level, e),
{
    let pages = cache.contents();
    let child = child_of(page_at(pages, page), i);
    let down = (level - 1) as nat;
    if !(cache.pending() > cache.capacity() && e == cache.pressure_error()) {
        let (k, l) = choose|k: nat, l: nat|
            k < reach(c, down) && l <= down && ((#[trigger] node_at(pages, c, child, down, k, l)) matches Some(id)
                && !cache.sound(id) && e == cache.read_error(id));
        lemma_ascend(c, level, i, k);
        lemma_reach_pos(c, down);
        assert(node_at(pages, c, page, level, i * reach(c, down) + k, l) == node_at(pages, c, child, down, k, l));
    }
}

/// The pointers of an interior page.
pub fn read_children(cache: &mut PageCache, page: u64) -> (outcome: Result<Vec<u64>, ChiselError>)
    requires
        old(cache).inv(),
    ensures
        final(cache).inv(),
        final(cache).same_pages(old(cache)),
        old(cache).bounded() ==> final(cache).bounded(),
        old(cache).all_sound() ==> final(cache).all_sound(),
        match outcome {
            Ok(children) => {
                &&& old(cache).all_sound() ==> old(cache).sound(page)
                &&& children@.len() == FANOUT
                &&& forall|i: int|
                    0 <= i < FANOUT ==> #[trigger] children@[i] == child_of(
                        page_at(old(cache).contents(), page),
                        i as nat,
                    )
            },
            Err(e) => old(cache).explains(e, page),
        },
{
    proof {
        cache.lemma_explains(page);
    }
    let ghost s = page_at(cache.contents(), page);
    let buf: &[u8; PAGE_SIZE] = match cache.get(page) {
        Ok(buf) => buf,
        Err(e) => {
            return Err(e);
        },
    };
    let mut children: Vec<u64> = Vec::new();
    let mut i: usize = 0;
    while i < FANOUT
        invariant
            i <= FANOUT,
            buf@ == s,
            children@.len() == i,
            forall|j: int| 0 <= j < i ==> #[trigger] children@[j] == child_of(s, j as nat),
        decreases FANOUT - i,
    {
        children.push(read_child(buf, i));
        i = i + 1;
    }
    Ok(children)
}

/// The first key below child `i` of a node whose keys start at `base`;
/// saturates.
pub fn child_base(base: u64, i: u64, span: u64) -> (next: u64)
    ensures
        next == saturated((base + i * span) as nat),
{
    proof {
        assert(i * span >= 0) by (nonlinear_arith)
            requires
                i >= 0,
                span >= 0,
        ;
    }
    match i.checked_mul(span) {
        Some(off) => base.saturating_add(off),
        None => u64::MAX,
    }
}

/// A list of the first keys has no more than the limit. They are in ascending order, each
/// with its value, and a key that is present and not listed is above all that are listed,
/// which are then as many as the limit. Keys beyond 64 bits are left out of account.
pub proof fn law_first_keys<T>(
    pages: Map<u64, Seq<u8>>,
    c: nat,
    page: u64,
    level: nat,
    r: Reading<T>,
    limit: nat,
    out: Seq<(u64, T)>,
)
    requires
        lists_first(pages, c, page, level, r, 0, limit, out),
    ensures
        out.len() <= limit,
        forall|i: int, j: int|
            0 <= i < j < out.len() && out[j].0 < u64::MAX ==> (#[trigger] out[i]).0 < (#[trigger] out[j]).0,
        forall|i: int|
            0 <= i < out.len() && (#[trigger] out[i]).0 < u64::MAX ==> {
                &&& r.present(pages, c, page, level, out[i].0 as nat)
                &&& out[i].1 == r.value(pages, c, page, level, out[i].0 as nat)
            },
        forall|k: nat|
            k < reach(c, level) && k < u64::MAX && #[trigger] r.present(pages, c, page, level, k) && (forall|m: int|
                0 <= m < out.len() ==> (#[trigger] out[m]).0 != k) ==> out.len() == limit && forall|m: int|
                0 <= m < out.len() ==> (#[trigger] out[m]).0 < k,
{
    reveal(lists);
    let (bound, keys) = choose|bound: nat, keys: Seq<nat>|
        bound <= reach(c, level) && (bound == reach(c, level) || out.len() == limit) && #[trigger] lists(
            pages,
            c,
            page,
            level,
            r,
            0,
            bound,
            keys,
            out,
        );
    assert forall|i: int| 0 <= i < out.len() implies (#[trigger] out[i]).0 == saturated(keys[i]) && keys[i] < bound && r.present(
        pages,
        c,
        page,
        level,
        keys[i],
    ) && out[i].1 == r.value(pages, c, page, level, keys[i]) by {
        assert(keys[i] < bound);
    }
    assert forall|i: int, j: int| 0 <= i < j < out.len() && out[j].0 < u64::MAX implies (#[trigger] out[i]).0
        < (#[trigger] out[j]).0 by {
        assert(keys[i] < keys[j]);
    }
    assert forall|k: nat|
        k < reach(c, level) && k < u64::MAX && #[trigger] r.present(pages, c, page, level, k) && (forall|m: int|
            0 <= m < out.len() ==> (#[trigger] out[m]).0 != k) implies out.len() == limit && forall|m: int|
        0 <= m < out.len() ==> (#[trigger] out[m]).0 < k by {
        if k < bound {
            assert(keys.contains(k));
            let m = keys.index_of(k);
            assert(keys[m] == k);
            assert(out[m].0 == saturated(keys[m]));
        }
    }
}

} // verus!
