//! Laws of the page cache and its storage: what stays in the cache, how much it
//! holds, and what a write does to a file.

use vstd::prelude::*;

use crate::error::ChiselError;
use crate::lru::without;
use crate::options::DrainInsertion;
use crate::page::{xxh3_hash, PAGE_SIZE};
use crate::page_cache::{drained, inserted, kept, pushed_out, remaining, saved, trimmed, PageCache};
use crate::page_io::{bumped, page_bytes, replay, resized, written, wrote, zero_page, IoAction, PageIo};

verus! {

/// Where an id stands in a sequence that has it behind its first element.
proof fn lemma_index_behind_first(s: Seq<u64>, x: u64)
    requires
        s.no_duplicates(),
        s.len() > 0,
        s.skip(1).contains(x),
    ensures
        s.contains(x),
        s.index_of(x) == s.skip(1).index_of(x) + 1,
        0 < s.index_of(x) < s.len(),
{
    let j = s.skip(1).index_of(x);
    assert(s.skip(1)[j] == x);
    assert(s[j + 1] == x);
    assert(s[s.index_of(x)] == x);
}

/// A sequence without its first element.
proof fn lemma_behind_first(s: Seq<u64>)
    requires
        s.no_duplicates(),
        s.len() > 0,
    ensures
        s.skip(1).no_duplicates(),
        !s.skip(1).contains(s[0]),
        s.index_of(s[0]) == 0,
        forall|x: u64| s.contains(x) <==> x == s[0] || #[trigger] s.skip(1).contains(x),
{
    assert(s[s.index_of(s[0])] == s[0]);
    assert forall|x: u64| s.contains(x) <==> x == s[0] || #[trigger] s.skip(1).contains(x) by {
        if s.contains(x) && x != s[0] {
            let i = s.index_of(x);
            assert(s[i] == x);
            assert(s.skip(1)[i - 1] == x);
        }
        if s.skip(1).contains(x) {
            let i = s.skip(1).index_of(x);
            assert(s[i + 1] == s.skip(1)[i]);
        }
        assert(s.contains(s[0]));
    }
}

/// Trimming drops clean pages only, the least recently used ones, and as many as it is
/// told to or all of them. The others keep their order.
pub proof fn law_trimming_drops_old_clean_pages(order: Seq<u64>, dirty: Set<u64>, excess: int)
    requires
        order.no_duplicates(),
        0 <= excess,
    ensures
        trimmed(order, dirty, excess).no_duplicates(),
        forall|x: u64| #[trigger] trimmed(order, dirty, excess).contains(x) ==> order.contains(x),
        forall|x: u64|
            order.contains(x) && dirty.contains(x) ==> #[trigger] trimmed(order, dirty, excess).contains(x),
        forall|x: u64, y: u64|
            #![trigger order.index_of(x), order.index_of(y)]
            order.contains(x) && order.contains(y) && order.index_of(x) < order.index_of(y) && !dirty.contains(x)
                && trimmed(order, dirty, excess).contains(x) ==> trimmed(order, dirty, excess).contains(y),
        forall|i: int, j: int|
            0 <= i < j < trimmed(order, dirty, excess).len() ==> order.index_of(
                #[trigger] trimmed(order, dirty, excess)[i],
            ) < order.index_of(#[trigger] trimmed(order, dirty, excess)[j]),
        trimmed(order, dirty, excess).len() >= order.len() - excess,
        trimmed(order, dirty, excess).len() > order.len() - excess ==> forall|i: int|
            0 <= i < trimmed(order, dirty, excess).len() ==> dirty.contains(#[trigger] trimmed(order, dirty, excess)[i]),
    decreases order.len(),
{
    let left = trimmed(order, dirty, excess);
    if excess == 0 || order.len() == 0 {
        assert forall|i: int, j: int| 0 <= i < j < left.len() implies order.index_of(#[trigger] left[i])
            < order.index_of(#[trigger] left[j]) by {
            assert(order.contains(order[i]) && order.contains(order[j]));
            assert(order[order.index_of(order[i])] == order[i]);
            assert(order[order.index_of(order[j])] == order[j]);
        }
        if order.len() > 0 {
            assert(left == order);
        }
    } else {
        let rest = order.skip(1);
        lemma_behind_first(order);
        let e = if dirty.contains(order[0]) { excess } else { excess - 1 };
        law_trimming_drops_old_clean_pages(rest, dirty, e);
        let tail = trimmed(rest, dirty, e);
        assert forall|x: u64| #[trigger] left.contains(x) <==> tail.contains(x) || (x == order[0] && dirty.contains(
            order[0],
        )) by {
            if dirty.contains(order[0]) {
                assert(left == seq![order[0]] + tail);
                assert(left[0] == order[0]);
                if tail.contains(x) {
                    let i = tail.index_of(x);
                    assert(left[i + 1] == x);
                }
                if left.contains(x) {
                    let i = left.index_of(x);
                    assert(left[i] == x);
                    if i > 0 {
                        assert(tail[i - 1] == x);
                    }
                }
            }
        }
        assert forall|x: u64| #[trigger] left.contains(x) implies order.contains(x) by {
            assert(tail.contains(x) ==> rest.contains(x));
        }
        assert forall|x: u64| order.contains(x) && dirty.contains(x) implies #[trigger] left.contains(x) by {
            if x != order[0] {
                assert(rest.contains(x));
            }
        }
        assert forall|x: u64, y: u64|
            #![trigger order.index_of(x), order.index_of(y)]
            order.contains(x) && order.contains(y) && order.index_of(x) < order.index_of(y) && !dirty.contains(x)
                && left.contains(x) implies left.contains(y) by {
            assert(tail.contains(x));
            assert(rest.contains(x));
            assert(y != order[0]);
            assert(rest.contains(y));
            lemma_index_behind_first(order, x);
            lemma_index_behind_first(order, y);
            assert(rest.index_of(x) < rest.index_of(y));
        }
        assert forall|i: int, j: int| 0 <= i < j < left.len() implies order.index_of(#[trigger] left[i])
            < order.index_of(#[trigger] left[j]) by {
            let k: int = if dirty.contains(order[0]) { 1 } else { 0 };
            assert(left[j] == tail[j - k]);
            assert(tail.contains(tail[j - k]));
            lemma_index_behind_first(order, left[j]);
            if i >= k {
                assert(left[i] == tail[i - k]);
                assert(tail.contains(tail[i - k]));
                lemma_index_behind_first(order, left[i]);
                assert(rest.index_of(tail[i - k]) < rest.index_of(tail[j - k]));
            }
        }
        assert(left.no_duplicates()) by {
            assert forall|i: int, j: int| 0 <= i < left.len() && 0 <= j < left.len() && i != j implies left[i]
                != left[j] by {
                if i < j {
                    assert(order.index_of(left[i]) < order.index_of(left[j]));
                } else {
                    assert(order.index_of(left[j]) < order.index_of(left[i]));
                }
            }
        }
        if left.len() > order.len() - excess {
            assert forall|i: int| 0 <= i < left.len() implies dirty.contains(#[trigger] left[i]) by {
                let k: int = if dirty.contains(order[0]) { 1 } else { 0 };
                if i >= k {
                    assert(left[i] == tail[i - k]);
                }
            }
        }
    }
}

/// Enforcing the limit leaves as many pages as the limit admits, no fewer. A dirty page
/// goes only after every clean one has gone, and of two that are both clean or both
/// dirty the less recently used goes first.
pub proof fn law_limit_is_enforced(order: Seq<u64>, dirty: Set<u64>, limit: nat)
    requires
        order.no_duplicates(),
    ensures
        remaining(order, dirty, limit).len() == (if order.len() <= limit { order.len() } else { limit }),
        order.len() <= limit ==> remaining(order, dirty, limit) == order,
        forall|x: u64| #[trigger] remaining(order, dirty, limit).contains(x) ==> order.contains(x),
        forall|x: u64, y: u64|
            #![trigger order.index_of(x), order.index_of(y)]
            order.contains(x) && order.contains(y) && remaining(order, dirty, limit).contains(x) && (dirty.contains(x)
                == dirty.contains(y)) && order.index_of(x) < order.index_of(y) ==> remaining(
                order,
                dirty,
                limit,
            ).contains(y),
        forall|x: u64, y: u64|
            #![trigger remaining(order, dirty, limit).contains(x), order.contains(y)]
            remaining(order, dirty, limit).contains(x) && order.contains(y) && !dirty.contains(x) && dirty.contains(y)
                ==> remaining(order, dirty, limit).contains(y),
        forall|i: int, j: int|
            0 <= i < j < remaining(order, dirty, limit).len() ==> order.index_of(
                #[trigger] remaining(order, dirty, limit)[i],
            ) < order.index_of(#[trigger] remaining(order, dirty, limit)[j]),
{
    let excess = order.len() - limit;
    let left = remaining(order, dirty, limit);
    if excess <= 0 {
        law_trimming_drops_old_clean_pages(order, dirty, 0);
        assert(trimmed(order, dirty, 0) == order);
        assert(left == order);
    } else {
        law_trimming_drops_old_clean_pages(order, dirty, excess);
        let rest = trimmed(order, dirty, excess);
        let cut: int = if rest.len() > limit { rest.len() - limit } else { 0 };
        assert(left =~= rest.skip(cut));
        assert forall|x: u64| #[trigger] left.contains(x) implies rest.contains(x) && rest.index_of(x) >= cut by {
            let i = left.index_of(x);
            assert(left[i] == x);
            assert(rest[i + cut] == x);
            assert(rest[rest.index_of(x)] == x);
        }
        assert forall|x: u64, y: u64|
            #![trigger order.index_of(x), order.index_of(y)]
            order.contains(x) && order.contains(y) && left.contains(x) && (dirty.contains(x) == dirty.contains(y))
                && order.index_of(x) < order.index_of(y) implies left.contains(y) by {
            assert(rest.contains(x));
            assert(rest.contains(y));
            let i = rest.index_of(x);
            let j = rest.index_of(y);
            assert(rest[i] == x && rest[j] == y);
            if j < i {
                assert(order.index_of(rest[j]) < order.index_of(rest[i]));
            }
            assert(i <= j);
            assert(left[j - cut] == y);
        }
        assert forall|x: u64, y: u64|
            #![trigger left.contains(x), order.contains(y)]
            left.contains(x) && order.contains(y) && !dirty.contains(x) && dirty.contains(y) implies left.contains(
            y,
        ) by {
            assert(rest.contains(x));
            assert(rest.contains(y));
            if cut > 0 {
                assert(rest[rest.index_of(x)] == x);
                assert(dirty.contains(rest[rest.index_of(x)]));
            }
        }
        assert forall|i: int, j: int| 0 <= i < j < left.len() implies order.index_of(#[trigger] left[i])
            < order.index_of(#[trigger] left[j]) by {
            assert(left[i] == rest[i + cut] && left[j] == rest[j + cut]);
        }
    }
}

/// What goes to the spillway when the limit is enforced are the dirty pages that do not stay,
/// the least recently used first. Nothing dirty is lost: each such page stays or goes there.
pub proof fn law_dirty_pages_are_pushed_out(order: Seq<u64>, dirty: Set<u64>, limit: nat, x: u64)
    requires
        order.no_duplicates(),
    ensures
        pushed_out(order, dirty, limit).contains(x) <==> order.contains(x) && dirty.contains(x) && !remaining(
            order,
            dirty,
            limit,
        ).contains(x),
        pushed_out(order, dirty, limit).no_duplicates(),
        forall|i: int, j: int|
            0 <= i < j < pushed_out(order, dirty, limit).len() ==> order.index_of(
                #[trigger] pushed_out(order, dirty, limit)[i],
            ) < order.index_of(#[trigger] pushed_out(order, dirty, limit)[j]),
{
    let excess = order.len() - limit;
    let out = pushed_out(order, dirty, limit);
    let left = remaining(order, dirty, limit);
    law_trimming_drops_old_clean_pages(order, dirty, if excess > 0 { excess } else { 0 });
    let rest = trimmed(order, dirty, excess);
    assert(excess <= 0 ==> rest == order);
    let cut: int = if rest.len() > limit { rest.len() - limit } else { 0 };
    assert(out =~= rest.take(cut));
    assert(left =~= rest.skip(cut));
    assert forall|i: int| 0 <= i < out.len() implies #[trigger] out[i] == rest[i] by {}
    if out.contains(x) {
        let i = out.index_of(x);
        assert(rest[i] == x);
        assert(rest.contains(x));
        if left.contains(x) {
            let j = left.index_of(x);
            assert(rest[j + cut] == x);
        }
        assert(dirty.contains(rest[i]));
    }
    if order.contains(x) && dirty.contains(x) && !left.contains(x) {
        assert(rest.contains(x));
        let i = rest.index_of(x);
        assert(rest[i] == x);
        if i >= cut {
            assert(left[i - cut] == x);
        }
        assert(out[i] == x);
    }
}

/// Dropping an id keeps all others in their order.
pub proof fn law_dropping_keeps_the_order(order: Seq<u64>, drop: Set<u64>)
    ensures
        kept(order, drop) == order.filter(|x: u64| !drop.contains(x)),
    decreases order.len(),
{
    reveal(Seq::filter);
    if order.len() > 0 {
        law_dropping_keeps_the_order(order.drop_last(), drop);
    }
}

/// Taking one id out of an order keeps all others as they stood.
pub proof fn law_taking_one_out(order: Seq<u64>, id: u64)
    requires
        order.no_duplicates(),
    ensures
        !without(order, id).contains(id),
        forall|x: u64| x != id ==> (#[trigger] without(order, id).contains(x) <==> order.contains(x)),
        without(order, id).len() == order.len() - (if order.contains(id) { 1int } else { 0 }),
        forall|i: int, j: int|
            0 <= i < j < without(order, id).len() ==> order.index_of(#[trigger] without(order, id)[i])
                < order.index_of(#[trigger] without(order, id)[j]),
{
    let rest = without(order, id);
    let at: int = if order.contains(id) { order.index_of(id) } else { order.len() as int };
    assert forall|i: int| 0 <= i < rest.len() implies #[trigger] rest[i] == order[if i < at { i } else { i + 1 }] by {}
    assert forall|x: u64| x != id implies (#[trigger] rest.contains(x) <==> order.contains(x)) by {
        if order.contains(x) {
            let i = order.index_of(x);
            assert(order[i] == x);
            assert(rest[if i < at { i } else { i - 1 }] == x);
        }
    }
    if rest.contains(id) {
        let i = rest.index_of(id);
        assert(rest[i] == id);
        assert(order[at] == id || !order.contains(id));
        assert(order.contains(order[if i < at { i } else { i + 1 }]));
    }
    assert forall|i: int, j: int| 0 <= i < j < rest.len() implies order.index_of(#[trigger] rest[i]) < order.index_of(
        #[trigger] rest[j],
    ) by {
        let a = if i < at { i } else { i + 1 };
        let b = if j < at { j } else { j + 1 };
        assert(order.contains(order[a]) && order.contains(order[b]));
        assert(order[order.index_of(order[a])] == order[a]);
        assert(order[order.index_of(order[b])] == order[b]);
    }
}

/// Pages that are drained to the front of the queue stand there last one first; those
/// that are drained to its end stand there in turn.
pub proof fn law_drained_pages_enter(order: Seq<u64>, ids: Seq<u64>)
    ensures
        inserted(order, ids, DrainInsertion::LruTail) == ids.reverse() + order,
        inserted(order, ids, DrainInsertion::Mru) == order + ids,
    decreases ids.len(),
{
    if ids.len() == 0 {
        assert(ids.reverse() + order =~= order);
        assert(order + ids =~= order);
    } else {
        law_drained_pages_enter(order, ids.drop_last());
        assert(seq![ids.last()] + (ids.drop_last().reverse() + order) =~= ids.reverse() + order);
        assert((order + ids.drop_last()).push(ids.last()) =~= order + ids);
    }
}

/// Without dirty pages trimming cuts the front off.
proof fn lemma_trim_all_clean(order: Seq<u64>, excess: int)
    requires
        excess <= order.len(),
    ensures
        trimmed(order, Set::empty(), excess) == order.skip(if excess > 0 { excess } else { 0 }),
    decreases order.len(),
{
    if excess <= 0 || order.len() == 0 {
        assert(order.skip(0) =~= order);
    } else {
        lemma_trim_all_clean(order.skip(1), excess - 1);
        assert(order.skip(1).skip(excess - 1) =~= order.skip(excess));
    }
}

/// A drain that puts pages at the end of the queue leaves the last `max` of all that were
/// there and came.
pub proof fn law_drain_to_the_end(order: Seq<u64>, ids: Seq<u64>, max: nat)
    requires
        max > 0,
        order.len() <= max,
    ensures
        drained(order, ids, DrainInsertion::Mru, max) == (order + ids).skip(
            if order.len() + ids.len() > max {
                order.len() + ids.len() - max
            } else {
                0
            },
        ),
    decreases ids.len(),
{
    if ids.len() == 0 {
        assert((order + ids).skip(0) =~= order);
    } else {
        let n: int = if ids.len() < max { ids.len() as int } else { max as int };
        let grown = inserted(order, ids.take(n), DrainInsertion::Mru);
        law_drained_pages_enter(order, ids.take(n));
        lemma_trim_all_clean(grown, grown.len() - max);
        let next = trimmed(grown, Set::empty(), grown.len() - max);
        law_drain_to_the_end(next, ids.skip(n), max);
        let over: int = if order.len() + ids.len() > max { order.len() + ids.len() - max } else { 0 };
        assert(drained(next, ids.skip(n), DrainInsertion::Mru, max) =~= (order + ids).skip(over));
    }
}

/// A drain that puts pages at the front of the queue displaces none that was there: as
/// many enter as there is room for, the first ones of the drain.
pub proof fn law_drain_to_the_front(order: Seq<u64>, ids: Seq<u64>, max: nat)
    requires
        max > 0,
        order.len() <= max,
    ensures
        drained(order, ids, DrainInsertion::LruTail, max) == ids.take(
            if order.len() + ids.len() > max {
                max - order.len()
            } else {
                ids.len() as int
            },
        ).reverse() + order,
    decreases ids.len(),
{
    if ids.len() == 0 {
        assert(ids.take(0).reverse() + order =~= order);
    } else {
        let n: int = if ids.len() < max { ids.len() as int } else { max as int };
        let grown = inserted(order, ids.take(n), DrainInsertion::LruTail);
        law_drained_pages_enter(order, ids.take(n));
        lemma_trim_all_clean(grown, grown.len() - max);
        let next = trimmed(grown, Set::empty(), grown.len() - max);
        law_drain_to_the_front(next, ids.skip(n), max);
        let enter: int = if order.len() + ids.len() > max { max - order.len() } else { ids.len() as int };
        let first: int = if order.len() + n > max { max - order.len() } else { n };
        assert(next =~= ids.take(first).reverse() + order);
        let more: int = if next.len() + ids.skip(n).len() > max { max - next.len() } else { ids.skip(n).len() as int };
        assert(more == 0);
        assert(ids.skip(n).take(more).reverse() + next =~= next);
        assert(first == enter);
    }
}

/// The spillway holds as many whole pages as its byte limit has room for.
pub proof fn law_spillway_holds_its_bytes(c: &PageCache)
    ensures
        c.spill_capacity() * 8192 <= c.spill_limit() < (c.spill_capacity() + 1) * 8192,
        c.spill_fits() <==> c.spilled().dom().len() * 8192 <= c.spill_limit(),
        c.capacity() == c.page_limit() + c.spill_capacity(),
{
    vstd::arithmetic::div_mod::lemma_fundamental_div_mod(c.spill_limit() as int, 8192);
}

/// The limits are exceeded exactly if the cache has more dirty pages than it may have and
/// what is too much for the cache is too much for the spillway. There is no room for
/// another page exactly if they would be exceeded with it.
pub proof fn law_pressure(c: &PageCache)
    ensures
        c.over_limit() <==> c.dirty().len() > c.page_limit() && (c.pending() - c.page_limit()) * 8192 > c.spill_limit(),
        c.full() <==> c.dirty().len() >= c.page_limit() && (c.pending() + 1 - c.page_limit()) * 8192 > c.spill_limit(),
{
    law_spillway_holds_its_bytes(c);
}

/// Which error a full cache gives, and with which limit.
pub proof fn law_pressure_errors(c: &PageCache)
    requires
        c.page_limit() <= usize::MAX,
    ensures
        c.spill_limit() == 0 ==> (c.pressure_error() matches ChiselError::CacheFull { limit } && limit
            == c.page_limit()),
        c.spill_limit() != 0 ==> (c.pressure_error() matches ChiselError::SpillwayFull { limit_bytes } && limit_bytes
            == c.spill_limit()),
{
}

/// A request for a page succeeds exactly if the page is in the cache, or there is room
/// and it is in the spillway or intact on storage. Otherwise the error says why: no room,
/// a page that storage does not have, or one that is damaged.
pub proof fn law_requests_for_pages(c: &PageCache, id: u64)
    ensures
        c.fetchable(id) <==> {
            ||| c.cached().contains_key(id)
            ||| !c.over_limit() && c.spilled().contains_key(id)
            ||| !c.over_limit() && id < c.disk().len() && crate::bytes::le64(c.disk()[id as int], 8184) == xxh3_hash(
                c.disk()[id as int].subrange(0, 8184),
            )
        },
        c.over_limit() ==> c.fetch_error(id) == c.pressure_error(),
        !c.over_limit() && id >= c.disk().len() ==> (c.fetch_error(id) matches ChiselError::InvalidPageId { page_id }
            && page_id == id),
        !c.over_limit() && id < c.disk().len() ==> (c.fetch_error(id) matches ChiselError::ChecksumMismatch { page_id }
            && page_id == id),
{
}

/// A page that was requested is the most recently used one. If it was in the cache the
/// others keep their order; if not, the limit was enforced before it came in.
pub proof fn law_requested_page_is_newest(c: &PageCache, id: u64)
    requires
        c.order().no_duplicates(),
        c.cached().contains_key(id) <==> c.order().contains(id),
    ensures
        c.touched(id).len() > 0,
        c.touched(id).last() == id,
        c.order().contains(id) ==> c.touched(id).len() == c.order().len(),
        !c.order().contains(id) ==> c.touched(id).len() == 1 + (if c.order().len() <= c.page_limit() {
            c.order().len()
        } else {
            c.page_limit()
        }),
        forall|i: int, j: int|
            0 <= i < j < c.touched(id).len() - 1 ==> c.order().index_of(#[trigger] c.touched(id)[i])
                < c.order().index_of(#[trigger] c.touched(id)[j]),
{
    law_taking_one_out(c.order(), id);
    law_limit_is_enforced(c.order(), c.dirty(), c.page_limit());
    let rest = if c.cached().contains_key(id) {
        without(c.order(), id)
    } else {
        remaining(c.order(), c.dirty(), c.page_limit())
    };
    assert forall|i: int| 0 <= i < rest.len() implies #[trigger] c.touched(id)[i] == rest[i] by {}
}

/// A page that is requested is not in the spillway any more, and a dirty page that made room
/// for it is; the others there keep their places.
pub proof fn law_requests_fill_the_spillway(c: &PageCache, id: u64, x: u64)
    requires
        c.inv(),
        !c.cached().contains_key(id),
        x != id,
    ensures
        !c.spilling(id).contains(id),
        c.spilling(id).contains(x) <==> c.spilled().contains_key(x) || c.dirty().contains(x) && !remaining(
            c.order(),
            c.dirty(),
            c.page_limit(),
        ).contains(x),
{
    let out = pushed_out(c.order(), c.dirty(), c.page_limit());
    let all = c.spill_order() + out;
    crate::page_cache::law_where_pages_are(c, id);
    crate::page_cache::law_where_pages_are(c, x);
    c.lemma_inv();
    law_dirty_pages_are_pushed_out(c.order(), c.dirty(), c.page_limit(), x);
    law_dirty_pages_are_pushed_out(c.order(), c.dirty(), c.page_limit(), id);
    assert forall|y: u64| all.contains(y) <==> c.spill_order().contains(y) || out.contains(y) by {
        if c.spill_order().contains(y) {
            let i = c.spill_order().index_of(y);
            assert(all[i] == y);
        }
        if out.contains(y) {
            let i = out.index_of(y);
            assert(all[c.spill_order().len() + i] == y);
        }
        if all.contains(y) {
            let i = all.index_of(y);
            assert(all[i] == y);
            if i < c.spill_order().len() {
                assert(c.spill_order()[i] == y);
            } else {
                assert(out[i - c.spill_order().len()] == y);
            }
        }
    }
    assert(all.no_duplicates()) by {
        assert forall|i: int, j: int| 0 <= i < j < all.len() implies all[i] != all[j] by {
            let n = c.spill_order().len() as int;
            if i < n && j >= n {
                let y = out[j - n];
                assert(out.contains(y));
                law_dirty_pages_are_pushed_out(c.order(), c.dirty(), c.page_limit(), y);
                crate::page_cache::law_where_pages_are(c, y);
                assert(c.spill_order().contains(c.spill_order()[i]));
            }
        }
    }
    law_taking_one_out(all, id);
}

/// A write puts its bytes on its page and on no other. A page that the file did not have
/// before, and that was not written, is zero.
pub proof fn law_writes_touch_one_page(pages: Seq<Seq<u8>>, id: u64, bytes: Seq<u8>, k: int)
    ensures
        written(pages, id, bytes).len() == (if id < pages.len() { pages.len() as int } else { id + 1 }),
        written(pages, id, bytes)[id as int] == bytes,
        0 <= k < pages.len() && k != id ==> written(pages, id, bytes)[k] == pages[k],
        pages.len() <= k < id ==> written(pages, id, bytes)[k] == Seq::new(8192, |i: int| 0u8),
{
}

/// A file that is resized keeps the pages that it still has room for; new pages are
/// zero.
pub proof fn law_resizing_keeps_pages(pages: Seq<Seq<u8>>, n: nat, k: int)
    requires
        0 <= k < n,
    ensures
        resized(pages, n).len() == n,
        k < pages.len() ==> resized(pages, n)[k] == pages[k],
        k >= pages.len() ==> resized(pages, n)[k] == Seq::new(8192, |i: int| 0u8),
{
}

/// A zero page is 8192 zero bytes.
pub proof fn law_zero_page()
    ensures
        zero_page().len() == 8192,
        forall|i: int| 0 <= i < 8192 ==> #[trigger] zero_page()[i] == 0,
{
}

/// Actions take effect one after the other: what is recorded later is done to what the
/// earlier actions left.
pub proof fn law_replay_in_parts(pages: Seq<Seq<u8>>, first: Seq<IoAction>, then: Seq<IoAction>)
    ensures
        replay(pages, first + then) == replay(replay(pages, first), then),
        replay(pages, Seq::empty()) == pages,
    decreases then.len(),
{
    if then.len() == 0 {
        assert(first + then =~= first);
    } else {
        law_replay_in_parts(pages, first, then.drop_last());
        assert((first + then).drop_last() =~= first + then.drop_last());
        assert((first + then).last() == then.last());
    }
}

/// What each action does to a file.
pub proof fn law_actions(pages: Seq<Seq<u8>>, action: IoAction)
    ensures
        action matches IoAction::Write { page_id, bytes } ==> {
            &&& action.apply(pages)[page_id as int] == bytes@
            &&& forall|k: int|
                0 <= k < pages.len() && k != page_id ==> #[trigger] action.apply(pages)[k] == pages[k]
            &&& action.apply(pages).len() == (if page_id < pages.len() { pages.len() as int } else { page_id + 1 })
        },
        action matches IoAction::SetPageCount { count } ==> {
            &&& action.apply(pages).len() == count
            &&& forall|k: int| 0 <= k < pages.len() && k < count ==> #[trigger] action.apply(pages)[k] == pages[k]
        },
        action is Sync ==> action.apply(pages) == pages,
{
}

/// What was saved is on storage; nothing else there has changed, and storage grew no
/// further than to the last page that was saved.
pub proof fn law_saved_pages(before: Seq<Seq<u8>>, after: Seq<Seq<u8>>, changes: Map<u64, Seq<u8>>, id: u64)
    requires
        saved(before, after, changes),
    ensures
        changes.contains_key(id) ==> id < after.len() && after[id as int] == changes[id],
        id < before.len() && !changes.contains_key(id) ==> after[id as int] == before[id as int],
        before.len() <= id < after.len() && !changes.contains_key(id) ==> after[id as int] == Seq::new(
            8192,
            |i: int| 0u8,
        ),
        after.len() >= before.len(),
        after.len() > before.len() ==> changes.contains_key((after.len() - 1) as u64),
{
    if id < after.len() && !changes.contains_key(id) {
        assert(after[id as int] == (if id < before.len() { before[id as int] } else { zero_page() }));
    }
}

/// Counters go up by one, and from their highest value to 0.
pub proof fn law_counters_go_up_by_one(n: u64)
    ensures
        bumped(n) == (n + 1) % 0x1_0000_0000_0000_0000,
{
}

/// The contents of pages, one by one.
pub proof fn law_contents_of_pages(pages: Seq<[u8; PAGE_SIZE]>, i: int)
    requires
        0 <= i < pages.len(),
    ensures
        page_bytes(pages).len() == pages.len(),
        page_bytes(pages)[i] == pages[i]@,
{
}

/// An action that spares all but some pages leaves every other page as it is, and writes
/// none of them.
pub proof fn law_actions_on_other_pages(action: IoAction, pages: Seq<Seq<u8>>, ids: Set<u64>, k: u64)
    requires
        action.spares_all_but(ids),
        !ids.contains(k),
        k < pages.len(),
    ensures
        action.apply(pages)[k as int] == pages[k as int],
        action.apply(pages).len() >= pages.len(),
        forall|bytes: Seq<u8>| !action.writes(k, bytes),
{
}

/// A step that writes nothing but given contents leaves each page as it is, or with its
/// given contents.
pub proof fn law_actions_with_given_contents(
    action: IoAction,
    pages: Seq<Seq<u8>>,
    contents: Map<u64, Seq<u8>>,
    k: u64,
)
    requires
        action.stays_within(contents),
        k < pages.len(),
    ensures
        action.apply(pages)[k as int] == pages[k as int] || contents.contains_key(k) && action.apply(pages)[k as int]
            == contents[k],
        action matches IoAction::Write { page_id, bytes } ==> contents.contains_key(page_id) && contents[page_id]
            == bytes@,
{
}

/// Between two states of a file nothing but given contents were written: what was done before
/// is kept, and each later write has given contents.
pub proof fn law_later_writes(a: &PageIo, b: &PageIo, contents: Map<u64, Seq<u8>>, i: int)
    requires
        a.is_file_image(),
        wrote(a, b, contents),
        0 <= i < b.recorded().len(),
    ensures
        b.base() == a.base(),
        i < a.recorded().len() ==> b.recorded()[i] == a.recorded()[i],
        i >= a.recorded().len() ==> (b.recorded()[i] matches IoAction::Write { page_id, bytes } ==> contents.contains_key(
            page_id,
        ) && contents[page_id] == bytes@),
        i >= a.recorded().len() ==> b.recorded()[i] !is SetPageCount,
{
    if i < a.recorded().len() {
        assert(b.recorded().take(a.recorded().len() as int)[i] == b.recorded()[i]);
    } else {
        assert(b.recorded()[i].stays_within(contents));
    }
}

/// What was synced since has a sync as the last thing that was done.
pub proof fn law_synced_since(a: &PageIo, b: &PageIo)
    requires
        b.synced_since(a),
    ensures
        b.recorded().len() > a.recorded().len(),
        b.recorded()[b.recorded().len() - 1] is Sync,
{
}

/// A spillway comes into being when a dirty page has to make room, and not before.
pub proof fn law_spillway_comes_into_being(c: &PageCache, id: u64)
    ensures
        c.has_spillway() ==> c.spilled_once(id),
        !c.has_spillway() ==> (c.spilled_once(id) <==> !c.cached().contains_key(id) && pushed_out(
            c.order(),
            c.dirty(),
            c.page_limit(),
        ).len() > 0),
{
}

} // verus!
