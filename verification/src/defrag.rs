//! Moving values off sparse data pages.
//!
//! A handle stands for its value wherever the value is, so reading a value and
//! writing it back under the same handle changes nothing but its place: it goes
//! where the running transaction adds values. A page that holds no value any more
//! is freed with the commit.

use vstd::prelude::*;

use rustc_hash::FxHashSet;

use crate::store::entry_of;
use crate::workspace::{looked, Workspace};
use crate::error::ChiselError;
use crate::fx::{set_contains, set_insert, set_new};
use crate::handle_table::HandleFlags;
use crate::operations::{lemma_placed_looked, newly_placed};
use crate::page_source::{grown_by, lemma_cow_look, overrun, PageSource};
use crate::placement::{goes_to, next_in_line, room_of};
use crate::transaction::{
    ascending, elsewhere, law_data_pages, lemma_goes_elsewhere, lemma_inline_length, lemma_not_handed_out,
    lemma_running_vetted, lemma_usable, lies_on, TransactionManager,
};

verus! {

/// What a pass has done.
#[must_use]
#[non_exhaustive]
#[derive(Debug, Clone, Copy, PartialEq, Eq, Structural)]
pub struct DefragStats {
    /// Sparse pages that values were moved off.
    pub pages_examined: u64,
    /// Data pages that held a value before and hold none now.
    pub pages_freed: u64,
    /// Values that were moved.
    pub values_moved: u64,
    /// Pages of former freemaps that nothing leads to and that the commit frees;
    /// reported once, and not while there are savepoints.
    pub freemap_orphans_reclaimed: u64,
}

/// How many pages moving a value takes at most.
pub open spec fn move_pages() -> nat {
    141
}

/// The value of a handle is on a sparse page.
pub open spec fn on_sparse(tm: &TransactionManager, h: u64, sparse: Set<u64>) -> bool {
    tm.place_of(h) matches Some(e) && e.flags == HandleFlags::Live && sparse.contains(e.page_id)
}

/// The handles among the first `i` whose values are moved: those on sparse pages,
/// up to a limit.
pub open spec fn movers(tm: &TransactionManager, list: Seq<u64>, sparse: Set<u64>, max: nat, i: nat) -> Seq<u64>
    decreases i,
{
    if i == 0 {
        Seq::empty()
    } else {
        let before = movers(tm, list, sparse, max, (i - 1) as nat);
        if (max == 0 || before.len() < max) && on_sparse(tm, list[i - 1], sparse) {
            before.push(list[i - 1])
        } else {
            before
        }
    }
}

/// The pages that hold the values of handles.
pub open spec fn pages_of(tm: &TransactionManager, handles: Seq<u64>) -> Set<u64> {
    Set::new(|p: u64| exists|i: int| 0 <= i < handles.len() && tm.place_of(#[trigger] handles[i])->0.page_id == p)
}

/// What a pass does to the handles that it is given.
pub open spec fn swept(
    before: &TransactionManager,
    after: &TransactionManager,
    list: Seq<u64>,
    sparse: Set<u64>,
    max: nat,
    stats: DefragStats,
) -> bool {
    let moved = movers(before, list, sparse, max, list.len());
    &&& stats.values_moved == moved.len()
    &&& stats.pages_examined == pages_of(before, moved).len()
    &&& stats.pages_examined <= stats.values_moved
    &&& stats.pages_freed == before.data_pages().difference(after.data_pages()).len()
    &&& stats.freemap_orphans_reclaimed == (if before.marks().len() > 0 {
        0
    } else {
        before.unreported()
    })
    &&& forall|h: u64| !moved.contains(h) ==> #[trigger] after.place_of(h) == before.place_of(h)
    &&& forall|h: u64| moved.contains(h) ==> #[trigger] relocated(before, after, h)
    &&& exists|states: Seq<Workspace>| #[trigger] packed(before, after, moved, states)
    &&& forall|h: u64| moved.contains(h) ==> #[trigger] off_sparse(before, after, sparse, h)
}

/// The values were moved one after the other, each to where values were being added:
/// behind the one before as long as there is room on its page.
#[verifier::opaque]
pub open spec fn packed(
    before: &TransactionManager,
    after: &TransactionManager,
    moved: Seq<u64>,
    states: Seq<Workspace>,
) -> bool {
    &&& states.len() == moved.len() + 1
    &&& states[0] == before.current()
    &&& forall|i: int| 0 <= i < moved.len() ==> #[trigger] stepwise(before, moved, states, i)
    &&& forall|h: u64| #[trigger]
        after.place_of(h) == entry_of(states[moved.len() as int].cache.contents(), states[moved.len() as int].roots, h)
}

/// The `i`th value was moved to where values were being added.
pub open spec fn stepwise(before: &TransactionManager, moved: Seq<u64>, states: Seq<Workspace>, i: int) -> bool {
    let (w0, w1) = (states[i], states[i + 1]);
    &&& newly_placed(&w0, &w1, moved[i], before.db()[moved[i]].value.len())
    &&& forall|k: u64|
        k != moved[i] ==> #[trigger] entry_of(w1.cache.contents(), w1.roots, k) == entry_of(
            w0.cache.contents(),
            w0.roots,
            k,
        )
}

/// The value of a handle did not go to a sparse page, unless values were being added
/// there from the start.
pub open spec fn off_sparse(before: &TransactionManager, after: &TransactionManager, sparse: Set<u64>, h: u64) -> bool {
    after.place_of(h) matches Some(e) && (e.flags == HandleFlags::Live && sparse.contains(e.page_id)
        && before.data_pages().contains(e.page_id) ==> before.current().cursor == Some(e.page_id))
}

/// A page that the pass may put values on: where values were being added from the
/// start, or one that was handed out since.
spec fn fillable(before: &TransactionManager, page: u64) -> bool {
    let w = before.current();
    w.cursor == Some(page) || w.recycler.footprint(&w.cache).contains(page)
}

/// The value of a handle lies on a page that the pass may put values on.
spec fn filled_in(before: &TransactionManager, after: &TransactionManager, h: u64) -> bool {
    after.place_of(h) matches Some(e) && (e.flags == HandleFlags::Live ==> fillable(before, e.page_id))
}

/// How far a pass has come: so many handles have been moved.
#[verifier::opaque]
spec fn progress(t0: &TransactionManager, t1: &TransactionManager, moved: Seq<u64>, states: Seq<Workspace>) -> bool {
    &&& forall|h: u64| !moved.contains(h) ==> #[trigger] t1.place_of(h) == t0.place_of(h)
    &&& forall|h: u64| moved.contains(h) ==> #[trigger] relocated(t0, t1, h)
    &&& forall|h: u64| moved.contains(h) ==> #[trigger] filled_in(t0, t1, h)
    &&& packed(t0, t1, moved, states)
    &&& states.len() == moved.len() + 1
    &&& looked(&states[moved.len() as int], &t1.current())
    &&& states[moved.len() as int].usable()
    &&& t1.hands_out_less(t0)
    &&& t1.current().cursor matches Some(p) ==> fillable(t0, p)
}

/// Nothing has been moved yet.
proof fn lemma_progress_start(t0: &TransactionManager)
    requires
        t0.current().usable(),
    ensures
        progress(t0, t0, Seq::<u64>::empty(), seq![t0.current()]),
{
    reveal(progress);
    reveal(packed);
}

/// Looking at pages moves nothing.
proof fn lemma_progress_looked(
    t0: &TransactionManager,
    t1: &TransactionManager,
    t2: &TransactionManager,
    moved: Seq<u64>,
    states: Seq<Workspace>,
)
    requires
        t1.current().usable(),
        progress(t0, t1, moved, states),
        looked(&t1.current(), &t2.current()),
    ensures
        progress(t0, t2, moved, states),
{
    reveal(progress);
    assert forall|h: u64| #[trigger] t2.place_of(h) == t1.place_of(h) by {}
    assert forall|h: u64| moved.contains(h) implies #[trigger] relocated(t0, t2, h) by {
        assert(relocated(t0, t1, h));
    }
    assert forall|h: u64| moved.contains(h) implies #[trigger] filled_in(t0, t2, h) by {
        assert(filled_in(t0, t1, h));
    }
    lemma_cow_look(&t1.current().recycler, &t1.current().cache, &t2.current().cache);
    lemma_packed_same(t0, t1, t2, moved, states);
}

/// One more value was moved.
proof fn lemma_progress_moved(
    t0: &TransactionManager,
    t1: &TransactionManager,
    t2: &TransactionManager,
    moved: Seq<u64>,
    states: Seq<Workspace>,
    h: u64,
)
    requires
        progress(t0, t1, moved, states),
        !moved.contains(h),
        newly_placed(&t1.current(), &t2.current(), h, t0.db()[h].value.len()),
        relocated(t1, t2, h),
        t2.hands_out_less(t1),
        t2.current().usable(),
        forall|k: u64| k != h ==> #[trigger] t2.place_of(k) == t1.place_of(k),
    ensures
        progress(t0, t2, moved.push(h), states.push(t2.current())),
{
    reveal(progress);
    let all = moved.push(h);
    let w0 = states[moved.len() as int];
    let e = t2.place_of(h)->0;
    let n = t0.db()[h].value.len();
    lemma_placed_looked(&w0, &t1.current(), e, n);
    lemma_filled_in(t0, t1, t2, h, n);
    lemma_packed(t0, t1, t2, moved, states, h);
    assert forall|k: u64| all.contains(k) == (k == h || moved.contains(k)) by {
        if moved.contains(k) {
            assert(all[moved.index_of(k)] == k);
        }
        assert(all[moved.len() as int] == h);
        if all.contains(k) && k != h {
            let i = all.index_of(k);
            assert(moved[i] == k);
        }
    }
    assert(t1.place_of(h) == t0.place_of(h));
    assert forall|k: u64| all.contains(k) implies #[trigger] relocated(t0, t2, k) by {
        if k != h {
            assert(relocated(t0, t1, k));
            assert(t2.place_of(k) == t1.place_of(k));
        }
    }
    assert forall|k: u64| all.contains(k) implies #[trigger] filled_in(t0, t2, k) by {
        if k != h {
            assert(filled_in(t0, t1, k));
            assert(t2.place_of(k) == t1.place_of(k));
        }
    }
    assert forall|k: u64| !all.contains(k) implies #[trigger] t2.place_of(k) == t0.place_of(k) by {
        assert(t2.place_of(k) == t1.place_of(k));
        assert(t1.place_of(k) == t0.place_of(k));
    }
}

/// The value of a handle has another place.
pub open spec fn relocated(before: &TransactionManager, after: &TransactionManager, h: u64) -> bool {
    &&& before.place_of(h) is Some
    &&& after.place_of(h) is Some
    &&& elsewhere(before.place_of(h)->0, after.place_of(h)->0)
}

/// The list names every handle once, in ascending order.
pub open spec fn all_handles(tm: &TransactionManager, list: Seq<u64>) -> bool {
    &&& ascending(list)
    &&& forall|h: u64| #[trigger] list.contains(h) <==> tm.db().contains_key(h)
}

/// How many elements of one ascending list are not in another.
fn count_missing(a: &Vec<u64>, b: &Vec<u64>) -> (count: u64)
    requires
        ascending(a@),
        ascending(b@),
    ensures
        count == a@.to_set().difference(b@.to_set()).len(),
{
    let mut kept: FxHashSet<u64> = set_new();
    let mut j: usize = 0;
    while j < b.len()
        invariant
            j <= b@.len(),
            kept@ == b@.take(j as int).to_set(),
        decreases b@.len() - j,
    {
        set_insert(&mut kept, b[j]);
        proof {
            lemma_take_set(b@, j as int);
        }
        j += 1;
    }
    assert(b@.take(j as int) =~= b@);
    let mut count: u64 = 0;
    let mut i: usize = 0;
    proof {
        assert(a@.take(0).to_set().difference(kept@) =~= Set::<u64>::empty());
    }
    while i < a.len()
        invariant
            i <= a@.len(),
            ascending(a@),
            kept@ == b@.to_set(),
            count == a@.take(i as int).to_set().difference(kept@).len(),
            a@.take(i as int).to_set().difference(kept@).finite(),
            count <= i,
        decreases a@.len() - i,
    {
        let id: u64 = a[i];
        let ghost before = a@.take(i as int).to_set().difference(kept@);
        let ghost after = a@.take(i + 1).to_set().difference(kept@);
        proof {
            lemma_take_set(a@, i as int);
            assert(!a@.take(i as int).contains(id)) by {
                if a@.take(i as int).contains(id) {
                    let k = a@.take(i as int).index_of(id);
                    assert(a@[k] < a@[i as int]);
                }
            }
        }
        if !set_contains(&kept, id) {
            assert(after =~= before.insert(id));
            count += 1;
        } else {
            assert(after =~= before);
        }
        i += 1;
    }
    assert(a@.take(i as int) =~= a@);
    count
}

/// One more element.
proof fn lemma_take_set(a: Seq<u64>, i: int)
    requires
        0 <= i < a.len(),
    ensures
        a.take(i + 1).to_set() == a.take(i).to_set().insert(a[i]),
{
    assert(a.take(i + 1) =~= a.take(i).push(a[i]));
    assert forall|x: u64| a.take(i + 1).to_set().contains(x) == a.take(i).to_set().insert(a[i]).contains(x) by {
        if a.take(i).contains(x) {
            let k = a.take(i).index_of(x);
            assert(a.take(i + 1)[k] == x);
        }
        if a.take(i + 1).contains(x) {
            let k = a.take(i + 1).index_of(x);
            if k < i {
                assert(a.take(i)[k] == x);
            }
        }
        assert(a.take(i + 1)[i] == a[i]);
    }
    assert(a.take(i + 1).to_set() =~= a.take(i).to_set().insert(a[i]));
}

/// How many pages moving `n` values takes at most.
pub open spec fn moves_pages(n: nat) -> nat {
    n * move_pages()
}

/// More values take more pages.
proof fn lemma_moves_pages(i: nat, n: nat)
    requires
        i < n,
    ensures
        moves_pages(i + 1) == moves_pages(i) + move_pages(),
        moves_pages(i + 1) <= moves_pages(n),
{
    assert((i + 1) * move_pages() == i * move_pages() + move_pages()) by (nonlinear_arith);
    assert((i + 1) * move_pages() <= n * move_pages()) by (nonlinear_arith)
        requires
            i + 1 <= n,
    ;
}

/// Handles that are moved are among those visited.
proof fn lemma_movers(tm: &TransactionManager, list: Seq<u64>, sparse: Set<u64>, max: nat, i: nat)
    requires
        i <= list.len(),
        ascending(list),
    ensures
        movers(tm, list, sparse, max, i).len() <= i,
        forall|h: u64| #[trigger]
            movers(tm, list, sparse, max, i).contains(h) ==> exists|k: int| 0 <= k < i && #[trigger] list[k] == h,
        forall|k: int| i <= k < list.len() ==> !movers(tm, list, sparse, max, i).contains(#[trigger] list[k]),
    decreases i,
{
    let now = movers(tm, list, sparse, max, i);
    if i > 0 {
        lemma_movers(tm, list, sparse, max, (i - 1) as nat);
        let before = movers(tm, list, sparse, max, (i - 1) as nat);
        assert forall|h: u64| #[trigger] now.contains(h) implies exists|k: int| 0 <= k < i && #[trigger] list[k] == h by {
            let j = now.index_of(h);
            if j < before.len() {
                assert(before[j] == h);
                assert(before.contains(h));
                let k = choose|k: int| 0 <= k < i - 1 && #[trigger] list[k] == h;
                assert(list[k] == h);
            } else {
                assert(list[i - 1] == h);
            }
        }
    }
    assert forall|k: int| i <= k < list.len() implies !now.contains(#[trigger] list[k]) by {
        if now.contains(list[k]) {
            let j = choose|j: int| 0 <= j < i && #[trigger] list[j] == list[k];
            assert(list[j] < list[k]);
        }
    }
}

/// One more handle was moved.
proof fn lemma_moved(tm: &TransactionManager, handles: Seq<u64>, h: u64)
    ensures
        pages_of(tm, handles.push(h)) == pages_of(tm, handles).insert(tm.place_of(h)->0.page_id),
        forall|x: u64| #[trigger] handles.push(h).contains(x) <==> handles.contains(x) || x == h,
{
    let after = handles.push(h);
    let page = tm.place_of(h)->0.page_id;
    assert forall|x: u64| #[trigger] after.contains(x) <==> handles.contains(x) || x == h by {
        if handles.contains(x) {
            let k = handles.index_of(x);
            assert(after[k] == x);
        }
        if after.contains(x) {
            let k = after.index_of(x);
            if k < handles.len() {
                assert(handles[k] == x);
            }
        }
        assert(after[handles.len() as int] == h);
    }
    assert forall|p: u64| pages_of(tm, after).contains(p) == pages_of(tm, handles).insert(page).contains(p) by {
        if pages_of(tm, after).contains(p) {
            let i = choose|i: int| 0 <= i < after.len() && tm.place_of(#[trigger] after[i])->0.page_id == p;
            if i < handles.len() {
                assert(tm.place_of(handles[i])->0.page_id == p);
            }
        }
        if pages_of(tm, handles).contains(p) {
            let i = choose|i: int| 0 <= i < handles.len() && tm.place_of(#[trigger] handles[i])->0.page_id == p;
            assert(tm.place_of(after[i])->0.page_id == p);
        }
        assert(tm.place_of(after[handles.len() as int])->0.page_id == page);
    }
    assert(pages_of(tm, after) =~= pages_of(tm, handles).insert(page));
}

/// Nothing that can be seen has changed, and nothing was reported.
pub open spec fn same_data(before: &TransactionManager, after: &TransactionManager) -> bool {
    &&& data_kept(before, after)
    &&& after.told() == before.told()
}

/// Nothing that can be seen has changed.
pub open spec fn data_kept(before: &TransactionManager, after: &TransactionManager) -> bool {
    &&& after.inv()
    &&& after.rest_kept(before)
    &&& after.db() == before.db()
    &&& after.names() == before.names()
    &&& after.next_handle() == before.next_handle()
}

/// Write the value of a handle back under the same handle: it moves to where values
/// are being added.
fn rewrite(tm: &mut TransactionManager, handle: u64) -> (outcome: Result<(), ChiselError>)
    requires
        old(tm).inv(),
        old(tm).barred() is None,
        old(tm).vetted(),
        old(tm).place_of(handle) matches Some(e) && e.flags == HandleFlags::Live,
        old(tm).room(move_pages()),
    ensures
        same_data(old(tm), final(tm)),
        final(tm).vetted(),
        grown_by(&old(tm).current().cache, &final(tm).current().cache, move_pages()),
        match outcome {
            Ok(_) => {
                &&& newly_placed(
                    &old(tm).current(),
                    &final(tm).current(),
                    handle,
                    old(tm).db()[handle].value.len(),
                )
                &&& relocated(old(tm), final(tm), handle)
                &&& final(tm).hands_out_less(old(tm))
                &&& forall|k: u64| k != handle ==> #[trigger] final(tm).place_of(k) == old(tm).place_of(k)
            },
            Err(e) => overrun(&old(tm).current().cache, &final(tm).current().cache, e, move_pages()),
        },
{
    let ghost t0 = *tm;
    proof {
        lemma_inline_length(&t0, handle);
    }
    let value: Vec<u8> = match tm.read(handle) {
        Ok(value) => value,
        Err(e) => {
            return Err(e);
        },
    };
    let ghost t1 = *tm;
    match tm.update(handle, value.as_slice()) {
        Ok(_) => {
            proof {
                assert(tm.db() =~= t0.db());
                let moved = tm.place_of(handle)->0;
                lemma_usable(&t0);
                lemma_placed_looked(&t0.current(), &t1.current(), moved, value@.len());
                lemma_cow_look(&t0.current().recycler, &t0.current().cache, &t1.current().cache);
                assert(goes_to(&t0.current(), moved, value@.len()));
                lemma_goes_elsewhere(&t0, handle, moved, value@.len());
                assert forall|k: u64| k != handle implies #[trigger] tm.place_of(k) == t0.place_of(k) by {
                    assert(t1.place_of(k) == t0.place_of(k));
                }
            }
            Ok(())
        },
        Err(e) => Err(e),
    }
}

/// Move the values of handles off sparse pages, up to a limit; 0 means no limit.
/// Says how many values were moved, and off how many pages.
#[verifier::rlimit(80)]
#[verifier::spinoff_prover]
fn relocate(tm: &mut TransactionManager, list: &Vec<u64>, sparse: &FxHashSet<u64>, max: usize) -> (outcome: Result<
    (u64, u64),
    ChiselError,
>)
    requires
        old(tm).inv(),
        old(tm).barred() is None,
        old(tm).vetted(),
        all_handles(old(tm), list@),
        old(tm).room(moves_pages(list@.len())),
    ensures
        same_data(old(tm), final(tm)),
        final(tm).vetted(),
        match outcome {
            Ok((moved, examined)) => {
                let handles = movers(old(tm), list@, sparse@, max as nat, list@.len());
                &&& moved == handles.len()
                &&& max > 0 ==> moved <= max
                &&& examined == pages_of(old(tm), handles).len()
                &&& examined <= moved
                &&& forall|h: u64| !handles.contains(h) ==> #[trigger] final(tm).place_of(h) == old(tm).place_of(h)
                &&& forall|h: u64| handles.contains(h) ==> #[trigger] relocated(old(tm), final(tm), h)
                &&& forall|h: u64| handles.contains(h) ==> #[trigger] filled_in(old(tm), final(tm), h)
                &&& exists|states: Seq<Workspace>| #[trigger] packed(old(tm), final(tm), handles, states)
            },
            Err(e) => overrun(&old(tm).current().cache, &final(tm).current().cache, e, moves_pages(list@.len())),
        },
{
    let ghost t0 = *tm;
    let mut moved: u64 = 0;
    let mut examined: FxHashSet<u64> = set_new();
    let mut count: u64 = 0;
    let ghost mut states: Seq<Workspace> = seq![t0.current()];
    proof {
        assert(pages_of(&t0, Seq::<u64>::empty()) =~= Set::<u64>::empty());
        lemma_usable(&t0);
        lemma_progress_start(&t0);
    }
    let mut i: usize = 0;
    while i < list.len()
        invariant
            i <= list@.len(),
            t0 == *old(tm),
            t0.barred() is None,
            all_handles(&t0, list@),
            t0.room(moves_pages(list@.len())),
            same_data(&t0, tm),
            tm.vetted(),
            moved <= i,
            max > 0 ==> moved <= max,
            moved == movers(&t0, list@, sparse@, max as nat, i as nat).len(),
            examined@ == pages_of(&t0, movers(&t0, list@, sparse@, max as nat, i as nat)),
            examined@.finite(),
            count == examined@.len(),
            count <= moved,
            progress(&t0, tm, movers(&t0, list@, sparse@, max as nat, i as nat), states),
            grown_by(&t0.current().cache, &tm.current().cache, moves_pages(moved as nat)),
        decreases list@.len() - i,
    {
        let handle: u64 = list[i];
        let ghost before = movers(&t0, list@, sparse@, max as nat, i as nat);
        proof {
            lemma_movers(&t0, list@, sparse@, max as nat, i as nat);
            lemma_moves_pages(moved as nat, list@.len());
            assert(list@.contains(list@[i as int]));
            assert(t0.db().contains_key(handle));
            assert(tm.place_of(handle) == t0.place_of(handle)) by {
                reveal(progress);
            }
        }
        if max == 0 || moved < max as u64 {
            let ghost t1 = *tm;
            let page: Option<u64> = match tm.handle_live_page_id(handle) {
                Ok(page) => page,
                Err(e) => {
                    return Err(e);
                },
            };
            let ghost t2 = *tm;
            proof {
                assert(t2.place_of(handle) == t1.place_of(handle));
                lemma_usable(&t1);
                lemma_progress_looked(&t0, &t1, &t2, before, states);
            }
            if let Some(page) = page {
                if set_contains(sparse, page) {
                    if set_insert(&mut examined, page) {
                        count = count + 1;
                    }
                    match rewrite(tm, handle) {
                        Ok(_) => {},
                        Err(e) => {
                            return Err(e);
                        },
                    }
                    moved = moved + 1;
                    proof {
                        lemma_usable(tm);
                        lemma_moved(&t0, before, handle);
                        lemma_progress_moved(&t0, &t2, tm, before, states, handle);
                        states = states.push(tm.current());
                    }
                }
            }
        }
        i += 1;
    }
    proof {
        reveal(progress);
    }
    Ok((moved, count))
}

/// Move values off sparse data pages, within the running transaction, and report
/// the pages of former freemaps that its commit frees. A limit of 0 means no limit.
#[verifier::rlimit(60)]
#[verifier::spinoff_prover]
pub fn defrag(tm: &mut TransactionManager, sparse: &Vec<u64>, max_values: usize) -> (outcome: Result<
    DefragStats,
    ChiselError,
>)
    requires
        old(tm).inv(),
        old(tm).barred() is None ==> old(tm).room(moves_pages(old(tm).db().dom().len())),
    ensures
        old(tm).barred() matches Some(b) ==> outcome == Err::<DefragStats, ChiselError>(b) && *final(tm) == *old(tm),
        old(tm).barred() is None ==> {
            &&& data_kept(old(tm), final(tm))
            &&& final(tm).told() == (old(tm).told() || outcome is Ok && old(tm).marks().len() == 0)
            &&& outcome matches Ok(stats) ==> max_values > 0 ==> stats.values_moved <= max_values
            &&& match outcome {
                Ok(stats) => exists|list: Seq<u64>|
                    #[trigger] all_handles(old(tm), list) && swept(
                        old(tm),
                        final(tm),
                        list,
                        sparse@.to_set(),
                        max_values as nat,
                        stats,
                    ),
                Err(e) => overrun(&old(tm).current().cache, &final(tm).current().cache, e, moves_pages(old(tm).db().dom().len())),
            }
        },
{
    if tm.is_poisoned() {
        return Err(ChiselError::Poisoned);
    }
    if !tm.is_active() {
        return Err(ChiselError::NoActiveTransaction);
    }
    let ghost t0 = *tm;
    proof {
        lemma_running_vetted(&t0);
    }
    let mut wanted: FxHashSet<u64> = set_new();
    let mut i: usize = 0;
    while i < sparse.len()
        invariant
            i <= sparse@.len(),
            wanted@ == sparse@.take(i as int).to_set(),
        decreases sparse@.len() - i,
    {
        set_insert(&mut wanted, sparse[i]);
        proof {
            lemma_take_set(sparse@, i as int);
        }
        i += 1;
    }
    assert(sparse@.take(i as int) =~= sparse@);
    let initial: Vec<u64> = tm.data_page_ids_snapshot();
    let handles: Vec<u64> = match tm.handles() {
        Ok(handles) => handles,
        Err(e) => {
            return Err(e);
        },
    };
    let ghost t1 = *tm;
    proof {
        assert(all_handles(&t0, handles@));
        lemma_list_len(&t0, handles@);
        lemma_same_movers(&t0, &t1, handles@, wanted@, max_values as nat, handles@.len());
    }
    let (values_moved, pages_examined): (u64, u64) = match relocate(tm, &handles, &wanted, max_values) {
        Ok(done) => done,
        Err(e) => {
            return Err(e);
        },
    };
    let remaining: Vec<u64> = tm.data_page_ids_snapshot();
    let pages_freed: u64 = count_missing(&initial, &remaining);
    let ghost t2 = *tm;
    let freemap_orphans_reclaimed: u64 = tm.report_orphans();
    let stats = DefragStats { pages_examined, pages_freed, values_moved, freemap_orphans_reclaimed };
    proof {
        assert(tm.data_pages() == t2.data_pages());
        assert forall|h: u64| #[trigger] tm.place_of(h) == t2.place_of(h) by {}
        let moved = movers(&t0, handles@, wanted@, max_values as nat, handles@.len());
        assert(pages_of(&t0, moved) =~= pages_of(&t1, moved)) by {
            assert forall|h: u64| #[trigger] t1.place_of(h) == t0.place_of(h) by {}
        }
        assert forall|h: u64| !moved.contains(h) implies #[trigger] tm.place_of(h) == t0.place_of(h) by {
            assert(t1.place_of(h) == t0.place_of(h));
        }
        assert forall|h: u64| moved.contains(h) implies #[trigger] relocated(&t0, tm, h) by {
            assert(relocated(&t1, &t2, h));
            assert(t1.place_of(h) == t0.place_of(h));
            assert(tm.place_of(h) == t2.place_of(h));
        }
        let states = choose|states: Seq<Workspace>| #[trigger] packed(&t1, &t2, moved, states);
        lemma_usable(&t0);
        lemma_packed_looked(&t0, &t1, &t2, tm, moved, states);
        assert forall|h: u64| moved.contains(h) implies #[trigger] off_sparse(&t0, tm, sparse@.to_set(), h) by {
            assert(filled_in(&t1, &t2, h));
            lemma_off_sparse(&t0, &t1, tm, sparse@.to_set(), h);
        }
        assert(swept(&t0, tm, handles@, sparse@.to_set(), max_values as nat, stats));
    }
    Ok(stats)
}

/// A value that was moved lies where values are added, or on a page just handed out.
proof fn lemma_filled_in(t0: &TransactionManager, t1: &TransactionManager, t2: &TransactionManager, h: u64, n: nat)
    requires
        t1.hands_out_less(t0),
        t1.current().cursor matches Some(p) ==> fillable(t0, p),
        newly_placed(&t1.current(), &t2.current(), h, n),
    ensures
        filled_in(t0, t2, h),
        t2.current().cursor matches Some(p) ==> fillable(t0, p),
{
    reveal(next_in_line);
    assert(t1.current().recycler.footprint(&t1.current().cache).contains(t1.current().cache.watermark()));
}

/// How values were moved depends on where they are.
proof fn lemma_packed_same(
    t0: &TransactionManager,
    t1: &TransactionManager,
    t2: &TransactionManager,
    moved: Seq<u64>,
    states: Seq<Workspace>,
)
    requires
        packed(t0, t1, moved, states),
        forall|h: u64| #[trigger] t2.place_of(h) == t1.place_of(h),
    ensures
        packed(t0, t2, moved, states),
{
    reveal(packed);
}

/// One more value was moved.
proof fn lemma_packed(
    t0: &TransactionManager,
    t1: &TransactionManager,
    t2: &TransactionManager,
    moved: Seq<u64>,
    states: Seq<Workspace>,
    h: u64,
)
    requires
        packed(t0, t1, moved, states),
        states.len() == moved.len() + 1,
        looked(&states[moved.len() as int], &t1.current()),
        newly_placed(&t1.current(), &t2.current(), h, t0.db()[h].value.len()),
        goes_to(&states[moved.len() as int], t2.place_of(h)->0, t0.db()[h].value.len()),
        forall|k: u64| k != h ==> #[trigger] t2.place_of(k) == t1.place_of(k),
    ensures
        packed(t0, t2, moved.push(h), states.push(t2.current())),
{
    reveal(packed);
    let after = moved.push(h);
    let all = states.push(t2.current());
    let n = moved.len() as int;
    assert forall|i: int| 0 <= i < after.len() implies #[trigger] stepwise(t0, after, all, i) by {
        if i < n {
            assert(stepwise(t0, moved, states, i));
            assert(all[i] == states[i] && all[i + 1] == states[i + 1]);
            assert(after[i] == moved[i]);
        } else {
            assert(all[n] == states[n] && all[n + 1] == t2.current());
            assert forall|k: u64| k != h implies #[trigger] entry_of(
                all[n + 1].cache.contents(),
                all[n + 1].roots,
                k,
            ) == entry_of(all[n].cache.contents(), all[n].roots, k) by {
                assert(t2.place_of(k) == t1.place_of(k));
            }
        }
    }
}

/// Looking at pages before the first value is moved, and after the last, changes
/// nothing about how they were moved.
proof fn lemma_packed_looked(
    t0: &TransactionManager,
    t1: &TransactionManager,
    t2: &TransactionManager,
    t3: &TransactionManager,
    moved: Seq<u64>,
    states: Seq<Workspace>,
)
    requires
        looked(&t0.current(), &t1.current()),
        t0.current().usable(),
        t1.db() == t0.db(),
        packed(t1, t2, moved, states),
        forall|h: u64| #[trigger] t3.place_of(h) == t2.place_of(h),
    ensures
        packed(t0, t3, moved, states.update(0, t0.current())),
{
    reveal(packed);
    let all = states.update(0, t0.current());
    assert forall|i: int| 0 <= i < moved.len() implies #[trigger] stepwise(t0, moved, all, i) by {
        assert(stepwise(t1, moved, states, i));
        assert(all[i + 1] == states[i + 1]);
        if i == 0 {
            assert(all[0] == t0.current());
            let e = entry_of(states[1].cache.contents(), states[1].roots, moved[0])->0;
            lemma_placed_looked(&t0.current(), &t1.current(), e, t0.db()[moved[0]].value.len());
        } else {
            assert(all[i] == states[i]);
        }
    }
    assert forall|h: u64| #[trigger] t3.place_of(h) == entry_of(
        all[moved.len() as int].cache.contents(),
        all[moved.len() as int].roots,
        h,
    ) by {
        assert(t3.place_of(h) == t2.place_of(h));
        if moved.len() == 0 {
            assert(t2.place_of(h) == entry_of(states[0].cache.contents(), states[0].roots, h));
        }
    }
}

/// A page that is handed out held no value.
proof fn lemma_off_sparse(
    t0: &TransactionManager,
    t1: &TransactionManager,
    t2: &TransactionManager,
    sparse: Set<u64>,
    h: u64,
)
    requires
        t0.inv(),
        t0.barred() is None,
        looked(&t0.current(), &t1.current()),
        filled_in(t1, t2, h),
    ensures
        off_sparse(t0, t2, sparse, h),
{
    let p = t2.place_of(h)->0.page_id;
    lemma_running_vetted(t0);
    lemma_usable(t0);
    lemma_cow_look(&t0.current().recycler, &t0.current().cache, &t1.current().cache);
    law_data_pages(t0);
    if t0.data_pages().contains(p) {
        let k = choose|k: u64| #[trigger] lies_on(t0, k, p);
        lemma_not_handed_out(t0, k);
    }
}

/// Without a limit a pass drains every sparse page but the one that values were being
/// added to: none of them holds a value afterwards.
pub proof fn law_sparse_pages_drain(
    before: &TransactionManager,
    after: &TransactionManager,
    list: Seq<u64>,
    sparse: Set<u64>,
    stats: DefragStats,
    page: u64,
)
    requires
        before.inv(),
        before.barred() is None,
        after.inv(),
        after.barred() is None,
        all_handles(before, list),
        swept(before, after, list, sparse, 0, stats),
        after.db() == before.db(),
        sparse.contains(page),
        before.data_pages().contains(page),
        before.current().cursor != Some(page),
    ensures
        !after.data_pages().contains(page),
        before.data_pages().difference(after.data_pages()).contains(page),
{
    lemma_running_vetted(before);
    lemma_running_vetted(after);
    law_data_pages(before);
    law_data_pages(after);
    let moved = movers(before, list, sparse, 0, list.len());
    if after.data_pages().contains(page) {
        let k = choose|k: u64| #[trigger] lies_on(after, k, page);
        assert(after.db().contains_key(k));
        assert(list.contains(k));
        if moved.contains(k) {
            assert(off_sparse(before, after, sparse, k));
        } else {
            assert(after.place_of(k) == before.place_of(k));
            let i = list.index_of(k);
            lemma_all_move(before, list, sparse, list.len(), i);
        }
    }
}

/// The handles whose values lie on pages out of a set.
pub open spec fn handles_on(tm: &TransactionManager, pages: Set<u64>) -> Set<u64> {
    Set::new(
        |h: u64|
            (tm.place_of(h) matches Some(e) && e.flags == HandleFlags::Live && pages.contains(e.page_id)),
    )
}

/// The handles whose values have another place than before.
pub open spec fn handles_moved(before: &TransactionManager, after: &TransactionManager) -> Set<u64> {
    Set::new(|h: u64| after.place_of(h) != before.place_of(h))
}

/// A pass with a cap moves no more values than the cap, and as many as it can: as many
/// as lie on sparse pages, or as the cap allows. It moves those of the lowest handles,
/// and none that does not lie on a sparse page. A cap of zero is none. What it reports
/// is the number of handles whose place has changed, and the number of pages they lay on.
pub proof fn law_defrag_keeps_to_its_cap(
    before: &TransactionManager,
    after: &TransactionManager,
    list: Seq<u64>,
    sparse: Set<u64>,
    max: nat,
    stats: DefragStats,
)
    requires
        all_handles(before, list),
        swept(before, after, list, sparse, max, stats),
    ensures
        handles_moved(before, after).finite(),
        handles_on(before, sparse).finite(),
        stats.values_moved == handles_moved(before, after).len(),
        max > 0 ==> stats.values_moved <= max,
        max > 0 && handles_on(before, sparse).len() > max ==> stats.values_moved == max,
        max == 0 || handles_on(before, sparse).len() <= max ==> handles_moved(before, after) == handles_on(
            before,
            sparse,
        ),
        handles_moved(before, after).subset_of(handles_on(before, sparse)),
        forall|h: u64, k: u64| #[trigger]
            handles_moved(before, after).contains(h) && #[trigger] handles_on(before, sparse).contains(k)
                && !handles_moved(before, after).contains(k) ==> h < k,
        stats.pages_examined == Set::new(
            |p: u64| exists|h: u64| #[trigger] handles_moved(before, after).contains(h) && lies_on(before, h, p),
        ).len(),
{
    let n = list.len();
    let moved = movers(before, list, sparse, max, n);
    let all = movers(before, list, sparse, 0, n);
    let changed = handles_moved(before, after);
    let there = handles_on(before, sparse);
    lemma_movers_capped(before, list, sparse, max, n);
    lemma_movers_all(before, list, sparse, n);
    assert(forall|i: int| 0 <= i < moved.len() ==> #[trigger] moved[i] == all[i]);
    assert(changed =~= moved.to_set()) by {
        assert forall|h: u64| changed.contains(h) == moved.to_set().contains(h) by {
            if moved.contains(h) {
                assert(relocated(before, after, h));
            }
        }
    }
    assert(there =~= all.to_set()) by {
        assert forall|h: u64| there.contains(h) == all.to_set().contains(h) by {
            if there.contains(h) {
                assert(before.db().contains_key(h));
                assert(list.contains(h));
                let k = list.index_of(h);
                assert(all.contains(list[k]));
            }
            if all.contains(h) {
                let i = all.index_of(h);
                assert(on_sparse(before, all[i], sparse));
            }
        }
    }
    assert(all.no_duplicates());
    assert(moved.no_duplicates());
    all.unique_seq_to_set();
    moved.unique_seq_to_set();
    if max == 0 || all.len() <= max {
        assert(moved =~= all);
    }
    assert forall|h: u64| changed.contains(h) implies there.contains(h) by {
        let i = moved.index_of(h);
        assert(all[i] == h);
    }
    assert forall|h: u64, k: u64| #[trigger] changed.contains(h) && #[trigger] there.contains(k) && !changed.contains(
        k,
    ) implies h < k by {
        let i = moved.index_of(h);
        let j = all.index_of(k);
        if j < moved.len() {
            assert(moved[j] == k);
        }
        assert(all[i] < all[j]);
    }
    let pages = Set::new(|p: u64| exists|h: u64| #[trigger] changed.contains(h) && lies_on(before, h, p));
    assert(pages =~= pages_of(before, moved)) by {
        assert forall|p: u64| pages.contains(p) == pages_of(before, moved).contains(p) by {
            if pages.contains(p) {
                let h = choose|h: u64| #[trigger] changed.contains(h) && lies_on(before, h, p);
                let i = moved.index_of(h);
                assert(before.place_of(moved[i])->0.page_id == p);
            }
            if pages_of(before, moved).contains(p) {
                let i = choose|i: int| 0 <= i < moved.len() && before.place_of(#[trigger] moved[i])->0.page_id == p;
                assert(changed.contains(moved[i]));
                assert(on_sparse(before, all[i], sparse));
                assert(lies_on(before, moved[i], p));
            }
        }
    }
}

/// With a cap, the first of those that would be moved without one are moved.
proof fn lemma_movers_capped(tm: &TransactionManager, list: Seq<u64>, sparse: Set<u64>, max: nat, i: nat)
    requires
        i <= list.len(),
    ensures
        ({
            let all = movers(tm, list, sparse, 0, i);
            movers(tm, list, sparse, max, i) == (if max == 0 || all.len() <= max {
                all
            } else {
                all.take(max as int)
            })
        }),
    decreases i,
{
    if i > 0 {
        lemma_movers_capped(tm, list, sparse, max, (i - 1) as nat);
        let before = movers(tm, list, sparse, 0, (i - 1) as nat);
        if max > 0 && before.len() >= max && on_sparse(tm, list[i - 1], sparse) {
            assert(before.push(list[i - 1]).take(max as int) =~= before.take(max as int));
            assert(before.take(max as int).len() == max);
            if before.len() == max {
                assert(before.take(max as int) =~= before);
            }
        } else if max > 0 && before.len() == max {
            assert(before.take(max as int) =~= before);
        }
    }
}

/// Without a cap all handles on sparse pages are moved, in ascending order.
proof fn lemma_movers_all(tm: &TransactionManager, list: Seq<u64>, sparse: Set<u64>, i: nat)
    requires
        i <= list.len(),
        ascending(list),
    ensures
        ({
            let all = movers(tm, list, sparse, 0, i);
            &&& forall|k: int| 0 <= k < i && on_sparse(tm, #[trigger] list[k], sparse) ==> all.contains(list[k])
            &&& forall|k: int| 0 <= k < all.len() ==> on_sparse(tm, #[trigger] all[k], sparse)
            &&& forall|k: int| 0 <= k < all.len() ==> exists|m: int| 0 <= m < i && #[trigger] list[m] == #[trigger] all[k]
            &&& forall|a: int, b: int| 0 <= a < b < all.len() ==> #[trigger] all[a] < #[trigger] all[b]
        }),
    decreases i,
{
    let all = movers(tm, list, sparse, 0, i);
    if i > 0 {
        lemma_movers_all(tm, list, sparse, (i - 1) as nat);
        let before = movers(tm, list, sparse, 0, (i - 1) as nat);
        assert forall|k: int| 0 <= k < i && on_sparse(tm, #[trigger] list[k], sparse) implies all.contains(list[k]) by {
            if k < i - 1 {
                let j = before.index_of(list[k]);
                assert(before.contains(list[k]));
                assert(all[j] == list[k]);
            } else {
                assert(all[before.len() as int] == list[k]);
            }
        }
        assert forall|k: int| 0 <= k < all.len() implies exists|m: int| 0 <= m < i && #[trigger] list[m]
            == #[trigger] all[k] by {
            if k < before.len() {
                let m = choose|m: int| 0 <= m < i - 1 && #[trigger] list[m] == before[k];
                assert(list[m] == all[k]);
            } else {
                assert(list[i - 1] == all[k]);
            }
        }
        assert forall|a: int, b: int| 0 <= a < b < all.len() implies #[trigger] all[a] < #[trigger] all[b] by {
            if b == before.len() {
                let m = choose|m: int| 0 <= m < i - 1 && #[trigger] list[m] == before[a];
                assert(list[m] < list[i - 1]);
            } else {
                assert(before[a] < before[b]);
            }
        }
        assert forall|k: int| 0 <= k < all.len() implies on_sparse(tm, #[trigger] all[k], sparse) by {
            if k < before.len() {
                assert(on_sparse(tm, before[k], sparse));
            }
        }
    }
}

/// Without a limit every handle on a sparse page is moved.
proof fn lemma_all_move(tm: &TransactionManager, list: Seq<u64>, sparse: Set<u64>, n: nat, i: int)
    requires
        0 <= i < n <= list.len(),
        on_sparse(tm, list[i], sparse),
    ensures
        movers(tm, list, sparse, 0, n).contains(list[i]),
    decreases n,
{
    let before = movers(tm, list, sparse, 0, (n - 1) as nat);
    if i == n - 1 {
        assert(before.push(list[i])[before.len() as int] == list[i]);
    } else {
        lemma_all_move(tm, list, sparse, (n - 1) as nat, i);
        let j = before.index_of(list[i]);
        assert(before.push(list[n - 1])[j] == list[i]);
    }
}

/// Moving further values leaves the place of one that was moved before.
proof fn lemma_place_stays(
    before: &TransactionManager,
    after: &TransactionManager,
    moved: Seq<u64>,
    states: Seq<Workspace>,
    i: int,
    j: int,
)
    requires
        packed(before, after, moved, states),
        moved.no_duplicates(),
        0 <= i < j <= moved.len(),
    ensures
        entry_of(states[j].cache.contents(), states[j].roots, moved[i]) == entry_of(
            states[i + 1].cache.contents(),
            states[i + 1].roots,
            moved[i],
        ),
    decreases j,
{
    if i + 1 < j {
        reveal(packed);
        lemma_place_stays(before, after, moved, states, i, j - 1);
        assert(stepwise(before, moved, states, j - 1));
        assert(moved[i] != moved[j - 1]);
    }
}

/// A pass packs the values that it moves: each goes behind the one before as long as the page
/// has room for it and its slot, takes its own length and six bytes there, and stays there.
pub proof fn law_defrag_packs_values(
    before: &TransactionManager,
    after: &TransactionManager,
    moved: Seq<u64>,
    states: Seq<Workspace>,
    i: int,
)
    requires
        packed(before, after, moved, states),
        moved.no_duplicates(),
        0 <= i < moved.len(),
        before.db()[moved[i]].value.len() <= 8162,
    ensures
        ({
            let n = before.db()[moved[i]].value.len();
            let (w0, w1) = (states[i], states[i + 1]);
            after.place_of(moved[i]) matches Some(e) && {
                &&& e.flags == HandleFlags::Live
                &&& w1.cursor == Some(e.page_id)
                &&& w0.cursor matches Some(page) ==> room_of(w0.cache.contents()[page]) >= n + 6 ==> {
                    &&& e.page_id == page
                    &&& room_of(w1.cache.contents()[page]) == room_of(w0.cache.contents()[page]) - n - 6
                }
                &&& w0.cursor is None || room_of(w0.cache.contents()[w0.cursor->0]) < n + 6 ==> {
                    &&& e.slot_index == 0
                    &&& room_of(w1.cache.contents()[e.page_id]) == 8168 - n - 6
                }
            }
        }),
        states[0] == before.current(),
        states.len() == moved.len() + 1,
{
    lemma_place_stays(before, after, moved, states, i, moved.len() as int);
    reveal(packed);
    assert(stepwise(before, moved, states, i));
    let n = moved.len() as int;
    assert(after.place_of(moved[i]) == entry_of(states[n].cache.contents(), states[n].roots, moved[i]));
}

/// A pass that moves nothing frees no page.
pub proof fn law_nothing_moved(
    before: &TransactionManager,
    after: &TransactionManager,
    list: Seq<u64>,
    sparse: Set<u64>,
    max: nat,
    stats: DefragStats,
)
    requires
        before.inv(),
        before.barred() is None,
        after.inv(),
        after.barred() is None,
        swept(before, after, list, sparse, max, stats),
        stats.values_moved == 0,
    ensures
        after.data_pages() == before.data_pages(),
        stats.pages_freed == 0,
{
    lemma_running_vetted(before);
    lemma_running_vetted(after);
    law_data_pages(before);
    law_data_pages(after);
    let moved = movers(before, list, sparse, max, list.len());
    assert forall|p: u64| after.data_pages().contains(p) == before.data_pages().contains(p) by {
        if after.data_pages().contains(p) {
            let k = choose|k: u64| #[trigger] lies_on(after, k, p);
            assert(after.place_of(k) == before.place_of(k));
            assert(lies_on(before, k, p));
        }
        if before.data_pages().contains(p) {
            let k = choose|k: u64| #[trigger] lies_on(before, k, p);
            assert(after.place_of(k) == before.place_of(k));
            assert(lies_on(after, k, p));
        }
    }
    assert(after.data_pages() =~= before.data_pages());
    assert(before.data_pages().difference(after.data_pages()) =~= Set::<u64>::empty());
}

/// Looking at pages does not change what is to be moved.
proof fn lemma_same_movers(
    a: &TransactionManager,
    b: &TransactionManager,
    list: Seq<u64>,
    sparse: Set<u64>,
    max: nat,
    i: nat,
)
    requires
        forall|h: u64| #[trigger] b.place_of(h) == a.place_of(h),
    ensures
        movers(b, list, sparse, max, i) == movers(a, list, sparse, max, i),
    decreases i,
{
    if i > 0 {
        lemma_same_movers(a, b, list, sparse, max, (i - 1) as nat);
        assert(b.place_of(list[i - 1]) == a.place_of(list[i - 1]));
    }
}

/// The list is as long as there are handles.
proof fn lemma_list_len(tm: &TransactionManager, list: Seq<u64>)
    requires
        all_handles(tm, list),
    ensures
        list.len() == tm.db().dom().len(),
{
    assert(list.no_duplicates());
    list.unique_seq_to_set();
    assert(list.to_set() =~= tm.db().dom()) by {
        assert forall|h: u64| list.to_set().contains(h) == tm.db().dom().contains(h) by {
            assert(list.contains(h) <==> tm.db().contains_key(h));
        }
    }
}

} // verus!
