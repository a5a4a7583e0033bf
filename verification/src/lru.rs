//! Constant-time LRU index over page ids.
//!
//! A doubly linked list over ids whose neighbour pointers live in one hash
//! map. `head` is the most recently used end, `tail` the least recently used.
//! The view of an index is the sequence of its ids from LRU to MRU.

use vstd::prelude::*;

use crate::fx::{map_contains, map_get, map_get_mut, map_insert, map_len, map_new, map_remove};
use rustc_hash::FxHashMap;

verus! {

#[derive(Debug, Clone, Copy)]
struct Node {
    prev: Option<u64>,
    next: Option<u64>,
}

/// An LRU order over page ids.
pub struct LruIndex {
    head: Option<u64>,
    tail: Option<u64>,
    nodes: FxHashMap<u64, Node>,
    order: Ghost<Seq<u64>>,
}

/// `s` without `id`.
pub open spec fn without(s: Seq<u64>, id: u64) -> Seq<u64> {
    if s.contains(id) {
        s.remove(s.index_of(id))
    } else {
        s
    }
}

/// The first element of `s`, if any.
spec fn front(s: Seq<u64>) -> Option<u64> {
    if s.len() == 0 {
        None
    } else {
        Some(s[0])
    }
}

/// The last element of `s`, if any.
spec fn back(s: Seq<u64>) -> Option<u64> {
    if s.len() == 0 {
        None
    } else {
        Some(s[s.len() - 1])
    }
}

/// The element of `s` at `i`, if `i` is in range.
spec fn at(s: Seq<u64>, i: int) -> Option<u64> {
    if 0 <= i < s.len() {
        Some(s[i])
    } else {
        None
    }
}

/// The nodes of `order` are linked to their neighbours in `order`, which runs
/// from the tail to the head.
spec fn linked(nodes: Map<u64, Node>, order: Seq<u64>) -> bool {
    forall|i: int| 0 <= i < order.len() ==> #[trigger] link_ok(nodes, order, i)
}

/// The node of `order[i]` points to its neighbours.
spec fn link_ok(nodes: Map<u64, Node>, order: Seq<u64>, i: int) -> bool {
    &&& nodes.contains_key(order[i])
    &&& nodes[order[i]].prev == at(order, i + 1)
    &&& nodes[order[i]].next == at(order, i - 1)
}

impl View for LruIndex {
    type V = Seq<u64>;

    closed spec fn view(&self) -> Seq<u64> {
        self.order@
    }
}

pub proof fn lemma_without(s: Seq<u64>, id: u64)
    requires
        s.no_duplicates(),
    ensures
        without(s, id).no_duplicates(),
        without(s, id).to_set() == s.to_set().remove(id),
        !without(s, id).contains(id),
        forall|x: u64| without(s, id).contains(x) <==> s.contains(x) && x != id,
        without(s, id).len() == (if s.contains(id) { s.len() - 1 } else { s.len() as int }),
{
    let w = without(s, id);
    if s.contains(id) {
        let k = s.index_of(id);
        assert(s[k] == id);
        assert(w == s.remove(k));
        assert forall|x: u64| w.contains(x) <==> s.contains(x) && x != id by {
            if w.contains(x) {
                let j = w.index_of(x);
                assert(w[j] == (if j < k { s[j] } else { s[j + 1] }));
            }
            if s.contains(x) && x != id {
                let j = s.index_of(x);
                if j < k {
                    assert(w[j] == x);
                } else {
                    assert(w[j - 1] == x);
                }
            }
        }
        assert(w.no_duplicates()) by {
            assert forall|i: int, j: int| 0 <= i < w.len() && 0 <= j < w.len() && i != j implies w[i] != w[j] by {
                let a = if i < k { i } else { i + 1 };
                let b = if j < k { j } else { j + 1 };
                assert(w[i] == s[a] && w[j] == s[b]);
            }
        }
    }
    assert(w.to_set() =~= s.to_set().remove(id));
}

impl LruIndex {
    /// The links spell out the view, which holds each id once.
    pub closed spec fn inv(&self) -> bool {
        &&& self.order@.no_duplicates()
        &&& self.nodes@.dom() == self.order@.to_set()
        &&& self.head == back(self.order@)
        &&& self.tail == front(self.order@)
        &&& linked(self.nodes@, self.order@)
    }

    /// No id occurs twice.
    pub proof fn lemma_no_duplicates(&self)
        requires
            self.inv(),
        ensures
            self@.no_duplicates(),
    {
    }

    /// An empty index.
    pub fn new() -> (index: Self)
        ensures
            index.inv(),
            index@ == Seq::<u64>::empty(),
    {
        let nodes = map_new();
        assert(Seq::<u64>::empty().to_set() =~= Set::<u64>::empty());
        LruIndex { head: None, tail: None, nodes, order: Ghost(Seq::empty()) }
    }

    /// Number of ids.
    pub fn len(&self) -> (n: usize)
        requires
            self.inv(),
        ensures
            n == self@.len(),
    {
        proof {
            self.order@.unique_seq_to_set();
        }
        map_len(&self.nodes)
    }

    /// Whether the index holds no id.
    pub fn is_empty(&self) -> (empty: bool)
        requires
            self.inv(),
        ensures
            empty == (self@.len() == 0),
    {
        self.len() == 0
    }

    /// Whether `id` is in the index.
    pub fn contains(&self, id: u64) -> (found: bool)
        requires
            self.inv(),
        ensures
            found == self@.contains(id),
    {
        map_contains(&self.nodes, id)
    }

    /// The most recently used id.
    pub fn head(&self) -> (id: Option<u64>)
        requires
            self.inv(),
        ensures
            id == (if self@.len() == 0 { None } else { Some(self@.last()) }),
    {
        self.head
    }

    /// The least recently used id.
    pub fn tail(&self) -> (id: Option<u64>)
        requires
            self.inv(),
        ensures
            id == (if self@.len() == 0 { None } else { Some(self@.first()) }),
    {
        self.tail
    }

    /// Set `id` as the most recently used, inserting it if it is absent.
    pub fn push_front(&mut self, id: u64)
        requires
            old(self).inv(),
        ensures
            final(self).inv(),
            final(self)@ == without(old(self)@, id).push(id),
    {
        let ghost rest = without(self.order@, id);
        proof {
            lemma_without(self.order@, id);
        }
        if self.contains(id) {
            self.unlink(id);
        }
        let ghost nodes0 = self.nodes@;
        let new_node = Node { prev: None, next: self.head };
        match self.head {
            Some(old_head) => {
                if let Some(n) = map_get_mut(&mut self.nodes, old_head) {
                    n.prev = Some(id);
                }
            },
            None => {
                self.tail = Some(id);
            },
        }
        map_insert(&mut self.nodes, id, new_node);
        self.head = Some(id);
        self.order = Ghost(rest.push(id));
        proof {
            let order = rest.push(id);
            assert(order.to_set() =~= rest.to_set().insert(id)) by {
                assert forall|x: u64| order.to_set().contains(x) == rest.to_set().insert(id).contains(x) by {
                    if rest.contains(x) {
                        assert(order[rest.index_of(x)] == x);
                    }
                    assert(order[rest.len() as int] == id);
                }
            }
            assert(self.nodes@.dom() =~= order.to_set());
            assert forall|i: int| 0 <= i < order.len() implies #[trigger] link_ok(self.nodes@, order, i) by {
                if i < rest.len() {
                    assert(link_ok(nodes0, rest, i));
                    assert(order[i] == rest[i]);
                    assert(rest.contains(rest[i]));
                    assert(i + 1 < rest.len() ==> rest[i] != rest[rest.len() - 1]);
                }
            }
        }
    }

    /// Set `id` as the least recently used, inserting it if it is absent.
    pub fn push_back(&mut self, id: u64)
        requires
            old(self).inv(),
        ensures
            final(self).inv(),
            final(self)@ == seq![id] + without(old(self)@, id),
    {
        let ghost rest = without(self.order@, id);
        proof {
            lemma_without(self.order@, id);
        }
        if self.contains(id) {
            self.unlink(id);
        }
        let ghost nodes0 = self.nodes@;
        let new_node = Node { prev: self.tail, next: None };
        match self.tail {
            Some(old_tail) => {
                if let Some(n) = map_get_mut(&mut self.nodes, old_tail) {
                    n.next = Some(id);
                }
            },
            None => {
                self.head = Some(id);
            },
        }
        map_insert(&mut self.nodes, id, new_node);
        self.tail = Some(id);
        self.order = Ghost(seq![id] + rest);
        proof {
            let order = seq![id] + rest;
            assert(order.to_set() =~= rest.to_set().insert(id)) by {
                assert forall|x: u64| order.to_set().contains(x) == rest.to_set().insert(id).contains(x) by {
                    if rest.contains(x) {
                        assert(order[rest.index_of(x) + 1] == x);
                    }
                    if order.contains(x) {
                        let j = order.index_of(x);
                        assert(j == 0 || rest[j - 1] == x);
                    }
                    assert(order[0] == id);
                }
            }
            assert(self.nodes@.dom() =~= order.to_set());
            assert forall|i: int| 0 <= i < order.len() implies #[trigger] link_ok(self.nodes@, order, i) by {
                if i > 0 {
                    assert(link_ok(nodes0, rest, i - 1));
                    assert(order[i] == rest[i - 1]);
                    assert(rest.contains(rest[i - 1]));
                    assert(i > 1 ==> rest[i - 1] != rest[0]);
                }
            }
        }
    }

    /// Remove `id`. Returns whether it was present.
    pub fn remove(&mut self, id: u64) -> (present: bool)
        requires
            old(self).inv(),
        ensures
            final(self).inv(),
            present == old(self)@.contains(id),
            final(self)@ == without(old(self)@, id),
    {
        proof {
            lemma_without(self.order@, id);
        }
        if !self.contains(id) {
            return false;
        }
        let ghost rest = without(self.order@, id);
        self.unlink(id);
        let ghost nodes0 = self.nodes@;
        map_remove(&mut self.nodes, id);
        self.order = Ghost(rest);
        proof {
            assert(self.nodes@.dom() =~= rest.to_set());
            assert forall|i: int| 0 <= i < rest.len() implies #[trigger] link_ok(self.nodes@, rest, i) by {
                assert(link_ok(nodes0, rest, i));
                assert(rest.contains(rest[i]));
            }
        }
        true
    }

    /// Walk from the least recently used id toward the most recently used.
    pub fn iter_lru_to_mru(&self) -> (iter: LruIter<'_>)
        requires
            self.inv(),
        ensures
            iter.inv(),
            iter.ids() == self@,
            iter.index() == 0,
    {
        LruIter { idx: self, cursor: self.tail, pos: Ghost(0) }
    }

    /// Take `id` out of the links, leaving its own node in the map.
    fn unlink(&mut self, id: u64)
        requires
            old(self).inv(),
            old(self)@.contains(id),
        ensures
            final(self).nodes@.dom() == old(self).nodes@.dom(),
            final(self).order == old(self).order,
            linked(final(self).nodes@, without(old(self)@, id)),
            final(self).head == back(without(old(self)@, id)),
            final(self).tail == front(without(old(self)@, id)),
    {
        let ghost order = self.order@;
        let ghost k = order.index_of(id);
        let ghost rest = without(order, id);
        let ghost nodes0 = self.nodes@;
        proof {
            assert(order[k] == id);
            assert(link_ok(nodes0, order, k));
            lemma_without(order, id);
            assert(k > 0 ==> link_ok(nodes0, order, k - 1));
            assert(k + 1 < order.len() ==> link_ok(nodes0, order, k + 1));
        }
        let node = match map_get(&self.nodes, id) {
            Some(n) => *n,
            None => {
                return;
            },
        };
        match node.prev {
            Some(prev_id) => {
                if let Some(p) = map_get_mut(&mut self.nodes, prev_id) {
                    p.next = node.next;
                }
            },
            None => {
                self.head = node.next;
            },
        }
        match node.next {
            Some(next_id) => {
                if let Some(n) = map_get_mut(&mut self.nodes, next_id) {
                    n.prev = node.prev;
                }
            },
            None => {
                self.tail = node.prev;
            },
        }
        proof {
            assert forall|i: int| 0 <= i < rest.len() implies #[trigger] link_ok(self.nodes@, rest, i) by {
                let j = if i < k { i } else { i + 1 };
                assert(link_ok(nodes0, order, j));
                assert(rest[i] == order[j]);
                assert(order.contains(order[j]));
                assert(order[j] != id);
                assert(k > 0 ==> (order[j] == order[k - 1] <==> j == k - 1));
                assert(k + 1 < order.len() ==> (order[j] == order[k + 1] <==> j == k + 1));
            }
            assert(self.nodes@.dom() =~= old(self).nodes@.dom());
        }
    }
}

/// A walk over an [`LruIndex`].
pub struct LruIter<'a> {
    idx: &'a LruIndex,
    cursor: Option<u64>,
    pos: Ghost<int>,
}

impl<'a> LruIter<'a> {
    /// The cursor stands at position `index()` of the walked sequence.
    pub closed spec fn inv(&self) -> bool {
        &&& self.idx.inv()
        &&& 0 <= self.pos@ <= self.idx.order@.len()
        &&& self.cursor == at(self.idx.order@, self.pos@)
    }

    /// The sequence that is walked.
    pub closed spec fn ids(&self) -> Seq<u64> {
        self.idx@
    }

    /// How many ids were handed out.
    pub closed spec fn index(&self) -> int {
        self.pos@
    }

    pub proof fn lemma_bounds(&self)
        requires
            self.inv(),
        ensures
            0 <= self.index() <= self.ids().len(),
    {
    }

    /// The next id toward the MRU end.
    pub fn next(&mut self) -> (id: Option<u64>)
        requires
            old(self).inv(),
        ensures
            final(self).inv(),
            final(self).ids() == old(self).ids(),
            match id {
                Some(v) => {
                    &&& old(self).index() < old(self).ids().len()
                    &&& v == old(self).ids()[old(self).index()]
                    &&& final(self).index() == old(self).index() + 1
                },
                None => {
                    &&& old(self).index() == old(self).ids().len()
                    &&& final(self).index() == old(self).index()
                },
            },
    {
        let cur: u64 = match self.cursor {
            Some(id) => id,
            None => {
                return None;
            },
        };
        let ghost order = self.idx.order@;
        let ghost pos = self.pos@;
        assert(link_ok(self.idx.nodes@, order, pos));
        self.cursor = match map_get(&self.idx.nodes, cur) {
            Some(n) => n.prev,
            None => None,
        };
        self.pos = Ghost(pos + 1);
        Some(cur)
    }
}

} // verus!
