//! A doubly linked list whose nodes live in a [`ValuePool`], with stable
//! view handles and positional access that walks from the nearer end.

use vstd::prelude::*;

use crate::pool::ValuePool;
use crate::refs::ValueRef;

verus! {

/// A node of the list: the stored value plus the arena positions of its
/// neighbours.
#[derive(Clone, Debug)]
struct DoubleLinkedNode<T> {
    value: T,
    prev: Option<ValueRef<DoubleLinkedNode<T>>>,
    next: Option<ValueRef<DoubleLinkedNode<T>>>,
}

/// An opaque handle to a node of a [`DoubleLinkedList`]: it allows re-entry
/// into the list at a remembered location in constant time, and stays valid
/// exactly as long as the node has not been removed or relocated.
#[derive(Debug, PartialEq, Eq)]
pub struct DoubleLinkedView<T> {
    store_index: ValueRef<DoubleLinkedNode<T>>,
}

impl<T> DoubleLinkedView<T> {
    /// The arena position this view points at.
    pub closed spec fn pos(self) -> int {
        self.store_index.pos()
    }

    fn new(v: ValueRef<DoubleLinkedNode<T>>) -> (r: DoubleLinkedView<T>)
        ensures
            r.pos() == v.pos(),
    {
        DoubleLinkedView { store_index: v }
    }
}

/// The arena position a link field points at, if any.
spec fn link_of<T>(o: Option<ValueRef<DoubleLinkedNode<T>>>) -> Option<int> {
    match o {
        None => None,
        Some(r) => Some(r.pos()),
    }
}

/// A doubly linked list backed by a [`ValuePool`]: nodes are arena entries
/// chained by arena positions, and `start`/`end` track the head and tail.
#[derive(Clone)]
pub struct DoubleLinkedList<T> {
    store: ValuePool<DoubleLinkedNode<T>>,
    start: ValueRef<DoubleLinkedNode<T>>,
    end: ValueRef<DoubleLinkedNode<T>>,
    nodes: Ghost<Seq<int>>,
}

impl<T> View for DoubleLinkedList<T> {
    type V = Seq<T>;

    /// The values of the list, head first.
    closed spec fn view(&self) -> Seq<T> {
        Seq::new(self.nodes@.len(), |k: int| self.node(self.nodes@[k]).value)
    }
}

impl<T> DoubleLinkedList<T> {
    /// The arena positions of the nodes, in list order.
    pub closed spec fn chain(self) -> Seq<int> {
        self.nodes@
    }

    /// The node stored at arena position `p`.
    spec fn node(self, p: int) -> DoubleLinkedNode<T> {
        self.store.slots()[p].unwrap()
    }

    /// The node at chain position `k` is stored, and its links point at its
    /// chain neighbours.
    spec fn valid_at(self, k: int) -> bool {
        let p = self.chain()[k];
        &&& 0 <= p < self.store.slots().len()
        &&& self.store.slots()[p] is Some
        &&& link_of(self.node(p).prev) == (if k == 0 {
            None::<int>
        } else {
            Some(self.chain()[k - 1])
        })
        &&& link_of(self.node(p).next) == (if k == self.chain().len() - 1 {
            None::<int>
        } else {
            Some(self.chain()[k + 1])
        })
    }

    /// Well-formedness: the arena is intact, the chain lists every stored
    /// node exactly once, neighbouring links agree with the chain, and
    /// `start`/`end` are the first and last chain entries.
    pub closed spec fn wf(self) -> bool {
        &&& self.store.wf()
        &&& self.chain().len() == self.store.spec_element_count()
        &&& forall|k: int| 0 <= k < self.chain().len() ==> #[trigger] self.valid_at(k)
        &&& forall|k1: int, k2: int|
            0 <= k1 < k2 < self.chain().len() ==> self.chain()[k1] != self.chain()[k2]
        &&& forall|p: int|
            0 <= p < self.store.slots().len() && (#[trigger] self.store.slots()[p]) is Some
                ==> self.chain().contains(p)
        &&& (self.chain().len() > 0 ==> self.start.pos() == self.chain()[0] && self.end.pos()
            == self.chain().last())
    }

    /// Whether `v` is the view of the node at logical position `k`.
    pub open spec fn view_at(self, v: DoubleLinkedView<T>, k: int) -> bool {
        0 <= k < self.chain().len() && self.chain()[k] == v.pos()
    }

    /// Whether `v` points at some live node of the list.
    pub open spec fn view_valid(self, v: DoubleLinkedView<T>) -> bool {
        exists|k: int| self.view_at(v, k)
    }

    /// The logical position of the node `v` points at.
    pub open spec fn view_index(self, v: DoubleLinkedView<T>) -> int {
        choose|k: int| self.view_at(v, k)
    }

    /// The value of the list at position `i`, if `i` is in range.
    pub open spec fn spec_get(self, i: int) -> Option<T> {
        if 0 <= i < self@.len() {
            Some(self@[i])
        } else {
            None
        }
    }

    /// The value the view currently denotes, if the view is valid.
    pub open spec fn spec_peek(self, v: DoubleLinkedView<T>) -> Option<T> {
        if self.view_valid(v) {
            Some(self@[self.view_index(v)])
        } else {
            None
        }
    }

    /// A view identifies at most one logical position.
    pub proof fn lemma_view_index(self, v: DoubleLinkedView<T>, k: int)
        requires
            self.wf(),
            self.view_at(v, k),
        ensures
            self.view_index(v) == k,
    {
        let k2 = self.view_index(v);
        assert(self.view_at(v, k2));
        if k2 != k {
            if k < k2 {
                assert(self.chain()[k] != self.chain()[k2]);
            } else {
                assert(self.chain()[k2] != self.chain()[k]);
            }
        }
    }

    /// Creates a new, empty list.
    pub fn new() -> (r: DoubleLinkedList<T>)
        ensures
            r.wf(),
            r@ == Seq::<T>::empty(),
            r.chain() == Seq::<int>::empty(),
    {
        let store: ValuePool<DoubleLinkedNode<T>> = ValuePool::new();
        let r = DoubleLinkedList {
            store,
            start: ValueRef::new(0),
            end: ValueRef::new(0),
            nodes: Ghost(Seq::empty()),
        };
        proof {
            assert(r@ =~= Seq::<T>::empty());
        }
        r
    }

    /// Creates a new, empty list whose arena can hold `capacity` nodes
    /// before reallocating.
    pub fn with_capacity(capacity: usize) -> (r: DoubleLinkedList<T>)
        ensures
            r.wf(),
            r@ == Seq::<T>::empty(),
            r.chain() == Seq::<int>::empty(),
    {
        let store: ValuePool<DoubleLinkedNode<T>> = ValuePool::with_capacity(capacity);
        let r = DoubleLinkedList {
            store,
            start: ValueRef::new(0),
            end: ValueRef::new(0),
            nodes: Ghost(Seq::empty()),
        };
        proof {
            assert(r@ =~= Seq::<T>::empty());
        }
        r
    }

    /// The number of elements in the list.
    pub fn len(&self) -> (r: usize)
        requires
            self.wf(),
        ensures
            r == self@.len(),
    {
        self.store.element_count()
    }

    /// Appends `value` at the tail and returns a view of the new node.
    pub fn push(&mut self, value: T) -> (r: DoubleLinkedView<T>)
        requires
            old(self).wf(),
        ensures
            final(self).wf(),
            final(self)@ == old(self)@.push(value),
            final(self).chain() == old(self).chain().push(r.pos()),
            final(self).view_at(r, old(self)@.len() as int),
    {
        let ghost pre = *old(self);
        if self.store.element_count() == 0 {
            let node = DoubleLinkedNode { value, prev: None, next: None };
            let new_ref = self.store.push(node);
            self.start = new_ref;
            self.end = new_ref;
            self.nodes = Ghost(self.nodes@.push(new_ref.pos()));
            proof {
                crate::pool::lemma_push_element_count(
                    pre.store,
                    self.store,
                    new_ref,
                    node_spec(value, None, None),
                );
                crate::pool::lemma_push_get_round_trip(
                    pre.store,
                    self.store,
                    new_ref,
                    node_spec(value, None, None),
                );
                assert(self.valid_at(0));
                assert forall|p: int|
                    0 <= p < self.store.slots().len() && (#[trigger] self.store.slots()[
                        p
                    ]) is Some implies self.chain().contains(p) by {
                    if p != new_ref.pos() {
                        assert(pre.store.slots()[p] is Some);
                        assert(pre.chain().contains(p));
                    } else {
                        assert(self.chain()[0] == p);
                    }
                }
                assert(self@ =~= pre@.push(value));
            }
            DoubleLinkedView::new(new_ref)
        } else {
            let cur_last_ref = self.end;
            let node = DoubleLinkedNode { value, prev: Some(cur_last_ref), next: None };
            let new_ref = self.store.push(node);
            proof {
                crate::pool::lemma_push_element_count(
                    pre.store,
                    self.store,
                    new_ref,
                    node_spec(value, Some(cur_last_ref), None),
                );
                crate::pool::lemma_push_get_round_trip(
                    pre.store,
                    self.store,
                    new_ref,
                    node_spec(value, Some(cur_last_ref), None),
                );
                assert(pre.valid_at(pre.chain().len() - 1));
                lemma_fresh_pos(pre, new_ref.pos());
            }
            let end_node = self.store.get_mut(cur_last_ref).unwrap();
            end_node.next = Some(new_ref);
            self.end = new_ref;
            self.nodes = Ghost(self.nodes@.push(new_ref.pos()));
            proof {
                let n = pre.chain().len() as int;
                assert forall|k: int| 0 <= k < self.chain().len() implies #[trigger] self.valid_at(
                    k,
                ) by {
                    if k < n - 1 {
                        assert(pre.valid_at(k));
                        assert(pre.chain()[k] != pre.chain()[n - 1]);
                        assert(!pre.chain().contains(new_ref.pos()));
                        assert(pre.chain()[k] != new_ref.pos());
                    } else if k == n - 1 {
                        assert(pre.valid_at(k));
                        assert(pre.chain()[k] != new_ref.pos()) by {
                            assert(!pre.chain().contains(new_ref.pos()));
                        }
                    } else {
                        assert(self.chain()[k] == new_ref.pos());
                    }
                }
                assert forall|k1: int, k2: int|
                    0 <= k1 < k2 < self.chain().len() implies self.chain()[k1] != self.chain()[
                    k2
                ] by {
                    if k2 == n {
                        assert(pre.valid_at(k1));
                        assert(!pre.chain().contains(new_ref.pos()));
                    }
                }
                assert forall|p: int|
                    0 <= p < self.store.slots().len() && (#[trigger] self.store.slots()[
                        p
                    ]) is Some implies self.chain().contains(p) by {
                    if p == new_ref.pos() {
                        assert(self.chain()[n] == p);
                    } else {
                        assert(pre.store.slots()[p] is Some);
                        assert(pre.chain().contains(p));
                        let k = choose|k: int|
                            0 <= k < pre.chain().len() && pre.chain()[k] == p;
                        assert(self.chain()[k] == p);
                    }
                }
                assert forall|k: int| 0 <= k < self@.len() implies self@[k] == pre@.push(value)[
                    k
                ] by {
                    if k < n - 1 {
                        assert(pre.valid_at(k));
                        assert(pre.chain()[k] != pre.chain()[n - 1]);
                        assert(!pre.chain().contains(new_ref.pos()));
                        assert(self.node(self.chain()[k]) == pre.node(pre.chain()[k]));
                    } else if k == n - 1 {
                        assert(pre.valid_at(k));
                        assert(!pre.chain().contains(new_ref.pos()));
                        assert(self.node(self.chain()[k]).value == pre.node(pre.chain()[k]).value);
                    } else {
                        assert(self.node(self.chain()[k]).value == value);
                    }
                }
                assert(self@ =~= pre@.push(value));
            }
            DoubleLinkedView::new(new_ref)
        }
    }
    /// A view is valid exactly when its arena slot holds a node.
    proof fn lemma_occupied_iff_valid(self, v: DoubleLinkedView<T>)
        requires
            self.wf(),
        ensures
            self.store.spec_has_item(v.store_index) == self.view_valid(v),
    {
        if self.store.spec_has_item(v.store_index) {
            assert(self.chain().contains(v.pos()));
            let k = choose|k: int| 0 <= k < self.chain().len() && self.chain()[k] == v.pos();
            assert(self.view_at(v, k));
        }
        if self.view_valid(v) {
            let k = choose|k: int| self.view_at(v, k);
            assert(self.valid_at(k));
        }
    }

    /// Removes the tail element and returns its value; returns nothing on an
    /// empty list.
    pub fn pop(&mut self) -> (r: Option<T>)
        requires
            old(self).wf(),
        ensures
            final(self).wf(),
            (r is Some) == (old(self)@.len() > 0),
            r is Some ==> r == Some(old(self)@.last()) && final(self)@ == old(self)@.drop_last()
                && final(self).chain() == old(self).chain().drop_last(),
            r is None ==> final(self)@ == old(self)@ && final(self).chain() == old(self).chain(),
    {
        let ghost pre = *old(self);
        if self.store.element_count() == 0 {
            return None;
        }
        let ghost n = pre.chain().len() as int;
        proof {
            assert(pre.valid_at(n - 1));
        }
        let last_node = self.store.get(self.end).unwrap();
        let before = last_node.prev;
        match before {
            Some(b) => {
                proof {
                    assert(pre.valid_at(n - 2));
                    assert(pre.chain()[n - 2] != pre.chain()[n - 1]);
                }
                let bn = self.store.get_mut(b).unwrap();
                bn.next = None;
                let ghost mid = *self;
                let taken = self.store.take(self.end);
                self.end = b;
                self.nodes = Ghost(self.nodes@.drop_last());
                proof {
                    crate::pool::lemma_take_element_count(mid.store, self.store, pre.end, taken);
                    assert forall|k: int| 0 <= k < self.chain().len() implies #[trigger] self
                        .valid_at(k) by {
                        assert(pre.valid_at(k));
                        if k < n - 2 {
                            assert(pre.chain()[k] != pre.chain()[n - 2]);
                            assert(pre.chain()[k] != pre.chain()[n - 1]);
                            assert(self.node(self.chain()[k]) == pre.node(pre.chain()[k]));
                        } else {
                            assert(self.node(self.chain()[k]).prev == pre.node(
                                pre.chain()[k],
                            ).prev);
                        }
                    }
                    assert forall|p: int|
                        0 <= p < self.store.slots().len() && (#[trigger] self.store.slots()[
                            p
                        ]) is Some implies self.chain().contains(p) by {
                        assert(pre.store.slots()[p] is Some);
                        assert(pre.chain().contains(p));
                        let k = choose|k: int|
                            0 <= k < pre.chain().len() && pre.chain()[k] == p;
                        if k == n - 1 {
                            assert(pre.chain()[k] == pre.end.pos());
                            assert(false);
                        }
                        assert(self.chain()[k] == p);
                    }
                    assert forall|k: int| 0 <= k < self@.len() implies self@[k] == pre@[k] by {
                        assert(pre.valid_at(k));
                        assert(pre.chain()[k] != pre.chain()[n - 1]);
                        assert(self.node(self.chain()[k]).value == pre.node(
                            pre.chain()[k],
                        ).value);
                    }
                    assert(self@ =~= pre@.drop_last());
                }
                let node = taken.unwrap();
                Some(node.value)
            },
            None => {
                proof {
                    if n > 1 {
                        assert(pre.valid_at(n - 1));
                        assert(false);
                    }
                }
                let taken = self.store.take(self.end);
                self.end = ValueRef::new(0);
                self.nodes = Ghost(Seq::empty());
                proof {
                    crate::pool::lemma_take_element_count(
                        pre.store,
                        self.store,
                        pre.end,
                        Some(pre.node(pre.chain()[0])),
                    );
                    assert forall|p: int|
                        0 <= p < self.store.slots().len() && (#[trigger] self.store.slots()[
                            p
                        ]) is Some implies self.chain().contains(p) by {
                        assert(pre.store.slots()[p] is Some);
                        assert(pre.chain().contains(p));
                        let k = choose|k: int|
                            0 <= k < pre.chain().len() && pre.chain()[k] == p;
                        assert(k == 0);
                        assert(false);
                    }
                    assert(self@ =~= pre@.drop_last());
                }
                let node = taken.unwrap();
                Some(node.value)
            },
        }
    }

    /// Splices `value` in immediately before the node `view` points at and
    /// returns a view of the new node; returns nothing if `view` is stale.
    pub fn insert_left(&mut self, view: &DoubleLinkedView<T>, value: T) -> (r: Option<
        DoubleLinkedView<T>,
    >)
        requires
            old(self).wf(),
        ensures
            final(self).wf(),
            (r is Some) == old(self).view_valid(*view),
            r is None ==> final(self)@ == old(self)@ && final(self).chain() == old(self).chain(),
            r is Some ==> ({
                let j = old(self).view_index(*view);
                &&& final(self)@ == old(self)@.insert(j, value)
                &&& final(self).chain() == old(self).chain().insert(j, r.unwrap().pos())
                &&& final(self).view_at(r.unwrap(), j)
            }),
    {
        let ghost pre = *old(self);
        let ghost n = pre.chain().len() as int;
        proof {
            pre.lemma_occupied_iff_valid(*view);
        }
        let view_node_prev = match self.store.get(view.store_index) {
            Some(node) => node.prev,
            None => {
                return None;
            },
        };
        let ghost j = pre.view_index(*view);
        proof {
            assert(pre.view_at(*view, j));
            assert(pre.valid_at(j));
            if j > 0 {
                assert(pre.valid_at(j - 1));
            }
        }
        let new_node = DoubleLinkedNode { value, prev: view_node_prev, next: Some(view.store_index) };
        let new_ref = self.store.push(new_node);
        proof {
            crate::pool::lemma_push_element_count(
                pre.store,
                self.store,
                new_ref,
                node_spec(value, view_node_prev, Some(view.store_index)),
            );
            crate::pool::lemma_push_get_round_trip(
                pre.store,
                self.store,
                new_ref,
                node_spec(value, view_node_prev, Some(view.store_index)),
            );
            lemma_fresh_pos(pre, new_ref.pos());
        }
        match view_node_prev {
            Some(left) => {
                let ln = self.store.get_mut(left).unwrap();
                ln.next = Some(new_ref);
            },
            None => {
                self.start = new_ref;
            },
        }
        let vn = self.store.get_mut(view.store_index).unwrap();
        vn.prev = Some(new_ref);
        self.nodes = Ghost(self.nodes@.insert(j, new_ref.pos()));
        proof {
            lemma_insert_wf(pre, *self, j, new_ref.pos(), value);
        }
        Some(DoubleLinkedView::new(new_ref))
    }

    /// Splices `value` in immediately after the node `view` points at and
    /// returns a view of the new node; returns nothing if `view` is stale.
    pub fn insert_right(&mut self, view: &DoubleLinkedView<T>, value: T) -> (r: Option<
        DoubleLinkedView<T>,
    >)
        requires
            old(self).wf(),
        ensures
            final(self).wf(),
            (r is Some) == old(self).view_valid(*view),
            r is None ==> final(self)@ == old(self)@ && final(self).chain() == old(self).chain(),
            r is Some ==> ({
                let j = old(self).view_index(*view);
                &&& final(self)@ == old(self)@.insert(j + 1, value)
                &&& final(self).chain() == old(self).chain().insert(j + 1, r.unwrap().pos())
                &&& final(self).view_at(r.unwrap(), j + 1)
            }),
    {
        let ghost pre = *old(self);
        let ghost n = pre.chain().len() as int;
        proof {
            pre.lemma_occupied_iff_valid(*view);
        }
        let view_node_next = match self.store.get(view.store_index) {
            Some(node) => node.next,
            None => {
                return None;
            },
        };
        let ghost j = pre.view_index(*view);
        proof {
            assert(pre.view_at(*view, j));
            assert(pre.valid_at(j));
            if j < n - 1 {
                assert(pre.valid_at(j + 1));
            }
        }
        let new_node = DoubleLinkedNode { value, prev: Some(view.store_index), next: view_node_next };
        let new_ref = self.store.push(new_node);
        proof {
            crate::pool::lemma_push_element_count(
                pre.store,
                self.store,
                new_ref,
                node_spec(value, Some(view.store_index), view_node_next),
            );
            crate::pool::lemma_push_get_round_trip(
                pre.store,
                self.store,
                new_ref,
                node_spec(value, Some(view.store_index), view_node_next),
            );
            lemma_fresh_pos(pre, new_ref.pos());
        }
        match view_node_next {
            Some(right) => {
                let rn = self.store.get_mut(right).unwrap();
                rn.prev = Some(new_ref);
            },
            None => {
                self.end = new_ref;
            },
        }
        let vn = self.store.get_mut(view.store_index).unwrap();
        vn.next = Some(new_ref);
        self.nodes = Ghost(self.nodes@.insert(j + 1, new_ref.pos()));
        proof {
            lemma_insert_wf(pre, *self, j + 1, new_ref.pos(), value);
        }
        Some(DoubleLinkedView::new(new_ref))
    }

    /// Translates a logical position into the arena reference of its node by
    /// walking links from the nearer end.
    fn index_to_valueref(&self, index: usize) -> (r: Option<ValueRef<DoubleLinkedNode<T>>>)
        requires
            self.wf(),
        ensures
            (r is Some) == (index < self@.len()),
            r matches Some(v) ==> v.pos() == self.chain()[index as int],
    {
        let len = self.store.element_count();
        if index >= len {
            return None;
        }
        if index == len - 1 {
            proof {
                assert(self.valid_at(len - 1));
            }
            return Some(self.end);
        }
        if index == 0 {
            return Some(self.start);
        }
        if index > len / 2 {
            let mut node_idx = self.end;
            let mut iteration_index: usize = index;
            while iteration_index < len - 1
                invariant
                    self.wf(),
                    len == self@.len(),
                    0 < index < len,
                    index <= iteration_index <= len - 1,
                    node_idx.pos() == self.chain()[len - 1 - (iteration_index - index)],
                decreases len - 1 - iteration_index,
            {
                let ghost jj = len - 1 - (iteration_index - index) as int;
                proof {
                    assert(self.valid_at(jj));
                }
                node_idx = self.store.get(node_idx).unwrap().prev.unwrap();
                iteration_index = iteration_index + 1;
            }
            return Some(node_idx);
        }
        let mut node_idx = self.start;
        let mut iteration_index: usize = 0;
        while iteration_index < index
            invariant
                self.wf(),
                index < self@.len(),
                0 <= iteration_index <= index,
                node_idx.pos() == self.chain()[iteration_index as int],
            decreases index - iteration_index,
        {
            proof {
                assert(self.valid_at(iteration_index as int));
            }
            node_idx = self.store.get(node_idx).unwrap().next.unwrap();
            iteration_index = iteration_index + 1;
        }
        Some(node_idx)
    }

    /// Returns a borrow of the value at logical position `index`, walking
    /// from the nearer end; returns nothing when `index` is out of range.
    pub fn get(&self, index: usize) -> (r: Option<&T>)
        requires
            self.wf(),
        ensures
            match r {
                Some(v) => index < self@.len() && *v == self@[index as int],
                None => index >= self@.len(),
            },
    {
        match self.index_to_valueref(index) {
            Some(vr) => {
                proof {
                    assert(self.valid_at(index as int));
                }
                let node = self.store.get(vr).unwrap();
                Some(&node.value)
            },
            None => None,
        }
    }

    /// Returns a reusable view of the node at logical position `index`, to
    /// avoid repeating the walk for nearby future accesses.
    pub fn get_view(&self, index: usize) -> (r: Option<DoubleLinkedView<T>>)
        requires
            self.wf(),
        ensures
            (r is Some) == (index < self@.len()),
            r matches Some(v) ==> self.view_at(v, index as int),
    {
        match self.index_to_valueref(index) {
            Some(v) => Some(DoubleLinkedView::new(v)),
            None => None,
        }
    }

    /// Returns a borrow of the value the view points at, if the view is
    /// still valid.
    pub fn peek_view(&self, view: DoubleLinkedView<T>) -> (r: Option<&T>)
        requires
            self.wf(),
        ensures
            (r is Some) == self.view_valid(view),
            r matches Some(v) ==> *v == self@[self.view_index(view)],
    {
        proof {
            self.lemma_occupied_iff_valid(view);
            if self.view_valid(view) {
                let k = self.view_index(view);
                assert(self.view_at(view, k));
                assert(self.valid_at(k));
            }
        }
        match self.store.get(view.store_index) {
            Some(node) => Some(&node.value),
            None => None,
        }
    }

    /// Returns a mutable borrow of the value the view points at, if the view
    /// is still valid.
    pub fn peek_view_mut(&mut self, view: DoubleLinkedView<T>) -> (r: Option<&mut T>)
        requires
            old(self).wf(),
        ensures
            (r is Some) == old(self).view_valid(view),
            r is None ==> final(self)@ =~= old(self)@ && final(self).chain() == old(self).chain()
                && final(self).wf(),
            r is Some ==> ({
                let j = old(self).view_index(view);
                &&& *r.unwrap() == old(self)@[j]
                &&& final(self)@.len() == old(self)@.len()
                &&& final(self)@[j] == *final(r.unwrap())
                &&& (forall|k: int|
                    0 <= k < old(self)@.len() && k != j ==> final(self)@[k] == old(self)@[k])
                &&& final(self).chain() == old(self).chain()
                &&& final(self).wf()
            }),
    {
        let ghost pre = *old(self);
        proof {
            pre.lemma_occupied_iff_valid(view);
            if pre.view_valid(view) {
                let k = pre.view_index(view);
                assert(pre.view_at(view, k));
                assert(pre.valid_at(k));
            }
        }
        match self.store.get_mut(view.store_index) {
            Some(node) => {
                let ghost j = pre.view_index(view);
                proof {
                    assert forall|k: int|
                        0 <= k < pre.chain().len() && k != j implies pre.chain()[k]
                        != view.pos() by {
                        if k < j {
                            assert(pre.chain()[k] != pre.chain()[j]);
                        } else {
                            assert(pre.chain()[j] != pre.chain()[k]);
                        }
                    }
                    assert forall|post: DoubleLinkedList<T>|
                        (post.chain() == pre.chain() && post.start == pre.start && post.end
                            == pre.end && post.store.free() == pre.store.free()
                            && post.store.slots().len() == pre.store.slots().len()
                            && post.store.slots()[view.pos()] is Some && post.node(
                            view.pos(),
                        ).prev == pre.node(view.pos()).prev && post.node(view.pos()).next
                            == pre.node(view.pos()).next && (forall|q: int|
                            0 <= q < pre.store.slots().len() && q != view.pos()
                                ==> post.store.slots()[q] == pre.store.slots()[q]))
                            implies #[trigger] post.wf() by {
                        lemma_value_update_wf(pre, post, view.pos());
                    }
                    assert forall|post: DoubleLinkedList<T>, k: int|
                        (post.chain() == pre.chain() && post.store.slots().len()
                            == pre.store.slots().len() && (forall|q: int|
                            0 <= q < pre.store.slots().len() && q != view.pos()
                                ==> post.store.slots()[q] == pre.store.slots()[q]) && 0 <= k
                            < pre.chain().len() && k != j) implies (#[trigger] post@[k])
                        == pre@[k] by {
                        assert(pre.valid_at(k));
                        assert(pre.chain()[k] != view.pos());
                        assert(post.store.slots()[pre.chain()[k]] == pre.store.slots()[
                            pre.chain()[k]
                        ]);
                    }
                }
                Some(&mut node.value)
            },
            None => {
                proof {
                    assert forall|post: DoubleLinkedList<T>|
                        (post.chain() == pre.chain() && post.start == pre.start && post.end
                            == pre.end && post.store.slots() == pre.store.slots()
                            && post.store.free() == pre.store.free())
                            implies #[trigger] post.wf() by {
                        lemma_model_eq_wf(pre, post);
                    }
                }
                None
            },
        }
    }

    /// Returns a mutable borrow of the value at logical position `index`;
    /// returns nothing when `index` is out of range.
    pub fn get_mut(&mut self, index: usize) -> (r: Option<&mut T>)
        requires
            old(self).wf(),
        ensures
            (r is Some) == (index < old(self)@.len()),
            r is None ==> final(self)@ == old(self)@ && final(self).chain() == old(self).chain()
                && final(self).wf(),
            r is Some ==> *r.unwrap() == old(self)@[index as int] && final(self)@ == old(self)@.update(index as int, *final(r.unwrap())) && final(self).chain() == old(self).chain() && final(self).wf(),
    {
        let vr = match self.index_to_valueref(index) {
            Some(vr) => vr,
            None => {
                return None;
            },
        };
        let v = DoubleLinkedView::new(vr);
        proof {
            assert(self.view_at(v, index as int));
            self.lemma_view_index(v, index as int);
        }
        self.peek_view_mut(v)
    }

    /// Walks exactly `n` links towards the head from `view` and returns a
    /// view of the node reached; returns nothing if the walk runs off the
    /// head or `view` is stale. With `n == 0` the view is returned as it is.
    pub fn get_left_neighbour(&self, view: &DoubleLinkedView<T>, n: usize) -> (r: Option<
        DoubleLinkedView<T>,
    >)
        requires
            self.wf(),
        ensures
            n == 0 ==> (r matches Some(v) && v.pos() == view.pos()),
            n > 0 ==> (r is Some) == (self.view_valid(*view) && n <= self.view_index(*view)),
            n > 0 && r is Some ==> self.view_at(r.unwrap(), self.view_index(*view) - n),
    {
        if n == 0 {
            return Some(DoubleLinkedView::new(view.store_index));
        }
        proof {
            self.lemma_occupied_iff_valid(*view);
        }
        if !self.store.has_item(view.store_index) {
            return None;
        }
        let ghost j = self.view_index(*view);
        proof {
            assert(self.view_at(*view, j));
        }
        let mut value_ref = view.store_index;
        let mut i: usize = 0;
        while i < n
            invariant
                self.wf(),
                0 < n,
                0 <= i <= n,
                0 <= j - i,
                j < self.chain().len(),
                j == self.view_index(*view),
                self.view_at(*view, j),
                value_ref.pos() == self.chain()[j - i],
            decreases n - i,
        {
            proof {
                assert(self.valid_at(j - i));
            }
            let node = self.store.get(value_ref).unwrap();
            match node.prev {
                Some(p) => {
                    value_ref = p;
                    i = i + 1;
                },
                None => {
                    proof {
                        assert(j - i == 0);
                    }
                    return None;
                },
            }
        }
        Some(DoubleLinkedView::new(value_ref))
    }

    /// Walks exactly `n` links towards the head from `view`, which must be a
    /// valid view of a node at logical position at least `n`.
    pub fn get_unchecked_left_neighbour(&self, view: &DoubleLinkedView<T>, n: usize) -> (r:
        DoubleLinkedView<T>)
        requires
            self.wf(),
            self.view_valid(*view),
            n <= self.view_index(*view),
        ensures
            self.view_at(r, self.view_index(*view) - n),
    {
        let ghost j = self.view_index(*view);
        proof {
            assert(self.view_at(*view, j));
        }
        let mut value_ref = view.store_index;
        let mut i: usize = 0;
        while i < n
            invariant
                self.wf(),
                0 <= i <= n <= j < self.chain().len(),
                j == self.view_index(*view),
                self.view_at(*view, j),
                value_ref.pos() == self.chain()[j - i],
            decreases n - i,
        {
            proof {
                assert(self.valid_at(j - i));
            }
            let node = self.store.get(value_ref).unwrap();
            value_ref = node.prev.unwrap();
            i = i + 1;
        }
        DoubleLinkedView::new(value_ref)
    }

    /// Walks exactly `n` links towards the tail from `view` and returns a
    /// view of the node reached; returns nothing if the walk runs off the
    /// tail or `view` is stale. With `n == 0` the view is returned as it is.
    pub fn get_right_neighbour(&self, view: &DoubleLinkedView<T>, n: usize) -> (r: Option<
        DoubleLinkedView<T>,
    >)
        requires
            self.wf(),
        ensures
            n == 0 ==> (r matches Some(v) && v.pos() == view.pos()),
            n > 0 ==> (r is Some) == (self.view_valid(*view) && self.view_index(*view) + n
                < self.chain().len()),
            n > 0 && r is Some ==> self.view_at(r.unwrap(), self.view_index(*view) + n),
    {
        if n == 0 {
            return Some(DoubleLinkedView::new(view.store_index));
        }
        proof {
            self.lemma_occupied_iff_valid(*view);
        }
        if !self.store.has_item(view.store_index) {
            return None;
        }
        let ghost j = self.view_index(*view);
        proof {
            assert(self.view_at(*view, j));
        }
        let mut value_ref = view.store_index;
        let mut i: usize = 0;
        while i < n
            invariant
                self.wf(),
                0 < n,
                0 <= i <= n,
                0 <= j,
                j + i < self.chain().len(),
                j == self.view_index(*view),
                self.view_at(*view, j),
                value_ref.pos() == self.chain()[j + i],
            decreases n - i,
        {
            proof {
                assert(self.valid_at(j + i));
            }
            let node = self.store.get(value_ref).unwrap();
            match node.next {
                Some(p) => {
                    value_ref = p;
                    i = i + 1;
                },
                None => {
                    proof {
                        assert(j + i == self.chain().len() - 1);
                    }
                    return None;
                },
            }
        }
        Some(DoubleLinkedView::new(value_ref))
    }

    /// Walks exactly `n` links towards the tail from `view`, which must be a
    /// valid view of a node at logical position at most `len - 1 - n`.
    pub fn get_unchecked_right_neighbour(&self, view: &DoubleLinkedView<T>, n: usize) -> (r:
        DoubleLinkedView<T>)
        requires
            self.wf(),
            self.view_valid(*view),
            self.view_index(*view) + n < self.chain().len(),
        ensures
            self.view_at(r, self.view_index(*view) + n),
    {
        let ghost j = self.view_index(*view);
        proof {
            assert(self.view_at(*view, j));
        }
        let mut value_ref = view.store_index;
        let mut i: usize = 0;
        while i < n
            invariant
                self.wf(),
                0 <= i <= n,
                0 <= j,
                j + n < self.chain().len(),
                j == self.view_index(*view),
                self.view_at(*view, j),
                value_ref.pos() == self.chain()[j + i],
            decreases n - i,
        {
            proof {
                assert(self.valid_at(j + i));
            }
            let node = self.store.get(value_ref).unwrap();
            value_ref = node.next.unwrap();
            i = i + 1;
        }
        DoubleLinkedView::new(value_ref)
    }

    /// Exchanges the logical positions of the two nodes the views point at
    /// by rewriting the neighbour links; the nodes stay in their arena
    /// slots, so both views remain attached to their values. Returns
    /// nothing, and changes nothing, if either view is stale.
    #[verifier::rlimit(100)]
    #[verifier::spinoff_prover]
    pub fn swap(&mut self, view1: &DoubleLinkedView<T>, view2: &DoubleLinkedView<T>) -> (r: Option<
        (),
    >)
        requires
            old(self).wf(),
        ensures
            final(self).wf(),
            (r is Some) == (old(self).view_valid(*view1) && old(self).view_valid(*view2)),
            r is None ==> final(self)@ == old(self)@ && final(self).chain() == old(self).chain(),
            r is Some ==> ({
                let j1 = old(self).view_index(*view1);
                let j2 = old(self).view_index(*view2);
                &&& final(self).chain() == old(self).chain().update(j1, view2.pos()).update(
                    j2,
                    view1.pos(),
                )
                &&& final(self)@ == old(self)@.update(j1, old(self)@[j2]).update(
                    j2,
                    old(self)@[j1],
                )
                &&& final(self).view_at(*view1, j2)
                &&& final(self).view_at(*view2, j1)
            }),
    {
        let ghost pre = *old(self);
        let ghost n = pre.chain().len() as int;
        proof {
            pre.lemma_occupied_iff_valid(*view1);
            pre.lemma_occupied_iff_valid(*view2);
        }
        if !self.store.has_item(view1.store_index) {
            return None;
        }
        if !self.store.has_item(view2.store_index) {
            return None;
        }
        let ghost j1 = pre.view_index(*view1);
        let ghost j2 = pre.view_index(*view2);
        proof {
            assert(pre.view_at(*view1, j1));
            assert(pre.view_at(*view2, j2));
            assert(pre.valid_at(j1));
            assert(pre.valid_at(j2));
            assert forall|a: int, b: int|
                0 <= a < n && 0 <= b < n && a != b implies pre.chain()[a] != pre.chain()[b] by {
                if a < b {
                    assert(pre.chain()[a] != pre.chain()[b]);
                } else {
                    assert(pre.chain()[b] != pre.chain()[a]);
                }
            }
        }
        if view1.store_index == view2.store_index {
            proof {
                assert(j1 == j2) by {
                    pre.lemma_view_index(*view2, j1);
                }
                assert(self.chain() =~= pre.chain().update(j1, view2.pos()).update(
                    j2,
                    view1.pos(),
                ));
                assert(self@ =~= pre@.update(j1, pre@[j2]).update(j2, pre@[j1]));
            }
            return Some(());
        }
        let node1_prev;
        let node1_next;
        let node2_prev;
        let node2_next;
        {
            let node1 = self.store.get(view1.store_index).unwrap();
            node1_prev = node1.prev;
            node1_next = node1.next;
        }
        {
            let node2 = self.store.get(view2.store_index).unwrap();
            node2_prev = node2.prev;
            node2_next = node2.next;
        }
        proof {
            if j1 > 0 {
                assert(pre.valid_at(j1 - 1));
            }
            if j1 < n - 1 {
                assert(pre.valid_at(j1 + 1));
            }
            if j2 > 0 {
                assert(pre.valid_at(j2 - 1));
            }
            if j2 < n - 1 {
                assert(pre.valid_at(j2 + 1));
            }
        }
        // reassign node1: it takes over node2's links, except that a link back
        // at node1 itself means the two nodes are neighbours and the link
        // must follow the exchange
        {
            let node1 = self.store.get_mut(view1.store_index).unwrap();
            node1.prev = match node2_prev {
                Some(x) => if x == view1.store_index {
                    node1_next
                } else {
                    Some(x)
                },
                None => None,
            };
            node1.next = match node2_next {
                Some(x) => if x == view1.store_index {
                    node1_prev
                } else {
                    Some(x)
                },
                None => None,
            };
        }
        // reassign the neighbours of node1's old place to point at node2
        if let Some(left) = node1_prev {
            if !(left == view2.store_index) {
                let ln = self.store.get_mut(left).unwrap();
                ln.next = Some(view2.store_index);
            }
        }
        if let Some(right) = node1_next {
            if !(right == view2.store_index) {
                let rn = self.store.get_mut(right).unwrap();
                rn.prev = Some(view2.store_index);
            }
        }
        // reassign node2 the same way
        {
            let node2 = self.store.get_mut(view2.store_index).unwrap();
            node2.prev = match node1_prev {
                Some(x) => if x == view2.store_index {
                    node2_next
                } else {
                    Some(x)
                },
                None => None,
            };
            node2.next = match node1_next {
                Some(x) => if x == view2.store_index {
                    node2_prev
                } else {
                    Some(x)
                },
                None => None,
            };
        }
        // reassign the neighbours of node2's old place to point at node1
        if let Some(left) = node2_prev {
            if !(left == view1.store_index) {
                let ln = self.store.get_mut(left).unwrap();
                ln.next = Some(view1.store_index);
            }
        }
        if let Some(right) = node2_next {
            if !(right == view1.store_index) {
                let rn = self.store.get_mut(right).unwrap();
                rn.prev = Some(view1.store_index);
            }
        }
        if view1.store_index == self.start {
            self.start = view2.store_index;
        } else if view2.store_index == self.start {
            self.start = view1.store_index;
        }
        if view1.store_index == self.end {
            self.end = view2.store_index;
        } else if view2.store_index == self.end {
            self.end = view1.store_index;
        }
        self.nodes = Ghost(self.nodes@.update(j1, view2.pos()).update(j2, view1.pos()));
        proof {
            let ghost p1 = pre.chain()[j1];
            let ghost p2 = pre.chain()[j2];
            assert forall|a: int, b: int|
                0 <= a < n && 0 <= b < n && a != b implies pre.chain()[a] != pre.chain()[b] by {
                if a < b {
                    assert(pre.chain()[a] != pre.chain()[b]);
                } else {
                    assert(pre.chain()[b] != pre.chain()[a]);
                }
            }
            assert forall|k: int| 0 <= k < self.chain().len() implies #[trigger] self.valid_at(
                k,
            ) by {
                assert(pre.valid_at(k));
                if k > 0 {
                    assert(pre.valid_at(k - 1));
                }
                if k < n - 1 {
                    assert(pre.valid_at(k + 1));
                }
                if j1 > 0 {
                    assert(pre.valid_at(j1 - 1));
                }
                if j1 < n - 1 {
                    assert(pre.valid_at(j1 + 1));
                }
                if j2 > 0 {
                    assert(pre.valid_at(j2 - 1));
                }
                if j2 < n - 1 {
                    assert(pre.valid_at(j2 + 1));
                }
            }
            assert forall|k1: int, k2: int|
                0 <= k1 < k2 < self.chain().len() implies self.chain()[k1] != self.chain()[
                k2
            ] by {
                let a1 = if k1 == j1 {
                    j2
                } else if k1 == j2 {
                    j1
                } else {
                    k1
                };
                let a2 = if k2 == j1 {
                    j2
                } else if k2 == j2 {
                    j1
                } else {
                    k2
                };
                assert(self.chain()[k1] == pre.chain()[a1]);
                assert(self.chain()[k2] == pre.chain()[a2]);
            }
            assert forall|p: int|
                0 <= p < self.store.slots().len() && (#[trigger] self.store.slots()[p]) is Some
                    implies self.chain().contains(p) by {
                assert(pre.store.slots()[p] is Some);
                assert(pre.chain().contains(p));
                let k = choose|k: int| 0 <= k < pre.chain().len() && pre.chain()[k] == p;
                let k2 = if k == j1 {
                    j2
                } else if k == j2 {
                    j1
                } else {
                    k
                };
                assert(self.chain()[k2] == p);
            }
            assert forall|k: int| 0 <= k < self@.len() implies self@[k] == pre@.update(
                j1,
                pre@[j2],
            ).update(j2, pre@[j1])[k] by {
                assert(pre.valid_at(k));
                if k == j1 {
                    assert(self.node(p2).value == pre.node(p2).value);
                } else if k == j2 {
                    assert(self.node(p1).value == pre.node(p1).value);
                } else {
                    assert(self.node(pre.chain()[k]).value == pre.node(pre.chain()[k]).value);
                }
            }
            assert(self@ =~= pre@.update(j1, pre@[j2]).update(j2, pre@[j1]));
        }
        Some(())
    }

    /// Exchanges the logical positions of the two nodes by relinking and
    /// then physically swapping the two arena slots, which favours cache
    /// locality. The passed views end up attached to the other value, so the
    /// corrected pair is returned: first a view of `view1`'s value, then one
    /// of `view2`'s. Every other view of either slot is silently wrong
    /// afterwards. Returns nothing, and changes nothing, if either view is
    /// stale.
    pub fn inner_swap(&mut self, view1: DoubleLinkedView<T>, view2: DoubleLinkedView<T>) -> (r:
        Option<(DoubleLinkedView<T>, DoubleLinkedView<T>)>)
        requires
            old(self).wf(),
        ensures
            final(self).wf(),
            (r is Some) == (old(self).view_valid(view1) && old(self).view_valid(view2)),
            r is None ==> final(self)@ == old(self)@ && final(self).chain() == old(self).chain(),
            r is Some ==> ({
                let j1 = old(self).view_index(view1);
                let j2 = old(self).view_index(view2);
                &&& final(self).chain() == old(self).chain()
                &&& final(self)@ == old(self)@.update(j1, old(self)@[j2]).update(
                    j2,
                    old(self)@[j1],
                )
                &&& r.unwrap().0 == view2
                &&& r.unwrap().1 == view1
            }),
    {
        let ghost pre = *old(self);
        let ghost n = pre.chain().len() as int;
        proof {
            pre.lemma_occupied_iff_valid(view1);
            pre.lemma_occupied_iff_valid(view2);
        }
        if !self.store.has_item(view1.store_index) {
            return None;
        }
        if !self.store.has_item(view2.store_index) {
            return None;
        }
        let ghost j1 = pre.view_index(view1);
        let ghost j2 = pre.view_index(view2);
        proof {
            assert(pre.view_at(view1, j1));
            assert(pre.view_at(view2, j2));
            assert(pre.valid_at(j1));
            assert(pre.valid_at(j2));
        }
        if view1.store_index == view2.store_index {
            proof {
                assert(j1 == j2) by {
                    pre.lemma_view_index(view2, j1);
                }
                assert(self@ =~= pre@.update(j1, pre@[j2]).update(j2, pre@[j1]));
            }
            return Some((view2, view1));
        }
        proof {
            if j1 < j2 {
                assert(pre.chain()[j1] != pre.chain()[j2]);
            } else {
                assert(pre.chain()[j2] != pre.chain()[j1]);
            }
            assert(j1 != j2);
        }
        let node1_prev;
        let node1_next;
        let node2_prev;
        let node2_next;
        {
            let node1 = self.store.get(view1.store_index).unwrap();
            node1_prev = node1.prev;
            node1_next = node1.next;
        }
        {
            let node2 = self.store.get(view2.store_index).unwrap();
            node2_prev = node2.prev;
            node2_next = node2.next;
        }
        // each node takes over the other's links; the storage swap below then
        // carries the structs to the other slot, so every chain link keeps
        // pointing at the right logical neighbour
        {
            let node1 = self.store.get_mut(view1.store_index).unwrap();
            node1.prev = node2_prev;
            node1.next = node2_next;
        }
        {
            let node2 = self.store.get_mut(view2.store_index).unwrap();
            node2.prev = node1_prev;
            node2.next = node1_next;
        }
        let _ = self.store.swap(view1.store_index, view2.store_index);
        proof {
            let p1 = pre.chain()[j1];
            let p2 = pre.chain()[j2];
            assert forall|k: int| 0 <= k < self.chain().len() implies #[trigger] self.valid_at(
                k,
            ) by {
                assert(pre.valid_at(k));
                if pre.chain()[k] == p1 {
                    assert(k == j1) by {
                        if k < j1 {
                            assert(pre.chain()[k] != pre.chain()[j1]);
                        } else if k > j1 {
                            assert(pre.chain()[j1] != pre.chain()[k]);
                        }
                    }
                } else if pre.chain()[k] == p2 {
                    assert(k == j2) by {
                        if k < j2 {
                            assert(pre.chain()[k] != pre.chain()[j2]);
                        } else if k > j2 {
                            assert(pre.chain()[j2] != pre.chain()[k]);
                        }
                    }
                }
            }
            assert forall|p: int|
                0 <= p < self.store.slots().len() && (#[trigger] self.store.slots()[p]) is Some
                    implies self.chain().contains(p) by {
                assert(pre.store.slots()[p] is Some);
            }
            assert forall|k: int| 0 <= k < self@.len() implies self@[k] == pre@.update(
                j1,
                pre@[j2],
            ).update(j2, pre@[j1])[k] by {
                assert(pre.valid_at(k));
                if pre.chain()[k] == p1 {
                    assert(k == j1) by {
                        if k < j1 {
                            assert(pre.chain()[k] != pre.chain()[j1]);
                        } else if k > j1 {
                            assert(pre.chain()[j1] != pre.chain()[k]);
                        }
                    }
                } else if pre.chain()[k] == p2 {
                    assert(k == j2) by {
                        if k < j2 {
                            assert(pre.chain()[k] != pre.chain()[j2]);
                        } else if k > j2 {
                            assert(pre.chain()[j2] != pre.chain()[k]);
                        }
                    }
                }
            }
            assert(self@ =~= pre@.update(j1, pre@[j2]).update(j2, pre@[j1]));
        }
        Some((view2, view1))
    }

    /// Applies a batch of (position, value) insertions, first to last, as
    /// [`DoubleLinkedList::insert`] would one at a time; out-of-range
    /// positions are skipped. Each insertion walks from the nearest
    /// previously resolved anchor, and anchors behind an insertion point are
    /// re-derived from their node's backward link.
    pub fn multi_insert(&mut self, pairs: Vec<(usize, T)>) -> (r: Option<()>)
        requires
            old(self).wf(),
        ensures
            final(self).wf(),
            r is Some,
            final(self)@ == multi_insert_model(old(self)@, pairs@),
    {
        let ghost pre = *old(self);
        let ghost orig = pairs@;
        let len0 = self.store.element_count();
        if len0 == 0 {
            proof {
                lemma_multi_insert_model_empty(pre@, orig);
            }
            return Some(());
        }
        self.store.reserve(pairs.len());
        proof {
            lemma_model_eq_wf(pre, *self);
            assert(self@ =~= pre@);
            assert(orig.subrange(0, 0) =~= Seq::<(usize, T)>::empty());
            assert(self@ =~= multi_insert_model(pre@, orig.subrange(0, 0)));
            assert(self.valid_at(0));
            assert(self.valid_at(self.chain().len() - 1));
        }
        let mut anchors: AnchorMap<T> = AnchorMap::new();
        anchors.insert(0, self.start);
        let last = self.store.element_count() - 1;
        anchors.insert(last, self.end);
        let mut pairs = pairs;
        proof {
            assert(pairs@ =~= orig.subrange(0, orig.len() as int));
        }
        while pairs.len() > 0
            invariant
                self.wf(),
                self@.len() > 0,
                pairs@.len() <= orig.len(),
                self@ == multi_insert_model(pre@, orig.subrange(0, orig.len() - pairs@.len())),
                pairs@ == orig.subrange(orig.len() - pairs@.len(), orig.len() as int),
                anchors.entries_seq().len() > 0,
                anchors.keys_unique(),
                forall|j: int|
                    0 <= j < anchors.entries_seq().len() ==> ((#[trigger] anchors.entries_seq()[
                    j
                ]).0 < self@.len() && self.chain()[anchors.entries_seq()[j].0 as int]
                    == anchors.entries_seq()[j].1.pos()),
            decreases pairs@.len(),
        {
            let ghost done = orig.len() - pairs@.len();
            let ghost before = *self;
            let pair = pairs.remove(0);
            let index = pair.0;
            let value = pair.1;
            proof {
                assert(pair == orig[done]);
                lemma_multi_insert_is_iterated_insert(pre@, orig, done);
                assert(pairs@ =~= orig.subrange(orig.len() - pairs@.len(), orig.len() as int));
            }
            let cur_len = self.store.element_count();
            if index >= cur_len {
                proof {
                    assert(self@ == multi_insert_model(pre@, orig.subrange(0, done + 1)));
                }
            } else {
                let closest = anchors.closest(index);
                let ck = closest.0;
                let cview = DoubleLinkedView { store_index: closest.1 };
                proof {
                    assert(anchors.entries_seq().contains((ck, closest.1)));
                    let j = choose|j: int|
                        0 <= j < anchors.entries_seq().len() && anchors.entries_seq()[j] == (
                        ck,
                        closest.1,
                        );
                    assert(self.view_at(cview, ck as int));
                    self.lemma_view_index(cview, ck as int);
                }
                let true_view = if index <= ck {
                    self.get_unchecked_left_neighbour(&cview, ck - index)
                } else {
                    self.get_unchecked_right_neighbour(&cview, index - ck)
                };
                proof {
                    assert(self.view_at(true_view, index as int));
                    self.lemma_view_index(true_view, index as int);
                }
                let ghost anch0 = anchors;
                let new_view = self.insert_left(&true_view, value).unwrap();
                proof {
                    assert(self@ == multi_insert_model(pre@, orig.subrange(0, done + 1)));
                    assert(self.view_at(new_view, index as int));
                }
                anchors.insert(index, new_view.store_index);
                proof {
                    assert forall|t: int|
                        0 <= t < anchors.entries_seq().len() implies {
                        let e = #[trigger] anchors.entries_seq()[t];
                        &&& (e.0 <= index ==> e.0 < self@.len() && self.chain()[e.0 as int]
                            == e.1.pos())
                        &&& (e.0 > index ==> e.0 + 1 < self@.len() && self.chain()[e.0 + 1]
                            == e.1.pos())
                    } by {
                        let e = anchors.entries_seq()[t];
                        if e == (index, new_view.store_index) {
                            assert(self.chain()[index as int] == e.1.pos());
                        } else {
                            assert(anch0.entries_seq().contains(e));
                            let t0 = choose|t0: int|
                                0 <= t0 < anch0.entries_seq().len() && anch0.entries_seq()[t0]
                                    == e;
                            assert(e.0 < before@.len());
                            assert(before.chain()[e.0 as int] == e.1.pos());
                        }
                    }
                }
                // every anchor behind the insertion point now names a node
                // whose logical position moved one to the right; re-derive
                // it from that node's backward link
                let mut j: usize = 0;
                while j < anchors.entries.len()
                    invariant
                        self.wf(),
                        self@.len() > 0,
                        index < self@.len(),
                        0 <= j <= anchors.entries_seq().len(),
                        anchors.entries_seq().len() > 0,
                        anchors.keys_unique(),
                        forall|t: int|
                            0 <= t < j ==> ((#[trigger] anchors.entries_seq()[t]).0 < self@.len()
                                && self.chain()[anchors.entries_seq()[t].0 as int]
                                == anchors.entries_seq()[t].1.pos()),
                        forall|t: int|
                            j <= t < anchors.entries_seq().len() ==> ((((#[trigger] anchors.entries_seq()[
                            t]).0) <= index ==> (anchors.entries_seq()[t].0 < self@.len()
                                && self.chain()[anchors.entries_seq()[t].0 as int]
                                == anchors.entries_seq()[t].1.pos())) && ((anchors.entries_seq()[
                            t].0) > index ==> (anchors.entries_seq()[t].0 + 1 < self@.len()
                                && self.chain()[anchors.entries_seq()[t].0 + 1]
                                == anchors.entries_seq()[t].1.pos()))),
                    decreases anchors.entries_seq().len() - j,
                {
                    let entry = anchors.entries[j];
                    if entry.0 > index {
                        proof {
                            assert(self.valid_at(entry.0 + 1));
                        }
                        let ghost am0 = anchors;
                        let node = self.store.get(entry.1).unwrap();
                        anchors.entries.set(j, (entry.0, node.prev.unwrap()));
                        proof {
                            assert forall|a: int, b: int|
                                0 <= a < b < anchors.entries_seq().len() implies (
                            #[trigger] anchors.entries_seq()[a]).0 != (
                            #[trigger] anchors.entries_seq()[b]).0 by {
                                assert((anchors.entries_seq()[a]).0 == (am0.entries_seq()[a]).0);
                                assert((anchors.entries_seq()[b]).0 == (am0.entries_seq()[b]).0);
                                assert((am0.entries_seq()[a]).0 != (am0.entries_seq()[b]).0);
                            }
                        }
                    }
                    j = j + 1;
                }
            }
        }
        proof {
            assert(orig.subrange(0, orig.len() as int) =~= orig);
        }
        Some(())
    }

    /// Returns a forward iterator over the current values; it stays bounded
    /// by the length at creation.
    pub fn iter(&self) -> (it: DoubleLinkedListIterator<T>)
        requires
            self.wf(),
        ensures
            it.valid_for(*self),
            it.remaining() == self@.len(),
    {
        proof {
            if self.chain().len() > 0 {
                assert(self.valid_at(0));
            } else {
                if self.store.spec_has_item(self.start) {
                    assert(self.chain().contains(self.start.pos()));
                    let k = choose|k: int|
                        0 <= k < self.chain().len() && self.chain()[k] == self.start.pos();
                    assert(false);
                }
            }
        }
        DoubleLinkedListIterator {
            current_ref: Some(self.start),
            remaining_size: self.store.element_count(),
        }
    }

    /// Returns a backward iterator over the current values; it stays bounded
    /// by the length at creation.
    pub fn iter_reverse(&self) -> (it: DoubleLinkedListReverseIterator<T>)
        requires
            self.wf(),
        ensures
            it.valid_for(*self),
            it.remaining() == self@.len(),
    {
        proof {
            if self.chain().len() > 0 {
                assert(self.valid_at(self.chain().len() - 1));
            } else {
                if self.store.spec_has_item(self.end) {
                    assert(self.chain().contains(self.end.pos()));
                    let k = choose|k: int|
                        0 <= k < self.chain().len() && self.chain()[k] == self.end.pos();
                    assert(false);
                }
            }
        }
        DoubleLinkedListReverseIterator {
            current_ref: Some(self.end),
            remaining_size: self.store.element_count(),
        }
    }

    /// Turns the list into a draining iterator that hands the values out
    /// from head to tail; it is safe to consume only part of it.
    pub fn into_iter(self) -> (it: DoubleLinkedListIntoIterator<T>)
        requires
            self.wf(),
        ensures
            it.wf_drain(),
            it.remaining_values() == self@,
    {
        let current_ref = Some(self.start);
        proof {
            if self.chain().len() > 0 {
                assert(self.valid_at(0));
            } else {
                if self.store.spec_has_item(self.start) {
                    assert(self.chain().contains(self.start.pos()));
                    let k = choose|k: int|
                        0 <= k < self.chain().len() && self.chain()[k] == self.start.pos();
                    assert(false);
                }
            }
            assert forall|k: int|
                0 <= k < self.chain().len() implies #[trigger] drain_valid_at(self, k) by {
                assert(self.valid_at(k));
            }
        }
        DoubleLinkedListIntoIterator { dl_list: self, current_ref }
    }

    /// Drains the list into a vector, head first.
    pub fn into_vec(self) -> (r: Vec<T>)
        requires
            self.wf(),
        ensures
            r@ == self@,
    {
        let ghost model = self@;
        let mut it = self.into_iter();
        let mut out: Vec<T> = Vec::new();
        let mut done = false;
        while !done
            invariant
                it.wf_drain(),
                out@ + it.remaining_values() == model,
                done ==> it.remaining_values().len() == 0,
            decreases it.remaining_values().len() + (if done {
                0int
            } else {
                1int
            }),
        {
            match it.next() {
                Some(v) => {
                    out.push(v);
                    proof {
                        assert(out@ + it.remaining_values() =~= model);
                    }
                },
                None => {
                    done = true;
                },
            }
        }
        proof {
            assert(out@ =~= model);
        }
        out
    }

    /// Appends every value of `values` at the tail, in order, reserving the
    /// arena space up front. Returns nothing, and changes nothing, when
    /// `values` is empty.
    pub fn multi_push(&mut self, values: Vec<T>) -> (r: Option<()>)
        requires
            old(self).wf(),
        ensures
            final(self).wf(),
            (r is Some) == (values@.len() > 0),
            final(self)@ == old(self)@ + values@,
    {
        let ghost pre = *old(self);
        let ghost orig = values@;
        if values.len() == 0 {
            proof {
                assert(pre@ + orig =~= pre@);
            }
            return None;
        }
        self.store.reserve(values.len());
        proof {
            lemma_model_eq_wf(pre, *self);
            assert(self@ =~= pre@);
            assert(self@ =~= pre@ + orig.subrange(0, 0));
            assert(values@ =~= orig.subrange(0, orig.len() as int));
        }
        let mut values = values;
        while values.len() > 0
            invariant
                self.wf(),
                values@.len() <= orig.len(),
                self@ == pre@ + orig.subrange(0, orig.len() - values@.len()),
                values@ == orig.subrange(orig.len() - values@.len(), orig.len() as int),
            decreases values@.len(),
        {
            let ghost done = orig.len() - values@.len();
            let v = values.remove(0);
            proof {
                assert(v == orig[done]);
            }
            let _ = self.push(v);
            proof {
                assert(self@ =~= pre@ + orig.subrange(0, done + 1));
                assert(values@ =~= orig.subrange(orig.len() - values@.len(), orig.len() as int));
            }
        }
        proof {
            assert(self@ =~= pre@ + orig);
        }
        Some(())
    }

    /// Prepends every value of `values` in turn, so that they end up at the
    /// head in reverse of their order in `values`. Returns nothing, and
    /// changes nothing, when `values` is empty.
    pub fn multi_push_front(&mut self, values: Vec<T>) -> (r: Option<()>)
        requires
            old(self).wf(),
        ensures
            final(self).wf(),
            (r is Some) == (values@.len() > 0),
            final(self)@ == values@.reverse() + old(self)@,
    {
        let ghost pre = *old(self);
        let ghost orig = values@;
        if values.len() == 0 {
            proof {
                assert(orig.reverse() =~= Seq::<T>::empty());
                assert(orig.reverse() + pre@ =~= pre@);
            }
            return None;
        }
        self.store.reserve(values.len());
        proof {
            lemma_model_eq_wf(pre, *self);
            assert(self@ =~= pre@);
            assert(orig.subrange(0, 0).reverse() =~= Seq::<T>::empty());
            assert(self@ =~= orig.subrange(0, 0).reverse() + pre@);
            assert(values@ =~= orig.subrange(0, orig.len() as int));
        }
        let mut values = values;
        while values.len() > 0
            invariant
                self.wf(),
                values@.len() <= orig.len(),
                self@ == orig.subrange(0, orig.len() - values@.len()).reverse() + pre@,
                values@ == orig.subrange(orig.len() - values@.len(), orig.len() as int),
            decreases values@.len(),
        {
            let ghost done = orig.len() - values@.len();
            let v = values.remove(0);
            proof {
                assert(v == orig[done]);
            }
            let _ = self.push_front(v);
            proof {
                assert(self@ =~= orig.subrange(0, done + 1).reverse() + pre@);
                assert(values@ =~= orig.subrange(orig.len() - values@.len(), orig.len() as int));
            }
        }
        proof {
            assert(self@ =~= orig.reverse() + pre@);
        }
        Some(())
    }

    /// Builds a list from a vector of values, keeping their order.
    pub fn from_vec(values: Vec<T>) -> (r: DoubleLinkedList<T>)
        ensures
            r.wf(),
            r@ == values@,
    {
        let ghost orig = values@;
        let mut l = DoubleLinkedList::with_capacity(values.len());
        let _ = l.multi_push(values);
        proof {
            assert(l@ =~= orig);
        }
        l
    }

    /// Resolves every in-range position of `indexes` into a view, walking
    /// each time from the nearest previously resolved anchor; positions out
    /// of range are skipped.
    pub fn multi_get_view(&self, indexes: Vec<usize>) -> (r: Option<Vec<DoubleLinkedView<T>>>)
        requires
            self.wf(),
        ensures
            ({
                let f = in_range_prefix(indexes@, self@.len() as int, indexes@.len() as int);
                r matches Some(vs) && vs@.len() == f.len() && (forall|k: int|
                    0 <= k < f.len() ==> self.view_at(#[trigger] vs@[k], f[k] as int))
            }),
    {
        let len = self.store.element_count();
        let mut views: Vec<DoubleLinkedView<T>> = Vec::with_capacity(indexes.len());
        let mut anchors: AnchorMap<T> = AnchorMap::new();
        if len > 0 {
            proof {
                assert(self.valid_at(0));
                assert(self.valid_at(self.chain().len() - 1));
            }
            anchors.insert(0, self.start);
            anchors.insert(len - 1, self.end);
        }
        let mut i: usize = 0;
        while i < indexes.len()
            invariant
                self.wf(),
                len == self@.len(),
                0 <= i <= indexes@.len(),
                len > 0 ==> anchors.entries_seq().len() > 0,
                anchors.keys_unique(),
                forall|j: int|
                    0 <= j < anchors.entries_seq().len() ==> ((#[trigger] anchors.entries_seq()[
                    j
                ]).0 < len && self.chain()[anchors.entries_seq()[j].0 as int]
                    == anchors.entries_seq()[j].1.pos()),
                views@.len() == in_range_prefix(indexes@, len as int, i as int).len(),
                forall|k: int|
                    0 <= k < views@.len() ==> self.view_at(
                        #[trigger] views@[k],
                        in_range_prefix(indexes@, len as int, i as int)[k] as int,
                    ),
            decreases indexes@.len() - i,
        {
            let index = indexes[i];
            if index < len {
                let (ck, cv) = anchors.closest(index);
                let cview = DoubleLinkedView { store_index: cv };
                proof {
                    assert(anchors.entries_seq().contains((ck, cv)));
                    let j = choose|j: int|
                        0 <= j < anchors.entries_seq().len() && anchors.entries_seq()[j] == (
                        ck,
                        cv,
                        );
                    assert(self.view_at(cview, ck as int));
                    self.lemma_view_index(cview, ck as int);
                }
                let true_view = if index <= ck {
                    self.get_unchecked_left_neighbour(&cview, ck - index)
                } else {
                    self.get_unchecked_right_neighbour(&cview, index - ck)
                };
                proof {
                    assert(self.view_at(true_view, index as int));
                }
                views.push(DoubleLinkedView { store_index: true_view.store_index });
                anchors.insert(index, true_view.store_index);
                proof {
                    assert(in_range_prefix(indexes@, len as int, i + 1) =~= in_range_prefix(
                        indexes@,
                        len as int,
                        i as int,
                    ).push(index));
                }
            } else {
                proof {
                    assert(in_range_prefix(indexes@, len as int, i + 1) =~= in_range_prefix(
                        indexes@,
                        len as int,
                        i as int,
                    ));
                }
            }
            i = i + 1;
        }
        Some(views)
    }

    /// Returns a borrow of the value at every in-range position of
    /// `indexes`, walking each time from the nearest previously resolved
    /// anchor; positions out of range are skipped.
    pub fn multi_get(&self, indexes: Vec<usize>) -> (r: Option<Vec<&T>>)
        requires
            self.wf(),
        ensures
            ({
                let f = in_range_prefix(indexes@, self@.len() as int, indexes@.len() as int);
                r matches Some(bs) && bs@.len() == f.len() && (forall|k: int|
                    0 <= k < f.len() ==> *(#[trigger] bs@[k]) == self@[f[k] as int])
            }),
    {
        let len = self.store.element_count();
        let mut borrows: Vec<&T> = Vec::with_capacity(indexes.len());
        let mut anchors: AnchorMap<T> = AnchorMap::new();
        if len > 0 {
            proof {
                assert(self.valid_at(0));
                assert(self.valid_at(self.chain().len() - 1));
            }
            anchors.insert(0, self.start);
            anchors.insert(len - 1, self.end);
        }
        let mut i: usize = 0;
        while i < indexes.len()
            invariant
                self.wf(),
                len == self@.len(),
                0 <= i <= indexes@.len(),
                len > 0 ==> anchors.entries_seq().len() > 0,
                anchors.keys_unique(),
                forall|j: int|
                    0 <= j < anchors.entries_seq().len() ==> ((#[trigger] anchors.entries_seq()[
                    j
                ]).0 < len && self.chain()[anchors.entries_seq()[j].0 as int]
                    == anchors.entries_seq()[j].1.pos()),
                borrows@.len() == in_range_prefix(indexes@, len as int, i as int).len(),
                forall|k: int|
                    0 <= k < borrows@.len() ==> *(#[trigger] borrows@[k]) == self@[in_range_prefix(
                        indexes@,
                        len as int,
                        i as int,
                    )[k] as int],
            decreases indexes@.len() - i,
        {
            let index = indexes[i];
            if index < len {
                let (ck, cv) = anchors.closest(index);
                let cview = DoubleLinkedView { store_index: cv };
                proof {
                    assert(anchors.entries_seq().contains((ck, cv)));
                    let j = choose|j: int|
                        0 <= j < anchors.entries_seq().len() && anchors.entries_seq()[j] == (
                        ck,
                        cv,
                        );
                    assert(self.view_at(cview, ck as int));
                    self.lemma_view_index(cview, ck as int);
                }
                let true_view = if index <= ck {
                    self.get_unchecked_left_neighbour(&cview, ck - index)
                } else {
                    self.get_unchecked_right_neighbour(&cview, index - ck)
                };
                proof {
                    assert(self.view_at(true_view, index as int));
                    assert(self.valid_at(index as int));
                }
                let node = self.store.get(true_view.store_index).unwrap();
                borrows.push(&node.value);
                anchors.insert(index, true_view.store_index);
                proof {
                    assert(in_range_prefix(indexes@, len as int, i + 1) =~= in_range_prefix(
                        indexes@,
                        len as int,
                        i as int,
                    ).push(index));
                }
            } else {
                proof {
                    assert(in_range_prefix(indexes@, len as int, i + 1) =~= in_range_prefix(
                        indexes@,
                        len as int,
                        i as int,
                    ));
                }
            }
            i = i + 1;
        }
        Some(borrows)
    }

    /// Inserts `value` so that it ends up at logical position `index`;
    /// returns nothing when `index` is out of range.
    pub fn insert(&mut self, index: usize, value: T) -> (r: Option<DoubleLinkedView<T>>)
        requires
            old(self).wf(),
        ensures
            final(self).wf(),
            (r is Some) == (index < old(self)@.len()),
            final(self)@ == insert_model(old(self)@, index as int, value),
            r is None ==> final(self)@ == old(self)@ && final(self).chain() == old(self).chain(),
            r is Some ==> final(self)@ == old(self)@.insert(index as int, value) && final(self).chain() == old(self).chain().insert(index as int, r.unwrap().pos()) && final(self).view_at(r.unwrap(), index as int),
    {
        match self.index_to_valueref(index) {
            Some(node_ref) => {
                let v = DoubleLinkedView::new(node_ref);
                proof {
                    assert(self.view_at(v, index as int));
                    self.lemma_view_index(v, index as int);
                }
                self.insert_left(&v, value)
            },
            None => None,
        }
    }

    /// Prepends `value` at the head and returns a view of the new node.
    pub fn push_front(&mut self, value: T) -> (r: DoubleLinkedView<T>)
        requires
            old(self).wf(),
        ensures
            final(self).wf(),
            final(self)@ == old(self)@.insert(0, value),
            final(self).chain() == old(self).chain().insert(0, r.pos()),
            final(self).view_at(r, 0),
    {
        let count = self.store.element_count();
        if count == 0 {
            let r = self.push(value);
            proof {
                assert(old(self)@.push(value) =~= old(self)@.insert(0, value));
                assert(old(self).chain().push(r.pos()) =~= old(self).chain().insert(0, r.pos()));
            }
            return r;
        }
        let start_ref = self.start;
        let v = DoubleLinkedView::new(start_ref);
        proof {
            assert(self.valid_at(0));
            assert(self.view_at(v, 0));
            self.lemma_view_index(v, 0);
        }
        let r = self.insert_left(&v, value);
        r.unwrap()
    }
}

/// A restartable forward iterator over a [`DoubleLinkedList`]: it remembers
/// the next node to visit and how many values are left, and borrows the list
/// on each step.
pub struct DoubleLinkedListIterator<T> {
    current_ref: Option<ValueRef<DoubleLinkedNode<T>>>,
    remaining_size: usize,
}

impl<T> DoubleLinkedListIterator<T> {
    /// How many values this iterator will still yield.
    pub closed spec fn remaining(self) -> int {
        self.remaining_size as int
    }

    /// The iterator stands at the node of `list` that is `remaining` values
    /// before the tail end of the traversal.
    pub closed spec fn valid_for(self, list: DoubleLinkedList<T>) -> bool {
        &&& self.remaining_size <= list@.len()
        &&& (self.remaining_size > 0 ==> (self.current_ref matches Some(r) && r.pos()
            == list.chain()[list@.len() - self.remaining_size]))
        &&& (self.remaining_size == 0 ==> (self.current_ref matches Some(r)
            ==> !list.store.spec_has_item(r)))
    }

    /// Yields a borrow of the next value in list order, or nothing once the
    /// iterator is exhausted.
    pub fn next<'a>(&mut self, list: &'a DoubleLinkedList<T>) -> (r: Option<&'a T>)
        requires
            list.wf(),
            old(self).valid_for(*list),
        ensures
            final(self).valid_for(*list),
            old(self).remaining() > 0 ==> (r matches Some(v) && *v == list@[list@.len() - old(self).remaining()] && final(self).remaining() == old(self).remaining() - 1),
            old(self).remaining() == 0 ==> r is None && *final(self) == *old(self),
    {
        let ghost k = list@.len() - self.remaining_size;
        match self.current_ref {
            None => None,
            Some(cr) => {
                proof {
                    if self.remaining_size > 0 {
                        assert(list.valid_at(k));
                    }
                }
                match list.store.get(cr) {
                    Some(node) => {
                        proof {
                            if self.remaining_size == 0 {
                                assert(!list.store.spec_has_item(cr));
                                assert(false);
                            }
                        }
                        self.remaining_size = self.remaining_size - 1;
                        self.current_ref = node.next;
                        Some(&node.value)
                    },
                    None => None,
                }
            },
        }
    }

    /// The number of values still to come, as lower and upper bound.
    pub fn size_hint(&self) -> (r: (usize, Option<usize>))
        ensures
            r.0 == self.remaining(),
            r.1 matches Some(u) && u == self.remaining(),
    {
        (self.remaining_size, Some(self.remaining_size))
    }
}

/// A restartable backward iterator over a [`DoubleLinkedList`]: like the
/// forward iterator, but it walks from the tail towards the head.
pub struct DoubleLinkedListReverseIterator<T> {
    current_ref: Option<ValueRef<DoubleLinkedNode<T>>>,
    remaining_size: usize,
}

impl<T> DoubleLinkedListReverseIterator<T> {
    /// How many values this iterator will still yield.
    pub closed spec fn remaining(self) -> int {
        self.remaining_size as int
    }

    /// The iterator stands at the node of `list` that is `remaining` values
    /// after the head end of the traversal.
    pub closed spec fn valid_for(self, list: DoubleLinkedList<T>) -> bool {
        &&& self.remaining_size <= list@.len()
        &&& (self.remaining_size > 0 ==> (self.current_ref matches Some(r) && r.pos()
            == list.chain()[self.remaining_size - 1]))
        &&& (self.remaining_size == 0 ==> (self.current_ref matches Some(r)
            ==> !list.store.spec_has_item(r)))
    }

    /// Yields a borrow of the next value in reverse list order, or nothing
    /// once the iterator is exhausted.
    pub fn next<'a>(&mut self, list: &'a DoubleLinkedList<T>) -> (r: Option<&'a T>)
        requires
            list.wf(),
            old(self).valid_for(*list),
        ensures
            final(self).valid_for(*list),
            old(self).remaining() > 0 ==> (r matches Some(v) && *v == list@[old(self).remaining()
                - 1] && final(self).remaining() == old(self).remaining() - 1),
            old(self).remaining() == 0 ==> r is None && *final(self) == *old(self),
    {
        let ghost k = self.remaining_size - 1;
        match self.current_ref {
            None => None,
            Some(cr) => {
                proof {
                    if self.remaining_size > 0 {
                        assert(list.valid_at(k));
                    }
                }
                match list.store.get(cr) {
                    Some(node) => {
                        proof {
                            if self.remaining_size == 0 {
                                assert(!list.store.spec_has_item(cr));
                                assert(false);
                            }
                        }
                        self.remaining_size = self.remaining_size - 1;
                        self.current_ref = node.prev;
                        Some(&node.value)
                    },
                    None => None,
                }
            },
        }
    }

    /// The number of values still to come, as lower and upper bound.
    pub fn size_hint(&self) -> (r: (usize, Option<usize>))
        ensures
            r.0 == self.remaining(),
            r.1 matches Some(u) && u == self.remaining(),
    {
        (self.remaining_size, Some(self.remaining_size))
    }
}

/// The node at chain position `k` of `l` is stored and its forward link
/// points at its chain successor; backward links are not constrained, which
/// is all a drain that only follows `next` needs.
spec fn drain_valid_at<T>(l: DoubleLinkedList<T>, k: int) -> bool {
    let p = l.chain()[k];
    &&& 0 <= p < l.store.slots().len()
    &&& l.store.slots()[p] is Some
    &&& link_of(l.node(p).next) == (if k == l.chain().len() - 1 {
        None::<int>
    } else {
        Some(l.chain()[k + 1])
    })
}

/// An owning iterator that destructively drains a [`DoubleLinkedList`] from
/// head to tail, taking each node out of the arena as it goes.
pub struct DoubleLinkedListIntoIterator<T> {
    dl_list: DoubleLinkedList<T>,
    current_ref: Option<ValueRef<DoubleLinkedNode<T>>>,
}

impl<T> DoubleLinkedListIntoIterator<T> {
    /// The values not yet handed out, head first.
    pub closed spec fn remaining_values(self) -> Seq<T> {
        self.dl_list@
    }

    /// The drained list still holds exactly the not-yet-visited chain
    /// suffix, forward-linked, and the cursor stands at its head.
    pub closed spec fn wf_drain(self) -> bool {
        let l = self.dl_list;
        &&& l.store.wf()
        &&& l.chain().len() == l.store.spec_element_count()
        &&& forall|k: int| 0 <= k < l.chain().len() ==> #[trigger] drain_valid_at(l, k)
        &&& forall|k1: int, k2: int|
            0 <= k1 < k2 < l.chain().len() ==> l.chain()[k1] != l.chain()[k2]
        &&& forall|p: int|
            0 <= p < l.store.slots().len() && (#[trigger] l.store.slots()[p]) is Some
                ==> l.chain().contains(p)
        &&& (l.chain().len() > 0 ==> (self.current_ref matches Some(r) && r.pos()
            == l.chain()[0]))
        &&& (l.chain().len() == 0 ==> (self.current_ref matches Some(r)
            ==> !l.store.spec_has_item(r)))
    }

    /// Takes the next value out of the drained list and returns it, or
    /// nothing once every value has been handed out.
    pub fn next(&mut self) -> (r: Option<T>)
        requires
            old(self).wf_drain(),
        ensures
            final(self).wf_drain(),
            (r is Some) == (old(self).remaining_values().len() > 0),
            r is Some ==> r == Some(old(self).remaining_values()[0]) && final(self).remaining_values() == old(self).remaining_values().drop_first(),
            r is None ==> final(self).remaining_values() == old(self).remaining_values(),
    {
        let ghost pre = *old(self);
        let ghost l0 = pre.dl_list;
        let cr = match self.current_ref {
            None => {
                return None;
            },
            Some(cr) => cr,
        };
        proof {
            if l0.chain().len() > 0 {
                assert(drain_valid_at(l0, 0));
            }
        }
        match self.dl_list.store.take(cr) {
            None => {
                proof {
                    if l0.chain().len() > 0 {
                        assert(false);
                    }
                }
                None
            },
            Some(node) => {
                proof {
                    if l0.chain().len() == 0 {
                        assert(!l0.store.spec_has_item(cr));
                        assert(false);
                    }
                }
                self.current_ref = node.next;
                self.dl_list.nodes = Ghost(self.dl_list.nodes@.drop_first());
                proof {
                    let l = self.dl_list;
                    crate::pool::lemma_take_element_count(
                        l0.store,
                        l.store,
                        cr,
                        Some(l0.node(l0.chain()[0])),
                    );
                    assert forall|k: int|
                        0 <= k < l.chain().len() implies #[trigger] drain_valid_at(l, k) by {
                        assert(drain_valid_at(l0, k + 1));
                        assert(l0.chain()[k + 1] != l0.chain()[0]);
                        assert(l.chain()[k] == l0.chain()[k + 1]);
                    }
                    assert forall|p: int|
                        0 <= p < l.store.slots().len() && (#[trigger] l.store.slots()[
                            p
                        ]) is Some implies l.chain().contains(p) by {
                        assert(l0.store.slots()[p] is Some);
                        assert(l0.chain().contains(p));
                        let k = choose|k: int|
                            0 <= k < l0.chain().len() && l0.chain()[k] == p;
                        assert(k != 0);
                        assert(l.chain()[k - 1] == p);
                    }
                    if l.chain().len() > 0 {
                        assert(drain_valid_at(l0, 0));
                        assert(drain_valid_at(l0, 1));
                    }
                    assert forall|k: int| 0 <= k < l@.len() implies l@[k] == l0@[k + 1] by {
                        assert(drain_valid_at(l0, k + 1));
                        assert(l0.chain()[k + 1] != l0.chain()[0]);
                    }
                    assert(l@ =~= l0@.drop_first());
                }
                Some(node.value)
            },
        }
    }
}

/// A small map from already-resolved logical positions to node references,
/// kept by the batched operations so that each new lookup can start from the
/// nearest previously resolved anchor instead of an endpoint.
struct AnchorMap<T> {
    entries: Vec<(usize, ValueRef<DoubleLinkedNode<T>>)>,
}

impl<T> AnchorMap<T> {
    /// The stored (position, reference) pairs.
    spec fn entries_seq(self) -> Seq<(usize, ValueRef<DoubleLinkedNode<T>>)> {
        self.entries@
    }

    fn new() -> (r: Self)
        ensures
            r.entries_seq().len() == 0,
            r.keys_unique(),
    {
        AnchorMap { entries: Vec::new() }
    }

    /// No two entries record the same position.
    spec fn keys_unique(self) -> bool {
        forall|a: int, b: int|
            0 <= a < b < self.entries_seq().len() ==> (#[trigger] self.entries_seq()[a]).0 != (
            #[trigger] self.entries_seq()[b]).0
    }

    /// Records `v` as the anchor for position `key`, replacing the anchor
    /// recorded for the same position, if any.
    fn insert(&mut self, key: usize, v: ValueRef<DoubleLinkedNode<T>>)
        requires
            old(self).keys_unique(),
        ensures
            final(self).keys_unique(),
            final(self).entries_seq().len() >= 1,
            forall|j: int|
                0 <= j < final(self).entries_seq().len() ==> (#[trigger] final(self).entries_seq()[j]) == (key, v) || (old(self).entries_seq().contains(
                    final(self).entries_seq()[j],
                ) && final(self).entries_seq()[j].0 != key),
    {
        let mut i: usize = 0;
        while i < self.entries.len()
            invariant
                0 <= i <= self.entries_seq().len(),
                *self == *old(self),
                old(self).keys_unique(),
                forall|a: int| 0 <= a < i ==> (#[trigger] self.entries_seq()[a]).0 != key,
            decreases self.entries_seq().len() - i,
        {
            if self.entries[i].0 == key {
                let ghost hit = i as int;
                self.entries.set(i, (key, v));
                proof {
                    assert forall|a: int, b: int|
                        0 <= a < b < self.entries_seq().len() implies (#[trigger] self.entries_seq()[a]).0 != (
                        #[trigger] self.entries_seq()[b]).0 by {
                        assert((old(self).entries_seq()[a]).0 != (old(self).entries_seq()[b]).0);
                    }
                    assert forall|j: int|
                        0 <= j < self.entries_seq().len() implies (#[trigger] self.entries_seq()[
                    j]) == (key, v) || (old(self).entries_seq().contains(self.entries_seq()[j])
                        && self.entries_seq()[j].0 != key) by {
                        if j != hit {
                            assert(self.entries_seq()[j] == old(self).entries_seq()[j]);
                            if old(self).entries_seq()[j].0 == key {
                                if j < hit {
                                    assert((old(self).entries_seq()[j]).0 != (old(self).entries_seq()[hit]).0);
                                } else {
                                    assert((old(self).entries_seq()[hit]).0 != (old(self).entries_seq()[j]).0);
                                }
                            }
                        }
                    }
                }
                return ;
            }
            i = i + 1;
        }
        self.entries.push((key, v));
        proof {
            assert forall|j: int|
                0 <= j < self.entries_seq().len() implies (#[trigger] self.entries_seq()[j]) == (
            key, v) || (old(self).entries_seq().contains(self.entries_seq()[j])
                && self.entries_seq()[j].0 != key) by {
                if j < self.entries_seq().len() - 1 {
                    assert(self.entries_seq()[j] == old(self).entries_seq()[j]);
                }
            }
        }
    }

    /// Returns the recorded anchor whose position is nearest to `key`,
    /// preferring the one at or after `key` on a tie.
    fn closest(&self, key: usize) -> (r: (usize, ValueRef<DoubleLinkedNode<T>>))
        requires
            self.entries_seq().len() > 0,
        ensures
            self.entries_seq().contains(r),
    {
        let mut best = self.entries[0];
        let mut i: usize = 1;
        while i < self.entries.len()
            invariant
                1 <= i <= self.entries_seq().len(),
                self.entries_seq().len() > 0,
                self.entries_seq().contains(best),
            decreases self.entries_seq().len() - i,
        {
            let e = self.entries[i];
            let e_dist = if e.0 >= key {
                e.0 - key
            } else {
                key - e.0
            };
            let best_dist = if best.0 >= key {
                best.0 - key
            } else {
                key - best.0
            };
            if e_dist < best_dist || (e_dist == best_dist && e.0 >= key && best.0 < key) {
                best = e;
            }
            i = i + 1;
        }
        best
    }
}

/// The members of `s`, in order, that are valid positions for a list of
/// length `len`, looking only at the first `n` entries.
pub open spec fn in_range_prefix(s: Seq<usize>, len: int, n: int) -> Seq<usize>
    decreases n,
{
    if n <= 0 {
        Seq::empty()
    } else {
        let p = in_range_prefix(s, len, n - 1);
        if s[n - 1] < len {
            p.push(s[n - 1])
        } else {
            p
        }
    }
}

/// What a single positional insertion does to a value sequence: the value
/// lands at `index` when that is an existing position, and nothing changes
/// otherwise.
pub open spec fn insert_model<T>(s: Seq<T>, index: int, value: T) -> Seq<T> {
    if 0 <= index < s.len() {
        s.insert(index, value)
    } else {
        s
    }
}

/// What a batch of positional insertions does to a value sequence: the
/// pairs are applied first to last, each against the sequence the previous
/// ones produced.
pub open spec fn multi_insert_model<T>(s: Seq<T>, pairs: Seq<(usize, T)>) -> Seq<T>
    decreases pairs.len(),
{
    if pairs.len() == 0 {
        s
    } else {
        multi_insert_model(insert_model(s, pairs[0].0 as int, pairs[0].1), pairs.drop_first())
    }
}

/// Batched insertion over (position, value) pairs equals applying the single
/// insertions one at a time, in the same order: extending the batch by one
/// pair inserts that pair into the result of the shorter batch.
pub proof fn lemma_multi_insert_is_iterated_insert<T>(s: Seq<T>, pairs: Seq<(usize, T)>, k: int)
    requires
        0 <= k < pairs.len(),
    ensures
        multi_insert_model(s, pairs.subrange(0, k + 1)) == insert_model(
            multi_insert_model(s, pairs.subrange(0, k)),
            pairs[k].0 as int,
            pairs[k].1,
        ),
    decreases k,
{
    reveal_with_fuel(multi_insert_model, 3);
    if k == 0 {
        let one = pairs.subrange(0, 1);
        assert(one[0] == pairs[0]);
        assert(one.drop_first() =~= Seq::<(usize, T)>::empty());
        assert(pairs.subrange(0, 0) =~= Seq::<(usize, T)>::empty());
    } else {
        let rest = pairs.drop_first();
        let s2 = insert_model(s, pairs[0].0 as int, pairs[0].1);
        assert(pairs.subrange(0, k + 1)[0] == pairs[0]);
        assert(pairs.subrange(0, k)[0] == pairs[0]);
        assert(pairs.subrange(0, k + 1).drop_first() =~= rest.subrange(0, k));
        assert(pairs.subrange(0, k).drop_first() =~= rest.subrange(0, k - 1));
        assert(multi_insert_model(s, pairs.subrange(0, k + 1)) == multi_insert_model(
            s2,
            rest.subrange(0, k),
        ));
        assert(multi_insert_model(s, pairs.subrange(0, k)) == multi_insert_model(
            s2,
            rest.subrange(0, k - 1),
        ));
        lemma_multi_insert_is_iterated_insert(s2, rest, k - 1);
        assert(rest[k - 1] == pairs[k]);
    }
}

/// A batch of insertions leaves an empty sequence empty: no position is in
/// range.
pub proof fn lemma_multi_insert_model_empty<T>(s: Seq<T>, pairs: Seq<(usize, T)>)
    requires
        s.len() == 0,
    ensures
        multi_insert_model(s, pairs) == s,
    decreases pairs.len(),
{
    if pairs.len() > 0 {
        lemma_multi_insert_model_empty(s, pairs.drop_first());
    }
}

/// A node value as seen by the arena contracts.
spec fn node_spec<T>(
    value: T,
    prev: Option<ValueRef<DoubleLinkedNode<T>>>,
    next: Option<ValueRef<DoubleLinkedNode<T>>>,
) -> DoubleLinkedNode<T> {
    DoubleLinkedNode { value, prev, next }
}

/// Splicing a fresh node at chain position `j` — its links set to the old
/// neighbours, the old neighbours relinked to it, everything else untouched —
/// yields a well-formed list whose values gained `value` at position `j`.
proof fn lemma_insert_wf<T>(
    pre: DoubleLinkedList<T>,
    post: DoubleLinkedList<T>,
    j: int,
    p: int,
    value: T,
)
    requires
        pre.wf(),
        0 <= j <= pre.chain().len(),
        !pre.chain().contains(p),
        post.chain() == pre.chain().insert(j, p),
        post.store.wf(),
        post.store.spec_element_count() == pre.store.spec_element_count() + 1,
        post.store.slots().len() == (if p < pre.store.slots().len() {
            pre.store.slots().len() as int
        } else {
            pre.store.slots().len() as int + 1
        }),
        0 <= p < post.store.slots().len(),
        post.store.slots()[p] is Some,
        ({
            let node = post.node(p);
            &&& node.value == value
            &&& link_of(node.prev) == (if j == 0 {
                None::<int>
            } else {
                Some(pre.chain()[j - 1])
            })
            &&& link_of(node.next) == (if j == pre.chain().len() {
                None::<int>
            } else {
                Some(pre.chain()[j])
            })
        }),
        forall|q: int|
            0 <= q < pre.store.slots().len() && q != p && (j == 0 || q != pre.chain()[j - 1]) && (
            j == pre.chain().len() || q != pre.chain()[j]) ==> post.store.slots()[q]
                == pre.store.slots()[q],
        j > 0 ==> ({
            let ln = post.node(pre.chain()[j - 1]);
            &&& post.store.slots()[pre.chain()[j - 1]] is Some
            &&& ln.value == pre.node(pre.chain()[j - 1]).value
            &&& ln.prev == pre.node(pre.chain()[j - 1]).prev
            &&& link_of(ln.next) == Some(p)
        }),
        j < pre.chain().len() ==> ({
            let tn = post.node(pre.chain()[j]);
            &&& post.store.slots()[pre.chain()[j]] is Some
            &&& tn.value == pre.node(pre.chain()[j]).value
            &&& tn.next == pre.node(pre.chain()[j]).next
            &&& link_of(tn.prev) == Some(p)
        }),
        post.start.pos() == (if j == 0 {
            p
        } else {
            pre.start.pos()
        }),
        post.end.pos() == (if j == pre.chain().len() {
            p
        } else {
            pre.end.pos()
        }),
    ensures
        post.wf(),
        post@ == pre@.insert(j, value),
{
    let n = pre.chain().len() as int;
    assert forall|k: int| 0 <= k < post.chain().len() implies #[trigger] post.valid_at(k) by {
        if k < j - 1 {
            assert(pre.valid_at(k));
            assert(pre.chain()[k] != pre.chain()[j - 1]);
            if j < n {
                assert(pre.chain()[k] != pre.chain()[j]);
            }
            assert(post.chain()[k] == pre.chain()[k]);
            assert(post.node(post.chain()[k]) == pre.node(pre.chain()[k]));
        } else if k == j - 1 {
            assert(pre.valid_at(k));
        } else if k == j {
            assert(post.chain()[k] == p);
        } else if k == j + 1 {
            assert(pre.valid_at(j));
            assert(post.chain()[k] == pre.chain()[j]);
            if j + 1 < post.chain().len() - 1 {
                assert(post.chain()[k + 1] == pre.chain()[j + 1]);
            }
        } else {
            assert(pre.valid_at(k - 1));
            assert(j > 0 ==> pre.chain()[k - 1] != pre.chain()[j - 1]);
            if j < n {
                assert(pre.chain()[k - 1] != pre.chain()[j]);
            }
            assert(post.chain()[k] == pre.chain()[k - 1]);
            assert(post.node(post.chain()[k]) == pre.node(pre.chain()[k - 1]));
        }
    }
    assert forall|k1: int, k2: int|
        0 <= k1 < k2 < post.chain().len() implies post.chain()[k1] != post.chain()[k2] by {
        let a1 = if k1 < j {
            k1
        } else {
            k1 - 1
        };
        let a2 = if k2 < j {
            k2
        } else {
            k2 - 1
        };
        if k1 == j {
            assert(!pre.chain().contains(post.chain()[k2]) ==> post.chain()[k1] != post.chain()[
                k2
            ]);
            assert(pre.chain()[a2] == post.chain()[k2]);
            assert(pre.chain().contains(pre.chain()[a2]));
        } else if k2 == j {
            assert(pre.chain()[a1] == post.chain()[k1]);
            assert(pre.chain().contains(pre.chain()[a1]));
        } else {
            assert(pre.chain()[a1] == post.chain()[k1]);
            assert(pre.chain()[a2] == post.chain()[k2]);
        }
    }
    assert forall|q: int|
        0 <= q < post.store.slots().len() && (#[trigger] post.store.slots()[q]) is Some
            implies post.chain().contains(q) by {
        if q == p {
            assert(post.chain()[j] == q);
        } else {
            if q < pre.store.slots().len() {
                if (j == 0 || q != pre.chain()[j - 1]) && (j == n || q != pre.chain()[j]) {
                    assert(post.store.slots()[q] == pre.store.slots()[q]);
                    assert(pre.store.slots()[q] is Some);
                } else {
                    if j > 0 && q == pre.chain()[j - 1] {
                        assert(pre.valid_at(j - 1));
                    }
                    if j < n && q == pre.chain()[j] {
                        assert(pre.valid_at(j));
                    }
                }
                assert(pre.chain().contains(q));
                let k = choose|k: int| 0 <= k < pre.chain().len() && pre.chain()[k] == q;
                if k < j {
                    assert(post.chain()[k] == q);
                } else {
                    assert(post.chain()[k + 1] == q);
                }
            }
        }
    }
    if post.chain().len() > 0 {
        assert(post.chain()[0] == (if j == 0 {
            p
        } else {
            pre.chain()[0]
        }));
        assert(post.chain().last() == (if j == n {
            p
        } else {
            pre.chain().last()
        }));
        if j != 0 {
            assert(pre.chain().len() > 0);
        }
    }
    assert forall|k: int| 0 <= k < post@.len() implies post@[k] == pre@.insert(j, value)[k] by {
        assert(post.valid_at(k));
        if k < j - 1 || k > j + 1 {
            let a = if k < j {
                k
            } else {
                k - 1
            };
            assert(post.node(post.chain()[k]) == pre.node(pre.chain()[a]));
        } else if k == j - 1 {
            assert(post.node(post.chain()[k]).value == pre.node(pre.chain()[k]).value);
        } else if k == j {
            assert(post.node(p).value == value);
        } else if k == j + 1 {
            assert(post.node(post.chain()[k]).value == pre.node(pre.chain()[j]).value);
        }
    }
    assert(post@ =~= pre@.insert(j, value));
}

/// A list with the same chain, endpoints and arena model as a well-formed
/// one is itself well-formed.
proof fn lemma_model_eq_wf<T>(pre: DoubleLinkedList<T>, post: DoubleLinkedList<T>)
    requires
        pre.wf(),
        post.chain() == pre.chain(),
        post.start == pre.start,
        post.end == pre.end,
        post.store.slots() == pre.store.slots(),
        post.store.free() == pre.store.free(),
    ensures
        post.wf(),
{
    assert forall|k: int| 0 <= k < post.chain().len() implies #[trigger] post.valid_at(k) by {
        assert(pre.valid_at(k));
    }
}

/// Overwriting the value of one chained node, links untouched, keeps the
/// list well-formed.
proof fn lemma_value_update_wf<T>(pre: DoubleLinkedList<T>, post: DoubleLinkedList<T>, jpos: int)
    requires
        pre.wf(),
        post.chain() == pre.chain(),
        post.start == pre.start,
        post.end == pre.end,
        post.store.free() == pre.store.free(),
        0 <= jpos < pre.store.slots().len(),
        pre.store.slots()[jpos] is Some,
        post.store.slots().len() == pre.store.slots().len(),
        post.store.slots()[jpos] is Some,
        post.node(jpos).prev == pre.node(jpos).prev,
        post.node(jpos).next == pre.node(jpos).next,
        forall|q: int|
            0 <= q < pre.store.slots().len() && q != jpos ==> post.store.slots()[q]
                == pre.store.slots()[q],
    ensures
        post.wf(),
{
    assert forall|k: int|
        0 <= k < post.store.free().len() implies (#[trigger] post.store.free()[k])
        < post.store.slots().len() && post.store.slots()[post.store.free()[k] as int] is None by {
        assert(pre.store.free()[k] < pre.store.slots().len());
        assert(pre.store.slots()[pre.store.free()[k] as int] is None);
        assert(pre.store.free()[k] != jpos);
    }
    assert forall|q: int|
        0 <= q < post.store.slots().len() && (#[trigger] post.store.slots()[q]) is None
            implies exists|i: int|
        0 <= i < post.store.free().len() && #[trigger] post.store.free()[i] == q by {
        assert(pre.store.slots()[q] is None);
        let k = choose|k: int| 0 <= k < pre.store.free().len() && pre.store.free()[k] == q;
        assert(post.store.free()[k] == q);
    }
    assert forall|k: int| 0 <= k < post.chain().len() implies #[trigger] post.valid_at(k) by {
        assert(pre.valid_at(k));
        if pre.chain()[k] != jpos {
            assert(post.store.slots()[pre.chain()[k]] == pre.store.slots()[pre.chain()[k]]);
        }
    }
    assert forall|q: int|
        0 <= q < post.store.slots().len() && (#[trigger] post.store.slots()[q]) is Some
            implies post.chain().contains(q) by {
        if q != jpos {
            assert(pre.store.slots()[q] is Some);
        } else {
            assert(pre.store.slots()[q] is Some);
        }
        assert(pre.chain().contains(q));
    }
}

/// In a well-formed list, the next position the arena hands out is not the
/// position of any chained node.
proof fn lemma_fresh_pos<T>(pre: DoubleLinkedList<T>, p: int)
    requires
        pre.wf(),
        p == pre.store.spec_next_pos(),
    ensures
        !pre.chain().contains(p),
{
    if pre.store.free().len() > 0 {
        let m = pre.store.free().len() - 1;
        assert(pre.store.free()[m] < pre.store.slots().len());
        assert(pre.store.slots()[p] is None);
        if pre.chain().contains(p) {
            let k = choose|k: int| 0 <= k < pre.chain().len() && pre.chain()[k] == p;
            assert(pre.valid_at(k));
        }
    } else {
        if pre.chain().contains(p) {
            let k = choose|k: int| 0 <= k < pre.chain().len() && pre.chain()[k] == p;
            assert(pre.valid_at(k));
        }
    }
}


/// Inserts `new_insert.1` immediately before the node at position
/// `new_insert.0`, starting the walk either from the remembered last
/// insertion point `last_insert` or from the nearer list end, whichever is
/// fewer steps. The remembered pair must still be accurate, and the new
/// position must not lie past the end of the list.
pub fn reuse_insert_left<T>(
    dll: &mut DoubleLinkedList<T>,
    last_insert: (usize, &DoubleLinkedView<T>),
    new_insert: (usize, T),
) -> (r: Option<DoubleLinkedView<T>>)
    requires
        old(dll).wf(),
        old(dll).view_at(*last_insert.1, last_insert.0 as int),
        new_insert.0 <= old(dll)@.len(),
    ensures
        final(dll).wf(),
        (r is Some) == (new_insert.0 < old(dll)@.len()),
        final(dll)@ == insert_model(old(dll)@, new_insert.0 as int, new_insert.1),
        r matches Some(v) ==> final(dll).view_at(v, new_insert.0 as int),
{
    let ghost pre = *old(dll);
    proof {
        dll.lemma_view_index(*last_insert.1, last_insert.0 as int);
    }
    let distance_to_start = new_insert.0;
    let distance_to_end = dll.len() - new_insert.0;
    let normal_minimal_distance = if distance_to_end < distance_to_start {
        distance_to_end
    } else {
        distance_to_start
    };
    if new_insert.0 >= last_insert.0 {
        let distance_to_last = new_insert.0 - last_insert.0;
        if distance_to_last < normal_minimal_distance {
            let target_view = dll.get_right_neighbour(last_insert.1, distance_to_last).unwrap();
            proof {
                assert(dll.view_at(target_view, new_insert.0 as int));
                dll.lemma_view_index(target_view, new_insert.0 as int);
            }
            return dll.insert_left(&target_view, new_insert.1);
        }
    } else {
        let distance_to_last = last_insert.0 - new_insert.0;
        if distance_to_last < normal_minimal_distance {
            let target_view = dll.get_left_neighbour(last_insert.1, distance_to_last).unwrap();
            proof {
                assert(dll.view_at(target_view, new_insert.0 as int));
                dll.lemma_view_index(target_view, new_insert.0 as int);
            }
            return dll.insert_left(&target_view, new_insert.1);
        }
    }
    match dll.get_view(new_insert.0) {
        Some(target_view) => {
            proof {
                dll.lemma_view_index(target_view, new_insert.0 as int);
            }
            dll.insert_left(&target_view, new_insert.1)
        },
        None => None,
    }
}

/// Inserts `new_insert.1` immediately after the node at position
/// `new_insert.0`, starting the walk either from the remembered last
/// insertion point `last_insert` or from the nearer list end, whichever is
/// fewer steps. The remembered pair must still be accurate.
pub fn reuse_insert_right<T>(
    dll: &mut DoubleLinkedList<T>,
    last_insert: (usize, &DoubleLinkedView<T>),
    new_insert: (usize, T),
) -> (r: Option<DoubleLinkedView<T>>)
    requires
        old(dll).wf(),
        old(dll).view_at(*last_insert.1, last_insert.0 as int),
    ensures
        final(dll).wf(),
        (r is Some) == (new_insert.0 < old(dll)@.len()),
        r is None ==> final(dll)@ == old(dll)@,
        r matches Some(v) ==> final(dll)@ == old(dll)@.insert(new_insert.0 + 1, new_insert.1)
            && final(dll).view_at(v, new_insert.0 + 1),
{
    let ghost pre = *old(dll);
    proof {
        dll.lemma_view_index(*last_insert.1, last_insert.0 as int);
    }
    if new_insert.0 >= dll.len() {
        return None;
    }
    let distance_to_start = new_insert.0;
    let distance_to_end = dll.len() - new_insert.0;
    let normal_minimal_distance = if distance_to_end < distance_to_start {
        distance_to_end
    } else {
        distance_to_start
    };
    if new_insert.0 >= last_insert.0 {
        let distance_to_last = new_insert.0 - last_insert.0;
        if distance_to_last < normal_minimal_distance {
            let target_view = dll.get_unchecked_right_neighbour(last_insert.1, distance_to_last);
            proof {
                assert(dll.view_at(target_view, new_insert.0 as int));
                dll.lemma_view_index(target_view, new_insert.0 as int);
            }
            return dll.insert_right(&target_view, new_insert.1);
        }
    } else {
        let distance_to_last = last_insert.0 - new_insert.0;
        if distance_to_last < normal_minimal_distance {
            let target_view = dll.get_unchecked_left_neighbour(last_insert.1, distance_to_last);
            proof {
                assert(dll.view_at(target_view, new_insert.0 as int));
                dll.lemma_view_index(target_view, new_insert.0 as int);
            }
            return dll.insert_right(&target_view, new_insert.1);
        }
    }
    let target_view = dll.get_view(new_insert.0).unwrap();
    proof {
        dll.lemma_view_index(target_view, new_insert.0 as int);
    }
    dll.insert_right(&target_view, new_insert.1)
}

/// Views survive a non-relocating swap attached to their values: peeking
/// either view afterwards yields the same value as before, while the list
/// order shows the two values exchanged.
pub proof fn lemma_swap_view_stability<T>(
    pre: DoubleLinkedList<T>,
    post: DoubleLinkedList<T>,
    view1: DoubleLinkedView<T>,
    view2: DoubleLinkedView<T>,
)
    requires
        pre.wf(),
        post.wf(),
        pre.view_valid(view1),
        pre.view_valid(view2),
        post.chain() == pre.chain().update(pre.view_index(view1), view2.pos()).update(
            pre.view_index(view2),
            view1.pos(),
        ),
        post@ == pre@.update(pre.view_index(view1), pre@[pre.view_index(view2)]).update(
            pre.view_index(view2),
            pre@[pre.view_index(view1)],
        ),
    ensures
        post.spec_peek(view1) == pre.spec_peek(view1),
        post.spec_peek(view2) == pre.spec_peek(view2),
        post@[pre.view_index(view2)] == pre@[pre.view_index(view1)],
        post@[pre.view_index(view1)] == pre@[pre.view_index(view2)],
{
    let j1 = pre.view_index(view1);
    let j2 = pre.view_index(view2);
    assert(pre.view_at(view1, j1));
    assert(pre.view_at(view2, j2));
    if j1 == j2 {
        assert(post.view_at(view1, j1));
        post.lemma_view_index(view1, j1);
        assert(post.view_at(view2, j2));
        post.lemma_view_index(view2, j2);
    } else {
        assert(post.view_at(view1, j2));
        post.lemma_view_index(view1, j2);
        assert(post.view_at(view2, j1));
        post.lemma_view_index(view2, j1);
    }
}

/// After a relocating swap the passed views alias the exchanged values: the
/// first passed view now yields the value that was at the second view's
/// position, and the other way round.
pub proof fn lemma_inner_swap_aliasing<T>(
    pre: DoubleLinkedList<T>,
    post: DoubleLinkedList<T>,
    view1: DoubleLinkedView<T>,
    view2: DoubleLinkedView<T>,
)
    requires
        pre.wf(),
        post.wf(),
        pre.view_valid(view1),
        pre.view_valid(view2),
        post.chain() == pre.chain(),
        post@ == pre@.update(pre.view_index(view1), pre@[pre.view_index(view2)]).update(
            pre.view_index(view2),
            pre@[pre.view_index(view1)],
        ),
    ensures
        post.spec_peek(view1) == Some(pre@[pre.view_index(view2)]),
        post.spec_peek(view2) == Some(pre@[pre.view_index(view1)]),
{
    let j1 = pre.view_index(view1);
    let j2 = pre.view_index(view2);
    assert(pre.view_at(view1, j1));
    assert(pre.view_at(view2, j2));
    assert(post.view_at(view1, j1));
    post.lemma_view_index(view1, j1);
    assert(post.view_at(view2, j2));
    post.lemma_view_index(view2, j2);
}

/// Positional access agrees with iteration: the value at position `i` is
/// the `i`-th value of the forward traversal, and also the `(len - 1 - i)`-th
/// value of the reverse traversal.
pub proof fn lemma_get_iteration_symmetry<T>(l: DoubleLinkedList<T>, i: int)
    requires
        l.wf(),
        0 <= i < l@.len(),
    ensures
        l.spec_get(i) == Some(l@[i]),
        l@.reverse()[l@.len() - 1 - i] == l@[i],
{
}

} // verus!
