//! A list of bounded size whose nodes live in a vector of slots made once,
//! when the list is created.
//!
//! A handle is the index of the node's slot. A removed node frees its slot,
//! and the next insertion takes the slot freed last, so a node that is taken
//! out and put back at once keeps its index. A push into a full list is
//! refused.
use crate::dll::DLL;
use crate::linked_list::{
    lemma_index_of_unique, lemma_insert_contains, lemma_remove_contains, to_back,
};
use vstd::prelude::*;
use vstd::set_lib::{lemma_int_range, lemma_len_subset, set_int_range};

verus! {

struct BodyNode<T> {
    elem: T,
    next: NodePointer,
    prev: NodePointer,
}

struct HeadNode {
    next: NodePointer,
}

struct TailNode {
    prev: NodePointer,
}

pub struct VectorLinkedList<T> {
    spine: Vec<Option<BodyNode<T>>>,
    capacity: usize,
    size: usize,
    next_insert: Option<usize>,
    head: HeadNode,
    tail: TailNode,
    /// The slots of the nodes, from front to back.
    order: Ghost<Seq<usize>>,
}

/// A handle: one of the two end markers, or the slot of a node.
#[derive(Clone, Copy, Debug, PartialEq, Eq, Structural)]
pub enum NodePointer {
    Head,
    Tail,
    Body(usize),
}

/// What the node at position `k` of `order` links to forwards.
spec fn link_next(order: Seq<usize>, k: int) -> NodePointer {
    if k + 1 < order.len() {
        NodePointer::Body(order[k + 1])
    } else {
        NodePointer::Tail
    }
}

/// What the node at position `k` of `order` links to backwards.
spec fn link_prev(order: Seq<usize>, k: int) -> NodePointer {
    if k > 0 {
        NodePointer::Body(order[k - 1])
    } else {
        NodePointer::Head
    }
}

/// Points the forward link of the node in slot `i` at `v`.
fn set_next<T>(spine: &mut Vec<Option<BodyNode<T>>>, i: usize, v: NodePointer)
    requires
        i < old(spine)@.len(),
        old(spine)@[i as int] is Some,
    ensures
        final(spine)@ == old(spine)@.update(
            i as int,
            Some(BodyNode { next: v, ..old(spine)@[i as int]->Some_0 }),
        ),
{
    match &mut spine[i] {
        Some(node) => node.next = v,
        None => {},
    }
}

/// Points the backward link of the node in slot `i` at `v`.
fn set_prev<T>(spine: &mut Vec<Option<BodyNode<T>>>, i: usize, v: NodePointer)
    requires
        i < old(spine)@.len(),
        old(spine)@[i as int] is Some,
    ensures
        final(spine)@ == old(spine)@.update(
            i as int,
            Some(BodyNode { prev: v, ..old(spine)@[i as int]->Some_0 }),
        ),
{
    match &mut spine[i] {
        Some(node) => node.prev = v,
        None => {},
    }
}

impl<T: Clone + Copy> VectorLinkedList<T> {
    spec fn slot_elem(&self, i: usize) -> T {
        self.spine@[i as int]->Some_0.elem
    }

    spec fn inv(&self) -> bool {
        let order = self.order@;
        let n = self.spine@.len();
        &&& self.size == order.len()
        &&& order.no_duplicates()
        &&& forall|k: int| 0 <= k < order.len() ==> #[trigger] order[k] < n
        &&& forall|i: usize|
            i < n ==> (#[trigger] self.spine@[i as int] is Some <==> order.contains(i))
        &&& forall|k: int|
            0 <= k < order.len() ==> {
                let node = #[trigger] self.spine@[order[k] as int];
                &&& node is Some
                &&& node->Some_0.next == link_next(order, k)
                &&& node->Some_0.prev == link_prev(order, k)
            }
        &&& self.head.next == (if order.len() > 0 {
            NodePointer::Body(order[0])
        } else {
            NodePointer::Tail
        })
        &&& self.tail.prev == (if order.len() > 0 {
            NodePointer::Body(order.last())
        } else {
            NodePointer::Head
        })
        &&& n == self.capacity
        &&& self.size <= self.capacity
        &&& match self.next_insert {
            Some(i) => i < n && self.spine@[i as int] is None,
            None => self.size == self.capacity,
        }
    }

    /// An empty list with room for `capacity` values.
    pub fn new(capacity: usize) -> (r: Self)
        ensures
            r.wf(),
            r.elems() == Seq::<T>::empty(),
            r.spec_capacity() == capacity,
    {
        let mut vec: Vec<Option<BodyNode<T>>> = Vec::new();
        let mut i: usize = 0;
        while i < capacity
            invariant
                i <= capacity,
                vec@.len() == i,
                forall|j: int| 0 <= j < i ==> vec@[j] is None,
            decreases capacity - i,
        {
            vec.push(None);
            i = i + 1;
        }
        let r = Self {
            spine: vec,
            size: 0,
            capacity: capacity,
            next_insert: if capacity > 0 {
                Some(0)
            } else {
                None
            },
            head: HeadNode { next: NodePointer::Tail },
            tail: TailNode { prev: NodePointer::Head },
            order: Ghost(Seq::empty()),
        };
        proof {
            assert(r.elems() =~= Seq::<T>::empty());
        }
        r
    }

    /// A free slot: the one after the last filled when that is free, else
    /// the first free one; `None` when every slot is taken.
    fn find_next(&self) -> (r: Option<usize>)
        ensures
            match r {
                Some(i) => i < self.spine@.len() && self.spine@[i as int] is None,
                None => forall|j: int| 0 <= j < self.spine@.len() ==> self.spine@[j] is Some,
            },
    {
        match self.next_insert {
            Some(i) => {
                if i < self.spine.len() && i + 1 < self.spine.len() {
                    if self.spine[i + 1].is_none() {
                        return Some(i + 1);
                    }
                }
            },
            None => {},
        }
        let mut i: usize = 0;
        while i < self.spine.len()
            invariant
                i <= self.spine@.len(),
                forall|j: int| 0 <= j < i ==> self.spine@[j] is Some,
            decreases self.spine@.len() - i,
        {
            if self.spine[i].is_none() {
                return Some(i);
            }
            i = i + 1;
        }
        None
    }

    /// Puts `elem` in a new node between the adjacent `p` and `n`, which
    /// stand at positions `pos - 1` and `pos`.
    #[verifier::rlimit(80)]
    fn insert_between(
        &mut self,
        elem: T,
        p: NodePointer,
        n: NodePointer,
        pos: Ghost<int>,
    ) -> (r: Option<NodePointer>)
        requires
            old(self).inv(),
            old(self).size < old(self).capacity,
            0 <= pos@ <= old(self).order@.len(),
            p == link_prev(old(self).order@.insert(pos@, 0), pos@),
            n == link_next(old(self).order@.insert(pos@, 0), pos@),
        ensures
            final(self).inv(),
            old(self).next_insert is Some,
            r == Some(NodePointer::Body(old(self).next_insert->Some_0)),
            !old(self).order@.contains(old(self).next_insert->Some_0),
            final(self).order@ == old(self).order@.insert(pos@, old(self).next_insert->Some_0),
            final(self).elems() == old(self).elems().insert(pos@, elem),
            final(self).capacity == old(self).capacity,
    {
        let ghost order = self.order@;
        let ghost old_spine = self.spine@;
        let new_node = BodyNode { elem: elem, next: n, prev: p };

        let insert_at = match self.next_insert {
            None => return None,
            Some(i) => i,
        };
        proof {
            if order.contains(insert_at) {
                let k = order.index_of(insert_at);
                assert(self.spine@[order[k] as int] is Some);
            }
        }
        self.spine.set(insert_at, Some(new_node));
        let ghost new_order = order.insert(pos@, insert_at);
        self.order = Ghost(new_order);

        match n {
            NodePointer::Head => {
                proof {
                    assert(false);
                }
            },
            NodePointer::Tail => self.tail.prev = NodePointer::Body(insert_at),
            NodePointer::Body(next) => {
                proof {
                    assert(next == order[pos@]);
                }
                set_prev(&mut self.spine, next, NodePointer::Body(insert_at));
            },
        }

        match p {
            NodePointer::Tail => {
                proof {
                    assert(false);
                }
            },
            NodePointer::Head => self.head.next = NodePointer::Body(insert_at),
            NodePointer::Body(prev) => {
                proof {
                    assert(prev == order[pos@ - 1]);
                }
                set_next(&mut self.spine, prev, NodePointer::Body(insert_at));
            },
        }

        self.next_insert = self.find_next();
        self.size += 1;
        proof {
            if self.next_insert is None {
                assert forall|i: usize| i < self.capacity implies new_order.contains(i) by {
                    lemma_insert_contains(order, pos@, insert_at, i);
                    assert(self.spine@[i as int] is Some);
                }
                lemma_all_taken(new_order, self.capacity as nat);
            }
            assert forall|k: int| 0 <= k < new_order.len() implies #[trigger] new_order[k]
                < self.spine@.len() by {
                if k < pos@ {
                    assert(new_order[k] == order[k]);
                } else if k > pos@ {
                    assert(new_order[k] == order[k - 1]);
                }
            }
            assert forall|i: usize| i < self.spine@.len() implies (#[trigger] self.spine@[i as int] is Some
                <==> new_order.contains(i)) by {
                lemma_insert_contains(order, pos@, insert_at, i);
            }
            assert forall|k: int| 0 <= k < new_order.len() implies {
                let node = #[trigger] self.spine@[new_order[k] as int];
                &&& node is Some
                &&& node->Some_0.next == link_next(new_order, k)
                &&& node->Some_0.prev == link_prev(new_order, k)
            } by {
                if k < pos@ {
                    assert(new_order[k] == order[k]);
                    assert(old_spine[order[k] as int] is Some);
                } else if k > pos@ {
                    assert(new_order[k] == order[k - 1]);
                    assert(old_spine[order[k - 1] as int] is Some);
                }
            }
            assert(new_order.no_duplicates());
            assert(self.elems() =~= old(self).elems().insert(pos@, elem)) by {
                assert forall|k: int| 0 <= k < new_order.len() && k != pos@ implies
                    #[trigger] self.slot_elem(new_order[k]) == (if k < pos@ {
                    old(self).slot_elem(order[k])
                } else {
                    old(self).slot_elem(order[k - 1])
                }) by {
                    if k < pos@ {
                        assert(new_order[k] == order[k]);
                    } else {
                        assert(new_order[k] == order[k - 1]);
                    }
                }
            }
        }
        Some(NodePointer::Body(insert_at))
    }

    /// Whether `n` is the handle of a node of the list.
    spec fn live(&self, n: NodePointer) -> bool {
        n is Body && self.order@.contains(n->Body_0)
    }

    /// A handle of the list names the node in the slot it holds.
    proof fn lemma_ptr_index(&self, i: usize)
        requires
            self.inv(),
        ensures
            self.ptrs().contains(NodePointer::Body(i)) == self.order@.contains(i),
            !self.ptrs().contains(NodePointer::Head),
            !self.ptrs().contains(NodePointer::Tail),
            self.order@.contains(i) ==> {
                let k = self.order@.index_of(i);
                &&& 0 <= k < self.order@.len()
                &&& self.order@[k] == i
                &&& self.ptrs().index_of(NodePointer::Body(i)) == k
            },
    {
        self.lemma_wf();
        let ptrs = self.ptrs();
        if self.order@.contains(i) {
            let k = self.order@.index_of(i);
            assert(ptrs[k] == NodePointer::Body(i));
            lemma_index_of_unique(ptrs, k);
        }
        if ptrs.contains(NodePointer::Body(i)) {
            let k = ptrs.index_of(NodePointer::Body(i));
            assert(self.order@[k] == i);
        }
    }

    /// Takes the node of `n` out of the list and returns its value; `None`,
    /// changing nothing, when no node has `n`.
    #[verifier::rlimit(80)]
    fn remove(&mut self, n: NodePointer) -> (r: Option<T>)
        requires
            old(self).inv(),
        ensures
            final(self).inv(),
            old(self).live(n) ==> {
                let k = old(self).order@.index_of(n->Body_0);
                &&& r == Some(old(self).elems()[k])
                &&& final(self).order@ == old(self).order@.remove(k)
                &&& final(self).elems() == old(self).elems().remove(k)
                &&& final(self).next_insert == Some(n->Body_0)
            },
            !old(self).live(n) ==> r is None && final(self).order@ == old(self).order@
                && final(self).elems() == old(self).elems(),
            final(self).capacity == old(self).capacity,
    {
        let ghost order = self.order@;
        let ghost old_spine = self.spine@;
        let vec_index = match n {
            NodePointer::Body(i) => i,
            _ => return None,
        };
        if vec_index >= self.spine.len() {
            proof {
                if order.contains(vec_index) {
                    let k = order.index_of(vec_index);
                    assert(order[k] < self.spine@.len());
                }
            }
            return None;
        }
        let existing_node = match self.spine[vec_index].take() {
            None => {
                proof {
                    assert(self.spine@ =~= old_spine);
                    assert(self.elems() =~= old(self).elems());
                }
                return None;
            },
            Some(node) => node,
        };
        let ghost k = order.index_of(vec_index);
        proof {
            assert(order.contains(vec_index));
            assert(order[k] == vec_index);
            assert(old_spine[order[k] as int] is Some);
        }

        // The freed slot is the next one to fill.
        self.next_insert = Some(vec_index);
        self.size -= 1;
        let ghost new_order = order.remove(k);
        self.order = Ghost(new_order);

        match existing_node.next {
            NodePointer::Head => {
                proof {
                    assert(false);
                }
            },
            NodePointer::Tail => self.tail.prev = existing_node.prev,
            NodePointer::Body(next) => {
                proof {
                    assert(next == order[k + 1]);
                    assert(old_spine[order[k + 1] as int] is Some);
                }
                set_prev(&mut self.spine, next, existing_node.prev);
            },
        }

        match existing_node.prev {
            NodePointer::Tail => {
                proof {
                    assert(false);
                }
            },
            NodePointer::Head => self.head.next = existing_node.next,
            NodePointer::Body(prev) => {
                proof {
                    assert(prev == order[k - 1]);
                    assert(old_spine[order[k - 1] as int] is Some);
                }
                set_next(&mut self.spine, prev, existing_node.next);
            },
        }

        proof {
            assert forall|j: int| 0 <= j < new_order.len() implies #[trigger] new_order[j]
                < self.spine@.len() by {
                if j < k {
                    assert(new_order[j] == order[j]);
                } else {
                    assert(new_order[j] == order[j + 1]);
                }
            }
            assert forall|i: usize| i < self.spine@.len() implies (#[trigger] self.spine@[i as int] is Some
                <==> new_order.contains(i)) by {
                lemma_remove_contains(order, k, i);
            }
            assert forall|j: int| 0 <= j < new_order.len() implies {
                let node = #[trigger] self.spine@[new_order[j] as int];
                &&& node is Some
                &&& node->Some_0.next == link_next(new_order, j)
                &&& node->Some_0.prev == link_prev(new_order, j)
            } by {
                if j < k {
                    assert(new_order[j] == order[j]);
                    assert(old_spine[order[j] as int] is Some);
                } else {
                    assert(new_order[j] == order[j + 1]);
                    assert(old_spine[order[j + 1] as int] is Some);
                }
            }
            assert(self.elems() =~= old(self).elems().remove(k)) by {
                assert forall|j: int| 0 <= j < new_order.len() implies #[trigger] self.slot_elem(
                    new_order[j],
                ) == (if j < k {
                    old(self).slot_elem(order[j])
                } else {
                    old(self).slot_elem(order[j + 1])
                }) by {
                    if j < k {
                        assert(new_order[j] == order[j]);
                    } else {
                        assert(new_order[j] == order[j + 1]);
                    }
                }
            }
        }
        Some(existing_node.elem)
    }
}

/// A sequence of distinct slots that takes every one of `n` slots has at
/// least `n` entries.
proof fn lemma_all_taken(order: Seq<usize>, n: nat)
    requires
        forall|i: usize| i < n ==> order.contains(i),
        n <= usize::MAX + 1,
    ensures
        order.len() >= n,
{
    let m = order.map_values(|x: usize| x as int);
    let s = m.to_set();
    lemma_int_range(0, n as int);
    assert forall|i: int| set_int_range(0, n as int).contains(i) implies s.contains(i) by {
        let u = i as usize;
        assert(order.contains(u));
        let k = order.index_of(u);
        assert(m[k] == i);
    }
    m.lemma_cardinality_of_set();
    lemma_len_subset(set_int_range(0, n as int), s);
}

impl<T: Clone + Copy> DLL<T> for VectorLinkedList<T> {
    type Pointer = NodePointer;

    closed spec fn wf(&self) -> bool {
        self.inv()
    }

    closed spec fn elems(&self) -> Seq<T> {
        self.order@.map_values(|i: usize| self.slot_elem(i))
    }

    closed spec fn ptrs(&self) -> Seq<NodePointer> {
        self.order@.map_values(|i: usize| NodePointer::Body(i))
    }

    closed spec fn spec_capacity(&self) -> nat {
        self.capacity as nat
    }

    proof fn lemma_wf(&self) {
        let ptrs = self.ptrs();
        assert forall|a: int, b: int| 0 <= a < ptrs.len() && 0 <= b < ptrs.len() && a != b implies
            ptrs[a] != ptrs[b] by {
            assert(self.order@[a] != self.order@[b]);
        }
    }

    fn size(&self) -> (r: usize) {
        self.size
    }

    fn capacity(&self) -> (r: usize) {
        self.capacity
    }

    fn get(&self, n: NodePointer) -> (r: Option<T>) {
        proof {
            if n is Body {
                self.lemma_ptr_index(n->Body_0);
            } else {
                self.lemma_ptr_index(0);
            }
        }
        match n {
            NodePointer::Body(i) => {
                if i < self.spine.len() {
                    match &self.spine[i] {
                        Some(node) => Some(node.elem),
                        None => None,
                    }
                } else {
                    proof {
                        if self.order@.contains(i) {
                            let k = self.order@.index_of(i);
                            assert(self.order@[k] < self.spine@.len());
                        }
                    }
                    None
                }
            },
            _ => None,
        }
    }

    fn replace_val(&mut self, n: NodePointer, elem: T) -> (r: Option<NodePointer>) {
        proof {
            if n is Body {
                self.lemma_ptr_index(n->Body_0);
            } else {
                self.lemma_ptr_index(0);
            }
        }
        let ghost order = self.order@;
        match n {
            NodePointer::Body(i) => {
                if i < self.spine.len() {
                    let ghost k = order.index_of(i);
                    let r = match &mut self.spine[i] {
                        Some(curr_node) => {
                            curr_node.elem = elem;
                            Some(n)
                        },
                        None => None,
                    };
                    proof {
                        if r is Some {
                            assert forall|j: int| 0 <= j < order.len() implies {
                                let node = #[trigger] self.spine@[order[j] as int];
                                &&& node is Some
                                &&& node->Some_0.next == link_next(order, j)
                                &&& node->Some_0.prev == link_prev(order, j)
                            } by {
                                assert(old(self).spine@[order[j] as int] is Some);
                            }
                            assert(self.elems() =~= old(self).elems().update(k, elem)) by {
                                assert forall|j: int| 0 <= j < order.len() && j != k implies
                                    #[trigger] self.slot_elem(order[j]) == old(self).slot_elem(
                                    order[j],
                                ) by {
                                    assert(order[j] != order[k]);
                                }
                            }
                        } else {
                            assert(self.spine@ =~= old(self).spine@);
                        }
                    }
                    r
                } else {
                    proof {
                        if order.contains(i) {
                            let k = order.index_of(i);
                            assert(order[k] < self.spine@.len());
                        }
                    }
                    None
                }
            },
            _ => None,
        }
    }

    fn push_back(&mut self, elem: T) -> (r: Option<NodePointer>) {
        if self.size == self.capacity {
            return None;
        }
        let p = self.tail.prev;
        let ghost len = self.order@.len() as int;
        let r = self.insert_between(elem, p, NodePointer::Tail, Ghost(len));
        proof {
            assert(self.ptrs() =~= old(self).ptrs().push(r->Some_0));
            old(self).lemma_ptr_index(old(self).next_insert->Some_0);
        }
        r
    }

    fn pop_front(&mut self) -> (r: Option<T>) {
        proof {
            if self.order@.len() > 0 {
                lemma_index_of_unique(self.order@, 0);
            }
        }
        let r = self.remove(self.head.next);
        proof {
            if old(self).order@.len() > 0 {
                assert(self.ptrs() =~= old(self).ptrs().drop_first());
                assert(self.elems() =~= old(self).elems().drop_first());
            } else {
                assert(self.ptrs() =~= old(self).ptrs());
            }
        }
        r
    }

    fn peek_front(&self) -> (r: Option<T>) {
        proof {
            self.lemma_wf();
            if self.order@.len() > 0 {
                self.lemma_ptr_index(self.order@[0]);
                lemma_index_of_unique(self.order@, 0);
            }
        }
        self.get(self.head.next)
    }

    fn move_back(&mut self, n: NodePointer) -> (r: Option<NodePointer>) {
        proof {
            self.lemma_ptr_index(0);
            self.lemma_ptr_index(n->Body_0);
        }
        let ghost k = self.order@.index_of(n->Body_0);
        let elem = self.remove(n).unwrap();
        let p = self.tail.prev;
        let ghost len = self.order@.len() as int;
        let r = self.insert_between(elem, p, NodePointer::Tail, Ghost(len));
        proof {
            assert(self.ptrs() =~= to_back(old(self).ptrs(), k));
            assert(self.elems() =~= to_back(old(self).elems(), k));
        }
        r
    }
}

} // verus!
