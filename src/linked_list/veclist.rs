//! A list whose nodes live in the slots of a growable vector.
//!
//! A handle is the index of the node's slot. A removed node frees its slot,
//! and the next insertion takes the slot freed last, so a node that is taken
//! out and put back at once keeps its index.
use crate::linked_list::{
    first_of, lemma_index_of_unique, lemma_insert_contains, lemma_remove_contains,
    lemma_traversal, to_back, to_front, walk_next, DLLIntoIter, DLLIterator, DLL,
};
use vstd::prelude::*;

verus! {

struct BodyNode<T> {
    elem: T,
    next: NodePointer,
    prev: NodePointer,
}

struct HeadNode {
    next: NodePointer,
}

struct TailNode {
    prev: NodePointer,
}

pub struct VectorLinkedList<T> {
    spine: Vec<Option<BodyNode<T>>>,
    size: usize,
    next_insert: usize,
    head: HeadNode,
    tail: TailNode,
    /// The slots of the nodes, from front to back.
    order: Ghost<Seq<usize>>,
}

/// A handle: one of the two end markers, or the slot of a node.
#[derive(Clone, Copy, Debug, PartialEq, Eq, Structural)]
pub enum NodePointer {
    Head,
    Tail,
    Body(usize),
}

/// What the node at position `k` of `order` links to forwards.
spec fn link_next(order: Seq<usize>, k: int) -> NodePointer {
    if k + 1 < order.len() {
        NodePointer::Body(order[k + 1])
    } else {
        NodePointer::Tail
    }
}

/// What the node at position `k` of `order` links to backwards.
spec fn link_prev(order: Seq<usize>, k: int) -> NodePointer {
    if k > 0 {
        NodePointer::Body(order[k - 1])
    } else {
        NodePointer::Head
    }
}

/// Points the forward link of the node in slot `i` at `v`.
fn set_next<T>(spine: &mut Vec<Option<BodyNode<T>>>, i: usize, v: NodePointer)
    requires
        i < old(spine)@.len(),
        old(spine)@[i as int] is Some,
    ensures
        final(spine)@ == old(spine)@.update(
            i as int,
            Some(BodyNode { next: v, ..old(spine)@[i as int]->Some_0 }),
        ),
{
    match &mut spine[i] {
        Some(node) => node.next = v,
        None => {},
    }
}

/// Points the backward link of the node in slot `i` at `v`.
fn set_prev<T>(spine: &mut Vec<Option<BodyNode<T>>>, i: usize, v: NodePointer)
    requires
        i < old(spine)@.len(),
        old(spine)@[i as int] is Some,
    ensures
        final(spine)@ == old(spine)@.update(
            i as int,
            Some(BodyNode { prev: v, ..old(spine)@[i as int]->Some_0 }),
        ),
{
    match &mut spine[i] {
        Some(node) => node.prev = v,
        None => {},
    }
}

impl<T> VectorLinkedList<T> {
    spec fn slot_elem(&self, i: usize) -> T {
        self.spine@[i as int]->Some_0.elem
    }

    spec fn inv(&self) -> bool {
        let order = self.order@;
        let n = self.spine@.len();
        &&& self.size == order.len()
        &&& order.no_duplicates()
        &&& forall|k: int| 0 <= k < order.len() ==> #[trigger] order[k] < n
        &&& forall|i: usize|
            i < n ==> (#[trigger] self.spine@[i as int] is Some <==> order.contains(i))
        &&& forall|k: int|
            0 <= k < order.len() ==> {
                let node = #[trigger] self.spine@[order[k] as int];
                &&& node is Some
                &&& node->Some_0.next == link_next(order, k)
                &&& node->Some_0.prev == link_prev(order, k)
            }
        &&& self.head.next == (if order.len() > 0 {
            NodePointer::Body(order[0])
        } else {
            NodePointer::Tail
        })
        &&& self.tail.prev == (if order.len() > 0 {
            NodePointer::Body(order.last())
        } else {
            NodePointer::Head
        })
        &&& self.next_insert <= n
        &&& self.next_insert < n ==> self.spine@[self.next_insert as int] is None
    }

    /// An empty list.
    pub fn new() -> (r: Self)
        ensures
            r.wf(),
            r.elems() == Seq::<T>::empty(),
    {
        let r = Self {
            spine: Vec::new(),
            size: 0,
            next_insert: 0,
            head: HeadNode { next: NodePointer::Tail },
            tail: TailNode { prev: NodePointer::Head },
            order: Ghost(Seq::empty()),
        };
        proof {
            assert(r.elems() =~= Seq::<T>::empty());
        }
        r
    }

    /// The first free slot, or the length of the vector when none is free.
    fn find_next(&self) -> (r: usize)
        ensures
            r <= self.spine@.len(),
            r < self.spine@.len() ==> self.spine@[r as int] is None,
            forall|j: int| 0 <= j < r ==> self.spine@[j] is Some,
    {
        let mut i: usize = 0;
        while i < self.spine.len()
            invariant
                i <= self.spine@.len(),
                forall|j: int| 0 <= j < i ==> self.spine@[j] is Some,
            decreases self.spine@.len() - i,
        {
            if self.spine[i].is_none() {
                return i;
            }
            i = i + 1;
        }
        self.spine.len()
    }

    /// Puts `elem` in a new node between the adjacent `p` and `n`, which
    /// stand at positions `pos - 1` and `pos`.
    #[verifier::rlimit(80)]
    fn insert_between(
        &mut self,
        elem: T,
        p: &NodePointer,
        n: &NodePointer,
        pos: Ghost<int>,
    ) -> (r: NodePointer)
        requires
            old(self).inv(),
            old(self).size < usize::MAX,
            0 <= pos@ <= old(self).order@.len(),
            *p == link_prev(old(self).order@.insert(pos@, 0), pos@),
            *n == link_next(old(self).order@.insert(pos@, 0), pos@),
        ensures
            final(self).inv(),
            r == NodePointer::Body(old(self).next_insert),
            !old(self).order@.contains(old(self).next_insert),
            final(self).order@ == old(self).order@.insert(pos@, old(self).next_insert),
            final(self).elems() == old(self).elems().insert(pos@, elem),
    {
        let ghost order = self.order@;
        let ghost old_spine = self.spine@;
        let new_node = BodyNode { elem: elem, next: *n, prev: *p };

        let insert_at = self.next_insert;
        proof {
            if order.contains(insert_at) {
                let k = order.index_of(insert_at);
                assert(self.spine@[order[k] as int] is Some);
            }
        }
        if insert_at < self.spine.len() {
            self.spine.set(insert_at, Some(new_node));
        } else {
            self.spine.push(Some(new_node));
        }
        let ghost new_order = order.insert(pos@, insert_at);
        self.order = Ghost(new_order);

        match *n {
            NodePointer::Head => {
                proof {
                    assert(false);
                }
            },
            NodePointer::Tail => self.tail.prev = NodePointer::Body(insert_at),
            NodePointer::Body(next) => {
                proof {
                    assert(next == order[pos@]);
                }
                set_prev(&mut self.spine, next, NodePointer::Body(insert_at));
            },
        }

        match *p {
            NodePointer::Tail => {
                proof {
                    assert(false);
                }
            },
            NodePointer::Head => self.head.next = NodePointer::Body(insert_at),
            NodePointer::Body(prev) => {
                proof {
                    assert(prev == order[pos@ - 1]);
                }
                set_next(&mut self.spine, prev, NodePointer::Body(insert_at));
            },
        }

        self.next_insert = self.find_next();
        self.size += 1;
        proof {
            assert forall|k: int| 0 <= k < new_order.len() implies #[trigger] new_order[k]
                < self.spine@.len() by {
                if k < pos@ {
                    assert(new_order[k] == order[k]);
                } else if k > pos@ {
                    assert(new_order[k] == order[k - 1]);
                }
            }
            assert forall|i: usize| i < self.spine@.len() implies (#[trigger] self.spine@[i as int] is Some
                <==> new_order.contains(i)) by {
                lemma_insert_contains(order, pos@, insert_at, i);
            }
            assert forall|k: int| 0 <= k < new_order.len() implies {
                let node = #[trigger] self.spine@[new_order[k] as int];
                &&& node is Some
                &&& node->Some_0.next == link_next(new_order, k)
                &&& node->Some_0.prev == link_prev(new_order, k)
            } by {
                if k < pos@ {
                    assert(new_order[k] == order[k]);
                    assert(old_spine[order[k] as int] is Some);
                } else if k > pos@ {
                    assert(new_order[k] == order[k - 1]);
                    assert(old_spine[order[k - 1] as int] is Some);
                }
            }
            assert(new_order.no_duplicates());
            assert(self.elems() =~= old(self).elems().insert(pos@, elem)) by {
                assert forall|k: int| 0 <= k < new_order.len() && k != pos@ implies
                    #[trigger] self.slot_elem(new_order[k]) == (if k < pos@ {
                    old(self).slot_elem(order[k])
                } else {
                    old(self).slot_elem(order[k - 1])
                }) by {
                    if k < pos@ {
                        assert(new_order[k] == order[k]);
                    } else {
                        assert(new_order[k] == order[k - 1]);
                    }
                }
            }
        }
        NodePointer::Body(insert_at)
    }

    /// Whether `n` is the handle of a node of the list.
    spec fn live(&self, n: NodePointer) -> bool {
        n is Body && self.order@.contains(n->Body_0)
    }

    /// A handle of the list names the node in the slot it holds.
    proof fn lemma_ptr_index(&self, i: usize)
        requires
            self.inv(),
        ensures
            self.ptrs().contains(NodePointer::Body(i)) == self.order@.contains(i),
            !self.ptrs().contains(NodePointer::Head),
            !self.ptrs().contains(NodePointer::Tail),
            self.order@.contains(i) ==> {
                let k = self.order@.index_of(i);
                &&& 0 <= k < self.order@.len()
                &&& self.order@[k] == i
                &&& self.ptrs().index_of(NodePointer::Body(i)) == k
            },
    {
        self.lemma_wf();
        let ptrs = self.ptrs();
        if self.order@.contains(i) {
            let k = self.order@.index_of(i);
            assert(ptrs[k] == NodePointer::Body(i));
            lemma_index_of_unique(ptrs, k);
        }
        if ptrs.contains(NodePointer::Body(i)) {
            let k = ptrs.index_of(NodePointer::Body(i));
            assert(self.order@[k] == i);
        }
    }

    /// Takes the node of `n` out of the list and returns its value; `None`,
    /// changing nothing, when no node has `n`.
    #[verifier::rlimit(80)]
    fn remove(&mut self, n: &NodePointer) -> (r: Option<T>)
        requires
            old(self).inv(),
        ensures
            final(self).inv(),
            old(self).live(*n) ==> {
                let k = old(self).order@.index_of(n->Body_0);
                &&& r == Some(old(self).elems()[k])
                &&& final(self).order@ == old(self).order@.remove(k)
                &&& final(self).elems() == old(self).elems().remove(k)
                &&& final(self).next_insert == n->Body_0
            },
            !old(self).live(*n) ==> r is None && final(self).order@ == old(self).order@
                && final(self).elems() == old(self).elems(),
    {
        let ghost order = self.order@;
        let ghost old_spine = self.spine@;
        let vec_index = match *n {
            NodePointer::Body(i) => i,
            _ => return None,
        };
        if vec_index >= self.spine.len() {
            proof {
                if order.contains(vec_index) {
                    let k = order.index_of(vec_index);
                    assert(order[k] < self.spine@.len());
                }
            }
            return None;
        }
        let existing_node = match self.spine[vec_index].take() {
            None => {
                proof {
                    assert(self.spine@ =~= old_spine);
                    assert(self.elems() =~= old(self).elems());
                }
                return None;
            },
            Some(node) => node,
        };
        let ghost k = order.index_of(vec_index);
        proof {
            assert(order.contains(vec_index));
            assert(order[k] == vec_index);
            assert(old_spine[order[k] as int] is Some);
        }

        // The freed slot is the next one to fill.
        self.next_insert = vec_index;
        self.size -= 1;
        let ghost new_order = order.remove(k);
        self.order = Ghost(new_order);

        match existing_node.next {
            NodePointer::Head => {
                proof {
                    assert(false);
                }
            },
            NodePointer::Tail => self.tail.prev = existing_node.prev,
            NodePointer::Body(next) => {
                proof {
                    assert(next == order[k + 1]);
                    assert(old_spine[order[k + 1] as int] is Some);
                }
                set_prev(&mut self.spine, next, existing_node.prev);
            },
        }

        match existing_node.prev {
            NodePointer::Tail => {
                proof {
                    assert(false);
                }
            },
            NodePointer::Head => self.head.next = existing_node.next,
            NodePointer::Body(prev) => {
                proof {
                    assert(prev == order[k - 1]);
                    assert(old_spine[order[k - 1] as int] is Some);
                }
                set_next(&mut self.spine, prev, existing_node.next);
            },
        }

        proof {
            assert forall|j: int| 0 <= j < new_order.len() implies #[trigger] new_order[j]
                < self.spine@.len() by {
                if j < k {
                    assert(new_order[j] == order[j]);
                } else {
                    assert(new_order[j] == order[j + 1]);
                }
            }
            assert forall|i: usize| i < self.spine@.len() implies (#[trigger] self.spine@[i as int] is Some
                <==> new_order.contains(i)) by {
                lemma_remove_contains(order, k, i);
            }
            assert forall|j: int| 0 <= j < new_order.len() implies {
                let node = #[trigger] self.spine@[new_order[j] as int];
                &&& node is Some
                &&& node->Some_0.next == link_next(new_order, j)
                &&& node->Some_0.prev == link_prev(new_order, j)
            } by {
                if j < k {
                    assert(new_order[j] == order[j]);
                    assert(old_spine[order[j] as int] is Some);
                } else {
                    assert(new_order[j] == order[j + 1]);
                    assert(old_spine[order[j + 1] as int] is Some);
                }
            }
            assert(self.elems() =~= old(self).elems().remove(k)) by {
                assert forall|j: int| 0 <= j < new_order.len() implies #[trigger] self.slot_elem(
                    new_order[j],
                ) == (if j < k {
                    old(self).slot_elem(order[j])
                } else {
                    old(self).slot_elem(order[j + 1])
                }) by {
                    if j < k {
                        assert(new_order[j] == order[j]);
                    } else {
                        assert(new_order[j] == order[j + 1]);
                    }
                }
            }
        }
        Some(existing_node.elem)
    }

    /// Mutable access to the value at a handle; `None` when no node of the
    /// list has it. Whatever is written through the reference becomes the
    /// node's value, and nothing else changes.
    pub fn get_mut(&mut self, ptr: NodePointer) -> (r: Option<&mut T>)
        requires
            old(self).wf(),
        ensures
            final(self).wf(),
            final(self).ptrs() == old(self).ptrs(),
            old(self).ptrs().contains(ptr) ==> r is Some,
            !old(self).ptrs().contains(ptr) ==> r is None && final(self).elems() == old(
                self,
            ).elems(),
            match r {
                Some(m) => {
                    &&& *m == old(self).elems()[old(self).ptrs().index_of(ptr)]
                    &&& final(self).elems() == old(self).elems().update(
                        old(self).ptrs().index_of(ptr),
                        *final(m),
                    )
                },
                None => true,
            },
    {
        proof {
            if ptr is Body {
                self.lemma_ptr_index(ptr->Body_0);
            } else {
                self.lemma_ptr_index(0);
            }
        }
        match ptr {
            NodePointer::Body(i) => {
                if i < self.spine.len() {
                    match &mut self.spine[i] {
                        Some(node) => Some(&mut node.elem),
                        None => None,
                    }
                } else {
                    proof {
                        if self.order@.contains(i) {
                            let k = self.order@.index_of(i);
                            assert(self.order@[k] < self.spine@.len());
                        }
                    }
                    None
                }
            },
            _ => None,
        }
    }

    /// A forward walk over the values, starting at the front.
    pub fn iter(&self) -> (r: DLLIterator<'_, T, Self>)
        requires
            self.wf(),
        ensures
            r.wf(),
            r.list() == self,
            r.remaining() == self.elems(),
    {
        DLLIterator::new(self)
    }

    /// Hands the values out from the front, consuming the list.
    pub fn into_iter(self) -> (r: DLLIntoIter<T, Self>)
        ensures
            r.list() == self,
    {
        DLLIntoIter::new(self)
    }
}

/// Through any mix of insertions and removals that reuse slots, the size
/// of a list equals the number of nodes that a forward walk from its head
/// reaches.
pub proof fn lemma_size_matches_walk<T>(l: VectorLinkedList<T>)
    requires
        l.wf(),
    ensures
        forall|k: nat|
            k < l.elems().len() ==> #[trigger] walk_next(l.ptrs(), first_of(l.ptrs()), k) is Some,
        walk_next(l.ptrs(), first_of(l.ptrs()), l.elems().len()) is None,
{
    l.lemma_wf();
    lemma_traversal(l);
}

impl<T> DLL<T> for VectorLinkedList<T> {
    type Pointer = NodePointer;

    closed spec fn wf(&self) -> bool {
        self.inv()
    }

    closed spec fn elems(&self) -> Seq<T> {
        self.order@.map_values(|i: usize| self.slot_elem(i))
    }

    closed spec fn ptrs(&self) -> Seq<NodePointer> {
        self.order@.map_values(|i: usize| NodePointer::Body(i))
    }

    proof fn lemma_wf(&self) {
        let ptrs = self.ptrs();
        assert forall|a: int, b: int| 0 <= a < ptrs.len() && 0 <= b < ptrs.len() && a != b implies
            ptrs[a] != ptrs[b] by {
            assert(self.order@[a] != self.order@[b]);
        }
    }

    fn size(&self) -> (r: usize) {
        self.size
    }

    fn get(&self, ptr: NodePointer) -> (r: Option<&T>) {
        proof {
            if ptr is Body {
                self.lemma_ptr_index(ptr->Body_0);
            } else {
                self.lemma_ptr_index(0);
            }
        }
        match ptr {
            NodePointer::Body(i) => {
                if i < self.spine.len() {
                    match &self.spine[i] {
                        Some(node) => Some(&node.elem),
                        None => None,
                    }
                } else {
                    proof {
                        if self.order@.contains(i) {
                            let k = self.order@.index_of(i);
                            assert(self.order@[k] < self.spine@.len());
                        }
                    }
                    None
                }
            },
            _ => None,
        }
    }

    fn replace_val(&mut self, ptr: NodePointer, elem: T) -> (r: Option<NodePointer>) {
        proof {
            if ptr is Body {
                self.lemma_ptr_index(ptr->Body_0);
            } else {
                self.lemma_ptr_index(0);
            }
        }
        let ghost order = self.order@;
        match ptr {
            NodePointer::Body(i) => {
                if i < self.spine.len() {
                    let ghost k = order.index_of(i);
                    let r = match &mut self.spine[i] {
                        Some(curr_node) => {
                            curr_node.elem = elem;
                            Some(ptr)
                        },
                        None => None,
                    };
                    proof {
                        if r is Some {
                            assert forall|j: int| 0 <= j < order.len() implies {
                                let node = #[trigger] self.spine@[order[j] as int];
                                &&& node is Some
                                &&& node->Some_0.next == link_next(order, j)
                                &&& node->Some_0.prev == link_prev(order, j)
                            } by {
                                assert(old(self).spine@[order[j] as int] is Some);
                            }
                            assert(self.elems() =~= old(self).elems().update(k, elem)) by {
                                assert forall|j: int| 0 <= j < order.len() && j != k implies
                                    #[trigger] self.slot_elem(order[j]) == old(self).slot_elem(
                                    order[j],
                                ) by {
                                    assert(order[j] != order[k]);
                                }
                            }
                        } else {
                            assert(self.spine@ =~= old(self).spine@);
                        }
                    }
                    r
                } else {
                    proof {
                        if order.contains(i) {
                            let k = order.index_of(i);
                            assert(order[k] < self.spine@.len());
                        }
                    }
                    None
                }
            },
            _ => None,
        }
    }

    fn peek_front(&self) -> (r: Option<&T>) {
        proof {
            self.lemma_wf();
            if self.order@.len() > 0 {
                self.lemma_ptr_index(self.order@[0]);
                lemma_index_of_unique(self.order@, 0);
            }
        }
        self.get(self.head.next)
    }

    fn peek_back(&self) -> (r: Option<&T>) {
        proof {
            self.lemma_wf();
            if self.order@.len() > 0 {
                self.lemma_ptr_index(self.order@.last());
                lemma_index_of_unique(self.order@, self.order@.len() - 1);
            }
        }
        self.get(self.tail.prev)
    }

    fn pop_front(&mut self) -> (r: Option<T>) {
        proof {
            if self.order@.len() > 0 {
                lemma_index_of_unique(self.order@, 0);
            }
        }
        let h = self.head.next;
        let r = self.remove(&h);
        proof {
            if old(self).order@.len() > 0 {
                assert(self.ptrs() =~= old(self).ptrs().drop_first());
                assert(self.elems() =~= old(self).elems().drop_first());
            } else {
                assert(self.ptrs() =~= old(self).ptrs());
            }
        }
        r
    }

    fn pop_back(&mut self) -> (r: Option<T>) {
        proof {
            if self.order@.len() > 0 {
                lemma_index_of_unique(self.order@, self.order@.len() - 1);
            }
        }
        let t = self.tail.prev;
        let r = self.remove(&t);
        proof {
            if old(self).order@.len() > 0 {
                assert(self.ptrs() =~= old(self).ptrs().drop_last());
                assert(self.elems() =~= old(self).elems().drop_last());
            } else {
                assert(self.ptrs() =~= old(self).ptrs());
            }
        }
        r
    }

    fn head(&self) -> (r: Option<NodePointer>) {
        let next = self.head.next;
        match next {
            NodePointer::Body(_) => Some(next),
            _ => None,
        }
    }

    fn tail(&self) -> (r: Option<NodePointer>) {
        let prev = self.tail.prev;
        match prev {
            NodePointer::Body(_) => Some(prev),
            _ => None,
        }
    }

    fn push_back(&mut self, elem: T) -> (r: NodePointer) {
        let p = self.tail.prev;
        let ghost len = self.order@.len() as int;
        let r = self.insert_between(elem, &p, &NodePointer::Tail, Ghost(len));
        proof {
            assert(self.ptrs() =~= old(self).ptrs().push(r));
            old(self).lemma_ptr_index(old(self).next_insert);
        }
        r
    }

    fn push_front(&mut self, elem: T) -> (r: NodePointer) {
        let n = self.head.next;
        let r = self.insert_between(elem, &NodePointer::Head, &n, Ghost(0));
        proof {
            assert(self.ptrs() =~= old(self).ptrs().insert(0, r));
            old(self).lemma_ptr_index(old(self).next_insert);
        }
        r
    }

    fn move_back(&mut self, ptr: NodePointer) -> (r: NodePointer) {
        proof {
            self.lemma_ptr_index(0);
            self.lemma_ptr_index(ptr->Body_0);
        }
        let ghost k = self.order@.index_of(ptr->Body_0);
        let elem = self.remove(&ptr).unwrap();
        let p = self.tail.prev;
        let ghost len = self.order@.len() as int;
        let r = self.insert_between(elem, &p, &NodePointer::Tail, Ghost(len));
        proof {
            assert(self.ptrs() =~= to_back(old(self).ptrs(), k));
            assert(self.elems() =~= to_back(old(self).elems(), k));
        }
        r
    }

    fn move_front(&mut self, ptr: NodePointer) -> (r: NodePointer) {
        proof {
            self.lemma_ptr_index(0);
            self.lemma_ptr_index(ptr->Body_0);
        }
        let ghost k = self.order@.index_of(ptr->Body_0);
        let elem = self.remove(&ptr).unwrap();
        let n = self.head.next;
        let r = self.insert_between(elem, &NodePointer::Head, &n, Ghost(0));
        proof {
            assert(self.ptrs() =~= to_front(old(self).ptrs(), k));
            assert(self.elems() =~= to_front(old(self).elems(), k));
        }
        r
    }

    fn next_node(&self, ptr: NodePointer) -> (r: Option<NodePointer>) {
        proof {
            self.lemma_wf();
            if ptr is Body {
                self.lemma_ptr_index(ptr->Body_0);
            } else {
                self.lemma_ptr_index(0);
            }
        }
        match ptr {
            NodePointer::Body(i) => {
                if i >= self.spine.len() {
                    proof {
                        if self.order@.contains(i) {
                            let k = self.order@.index_of(i);
                            assert(self.order@[k] < self.spine@.len());
                        }
                    }
                    return None;
                }
                match &self.spine[i] {
                    Some(node) => {
                        let next = node.next;
                        match next {
                            NodePointer::Body(_) => Some(next),
                            _ => None,
                        }
                    },
                    None => None,
                }
            },
            _ => None,
        }
    }

    fn prev_node(&self, ptr: NodePointer) -> (r: Option<NodePointer>) {
        proof {
            self.lemma_wf();
            if ptr is Body {
                self.lemma_ptr_index(ptr->Body_0);
            } else {
                self.lemma_ptr_index(0);
            }
        }
        match ptr {
            NodePointer::Body(i) => {
                if i >= self.spine.len() {
                    proof {
                        if self.order@.contains(i) {
                            let k = self.order@.index_of(i);
                            assert(self.order@[k] < self.spine@.len());
                        }
                    }
                    return None;
                }
                match &self.spine[i] {
                    Some(node) => {
                        let prev = node.prev;
                        match prev {
                            NodePointer::Body(_) => Some(prev),
                            _ => None,
                        }
                    },
                    None => None,
                }
            },
            _ => None,
        }
    }
}

} // verus!
