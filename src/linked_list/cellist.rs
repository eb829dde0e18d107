//! A list whose nodes are allocated one by one in a table of cells.
//!
//! A node's forward link names the next node's cell and its backward link
//! the previous node's cell. A handle is a weak reference to a node: the
//! cell that holds it together with the node's stamp, a tag given when the
//! node is created from a counter that wraps. Upgrading a handle fails once
//! its node is removed, also where the cell has since been given to a newer
//! node (unless the counter has come round to the same stamp). Moving a node
//! to an end keeps its cell and its stamp, so its handle stays valid.
use crate::linked_list::{
    first_of, last_of, lemma_index_of_unique, lemma_insert_contains, lemma_remove_contains,
    to_back, to_front, DLLIntoIter, DLLIterator, DLL,
};
use vstd::prelude::*;

verus! {

pub struct BodyNode<T> {
    elem: T,
    next: Option<usize>,
    prev: Option<usize>,
    stamp: u64,
}

/// A handle to a node that does not keep the node alive.
#[derive(Clone, Copy, Debug, PartialEq, Eq, Structural)]
pub struct WeakNodePointer {
    cell: usize,
    stamp: u64,
}

pub struct CellLinkedList<T> {
    head: Option<usize>,
    tail: Option<usize>,
    size: usize,
    cells: Vec<Option<BodyNode<T>>>,
    /// Cells that hold no node, the last freed on top.
    free: Vec<usize>,
    next_stamp: u64,
    /// The cells of the nodes, from front to back.
    order: Ghost<Seq<usize>>,
}

/// What the node at position `k` of `order` links to forwards.
spec fn link_next(order: Seq<usize>, k: int) -> Option<usize> {
    if k + 1 < order.len() {
        Some(order[k + 1])
    } else {
        None
    }
}

/// What the node at position `k` of `order` links to backwards.
spec fn link_prev(order: Seq<usize>, k: int) -> Option<usize> {
    if k > 0 {
        Some(order[k - 1])
    } else {
        None
    }
}

/// Points the forward link of the node in cell `c` at `v`.
fn set_next<T>(cells: &mut Vec<Option<BodyNode<T>>>, c: usize, v: Option<usize>)
    requires
        c < old(cells)@.len(),
        old(cells)@[c as int] is Some,
    ensures
        final(cells)@ == old(cells)@.update(
            c as int,
            Some(BodyNode { next: v, ..old(cells)@[c as int]->Some_0 }),
        ),
{
    match &mut cells[c] {
        Some(node) => node.next = v,
        None => {},
    }
}

/// Points the backward link of the node in cell `c` at `v`.
fn set_prev<T>(cells: &mut Vec<Option<BodyNode<T>>>, c: usize, v: Option<usize>)
    requires
        c < old(cells)@.len(),
        old(cells)@[c as int] is Some,
    ensures
        final(cells)@ == old(cells)@.update(
            c as int,
            Some(BodyNode { prev: v, ..old(cells)@[c as int]->Some_0 }),
        ),
{
    match &mut cells[c] {
        Some(node) => node.prev = v,
        None => {},
    }
}

impl<T> CellLinkedList<T> {
    spec fn cell_elem(&self, c: usize) -> T {
        self.cells@[c as int]->Some_0.elem
    }

    spec fn cell_stamp(&self, c: usize) -> u64 {
        self.cells@[c as int]->Some_0.stamp
    }

    spec fn handle(&self, c: usize) -> WeakNodePointer {
        WeakNodePointer { cell: c, stamp: self.cell_stamp(c) }
    }

    spec fn inv(&self) -> bool {
        let order = self.order@;
        let n = self.cells@.len();
        &&& self.size == order.len()
        &&& order.no_duplicates()
        &&& forall|k: int| 0 <= k < order.len() ==> #[trigger] order[k] < n
        &&& forall|i: usize|
            i < n ==> (#[trigger] self.cells@[i as int] is Some <==> order.contains(i))
        &&& forall|k: int|
            0 <= k < order.len() ==> {
                let node = #[trigger] self.cells@[order[k] as int];
                &&& node is Some
                &&& node->Some_0.next == link_next(order, k)
                &&& node->Some_0.prev == link_prev(order, k)
            }
        &&& self.head == first_of(order)
        &&& self.tail == last_of(order)
        &&& self.free@.no_duplicates()
        &&& forall|j: int|
            0 <= j < self.free@.len() ==> #[trigger] self.free@[j] < n && self.cells@[self.free@[j] as int] is None
    }

    /// An empty list.
    pub fn new() -> (r: Self)
        ensures
            r.wf(),
            r.elems() == Seq::<T>::empty(),
    {
        let r = CellLinkedList {
            head: None,
            tail: None,
            size: 0,
            cells: Vec::new(),
            free: Vec::new(),
            next_stamp: 0,
            order: Ghost(Seq::empty()),
        };
        proof {
            assert(r.elems() =~= Seq::<T>::empty());
        }
        r
    }

    /// The cell that the next new node takes.
    spec fn next_cell(&self) -> usize {
        if self.free@.len() > 0 {
            self.free@.last()
        } else {
            self.cells@.len() as usize
        }
    }

    /// Creates a node for `elem` with the given stamp and links it in after
    /// the node in cell `n`, or at the front when `n` is `None`; `pos` is
    /// the position the new node takes.
    #[verifier::rlimit(80)]
    fn insert_after(
        &mut self,
        elem: T,
        n: Option<usize>,
        stamp: u64,
        pos: Ghost<int>,
    ) -> (r: WeakNodePointer)
        requires
            old(self).inv(),
            old(self).size < usize::MAX,
            0 <= pos@ <= old(self).order@.len(),
            n == link_prev(old(self).order@.insert(pos@, 0), pos@),
        ensures
            final(self).inv(),
            final(self).next_stamp == old(self).next_stamp,
            r == (WeakNodePointer { cell: old(self).next_cell(), stamp }),
            !old(self).order@.contains(old(self).next_cell()),
            final(self).order@ == old(self).order@.insert(pos@, old(self).next_cell()),
            final(self).elems() == old(self).elems().insert(pos@, elem),
            forall|c: usize|
                old(self).order@.contains(c) ==> final(self).cell_stamp(c) == old(self).cell_stamp(
                    c,
                ),
            final(self).cell_stamp(old(self).next_cell()) == stamp,
    {
        let ghost order = self.order@;
        let ghost old_cells = self.cells@;
        let next = match n {
            None => self.head,
            Some(c) => match &self.cells[c] {
                Some(node) => node.next,
                None => None,
            },
        };
        proof {
            if pos@ > 0 {
                assert(old_cells[order[pos@ - 1] as int] is Some);
            }
            assert(next == link_next(order.insert(pos@, 0), pos@));
        }
        let new_node = BodyNode { elem, next, prev: n, stamp };
        let cell = match self.free.pop() {
            Some(c) => {
                proof {
                    assert(old(self).free@[old(self).free@.len() - 1] == c);
                }
                self.cells.set(c, Some(new_node));
                c
            },
            None => {
                let c = self.cells.len();
                self.cells.push(Some(new_node));
                c
            },
        };
        proof {
            if order.contains(cell) {
                let k = order.index_of(cell);
                assert(old_cells[order[k] as int] is Some);
            }
            assert(self.cells@[cell as int] is Some);
            assert(forall|i: int|
                0 <= i < self.cells@.len() && i != cell ==> #[trigger] self.cells@[i]
                    == old_cells[i]);
        }
        let ghost c1 = self.cells@;
        let ghost new_order = order.insert(pos@, cell);
        self.order = Ghost(new_order);
        self.size += 1;

        match next {
            None => self.tail = Some(cell),
            Some(nx) => {
                proof {
                    assert(nx == order[pos@]);
                }
                set_prev(&mut self.cells, nx, Some(cell));
            },
        }
        proof {
            assert(self.cells@.len() == c1.len());
            assert(forall|i: int|
                0 <= i < c1.len() ==> (#[trigger] self.cells@[i] is Some) == (c1[i] is Some));
        }
        let ghost c2 = self.cells@;

        match n {
            None => self.head = Some(cell),
            Some(p) => {
                proof {
                    assert(p == order[pos@ - 1]);
                }
                set_next(&mut self.cells, p, Some(cell));
            },
        }

        proof {
            assert(self.cells@.len() == c1.len());
            assert(forall|i: int|
                0 <= i < c1.len() ==> (#[trigger] self.cells@[i] is Some) == (c2[i] is Some));
            assert forall|k: int| 0 <= k < new_order.len() implies #[trigger] new_order[k]
                < self.cells@.len() by {
                if k < pos@ {
                    assert(new_order[k] == order[k]);
                } else if k > pos@ {
                    assert(new_order[k] == order[k - 1]);
                }
            }
            assert forall|i: usize| i < self.cells@.len() implies (#[trigger] self.cells@[i as int] is Some
                <==> new_order.contains(i)) by {
                lemma_insert_contains(order, pos@, cell, i);
                assert(c2[i as int] is Some == c1[i as int] is Some);
                if i != cell {
                    assert(c1[i as int] == old_cells[i as int]);
                }
            }
            assert forall|k: int| 0 <= k < new_order.len() implies {
                let node = #[trigger] self.cells@[new_order[k] as int];
                &&& node is Some
                &&& node->Some_0.next == link_next(new_order, k)
                &&& node->Some_0.prev == link_prev(new_order, k)
            } by {
                if k < pos@ {
                    assert(new_order[k] == order[k]);
                    assert(old_cells[order[k] as int] is Some);
                } else if k > pos@ {
                    assert(new_order[k] == order[k - 1]);
                    assert(old_cells[order[k - 1] as int] is Some);
                }
            }
            assert forall|j: int| 0 <= j < self.free@.len() implies #[trigger] self.free@[j]
                < self.cells@.len() && self.cells@[self.free@[j] as int] is None by {
                assert(self.free@[j] == old(self).free@[j]);
                if old(self).free@.len() > 0 {
                    assert(old(self).free@[j] != old(self).free@.last());
                }
            }
            assert(self.free@.no_duplicates());
            assert(new_order.no_duplicates());
            assert(self.elems() =~= old(self).elems().insert(pos@, elem)) by {
                assert forall|k: int| 0 <= k < new_order.len() && k != pos@ implies
                    #[trigger] self.cell_elem(new_order[k]) == (if k < pos@ {
                    old(self).cell_elem(order[k])
                } else {
                    old(self).cell_elem(order[k - 1])
                }) by {
                    if k < pos@ {
                        assert(new_order[k] == order[k]);
                    } else {
                        assert(new_order[k] == order[k - 1]);
                    }
                }
            }
            assert forall|c: usize| order.contains(c) implies self.cell_stamp(c)
                == old(self).cell_stamp(c) by {
                let k = order.index_of(c);
                assert(old_cells[order[k] as int] is Some);
            }
        }
        WeakNodePointer { cell, stamp }
    }

    /// Unlinks the node in cell `c`, frees the cell and returns the value.
    #[verifier::rlimit(80)]
    fn remove(&mut self, c: usize) -> (r: T)
        requires
            old(self).inv(),
            old(self).order@.contains(c),
        ensures
            final(self).inv(),
            final(self).next_stamp == old(self).next_stamp,
            ({
                let k = old(self).order@.index_of(c);
                &&& r == old(self).elems()[k]
                &&& final(self).order@ == old(self).order@.remove(k)
                &&& final(self).elems() == old(self).elems().remove(k)
            }),
            final(self).next_cell() == c,
            final(self).cells@.len() == old(self).cells@.len(),
            forall|d: usize|
                old(self).order@.contains(d) && d != c ==> final(self).cell_stamp(d)
                    == old(self).cell_stamp(d),
    {
        let ghost order = self.order@;
        let ghost old_cells = self.cells@;
        let ghost k = order.index_of(c);
        proof {
            assert(order[k] == c);
            assert(old_cells[order[k] as int] is Some);
        }
        let node = self.cells[c].take().unwrap();
        self.free.push(c);
        self.size -= 1;
        let ghost new_order = order.remove(k);
        self.order = Ghost(new_order);

        match node.next {
            None => self.tail = node.prev,
            Some(nx) => {
                proof {
                    assert(nx == order[k + 1]);
                    assert(old_cells[order[k + 1] as int] is Some);
                }
                set_prev(&mut self.cells, nx, node.prev);
            },
        }

        match node.prev {
            None => self.head = node.next,
            Some(pv) => {
                proof {
                    assert(pv == order[k - 1]);
                    assert(old_cells[order[k - 1] as int] is Some);
                }
                set_next(&mut self.cells, pv, node.next);
            },
        }

        proof {
            assert forall|j: int| 0 <= j < new_order.len() implies #[trigger] new_order[j]
                < self.cells@.len() by {
                if j < k {
                    assert(new_order[j] == order[j]);
                } else {
                    assert(new_order[j] == order[j + 1]);
                }
            }
            assert forall|i: usize| i < self.cells@.len() implies (#[trigger] self.cells@[i as int] is Some
                <==> new_order.contains(i)) by {
                lemma_remove_contains(order, k, i);
            }
            assert forall|j: int| 0 <= j < new_order.len() implies {
                let nd = #[trigger] self.cells@[new_order[j] as int];
                &&& nd is Some
                &&& nd->Some_0.next == link_next(new_order, j)
                &&& nd->Some_0.prev == link_prev(new_order, j)
            } by {
                if j < k {
                    assert(new_order[j] == order[j]);
                    assert(old_cells[order[j] as int] is Some);
                } else {
                    assert(new_order[j] == order[j + 1]);
                    assert(old_cells[order[j + 1] as int] is Some);
                }
            }
            assert forall|j: int| 0 <= j < self.free@.len() implies #[trigger] self.free@[j]
                < self.cells@.len() && self.cells@[self.free@[j] as int] is None by {
                if j < old(self).free@.len() {
                    assert(self.free@[j] == old(self).free@[j]);
                }
            }
            assert forall|a: int, b: int|
                0 <= a < self.free@.len() && 0 <= b < self.free@.len() && a != b implies self.free@[a]
                != self.free@[b] by {
                if a < old(self).free@.len() {
                    assert(old_cells[old(self).free@[a] as int] is None);
                }
                if b < old(self).free@.len() {
                    assert(old_cells[old(self).free@[b] as int] is None);
                }
            }
            assert(self.elems() =~= old(self).elems().remove(k)) by {
                assert forall|j: int| 0 <= j < new_order.len() implies #[trigger] self.cell_elem(
                    new_order[j],
                ) == (if j < k {
                    old(self).cell_elem(order[j])
                } else {
                    old(self).cell_elem(order[j + 1])
                }) by {
                    if j < k {
                        assert(new_order[j] == order[j]);
                    } else {
                        assert(new_order[j] == order[j + 1]);
                    }
                }
            }
            assert forall|d: usize| order.contains(d) && d != c implies self.cell_stamp(d)
                == old(self).cell_stamp(d) by {
                let j = order.index_of(d);
                assert(old_cells[order[j] as int] is Some);
            }
        }
        node.elem
    }

    /// A handle of the list names the node in the cell it holds, made
    /// when that node's stamp is the handle's.
    proof fn lemma_ptr_index(&self, p: WeakNodePointer)
        requires
            self.inv(),
        ensures
            self.ptrs().contains(p) == (self.order@.contains(p.cell) && self.cell_stamp(p.cell)
                == p.stamp),
            self.order@.contains(p.cell) ==> {
                let k = self.order@.index_of(p.cell);
                &&& 0 <= k < self.order@.len()
                &&& self.order@[k] == p.cell
                &&& self.ptrs()[k] == self.handle(p.cell)
            },
            self.ptrs().contains(p) ==> self.ptrs().index_of(p) == self.order@.index_of(p.cell),
    {
        self.lemma_wf();
        let ptrs = self.ptrs();
        if self.order@.contains(p.cell) {
            let k = self.order@.index_of(p.cell);
            assert(ptrs[k] == self.handle(p.cell));
            lemma_index_of_unique(ptrs, k);
        }
        if ptrs.contains(p) {
            let k = ptrs.index_of(p);
            assert(self.order@[k] == p.cell);
        }
    }

    /// Upgrades a handle: the cell of its node, or `None` once that node
    /// has been removed.
    fn convert_weak(&self, weak_ptr: WeakNodePointer) -> (r: Option<usize>)
        requires
            self.inv(),
        ensures
            r == (if self.ptrs().contains(weak_ptr) {
                Some(weak_ptr.cell)
            } else {
                None
            }),
    {
        proof {
            self.lemma_ptr_index(weak_ptr);
            if self.order@.contains(weak_ptr.cell) {
                let k = self.order@.index_of(weak_ptr.cell);
                assert(self.order@[k] < self.cells@.len());
            }
        }
        if weak_ptr.cell >= self.cells.len() {
            return None;
        }
        match &self.cells[weak_ptr.cell] {
            Some(node) => {
                if node.stamp == weak_ptr.stamp {
                    Some(weak_ptr.cell)
                } else {
                    None
                }
            },
            None => None,
        }
    }

    /// The handle of the node in cell `c`.
    fn handle_of(&self, c: usize) -> (r: WeakNodePointer)
        requires
            self.inv(),
            self.order@.contains(c),
        ensures
            r == self.handle(c),
    {
        proof {
            let k = self.order@.index_of(c);
            assert(self.cells@[self.order@[k] as int] is Some);
        }
        match &self.cells[c] {
            Some(node) => WeakNodePointer { cell: c, stamp: node.stamp },
            None => WeakNodePointer { cell: c, stamp: 0 },
        }
    }

    /// Mutable access to the value at a handle; `None` when no node of the
    /// list has it. Whatever is written through the reference becomes the
    /// node's value, and nothing else changes.
    pub fn get_mut(&mut self, weak_ptr: WeakNodePointer) -> (r: Option<&mut T>)
        requires
            old(self).wf(),
        ensures
            final(self).wf(),
            final(self).ptrs() == old(self).ptrs(),
            old(self).ptrs().contains(weak_ptr) ==> r is Some,
            !old(self).ptrs().contains(weak_ptr) ==> r is None && final(self).elems() == old(
                self,
            ).elems(),
            match r {
                Some(m) => {
                    &&& *m == old(self).elems()[old(self).ptrs().index_of(weak_ptr)]
                    &&& final(self).elems() == old(self).elems().update(
                        old(self).ptrs().index_of(weak_ptr),
                        *final(m),
                    )
                },
                None => true,
            },
    {
        proof {
            self.lemma_ptr_index(weak_ptr);
        }
        match self.convert_weak(weak_ptr) {
            None => None,
            Some(c) => {
                proof {
                    let k = self.order@.index_of(c);
                    assert(self.cells@[self.order@[k] as int] is Some);
                }
                match &mut self.cells[c] {
                    Some(node) => Some(&mut node.elem),
                    None => None,
                }
            },
        }
    }

    /// A forward walk over the values, starting at the front.
    pub fn iter(&self) -> (r: DLLIterator<'_, T, Self>)
        requires
            self.wf(),
        ensures
            r.wf(),
            r.list() == self,
            r.remaining() == self.elems(),
    {
        DLLIterator::new(self)
    }

    /// Hands the values out from the front, consuming the list.
    pub fn into_iter(self) -> (r: DLLIntoIter<T, Self>)
        ensures
            r.list() == self,
    {
        DLLIntoIter::new(self)
    }
}

impl<T> DLL<T> for CellLinkedList<T> {
    type Pointer = WeakNodePointer;

    closed spec fn wf(&self) -> bool {
        self.inv()
    }

    closed spec fn elems(&self) -> Seq<T> {
        self.order@.map_values(|c: usize| self.cell_elem(c))
    }

    closed spec fn ptrs(&self) -> Seq<WeakNodePointer> {
        self.order@.map_values(|c: usize| self.handle(c))
    }

    proof fn lemma_wf(&self) {
        let ptrs = self.ptrs();
        assert forall|a: int, b: int| 0 <= a < ptrs.len() && 0 <= b < ptrs.len() && a != b implies
            ptrs[a] != ptrs[b] by {
            assert(self.order@[a] != self.order@[b]);
        }
    }

    fn size(&self) -> (r: usize) {
        self.size
    }

    fn get(&self, weak_ptr: WeakNodePointer) -> (r: Option<&T>) {
        proof {
            self.lemma_ptr_index(weak_ptr);
        }
        match self.convert_weak(weak_ptr) {
            None => None,
            Some(c) => match &self.cells[c] {
                Some(node) => Some(&node.elem),
                None => None,
            },
        }
    }

    fn replace_val(&mut self, weak_ptr: WeakNodePointer, elem: T) -> (r: Option<WeakNodePointer>) {
        proof {
            self.lemma_ptr_index(weak_ptr);
        }
        let ghost order = self.order@;
        match self.convert_weak(weak_ptr) {
            None => None,
            Some(c) => {
                let ghost k = order.index_of(c);
                proof {
                    assert(self.cells@[order[k] as int] is Some);
                }
                match &mut self.cells[c] {
                    Some(node) => node.elem = elem,
                    None => {},
                }
                proof {
                    assert forall|j: int| 0 <= j < order.len() implies {
                        let node = #[trigger] self.cells@[order[j] as int];
                        &&& node is Some
                        &&& node->Some_0.next == link_next(order, j)
                        &&& node->Some_0.prev == link_prev(order, j)
                    } by {
                        assert(old(self).cells@[order[j] as int] is Some);
                    }
                    assert(self.elems() =~= old(self).elems().update(k, elem)) by {
                        assert forall|j: int| 0 <= j < order.len() && j != k implies
                            #[trigger] self.cell_elem(order[j]) == old(self).cell_elem(order[j]) by {
                            assert(order[j] != order[k]);
                        }
                    }
                    assert(self.ptrs() =~= old(self).ptrs()) by {
                        assert forall|j: int| 0 <= j < order.len() implies #[trigger] self.handle(
                            order[j],
                        ) == old(self).handle(order[j]) by {
                            assert(old(self).cells@[order[j] as int] is Some);
                        }
                    }
                }
                Some(weak_ptr)
            },
        }
    }

    fn peek_front(&self) -> (r: Option<&T>) {
        match self.head {
            None => None,
            Some(c) => {
                proof {
                    assert(self.cells@[self.order@[0] as int] is Some);
                }
                match &self.cells[c] {
                    Some(node) => Some(&node.elem),
                    None => None,
                }
            },
        }
    }

    fn peek_back(&self) -> (r: Option<&T>) {
        match self.tail {
            None => None,
            Some(c) => {
                proof {
                    let last = self.order@.len() - 1;
                    assert(self.cells@[self.order@[last] as int] is Some);
                }
                match &self.cells[c] {
                    Some(node) => Some(&node.elem),
                    None => None,
                }
            },
        }
    }

    fn pop_front(&mut self) -> (r: Option<T>) {
        match self.head {
            None => None,
            Some(c) => {
                proof {
                    lemma_index_of_unique(self.order@, 0);
                }
                let r = self.remove(c);
                proof {
                    assert(self.elems() =~= old(self).elems().drop_first());
                    assert(self.ptrs() =~= old(self).ptrs().drop_first()) by {
                        assert forall|j: int| 0 <= j < self.order@.len() implies #[trigger] self.handle(
                            self.order@[j],
                        ) == old(self).handle(old(self).order@[j + 1]) by {
                            assert(self.order@[j] == old(self).order@[j + 1]);
                            assert(old(self).order@.contains(old(self).order@[j + 1]));
                        }
                    }
                }
                Some(r)
            },
        }
    }

    fn pop_back(&mut self) -> (r: Option<T>) {
        match self.tail {
            None => None,
            Some(c) => {
                proof {
                    lemma_index_of_unique(self.order@, self.order@.len() - 1);
                }
                let r = self.remove(c);
                proof {
                    assert(self.elems() =~= old(self).elems().drop_last());
                    assert(self.ptrs() =~= old(self).ptrs().drop_last()) by {
                        assert forall|j: int| 0 <= j < self.order@.len() implies #[trigger] self.handle(
                            self.order@[j],
                        ) == old(self).handle(old(self).order@[j]) by {
                            assert(self.order@[j] == old(self).order@[j]);
                            assert(old(self).order@.contains(old(self).order@[j]));
                        }
                    }
                }
                Some(r)
            },
        }
    }

    fn head(&self) -> (r: Option<WeakNodePointer>) {
        match self.head {
            None => None,
            Some(c) => {
                proof {
                    lemma_index_of_unique(self.order@, 0);
                }
                Some(self.handle_of(c))
            },
        }
    }

    fn tail(&self) -> (r: Option<WeakNodePointer>) {
        match self.tail {
            None => None,
            Some(c) => {
                proof {
                    lemma_index_of_unique(self.order@, self.order@.len() - 1);
                }
                Some(self.handle_of(c))
            },
        }
    }

    fn push_back(&mut self, elem: T) -> (r: WeakNodePointer) {
        let stamp = self.next_stamp;
        self.next_stamp = stamp.wrapping_add(1);
        let tail = self.tail;
        let ghost len = self.order@.len() as int;
        let r = self.insert_after(elem, tail, stamp, Ghost(len));
        proof {
            old(self).lemma_ptr_index(r);
            assert(self.ptrs() =~= old(self).ptrs().push(r)) by {
                assert forall|j: int| 0 <= j < len implies #[trigger] self.handle(self.order@[j])
                    == old(self).handle(old(self).order@[j]) by {
                    assert(self.order@[j] == old(self).order@[j]);
                    assert(old(self).order@.contains(old(self).order@[j]));
                }
            }
        }
        r
    }

    fn push_front(&mut self, elem: T) -> (r: WeakNodePointer) {
        let stamp = self.next_stamp;
        self.next_stamp = stamp.wrapping_add(1);
        let r = self.insert_after(elem, None, stamp, Ghost(0));
        proof {
            old(self).lemma_ptr_index(r);
            assert(self.ptrs() =~= old(self).ptrs().insert(0, r)) by {
                assert forall|j: int| 1 <= j < self.order@.len() implies #[trigger] self.handle(
                    self.order@[j],
                ) == old(self).handle(old(self).order@[j - 1]) by {
                    assert(self.order@[j] == old(self).order@[j - 1]);
                    assert(old(self).order@.contains(old(self).order@[j - 1]));
                }
            }
        }
        r
    }

    fn move_back(&mut self, weak_ptr: WeakNodePointer) -> (r: WeakNodePointer) {
        proof {
            self.lemma_ptr_index(weak_ptr);
        }
        let ghost k = self.order@.index_of(weak_ptr.cell);
        let ghost mid = self.order@.remove(k);
        let elem = self.remove(weak_ptr.cell);
        let tail = self.tail;
        let ghost len = self.order@.len() as int;
        let r = self.insert_after(elem, tail, weak_ptr.stamp, Ghost(len));
        proof {
            assert(self.elems() =~= to_back(old(self).elems(), k));
            assert(self.ptrs() =~= to_back(old(self).ptrs(), k)) by {
                assert forall|j: int| 0 <= j < len implies #[trigger] self.handle(self.order@[j])
                    == old(self).handle(mid[j]) by {
                    assert(self.order@[j] == mid[j]);
                    if j < k {
                        assert(mid[j] == old(self).order@[j]);
                    } else {
                        assert(mid[j] == old(self).order@[j + 1]);
                    }
                    assert(old(self).order@.contains(mid[j]));
                }
            }
        }
        r
    }

    fn move_front(&mut self, weak_ptr: WeakNodePointer) -> (r: WeakNodePointer) {
        proof {
            self.lemma_ptr_index(weak_ptr);
        }
        let ghost k = self.order@.index_of(weak_ptr.cell);
        let ghost mid = self.order@.remove(k);
        let elem = self.remove(weak_ptr.cell);
        let r = self.insert_after(elem, None, weak_ptr.stamp, Ghost(0));
        proof {
            assert(self.elems() =~= to_front(old(self).elems(), k));
            assert(self.ptrs() =~= to_front(old(self).ptrs(), k)) by {
                assert forall|j: int| 1 <= j < self.order@.len() implies #[trigger] self.handle(
                    self.order@[j],
                ) == old(self).handle(mid[j - 1]) by {
                    assert(self.order@[j] == mid[j - 1]);
                    if j - 1 < k {
                        assert(mid[j - 1] == old(self).order@[j - 1]);
                    } else {
                        assert(mid[j - 1] == old(self).order@[j]);
                    }
                    assert(old(self).order@.contains(mid[j - 1]));
                }
            }
        }
        r
    }

    fn next_node(&self, weak_ptr: WeakNodePointer) -> (r: Option<WeakNodePointer>) {
        proof {
            self.lemma_ptr_index(weak_ptr);
        }
        match self.convert_weak(weak_ptr) {
            None => None,
            Some(c) => {
                let ghost k = self.order@.index_of(c);
                proof {
                    assert(self.cells@[self.order@[k] as int] is Some);
                    if k + 1 < self.order@.len() {
                        assert(self.order@.contains(self.order@[k + 1]));
                    }
                }
                let next = match &self.cells[c] {
                    Some(node) => node.next,
                    None => None,
                };
                match next {
                    None => None,
                    Some(nx) => Some(self.handle_of(nx)),
                }
            },
        }
    }

    fn prev_node(&self, weak_ptr: WeakNodePointer) -> (r: Option<WeakNodePointer>) {
        proof {
            self.lemma_ptr_index(weak_ptr);
        }
        match self.convert_weak(weak_ptr) {
            None => None,
            Some(c) => {
                let ghost k = self.order@.index_of(c);
                proof {
                    assert(self.cells@[self.order@[k] as int] is Some);
                    if k > 0 {
                        assert(self.order@.contains(self.order@[k - 1]));
                    }
                }
                let prev = match &self.cells[c] {
                    Some(node) => node.prev,
                    None => None,
                };
                match prev {
                    None => None,
                    Some(pv) => Some(self.handle_of(pv)),
                }
            },
        }
    }
}

} // verus!
