//! The contract of a doubly linked list of bounded size over copyable values.
//!
//! As in `linked_list`, a list is modelled by its values `elems()` and the
//! handles of its nodes `ptrs()`; it also has a fixed capacity, and an
//! insertion into a full list is refused.
use crate::linked_list::{first_of, to_back, value_at};
use vstd::prelude::*;

verus! {

pub trait DLL<T: Clone + Copy>: Sized {
    type Pointer: Clone + Copy;

    /// The representation invariant of the list.
    spec fn wf(&self) -> bool;

    /// The values from front to back.
    spec fn elems(&self) -> Seq<T>;

    /// The handle of each node, in the same order as `elems()`.
    spec fn ptrs(&self) -> Seq<Self::Pointer>;

    /// The most values the list holds at once.
    spec fn spec_capacity(&self) -> nat;

    /// Every node has one handle, no two nodes share one, and the list is
    /// within its capacity.
    proof fn lemma_wf(&self)
        requires
            self.wf(),
        ensures
            self.ptrs().len() == self.elems().len(),
            self.ptrs().no_duplicates(),
            self.elems().len() <= self.spec_capacity(),
    ;

    /// How many values the list holds.
    fn size(&self) -> (r: usize)
        requires
            self.wf(),
        ensures
            r == self.elems().len(),
    ;

    /// The most values the list holds at once.
    fn capacity(&self) -> (r: usize)
        requires
            self.wf(),
        ensures
            r == self.spec_capacity(),
    ;

    /// The value at a handle; `None` when no node of the list has it.
    fn get(&self, ptr: Self::Pointer) -> (r: Option<T>)
        requires
            self.wf(),
        ensures
            r == value_at(self.ptrs(), self.elems(), ptr),
    ;

    /// Overwrites the value at a handle, keeping the node where it is.
    /// Returns the handle, or `None` (changing nothing) when no node has it.
    fn replace_val(&mut self, ptr: Self::Pointer, elem: T) -> (r: Option<Self::Pointer>)
        requires
            old(self).wf(),
        ensures
            final(self).wf(),
            final(self).spec_capacity() == old(self).spec_capacity(),
            final(self).ptrs() == old(self).ptrs(),
            old(self).ptrs().contains(ptr) ==> r == Some(ptr) && final(self).elems()
                == old(self).elems().update(old(self).ptrs().index_of(ptr), elem),
            !old(self).ptrs().contains(ptr) ==> r.is_none() && final(self).elems()
                == old(self).elems(),
    ;

    fn peek_front(&self) -> (r: Option<T>)
        requires
            self.wf(),
        ensures
            r == first_of(self.elems()),
    ;

    fn pop_front(&mut self) -> (r: Option<T>)
        requires
            old(self).wf(),
        ensures
            final(self).wf(),
            final(self).spec_capacity() == old(self).spec_capacity(),
            r == first_of(old(self).elems()),
            old(self).elems().len() == 0 ==> final(self).elems() == old(self).elems()
                && final(self).ptrs() == old(self).ptrs(),
            old(self).elems().len() > 0 ==> final(self).elems() == old(self).elems().drop_first()
                && final(self).ptrs() == old(self).ptrs().drop_first(),
    ;

    /// Appends a value and returns the handle of its new node; `None`,
    /// changing nothing, when the list is full.
    fn push_back(&mut self, elem: T) -> (r: Option<Self::Pointer>)
        requires
            old(self).wf(),
        ensures
            final(self).wf(),
            final(self).spec_capacity() == old(self).spec_capacity(),
            old(self).elems().len() < old(self).spec_capacity() ==> {
                &&& r is Some
                &&& !old(self).ptrs().contains(r->Some_0)
                &&& final(self).elems() == old(self).elems().push(elem)
                &&& final(self).ptrs() == old(self).ptrs().push(r->Some_0)
            },
            old(self).elems().len() >= old(self).spec_capacity() ==> {
                &&& r is None
                &&& final(self).elems() == old(self).elems()
                &&& final(self).ptrs() == old(self).ptrs()
            },
    ;

    /// Moves the node of `ptr` to the back. The node keeps its handle,
    /// which is returned.
    fn move_back(&mut self, ptr: Self::Pointer) -> (r: Option<Self::Pointer>)
        requires
            old(self).wf(),
            old(self).ptrs().contains(ptr),
        ensures
            final(self).wf(),
            final(self).spec_capacity() == old(self).spec_capacity(),
            r == Some(ptr),
            final(self).elems() == to_back(old(self).elems(), old(self).ptrs().index_of(ptr)),
            final(self).ptrs() == to_back(old(self).ptrs(), old(self).ptrs().index_of(ptr)),
    ;
}

} // verus!
