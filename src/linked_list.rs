//! The doubly linked list contract shared by the list backends.
//!
//! A list is modelled by two sequences of the same length: `elems()`, the
//! stored values from front to back, and `ptrs()`, the handle of each of
//! those nodes. Handles of the nodes that are in a list are pairwise
//! distinct, so a handle names at most one position.
use std::marker::PhantomData;
use vstd::prelude::*;

pub mod cellist;
pub mod veclist;

verus! {

/// The value behind an optional shared reference.
pub open spec fn val_of<T>(r: Option<&T>) -> Option<T> {
    match r {
        Some(v) => Some(*v),
        None => None,
    }
}

/// The first value of `s`, if any.
pub open spec fn first_of<T>(s: Seq<T>) -> Option<T> {
    if s.len() == 0 {
        None
    } else {
        Some(s[0])
    }
}

/// The last value of `s`, if any.
pub open spec fn last_of<T>(s: Seq<T>) -> Option<T> {
    if s.len() == 0 {
        None
    } else {
        Some(s.last())
    }
}

/// The value stored at handle `p`, when `p` is one of `ptrs`.
pub open spec fn value_at<P, T>(ptrs: Seq<P>, elems: Seq<T>, p: P) -> Option<T> {
    if ptrs.contains(p) {
        Some(elems[ptrs.index_of(p)])
    } else {
        None
    }
}

/// The handle that follows `p` in `ptrs`.
pub open spec fn after<P>(ptrs: Seq<P>, p: P) -> Option<P> {
    if ptrs.contains(p) && ptrs.index_of(p) + 1 < ptrs.len() {
        Some(ptrs[ptrs.index_of(p) + 1])
    } else {
        None
    }
}

/// The handle that precedes `p` in `ptrs`.
pub open spec fn before<P>(ptrs: Seq<P>, p: P) -> Option<P> {
    if ptrs.contains(p) && ptrs.index_of(p) > 0 {
        Some(ptrs[ptrs.index_of(p) - 1])
    } else {
        None
    }
}

/// `s` with its entry at `i` taken out and put at the back.
pub open spec fn to_back<A>(s: Seq<A>, i: int) -> Seq<A> {
    s.remove(i).push(s[i])
}

/// `s` with its entry at `i` taken out and put at the front.
pub open spec fn to_front<A>(s: Seq<A>, i: int) -> Seq<A> {
    s.remove(i).insert(0, s[i])
}

/// In a sequence without duplicates, the index of an entry is where it stands.
pub proof fn lemma_index_of_unique<P>(ptrs: Seq<P>, i: int)
    requires
        ptrs.no_duplicates(),
        0 <= i < ptrs.len(),
    ensures
        ptrs.contains(ptrs[i]),
        ptrs.index_of(ptrs[i]) == i,
{
    assert(ptrs.contains(ptrs[i]));
}

/// What a sequence holds after an insertion.
pub proof fn lemma_insert_contains<A>(s: Seq<A>, pos: int, x: A, y: A)
    requires
        0 <= pos <= s.len(),
    ensures
        s.insert(pos, x).contains(y) <==> (y == x || s.contains(y)),
{
    let t = s.insert(pos, x);
    if t.contains(y) && y != x {
        let k = t.index_of(y);
        assert(t[k] == y);
        if k < pos {
            assert(s[k] == y);
        } else {
            assert(s[k - 1] == y);
        }
    }
    if s.contains(y) {
        let k = s.index_of(y);
        assert(s[k] == y);
        if k < pos {
            assert(t[k] == y);
        } else {
            assert(t[k + 1] == y);
        }
    }
    if y == x {
        assert(t[pos] == x);
    }
}

/// What a sequence without duplicates holds after a removal.
pub proof fn lemma_remove_contains<A>(s: Seq<A>, k: int, y: A)
    requires
        s.no_duplicates(),
        0 <= k < s.len(),
    ensures
        s.remove(k).contains(y) <==> (y != s[k] && s.contains(y)),
{
    let t = s.remove(k);
    if t.contains(y) {
        let j = t.index_of(y);
        assert(t[j] == y);
        if j < k {
            assert(s[j] == y);
        } else {
            assert(s[j + 1] == y);
        }
    }
    if s.contains(y) && y != s[k] {
        let j = s.index_of(y);
        assert(s[j] == y);
        if j < k {
            assert(t[j] == y);
        } else {
            assert(t[j - 1] == y);
        }
    }
}

/// An ordered sequence with stable handles to its nodes.
pub trait DLL<T>: Sized {
    type Pointer: Copy;

    /// The representation invariant of the list.
    spec fn wf(&self) -> bool;

    /// The values from front to back.
    spec fn elems(&self) -> Seq<T>;

    /// The handle of each node, in the same order as `elems()`.
    spec fn ptrs(&self) -> Seq<Self::Pointer>;

    /// Every node has one handle, and no two nodes share one.
    proof fn lemma_wf(&self)
        requires
            self.wf(),
        ensures
            self.ptrs().len() == self.elems().len(),
            self.ptrs().no_duplicates(),
    ;

    /// How many values the list holds.
    fn size(&self) -> (r: usize)
        requires
            self.wf(),
        ensures
            r == self.elems().len(),
    ;

    fn peek_front(&self) -> (r: Option<&T>)
        requires
            self.wf(),
        ensures
            val_of(r) == first_of(self.elems()),
    ;

    fn peek_back(&self) -> (r: Option<&T>)
        requires
            self.wf(),
        ensures
            val_of(r) == last_of(self.elems()),
    ;

    fn pop_front(&mut self) -> (r: Option<T>)
        requires
            old(self).wf(),
        ensures
            final(self).wf(),
            r == first_of(old(self).elems()),
            old(self).elems().len() == 0 ==> final(self).elems() == old(self).elems()
                && final(self).ptrs() == old(self).ptrs(),
            old(self).elems().len() > 0 ==> final(self).elems() == old(self).elems().drop_first()
                && final(self).ptrs() == old(self).ptrs().drop_first(),
    ;

    fn pop_back(&mut self) -> (r: Option<T>)
        requires
            old(self).wf(),
        ensures
            final(self).wf(),
            r == last_of(old(self).elems()),
            old(self).elems().len() == 0 ==> final(self).elems() == old(self).elems()
                && final(self).ptrs() == old(self).ptrs(),
            old(self).elems().len() > 0 ==> final(self).elems() == old(self).elems().drop_last()
                && final(self).ptrs() == old(self).ptrs().drop_last(),
    ;

    /// The handle of the front node.
    fn head(&self) -> (r: Option<Self::Pointer>)
        requires
            self.wf(),
        ensures
            r == first_of(self.ptrs()),
    ;

    /// The handle of the back node.
    fn tail(&self) -> (r: Option<Self::Pointer>)
        requires
            self.wf(),
        ensures
            r == last_of(self.ptrs()),
    ;

    /// The value at a handle; `None` when no node of the list has it.
    fn get(&self, ptr: Self::Pointer) -> (r: Option<&T>)
        requires
            self.wf(),
        ensures
            val_of(r) == value_at(self.ptrs(), self.elems(), ptr),
    ;

    /// Overwrites the value at a handle, keeping the node where it is.
    /// Returns the handle, or `None` (changing nothing) when no node has it.
    fn replace_val(&mut self, ptr: Self::Pointer, elem: T) -> (r: Option<Self::Pointer>)
        requires
            old(self).wf(),
        ensures
            final(self).wf(),
            final(self).ptrs() == old(self).ptrs(),
            old(self).ptrs().contains(ptr) ==> r == Some(ptr) && final(self).elems()
                == old(self).elems().update(old(self).ptrs().index_of(ptr), elem),
            !old(self).ptrs().contains(ptr) ==> r.is_none() && final(self).elems()
                == old(self).elems(),
    ;

    /// Appends a value and returns the handle of its new node.
    fn push_back(&mut self, elem: T) -> (r: Self::Pointer)
        requires
            old(self).wf(),
            old(self).elems().len() < usize::MAX,
        ensures
            final(self).wf(),
            !old(self).ptrs().contains(r),
            final(self).elems() == old(self).elems().push(elem),
            final(self).ptrs() == old(self).ptrs().push(r),
    ;

    /// Prepends a value and returns the handle of its new node.
    fn push_front(&mut self, elem: T) -> (r: Self::Pointer)
        requires
            old(self).wf(),
            old(self).elems().len() < usize::MAX,
        ensures
            final(self).wf(),
            !old(self).ptrs().contains(r),
            final(self).elems() == old(self).elems().insert(0, elem),
            final(self).ptrs() == old(self).ptrs().insert(0, r),
    ;

    /// Moves the node of `ptr` to the back. The node keeps its handle,
    /// which is returned.
    fn move_back(&mut self, ptr: Self::Pointer) -> (r: Self::Pointer)
        requires
            old(self).wf(),
            old(self).ptrs().contains(ptr),
        ensures
            final(self).wf(),
            r == ptr,
            final(self).elems() == to_back(old(self).elems(), old(self).ptrs().index_of(ptr)),
            final(self).ptrs() == to_back(old(self).ptrs(), old(self).ptrs().index_of(ptr)),
    ;

    /// Moves the node of `ptr` to the front. The node keeps its handle,
    /// which is returned.
    fn move_front(&mut self, ptr: Self::Pointer) -> (r: Self::Pointer)
        requires
            old(self).wf(),
            old(self).ptrs().contains(ptr),
        ensures
            final(self).wf(),
            r == ptr,
            final(self).elems() == to_front(old(self).elems(), old(self).ptrs().index_of(ptr)),
            final(self).ptrs() == to_front(old(self).ptrs(), old(self).ptrs().index_of(ptr)),
    ;

    /// The handle of the node after `ptr`; `None` at the back or when no
    /// node has `ptr`.
    fn next_node(&self, ptr: Self::Pointer) -> (r: Option<Self::Pointer>)
        requires
            self.wf(),
        ensures
            r == after(self.ptrs(), ptr),
    ;

    /// The handle of the node before `ptr`; `None` at the front or when no
    /// node has `ptr`.
    fn prev_node(&self, ptr: Self::Pointer) -> (r: Option<Self::Pointer>)
        requires
            self.wf(),
        ensures
            r == before(self.ptrs(), ptr),
    ;
}

/// The handle reached from `p` by `k` steps of `next_node`.
pub open spec fn walk_next<P>(ptrs: Seq<P>, p: Option<P>, k: nat) -> Option<P>
    decreases k,
{
    if k == 0 {
        p
    } else {
        match walk_next(ptrs, p, (k - 1) as nat) {
            Some(q) => after(ptrs, q),
            None => None,
        }
    }
}

/// The handle reached from `p` by `k` steps of `prev_node`.
pub open spec fn walk_prev<P>(ptrs: Seq<P>, p: Option<P>, k: nat) -> Option<P>
    decreases k,
{
    if k == 0 {
        p
    } else {
        match walk_prev(ptrs, p, (k - 1) as nat) {
            Some(q) => before(ptrs, q),
            None => None,
        }
    }
}

proof fn lemma_walk_next_steps<P>(ptrs: Seq<P>, k: nat)
    requires
        ptrs.no_duplicates(),
        k <= ptrs.len(),
    ensures
        k < ptrs.len() ==> walk_next(ptrs, first_of(ptrs), k) == Some(ptrs[k as int]),
        k == ptrs.len() ==> walk_next(ptrs, first_of(ptrs), k) is None,
    decreases k,
{
    if k > 0 {
        lemma_walk_next_steps(ptrs, (k - 1) as nat);
        lemma_index_of_unique(ptrs, k - 1);
    }
}

proof fn lemma_walk_prev_steps<P>(ptrs: Seq<P>, k: nat)
    requires
        ptrs.no_duplicates(),
        k <= ptrs.len(),
    ensures
        k < ptrs.len() ==> walk_prev(ptrs, last_of(ptrs), k) == Some(ptrs[ptrs.len() - 1 - k]),
        k == ptrs.len() ==> walk_prev(ptrs, last_of(ptrs), k) is None,
    decreases k,
{
    if k > 0 {
        lemma_walk_prev_steps(ptrs, (k - 1) as nat);
        lemma_index_of_unique(ptrs, ptrs.len() - k);
    }
}

/// Walking a list with `next_node` from its head visits every node once,
/// front to back, and then stops; walking it with `prev_node` from its tail
/// visits the same nodes in the reverse order.
pub proof fn lemma_traversal<T, L: DLL<T>>(l: L)
    requires
        l.wf(),
    ensures
        forall|k: nat|
            k < l.ptrs().len() ==> #[trigger] walk_next(l.ptrs(), first_of(l.ptrs()), k) == Some(
                l.ptrs()[k as int],
            ),
        walk_next(l.ptrs(), first_of(l.ptrs()), l.ptrs().len()) is None,
        forall|k: nat|
            k < l.ptrs().len() ==> #[trigger] walk_prev(l.ptrs(), last_of(l.ptrs()), k)
                == walk_next(l.ptrs(), first_of(l.ptrs()), (l.ptrs().len() - 1 - k) as nat),
        walk_prev(l.ptrs(), last_of(l.ptrs()), l.ptrs().len()) is None,
{
    l.lemma_wf();
    let ptrs = l.ptrs();
    let n = ptrs.len();
    assert forall|k: nat| k < n implies #[trigger] walk_next(ptrs, first_of(ptrs), k) == Some(
        ptrs[k as int],
    ) by {
        lemma_walk_next_steps(ptrs, k);
    }
    lemma_walk_next_steps(ptrs, n);
    assert forall|k: nat| k < n implies #[trigger] walk_prev(ptrs, last_of(ptrs), k) == walk_next(
        ptrs,
        first_of(ptrs),
        (n - 1 - k) as nat,
    ) by {
        lemma_walk_prev_steps(ptrs, k);
        lemma_walk_next_steps(ptrs, (n - 1 - k) as nat);
    }
    lemma_walk_prev_steps(ptrs, n);
}

proof fn lemma_fifo_pushes<T, L: DLL<T>>(states: Seq<L>, vals: Seq<T>, i: int)
    requires
        states.len() == 2 * vals.len() + 1,
        states[0].elems().len() == 0,
        forall|j: int|
            0 <= j < vals.len() ==> #[trigger] states[j + 1].elems() == states[j].elems().push(
                vals[j],
            ),
        0 <= i <= vals.len(),
    ensures
        states[i].elems() == vals.take(i),
    decreases i,
{
    if i == 0 {
        assert(states[0].elems() =~= vals.take(0));
    } else {
        lemma_fifo_pushes(states, vals, i - 1);
        assert(states[i].elems() == states[i - 1].elems().push(vals[i - 1]));
        assert(vals.take(i) =~= vals.take(i - 1).push(vals[i - 1]));
    }
}

proof fn lemma_pops<T, L: DLL<T>>(states: Seq<L>, start: int, vals: Seq<T>, j: int)
    requires
        0 <= start,
        states.len() == start + vals.len() + 1,
        states[start].elems() == vals,
        forall|m: int|
            0 <= m < vals.len() ==> (#[trigger] states[start + m].elems()).len() > 0
                ==> states[start + m + 1].elems() == states[start + m].elems().drop_first(),
        0 <= j <= vals.len(),
    ensures
        states[start + j].elems() == vals.skip(j),
    decreases j,
{
    if j == 0 {
        assert(vals.skip(0) =~= vals);
    } else {
        lemma_pops(states, start, vals, j - 1);
        assert(states[start + (j - 1)].elems().len() > 0);
        assert(vals.skip(j) =~= vals.skip(j - 1).drop_first());
    }
}

/// Values pushed at the back of an empty list come out of its front in the
/// order they went in. `states` is the run: `states[i + 1]` is the list after
/// `push_back(vals[i])` on `states[i]`, and then `states[n + j + 1]` is the
/// list after the `pop_front` on `states[n + j]` that returned `outs[j]`.
pub proof fn lemma_fifo<T, L: DLL<T>>(states: Seq<L>, vals: Seq<T>, outs: Seq<Option<T>>)
    requires
        states.len() == 2 * vals.len() + 1,
        outs.len() == vals.len(),
        states[0].elems().len() == 0,
        forall|i: int|
            0 <= i < vals.len() ==> #[trigger] states[i + 1].elems() == states[i].elems().push(
                vals[i],
            ),
        forall|j: int|
            0 <= j < vals.len() ==> #[trigger] outs[j] == first_of(
                states[vals.len() + j].elems(),
            ),
        forall|j: int|
            0 <= j < vals.len() ==> (#[trigger] states[vals.len() + j].elems()).len() > 0
                ==> states[vals.len() + j + 1].elems() == states[vals.len() + j].elems().drop_first(),
    ensures
        forall|j: int| 0 <= j < vals.len() ==> outs[j] == Some(vals[j]),
{
    let n = vals.len() as int;
    lemma_fifo_pushes(states, vals, n);
    assert(vals.take(n) =~= vals);
    assert forall|j: int| 0 <= j < n implies outs[j] == Some(vals[j]) by {
        lemma_pops(states, n, vals, j);
    }
}

/// After `move_back(h)` on `l0` gives `states[0]`, popping the list empty
/// from the front (`outs[j]` from `states[j]`, leaving `states[j + 1]`)
/// returns the other values in their order and the value at `h` last.
pub proof fn lemma_move_back_pops_last<T, L: DLL<T>>(
    l0: L,
    h: L::Pointer,
    states: Seq<L>,
    outs: Seq<Option<T>>,
)
    requires
        l0.wf(),
        l0.ptrs().contains(h),
        states.len() == l0.elems().len() + 1,
        outs.len() == l0.elems().len(),
        states[0].elems() == to_back(l0.elems(), l0.ptrs().index_of(h)),
        forall|j: int|
            0 <= j < outs.len() ==> #[trigger] outs[j] == first_of(states[j].elems()),
        forall|j: int|
            0 <= j < outs.len() ==> (#[trigger] states[j].elems()).len() > 0 ==> states[j
                + 1].elems() == states[j].elems().drop_first(),
    ensures
        outs.last() == value_at(l0.ptrs(), l0.elems(), h),
        forall|j: int|
            0 <= j < outs.len() - 1 ==> outs[j] == Some(
                l0.elems().remove(l0.ptrs().index_of(h))[j],
            ),
{
    l0.lemma_wf();
    let s = to_back(l0.elems(), l0.ptrs().index_of(h));
    assert forall|j: int| 0 <= j < outs.len() implies outs[j] == Some(s[j]) by {
        lemma_pops(states, 0, s, j);
    }
}

/// After `move_front(h)` on `l0` gives `l1`, the value `pop_front` takes
/// from `l1` is the one at `h`.
pub proof fn lemma_move_front_pops_first<T, L: DLL<T>>(l0: L, h: L::Pointer, l1: L, out: Option<T>)
    requires
        l0.wf(),
        l0.ptrs().contains(h),
        l1.elems() == to_front(l0.elems(), l0.ptrs().index_of(h)),
        out == first_of(l1.elems()),
    ensures
        out == value_at(l0.ptrs(), l0.elems(), h),
{
    l0.lemma_wf();
}

/// After `push_back(v1)` on `l0` returns `h` and leaves `l1`, and
/// `replace_val(h, v2)` on `l1` leaves `l2`, the value at `h` is `v2`.
pub proof fn lemma_replace_then_get<T, L: DLL<T>>(
    l0: L,
    v1: T,
    h: L::Pointer,
    l1: L,
    v2: T,
    l2: L,
)
    requires
        l0.wf(),
        l1.wf(),
        !l0.ptrs().contains(h),
        l1.elems() == l0.elems().push(v1),
        l1.ptrs() == l0.ptrs().push(h),
        l2.ptrs() == l1.ptrs(),
        l1.ptrs().contains(h) ==> l2.elems() == l1.elems().update(l1.ptrs().index_of(h), v2),
    ensures
        value_at(l2.ptrs(), l2.elems(), h) == Some(v2),
{
    l0.lemma_wf();
    l1.lemma_wf();
    lemma_index_of_unique(l1.ptrs(), l0.ptrs().len() as int);
}

/// Hands out the values of a list from the front, taking them out.
pub struct DLLIntoIter<T, L: DLL<T>> {
    list: L,
    _wokka: PhantomData<T>,
}

impl<T, L: DLL<T>> DLLIntoIter<T, L> {
    /// The list that is left.
    pub closed spec fn list(&self) -> L {
        self.list
    }

    pub fn new(list: L) -> (r: Self)
        ensures
            r.list() == list,
    {
        DLLIntoIter { list, _wokka: PhantomData }
    }

    pub fn next(&mut self) -> (r: Option<T>)
        requires
            old(self).list().wf(),
        ensures
            final(self).list().wf(),
            r == first_of(old(self).list().elems()),
            old(self).list().elems().len() > 0 ==> final(self).list().elems() == old(
                self,
            ).list().elems().drop_first(),
            old(self).list().elems().len() == 0 ==> final(self).list().elems() == old(
                self,
            ).list().elems(),
    {
        self.list.pop_front()
    }
}

/// Walks a list from front to back by handles, without changing it.
pub struct DLLIterator<'a, T, L: DLL<T>> {
    list: &'a L,
    curr: Option<L::Pointer>,
    wokka: PhantomData<T>,
}

impl<'a, T, L: DLL<T>> DLLIterator<'a, T, L> {
    /// The list walked.
    pub closed spec fn list(&self) -> &'a L {
        self.list
    }

    /// A walk over all of `list`, starting at its front.
    pub fn new(list: &'a L) -> (r: Self)
        requires
            list.wf(),
        ensures
            r.wf(),
            r.list() == list,
            r.remaining() == list.elems(),
    {
        proof {
            list.lemma_wf();
            if list.ptrs().len() > 0 {
                lemma_index_of_unique(list.ptrs(), 0);
            }
        }
        let r = DLLIterator { list, curr: list.head(), wokka: PhantomData };
        proof {
            assert(r.remaining() =~= list.elems());
        }
        r
    }

    /// The values that are still to come.
    pub closed spec fn remaining(&self) -> Seq<T> {
        match self.curr {
            Some(p) => self.list.elems().subrange(
                self.list.ptrs().index_of(p),
                self.list.elems().len() as int,
            ),
            None => Seq::empty(),
        }
    }

    pub closed spec fn wf(&self) -> bool {
        &&& self.list.wf()
        &&& match self.curr {
            Some(p) => self.list.ptrs().contains(p),
            None => true,
        }
    }

    pub fn next(&mut self) -> (r: Option<&'a T>)
        requires
            old(self).wf(),
        ensures
            final(self).wf(),
            final(self).list() == old(self).list(),
            val_of(r) == first_of(old(self).remaining()),
            old(self).remaining().len() > 0 ==> final(self).remaining() == old(
                self,
            ).remaining().drop_first(),
            old(self).remaining().len() == 0 ==> final(self).remaining().len() == 0,
    {
        let curr_ptr = self.curr;
        match curr_ptr {
            None => None,
            Some(p) => {
                proof {
                    self.list.lemma_wf();
                    let i = self.list.ptrs().index_of(p);
                    lemma_index_of_unique(self.list.ptrs(), i);
                    if i + 1 < self.list.ptrs().len() {
                        lemma_index_of_unique(self.list.ptrs(), i + 1);
                    }
                }
                self.curr = self.list.next_node(p);
                let r = self.list.get(p);
                proof {
                    assert(self.remaining() =~= old(self).remaining().drop_first());
                }
                r
            },
        }
    }
}

} // verus!
