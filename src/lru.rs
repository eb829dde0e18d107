//! A least-recently-used cache over any list backend.
//!
//! A cache is modelled by its entries, `(key, value)` pairs in recency
//! order: the front entry was used least recently, the back entry most
//! recently. Keys are unique, and there are never more entries than the
//! capacity.
use crate::linked_list::{lemma_index_of_unique, to_back, val_of, DLL};
use std::collections::HashMap;
use std::hash::Hash;
use std::marker::PhantomData;
use vstd::prelude::*;
use vstd::std_specs::hash::obeys_key_model;

pub mod cellru;
pub mod veclru;

verus! {

broadcast use vstd::std_specs::hash::group_hash_axioms;

/// Whether some entry of `s` has key `k`.
pub open spec fn has_key<K, T>(s: Seq<(K, T)>, k: K) -> bool {
    exists|i: int| 0 <= i < s.len() && s[i].0 == k
}

/// The position of the entry with key `k`.
pub open spec fn key_index<K, T>(s: Seq<(K, T)>, k: K) -> int {
    choose|i: int| 0 <= i < s.len() && s[i].0 == k
}

/// No two entries of `s` have the same key.
pub open spec fn keys_unique<K, T>(s: Seq<(K, T)>) -> bool {
    forall|a: int, b: int| 0 <= a < s.len() && 0 <= b < s.len() && s[a].0 == s[b].0 ==> a == b
}

/// The value of key `k` in `s`.
pub open spec fn lookup<K, T>(s: Seq<(K, T)>, k: K) -> Option<T> {
    if has_key(s, k) {
        Some(s[key_index(s, k)].1)
    } else {
        None
    }
}

/// The entries after a read of key `k`: its entry, if any, becomes the
/// most recently used.
pub open spec fn after_get<K, T>(s: Seq<(K, T)>, k: K) -> Seq<(K, T)> {
    if has_key(s, k) {
        to_back(s, key_index(s, k))
    } else {
        s
    }
}

/// The entries after a write of `v` at key `k` in a cache of capacity `cap`.
/// A present key takes the new value and becomes the most recently used. A
/// new key is appended, after the least recently used entry has been
/// evicted when the cache is full.
pub open spec fn after_put<K, T>(s: Seq<(K, T)>, cap: nat, k: K, v: T) -> Seq<(K, T)> {
    if has_key(s, k) {
        s.remove(key_index(s, k)).push((k, v))
    } else if s.len() >= cap {
        s.drop_first().push((k, v))
    } else {
        s.push((k, v))
    }
}

/// A list, and the handle of each key's node in it.
pub struct KeyHolder<K: Eq + Hash + Copy, T, L: DLL<(K, T)>> {
    list: L,
    hash: HashMap<K, L::Pointer>,
    size: usize,
    capacity: usize,
    _marker: PhantomData<T>,
}

impl<K: Eq + Hash + Copy, T, L: DLL<(K, T)>> KeyHolder<K, T, L> {
    /// The entries, least recently used first.
    pub closed spec fn entries(&self) -> Seq<(K, T)> {
        self.list.elems()
    }

    /// The most entries the cache holds at once.
    pub closed spec fn spec_capacity(&self) -> nat {
        self.capacity as nat
    }

    /// The list is well formed and within the capacity, the key index
    /// holds exactly the keys of the list, and each key's handle names the
    /// node that holds that key.
    pub closed spec fn wf(&self) -> bool {
        let elems = self.list.elems();
        let ptrs = self.list.ptrs();
        &&& obeys_key_model::<K>()
        &&& self.list.wf()
        &&& 0 < self.capacity
        &&& self.size == elems.len()
        &&& self.size <= self.capacity
        &&& forall|j: int|
            0 <= j < elems.len() ==> self.hash@.contains_key(#[trigger] elems[j].0)
                && self.hash@[elems[j].0] == ptrs[j]
        &&& forall|k: K| #[trigger] self.hash@.contains_key(k) ==> has_key(elems, k)
    }

    /// A well-formed holder has unique keys and respects its capacity.
    pub proof fn lemma_wf(&self)
        requires
            self.wf(),
        ensures
            keys_unique(self.entries()),
            self.entries().len() <= self.spec_capacity(),
            0 < self.spec_capacity(),
    {
        self.list.lemma_wf();
        let elems = self.list.elems();
        let ptrs = self.list.ptrs();
        assert forall|a: int, b: int|
            0 <= a < elems.len() && 0 <= b < elems.len() && elems[a].0 == elems[b].0 implies a
            == b by {
            assert(ptrs[a] == self.hash@[elems[a].0]);
            assert(ptrs[b] == self.hash@[elems[b].0]);
        }
    }

    /// A holder over the empty `list`, for at most `capacity` entries.
    pub fn new(list: L, capacity: usize) -> (r: Self)
        requires
            list.wf(),
            list.elems().len() == 0,
            capacity > 0,
            obeys_key_model::<K>(),
        ensures
            r.wf(),
            r.entries() == Seq::<(K, T)>::empty(),
            r.spec_capacity() == capacity,
    {
        proof {
            list.lemma_wf();
        }
        let r = KeyHolder { list, hash: HashMap::new(), size: 0, capacity, _marker: PhantomData };
        proof {
            assert(r.entries() =~= Seq::<(K, T)>::empty());
        }
        r
    }

    /// How many entries the cache holds.
    pub fn size(&self) -> (r: usize)
        requires
            self.wf(),
        ensures
            r == self.entries().len(),
    {
        self.size
    }

    /// The most entries the cache holds at once.
    pub fn capacity(&self) -> (r: usize)
        ensures
            r == self.spec_capacity(),
    {
        self.capacity
    }

    /// The value of `key`, which becomes the most recently used entry.
    pub fn get(&mut self, key: &K) -> (r: Option<&T>)
        requires
            old(self).wf(),
        ensures
            final(self).wf(),
            final(self).spec_capacity() == old(self).spec_capacity(),
            val_of(r) == lookup(old(self).entries(), *key),
            final(self).entries() == after_get(old(self).entries(), *key),
    {
        proof {
            self.lemma_wf();
            self.list.lemma_wf();
        }
        let ghost elems = self.list.elems();
        let ghost ptrs = self.list.ptrs();
        let ptr = match self.hash.get(key) {
            Some(p) => *p,
            None => {
                proof {
                    if has_key(elems, *key) {
                        let i = key_index(elems, *key);
                        assert(self.hash@.contains_key(elems[i].0));
                    }
                }
                return None;
            },
        };
        let ghost i = key_index(elems, *key);
        proof {
            assert(has_key(elems, *key));
            assert(elems[i].0 == *key);
            lemma_index_of_unique(ptrs, i);
        }
        let ptr = self.list.move_back(ptr);
        proof {
            self.lemma_after_move(elems, ptrs, i);
            self.list.lemma_wf();
            lemma_index_of_unique(self.list.ptrs(), self.list.ptrs().len() - 1);
        }
        match self.list.get(ptr) {
            Some(tup) => Some(&tup.1),
            None => None,
        }
    }

    /// The holder stays well formed when the entry at `i` is moved to the back.
    proof fn lemma_after_move(&self, elems: Seq<(K, T)>, ptrs: Seq<L::Pointer>, i: int)
        requires
            obeys_key_model::<K>(),
            self.list.wf(),
            0 < self.capacity,
            self.size == elems.len() <= self.capacity,
            ptrs.len() == elems.len(),
            0 <= i < elems.len(),
            self.list.elems() == to_back(elems, i),
            self.list.ptrs() == to_back(ptrs, i),
            forall|j: int|
                0 <= j < elems.len() ==> self.hash@.contains_key(#[trigger] elems[j].0)
                    && self.hash@[elems[j].0] == ptrs[j],
            forall|k: K| #[trigger] self.hash@.contains_key(k) ==> has_key(elems, k),
        ensures
            self.wf(),
    {
        let ne = self.list.elems();
        let np = self.list.ptrs();
        let last = elems.len() - 1;
        assert forall|j: int| 0 <= j < ne.len() implies self.hash@.contains_key(#[trigger] ne[j].0)
            && self.hash@[ne[j].0] == np[j] by {
            if j < i {
                assert(ne[j] == elems[j] && np[j] == ptrs[j]);
            } else if j < last {
                assert(ne[j] == elems[j + 1] && np[j] == ptrs[j + 1]);
            } else {
                assert(ne[j] == elems[i] && np[j] == ptrs[i]);
            }
        }
        assert forall|k: K| #[trigger] self.hash@.contains_key(k) implies has_key(ne, k) by {
            let j = choose|j: int| 0 <= j < elems.len() && elems[j].0 == k;
            if j < i {
                assert(ne[j] == elems[j]);
            } else if j > i {
                assert(ne[j - 1] == elems[j]);
            } else {
                assert(ne[last] == elems[i]);
            }
        }
    }

    /// Stores `val` at `key`, which becomes the most recently used entry;
    /// when the key is new and the cache is full, the least recently used
    /// entry is evicted first.
    pub fn put(&mut self, key: K, val: T)
        requires
            old(self).wf(),
        ensures
            final(self).wf(),
            final(self).spec_capacity() == old(self).spec_capacity(),
            final(self).entries() == after_put(
                old(self).entries(),
                old(self).spec_capacity(),
                key,
                val,
            ),
    {
        proof {
            self.lemma_wf();
            self.list.lemma_wf();
        }
        let ghost elems = self.list.elems();
        let ghost ptrs = self.list.ptrs();
        match self.hash.get(&key) {
            Some(p) => {
                // The key is present: overwrite its entry, then promote it.
                let ptr = *p;
                let ghost i = key_index(elems, key);
                proof {
                    assert(has_key(elems, key));
                    assert(elems[i].0 == key);
                    lemma_index_of_unique(ptrs, i);
                }
                self.list.replace_val(ptr, (key, val));
                let ghost elems1 = elems.update(i, (key, val));
                proof {
                    assert forall|j: int| 0 <= j < elems1.len() implies self.hash@.contains_key(
                        #[trigger] elems1[j].0,
                    ) && self.hash@[elems1[j].0] == ptrs[j] by {
                        if j != i {
                            assert(elems1[j] == elems[j]);
                        }
                    }
                    assert forall|k: K| #[trigger] self.hash@.contains_key(k) implies has_key(
                        elems1,
                        k,
                    ) by {
                        let j = choose|j: int| 0 <= j < elems.len() && elems[j].0 == k;
                        assert(elems1[j].0 == k);
                    }
                }
                self.list.move_back(ptr);
                proof {
                    self.lemma_after_move(elems1, ptrs, i);
                    assert(self.list.elems() =~= elems.remove(i).push((key, val)));
                }
            },
            None => {
                proof {
                    if has_key(elems, key) {
                        let i = key_index(elems, key);
                        assert(self.hash@.contains_key(elems[i].0));
                    }
                }
                if self.size == self.capacity {
                    // Full: evict the least recently used entry first.
                    let ghost old_hash = self.hash@;
                    match self.list.pop_front() {
                        Some((old_key, _)) => {
                            self.size -= 1;
                            self.hash.remove(&old_key);
                            proof {
                                let ne = self.list.elems();
                                assert(ne == elems.drop_first());
                                assert(old_key == elems[0].0);
                                assert forall|j: int| 0 <= j < ne.len() implies self.hash@.contains_key(
                                    #[trigger] ne[j].0,
                                ) && self.hash@[ne[j].0] == self.list.ptrs()[j] by {
                                    assert(ne[j] == elems[j + 1]);
                                    assert(elems[j + 1].0 != elems[0].0);
                                }
                                assert forall|k: K| #[trigger] self.hash@.contains_key(k) implies has_key(
                                    ne,
                                    k,
                                ) by {
                                    assert(old_hash.contains_key(k));
                                    let j = choose|j: int| 0 <= j < elems.len() && elems[j].0 == k;
                                    assert(j != 0);
                                    assert(ne[j - 1] == elems[j]);
                                }
                            }
                        },
                        None => {
                            proof {
                                assert(false);
                            }
                        },
                    }
                }
                let ghost mid = self.list.elems();
                let ghost mid_ptrs = self.list.ptrs();
                proof {
                    assert(!has_key(mid, key)) by {
                        if has_key(mid, key) {
                            let j = choose|j: int| 0 <= j < mid.len() && mid[j].0 == key;
                            assert(self.hash@.contains_key(mid[j].0));
                        }
                    }
                }
                let new_ptr = self.list.push_back((key, val));
                self.size += 1;
                self.hash.insert(key, new_ptr);
                proof {
                    let ne = self.list.elems();
                    assert forall|j: int| 0 <= j < ne.len() implies self.hash@.contains_key(
                        #[trigger] ne[j].0,
                    ) && self.hash@[ne[j].0] == self.list.ptrs()[j] by {
                        if j < mid.len() {
                            assert(ne[j] == mid[j]);
                            assert(mid[j].0 != key);
                        }
                    }
                    assert forall|k: K| #[trigger] self.hash@.contains_key(k) implies has_key(
                        ne,
                        k,
                    ) by {
                        if k == key {
                            assert(ne[mid.len() as int].0 == key);
                        } else {
                            let j = choose|j: int| 0 <= j < mid.len() && mid[j].0 == k;
                            assert(ne[j] == mid[j]);
                        }
                    }
                }
            },
        }
    }
}

/// A cache with a fixed capacity that evicts its least recently used entry.
pub trait LRU<K: Eq + Hash + Copy, T>: Sized {
    type List: DLL<(K, T)>;

    /// The list and key index that hold the cache's state.
    spec fn holder(&self) -> KeyHolder<K, T, Self::List>;

    /// An empty cache for at most `capacity` entries. The key type must
    /// hash and compare consistently (`obeys_key_model`), as it must for
    /// any hash map.
    fn new(capacity: usize) -> (r: Self)
        requires
            capacity > 0,
            obeys_key_model::<K>(),
        ensures
            r.holder().wf(),
            r.holder().entries() == Seq::<(K, T)>::empty(),
            r.holder().spec_capacity() == capacity,
    ;

    /// Access to the cache's state.
    fn key_holder(&mut self) -> (r: &mut KeyHolder<K, T, Self::List>)
        ensures
            *r == old(self).holder(),
            final(self).holder() == *final(r),
    ;

    /// How many entries the cache holds.
    fn size(&self) -> (r: usize)
        requires
            self.holder().wf(),
        ensures
            r == self.holder().entries().len(),
    ;

    /// The most entries the cache holds at once.
    fn capacity(&self) -> (r: usize)
        ensures
            r == self.holder().spec_capacity(),
    ;

    /// The value of `key`, which becomes the most recently used entry.
    fn get<'a>(&'a mut self, key: &K) -> (r: Option<&'a T>) where
        K: 'a,
        T: 'a,
        Self::List: 'a,

        requires
            old(self).holder().wf(),
        ensures
            final(self).holder().wf(),
            final(self).holder().spec_capacity() == old(self).holder().spec_capacity(),
            val_of(r) == lookup(old(self).holder().entries(), *key),
            final(self).holder().entries() == after_get(old(self).holder().entries(), *key),
    {
        let holder = self.key_holder();
        holder.get(key)
    }

    /// Stores `val` at `key`, which becomes the most recently used entry;
    /// when the key is new and the cache is full, the least recently used
    /// entry is evicted first.
    fn put(&mut self, key: K, val: T)
        requires
            old(self).holder().wf(),
        ensures
            final(self).holder().wf(),
            final(self).holder().spec_capacity() == old(self).holder().spec_capacity(),
            final(self).holder().entries() == after_put(
                old(self).holder().entries(),
                old(self).holder().spec_capacity(),
                key,
                val,
            ),
    {
        let holder = self.key_holder();
        holder.put(key, val);
    }
}

} // verus!
