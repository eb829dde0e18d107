//! The cache over the vector backend.
use crate::linked_list::veclist::VectorLinkedList;
use crate::lru::{KeyHolder, LRU};
use std::hash::Hash;
use vstd::prelude::*;
use vstd::std_specs::hash::obeys_key_model;

verus! {

pub struct VecLRU<K: Eq + Hash + Copy, T> {
    key_holder: KeyHolder<K, T, VectorLinkedList<(K, T)>>,
}

impl<K: Eq + Hash + Copy, T> LRU<K, T> for VecLRU<K, T> {
    type List = VectorLinkedList<(K, T)>;

    closed spec fn holder(&self) -> KeyHolder<K, T, VectorLinkedList<(K, T)>> {
        self.key_holder
    }

    fn new(capacity: usize) -> (r: Self) {
        VecLRU { key_holder: KeyHolder::new(VectorLinkedList::new(), capacity) }
    }

    fn key_holder(&mut self) -> (r: &mut KeyHolder<K, T, VectorLinkedList<(K, T)>>) {
        &mut self.key_holder
    }

    fn size(&self) -> (r: usize) {
        self.key_holder.size()
    }

    fn capacity(&self) -> (r: usize) {
        self.key_holder.capacity()
    }
}

} // verus!
