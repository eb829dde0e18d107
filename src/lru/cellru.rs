//! The cache over the shared-node backend.
use crate::linked_list::cellist::CellLinkedList;
use crate::lru::{KeyHolder, LRU};
use std::hash::Hash;
use vstd::prelude::*;
use vstd::std_specs::hash::obeys_key_model;

verus! {

pub struct CellLRU<K: Eq + Hash + Copy, T> {
    key_holder: KeyHolder<K, T, CellLinkedList<(K, T)>>,
}

impl<K: Eq + Hash + Copy, T> LRU<K, T> for CellLRU<K, T> {
    type List = CellLinkedList<(K, T)>;

    closed spec fn holder(&self) -> KeyHolder<K, T, CellLinkedList<(K, T)>> {
        self.key_holder
    }

    fn new(capacity: usize) -> (r: Self) {
        CellLRU { key_holder: KeyHolder::new(CellLinkedList::new(), capacity) }
    }

    fn key_holder(&mut self) -> (r: &mut KeyHolder<K, T, CellLinkedList<(K, T)>>) {
        &mut self.key_holder
    }

    fn size(&self) -> (r: usize) {
        self.key_holder.size()
    }

    fn capacity(&self) -> (r: usize) {
        self.key_holder.capacity()
    }
}

} // verus!
