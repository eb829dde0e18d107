//! Fixed-capacity least-recently-used caches built on pointer-stable
//! doubly linked lists.
//!
//! A list hands out a handle for every node it stores. The handle keeps
//! naming the same node while that node is moved to either end, so a cache
//! can keep one handle per key and promote entries in constant time.
pub mod dll;
pub mod linked_list;
pub mod lru;
pub mod veclist;
