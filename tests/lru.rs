use lru_dll::lru::cellru::CellLRU;
use lru_dll::lru::veclru::VecLRU;
use lru_dll::lru::LRU;

fn names<C: LRU<&'static str, i32>>() {
    let mut lru = C::new(3);

    assert_eq!(lru.get(&"Hello"), None);

    lru.put("Hello", 1);
    lru.put("Amy", 2);
    lru.put("Santiago", 3);

    assert_eq!(lru.get(&"Hello").unwrap(), &1);
    assert_eq!(lru.get(&"Amy").unwrap(), &2);
    assert_eq!(lru.get(&"Santiago").unwrap(), &3);

    // Removes correct ones from cache
    lru.put("Buster 1", 4);
    assert_eq!(lru.get(&"Hello"), None);
    lru.put("Buster 2", 5);
    lru.put("Buster 3", 6);
    assert_eq!(lru.get(&"Amy"), None);
    assert_eq!(lru.get(&"Santiago"), None);

    // LRU functionality works
    assert_eq!(lru.get(&"Buster 1").unwrap(), &4);
    // Least recently used is now Buster 2, which should have been removed
    lru.put("Bla Bla", 10);
    assert_eq!(lru.get(&"Buster 1").unwrap(), &4);
    assert_eq!(lru.get(&"Buster 2"), None);
}

fn numbers<C: LRU<i32, i32>>() {
    let mut other_lru = C::new(3);

    let mut a: i32 = 10;
    other_lru.put(a, 10);
    other_lru.put(a, 11);
    other_lru.put(a, 12);
    other_lru.put(11, 100);
    a += 1;
    assert_eq!(other_lru.get(&a), Some(&100));
    assert_eq!(other_lru.get(&10), Some(&12));
}

#[test]
fn cell_lru_names() {
    names::<CellLRU<&'static str, i32>>();
}

#[test]
fn vec_lru_names() {
    names::<VecLRU<&'static str, i32>>();
}

#[test]
fn cell_lru_numbers() {
    numbers::<CellLRU<i32, i32>>();
}

#[test]
fn vec_lru_numbers() {
    numbers::<VecLRU<i32, i32>>();
}

fn evicts_least_recent<C: LRU<char, i32>>() {
    let mut c = C::new(3);
    c.put('A', 1);
    c.put('B', 2);
    c.put('C', 3);
    assert_eq!(c.get(&'A'), Some(&1));
    assert_eq!(c.get(&'B'), Some(&2));
    assert_eq!(c.get(&'C'), Some(&3));
    c.put('D', 4);
    assert_eq!(c.size(), 3);
    assert_eq!(c.get(&'A'), None);
    assert_eq!(c.get(&'B'), Some(&2));
    assert_eq!(c.get(&'C'), Some(&3));
    assert_eq!(c.get(&'D'), Some(&4));
}

#[test]
fn cell_lru_evicts_least_recent() {
    evicts_least_recent::<CellLRU<char, i32>>();
}

#[test]
fn vec_lru_evicts_least_recent() {
    evicts_least_recent::<VecLRU<char, i32>>();
}

fn get_promotes<C: LRU<char, i32>>() {
    let mut c = C::new(3);
    c.put('A', 1);
    c.put('B', 2);
    c.put('C', 3);
    assert_eq!(c.get(&'A'), Some(&1));
    c.put('D', 4);
    assert_eq!(c.get(&'B'), None);
    assert_eq!(c.get(&'A'), Some(&1));
    assert_eq!(c.get(&'C'), Some(&3));
    assert_eq!(c.get(&'D'), Some(&4));
}

#[test]
fn cell_lru_get_promotes() {
    get_promotes::<CellLRU<char, i32>>();
}

#[test]
fn vec_lru_get_promotes() {
    get_promotes::<VecLRU<char, i32>>();
}

fn overwrite<C: LRU<char, i32>>() {
    let mut c = C::new(2);
    c.put('A', 1);
    c.put('A', 2);
    assert_eq!(c.size(), 1);
    assert_eq!(c.get(&'A'), Some(&2));
    // A is now the most recently used: filling up evicts B, not A.
    c.put('B', 3);
    c.put('A', 5);
    c.put('C', 4);
    assert_eq!(c.size(), 2);
    assert_eq!(c.get(&'B'), None);
    assert_eq!(c.get(&'A'), Some(&5));
    assert_eq!(c.get(&'C'), Some(&4));
}

#[test]
fn cell_lru_overwrite() {
    overwrite::<CellLRU<char, i32>>();
}

#[test]
fn vec_lru_overwrite() {
    overwrite::<VecLRU<char, i32>>();
}

fn overwrite_when_full_evicts_nothing<C: LRU<u64, u64>>() {
    let mut c = C::new(2);
    c.put(1, 10);
    c.put(2, 20);
    c.put(1, 11);
    assert_eq!(c.size(), 2);
    assert_eq!(c.get(&2), Some(&20));
    assert_eq!(c.get(&1), Some(&11));
    assert_eq!(c.capacity(), 2);
}

#[test]
fn cell_lru_overwrite_when_full_evicts_nothing() {
    overwrite_when_full_evicts_nothing::<CellLRU<u64, u64>>();
}

#[test]
fn vec_lru_overwrite_when_full_evicts_nothing() {
    overwrite_when_full_evicts_nothing::<VecLRU<u64, u64>>();
}

#[test]
fn capacity_one_keeps_latest() {
    let mut c: VecLRU<u8, u8> = VecLRU::new(1);
    c.put(1, 1);
    c.put(2, 2);
    assert_eq!(c.get(&1), None);
    assert_eq!(c.get(&2), Some(&2));
    assert_eq!(c.size(), 1);
    let mut d: CellLRU<u8, u8> = CellLRU::new(1);
    d.put(1, 1);
    d.put(2, 2);
    assert_eq!(d.get(&1), None);
    assert_eq!(d.get(&2), Some(&2));
}

#[test]
fn key_holder_is_the_cache_state() {
    let mut c: CellLRU<u32, &'static str> = CellLRU::new(2);
    c.put(7, "seven");
    let holder = c.key_holder();
    assert_eq!(holder.size(), 1);
    assert_eq!(holder.capacity(), 2);
    assert_eq!(holder.get(&7), Some(&"seven"));
    holder.put(8, "eight");
    assert_eq!(c.size(), 2);
    assert_eq!(c.get(&8), Some(&"eight"));
}
