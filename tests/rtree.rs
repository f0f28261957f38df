use infra_bits::rand::RTreeMap;
use std::cell::Cell;
use std::rc::Rc;

#[derive(Debug)]
struct Dropcheck {
    inner: char,
    dropped: Rc<Cell<usize>>,
}

impl Drop for Dropcheck {
    fn drop(&mut self) {
        println!("{}", self.inner);
        self.dropped.set(self.dropped.get() + 1);
    }
}

fn tagged(c: char, dropped: &Rc<Cell<usize>>) -> Dropcheck {
    Dropcheck { inner: c, dropped: Rc::clone(dropped) }
}

#[test]
fn test_should_dropp_all_elements() {
    let dropped = Rc::new(Cell::new(0usize));
    {
        let mut tree: RTreeMap<char, Dropcheck> = RTreeMap::new();
        for c in 'a'..='e' {
            tree.insert(c, tagged(c, &dropped))
        }
        for c in ('a'..='e').into_iter().rev() {
            tree.remove(c);
        }
    }
    assert_eq!(dropped.get(), 5);
}

#[test]
fn removing_all_in_reverse_empties_the_tree() {
    let dropped = Rc::new(Cell::new(0usize));
    let mut tree: RTreeMap<char, Dropcheck> = RTreeMap::new();
    for c in 'a'..='e' {
        tree.insert(c, tagged(c, &dropped));
    }
    for c in ('a'..='e').rev() {
        let removed = tree.remove(c).expect("present");
        assert_eq!(removed.inner, c);
    }
    assert_eq!(dropped.get(), 5);
    assert!(tree.is_empty());
}

#[test]
fn discarding_a_tree_drops_every_value_once() {
    let dropped = Rc::new(Cell::new(0usize));
    {
        let mut tree: RTreeMap<u64, Dropcheck> = RTreeMap::new();
        for i in 0..100u64 {
            tree.insert(i, tagged('x', &dropped));
        }
        assert_eq!(dropped.get(), 0);
    }
    assert_eq!(dropped.get(), 100);
}

#[test]
fn overwriting_drops_the_old_value_only() {
    let dropped = Rc::new(Cell::new(0usize));
    let mut tree: RTreeMap<char, Dropcheck> = RTreeMap::new();
    tree.insert('k', tagged('1', &dropped));
    tree.insert('k', tagged('2', &dropped));
    assert_eq!(dropped.get(), 1);
    let v = tree.remove('k').expect("present");
    assert_eq!(v.inner, '2');
}

#[test]
fn high_priority_key_becomes_root() {
    let mut tree: RTreeMap<char, u32> = RTreeMap::new();
    tree.insert('b', 1);
    tree.insert('z', 2);
    tree.insert_high_priority('a', 3);
    assert_eq!(tree.root_key(), Some(&'a'));
    assert!(tree.contains('b'));
    assert!(tree.contains('z'));
    assert!(tree.contains('a'));
}

#[test]
fn high_priority_on_large_tree() {
    let mut tree: RTreeMap<u64, u64> = RTreeMap::new();
    for i in 0..500u64 {
        tree.insert(i * 7 % 500, i);
    }
    tree.insert_high_priority(1000, 1);
    assert_eq!(tree.root_key(), Some(&1000));
    tree.insert_high_priority(250, 9);
    assert_eq!(tree.root_key(), Some(&1000));
    assert_eq!(tree.remove(250), Some(9));
}

#[test]
fn round_trip_returns_each_value_once() {
    let mut tree: RTreeMap<u64, u64> = RTreeMap::new();
    let n: u64 = 200;
    for i in 0..n {
        tree.insert(i, i * 10);
    }
    let mut seen = vec![false; n as usize];
    for j in 0..n {
        let k = (j * 37) % n;
        let v = tree.remove(k).expect("inserted key");
        assert_eq!(v, k * 10);
        assert!(!seen[k as usize]);
        seen[k as usize] = true;
    }
    assert!(seen.iter().all(|s| *s));
    assert!(tree.is_empty());
}

#[test]
fn overwrite_returns_new_value() {
    let mut tree: RTreeMap<char, &str> = RTreeMap::new();
    tree.insert('q', "old");
    tree.insert('r', "other");
    tree.insert('q', "new");
    assert_eq!(tree.remove('q'), Some("new"));
    assert_eq!(tree.remove('q'), None);
    assert!(tree.contains('r'));
}

#[test]
fn absent_key_reports_nothing() {
    let mut tree: RTreeMap<char, u8> = RTreeMap::new();
    assert_eq!(tree.remove('x'), None);
    assert!(!tree.contains('x'));
    tree.insert('a', 1);
    tree.insert('c', 3);
    assert_eq!(tree.remove('b'), None);
    assert!(!tree.contains('b'));
    assert!(tree.contains('a'));
    assert!(tree.contains('c'));
}

#[test]
fn empty_tree_has_no_root() {
    let tree: RTreeMap<u64, ()> = RTreeMap::new();
    assert!(tree.is_empty());
    assert_eq!(tree.root_key(), None);
    assert!(!tree.contains(0));
}

#[test]
fn chosen_priorities_decide_the_root() {
    let mut tree: RTreeMap<u64, char> = RTreeMap::new();
    tree.insert_with_priority(5, 'a', 10);
    tree.insert_with_priority(3, 'b', 4);
    assert_eq!(tree.root_key(), Some(&5));
    tree.insert_with_priority(8, 'c', 10);
    assert_eq!(tree.root_key(), Some(&8));
    tree.insert_with_priority(1, 'd', 11);
    assert_eq!(tree.root_key(), Some(&1));
    tree.insert_with_priority(5, 'e', 99);
    assert_eq!(tree.root_key(), Some(&1));
    assert_eq!(tree.remove(1), Some('d'));
    assert_eq!(tree.root_key(), Some(&8));
    assert_eq!(tree.remove(5), Some('e'));
    assert_eq!(tree.remove(8), Some('c'));
    assert_eq!(tree.root_key(), Some(&3));
    assert_eq!(tree.remove(3), Some('b'));
    assert!(tree.is_empty());
}

#[test]
fn removal_tie_promotes_left_child() {
    let mut tree: RTreeMap<u64, u64> = RTreeMap::new();
    tree.insert_with_priority(2, 0, 9);
    tree.insert_with_priority(1, 0, 5);
    tree.insert_with_priority(3, 0, 5);
    assert_eq!(tree.root_key(), Some(&2));
    assert_eq!(tree.remove(2), Some(0));
    assert_eq!(tree.root_key(), Some(&1));
    assert!(tree.contains(3));
}

#[test]
fn largest_priority_and_keys() {
    let mut tree: RTreeMap<u64, u64> = RTreeMap::new();
    tree.insert_with_priority(u64::MAX, 1, usize::MAX);
    tree.insert_with_priority(0, 2, usize::MAX);
    assert_eq!(tree.root_key(), Some(&0));
    assert!(tree.contains(u64::MAX));
    assert_eq!(tree.remove(u64::MAX), Some(1));
    assert_eq!(tree.remove(0), Some(2));
    assert!(tree.is_empty());
}

#[test]
fn keys_stay_ascending_after_mixed_operations() {
    let mut tree: RTreeMap<u64, u64> = RTreeMap::new();
    for i in 0..300u64 {
        tree.insert((i * 131) % 257, i);
        if i % 3 == 0 {
            tree.remove((i * 17) % 257);
        }
    }
    let keys = tree.keys();
    assert!(!keys.is_empty());
    for w in keys.windows(2) {
        assert!(w[0] < w[1]);
    }
    for k in &keys {
        assert!(tree.contains(*k));
    }
}

#[test]
fn keys_of_chosen_tree() {
    let mut tree: RTreeMap<char, ()> = RTreeMap::new();
    for c in ['d', 'b', 'f', 'a', 'c', 'e', 'g'] {
        tree.insert(c, ());
    }
    assert_eq!(tree.keys(), vec!['a', 'b', 'c', 'd', 'e', 'f', 'g']);
    tree.remove('d');
    assert_eq!(tree.keys(), vec!['a', 'b', 'c', 'e', 'f', 'g']);
}

#[test]
fn removing_absent_key_keeps_the_tree() {
    let mut tree: RTreeMap<i32, u8> = RTreeMap::new();
    tree.insert_with_priority(0, 1, 7);
    tree.insert_with_priority(-5, 2, 3);
    tree.insert_with_priority(5, 3, 4);
    let before = tree.keys();
    assert_eq!(tree.remove(2), None);
    assert_eq!(tree.root_key(), Some(&0));
    assert_eq!(tree.keys(), before);
}

#[test]
fn root_successor_is_higher_priority_child() {
    let mut tree: RTreeMap<u8, u8> = RTreeMap::new();
    tree.insert_with_priority(10, 0, 9);
    tree.insert_with_priority(5, 0, 2);
    tree.insert_with_priority(15, 0, 6);
    assert_eq!(tree.remove(10), Some(0));
    assert_eq!(tree.root_key(), Some(&15));
    assert_eq!(tree.keys(), vec![5, 15]);
}

#[test]
fn equal_key_insert_keeps_shape() {
    let mut tree: RTreeMap<i64, i64> = RTreeMap::new();
    tree.insert_with_priority(2, 0, 5);
    tree.insert_with_priority(1, 0, 1);
    tree.insert_with_priority(1, 9, 100);
    assert_eq!(tree.root_key(), Some(&2));
    assert_eq!(tree.remove(1), Some(9));
}
