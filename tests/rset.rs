use infra_bits::rand::RSet;

#[test]
fn set_insert_remove_contains() {
    let mut set: RSet<char> = RSet::new();
    assert!(set.is_empty());
    set.insert('m');
    set.insert('a');
    set.insert('m');
    assert!(set.contains('m'));
    assert!(set.contains('a'));
    assert!(!set.contains('z'));
    set.remove('m');
    assert!(!set.contains('m'));
    set.remove('z');
    set.remove('a');
    assert!(set.is_empty());
}
