use infra_bits::order::TreeKey;
use std::cmp::Ordering;

#[test]
fn key_comparisons() {
    assert_eq!('a'.compare(&'b'), Ordering::Less);
    assert_eq!('b'.compare(&'b'), Ordering::Equal);
    assert_eq!('z'.compare(&'b'), Ordering::Greater);
    assert_eq!(3u64.compare(&u64::MAX), Ordering::Less);
    assert_eq!(0u64.compare(&0), Ordering::Equal);
}

#[test]
fn signed_key_comparisons() {
    assert_eq!((-3i32).compare(&2), Ordering::Less);
    assert_eq!(i64::MIN.compare(&i64::MIN), Ordering::Equal);
    assert_eq!(7usize.compare(&1), Ordering::Greater);
}
