use std::collections::HashMap;
use toolchest::deep::{clone, deep_clone, deep_equal_slice, merge, merge_all, DeepClone};

#[test]
fn test_deep_clone_for_primitives() {
    let x = 5u32;
    let y = deep_clone(&x);
    assert_eq!(x, y);
}

#[test]
fn test_deep_equal_slice() {
    let a = [1, 2, 3];
    let b = [1, 2, 3];
    assert!(toolchest::deep::deep_equal_slice(&a, &b));
}

#[test]
fn slices_and_scalars() {
    assert!(!deep_equal_slice(&[1, 2], &[1, 2, 3]));
    assert!(!deep_equal_slice(&[1, 2], &[2, 1]));
    assert_eq!(merge(&1i32, &2i32), 2);
    assert_eq!(merge_all::<i32>(&[&1, &5, &3]), Some(3));
    assert_eq!(merge_all::<i32>(&[]), None);
    assert_eq!(7u8.deep_clone(), 7);
}

#[test]
fn clone_through_trait() {
    assert_eq!(clone(&9i64), 9);
}

#[test]
fn test_deep_merge_hashmaps() {
    let mut a: HashMap<u64, i32> = HashMap::new();
    a.insert(1, 1);
    let mut b: HashMap<u64, i32> = HashMap::new();
    b.insert(1, 2);
    b.insert(2, 3);

    let merged = merge(&a, &b);
    assert_eq!(merged.get(&1), Some(&2));
    assert_eq!(merged.get(&2), Some(&3));
}
