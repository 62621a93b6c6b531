use toolchest::collections::{
    binary_search_by, count_by, group_by, key_by, partition, sample, shuffle_in_place, transpose,
    zip_object, cartesian_product, chunk, compact, difference, drop, drop_right, find_duplicates, flatten,
    index_of, intersection, intersperse, is_sorted, last_index_of, move_item, rotate_left,
    rotate_right, sliding_window, swap, take, take_right, take_while, drop_while, union, uniq,
    unzip,
};

#[test]
fn test_chunk_and_uniq() {
    assert_eq!(chunk(&[1, 2, 3, 4, 5], 2), vec![vec![1, 2], vec![3, 4], vec![5]]);
    assert_eq!(uniq(&[1, 1, 2, 3, 3]), vec![1, 2, 3]);
}

#[test]
fn chunk_of_size_zero_is_empty() {
    assert_eq!(chunk(&[1, 2, 3], 0), Vec::<Vec<i32>>::new());
    assert_eq!(chunk::<i32>(&[], 3), Vec::<Vec<i32>>::new());
}

#[test]
fn set_operations_keep_order() {
    assert_eq!(difference(&[1, 2, 3], &[2]), vec![1, 3]);
    assert_eq!(intersection(&[1, 2, 3], &[2, 4]), vec![2]);
    assert_eq!(union(&[1, 2], &[2, 3]), vec![1, 2, 3]);
    assert_eq!(find_duplicates(&[3, 1, 3, 2, 1, 3]), vec![3, 1]);
}

#[test]
fn index_lookups() {
    assert_eq!(index_of(&[1, 2, 3], &2), Some(1));
    assert_eq!(last_index_of(&[1, 2, 3, 2], &2), Some(3));
    assert_eq!(index_of(&[1, 2, 3], &9), None);
}

#[test]
fn slicing_helpers() {
    assert_eq!(take(&[1, 2, 3], 2), vec![1, 2]);
    assert_eq!(take(&[1, 2, 3], 9), vec![1, 2, 3]);
    assert_eq!(drop(&[1, 2, 3], 1), vec![2, 3]);
    assert_eq!(take_right(&[1, 2, 3], 2), vec![2, 3]);
    assert_eq!(drop_right(&[1, 2, 3], 2), vec![1]);
    assert_eq!(take_while(&[1, 2, 5, 1], |x| *x < 3), vec![1, 2]);
    assert_eq!(drop_while(&[1, 2, 5, 1], |x| *x < 3), vec![5, 1]);
}

#[test]
fn reshaping_helpers() {
    assert_eq!(compact(&[Some(1), None, Some(3)]), vec![1, 3]);
    assert_eq!(flatten(&[vec![1, 2], vec![], vec![3]]), vec![1, 2, 3]);
    assert_eq!(intersperse(&[1, 2, 3], 0), vec![1, 0, 2, 0, 3]);
    assert_eq!(sliding_window(&[1, 2, 3, 4, 5], 2, 2), vec![vec![1, 2], vec![3, 4]]);
    assert_eq!(cartesian_product(&[1, 2], &['a', 'b']), vec![(1, 'a'), (1, 'b'), (2, 'a'), (2, 'b')]);
    let (ks, vs) = unzip(&[("x", 9), ("y", 8)]);
    assert_eq!(ks, vec!["x", "y"]);
    assert_eq!(vs, vec![9, 8]);
    assert!(is_sorted(&[1, 2, 2, 5]));
    assert!(!is_sorted(&[2, 1]));
}

#[test]
fn in_place_moves() {
    let mut v = vec![1, 2, 3, 4];
    rotate_left(&mut v, 1);
    assert_eq!(v, vec![2, 3, 4, 1]);
    rotate_right(&mut v, 1);
    assert_eq!(v, vec![1, 2, 3, 4]);
    assert!(swap(&mut v, 0, 3));
    assert_eq!(v, vec![4, 2, 3, 1]);
    assert!(!swap(&mut v, 0, 4));
    assert!(move_item(&mut v, 0, 3));
    assert_eq!(v, vec![2, 3, 1, 4]);
}

#[test]
fn test_set_ops_and_group() {
    assert_eq!(difference(&[1, 2, 3], &[2]), vec![1, 3]);
    assert_eq!(intersection(&[1, 2, 3], &[2, 4]), vec![2]);
    assert_eq!(union(&[1, 2], &[2, 3]), vec![1, 2, 3]);
    let groups = group_by(&["a", "ab", "c"], |s| s.len());
    assert_eq!(groups.get(&1).unwrap().len(), 2);
}

#[test]
fn test_shuffle_and_sample() {
    let mut v = vec![1, 2, 3, 4];
    shuffle_in_place(&mut v);
    assert_eq!(v.len(), 4);
    assert!(sample(&v).is_some());
}

#[test]
fn test_zip_unzip_index() {
    let keys = vec!["a", "b"];
    let vals = vec![1, 2];
    let m = zip_object(&keys, &vals);
    assert_eq!(m.get("a"), Some(&1));
    let pairs = vec![("x", 9), ("y", 8)];
    let (ks, vs) = unzip(&pairs);
    assert_eq!(ks, vec!["x", "y"]);
    assert_eq!(vs, vec![9, 8]);
    assert_eq!(index_of(&[1, 2, 3], &2), Some(1));
    assert_eq!(last_index_of(&[1, 2, 3, 2], &2), Some(3));
}

#[test]
fn shuffle_keeps_elements() {
    let mut v = vec![5, 1, 4, 1, 3];
    shuffle_in_place(&mut v);
    v.sort();
    assert_eq!(v, vec![1, 1, 3, 4, 5]);
    let empty: [i32; 0] = [];
    assert!(sample(&empty).is_none());
}

#[test]
fn grouping_helpers() {
    let words = ["a", "ab", "c", "abc", "de"];
    let groups = group_by(&words, |s| s.len());
    assert_eq!(groups.get(&1).unwrap(), &vec!["a", "c"]);
    assert_eq!(groups.get(&2).unwrap(), &vec!["ab", "de"]);
    let counts = count_by(&words, |s| s.len());
    assert_eq!(counts.get(&1), Some(&2));
    assert_eq!(counts.get(&3), Some(&1));
    let keyed = key_by(&words, |s| s.len());
    assert_eq!(keyed.get(&2), Some(&"de"));
    let (even, odd) = partition(&[1, 2, 3, 4, 5], |x| x % 2 == 0);
    assert_eq!(even, vec![2, 4]);
    assert_eq!(odd, vec![1, 3, 5]);
    let m = zip_object(&[1, 2, 3], &['x', 'y']);
    assert_eq!(m.len(), 2);
    assert_eq!(m.get(&2), Some(&'y'));
}

#[test]
fn matrix_and_search() {
    let m = vec![vec![1, 2, 3], vec![4, 5, 6]];
    assert_eq!(transpose(&m), vec![vec![1, 4], vec![2, 5], vec![3, 6]]);
    assert_eq!(transpose::<i32>(&[]), Vec::<Vec<i32>>::new());
    let v = [1, 3, 5, 7, 9];
    assert_eq!(binary_search_by(&v, |x| x.cmp(&7)), Some(3));
    assert_eq!(binary_search_by(&v, |x| x.cmp(&4)), None);
}
