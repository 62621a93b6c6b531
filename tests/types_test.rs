use std::collections::HashMap;
use toolchest::types::{
    as_ref_or, coerce, default_to, is_empty, is_ok_and, is_some_and, map_ok_or, map_some_or,
    parse_or, parse_or_default, replace_with, take_if, to_string_safe, NonEmptyVec,
};

#[test]
fn test_is_empty() {
    assert!(is_empty::<String>(&"".to_string()));
    assert!(is_empty::<Vec<i32>>(&vec![]));
    let slice: &[i32] = &[];
    assert!(is_empty::<&[i32]>(&slice));
    let map: HashMap<i32, i32> = HashMap::new();
    assert!(is_empty::<HashMap<i32, i32>>(&map));
    assert!(!is_empty::<String>(&"x".to_string()));
}

#[test]
fn test_types_extras() {
    assert_eq!(map_some_or(Some(2), 0, |x| x * 3), 6);
    assert_eq!(map_some_or::<i32, i32, _>(None, 5, |x| x * 3), 5);
    assert_eq!(map_ok_or::<_, (), _, _>(Ok(3), 0, |x| x + 1), 4);
    assert_eq!(map_ok_or::<i32, (), i32, _>(Err(()), 9, |x| x + 1), 9);

    let nev = NonEmptyVec::from_vec(vec![1, 2, 3]).unwrap();
    assert_eq!(nev.len(), 3);
    assert_eq!(nev.iter(), vec![1, 2, 3]);
}

#[test]
fn test_parse_and_default() {
    assert_eq!(parse_or_default::<i32>("42"), 42);
    assert_eq!(parse_or_default::<i32>("x"), 0);
    assert_eq!(parse_or::<i32>("x", 7), 7);
}

#[test]
fn option_helpers() {
    assert_eq!(default_to(None, 3), 3);
    assert_eq!(default_to(Some(1), 3), 1);
    assert_eq!(coerce(15, 0, 10), 10);
    assert!(is_some_and(Some(4), |x| *x > 3));
    assert!(!is_some_and(None::<i32>, |x| *x > 3));
    assert!(is_ok_and(Ok::<i32, ()>(4), |x| *x == 4));
    let d = 7;
    assert_eq!(*as_ref_or(None, &d), 7);
    let mut o = Some(5);
    assert_eq!(take_if(&mut o, |x| *x > 9), None);
    assert_eq!(o, Some(5));
    assert_eq!(take_if(&mut o, |x| *x == 5), Some(5));
    assert_eq!(o, None);
    let mut slot = 1;
    assert_eq!(replace_with(&mut slot, 2), 1);
    assert_eq!(slot, 2);
    assert!(NonEmptyVec::<i32>::from_vec(vec![]).is_none());
    assert_eq!(NonEmptyVec::new(1, vec![2]).iter(), vec![1, 2]);
}

#[test]
fn display_text() {
    assert_eq!(to_string_safe(42), "42");
    assert_eq!(to_string_safe("x"), "x");
}
