use toolchest::random::{random_range_from, random_bytes, random_choice, random_choices, random_range, uuid_v4, Lcg};

#[test]
fn random_values_stay_in_range() {
    for _ in 0..50 {
        let r = random_range(-3, 4);
        assert!((-3..4).contains(&r));
    }
    assert_eq!(random_range(5, 6), 5);
    let v = [10, 20, 30];
    assert!(v.contains(random_choice(&v).unwrap()));
    let empty: [i32; 0] = [];
    assert!(random_choice(&empty).is_none());
    let picks = random_choices(&v, 5);
    assert_eq!(picks.len(), 5);
    assert!(picks.iter().all(|x| v.contains(x)));
    assert!(random_choices(&empty, 5).is_empty());
    assert_eq!(random_bytes(7).len(), 7);
}

#[test]
fn uuid_has_version_four_layout() {
    let u = uuid_v4();
    let c: Vec<char> = u.chars().collect();
    assert_eq!(c.len(), 36);
    for i in [8, 13, 18, 23] {
        assert_eq!(c[i], '-');
    }
    assert_eq!(c[14], '4');
    assert!(matches!(c[19], '8' | '9' | 'a' | 'b'));
}

#[test]
fn generator_is_the_classic_lcg() {
    let mut g = Lcg::new(0);
    assert_eq!(g.next_u64(), 0);
    let mut h = Lcg::new(1u128 << 40);
    let expected = (((1u128 << 40).wrapping_mul(1664525).wrapping_add(1013904223)) >> 32) as u64;
    assert_eq!(h.next_u64(), expected);
}

#[test]
fn seeded_range_is_reproducible() {
    let a = random_range_from(42, -5, 5);
    assert_eq!(a, random_range_from(42, -5, 5));
    assert!((-5..5).contains(&a));
    let x = (((42u128).wrapping_mul(1664525).wrapping_add(1013904223)) >> 32) as u64 as i64;
    assert_eq!(a, -5 + x.rem_euclid(10));
}

#[test]
fn test_random_basics() {
    let x = random_range(0, 100);
    assert!(0 <= x && x < 100);
    let c = random_choice(&[1, 2, 3]).copied();
    assert!(c.is_some());
    let u = uuid_v4();
    assert_eq!(u.len(), 36);
}
