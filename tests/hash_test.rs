use toolchest::hash::{consistent_hash, djb2, fnv1a, hash_code, murmur3_32};

#[test]
fn test_hashes_basic() {
    assert_eq!(djb2(b"a"), 177670);
    let f_a = fnv1a(b"a");
    let f_a2 = fnv1a(b"a");
    let f_b = fnv1a(b"b");
    assert_ne!(f_a, 0);
    assert_eq!(f_a, f_a2);
    assert_ne!(f_a, f_b);
    let m = murmur3_32(b"hello", 0);
    assert_ne!(m, 0);
    assert_eq!(consistent_hash("key", 10) < 10, true);
}

#[test]
fn hashes_match_published_values() {
    assert_eq!(fnv1a(b""), 0xcbf29ce484222325);
    assert_eq!(fnv1a(b"a"), 0xaf63dc4c8601ec8c);
    assert_eq!(murmur3_32(b"", 0), 0);
    assert_eq!(murmur3_32(b"hello", 0), 0x248bfa47);
    assert_eq!(hash_code("a"), djb2(b"a"));
    assert_eq!(consistent_hash("key", 0), 0);
}
