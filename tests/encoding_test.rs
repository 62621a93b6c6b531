use toolchest::encoding::{base32_decode, base32_encode, caesar_cipher, hex_decode, hex_encode, rot13};

#[test]
fn test_hex_rot13_caesar() {
    let bytes = b"abc";
    let h = hex_encode(bytes);
    assert_eq!(h, "616263");
    assert_eq!(hex_decode(&h).unwrap(), bytes);
    assert_eq!(rot13("uryyb"), "hello");
    assert_eq!(caesar_cipher("abc", 3), "def");
}

#[test]
fn hex_decode_rejects_bad_input() {
    assert_eq!(hex_decode("abc"), None);
    assert_eq!(hex_decode("zz"), None);
    assert_eq!(hex_decode("FF00"), Some(vec![255, 0]));
}

#[test]
fn caesar_negative_shift_wraps() {
    assert_eq!(caesar_cipher("abc", -1), "zab");
    assert_eq!(caesar_cipher("Hello, World", 13), rot13("Hello, World"));
}

#[test]
fn base32_round_trip() {
    assert_eq!(base32_encode(b""), "");
    assert_eq!(base32_encode(b"f"), "MY");
    assert_eq!(base32_encode(b"fo"), "MZXQ");
    assert_eq!(base32_encode(b"foo"), "MZXW6");
    assert_eq!(base32_encode(b"foob"), "MZXW6YQ");
    assert_eq!(base32_encode(b"fooba"), "MZXW6YTB");
    assert_eq!(base32_encode(b"foobar"), "MZXW6YTBOI");
    assert_eq!(base32_decode("MZXW6YTBOI"), Some(b"foobar".to_vec()));
    assert_eq!(base32_decode("mzxw6 ytboi=="), Some(b"foobar".to_vec()));
    assert_eq!(base32_decode("MY"), Some(b"f".to_vec()));
    assert_eq!(base32_decode(""), Some(vec![]));
}
