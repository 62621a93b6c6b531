use toolchest::strings::{
    damerau_levenshtein, ellipsis_middle, ends_with_ci, mask, ensure_prefix, ensure_suffix, escape_html, escape_regex,
    is_numeric, is_url, join_paths, levenshtein_distance, longest_common_prefix,
    longest_common_suffix, normalize_path, pad_end, pad_start, pluralize, repeat, reverse,
    singularize, slugify, starts_with_ci, contains_ci, strip_prefix, strip_suffix, template,
    to_snake_case, trim, truncate, url_decode, url_encode, word_count, words,
};

#[test]
fn test_snake_case_variants() {
    assert_eq!(to_snake_case("HelloWorld"), "hello_world");
    assert_eq!(to_snake_case("helloWorld"), "hello_world");
    assert_eq!(to_snake_case("hello-world"), "hello_world");
    assert_eq!(to_snake_case("hello world"), "hello_world");
    assert_eq!(to_snake_case("HELLO_WORLD"), "hello_world");
    assert_eq!(to_snake_case(""), "");
    assert_eq!(to_snake_case("a"), "a");
}

#[test]
fn test_escape_and_words() {
    assert_eq!(escape_html("<a>&\"'"), "&lt;a&gt;&amp;&quot;&#39;");
    assert_eq!(escape_regex("a+b?c"), r"a\+b\?c");
    let w = words("Hello, world! 42");
    assert_eq!(w, vec!["Hello", "world", "42"]);
    assert_eq!(word_count("one two three"), 3);
}

#[test]
fn test_extra_strings() {
    assert_eq!(slugify("Hello, World!"), "hello-world");
    assert_eq!(pluralize("box"), "boxes");
    assert_eq!(singularize("boxes"), "box");
    assert_eq!(levenshtein_distance("kitten", "sitting"), 3);
    assert_eq!(damerau_levenshtein("ca", "ac"), 1);
    let tpl = template("Hello {{ name }}!", |k| if k == "name" { Some("Rust".into()) } else { None });
    assert_eq!(tpl, "Hello Rust!");
}

#[test]
fn test_strings_helpers_more() {
    assert!(contains_ci("Hello", "he"));
    assert!(starts_with_ci("Hello", "he"));
    assert!(ends_with_ci("Hello", "LO"));
    assert_eq!(strip_prefix("/path", "/"), "path");
    assert_eq!(strip_suffix("file.txt", ".txt"), "file");
    assert_eq!(ensure_prefix("path", "/"), "/path");
    assert_eq!(ensure_suffix("file", ".txt"), "file.txt");
}

#[test]
fn test_url_and_path() {
    assert_eq!(url_encode("a b"), "a%20b");
    assert_eq!(url_decode("a%20b"), "a b");
    assert_eq!(normalize_path("a/./b/../c"), "a/c");
    assert_eq!(join_paths("a/b", "c/d"), "a/b/c/d");
}

#[test]
fn test_truncate() {
    assert_eq!(truncate("Hello World", 5), "He...");
    assert_eq!(truncate("Hi", 5), "Hi");
    assert_eq!(truncate("Hello", 5), "Hello");
    assert_eq!(truncate("Testing", 7), "Testing");
}

#[test]
fn template_edge_cases() {
    let none = |_: &str| -> Option<String> { None };
    assert_eq!(template("{{ x }} and {{y}}", none), "{{ x }} and {{y}}");
    assert_eq!(template("open {{ never", none), "open {{ never");
    let up = |k: &str| Some(k.to_uppercase());
    assert_eq!(template("{{a}}-{{ b }}", up), "A-B");
    assert_eq!(template("{{}}", up), "");
    assert_eq!(template("{{}", up), "{{}");
}

#[test]
fn string_helpers() {
    assert_eq!(reverse("abc"), "cba");
    assert!(is_numeric("123"));
    assert!(!is_numeric(""));
    assert!(!is_numeric("12a"));
    assert!(is_url("https://x.y"));
    assert!(!is_url("ftp://x"));
    assert_eq!(ensure_prefix("/path", "/"), "/path");
    assert_eq!(pluralize("city"), "cities");
    assert_eq!(pluralize("day"), "days");
    assert_eq!(pluralize("cat"), "cats");
    assert_eq!(singularize("cities"), "city");
    assert_eq!(singularize("cats"), "cat");
    assert_eq!(longest_common_prefix("interview", "internet"), "inter");
    assert_eq!(longest_common_suffix("testing", "running"), "ing");
    assert_eq!(pad_start("7", 3, '0'), "007");
    assert_eq!(pad_end("ab", 4, '.'), "ab..");
    assert_eq!(pad_start("abcd", 2, '0'), "abcd");
    assert_eq!(repeat("ab", 3), "ababab");
    assert_eq!(trim("  hi there \n"), "hi there");
    assert_eq!(trim("   "), "");
}

#[test]
fn masking_and_ellipsis() {
    assert_eq!(mask("4111111111111111", 4, 4, '*'), "4111********1111");
    assert_eq!(mask("abc", 2, 2, '*'), "abc");
    assert_eq!(ellipsis_middle("abcdefghij", 7), "ab...ij");
    assert_eq!(ellipsis_middle("abc", 7), "abc");
    assert_eq!(ellipsis_middle("abcdefgh", 2), "abcdefgh");
}
