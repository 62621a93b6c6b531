use toolchest::strings::{
    capitalize, dedent, indent, replace_all, strip_prefix, strip_suffix, truncate, truncate_with,
    wrap, is_palindrome, split_words, to_title_case, word_count, contains_ci, contains_str, count_occurrences, damerau_levenshtein,
    find_all_indices, join_paths, levenshtein_distance, normalize_path, normalize_whitespace,
    to_camel_case, to_pascal_case, uncapitalize, ends_with_ci, ends_with_str, escape_html, escape_regex,
    escape_shell, is_email, is_uuid, random_string, slugify, starts_with_ci, starts_with_str,
    to_kebab_case, to_snake_case, url_decode, url_encode,
};

#[test]
fn case_conversions() {
    assert_eq!(to_snake_case("HelloWorld"), "hello_world");
    assert_eq!(to_snake_case("hello world-now"), "hello_world_now");
    assert_eq!(to_snake_case("HTTPServer"), "httpserver");
    assert_eq!(to_snake_case("__a"), "a");
    assert_eq!(to_kebab_case("HelloWorld"), "hello-world");
}

#[test]
fn escaping() {
    assert_eq!(escape_html("<a href=\"x\">'&'</a>"), "&lt;a href=&quot;x&quot;&gt;&#39;&amp;&#39;&lt;/a&gt;");
    assert_eq!(escape_regex("a.b*c"), "a\\.b\\*c");
    assert_eq!(escape_shell("it's"), "'it'\\''s'");
    assert_eq!(slugify("  Hello, World!  "), "hello-world");
    assert_eq!(slugify("a__b--c"), "a-b-c");
    assert_eq!(slugify("!!!"), "");
}

#[test]
fn url_round_trip() {
    assert_eq!(url_encode("a b&c"), "a%20b%26c");
    assert_eq!(url_encode("é"), "%C3%A9");
    assert_eq!(url_decode("a%20b%26c"), "a b&c");
    assert_eq!(url_decode("100%"), "100%");
    assert_eq!(url_decode("%zz"), "%zz");
}

#[test]
fn shape_checks() {
    assert!(is_email("me@example.com"));
    assert!(!is_email("me@example"));
    assert!(!is_email("a@b@c.d"));
    assert!(!is_email("example.com"));
    assert!(is_uuid("123e4567-e89b-42d3-a456-426614174000"));
    assert!(!is_uuid("123e4567-e89b-12d3-a456-426614174000"));
    assert!(!is_uuid("not-a-uuid"));
    let r = random_string(12);
    assert_eq!(r.len(), 12);
    assert!(r.chars().all(|c| c.is_ascii_alphanumeric()));
}

#[test]
fn substring_checks() {
    assert!(contains_str("haystack", "st"));
    assert!(!contains_str("haystack", "needle"));
    assert!(contains_str("abc", ""));
    assert!(starts_with_str("haystack", "hay"));
    assert!(ends_with_str("haystack", "stack"));
    assert!(contains_ci("HayStack", "sTA"));
    assert!(starts_with_ci("HayStack", "hAY"));
    assert!(ends_with_ci("HayStack", "STACK"));
    assert!(!contains_ci("HayStack", "x"));
}

#[test]
fn edit_distances() {
    assert_eq!(levenshtein_distance("kitten", "sitting"), 3);
    assert_eq!(levenshtein_distance("", "abc"), 3);
    assert_eq!(levenshtein_distance("abc", ""), 3);
    assert_eq!(levenshtein_distance("same", "same"), 0);
    assert_eq!(damerau_levenshtein("ab", "ba"), 1);
    assert_eq!(levenshtein_distance("ab", "ba"), 2);
    assert_eq!(damerau_levenshtein("ca", "abc"), 3);
    assert_eq!(damerau_levenshtein("", "xy"), 2);
}

#[test]
fn capitals_and_humps() {
    assert_eq!(capitalize("hello"), "Hello");
    assert_eq!(capitalize("ßa"), "SSa");
    assert_eq!(capitalize(""), "");
    assert_eq!(uncapitalize("Hello"), "hello");
    assert_eq!(to_camel_case("hello_world"), "helloWorld");
    assert_eq!(to_camel_case("Hello World"), "helloWorld");
    assert_eq!(to_pascal_case("hello-world"), "HelloWorld");
    assert_eq!(normalize_whitespace("  a \t b\n\nc  "), "a b c");
    assert_eq!(normalize_whitespace("   "), "");
}

#[test]
fn occurrences_and_paths() {
    assert_eq!(count_occurrences("aaaa", "aa"), 2);
    assert_eq!(find_all_indices("abcabc", "bc"), vec![1, 4]);
    assert_eq!(find_all_indices("abc", ""), Vec::<usize>::new());
    assert_eq!(count_occurrences("héhé", "é"), 2);
    assert_eq!(normalize_path("/a/./b/../c//d/"), "a/c/d");
    assert_eq!(normalize_path("a\\b\\..\\c"), "a/c");
    assert_eq!(normalize_path("../.."), "");
    assert_eq!(join_paths("a/b/", "/c"), "a/b/c");
    assert_eq!(join_paths("", "x/./y"), "x/y");
    assert_eq!(join_paths("x", ""), "x");
}

#[test]
fn palindromes_and_word_counts() {
    assert!(is_palindrome("A man, a plan, a canal: Panama"));
    assert!(is_palindrome(""));
    assert!(!is_palindrome("abc"));
    assert_eq!(word_count("hello, world! 42"), 3);
    assert_eq!(word_count("  "), 0);
    assert_eq!(word_count("héllo wörld"), 2);
}

#[test]
fn title_case_words() {
    assert_eq!(to_title_case("hello   wORLD"), "Hello World");
    assert_eq!(to_title_case("  "), "");
    assert_eq!(to_title_case("élan vital"), "Élan Vital");
}

#[test]
fn words_and_lines() {
    assert_eq!(split_words("helloWorld foo_bar-baz"), vec!["hello", "World", "foo", "bar", "baz"]);
    assert_eq!(split_words("HTTPServer"), vec!["HTTPServer"]);
    assert_eq!(split_words("  "), Vec::<String>::new());
    assert_eq!(indent("a\n\nb", "> "), "> a\n\n> b");
    assert_eq!(indent("a\r\nb\n", "  "), "  a\n  b");
    assert_eq!(dedent("    a\n  b\nc", 2), "  a\nb\nc");
    assert_eq!(dedent("", 2), "");
}

#[test]
fn truncation_by_bytes() {
    assert_eq!(truncate("hello", 10), "hello");
    assert_eq!(truncate("hello world", 8), "hello...");
    assert_eq!(truncate("hello", 2), "he");
    assert_eq!(truncate("héllo", 4), "h...");
    assert_eq!(truncate_with("hello world", 7, "~"), "hello ~");
    assert_eq!(truncate_with("hello", 3, "....."), ".....");
    assert_eq!(truncate_with("hi", 3, "..."), "hi");
}

#[test]
fn wrapping_words() {
    assert_eq!(wrap("the quick brown fox", 10), "the quick\nbrown fox");
    assert_eq!(wrap("a verylongword b", 4), "a\nverylongword\nb");
    assert_eq!(wrap("  keep   this ", 0), "  keep   this ");
    assert_eq!(wrap("", 5), "");
}

#[test]
fn replacing_and_stripping() {
    assert_eq!(replace_all("a-b-c", "-", |m| format!("[{m}]")), "a[-]b[-]c");
    assert_eq!(replace_all("aaa", "aa", |_| "x".to_string()), "xa");
    assert_eq!(replace_all("abc", "", |_| "x".to_string()), "abc");
    assert_eq!(strip_prefix("prefix-body", "prefix-"), "body");
    assert_eq!(strip_prefix("body", "x"), "body");
    assert_eq!(strip_suffix("file.txt", ".txt"), "file");
    assert_eq!(strip_suffix("file", ".txt"), "file");
}
