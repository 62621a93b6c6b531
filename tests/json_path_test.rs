use toolchest::json_path::path_steps;

#[test]
fn dotted_path_steps() {
    let steps = path_steps("a.0.+7.b");
    let keys: Vec<&str> = steps.iter().map(|s| s.key.as_str()).collect();
    assert_eq!(keys, vec!["a", "0", "+7", "b"]);
    let idx: Vec<Option<u32>> = steps.iter().map(|s| s.index).collect();
    assert_eq!(idx, vec![None, Some(0), Some(7), None]);
    assert_eq!(path_steps("").len(), 1);
    assert_eq!(path_steps("a..b").len(), 3);
    assert_eq!(path_steps("99999999999")[0].index, None);
}
