use chunker::interleave::interleave_vectors;
use chunker::json::extract_json;

#[test]
fn interleave_takes_turns() {
    assert_eq!(interleave_vectors(&[1, 2, 3], &[4, 5, 6]), vec![1, 4, 2, 5, 3, 6]);
    assert_eq!(interleave_vectors(&["a", "b"], &["x", "y"]), vec!["a", "x", "b", "y"]);
}

#[test]
fn interleave_goes_on_with_the_longer_list() {
    assert_eq!(interleave_vectors(&[1, 2, 3, 4], &[9]), vec![1, 9, 2, 3, 4]);
    assert_eq!(interleave_vectors(&[9], &[1, 2, 3, 4]), vec![9, 1, 2, 3, 4]);
    assert_eq!(interleave_vectors(&[1, 2, 3], &[]), vec![1, 2, 3]);
    assert_eq!(interleave_vectors(&[], &[1, 2, 3]), vec![1, 2, 3]);
    assert_eq!(interleave_vectors::<i32>(&[], &[]), Vec::<i32>::new());
}

#[test]
fn interleave_keeps_no_item_twice() {
    assert_eq!(interleave_vectors(&[1, 2, 3], &[3, 2, 1]), vec![1, 3, 2]);
    assert_eq!(interleave_vectors(&[], &[1, 1, 2]), vec![1, 2]);
    assert_eq!(interleave_vectors(&[7, 7, 7], &[]), vec![7]);
}

#[test]
fn interleave_passes_over_the_partner_of_a_repeated_item() {
    // 2 was kept before, so 3 beside it is passed over
    assert_eq!(interleave_vectors(&[1, 2], &[2, 3]), vec![1, 2]);
    assert_eq!(interleave_vectors(&[1, 1, 1], &[2, 3, 4]), vec![1, 2]);
    // a repeated item of the second list costs nothing else
    assert_eq!(interleave_vectors(&[1, 2, 3], &[1, 1, 4]), vec![1, 2, 3, 4]);
}

#[test]
fn interleave_works_on_strings() {
    let a = vec!["x".to_string(), "y".to_string()];
    let b = vec!["y".to_string(), "z".to_string()];
    assert_eq!(interleave_vectors(&a, &b), vec!["x".to_string(), "y".to_string()]);
}

#[test]
fn the_object_runs_from_the_first_open_to_the_last_close() {
    assert_eq!(extract_json("prefix {\"a\": 1} suffix"), Some("{\"a\": 1}"));
    assert_eq!(extract_json("{}"), Some("{}"));
    assert_eq!(extract_json("x{ {y} }z}w"), Some("{ {y} }z}"));
    assert_eq!(extract_json("}{}{"), Some("{}"));
}

#[test]
fn the_object_is_found_behind_wide_chars() {
    assert_eq!(extract_json("\u{e9}\u{1F600}{\"k\":\"\u{f6}\"}\u{e9}"), Some("{\"k\":\"\u{f6}\"}"));
}

#[test]
fn without_both_braces_there_is_no_object() {
    assert_eq!(extract_json(""), None);
    assert_eq!(extract_json("no braces"), None);
    assert_eq!(extract_json("{ only open"), None);
    assert_eq!(extract_json("only close }"), None);
}

#[test]
fn a_close_right_before_the_open_gives_the_empty_text() {
    assert_eq!(extract_json("}{"), Some(""));
    assert_eq!(extract_json("a}{b"), Some(""));
}

#[test]
fn a_close_further_before_the_open_gives_nothing() {
    assert_eq!(extract_json("} {"), None);
    assert_eq!(extract_json("}}x{{"), None);
}
