use bpe_tokenizer::merges::parse_merges;
use bpe_tokenizer::LoadError;

#[test]
fn merges_are_read_in_file_order() {
    let v = parse_merges("#version: 0.2\nĠ t\nĠ a\nh e\n").unwrap();
    let pairs: Vec<(&str, &str)> = v.iter().map(|(a, b)| (a.as_str(), b.as_str())).collect();
    assert_eq!(pairs, vec![("Ġ", "t"), ("Ġ", "a"), ("h", "e")]);
}

#[test]
fn merge_fields_split_on_any_whitespace() {
    let v = parse_merges("header\n  a \t b  extra\r\n").unwrap();
    assert_eq!(v, vec![("a".to_string(), "b".to_string())]);
}

#[test]
fn empty_merge_file_has_no_merges() {
    assert!(parse_merges("").unwrap().is_empty());
    assert!(parse_merges("#version only").unwrap().is_empty());
}

#[test]
fn single_field_line_is_reported_by_number() {
    assert_eq!(parse_merges("#v\na b\n\nc\n"), Err(LoadError::MalformedMerge(4)));
}
