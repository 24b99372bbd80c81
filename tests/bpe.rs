use bpe_tokenizer::bpe::{bpe, BpeRanks};

fn ranks(pairs: &[(&str, &str)]) -> BpeRanks {
    let mut r = BpeRanks::new();
    for (i, (a, b)) in pairs.iter().enumerate() {
        r.insert(&a.to_string(), &b.to_string(), i);
    }
    r
}

fn run(r: &BpeRanks, token: &str) -> Vec<String> {
    bpe(r, &token.to_string())
}

#[test]
fn lowest_rank_merges_first() {
    let r = ranks(&[("b", "c"), ("a", "b")]);
    assert_eq!(run(&r, "abc"), vec!["a", "bc"]);
    let r = ranks(&[("a", "b"), ("b", "c")]);
    assert_eq!(run(&r, "abc"), vec!["ab", "c"]);
}

#[test]
fn sweep_is_left_first_and_complete() {
    let r = ranks(&[("a", "a")]);
    assert_eq!(run(&r, "aaa"), vec!["aa", "a"]);
    assert_eq!(run(&r, "aaaa"), vec!["aa", "aa"]);
}

#[test]
fn frequent_pair_does_not_outvote_rank() {
    let r = ranks(&[("y", "q"), ("x", "y")]);
    assert_eq!(run(&r, "xyxyxyq"), vec!["xy", "xy", "x", "yq"]);
}

#[test]
fn merge_loop_shrinks_to_one_symbol() {
    let r = ranks(&[("h", "e"), ("l", "l"), ("he", "ll"), ("hell", "o")]);
    assert_eq!(run(&r, "hello"), vec!["hello"]);
}

#[test]
fn merges_stop_without_ranked_pairs() {
    let r = ranks(&[("x", "y")]);
    assert_eq!(run(&r, "abc"), vec!["a", "b", "c"]);
    assert!(run(&r, "").is_empty());
    assert_eq!(run(&r, "z"), vec!["z"]);
}

#[test]
fn later_duplicate_pair_takes_the_later_rank() {
    let r = ranks(&[("a", "b"), ("b", "c"), ("a", "b")]);
    assert_eq!(run(&r, "abc"), vec!["a", "bc"]);
}
