use bpe_tokenizer::pat;

fn chunks(s: &str) -> Vec<String> {
    pat(s)
}

#[test]
fn words_take_their_leading_space() {
    assert_eq!(chunks("hello world"), vec!["hello", " world"]);
    assert_eq!(chunks(" hello"), vec![" hello"]);
}

#[test]
fn empty_text_has_no_chunks() {
    assert!(chunks("").is_empty());
}

#[test]
fn digits_form_one_run() {
    assert_eq!(chunks("1535"), vec!["1535"]);
    assert_eq!(chunks("abc 1535"), vec!["abc", " 1535"]);
}

#[test]
fn contractions_are_chunks() {
    assert_eq!(chunks("y'all's"), vec!["y", "'", "all", "'s"]);
    assert_eq!(chunks("we're they've I'm you'll he'd don't"), vec![
        "we", "'re", " they", "'ve", " I", "'m", " you", "'ll", " he", "'d", " don", "'t",
    ]);
}

#[test]
fn punctuation_runs_and_newlines() {
    assert_eq!(chunks("work?!%? 1535"), vec!["work", "?!%?", " 1535"]);
    assert_eq!(chunks("alright?\nDo"), vec!["alright", "?", "\n", "Do"]);
}

#[test]
fn whitespace_run_is_one_chunk() {
    assert_eq!(chunks("a  \n  b"), vec!["a", "  \n  ", "b"]);
    assert_eq!(chunks("a "), vec!["a", " "]);
}

#[test]
fn unicode_letters_are_letters() {
    assert_eq!(chunks("héllo wörld"), vec!["héllo", " wörld"]);
}

#[test]
fn chunks_reassemble_the_text() {
    let inputs = [
        "This is a test! y'all's alright?\nDo newlines work?!%? 1535",
        "a  \n  b",
        "  leading and trailing  ",
        "tabs\tand\r\nreturns",
        "mixed 12ab!! 'x' ''",
        "héllo",
    ];
    for t in inputs {
        let cs = chunks(t);
        assert!(cs.iter().all(|c| !c.is_empty()));
        assert_eq!(cs.concat(), t);
    }
}
