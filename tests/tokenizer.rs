use bpe_tokenizer::codec::{create_bpe_char_encoder, encode_byte};
use rayon::iter::{IntoParallelRefIterator, ParallelIterator};
use bpe_tokenizer::{hello, index, DecodeError, EncodeError, LoadError, Tokenizer};

const SMALL_ENCODER: &str = r#"{"h": 0, "e": 1, "l": 2, "o": 3, "he": 4, "ll": 5, "hell": 6, "hello": 7, "Ġ": 8, "w": 9, "r": 10, "d": 11, "Ġw": 12, "x": 13, "Ã": 14, "€": 15, "Ġwor": 16, "or": 17, "ld": 18}"#;

const SMALL_MERGES: &str = "#version: 0.2\nh e\nl l\nhe ll\nhell o\nĠ w\no r\nĠw or\nl d\n";

fn small() -> Tokenizer {
    Tokenizer::new(SMALL_ENCODER, SMALL_MERGES).unwrap()
}

/// A vocabulary of the 256 byte symbols, ids 0 to 255 in byte order, with
/// the merged symbols after them.
fn byte_level(extra: &[&str], merges: &str) -> Tokenizer {
    let enc = create_bpe_char_encoder();
    let mut entries: Vec<String> = Vec::new();
    for b in 0..=255u8 {
        let s = encode_byte(&enc, b).to_string();
        entries.push(format!("{}: {}", serde_json::to_string(&s).unwrap(), b));
    }
    for (i, s) in extra.iter().enumerate() {
        entries.push(format!("{}: {}", serde_json::to_string(s).unwrap(), 256 + i));
    }
    let json = format!("{{{}}}", entries.join(", "));
    Tokenizer::new(&json, merges).unwrap()
}

#[test]
fn merges_apply_by_rank() {
    let t = small();
    assert_eq!(t.tokenize("hello").unwrap(), vec![7]);
    assert_eq!(t.tokenize("hell").unwrap(), vec![6]);
    assert_eq!(t.tokenize("ehllo").unwrap(), vec![1, 0, 5, 3]);
}

#[test]
fn space_symbol_joins_the_next_word() {
    let t = small();
    assert_eq!(t.tokenize("hello world").unwrap(), vec![7, 16, 18]);
}

#[test]
fn empty_text_encodes_to_nothing() {
    let t = small();
    assert_eq!(t.tokenize("").unwrap(), Vec::<u16>::new());
}

#[test]
fn missing_symbol_is_a_vocab_miss() {
    let t = small();
    assert_eq!(t.tokenize("hey"), Err(EncodeError::VocabMiss("y".to_string())));
}

#[test]
fn decode_joins_the_symbols() {
    let t = small();
    assert_eq!(t.detokenize(vec![7, 16, 18]).unwrap(), "hello world");
    assert_eq!(t.detokenize(vec![]).unwrap(), "");
}

#[test]
fn decode_reports_unknown_ids_and_symbols() {
    let t = small();
    assert_eq!(t.detokenize(vec![7, 999]), Err(DecodeError::UnknownToken(999)));
    assert_eq!(t.detokenize(vec![15]), Err(DecodeError::UnknownSymbol('€')));
    assert_eq!(t.detokenize(vec![14]), Err(DecodeError::InvalidUtf8));
}

#[test]
fn load_rejects_bad_encoder() {
    assert!(matches!(Tokenizer::new("[1, 2]", SMALL_MERGES), Err(LoadError::InvalidEncoder)));
    assert!(matches!(Tokenizer::new("{\"a\": 70000}", SMALL_MERGES), Err(LoadError::InvalidEncoder)));
    assert!(matches!(Tokenizer::new("{\"a\": 1", SMALL_MERGES), Err(LoadError::InvalidEncoder)));
}

#[test]
fn load_rejects_shared_ids() {
    assert!(matches!(
        Tokenizer::new("{\"a\": 3, \"b\": 3}", SMALL_MERGES),
        Err(LoadError::DuplicateTokenId(3))
    ));
}

#[test]
fn load_rejects_single_field_merge_lines() {
    assert!(matches!(
        Tokenizer::new(SMALL_ENCODER, "#version\nh e\nl\nl l\n"),
        Err(LoadError::MalformedMerge(3))
    ));
}

#[test]
fn blank_merge_lines_are_skipped() {
    let t = Tokenizer::new(SMALL_ENCODER, "#version\n\nh e\n   \nl l\n\n").unwrap();
    assert_eq!(t.tokenize("hell").unwrap(), vec![4, 5]);
}

#[test]
fn header_line_is_not_a_merge() {
    let t = Tokenizer::new(SMALL_ENCODER, "h e\nl l\n").unwrap();
    assert_eq!(t.tokenize("he").unwrap(), vec![0, 1]);
    assert_eq!(t.tokenize("ll").unwrap(), vec![5]);
}

#[test]
fn byte_level_round_trip() {
    let t = byte_level(&[], "#version\n");
    let inputs = [
        "This is a test! y'all's alright?\nDo newlines work?!%? 1535",
        "héllo",
        "a  \n  b",
        "\u{0} control \u{7f} and nbsp\u{a0}",
        "日本語 🎉",
        "",
    ];
    for x in inputs {
        let ids = t.tokenize(x).unwrap();
        assert_eq!(ids.len(), x.len());
        assert_eq!(t.detokenize(ids).unwrap(), x);
    }
}

#[test]
fn non_ascii_bytes_become_safe_symbols() {
    let t = byte_level(&[], "#version\n");
    assert_eq!(t.tokenize("é").unwrap(), vec![0xC3, 0xA9]);
}

#[test]
fn merged_round_trip_with_contractions() {
    let t = byte_level(&["'s", "Ġa"], "#version\n' s\nĠ a\n");
    let x = "This is a test! y'all's alright?\nDo newlines work?!%? 1535";
    let ids = t.tokenize(x).unwrap();
    assert!(ids.contains(&256));
    assert!(ids.contains(&257));
    let newline = ids.iter().position(|&i| i == b'\n' as u16).unwrap();
    assert_eq!(ids[newline - 1], b'?' as u16);
    assert_eq!(ids[newline + 1], b'D' as u16);
    assert_eq!(t.detokenize(ids).unwrap(), x);
}

#[test]
fn repeated_encoding_is_identical() {
    let t = small();
    let a = t.tokenize("hello world").unwrap();
    let b = t.tokenize("hello world").unwrap();
    assert_eq!(a, b);
}

#[test]
fn parallel_encoding_matches_sequential() {
    let t = byte_level(&["Ġa"], "#version\nĠ a\n");
    let inputs: Vec<String> = (0..32).map(|i| format!("text number {} and a word", i)).collect();
    let seq: Vec<Vec<u16>> = inputs.iter().map(|x| t.tokenize(x).unwrap()).collect();
    let par: Vec<Vec<u16>> = inputs.par_iter().map(|x| t.tokenize(x).unwrap()).collect();
    assert_eq!(seq, par);
}

#[test]
fn token_list_gives_each_token_text() {
    let t = small();
    let list = t.token_list("hello world").unwrap();
    let tokens: Vec<u16> = list.iter().map(|o| o.token).collect();
    let symbols: Vec<&str> = list.iter().map(|o| o.symbol.as_str()).collect();
    assert_eq!(tokens, vec![7, 16, 18]);
    assert_eq!(symbols, vec!["hello", " wor", "ld"]);
    for o in &list {
        assert_eq!(o.symbol, t.detokenize(vec![o.token]).unwrap());
        assert_eq!(o.start_pos, 0);
        assert_eq!(o.end_pos, 0);
    }
    assert!(t.token_list("").unwrap().is_empty());
}

#[test]
fn token_list_replaces_partial_characters() {
    let t = byte_level(&[], "#version\n");
    let list = t.token_list("é").unwrap();
    assert_eq!(list.len(), 2);
    assert_eq!(list[0].symbol, "\u{FFFD}");
    assert_eq!(list[1].symbol, "\u{FFFD}");
}

#[test]
fn greeting_routes() {
    assert_eq!(index(), "Hello, wolrd!");
    assert_eq!(hello("Ada"), "Hello, Ada!");
}
