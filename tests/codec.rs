use bpe_tokenizer::codec::{create_bpe_char_decoder, create_bpe_char_encoder, decode_symbol, encode_byte};

#[test]
fn kept_bytes_show_themselves() {
    let enc = create_bpe_char_encoder();
    assert_eq!(enc.len(), 256);
    assert_eq!(encode_byte(&enc, b'a'), 'a');
    assert_eq!(encode_byte(&enc, b'!'), '!');
    assert_eq!(encode_byte(&enc, b'~'), '~');
    assert_eq!(encode_byte(&enc, 0xA1), '\u{A1}');
    assert_eq!(encode_byte(&enc, 0xFF), '\u{FF}');
}

#[test]
fn moved_bytes_take_code_points_from_256() {
    let enc = create_bpe_char_encoder();
    assert_eq!(encode_byte(&enc, 0x00), '\u{100}');
    assert_eq!(encode_byte(&enc, b' '), '\u{120}');
    assert_eq!(encode_byte(&enc, b'\n'), '\u{10A}');
    assert_eq!(encode_byte(&enc, 0x7F), '\u{121}');
    assert_eq!(encode_byte(&enc, 0xA0), '\u{142}');
    assert_eq!(encode_byte(&enc, 0xAD), '\u{143}');
}

#[test]
fn codec_is_a_bijection() {
    let enc = create_bpe_char_encoder();
    let dec = create_bpe_char_decoder(&enc);
    let mut seen = std::collections::HashSet::new();
    for b in 0..=255u8 {
        let c = encode_byte(&enc, b);
        assert_eq!(decode_symbol(&dec, c), Some(b));
        assert!(seen.insert(c));
    }
}

#[test]
fn codec_symbols_are_safe() {
    let enc = create_bpe_char_encoder();
    for b in 0..=255u8 {
        let c = encode_byte(&enc, b);
        assert!(!c.is_whitespace());
        assert!(!c.is_control());
    }
}

#[test]
fn other_code_points_show_no_byte() {
    let enc = create_bpe_char_encoder();
    let dec = create_bpe_char_decoder(&enc);
    assert_eq!(decode_symbol(&dec, ' '), None);
    assert_eq!(decode_symbol(&dec, '\u{144}'), None);
    assert_eq!(decode_symbol(&dec, '\u{20AC}'), None);
}
