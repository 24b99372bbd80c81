//! The reversible byte-to-symbol codec.
//!
//! Each of the 256 byte values is shown as one printable Unicode code point:
//! bytes that are already printable and not whitespace keep their own code
//! point, the others are moved, in ascending order, to the code points from
//! 256 up.

use vstd::prelude::*;
use crate::text::char_from_u32;
use crate::classes::is_white_space;

verus! {

/// Number of entries of the decoding table: every symbol code point is below it.
pub const SYMBOL_LIMIT: usize = 324;

/// The bytes that keep their own code point.
pub open spec fn keeps(b: int) -> bool {
    (0x21 <= b <= 0x7E) || (0xA1 <= b <= 0xAC) || (0xAE <= b <= 0xFF)
}

/// How many bytes below `b` are moved.
pub open spec fn moved_below(b: int) -> int
    decreases b,
{
    if b <= 0 {
        0
    } else {
        moved_below(b - 1) + if keeps(b - 1) { 0int } else { 1int }
    }
}

/// The code point that shows byte `b`.
pub open spec fn symbol_code(b: u8) -> u32 {
    if keeps(b as int) {
        b as u32
    } else {
        (256 + moved_below(b as int)) as u32
    }
}

/// The symbol that shows byte `b`.
pub open spec fn byte_to_symbol(b: u8) -> char {
    symbol_code(b) as char
}

/// The byte that symbol `c` shows, if it shows one.
pub open spec fn symbol_to_byte(c: char) -> Option<u8> {
    if exists|b: u8| byte_to_symbol(b) == c {
        Some(choose|b: u8| byte_to_symbol(b) == c)
    } else {
        None
    }
}

/// The encoding table: entry `b` is the symbol of byte `b`.
pub open spec fn encoder_table() -> Seq<char> {
    Seq::new(256, |i: int| byte_to_symbol(i as u8))
}

/// The decoding table: entry `x` is the byte shown by code point `x`.
pub open spec fn decoder_table() -> Seq<Option<u8>> {
    Seq::new(SYMBOL_LIMIT as nat, |x: int| symbol_to_byte((x as u32) as char))
}

/// A C0 or C1 control code point.
pub open spec fn is_control_code(c: char) -> bool {
    (c as u32) <= 0x1F || (0x7F <= (c as u32) && (c as u32) <= 0x9F)
}

proof fn lemma_moved_below(b: int)
    requires
        0 <= b <= 256,
    ensures
        moved_below(b) == if b <= 0x21 {
            b
        } else if b <= 0x7F {
            0x21
        } else if b <= 0xA1 {
            0x21 + (b - 0x7F)
        } else if b <= 0xAD {
            0x43
        } else {
            0x44
        },
    decreases b,
{
    if b > 0 {
        lemma_moved_below(b - 1);
    }
}

/// The code point of each byte, in closed form.
proof fn lemma_symbol_code(b: u8)
    ensures
        symbol_code(b) as int == if b <= 0x20 {
            256 + b as int
        } else if b <= 0x7E {
            b as int
        } else if b <= 0xA0 {
            b as int + 162
        } else if b <= 0xAC {
            b as int
        } else if b == 0xAD {
            323
        } else {
            b as int
        },
{
    lemma_moved_below(b as int);
}

proof fn lemma_symbol_code_injective(a: u8, b: u8)
    requires
        symbol_code(a) == symbol_code(b),
    ensures
        a == b,
{
    lemma_symbol_code(a);
    lemma_symbol_code(b);
}

/// A symbol code is a Unicode scalar below `SYMBOL_LIMIT`.
pub proof fn lemma_symbol_code_range(b: u8)
    ensures
        symbol_code(b) < SYMBOL_LIMIT,
        0x21 <= symbol_code(b),
        (byte_to_symbol(b) as u32) == symbol_code(b),
{
    lemma_symbol_code(b);
    let x = symbol_code(b);
    assert(vstd::utf8::is_scalar(x));
    vstd::utf8::char_u32_cast(x as char, x);
}

/// Decoding the symbol of a byte gives the byte back, and no two bytes share
/// a symbol.
pub proof fn lemma_codec_bijection(b: u8)
    ensures
        symbol_to_byte(byte_to_symbol(b)) == Some(b),
        forall|b2: u8| byte_to_symbol(b2) == byte_to_symbol(b) ==> b2 == b,
{
    assert forall|b2: u8| byte_to_symbol(b2) == byte_to_symbol(b) implies b2 == b by {
        lemma_symbol_code_range(b);
        lemma_symbol_code_range(b2);
        lemma_symbol_code_injective(b, b2);
    }
    let c = byte_to_symbol(b);
    assert(exists|x: u8| byte_to_symbol(x) == c);
}

/// No symbol is whitespace or a control code point.
pub proof fn lemma_codec_safety(b: u8)
    ensures
        !is_white_space(byte_to_symbol(b)),
        !is_control_code(byte_to_symbol(b)),
{
    lemma_symbol_code(b);
    lemma_symbol_code_range(b);
}

/// Whether byte `b` keeps its own code point.
pub fn is_valid_bpe_char(b: u8) -> (r: bool)
    ensures
        r == keeps(b as int),
{
    (0x21 <= b && b <= 0x7E) || (0xA1 <= b && b <= 0xAC) || 0xAE <= b
}

/// Builds the encoding table by walking the bytes in ascending order and
/// handing the moved ones the next free code point from 256 up.
pub fn create_bpe_char_encoder() -> (r: Vec<char>)
    ensures
        r@ == encoder_table(),
{
    let mut map: Vec<char> = Vec::new();
    let mut n: u32 = 0;
    let mut i: u32 = 0;
    while i < 256
        invariant
            0 <= i <= 256,
            n == moved_below(i as int),
            n <= i,
            map@.len() == i,
            forall|j: int| 0 <= j < i ==> map@[j] == byte_to_symbol(j as u8),
        decreases 256 - i,
    {
        let b = i as u8;
        let is_valid = is_valid_bpe_char(b);
        let code: u32 = if is_valid {
            b as u32
        } else {
            let to = 256 + n;
            n = n + 1;
            to
        };
        proof {
            lemma_symbol_code_range(b);
            vstd::utf8::char_u32_cast(byte_to_symbol(b), code);
        }
        match char_from_u32(code) {
            Some(c) => {
                proof {
                    vstd::utf8::char_u32_cast(c, code);
                }
                map.push(c);
            },
            None => {
                proof {
                    assert(false);
                }
            },
        }
        i = i + 1;
    }
    assert(map@ =~= encoder_table());
    map
}

} // verus!
verus! {

/// Code points at or above `SYMBOL_LIMIT` show no byte.
proof fn lemma_symbol_to_byte_range(c: char)
    ensures
        symbol_to_byte(c) matches Some(b) ==> byte_to_symbol(b) == c && (c as u32) < SYMBOL_LIMIT,
{
    if let Some(b) = symbol_to_byte(c) {
        lemma_symbol_code_range(b);
    }
}

/// Builds the decoding table, the inverse of the encoding table, indexed by
/// code point.
pub fn create_bpe_char_decoder(encoder: &Vec<char>) -> (r: Vec<Option<u8>>)
    requires
        encoder@ == encoder_table(),
    ensures
        r@ == decoder_table(),
{
    let mut map: Vec<Option<u8>> = Vec::new();
    let mut x: usize = 0;
    while x < SYMBOL_LIMIT
        invariant
            x <= SYMBOL_LIMIT,
            map@.len() == x,
            forall|y: int| 0 <= y < x ==> map@[y] is None,
        decreases SYMBOL_LIMIT - x,
    {
        map.push(None);
        x = x + 1;
    }
    let mut i: usize = 0;
    while i < 256
        invariant
            i <= 256,
            encoder@ == encoder_table(),
            map@.len() == SYMBOL_LIMIT,
            forall|y: int|
                0 <= y < SYMBOL_LIMIT ==> #[trigger] map@[y] == match symbol_to_byte(
                    (y as u32) as char,
                ) {
                    Some(b) => if (b as int) < i {
                        Some(b)
                    } else {
                        None
                    },
                    None => None,
                },
        decreases 256 - i,
    {
        let b = i as u8;
        let c = encoder[i];
        proof {
            lemma_symbol_code_range(b);
            lemma_codec_bijection(b);
        }
        let code = c as u32;
        let ghost old_map = map@;
        map.set(code as usize, Some(b));
        proof {
            assert forall|y: int| 0 <= y < SYMBOL_LIMIT implies #[trigger] map@[y] == match symbol_to_byte(
                (y as u32) as char,
            ) {
                Some(b2) => if (b2 as int) < i + 1 {
                    Some(b2)
                } else {
                    None
                },
                None => None,
            } by {
                let yc = (y as u32) as char;
                assert(vstd::utf8::is_scalar(y as u32));
                lemma_symbol_to_byte_range(yc);
                if y == code as int {
                    vstd::utf8::char_u32_cast(c, code);
                } else {
                    if let Some(b2) = symbol_to_byte(yc) {
                        if b2 == b {
                            assert(byte_to_symbol(b) == yc);
                        }
                    }
                }
            }
        }
        i = i + 1;
    }
    proof {
        assert forall|y: int| 0 <= y < SYMBOL_LIMIT implies #[trigger] map@[y] == decoder_table()[y] by {
            lemma_symbol_to_byte_range((y as u32) as char);
        }
    }
    assert(map@ =~= decoder_table());
    map
}

/// Looks up the byte that symbol `c` shows in the decoding table.
pub fn decode_symbol(decoder: &Vec<Option<u8>>, c: char) -> (r: Option<u8>)
    requires
        decoder@ == decoder_table(),
    ensures
        r == symbol_to_byte(c),
{
    let x = c as u32;
    proof {
        lemma_symbol_to_byte_range(c);
    }
    if x < SYMBOL_LIMIT as u32 {
        proof {
            vstd::utf8::char_u32_cast(c, x);
        }
        decoder[x as usize]
    } else {
        None
    }
}

/// Looks up the symbol of byte `b` in the encoding table.
pub fn encode_byte(encoder: &Vec<char>, b: u8) -> (r: char)
    requires
        encoder@ == encoder_table(),
    ensures
        r == byte_to_symbol(b),
{
    encoder[b as usize]
}

} // verus!
