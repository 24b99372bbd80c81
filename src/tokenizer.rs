//! The tokenizer: encodes text into token ids and decodes token ids back
//! into text.

use std::collections::HashMap;
use vstd::prelude::*;
use vstd::hash_map::StringHashMap;
use vstd::utf8::{encode_utf8, valid_utf8, decode_utf8};
use rayon::iter::{IntoParallelRefIterator, ParallelIterator};
use crate::bpe::{BpeRanks, Ranks, Word, bpe, bpe_word, initial_word, spaceless};
use crate::classes::is_white_space;
use crate::codec::{
    byte_to_symbol,
    symbol_to_byte,
    encoder_table,
    decoder_table,
    create_bpe_char_encoder,
    create_bpe_char_decoder,
    encode_byte,
    decode_symbol,
    lemma_codec_safety,
};
use crate::error::{DecodeError, EncodeError, LoadError};
use crate::merges::{create_bpe_ranks, merge_pairs, ranks_of};
use crate::pat::{chunks, pat};
use crate::text::{chars_of, lossy_text, push_char, string_from_utf8, text_lossy, views};
use crate::vocab::{
    encoder_entries,
    ids_injective,
    id_shared,
    inverse,
    decoder_view,
    create_bpe_token_encoder,
    create_bpe_token_decoder,
    token_encoder_of,
};

verus! {

broadcast use vstd::std_specs::hash::group_hash_axioms;

/// The symbol string of a chunk: each of its UTF-8 bytes shown as its symbol.
pub open spec fn translate(chunk: Seq<char>) -> Seq<char> {
    encode_utf8(chunk).map_values(|b: u8| byte_to_symbol(b))
}

/// The token ids of the symbols of `w`, or the first symbol that the
/// vocabulary lacks.
pub open spec fn lookup_all(vocab: Map<Seq<char>, u16>, w: Word) -> Result<Seq<u16>, Seq<char>>
    decreases w.len(),
{
    if w.len() == 0 {
        Ok(Seq::empty())
    } else {
        match lookup_all(vocab, w.drop_last()) {
            Err(s) => Err(s),
            Ok(ids) => if vocab.contains_key(w.last()) {
                Ok(ids.push(vocab[w.last()]))
            } else {
                Err(w.last())
            },
        }
    }
}

/// The token ids of one chunk.
pub open spec fn chunk_tokens(vocab: Map<Seq<char>, u16>, ranks: Ranks, chunk: Seq<char>) -> Result<
    Seq<u16>,
    Seq<char>,
> {
    lookup_all(vocab, bpe_word(ranks, initial_word(translate(chunk))))
}

/// The token ids of a list of chunks, one chunk after the other, or the
/// first missing symbol.
pub open spec fn encode_chunks(vocab: Map<Seq<char>, u16>, ranks: Ranks, cs: Seq<Seq<char>>) -> Result<
    Seq<u16>,
    Seq<char>,
>
    decreases cs.len(),
{
    if cs.len() == 0 {
        Ok(Seq::empty())
    } else {
        match encode_chunks(vocab, ranks, cs.drop_last()) {
            Err(s) => Err(s),
            Ok(ids) => match chunk_tokens(vocab, ranks, cs.last()) {
                Err(s) => Err(s),
                Ok(t) => Ok(ids + t),
            },
        }
    }
}

/// The token ids of a text, or the first symbol that the vocabulary lacks.
pub open spec fn encode_text(vocab: Map<Seq<char>, u16>, ranks: Ranks, text: Seq<char>) -> Result<
    Seq<u16>,
    Seq<char>,
> {
    encode_chunks(vocab, ranks, chunks(text))
}

/// An encoding result agrees with its model.
pub open spec fn encodes_as(r: Result<Vec<u16>, EncodeError>, m: Result<Seq<u16>, Seq<char>>) -> bool {
    match m {
        Ok(ids) => r matches Ok(v) && v@ == ids,
        Err(s) => r matches Err(EncodeError::VocabMiss(x)) && x@ == s,
    }
}

/// The symbol strings of the token ids, joined, or the first unknown id.
pub open spec fn symbols_of(decoder: Map<u16, Seq<char>>, ids: Seq<u16>) -> Result<Seq<char>, u16>
    decreases ids.len(),
{
    if ids.len() == 0 {
        Ok(Seq::empty())
    } else {
        match symbols_of(decoder, ids.drop_last()) {
            Err(id) => Err(id),
            Ok(s) => if decoder.contains_key(ids.last()) {
                Ok(s + decoder[ids.last()])
            } else {
                Err(ids.last())
            },
        }
    }
}

/// The bytes that the symbols show, or the first symbol that shows none.
pub open spec fn bytes_of(s: Seq<char>) -> Result<Seq<u8>, char>
    decreases s.len(),
{
    if s.len() == 0 {
        Ok(Seq::empty())
    } else {
        match bytes_of(s.drop_last()) {
            Err(c) => Err(c),
            Ok(b) => match symbol_to_byte(s.last()) {
                Some(x) => Ok(b.push(x)),
                None => Err(s.last()),
            },
        }
    }
}

/// The text that a list of token ids decodes to.
pub open spec fn decode_ids(decoder: Map<u16, Seq<char>>, ids: Seq<u16>) -> Result<Seq<char>, DecodeError> {
    match symbols_of(decoder, ids) {
        Err(id) => Err(DecodeError::UnknownToken(id)),
        Ok(s) => match bytes_of(s) {
            Err(c) => Err(DecodeError::UnknownSymbol(c)),
            Ok(b) => if valid_utf8(b) {
                Ok(decode_utf8(b))
            } else {
                Err(DecodeError::InvalidUtf8)
            },
        },
    }
}

/// A decoding result agrees with its model.
pub open spec fn decodes_as(r: Result<String, DecodeError>, m: Result<Seq<char>, DecodeError>) -> bool {
    match m {
        Ok(t) => r matches Ok(s) && s@ == t,
        Err(e) => r matches Err(e2) && e2 == e,
    }
}

/// A GPT-2 style byte-pair-encoding tokenizer: the byte codec, the
/// vocabulary and its inverse, and the merge ranks.
pub struct Tokenizer {
    byte_encoder: Vec<char>,
    byte_decoder: Vec<Option<u8>>,
    token_encoder: StringHashMap<u16>,
    token_decoder: HashMap<u16, String>,
    bpe_ranks: BpeRanks,
}

impl Tokenizer {
    /// The vocabulary: symbol string to token id.
    pub closed spec fn vocab(&self) -> Map<Seq<char>, u16> {
        self.token_encoder@
    }

    /// The inverse vocabulary: token id to symbol string.
    pub closed spec fn decoder(&self) -> Map<u16, Seq<char>> {
        decoder_view(self.token_decoder@)
    }

    /// The merge ranks.
    pub closed spec fn ranks(&self) -> Ranks {
        self.bpe_ranks@
    }

    /// The codec tables are the codec, the vocabulary is a bijection onto
    /// its ids with the decoder as inverse, and no two merges share a rank.
    pub closed spec fn wf(&self) -> bool {
        &&& self.byte_encoder@ == encoder_table()
        &&& self.byte_decoder@ == decoder_table()
        &&& self.bpe_ranks.wf()
        &&& ids_injective(self.vocab())
        &&& self.decoder() == inverse(self.vocab())
    }

    /// Builds the tokenizer from the text of the encoder document and the
    /// text of the merge file.
    pub fn new(encoder_json: &str, vocab_bpe: &str) -> (r: Result<Tokenizer, LoadError>)
        ensures
            match encoder_entries(encoder_json@) {
                None => r matches Err(LoadError::InvalidEncoder),
                Some(m) => if !ids_injective(m) {
                    r matches Err(LoadError::DuplicateTokenId(id)) && id_shared(m, id)
                } else {
                    match merge_pairs(vocab_bpe@) {
                        Err(n) => r matches Err(LoadError::MalformedMerge(k)) && k as nat == n,
                        Ok(ps) => r matches Ok(t) && t.wf() && t.vocab() == m && t.decoder()
                            == inverse(m) && t.ranks() == ranks_of(ps) && built_from(
                            t,
                            encoder_json@,
                            vocab_bpe@,
                        ),
                    }
                },
            },
    {
        let entries = match create_bpe_token_encoder(encoder_json) {
            None => {
                return Err(LoadError::InvalidEncoder);
            },
            Some(v) => v,
        };
        let token_encoder = token_encoder_of(&entries);
        let token_decoder = match create_bpe_token_decoder(&entries) {
            Err(id) => {
                return Err(LoadError::DuplicateTokenId(id));
            },
            Ok(d) => d,
        };
        let bpe_ranks = match create_bpe_ranks(vocab_bpe) {
            Err(e) => {
                return Err(e);
            },
            Ok(r) => r,
        };
        let byte_encoder = create_bpe_char_encoder();
        let byte_decoder = create_bpe_char_decoder(&byte_encoder);
        Ok(Tokenizer { byte_encoder, byte_decoder, token_encoder, token_decoder, bpe_ranks })
    }

    /// The symbol string of a chunk.
    fn translate_chunk(&self, chunk: &String) -> (r: String)
        requires
            self.wf(),
        ensures
            r@ == translate(chunk@),
            spaceless(r@),
    {
        let bytes = chunk.as_str().as_bytes();
        let ghost b = bytes@;
        assert(b == encode_utf8(chunk@));
        let mut out = String::new();
        let mut i: usize = 0;
        while i < bytes.len()
            invariant
                self.wf(),
                b == bytes@,
                i <= b.len(),
                out@ == b.take(i as int).map_values(|x: u8| byte_to_symbol(x)),
                spaceless(out@),
            decreases b.len() - i,
        {
            let c = encode_byte(&self.byte_encoder, bytes[i]);
            proof {
                lemma_codec_safety(bytes[i as int]);
                assert(is_white_space(' '));
            }
            let ghost before = out@;
            push_char(&mut out, c);
            proof {
                assert(out@ =~= b.take(i + 1).map_values(|x: u8| byte_to_symbol(x)));
                assert forall|k: int| 0 <= k < out@.len() implies out@[k] != ' ' by {
                    if k < before.len() {
                        assert(out@[k] == before[k]);
                    }
                }
            }
            i = i + 1;
        }
        assert(b.take(i as int) =~= b);
        out
    }

    /// The token ids of one chunk.
    fn encode_chunk(&self, chunk: &String) -> (r: Result<Vec<u16>, EncodeError>)
        requires
            self.wf(),
        ensures
            encodes_as(r, chunk_tokens(self.vocab(), self.ranks(), chunk@)),
    {
        let symbols = self.translate_chunk(chunk);
        let word = bpe(&self.bpe_ranks, &symbols);
        let ghost w = views(word@);
        let mut ids: Vec<u16> = Vec::new();
        let mut i: usize = 0;
        while i < word.len()
            invariant
                w == views(word@),
                w == bpe_word(self.ranks(), initial_word(translate(chunk@))),
                i <= w.len(),
                lookup_all(self.vocab(), w.take(i as int)) == Ok::<Seq<u16>, Seq<char>>(ids@),
            decreases w.len() - i,
        {
            proof {
                assert(w.take(i + 1).drop_last() =~= w.take(i as int));
            }
            match self.token_encoder.get(word[i].as_str()) {
                Some(id) => {
                    ids.push(*id);
                },
                None => {
                    proof {
                        assert(w.take(i + 1).last() == w[i as int]);
                        assert(!self.vocab().contains_key(w[i as int]));
                        assert(lookup_all(self.vocab(), w.take(i + 1)) == Err::<Seq<u16>, Seq<char>>(w[i as int]));
                        lemma_lookup_prefix_err(self.vocab(), w, i as int + 1);
                    }
                    return Err(EncodeError::VocabMiss(word[i].clone()));
                },
            }
            i = i + 1;
        }
        assert(w.take(i as int) =~= w);
        Ok(ids)
    }
}

/// A miss in a prefix is the miss of the whole word.
proof fn lemma_lookup_prefix_err(vocab: Map<Seq<char>, u16>, w: Word, n: int)
    requires
        0 <= n <= w.len(),
        lookup_all(vocab, w.take(n)) is Err,
    ensures
        lookup_all(vocab, w) == lookup_all(vocab, w.take(n)),
    decreases w.len() - n,
{
    if n < w.len() {
        assert(w.take(n + 1).drop_last() =~= w.take(n));
        lemma_lookup_prefix_err(vocab, w, n + 1);
    } else {
        assert(w.take(n) =~= w);
    }
}

} // verus!
verus! {

/// Relies on rayon's `par_iter().map(..).collect()` into a `Vec`: the
/// closure runs once on every chunk and the results keep the chunks' order.
/// The closure only calls the verified `Tokenizer::encode_chunk`.
#[verifier::external_body]
fn encode_chunks_parallel(tok: &Tokenizer, chunks: &Vec<String>) -> (r: Vec<
    Result<Vec<u16>, EncodeError>,
>)
    requires
        tok.wf(),
    ensures
        r@.len() == chunks@.len(),
        forall|i: int|
            0 <= i < chunks@.len() ==> encodes_as(
                #[trigger] r@[i],
                chunk_tokens(tok.vocab(), tok.ranks(), chunks@[i]@),
            ),
{
    chunks.par_iter().map(|c| tok.encode_chunk(c)).collect()
}

impl Tokenizer {
    /// Encodes `text` into token ids: the ids of its chunks, in order.
    pub fn tokenize(&self, text: &str) -> (r: Result<Vec<u16>, EncodeError>)
        requires
            self.wf(),
        ensures
            encodes_as(r, encode_text(self.vocab(), self.ranks(), text@)),
    {
        let pieces = pat(text);
        let ghost cs = views(pieces@);
        let results = encode_chunks_parallel(self, &pieces);
        let mut ids: Vec<u16> = Vec::new();
        let mut i: usize = 0;
        while i < results.len()
            invariant
                self.wf(),
                cs == views(pieces@),
                cs == chunks(text@),
                results@.len() == cs.len(),
                i <= cs.len(),
                forall|k: int|
                    0 <= k < cs.len() ==> encodes_as(
                        #[trigger] results@[k],
                        chunk_tokens(self.vocab(), self.ranks(), cs[k]),
                    ),
                encode_chunks(self.vocab(), self.ranks(), cs.take(i as int)) == Ok::<
                    Seq<u16>,
                    Seq<char>,
                >(ids@),
            decreases cs.len() - i,
        {
            proof {
                assert(cs.take(i + 1).drop_last() =~= cs.take(i as int));
                assert(cs.take(i + 1).last() == cs[i as int]);
                assert(pieces@[i as int]@ == cs[i as int]);
            }
            match &results[i] {
                Ok(v) => {
                    let ghost before = ids@;
                    let mut j: usize = 0;
                    while j < v.len()
                        invariant
                            j <= v@.len(),
                            ids@ == before + v@.take(j as int),
                        decreases v@.len() - j,
                    {
                        ids.push(v[j]);
                        j = j + 1;
                        assert(ids@ =~= before + v@.take(j as int));
                    }
                    assert(v@.take(j as int) =~= v@);
                },
                Err(EncodeError::VocabMiss(s)) => {
                    proof {
                        lemma_encode_prefix_err(self.vocab(), self.ranks(), cs, i as int + 1);
                    }
                    return Err(EncodeError::VocabMiss(s.clone()));
                },
            }
            i = i + 1;
        }
        assert(cs.take(i as int) =~= cs);
        Ok(ids)
    }

    /// Decodes token ids back into text.
    pub fn detokenize(&self, tokens: Vec<u16>) -> (r: Result<String, DecodeError>)
        requires
            self.wf(),
        ensures
            decodes_as(r, decode_ids(self.decoder(), tokens@)),
    {
        let ghost ids = tokens@;
        let mut text = String::new();
        let mut i: usize = 0;
        while i < tokens.len()
            invariant
                ids == tokens@,
                i <= ids.len(),
                symbols_of(self.decoder(), ids.take(i as int)) == Ok::<Seq<char>, u16>(text@),
            decreases ids.len() - i,
        {
            let id = tokens[i];
            proof {
                assert(ids.take(i + 1).drop_last() =~= ids.take(i as int));
                assert(ids.take(i + 1).last() == id);
            }
            match self.token_decoder.get(&id) {
                Some(s) => {
                    text.append(s.as_str());
                },
                None => {
                    proof {
                        lemma_symbols_prefix_err(self.decoder(), ids, i as int + 1);
                    }
                    return Err(DecodeError::UnknownToken(id));
                },
            }
            i = i + 1;
        }
        assert(ids.take(i as int) =~= ids);
        let chars = chars_of(text.as_str());
        let ghost s = chars@;
        let mut bytes: Vec<u8> = Vec::new();
        let mut k: usize = 0;
        while k < chars.len()
            invariant
                self.wf(),
                ids == tokens@,
                s == chars@,
                symbols_of(self.decoder(), ids) == Ok::<Seq<char>, u16>(s),
                k <= s.len(),
                bytes_of(s.take(k as int)) == Ok::<Seq<u8>, char>(bytes@),
            decreases s.len() - k,
        {
            let c = chars[k];
            proof {
                assert(s.take(k + 1).drop_last() =~= s.take(k as int));
                assert(s.take(k + 1).last() == c);
            }
            match decode_symbol(&self.byte_decoder, c) {
                Some(b) => {
                    bytes.push(b);
                },
                None => {
                    proof {
                        assert(bytes_of(s.take(k + 1)) == Err::<Seq<u8>, char>(c));
                        lemma_bytes_prefix_err(s, k as int + 1);
                    }
                    return Err(DecodeError::UnknownSymbol(c));
                },
            }
            k = k + 1;
        }
        assert(s.take(k as int) =~= s);
        match string_from_utf8(bytes) {
            Some(out) => Ok(out),
            None => Err(DecodeError::InvalidUtf8),
        }
    }
}

/// A miss in a prefix of the chunks is the miss of the whole list.
proof fn lemma_encode_prefix_err(vocab: Map<Seq<char>, u16>, ranks: Ranks, cs: Seq<Seq<char>>, n: int)
    requires
        0 <= n <= cs.len(),
        encode_chunks(vocab, ranks, cs.take(n)) is Err,
    ensures
        encode_chunks(vocab, ranks, cs) == encode_chunks(vocab, ranks, cs.take(n)),
    decreases cs.len() - n,
{
    if n < cs.len() {
        assert(cs.take(n + 1).drop_last() =~= cs.take(n));
        lemma_encode_prefix_err(vocab, ranks, cs, n + 1);
    } else {
        assert(cs.take(n) =~= cs);
    }
}

/// An unknown id in a prefix is the unknown id of the whole list.
proof fn lemma_symbols_prefix_err(decoder: Map<u16, Seq<char>>, ids: Seq<u16>, n: int)
    requires
        0 <= n <= ids.len(),
        symbols_of(decoder, ids.take(n)) is Err,
    ensures
        symbols_of(decoder, ids) == symbols_of(decoder, ids.take(n)),
    decreases ids.len() - n,
{
    if n < ids.len() {
        assert(ids.take(n + 1).drop_last() =~= ids.take(n));
        lemma_symbols_prefix_err(decoder, ids, n + 1);
    } else {
        assert(ids.take(n) =~= ids);
    }
}

/// An unknown symbol in a prefix is the unknown symbol of the whole string.
proof fn lemma_bytes_prefix_err(s: Seq<char>, n: int)
    requires
        0 <= n <= s.len(),
        bytes_of(s.take(n)) is Err,
    ensures
        bytes_of(s) == bytes_of(s.take(n)),
    decreases s.len() - n,
{
    if n < s.len() {
        assert(s.take(n + 1).drop_last() =~= s.take(n));
        lemma_bytes_prefix_err(s, n + 1);
    } else {
        assert(s.take(n) =~= s);
    }
}

} // verus!
verus! {

proof fn lemma_encode_utf8_concat(a: Seq<char>, b: Seq<char>)
    ensures
        encode_utf8(a + b) == encode_utf8(a) + encode_utf8(b),
    decreases a.len(),
{
    if a.len() == 0 {
        assert(a + b =~= b);
        assert(encode_utf8(a) + encode_utf8(b) =~= encode_utf8(b));
    } else {
        lemma_encode_utf8_concat(a.drop_first(), b);
        assert((a + b).drop_first() =~= a.drop_first() + b);
        assert((a + b)[0] == a[0]);
        let h = vstd::utf8::encode_scalar(a[0] as u32);
        assert(h + (encode_utf8(a.drop_first()) + encode_utf8(b)) =~= (h + encode_utf8(
            a.drop_first(),
        )) + encode_utf8(b));
    }
}

proof fn lemma_symbols_concat(decoder: Map<u16, Seq<char>>, x: Seq<u16>, y: Seq<u16>)
    requires
        symbols_of(decoder, x) is Ok,
        symbols_of(decoder, y) is Ok,
    ensures
        symbols_of(decoder, x + y) == Ok::<Seq<char>, u16>(
            symbols_of(decoder, x)->Ok_0 + symbols_of(decoder, y)->Ok_0,
        ),
    decreases y.len(),
{
    if y.len() == 0 {
        assert(x + y =~= x);
        assert(symbols_of(decoder, x)->Ok_0 + Seq::<char>::empty() =~= symbols_of(decoder, x)->Ok_0);
    } else {
        let y1 = y.drop_last();
        lemma_symbols_concat(decoder, x, y1);
        assert((x + y).drop_last() =~= x + y1);
        assert((x + y).last() == y.last());
        let s1 = symbols_of(decoder, x)->Ok_0;
        let s2 = symbols_of(decoder, y1)->Ok_0;
        assert(s1 + s2 + decoder[y.last()] =~= s1 + (s2 + decoder[y.last()]));
    }
}

proof fn lemma_bytes_concat(x: Seq<char>, y: Seq<char>)
    requires
        bytes_of(x) is Ok,
        bytes_of(y) is Ok,
    ensures
        bytes_of(x + y) == Ok::<Seq<u8>, char>(bytes_of(x)->Ok_0 + bytes_of(y)->Ok_0),
    decreases y.len(),
{
    if y.len() == 0 {
        assert(x + y =~= x);
        assert(bytes_of(x)->Ok_0 + Seq::<u8>::empty() =~= bytes_of(x)->Ok_0);
    } else {
        let y1 = y.drop_last();
        lemma_bytes_concat(x, y1);
        assert((x + y).drop_last() =~= x + y1);
        assert((x + y).last() == y.last());
        let b1 = bytes_of(x)->Ok_0;
        let b2 = bytes_of(y1)->Ok_0;
        let last = symbol_to_byte(y.last())->0;
        assert((b1 + b2).push(last) =~= b1 + b2.push(last));
    }
}

/// Decoding the symbols of some bytes gives the bytes back.
proof fn lemma_bytes_translate(b: Seq<u8>)
    ensures
        bytes_of(b.map_values(|x: u8| byte_to_symbol(x))) == Ok::<Seq<u8>, char>(b),
    decreases b.len(),
{
    let s = b.map_values(|x: u8| byte_to_symbol(x));
    if b.len() == 0 {
        assert(s =~= Seq::<char>::empty());
        assert(b =~= Seq::<u8>::empty());
    } else {
        let b1 = b.drop_last();
        lemma_bytes_translate(b1);
        assert(s.drop_last() =~= b1.map_values(|x: u8| byte_to_symbol(x)));
        crate::codec::lemma_codec_bijection(b.last());
        assert(b1.push(b.last()) =~= b);
    }
}

/// Looking up a word and decoding its ids spells the word.
proof fn lemma_lookup_symbols(vocab: Map<Seq<char>, u16>, w: Word)
    requires
        ids_injective(vocab),
        lookup_all(vocab, w) is Ok,
    ensures
        symbols_of(inverse(vocab), lookup_all(vocab, w)->Ok_0) == Ok::<Seq<char>, u16>(w.flatten()),
    decreases w.len(),
{
    if w.len() == 0 {
    } else {
        let w1 = w.drop_last();
        lemma_lookup_symbols(vocab, w1);
        let ids = lookup_all(vocab, w)->Ok_0;
        let s = w.last();
        let id = vocab[s];
        assert(ids.drop_last() =~= lookup_all(vocab, w1)->Ok_0);
        assert(has_id_of(vocab, s));
        let inv = inverse(vocab);
        assert(inv.contains_key(id));
        let s2 = choose|t: Seq<char>| vocab.contains_key(t) && vocab[t] == id;
        assert(vocab[s2] == vocab[s]);
        w1.lemma_flatten_push(s);
        assert(w1.push(s) =~= w);
    }
}

spec fn has_id_of(vocab: Map<Seq<char>, u16>, s: Seq<char>) -> bool {
    vocab.contains_key(s) && crate::vocab::has_id(vocab, vocab[s])
}

/// What the ids of a list of chunks decode to: the symbols of all their
/// bytes, which show exactly those bytes.
proof fn lemma_encode_chunks_decode(vocab: Map<Seq<char>, u16>, ranks: Ranks, cs: Seq<Seq<char>>)
    requires
        ids_injective(vocab),
        encode_chunks(vocab, ranks, cs) is Ok,
    ensures
        symbols_of(inverse(vocab), encode_chunks(vocab, ranks, cs)->Ok_0) is Ok,
        bytes_of(symbols_of(inverse(vocab), encode_chunks(vocab, ranks, cs)->Ok_0)->Ok_0) == Ok::<
            Seq<u8>,
            char,
        >(encode_utf8(cs.flatten())),
    decreases cs.len(),
{
    let inv = inverse(vocab);
    if cs.len() == 0 {
        assert(bytes_of(Seq::<char>::empty()) == Ok::<Seq<u8>, char>(Seq::<u8>::empty()));
    } else {
        let c1 = cs.drop_last();
        let c = cs.last();
        lemma_encode_chunks_decode(vocab, ranks, c1);
        let ids1 = encode_chunks(vocab, ranks, c1)->Ok_0;
        let tr = translate(c);
        let w = bpe_word(ranks, initial_word(tr));
        let t = lookup_all(vocab, w)->Ok_0;
        lemma_lookup_symbols(vocab, w);
        crate::bpe::lemma_bpe_word_flatten(ranks, initial_word(tr));
        crate::bpe::lemma_initial_word_flatten(tr);
        lemma_symbols_concat(inv, ids1, t);
        let s1 = symbols_of(inv, ids1)->Ok_0;
        lemma_bytes_translate(encode_utf8(c));
        lemma_bytes_concat(s1, tr);
        lemma_encode_utf8_concat(c1.flatten(), c);
        c1.lemma_flatten_push(c);
        assert(c1.push(c) =~= cs);
    }
}

/// Decoding the encoding of a text gives the text back, whenever the
/// encoding succeeds.
pub proof fn lemma_round_trip_model(vocab: Map<Seq<char>, u16>, ranks: Ranks, text: Seq<char>)
    requires
        ids_injective(vocab),
        encode_text(vocab, ranks, text) is Ok,
    ensures
        decode_ids(inverse(vocab), encode_text(vocab, ranks, text)->Ok_0) == Ok::<
            Seq<char>,
            DecodeError,
        >(text),
{
    lemma_encode_chunks_decode(vocab, ranks, chunks(text));
    crate::pat::lemma_chunks_reassemble(text);
    vstd::utf8::encode_utf8_valid_utf8(text);
    vstd::utf8::encode_utf8_decode_utf8(text);
}

/// Two results that both meet the contract of `Tokenizer::tokenize` on the
/// same tokenizer and text are the same: encoding depends on the loaded
/// tables and the text alone, whichever call, thread or order produced it.
pub proof fn lemma_encode_deterministic(
    tok: &Tokenizer,
    text: Seq<char>,
    r1: Result<Vec<u16>, EncodeError>,
    r2: Result<Vec<u16>, EncodeError>,
)
    requires
        encodes_as(r1, encode_text(tok.vocab(), tok.ranks(), text)),
        encodes_as(r2, encode_text(tok.vocab(), tok.ranks(), text)),
    ensures
        match (r1, r2) {
            (Ok(a), Ok(b)) => a@ == b@,
            (Err(EncodeError::VocabMiss(x)), Err(EncodeError::VocabMiss(y))) => x@ == y@,
            _ => false,
        },
{
}

/// The tokenizer holds the tables that the encoder text `e` and the merge
/// text `v` give.
pub open spec fn built_from(tok: Tokenizer, e: Seq<char>, v: Seq<char>) -> bool {
    &&& encoder_entries(e) == Some(tok.vocab())
    &&& merge_pairs(v) is Ok
    &&& tok.ranks() == ranks_of(merge_pairs(v)->Ok_0)
}

/// Two tokenizers built from the same artifact texts encode every text
/// alike: encoding depends on the artifacts and the text alone.
pub proof fn lemma_same_artifacts_same_encoding(
    t1: Tokenizer,
    t2: Tokenizer,
    e: Seq<char>,
    v: Seq<char>,
    text: Seq<char>,
)
    requires
        built_from(t1, e, v),
        built_from(t2, e, v),
    ensures
        encode_text(t1.vocab(), t1.ranks(), text) == encode_text(t2.vocab(), t2.ranks(), text),
{
}

/// For a tokenizer: `detokenize(tokenize(t)) == t` whenever `tokenize(t)`
/// succeeds.
pub proof fn lemma_round_trip(tok: &Tokenizer, text: Seq<char>)
    requires
        tok.wf(),
        encode_text(tok.vocab(), tok.ranks(), text) is Ok,
    ensures
        decode_ids(tok.decoder(), encode_text(tok.vocab(), tok.ranks(), text)->Ok_0) == Ok::<
            Seq<char>,
            DecodeError,
        >(text),
{
    lemma_round_trip_model(tok.vocab(), tok.ranks(), text);
}

} // verus!
verus! {

/// A string whose every character is a codec symbol.
pub open spec fn symbol_string(s: Seq<char>) -> bool {
    forall|i: int| 0 <= i < s.len() ==> (#[trigger] symbol_to_byte(s[i])) is Some
}

/// A token id of the vocabulary whose symbol is a codec symbol string.
pub open spec fn symbol_id(vocab: Map<Seq<char>, u16>, id: u16) -> bool {
    exists|s: Seq<char>| vocab.contains_key(s) && vocab[s] == id && symbol_string(s)
}

/// The text shown for one token: its bytes, read as UTF-8 with each invalid
/// run replaced.
pub open spec fn token_text(decoder: Map<u16, Seq<char>>, id: u16) -> Seq<char> {
    lossy_text(bytes_of(decoder[id])->Ok_0)
}

/// One token of a text: its id and the text it stands for. The two
/// position fields are part of the service's output and are always 0.
pub struct TokenizeOutput {
    pub symbol: String,
    pub token: u16,
    pub start_pos: u16,
    pub end_pos: u16,
}

proof fn lemma_symbol_string_concat(a: Seq<char>, b: Seq<char>)
    requires
        symbol_string(a),
        symbol_string(b),
    ensures
        symbol_string(a + b),
{
    assert forall|i: int| 0 <= i < (a + b).len() implies (#[trigger] symbol_to_byte((a + b)[i])) is Some by {
        if i >= a.len() {
            assert((a + b)[i] == b[i - a.len()]);
        } else {
            assert((a + b)[i] == a[i]);
        }
    }
}

proof fn lemma_bpe_word_symbols(ranks: Ranks, w: Word)
    requires
        forall|k: int| 0 <= k < w.len() ==> symbol_string(#[trigger] w[k]),
    ensures
        forall|k: int|
            0 <= k < bpe_word(ranks, w).len() ==> symbol_string(#[trigger] bpe_word(ranks, w)[k]),
    decreases w.len(),
{
    if let Some(p) = crate::bpe::best_pair(ranks, w) {
        let next = crate::bpe::merge_pass(w, p.0, p.1);
        crate::bpe::lemma_merge_shrinks(ranks, w);
        crate::bpe::lemma_merge_pass_elements(w, p.0, p.1);
        let i = choose|i: int| 0 <= i < w.len() - 1 && #[trigger] crate::bpe::pair_at(w, i) == p;
        assert(symbol_string(w[i]) && symbol_string(w[i + 1]));
        lemma_symbol_string_concat(p.0, p.1);
        assert forall|k: int| 0 <= k < next.len() implies symbol_string(#[trigger] next[k]) by {
            if next[k] != p.0 + p.1 {
                let j = choose|j: int| 0 <= j < w.len() && next[k] == w[j];
                assert(symbol_string(w[j]));
            }
        }
        if next.len() != 1 {
            lemma_bpe_word_symbols(ranks, next);
            assert(bpe_word(ranks, w) == bpe_word(ranks, next));
        } else {
            assert(bpe_word(ranks, w) == next);
        }
    } else {
        assert(bpe_word(ranks, w) == w);
    }
}

proof fn lemma_lookup_symbol_ids(vocab: Map<Seq<char>, u16>, w: Word)
    requires
        forall|k: int| 0 <= k < w.len() ==> symbol_string(#[trigger] w[k]),
        lookup_all(vocab, w) is Ok,
    ensures
        forall|k: int|
            0 <= k < lookup_all(vocab, w)->Ok_0.len() ==> symbol_id(
                vocab,
                #[trigger] lookup_all(vocab, w)->Ok_0[k],
            ),
    decreases w.len(),
{
    if w.len() > 0 {
        let w1 = w.drop_last();
        lemma_lookup_symbol_ids(vocab, w1);
        let ids = lookup_all(vocab, w)->Ok_0;
        let ids1 = lookup_all(vocab, w1)->Ok_0;
        assert(symbol_string(w[w.len() - 1]));
        assert forall|k: int| 0 <= k < ids.len() implies symbol_id(vocab, #[trigger] ids[k]) by {
            if k < ids1.len() {
                assert(ids[k] == ids1[k]);
            } else {
                assert(vocab[w.last()] == ids[k]);
            }
        }
    }
}

proof fn lemma_encode_symbol_ids(vocab: Map<Seq<char>, u16>, ranks: Ranks, cs: Seq<Seq<char>>)
    requires
        encode_chunks(vocab, ranks, cs) is Ok,
    ensures
        forall|k: int|
            0 <= k < encode_chunks(vocab, ranks, cs)->Ok_0.len() ==> symbol_id(
                vocab,
                #[trigger] encode_chunks(vocab, ranks, cs)->Ok_0[k],
            ),
    decreases cs.len(),
{
    if cs.len() > 0 {
        let c1 = cs.drop_last();
        lemma_encode_symbol_ids(vocab, ranks, c1);
        let tr = translate(cs.last());
        let w0 = initial_word(tr);
        assert forall|k: int| 0 <= k < w0.len() implies symbol_string(#[trigger] w0[k]) by {
            let b = encode_utf8(cs.last())[k];
            crate::codec::lemma_codec_bijection(b);
            assert(w0[k][0] == byte_to_symbol(b));
        }
        lemma_bpe_word_symbols(ranks, w0);
        let w = bpe_word(ranks, w0);
        lemma_lookup_symbol_ids(vocab, w);
        let ids1 = encode_chunks(vocab, ranks, c1)->Ok_0;
        let t = lookup_all(vocab, w)->Ok_0;
        let ids = encode_chunks(vocab, ranks, cs)->Ok_0;
        assert(ids == ids1 + t);
        assert forall|k: int| 0 <= k < ids.len() implies symbol_id(vocab, #[trigger] ids[k]) by {
            if k < ids1.len() {
                assert(ids[k] == ids1[k]);
            } else {
                assert(ids[k] == t[k - ids1.len()]);
            }
        }
    }
}

proof fn lemma_symbol_string_bytes(s: Seq<char>)
    requires
        symbol_string(s),
    ensures
        bytes_of(s) is Ok,
    decreases s.len(),
{
    if s.len() > 0 {
        let s1 = s.drop_last();
        assert forall|i: int| 0 <= i < s1.len() implies (#[trigger] symbol_to_byte(s1[i])) is Some by {
            assert(s1[i] == s[i]);
        }
        lemma_symbol_string_bytes(s1);
        assert(symbol_to_byte(s[s.len() - 1]) is Some);
    }
}

impl Tokenizer {
    /// The bytes that token `id` stands for, if the vocabulary has the id
    /// and its symbol is made of codec symbols.
    fn token_bytes(&self, id: u16) -> (r: Option<Vec<u8>>)
        requires
            self.wf(),
        ensures
            r matches Some(b) ==> self.decoder().contains_key(id) && bytes_of(self.decoder()[id])
                == Ok::<Seq<u8>, char>(b@),
            r is None ==> !(self.decoder().contains_key(id) && bytes_of(self.decoder()[id]) is Ok),
    {
        let sym = match self.token_decoder.get(&id) {
            Some(s) => s,
            None => {
                return None;
            },
        };
        let chars = chars_of(sym.as_str());
        let ghost s = chars@;
        let mut bytes: Vec<u8> = Vec::new();
        let mut k: usize = 0;
        while k < chars.len()
            invariant
                self.wf(),
                s == chars@,
                s == self.decoder()[id],
                k <= s.len(),
                bytes_of(s.take(k as int)) == Ok::<Seq<u8>, char>(bytes@),
            decreases s.len() - k,
        {
            let c = chars[k];
            proof {
                assert(s.take(k + 1).drop_last() =~= s.take(k as int));
                assert(s.take(k + 1).last() == c);
            }
            match decode_symbol(&self.byte_decoder, c) {
                Some(b) => {
                    bytes.push(b);
                },
                None => {
                    proof {
                        assert(bytes_of(s.take(k + 1)) == Err::<Seq<u8>, char>(c));
                        lemma_bytes_prefix_err(s, k as int + 1);
                    }
                    return None;
                },
            }
            k = k + 1;
        }
        assert(s.take(k as int) =~= s);
        Some(bytes)
    }

    /// The tokens of `text`, each with the text it stands for.
    pub fn token_list(&self, text: &str) -> (r: Result<Vec<TokenizeOutput>, EncodeError>)
        requires
            self.wf(),
        ensures
            match encode_text(self.vocab(), self.ranks(), text@) {
                Err(s) => r matches Err(EncodeError::VocabMiss(x)) && x@ == s,
                Ok(ids) => r matches Ok(v) && v@.len() == ids.len() && forall|k: int|
                    0 <= k < ids.len() ==> {
                        &&& (#[trigger] v@[k]).token == ids[k]
                        &&& v@[k].symbol@ == token_text(self.decoder(), ids[k])
                        &&& (decode_ids(self.decoder(), seq![ids[k]]) matches Ok(t) ==> v@[k].symbol@
                            == t)
                        &&& v@[k].start_pos == 0
                        &&& v@[k].end_pos == 0
                    },
            },
    {
        let tokens = match self.tokenize(text) {
            Ok(t) => t,
            Err(e) => {
                return Err(e);
            },
        };
        let ghost ids = tokens@;
        proof {
            lemma_encode_symbol_ids(self.vocab(), self.ranks(), chunks(text@));
        }
        let mut out: Vec<TokenizeOutput> = Vec::new();
        let mut k: usize = 0;
        while k < tokens.len()
            invariant
                self.wf(),
                ids == tokens@,
                forall|j: int| 0 <= j < ids.len() ==> symbol_id(self.vocab(), #[trigger] ids[j]),
                k <= ids.len(),
                out@.len() == k,
                forall|j: int|
                    0 <= j < k ==> {
                        &&& (#[trigger] out@[j]).token == ids[j]
                        &&& out@[j].symbol@ == token_text(self.decoder(), ids[j])
                        &&& (decode_ids(self.decoder(), seq![ids[j]]) matches Ok(t) ==> out@[j].symbol@
                            == t)
                        &&& out@[j].start_pos == 0
                        &&& out@[j].end_pos == 0
                    },
            decreases ids.len() - k,
        {
            let id = tokens[k];
            proof {
                assert(symbol_id(self.vocab(), id));
                let s = choose|s: Seq<char>|
                    self.vocab().contains_key(s) && self.vocab()[s] == id && symbol_string(s);
                let inv = inverse(self.vocab());
                assert(crate::vocab::has_id(self.vocab(), id));
                let s2 = choose|t: Seq<char>| self.vocab().contains_key(t) && self.vocab()[t] == id;
                assert(self.vocab()[s2] == self.vocab()[s]);
                lemma_symbol_string_bytes(s);
            }
            match self.token_bytes(id) {
                Some(b) => {
                    let symbol = text_lossy(b.as_slice());
                    proof {
                        let one = seq![id];
                        assert(one.drop_last() =~= Seq::<u16>::empty());
                        assert(symbols_of(self.decoder(), Seq::<u16>::empty()) == Ok::<
                            Seq<char>,
                            u16,
                        >(Seq::<char>::empty()));
                        assert(one.last() == id);
                        assert(Seq::<char>::empty() + self.decoder()[id] =~= self.decoder()[id]);
                        assert(symbols_of(self.decoder(), one) == Ok::<Seq<char>, u16>(
                            self.decoder()[id],
                        ));
                    }
                    out.push(TokenizeOutput { symbol, token: id, start_pos: 0, end_pos: 0 });
                },
                None => {
                    proof {
                        assert(false);
                    }
                    return Ok(out);
                },
            }
            k = k + 1;
        }
        Ok(out)
    }
}

} // verus!
verus! {

/// Artifacts in which every byte symbol and every merge result is a
/// vocabulary key, as the published GPT-2 artifacts are.
pub open spec fn closed_artifacts(vocab: Map<Seq<char>, u16>, ranks: Ranks) -> bool {
    &&& forall|b: u8| #[trigger] vocab.contains_key(seq![byte_to_symbol(b)])
    &&& forall|p: crate::bpe::Pair| #[trigger] ranks.contains_key(p) ==> vocab.contains_key(p.0 + p.1)
}

proof fn lemma_bpe_word_in_vocab(vocab: Map<Seq<char>, u16>, ranks: Ranks, w: Word)
    requires
        closed_artifacts(vocab, ranks),
        forall|k: int| 0 <= k < w.len() ==> vocab.contains_key(#[trigger] w[k]),
    ensures
        forall|k: int|
            0 <= k < bpe_word(ranks, w).len() ==> vocab.contains_key(#[trigger] bpe_word(ranks, w)[k]),
    decreases w.len(),
{
    if let Some(p) = crate::bpe::best_pair(ranks, w) {
        let next = crate::bpe::merge_pass(w, p.0, p.1);
        crate::bpe::lemma_merge_shrinks(ranks, w);
        crate::bpe::lemma_merge_pass_elements(w, p.0, p.1);
        assert(ranks.contains_key(p));
        assert forall|k: int| 0 <= k < next.len() implies vocab.contains_key(#[trigger] next[k]) by {
            if next[k] != p.0 + p.1 {
                let j = choose|j: int| 0 <= j < w.len() && next[k] == w[j];
                assert(vocab.contains_key(w[j]));
            }
        }
        if next.len() != 1 {
            lemma_bpe_word_in_vocab(vocab, ranks, next);
            assert(bpe_word(ranks, w) == bpe_word(ranks, next));
        } else {
            assert(bpe_word(ranks, w) == next);
        }
    } else {
        assert(bpe_word(ranks, w) == w);
    }
}

proof fn lemma_lookup_all_ok(vocab: Map<Seq<char>, u16>, w: Word)
    requires
        forall|k: int| 0 <= k < w.len() ==> vocab.contains_key(#[trigger] w[k]),
    ensures
        lookup_all(vocab, w) is Ok,
    decreases w.len(),
{
    if w.len() > 0 {
        let w1 = w.drop_last();
        assert forall|k: int| 0 <= k < w1.len() implies vocab.contains_key(#[trigger] w1[k]) by {
            assert(w1[k] == w[k]);
        }
        lemma_lookup_all_ok(vocab, w1);
        assert(vocab.contains_key(w[w.len() - 1]));
    }
}

/// With closed artifacts every list of chunks encodes.
proof fn lemma_encode_chunks_ok(vocab: Map<Seq<char>, u16>, ranks: Ranks, cs: Seq<Seq<char>>)
    requires
        closed_artifacts(vocab, ranks),
    ensures
        encode_chunks(vocab, ranks, cs) is Ok,
    decreases cs.len(),
{
    if cs.len() > 0 {
        lemma_encode_chunks_ok(vocab, ranks, cs.drop_last());
        let w0 = initial_word(translate(cs.last()));
        assert forall|k: int| 0 <= k < w0.len() implies vocab.contains_key(#[trigger] w0[k]) by {
            let b = encode_utf8(cs.last())[k];
            assert(w0[k] == seq![byte_to_symbol(b)]);
        }
        lemma_bpe_word_in_vocab(vocab, ranks, w0);
        lemma_lookup_all_ok(vocab, bpe_word(ranks, w0));
    }
}

/// With closed artifacts every text encodes, and decoding its ids gives the
/// text back.
pub proof fn lemma_round_trip_closed(tok: &Tokenizer, text: Seq<char>)
    requires
        tok.wf(),
        closed_artifacts(tok.vocab(), tok.ranks()),
    ensures
        encode_text(tok.vocab(), tok.ranks(), text) is Ok,
        decode_ids(tok.decoder(), encode_text(tok.vocab(), tok.ranks(), text)->Ok_0) == Ok::<
            Seq<char>,
            DecodeError,
        >(text),
{
    lemma_encode_chunks_ok(tok.vocab(), tok.ranks(), chunks(text));
    lemma_round_trip(tok, text);
}

} // verus!
