use crate::error::LedgerError;
use base64::engine::general_purpose::URL_SAFE_NO_PAD;
use base64::Engine;
use vstd::prelude::*;

verus! {

/// First code point of the kana block that tokens are written in.
pub const BLOCK_START: u32 = 0x3041;

/// Number of symbols in the base64 alphabet, and of code points in the block.
pub const BLOCK_LEN: u32 = 64;

/// The position of `c` in the URL-safe base64 alphabet
/// (`A`-`Z`, `a`-`z`, `0`-`9`, `-`, `_`), or -1 when it is not one of them.
pub open spec fn symbol_index(c: char) -> int {
    let u = c as int;
    if 65 <= u <= 90 {
        u - 65
    } else if 97 <= u <= 122 {
        u - 71
    } else if 48 <= u <= 57 {
        u + 4
    } else if u == 45 {
        62
    } else if u == 95 {
        63
    } else {
        -1
    }
}

pub open spec fn is_symbol(c: char) -> bool {
    symbol_index(c) >= 0
}

/// The base64 symbol at position `i` (0 to 63) of the alphabet.
pub open spec fn symbol_at(i: int) -> char {
    if i < 26 {
        (i + 65) as char
    } else if i < 52 {
        (i + 71) as char
    } else if i < 62 {
        (i - 4) as char
    } else if i == 62 {
        '-'
    } else {
        '_'
    }
}

/// Whether `c` lies in the 64 code points of the token block.
pub open spec fn in_block(c: char) -> bool {
    BLOCK_START <= c as int && (c as int) < BLOCK_START + BLOCK_LEN
}

/// The kana that stands for the base64 symbol `c`.
pub open spec fn glyph_of(c: char) -> char {
    (BLOCK_START + symbol_index(c)) as char
}

/// The base64 symbol that the kana `g` stands for.
pub open spec fn symbol_of_glyph(g: char) -> char {
    symbol_at(g as int - BLOCK_START)
}

pub open spec fn all_symbols(s: Seq<char>) -> bool {
    forall|i: int| 0 <= i < s.len() ==> is_symbol(#[trigger] s[i])
}

pub open spec fn all_in_block(s: Seq<char>) -> bool {
    forall|i: int| 0 <= i < s.len() ==> in_block(#[trigger] s[i])
}

pub open spec fn glyphs_of(s: Seq<char>) -> Seq<char> {
    s.map_values(|c: char| glyph_of(c))
}

pub open spec fn symbols_of(t: Seq<char>) -> Seq<char> {
    t.map_values(|g: char| symbol_of_glyph(g))
}

/// The unpadded URL-safe base64 text of `b`.
pub uninterp spec fn b64_encode_of(b: Seq<u8>) -> Seq<char>;

/// The bytes that the unpadded URL-safe base64 text `s` stands for, if it is valid.
pub uninterp spec fn b64_decode_of(s: Seq<char>) -> Option<Seq<u8>>;

/// The token that carries the payload `b`.
pub open spec fn token_of(b: Seq<u8>) -> Seq<char> {
    glyphs_of(b64_encode_of(b))
}

/// What reading the token `t` gives.
pub open spec fn bytes_of_token(t: Seq<char>) -> Result<Seq<u8>, LedgerError> {
    if !all_in_block(t) {
        Err(LedgerError::InvalidTokenCharacter)
    } else {
        match b64_decode_of(symbols_of(t)) {
            Some(b) => Ok(b),
            None => Err(LedgerError::CorruptBase64),
        }
    }
}

/// Each base64 symbol comes back from its kana, and each kana from its symbol.
pub proof fn lemma_glyph_symbol_inverse(c: char, g: char)
    ensures
        is_symbol(c) ==> in_block(glyph_of(c)) && symbol_of_glyph(glyph_of(c)) == c,
        in_block(g) ==> is_symbol(symbol_of_glyph(g)) && glyph_of(symbol_of_glyph(g)) == g,
{
}

/// Mapping a string of base64 symbols to kana and back gives the string again.
pub proof fn lemma_glyphs_round_trip(s: Seq<char>)
    requires
        all_symbols(s),
    ensures
        all_in_block(glyphs_of(s)),
        symbols_of(glyphs_of(s)) == s,
{
    assert forall|i: int| 0 <= i < s.len() implies in_block(#[trigger] glyphs_of(s)[i])
        && symbols_of(glyphs_of(s))[i] == s[i] by {
        lemma_glyph_symbol_inverse(s[i], s[i]);
    }
    assert(symbols_of(glyphs_of(s)) =~= s);
}

/// Relies on `char::from_u32`: it gives the char of every Unicode scalar value.
#[verifier::external_body]
fn char_from_u32(n: u32) -> (r: Option<char>)
    ensures
        (n < 0xD800 || (0xE000 <= n && n <= 0x10FFFF)) ==> r == Some(n as char),
{
    std::char::from_u32(n)
}

/// Relies on `str::chars`: the characters of `s`, in order.
#[verifier::external_body]
pub(crate) fn chars_of(s: &str) -> (r: Vec<char>)
    ensures
        r@ == s@,
{
    s.chars().collect()
}

/// Relies on `String`'s `FromIterator<char>`: a string of these characters, in order.
#[verifier::external_body]
pub(crate) fn string_of(v: &Vec<char>) -> (r: String)
    ensures
        r@ == v@,
{
    v.iter().collect()
}

/// Relies on base64's `URL_SAFE_NO_PAD.encode`: its output is the (named)
/// unpadded base64 text of the input, written in the URL-safe alphabet.
#[verifier::external_body]
fn b64_encode(b: &Vec<u8>) -> (r: Vec<char>)
    ensures
        r@ == b64_encode_of(b@),
        all_symbols(r@),
{
    URL_SAFE_NO_PAD.encode(b).chars().collect()
}

/// Relies on base64's `URL_SAFE_NO_PAD.decode`: it fails exactly on malformed
/// input, and gives back the bytes of any text that `encode` produced.
#[verifier::external_body]
fn b64_decode(s: &Vec<char>) -> (r: Option<Vec<u8>>)
    ensures
        match r {
            Some(v) => b64_decode_of(s@) == Some(v@),
            None => b64_decode_of(s@) is None,
        },
        forall|b: Seq<u8>| #[trigger] b64_encode_of(b) == s@ ==> r is Some && r->0@ == b,
{
    let text: String = s.iter().collect();
    URL_SAFE_NO_PAD.decode(text).ok()
}

/// The kana for one base64 symbol, or `None` for a character outside the alphabet.
pub fn base64url_char_to_hiragana(ch: char) -> (r: Option<char>)
    ensures
        r == (if is_symbol(ch) { Some(glyph_of(ch)) } else { None::<char> }),
{
    let u = ch as u32;
    let idx: u32 = if 65 <= u && u <= 90 {
        u - 65
    } else if 97 <= u && u <= 122 {
        u - 71
    } else if 48 <= u && u <= 57 {
        u + 4
    } else if u == 45 {
        62
    } else if u == 95 {
        63
    } else {
        return None;
    };
    char_from_u32(BLOCK_START + idx)
}

/// The base64 symbol for one kana, or `None` for a character outside the block.
pub fn hiragana_char_to_base64url(ch: char) -> (r: Option<char>)
    ensures
        r == (if in_block(ch) { Some(symbol_of_glyph(ch)) } else { None::<char> }),
{
    let cp = ch as u32;
    if cp < BLOCK_START || cp >= BLOCK_START + BLOCK_LEN {
        return None;
    }
    let idx = cp - BLOCK_START;
    if idx < 26 {
        char_from_u32(idx + 65)
    } else if idx < 52 {
        char_from_u32(idx + 71)
    } else if idx < 62 {
        char_from_u32(idx - 4)
    } else if idx == 62 {
        Some('-')
    } else {
        Some('_')
    }
}

/// Writes base64 text in kana; `None` when a character is not a base64 symbol.
pub fn base64url_to_hiragana(b64: &str) -> (r: Option<String>)
    ensures
        r is Some <==> all_symbols(b64@),
        r matches Some(t) ==> t@ == glyphs_of(b64@),
{
    let chars = chars_of(b64);
    let mut out: Vec<char> = Vec::new();
    let mut i: usize = 0;
    while i < chars.len()
        invariant
            chars@ == b64@,
            i <= chars.len(),
            all_symbols(chars@.take(i as int)),
            out@ == glyphs_of(chars@.take(i as int)),
        decreases chars.len() - i,
    {
        match base64url_char_to_hiragana(chars[i]) {
            Some(g) => out.push(g),
            None => {
                assert(!is_symbol(b64@[i as int]));
                return None;
            },
        }
        assert(chars@.take(i + 1) == chars@.take(i as int).push(chars@[i as int]));
        i = i + 1;
        assert(out@ =~= glyphs_of(chars@.take(i as int)));
    }
    assert(chars@.take(i as int) == chars@);
    Some(string_of(&out))
}

/// Reads kana back into base64 text; fails on the first character outside the block.
pub fn hiragana_to_base64url(hira: &str) -> (r: Result<String, LedgerError>)
    ensures
        r is Ok <==> all_in_block(hira@),
        r matches Ok(t) ==> t@ == symbols_of(hira@),
        r matches Err(e) ==> e == LedgerError::InvalidTokenCharacter,
{
    let chars = chars_of(hira);
    let out = symbols_from_kana(&chars)?;
    Ok(string_of(&out))
}

fn symbols_from_kana(chars: &Vec<char>) -> (r: Result<Vec<char>, LedgerError>)
    ensures
        r is Ok <==> all_in_block(chars@),
        r matches Ok(t) ==> t@ == symbols_of(chars@),
        r matches Err(e) ==> e == LedgerError::InvalidTokenCharacter,
{
    let mut out: Vec<char> = Vec::new();
    let mut i: usize = 0;
    while i < chars.len()
        invariant
            i <= chars.len(),
            all_in_block(chars@.take(i as int)),
            out@ == symbols_of(chars@.take(i as int)),
        decreases chars.len() - i,
    {
        match hiragana_char_to_base64url(chars[i]) {
            Some(c) => out.push(c),
            None => {
                assert(!in_block(chars@[i as int]));
                return Err(LedgerError::InvalidTokenCharacter);
            },
        }
        assert(chars@.take(i + 1) == chars@.take(i as int).push(chars@[i as int]));
        i = i + 1;
        assert(out@ =~= symbols_of(chars@.take(i as int)));
    }
    assert(chars@.take(i as int) == chars@);
    Ok(out)
}

/// The token that carries `payload`. It never fails.
pub fn encode_bytes(payload: &Vec<u8>) -> (r: String)
    ensures
        r@ == token_of(payload@),
        all_in_block(r@),
        all_symbols(b64_encode_of(payload@)),
{
    let symbols = b64_encode(payload);
    let mut out: Vec<char> = Vec::new();
    let mut i: usize = 0;
    while i < symbols.len()
        invariant
            i <= symbols.len(),
            all_symbols(symbols@),
            out@ == glyphs_of(symbols@.take(i as int)),
        decreases symbols.len() - i,
    {
        let g = match base64url_char_to_hiragana(symbols[i]) {
            Some(g) => g,
            None => {
                assert(is_symbol(symbols@[i as int]));
                '_'
            },
        };
        out.push(g);
        assert(symbols@.take(i + 1) == symbols@.take(i as int).push(symbols@[i as int]));
        i = i + 1;
        assert(out@ =~= glyphs_of(symbols@.take(i as int)));
    }
    assert(symbols@.take(i as int) == symbols@);
    proof {
        lemma_glyphs_round_trip(symbols@);
    }
    string_of(&out)
}

/// The payload carried by `token`. A character outside the kana block gives
/// `InvalidTokenCharacter`; symbols that are not valid base64 give
/// `CorruptBase64`. Every token that `encode_bytes` made reads back as its payload.
pub fn decode_bytes(token: &str) -> (r: Result<Vec<u8>, LedgerError>)
    ensures
        r matches Ok(b) ==> bytes_of_token(token@) == Ok::<Seq<u8>, LedgerError>(b@),
        r matches Err(e) ==> bytes_of_token(token@) == Err::<Seq<u8>, LedgerError>(e),
        forall|b: Seq<u8>|
            token@ == token_of(b) && all_symbols(b64_encode_of(b)) ==> (r matches Ok(v) && v@
                == b),
{
    let chars = chars_of(token);
    let symbols = symbols_from_kana(&chars)?;
    proof {
        assert forall|b: Seq<u8>|
            token@ == token_of(b) && all_symbols(b64_encode_of(b)) implies symbols@
            == b64_encode_of(b) by {
            lemma_glyphs_round_trip(b64_encode_of(b));
        }
    }
    match b64_decode(&symbols) {
        Some(v) => Ok(v),
        None => Err(LedgerError::CorruptBase64),
    }
}

} // verus!
