use touban::{
    base64url_char_to_hiragana, base64url_to_hiragana, decode_bytes, encode_bytes,
    hiragana_char_to_base64url, hiragana_to_base64url, LedgerError,
};

#[test]
fn symbol_maps_to_block_start_and_end() {
    assert_eq!(base64url_char_to_hiragana('A'), Some('\u{3041}'));
    assert_eq!(base64url_char_to_hiragana('a'), Some('\u{305b}'));
    assert_eq!(base64url_char_to_hiragana('0'), Some('\u{3075}'));
    assert_eq!(base64url_char_to_hiragana('-'), Some('\u{307f}'));
    assert_eq!(base64url_char_to_hiragana('_'), Some('\u{3080}'));
    assert_eq!(base64url_char_to_hiragana('='), None);
    assert_eq!(base64url_char_to_hiragana('+'), None);
}

#[test]
fn kana_maps_back_to_symbols() {
    assert_eq!(hiragana_char_to_base64url('\u{3041}'), Some('A'));
    assert_eq!(hiragana_char_to_base64url('\u{305a}'), Some('Z'));
    assert_eq!(hiragana_char_to_base64url('\u{3080}'), Some('_'));
    assert_eq!(hiragana_char_to_base64url('\u{3040}'), None);
    assert_eq!(hiragana_char_to_base64url('\u{3081}'), None);
    assert_eq!(hiragana_char_to_base64url('x'), None);
}

#[test]
fn every_symbol_round_trips() {
    let alphabet = "ABCDEFGHIJKLMNOPQRSTUVWXYZabcdefghijklmnopqrstuvwxyz0123456789-_";
    for (i, c) in alphabet.chars().enumerate() {
        let g = base64url_char_to_hiragana(c).unwrap();
        assert_eq!(g as u32, 0x3041 + i as u32);
        assert_eq!(hiragana_char_to_base64url(g), Some(c));
    }
}

#[test]
fn text_to_kana_and_back() {
    let kana = base64url_to_hiragana("aGVsbG8").unwrap();
    assert_eq!(kana, "せぇざねぜぇぽ");
    assert_eq!(hiragana_to_base64url(&kana), Ok("aGVsbG8".to_string()));
    assert_eq!(base64url_to_hiragana("aG=="), None);
}

#[test]
fn encode_hello_exact_token() {
    assert_eq!(encode_bytes(&b"hello".to_vec()), "せぇざねぜぇぽ");
    assert_eq!(encode_bytes(&vec![251, 255]), "みむぽ");
    assert_eq!(encode_bytes(&Vec::new()), "");
}

#[test]
fn decode_reads_payload_back() {
    assert_eq!(decode_bytes("せぇざねぜぇぽ"), Ok(b"hello".to_vec()));
    assert_eq!(decode_bytes(""), Ok(Vec::new()));
}

#[test]
fn payload_round_trip() {
    let payloads: Vec<Vec<u8>> = vec![
        Vec::new(),
        vec![0],
        vec![255, 254, 253],
        b"{\"people\":2,\"interval\":7,\"members\":[]}".to_vec(),
        (0..=255u8).collect(),
    ];
    for p in payloads {
        let t = encode_bytes(&p);
        assert!(t.chars().all(|c| (0x3041..0x3081).contains(&(c as u32))));
        assert_eq!(decode_bytes(&t), Ok(p));
    }
}

#[test]
fn decode_rejects_foreign_character_anywhere() {
    let t = encode_bytes(&b"hello world".to_vec());
    let chars: Vec<char> = t.chars().collect();
    for pos in 0..=chars.len() {
        let mut bad = chars.clone();
        bad.insert(pos, 'x');
        let s: String = bad.into_iter().collect();
        assert_eq!(decode_bytes(&s), Err(LedgerError::InvalidTokenCharacter));
    }
    assert_eq!(decode_bytes("\u{3040}"), Err(LedgerError::InvalidTokenCharacter));
    assert_eq!(hiragana_to_base64url("aぁ"), Err(LedgerError::InvalidTokenCharacter));
}

#[test]
fn decode_rejects_corrupt_base64() {
    // One symbol cannot hold a whole byte.
    assert_eq!(decode_bytes("\u{3041}"), Err(LedgerError::CorruptBase64));
    // "aGVsbG9" carries trailing bits that a canonical encoder never writes.
    let t = base64url_to_hiragana("aGVsbG9").unwrap();
    assert_eq!(decode_bytes(&t), Err(LedgerError::CorruptBase64));
}
