use caption_core::embedding::{decode_embedding_bits, encode_embedding_bits, EmbeddingDecodeError};

fn encode_embedding(values: &[f32]) -> String {
    encode_embedding_bits(&values.iter().map(|v| v.to_bits()).collect())
}

fn decode_embedding(b64: &str) -> Result<Vec<f32>, EmbeddingDecodeError> {
    decode_embedding_bits(b64).map(|bits| bits.into_iter().map(f32::from_bits).collect())
}

#[test]
fn embedding_roundtrip() {
    let values = vec![1.0f32, -2.5, 3.14, 0.0, f32::MIN_POSITIVE];
    let b64 = encode_embedding(&values);
    let back = decode_embedding(&b64).unwrap();
    assert_eq!(values, back);
}

#[test]
fn embedding_known_encoding() {
    // 1.0f32 is 0x3f800000, little-endian 00 00 80 3f.
    assert_eq!(encode_embedding(&[1.0]), "AACAPw==");
    assert_eq!(encode_embedding(&[]), "");
    assert_eq!(decode_embedding("AACAPw==").unwrap(), vec![1.0f32]);
}

#[test]
fn embedding_decode_ignores_partial_tail() {
    // five bytes: one whole value and a stray byte
    assert_eq!(decode_embedding_bits("AACAPwE=").unwrap(), vec![0x3f80_0000u32]);
}

#[test]
fn embedding_decode_rejects_invalid_base64() {
    assert_eq!(decode_embedding_bits("not base64!"), Err(EmbeddingDecodeError::InvalidByte(3, b' ')));
    assert!(matches!(decode_embedding_bits("AAAAA"), Err(EmbeddingDecodeError::InvalidLength(_))));
    assert!(matches!(decode_embedding_bits("AAB="), Err(EmbeddingDecodeError::InvalidLastSymbol(2, b'B'))));
    assert!(decode_embedding("@@@@").is_err());
}

#[test]
fn embedding_bits_standard_alphabet() {
    // bytes 00..07: two whole groups of three and a padded pair
    assert_eq!(encode_embedding_bits(&vec![0x0302_0100, 0x0706_0504]), "AAECAwQFBgc=");
    // the two symbols past the letters and digits
    assert_eq!(encode_embedding_bits(&vec![0xfcfd_feff]), "//79/A==");
    assert_eq!(decode_embedding_bits("//79/A=="), Ok(vec![0xfcfd_feffu32]));
}
