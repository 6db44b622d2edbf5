use std::path::Path;
use wyrd::embeddings::{decode_embedding, encode_embedding, EmbeddingError, EMBEDDING_DIM};

fn to_bits(values: &[f32]) -> Vec<u32> {
    values.iter().map(|v| v.to_bits()).collect()
}

fn from_bits(words: &[u32]) -> Vec<f32> {
    words.iter().map(|w| f32::from_bits(*w)).collect()
}

#[test]
fn encode_decode_roundtrip() {
    let original: Vec<f32> = (0..EMBEDDING_DIM).map(|index| index as f32 * 0.01).collect();
    let encoded = encode_embedding(&to_bits(&original));
    let decoded = decode_embedding(&encoded).expect("decode should succeed");
    assert_eq!(from_bits(&decoded), original);
}

#[test]
fn decode_embedding_rejects_bad_length() {
    let bad = vec![0u8; 5];
    assert!(decode_embedding(&bad).is_err());
}

#[test]
fn encode_writes_little_endian_f32_bytes() {
    let values = [1.0f32, -2.5, 0.0, 3.25e-3];
    let encoded = encode_embedding(&to_bits(&values));
    let mut expected = Vec::new();
    for v in values {
        expected.extend_from_slice(&v.to_le_bytes());
    }
    assert_eq!(encoded, expected);
    assert_eq!(encode_embedding(&[0x0403_0201]), vec![1, 2, 3, 4]);
}

#[test]
fn decode_reads_little_endian_words() {
    let decoded = decode_embedding(&[1, 2, 3, 4, 0xff, 0, 0, 0x80]).expect("decode");
    assert_eq!(decoded, vec![0x0403_0201, 0x8000_00ff]);
    assert_eq!(decode_embedding(&[]).expect("empty decodes"), Vec::<u32>::new());
}

#[test]
fn decode_bad_length_reports_the_length() {
    match decode_embedding(&[0u8; 7]) {
        Err(EmbeddingError::InvalidData(msg)) => {
            assert_eq!(msg, "embedding blob length 7 is not a multiple of 4")
        }
        _ => panic!("expected InvalidData"),
    }
    let err = decode_embedding(&[0u8; 1234]).expect_err("1234 is not a multiple of 4");
    assert_eq!(
        err.message(),
        "invalid embedding data: embedding blob length 1234 is not a multiple of 4"
    );
}

#[test]
fn embedding_error_messages() {
    assert_eq!(EmbeddingError::ModelLoad("x".into()).message(), "model load error: x");
    assert_eq!(EmbeddingError::TokenizerLoad("y".into()).message(), "tokenizer load error: y");
    assert_eq!(EmbeddingError::Inference("z".into()).message(), "inference error: z");
    assert_eq!(EmbeddingError::InvalidData("w".into()).message(), "invalid embedding data: w");
}

#[test]
fn tokenizer_path_rules() {
    assert_eq!(
        wyrd::embeddings::tokenizer_path(Some("/t/tok.json"), Some("/m/model.onnx")),
        Some("/t/tok.json".to_string())
    );
    for model in ["/models/minilm/model.onnx", "model.onnx", "/model.onnx", "a/b/", "/"] {
        let dir = Path::new(model).parent().unwrap_or(Path::new("."));
        let expected = dir.join("tokenizer.json").to_string_lossy().to_string();
        assert_eq!(wyrd::embeddings::tokenizer_path(None, Some(model)), Some(expected), "{}", model);
    }
    assert_eq!(wyrd::embeddings::tokenizer_path(None, Some("/models/x.onnx")), Some("/models/tokenizer.json".to_string()));
    assert_eq!(wyrd::embeddings::tokenizer_path(None, None), None);
}
