//! Embedding text composition and the vector codec.

use ook::embed::get_embedding_text;
use ook::vector::{deserialize_embedding, serialize_embedding};

#[test]
fn test_get_embedding_text() {
    let text = get_embedding_text(
        "The Great Book",
        &["John Doe".to_string()],
        "A wonderful story",
    );
    assert_eq!(text, "The Great Book by John Doe A wonderful story");

    let text_no_author = get_embedding_text("Title Only", &[], "Description here");
    assert_eq!(text_no_author, "Title Only Description here");

    let text_no_desc = get_embedding_text("Book", &["Author".to_string()], "");
    assert_eq!(text_no_desc, "Book by Author");
}

#[test]
fn compose_text_joins_authors_with_commas() {
    let text = get_embedding_text(
        "T",
        &["A".to_string(), "B".to_string()],
        "",
    );
    assert_eq!(text, "T by A, B");
}

#[test]
fn test_embedding_serialization() {
    let embedding: Vec<f32> = vec![1.0, 2.0, 3.0];
    let bits: Vec<u32> = embedding.iter().map(|f| f.to_bits()).collect();
    let blob = serialize_embedding(&bits);
    assert_eq!(blob.len(), 12); // 3 * 4 bytes

    // Verify little-endian format
    let first: f32 = f32::from_le_bytes(blob[0..4].try_into().unwrap());
    assert_eq!(first, 1.0);
}

#[test]
fn vector_round_trip() {
    let values: Vec<f32> = vec![1.0, 2.0, 3.0];
    let bits: Vec<u32> = values.iter().map(|f| f.to_bits()).collect();
    let blob = serialize_embedding(&bits);
    assert_eq!(blob.len(), 12);
    let back = deserialize_embedding(&blob).unwrap();
    assert_eq!(back, bits);
    let floats: Vec<f32> = back.iter().map(|b| f32::from_bits(*b)).collect();
    assert_eq!(floats, values);
}

#[test]
fn vector_decode_rejects_ragged_blobs() {
    let blob: Vec<u8> = vec![0, 0, 128];
    assert!(deserialize_embedding(&blob).is_none());
}
