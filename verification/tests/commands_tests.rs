use pngme::chunk::{Chunk, ChunkError};
use pngme::commands::{decode_message, encode_message, remove_message};
use pngme::png::Png;

fn two() -> Png {
    Png::from_chunks(vec![
        Chunk::new("FrSt".to_string(), b"one".to_vec()),
        Chunk::new("biNa".to_string(), vec![0xff, 0xfe]),
    ])
}

#[test]
fn encoded_message_is_the_last_chunk() {
    let mut png = two();
    encode_message(&mut png, "teSt", "hello");
    assert_eq!(png.chunks().len(), 3);
    let last = &png.chunks()[2];
    assert_eq!(last.length(), 5);
    assert_eq!(last.chunk_type().to_string(), "teSt");
    assert_eq!(last.data(), b"hello");
    assert_eq!(last.crc(), 2716976590);
}

#[test]
fn encoded_message_counts_bytes_not_characters() {
    let mut png = Png::from_chunks(Vec::new());
    encode_message(&mut png, "teSt", "h\u{e9}");
    assert_eq!(png.chunks()[0].length(), 3);
    assert_eq!(png.chunks()[0].data(), &[104u8, 0xC3, 0xA9]);
    assert_eq!(decode_message(&png, "teSt").unwrap(), "h\u{e9}");
}

#[test]
fn decoded_message_is_the_first_of_its_type() {
    let mut png = two();
    encode_message(&mut png, "FrSt", "later");
    assert_eq!(decode_message(&png, "FrSt").unwrap(), "one");
}

#[test]
fn decoding_a_missing_type_is_not_found() {
    assert!(matches!(decode_message(&two(), "none"), Err(ChunkError::NotFound)));
}

#[test]
fn decoding_data_that_is_not_text_is_an_error() {
    assert!(matches!(decode_message(&two(), "biNa"), Err(ChunkError::DataEncoding)));
}

#[test]
fn removed_message_is_gone() {
    let mut png = two();
    assert_eq!(remove_message(&mut png, "FrSt"), Ok(()));
    assert_eq!(png.chunks().len(), 1);
    assert_eq!(png.chunks()[0].chunk_type().to_string(), "biNa");
    assert_eq!(remove_message(&mut png, "FrSt"), Err(ChunkError::NotFound));
    assert_eq!(png.chunks().len(), 1);
}
