use pngme::chunk::{check_crc, Chunk, ChunkError};

fn secret() -> Vec<u8> {
    "This is where your secret message will be!".as_bytes().to_vec()
}

fn hello_record() -> Vec<u8> {
    vec![0, 0, 0, 5, 116, 101, 83, 116, 104, 101, 108, 108, 111, 161, 241, 197, 206]
}

#[test]
fn new_chunk_has_length_type_data_and_checksum() {
    let c = Chunk::new("RuSt".to_string(), secret());
    assert_eq!(c.length(), 42);
    assert_eq!(c.chunk_type().to_string(), "RuSt");
    assert_eq!(c.data(), secret().as_slice());
    assert_eq!(c.crc(), 2882656334);
    assert_eq!(c.data_as_string().unwrap(), "This is where your secret message will be!");
}

#[test]
fn checksum_covers_type_then_data() {
    assert_eq!(Chunk::new("teSt".to_string(), b"hello".to_vec()).crc(), 2716976590);
    assert_eq!(Chunk::new("IEND".to_string(), Vec::new()).crc(), 2923585666);
}

#[test]
fn checksum_covers_four_type_bytes_only() {
    let c = Chunk::new("abcde".to_string(), b"x".to_vec());
    assert_eq!(c.crc(), 3867260092);
    assert_eq!(c.chunk_type().to_string(), "abcde");
}

#[test]
fn chunk_serializes_in_wire_order() {
    let c = Chunk::new("teSt".to_string(), b"hello".to_vec());
    assert_eq!(c.as_bytes(), hello_record());
    let end = Chunk::new("IEND".to_string(), Vec::new());
    assert_eq!(end.as_bytes(), vec![0u8, 0, 0, 0, 73, 69, 78, 68, 174, 66, 96, 130]);
}

#[test]
fn long_data_has_a_big_endian_length() {
    let c = Chunk::new("daTa".to_string(), vec![7u8; 258]);
    let bytes = c.as_bytes();
    assert_eq!(bytes.len(), 270);
    assert_eq!(&bytes[0..4], &[0u8, 0, 1, 2]);
    let back = Chunk::try_from(&bytes).unwrap();
    assert_eq!(back.length(), 258);
    assert_eq!(back.data(), vec![7u8; 258].as_slice());
}

#[test]
fn chunk_reads_back_what_was_written() {
    let c = Chunk::new("RuSt".to_string(), secret());
    let back = Chunk::try_from(&c.as_bytes()).unwrap();
    assert_eq!(back.length(), c.length());
    assert_eq!(back.chunk_type().to_string(), c.chunk_type().to_string());
    assert_eq!(back.data(), c.data());
    assert_eq!(back.crc(), c.crc());
    assert_eq!(back.as_bytes(), c.as_bytes());
}

#[test]
fn chunk_reads_from_bytes() {
    let c = Chunk::try_from(&hello_record()).unwrap();
    assert_eq!(c.length(), 5);
    assert_eq!(c.chunk_type().to_string(), "teSt");
    assert_eq!(c.data(), b"hello");
    assert_eq!(c.crc(), 2716976590);
    assert_eq!(c.data_as_string().unwrap(), "hello");
}

#[test]
fn bytes_behind_the_record_are_not_read() {
    let mut bytes = hello_record();
    bytes.extend_from_slice(&[1, 2, 3]);
    let c = Chunk::try_from(&bytes).unwrap();
    assert_eq!(c.length(), 5);
    assert_eq!(c.as_bytes(), hello_record());
}

#[test]
fn wrong_checksum_is_refused() {
    for at in 13..17 {
        let mut bytes = hello_record();
        bytes[at] ^= 1;
        assert!(matches!(Chunk::try_from(&bytes), Err(ChunkError::CRC)));
    }
}

#[test]
fn every_flipped_data_bit_is_detected() {
    for at in 8..13 {
        for bit in 0..8 {
            let mut bytes = hello_record();
            bytes[at] ^= 1u8 << bit;
            assert!(matches!(Chunk::try_from(&bytes), Err(ChunkError::CRC)));
        }
    }
}

#[test]
fn flipped_type_bits_are_detected() {
    for at in 4..8 {
        for bit in 0..7 {
            let mut bytes = hello_record();
            bytes[at] ^= 1u8 << bit;
            assert!(matches!(Chunk::try_from(&bytes), Err(ChunkError::CRC)));
        }
        let mut bytes = hello_record();
        bytes[at] ^= 0x80;
        assert!(matches!(Chunk::try_from(&bytes), Err(ChunkError::TypeEncoding)));
    }
}

#[test]
fn short_input_is_truncated() {
    assert!(matches!(Chunk::try_from(&[]), Err(ChunkError::Truncated)));
    assert!(matches!(Chunk::try_from(&[0, 0, 0, 0]), Err(ChunkError::Truncated)));
    let bytes = hello_record();
    assert!(matches!(Chunk::try_from(&bytes[..16]), Err(ChunkError::Truncated)));
    assert!(matches!(Chunk::try_from(&bytes[..11]), Err(ChunkError::Truncated)));
    let huge = [255u8, 255, 255, 255, 116, 101, 83, 116, 0, 0, 0, 0, 0];
    assert!(matches!(Chunk::try_from(&huge), Err(ChunkError::Truncated)));
}

#[test]
fn type_that_is_not_text_is_refused_before_the_checksum() {
    let bytes = [0u8, 0, 0, 0, 255, 69, 78, 68, 174, 66, 96, 130];
    assert!(matches!(Chunk::try_from(&bytes), Err(ChunkError::TypeEncoding)));
}

#[test]
fn data_that_is_not_text_is_an_error() {
    let c = Chunk::new("biNa".to_string(), vec![0xff, 0xfe, 0x00]);
    assert!(matches!(c.data_as_string(), Err(ChunkError::DataEncoding)));
    let e = Chunk::new("emTy".to_string(), Vec::new());
    assert_eq!(e.data_as_string().unwrap(), "");
}

#[test]
fn checksum_gate_passes_equal_values_only() {
    assert_eq!(check_crc(5, 5), Ok(()));
    assert_eq!(check_crc(0, 0), Ok(()));
    assert_eq!(check_crc(5, 6), Err(ChunkError::CRC));
    assert_eq!(check_crc(u32::MAX, 0), Err(ChunkError::CRC));
}
