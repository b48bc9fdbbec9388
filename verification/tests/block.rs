use shardvault::block::{self, Block, BlockError};

#[test]
fn crc32c_known_vector() {
    assert_eq!(block::crc32c(b"123456789"), 0xE306_9283);
}

#[test]
fn crc32c_empty_input() {
    assert_eq!(block::crc32c(b""), 0);
}

#[test]
fn encode_decode_roundtrip() {
    let payload: Vec<u8> = (0..1000usize)
        .map(|i| ((i * 31 + 7) & 0xff) as u8)
        .collect();
    let lsn = 0x1122_3344_5566_7788;
    let flags = 0x5A;
    let encoded = block::encode(lsn, &payload, flags).unwrap();
    assert_eq!(encoded.len(), block::BLOCK_SIZE);
    let decoded = block::decode(&encoded).unwrap();
    assert_eq!(
        decoded,
        Block {
            lsn,
            flags,
            payload,
        }
    );
}

#[test]
fn max_payload_roundtrip() {
    let payload: Vec<u8> = (0..block::PAYLOAD_MAX).map(|i| (i & 0xff) as u8).collect();
    let encoded = block::encode(1, &payload, 0xFF).unwrap();
    let decoded = block::decode(&encoded).unwrap();
    assert_eq!(decoded.payload, payload);
}

#[test]
fn empty_payload_roundtrip() {
    let encoded = block::encode(7, &[], 0).unwrap();
    let decoded = block::decode(&encoded).unwrap();
    assert_eq!(
        decoded,
        Block {
            lsn: 7,
            flags: 0,
            payload: Vec::new(),
        }
    );
}

#[test]
fn payload_corruption_returns_crc_error() {
    let payload = vec![0xAB; 512];
    let mut encoded = block::encode(42, &payload, 0).unwrap();
    encoded[block::HEADER_SIZE + 128] ^= 0x01;
    assert_eq!(block::decode(&encoded), Err(BlockError::Crc));
}

#[test]
fn header_corruption_returns_crc_error() {
    let payload = vec![0xCD; 64];
    let mut encoded = block::encode(42, &payload, 0).unwrap();
    encoded[3] ^= 0x80;
    assert_eq!(block::decode(&encoded), Err(BlockError::Crc));
}

#[test]
fn encode_rejects_oversized_payload() {
    let payload = vec![0u8; block::PAYLOAD_MAX + 1];
    assert_eq!(block::encode(1, &payload, 0), Err(BlockError::Len));
}

#[test]
fn decode_rejects_oversized_len_field() {
    let mut raw = [0u8; block::BLOCK_SIZE];
    let bad_len = (block::PAYLOAD_MAX + 1) as u32;
    raw[8..12].copy_from_slice(&bad_len.to_le_bytes());
    assert_eq!(block::decode(&raw), Err(BlockError::Len));
}

#[test]
fn every_header_and_payload_byte_is_covered() {
    let payload: Vec<u8> = (0..40u8).collect();
    let good = block::encode(9, &payload, 3).unwrap();
    for p in 0..block::HEADER_SIZE + payload.len() {
        let mut bad = good;
        bad[p] ^= 0x10;
        assert!(block::decode(&bad).is_err(), "byte {p}");
    }
}

#[test]
fn header_fields_are_little_endian() {
    let encoded = block::encode(0x0102, &[0xEE; 5], 0x7F).unwrap();
    assert_eq!(&encoded[0..8], &[2, 1, 0, 0, 0, 0, 0, 0]);
    assert_eq!(&encoded[8..12], &[5, 0, 0, 0]);
    assert_eq!(encoded[16], 0x7F);
    assert_eq!(&encoded[17..24], &[0; 7]);
    assert_eq!(&encoded[24..30], &[0xEE, 0xEE, 0xEE, 0xEE, 0xEE, 0]);
}

#[test]
fn status_codes_map_to_errors() {
    assert_eq!(block::rc_to_result(0), Ok(()));
    assert_eq!(block::rc_to_result(-1), Err(BlockError::Invalid));
    assert_eq!(block::rc_to_result(-2), Err(BlockError::Crc));
    assert_eq!(block::rc_to_result(-3), Err(BlockError::Len));
    assert_eq!(block::rc_to_result(-42), Err(BlockError::Other(-42)));
}

#[test]
fn block_errors_have_words() {
    assert_eq!(BlockError::Invalid.message(), "invalid argument");
    assert_eq!(BlockError::Crc.message(), "CRC-32C verification failed");
    assert_eq!(BlockError::Len.message(), "payload length out of range");
    assert_eq!(BlockError::Other(-42).message(), "unknown C error code: -42");
    assert_eq!(BlockError::Other(7).message(), "unknown C error code: 7");
}

#[test]
fn a_changed_length_is_seen_only_through_the_bytes_it_covers() {
    // With the length taken for zero, the rest of the header has the same CRC
    // as the header and this payload have.
    let payload = [0x53, 0x96, 0x2d, 0x07, 0, 0, 0, 0];
    let mut encoded = block::encode(1, &payload, 0).unwrap();
    assert_eq!(encoded[8], 8);
    encoded[8] = 0;
    assert_eq!(block::decode(&encoded).unwrap().payload, Vec::<u8>::new());
    encoded[8] = 4;
    assert_eq!(block::decode(&encoded), Err(BlockError::Crc));
    encoded[10] = 1;
    assert_eq!(block::decode(&encoded), Err(BlockError::Len));
}
