use nesso::storage::record::{OpType, Record, HEADER_SIZE, MAGIC_BYTE};

#[test]
fn test_roundtrip_basic() {
    let rec = Record::new(42, OpType::Created, 10, b"hello".to_vec());
    let encoded = rec.encode();
    let decoded = Record::decode(&encoded).expect("Decode failed");

    assert_eq!(decoded.id(), 42);
    assert_eq!(decoded.op_type(), OpType::Created);
    assert_eq!(decoded.priority(), 10);
    assert_eq!(decoded.payload(), b"hello");
}

#[test]
fn test_roundtrip_empty_payload() {
    let rec = Record::new(99, OpType::Acked, 0, vec![]);
    let encoded = rec.encode();
    let decoded = Record::decode(&encoded).expect("Decode failed");

    assert_eq!(decoded.id(), 99);
    assert_eq!(decoded.op_type(), OpType::Acked);
    assert_eq!(decoded.payload().len(), 0);
}

#[test]
fn test_roundtrip_large_payload() {
    let large_payload = vec![0x42; 5000]; // 5KB
    let rec = Record::new(1, OpType::Created, 5, large_payload.clone());
    let encoded = rec.encode();
    let decoded = Record::decode(&encoded).expect("Decode failed");

    assert_eq!(decoded.payload(), large_payload.as_slice());
}

#[test]
fn test_invalid_checksum() {
    let rec = Record::new(1, OpType::Created, 1, b"test".to_vec());
    let mut encoded = rec.encode();

    // Corrupt payload byte
    let len = encoded.len();
    encoded[len - 1] ^= 0xFF;

    assert!(Record::decode(&encoded).is_none(), "Should fail checksum validation");
}

#[test]
fn test_invalid_magic_byte() {
    let rec = Record::new(1, OpType::Created, 1, b"test".to_vec());
    let mut encoded = rec.encode();

    // Corrupt magic byte
    encoded[0] = 0x00;

    assert!(Record::decode(&encoded).is_none(), "Should fail magic byte validation");
}

#[test]
fn test_crc32_bit_flip_single_bit_matrix() {
    let rec = Record::new(987654321, OpType::Created, 128, vec![0x37; 50]);
    let encoded = rec.encode();
    assert_eq!(encoded.len(), HEADER_SIZE + 50);

    // Baseline: unmodified buffer decodes cleanly
    let baseline = Record::decode(&encoded).expect("Baseline record must decode");
    assert_eq!(baseline.id(), 987654321);
    assert_eq!(baseline.op_type(), OpType::Created);
    assert_eq!(baseline.priority(), 128);
    assert_eq!(baseline.payload().len(), 50);

    let mut total_flips = 0;
    let mut rejected_flips = 0;

    // Test every bit flip across every byte of the record
    for byte_idx in 0..encoded.len() {
        for bit in 0..8 {
            let mut corrupted = encoded.clone();
            corrupted[byte_idx] ^= 1 << bit;
            total_flips += 1;

            if Record::decode(&corrupted).is_none() {
                rejected_flips += 1;
            }
        }
    }

    assert_eq!(total_flips, encoded.len() * 8);
    assert_eq!(
        rejected_flips, total_flips,
        "100% of single-bit flips across header and payload must be detected and rejected"
    );
}

#[test]
fn test_frame_layout() {
    let frame = Record::new(0x0102030405060708, OpType::Leased, 9, vec![0xAA, 0xBB]).encode();
    assert_eq!(frame.len(), 21);
    assert_eq!(frame[0], MAGIC_BYTE);
    assert_eq!(frame[1..5], crc32fast::hash(&frame[5..]).to_be_bytes());
    assert_eq!(frame[5], OpType::Leased.to_byte());
    assert_eq!(frame[6], 9);
    assert_eq!(frame[7..15], [1, 2, 3, 4, 5, 6, 7, 8]);
    assert_eq!(frame[15..19], [0, 0, 0, 2]);
    assert_eq!(frame[19..], [0xAA, 0xBB]);
}

#[test]
fn test_checksum_value() {
    // The CRC-32 of the header fields and the payload, by a plain bitwise division.
    let frame = Record::new(1, OpType::Created, 1, b"test".to_vec()).encode();
    let mut sum = 0xFFFF_FFFFu32;
    for &byte in &frame[5..] {
        sum ^= byte as u32;
        for _ in 0..8 {
            sum = if sum & 1 == 1 { (sum >> 1) ^ 0xEDB8_8320 } else { sum >> 1 };
        }
    }
    assert_eq!(frame[1..5], (!sum).to_be_bytes());
}

#[test]
fn test_cut_frame_is_not_decoded() {
    let frame = Record::new(5, OpType::Created, 3, b"payload".to_vec()).encode();
    for len in 0..frame.len() {
        assert!(Record::decode(&frame[..len]).is_none());
    }
    assert!(Record::decode(&frame).is_some());
}

#[test]
fn test_unknown_operation_is_not_decoded() {
    for code in 0..=255u8 {
        let mut frame = Record::new(5, OpType::Created, 3, b"x".to_vec()).encode();
        frame[5] = code;
        let sum = crc32fast::hash(&frame[5..]).to_be_bytes();
        frame[1..5].copy_from_slice(&sum);
        match OpType::from_byte(code) {
            Some(op) => {
                assert_eq!(op.to_byte(), code);
                assert_eq!(Record::decode(&frame).unwrap().op_type(), op);
            }
            None => assert!(Record::decode(&frame).is_none()),
        }
    }
}

#[test]
fn test_terminal_operations() {
    assert!(OpType::Acked.is_terminal());
    assert!(OpType::DeadLettered.is_terminal());
    assert!(!OpType::Created.is_terminal());
    assert!(!OpType::Leased.is_terminal());
    assert!(!OpType::Nacked.is_terminal());
    assert!(!OpType::Expired.is_terminal());
}

/// CRC-32 by plain division, bit by bit.
fn bitwise_crc32(data: &[u8]) -> u32 {
    let mut sum = 0xFFFF_FFFFu32;
    for &byte in data {
        sum ^= byte as u32;
        for _ in 0..8 {
            sum = if sum & 1 == 1 { (sum >> 1) ^ 0xEDB8_8320 } else { sum >> 1 };
        }
    }
    !sum
}

#[test]
fn test_checksum_of_payloads_of_all_lengths() {
    assert_eq!(bitwise_crc32(b"123456789"), 0xCBF4_3926);
    for len in 0..600usize {
        let payload: Vec<u8> = (0..len).map(|i| (i * 31 + len) as u8).collect();
        let frame = Record::new(len as u64, OpType::Created, 7, payload).encode();
        assert_eq!(frame[1..5], bitwise_crc32(&frame[5..]).to_be_bytes(), "{len}");
    }
}

#[test]
fn test_changed_byte_is_rejected() {
    let frame = Record::new(77, OpType::Nacked, 4, vec![1, 2, 3, 4, 5]).encode();
    for i in 0..frame.len() {
        for byte in 0..=255u8 {
            let mut changed = frame.clone();
            changed[i] = byte;
            assert_eq!(Record::decode(&changed).is_some(), byte == frame[i]);
        }
    }
}
