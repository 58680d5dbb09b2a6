use sync_service::codec::DigestItem;
use sync_service::codec::OccupiedCoreAssumption;
use sync_service::codec::decode_compact_u64;
use sync_service::codec::decode_header;
use sync_service::codec::decode_persisted_validation_data_return_value;
use sync_service::codec::persisted_validation_data_parameters;

#[test]
fn compact_single_byte_mode() {
    assert_eq!(decode_compact_u64(&vec![0x00], 0), Some((0, 1)));
    assert_eq!(decode_compact_u64(&vec![0x04], 0), Some((1, 1)));
    assert_eq!(decode_compact_u64(&vec![0xfc], 0), Some((63, 1)));
}

#[test]
fn compact_two_byte_mode() {
    assert_eq!(decode_compact_u64(&vec![0x01, 0x01], 0), Some((64, 2)));
    assert_eq!(decode_compact_u64(&vec![0xfd, 0xff], 0), Some((16383, 2)));
    // a value below 64 must use the single-byte mode
    assert_eq!(decode_compact_u64(&vec![0x01, 0x00], 0), None);
    // truncated input
    assert_eq!(decode_compact_u64(&vec![0x01], 0), None);
}

#[test]
fn compact_four_byte_mode() {
    assert_eq!(decode_compact_u64(&vec![0x02, 0x00, 0x01, 0x00], 0), Some((16384, 4)));
    assert_eq!(decode_compact_u64(&vec![0xfe, 0xff, 0xff, 0xff], 0), Some((0x3fff_ffff, 4)));
    // a value below 2^14 must use the two-byte mode
    assert_eq!(decode_compact_u64(&vec![0x02, 0x00, 0x00, 0x00], 0), None);
}

#[test]
fn compact_big_mode() {
    assert_eq!(
        decode_compact_u64(&vec![0x03, 0x00, 0x00, 0x00, 0x40], 0),
        Some((0x4000_0000, 5))
    );
    assert_eq!(
        decode_compact_u64(&vec![0x07, 0x00, 0x00, 0x00, 0x00, 0x01], 0),
        Some((0x1_0000_0000, 6))
    );
    assert_eq!(
        decode_compact_u64(
            &vec![0x13, 0xff, 0xff, 0xff, 0xff, 0xff, 0xff, 0xff, 0xff],
            0
        ),
        Some((u64::MAX, 9))
    );
    // a value below 2^30 must use the four-byte mode
    assert_eq!(decode_compact_u64(&vec![0x03, 0x00, 0x00, 0x00, 0x20], 0), None);
    // the length must be minimal
    assert_eq!(decode_compact_u64(&vec![0x07, 0x01, 0x00, 0x00, 0x00, 0x00], 0), None);
}

#[test]
fn compact_respects_the_offset() {
    assert_eq!(decode_compact_u64(&vec![0xff, 0x14], 1), Some((5, 2)));
    assert_eq!(decode_compact_u64(&vec![0xff], 1), None);
}

#[test]
fn header_with_empty_digest() {
    let mut bytes = vec![0xAA; 32];
    bytes.push(0x14); // block number 5, compact
    bytes.extend_from_slice(&[0xBB; 32]);
    bytes.extend_from_slice(&[0xCC; 32]);
    bytes.push(0x00); // no digest items
    let h = decode_header(&bytes).expect("a valid header");
    assert_eq!(h.parent_hash, vec![0xAA; 32]);
    assert_eq!(h.number, 5);
    assert_eq!(h.state_root, vec![0xBB; 32]);
    assert_eq!(h.extrinsics_root, vec![0xCC; 32]);
    assert_eq!(h.digest.len(), 0);
}

#[test]
fn header_with_digest_items() {
    let mut bytes = vec![0x11; 32];
    bytes.push(0x04); // block number 1
    bytes.extend_from_slice(&[0x22; 32]);
    bytes.extend_from_slice(&[0x33; 32]);
    bytes.push(0x08); // two digest items
    // a pre-runtime item from engine "BABE" with a 3-byte payload
    bytes.push(6);
    bytes.extend_from_slice(b"BABE");
    bytes.push(0x0c);
    bytes.extend_from_slice(&[9, 8, 7]);
    // a runtime-environment-updated marker
    bytes.push(8);
    let h = decode_header(&bytes).expect("a valid header");
    assert_eq!(h.number, 1);
    assert_eq!(h.digest.len(), 2);
    match &h.digest[0] {
        DigestItem::PreRuntime { engine, payload } => {
            assert_eq!(engine, b"BABE");
            assert_eq!(payload, &vec![9, 8, 7]);
        }
        _ => panic!("expected a pre-runtime item"),
    }
    assert!(matches!(h.digest[1], DigestItem::RuntimeUpdated));
}

#[test]
fn header_rejects_trailing_bytes_and_truncation() {
    let mut bytes = vec![0xAA; 32];
    bytes.push(0x14);
    bytes.extend_from_slice(&[0xBB; 32]);
    bytes.extend_from_slice(&[0xCC; 32]);
    bytes.push(0x00);
    bytes.push(0xEE); // trailing garbage
    assert!(decode_header(&bytes).is_none());
    assert!(decode_header(&vec![0xAA; 40]).is_none());
    assert!(decode_header(&Vec::new()).is_none());
}

#[test]
fn validation_data_parameters_encoding() {
    assert_eq!(
        persisted_validation_data_parameters(100, OccupiedCoreAssumption::TimedOut),
        vec![100, 0, 0, 0, 1]
    );
    assert_eq!(
        persisted_validation_data_parameters(0x0102_0304, OccupiedCoreAssumption::Included),
        vec![4, 3, 2, 1, 0]
    );
    assert_eq!(
        persisted_validation_data_parameters(7, OccupiedCoreAssumption::Free),
        vec![7, 0, 0, 0, 2]
    );
}

#[test]
fn validation_data_return_value_decoding() {
    // no validation data: the parachain occupies no core
    assert_eq!(
        decode_persisted_validation_data_return_value(&vec![0])
            .expect("valid encoding")
            .is_none(),
        true
    );
    // a record with a two-byte head
    let mut bytes = vec![1];
    bytes.push(0x08); // head length 2, compact
    bytes.extend_from_slice(&[0xAA, 0xBB]);
    bytes.extend_from_slice(&[7, 0, 0, 0]); // relay parent number 7
    bytes.extend_from_slice(&[0x11; 32]); // relay parent storage root
    bytes.extend_from_slice(&[0, 0, 16, 0]); // max PoV size 0x100000
    let pvd = decode_persisted_validation_data_return_value(&bytes)
        .expect("valid encoding")
        .expect("a record");
    assert_eq!(pvd.parent_head, vec![0xAA, 0xBB]);
    assert_eq!(pvd.relay_parent_number, 7);
    assert_eq!(pvd.relay_parent_storage_root, vec![0x11; 32]);
    assert_eq!(pvd.max_pov_size, 0x10_0000);
}

#[test]
fn malformed_validation_data_is_rejected() {
    assert!(decode_persisted_validation_data_return_value(&Vec::new()).is_err());
    assert!(decode_persisted_validation_data_return_value(&vec![2]).is_err());
    // trailing byte after the none marker
    assert!(decode_persisted_validation_data_return_value(&vec![0, 0]).is_err());
    // truncated record
    assert!(decode_persisted_validation_data_return_value(&vec![1, 0x08, 0xAA]).is_err());
}
