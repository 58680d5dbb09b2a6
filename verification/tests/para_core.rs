use sync_service::para::HeadOutcome;
use sync_service::para::ParaCore;

/// A minimal SCALE header: parent hash, compact block number (must be below
/// 64 here), state root, extrinsics root, empty digest.
fn header_bytes(number: u8, fill: u8) -> Vec<u8> {
    assert!(number < 64);
    let mut out = vec![fill; 32];
    out.push(number * 4);
    out.extend_from_slice(&[fill; 32]);
    out.extend_from_slice(&[fill; 32]);
    out.push(0);
    out
}

fn fresh_core() -> ParaCore {
    ParaCore::new(header_bytes(0, 0), 0)
}

#[test]
fn repeated_head_data_is_notified_once() {
    let mut core = fresh_core();
    let (_current, sub) = core.subscribe_best();
    let head = header_bytes(5, 0xAB);
    assert!(matches!(core.on_head_data(head.clone()), HeadOutcome::Notified));
    assert!(matches!(core.on_head_data(head.clone()), HeadOutcome::Duplicate));
    assert!(matches!(core.on_head_data(head.clone()), HeadOutcome::Duplicate));
    let got = core.take_best_notification(sub).expect("one notification");
    assert_eq!(got.number, 5);
    assert_eq!(got.scale_encoded_header, head);
    assert!(core.take_best_notification(sub).is_none());
    assert_eq!(core.current_best_number(), 5);
}

#[test]
fn a_failed_runtime_call_clears_the_head_state() {
    let mut core = fresh_core();
    let (_current, sub) = core.subscribe_best();
    let head = header_bytes(5, 0xAB);
    assert!(matches!(core.on_head_data(head.clone()), HeadOutcome::Notified));
    assert!(core.is_near_head_of_chain_heuristic());
    core.take_best_notification(sub);
    // a network-caused failure is logged quietly and resets the digest
    assert!(core.on_call_failed(true));
    assert!(!core.is_near_head_of_chain_heuristic());
    assert!(core.best_head_hash().is_none());
    assert!(core.take_best_notification(sub).is_none());
    // the same head is treated as new after the reset
    assert!(matches!(core.on_head_data(head), HeadOutcome::Notified));
    // a non-network failure asks for a louder log line
    assert!(!core.on_call_failed(false));
}

#[test]
fn non_header_head_data_updates_the_digest_without_notifying() {
    let mut core = fresh_core();
    let (_current, sub) = core.subscribe_best();
    let junk = vec![1, 2, 3];
    assert!(matches!(core.on_head_data(junk.clone()), HeadOutcome::NotAHeader));
    assert!(core.is_near_head_of_chain_heuristic());
    assert_eq!(core.current_best_number(), 0);
    assert!(core.take_best_notification(sub).is_none());
    // and the digest now suppresses the same bytes
    assert!(matches!(core.on_head_data(junk), HeadOutcome::Duplicate));
}

#[test]
fn head_digest_is_blake2b_256() {
    let mut core = fresh_core();
    // the empty string is not a header, but it is hashed
    assert!(matches!(core.on_head_data(Vec::new()), HeadOutcome::NotAHeader));
    let digest = core.best_head_hash().expect("digest stored");
    let expected: Vec<u8> = vec![
        0x0e, 0x57, 0x51, 0xc0, 0x26, 0xe5, 0x43, 0xb2, 0xe8, 0xab, 0x2e, 0xb0, 0x60, 0x99,
        0xda, 0xa1, 0xd1, 0xe5, 0xdf, 0x47, 0x77, 0x8f, 0x77, 0x87, 0xfa, 0xab, 0x45, 0xcd,
        0xf1, 0x2f, 0xe3, 0xa8,
    ];
    assert_eq!(digest, expected);
}

#[test]
fn best_numbers_never_regress_for_a_subscriber() {
    let mut core = fresh_core();
    let (_current, sub) = core.subscribe_best();
    assert!(matches!(core.on_head_data(header_bytes(5, 0x01)), HeadOutcome::Notified));
    assert_eq!(core.take_best_notification(sub).expect("pending").number, 5);
    assert!(matches!(core.on_head_data(header_bytes(7, 0x02)), HeadOutcome::Notified));
    assert_eq!(core.take_best_notification(sub).expect("pending").number, 7);
    assert_eq!(core.current_best_number(), 7);
}

#[test]
fn subscribers_get_the_current_best_on_subscription() {
    let mut core = ParaCore::new(header_bytes(3, 0x09), 3);
    let (current, _sub) = core.subscribe_best();
    assert_eq!(current, header_bytes(3, 0x09));
    assert_eq!(core.subscribe_finalized(), header_bytes(3, 0x09));
    assert_eq!(core.current_best_number(), 3);
}
