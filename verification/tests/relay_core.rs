use futures::future::AbortHandle;

use sync_service::relay::Action;
use sync_service::relay::BlocksDetail;
use sync_service::relay::DispatchOutcome;
use sync_service::relay::FirstBlock;
use sync_service::relay::KeyProofOutcome;
use sync_service::relay::NetRequest;
use sync_service::relay::RelayCore;
use sync_service::relay::RequestDetail;
use sync_service::relay::assemble_storage_response;
use sync_service::relay::grandpa_state_to_publish;

fn handle() -> AbortHandle {
    AbortHandle::new_pair().0
}

fn blocks_action(source_id: u64, request_id: u64, num_blocks: u64) -> Action {
    Action::Start {
        source_id,
        request_id,
        detail: RequestDetail::Blocks(BlocksDetail {
            first: FirstBlock::Number(101),
            ascending: true,
            num_blocks,
            request_headers: true,
            request_bodies: false,
            request_justification: true,
        }),
    }
}

#[test]
fn connect_dispatch_complete() {
    let mut core = RelayCore::new();
    core.on_connected(1, 7, vec![blocks_action(7, 10, 128)]);
    assert_eq!(core.queued_action_count(), 1);
    match core.dispatch_next(handle()) {
        DispatchOutcome::Started { request_id, peer, request } => {
            assert_eq!(request_id, 10);
            assert_eq!(peer, 1);
            match request {
                NetRequest::Blocks(b) => {
                    assert_eq!(b.desired_count, 128);
                    assert!(b.ascending);
                    assert!(b.request_headers);
                    assert!(!b.request_bodies);
                    assert!(b.request_justification);
                }
                _ => panic!("expected a blocks request"),
            }
        }
        _ => panic!("expected a started request"),
    }
    assert_eq!(core.pending_count(), 1);
    assert!(core.has_pending_request(10));
    // the response arrives and is injected into the machine
    assert!(core.on_request_completed(10, true));
    assert_eq!(core.pending_count(), 0);
    // a second completion for the same id is discarded
    assert!(!core.on_request_completed(10, true));
}

#[test]
fn dispatch_clamps_block_count() {
    let mut core = RelayCore::new();
    core.on_connected(3, 4, vec![blocks_action(4, 1, u64::MAX)]);
    match core.dispatch_next(handle()) {
        DispatchOutcome::Started { request: NetRequest::Blocks(b), .. } => {
            assert_eq!(b.desired_count, u32::MAX);
        }
        _ => panic!("expected a started blocks request"),
    }
}

#[test]
fn cancel_aborts_the_stored_handle() {
    let mut core = RelayCore::new();
    core.on_connected(1, 7, vec![blocks_action(7, 5, 16)]);
    let (h, _reg) = AbortHandle::new_pair();
    let watcher = h.clone();
    match core.dispatch_next(h) {
        DispatchOutcome::Started { request_id, .. } => assert_eq!(request_id, 5),
        _ => panic!("expected a started request"),
    }
    assert!(!watcher.is_aborted());
    core.absorb_outcome(vec![Action::Cancel { request_id: 5 }], false, false);
    match core.dispatch_next(handle()) {
        DispatchOutcome::Cancelled { request_id } => assert_eq!(request_id, 5),
        _ => panic!("expected a cancellation"),
    }
    assert!(watcher.is_aborted());
    assert_eq!(core.pending_count(), 0);
    // the aborted future later completes as an error: discarded
    assert!(!core.on_request_completed(5, false));
    // even a non-aborted completion for a cancelled id is discarded
    assert!(!core.on_request_completed(5, true));
}

#[test]
fn drained_queue_reports_drained() {
    let mut core = RelayCore::new();
    match core.dispatch_next(handle()) {
        DispatchOutcome::Drained => {}
        _ => panic!("expected a drained queue"),
    }
}

#[test]
fn disconnect_aborts_all_requests_of_the_peer() {
    let mut core = RelayCore::new();
    core.on_connected(1, 7, vec![blocks_action(7, 1, 16)]);
    let (h1, _r1) = AbortHandle::new_pair();
    let w1 = h1.clone();
    match core.dispatch_next(h1) {
        DispatchOutcome::Started { .. } => {}
        _ => panic!("expected a started request"),
    }
    core.on_connected(2, 8, vec![blocks_action(8, 2, 16)]);
    let (h2, _r2) = AbortHandle::new_pair();
    let w2 = h2.clone();
    match core.dispatch_next(h2) {
        DispatchOutcome::Started { .. } => {}
        _ => panic!("expected a started request"),
    }
    assert_eq!(core.pending_count(), 2);
    assert_eq!(core.source_of_peer(1), Some(7));
    core.remove_peer(1);
    assert_eq!(core.pending_count(), 1);
    assert!(w1.is_aborted());
    assert!(!w2.is_aborted());
    assert_eq!(core.source_of_peer(1), None);
    assert_eq!(core.source_of_peer(2), Some(8));
    // the aborted request completes later with no observable effect
    assert!(!core.on_request_completed(1, false));
    assert!(core.has_pending_request(2));
}

#[test]
fn new_best_and_finalized_flags_are_latched_and_cleared() {
    let mut core = RelayCore::new();
    assert!(!core.take_new_best_flag());
    core.absorb_outcome(vec![], true, false);
    core.absorb_outcome(vec![], false, false);
    assert!(core.take_new_best_flag());
    assert!(!core.take_new_best_flag());
    core.absorb_outcome(vec![], false, true);
    assert!(core.take_new_finalized_flag());
    assert!(!core.take_new_finalized_flag());
}

#[test]
fn grandpa_state_round_is_one_and_height_must_fit() {
    let g = grandpa_state_to_publish(9, 123_456).expect("height fits");
    assert_eq!(g.set_id, 9);
    assert_eq!(g.round_number, 1);
    assert_eq!(g.commit_finalized_height, 123_456);
    assert!(grandpa_state_to_publish(9, u64::from(u32::MAX) + 1).is_none());
}

#[test]
fn storage_response_is_aligned_with_the_keys() {
    let outcomes = vec![
        KeyProofOutcome::Proven(Some(vec![1, 2, 3])),
        KeyProofOutcome::Proven(None),
        KeyProofOutcome::Proven(Some(vec![])),
    ];
    let values = assemble_storage_response(&outcomes).expect("all keys verified");
    assert_eq!(values, vec![Some(vec![1, 2, 3]), None, Some(vec![])]);
}

#[test]
fn one_bad_key_fails_the_whole_storage_response() {
    let outcomes = vec![
        KeyProofOutcome::Proven(Some(vec![1])),
        KeyProofOutcome::Invalid,
        KeyProofOutcome::Proven(None),
    ];
    assert!(assemble_storage_response(&outcomes).is_err());
}

#[test]
fn warp_sync_and_storage_requests_carry_their_detail() {
    let mut core = RelayCore::new();
    core.on_connected(
        1,
        7,
        vec![
            Action::Start {
                source_id: 7,
                request_id: 1,
                detail: RequestDetail::WarpSync { start_block_hash: vec![0xAA; 32] },
            },
            Action::Start {
                source_id: 7,
                request_id: 2,
                detail: RequestDetail::StorageGet {
                    block_hash: vec![0xBB; 32],
                    state_trie_root: vec![0xCC; 32],
                    keys: vec![vec![1], vec![2, 3]],
                },
            },
        ],
    );
    match core.dispatch_next(handle()) {
        DispatchOutcome::Started { request_id, peer, request } => {
            assert_eq!((request_id, peer), (1, 1));
            match request {
                NetRequest::WarpSync { start_block_hash } => {
                    assert_eq!(start_block_hash, vec![0xAA; 32])
                }
                _ => panic!("expected a warp-sync request"),
            }
        }
        _ => panic!("expected a started request"),
    }
    match core.dispatch_next(handle()) {
        DispatchOutcome::Started { request_id, request, .. } => {
            assert_eq!(request_id, 2);
            match request {
                NetRequest::StorageProof { block_hash, state_trie_root, keys } => {
                    assert_eq!(block_hash, vec![0xBB; 32]);
                    assert_eq!(state_trie_root, vec![0xCC; 32]);
                    assert_eq!(keys, vec![vec![1], vec![2, 3]]);
                }
                _ => panic!("expected a storage-proof request"),
            }
        }
        _ => panic!("expected a started request"),
    }
    assert_eq!(core.pending_count(), 2);
}

#[test]
fn finalization_flow_publishes_grandpa_state() {
    let mut core = RelayCore::new();
    core.on_connected(
        9,
        2,
        vec![Action::Start {
            source_id: 2,
            request_id: 77,
            detail: RequestDetail::WarpSync { start_block_hash: vec![0; 32] },
        }],
    );
    match core.dispatch_next(handle()) {
        DispatchOutcome::Started { request_id, peer, .. } => {
            assert_eq!((request_id, peer), (77, 9));
        }
        _ => panic!("expected a started request"),
    }
    // the proof arrives and advances finalization
    assert!(core.on_request_completed(77, true));
    core.absorb_outcome(vec![], false, true);
    assert!(core.take_new_finalized_flag());
    let state = grandpa_state_to_publish(4, 1_000_000).expect("height fits");
    assert_eq!(state.set_id, 4);
    assert_eq!(state.commit_finalized_height, 1_000_000);
    assert_eq!(core.pending_count(), 0);
}
