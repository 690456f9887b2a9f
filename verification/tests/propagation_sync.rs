//! Offering messages to a peer.

use lxmf_core::constants::PeerError;
use lxmf_core::memory::MemoryStorage;
use lxmf_core::peer::PeeringKey;
use lxmf_core::propagation_node::{PropagationNode, PropagationNodeConfig};
use lxmf_core::propagation_sync::{
    encode_offer, messages_to_send, PropagationSyncTask, SyncTaskState, SYNC_INTERVAL,
    SYNC_TIMEOUT,
};
use lxmf_core::sync::OfferResponse;

type Node = PropagationNode<MemoryStorage>;

const NOW: i64 = 1_700_000_000_000_000;
const KEY: PeeringKey = PeeringKey { key: [7; 32], value: 18 };

fn directory_task() -> PropagationSyncTask<MemoryStorage> {
    let node = PropagationNode::with_storage(PropagationNodeConfig::default(), [0xAA; 16]);
    PropagationSyncTask::with_shared_node(node, NOW)
}

#[test]
fn task_starts_idle() {
    let task = PropagationSyncTask::new([0xAA; 16], NOW);
    assert_eq!(task.state, SyncTaskState::Idle);
    assert_eq!(task.message_count(), 0);
}

#[test]
fn sync_without_runtime_fails_cleanly() {
    let mut task = PropagationSyncTask::new([0xAA; 16], NOW);
    assert!(task.request_sync_now([0xBB; 16], None, None, NOW).is_none());
    assert_eq!(task.state, SyncTaskState::Failed);
}

#[test]
fn shared_node_is_preserved() {
    let mut node = PropagationNode::new(PropagationNodeConfig::default(), [0xAA; 16]);
    let data = [[0xBB; 16].as_slice(), b"kept"].concat();
    assert!(node.accept_propagated_blob(&data, 0, NOW));
    let task = PropagationSyncTask::with_shared_node(node, NOW);
    assert_eq!(task.propagation_node.dest_hash(), [0xAA; 16]);
    assert_eq!(task.message_count(), 1);
}

#[test]
fn a_sync_offers_what_the_node_holds() {
    let mut task = directory_task();
    let data = [[0xBB; 16].as_slice(), b"offered"].concat();
    assert!(task.propagation_node.accept_propagated_blob(&data, 0, NOW));
    let id = rns_crypto::sha256::sha256(&data);

    let start = task.request_sync_now([0xCC; 16], Some(KEY), None, NOW).unwrap();
    assert_eq!(task.state, SyncTaskState::Establishing);
    assert_eq!(task.node_dest_hash(), Some([0xCC; 16]));
    let peer = task.peer().unwrap();
    assert_eq!(peer.destination_hash, [0xCC; 16]);
    assert_eq!(peer.peering_key.unwrap().key, [7; 32]);
    assert_eq!(peer.peering_key.unwrap().value, 18);
    let (key, ids) = Node::decode_offer_request(&start.offer_data).unwrap();
    assert_eq!(key, vec![7; 32]);
    assert_eq!(ids, vec![id]);
    assert_eq!(start.plan.len(), 1);
    assert_eq!(start.plan[0].transient_id, id);

    assert!(task.request_sync_now([0xDD; 16], Some(KEY), None, NOW).is_none());
    assert_eq!(task.state, SyncTaskState::Establishing);
}

#[test]
fn handled_messages_are_not_offered() {
    let mut task = directory_task();
    let data = [[0xBB; 16].as_slice(), b"offered"].concat();
    assert!(task.propagation_node.accept_propagated_blob(&data, 0, NOW));
    let handled = vec![rns_crypto::sha256::sha256(&data)];
    let start =
        task.request_sync_now([0xCC; 16], Some(KEY), Some(&handled), NOW).unwrap();
    assert!(start.plan.is_empty());
}

#[test]
fn the_task_waits_syncs_and_returns_to_rest() {
    let mut task = directory_task();
    task.set_node([0xCC; 16]);
    assert!(task.tick(None, NOW + SYNC_INTERVAL - 1).is_none());
    assert!(task.tick(None, NOW + SYNC_INTERVAL).is_none(), "there is nothing to offer");

    let data = [[0xBB; 16].as_slice(), b"offered"].concat();
    assert!(task.propagation_node.accept_propagated_blob(&data, 0, NOW));
    let due = NOW + 2 * SYNC_INTERVAL;
    assert_eq!(task.tick(None, due), Some([0xCC; 16]));
    assert!(task.start_due_sync([0xCC; 16], Some(KEY), None, due).is_some());
    assert!(task.tick(None, due + SYNC_TIMEOUT).is_none());
    assert_eq!(task.state, SyncTaskState::Establishing);
    assert!(task.tick(None, due + SYNC_TIMEOUT + 1).is_none());
    assert_eq!(task.state, SyncTaskState::Failed);

    assert!(task.tick(Some(true), due + SYNC_TIMEOUT + 2).is_none());
    assert_eq!(task.state, SyncTaskState::Idle);
    assert!(task.peer().is_none());
}

#[test]
fn answers_choose_what_is_sent() {
    let offered = vec![([1; 32], vec![10]), ([2; 32], vec![20]), ([3; 32], vec![30])];
    let answer = |r: &OfferResponse| messages_to_send(&Node::encode_offer_response(r), &offered);
    assert_eq!(answer(&OfferResponse::WantAll), Some(vec![vec![10], vec![20], vec![30]]));
    assert_eq!(answer(&OfferResponse::HaveAll), Some(vec![]));
    assert_eq!(
        answer(&OfferResponse::WantSome(vec![vec![3; 32], vec![9; 32], vec![1; 32]])),
        Some(vec![vec![10], vec![30]])
    );
    assert_eq!(answer(&OfferResponse::ErrorNoAccess), None);
    assert_eq!(messages_to_send(&[0xFF, 0xFF], &offered), None);
    assert_ne!(PeerError::NoAccess, PeerError::NoIdentity);
}

#[test]
fn offers_read_back() {
    let data = encode_offer(&vec![1, 2, 3], &vec![vec![4; 32], vec![5; 31]]);
    let (key, ids) = Node::decode_offer_request(&data).unwrap();
    assert_eq!(key, vec![1, 2, 3]);
    assert_eq!(ids, vec![[4; 32]]);
}
