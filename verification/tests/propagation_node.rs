//! Propagation nodes: what they take, offer, serve and drop.

use lxmf_core::constants::{DeliveryMethod, PN_STAMP_THROTTLE};
use lxmf_core::memory::MemoryStorage;
use lxmf_core::message::LxMessage;
use lxmf_core::peer::LxmPeer;
use lxmf_core::propagation_node::offers::OfferRequestContext;
use lxmf_core::propagation_node::requests::{claimed_ids, GetRequestAction, PlannedReadSource};
use lxmf_core::propagation_node::{
    is_message_name, PropagationNode, PropagationNodeConfig, SYNC_SESSION_IDLE_TIMEOUT,
};
use lxmf_core::storage::{LxmfStorage, StoredMessage};
use lxmf_core::sync::{OfferResponse, SyncGet, SyncOffer};
use lxmf_core::types::PropagationTransientId;
use rmpv::Value;

type Node = PropagationNode<MemoryStorage>;

const SECOND: i64 = 1_000_000;
const NOW: i64 = 1_700_000_000 * SECOND;
const KEY: [u8; 32] = [7; 32];

fn at(micros: i64) -> u64 {
    (micros as f64 / 1_000_000.0).to_bits()
}

fn make_signed_message(dest: [u8; 16], src: [u8; 16], title: &str, content: &str) -> LxMessage {
    let mut msg = LxMessage::new(dest, src, title, content, DeliveryMethod::Propagated, at(NOW));
    msg.sign(&KEY).unwrap();
    msg
}

fn worthless(_id: &[u8; 32], _stamp: &[u8; 32]) -> u32 {
    0
}

fn accept(node: &mut Node, msg: &LxMessage) -> bool {
    node.accept_message(msg, worthless)
}

fn tid(byte: u8) -> PropagationTransientId {
    [byte; 32]
}

fn id(byte: u8) -> Vec<u8> {
    vec![byte; 32]
}

fn hash(data: &[u8]) -> [u8; 32] {
    rns_crypto::sha256::sha256(data)
}

fn encode(value: &Value) -> Vec<u8> {
    let mut out = Vec::new();
    rmpv::encode::write_value(&mut out, value).unwrap();
    out
}

fn decode(data: &[u8]) -> Value {
    rmpv::decode::read_value(&mut &data[..]).unwrap()
}

fn blob(destination: u8, fill: u8, total_len: usize) -> Vec<u8> {
    let mut blob = vec![destination; 16];
    blob.extend(std::iter::repeat(fill).take(total_len - 16));
    blob
}

fn memory_node() -> Node {
    PropagationNode::new(PropagationNodeConfig::default(), [0xAA; 16])
}

fn directory_node() -> Node {
    PropagationNode::with_storage(PropagationNodeConfig::default(), [0xAA; 16])
}

fn storage_node() -> Node {
    PropagationNode::with_storage_backend(
        PropagationNodeConfig::default(),
        [0xAA; 16],
        MemoryStorage::new(),
    )
}

fn id_list(ids: Option<&[[u8; 32]]>) -> Value {
    match ids {
        Some(list) => Value::Array(list.iter().map(|t| Value::Binary(t.to_vec())).collect()),
        None => Value::Nil,
    }
}

fn request(wants: Option<&[[u8; 32]]>, haves: Option<&[[u8; 32]]>) -> Vec<u8> {
    encode(&Value::Array(vec![id_list(wants), id_list(haves)]))
}

/// Answers a request; `files` stands for the files of a directory, by identifier.
fn answer(
    node: &mut Node,
    data: &[u8],
    client: &[u8; 16],
    files: &[(PropagationTransientId, Vec<u8>)],
    limit: Option<i64>,
) -> Vec<Vec<u8>> {
    let action = node.handle_get_request(data, client);
    let mut fetched: Vec<Option<Vec<u8>>> = Vec::new();
    if let GetRequestAction::ServeFiles(plan) = &action {
        for read in &plan.reads {
            fetched.push(match &read.source {
                PlannedReadSource::File(entry) => files
                    .iter()
                    .find(|(id, _)| *id == entry.transient_id)
                    .map(|(_, bytes)| bytes.clone()),
                PlannedReadSource::Payload(_) => None,
                PlannedReadSource::Storage(_) => None,
            });
        }
    }
    let out = action.into_response(&fetched, limit);
    match decode(&out) {
        Value::Array(items) => {
            items.iter().map(|v| v.as_slice().unwrap().to_vec()).collect()
        }
        other => panic!("expected array response, got {other:?}"),
    }
}

fn offer_ctx<'a>(
    peer_hash: [u8; 16],
    identity_known: bool,
    is_throttled: bool,
    access_allowed: bool,
    local_identity_hash: Option<&'a [u8; 16]>,
    remote_identity_hash: Option<&'a [u8; 16]>,
) -> OfferRequestContext<'a> {
    OfferRequestContext {
        peer_hash,
        identity_known,
        is_throttled,
        access_allowed,
        local_identity_hash,
        remote_identity_hash,
    }
}

/// Accepts the key that repeats the first identity.
fn first_identity_key(peering_id: &[u8; 32], key: &[u8; 32], _cost: u8) -> bool {
    key[..16] == peering_id[..16] && key[16..] == peering_id[..16]
}

fn key_of(identity: &[u8; 16]) -> [u8; 32] {
    let mut key = [0; 32];
    key[..16].copy_from_slice(identity);
    key[16..].copy_from_slice(identity);
    key
}

fn offer_bytes(key: &[u8], ids: &[Vec<u8>]) -> Vec<u8> {
    encode(&Value::Array(vec![
        Value::Binary(key.to_vec()),
        Value::Array(ids.iter().map(|i| Value::Binary(i.clone())).collect()),
    ]))
}

#[test]
fn test_new_propagation_node() {
    let node = memory_node();
    assert_eq!(node.message_count(), 0);
    assert_eq!(node.total_size(), 0);
    assert_eq!(node.dest_hash(), [0xAA; 16]);
}

#[test]
fn test_accept_message() {
    let mut node = memory_node();
    let msg = make_signed_message([0xBB; 16], [0xCC; 16], "Test", "content");
    assert!(msg.hash.is_some());
    assert!(accept(&mut node, &msg));
    assert_eq!(node.message_count(), 1);
}

#[test]
fn test_reject_duplicate() {
    let mut node = memory_node();
    let msg = make_signed_message([0xBB; 16], [0xCC; 16], "Test", "duplicate");
    assert!(accept(&mut node, &msg));
    assert!(!accept(&mut node, &msg));
    assert_eq!(node.message_count(), 1);
}

#[test]
fn test_reject_no_hash() {
    let mut node = memory_node();
    let msg = LxMessage::new(
        [0xBB; 16],
        [0xCC; 16],
        "Test",
        "no hash",
        DeliveryMethod::Propagated,
        at(NOW),
    );
    assert!(msg.hash.is_none());
    assert!(!accept(&mut node, &msg));
}

#[test]
fn test_reject_store_full() {
    let config = PropagationNodeConfig { max_storage: 1, ..Default::default() };
    let mut node = PropagationNode::new(config, [0xAA; 16]);

    let msg1 = make_signed_message([0xBB; 16], [0xCC; 16], "Test", "msg1");
    assert!(accept(&mut node, &msg1));

    let msg2 = make_signed_message([0xBB; 16], [0xCC; 16], "Test", "msg2");
    assert!(!accept(&mut node, &msg2));
}

#[test]
fn authoritative_storage_enforces_total_and_message_size_limits() {
    let first = [[0x11; 16].as_slice(), &[0x01, 0x02][..]].concat();
    let second = [[0x22; 16].as_slice(), &[0x03][..]].concat();
    let mut node = PropagationNode::with_storage_backend(
        PropagationNodeConfig {
            max_storage: first.len() + second.len() - 1,
            max_message_size: first.len(),
            ..Default::default()
        },
        [0xAA; 16],
        MemoryStorage::new(),
    );

    assert!(node.accept_propagated_blob(&first, 0, NOW));
    assert!(!node.accept_propagated_blob(&second, 0, NOW));
    assert_eq!(node.message_count(), 1);
    assert_eq!(node.total_size(), first.len());

    let oversized = [[0x33; 16].as_slice(), &[0x04, 0x05, 0x06][..]].concat();
    assert_eq!(oversized.len(), first.len() + 1);
    assert!(!node.accept_propagated_blob(&oversized, 0, NOW));
    assert_eq!(node.message_count(), 1);
    assert_eq!(node.total_size(), first.len());
}

#[test]
fn test_create_offer() {
    let mut node = memory_node();
    let msg1 = make_signed_message([0xBB; 16], [0xCC; 16], "Test", "msg1");
    let msg2 = make_signed_message([0xBB; 16], [0xCC; 16], "Test", "msg2");
    accept(&mut node, &msg1);
    accept(&mut node, &msg2);

    let offer = node.create_offer([0xFF; 16], None);
    assert_eq!(offer.len(), 2);
}

#[test]
fn test_create_offer_filtered() {
    let mut node = memory_node();

    let msg1 = make_signed_message([0xBB; 16], [0xCC; 16], "Test", "msg1");
    let msg2 = make_signed_message([0xBB; 16], [0xCC; 16], "Test", "msg2");

    let tid1 = msg1.transient_id.unwrap();
    accept(&mut node, &msg1);
    accept(&mut node, &msg2);

    let all = node.create_offer([0xFF; 16], None);
    assert_eq!(all.len(), 2);

    let filtered = node.create_offer_filtered(&vec![tid1]);
    assert_eq!(filtered.len(), 1);
}

#[test]
fn offers_of_stored_messages_are_complete() {
    let mut node = storage_node();
    let mut expected = Vec::new();
    for n in 0..600u16 {
        let mut data = vec![0xBB; 16];
        data.extend_from_slice(&n.to_be_bytes());
        assert!(node.accept_propagated_blob(&data, 0, NOW));
        expected.push(hash(&data));
    }
    expected.sort();
    assert_eq!(node.create_offer([0; 16], None), expected);
}

#[test]
fn test_propagation_disk_persistence() {
    let mut node = directory_node();
    let msg = make_signed_message([0xBB; 16], [0xCC; 16], "Test", "persistent content");
    assert!(accept(&mut node, &msg));
    assert_eq!(node.message_count(), 1);

    let mut reloaded = directory_node();
    let stored = msg.pack().unwrap();
    assert!(reloaded.load_entry(msg.transient_id.unwrap(), NOW, 0, &stored));
    assert_eq!(reloaded.message_count(), 1);
}

#[test]
fn test_get_request_ownership_gating() {
    let mut node = directory_node();

    let client_a = [0xCC; 16];
    let client_b = [0xDD; 16];
    let msg_a = make_signed_message(client_a, [0xBB; 16], "Test", "for A");
    let msg_b = make_signed_message(client_b, [0xBB; 16], "Test", "for B");
    assert!(accept(&mut node, &msg_a));
    assert!(accept(&mut node, &msg_b));

    let tid_a = msg_a.transient_id.unwrap();
    let tid_b = msg_b.transient_id.unwrap();
    let files = [(tid_a, msg_a.pack().unwrap()), (tid_b, msg_b.pack().unwrap())];

    let req = request(Some(&[tid_b]), Some(&[]));
    assert_eq!(answer(&mut node, &req, &client_a, &files, None).len(), 0);
    assert!(node.contains(&tid_b));

    answer(&mut node, &request(None, Some(&[tid_b])), &client_a, &files, None);
    assert!(node.contains(&tid_b), "foreign purge must be ignored");

    let req = request(Some(&[tid_a]), Some(&[]));
    assert_eq!(answer(&mut node, &req, &client_a, &files, None).len(), 1);

    answer(&mut node, &request(None, Some(&[tid_a])), &client_a, &files, None);
    assert!(!node.contains(&tid_a), "own purge must work");
}

#[test]
fn test_tick_culls_expired() {
    let config = PropagationNodeConfig { max_message_age: 1, ..Default::default() };
    let mut node = PropagationNode::new(config, [0xAA; 16]);

    let mut msg = make_signed_message([0xBB; 16], [0xCC; 16], "Test", "will expire");
    msg.timestamp = 1000.0f64.to_bits();
    accept(&mut node, &msg);
    assert_eq!(node.message_count(), 1);

    node.tick(NOW);
    assert_eq!(node.message_count(), 0);
}

#[test]
fn test_tick_culls_expired_offer_throttles() {
    let local = [0xAA; 16];
    let remote = [0xBB; 16];
    let mut node = memory_node();
    let data = offer_bytes(&key_of(&local), &[id(0x11)]);
    let ask = |node: &mut Node, peer: u8, now: i64| {
        OfferResponse::from_msgpack(&node.handle_offer_request(
            &data,
            offer_ctx([peer; 16], true, false, true, Some(&local), Some(&remote)),
            first_identity_key,
            now,
        ))
    };
    let throttle = PN_STAMP_THROTTLE as i64 * SECOND;
    assert_eq!(ask(&mut node, 0x01, NOW - throttle - SECOND), OfferResponse::WantAll);
    assert_eq!(ask(&mut node, 0x02, NOW), OfferResponse::WantAll);

    node.tick(NOW);

    assert_eq!(ask(&mut node, 0x01, NOW), OfferResponse::WantAll);
    assert_eq!(ask(&mut node, 0x02, NOW), OfferResponse::ErrorThrottled);
}

#[test]
fn test_tick_culls_idle_sync_sessions() {
    let mut node = memory_node();
    let stale_peer = [0x01; 16];
    let active_peer = [0x02; 16];
    let idle = SYNC_SESSION_IDLE_TIMEOUT as i64 * SECOND;
    node.start_session(stale_peer, NOW - idle - SECOND);
    node.start_session(active_peer, NOW);

    node.tick(NOW);

    assert!(node.get_session(&stale_peer).is_none());
    assert!(node.get_session(&active_peer).is_some());
}

#[test]
fn test_reaccept_after_cull() {
    let config = PropagationNodeConfig { max_message_age: 1, ..Default::default() };
    let mut node = PropagationNode::new(config, [0xAA; 16]);

    let mut msg = make_signed_message([0xBB; 16], [0xCC; 16], "Test", "cull then redeliver");
    msg.timestamp = 1000.0f64.to_bits();
    assert!(accept(&mut node, &msg), "first accept");
    assert_eq!(node.message_count(), 1);

    node.tick(NOW);
    assert_eq!(node.message_count(), 0, "culled by tick");

    msg.timestamp = at(NOW);
    assert!(accept(&mut node, &msg), "same message re-accepted after cull");
    assert_eq!(node.message_count(), 1);
}

#[test]
fn test_accept_after_store_full_and_cull() {
    let config =
        PropagationNodeConfig { max_storage: 1, max_message_age: 1, ..Default::default() };
    let mut node = PropagationNode::new(config, [0xAA; 16]);

    let mut msg1 = make_signed_message([0xBB; 16], [0xCC; 16], "Test", "first");
    msg1.timestamp = 1000.0f64.to_bits();
    assert!(accept(&mut node, &msg1));

    let msg2 = make_signed_message([0xBB; 16], [0xCC; 16], "Test", "rejected-while-full");
    assert!(!accept(&mut node, &msg2), "store full, second message must reject");

    node.tick(NOW);
    assert_eq!(node.message_count(), 0, "expired msg culled");

    let msg3 = make_signed_message([0xBB; 16], [0xCC; 16], "Test", "accepted-after-cull");
    assert!(accept(&mut node, &msg3), "store has space after cull, next message accepted");
    assert_eq!(node.message_count(), 1);
}

#[test]
fn test_tick_enforces_weight_cap() {
    let mut node = PropagationNode::new(
        PropagationNodeConfig { max_storage: 1, ..PropagationNodeConfig::default() },
        [0xAA; 16],
    );
    let msg = make_signed_message([0xBB; 16], [0xCC; 16], "Test", "weight-cull");
    assert!(
        accept(&mut node, &msg),
        "ingest cap checks size before insert, first message is admitted"
    );
    assert_eq!(node.message_count(), 1);
    node.tick(NOW);
    assert_eq!(node.message_count(), 0, "tick must cull the store down to the weight cap");
}

#[test]
fn authoritative_tick_culls_weighted_messages_and_preserves_priority() {
    let prioritised_destination = [0xBB; 16];
    let ordinary_destination = [0xCC; 16];
    let prioritised = [prioritised_destination.as_slice(), &[0x01; 32]].concat();
    let ordinary = [ordinary_destination.as_slice(), &[0x02; 32]].concat();
    let prioritised_id = hash(&prioritised);
    let ordinary_id = hash(&ordinary);
    let mut storage = MemoryStorage::new();
    for (transient_id, destination, data) in [
        (prioritised_id, prioritised_destination, &prioritised),
        (ordinary_id, ordinary_destination, &ordinary),
    ] {
        assert!(storage
            .insert_message(&StoredMessage::new(
                transient_id,
                transient_id,
                destination,
                NOW / SECOND,
                0,
                data.clone(),
                false,
            ))
            .unwrap());
    }
    let mut node = PropagationNode::with_storage_backend(
        PropagationNodeConfig { max_storage: prioritised.len(), ..Default::default() },
        [0xAA; 16],
        storage,
    );
    node.prioritise_destination(prioritised_destination);
    assert_eq!(node.message_count(), 2);

    node.tick(NOW);

    assert!(node.contains(&prioritised_id));
    assert!(!node.contains(&ordinary_id));
    assert_eq!(node.total_size(), prioritised.len());
}

#[test]
fn test_peer_persistence() {
    let mut node = memory_node();
    let msg = make_signed_message([0xBB; 16], [0xCC; 16], "Test", "peer-persist");
    assert!(accept(&mut node, &msg));
    let live_id = node.create_offer_filtered(&Vec::new())[0];

    let mut peer = LxmPeer::new([0xBB; 16]);
    peer.add_handled_message(&live_id);
    peer.add_handled_message(&tid(0xCC));
    let stored = peer.to_bytes_with_handled();

    let mut loaded = LxmPeer::from_bytes_with_handled(&stored).unwrap();
    node.prune_handled_against_store(&mut loaded);
    assert_eq!(loaded.destination_hash, [0xBB; 16]);
    assert!(loaded.handled_messages.contains(&live_id));
    assert!(
        !loaded.handled_messages.contains(&tid(0xCC)),
        "handled ID without a store entry must be pruned at load"
    );
}

#[test]
fn sqlite_backed_node_recovers_offers_and_payload_after_restart() {
    let destination_hash = [0x77; 16];
    let mut payload = destination_hash.to_vec();
    payload.extend_from_slice(b"opaque encrypted payload");
    let transient_id = hash(&payload);

    let mut storage = MemoryStorage::new();
    assert!(storage
        .insert_message(&StoredMessage::new(
            transient_id,
            transient_id,
            destination_hash,
            NOW / SECOND,
            8,
            payload.clone(),
            false,
        ))
        .unwrap());
    let mut node = PropagationNode::with_shared_storage_backend(
        PropagationNodeConfig::default(),
        [0x55; 16],
        storage,
    );
    assert!(node.contains(&transient_id));
    assert_eq!(node.create_offer([0; 16], None), vec![transient_id]);
    assert_eq!(node.message_get_request(&vec![transient_id]), vec![(transient_id, payload)]);

    let get_request = request(Some(&[transient_id]), Some(&[]));
    let action = node.handle_get_request(&get_request, &destination_hash);
    let GetRequestAction::ServeFiles(plan) = action else {
        panic!("a request for messages must return a deferred read plan");
    };
    assert!(matches!(
        plan.reads[0].source,
        PlannedReadSource::Storage(planned) if planned == transient_id
    ));

    let response = plan.serve(&vec![None], None);
    assert!(decode(&response).as_array().unwrap().is_empty());
}

#[test]
fn test_disk_cleanup_on_cull() {
    let config = PropagationNodeConfig { max_message_age: 1, ..Default::default() };
    let mut node = PropagationNode::with_storage(config, [0xAA; 16]);

    let mut msg = make_signed_message([0xBB; 16], [0xCC; 16], "Test", "cleanup test");
    msg.timestamp = 1000.0f64.to_bits();
    accept(&mut node, &msg);
    let held = msg.transient_id.unwrap();
    assert_eq!(node.plan_message_reads(&vec![held]).len(), 1);

    node.tick(NOW);
    assert_eq!(node.message_count(), 0);
    assert!(node.plan_message_reads(&vec![held]).is_empty());
}

#[test]
fn test_sync_session_management() {
    let mut node = memory_node();
    let peer_hash = [0xBB; 16];

    assert!(node.get_session(&peer_hash).is_none());

    node.start_session(peer_hash, NOW);
    assert!(node.get_session(&peer_hash).is_some());
    assert_eq!(node.get_session(&peer_hash).unwrap().peer_hash, peer_hash);

    node.remove_session(&peer_hash);
    assert!(node.get_session(&peer_hash).is_none());
}

#[test]
fn test_offer_request_returns_missing() {
    let mut node = memory_node();

    let msg1 = make_signed_message([0xBB; 16], [0xCC; 16], "Test", "msg1");
    let msg2 = make_signed_message([0xBB; 16], [0xCC; 16], "Test", "msg2");
    let msg3 = make_signed_message([0xBB; 16], [0xCC; 16], "Test", "msg3");

    let tid1 = msg1.transient_id.unwrap();
    let tid2 = msg2.transient_id.unwrap();
    let tid3 = msg3.transient_id.unwrap();

    accept(&mut node, &msg1);
    accept(&mut node, &msg2);
    accept(&mut node, &msg3);

    let peer_has = vec![tid1, tid2];
    let missing = node.offer_request([0xDD; 16], &peer_has);

    assert_eq!(missing.len(), 1);
    assert!(missing.contains(&tid3));
}

#[test]
fn test_offer_request_peer_has_nothing() {
    let mut node = memory_node();

    let msg = make_signed_message([0xBB; 16], [0xCC; 16], "Test", "content");
    accept(&mut node, &msg);

    let missing = node.offer_request([0xDD; 16], &vec![]);
    assert_eq!(missing.len(), 1);
}

#[test]
fn test_offer_request_peer_has_everything() {
    let mut node = memory_node();

    let msg = make_signed_message([0xBB; 16], [0xCC; 16], "Test", "content");
    let tid = msg.transient_id.unwrap();
    accept(&mut node, &msg);

    let missing = node.offer_request([0xDD; 16], &vec![tid]);
    assert!(missing.is_empty());
}

#[test]
fn test_message_get_request_with_storage() {
    let mut node = storage_node();

    let msg = make_signed_message([0xBB; 16], [0xCC; 16], "Test", "get request content");
    let tid = msg.transient_id.unwrap();
    accept(&mut node, &msg);

    let results = node.message_get_request(&vec![tid]);
    assert_eq!(results.len(), 1);
    assert_eq!(results[0].0, tid);
    assert!(!results[0].1.is_empty());

    let unpacked = LxMessage::unpack(&results[0].1);
    assert!(unpacked.is_ok());
}

#[test]
fn test_message_get_request_unknown_id() {
    let node = storage_node();
    let results = node.message_get_request(&vec![tid(0xFF)]);
    assert!(results.is_empty());
    assert!(directory_node().plan_message_reads(&vec![tid(0xFF)]).is_empty());
}

#[test]
fn test_message_get_request_no_storage() {
    let node = memory_node();

    let results = node.message_get_request(&vec![tid(0xFF)]);
    assert!(results.is_empty());
}

#[test]
fn test_prepare_sync_offer() {
    let mut node = memory_node();

    let msg1 = make_signed_message([0xBB; 16], [0xCC; 16], "Test", "sync1");
    let msg2 = make_signed_message([0xBB; 16], [0xCC; 16], "Test", "sync2");
    accept(&mut node, &msg1);
    accept(&mut node, &msg2);

    let peer_hash = [0xDD; 16];
    let offer = node.prepare_sync_offer(peer_hash, None, NOW);

    assert_eq!(offer.transient_ids.len(), 2);
    assert!(node.get_session(&peer_hash).is_some());
}

#[test]
fn test_process_sync_offer_and_get() {
    let mut node = memory_node();

    let msg1 = make_signed_message([0xBB; 16], [0xCC; 16], "Test", "has_this");
    let tid1 = msg1.transient_id.unwrap();
    accept(&mut node, &msg1);

    let peer_hash = [0xDD; 16];
    let tid2 = tid(0xEE);
    let offer = SyncOffer {
        peering_key: Vec::new(),
        transient_ids: vec![tid1.to_vec(), tid2.to_vec()],
    };

    let get = node.process_sync_offer(peer_hash, &offer, NOW);
    assert_eq!(get.wanted_ids.len(), 1);
    assert_eq!(get.wanted_ids[0], tid2.to_vec());
}

#[test]
fn test_sync_lifecycle_complete() {
    let mut node = memory_node();
    let peer_hash = [0xDD; 16];

    let msg = make_signed_message([0xBB; 16], [0xCC; 16], "Test", "lifecycle");
    accept(&mut node, &msg);

    let _offer = node.prepare_sync_offer(peer_hash, None, NOW);
    assert!(node.get_session(&peer_hash).is_some());

    node.complete_sync(&peer_hash);
    assert!(node.get_session(&peer_hash).is_none());
}

#[test]
fn test_process_sync_get_with_storage() {
    let mut node = storage_node();

    let msg = make_signed_message([0xBB; 16], [0xCC; 16], "Test", "sync get content");
    let tid = msg.transient_id.unwrap();
    accept(&mut node, &msg);

    let get = SyncGet { wanted_ids: vec![tid.to_vec()] };
    let peer_hash = [0xDD; 16];
    let messages = node.process_sync_get(peer_hash, &get, NOW);

    assert_eq!(messages.len(), 1);
    assert!(!messages[0].1.is_empty());

    let unpacked = LxMessage::unpack(&messages[0].1);
    assert!(unpacked.is_ok());
}

#[test]
fn test_offer_request_checked_no_identity() {
    let node = memory_node();
    let resp = node.offer_request_checked([0xDD; 16], false, false, true, true, &vec![]);
    assert_eq!(resp, OfferResponse::ErrorNoIdentity);
}

#[test]
fn test_offer_request_checked_throttled() {
    let node = memory_node();
    let resp = node.offer_request_checked([0xDD; 16], true, true, true, true, &vec![]);
    assert_eq!(resp, OfferResponse::ErrorThrottled);
}

#[test]
fn test_offer_request_checked_no_access() {
    let node = memory_node();
    let resp = node.offer_request_checked([0xDD; 16], true, false, false, true, &vec![]);
    assert_eq!(resp, OfferResponse::ErrorNoAccess);
}

#[test]
fn test_offer_request_checked_invalid_key() {
    let node = memory_node();
    let resp = node.offer_request_checked([0xDD; 16], true, false, true, false, &vec![]);
    assert_eq!(resp, OfferResponse::ErrorInvalidKey);
}

#[test]
fn test_offer_request_checked_have_all() {
    let mut node = memory_node();
    let msg = make_signed_message([0xBB; 16], [0xCC; 16], "Test", "content");
    let tid = msg.transient_id.unwrap();
    accept(&mut node, &msg);

    let resp = node.offer_request_checked([0xDD; 16], true, false, true, true, &vec![tid]);
    assert_eq!(resp, OfferResponse::HaveAll);
}

#[test]
fn test_offer_request_checked_want_all() {
    let node = memory_node();

    let resp = node.offer_request_checked(
        [0xDD; 16],
        true,
        false,
        true,
        true,
        &vec![tid(0x11), tid(0x22)],
    );
    assert_eq!(resp, OfferResponse::WantAll);
}

#[test]
fn test_offer_request_checked_want_some() {
    let mut node = memory_node();
    let msg = make_signed_message([0xBB; 16], [0xCC; 16], "Test", "content");
    let stored_tid = msg.transient_id.unwrap();
    accept(&mut node, &msg);

    let resp = node.offer_request_checked(
        [0xDD; 16],
        true,
        false,
        true,
        true,
        &vec![stored_tid, tid(0x99)],
    );
    match resp {
        OfferResponse::WantSome(ids) => {
            assert_eq!(ids.len(), 1);
            assert_eq!(ids[0], id(0x99));
        }
        _ => panic!("expected WantSome"),
    }
}

#[test]
fn test_encode_offer_response_roundtrip() {
    for response in [
        OfferResponse::WantAll,
        OfferResponse::HaveAll,
        OfferResponse::ErrorNoIdentity,
        OfferResponse::ErrorThrottled,
    ] {
        let encoded = Node::encode_offer_response(&response);
        let parsed = OfferResponse::from_msgpack(&encoded);
        assert_eq!(parsed, response);
    }

    let ids = vec![id(0xAA), id(0xBB)];
    let encoded = Node::encode_offer_response(&OfferResponse::WantSome(ids.clone()));
    let parsed = OfferResponse::from_msgpack(&encoded);
    match parsed {
        OfferResponse::WantSome(parsed_ids) => {
            assert_eq!(parsed_ids, ids);
        }
        _ => panic!("expected WantSome"),
    }
}

#[test]
fn test_handle_offer_request_valid() {
    let local_identity = [0xAA; 16];
    let remote_identity = [0xBB; 16];
    let config = PropagationNodeConfig { peering_cost: 8, ..Default::default() };
    let mut node = PropagationNode::new(config, [0xCC; 16]);
    let buf = offer_bytes(&key_of(&local_identity), &[id(0x11), id(0x22)]);

    let response_bytes = node.handle_offer_request(
        &buf,
        offer_ctx(
            [0xDD; 16],
            true,
            false,
            true,
            Some(&local_identity),
            Some(&remote_identity),
        ),
        |peering_id: &[u8; 32], key: &[u8; 32], cost: u8| {
            assert_eq!(peering_id[..16], local_identity);
            assert_eq!(peering_id[16..], remote_identity);
            assert_eq!(cost, 8);
            first_identity_key(peering_id, key, cost)
        },
        NOW,
    );
    let response = OfferResponse::from_msgpack(&response_bytes);
    assert_eq!(response, OfferResponse::WantAll);
}

#[test]
fn test_handle_offer_request_rejects_empty_peering_key_when_cost_required() {
    let mut node = memory_node();
    let local_identity = [0xAA; 16];
    let remote_identity = [0xBB; 16];
    let buf = offer_bytes(&[], &[id(0x11)]);

    let response_bytes = node.handle_offer_request(
        &buf,
        offer_ctx(
            [0xDD; 16],
            true,
            false,
            true,
            Some(&local_identity),
            Some(&remote_identity),
        ),
        first_identity_key,
        NOW,
    );
    let response = OfferResponse::from_msgpack(&response_bytes);
    assert_eq!(response, OfferResponse::ErrorInvalidKey);
}

#[test]
fn test_handle_offer_request_rejects_wrong_peering_identity_order() {
    let local_identity = [0xAA; 16];
    let remote_identity = [0xBB; 16];
    let config = PropagationNodeConfig { peering_cost: 8, ..Default::default() };
    let mut node = PropagationNode::new(config, [0xCC; 16]);
    let buf = offer_bytes(&key_of(&remote_identity), &[id(0x11)]);

    let response_bytes = node.handle_offer_request(
        &buf,
        offer_ctx(
            [0xDD; 16],
            true,
            false,
            true,
            Some(&local_identity),
            Some(&remote_identity),
        ),
        first_identity_key,
        NOW,
    );
    let response = OfferResponse::from_msgpack(&response_bytes);
    assert_eq!(response, OfferResponse::ErrorInvalidKey);
}

#[test]
fn test_handle_offer_request_no_identity() {
    let mut node = memory_node();
    let buf = offer_bytes(&[], &[]);

    let response_bytes = node.handle_offer_request(
        &buf,
        offer_ctx([0xBB; 16], false, false, true, None, None),
        first_identity_key,
        NOW,
    );
    let response = OfferResponse::from_msgpack(&response_bytes);
    assert_eq!(response, OfferResponse::ErrorNoIdentity);
}

#[test]
fn test_handle_offer_request_invalid_data() {
    let mut node = memory_node();

    let response_bytes = node.handle_offer_request(
        &[0xFF, 0xFF],
        offer_ctx([0xBB; 16], true, false, true, None, None),
        first_identity_key,
        NOW,
    );
    let response = OfferResponse::from_msgpack(&response_bytes);
    assert_eq!(response, OfferResponse::ErrorInvalidData);
}

#[test]
fn test_decode_offer_request_valid() {
    let buf = offer_bytes(&[0xAA; 32], &[id(0x11), id(0x22)]);

    let result = Node::decode_offer_request(&buf);
    assert!(result.is_some());
    let (key, ids) = result.unwrap();
    assert_eq!(key, vec![0xAA; 32]);
    assert_eq!(ids.len(), 2);
    assert_eq!(ids[0], tid(0x11));
    assert_eq!(ids[1], tid(0x22));
}

#[test]
fn test_decode_offer_request_filters_bad_ids() {
    let buf = offer_bytes(&[], &[vec![0x11; 16], vec![0x22; 8], id(0x33)]);

    let (_, ids) = Node::decode_offer_request(&buf).unwrap();
    assert_eq!(ids.len(), 1);
    assert_eq!(ids[0], tid(0x33));
}

#[test]
fn test_handle_get_request_list_phase() {
    let mut node = directory_node();

    let msg = make_signed_message([0xBB; 16], [0xCC; 16], "Test", "get list content");
    accept(&mut node, &msg);

    let listed = answer(&mut node, &request(None, None), &[0xBB; 16], &[], None);
    assert_eq!(listed.len(), 1);
    assert_eq!(listed[0].len(), 32);
}

#[test]
fn test_handle_get_request_list_empty() {
    let mut node = memory_node();
    let listed = answer(&mut node, &request(None, None), &[0xBB; 16], &[], None);
    assert!(listed.is_empty());
}

#[test]
fn test_accept_propagated_blob_and_get_with_full_hash_id() {
    let mut node = directory_node();
    let lxmf_data = blob(0xBB, 0xCC, 144);
    assert!(node.accept_propagated_blob(&lxmf_data, 0, NOW));

    let full_id = hash(&lxmf_data);
    let files = [(full_id, lxmf_data.clone())];
    let listed = answer(&mut node, &request(None, None), &[0xBB; 16], &files, None);
    assert_eq!(listed.len(), 1);

    let req = request(Some(&[full_id]), Some(&[]));
    let messages = answer(&mut node, &req, &[0xBB; 16], &files, None);
    assert_eq!(messages, vec![lxmf_data]);
}

#[test]
fn test_stamped_propagated_blob_strips_only_for_client_download() {
    let mut node = storage_node();
    let lxmf_data = blob(0xBB, 0xCC, 144);
    let stamp = [0x5A; 32];
    let full_id = hash(&lxmf_data);

    assert!(node.accept_stamped_propagated_blob(&lxmf_data, &stamp, 0, NOW));

    let peer_results = node.message_get_request(&vec![full_id]);
    assert_eq!(peer_results.len(), 1);
    let mut expected_stamped = lxmf_data.clone();
    expected_stamped.extend_from_slice(&stamp);
    assert_eq!(peer_results[0].1, expected_stamped);

    let req = request(Some(&[full_id]), Some(&[]));
    let messages = answer(&mut node, &req, &[0xBB; 16], &[], None);
    assert_eq!(messages, vec![lxmf_data]);
}

#[test]
fn test_reloaded_stamped_blob_strips_for_client_download() {
    let lxmf_data = blob(0xBB, 0xCC, 144);
    let stamp = [0x5A; 32];
    let full_id = hash(&lxmf_data);
    let mut stored = lxmf_data.clone();
    stored.extend_from_slice(&stamp);

    let mut reloaded = directory_node();
    assert!(reloaded.load_entry(full_id, NOW, 0, &stored));

    let files = [(full_id, stored)];
    let req = request(Some(&[full_id]), Some(&[]));
    let messages = answer(&mut reloaded, &req, &[0xBB; 16], &files, None);
    assert_eq!(messages, vec![lxmf_data]);
}

#[test]
fn test_accept_propagated_blob_enforces_min_stamp_cost() {
    let config = PropagationNodeConfig { min_stamp_cost: 8, ..Default::default() };
    let mut node = PropagationNode::new(config, [0xAA; 16]);
    let lxmf_data = blob(0xBB, 0xCC, 144);

    assert!(!node.accept_propagated_blob(&lxmf_data, 7, NOW));
    assert_eq!(node.message_count(), 0);

    assert!(node.accept_propagated_blob(&lxmf_data, 8, NOW));
    assert_eq!(node.message_count(), 1);
}

#[test]
fn test_opaque_propagated_blob_reload_preserves_destination() {
    let lxmf_data = blob(0xBB, 0xCC, 144);
    let mut reloaded = directory_node();
    assert!(reloaded.load_entry(hash(&lxmf_data), NOW, 0, &lxmf_data));

    let listed = answer(&mut reloaded, &request(None, None), &[0xBB; 16], &[], None);
    assert_eq!(listed.len(), 1);
}

#[test]
fn test_handle_get_request_purge_phase() {
    let mut node = directory_node();

    let msg = make_signed_message([0xBB; 16], [0xCC; 16], "Test", "purge content");
    let tid = msg.transient_id.unwrap();
    accept(&mut node, &msg);
    assert_eq!(node.message_count(), 1);

    answer(&mut node, &request(None, Some(&[tid])), &[0xBB; 16], &[], None);
    assert_eq!(node.message_count(), 0);
}

#[test]
fn test_handle_get_request_get_phase() {
    let mut node = directory_node();

    let msg = make_signed_message([0xBB; 16], [0xCC; 16], "Test", "get data content");
    let tid = msg.transient_id.unwrap();
    accept(&mut node, &msg);

    let files = [(tid, msg.pack().unwrap())];
    let req = request(Some(&[tid]), Some(&[]));
    let messages = answer(&mut node, &req, &[0xBB; 16], &files, None);
    assert_eq!(messages.len(), 1);
    assert!(!messages[0].is_empty());
}

#[test]
fn test_get_request_phase2_returns_serve_plan() {
    let mut node = directory_node();
    let data = blob(0xBB, 0x11, 80);
    assert!(node.accept_propagated_blob(&data, 0, NOW));
    let tid = hash(&data);

    assert!(matches!(
        node.handle_get_request(&request(None, None), &[0xBB; 16]),
        GetRequestAction::Respond(_)
    ));
    assert!(matches!(
        node.handle_get_request(&request(None, Some(&[[0xEE; 32]])), &[0xBB; 16]),
        GetRequestAction::Respond(_)
    ));

    let action = node.handle_get_request(&request(Some(&[tid]), Some(&[])), &[0xBB; 16]);
    let GetRequestAction::ServeFiles(plan) = action else {
        panic!("a request for messages must return a serve plan");
    };
    drop(node);
    let response = decode(&plan.serve(&vec![Some(data.clone())], None));
    let messages = response.as_array().unwrap();
    assert_eq!(messages.len(), 1);
    assert_eq!(messages[0].as_slice().unwrap(), data.as_slice());
}

#[test]
fn test_get_phase_purges_haves_before_serving_wants() {
    let mut node = directory_node();
    let data = blob(0xBB, 0x22, 64);
    assert!(node.accept_propagated_blob(&data, 0, NOW));
    let tid = hash(&data);

    let files = [(tid, data)];
    let req = request(Some(&[tid]), Some(&[tid]));
    let messages = answer(&mut node, &req, &[0xBB; 16], &files, None);
    assert!(messages.is_empty(), "ID in both wants and haves must be purged, not served");
    assert_eq!(node.message_count(), 0);
}

#[test]
fn test_get_phase_transfer_limit_python_accounting() {
    let mut node = directory_node();
    let blob_a = blob(0xBB, 0x01, 100);
    let blob_b = blob(0xBB, 0x02, 350);
    let blob_c = blob(0xBB, 0x03, 50);
    let mut files = Vec::new();
    let mut wants = Vec::new();
    for data in [&blob_a, &blob_b, &blob_c] {
        assert!(node.accept_propagated_blob(data, 0, NOW));
        files.push((hash(data), data.clone()));
        wants.push(hash(data));
    }

    let req = encode(&Value::Array(vec![
        id_list(Some(&wants)),
        Value::Array(vec![]),
        Value::F64(0.5),
    ]));
    let GetRequestAction::ServeFiles(plan) = node.handle_get_request(&req, &[0xBB; 16]) else {
        panic!("a request for messages must return a serve plan");
    };
    let kilobytes = f64::from_bits(plan.limit_kilobytes.unwrap());
    assert_eq!(kilobytes, 0.5);

    let messages =
        answer(&mut node, &req, &[0xBB; 16], &files, Some((kilobytes * 1000.0) as i64));
    assert_eq!(messages.len(), 2, "b is skipped, a and c are served");
    assert_eq!(messages[0], blob_a);
    assert_eq!(messages[1], blob_c);
}

#[test]
fn test_get_list_phase_sorted_smallest_first() {
    let mut node = directory_node();
    let blob_large = blob(0xBB, 0x04, 300);
    let blob_small = blob(0xBB, 0x05, 100);
    let blob_mid = blob(0xBB, 0x06, 200);
    for data in [&blob_large, &blob_small, &blob_mid] {
        assert!(node.accept_propagated_blob(data, 0, NOW));
    }

    let ids = answer(&mut node, &request(None, None), &[0xBB; 16], &[], None);
    let expected: Vec<Vec<u8>> = [&blob_small, &blob_mid, &blob_large]
        .iter()
        .map(|data| hash(data).to_vec())
        .collect();
    assert_eq!(ids, expected);
}

#[test]
fn test_stamp_cost_validation_rejects_unstamped() {
    let config = PropagationNodeConfig { min_stamp_cost: 8, ..Default::default() };
    let mut node = PropagationNode::new(config, [0xAA; 16]);
    let msg = make_signed_message([0xBB; 16], [0xCC; 16], "Test", "unstamped");

    assert!(!accept(&mut node, &msg));
    assert_eq!(node.message_count(), 0);
}

#[test]
fn test_stamp_cost_zero_accepts_all() {
    let config = PropagationNodeConfig { min_stamp_cost: 0, ..Default::default() };
    let mut node = PropagationNode::new(config, [0xAA; 16]);
    let msg = make_signed_message([0xBB; 16], [0xCC; 16], "Test", "no_cost");

    assert!(accept(&mut node, &msg));
    assert_eq!(node.message_count(), 1);
}

#[test]
fn test_create_offer_with_stamp_filter() {
    let mut node = memory_node();
    let rich = blob(0xCC, 0x01, 100);
    let poor = blob(0xCC, 0x02, 100);
    assert!(node.accept_propagated_blob(&rich, 20, NOW));
    assert!(node.accept_propagated_blob(&poor, 5, NOW));

    let all = node.create_offer([0xFF; 16], None);
    assert_eq!(all.len(), 2);

    let filtered = node.create_offer([0xFF; 16], Some(10));
    assert_eq!(filtered.len(), 1);
    assert_eq!(filtered[0], hash(&rich));

    let all2 = node.create_offer([0xFF; 16], Some(0));
    assert_eq!(all2.len(), 2);
}

#[test]
fn handled_messages_are_noted_for_a_peer() {
    let mut node = memory_node();
    let peer_hash = [0xDD; 16];
    node.start_session(peer_hash, NOW);
    let peer = node
        .mark_peer_handled(&peer_hash, Some(LxmPeer::new(peer_hash)), &tid(0x01), NOW)
        .unwrap();
    assert!(peer.handled_messages.contains(&tid(0x01)));
    assert!(node.mark_peer_handled(&peer_hash, None, &tid(0x01), NOW).is_none());
}

#[test]
fn files_of_messages_are_told_from_other_files() {
    assert!(is_message_name(b"aabb_1234567890_0"));
    assert!(is_message_name(b"peer"));
    assert!(is_message_name(b""));
    assert!(is_message_name(b"a.peer.bak"));
    assert!(is_message_name(b".pee"));
    assert!(!is_message_name(b"aabb.peer"));
    assert!(!is_message_name(b".peer"));
    assert!(!is_message_name(b"node_stats.msgpack"));
    assert!(!is_message_name(b"aabb_1234567890_0.corrupt"));
}

#[test]
fn sessions_are_changed_in_place() {
    let mut node = memory_node();
    let peer_hash = [0xBB; 16];
    let other = [0xCC; 16];
    assert!(node.get_session_mut(&peer_hash).is_none());

    node.start_session(peer_hash, NOW).transferred = 4;
    node.start_session(other, NOW);
    assert_eq!(node.start_session(peer_hash, NOW + SECOND).transferred, 4);
    node.get_session_mut(&peer_hash).unwrap().transferred += 1;
    assert_eq!(node.get_session(&peer_hash).unwrap().transferred, 5);
    assert_eq!(node.get_session(&other).unwrap().transferred, 0);
    assert!(node.get_session_mut(&[0xDD; 16]).is_none());
}

#[test]
fn requests_tell_what_the_client_has() {
    let had = [0x11; 32];
    let wanted = [0x22; 32];
    let request = encode(&Value::Array(vec![
        Value::Array(vec![Value::Binary(wanted.to_vec())]),
        Value::Array(vec![Value::Binary(had.to_vec()), Value::Binary(vec![1, 2, 3])]),
    ]));
    assert_eq!(claimed_ids(&request), vec![had]);
    assert!(claimed_ids(&encode(&Value::Array(vec![Value::Nil, Value::Nil]))).is_empty());
    assert!(claimed_ids(&encode(&Value::Array(vec![Value::Nil]))).is_empty());
    assert!(claimed_ids(&encode(&Value::Nil)).is_empty());
    assert!(claimed_ids(&[]).is_empty());
}
