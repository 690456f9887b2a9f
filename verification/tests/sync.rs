//! Offers, requests and sessions between propagation nodes.

use lxmf_core::constants::PeerError;
use lxmf_core::msgpack::Datum;
use lxmf_core::propagation::{PropagationEntry, PropagationStore};
use lxmf_core::sync::{
    OfferResponse, SyncGet, SyncOffer, SyncSession, SyncState, SYNC_MSG_GET, SYNC_MSG_OFFER,
};
use lxmf_core::types::PropagationTransientId;
use rmpv::Value;

const NOW: i64 = 1_700_000_000_000_000;

fn tid(byte: u8) -> PropagationTransientId {
    [byte; 32]
}

fn id(byte: u8) -> Vec<u8> {
    vec![byte; 32]
}

fn encode(value: &Value) -> Vec<u8> {
    let mut out = Vec::new();
    rmpv::encode::write_value(&mut out, value).unwrap();
    out
}

#[test]
fn test_sync_offer_pack_unpack() {
    let offer = SyncOffer {
        peering_key: vec![0xDD; 32],
        transient_ids: vec![id(0xAA), id(0xBB), id(0xCC)],
    };

    let packed = offer.pack();
    assert!(!packed.is_empty());

    let mut unpacked = SyncOffer::new();
    unpacked.unpack(&packed).unwrap();
    assert_eq!(unpacked.peering_key, vec![0xDD; 32]);
    assert_eq!(unpacked.transient_ids.len(), 3);
    assert_eq!(unpacked.transient_ids[0], id(0xAA));
    assert_eq!(unpacked.transient_ids[1], id(0xBB));
    assert_eq!(unpacked.transient_ids[2], id(0xCC));
}

#[test]
fn test_sync_get_pack_unpack() {
    let get = SyncGet {
        wanted_ids: vec![id(0x11), id(0x22)],
    };

    let packed = get.pack();
    assert!(!packed.is_empty());

    let mut unpacked = SyncGet::new();
    unpacked.unpack(&packed).unwrap();
    assert_eq!(unpacked.wanted_ids.len(), 2);
    assert_eq!(unpacked.wanted_ids[0], id(0x11));
    assert_eq!(unpacked.wanted_ids[1], id(0x22));
}

#[test]
fn test_sync_offer_msg_type() {
    let offer = SyncOffer::new();
    assert_eq!(offer.msg_type(), SYNC_MSG_OFFER);
}

#[test]
fn test_sync_get_msg_type() {
    let get = SyncGet::new();
    assert_eq!(get.msg_type(), SYNC_MSG_GET);
}

#[test]
fn test_sync_session_offer_flow() {
    let peer_hash = [0xAA; 16];
    let mut session = SyncSession::new(peer_hash, NOW);
    assert_eq!(session.state, SyncState::Idle);

    let ids = vec![tid(0x01), tid(0x02), tid(0x03)];
    let offer = session.prepare_offer(ids.clone(), vec![0xFF; 32], NOW);
    assert_eq!(session.state, SyncState::OfferSent);
    assert_eq!(offer.transient_ids.len(), 3);
    assert_eq!(session.offered_ids.len(), 3);
}

#[test]
fn test_sync_session_process_offer() {
    let peer_hash = [0xBB; 16];
    let mut session = SyncSession::new(peer_hash, NOW);

    let mut store = PropagationStore::new();
    store.insert(PropagationEntry::new(tid(0x01), [0; 32], [0; 16], 100, 0, NOW));

    let offer = SyncOffer {
        peering_key: vec![0xFF; 32],
        transient_ids: vec![id(0x01), id(0x02), id(0x03)],
    };

    let get = session.process_offer(&offer, &store, NOW);
    assert_eq!(session.state, SyncState::Receiving);
    assert_eq!(get.wanted_ids.len(), 2);
    assert_eq!(get.wanted_ids[0], id(0x02));
    assert_eq!(get.wanted_ids[1], id(0x03));
}

#[test]
fn test_sync_session_process_get() {
    let peer_hash = [0xCC; 16];
    let mut session = SyncSession::new(peer_hash, NOW);
    session.state = SyncState::OfferSent;

    let get = SyncGet {
        wanted_ids: vec![id(0x01), id(0x02)],
    };

    session.process_get(&get, NOW);
    assert_eq!(session.state, SyncState::Sending);
    assert_eq!(session.wanted_ids.len(), 2);
}

#[test]
fn test_sync_session_complete() {
    let mut session = SyncSession::new([0xDD; 16], NOW);
    session.state = SyncState::Sending;
    assert!(!session.is_finished());

    session.mark_complete(NOW);
    assert_eq!(session.state, SyncState::Complete);
    assert!(session.is_finished());
}

#[test]
fn test_sync_session_failed() {
    let mut session = SyncSession::new([0xEE; 16], NOW);
    session.state = SyncState::OfferSent;

    session.mark_failed(NOW);
    assert_eq!(session.state, SyncState::Failed);
    assert!(session.is_finished());
}

#[test]
fn test_sync_session_transfer_tracking() {
    let mut session = SyncSession::new([0xFF; 16], NOW);
    assert_eq!(session.transferred, 0);

    session.record_transfer(NOW);
    session.record_transfer(NOW);
    session.record_transfer(NOW);
    assert_eq!(session.transferred, 3);
}

#[test]
fn test_sync_offer_empty() {
    let offer = SyncOffer::new();
    assert!(offer.transient_ids.is_empty());

    let packed = offer.pack();
    let mut unpacked = SyncOffer::new();
    unpacked.unpack(&packed).unwrap();
    assert!(unpacked.transient_ids.is_empty());
}

#[test]
fn test_sync_get_empty() {
    let get = SyncGet::new();
    assert!(get.wanted_ids.is_empty());

    let packed = get.pack();
    let mut unpacked = SyncGet::new();
    unpacked.unpack(&packed).unwrap();
    assert!(unpacked.wanted_ids.is_empty());
}

#[test]
fn test_sync_session_process_offer_empty_store() {
    let mut session = SyncSession::new([0xAA; 16], NOW);
    let store = PropagationStore::new();

    let offer = SyncOffer {
        peering_key: vec![0xFF; 32],
        transient_ids: vec![id(0x01), id(0x02)],
    };

    let get = session.process_offer(&offer, &store, NOW);
    assert_eq!(get.wanted_ids.len(), 2);
}

#[test]
fn test_sync_offer_invalid_length_ids() {
    let mut session = SyncSession::new([0xBB; 16], NOW);
    let store = PropagationStore::new();

    let offer = SyncOffer {
        peering_key: vec![0xFF; 32],
        transient_ids: vec![vec![0x01; 16], vec![0x02; 8], id(0x03)],
    };

    let get = session.process_offer(&offer, &store, NOW);
    assert_eq!(get.wanted_ids.len(), 1);
}

#[test]
fn test_sync_get_invalid_length_ids() {
    let mut session = SyncSession::new([0xCC; 16], NOW);

    let get = SyncGet {
        wanted_ids: vec![id(0x01), vec![0x02; 10]],
    };

    session.process_get(&get, NOW);
    assert_eq!(session.wanted_ids.len(), 1);
}

#[test]
fn test_offer_response_true() {
    // msgpack true = 0xC3
    let data = [0xC3];
    let resp = OfferResponse::from_msgpack(&data);
    assert!(matches!(resp, OfferResponse::WantAll));
    assert!(!resp.is_error());
}

#[test]
fn test_offer_response_false() {
    // msgpack false = 0xC2
    let data = [0xC2];
    let resp = OfferResponse::from_msgpack(&data);
    assert!(matches!(resp, OfferResponse::HaveAll));
    assert!(!resp.is_error());
}

#[test]
fn test_offer_response_error_no_identity() {
    // msgpack uint8 0xF0 = [0xCC, 0xF0]
    let data = [0xCC, 0xF0];
    let resp = OfferResponse::from_msgpack(&data);
    assert!(matches!(resp, OfferResponse::ErrorNoIdentity));
    assert!(resp.is_error());
    assert_eq!(resp.as_peer_error(), Some(PeerError::NoIdentity));
}

#[test]
fn test_offer_response_error_no_access() {
    let data = [0xCC, 0xF1];
    let resp = OfferResponse::from_msgpack(&data);
    assert!(matches!(resp, OfferResponse::ErrorNoAccess));
    assert!(resp.is_error());
}

#[test]
fn test_offer_response_error_invalid_key() {
    let data = [0xCC, 0xF3];
    let resp = OfferResponse::from_msgpack(&data);
    assert!(matches!(resp, OfferResponse::ErrorInvalidKey));
    assert!(resp.is_error());
}

#[test]
fn test_offer_response_error_throttled() {
    let data = [0xCC, 0xF6];
    let resp = OfferResponse::from_msgpack(&data);
    assert!(matches!(resp, OfferResponse::ErrorThrottled));
    assert!(resp.is_error());
}

#[test]
fn test_offer_response_want_some() {
    let id1 = id(0xAA);
    let id2 = id(0xBB);
    let value = Datum::Array(vec![
        Datum::Binary(id1.clone()),
        Datum::Binary(id2.clone()),
    ]);
    let resp = OfferResponse::from_value(&value);
    match resp {
        OfferResponse::WantSome(ids) => {
            assert_eq!(ids.len(), 2);
            assert_eq!(ids[0], id1);
            assert_eq!(ids[1], id2);
        }
        _ => panic!("expected WantSome"),
    }
}

#[test]
fn test_offer_response_nil() {
    // msgpack nil = 0xC0
    let data = [0xC0];
    let resp = OfferResponse::from_msgpack(&data);
    assert!(matches!(resp, OfferResponse::Unknown));
}

#[test]
fn offers_are_read_under_the_names_of_their_fields() {
    let named = encode(&Value::Map(vec![
        (Value::from("transient_ids"), Value::Array(vec![Value::Binary(id(0xAA))])),
        (Value::from("peering_key"), Value::Binary(vec![0xDD; 32])),
        (Value::from("unknown"), Value::from(1u8)),
    ]));
    let mut offer = SyncOffer::new();
    offer.unpack(&named).unwrap();
    assert_eq!(offer.peering_key, vec![0xDD; 32]);
    assert_eq!(offer.transient_ids, vec![id(0xAA)]);

    let missing =
        encode(&Value::Map(vec![(Value::from("peering_key"), Value::Binary(vec![1]))]));
    assert!(offer.unpack(&missing).is_err());
    let twice = encode(&Value::Map(vec![
        (Value::from("peering_key"), Value::Binary(vec![1])),
        (Value::from("peering_key"), Value::Binary(vec![2])),
        (Value::from("transient_ids"), Value::Array(Vec::new())),
    ]));
    assert!(offer.unpack(&twice).is_err());
    assert_eq!(offer.peering_key, vec![0xDD; 32]);
}

#[test]
fn requests_are_read_under_the_name_of_their_field() {
    let named = encode(&Value::Map(vec![(
        Value::from("wanted_ids"),
        Value::Array(vec![Value::Binary(id(0x11)), Value::Binary(id(0x22))]),
    )]));
    let mut get = SyncGet::new();
    get.unpack(&named).unwrap();
    assert_eq!(get.wanted_ids, vec![id(0x11), id(0x22)]);

    assert!(get.unpack(&encode(&Value::Map(Vec::new()))).is_err());
    assert!(get.unpack(&encode(&Value::from(3u8))).is_err());
    assert_eq!(get.wanted_ids.len(), 2);
}
