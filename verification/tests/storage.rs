//! What every storage backend keeps, on the one in memory.

use lxmf_core::memory::MemoryStorage;
use lxmf_core::storage::{
    LxmfStorage, MessageStoreStats, StorageError, StoredIdentity, StoredMessage,
    StoredOutboundMessage, StoredOutboundMetadata, StoredRatchet, StoredStampCost,
    TransientIdKind,
};
use lxmf_core::ticket::Ticket;

const SECOND: i64 = 1_000_000;

fn transient_contract(storage: &mut MemoryStorage) {
    let delivered = [0x11; 32];
    let processed = [0x22; 32];
    assert!(!storage.contains_transient_id(TransientIdKind::LocallyDelivered, &delivered).unwrap());
    storage.upsert_transient_id(TransientIdKind::LocallyDelivered, delivered, 100).unwrap();
    storage
        .upsert_transient_ids(&vec![
            (TransientIdKind::LocallyDelivered, delivered, 200),
            (TransientIdKind::LocallyProcessed, processed, 150),
            (TransientIdKind::LocallyProcessed, [0x33; 32], 174),
            (TransientIdKind::LocallyProcessed, [0x34; 32], 175),
        ])
        .unwrap();
    assert!(storage.contains_transient_id(TransientIdKind::LocallyDelivered, &delivered).unwrap());
    assert_eq!(storage.transient_id_count(TransientIdKind::LocallyDelivered).unwrap(), 1);
    assert_eq!(storage.cull_transient_ids_before(175).unwrap(), 2);
    assert!(!storage.contains_transient_id(TransientIdKind::LocallyProcessed, &processed).unwrap());
    assert!(storage.contains_transient_id(TransientIdKind::LocallyProcessed, &[0x34; 32]).unwrap());
}

fn message_contract(storage: &mut MemoryStorage) {
    let first = StoredMessage::new([1; 32], [11; 32], [21; 16], 100, 8, vec![1, 2], false);
    let second = StoredMessage::new([2; 32], [12; 32], [21; 16], 200, 9, vec![3; 3], true);
    let third = StoredMessage::new([3; 32], [13; 32], [22; 16], 300, 10, vec![4; 4], false);
    assert!(storage.insert_message(&second).unwrap());
    assert!(storage.insert_message(&first).unwrap());
    assert!(storage.insert_message(&third).unwrap());
    assert!(!storage.insert_message(&first).unwrap());

    let metadata = storage.message_metadata(&[2; 32]).unwrap().unwrap();
    assert_eq!(metadata.payload_size, 3);
    assert!(metadata.stamped);
    assert_eq!(storage.message_payload(&[2; 32]).unwrap(), Some(vec![3; 3]));

    let page = storage.message_metadata_page(None, 2).unwrap();
    assert_eq!(page.len(), 2);
    assert_eq!(page[0].transient_id, [1; 32]);
    assert_eq!(page[1].transient_id, [2; 32]);
    let next = storage.message_metadata_page(Some(&page[1].transient_id), 2).unwrap();
    assert_eq!(next.len(), 1);
    assert_eq!(next[0].transient_id, [3; 32]);

    let destination = storage.message_metadata_for_destination(&[21; 16], None, 10).unwrap();
    assert_eq!(destination.len(), 2);
    assert!(storage.set_message_collected(&[1; 32], true).unwrap());
    assert!(storage.message_metadata(&[1; 32]).unwrap().unwrap().collected);
    assert!(!storage.set_message_collected(&[9; 32], true).unwrap());

    assert_eq!(
        storage.message_store_stats().unwrap(),
        MessageStoreStats { count: 3, payload_size: 9 }
    );
    assert!(storage.remove_message(&[2; 32]).unwrap());
    assert!(!storage.remove_message(&[2; 32]).unwrap());
    assert_eq!(storage.message_store_stats().unwrap().count, 2);
    assert_eq!(storage.remove_messages_stored_before(300, 1).unwrap(), 1);
    assert_eq!(storage.message_store_stats().unwrap().count, 1);
    assert_eq!(storage.remove_messages_stored_before(300, 10).unwrap(), 0);
}

fn weighted_culling_contract(storage: &mut MemoryStorage) {
    let prioritised_destination = [0xAA; 16];
    let prioritised = StoredMessage::new(
        [0x11; 32],
        [0x21; 32],
        prioritised_destination,
        1_000,
        0,
        vec![0; 50],
        false,
    );
    let ordinary =
        StoredMessage::new([0x12; 32], [0x22; 32], [0xBB; 16], 1_000, 0, vec![0; 10], false);
    storage.insert_message(&prioritised).unwrap();
    storage.insert_message(&ordinary).unwrap();

    assert_eq!(
        storage.remove_messages_by_weight(1, 1_000, &vec![prioritised_destination], 1).unwrap(),
        1
    );
    assert!(storage.message_metadata(&[0x11; 32]).unwrap().is_some());
    assert!(storage.message_metadata(&[0x12; 32]).unwrap().is_none());
    assert_eq!(storage.message_store_stats().unwrap().payload_size, 50);
}

fn outbound_contract(storage: &mut MemoryStorage) {
    let first = StoredOutboundMessage {
        metadata: StoredOutboundMetadata {
            message_id: [0x41; 32],
            destination_hash: [0x51; 16],
            state: 1,
            delivery_method: 2,
            deferred: false,
            next_delivery_attempt: 100_500_000,
            last_delivery_attempt: 90_250_000,
            delivery_attempts: 2,
            created_at: 50.0f64.to_bits(),
            progress: 250_000,
        },
        encoded_message: vec![0x61; 64],
    };
    let mut deferred = first.clone();
    deferred.metadata.message_id = [0x42; 32];
    deferred.metadata.deferred = true;
    deferred.metadata.next_delivery_attempt = 0;
    deferred.encoded_message = vec![0x62; 32];
    storage.upsert_outbound_message(&first).unwrap();
    storage.upsert_outbound_message(&deferred).unwrap();

    assert_eq!(storage.outbound_count(None).unwrap(), 2);
    assert_eq!(storage.outbound_count(Some(false)).unwrap(), 1);
    assert!(storage.outbound_ready(100 * SECOND, false, 8).unwrap().is_empty());
    assert_eq!(storage.outbound_ready(101 * SECOND, false, 8).unwrap(), vec![first.metadata]);
    assert_eq!(storage.outbound_ready(SECOND, true, 8).unwrap(), vec![deferred.metadata]);
    let read = storage.outbound_message(&[0x41; 32]).unwrap().unwrap();
    assert_eq!(read.metadata, first.metadata);
    assert_eq!(read.encoded_message, first.encoded_message);

    let mut updated = first.metadata;
    updated.delivery_attempts = 3;
    updated.progress = 750_000;
    updated.next_delivery_attempt = 200 * SECOND;
    assert!(storage.update_outbound_delivery(&updated).unwrap());
    assert_eq!(storage.outbound_message(&[0x41; 32]).unwrap().unwrap().metadata, updated);
    assert!(storage.remove_outbound_message(&[0x41; 32]).unwrap());
    assert!(!storage.remove_outbound_message(&[0x41; 32]).unwrap());
}

fn ticket_and_stamp_cost_contract(storage: &mut MemoryStorage) {
    let destination = [0x71; 16];
    let ticket = Ticket::new([0x72; 16], destination, 200 * SECOND);
    storage.upsert_ticket(&ticket).unwrap();
    assert_eq!(
        storage.valid_ticket(&destination, 100 * SECOND).unwrap().unwrap().token,
        ticket.token
    );
    assert!(storage.valid_ticket(&destination, 201 * SECOND).unwrap().is_none());
    assert_eq!(storage.remove_tickets(&destination).unwrap(), 1);

    let entry =
        StoredStampCost { destination_hash: destination, cost: 9, recorded_at: 100 * SECOND };
    storage.upsert_stamp_cost(entry).unwrap();
    assert_eq!(storage.stamp_cost(&destination).unwrap(), Some(entry));
    assert_eq!(storage.cull_stamp_costs_before(101 * SECOND).unwrap(), 1);
    assert!(storage.stamp_cost(&destination).unwrap().is_none());
}

fn identity_and_ratchet_contract(storage: &mut MemoryStorage) {
    let identity = StoredIdentity {
        destination_hash: [0x81; 16],
        public_key: [0x82; 64],
        updated_at: 10 * SECOND,
    };
    storage.upsert_identity(identity).unwrap();
    assert_eq!(storage.identity(&identity.destination_hash).unwrap(), Some(identity));
    assert_eq!(storage.identity_page(1).unwrap(), vec![identity]);
    let first = StoredRatchet {
        destination_hash: identity.destination_hash,
        ratchet_key: [0x83; 32],
        received_at: 20 * SECOND,
    };
    storage.upsert_ratchet(first).unwrap();
    let replacement =
        StoredRatchet { ratchet_key: [0x84; 32], received_at: 30 * SECOND, ..first };
    storage.upsert_ratchet(replacement).unwrap();
    assert_eq!(storage.ratchet(&identity.destination_hash).unwrap(), Some(replacement));
    assert_eq!(storage.ratchet_page(25 * SECOND, 1).unwrap(), vec![replacement]);
    assert_eq!(storage.cull_ratchets_before(31 * SECOND).unwrap(), 1);
}

#[test]
fn memory_storage_contract() {
    let mut storage = MemoryStorage::new();
    transient_contract(&mut storage);
    message_contract(&mut storage);
    let mut weighted_storage = MemoryStorage::new();
    weighted_culling_contract(&mut weighted_storage);
    let mut outbound_storage = MemoryStorage::new();
    outbound_contract(&mut outbound_storage);
    let mut durable_state = MemoryStorage::new();
    ticket_and_stamp_cost_contract(&mut durable_state);
    identity_and_ratchet_contract(&mut durable_state);
}

#[test]
fn inconsistent_messages_are_refused() {
    let mut storage = MemoryStorage::new();
    let mut message = StoredMessage::new([1; 32], [2; 32], [3; 16], 1, 0, vec![1, 2], false);
    message.metadata.payload_size = 3;
    assert!(matches!(storage.insert_message(&message), Err(StorageError::InvalidData(_))));
    assert_eq!(storage.message_store_stats().unwrap().count, 0);
}

#[test]
fn a_second_message_does_not_take_the_place_of_the_first() {
    let mut storage = MemoryStorage::new();
    let first = StoredMessage::new([1; 32], [2; 32], [3; 16], 1, 0, vec![1, 2], false);
    let second = StoredMessage::new([1; 32], [2; 32], [3; 16], 2, 5, vec![9], true);
    assert!(storage.insert_message(&first).unwrap());
    assert!(!storage.insert_message(&second).unwrap());
    assert_eq!(storage.message_payload(&[1; 32]).unwrap(), Some(vec![1, 2]));
    assert_eq!(storage.message_metadata(&[1; 32]).unwrap(), Some(first.metadata));
}

#[test]
fn pages_list_every_message_once() {
    let mut storage = MemoryStorage::new();
    for byte in [9u8, 4, 7, 1, 8, 2] {
        storage
            .insert_message(&StoredMessage::new([byte; 32], [0; 32], [0; 16], 1, 0, vec![], false))
            .unwrap();
    }
    let mut seen = Vec::new();
    let mut cursor: Option<[u8; 32]> = None;
    loop {
        let page = storage.message_metadata_page(cursor.as_ref(), 2).unwrap();
        if page.is_empty() {
            break;
        }
        seen.extend(page.iter().map(|m| m.transient_id[0]));
        cursor = page.last().map(|m| m.transient_id);
    }
    assert_eq!(seen, vec![1, 2, 4, 7, 8, 9]);
}

#[test]
fn joined_pages_are_the_longer_page() {
    let mut storage = MemoryStorage::new();
    for byte in [9u8, 4, 7, 1, 8, 2] {
        storage
            .insert_message(&StoredMessage::new([byte; 32], [0; 32], [0; 16], 1, 0, vec![], false))
            .unwrap();
    }
    for after in [None, Some([0; 32]), Some([4; 32]), Some([5; 32])] {
        for limit in 1..8 {
            for more in 0..8 {
                let mut joined = storage.message_metadata_page(after.as_ref(), limit).unwrap();
                let last = joined.last().unwrap().transient_id;
                joined.extend(storage.message_metadata_page(Some(&last), more).unwrap());
                let long = storage.message_metadata_page(after.as_ref(), limit + more).unwrap();
                assert_eq!(joined, long);
            }
        }
    }
}

#[test]
fn the_oldest_messages_are_dropped_first() {
    let mut storage = MemoryStorage::new();
    for (byte, stored_at) in [(1u8, 30), (2, 10), (3, 20)] {
        storage
            .insert_message(&StoredMessage::new(
                [byte; 32],
                [0; 32],
                [0; 16],
                stored_at,
                0,
                vec![0],
                false,
            ))
            .unwrap();
    }
    assert_eq!(storage.remove_messages_stored_before(100, 2).unwrap(), 2);
    assert!(storage.message_metadata(&[1; 32]).unwrap().is_some());
    assert!(storage.message_metadata(&[2; 32]).unwrap().is_none());
    assert!(storage.message_metadata(&[3; 32]).unwrap().is_none());
}

#[test]
fn peers_and_blobs_are_replaced() {
    let mut storage = MemoryStorage::new();
    storage.replace_peers(&vec![([2; 16], vec![2]), ([1; 16], vec![1])]).unwrap();
    assert_eq!(storage.peer_page(1).unwrap().len(), 1);
    let mut page = storage.peer_page(8).unwrap();
    page.sort();
    assert_eq!(page, vec![([1; 16], vec![1]), ([2; 16], vec![2])]);
    storage.replace_peers(&vec![([3; 16], vec![3])]).unwrap();
    assert_eq!(storage.peer_page(8).unwrap(), vec![([3; 16], vec![3])]);
    storage.put_state_blob("a", &[1]).unwrap();
    storage.put_state_blob("a", &[2]).unwrap();
    assert_eq!(storage.state_blob("a").unwrap(), Some(vec![2]));
    assert_eq!(storage.state_blob("b").unwrap(), None);
}
