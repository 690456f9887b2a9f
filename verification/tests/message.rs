//! Messages: composing, signing, packing and reading back.

use base64::Engine;
use lxmf_core::constants::{
    DeliveryMethod, DeliveryRepresentation, MessageState, COST_TICKET, DESTINATION_LENGTH,
    FIELD_AUDIO, FIELD_FILE_ATTACHMENTS, FIELD_IMAGE, TICKET_LENGTH,
};
use lxmf_core::crypto::{truncated_hash, verifying_key};
use lxmf_core::fields::{FieldIds, FieldMap};
use lxmf_core::message::{LxMessage, MessageError};
use lxmf_core::payload;
use lxmf_core::propagated::MIN_PROPAGATION_ENTRY_SIZE;

const KEY: [u8; 32] = [7; 32];
const OTHER_KEY: [u8; 32] = [9; 32];

fn at() -> u64 {
    1_700_000_000.0f64.to_bits()
}

fn message(title: &str, content: &str, method: DeliveryMethod) -> LxMessage {
    LxMessage::new([0xAA; 16], [0xBB; 16], title, content, method, at())
}

fn signed(title: &str, content: &str, method: DeliveryMethod) -> LxMessage {
    let mut msg = message(title, content, method);
    msg.sign(&KEY).unwrap();
    msg
}

fn same(bytes: &[u8]) -> Result<Vec<u8>, MessageError> {
    Ok(bytes.to_vec())
}

fn no_stamp(_id: &[u8; 32], _cost: u8) -> Option<([u8; 32], u32)> {
    None
}

fn no_proof(_id: &[u8; 32], _stamp: &[u8; 32], _cost: u8) -> Option<u32> {
    None
}

fn encode(value: &rmpv::Value) -> Vec<u8> {
    let mut out = Vec::new();
    rmpv::encode::write_value(&mut out, value).unwrap();
    out
}

fn decode(data: &[u8]) -> rmpv::Value {
    rmpv::decode::read_value(&mut &data[..]).unwrap()
}

fn joined(parts: &[&[u8]]) -> Vec<u8> {
    parts.concat()
}

#[test]
fn test_new_message() {
    let msg = message("Hello", "World", DeliveryMethod::Direct);
    assert_eq!(msg.state, MessageState::Generating);
    assert_eq!(msg.method, DeliveryMethod::Direct);
    assert!(f64::from_bits(msg.timestamp) > 0.0);
    assert!(msg.signature.is_none());
    assert!(!msg.signature_validated);
    assert!(msg.auto_compress);
}

#[test]
fn compression_is_decided_by_what_the_peer_supports() {
    let mut msg = message("t", "c", DeliveryMethod::Direct);
    msg.determine_compression_support(Some(true));
    assert!(msg.auto_compress);
    msg.determine_compression_support(Some(false));
    assert!(!msg.auto_compress);
    msg.determine_compression_support(None);
    assert!(msg.auto_compress);
}

#[test]
fn test_source_blackholed_defaults_false() {
    let msg = message("t", "c", DeliveryMethod::Direct);
    assert!(!msg.source_blackholed);

    let outbound = signed("Title", "Content", DeliveryMethod::Direct);
    let packed = outbound.pack().unwrap();
    let unpacked = LxMessage::unpack(&packed).unwrap();
    assert!(!unpacked.source_blackholed);
}

#[test]
fn test_pack_payload() {
    let msg = message("Test", "Content", DeliveryMethod::Direct);
    let payload = msg.pack_payload().unwrap();
    assert!(!payload.is_empty());
}

#[test]
fn test_payload_ref_byte_identical_to_owned() {
    let mut fields = FieldMap::new();
    fields.insert(FIELD_IMAGE, b"\x00\x01\x02\x03".to_vec());
    fields.insert(FIELD_AUDIO, b"audio-bytes".to_vec());

    let cases = [None, Some(vec![0xAB; 32]), Some(vec![0xCD; TICKET_LENGTH])];
    for stamp in cases.iter() {
        let mut items = vec![
            rmpv::Value::F64(1700000000.0),
            rmpv::Value::Binary(b"title".to_vec()),
            rmpv::Value::Binary("content body \u{1F600}".as_bytes().to_vec()),
            rmpv::Value::Map(vec![
                (
                    rmpv::Value::from(FIELD_IMAGE),
                    rmpv::Value::Binary(b"\x00\x01\x02\x03".to_vec()),
                ),
                (
                    rmpv::Value::from(FIELD_AUDIO),
                    rmpv::Value::Binary(b"audio-bytes".to_vec()),
                ),
            ]),
        ];
        if let Some(s) = stamp {
            items.push(rmpv::Value::Binary(s.clone()));
        }
        let expected = encode(&rmpv::Value::Array(items));
        let packed = payload::pack(
            at(),
            "title",
            "content body \u{1F600}",
            &fields,
            &FieldIds::new(),
            stamp.as_deref(),
        )
        .unwrap();
        assert_eq!(packed, expected, "payload differs for stamp={:?}", stamp.is_some());
    }
}

#[test]
fn test_sign_and_verify() {
    let mut msg = message("Signed Message", "Content here", DeliveryMethod::Direct);
    msg.sign(&KEY).unwrap();
    assert!(msg.signature.is_some());
    assert_eq!(msg.state, MessageState::Outbound);
    assert!(msg.verify(&verifying_key(&KEY)));
    assert!(msg.signature_validated);
}

#[test]
fn test_sign_verify_wrong_key() {
    let mut msg = signed("Test", "Content", DeliveryMethod::Direct);
    assert!(!msg.verify(&verifying_key(&OTHER_KEY)));
}

#[test]
fn bytes_that_are_no_key_verify_nothing() {
    let mut msg = signed("Test", "Content", DeliveryMethod::Direct);
    let mut no_point = [0u8; 32];
    no_point[0] = 2;
    assert!(!msg.verify(&no_point));
    assert!(!msg.signature_validated);
}

#[test]
fn test_pack_unpack_roundtrip() {
    let msg = signed("Round Trip", "Full content test", DeliveryMethod::Direct);
    let packed = msg.pack().unwrap();
    assert!(packed.len() > 96);
    let unpacked = LxMessage::unpack(&packed).unwrap();

    assert_eq!(unpacked.destination_hash, msg.destination_hash);
    assert_eq!(unpacked.source_hash, msg.source_hash);
    assert_eq!(unpacked.title, msg.title);
    assert_eq!(unpacked.content, msg.content);
    assert_eq!(unpacked.signature, msg.signature);
    assert!(unpacked.hash.is_some());
    assert!(unpacked.transient_id.is_some());
}

#[test]
fn messages_of_any_text_and_method_read_back() {
    let texts = ["", "plain", "\u{1F600} \u{e9}t\u{e9}", "line\nbreak\u{0}"];
    let methods =
        [DeliveryMethod::Opportunistic, DeliveryMethod::Direct, DeliveryMethod::Propagated];
    for title in texts {
        for content in texts {
            for method in methods {
                let msg = signed(title, content, method);
                let mut unpacked = LxMessage::unpack(&msg.pack().unwrap()).unwrap();
                assert_eq!(unpacked.title, title);
                assert_eq!(unpacked.content, content);
                assert_eq!(unpacked.timestamp, at());
                assert_eq!(unpacked.signature, msg.signature);
                assert!(unpacked.verify(&verifying_key(&KEY)));
            }
        }
    }
}

#[test]
fn a_changed_payload_no_longer_verifies() {
    let msg = signed("Title", "Content", DeliveryMethod::Direct);
    let mut packed = msg.pack().unwrap();
    let last = packed.len() - 2;
    packed[last] ^= 1;
    let mut unpacked = LxMessage::unpack(&packed).unwrap();
    assert!(!unpacked.verify(&verifying_key(&KEY)));
}

#[test]
fn test_pack_propagated_unpack_roundtrip() {
    let msg = signed("Propagated Round Trip", "Full content test", DeliveryMethod::Propagated);
    let packed = msg.pack_propagated().unwrap();
    let unpacked = LxMessage::unpack_propagated(&packed).unwrap();

    assert_eq!(unpacked.destination_hash, [0xAA; 16]);
    assert_eq!(unpacked.source_hash, [0xBB; 16]);
    assert_eq!(unpacked.title, msg.title);
    assert_eq!(unpacked.content, msg.content);
}

#[test]
fn test_fields() {
    let mut msg = LxMessage::new([0; 16], [0; 16], "", "", DeliveryMethod::Direct, at());
    msg.set_field(FIELD_IMAGE, vec![1, 2, 3]);
    assert_eq!(msg.get_field(FIELD_IMAGE), Some(&vec![1, 2, 3]));
    assert_eq!(msg.get_field(FIELD_AUDIO), None);
}

#[test]
fn test_msgpack_field_serializes_as_native_value() {
    let image_value = rmpv::Value::Array(vec![
        rmpv::Value::String("png".into()),
        rmpv::Value::Binary(vec![0x89, b'P', b'N', b'G']),
    ]);
    let image_bytes = encode(&image_value);

    let mut msg = LxMessage::new(
        [0x11; 16],
        [0x22; 16],
        "Image",
        "Has image",
        DeliveryMethod::Direct,
        at(),
    );
    msg.set_msgpack_field(FIELD_IMAGE, image_bytes.clone()).unwrap();

    let value = decode(&msg.pack_payload().unwrap());
    let arr = value.as_array().unwrap();
    let fields = arr[3].as_map().unwrap();
    let (_, field_value) = fields
        .iter()
        .find(|(k, _)| k.as_u64() == Some(FIELD_IMAGE as u64))
        .expect("FIELD_IMAGE present");
    assert!(field_value.as_array().is_some());

    msg.sign(&KEY).unwrap();
    let unpacked = LxMessage::unpack(&msg.pack().unwrap()).unwrap();
    assert_eq!(unpacked.get_field(FIELD_IMAGE), Some(&image_bytes));
    assert!(unpacked.msgpack_field_ids.contains(&FIELD_IMAGE));
}

#[test]
fn test_file_attachment_field_serializes_as_native_lxmf_shape() {
    let attachment_value = rmpv::Value::Array(vec![rmpv::Value::Array(vec![
        rmpv::Value::String("note.txt".into()),
        rmpv::Value::Binary(b"hello".to_vec()),
    ])]);
    let attachment_bytes = encode(&attachment_value);

    let mut msg = LxMessage::new(
        [0x11; 16],
        [0x22; 16],
        "File",
        "Has file",
        DeliveryMethod::Direct,
        at(),
    );
    msg.set_msgpack_field(FIELD_FILE_ATTACHMENTS, attachment_bytes.clone()).unwrap();

    let value = decode(&msg.pack_payload().unwrap());
    let arr = value.as_array().unwrap();
    let fields = arr[3].as_map().unwrap();
    let (_, field_value) = fields
        .iter()
        .find(|(k, _)| k.as_u64() == Some(FIELD_FILE_ATTACHMENTS as u64))
        .expect("FIELD_FILE_ATTACHMENTS present");
    let attachment = field_value.as_array().unwrap()[0].as_array().unwrap();
    assert_eq!(attachment[0].as_str(), Some("note.txt"));
    assert_eq!(attachment[1].as_slice(), Some(&b"hello"[..]));

    msg.sign(&KEY).unwrap();
    let unpacked = LxMessage::unpack(&msg.pack().unwrap()).unwrap();
    assert_eq!(unpacked.get_field(FIELD_FILE_ATTACHMENTS), Some(&attachment_bytes));
    assert!(unpacked.msgpack_field_ids.contains(&FIELD_FILE_ATTACHMENTS));
}

#[test]
fn msgpack_fields_must_be_one_value() {
    let mut msg = message("t", "c", DeliveryMethod::Direct);
    assert!(matches!(
        msg.set_msgpack_field(FIELD_IMAGE, vec![0xC4, 5]),
        Err(MessageError::PackFailed(_))
    ));
    assert!(matches!(
        msg.set_msgpack_field(FIELD_IMAGE, vec![0x01, 0x02]),
        Err(MessageError::PackFailed(_))
    ));
    assert_eq!(msg.get_field(FIELD_IMAGE), None);
}

#[test]
fn extension_values_cannot_be_packed() {
    let mut msg = message("t", "c", DeliveryMethod::Direct);
    msg.set_msgpack_field(FIELD_IMAGE, vec![0xD4, 0x01, 0x00]).unwrap();
    assert!(matches!(msg.pack_payload(), Err(MessageError::PackFailed(_))));
    assert!(matches!(msg.sign(&KEY), Err(MessageError::PackFailed(_))));
    assert!(msg.signature.is_none());
}

#[test]
fn test_state_transitions() {
    let mut msg = LxMessage::new([0; 16], [0; 16], "", "", DeliveryMethod::Direct, at());
    assert_eq!(msg.state, MessageState::Generating);

    msg.state = MessageState::Outbound;
    msg.cancel();
    assert_eq!(msg.state, MessageState::Cancelled);
}

#[test]
fn marked_states_are_kept() {
    let mut msg = message("t", "c", DeliveryMethod::Direct);
    msg.mark_sending();
    assert_eq!(msg.state, MessageState::Sending);
    msg.mark_sent();
    assert_eq!(msg.state, MessageState::Sent);
    msg.mark_delivered();
    assert_eq!(msg.state, MessageState::Delivered);
    msg.mark_failed();
    assert_eq!(msg.state, MessageState::Failed);
    msg.mark_rejected();
    assert_eq!(msg.state, MessageState::Rejected);
}

#[test]
fn test_base64url_roundtrip() {
    let data = b"Hello, LXMF World! This is a test message.";
    let encoded = base64::engine::general_purpose::URL_SAFE_NO_PAD.encode(data);
    let decoded = base64::engine::general_purpose::URL_SAFE_NO_PAD.decode(&encoded).unwrap();
    assert_eq!(decoded, data);
}

#[test]
fn test_paper_uri() {
    let mut msg = LxMessage::new(
        [0x11; 16],
        [0x22; 16],
        "Paper",
        "Message",
        DeliveryMethod::Paper,
        at(),
    );
    msg.sign(&KEY).unwrap();

    let uri = msg.to_paper_uri(same).unwrap();
    assert!(uri.starts_with("lxm://"));

    let decoded = LxMessage::from_paper_uri(&uri, same).unwrap();
    assert_eq!(decoded.destination_hash, msg.destination_hash);
    assert_eq!(decoded.title, "Paper");
    assert_eq!(decoded.method, DeliveryMethod::Paper);
    assert_eq!(decoded.representation, DeliveryRepresentation::Paper);
}

#[test]
fn paper_uris_hold_the_packed_message() {
    let msg = signed("Paper", "Message", DeliveryMethod::Paper);
    let uri = msg.to_paper_uri(same).unwrap();
    let expected =
        base64::engine::general_purpose::URL_SAFE_NO_PAD.encode(msg.pack().unwrap());
    assert_eq!(uri, format!("lxm://{expected}"));
}

#[test]
fn only_paper_messages_have_a_paper_uri() {
    let msg = signed("t", "c", DeliveryMethod::Direct);
    assert!(matches!(msg.to_paper_uri(same), Err(MessageError::PackFailed(_))));
}

#[test]
fn test_paper_uri_uses_identity_encryption() {
    fn veil(bytes: &[u8]) -> Result<Vec<u8>, MessageError> {
        Ok(bytes.iter().map(|b| b ^ 0x5A).collect())
    }
    let msg = signed("Paper", "encrypted", DeliveryMethod::Paper);
    let plaintext_tail = msg.pack().unwrap()[DESTINATION_LENGTH..].to_vec();

    let uri = msg.to_paper_uri(veil).unwrap();
    let (dest_hash, encrypted_tail) = LxMessage::decode_paper_uri(&uri).unwrap();
    assert_eq!(dest_hash, [0xAA; 16]);
    assert_ne!(encrypted_tail, plaintext_tail);

    let decoded = LxMessage::from_paper_uri(&uri, veil).unwrap();
    assert_eq!(decoded.destination_hash, [0xAA; 16]);
    assert_eq!(decoded.content, "encrypted");
}

#[test]
fn test_sign_sets_hash() {
    let mut msg = message("Hash", "Content", DeliveryMethod::Direct);
    assert!(msg.hash.is_none());
    msg.sign(&KEY).unwrap();
    assert!(msg.hash.is_some());
    let payload = msg.pack_payload().unwrap();
    let hashed_part = joined(&[&msg.destination_hash, &msg.source_hash, &payload]);
    let expected = rns_crypto::sha256::sha256(&hashed_part);
    assert_eq!(msg.hash.unwrap(), expected);
}

#[test]
fn test_unpack_sets_python_message_id() {
    let msg = signed("Hash", "Content", DeliveryMethod::Direct);
    let expected = msg.hash.unwrap();

    let unpacked = LxMessage::unpack(&msg.pack().unwrap()).unwrap();

    assert_eq!(unpacked.hash, Some(expected));
    assert_eq!(unpacked.message_id, Some(expected));
}

#[test]
fn test_unpack_hash_strips_stamp() {
    let mut msg = signed("Stamped", "Content", DeliveryMethod::Direct);
    let expected = msg.hash.unwrap();
    msg.stamp = Some(vec![0x42; 32]);

    let unpacked = LxMessage::unpack(&msg.pack().unwrap()).unwrap();

    assert_eq!(unpacked.hash, Some(expected));
    assert_eq!(unpacked.message_id, Some(expected));
}

#[test]
fn test_sign_verify_with_message_hash_appended() {
    let mut msg = LxMessage::new(
        [0x11; 16],
        [0x22; 16],
        "Test",
        "Body",
        DeliveryMethod::Direct,
        at(),
    );
    msg.sign(&KEY).unwrap();

    let payload = msg.pack_payload().unwrap();
    let hashed_part = joined(&[&msg.destination_hash, &msg.source_hash, &payload]);
    let message_hash = rns_crypto::sha256::sha256(&hashed_part);
    let signed_data = joined(&[&hashed_part, &message_hash]);

    let sig = msg.signature.unwrap();
    let public = verifying_key(&KEY);
    let outside = rns_crypto::ed25519::Ed25519PublicKey::from_bytes(&public).unwrap();
    assert!(outside.verify(&sig, &signed_data));
    assert!(msg.verify(&public));
}

#[test]
fn signing_can_be_left_to_another() {
    let mut msg = message("t", "c", DeliveryMethod::Direct);
    let payload = msg.pack_payload().unwrap();
    let hashed = joined(&[&msg.destination_hash, &msg.source_hash, &payload]);
    let digest = rns_crypto::sha256::sha256(&hashed);
    let expected = joined(&[&hashed, &digest]);
    msg.sign_with(|data: &[u8]| -> Result<[u8; 64], ()> {
        assert_eq!(data, expected.as_slice());
        Ok([3; 64])
    })
    .unwrap();
    assert_eq!(msg.signature, Some([3; 64]));
    assert_eq!(msg.hash, Some(digest));

    let mut refused = message("t", "c", DeliveryMethod::Direct);
    let r = refused.sign_with(|_data: &[u8]| -> Result<[u8; 64], ()> { Err(()) });
    assert!(matches!(r, Err(MessageError::PackFailed(_))));
    assert!(refused.signature.is_none());
}

#[test]
fn test_unpack_bin_encoded_title_content() {
    let mut payload = Vec::new();
    payload.push(0x94);
    payload.push(0xCB);
    payload.extend_from_slice(&1700000000.0_f64.to_be_bytes());
    payload.push(0xC4);
    payload.push(5);
    payload.extend_from_slice(b"Hello");
    payload.push(0xC4);
    payload.push(10);
    payload.extend_from_slice(b"World body");
    payload.push(0x80);

    let wire = joined(&[&[0xAA; 16], &[0xBB; 16], &[0x00; 64], &payload]);

    let msg = LxMessage::unpack(&wire).unwrap();
    assert_eq!(msg.title, "Hello");
    assert_eq!(msg.content, "World body");
    assert_eq!(msg.destination_hash, [0xAA; 16]);
    assert_eq!(msg.source_hash, [0xBB; 16]);
}

#[test]
fn bytes_that_are_no_text_are_shown_as_far_as_they_are() {
    let payload = encode(&rmpv::Value::Array(vec![
        rmpv::Value::F64(1.0),
        rmpv::Value::Binary(vec![b'a', 0xFF, b'b']),
        rmpv::Value::String("text".into()),
        rmpv::Value::Map(vec![]),
    ]));
    let wire = joined(&[&[0xAA; 16], &[0xBB; 16], &[0x00; 64], &payload]);
    let msg = LxMessage::unpack(&wire).unwrap();
    assert_eq!(msg.title, "a\u{FFFD}b");
    assert_eq!(msg.content, "text");
}

#[test]
fn test_unpack_too_short() {
    assert!(LxMessage::unpack(&[0; 10]).is_err());
    assert!(LxMessage::unpack(&[0; 96]).is_err());
    assert!(matches!(LxMessage::unpack(&[0; 96]), Err(MessageError::TooShort(96))));
}

#[test]
fn malformed_payloads_are_refused() {
    let header = [0u8; 96];
    for payload in [
        vec![0xC1],
        vec![0x01],
        vec![0x93, 0xCB, 0, 0, 0, 0, 0, 0, 0, 0, 0xC0, 0xC0],
        vec![0x94, 0xC0, 0xC0, 0xC0, 0x80],
    ] {
        let wire = joined(&[&header, &payload]);
        assert!(matches!(LxMessage::unpack(&wire), Err(MessageError::UnpackFailed(_))));
    }
}

#[test]
fn unsigned_messages_cannot_be_packed() {
    let msg = message("t", "c", DeliveryMethod::Direct);
    assert!(matches!(msg.pack(), Err(MessageError::NotSigned)));
    assert!(matches!(msg.pack_container(), Err(MessageError::NotSigned)));
}

#[test]
fn test_pack_unpack_container_roundtrip() {
    let mut msg = signed("Container Test", "Content for container", DeliveryMethod::Direct);
    msg.state = MessageState::Delivered;
    msg.transport_encrypted = true;
    msg.transport_encryption = Some("Curve25519".to_string());

    let container_data = msg.pack_container().unwrap();
    assert!(!container_data.is_empty());

    let unpacked = LxMessage::unpack_container(&container_data).unwrap();
    assert_eq!(unpacked.state, MessageState::Delivered);
    assert_eq!(unpacked.method, DeliveryMethod::Direct);
    assert!(unpacked.transport_encrypted);
    assert_eq!(unpacked.transport_encryption.as_deref(), Some("Curve25519"));
    assert_eq!(unpacked.title, "Container Test");
    assert_eq!(unpacked.content, "Content for container");
}

#[test]
fn outbound_storage_encoding_preserves_non_wire_fields() {
    let mut message = signed("durable", "outbound", DeliveryMethod::Direct);
    message.state = MessageState::Outbound;
    message.method = DeliveryMethod::Propagated;
    message.propagation_stamp = Some([0x11; 32]);
    message.ratchet_id = Some([0x22; 32]);
    message.stamp_cost = Some(7);
    message.outbound_ticket = Some([0x33; 16]);
    message.stamp_value = Some(9);
    message.representation = DeliveryRepresentation::Resource;
    message.auto_compress = false;

    let decoded =
        LxMessage::decode_outbound_storage(&message.encode_outbound_storage().unwrap()).unwrap();
    assert_eq!(decoded.destination_hash, message.destination_hash);
    assert_eq!(decoded.source_hash, message.source_hash);
    assert_eq!(decoded.title, message.title);
    assert_eq!(decoded.content, message.content);
    assert_eq!(decoded.state, MessageState::Outbound);
    assert_eq!(decoded.method, DeliveryMethod::Propagated);
    assert_eq!(decoded.propagation_stamp, Some([0x11; 32]));
    assert_eq!(decoded.ratchet_id, Some([0x22; 32]));
    assert_eq!(decoded.stamp_cost, Some(7));
    assert_eq!(decoded.outbound_ticket, Some([0x33; 16]));
    assert_eq!(decoded.stamp_value, Some(9));
    assert_eq!(decoded.representation, DeliveryRepresentation::Resource);
    assert!(!decoded.auto_compress);
}

#[test]
fn malformed_envelopes_are_refused() {
    assert!(matches!(
        LxMessage::decode_outbound_storage(&[0xC0]),
        Err(MessageError::UnpackFailed(_))
    ));
    let msg = signed("t", "c", DeliveryMethod::Direct);
    let good = msg.encode_outbound_storage().unwrap();
    let mut value = decode(&good);
    if let rmpv::Value::Map(entries) = &mut value {
        for (name, v) in entries.iter_mut() {
            if name.as_str() == Some("version") {
                *v = rmpv::Value::from(99u8);
            }
        }
    }
    assert!(matches!(
        LxMessage::decode_outbound_storage(&encode(&value)),
        Err(MessageError::UnpackFailed(_))
    ));
}

#[test]
fn test_pack_unpack_container_method_variants() {
    for method in [DeliveryMethod::Paper, DeliveryMethod::Direct, DeliveryMethod::Propagated] {
        let msg = signed("t", "c", method);
        let unpacked = LxMessage::unpack_container(&msg.pack_container().unwrap()).unwrap();
        assert_eq!(unpacked.method, method, "method round-trip for {:?}", method);
    }
}

#[test]
fn test_new_message_fields() {
    let msg = LxMessage::new([0; 16], [0; 16], "", "", DeliveryMethod::Direct, at());
    assert_eq!(msg.representation, DeliveryRepresentation::Unknown);
    assert!(msg.unverified_reason.is_none());
    assert!(!msg.transport_encrypted);
    assert!(!msg.incoming);
    assert_eq!(msg.progress, 0);
}

#[test]
fn test_compute_hash() {
    let mut msg = signed("Hash Test", "Content", DeliveryMethod::Direct);
    let hash = msg.compute_hash().unwrap();
    assert_ne!(hash, [0u8; 32]);
    assert!(msg.transient_id.is_some());
}

#[test]
fn test_sign_sets_message_id() {
    let mut msg = message("Test", "Content", DeliveryMethod::Direct);
    assert!(msg.message_id.is_none());
    msg.sign(&KEY).unwrap();
    assert!(msg.message_id.is_some());
    assert_eq!(msg.message_id, msg.hash);
}

#[test]
fn test_pack_propagated_encrypted() {
    let mut msg = signed("Propagated Encrypted", "Content body here", DeliveryMethod::Propagated);

    let (propagation_packed, tid) = msg
        .pack_propagated_encrypted(
            |plaintext: &[u8]| {
                let mut out = vec![0xFF];
                out.extend_from_slice(plaintext);
                Ok(out)
            },
            at(),
        )
        .unwrap();

    assert!(!propagation_packed.is_empty());
    assert_eq!(msg.transient_id, Some(tid));
    assert_ne!(tid, [0u8; 32]);

    let (ts, entries) = LxMessage::unpack_propagation_wrapper(&propagation_packed).unwrap();
    assert!(f64::from_bits(ts) > 0.0);
    assert_eq!(entries.len(), 1);

    match decode(&propagation_packed) {
        rmpv::Value::Array(items) => match &items[1] {
            rmpv::Value::Array(entries) => {
                assert!(matches!(entries.first(), Some(rmpv::Value::Binary(_))));
            }
            other => panic!("propagation entries should be msgpack array, got {other:?}"),
        },
        other => panic!("propagation wrapper should be msgpack array, got {other:?}"),
    }

    let lxmf_data = &entries[0];
    assert_eq!(&lxmf_data[..16], &[0xAA; 16]);
    assert_eq!(lxmf_data[16], 0xFF);
    assert_eq!(tid, rns_crypto::sha256::sha256(lxmf_data));
}

#[test]
fn test_unpack_propagation_wrapper_bounded() {
    let entry_floor = MIN_PROPAGATION_ENTRY_SIZE;
    let limit = 16 * 1024;

    let junk: Vec<Vec<u8>> = (0..2000).map(|_| vec![0xAB; 3]).collect();
    let hostile = rmp_serde::to_vec(&(1000.0f64, junk)).unwrap();
    assert!(hostile.len() <= limit, "test blob must fit the limit");
    assert!(LxMessage::unpack_propagation_wrapper_bounded(&hostile, limit).is_err());

    let mixed: Vec<Vec<u8>> = vec![vec![0xAB; entry_floor], vec![0xAB; entry_floor - 1]];
    let mixed_blob = rmp_serde::to_vec(&(1000.0f64, mixed)).unwrap();
    assert!(LxMessage::unpack_propagation_wrapper_bounded(&mixed_blob, limit).is_err());

    let oversize: Vec<Vec<u8>> = vec![vec![0xAB; 2 * limit]];
    let oversize_blob = rmp_serde::to_vec(&(1000.0f64, oversize)).unwrap();
    assert!(LxMessage::unpack_propagation_wrapper_bounded(&oversize_blob, limit).is_err());

    let good: Vec<Vec<u8>> = (0..8).map(|i| vec![i as u8; entry_floor + 64]).collect();
    let good_blob = rmp_serde::to_vec(&(1000.0f64, good.clone())).unwrap();
    let (ts, entries) = LxMessage::unpack_propagation_wrapper_bounded(&good_blob, limit).unwrap();
    assert_eq!(f64::from_bits(ts), 1000.0);
    assert_eq!(entries, good);
}

#[test]
fn malformed_wrappers_are_refused() {
    assert!(matches!(
        LxMessage::unpack_propagation_wrapper(&[0xC0]),
        Err(MessageError::UnpackFailed(_))
    ));
}

#[test]
fn test_pack_opportunistic_encrypted_strips_destination_hash() {
    let msg = signed("Opportunistic", "Content body here", DeliveryMethod::Opportunistic);
    let packed = msg.pack().unwrap();
    let expected_tail = packed[DESTINATION_LENGTH..].to_vec();

    let encrypted = msg
        .pack_opportunistic_encrypted(|plaintext: &[u8]| {
            assert_eq!(plaintext, expected_tail.as_slice());
            let mut out = vec![0xEE];
            out.extend_from_slice(plaintext);
            Ok(out)
        })
        .unwrap();

    assert_eq!(encrypted[0], 0xEE);
    assert_eq!(&encrypted[1..], expected_tail.as_slice());
}

#[test]
fn test_propagation_transient_id() {
    let lxmf_data = vec![0xAA; 100];
    let tid = LxMessage::compute_propagation_transient_id(&lxmf_data);
    assert_eq!(tid.len(), 32);

    let tid2 = LxMessage::compute_propagation_transient_id(&lxmf_data);
    assert_eq!(tid, tid2);

    let other_data = vec![0xBB; 100];
    let tid3 = LxMessage::compute_propagation_transient_id(&other_data);
    assert_ne!(tid, tid3);
}

#[test]
fn test_propagation_transient_id_matches_full_hash() {
    let lxmf_data = vec![0x42; 200];
    let tid = LxMessage::compute_propagation_transient_id(&lxmf_data);
    let expected_full = rns_crypto::sha256::sha256(&lxmf_data);
    assert_eq!(tid, expected_full);
}

#[test]
fn test_get_stamp_with_ticket() {
    let mut msg = signed("Ticket", "Test", DeliveryMethod::Direct);
    let ticket = [0x42; 16];
    msg.outbound_ticket = Some(ticket);

    let stamp = msg.get_stamp(no_stamp);
    assert!(stamp.is_some());
    assert_eq!(msg.stamp_value, Some(COST_TICKET));

    let message_id = msg.message_id.unwrap();
    let expected = truncated_hash(&joined(&[&ticket, &message_id])).to_vec();
    assert_eq!(stamp.unwrap(), expected);
}

#[test]
fn test_get_stamp_no_cost() {
    let mut msg = signed("NoCost", "Test", DeliveryMethod::Direct);
    msg.stamp_cost = None;

    let stamp = msg.get_stamp(no_stamp);
    assert!(stamp.is_none());
    assert!(msg.stamp_value.is_none());
}

#[test]
fn proofs_of_work_are_made_for_the_cost() {
    let mut msg = signed("Cost", "Test", DeliveryMethod::Direct);
    msg.stamp_cost = Some(8);
    let id = msg.message_id.unwrap();
    let stamp = msg.get_stamp(|message_id: &[u8; 32], cost: u8| {
        assert_eq!(*message_id, id);
        assert_eq!(cost, 8);
        Some(([5; 32], 11))
    });
    assert_eq!(stamp, Some(vec![5; 32]));
    assert_eq!(msg.stamp_value, Some(11));
}

#[test]
fn test_validate_stamp_with_ticket() {
    let mut msg = signed("Validate Ticket", "Test", DeliveryMethod::Direct);

    let ticket = vec![0x42; 16];
    let message_id = msg.message_id.unwrap();
    let stamp = truncated_hash(&joined(&[&ticket, &message_id])).to_vec();
    msg.stamp = Some(stamp);

    let tickets = vec![ticket];
    let valid = msg.validate_stamp_with_tickets(16, Some(&tickets), no_proof);
    assert!(valid);
    assert_eq!(msg.stamp_value, Some(COST_TICKET));
}

#[test]
fn test_validate_stamp_wrong_ticket() {
    let mut msg = signed("Wrong Ticket", "Test", DeliveryMethod::Direct);
    msg.stamp = Some(vec![0xFF; 32]);

    let tickets = vec![vec![0x42; 16]];
    let valid = msg.validate_stamp_with_tickets(16, Some(&tickets), no_proof);
    assert!(!valid);
}

#[test]
fn test_validate_stamp_no_stamp() {
    let mut msg = signed("No Stamp", "Test", DeliveryMethod::Direct);
    msg.stamp = None;

    let valid = msg.validate_stamp_with_tickets(16, None, no_proof);
    assert!(!valid);
}

#[test]
fn proofs_of_work_are_checked_against_the_cost() {
    let mut msg = signed("Proof", "Test", DeliveryMethod::Direct);
    msg.stamp = Some(vec![0xFF; 32]);
    let valid = msg.validate_stamp_with_tickets(
        16,
        None,
        |_id: &[u8; 32], stamp: &[u8; 32], cost: u8| {
            assert_eq!(*stamp, [0xFF; 32]);
            assert_eq!(cost, 16);
            Some(17)
        },
    );
    assert!(valid);
    assert_eq!(msg.stamp_value, Some(17));
}

#[test]
fn test_pack_propagated_encrypted_with_prop_stamp() {
    let mut msg = signed("Prop Stamp", "Content", DeliveryMethod::Propagated);
    msg.propagation_stamp = Some([0xDD; 32]);

    let (propagation_packed, _tid) = msg.pack_propagated_encrypted(same, at()).unwrap();

    let (_, entries) = LxMessage::unpack_propagation_wrapper(&propagation_packed).unwrap();
    assert_eq!(entries.len(), 1);

    let lxmf_entry = &entries[0];
    assert_eq!(&lxmf_entry[..16], &[0xAA; 16]);
    let last_32 = &lxmf_entry[lxmf_entry.len() - 32..];
    assert_eq!(last_32, &[0xDD; 32]);
}

#[test]
fn test_pack_propagated_encrypted_with_zero_cost_stamp() {
    let mut msg = signed("Prop Stamp", "Content", DeliveryMethod::Propagated);

    let (propagation_packed, _tid, _value) = msg
        .pack_propagated_encrypted_with_stamp(
            same,
            0,
            |_id: &[u8; 32], cost: u8| {
                assert_eq!(cost, 0);
                Some(([0; 32], 0))
            },
            |_id: &[u8; 32], _stamp: &[u8; 32]| 0,
            at(),
        )
        .unwrap();

    let (_, entries) = LxMessage::unpack_propagation_wrapper(&propagation_packed).unwrap();
    let lxmf_entry = &entries[0];
    assert_eq!(lxmf_entry.len(), msg.pack().unwrap().len() + 32);
    assert_eq!(&lxmf_entry[lxmf_entry.len() - 32..], &[0u8; 32]);
}

#[test]
fn test_uri_roundtrip() {
    let msg = signed("Test", "Hello via paper", DeliveryMethod::Paper);

    let uri = msg.as_uri(same).unwrap();
    assert!(uri.starts_with("lxm://"));

    let decoded = LxMessage::from_uri(&uri, same).unwrap();
    assert_eq!(decoded.content, "Hello via paper");
    assert_eq!(decoded.title, "Test");
    assert_eq!(decoded.destination_hash, [0xAA; 16]);
    assert_eq!(decoded.source_hash, [0xBB; 16]);
}

#[test]
fn test_from_uri_invalid_prefix() {
    let result = LxMessage::from_uri("https://example.com", same);
    assert!(result.is_err());
    assert!(matches!(result, Err(MessageError::InvalidUri(_))));
}

#[test]
fn test_from_uri_invalid_base64() {
    let result = LxMessage::from_uri("lxm://not-valid-base64!!!", same);
    assert!(result.is_err());
}

#[test]
fn without_a_stamp_nothing_is_packed_with_one() {
    let mut msg = signed("Prop Stamp", "Content", DeliveryMethod::Propagated);
    let r = msg.pack_propagated_encrypted_with_stamp(
        same,
        16,
        no_stamp,
        |_id: &[u8; 32], _stamp: &[u8; 32]| 0,
        at(),
    );
    assert!(matches!(r, Err(MessageError::PackFailed(_))));
}

#[test]
fn containers_name_their_fields() {
    let mut msg = signed("t", "c", DeliveryMethod::Direct);
    msg.state = MessageState::Delivered;
    msg.transport_encrypted = true;
    msg.transport_encryption = Some("Curve25519".to_string());
    let lxmf_bytes = msg.pack().unwrap();
    let rmpv::Value::Map(entries) = decode(&msg.pack_container().unwrap()) else {
        panic!("a container is a dictionary");
    };
    let expected = vec![
        (rmpv::Value::from("state"), rmpv::Value::from(0x08u8)),
        (rmpv::Value::from("lxmf_bytes"), rmpv::Value::Binary(lxmf_bytes)),
        (rmpv::Value::from("transport_encrypted"), rmpv::Value::from(true)),
        (rmpv::Value::from("transport_encryption"), rmpv::Value::from("Curve25519")),
        (rmpv::Value::from("method"), rmpv::Value::from(0x02u8)),
    ];
    assert_eq!(entries, expected);
}
