//! Instants, digests, signatures, encoded values, peers and the index of a propagation node.

use lxmf_core::clock::{
    has_passed, micros_of, rank_of, seconds_after, seconds_before, seconds_of, to_seconds,
};
use lxmf_core::constants::{
    DeliveryMethod, DeliveryRepresentation, MessageState, PeerError, PeerState,
};
use lxmf_core::crypto::{full_hash, sign, truncated_hash, verify, verifying_key};
use lxmf_core::msgpack::{decode, embed, encode, Datum};
use lxmf_core::number::widen;
use lxmf_core::peer::LxmPeer;
use lxmf_core::propagation::{PropagationEntry, PropagationStore};

const SECOND: i64 = 1_000_000;

fn bytes_of(text: &str) -> Vec<u8> {
    hex::decode(text).unwrap()
}

#[test]
fn seconds_are_read_from_their_bit_patterns() {
    assert_eq!(micros_of(1.5f64.to_bits()), 1_500_000);
    assert_eq!(micros_of(0.1f64.to_bits()), 100_000);
    assert_eq!(micros_of((-2.25f64).to_bits()), -2_250_000);
    assert_eq!(micros_of(1_700_000_000.25f64.to_bits()), 1_700_000_000_250_000);
    assert_eq!(micros_of(0.0f64.to_bits()), 0);
    assert_eq!(micros_of(f64::MIN_POSITIVE.to_bits()), 0);
    assert_eq!(micros_of(f64::INFINITY.to_bits()), i64::MAX);
    assert_eq!(micros_of(f64::NEG_INFINITY.to_bits()), -i64::MAX);
    assert_eq!(seconds_of(1_700_000_000.75f64.to_bits()), 1_700_000_000);
    assert_eq!(seconds_of((-1.5f64).to_bits()), -1);
    assert_eq!(seconds_of(1e30f64.to_bits()), i64::MAX);
    assert_eq!(seconds_of(f64::NAN.to_bits()), 0);
}

#[test]
fn bit_patterns_rank_like_their_numbers() {
    let numbers = [f64::NEG_INFINITY, -2.0, -1.5, -0.0, 0.0, 1.5, 2.0, f64::INFINITY];
    for pair in numbers.windows(2) {
        assert!(rank_of(pair[0].to_bits()) < rank_of(pair[1].to_bits()));
    }
}

#[test]
fn instants_are_held_within_their_range() {
    assert_eq!(seconds_after(5 * SECOND, 10), 15 * SECOND);
    assert_eq!(seconds_after(i64::MAX - 1, 1), i64::MAX);
    assert_eq!(seconds_before(5 * SECOND, 10), -5 * SECOND);
    assert_eq!(seconds_before(i64::MIN + 1, 1), i64::MIN);
    assert_eq!(to_seconds(1_999_999), 1);
    assert_eq!(to_seconds(-1_999_999), -1);
    assert_eq!(to_seconds(i64::MIN), -9_223_372_036_854);
    assert!(!has_passed(0, 10 * SECOND, 10));
    assert!(has_passed(0, 10 * SECOND + 1, 10));
    assert!(!has_passed(10 * SECOND, 0, 0));
    assert!(has_passed(i64::MIN, i64::MAX, 10));
}

#[test]
fn digests_are_those_of_sha_256() {
    let abc = "ba7816bf8f01cfea414140de5dae2223b00361a396177a9cb410ff61f20015ad";
    assert_eq!(full_hash(b"abc").to_vec(), bytes_of(abc));
    assert_eq!(truncated_hash(b"abc").to_vec(), bytes_of(&abc[..32]));
    let nothing = "e3b0c44298fc1c149afbf4c8996fb92427ae41e4649b934ca495991b7852b855";
    assert_eq!(full_hash(b"").to_vec(), bytes_of(nothing));
}

#[test]
fn signatures_are_those_of_ed25519() {
    let mut key = [0u8; 32];
    key.copy_from_slice(&bytes_of(
        "9d61b19deffd5a60ba844af492ec2cc44449c5697b326919703bac031cae7f60",
    ));
    let public = verifying_key(&key);
    assert_eq!(
        public.to_vec(),
        bytes_of("d75a980182b10ab7d54bfed3c964073a0ee172f3daa62325af021a68f707511a")
    );
    let signature = sign(&key, b"");
    assert_eq!(
        signature.to_vec(),
        bytes_of(
            "e5564300c360ac729086e2cc806e828a84877f1eb8e5d974d873e065224901555\
             fb8821590a33bacc61e39701cf9b46bd25bf5f0595bbe24655141438e7a100b"
        )
    );
    assert!(verify(&public, &signature, b""));
    assert!(!verify(&public, &signature, b"x"));
    assert!(!verify(&verifying_key(&[7; 32]), &signature, b""));
}

fn writes(value: Datum, bytes: &[u8]) {
    let out = encode(&value);
    assert_eq!(out, bytes.to_vec());
    let (back, rest) = decode(&out).unwrap();
    assert!(rest.is_empty());
    assert_eq!(format!("{back:?}"), format!("{value:?}"));
}

#[test]
fn values_are_written_in_their_shortest_form() {
    writes(Datum::Nil, &[0xc0]);
    writes(Datum::Boolean(true), &[0xc3]);
    writes(Datum::Boolean(false), &[0xc2]);
    writes(Datum::Unsigned(7), &[7]);
    writes(Datum::Unsigned(300), &[0xcd, 0x01, 0x2c]);
    writes(Datum::Negative(-1), &[0xff]);
    writes(Datum::Negative(-200), &[0xd1, 0xff, 0x38]);
    writes(Datum::Float32(1.5f32.to_bits()), &[0xca, 0x3f, 0xc0, 0, 0]);
    writes(Datum::Float64(1.5f64.to_bits()), &[0xcb, 0x3f, 0xf8, 0, 0, 0, 0, 0, 0]);
    writes(Datum::Text("hi".to_string()), &[0xa2, b'h', b'i']);
    writes(Datum::Binary(vec![1, 2]), &[0xc4, 2, 1, 2]);
    writes(Datum::Array(vec![Datum::Nil, Datum::Unsigned(1)]), &[0x92, 0xc0, 1]);
    writes(
        Datum::Dictionary(vec![(Datum::Unsigned(1), Datum::Boolean(true))]),
        &[0x81, 1, 0xc3],
    );
    writes(Datum::Extension(5, vec![9]), &[0xd4, 5, 9]);
}

#[test]
fn what_follows_a_value_is_left_over() {
    let (value, rest) = decode(&[0x01, 0x02, 0x03]).unwrap();
    assert!(matches!(value, Datum::Unsigned(1)));
    assert_eq!(rest.to_vec(), vec![2, 3]);
    assert!(decode(&[]).is_none());
    assert!(decode(&[0xc4, 5, 1]).is_none());
}

#[test]
fn text_that_is_no_text_is_written_as_bytes() {
    let (value, _) = decode(&[0xa1, 0xff]).unwrap();
    assert!(matches!(&value, Datum::MalformedText(bytes) if bytes == &vec![0xff]));
    assert_eq!(encode(&value), vec![0xc4, 1, 0xff]);
    assert_eq!(value.as_bytes(), Some(vec![0xff]));
}

#[test]
fn numbers_are_read_whatever_their_form() {
    assert_eq!(Datum::Unsigned(3).as_number(), Some(3.0f64.to_bits()));
    assert_eq!(Datum::Negative(-3).as_number(), Some((-3.0f64).to_bits()));
    assert_eq!(Datum::Float32(0.5f32.to_bits()).as_number(), Some(0.5f64.to_bits()));
    assert_eq!(Datum::Float64(0.1f64.to_bits()).as_number(), Some(0.1f64.to_bits()));
    assert_eq!(Datum::Text("3".to_string()).as_number(), None);
}

#[test]
fn extensions_have_no_embedded_form() {
    assert!(embed(&Datum::Extension(1, vec![2])).is_none());
    assert!(embed(&Datum::Array(vec![Datum::Extension(1, vec![2])])).is_none());
    assert!(matches!(
        embed(&Datum::MalformedText(vec![0xff])),
        Some(Datum::Text(text)) if text.is_empty()
    ));
}

#[test]
fn states_and_methods_are_told_apart_by_their_bytes() {
    let states = [
        MessageState::Generating,
        MessageState::Outbound,
        MessageState::Sending,
        MessageState::Sent,
        MessageState::Delivered,
        MessageState::Rejected,
        MessageState::Cancelled,
        MessageState::Failed,
    ];
    for state in states {
        assert_eq!(MessageState::from_byte(state.to_byte()), Some(state));
    }
    assert_eq!(MessageState::from_byte(3), None);
    let methods = [
        DeliveryMethod::Opportunistic,
        DeliveryMethod::Direct,
        DeliveryMethod::Propagated,
        DeliveryMethod::Paper,
    ];
    for method in methods {
        assert_eq!(DeliveryMethod::from_byte(method.to_byte()), Some(method));
    }
    assert_eq!(DeliveryMethod::from_byte(4), None);
    assert_eq!(DeliveryRepresentation::from_byte(5), Some(DeliveryRepresentation::Paper));
    assert_eq!(DeliveryRepresentation::from_byte(3), None);
    assert_eq!(PeerState::ResourceTransferring.to_byte(), 5);
    assert_eq!(PeerError::Throttled.code(), 0xf6);
}

#[test]
fn peers_read_back_as_they_were_written() {
    let mut peer = LxmPeer::from_announce(
        [0x21; 16],
        1_700_000_000,
        Some(256.0f64.to_bits()),
        Some(10_240.0f64.to_bits()),
        Some(16),
        Some(3),
        Some(18),
    );
    peer.heard(1_700_000_100 * SECOND);
    peer.add_handled_message(&[0x31; 32]);
    peer.add_handled_message(&[0x31; 32]);
    peer.add_handled_message(&[0x32; 32]);
    peer.add_unhandled_message();
    let back = LxmPeer::from_bytes_with_handled(&peer.to_bytes_with_handled()).unwrap();
    assert_eq!(back.destination_hash, [0x21; 16]);
    assert_eq!(back.peering_timebase, 1_700_000_000);
    assert_eq!(back.propagation_transfer_limit, Some(256.0f64.to_bits()));
    assert_eq!(back.stamp_cost, Some(16));
    assert_eq!(back.peering_cost, 18);
    assert_eq!(back.last_heard, 1_700_000_100 * SECOND);
    assert_eq!(back.handled_messages, vec![[0x31; 32], [0x32; 32]]);
    assert_eq!(back.unhandled_messages(), 1);
    assert!(LxmPeer::from_bytes_with_handled(&[0xc0]).is_none());
}

#[test]
fn an_index_drops_the_heaviest_entries_first() {
    let now = 1_700_000_000 * SECOND;
    let mut store = PropagationStore::new();
    let entry = |id: u8, destination: u8, size: usize, age: i64| {
        let mut e = PropagationEntry::new([id; 32], [id; 32], [destination; 16], size, 0, now);
        e.stored_at = now - age * SECOND;
        e
    };
    assert!(store.insert(entry(1, 0xa1, 100, 10)));
    assert!(store.insert(entry(2, 0xa2, 300, 10)));
    assert!(store.insert(entry(3, 0xa3, 400, 10)));
    assert!(!store.insert(entry(3, 0xa3, 1, 10)));
    store.prioritise_destination([0xa3; 16]);
    assert_eq!(store.total_size(), 800);
    store.cull_by_weight(600, now);
    assert_eq!(store.total_size(), 500);
    assert!(store.contains(&[1; 32]) && !store.contains(&[2; 32]) && store.contains(&[3; 32]));
    assert!(store.insert(entry(4, 0xa4, 5, 1_000)));
    store.cull_expired(100, now);
    assert!(!store.contains(&[4; 32]));
    assert_eq!(store.len(), 2);
}

#[test]
fn short_numbers_are_widened_exactly() {
    let patterns: [u32; 12] = [
        0x0000_0000,
        0x8000_0000,
        0x0000_0001,
        0x8000_0001,
        0x007f_ffff,
        0x0040_0000,
        0x0080_0000,
        0x3fc0_0000,
        0xc010_0000,
        0x7f7f_ffff,
        0x7f80_0000,
        0xff80_0000,
    ];
    for bits in patterns {
        assert_eq!(widen(bits), (f32::from_bits(bits) as f64).to_bits());
        assert_eq!(Datum::Float32(bits).as_number(), Some(widen(bits)));
    }
    assert_eq!(widen(0x3fc0_0000), 0x3ff8_0000_0000_0000);
    assert_eq!(widen(0x0000_0001), 0x36a0_0000_0000_0000);
}

#[test]
fn what_is_no_number_stays_no_number() {
    assert_eq!(widen(0x7fc0_0000), 0x7ff8_0000_0000_0000);
    assert_eq!(widen(0x7f80_0001), 0x7ff8_0000_2000_0000);
    assert_eq!(widen(0xffa0_0000), 0xfffc_0000_0000_0000);
    assert!(f64::from_bits(widen(0xff80_0001)).is_nan());
}
