//! Messages: composing, signing, packing, unpacking and verifying.
//!
//! On the wire a message is `destination hash || source hash || signature || payload`.
//! The signature covers `destination hash || source hash || payload || digest`, where
//! the payload is taken without its stamp and the digest is that of what precedes it.
//!
//! For propagation everything behind the destination hash is encrypted:
//! `lxmf_data = destination hash || encrypted`.  The digest of that is the transient
//! identifier; a stamp may follow, and the whole travels as `[timestamp, [lxmf_data]]`.

use vstd::prelude::*;
use vstd::slice::slice_subrange;
use vstd::utf8::encode_utf8;

use crate::bytes::{
    append, contents, copy_slice, fixed, join, lemma_fixed, slices_equal, to_fixed, to_vec,
};
use crate::constants::{
    DeliveryMethod, DeliveryRepresentation, MessageState, UnverifiedReason, COST_TICKET,
};
use crate::crypto::{
    digest, full_hash, public_key, short_digest, sign, signature, truncated_hash, verifies, verify,
};
use crate::fields::{FieldIds, FieldMap};
use crate::msgpack::{decode, encoding, parsed, storable, Model, MAX_NESTING};
use crate::payload::{
    self, field_element, field_elements, opt_view, packable, payload_element, payload_fault, payload_of,
    read_fields, read_native, stamp_length, strip_stamp, without_stamp, PayloadModel,
};
use crate::types::PropagationTransientId;

verus! {

/// Why a message could not be packed or read.
#[derive(Debug)]
pub enum MessageError {
    TooShort(usize),
    PackFailed(String),
    UnpackFailed(String),
    NotSigned,
    InvalidUri(String),
}

/// What a message holds.
#[verifier::ext_equal]
pub ghost struct MessageModel {
    pub destination_hash: [u8; 16],
    pub source_hash: [u8; 16],
    pub title: Seq<char>,
    pub content: Seq<char>,
    pub fields: Map<u8, Seq<u8>>,
    pub native: Set<u8>,
    pub timestamp: u64,
    pub signature: Option<[u8; 64]>,
    pub signature_validated: bool,
    pub state: MessageState,
    pub method: DeliveryMethod,
    pub stamp: Option<Seq<u8>>,
    pub propagation_stamp: Option<[u8; 32]>,
    pub ratchet_id: Option<[u8; 32]>,
    pub delivery_attempts: u32,
    pub last_delivery_attempt: i64,
    pub next_delivery_attempt: i64,
    pub hash: Option<[u8; 32]>,
    pub message_id: Option<[u8; 32]>,
    pub transient_id: Option<PropagationTransientId>,
    pub stamp_cost: Option<u8>,
    pub outbound_ticket: Option<[u8; 16]>,
    pub stamp_value: Option<u16>,
    pub unverified_reason: Option<UnverifiedReason>,
    pub representation: DeliveryRepresentation,
    pub transport_encrypted: bool,
    pub wire_payload: Option<Seq<u8>>,
    pub transport_encryption: Option<Seq<char>>,
    pub incoming: bool,
    pub source_blackholed: bool,
    pub progress: u32,
    pub auto_compress: bool,
}

/// A message.
#[derive(Debug)]
pub struct LxMessage {
    pub destination_hash: [u8; 16],
    pub source_hash: [u8; 16],
    pub title: String,
    pub content: String,
    /// Application fields by number.
    pub fields: FieldMap,
    /// The fields whose bytes are one encoded value.
    pub msgpack_field_ids: FieldIds,
    /// The bit pattern of the seconds since the Unix epoch.
    pub timestamp: u64,
    pub signature: Option<[u8; 64]>,
    pub signature_validated: bool,
    pub state: MessageState,
    pub method: DeliveryMethod,
    /// A proof of work of 32 bytes, or a ticket stamp of 16.
    pub stamp: Option<Vec<u8>>,
    pub propagation_stamp: Option<[u8; 32]>,
    pub ratchet_id: Option<[u8; 32]>,
    pub delivery_attempts: u32,
    /// When delivery was last attempted, in microseconds; zero for never.
    pub last_delivery_attempt: i64,
    /// Before when delivery is not attempted again; zero for no such instant.
    pub next_delivery_attempt: i64,
    pub hash: Option<[u8; 32]>,
    pub message_id: Option<[u8; 32]>,
    pub transient_id: Option<PropagationTransientId>,
    /// The stamp cost that the recipient asks for.
    pub stamp_cost: Option<u8>,
    /// A ticket that stands in for a stamp.
    pub outbound_ticket: Option<[u8; 16]>,
    pub stamp_value: Option<u16>,
    pub unverified_reason: Option<UnverifiedReason>,
    pub representation: DeliveryRepresentation,
    pub transport_encrypted: bool,
    /// The payload of a received message, as it was received.
    pub wire_payload: Option<Vec<u8>>,
    pub transport_encryption: Option<String>,
    pub incoming: bool,
    /// Whether the transport refuses the source.
    pub source_blackholed: bool,
    /// Delivery progress in millionths.
    pub progress: u32,
    pub auto_compress: bool,
}

/// The text of an optional string.
pub open spec fn opt_text(o: Option<String>) -> Option<Seq<char>> {
    match o {
        Some(s) => Some(s@),
        None => None,
    }
}

impl View for LxMessage {
    type V = MessageModel;

    open spec fn view(&self) -> MessageModel {
        MessageModel {
            destination_hash: self.destination_hash,
            source_hash: self.source_hash,
            title: self.title@,
            content: self.content@,
            fields: self.fields@,
            native: self.msgpack_field_ids@,
            timestamp: self.timestamp,
            signature: self.signature,
            signature_validated: self.signature_validated,
            state: self.state,
            method: self.method,
            stamp: opt_view(self.stamp),
            propagation_stamp: self.propagation_stamp,
            ratchet_id: self.ratchet_id,
            delivery_attempts: self.delivery_attempts,
            last_delivery_attempt: self.last_delivery_attempt,
            next_delivery_attempt: self.next_delivery_attempt,
            hash: self.hash,
            message_id: self.message_id,
            transient_id: self.transient_id,
            stamp_cost: self.stamp_cost,
            outbound_ticket: self.outbound_ticket,
            stamp_value: self.stamp_value,
            unverified_reason: self.unverified_reason,
            representation: self.representation,
            transport_encrypted: self.transport_encrypted,
            wire_payload: opt_view(self.wire_payload),
            transport_encryption: opt_text(self.transport_encryption),
            incoming: self.incoming,
            source_blackholed: self.source_blackholed,
            progress: self.progress,
            auto_compress: self.auto_compress,
        }
    }
}

// ---------------------------------------------------------------------------
// What a message is packed as and what its signature covers.
// ---------------------------------------------------------------------------

/// A message that was just composed.
pub open spec fn composed(
    destination_hash: [u8; 16],
    source_hash: [u8; 16],
    title: Seq<char>,
    content: Seq<char>,
    method: DeliveryMethod,
    timestamp: u64,
) -> MessageModel {
    MessageModel {
        destination_hash,
        source_hash,
        title,
        content,
        fields: Map::empty(),
        native: Set::empty(),
        timestamp,
        signature: None,
        signature_validated: false,
        state: MessageState::Generating,
        method,
        stamp: None,
        propagation_stamp: None,
        ratchet_id: None,
        delivery_attempts: 0,
        last_delivery_attempt: 0,
        next_delivery_attempt: 0,
        hash: None,
        message_id: None,
        transient_id: None,
        stamp_cost: None,
        outbound_ticket: None,
        stamp_value: None,
        unverified_reason: None,
        representation: DeliveryRepresentation::Unknown,
        transport_encrypted: false,
        wire_payload: None,
        transport_encryption: None,
        incoming: false,
        source_blackholed: false,
        progress: 0,
        auto_compress: true,
    }
}

/// The payload of a message, with a given stamp.
pub open spec fn payload_with(m: MessageModel, stamp: Option<Seq<u8>>) -> PayloadModel {
    PayloadModel {
        timestamp: m.timestamp,
        title: m.title,
        content: m.content,
        fields: m.fields,
        native: m.native,
        stamp,
    }
}

/// The payload bytes of a message.
pub open spec fn payload_bytes(m: MessageModel) -> Seq<u8> {
    encoding(payload_element(payload_with(m, m.stamp)))
}

/// The payload bytes of a message without its stamp.
pub open spec fn unstamped_payload(m: MessageModel) -> Seq<u8> {
    encoding(payload_element(payload_with(m, None)))
}

/// The two hashes and a payload, whose digest identifies a message.
pub open spec fn hashed_part(
    destination_hash: [u8; 16],
    source_hash: [u8; 16],
    payload: Seq<u8>,
) -> Seq<u8> {
    destination_hash@ + source_hash@ + payload
}

/// The digest that identifies the message with this payload.
pub open spec fn message_digest(
    destination_hash: [u8; 16],
    source_hash: [u8; 16],
    payload: Seq<u8>,
) -> [u8; 32] {
    fixed(digest(hashed_part(destination_hash, source_hash, payload)))
}

/// What the signature of the message with this payload covers.
pub open spec fn signed_part(
    destination_hash: [u8; 16],
    source_hash: [u8; 16],
    payload: Seq<u8>,
) -> Seq<u8> {
    let part = hashed_part(destination_hash, source_hash, payload);
    part + digest(part)
}

/// What signing a message signs.
pub open spec fn signed_data(m: MessageModel) -> Seq<u8> {
    signed_part(m.destination_hash, m.source_hash, unstamped_payload(m))
}

/// The payload that verification goes by: the received one without its stamp, or for a
/// message that was not received the one that is signed.
pub open spec fn verified_payload(m: MessageModel) -> Seq<u8> {
    match m.wire_payload {
        Some(p) => without_stamp(p),
        None => unstamped_payload(m),
    }
}

/// What verifying a message checks its signature against.
pub open spec fn verified_data(m: MessageModel) -> Seq<u8> {
    signed_part(m.destination_hash, m.source_hash, verified_payload(m))
}

/// The digest that identifies a message.
pub open spec fn own_digest(m: MessageModel) -> [u8; 32] {
    message_digest(m.destination_hash, m.source_hash, unstamped_payload(m))
}

/// A message with a signature.
pub open spec fn signed_with(m: MessageModel, signature: [u8; 64]) -> MessageModel {
    MessageModel {
        signature: Some(signature),
        hash: Some(own_digest(m)),
        message_id: Some(own_digest(m)),
        transient_id: Some(own_digest(m)),
        state: MessageState::Outbound,
        ..m
    }
}

/// Whether a message can be packed.
pub open spec fn is_packable(m: MessageModel) -> bool {
    m.signature is Some && packable(m.fields, m.native)
}

/// The bytes of a signed message.
pub open spec fn packed(m: MessageModel) -> Seq<u8> {
    m.destination_hash@ + m.source_hash@ + m.signature->0@ + payload_bytes(m)
}

/// Why a message cannot be packed.
pub open spec fn is_pack_error(m: MessageModel, e: MessageError) -> bool {
    if m.signature is None {
        e is NotSigned
    } else {
        e is PackFailed
    }
}

/// Bytes of the two hashes and the signature.
pub const HEADER_LENGTH: usize = 96;

/// The payload of a packed message.
pub open spec fn packed_payload(data: Seq<u8>) -> Seq<u8> {
    data.subrange(96, data.len() as int)
}

/// Whether some bytes are a packed message.
pub open spec fn is_packed(data: Seq<u8>) -> bool {
    data.len() > HEADER_LENGTH && payload_fault(packed_payload(data)) is None
}

/// Why some bytes are no packed message.
pub open spec fn is_unpack_error(data: Seq<u8>, e: MessageError) -> bool {
    if data.len() <= HEADER_LENGTH {
        e == MessageError::TooShort(data.len() as usize)
    } else {
        e is UnpackFailed
    }
}

/// The message that some bytes hold.
pub open spec fn unpacked(data: Seq<u8>) -> MessageModel {
    let destination_hash: [u8; 16] = fixed(data.subrange(0, 16));
    let source_hash: [u8; 16] = fixed(data.subrange(16, 32));
    let p = payload_of(packed_payload(data))->0;
    let id = message_digest(
        destination_hash,
        source_hash,
        without_stamp(packed_payload(data)),
    );
    MessageModel {
        fields: p.fields,
        native: p.native,
        signature: Some(fixed(data.subrange(32, 96))),
        stamp: p.stamp,
        hash: Some(id),
        message_id: Some(id),
        transient_id: Some(id),
        wire_payload: Some(packed_payload(data)),
        incoming: true,
        ..composed(
            destination_hash,
            source_hash,
            p.title,
            p.content,
            DeliveryMethod::Direct,
            p.timestamp,
        )
    }
}

/// Whether a message reads back as it was packed: its payload nests no deeper and is no
/// longer than the encoding can carry.
pub open spec fn is_carriable(m: MessageModel) -> bool {
    storable(payload_element(payload_with(m, m.stamp)), MAX_NESTING as nat)
}

/// What a recipient reads in the bytes of a message: the same hashes, signature, time and
/// text, the fields as they are carried, the stamp where its length is that of one, and
/// the identifier and signed data that the sender computed.
pub open spec fn reads_back(m: MessageModel, data: Seq<u8>) -> bool {
    let u = unpacked(data);
    &&& is_packed(data)
    &&& u.destination_hash == m.destination_hash
    &&& u.source_hash == m.source_hash
    &&& u.signature == m.signature
    &&& u.timestamp == m.timestamp
    &&& u.title == m.title
    &&& u.content == m.content
    &&& u.fields == read_fields(field_elements(m.fields, m.native, 256))
    &&& u.native == read_native(field_elements(m.fields, m.native, 256))
    &&& u.stamp == (match m.stamp {
        Some(s) => if stamp_length(s.len()) {
            Some(s)
        } else {
            None
        },
        None => None,
    })
    &&& u.message_id == Some(own_digest(m))
    &&& verified_data(u) == signed_data(m)
}

/// The first four elements of a payload are the same with and without a stamp.
proof fn lemma_payload_prefix(m: MessageModel)
    ensures
        payload_element(payload_with(m, m.stamp))->Array_0.take(4) == payload_element(
            payload_with(m, None),
        )->Array_0,
{
    let s = payload_element(payload_with(m, m.stamp))->Array_0;
    let t = payload_element(payload_with(m, None))->Array_0;
    assert(s.take(4) =~= t);
}

/// The parts of the bytes of a message.
proof fn lemma_packed_parts(m: MessageModel)
    requires
        m.signature is Some,
    ensures
        packed(m).len() == HEADER_LENGTH + payload_bytes(m).len(),
        packed(m).subrange(0, 16) == m.destination_hash@,
        packed(m).subrange(16, 32) == m.source_hash@,
        packed(m).subrange(32, 96) == m.signature->0@,
        packed_payload(packed(m)) == payload_bytes(m),
{
    let d = packed(m);
    assert(d.subrange(0, 16) =~= m.destination_hash@);
    assert(d.subrange(16, 32) =~= m.source_hash@);
    assert(d.subrange(32, 96) =~= m.signature->0@);
    assert(packed_payload(d) =~= payload_bytes(m));
}

/// A packed message reads back, provided that its payload does.
proof fn lemma_reads_back(m: MessageModel)
    requires
        is_packable(m),
        payload_bytes(m).len() > 0,
        parsed(payload_bytes(m)) == Some(
            (payload_element(payload_with(m, m.stamp)), Seq::<u8>::empty()),
        ),
    ensures
        reads_back(m, packed(m)),
{
    lemma_packed_parts(m);
    lemma_payload_prefix(m);
    lemma_fixed(m.destination_hash);
    lemma_fixed(m.source_hash);
    lemma_fixed(m.signature->0);
    vstd::utf8::encode_utf8_valid_utf8(m.title);
    vstd::utf8::encode_utf8_valid_utf8(m.content);
    vstd::utf8::encode_utf8_decode_utf8(m.title);
    vstd::utf8::encode_utf8_decode_utf8(m.content);
    let s = payload_element(payload_with(m, m.stamp))->Array_0;
    assert(s[0] == Model::Float64(m.timestamp));
    assert(s[1] == Model::Binary(encode_utf8(m.title)));
    assert(s[2] == Model::Binary(encode_utf8(m.content)));
    assert(s[3] == Model::Dictionary(field_elements(m.fields, m.native, 256)));
    if m.stamp is None {
        assert(s.take(4) =~= s);
    }
    assert(without_stamp(payload_bytes(m)) == unstamped_payload(m));
}

/// A field that is no encoded value is carried as it is.
pub proof fn plain_fields_are_carried(fields: Map<u8, Seq<u8>>, native: Set<u8>, id: u8)
    requires
        packable(fields, native),
        !native.contains(id),
    ensures
        fields.contains_key(id) ==> read_fields(field_elements(fields, native, 256)).contains_key(
            id,
        ) && read_fields(field_elements(fields, native, 256))[id] == fields[id],
        !fields.contains_key(id) ==> !read_fields(
            field_elements(fields, native, 256),
        ).contains_key(id),
        !read_native(field_elements(fields, native, 256)).contains(id),
{
    lemma_carried(fields, native, id, 256);
}

proof fn lemma_carried(fields: Map<u8, Seq<u8>>, native: Set<u8>, id: u8, n: nat)
    requires
        packable(fields, native),
        !native.contains(id),
        n <= 256,
    ensures
        id < n && fields.contains_key(id) ==> read_fields(
            field_elements(fields, native, n),
        ).contains_key(id) && read_fields(field_elements(fields, native, n))[id] == fields[id],
        id >= n || !fields.contains_key(id) ==> !read_fields(
            field_elements(fields, native, n),
        ).contains_key(id),
        !read_native(field_elements(fields, native, n)).contains(id),
    decreases n,
{
    if n > 0 {
        let k = (n - 1) as u8;
        let before = field_elements(fields, native, (n - 1) as nat);
        lemma_carried(fields, native, id, (n - 1) as nat);
        if fields.contains_key(k) {
            let all = field_elements(fields, native, n);
            assert(all.drop_last() =~= before);
            assert(all.last().0 == Model::Integer(k as int));
            assert((k as int) % 256 == k);
        }
    }
}

/// What is signed before a message is packed is what its signature is checked against after
/// it was unpacked.
pub proof fn signatures_outlast_packing(m: MessageModel, data: Seq<u8>, key: Seq<u8>)
    requires
        m.signature is Some,
        reads_back(m, data),
    ensures
        unpacked(data).signature == m.signature,
        verified_data(unpacked(data)) == signed_data(m),
        verifies(key, m.signature->0@, signed_data(m)) <==> verifies(
            key,
            unpacked(data).signature->0@,
            verified_data(unpacked(data)),
        ),
{
}

/// A field that is an encoded value is carried as that value, unless it is a byte string: in
/// the same bytes, where they are how the value is written.
pub proof fn encoded_fields_are_carried(fields: Map<u8, Seq<u8>>, native: Set<u8>, id: u8)
    requires
        packable(fields, native),
        native.contains(id),
        fields.contains_key(id),
        field_element(fields[id], true)->0 !is Binary,
    ensures
        ({
            let carried = field_elements(fields, native, 256);
            let element = field_element(fields[id], true)->0;
            &&& read_native(carried).contains(id)
            &&& read_fields(carried).contains_key(id)
            &&& read_fields(carried)[id] == encoding(element)
            &&& encoding(element) == fields[id] ==> read_fields(carried)[id] == fields[id]
        }),
{
    lemma_encoded_carried(fields, native, id, 256);
}

proof fn lemma_encoded_carried(fields: Map<u8, Seq<u8>>, native: Set<u8>, id: u8, n: nat)
    requires
        packable(fields, native),
        native.contains(id),
        fields.contains_key(id),
        field_element(fields[id], true)->0 !is Binary,
        id < n <= 256,
    ensures
        ({
            let carried = field_elements(fields, native, n);
            &&& read_native(carried).contains(id)
            &&& read_fields(carried).contains_key(id)
            &&& read_fields(carried)[id] == encoding(field_element(fields[id], true)->0)
        }),
    decreases n,
{
    let k = (n - 1) as u8;
    let before = field_elements(fields, native, (n - 1) as nat);
    let all = field_elements(fields, native, n);
    if fields.contains_key(k) {
        assert(all.drop_last() =~= before);
        assert(all.last().0 == Model::Integer(k as int));
        assert((k as int) % 256 == k);
    }
    if id < n - 1 {
        lemma_encoded_carried(fields, native, id, (n - 1) as nat);
    } else {
        assert(k == id);
        assert(all.last().1 == field_element(fields[id], true)->0);
    }
}

/// Whether some bytes are one encoded value and nothing more.
pub open spec fn is_one_value(data: Seq<u8>) -> bool {
    match parsed(data) {
        Some((_, rest)) => rest.len() == 0,
        None => false,
    }
}

impl LxMessage {
    /// Composes a message.
    pub fn new(
        destination_hash: [u8; 16],
        source_hash: [u8; 16],
        title: &str,
        content: &str,
        method: DeliveryMethod,
        timestamp: u64,
    ) -> (m: Self)
        ensures
            m@ == composed(destination_hash, source_hash, title@, content@, method, timestamp),
    {
        LxMessage {
            destination_hash,
            source_hash,
            title: title.to_owned(),
            content: content.to_owned(),
            fields: FieldMap::new(),
            msgpack_field_ids: FieldIds::new(),
            timestamp,
            signature: None,
            signature_validated: false,
            state: MessageState::Generating,
            method,
            stamp: None,
            propagation_stamp: None,
            ratchet_id: None,
            delivery_attempts: 0,
            last_delivery_attempt: 0,
            next_delivery_attempt: 0,
            hash: None,
            message_id: None,
            transient_id: None,
            stamp_cost: None,
            outbound_ticket: None,
            stamp_value: None,
            unverified_reason: None,
            representation: DeliveryRepresentation::Unknown,
            transport_encrypted: false,
            wire_payload: None,
            transport_encryption: None,
            incoming: false,
            source_blackholed: false,
            progress: 0,
            auto_compress: true,
        }
    }

    /// Decides on compression by what the peer is known to support; a peer of which
    /// nothing is known is taken to support it.
    pub fn determine_compression_support(&mut self, supported: Option<bool>)
        ensures
            final(self)@ == (MessageModel {
                auto_compress: supported is None || supported == Some(true),
                ..old(self)@
            }),
    {
        self.auto_compress = match supported {
            Some(b) => b,
            None => true,
        };
    }

    /// Sets a field to some bytes.
    pub fn set_field(&mut self, field_id: u8, data: Vec<u8>)
        ensures
            final(self)@ == (MessageModel {
                fields: old(self)@.fields.insert(field_id, data@),
                native: old(self)@.native.remove(field_id),
                ..old(self)@
            }),
    {
        self.fields.insert(field_id, data);
        self.msgpack_field_ids.remove(&field_id);
    }

    /// Sets a field to an encoded value.
    pub fn set_msgpack_field(&mut self, field_id: u8, data: Vec<u8>) -> (r: Result<
        (),
        MessageError,
    >)
        ensures
            r is Ok <==> is_one_value(data@),
            r is Ok ==> final(self)@ == (MessageModel {
                fields: old(self)@.fields.insert(field_id, data@),
                native: old(self)@.native.insert(field_id),
                ..old(self)@
            }),
            r matches Err(e) ==> e is PackFailed && *final(self) == *old(self),
    {
        match decode(data.as_slice()) {
            Some((_, rest)) => {
                if rest.len() != 0 {
                    return Err(
                        MessageError::PackFailed(
                            "invalid msgpack field: trailing bytes".to_owned(),
                        ),
                    );
                }
            },
            None => {
                return Err(MessageError::PackFailed("invalid msgpack field".to_owned()));
            },
        }
        self.fields.insert(field_id, data);
        self.msgpack_field_ids.insert(field_id);
        Ok(())
    }

    /// The bytes of a field.
    pub fn get_field(&self, field_id: u8) -> (r: Option<&Vec<u8>>)
        ensures
            r is Some <==> self@.fields.contains_key(field_id),
            r matches Some(data) ==> data@ == self@.fields[field_id],
    {
        self.fields.get(&field_id)
    }

    /// The payload bytes, with the stamp where there is one.
    pub fn pack_payload(&self) -> (r: Result<Vec<u8>, MessageError>)
        ensures
            r is Ok <==> packable(self@.fields, self@.native),
            r matches Ok(p) ==> p@ == payload_bytes(self@) && p@.len() > 0,
            r matches Ok(p) ==> is_carriable(self@) ==> parsed(p@) == Some(
                (payload_element(payload_with(self@, self@.stamp)), Seq::<u8>::empty()),
            ),
            r matches Err(e) ==> e is PackFailed,
    {
        let stamp: Option<&[u8]> = match &self.stamp {
            Some(s) => Some(s.as_slice()),
            None => None,
        };
        match payload::pack(
            self.timestamp,
            self.title.as_str(),
            self.content.as_str(),
            &self.fields,
            &self.msgpack_field_ids,
            stamp,
        ) {
            Some(p) => Ok(p),
            None => Err(MessageError::PackFailed("a field cannot be encoded".to_owned())),
        }
    }

    /// The payload bytes without the stamp.
    fn pack_payload_for_signing(&self) -> (r: Result<Vec<u8>, MessageError>)
        ensures
            r is Ok <==> packable(self@.fields, self@.native),
            r matches Ok(p) ==> p@ == unstamped_payload(self@),
            r matches Ok(p) ==> storable(
                payload_element(payload_with(self@, None)),
                MAX_NESTING as nat,
            ) ==> parsed(p@) == Some(
                (payload_element(payload_with(self@, None)), Seq::<u8>::empty()),
            ),
            r matches Err(e) ==> e is PackFailed,
    {
        match payload::pack(
            self.timestamp,
            self.title.as_str(),
            self.content.as_str(),
            &self.fields,
            &self.msgpack_field_ids,
            None,
        ) {
            Some(p) => Ok(p),
            None => Err(MessageError::PackFailed("a field cannot be encoded".to_owned())),
        }
    }

    /// The bytes of a signed message.
    pub fn pack(&self) -> (r: Result<Vec<u8>, MessageError>)
        ensures
            r is Ok <==> is_packable(self@),
            r matches Ok(data) ==> data@ == packed(self@) && data@.len() > HEADER_LENGTH,
            r matches Ok(data) ==> is_carriable(self@) ==> reads_back(self@, data@),
            r matches Err(e) ==> is_pack_error(self@, e),
    {
        let sig = match self.signature {
            Some(s) => s,
            None => {
                return Err(MessageError::NotSigned);
            },
        };
        let payload = match self.pack_payload() {
            Ok(p) => p,
            Err(e) => {
                return Err(e);
            },
        };
        let mut data = to_vec(&self.destination_hash);
        append(&mut data, self.source_hash.as_slice());
        append(&mut data, sig.as_slice());
        append(&mut data, payload.as_slice());
        proof {
            lemma_packed_parts(self@);
            if is_carriable(self@) {
                lemma_reads_back(self@);
            }
        }
        Ok(data)
    }

    /// The two hashes and a payload.
    fn hashed(&self, payload: &[u8]) -> (v: Vec<u8>)
        ensures
            v@ == hashed_part(self@.destination_hash, self@.source_hash, payload@),
    {
        let mut v = to_vec(&self.destination_hash);
        append(&mut v, self.source_hash.as_slice());
        append(&mut v, payload);
        v
    }

    /// Reads a message.
    pub fn unpack(data: &[u8]) -> (r: Result<Self, MessageError>)
        ensures
            r is Ok <==> is_packed(data@),
            r matches Ok(m) ==> m@ == unpacked(data@),
            r matches Err(e) ==> is_unpack_error(data@, e),
    {
        if data.len() <= HEADER_LENGTH {
            return Err(MessageError::TooShort(data.len()));
        }
        let destination: Option<[u8; 16]> = to_fixed(slice_subrange(data, 0, 16));
        let source: Option<[u8; 16]> = to_fixed(slice_subrange(data, 16, 32));
        let signature: Option<[u8; 64]> = to_fixed(slice_subrange(data, 32, 96));
        let payload_data = slice_subrange(data, HEADER_LENGTH, data.len());
        let p = match payload::unpack(payload_data) {
            Ok(p) => p,
            Err(_) => {
                return Err(MessageError::UnpackFailed("malformed payload".to_owned()));
            },
        };
        match (destination, source, signature) {
            (Some(destination_hash), Some(source_hash), Some(sig)) => {
                let unstamped = strip_stamp(payload_data);
                let mut part = to_vec(&destination_hash);
                append(&mut part, source_hash.as_slice());
                append(&mut part, unstamped.as_slice());
                let id = full_hash(part.as_slice());
                proof {
                    lemma_fixed(destination_hash);
                    lemma_fixed(source_hash);
                    lemma_fixed(sig);
                    lemma_fixed(id);
                }
                Ok(
                    LxMessage {
                        destination_hash,
                        source_hash,
                        title: p.title,
                        content: p.content,
                        fields: p.fields,
                        msgpack_field_ids: p.msgpack_field_ids,
                        timestamp: p.timestamp,
                        signature: Some(sig),
                        signature_validated: false,
                        state: MessageState::Generating,
                        method: DeliveryMethod::Direct,
                        stamp: p.stamp,
                        propagation_stamp: None,
                        ratchet_id: None,
                        delivery_attempts: 0,
                        last_delivery_attempt: 0,
                        next_delivery_attempt: 0,
                        hash: Some(id),
                        message_id: Some(id),
                        transient_id: Some(id),
                        stamp_cost: None,
                        outbound_ticket: None,
                        stamp_value: None,
                        unverified_reason: None,
                        representation: DeliveryRepresentation::Unknown,
                        transport_encrypted: false,
                        wire_payload: Some(copy_slice(payload_data)),
                        transport_encryption: None,
                        incoming: true,
                        source_blackholed: false,
                        progress: 0,
                        auto_compress: true,
                    },
                )
            },
            _ => Err(MessageError::TooShort(data.len())),
        }
    }

    /// The digest that identifies the message, which is noted in it.
    pub fn compute_hash(&mut self) -> (r: Result<[u8; 32], MessageError>)
        ensures
            r is Ok <==> packable(old(self)@.fields, old(self)@.native),
            r matches Ok(h) ==> h == message_digest(
                old(self)@.destination_hash,
                old(self)@.source_hash,
                without_stamp(unstamped_payload(old(self)@)),
            ) && final(self)@ == (MessageModel {
                hash: Some(h),
                message_id: Some(h),
                transient_id: Some(h),
                ..old(self)@
            }),
            r matches Ok(h) ==> is_carriable(old(self)@) ==> h == own_digest(old(self)@),
            r matches Err(e) ==> e is PackFailed && *final(self) == *old(self),
    {
        let payload = match self.pack_payload_for_signing() {
            Ok(p) => p,
            Err(e) => {
                return Err(e);
            },
        };
        let unstamped = strip_stamp(payload.as_slice());
        let part = self.hashed(unstamped.as_slice());
        let hash = full_hash(part.as_slice());
        proof {
            lemma_fixed(hash);
            if is_carriable(self@) {
                lemma_carriable_unstamped(self@);
            }
        }
        self.hash = Some(hash);
        self.message_id = Some(hash);
        self.transient_id = Some(hash);
        Ok(hash)
    }

    /// Signs the message.
    pub fn sign(&mut self, signing_key: &[u8; 32]) -> (r: Result<(), MessageError>)
        ensures
            r is Ok <==> packable(old(self)@.fields, old(self)@.native),
            r is Ok ==> final(self)@ == signed_with(
                old(self)@,
                fixed(signature(signing_key@, signed_data(old(self)@))),
            ),
            r is Ok ==> verifies(
                public_key(signing_key@),
                final(self)@.signature->0@,
                signed_data(final(self)@),
            ),
            r matches Err(e) ==> e is PackFailed && *final(self) == *old(self),
    {
        let payload = match self.pack_payload_for_signing() {
            Ok(p) => p,
            Err(e) => {
                return Err(e);
            },
        };
        let mut data = self.hashed(payload.as_slice());
        let hash = full_hash(data.as_slice());
        append(&mut data, hash.as_slice());
        let sig = sign(signing_key, data.as_slice());
        proof {
            lemma_fixed(hash);
            lemma_fixed(sig);
        }
        self.signature = Some(sig);
        self.hash = Some(hash);
        self.message_id = Some(hash);
        self.transient_id = Some(hash);
        self.state = MessageState::Outbound;
        Ok(())
    }

    /// Signs the message with a function that makes the signature.
    pub fn sign_with<F, E>(&mut self, sign_fn: F) -> (r: Result<(), MessageError>) where
        F: FnOnce(&[u8]) -> Result<[u8; 64], E>,

        requires
            forall|s: &[u8]| call_requires(sign_fn, (s,)),
        ensures
            !packable(old(self)@.fields, old(self)@.native) ==> r is Err,
            packable(old(self)@.fields, old(self)@.native) ==> exists|
                outcome: Result<[u8; 64], E>,
            | #[trigger]
                answers(sign_fn, signed_data(old(self)@), outcome) && match outcome {
                    Ok(sig) => r is Ok && final(self)@ == signed_with(old(self)@, sig),
                    Err(_) => r is Err,
                },
            r matches Err(e) ==> e is PackFailed && *final(self) == *old(self),
    {
        let payload = match self.pack_payload_for_signing() {
            Ok(p) => p,
            Err(e) => {
                return Err(e);
            },
        };
        let mut data = self.hashed(payload.as_slice());
        let hash = full_hash(data.as_slice());
        append(&mut data, hash.as_slice());
        let outcome = sign_fn(data.as_slice());
        proof {
            lemma_fixed(hash);
            assert(answers(sign_fn, signed_data(self@), outcome));
        }
        match outcome {
            Ok(sig) => {
                self.signature = Some(sig);
                self.hash = Some(hash);
                self.message_id = Some(hash);
                self.transient_id = Some(hash);
                self.state = MessageState::Outbound;
                Ok(())
            },
            Err(_) => Err(MessageError::PackFailed("signing failed".to_owned())),
        }
    }

    /// Whether the signature verifies; the outcome is noted in the message.
    pub fn verify(&mut self, verify_key: &[u8; 32]) -> (valid: bool)
        ensures
            ({
                let checkable = old(self)@.signature is Some && (old(self)@.wire_payload is Some
                    || packable(old(self)@.fields, old(self)@.native));
                &&& valid == (checkable && verifies(
                    verify_key@,
                    old(self)@.signature->0@,
                    verified_data(old(self)@),
                ))
                &&& final(self)@ == (MessageModel {
                    signature_validated: if checkable {
                        valid
                    } else {
                        old(self)@.signature_validated
                    },
                    ..old(self)@
                })
            }),
    {
        let sig = match self.signature {
            Some(s) => s,
            None => {
                return false;
            },
        };
        let payload = match &self.wire_payload {
            Some(p) => strip_stamp(p.as_slice()),
            None => match self.pack_payload_for_signing() {
                Ok(p) => p,
                Err(_) => {
                    return false;
                },
            },
        };
        let mut data = self.hashed(payload.as_slice());
        let hash = full_hash(data.as_slice());
        append(&mut data, hash.as_slice());
        let valid = verify(verify_key, &sig, data.as_slice());
        self.signature_validated = valid;
        valid
    }

    // -----------------------------------------------------------------------
    // Stamps.
    // -----------------------------------------------------------------------

    /// The stamp that the message is to carry: one derived from a ticket; none where
    /// none is asked for; the one it has; or one that `generate` finds for the
    /// identifier and the cost.
    pub fn get_stamp<G>(&mut self, generate: G) -> (r: Option<Vec<u8>>) where
        G: FnOnce(&[u8; 32], u8) -> Option<([u8; 32], u32)>,

        requires
            forall|id: &[u8; 32], cost: u8| call_requires(generate, (id, cost)),
        ensures
            ({
                let m = old(self)@;
                if m.outbound_ticket is Some && m.message_id is Some {
                    let stamp = ticket_stamp(m.outbound_ticket->0@, m.message_id->0);
                    &&& opt_view(r) == Some(stamp)
                    &&& final(self)@ == (MessageModel {
                        stamp_value: Some(COST_TICKET),
                        stamp: Some(stamp),
                        ..m
                    })
                } else if m.stamp_cost is None {
                    &&& r is None
                    &&& final(self)@ == (MessageModel { stamp_value: None, ..m })
                } else if m.stamp is Some {
                    &&& opt_view(r) == m.stamp
                    &&& final(self)@ == m
                } else if m.message_id is None {
                    &&& r is None
                    &&& final(self)@ == m
                } else {
                    exists|found: Option<([u8; 32], u32)>| #[trigger]
                        call_ensures(generate, (&m.message_id->0, m.stamp_cost->0), found)
                            && match found {
                            Some((stamp, value)) => {
                                &&& opt_view(r) == Some(stamp@)
                                &&& final(self)@ == (MessageModel {
                                    stamp_value: Some((value % 0x1_0000) as u16),
                                    stamp: Some(stamp@),
                                    ..m
                                })
                            },
                            None => r is None && final(self)@ == m,
                        }
                }
            }),
    {
        if let Some(ticket) = self.outbound_ticket {
            if let Some(id) = self.message_id {
                let material = join(ticket.as_slice(), id.as_slice());
                let hash = truncated_hash(material.as_slice());
                self.stamp_value = Some(COST_TICKET);
                self.stamp = Some(to_vec(&hash));
                return Some(to_vec(&hash));
            }
        }
        let cost: u8 = match self.stamp_cost {
            Some(c) => c,
            None => {
                self.stamp_value = None;
                return None;
            },
        };
        if let Some(s) = &self.stamp {
            return Some(copy_slice(s.as_slice()));
        }
        if let Some(id) = self.message_id {
            let found = generate(&id, cost);
            if let Some((stamp, value)) = found {
                self.stamp_value = Some((value % 0x1_0000) as u16);
                self.stamp = Some(to_vec(&stamp));
                return Some(to_vec(&stamp));
            }
        }
        None
    }

    /// Whether the stamp of the message is worth `target_cost`: one of `tickets`
    /// accounts for it, or `prove` finds that it is a proof of work worth that much,
    /// and how much.  What it is worth is noted in the message.
    pub fn validate_stamp_with_tickets<P>(
        &mut self,
        target_cost: u8,
        tickets: Option<&Vec<Vec<u8>>>,
        prove: P,
    ) -> (valid: bool) where P: FnOnce(&[u8; 32], &[u8; 32], u8) -> Option<u32>
        requires
            forall|id: &[u8; 32], stamp: &[u8; 32], cost: u8|
                call_requires(prove, (id, stamp, cost)),
        ensures
            ({
                let m = old(self)@;
                let id = stamped_id(m);
                if id is None || m.stamp is None {
                    &&& !valid
                    &&& final(self)@ == m
                } else if tickets is Some && is_ticket_stamp(
                    contents(tickets->0@),
                    id->0,
                    m.stamp->0,
                ) {
                    &&& valid
                    &&& final(self)@ == (MessageModel { stamp_value: Some(COST_TICKET), ..m })
                } else if m.stamp->0.len() != 32 {
                    &&& !valid
                    &&& final(self)@ == m
                } else {
                    exists|worth: Option<u32>| #[trigger]
                        call_ensures(prove, (&id->0, &fixed(m.stamp->0), target_cost), worth)
                            && match worth {
                            Some(value) => {
                                &&& valid
                                &&& final(self)@ == (MessageModel {
                                    stamp_value: Some((value % 0x1_0000) as u16),
                                    ..m
                                })
                            },
                            None => !valid && final(self)@ == m,
                        }
                }
            }),
    {
        let id: [u8; 32] = match self.message_id {
            Some(id) => id,
            None => match self.hash {
                Some(id) => id,
                None => {
                    return false;
                },
            },
        };
        let stamp = match &self.stamp {
            Some(s) => copy_slice(s.as_slice()),
            None => {
                return false;
            },
        };
        if let Some(list) = tickets {
            let mut i: usize = 0;
            while i < list.len()
                invariant
                    i <= list@.len(),
                    self@ == old(self)@,
                    stamped_id(self@) == Some(id),
                    self@.stamp == Some(stamp@),
                    tickets == Some(list),
                    forall|j: int|
                        0 <= j < i ==> stamp@ != ticket_stamp(
                            #[trigger] contents(list@)[j],
                            id,
                        ),
                decreases list@.len() - i,
            {
                let material = join(list[i].as_slice(), id.as_slice());
                let expected = truncated_hash(material.as_slice());
                assert(contents(list@)[i as int] == list@[i as int]@);
                if slices_equal(stamp.as_slice(), expected.as_slice()) {
                    self.stamp_value = Some(COST_TICKET);
                    return true;
                }
                i = i + 1;
            }
        }
        let proof_of_work: [u8; 32] = match to_fixed(stamp.as_slice()) {
            Some(s) => s,
            None => {
                return false;
            },
        };
        proof {
            lemma_fixed(proof_of_work);
        }
        let worth = prove(&id, &proof_of_work, target_cost);
        match worth {
            Some(value) => {
                self.stamp_value = Some((value % 0x1_0000) as u16);
                true
            },
            None => false,
        }
    }

    // -----------------------------------------------------------------------
    // States.
    // -----------------------------------------------------------------------

    /// Cancels a message that is still under way.
    pub fn cancel(&mut self)
        ensures
            final(self)@ == (MessageModel {
                state: if old(self)@.state == MessageState::Outbound || old(self)@.state
                    == MessageState::Sending {
                    MessageState::Cancelled
                } else {
                    old(self)@.state
                },
                ..old(self)@
            }),
    {
        if self.state == MessageState::Outbound || self.state == MessageState::Sending {
            self.state = MessageState::Cancelled;
        }
    }

    pub fn mark_failed(&mut self)
        ensures
            final(self)@ == (MessageModel { state: MessageState::Failed, ..old(self)@ }),
    {
        self.state = MessageState::Failed;
    }

    pub fn mark_rejected(&mut self)
        ensures
            final(self)@ == (MessageModel { state: MessageState::Rejected, ..old(self)@ }),
    {
        self.state = MessageState::Rejected;
    }

    pub fn mark_delivered(&mut self)
        ensures
            final(self)@ == (MessageModel { state: MessageState::Delivered, ..old(self)@ }),
    {
        self.state = MessageState::Delivered;
    }

    pub fn mark_sending(&mut self)
        ensures
            final(self)@ == (MessageModel { state: MessageState::Sending, ..old(self)@ }),
    {
        self.state = MessageState::Sending;
    }

    pub fn mark_sent(&mut self)
        ensures
            final(self)@ == (MessageModel { state: MessageState::Sent, ..old(self)@ }),
    {
        self.state = MessageState::Sent;
    }

    /// A copy of the message.
    pub fn copy(&self) -> (m: Self)
        ensures
            m@ == self@,
    {
        LxMessage {
            destination_hash: self.destination_hash,
            source_hash: self.source_hash,
            title: self.title.clone(),
            content: self.content.clone(),
            fields: self.fields.copy(),
            msgpack_field_ids: self.msgpack_field_ids.copy(),
            timestamp: self.timestamp,
            signature: self.signature,
            signature_validated: self.signature_validated,
            state: self.state,
            method: self.method,
            stamp: copy_option(&self.stamp),
            propagation_stamp: self.propagation_stamp,
            ratchet_id: self.ratchet_id,
            delivery_attempts: self.delivery_attempts,
            last_delivery_attempt: self.last_delivery_attempt,
            next_delivery_attempt: self.next_delivery_attempt,
            hash: self.hash,
            message_id: self.message_id,
            transient_id: self.transient_id,
            stamp_cost: self.stamp_cost,
            outbound_ticket: self.outbound_ticket,
            stamp_value: self.stamp_value,
            unverified_reason: self.unverified_reason,
            representation: self.representation,
            transport_encrypted: self.transport_encrypted,
            wire_payload: copy_option(&self.wire_payload),
            transport_encryption: match &self.transport_encryption {
                Some(t) => Some(t.clone()),
                None => None,
            },
            incoming: self.incoming,
            source_blackholed: self.source_blackholed,
            progress: self.progress,
            auto_compress: self.auto_compress,
        }
    }
}

impl Clone for LxMessage {
    fn clone(&self) -> (m: Self)
        ensures
            m@ == self@,
    {
        self.copy()
    }
}

/// A copy of an optional byte string.
pub fn copy_option(o: &Option<Vec<u8>>) -> (r: Option<Vec<u8>>)
    ensures
        opt_view(r) == opt_view(*o),
{
    match o {
        Some(v) => Some(copy_slice(v.as_slice())),
        None => None,
    }
}

/// The stamp that a ticket gives to a message.
pub open spec fn ticket_stamp(ticket: Seq<u8>, id: [u8; 32]) -> Seq<u8> {
    short_digest(ticket + id@)
}

/// Whether one of some tickets gives this stamp to a message.
pub open spec fn is_ticket_stamp(tickets: Seq<Seq<u8>>, id: [u8; 32], stamp: Seq<u8>) -> bool {
    exists|i: int|
        0 <= i < tickets.len() && stamp == ticket_stamp(#[trigger] tickets[i], id)
}

/// The identifier that the stamp of a message is for.
pub open spec fn stamped_id(m: MessageModel) -> Option<[u8; 32]> {
    if m.message_id is Some {
        m.message_id
    } else {
        m.hash
    }
}

/// Whether a function that is handed some bytes may return `outcome`.
pub open spec fn answers<F: FnOnce(&[u8]) -> Result<T, E>, T, E>(
    f: F,
    input: Seq<u8>,
    outcome: Result<T, E>,
) -> bool {
    exists|s: &[u8]| s@ == input && #[trigger] call_ensures(f, (s,), outcome)
}

/// What can be carried with a stamp can be carried without.
proof fn lemma_carriable_unstamped(m: MessageModel)
    requires
        is_carriable(m),
    ensures
        storable(payload_element(payload_with(m, None)), MAX_NESTING as nat),
{
    let s = payload_element(payload_with(m, m.stamp))->Array_0;
    let t = payload_element(payload_with(m, None))->Array_0;
    lemma_payload_prefix(m);
    assert forall|i: int| 0 <= i < t.len() implies storable(
        #[trigger] t[i],
        (MAX_NESTING - 1) as nat,
    ) by {
        assert(t[i] == s[i]);
    }
}

// ---------------------------------------------------------------------------
// What a message comes to.
// ---------------------------------------------------------------------------

/// A message is packed as its destination, its source, its signature and its payload, each in
/// its place and the whole of it.
pub proof fn messages_have_their_layout(m: MessageModel)
    requires
        m.signature is Some,
    ensures
        packed(m).len() == 96 + payload_bytes(m).len(),
        packed(m).subrange(0, 16) == m.destination_hash@,
        packed(m).subrange(16, 32) == m.source_hash@,
        packed(m).subrange(32, 96) == m.signature->0@,
        packed(m).subrange(96, packed(m).len() as int) == payload_bytes(m),
        payload_bytes(m) == encoding(
            payload_element(
                PayloadModel {
                    timestamp: m.timestamp,
                    title: m.title,
                    content: m.content,
                    fields: m.fields,
                    native: m.native,
                    stamp: m.stamp,
                },
            ),
        ),
{
    lemma_packed_parts(m);
}

/// Where the bytes of two messages are the same, so are their destination, source and signature.
pub proof fn packed_messages_tell_who_sent_them(m: MessageModel, n: MessageModel)
    requires
        m.signature is Some,
        n.signature is Some,
        packed(m) == packed(n),
    ensures
        m.destination_hash@ == n.destination_hash@,
        m.source_hash@ == n.source_hash@,
        m.signature->0@ == n.signature->0@,
        payload_bytes(m) == payload_bytes(n),
{
    lemma_packed_parts(m);
    lemma_packed_parts(n);
}

/// A signature covers the destination, the source, the payload without its stamp and the digest
/// of these, and whatever else changes about a message leaves the signed data and the identifier
/// as they are.
pub proof fn signatures_cover_what_was_written(m: MessageModel, n: MessageModel)
    requires
        m.destination_hash == n.destination_hash,
        m.source_hash == n.source_hash,
        m.timestamp == n.timestamp,
        m.title == n.title,
        m.content == n.content,
        m.fields == n.fields,
        m.native == n.native,
    ensures
        signed_data(m) == signed_data(n),
        own_digest(m) == own_digest(n),
        ({
            let payload = encoding(
                payload_element(
                    PayloadModel {
                        timestamp: m.timestamp,
                        title: m.title,
                        content: m.content,
                        fields: m.fields,
                        native: m.native,
                        stamp: None,
                    },
                ),
            );
            let part = m.destination_hash@ + m.source_hash@ + payload;
            &&& signed_data(m) == part + digest(part)
            &&& own_digest(m) == fixed::<32>(digest(part))
        }),
{
}

/// A received message is checked against what was received, without its stamp; a message that
/// was written here is checked against what it says.
pub proof fn signatures_are_checked_against_what_came(m: MessageModel, wire: Seq<u8>)
    ensures
        m.wire_payload == Some(wire) ==> {
            let part = m.destination_hash@ + m.source_hash@ + without_stamp(wire);
            verified_data(m) == part + digest(part)
        },
        m.wire_payload is None ==> verified_data(m) == signed_data(m),
{
}

/// A message that is signed is known by the digest of what it says under all three of its
/// identifiers, goes out, and says what it said before.
pub proof fn signed_messages_are_known_by_their_digest(m: MessageModel, signature: [u8; 64])
    ensures
        ({
            let a = signed_with(m, signature);
            &&& a.signature == Some(signature)
            &&& a.hash == Some(own_digest(m))
            &&& a.message_id == Some(own_digest(m))
            &&& a.transient_id == Some(own_digest(m))
            &&& a.state == MessageState::Outbound
            &&& own_digest(a) == own_digest(m)
            &&& signed_data(a) == signed_data(m)
            &&& a.destination_hash == m.destination_hash
            &&& a.source_hash == m.source_hash
            &&& a.title == m.title
            &&& a.content == m.content
            &&& a.fields == m.fields
            &&& a.native == m.native
            &&& a.timestamp == m.timestamp
            &&& a.stamp == m.stamp
            &&& a.method == m.method
            &&& a.stamp_cost == m.stamp_cost
            &&& a.outbound_ticket == m.outbound_ticket
        }),
{
}

/// A message is read from its parts: destination, source and signature from the places where
/// they are packed, the rest from the payload behind them; it is known by the digest of these
/// without signature and stamp, and is not taken to be genuine yet.
pub proof fn messages_are_read_from_their_parts(data: Seq<u8>)
    requires
        data.len() > 96,
    ensures
        ({
            let u = unpacked(data);
            let wire = data.subrange(96, data.len() as int);
            &&& u.destination_hash@ == data.subrange(0, 16)
            &&& u.source_hash@ == data.subrange(16, 32)
            &&& u.signature is Some
            &&& u.signature->0 == fixed::<64>(data.subrange(32, 96))
            &&& u.wire_payload == Some(wire)
            &&& payload_of(wire) matches Some(p) ==> {
                &&& u.timestamp == p.timestamp
                &&& u.title == p.title
                &&& u.content == p.content
                &&& u.fields == p.fields
                &&& u.native == p.native
                &&& u.stamp == p.stamp
            }
            &&& u.hash == Some(
                fixed::<32>(
                    digest(data.subrange(0, 16) + data.subrange(16, 32) + without_stamp(wire)),
                ),
            )
            &&& u.message_id == u.hash
            &&& u.transient_id == u.hash
            &&& u.incoming
            &&& !u.signature_validated
            &&& u.method == DeliveryMethod::Direct
            &&& u.stamp_value is None
        }),
        is_packed(data) <==> payload_fault(data.subrange(96, data.len() as int)) is None,
{
    lemma_hash_exists(data.subrange(0, 16));
    lemma_hash_exists(data.subrange(16, 32));
}

/// Every byte string of the right length is a hash.
proof fn lemma_hash_exists(b: Seq<u8>)
    requires
        b.len() == 16,
    ensures
        fixed::<16>(b)@ == b,
{
    let k: [u8; 16] = [
        b[0], b[1], b[2], b[3], b[4], b[5], b[6], b[7],
        b[8], b[9], b[10], b[11], b[12], b[13], b[14], b[15],
    ];
    assert(k@ =~= b);
    lemma_fixed(k);
}

/// Bytes are no message where there is nothing behind the header, which the error then gives the
/// length of, or where what is behind it is no payload.
pub proof fn bytes_are_refused_for_a_reason(data: Seq<u8>, e: MessageError)
    ensures
        data.len() <= 96 ==> !is_packed(data) && (is_unpack_error(data, e) <==> e
            == MessageError::TooShort(data.len() as usize)),
        data.len() > 96 ==> (is_unpack_error(data, e) <==> e is UnpackFailed),
{
}

/// A message can be packed where it is signed and all its fields can be written, and one that
/// is not signed says so.
pub proof fn signed_messages_can_be_packed(m: MessageModel, e: MessageError)
    ensures
        is_packable(m) <==> m.signature != None::<[u8; 64]> && forall|id: u8| #[trigger]
            m.fields.contains_key(id) ==> field_element(
                m.fields[id],
                m.native.contains(id),
            ) is Some,
        m.signature is None ==> (is_pack_error(m, e) <==> e is NotSigned),
        m.signature is Some ==> (is_pack_error(m, e) <==> e is PackFailed),
{
}

/// A message starts out with what it was composed of and nothing else.
pub proof fn composed_messages_start_afresh(
    destination_hash: [u8; 16],
    source_hash: [u8; 16],
    title: Seq<char>,
    content: Seq<char>,
    method: DeliveryMethod,
    timestamp: u64,
)
    ensures
        ({
            let m = composed(destination_hash, source_hash, title, content, method, timestamp);
            &&& m.destination_hash == destination_hash
            &&& m.source_hash == source_hash
            &&& m.title == title
            &&& m.content == content
            &&& m.method == method
            &&& m.timestamp == timestamp
            &&& m.fields.dom() == Set::<u8>::empty()
            &&& m.native == Set::<u8>::empty()
            &&& m.state == MessageState::Generating
            &&& m.representation == DeliveryRepresentation::Unknown
            &&& m.signature is None
            &&& m.hash is None
            &&& m.message_id is None
            &&& m.transient_id is None
            &&& m.stamp is None
            &&& m.propagation_stamp is None
            &&& m.stamp_cost is None
            &&& m.stamp_value is None
            &&& m.outbound_ticket is None
            &&& m.ratchet_id is None
            &&& m.unverified_reason is None
            &&& m.wire_payload is None
            &&& m.transport_encryption is None
            &&& m.delivery_attempts == 0
            &&& m.last_delivery_attempt == 0
            &&& m.next_delivery_attempt == 0
            &&& m.progress == 0
            &&& !m.signature_validated
            &&& !m.transport_encrypted
            &&& !m.incoming
            &&& !m.source_blackholed
            &&& m.auto_compress
        }),
{
}

/// A ticket stamps a message with half the digest of the ticket and the message's identifier,
/// and that stamp is taken for one of the ticket wherever the ticket is among those that are
/// known; the identifier is that of the message, or else its hash.
pub proof fn tickets_stamp_messages(
    tickets: Seq<Seq<u8>>,
    i: int,
    id: [u8; 32],
    m: MessageModel,
)
    ensures
        0 <= i < tickets.len() ==> is_ticket_stamp(tickets, id, digest(tickets[i] + id@).take(16)),
        forall|stamp: Seq<u8>| #[trigger]
            is_ticket_stamp(tickets, id, stamp) ==> exists|j: int|
                0 <= j < tickets.len() && stamp == digest(#[trigger] tickets[j] + id@).take(16),
        m.message_id == Some(id) ==> stamped_id(m) == Some(id),
        m.message_id is None ==> stamped_id(m) == m.hash,
{
    if 0 <= i < tickets.len() {
        assert(digest(tickets[i] + id@).take(16) == ticket_stamp(tickets[i], id));
    }
    assert forall|stamp: Seq<u8>| #[trigger] is_ticket_stamp(tickets, id, stamp) implies exists|
        j: int,
    |
        0 <= j < tickets.len() && stamp == digest(#[trigger] tickets[j] + id@).take(16) by {
        let j = choose|j: int|
            0 <= j < tickets.len() && stamp == ticket_stamp(#[trigger] tickets[j], id);
        assert(stamp == digest(tickets[j] + id@).take(16));
    }
}

} // verus!
