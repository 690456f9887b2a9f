//! Messages in storage: containers for files, and envelopes for the outbound queue.

use vstd::prelude::*;
use vstd::utf8::encode_utf8;

use crate::bytes::{fixed, lemma_fixed, to_fixed};
use crate::constants::{
    method_byte, representation_byte, state_byte, DeliveryMethod, DeliveryRepresentation,
    MessageState,
};
use crate::message::{
    is_carriable, is_pack_error, is_packable, is_packed, is_unpack_error, opt_text, packed,
    reads_back, unpacked, LxMessage, MessageError, MessageModel,
};
use crate::msgpack::{
    decode, encode, encoding, lemma_view, pair_models, parsed, storable, Datum, Model, MAX_LENGTH,
    MAX_NESTING,
};
use crate::payload::opt_view;
use crate::record::{
    byte_array, distinct_names, lemma_byte_array, lemma_named_record, named_record, octets,
    raw_octets, read_octets, read_raw_octets, read_record, read_text, read_truth, read_whole,
    record_fields, slots, text, texts, truth, whole, write_byte_array,
};

verus! {

// ---------------------------------------------------------------------------
// Fields that may be missing.
// ---------------------------------------------------------------------------

/// A text that may be missing; nothing where there is something else.
pub open spec fn optional_text(f: Option<Model>) -> Option<Option<Seq<char>>> {
    match f {
        None => Some(None),
        Some(Model::Nil) => Some(None),
        Some(m) => match text(m) {
            Some(t) => Some(Some(t)),
            None => None,
        },
    }
}

/// A byte string that may be missing; nothing where there is something else.
pub open spec fn optional_octets(f: Option<Model>) -> Option<Option<Seq<u8>>> {
    match f {
        None => Some(None),
        Some(Model::Nil) => Some(None),
        Some(m) => match octets(m) {
            Some(b) => Some(Some(b)),
            None => None,
        },
    }
}

/// An integer that may be missing; nothing where there is something else.
pub open spec fn optional_whole(f: Option<Model>, limit: int) -> Option<Option<int>> {
    match f {
        None => Some(None),
        Some(Model::Nil) => Some(None),
        Some(m) => match whole(m, limit) {
            Some(n) => Some(Some(n)),
            None => None,
        },
    }
}

fn read_optional_text(f: Option<&Datum>) -> (r: Option<Option<String>>)
    ensures
        r is Some <==> optional_text(
            match f {
                Some(d) => Some(d@),
                None => None,
            },
        ) is Some,
        r matches Some(t) ==> optional_text(
            match f {
                Some(d) => Some(d@),
                None => None,
            },
        ) == Some(opt_text(t)),
{
    match f {
        None => Some(None),
        Some(Datum::Nil) => Some(None),
        Some(d) => match read_text(d) {
            Some(t) => Some(Some(t)),
            None => None,
        },
    }
}

fn read_optional_octets(f: Option<&Datum>) -> (r: Option<Option<Vec<u8>>>)
    ensures
        r is Some <==> optional_octets(
            match f {
                Some(d) => Some(d@),
                None => None,
            },
        ) is Some,
        r matches Some(b) ==> optional_octets(
            match f {
                Some(d) => Some(d@),
                None => None,
            },
        ) == Some(opt_view(b)),
{
    match f {
        None => Some(None),
        Some(Datum::Nil) => Some(None),
        Some(d) => match read_octets(d) {
            Some(b) => Some(Some(b)),
            None => None,
        },
    }
}

fn read_optional_whole(f: Option<&Datum>, limit: u64) -> (r: Option<Option<u64>>)
    ensures
        r is Some <==> optional_whole(
            match f {
                Some(d) => Some(d@),
                None => None,
            },
            limit as int,
        ) is Some,
        r matches Some(n) ==> optional_whole(
            match f {
                Some(d) => Some(d@),
                None => None,
            },
            limit as int,
        ) == Some(
            match n {
                Some(k) => Some(k as int),
                None => None,
            },
        ),
        r matches Some(Some(k)) ==> k <= limit,
{
    match f {
        None => Some(None),
        Some(Datum::Nil) => Some(None),
        Some(d) => match read_whole(d, limit) {
            Some(n) => Some(Some(n)),
            None => None,
        },
    }
}

// ---------------------------------------------------------------------------
// Containers.
// ---------------------------------------------------------------------------

/// What a container holds.
#[verifier::ext_equal]
pub ghost struct ContainerModel {
    pub state: int,
    pub bytes: Seq<u8>,
    pub transport_encrypted: bool,
    pub transport_encryption: Option<Seq<char>>,
    pub method: int,
}

/// The names of the fields of a container.
pub open spec fn container_names() -> Seq<Seq<char>> {
    seq![
        "state"@,
        "lxmf_bytes"@,
        "transport_encrypted"@,
        "transport_encryption"@,
        "method"@,
    ]
}

/// The container in the fields of a record.
pub open spec fn container_from(f: Seq<Option<Model>>) -> Option<ContainerModel> {
    match (f[0], f[1], f[2], f[4]) {
        (Some(s), Some(b), Some(t), Some(m)) => match (
            whole(s, 255),
            raw_octets(b),
            truth(t),
            optional_text(f[3]),
            whole(m, 255),
        ) {
            (Some(state), Some(bytes), Some(encrypted), Some(encryption), Some(method)) => Some(
                ContainerModel {
                    state,
                    bytes,
                    transport_encrypted: encrypted,
                    transport_encryption: encryption,
                    method,
                },
            ),
            _ => None,
        },
        _ => None,
    }
}

/// The container in some bytes.
pub open spec fn container_in(data: Seq<u8>) -> Option<ContainerModel> {
    match parsed(data) {
        Some((m, _)) => match record_fields(container_names(), m) {
            Some(f) => container_from(f),
            None => None,
        },
        None => None,
    }
}

/// The state that a byte stands for; an unknown byte stands for a message that is being
/// composed.
pub open spec fn stored_state(b: int) -> MessageState {
    if b == state_byte(MessageState::Outbound) {
        MessageState::Outbound
    } else if b == state_byte(MessageState::Sending) {
        MessageState::Sending
    } else if b == state_byte(MessageState::Sent) {
        MessageState::Sent
    } else if b == state_byte(MessageState::Delivered) {
        MessageState::Delivered
    } else if b == state_byte(MessageState::Rejected) {
        MessageState::Rejected
    } else if b == state_byte(MessageState::Cancelled) {
        MessageState::Cancelled
    } else if b == state_byte(MessageState::Failed) {
        MessageState::Failed
    } else {
        MessageState::Generating
    }
}

/// The method that a byte stands for; an unknown byte stands for direct delivery.
pub open spec fn stored_method(b: int) -> DeliveryMethod {
    if b == method_byte(DeliveryMethod::Opportunistic) {
        DeliveryMethod::Opportunistic
    } else if b == method_byte(DeliveryMethod::Propagated) {
        DeliveryMethod::Propagated
    } else if b == method_byte(DeliveryMethod::Paper) {
        DeliveryMethod::Paper
    } else {
        DeliveryMethod::Direct
    }
}

/// The message in a container.
pub open spec fn contained(c: ContainerModel) -> MessageModel {
    MessageModel {
        state: stored_state(c.state),
        transport_encrypted: c.transport_encrypted,
        transport_encryption: c.transport_encryption,
        method: stored_method(c.method),
        ..unpacked(c.bytes)
    }
}

/// Whether some bytes are a container with a message in it.
pub open spec fn is_container(data: Seq<u8>) -> bool {
    container_in(data) matches Some(c) && is_packed(c.bytes)
}

/// Why some bytes are no container with a message in it.
pub open spec fn is_container_error(data: Seq<u8>, e: MessageError) -> bool {
    match container_in(data) {
        None => e is UnpackFailed,
        Some(c) => is_unpack_error(c.bytes, e),
    }
}

/// The value that an optional text is written as.
pub open spec fn text_element(t: Option<Seq<char>>) -> Model {
    match t {
        Some(s) => Model::Text(s),
        None => Model::Nil,
    }
}

/// The values of the fields of the container of a message.
pub open spec fn container_values(m: MessageModel) -> Seq<Model> {
    seq![
        Model::Integer(state_byte(m.state) as int),
        Model::Binary(packed(m)),
        Model::Boolean(m.transport_encrypted),
        text_element(m.transport_encryption),
        Model::Integer(method_byte(m.method) as int),
    ]
}

/// The value that a message is contained in: a dictionary with a name for each field.
pub open spec fn container_element(m: MessageModel) -> Model {
    named_record(container_names(), container_values(m))
}

/// Whether a container can carry a message.
pub open spec fn fits_container(m: MessageModel) -> bool {
    &&& packed(m).len() <= MAX_LENGTH
    &&& m.transport_encryption matches Some(t) ==> encode_utf8(t).len() <= MAX_LENGTH
}

/// What is read in the container of a message.
pub open spec fn container_of(m: MessageModel) -> ContainerModel {
    ContainerModel {
        state: state_byte(m.state) as int,
        bytes: packed(m),
        transport_encrypted: m.transport_encrypted,
        transport_encryption: m.transport_encryption,
        method: method_byte(m.method) as int,
    }
}

/// The names of a container are distinct and short.
proof fn lemma_container_names()
    ensures
        distinct_names(container_names()),
        forall|i: int|
            0 <= i < container_names().len() ==> encode_utf8(
                #[trigger] container_names()[i],
            ).len() <= MAX_LENGTH,
{
    reveal_strlit("state");
    reveal_strlit("lxmf_bytes");
    reveal_strlit("transport_encrypted");
    reveal_strlit("transport_encryption");
    reveal_strlit("method");
    let n = container_names();
    assert(n[0].len() == 5 && n[1].len() == 10 && n[2].len() == 19 && n[3].len() == 20
        && n[4].len() == 6);
    assert forall|i: int, j: int| 0 <= i < j < n.len() implies #[trigger] n[i]
        != #[trigger] n[j] by {
        assert(n[i].len() != n[j].len());
    }
    assert forall|i: int| 0 <= i < n.len() implies encode_utf8(#[trigger] n[i]).len()
        <= MAX_LENGTH by {
        lemma_utf8_length(n[i]);
    }
}

proof fn lemma_container_element(m: MessageModel)
    ensures
        record_fields(container_names(), container_element(m)) is Some,
        container_from(record_fields(container_names(), container_element(m))->0) == Some(
            container_of(m),
        ),
        fits_container(m) ==> storable(container_element(m), MAX_NESTING as nat),
{
    lemma_container_names();
    let names = container_names();
    let values = container_values(m);
    lemma_named_record(names, values);
    let f = record_fields(names, container_element(m))->0;
    assert(f =~= Seq::new(values.len(), |i: int| Some(values[i])));
    assert(f[0] == Some(values[0]) && f[1] == Some(values[1]) && f[2] == Some(values[2]) && f[3]
        == Some(values[3]) && f[4] == Some(values[4]));
    if fits_container(m) {
        let d = container_element(m)->Dictionary_0;
        assert forall|i: int| 0 <= i < d.len() implies storable(
            (#[trigger] d[i]).0,
            (MAX_NESTING - 1) as nat,
        ) && storable(d[i].1, (MAX_NESTING - 1) as nat) by {
            assert(d[i].0 == Model::Text(names[i]));
            assert(d[i].1 == values[i]);
            assert(i == 0 || i == 1 || i == 2 || i == 3 || i == 4);
        }
    }
}

/// A stored state, method and representation read back as themselves.
pub proof fn stored_bytes_read_back(
    state: MessageState,
    method: DeliveryMethod,
    representation: DeliveryRepresentation,
)
    ensures
        stored_state(state_byte(state) as int) == state,
        stored_method(method_byte(method) as int) == method,
        stored_representation(representation_byte(representation) as int) == Some(representation),
{
}

fn names_of_container() -> (names: Vec<&'static str>)
    ensures
        texts(names@) == container_names(),
        distinct_names(container_names()),
{
    let mut names: Vec<&'static str> = Vec::new();
    names.push("state");
    names.push("lxmf_bytes");
    names.push("transport_encrypted");
    names.push("transport_encryption");
    names.push("method");
    proof {
        assert(texts(names@) =~= container_names());
        lemma_container_names();
    }
    names
}

/// A container, read.
struct Container {
    state: u8,
    bytes: Vec<u8>,
    transport_encrypted: bool,
    transport_encryption: Option<String>,
    method: u8,
}

impl View for Container {
    type V = ContainerModel;

    closed spec fn view(&self) -> ContainerModel {
        ContainerModel {
            state: self.state as int,
            bytes: self.bytes@,
            transport_encrypted: self.transport_encrypted,
            transport_encryption: opt_text(self.transport_encryption),
            method: self.method as int,
        }
    }
}

fn read_container(data: &[u8]) -> (r: Option<Container>)
    ensures
        r is Some <==> container_in(data@) is Some,
        r matches Some(c) ==> container_in(data@) == Some(c@),
{
    let value = match decode(data) {
        Some((v, _)) => v,
        None => {
            return None;
        },
    };
    let names = names_of_container();
    let f = match read_record(&names, &value) {
        Some(f) => f,
        None => {
            return None;
        },
    };
    let ghost s = slots(f@);
    assert(s.len() == 5);
    match (f[0], f[1], f[2], f[4]) {
        (Some(a), Some(b), Some(t), Some(m)) => {
            assert(s[0] == Some(a@) && s[1] == Some(b@) && s[2] == Some(t@) && s[4] == Some(m@));
            let encryption = read_optional_text(f[3]);
            match (
                read_whole(a, 255),
                read_raw_octets(b),
                read_truth(t),
                encryption,
                read_whole(m, 255),
            ) {
                (
                    Some(state),
                    Some(bytes),
                    Some(transport_encrypted),
                    Some(transport_encryption),
                    Some(method),
                ) => Some(
                    Container {
                        state: state as u8,
                        bytes,
                        transport_encrypted,
                        transport_encryption,
                        method: method as u8,
                    },
                ),
                _ => None,
            }
        },
        _ => None,
    }
}

impl LxMessage {
    /// The message in a container: a dictionary with its state, its bytes, what is known of
    /// its transport, and its method.
    pub fn pack_container(&self) -> (r: Result<Vec<u8>, MessageError>)
        ensures
            r is Ok <==> is_packable(self@),
            r matches Ok(data) ==> data@ == encoding(container_element(self@)),
            r matches Ok(data) ==> fits_container(self@) ==> container_in(data@) == Some(
                container_of(self@),
            ),
            r matches Ok(data) ==> is_carriable(self@) ==> reads_back(self@, packed(self@)),
            r matches Err(e) ==> is_pack_error(self@, e),
    {
        let bytes = match self.pack() {
            Ok(b) => b,
            Err(e) => {
                return Err(e);
            },
        };
        let mut items: Vec<(Datum, Datum)> = Vec::new();
        items.push(
            (Datum::Text("state".to_owned()), Datum::Unsigned(self.state.to_byte() as u64)),
        );
        items.push((Datum::Text("lxmf_bytes".to_owned()), Datum::Binary(bytes)));
        items.push(
            (
                Datum::Text("transport_encrypted".to_owned()),
                Datum::Boolean(self.transport_encrypted),
            ),
        );
        items.push(
            (
                Datum::Text("transport_encryption".to_owned()),
                match &self.transport_encryption {
                    Some(t) => Datum::Text(t.clone()),
                    None => Datum::Nil,
                },
            ),
        );
        items.push(
            (Datum::Text("method".to_owned()), Datum::Unsigned(self.method.to_byte() as u64)),
        );
        let value = Datum::Dictionary(items);
        let ghost expected = container_element(self@)->Dictionary_0;
        proof {
            lemma_view(&value);
            assert(pair_models(items@) =~= expected);
            lemma_container_element(self@);
        }
        Ok(encode(&value))
    }

    /// The message in a container.
    pub fn unpack_container(data: &[u8]) -> (r: Result<Self, MessageError>)
        ensures
            r is Ok <==> is_container(data@),
            r matches Ok(m) ==> m@ == contained(container_in(data@)->0),
            r matches Err(e) ==> is_container_error(data@, e),
    {
        let c = match read_container(data) {
            Some(c) => c,
            None => {
                return Err(MessageError::UnpackFailed("malformed container".to_owned()));
            },
        };
        match LxMessage::unpack(c.bytes.as_slice()) {
            Ok(mut m) => {
                m.state = match MessageState::from_byte(c.state) {
                    Some(s) => s,
                    None => MessageState::Generating,
                };
                m.method = match DeliveryMethod::from_byte(c.method) {
                    Some(x) => x,
                    None => DeliveryMethod::Direct,
                };
                m.transport_encrypted = c.transport_encrypted;
                m.transport_encryption = c.transport_encryption;
                Ok(m)
            },
            Err(e) => Err(e),
        }
    }
}

// ---------------------------------------------------------------------------
// Envelopes.
// ---------------------------------------------------------------------------

/// The version of the envelopes that are written and read.
pub const ENVELOPE_VERSION: u8 = 1;

/// What an envelope holds.
#[verifier::ext_equal]
pub ghost struct EnvelopeModel {
    pub version: int,
    pub container: Seq<u8>,
    pub propagation_stamp: Option<Seq<u8>>,
    pub ratchet_id: Option<Seq<u8>>,
    pub stamp_cost: Option<int>,
    pub outbound_ticket: Option<Seq<u8>>,
    pub stamp_value: Option<int>,
    pub representation: int,
    pub auto_compress: bool,
}

/// The names of the fields of an envelope.
pub open spec fn envelope_names() -> Seq<Seq<char>> {
    seq![
        "version"@,
        "container"@,
        "propagation_stamp"@,
        "ratchet_id"@,
        "stamp_cost"@,
        "outbound_ticket"@,
        "stamp_value"@,
        "representation"@,
        "auto_compress"@,
    ]
}

/// The envelope in the fields of a record.
pub open spec fn envelope_from(f: Seq<Option<Model>>) -> Option<EnvelopeModel> {
    match (f[0], f[1], f[7], f[8]) {
        (Some(v), Some(c), Some(r), Some(a)) => match (
            (whole(v, 255), raw_octets(c), optional_octets(f[2]), optional_octets(f[3])),
            (
                optional_whole(f[4], 255),
                optional_octets(f[5]),
                optional_whole(f[6], 65535),
                whole(r, 255),
                truth(a),
            ),
        ) {
            (
                (Some(version), Some(container), Some(propagation_stamp), Some(ratchet_id)),
                (
                    Some(stamp_cost),
                    Some(outbound_ticket),
                    Some(stamp_value),
                    Some(representation),
                    Some(auto_compress),
                ),
            ) => Some(
                EnvelopeModel {
                    version,
                    container,
                    propagation_stamp,
                    ratchet_id,
                    stamp_cost,
                    outbound_ticket,
                    stamp_value,
                    representation,
                    auto_compress,
                },
            ),
            _ => None,
        },
        _ => None,
    }
}

/// The envelope in some bytes.
pub open spec fn envelope_in(data: Seq<u8>) -> Option<EnvelopeModel> {
    match parsed(data) {
        Some((m, _)) => match record_fields(envelope_names(), m) {
            Some(f) => envelope_from(f),
            None => None,
        },
        None => None,
    }
}

/// The representation that a byte stands for.
pub open spec fn stored_representation(b: int) -> Option<DeliveryRepresentation> {
    if b == representation_byte(DeliveryRepresentation::Unknown) {
        Some(DeliveryRepresentation::Unknown)
    } else if b == representation_byte(DeliveryRepresentation::Packet) {
        Some(DeliveryRepresentation::Packet)
    } else if b == representation_byte(DeliveryRepresentation::Resource) {
        Some(DeliveryRepresentation::Resource)
    } else if b == representation_byte(DeliveryRepresentation::Paper) {
        Some(DeliveryRepresentation::Paper)
    } else {
        None
    }
}

/// Whether an optional byte string has this length where there is one.
pub open spec fn has_length(o: Option<Seq<u8>>, n: nat) -> bool {
    o matches Some(b) ==> b.len() == n
}

/// Whether an envelope holds a message.
pub open spec fn is_restorable(e: EnvelopeModel) -> bool {
    &&& e.version == ENVELOPE_VERSION
    &&& is_container(e.container)
    &&& has_length(e.propagation_stamp, 32)
    &&& has_length(e.ratchet_id, 32)
    &&& has_length(e.outbound_ticket, 16)
    &&& stored_representation(e.representation) is Some
}

/// An optional byte string of a known length.
pub open spec fn fixed_option<const N: usize>(o: Option<Seq<u8>>) -> Option<[u8; N]> {
    match o {
        Some(b) => Some(fixed(b)),
        None => None,
    }
}

/// The message in an envelope.
pub open spec fn restored(e: EnvelopeModel) -> MessageModel {
    MessageModel {
        propagation_stamp: fixed_option(e.propagation_stamp),
        ratchet_id: fixed_option(e.ratchet_id),
        stamp_cost: match e.stamp_cost {
            Some(n) => Some(n as u8),
            None => None,
        },
        outbound_ticket: fixed_option(e.outbound_ticket),
        stamp_value: match e.stamp_value {
            Some(n) => Some(n as u16),
            None => None,
        },
        representation: stored_representation(e.representation)->0,
        auto_compress: e.auto_compress,
        ..contained(container_in(e.container)->0)
    }
}

/// Why some bytes are no envelope with a message in it.
pub open spec fn is_restore_error(data: Seq<u8>, error: MessageError) -> bool {
    match envelope_in(data) {
        Some(e) => if e.version == ENVELOPE_VERSION && !is_container(e.container) {
            is_container_error(e.container, error)
        } else {
            error is UnpackFailed
        },
        None => error is UnpackFailed,
    }
}

/// The value that an optional array of bytes is written as.
pub open spec fn optional_bytes_element<const N: usize>(o: Option<[u8; N]>) -> Model {
    match o {
        Some(b) => byte_array(b@),
        None => Model::Nil,
    }
}

/// The value that an optional integer is written as.
pub open spec fn optional_whole_element(o: Option<int>) -> Model {
    match o {
        Some(n) => Model::Integer(n),
        None => Model::Nil,
    }
}

/// An optional cost as an integer.
pub open spec fn widen8(o: Option<u8>) -> Option<int> {
    match o {
        Some(n) => Some(n as int),
        None => None,
    }
}

/// An optional value as an integer.
pub open spec fn widen16(o: Option<u16>) -> Option<int> {
    match o {
        Some(n) => Some(n as int),
        None => None,
    }
}

/// The values of the fields of the envelope of a message.
pub open spec fn envelope_values(m: MessageModel) -> Seq<Model> {
    seq![
        Model::Integer(ENVELOPE_VERSION as int),
        Model::Binary(encoding(container_element(m))),
        optional_bytes_element(m.propagation_stamp),
        optional_bytes_element(m.ratchet_id),
        optional_whole_element(widen8(m.stamp_cost)),
        optional_bytes_element(m.outbound_ticket),
        optional_whole_element(widen16(m.stamp_value)),
        Model::Integer(representation_byte(m.representation) as int),
        Model::Boolean(m.auto_compress),
    ]
}

/// The value that a message is kept as.
pub open spec fn envelope_element(m: MessageModel) -> Model {
    named_record(envelope_names(), envelope_values(m))
}

/// The bytes of an optional array.
pub open spec fn bytes_option<const N: usize>(o: Option<[u8; N]>) -> Option<Seq<u8>> {
    match o {
        Some(b) => Some(b@),
        None => None,
    }
}

/// What is read in the envelope of a message.
pub open spec fn envelope_of(m: MessageModel) -> EnvelopeModel {
    EnvelopeModel {
        version: ENVELOPE_VERSION as int,
        container: encoding(container_element(m)),
        propagation_stamp: bytes_option(m.propagation_stamp),
        ratchet_id: bytes_option(m.ratchet_id),
        stamp_cost: widen8(m.stamp_cost),
        outbound_ticket: bytes_option(m.outbound_ticket),
        stamp_value: widen16(m.stamp_value),
        representation: representation_byte(m.representation) as int,
        auto_compress: m.auto_compress,
    }
}

/// Whether an envelope can carry a message.
pub open spec fn fits_envelope(m: MessageModel) -> bool {
    &&& is_carriable(m)
    &&& fits_container(m)
    &&& encoding(container_element(m)).len() <= MAX_LENGTH
}

/// What is kept of a message in an envelope: everything that is packed, as a recipient
/// would read it, and what the outbound queue needs beyond that.
pub open spec fn is_kept(m: MessageModel, data: Seq<u8>) -> bool {
    &&& envelope_in(data) matches Some(e) && is_restorable(e) && {
        let r = restored(e);
        &&& r == (MessageModel {
            state: m.state,
            method: m.method,
            transport_encrypted: m.transport_encrypted,
            transport_encryption: m.transport_encryption,
            propagation_stamp: m.propagation_stamp,
            ratchet_id: m.ratchet_id,
            stamp_cost: m.stamp_cost,
            outbound_ticket: m.outbound_ticket,
            stamp_value: m.stamp_value,
            representation: m.representation,
            auto_compress: m.auto_compress,
            ..unpacked(packed(m))
        })
    }
    &&& reads_back(m, packed(m))
}

/// The names of an envelope are distinct and short.
proof fn lemma_envelope_names()
    ensures
        distinct_names(envelope_names()),
        forall|i: int|
            0 <= i < envelope_names().len() ==> encode_utf8(
                #[trigger] envelope_names()[i],
            ).len() <= MAX_LENGTH,
{
    reveal_strlit("version");
    reveal_strlit("container");
    reveal_strlit("propagation_stamp");
    reveal_strlit("ratchet_id");
    reveal_strlit("stamp_cost");
    reveal_strlit("outbound_ticket");
    reveal_strlit("stamp_value");
    reveal_strlit("representation");
    reveal_strlit("auto_compress");
    let n = envelope_names();
    assert(n[0].len() == 7 && n[1].len() == 9 && n[2].len() == 17 && n[3].len() == 10
        && n[4].len() == 10 && n[5].len() == 15 && n[6].len() == 11 && n[7].len() == 14
        && n[8].len() == 13);
    assert(n[3][0] == 'r' && n[4][0] == 's');
    assert forall|i: int, j: int| 0 <= i < j < n.len() implies #[trigger] n[i]
        != #[trigger] n[j] by {
        if i == 3 && j == 4 {
            assert(n[3][0] != n[4][0]);
        } else {
            assert(n[i].len() != n[j].len());
        }
    }
    assert forall|i: int| 0 <= i < n.len() implies encode_utf8(#[trigger] n[i]).len()
        <= MAX_LENGTH by {
        lemma_utf8_length(n[i]);
    }
}

/// A text takes at most four bytes for each character.
proof fn lemma_utf8_length(t: Seq<char>)
    ensures
        encode_utf8(t).len() <= 4 * t.len(),
    decreases t.len(),
{
    if t.len() > 0 {
        lemma_utf8_length(t.drop_first());
    }
}

proof fn lemma_envelope_element(m: MessageModel)
    ensures
        record_fields(envelope_names(), envelope_element(m)) is Some,
        envelope_from(record_fields(envelope_names(), envelope_element(m))->0) == Some(
            envelope_of(m),
        ),
        encoding(container_element(m)).len() <= MAX_LENGTH ==> storable(
            envelope_element(m),
            MAX_NESTING as nat,
        ),
{
    lemma_envelope_names();
    let names = envelope_names();
    let values = envelope_values(m);
    lemma_named_record(names, values);
    let f = record_fields(names, envelope_element(m))->0;
    assert(f =~= Seq::new(values.len(), |i: int| Some(values[i])));
    assert(values.len() == 9);
    assert(f[0] == Some(values[0]) && f[1] == Some(values[1]) && f[2] == Some(values[2]) && f[3]
        == Some(values[3]) && f[4] == Some(values[4]) && f[5] == Some(values[5]) && f[6] == Some(
        values[6],
    ) && f[7] == Some(values[7]) && f[8] == Some(values[8]));
    if m.propagation_stamp is Some {
        lemma_byte_array(m.propagation_stamp->0@);
    }
    if m.ratchet_id is Some {
        lemma_byte_array(m.ratchet_id->0@);
    }
    if m.outbound_ticket is Some {
        lemma_byte_array(m.outbound_ticket->0@);
    }
    if encoding(container_element(m)).len() <= MAX_LENGTH {
        let d = envelope_element(m)->Dictionary_0;
        lemma_bytes_storable(m.propagation_stamp);
        lemma_bytes_storable(m.ratchet_id);
        lemma_bytes_storable(m.outbound_ticket);
        assert forall|i: int| 0 <= i < d.len() implies storable(
            (#[trigger] d[i]).0,
            (MAX_NESTING - 1) as nat,
        ) && storable(d[i].1, (MAX_NESTING - 1) as nat) by {
            assert(d[i].0 == Model::Text(names[i]));
            assert(d[i].1 == values[i]);
            assert(i == 0 || i == 1 || i == 2 || i == 3 || i == 4 || i == 5 || i == 6 || i == 7
                || i == 8);
        }
    }
}

proof fn lemma_bytes_storable<const N: usize>(o: Option<[u8; N]>)
    requires
        N <= 32,
    ensures
        storable(optional_bytes_element(o), (MAX_NESTING - 1) as nat),
{
    if o is Some {
        let s = byte_array(o->0@)->Array_0;
        assert forall|i: int| 0 <= i < s.len() implies storable(
            #[trigger] s[i],
            (MAX_NESTING - 2) as nat,
        ) by {
            assert(s[i] == Model::Integer(o->0@[i] as int));
        }
    }
}

fn names_of_envelope() -> (names: Vec<&'static str>)
    ensures
        texts(names@) == envelope_names(),
        distinct_names(envelope_names()),
{
    let mut names: Vec<&'static str> = Vec::new();
    names.push("version");
    names.push("container");
    names.push("propagation_stamp");
    names.push("ratchet_id");
    names.push("stamp_cost");
    names.push("outbound_ticket");
    names.push("stamp_value");
    names.push("representation");
    names.push("auto_compress");
    proof {
        assert(texts(names@) =~= envelope_names());
        lemma_envelope_names();
    }
    names
}

/// An envelope, read.
struct Envelope {
    version: u8,
    container: Vec<u8>,
    propagation_stamp: Option<Vec<u8>>,
    ratchet_id: Option<Vec<u8>>,
    stamp_cost: Option<u64>,
    outbound_ticket: Option<Vec<u8>>,
    stamp_value: Option<u64>,
    representation: u8,
    auto_compress: bool,
}

spec fn opt_int(o: Option<u64>) -> Option<int> {
    match o {
        Some(n) => Some(n as int),
        None => None,
    }
}

impl View for Envelope {
    type V = EnvelopeModel;

    closed spec fn view(&self) -> EnvelopeModel {
        EnvelopeModel {
            version: self.version as int,
            container: self.container@,
            propagation_stamp: opt_view(self.propagation_stamp),
            ratchet_id: opt_view(self.ratchet_id),
            stamp_cost: opt_int(self.stamp_cost),
            outbound_ticket: opt_view(self.outbound_ticket),
            stamp_value: opt_int(self.stamp_value),
            representation: self.representation as int,
            auto_compress: self.auto_compress,
        }
    }
}

fn read_envelope(data: &[u8]) -> (r: Option<Envelope>)
    ensures
        r is Some <==> envelope_in(data@) is Some,
        r matches Some(e) ==> envelope_in(data@) == Some(e@),
        r matches Some(e) ==> (e.stamp_cost matches Some(n) ==> n <= 255) && (
        e.stamp_value matches Some(n) ==> n <= 65535),
{
    let value = match decode(data) {
        Some((v, _)) => v,
        None => {
            return None;
        },
    };
    let names = names_of_envelope();
    let f = match read_record(&names, &value) {
        Some(f) => f,
        None => {
            return None;
        },
    };
    let ghost s = slots(f@);
    assert(s.len() == 9);
    match (f[0], f[1], f[7], f[8]) {
        (Some(v), Some(c), Some(p), Some(a)) => {
            assert(s[0] == Some(v@) && s[1] == Some(c@) && s[7] == Some(p@) && s[8] == Some(a@));
            let version = match read_whole(v, 255) {
                Some(x) => x,
                None => {
                    return None;
                },
            };
            let container = match read_raw_octets(c) {
                Some(x) => x,
                None => {
                    return None;
                },
            };
            let propagation_stamp = match read_optional_octets(f[2]) {
                Some(x) => x,
                None => {
                    return None;
                },
            };
            let ratchet_id = match read_optional_octets(f[3]) {
                Some(x) => x,
                None => {
                    return None;
                },
            };
            let stamp_cost = match read_optional_whole(f[4], 255) {
                Some(x) => x,
                None => {
                    return None;
                },
            };
            let outbound_ticket = match read_optional_octets(f[5]) {
                Some(x) => x,
                None => {
                    return None;
                },
            };
            let stamp_value = match read_optional_whole(f[6], 65535) {
                Some(x) => x,
                None => {
                    return None;
                },
            };
            let representation = match read_whole(p, 255) {
                Some(x) => x,
                None => {
                    return None;
                },
            };
            let auto_compress = match read_truth(a) {
                Some(x) => x,
                None => {
                    return None;
                },
            };
            Some(
                Envelope {
                    version: version as u8,
                    container,
                    propagation_stamp,
                    ratchet_id,
                    stamp_cost,
                    outbound_ticket,
                    stamp_value,
                    representation: representation as u8,
                    auto_compress,
                },
            )
        },
        _ => None,
    }
}

/// An optional byte string as an array; nothing where it has another length.
fn to_fixed_option<const N: usize>(o: &Option<Vec<u8>>) -> (r: Option<Option<[u8; N]>>)
    ensures
        r is Some <==> has_length(opt_view(*o), N as nat),
        r matches Some(x) ==> x == fixed_option::<N>(opt_view(*o)),
{
    match o {
        Some(b) => {
            let a: Option<[u8; N]> = to_fixed(b.as_slice());
            match a {
                Some(x) => {
                    proof {
                        lemma_fixed(x);
                    }
                    Some(Some(x))
                },
                None => None,
            }
        },
        None => Some(None),
    }
}

fn bytes_datum<const N: usize>(o: &Option<[u8; N]>) -> (d: Datum)
    ensures
        d@ == optional_bytes_element(*o),
{
    match o {
        Some(b) => write_byte_array(b.as_slice()),
        None => Datum::Nil,
    }
}

impl LxMessage {
    /// The message in an envelope for the outbound queue.
    pub fn encode_outbound_storage(&self) -> (r: Result<Vec<u8>, MessageError>)
        ensures
            r is Ok <==> is_packable(self@),
            r matches Ok(data) ==> data@ == encoding(envelope_element(self@)),
            r matches Ok(data) ==> fits_envelope(self@) ==> is_kept(self@, data@),
            r matches Err(e) ==> is_pack_error(self@, e),
    {
        let container = match self.pack_container() {
            Ok(c) => c,
            Err(e) => {
                return Err(e);
            },
        };
        let mut items: Vec<(Datum, Datum)> = Vec::new();
        items.push(
            (Datum::Text("version".to_owned()), Datum::Unsigned(ENVELOPE_VERSION as u64)),
        );
        items.push((Datum::Text("container".to_owned()), Datum::Binary(container)));
        items.push(
            (Datum::Text("propagation_stamp".to_owned()), bytes_datum(&self.propagation_stamp)),
        );
        items.push((Datum::Text("ratchet_id".to_owned()), bytes_datum(&self.ratchet_id)));
        items.push(
            (
                Datum::Text("stamp_cost".to_owned()),
                match self.stamp_cost {
                    Some(n) => Datum::Unsigned(n as u64),
                    None => Datum::Nil,
                },
            ),
        );
        items.push(
            (Datum::Text("outbound_ticket".to_owned()), bytes_datum(&self.outbound_ticket)),
        );
        items.push(
            (
                Datum::Text("stamp_value".to_owned()),
                match self.stamp_value {
                    Some(n) => Datum::Unsigned(n as u64),
                    None => Datum::Nil,
                },
            ),
        );
        items.push(
            (
                Datum::Text("representation".to_owned()),
                Datum::Unsigned(self.representation.to_byte() as u64),
            ),
        );
        items.push((Datum::Text("auto_compress".to_owned()), Datum::Boolean(self.auto_compress)));
        let value = Datum::Dictionary(items);
        let ghost expected = envelope_element(self@)->Dictionary_0;
        proof {
            lemma_view(&value);
            assert(pair_models(items@) =~= expected);
            lemma_envelope_element(self@);
        }
        let data = encode(&value);
        proof {
            if fits_envelope(self@) {
                lemma_kept(self@, data@);
            }
        }
        Ok(data)
    }

    /// The message in an envelope.
    pub fn decode_outbound_storage(data: &[u8]) -> (r: Result<Self, MessageError>)
        ensures
            r is Ok <==> (envelope_in(data@) matches Some(e) && is_restorable(e)),
            r matches Ok(m) ==> m@ == restored(envelope_in(data@)->0),
            r matches Err(e) ==> is_restore_error(data@, e),
    {
        let e = match read_envelope(data) {
            Some(e) => e,
            None => {
                return Err(
                    MessageError::UnpackFailed("malformed outbound envelope".to_owned()),
                );
            },
        };
        if e.version != ENVELOPE_VERSION {
            return Err(
                MessageError::UnpackFailed("unsupported outbound storage version".to_owned()),
            );
        }
        let mut m = match LxMessage::unpack_container(e.container.as_slice()) {
            Ok(m) => m,
            Err(error) => {
                return Err(error);
            },
        };
        m.propagation_stamp = match to_fixed_option(&e.propagation_stamp) {
            Some(x) => x,
            None => {
                return Err(
                    MessageError::UnpackFailed("invalid propagation stamp length".to_owned()),
                );
            },
        };
        m.ratchet_id = match to_fixed_option(&e.ratchet_id) {
            Some(x) => x,
            None => {
                return Err(MessageError::UnpackFailed("invalid ratchet ID length".to_owned()));
            },
        };
        m.stamp_cost = match e.stamp_cost {
            Some(n) => Some(n as u8),
            None => None,
        };
        m.outbound_ticket = match to_fixed_option(&e.outbound_ticket) {
            Some(x) => x,
            None => {
                return Err(
                    MessageError::UnpackFailed("invalid outbound ticket length".to_owned()),
                );
            },
        };
        m.stamp_value = match e.stamp_value {
            Some(n) => Some(n as u16),
            None => None,
        };
        m.representation = match DeliveryRepresentation::from_byte(e.representation) {
            Some(x) => x,
            None => {
                return Err(
                    MessageError::UnpackFailed("invalid delivery representation".to_owned()),
                );
            },
        };
        m.auto_compress = e.auto_compress;
        Ok(m)
    }
}

proof fn lemma_kept(m: MessageModel, data: Seq<u8>)
    requires
        is_packable(m),
        reads_back(m, packed(m)),
        parsed(data) == Some((envelope_element(m), Seq::<u8>::empty())),
        container_in(encoding(container_element(m))) == Some(container_of(m)),
    ensures
        is_kept(m, data),
{
    lemma_envelope_element(m);
    stored_bytes_read_back(m.state, m.method, m.representation);
    if m.propagation_stamp is Some {
        lemma_fixed(m.propagation_stamp->0);
    }
    if m.ratchet_id is Some {
        lemma_fixed(m.ratchet_id->0);
    }
    if m.outbound_ticket is Some {
        lemma_fixed(m.outbound_ticket->0);
    }
}

// ---------------------------------------------------------------------------
// What containers and envelopes come to.
// ---------------------------------------------------------------------------

/// A container is written as five named fields: the state, the packed message, what is known of
/// its transport, and the method.
pub proof fn containers_have_their_fields(m: MessageModel)
    ensures
        container_element(m) == Model::Dictionary(
            seq![
                (Model::Text("state"@), Model::Integer(state_byte(m.state) as int)),
                (Model::Text("lxmf_bytes"@), Model::Binary(packed(m))),
                (Model::Text("transport_encrypted"@), Model::Boolean(m.transport_encrypted)),
                (
                    Model::Text("transport_encryption"@),
                    match m.transport_encryption {
                        Some(t) => Model::Text(t),
                        None => Model::Nil,
                    },
                ),
                (Model::Text("method"@), Model::Integer(method_byte(m.method) as int)),
            ],
        ),
{
    assert(container_element(m)->Dictionary_0 =~= seq![
        (Model::Text("state"@), Model::Integer(state_byte(m.state) as int)),
        (Model::Text("lxmf_bytes"@), Model::Binary(packed(m))),
        (Model::Text("transport_encrypted"@), Model::Boolean(m.transport_encrypted)),
        (
            Model::Text("transport_encryption"@),
            match m.transport_encryption {
                Some(t) => Model::Text(t),
                None => Model::Nil,
            },
        ),
        (Model::Text("method"@), Model::Integer(method_byte(m.method) as int)),
    ]);
}

/// A message comes out of its container with the state, the method and the transport that it had
/// when it went in, and else as its bytes are read.
pub proof fn containers_give_back_their_message(m: MessageModel)
    ensures
        ({
            let c = contained(container_of(m));
            &&& c.state == m.state
            &&& c.method == m.method
            &&& c.transport_encrypted == m.transport_encrypted
            &&& c.transport_encryption == m.transport_encryption
            &&& c == (MessageModel {
                state: c.state,
                method: c.method,
                transport_encrypted: c.transport_encrypted,
                transport_encryption: c.transport_encryption,
                ..unpacked(packed(m))
            })
        }),
        container_from(record_fields(container_names(), container_element(m))->0) == Some(
            container_of(m),
        ),
        container_of(m).bytes == packed(m),
{
    lemma_container_element(m);
    stored_bytes_read_back(m.state, m.method, m.representation);
}

/// A byte that stands for no state is read as a message that is being composed, and one that
/// stands for no method as direct delivery; one that stands for no representation is refused.
pub proof fn unknown_bytes_have_a_meaning(b: int)
    ensures
        (forall|s: MessageState| b != state_byte(s)) ==> stored_state(b)
            == MessageState::Generating,
        (forall|d: DeliveryMethod| b != method_byte(d)) ==> stored_method(b)
            == DeliveryMethod::Direct,
        stored_representation(b) is Some <==> b == 0 || b == 1 || b == 2 || b == 5,
        forall|s: MessageState| b == #[trigger] state_byte(s) ==> stored_state(b) == s,
        forall|d: DeliveryMethod| b == #[trigger] method_byte(d) ==> stored_method(b) == d,
{
}

/// A container is read where its fields hold what they should: bytes for state and method, the
/// message's bytes, whether it was encrypted, and text or nothing for how.
pub proof fn containers_are_read(f: Seq<Option<Model>>)
    requires
        f.len() == 5,
    ensures
        container_from(f) is Some <==> {
            &&& f[0] matches Some(m) && whole(m, 255) is Some
            &&& f[1] matches Some(m) && raw_octets(m) is Some
            &&& f[2] matches Some(m) && truth(m) is Some
            &&& (f[3] is None || f[3] == Some(Model::Nil) || text(f[3]->0) is Some)
            &&& f[4] matches Some(m) && whole(m, 255) is Some
        },
        container_from(f) matches Some(c) ==> {
            &&& Some(c.state) == whole(f[0]->0, 255)
            &&& Some(c.bytes) == raw_octets(f[1]->0)
            &&& Some(c.transport_encrypted) == truth(f[2]->0)
            &&& c.transport_encryption == (if f[3] is None || f[3] == Some(Model::Nil) {
                None
            } else {
                text(f[3]->0)
            })
            &&& Some(c.method) == whole(f[4]->0, 255)
        },
{
}

/// An envelope is written as nine named fields: its version, the container, and what the outbound
/// queue needs to know of a message beyond that.
pub proof fn envelopes_have_their_fields(m: MessageModel)
    ensures
        envelope_element(m) is Dictionary,
        ({
            let d = envelope_element(m)->Dictionary_0;
            &&& d.len() == 9
            &&& d[0] == (Model::Text("version"@), Model::Integer(1))
            &&& d[1] == (Model::Text("container"@), Model::Binary(encoding(container_element(m))))
            &&& d[2].0 == Model::Text("propagation_stamp"@)
            &&& d[2].1 == (match m.propagation_stamp {
                Some(b) => byte_array(b@),
                None => Model::Nil,
            })
            &&& d[3].0 == Model::Text("ratchet_id"@)
            &&& d[3].1 == (match m.ratchet_id {
                Some(b) => byte_array(b@),
                None => Model::Nil,
            })
            &&& d[4].0 == Model::Text("stamp_cost"@)
            &&& d[4].1 == (match m.stamp_cost {
                Some(n) => Model::Integer(n as int),
                None => Model::Nil,
            })
            &&& d[5].0 == Model::Text("outbound_ticket"@)
            &&& d[5].1 == (match m.outbound_ticket {
                Some(b) => byte_array(b@),
                None => Model::Nil,
            })
            &&& d[6].0 == Model::Text("stamp_value"@)
            &&& d[6].1 == (match m.stamp_value {
                Some(n) => Model::Integer(n as int),
                None => Model::Nil,
            })
            &&& d[7].0 == Model::Text("representation"@)
            &&& d[7].1 == Model::Integer(representation_byte(m.representation) as int)
            &&& d[8] == (Model::Text("auto_compress"@), Model::Boolean(m.auto_compress))
        }),
{
}

/// A message comes out of its envelope with everything that the outbound queue needs to know of
/// it: each of these is what it was when the message went in.
pub proof fn envelopes_give_back_their_message(m: MessageModel)
    ensures
        ({
            let e = envelope_of(m);
            let r = restored(e);
            &&& r.propagation_stamp == m.propagation_stamp
            &&& r.ratchet_id == m.ratchet_id
            &&& r.stamp_cost == m.stamp_cost
            &&& r.outbound_ticket == m.outbound_ticket
            &&& r.stamp_value == m.stamp_value
            &&& r.representation == m.representation
            &&& r.auto_compress == m.auto_compress
            &&& e.container == encoding(container_element(m))
            &&& is_restorable(e) <==> is_container(encoding(container_element(m)))
        }),
        envelope_from(record_fields(envelope_names(), envelope_element(m))->0) == Some(
            envelope_of(m),
        ),
{
    lemma_envelope_element(m);
    stored_bytes_read_back(m.state, m.method, m.representation);
    if let Some(b) = m.propagation_stamp {
        lemma_fixed(b);
    }
    if let Some(b) = m.ratchet_id {
        lemma_fixed(b);
    }
    if let Some(b) = m.outbound_ticket {
        lemma_fixed(b);
    }
}

/// What is read in an envelope is a message where the version is the first, the container holds
/// one, what is there of stamp, ratchet and ticket has its length, and the representation is
/// known; the message is then the one in the container.
pub proof fn envelopes_hold_the_message_of_their_container(e: EnvelopeModel)
    ensures
        is_restorable(e) <==> {
            &&& e.version == 1
            &&& container_in(e.container) is Some
            &&& is_packed(container_in(e.container)->0.bytes)
            &&& (e.propagation_stamp is None || e.propagation_stamp->0.len() == 32)
            &&& (e.ratchet_id is None || e.ratchet_id->0.len() == 32)
            &&& (e.outbound_ticket is None || e.outbound_ticket->0.len() == 16)
            &&& (e.representation == 0 || e.representation == 1 || e.representation == 2
                || e.representation == 5)
        },
        ({
            let r = restored(e);
            r == (MessageModel {
                propagation_stamp: r.propagation_stamp,
                ratchet_id: r.ratchet_id,
                stamp_cost: r.stamp_cost,
                outbound_ticket: r.outbound_ticket,
                stamp_value: r.stamp_value,
                representation: r.representation,
                auto_compress: e.auto_compress,
                ..contained(container_in(e.container)->0)
            })
        }),
{
}

/// A field that may be missing is read as missing where it is not there or nothing, and else as
/// what it holds, if that is of the right type.
pub proof fn missing_fields_are_read_as_missing(m: Model, limit: int)
    ensures
        optional_text(None) == Some(None::<Seq<char>>),
        optional_octets(None) == Some(None::<Seq<u8>>),
        optional_whole(None, limit) == Some(None::<int>),
        optional_text(Some(Model::Nil)) == Some(None::<Seq<char>>),
        optional_octets(Some(Model::Nil)) == Some(None::<Seq<u8>>),
        optional_whole(Some(Model::Nil), limit) == Some(None::<int>),
        !(m is Nil) ==> (optional_text(Some(m)) is Some <==> text(m) is Some) && (text(
            m,
        ) is Some ==> optional_text(Some(m)) == Some(text(m))),
        !(m is Nil) ==> (optional_octets(Some(m)) is Some <==> octets(m) is Some) && (octets(
            m,
        ) is Some ==> optional_octets(Some(m)) == Some(octets(m))),
        !(m is Nil) ==> (optional_whole(Some(m), limit) is Some <==> whole(m, limit) is Some) && (
        whole(m, limit) is Some ==> optional_whole(Some(m), limit) == Some(whole(m, limit))),
{
}

/// Bytes that are no container or no envelope fail as such; a container without a message in it,
/// also one in an envelope, fails for what is wrong with the message.
pub proof fn broken_storage_is_refused_for_a_reason(data: Seq<u8>, e: MessageError)
    ensures
        container_in(data) is None ==> !is_container(data) && (is_container_error(data, e) <==> e
            is UnpackFailed),
        container_in(data) matches Some(c) ==> (is_container(data) <==> is_packed(c.bytes)) && (
        is_container_error(data, e) <==> is_unpack_error(c.bytes, e)),
        envelope_in(data) is None ==> (is_restore_error(data, e) <==> e is UnpackFailed),
        envelope_in(data) matches Some(v) ==> {
            &&& v.version == 1 && !is_container(v.container) ==> (is_restore_error(data, e)
                <==> is_container_error(v.container, e))
            &&& v.version != 1 || is_container(v.container) ==> (is_restore_error(data, e) <==> e
                is UnpackFailed)
        },
{
}

/// An envelope is read where its fields hold what they should: bytes for version, stamp cost and
/// representation, two of them for the worth of a stamp, byte strings or nothing for the rest.
pub proof fn envelopes_are_read(f: Seq<Option<Model>>)
    requires
        f.len() == 9,
    ensures
        envelope_from(f) matches Some(v) ==> {
            &&& f[0] is Some && Some(v.version) == whole(f[0]->0, 255)
            &&& f[1] is Some && Some(v.container) == raw_octets(f[1]->0)
            &&& Some(v.propagation_stamp) == optional_octets(f[2])
            &&& Some(v.ratchet_id) == optional_octets(f[3])
            &&& Some(v.stamp_cost) == optional_whole(f[4], 255)
            &&& Some(v.outbound_ticket) == optional_octets(f[5])
            &&& Some(v.stamp_value) == optional_whole(f[6], 65535)
            &&& f[7] is Some && Some(v.representation) == whole(f[7]->0, 255)
            &&& f[8] is Some && Some(v.auto_compress) == truth(f[8]->0)
        },
        f[0] is Some && f[1] is Some && f[7] is Some && f[8] is Some && whole(f[0]->0, 255) is Some
            && raw_octets(f[1]->0) is Some && optional_octets(f[2]) is Some && optional_octets(
            f[3],
        ) is Some && optional_whole(f[4], 255) is Some && optional_octets(f[5]) is Some
            && optional_whole(f[6], 65535) is Some && whole(f[7]->0, 255) is Some && truth(
            f[8]->0,
        ) is Some ==> envelope_from(f) is Some,
{
}

} // verus!
