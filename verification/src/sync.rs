//! Synchronisation between propagation nodes: one side offers the identifiers of what it
//! holds, the other asks for what it lacks.

use vstd::prelude::*;

use crate::bytes::{contents, copy_list, copy_slice, fixed, lemma_fixed, to_fixed, to_vec};
use crate::constants::{peer_error_code, PeerError};
use crate::msgpack::{decode, lemma_view, models, parsed, raw_bytes, Datum, Model};
use crate::propagated::{entry_list, read_entries};
use crate::propagation::PropagationStore;
use crate::record::{named_fields, octets, read_octets, read_record, slots, texts};
use crate::types::PropagationTransientId;

verus! {

pub const SYNC_MSG_OFFER: u16 = 0x0001;

pub const SYNC_MSG_GET: u16 = 0x0002;

/// The greatest length that a list or a byte string in a message has.
pub const MAX_LIST: usize = 0xffff_ffff;

/// Why a message could not be read.
#[derive(Debug, Clone, Copy, PartialEq, Eq, Structural)]
pub enum ChannelMessageError {
    UnpackFailed,
}

// ---------------------------------------------------------------------------
// The messages on the wire.
// ---------------------------------------------------------------------------

/// The bytes that `rmp_serde::to_vec` writes for a byte string and a list of byte
/// strings.
pub uninterp spec fn offer_written(key: Seq<u8>, ids: Seq<Seq<u8>>) -> Seq<u8>;

/// The byte string and the list of byte strings that `rmp_serde::from_slice` reads;
/// nothing where it reports an error.
pub uninterp spec fn offer_read(raw: Seq<u8>) -> Option<(Seq<u8>, Seq<Seq<u8>>)>;

/// The bytes that `rmp_serde::to_vec` writes for a list of byte strings.
pub uninterp spec fn get_written(ids: Seq<Seq<u8>>) -> Seq<u8>;

/// The list of byte strings that `rmp_serde::from_slice` reads; nothing where it reports
/// an error.
pub uninterp spec fn get_read(raw: Seq<u8>) -> Option<Seq<Seq<u8>>>;

/// Whether a list of byte strings and each of its elements have lengths that the wire
/// format can carry.
pub open spec fn is_sendable(ids: Seq<Seq<u8>>) -> bool {
    &&& ids.len() <= MAX_LIST
    &&& forall|i: int| 0 <= i < ids.len() ==> (#[trigger] ids[i]).len() <= MAX_LIST
}

/// `rmp_serde::to_vec` on a pair of a byte string and a list of byte strings.  It is
/// taken to write, as long as there is memory, the same bytes for the same values, and
/// such bytes as `rmp_serde::from_slice` reads back, where the lengths fit in 32 bits.
#[verifier::external_body]
fn outside_write_offer(key: &Vec<u8>, ids: &Vec<Vec<u8>>) -> (raw: Vec<u8>)
    ensures
        raw@ == offer_written(key@, contents(ids@)),
        key@.len() <= MAX_LIST && is_sendable(contents(ids@)) ==> offer_read(raw@) == Some(
            (key@, contents(ids@)),
        ),
{
    rmp_serde::to_vec(&(key, ids)).unwrap_or_default()
}

/// `rmp_serde::from_slice` into a pair of a byte string and a list of byte strings.
#[verifier::external_body]
fn outside_read_offer(raw: &[u8]) -> (r: Option<(Vec<u8>, Vec<Vec<u8>>)>)
    ensures
        r is Some <==> offer_read(raw@) is Some,
        r matches Some((key, ids)) ==> offer_read(raw@) == Some((key@, contents(ids@))),
{
    rmp_serde::from_slice::<(Vec<u8>, Vec<Vec<u8>>)>(raw).ok()
}

/// `rmp_serde::to_vec` on a list of byte strings in a tuple of one.  It is taken to
/// write, as long as there is memory, the same bytes for the same list, and such bytes
/// as `rmp_serde::from_slice` reads back, where the lengths fit in 32 bits.
#[verifier::external_body]
fn outside_write_get(ids: &Vec<Vec<u8>>) -> (raw: Vec<u8>)
    ensures
        raw@ == get_written(contents(ids@)),
        is_sendable(contents(ids@)) ==> get_read(raw@) == Some(contents(ids@)),
{
    rmp_serde::to_vec(&(ids,)).unwrap_or_default()
}

/// `rmp_serde::from_slice` into a tuple of one list of byte strings.
#[verifier::external_body]
fn outside_read_get(raw: &[u8]) -> (r: Option<Vec<Vec<u8>>>)
    ensures
        r is Some <==> get_read(raw@) is Some,
        r matches Some(ids) ==> get_read(raw@) == Some(contents(ids@)),
{
    rmp_serde::from_slice::<(Vec<Vec<u8>>,)>(raw).ok().map(|t| t.0)
}

/// The names of the fields of an offer.
pub open spec fn offer_names() -> Seq<Seq<char>> {
    seq!["peering_key"@, "transient_ids"@]
}

/// The names of the fields of a request.
pub open spec fn get_names() -> Seq<Seq<char>> {
    seq!["wanted_ids"@]
}

/// The offer in a dictionary that names its fields.
pub open spec fn named_offer(raw: Seq<u8>) -> Option<(Seq<u8>, Seq<Seq<u8>>)> {
    match parsed(raw) {
        Some((Model::Dictionary(d), _)) => match named_fields(offer_names(), d) {
            Some(f) => match (f[0], f[1]) {
                (Some(key), Some(ids)) => match (octets(key), entry_list(ids)) {
                    (Some(k), Some(list)) => Some((k, list)),
                    _ => None,
                },
                _ => None,
            },
            None => None,
        },
        _ => None,
    }
}

/// The request in a dictionary that names its field.
pub open spec fn named_get(raw: Seq<u8>) -> Option<Seq<Seq<u8>>> {
    match parsed(raw) {
        Some((Model::Dictionary(d), _)) => match named_fields(get_names(), d) {
            Some(f) => match f[0] {
                Some(ids) => entry_list(ids),
                None => None,
            },
            None => None,
        },
        _ => None,
    }
}

/// The offer in some bytes: its fields in order, or under their names.
pub open spec fn offer_in(raw: Seq<u8>) -> Option<(Seq<u8>, Seq<Seq<u8>>)> {
    match offer_read(raw) {
        Some(offer) => Some(offer),
        None => named_offer(raw),
    }
}

/// The request in some bytes: its field in its place, or under its name.
pub open spec fn get_in(raw: Seq<u8>) -> Option<Seq<Seq<u8>>> {
    match get_read(raw) {
        Some(ids) => Some(ids),
        None => named_get(raw),
    }
}

/// The offer in a dictionary that names its fields.
fn read_named_offer(raw: &[u8]) -> (r: Option<(Vec<u8>, Vec<Vec<u8>>)>)
    ensures
        r is Some <==> named_offer(raw@) is Some,
        r matches Some((key, ids)) ==> named_offer(raw@) == Some((key@, contents(ids@))),
{
    let value = match decode(raw) {
        Some((v, _)) => v,
        None => {
            return None;
        },
    };
    proof {
        lemma_view(&value);
    }
    if !matches!(value, Datum::Dictionary(_)) {
        return None;
    }
    let mut names: Vec<&'static str> = Vec::new();
    names.push("peering_key");
    names.push("transient_ids");
    proof {
        reveal_strlit("peering_key");
        reveal_strlit("transient_ids");
        assert(texts(names@) =~= offer_names());
        assert(offer_names()[0].len() != offer_names()[1].len());
    }
    let f = match read_record(&names, &value) {
        Some(f) => f,
        None => {
            return None;
        },
    };
    let ghost s = slots(f@);
    match (f[0], f[1]) {
        (Some(key), Some(ids)) => {
            assert(s[0] == Some(key@) && s[1] == Some(ids@));
            match (read_octets(key), read_entries(ids)) {
                (Some(k), Some(list)) => Some((k, list)),
                _ => None,
            }
        },
        _ => {
            assert(s[0] is None || s[1] is None);
            None
        },
    }
}

/// The request in a dictionary that names its field.
fn read_named_get(raw: &[u8]) -> (r: Option<Vec<Vec<u8>>>)
    ensures
        r is Some <==> named_get(raw@) is Some,
        r matches Some(ids) ==> named_get(raw@) == Some(contents(ids@)),
{
    let value = match decode(raw) {
        Some((v, _)) => v,
        None => {
            return None;
        },
    };
    proof {
        lemma_view(&value);
    }
    if !matches!(value, Datum::Dictionary(_)) {
        return None;
    }
    let mut names: Vec<&'static str> = Vec::new();
    names.push("wanted_ids");
    assert(texts(names@) =~= get_names());
    let f = match read_record(&names, &value) {
        Some(f) => f,
        None => {
            return None;
        },
    };
    let ghost s = slots(f@);
    match f[0] {
        Some(ids) => {
            assert(s[0] == Some(ids@));
            read_entries(ids)
        },
        None => {
            assert(s[0] is None);
            None
        },
    }
}

/// What an offer says.
#[verifier::ext_equal]
pub ghost struct OfferContent {
    pub peering_key: Seq<u8>,
    pub transient_ids: Seq<Seq<u8>>,
}

/// "I hold these messages": the key that admits the sender, and identifiers.
#[derive(Debug)]
pub struct SyncOffer {
    pub peering_key: Vec<u8>,
    pub transient_ids: Vec<Vec<u8>>,
}

impl View for SyncOffer {
    type V = OfferContent;

    open spec fn view(&self) -> OfferContent {
        OfferContent {
            peering_key: self.peering_key@,
            transient_ids: contents(self.transient_ids@),
        }
    }
}

impl SyncOffer {
    pub fn new() -> (o: Self)
        ensures
            o.peering_key@.len() == 0,
            o.transient_ids@.len() == 0,
    {
        SyncOffer { peering_key: Vec::new(), transient_ids: Vec::new() }
    }

    /// The type of this message.
    pub fn msg_type(&self) -> (t: u16)
        ensures
            t == SYNC_MSG_OFFER,
    {
        SYNC_MSG_OFFER
    }

    /// The bytes of this message.
    pub fn pack(&self) -> (raw: Vec<u8>)
        ensures
            raw@ == offer_written(self@.peering_key, self@.transient_ids),
            self@.peering_key.len() <= MAX_LIST && is_sendable(self@.transient_ids)
                ==> offer_in(raw@) == Some((self@.peering_key, self@.transient_ids)),
    {
        outside_write_offer(&self.peering_key, &self.transient_ids)
    }

    /// Takes over what `raw` says, in order or under names; leaves this message as it is
    /// where `raw` cannot be read.
    pub fn unpack(&mut self, raw: &[u8]) -> (r: Result<(), ChannelMessageError>)
        ensures
            r is Ok <==> offer_in(raw@) is Some,
            r is Ok ==> offer_in(raw@) == Some(
                (final(self)@.peering_key, final(self)@.transient_ids),
            ),
            r is Err ==> *final(self) == *old(self),
    {
        let found = match outside_read_offer(raw) {
            Some(offer) => Some(offer),
            None => read_named_offer(raw),
        };
        match found {
            Some((key, ids)) => {
                self.peering_key = key;
                self.transient_ids = ids;
                Ok(())
            },
            None => Err(ChannelMessageError::UnpackFailed),
        }
    }
}

impl Default for SyncOffer {
    fn default() -> (o: Self)
        ensures
            o.peering_key@.len() == 0,
            o.transient_ids@.len() == 0,
    {
        SyncOffer::new()
    }
}

impl Clone for SyncOffer {
    fn clone(&self) -> (o: Self)
        ensures
            o@ == self@,
    {
        SyncOffer {
            peering_key: copy_slice(self.peering_key.as_slice()),
            transient_ids: copy_list(&self.transient_ids),
        }
    }
}

/// "Send me these messages".
#[derive(Debug)]
pub struct SyncGet {
    pub wanted_ids: Vec<Vec<u8>>,
}

impl View for SyncGet {
    type V = Seq<Seq<u8>>;

    open spec fn view(&self) -> Seq<Seq<u8>> {
        contents(self.wanted_ids@)
    }
}

impl SyncGet {
    pub fn new() -> (g: Self)
        ensures
            g.wanted_ids@.len() == 0,
    {
        SyncGet { wanted_ids: Vec::new() }
    }

    /// The type of this message.
    pub fn msg_type(&self) -> (t: u16)
        ensures
            t == SYNC_MSG_GET,
    {
        SYNC_MSG_GET
    }

    /// The bytes of this message.
    pub fn pack(&self) -> (raw: Vec<u8>)
        ensures
            raw@ == get_written(self@),
            is_sendable(self@) ==> get_in(raw@) == Some(self@),
    {
        outside_write_get(&self.wanted_ids)
    }

    /// Takes over what `raw` says, in its place or under its name; leaves this message as it
    /// is where `raw` cannot be read.
    pub fn unpack(&mut self, raw: &[u8]) -> (r: Result<(), ChannelMessageError>)
        ensures
            r is Ok <==> get_in(raw@) is Some,
            r is Ok ==> get_in(raw@) == Some(final(self)@),
            r is Err ==> *final(self) == *old(self),
    {
        let found = match outside_read_get(raw) {
            Some(ids) => Some(ids),
            None => read_named_get(raw),
        };
        match found {
            Some(ids) => {
                self.wanted_ids = ids;
                Ok(())
            },
            None => Err(ChannelMessageError::UnpackFailed),
        }
    }
}

impl Default for SyncGet {
    fn default() -> (g: Self)
        ensures
            g.wanted_ids@.len() == 0,
    {
        SyncGet::new()
    }
}

impl Clone for SyncGet {
    fn clone(&self) -> (g: Self)
        ensures
            g@ == self@,
    {
        SyncGet { wanted_ids: copy_list(&self.wanted_ids) }
    }
}

// ---------------------------------------------------------------------------
// The answer to an offer.
// ---------------------------------------------------------------------------

/// What the answer to an offer says.
#[verifier::ext_equal]
pub ghost enum Answer {
    WantAll,
    HaveAll,
    WantSome(Seq<Seq<u8>>),
    Refused(PeerError),
    Unknown,
}

/// The answer to an offer.
#[derive(Debug, PartialEq, Eq)]
pub enum OfferResponse {
    WantAll,
    HaveAll,
    WantSome(Vec<Vec<u8>>),
    ErrorNoIdentity,
    ErrorNoAccess,
    ErrorInvalidKey,
    ErrorThrottled,
    ErrorInvalidData,
    ErrorInvalidStamp,
    Unknown,
}

impl View for OfferResponse {
    type V = Answer;

    open spec fn view(&self) -> Answer {
        match self {
            OfferResponse::WantAll => Answer::WantAll,
            OfferResponse::HaveAll => Answer::HaveAll,
            OfferResponse::WantSome(ids) => Answer::WantSome(contents(ids@)),
            OfferResponse::ErrorNoIdentity => Answer::Refused(PeerError::NoIdentity),
            OfferResponse::ErrorNoAccess => Answer::Refused(PeerError::NoAccess),
            OfferResponse::ErrorInvalidKey => Answer::Refused(PeerError::InvalidKey),
            OfferResponse::ErrorThrottled => Answer::Refused(PeerError::Throttled),
            OfferResponse::ErrorInvalidData => Answer::Refused(PeerError::InvalidData),
            OfferResponse::ErrorInvalidStamp => Answer::Refused(PeerError::InvalidStamp),
            OfferResponse::Unknown => Answer::Unknown,
        }
    }
}

/// The byte strings among some elements, in order.
pub open spec fn byte_items(s: Seq<Model>) -> Seq<Seq<u8>>
    decreases s.len(),
{
    if s.len() == 0 {
        Seq::empty()
    } else {
        match raw_bytes(s.last()) {
            Some(b) => byte_items(s.drop_last()).push(b),
            None => byte_items(s.drop_last()),
        }
    }
}

/// The refusal with a code, of which only the low eight bits count.
pub open spec fn refusal(code: int) -> Answer {
    let low = code % 256;
    if low == peer_error_code(PeerError::NoIdentity) {
        Answer::Refused(PeerError::NoIdentity)
    } else if low == peer_error_code(PeerError::NoAccess) {
        Answer::Refused(PeerError::NoAccess)
    } else if low == peer_error_code(PeerError::InvalidKey) {
        Answer::Refused(PeerError::InvalidKey)
    } else if low == peer_error_code(PeerError::InvalidData) {
        Answer::Refused(PeerError::InvalidData)
    } else if low == peer_error_code(PeerError::InvalidStamp) {
        Answer::Refused(PeerError::InvalidStamp)
    } else if low == peer_error_code(PeerError::Throttled) {
        Answer::Refused(PeerError::Throttled)
    } else {
        Answer::Unknown
    }
}

/// The answer that a value stands for: a boolean for all or nothing, a list of
/// identifiers, or the code of a refusal.
pub open spec fn answer_of(m: Model) -> Answer {
    match m {
        Model::Boolean(b) => if b {
            Answer::WantAll
        } else {
            Answer::HaveAll
        },
        Model::Integer(n) => if n >= 0 {
            refusal(n)
        } else {
            Answer::Unknown
        },
        Model::Array(s) => if byte_items(s).len() > 0 {
            Answer::WantSome(byte_items(s))
        } else {
            Answer::HaveAll
        },
        _ => Answer::Unknown,
    }
}

/// The answer that some bytes stand for.
pub open spec fn answer_in(data: Seq<u8>) -> Answer {
    match parsed(data) {
        Some((m, rest)) => answer_of(m),
        None => Answer::Unknown,
    }
}

/// The byte strings among some elements.
pub fn collect_bytes(items: &Vec<Datum>) -> (list: Vec<Vec<u8>>)
    ensures
        contents(list@) == byte_items(models(items@)),
{
    let mut list: Vec<Vec<u8>> = Vec::new();
    let mut i: usize = 0;
    assert(contents(list@) =~= byte_items(models(items@).take(0)));
    while i < items.len()
        invariant
            i <= items@.len(),
            contents(list@) == byte_items(models(items@).take(i as int)),
        decreases items@.len() - i,
    {
        let ghost before = list@;
        proof {
            assert(models(items@).take(i + 1).drop_last() =~= models(items@).take(i as int));
        }
        match items[i].as_bytes() {
            Some(b) => {
                list.push(b);
                assert(contents(list@) =~= contents(before).push(b@));
            },
            None => {},
        }
        i = i + 1;
    }
    assert(models(items@).take(i as int) =~= models(items@));
    list
}

fn refusal_of(code: u64) -> (r: OfferResponse)
    ensures
        r@ == refusal(code as int),
{
    let low: u64 = code % 256;
    if low == 0xf0 {
        OfferResponse::ErrorNoIdentity
    } else if low == 0xf1 {
        OfferResponse::ErrorNoAccess
    } else if low == 0xf3 {
        OfferResponse::ErrorInvalidKey
    } else if low == 0xf4 {
        OfferResponse::ErrorInvalidData
    } else if low == 0xf5 {
        OfferResponse::ErrorInvalidStamp
    } else if low == 0xf6 {
        OfferResponse::ErrorThrottled
    } else {
        OfferResponse::Unknown
    }
}

impl OfferResponse {
    /// The answer that some bytes stand for.
    pub fn from_msgpack(data: &[u8]) -> (r: Self)
        ensures
            r@ == answer_in(data@),
    {
        match decode(data) {
            Some((value, _)) => OfferResponse::from_value(&value),
            None => OfferResponse::Unknown,
        }
    }

    /// The answer that a value stands for.
    pub fn from_value(value: &Datum) -> (r: Self)
        ensures
            r@ == answer_of(value@),
    {
        proof {
            lemma_view(value);
        }
        match value {
            Datum::Boolean(b) => if *b {
                OfferResponse::WantAll
            } else {
                OfferResponse::HaveAll
            },
            Datum::Unsigned(n) => refusal_of(*n),
            Datum::Negative(n) => if *n >= 0 {
                refusal_of(*n as u64)
            } else {
                OfferResponse::Unknown
            },
            Datum::Array(items) => {
                let ids = collect_bytes(items);
                assert(contents(ids@).len() == ids@.len());
                if ids.len() > 0 {
                    OfferResponse::WantSome(ids)
                } else {
                    OfferResponse::HaveAll
                }
            },
            _ => OfferResponse::Unknown,
        }
    }

    pub fn is_error(&self) -> (b: bool)
        ensures
            b == (self@ is Refused),
    {
        match self {
            OfferResponse::ErrorNoIdentity
            | OfferResponse::ErrorNoAccess
            | OfferResponse::ErrorInvalidKey
            | OfferResponse::ErrorThrottled
            | OfferResponse::ErrorInvalidData
            | OfferResponse::ErrorInvalidStamp => true,
            _ => false,
        }
    }

    pub fn as_peer_error(&self) -> (r: Option<PeerError>)
        ensures
            r == (match self@ {
                Answer::Refused(e) => Some(e),
                _ => None,
            }),
    {
        match self {
            OfferResponse::ErrorNoIdentity => Some(PeerError::NoIdentity),
            OfferResponse::ErrorNoAccess => Some(PeerError::NoAccess),
            OfferResponse::ErrorInvalidKey => Some(PeerError::InvalidKey),
            OfferResponse::ErrorThrottled => Some(PeerError::Throttled),
            OfferResponse::ErrorInvalidData => Some(PeerError::InvalidData),
            OfferResponse::ErrorInvalidStamp => Some(PeerError::InvalidStamp),
            _ => None,
        }
    }
}

impl Clone for OfferResponse {
    fn clone(&self) -> (r: Self)
        ensures
            r@ == self@,
    {
        match self {
            OfferResponse::WantAll => OfferResponse::WantAll,
            OfferResponse::HaveAll => OfferResponse::HaveAll,
            OfferResponse::WantSome(ids) => OfferResponse::WantSome(copy_list(ids)),
            OfferResponse::ErrorNoIdentity => OfferResponse::ErrorNoIdentity,
            OfferResponse::ErrorNoAccess => OfferResponse::ErrorNoAccess,
            OfferResponse::ErrorInvalidKey => OfferResponse::ErrorInvalidKey,
            OfferResponse::ErrorThrottled => OfferResponse::ErrorThrottled,
            OfferResponse::ErrorInvalidData => OfferResponse::ErrorInvalidData,
            OfferResponse::ErrorInvalidStamp => OfferResponse::ErrorInvalidStamp,
            OfferResponse::Unknown => OfferResponse::Unknown,
        }
    }
}

// ---------------------------------------------------------------------------
// A session with one peer.
// ---------------------------------------------------------------------------

#[derive(Debug, Clone, Copy, PartialEq, Eq, Structural)]
pub enum SyncState {
    Idle,
    OfferSent,
    Receiving,
    Sending,
    Complete,
    Failed,
}

/// What a session knows.
#[verifier::ext_equal]
pub ghost struct SessionModel {
    pub peer_hash: [u8; 16],
    pub state: SyncState,
    pub offered_ids: Seq<PropagationTransientId>,
    pub wanted_ids: Seq<PropagationTransientId>,
    pub transferred: usize,
    pub last_activity: i64,
}

/// An exchange with one peer.
#[derive(Debug)]
pub struct SyncSession {
    pub peer_hash: [u8; 16],
    pub state: SyncState,
    pub offered_ids: Vec<PropagationTransientId>,
    pub wanted_ids: Vec<PropagationTransientId>,
    pub transferred: usize,
    /// When the session last did something, in microseconds.
    pub last_activity: i64,
}

impl View for SyncSession {
    type V = SessionModel;

    open spec fn view(&self) -> SessionModel {
        SessionModel {
            peer_hash: self.peer_hash,
            state: self.state,
            offered_ids: self.offered_ids@,
            wanted_ids: self.wanted_ids@,
            transferred: self.transferred,
            last_activity: self.last_activity,
        }
    }
}

/// The bytes of some identifiers.
pub open spec fn id_bytes(ids: Seq<PropagationTransientId>) -> Seq<Seq<u8>> {
    Seq::new(ids.len(), |i: int| ids[i]@)
}

/// Whether some bytes are an identifier.
pub open spec fn is_id(b: Seq<u8>) -> bool {
    b.len() == 32
}

/// Whether some bytes are one of the keys of a map.
pub open spec fn holds<V>(m: Map<[u8; 32], V>, b: Seq<u8>) -> bool {
    exists|k: [u8; 32]| k@ == b && #[trigger] m.contains_key(k)
}

/// The offered identifiers that a store lacks, in order; what is no identifier is
/// passed over.
pub open spec fn lacking<V>(offered: Seq<Seq<u8>>, m: Map<[u8; 32], V>) -> Seq<Seq<u8>> {
    offered.filter(|b: Seq<u8>| is_id(b) && !holds(m, b))
}

/// The identifiers among some byte strings, in order.
pub open spec fn proper_ids(list: Seq<Seq<u8>>) -> Seq<PropagationTransientId>
    decreases list.len(),
{
    if list.len() == 0 {
        Seq::empty()
    } else if is_id(list.last()) {
        proper_ids(list.drop_last()).push(fixed::<32>(list.last()))
    } else {
        proper_ids(list.drop_last())
    }
}

/// Whether `answers` are what `contains` says of the identifiers among `offered`.
pub open spec fn answered<F: Fn(&PropagationTransientId) -> bool>(
    contains: F,
    offered: Seq<Seq<u8>>,
    answers: Seq<bool>,
) -> bool {
    &&& answers.len() == offered.len()
    &&& forall|i: int|
        0 <= i < offered.len() && is_id(#[trigger] offered[i]) ==> call_ensures(
            contains,
            (&fixed::<32>(offered[i]),),
            answers[i],
        )
}

/// The offered identifiers that are answered with no, in order.
pub open spec fn declined(offered: Seq<Seq<u8>>, answers: Seq<bool>) -> Seq<Seq<u8>>
    decreases offered.len(),
{
    if offered.len() == 0 {
        Seq::empty()
    } else if is_id(offered.last()) && !answers[offered.len() - 1] {
        declined(offered.drop_last(), answers).push(offered.last())
    } else {
        declined(offered.drop_last(), answers)
    }
}

/// What is declined depends only on the answers to what was offered.
proof fn lemma_declined(offered: Seq<Seq<u8>>, a: Seq<bool>, b: Seq<bool>)
    requires
        forall|i: int| 0 <= i < offered.len() ==> a[i] == #[trigger] b[i],
    ensures
        declined(offered, a) == declined(offered, b),
    decreases offered.len(),
{
    if offered.len() > 0 {
        assert(a[offered.len() - 1] == b[offered.len() - 1]);
        lemma_declined(offered.drop_last(), a, b);
    }
}

/// Where the answers are those of a store, what is declined is what it lacks.
proof fn lemma_declined_lacking<V>(
    offered: Seq<Seq<u8>>,
    answers: Seq<bool>,
    m: Map<[u8; 32], V>,
)
    requires
        forall|i: int|
            0 <= i < offered.len() && is_id(offered[i]) ==> #[trigger] answers[i] == holds(
                m,
                offered[i],
            ),
    ensures
        declined(offered, answers) == lacking(offered, m),
    decreases offered.len(),
{
    reveal(Seq::filter);
    if offered.len() > 0 {
        let last = offered.len() - 1;
        assert(is_id(offered[last]) ==> answers[last] == holds(m, offered[last]));
        lemma_declined_lacking(offered.drop_last(), answers, m);
    }
}

impl SyncSession {
    pub fn new(peer_hash: [u8; 16], now: i64) -> (s: Self)
        ensures
            s@ == (SessionModel {
                peer_hash,
                state: SyncState::Idle,
                offered_ids: Seq::empty(),
                wanted_ids: Seq::empty(),
                transferred: 0,
                last_activity: now,
            }),
    {
        let s = SyncSession {
            peer_hash,
            state: SyncState::Idle,
            offered_ids: Vec::new(),
            wanted_ids: Vec::new(),
            transferred: 0,
            last_activity: now,
        };
        assert(s@.offered_ids =~= Seq::empty());
        assert(s@.wanted_ids =~= Seq::empty());
        s
    }

    /// Whether the session has done nothing for longer than `max_idle` microseconds.
    pub fn idle_for(&self, max_idle: i64, now: i64) -> (b: bool)
        ensures
            b == (now - self@.last_activity > max_idle),
    {
        now as i128 - self.last_activity as i128 > max_idle as i128
    }

    /// Offers `our_ids` to the peer.
    pub fn prepare_offer(
        &mut self,
        our_ids: Vec<PropagationTransientId>,
        peering_key: Vec<u8>,
        now: i64,
    ) -> (offer: SyncOffer)
        ensures
            final(self)@ == (SessionModel {
                offered_ids: our_ids@,
                state: SyncState::OfferSent,
                last_activity: now,
                ..old(self)@
            }),
            offer@ == (OfferContent {
                peering_key: peering_key@,
                transient_ids: id_bytes(our_ids@),
            }),
    {
        let mut transient_ids: Vec<Vec<u8>> = Vec::new();
        let mut i: usize = 0;
        while i < our_ids.len()
            invariant
                i <= our_ids@.len(),
                transient_ids@.len() == i,
                forall|j: int| 0 <= j < i ==> (#[trigger] transient_ids@[j])@ == our_ids@[j]@,
            decreases our_ids@.len() - i,
        {
            transient_ids.push(to_vec(&our_ids[i]));
            i = i + 1;
        }
        assert(contents(transient_ids@) =~= id_bytes(our_ids@));
        self.offered_ids = our_ids;
        self.state = SyncState::OfferSent;
        self.last_activity = now;
        SyncOffer { peering_key, transient_ids }
    }

    /// Asks for what an offer lists and `our_store` lacks.
    pub fn process_offer(
        &mut self,
        offer: &SyncOffer,
        our_store: &PropagationStore,
        now: i64,
    ) -> (get: SyncGet)
        ensures
            get@ == lacking(offer@.transient_ids, our_store@),
            final(self)@ == (SessionModel {
                state: SyncState::Receiving,
                last_activity: now,
                ..old(self)@
            }),
    {
        let contains = |id: &PropagationTransientId| -> (b: bool)
            ensures
                b == our_store@.contains_key(*id),
            { our_store.contains(id) };
        let get = self.process_offer_with(offer, contains, now);
        proof {
            let offered = offer@.transient_ids;
            let answers = choose|answers: Seq<bool>|
                #![trigger declined(offered, answers)]
                answered(contains, offered, answers) && get@ == declined(offered, answers);
            assert forall|i: int| 0 <= i < offered.len() && is_id(offered[i]) implies (
            #[trigger] answers[i]) == holds(our_store@, offered[i]) by {
                lemma_id_exists(offered[i]);
                let k = fixed::<32>(offered[i]);
                assert(call_ensures(contains, (&k,), answers[i]));
                if holds(our_store@, offered[i]) {
                    let q = choose|q: [u8; 32]|
                        q@ == offered[i] && #[trigger] our_store@.contains_key(q);
                    lemma_fixed(q);
                } else {
                    assert(!our_store@.contains_key(k));
                }
            }
            lemma_declined_lacking(offered, answers, our_store@);
        }
        get
    }

    /// Asks for what an offer lists and `contains` answers with no.
    pub fn process_offer_with<F>(&mut self, offer: &SyncOffer, contains: F, now: i64) -> (get:
        SyncGet) where F: Fn(&PropagationTransientId) -> bool
        requires
            forall|k: &PropagationTransientId| call_requires(contains, (k,)),
        ensures
            exists|answers: Seq<bool>|
                #![trigger declined(offer@.transient_ids, answers)]
                answered(contains, offer@.transient_ids, answers) && get@ == declined(
                    offer@.transient_ids,
                    answers,
                ),
            final(self)@ == (SessionModel {
                state: SyncState::Receiving,
                last_activity: now,
                ..old(self)@
            }),
    {
        let ghost offered = offer@.transient_ids;
        let ghost mut answers: Seq<bool> = Seq::empty();
        let mut wanted: Vec<Vec<u8>> = Vec::new();
        let mut i: usize = 0;
        assert(contents(wanted@) =~= declined(offered.take(0), answers));
        while i < offer.transient_ids.len()
            invariant
                i <= offer.transient_ids@.len(),
                offered == contents(offer.transient_ids@),
                forall|k: &PropagationTransientId| call_requires(contains, (k,)),
                answers.len() == i,
                forall|j: int|
                    0 <= j < i && is_id(#[trigger] offered[j]) ==> call_ensures(
                        contains,
                        (&fixed::<32>(offered[j]),),
                        answers[j],
                    ),
                contents(wanted@) == declined(offered.take(i as int), answers),
            decreases offer.transient_ids@.len() - i,
        {
            let ghost before = wanted@;
            let ghost earlier = answers;
            let id: Option<[u8; 32]> = to_fixed(offer.transient_ids[i].as_slice());
            let mut answer: bool = true;
            match id {
                Some(k) => {
                    proof {
                        lemma_fixed(k);
                    }
                    answer = contains(&k);
                    if !answer {
                        let copy = copy_slice(offer.transient_ids[i].as_slice());
                        wanted.push(copy);
                        assert(contents(wanted@) =~= contents(before).push(copy@));
                    }
                },
                None => {},
            }
            proof {
                answers = answers.push(answer);
                assert(offered.take(i + 1).drop_last() =~= offered.take(i as int));
                lemma_declined(offered.take(i as int), earlier, answers);
                assert forall|j: int| 0 <= j < i + 1 && is_id(#[trigger] offered[j]) implies call_ensures(
                    contains,
                    (&fixed::<32>(offered[j]),),
                    answers[j],
                ) by {
                    if j < i {
                        assert(answers[j] == earlier[j]);
                    }
                }
            }
            i = i + 1;
        }
        proof {
            assert(offered.take(i as int) =~= offered);
            assert(answered(contains, offered, answers));
        }
        self.state = SyncState::Receiving;
        self.last_activity = now;
        SyncGet { wanted_ids: wanted }
    }

    /// Notes what the peer asked for.
    pub fn process_get(&mut self, get: &SyncGet, now: i64)
        ensures
            final(self)@ == (SessionModel {
                wanted_ids: proper_ids(get@),
                state: SyncState::Sending,
                last_activity: now,
                ..old(self)@
            }),
    {
        self.wanted_ids = collect_ids(&get.wanted_ids);
        self.state = SyncState::Sending;
        self.last_activity = now;
    }

    pub fn mark_complete(&mut self, now: i64)
        ensures
            final(self)@ == (SessionModel {
                state: SyncState::Complete,
                last_activity: now,
                ..old(self)@
            }),
    {
        self.state = SyncState::Complete;
        self.last_activity = now;
    }

    pub fn mark_failed(&mut self, now: i64)
        ensures
            final(self)@ == (SessionModel {
                state: SyncState::Failed,
                last_activity: now,
                ..old(self)@
            }),
    {
        self.state = SyncState::Failed;
        self.last_activity = now;
    }

    /// Counts one more message as transferred.
    pub fn record_transfer(&mut self, now: i64)
        requires
            old(self).transferred < usize::MAX,
        ensures
            final(self)@ == (SessionModel {
                transferred: (old(self)@.transferred + 1) as usize,
                last_activity: now,
                ..old(self)@
            }),
    {
        self.transferred = self.transferred + 1;
        self.last_activity = now;
    }

    pub fn is_finished(&self) -> (b: bool)
        ensures
            b == (self@.state == SyncState::Complete || self@.state == SyncState::Failed),
    {
        self.state == SyncState::Complete || self.state == SyncState::Failed
    }
}

/// Every byte string of the right length is an identifier's.
pub proof fn lemma_id_exists(b: Seq<u8>)
    requires
        is_id(b),
    ensures
        fixed::<32>(b)@ == b,
{
    let k: [u8; 32] = [
        b[0], b[1], b[2], b[3], b[4], b[5], b[6], b[7],
        b[8], b[9], b[10], b[11], b[12], b[13], b[14], b[15],
        b[16], b[17], b[18], b[19], b[20], b[21], b[22], b[23],
        b[24], b[25], b[26], b[27], b[28], b[29], b[30], b[31],
    ];
    assert(k@ =~= b);
    lemma_fixed(k);
}

/// The identifiers among some byte strings, in order.
pub fn collect_ids(list: &Vec<Vec<u8>>) -> (ids: Vec<PropagationTransientId>)
    ensures
        ids@ == proper_ids(contents(list@)),
{
    let ghost all = contents(list@);
    let mut ids: Vec<PropagationTransientId> = Vec::new();
    let mut i: usize = 0;
    assert(ids@ =~= proper_ids(all.take(0)));
    while i < list.len()
        invariant
            i <= list@.len(),
            all == contents(list@),
            ids@ == proper_ids(all.take(i as int)),
        decreases list@.len() - i,
    {
        proof {
            assert(all.take(i + 1).drop_last() =~= all.take(i as int));
        }
        let id: Option<[u8; 32]> = to_fixed(list[i].as_slice());
        match id {
            Some(k) => {
                proof {
                    lemma_fixed(k);
                }
                ids.push(k);
            },
            None => {},
        }
        i = i + 1;
    }
    assert(all.take(i as int) =~= all);
    ids
}

// ---------------------------------------------------------------------------
// What the exchange achieves.
// ---------------------------------------------------------------------------

/// What a node asks for when it is offered `ids`, its peer takes note of as exactly those
/// of `ids` that the node lacks, in the same order.
pub proof fn handshake_selects_what_is_missing<V>(
    ids: Seq<PropagationTransientId>,
    m: Map<[u8; 32], V>,
)
    ensures
        proper_ids(lacking(id_bytes(ids), m)) == ids.filter(
            |k: PropagationTransientId| !m.contains_key(k),
        ),
    decreases ids.len(),
{
    reveal(Seq::filter);
    let all = id_bytes(ids);
    let missing = |k: PropagationTransientId| !m.contains_key(k);
    if ids.len() > 0 {
        let last = ids.last();
        assert(all.last() == last@);
        assert(all.drop_last() =~= id_bytes(ids.drop_last()));
        handshake_selects_what_is_missing(ids.drop_last(), m);
        lemma_fixed(last);
        assert(holds(m, last@) == m.contains_key(last)) by {
            if holds(m, last@) {
                let q = choose|q: [u8; 32]| q@ == last@ && #[trigger] m.contains_key(q);
                lemma_fixed(q);
            }
        }
        let rest = lacking(all.drop_last(), m);
        if missing(last) {
            let more = rest.push(last@);
            assert(lacking(all, m) =~= more);
            assert(more.drop_last() =~= rest);
        } else {
            assert(lacking(all, m) =~= rest);
        }
    } else {
        assert(lacking(all, m) =~= Seq::empty());
    }
}

/// Nothing is asked for that was not offered, that is no identifier, or that is already
/// held.
pub proof fn requests_only_what_is_offered_and_missing<V>(
    offered: Seq<Seq<u8>>,
    m: Map<[u8; 32], V>,
    b: Seq<u8>,
)
    requires
        lacking(offered, m).contains(b),
    ensures
        offered.contains(b),
        is_id(b),
        !holds(m, b),
{
    let wanted = |b: Seq<u8>| is_id(b) && !holds(m, b);
    let i = choose|i: int| 0 <= i < lacking(offered, m).len() && lacking(offered, m)[i] == b;
    offered.lemma_filter_pred(wanted, i);
    offered.lemma_filter_contains_rev(wanted, b);
}

// ---------------------------------------------------------------------------
// What answers and lists come to.
// ---------------------------------------------------------------------------

/// Of a list, the elements that are byte strings are read, all of them and in order; the others
/// are passed over.
pub proof fn byte_strings_are_read_in_order(s: Seq<Model>)
    ensures
        byte_items(s) == s.filter(
            |m: Model| m is Binary || m is Text || m is MalformedText,
        ).map_values(|m: Model| raw_bytes(m)->0),
        forall|m: Model| #[trigger]
            raw_bytes(m) is Some <==> m is Binary || m is Text || m is MalformedText,
        forall|b: Seq<u8>| #[trigger] raw_bytes(Model::Binary(b)) == Some(b),
    decreases s.len(),
{
    reveal(Seq::filter);
    let read = |m: Model| raw_bytes(m)->0;
    let is_read = |m: Model| m is Binary || m is Text || m is MalformedText;
    if s.len() > 0 {
        byte_strings_are_read_in_order(s.drop_last());
        let front = s.drop_last().filter(is_read);
        if is_read(s.last()) {
            assert(s.filter(is_read) =~= front.push(s.last()));
            assert(s.filter(is_read).map_values(read) =~= front.map_values(read).push(
                read(s.last()),
            ));
        } else {
            assert(s.filter(is_read) =~= front);
        }
    } else {
        assert(s.filter(is_read).map_values(read) =~= Seq::empty());
    }
}

/// Of some byte strings, those of 32 bytes are identifiers, all of them and in order.
pub proof fn byte_strings_of_the_right_length_are_identifiers(list: Seq<Seq<u8>>)
    ensures
        id_bytes(proper_ids(list)) == list.filter(|b: Seq<u8>| b.len() == 32),
    decreases list.len(),
{
    reveal(Seq::filter);
    let right = |b: Seq<u8>| b.len() == 32;
    if list.len() > 0 {
        byte_strings_of_the_right_length_are_identifiers(list.drop_last());
        let front = list.drop_last().filter(right);
        if list.last().len() == 32 {
            lemma_id_exists(list.last());
            assert(list.filter(right) =~= front.push(list.last()));
            assert(id_bytes(proper_ids(list)) =~= id_bytes(proper_ids(list.drop_last())).push(
                list.last(),
            ));
        } else {
            assert(list.filter(right) =~= front);
        }
    } else {
        assert(id_bytes(proper_ids(list)) =~= list.filter(right));
    }
}

/// What is declined of an offer is the identifiers that were answered with no, all of them and
/// in order.
pub proof fn noes_are_declined(offered: Seq<Seq<u8>>, answers: Seq<bool>)
    requires
        answers.len() == offered.len(),
    ensures
        declined(offered, answers) == Seq::new(
            offered.len(),
            |i: int| (offered[i], answers[i]),
        ).filter(|p: (Seq<u8>, bool)| p.0.len() == 32 && !p.1).map_values(
            |p: (Seq<u8>, bool)| p.0,
        ),
    decreases offered.len(),
{
    reveal(Seq::filter);
    let pairs = Seq::new(offered.len(), |i: int| (offered[i], answers[i]));
    let no = |p: (Seq<u8>, bool)| p.0.len() == 32 && !p.1;
    let given = |p: (Seq<u8>, bool)| p.0;
    if offered.len() > 0 {
        let front = offered.drop_last();
        noes_are_declined(front, answers.drop_last());
        lemma_declined(front, answers, answers.drop_last());
        assert(pairs.drop_last() =~= Seq::new(
            front.len(),
            |i: int| (front[i], answers.drop_last()[i]),
        ));
        if no(pairs.last()) {
            assert(pairs.filter(no) =~= pairs.drop_last().filter(no).push(pairs.last()));
            assert(pairs.filter(no).map_values(given) =~= pairs.drop_last().filter(no).map_values(
                given,
            ).push(offered.last()));
        } else {
            assert(pairs.filter(no) =~= pairs.drop_last().filter(no));
        }
    } else {
        assert(pairs.filter(no).map_values(given) =~= Seq::empty());
    }
}

/// A code refuses an offer for the reason that it stands for, by its low eight bits; a code that
/// stands for none says nothing.
pub proof fn codes_refuse_offers(code: int)
    ensures
        refusal(code) is Refused || refusal(code) is Unknown,
        refusal(code) == Answer::Refused(PeerError::NoIdentity) <==> code % 256 == 240,
        refusal(code) == Answer::Refused(PeerError::NoAccess) <==> code % 256 == 241,
        refusal(code) == Answer::Refused(PeerError::InvalidKey) <==> code % 256 == 243,
        refusal(code) == Answer::Refused(PeerError::InvalidData) <==> code % 256 == 244,
        refusal(code) == Answer::Refused(PeerError::InvalidStamp) <==> code % 256 == 245,
        refusal(code) == Answer::Refused(PeerError::Throttled) <==> code % 256 == 246,
{
}

/// A peer wants all where it answers yes, has all where it answers no or names nothing, and
/// otherwise wants the byte strings that it lists; a number that is not negative is a code, and
/// whatever else says nothing.
pub proof fn answers_are_understood(m: Model)
    ensures
        answer_of(m) is WantAll <==> m == Model::Boolean(true),
        answer_of(m) is HaveAll <==> m == Model::Boolean(false) || (m is Array && forall|i: int|
            0 <= i < m->Array_0.len() ==> raw_bytes(#[trigger] m->Array_0[i]) is None),
        answer_of(m) is WantSome ==> m is Array && answer_of(m)->WantSome_0 == byte_items(
            m->Array_0,
        ),
        m matches Model::Array(s) ==> ((exists|i: int|
            0 <= i < s.len() && raw_bytes(#[trigger] s[i]) is Some) ==> answer_of(m) is WantSome),
        m matches Model::Integer(n) ==> (n >= 0 ==> answer_of(m) == refusal(n)) && (n < 0
            ==> answer_of(m) is Unknown),
        !(m is Boolean || m is Array || m is Integer) ==> answer_of(m) is Unknown,
{
    if let Model::Array(s) = m {
        lemma_byte_items_empty(s);
    }
}

/// A list without byte strings gives none.
proof fn lemma_byte_items_empty(s: Seq<Model>)
    ensures
        byte_items(s).len() == 0 <==> forall|i: int|
            0 <= i < s.len() ==> raw_bytes(#[trigger] s[i]) is None,
    decreases s.len(),
{
    if s.len() > 0 {
        let front = s.drop_last();
        lemma_byte_items_empty(front);
        if forall|i: int| 0 <= i < front.len() ==> raw_bytes(#[trigger] front[i]) is None {
            assert forall|i: int| 0 <= i < front.len() implies raw_bytes(
                #[trigger] s[i],
            ) is None by {
                assert(raw_bytes(front[i]) is None);
            }
        } else {
            let i = choose|i: int| 0 <= i < front.len() && raw_bytes(#[trigger] front[i]) is Some;
            assert(raw_bytes(s[i]) is Some);
        }
    }
}

/// An offer is read by the places of its fields, and by their names where that fails: the key
/// under its name and the identifiers under theirs.
pub proof fn offers_are_read_by_place_or_name(
    raw: Seq<u8>,
    d: Seq<(Model, Model)>,
    rest: Seq<u8>,
    m: Model,
)
    ensures
        offer_read(raw) is Some ==> offer_in(raw) == offer_read(raw),
        offer_read(raw) is None && parsed(raw) is None ==> offer_in(raw) is None,
        offer_read(raw) is None && parsed(raw) == Some((m, rest)) && !(m is Dictionary) ==> offer_in(
            raw,
        ) is None,
        offer_read(raw) is None && parsed(raw) == Some((Model::Dictionary(d), rest)) ==> {
            let f = named_fields(seq!["peering_key"@, "transient_ids"@], d);
            &&& offer_in(raw) is Some <==> {
                &&& f is Some
                &&& f->0[0] is Some && octets(f->0[0]->0) is Some
                &&& f->0[1] is Some && entry_list(f->0[1]->0) is Some
            }
            &&& offer_in(raw) matches Some((key, ids)) ==> Some(key) == octets(f->0[0]->0) && Some(
                ids,
            ) == entry_list(f->0[1]->0)
        },
        get_read(raw) is Some ==> get_in(raw) == get_read(raw),
        get_read(raw) is None && parsed(raw) is None ==> get_in(raw) is None,
        get_read(raw) is None && parsed(raw) == Some((m, rest)) && !(m is Dictionary) ==> get_in(
            raw,
        ) is None,
        get_read(raw) is None && parsed(raw) == Some((Model::Dictionary(d), rest)) ==> {
            let f = named_fields(seq!["wanted_ids"@], d);
            get_in(raw) == (if f is Some && f->0[0] is Some {
                entry_list(f->0[0]->0)
            } else {
                None
            })
        },
{
}

/// An answer is read from the first value in some bytes; bytes that hold none say nothing.
pub proof fn answers_are_read_from_bytes(data: Seq<u8>, m: Model, rest: Seq<u8>)
    ensures
        parsed(data) is None ==> answer_in(data) is Unknown,
        parsed(data) == Some((m, rest)) ==> answer_in(data) == answer_of(m),
{
}

} // verus!
