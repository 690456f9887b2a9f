//! Protocol constants and the small enumerations that go on the wire.

use vstd::prelude::*;

verus! {

/// Bytes of a destination or identity hash.
pub const DESTINATION_LENGTH: usize = 16;

/// Bytes of an Ed25519 signature.
pub const SIGNATURE_LENGTH: usize = 64;

/// Bytes of a delivery ticket, and of the stamp that is derived from one.
pub const TICKET_LENGTH: usize = 16;

/// Bytes of a proof-of-work stamp.
pub const STAMP_SIZE: usize = 32;

pub const TIMESTAMP_SIZE: usize = 8;

pub const STRUCT_OVERHEAD: usize = 8;

/// Two hashes, a signature, a timestamp and the structure around them.
pub const LXMF_OVERHEAD: usize = 112;

/// The largest message that fits on paper.
pub const PAPER_MDU: usize = 2210;

/// The largest content that a single encrypted packet carries.
pub const ENCRYPTED_PACKET_MAX_CONTENT: usize = 295;

/// The stamp value of a message that was admitted by a ticket.
pub const COST_TICKET: u16 = 0x100;

/// Ticket life times, in seconds.
pub const TICKET_EXPIRY: u64 = 1_814_400;

pub const TICKET_GRACE: u64 = 432_000;

pub const TICKET_RENEW: u64 = 1_209_600;

pub const STAMP_WORKBLOCK_EXPAND_ROUNDS: u32 = 3000;

pub const STAMP_WORKBLOCK_EXPAND_ROUNDS_PN: u32 = 1000;

pub const STAMP_WORKBLOCK_EXPAND_ROUNDS_PEERING: u32 = 25;

pub const MAX_DELIVERY_ATTEMPTS: u32 = 5;

/// Seconds between two delivery attempts.
pub const DELIVERY_RETRY_WAIT: u64 = 10;

/// Seconds to wait for the answer to a path request.
pub const PATH_REQUEST_WAIT: u64 = 7;

/// Seconds between two runs of the periodic jobs.
pub const PROCESSING_INTERVAL: u64 = 4;

/// Seconds after which an undelivered message is given up.
pub const MESSAGE_EXPIRY: u64 = 2_592_000;

/// Seconds for which an announced stamp cost is remembered.
pub const STAMP_COST_EXPIRY: u64 = 3_888_000;

pub const MAX_PEERS: usize = 20;

pub const AUTOPEER: bool = true;

pub const AUTOPEER_MAXDEPTH: usize = 4;

pub const ROTATION_HEADROOM_PCT: usize = 10;

/// A peer that accepted at least one in this many offered messages is not rotated
/// out.
pub const ROTATION_AR_MAX_INVERSE: u64 = 2;

pub const PEERING_COST: u8 = 18;

pub const MAX_PEERING_COST: u8 = 26;

pub const PROPAGATION_COST: u8 = 16;

pub const PROPAGATION_COST_MIN: u8 = 13;

pub const PROPAGATION_COST_FLEX: u8 = 3;

/// Kilobytes of one propagated message.
pub const PROPAGATION_LIMIT: usize = 256;

/// Kilobytes of one propagation sync.
pub const SYNC_LIMIT: usize = 10240;

/// Kilobytes of one delivery.
pub const DELIVERY_LIMIT: usize = 1000;

/// Seconds for which a peer that sent invalid stamps is refused.
pub const PN_STAMP_THROTTLE: u64 = 180;

/// Periodic job cadences, in runs.
pub const JOB_TRANSIENT_INTERVAL: u64 = 60;

pub const JOB_STORE_INTERVAL: u64 = 120;

pub const JOB_PEERSYNC_INTERVAL: u64 = 6;

pub const JOB_ROTATE_INTERVAL: u64 = 336;

pub const FIELD_FILE_ATTACHMENTS: u8 = 0x05;

pub const FIELD_IMAGE: u8 = 0x06;

pub const FIELD_AUDIO: u8 = 0x07;

/// Delivery progress is counted in millionths.
pub const PROGRESS_COMPLETE: u32 = 1_000_000;

/// Wall-clock instants are counted in microseconds since the Unix epoch.
pub const MICROS_PER_SECOND: i64 = 1_000_000;

/// Where a message stands between composition and its final outcome.
#[derive(Debug, Clone, Copy, PartialEq, Eq, Structural)]
pub enum MessageState {
    Generating,
    Outbound,
    Sending,
    Sent,
    Delivered,
    Rejected,
    Cancelled,
    Failed,
}

/// The byte that stands for a message state in storage.
pub open spec fn state_byte(state: MessageState) -> u8 {
    match state {
        MessageState::Generating => 0x00,
        MessageState::Outbound => 0x01,
        MessageState::Sending => 0x02,
        MessageState::Sent => 0x04,
        MessageState::Delivered => 0x08,
        MessageState::Rejected => 0xfd,
        MessageState::Cancelled => 0xfe,
        MessageState::Failed => 0xff,
    }
}

impl MessageState {
    /// The byte that stands for this state in storage.
    pub fn to_byte(self) -> (b: u8)
        ensures
            b == state_byte(self),
    {
        match self {
            MessageState::Generating => 0x00,
            MessageState::Outbound => 0x01,
            MessageState::Sending => 0x02,
            MessageState::Sent => 0x04,
            MessageState::Delivered => 0x08,
            MessageState::Rejected => 0xfd,
            MessageState::Cancelled => 0xfe,
            MessageState::Failed => 0xff,
        }
    }

    /// The state that a byte stands for.
    pub fn from_byte(b: u8) -> (r: Option<MessageState>)
        ensures
            r matches Some(s) ==> state_byte(s) == b,
            r is None ==> forall|s: MessageState| state_byte(s) != b,
    {
        match b {
            0x00 => Some(MessageState::Generating),
            0x01 => Some(MessageState::Outbound),
            0x02 => Some(MessageState::Sending),
            0x04 => Some(MessageState::Sent),
            0x08 => Some(MessageState::Delivered),
            0xfd => Some(MessageState::Rejected),
            0xfe => Some(MessageState::Cancelled),
            0xff => Some(MessageState::Failed),
            _ => None,
        }
    }
}

/// How a message reaches its recipient.
#[derive(Debug, Clone, Copy, PartialEq, Eq, Structural)]
pub enum DeliveryMethod {
    Opportunistic,
    Direct,
    Propagated,
    Paper,
}

/// The byte that stands for a delivery method in storage.
pub open spec fn method_byte(method: DeliveryMethod) -> u8 {
    match method {
        DeliveryMethod::Opportunistic => 0x01,
        DeliveryMethod::Direct => 0x02,
        DeliveryMethod::Propagated => 0x03,
        DeliveryMethod::Paper => 0x05,
    }
}

impl DeliveryMethod {
    /// The byte that stands for this method in storage.
    pub fn to_byte(self) -> (b: u8)
        ensures
            b == method_byte(self),
    {
        match self {
            DeliveryMethod::Opportunistic => 0x01,
            DeliveryMethod::Direct => 0x02,
            DeliveryMethod::Propagated => 0x03,
            DeliveryMethod::Paper => 0x05,
        }
    }

    /// The method that a byte stands for.
    pub fn from_byte(b: u8) -> (r: Option<DeliveryMethod>)
        ensures
            r matches Some(m) ==> method_byte(m) == b,
            r is None ==> forall|m: DeliveryMethod| method_byte(m) != b,
    {
        match b {
            0x01 => Some(DeliveryMethod::Opportunistic),
            0x02 => Some(DeliveryMethod::Direct),
            0x03 => Some(DeliveryMethod::Propagated),
            0x05 => Some(DeliveryMethod::Paper),
            _ => None,
        }
    }
}

/// How a message is carried by the transport below.
#[derive(Debug, Clone, Copy, PartialEq, Eq, Structural)]
pub enum DeliveryRepresentation {
    Unknown,
    Packet,
    Resource,
    Paper,
}

/// The byte that stands for a representation in storage.
pub open spec fn representation_byte(r: DeliveryRepresentation) -> u8 {
    match r {
        DeliveryRepresentation::Unknown => 0x00,
        DeliveryRepresentation::Packet => 0x01,
        DeliveryRepresentation::Resource => 0x02,
        DeliveryRepresentation::Paper => 0x05,
    }
}

impl DeliveryRepresentation {
    /// The byte that stands for this representation in storage.
    pub fn to_byte(self) -> (b: u8)
        ensures
            b == representation_byte(self),
    {
        match self {
            DeliveryRepresentation::Unknown => 0x00,
            DeliveryRepresentation::Packet => 0x01,
            DeliveryRepresentation::Resource => 0x02,
            DeliveryRepresentation::Paper => 0x05,
        }
    }

    /// The representation that a byte stands for.
    pub fn from_byte(b: u8) -> (r: Option<DeliveryRepresentation>)
        ensures
            r matches Some(x) ==> representation_byte(x) == b,
            r is None ==> forall|x: DeliveryRepresentation| representation_byte(x) != b,
    {
        match b {
            0x00 => Some(DeliveryRepresentation::Unknown),
            0x01 => Some(DeliveryRepresentation::Packet),
            0x02 => Some(DeliveryRepresentation::Resource),
            0x05 => Some(DeliveryRepresentation::Paper),
            _ => None,
        }
    }
}

/// No two states share a byte, so a stored state reads back as itself.
pub proof fn state_bytes_are_distinct(a: MessageState, b: MessageState)
    ensures
        state_byte(a) == state_byte(b) <==> a == b,
{
}

/// No two methods share a byte, so a stored method reads back as itself.
pub proof fn method_bytes_are_distinct(a: DeliveryMethod, b: DeliveryMethod)
    ensures
        method_byte(a) == method_byte(b) <==> a == b,
{
}

/// Why a received message could not be verified.
#[derive(Debug, Clone, Copy, PartialEq, Eq, Structural)]
pub enum UnverifiedReason {
    SourceUnknown,
    SignatureInvalid,
}

/// Where a propagation peer stands in a sync.
#[derive(Debug, Clone, Copy, PartialEq, Eq, Structural)]
pub enum PeerState {
    Idle,
    LinkEstablishing,
    LinkReady,
    RequestSent,
    ResponseReceived,
    ResourceTransferring,
}

/// The number that stands for a peer state in status reports.
pub open spec fn peer_state_byte(s: PeerState) -> u8 {
    match s {
        PeerState::Idle => 0,
        PeerState::LinkEstablishing => 1,
        PeerState::LinkReady => 2,
        PeerState::RequestSent => 3,
        PeerState::ResponseReceived => 4,
        PeerState::ResourceTransferring => 5,
    }
}

impl PeerState {
    /// The number that stands for this state in status reports.
    pub fn to_byte(self) -> (b: u8)
        ensures
            b == peer_state_byte(self),
    {
        match self {
            PeerState::Idle => 0,
            PeerState::LinkEstablishing => 1,
            PeerState::LinkReady => 2,
            PeerState::RequestSent => 3,
            PeerState::ResponseReceived => 4,
            PeerState::ResourceTransferring => 5,
        }
    }
}

/// Why a propagation node refuses a request.
#[derive(Debug, Clone, Copy, PartialEq, Eq, Structural)]
pub enum PeerError {
    NoIdentity,
    NoAccess,
    InvalidKey,
    InvalidData,
    InvalidStamp,
    Throttled,
}

/// The code that a refusal is answered with.
pub open spec fn peer_error_code(e: PeerError) -> u8 {
    match e {
        PeerError::NoIdentity => 0xf0,
        PeerError::NoAccess => 0xf1,
        PeerError::InvalidKey => 0xf3,
        PeerError::InvalidData => 0xf4,
        PeerError::InvalidStamp => 0xf5,
        PeerError::Throttled => 0xf6,
    }
}

impl PeerError {
    /// The code that this refusal is answered with.
    pub fn code(self) -> (c: u8)
        ensures
            c == peer_error_code(self),
    {
        match self {
            PeerError::NoIdentity => 0xf0,
            PeerError::NoAccess => 0xf1,
            PeerError::InvalidKey => 0xf3,
            PeerError::InvalidData => 0xf4,
            PeerError::InvalidStamp => 0xf5,
            PeerError::Throttled => 0xf6,
        }
    }
}

/// States, methods and representations stand under the bytes that the protocol gives them.
pub proof fn bytes_are_those_of_the_protocol(
    state: MessageState,
    method: DeliveryMethod,
    representation: DeliveryRepresentation,
)
    ensures
        state_byte(state) == 0 <==> state == MessageState::Generating,
        state_byte(state) == 1 <==> state == MessageState::Outbound,
        state_byte(state) == 2 <==> state == MessageState::Sending,
        state_byte(state) == 4 <==> state == MessageState::Sent,
        state_byte(state) == 8 <==> state == MessageState::Delivered,
        state_byte(state) == 253 <==> state == MessageState::Rejected,
        state_byte(state) == 254 <==> state == MessageState::Cancelled,
        state_byte(state) == 255 <==> state == MessageState::Failed,
        method_byte(method) == 1 <==> method == DeliveryMethod::Opportunistic,
        method_byte(method) == 2 <==> method == DeliveryMethod::Direct,
        method_byte(method) == 3 <==> method == DeliveryMethod::Propagated,
        method_byte(method) == 5 <==> method == DeliveryMethod::Paper,
        representation_byte(representation) == 0 <==> representation
            == DeliveryRepresentation::Unknown,
        representation_byte(representation) == 1 <==> representation
            == DeliveryRepresentation::Packet,
        representation_byte(representation) == 2 <==> representation
            == DeliveryRepresentation::Resource,
        representation_byte(representation) == 5 <==> representation
            == DeliveryRepresentation::Paper,
{
}

/// Peer states are numbered in the order in which a sync goes through them, and a refusal has a
/// code of its own.
pub proof fn peers_are_told_by_number(a: PeerState, b: PeerState, e: PeerError, f: PeerError)
    ensures
        peer_state_byte(a) == 0 <==> a == PeerState::Idle,
        peer_state_byte(a) == 1 <==> a == PeerState::LinkEstablishing,
        peer_state_byte(a) == 2 <==> a == PeerState::LinkReady,
        peer_state_byte(a) == 3 <==> a == PeerState::RequestSent,
        peer_state_byte(a) == 4 <==> a == PeerState::ResponseReceived,
        peer_state_byte(a) == 5 <==> a == PeerState::ResourceTransferring,
        peer_state_byte(a) == peer_state_byte(b) <==> a == b,
        peer_error_code(e) == 240 <==> e == PeerError::NoIdentity,
        peer_error_code(e) == 241 <==> e == PeerError::NoAccess,
        peer_error_code(e) == 243 <==> e == PeerError::InvalidKey,
        peer_error_code(e) == 244 <==> e == PeerError::InvalidData,
        peer_error_code(e) == 245 <==> e == PeerError::InvalidStamp,
        peer_error_code(e) == 246 <==> e == PeerError::Throttled,
        peer_error_code(e) == peer_error_code(f) <==> e == f,
{
}

/// The sizes and times fit together: a message has the overhead of two hashes, a signature, a
/// time and what is around them; a ticket is renewed before it expires, and kept for a while
/// after.
pub proof fn sizes_and_times_fit_together()
    ensures
        LXMF_OVERHEAD == 2 * DESTINATION_LENGTH + SIGNATURE_LENGTH + TIMESTAMP_SIZE
            + STRUCT_OVERHEAD,
        PAPER_MDU == (2953 - 6) * 6 / 8,
        TICKET_LENGTH == DESTINATION_LENGTH,
        STAMP_SIZE == 2 * TICKET_LENGTH,
        TICKET_EXPIRY == 21 * 24 * 60 * 60,
        TICKET_GRACE == 5 * 24 * 60 * 60,
        TICKET_RENEW == 14 * 24 * 60 * 60,
        MESSAGE_EXPIRY == 30 * 24 * 60 * 60,
        STAMP_COST_EXPIRY == 45 * 24 * 60 * 60,
        PN_STAMP_THROTTLE == 3 * 60,
        PROPAGATION_COST - PROPAGATION_COST_FLEX == PROPAGATION_COST_MIN,
        SYNC_LIMIT == 40 * PROPAGATION_LIMIT,
        ENCRYPTED_PACKET_MAX_CONTENT == 295,
        COST_TICKET == u8::MAX + 1,
        MAX_DELIVERY_ATTEMPTS == 5,
        DELIVERY_RETRY_WAIT == 10,
        PATH_REQUEST_WAIT == 7,
        PROCESSING_INTERVAL == 4,
        JOB_TRANSIENT_INTERVAL * PROCESSING_INTERVAL == 4 * 60,
        JOB_STORE_INTERVAL * PROCESSING_INTERVAL == 8 * 60,
        JOB_PEERSYNC_INTERVAL * PROCESSING_INTERVAL == 24,
        JOB_ROTATE_INTERVAL == 56 * JOB_PEERSYNC_INTERVAL,
        MAX_PEERS * ROTATION_HEADROOM_PCT == 2 * 100,
        PEERING_COST < MAX_PEERING_COST,
        PROGRESS_COMPLETE == MICROS_PER_SECOND == 1_000_000,
{
}

} // verus!
