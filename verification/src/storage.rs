//! Durable state: what a storage backend holds and what its operations do.
//!
//! Instants are whole microseconds since the Unix epoch, but for the times at which
//! propagated messages were stored and identifiers were seen, which are whole seconds.

use vstd::prelude::*;

use crate::bytes::{
    copy_slice, lemma_lex_less_asymmetric, lemma_lex_less_total, lemma_lex_less_transitive,
    lex_less, members,
};
use crate::clock::rank;
use crate::select::{first, lemma_first_determined, sheds, strict_order, weight_of};
use crate::table::{kept, saturated, weigh, without};
use crate::ticket::{admits, Ticket};
use crate::types::PropagationTransientId;

verus! {

/// Why a storage operation failed.
#[derive(Debug)]
pub enum StorageError {
    Io(String),
    Database(String),
    InvalidData(String),
    ActorUnavailable,
    UnsupportedSchema { found: u32, supported: u32 },
}

/// In which role a message identifier was seen.
#[derive(Debug, Clone, Copy, PartialEq, Eq, Hash, Structural)]
pub enum TransientIdKind {
    LocallyDelivered,
    LocallyProcessed,
}

impl TransientIdKind {
    /// The number that stands for this role in a database.
    pub fn to_number(self) -> (n: i64)
        ensures
            n == (match self {
                TransientIdKind::LocallyDelivered => 1i64,
                TransientIdKind::LocallyProcessed => 2i64,
            }),
    {
        match self {
            TransientIdKind::LocallyDelivered => 1,
            TransientIdKind::LocallyProcessed => 2,
        }
    }
}

/// What is known of a stored message without reading its payload.
#[derive(Debug, Clone, Copy, PartialEq, Eq)]
pub struct StoredMessageMetadata {
    pub transient_id: PropagationTransientId,
    pub message_hash: [u8; 32],
    pub destination_hash: [u8; 16],
    /// When the message was stored, in seconds.
    pub stored_at: i64,
    pub stamp_value: u16,
    pub payload_size: usize,
    pub collected: bool,
    pub stamped: bool,
}

/// A stored message.
#[derive(Debug)]
pub struct StoredMessage {
    pub metadata: StoredMessageMetadata,
    pub payload: Vec<u8>,
}

/// What a stored message holds.
pub ghost struct StoredMessageModel {
    pub metadata: StoredMessageMetadata,
    pub payload: Seq<u8>,
}

impl View for StoredMessage {
    type V = StoredMessageModel;

    open spec fn view(&self) -> StoredMessageModel {
        StoredMessageModel { metadata: self.metadata, payload: self.payload@ }
    }
}

impl StoredMessage {
    /// A message to be stored.  Its size is that of the payload, and it is not
    /// collected yet.
    pub fn new(
        transient_id: PropagationTransientId,
        message_hash: [u8; 32],
        destination_hash: [u8; 16],
        stored_at: i64,
        stamp_value: u16,
        payload: Vec<u8>,
        stamped: bool,
    ) -> (m: Self)
        ensures
            m.metadata.transient_id == transient_id,
            m.metadata.message_hash == message_hash,
            m.metadata.destination_hash == destination_hash,
            m.metadata.stored_at == stored_at,
            m.metadata.stamp_value == stamp_value,
            m.metadata.payload_size == payload@.len(),
            !m.metadata.collected,
            m.metadata.stamped == stamped,
            m.payload@ == payload@,
    {
        StoredMessage {
            metadata: StoredMessageMetadata {
                transient_id,
                message_hash,
                destination_hash,
                stored_at,
                stamp_value,
                payload_size: payload.len(),
                collected: false,
                stamped,
            },
            payload,
        }
    }

    /// An owned copy.
    pub fn copy(&self) -> (m: Self)
        ensures
            m@ == self@,
    {
        StoredMessage { metadata: self.metadata, payload: copy_slice(self.payload.as_slice()) }
    }
}

impl Clone for StoredMessage {
    fn clone(&self) -> (m: Self)
        ensures
            m@ == self@,
    {
        self.copy()
    }
}

/// How many messages are stored, and how large they are together.
#[derive(Debug, Clone, Copy, PartialEq, Eq, Structural)]
pub struct MessageStoreStats {
    pub count: usize,
    pub payload_size: usize,
}

/// The delivery schedule of a queued message.
#[derive(Debug, Clone, Copy, PartialEq, Eq)]
pub struct StoredOutboundMetadata {
    pub message_id: [u8; 32],
    pub destination_hash: [u8; 16],
    pub state: u8,
    pub delivery_method: u8,
    pub deferred: bool,
    pub next_delivery_attempt: i64,
    pub last_delivery_attempt: i64,
    pub delivery_attempts: u32,
    /// The bit pattern of the message's own time.
    pub created_at: u64,
    /// Delivery progress in millionths.
    pub progress: u32,
}

/// A queued message.
#[derive(Debug)]
pub struct StoredOutboundMessage {
    pub metadata: StoredOutboundMetadata,
    pub encoded_message: Vec<u8>,
}

/// What a queued message holds.
pub ghost struct StoredOutboundModel {
    pub metadata: StoredOutboundMetadata,
    pub encoded_message: Seq<u8>,
}

impl View for StoredOutboundMessage {
    type V = StoredOutboundModel;

    open spec fn view(&self) -> StoredOutboundModel {
        StoredOutboundModel {
            metadata: self.metadata,
            encoded_message: self.encoded_message@,
        }
    }
}

impl StoredOutboundMessage {
    /// An owned copy.
    pub fn copy(&self) -> (m: Self)
        ensures
            m@ == self@,
    {
        StoredOutboundMessage {
            metadata: self.metadata,
            encoded_message: copy_slice(self.encoded_message.as_slice()),
        }
    }
}

impl Clone for StoredOutboundMessage {
    fn clone(&self) -> (m: Self)
        ensures
            m@ == self@,
    {
        self.copy()
    }
}

/// A stamp cost that a destination announced.
#[derive(Debug, Clone, Copy, PartialEq, Eq)]
pub struct StoredStampCost {
    pub destination_hash: [u8; 16],
    pub cost: u8,
    pub recorded_at: i64,
}

impl View for StoredStampCost {
    type V = StoredStampCost;

    open spec fn view(&self) -> StoredStampCost {
        *self
    }
}

/// The public key of a destination.
#[derive(Debug, Clone, Copy, PartialEq, Eq)]
pub struct StoredIdentity {
    pub destination_hash: [u8; 16],
    pub public_key: [u8; 64],
    pub updated_at: i64,
}

impl View for StoredIdentity {
    type V = StoredIdentity;

    open spec fn view(&self) -> StoredIdentity {
        *self
    }
}

/// The latest ratchet that a destination announced.
#[derive(Debug, Clone, Copy, PartialEq, Eq)]
pub struct StoredRatchet {
    pub destination_hash: [u8; 16],
    pub ratchet_key: [u8; 32],
    pub received_at: i64,
}

impl View for StoredRatchet {
    type V = StoredRatchet;

    open spec fn view(&self) -> StoredRatchet {
        *self
    }
}

/// What a maintenance run found and did.
#[derive(Debug, Clone, Copy, PartialEq, Eq, Structural)]
pub struct StorageMaintenance {
    pub database_bytes: u64,
    pub wal_bytes: u64,
    pub page_size: u64,
    pub page_count: u64,
    pub free_pages: u64,
    pub checkpointed_frames: u64,
    pub remaining_wal_frames: u64,
    pub vacuumed_pages: u64,
    pub page_cache_kib: u64,
}

impl Default for StorageMaintenance {
    fn default() -> (m: Self)
        ensures
            m == (StorageMaintenance {
                database_bytes: 0,
                wal_bytes: 0,
                page_size: 0,
                page_count: 0,
                free_pages: 0,
                checkpointed_frames: 0,
                remaining_wal_frames: 0,
                vacuumed_pages: 0,
                page_cache_kib: 0,
            }),
    {
        StorageMaintenance {
            database_bytes: 0,
            wal_bytes: 0,
            page_size: 0,
            page_count: 0,
            free_pages: 0,
            checkpointed_frames: 0,
            remaining_wal_frames: 0,
            vacuumed_pages: 0,
            page_cache_kib: 0,
        }
    }
}

/// How a database is opened.
#[derive(Debug, Clone, Copy, PartialEq, Eq, Structural)]
pub struct SqliteStorageOptions {
    pub page_cache_kib: u32,
}

impl Default for SqliteStorageOptions {
    fn default() -> (o: Self)
        ensures
            o.page_cache_kib == 1024,
    {
        SqliteStorageOptions { page_cache_kib: 1024 }
    }
}

// ---------------------------------------------------------------------------
// What a backend holds.
// ---------------------------------------------------------------------------

/// The contents of a storage backend.
#[verifier::ext_equal]
pub ghost struct StorageModel {
    pub delivered: Map<[u8; 32], i64>,
    pub processed: Map<[u8; 32], i64>,
    pub messages: Map<[u8; 32], StoredMessageModel>,
    pub outbound: Map<[u8; 32], StoredOutboundModel>,
    pub tickets: Map<[u8; 16], Ticket>,
    pub stamp_costs: Map<[u8; 16], StoredStampCost>,
    pub identities: Map<[u8; 16], StoredIdentity>,
    pub ratchets: Map<[u8; 16], StoredRatchet>,
    pub state_blobs: Map<Seq<char>, Seq<u8>>,
    pub inbound: Map<[u8; 32], (i64, Seq<u8>)>,
    pub peers: Map<[u8; 16], Seq<u8>>,
}

impl StorageModel {
    /// When each identifier was last seen in a role.
    pub open spec fn seen(self, kind: TransientIdKind) -> Map<[u8; 32], i64> {
        match kind {
            TransientIdKind::LocallyDelivered => self.delivered,
            TransientIdKind::LocallyProcessed => self.processed,
        }
    }

    /// The same contents with one identifier seen at a time.
    pub open spec fn with_seen(self, kind: TransientIdKind, id: [u8; 32], at: i64) -> StorageModel {
        match kind {
            TransientIdKind::LocallyDelivered => StorageModel {
                delivered: self.delivered.insert(id, at),
                ..self
            },
            TransientIdKind::LocallyProcessed => StorageModel {
                processed: self.processed.insert(id, at),
                ..self
            },
        }
    }

    /// The same contents with identifiers seen one after the other.
    pub open spec fn with_all_seen(
        self,
        entries: Seq<(TransientIdKind, [u8; 32], i64)>,
    ) -> StorageModel
        decreases entries.len(),
    {
        if entries.len() == 0 {
            self
        } else {
            self.with_all_seen(entries.drop_last()).with_seen(
                entries.last().0,
                entries.last().1,
                entries.last().2,
            )
        }
    }

    /// The payload bytes of all stored messages.
    pub open spec fn stored_bytes(self) -> nat {
        weigh(self.messages, |m: StoredMessageModel| m.metadata.payload_size as nat)
    }
}

/// The part of a map whose times are not before a cutoff.
pub open spec fn not_before<K>(m: Map<K, i64>, cutoff: i64) -> Map<K, i64> {
    kept(m, |k: K, at: i64| at >= cutoff)
}

/// The order of message identifiers.
pub open spec fn by_id<V>() -> spec_fn(([u8; 32], V), ([u8; 32], V)) -> bool {
    |a: ([u8; 32], V), b: ([u8; 32], V)| lex_less(a.0@, b.0@)
}

/// The order in which stored messages expire: the oldest first.
pub open spec fn by_age() -> spec_fn(
    ([u8; 32], StoredMessageModel),
    ([u8; 32], StoredMessageModel),
) -> bool {
    |a: ([u8; 32], StoredMessageModel), b: ([u8; 32], StoredMessageModel)|
        {
            ||| a.1.metadata.stored_at < b.1.metadata.stored_at
            ||| a.1.metadata.stored_at == b.1.metadata.stored_at && lex_less(a.0@, b.0@)
        }
}

/// Messages of this age, in seconds, and younger ones weigh the same.
pub const WEIGHT_BASE_AGE: i64 = 345_600;

/// The weight by which stored messages are dropped when space runs out: size times age,
/// and a tenth of that for a prioritised destination.
pub open spec fn weight(m: StoredMessageMetadata, now: i64, prioritised: Set<[u8; 16]>) -> int {
    weight_of(
        now - m.stored_at,
        WEIGHT_BASE_AGE as int,
        m.payload_size as int,
        prioritised.contains(m.destination_hash),
    )
}

/// The order in which stored messages are dropped when space runs out: the heaviest
/// first.
pub open spec fn by_weight(now: i64, prioritised: Set<[u8; 16]>) -> spec_fn(
    ([u8; 32], StoredMessageModel),
    ([u8; 32], StoredMessageModel),
) -> bool {
    |a: ([u8; 32], StoredMessageModel), b: ([u8; 32], StoredMessageModel)|
        {
            let wa = weight(a.1.metadata, now, prioritised);
            let wb = weight(b.1.metadata, now, prioritised);
            ||| wa > wb
            ||| wa == wb && lex_less(a.0@, b.0@)
        }
}

/// The order in which queued messages fall due.
pub open spec fn by_due_time() -> spec_fn(
    ([u8; 32], StoredOutboundModel),
    ([u8; 32], StoredOutboundModel),
) -> bool {
    |a: ([u8; 32], StoredOutboundModel), b: ([u8; 32], StoredOutboundModel)|
        {
            ||| a.1.metadata.next_delivery_attempt < b.1.metadata.next_delivery_attempt
            ||| a.1.metadata.next_delivery_attempt == b.1.metadata.next_delivery_attempt
                && lex_less(a.0@, b.0@)
        }
}

/// The order in which queued messages were created.
pub open spec fn by_creation() -> spec_fn(
    ([u8; 32], StoredOutboundModel),
    ([u8; 32], StoredOutboundModel),
) -> bool {
    |a: ([u8; 32], StoredOutboundModel), b: ([u8; 32], StoredOutboundModel)|
        {
            ||| rank(a.1.metadata.created_at) < rank(b.1.metadata.created_at)
            ||| rank(a.1.metadata.created_at) == rank(b.1.metadata.created_at) && lex_less(
                a.0@,
                b.0@,
            )
        }
}

/// Each of these orders is strict and total.
pub proof fn lemma_orders(now: i64, prioritised: Set<[u8; 16]>)
    ensures
        strict_order(by_id::<StoredMessageModel>()),
        strict_order(by_age()),
        strict_order(by_weight(now, prioritised)),
        strict_order(by_due_time()),
        strict_order(by_creation()),
{
    assert forall|a: [u8; 32], b: [u8; 32]| a != b implies #[trigger] lex_less(a@, b@) || lex_less(
        b@,
        a@,
    ) by {
        lemma_lex_less_total(a@, b@);
        if a@ == b@ {
            assert(a =~= b);
        }
    }
    assert forall|a: [u8; 32]| !(#[trigger] lex_less(a@, a@)) by {
        lemma_lex_less_asymmetric(a@, a@);
    }
    assert forall|a: [u8; 32], b: [u8; 32], c: [u8; 32]| #[trigger]
        lex_less(a@, b@) && #[trigger] lex_less(b@, c@) implies lex_less(a@, c@) by {
        lemma_lex_less_transitive(a@, b@, c@);
    }
}

/// The identifiers of some metadata.
pub open spec fn metadata_ids(page: Seq<StoredMessageMetadata>) -> Seq<[u8; 32]> {
    Seq::new(page.len(), |i: int| page[i].transient_id)
}

/// Whether `page` is the metadata of the first `limit` messages, by identifier, that
/// come after a cursor and that `eligible` accepts.
pub open spec fn is_metadata_page(
    messages: Map<[u8; 32], StoredMessageModel>,
    eligible: spec_fn([u8; 32], StoredMessageModel) -> bool,
    after: Option<[u8; 32]>,
    limit: nat,
    page: Seq<StoredMessageMetadata>,
) -> bool {
    &&& first(
        messages,
        |k: [u8; 32], m: StoredMessageModel| eligible(k, m) && is_after(after, k),
        by_id::<StoredMessageModel>(),
        limit,
        metadata_ids(page),
    )
    &&& forall|i: int|
        0 <= i < page.len() ==> #[trigger] page[i] == messages[page[i].transient_id].metadata
}

/// Whether an identifier comes after a cursor.
pub open spec fn is_after(after: Option<[u8; 32]>, id: [u8; 32]) -> bool {
    match after {
        Some(cursor) => lex_less(cursor@, id@),
        None => true,
    }
}

/// The bytes that a stored message takes.
pub open spec fn payload_bytes() -> spec_fn(StoredMessageModel) -> nat {
    |m: StoredMessageModel| m.metadata.payload_size as nat
}

/// Whether `keys` are the messages to drop to free `bytes`: the heaviest first, no more
/// than needed, and fewer only where `limit` or the store ends.
pub open spec fn is_weight_selection(
    messages: Map<[u8; 32], StoredMessageModel>,
    bytes: usize,
    now: i64,
    prioritised: Set<[u8; 16]>,
    limit: nat,
    keys: Seq<[u8; 32]>,
) -> bool {
    sheds(messages, by_weight(now, prioritised), payload_bytes(), bytes as nat, limit, keys)
}

/// Whether `keys` are the `limit` oldest of the messages that were stored before a
/// cutoff.
pub open spec fn is_age_selection(
    messages: Map<[u8; 32], StoredMessageModel>,
    cutoff: i64,
    limit: nat,
    keys: Seq<[u8; 32]>,
) -> bool {
    first(
        messages,
        |k: [u8; 32], m: StoredMessageModel| m.metadata.stored_at < cutoff,
        by_age(),
        limit,
        keys,
    )
}

/// The identifiers of some queue entries.
pub open spec fn outbound_ids(page: Seq<StoredOutboundMetadata>) -> Seq<[u8; 32]> {
    Seq::new(page.len(), |i: int| page[i].message_id)
}

/// Whether a message is to be stored: its size is that of its payload.
pub open spec fn is_consistent(m: StoredMessageModel) -> bool {
    m.metadata.payload_size == m.payload.len()
}

/// Whether a message is stored that was not stored before, and what is then held.
pub open spec fn inserted(m: StorageModel, message: StoredMessageModel) -> (bool, StorageModel) {
    let id = message.metadata.transient_id;
    if m.messages.contains_key(id) {
        (false, m)
    } else {
        (true, StorageModel { messages: m.messages.insert(id, message), ..m })
    }
}

/// The map that a list of peers makes; of two entries with one hash the later counts.
pub open spec fn peer_map(peers: Seq<([u8; 16], Vec<u8>)>) -> Map<[u8; 16], Seq<u8>>
    decreases peers.len(),
{
    if peers.len() == 0 {
        Map::empty()
    } else {
        peer_map(peers.drop_last()).insert(peers.last().0, peers.last().1@)
    }
}

/// Some named byte strings.
pub open spec fn blob_models(entries: Seq<(&str, &[u8])>) -> Seq<(Seq<char>, Seq<u8>)> {
    Seq::new(entries.len(), |i: int| (entries[i].0@, entries[i].1@))
}

/// Storage with some named byte strings put in, one after the other.
pub open spec fn with_blobs(s: StorageModel, entries: Seq<(Seq<char>, Seq<u8>)>) -> StorageModel
    decreases entries.len(),
{
    if entries.len() == 0 {
        s
    } else {
        let before = with_blobs(s, entries.drop_last());
        StorageModel {
            state_blobs: before.state_blobs.insert(entries.last().0, entries.last().1),
            ..before
        }
    }
}

// ---------------------------------------------------------------------------
// The operations of a backend.
// ---------------------------------------------------------------------------

/// A storage backend.  Every operation may fail; one that fails changes nothing.
pub trait LxmfStorage: Sized {
    /// What the backend holds.
    spec fn model(&self) -> StorageModel;

    /// Whether no operation of the backend fails for want of a working medium.
    spec fn reliable(&self) -> bool;

    fn contains_transient_id(
        &self,
        kind: TransientIdKind,
        transient_id: &PropagationTransientId,
    ) -> (r: Result<bool, StorageError>)
        ensures
            self.reliable() ==> r is Ok,
            r matches Ok(b) ==> b == self.model().seen(kind).contains_key(*transient_id),
    ;

    fn upsert_transient_id(
        &mut self,
        kind: TransientIdKind,
        transient_id: PropagationTransientId,
        seen_at: i64,
    ) -> (r: Result<(), StorageError>)
        ensures
            old(self).reliable() ==> r is Ok,
            final(self).reliable() == old(self).reliable(),
            r is Ok ==> final(self).model() == old(self).model().with_seen(
                kind,
                transient_id,
                seen_at,
            ),
            r is Err ==> final(self).model() == old(self).model(),
    ;

    fn upsert_transient_ids(
        &mut self,
        entries: &Vec<(TransientIdKind, PropagationTransientId, i64)>,
    ) -> (r: Result<(), StorageError>)
        ensures
            old(self).reliable() ==> r is Ok,
            final(self).reliable() == old(self).reliable(),
            r is Ok ==> final(self).model() == old(self).model().with_all_seen(entries@),
            r is Err ==> final(self).model() == old(self).model(),
    ;

    /// Forgets the identifiers that were last seen before `cutoff`.
    fn cull_transient_ids_before(&mut self, cutoff: i64) -> (r: Result<usize, StorageError>)
        ensures
            old(self).reliable() ==> r is Ok,
            final(self).reliable() == old(self).reliable(),
            r matches Ok(n) ==> {
                &&& final(self).model() == (StorageModel {
                    delivered: not_before(old(self).model().delivered, cutoff),
                    processed: not_before(old(self).model().processed, cutoff),
                    ..old(self).model()
                })
                &&& n == saturated(
                    (old(self).model().delivered.len() + old(self).model().processed.len()
                        - final(self).model().delivered.len()
                        - final(self).model().processed.len()) as nat,
                )
            },
            r is Err ==> final(self).model() == old(self).model(),
    ;

    fn transient_id_count(&self, kind: TransientIdKind) -> (r: Result<usize, StorageError>)
        ensures
            self.reliable() ==> r is Ok,
            r matches Ok(n) ==> n == self.model().seen(kind).len(),
    ;

    /// Stores a message, unless one with its identifier is stored already.
    fn insert_message(&mut self, message: &StoredMessage) -> (r: Result<bool, StorageError>)
        ensures
            old(self).reliable() && is_consistent(message@) ==> r is Ok,
            final(self).reliable() == old(self).reliable(),
            !is_consistent(message@) ==> r is Err,
            r matches Ok(b) ==> (b, final(self).model()) == inserted(old(self).model(), message@),
            r is Err ==> final(self).model() == old(self).model(),
    ;

    fn message_metadata(&self, transient_id: &PropagationTransientId) -> (r: Result<
        Option<StoredMessageMetadata>,
        StorageError,
    >)
        ensures
            self.reliable() ==> r is Ok,
            r matches Ok(o) ==> o == (if self.model().messages.contains_key(*transient_id) {
                Some(self.model().messages[*transient_id].metadata)
            } else {
                None
            }),
    ;

    fn message_payload(&self, transient_id: &PropagationTransientId) -> (r: Result<
        Option<Vec<u8>>,
        StorageError,
    >)
        ensures
            self.reliable() ==> r is Ok,
            r matches Ok(o) ==> (o is Some <==> self.model().messages.contains_key(*transient_id)),
            r matches Ok(Some(p)) ==> p@ == self.model().messages[*transient_id].payload,
    ;

    /// The first `limit` messages after a cursor, by identifier.
    fn message_metadata_page(
        &self,
        after: Option<&PropagationTransientId>,
        limit: usize,
    ) -> (r: Result<Vec<StoredMessageMetadata>, StorageError>)
        ensures
            self.reliable() ==> r is Ok,
            r matches Ok(page) ==> is_metadata_page(
                self.model().messages,
                |k: [u8; 32], m: StoredMessageModel| true,
                cursor(after),
                limit as nat,
                page@,
            ),
    ;

    /// The first `limit` messages for one destination after a cursor, by identifier.
    fn message_metadata_for_destination(
        &self,
        destination_hash: &[u8; 16],
        after: Option<&PropagationTransientId>,
        limit: usize,
    ) -> (r: Result<Vec<StoredMessageMetadata>, StorageError>)
        ensures
            self.reliable() ==> r is Ok,
            r matches Ok(page) ==> is_metadata_page(
                self.model().messages,
                |k: [u8; 32], m: StoredMessageModel|
                    m.metadata.destination_hash == *destination_hash,
                cursor(after),
                limit as nat,
                page@,
            ),
    ;

    fn remove_message(&mut self, transient_id: &PropagationTransientId) -> (r: Result<
        bool,
        StorageError,
    >)
        ensures
            old(self).reliable() ==> r is Ok,
            final(self).reliable() == old(self).reliable(),
            r matches Ok(b) ==> b == old(self).model().messages.contains_key(*transient_id)
                && final(self).model() == (StorageModel {
                messages: old(self).model().messages.remove(*transient_id),
                ..old(self).model()
            }),
            r is Err ==> final(self).model() == old(self).model(),
    ;

    fn set_message_collected(
        &mut self,
        transient_id: &PropagationTransientId,
        collected: bool,
    ) -> (r: Result<bool, StorageError>)
        ensures
            old(self).reliable() ==> r is Ok,
            final(self).reliable() == old(self).reliable(),
            r matches Ok(b) ==> b == old(self).model().messages.contains_key(*transient_id)
                && final(self).model() == (if b {
                let m = old(self).model().messages[*transient_id];
                StorageModel {
                    messages: old(self).model().messages.insert(
                        *transient_id,
                        StoredMessageModel {
                            metadata: StoredMessageMetadata { collected, ..m.metadata },
                            payload: m.payload,
                        },
                    ),
                    ..old(self).model()
                }
            } else {
                old(self).model()
            }),
            r is Err ==> final(self).model() == old(self).model(),
    ;

    fn message_store_stats(&self) -> (r: Result<MessageStoreStats, StorageError>)
        ensures
            self.reliable() ==> r is Ok,
            r is Ok ==> self.model().messages.dom().finite(),
            r matches Ok(s) ==> s.count == self.model().messages.len() && s.payload_size
                == saturated(self.model().stored_bytes()),
    ;

    /// Drops the `limit` oldest of the messages that were stored before `cutoff`.
    fn remove_messages_stored_before(&mut self, cutoff: i64, limit: usize) -> (r: Result<
        usize,
        StorageError,
    >)
        ensures
            old(self).reliable() ==> r is Ok,
            final(self).reliable() == old(self).reliable(),
            r matches Ok(n) ==> exists|keys: Seq<[u8; 32]>| #[trigger]
                is_age_selection(old(self).model().messages, cutoff, limit as nat, keys) && n == keys.len() && final(self).model() == (StorageModel {
                    messages: without(old(self).model().messages, keys),
                    ..old(self).model()
                }),
            r matches Ok(n) ==> final(self).model().messages.len() + n == old(self).model().messages.len(),
            r is Err ==> final(self).model() == old(self).model(),
    ;

    /// Drops the heaviest messages, until `bytes_to_remove` bytes or `limit` messages
    /// are gone.
    fn remove_messages_by_weight(
        &mut self,
        bytes_to_remove: usize,
        now: i64,
        prioritised_destinations: &Vec<[u8; 16]>,
        limit: usize,
    ) -> (r: Result<usize, StorageError>)
        ensures
            old(self).reliable() ==> r is Ok,
            final(self).reliable() == old(self).reliable(),
            r matches Ok(n) ==> exists|keys: Seq<[u8; 32]>| #[trigger]
                is_weight_selection(
                    old(self).model().messages,
                    bytes_to_remove,
                    now,
                    members(prioritised_destinations@),
                    limit as nat,
                    keys,
                ) && n == keys.len() && final(self).model() == (StorageModel {
                    messages: without(old(self).model().messages, keys),
                    ..old(self).model()
                }),
            r matches Ok(n) ==> final(self).model().messages.len() + n == old(self).model().messages.len(),
            r is Err ==> final(self).model() == old(self).model(),
    ;

    fn upsert_outbound_message(&mut self, message: &StoredOutboundMessage) -> (r: Result<
        (),
        StorageError,
    >)
        ensures
            old(self).reliable() ==> r is Ok,
            final(self).reliable() == old(self).reliable(),
            r is Ok ==> final(self).model() == (StorageModel {
                outbound: old(self).model().outbound.insert(message.metadata.message_id, message@),
                ..old(self).model()
            }),
            r is Err ==> final(self).model() == old(self).model(),
    ;

    fn outbound_message(&self, message_id: &[u8; 32]) -> (r: Result<
        Option<StoredOutboundMessage>,
        StorageError,
    >)
        ensures
            self.reliable() ==> r is Ok,
            r matches Ok(o) ==> (o is Some <==> self.model().outbound.contains_key(*message_id)),
            r matches Ok(Some(m)) ==> m@ == self.model().outbound[*message_id],
    ;

    /// The first `limit` queued messages that are due at `now`.
    fn outbound_ready(&self, now: i64, deferred: bool, limit: usize) -> (r: Result<
        Vec<StoredOutboundMetadata>,
        StorageError,
    >)
        ensures
            self.reliable() ==> r is Ok,
            r matches Ok(page) ==> is_due_page(
                self.model().outbound,
                now,
                deferred,
                limit as nat,
                page@,
            ),
    ;

    /// The first `limit` queued messages, oldest first.
    fn outbound_metadata_page(&self, deferred: bool, limit: usize) -> (r: Result<
        Vec<StoredOutboundMetadata>,
        StorageError,
    >)
        ensures
            self.reliable() ==> r is Ok,
            r matches Ok(page) ==> {
                &&& first(
                    self.model().outbound,
                    |k: [u8; 32], m: StoredOutboundModel| m.metadata.deferred == deferred,
                    by_creation(),
                    limit as nat,
                    outbound_ids(page@),
                )
                &&& forall|i: int|
                    0 <= i < page@.len() ==> #[trigger] page@[i]
                        == self.model().outbound[page@[i].message_id].metadata
            },
    ;

    fn update_outbound_delivery(&mut self, metadata: &StoredOutboundMetadata) -> (r: Result<
        bool,
        StorageError,
    >)
        ensures
            old(self).reliable() ==> r is Ok,
            final(self).reliable() == old(self).reliable(),
            r matches Ok(b) ==> b == old(self).model().outbound.contains_key(metadata.message_id)
                && final(self).model() == (if b {
                StorageModel {
                    outbound: old(self).model().outbound.insert(
                        metadata.message_id,
                        StoredOutboundModel {
                            metadata: *metadata,
                            encoded_message: old(self).model().outbound[metadata.message_id].encoded_message,
                        },
                    ),
                    ..old(self).model()
                }
            } else {
                old(self).model()
            }),
            r is Err ==> final(self).model() == old(self).model(),
    ;

    fn remove_outbound_message(&mut self, message_id: &[u8; 32]) -> (r: Result<bool, StorageError>)
        ensures
            old(self).reliable() ==> r is Ok,
            final(self).reliable() == old(self).reliable(),
            r matches Ok(b) ==> b == old(self).model().outbound.contains_key(*message_id) && final(self).model() == (StorageModel {
                outbound: old(self).model().outbound.remove(*message_id),
                ..old(self).model()
            }),
            r is Err ==> final(self).model() == old(self).model(),
    ;

    fn outbound_count(&self, deferred: Option<bool>) -> (r: Result<usize, StorageError>)
        ensures
            self.reliable() ==> r is Ok,
            r matches Ok(n) ==> n == kept(
                self.model().outbound,
                |k: [u8; 32], m: StoredOutboundModel| wanted_queue(deferred, m),
            ).len(),
    ;

    fn upsert_ticket(&mut self, ticket: &Ticket) -> (r: Result<(), StorageError>)
        ensures
            old(self).reliable() ==> r is Ok,
            final(self).reliable() == old(self).reliable(),
            r is Ok ==> final(self).model() == (StorageModel {
                tickets: old(self).model().tickets.insert(ticket.token, *ticket),
                ..old(self).model()
            }),
            r is Err ==> final(self).model() == old(self).model(),
    ;

    /// One of the tickets for a destination that are valid at `now`.
    fn valid_ticket(&self, destination_hash: &[u8; 16], now: i64) -> (r: Result<
        Option<Ticket>,
        StorageError,
    >)
        ensures
            self.reliable() ==> r is Ok,
            r matches Ok(Some(t)) ==> admits(t, *destination_hash, now)
                && exists|k: [u8; 16]| #[trigger]
                self.model().tickets.contains_key(k) && self.model().tickets[k] == t,
            r matches Ok(None) ==> forall|k: [u8; 16]| #[trigger]
                self.model().tickets.contains_key(k) ==> !admits(
                    self.model().tickets[k],
                    *destination_hash,
                    now,
                ),
    ;

    fn remove_tickets(&mut self, destination_hash: &[u8; 16]) -> (r: Result<usize, StorageError>)
        ensures
            old(self).reliable() ==> r is Ok,
            final(self).reliable() == old(self).reliable(),
            r matches Ok(n) ==> final(self).model() == (StorageModel {
                tickets: kept(
                    old(self).model().tickets,
                    |k: [u8; 16], t: Ticket| t.destination_hash != *destination_hash,
                ),
                ..old(self).model()
            }) && n == old(self).model().tickets.len() - final(self).model().tickets.len(),
            r is Err ==> final(self).model() == old(self).model(),
    ;

    /// Drops used tickets and those that expired before `cutoff`.
    fn cull_tickets(&mut self, cutoff: i64) -> (r: Result<usize, StorageError>)
        ensures
            old(self).reliable() ==> r is Ok,
            final(self).reliable() == old(self).reliable(),
            r matches Ok(n) ==> final(self).model() == (StorageModel {
                tickets: kept(
                    old(self).model().tickets,
                    |k: [u8; 16], t: Ticket| !t.used && t.expires >= cutoff,
                ),
                ..old(self).model()
            }) && n == old(self).model().tickets.len() - final(self).model().tickets.len(),
            r is Err ==> final(self).model() == old(self).model(),
    ;

    fn upsert_stamp_cost(&mut self, entry: StoredStampCost) -> (r: Result<(), StorageError>)
        ensures
            old(self).reliable() ==> r is Ok,
            final(self).reliable() == old(self).reliable(),
            r is Ok ==> final(self).model() == (StorageModel {
                stamp_costs: old(self).model().stamp_costs.insert(entry.destination_hash, entry),
                ..old(self).model()
            }),
            r is Err ==> final(self).model() == old(self).model(),
    ;

    fn stamp_cost(&self, destination_hash: &[u8; 16]) -> (r: Result<
        Option<StoredStampCost>,
        StorageError,
    >)
        ensures
            self.reliable() ==> r is Ok,
            r matches Ok(o) ==> o == (if self.model().stamp_costs.contains_key(*destination_hash) {
                Some(self.model().stamp_costs[*destination_hash])
            } else {
                None
            }),
    ;

    fn remove_stamp_cost(&mut self, destination_hash: &[u8; 16]) -> (r: Result<bool, StorageError>)
        ensures
            old(self).reliable() ==> r is Ok,
            final(self).reliable() == old(self).reliable(),
            r matches Ok(b) ==> b == old(self).model().stamp_costs.contains_key(*destination_hash)
                && final(self).model() == (StorageModel {
                stamp_costs: old(self).model().stamp_costs.remove(*destination_hash),
                ..old(self).model()
            }),
            r is Err ==> final(self).model() == old(self).model(),
    ;

    fn cull_stamp_costs_before(&mut self, cutoff: i64) -> (r: Result<usize, StorageError>)
        ensures
            old(self).reliable() ==> r is Ok,
            final(self).reliable() == old(self).reliable(),
            r matches Ok(n) ==> final(self).model() == (StorageModel {
                stamp_costs: kept(
                    old(self).model().stamp_costs,
                    |k: [u8; 16], e: StoredStampCost| e.recorded_at >= cutoff,
                ),
                ..old(self).model()
            }) && n == old(self).model().stamp_costs.len() - final(self).model().stamp_costs.len(),
            r is Err ==> final(self).model() == old(self).model(),
    ;

    fn stamp_cost_count(&self) -> (r: Result<usize, StorageError>)
        ensures
            self.reliable() ==> r is Ok,
            r matches Ok(n) ==> n == self.model().stamp_costs.len(),
    ;

    fn upsert_identity(&mut self, identity: StoredIdentity) -> (r: Result<(), StorageError>)
        ensures
            old(self).reliable() ==> r is Ok,
            final(self).reliable() == old(self).reliable(),
            r is Ok ==> final(self).model() == (StorageModel {
                identities: old(self).model().identities.insert(
                    identity.destination_hash,
                    identity,
                ),
                ..old(self).model()
            }),
            r is Err ==> final(self).model() == old(self).model(),
    ;

    fn identity(&self, destination_hash: &[u8; 16]) -> (r: Result<
        Option<StoredIdentity>,
        StorageError,
    >)
        ensures
            self.reliable() ==> r is Ok,
            r matches Ok(o) ==> o == (if self.model().identities.contains_key(*destination_hash) {
                Some(self.model().identities[*destination_hash])
            } else {
                None
            }),
    ;

    /// The `limit` most recently updated identities, the latest first.
    fn identity_page(&self, limit: usize) -> (r: Result<Vec<StoredIdentity>, StorageError>)
        ensures
            self.reliable() ==> r is Ok,
            r matches Ok(page) ==> is_latest_first(
                self.model().identities,
                |i: StoredIdentity| true,
                |i: StoredIdentity| i.updated_at,
                limit as nat,
                page@,
            ),
    ;

    fn upsert_ratchet(&mut self, ratchet: StoredRatchet) -> (r: Result<(), StorageError>)
        ensures
            old(self).reliable() ==> r is Ok,
            final(self).reliable() == old(self).reliable(),
            r is Ok ==> final(self).model() == (StorageModel {
                ratchets: old(self).model().ratchets.insert(ratchet.destination_hash, ratchet),
                ..old(self).model()
            }),
            r is Err ==> final(self).model() == old(self).model(),
    ;

    fn ratchet(&self, destination_hash: &[u8; 16]) -> (r: Result<
        Option<StoredRatchet>,
        StorageError,
    >)
        ensures
            self.reliable() ==> r is Ok,
            r matches Ok(o) ==> o == (if self.model().ratchets.contains_key(*destination_hash) {
                Some(self.model().ratchets[*destination_hash])
            } else {
                None
            }),
    ;

    /// The `limit` most recently received of the ratchets that were received at `cutoff`
    /// or later, the latest first.
    fn ratchet_page(&self, cutoff: i64, limit: usize) -> (r: Result<
        Vec<StoredRatchet>,
        StorageError,
    >)
        ensures
            self.reliable() ==> r is Ok,
            r matches Ok(page) ==> is_latest_first(
                self.model().ratchets,
                |x: StoredRatchet| x.received_at >= cutoff,
                |x: StoredRatchet| x.received_at,
                limit as nat,
                page@,
            ),
    ;

    fn cull_ratchets_before(&mut self, cutoff: i64) -> (r: Result<usize, StorageError>)
        ensures
            old(self).reliable() ==> r is Ok,
            final(self).reliable() == old(self).reliable(),
            r matches Ok(n) ==> final(self).model() == (StorageModel {
                ratchets: kept(
                    old(self).model().ratchets,
                    |k: [u8; 16], x: StoredRatchet| x.received_at >= cutoff,
                ),
                ..old(self).model()
            }) && n == old(self).model().ratchets.len() - final(self).model().ratchets.len(),
            r is Err ==> final(self).model() == old(self).model(),
    ;

    fn put_state_blob(&mut self, key: &str, value: &[u8]) -> (r: Result<(), StorageError>)
        ensures
            old(self).reliable() ==> r is Ok,
            final(self).reliable() == old(self).reliable(),
            r is Ok ==> final(self).model() == (StorageModel {
                state_blobs: old(self).model().state_blobs.insert(key@, value@),
                ..old(self).model()
            }),
            r is Err ==> final(self).model() == old(self).model(),
    ;

    /// Keeps some byte strings: all of them, or those before the first that is not kept.
    fn put_state_blobs(&mut self, entries: &Vec<(&str, &[u8])>) -> (r: Result<(), StorageError>)
        ensures
            old(self).reliable() ==> r is Ok,
            final(self).reliable() == old(self).reliable(),
            exists|n: int|
                0 <= n <= entries@.len() && (r is Ok ==> n == entries@.len()) && final(self).model()
                    == with_blobs(old(self).model(), #[trigger] blob_models(entries@).take(n)),
    {
        let ghost m = self.model();
        let ghost sound = self.reliable();
        let ghost all = blob_models(entries@);
        let mut i: usize = 0;
        assert(with_blobs(m, all.take(0)) == m);
        while i < entries.len()
            invariant
                i <= entries@.len(),
                all == blob_models(entries@),
                m == old(self).model(),
                sound == old(self).reliable(),
                self.reliable() == sound,
                self.model() == with_blobs(m, all.take(i as int)),
            decreases entries@.len() - i,
        {
            proof {
                assert(all.take(i + 1).drop_last() =~= all.take(i as int));
                assert(all.take(i + 1).last() == (entries@[i as int].0@, entries@[i as int].1@));
            }
            let (key, value) = entries[i];
            match self.put_state_blob(key, value) {
                Ok(_) => {},
                Err(e) => {
                    return Err(e);
                },
            }
            i = i + 1;
        }
        Ok(())
    }

    fn state_blob(&self, key: &str) -> (r: Result<Option<Vec<u8>>, StorageError>)
        ensures
            self.reliable() ==> r is Ok,
            r matches Ok(o) ==> (o is Some <==> self.model().state_blobs.contains_key(key@)),
            r matches Ok(Some(v)) ==> v@ == self.model().state_blobs[key@],
    ;

    /// Records a received message.  Whether a message that was recorded before is
    /// recorded anew is left to the backend.
    fn insert_inbound_message(
        &mut self,
        message_id: [u8; 32],
        received_at: i64,
        encoded: &[u8],
    ) -> (r: Result<(), StorageError>)
        ensures
            old(self).reliable() ==> r is Ok,
            final(self).reliable() == old(self).reliable(),
            r is Ok ==> final(self).model() == (StorageModel {
                inbound: old(self).model().inbound.insert(message_id, (received_at, encoded@)),
                ..old(self).model()
            }) || old(self).model().inbound.contains_key(message_id) && final(self).model() == old(self).model(),
            r is Err ==> final(self).model() == old(self).model(),
    ;

    fn contains_inbound_message(&self, message_id: &[u8; 32]) -> (r: Result<bool, StorageError>)
        ensures
            self.reliable() ==> r is Ok,
            r matches Ok(b) ==> b == self.model().inbound.contains_key(*message_id),
    ;

    fn replace_peers(&mut self, peers: &Vec<([u8; 16], Vec<u8>)>) -> (r: Result<(), StorageError>)
        ensures
            old(self).reliable() ==> r is Ok,
            final(self).reliable() == old(self).reliable(),
            r is Ok ==> final(self).model() == (StorageModel {
                peers: peer_map(peers@),
                ..old(self).model()
            }),
            r is Err ==> final(self).model() == old(self).model(),
    ;

    /// Up to `limit` peers, no one twice.
    fn peer_page(&self, limit: usize) -> (r: Result<Vec<([u8; 16], Vec<u8>)>, StorageError>)
        ensures
            self.reliable() ==> r is Ok,
            r matches Ok(page) ==> {
                &&& page@.len() == (if limit < self.model().peers.len() {
                    limit as nat
                } else {
                    self.model().peers.len()
                })
                &&& forall|i: int|
                    0 <= i < page@.len() ==> self.model().peers.contains_key(
                        (#[trigger] page@[i]).0,
                    ) && self.model().peers[page@[i].0] == page@[i].1@
                &&& forall|i: int, j: int|
                    0 <= i < j < page@.len() ==> (#[trigger] page@[i]).0 != (#[trigger] page@[j]).0
            },
    ;

    /// Gives unused space back.  The contents stay what they are.
    fn maintain(&mut self, vacuum_pages: u32) -> (r: Result<StorageMaintenance, StorageError>)
        ensures
            old(self).reliable() ==> r is Ok,
            final(self).reliable() == old(self).reliable(),
            final(self).model() == old(self).model(),
    ;
}

/// The cursor that an optional reference stands for.
pub open spec fn cursor(after: Option<&[u8; 32]>) -> Option<[u8; 32]> {
    match after {
        Some(id) => Some(*id),
        None => None,
    }
}

/// Whether a queue entry is of the wanted kind.
pub open spec fn wanted_queue(deferred: Option<bool>, m: StoredOutboundModel) -> bool {
    match deferred {
        Some(d) => m.metadata.deferred == d,
        None => true,
    }
}

/// Whether a queued message is due.
pub open spec fn is_due(m: StoredOutboundModel, now: i64, deferred: bool) -> bool {
    m.metadata.deferred == deferred && m.metadata.next_delivery_attempt <= now
}

/// Whether `page` holds the `limit` queued messages that fell due first, in that order;
/// which of two that fell due together comes first is left open.
pub open spec fn is_due_page(
    outbound: Map<[u8; 32], StoredOutboundModel>,
    now: i64,
    deferred: bool,
    limit: nat,
    page: Seq<StoredOutboundMetadata>,
) -> bool {
    &&& page.len() <= limit
    &&& outbound_ids(page).no_duplicates()
    &&& forall|i: int|
        0 <= i < page.len() ==> outbound.contains_key((#[trigger] page[i]).message_id) && page[i]
            == outbound[page[i].message_id].metadata && is_due(
            outbound[page[i].message_id],
            now,
            deferred,
        )
    &&& forall|i: int, j: int|
        0 <= i < j < page.len() ==> (#[trigger] page[i]).next_delivery_attempt <= (
        #[trigger] page[j]).next_delivery_attempt
    &&& forall|k: [u8; 32], i: int|
        outbound.contains_key(k) && is_due(outbound[k], now, deferred)
            && !(#[trigger] outbound_ids(page).contains(k)) && 0 <= i < page.len() ==> (
        #[trigger] page[i]).next_delivery_attempt <= outbound[k].metadata.next_delivery_attempt
    &&& page.len() == limit || forall|k: [u8; 32]|
        outbound.contains_key(k) && is_due(outbound[k], now, deferred)
            ==> #[trigger] outbound_ids(page).contains(k)
}

/// Whether `page` holds the `limit` latest of the values that `eligible` accepts, the
/// latest first; which of two that are equally late comes first is left open.
pub open spec fn is_latest_first<V>(
    m: Map<[u8; 16], V>,
    eligible: spec_fn(V) -> bool,
    time: spec_fn(V) -> i64,
    limit: nat,
    page: Seq<V>,
) -> bool {
    exists|keys: Seq<[u8; 16]>|
        {
            &&& keys.no_duplicates()
            &&& #[trigger] keys.len() == page.len()
            &&& keys.len() <= limit
            &&& forall|i: int|
                0 <= i < keys.len() ==> m.contains_key(#[trigger] keys[i]) && m[keys[i]] == page[i]
                    && eligible(page[i])
            &&& forall|i: int, j: int|
                0 <= i < j < page.len() ==> time(#[trigger] page[i]) >= time(#[trigger] page[j])
            &&& forall|k: [u8; 16], i: int|
                m.contains_key(k) && eligible(m[k]) && !(#[trigger] keys.contains(k)) && 0 <= i
                    < page.len() ==> time(#[trigger] page[i]) >= time(m[k])
            &&& keys.len() == limit || forall|k: [u8; 16]|
                m.contains_key(k) && eligible(m[k]) ==> #[trigger] keys.contains(k)
        }
}

// ---------------------------------------------------------------------------
// What holds of every backend.
// ---------------------------------------------------------------------------

/// A message that was stored is held as it was given.  It is stored once: under its
/// identifier no other takes its place, and no other message is touched.
pub proof fn messages_are_stored_once(
    m: StorageModel,
    message: StoredMessageModel,
    again: StoredMessageModel,
)
    requires
        again.metadata.transient_id == message.metadata.transient_id,
    ensures
        ({
            let id = message.metadata.transient_id;
            let (fresh, held) = inserted(m, message);
            &&& held.messages.contains_key(id)
            &&& fresh ==> held.messages[id] == message
            &&& inserted(held, again) == (false, held)
            &&& forall|k: [u8; 32]|
                #![trigger held.messages.contains_key(k)]
                k != id ==> held.messages.contains_key(k) == m.messages.contains_key(k)
                    && held.messages[k] == m.messages[k]
        }),
{
}

/// Walking the pages from cursor to cursor misses no message: one that a page does not list
/// comes after its last, and a page that is not full ends the walk.
pub proof fn pages_miss_nothing(
    messages: Map<[u8; 32], StoredMessageModel>,
    eligible: spec_fn([u8; 32], StoredMessageModel) -> bool,
    after: Option<[u8; 32]>,
    limit: nat,
    page: Seq<StoredMessageMetadata>,
    k: [u8; 32],
)
    requires
        is_metadata_page(messages, eligible, after, limit, page),
        messages.contains_key(k),
        eligible(k, messages[k]),
        is_after(after, k),
    ensures
        metadata_ids(page).contains(k) || page.len() == limit,
        page.len() > 0 && !metadata_ids(page).contains(k) ==> is_after(
            Some(page[page.len() - 1].transient_id),
            k,
        ),
{
    let ids = metadata_ids(page);
    if page.len() > 0 && !ids.contains(k) {
        let last = ids[ids.len() - 1];
        assert(by_id::<StoredMessageModel>()((last, messages[last]), (k, messages[k])));
    }
}

/// A page and the one after its last message, joined, are the longer page: walking by the last
/// identifier neither skips nor repeats a message.
pub proof fn joined_pages_are_the_longer_page(
    messages: Map<[u8; 32], StoredMessageModel>,
    eligible: spec_fn([u8; 32], StoredMessageModel) -> bool,
    after: Option<[u8; 32]>,
    limit: nat,
    more: nat,
    page: Seq<StoredMessageMetadata>,
    next: Seq<StoredMessageMetadata>,
)
    requires
        is_metadata_page(messages, eligible, after, limit, page),
        page.len() > 0,
        is_metadata_page(
            messages,
            eligible,
            Some(page[page.len() - 1].transient_id),
            more,
            next,
        ),
    ensures
        is_metadata_page(messages, eligible, after, limit + more, page + next),
        forall|long: Seq<StoredMessageMetadata>| #[trigger]
            is_metadata_page(messages, eligible, after, limit + more, long) ==> long == page
                + next,
{
    let order = by_id::<StoredMessageModel>();
    let a = metadata_ids(page);
    let b = metadata_ids(next);
    let all = metadata_ids(page + next);
    let last = a[a.len() - 1];
    lemma_orders(0, Set::empty());
    assert(all =~= a + b);
    assert forall|i: int| 0 <= i < a.len() implies !lex_less(last@, (#[trigger] a[i])@) by {
        lemma_lex_less_asymmetric(last@, a[i]@);
        if i < a.len() - 1 {
            assert(order((a[i], messages[a[i]]), (last, messages[last])));
        }
    }
    assert forall|j: int| 0 <= j < b.len() implies is_after(after, #[trigger] b[j]) && !a.contains(
        b[j],
    ) by {
        assert(lex_less(last@, b[j]@));
        assert(is_after(after, last));
        if after is Some {
            lemma_lex_less_transitive(after->0@, last@, b[j]@);
        }
    }
    assert forall|i: int| 0 <= i < all.len() implies messages.contains_key(#[trigger] all[i])
        && eligible(all[i], messages[all[i]]) && is_after(after, all[i]) by {
        if i < a.len() {
            assert(all[i] == a[i]);
        } else {
            assert(all[i] == b[i - a.len()]);
        }
    }
    assert forall|i: int, j: int| 0 <= i < j < all.len() implies order(
        (#[trigger] all[i], messages[all[i]]),
        (#[trigger] all[j], messages[all[j]]),
    ) by {
        if j < a.len() {
            assert(all[i] == a[i] && all[j] == a[j]);
        } else {
            let y = b[j - a.len()];
            assert(all[j] == y);
            if i < a.len() {
                assert(all[i] == a[i]);
                assert(!a.contains(y));
            } else {
                assert(all[i] == b[i - a.len()]);
            }
        }
    }
    assert forall|k: [u8; 32]|
        messages.contains_key(k) && eligible(k, messages[k]) && is_after(after, k) && !(
        #[trigger] all.contains(k)) implies !a.contains(k) && !b.contains(k) && is_after(
        Some(last),
        k,
    ) by {
        if a.contains(k) {
            let q = choose|q: int| 0 <= q < a.len() && a[q] == k;
            assert(all[q] == k);
        }
        if b.contains(k) {
            let q = choose|q: int| 0 <= q < b.len() && b[q] == k;
            assert(all[q + a.len()] == k);
        }
        pages_miss_nothing(messages, eligible, after, limit, page, k);
    }
    assert forall|k: [u8; 32], i: int|
        messages.contains_key(k) && eligible(k, messages[k]) && is_after(after, k) && !(
        #[trigger] all.contains(k)) && 0 <= i < all.len() implies order(
        (#[trigger] all[i], messages[all[i]]),
        (k, messages[k]),
    ) by {
        if i < a.len() {
            assert(all[i] == a[i]);
        } else {
            assert(all[i] == b[i - a.len()]);
        }
    }
    assert forall|i: int| 0 <= i < (page + next).len() implies #[trigger] (page + next)[i]
        == messages[(page + next)[i].transient_id].metadata by {
        if i >= page.len() {
            assert((page + next)[i] == next[i - page.len()]);
        }
    }
    if all.len() != limit + more {
        assert forall|k: [u8; 32]|
            messages.contains_key(k) && eligible(k, messages[k]) && is_after(
                after,
                k,
            ) implies #[trigger] all.contains(k) by {
            if !all.contains(k) {
                pages_miss_nothing(messages, eligible, after, limit, page, k);
                pages_miss_nothing(messages, eligible, Some(last), more, next, k);
            }
        }
    }
    assert forall|long: Seq<StoredMessageMetadata>| #[trigger]
        is_metadata_page(messages, eligible, after, limit + more, long) implies long == page
        + next by {
        let ids = metadata_ids(long);
        lemma_first_determined(
            messages,
            |k: [u8; 32], m: StoredMessageModel| eligible(k, m) && is_after(after, k),
            order,
            limit + more,
            ids,
            all,
        );
        assert(long.len() == ids.len());
        assert forall|i: int| 0 <= i < long.len() implies long[i] == (page + next)[i] by {
            assert(ids[i] == long[i].transient_id);
            assert(all[i] == (page + next)[i].transient_id);
            assert(long[i] == messages[ids[i]].metadata);
        }
        assert(long =~= page + next);
    }
}

/// Walking the pages from cursor to cursor lists no message twice.
pub proof fn pages_repeat_nothing(
    messages: Map<[u8; 32], StoredMessageModel>,
    eligible: spec_fn([u8; 32], StoredMessageModel) -> bool,
    after: Option<[u8; 32]>,
    limit: nat,
    page: Seq<StoredMessageMetadata>,
    next: Seq<StoredMessageMetadata>,
)
    requires
        is_metadata_page(messages, eligible, after, limit, page),
        page.len() > 0,
        is_metadata_page(
            messages,
            eligible,
            Some(page[page.len() - 1].transient_id),
            limit,
            next,
        ),
    ensures
        metadata_ids(page).no_duplicates(),
        forall|k: [u8; 32]| #[trigger]
            metadata_ids(next).contains(k) ==> !metadata_ids(page).contains(k),
{
    let ids = metadata_ids(page);
    let order = by_id::<StoredMessageModel>();
    assert forall|i: int, j: int| 0 <= i < j < ids.len() implies #[trigger] ids[i]
        != #[trigger] ids[j] by {
        assert(order((ids[i], messages[ids[i]]), (ids[j], messages[ids[j]])));
        lemma_lex_less_asymmetric(ids[i]@, ids[j]@);
    }
    assert forall|k: [u8; 32]| #[trigger] metadata_ids(next).contains(k) implies !ids.contains(
        k,
    ) by {
        let j = choose|j: int| 0 <= j < metadata_ids(next).len() && metadata_ids(next)[j] == k;
        let last = ids[ids.len() - 1];
        assert(lex_less(last@, metadata_ids(next)[j]@));
        lemma_lex_less_asymmetric(last@, k@);
        if ids.contains(k) {
            let i = choose|i: int| 0 <= i < ids.len() && ids[i] == k;
            if i < ids.len() - 1 {
                assert(order((ids[i], messages[ids[i]]), (last, messages[last])));
                lemma_lex_less_asymmetric(ids[i]@, last@);
            }
        }
    }
}

/// Making room drops a heavier message before a lighter one.
pub proof fn heavier_messages_go_first(
    messages: Map<[u8; 32], StoredMessageModel>,
    bytes: usize,
    now: i64,
    prioritised: Set<[u8; 16]>,
    limit: nat,
    dropped: Seq<[u8; 32]>,
    light: [u8; 32],
    heavy: [u8; 32],
)
    requires
        is_weight_selection(messages, bytes, now, prioritised, limit, dropped),
        messages.contains_key(heavy),
        weight(messages[heavy].metadata, now, prioritised) > weight(
            messages[light].metadata,
            now,
            prioritised,
        ),
        dropped.contains(light),
    ensures
        dropped.contains(heavy),
{
    let i = choose|i: int| 0 <= i < dropped.len() && dropped[i] == light;
    if !dropped.contains(heavy) {
        assert(by_weight(now, prioritised)((dropped[i], messages[dropped[i]]), (
            heavy,
            messages[heavy],
        )));
    }
}

/// An identifier that was noted in a role is seen in that role, at the time of its last note, and
/// nothing else changes.
pub proof fn identifiers_are_seen_in_their_role(
    m: StorageModel,
    kind: TransientIdKind,
    id: [u8; 32],
    at: i64,
    other: TransientIdKind,
    k: [u8; 32],
)
    ensures
        ({
            let a = m.with_seen(kind, id, at);
            &&& a.seen(kind).contains_key(id)
            &&& a.seen(kind)[id] == at
            &&& k != id || other != kind ==> a.seen(other).contains_key(k) == m.seen(
                other,
            ).contains_key(k) && a.seen(other)[k] == m.seen(other)[k]
            &&& a == (StorageModel { delivered: a.delivered, processed: a.processed, ..m })
        }),
        m.seen(TransientIdKind::LocallyDelivered) == m.delivered,
        m.seen(TransientIdKind::LocallyProcessed) == m.processed,
{
}

/// Of identifiers that are noted one after the other each is seen, at the time of the last note
/// of it; those that are not among them stay as they were.
pub proof fn all_noted_identifiers_are_seen(
    m: StorageModel,
    entries: Seq<(TransientIdKind, [u8; 32], i64)>,
    i: int,
    kind: TransientIdKind,
    k: [u8; 32],
)
    ensures
        ({
            let a = m.with_all_seen(entries);
            &&& 0 <= i < entries.len() && (forall|j: int|
                i < j < entries.len() ==> (#[trigger] entries[j]).0 != entries[i].0 || entries[j].1
                    != entries[i].1) ==> a.seen(entries[i].0).contains_key(entries[i].1) && a.seen(
                entries[i].0,
            )[entries[i].1] == entries[i].2
            &&& (forall|j: int|
                0 <= j < entries.len() ==> (#[trigger] entries[j]).0 != kind || entries[j].1 != k)
                ==> a.seen(kind).contains_key(k) == m.seen(kind).contains_key(k) && a.seen(kind)[k]
                == m.seen(kind)[k]
            &&& a == (StorageModel { delivered: a.delivered, processed: a.processed, ..m })
        }),
    decreases entries.len(),
{
    if entries.len() > 0 {
        let front = entries.drop_last();
        let last = entries.last();
        all_noted_identifiers_are_seen(m, front, i, kind, k);
        assert(forall|j: int| 0 <= j < front.len() ==> #[trigger] front[j] == entries[j]);
        assert(entries[entries.len() - 1] == last);
        if 0 <= i < front.len() && (forall|j: int|
            i < j < entries.len() ==> (#[trigger] entries[j]).0 != entries[i].0 || entries[j].1
                != entries[i].1) {
            assert(last.0 != entries[i].0 || last.1 != entries[i].1);
        }
        if forall|j: int|
            0 <= j < entries.len() ==> (#[trigger] entries[j]).0 != kind || entries[j].1 != k {
            assert(last.0 != kind || last.1 != k);
            assert forall|j: int| 0 <= j < front.len() implies (#[trigger] front[j]).0 != kind
                || front[j].1 != k by {
                assert(entries[j].0 != kind || entries[j].1 != k);
            }
        }
    }
}

/// What was seen before a cutoff is forgotten, and what was seen at it or later is not.
pub proof fn identifiers_are_forgotten_by_age<K>(m: Map<K, i64>, cutoff: i64, k: K)
    ensures
        not_before(m, cutoff).contains_key(k) <==> m.contains_key(k) && !(m[k] < cutoff),
        not_before(m, cutoff).contains_key(k) ==> not_before(m, cutoff)[k] == m[k],
{
}

/// The orders go by identifier, by age, by weight, by when a message falls due and by when it was
/// created, and by identifier where that is the same.
pub proof fn orders_go_by_what_they_are_named_for(
    a: ([u8; 32], StoredMessageModel),
    b: ([u8; 32], StoredMessageModel),
    c: ([u8; 32], StoredOutboundModel),
    d: ([u8; 32], StoredOutboundModel),
    now: i64,
    prioritised: Set<[u8; 16]>,
)
    ensures
        by_id::<StoredMessageModel>()(a, b) <==> lex_less(a.0@, b.0@),
        a.1.metadata.stored_at < b.1.metadata.stored_at ==> by_age()(a, b) && !by_age()(b, a),
        a.1.metadata.stored_at == b.1.metadata.stored_at ==> (by_age()(a, b) <==> lex_less(
            a.0@,
            b.0@,
        )),
        weight(a.1.metadata, now, prioritised) > weight(b.1.metadata, now, prioritised)
            ==> by_weight(now, prioritised)(a, b) && !by_weight(now, prioritised)(b, a),
        weight(a.1.metadata, now, prioritised) == weight(b.1.metadata, now, prioritised) ==> (
        by_weight(now, prioritised)(a, b) <==> lex_less(a.0@, b.0@)),
        c.1.metadata.next_delivery_attempt < d.1.metadata.next_delivery_attempt ==> by_due_time()(
            c,
            d,
        ) && !by_due_time()(d, c),
        c.1.metadata.next_delivery_attempt == d.1.metadata.next_delivery_attempt ==> (by_due_time()(
            c,
            d,
        ) <==> lex_less(c.0@, d.0@)),
        rank(c.1.metadata.created_at) < rank(d.1.metadata.created_at) ==> by_creation()(c, d)
            && !by_creation()(d, c),
        rank(c.1.metadata.created_at) == rank(d.1.metadata.created_at) ==> (by_creation()(c, d)
            <==> lex_less(c.0@, d.0@)),
        payload_bytes()(a.1) == a.1.metadata.payload_size,
{
}

/// A stored message weighs its bytes times the seconds of its age, an age below four days
/// counting as four days, and ten times that where its destination is not prioritised.
pub proof fn stored_messages_weigh_bytes_times_age(
    m: StoredMessageMetadata,
    now: i64,
    prioritised: Set<[u8; 16]>,
)
    ensures
        ({
            let age = if now - m.stored_at > 345_600 {
                now - m.stored_at
            } else {
                345_600int
            };
            &&& prioritised.contains(m.destination_hash) ==> weight(m, now, prioritised) == age
                * m.payload_size
            &&& !prioritised.contains(m.destination_hash) ==> weight(m, now, prioritised) == 10 * (
            age * m.payload_size)
        }),
{
}

/// A page lists messages that are eligible and come after the cursor, by increasing identifier
/// and as they are stored; where it is not full, it lists all of them, and where it is, those
/// that it does not list come later.
pub proof fn pages_list_what_comes_next(
    messages: Map<[u8; 32], StoredMessageModel>,
    eligible: spec_fn([u8; 32], StoredMessageModel) -> bool,
    after: Option<[u8; 32]>,
    limit: nat,
    page: Seq<StoredMessageMetadata>,
    k: [u8; 32],
    i: int,
    j: int,
)
    requires
        is_metadata_page(messages, eligible, after, limit, page),
    ensures
        page.len() <= limit,
        0 <= i < page.len() ==> {
            let id = page[i].transient_id;
            &&& messages.contains_key(id)
            &&& page[i] == messages[id].metadata
            &&& eligible(id, messages[id])
            &&& after is Some ==> lex_less(after->0@, id@)
        },
        0 <= i < j < page.len() ==> lex_less(page[i].transient_id@, page[j].transient_id@),
        messages.contains_key(k) && eligible(k, messages[k]) && (after is None || lex_less(
            after->0@,
            k@,
        )) && !metadata_ids(page).contains(k) ==> page.len() == limit && (0 <= i < page.len()
            ==> lex_less(page[i].transient_id@, k@)),
{
    let ids = metadata_ids(page);
    let order = by_id::<StoredMessageModel>();
    if 0 <= i < page.len() {
        assert(ids[i] == page[i].transient_id);
        assert(messages.contains_key(ids[i]));
    }
    if 0 <= i < j < page.len() {
        assert(ids[j] == page[j].transient_id);
        assert(order((ids[i], messages[ids[i]]), (ids[j], messages[ids[j]])));
    }
    if messages.contains_key(k) && eligible(k, messages[k]) && (after is None || lex_less(
        after->0@,
        k@,
    )) && !ids.contains(k) && 0 <= i < page.len() {
        assert(order((ids[i], messages[ids[i]]), (k, messages[k])));
    }
}

/// The messages that are dropped for their age were stored before the cutoff; where fewer are
/// dropped than may be, none that was is left, and else none that is left is older.
pub proof fn old_messages_are_dropped(
    messages: Map<[u8; 32], StoredMessageModel>,
    cutoff: i64,
    limit: nat,
    keys: Seq<[u8; 32]>,
    gone: [u8; 32],
    left: [u8; 32],
)
    requires
        is_age_selection(messages, cutoff, limit, keys),
    ensures
        keys.len() <= limit,
        keys.contains(gone) ==> messages.contains_key(gone) && messages[gone].metadata.stored_at
            < cutoff,
        without(messages, keys).contains_key(left) && messages[left].metadata.stored_at < cutoff
            ==> keys.len() == limit && (keys.contains(gone) ==> messages[gone].metadata.stored_at
            <= messages[left].metadata.stored_at),
{
    if keys.contains(gone) {
        let i = keys.index_of(gone);
        assert(messages.contains_key(keys[i]));
        if without(messages, keys).contains_key(left) && messages[left].metadata.stored_at
            < cutoff {
            assert(by_age()((keys[i], messages[keys[i]]), (left, messages[left])));
        }
    }
}

/// A queued message is due once its time has come, in the queue that it is in; what is handed out
/// as due is due, each once and the earliest first, and a due message is left out only where the
/// page is full of ones that were due no later.
pub proof fn due_messages_are_handed_out(
    outbound: Map<[u8; 32], StoredOutboundModel>,
    now: i64,
    deferred: bool,
    limit: nat,
    page: Seq<StoredOutboundMetadata>,
    k: [u8; 32],
    i: int,
    j: int,
)
    requires
        is_due_page(outbound, now, deferred, limit, page),
    ensures
        page.len() <= limit,
        0 <= i < page.len() ==> {
            let id = page[i].message_id;
            &&& outbound.contains_key(id)
            &&& page[i] == outbound[id].metadata
            &&& page[i].deferred == deferred
            &&& page[i].next_delivery_attempt <= now
        },
        0 <= i < j < page.len() ==> page[i].message_id != page[j].message_id
            && page[i].next_delivery_attempt <= page[j].next_delivery_attempt,
        outbound.contains_key(k) && outbound[k].metadata.deferred == deferred
            && outbound[k].metadata.next_delivery_attempt <= now && !outbound_ids(page).contains(k)
            ==> page.len() == limit && (0 <= i < page.len() ==> page[i].next_delivery_attempt
            <= outbound[k].metadata.next_delivery_attempt),
{
    let ids = outbound_ids(page);
    if 0 <= i < page.len() {
        assert(outbound.contains_key(page[i].message_id));
        assert(ids[i] == page[i].message_id);
    }
    if 0 <= i < j < page.len() {
        assert(ids[j] == page[j].message_id);
    }
}

/// The latest values come first and are eligible; where the page is not full every eligible value
/// is on it.
pub proof fn the_latest_come_first<V>(
    m: Map<[u8; 16], V>,
    eligible: spec_fn(V) -> bool,
    time: spec_fn(V) -> i64,
    limit: nat,
    page: Seq<V>,
    k: [u8; 16],
    i: int,
    j: int,
)
    requires
        is_latest_first(m, eligible, time, limit, page),
    ensures
        page.len() <= limit,
        0 <= i < page.len() ==> eligible(page[i]) && exists|x: [u8; 16]| #[trigger]
            m.contains_key(x) && m[x] == page[i],
        0 <= i < j < page.len() ==> time(page[i]) >= time(page[j]),
        m.contains_key(k) && eligible(m[k]) && !page.contains(m[k]) ==> page.len() == limit && (0
            <= i < page.len() ==> time(page[i]) >= time(m[k])),
{
    let keys = choose|keys: Seq<[u8; 16]>|
        {
            &&& keys.no_duplicates()
            &&& #[trigger] keys.len() == page.len()
            &&& keys.len() <= limit
            &&& forall|i: int|
                0 <= i < keys.len() ==> m.contains_key(#[trigger] keys[i]) && m[keys[i]] == page[i]
                    && eligible(page[i])
            &&& forall|i: int, j: int|
                0 <= i < j < page.len() ==> time(#[trigger] page[i]) >= time(#[trigger] page[j])
            &&& forall|k: [u8; 16], i: int|
                m.contains_key(k) && eligible(m[k]) && !(#[trigger] keys.contains(k)) && 0 <= i
                    < page.len() ==> time(#[trigger] page[i]) >= time(m[k])
            &&& keys.len() == limit || forall|k: [u8; 16]|
                m.contains_key(k) && eligible(m[k]) ==> #[trigger] keys.contains(k)
        };
    if 0 <= i < page.len() {
        assert(m.contains_key(keys[i]) && m[keys[i]] == page[i]);
    }
    if m.contains_key(k) && eligible(m[k]) && !page.contains(m[k]) {
        if keys.contains(k) {
            let at = keys.index_of(k);
            assert(m[keys[at]] == page[at]);
            assert(page[at] == m[k]);
        }
    }
}

/// Storing a message changes nothing but the messages, and only where it was not stored before;
/// it is to be stored where its size is that of its payload.
pub proof fn storing_a_message_changes_nothing_else(m: StorageModel, message: StoredMessageModel)
    ensures
        inserted(m, message).0 <==> !m.messages.contains_key(message.metadata.transient_id),
        !inserted(m, message).0 ==> inserted(m, message).1 == m,
        inserted(m, message).0 ==> inserted(m, message).1.messages == m.messages.insert(
            message.metadata.transient_id,
            message,
        ),
        inserted(m, message).1 == (StorageModel {
            messages: inserted(m, message).1.messages,
            ..m
        }),
        is_consistent(message) <==> message.payload.len() == message.metadata.payload_size,
{
}

/// An entry is of the wanted kind where that kind is its own, or any is wanted.
pub proof fn queues_are_told_apart(m: StoredOutboundModel)
    ensures
        wanted_queue(None, m),
        wanted_queue(Some(true), m) <==> m.metadata.deferred,
        wanted_queue(Some(false), m) <==> !m.metadata.deferred,
{
}

/// A list of peers gives each of them, with what comes last under its hash, and no other.
pub proof fn listed_peers_are_kept(peers: Seq<([u8; 16], Vec<u8>)>, k: [u8; 16], i: int)
    ensures
        peer_map(peers).contains_key(k) <==> exists|j: int|
            0 <= j < peers.len() && (#[trigger] peers[j]).0 == k,
        0 <= i < peers.len() && (forall|j: int|
            i < j < peers.len() ==> (#[trigger] peers[j]).0 != peers[i].0) ==> peer_map(
            peers,
        )[peers[i].0] == peers[i].1@,
    decreases peers.len(),
{
    if peers.len() > 0 {
        let front = peers.drop_last();
        listed_peers_are_kept(front, k, i);
        assert(forall|j: int| 0 <= j < front.len() ==> #[trigger] front[j] == peers[j]);
        assert(peers[peers.len() - 1] == peers.last());
        if exists|j: int| 0 <= j < peers.len() && (#[trigger] peers[j]).0 == k {
            let j = choose|j: int| 0 <= j < peers.len() && (#[trigger] peers[j]).0 == k;
            if j < front.len() {
                assert(front[j].0 == k);
            }
        }
        if exists|j: int| 0 <= j < front.len() && (#[trigger] front[j]).0 == k {
            let j = choose|j: int| 0 <= j < front.len() && (#[trigger] front[j]).0 == k;
            assert(peers[j].0 == k);
        }
    }
}

/// Byte strings that are put in are kept under their names, the last of each, and nothing else
/// changes.
pub proof fn named_bytes_are_kept(
    s: StorageModel,
    entries: Seq<(Seq<char>, Seq<u8>)>,
    name: Seq<char>,
    i: int,
)
    ensures
        ({
            let a = with_blobs(s, entries);
            &&& 0 <= i < entries.len() && (forall|j: int|
                i < j < entries.len() ==> (#[trigger] entries[j]).0 != entries[i].0)
                ==> a.state_blobs.contains_key(entries[i].0) && a.state_blobs[entries[i].0]
                == entries[i].1
            &&& (forall|j: int| 0 <= j < entries.len() ==> (#[trigger] entries[j]).0 != name)
                ==> a.state_blobs.contains_key(name) == s.state_blobs.contains_key(name)
                && a.state_blobs[name] == s.state_blobs[name]
            &&& a == (StorageModel { state_blobs: a.state_blobs, ..s })
        }),
    decreases entries.len(),
{
    if entries.len() > 0 {
        let front = entries.drop_last();
        named_bytes_are_kept(s, front, name, i);
        assert(forall|j: int| 0 <= j < front.len() ==> #[trigger] front[j] == entries[j]);
        assert(entries[entries.len() - 1] == entries.last());
        if 0 <= i < front.len() && (forall|j: int|
            i < j < entries.len() ==> (#[trigger] entries[j]).0 != entries[i].0) {
            assert(entries.last().0 != entries[i].0);
        }
        if forall|j: int| 0 <= j < entries.len() ==> (#[trigger] entries[j]).0 != name {
            assert(entries.last().0 != name);
            assert forall|j: int| 0 <= j < front.len() implies (#[trigger] front[j]).0 != name by {
                assert(entries[j].0 != name);
            }
        }
    }
}

} // verus!
