//! A storage backend in memory.

use vstd::prelude::*;

use crate::bytes::{
    copy_slice, is_less, lemma_lex_less_asymmetric, lemma_lex_less_total, lemma_lex_less_transitive,
    lex_less, list_contains, members, same, same_text,
};
use crate::clock::{rank, rank_of};
use crate::select::{elapsed, first, outweighs, select, shed, strict_order};
use crate::storage::{
    by_age, by_creation, by_due_time, by_id, by_weight, cursor, is_after, is_age_selection,
    is_consistent, is_due, is_latest_first, is_metadata_page, is_weight_selection, lemma_orders,
    metadata_ids, outbound_ids, payload_bytes, peer_map, wanted_queue, weight, LxmfStorage,
    MessageStoreStats, StorageError, StorageMaintenance, StorageModel, StoredIdentity,
    StoredMessage, StoredMessageMetadata, StoredMessageModel, StoredOutboundMessage,
    StoredOutboundMetadata, StoredOutboundModel, StoredRatchet, StoredStampCost, TransientIdKind,
    WEIGHT_BASE_AGE,
};
use crate::table::{
    as_map, distinct_keys, lemma_as_map, lemma_as_map_update, lemma_without_len, without, Table,
};
use crate::ticket::{admits, Ticket};
use crate::types::PropagationTransientId;

verus! {

/// A record that carries its own identifier.
pub trait Keyed: View + Sized {
    /// The identifier of a record.
    spec fn key(record: Self::V) -> [u8; 32];

    /// The identifier of this record.
    fn own_key(&self) -> (k: [u8; 32])
        ensures
            k == Self::key(self@),
    ;
}

impl Keyed for StoredMessage {
    open spec fn key(record: StoredMessageModel) -> [u8; 32] {
        record.metadata.transient_id
    }

    fn own_key(&self) -> (k: [u8; 32]) {
        self.metadata.transient_id
    }
}

impl Keyed for StoredOutboundMessage {
    open spec fn key(record: StoredOutboundModel) -> [u8; 32] {
        record.metadata.message_id
    }

    fn own_key(&self) -> (k: [u8; 32]) {
        self.metadata.message_id
    }
}

/// Whether every record is filed under its own identifier.
pub open spec fn filed<V: Keyed>(m: Map<[u8; 32], V::V>) -> bool {
    forall|k: [u8; 32]| #[trigger] m.contains_key(k) ==> V::key(m[k]) == k
}

/// Records filed under their own identifiers.
pub struct Shelf<V: Keyed> {
    table: Table<32, V>,
}

impl<V: Keyed> Shelf<V> {
    #[verifier::type_invariant]
    spec fn well_formed(self) -> bool {
        filed::<V>(self.table@)
    }
}

impl<V: Keyed> View for Shelf<V> {
    type V = Map<[u8; 32], V::V>;

    closed spec fn view(&self) -> Map<[u8; 32], V::V> {
        self.table@
    }
}

impl<V: Keyed> Shelf<V> {
    /// An empty shelf.
    pub fn new() -> (s: Self)
        ensures
            s@ == Map::<[u8; 32], V::V>::empty(),
    {
        Shelf { table: Table::new() }
    }

    /// The records.
    pub fn table(&self) -> (t: &Table<32, V>)
        ensures
            t@ == self@,
            filed::<V>(self@),
    {
        proof {
            use_type_invariant(self);
        }
        &self.table
    }

    /// Files a record, in the place of one with its identifier.
    pub fn put(&mut self, record: V)
        ensures
            final(self)@ == old(self)@.insert(V::key(record@), record@),
    {
        proof {
            use_type_invariant(&*self);
        }
        let mut table: Table<32, V> = Table::new();
        std::mem::swap(&mut table, &mut self.table);
        let key = record.own_key();
        table.insert(key, record);
        self.table = table;
    }

    /// Takes a record out.
    pub fn remove(&mut self, key: &[u8; 32]) -> (r: Option<V>)
        ensures
            final(self)@ == old(self)@.remove(*key),
            r is Some <==> old(self)@.contains_key(*key),
            r matches Some(v) ==> v@ == old(self)@[*key],
    {
        proof {
            use_type_invariant(&*self);
        }
        let mut table: Table<32, V> = Table::new();
        std::mem::swap(&mut table, &mut self.table);
        let r = table.remove(key);
        self.table = table;
        r
    }

    /// Takes several records out.
    pub fn remove_all(&mut self, keys: &Vec<[u8; 32]>)
        ensures
            final(self)@ == without(old(self)@, keys@),
    {
        proof {
            use_type_invariant(&*self);
        }
        let mut table: Table<32, V> = Table::new();
        std::mem::swap(&mut table, &mut self.table);
        table.remove_all(keys);
        self.table = table;
    }
}

/// Byte strings filed under names.
#[derive(Debug)]
pub struct BlobTable {
    entries: Vec<(String, Vec<u8>)>,
}

impl BlobTable {
    /// The entries in the order in which their names were first used.
    pub closed spec fn list(&self) -> Seq<(Seq<char>, Seq<u8>)> {
        Seq::new(self.entries@.len(), |i: int| (self.entries@[i].0@, self.entries@[i].1@))
    }

    #[verifier::type_invariant]
    spec fn well_formed(self) -> bool {
        distinct_keys(self.list())
    }
}

impl View for BlobTable {
    type V = Map<Seq<char>, Seq<u8>>;

    open spec fn view(&self) -> Map<Seq<char>, Seq<u8>> {
        as_map(self.list())
    }
}

impl BlobTable {
    /// No byte strings.
    pub fn new() -> (t: Self)
        ensures
            t@ == Map::<Seq<char>, Seq<u8>>::empty(),
    {
        let t = BlobTable { entries: Vec::new() };
        assert(t.list() =~= Seq::<(Seq<char>, Seq<u8>)>::empty());
        t
    }

    fn position(&self, name: &str) -> (r: Option<usize>)
        ensures
            distinct_keys(self.list()),
            r matches Some(i) ==> i < self.list().len() && self.list()[i as int].0 == name@
                && self@.contains_key(name@) && self@[name@] == self.list()[i as int].1,
            r is None ==> !self@.contains_key(name@),
            r is None ==> forall|i: int|
                0 <= i < self.list().len() ==> (#[trigger] self.list()[i]).0 != name@,
    {
        proof {
            use_type_invariant(self);
            lemma_as_map(self.list());
        }
        let mut i: usize = 0;
        while i < self.entries.len()
            invariant
                i <= self.entries@.len(),
                forall|j: int| 0 <= j < i ==> self.list()[j].0 != name@,
            decreases self.entries@.len() - i,
        {
            if same_text(self.entries[i].0.as_str(), name) {
                assert(self.list()[i as int].0 == name@);
                proof {
                    use_type_invariant(self);
                    lemma_as_map(self.list());
                }
                return Some(i);
            }
            i = i + 1;
        }
        None
    }

    /// The byte string filed under a name.
    pub fn get(&self, name: &str) -> (r: Option<Vec<u8>>)
        ensures
            r is Some <==> self@.contains_key(name@),
            r matches Some(v) ==> v@ == self@[name@],
    {
        match self.position(name) {
            Some(i) => Some(copy_slice(self.entries[i].1.as_slice())),
            None => None,
        }
    }

    /// Files a byte string under a name, in the place of what was there.
    pub fn put(&mut self, name: &str, value: &[u8])
        ensures
            final(self)@ == old(self)@.insert(name@, value@),
    {
        let at = self.position(name);
        let ghost before = self.list();
        let mut entries: Vec<(String, Vec<u8>)> = Vec::new();
        std::mem::swap(&mut entries, &mut self.entries);
        let entry = (name.to_owned(), copy_slice(value));
        match at {
            Some(i) => {
                proof {
                    lemma_as_map_update(before, i as int, value@);
                }
                entries.set(i, entry);
                assert(Seq::new(entries@.len(), |k: int| (entries@[k].0@, entries@[k].1@))
                    =~= before.update(i as int, (name@, value@)));
                self.entries = entries;
                assert(self.list() =~= before.update(i as int, (name@, value@)));
            },
            None => {
                let ghost after = before.push((name@, value@));
                assert(after.drop_last() =~= before);
                entries.push(entry);
                assert forall|a: int, b: int| 0 <= a < b < after.len() implies after[a].0
                    != after[b].0 by {
                    if b == before.len() {
                        assert(before[a].0 != name@);
                    }
                }
                assert(Seq::new(entries@.len(), |k: int| (entries@[k].0@, entries@[k].1@))
                    =~= after);
                self.entries = entries;
                assert(self.list() =~= after);
            },
        }
    }
}

/// A backend that keeps everything in memory.
pub struct MemoryStorage {
    delivered: Table<32, i64>,
    processed: Table<32, i64>,
    messages: Shelf<StoredMessage>,
    outbound: Shelf<StoredOutboundMessage>,
    tickets: Table<16, Ticket>,
    stamp_costs: Table<16, StoredStampCost>,
    identities: Table<16, StoredIdentity>,
    ratchets: Table<16, StoredRatchet>,
    state_blobs: BlobTable,
    inbound: Table<32, (i64, Vec<u8>)>,
    peers: Table<16, Vec<u8>>,
}

/// The contents of a backend that holds nothing.
pub open spec fn empty_model() -> StorageModel {
    StorageModel {
        delivered: Map::empty(),
        processed: Map::empty(),
        messages: Map::empty(),
        outbound: Map::empty(),
        tickets: Map::empty(),
        stamp_costs: Map::empty(),
        identities: Map::empty(),
        ratchets: Map::empty(),
        state_blobs: Map::empty(),
        inbound: Map::empty(),
        peers: Map::empty(),
    }
}

impl MemoryStorage {
    /// An empty backend.
    pub fn new() -> (s: Self)
        ensures
            s.model() == empty_model(),
    {
        MemoryStorage {
            delivered: Table::new(),
            processed: Table::new(),
            messages: Shelf::new(),
            outbound: Shelf::new(),
            tickets: Table::new(),
            stamp_costs: Table::new(),
            identities: Table::new(),
            ratchets: Table::new(),
            state_blobs: BlobTable::new(),
            inbound: Table::new(),
            peers: Table::new(),
        }
    }
}

/// The first `limit` messages after a cursor, by identifier, of one destination or of
/// all.
fn metadata_page(
    messages: &Shelf<StoredMessage>,
    destination: Option<&[u8; 16]>,
    after: Option<&PropagationTransientId>,
    limit: usize,
) -> (page: Vec<StoredMessageMetadata>)
    ensures
        is_metadata_page(
            messages@,
            |k: [u8; 32], m: StoredMessageModel| addressed(destination, m),
            cursor(after),
            limit as nat,
            page@,
        ),
{
    let table = messages.table();
    let ghost eligible = |k: [u8; 32], m: StoredMessageModel|
        addressed(destination, m) && is_after(cursor(after), k);
    let ghost before = by_id::<StoredMessageModel>();
    let accepts = |k: &[u8; 32], m: &StoredMessage| -> (b: bool)
        ensures
            b == (addressed(destination, m@) && is_after(cursor(after), *k)),
        {
            let reached = match after {
                Some(id) => is_less(id, k),
                None => true,
            };
            let wanted = match destination {
                Some(d) => same(&m.metadata.destination_hash, d),
                None => true,
            };
            reached && wanted
        };
    let precedes = |k: &[u8; 32], m: &StoredMessage, l: &[u8; 32], n: &StoredMessage| -> (b: bool)
        ensures
            b == lex_less(k@, l@),
        { is_less(k, l) };
    proof {
        lemma_orders(0, Set::empty());
    }
    let keys = select(table, accepts, precedes, limit, Ghost(eligible), Ghost(before));
    let mut page: Vec<StoredMessageMetadata> = Vec::new();
    let mut i: usize = 0;
    while i < keys.len()
        invariant
            i <= keys@.len(),
            page@.len() == i,
            table@ == messages@,
            filed::<StoredMessage>(messages@),
            forall|j: int| 0 <= j < keys@.len() ==> messages@.contains_key(#[trigger] keys@[j]),
            forall|j: int|
                0 <= j < i ==> (#[trigger] page@[j]) == messages@[keys@[j]].metadata
                    && page@[j].transient_id == keys@[j],
        decreases keys@.len() - i,
    {
        match table.get(&keys[i]) {
            Some(m) => {
                assert(StoredMessage::key(messages@[keys@[i as int]]) == keys@[i as int]);
                page.push(m.metadata);
            },
            None => {},
        }
        i = i + 1;
    }
    assert(metadata_ids(page@) =~= keys@);
    page
}

/// Whether a message is for a destination; every message is where none is given.
pub open spec fn addressed(destination: Option<&[u8; 16]>, m: StoredMessageModel) -> bool {
    match destination {
        Some(d) => m.metadata.destination_hash == *d,
        None => true,
    }
}

/// The heaviest messages that together free `bytes`.
fn weight_selection(
    messages: &Shelf<StoredMessage>,
    bytes: usize,
    now: i64,
    prioritised: &Vec<[u8; 16]>,
    limit: usize,
) -> (chosen: Vec<[u8; 32]>)
    ensures
        is_weight_selection(
            messages@,
            bytes,
            now,
            members(prioritised@),
            limit as nat,
            chosen@,
        ),
        chosen@.no_duplicates(),
{
    let ghost set = members(prioritised@);
    let ghost before = by_weight(now, set);
    let precedes = |k: &[u8; 32], m: &StoredMessage, l: &[u8; 32], n: &StoredMessage| -> (b: bool)
        ensures
            b == (weight(m.metadata, now, members(prioritised@)) > weight(
                n.metadata,
                now,
                members(prioritised@),
            ) || weight(m.metadata, now, members(prioritised@)) == weight(
                n.metadata,
                now,
                members(prioritised@),
            ) && lex_less(k@, l@)),
        {
            let (more, even) = outweighs(
                elapsed(m.metadata.stored_at, now),
                m.metadata.payload_size,
                list_contains(prioritised, &m.metadata.destination_hash),
                elapsed(n.metadata.stored_at, now),
                n.metadata.payload_size,
                list_contains(prioritised, &n.metadata.destination_hash),
                WEIGHT_BASE_AGE,
            );
            more || (even && is_less(k, l))
        };
    let size_of = |m: &StoredMessage| -> (n: usize)
        ensures
            n == m.metadata.payload_size,
        { m.metadata.payload_size };
    proof {
        lemma_orders(now, set);
    }
    shed(messages.table(), precedes, size_of, bytes, limit, Ghost(before), Ghost(payload_bytes()))
}

impl LxmfStorage for MemoryStorage {
    closed spec fn model(&self) -> StorageModel {
        StorageModel {
            delivered: self.delivered@,
            processed: self.processed@,
            messages: self.messages@,
            outbound: self.outbound@,
            tickets: self.tickets@,
            stamp_costs: self.stamp_costs@,
            identities: self.identities@,
            ratchets: self.ratchets@,
            state_blobs: self.state_blobs@,
            inbound: self.inbound@,
            peers: self.peers@,
        }
    }

    open spec fn reliable(&self) -> bool {
        true
    }

    fn contains_transient_id(
        &self,
        kind: TransientIdKind,
        transient_id: &PropagationTransientId,
    ) -> (r: Result<bool, StorageError>)
    {
        match kind {
            TransientIdKind::LocallyDelivered => Ok(self.delivered.contains_key(transient_id)),
            TransientIdKind::LocallyProcessed => Ok(self.processed.contains_key(transient_id)),
        }
    }

    fn upsert_transient_id(
        &mut self,
        kind: TransientIdKind,
        transient_id: PropagationTransientId,
        seen_at: i64,
    ) -> (r: Result<(), StorageError>)
    {
        match kind {
            TransientIdKind::LocallyDelivered => {
                self.delivered.insert(transient_id, seen_at);
            },
            TransientIdKind::LocallyProcessed => {
                self.processed.insert(transient_id, seen_at);
            },
        }
        Ok(())
    }

    fn upsert_transient_ids(
        &mut self,
        entries: &Vec<(TransientIdKind, PropagationTransientId, i64)>,
    ) -> (r: Result<(), StorageError>)
    {
        let ghost before = self.model();
        let mut i: usize = 0;
        assert(entries@.take(0) =~= Seq::<(TransientIdKind, [u8; 32], i64)>::empty());
        while i < entries.len()
            invariant
                i <= entries@.len(),
                self.model() == before.with_all_seen(entries@.take(i as int)),
            decreases entries@.len() - i,
        {
            proof {
                assert(entries@.take(i + 1).drop_last() =~= entries@.take(i as int));
            }
            let (kind, id, at) = entries[i];
            let _ = self.upsert_transient_id(kind, id, at);
            i = i + 1;
        }
        assert(entries@.take(i as int) =~= entries@);
        Ok(())
    }

    fn cull_transient_ids_before(&mut self, cutoff: i64) -> (r: Result<usize, StorageError>)
    {
        let ghost test = |k: [u8; 32], at: i64| at >= cutoff;
        let delivered_before = self.delivered.len();
        let processed_before = self.processed.len();
        let keep = |k: &[u8; 32], at: &i64| -> (b: bool)
            ensures
                b == (*at >= cutoff),
            { *at >= cutoff };
        self.delivered.retain(keep, Ghost(test));
        self.processed.retain(keep, Ghost(test));
        let delivered = delivered_before - self.delivered.len();
        let processed = processed_before - self.processed.len();
        Ok(delivered.saturating_add(processed))
    }

    fn transient_id_count(&self, kind: TransientIdKind) -> (r: Result<usize, StorageError>)
    {
        match kind {
            TransientIdKind::LocallyDelivered => Ok(self.delivered.len()),
            TransientIdKind::LocallyProcessed => Ok(self.processed.len()),
        }
    }

    fn insert_message(&mut self, message: &StoredMessage) -> (r: Result<bool, StorageError>)
        ensures
            r is Ok <==> is_consistent(message@),
            r matches Err(e) ==> e is InvalidData,
    {
        if message.metadata.payload_size != message.payload.len() {
            return Err(
                StorageError::InvalidData(
                    "payload_size does not match payload length".to_owned(),
                ),
            );
        }
        if self.messages.table().contains_key(&message.metadata.transient_id) {
            return Ok(false);
        }
        self.messages.put(message.copy());
        Ok(true)
    }

    fn message_metadata(&self, transient_id: &PropagationTransientId) -> (r: Result<
        Option<StoredMessageMetadata>,
        StorageError,
    >)
    {
        match self.messages.table().get(transient_id) {
            Some(m) => Ok(Some(m.metadata)),
            None => Ok(None),
        }
    }

    fn message_payload(&self, transient_id: &PropagationTransientId) -> (r: Result<
        Option<Vec<u8>>,
        StorageError,
    >)
    {
        match self.messages.table().get(transient_id) {
            Some(m) => Ok(Some(copy_slice(m.payload.as_slice()))),
            None => Ok(None),
        }
    }

    fn message_metadata_page(
        &self,
        after: Option<&PropagationTransientId>,
        limit: usize,
    ) -> (r: Result<Vec<StoredMessageMetadata>, StorageError>)
    {
        let page = metadata_page(&self.messages, None, after, limit);
        proof {
            lemma_same_eligibility(
                self.messages@,
                |k: [u8; 32], m: StoredMessageModel| addressed(None, m),
                |k: [u8; 32], m: StoredMessageModel| true,
                cursor(after),
                limit as nat,
                page@,
            );
        }
        Ok(page)
    }

    fn message_metadata_for_destination(
        &self,
        destination_hash: &[u8; 16],
        after: Option<&PropagationTransientId>,
        limit: usize,
    ) -> (r: Result<Vec<StoredMessageMetadata>, StorageError>)
    {
        let page = metadata_page(&self.messages, Some(destination_hash), after, limit);
        proof {
            lemma_same_eligibility(
                self.messages@,
                |k: [u8; 32], m: StoredMessageModel| addressed(Some(destination_hash), m),
                |k: [u8; 32], m: StoredMessageModel|
                    m.metadata.destination_hash == *destination_hash,
                cursor(after),
                limit as nat,
                page@,
            );
        }
        Ok(page)
    }

    fn remove_message(&mut self, transient_id: &PropagationTransientId) -> (r: Result<
        bool,
        StorageError,
    >)
    {
        Ok(self.messages.remove(transient_id).is_some())
    }

    fn set_message_collected(
        &mut self,
        transient_id: &PropagationTransientId,
        collected: bool,
    ) -> (r: Result<bool, StorageError>)
    {
        let _ = self.messages.table();
        let ghost before = self.messages@;
        match self.messages.remove(transient_id) {
            Some(mut message) => {
                message.metadata.collected = collected;
                self.messages.put(message);
                proof {
                    assert(StoredMessage::key(before[*transient_id]) == *transient_id);
                    assert(self.messages@ =~= before.insert(*transient_id, message@));
                }
                Ok(true)
            },
            None => {
                assert(before.remove(*transient_id) =~= before);
                Ok(false)
            },
        }
    }

    fn message_store_stats(&self) -> (r: Result<MessageStoreStats, StorageError>)
    {
        let table = self.messages.table();
        let size_of = |m: &StoredMessage| -> (n: usize)
            ensures
                n == m.metadata.payload_size,
            { m.metadata.payload_size };
        let ghost size = |m: StoredMessageModel| m.metadata.payload_size as nat;
        let count = table.len();
        let total = table.total(size_of, Ghost(size));
        Ok(MessageStoreStats { count, payload_size: total })
    }

    fn remove_messages_stored_before(&mut self, cutoff: i64, limit: usize) -> (r: Result<
        usize,
        StorageError,
    >)
    {
        let ghost eligible = |k: [u8; 32], m: StoredMessageModel| m.metadata.stored_at < cutoff;
        let ghost before = by_age();
        let accepts = |k: &[u8; 32], m: &StoredMessage| -> (b: bool)
            ensures
                b == (m.metadata.stored_at < cutoff),
            { m.metadata.stored_at < cutoff };
        let precedes = |
            k: &[u8; 32],
            m: &StoredMessage,
            l: &[u8; 32],
            n: &StoredMessage,
        | -> (b: bool)
            ensures
                b == (m.metadata.stored_at < n.metadata.stored_at || m.metadata.stored_at
                    == n.metadata.stored_at && lex_less(k@, l@)),
            {
                m.metadata.stored_at < n.metadata.stored_at || (m.metadata.stored_at
                    == n.metadata.stored_at && is_less(k, l))
            };
        proof {
            lemma_orders(0, Set::empty());
        }
        let keys = select(
            self.messages.table(),
            accepts,
            precedes,
            limit,
            Ghost(eligible),
            Ghost(before),
        );
        assert(is_age_selection(self.model().messages, cutoff, limit as nat, keys@));
        let _ = self.messages.table().len();
        proof {
            lemma_without_len(self.messages@, keys@);
        }
        self.messages.remove_all(&keys);
        Ok(keys.len())
    }

    fn remove_messages_by_weight(
        &mut self,
        bytes_to_remove: usize,
        now: i64,
        prioritised_destinations: &Vec<[u8; 16]>,
        limit: usize,
    ) -> (r: Result<usize, StorageError>)
    {
        let keys = weight_selection(
            &self.messages,
            bytes_to_remove,
            now,
            prioritised_destinations,
            limit,
        );
        assert(is_weight_selection(
            self.model().messages,
            bytes_to_remove,
            now,
            members(prioritised_destinations@),
            limit as nat,
            keys@,
        ));
        let _ = self.messages.table().len();
        proof {
            lemma_without_len(self.messages@, keys@);
        }
        self.messages.remove_all(&keys);
        Ok(keys.len())
    }

    fn upsert_outbound_message(&mut self, message: &StoredOutboundMessage) -> (r: Result<
        (),
        StorageError,
    >)
    {
        self.outbound.put(message.copy());
        Ok(())
    }

    fn outbound_message(&self, message_id: &[u8; 32]) -> (r: Result<
        Option<StoredOutboundMessage>,
        StorageError,
    >)
    {
        match self.outbound.table().get(message_id) {
            Some(m) => Ok(Some(m.copy())),
            None => Ok(None),
        }
    }

    fn outbound_ready(&self, now: i64, deferred: bool, limit: usize) -> (r: Result<
        Vec<StoredOutboundMetadata>,
        StorageError,
    >)
    {
        let table = self.outbound.table();
        let ghost eligible = |k: [u8; 32], m: StoredOutboundModel| is_due(m, now, deferred);
        let ghost before = by_due_time();
        let accepts = |k: &[u8; 32], m: &StoredOutboundMessage| -> (b: bool)
            ensures
                b == is_due(m@, now, deferred),
            { m.metadata.deferred == deferred && m.metadata.next_delivery_attempt <= now };
        let precedes = |
            k: &[u8; 32],
            m: &StoredOutboundMessage,
            l: &[u8; 32],
            n: &StoredOutboundMessage,
        | -> (b: bool)
            ensures
                b == (m.metadata.next_delivery_attempt < n.metadata.next_delivery_attempt
                    || m.metadata.next_delivery_attempt == n.metadata.next_delivery_attempt
                    && lex_less(k@, l@)),
            {
                m.metadata.next_delivery_attempt < n.metadata.next_delivery_attempt || (
                m.metadata.next_delivery_attempt == n.metadata.next_delivery_attempt && is_less(
                    k,
                    l,
                ))
            };
        proof {
            lemma_orders(0, Set::empty());
        }
        let keys = select(table, accepts, precedes, limit, Ghost(eligible), Ghost(before));
        let page = outbound_metadata(&self.outbound, &keys);
        proof {
            assert(outbound_ids(page@) =~= keys@);
            let m = self.outbound@;
            assert forall|i: int, j: int| 0 <= i < j < page@.len() implies (
            #[trigger] page@[i]).next_delivery_attempt <= (
            #[trigger] page@[j]).next_delivery_attempt by {
                assert(before((keys@[i], m[keys@[i]]), (keys@[j], m[keys@[j]])));
            }
            assert forall|k: [u8; 32], i: int|
                m.contains_key(k) && is_due(m[k], now, deferred)
                    && !(#[trigger] outbound_ids(page@).contains(k)) && 0 <= i
                    < page@.len() implies (#[trigger] page@[i]).next_delivery_attempt
                <= m[k].metadata.next_delivery_attempt by {
                assert(before((keys@[i], m[keys@[i]]), (k, m[k])));
            }
        }
        Ok(page)
    }

    fn outbound_metadata_page(&self, deferred: bool, limit: usize) -> (r: Result<
        Vec<StoredOutboundMetadata>,
        StorageError,
    >)
    {
        let table = self.outbound.table();
        let ghost eligible = |k: [u8; 32], m: StoredOutboundModel| m.metadata.deferred == deferred;
        let ghost before = by_creation();
        let accepts = |k: &[u8; 32], m: &StoredOutboundMessage| -> (b: bool)
            ensures
                b == (m.metadata.deferred == deferred),
            { m.metadata.deferred == deferred };
        let precedes = |
            k: &[u8; 32],
            m: &StoredOutboundMessage,
            l: &[u8; 32],
            n: &StoredOutboundMessage,
        | -> (b: bool)
            ensures
                b == (rank(m.metadata.created_at) < rank(n.metadata.created_at) || rank(
                    m.metadata.created_at,
                ) == rank(n.metadata.created_at) && lex_less(k@, l@)),
            {
                let a: i64 = rank_of(m.metadata.created_at);
                let b: i64 = rank_of(n.metadata.created_at);
                a < b || (a == b && is_less(k, l))
            };
        proof {
            lemma_orders(0, Set::empty());
        }
        let keys = select(table, accepts, precedes, limit, Ghost(eligible), Ghost(before));
        let page = outbound_metadata(&self.outbound, &keys);
        assert(outbound_ids(page@) =~= keys@);
        Ok(page)
    }

    fn update_outbound_delivery(&mut self, metadata: &StoredOutboundMetadata) -> (r: Result<
        bool,
        StorageError,
    >)
    {
        let ghost before = self.outbound@;
        match self.outbound.remove(&metadata.message_id) {
            Some(mut message) => {
                message.metadata = *metadata;
                self.outbound.put(message);
                assert(self.outbound@ =~= before.insert(metadata.message_id, message@));
                Ok(true)
            },
            None => {
                assert(before.remove(metadata.message_id) =~= before);
                Ok(false)
            },
        }
    }

    fn remove_outbound_message(&mut self, message_id: &[u8; 32]) -> (r: Result<bool, StorageError>)
    {
        Ok(self.outbound.remove(message_id).is_some())
    }

    fn outbound_count(&self, deferred: Option<bool>) -> (r: Result<usize, StorageError>)
    {
        let ghost test = |k: [u8; 32], m: StoredOutboundModel| wanted_queue(deferred, m);
        let accepts = |k: &[u8; 32], m: &StoredOutboundMessage| -> (b: bool)
            ensures
                b == wanted_queue(deferred, m@),
            {
                match deferred {
                    Some(d) => m.metadata.deferred == d,
                    None => true,
                }
            };
        Ok(self.outbound.table().count(accepts, Ghost(test)))
    }

    fn upsert_ticket(&mut self, ticket: &Ticket) -> (r: Result<(), StorageError>)
    {
        self.tickets.insert(ticket.token, *ticket);
        Ok(())
    }

    fn valid_ticket(&self, destination_hash: &[u8; 16], now: i64) -> (r: Result<
        Option<Ticket>,
        StorageError,
    >)
    {
        let count = self.tickets.len();
        let ghost es = self.tickets.entries();
        proof {
            lemma_as_map(es);
        }
        let mut i: usize = 0;
        while i < count
            invariant
                i <= count,
                count == es.len(),
                es == self.tickets.entries(),
                forall|j: int| 0 <= j < i ==> !admits((#[trigger] es[j]).1, *destination_hash, now),
            decreases count - i,
        {
            let t = *self.tickets.value_at(i);
            if same(&t.destination_hash, destination_hash) && t.is_valid(now) {
                assert(self.model().tickets.contains_key(es[i as int].0));
                return Ok(Some(t));
            }
            i = i + 1;
        }
        Ok(None)
    }

    fn remove_tickets(&mut self, destination_hash: &[u8; 16]) -> (r: Result<usize, StorageError>)
    {
        let before = self.tickets.len();
        let ghost test = |k: [u8; 16], t: Ticket| t.destination_hash != *destination_hash;
        let keep = |k: &[u8; 16], t: &Ticket| -> (b: bool)
            ensures
                b == (t.destination_hash != *destination_hash),
            { !same(&t.destination_hash, destination_hash) };
        self.tickets.retain(keep, Ghost(test));
        Ok(before - self.tickets.len())
    }

    fn cull_tickets(&mut self, cutoff: i64) -> (r: Result<usize, StorageError>)
    {
        let before = self.tickets.len();
        let ghost test = |k: [u8; 16], t: Ticket| !t.used && t.expires >= cutoff;
        let keep = |k: &[u8; 16], t: &Ticket| -> (b: bool)
            ensures
                b == (!t.used && t.expires >= cutoff),
            { !t.used && t.expires >= cutoff };
        self.tickets.retain(keep, Ghost(test));
        Ok(before - self.tickets.len())
    }

    fn upsert_stamp_cost(&mut self, entry: StoredStampCost) -> (r: Result<(), StorageError>)
    {
        self.stamp_costs.insert(entry.destination_hash, entry);
        Ok(())
    }

    fn stamp_cost(&self, destination_hash: &[u8; 16]) -> (r: Result<
        Option<StoredStampCost>,
        StorageError,
    >)
    {
        match self.stamp_costs.get(destination_hash) {
            Some(e) => Ok(Some(*e)),
            None => Ok(None),
        }
    }

    fn remove_stamp_cost(&mut self, destination_hash: &[u8; 16]) -> (r: Result<bool, StorageError>)
    {
        Ok(self.stamp_costs.remove(destination_hash).is_some())
    }

    fn cull_stamp_costs_before(&mut self, cutoff: i64) -> (r: Result<usize, StorageError>)
    {
        let before = self.stamp_costs.len();
        let ghost test = |k: [u8; 16], e: StoredStampCost| e.recorded_at >= cutoff;
        let keep = |k: &[u8; 16], e: &StoredStampCost| -> (b: bool)
            ensures
                b == (e.recorded_at >= cutoff),
            { e.recorded_at >= cutoff };
        self.stamp_costs.retain(keep, Ghost(test));
        Ok(before - self.stamp_costs.len())
    }

    fn stamp_cost_count(&self) -> (r: Result<usize, StorageError>)
    {
        Ok(self.stamp_costs.len())
    }

    fn upsert_identity(&mut self, identity: StoredIdentity) -> (r: Result<(), StorageError>)
    {
        self.identities.insert(identity.destination_hash, identity);
        Ok(())
    }

    fn identity(&self, destination_hash: &[u8; 16]) -> (r: Result<
        Option<StoredIdentity>,
        StorageError,
    >)
    {
        match self.identities.get(destination_hash) {
            Some(i) => Ok(Some(*i)),
            None => Ok(None),
        }
    }

    fn identity_page(&self, limit: usize) -> (r: Result<Vec<StoredIdentity>, StorageError>)
    {
        let ghost eligible = |k: [u8; 16], i: StoredIdentity| true;
        let ghost before = latest_first(|i: StoredIdentity| i.updated_at);
        let accepts = |k: &[u8; 16], i: &StoredIdentity| -> (b: bool)
            ensures
                b,
            { true };
        let precedes = |
            k: &[u8; 16],
            a: &StoredIdentity,
            l: &[u8; 16],
            c: &StoredIdentity,
        | -> (b: bool)
            ensures
                b == (a.updated_at > c.updated_at || a.updated_at == c.updated_at && lex_less(
                    k@,
                    l@,
                )),
            { a.updated_at > c.updated_at || (a.updated_at == c.updated_at && is_less(k, l)) };
        proof {
            lemma_latest_first(|i: StoredIdentity| i.updated_at);
        }
        let keys = select(
            &self.identities,
            accepts,
            precedes,
            limit,
            Ghost(eligible),
            Ghost(before),
        );
        let mut page: Vec<StoredIdentity> = Vec::new();
        let mut i: usize = 0;
        while i < keys.len()
            invariant
                i <= keys@.len(),
                page@.len() == i,
                forall|j: int|
                    0 <= j < keys@.len() ==> self.identities@.contains_key(#[trigger] keys@[j]),
                forall|j: int| 0 <= j < i ==> (#[trigger] page@[j]) == self.identities@[keys@[j]],
            decreases keys@.len() - i,
        {
            match self.identities.get(&keys[i]) {
                Some(v) => page.push(*v),
                None => {},
            }
            i = i + 1;
        }
        proof {
            lemma_latest_page(
                self.identities@,
                |i: StoredIdentity| true,
                |i: StoredIdentity| i.updated_at,
                eligible,
                limit as nat,
                keys@,
                page@,
            );
        }
        Ok(page)
    }

    fn upsert_ratchet(&mut self, ratchet: StoredRatchet) -> (r: Result<(), StorageError>)
    {
        self.ratchets.insert(ratchet.destination_hash, ratchet);
        Ok(())
    }

    fn ratchet(&self, destination_hash: &[u8; 16]) -> (r: Result<
        Option<StoredRatchet>,
        StorageError,
    >)
    {
        match self.ratchets.get(destination_hash) {
            Some(x) => Ok(Some(*x)),
            None => Ok(None),
        }
    }

    fn ratchet_page(&self, cutoff: i64, limit: usize) -> (r: Result<
        Vec<StoredRatchet>,
        StorageError,
    >)
    {
        let ghost eligible = |k: [u8; 16], x: StoredRatchet| x.received_at >= cutoff;
        let ghost before = latest_first(|x: StoredRatchet| x.received_at);
        let accepts = |k: &[u8; 16], x: &StoredRatchet| -> (b: bool)
            ensures
                b == (x.received_at >= cutoff),
            { x.received_at >= cutoff };
        let precedes = |
            k: &[u8; 16],
            a: &StoredRatchet,
            l: &[u8; 16],
            c: &StoredRatchet,
        | -> (b: bool)
            ensures
                b == (a.received_at > c.received_at || a.received_at == c.received_at && lex_less(
                    k@,
                    l@,
                )),
            { a.received_at > c.received_at || (a.received_at == c.received_at && is_less(k, l)) };
        proof {
            lemma_latest_first(|x: StoredRatchet| x.received_at);
        }
        let keys = select(
            &self.ratchets,
            accepts,
            precedes,
            limit,
            Ghost(eligible),
            Ghost(before),
        );
        let mut page: Vec<StoredRatchet> = Vec::new();
        let mut i: usize = 0;
        while i < keys.len()
            invariant
                i <= keys@.len(),
                page@.len() == i,
                forall|j: int|
                    0 <= j < keys@.len() ==> self.ratchets@.contains_key(#[trigger] keys@[j]),
                forall|j: int| 0 <= j < i ==> (#[trigger] page@[j]) == self.ratchets@[keys@[j]],
            decreases keys@.len() - i,
        {
            match self.ratchets.get(&keys[i]) {
                Some(v) => page.push(*v),
                None => {},
            }
            i = i + 1;
        }
        proof {
            lemma_latest_page(
                self.ratchets@,
                |x: StoredRatchet| x.received_at >= cutoff,
                |x: StoredRatchet| x.received_at,
                eligible,
                limit as nat,
                keys@,
                page@,
            );
        }
        Ok(page)
    }

    fn cull_ratchets_before(&mut self, cutoff: i64) -> (r: Result<usize, StorageError>)
    {
        let before = self.ratchets.len();
        let ghost test = |k: [u8; 16], x: StoredRatchet| x.received_at >= cutoff;
        let keep = |k: &[u8; 16], x: &StoredRatchet| -> (b: bool)
            ensures
                b == (x.received_at >= cutoff),
            { x.received_at >= cutoff };
        self.ratchets.retain(keep, Ghost(test));
        Ok(before - self.ratchets.len())
    }

    fn put_state_blob(&mut self, key: &str, value: &[u8]) -> (r: Result<(), StorageError>)
    {
        self.state_blobs.put(key, value);
        Ok(())
    }

    fn state_blob(&self, key: &str) -> (r: Result<Option<Vec<u8>>, StorageError>)
    {
        Ok(self.state_blobs.get(key))
    }

    fn insert_inbound_message(
        &mut self,
        message_id: [u8; 32],
        received_at: i64,
        encoded: &[u8],
    ) -> (r: Result<(), StorageError>)
        ensures
            final(self).model().inbound == old(self).model().inbound.insert(
                message_id,
                (received_at, encoded@),
            ),
    {
        self.inbound.insert(message_id, (received_at, copy_slice(encoded)));
        Ok(())
    }

    fn contains_inbound_message(&self, message_id: &[u8; 32]) -> (r: Result<bool, StorageError>)
    {
        Ok(self.inbound.contains_key(message_id))
    }

    fn replace_peers(&mut self, peers: &Vec<([u8; 16], Vec<u8>)>) -> (r: Result<(), StorageError>)
    {
        let mut table: Table<16, Vec<u8>> = Table::new();
        let mut i: usize = 0;
        assert(peers@.take(0) =~= Seq::<([u8; 16], Vec<u8>)>::empty());
        while i < peers.len()
            invariant
                i <= peers@.len(),
                table@ == peer_map(peers@.take(i as int)),
            decreases peers@.len() - i,
        {
            proof {
                assert(peers@.take(i + 1).drop_last() =~= peers@.take(i as int));
            }
            table.insert(peers[i].0, copy_slice(peers[i].1.as_slice()));
            i = i + 1;
        }
        assert(peers@.take(i as int) =~= peers@);
        self.peers = table;
        Ok(())
    }

    fn peer_page(&self, limit: usize) -> (r: Result<Vec<([u8; 16], Vec<u8>)>, StorageError>)
    {
        let count = self.peers.len();
        let ghost es = self.peers.entries();
        let mut page: Vec<([u8; 16], Vec<u8>)> = Vec::new();
        let mut i: usize = 0;
        while i < count && i < limit
            invariant
                i <= count,
                i <= limit,
                count == es.len(),
                es == self.peers.entries(),
                distinct_keys(es),
                page@.len() == i,
                forall|j: int|
                    0 <= j < i ==> (#[trigger] page@[j]).0 == es[j].0 && page@[j].1@ == es[j].1
                        && self.peers@.contains_key(es[j].0) && self.peers@[es[j].0] == es[j].1,
            decreases count - i,
        {
            let key = self.peers.key_at(i);
            let value = copy_slice(self.peers.value_at(i).as_slice());
            page.push((key, value));
            i = i + 1;
        }
        Ok(page)
    }

    fn maintain(&mut self, vacuum_pages: u32) -> (r: Result<StorageMaintenance, StorageError>)
    {
        Ok(StorageMaintenance::default())
    }
}

/// The metadata of some queued messages.
fn outbound_metadata(outbound: &Shelf<StoredOutboundMessage>, keys: &Vec<[u8; 32]>) -> (page: Vec<
    StoredOutboundMetadata,
>)
    requires
        forall|j: int| 0 <= j < keys@.len() ==> outbound@.contains_key(#[trigger] keys@[j]),
    ensures
        page@.len() == keys@.len(),
        forall|j: int|
            0 <= j < page@.len() ==> (#[trigger] page@[j]) == outbound@[keys@[j]].metadata
                && page@[j].message_id == keys@[j],
{
    let table = outbound.table();
    let mut page: Vec<StoredOutboundMetadata> = Vec::new();
    let mut i: usize = 0;
    while i < keys.len()
        invariant
            i <= keys@.len(),
            page@.len() == i,
            table@ == outbound@,
            filed::<StoredOutboundMessage>(outbound@),
            forall|j: int| 0 <= j < keys@.len() ==> outbound@.contains_key(#[trigger] keys@[j]),
            forall|j: int|
                0 <= j < i ==> (#[trigger] page@[j]) == outbound@[keys@[j]].metadata
                    && page@[j].message_id == keys@[j],
        decreases keys@.len() - i,
    {
        match table.get(&keys[i]) {
            Some(m) => {
                assert(StoredOutboundMessage::key(outbound@[keys@[i as int]]) == keys@[i as int]);
                page.push(m.metadata);
            },
            None => {},
        }
        i = i + 1;
    }
    page
}

/// The order from the latest to the earliest, by hash where two are equally late.
spec fn latest_first<V>(time: spec_fn(V) -> i64) -> spec_fn(([u8; 16], V), ([u8; 16], V)) -> bool {
    |a: ([u8; 16], V), b: ([u8; 16], V)|
        time(a.1) > time(b.1) || time(a.1) == time(b.1) && lex_less(a.0@, b.0@)
}

proof fn lemma_latest_first<V>(time: spec_fn(V) -> i64)
    ensures
        strict_order(latest_first(time)),
{
    assert forall|a: [u8; 16], b: [u8; 16]| a != b implies #[trigger] lex_less(a@, b@) || lex_less(
        b@,
        a@,
    ) by {
        lemma_lex_less_total(a@, b@);
        if a@ == b@ {
            assert(a =~= b);
        }
    }
    assert forall|a: [u8; 16]| !(#[trigger] lex_less(a@, a@)) by {
        lemma_lex_less_asymmetric(a@, a@);
    }
    assert forall|a: [u8; 16], b: [u8; 16], c: [u8; 16]| #[trigger]
        lex_less(a@, b@) && #[trigger] lex_less(b@, c@) implies lex_less(a@, c@) by {
        lemma_lex_less_transitive(a@, b@, c@);
    }
}

proof fn lemma_latest_page<V>(
    m: Map<[u8; 16], V>,
    wanted: spec_fn(V) -> bool,
    time: spec_fn(V) -> i64,
    eligible: spec_fn([u8; 16], V) -> bool,
    limit: nat,
    keys: Seq<[u8; 16]>,
    page: Seq<V>,
)
    requires
        forall|k: [u8; 16], v: V| #[trigger] eligible(k, v) == wanted(v),
        first(m, eligible, latest_first(time), limit, keys),
        keys.no_duplicates(),
        keys.len() == page.len(),
        forall|i: int| 0 <= i < page.len() ==> (#[trigger] page[i]) == m[keys[i]],
    ensures
        is_latest_first(m, wanted, time, limit, page),
{
    let before = latest_first(time);
    assert forall|i: int, j: int| 0 <= i < j < page.len() implies time(#[trigger] page[i]) >= time(
        #[trigger] page[j],
    ) by {
        assert(before((keys[i], m[keys[i]]), (keys[j], m[keys[j]])));
    }
    assert forall|k: [u8; 16], i: int|
        m.contains_key(k) && wanted(m[k]) && !(#[trigger] keys.contains(k)) && 0 <= i
            < page.len() implies time(#[trigger] page[i]) >= time(m[k]) by {
        assert(eligible(k, m[k]));
        assert(before((keys[i], m[keys[i]]), (k, m[k])));
    }
    assert forall|i: int| 0 <= i < keys.len() implies m.contains_key(#[trigger] keys[i])
        && m[keys[i]] == page[i] && wanted(page[i]) by {
        assert(eligible(keys[i], m[keys[i]]));
    }
    assert(keys.len() == page.len());
    if keys.len() != limit {
        assert forall|k: [u8; 16]| m.contains_key(k) && wanted(m[k]) implies #[trigger] keys.contains(
            k,
        ) by {
            assert(eligible(k, m[k]));
        }
    }
}

/// Two tests that agree select the same page.
proof fn lemma_same_eligibility(
    m: Map<[u8; 32], StoredMessageModel>,
    a: spec_fn([u8; 32], StoredMessageModel) -> bool,
    b: spec_fn([u8; 32], StoredMessageModel) -> bool,
    after: Option<[u8; 32]>,
    limit: nat,
    page: Seq<StoredMessageMetadata>,
)
    requires
        forall|k: [u8; 32], v: StoredMessageModel| #[trigger] a(k, v) == b(k, v),
        is_metadata_page(m, a, after, limit, page),
    ensures
        is_metadata_page(m, b, after, limit, page),
{
    let ea = |k: [u8; 32], v: StoredMessageModel| a(k, v) && is_after(after, k);
    let eb = |k: [u8; 32], v: StoredMessageModel| b(k, v) && is_after(after, k);
    assert forall|k: [u8; 32], v: StoredMessageModel| #[trigger] ea(k, v) == eb(k, v) by {
        assert(a(k, v) == b(k, v));
    }
    assert(ea =~= eb);
}

/// Storage starts out with nothing in it.
pub proof fn storage_starts_out_empty(id: [u8; 32], hash: [u8; 16], name: Seq<char>)
    ensures
        ({
            let m = empty_model();
            &&& !m.delivered.contains_key(id)
            &&& !m.processed.contains_key(id)
            &&& !m.messages.contains_key(id)
            &&& !m.outbound.contains_key(id)
            &&& !m.inbound.contains_key(id)
            &&& !m.tickets.contains_key(hash)
            &&& !m.stamp_costs.contains_key(hash)
            &&& !m.identities.contains_key(hash)
            &&& !m.ratchets.contains_key(hash)
            &&& !m.peers.contains_key(hash)
            &&& !m.state_blobs.contains_key(name)
        }),
{
}

} // verus!
