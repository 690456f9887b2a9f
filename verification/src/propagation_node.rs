//! A propagation node: it holds messages for others, serves them to the clients they are
//! for, and synchronises with its peers.

use vstd::prelude::*;
use vstd::slice::slice_subrange;
use vstd::utf8::encode_utf8;

use crate::bytes::{copy_slice, fixed, join, lemma_fixed, slices_equal, to_fixed};
use crate::clock::{
    before, has_passed, is_past, micros, micros_of, seconds, seconds_before, seconds_of,
    to_seconds, whole_seconds,
};
use crate::constants::{
    DELIVERY_LIMIT, MESSAGE_EXPIRY, PEERING_COST, PN_STAMP_THROTTLE, PROPAGATION_LIMIT,
};
use crate::crypto::{digest, full_hash};
use crate::memory::MemoryStorage;
use crate::message::{is_packable, is_packed, packed, unpacked, LxMessage, MessageModel};
use crate::propagated::transient_digest;
use crate::propagation::{
    entry_bytes, entry_weight, fresh_entries, heaviest_first, is_fresh, is_overflow,
    lemma_heaviest_first, lemma_overflow_fits, PropagationEntry, PropagationStore,
};
use crate::select::{
    leading, lemma_leading_distinct, lemma_trim_step, lemma_weigh_without, strict_order, total,
    trims,
};
use crate::storage::{
    by_weight, is_age_selection, is_weight_selection, lemma_orders, payload_bytes, weight,
    LxmfStorage, StorageModel, StoredMessage, StoredMessageMetadata, StoredMessageModel,
};
use crate::sync::{SessionModel, SyncSession};
use crate::table::{kept, lemma_kept_weighs_less, saturated, weigh, without, Table};
use crate::types::PropagationTransientId;

pub mod offers;
pub mod requests;
pub mod sessions;

verus! {

/// Seconds after which a silent session is dropped.
pub const SYNC_SESSION_IDLE_TIMEOUT: u64 = 300;

/// How many messages are dropped at a time.
pub const CULL_BATCH: usize = 128;

/// How many messages are listed at a time.
pub const PAGE_SIZE: usize = 256;

/// Whether a name ends in some bytes.
pub open spec fn has_ending(name: Seq<u8>, ending: Seq<u8>) -> bool {
    name.len() >= ending.len() && name.subrange(name.len() - ending.len(), name.len() as int)
        == ending
}

/// Whether a name may be that of the file of a message: the files of peers, other state and
/// files that were set aside have endings of their own.
pub open spec fn names_message(name: Seq<u8>) -> bool {
    !has_ending(name, encode_utf8(".peer"@)) && !has_ending(name, encode_utf8(".msgpack"@))
        && !has_ending(name, encode_utf8(".corrupt"@))
}

/// Whether a name ends in some bytes.
fn ends_in(name: &[u8], ending: &[u8]) -> (b: bool)
    ensures
        b == has_ending(name@, ending@),
{
    name.len() >= ending.len() && slices_equal(
        slice_subrange(name, name.len() - ending.len(), name.len()),
        ending,
    )
}

/// Whether the file of this name may hold a message: not the file of a peer, nor other state,
/// nor a file that was set aside.
pub fn is_message_name(name: &[u8]) -> (b: bool)
    ensures
        b == names_message(name@),
{
    !ends_in(name, ".peer".as_bytes()) && !ends_in(name, ".msgpack".as_bytes()) && !ends_in(
        name,
        ".corrupt".as_bytes(),
    )
}

/// The limits of a node.
#[derive(Debug, Clone, Copy)]
pub struct PropagationNodeConfig {
    /// Bytes that the node holds at most.
    pub max_storage: usize,
    /// Seconds for which a message is held.
    pub max_message_age: u64,
    /// What the stamp of a message must be worth.
    pub min_stamp_cost: u8,
    pub peering_cost: u8,
    /// Bytes that a message has at most.
    pub max_message_size: usize,
}

/// How a node is set up where nothing else is said.
pub open spec fn default_node_config() -> PropagationNodeConfig {
    PropagationNodeConfig {
        max_storage: 268_435_456,
        max_message_age: MESSAGE_EXPIRY,
        min_stamp_cost: 0,
        peering_cost: PEERING_COST,
        max_message_size: 1_024_000,
    }
}

impl Default for PropagationNodeConfig {
    fn default() -> (c: Self)
        ensures
            c == default_node_config(),
            c.max_storage == PROPAGATION_LIMIT * 1024 * 1024,
            c.max_message_size == DELIVERY_LIMIT * 1024,
    {
        PropagationNodeConfig {
            max_storage: PROPAGATION_LIMIT * 1024 * 1024,
            max_message_age: MESSAGE_EXPIRY,
            min_stamp_cost: 0,
            peering_cost: PEERING_COST,
            max_message_size: DELIVERY_LIMIT * 1024,
        }
    }
}

/// Where a node keeps its messages.
#[derive(Debug, Clone, Copy, PartialEq, Eq, Structural)]
pub enum NodeBacking {
    /// In an index only.
    Memory,
    /// In an index, with the payloads in the files of a directory.
    Directory,
    /// In a storage backend that the node reads itself.
    Storage,
    /// In a storage backend that is read without holding the node.
    SharedStorage,
}

/// Whether the storage backend, and not the index, says what a node holds.
pub open spec fn is_authoritative(b: NodeBacking) -> bool {
    b == NodeBacking::Storage || b == NodeBacking::SharedStorage
}

/// What a node knows.
#[verifier::ext_equal]
pub ghost struct NodeModel {
    pub config: PropagationNodeConfig,
    pub index: Map<[u8; 32], PropagationEntry>,
    pub prioritised: Set<[u8; 16]>,
    pub storage: StorageModel,
    pub backing: NodeBacking,
    pub sessions: Map<[u8; 16], SessionModel>,
    pub dest_hash: [u8; 16],
    /// When each peer last made an offer.
    pub offers: Map<[u8; 16], i64>,
}

/// A propagation node.
pub struct PropagationNode<S: LxmfStorage> {
    config: PropagationNodeConfig,
    store: PropagationStore,
    storage: S,
    backing: NodeBacking,
    sessions: Table<16, SyncSession>,
    dest_hash: [u8; 16],
    last_offer_times: Table<16, i64>,
}

impl<S: LxmfStorage> View for PropagationNode<S> {
    type V = NodeModel;

    closed spec fn view(&self) -> NodeModel {
        NodeModel {
            config: self.config,
            index: self.store@,
            prioritised: self.store.prioritised_set(),
            storage: self.storage.model(),
            backing: self.backing,
            sessions: self.sessions@,
            dest_hash: self.dest_hash,
            offers: self.last_offer_times@,
        }
    }
}

/// A node that holds nothing yet.
pub open spec fn fresh_node(
    config: PropagationNodeConfig,
    dest_hash: [u8; 16],
    storage: StorageModel,
    backing: NodeBacking,
) -> NodeModel {
    NodeModel {
        config,
        index: Map::empty(),
        prioritised: Set::empty(),
        storage,
        backing,
        sessions: Map::empty(),
        dest_hash,
        offers: Map::empty(),
    }
}

// ---------------------------------------------------------------------------
// What a node holds.
// ---------------------------------------------------------------------------

/// Whether a node holds a message.
pub open spec fn holds_id(m: NodeModel, id: PropagationTransientId) -> bool {
    if is_authoritative(m.backing) {
        m.storage.messages.contains_key(id)
    } else {
        m.index.contains_key(id)
    }
}

/// Whether a node holds a message for a client.
pub open spec fn owned_by(m: NodeModel, id: PropagationTransientId, client: [u8; 16]) -> bool {
    holds_id(m, id) && if is_authoritative(m.backing) {
        m.storage.messages[id].metadata.destination_hash == client
    } else {
        m.index[id].destination_hash == client
    }
}

/// What the stamp of a message that a node holds is worth.
pub open spec fn held_stamp(m: NodeModel, id: PropagationTransientId) -> int {
    if is_authoritative(m.backing) {
        m.storage.messages[id].metadata.stamp_value as int
    } else {
        m.index[id].stamp_value as int
    }
}

/// The bytes that a node holds.
pub open spec fn used_bytes(m: NodeModel) -> nat {
    if is_authoritative(m.backing) {
        weigh(m.storage.messages, payload_bytes())
    } else {
        weigh(m.index, entry_bytes())
    }
}

/// How many messages a node holds.
pub open spec fn held_count(m: NodeModel) -> nat {
    if is_authoritative(m.backing) {
        m.storage.messages.len()
    } else {
        m.index.len()
    }
}

/// Whether a node has room for a message.  A node that goes by its index takes one as
/// long as it is not over its limit.
pub open spec fn has_room(m: NodeModel, bytes: nat) -> bool {
    if is_authoritative(m.backing) {
        saturated(saturated(used_bytes(m)) as nat + bytes) <= m.config.max_storage
    } else {
        saturated(used_bytes(m)) <= m.config.max_storage
    }
}

/// Whether a stamp is worth what a node asks for.
pub open spec fn stamp_suffices(m: NodeModel, value: u8) -> bool {
    m.config.min_stamp_cost == 0 || value >= m.config.min_stamp_cost
}

/// Whether a node takes a message, as far as its stamp does not matter.
pub open spec fn has_place(m: NodeModel, id: PropagationTransientId, bytes: nat) -> bool {
    &&& !holds_id(m, id)
    &&& !m.storage.messages.contains_key(id)
    &&& bytes <= m.config.max_message_size
    &&& has_room(m, bytes)
}

/// A node with one more message.
pub open spec fn with_message(
    m: NodeModel,
    stored: StoredMessageModel,
    entry: PropagationEntry,
) -> NodeModel {
    NodeModel {
        storage: StorageModel {
            messages: m.storage.messages.insert(stored.metadata.transient_id, stored),
            ..m.storage
        },
        index: if is_authoritative(m.backing) {
            m.index
        } else {
            m.index.insert(entry.transient_id, entry)
        },
        ..m
    }
}

/// A stored message.
pub open spec fn stored_blob(
    id: PropagationTransientId,
    message_hash: [u8; 32],
    destination_hash: [u8; 16],
    stored_at: i64,
    stamp_value: u8,
    data: Seq<u8>,
    stamped: bool,
) -> StoredMessageModel {
    StoredMessageModel {
        metadata: StoredMessageMetadata {
            transient_id: id,
            message_hash,
            destination_hash,
            stored_at,
            stamp_value: stamp_value as u16,
            payload_size: data.len() as usize,
            collected: false,
            stamped,
        },
        payload: data,
    }
}

/// The entry of a stored message.
pub open spec fn index_entry(
    id: PropagationTransientId,
    message_hash: [u8; 32],
    destination_hash: [u8; 16],
    stored_at: i64,
    stamp_value: u8,
    size: nat,
    stamped: bool,
) -> PropagationEntry {
    PropagationEntry {
        transient_id: id,
        message_hash,
        destination_hash,
        stored_at,
        stamp_value,
        size: size as usize,
        collected: false,
        stamped,
    }
}

/// A node with one more propagated message: `data` identifies it, and `stored` is what is
/// kept of it.
pub open spec fn with_blob(
    m: NodeModel,
    data: Seq<u8>,
    stored: Seq<u8>,
    stamp_value: u8,
    stamped: bool,
    now: i64,
) -> NodeModel {
    let id = transient_digest(data);
    let destination: [u8; 16] = fixed(data.subrange(0, 16));
    with_message(
        m,
        stored_blob(id, id, destination, whole_seconds(now), stamp_value, stored, stamped),
        index_entry(id, id, destination, now, stamp_value, stored.len(), stamped),
    )
}

/// Whether a node takes a propagated message.
pub open spec fn takes_blob(
    m: NodeModel,
    data: Seq<u8>,
    stored: Seq<u8>,
    stamp_value: u8,
) -> bool {
    &&& data.len() > 16
    &&& has_place(m, transient_digest(data), stored.len())
    &&& stamp_suffices(m, stamp_value)
}

impl PropagationNode<MemoryStorage> {
    /// A node that keeps an index in memory.
    pub fn new(config: PropagationNodeConfig, dest_hash: [u8; 16]) -> (n: Self)
        ensures
            n@ == fresh_node(
                config,
                dest_hash,
                crate::memory::empty_model(),
                NodeBacking::Memory,
            ),
            n.reliable(),
    {
        PropagationNode {
            config,
            store: PropagationStore::new(),
            storage: MemoryStorage::new(),
            backing: NodeBacking::Memory,
            sessions: Table::new(),
            dest_hash,
            last_offer_times: Table::new(),
        }
    }

    /// A node that keeps its payloads in the files of a directory.
    pub fn with_storage(config: PropagationNodeConfig, dest_hash: [u8; 16]) -> (n: Self)
        ensures
            n@ == fresh_node(
                config,
                dest_hash,
                crate::memory::empty_model(),
                NodeBacking::Directory,
            ),
            n.reliable(),
    {
        PropagationNode {
            config,
            store: PropagationStore::new(),
            storage: MemoryStorage::new(),
            backing: NodeBacking::Directory,
            sessions: Table::new(),
            dest_hash,
            last_offer_times: Table::new(),
        }
    }
}

impl<S: LxmfStorage> PropagationNode<S> {
    /// Whether the storage of the node never fails.
    pub closed spec fn reliable(&self) -> bool {
        self.storage.reliable()
    }

    /// Whether the node always finds out what it holds.
    pub open spec fn is_sure(&self) -> bool {
        self.reliable() || !is_authoritative(self@.backing)
    }

    /// A node that keeps its messages in a storage backend.
    pub fn with_storage_backend(
        config: PropagationNodeConfig,
        dest_hash: [u8; 16],
        storage: S,
    ) -> (n: Self)
        ensures
            n@ == fresh_node(config, dest_hash, storage.model(), NodeBacking::Storage),
            n.reliable() == storage.reliable(),
    {
        PropagationNode {
            config,
            store: PropagationStore::new(),
            storage,
            backing: NodeBacking::Storage,
            sessions: Table::new(),
            dest_hash,
            last_offer_times: Table::new(),
        }
    }

    /// A node whose payloads are read from its storage backend without holding the node.
    pub fn with_shared_storage_backend(
        config: PropagationNodeConfig,
        dest_hash: [u8; 16],
        storage: S,
    ) -> (n: Self)
        ensures
            n@ == fresh_node(config, dest_hash, storage.model(), NodeBacking::SharedStorage),
            n.reliable() == storage.reliable(),
    {
        PropagationNode {
            config,
            store: PropagationStore::new(),
            storage,
            backing: NodeBacking::SharedStorage,
            sessions: Table::new(),
            dest_hash,
            last_offer_times: Table::new(),
        }
    }

    pub fn min_stamp_cost(&self) -> (cost: u8)
        ensures
            cost == self@.config.min_stamp_cost,
    {
        self.config.min_stamp_cost
    }

    pub fn set_min_stamp_cost(&mut self, cost: u8)
        ensures
            final(self)@ == (NodeModel {
                config: PropagationNodeConfig { min_stamp_cost: cost, ..old(self)@.config },
                ..old(self)@
            }),
            final(self).reliable() == old(self).reliable(),
    {
        self.config.min_stamp_cost = cost;
    }

    pub fn dest_hash(&self) -> (h: [u8; 16])
        ensures
            h == self@.dest_hash,
    {
        self.dest_hash
    }

    pub fn prioritise_destination(&mut self, destination_hash: [u8; 16])
        ensures
            final(self)@ == (NodeModel {
                prioritised: old(self)@.prioritised.insert(destination_hash),
                ..old(self)@
            }),
            final(self).reliable() == old(self).reliable(),
    {
        self.store.prioritise_destination(destination_hash);
    }

    pub fn unprioritise_destination(&mut self, destination_hash: &[u8; 16])
        ensures
            final(self)@ == (NodeModel {
                prioritised: old(self)@.prioritised.remove(*destination_hash),
                ..old(self)@
            }),
            final(self).reliable() == old(self).reliable(),
    {
        self.store.unprioritise_destination(destination_hash);
    }

    fn authoritative(&self) -> (b: bool)
        ensures
            b == is_authoritative(self@.backing),
    {
        self.backing == NodeBacking::Storage || self.backing == NodeBacking::SharedStorage
    }

    /// Whether the node holds a message; storage that fails to answer counts as no.
    pub fn contains(&self, transient_id: &PropagationTransientId) -> (b: bool)
        ensures
            b ==> holds_id(self@, *transient_id),
            self.reliable() || !is_authoritative(self@.backing) ==> b == holds_id(
                self@,
                *transient_id,
            ),
    {
        if self.authoritative() {
            match self.storage.message_metadata(transient_id) {
                Ok(Some(_)) => true,
                _ => false,
            }
        } else {
            self.store.contains(transient_id)
        }
    }

    /// The bytes that the node holds; storage that fails to answer counts as empty.
    pub fn total_size(&self) -> (n: usize)
        ensures
            n == saturated(used_bytes(self@)) || (is_authoritative(self@.backing)
                && !self.reliable() && n == 0),
    {
        if self.authoritative() {
            match self.storage.message_store_stats() {
                Ok(stats) => {
                    assert(self@.storage.stored_bytes() == weigh(
                        self@.storage.messages,
                        payload_bytes(),
                    ));
                    stats.payload_size
                },
                Err(_) => 0,
            }
        } else {
            self.store.total_size()
        }
    }

    /// How many messages the node holds; storage that fails to answer counts as empty.
    pub fn message_count(&self) -> (n: usize)
        ensures
            n == held_count(self@) || (is_authoritative(self@.backing) && !self.reliable() && n
                == 0),
    {
        if self.authoritative() {
            match self.storage.message_store_stats() {
                Ok(stats) => stats.count,
                Err(_) => 0,
            }
        } else {
            self.store.len()
        }
    }

    /// Whether there is a place for a message.
    fn check_place(&self, id: &PropagationTransientId, bytes: usize) -> (b: bool)
        ensures
            b ==> bytes <= self@.config.max_message_size,
            b && !is_authoritative(self@.backing) ==> !self@.index.contains_key(*id),
            has_place(self@, *id, bytes as nat) ==> b,
            self.reliable() ==> b == (!holds_id(self@, *id) && bytes
                <= self@.config.max_message_size && has_room(self@, bytes as nat)),
    {
        if self.contains(id) || bytes > self.config.max_message_size {
            return false;
        }
        let total = self.total_size();
        if self.authoritative() {
            total.saturating_add(bytes) <= self.config.max_storage
        } else {
            total <= self.config.max_storage
        }
    }

    /// Keeps a message, unless storage refuses it.
    fn keep(&mut self, stored: StoredMessage, entry: PropagationEntry) -> (kept: bool)
        requires
            stored.metadata.payload_size == stored.payload@.len(),
            stored.metadata.transient_id == entry.transient_id,
            !is_authoritative(old(self)@.backing) ==> !old(self)@.index.contains_key(
                entry.transient_id,
            ),
        ensures
            kept ==> !old(self)@.storage.messages.contains_key(entry.transient_id),
            old(self).reliable() ==> kept == !old(self)@.storage.messages.contains_key(
                entry.transient_id,
            ),
            final(self)@ == (if kept {
                with_message(old(self)@, stored@, entry)
            } else {
                old(self)@
            }),
            final(self).reliable() == old(self).reliable(),
    {
        match self.storage.insert_message(&stored) {
            Ok(true) => {},
            _ => {
                return false;
            },
        }
        if !self.authoritative() {
            self.store.insert(entry);
        }
        true
    }

    /// Takes a message from a client that sent it in the clear.  `value_of` finds what
    /// its stamp is worth for the digest of the packed message.
    pub fn accept_message<F>(&mut self, message: &LxMessage, value_of: F) -> (accepted: bool) where
        F: FnOnce(&[u8; 32], &[u8; 32]) -> u32,

        requires
            forall|id: &[u8; 32], stamp: &[u8; 32]| call_requires(value_of, (id, stamp)),
        ensures
            final(self).reliable() == old(self).reliable(),
            !accepted ==> final(self)@ == old(self)@,
            accepted ==> message@.hash is Some && is_packable(message@) && exists|value: u8|
                #[trigger]
                message_worth(message@, value_of, value) && stamp_suffices(old(self)@, value)
                    && final(self)@ == with_packed(old(self)@, message@, value),
            accepted ==> packed(message@).len() <= old(self)@.config.max_message_size
                && !old(self)@.storage.messages.contains_key(message_key(message@)),
            accepted && old(self).reliable() ==> has_place(
                old(self)@,
                message_key(message@),
                packed(message@).len(),
            ),
            !accepted && old(self).reliable() && message@.hash is Some && is_packable(message@)
                && has_place(old(self)@, message_key(message@), packed(message@).len())
                ==> exists|value: u8| #[trigger]
                message_worth(message@, value_of, value) && !stamp_suffices(old(self)@, value),
    {
        let hash = match message.hash {
            Some(h) => h,
            None => {
                return false;
            },
        };
        let id = match message.transient_id {
            Some(t) => t,
            None => hash,
        };
        let bytes = match message.pack() {
            Ok(b) => b,
            Err(_) => {
                return false;
            },
        };
        if !self.check_place(&id, bytes.len()) {
            return false;
        }
        let mut value: u8 = 0;
        if let Some(stamp) = &message.stamp {
            let stamp: Option<[u8; 32]> = to_fixed(stamp.as_slice());
            if let Some(s) = stamp {
                let full = full_hash(bytes.as_slice());
                proof {
                    lemma_fixed(full);
                    lemma_fixed(s);
                }
                let found = value_of(&full, &s);
                value = (found % 256) as u8;
                assert(call_ensures(
                    value_of,
                    (
                        &fixed::<32>(digest(packed(message@))),
                        &fixed::<32>(message@.stamp->0),
                    ),
                    found,
                ));
            }
        }
        assert(message_worth(message@, value_of, value));
        if self.config.min_stamp_cost > 0 && value < self.config.min_stamp_cost {
            return false;
        }
        let entry = PropagationEntry::new(
            id,
            hash,
            message.destination_hash,
            bytes.len(),
            value,
            micros_of(message.timestamp),
        );
        let stored = StoredMessage::new(
            id,
            hash,
            message.destination_hash,
            seconds_of(message.timestamp),
            value as u16,
            bytes,
            false,
        );
        self.keep(stored, entry)
    }

    /// Takes a propagated message without a stamp behind it.
    pub fn accept_propagated_blob(&mut self, data: &[u8], stamp_value: u8, now: i64) -> (accepted:
        bool)
        ensures
            final(self).reliable() == old(self).reliable(),
            old(self).reliable() ==> accepted == takes_blob(
                old(self)@,
                data@,
                data@,
                stamp_value,
            ),
            accepted ==> data@.len() > 16 && data@.len() <= old(self)@.config.max_message_size
                && stamp_suffices(old(self)@, stamp_value)
                && !old(self)@.storage.messages.contains_key(transient_digest(data@)),
            final(self)@ == (if accepted {
                with_blob(old(self)@, data@, data@, stamp_value, false, now)
            } else {
                old(self)@
            }),
    {
        if data.len() <= 16 {
            return false;
        }
        if self.config.min_stamp_cost > 0 && stamp_value < self.config.min_stamp_cost {
            return false;
        }
        let id = full_hash(data);
        proof {
            lemma_fixed(id);
        }
        if !self.check_place(&id, data.len()) {
            return false;
        }
        let destination: Option<[u8; 16]> = to_fixed(slice_subrange(data, 0, 16));
        match destination {
            Some(d) => {
                proof {
                    lemma_fixed(d);
                }
                let entry = PropagationEntry::new(id, id, d, data.len(), stamp_value, now);
                let stored = StoredMessage::new(
                    id,
                    id,
                    d,
                    to_seconds(now),
                    stamp_value as u16,
                    copy_slice(data),
                    false,
                );
                self.keep(stored, entry)
            },
            None => false,
        }
    }

    /// Takes a propagated message and its stamp, which is kept behind the message so
    /// that peers can check it.
    pub fn accept_stamped_propagated_blob(
        &mut self,
        data: &[u8],
        stamp: &[u8; 32],
        stamp_value: u8,
        now: i64,
    ) -> (accepted: bool)
        requires
            data@.len() + 32 <= usize::MAX,
        ensures
            final(self).reliable() == old(self).reliable(),
            old(self).reliable() ==> accepted == takes_blob(
                old(self)@,
                data@,
                data@ + stamp@,
                stamp_value,
            ),
            accepted ==> data@.len() > 16 && data@.len() + 32
                <= old(self)@.config.max_message_size && stamp_suffices(
                old(self)@,
                stamp_value,
            ) && !old(self)@.storage.messages.contains_key(transient_digest(data@)),
            final(self)@ == (if accepted {
                with_blob(old(self)@, data@, data@ + stamp@, stamp_value, true, now)
            } else {
                old(self)@
            }),
    {
        if data.len() <= 16 {
            return false;
        }
        if self.config.min_stamp_cost > 0 && stamp_value < self.config.min_stamp_cost {
            return false;
        }
        let id = full_hash(data);
        proof {
            lemma_fixed(id);
        }
        if !self.check_place(&id, data.len() + 32) {
            return false;
        }
        let destination: Option<[u8; 16]> = to_fixed(slice_subrange(data, 0, 16));
        match destination {
            Some(d) => {
                proof {
                    lemma_fixed(d);
                }
                let entry = PropagationEntry::new_stamped(
                    id,
                    id,
                    d,
                    data.len() + 32,
                    stamp_value,
                    now,
                );
                let stored = StoredMessage::new(
                    id,
                    id,
                    d,
                    to_seconds(now),
                    stamp_value as u16,
                    join(data, stamp.as_slice()),
                    true,
                );
                self.keep(stored, entry)
            },
            None => false,
        }
    }

    /// Takes the file of a message into the index, unless the index has the message.
    pub fn load_entry(
        &mut self,
        transient_id: PropagationTransientId,
        stored_at: i64,
        stamp_value: u8,
        data: &[u8],
    ) -> (loaded: bool)
        ensures
            final(self).reliable() == old(self).reliable(),
            loaded == !old(self)@.index.contains_key(transient_id),
            final(self)@ == (if loaded {
                NodeModel {
                    index: old(self)@.index.insert(
                        transient_id,
                        file_entry(transient_id, stored_at, stamp_value, data@),
                    ),
                    ..old(self)@
                }
            } else {
                old(self)@
            }),
    {
        let full = full_hash(data);
        let nobody: [u8; 16] = [0u8;16];
        proof {
            assert(nobody@ =~= zeros(16));
            lemma_fixed(nobody);
        }
        let mut entry = PropagationEntry::new_stamped(
            transient_id,
            full,
            nobody,
            data.len(),
            stamp_value,
            stored_at,
        );
        proof {
            lemma_fixed(full);
        }
        if data.len() >= 16 {
            let destination: Option<[u8; 16]> = to_fixed(slice_subrange(data, 0, 16));
            if let Some(d) = destination {
                proof {
                    lemma_fixed(d);
                }
                entry.destination_hash = d;
            }
        }
        if let Ok(m) = LxMessage::unpack(data) {
            entry.message_hash = match m.hash {
                Some(h) => h,
                None => [0u8;32],
            };
            entry.destination_hash = m.destination_hash;
            entry.stamped = false;
        }
        self.store.insert(entry)
    }
}

// ---------------------------------------------------------------------------
// Maintenance.
// ---------------------------------------------------------------------------

/// Whether a message was stored no earlier than a cutoff, in seconds.
pub open spec fn stored_since(cutoff: i64) -> spec_fn([u8; 32], StoredMessageModel) -> bool {
    |k: [u8; 32], m: StoredMessageModel| m.metadata.stored_at >= cutoff
}

/// Whether one map is what is left of another.
pub open spec fn is_left_of<K, V>(left: Map<K, V>, whole: Map<K, V>) -> bool {
    forall|k: K| #[trigger]
        left.contains_key(k) ==> whole.contains_key(k) && left[k] == whole[k]
}

/// The second before which messages have had their time.
pub open spec fn cutoff_at(m: NodeModel, now: i64) -> i64 {
    whole_seconds(before(now, m.config.max_message_age))
}

/// Whether `after` is what maintenance leaves of the messages in storage: none that had
/// its time, and of the others what fits the limit once the heaviest are dropped.
pub open spec fn is_maintained_storage(
    m: NodeModel,
    now: i64,
    after: Map<[u8; 32], StoredMessageModel>,
) -> bool {
    exists|keys: Seq<[u8; 32]>| #[trigger]
        trims(
            kept(m.storage.messages, stored_since(cutoff_at(m, now))),
            by_weight(whole_seconds(now), m.prioritised),
            payload_bytes(),
            m.config.max_storage,
            keys,
        ) && after == without(
            kept(m.storage.messages, stored_since(cutoff_at(m, now))),
            keys,
        )
}

/// Whether `after` is what maintenance leaves of the index.
pub open spec fn is_maintained_index(
    m: NodeModel,
    now: i64,
    after: Map<[u8; 32], PropagationEntry>,
) -> bool {
    exists|keys: Seq<[u8; 32]>| #[trigger]
        is_overflow(
            fresh_entries(m.index, m.config.max_message_age, now),
            m.config.max_storage,
            now,
            m.prioritised,
            keys,
        ) && after == without(fresh_entries(m.index, m.config.max_message_age, now), keys)
}

/// Whether a message that a node holds had its time.
pub open spec fn has_expired(m: NodeModel, id: PropagationTransientId, now: i64) -> bool {
    if is_authoritative(m.backing) {
        m.storage.messages[id].metadata.stored_at < cutoff_at(m, now)
    } else {
        !is_fresh(m.index[id], m.config.max_message_age, now)
    }
}

/// The offers that still hold a peer off.
pub open spec fn recent_offers(m: NodeModel, now: i64) -> Map<[u8; 16], i64> {
    kept(m.offers, |k: [u8; 16], at: i64| !is_past(at, now, PN_STAMP_THROTTLE))
}

/// The sessions that are not silent.
pub open spec fn live_sessions(m: NodeModel, now: i64) -> Map<[u8; 16], SessionModel> {
    kept(
        m.sessions,
        |k: [u8; 16], s: SessionModel| !is_past(s.last_activity, now, SYNC_SESSION_IDLE_TIMEOUT),
    )
}

/// The messages in storage without those that left the index.
pub open spec fn without_dropped(
    messages: Map<[u8; 32], StoredMessageModel>,
    index: Map<[u8; 32], PropagationEntry>,
    left: Map<[u8; 32], PropagationEntry>,
) -> Map<[u8; 32], StoredMessageModel> {
    kept(
        messages,
        |k: [u8; 32], m: StoredMessageModel| !(index.contains_key(k) && !left.contains_key(k)),
    )
}

/// Whether `after` is what maintenance makes of a node whose storage does not fail.
pub open spec fn is_maintained(m: NodeModel, now: i64, after: NodeModel) -> bool {
    &&& after == (NodeModel {
        storage: StorageModel { messages: after.storage.messages, ..m.storage },
        index: after.index,
        offers: recent_offers(m, now),
        sessions: live_sessions(m, now),
        ..m
    })
    &&& if is_authoritative(m.backing) {
        after.index == m.index && is_maintained_storage(m, now, after.storage.messages)
    } else {
        is_maintained_index(m, now, after.index) && after.storage.messages == without_dropped(
            m.storage.messages,
            m.index,
            after.index,
        )
    }
}

impl<S: LxmfStorage> PropagationNode<S> {
    /// Drops the messages in storage that had their time.
    fn cull_aged(&mut self, cutoff: i64)
        ensures
            final(self).reliable() == old(self).reliable(),
            final(self)@ == (NodeModel {
                storage: StorageModel {
                    messages: final(self)@.storage.messages,
                    ..old(self)@.storage
                },
                ..old(self)@
            }),
            is_left_of(final(self)@.storage.messages, old(self)@.storage.messages),
            old(self).reliable() ==> final(self)@.storage.messages == kept(
                old(self)@.storage.messages,
                stored_since(cutoff),
            ),
    {
        let ghost all = self.storage.model();
        loop
            invariant
                self.reliable() == old(self).reliable(),
                all == old(self)@.storage,
                self@ == (NodeModel {
                    storage: StorageModel { messages: self@.storage.messages, ..all },
                    ..old(self)@
                }),
                is_left_of(self@.storage.messages, all.messages),
                forall|k: [u8; 32]| #[trigger]
                    all.messages.contains_key(k) && !self@.storage.messages.contains_key(k)
                        ==> all.messages[k].metadata.stored_at < cutoff,
            ensures
                self.reliable() == old(self).reliable(),
                self@ == (NodeModel {
                    storage: StorageModel { messages: self@.storage.messages, ..all },
                    ..old(self)@
                }),
                is_left_of(self@.storage.messages, all.messages),
                forall|k: [u8; 32]| #[trigger]
                    all.messages.contains_key(k) && !self@.storage.messages.contains_key(k)
                        ==> all.messages[k].metadata.stored_at < cutoff,
                self.reliable() ==> forall|k: [u8; 32]| #[trigger]
                    self@.storage.messages.contains_key(k)
                        ==> self@.storage.messages[k].metadata.stored_at >= cutoff,
            decreases self.storage.model().messages.len(),
        {
            let ghost held = self.storage.model().messages;
            let r = self.storage.remove_messages_stored_before(cutoff, CULL_BATCH);
            match r {
                Ok(n) => {
                    proof {
                        let keys = choose|keys: Seq<[u8; 32]>| #[trigger]
                            is_age_selection(held, cutoff, CULL_BATCH as nat, keys) && n
                                == keys.len() && self.storage.model().messages == without(
                                held,
                                keys,
                            );
                        assert forall|k: [u8; 32]| #[trigger]
                            all.messages.contains_key(k) && !self@.storage.messages.contains_key(
                                k,
                            ) implies all.messages[k].metadata.stored_at < cutoff by {
                            if held.contains_key(k) {
                                assert(keys.contains(k));
                                let i = choose|i: int| 0 <= i < keys.len() && keys[i] == k;
                                assert(held[keys[i]].metadata.stored_at < cutoff);
                            }
                        }
                        if n != CULL_BATCH {
                            assert forall|k: [u8; 32]| #[trigger]
                                self@.storage.messages.contains_key(
                                    k,
                                ) implies self@.storage.messages[k].metadata.stored_at
                                >= cutoff by {
                                if held[k].metadata.stored_at < cutoff {
                                    assert(keys.contains(k));
                                }
                            }
                        }
                    }
                    if n != CULL_BATCH {
                        break;
                    }
                },
                Err(_) => {
                    break;
                },
            }
        }
        proof {
            if self.reliable() {
                assert(self@.storage.messages =~= kept(all.messages, stored_since(cutoff)));
            }
        }
    }

    /// Drops the heaviest messages in storage until the rest fits the limit.
    fn cull_heavy(&mut self, now: i64)
        ensures
            final(self).reliable() == old(self).reliable(),
            final(self)@ == (NodeModel {
                storage: StorageModel {
                    messages: final(self)@.storage.messages,
                    ..old(self)@.storage
                },
                ..old(self)@
            }),
            is_left_of(final(self)@.storage.messages, old(self)@.storage.messages),
            old(self).reliable() ==> exists|keys: Seq<[u8; 32]>| #[trigger]
                trims(
                    old(self)@.storage.messages,
                    by_weight(whole_seconds(now), old(self)@.prioritised),
                    payload_bytes(),
                    old(self)@.config.max_storage,
                    keys,
                ) && final(self)@.storage.messages == without(
                    old(self)@.storage.messages,
                    keys,
                ),
    {
        let ghost all = self.storage.model();
        let ghost order = by_weight(whole_seconds(now), self@.prioritised);
        let ghost limit = self@.config.max_storage;
        let ghost mut gone: Seq<[u8; 32]> = Seq::empty();
        proof {
            lemma_orders(whole_seconds(now), self@.prioritised);
            assert(without(all.messages, gone) =~= all.messages);
        }
        loop
            invariant
                self.reliable() == old(self).reliable(),
                all == old(self)@.storage,
                limit == old(self)@.config.max_storage,
                order == by_weight(whole_seconds(now), old(self)@.prioritised),
                strict_order(order),
                self@ == (NodeModel {
                    storage: StorageModel { messages: without(all.messages, gone), ..all },
                    ..old(self)@
                }),
                leading(
                    all.messages,
                    |k: [u8; 32], v: StoredMessageModel| true,
                    order,
                    gone,
                ),
                gone.len() > 0 ==> all.messages.dom().finite(),
                forall|i: int|
                    0 <= i < gone.len() ==> weigh(all.messages, payload_bytes()) > limit
                        + crate::select::total(
                        all.messages,
                        payload_bytes(),
                        #[trigger] gone.take(i),
                    ),
            ensures
                self.reliable() == old(self).reliable(),
                self@ == (NodeModel {
                    storage: StorageModel { messages: without(all.messages, gone), ..all },
                    ..old(self)@
                }),
                leading(
                    all.messages,
                    |k: [u8; 32], v: StoredMessageModel| true,
                    order,
                    gone,
                ),
                forall|i: int|
                    0 <= i < gone.len() ==> weigh(all.messages, payload_bytes()) > limit
                        + crate::select::total(
                        all.messages,
                        payload_bytes(),
                        #[trigger] gone.take(i),
                    ),
                self.reliable() ==> saturated(
                    weigh(without(all.messages, gone), payload_bytes()),
                ) <= limit,
            decreases self.storage.model().messages.len(),
        {
            let stats = match self.storage.message_store_stats() {
                Ok(s) => s,
                Err(_) => {
                    break;
                },
            };
            let ghost held = self.storage.model().messages;
            assert(self.storage.model().stored_bytes() == weigh(held, payload_bytes()));
            if stats.payload_size <= self.config.max_storage {
                break;
            }
            let goal: usize = stats.payload_size - self.config.max_storage;
            let r = self.storage.remove_messages_by_weight(
                goal,
                to_seconds(now),
                self.store.prioritised_list(),
                CULL_BATCH,
            );
            match r {
                Ok(n) => {
                    proof {
                        let keys = choose|keys: Seq<[u8; 32]>| #[trigger]
                            is_weight_selection(
                                held,
                                goal,
                                whole_seconds(now),
                                old(self)@.prioritised,
                                CULL_BATCH as nat,
                                keys,
                            ) && n == keys.len() && self.storage.model().messages == without(
                                held,
                                keys,
                            );
                        if gone.len() == 0 {
                            assert(without(all.messages, gone) =~= all.messages);
                        }
                        lemma_trim_step(
                            all.messages,
                            order,
                            payload_bytes(),
                            limit as nat,
                            goal as nat,
                            gone,
                            keys,
                            CULL_BATCH as nat,
                        );
                        gone = gone + keys;
                        if n == 0 {
                            assert(keys =~= Seq::<[u8; 32]>::empty());
                            assert(crate::select::total(held, payload_bytes(), keys) == 0);
                            assert(held.dom() =~= Set::<[u8; 32]>::empty()) by {
                                assert forall|k: [u8; 32]| !held.contains_key(k) by {
                                    if held.contains_key(k) {
                                        assert(keys.contains(k));
                                    }
                                }
                            }
                            assert(weigh(held, payload_bytes()) == 0);
                            assert(false);
                        }
                    }
                    if n == 0 {
                        break;
                    }
                },
                Err(_) => {
                    break;
                },
            }
        }
        proof {
            if self.reliable() {
                assert(trims(
                    old(self)@.storage.messages,
                    by_weight(whole_seconds(now), old(self)@.prioritised),
                    payload_bytes(),
                    old(self)@.config.max_storage,
                    gone,
                ));
            }
        }
    }

    /// Forgets old offers and silent sessions.
    fn forget(&mut self, now: i64)
        ensures
            final(self).reliable() == old(self).reliable(),
            final(self)@ == (NodeModel {
                offers: recent_offers(old(self)@, now),
                sessions: live_sessions(old(self)@, now),
                ..old(self)@
            }),
    {
        let ghost recent = |k: [u8; 16], at: i64| !is_past(at, now, PN_STAMP_THROTTLE);
        let keep_offer = |k: &[u8; 16], at: &i64| -> (b: bool)
            ensures
                b == !is_past(*at, now, PN_STAMP_THROTTLE),
            { !has_passed(*at, now, PN_STAMP_THROTTLE) };
        self.last_offer_times.retain(keep_offer, Ghost(recent));
        let ghost live = |k: [u8; 16], s: SessionModel|
            !is_past(s.last_activity, now, SYNC_SESSION_IDLE_TIMEOUT);
        let keep_session = |k: &[u8; 16], s: &SyncSession| -> (b: bool)
            ensures
                b == !is_past(s@.last_activity, now, SYNC_SESSION_IDLE_TIMEOUT),
            { !has_passed(s.last_activity, now, SYNC_SESSION_IDLE_TIMEOUT) };
        self.sessions.retain(keep_session, Ghost(live));
    }

    /// Maintenance: drops what had its time, cuts what is left down to the limit, and
    /// forgets old offers and silent sessions.
    pub fn tick(&mut self, now: i64)
        ensures
            final(self).reliable() == old(self).reliable(),
            final(self)@ == (NodeModel {
                storage: StorageModel {
                    messages: final(self)@.storage.messages,
                    ..old(self)@.storage
                },
                index: final(self)@.index,
                offers: recent_offers(old(self)@, now),
                sessions: live_sessions(old(self)@, now),
                ..old(self)@
            }),
            is_left_of(final(self)@.storage.messages, old(self)@.storage.messages),
            old(self).reliable() ==> is_maintained(old(self)@, now, final(self)@),
            is_authoritative(old(self)@.backing) ==> final(self)@.index == old(self)@.index,
            !is_authoritative(old(self)@.backing) ==> is_maintained_index(
                old(self)@,
                now,
                final(self)@.index,
            ),
    {
        let max_age = self.config.max_message_age;
        if self.authoritative() {
            let cutoff: i64 = to_seconds(seconds_before(now, max_age));
            self.cull_aged(cutoff);
            let ghost mid = self@;
            self.cull_heavy(now);
            proof {
                if self.reliable() {
                    let keys = choose|keys: Seq<[u8; 32]>| #[trigger]
                        trims(
                            mid.storage.messages,
                            by_weight(whole_seconds(now), mid.prioritised),
                            payload_bytes(),
                            mid.config.max_storage,
                            keys,
                        ) && self@.storage.messages == without(mid.storage.messages, keys);
                    assert(trims(
                        kept(
                            old(self)@.storage.messages,
                            stored_since(cutoff_at(old(self)@, now)),
                        ),
                        by_weight(whole_seconds(now), old(self)@.prioritised),
                        payload_bytes(),
                        old(self)@.config.max_storage,
                        keys,
                    ));
                }
            }
            self.forget(now);
            return ;
        }
        let before_ids = self.store.transient_ids();
        let count = self.store.len();
        self.store.cull_expired(max_age, now);
        let ghost fresh = self.store@;
        self.store.cull_by_weight(self.config.max_storage, now);
        proof {
            let keys = choose|keys: Seq<[u8; 32]>| #[trigger]
                is_overflow(
                    fresh,
                    old(self)@.config.max_storage,
                    now,
                    old(self)@.prioritised,
                    keys,
                ) && self.store@ == without(fresh, keys);
            assert(is_overflow(
                fresh_entries(old(self)@.index, old(self)@.config.max_message_age, now),
                old(self)@.config.max_storage,
                now,
                old(self)@.prioritised,
                keys,
            ));
        }
        self.forget(now);
        let left = self.store.len();
        proof {
            assert(self@.index.dom().subset_of(old(self)@.index.dom()));
            if count <= left {
                vstd::set_lib::lemma_len_subset(self@.index.dom(), old(self)@.index.dom());
                vstd::set_lib::lemma_subset_equality(self@.index.dom(), old(self)@.index.dom());
                assert(without_dropped(
                    old(self)@.storage.messages,
                    old(self)@.index,
                    self@.index,
                ) =~= old(self)@.storage.messages);
            }
        }
        if count > left {
            self.drop_stored(&before_ids);
        }
        assert(self.reliable() ==> self@.storage.messages =~= without_dropped(
            old(self)@.storage.messages,
            old(self)@.index,
            self@.index,
        ));
    }

    /// Drops the messages in storage that left the index.
    fn drop_stored(&mut self, before_ids: &Vec<PropagationTransientId>)
        ensures
            final(self).reliable() == old(self).reliable(),
            final(self)@ == (NodeModel {
                storage: StorageModel {
                    messages: final(self)@.storage.messages,
                    ..old(self)@.storage
                },
                ..old(self)@
            }),
            is_left_of(final(self)@.storage.messages, old(self)@.storage.messages),
            old(self).reliable() ==> final(self)@.storage.messages == kept(
                old(self)@.storage.messages,
                |k: [u8; 32], m: StoredMessageModel|
                    !(before_ids@.contains(k) && !old(self)@.index.contains_key(k)),
            ),
    {
        let ghost all = self@.storage;
        let ghost index = self@.index;
        let mut i: usize = 0;
        assert(before_ids@.take(0) =~= Seq::<[u8; 32]>::empty());
        while i < before_ids.len()
            invariant
                i <= before_ids@.len(),
                self.reliable() == old(self).reliable(),
                all == old(self)@.storage,
                index == old(self)@.index,
                self@ == (NodeModel {
                    storage: StorageModel { messages: self@.storage.messages, ..all },
                    ..old(self)@
                }),
                is_left_of(self@.storage.messages, all.messages),
                self.reliable() ==> forall|k: [u8; 32]| #[trigger]
                    self@.storage.messages.contains_key(k) <==> all.messages.contains_key(k) && !(
                    before_ids@.take(i as int).contains(k) && !index.contains_key(k)),
            decreases before_ids@.len() - i,
        {
            let ghost held = self@.storage.messages;
            let id = before_ids[i];
            proof {
                assert(before_ids@.take(i + 1) =~= before_ids@.take(i as int).push(id));
                assert forall|k: [u8; 32]| before_ids@.take(i + 1).contains(k) <==> (
                before_ids@.take(i as int).contains(k) || k == id) by {
                    let t = before_ids@.take(i as int);
                    if t.contains(k) {
                        let q = choose|q: int| 0 <= q < t.len() && t[q] == k;
                        assert(t.push(id)[q] == k);
                    }
                    assert(t.push(id)[t.len() as int] == id);
                    if t.push(id).contains(k) && k != id {
                        let q = choose|q: int| 0 <= q < t.push(id).len() && t.push(id)[q] == k;
                        assert(t[q] == k);
                    }
                }
            }
            if !self.store.contains(&id) {
                let _ = self.storage.remove_message(&id);
            }
            i = i + 1;
        }
        proof {
            assert(before_ids@.take(i as int) =~= before_ids@);
            if self.reliable() {
                assert(self@.storage.messages =~= kept(
                    all.messages,
                    |k: [u8; 32], m: StoredMessageModel|
                        !(before_ids@.contains(k) && !index.contains_key(k)),
                ));
            }
        }
    }
}

/// Some zero bytes.
pub open spec fn zeros(n: nat) -> Seq<u8> {
    Seq::new(n, |i: int| 0u8)
}

/// The identifier under which a message in the clear is kept.
pub open spec fn message_key(m: MessageModel) -> PropagationTransientId {
    match m.transient_id {
        Some(t) => t,
        None => m.hash->0,
    }
}

/// Whether the stamp of a message in the clear may be found worth `value`; only one of
/// 32 bytes is worth anything.
pub open spec fn message_worth<F: FnOnce(&[u8; 32], &[u8; 32]) -> u32>(
    m: MessageModel,
    value_of: F,
    value: u8,
) -> bool {
    if m.stamp is Some && m.stamp->0.len() == 32 {
        exists|found: u32| #[trigger]
            call_ensures(
                value_of,
                (&fixed::<32>(digest(packed(m))), &fixed::<32>(m.stamp->0)),
                found,
            ) && value == found % 256
    } else {
        value == 0
    }
}

/// A node with one more message that was sent in the clear.
pub open spec fn with_packed(m: NodeModel, message: MessageModel, value: u8) -> NodeModel {
    let id = message_key(message);
    let data = packed(message);
    with_message(
        m,
        stored_blob(
            id,
            message.hash->0,
            message.destination_hash,
            seconds(message.timestamp),
            value,
            data,
            false,
        ),
        index_entry(
            id,
            message.hash->0,
            message.destination_hash,
            micros(message.timestamp),
            value,
            data.len(),
            false,
        ),
    )
}

/// The entry of a message that is found in a file: that of a propagated message, or of
/// one in the clear where it can be read as one.
pub open spec fn file_entry(
    id: PropagationTransientId,
    stored_at: i64,
    stamp_value: u8,
    data: Seq<u8>,
) -> PropagationEntry {
    if is_packed(data) {
        index_entry(
            id,
            unpacked(data).hash->0,
            unpacked(data).destination_hash,
            stored_at,
            stamp_value,
            data.len(),
            false,
        )
    } else {
        index_entry(
            id,
            fixed(digest(data)),
            if data.len() >= 16 {
                fixed(data.subrange(0, 16))
            } else {
                fixed(zeros(16))
            },
            stored_at,
            stamp_value,
            data.len(),
            true,
        )
    }
}

// ---------------------------------------------------------------------------
// What holds of every node.
// ---------------------------------------------------------------------------

/// A node that took a propagated message holds it as it came, and does not take it again.
pub proof fn messages_are_taken_once(
    m: NodeModel,
    data: Seq<u8>,
    stored: Seq<u8>,
    stamp_value: u8,
    stamped: bool,
    now: i64,
    again: Seq<u8>,
    value: u8,
)
    requires
        takes_blob(m, data, stored, stamp_value),
    ensures
        ({
            let after = with_blob(m, data, stored, stamp_value, stamped, now);
            let id = transient_digest(data);
            &&& holds_id(after, id)
            &&& after.storage.messages[id].payload == stored
            &&& owned_by(after, id, fixed(data.subrange(0, 16)))
            &&& !takes_blob(after, data, again, value)
        }),
{
}

/// Maintenance leaves no message that had its time, and what is left is unchanged.
pub proof fn maintenance_keeps_what_is_in_time(
    m: NodeModel,
    now: i64,
    after: NodeModel,
    id: PropagationTransientId,
)
    requires
        is_maintained(m, now, after),
        holds_id(after, id),
    ensures
        holds_id(m, id),
        !has_expired(m, id, now),
        is_authoritative(m.backing) ==> after.storage.messages[id] == m.storage.messages[id],
        !is_authoritative(m.backing) ==> after.index[id] == m.index[id],
{
}

/// Maintenance brings a node back within its limit: one that goes by its index then has room
/// again.
pub proof fn maintenance_makes_room(m: NodeModel, now: i64, after: NodeModel, bytes: nat)
    requires
        is_maintained(m, now, after),
        m.index.dom().finite(),
        m.index.len() < usize::MAX,
        used_bytes(m) <= usize::MAX,
    ensures
        saturated(used_bytes(after)) <= m.config.max_storage,
        !is_authoritative(m.backing) ==> has_room(after, bytes),
{
    if !is_authoritative(m.backing) {
        let fresh = fresh_entries(m.index, m.config.max_message_age, now);
        let keys = choose|keys: Seq<[u8; 32]>| #[trigger]
            is_overflow(fresh, m.config.max_storage, now, m.prioritised, keys) && after.index
                == without(fresh, keys);
        lemma_overflow_fits(
            m.index,
            m.config.max_message_age,
            m.config.max_storage,
            now,
            m.prioritised,
            keys,
        );
    }
}

/// A message that had its time is forgotten by maintenance: where it comes again, the node
/// takes it like one that it never held.
pub proof fn expired_messages_are_taken_again(
    m: NodeModel,
    now: i64,
    after: NodeModel,
    data: Seq<u8>,
    stored: Seq<u8>,
    stamp_value: u8,
)
    requires
        is_maintained(m, now, after),
        holds_id(m, transient_digest(data)),
        has_expired(m, transient_digest(data), now),
    ensures
        !holds_id(after, transient_digest(data)),
        takes_blob(after, data, stored, stamp_value) <==> data.len() > 16 && stored.len()
            <= m.config.max_message_size && has_room(after, stored.len()) && stamp_suffices(
            m,
            stamp_value,
        ),
{
}

/// A message has its time for as long as the node is set up to hold it: one that the node goes
/// by its index for, to the microsecond, and one in storage to the second in which it was
/// stored.
pub proof fn messages_have_their_time(m: NodeModel, id: PropagationTransientId, now: i64)
    requires
        now >= m.config.max_message_age * 1_000_000,
    ensures
        !is_authoritative(m.backing) ==> (has_expired(m, id, now) <==> now - m.index[id].stored_at
            > m.config.max_message_age * 1_000_000),
        is_authoritative(m.backing) ==> {
            let stored_at = m.storage.messages[id].metadata.stored_at * 1_000_000;
            &&& now - stored_at <= m.config.max_message_age * 1_000_000 ==> !has_expired(m, id, now)
            &&& now - stored_at >= m.config.max_message_age * 1_000_000 + 1_000_000 ==> has_expired(
                m,
                id,
                now,
            )
        },
{
    let start = now - m.config.max_message_age * 1_000_000;
    assert(before(now, m.config.max_message_age) == start);
    assert(cutoff_at(m, now) == start / 1_000_000);
}

/// Whole seconds keep the order of instants.
proof fn lemma_whole_seconds(a: i64, b: i64)
    requires
        a <= b,
    ensures
        whole_seconds(a) <= whole_seconds(b),
{
}

/// A propagated message that a node takes is held for the whole time that the node is set up to
/// hold messages for: until that has passed since it came, it has not expired.
pub proof fn taken_messages_are_held_for_their_time(
    m: NodeModel,
    data: Seq<u8>,
    stored: Seq<u8>,
    stamp_value: u8,
    stamped: bool,
    now: i64,
    later: i64,
)
    requires
        now <= later,
        later - now <= m.config.max_message_age * 1_000_000,
    ensures
        !has_expired(
            with_blob(m, data, stored, stamp_value, stamped, now),
            transient_digest(data),
            later,
        ),
{
    let start = before(later, m.config.max_message_age);
    assert(start <= now);
    lemma_whole_seconds(start, now);
}

/// Once its time and a second more have passed, a propagated message has expired.
pub proof fn taken_messages_expire(
    m: NodeModel,
    data: Seq<u8>,
    stored: Seq<u8>,
    stamp_value: u8,
    stamped: bool,
    now: i64,
    later: i64,
)
    requires
        0 <= now,
        later - now > m.config.max_message_age * 1_000_000 + 1_000_000,
    ensures
        has_expired(
            with_blob(m, data, stored, stamp_value, stamped, now),
            transient_digest(data),
            later,
        ),
{
    let after = with_blob(m, data, stored, stamp_value, stamped, now);
    let id = transient_digest(data);
    messages_have_their_time(after, id, later);
    assert(whole_seconds(now) * 1_000_000 <= now);
}

/// A node within its limit loses nothing by maintenance but what had its time.
pub proof fn maintenance_keeps_what_fits(
    m: NodeModel,
    now: i64,
    after: NodeModel,
    id: PropagationTransientId,
)
    requires
        is_maintained(m, now, after),
        m.storage.messages.dom().finite(),
        m.index.dom().finite(),
        used_bytes(m) <= m.config.max_storage,
        holds_id(m, id),
        !has_expired(m, id, now),
    ensures
        holds_id(after, id),
{
    if is_authoritative(m.backing) {
        let test = stored_since(cutoff_at(m, now));
        let fresh = kept(m.storage.messages, test);
        let keys = choose|keys: Seq<[u8; 32]>| #[trigger]
            trims(
                fresh,
                by_weight(whole_seconds(now), m.prioritised),
                payload_bytes(),
                m.config.max_storage,
                keys,
            ) && after.storage.messages == without(fresh, keys);
        lemma_kept_weighs_less(m.storage.messages, payload_bytes(), test);
        if keys.len() > 0 {
            assert(total(fresh, payload_bytes(), keys.take(0)) == 0);
        }
        assert(!keys.contains(id));
    } else {
        let test = |k: [u8; 32], e: PropagationEntry| is_fresh(e, m.config.max_message_age, now);
        let fresh = fresh_entries(m.index, m.config.max_message_age, now);
        let keys = choose|keys: Seq<[u8; 32]>| #[trigger]
            is_overflow(fresh, m.config.max_storage, now, m.prioritised, keys) && after.index
                == without(fresh, keys);
        lemma_kept_weighs_less(m.index, entry_bytes(), test);
        if keys.len() > 0 {
            assert(total(fresh, entry_bytes(), keys.take(0)) == 0);
        }
        assert(!keys.contains(id));
    }
}

/// What a message that a node holds weighs when room is made.
pub open spec fn held_weight(m: NodeModel, id: PropagationTransientId, now: i64) -> int {
    if is_authoritative(m.backing) {
        weight(m.storage.messages[id].metadata, whole_seconds(now), m.prioritised)
    } else {
        entry_weight(m.index[id], now, m.prioritised)
    }
}

/// The bytes of a message that a node holds.
pub open spec fn held_bytes(m: NodeModel, id: PropagationTransientId) -> nat {
    if is_authoritative(m.backing) {
        m.storage.messages[id].metadata.payload_size as nat
    } else {
        m.index[id].size as nat
    }
}

/// Maintenance drops a message that has not had its time only to make room: the heaviest go
/// first, and with any fewer dropped the node would still be over its limit.
pub proof fn maintenance_drops_the_heaviest(
    m: NodeModel,
    now: i64,
    after: NodeModel,
    id: PropagationTransientId,
)
    requires
        is_maintained(m, now, after),
        m.storage.messages.dom().finite(),
        m.index.dom().finite(),
        used_bytes(m) <= usize::MAX,
        holds_id(m, id),
        !has_expired(m, id, now),
        !holds_id(after, id),
    ensures
        forall|k: PropagationTransientId|
            #![trigger holds_id(after, k)]
            holds_id(after, k) ==> held_weight(m, id, now) >= held_weight(m, k, now),
        exists|k: PropagationTransientId|
            #![trigger holds_id(m, k)]
            holds_id(m, k) && !has_expired(m, k, now) && !holds_id(after, k) && used_bytes(after)
                + held_bytes(m, k) > m.config.max_storage,
{
    if is_authoritative(m.backing) {
        let order = by_weight(whole_seconds(now), m.prioritised);
        let test = stored_since(cutoff_at(m, now));
        let fresh = kept(m.storage.messages, test);
        let keys = choose|keys: Seq<[u8; 32]>| #[trigger]
            trims(fresh, order, payload_bytes(), m.config.max_storage, keys)
                && after.storage.messages == without(fresh, keys);
        assert(keys.contains(id));
        let q = choose|q: int| 0 <= q < keys.len() && keys[q] == id;
        assert forall|k: PropagationTransientId|
            #![trigger holds_id(after, k)]
            holds_id(after, k) implies held_weight(m, id, now) >= held_weight(m, k, now) by {
            assert(fresh.contains_key(k) && !keys.contains(k));
            assert(order((keys[q], fresh[keys[q]]), (k, fresh[k])));
        }
        lemma_kept_weighs_less(m.storage.messages, payload_bytes(), test);
        lemma_orders(whole_seconds(now), m.prioritised);
        lemma_leading_distinct(fresh, |k: [u8; 32], v: StoredMessageModel| true, order, keys);
        lemma_weigh_without(fresh, payload_bytes(), keys);
        let n = keys.len() - 1;
        let last = keys[n];
        assert(keys.take(n) =~= keys.drop_last());
        assert(weigh(fresh, payload_bytes()) > m.config.max_storage + total(
            fresh,
            payload_bytes(),
            keys.take(n),
        ));
        assert(keys.contains(last));
        assert(holds_id(m, last) && !holds_id(after, last));
    } else {
        let order = heaviest_first(now, m.prioritised);
        let test = |k: [u8; 32], e: PropagationEntry| is_fresh(e, m.config.max_message_age, now);
        let fresh = fresh_entries(m.index, m.config.max_message_age, now);
        let keys = choose|keys: Seq<[u8; 32]>| #[trigger]
            is_overflow(fresh, m.config.max_storage, now, m.prioritised, keys) && after.index
                == without(fresh, keys);
        assert(keys.contains(id));
        let q = choose|q: int| 0 <= q < keys.len() && keys[q] == id;
        assert forall|k: PropagationTransientId|
            #![trigger holds_id(after, k)]
            holds_id(after, k) implies held_weight(m, id, now) >= held_weight(m, k, now) by {
            assert(fresh.contains_key(k) && !keys.contains(k));
            assert(order((keys[q], fresh[keys[q]]), (k, fresh[k])));
        }
        lemma_kept_weighs_less(m.index, entry_bytes(), test);
        lemma_heaviest_first(now, m.prioritised);
        lemma_leading_distinct(fresh, |k: [u8; 32], v: PropagationEntry| true, order, keys);
        lemma_weigh_without(fresh, entry_bytes(), keys);
        let n = keys.len() - 1;
        let last = keys[n];
        assert(keys.take(n) =~= keys.drop_last());
        assert(total(fresh, entry_bytes(), keys.take(n)) < weigh(fresh, entry_bytes())
            - m.config.max_storage);
        assert(keys.contains(last));
        assert(holds_id(m, last) && !holds_id(after, last));
    }
}

/// What a message weighs: its bytes times its age, an age below four days counting as four
/// days, and a tenth of that where its destination is prioritised.
pub proof fn messages_weigh_bytes_times_age(m: NodeModel, id: PropagationTransientId, now: i64)
    ensures
        ({
            let w = held_weight(m, id, now);
            let bytes = held_bytes(m, id);
            let (age, base, destination) = if is_authoritative(m.backing) {
                let d = m.storage.messages[id].metadata;
                (whole_seconds(now) - d.stored_at, 4 * 24 * 3600int, d.destination_hash)
            } else {
                let e = m.index[id];
                (now - e.stored_at, 4 * 24 * 3600 * 1_000_000int, e.destination_hash)
            };
            let counted = if age > base {
                age
            } else {
                base
            };
            w == if m.prioritised.contains(destination) {
                counted * bytes
            } else {
                10 * (counted * bytes)
            }
        }),
{
}

/// A node takes a propagated message exactly where it has more than a destination, is not held,
/// is not too large, finds room, and has a stamp that is worth enough.
pub proof fn messages_are_taken_where_they_fit(
    m: NodeModel,
    data: Seq<u8>,
    stored: Seq<u8>,
    stamp_value: u8,
)
    requires
        used_bytes(m) + stored.len() <= usize::MAX,
    ensures
        takes_blob(m, data, stored, stamp_value) <==> {
            let id = transient_digest(data);
            &&& data.len() > 16
            &&& !m.storage.messages.contains_key(id)
            &&& !is_authoritative(m.backing) ==> !m.index.contains_key(id)
            &&& stored.len() <= m.config.max_message_size
            &&& is_authoritative(m.backing) ==> used_bytes(m) + stored.len()
                <= m.config.max_storage
            &&& !is_authoritative(m.backing) ==> used_bytes(m) <= m.config.max_storage
            &&& stamp_value >= m.config.min_stamp_cost
        },
{
}

/// A node that took a propagated message holds it under the digest of its data, for the
/// destination that the data begins with, with its stamp's worth and as of now; every other
/// message, and everything else, is as it was.
pub proof fn taking_a_message_changes_nothing_else(
    m: NodeModel,
    data: Seq<u8>,
    stored: Seq<u8>,
    stamp_value: u8,
    stamped: bool,
    now: i64,
    other: PropagationTransientId,
)
    requires
        stored.len() <= usize::MAX,
        0 <= now,
    ensures
        ({
            let after = with_blob(m, data, stored, stamp_value, stamped, now);
            let id = transient_digest(data);
            let d = after.storage.messages[id];
            let e = after.index[id];
            &&& after.storage.messages.contains_key(id)
            &&& d.payload == stored && d.metadata.payload_size == stored.len()
            &&& d.metadata.transient_id == id && d.metadata.message_hash == id
            &&& d.metadata.destination_hash == fixed::<16>(data.subrange(0, 16))
            &&& d.metadata.stored_at * 1_000_000 <= now < d.metadata.stored_at * 1_000_000
                + 1_000_000
            &&& d.metadata.stamp_value == stamp_value && d.metadata.stamped == stamped
            &&& !d.metadata.collected
            &&& !is_authoritative(m.backing) ==> {
                &&& after.index.contains_key(id)
                &&& e.transient_id == id && e.message_hash == id
                &&& e.destination_hash == fixed::<16>(data.subrange(0, 16))
                &&& e.stored_at == now && e.size == stored.len()
                &&& e.stamp_value == stamp_value && e.stamped == stamped && !e.collected
            }
            &&& is_authoritative(m.backing) ==> after.index == m.index
            &&& other != id ==> {
                &&& after.storage.messages.contains_key(other)
                    <==> m.storage.messages.contains_key(other)
                &&& after.storage.messages[other] == m.storage.messages[other]
                &&& after.index.contains_key(other) <==> m.index.contains_key(other)
                &&& after.index[other] == m.index[other]
            }
            &&& after == (NodeModel {
                storage: StorageModel { messages: after.storage.messages, ..m.storage },
                index: after.index,
                ..m
            })
        }),
{
}

/// A message that was sent in the clear is held packed, under its own identifier, for its own
/// destination and as of its own time; every other message is as it was.
pub proof fn clear_messages_are_held_packed(
    m: NodeModel,
    message: MessageModel,
    value: u8,
    other: PropagationTransientId,
)
    requires
        message.hash is Some,
        packed(message).len() <= usize::MAX,
    ensures
        ({
            let after = with_packed(m, message, value);
            let id = if message.transient_id is Some {
                message.transient_id->0
            } else {
                message.hash->0
            };
            let d = after.storage.messages[id];
            let e = after.index[id];
            &&& after.storage.messages.contains_key(id)
            &&& d.payload == packed(message) && d.metadata.payload_size == packed(message).len()
            &&& d.metadata.transient_id == id && Some(d.metadata.message_hash) == message.hash
            &&& d.metadata.destination_hash == message.destination_hash
            &&& d.metadata.stored_at == seconds(message.timestamp)
            &&& d.metadata.stamp_value == value && !d.metadata.stamped && !d.metadata.collected
            &&& !is_authoritative(m.backing) ==> {
                &&& after.index.contains_key(id)
                &&& e.transient_id == id && Some(e.message_hash) == message.hash
                &&& e.destination_hash == message.destination_hash
                &&& e.stored_at == micros(message.timestamp) && e.size == packed(message).len()
                &&& e.stamp_value == value && !e.stamped && !e.collected
            }
            &&& is_authoritative(m.backing) ==> after.index == m.index
            &&& other != id ==> {
                &&& after.storage.messages.contains_key(other)
                    <==> m.storage.messages.contains_key(other)
                &&& after.storage.messages[other] == m.storage.messages[other]
                &&& after.index.contains_key(other) <==> m.index.contains_key(other)
                &&& after.index[other] == m.index[other]
            }
            &&& after == (NodeModel {
                storage: StorageModel { messages: after.storage.messages, ..m.storage },
                index: after.index,
                ..m
            })
        }),
{
}

/// The entry of a file tells whose message it is: of a packed message its destination and its
/// hash, of propagated data the destination that it begins with.
pub proof fn files_tell_whose_they_are(
    id: PropagationTransientId,
    stored_at: i64,
    stamp_value: u8,
    data: Seq<u8>,
)
    requires
        data.len() <= usize::MAX,
    ensures
        ({
            let e = file_entry(id, stored_at, stamp_value, data);
            &&& e.transient_id == id && e.stored_at == stored_at && e.stamp_value == stamp_value
            &&& e.size == data.len() && !e.collected
            &&& e.stamped <==> !is_packed(data)
            &&& is_packed(data) ==> e.destination_hash == unpacked(data).destination_hash
                && e.message_hash == unpacked(data).hash->0
            &&& !is_packed(data) ==> e.message_hash == fixed::<32>(digest(data))
            &&& !is_packed(data) && data.len() >= 16 ==> e.destination_hash == fixed::<16>(
                data.take(16),
            )
        }),
{
    if data.len() >= 16 {
        assert(data.subrange(0, 16) =~= data.take(16));
    }
}

/// Maintenance forgets an offer once it no longer holds its peer off, and a session once it was
/// silent for too long; those before that it keeps as they are.
pub proof fn maintenance_forgets_what_is_over(
    m: NodeModel,
    now: i64,
    after: NodeModel,
    peer: [u8; 16],
)
    requires
        is_maintained(m, now, after),
    ensures
        after.offers.contains_key(peer) <==> m.offers.contains_key(peer) && now - m.offers[peer]
            <= PN_STAMP_THROTTLE * 1_000_000,
        after.offers.contains_key(peer) ==> after.offers[peer] == m.offers[peer],
        after.sessions.contains_key(peer) <==> m.sessions.contains_key(peer) && now
            - m.sessions[peer].last_activity <= 300 * 1_000_000,
        after.sessions.contains_key(peer) ==> after.sessions[peer] == m.sessions[peer],
        after.config == m.config && after.prioritised == m.prioritised && after.dest_hash
            == m.dest_hash && after.backing == m.backing,
{
}

/// What maintenance drops from the index it drops from storage too, and nothing else.
pub proof fn dropped_messages_leave_storage(
    m: NodeModel,
    now: i64,
    after: NodeModel,
    id: PropagationTransientId,
)
    requires
        is_maintained(m, now, after),
        !is_authoritative(m.backing),
        m.storage.messages.contains_key(id),
    ensures
        after.storage.messages.contains_key(id) <==> (m.index.contains_key(id)
            ==> after.index.contains_key(id)),
        after.storage.messages.contains_key(id) ==> after.storage.messages[id]
            == m.storage.messages[id],
{
}

/// A node starts out with what storage holds and nothing of its own.
pub proof fn nodes_start_out_with_storage(
    config: PropagationNodeConfig,
    dest_hash: [u8; 16],
    storage: StorageModel,
    backing: NodeBacking,
    k: [u8; 32],
    peer: [u8; 16],
)
    ensures
        ({
            let m = fresh_node(config, dest_hash, storage, backing);
            &&& m.config == config && m.dest_hash == dest_hash && m.storage == storage && m.backing
                == backing
            &&& !m.index.contains_key(k)
            &&& !m.prioritised.contains(peer)
            &&& !m.sessions.contains_key(peer)
            &&& !m.offers.contains_key(peer)
        }),
        default_node_config().max_storage == 256 * 1024 * 1024,
        default_node_config().max_message_age == 30 * 24 * 60 * 60,
        default_node_config().min_stamp_cost == 0,
        default_node_config().peering_cost == 18,
        default_node_config().max_message_size == 1000 * 1024,
{
}

/// A file is taken for a message unless its name ends as that of a peer, of a state file or of
/// something broken does, whatever comes before the ending.
pub proof fn other_files_are_left_alone(stem: Seq<u8>, name: Seq<u8>)
    ensures
        !names_message(stem + encode_utf8(".peer"@)),
        !names_message(stem + encode_utf8(".msgpack"@)),
        !names_message(stem + encode_utf8(".corrupt"@)),
        !names_message(name) ==> exists|front: Seq<u8>|
            name == #[trigger] (front + encode_utf8(".peer"@)) || name == front + encode_utf8(
                ".msgpack"@,
            ) || name == front + encode_utf8(".corrupt"@),
{
    lemma_ending(stem, encode_utf8(".peer"@));
    lemma_ending(stem, encode_utf8(".msgpack"@));
    lemma_ending(stem, encode_utf8(".corrupt"@));
    if !names_message(name) {
        let ending = if has_ending(name, encode_utf8(".peer"@)) {
            encode_utf8(".peer"@)
        } else if has_ending(name, encode_utf8(".msgpack"@)) {
            encode_utf8(".msgpack"@)
        } else {
            encode_utf8(".corrupt"@)
        };
        let front = name.take(name.len() - ending.len());
        assert(front + ending =~= name);
        assert(name == front + encode_utf8(".peer"@) || name == front + encode_utf8(".msgpack"@)
            || name == front + encode_utf8(".corrupt"@));
    }
}

/// What is put behind a name is its ending.
proof fn lemma_ending(stem: Seq<u8>, ending: Seq<u8>)
    ensures
        has_ending(stem + ending, ending),
{
    let name = stem + ending;
    assert(name.subrange(name.len() - ending.len(), name.len() as int) =~= ending);
}

/// A message in the clear is worth what its stamp is found to be worth for the digest of its
/// bytes, if it has one of 32 bytes, and else nothing.
pub proof fn clear_messages_are_worth_their_stamp<F: FnOnce(&[u8; 32], &[u8; 32]) -> u32>(
    m: MessageModel,
    value_of: F,
    value: u8,
)
    requires
        message_worth(m, value_of, value),
    ensures
        m.stamp is None ==> value == 0,
        m.stamp is Some && m.stamp->0.len() != 32 ==> value == 0,
        m.stamp is Some && m.stamp->0.len() == 32 ==> exists|found: u32| #[trigger]
            call_ensures(
                value_of,
                (&fixed::<32>(digest(packed(m))), &fixed::<32>(m.stamp->0)),
                found,
            ) && value == found % 256,
{
}

/// A node counts the messages of the storage that it goes by, or else those of its index.
pub proof fn held_messages_are_counted(m: NodeModel)
    ensures
        m.backing == NodeBacking::Storage || m.backing == NodeBacking::SharedStorage ==> held_count(
            m,
        ) == m.storage.messages.dom().len(),
        m.backing == NodeBacking::Memory || m.backing == NodeBacking::Directory ==> held_count(m)
            == m.index.dom().len(),
{
}

} // verus!
