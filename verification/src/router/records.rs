//! What a router keeps of others: keys, ratchets, tickets, stamp costs, and which
//! messages it has seen.

use vstd::prelude::*;

use crate::bytes::{fixed, join, lemma_fixed, same, slices_equal, to_fixed};
use crate::clock::{after, seconds_after, to_seconds, whole_seconds};
use crate::constants::{
    MESSAGE_EXPIRY, MICROS_PER_SECOND, PN_STAMP_THROTTLE, STAMP_COST_EXPIRY, TICKET_EXPIRY,
};
use crate::crypto::truncated_hash;
use crate::message::ticket_stamp;
use crate::propagation::entry_bytes;
use crate::router::{LxmRouter, RouterModel, StampCostEntry};
use crate::storage::{
    blob_models, cursor, is_latest_first, is_metadata_page, not_before, with_blobs, LxmfStorage,
    the_latest_come_first, StorageError, StorageModel, StoredIdentity, StoredMessageMetadata,
    StoredMessageModel, StoredRatchet, StoredStampCost, TransientIdKind,
};
use crate::table::{kept, saturated, weigh};
use crate::ticket::{admits, Ticket};
use crate::types::PropagationTransientId;

verus! {

/// A router with other contents of its storage.
pub open spec fn with_storage(m: RouterModel, storage: StorageModel) -> RouterModel {
    RouterModel { storage, ..m }
}

/// Whether an operation on storage gave `after`: `next` where it succeeded, no change where
/// it failed, and it fails only where storage is not reliable.
pub open spec fn stores<T>(
    m: RouterModel,
    after: RouterModel,
    next: StorageModel,
    r: Result<T, StorageError>,
) -> bool {
    &&& m.reliable ==> r is Ok
    &&& r is Ok ==> after == with_storage(m, next)
    &&& r is Err ==> after == m
}

/// Whether an operation on storage whose result is not looked at gave `after`.
pub open spec fn tries(m: RouterModel, after: RouterModel, next: StorageModel) -> bool {
    &&& m.reliable ==> after == with_storage(m, next)
    &&& after == with_storage(m, next) || after == m
}

/// Whether `found` is what a lookup in storage found; it may find nothing where storage is
/// not reliable.
pub open spec fn looks_up<K, V>(reliable: bool, map: Map<K, V>, k: K, found: Option<V>) -> bool {
    &&& found matches Some(v) ==> map.contains_key(k) && map[k] == v
    &&& reliable && found is None ==> !map.contains_key(k)
}

/// The public keys of some identities.
pub open spec fn public_keys(page: Seq<StoredIdentity>) -> Seq<([u8; 16], [u8; 64])> {
    Seq::new(page.len(), |i: int| (page[i].destination_hash, page[i].public_key))
}

/// Whether `page` holds the latest identities, or nothing where storage failed.
pub open spec fn is_identity_page(
    m: RouterModel,
    limit: usize,
    page: Seq<StoredIdentity>,
) -> bool {
    ||| is_latest_first(
        m.storage.identities,
        |i: StoredIdentity| true,
        |i: StoredIdentity| i.updated_at,
        limit as nat,
        page,
    )
    ||| !m.reliable && page.len() == 0
}

impl<S: LxmfStorage> LxmRouter<S> {
    pub fn remember_identity(
        &mut self,
        destination_hash: [u8; 16],
        public_key: [u8; 64],
        now: i64,
    ) -> (r: Result<(), StorageError>)
        ensures
            stores(
                old(self)@,
                final(self)@,
                StorageModel {
                    identities: old(self)@.storage.identities.insert(
                        destination_hash,
                        StoredIdentity { destination_hash, public_key, updated_at: now },
                    ),
                    ..old(self)@.storage
                },
                r,
            ),
    {
        self.storage.upsert_identity(
            StoredIdentity { destination_hash, public_key, updated_at: now },
        )
    }

    pub fn identity(&self, destination_hash: &[u8; 16]) -> (r: Option<[u8; 64]>)
        ensures
            r matches Some(key) ==> self@.storage.identities.contains_key(*destination_hash)
                && self@.storage.identities[*destination_hash].public_key == key,
            self@.reliable && r is None ==> !self@.storage.identities.contains_key(
                *destination_hash,
            ),
    {
        match self.storage.identity(destination_hash) {
            Ok(Some(i)) => Some(i.public_key),
            _ => None,
        }
    }

    /// The public keys of the latest identities.
    pub fn identity_cache_seed(&self, limit: usize) -> (list: Vec<([u8; 16], [u8; 64])>)
        ensures
            exists|page: Seq<StoredIdentity>| #[trigger]
                is_identity_page(self@, limit, page) && list@ == public_keys(page),
    {
        let page = match self.storage.identity_page(limit) {
            Ok(p) => p,
            Err(_) => Vec::new(),
        };
        assert(is_identity_page(self@, limit, page@));
        let mut list: Vec<([u8; 16], [u8; 64])> = Vec::new();
        let mut i: usize = 0;
        while i < page.len()
            invariant
                i <= page@.len(),
                list@.len() == i,
                forall|j: int|
                    0 <= j < i ==> #[trigger] list@[j] == (
                        page@[j].destination_hash,
                        page@[j].public_key,
                    ),
            decreases page@.len() - i,
        {
            list.push((page[i].destination_hash, page[i].public_key));
            i = i + 1;
        }
        assert(list@ =~= public_keys(page@));
        list
    }

    pub fn remember_received_ratchet(
        &mut self,
        destination_hash: [u8; 16],
        ratchet_key: [u8; 32],
        received_at: i64,
    ) -> (r: Result<(), StorageError>)
        ensures
            stores(
                old(self)@,
                final(self)@,
                StorageModel {
                    ratchets: old(self)@.storage.ratchets.insert(
                        destination_hash,
                        StoredRatchet { destination_hash, ratchet_key, received_at },
                    ),
                    ..old(self)@.storage
                },
                r,
            ),
    {
        self.storage.upsert_ratchet(StoredRatchet { destination_hash, ratchet_key, received_at })
    }

    pub fn received_ratchet(&self, destination_hash: &[u8; 16]) -> (r: Option<StoredRatchet>)
        ensures
            looks_up(self@.reliable, self@.storage.ratchets, *destination_hash, r),
    {
        match self.storage.ratchet(destination_hash) {
            Ok(r) => r,
            Err(_) => None,
        }
    }

    /// The latest ratchets that were received at `cutoff` or later.
    pub fn ratchet_cache_seed(&self, cutoff: i64, limit: usize) -> (page: Vec<StoredRatchet>)
        ensures
            is_latest_first(
                self@.storage.ratchets,
                |x: StoredRatchet| x.received_at >= cutoff,
                |x: StoredRatchet| x.received_at,
                limit as nat,
                page@,
            ) || (!self@.reliable && page@.len() == 0),
    {
        match self.storage.ratchet_page(cutoff, limit) {
            Ok(p) => p,
            Err(_) => Vec::new(),
        }
    }

    /// Drops the ratchets that were received before `cutoff`.
    pub fn cull_received_ratchets_before(&mut self, cutoff: i64) -> (n: usize)
        ensures
            ({
                let next = StorageModel {
                    ratchets: kept(
                        old(self)@.storage.ratchets,
                        |k: [u8; 16], x: StoredRatchet| x.received_at >= cutoff,
                    ),
                    ..old(self)@.storage
                };
                &&& tries(old(self)@, final(self)@, next)
                &&& final(self)@ == with_storage(old(self)@, next) && n
                    == old(self)@.storage.ratchets.len() - next.ratchets.len() || final(self)@
                    == old(self)@ && n == 0
            }),
    {
        match self.storage.cull_ratchets_before(cutoff) {
            Ok(n) => n,
            Err(_) => 0,
        }
    }

    pub fn put_state_blob(&mut self, key: &str, value: &[u8]) -> (r: Result<(), StorageError>)
        ensures
            stores(
                old(self)@,
                final(self)@,
                StorageModel {
                    state_blobs: old(self)@.storage.state_blobs.insert(key@, value@),
                    ..old(self)@.storage
                },
                r,
            ),
    {
        self.storage.put_state_blob(key, value)
    }

    /// Keeps some byte strings: all of them, or those before the first that storage fails to
    /// keep.
    pub fn put_state_blobs(&mut self, entries: &Vec<(&str, &[u8])>) -> (r: Result<(), StorageError>)
        ensures
            old(self)@.reliable ==> r is Ok,
            exists|n: int|
                0 <= n <= entries@.len() && (r is Ok ==> n == entries@.len()) && final(self)@
                    == with_storage(
                    old(self)@,
                    with_blobs(old(self)@.storage, #[trigger] blob_models(entries@).take(n)),
                ),
    {
        self.storage.put_state_blobs(entries)
    }

    pub fn state_blob(&self, key: &str) -> (r: Option<Vec<u8>>)
        ensures
            r matches Some(v) ==> self@.storage.state_blobs.contains_key(key@)
                && self@.storage.state_blobs[key@] == v@,
            self@.reliable && r is None ==> !self@.storage.state_blobs.contains_key(key@),
    {
        match self.storage.state_blob(key) {
            Ok(r) => r,
            Err(_) => None,
        }
    }

    /// Records a received message.
    pub fn store_inbound_message(&mut self, id: [u8; 32], encoded: &[u8], now: i64) -> (r: Result<
        (),
        StorageError,
    >)
        ensures
            old(self)@.reliable ==> r is Ok,
            r is Ok ==> final(self)@ == with_storage(
                old(self)@,
                StorageModel {
                    inbound: old(self)@.storage.inbound.insert(id, (now, encoded@)),
                    ..old(self)@.storage
                },
            ) || old(self)@.storage.inbound.contains_key(id) && final(self)@ == old(self)@,
            r is Err ==> final(self)@ == old(self)@,
    {
        self.storage.insert_inbound_message(id, now, encoded)
    }

    pub fn contains_inbound_message(&self, id: &[u8; 32]) -> (b: bool)
        ensures
            b ==> self@.storage.inbound.contains_key(*id),
            self@.reliable ==> b == self@.storage.inbound.contains_key(*id),
    {
        match self.storage.contains_inbound_message(id) {
            Ok(b) => b,
            Err(_) => false,
        }
    }

    // -----------------------------------------------------------------------
    // Messages that were seen.
    // -----------------------------------------------------------------------

    pub fn is_locally_delivered(&self, transient_id: &PropagationTransientId) -> (r: Result<
        bool,
        StorageError,
    >)
        ensures
            self@.reliable ==> r is Ok,
            r matches Ok(b) ==> b == self@.storage.delivered.contains_key(*transient_id),
    {
        self.storage.contains_transient_id(TransientIdKind::LocallyDelivered, transient_id)
    }

    pub fn is_locally_processed(&self, transient_id: &PropagationTransientId) -> (r: Result<
        bool,
        StorageError,
    >)
        ensures
            self@.reliable ==> r is Ok,
            r matches Ok(b) ==> b == self@.storage.processed.contains_key(*transient_id),
    {
        self.storage.contains_transient_id(TransientIdKind::LocallyProcessed, transient_id)
    }

    pub fn mark_locally_delivered(&mut self, transient_id: PropagationTransientId, now: i64) -> (r:
        Result<(), StorageError>)
        ensures
            stores(
                old(self)@,
                final(self)@,
                old(self)@.storage.with_seen(
                    TransientIdKind::LocallyDelivered,
                    transient_id,
                    whole_seconds(now),
                ),
                r,
            ),
    {
        self.storage.upsert_transient_id(
            TransientIdKind::LocallyDelivered,
            transient_id,
            to_seconds(now),
        )
    }

    pub fn mark_locally_processed(&mut self, transient_id: PropagationTransientId, now: i64) -> (r:
        Result<(), StorageError>)
        ensures
            stores(
                old(self)@,
                final(self)@,
                old(self)@.storage.with_seen(
                    TransientIdKind::LocallyProcessed,
                    transient_id,
                    whole_seconds(now),
                ),
                r,
            ),
    {
        self.storage.upsert_transient_id(
            TransientIdKind::LocallyProcessed,
            transient_id,
            to_seconds(now),
        )
    }

    /// Forgets the messages that were seen longer ago than six times a message lives.
    /// `now` is in seconds.
    pub fn cull_transient_ids(&mut self, now: i64) -> (r: Result<usize, StorageError>)
        ensures
            stores(
                old(self)@,
                final(self)@,
                StorageModel {
                    delivered: not_before(old(self)@.storage.delivered, retention_cutoff(now)),
                    processed: not_before(old(self)@.storage.processed, retention_cutoff(now)),
                    ..old(self)@.storage
                },
                r,
            ),
            r matches Ok(n) ==> n == saturated(
                (old(self)@.storage.delivered.len() + old(self)@.storage.processed.len()
                    - final(self)@.storage.delivered.len()
                    - final(self)@.storage.processed.len()) as nat,
            ),
    {
        let cutoff: i64 = if now < i64::MIN + RETENTION {
            i64::MIN
        } else {
            now - RETENTION
        };
        self.storage.cull_transient_ids_before(cutoff)
    }

    // -----------------------------------------------------------------------
    // Propagated messages.
    // -----------------------------------------------------------------------

    /// What is stored about a propagated message.
    pub fn propagation_metadata(&self, transient_id: &PropagationTransientId) -> (r: Result<
        Option<StoredMessageMetadata>,
        StorageError,
    >)
        ensures
            self@.reliable ==> r is Ok,
            r matches Ok(o) ==> o == (if self@.storage.messages.contains_key(*transient_id) {
                Some(self@.storage.messages[*transient_id].metadata)
            } else {
                None
            }),
    {
        self.storage.message_metadata(transient_id)
    }

    /// The first `limit` propagated messages after a cursor, by identifier.
    pub fn propagation_metadata_page(
        &self,
        after: Option<&PropagationTransientId>,
        limit: usize,
    ) -> (r: Result<Vec<StoredMessageMetadata>, StorageError>)
        ensures
            self@.reliable ==> r is Ok,
            r matches Ok(page) ==> is_metadata_page(
                self@.storage.messages,
                |k: [u8; 32], m: StoredMessageModel| true,
                cursor(after),
                limit as nat,
                page@,
            ),
    {
        self.storage.message_metadata_page(after, limit)
    }

    /// The bytes of the messages in the propagation store.
    pub fn message_storage_size(&self) -> (n: usize)
        ensures
            n == saturated(weigh(self@.store, entry_bytes())),
    {
        self.propagation_store.total_size()
    }

    // -----------------------------------------------------------------------
    // Throttled peers.
    // -----------------------------------------------------------------------

    /// Forgets the peers that are no longer throttled.
    pub fn clean_throttled_peers(&mut self, now: i64)
        ensures
            final(self)@ == (RouterModel {
                throttled: still_throttled(old(self)@.throttled, now),
                ..old(self)@
            }),
    {
        let ghost test = |k: [u8; 16], until: i64| now < until;
        let keep = |k: &[u8; 16], until: &i64| -> (b: bool)
            ensures
                b == (now < *until),
            { now < *until };
        self.throttled_peers.retain(keep, Ghost(test));
    }

    pub fn is_peer_throttled(&self, peer_hash: &[u8; 16], now: i64) -> (b: bool)
        ensures
            b == is_throttled(self@, *peer_hash, now),
    {
        match self.throttled_peers.get(peer_hash) {
            Some(until) => now < *until,
            None => false,
        }
    }

    /// Throttles a peer for a while.
    pub fn throttle_peer(&mut self, peer_hash: [u8; 16], now: i64)
        ensures
            final(self)@ == (RouterModel {
                throttled: old(self)@.throttled.insert(peer_hash, after(now, PN_STAMP_THROTTLE)),
                ..old(self)@
            }),
    {
        self.throttled_peers.insert(peer_hash, seconds_after(now, PN_STAMP_THROTTLE));
    }

    pub fn unthrottle_peer(&mut self, peer_hash: &[u8; 16]) -> (b: bool)
        ensures
            b == old(self)@.throttled.contains_key(*peer_hash),
            final(self)@ == (RouterModel {
                throttled: old(self)@.throttled.remove(*peer_hash),
                ..old(self)@
            }),
    {
        self.throttled_peers.remove(peer_hash).is_some()
    }
}

/// Seconds for which it is remembered that a message was seen.
pub const RETENTION: i64 = 15_552_000;

/// Before when it is forgotten that a message was seen, in seconds.
pub open spec fn retention_cutoff(now: i64) -> i64 {
    if now - 6 * MESSAGE_EXPIRY < i64::MIN {
        i64::MIN
    } else {
        (now - 6 * MESSAGE_EXPIRY) as i64
    }
}

/// The peers that are still throttled.
pub open spec fn still_throttled(throttled: Map<[u8; 16], i64>, now: i64) -> Map<[u8; 16], i64> {
    kept(throttled, |k: [u8; 16], until: i64| now < until)
}

/// Whether a peer is throttled.
pub open spec fn is_throttled(m: RouterModel, peer: [u8; 16], now: i64) -> bool {
    m.throttled.contains_key(peer) && now < m.throttled[peer]
}

/// Forgetting who is no longer throttled does not change who is.
pub proof fn cleaning_keeps_throttled_peers(m: RouterModel, peer: [u8; 16], now: i64, later: i64)
    requires
        now <= later,
    ensures
        is_throttled(
            RouterModel { throttled: still_throttled(m.throttled, now), ..m },
            peer,
            later,
        ) == is_throttled(m, peer, later),
{
}

// ---------------------------------------------------------------------------
// Tickets.
// ---------------------------------------------------------------------------

/// The oldest of some tickets that admits a message to a destination.
pub open spec fn oldest_ticket(
    tickets: Seq<Ticket>,
    destination: [u8; 16],
    now: i64,
) -> Option<Ticket>
    decreases tickets.len(),
{
    if tickets.len() == 0 {
        None
    } else if admits(tickets.first(), destination, now) {
        Some(tickets.first())
    } else {
        oldest_ticket(tickets.drop_first(), destination, now)
    }
}

proof fn lemma_oldest_ticket(
    tickets: Seq<Ticket>,
    destination: [u8; 16],
    now: i64,
    i: int,
)
    requires
        0 <= i <= tickets.len(),
        i < tickets.len() ==> admits(tickets[i], destination, now),
        forall|j: int| 0 <= j < i ==> !admits(#[trigger] tickets[j], destination, now),
    ensures
        oldest_ticket(tickets, destination, now) == (if i < tickets.len() {
            Some(tickets[i])
        } else {
            None
        }),
    decreases tickets.len(),
{
    if i > 0 {
        assert(!admits(tickets[0], destination, now));
        let rest = tickets.drop_first();
        assert forall|j: int| 0 <= j < i - 1 implies !admits(
            #[trigger] rest[j],
            destination,
            now,
        ) by {
            assert(rest[j] == tickets[j + 1]);
        }
        lemma_oldest_ticket(rest, destination, now, i - 1);
    }
}

/// Whether `found` is a ticket that a router has for a destination: the oldest that it has
/// in memory, or any of those in storage.
pub open spec fn is_ticket_for(
    m: RouterModel,
    destination: [u8; 16],
    now: i64,
    found: Option<Ticket>,
) -> bool {
    if m.storage_authoritative {
        &&& found matches Some(t) ==> admits(t, destination, now) && exists|k: [u8; 16]| #[trigger]
            m.storage.tickets.contains_key(k) && m.storage.tickets[k] == t
        &&& m.reliable && found is None ==> forall|k: [u8; 16]| #[trigger]
            m.storage.tickets.contains_key(k) ==> !admits(m.storage.tickets[k], destination, now)
    } else {
        found == oldest_ticket(m.tickets, destination, now)
    }
}

/// A router with one more ticket, unless storage fails to keep it.
pub open spec fn is_with_ticket(m: RouterModel, after: RouterModel, ticket: Ticket) -> bool {
    if m.storage_authoritative {
        tries(
            m,
            after,
            StorageModel {
                tickets: m.storage.tickets.insert(ticket.token, ticket),
                ..m.storage
            },
        )
    } else {
        after == (RouterModel { tickets: m.tickets.push(ticket), ..m })
    }
}

/// `rand::thread_rng`, asked to fill sixteen bytes.  Nothing is claimed of them.
#[verifier::external_body]
fn random_token() -> (token: [u8; 16]) {
    let mut token = [0u8; 16];
    rand::RngCore::fill_bytes(&mut rand::thread_rng(), &mut token);
    token
}

/// Whether one of some tickets for a destination accounts for a stamp.
pub open spec fn ticket_accounts(
    tickets: Seq<Ticket>,
    destination: [u8; 16],
    id: [u8; 32],
    stamp: Seq<u8>,
    now: i64,
) -> bool {
    exists|i: int|
        0 <= i < tickets.len() && admits(#[trigger] tickets[i], destination, now) && ticket_stamp(
            tickets[i].token@,
            id,
        ) == stamp
}

/// The cost that a destination announced not too long ago.
pub open spec fn fresh_cost(cost: u8, recorded_at: i64, now: i64) -> Option<u8> {
    if now - recorded_at < STAMP_COST_EXPIRY * MICROS_PER_SECOND {
        Some(cost)
    } else {
        None
    }
}

/// The stamp cost that a router knows of a destination.
pub open spec fn known_cost(m: RouterModel, destination: [u8; 16], now: i64) -> Option<u8> {
    if m.storage_authoritative {
        if m.storage.stamp_costs.contains_key(destination) {
            let e = m.storage.stamp_costs[destination];
            fresh_cost(e.cost, e.recorded_at, now)
        } else {
            None
        }
    } else if m.stamp_costs.contains_key(destination) {
        let e = m.stamp_costs[destination];
        fresh_cost(e.cost, e.recorded_at, now)
    } else {
        None
    }
}

fn is_fresh_cost(recorded_at: i64, now: i64) -> (b: bool)
    ensures
        b == (now - recorded_at < STAMP_COST_EXPIRY * MICROS_PER_SECOND),
{
    (now as i128 - recorded_at as i128) < STAMP_COST_EXPIRY as i128 * MICROS_PER_SECOND as i128
}

impl<S: LxmfStorage> LxmRouter<S> {
    /// A ticket for a destination.
    pub(crate) fn find_ticket(&self, destination_hash: &[u8; 16], now: i64) -> (r: Option<Ticket>)
        ensures
            is_ticket_for(self@, *destination_hash, now, r),
    {
        if self.storage_authoritative {
            match self.storage.valid_ticket(destination_hash, now) {
                Ok(Some(t)) => {
                    proof {
                        let k = choose|k: [u8; 16]| #[trigger]
                            self.storage.model().tickets.contains_key(k)
                                && self.storage.model().tickets[k] == t;
                        assert(self@.storage.tickets.contains_key(k));
                    }
                    Some(t)
                },
                Ok(None) => None,
                Err(_) => None,
            }
        } else {
            match self.ticket_store.find(destination_hash, now) {
                Some(t) => {
                    proof {
                        let s = self.ticket_store@;
                        let i = choose|i: int|
                            0 <= i < s.len() && #[trigger] s[i] == *t && admits(
                                *t,
                                *destination_hash,
                                now,
                            ) && forall|j: int|
                                0 <= j < i ==> !admits(#[trigger] s[j], *destination_hash, now);
                        lemma_oldest_ticket(s, *destination_hash, now, i);
                    }
                    Some(*t)
                },
                None => {
                    proof {
                        let s = self.ticket_store@;
                        lemma_oldest_ticket(s, *destination_hash, now, s.len() as int);
                    }
                    None
                },
            }
        }
    }

    /// Keeps a ticket, so that messages to its destination can carry it.
    pub fn remember_ticket(&mut self, destination_hash: [u8; 16], token: [u8; 16], expires: i64)
        ensures
            is_with_ticket(
                old(self)@,
                final(self)@,
                Ticket { token, destination_hash, expires, used: false },
            ),
    {
        let ticket = Ticket::new(token, destination_hash, expires);
        if self.storage_authoritative {
            let _ = self.storage.upsert_ticket(&ticket);
        } else {
            self.ticket_store.add(ticket);
        }
    }

    /// Keeps a fresh ticket with a random token, and tells the token.
    pub fn generate_ticket(
        &mut self,
        destination_hash: [u8; 16],
        expiry_secs: Option<u64>,
        now: i64,
    ) -> (token: [u8; 16])
        ensures
            is_with_ticket(
                old(self)@,
                final(self)@,
                Ticket {
                    token,
                    destination_hash,
                    expires: after(
                        now,
                        match expiry_secs {
                            Some(s) => s,
                            None => TICKET_EXPIRY,
                        },
                    ),
                    used: false,
                },
            ),
    {
        let token = random_token();
        let lifetime: u64 = match expiry_secs {
            Some(s) => s,
            None => TICKET_EXPIRY,
        };
        self.remember_ticket(destination_hash, token, seconds_after(now, lifetime));
        token
    }

    /// Drops the tickets for a destination and tells how many there were.
    pub fn remove_tickets(&mut self, destination_hash: &[u8; 16]) -> (n: usize)
        ensures
            ({
                let m = old(self)@;
                let after = final(self)@;
                if m.storage_authoritative {
                    let next = StorageModel {
                        tickets: kept(
                            m.storage.tickets,
                            |k: [u8; 16], t: Ticket| t.destination_hash != *destination_hash,
                        ),
                        ..m.storage
                    };
                    &&& tries(m, after, next)
                    &&& after == with_storage(m, next) && n == m.storage.tickets.len()
                        - next.tickets.len() || after == m && n == 0
                } else {
                    &&& after == (RouterModel {
                        tickets: m.tickets.filter(
                            |t: Ticket| t.destination_hash != *destination_hash,
                        ),
                        ..m
                    })
                    &&& n == m.tickets.len() - after.tickets.len()
                }
            }),
    {
        if self.storage_authoritative {
            match self.storage.remove_tickets(destination_hash) {
                Ok(n) => n,
                Err(_) => 0,
            }
        } else {
            self.ticket_store.remove_destination(destination_hash)
        }
    }

    /// The token of a ticket for a destination.
    pub fn get_outbound_ticket(&self, destination_hash: &[u8; 16], now: i64) -> (r: Option<
        [u8; 16],
    >)
        ensures
            exists|found: Option<Ticket>| #[trigger]
                is_ticket_for(self@, *destination_hash, now, found) && r == (match found {
                    Some(t) => Some(t.token),
                    None => None,
                }),
    {
        match self.find_ticket(destination_hash, now) {
            Some(t) => Some(t.token),
            None => None,
        }
    }

    /// When a ticket for a destination expires.
    pub fn get_outbound_ticket_expiry(&self, destination_hash: &[u8; 16], now: i64) -> (r: Option<
        i64,
    >)
        ensures
            exists|found: Option<Ticket>| #[trigger]
                is_ticket_for(self@, *destination_hash, now, found) && r == (match found {
                    Some(t) => Some(t.expires),
                    None => None,
                }),
    {
        match self.find_ticket(destination_hash, now) {
            Some(t) => Some(t.expires),
            None => None,
        }
    }

    /// The tickets in memory, expired and used ones too.
    pub fn get_inbound_tickets(&self) -> (list: &Vec<Ticket>)
        ensures
            list@ == self@.tickets,
    {
        self.ticket_store.all()
    }

    /// Whether a stamp is worth a cost: a ticket accounts for it, or `prove` finds that it
    /// is a proof of work worth that much.
    pub fn validate_stamp_with_tickets<P>(
        &self,
        message_id: &[u8; 32],
        stamp: &[u8],
        required_cost: u8,
        destination_hash: &[u8; 16],
        now: i64,
        prove: P,
    ) -> (b: bool) where P: FnOnce(&[u8; 32], &[u8; 32], u8) -> bool
        requires
            forall|id: &[u8; 32], s: &[u8; 32], cost: u8| call_requires(prove, (id, s, cost)),
        ensures
            ticket_accounts(self@.tickets, *destination_hash, *message_id, stamp@, now) ==> b,
            !ticket_accounts(self@.tickets, *destination_hash, *message_id, stamp@, now)
                && stamp@.len() != 32 ==> !b,
            !ticket_accounts(self@.tickets, *destination_hash, *message_id, stamp@, now)
                && stamp@.len() == 32 ==> call_ensures(
                prove,
                (message_id, &fixed::<32>(stamp@), required_cost),
                b,
            ),
    {
        let tickets = self.ticket_store.all();
        let mut i: usize = 0;
        while i < tickets.len()
            invariant
                i <= tickets@.len(),
                tickets@ == self@.tickets,
                forall|j: int|
                    0 <= j < i ==> !(admits(#[trigger] tickets@[j], *destination_hash, now)
                        && ticket_stamp(tickets@[j].token@, *message_id) == stamp@),
            decreases tickets@.len() - i,
        {
            let t = tickets[i];
            if same(&t.destination_hash, destination_hash) && t.is_valid(now) {
                let material = join(t.token.as_slice(), message_id.as_slice());
                let expected = truncated_hash(material.as_slice());
                if slices_equal(stamp, expected.as_slice()) {
                    assert(ticket_accounts(
                        self@.tickets,
                        *destination_hash,
                        *message_id,
                        stamp@,
                        now,
                    ));
                    return true;
                }
            }
            i = i + 1;
        }
        let proof_of_work: Option<[u8; 32]> = to_fixed(stamp);
        match proof_of_work {
            Some(s) => {
                proof {
                    lemma_fixed(s);
                }
                prove(message_id, &s, required_cost)
            },
            None => false,
        }
    }

    // -----------------------------------------------------------------------
    // Stamp costs.
    // -----------------------------------------------------------------------

    /// The stamp cost of a destination; storage that fails to answer counts as no answer.
    pub fn get_stamp_cost(&self, destination_hash: &[u8; 16], now: i64) -> (r: Option<u8>)
        ensures
            r == known_cost(self@, *destination_hash, now) || (self@.storage_authoritative
                && !self@.reliable && r is None),
    {
        if self.storage_authoritative {
            match self.storage.stamp_cost(destination_hash) {
                Ok(Some(e)) => if is_fresh_cost(e.recorded_at, now) {
                    Some(e.cost)
                } else {
                    None
                },
                _ => None,
            }
        } else {
            match self.outbound_stamp_costs.get(destination_hash) {
                Some(e) => if is_fresh_cost(e.recorded_at, now) {
                    Some(e.cost)
                } else {
                    None
                },
                None => None,
            }
        }
    }

    pub fn set_stamp_cost(&mut self, destination_hash: [u8; 16], cost: u8, now: i64)
        ensures
            old(self)@.storage_authoritative ==> tries(
                old(self)@,
                final(self)@,
                StorageModel {
                    stamp_costs: old(self)@.storage.stamp_costs.insert(
                        destination_hash,
                        StoredStampCost { destination_hash, cost, recorded_at: now },
                    ),
                    ..old(self)@.storage
                },
            ),
            !old(self)@.storage_authoritative ==> final(self)@ == (RouterModel {
                stamp_costs: old(self)@.stamp_costs.insert(
                    destination_hash,
                    StampCostEntry { cost, recorded_at: now },
                ),
                ..old(self)@
            }),
    {
        if self.storage_authoritative {
            let _ = self.storage.upsert_stamp_cost(
                StoredStampCost { destination_hash, cost, recorded_at: now },
            );
        } else {
            self.outbound_stamp_costs.insert(
                destination_hash,
                StampCostEntry { cost, recorded_at: now },
            );
        }
    }

    pub fn remove_stamp_cost(&mut self, destination_hash: &[u8; 16]) -> (b: bool)
        ensures
            ({
                let m = old(self)@;
                let after = final(self)@;
                if m.storage_authoritative {
                    let next = StorageModel {
                        stamp_costs: m.storage.stamp_costs.remove(*destination_hash),
                        ..m.storage
                    };
                    &&& tries(m, after, next)
                    &&& after == with_storage(m, next) && b == m.storage.stamp_costs.contains_key(
                        *destination_hash,
                    ) || after == m && !b
                } else {
                    &&& b == m.stamp_costs.contains_key(*destination_hash)
                    &&& after == (RouterModel {
                        stamp_costs: m.stamp_costs.remove(*destination_hash),
                        ..m
                    })
                }
            }),
    {
        if self.storage_authoritative {
            match self.storage.remove_stamp_cost(destination_hash) {
                Ok(b) => b,
                Err(_) => false,
            }
        } else {
            self.outbound_stamp_costs.remove(destination_hash).is_some()
        }
    }

    /// The stamp cost of a destination that is in memory, however old.
    pub fn get_outbound_lxm_stamp_cost(&self, destination_hash: &[u8; 16]) -> (r: Option<u8>)
        ensures
            r == (if self@.stamp_costs.contains_key(*destination_hash) {
                Some(self@.stamp_costs[*destination_hash].cost)
            } else {
                None
            }),
    {
        match self.outbound_stamp_costs.get(destination_hash) {
            Some(e) => Some(e.cost),
            None => None,
        }
    }
}

/// A stamp that is derived from a ticket that a router has is accepted, whatever cost is
/// asked for.
pub proof fn ticket_stamps_are_accepted(
    m: RouterModel,
    ticket: Ticket,
    id: [u8; 32],
    now: i64,
)
    requires
        m.tickets.contains(ticket),
        ticket.valid_at(now),
    ensures
        ticket_accounts(
            m.tickets,
            ticket.destination_hash,
            id,
            ticket_stamp(ticket.token@, id),
            now,
        ),
{
    let i = choose|i: int| 0 <= i < m.tickets.len() && m.tickets[i] == ticket;
    assert(admits(m.tickets[i], ticket.destination_hash, now));
}

// ---------------------------------------------------------------------------
// What is kept and found.
// ---------------------------------------------------------------------------

/// An operation on storage that does not fail has its effect, one that fails has none, and
/// nothing else of a router changes.
pub proof fn storage_operations_take_effect(
    m: RouterModel,
    after: RouterModel,
    next: StorageModel,
    r: Result<(), StorageError>,
    tried: RouterModel,
)
    requires
        stores(m, after, next, r),
        tries(m, tried, next),
    ensures
        m.reliable ==> r is Ok && after.storage == next && tried.storage == next,
        r is Ok ==> after.storage == next,
        r is Err ==> after.storage == m.storage,
        tried.storage == next || tried.storage == m.storage,
        after == (RouterModel { storage: after.storage, ..m }),
        tried == (RouterModel { storage: tried.storage, ..m }),
{
}

/// What a lookup finds is there, and where storage does not fail it finds what is there.
pub proof fn lookups_find_what_is_there<K, V>(
    reliable: bool,
    map: Map<K, V>,
    k: K,
    found: Option<V>,
)
    requires
        looks_up(reliable, map, k, found),
    ensures
        found is Some ==> map.contains_key(k) && found == Some(map[k]),
        reliable && map.contains_key(k) ==> found == Some(map[k]),
{
}

/// A ticket that is found is one that the router has, for the destination, and not expired; and
/// one is found where there is one.
pub proof fn tickets_that_admit_are_found(
    m: RouterModel,
    destination: [u8; 16],
    now: i64,
    found: Option<Ticket>,
)
    requires
        is_ticket_for(m, destination, now, found),
    ensures
        found matches Some(t) ==> t.destination_hash == destination && !t.used && now < t.expires
            && (m.storage_authoritative ==> exists|k: [u8; 16]| #[trigger]
            m.storage.tickets.contains_key(k) && m.storage.tickets[k] == t) && (
        !m.storage_authoritative ==> m.tickets.contains(t)),
        found is None && !m.storage_authoritative ==> forall|i: int|
            0 <= i < m.tickets.len() ==> !((#[trigger] m.tickets[i]).destination_hash == destination
                && !m.tickets[i].used && now < m.tickets[i].expires),
        found is None && m.storage_authoritative && m.reliable ==> forall|k: [u8; 16]| #[trigger]
            m.storage.tickets.contains_key(k) ==> !(m.storage.tickets[k].destination_hash
                == destination && !m.storage.tickets[k].used && now < m.storage.tickets[k].expires),
{
    if !m.storage_authoritative {
        lemma_oldest_ticket_found(m.tickets, destination, now);
    }
}

/// The oldest ticket is the first of some tickets that admits a message.
proof fn lemma_oldest_ticket_found(tickets: Seq<Ticket>, destination: [u8; 16], now: i64)
    ensures
        oldest_ticket(tickets, destination, now) matches Some(t) ==> tickets.contains(t) && admits(
            t,
            destination,
            now,
        ),
        oldest_ticket(tickets, destination, now) is None ==> forall|i: int|
            0 <= i < tickets.len() ==> !admits(#[trigger] tickets[i], destination, now),
    decreases tickets.len(),
{
    if tickets.len() > 0 {
        let rest = tickets.drop_first();
        lemma_oldest_ticket_found(rest, destination, now);
        assert(tickets[0] == tickets.first());
        match oldest_ticket(rest, destination, now) {
            Some(t) => {
                let i = choose|i: int| 0 <= i < rest.len() && rest[i] == t;
                assert(tickets[i + 1] == t);
            },
            None => {
                assert forall|i: int| 0 <= i < tickets.len() && !admits(
                    tickets.first(),
                    destination,
                    now,
                ) implies !admits(#[trigger] tickets[i], destination, now) by {
                    if i > 0 {
                        assert(tickets[i] == rest[i - 1]);
                    }
                }
            },
        }
    }
}

/// Of the tickets in memory the one that was kept first is used.
pub proof fn the_oldest_ticket_is_used(
    m: RouterModel,
    destination: [u8; 16],
    now: i64,
    found: Option<Ticket>,
    i: int,
)
    requires
        is_ticket_for(m, destination, now, found),
        !m.storage_authoritative,
        0 <= i < m.tickets.len(),
        m.tickets[i].destination_hash == destination,
        !m.tickets[i].used,
        now < m.tickets[i].expires,
        forall|j: int|
            0 <= j < i ==> (#[trigger] m.tickets[j]).destination_hash != destination
                || m.tickets[j].used || now >= m.tickets[j].expires,
    ensures
        found == Some(m.tickets[i]),
{
    lemma_oldest_ticket(m.tickets, destination, now, i);
}

/// A ticket that is kept is there for messages to its destination until it expires, and the
/// tickets that were there before still are.
pub proof fn kept_tickets_are_found(
    m: RouterModel,
    after: RouterModel,
    ticket: Ticket,
    now: i64,
)
    requires
        is_with_ticket(m, after, ticket),
        !m.storage_authoritative || m.reliable,
        !ticket.used,
        now < ticket.expires,
    ensures
        !is_ticket_for(after, ticket.destination_hash, now, None),
        !m.storage_authoritative ==> after.tickets == m.tickets + seq![ticket],
        m.storage_authoritative ==> after.storage.tickets.contains_key(ticket.token)
            && after.storage.tickets[ticket.token] == ticket && forall|k: [u8; 16]|
            #![trigger after.storage.tickets.contains_key(k)]
            k != ticket.token ==> (after.storage.tickets.contains_key(k)
                <==> m.storage.tickets.contains_key(k)) && after.storage.tickets[k]
                == m.storage.tickets[k],
{
    assert(m.tickets.push(ticket) =~= m.tickets + seq![ticket]);
    if !m.storage_authoritative {
        lemma_oldest_ticket_found(after.tickets, ticket.destination_hash, now);
        assert(after.tickets[m.tickets.len() as int] == ticket);
    } else {
        assert(after.storage.tickets.contains_key(ticket.token));
    }
}

/// A stamp is accounted for by a ticket exactly where a ticket for the destination that admits
/// now gives that stamp for the message.
pub proof fn tickets_account_for_their_stamps(
    tickets: Seq<Ticket>,
    destination: [u8; 16],
    id: [u8; 32],
    stamp: Seq<u8>,
    now: i64,
)
    ensures
        ticket_accounts(tickets, destination, id, stamp, now) <==> exists|t: Ticket| #[trigger]
            tickets.contains(t) && t.destination_hash == destination && !t.used && now < t.expires
                && ticket_stamp(t.token@, id) == stamp,
{
    if ticket_accounts(tickets, destination, id, stamp, now) {
        let i = choose|i: int|
            0 <= i < tickets.len() && admits(#[trigger] tickets[i], destination, now)
                && ticket_stamp(tickets[i].token@, id) == stamp;
        assert(tickets.contains(tickets[i]));
    }
    if exists|t: Ticket| #[trigger]
        tickets.contains(t) && t.destination_hash == destination && !t.used && now < t.expires
            && ticket_stamp(t.token@, id) == stamp {
        let t = choose|t: Ticket| #[trigger]
            tickets.contains(t) && t.destination_hash == destination && !t.used && now < t.expires
                && ticket_stamp(t.token@, id) == stamp;
        let i = choose|i: int| 0 <= i < tickets.len() && tickets[i] == t;
        assert(admits(tickets[i], destination, now));
    }
}

/// The cost that a destination announced is known for forty-five days, and then no longer.
pub proof fn costs_are_known_until_they_are_old(
    m: RouterModel,
    destination: [u8; 16],
    now: i64,
)
    ensures
        ({
            let (known, cost, recorded_at) = if m.storage_authoritative {
                let e = m.storage.stamp_costs[destination];
                (m.storage.stamp_costs.contains_key(destination), e.cost, e.recorded_at)
            } else {
                let e = m.stamp_costs[destination];
                (m.stamp_costs.contains_key(destination), e.cost, e.recorded_at)
            };
            &&& known && now - recorded_at < 45 * 24 * 3600 * 1_000_000 ==> known_cost(
                m,
                destination,
                now,
            ) == Some(cost)
            &&& !known || now - recorded_at >= 45 * 24 * 3600 * 1_000_000 ==> known_cost(
                m,
                destination,
                now,
            ) is None
        }),
{
}

/// A peer that is throttled is held off for three minutes from then on, and nobody else is.
pub proof fn throttled_peers_are_held_off(
    m: RouterModel,
    peer: [u8; 16],
    other: [u8; 16],
    now: i64,
    later: i64,
)
    requires
        now + 180 * 1_000_000 <= i64::MAX,
    ensures
        ({
            let after = RouterModel {
                throttled: m.throttled.insert(peer, after(now, PN_STAMP_THROTTLE)),
                ..m
            };
            &&& is_throttled(after, peer, later) <==> later < now + 180 * 1_000_000
            &&& other != peer ==> is_throttled(after, other, later) == is_throttled(m, other, later)
        }),
        is_throttled(m, peer, later) <==> m.throttled.contains_key(peer) && later
            < m.throttled[peer],
{
}

/// That a message was seen is remembered for half a year, and then forgotten.
pub proof fn seen_messages_are_remembered(
    seen: Map<[u8; 32], i64>,
    id: [u8; 32],
    now: i64,
)
    requires
        now >= 0,
    ensures
        not_before(seen, retention_cutoff(now)).contains_key(id) <==> seen.contains_key(id) && now
            - seen[id] <= 180 * 24 * 3600,
        not_before(seen, retention_cutoff(now)).contains_key(id) ==> not_before(
            seen,
            retention_cutoff(now),
        )[id] == seen[id],
{
}

/// The identities on a page are kept ones, the most recently updated first, and none is left out
/// while there is room; of each its hash and its key are given.
pub proof fn kept_identities_are_given_out(
    m: RouterModel,
    limit: usize,
    page: Seq<StoredIdentity>,
    k: [u8; 16],
    i: int,
    j: int,
)
    requires
        is_identity_page(m, limit, page),
    ensures
        page.len() <= limit,
        0 <= i < j < page.len() ==> page[i].updated_at >= page[j].updated_at,
        m.reliable && m.storage.identities.contains_key(k) && !page.contains(
            m.storage.identities[k],
        ) ==> page.len() == limit && (0 <= i < page.len() ==> page[i].updated_at
            >= m.storage.identities[k].updated_at),
        public_keys(page) == page.map_values(
            |x: StoredIdentity| (x.destination_hash, x.public_key),
        ),
{
    assert(public_keys(page) =~= page.map_values(
        |x: StoredIdentity| (x.destination_hash, x.public_key),
    ));
    let any = |x: StoredIdentity| true;
    let time = |x: StoredIdentity| x.updated_at;
    if is_latest_first(m.storage.identities, any, time, limit as nat, page) {
        the_latest_come_first(m.storage.identities, any, time, limit as nat, page, k, i, j);
    }
}

/// Cleaning up keeps a peer among the throttled ones just while it is throttled, and until the
/// same time.
pub proof fn peers_are_throttled_for_their_time(
    throttled: Map<[u8; 16], i64>,
    now: i64,
    peer: [u8; 16],
)
    ensures
        still_throttled(throttled, now).contains_key(peer) <==> throttled.contains_key(peer) && now
            < throttled[peer],
        still_throttled(throttled, now).contains_key(peer) ==> still_throttled(
            throttled,
            now,
        )[peer] == throttled[peer],
{
}

} // verus!
