//! What a router tells of its queues, and what makes queued messages due.

use vstd::prelude::*;

use crate::bytes::same;
use crate::clock::{before, rank, seconds_before};
use crate::constants::{DeliveryMethod, MessageState, DELIVERY_RETRY_WAIT};
use crate::message::{LxMessage, MessageModel};
use crate::propagation::entry_bytes;
use crate::router::delivery::{is_waiting, place_of, the_first_with_a_hash_is_found};
use crate::router::outbound::{due_at, message_models};
use crate::router::queue::{
    decode_delivery_method, decode_message_state, decoded_method, decoded_state, queue_id,
    schedule_of, states_and_methods_are_read_back,
};
use crate::router::{LxmRouter, RouterModel};
use crate::select::first;
use crate::storage::{
    by_creation, outbound_ids, wanted_queue, LxmfStorage, StoredOutboundMetadata,
    StoredOutboundModel,
};
use crate::table::{distinct_keys, kept, lemma_as_map, saturated, weigh};

verus! {

/// A queued message without its content.
#[derive(Debug, Clone, Copy)]
pub struct OutboundSummary {
    pub message_id: Option<[u8; 32]>,
    pub destination_hash: [u8; 16],
    pub state: MessageState,
    pub method: DeliveryMethod,
    pub delivery_attempts: u32,
    pub last_delivery_attempt: i64,
    pub next_delivery_attempt: i64,
    /// Progress in millionths.
    pub progress: u32,
}

/// How many messages, peers and costs a router has.
#[derive(Debug, Clone, Copy)]
pub struct RouterStats {
    pub pending_outbound: usize,
    pub pending_deferred_stamps: usize,
    pub peers: usize,
    pub propagation_entries: usize,
    pub propagation_size: usize,
    pub stamp_costs_cached: usize,
}

/// A message without its content.
pub open spec fn summary_of(m: MessageModel) -> OutboundSummary {
    OutboundSummary {
        message_id: queue_id(m),
        destination_hash: m.destination_hash,
        state: m.state,
        method: m.method,
        delivery_attempts: m.delivery_attempts,
        last_delivery_attempt: m.last_delivery_attempt,
        next_delivery_attempt: m.next_delivery_attempt,
        progress: m.progress,
    }
}

/// A message in storage without its content, where its state and method are known.
pub open spec fn summary_of_schedule(m: StoredOutboundMetadata) -> Option<OutboundSummary> {
    match (decoded_state(m.state), decoded_method(m.delivery_method)) {
        (Some(state), Some(method)) => Some(
            OutboundSummary {
                message_id: Some(m.message_id),
                destination_hash: m.destination_hash,
                state,
                method,
                delivery_attempts: m.delivery_attempts,
                last_delivery_attempt: m.last_delivery_attempt,
                next_delivery_attempt: m.next_delivery_attempt,
                progress: m.progress,
            },
        ),
        _ => None,
    }
}

/// Some messages in storage without their content.
pub open spec fn summaries_of(page: Seq<StoredOutboundMetadata>) -> Seq<OutboundSummary>
    decreases page.len(),
{
    if page.len() == 0 {
        Seq::empty()
    } else {
        let rest = summaries_of(page.drop_last());
        match summary_of_schedule(page.last()) {
            Some(s) => rest.push(s),
            None => rest,
        }
    }
}

/// Whether `page` holds the schedules of the first `limit` queued messages in storage,
/// oldest first, or nothing where storage failed.
pub open spec fn is_queue_page(
    m: RouterModel,
    limit: usize,
    page: Seq<StoredOutboundMetadata>,
) -> bool {
    ||| !m.reliable && page.len() == 0
    ||| first(
        m.storage.outbound,
        |k: [u8; 32], o: StoredOutboundModel| o.metadata.deferred == false,
        by_creation(),
        limit as nat,
        outbound_ids(page),
    ) && forall|i: int|
        0 <= i < page.len() ==> #[trigger] page[i]
            == m.storage.outbound[page[i].message_id].metadata
}

/// The first `limit` messages without their content.
pub open spec fn leading_summaries(pending: Seq<MessageModel>, limit: usize) -> Seq<OutboundSummary> {
    Seq::new(
        if limit < pending.len() {
            limit as nat
        } else {
            pending.len()
        },
        |i: int| summary_of(pending[i]),
    )
}

fn summarise(m: &LxMessage) -> (s: OutboundSummary)
    ensures
        s == summary_of(m@),
{
    OutboundSummary {
        message_id: match m.message_id {
            Some(id) => Some(id),
            None => m.hash,
        },
        destination_hash: m.destination_hash,
        state: m.state,
        method: m.method,
        delivery_attempts: m.delivery_attempts,
        last_delivery_attempt: m.last_delivery_attempt,
        next_delivery_attempt: m.next_delivery_attempt,
        progress: m.progress,
    }
}

fn outbound_summary_from_metadata(m: &StoredOutboundMetadata) -> (s: Option<OutboundSummary>)
    ensures
        s == summary_of_schedule(*m),
{
    let state = match decode_message_state(m.state) {
        Some(s) => s,
        None => {
            return None;
        },
    };
    let method = match decode_delivery_method(m.delivery_method) {
        Some(s) => s,
        None => {
            return None;
        },
    };
    Some(
        OutboundSummary {
            message_id: Some(m.message_id),
            destination_hash: m.destination_hash,
            state,
            method,
            delivery_attempts: m.delivery_attempts,
            last_delivery_attempt: m.last_delivery_attempt,
            next_delivery_attempt: m.next_delivery_attempt,
            progress: m.progress,
        },
    )
}

/// Whether `found` is a message with a hash: the first in the queue, or where there is none
/// one of those that wait for a stamp.
pub open spec fn is_queued_message(
    m: RouterModel,
    hash: [u8; 32],
    found: Option<MessageModel>,
) -> bool {
    match place_of(m.pending, hash) {
        Some(i) => found == Some(m.pending[i]),
        None => match found {
            Some(message) => message.hash == Some(hash) && exists|k: [u8; 32]| #[trigger]
                m.deferred.contains_key(k) && m.deferred[k] == message,
            None => forall|k: [u8; 32]| #[trigger]
                m.deferred.contains_key(k) ==> m.deferred[k].hash != Some(hash),
        },
    }
}

/// Whether a message makes a hash or an identifier known.
pub open spec fn goes_by(m: MessageModel, id: [u8; 32]) -> bool {
    m.message_id == Some(id) || m.hash == Some(id)
}

/// A message that is due at `now`.
pub open spec fn made_due(m: MessageModel, now: i64) -> MessageModel {
    MessageModel {
        last_delivery_attempt: before(now, DELIVERY_RETRY_WAIT),
        next_delivery_attempt: now,
        ..m
    }
}

/// A queue in which the messages that a test accepts are due at `now`.
pub open spec fn triggered(
    pending: Seq<MessageModel>,
    test: spec_fn(MessageModel) -> bool,
    now: i64,
) -> Seq<MessageModel> {
    Seq::new(
        pending.len(),
        |i: int|
            if test(pending[i]) {
                made_due(pending[i], now)
            } else {
                pending[i]
            },
    )
}

impl<S: LxmfStorage> LxmRouter<S> {
    /// The first `limit` queued messages, without their content.
    pub fn outbound_summaries(&self, limit: usize) -> (list: Vec<OutboundSummary>)
        ensures
            !self@.storage_authoritative ==> list@ == leading_summaries(self@.pending, limit),
            self@.storage_authoritative ==> exists|page: Seq<StoredOutboundMetadata>| #[trigger]
                is_queue_page(self@, limit, page) && list@ == summaries_of(page),
    {
        let mut list: Vec<OutboundSummary> = Vec::new();
        if self.storage_authoritative {
            let page = match self.storage.outbound_metadata_page(false, limit) {
                Ok(p) => p,
                Err(_) => Vec::new(),
            };
            assert(is_queue_page(self@, limit, page@));
            let mut i: usize = 0;
            assert(list@ =~= summaries_of(page@.take(0)));
            while i < page.len()
                invariant
                    i <= page@.len(),
                    list@ == summaries_of(page@.take(i as int)),
                decreases page@.len() - i,
            {
                assert(page@.take(i + 1).drop_last() =~= page@.take(i as int));
                match outbound_summary_from_metadata(&page[i]) {
                    Some(s) => {
                        list.push(s);
                    },
                    None => {},
                }
                i = i + 1;
            }
            assert(page@.take(i as int) =~= page@);
            return list;
        }
        let mut i: usize = 0;
        while i < self.pending_outbound.len() && i < limit
            invariant
                i <= self.pending_outbound@.len(),
                i <= limit,
                list@.len() == i,
                forall|j: int| 0 <= j < i ==> #[trigger] list@[j] == summary_of(self@.pending[j]),
            decreases self.pending_outbound@.len() - i,
        {
            assert(self@.pending[i as int] == self.pending_outbound@[i as int]@);
            list.push(summarise(&self.pending_outbound[i]));
            i = i + 1;
        }
        assert(list@ =~= leading_summaries(self@.pending, limit));
        list
    }

    /// Whether a message with this identifier or hash is in the queue.
    pub fn has_pending_outbound(&self, message_id: &[u8; 32]) -> (b: bool)
        ensures
            b == exists|i: int|
                0 <= i < self@.pending.len() && goes_by(#[trigger] self@.pending[i], *message_id),
    {
        let mut i: usize = 0;
        while i < self.pending_outbound.len()
            invariant
                i <= self.pending_outbound@.len(),
                forall|j: int| 0 <= j < i ==> !goes_by(#[trigger] self@.pending[j], *message_id),
            decreases self.pending_outbound@.len() - i,
        {
            let by_id = match self.pending_outbound[i].message_id {
                Some(id) => same(&id, message_id),
                None => false,
            };
            let by_hash = match self.pending_outbound[i].hash {
                Some(h) => same(&h, message_id),
                None => false,
            };
            assert(self@.pending[i as int] == self.pending_outbound@[i as int]@);
            if by_id || by_hash {
                assert(goes_by(self@.pending[i as int], *message_id));
                return true;
            }
            i = i + 1;
        }
        false
    }

    /// A message that waits for its stamp, without its content.
    pub fn deferred_stamp_summary(&self, message_id: &[u8; 32]) -> (r: Option<OutboundSummary>)
        ensures
            !self@.storage_authoritative ==> r == (if self@.deferred.contains_key(*message_id) {
                Some(summary_of(self@.deferred[*message_id]))
            } else {
                None
            }),
            self@.storage_authoritative ==> r == (if self@.storage.outbound.contains_key(
                *message_id,
            ) && self@.storage.outbound[*message_id].metadata.deferred {
                summary_of_schedule(self@.storage.outbound[*message_id].metadata)
            } else {
                None
            }) || (!self@.reliable && r is None),
    {
        if self.storage_authoritative {
            match self.storage.outbound_message(message_id) {
                Ok(Some(stored)) => if stored.metadata.deferred {
                    outbound_summary_from_metadata(&stored.metadata)
                } else {
                    None
                },
                _ => None,
            }
        } else {
            match self.pending_deferred_stamps.get(message_id) {
                Some(m) => Some(summarise(m)),
                None => None,
            }
        }
    }

    /// A message with a hash: the first in the queue, or one that waits for a stamp.
    fn find_queued(&self, hash: &[u8; 32]) -> (r: Option<&LxMessage>)
        ensures
            is_queued_message(
                self@,
                *hash,
                match r {
                    Some(m) => Some(m@),
                    None => None,
                },
            ),
    {
        match self.find_pending(hash) {
            Some(i) => {
                assert(self@.pending[i as int] == self.pending_outbound@[i as int]@);
                return Some(&self.pending_outbound[i]);
            },
            None => {},
        }
        let ghost entries = self.pending_deferred_stamps.entries();
        let total: usize = self.pending_deferred_stamps.len();
        let mut i: usize = 0;
        while i < total
            invariant
                entries == self.pending_deferred_stamps.entries(),
                total == entries.len(),
                distinct_keys(entries),
                i <= entries.len(),
                place_of(self@.pending, *hash) is None,
                forall|j: int| 0 <= j < i ==> (#[trigger] entries[j]).1.hash != Some(*hash),
            decreases entries.len() - i,
        {
            let m = self.pending_deferred_stamps.value_at(i);
            let found = match m.hash {
                Some(h) => same(&h, hash),
                None => false,
            };
            if found {
                proof {
                    let k = entries[i as int].0;
                    assert(self@.deferred.contains_key(k));
                }
                return Some(m);
            }
            i = i + 1;
        }
        proof {
            assert forall|k: [u8; 32]| #[trigger] self@.deferred.contains_key(
                k,
            ) implies self@.deferred[k].hash != Some(*hash) by {
                lemma_as_map(entries);
                let j = choose|j: int|
                    0 <= j < entries.len() && (#[trigger] entries[j]).0 == k && entries[j].1
                        == self@.deferred[k];
                assert(entries[j].1.hash != Some(*hash));
            }
        }
        None
    }

    /// The progress of a message, in millionths.
    pub fn get_outbound_progress(&self, message_hash: &[u8; 32]) -> (r: Option<u32>)
        ensures
            exists|found: Option<MessageModel>| #[trigger]
                is_queued_message(self@, *message_hash, found) && match found {
                    Some(m) => r == Some(m.progress),
                    None => r == (if self@.storage_authoritative
                        && self@.storage.outbound.contains_key(*message_hash) {
                        Some(self@.storage.outbound[*message_hash].metadata.progress)
                    } else {
                        None
                    }) || (!self@.reliable && r is None),
                },
    {
        match self.find_queued(message_hash) {
            Some(m) => {
                return Some(m.progress);
            },
            None => {},
        }
        if self.storage_authoritative {
            match self.storage.outbound_message(message_hash) {
                Ok(Some(stored)) => Some(stored.metadata.progress),
                _ => None,
            }
        } else {
            None
        }
    }

    /// The stamp cost that a queued message was given.
    pub fn get_outbound_lxm_propagation_stamp_cost(&self, message_hash: &[u8; 32]) -> (r: Option<
        u8,
    >)
        ensures
            exists|found: Option<MessageModel>| #[trigger]
                is_queued_message(self@, *message_hash, found) && r == (match found {
                    Some(m) => m.stamp_cost,
                    None => None,
                }),
    {
        match self.find_queued(message_hash) {
            Some(m) => m.stamp_cost,
            None => None,
        }
    }

    /// Makes the messages for a destination due, when it announces itself.
    pub fn trigger_outbound_for_delivery_announce(
        &mut self,
        destination_hash: [u8; 16],
        now: i64,
    ) -> (n: usize)
        ensures
            ({
                let test = |m: MessageModel| m.destination_hash == destination_hash;
                &&& final(self)@ == (RouterModel {
                    pending: triggered(old(self)@.pending, test, now),
                    ..old(self)@
                })
                &&& n == old(self)@.pending.filter(test).len()
            }),
    {
        let ghost test = |m: MessageModel| m.destination_hash == destination_hash;
        let accepts = |m: &LxMessage| -> (b: bool)
            ensures
                b == (m@.destination_hash == destination_hash),
            { same(&m.destination_hash, &destination_hash) };
        self.trigger(accepts, Ghost(test), now)
    }

    /// Makes the messages for the outbound propagation node due, when it announces itself.
    /// `announce_valid` says whether what it announces is well-formed.
    pub fn trigger_outbound_for_propagation_node_announce(
        &mut self,
        destination_hash: [u8; 16],
        announce_valid: bool,
        now: i64,
    ) -> (n: usize)
        ensures
            ({
                let test = |m: MessageModel| m.method == DeliveryMethod::Propagated;
                if old(self)@.outbound_propagation_node == Some(destination_hash)
                    && announce_valid {
                    &&& final(self)@ == (RouterModel {
                        pending: triggered(old(self)@.pending, test, now),
                        ..old(self)@
                    })
                    &&& n == old(self)@.pending.filter(test).len()
                } else {
                    final(self)@ == old(self)@ && n == 0
                }
            }),
    {
        let known = match self.outbound_propagation_node {
            Some(node) => same(&node, &destination_hash),
            None => false,
        };
        if !known || !announce_valid {
            return 0;
        }
        let ghost test = |m: MessageModel| m.method == DeliveryMethod::Propagated;
        let accepts = |m: &LxMessage| -> (b: bool)
            ensures
                b == (m@.method == DeliveryMethod::Propagated),
            { m.method == DeliveryMethod::Propagated };
        self.trigger(accepts, Ghost(test), now)
    }

    /// Makes the messages that `accepts` accepts due.
    fn trigger<F: Fn(&LxMessage) -> bool>(
        &mut self,
        accepts: F,
        Ghost(test): Ghost<spec_fn(MessageModel) -> bool>,
        now: i64,
    ) -> (n: usize)
        requires
            forall|m: &LxMessage| call_requires(accepts, (m,)),
            forall|m: &LxMessage, b: bool| call_ensures(accepts, (m,), b) ==> b == test(m@),
        ensures
            final(self)@ == (RouterModel {
                pending: triggered(old(self)@.pending, test, now),
                ..old(self)@
            }),
            n == old(self)@.pending.filter(test).len(),
    {
        let ghost before = self@;
        let mut queue: Vec<LxMessage> = Vec::new();
        std::mem::swap(&mut queue, &mut self.pending_outbound);
        let ghost all = message_models(queue@);
        let mut n: usize = 0;
        let mut i: usize = 0;
        proof {
            reveal(Seq::filter);
            assert(all.take(0).filter(test).len() == 0);
        }
        while i < queue.len()
            invariant
                i <= queue@.len(),
                queue@.len() == all.len(),
                forall|m: &LxMessage| call_requires(accepts, (m,)),
                forall|m: &LxMessage, b: bool| call_ensures(accepts, (m,), b) ==> b == test(m@),
                forall|j: int|
                    0 <= j < i ==> (#[trigger] queue@[j])@ == triggered(all, test, now)[j],
                forall|j: int| i <= j < queue@.len() ==> (#[trigger] queue@[j])@ == all[j],
                n == all.take(i as int).filter(test).len(),
                n <= i,
            decreases queue@.len() - i,
        {
            proof {
                reveal(Seq::filter);
                assert(all.take(i + 1).drop_last() =~= all.take(i as int));
                assert(queue@[i as int]@ == all[i as int]);
            }
            if accepts(&queue[i]) {
                let mut message = queue[i].copy();
                message.last_delivery_attempt = seconds_before(now, DELIVERY_RETRY_WAIT);
                message.next_delivery_attempt = now;
                assert(message@ == made_due(all[i as int], now));
                queue.set(i, message);
                n = n + 1;
            }
            i = i + 1;
        }
        proof {
            assert(all.take(i as int) =~= all);
            assert(message_models(queue@) =~= triggered(all, test, now));
        }
        self.pending_outbound = queue;
        n
    }

    /// How many messages, peers and costs the router has; storage that fails to answer
    /// counts as empty.
    pub fn stats(&self) -> (s: RouterStats)
        ensures
            is_count(
                self@,
                kept(
                    self@.storage.outbound,
                    |k: [u8; 32], o: StoredOutboundModel| wanted_queue(Some(false), o),
                ).len(),
                self@.pending.len(),
                s.pending_outbound,
            ),
            is_count(
                self@,
                kept(
                    self@.storage.outbound,
                    |k: [u8; 32], o: StoredOutboundModel| wanted_queue(Some(true), o),
                ).len(),
                self@.deferred.len(),
                s.pending_deferred_stamps,
            ),
            s.peers == self@.peers.len(),
            s.propagation_entries == self@.store.len(),
            s.propagation_size == saturated(weigh(self@.store, entry_bytes())),
            is_count(
                self@,
                self@.storage.stamp_costs.len(),
                self@.stamp_costs.len(),
                s.stamp_costs_cached,
            ),
    {
        RouterStats {
            pending_outbound: if self.storage_authoritative {
                match self.storage.outbound_count(Some(false)) {
                    Ok(n) => n,
                    Err(_) => 0,
                }
            } else {
                self.pending_outbound.len()
            },
            pending_deferred_stamps: if self.storage_authoritative {
                match self.storage.outbound_count(Some(true)) {
                    Ok(n) => n,
                    Err(_) => 0,
                }
            } else {
                self.pending_deferred_stamps.len()
            },
            peers: self.peers.len(),
            propagation_entries: self.propagation_store.len(),
            propagation_size: self.propagation_store.total_size(),
            stamp_costs_cached: if self.storage_authoritative {
                match self.storage.stamp_cost_count() {
                    Ok(n) => n,
                    Err(_) => 0,
                }
            } else {
                self.outbound_stamp_costs.len()
            },
        }
    }
}

/// Whether `n` counts what is in storage where the queue is kept there, else what is in
/// memory; storage that fails to answer counts as empty.
pub open spec fn is_count(m: RouterModel, stored: nat, in_memory: nat, n: usize) -> bool {
    if m.storage_authoritative {
        n == stored || (!m.reliable && n == 0)
    } else {
        n == in_memory
    }
}

// ---------------------------------------------------------------------------
// What is told.
// ---------------------------------------------------------------------------

/// A message that an announcement makes due is due now, and nothing else of it changes; the
/// messages that the announcement is not for stay as they are, and so does their order.
pub proof fn announcements_make_messages_due(
    pending: Seq<MessageModel>,
    test: spec_fn(MessageModel) -> bool,
    now: i64,
    i: int,
)
    requires
        0 <= i < pending.len(),
        now > 0,
    ensures
        ({
            let after = triggered(pending, test, now);
            &&& after.len() == pending.len()
            &&& test(pending[i]) ==> due_at(after[i]) == now && after[i].next_delivery_attempt
                == now
            &&& test(pending[i]) && now - 10_000_000 >= i64::MIN ==> after[i].last_delivery_attempt
                == now - 10_000_000
            &&& test(pending[i]) ==> after[i] == (MessageModel {
                next_delivery_attempt: after[i].next_delivery_attempt,
                last_delivery_attempt: after[i].last_delivery_attempt,
                ..pending[i]
            })
            &&& !test(pending[i]) ==> after[i] == pending[i]
        }),
{
}

/// A queued message is told of alike, whether it waits in memory or in storage: by its
/// identifier, its destination, its state, its method, its schedule and its progress.
pub proof fn summaries_agree(m: MessageModel, id: [u8; 32], deferred: bool)
    requires
        queue_id(m) == Some(id),
    ensures
        summary_of_schedule(schedule_of(m, id, deferred)) == Some(summary_of(m)),
        ({
            let s = summary_of(m);
            &&& s.message_id == Some(id) && s.destination_hash == m.destination_hash
            &&& s.state == m.state && s.method == m.method && s.progress == m.progress
            &&& s.delivery_attempts == m.delivery_attempts
            &&& s.last_delivery_attempt == m.last_delivery_attempt
            &&& s.next_delivery_attempt == m.next_delivery_attempt
        }),
{
    states_and_methods_are_read_back(m.state, m.method);
}

/// Of the queue in memory the first messages are told of, in order and as many as asked for.
pub proof fn the_first_messages_are_told_of(pending: Seq<MessageModel>, limit: usize, i: int)
    ensures
        leading_summaries(pending, limit).len() <= limit,
        leading_summaries(pending, limit).len() <= pending.len(),
        leading_summaries(pending, limit).len() == limit || leading_summaries(pending, limit).len()
            == pending.len(),
        0 <= i < limit && i < pending.len() ==> leading_summaries(pending, limit)[i] == summary_of(
            pending[i],
        ),
{
}

/// Of the queue in storage every message whose state and method are known is told of, in order.
pub proof fn stored_messages_are_told_of(page: Seq<StoredOutboundMetadata>)
    ensures
        summaries_of(page) == page.filter(
            |m: StoredOutboundMetadata|
                decoded_state(m.state) is Some && decoded_method(m.delivery_method) is Some,
        ).map_values(|m: StoredOutboundMetadata| summary_of_schedule(m)->0),
    decreases page.len(),
{
    reveal(Seq::filter);
    let test = |m: StoredOutboundMetadata|
        decoded_state(m.state) is Some && decoded_method(m.delivery_method) is Some;
    let tell = |m: StoredOutboundMetadata| summary_of_schedule(m)->0;
    if page.len() > 0 {
        stored_messages_are_told_of(page.drop_last());
        let chosen = page.drop_last().filter(test);
        assert(chosen.push(page.last()).map_values(tell) =~= chosen.map_values(tell).push(
            tell(page.last()),
        ));
    } else {
        assert(page.filter(test).map_values(tell) =~= Seq::<OutboundSummary>::empty());
    }
}

/// A message that is looked up by its hash is one that waits and has that hash, and one that
/// waits in the queue is found.
pub proof fn queued_messages_are_found(
    m: RouterModel,
    hash: [u8; 32],
    found: Option<MessageModel>,
)
    requires
        is_queued_message(m, hash, found),
    ensures
        found matches Some(message) ==> message.hash == Some(hash) && (m.pending.contains(message)
            || exists|k: [u8; 32]| #[trigger]
            m.deferred.contains_key(k) && m.deferred[k] == message),
        is_waiting(m.pending, hash) ==> found is Some && m.pending.contains(found->0),
        found is None ==> !is_waiting(m.pending, hash) && forall|k: [u8; 32]| #[trigger]
            m.deferred.contains_key(k) ==> m.deferred[k].hash != Some(hash),
{
    the_first_with_a_hash_is_found(m.pending, hash);
}

/// Counts are of what is in storage where the queue is kept there, and else of what is in
/// memory.
pub proof fn counts_are_of_what_is_kept(m: RouterModel, stored: nat, in_memory: nat, n: usize)
    requires
        is_count(m, stored, in_memory, n),
    ensures
        m.storage_authoritative && m.reliable ==> n == stored,
        !m.storage_authoritative ==> n == in_memory,
{
}

/// A message goes by its identifier and by its hash, and by nothing else.
pub proof fn messages_go_by_identifier_and_hash(m: MessageModel, id: [u8; 32])
    ensures
        m.message_id == Some(id) ==> goes_by(m, id),
        m.hash == Some(id) ==> goes_by(m, id),
        goes_by(m, id) ==> m.message_id == Some(id) || m.hash == Some(id),
{
}

/// The stored messages that are told of do not wait for a stamp, come in the order in which they
/// were created and as they are kept, and none is left out while there is room.
pub proof fn kept_messages_are_paged(
    m: RouterModel,
    limit: usize,
    page: Seq<StoredOutboundMetadata>,
    k: [u8; 32],
    i: int,
    j: int,
)
    requires
        is_queue_page(m, limit, page),
    ensures
        page.len() <= limit,
        0 <= i < page.len() ==> m.storage.outbound.contains_key(page[i].message_id) && page[i]
            == m.storage.outbound[page[i].message_id].metadata && !page[i].deferred,
        0 <= i < j < page.len() ==> rank(page[i].created_at) <= rank(page[j].created_at),
        m.reliable && m.storage.outbound.contains_key(k)
            && !m.storage.outbound[k].metadata.deferred && !outbound_ids(page).contains(k)
            ==> page.len() == limit && (0 <= i < page.len() ==> rank(page[i].created_at) <= rank(
            m.storage.outbound[k].metadata.created_at,
        )),
{
    let ids = outbound_ids(page);
    if 0 <= i < page.len() {
        assert(ids[i] == page[i].message_id);
        assert(m.storage.outbound.contains_key(ids[i]));
        if i < j < page.len() {
            assert(ids[j] == page[j].message_id);
            assert(by_creation()((ids[i], m.storage.outbound[ids[i]]), (
                ids[j],
                m.storage.outbound[ids[j]],
            )));
        }
        if m.reliable && m.storage.outbound.contains_key(k)
            && !m.storage.outbound[k].metadata.deferred && !ids.contains(k) {
            assert(by_creation()((ids[i], m.storage.outbound[ids[i]]), (
                k,
                m.storage.outbound[k],
            )));
        }
    }
}

} // verus!
