//! Sending: how messages enter the outbound queue, are kept in storage and leave.

use vstd::prelude::*;

use crate::clock::after;
use crate::constants::{
    method_byte, state_byte, DeliveryMethod, MessageState, COST_TICKET,
    ENCRYPTED_PACKET_MAX_CONTENT, STRUCT_OVERHEAD, TIMESTAMP_SIZE,
};
use crate::container::{
    envelope_element, envelope_in, fits_envelope, is_kept, is_restorable, restored,
};
use crate::message::{
    is_packable, message_digest, payload_bytes, ticket_stamp, unstamped_payload, LxMessage,
    MessageModel,
};
use crate::msgpack::encoding;
use crate::payload::{
    field_elements, packable, read_fields, read_native, stamp_length, without_stamp,
};
use crate::router::direct::in_state;
use crate::router::outbound::message_models;
use crate::router::records::{is_ticket_for, known_cost, with_storage};
use crate::router::{notice_models, LxmRouter, Notice, NoticeModel, RouterModel};
use crate::storage::{
    is_due, outbound_ids, LxmfStorage, StorageModel, StoredOutboundMessage, StoredOutboundMetadata,
    StoredOutboundModel,
};
use crate::ticket::Ticket;

verus! {

// ---------------------------------------------------------------------------
// Messages in storage.
// ---------------------------------------------------------------------------

/// The identifier that a message is queued under.
pub open spec fn queue_id(m: MessageModel) -> Option<[u8; 32]> {
    match m.message_id {
        Some(id) => Some(id),
        None => m.hash,
    }
}

/// The schedule of a message.
pub open spec fn schedule_of(m: MessageModel, id: [u8; 32], deferred: bool) -> StoredOutboundMetadata {
    StoredOutboundMetadata {
        message_id: id,
        destination_hash: m.destination_hash,
        state: state_byte(m.state),
        delivery_method: method_byte(m.method),
        deferred,
        next_delivery_attempt: m.next_delivery_attempt,
        last_delivery_attempt: m.last_delivery_attempt,
        delivery_attempts: m.delivery_attempts,
        created_at: m.timestamp,
        progress: m.progress,
    }
}

/// What is kept of a message in storage; nothing where it cannot be kept.
pub open spec fn stored_form(m: MessageModel, deferred: bool) -> Option<StoredOutboundModel> {
    match queue_id(m) {
        Some(id) => if is_packable(m) {
            Some(
                StoredOutboundModel {
                    metadata: schedule_of(m, id, deferred),
                    encoded_message: encoding(envelope_element(m)),
                },
            )
        } else {
            None
        },
        None => None,
    }
}

/// Storage with one more queued message.
pub open spec fn with_outbound(s: StorageModel, o: StoredOutboundModel) -> StorageModel {
    StorageModel { outbound: s.outbound.insert(o.metadata.message_id, o), ..s }
}

/// Storage without a queued message.
pub open spec fn without_outbound(s: StorageModel, id: [u8; 32]) -> StorageModel {
    StorageModel { outbound: s.outbound.remove(id), ..s }
}

/// Whether a message was put in storage, where `kept` says so.
pub open spec fn persists(
    m: RouterModel,
    after: RouterModel,
    message: MessageModel,
    deferred: bool,
    kept: bool,
) -> bool {
    match stored_form(message, deferred) {
        Some(o) => {
            &&& m.reliable ==> kept
            &&& after == (if kept {
                with_storage(m, with_outbound(m.storage, o))
            } else {
                m
            })
        },
        None => !kept && after == m,
    }
}

/// The state that a byte stands for.
pub open spec fn decoded_state(b: u8) -> Option<MessageState> {
    if b == state_byte(MessageState::Generating) {
        Some(MessageState::Generating)
    } else if b == state_byte(MessageState::Outbound) {
        Some(MessageState::Outbound)
    } else if b == state_byte(MessageState::Sending) {
        Some(MessageState::Sending)
    } else if b == state_byte(MessageState::Sent) {
        Some(MessageState::Sent)
    } else if b == state_byte(MessageState::Delivered) {
        Some(MessageState::Delivered)
    } else if b == state_byte(MessageState::Rejected) {
        Some(MessageState::Rejected)
    } else if b == state_byte(MessageState::Cancelled) {
        Some(MessageState::Cancelled)
    } else if b == state_byte(MessageState::Failed) {
        Some(MessageState::Failed)
    } else {
        None
    }
}

/// The delivery method that a byte stands for.
pub open spec fn decoded_method(b: u8) -> Option<DeliveryMethod> {
    if b == method_byte(DeliveryMethod::Opportunistic) {
        Some(DeliveryMethod::Opportunistic)
    } else if b == method_byte(DeliveryMethod::Direct) {
        Some(DeliveryMethod::Direct)
    } else if b == method_byte(DeliveryMethod::Propagated) {
        Some(DeliveryMethod::Propagated)
    } else if b == method_byte(DeliveryMethod::Paper) {
        Some(DeliveryMethod::Paper)
    } else {
        None
    }
}

/// The state that a byte stands for.
pub(crate) fn decode_message_state(b: u8) -> (r: Option<MessageState>)
    ensures
        r == decoded_state(b),
{
    let r = MessageState::from_byte(b);
    proof {
        if r is None {
            assert(state_byte(MessageState::Generating) != b);
            assert(state_byte(MessageState::Outbound) != b);
            assert(state_byte(MessageState::Sending) != b);
            assert(state_byte(MessageState::Sent) != b);
            assert(state_byte(MessageState::Delivered) != b);
            assert(state_byte(MessageState::Rejected) != b);
            assert(state_byte(MessageState::Cancelled) != b);
            assert(state_byte(MessageState::Failed) != b);
        }
    }
    r
}

/// The delivery method that a byte stands for.
pub(crate) fn decode_delivery_method(b: u8) -> (r: Option<DeliveryMethod>)
    ensures
        r == decoded_method(b),
{
    let r = DeliveryMethod::from_byte(b);
    proof {
        if r is None {
            assert(method_byte(DeliveryMethod::Opportunistic) != b);
            assert(method_byte(DeliveryMethod::Direct) != b);
            assert(method_byte(DeliveryMethod::Propagated) != b);
            assert(method_byte(DeliveryMethod::Paper) != b);
        }
    }
    r
}

/// The message that is kept in storage: its envelope, with the schedule it is kept with.
pub open spec fn restored_message(o: StoredOutboundModel) -> Option<MessageModel> {
    match (
        envelope_in(o.encoded_message),
        decoded_state(o.metadata.state),
        decoded_method(o.metadata.delivery_method),
    ) {
        (Some(e), Some(state), Some(method)) => if is_restorable(e) {
            Some(
                MessageModel {
                    hash: Some(o.metadata.message_id),
                    message_id: Some(o.metadata.message_id),
                    transient_id: Some(o.metadata.message_id),
                    state,
                    method,
                    next_delivery_attempt: o.metadata.next_delivery_attempt,
                    last_delivery_attempt: o.metadata.last_delivery_attempt,
                    delivery_attempts: o.metadata.delivery_attempts,
                    timestamp: o.metadata.created_at,
                    progress: o.metadata.progress,
                    ..restored(e)
                },
            )
        } else {
            None
        },
        _ => None,
    }
}

/// The message that is kept in storage.
pub(crate) fn restore_outbound_message(stored: &StoredOutboundMessage) -> (r: Option<LxMessage>)
    ensures
        r is Some <==> restored_message(stored@) is Some,
        r matches Some(m) ==> restored_message(stored@) == Some(m@),
{
    let mut message = match LxMessage::decode_outbound_storage(stored.encoded_message.as_slice()) {
        Ok(m) => m,
        Err(_) => {
            return None;
        },
    };
    let state = match decode_message_state(stored.metadata.state) {
        Some(s) => s,
        None => {
            return None;
        },
    };
    let method = match decode_delivery_method(stored.metadata.delivery_method) {
        Some(m) => m,
        None => {
            return None;
        },
    };
    message.hash = Some(stored.metadata.message_id);
    message.message_id = Some(stored.metadata.message_id);
    message.transient_id = Some(stored.metadata.message_id);
    message.state = state;
    message.method = method;
    message.next_delivery_attempt = stored.metadata.next_delivery_attempt;
    message.last_delivery_attempt = stored.metadata.last_delivery_attempt;
    message.delivery_attempts = stored.metadata.delivery_attempts;
    message.timestamp = stored.metadata.created_at;
    message.progress = stored.metadata.progress;
    Some(message)
}

/// Whether a queued message in storage fell due first.
pub open spec fn is_first_due(
    outbound: Map<[u8; 32], StoredOutboundModel>,
    now: i64,
    deferred: bool,
    k: [u8; 32],
) -> bool {
    &&& outbound.contains_key(k)
    &&& is_due(outbound[k], now, deferred)
    &&& forall|j: [u8; 32]| #[trigger]
        outbound.contains_key(j) && is_due(outbound[j], now, deferred)
            ==> outbound[k].metadata.next_delivery_attempt
            <= outbound[j].metadata.next_delivery_attempt
}

/// Whether `choice` is a message that is taken from storage next; none where none is due,
/// or where storage fails.
pub open spec fn is_next(
    m: RouterModel,
    now: i64,
    deferred: bool,
    choice: Option<[u8; 32]>,
) -> bool {
    match choice {
        Some(k) => is_first_due(m.storage.outbound, now, deferred, k),
        None => !m.reliable || forall|j: [u8; 32]| #[trigger]
            m.storage.outbound.contains_key(j) ==> !is_due(m.storage.outbound[j], now, deferred),
    }
}

/// A router whose queue has the chosen message from storage.
pub open spec fn hydrated(m: RouterModel, choice: Option<[u8; 32]>) -> RouterModel {
    match choice {
        Some(k) => match restored_message(m.storage.outbound[k]) {
            Some(message) => RouterModel { pending: m.pending.push(message), ..m },
            None => m,
        },
        None => m,
    }
}

/// Whether a router took the next message from storage into its empty queue.
pub open spec fn is_hydrated(m: RouterModel, after: RouterModel, now: i64) -> bool {
    if !m.storage_authoritative || m.pending.len() > 0 {
        after == m
    } else {
        exists|choice: Option<[u8; 32]>| #[trigger]
            is_next(m, now, false, choice) && after == hydrated(m, choice)
    }
}

/// A router that has the chosen message from storage wait for its stamp.
pub open spec fn deferred_hydrated(m: RouterModel, choice: Option<[u8; 32]>) -> RouterModel {
    match choice {
        Some(k) => match restored_message(m.storage.outbound[k]) {
            Some(message) => RouterModel { deferred: m.deferred.insert(k, message), ..m },
            None => m,
        },
        None => m,
    }
}

/// Whether a router without a stamp to generate took the next message that waits for one
/// from storage.
pub open spec fn is_deferred_hydrated(m: RouterModel, after: RouterModel, now: i64) -> bool {
    if !m.storage_authoritative || m.deferred.dom().len() > 0 || m.active_stamp is Some {
        after == m
    } else {
        exists|choice: Option<[u8; 32]>| #[trigger]
            is_next(m, now, true, choice) && after == deferred_hydrated(m, choice)
    }
}

/// A router with one more notice.
pub open spec fn with_notice(m: RouterModel, delivered: bool, message: MessageModel) -> RouterModel {
    RouterModel { notices: m.notices.push(NoticeModel { delivered, message }), ..m }
}

/// A router with one more message in its queue.
pub open spec fn with_pending(m: RouterModel, message: MessageModel) -> RouterModel {
    RouterModel { pending: m.pending.push(message), ..m }
}

/// Whether a message was queued, for delivery or for its stamp.  A message that storage
/// fails to keep fails.
pub open spec fn is_queued(
    m: RouterModel,
    after: RouterModel,
    message: MessageModel,
    deferred: bool,
) -> bool {
    if !m.storage_authoritative {
        after == (if deferred {
            RouterModel { deferred: m.deferred.insert(queue_id(message)->0, message), ..m }
        } else {
            with_pending(m, message)
        })
    } else {
        let failed = with_notice(m, false, in_state(message, MessageState::Failed));
        match stored_form(message, deferred) {
            Some(o) => after == with_storage(m, with_outbound(m.storage, o)) || (!m.reliable
                && after == failed),
            None => after == failed,
        }
    }
}

impl<S: LxmfStorage> LxmRouter<S> {
    /// Puts a message in storage.
    pub(crate) fn persist_outbound_message(&mut self, message: &LxMessage, deferred: bool) -> (kept:
        bool)
        ensures
            persists(old(self)@, final(self)@, message@, deferred, kept),
            kept && fits_envelope(message@) ==> is_kept(
                message@,
                stored_form(message@, deferred)->0.encoded_message,
            ),
    {
        let id = match message.message_id {
            Some(id) => id,
            None => match message.hash {
                Some(id) => id,
                None => {
                    return false;
                },
            },
        };
        let encoded_message = match message.encode_outbound_storage() {
            Ok(e) => e,
            Err(_) => {
                return false;
            },
        };
        let stored = StoredOutboundMessage {
            metadata: StoredOutboundMetadata {
                message_id: id,
                destination_hash: message.destination_hash,
                state: message.state.to_byte(),
                delivery_method: message.method.to_byte(),
                deferred,
                next_delivery_attempt: message.next_delivery_attempt,
                last_delivery_attempt: message.last_delivery_attempt,
                delivery_attempts: message.delivery_attempts,
                created_at: message.timestamp,
                progress: message.progress,
            },
            encoded_message,
        };
        assert(stored_form(message@, deferred) == Some(stored@));
        match self.storage.upsert_outbound_message(&stored) {
            Ok(_) => true,
            Err(_) => false,
        }
    }

    /// The next queued message in storage.
    fn next_stored(&self, now: i64, deferred: bool) -> (r: Option<([u8; 32], Option<LxMessage>)>)
        ensures
            r is None ==> is_next(self@, now, deferred, None),
            r matches Some((k, message)) ==> is_next(self@, now, deferred, Some(k)) && (message
                is Some <==> restored_message(self@.storage.outbound[k]) is Some) && (message
                is Some ==> restored_message(self@.storage.outbound[k]) == Some(message->0@)),
    {
        let ready = match self.storage.outbound_ready(now, deferred, 1) {
            Ok(r) => r,
            Err(_) => {
                return None;
            },
        };
        let ghost m = self@;
        let ghost ids = outbound_ids(ready@);
        if ready.len() == 0 {
            proof {
                assert forall|j: [u8; 32]| #[trigger]
                    m.storage.outbound.contains_key(j) implies !is_due(
                    m.storage.outbound[j],
                    now,
                    deferred,
                ) by {
                    if is_due(m.storage.outbound[j], now, deferred) {
                        assert(ids.contains(j));
                    }
                }
            }
            return None;
        }
        let id = ready[0].message_id;
        proof {
            assert(ids[0] == id);
            assert forall|j: [u8; 32]| #[trigger]
                m.storage.outbound.contains_key(j) && is_due(
                    m.storage.outbound[j],
                    now,
                    deferred,
                ) implies m.storage.outbound[id].metadata.next_delivery_attempt
                <= m.storage.outbound[j].metadata.next_delivery_attempt by {
                if ids.contains(j) {
                    let q = choose|q: int| 0 <= q < ids.len() && ids[q] == j;
                    assert(ready@.len() == 1);
                }
                assert(ready@[0].next_delivery_attempt
                    <= m.storage.outbound[j].metadata.next_delivery_attempt);
            }
            assert(is_first_due(m.storage.outbound, now, deferred, id));
        }
        match self.storage.outbound_message(&id) {
            Ok(Some(stored)) => Some((id, restore_outbound_message(&stored))),
            Ok(None) => None,
            Err(_) => None,
        }
    }

    /// Takes the next message from storage, where the queue is empty.
    pub(crate) fn hydrate_ready_outbound(&mut self, now: i64)
        ensures
            is_hydrated(old(self)@, final(self)@, now),
            !old(self)@.storage_authoritative ==> *final(self) == *old(self),
    {
        if !self.storage_authoritative || self.pending_outbound.len() > 0 {
            return;
        }
        let ghost m = self@;
        assert(m.pending.len() == self.pending_outbound@.len());
        match self.next_stored(now, false) {
            Some((k, Some(message))) => {
                let ghost model = message@;
                let ghost before = self.pending_outbound@;
                self.pending_outbound.push(message);
                proof {
                    assert(message_models(self.pending_outbound@) =~= message_models(before).push(
                        model,
                    ));
                    assert(is_next(m, now, false, Some(k)));
                    assert(self@ == hydrated(m, Some(k)));
                }
            },
            Some((k, None)) => {
                assert(is_next(m, now, false, Some(k)));
                assert(self@ == hydrated(m, Some(k)));
            },
            None => {
                assert(is_next(m, now, false, None));
            },
        }
    }

    /// Takes the next message that waits for a stamp from storage, where none waits.
    pub(crate) fn hydrate_deferred_stamp(&mut self, now: i64)
        ensures
            is_deferred_hydrated(old(self)@, final(self)@, now),
    {
        let waiting = self.pending_deferred_stamps.len() > 0;
        if !self.storage_authoritative || waiting || self.active_deferred_stamp.is_some() {
            return;
        }
        let ghost m = self@;
        match self.next_stored(now, true) {
            Some((k, Some(message))) => {
                self.pending_deferred_stamps.insert(k, message);
                assert(is_next(m, now, true, Some(k)));
                assert(self@ == deferred_hydrated(m, Some(k)));
            },
            Some((k, None)) => {
                assert(is_next(m, now, true, Some(k)));
                assert(self@ == deferred_hydrated(m, Some(k)));
            },
            None => {
                assert(is_next(m, now, true, None));
            },
        }
    }

    /// Tells the sender of a message what became of it.
    pub(crate) fn tell(&mut self, delivered: bool, message: LxMessage)
        ensures
            final(self)@ == with_notice(old(self)@, delivered, message@),
    {
        let ghost model = message@;
        let ghost before = self.notices@;
        self.notices.push(Notice { delivered, message });
        assert(notice_models(self.notices@) =~= notice_models(before).push(
            NoticeModel { delivered, message: model },
        ));
    }

    /// Puts a message at the end of the queue.
    pub(crate) fn enqueue(&mut self, message: LxMessage)
        ensures
            final(self)@ == with_pending(old(self)@, message@),
    {
        let ghost model = message@;
        let ghost before = self.pending_outbound@;
        self.pending_outbound.push(message);
        assert(message_models(self.pending_outbound@) =~= message_models(before).push(model));
    }

    /// Queues a message, for delivery or for its stamp.
    fn queue(&mut self, message: LxMessage, deferred: bool)
        requires
            deferred ==> queue_id(message@) is Some,
        ensures
            is_queued(old(self)@, final(self)@, message@, deferred),
    {
        if self.storage_authoritative {
            if !self.persist_outbound_message(&message, deferred) {
                let mut failed = message;
                failed.mark_failed();
                self.tell(false, failed);
            }
        } else if deferred {
            let id = match message.message_id {
                Some(id) => id,
                None => match message.hash {
                    Some(id) => id,
                    None => {
                        return;
                    },
                },
            };
            self.pending_deferred_stamps.insert(id, message);
        } else {
            self.enqueue(message);
        }
    }
}

// ---------------------------------------------------------------------------
// Sending.
// ---------------------------------------------------------------------------

/// Why a message could not be sent.
#[derive(Debug)]
pub enum SendError {
    /// The message is for a propagation node, and none is configured.
    MissingOutboundPropagationNode(Box<LxMessage>),
}

impl SendError {
    /// The message that could not be sent.
    pub fn message(&self) -> (m: &LxMessage)
        ensures
            *m == *self->MissingOutboundPropagationNode_0,
    {
        match self {
            SendError::MissingOutboundPropagationNode(message) => message,
        }
    }

    /// What went wrong, in words.
    pub fn describe(&self) -> (text: String)
        ensures
            text@
                == "attempt to send propagated message with no outbound propagation node configured"@,
    {
        "attempt to send propagated message with no outbound propagation node configured".to_owned()
    }
}

/// A message with a ticket, where it has none and one was found.
pub open spec fn ticketed(m: MessageModel, found: Option<Ticket>) -> MessageModel {
    match (m.outbound_ticket, found) {
        (None, Some(t)) => MessageModel { outbound_ticket: Some(t.token), ..m },
        _ => m,
    }
}

/// A message with a stamp cost, where it has neither a stamp nor a cost and one is known.
pub open spec fn costed(m: MessageModel, cost: Option<u8>) -> MessageModel {
    if m.stamp is None && m.stamp_cost is None {
        MessageModel {
            stamp_cost: match cost {
                Some(c) => if c > 0 {
                    Some(c)
                } else {
                    None
                },
                None => None,
            },
            ..m
        }
    } else {
        m
    }
}

/// A message with an identifier, where it has none and one can be computed.
pub open spec fn identified(m: MessageModel) -> MessageModel {
    if m.message_id is None && packable(m.fields, m.native) {
        let h = message_digest(
            m.destination_hash,
            m.source_hash,
            without_stamp(unstamped_payload(m)),
        );
        MessageModel { hash: Some(h), message_id: Some(h), transient_id: Some(h), ..m }
    } else {
        m
    }
}

/// A message with the stamp that its ticket gives, where it has a ticket and no stamp.
pub open spec fn ticket_stamped(m: MessageModel) -> MessageModel {
    if m.stamp is None && m.outbound_ticket is Some {
        let i = identified(m);
        match i.message_id {
            Some(id) => MessageModel {
                stamp: Some(ticket_stamp(m.outbound_ticket->0@, id)),
                stamp_value: Some(COST_TICKET),
                ..i
            },
            None => i,
        }
    } else {
        m
    }
}

/// Whether a proof of work is to be found for a message.
pub open spec fn needs_stamp(m: MessageModel) -> bool {
    m.stamp is None && m.stamp_cost is Some && m.stamp_cost->0 > 0 && identified(m).message_id
        is Some
}

/// A message with a proof of work, where one was found.
pub open spec fn proven(m: MessageModel, found: Option<([u8; 32], u32)>) -> MessageModel {
    match found {
        Some((stamp, value)) => MessageModel {
            stamp: Some(stamp@),
            stamp_value: Some((value % 0x1_0000) as u16),
            ..m
        },
        None => m,
    }
}

/// Whether the content of a message is too large for one packet.
pub open spec fn is_oversized(m: MessageModel) -> bool {
    packable(m.fields, m.native) && payload_bytes(m).len() > ENCRYPTED_PACKET_MAX_CONTENT
        + TIMESTAMP_SIZE + STRUCT_OVERHEAD
}

/// A message that goes over a link where it does not fit one packet.
pub open spec fn fitted(m: MessageModel) -> MessageModel {
    if m.method == DeliveryMethod::Opportunistic && is_oversized(m) {
        MessageModel { method: DeliveryMethod::Direct, ..m }
    } else {
        m
    }
}

/// A message that is ready for the queue.
pub open spec fn ready(m: MessageModel) -> MessageModel {
    in_state(fitted(m), MessageState::Outbound)
}

/// A message that has no way to go.
pub open spec fn unroutable(m: MessageModel) -> MessageModel {
    MessageModel {
        progress: 0,
        state: if m.state == MessageState::Rejected {
            MessageState::Rejected
        } else {
            MessageState::Failed
        },
        ..m
    }
}

/// Whether `cost` is the stamp cost that a router finds for a destination.
pub open spec fn is_cost_for(
    m: RouterModel,
    destination: [u8; 16],
    now: i64,
    cost: Option<u8>,
) -> bool {
    cost == known_cost(m, destination, now) || (m.storage_authoritative && !m.reliable && cost
        is None)
}

/// A message with the ticket and the cost that were found, and the stamp that its ticket
/// gives.
pub open spec fn prepared(
    m: MessageModel,
    ticket: Option<Ticket>,
    cost: Option<u8>,
) -> MessageModel {
    ticket_stamped(costed(ticketed(m, ticket), cost))
}

/// Whether a router took a prepared message over: it waits for its stamp, or it waits for
/// delivery, with the stamp that `generate` found where one is needed at once.
pub open spec fn is_taken_over<G: FnOnce(&[u8; 32], u8) -> Option<([u8; 32], u32)>>(
    m: RouterModel,
    after: RouterModel,
    p: MessageModel,
    generate: G,
) -> bool {
    if needs_stamp(p) && m.config.ext.defer_stamp_generation {
        is_queued(m, after, in_state(identified(p), MessageState::Outbound), true)
    } else if needs_stamp(p) {
        exists|found: Option<([u8; 32], u32)>| #[trigger]
            call_ensures(generate, (&identified(p).message_id->0, p.stamp_cost->0), found)
                && is_queued(m, after, ready(proven(identified(p), found)), false)
    } else {
        is_queued(m, after, ready(p), false)
    }
}

/// A message that has its ticket's stamp where it can have one is no longer identified
/// anew, and where a proof of work is still to be found it has no ticket.
proof fn lemma_ticket_stamped(m: MessageModel)
    ensures
        needs_stamp(ticket_stamped(m)) ==> ticket_stamped(m).outbound_ticket is None,
        identified(identified(m)) == identified(m),
{
}

impl LxMessage {
    /// Computes the identifier, where there is none.
    fn identify(&mut self) -> (b: bool)
        ensures
            final(self)@ == identified(old(self)@),
            b == (final(self)@.message_id is Some),
    {
        if self.message_id.is_some() {
            true
        } else {
            match self.compute_hash() {
                Ok(_) => true,
                Err(_) => false,
            }
        }
    }
}

/// Gives a message the stamp that `generate` finds for it.
fn with_proof<G>(message: LxMessage, generate: G) -> (m: LxMessage) where
    G: FnOnce(&[u8; 32], u8) -> Option<([u8; 32], u32)>,

    requires
        forall|id: &[u8; 32], cost: u8| call_requires(generate, (id, cost)),
        message@.stamp is None,
        message@.outbound_ticket is None,
        message@.message_id is Some,
        message@.stamp_cost is Some,
    ensures
        exists|found: Option<([u8; 32], u32)>| #[trigger]
            call_ensures(generate, (&message@.message_id->0, message@.stamp_cost->0), found) && m@
                == proven(message@, found),
{
    let ghost i = message@;
    let mut m = message;
    let _ = m.get_stamp(generate);
    proof {
        let found = choose|found: Option<([u8; 32], u32)>| #[trigger]
            call_ensures(generate, (&i.message_id->0, i.stamp_cost->0), found) && (match found {
                Some((stamp, value)) => m@ == (MessageModel {
                    stamp_value: Some((value % 0x1_0000) as u16),
                    stamp: Some(stamp@),
                    ..i
                }),
                None => m@ == i,
            });
        assert(m@ == proven(i, found));
    }
    m
}

/// Makes a message ready for the queue.
fn make_ready(message: LxMessage) -> (m: LxMessage)
    ensures
        m@ == ready(message@),
{
    let mut m = message;
    if m.method == DeliveryMethod::Opportunistic {
        match m.pack_payload() {
            Ok(packed) => {
                if packed.len() > ENCRYPTED_PACKET_MAX_CONTENT + TIMESTAMP_SIZE + STRUCT_OVERHEAD {
                    m.method = DeliveryMethod::Direct;
                }
            },
            Err(_) => {},
        }
    }
    m.state = MessageState::Outbound;
    m
}

impl<S: LxmfStorage> LxmRouter<S> {
    /// Gives a message the ticket and the stamp cost that are known for its destination, and
    /// the stamp that its ticket gives.
    fn prepare(&self, message: LxMessage, now: i64) -> (p: LxMessage)
        ensures
            exists|ticket: Option<Ticket>, cost: Option<u8>|
                #![trigger prepared(message@, ticket, cost)]
                is_ticket_for(self@, message@.destination_hash, now, ticket) && is_cost_for(
                    self@,
                    message@.destination_hash,
                    now,
                    cost,
                ) && p@ == prepared(message@, ticket, cost),
    {
        let mut p = message;
        let ticket = self.find_ticket(&p.destination_hash, now);
        if p.outbound_ticket.is_none() {
            match ticket {
                Some(t) => {
                    p.outbound_ticket = Some(t.token);
                },
                None => {},
            }
        }
        assert(p@ == ticketed(message@, ticket));
        let ghost first = p@;
        let cost = self.get_stamp_cost(&p.destination_hash, now);
        if p.stamp.is_none() && p.stamp_cost.is_none() {
            p.stamp_cost = match cost {
                Some(c) => if c > 0 {
                    Some(c)
                } else {
                    None
                },
                None => None,
            };
        }
        assert(p@ == costed(first, cost));
        let ghost second = p@;
        if p.stamp.is_none() && p.outbound_ticket.is_some() && p.identify() {
            let none = |id: &[u8; 32], c: u8| -> (r: Option<([u8; 32], u32)>) { None };
            let _ = p.get_stamp(none);
        }
        assert(p@ == ticket_stamped(second));
        assert(p@ == prepared(message@, ticket, cost));
        p
    }

    /// Takes a prepared message over.
    fn take_over<G>(&mut self, message: LxMessage, generate: G) where
        G: FnOnce(&[u8; 32], u8) -> Option<([u8; 32], u32)>,

        requires
            forall|id: &[u8; 32], cost: u8| call_requires(generate, (id, cost)),
            needs_stamp(message@) ==> message@.outbound_ticket is None,
        ensures
            is_taken_over(old(self)@, final(self)@, message@, generate),
    {
        let ghost p = message@;
        let mut m = message;
        let costs = match m.stamp_cost {
            Some(c) => c > 0,
            None => false,
        };
        if m.stamp.is_none() && costs && m.identify() {
            if self.config.ext.defer_stamp_generation {
                m.state = MessageState::Outbound;
                self.queue(m, true);
                return;
            }
            m = with_proof(m, generate);
        } else {
            assert(m@ == p);
        }
        let fit = make_ready(m);
        self.queue(fit, false);
    }

    /// Sends a message: it enters the queue, after it got a stamp where one is asked for.
    /// Where a proof of work is needed at once, `generate` finds it.
    pub fn try_send<G>(&mut self, message: LxMessage, now: i64, generate: G) -> (r: Result<
        (),
        SendError,
    >) where G: FnOnce(&[u8; 32], u8) -> Option<([u8; 32], u32)>
        requires
            forall|id: &[u8; 32], cost: u8| call_requires(generate, (id, cost)),
        ensures
            ({
                let stuck = message@.method == DeliveryMethod::Propagated && old(
                    self,
                )@.outbound_propagation_node is None;
                &&& r is Err <==> stuck
                &&& r matches Err(SendError::MissingOutboundPropagationNode(back)) ==> back@
                    == unroutable(message@) && final(self)@ == with_notice(
                    old(self)@,
                    false,
                    unroutable(message@),
                )
                &&& r is Ok ==> exists|ticket: Option<Ticket>, cost: Option<u8>|
                    #![trigger prepared(message@, ticket, cost)]
                    is_ticket_for(old(self)@, message@.destination_hash, now, ticket)
                        && is_cost_for(old(self)@, message@.destination_hash, now, cost)
                        && is_taken_over(
                        old(self)@,
                        final(self)@,
                        prepared(message@, ticket, cost),
                        generate,
                    )
            }),
    {
        if message.method == DeliveryMethod::Propagated && self.outbound_propagation_node.is_none() {
            let mut back = message;
            back.progress = 0;
            if back.state != MessageState::Rejected {
                back.mark_failed();
            }
            let told = back.copy();
            self.tell(false, told);
            return Err(SendError::MissingOutboundPropagationNode(Box::new(back)));
        }
        let p = self.prepare(message, now);
        proof {
            let (ticket, cost) = choose|ticket: Option<Ticket>, cost: Option<u8>|
                #![trigger prepared(message@, ticket, cost)]
                is_ticket_for(self@, message@.destination_hash, now, ticket) && is_cost_for(
                    self@,
                    message@.destination_hash,
                    now,
                    cost,
                ) && p@ == prepared(message@, ticket, cost);
            lemma_ticket_stamped(costed(ticketed(message@, ticket), cost));
        }
        self.take_over(p, generate);
        Ok(())
    }

    /// Sends a message; one that has no way to go fails.
    pub fn send<G>(&mut self, message: LxMessage, now: i64, generate: G) where
        G: FnOnce(&[u8; 32], u8) -> Option<([u8; 32], u32)>,

        requires
            forall|id: &[u8; 32], cost: u8| call_requires(generate, (id, cost)),
        ensures
            message@.method == DeliveryMethod::Propagated && old(self)@.outbound_propagation_node
                is None ==> final(self)@ == with_notice(
                old(self)@,
                false,
                unroutable(message@),
            ),
            !(message@.method == DeliveryMethod::Propagated && old(
                self,
            )@.outbound_propagation_node is None) ==> exists|
                ticket: Option<Ticket>,
                cost: Option<u8>,
            |
                #![trigger prepared(message@, ticket, cost)]
                is_ticket_for(old(self)@, message@.destination_hash, now, ticket) && is_cost_for(
                    old(self)@,
                    message@.destination_hash,
                    now,
                    cost,
                ) && is_taken_over(
                    old(self)@,
                    final(self)@,
                    prepared(message@, ticket, cost),
                    generate,
                ),
    {
        let _ = self.try_send(message, now, generate);
    }

    /// Has a message wait for its stamp.  A message that has no identifier, or that storage
    /// fails to keep, comes back.
    pub fn defer_stamp(&mut self, message: LxMessage) -> (r: Option<LxMessage>)
        ensures
            ({
                let m = old(self)@;
                let i = if queue_id(message@) is Some {
                    message@
                } else {
                    identified(message@)
                };
                let w = in_state(i, MessageState::Outbound);
                if queue_id(i) is None {
                    r matches Some(back) && back@ == i && final(self)@ == m
                } else if !m.storage_authoritative {
                    r is None && final(self)@ == (RouterModel {
                        deferred: m.deferred.insert(queue_id(i)->0, w),
                        ..m
                    })
                } else {
                    &&& persists(m, final(self)@, w, true, r is None)
                    &&& r matches Some(back) ==> back@ == w
                }
            }),
    {
        let mut m = message;
        if m.message_id.is_none() && m.hash.is_none() {
            let _ = m.identify();
        }
        let id = match m.message_id {
            Some(id) => Some(id),
            None => m.hash,
        };
        match id {
            Some(key) => self.wait_for_stamp(m, key),
            None => Some(m),
        }
    }

    /// Has a message wait for its stamp under its identifier.
    fn wait_for_stamp(&mut self, message: LxMessage, id: [u8; 32]) -> (r: Option<LxMessage>)
        requires
            queue_id(message@) == Some(id),
        ensures
            ({
                let w = in_state(message@, MessageState::Outbound);
                if old(self)@.storage_authoritative {
                    &&& persists(old(self)@, final(self)@, w, true, r is None)
                    &&& r matches Some(back) ==> back@ == w
                } else {
                    r is None && final(self)@ == (RouterModel {
                        deferred: old(self)@.deferred.insert(id, w),
                        ..old(self)@
                    })
                }
            }),
    {
        let mut m = message;
        m.state = MessageState::Outbound;
        if self.storage_authoritative {
            if self.persist_outbound_message(&m, true) {
                None
            } else {
                Some(m)
            }
        } else {
            self.pending_deferred_stamps.insert(id, m);
            None
        }
    }
}

// ---------------------------------------------------------------------------
// What is read back.
// ---------------------------------------------------------------------------

/// A queued message that was put in storage comes back with its contents, its fields, its
/// stamps, its signature and its schedule.
pub proof fn queued_messages_come_back(m: MessageModel, deferred: bool)
    requires
        stored_form(m, deferred) is Some,
        is_kept(m, encoding(envelope_element(m))),
    ensures
        ({
            let o = stored_form(m, deferred)->0;
            &&& o.metadata.deferred == deferred
            &&& restored_message(o) matches Some(r) && {
                &&& r.message_id == queue_id(m)
                &&& r.destination_hash == m.destination_hash
                &&& r.source_hash == m.source_hash
                &&& r.signature == m.signature
                &&& r.title == m.title
                &&& r.content == m.content
                &&& r.timestamp == m.timestamp
                &&& r.fields == read_fields(field_elements(m.fields, m.native, 256))
                &&& r.native == read_native(field_elements(m.fields, m.native, 256))
                &&& r.stamp == (match m.stamp {
                    Some(s) => if stamp_length(s.len()) {
                        Some(s)
                    } else {
                        None
                    },
                    None => None,
                })
                &&& r.propagation_stamp == m.propagation_stamp
                &&& r.stamp_value == m.stamp_value
                &&& r.ratchet_id == m.ratchet_id
                &&& r.representation == m.representation
                &&& r.auto_compress == m.auto_compress
                &&& r.transport_encrypted == m.transport_encrypted
                &&& r.transport_encryption == m.transport_encryption
                &&& r.state == m.state
                &&& r.method == m.method
                &&& r.stamp_cost == m.stamp_cost
                &&& r.outbound_ticket == m.outbound_ticket
                &&& r.next_delivery_attempt == m.next_delivery_attempt
                &&& r.last_delivery_attempt == m.last_delivery_attempt
                &&& r.delivery_attempts == m.delivery_attempts
                &&& r.progress == m.progress
            }
        }),
{
}

// ---------------------------------------------------------------------------
// What sending is for.
// ---------------------------------------------------------------------------

/// A message is queued under its own identifier, else under its hash.
pub proof fn messages_are_queued_under_their_identifier(m: MessageModel)
    ensures
        m.message_id is Some ==> queue_id(m) == m.message_id,
        m.message_id is None ==> queue_id(m) == m.hash,
{
}

/// States and methods survive storage.
pub proof fn states_and_methods_are_read_back(state: MessageState, method: DeliveryMethod)
    ensures
        decoded_state(state_byte(state)) == Some(state),
        decoded_method(method_byte(method)) == Some(method),
{
}

/// A queued message waits at the end of the queue, or for its stamp, or in storage where the
/// queue is kept there; no other message is touched.
pub proof fn queued_messages_wait(
    m: RouterModel,
    after: RouterModel,
    message: MessageModel,
    deferred: bool,
    other: [u8; 32],
)
    requires
        is_queued(m, after, message, deferred),
        deferred ==> queue_id(message) is Some,
    ensures
        !m.storage_authoritative ==> after.storage == m.storage && after.notices == m.notices,
        !m.storage_authoritative && !deferred ==> after.pending == m.pending + seq![message]
            && after.deferred == m.deferred,
        !m.storage_authoritative && deferred ==> {
            let id = queue_id(message)->0;
            &&& after.pending == m.pending
            &&& after.deferred.contains_key(id) && after.deferred[id] == message
            &&& other != id ==> (after.deferred.contains_key(other) <==> m.deferred.contains_key(
                other,
            )) && after.deferred[other] == m.deferred[other]
        },
        m.storage_authoritative ==> after.pending == m.pending && after.deferred == m.deferred,
        m.storage_authoritative && m.reliable && queue_id(message) is Some && is_packable(message)
            ==> {
            let id = queue_id(message)->0;
            let kept = after.storage.outbound[id];
            &&& after.notices == m.notices
            &&& after.storage.outbound.contains_key(id)
            &&& kept.metadata.message_id == id && kept.metadata.deferred == deferred
            &&& kept.metadata.destination_hash == message.destination_hash
            &&& decoded_state(kept.metadata.state) == Some(message.state)
            &&& decoded_method(kept.metadata.delivery_method) == Some(message.method)
            &&& kept.metadata.next_delivery_attempt == message.next_delivery_attempt
            &&& kept.metadata.last_delivery_attempt == message.last_delivery_attempt
            &&& kept.metadata.delivery_attempts == message.delivery_attempts
            &&& kept.metadata.created_at == message.timestamp
            &&& kept.metadata.progress == message.progress
            &&& kept.encoded_message == encoding(envelope_element(message))
            &&& other != id ==> (after.storage.outbound.contains_key(other)
                <==> m.storage.outbound.contains_key(other)) && after.storage.outbound[other]
                == m.storage.outbound[other]
        },
        m.storage_authoritative && !(queue_id(message) is Some && is_packable(message))
            ==> after.storage == m.storage && after.notices == m.notices + seq![
            NoticeModel {
                delivered: false,
                message: MessageModel { state: MessageState::Failed, ..message },
            },
        ],
        after == (RouterModel {
            storage: StorageModel { outbound: after.storage.outbound, ..m.storage },
            pending: after.pending,
            deferred: after.deferred,
            notices: after.notices,
            ..m
        }),
{
    assert(m.pending.push(message) =~= m.pending + seq![message]);
    let failed = MessageModel { state: MessageState::Failed, ..message };
    assert(m.notices.push(NoticeModel { delivered: false, message: failed }) =~= m.notices + seq![
        NoticeModel { delivered: false, message: failed },
    ]);
}

/// A message is sent as it was written: preparing it changes only its identifiers, its ticket,
/// its stamp, what that is worth and what it is to cost.  A stamp, a ticket and a cost that it
/// has are kept; else it gets the ticket that was found, the stamp that its ticket gives, and
/// the cost that its destination announced.
pub proof fn preparing_keeps_what_was_written(
    m: MessageModel,
    ticket: Option<Ticket>,
    cost: Option<u8>,
)
    ensures
        ({
            let p = prepared(m, ticket, cost);
            &&& p == (MessageModel {
                hash: p.hash,
                message_id: p.message_id,
                transient_id: p.transient_id,
                stamp: p.stamp,
                stamp_value: p.stamp_value,
                stamp_cost: p.stamp_cost,
                outbound_ticket: p.outbound_ticket,
                ..m
            })
            &&& m.message_id is Some ==> p.message_id == m.message_id && p.hash == m.hash
            &&& m.outbound_ticket is Some ==> p.outbound_ticket == m.outbound_ticket
            &&& m.outbound_ticket is None && ticket is Some ==> p.outbound_ticket == Some(
                ticket->0.token,
            )
            &&& m.outbound_ticket is None && ticket is None ==> p.outbound_ticket is None
            &&& m.stamp is Some ==> p.stamp == m.stamp && p.stamp_value == m.stamp_value
                && p.stamp_cost == m.stamp_cost
            &&& m.stamp_cost is Some ==> p.stamp_cost == m.stamp_cost
            &&& m.stamp is None && m.stamp_cost is None ==> p.stamp_cost == (if cost is Some
                && cost->0 > 0 {
                cost
            } else {
                None
            })
            &&& m.stamp is None && p.outbound_ticket is Some && p.message_id is Some ==> p.stamp
                == Some(ticket_stamp(p.outbound_ticket->0@, p.message_id->0)) && p.stamp_value
                == Some(COST_TICKET)
            &&& m.stamp is None && !(p.outbound_ticket is Some && p.message_id is Some)
                ==> p.stamp is None && p.stamp_value == m.stamp_value
            &&& m.stamp is None && p.outbound_ticket is Some && packable(m.fields, m.native)
                ==> p.message_id is Some
        }),
{
}

/// A message that is ready waits for delivery by its own method, but for one that was to go in
/// one packet and does not fit: it goes over a link.
pub proof fn messages_that_do_not_fit_a_packet_take_a_link(m: MessageModel)
    ensures
        ready(m).state == MessageState::Outbound,
        ready(m) == (MessageModel { state: MessageState::Outbound, method: ready(m).method, ..m }),
        m.method != DeliveryMethod::Opportunistic ==> ready(m).method == m.method,
        m.method == DeliveryMethod::Opportunistic && packable(m.fields, m.native)
            && payload_bytes(m).len() > ENCRYPTED_PACKET_MAX_CONTENT + TIMESTAMP_SIZE
            + STRUCT_OVERHEAD ==> ready(m).method == DeliveryMethod::Direct,
        m.method == DeliveryMethod::Opportunistic && payload_bytes(m).len()
            <= ENCRYPTED_PACKET_MAX_CONTENT + TIMESTAMP_SIZE + STRUCT_OVERHEAD ==> ready(m).method
            == DeliveryMethod::Opportunistic,
{
}

/// A message that has no way to go fails, unless it was rejected, and is else unchanged.
pub proof fn messages_without_a_way_fail(m: MessageModel)
    ensures
        unroutable(m).progress == 0,
        m.state != MessageState::Rejected ==> unroutable(m).state == MessageState::Failed,
        m.state == MessageState::Rejected ==> unroutable(m).state == MessageState::Rejected,
        unroutable(m) == (MessageModel {
            progress: 0,
            state: unroutable(m).state,
            ..m
        }),
{
}

/// A message that costs a stamp and has none gets one before it is sent: it waits for it where
/// stamps are generated apart, and else it enters the queue with the stamp that was found.  Any
/// other message enters the queue as it is.
pub proof fn messages_get_the_stamps_they_need<
    G: FnOnce(&[u8; 32], u8) -> Option<([u8; 32], u32)>,
>(m: RouterModel, after: RouterModel, p: MessageModel, generate: G)
    requires
        is_taken_over(m, after, p, generate),
        p.message_id is Some,
    ensures
        ({
            let costs = p.stamp is None && p.stamp_cost is Some && p.stamp_cost->0 > 0;
            let waiting = MessageModel { state: MessageState::Outbound, ..p };
            &&& costs && m.config.ext.defer_stamp_generation ==> is_queued(m, after, waiting, true)
            &&& costs && !m.config.ext.defer_stamp_generation ==> exists|
                found: Option<([u8; 32], u32)>,
            | #[trigger]
                call_ensures(generate, (&p.message_id->0, p.stamp_cost->0), found) && (found is None
                    ==> is_queued(m, after, ready(p), false)) && (found matches Some((stamp, value))
                    ==> is_queued(
                    m,
                    after,
                    ready(
                        MessageModel {
                            stamp: Some(stamp@),
                            stamp_value: Some((value % 0x1_0000) as u16),
                            ..p
                        },
                    ),
                    false,
                ))
            &&& !costs ==> is_queued(m, after, ready(p), false)
        }),
{
}

/// An empty queue that is kept in storage takes the message that fell due first from it, and
/// nothing else happens; a queue that is not empty, or not kept in storage, is left alone.
pub proof fn stored_messages_enter_the_queue_when_due(
    m: RouterModel,
    after: RouterModel,
    now: i64,
    due: [u8; 32],
)
    requires
        is_hydrated(m, after, now),
    ensures
        after == (RouterModel { pending: after.pending, ..m }),
        !m.storage_authoritative || m.pending.len() > 0 ==> after.pending == m.pending,
        after.pending.len() <= m.pending.len() + 1,
        m.storage_authoritative && m.reliable && m.pending.len() == 0
            && m.storage.outbound.contains_key(due) && !m.storage.outbound[due].metadata.deferred
            && m.storage.outbound[due].metadata.next_delivery_attempt <= now ==> exists|
            k: [u8; 32],
        | #[trigger]
            m.storage.outbound.contains_key(k) && !m.storage.outbound[k].metadata.deferred
                && m.storage.outbound[k].metadata.next_delivery_attempt
                <= m.storage.outbound[due].metadata.next_delivery_attempt && after.pending == (
            match restored_message(m.storage.outbound[k]) {
                Some(message) => seq![message],
                None => Seq::empty(),
            }),
        m.storage_authoritative && m.pending.len() == 0 && after.pending.len() > 0 ==> exists|
            k: [u8; 32],
        | #[trigger]
            m.storage.outbound.contains_key(k) && !m.storage.outbound[k].metadata.deferred
                && m.storage.outbound[k].metadata.next_delivery_attempt <= now && restored_message(
                m.storage.outbound[k],
            ) == Some(after.pending[0]),
{
    if m.storage_authoritative && m.pending.len() == 0 {
        let choice = choose|choice: Option<[u8; 32]>| #[trigger]
            is_next(m, now, false, choice) && after == hydrated(m, choice);
        match choice {
            Some(k) => {
                assert(m.storage.outbound.contains_key(k));
                match restored_message(m.storage.outbound[k]) {
                    Some(message) => {
                        assert(m.pending.push(message) =~= seq![message]);
                    },
                    None => {
                        assert(m.pending =~= Seq::empty());
                    },
                }
            },
            None => {},
        }
    }
}

/// A message without an identifier gets the digest of what it says as its hash and under both of
/// its identifiers, if it can be written; one that has an identifier keeps it.
pub proof fn messages_are_identified_by_what_they_say(m: MessageModel)
    ensures
        ({
            let i = identified(m);
            let h = message_digest(
                m.destination_hash,
                m.source_hash,
                without_stamp(unstamped_payload(m)),
            );
            &&& m.message_id is None && packable(m.fields, m.native) ==> i.message_id == Some(h)
                && i.hash == Some(h) && i.transient_id == Some(h)
            &&& m.message_id is Some || !packable(m.fields, m.native) ==> i == m
            &&& i == (MessageModel {
                hash: i.hash,
                message_id: i.message_id,
                transient_id: i.transient_id,
                ..m
            })
        }),
{
}

/// A message that needs a stamp and has no identifier yet is identified before it is stamped or
/// waits for its stamp; one that cannot be identified goes out without one.
pub proof fn messages_are_identified_before_they_are_stamped<
    G: FnOnce(&[u8; 32], u8) -> Option<([u8; 32], u32)>,
>(m: RouterModel, after: RouterModel, p: MessageModel, generate: G)
    requires
        is_taken_over(m, after, p, generate),
        p.message_id is None,
        p.stamp is None,
        p.stamp_cost is Some,
        p.stamp_cost->0 > 0,
    ensures
        ({
            let h = message_digest(
                p.destination_hash,
                p.source_hash,
                without_stamp(unstamped_payload(p)),
            );
            let named = MessageModel {
                hash: Some(h),
                message_id: Some(h),
                transient_id: Some(h),
                ..p
            };
            &&& !packable(p.fields, p.native) ==> is_queued(m, after, ready(p), false)
            &&& packable(p.fields, p.native) && m.config.ext.defer_stamp_generation ==> is_queued(
                m,
                after,
                MessageModel { state: MessageState::Outbound, ..named },
                true,
            )
            &&& packable(p.fields, p.native) && !m.config.ext.defer_stamp_generation ==> exists|
                found: Option<([u8; 32], u32)>,
            | #[trigger]
                call_ensures(generate, (&h, p.stamp_cost->0), found) && (found is None
                    ==> is_queued(m, after, ready(named), false)) && (
                found matches Some((stamp, value)) ==> is_queued(
                    m,
                    after,
                    ready(
                        MessageModel {
                            stamp: Some(stamp@),
                            stamp_value: Some((value % 0x1_0000) as u16),
                            ..named
                        },
                    ),
                    false,
                ))
        }),
{
}

/// A message that waits in storage for its stamp is taken in where none waits in memory and none
/// is being stamped: one of those that were due first, under its identifier.
pub proof fn messages_to_be_stamped_are_taken_in_when_due(
    m: RouterModel,
    after: RouterModel,
    now: i64,
    due: [u8; 32],
)
    requires
        is_deferred_hydrated(m, after, now),
    ensures
        after == (RouterModel { deferred: after.deferred, ..m }),
        !m.storage_authoritative || m.deferred.dom().len() > 0 || m.active_stamp is Some ==> after
            == m,
        m.storage_authoritative && m.reliable && m.deferred.dom().len() == 0 && m.active_stamp
            is None && m.storage.outbound.contains_key(due)
            && m.storage.outbound[due].metadata.deferred
            && m.storage.outbound[due].metadata.next_delivery_attempt <= now ==> exists|
            k: [u8; 32],
        | #[trigger]
            m.storage.outbound.contains_key(k) && m.storage.outbound[k].metadata.deferred
                && m.storage.outbound[k].metadata.next_delivery_attempt
                <= m.storage.outbound[due].metadata.next_delivery_attempt && after.deferred == (
            match restored_message(m.storage.outbound[k]) {
                Some(message) => m.deferred.insert(k, message),
                None => m.deferred,
            }),
        forall|k: [u8; 32]| #[trigger]
            after.deferred.contains_key(k) && !m.deferred.contains_key(k)
                ==> m.storage.outbound.contains_key(k) && m.storage.outbound[k].metadata.deferred
                && m.storage.outbound[k].metadata.next_delivery_attempt <= now && restored_message(
                m.storage.outbound[k],
            ) == Some(after.deferred[k]),
{
    if m.storage_authoritative && m.deferred.dom().len() == 0 && m.active_stamp is None {
        let choice = choose|choice: Option<[u8; 32]>| #[trigger]
            is_next(m, now, true, choice) && after == deferred_hydrated(m, choice);
        if let Some(k) = choice {
            assert(m.storage.outbound.contains_key(k));
        }
    }
}

/// A message is kept in storage under its identifier where it has one and can be packed, unless
/// storage fails; where it is not kept, nothing changes.
pub proof fn messages_are_kept_where_they_can_be(
    m: RouterModel,
    after: RouterModel,
    message: MessageModel,
    deferred: bool,
    kept: bool,
)
    requires
        persists(m, after, message, deferred, kept),
    ensures
        !kept ==> after == m,
        kept ==> queue_id(message) is Some && is_packable(message),
        m.reliable && queue_id(message) is Some && is_packable(message) ==> kept,
        kept ==> {
            let id = queue_id(message)->0;
            &&& after.storage.outbound == m.storage.outbound.insert(
                id,
                after.storage.outbound[id],
            )
            &&& after.storage.outbound[id].metadata.message_id == id
            &&& after.storage.outbound[id].metadata.deferred == deferred
            &&& after.storage.outbound[id].encoded_message == encoding(envelope_element(message))
        },
        after == (RouterModel {
            storage: StorageModel { outbound: after.storage.outbound, ..m.storage },
            ..m
        }),
{
}

} // verus!
