//! Stamps that are generated apart from sending: which message is next, and what becomes
//! of it.

use vstd::prelude::*;

use crate::bytes::to_vec;
use crate::constants::{MessageState, COST_TICKET};
use crate::message::{ticket_stamp, LxMessage, MessageModel};
use crate::router::delivery::{is_dropped, only_takes_out};
use crate::router::direct::in_state;
use crate::router::queue::{
    is_deferred_hydrated, is_hydrated, messages_to_be_stamped_are_taken_in_when_due, persists,
    proven, stored_form, stored_messages_enter_the_queue_when_due, with_notice, with_pending,
};
use crate::router::{LxmRouter, NoticeModel, RouterModel};
use crate::storage::LxmfStorage;

verus! {

/// What is known of the stamp that is being generated.
#[derive(Debug, Clone, Copy, PartialEq, Eq)]
pub enum DeferredStampResult {
    /// It is still being generated.
    Pending,
    Success { stamp: [u8; 32], value: u32 },
    Cancelled,
    /// Whoever generated it is gone.
    Closed,
}

/// A stamp that is to be generated.
#[derive(Debug, Clone, Copy)]
pub struct DeferredStampJob {
    pub message_hash: [u8; 32],
    pub cost: u8,
}

/// Whether a message with its stamp waits for delivery, in the queue or in storage.
pub open spec fn is_passed_on(m: RouterModel, after: RouterModel, message: MessageModel) -> bool {
    if m.storage_authoritative {
        exists|kept: bool| #[trigger] persists(m, after, message, false, kept)
    } else {
        after == with_pending(m, message)
    }
}

/// A router in which a message no longer waits for its stamp.
pub open spec fn without_deferred(m: RouterModel, hash: [u8; 32]) -> RouterModel {
    RouterModel { deferred: m.deferred.remove(hash), ..m }
}

/// A router that generates no stamp.
pub open spec fn without_job(m: RouterModel) -> RouterModel {
    RouterModel { active_stamp: None, ..m }
}

/// Whether a message whose stamp could not be had was given up.
pub open spec fn is_given_up(
    m: RouterModel,
    after: RouterModel,
    message: MessageModel,
    hash: [u8; 32],
) -> bool {
    is_dropped(with_notice(m, false, in_state(message, MessageState::Failed)), after, hash)
}

/// Whether what is known of the stamp that is being generated was acted upon.
pub open spec fn is_stamp_concluded(
    m: RouterModel,
    after: RouterModel,
    result: DeferredStampResult,
) -> bool {
    match m.active_stamp {
        None => after == m,
        Some(hash) => if result == DeferredStampResult::Pending {
            after == m
        } else if !m.deferred.contains_key(hash) {
            after == without_job(m)
        } else {
            let free = without_deferred(without_job(m), hash);
            let message = m.deferred[hash];
            match result {
                DeferredStampResult::Success { stamp, value } => is_passed_on(
                    free,
                    after,
                    proven(message, Some((stamp, value))),
                ),
                DeferredStampResult::Cancelled => is_dropped(free, after, hash),
                _ => is_given_up(free, after, message, hash),
            }
        },
    }
}

/// A message after its stamp was sought again: the one that its ticket gives, the one it
/// has, or the one that was found.
pub open spec fn restamped(m: MessageModel, found: Option<([u8; 32], u32)>) -> MessageModel {
    if m.outbound_ticket is Some && m.message_id is Some {
        MessageModel {
            stamp_value: Some(COST_TICKET),
            stamp: Some(ticket_stamp(m.outbound_ticket->0@, m.message_id->0)),
            ..m
        }
    } else if m.stamp_cost is None {
        MessageModel { stamp_value: None, ..m }
    } else if m.stamp is Some || m.message_id is None {
        m
    } else {
        proven(m, found)
    }
}

/// Whether a proof of work is sought for a message.
pub open spec fn seeks_proof(m: MessageModel) -> bool {
    !(m.outbound_ticket is Some && m.message_id is Some) && m.stamp_cost is Some && m.stamp is None
        && m.message_id is Some
}

/// Whether the next message that waits for a stamp was taken up.  Where no work is asked for,
/// it gets its stamp at once; where stamps can be generated elsewhere, that is started; else
/// `generate` finds one.
pub open spec fn is_taken_up<G: FnOnce(&[u8; 32], u8) -> Option<([u8; 32], u32)>>(
    m: RouterModel,
    after: RouterModel,
    hash: [u8; 32],
    can_start: bool,
    generate: G,
    found: Option<([u8; 32], u32)>,
    job: Option<DeferredStampJob>,
) -> bool {
    let message = m.deferred[hash];
    let cost = match message.stamp_cost {
        Some(c) => c,
        None => 0,
    };
    &&& m.deferred.contains_key(hash)
    &&& if cost == 0 {
        &&& job is None
        &&& seeks_proof(message) ==> call_ensures(generate, (&message.message_id->0, 0), found)
        &&& is_passed_on(without_deferred(m, hash), after, restamped(message, found))
    } else if can_start {
        &&& job == Some(DeferredStampJob { message_hash: hash, cost })
        &&& after == (RouterModel { active_stamp: Some(hash), ..m })
    } else {
        &&& job is None
        &&& call_ensures(generate, (&hash, cost), found)
        &&& match found {
            Some(f) => is_passed_on(without_deferred(m, hash), after, proven(message, Some(f))),
            None => is_given_up(without_deferred(m, hash), after, message, hash),
        }
    }
}

/// Whether a router went on to the next message that waits for a stamp, where no stamp is
/// being generated and one waits.
pub open spec fn is_advanced<G: FnOnce(&[u8; 32], u8) -> Option<([u8; 32], u32)>>(
    m: RouterModel,
    after: RouterModel,
    can_start: bool,
    generate: G,
    job: Option<DeferredStampJob>,
) -> bool {
    if m.active_stamp is Some || m.deferred.dom().len() == 0 {
        after == m && job is None
    } else {
        exists|hash: [u8; 32], found: Option<([u8; 32], u32)>| #[trigger]
            is_taken_up(m, after, hash, can_start, generate, found, job)
    }
}

/// Whether a round of stamp generation led from one state to another, by way of the states
/// in between.
pub open spec fn is_stamp_round<G: FnOnce(&[u8; 32], u8) -> Option<([u8; 32], u32)>>(
    m: RouterModel,
    a: RouterModel,
    b: RouterModel,
    c: RouterModel,
    after: RouterModel,
    now: i64,
    result: DeferredStampResult,
    can_start: bool,
    generate: G,
    job: Option<DeferredStampJob>,
) -> bool {
    &&& is_hydrated(m, a, now)
    &&& is_deferred_hydrated(a, b, now)
    &&& is_stamp_concluded(b, c, result)
    &&& is_advanced(c, after, can_start, generate, job)
}

/// Gives a message its stamp anew.
fn restamp<G>(message: LxMessage, generate: G) -> (m: LxMessage) where
    G: FnOnce(&[u8; 32], u8) -> Option<([u8; 32], u32)>,

    requires
        forall|id: &[u8; 32], cost: u8| call_requires(generate, (id, cost)),
    ensures
        exists|found: Option<([u8; 32], u32)>|
            #![trigger restamped(message@, found)]
            (seeks_proof(message@) ==> call_ensures(
                generate,
                (&message@.message_id->0, message@.stamp_cost->0),
                found,
            )) && m@ == restamped(message@, found),
{
    let ghost i = message@;
    let mut m = message;
    let _ = m.get_stamp(generate);
    proof {
        if seeks_proof(i) {
            let found = choose|found: Option<([u8; 32], u32)>| #[trigger]
                call_ensures(generate, (&i.message_id->0, i.stamp_cost->0), found) && (match found {
                    Some((stamp, value)) => m@ == (MessageModel {
                        stamp_value: Some((value % 0x1_0000) as u16),
                        stamp: Some(stamp@),
                        ..i
                    }),
                    None => m@ == i,
                });
            assert(m@ == restamped(i, found));
        } else {
            assert(m@ == restamped(i, None));
        }
    }
    m
}

/// Gives a message a stamp that was found for it.
fn attach(message: LxMessage, stamp: [u8; 32], value: u32) -> (m: LxMessage)
    ensures
        m@ == proven(message@, Some((stamp, value))),
{
    let mut m = message;
    m.stamp = Some(to_vec(&stamp));
    m.stamp_value = Some((value % 0x1_0000) as u16);
    m
}

impl<S: LxmfStorage> LxmRouter<S> {
    /// Has a message with its stamp wait for delivery.
    fn pass_on(&mut self, message: LxMessage)
        ensures
            is_passed_on(old(self)@, final(self)@, message@),
    {
        if self.storage_authoritative {
            let kept = self.persist_outbound_message(&message, false);
            assert(persists(old(self)@, self@, message@, false, kept));
        } else {
            self.enqueue(message);
        }
    }

    /// Gives a message up whose stamp could not be had.
    fn give_up(&mut self, message: LxMessage, hash: &[u8; 32])
        ensures
            is_given_up(old(self)@, final(self)@, message@, *hash),
    {
        let mut failed = message;
        failed.mark_failed();
        self.tell(false, failed);
        self.drop_stored_message(hash);
    }

    /// Acts upon what is known of the stamp that is being generated.
    pub fn conclude_deferred_stamp(&mut self, result: DeferredStampResult)
        ensures
            is_stamp_concluded(old(self)@, final(self)@, result),
    {
        let hash = match self.active_deferred_stamp {
            Some(h) => h,
            None => {
                return;
            },
        };
        match result {
            DeferredStampResult::Pending => {
                return;
            },
            _ => {},
        }
        self.active_deferred_stamp = None;
        let message = match self.pending_deferred_stamps.remove(&hash) {
            Some(m) => m,
            None => {
                assert(self@.deferred =~= old(self)@.deferred);
                return;
            },
        };
        match result {
            DeferredStampResult::Success { stamp, value } => {
                let stamped = attach(message, stamp, value);
                self.pass_on(stamped);
            },
            DeferredStampResult::Cancelled => {
                self.drop_stored_message(&hash);
            },
            _ => {
                self.give_up(message, &hash);
            },
        }
    }

    /// Goes on to the next message that waits for a stamp.  The stamp that comes back is to
    /// be generated elsewhere.
    fn advance_deferred_stamps<G>(&mut self, can_start: bool, generate: G) -> (job: Option<
        DeferredStampJob,
    >) where G: FnOnce(&[u8; 32], u8) -> Option<([u8; 32], u32)>
        requires
            forall|id: &[u8; 32], cost: u8| call_requires(generate, (id, cost)),
        ensures
            is_advanced(old(self)@, final(self)@, can_start, generate, job),
    {
        if self.active_deferred_stamp.is_some() || self.pending_deferred_stamps.len() == 0 {
            return None;
        }
        let ghost m = self@;
        let hash = self.pending_deferred_stamps.key_at(0);
        let cost: u8 = match self.pending_deferred_stamps.value_at(0).stamp_cost {
            Some(c) => c,
            None => 0,
        };
        if cost > 0 && can_start {
            self.active_deferred_stamp = Some(hash);
            let job = Some(DeferredStampJob { message_hash: hash, cost });
            assert(is_taken_up(m, self@, hash, can_start, generate, None, job));
            return job;
        }
        let message = match self.pending_deferred_stamps.remove(&hash) {
            Some(m) => m,
            None => {
                return None;
            },
        };
        let ghost model = message@;
        assert(self@ == without_deferred(m, hash));
        if cost == 0 {
            let stamped = restamp(message, generate);
            let ghost found = choose|found: Option<([u8; 32], u32)>|
                #![trigger restamped(model, found)]
                (seeks_proof(model) ==> call_ensures(
                    generate,
                    (&model.message_id->0, model.stamp_cost->0),
                    found,
                )) && stamped@ == restamped(model, found);
            self.pass_on(stamped);
            assert(is_taken_up(m, self@, hash, can_start, generate, found, None));
        } else {
            let found = generate(&hash, cost);
            match found {
                Some((stamp, value)) => {
                    let stamped = attach(message, stamp, value);
                    self.pass_on(stamped);
                },
                None => {
                    self.give_up(message, &hash);
                },
            }
            assert(is_taken_up(m, self@, hash, can_start, generate, found, None));
        }
        None
    }

    /// One round of stamp generation: acts upon what is known of the stamp that is being
    /// generated, and goes on to the next message that waits for one.
    pub fn process_deferred_stamps<G>(
        &mut self,
        now: i64,
        result: DeferredStampResult,
        can_start: bool,
        generate: G,
    ) -> (job: Option<DeferredStampJob>) where
        G: FnOnce(&[u8; 32], u8) -> Option<([u8; 32], u32)>,

        requires
            forall|id: &[u8; 32], cost: u8| call_requires(generate, (id, cost)),
        ensures
            exists|a: RouterModel, b: RouterModel, c: RouterModel| #[trigger]
                is_stamp_round(
                    old(self)@,
                    a,
                    b,
                    c,
                    final(self)@,
                    now,
                    result,
                    can_start,
                    generate,
                    job,
                ),
    {
        self.hydrate_ready_outbound(now);
        let ghost a = self@;
        self.hydrate_deferred_stamp(now);
        let ghost b = self@;
        self.conclude_deferred_stamp(result);
        let ghost c = self@;
        let job = self.advance_deferred_stamps(can_start, generate);
        assert(is_stamp_round(
            old(self)@,
            a,
            b,
            c,
            self@,
            now,
            result,
            can_start,
            generate,
            job,
        ));
        job
    }
}

// ---------------------------------------------------------------------------
// What generating stamps is for.
// ---------------------------------------------------------------------------

/// Whether all that waits for a stamp still does, but for one message.
pub open spec fn only_takes_from_waiting(
    m: Map<[u8; 32], MessageModel>,
    after: Map<[u8; 32], MessageModel>,
    hash: [u8; 32],
) -> bool {
    &&& !after.contains_key(hash)
    &&& forall|k: [u8; 32]|
        #![trigger after.contains_key(k)]
        k != hash ==> (after.contains_key(k) <==> m.contains_key(k)) && after[k] == m[k]
}

/// A stamp that was generated is put on the message that it was generated for, and that message
/// then waits for delivery, and no longer for a stamp.
pub proof fn generated_stamps_go_on_their_message(
    m: RouterModel,
    after: RouterModel,
    hash: [u8; 32],
    stamp: [u8; 32],
    value: u32,
)
    requires
        is_stamp_concluded(m, after, DeferredStampResult::Success { stamp, value }),
        m.active_stamp == Some(hash),
        m.deferred.contains_key(hash),
    ensures
        after.active_stamp is None,
        only_takes_from_waiting(m.deferred, after.deferred, hash),
        after.notices == m.notices,
        ({
            let message = MessageModel {
                stamp: Some(stamp@),
                stamp_value: Some((value % 0x1_0000) as u16),
                ..m.deferred[hash]
            };
            &&& !m.storage_authoritative ==> after.storage == m.storage && after.pending
                == m.pending + seq![message]
            &&& m.storage_authoritative ==> after.pending == m.pending
            &&& m.storage_authoritative && m.reliable && stored_form(message, false) is Some ==> {
                let kept = stored_form(message, false)->0;
                after.storage.outbound.contains_key(kept.metadata.message_id)
                    && after.storage.outbound[kept.metadata.message_id] == kept
                    && !kept.metadata.deferred
            }
        }),
{
    let message = MessageModel {
        stamp: Some(stamp@),
        stamp_value: Some((value % 0x1_0000) as u16),
        ..m.deferred[hash]
    };
    assert(m.pending.push(message) =~= m.pending + seq![message]);
}

/// A message whose stamp was cancelled is dropped without a word; one whose stamp can no longer
/// be had fails, and its sender is told.  Either way it waits nowhere any more.
pub proof fn messages_without_their_stamp_are_dropped(
    m: RouterModel,
    after: RouterModel,
    hash: [u8; 32],
    result: DeferredStampResult,
)
    requires
        is_stamp_concluded(m, after, result),
        result == DeferredStampResult::Cancelled || result == DeferredStampResult::Closed,
        m.active_stamp == Some(hash),
        m.deferred.contains_key(hash),
    ensures
        after.active_stamp is None,
        only_takes_from_waiting(m.deferred, after.deferred, hash),
        after.pending == m.pending,
        !m.storage_authoritative ==> after.storage == m.storage,
        m.storage_authoritative && m.reliable ==> !after.storage.outbound.contains_key(hash),
        only_takes_out(m.storage, after.storage, hash),
        result == DeferredStampResult::Cancelled ==> after.notices == m.notices,
        result == DeferredStampResult::Closed ==> after.notices == m.notices + seq![
            NoticeModel {
                delivered: false,
                message: MessageModel { state: MessageState::Failed, ..m.deferred[hash] },
            },
        ],
{
    let failed = MessageModel { state: MessageState::Failed, ..m.deferred[hash] };
    assert(m.notices.push(NoticeModel { delivered: false, message: failed }) =~= m.notices + seq![
        NoticeModel { delivered: false, message: failed },
    ]);
}

/// While a stamp is being generated, and where none is, nothing is concluded; a stamp for a
/// message that no longer waits is let go.
pub proof fn nothing_is_concluded_early(
    m: RouterModel,
    after: RouterModel,
    result: DeferredStampResult,
)
    requires
        is_stamp_concluded(m, after, result),
    ensures
        m.active_stamp is None || result == DeferredStampResult::Pending ==> after == m,
        m.active_stamp is Some && result != DeferredStampResult::Pending && !m.deferred.contains_key(
            m.active_stamp->0,
        ) ==> after == (RouterModel { active_stamp: None, ..m }),
{
}

/// One stamp is generated at a time, for a message that waits for it and at the cost that the
/// message has; until then the message goes on waiting.  A message that costs nothing, or for
/// which a stamp was found at once, is passed on, and one for which none was found fails.
pub proof fn stamps_are_generated_one_at_a_time<
    G: FnOnce(&[u8; 32], u8) -> Option<([u8; 32], u32)>,
>(
    m: RouterModel,
    after: RouterModel,
    can_start: bool,
    generate: G,
    job: Option<DeferredStampJob>,
)
    requires
        is_advanced(m, after, can_start, generate, job),
    ensures
        m.active_stamp is Some || m.deferred.dom().len() == 0 ==> after == m && job is None,
        job matches Some(j) ==> {
            &&& can_start
            &&& m.deferred.contains_key(j.message_hash)
            &&& m.deferred[j.message_hash].stamp_cost == Some(j.cost) && j.cost > 0
            &&& after == (RouterModel { active_stamp: Some(j.message_hash), ..m })
        },
        m.active_stamp is None && m.deferred.dom().len() > 0 && job is None ==> exists|
            hash: [u8; 32],
        | #[trigger]
            m.deferred.contains_key(hash) && only_takes_from_waiting(
                m.deferred,
                after.deferred,
                hash,
            ) && after.active_stamp is None && (!m.storage_authoritative ==> after.pending.len()
                == m.pending.len() + 1 || after.notices.len() == m.notices.len() + 1) && (
            m.deferred[hash].stamp_cost is Some && m.deferred[hash].stamp_cost->0 > 0
                ==> !can_start),
{
    if m.active_stamp is None && m.deferred.dom().len() > 0 {
        let (hash, found) = choose|hash: [u8; 32], found: Option<([u8; 32], u32)>| #[trigger]
            is_taken_up(m, after, hash, can_start, generate, found, job);
        assert(m.deferred.contains_key(hash));
    }
}

/// Where stamps cannot be generated elsewhere, the message that is taken up gets the stamp that
/// was found for it at its cost, and where none was found its sender is told that it failed.
pub proof fn messages_are_stamped_in_place<
    G: FnOnce(&[u8; 32], u8) -> Option<([u8; 32], u32)>,
>(
    m: RouterModel,
    after: RouterModel,
    hash: [u8; 32],
    generate: G,
    found: Option<([u8; 32], u32)>,
    cost: u8,
)
    requires
        is_taken_up(m, after, hash, false, generate, found, None),
        m.deferred[hash].stamp_cost == Some(cost),
        cost > 0,
        !m.storage_authoritative,
    ensures
        call_ensures(generate, (&hash, cost), found),
        found matches Some((stamp, value)) ==> after.pending == m.pending + seq![
            MessageModel {
                stamp: Some(stamp@),
                stamp_value: Some((value % 0x1_0000) as u16),
                ..m.deferred[hash]
            },
        ] && after.notices == m.notices,
        found is None ==> after.pending == m.pending && after.notices == m.notices + seq![
            NoticeModel {
                delivered: false,
                message: MessageModel { state: MessageState::Failed, ..m.deferred[hash] },
            },
        ],
        only_takes_from_waiting(m.deferred, after.deferred, hash),
{
    match found {
        Some((stamp, value)) => {
            let message = MessageModel {
                stamp: Some(stamp@),
                stamp_value: Some((value % 0x1_0000) as u16),
                ..m.deferred[hash]
            };
            assert(m.pending.push(message) =~= m.pending + seq![message]);
        },
        None => {
            let failed = MessageModel { state: MessageState::Failed, ..m.deferred[hash] };
            assert(m.notices.push(NoticeModel { delivered: false, message: failed }) =~= m.notices
                + seq![NoticeModel { delivered: false, message: failed }]);
        },
    }
}

/// A message that is given its stamp anew keeps what it has: a ticket gives its stamp, a stamp
/// that is there stays, and a proof of work is taken only where one was asked for.
pub proof fn stamps_are_renewed_by_right(m: MessageModel, found: Option<([u8; 32], u32)>)
    ensures
        ({
            let r = restamped(m, found);
            let has_ticket = m.outbound_ticket is Some && m.message_id is Some;
            &&& r == (MessageModel { stamp: r.stamp, stamp_value: r.stamp_value, ..m })
            &&& has_ticket ==> r.stamp == Some(
                ticket_stamp(m.outbound_ticket->0@, m.message_id->0),
            ) && r.stamp_value == Some(COST_TICKET)
            &&& !has_ticket && m.stamp is Some ==> r.stamp == m.stamp
            &&& !has_ticket && m.stamp is None && (m.stamp_cost is None || m.message_id is None
                || found is None) ==> r.stamp is None
            &&& !has_ticket && m.stamp is None && m.stamp_cost is Some && m.message_id is Some
                ==> (found matches Some((stamp, _))
                ==> r.stamp == Some(stamp@))
        }),
{
}

/// A round of stamping takes in what is due, then what waits for its stamp, then concludes the
/// stamp that was being generated, and then begins the next, one upon the other.
pub proof fn rounds_of_stamping_go_in_order<G: FnOnce(&[u8; 32], u8) -> Option<([u8; 32], u32)>>(
    m: RouterModel,
    a: RouterModel,
    b: RouterModel,
    c: RouterModel,
    after: RouterModel,
    now: i64,
    result: DeferredStampResult,
    can_start: bool,
    generate: G,
    job: Option<DeferredStampJob>,
)
    requires
        is_stamp_round(m, a, b, c, after, now, result, can_start, generate, job),
    ensures
        is_hydrated(m, a, now),
        is_deferred_hydrated(a, b, now),
        is_stamp_concluded(b, c, result),
        is_advanced(c, after, can_start, generate, job),
        m.active_stamp is Some && result == DeferredStampResult::Pending ==> after == b && job
            is None,
{
    stored_messages_enter_the_queue_when_due(m, a, now, arbitrary());
    messages_to_be_stamped_are_taken_in_when_due(a, b, now, arbitrary());
    nothing_is_concluded_early(b, c, result);
    stamps_are_generated_one_at_a_time(c, after, can_start, generate, job);
}

/// A message that costs nothing is passed on with the stamp that it is due; work is done for it
/// only where no ticket gives it one, it has none, a cost is named and it can be identified.
pub proof fn messages_that_cost_nothing_are_passed_on<
    G: FnOnce(&[u8; 32], u8) -> Option<([u8; 32], u32)>,
>(
    m: RouterModel,
    after: RouterModel,
    hash: [u8; 32],
    can_start: bool,
    generate: G,
    found: Option<([u8; 32], u32)>,
    job: Option<DeferredStampJob>,
)
    requires
        is_taken_up(m, after, hash, can_start, generate, found, job),
        m.deferred[hash].stamp_cost is None || m.deferred[hash].stamp_cost == Some(0u8),
        !m.storage_authoritative,
    ensures
        job is None,
        after.pending == m.pending + seq![restamped(m.deferred[hash], found)],
        only_takes_from_waiting(m.deferred, after.deferred, hash),
        ({
            let message = m.deferred[hash];
            message.outbound_ticket is None && message.stamp_cost is Some && message.stamp is None
                && message.message_id is Some ==> call_ensures(
                generate,
                (&message.message_id->0, 0),
                found,
            )
        }),
        seeks_proof(m.deferred[hash]) <==> {
            let message = m.deferred[hash];
            &&& message.message_id is Some
            &&& message.outbound_ticket is None
            &&& message.stamp_cost is Some
            &&& message.stamp is None
        },
{
}

} // verus!
