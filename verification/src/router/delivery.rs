//! Delivery: passes over the outbound queue, and what becomes of the messages in it.

use vstd::prelude::*;

use crate::bytes::same;
use crate::clock::{after, before, seconds_after};
use crate::constants::{MessageState, PATH_REQUEST_WAIT};
use crate::message::{is_packable, LxMessage, MessageModel};
use crate::router::direct::{in_state, raised, DirectDeliveryPlanInput, PROGRESS_PATH_REQUESTED};
use crate::router::outbound::{
    action_models, copies, departures, informs, is_asked, is_called_for, letters_are_handed_on_or_stay,
    link_models, message_models, message_of, passed, passes_do_what_is_called_for,
    passing_respects_the_limit, planned_letters_are_handed_on_or_stay,
    planned_passes_do_what_is_called_for, sweep, sweep_with_direct, sweeping_loses_no_message,
    swept, ActionModel, OutboundAction,
};
use crate::router::queue::{
    is_hydrated, persists, queue_id, restore_outbound_message, restored_message, stored_form,
    with_notice, with_outbound, without_outbound,
};
use crate::router::records::{tries, with_storage};
use crate::router::{LxmRouter, NoticeModel, RouterModel};
use crate::storage::{
    LxmfStorage, StorageModel, StoredOutboundMetadata, StoredOutboundModel,
};

verus! {

// ---------------------------------------------------------------------------
// Passes over the queue.
// ---------------------------------------------------------------------------

/// What is told of the actions of a pass: the messages that failed.
pub open spec fn failures(actions: Seq<ActionModel>) -> Seq<NoticeModel>
    decreases actions.len(),
{
    if actions.len() == 0 {
        Seq::empty()
    } else {
        let rest = failures(actions.drop_last());
        match actions.last() {
            ActionModel::Failed(message) => rest.push(NoticeModel { delivered: false, message }),
            ActionModel::Expired(message) => rest.push(NoticeModel { delivered: false, message }),
            _ => rest,
        }
    }
}

/// The message that an action takes out of the queue.
pub open spec fn handed_on(a: ActionModel) -> Option<MessageModel> {
    match a {
        ActionModel::Failed(message) => Some(message),
        ActionModel::Expired(message) => Some(message),
        ActionModel::DeliverDirect { message, dest_hash } => Some(message),
        ActionModel::DeliverPropagated { message, prop_hash } => Some(message),
        ActionModel::DeliverOpportunistic { message, dest_hash } => Some(message),
        ActionModel::PlanDirect { message, dest_hash, plan } => None,
    }
}

/// The queue in storage with some messages put in anew.
pub open spec fn all_persisted(
    outbound: Map<[u8; 32], StoredOutboundModel>,
    messages: Seq<MessageModel>,
) -> Map<[u8; 32], StoredOutboundModel>
    decreases messages.len(),
{
    if messages.len() == 0 {
        outbound
    } else {
        let rest = all_persisted(outbound, messages.drop_last());
        match stored_form(messages.last(), false) {
            Some(o) => rest.insert(o.metadata.message_id, o),
            None => rest,
        }
    }
}

/// The queue in storage without the messages that some actions took out.
pub open spec fn all_handed_on(
    outbound: Map<[u8; 32], StoredOutboundModel>,
    actions: Seq<ActionModel>,
) -> Map<[u8; 32], StoredOutboundModel>
    decreases actions.len(),
{
    if actions.len() == 0 {
        outbound
    } else {
        let rest = all_handed_on(outbound, actions.drop_last());
        match handed_on(actions.last()) {
            Some(message) => match queue_id(message) {
                Some(id) => rest.remove(id),
                None => rest,
            },
            None => rest,
        }
    }
}

/// Whether the queue in storage was brought up to date after a pass.
pub open spec fn is_brought_up_to_date(
    m: RouterModel,
    after: RouterModel,
    actions: Seq<ActionModel>,
) -> bool {
    if !m.storage_authoritative {
        after == m
    } else {
        &&& after == with_storage(
            m,
            StorageModel { outbound: after.storage.outbound, ..m.storage },
        )
        &&& m.reliable ==> after.storage.outbound == all_handed_on(
            all_persisted(m.storage.outbound, m.pending),
            actions,
        )
    }
}

/// A router after a pass: the messages that stay, and what is told of those that failed.
pub open spec fn after_pass(
    m: RouterModel,
    left: Seq<MessageModel>,
    actions: Seq<ActionModel>,
) -> RouterModel {
    RouterModel { pending: left, notices: m.notices + failures(actions), ..m }
}

/// Whether a pass over the queue of a router gave `actions`.
pub open spec fn is_processed(
    m: RouterModel,
    after: RouterModel,
    now: i64,
    keep_direct: bool,
    actions: Seq<ActionModel>,
) -> bool {
    if !m.config.ext.processing_outbound {
        after == m && actions.len() == 0
    } else {
        exists|h: RouterModel| #[trigger]
            is_hydrated(m, h, now) && is_swept(h, after, now, keep_direct, actions)
    }
}

/// Whether a pass over a queue gave `actions`.
pub open spec fn is_swept(
    h: RouterModel,
    after: RouterModel,
    now: i64,
    keep_direct: bool,
    actions: Seq<ActionModel>,
) -> bool {
    let (taken, left) = swept(
        h.pending,
        h.config.ext.processing_limit,
        now,
        h.outbound_propagation_node,
        keep_direct,
    );
    actions == taken && is_brought_up_to_date(after_pass(h, left, actions), after, actions)
}

/// Whether a pass over a queue that plans deliveries gave `actions`, where `inputs` is what
/// was known of the links.
pub open spec fn is_planned(
    h: RouterModel,
    after: RouterModel,
    now: i64,
    inputs: Seq<DirectDeliveryPlanInput>,
    actions: Seq<ActionModel>,
) -> bool {
    let p = passed(
        h.pending,
        link_models(inputs),
        h.config.ext.processing_limit,
        now,
        h.outbound_propagation_node,
    );
    actions == p.actions && is_brought_up_to_date(after_pass(h, p.left, actions), after, actions)
}

/// Whether a pass over a queue that plans deliveries gave `actions`, where `direct_input`
/// says what is known of the links.
pub open spec fn is_informed_pass<F: Fn(&LxMessage, i64) -> DirectDeliveryPlanInput>(
    h: RouterModel,
    after: RouterModel,
    now: i64,
    direct_input: F,
    queue: Seq<LxMessage>,
    inputs: Seq<DirectDeliveryPlanInput>,
    actions: Seq<ActionModel>,
) -> bool {
    &&& message_models(queue) == h.pending
    &&& informs(
        direct_input,
        queue,
        inputs,
        h.config.ext.processing_limit,
        now,
        h.outbound_propagation_node,
    )
    &&& is_planned(h, after, now, inputs, actions)
}

impl<S: LxmfStorage> LxmRouter<S> {
    /// Brings the queue in storage up to date after a pass.
    fn sync_authoritative_outbound(&mut self, actions: &Vec<OutboundAction>)
        ensures
            is_brought_up_to_date(old(self)@, final(self)@, action_models(actions@)),
    {
        if !self.storage_authoritative {
            return;
        }
        self.persist_pending();
        let ghost m = self@;
        let ghost all = action_models(actions@);
        let mut i: usize = 0;
        assert(all.take(0) =~= Seq::<ActionModel>::empty());
        while i < actions.len()
            invariant
                i <= actions@.len(),
                all == action_models(actions@),
                self@ == with_storage(
                    m,
                    StorageModel { outbound: self@.storage.outbound, ..m.storage },
                ),
                m.reliable ==> self@.storage.outbound == all_handed_on(
                    m.storage.outbound,
                    all.take(i as int),
                ),
            decreases actions@.len() - i,
        {
            proof {
                assert(all.take(i + 1).drop_last() =~= all.take(i as int));
                assert(all.take(i + 1).last() == actions@[i as int]@);
            }
            let message: Option<&LxMessage> = match &actions[i] {
                OutboundAction::Failed(m) => Some(m),
                OutboundAction::Expired(m) => Some(m),
                OutboundAction::DeliverDirect { message, .. } => Some(message),
                OutboundAction::DeliverPropagated { message, .. } => Some(message),
                OutboundAction::DeliverOpportunistic { message, .. } => Some(message),
                OutboundAction::PlanDirect { .. } => None,
            };
            match message {
                Some(gone) => {
                    let id = match gone.message_id {
                        Some(id) => Some(id),
                        None => gone.hash,
                    };
                    match id {
                        Some(key) => {
                            let _ = self.storage.remove_outbound_message(&key);
                        },
                        None => {},
                    }
                },
                None => {},
            }
            i = i + 1;
        }
        assert(all.take(i as int) =~= all);
    }

    /// Puts the messages of the queue in storage anew.
    fn persist_pending(&mut self)
        ensures
            final(self)@ == with_storage(
                old(self)@,
                StorageModel { outbound: final(self)@.storage.outbound, ..old(self)@.storage },
            ),
            old(self)@.reliable ==> final(self)@.storage.outbound == all_persisted(
                old(self)@.storage.outbound,
                old(self)@.pending,
            ),
    {
        let ghost m = self@;
        let ghost all = m.pending;
        let mut i: usize = 0;
        assert(all.take(0) =~= Seq::<MessageModel>::empty());
        while i < self.pending_outbound.len()
            invariant
                i <= self.pending_outbound@.len(),
                m == old(self)@,
                all == m.pending,
                all.len() == self.pending_outbound@.len(),
                self@ == with_storage(
                    m,
                    StorageModel { outbound: self@.storage.outbound, ..m.storage },
                ),
                m.reliable ==> self@.storage.outbound == all_persisted(
                    m.storage.outbound,
                    all.take(i as int),
                ),
            decreases self.pending_outbound@.len() - i,
        {
            let ghost before = self@;
            let ghost count = self.pending_outbound@.len();
            proof {
                assert(all.take(i + 1).drop_last() =~= all.take(i as int));
                assert(self@.pending == all);
                assert(message_models(self.pending_outbound@)[i as int]
                    == self.pending_outbound@[i as int]@);
            }
            let message = self.pending_outbound[i].copy();
            let _ = self.persist_outbound_message(&message, false);
            proof {
                assert(self@.pending == all);
                assert(message_models(self.pending_outbound@).len()
                    == self.pending_outbound@.len());
            }
            i = i + 1;
        }
        assert(all.take(i as int) =~= all);
    }

    /// Tells the senders of the messages that failed.
    fn tell_failures(&mut self, actions: &Vec<OutboundAction>)
        ensures
            final(self)@ == (RouterModel {
                notices: old(self)@.notices + failures(action_models(actions@)),
                ..old(self)@
            }),
    {
        let ghost m = self@;
        let ghost all = action_models(actions@);
        let mut i: usize = 0;
        proof {
            assert(all.take(0) =~= Seq::<ActionModel>::empty());
            assert(m.notices + failures(all.take(0)) =~= m.notices);
        }
        while i < actions.len()
            invariant
                i <= actions@.len(),
                all == action_models(actions@),
                self@ == (RouterModel {
                    notices: m.notices + failures(all.take(i as int)),
                    ..m
                }),
            decreases actions@.len() - i,
        {
            let ghost so_far = failures(all.take(i as int));
            proof {
                assert(all.take(i + 1).drop_last() =~= all.take(i as int));
                assert(all.take(i + 1).last() == actions@[i as int]@);
            }
            match &actions[i] {
                OutboundAction::Failed(message) | OutboundAction::Expired(message) => {
                    let told = message.copy();
                    self.tell(false, told);
                    assert((m.notices + so_far).push(
                        NoticeModel { delivered: false, message: message@ },
                    ) =~= m.notices + so_far.push(
                        NoticeModel { delivered: false, message: message@ },
                    ));
                },
                _ => {},
            }
            i = i + 1;
        }
        assert(all.take(i as int) =~= all);
    }

    /// Finishes a pass.
    fn finish_pass(&mut self, actions: &Vec<OutboundAction>, left: Vec<LxMessage>)
        ensures
            is_brought_up_to_date(
                after_pass(old(self)@, message_models(left@), action_models(actions@)),
                final(self)@,
                action_models(actions@),
            ),
    {
        self.pending_outbound = left;
        self.tell_failures(actions);
        self.sync_authoritative_outbound(actions);
    }

    /// Takes the messages that are due out of the queue and says what is to be done with
    /// them.  Messages that are delivered over a link stay where `keep_direct` says so.
    fn process_outbound_inner(&mut self, now: i64, keep_direct: bool) -> (actions: Vec<
        OutboundAction,
    >)
        ensures
            is_processed(
                old(self)@,
                final(self)@,
                now,
                keep_direct,
                action_models(actions@),
            ),
    {
        if !self.config.ext.processing_outbound {
            return Vec::new();
        }
        self.hydrate_ready_outbound(now);
        let ghost h = self@;
        let mut queue: Vec<LxMessage> = Vec::new();
        std::mem::swap(&mut queue, &mut self.pending_outbound);
        let (actions, left) = sweep(
            queue,
            self.config.ext.processing_limit,
            now,
            self.outbound_propagation_node,
            keep_direct,
        );
        let ghost emptied = self@;
        self.finish_pass(&actions, left);
        proof {
            let a = action_models(actions@);
            assert(after_pass(emptied, message_models(left@), a) == after_pass(
                h,
                message_models(left@),
                a,
            ));
            assert(is_swept(h, self@, now, keep_direct, a));
        }
        actions
    }

    /// Takes the messages that are due out of the queue and says what is to be done with
    /// them.
    pub fn process_outbound(&mut self, now: i64) -> (actions: Vec<OutboundAction>)
        ensures
            is_processed(old(self)@, final(self)@, now, false, action_models(actions@)),
    {
        self.process_outbound_inner(now, false)
    }

    /// Takes the messages that are due and that are not delivered over a link out of the
    /// queue.
    pub fn process_outbound_without_direct(&mut self, now: i64) -> (actions: Vec<OutboundAction>)
        ensures
            is_processed(old(self)@, final(self)@, now, true, action_models(actions@)),
    {
        self.process_outbound_inner(now, true)
    }

    /// Takes the messages that are due out of the queue, and plans the deliveries over
    /// links, which stay in it.  What is known of a link, `direct_input` says.
    pub fn process_outbound_with_direct<F>(&mut self, now: i64, direct_input: &F) -> (actions: Vec<
        OutboundAction,
    >) where F: Fn(&LxMessage, i64) -> DirectDeliveryPlanInput
        requires
            forall|m: &LxMessage, at: i64| call_requires(*direct_input, (m, at)),
        ensures
            !old(self)@.config.ext.processing_outbound ==> final(self)@ == old(self)@
                && actions@.len() == 0,
            old(self)@.config.ext.processing_outbound ==> exists|
                h: RouterModel,
                queue: Seq<LxMessage>,
                inputs: Seq<DirectDeliveryPlanInput>,
            |
                is_hydrated(old(self)@, h, now) && (!old(self)@.storage_authoritative ==> queue
                    == old(self).pending_outbound@) && #[trigger] is_informed_pass(
                    h,
                    final(self)@,
                    now,
                    *direct_input,
                    queue,
                    inputs,
                    action_models(actions@),
                ),
    {
        if !self.config.ext.processing_outbound {
            return Vec::new();
        }
        self.hydrate_ready_outbound(now);
        let ghost h = self@;
        let ghost waiting = self.pending_outbound@;
        let mut queue: Vec<LxMessage> = Vec::new();
        std::mem::swap(&mut queue, &mut self.pending_outbound);
        let (actions, left) = sweep_with_direct(
            queue,
            self.config.ext.processing_limit,
            now,
            self.outbound_propagation_node,
            direct_input,
        );
        let ghost emptied = self@;
        self.finish_pass(&actions, left);
        proof {
            let a = action_models(actions@);
            let inputs = choose|inputs: Seq<DirectDeliveryPlanInput>| #[trigger]
                informs(
                    *direct_input,
                    waiting,
                    inputs,
                    h.config.ext.processing_limit,
                    now,
                    h.outbound_propagation_node,
                ) && a == passed(
                    h.pending,
                    link_models(inputs),
                    h.config.ext.processing_limit,
                    now,
                    h.outbound_propagation_node,
                ).actions && message_models(left@) == passed(
                    h.pending,
                    link_models(inputs),
                    h.config.ext.processing_limit,
                    now,
                    h.outbound_propagation_node,
                ).left;
            assert(after_pass(emptied, message_models(left@), a) == after_pass(
                h,
                message_models(left@),
                a,
            ));
            assert(is_informed_pass(h, self@, now, *direct_input, waiting, inputs, a));
        }
        actions
    }
}

// ---------------------------------------------------------------------------
// What becomes of a message.
// ---------------------------------------------------------------------------

/// The place of the first message with a hash.
pub open spec fn place_of(pending: Seq<MessageModel>, hash: [u8; 32]) -> Option<int>
    decreases pending.len(),
{
    if pending.len() == 0 {
        None
    } else {
        match place_of(pending.drop_last(), hash) {
            Some(i) => Some(i),
            None => if pending.last().hash == Some(hash) {
                Some(pending.len() - 1)
            } else {
                None
            },
        }
    }
}

proof fn lemma_place_of(pending: Seq<MessageModel>, hash: [u8; 32], n: int)
    requires
        0 <= n <= pending.len(),
        forall|j: int| 0 <= j < n ==> (#[trigger] pending[j]).hash != Some(hash),
        n < pending.len() ==> pending[n].hash == Some(hash),
    ensures
        place_of(pending, hash) == (if n < pending.len() {
            Some(n)
        } else {
            None
        }),
    decreases pending.len(),
{
    if pending.len() > 0 {
        let rest = pending.drop_last();
        if n == pending.len() {
            assert(pending[pending.len() - 1].hash != Some(hash));
            lemma_place_of(rest, hash, n - 1);
        } else {
            lemma_place_of(rest, hash, n);
        }
    }
}

/// A router without the message at a place of its queue.
pub open spec fn without_pending(m: RouterModel, i: int) -> RouterModel {
    RouterModel { pending: m.pending.remove(i), ..m }
}

/// Whether a message was taken out of storage, where the queue is kept there.
pub open spec fn is_dropped(m: RouterModel, after: RouterModel, hash: [u8; 32]) -> bool {
    if m.storage_authoritative {
        tries(m, after, without_outbound(m.storage, hash))
    } else {
        after == m
    }
}

/// A router that told the sender of a message what became of it, where that is told.
pub open spec fn told(
    m: RouterModel,
    tells: Option<bool>,
    message: MessageModel,
) -> RouterModel {
    match tells {
        Some(delivered) => with_notice(m, delivered, message),
        None => m,
    }
}

/// Whether a message that is in storage alone was taken out of it: `b` says whether it was.
pub open spec fn is_concluded_in_storage(
    m: RouterModel,
    after: RouterModel,
    hash: [u8; 32],
    state: MessageState,
    tells: Option<bool>,
    b: bool,
) -> bool {
    let found = m.storage_authoritative && m.storage.outbound.contains_key(hash)
        && restored_message(m.storage.outbound[hash]) is Some;
    let message = restored_message(m.storage.outbound[hash])->0;
    let t = told(m, tells, in_state(message, state));
    let gone = with_storage(t, without_outbound(m.storage, hash));
    if found {
        if m.reliable {
            b && after == gone
        } else {
            b && after == gone || !b && (after == m || after == t)
        }
    } else {
        !b && after == m
    }
}

/// Whether a message in the queue, or in storage, was taken out with a final state: `b` says
/// whether there was one.
pub open spec fn is_concluded(
    m: RouterModel,
    after: RouterModel,
    hash: [u8; 32],
    state: MessageState,
    tells: Option<bool>,
    b: bool,
) -> bool {
    match place_of(m.pending, hash) {
        Some(i) => b && is_dropped(
            told(without_pending(m, i), tells, in_state(m.pending[i], state)),
            after,
            hash,
        ),
        None => is_concluded_in_storage(m, after, hash, state, tells, b),
    }
}

impl<S: LxmfStorage> LxmRouter<S> {
    /// The place of the first message with a hash.
    pub(crate) fn find_pending(&self, hash: &[u8; 32]) -> (r: Option<usize>)
        ensures
            match r {
                Some(i) => place_of(self@.pending, *hash) == Some(i as int) && i
                    < self.pending_outbound@.len(),
                None => place_of(self@.pending, *hash) is None,
            },
    {
        let mut i: usize = 0;
        while i < self.pending_outbound.len()
            invariant
                i <= self.pending_outbound@.len(),
                forall|j: int| 0 <= j < i ==> (#[trigger] self@.pending[j]).hash != Some(*hash),
            decreases self.pending_outbound@.len() - i,
        {
            let found = match self.pending_outbound[i].hash {
                Some(h) => same(&h, hash),
                None => false,
            };
            assert(self@.pending[i as int] == self.pending_outbound@[i as int]@);
            if found {
                proof {
                    lemma_place_of(self@.pending, *hash, i as int);
                }
                return Some(i);
            }
            i = i + 1;
        }
        proof {
            lemma_place_of(self@.pending, *hash, i as int);
        }
        None
    }

    /// Takes the message at a place out of the queue.
    fn take_pending(&mut self, i: usize) -> (message: LxMessage)
        requires
            i < old(self).pending_outbound@.len(),
        ensures
            message@ == old(self)@.pending[i as int],
            final(self)@ == without_pending(old(self)@, i as int),
    {
        let ghost queue = self.pending_outbound@;
        let message = self.pending_outbound.remove(i);
        assert(message_models(self.pending_outbound@) =~= message_models(queue).remove(i as int));
        message
    }

    /// Takes a message out of storage, where the queue is kept there.
    pub(crate) fn drop_stored_message(&mut self, hash: &[u8; 32])
        ensures
            is_dropped(old(self)@, final(self)@, *hash),
    {
        if self.storage_authoritative {
            let _ = self.storage.remove_outbound_message(hash);
        }
    }

    /// Takes a message that is in storage alone out of it.
    fn conclude_stored(
        &mut self,
        hash: &[u8; 32],
        state: MessageState,
        tells: Option<bool>,
    ) -> (b: bool)
        ensures
            is_concluded_in_storage(old(self)@, final(self)@, *hash, state, tells, b),
    {
        if !self.storage_authoritative {
            return false;
        }
        let mut message = match self.stored_outbound(hash) {
            Some(m) => m,
            None => {
                return false;
            },
        };
        match tells {
            Some(delivered) => {
                message.state = state;
                self.tell(delivered, message);
            },
            None => {},
        }
        match self.storage.remove_outbound_message(hash) {
            Ok(b) => b,
            Err(_) => false,
        }
    }

    /// A queued message in storage.
    fn stored_outbound(&self, hash: &[u8; 32]) -> (r: Option<LxMessage>)
        ensures
            r matches Some(m) ==> self@.storage.outbound.contains_key(*hash) && restored_message(
                self@.storage.outbound[*hash],
            ) == Some(m@),
            self@.reliable && r is None ==> !self@.storage.outbound.contains_key(*hash)
                || restored_message(self@.storage.outbound[*hash]) is None,
    {
        match self.storage.outbound_message(hash) {
            Ok(Some(stored)) => restore_outbound_message(&stored),
            _ => None,
        }
    }

    /// Takes a message out of the queue with a final state.
    fn conclude(&mut self, hash: &[u8; 32], state: MessageState, tells: Option<bool>) -> (b: bool)
        ensures
            is_concluded(old(self)@, final(self)@, *hash, state, tells, b),
    {
        match self.find_pending(hash) {
            Some(i) => {
                let mut message = self.take_pending(i);
                match tells {
                    Some(delivered) => {
                        message.state = state;
                        self.tell(delivered, message);
                    },
                    None => {},
                }
                self.drop_stored_message(hash);
                true
            },
            None => self.conclude_stored(hash, state, tells),
        }
    }

    /// Takes a message that was delivered out of the queue and tells its sender.
    pub fn mark_outbound_delivered(&mut self, message_hash: &[u8; 32]) -> (b: bool)
        ensures
            is_concluded(
                old(self)@,
                final(self)@,
                *message_hash,
                MessageState::Delivered,
                Some(true),
                b,
            ),
    {
        self.conclude(message_hash, MessageState::Delivered, Some(true))
    }

    /// Takes a message that failed out of the queue and tells its sender.
    pub fn mark_outbound_failed(&mut self, message_hash: &[u8; 32]) -> (b: bool)
        ensures
            is_concluded(
                old(self)@,
                final(self)@,
                *message_hash,
                MessageState::Failed,
                Some(false),
                b,
            ),
    {
        self.conclude(message_hash, MessageState::Failed, Some(false))
    }

    /// Takes a message that was rejected out of the queue.
    pub fn mark_outbound_rejected(&mut self, message_hash: &[u8; 32]) -> (b: bool)
        ensures
            is_concluded(
                old(self)@,
                final(self)@,
                *message_hash,
                MessageState::Rejected,
                None,
                b,
            ),
    {
        self.conclude(message_hash, MessageState::Rejected, None)
    }

    /// Takes a message out before it is sent: out of the queue, or from among those that
    /// wait for a stamp, whose generation is then given up.  A message that is no longer
    /// under way stays.
    pub fn cancel_outbound(&mut self, message_hash: &[u8; 32]) -> (b: bool)
        ensures
            is_cancelled(old(self)@, final(self)@, *message_hash, b),
    {
        match self.find_pending(message_hash) {
            Some(i) => {
                assert(self@.pending[i as int] == self.pending_outbound@[i as int]@);
                if !under_way(self.pending_outbound[i].state) {
                    return false;
                }
                let _ = self.take_pending(i);
                self.drop_stored_message(message_hash);
                return true;
            },
            None => {},
        }
        match self.pending_deferred_stamps.get(message_hash) {
            Some(waiting) => {
                if !under_way(waiting.state) {
                    return false;
                }
                let _ = self.pending_deferred_stamps.remove(message_hash);
                let running = match self.active_deferred_stamp {
                    Some(id) => same(&id, message_hash),
                    None => false,
                };
                if running {
                    self.active_deferred_stamp = None;
                }
                self.drop_stored_message(message_hash);
                return true;
            },
            None => {},
        }
        if !self.storage_authoritative {
            return false;
        }
        match self.stored_outbound(message_hash) {
            Some(stored) => if under_way(stored.state) {
                match self.storage.remove_outbound_message(message_hash) {
                    Ok(b) => b,
                    Err(_) => false,
                }
            } else {
                false
            },
            None => false,
        }
    }

    /// Puts a message off until a path may have been found.
    pub fn defer_outbound_for_path_request(&mut self, message_hash: &[u8; 32], now: i64) -> (b:
        bool)
        ensures
            is_put_off(old(self)@, final(self)@, *message_hash, now, b),
    {
        match self.find_pending(message_hash) {
            Some(i) => {
                let ghost queue = self.pending_outbound@;
                let mut message = self.pending_outbound[i].copy();
                message.next_delivery_attempt = seconds_after(now, PATH_REQUEST_WAIT);
                if message.progress < PROGRESS_PATH_REQUESTED {
                    message.progress = PROGRESS_PATH_REQUESTED;
                }
                let kept = message.copy();
                self.pending_outbound.set(i, kept);
                proof {
                    assert(message_models(self.pending_outbound@) =~= message_models(queue).update(
                        i as int,
                        message@,
                    ));
                    assert(message@ == put_off(message_models(queue)[i as int], now));
                }
                let ghost mid = self@;
                if self.storage_authoritative {
                    let stays = self.persist_outbound_message(&message, false);
                    assert(persists(mid, self@, message@, false, stays));
                }
                true
            },
            None => {
                if !self.storage_authoritative {
                    return false;
                }
                match self.storage.outbound_message(message_hash) {
                    Ok(Some(stored)) => {
                        let mut metadata = stored.metadata;
                        metadata.next_delivery_attempt = seconds_after(now, PATH_REQUEST_WAIT);
                        if metadata.progress < PROGRESS_PATH_REQUESTED {
                            metadata.progress = PROGRESS_PATH_REQUESTED;
                        }
                        match self.storage.update_outbound_delivery(&metadata) {
                            Ok(b) => b,
                            Err(_) => false,
                        }
                    },
                    _ => false,
                }
            },
        }
    }
}

/// Whether a message can still be cancelled.
pub open spec fn is_cancellable(state: MessageState) -> bool {
    state == MessageState::Outbound || state == MessageState::Sending
}

/// Whether a message can still be cancelled.
fn under_way(state: MessageState) -> (b: bool)
    ensures
        b == is_cancellable(state),
{
    state == MessageState::Outbound || state == MessageState::Sending
}

/// Whether a message that is in storage alone was cancelled: `b` says whether it was.
pub open spec fn is_cancelled_in_storage(
    m: RouterModel,
    after: RouterModel,
    hash: [u8; 32],
    b: bool,
) -> bool {
    let found = m.storage_authoritative && m.storage.outbound.contains_key(hash)
        && restored_message(m.storage.outbound[hash]) is Some && is_cancellable(
        restored_message(m.storage.outbound[hash])->0.state,
    );
    if found {
        b && after == with_storage(m, without_outbound(m.storage, hash)) || (!m.reliable && !b
            && after == m)
    } else {
        !b && after == m
    }
}

/// Whether a message was cancelled: `b` says whether there was one that could be.
pub open spec fn is_cancelled(
    m: RouterModel,
    after: RouterModel,
    hash: [u8; 32],
    b: bool,
) -> bool {
    match place_of(m.pending, hash) {
        Some(i) => if is_cancellable(m.pending[i].state) {
            b && is_dropped(without_pending(m, i), after, hash)
        } else {
            !b && after == m
        },
        None => if m.deferred.contains_key(hash) {
            if is_cancellable(m.deferred[hash].state) {
                b && is_dropped(
                    RouterModel {
                        deferred: m.deferred.remove(hash),
                        active_stamp: if m.active_stamp == Some(hash) {
                            None
                        } else {
                            m.active_stamp
                        },
                        ..m
                    },
                    after,
                    hash,
                )
            } else {
                !b && after == m
            }
        } else {
            is_cancelled_in_storage(m, after, hash, b)
        },
    }
}

/// Only a message that is under way is cancelled; any other stays where it is.
pub proof fn only_messages_under_way_are_cancelled(
    m: RouterModel,
    after: RouterModel,
    hash: [u8; 32],
    b: bool,
)
    requires
        is_cancelled(m, after, hash, b),
    ensures
        !b ==> after == m,
        place_of(m.pending, hash) matches Some(i) ==> (b <==> is_cancellable(m.pending[i].state)),
        place_of(m.pending, hash) is None && m.deferred.contains_key(hash) ==> (b
            <==> is_cancellable(m.deferred[hash].state)),
        place_of(m.pending, hash) is None && !m.deferred.contains_key(hash)
            && !m.storage_authoritative ==> !b,
{
}

/// A message that is put off until a path may have been found.
pub open spec fn put_off(m: MessageModel, now: i64) -> MessageModel {
    MessageModel {
        next_delivery_attempt: after(now, PATH_REQUEST_WAIT),
        progress: raised(m.progress, PROGRESS_PATH_REQUESTED),
        ..m
    }
}

/// The schedule of a message that is put off.
pub open spec fn schedule_put_off(m: StoredOutboundMetadata, now: i64) -> StoredOutboundMetadata {
    StoredOutboundMetadata {
        next_delivery_attempt: after(now, PATH_REQUEST_WAIT),
        progress: raised(m.progress, PROGRESS_PATH_REQUESTED),
        ..m
    }
}

/// Whether a message was put off: `b` says whether there was one.
pub open spec fn is_put_off(
    m: RouterModel,
    after: RouterModel,
    hash: [u8; 32],
    now: i64,
    b: bool,
) -> bool {
    match place_of(m.pending, hash) {
        Some(i) => {
            let message = put_off(m.pending[i], now);
            let next = RouterModel { pending: m.pending.update(i, message), ..m };
            b && if m.storage_authoritative {
                exists|kept: bool| #[trigger] persists(next, after, message, false, kept)
            } else {
                after == next
            }
        },
        None => if m.storage_authoritative && m.storage.outbound.contains_key(hash) {
            let o = m.storage.outbound[hash];
            let metadata = schedule_put_off(o.metadata, now);
            let held = m.storage.outbound.contains_key(metadata.message_id);
            let next = with_storage(
                m,
                with_outbound(
                    m.storage,
                    StoredOutboundModel {
                        metadata,
                        encoded_message: m.storage.outbound[metadata.message_id].encoded_message,
                    },
                ),
            );
            if held {
                b && after == next || !m.reliable && !b && after == m
            } else {
                !b && after == m
            }
        } else {
            !b && after == m
        },
    }
}

// ---------------------------------------------------------------------------
// What becomes of queue and storage.
// ---------------------------------------------------------------------------

/// Whether a queue holds a message with a hash.
pub open spec fn is_waiting(pending: Seq<MessageModel>, hash: [u8; 32]) -> bool {
    exists|i: int| 0 <= i < pending.len() && (#[trigger] pending[i]).hash == Some(hash)
}

/// The place of a message is the first that has its hash.
pub proof fn the_first_with_a_hash_is_found(pending: Seq<MessageModel>, hash: [u8; 32])
    ensures
        place_of(pending, hash) is Some <==> is_waiting(pending, hash),
        place_of(pending, hash) matches Some(i) ==> 0 <= i < pending.len() && pending[i].hash
            == Some(hash) && forall|j: int| 0 <= j < i ==> (#[trigger] pending[j]).hash != Some(
            hash,
        ),
    decreases pending.len(),
{
    if pending.len() > 0 {
        let rest = pending.drop_last();
        the_first_with_a_hash_is_found(rest, hash);
        if is_waiting(rest, hash) {
            let i = choose|i: int| 0 <= i < rest.len() && (#[trigger] rest[i]).hash == Some(hash);
            assert(pending[i].hash == Some(hash));
        }
        if is_waiting(pending, hash) && !is_waiting(rest, hash) {
            let i = choose|i: int|
                0 <= i < pending.len() && (#[trigger] pending[i]).hash == Some(hash);
            if i < rest.len() {
                assert(rest[i].hash == Some(hash));
            }
        }
        match place_of(rest, hash) {
            Some(i) => {
                assert(pending[i] == rest[i]);
                assert forall|j: int| 0 <= j < i implies (#[trigger] pending[j]).hash != Some(
                    hash,
                ) by {
                    assert(pending[j] == rest[j]);
                }
            },
            None => {
                assert forall|j: int| 0 <= j < rest.len() implies (#[trigger] pending[j]).hash
                    != Some(hash) by {
                    assert(rest[j].hash != Some(hash));
                }
            },
        }
    }
}

/// Whether one entry at most was taken out of the queue in storage, and nothing else of
/// storage changed.
pub open spec fn only_takes_out(m: StorageModel, after: StorageModel, hash: [u8; 32]) -> bool {
    &&& after == (StorageModel { outbound: after.outbound, ..m })
    &&& forall|k: [u8; 32]|
        #![trigger after.outbound.contains_key(k)]
        #![trigger after.outbound[k]]
        k != hash ==> (after.outbound.contains_key(k) <==> m.outbound.contains_key(k))
            && after.outbound[k] == m.outbound[k]
}

/// Whether a queue lost the first message with a hash, and nothing else.
pub open spec fn loses_the_first(
    pending: Seq<MessageModel>,
    after: Seq<MessageModel>,
    hash: [u8; 32],
) -> bool {
    exists|i: int|
        {
            &&& 0 <= i < pending.len()
            &&& (#[trigger] pending[i]).hash == Some(hash)
            &&& forall|j: int| 0 <= j < i ==> (#[trigger] pending[j]).hash != Some(hash)
            &&& after == pending.take(i) + pending.skip(i + 1)
        }
}

/// A message that came to its end leaves the queue, where it waited there, and there was one
/// exactly where one waited or was kept in storage.
pub proof fn concluded_messages_leave_the_queue(
    m: RouterModel,
    after: RouterModel,
    hash: [u8; 32],
    state: MessageState,
    tells: Option<bool>,
    b: bool,
)
    requires
        is_concluded(m, after, hash, state, tells, b),
    ensures
        is_waiting(m.pending, hash) ==> b && loses_the_first(m.pending, after.pending, hash),
        !is_waiting(m.pending, hash) ==> after.pending == m.pending,
        m.reliable && !is_waiting(m.pending, hash) ==> (b <==> m.storage_authoritative
            && m.storage.outbound.contains_key(hash) && restored_message(m.storage.outbound[hash])
            is Some),
        m.reliable && !b ==> after == m,
{
    the_first_with_a_hash_is_found(m.pending, hash);
    match place_of(m.pending, hash) {
        Some(i) => {
            assert(m.pending.remove(i) =~= m.pending.take(i) + m.pending.skip(i + 1));
            assert(m.pending[i].hash == Some(hash));
            assert(after.pending == m.pending.remove(i));
            assert(loses_the_first(m.pending, after.pending, hash));
        },
        None => {},
    }
}

/// A message that came to its end is gone from storage, where the queue is kept there, so that
/// no later pass and no restart finds it.  Nothing else is touched.
pub proof fn concluded_messages_are_gone(
    m: RouterModel,
    after: RouterModel,
    hash: [u8; 32],
    state: MessageState,
    tells: Option<bool>,
    b: bool,
)
    requires
        is_concluded(m, after, hash, state, tells, b),
    ensures
        b && m.storage_authoritative && m.reliable ==> !after.storage.outbound.contains_key(hash),
        only_takes_out(m.storage, after.storage, hash),
        !m.storage_authoritative ==> after.storage == m.storage,
        after == (RouterModel {
            storage: after.storage,
            pending: after.pending,
            notices: after.notices,
            ..m
        }),
{
}

/// The sender of a message that came to its end is told once, where something is told: whether
/// it was delivered, and the message in its final state.
pub proof fn senders_are_told_once(
    m: RouterModel,
    after: RouterModel,
    hash: [u8; 32],
    state: MessageState,
    tells: Option<bool>,
    b: bool,
)
    requires
        is_concluded(m, after, hash, state, tells, b),
        b,
    ensures
        tells is None ==> after.notices == m.notices,
        tells matches Some(delivered) ==> {
            let last = after.notices[m.notices.len() as int];
            &&& after.notices.len() == m.notices.len() + 1
            &&& after.notices.take(m.notices.len() as int) == m.notices
            &&& last.delivered == delivered
            &&& last.message.state == state
            &&& is_waiting(m.pending, hash) ==> last.message.hash == Some(hash) && exists|i: int|
                0 <= i < m.pending.len() && last.message == (MessageModel {
                    state,
                    ..#[trigger] m.pending[i]
                })
            &&& !is_waiting(m.pending, hash) ==> Some(last.message) == (match restored_message(
                m.storage.outbound[hash],
            ) {
                Some(kept) => Some(MessageModel { state, ..kept }),
                None => None,
            })
        },
{
    the_first_with_a_hash_is_found(m.pending, hash);
    if tells is Some {
        assert(after.notices.take(m.notices.len() as int) =~= m.notices);
        match place_of(m.pending, hash) {
            Some(i) => {
                assert(after.notices.last().message == (MessageModel { state, ..m.pending[i] }));
            },
            None => {},
        }
    }
}

/// A cancelled message is gone from wherever it was: the queue, those that wait for a stamp,
/// and storage; the generation of its stamp is given up, and no other message is touched.
pub proof fn cancelled_messages_are_gone(
    m: RouterModel,
    after: RouterModel,
    hash: [u8; 32],
    b: bool,
)
    requires
        is_cancelled(m, after, hash, b),
    ensures
        b && m.storage_authoritative && m.reliable ==> !after.storage.outbound.contains_key(hash),
        only_takes_out(m.storage, after.storage, hash),
        !m.storage_authoritative ==> after.storage == m.storage,
        b && is_waiting(m.pending, hash) ==> loses_the_first(m.pending, after.pending, hash)
            && after.deferred == m.deferred && after.active_stamp == m.active_stamp,
        !is_waiting(m.pending, hash) ==> after.pending == m.pending,
        b && !is_waiting(m.pending, hash) ==> !after.deferred.contains_key(hash) && (
        m.deferred.contains_key(hash) ==> after.active_stamp != Some(hash)),
        m.active_stamp != Some(hash) ==> after.active_stamp == m.active_stamp,
        forall|k: [u8; 32]|
            #![trigger after.deferred.contains_key(k)]
            k != hash ==> (after.deferred.contains_key(k) <==> m.deferred.contains_key(k))
                && after.deferred[k] == m.deferred[k],
        after.notices == m.notices,
        m.reliable && m.storage_authoritative && !is_waiting(m.pending, hash)
            && !m.deferred.contains_key(hash) && m.storage.outbound.contains_key(hash) ==> (b <==> (
        restored_message(m.storage.outbound[hash]) matches Some(kept) && (kept.state
            == MessageState::Outbound || kept.state == MessageState::Sending))),
        place_of(m.pending, hash) matches Some(i) ==> (b <==> m.pending[i].state
            == MessageState::Outbound || m.pending[i].state == MessageState::Sending),
        !is_waiting(m.pending, hash) && m.deferred.contains_key(hash) ==> (b
            <==> m.deferred[hash].state == MessageState::Outbound || m.deferred[hash].state
            == MessageState::Sending),
        after == (RouterModel {
            storage: after.storage,
            pending: after.pending,
            deferred: after.deferred,
            active_stamp: after.active_stamp,
            ..m
        }),
{
    the_first_with_a_hash_is_found(m.pending, hash);
    match place_of(m.pending, hash) {
        Some(i) => {
            assert(m.pending.remove(i) =~= m.pending.take(i) + m.pending.skip(i + 1));
            assert(m.pending[i].hash == Some(hash));
        },
        None => {},
    }
}

/// A message that is put off is due again once a path may have been found, in the queue or, for
/// one that is in storage alone, in storage; nothing else of it changes, and no other message.
pub proof fn put_off_messages_wait_for_a_path(
    m: RouterModel,
    after: RouterModel,
    hash: [u8; 32],
    now: i64,
    b: bool,
)
    requires
        is_put_off(m, after, hash, now, b),
        now + PATH_REQUEST_WAIT * 1_000_000 <= i64::MAX,
    ensures
        is_waiting(m.pending, hash) ==> b && after.pending.len() == m.pending.len() && exists|
            i: int,
        |
            {
                &&& 0 <= i < m.pending.len()
                &&& (#[trigger] m.pending[i]).hash == Some(hash)
                &&& after.pending[i].next_delivery_attempt == now + PATH_REQUEST_WAIT * 1_000_000
                &&& after.pending[i].progress >= 10_000
                &&& after.pending[i] == (MessageModel {
                    next_delivery_attempt: after.pending[i].next_delivery_attempt,
                    progress: if m.pending[i].progress < 10_000 {
                        10_000
                    } else {
                        m.pending[i].progress
                    },
                    ..m.pending[i]
                })
                &&& forall|j: int|
                    0 <= j < m.pending.len() && j != i ==> #[trigger] after.pending[j]
                        == m.pending[j]
            },
        !is_waiting(m.pending, hash) ==> after.pending == m.pending,
        m.reliable && b && !is_waiting(m.pending, hash) && m.storage.outbound[hash].metadata.message_id
            == hash ==> {
            let o = m.storage.outbound[hash];
            let p = after.storage.outbound[hash];
            &&& after.storage.outbound.contains_key(hash)
            &&& p.metadata.next_delivery_attempt == now + PATH_REQUEST_WAIT * 1_000_000
            &&& p.encoded_message == o.encoded_message
            &&& p.metadata.progress >= 10_000 && p.metadata.progress >= o.metadata.progress
            &&& p.metadata == (StoredOutboundMetadata {
                next_delivery_attempt: p.metadata.next_delivery_attempt,
                progress: p.metadata.progress,
                ..o.metadata
            })
            &&& only_takes_out(m.storage, after.storage, hash)
        },
        !b ==> after == m,
        !m.storage_authoritative ==> after.storage == m.storage,
        after == (RouterModel { storage: after.storage, pending: after.pending, ..m }),
{
    the_first_with_a_hash_is_found(m.pending, hash);
    match place_of(m.pending, hash) {
        Some(i) => {
            assert(m.pending[i].hash == Some(hash));
            assert(after.pending[i] == put_off(m.pending[i], now));
        },
        None => {},
    }
}

/// Whether an action takes a message with an identifier out of the queue.
pub open spec fn takes_out(actions: Seq<ActionModel>, id: [u8; 32]) -> bool {
    exists|k: int|
        0 <= k < actions.len() && !((#[trigger] actions[k]) is PlanDirect) && queue_id(
            message_of(actions[k]),
        ) == Some(id)
}

proof fn lemma_all_handed_on(
    outbound: Map<[u8; 32], StoredOutboundModel>,
    actions: Seq<ActionModel>,
    id: [u8; 32],
)
    ensures
        takes_out(actions, id) ==> !all_handed_on(outbound, actions).contains_key(id),
        !takes_out(actions, id) ==> (all_handed_on(outbound, actions).contains_key(id)
            <==> outbound.contains_key(id)) && all_handed_on(outbound, actions)[id] == outbound[id],
    decreases actions.len(),
{
    if actions.len() > 0 {
        let rest = actions.drop_last();
        lemma_all_handed_on(outbound, rest, id);
        let last = actions.last();
        if takes_out(actions, id) {
            let k = choose|k: int|
                0 <= k < actions.len() && !((#[trigger] actions[k]) is PlanDirect) && queue_id(
                    message_of(actions[k]),
                ) == Some(id);
            if k < rest.len() {
                assert(rest[k] == actions[k]);
            }
        } else {
            if takes_out(rest, id) {
                let k = choose|k: int|
                    0 <= k < rest.len() && !((#[trigger] rest[k]) is PlanDirect) && queue_id(
                        message_of(rest[k]),
                    ) == Some(id);
                assert(actions[k] == rest[k]);
            }
            assert(actions[actions.len() - 1] == last);
        }
    }
}

/// Whether the last of some messages that storage can keep under an identifier is at a place.
pub open spec fn is_last_kept(messages: Seq<MessageModel>, id: [u8; 32], i: int) -> bool {
    &&& 0 <= i < messages.len()
    &&& queue_id(messages[i]) == Some(id) && is_packable(messages[i])
    &&& forall|j: int|
        i < j < messages.len() ==> !(queue_id(#[trigger] messages[j]) == Some(id) && is_packable(
            messages[j],
        ))
}

proof fn lemma_all_persisted(
    outbound: Map<[u8; 32], StoredOutboundModel>,
    messages: Seq<MessageModel>,
    id: [u8; 32],
)
    ensures
        forall|i: int| #[trigger]
            is_last_kept(messages, id, i) ==> all_persisted(outbound, messages).contains_key(id)
                && Some(all_persisted(outbound, messages)[id]) == stored_form(messages[i], false),
        (forall|i: int| !#[trigger] is_last_kept(messages, id, i)) ==> (all_persisted(
            outbound,
            messages,
        ).contains_key(id) <==> outbound.contains_key(id)) && all_persisted(outbound, messages)[id]
            == outbound[id],
    decreases messages.len(),
{
    if messages.len() > 0 {
        let rest = messages.drop_last();
        let last = messages.len() - 1;
        lemma_all_persisted(outbound, rest, id);
        if queue_id(messages[last]) == Some(id) && is_packable(messages[last]) {
            assert(is_last_kept(messages, id, last));
            assert forall|i: int| #[trigger] is_last_kept(messages, id, i) implies i == last by {
                if i < last {
                    assert(queue_id(messages[last]) == Some(id));
                }
            }
        } else {
            assert forall|i: int| is_last_kept(rest, id, i) <==> #[trigger] is_last_kept(
                messages,
                id,
                i,
            ) by {
                if is_last_kept(rest, id, i) {
                    assert forall|j: int| i < j < messages.len() implies !(queue_id(
                        #[trigger] messages[j],
                    ) == Some(id) && is_packable(messages[j])) by {
                        if j < last {
                            assert(rest[j] == messages[j]);
                        }
                    }
                }
                if is_last_kept(messages, id, i) {
                    assert(i < last);
                    assert forall|j: int| i < j < rest.len() implies !(queue_id(#[trigger] rest[j])
                        == Some(id) && is_packable(rest[j])) by {
                        assert(rest[j] == messages[j]);
                    }
                }
            }
            if forall|i: int| !#[trigger] is_last_kept(messages, id, i) {
                assert forall|i: int| !#[trigger] is_last_kept(rest, id, i) by {
                    assert(!is_last_kept(messages, id, i));
                }
            }
        }
    } else {
        assert forall|i: int| !#[trigger] is_last_kept(messages, id, i) by {}
    }
}

/// After a pass the queue in storage is the queue: what was handed on is out of it, what stays
/// is in it as it stays, and what the pass did not touch is as it was.
pub proof fn passes_keep_storage_in_step(
    m: RouterModel,
    after: RouterModel,
    left: Seq<MessageModel>,
    actions: Seq<ActionModel>,
    id: [u8; 32],
    i: int,
)
    requires
        is_brought_up_to_date(after_pass(m, left, actions), after, actions),
    ensures
        after.pending == left,
        !m.storage_authoritative ==> after.storage == m.storage,
        after.storage == (StorageModel { outbound: after.storage.outbound, ..m.storage }),
        m.storage_authoritative && m.reliable ==> {
            let kept = after.storage.outbound;
            &&& takes_out(actions, id) ==> !kept.contains_key(id)
            &&& !takes_out(actions, id) && is_last_kept(left, id, i) ==> kept.contains_key(id)
                && Some(kept[id]) == stored_form(left[i], false)
            &&& !takes_out(actions, id) && (forall|j: int| !#[trigger] is_last_kept(left, id, j))
                ==> (kept.contains_key(id) <==> m.storage.outbound.contains_key(id)) && kept[id]
                == m.storage.outbound[id]
        },
        after == (RouterModel {
            storage: after.storage,
            pending: after.pending,
            notices: after.notices,
            ..m
        }),
{
    lemma_all_handed_on(all_persisted(m.storage.outbound, left), actions, id);
    lemma_all_persisted(m.storage.outbound, left, id);
}

/// Whether an action gives a message up.
pub open spec fn gives_up(a: ActionModel) -> bool {
    a is Failed || a is Expired
}

/// The senders of the messages that a pass gives up are told, each once and in order, and
/// nobody else is.
pub proof fn failures_are_told(actions: Seq<ActionModel>)
    ensures
        failures(actions) == actions.filter(|a: ActionModel| gives_up(a)).map_values(
            |a: ActionModel| NoticeModel { delivered: false, message: message_of(a) },
        ),
    decreases actions.len(),
{
    reveal(Seq::filter);
    let up = |a: ActionModel| gives_up(a);
    let notice = |a: ActionModel| NoticeModel { delivered: false, message: message_of(a) };
    if actions.len() > 0 {
        let rest = actions.drop_last();
        failures_are_told(rest);
        let told = rest.filter(up);
        assert(told.push(actions.last()).map_values(notice) =~= told.map_values(notice).push(
            notice(actions.last()),
        ));
    } else {
        assert(failures(actions) =~= actions.filter(up).map_values(notice));
    }
}

/// A pass tells of the messages that it gives up, after what was told before.
pub proof fn passes_tell_of_failures(
    m: RouterModel,
    after: RouterModel,
    left: Seq<MessageModel>,
    actions: Seq<ActionModel>,
)
    requires
        is_brought_up_to_date(after_pass(m, left, actions), after, actions),
    ensures
        after.notices == m.notices + actions.filter(|a: ActionModel| gives_up(a)).map_values(
            |a: ActionModel| NoticeModel { delivered: false, message: message_of(a) },
        ),
{
    failures_are_told(actions);
}

/// A pass over the queue of a router deals with the queue that it found: what it does and what
/// it leaves follow from the messages, the time, the limit and the propagation node.
pub proof fn passes_deal_with_the_queue(
    h: RouterModel,
    after: RouterModel,
    now: i64,
    keep_direct: bool,
    actions: Seq<ActionModel>,
    l: MessageModel,
)
    requires
        is_swept(h, after, now, keep_direct, actions),
    ensures
        copies(after.pending, l) + departures(actions, l) == copies(h.pending, l),
        h.config.ext.processing_limit matches Some(most) ==> actions.len() <= most,
        is_brought_up_to_date(after_pass(h, after.pending, actions), after, actions),
        forall|i: int, a: ActionModel|
            #![trigger is_called_for(a, h.pending[i], now, h.outbound_propagation_node)]
            0 <= i < h.pending.len() && (h.config.ext.processing_limit matches Some(most)
                ==> actions.len() < most) && is_called_for(
                a,
                h.pending[i],
                now,
                h.outbound_propagation_node,
            ) && !(a is PlanDirect) && !(keep_direct && a is DeliverDirect) ==> actions.contains(a),
{
    let limit = h.config.ext.processing_limit;
    let node = h.outbound_propagation_node;
    letters_are_handed_on_or_stay(h.pending, limit, now, node, keep_direct, l);
    sweeping_loses_no_message(h.pending, limit, now, node, keep_direct);
    assert forall|i: int, a: ActionModel|
        #![trigger is_called_for(a, h.pending[i], now, node)]
        0 <= i < h.pending.len() && (limit matches Some(most) ==> actions.len() < most)
            && is_called_for(a, h.pending[i], now, node) && !(a is PlanDirect) && !(keep_direct
            && a is DeliverDirect) implies actions.contains(a) by {
        passes_do_what_is_called_for(h.pending, limit, now, node, keep_direct, i, a);
    }
}

/// A pass that plans deliveries accounts for every message of the queue, and hands on what goes
/// out without a link.
pub proof fn planned_passes_deal_with_the_queue(
    h: RouterModel,
    after: RouterModel,
    now: i64,
    inputs: Seq<DirectDeliveryPlanInput>,
    actions: Seq<ActionModel>,
    l: MessageModel,
)
    requires
        is_planned(h, after, now, inputs, actions),
    ensures
        copies(after.pending, l) + departures(actions, l) == copies(h.pending, l),
        h.config.ext.processing_limit matches Some(most) ==> actions.len() <= most,
        is_brought_up_to_date(after_pass(h, after.pending, actions), after, actions),
        forall|i: int, a: ActionModel|
            #![trigger is_called_for(a, h.pending[i], now, h.outbound_propagation_node)]
            0 <= i < h.pending.len() && (h.config.ext.processing_limit matches Some(most) ==> i
                < most) && is_called_for(a, h.pending[i], now, h.outbound_propagation_node) && !(
            a is PlanDirect) && !(a is DeliverDirect) ==> actions.contains(a),
{
    let limit = h.config.ext.processing_limit;
    let node = h.outbound_propagation_node;
    let links = link_models(inputs);
    planned_letters_are_handed_on_or_stay(h.pending, links, limit, now, node, l);
    passing_respects_the_limit(h.pending, links, limit, now, node);
    assert forall|i: int, a: ActionModel|
        #![trigger is_called_for(a, h.pending[i], now, node)]
        0 <= i < h.pending.len() && (limit matches Some(most) ==> i < most) && is_called_for(
            a,
            h.pending[i],
            now,
            node,
        ) && !(a is PlanDirect) && !(a is DeliverDirect) implies actions.contains(a) by {
        planned_passes_do_what_is_called_for(h.pending, links, limit, now, node, i, a);
    }
}

/// A router that is not to process its queue leaves everything alone; one that is takes in what
/// is due in storage and then deals with the queue.
pub proof fn queues_are_processed_where_wanted(
    m: RouterModel,
    after: RouterModel,
    now: i64,
    keep_direct: bool,
    actions: Seq<ActionModel>,
)
    requires
        is_processed(m, after, now, keep_direct, actions),
    ensures
        !m.config.ext.processing_outbound ==> after == m && actions.len() == 0,
        m.config.ext.processing_outbound ==> exists|h: RouterModel| #[trigger]
            is_hydrated(m, h, now) && is_swept(h, after, now, keep_direct, actions),
        m.config.ext.processing_outbound && (!m.storage_authoritative || m.pending.len() > 0)
            ==> is_swept(m, after, now, keep_direct, actions),
{
}

/// A pass with direct deliveries goes by what was asked of each message: the one in its place in
/// the queue, at the time of the pass, for each direct message that is still to be dealt with.
pub proof fn informed_passes_go_by_what_was_asked<
    F: Fn(&LxMessage, i64) -> DirectDeliveryPlanInput,
>(
    h: RouterModel,
    after: RouterModel,
    now: i64,
    direct_input: F,
    queue: Seq<LxMessage>,
    inputs: Seq<DirectDeliveryPlanInput>,
    actions: Seq<ActionModel>,
    i: int,
)
    requires
        is_informed_pass(h, after, now, direct_input, queue, inputs, actions),
    ensures
        queue.len() == h.pending.len(),
        inputs.len() == h.pending.len(),
        0 <= i < queue.len() ==> queue[i]@ == h.pending[i],
        0 <= i < queue.len() && h.config.ext.processing_limit is None && is_asked(
            h.pending[i],
            now,
        ) ==> call_ensures(direct_input, (&queue[i], now), inputs[i]),
        is_planned(h, after, now, inputs, actions),
{
    if 0 <= i < queue.len() {
        assert(message_models(queue)[i] == queue[i]@);
        if h.config.ext.processing_limit is None && is_asked(h.pending[i], now) {
            assert(is_asked(queue[i]@, now));
        }
    }
}

} // verus!
